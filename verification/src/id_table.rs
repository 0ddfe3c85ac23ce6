//! A table keyed by 128-bit identifiers, kept in insertion order.
use vstd::prelude::*;

verus! {

/// The map whose entries pair each key with the value at the same position.
pub open spec fn table_of<V>(keys: Seq<u128>, vals: Seq<V>) -> Map<u128, V> {
    Map::new(|k: u128| keys.contains(k), |k: u128| vals[keys.index_of(k)])
}

proof fn lemma_index_of_distinct(keys: Seq<u128>, i: int)
    requires
        keys.no_duplicates(),
        0 <= i < keys.len(),
    ensures
        keys.index_of(keys[i]) == i,
{
    let k = keys[i];
    assert(keys.contains(k));
    let j = keys.index_of(k);
    if j != i {
        assert(keys[j] == keys[i]);
    }
}

/// Overwriting the value at a key's position is inserting that key with the new value.
proof fn lemma_table_update<V>(keys: Seq<u128>, vals: Seq<V>, pos: int)
    requires
        keys.no_duplicates(),
        keys.len() == vals.len(),
        0 <= pos < keys.len(),
    ensures
        forall|x: V| #[trigger] table_of(keys, vals.update(pos, x)) == table_of(keys, vals).insert(keys[pos], x),
{
    assert forall|x: V| #[trigger] table_of(keys, vals.update(pos, x)) == table_of(keys, vals).insert(keys[pos], x) by {
        let a = table_of(keys, vals.update(pos, x));
        let b = table_of(keys, vals).insert(keys[pos], x);
        lemma_index_of_distinct(keys, pos);
        assert(keys.contains(keys[pos]));
        assert forall|k2: u128| #[trigger] a.contains_key(k2) implies a[k2] == b[k2] by {
            let j = keys.index_of(k2);
            lemma_index_of_distinct(keys, j);
        }
        assert(a =~= b);
    }
}

/// A finite map from `u128` keys to values, entries kept in insertion order.
#[derive(Debug, Clone)]
pub struct IdTable<V> {
    keys: Vec<u128>,
    vals: Vec<V>,
}

impl<V> IdTable<V> {
    /// The keys, in insertion order.
    pub closed spec fn key_seq(&self) -> Seq<u128> {
        self.keys@
    }

    /// The values, in the order of their keys.
    pub closed spec fn val_seq(&self) -> Seq<V> {
        self.vals@
    }

    /// As many values as keys, and no key twice.
    pub closed spec fn wf(&self) -> bool {
        &&& self.keys@.len() == self.vals@.len()
        &&& self.keys@.no_duplicates()
    }

    /// The map this table represents.
    pub closed spec fn view(&self) -> Map<u128, V> {
        table_of(self.keys@, self.vals@)
    }

    /// Facts that tie the entries in order to the map.
    pub proof fn lemma_view(&self)
        requires
            self.wf(),
        ensures
            self.key_seq().len() == self.val_seq().len(),
            self.key_seq().no_duplicates(),
            self@.dom().finite(),
            self@.dom().len() == self.key_seq().len(),
            self@.dom() == self.key_seq().to_set(),
            forall|i: int| 0 <= i < self.key_seq().len() ==> #[trigger] self@[self.key_seq()[i]] == self.val_seq()[i],
            forall|k: u128| #[trigger] self@.contains_key(k) <==> self.key_seq().contains(k),
    {
        assert forall|i: int| 0 <= i < self.key_seq().len() implies #[trigger] self@[self.key_seq()[i]] == self.val_seq()[i] by {
            lemma_index_of_distinct(self.keys@, i);
        }
        assert(self@.dom() =~= self.keys@.to_set());
        self.keys@.unique_seq_to_set();
    }

    /// An empty table.
    pub fn new() -> (r: Self)
        ensures
            r.wf(),
            r@ == Map::<u128, V>::empty(),
            r.key_seq() == Seq::<u128>::empty(),
    {
        let r = IdTable { keys: Vec::new(), vals: Vec::new() };
        assert(r@ =~= Map::<u128, V>::empty());
        r
    }

    /// Number of entries.
    pub fn len(&self) -> (n: usize)
        requires
            self.wf(),
        ensures
            n == self.key_seq().len(),
            n == self@.dom().len(),
    {
        proof {
            self.lemma_view();
        }
        self.keys.len()
    }

    /// Position of `k`, if it has an entry.
    pub fn find(&self, k: u128) -> (r: Option<usize>)
        requires
            self.wf(),
        ensures
            r is Some <==> self@.contains_key(k),
            r matches Some(i) ==> i < self.key_seq().len() && self.key_seq()[i as int] == k && self@[k]
                == self.val_seq()[i as int],
    {
        proof {
            self.lemma_view();
        }
        let mut i: usize = 0;
        while i < self.keys.len()
            invariant
                self.wf(),
                i <= self.keys@.len(),
                forall|j: int| 0 <= j < i ==> self.keys@[j] != k,
            decreases self.keys.len() - i,
        {
            if self.keys[i] == k {
                proof {
                    lemma_index_of_distinct(self.keys@, i as int);
                }
                return Some(i);
            }
            i = i + 1;
        }
        None
    }

    /// The key of entry `i`.
    pub fn key_at(&self, i: usize) -> (k: u128)
        requires
            self.wf(),
            i < self.key_seq().len(),
        ensures
            k == self.key_seq()[i as int],
    {
        self.keys[i]
    }

    /// The value of entry `i`.
    pub fn value_at(&self, i: usize) -> (v: &V)
        requires
            self.wf(),
            i < self.key_seq().len(),
        ensures
            *v == self.val_seq()[i as int],
            *v == self@[self.key_seq()[i as int]],
    {
        proof {
            lemma_index_of_distinct(self.keys@, i as int);
        }
        &self.vals[i]
    }

    /// A mutable reference to the value of entry `i`.
    pub fn value_at_mut(&mut self, i: usize) -> (v: &mut V)
        requires
            old(self).wf(),
            i < old(self).key_seq().len(),
        ensures
            *v == old(self).val_seq()[i as int],
            *v == old(self)@[old(self).key_seq()[i as int]],
            final(self).wf(),
            final(self).key_seq() == old(self).key_seq(),
            final(self).val_seq() == old(self).val_seq().update(i as int, *final(v)),
            final(self)@ == old(self)@.insert(old(self).key_seq()[i as int], *final(v)),
    {
        proof {
            lemma_table_update(self.keys@, self.vals@, i as int);
            lemma_index_of_distinct(self.keys@, i as int);
        }
        &mut self.vals[i]
    }

    /// Adds an entry for a key that has none yet, after all other entries.
    pub fn push(&mut self, k: u128, v: V)
        requires
            old(self).wf(),
            !old(self)@.contains_key(k),
        ensures
            final(self).wf(),
            final(self)@ == old(self)@.insert(k, v),
            final(self).key_seq() == old(self).key_seq().push(k),
            final(self).val_seq() == old(self).val_seq().push(v),
    {
        proof {
            self.lemma_view();
        }
        self.keys.push(k);
        self.vals.push(v);
        proof {
            let ok = old(self).keys@;
            assert(self.keys@.no_duplicates()) by {
                assert forall|a: int, b: int| 0 <= a < self.keys@.len() && 0 <= b < self.keys@.len() && a != b implies self.keys@[a] != self.keys@[b] by {
                    if a == ok.len() {
                        assert(ok.contains(self.keys@[b]));
                    } else if b == ok.len() {
                        assert(ok.contains(self.keys@[a]));
                    }
                }
            }
            assert(self@ =~= old(self)@.insert(k, v)) by {
                assert forall|k2: u128| self@.contains_key(k2) <==> old(self)@.insert(k, v).contains_key(k2) by {
                    if self.keys@.contains(k2) && k2 != k {
                        let i = self.keys@.index_of(k2);
                        assert(ok[i] == k2);
                    }
                    if ok.contains(k2) {
                        let i = ok.index_of(k2);
                        assert(self.keys@[i] == k2);
                    }
                    if k2 == k {
                        assert(self.keys@[ok.len() as int] == k);
                    }
                }
                assert forall|k2: u128| #[trigger] self@.contains_key(k2) implies self@[k2] == old(self)@.insert(k, v)[k2] by {
                    let i = self.keys@.index_of(k2);
                    lemma_index_of_distinct(self.keys@, i);
                    if i < ok.len() {
                        lemma_index_of_distinct(ok, i);
                    }
                }
            }
        }
    }

}

} // verus!
