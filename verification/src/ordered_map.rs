//! A map from integer keys to values, kept in increasing key order.
//!
//! Every table of the runtime that is keyed by a node, chunk or task id is one
//! of these: lookups, inserts and removals are exact, and walking the entries
//! yields the keys in increasing order.
use vstd::prelude::*;

verus! {

/// Keys strictly increase along the sequence.
pub open spec fn strictly_increasing(s: Seq<u64>) -> bool {
    forall|i: int, j: int| 0 <= i < j < s.len() ==> s[i] < s[j]
}

/// The map whose entries pair each key with the value at the same position.
pub open spec fn map_of<V>(keys: Seq<u64>, vals: Seq<V>) -> Map<u64, V> {
    Map::new(|k: u64| keys.contains(k), |k: u64| vals[keys.index_of(k)])
}

proof fn lemma_index_of_unique(keys: Seq<u64>, i: int)
    requires
        strictly_increasing(keys),
        0 <= i < keys.len(),
    ensures
        keys.index_of(keys[i]) == i,
{
    let k = keys[i];
    assert(keys.contains(k));
    let j = keys.index_of(k);
    if j < i {
        assert(keys[j] < keys[i]);
    } else if j > i {
        assert(keys[i] < keys[j]);
    }
}

/// Overwriting the value at a key's position is inserting that key with the new value.
proof fn lemma_map_of_update<V>(keys: Seq<u64>, vals: Seq<V>, pos: int)
    requires
        strictly_increasing(keys),
        keys.len() == vals.len(),
        0 <= pos < keys.len(),
    ensures
        forall|x: V| #[trigger] map_of(keys, vals.update(pos, x)) == map_of(keys, vals).insert(keys[pos], x),
{
    assert forall|x: V| #[trigger] map_of(keys, vals.update(pos, x)) == map_of(keys, vals).insert(keys[pos], x) by {
        let a = map_of(keys, vals.update(pos, x));
        let b = map_of(keys, vals).insert(keys[pos], x);
        lemma_index_of_unique(keys, pos);
        assert(keys.contains(keys[pos]));
        assert forall|k2: u64| #[trigger] a.contains_key(k2) implies a[k2] == b[k2] by {
            let i = keys.index_of(k2);
            lemma_index_of_unique(keys, i);
        }
        assert(a =~= b);
    }
}

/// A finite map from `u64` keys to values, stored in increasing key order.
#[derive(Debug, Clone)]
pub struct OrderedMap<V> {
    keys: Vec<u64>,
    vals: Vec<V>,
}

impl<V> OrderedMap<V> {
    /// The keys, in increasing order.
    pub closed spec fn key_seq(&self) -> Seq<u64> {
        self.keys@
    }

    /// The values, in the order of their keys.
    pub closed spec fn val_seq(&self) -> Seq<V> {
        self.vals@
    }

    /// Internal consistency: as many values as keys, keys strictly increasing.
    pub closed spec fn wf(&self) -> bool {
        &&& self.keys@.len() == self.vals@.len()
        &&& strictly_increasing(self.keys@)
    }

    /// The map this structure represents.
    pub closed spec fn view(&self) -> Map<u64, V> {
        map_of(self.keys@, self.vals@)
    }

    proof fn lemma_index(&self, i: int)
        requires
            self.wf(),
            0 <= i < self.keys@.len(),
        ensures
            self.keys@.index_of(self.keys@[i]) == i,
            self@.contains_key(self.keys@[i]),
            self@[self.keys@[i]] == self.vals@[i],
    {
        let k = self.keys@[i];
        assert(self.keys@.contains(k));
        let j = self.keys@.index_of(k);
        assert(0 <= j < self.keys@.len() && self.keys@[j] == k);
        if j < i {
            assert(self.keys@[j] < self.keys@[i]);
        } else if j > i {
            assert(self.keys@[i] < self.keys@[j]);
        }
    }

    /// Facts that tie the ordered entries to the map.
    pub proof fn lemma_view(&self)
        requires
            self.wf(),
        ensures
            self.key_seq().len() == self.val_seq().len(),
            strictly_increasing(self.key_seq()),
            self.key_seq().no_duplicates(),
            self.key_seq().to_set() == self@.dom(),
            self@.dom().finite(),
            self@.dom().len() == self.key_seq().len(),
            forall|i: int| 0 <= i < self.key_seq().len() ==> #[trigger] self@[self.key_seq()[i]] == self.val_seq()[i],
            forall|k: u64| #[trigger] self@.contains_key(k) <==> self.key_seq().contains(k),
    {
        assert forall|i: int| 0 <= i < self.key_seq().len() implies #[trigger] self@[self.key_seq()[i]] == self.val_seq()[i] by {
            self.lemma_index(i);
        }
        assert(self.keys@.no_duplicates()) by {
            assert forall|i: int, j: int| 0 <= i < self.keys@.len() && 0 <= j < self.keys@.len() && i != j implies self.keys@[i] != self.keys@[j] by {
                if i < j {
                    assert(self.keys@[i] < self.keys@[j]);
                } else {
                    assert(self.keys@[j] < self.keys@[i]);
                }
            }
        }
        assert(self.keys@.to_set() =~= self@.dom());
        self.keys@.unique_seq_to_set();
    }

    /// An empty map.
    pub fn new() -> (r: Self)
        ensures
            r.wf(),
            r@ == Map::<u64, V>::empty(),
    {
        let r = OrderedMap { keys: Vec::new(), vals: Vec::new() };
        assert(r@ =~= Map::<u64, V>::empty());
        r
    }

    /// Number of entries.
    pub fn len(&self) -> (n: usize)
        requires
            self.wf(),
        ensures
            n == self@.len(),
            n == self.key_seq().len(),
    {
        proof {
            self.lemma_view();
        }
        self.keys.len()
    }

    /// Where `k` is, or where it would be inserted: the number of keys below `k`.
    fn position(&self, k: u64) -> (r: (bool, usize))
        requires
            self.wf(),
        ensures
            r.1 <= self.keys@.len(),
            forall|i: int| 0 <= i < r.1 ==> self.keys@[i] < k,
            r.0 ==> r.1 < self.keys@.len() && self.keys@[r.1 as int] == k,
            !r.0 ==> forall|i: int| r.1 <= i < self.keys@.len() ==> self.keys@[i] > k,
            r.0 == self.keys@.contains(k),
    {
        let mut lo: usize = 0;
        let mut hi: usize = self.keys.len();
        while lo < hi
            invariant
                self.wf(),
                lo <= hi <= self.keys@.len(),
                forall|i: int| 0 <= i < lo ==> self.keys@[i] < k,
                forall|i: int| hi <= i < self.keys@.len() ==> self.keys@[i] >= k,
            decreases hi - lo,
        {
            let mid = lo + (hi - lo) / 2;
            if self.keys[mid] < k {
                lo = mid + 1;
            } else {
                hi = mid;
            }
        }
        let found = lo < self.keys.len() && self.keys[lo] == k;
        proof {
            if !found {
                assert forall|i: int| lo <= i < self.keys@.len() implies self.keys@[i] > k by {
                    if i > lo {
                        assert(self.keys@[lo as int] < self.keys@[i]);
                    }
                }
                if self.keys@.contains(k) {
                    let j = choose|j: int| 0 <= j < self.keys@.len() && self.keys@[j] == k;
                    assert(false);
                }
            }
        }
        (found, lo)
    }

    /// Whether `k` has an entry.
    pub fn contains_key(&self, k: u64) -> (r: bool)
        requires
            self.wf(),
        ensures
            r == self@.contains_key(k),
    {
        let (found, _) = self.position(k);
        found
    }

    /// The position of `k` among the keys in increasing order, if it has an entry.
    pub fn find(&self, k: u64) -> (r: Option<usize>)
        requires
            self.wf(),
        ensures
            r is Some <==> self@.contains_key(k),
            r matches Some(i) ==> i < self.key_seq().len() && self.key_seq()[i as int] == k,
    {
        let (found, pos) = self.position(k);
        if found {
            Some(pos)
        } else {
            None
        }
    }

    /// The value stored under `k`.
    pub fn get(&self, k: u64) -> (r: Option<&V>)
        requires
            self.wf(),
        ensures
            self@.contains_key(k) ==> r == Some(&self@[k]),
            !self@.contains_key(k) ==> r is None,
    {
        let (found, pos) = self.position(k);
        if found {
            proof {
                self.lemma_index(pos as int);
            }
            Some(&self.vals[pos])
        } else {
            None
        }
    }

    /// A mutable reference to the value stored under `k`.
    pub fn get_mut(&mut self, k: u64) -> (r: Option<&mut V>)
        requires
            old(self).wf(),
        ensures
            old(self)@.contains_key(k) <==> r is Some,
            r is Some ==> *r->0 == old(self)@[k],
            r is Some ==> final(self)@ == old(self)@.insert(k, *final(r->0)),
            r is None ==> final(self)@ == old(self)@,
            final(self).wf(),
            final(self).key_seq() == old(self).key_seq(),
    {
        let (found, pos) = self.position(k);
        if found {
            proof {
                self.lemma_index(pos as int);
                lemma_map_of_update(self.keys@, self.vals@, pos as int);
            }
            let r = &mut self.vals[pos];
            Some(r)
        } else {
            None
        }
    }

    /// Stores `v` under `k`, returning the value it replaces.
    pub fn insert(&mut self, k: u64, v: V) -> (r: Option<V>)
        requires
            old(self).wf(),
        ensures
            final(self).wf(),
            final(self)@ == old(self)@.insert(k, v),
            old(self)@.contains_key(k) ==> r == Some(old(self)@[k]),
            !old(self)@.contains_key(k) ==> r is None,
    {
        let (found, pos) = self.position(k);
        if found {
            proof {
                self.lemma_index(pos as int);
            }
            let mut v2 = v;
            std::mem::swap(&mut self.vals[pos], &mut v2);
            proof {
                assert(self.keys@ == old(self).keys@);
                assert(self.vals@ == old(self).vals@.update(pos as int, v));
                assert(self@ =~= old(self)@.insert(k, v)) by {
                    assert forall|k2: u64| #[trigger] self@.contains_key(k2) implies self@[k2] == old(self)@.insert(k, v)[k2] by {
                        let i = self.keys@.index_of(k2);
                        self.lemma_index(i);
                        old(self).lemma_index(i);
                    }
                }
            }
            Some(v2)
        } else {
            self.keys.insert(pos, k);
            self.vals.insert(pos, v);
            proof {
                let ok = old(self).keys@;
                assert(self.keys@ == ok.insert(pos as int, k));
                assert(strictly_increasing(self.keys@)) by {
                    assert forall|i: int, j: int| 0 <= i < j < self.keys@.len() implies self.keys@[i] < self.keys@[j] by {
                        if j < pos {
                        } else if j == pos {
                        } else if i < pos {
                            assert(self.keys@[j] == ok[j - 1]);
                        } else if i == pos {
                            assert(self.keys@[j] == ok[j - 1]);
                        } else {
                            assert(self.keys@[j] == ok[j - 1]);
                            assert(self.keys@[i] == ok[i - 1]);
                        }
                    }
                }
                assert(self.wf());
                assert(self@ =~= old(self)@.insert(k, v)) by {
                    assert forall|k2: u64| self@.contains_key(k2) <==> old(self)@.insert(k, v).contains_key(k2) by {
                        if self.keys@.contains(k2) {
                            let i = choose|i: int| 0 <= i < self.keys@.len() && self.keys@[i] == k2;
                            if i < pos {
                                assert(ok[i] == k2);
                            } else if i > pos {
                                assert(ok[i - 1] == k2);
                            }
                        }
                        if ok.contains(k2) {
                            let i = choose|i: int| 0 <= i < ok.len() && ok[i] == k2;
                            if i < pos {
                                assert(self.keys@[i] == k2);
                            } else {
                                assert(self.keys@[i + 1] == k2);
                            }
                        }
                        if k2 == k {
                            assert(self.keys@[pos as int] == k);
                        }
                    }
                    assert forall|k2: u64| #[trigger] self@.contains_key(k2) implies self@[k2] == old(self)@.insert(k, v)[k2] by {
                        let i = self.keys@.index_of(k2);
                        self.lemma_index(i);
                        if i < pos {
                            old(self).lemma_index(i);
                        } else if i > pos {
                            old(self).lemma_index(i - 1);
                        }
                    }
                }
            }
            None
        }
    }

    /// Removes the entry for `k`, returning its value.
    pub fn remove(&mut self, k: u64) -> (r: Option<V>)
        requires
            old(self).wf(),
        ensures
            final(self).wf(),
            final(self)@ == old(self)@.remove(k),
            old(self)@.contains_key(k) ==> r == Some(old(self)@[k]),
            !old(self)@.contains_key(k) ==> r is None,
    {
        let (found, pos) = self.position(k);
        if found {
            proof {
                self.lemma_index(pos as int);
            }
            self.keys.remove(pos);
            let v = self.vals.remove(pos);
            proof {
                let ok = old(self).keys@;
                assert(self.keys@ == ok.remove(pos as int));
                assert(strictly_increasing(self.keys@)) by {
                    assert forall|i: int, j: int| 0 <= i < j < self.keys@.len() implies self.keys@[i] < self.keys@[j] by {
                        if j < pos {
                        } else if i < pos {
                            assert(self.keys@[j] == ok[j + 1]);
                        } else {
                            assert(self.keys@[j] == ok[j + 1]);
                            assert(self.keys@[i] == ok[i + 1]);
                        }
                    }
                }
                assert(self.wf());
                assert(self@ =~= old(self)@.remove(k)) by {
                    assert forall|k2: u64| self@.contains_key(k2) <==> old(self)@.remove(k).contains_key(k2) by {
                        if self.keys@.contains(k2) {
                            let i = choose|i: int| 0 <= i < self.keys@.len() && self.keys@[i] == k2;
                            if i < pos {
                                assert(ok[i] == k2);
                                assert(ok[i] < ok[pos as int]);
                            } else {
                                assert(ok[i + 1] == k2);
                                assert(ok[pos as int] < ok[i + 1]);
                            }
                        }
                        if ok.contains(k2) && k2 != k {
                            let i = choose|i: int| 0 <= i < ok.len() && ok[i] == k2;
                            if i < pos {
                                assert(self.keys@[i] == k2);
                            } else {
                                assert(i != pos);
                                assert(self.keys@[i - 1] == k2);
                            }
                        }
                    }
                    assert forall|k2: u64| #[trigger] self@.contains_key(k2) implies self@[k2] == old(self)@.remove(k)[k2] by {
                        let i = self.keys@.index_of(k2);
                        self.lemma_index(i);
                        if i < pos {
                            old(self).lemma_index(i);
                        } else {
                            old(self).lemma_index(i + 1);
                        }
                    }
                }
            }
            Some(v)
        } else {
            proof {
                assert(old(self)@.remove(k) =~= old(self)@);
            }
            None
        }
    }

    /// Removes every entry.
    pub fn clear(&mut self)
        ensures
            final(self).wf(),
            final(self)@ == Map::<u64, V>::empty(),
    {
        self.keys.clear();
        self.vals.clear();
        assert(self@ =~= Map::<u64, V>::empty());
    }

    /// The `i`-th smallest key.
    pub fn key_at(&self, i: usize) -> (k: u64)
        requires
            self.wf(),
            i < self.key_seq().len(),
        ensures
            k == self.key_seq()[i as int],
    {
        self.keys[i]
    }

    /// The value of the `i`-th smallest key.
    pub fn value_at(&self, i: usize) -> (v: &V)
        requires
            self.wf(),
            i < self.key_seq().len(),
        ensures
            *v == self.val_seq()[i as int],
    {
        &self.vals[i]
    }

    /// A mutable reference to the value of the `i`-th smallest key.
    pub fn value_at_mut(&mut self, i: usize) -> (v: &mut V)
        requires
            old(self).wf(),
            i < old(self).key_seq().len(),
        ensures
            *v == old(self).val_seq()[i as int],
            final(self).key_seq() == old(self).key_seq(),
            final(self).val_seq() == old(self).val_seq().update(i as int, *final(v)),
            final(self).wf(),
    {
        &mut self.vals[i]
    }

    /// All keys, in increasing order.
    pub fn keys(&self) -> (r: Vec<u64>)
        requires
            self.wf(),
        ensures
            r@ == self.key_seq(),
    {
        self.keys.clone()
    }
}

impl<V: Copy> OrderedMap<V> {
    /// An entry-for-entry copy.
    pub fn copy(&self) -> (r: Self)
        requires
            self.wf(),
        ensures
            r.wf(),
            r.key_seq() == self.key_seq(),
            r.val_seq() == self.val_seq(),
            r@ == self@,
    {
        let mut keys: Vec<u64> = Vec::new();
        let mut vals: Vec<V> = Vec::new();
        let mut i: usize = 0;
        while i < self.keys.len()
            invariant
                self.wf(),
                i <= self.keys@.len(),
                keys@ == self.keys@.take(i as int),
                vals@ == self.vals@.take(i as int),
            decreases self.keys.len() - i,
        {
            keys.push(self.keys[i]);
            vals.push(self.vals[i]);
            i = i + 1;
            assert(keys@ =~= self.keys@.take(i as int));
            assert(vals@ =~= self.vals@.take(i as int));
        }
        assert(self.keys@.take(i as int) =~= self.keys@);
        assert(self.vals@.take(i as int) =~= self.vals@);
        OrderedMap { keys, vals }
    }
}

} // verus!
