//! Counting the marked positions of a sequence of flags.
use vstd::prelude::*;

verus! {

/// Number of `true` entries.
pub open spec fn count_true(s: Seq<bool>) -> nat
    decreases s.len(),
{
    if s.len() == 0 {
        0
    } else {
        count_true(s.drop_last()) + if s.last() { 1nat } else { 0nat }
    }
}

pub proof fn lemma_count_true_bound(s: Seq<bool>)
    ensures
        count_true(s) <= s.len(),
    decreases s.len(),
{
    if s.len() > 0 {
        lemma_count_true_bound(s.drop_last());
    }
}

pub proof fn lemma_count_true_set(s: Seq<bool>, i: int)
    requires
        0 <= i < s.len(),
        !s[i],
    ensures
        count_true(s.update(i, true)) == count_true(s) + 1,
    decreases s.len(),
{
    let t = s.update(i, true);
    if i == s.len() - 1 {
        assert(t.drop_last() =~= s.drop_last());
    } else {
        assert(t.drop_last() =~= s.drop_last().update(i, true));
        lemma_count_true_set(s.drop_last(), i);
    }
}

pub proof fn lemma_count_prefix(v: Seq<bool>, s: int, m: int)
    requires
        0 <= s < v.len(),
        0 <= m <= v.len(),
        forall|k: int| 0 <= k < v.len() ==> #[trigger] v[k] == (k == s),
    ensures
        count_true(v.take(m)) == if m > s { 1nat } else { 0nat },
    decreases m,
{
    if m > 0 {
        lemma_count_prefix(v, s, m - 1);
        assert(v.take(m).drop_last() =~= v.take(m - 1));
    }
}

/// A sequence with fewer marks than positions has an unmarked position.
pub proof fn lemma_count_true_unmarked(s: Seq<bool>)
    requires
        count_true(s) < s.len(),
    ensures
        exists|i: int| 0 <= i < s.len() && !s[i],
    decreases s.len(),
{
    if s.last() {
        lemma_count_true_unmarked(s.drop_last());
        let i = choose|i: int| 0 <= i < s.drop_last().len() && !s.drop_last()[i];
        assert(!s[i]);
    } else {
        assert(!s[s.len() - 1]);
    }
}

} // verus!
