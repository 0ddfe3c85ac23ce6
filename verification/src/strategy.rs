//! Strategies that hand out chunks to the nodes that will download them.
use vstd::prelude::*;

use crate::flags::{count_true, lemma_count_true_bound, lemma_count_true_set, lemma_count_true_unmarked};
use crate::types::{ChunkId, NodeId};

verus! {

/// A single chunk-to-node assignment produced by a scheduling strategy.
#[derive(Debug, Clone, Copy, PartialEq, Eq, Structural)]
pub struct ChunkAssignment {
    pub chunk_id: ChunkId,
    pub node_id: NodeId,
}

/// Sum of the bandwidths of all nodes.
pub open spec fn total_bandwidth(nodes: Seq<(NodeId, u64)>) -> nat
    decreases nodes.len(),
{
    if nodes.len() == 0 {
        0
    } else {
        total_bandwidth(nodes.drop_last()) + (nodes.last().1 as nat)
    }
}

/// Chunk `k` goes to node `k mod m`, in order.
pub open spec fn round_robin_matches(r: Seq<ChunkAssignment>, chunks: Seq<ChunkId>, nodes: Seq<(NodeId, u64)>) -> bool {
    &&& r.len() == chunks.len()
    &&& forall|k: int| 0 <= k < r.len() ==> (#[trigger] r[k]).chunk_id == chunks[k]
        && r[k].node_id == nodes[k % (nodes.len() as int)].0
}

/// The share of `n` chunks that node `i` earns by bandwidth, rounded down.
pub open spec fn base_quota(nodes: Seq<(NodeId, u64)>, n: nat, i: int) -> nat {
    ((nodes[i].1 as nat) * n / total_bandwidth(nodes)) as nat
}

/// Node `j` is served before node `i` when leftover chunks are handed out:
/// it has more bandwidth, or the same bandwidth and an earlier position.
pub open spec fn served_before(nodes: Seq<(NodeId, u64)>, j: int, i: int) -> bool {
    nodes[j].1 > nodes[i].1 || (nodes[j].1 == nodes[i].1 && j < i)
}

/// Sum of a sequence of quotas.
pub open spec fn quota_sum(q: Seq<usize>) -> nat
    decreases q.len(),
{
    if q.len() == 0 {
        0
    } else {
        quota_sum(q.drop_last()) + (q.last() as nat)
    }
}

/// `q` is the bandwidth-weighted split of `n` chunks over `nodes`: every node
/// gets its rounded-down share, and the chunks left over go one each to the
/// nodes served first.
pub open spec fn weighted_quotas(nodes: Seq<(NodeId, u64)>, n: nat, q: Seq<usize>) -> bool {
    &&& q.len() == nodes.len()
    &&& forall|i: int| 0 <= i < q.len() ==> #[trigger] q[i] == base_quota(nodes, n, i) || q[i] == base_quota(nodes, n, i) + 1
    &&& quota_sum(q) == n
    &&& forall|i: int, j: int|
        0 <= i < q.len() && 0 <= j < q.len() && #[trigger] q[i] == base_quota(nodes, n, i) + 1 && #[trigger] served_before(nodes, j, i)
            ==> q[j] == base_quota(nodes, n, j) + 1
}

/// Each node repeated as many times as its quota, nodes in order.
pub open spec fn expand(nodes: Seq<(NodeId, u64)>, q: Seq<usize>) -> Seq<NodeId>
    decreases q.len(),
{
    if q.len() == 0 || nodes.len() == 0 {
        Seq::empty()
    } else {
        expand(nodes.drop_last(), q.drop_last()) + Seq::new(q.last() as nat, |k: int| nodes.last().0)
    }
}

/// Chunks in order, each paired with the node at the same place of `expand(nodes, q)`.
pub open spec fn quota_matches(r: Seq<ChunkAssignment>, chunks: Seq<ChunkId>, nodes: Seq<(NodeId, u64)>, q: Seq<usize>) -> bool {
    &&& r.len() == chunks.len()
    &&& forall|k: int| 0 <= k < r.len() ==> (#[trigger] r[k]).chunk_id == chunks[k]
        && r[k].node_id == expand(nodes, q)[k]
}

/// A way of assigning chunks to nodes, given each node's effective bandwidth.
pub trait SchedulingStrategy {
    /// Assign `chunks` to `nodes`, each node given with its bandwidth in bytes per second.
    ///
    /// Each chunk is assigned at most once, so there are never more
    /// assignments than chunks.
    /// `r` is an assignment this strategy may make of `chunks` to `nodes`.
    spec fn assigns(&self, chunks: Seq<ChunkId>, nodes: Seq<(NodeId, u64)>, r: Seq<ChunkAssignment>) -> bool;

    /// Whether this strategy can work on `nodes` (for instance, whether their
    /// bandwidths can be added up without overflow when the strategy needs
    /// their sum).
    spec fn accepts(&self, nodes: Seq<(NodeId, u64)>) -> bool;

    fn assign(&self, chunks: &[ChunkId], nodes: &[(NodeId, u64)]) -> (r: Vec<ChunkAssignment>)
        requires
            self.accepts(nodes@),
        ensures
            r@.len() <= chunks@.len(),
            self.assigns(chunks@, nodes@, r@),
    ;

    /// The strategy admits one assignment only for given chunks and nodes.
    proof fn lemma_assigns_unique(&self, chunks: Seq<ChunkId>, nodes: Seq<(NodeId, u64)>, r1: Seq<ChunkAssignment>, r2: Seq<ChunkAssignment>)
        requires
            self.assigns(chunks, nodes, r1),
            self.assigns(chunks, nodes, r2),
        ensures
            r1 == r2,
    ;
}

/// Round-robin assignments of the same chunks to the same nodes are equal.
proof fn lemma_round_robin_unique(r1: Seq<ChunkAssignment>, r2: Seq<ChunkAssignment>, chunks: Seq<ChunkId>, nodes: Seq<(NodeId, u64)>)
    requires
        round_robin_matches(r1, chunks, nodes),
        round_robin_matches(r2, chunks, nodes),
    ensures
        r1 == r2,
{
    assert forall|k: int| 0 <= k < r1.len() implies r1[k] == r2[k] by {
        assert(r1[k].chunk_id == r2[k].chunk_id);
        assert(r1[k].node_id == r2[k].node_id);
    }
    assert(r1 =~= r2);
}

/// Quotas that are pointwise no larger sum to no more.
proof fn lemma_quota_sum_le(a: Seq<usize>, b: Seq<usize>)
    requires
        a.len() == b.len(),
        forall|j: int| 0 <= j < a.len() ==> a[j] <= b[j],
    ensures
        quota_sum(a) <= quota_sum(b),
    decreases a.len(),
{
    if a.len() > 0 {
        lemma_quota_sum_le(a.drop_last(), b.drop_last());
    }
}

/// Quotas that are pointwise no larger, and smaller at `i`, sum to less.
proof fn lemma_quota_sum_lt(a: Seq<usize>, b: Seq<usize>, i: int)
    requires
        a.len() == b.len(),
        forall|j: int| 0 <= j < a.len() ==> a[j] <= b[j],
        0 <= i < a.len(),
        a[i] < b[i],
    ensures
        quota_sum(a) < quota_sum(b),
    decreases a.len(),
{
    if i == a.len() - 1 {
        lemma_quota_sum_le(a.drop_last(), b.drop_last());
    } else {
        lemma_quota_sum_lt(a.drop_last(), b.drop_last(), i);
    }
}

/// Two weighted splits never have one node one above its share in `hi`
/// and at its share in `lo`.
proof fn lemma_quota_gap(nodes: Seq<(NodeId, u64)>, n: nat, hi: Seq<usize>, lo: Seq<usize>, i: int)
    requires
        weighted_quotas(nodes, n, hi),
        weighted_quotas(nodes, n, lo),
        0 <= i < hi.len(),
    ensures
        !(hi[i] == base_quota(nodes, n, i) + 1 && lo[i] == base_quota(nodes, n, i)),
{
    if hi[i] == base_quota(nodes, n, i) + 1 && lo[i] == base_quota(nodes, n, i) {
        assert forall|j: int| 0 <= j < lo.len() implies lo[j] <= hi[j] by {
            if j != i {
                if served_before(nodes, j, i) {
                    assert(hi[j] == base_quota(nodes, n, j) + 1);
                    assert(lo[j] == base_quota(nodes, n, j) || lo[j] == base_quota(nodes, n, j) + 1);
                } else {
                    assert(served_before(nodes, i, j));
                    if lo[j] == base_quota(nodes, n, j) + 1 {
                        assert(lo[i] == base_quota(nodes, n, i) + 1);
                    }
                    assert(lo[j] == base_quota(nodes, n, j));
                    assert(hi[j] == base_quota(nodes, n, j) || hi[j] == base_quota(nodes, n, j) + 1);
                }
            }
        }
        lemma_quota_sum_lt(lo, hi, i);
    }
}

/// The weighted split of `n` chunks over `nodes` is unique.
proof fn lemma_quotas_unique(nodes: Seq<(NodeId, u64)>, n: nat, q1: Seq<usize>, q2: Seq<usize>)
    requires
        weighted_quotas(nodes, n, q1),
        weighted_quotas(nodes, n, q2),
    ensures
        q1 == q2,
{
    assert forall|i: int| 0 <= i < q1.len() implies q1[i] == q2[i] by {
        if q1[i] != q2[i] {
            if q1[i] == base_quota(nodes, n, i) + 1 {
                lemma_quota_gap(nodes, n, q1, q2, i);
            } else {
                lemma_quota_gap(nodes, n, q2, q1, i);
            }
        }
    }
    assert(q1 =~= q2);
}

/// Chunk-by-chunk assignments along the same split are equal.
proof fn lemma_quota_matches_unique(
    r1: Seq<ChunkAssignment>,
    r2: Seq<ChunkAssignment>,
    chunks: Seq<ChunkId>,
    nodes: Seq<(NodeId, u64)>,
    q: Seq<usize>,
)
    requires
        quota_matches(r1, chunks, nodes, q),
        quota_matches(r2, chunks, nodes, q),
    ensures
        r1 == r2,
{
    assert forall|k: int| 0 <= k < r1.len() implies r1[k] == r2[k] by {
        assert(r1[k].chunk_id == r2[k].chunk_id);
        assert(r1[k].node_id == r2[k].node_id);
    }
    assert(r1 =~= r2);
}

/// Assigns chunks to nodes in round-robin order.
#[derive(Debug, Clone, Copy)]
pub struct RoundRobinStrategy;

impl RoundRobinStrategy {
    pub fn new() -> (r: Self)
        ensures
            r == RoundRobinStrategy,
    {
        RoundRobinStrategy
    }
}

impl Default for RoundRobinStrategy {
    fn default() -> (r: Self)
        ensures
            r == RoundRobinStrategy,
    {
        RoundRobinStrategy
    }
}

impl SchedulingStrategy for RoundRobinStrategy {
    /// Round robin never adds bandwidths up, so it works on any nodes.
    open spec fn accepts(&self, nodes: Seq<(NodeId, u64)>) -> bool {
        true
    }

    /// Chunk `k` goes to node `k mod m`; with no nodes nothing is assigned.
    open spec fn assigns(&self, chunks: Seq<ChunkId>, nodes: Seq<(NodeId, u64)>, r: Seq<ChunkAssignment>) -> bool {
        &&& nodes.len() == 0 ==> r.len() == 0
        &&& nodes.len() > 0 ==> round_robin_matches(r, chunks, nodes)
    }

    /// Chunk `k` goes to node `k mod m`; with no nodes nothing is assigned.
    fn assign(&self, chunks: &[ChunkId], nodes: &[(NodeId, u64)]) -> (r: Vec<ChunkAssignment>)
        ensures
            nodes@.len() == 0 ==> r@.len() == 0,
            nodes@.len() > 0 ==> round_robin_matches(r@, chunks@, nodes@),
    {
        let mut r: Vec<ChunkAssignment> = Vec::new();
        if nodes.len() == 0 {
            return r;
        }
        let m = nodes.len();
        let mut k: usize = 0;
        while k < chunks.len()
            invariant
                m == nodes@.len(),
                m > 0,
                k <= chunks@.len(),
                r@.len() == k,
                forall|j: int| 0 <= j < k ==> (#[trigger] r@[j]).chunk_id == chunks@[j]
                    && r@[j].node_id == nodes@[j % (m as int)].0,
            decreases chunks.len() - k,
        {
            r.push(ChunkAssignment { chunk_id: chunks[k], node_id: nodes[k % m].0 });
            k = k + 1;
        }
        r
    }

    proof fn lemma_assigns_unique(&self, chunks: Seq<ChunkId>, nodes: Seq<(NodeId, u64)>, r1: Seq<ChunkAssignment>, r2: Seq<ChunkAssignment>) {
        if nodes.len() == 0 {
            assert(r1 =~= r2);
        } else {
            lemma_round_robin_unique(r1, r2, chunks, nodes);
        }
    }
}

/// Rounded-down shares summed over `nodes`, each share taken of `n` against `t`.
pub open spec fn floor_sum(nodes: Seq<(NodeId, u64)>, n: nat, t: nat) -> nat
    decreases nodes.len(),
{
    if nodes.len() == 0 {
        0
    } else {
        floor_sum(nodes.drop_last(), n, t) + (nodes.last().1 as nat) * n / t
    }
}

proof fn lemma_total_take(nodes: Seq<(NodeId, u64)>, i: int)
    requires
        0 <= i <= nodes.len(),
    ensures
        total_bandwidth(nodes.take(i)) <= total_bandwidth(nodes),
        i < nodes.len() ==> total_bandwidth(nodes.take(i + 1)) == total_bandwidth(nodes.take(i)) + nodes[i].1,
        i < nodes.len() ==> total_bandwidth(nodes.take(i)) + nodes[i].1 <= total_bandwidth(nodes),
    decreases nodes.len(),
{
    if i < nodes.len() {
        assert(nodes.take(i + 1).drop_last() =~= nodes.take(i));
        let d = nodes.drop_last();
        assert(d.take(i) =~= nodes.take(i));
        if i < nodes.len() - 1 {
            lemma_total_take(d, i);
        } else {
            assert(nodes.take(i) =~= d);
        }
    } else {
        assert(nodes.take(i) =~= nodes);
    }
}

proof fn lemma_floor_sum(nodes: Seq<(NodeId, u64)>, n: nat, t: nat)
    requires
        t > 0,
    ensures
        t * floor_sum(nodes, n, t) <= n * total_bandwidth(nodes),
        n * total_bandwidth(nodes) <= t * floor_sum(nodes, n, t) + nodes.len() * (t - 1),
    decreases nodes.len(),
{
    if nodes.len() > 0 {
        let d = nodes.drop_last();
        lemma_floor_sum(d, n, t);
        let b = nodes.last().1 as nat;
        let x = b * n;
        let q = x / t;
        let r = x % t;
        vstd::arithmetic::div_mod::lemma_fundamental_div_mod(x as int, t as int);
        vstd::arithmetic::div_mod::lemma_mod_pos_bound(x as int, t as int);
        let tb = total_bandwidth(d);
        let fs = floor_sum(d, n, t);
        assert(total_bandwidth(nodes) == tb + b);
        assert(floor_sum(nodes, n, t) == fs + q);
        assert(n * (tb + b) == n * tb + x) by (nonlinear_arith)
            requires
                x == b * n,
        ;
        assert(t * (fs + q) == t * fs + t * q) by (nonlinear_arith);
        assert(nodes.len() * (t - 1) == d.len() * (t - 1) + (t - 1)) by (nonlinear_arith)
            requires
                nodes.len() == d.len() + 1,
        ;
        assert(x == t * q + r);
        assert(0 <= r < t);
        assert(t * floor_sum(nodes, n, t) == t * fs + t * q);
        assert(n * total_bandwidth(nodes) == n * tb + x);
        assert(t * fs <= n * tb);
        assert(n * tb <= t * fs + d.len() * (t - 1));
        assert(t * floor_sum(nodes, n, t) <= n * total_bandwidth(nodes));
        assert(n * total_bandwidth(nodes) <= t * floor_sum(nodes, n, t) + nodes.len() * (t - 1));
    } else {
        let fs = floor_sum(nodes, n, t);
        let tb = total_bandwidth(nodes);
        assert(t * fs == 0 && n * tb == 0) by (nonlinear_arith)
            requires
                fs == 0,
                tb == 0,
        ;
    }
}

proof fn lemma_floor_sum_take(nodes: Seq<(NodeId, u64)>, n: nat, t: nat, i: int)
    requires
        0 <= i <= nodes.len(),
        t > 0,
    ensures
        floor_sum(nodes.take(i), n, t) <= floor_sum(nodes, n, t),
        i < nodes.len() ==> floor_sum(nodes.take(i + 1), n, t) == floor_sum(nodes.take(i), n, t) + (nodes[i].1 as nat) * n / t,
    decreases nodes.len(),
{
    if i < nodes.len() {
        assert(nodes.take(i + 1).drop_last() =~= nodes.take(i));
        let d = nodes.drop_last();
        assert(d.take(i) =~= nodes.take(i));
        let b = nodes.last().1 as nat;
        assert(b * n / t >= 0) by (nonlinear_arith)
            requires
                t > 0,
        ;
        assert(floor_sum(nodes, n, t) == floor_sum(d, n, t) + b * n / t);
        if i < nodes.len() - 1 {
            lemma_floor_sum_take(d, n, t, i);
            assert(floor_sum(nodes.take(i), n, t) <= floor_sum(nodes, n, t));
        } else {
            assert(nodes.take(i) =~= d);
            assert(floor_sum(nodes.take(i), n, t) <= floor_sum(nodes, n, t));
        }
    } else {
        assert(nodes.take(i) =~= nodes);
    }
}

proof fn lemma_quota_sum_take(q: Seq<usize>, i: int)
    requires
        0 <= i <= q.len(),
    ensures
        quota_sum(q.take(i)) <= quota_sum(q),
        i < q.len() ==> quota_sum(q.take(i + 1)) == quota_sum(q.take(i)) + q[i],
        i < q.len() ==> quota_sum(q.take(i)) + q[i] <= quota_sum(q),
    decreases q.len(),
{
    if i < q.len() {
        assert(q.take(i + 1).drop_last() =~= q.take(i));
        let d = q.drop_last();
        assert(d.take(i) =~= q.take(i));
        if i < q.len() - 1 {
            lemma_quota_sum_take(d, i);
        } else {
            assert(q.take(i) =~= d);
        }
    } else {
        assert(q.take(i) =~= q);
    }
}

proof fn lemma_quota_sum_bump(q: Seq<usize>, i: int, v: usize)
    requires
        0 <= i < q.len(),
        v == q[i] + 1,
    ensures
        quota_sum(q.update(i, v)) == quota_sum(q) + 1,
    decreases q.len(),
{
    let u = q.update(i, v);
    if i == q.len() - 1 {
        assert(u.drop_last() =~= q.drop_last());
    } else {
        assert(u.drop_last() =~= q.drop_last().update(i, v));
        lemma_quota_sum_bump(q.drop_last(), i, v);
    }
}

proof fn lemma_expand_take(nodes: Seq<(NodeId, u64)>, q: Seq<usize>, i: int)
    requires
        nodes.len() == q.len(),
        0 <= i < q.len(),
    ensures
        expand(nodes.take(i + 1), q.take(i + 1)) == expand(nodes.take(i), q.take(i)) + Seq::new(
            q[i] as nat,
            |k: int| nodes[i].0,
        ),
{
    assert(nodes.take(i + 1).drop_last() =~= nodes.take(i));
    assert(q.take(i + 1).drop_last() =~= q.take(i));
}

proof fn lemma_expand_len(nodes: Seq<(NodeId, u64)>, q: Seq<usize>)
    requires
        nodes.len() == q.len(),
    ensures
        expand(nodes, q).len() == quota_sum(q),
    decreases q.len(),
{
    if q.len() > 0 {
        lemma_expand_len(nodes.drop_last(), q.drop_last());
    }
}

/// Sum of the bandwidths of `nodes`.
fn sum_bandwidth(nodes: &[(NodeId, u64)]) -> (t: u64)
    requires
        total_bandwidth(nodes@) <= u64::MAX,
    ensures
        t == total_bandwidth(nodes@),
{
    let mut t: u64 = 0;
    let mut i: usize = 0;
    while i < nodes.len()
        invariant
            i <= nodes@.len(),
            total_bandwidth(nodes@) <= u64::MAX,
            t == total_bandwidth(nodes@.take(i as int)),
        decreases nodes.len() - i,
    {
        proof {
            lemma_total_take(nodes@, i as int);
        }
        t = t + nodes[i].1;
        i = i + 1;
    }
    proof {
        assert(nodes@.take(i as int) =~= nodes@);
    }
    t
}

/// The bandwidth-weighted split of `n` chunks over `nodes`, whose bandwidths sum to `total`.
fn weighted_split(nodes: &[(NodeId, u64)], total: u64, n: usize) -> (q: Vec<usize>)
    requires
        total == total_bandwidth(nodes@),
        total > 0,
        nodes@.len() > 0,
    ensures
        weighted_quotas(nodes@, n as nat, q@),
{
    let m = nodes.len();
    let ghost t = total as nat;
    let ghost fs = floor_sum(nodes@, n as nat, t);
    proof {
        lemma_floor_sum(nodes@, n as nat, t);
        assert(fs <= n) by (nonlinear_arith)
            requires
                t > 0,
                t * fs <= n * t,
        ;
        assert(n < fs + m) by (nonlinear_arith)
            requires
                t > 0,
                m > 0,
                n * t <= t * fs + m * (t - 1),
        ;
    }
    let mut quotas: Vec<usize> = Vec::new();
    let mut assigned: usize = 0;
    let mut i: usize = 0;
    while i < m
        invariant
            m == nodes@.len(),
            total == total_bandwidth(nodes@),
            t == total as nat,
            total > 0,
            fs == floor_sum(nodes@, n as nat, t),
            fs <= n,
            i <= m,
            quotas@.len() == i,
            forall|j: int| 0 <= j < i ==> #[trigger] quotas@[j] == base_quota(nodes@, n as nat, j),
            quota_sum(quotas@) == floor_sum(nodes@.take(i as int), n as nat, t),
            assigned == quota_sum(quotas@),
        decreases m - i,
    {
        let b = nodes[i].1;
        proof {
            lemma_total_take(nodes@, i as int);
            lemma_floor_sum_take(nodes@, n as nat, t, i as int);
            lemma_floor_sum_take(nodes@, n as nat, t, i as int + 1);
            assert((b as nat) * (n as nat) <= (total as nat) * (n as nat)) by (nonlinear_arith)
                requires
                    b <= total,
            ;
            vstd::arithmetic::div_mod::lemma_div_is_ordered((b as nat * n as nat) as int, (total as nat * n as nat) as int, total as int);
            vstd::arithmetic::div_mod::lemma_div_multiples_vanish(n as int, total as int);
            assert((b as u128) * (n as u128) <= u128::MAX) by (nonlinear_arith)
                requires
                    b <= u64::MAX,
                    n <= u64::MAX,
            ;
        }
        let f = ((b as u128) * (n as u128) / (total as u128)) as usize;
        proof {
            assert(quotas@.push(f).drop_last() =~= quotas@);
        }
        quotas.push(f);
        assigned = assigned + f;
        i = i + 1;
    }
    proof {
        assert(nodes@.take(m as int) =~= nodes@);
    }
    let mut rem: usize = n - assigned;
    let mut bonus: Vec<bool> = Vec::new();
    let mut c: usize = 0;
    while c < m
        invariant
            c <= m,
            bonus@.len() == c,
            forall|j: int| 0 <= j < c ==> !#[trigger] bonus@[j],
            count_true(bonus@) == 0,
        decreases m - c,
    {
        proof {
            assert(bonus@.push(false).drop_last() =~= bonus@);
        }
        bonus.push(false);
        c = c + 1;
    }
    while rem > 0
        invariant
            m == nodes@.len(),
            total == total_bandwidth(nodes@),
            total > 0,
            n < fs + m,
            fs <= n,
            assigned == fs,
            quotas@.len() == m,
            bonus@.len() == m,
            forall|j: int| 0 <= j < m ==> #[trigger] quotas@[j] == base_quota(nodes@, n as nat, j) + if bonus@[j] { 1nat } else { 0nat },
            count_true(bonus@) + rem == n - fs,
            quota_sum(quotas@) + rem == n,
            forall|a: int, j: int| 0 <= a < m && 0 <= j < m && #[trigger] bonus@[a] && #[trigger] served_before(nodes@, j, a) ==> bonus@[j],
        decreases rem,
    {
        let mut best: usize = m;
        let mut k: usize = 0;
        while k < m
            invariant
                m == nodes@.len(),
                bonus@.len() == m,
                k <= m,
                best == m || (best < k && !bonus@[best as int]),
                best == m ==> forall|j: int| 0 <= j < k ==> #[trigger] bonus@[j],
                best < m ==> forall|j: int| 0 <= j < k && !bonus@[j] && j != best ==> #[trigger] served_before(nodes@, best as int, j),
            decreases m - k,
        {
            if !bonus[k] && (best == m || nodes[k].1 > nodes[best].1) {
                proof {
                    if best < m {
                        assert forall|j: int| 0 <= j < k && !bonus@[j] && j != k implies #[trigger] served_before(nodes@, k as int, j) by {
                            if j != best {
                                assert(served_before(nodes@, best as int, j));
                            }
                        }
                    }
                }
                best = k;
            }
            k = k + 1;
        }
        proof {
            lemma_count_true_bound(bonus@);
            if best == m {
                lemma_count_true_unmarked(bonus@);
            }
        }
        let ghost before = bonus@;
        proof {
            lemma_count_true_set(bonus@, best as int);
            lemma_quota_sum_take(quotas@, best as int);
            lemma_quota_sum_bump(quotas@, best as int, (quotas@[best as int] + 1) as usize);
        }
        bonus.set(best, true);
        let v = quotas[best] + 1;
        quotas.set(best, v);
        rem = rem - 1;
        proof {
            assert forall|a: int, j: int| 0 <= a < m && 0 <= j < m && #[trigger] bonus@[a] && #[trigger] served_before(nodes@, j, a) implies bonus@[j] by {
                if a != best {
                    assert(before[a]);
                } else if !before[j] && j != best {
                    assert(served_before(nodes@, best as int, j));
                }
            }
        }
    }
    proof {
        assert forall|a: int, j: int|
            0 <= a < m && 0 <= j < m && #[trigger] quotas@[a] == base_quota(nodes@, n as nat, a) + 1 && #[trigger] served_before(nodes@, j, a)
            implies quotas@[j] == base_quota(nodes@, n as nat, j) + 1 by {
            assert(bonus@[a]);
        }
    }
    quotas
}

/// Chunks in order, node `i` taking the next `q[i]` of them.
fn assign_by_quota(chunks: &[ChunkId], nodes: &[(NodeId, u64)], q: &Vec<usize>) -> (r: Vec<ChunkAssignment>)
    requires
        q@.len() == nodes@.len(),
        quota_sum(q@) == chunks@.len(),
    ensures
        quota_matches(r@, chunks@, nodes@, q@),
{
    let m = nodes.len();
    let ghost n = chunks@.len();
    let mut r: Vec<ChunkAssignment> = Vec::new();
    let mut pos: usize = 0;
    let mut i: usize = 0;
    proof {
        assert(nodes@.take(0) =~= Seq::<(NodeId, u64)>::empty());
        assert(q@.take(0) =~= Seq::<usize>::empty());
    }
    while i < m
        invariant
            m == nodes@.len(),
            q@.len() == m,
            quota_sum(q@) == n,
            n == chunks@.len(),
            i <= m,
            pos == quota_sum(q@.take(i as int)),
            r@.len() == pos,
            forall|k: int| 0 <= k < pos ==> (#[trigger] r@[k]).chunk_id == chunks@[k]
                && r@[k].node_id == expand(nodes@.take(i as int), q@.take(i as int))[k],
        decreases m - i,
    {
        let qi = q[i];
        let ghost base = pos as int;
        let ghost prev = expand(nodes@.take(i as int), q@.take(i as int));
        proof {
            lemma_quota_sum_take(q@, i as int);
            lemma_expand_len(nodes@.take(i as int), q@.take(i as int));
        }
        let mut c: usize = 0;
        while c < qi
            invariant
                m == nodes@.len(),
                q@.len() == m,
                n == chunks@.len(),
                i < m,
                qi == q@[i as int],
                base + qi <= n,
                prev.len() == base,
                c <= qi,
                pos == base + c,
                r@.len() == pos,
                forall|k: int| 0 <= k < base ==> (#[trigger] r@[k]).chunk_id == chunks@[k] && r@[k].node_id == prev[k],
                forall|k: int| base <= k < pos ==> (#[trigger] r@[k]).chunk_id == chunks@[k] && r@[k].node_id == nodes@[i as int].0,
            decreases qi - c,
        {
            r.push(ChunkAssignment { chunk_id: chunks[pos], node_id: nodes[i].0 });
            pos = pos + 1;
            c = c + 1;
        }
        proof {
            lemma_expand_take(nodes@, q@, i as int);
            let next = expand(nodes@.take(i + 1), q@.take(i + 1));
            assert forall|k: int| 0 <= k < pos implies (#[trigger] r@[k]).chunk_id == chunks@[k]
                && r@[k].node_id == next[k] by {
                if k >= base {
                    assert(next[k] == nodes@[i as int].0);
                }
            }
        }
        i = i + 1;
    }
    proof {
        assert(nodes@.take(m as int) =~= nodes@);
        assert(q@.take(m as int) =~= q@);
    }
    r
}

/// Assigns chunks in proportion to each node's bandwidth.
#[derive(Debug, Clone, Copy)]
pub struct BandwidthWeightedStrategy;

impl BandwidthWeightedStrategy {
    pub fn new() -> (r: Self)
        ensures
            r == BandwidthWeightedStrategy,
    {
        BandwidthWeightedStrategy
    }
}

impl Default for BandwidthWeightedStrategy {
    fn default() -> (r: Self)
        ensures
            r == BandwidthWeightedStrategy,
    {
        BandwidthWeightedStrategy
    }
}

impl SchedulingStrategy for BandwidthWeightedStrategy {
    /// The bandwidths must add up within 64 bits.
    open spec fn accepts(&self, nodes: Seq<(NodeId, u64)>) -> bool {
        total_bandwidth(nodes) <= u64::MAX
    }

    /// Shares by bandwidth, round robin when no node has any bandwidth.
    open spec fn assigns(&self, chunks: Seq<ChunkId>, nodes: Seq<(NodeId, u64)>, r: Seq<ChunkAssignment>) -> bool {
        &&& nodes.len() == 0 || chunks.len() == 0 ==> r.len() == 0
        &&& nodes.len() > 0 && chunks.len() > 0 && total_bandwidth(nodes) == 0 ==> round_robin_matches(r, chunks, nodes)
        &&& nodes.len() > 0 && chunks.len() > 0 && total_bandwidth(nodes) > 0 ==> exists|q: Seq<usize>|
            weighted_quotas(nodes, chunks.len() as nat, q) && quota_matches(r, chunks, nodes, q)
    }

    /// Each node gets its rounded-down share of the chunks by bandwidth; the
    /// chunks left over go one each to the fastest nodes (ties by position).
    /// Chunks are handed out in order, node by node. With no bandwidth at
    /// all this falls back to round robin.
    fn assign(&self, chunks: &[ChunkId], nodes: &[(NodeId, u64)]) -> (r: Vec<ChunkAssignment>)
        ensures
            nodes@.len() == 0 || chunks@.len() == 0 ==> r@.len() == 0,
            nodes@.len() > 0 && chunks@.len() > 0 && total_bandwidth(nodes@) == 0 ==> round_robin_matches(r@, chunks@, nodes@),
            nodes@.len() > 0 && chunks@.len() > 0 && total_bandwidth(nodes@) > 0 ==> exists|q: Seq<usize>|
                weighted_quotas(nodes@, chunks@.len() as nat, q) && quota_matches(r@, chunks@, nodes@, q),
    {
        if nodes.len() == 0 || chunks.len() == 0 {
            return Vec::new();
        }
        let total = sum_bandwidth(nodes);
        if total == 0 {
            return RoundRobinStrategy.assign(chunks, nodes);
        }
        let quotas = weighted_split(nodes, total, chunks.len());
        let r = assign_by_quota(chunks, nodes, &quotas);
        r
    }

    proof fn lemma_assigns_unique(&self, chunks: Seq<ChunkId>, nodes: Seq<(NodeId, u64)>, r1: Seq<ChunkAssignment>, r2: Seq<ChunkAssignment>) {
        if nodes.len() == 0 || chunks.len() == 0 {
            assert(r1 =~= r2);
        } else if total_bandwidth(nodes) == 0 {
            lemma_round_robin_unique(r1, r2, chunks, nodes);
        } else {
            let q1 = choose|q: Seq<usize>| weighted_quotas(nodes, chunks.len() as nat, q) && quota_matches(r1, chunks, nodes, q);
            let q2 = choose|q: Seq<usize>| weighted_quotas(nodes, chunks.len() as nat, q) && quota_matches(r2, chunks, nodes, q);
            lemma_quotas_unique(nodes, chunks.len() as nat, q1, q2);
            lemma_quota_matches_unique(r1, r2, chunks, nodes, q1);
        }
    }
}

} // verus!
