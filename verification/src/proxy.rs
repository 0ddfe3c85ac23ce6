//! Choosing which node carries a proxied connection.
//!
//! Every candidate node (this node first, then the active nodes of the
//! overlay) is picked with a probability proportional to its WAN bandwidth,
//! a node reporting no bandwidth counting as one byte per second.
use vstd::prelude::*;

use crate::node::Node;
use crate::state_table::{available_ids, OverlayStateTable};
use crate::types::{ids_sorted, NodeId};

verus! {

/// The weight of a candidate: its bandwidth, at least one.
pub open spec fn weight(bw: u64) -> nat {
    if bw == 0 { 1 } else { bw as nat }
}

/// Sum of the weights of the first `k` candidates.
pub open spec fn weight_before(c: Seq<(NodeId, u64)>, k: int) -> nat
    decreases k,
{
    if k <= 0 {
        0
    } else {
        weight_before(c, k - 1) + weight(c[k - 1].1)
    }
}

/// Candidate `i` owns the points from the weights before it up to its own weight on top.
pub open spec fn owns_point(c: Seq<(NodeId, u64)>, i: int, point: nat) -> bool {
    0 <= i < c.len() && weight_before(c, i) <= point < weight_before(c, i + 1)
}

proof fn lemma_weight_before_mono(c: Seq<(NodeId, u64)>, i: int, j: int)
    requires
        0 <= i <= j,
    ensures
        weight_before(c, i) <= weight_before(c, j),
    decreases j,
{
    if i < j {
        lemma_weight_before_mono(c, i, j - 1);
    }
}

/// The candidate whose share of the weights holds `point`, with its weight;
/// `None` when `point` is past the total weight.
pub fn pick_weighted(candidates: &[(NodeId, u64)], point: u64) -> (r: Option<(NodeId, u64)>)
    ensures
        r matches Some(x) ==> exists|i: int| #[trigger] owns_point(candidates@, i, point as nat) && x == (
            candidates@[i].0,
            weight(candidates@[i].1) as u64,
        ),
        r is None ==> point >= weight_before(candidates@, candidates@.len() as int),
{
    let mut rest: u64 = point;
    let mut i: usize = 0;
    while i < candidates.len()
        invariant
            i <= candidates@.len(),
            point >= weight_before(candidates@, i as int),
            rest == point - weight_before(candidates@, i as int),
        decreases candidates.len() - i,
    {
        let bw = candidates[i].1;
        let w = if bw == 0 { 1 } else { bw };
        if rest < w {
            assert(owns_point(candidates@, i as int, point as nat));
            return Some((candidates[i].0, w));
        }
        rest = rest - w;
        i = i + 1;
    }
    None
}

/// Draws a number below `bound` with `rand::thread_rng().gen_range(0..bound)`.
/// Claimed: the number is below the bound (the range is not empty, so the
/// call does not panic). It is random, so nothing else is claimed.
#[verifier::external_body]
fn random_below(bound: u64) -> (r: u64)
    requires
        bound > 0,
    ensures
        r < bound,
{
    rand::Rng::gen_range(&mut rand::thread_rng(), 0..bound)
}

/// The active ids of `a` that name a node of `nodes`, each with that node's WAN bandwidth.
pub open spec fn candidates_of(a: Seq<NodeId>, nodes: Map<u64, Node>) -> Seq<(NodeId, u64)>
    decreases a.len(),
{
    if a.len() == 0 {
        Seq::empty()
    } else {
        let rest = candidates_of(a.drop_last(), nodes);
        if nodes.contains_key(a.last().0) {
            rest.push((a.last(), nodes[a.last().0].config.wan_bandwidth))
        } else {
            rest
        }
    }
}

/// The nodes a proxied connection may go through: this node with its own
/// bandwidth, then every active node of the overlay with its configured WAN
/// bandwidth, by increasing id.
pub fn proxy_candidates(local: NodeId, wan_bandwidth: u64, overlay: &OverlayStateTable) -> (r: Vec<(NodeId, u64)>)
    requires
        overlay.wf(),
    ensures
        exists|a: Seq<NodeId>|
            ids_sorted(a) && a.to_multiset() == available_ids(overlay.node_values()).to_multiset() && r@ == seq![
                (local, wan_bandwidth),
            ] + candidates_of(a, overlay@.nodes),
{
    let active = overlay.active_nodes();
    let mut r: Vec<(NodeId, u64)> = Vec::new();
    r.push((local, wan_bandwidth));
    let mut k: usize = 0;
    while k < active.len()
        invariant
            overlay.wf(),
            k <= active@.len(),
            r@ == seq![(local, wan_bandwidth)] + candidates_of(active@.take(k as int), overlay@.nodes),
        decreases active.len() - k,
    {
        let id = active[k];
        proof {
            assert(active@.take(k + 1).drop_last() =~= active@.take(k as int));
        }
        match overlay.get_node(id) {
            Some(n) => {
                r.push((id, n.config.wan_bandwidth));
            },
            None => {},
        }
        k = k + 1;
        proof {
            assert(r@ =~= seq![(local, wan_bandwidth)] + candidates_of(active@.take(k as int), overlay@.nodes));
        }
    }
    proof {
        assert(active@.take(k as int) =~= active@);
    }
    r
}

/// The candidate list of `proxy_candidates` for these inputs.
pub open spec fn candidate_list(local: NodeId, wan_bandwidth: u64, overlay: &OverlayStateTable, a: Seq<NodeId>) -> Seq<(NodeId, u64)> {
    seq![(local, wan_bandwidth)] + candidates_of(a, overlay@.nodes)
}

/// `a` is the overlay's active ids in increasing order.
pub open spec fn is_active_list(overlay: &OverlayStateTable, a: Seq<NodeId>) -> bool {
    ids_sorted(a) && a.to_multiset() == available_ids(overlay.node_values()).to_multiset()
}

/// The total weight of `candidates`: the size of the range a point is drawn from.
pub fn total_weight(candidates: &[(NodeId, u64)]) -> (t: u64)
    requires
        weight_before(candidates@, candidates@.len() as int) <= u64::MAX,
    ensures
        t == weight_before(candidates@, candidates@.len() as int),
{
    let mut total: u64 = 0;
    let mut i: usize = 0;
    while i < candidates.len()
        invariant
            i <= candidates@.len(),
            total == weight_before(candidates@, i as int),
            weight_before(candidates@, candidates@.len() as int) <= u64::MAX,
        decreases candidates.len() - i,
    {
        let bw = candidates[i].1;
        let w = if bw == 0 { 1 } else { bw };
        proof {
            lemma_weight_before_mono(candidates@, i + 1, candidates@.len() as int);
        }
        total = total + w;
        i = i + 1;
    }
    total
}

/// `x` is the candidate of `c` that owns the point `p`, with its weight, and
/// `p` lies below the total weight of `c`.
pub open spec fn picked_at(c: Seq<(NodeId, u64)>, p: nat, x: (NodeId, u64)) -> bool {
    &&& p < weight_before(c, c.len() as int)
    &&& exists|i: int| #[trigger] owns_point(c, i, p) && x == (c[i].0, weight(c[i].1) as u64)
}

/// Pick the node for a proxied connection: a point is drawn at random below
/// the total weight of the candidates, and the candidate owning that point is
/// returned with its weight, so each candidate is picked with a chance
/// proportional to its weight.
pub fn select_node(local: NodeId, wan_bandwidth: u64, overlay: &OverlayStateTable) -> (r: Option<(NodeId, u64)>)
    requires
        overlay.wf(),
        forall|a: Seq<NodeId>| #[trigger] is_active_list(overlay, a) ==> weight_before(
            candidate_list(local, wan_bandwidth, overlay, a),
            candidate_list(local, wan_bandwidth, overlay, a).len() as int,
        ) <= u64::MAX,
    ensures
        r is Some,
        exists|a: Seq<NodeId>, p: nat|
            #[trigger] is_active_list(overlay, a) && #[trigger] picked_at(candidate_list(local, wan_bandwidth, overlay, a), p, r->0),
{
    let c = proxy_candidates(local, wan_bandwidth, overlay);
    let ghost a = choose|a: Seq<NodeId>| ids_sorted(a) && a.to_multiset() == available_ids(overlay.node_values()).to_multiset()
        && c@ == seq![(local, wan_bandwidth)] + candidates_of(a, overlay@.nodes);
    proof {
        assert(is_active_list(overlay, a));
        assert(c@ == candidate_list(local, wan_bandwidth, overlay, a));
    }
    let total = total_weight(&c);
    proof {
        assert(c@.len() > 0);
        lemma_weight_before_mono(c@, 1, c@.len() as int);
    }
    let point = random_below(total);
    let r = pick_weighted(&c, point);
    proof {
        if r is None {
            assert(false);
        }
        let x = r->0;
        let i = choose|i: int| #[trigger] owns_point(c@, i, point as nat) && x == (c@[i].0, weight(c@[i].1) as u64);
        assert(picked_at(c@, point as nat, x));
        assert(picked_at(candidate_list(local, wan_bandwidth, overlay, a), point as nat, r->0));
    }
    r
}

} // verus!
