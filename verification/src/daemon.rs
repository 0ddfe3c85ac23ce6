//! The decisions of a running node: what it does on each peer message,
//! connection event and timer tick.
//!
//! A [`NodeState`] holds what the node knows; each handler updates it and
//! returns the actions to carry out. The caller owns the connections and the
//! chunk store: it performs the actions (sending, reading, writing) and
//! reports their outcome back through the matching handler.
use vstd::prelude::*;

use crate::bonded::{batch_of, first_stop, BondedDownload, BondedStatus};
use crate::chunk::ChunkMeta;
use crate::cluster::ClusterConfig;
use crate::digest::{blake3_digest, blake3_hash, digests_equal};
use crate::id_table::IdTable;
use crate::manifest::{copy_manifest, same_manifest, Manifest};
use crate::net::NetMessage;
use crate::ordered_map::OrderedMap;
use crate::node::{Node, NodeConfig, NodeStatus};
use crate::state_table::{available_ids, OverlayStateTable, OverlayView};
use crate::topology::ids_increasing;
use crate::types::ids_sorted;
use crate::transfer::{
    distinct_chunk_ids, lemma_complete_iff_all_received, overdue_requests, rarer, requested_from, requeued, with_holder, without_chunk_holder, without_holder, TransferProgress,
    TransferTracker,
};
use crate::types::{ChunkId, ManifestId, NodeId, SimTime};

verus! {

/// Most chunk requests a transfer keeps outstanding at once.
pub const MAX_IN_FLIGHT: usize = 5;

/// How long a chunk request may stay unanswered before it is taken back: 5 s.
pub const REQUEST_TIMEOUT_MS: u64 = 5000;

/// The peer a chunk is requested from: the lowest-numbered known holder of
/// chunk `c` of manifest `m` that is not this node (`local`).
pub open spec fn source_for(h: Map<u128, Map<u64, Set<u64>>>, m: u128, c: u64, local: u64) -> Option<NodeId> {
    if h.contains_key(m) && h[m].contains_key(c) && exists|n: u64| #[trigger] h[m][c].contains(n) && n != local {
        Some(
            NodeId(
                choose|n: u64|
                    #[trigger] h[m][c].contains(n) && n != local && forall|k: u64| #[trigger] h[m][c].contains(k) && k != local ==> n <= k,
            ),
        )
    } else {
        None
    }
}

/// The requests made going down `order`: each chunk with a source is asked
/// of it, until `budget` requests are made.
pub open spec fn request_picks(
    order: Seq<ChunkId>,
    h: Map<u128, Map<u64, Set<u64>>>,
    m: u128,
    local: u64,
    budget: int,
) -> Seq<(ChunkId, NodeId)>
    decreases order.len(),
{
    if order.len() == 0 || budget <= 0 {
        Seq::empty()
    } else {
        match source_for(h, m, order[0].0 as u64, local) {
            Some(n) => seq![(order[0], n)] + request_picks(order.drop_first(), h, m, local, budget - 1),
            None => request_picks(order.drop_first(), h, m, local, budget),
        }
    }
}

/// The chunks named in `picks`.
pub open spec fn picked_chunks(picks: Seq<(ChunkId, NodeId)>) -> Set<u64>
    decreases picks.len(),
{
    if picks.len() == 0 {
        Set::empty()
    } else {
        picked_chunks(picks.drop_last()).insert(picks.last().0.0 as u64)
    }
}

/// The in-flight entries that `picks`, made at `now`, add.
pub open spec fn request_map(picks: Seq<(ChunkId, NodeId)>, now: u64) -> Map<u64, (NodeId, u64)>
    decreases picks.len(),
{
    if picks.len() == 0 {
        Map::empty()
    } else {
        request_map(picks.drop_last(), now).insert(picks.last().0.0 as u64, (picks.last().1, now))
    }
}

/// `q` is `p` after the requests `picks` were made at `now`.
pub open spec fn with_requests(p: TransferProgress, q: TransferProgress, picks: Seq<(ChunkId, NodeId)>, now: u64) -> bool {
    &&& q.manifest == p.manifest
    &&& q.started_at == p.started_at
    &&& q.received() == p.received()
    &&& q.pending() == p.pending().difference(picked_chunks(picks))
    &&& q.in_flight() == p.in_flight().union_prefer_right(request_map(picks, now))
}

/// `order` lists the pending chunks of transfer `m` rarest first.
pub open spec fn rarest_order(h: Map<u128, Map<u64, Set<u64>>>, m: u128, pending: Set<u64>, order: Seq<ChunkId>) -> bool {
    &&& forall|i: int, j: int| 0 <= i < j < order.len() ==> #[trigger] rarer(h, m, order[i].0 as u64, order[j].0 as u64)
    &&& forall|x: ChunkId| order.contains(x) <==> pending.contains(x.0 as u64)
}

/// The lowest id in `v` other than `local`, when `v` is increasing.
fn first_other(v: &Vec<NodeId>, local: NodeId) -> (r: Option<NodeId>)
    requires
        ids_increasing(v@),
    ensures
        r is None ==> forall|i: int| 0 <= i < v@.len() ==> v@[i] == local,
        r matches Some(n) ==> v@.contains(n) && n != local && forall|i: int| 0 <= i < v@.len() && v@[i] != local ==> n.0 <= v@[i].0,
{
    let mut i: usize = 0;
    while i < v.len()
        invariant
            ids_increasing(v@),
            i <= v@.len(),
            forall|t: int| 0 <= t < i ==> v@[t] == local,
        decreases v.len() - i,
    {
        if v[i].0 != local.0 {
            proof {
                assert forall|t: int| 0 <= t < v@.len() && v@[t] != local implies v@[i as int].0 <= v@[t].0 by {
                    if t < i {
                    } else if t > i {
                        assert(v@[i as int].0 < v@[t].0);
                    }
                }
            }
            return Some(v[i]);
        }
        i = i + 1;
    }
    None
}

proof fn lemma_request_map_dom(picks: Seq<(ChunkId, NodeId)>, now: u64)
    ensures
        request_map(picks, now).dom() == picked_chunks(picks),
    decreases picks.len(),
{
    if picks.len() > 0 {
        lemma_request_map_dom(picks.drop_last(), now);
    }
    assert(request_map(picks, now).dom() =~= picked_chunks(picks));
}

/// What [`source_for`] gives, read off the sorted holder list of the chunk.
proof fn lemma_source_for(
    h: Map<u128, Map<u64, Set<u64>>>,
    m: u128,
    c: u64,
    local: NodeId,
    holders: Option<Vec<NodeId>>,
    target: Option<NodeId>,
)
    requires
        h.contains_key(m) && h[m].contains_key(c) ==> (holders matches Some(v) && ids_increasing(v@) && forall|x: NodeId|
            v@.contains(x) <==> h[m][c].contains(x.0)),
        !(h.contains_key(m) && h[m].contains_key(c)) ==> holders is None,
        holders is None ==> target is None,
        holders matches Some(v) ==> (target is None ==> forall|i: int| 0 <= i < v@.len() ==> v@[i] == local),
        holders matches Some(v) ==> (target matches Some(n) ==> v@.contains(n) && n != local && forall|i: int|
            0 <= i < v@.len() && v@[i] != local ==> n.0 <= v@[i].0),
    ensures
        source_for(h, m, c, local.0) == target,
{
    if h.contains_key(m) && h[m].contains_key(c) {
        let v = holders->0;
        let s = h[m][c];
        match target {
            Some(n) => {
                assert(s.contains(n.0));
                assert forall|k: u64| #[trigger] s.contains(k) && k != local.0 implies n.0 <= k by {
                    assert(v@.contains(NodeId(k)));
                    let t = choose|t: int| 0 <= t < v@.len() && v@[t] == NodeId(k);
                    assert(v@[t] != local);
                }
                let w = choose|x: u64| #[trigger] s.contains(x) && x != local.0 && forall|k: u64| #[trigger] s.contains(k) && k != local.0 ==> x <= k;
                assert(s.contains(w) && w != local.0);
                assert(w <= n.0);
                assert(n.0 <= w);
            },
            None => {
                assert forall|x: u64| #[trigger] s.contains(x) implies x == local.0 by {
                    assert(v@.contains(NodeId(x)));
                    let t = choose|t: int| 0 <= t < v@.len() && v@[t] == NodeId(x);
                    assert(v@[t] == local);
                }
            },
        }
    }
}

/// One more request keeps the picture: the chunk moves from pending to in flight.
proof fn lemma_request_step(
    p0: TransferProgress,
    p: TransferProgress,
    q: TransferProgress,
    picked: Seq<(ChunkId, NodeId)>,
    x: (ChunkId, NodeId),
    now: u64,
)
    requires
        p0.wf(),
        p.wf(),
        with_requests(p0, p, picked, now),
        p0.pending().contains(x.0.0 as u64),
        !picked_chunks(picked).contains(x.0.0 as u64),
        q.manifest == p.manifest,
        q.started_at == p.started_at,
        q.received() == p.received(),
        q.pending() == p.pending().remove(x.0.0 as u64),
        q.in_flight() == p.in_flight().insert(x.0.0 as u64, (x.1, now)),
    ensures
        with_requests(p0, q, picked.push(x), now),
        q.in_flight().len() == p.in_flight().len() + 1,
{
    let c = x.0.0 as u64;
    let np = picked.push(x);
    assert(np.drop_last() =~= picked);
    assert(picked_chunks(np) == picked_chunks(picked).insert(c));
    assert(request_map(np, now) == request_map(picked, now).insert(c, (x.1, now)));
    assert(q.pending() =~= p0.pending().difference(picked_chunks(np)));
    assert(q.in_flight() =~= p0.in_flight().union_prefer_right(request_map(np, now)));
    lemma_request_map_dom(picked, now);
    assert(p0.chunks_pending@.contains_key(c));
    assert(!p0.in_flight().contains_key(c));
    assert(!p.in_flight().contains_key(c));
    p.chunks_in_flight.lemma_view();
}

/// `t1` is `t0` after the pending chunks of transfer `m` were requested by
/// node `local` at `now` (see [`plan_requests`]), the requests being `picks`.
pub open spec fn requests_made(
    t0: TransferTracker,
    t1: TransferTracker,
    m: ManifestId,
    local: NodeId,
    now: u64,
    picks: Seq<(ChunkId, NodeId)>,
) -> bool {
    &&& t1.wf()
    &&& t1.holders() == t0.holders()
    &&& t1.transfers().dom() == t0.transfers().dom()
    &&& forall|k: u128| k != m.0 && #[trigger] t0.transfers().contains_key(k) ==> t1.transfers()[k] == t0.transfers()[k]
    &&& !t0.transfers().contains_key(m.0) ==> picks.len() == 0 && t1.transfers() == t0.transfers()
    &&& t0.transfers().contains_key(m.0) ==> exists|order: Seq<ChunkId>|
        #[trigger] rarest_order(t0.holders(), m.0, t0.transfers()[m.0].pending(), order) && picks == request_picks(
            order,
            t0.holders(),
            m.0,
            local.0,
            MAX_IN_FLIGHT - t0.transfers()[m.0].in_flight().len(),
        ) && with_requests(t0.transfers()[m.0], t1.transfers()[m.0], picks, now)
}

/// Request pending chunk `c` of transfer `manifest_id` from its source, if it
/// has one, at `now_ms`; the source is returned.
fn request_one(tracker: &mut TransferTracker, manifest_id: ManifestId, c: ChunkId, local: NodeId, now_ms: u64) -> (r: Option<
    NodeId,
>)
    requires
        old(tracker).wf(),
        old(tracker).transfers().contains_key(manifest_id.0),
    ensures
        r == source_for(old(tracker).holders(), manifest_id.0, c.0 as u64, local.0),
        final(tracker).wf(),
        final(tracker).holders() == old(tracker).holders(),
        final(tracker).transfers().dom() == old(tracker).transfers().dom(),
        forall|m: u128| m != manifest_id.0 && #[trigger] old(tracker).transfers().contains_key(m) ==> final(tracker).transfers()[m]
            == old(tracker).transfers()[m],
        r is None ==> final(tracker).transfers() == old(tracker).transfers(),
        r matches Some(peer) ==> {
            let p = old(tracker).transfers()[manifest_id.0];
            let q = final(tracker).transfers()[manifest_id.0];
            let k = c.0 as u64;
            &&& q.manifest == p.manifest
            &&& q.started_at == p.started_at
            &&& q.received() == p.received()
            &&& p.pending().contains(k) ==> q.pending() == p.pending().remove(k) && q.in_flight() == p.in_flight().insert(k, (peer, now_ms))
        },
{
    let ghost h = tracker.holders();
    let holders = tracker.get_chunk_holders(manifest_id, c);
    let target = match &holders {
        Some(v) => first_other(v, local),
        None => None,
    };
    proof {
        lemma_source_for(h, manifest_id.0, c.0 as u64, local, holders, target);
    }
    match target {
        Some(peer) => {
            tracker.mark_chunk_in_flight(manifest_id, c, peer, now_ms);
        },
        None => {},
    }
    target
}

/// Request the pending chunks of transfer `manifest_id`, rarest first, each
/// from its source (see [`source_for`]), while fewer than five requests are
/// outstanding. The requests are recorded as in flight at `now_ms` and
/// returned in the order they were made.
#[verifier::spinoff_prover]
#[verifier::rlimit(40)]
pub fn plan_requests(tracker: &mut TransferTracker, manifest_id: ManifestId, local: NodeId, now_ms: u64) -> (r: Vec<
    (ChunkId, NodeId),
>)
    requires
        old(tracker).wf(),
    ensures
        requests_made(*old(tracker), *final(tracker), manifest_id, local, now_ms, r@),
{
    let m = manifest_id.0;
    let ghost h = tracker.holders();
    let ghost t0 = tracker.transfers();
    if tracker.get_progress(manifest_id).is_none() {
        return Vec::new();
    }
    let ghost p0 = t0[m];
    let order = tracker.get_rarest_pending_chunks(manifest_id);
    let ghost budget0: int = MAX_IN_FLIGHT - p0.in_flight().len();
    proof {
        tracker.lemma_transfers_wf(m);
        assert(order@.skip(0) =~= order@);
        assert(picked_chunks(Seq::<(ChunkId, NodeId)>::empty()) =~= Set::<u64>::empty());
        assert(request_map(Seq::<(ChunkId, NodeId)>::empty(), now_ms) =~= Map::<u64, (NodeId, u64)>::empty());
        assert(p0.pending().difference(Set::<u64>::empty()) =~= p0.pending());
        assert(p0.in_flight().union_prefer_right(Map::<u64, (NodeId, u64)>::empty()) =~= p0.in_flight());
    }
    let mut picked: Vec<(ChunkId, NodeId)> = Vec::new();
    let mut i: usize = 0;
    while i < order.len()
        invariant_except_break
            m == manifest_id.0,
            tracker.wf(),
            tracker.holders() == h,
            tracker.transfers().dom() == t0.dom(),
            t0.contains_key(m),
            p0 == t0[m],
            p0.wf(),
            budget0 == MAX_IN_FLIGHT - p0.in_flight().len(),
            forall|k: u128| k != m && #[trigger] t0.contains_key(k) ==> tracker.transfers()[k] == t0[k],
            rarest_order(h, m, p0.pending(), order@),
            i <= order@.len(),
            with_requests(p0, tracker.transfers()[m], picked@, now_ms),
            tracker.transfers()[m].in_flight().len() == p0.in_flight().len() + picked@.len(),
            picked@ + request_picks(order@.skip(i as int), h, m, local.0, budget0 - picked@.len()) == request_picks(
                order@,
                h,
                m,
                local.0,
                budget0,
            ),
            forall|c: u64| #[trigger] picked_chunks(picked@).contains(c) ==> exists|j: int| 0 <= j < i && order@[j].0 as u64 == c,
        ensures
            tracker.wf(),
            tracker.holders() == h,
            tracker.transfers().dom() == t0.dom(),
            forall|k: u128| k != m && #[trigger] t0.contains_key(k) ==> tracker.transfers()[k] == t0[k],
            with_requests(p0, tracker.transfers()[m], picked@, now_ms),
            picked@ == request_picks(order@, h, m, local.0, budget0),
        decreases order.len() - i,
    {
        proof {
            assert(t0.dom().contains(m));
            assert(tracker.transfers().contains_key(m));
            tracker.lemma_transfers_wf(m);
        }
        let in_flight = match tracker.get_progress(manifest_id) {
            Some(p) => p.chunks_in_flight.len(),
            None => 0,
        };
        if in_flight >= MAX_IN_FLIGHT {
            proof {
                assert(request_picks(order@.skip(i as int), h, m, local.0, budget0 - picked@.len()) =~= Seq::<
                    (ChunkId, NodeId),
                >::empty());
                assert(picked@ + Seq::<(ChunkId, NodeId)>::empty() =~= picked@);
            }
            break;
        }
        let c = order[i];
        let ghost cc = c.0 as u64;
        let ghost b = budget0 - picked@.len();
        let ghost rest = order@.skip(i as int);
        proof {
            assert(rest[0] == c);
            assert(rest.drop_first() =~= order@.skip(i + 1));
            assert(order@.contains(c));
            assert(p0.pending().contains(cc));
            if picked_chunks(picked@).contains(cc) {
                let j = choose|j: int| 0 <= j < i && order@[j].0 as u64 == cc;
                assert(rarer(h, m, order@[j].0 as u64, order@[i as int].0 as u64));
            }
        }
        let ghost p = tracker.transfers()[m];
        let target = request_one(tracker, manifest_id, c, local, now_ms);
        match target {
            Some(peer) => {
                proof {
                    lemma_request_step(p0, p, tracker.transfers()[m], picked@, (c, peer), now_ms);
                    assert(picked@.push((c, peer)) + request_picks(order@.skip(i + 1), h, m, local.0, b - 1) =~= picked@ + (
                    seq![(c, peer)] + request_picks(order@.skip(i + 1), h, m, local.0, b - 1)));
                }
                let ghost before = picked@;
                picked.push((c, peer));
                proof {
                    assert(picked@.drop_last() =~= before);
                    assert forall|x: u64| #[trigger] picked_chunks(picked@).contains(x) implies exists|j: int|
                        0 <= j < i + 1 && order@[j].0 as u64 == x by {
                        if x != cc {
                            assert(picked_chunks(before).contains(x));
                            let j = choose|j: int| 0 <= j < i && order@[j].0 as u64 == x;
                            assert(0 <= j < i + 1 && order@[j].0 as u64 == x);
                        } else {
                            assert(order@[i as int].0 as u64 == x);
                        }
                    }
                }
            },
            None => {},
        }
        i = i + 1;
    }
    proof {
        assert(rarest_order(h, m, p0.pending(), order@));
    }
    picked
}

proof fn lemma_picks_within_budget(order: Seq<ChunkId>, h: Map<u128, Map<u64, Set<u64>>>, m: u128, local: u64, budget: int)
    ensures
        request_picks(order, h, m, local, budget).len() <= (if budget > 0 { budget } else { 0 }),
    decreases order.len(),
{
    if order.len() > 0 && budget > 0 {
        lemma_picks_within_budget(order.drop_first(), h, m, local, budget - 1);
        lemma_picks_within_budget(order.drop_first(), h, m, local, budget);
    }
}

proof fn lemma_request_map_size(picks: Seq<(ChunkId, NodeId)>, now: u64)
    ensures
        request_map(picks, now).dom().finite(),
        request_map(picks, now).dom().len() <= picks.len(),
    decreases picks.len(),
{
    if picks.len() > 0 {
        lemma_request_map_size(picks.drop_last(), now);
    }
}

/// A transfer is never given more than `MAX_IN_FLIGHT` outstanding requests
/// by [`plan_requests`]: the new requests fill at most the room left, and
/// none are made when the transfer already has that many.
pub proof fn lemma_requests_within_cap(
    t0: TransferTracker,
    t1: TransferTracker,
    m: ManifestId,
    local: NodeId,
    now: u64,
    picks: Seq<(ChunkId, NodeId)>,
)
    requires
        t0.wf(),
        requests_made(t0, t1, m, local, now, picks),
    ensures
        t0.transfers().contains_key(m.0) && t0.transfers()[m.0].in_flight().len() >= MAX_IN_FLIGHT ==> picks.len() == 0
            && t1.transfers()[m.0].in_flight() == t0.transfers()[m.0].in_flight(),
        t0.transfers().contains_key(m.0) && t0.transfers()[m.0].in_flight().len() < MAX_IN_FLIGHT
            ==> t1.transfers()[m.0].in_flight().len() <= MAX_IN_FLIGHT,
{
    if t0.transfers().contains_key(m.0) {
        let p0 = t0.transfers()[m.0];
        let p1 = t1.transfers()[m.0];
        t0.lemma_transfers_wf(m.0);
        p0.chunks_in_flight.lemma_view();
        let budget: int = MAX_IN_FLIGHT - p0.in_flight().len();
        let order = choose|order: Seq<ChunkId>|
            #[trigger] rarest_order(t0.holders(), m.0, p0.pending(), order) && picks == request_picks(
                order,
                t0.holders(),
                m.0,
                local.0,
                budget,
            ) && with_requests(p0, p1, picks, now);
        lemma_picks_within_budget(order, t0.holders(), m.0, local.0, budget);
        lemma_request_map_size(picks, now);
        let rm = request_map(picks, now);
        assert(p1.in_flight().dom() =~= p0.in_flight().dom().union(rm.dom()));
        vstd::set_lib::lemma_len_union(p0.in_flight().dom(), rm.dom());
        if picks.len() == 0 {
            assert(rm =~= Map::<u64, (NodeId, u64)>::empty());
            assert(p1.in_flight() =~= p0.in_flight());
        }
    }
}

/// A finite set holding a value other than `local` has a least such value.
proof fn lemma_least_other(s: Set<u64>, local: u64, x: u64)
    requires
        s.finite(),
        s.contains(x),
        x != local,
    ensures
        exists|w: u64| #[trigger] s.contains(w) && w != local && forall|k: u64| #[trigger] s.contains(k) && k != local ==> w <= k,
    decreases s.len(),
{
    let t = s.remove(x);
    if exists|y: u64| #[trigger] t.contains(y) && y != local {
        let y = choose|y: u64| #[trigger] t.contains(y) && y != local;
        lemma_least_other(t, local, y);
        let w = choose|w: u64| #[trigger] t.contains(w) && w != local && forall|k: u64| #[trigger] t.contains(k) && k != local ==> w <= k;
        if x < w {
            assert forall|k: u64| #[trigger] s.contains(k) && k != local implies x <= k by {
                if k != x {
                    assert(t.contains(k));
                }
            }
        } else {
            assert forall|k: u64| #[trigger] s.contains(k) && k != local implies w <= k by {
                if k != x {
                    assert(t.contains(k));
                }
            }
            assert(s.contains(w));
        }
    } else {
        assert forall|k: u64| #[trigger] s.contains(k) && k != local implies x <= k by {
            if k != x {
                assert(t.contains(k));
            }
        }
    }
}

/// The peer [`source_for`] names holds the chunk and is not this node.
proof fn lemma_source_is_holder(h: Map<u128, Map<u64, Set<u64>>>, m: u128, c: u64, local: u64)
    requires
        h.contains_key(m) && h[m].contains_key(c) ==> h[m][c].finite(),
    ensures
        source_for(h, m, c, local) matches Some(n) ==> h.contains_key(m) && h[m].contains_key(c) && h[m][c].contains(n.0)
            && n.0 != local,
{
    if h.contains_key(m) && h[m].contains_key(c) && exists|n: u64| #[trigger] h[m][c].contains(n) && n != local {
        let x = choose|n: u64| #[trigger] h[m][c].contains(n) && n != local;
        lemma_least_other(h[m][c], local, x);
    }
}

/// Pick `p` asks a holder of its chunk other than `local`, for a chunk of `order`.
spec fn pick_from_holder(h: Map<u128, Map<u64, Set<u64>>>, m: u128, local: u64, order: Seq<ChunkId>, p: (ChunkId, NodeId)) -> bool {
    &&& h.contains_key(m) && h[m].contains_key(p.0.0 as u64) && h[m][p.0.0 as u64].contains(p.1.0)
    &&& p.1.0 != local
    &&& order.contains(p.0)
}

proof fn lemma_picks_from_holders(
    order: Seq<ChunkId>,
    h: Map<u128, Map<u64, Set<u64>>>,
    m: u128,
    local: u64,
    budget: int,
)
    requires
        forall|c: u64| h.contains_key(m) && h[m].contains_key(c) ==> #[trigger] h[m][c].finite(),
    ensures
        forall|i: int| 0 <= i < request_picks(order, h, m, local, budget).len() ==> pick_from_holder(
            h,
            m,
            local,
            order,
            #[trigger] request_picks(order, h, m, local, budget)[i],
        ),
    decreases order.len(),
{
    if order.len() > 0 && budget > 0 {
        let rest = order.drop_first();
        lemma_picks_from_holders(rest, h, m, local, budget - 1);
        lemma_picks_from_holders(rest, h, m, local, budget);
        lemma_source_is_holder(h, m, order[0].0 as u64, local);
        let picks = request_picks(order, h, m, local, budget);
        assert forall|i: int| 0 <= i < picks.len() implies pick_from_holder(h, m, local, order, #[trigger] picks[i]) by {
            match source_for(h, m, order[0].0 as u64, local) {
                Some(n) => {
                    if i > 0 {
                        let q = request_picks(rest, h, m, local, budget - 1);
                        assert(picks[i] == q[i - 1]);
                        assert(rest.contains(q[i - 1].0));
                        let k = choose|k: int| 0 <= k < rest.len() && rest[k] == q[i - 1].0;
                        assert(order[k + 1] == rest[k]);
                    } else {
                        assert(order[0] == picks[0].0);
                    }
                },
                None => {
                    let q = request_picks(rest, h, m, local, budget);
                    assert(picks[i] == q[i]);
                    let k = choose|k: int| 0 <= k < rest.len() && rest[k] == q[i].0;
                    assert(order[k + 1] == rest[k]);
                },
            }
        }
    } else {
        assert(request_picks(order, h, m, local, budget).len() == 0);
    }
}

/// Chunks are asked only of peers known to hold them, never of this node
/// itself, and only chunks that were pending are asked for.
pub proof fn lemma_requests_go_to_holders(
    t0: TransferTracker,
    t1: TransferTracker,
    m: ManifestId,
    local: NodeId,
    now: u64,
    picks: Seq<(ChunkId, NodeId)>,
)
    requires
        t0.wf(),
        requests_made(t0, t1, m, local, now, picks),
    ensures
        forall|i: int| 0 <= i < picks.len() ==> {
            let c = (#[trigger] picks[i]).0.0 as u64;
            &&& t0.holders().contains_key(m.0) && t0.holders()[m.0].contains_key(c)
            &&& t0.holders()[m.0][c].contains(picks[i].1.0)
            &&& picks[i].1 != local
            &&& t0.transfers()[m.0].pending().contains(c)
        },
{
    if t0.transfers().contains_key(m.0) {
        let p0 = t0.transfers()[m.0];
        let p1 = t1.transfers()[m.0];
        let budget: int = MAX_IN_FLIGHT - p0.in_flight().len();
        let h = t0.holders();
        let order = choose|order: Seq<ChunkId>|
            #[trigger] rarest_order(h, m.0, p0.pending(), order) && picks == request_picks(order, h, m.0, local.0, budget)
                && with_requests(p0, p1, picks, now);
        assert forall|c: u64| h.contains_key(m.0) && h[m.0].contains_key(c) implies #[trigger] h[m.0][c].finite() by {
            t0.lemma_holders_finite(m.0, c);
        }
        lemma_picks_from_holders(order, h, m.0, local.0, budget);
        assert forall|i: int| 0 <= i < picks.len() implies t0.transfers()[m.0].pending().contains((#[trigger] picks[i]).0.0 as u64) by {
            assert(order.contains(picks[i].0));
        }
    }
}

/// Something the node asks its caller to do.
#[derive(Debug)]
pub enum Action {
    /// Send `msg` to peer `to`, if connected.
    Send { to: NodeId, msg: NetMessage },
    /// Send the manifest `manifest_id` to peer `to`, if connected.
    SendManifest { to: NodeId, manifest_id: ManifestId },
    /// Send the manifest `manifest_id` to every connected peer but `except`.
    GossipManifest { except: NodeId, manifest_id: ManifestId },
    /// Send `msg` to every connected peer but `except`.
    Broadcast { except: NodeId, msg: NetMessage },
    /// Read `size` bytes at `offset` of chunk `chunk_id` from the store for
    /// peer `to`, then report with [`NodeState::on_chunk_read`].
    ReadChunk { to: NodeId, manifest_id: ManifestId, chunk_id: ChunkId, offset: u64, size: u32 },
    /// Write the verified bytes of chunk `chunk_id` at `offset` into the store,
    /// then report with [`NodeState::on_chunk_stored`].
    StoreChunk { from: NodeId, manifest_id: ManifestId, chunk_id: ChunkId, data: Vec<u8>, offset: u64 },
    /// Close the connection to `peer`.
    Disconnect { peer: NodeId },
    /// Reassemble the completed file of `manifest_id` at `dest`.
    Reassemble { manifest_id: ManifestId, dest: String },
    /// Fetch the ranges of `url`, then ask `coordinator_id` for more work.
    FetchRanges { url: String, manifest_id: ManifestId, coordinator_id: NodeId, assignments: Vec<(ChunkId, u64, u32)> },
    /// Hand `msg` from `from` to the proxy.
    Proxy { from: NodeId, msg: NetMessage },
}

/// The messages asking for the chunks of `picks` of manifest `m`, in order.
pub open spec fn request_actions(m: ManifestId, picks: Seq<(ChunkId, NodeId)>) -> Seq<Action> {
    picks.map_values(|p: (ChunkId, NodeId)| Action::Send { to: p.1, msg: NetMessage::RequestChunk { manifest_id: m, chunk_id: p.0 } })
}

/// The actions that send the requests `picks` for manifest `m`.
fn request_messages(m: ManifestId, picks: &Vec<(ChunkId, NodeId)>) -> (r: Vec<Action>)
    ensures
        r@ == request_actions(m, picks@),
{
    let mut r: Vec<Action> = Vec::new();
    let mut i: usize = 0;
    while i < picks.len()
        invariant
            i <= picks@.len(),
            r@ == request_actions(m, picks@.take(i as int)),
        decreases picks.len() - i,
    {
        let (c, n) = picks[i];
        r.push(Action::Send { to: n, msg: NetMessage::RequestChunk { manifest_id: m, chunk_id: c } });
        i = i + 1;
        assert(r@ =~= request_actions(m, picks@.take(i as int)));
    }
    assert(picks@.take(i as int) =~= picks@);
    r
}

/// The first id of `s` other than `lost`.
fn first_node_other(s: &Vec<NodeId>, lost: NodeId) -> (r: Option<NodeId>)
    ensures
        r == first_other_than(s@, lost),
{
    let mut i: usize = 0;
    proof {
        assert(s@.skip(0) =~= s@);
    }
    while i < s.len()
        invariant
            i <= s@.len(),
            first_other_than(s@, lost) == first_other_than(s@.skip(i as int), lost),
        decreases s.len() - i,
    {
        proof {
            assert(s@.skip(i as int)[0] == s@[i as int]);
            assert(s@.skip(i as int).drop_first() =~= s@.skip(i + 1));
        }
        if s[i].0 != lost.0 {
            return Some(s[i]);
        }
        i = i + 1;
    }
    None
}

/// Whether `n` is in `s`.
fn contains_id(s: &[NodeId], n: NodeId) -> (r: bool)
    ensures
        r == s@.contains(n),
{
    let mut i: usize = 0;
    while i < s.len()
        invariant
            i <= s@.len(),
            forall|j: int| 0 <= j < i ==> s@[j] != n,
        decreases s.len() - i,
    {
        if s[i].0 == n.0 {
            return true;
        }
        i = i + 1;
    }
    false
}

/// A list of one action.
fn one(a: Action) -> (r: Vec<Action>)
    ensures
        r@ == seq![a],
{
    let mut v: Vec<Action> = Vec::new();
    v.push(a);
    v
}

/// The ids of `a` that name a node of `nodes`, each with that node's configuration.
pub open spec fn configs_of(a: Seq<NodeId>, nodes: Map<u64, Node>) -> Seq<(NodeId, NodeConfig)>
    decreases a.len(),
{
    if a.len() == 0 {
        Seq::empty()
    } else {
        let rest = configs_of(a.drop_last(), nodes);
        if nodes.contains_key(a.last().0) {
            rest.push((a.last(), nodes[a.last().0].config))
        } else {
            rest
        }
    }
}

/// What a running node knows: the overlay, the manifests it has seen and
/// who announced them, its transfers, the peers it banned, where finished
/// downloads go and the bonded downloads it coordinates.
pub struct NodeState {
    pub node_id: NodeId,
    pub overlay: OverlayStateTable,
    /// Known manifests, by manifest id.
    pub manifests: IdTable<Manifest>,
    /// For each manifest, the ids of the peers that sent it.
    pub manifest_holders: IdTable<OrderedMap<()>>,
    pub tracker: TransferTracker,
    /// Ids of the peers this node no longer talks to.
    pub banned_peers: OrderedMap<()>,
    /// Where each download is reassembled once complete, by manifest id.
    pub download_destinations: IdTable<String>,
    /// Bonded downloads this node coordinates, by manifest id.
    pub bonded_downloads: IdTable<BondedDownload>,
    /// WAN bandwidth in bytes per second.
    pub wan_bandwidth: u64,
    /// Fault injection: corrupt every chunk served.
    pub malicious: bool,
    /// Fault injection: never answer chunk requests.
    pub slow_loris: bool,
}

/// The metadata of chunk `c` of manifest `m`, when the manifest is known and has it.
pub open spec fn chunk_meta(manifests: Map<u128, Manifest>, m: ManifestId, c: ChunkId) -> Option<ChunkMeta> {
    if manifests.contains_key(m.0) && (c.0 as int) < manifests[m.0].chunks@.len() {
        Some(manifests[m.0].chunks@[c.0 as int])
    } else {
        None
    }
}

/// Received bytes are accepted for a chunk when they have its digest, or
/// when its digest is not known yet (all zeros).
pub open spec fn chunk_accepted(meta: ChunkMeta, data: Seq<u8>) -> bool {
    meta.hash@ == blake3_digest(data) || meta.hash@ == Seq::new(32, |i: int| 0u8)
}

/// `t1` is `t0` with peer `n` recorded as holding chunk `c` of manifest `m`.
pub open spec fn registered(t0: TransferTracker, t1: TransferTracker, m: ManifestId, c: ChunkId, n: NodeId) -> bool {
    &&& t1.wf()
    &&& t1.transfers() == t0.transfers()
    &&& t1.holders() == with_holder(t0.holders(), m.0, c.0 as u64, n.0)
}

/// Known holders after peer `n` announced the chunks `cs` of manifest `m`, in order.
pub open spec fn with_holders(h: Map<u128, Map<u64, Set<u64>>>, m: u128, cs: Seq<ChunkId>, n: u64) -> Map<
    u128,
    Map<u64, Set<u64>>,
>
    decreases cs.len(),
{
    if cs.len() == 0 {
        h
    } else {
        with_holder(with_holders(h, m, cs.drop_last(), n), m, cs.last().0 as u64, n)
    }
}

/// `t1` is `t0` with in-flight chunk `c` of manifest `m` back to pending.
pub open spec fn released(t0: TransferTracker, t1: TransferTracker, m: ManifestId, c: ChunkId) -> bool {
    &&& t1.wf()
    &&& t1.holders() == t0.holders()
    &&& t1.transfers().dom() == t0.transfers().dom()
    &&& forall|k: u128| k != m.0 && #[trigger] t0.transfers().contains_key(k) ==> t1.transfers()[k] == t0.transfers()[k]
    &&& t0.transfers().contains_key(m.0) ==> {
        let p = t0.transfers()[m.0];
        let q = t1.transfers()[m.0];
        let k = c.0 as u64;
        &&& q.manifest == p.manifest
        &&& q.started_at == p.started_at
        &&& q.received() == p.received()
        &&& p.in_flight().contains_key(k) ==> q.pending() == p.pending().insert(k) && q.in_flight() == p.in_flight().remove(k)
        &&& !p.in_flight().contains_key(k) ==> q.pending() == p.pending() && q.in_flight() == p.in_flight()
    }
}

/// `b` is `a` with at most its transfer tracker changed.
pub open spec fn only_tracker_changed(a: NodeState, b: NodeState) -> bool {
    &&& b.node_id == a.node_id
    &&& b.overlay == a.overlay
    &&& b.manifests == a.manifests
    &&& b.manifest_holders == a.manifest_holders
    &&& b.banned_peers == a.banned_peers
    &&& b.download_destinations == a.download_destinations
    &&& b.bonded_downloads == a.bonded_downloads
    &&& b.wan_bandwidth == a.wan_bandwidth
    &&& b.malicious == a.malicious
    &&& b.slow_loris == a.slow_loris
}

/// After registering holders through `t0 -> t`, the node asked for what it can.
pub open spec fn then_requested(
    t: TransferTracker,
    t1: TransferTracker,
    m: ManifestId,
    local: NodeId,
    now: u64,
    r: Seq<Action>,
) -> bool {
    exists|picks: Seq<(ChunkId, NodeId)>| requests_made(t, t1, m, local, now, picks) && r == request_actions(m, picks)
}

/// `b` is `a` with at most its overlay changed.
pub open spec fn only_overlay_changed(a: NodeState, b: NodeState) -> bool {
    &&& b.node_id == a.node_id
    &&& b.manifests == a.manifests
    &&& b.manifest_holders == a.manifest_holders
    &&& b.tracker == a.tracker
    &&& b.banned_peers == a.banned_peers
    &&& b.download_destinations == a.download_destinations
    &&& b.bonded_downloads == a.bonded_downloads
    &&& b.wan_bandwidth == a.wan_bandwidth
    &&& b.malicious == a.malicious
    &&& b.slow_loris == a.slow_loris
}

/// `n` is node `o` made active.
pub open spec fn activated(o: Node, n: Node) -> bool {
    &&& n.status == NodeStatus::Active
    &&& n.id == o.id
    &&& n.config == o.config
    &&& n.joined_at == o.joined_at
    &&& n.owned_chunks@ == o.owned_chunks@
}

/// Overlay `b` is `a` with node `id`, when present, made active.
pub open spec fn node_activated(a: OverlayView, b: OverlayView, id: u64) -> bool {
    &&& !a.nodes.contains_key(id) ==> b == a
    &&& a.nodes.contains_key(id) ==> exists|n: Node| activated(a.nodes[id], n) && b == (OverlayView { nodes: a.nodes.insert(id, n), ..a })
}

/// `t1` is `t0` with transfer `manifest` started at `now` unless already tracked.
pub open spec fn started(t0: TransferTracker, t1: TransferTracker, manifest: Manifest, now: u64) -> bool {
    &&& t1.wf()
    &&& t1.holders() == t0.holders()
    &&& t0.transfers().contains_key(manifest.id.0) ==> t1.transfers() == t0.transfers()
    &&& !t0.transfers().contains_key(manifest.id.0) ==> exists|p: TransferProgress|
        t1.transfers() == t0.transfers().insert(manifest.id.0, p) && p.manifest == manifest && p.received() == Set::<u64>::empty()
            && p.pending() == Set::new(|c: u64| exists|k: int| 0 <= k < manifest.chunks@.len() && manifest.chunks@[k].id.0 == c)
            && p.in_flight() == Map::<u64, (NodeId, u64)>::empty() && p.started_at == now
}

/// The holder sets `b` are `a` with `peer` added for manifest `m`.
pub open spec fn holder_added(a: Map<u128, OrderedMap<()>>, b: Map<u128, OrderedMap<()>>, m: u128, peer: u64) -> bool {
    &&& b.dom() == a.dom().insert(m)
    &&& forall|k: u128| k != m && #[trigger] a.contains_key(k) ==> b[k] == a[k]
    &&& b[m]@.dom() == (if a.contains_key(m) { a[m]@.dom() } else { Set::<u64>::empty() }).insert(peer)
}

/// What receiving `manifest` from `peer` at `now` does: a manifest not seen
/// before is kept (a copy) and passed on to the other peers; `peer` is
/// recorded as having it; its transfer starts if not tracked yet; and the
/// node asks for what it can.
pub open spec fn manifest_received(a: NodeState, b: NodeState, peer: NodeId, manifest: Manifest, now: u64, r: Seq<Action>) -> bool {
    let id = manifest.id;
    let is_new = !a.manifests@.contains_key(id.0);
    &&& b.node_id == a.node_id
    &&& b.overlay == a.overlay
    &&& b.banned_peers == a.banned_peers
    &&& b.download_destinations == a.download_destinations
    &&& b.bonded_downloads == a.bonded_downloads
    &&& b.wan_bandwidth == a.wan_bandwidth
    &&& b.malicious == a.malicious
    &&& b.slow_loris == a.slow_loris
    &&& is_new ==> exists|x: Manifest| same_manifest(x, manifest) && b.manifests@ == a.manifests@.insert(id.0, x)
    &&& !is_new ==> b.manifests@ == a.manifests@
    &&& holder_added(a.manifest_holders@, b.manifest_holders@, id.0, peer.0)
    &&& exists|t: TransferTracker, picks: Seq<(ChunkId, NodeId)>|
        started(a.tracker, t, manifest, now) && requests_made(t, b.tracker, id, a.node_id, now, picks) && r == (if is_new {
            seq![Action::GossipManifest { except: peer, manifest_id: id }]
        } else {
            Seq::<Action>::empty()
        }) + request_actions(id, picks)
}

/// What chunk bytes from `peer` lead to: nothing for an unknown chunk; a write
/// of accepted bytes; for bytes with the wrong digest, the request is taken
/// back, `peer` banned and its connection closed.
pub open spec fn chunk_data_handled(
    a: NodeState,
    b: NodeState,
    peer: NodeId,
    m: ManifestId,
    c: ChunkId,
    data: Vec<u8>,
    r: Seq<Action>,
) -> bool {
    match chunk_meta(a.manifests@, m, c) {
        None => b == a && r == Seq::<Action>::empty(),
        Some(meta) => if chunk_accepted(meta, data@) {
            b == a && r == seq![Action::StoreChunk { from: peer, manifest_id: m, chunk_id: c, data, offset: meta.offset }]
        } else {
            &&& released(a.tracker, b.tracker, m, c)
            &&& b.banned_peers@ == a.banned_peers@.insert(peer.0, ())
            &&& b.node_id == a.node_id
            &&& b.overlay == a.overlay
            &&& b.manifests == a.manifests
            &&& b.manifest_holders == a.manifest_holders
            &&& b.download_destinations == a.download_destinations
            &&& b.bonded_downloads == a.bonded_downloads
            &&& b.wan_bandwidth == a.wan_bandwidth
            &&& b.malicious == a.malicious
            &&& b.slow_loris == a.slow_loris
            &&& r == seq![Action::Disconnect { peer }]
        },
    }
}

/// Download `d2` is `d` after handing out its next batch.
pub open spec fn dispensed(d: BondedDownload, d2: BondedDownload) -> bool {
    &&& d2.status == BondedStatus::Downloading
    &&& d2.url == d.url
    &&& d2.manifest == d.manifest
    &&& d2.url_info == d.url_info
    &&& d2.output_path == d.output_path
    &&& d2.requester == d.requester
    &&& d2.node_speeds == d.node_speeds
    &&& d2.unassigned_chunks@ == d.unassigned_chunks@.skip(first_stop(d.manifest, d.unassigned_chunks@))
}

/// The next batch of download `d`.
pub open spec fn next_batch(d: BondedDownload) -> Seq<(ChunkId, u64, u32)> {
    batch_of(d.manifest, d.unassigned_chunks@, first_stop(d.manifest, d.unassigned_chunks@))
}

/// What a request for more work on bonded download `m` from `node` does: the
/// next batch is handed out; a non-empty one is fetched here when `node` is
/// this node, else sent to `node`.
pub open spec fn more_work_handled(a: NodeState, b: NodeState, m: ManifestId, node: NodeId, r: Seq<Action>) -> bool {
    if !a.bonded_downloads@.contains_key(m.0) {
        b == a && r == Seq::<Action>::empty()
    } else {
        let d = a.bonded_downloads@[m.0];
        let batch = next_batch(d);
        &&& b.node_id == a.node_id
        &&& b.overlay == a.overlay
        &&& b.manifests == a.manifests
        &&& b.manifest_holders == a.manifest_holders
        &&& b.tracker == a.tracker
        &&& b.banned_peers == a.banned_peers
        &&& b.download_destinations == a.download_destinations
        &&& b.wan_bandwidth == a.wan_bandwidth
        &&& b.malicious == a.malicious
        &&& b.slow_loris == a.slow_loris
        &&& b.bonded_downloads.wf()
        &&& exists|d2: BondedDownload| dispensed(d, d2) && b.bonded_downloads@ == a.bonded_downloads@.insert(m.0, d2)
        &&& batch.len() == 0 ==> r == Seq::<Action>::empty()
        &&& batch.len() > 0 && node == a.node_id ==> r.len() == 1 && (r[0] matches Action::FetchRanges {
            url,
            manifest_id,
            coordinator_id,
            assignments,
        } && url == d.url && manifest_id == m && coordinator_id == a.node_id && assignments@ == batch)
        &&& batch.len() > 0 && node != a.node_id ==> r.len() == 1 && (r[0] matches Action::Send {
            to,
            msg: NetMessage::AssignFetchRanges { url, manifest_id, coordinator_id, assignments },
        } && to == node && url == d.url && manifest_id == m && coordinator_id == a.node_id && assignments@ == batch)
    }
}

/// What the node does on message `msg` from `peer` at `now`, with `r` the
/// actions it returns.
pub open spec fn message_handled(a: NodeState, b: NodeState, peer: NodeId, msg: NetMessage, now: u64, r: Seq<Action>) -> bool {
    match msg {
        NetMessage::Handshake { .. } => b == a && r == Seq::<Action>::empty(),
        NetMessage::HeartbeatPing => b == a && r == seq![Action::Send { to: peer, msg: NetMessage::HeartbeatAck }],
        NetMessage::HeartbeatAck => only_overlay_changed(a, b) && b.overlay.wf() && node_activated(a.overlay@, b.overlay@, peer.0)
            && r == Seq::<Action>::empty(),
        NetMessage::RequestManifest { manifest_id } => b == a && r == if a.manifests@.contains_key(manifest_id.0) {
            seq![Action::SendManifest { to: peer, manifest_id }]
        } else {
            Seq::<Action>::empty()
        },
        NetMessage::ManifestData { manifest } => manifest_received(a, b, peer, manifest, now, r),
        NetMessage::RequestChunk { manifest_id, chunk_id } => b == a && r == match chunk_meta(a.manifests@, manifest_id, chunk_id) {
            Some(meta) => seq![Action::ReadChunk { to: peer, manifest_id, chunk_id, offset: meta.offset, size: meta.size }],
            None => seq![Action::Send { to: peer, msg: NetMessage::ChunkNotFound { manifest_id, chunk_id } }],
        },
        NetMessage::ChunkData { manifest_id, chunk_id, data } => chunk_data_handled(a, b, peer, manifest_id, chunk_id, data, r),
        NetMessage::ChunkNotFound { manifest_id, chunk_id } => only_tracker_changed(a, b) && exists|t1: TransferTracker, t2: TransferTracker|
            released(a.tracker, t1, manifest_id, chunk_id) && t2.wf() && t2.transfers() == t1.transfers() && t2.holders()
                == without_chunk_holder(t1.holders(), manifest_id.0, chunk_id.0 as u64, peer.0) && then_requested(
                t2,
                b.tracker,
                manifest_id,
                a.node_id,
                now,
                r,
            ),
        NetMessage::Bitfield { manifest_id, chunks } => only_tracker_changed(a, b) && exists|t: TransferTracker|
            t.wf() && t.transfers() == a.tracker.transfers() && t.holders() == with_holders(a.tracker.holders(), manifest_id.0, chunks@, peer.0)
                && then_requested(t, b.tracker, manifest_id, a.node_id, now, r),
        NetMessage::Have { manifest_id, chunk_id } => only_tracker_changed(a, b) && exists|t: TransferTracker|
            registered(a.tracker, t, manifest_id, chunk_id, peer) && then_requested(t, b.tracker, manifest_id, a.node_id, now, r),
        NetMessage::AssignFetchRanges { url, manifest_id, coordinator_id, assignments } => b == a && r == seq![
            Action::FetchRanges { url, manifest_id, coordinator_id, assignments },
        ],
        NetMessage::RequestMoreWork { manifest_id, node_id } => more_work_handled(a, b, manifest_id, node_id, r),
        _ => b == a && r == seq![Action::Proxy { from: peer, msg }],
    }
}

/// Bans are permanent: handling a message never lifts one, and the only
/// peer it can ban is the one that sent the message.
pub proof fn lemma_messages_keep_bans(a: NodeState, b: NodeState, peer: NodeId, msg: NetMessage, now: u64, r: Seq<Action>)
    requires
        message_handled(a, b, peer, msg, now, r),
    ensures
        forall|k: u64| a.banned_peers@.contains_key(k) ==> #[trigger] b.banned_peers@.contains_key(k),
        forall|k: u64| #[trigger] b.banned_peers@.contains_key(k) ==> a.banned_peers@.contains_key(k) || k == peer.0,
{
}

/// Only verified bytes are written: every chunk that handling a message asks
/// to store has the digest its manifest records for it (or the manifest
/// records none yet), and goes to that chunk's offset.
pub proof fn lemma_only_verified_chunks_stored(
    a: NodeState,
    b: NodeState,
    peer: NodeId,
    msg: NetMessage,
    now: u64,
    r: Seq<Action>,
    i: int,
)
    requires
        message_handled(a, b, peer, msg, now, r),
        0 <= i < r.len(),
        r[i] is StoreChunk,
    ensures
        r[i] matches Action::StoreChunk { manifest_id, chunk_id, data, offset, .. } && chunk_meta(a.manifests@, manifest_id, chunk_id) matches Some(
            meta,
        ) && chunk_accepted(meta, data@) && offset == meta.offset,
{
}

/// Law: received bytes for a known chunk are judged by the manifest's digest.
/// When the recorded digest is all zeros (not known yet, as for a chunk of a
/// bonded download) or equals the BLAKE3 digest of the bytes, the bytes are
/// stored at the chunk's offset and nothing else changes; only when the digest
/// is known and differs are they refused, the sender banned and disconnected.
pub proof fn lemma_chunk_data_judged_by_digest(
    a: NodeState,
    b: NodeState,
    peer: NodeId,
    m: ManifestId,
    c: ChunkId,
    data: Vec<u8>,
    now: u64,
    r: Seq<Action>,
    meta: ChunkMeta,
)
    requires
        message_handled(a, b, peer, NetMessage::ChunkData { manifest_id: m, chunk_id: c, data }, now, r),
        chunk_meta(a.manifests@, m, c) == Some(meta),
    ensures
        (forall|i: int| 0 <= i < 32 ==> meta.hash@[i] == 0u8) ==> b == a && r == seq![
            Action::StoreChunk { from: peer, manifest_id: m, chunk_id: c, data, offset: meta.offset },
        ],
        meta.hash@ == blake3_digest(data@) ==> b == a && r == seq![
            Action::StoreChunk { from: peer, manifest_id: m, chunk_id: c, data, offset: meta.offset },
        ],
        !(forall|i: int| 0 <= i < 32 ==> meta.hash@[i] == 0u8) && meta.hash@ != blake3_digest(data@) ==> r == seq![
            Action::Disconnect { peer },
        ] && b.banned_peers@.contains_key(peer.0),
{
    if forall|i: int| 0 <= i < 32 ==> meta.hash@[i] == 0u8 {
        assert(meta.hash@ =~= Seq::new(32, |i: int| 0u8));
    }
}

/// Every byte of `d` with its bits flipped.
pub open spec fn inverted(d: Seq<u8>) -> Seq<u8> {
    Seq::new(d.len(), |i: int| d[i] ^ 0xffu8)
}

/// `t1` is `t0` with chunk `c` of transfer `m` recorded as received: a
/// pending or else in-flight chunk moves to received.
pub open spec fn marked_received(t0: TransferTracker, t1: TransferTracker, m: ManifestId, c: ChunkId) -> bool {
    &&& t1.wf()
    &&& t1.holders() == t0.holders()
    &&& t1.transfers().dom() == t0.transfers().dom()
    &&& forall|k: u128| k != m.0 && #[trigger] t0.transfers().contains_key(k) ==> t1.transfers()[k] == t0.transfers()[k]
    &&& t0.transfers().contains_key(m.0) ==> {
        let p = t0.transfers()[m.0];
        let q = t1.transfers()[m.0];
        let k = c.0 as u64;
        &&& q.manifest == p.manifest
        &&& q.started_at == p.started_at
        &&& p.pending().contains(k) ==> q.pending() == p.pending().remove(k) && q.in_flight() == p.in_flight() && q.received()
            == p.received().insert(k)
        &&& !p.pending().contains(k) && p.in_flight().contains_key(k) ==> q.pending() == p.pending() && q.in_flight()
            == p.in_flight().remove(k) && q.received() == p.received().insert(k)
        &&& !p.pending().contains(k) && !p.in_flight().contains_key(k) ==> q.pending() == p.pending() && q.in_flight()
            == p.in_flight() && q.received() == p.received()
    }
}

/// Transfer `m` is tracked and every chunk of its manifest has arrived.
pub open spec fn transfer_complete(t: TransferTracker, m: ManifestId) -> bool {
    t.transfers().contains_key(m.0) && t.transfers()[m.0].received().len() == t.transfers()[m.0].manifest.chunks@.len()
}

/// What storing chunk `c` of manifest `m` from `from` leads to: when the write
/// failed, nothing; else the chunk is received, the other peers are told, the
/// node asks for more, and a transfer that is now complete and has a
/// destination is reassembled there.
pub open spec fn chunk_stored(a: NodeState, b: NodeState, from: NodeId, m: ManifestId, c: ChunkId, ok: bool, now: u64, r: Seq<
    Action,
>) -> bool {
    if !ok {
        b == a && r == Seq::<Action>::empty()
    } else {
        &&& only_tracker_changed(a, b)
        &&& exists|t: TransferTracker, picks: Seq<(ChunkId, NodeId)>|
            marked_received(a.tracker, t, m, c) && requests_made(t, b.tracker, m, a.node_id, now, picks) && r == seq![
                Action::Broadcast { except: from, msg: NetMessage::Have { manifest_id: m, chunk_id: c } },
            ] + request_actions(m, picks) + if transfer_complete(b.tracker, m) && a.download_destinations@.contains_key(m.0) {
                seq![Action::Reassemble { manifest_id: m, dest: a.download_destinations@[m.0] }]
            } else {
                Seq::<Action>::empty()
            }
    }
}

/// A file is put together only once every chunk its manifest lists has
/// arrived: when storing a chunk leads to a reassembly, the transfer holds
/// all of its chunks (for a manifest that lists each chunk id once).
pub proof fn lemma_reassembly_only_when_complete(
    a: NodeState,
    b: NodeState,
    from: NodeId,
    m: ManifestId,
    c: ChunkId,
    ok: bool,
    now: u64,
    r: Seq<Action>,
    i: int,
)
    requires
        chunk_stored(a, b, from, m, c, ok, now, r),
        b.tracker.wf(),
        b.tracker.transfers().contains_key(m.0) ==> distinct_chunk_ids(b.tracker.transfers()[m.0].manifest),
        0 <= i < r.len(),
        r[i] is Reassemble,
    ensures
        b.tracker.transfers().contains_key(m.0),
        forall|k: int| 0 <= k < b.tracker.transfers()[m.0].manifest.chunks@.len() ==> b.tracker.transfers()[m.0].received().contains(
            #[trigger] b.tracker.transfers()[m.0].manifest.chunks@[k].id.0 as u64,
        ),
{
    let (t, picks) = choose|t: TransferTracker, picks: Seq<(ChunkId, NodeId)>|
        #![trigger requests_made(t, b.tracker, m, a.node_id, now, picks)]
        marked_received(a.tracker, t, m, c) && requests_made(t, b.tracker, m, a.node_id, now, picks) && r == seq![
            Action::Broadcast { except: from, msg: NetMessage::Have { manifest_id: m, chunk_id: c } },
        ] + request_actions(m, picks) + if transfer_complete(b.tracker, m) && a.download_destinations@.contains_key(m.0) {
            seq![Action::Reassemble { manifest_id: m, dest: a.download_destinations@[m.0] }]
        } else {
            Seq::<Action>::empty()
        };
    let head = seq![Action::Broadcast { except: from, msg: NetMessage::Have { manifest_id: m, chunk_id: c } }] + request_actions(m, picks);
    assert(head.len() == 1 + picks.len());
    if i < head.len() {
        if i > 0 {
            assert(r[i] == request_actions(m, picks)[i - 1]);
        }
        assert(!(r[i] is Reassemble));
    }
    assert(transfer_complete(b.tracker, m));
    b.tracker.lemma_transfers_wf(m.0);
    lemma_complete_iff_all_received(b.tracker.transfers()[m.0]);
}

/// `n` is a peer just met: active, default configuration, joined at time zero, holding nothing.
pub open spec fn fresh_peer(n: Node, id: NodeId) -> bool {
    &&& n.id == id
    &&& n.status == NodeStatus::Active
    &&& n.config == (NodeConfig {
        wan_bandwidth: 5_000_000,
        lan_bandwidth: 50_000_000,
        wan_latency_ms: 50,
        lan_latency_ms: 2,
        storage_capacity: 1_073_741_824,
    })
    &&& n.joined_at == SimTime(0)
    &&& n.owned_chunks@ == Seq::<ChunkId>::empty()
}

/// Overlay `b` is `a` with a fresh active entry for `id`, unless the cluster is full.
pub open spec fn peer_added(a: OverlayView, b: OverlayView, id: NodeId) -> bool {
    &&& a.nodes.len() >= a.config.max_nodes ==> b == a
    &&& a.nodes.len() < a.config.max_nodes ==> exists|n: Node| fresh_peer(n, id) && b == (OverlayView { nodes: a.nodes.insert(id.0, n), ..a })
}

/// `t1` is `t0` after taking back the requests older than `timeout` at `now`;
/// `ms` are the transfers that had one and `ns` the peers they went to.
pub open spec fn timed_out(t0: TransferTracker, t1: TransferTracker, timeout: u64, now: u64, ms: Seq<ManifestId>, ns: Seq<NodeId>) -> bool {
    &&& t1.wf()
    &&& t1.holders() == t0.holders()
    &&& t1.transfers().dom() == t0.transfers().dom()
    &&& forall|m: u128| #[trigger] t0.transfers().contains_key(m) ==> requeued(
        t0.transfers()[m],
        t1.transfers()[m],
        overdue_requests(t0.transfers()[m].in_flight(), timeout, now),
    )
    &&& ms.no_duplicates()
    &&& forall|x: ManifestId| #[trigger] ms.contains(x) <==> t0.transfers().contains_key(x.0) && overdue_requests(
        t0.transfers()[x.0].in_flight(),
        timeout,
        now,
    ) != Set::<u64>::empty()
    &&& ids_increasing(ns)
    &&& forall|n: NodeId| #[trigger] ns.contains(n) <==> exists|m: u128, c: u64|
        t0.transfers().contains_key(m) && #[trigger] overdue_requests(t0.transfers()[m].in_flight(), timeout, now).contains(c)
            && t0.transfers()[m].in_flight()[c].0 == n
}

/// The request messages for each transfer of `ms` in turn, the requests of
/// transfer `ms[i]` being `ps[i]`.
pub open spec fn all_requests(ms: Seq<ManifestId>, ps: Seq<Seq<(ChunkId, NodeId)>>) -> Seq<Action>
    decreases ms.len(),
{
    if ms.len() == 0 || ps.len() == 0 {
        Seq::empty()
    } else {
        all_requests(ms.drop_last(), ps.drop_last()) + request_actions(ms.last(), ps.last())
    }
}

/// The requests for each transfer of `ms` in turn take `t0` to `t1`, with `r`
/// the request messages in order.
pub open spec fn requests_for_all(t0: TransferTracker, t1: TransferTracker, ms: Seq<ManifestId>, local: NodeId, now: u64, r: Seq<
    Action,
>) -> bool {
    exists|ts: Seq<TransferTracker>, ps: Seq<Seq<(ChunkId, NodeId)>>|
        #![trigger all_requests(ms, ps), ts.len()]
        ts.len() == ms.len() + 1 && ps.len() == ms.len() && ts[0] == t0 && ts[ms.len() as int] == t1 && (forall|i: int|
            0 <= i < ms.len() ==> #[trigger] requests_made(ts[i], ts[i + 1], ms[i], local, now, ps[i])) && r == all_requests(ms, ps)
}

/// The peers in `ns` banned in `b`.
pub open spec fn with_bans(b: Map<u64, ()>, ns: Seq<NodeId>) -> Map<u64, ()>
    decreases ns.len(),
{
    if ns.len() == 0 {
        b
    } else {
        with_bans(b, ns.drop_last()).insert(ns.last().0, ())
    }
}

/// A disconnect for each peer of `ns`, in order.
pub open spec fn disconnects(ns: Seq<NodeId>) -> Seq<Action> {
    ns.map_values(|n: NodeId| Action::Disconnect { peer: n })
}

/// The first id of `s` other than `lost`.
pub open spec fn first_other_than(s: Seq<NodeId>, lost: NodeId) -> Option<NodeId>
    decreases s.len(),
{
    if s.len() == 0 {
        None
    } else if s[0] != lost {
        Some(s[0])
    } else {
        first_other_than(s.drop_first(), lost)
    }
}

/// The peers that announced manifest `m`, by increasing id.
pub open spec fn announcers(holders: Map<u128, OrderedMap<()>>, m: u128) -> Seq<NodeId> {
    if holders.contains_key(m) {
        holders[m].key_seq().map_values(|k: u64| NodeId(k))
    } else {
        Seq::empty()
    }
}

/// Whom to ask again for the chunks of transfer `m` that peer `lost` left
/// hanging: the lowest-numbered other peer that announced the manifest, else
/// the first active node other than `lost` (`active` is sorted); after a
/// connection to a bootstrap peer drops, simply the first active node.
pub open spec fn retarget(holders: Map<u128, OrderedMap<()>>, active: Seq<NodeId>, m: u128, lost: NodeId, bootstrap: bool) -> Option<
    NodeId,
> {
    if bootstrap {
        if active.len() > 0 {
            Some(active[0])
        } else {
            None
        }
    } else {
        match first_other_than(announcers(holders, m), lost) {
            Some(n) => Some(n),
            None => first_other_than(active, lost),
        }
    }
}

/// The peer the chunks of transfer `m` are asked of again, when it is connected.
pub open spec fn resend_target(
    holders: Map<u128, OrderedMap<()>>,
    active: Seq<NodeId>,
    m: u128,
    lost: NodeId,
    bootstrap: bool,
    connected: Seq<NodeId>,
) -> Option<NodeId> {
    match retarget(holders, active, m, lost, bootstrap) {
        Some(t) => if connected.contains(t) {
            Some(t)
        } else {
            None
        },
        None => None,
    }
}

/// The chunks of transfer `m` listed in `lost`.
pub open spec fn lost_chunks(lost: Seq<(ManifestId, ChunkId)>, m: u128) -> Set<u64> {
    Set::new(|c: u64| exists|j: int| 0 <= j < lost.len() && lost[j].0.0 == m && lost[j].1.0 as u64 == c)
}

/// The requests sent again for the chunks `lost`, in order.
pub open spec fn resend_actions(
    lost: Seq<(ManifestId, ChunkId)>,
    holders: Map<u128, OrderedMap<()>>,
    active: Seq<NodeId>,
    peer: NodeId,
    bootstrap: bool,
    connected: Seq<NodeId>,
) -> Seq<Action>
    decreases lost.len(),
{
    if lost.len() == 0 {
        Seq::empty()
    } else {
        let rest = resend_actions(lost.drop_last(), holders, active, peer, bootstrap, connected);
        let x = lost.last();
        match resend_target(holders, active, x.0.0, peer, bootstrap, connected) {
            Some(t) => rest.push(Action::Send { to: t, msg: NetMessage::RequestChunk { manifest_id: x.0, chunk_id: x.1 } }),
            None => rest,
        }
    }
}

proof fn lemma_first_other_than(s: Seq<NodeId>, lost: NodeId)
    ensures
        first_other_than(s, lost) matches Some(n) ==> s.contains(n) && n != lost,
        first_other_than(s, lost) is None ==> forall|i: int| 0 <= i < s.len() ==> s[i] == lost,
    decreases s.len(),
{
    if s.len() > 0 && s[0] == lost {
        lemma_first_other_than(s.drop_first(), lost);
        match first_other_than(s, lost) {
            Some(n) => {
                let k = choose|k: int| 0 <= k < s.drop_first().len() && s.drop_first()[k] == n;
                assert(s[k + 1] == n);
            },
            None => {},
        }
        assert forall|i: int| 0 <= i < s.len() && first_other_than(s, lost) is None implies s[i] == lost by {
            if i > 0 {
                assert(s[i] == s.drop_first()[i - 1]);
            }
        }
    } else if s.len() > 0 {
        assert(s[0] == s[0]);
    }
}

/// Law: when a peer that was not reached through a bootstrap address is lost,
/// every chunk asked of it is asked again of a connected peer other than it.
/// If some other peer announced the chunk's manifest, that peer is one that
/// announced it; only when no other peer announced it is an active node asked.
pub proof fn lemma_lost_requests_go_to_announcers(
    lost: Seq<(ManifestId, ChunkId)>,
    holders: Map<u128, OrderedMap<()>>,
    active: Seq<NodeId>,
    peer: NodeId,
    connected: Seq<NodeId>,
    i: int,
)
    requires
        0 <= i < resend_actions(lost, holders, active, peer, false, connected).len(),
    ensures
        resend_actions(lost, holders, active, peer, false, connected)[i] matches Action::Send {
            to,
            msg: NetMessage::RequestChunk { manifest_id, .. },
        } && to != peer && connected.contains(to) && ((exists|n: NodeId|
            #[trigger] announcers(holders, manifest_id.0).contains(n) && n != peer) ==> announcers(holders, manifest_id.0).contains(to))
            && (!(exists|n: NodeId| #[trigger] announcers(holders, manifest_id.0).contains(n) && n != peer) ==> active.contains(to)),
    decreases lost.len(),
{
    let rest = resend_actions(lost.drop_last(), holders, active, peer, false, connected);
    if i < rest.len() {
        lemma_lost_requests_go_to_announcers(lost.drop_last(), holders, active, peer, connected, i);
        match resend_target(holders, active, lost.last().0.0, peer, false, connected) {
            Some(t) => {
                assert(resend_actions(lost, holders, active, peer, false, connected)[i] == rest[i]);
            },
            None => {},
        }
    } else {
        let r = resend_actions(lost, holders, active, peer, false, connected);
        let x = lost.last();
        let ann = announcers(holders, x.0.0);
        lemma_first_other_than(ann, peer);
        lemma_first_other_than(active, peer);
        let target = resend_target(holders, active, x.0.0, peer, false, connected);
        assert(target is Some);
        let t = target->0;
        assert(r[i] == Action::Send { to: t, msg: NetMessage::RequestChunk { manifest_id: x.0, chunk_id: x.1 } });
        if exists|n: NodeId| #[trigger] ann.contains(n) && n != peer {
            let n = choose|n: NodeId| #[trigger] ann.contains(n) && n != peer;
            let k = choose|k: int| 0 <= k < ann.len() && ann[k] == n;
            assert(ann[k] != peer);
            assert(first_other_than(ann, peer) is Some);
            assert(ann.contains(t));
        } else {
            assert(active.contains(t));
        }
        assert(t != peer);
    }
}

/// `t2` is `t1` with the chunks `lost` of each transfer that has a connected
/// target requested again from it at `now`.
pub open spec fn resent(
    t1: TransferTracker,
    t2: TransferTracker,
    lost: Seq<(ManifestId, ChunkId)>,
    holders: Map<u128, OrderedMap<()>>,
    active: Seq<NodeId>,
    peer: NodeId,
    bootstrap: bool,
    connected: Seq<NodeId>,
    now: u64,
) -> bool {
    &&& t2.wf()
    &&& t2.holders() == t1.holders()
    &&& t2.transfers().dom() == t1.transfers().dom()
    &&& forall|m: u128| #[trigger] t1.transfers().contains_key(m) ==> {
        let p = t1.transfers()[m];
        let q = t2.transfers()[m];
        &&& q.manifest == p.manifest
        &&& q.started_at == p.started_at
        &&& q.received() == p.received()
        &&& match resend_target(holders, active, m, peer, bootstrap, connected) {
            Some(n) => q.pending() == p.pending().difference(lost_chunks(lost, m)) && q.in_flight() == p.in_flight().union_prefer_right(
                Map::new(|c: u64| lost_chunks(lost, m).contains(c), |c: u64| (n, now)),
            ),
            None => q.pending() == p.pending() && q.in_flight() == p.in_flight(),
        }
    }
}

/// `t1` is `t0` after peer `peer` disconnected: it holds nothing any more,
/// and the chunks requested from it, `lost`, are pending again.
pub open spec fn disconnected(t0: TransferTracker, t1: TransferTracker, peer: NodeId, lost: Seq<(ManifestId, ChunkId)>) -> bool {
    &&& t1.wf()
    &&& t1.holders() == without_holder(t0.holders(), peer.0)
    &&& t1.transfers().dom() == t0.transfers().dom()
    &&& forall|m: u128| #[trigger] t0.transfers().contains_key(m) ==> requeued(
        t0.transfers()[m],
        t1.transfers()[m],
        requested_from(t0.transfers()[m].in_flight(), peer),
    )
    &&& lost.no_duplicates()
    &&& forall|x: (ManifestId, ChunkId)| #[trigger] lost.contains(x) <==> t0.transfers().contains_key(x.0.0) && requested_from(
        t0.transfers()[x.0.0].in_flight(),
        peer,
    ).contains(x.1.0 as u64)
}

proof fn lemma_lost_chunks_push(s: Seq<(ManifestId, ChunkId)>, x: (ManifestId, ChunkId), m: u128)
    ensures
        lost_chunks(s.push(x), m) == if x.0.0 == m {
            lost_chunks(s, m).insert(x.1.0 as u64)
        } else {
            lost_chunks(s, m)
        },
{
    let t = s.push(x);
    if x.0.0 == m {
        assert forall|c: u64| lost_chunks(t, m).contains(c) == lost_chunks(s, m).insert(x.1.0 as u64).contains(c) by {
            if lost_chunks(s, m).contains(c) {
                let j = choose|j: int| 0 <= j < s.len() && s[j].0.0 == m && s[j].1.0 as u64 == c;
                assert(t[j] == s[j]);
            }
            if c == x.1.0 as u64 {
                assert(t[s.len() as int] == x);
            }
            if lost_chunks(t, m).contains(c) {
                let j = choose|j: int| 0 <= j < t.len() && t[j].0.0 == m && t[j].1.0 as u64 == c;
                if j < s.len() {
                    assert(t[j] == s[j]);
                }
            }
        }
        assert(lost_chunks(t, m) =~= lost_chunks(s, m).insert(x.1.0 as u64));
    } else {
        assert forall|c: u64| lost_chunks(t, m).contains(c) == lost_chunks(s, m).contains(c) by {
            if lost_chunks(s, m).contains(c) {
                let j = choose|j: int| 0 <= j < s.len() && s[j].0.0 == m && s[j].1.0 as u64 == c;
                assert(t[j] == s[j]);
            }
            if lost_chunks(t, m).contains(c) {
                let j = choose|j: int| 0 <= j < t.len() && t[j].0.0 == m && t[j].1.0 as u64 == c;
                if j < s.len() {
                    assert(t[j] == s[j]);
                }
            }
        }
        assert(lost_chunks(t, m) =~= lost_chunks(s, m));
    }
}

/// Asking again for one more lost chunk keeps the picture of [`resent`].
proof fn lemma_resent_step(
    t1: TransferTracker,
    tq: TransferTracker,
    tq2: TransferTracker,
    lost: Seq<(ManifestId, ChunkId)>,
    i: int,
    holders: Map<u128, OrderedMap<()>>,
    active: Seq<NodeId>,
    peer: NodeId,
    bootstrap: bool,
    connected: Seq<NodeId>,
    now: u64,
)
    requires
        0 <= i < lost.len(),
        t1.wf(),
        resent(t1, tq, lost.take(i), holders, active, peer, bootstrap, connected, now),
        t1.transfers().contains_key(lost[i].0.0),
        t1.transfers()[lost[i].0.0].pending().contains(lost[i].1.0 as u64),
        !lost_chunks(lost.take(i), lost[i].0.0).contains(lost[i].1.0 as u64),
        tq2.wf(),
        tq2.holders() == tq.holders(),
        tq2.transfers().dom() == tq.transfers().dom(),
        forall|m: u128| m != lost[i].0.0 && #[trigger] tq.transfers().contains_key(m) ==> tq2.transfers()[m] == tq.transfers()[m],
        resend_target(holders, active, lost[i].0.0, peer, bootstrap, connected) is None ==> tq2.transfers() == tq.transfers(),
        resend_target(holders, active, lost[i].0.0, peer, bootstrap, connected) matches Some(n) ==> {
            let p = tq.transfers()[lost[i].0.0];
            let q = tq2.transfers()[lost[i].0.0];
            let k = lost[i].1.0 as u64;
            &&& q.manifest == p.manifest
            &&& q.started_at == p.started_at
            &&& q.received() == p.received()
            &&& p.pending().contains(k) ==> q.pending() == p.pending().remove(k) && q.in_flight() == p.in_flight().insert(k, (n, now))
        },
    ensures
        resent(t1, tq2, lost.take(i + 1), holders, active, peer, bootstrap, connected, now),
{
    let x = lost[i];
    let mm = x.0.0;
    let cc = x.1.0 as u64;
    assert(lost.take(i + 1) =~= lost.take(i).push(x));
    assert forall|m: u128| #[trigger] t1.transfers().contains_key(m) implies {
        let p = t1.transfers()[m];
        let q = tq2.transfers()[m];
        &&& q.manifest == p.manifest
        &&& q.started_at == p.started_at
        &&& q.received() == p.received()
        &&& match resend_target(holders, active, m, peer, bootstrap, connected) {
            Some(n) => q.pending() == p.pending().difference(lost_chunks(lost.take(i + 1), m)) && q.in_flight()
                == p.in_flight().union_prefer_right(
                Map::new(|c: u64| lost_chunks(lost.take(i + 1), m).contains(c), |c: u64| (n, now)),
            ),
            None => q.pending() == p.pending() && q.in_flight() == p.in_flight(),
        }
    } by {
        lemma_lost_chunks_push(lost.take(i), x, m);
        let p = t1.transfers()[m];
        if m == mm {
            match resend_target(holders, active, m, peer, bootstrap, connected) {
                Some(n) => {
                    let l0 = lost_chunks(lost.take(i), m);
                    assert(tq.transfers()[m].pending().contains(cc));
                    assert(tq2.transfers()[m].pending() =~= p.pending().difference(l0.insert(cc)));
                    assert(tq2.transfers()[m].in_flight() =~= p.in_flight().union_prefer_right(
                        Map::new(|c: u64| l0.insert(cc).contains(c), |c: u64| (n, now)),
                    ));
                },
                None => {},
            }
        } else {
            match resend_target(holders, active, m, peer, bootstrap, connected) {
                Some(n) => {
                    assert(lost_chunks(lost.take(i + 1), m) == lost_chunks(lost.take(i), m));
                },
                None => {},
            }
        }
    }
}

/// The ids of the chunks of `m`.
pub open spec fn chunk_ids_of(m: Manifest) -> Set<u64> {
    Set::new(|c: u64| exists|k: int| 0 <= k < m.chunks@.len() && m.chunks@[k].id.0 == c)
}

/// Transfer `q` is `p` with the chunks `ids` received, those that were
/// pending or in flight.
pub open spec fn all_received(p: TransferProgress, q: TransferProgress, ids: Set<u64>) -> bool {
    &&& q.manifest == p.manifest
    &&& q.started_at == p.started_at
    &&& q.pending() == p.pending().difference(ids)
    &&& q.in_flight() == p.in_flight().remove_keys(ids)
    &&& q.received() == p.received().union(ids.intersect(p.pending().union(p.in_flight().dom())))
}

/// What seeding `manifest` does: the manifest is kept (a copy), this node
/// is recorded as having it, its transfer is tracked with every chunk
/// received, and the peers get the manifest and the list of its chunks.
pub open spec fn seeded(a: NodeState, b: NodeState, manifest: Manifest, now: u64, r: Seq<Action>) -> bool {
    let id = manifest.id;
    &&& b.node_id == a.node_id
    &&& b.overlay == a.overlay
    &&& b.banned_peers == a.banned_peers
    &&& b.download_destinations == a.download_destinations
    &&& b.bonded_downloads == a.bonded_downloads
    &&& b.wan_bandwidth == a.wan_bandwidth
    &&& b.malicious == a.malicious
    &&& b.slow_loris == a.slow_loris
    &&& exists|x: Manifest| same_manifest(x, manifest) && b.manifests@ == a.manifests@.insert(id.0, x)
    &&& holder_added(a.manifest_holders@, b.manifest_holders@, id.0, a.node_id.0)
    &&& exists|t: TransferTracker|
        started(a.tracker, t, manifest, now) && b.tracker.wf() && b.tracker.holders() == t.holders() && b.tracker.transfers().dom()
            == t.transfers().dom() && (forall|k: u128| k != id.0 && #[trigger] t.transfers().contains_key(k) ==> b.tracker.transfers()[k]
            == t.transfers()[k]) && all_received(t.transfers()[id.0], b.tracker.transfers()[id.0], chunk_ids_of(manifest))
    &&& r.len() == 2
    &&& r[0] == Action::GossipManifest { except: a.node_id, manifest_id: id }
    &&& r[1] matches Action::Broadcast { except, msg: NetMessage::Bitfield { manifest_id, chunks } } && except == a.node_id
        && manifest_id == id && chunks@ == manifest.chunks@.map_values(|c: ChunkMeta| c.id)
}

proof fn lemma_receive_one(p: TransferProgress, q: TransferProgress, q2: TransferProgress, ids: Set<u64>, c: u64)
    requires
        q.wf(),
        all_received(p, q, ids),
        q2.manifest == q.manifest,
        q2.started_at == q.started_at,
        q.pending().contains(c) ==> q2.pending() == q.pending().remove(c) && q2.in_flight() == q.in_flight() && q2.received()
            == q.received().insert(c),
        !q.pending().contains(c) && q.in_flight().contains_key(c) ==> q2.pending() == q.pending() && q2.in_flight()
            == q.in_flight().remove(c) && q2.received() == q.received().insert(c),
        !q.pending().contains(c) && !q.in_flight().contains_key(c) ==> q2.pending() == q.pending() && q2.in_flight()
            == q.in_flight() && q2.received() == q.received(),
    ensures
        all_received(p, q2, ids.insert(c)),
{
    let s2 = ids.insert(c);
    if q.pending().contains(c) {
        assert(!q.chunks_in_flight@.contains_key(c));
        assert(q2.pending() =~= p.pending().difference(s2));
        assert(q2.in_flight() =~= p.in_flight().remove_keys(s2));
        assert(q2.received() =~= p.received().union(s2.intersect(p.pending().union(p.in_flight().dom()))));
    } else if q.in_flight().contains_key(c) {
        assert(q2.pending() =~= p.pending().difference(s2));
        assert(q2.in_flight() =~= p.in_flight().remove_keys(s2));
        assert(q2.received() =~= p.received().union(s2.intersect(p.pending().union(p.in_flight().dom()))));
    } else {
        assert(q2.pending() =~= p.pending().difference(s2));
        assert(q2.in_flight() =~= p.in_flight().remove_keys(s2));
        assert(q2.received() =~= p.received().union(s2.intersect(p.pending().union(p.in_flight().dom()))));
    }
}

/// The manifest announcements of a bonded download of manifest `m`: one to
/// each node of `per_node` other than this one (`local`), in order.
pub open spec fn announcements(per_node: Seq<(NodeId, Vec<(ChunkId, u64, u32)>)>, local: NodeId, m: ManifestId) -> Seq<Action>
    decreases per_node.len(),
{
    if per_node.len() == 0 {
        Seq::empty()
    } else {
        let rest = announcements(per_node.drop_last(), local, m);
        if per_node.last().0 != local {
            rest.push(Action::SendManifest { to: per_node.last().0, manifest_id: m })
        } else {
            rest
        }
    }
}

/// A first batch of a bonded download of `url` handed out: fetched here when
/// it is this node's (`local`), else sent to its node.
pub open spec fn dispatch(p: (NodeId, Vec<(ChunkId, u64, u32)>), url: String, m: ManifestId, local: NodeId) -> Action {
    if p.0 == local {
        Action::FetchRanges { url, manifest_id: m, coordinator_id: local, assignments: p.1 }
    } else {
        Action::Send {
            to: p.0,
            msg: NetMessage::AssignFetchRanges { url, manifest_id: m, coordinator_id: local, assignments: p.1 },
        }
    }
}

impl NodeState {
    /// The tables are well formed.
    pub open spec fn wf(&self) -> bool {
        &&& self.overlay.wf()
        &&& self.manifests.wf()
        &&& self.manifest_holders.wf()
        &&& forall|m: u128| #[trigger] self.manifest_holders@.contains_key(m) ==> self.manifest_holders@[m].wf()
        &&& self.tracker.wf()
        &&& self.banned_peers.wf()
        &&& self.download_destinations.wf()
        &&& self.bonded_downloads.wf()
    }

    /// The active nodes of the overlay, by increasing id, each with its
    /// configuration: the nodes a bonded download is shared among.
    pub fn active_configs(&self) -> (r: Vec<(NodeId, NodeConfig)>)
        requires
            self.wf(),
        ensures
            exists|a: Seq<NodeId>|
                ids_sorted(a) && a.to_multiset() == available_ids(self.overlay.node_values()).to_multiset() && r@ == configs_of(
                    a,
                    self.overlay@.nodes,
                ),
    {
        let active = self.overlay.active_nodes();
        let mut r: Vec<(NodeId, NodeConfig)> = Vec::new();
        let mut k: usize = 0;
        while k < active.len()
            invariant
                self.overlay.wf(),
                k <= active@.len(),
                r@ == configs_of(active@.take(k as int), self.overlay@.nodes),
            decreases active.len() - k,
        {
            let id = active[k];
            proof {
                assert(active@.take(k + 1).drop_last() =~= active@.take(k as int));
            }
            match self.overlay.get_node(id) {
                Some(n) => {
                    r.push((id, n.config));
                },
                None => {},
            }
            k = k + 1;
            proof {
                assert(r@ =~= configs_of(active@.take(k as int), self.overlay@.nodes));
            }
        }
        proof {
            assert(active@.take(k as int) =~= active@);
        }
        r
    }

    /// A node that knows nothing yet.
    pub fn new(node_id: NodeId, wan_bandwidth: u64, malicious: bool, slow_loris: bool) -> (r: Self)
        ensures
            r.wf(),
            r.node_id == node_id,
            r.overlay@.nodes == Map::<u64, crate::node::Node>::empty(),
            r.overlay@.config.max_nodes == 50,
            r.overlay@.coordinator is None,
            r.manifests@ == Map::<u128, Manifest>::empty(),
            r.manifest_holders@ == Map::<u128, OrderedMap<()>>::empty(),
            r.tracker.transfers() == Map::<u128, TransferProgress>::empty(),
            r.tracker.holders() == Map::<u128, Map<u64, Set<u64>>>::empty(),
            r.banned_peers@ == Map::<u64, ()>::empty(),
            r.download_destinations@ == Map::<u128, String>::empty(),
            r.bonded_downloads@ == Map::<u128, BondedDownload>::empty(),
            r.wan_bandwidth == wan_bandwidth,
            r.malicious == malicious,
            r.slow_loris == slow_loris,
    {
        NodeState {
            node_id,
            overlay: OverlayStateTable::new(ClusterConfig::default()),
            manifests: IdTable::new(),
            manifest_holders: IdTable::new(),
            tracker: TransferTracker::new(),
            banned_peers: OrderedMap::new(),
            download_destinations: IdTable::new(),
            bonded_downloads: IdTable::new(),
            wan_bandwidth,
            malicious,
            slow_loris,
        }
    }

    /// Ask peers for the pending chunks of manifest `manifest_id` (see
    /// [`plan_requests`]): the requests are recorded at `now_ms` and one
    /// request message is returned for each.
    pub fn try_request_pending_chunks(&mut self, manifest_id: ManifestId, now_ms: u64) -> (r: Vec<Action>)
        requires
            old(self).wf(),
        ensures
            final(self).wf(),
            only_tracker_changed(*old(self), *final(self)),
            then_requested(old(self).tracker, final(self).tracker, manifest_id, old(self).node_id, now_ms, r@),
    {
        let picks = plan_requests(&mut self.tracker, manifest_id, self.node_id, now_ms);
        request_messages(manifest_id, &picks)
    }

    /// Handle message `msg` from `peer` at `now_ms` (see [`message_handled`]).
    pub fn handle_net_message(&mut self, peer: NodeId, msg: NetMessage, now_ms: u64) -> (r: Vec<Action>)
        requires
            old(self).wf(),
        ensures
            final(self).wf(),
            message_handled(*old(self), *final(self), peer, msg, now_ms, r@),
    {
        match msg {
            NetMessage::Handshake { .. } => Vec::new(),
            NetMessage::HeartbeatPing => one(Action::Send { to: peer, msg: NetMessage::HeartbeatAck }),
            NetMessage::HeartbeatAck => {
                let ghost ov = self.overlay@;
                match self.overlay.get_node_mut(peer) {
                    Some(node) => node.activate(),
                    None => {},
                }
                proof {
                    if ov.nodes.contains_key(peer.0) {
                        assert(activated(ov.nodes[peer.0], self.overlay@.nodes[peer.0]));
                    }
                }
                Vec::new()
            },
            NetMessage::RequestManifest { manifest_id } => {
                if self.manifests.find(manifest_id.0).is_some() {
                    one(Action::SendManifest { to: peer, manifest_id })
                } else {
                    Vec::new()
                }
            },
            NetMessage::ManifestData { manifest } => self.on_manifest_data(peer, manifest, now_ms),
            NetMessage::RequestChunk { manifest_id, chunk_id } => {
                match self.find_chunk(manifest_id, chunk_id) {
                    Some(meta) => one(Action::ReadChunk { to: peer, manifest_id, chunk_id, offset: meta.offset, size: meta.size }),
                    None => one(Action::Send { to: peer, msg: NetMessage::ChunkNotFound { manifest_id, chunk_id } }),
                }
            },
            NetMessage::ChunkData { manifest_id, chunk_id, data } => self.on_chunk_data(peer, manifest_id, chunk_id, data),
            NetMessage::ChunkNotFound { manifest_id, chunk_id } => {
                self.tracker.unmark_chunk_in_flight(manifest_id, chunk_id);
                let ghost t1 = self.tracker;
                self.tracker.remove_peer_chunk_availability(manifest_id, chunk_id, peer);
                let ghost t2 = self.tracker;
                let r = self.try_request_pending_chunks(manifest_id, now_ms);
                proof {
                    assert(released(old(self).tracker, t1, manifest_id, chunk_id));
                    assert(then_requested(t2, self.tracker, manifest_id, old(self).node_id, now_ms, r@));
                }
                r
            },
            NetMessage::Bitfield { manifest_id, chunks } => {
                let ghost t0 = self.tracker;
                let mut i: usize = 0;
                while i < chunks.len()
                    invariant
                        i <= chunks@.len(),
                        self.wf(),
                        t0 == old(self).tracker,
                        only_tracker_changed(*old(self), *self),
                        self.tracker.transfers() == t0.transfers(),
                        self.tracker.holders() == with_holders(t0.holders(), manifest_id.0, chunks@.take(i as int), peer.0),
                    decreases chunks.len() - i,
                {
                    proof {
                        assert(chunks@.take(i + 1).drop_last() =~= chunks@.take(i as int));
                    }
                    self.tracker.register_peer_chunk(manifest_id, chunks[i], peer);
                    i = i + 1;
                }
                proof {
                    assert(chunks@.take(i as int) =~= chunks@);
                }
                let ghost t = self.tracker;
                let r = self.try_request_pending_chunks(manifest_id, now_ms);
                proof {
                    assert(then_requested(t, self.tracker, manifest_id, old(self).node_id, now_ms, r@));
                }
                r
            },
            NetMessage::Have { manifest_id, chunk_id } => {
                self.tracker.register_peer_chunk(manifest_id, chunk_id, peer);
                let ghost t = self.tracker;
                let r = self.try_request_pending_chunks(manifest_id, now_ms);
                proof {
                    assert(registered(old(self).tracker, t, manifest_id, chunk_id, peer));
                    assert(then_requested(t, self.tracker, manifest_id, old(self).node_id, now_ms, r@));
                }
                r
            },
            NetMessage::AssignFetchRanges { url, manifest_id, coordinator_id, assignments } => one(Action::FetchRanges { url, manifest_id, coordinator_id, assignments }),
            NetMessage::RequestMoreWork { manifest_id, node_id } => self.handle_request_more_work(manifest_id, node_id),
            NetMessage::ProxyConnect { stream_id, host, port } => one(Action::Proxy { from: peer, msg: NetMessage::ProxyConnect { stream_id, host, port } }),
            NetMessage::ProxyConnectResult { stream_id, success } => one(Action::Proxy { from: peer, msg: NetMessage::ProxyConnectResult { stream_id, success } }),
            NetMessage::ProxyData { stream_id, data } => one(Action::Proxy { from: peer, msg: NetMessage::ProxyData { stream_id, data } }),
            NetMessage::ProxyClose { stream_id } => one(Action::Proxy { from: peer, msg: NetMessage::ProxyClose { stream_id } }),
        }
    }

    /// The metadata of chunk `chunk_id` of manifest `manifest_id`, if known.
    fn find_chunk(&self, manifest_id: ManifestId, chunk_id: ChunkId) -> (r: Option<ChunkMeta>)
        requires
            self.wf(),
        ensures
            r == chunk_meta(self.manifests@, manifest_id, chunk_id),
    {
        match self.manifests.find(manifest_id.0) {
            Some(i) => match self.manifests.value_at(i).get_chunk(chunk_id) {
                Some(meta) => Some(*meta),
                None => None,
            },
            None => None,
        }
    }

    fn on_manifest_data(&mut self, peer: NodeId, manifest: Manifest, now_ms: u64) -> (r: Vec<Action>)
        requires
            old(self).wf(),
        ensures
            final(self).wf(),
            manifest_received(*old(self), *final(self), peer, manifest, now_ms, r@),
    {
        let id = manifest.id;
        let mut actions: Vec<Action> = Vec::new();
        if self.manifests.find(id.0).is_none() {
            let copy = copy_manifest(&manifest);
            self.manifests.push(id.0, copy);
            actions.push(Action::GossipManifest { except: peer, manifest_id: id });
        }
        let ghost h0 = self.manifest_holders@;
        match self.manifest_holders.find(id.0) {
            Some(i) => {
                let set = self.manifest_holders.value_at_mut(i);
                set.insert(peer.0, ());
            },
            None => {
                let mut set: OrderedMap<()> = OrderedMap::new();
                set.insert(peer.0, ());
                self.manifest_holders.push(id.0, set);
            },
        }
        proof {
            assert(self.manifest_holders@.dom() =~= h0.dom().insert(id.0));
        }
        let ghost t0 = self.tracker;
        self.tracker.start_transfer(manifest, now_ms);
        let ghost t1 = self.tracker;
        let ghost before = actions@;
        let mut more = self.try_request_pending_chunks(id, now_ms);
        actions.append(&mut more);
        proof {
            let picks = choose|picks: Seq<(ChunkId, NodeId)>| requests_made(t1, self.tracker, id, old(self).node_id, now_ms, picks)
                && more@ == request_actions(id, picks);
        }
        actions
    }

    fn on_chunk_data(&mut self, peer: NodeId, manifest_id: ManifestId, chunk_id: ChunkId, data: Vec<u8>) -> (r: Vec<Action>)
        requires
            old(self).wf(),
        ensures
            final(self).wf(),
            chunk_data_handled(*old(self), *final(self), peer, manifest_id, chunk_id, data, r@),
    {
        let meta = match self.find_chunk(manifest_id, chunk_id) {
            Some(m) => m,
            None => {
                return Vec::new();
            },
        };
        let actual = blake3_hash(data.as_slice());
        let zero: [u8; 32] = [0u8; 32];
        if digests_equal(&meta.hash, &actual) || digests_equal(&meta.hash, &zero) {
            proof {
                assert(zero@ =~= Seq::new(32, |i: int| 0u8));
            }
            one(Action::StoreChunk { from: peer, manifest_id, chunk_id, data, offset: meta.offset })
        } else {
            proof {
                assert(zero@ =~= Seq::new(32, |i: int| 0u8));
            }
            self.tracker.unmark_chunk_in_flight(manifest_id, chunk_id);
            self.banned_peers.insert(peer.0, ());
            one(Action::Disconnect { peer })
        }
    }

    /// The bytes of chunk `chunk_id` of manifest `manifest_id` read for peer
    /// `to` (`None` when the store has nothing or failed): they are sent, with
    /// every bit flipped when the node corrupts what it serves, or never when
    /// it stalls requests; with no bytes, the chunk is reported not found.
    pub fn on_chunk_read(&self, to: NodeId, manifest_id: ManifestId, chunk_id: ChunkId, data: Option<Vec<u8>>) -> (r: Option<
        Action,
    >)
        ensures
            data is None ==> r == Some(Action::Send { to, msg: NetMessage::ChunkNotFound { manifest_id, chunk_id } }),
            data is Some && self.slow_loris ==> r is None,
            data is Some && !self.slow_loris ==> (r matches Some(Action::Send { to: t, msg: NetMessage::ChunkData { manifest_id: m, chunk_id: c, data: d } })
                && t == to && m == manifest_id && c == chunk_id && d@ == if self.malicious { inverted(data->0@) } else { data->0@ }),
    {
        match data {
            None => Some(Action::Send { to, msg: NetMessage::ChunkNotFound { manifest_id, chunk_id } }),
            Some(bytes) => {
                if self.slow_loris {
                    return None;
                }
                let out = if self.malicious {
                    let mut flipped: Vec<u8> = Vec::new();
                    let mut i: usize = 0;
                    while i < bytes.len()
                        invariant
                            i <= bytes@.len(),
                            flipped@ == inverted(bytes@.take(i as int)),
                        decreases bytes.len() - i,
                    {
                        flipped.push(bytes[i] ^ 0xffu8);
                        i = i + 1;
                        assert(flipped@ =~= inverted(bytes@.take(i as int)));
                    }
                    assert(bytes@.take(i as int) =~= bytes@);
                    flipped
                } else {
                    bytes
                };
                Some(Action::Send { to, msg: NetMessage::ChunkData { manifest_id, chunk_id, data: out } })
            },
        }
    }

    /// The store wrote (`ok`) or failed to write the bytes of chunk `chunk_id`
    /// of manifest `manifest_id` received from `from` (see [`chunk_stored`]).
    pub fn on_chunk_stored(&mut self, from: NodeId, manifest_id: ManifestId, chunk_id: ChunkId, ok: bool, now_ms: u64) -> (r: Vec<
        Action,
    >)
        requires
            old(self).wf(),
        ensures
            final(self).wf(),
            chunk_stored(*old(self), *final(self), from, manifest_id, chunk_id, ok, now_ms, r@),
    {
        if !ok {
            return Vec::new();
        }
        self.tracker.mark_chunk_received(manifest_id, chunk_id);
        let ghost t = self.tracker;
        let mut actions = one(Action::Broadcast { except: from, msg: NetMessage::Have { manifest_id, chunk_id } });
        let mut more = self.try_request_pending_chunks(manifest_id, now_ms);
        let ghost first = actions@;
        let ghost requested = more@;
        actions.append(&mut more);
        let complete = match self.tracker.get_progress(manifest_id) {
            Some(p) => {
                proof {
                    self.tracker.lemma_transfers_wf(manifest_id.0);
                }
                p.is_complete()
            },
            None => false,
        };
        if complete {
            match self.download_destinations.find(manifest_id.0) {
                Some(i) => {
                    let dest = self.download_destinations.value_at(i).clone();
                    actions.push(Action::Reassemble { manifest_id, dest });
                },
                None => {},
            }
        }
        proof {
            let picks = choose|picks: Seq<(ChunkId, NodeId)>| requests_made(t, self.tracker, manifest_id, old(self).node_id, now_ms, picks)
                && requested == request_actions(manifest_id, picks);
            assert(marked_received(old(self).tracker, t, manifest_id, chunk_id));
            if complete && self.download_destinations@.contains_key(manifest_id.0) {
                assert(actions@ =~= first + requested + seq![
                    Action::Reassemble { manifest_id, dest: self.download_destinations@[manifest_id.0] },
                ]);
            } else {
                assert(actions@ =~= first + requested + Seq::<Action>::empty());
            }
        }
        actions
    }

    /// This node fetched chunk `chunk_id` of bonded download `manifest_id`
    /// itself and stored it: the chunk is received, every peer is told, and a
    /// transfer that is now complete and has a destination is reassembled.
    pub fn on_range_fetched(&mut self, manifest_id: ManifestId, chunk_id: ChunkId) -> (r: Vec<Action>)
        requires
            old(self).wf(),
        ensures
            final(self).wf(),
            only_tracker_changed(*old(self), *final(self)),
            marked_received(old(self).tracker, final(self).tracker, manifest_id, chunk_id),
            r@ == seq![
                Action::Broadcast { except: old(self).node_id, msg: NetMessage::Have { manifest_id, chunk_id } },
            ] + if transfer_complete(final(self).tracker, manifest_id) && old(self).download_destinations@.contains_key(manifest_id.0) {
                seq![Action::Reassemble { manifest_id, dest: old(self).download_destinations@[manifest_id.0] }]
            } else {
                Seq::<Action>::empty()
            },
    {
        self.tracker.mark_chunk_received(manifest_id, chunk_id);
        let mut actions = one(Action::Broadcast { except: self.node_id, msg: NetMessage::Have { manifest_id, chunk_id } });
        let complete = match self.tracker.get_progress(manifest_id) {
            Some(p) => {
                proof {
                    self.tracker.lemma_transfers_wf(manifest_id.0);
                }
                p.is_complete()
            },
            None => false,
        };
        let ghost first = actions@;
        if complete {
            match self.download_destinations.find(manifest_id.0) {
                Some(i) => {
                    let dest = self.download_destinations.value_at(i).clone();
                    actions.push(Action::Reassemble { manifest_id, dest });
                },
                None => {},
            }
        }
        proof {
            if complete && self.download_destinations@.contains_key(manifest_id.0) {
                assert(actions@ =~= first + seq![
                    Action::Reassemble { manifest_id, dest: self.download_destinations@[manifest_id.0] },
                ]);
            } else {
                assert(actions@ =~= first + Seq::<Action>::empty());
            }
        }
        actions
    }

    /// Peer `peer` introduced itself on a connection: refused (false) when
    /// banned; else it joins the overlay as an active node (unless the
    /// cluster is full) and the connection is kept (true).
    pub fn on_handshake(&mut self, peer: NodeId) -> (r: bool)
        requires
            old(self).wf(),
        ensures
            final(self).wf(),
            r == !old(self).banned_peers@.contains_key(peer.0),
            !r ==> *final(self) == *old(self),
            r ==> only_overlay_changed(*old(self), *final(self)) && peer_added(old(self).overlay@, final(self).overlay@, peer),
    {
        if self.banned_peers.contains_key(peer.0) {
            return false;
        }
        self.add_peer(peer);
        true
    }

    /// A peer announced itself on the local network: ignored (false) when
    /// banned; else it joins the overlay as an active node (unless the
    /// cluster is full), and this node dials it (true) when its own id is the
    /// higher, so that two peers open one connection between them.
    pub fn on_peer_discovered(&mut self, peer: NodeId) -> (r: bool)
        requires
            old(self).wf(),
        ensures
            final(self).wf(),
            old(self).banned_peers@.contains_key(peer.0) ==> !r && *final(self) == *old(self),
            !old(self).banned_peers@.contains_key(peer.0) ==> r == (old(self).node_id.0 > peer.0) && only_overlay_changed(
                *old(self),
                *final(self),
            ) && peer_added(old(self).overlay@, final(self).overlay@, peer),
    {
        if self.banned_peers.contains_key(peer.0) {
            return false;
        }
        self.add_peer(peer);
        self.node_id.0 > peer.0
    }

    fn add_peer(&mut self, peer: NodeId)
        requires
            old(self).wf(),
        ensures
            final(self).wf(),
            only_overlay_changed(*old(self), *final(self)),
            peer_added(old(self).overlay@, final(self).overlay@, peer),
    {
        let mut node = Node::new(peer, NodeConfig::default(), SimTime(0));
        node.activate();
        let ghost n = node;
        let _ = self.overlay.add_node(node);
        proof {
            assert(fresh_peer(n, peer));
        }
    }

    /// The timer check against stalled requests, run every second: each
    /// request outstanding for more than five seconds is taken back, the
    /// peers that left one hanging are banned and disconnected, and the
    /// transfers concerned ask other peers.
    pub fn on_request_timeouts(&mut self, now_ms: u64) -> (r: Vec<Action>)
        requires
            old(self).wf(),
        ensures
            final(self).wf(),
            final(self).node_id == old(self).node_id,
            final(self).overlay == old(self).overlay,
            final(self).manifests == old(self).manifests,
            final(self).manifest_holders == old(self).manifest_holders,
            final(self).download_destinations == old(self).download_destinations,
            final(self).bonded_downloads == old(self).bonded_downloads,
            final(self).wan_bandwidth == old(self).wan_bandwidth,
            final(self).malicious == old(self).malicious,
            final(self).slow_loris == old(self).slow_loris,
            exists|t: TransferTracker, ms: Seq<ManifestId>, ns: Seq<NodeId>, rest: Seq<Action>|
                timed_out(old(self).tracker, t, REQUEST_TIMEOUT_MS, now_ms, ms, ns) && final(self).banned_peers@ == with_bans(
                    old(self).banned_peers@,
                    ns,
                ) && requests_for_all(t, final(self).tracker, ms, old(self).node_id, now_ms, rest) && r@ == disconnects(ns) + rest,
    {
        let (ms, ns) = self.tracker.check_timeouts(REQUEST_TIMEOUT_MS, now_ms);
        let ghost t = self.tracker;
        let ghost b0 = self.banned_peers@;
        proof {
            assert(timed_out(old(self).tracker, t, REQUEST_TIMEOUT_MS, now_ms, ms@, ns@));
        }
        let mut actions: Vec<Action> = Vec::new();
        let mut i: usize = 0;
        while i < ns.len()
            invariant
                i <= ns@.len(),
                timed_out(old(self).tracker, t, REQUEST_TIMEOUT_MS, now_ms, ms@, ns@),
                b0 == old(self).banned_peers@,
                self.tracker == t,
                t.wf(),
                self.overlay.wf(),
                self.manifests.wf(),
                self.manifest_holders.wf(),
                forall|m: u128| #[trigger] self.manifest_holders@.contains_key(m) ==> self.manifest_holders@[m].wf(),
                self.download_destinations.wf(),
                self.bonded_downloads.wf(),
                self.node_id == old(self).node_id,
                self.overlay == old(self).overlay,
                self.manifests == old(self).manifests,
                self.manifest_holders == old(self).manifest_holders,
                self.download_destinations == old(self).download_destinations,
                self.bonded_downloads == old(self).bonded_downloads,
                self.wan_bandwidth == old(self).wan_bandwidth,
                self.malicious == old(self).malicious,
                self.slow_loris == old(self).slow_loris,
                self.banned_peers.wf(),
                self.banned_peers@ == with_bans(b0, ns@.take(i as int)),
                actions@ == disconnects(ns@.take(i as int)),
            decreases ns.len() - i,
        {
            proof {
                assert(ns@.take(i + 1).drop_last() =~= ns@.take(i as int));
            }
            self.banned_peers.insert(ns[i].0, ());
            actions.push(Action::Disconnect { peer: ns[i] });
            i = i + 1;
            assert(actions@ =~= disconnects(ns@.take(i as int)));
        }
        proof {
            assert(ns@.take(i as int) =~= ns@);
        }
        let ghost dis = actions@;
        let mut rest: Vec<Action> = Vec::new();
        let mut k: usize = 0;
        let ghost mut ts: Seq<TransferTracker> = seq![t];
        let ghost mut ps: Seq<Seq<(ChunkId, NodeId)>> = Seq::empty();
        while k < ms.len()
            invariant
                k <= ms@.len(),
                timed_out(old(self).tracker, t, REQUEST_TIMEOUT_MS, now_ms, ms@, ns@),
                self.wf(),
                self.node_id == old(self).node_id,
                self.overlay == old(self).overlay,
                self.manifests == old(self).manifests,
                self.manifest_holders == old(self).manifest_holders,
                self.download_destinations == old(self).download_destinations,
                self.bonded_downloads == old(self).bonded_downloads,
                self.wan_bandwidth == old(self).wan_bandwidth,
                self.malicious == old(self).malicious,
                self.slow_loris == old(self).slow_loris,
                self.banned_peers@ == with_bans(b0, ns@),
                ts.len() == k + 1,
                ps.len() == k,
                ts[0] == t,
                ts[k as int] == self.tracker,
                forall|i: int| 0 <= i < k ==> #[trigger] requests_made(ts[i], ts[i + 1], ms@[i], old(self).node_id, now_ms, ps[i]),
                rest@ == all_requests(ms@.take(k as int), ps),
            decreases ms.len() - k,
        {
            let ghost tk = self.tracker;
            let ghost prefix = rest@;
            let mut more = self.try_request_pending_chunks(ms[k], now_ms);
            let ghost added = more@;
            rest.append(&mut more);
            proof {
                let picks = choose|picks: Seq<(ChunkId, NodeId)>| requests_made(tk, self.tracker, ms@[k as int], old(self).node_id, now_ms, picks)
                    && added == request_actions(ms@[k as int], picks);
                let ts2 = ts.push(self.tracker);
                let ps2 = ps.push(picks);
                assert forall|i: int| 0 <= i < k + 1 implies #[trigger] requests_made(ts2[i], ts2[i + 1], ms@[i], old(self).node_id, now_ms, ps2[i]) by {
                    if i < k {
                        assert(ts2[i] == ts[i] && ts2[i + 1] == ts[i + 1] && ps2[i] == ps[i]);
                    }
                }
                let s2 = ms@.take(k + 1);
                assert(s2.drop_last() =~= ms@.take(k as int));
                assert(ps2.drop_last() =~= ps);
                assert(rest@ == all_requests(s2, ps2));
                ts = ts2;
                ps = ps2;
            }
            k = k + 1;
        }
        proof {
            assert(ms@.take(k as int) =~= ms@);
            assert(requests_for_all(t, self.tracker, ms@, old(self).node_id, now_ms, rest@));
        }
        actions.append(&mut rest);
        actions
    }

    /// Where to ask again for the chunks of transfer `m` that `lost` left hanging.
    fn retarget_exec(&self, active: &Vec<NodeId>, m: ManifestId, lost: NodeId, bootstrap: bool) -> (r: Option<NodeId>)
        requires
            self.wf(),
        ensures
            r == retarget(self.manifest_holders@, active@, m.0, lost, bootstrap),
    {
        if bootstrap {
            if active.len() > 0 {
                return Some(active[0]);
            } else {
                return None;
            }
        }
        let from_holders = match self.manifest_holders.find(m.0) {
            Some(i) => {
                let keys = self.manifest_holders.value_at(i).keys();
                let mut ids: Vec<NodeId> = Vec::new();
                let mut k: usize = 0;
                while k < keys.len()
                    invariant
                        k <= keys@.len(),
                        ids@ == keys@.take(k as int).map_values(|x: u64| NodeId(x)),
                    decreases keys.len() - k,
                {
                    ids.push(NodeId(keys[k]));
                    k = k + 1;
                    assert(ids@ =~= keys@.take(k as int).map_values(|x: u64| NodeId(x)));
                }
                assert(keys@.take(k as int) =~= keys@);
                first_node_other(&ids, lost)
            },
            None => {
                assert(announcers(self.manifest_holders@, m.0) =~= Seq::<NodeId>::empty());
                None
            },
        };
        match from_holders {
            Some(n) => Some(n),
            None => first_node_other(active, lost),
        }
    }

    /// Peer `peer` is gone (its connection dropped or it left the local
    /// network): it leaves the overlay and the transfers; the chunks it was
    /// asked for are pending again and are asked of another peer (see
    /// [`retarget`]) when that peer is among `connected`, at `now_ms`.
    /// `bootstrap` tells that `peer` was reached through a bootstrap address.
    pub fn on_peer_lost(&mut self, peer: NodeId, connected: &[NodeId], bootstrap: bool, now_ms: u64) -> (r: Vec<Action>)
        requires
            old(self).wf(),
        ensures
            final(self).wf(),
            final(self).overlay@ == (OverlayView {
                nodes: old(self).overlay@.nodes.remove(peer.0),
                coordinator: if old(self).overlay@.nodes.contains_key(peer.0) && old(self).overlay@.coordinator == Some(peer) {
                    None
                } else {
                    old(self).overlay@.coordinator
                },
                ..old(self).overlay@
            }),
            final(self).node_id == old(self).node_id,
            final(self).manifests == old(self).manifests,
            final(self).manifest_holders == old(self).manifest_holders,
            final(self).banned_peers == old(self).banned_peers,
            final(self).download_destinations == old(self).download_destinations,
            final(self).bonded_downloads == old(self).bonded_downloads,
            final(self).wan_bandwidth == old(self).wan_bandwidth,
            final(self).malicious == old(self).malicious,
            final(self).slow_loris == old(self).slow_loris,
            exists|t1: TransferTracker, lost: Seq<(ManifestId, ChunkId)>, act: Seq<NodeId>|
                #![trigger disconnected(old(self).tracker, t1, peer, lost), ids_sorted(act)]
                ids_sorted(act) && act.to_multiset() == available_ids(final(self).overlay.node_values()).to_multiset() && disconnected(
                    old(self).tracker,
                    t1,
                    peer,
                    lost,
                ) && resent(t1, final(self).tracker, lost, old(self).manifest_holders@, act, peer, bootstrap, connected@, now_ms)
                    && r@ == resend_actions(lost, old(self).manifest_holders@, act, peer, bootstrap, connected@),
    {
        self.overlay.remove_node(peer);
        let lost = self.tracker.handle_node_disconnect(peer);
        let ghost t1 = self.tracker;
        let active = self.overlay.active_nodes();
        let ghost holders = self.manifest_holders@;
        let ghost ov = self.overlay;
        proof {
            assert(disconnected(old(self).tracker, t1, peer, lost@));
            assert(lost@.take(0) =~= Seq::<(ManifestId, ChunkId)>::empty());
            let l0 = lost@.take(0);
            assert forall|m: u128| #[trigger] t1.transfers().contains_key(m) implies {
                let p = t1.transfers()[m];
                match resend_target(holders, active@, m, peer, bootstrap, connected@) {
                    Some(n) => p.pending() == p.pending().difference(lost_chunks(l0, m)) && p.in_flight() == p.in_flight().union_prefer_right(
                        Map::new(|c: u64| lost_chunks(l0, m).contains(c), |c: u64| (n, now_ms)),
                    ),
                    None => true,
                }
            } by {
                let p = t1.transfers()[m];
                assert(lost_chunks(l0, m) =~= Set::<u64>::empty());
                match resend_target(holders, active@, m, peer, bootstrap, connected@) {
                    Some(n) => {
                        assert(p.pending().difference(lost_chunks(l0, m)) =~= p.pending());
                        assert(p.in_flight().union_prefer_right(Map::new(|c: u64| lost_chunks(l0, m).contains(c), |c: u64| (n, now_ms)))
                            =~= p.in_flight());
                    },
                    None => {},
                }
            }
            assert(resent(t1, t1, l0, holders, active@, peer, bootstrap, connected@, now_ms));
        }
        let mut actions: Vec<Action> = Vec::new();
        let mut i: usize = 0;
        while i < lost.len()
            invariant
                i <= lost@.len(),
                self.wf(),
                self.overlay == ov,
                self.manifest_holders@ == holders,
                holders == old(self).manifest_holders@,
                self.node_id == old(self).node_id,
                self.manifests == old(self).manifests,
                self.manifest_holders == old(self).manifest_holders,
                self.banned_peers == old(self).banned_peers,
                self.download_destinations == old(self).download_destinations,
                self.bonded_downloads == old(self).bonded_downloads,
                self.wan_bandwidth == old(self).wan_bandwidth,
                self.malicious == old(self).malicious,
                self.slow_loris == old(self).slow_loris,
                t1.wf(),
                disconnected(old(self).tracker, t1, peer, lost@),
                resent(t1, self.tracker, lost@.take(i as int), holders, active@, peer, bootstrap, connected@, now_ms),
                actions@ == resend_actions(lost@.take(i as int), holders, active@, peer, bootstrap, connected@),
            decreases lost.len() - i,
        {
            let (m, c) = lost[i];
            let ghost x = lost@[i as int];
            let ghost tq = self.tracker;
            proof {
                assert(lost@.contains(x));
                assert(t1.transfers()[m.0].pending().contains(c.0 as u64));
                if lost_chunks(lost@.take(i as int), m.0).contains(c.0 as u64) {
                    let j = choose|j: int| 0 <= j < lost@.take(i as int).len() && lost@.take(i as int)[j].0.0 == m.0 && lost@.take(
                        i as int,
                    )[j].1.0 as u64 == c.0 as u64;
                    assert(lost@[j] == lost@[i as int]);
                }
                assert(lost@.take(i + 1) =~= lost@.take(i as int).push(x));
                assert(lost@.take(i + 1).drop_last() =~= lost@.take(i as int));
            }
            let target = self.retarget_exec(&active, m, peer, bootstrap);
            match target {
                Some(t) => {
                    if contains_id(connected, t) {
                        actions.push(Action::Send { to: t, msg: NetMessage::RequestChunk { manifest_id: m, chunk_id: c } });
                        self.tracker.mark_chunk_in_flight(m, c, t, now_ms);
                    }
                },
                None => {},
            }
            proof {
                lemma_resent_step(t1, tq, self.tracker, lost@, i as int, holders, active@, peer, bootstrap, connected@, now_ms);
            }
            i = i + 1;
        }
        proof {
            assert(lost@.take(i as int) =~= lost@);
        }
        actions
    }

    /// Seed `manifest`, whose data this node stored (see [`seeded`]).
    pub fn seed(&mut self, manifest: Manifest, now_ms: u64) -> (r: Vec<Action>)
        requires
            old(self).wf(),
        ensures
            final(self).wf(),
            seeded(*old(self), *final(self), manifest, now_ms, r@),
    {
        let id = manifest.id;
        let copy = copy_manifest(&manifest);
        let ghost x = copy;
        match self.manifests.find(id.0) {
            Some(i) => {
                let slot = self.manifests.value_at_mut(i);
                *slot = copy;
            },
            None => {
                self.manifests.push(id.0, copy);
            },
        }
        let ghost h0 = self.manifest_holders@;
        let local = self.node_id;
        match self.manifest_holders.find(id.0) {
            Some(i) => {
                let set = self.manifest_holders.value_at_mut(i);
                set.insert(local.0, ());
            },
            None => {
                let mut set: OrderedMap<()> = OrderedMap::new();
                set.insert(local.0, ());
                self.manifest_holders.push(id.0, set);
            },
        }
        proof {
            assert(self.manifest_holders@.dom() =~= h0.dom().insert(id.0));
        }
        let ids = manifest.chunk_ids();
        self.tracker.start_transfer(manifest, now_ms);
        let ghost t = self.tracker;
        proof {
            self.tracker.lemma_transfers_wf(id.0);
            let p = t.transfers()[id.0];
            assert(p.pending().difference(Set::<u64>::empty()) =~= p.pending());
            assert(p.in_flight().remove_keys(Set::<u64>::empty()) =~= p.in_flight());
            assert(p.received().union(Set::<u64>::empty().intersect(p.pending().union(p.in_flight().dom()))) =~= p.received());
            assert(Set::new(|c: u64| exists|j: int| 0 <= j < 0 && ids@[j].0 == c) =~= Set::<u64>::empty());
        }
        let ghost s0 = *self;
        let mut k: usize = 0;
        while k < ids.len()
            invariant
                k <= ids@.len(),
                self.wf(),
                self.node_id == s0.node_id,
                self.overlay == s0.overlay,
                self.manifests == s0.manifests,
                self.manifest_holders == s0.manifest_holders,
                self.banned_peers == s0.banned_peers,
                self.download_destinations == s0.download_destinations,
                self.bonded_downloads == s0.bonded_downloads,
                self.wan_bandwidth == s0.wan_bandwidth,
                self.malicious == s0.malicious,
                self.slow_loris == s0.slow_loris,
                t.wf(),
                t.transfers().contains_key(id.0),
                self.tracker.wf(),
                self.tracker.holders() == t.holders(),
                self.tracker.transfers().dom() == t.transfers().dom(),
                forall|j: u128| j != id.0 && #[trigger] t.transfers().contains_key(j) ==> self.tracker.transfers()[j] == t.transfers()[j],
                all_received(
                    t.transfers()[id.0],
                    self.tracker.transfers()[id.0],
                    Set::new(|c: u64| exists|j: int| 0 <= j < k && ids@[j].0 == c),
                ),
            decreases ids.len() - k,
        {
            let ghost tq = self.tracker;
            proof {
                assert(t.transfers().dom().contains(id.0));
                tq.lemma_transfers_wf(id.0);
            }
            self.tracker.mark_chunk_received(id, ids[k]);
            proof {
                let before = Set::new(|c: u64| exists|j: int| 0 <= j < k && ids@[j].0 == c);
                let after = Set::new(|c: u64| exists|j: int| 0 <= j < k + 1 && ids@[j].0 == c);
                assert(after =~= before.insert(ids@[k as int].0 as u64));
                lemma_receive_one(t.transfers()[id.0], tq.transfers()[id.0], self.tracker.transfers()[id.0], before, ids@[k as int].0 as u64);
            }
            k = k + 1;
        }
        proof {
            let done = Set::new(|c: u64| exists|j: int| 0 <= j < k && ids@[j].0 == c);
            assert forall|c: u64| done.contains(c) == chunk_ids_of(x).contains(c) by {
                if done.contains(c) {
                    let j = choose|j: int| 0 <= j < k && ids@[j].0 == c;
                    assert(x.chunks@[j].id.0 == c);
                }
                if chunk_ids_of(x).contains(c) {
                    let j = choose|j: int| 0 <= j < x.chunks@.len() && x.chunks@[j].id.0 == c;
                    assert(ids@[j].0 == c);
                }
            }
            assert(done =~= chunk_ids_of(manifest));
            assert(ids@ =~= x.chunks@.map_values(|c: ChunkMeta| c.id));
            assert(started(old(self).tracker, t, manifest, now_ms));
        }
        let mut actions = one(Action::GossipManifest { except: local, manifest_id: id });
        actions.push(Action::Broadcast { except: local, msg: NetMessage::Bitfield { manifest_id: id, chunks: ids } });
        actions
    }

    /// Ask for the file of manifest `manifest_id` to be put together at
    /// `dest`: the peers are asked for the manifest when it is unknown; the
    /// destination is recorded; a transfer already complete is reassembled
    /// at once.
    pub fn start_download(&mut self, manifest_id: ManifestId, dest: String) -> (r: Vec<Action>)
        requires
            old(self).wf(),
        ensures
            final(self).wf(),
            final(self).download_destinations@ == old(self).download_destinations@.insert(manifest_id.0, dest),
            final(self).node_id == old(self).node_id,
            final(self).overlay == old(self).overlay,
            final(self).manifests == old(self).manifests,
            final(self).manifest_holders == old(self).manifest_holders,
            final(self).tracker == old(self).tracker,
            final(self).banned_peers == old(self).banned_peers,
            final(self).bonded_downloads == old(self).bonded_downloads,
            final(self).wan_bandwidth == old(self).wan_bandwidth,
            final(self).malicious == old(self).malicious,
            final(self).slow_loris == old(self).slow_loris,
            r@ == (if old(self).manifests@.contains_key(manifest_id.0) {
                Seq::<Action>::empty()
            } else {
                seq![Action::Broadcast { except: old(self).node_id, msg: NetMessage::RequestManifest { manifest_id } }]
            }) + if transfer_complete(old(self).tracker, manifest_id) && old(self).manifests@.contains_key(manifest_id.0) {
                seq![Action::Reassemble { manifest_id, dest }]
            } else {
                Seq::<Action>::empty()
            },
    {
        let known = self.manifests.find(manifest_id.0).is_some();
        let mut actions: Vec<Action> = Vec::new();
        if !known {
            actions.push(Action::Broadcast { except: self.node_id, msg: NetMessage::RequestManifest { manifest_id } });
        }
        let complete = match self.tracker.get_progress(manifest_id) {
            Some(p) => {
                proof {
                    self.tracker.lemma_transfers_wf(manifest_id.0);
                }
                p.is_complete()
            },
            None => false,
        };
        let again = dest.clone();
        match self.download_destinations.find(manifest_id.0) {
            Some(i) => {
                let slot = self.download_destinations.value_at_mut(i);
                *slot = dest;
            },
            None => {
                self.download_destinations.push(manifest_id.0, dest);
            },
        }
        let ghost before = actions@;
        if complete && known {
            actions.push(Action::Reassemble { manifest_id, dest: again });
            proof {
                assert(actions@ =~= before + seq![Action::Reassemble { manifest_id, dest: again }]);
            }
        } else {
            proof {
                assert(actions@ =~= before + Seq::<Action>::empty());
            }
        }
        actions
    }

    /// Start coordinating bonded download `download` (see
    /// [`plan_bonded_download`](crate::bonded::plan_bonded_download)), whose
    /// first batches are `per_node`: the download, its manifest (a copy) and
    /// its destination are recorded and its transfer tracked; the nodes that
    /// get a batch are sent the manifest, then each batch is handed out.
    pub fn start_bonded_download(
        &mut self,
        download: BondedDownload,
        per_node: Vec<(NodeId, Vec<(ChunkId, u64, u32)>)>,
        now_ms: u64,
    ) -> (r: Vec<Action>)
        requires
            old(self).wf(),
        ensures
            final(self).wf(),
            final(self).node_id == old(self).node_id,
            final(self).overlay == old(self).overlay,
            final(self).manifest_holders == old(self).manifest_holders,
            final(self).banned_peers == old(self).banned_peers,
            final(self).wan_bandwidth == old(self).wan_bandwidth,
            final(self).malicious == old(self).malicious,
            final(self).slow_loris == old(self).slow_loris,
            final(self).bonded_downloads@ == old(self).bonded_downloads@.insert(download.manifest.id.0, download),
            final(self).download_destinations@ == old(self).download_destinations@.insert(
                download.manifest.id.0,
                download.output_path,
            ),
            exists|x: Manifest|
                same_manifest(x, download.manifest) && final(self).manifests@ == old(self).manifests@.insert(download.manifest.id.0, x),
            exists|y: Manifest| same_manifest(y, download.manifest) && #[trigger] started(old(self).tracker, final(self).tracker, y, now_ms),
            r@ == announcements(per_node@, old(self).node_id, download.manifest.id) + per_node@.map_values(
                |p: (NodeId, Vec<(ChunkId, u64, u32)>)| dispatch(p, download.url, download.manifest.id, old(self).node_id),
            ),
    {
        let id = download.manifest.id;
        let local = self.node_id;
        let copy = copy_manifest(&download.manifest);
        match self.manifests.find(id.0) {
            Some(i) => {
                let slot = self.manifests.value_at_mut(i);
                *slot = copy;
            },
            None => {
                self.manifests.push(id.0, copy);
            },
        }
        let tracked_copy = copy_manifest(&download.manifest);
        let ghost y = tracked_copy;
        self.tracker.start_transfer(tracked_copy, now_ms);
        proof {
            assert(started(old(self).tracker, self.tracker, y, now_ms));
        }
        let dest = download.output_path.clone();
        match self.download_destinations.find(id.0) {
            Some(i) => {
                let slot = self.download_destinations.value_at_mut(i);
                *slot = dest;
            },
            None => {
                self.download_destinations.push(id.0, dest);
            },
        }
        let url = download.url.clone();
        let ghost d = download;
        match self.bonded_downloads.find(id.0) {
            Some(i) => {
                let slot = self.bonded_downloads.value_at_mut(i);
                *slot = download;
            },
            None => {
                self.bonded_downloads.push(id.0, download);
            },
        }
        let mut actions: Vec<Action> = Vec::new();
        let mut i: usize = 0;
        while i < per_node.len()
            invariant
                i <= per_node@.len(),
                same_manifest(y, d.manifest),
                started(old(self).tracker, self.tracker, y, now_ms),
                actions@ == announcements(per_node@.take(i as int), local, id),
            decreases per_node.len() - i,
        {
            proof {
                assert(per_node@.take(i + 1).drop_last() =~= per_node@.take(i as int));
            }
            if per_node[i].0.0 != local.0 {
                actions.push(Action::SendManifest { to: per_node[i].0, manifest_id: id });
            }
            i = i + 1;
        }
        proof {
            assert(per_node@.take(i as int) =~= per_node@);
        }
        let ghost announced = actions@;
        let ghost all = per_node@;
        let mut rest = per_node;
        let mut k: usize = 0;
        while rest.len() > 0
            invariant
                k + rest@.len() == all.len(),
                all.len() <= usize::MAX,
                same_manifest(y, d.manifest),
                started(old(self).tracker, self.tracker, y, now_ms),
                rest@ == all.skip(k as int),
                url == d.url,
                actions@ == announced + all.take(k as int).map_values(
                    |p: (NodeId, Vec<(ChunkId, u64, u32)>)| dispatch(p, d.url, id, local),
                ),
            decreases rest@.len(),
        {
            let (node, assignments) = rest.remove(0);
            let ghost p = all[k as int];
            proof {
                assert(all.skip(k as int)[0] == p);
                assert(all.skip(k as int).remove(0) =~= all.skip(k + 1));
            }
            let a = if node.0 == local.0 {
                Action::FetchRanges { url: url.clone(), manifest_id: id, coordinator_id: local, assignments }
            } else {
                Action::Send {
                    to: node,
                    msg: NetMessage::AssignFetchRanges { url: url.clone(), manifest_id: id, coordinator_id: local, assignments },
                }
            };
            actions.push(a);
            proof {
                assert(all.take(k + 1) =~= all.take(k as int).push(p));
                assert(actions@ =~= announced + all.take(k + 1).map_values(
                    |p: (NodeId, Vec<(ChunkId, u64, u32)>)| dispatch(p, d.url, id, local),
                ));
            }
            k = k + 1;
        }
        proof {
            assert(all.take(k as int) =~= all);
        }
        actions
    }

    /// A peer asks the coordinator of bonded download `manifest_id` for more
    /// work (see [`more_work_handled`]).
    pub fn handle_request_more_work(&mut self, manifest_id: ManifestId, node_id: NodeId) -> (r: Vec<Action>)
        requires
            old(self).wf(),
        ensures
            final(self).wf(),
            more_work_handled(*old(self), *final(self), manifest_id, node_id, r@),
    {
        let i = match self.bonded_downloads.find(manifest_id.0) {
            Some(i) => i,
            None => {
                return Vec::new();
            },
        };
        let local = self.node_id;
        let ghost d = self.bonded_downloads@[manifest_id.0];
        let (batch, url) = {
            let download = self.bonded_downloads.value_at_mut(i);
            let batch = download.dispense_batch();
            let url = download.url.clone();
            (batch, url)
        };
        proof {
            assert(dispensed(d, self.bonded_downloads@[manifest_id.0]));
        }
        if batch.len() == 0 {
            return Vec::new();
        }
        if node_id.0 == local.0 {
            one(Action::FetchRanges { url, manifest_id, coordinator_id: local, assignments: batch })
        } else {
            one(
                Action::Send {
                    to: node_id,
                    msg: NetMessage::AssignFetchRanges { url, manifest_id, coordinator_id: local, assignments: batch },
                },
            )
        }
    }
}

} // verus!
