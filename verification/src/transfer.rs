//! Bookkeeping of in-progress transfers.
//!
//! For every manifest being fetched the tracker knows which chunks have
//! arrived, which are still wanted and which have been requested from which
//! peer (and when); across manifests it knows which peers hold which chunks,
//! so that the rarest chunks can be requested first.
use vstd::prelude::*;

use crate::chunk::ChunkMeta;
use crate::id_table::IdTable;
use crate::manifest::{copy_manifest, same_manifest, Manifest};
use crate::ordered_map::{strictly_increasing, OrderedMap};
use crate::topology::ids_increasing;
use crate::types::{ChunkId, ManifestId, NodeId};

verus! {

/// Which in-flight requests a requeue sweep takes back.
#[derive(Debug, Clone, Copy)]
enum Sweep {
    /// Requests sent to this peer.
    Holder(NodeId),
    /// Requests older than `timeout` milliseconds at time `now`.
    Overdue { timeout: u64, now: u64 },
}

/// Whether the in-flight request `e` (peer, request time) is taken back by `s`.
spec fn swept(s: Sweep, e: (NodeId, u64)) -> bool {
    match s {
        Sweep::Holder(n) => e.0 == n,
        Sweep::Overdue { timeout, now } => overdue(e.1, timeout, now),
    }
}

/// A request made at `requested` is overdue at `now`: more than `timeout`
/// milliseconds have passed (no time passes before the request).
pub open spec fn overdue(requested: u64, timeout: u64, now: u64) -> bool {
    now >= requested && now - requested > timeout
}

/// The in-flight chunks that `s` takes back.
spec fn swept_keys(inf: Map<u64, (NodeId, u64)>, s: Sweep) -> Set<u64> {
    Set::new(|c: u64| inf.contains_key(c) && swept(s, inf[c]))
}

/// Manifest `m` lists a chunk with id `c`.
pub open spec fn manifest_lists(m: Manifest, c: u64) -> bool {
    exists|k: int| 0 <= k < m.chunks@.len() && m.chunks@[k].id.0 == c
}

/// No two chunks of `m` share an id.
pub open spec fn distinct_chunk_ids(m: Manifest) -> bool {
    forall|i: int, j: int| 0 <= i < j < m.chunks@.len() ==> m.chunks@[i].id != m.chunks@[j].id
}

/// A transfer counts as complete exactly when every chunk its manifest
/// lists has arrived, for a manifest that lists each chunk id once.
pub proof fn lemma_complete_iff_all_received(p: TransferProgress)
    requires
        p.wf(),
        distinct_chunk_ids(p.manifest),
    ensures
        (p.received().len() == p.manifest.chunks@.len()) <==> (forall|k: int|
            0 <= k < p.manifest.chunks@.len() ==> p.received().contains(#[trigger] p.manifest.chunks@[k].id.0 as u64)),
{
    let ids = p.manifest.chunks@.map_values(|c: ChunkMeta| c.id.0 as u64);
    assert(ids.no_duplicates()) by {
        assert forall|i: int, j: int| 0 <= i < ids.len() && 0 <= j < ids.len() && i != j implies ids[i] != ids[j] by {
            if i < j {
                assert(p.manifest.chunks@[i].id != p.manifest.chunks@[j].id);
            } else {
                assert(p.manifest.chunks@[j].id != p.manifest.chunks@[i].id);
            }
        }
    }
    ids.unique_seq_to_set();
    let all = ids.to_set();
    p.chunks_received.lemma_view();
    assert(p.received().subset_of(all)) by {
        assert forall|c: u64| p.received().contains(c) implies all.contains(c) by {
            assert(p.chunks_received@.contains_key(c));
            let k = choose|k: int| 0 <= k < p.manifest.chunks@.len() && p.manifest.chunks@[k].id.0 == c;
            assert(ids[k] == c);
        }
    }
    if p.received().len() == p.manifest.chunks@.len() {
        vstd::set_lib::lemma_subset_equality(p.received(), all);
        assert forall|k: int| 0 <= k < p.manifest.chunks@.len() implies p.received().contains(#[trigger] p.manifest.chunks@[k].id.0 as u64) by {
            assert(ids[k] == p.manifest.chunks@[k].id.0 as u64);
            assert(all.contains(ids[k]));
        }
    }
    if forall|k: int| 0 <= k < p.manifest.chunks@.len() ==> p.received().contains(#[trigger] p.manifest.chunks@[k].id.0 as u64) {
        assert(all.subset_of(p.received())) by {
            assert forall|c: u64| all.contains(c) implies p.received().contains(c) by {
                let k = choose|k: int| 0 <= k < ids.len() && ids[k] == c;
                assert(p.received().contains(p.manifest.chunks@[k].id.0 as u64));
            }
        }
        assert(all =~= p.received());
    }
}

/// `a` is a copy of `b`: the same manifest, chunk states and start time.
pub open spec fn same_progress(a: TransferProgress, b: TransferProgress) -> bool {
    &&& same_manifest(a.manifest, b.manifest)
    &&& a.wf()
    &&& a.received() == b.received()
    &&& a.pending() == b.pending()
    &&& a.in_flight() == b.in_flight()
    &&& a.started_at == b.started_at
}

/// Progress of a single manifest transfer.
#[derive(Debug, Clone)]
pub struct TransferProgress {
    /// The manifest being transferred.
    pub manifest: Manifest,
    /// Chunks that have arrived.
    pub chunks_received: OrderedMap<()>,
    /// Chunks still wanted and not yet requested.
    pub chunks_pending: OrderedMap<()>,
    /// Chunks requested: the peer asked and the time of the request in milliseconds.
    pub chunks_in_flight: OrderedMap<(NodeId, u64)>,
    /// When the transfer started, in milliseconds.
    pub started_at: u64,
}

impl TransferProgress {
    /// The three chunk tables are well formed and hold 32-bit chunk ids only.
    pub open spec fn wf(&self) -> bool {
        &&& self.chunks_received.wf()
        &&& self.chunks_pending.wf()
        &&& self.chunks_in_flight.wf()
        &&& forall|c: u64| #[trigger] self.chunks_received@.contains_key(c) ==> c <= u32::MAX
        &&& forall|c: u64| #[trigger] self.chunks_pending@.contains_key(c) ==> c <= u32::MAX
        &&& forall|c: u64| #[trigger] self.chunks_in_flight@.contains_key(c) ==> c <= u32::MAX
        &&& forall|c: u64| #[trigger] self.chunks_received@.contains_key(c) ==> !self.chunks_pending@.contains_key(c) && !self.chunks_in_flight@.contains_key(c)
        &&& forall|c: u64| #[trigger] self.chunks_pending@.contains_key(c) ==> !self.chunks_in_flight@.contains_key(c)
        &&& forall|c: u64| #[trigger] self.chunks_received@.contains_key(c) ==> manifest_lists(self.manifest, c)
        &&& forall|c: u64| #[trigger] self.chunks_pending@.contains_key(c) ==> manifest_lists(self.manifest, c)
        &&& forall|c: u64| #[trigger] self.chunks_in_flight@.contains_key(c) ==> manifest_lists(self.manifest, c)
    }

    /// Ids of the chunks that have arrived.
    pub open spec fn received(&self) -> Set<u64> {
        self.chunks_received@.dom()
    }

    /// Ids of the chunks still wanted and not requested.
    pub open spec fn pending(&self) -> Set<u64> {
        self.chunks_pending@.dom()
    }

    /// Requested chunks with the peer asked and the request time.
    pub open spec fn in_flight(&self) -> Map<u64, (NodeId, u64)> {
        self.chunks_in_flight@
    }

    /// A fresh transfer of `manifest` started at `now_ms`: every chunk of the
    /// manifest pending, nothing received or requested.
    pub fn new(manifest: Manifest, now_ms: u64) -> (r: Self)
        ensures
            r.wf(),
            r.manifest == manifest,
            r.received() == Set::<u64>::empty(),
            r.pending() == Set::new(|c: u64| exists|k: int| 0 <= k < manifest.chunks@.len() && manifest.chunks@[k].id.0 == c),
            r.in_flight() == Map::<u64, (NodeId, u64)>::empty(),
            r.started_at == now_ms,
    {
        let mut pending: OrderedMap<()> = OrderedMap::new();
        let mut k: usize = 0;
        while k < manifest.chunks.len()
            invariant
                pending.wf(),
                k <= manifest.chunks@.len(),
                pending@.dom() == Set::new(|c: u64| exists|j: int| 0 <= j < k && manifest.chunks@[j].id.0 == c),
            decreases manifest.chunks.len() - k,
        {
            let id = manifest.chunks[k].id.0 as u64;
            pending.insert(id, ());
            proof {
                assert(pending@.dom() =~= Set::new(|c: u64| exists|j: int| 0 <= j < k + 1 && manifest.chunks@[j].id.0 == c)) by {
                    assert forall|c: u64| pending@.dom().contains(c) implies exists|j: int| 0 <= j < k + 1 && manifest.chunks@[j].id.0 == c by {
                        if c == id {
                            assert(manifest.chunks@[k as int].id.0 == c);
                        }
                    }
                }
            }
            k = k + 1;
        }
        let r = TransferProgress {
            manifest,
            chunks_received: OrderedMap::new(),
            chunks_pending: pending,
            chunks_in_flight: OrderedMap::new(),
            started_at: now_ms,
        };
        assert(r.received() =~= Set::<u64>::empty());
        r
    }

    /// A copy of this progress record.
    pub fn copy(&self) -> (r: Self)
        requires
            self.wf(),
        ensures
            same_progress(r, *self),
    {
        TransferProgress {
            manifest: copy_manifest(&self.manifest),
            chunks_received: self.chunks_received.copy(),
            chunks_pending: self.chunks_pending.copy(),
            chunks_in_flight: self.chunks_in_flight.copy(),
            started_at: self.started_at,
        }
    }

    /// Whether every chunk of the manifest has arrived.
    pub fn is_complete(&self) -> (r: bool)
        requires
            self.wf(),
        ensures
            r == (self.received().len() == self.manifest.chunks@.len()),
    {
        self.chunks_received.len() == self.manifest.chunks.len()
    }

    /// Record the arrival of chunk `c`, if it was pending or in flight
    /// (pending is checked first).
    fn receive(&mut self, c: u64)
        requires
            old(self).wf(),
        ensures
            final(self).wf(),
            final(self).manifest == old(self).manifest,
            final(self).started_at == old(self).started_at,
            old(self).pending().contains(c) ==> final(self).pending() == old(self).pending().remove(c)
                && final(self).in_flight() == old(self).in_flight()
                && final(self).received() == old(self).received().insert(c),
            !old(self).pending().contains(c) && old(self).in_flight().contains_key(c) ==> final(self).pending() == old(self).pending()
                && final(self).in_flight() == old(self).in_flight().remove(c)
                && final(self).received() == old(self).received().insert(c),
            !old(self).pending().contains(c) && !old(self).in_flight().contains_key(c) ==> final(self).pending() == old(self).pending()
                && final(self).in_flight() == old(self).in_flight()
                && final(self).received() == old(self).received(),
    {
        let removed = if self.chunks_pending.remove(c).is_some() {
            true
        } else {
            self.chunks_in_flight.remove(c).is_some()
        };
        if removed {
            self.chunks_received.insert(c, ());
        }
        proof {
            assert(final(self).received() =~= if removed { old(self).received().insert(c) } else { old(self).received() });
            if !old(self).pending().contains(c) {
                assert(old(self).chunks_pending@.remove(c) =~= old(self).chunks_pending@);
            }
            assert(self.pending() =~= old(self).chunks_pending@.remove(c).dom());
        }
    }

    /// Move pending chunk `c` to in flight, requested from `node` at `now`.
    fn request(&mut self, c: u64, node: NodeId, now: u64)
        requires
            old(self).wf(),
        ensures
            final(self).wf(),
            final(self).manifest == old(self).manifest,
            final(self).started_at == old(self).started_at,
            final(self).received() == old(self).received(),
            old(self).pending().contains(c) ==> final(self).pending() == old(self).pending().remove(c)
                && final(self).in_flight() == old(self).in_flight().insert(c, (node, now)),
            !old(self).pending().contains(c) ==> final(self).pending() == old(self).pending()
                && final(self).in_flight() == old(self).in_flight(),
    {
        if self.chunks_pending.remove(c).is_some() {
            self.chunks_in_flight.insert(c, (node, now));
        }
        proof {
            if !old(self).pending().contains(c) {
                assert(old(self).chunks_pending@.remove(c) =~= old(self).chunks_pending@);
            }
        }
    }

    /// Move in-flight chunk `c` back to pending.
    fn release(&mut self, c: u64)
        requires
            old(self).wf(),
        ensures
            final(self).wf(),
            final(self).manifest == old(self).manifest,
            final(self).started_at == old(self).started_at,
            final(self).received() == old(self).received(),
            old(self).in_flight().contains_key(c) ==> final(self).pending() == old(self).pending().insert(c)
                && final(self).in_flight() == old(self).in_flight().remove(c),
            !old(self).in_flight().contains_key(c) ==> final(self).pending() == old(self).pending()
                && final(self).in_flight() == old(self).in_flight(),
    {
        if self.chunks_in_flight.remove(c).is_some() {
            self.chunks_pending.insert(c, ());
            assert(self.pending() =~= old(self).pending().insert(c));
        } else {
            assert(old(self).chunks_in_flight@.remove(c) =~= old(self).chunks_in_flight@);
        }
    }

    /// Take back every in-flight request selected by `s`: those chunks become
    /// pending again. Returns them, with the peer each was asked of, in
    /// increasing chunk order.
    fn sweep(&mut self, s: Sweep) -> (r: Vec<(u64, NodeId)>)
        requires
            old(self).wf(),
        ensures
            final(self).wf(),
            final(self).manifest == old(self).manifest,
            final(self).started_at == old(self).started_at,
            final(self).received() == old(self).received(),
            final(self).in_flight() == old(self).in_flight().remove_keys(swept_keys(old(self).in_flight(), s)),
            final(self).pending() == old(self).pending().union(swept_keys(old(self).in_flight(), s)),
            forall|i: int, j: int| 0 <= i < j < r@.len() ==> r@[i].0 < r@[j].0,
            forall|x: (u64, NodeId)| r@.contains(x) <==> swept_keys(old(self).in_flight(), s).contains(x.0)
                && old(self).in_flight()[x.0].0 == x.1,
    {
        let ghost inf = self.in_flight();
        let ghost sel = swept_keys(inf, s);
        proof {
            self.chunks_in_flight.lemma_view();
        }
        let keys = self.chunks_in_flight.keys();
        let mut picked: Vec<(u64, NodeId)> = Vec::new();
        let mut i: usize = 0;
        while i < keys.len()
            invariant
                self.wf(),
                self.in_flight() == inf,
                sel == swept_keys(inf, s),
                keys@ == self.chunks_in_flight.key_seq(),
                strictly_increasing(keys@),
                forall|k: u64| #[trigger] inf.contains_key(k) <==> keys@.contains(k),
                i <= keys@.len(),
                forall|a: int, b: int| 0 <= a < b < picked@.len() ==> picked@[a].0 < picked@[b].0,
                forall|a: int| 0 <= a < picked@.len() ==> exists|j: int| 0 <= j < i && keys@[j] == (#[trigger] picked@[a]).0,
                forall|x: (u64, NodeId)| picked@.contains(x) <==> sel.contains(x.0) && inf[x.0].0 == x.1
                    && exists|j: int| 0 <= j < i && keys@[j] == x.0,
            decreases keys.len() - i,
        {
            let k = keys[i];
            proof {
                assert(keys@.contains(k));
            }
            let e = *self.chunks_in_flight.get(k).unwrap();
            let hit = match s {
                Sweep::Holder(n) => e.0 == n,
                Sweep::Overdue { timeout, now } => now >= e.1 && now - e.1 > timeout,
            };
            let ghost before = picked@;
            if hit {
                picked.push((k, e.0));
            }
            proof {
                assert forall|a: int| 0 <= a < picked@.len() implies exists|j: int| 0 <= j < i + 1 && keys@[j] == (#[trigger] picked@[a]).0 by {
                    if a < before.len() {
                        assert(before[a] == picked@[a]);
                    } else {
                        assert(keys@[i as int] == picked@[a].0);
                    }
                }
                assert forall|a: int, b: int| 0 <= a < b < picked@.len() implies picked@[a].0 < picked@[b].0 by {
                    if b == before.len() && hit {
                        assert(before[a] == picked@[a]);
                        let j = choose|j: int| 0 <= j < i && keys@[j] == before[a].0;
                        assert(keys@[j] < keys@[i as int]);
                    }
                }
                assert forall|x: (u64, NodeId)| picked@.contains(x) <==> sel.contains(x.0) && inf[x.0].0 == x.1
                    && exists|j: int| 0 <= j < i + 1 && keys@[j] == x.0 by {
                    if picked@.contains(x) {
                        let a = picked@.index_of(x);
                        if a < before.len() {
                            assert(before[a] == x);
                            assert(before.contains(x));
                        }
                    }
                    if sel.contains(x.0) && inf[x.0].0 == x.1 && exists|j: int| 0 <= j < i + 1 && keys@[j] == x.0 {
                        let j = choose|j: int| 0 <= j < i + 1 && keys@[j] == x.0;
                        if j < i {
                            assert(before.contains(x));
                            let a = before.index_of(x);
                            assert(picked@[a] == x);
                        } else {
                            assert(picked@[picked@.len() - 1] == x);
                        }
                    }
                }
            }
            i = i + 1;
        }
        let mut t: usize = 0;
        while t < picked.len()
            invariant
                self.wf(),
                self.manifest == old(self).manifest,
                self.started_at == old(self).started_at,
                self.received() == old(self).received(),
                inf == old(self).in_flight(),
                sel == swept_keys(inf, s),
                t <= picked@.len(),
                forall|a: int, b: int| 0 <= a < b < picked@.len() ==> picked@[a].0 < picked@[b].0,
                forall|x: (u64, NodeId)| picked@.contains(x) <==> sel.contains(x.0) && inf[x.0].0 == x.1
                    && exists|j: int| 0 <= j < keys@.len() && keys@[j] == x.0,
                forall|k: u64| #[trigger] inf.contains_key(k) <==> keys@.contains(k),
                self.in_flight() == inf.remove_keys(Set::new(|c: u64| exists|a: int| 0 <= a < t && picked@[a].0 == c)),
                self.pending() == old(self).pending().union(Set::new(|c: u64| exists|a: int| 0 <= a < t && picked@[a].0 == c)),
            decreases picked.len() - t,
        {
            let k = picked[t].0;
            proof {
                assert(picked@.contains(picked@[t as int]));
            }
            self.chunks_in_flight.remove(k);
            self.chunks_pending.insert(k, ());
            proof {
                let done = Set::new(|c: u64| exists|a: int| 0 <= a < t + 1 && picked@[a].0 == c);
                assert(self.in_flight() =~= inf.remove_keys(done)) by {
                    assert forall|c: u64| #[trigger] done.contains(c) <==> (Set::new(|c: u64| exists|a: int| 0 <= a < t && picked@[a].0 == c).contains(c) || c == k) by {
                        if done.contains(c) && c != k {
                            let a = choose|a: int| 0 <= a < t + 1 && picked@[a].0 == c;
                            assert(a < t);
                        }
                    }
                }
                assert(self.pending() =~= old(self).pending().union(done)) by {
                    assert forall|c: u64| #[trigger] done.contains(c) <==> (Set::new(|c: u64| exists|a: int| 0 <= a < t && picked@[a].0 == c).contains(c) || c == k) by {
                        if done.contains(c) && c != k {
                            let a = choose|a: int| 0 <= a < t + 1 && picked@[a].0 == c;
                            assert(a < t);
                        }
                    }
                }
            }
            t = t + 1;
        }
        proof {
            let done = Set::new(|c: u64| exists|a: int| 0 <= a < picked@.len() && picked@[a].0 == c);
            assert(done =~= sel) by {
                assert forall|c: u64| done.contains(c) <==> sel.contains(c) by {
                    if done.contains(c) {
                        let a = choose|a: int| 0 <= a < picked@.len() && picked@[a].0 == c;
                        assert(picked@.contains(picked@[a]));
                    }
                    if sel.contains(c) {
                        assert(keys@.contains(c));
                        let j = keys@.index_of(c);
                        let x = (c, inf[c].0);
                        assert(picked@.contains(x));
                        let a = picked@.index_of(x);
                    }
                }
            }
        }
        picked
    }
}

/// `h` with peer `n` recorded as a holder of chunk `c` of manifest `m`.
pub open spec fn with_holder(h: Map<u128, Map<u64, Set<u64>>>, m: u128, c: u64, n: u64) -> Map<u128, Map<u64, Set<u64>>> {
    let hm = if h.contains_key(m) { h[m] } else { Map::<u64, Set<u64>>::empty() };
    let s = if hm.contains_key(c) { hm[c] } else { Set::<u64>::empty() };
    h.insert(m, hm.insert(c, s.insert(n)))
}

/// `h` with peer `n` no longer holding anything.
pub open spec fn without_holder(h: Map<u128, Map<u64, Set<u64>>>, n: u64) -> Map<u128, Map<u64, Set<u64>>> {
    Map::new(|m: u128| h.contains_key(m), |m: u128| Map::new(|c: u64| h[m].contains_key(c), |c: u64| h[m][c].remove(n)))
}

/// `h` with peer `n` no longer holding chunk `c` of manifest `m`.
pub open spec fn without_chunk_holder(h: Map<u128, Map<u64, Set<u64>>>, m: u128, c: u64, n: u64) -> Map<u128, Map<u64, Set<u64>>> {
    if h.contains_key(m) && h[m].contains_key(c) { h.insert(m, h[m].insert(c, h[m][c].remove(n))) } else { h }
}

/// Removes peer `n` from every holder set of one manifest's table.
fn drop_holder(table: &mut OrderedMap<OrderedMap<()>>, n: u64)
    requires
        old(table).wf(),
        forall|c: u64| #[trigger] old(table)@.contains_key(c) ==> old(table)@[c].wf(),
    ensures
        final(table).wf(),
        final(table)@.dom() == old(table)@.dom(),
        forall|c: u64| #[trigger] final(table)@.contains_key(c) ==> final(table)@[c].wf() && final(table)@[c]@.dom() == old(
            table,
        )@[c]@.dom().remove(n),
{
    proof {
        table.lemma_view();
    }
    let ghost ks = table.key_seq();
    let ghost vs = table.val_seq();
    proof {
        assert forall|j: int| 0 <= j < vs.len() implies (#[trigger] vs[j]).wf() by {
            assert(ks.contains(ks[j]));
            assert(old(table)@.contains_key(ks[j]));
            assert(table@[ks[j]] == vs[j]);
        }
    }
    let len = table.len();
    let mut i: usize = 0;
    while i < len
        invariant
            table.wf(),
            table.key_seq() == ks,
            len == ks.len(),
            vs.len() == ks.len(),
            i <= len,
            table.val_seq().len() == vs.len(),
            forall|j: int| 0 <= j < vs.len() ==> (#[trigger] vs[j]).wf(),
            forall|j: int| 0 <= j < i ==> (#[trigger] table.val_seq()[j]).wf() && table.val_seq()[j]@.dom() == vs[j]@.dom().remove(n),
            forall|j: int| i <= j < len ==> #[trigger] table.val_seq()[j] == vs[j],
        decreases len - i,
    {
        let set = table.value_at_mut(i);
        set.remove(n);
        proof {
            assert(table.val_seq()[i as int]@.dom() =~= vs[i as int]@.dom().remove(n));
        }
        i = i + 1;
    }
    proof {
        table.lemma_view();
        assert(table@.dom() =~= old(table)@.dom());
        assert forall|c: u64| #[trigger] table@.contains_key(c) implies table@[c].wf() && table@[c]@.dom() == old(table)@[c]@.dom().remove(n) by {
            let j = ks.index_of(c);
            assert(table@[ks[j]] == table.val_seq()[j]);
            assert(old(table)@[ks[j]] == vs[j]);
        }
    }
}

/// Chunks in flight that were requested from peer `n`.
pub open spec fn requested_from(inf: Map<u64, (NodeId, u64)>, n: NodeId) -> Set<u64> {
    Set::new(|c: u64| inf.contains_key(c) && inf[c].0 == n)
}

/// Chunks in flight whose request is overdue at `now`.
pub open spec fn overdue_requests(inf: Map<u64, (NodeId, u64)>, timeout: u64, now: u64) -> Set<u64> {
    Set::new(|c: u64| inf.contains_key(c) && overdue(inf[c].1, timeout, now))
}

/// `q` is `p` with the in-flight chunks `lost` taken back to pending.
pub open spec fn requeued(p: TransferProgress, q: TransferProgress, lost: Set<u64>) -> bool {
    &&& q.manifest == p.manifest
    &&& q.started_at == p.started_at
    &&& q.received() == p.received()
    &&& q.in_flight() == p.in_flight().remove_keys(lost)
    &&& q.pending() == p.pending().union(lost)
}

/// Some entry of `s` is for chunk `c`.
spec fn lists_chunk(s: Seq<(usize, u64)>, c: u64) -> bool {
    exists|x: int| 0 <= x < s.len() && s[x].1 == c
}

/// Rarest-first order on (holder count, chunk id) pairs.
spec fn count_lt(a: (usize, u64), b: (usize, u64)) -> bool {
    a.0 < b.0 || (a.0 == b.0 && a.1 < b.1)
}

/// Appends `(m, c)` for every chunk key `c` of `cs`, in order.
fn append_pairs(r: &mut Vec<(ManifestId, ChunkId)>, m: u128, cs: &Vec<u64>)
    requires
        strictly_increasing(cs@),
        forall|t: int| 0 <= t < cs@.len() ==> #[trigger] cs@[t] <= u32::MAX,
        old(r)@.no_duplicates(),
        forall|x: (ManifestId, ChunkId)| #[trigger] old(r)@.contains(x) ==> x.0.0 != m,
    ensures
        final(r)@.no_duplicates(),
        forall|x: (ManifestId, ChunkId)| #[trigger] final(r)@.contains(x) <==> old(r)@.contains(x) || (x.0.0 == m && cs@.contains(
            x.1.0 as u64,
        )),
{
    let ghost r0 = r@;
    let mut k: usize = 0;
    while k < cs.len()
        invariant
            strictly_increasing(cs@),
            forall|t: int| 0 <= t < cs@.len() ==> #[trigger] cs@[t] <= u32::MAX,
            r0.no_duplicates(),
            forall|x: (ManifestId, ChunkId)| #[trigger] r0.contains(x) ==> x.0.0 != m,
            k <= cs@.len(),
            r@.len() == r0.len() + k,
            r@.subrange(0, r0.len() as int) == r0,
            forall|t: int| 0 <= t < k ==> #[trigger] r@[r0.len() + t] == (ManifestId(m), ChunkId(cs@[t] as u32)),
        decreases cs.len() - k,
    {
        let ghost before = r@;
        r.push((ManifestId(m), ChunkId(cs[k] as u32)));
        proof {
            assert(r@.subrange(0, r0.len() as int) =~= before.subrange(0, r0.len() as int));
            assert forall|t: int| 0 <= t < k + 1 implies #[trigger] r@[r0.len() + t] == (ManifestId(m), ChunkId(cs@[t] as u32)) by {
                if t < k {
                    assert(r@[r0.len() + t] == before[r0.len() + t]);
                }
            }
        }
        k = k + 1;
    }
    proof {
        assert forall|a: int, b: int| 0 <= a < r@.len() && 0 <= b < r@.len() && a != b implies r@[a] != r@[b] by {
            if a < r0.len() && b < r0.len() {
                assert(r@[a] == r0[a]);
                assert(r@[b] == r0[b]);
            } else if a < r0.len() {
                assert(r@[a] == r0[a]);
                assert(r0.contains(r0[a]));
                let tb = b - r0.len();
                assert(r@[r0.len() + tb] == (ManifestId(m), ChunkId(cs@[tb] as u32)));
            } else if b < r0.len() {
                assert(r@[b] == r0[b]);
                assert(r0.contains(r0[b]));
                let ta = a - r0.len();
                assert(r@[r0.len() + ta] == (ManifestId(m), ChunkId(cs@[ta] as u32)));
            } else {
                let ta = a - r0.len();
                let tb = b - r0.len();
                assert(r@[r0.len() + ta] == (ManifestId(m), ChunkId(cs@[ta] as u32)));
                assert(r@[r0.len() + tb] == (ManifestId(m), ChunkId(cs@[tb] as u32)));
                if ta < tb {
                    assert(cs@[ta] < cs@[tb]);
                } else {
                    assert(cs@[tb] < cs@[ta]);
                }
                assert(cs@[ta] <= u32::MAX && cs@[tb] <= u32::MAX);
            }
        }
        assert forall|x: (ManifestId, ChunkId)| #[trigger] r@.contains(x) <==> r0.contains(x) || (x.0.0 == m && cs@.contains(x.1.0 as u64)) by {
            if r@.contains(x) {
                let a = r@.index_of(x);
                if a < r0.len() {
                    assert(r0[a] == x);
                    assert(r0.contains(x));
                } else {
                    let t = a - r0.len();
                    assert(r@[r0.len() + t] == x);
                    assert(cs@[t] <= u32::MAX);
                    assert(cs@[t] == x.1.0 as u64);
                    assert(cs@.contains(x.1.0 as u64));
                }
            }
            if r0.contains(x) {
                let a = r0.index_of(x);
                assert(r@[a] == x);
            }
            if x.0.0 == m && cs@.contains(x.1.0 as u64) {
                let t = cs@.index_of(x.1.0 as u64);
                assert(r@[r0.len() + t] == (ManifestId(m), ChunkId(cs@[t] as u32)));
                assert(r@[r0.len() + t] == x);
            }
        }
    }
}

/// The chunk keys of swept requests, in the same order.
fn swept_chunks(picked: &Vec<(u64, NodeId)>) -> (r: Vec<u64>)
    ensures
        r@.len() == picked@.len(),
        forall|t: int| 0 <= t < r@.len() ==> #[trigger] r@[t] == picked@[t].0,
{
    let mut r: Vec<u64> = Vec::new();
    let mut k: usize = 0;
    while k < picked.len()
        invariant
            k <= picked@.len(),
            r@.len() == k,
            forall|t: int| 0 <= t < k ==> #[trigger] r@[t] == picked@[t].0,
        decreases picked.len() - k,
    {
        r.push(picked[k].0);
        k = k + 1;
    }
    r
}

/// Among the transfers filed under `ks[0..i)`, some overdue request was sent to peer `n`.
spec fn blamed(t0: Map<u128, TransferProgress>, ks: Seq<u128>, i: int, n: u64, timeout: u64, now: u64) -> bool {
    exists|j: int, c: u64|
        0 <= j < i && #[trigger] overdue_requests(t0[ks[j]].in_flight(), timeout, now).contains(c) && t0[ks[j]].in_flight()[c].0.0 == n
}

/// Tracks every active transfer and which peers hold which chunks.
#[derive(Debug)]
pub struct TransferTracker {
    active: IdTable<TransferProgress>,
    availability: IdTable<OrderedMap<OrderedMap<()>>>,
}

/// Number of known holders of chunk `c` of manifest `m`; zero when unknown.
pub open spec fn holder_count(h: Map<u128, Map<u64, Set<u64>>>, m: u128, c: u64) -> nat {
    if h.contains_key(m) && h[m].contains_key(c) { h[m][c].len() } else { 0 }
}

/// `a` is requested before `b` in rarest-first order: fewer known holders,
/// or as many and a smaller chunk id.
pub open spec fn rarer(h: Map<u128, Map<u64, Set<u64>>>, m: u128, a: u64, b: u64) -> bool {
    holder_count(h, m, a) < holder_count(h, m, b) || (holder_count(h, m, a) == holder_count(h, m, b) && a < b)
}

impl TransferTracker {
    /// Active transfers by manifest id.
    pub closed spec fn transfers(&self) -> Map<u128, TransferProgress> {
        self.active@
    }

    /// Known holders: for each manifest and chunk, the ids of the peers holding it.
    pub closed spec fn holders(&self) -> Map<u128, Map<u64, Set<u64>>> {
        Map::new(
            |m: u128| self.availability@.contains_key(m),
            |m: u128| Map::new(|c: u64| self.availability@[m]@.contains_key(c), |c: u64| self.availability@[m]@[c]@.dom()),
        )
    }

    /// Tables well formed; each transfer well formed and filed under its manifest's id.
    pub closed spec fn wf(&self) -> bool {
        &&& self.active.wf()
        &&& self.availability.wf()
        &&& forall|m: u128| #[trigger] self.active@.contains_key(m) ==> self.active@[m].wf() && self.active@[m].manifest.id.0 == m
        &&& forall|m: u128| #[trigger] self.availability@.contains_key(m) ==> self.availability@[m].wf()
        &&& forall|m: u128, c: u64| #![trigger self.availability@[m]@[c]] self.availability@.contains_key(m) && self.availability@[m]@.contains_key(c)
            ==> self.availability@[m]@[c].wf()
    }

    /// Every tracked transfer is well formed.
    pub proof fn lemma_transfers_wf(&self, m: u128)
        requires
            self.wf(),
            self.transfers().contains_key(m),
        ensures
            self.transfers()[m].wf(),
            self.transfers()[m].manifest.id.0 == m,
    {
    }

    /// The known holders of a chunk are finitely many.
    pub proof fn lemma_holders_finite(&self, m: u128, c: u64)
        requires
            self.wf(),
            self.holders().contains_key(m),
            self.holders()[m].contains_key(c),
        ensures
            self.holders()[m][c].finite(),
    {
        let inner = self.availability@[m]@[c];
        assert(inner.wf());
        inner.lemma_view();
    }

    /// A tracker with no transfers and no known holders.
    pub fn new() -> (r: Self)
        ensures
            r.wf(),
            r.transfers() == Map::<u128, TransferProgress>::empty(),
            r.holders() == Map::<u128, Map<u64, Set<u64>>>::empty(),
    {
        let r = TransferTracker { active: IdTable::new(), availability: IdTable::new() };
        assert(r.holders() =~= Map::<u128, Map<u64, Set<u64>>>::empty());
        r
    }

    /// Start tracking a transfer of `manifest` at `now_ms`, unless its manifest is already tracked.
    pub fn start_transfer(&mut self, manifest: Manifest, now_ms: u64)
        requires
            old(self).wf(),
        ensures
            final(self).wf(),
            final(self).holders() == old(self).holders(),
            old(self).transfers().contains_key(manifest.id.0) ==> final(self).transfers() == old(self).transfers(),
            !old(self).transfers().contains_key(manifest.id.0) ==> exists|p: TransferProgress|
                final(self).transfers() == old(self).transfers().insert(manifest.id.0, p)
                && p.manifest == manifest
                && p.received() == Set::<u64>::empty()
                && p.pending() == Set::new(|c: u64| exists|k: int| 0 <= k < manifest.chunks@.len() && manifest.chunks@[k].id.0 == c)
                && p.in_flight() == Map::<u64, (NodeId, u64)>::empty()
                && p.started_at == now_ms,
    {
        let id = manifest.id.0;
        if self.active.find(id).is_some() {
            return;
        }
        let p = TransferProgress::new(manifest, now_ms);
        self.active.push(id, p);
    }

    /// The progress of the transfer of manifest `manifest_id`, if tracked.
    pub fn get_progress(&self, manifest_id: ManifestId) -> (r: Option<&TransferProgress>)
        requires
            self.wf(),
        ensures
            self.transfers().contains_key(manifest_id.0) ==> r == Some(&self.transfers()[manifest_id.0]),
            !self.transfers().contains_key(manifest_id.0) ==> r is None,
    {
        match self.active.find(manifest_id.0) {
            Some(i) => Some(self.active.value_at(i)),
            None => None,
        }
    }

    /// Record that chunk `chunk_id` of manifest `manifest_id` arrived: a
    /// pending or in-flight chunk becomes received (pending is checked first).
    pub fn mark_chunk_received(&mut self, manifest_id: ManifestId, chunk_id: ChunkId)
        requires
            old(self).wf(),
        ensures
            final(self).wf(),
            final(self).holders() == old(self).holders(),
            final(self).transfers().dom() == old(self).transfers().dom(),
            forall|m: u128| m != manifest_id.0 && #[trigger] old(self).transfers().contains_key(m) ==> final(self).transfers()[m] == old(self).transfers()[m],
            old(self).transfers().contains_key(manifest_id.0) ==> {
                let p = old(self).transfers()[manifest_id.0];
                let q = final(self).transfers()[manifest_id.0];
                let c = chunk_id.0 as u64;
                &&& q.manifest == p.manifest
                &&& q.started_at == p.started_at
                &&& p.pending().contains(c) ==> q.pending() == p.pending().remove(c) && q.in_flight() == p.in_flight()
                    && q.received() == p.received().insert(c)
                &&& !p.pending().contains(c) && p.in_flight().contains_key(c) ==> q.pending() == p.pending()
                    && q.in_flight() == p.in_flight().remove(c) && q.received() == p.received().insert(c)
                &&& !p.pending().contains(c) && !p.in_flight().contains_key(c) ==> q.pending() == p.pending()
                    && q.in_flight() == p.in_flight() && q.received() == p.received()
            },
    {
        match self.active.find(manifest_id.0) {
            Some(i) => {
                let p = self.active.value_at_mut(i);
                p.receive(chunk_id.0 as u64);
            },
            None => {},
        }
    }

    /// Record that pending chunk `chunk_id` of manifest `manifest_id` was
    /// requested from `node_id` at `now_ms`; anything else is left alone.
    pub fn mark_chunk_in_flight(&mut self, manifest_id: ManifestId, chunk_id: ChunkId, node_id: NodeId, now_ms: u64)
        requires
            old(self).wf(),
        ensures
            final(self).wf(),
            final(self).holders() == old(self).holders(),
            final(self).transfers().dom() == old(self).transfers().dom(),
            forall|m: u128| m != manifest_id.0 && #[trigger] old(self).transfers().contains_key(m) ==> final(self).transfers()[m] == old(self).transfers()[m],
            old(self).transfers().contains_key(manifest_id.0) ==> {
                let p = old(self).transfers()[manifest_id.0];
                let q = final(self).transfers()[manifest_id.0];
                let c = chunk_id.0 as u64;
                &&& q.manifest == p.manifest
                &&& q.started_at == p.started_at
                &&& q.received() == p.received()
                &&& p.pending().contains(c) ==> q.pending() == p.pending().remove(c) && q.in_flight() == p.in_flight().insert(c, (node_id, now_ms))
                &&& !p.pending().contains(c) ==> q.pending() == p.pending() && q.in_flight() == p.in_flight()
            },
    {
        match self.active.find(manifest_id.0) {
            Some(i) => {
                let p = self.active.value_at_mut(i);
                p.request(chunk_id.0 as u64, node_id, now_ms);
            },
            None => {},
        }
    }

    /// Put in-flight chunk `chunk_id` of manifest `manifest_id` back to pending.
    pub fn unmark_chunk_in_flight(&mut self, manifest_id: ManifestId, chunk_id: ChunkId)
        requires
            old(self).wf(),
        ensures
            final(self).wf(),
            final(self).holders() == old(self).holders(),
            final(self).transfers().dom() == old(self).transfers().dom(),
            forall|m: u128| m != manifest_id.0 && #[trigger] old(self).transfers().contains_key(m) ==> final(self).transfers()[m] == old(self).transfers()[m],
            old(self).transfers().contains_key(manifest_id.0) ==> {
                let p = old(self).transfers()[manifest_id.0];
                let q = final(self).transfers()[manifest_id.0];
                let c = chunk_id.0 as u64;
                &&& q.manifest == p.manifest
                &&& q.started_at == p.started_at
                &&& q.received() == p.received()
                &&& p.in_flight().contains_key(c) ==> q.pending() == p.pending().insert(c) && q.in_flight() == p.in_flight().remove(c)
                &&& !p.in_flight().contains_key(c) ==> q.pending() == p.pending() && q.in_flight() == p.in_flight()
            },
    {
        match self.active.find(manifest_id.0) {
            Some(i) => {
                let p = self.active.value_at_mut(i);
                p.release(chunk_id.0 as u64);
            },
            None => {},
        }
    }

    /// Record that peer `node_id` holds chunk `chunk_id` of manifest `manifest_id`.
    pub fn register_peer_chunk(&mut self, manifest_id: ManifestId, chunk_id: ChunkId, node_id: NodeId)
        requires
            old(self).wf(),
        ensures
            final(self).wf(),
            final(self).transfers() == old(self).transfers(),
            final(self).holders() == with_holder(old(self).holders(), manifest_id.0, chunk_id.0 as u64, node_id.0),
    {
        let ghost h0 = self.holders();
        let m = manifest_id.0;
        let c = chunk_id.0 as u64;
        match self.availability.find(m) {
            Some(i) => {
                let table = self.availability.value_at_mut(i);
                let mut set = match table.remove(c) {
                    Some(s) => s,
                    None => OrderedMap::new(),
                };
                set.insert(node_id.0, ());
                table.insert(c, set);
                proof {
                    let h = with_holder(h0, m, c, node_id.0);
                    assert(self.holders().dom() =~= h.dom());
                    assert forall|k: u128| #[trigger] self.holders().contains_key(k) implies self.holders()[k] == h[k] by {
                        if k == m {
                            assert(self.holders()[k].dom() =~= h[k].dom());
                            assert forall|c2: u64| #[trigger] self.holders()[k].contains_key(c2) implies self.holders()[k][c2] == h[k][c2] by {
                                if c2 == c {
                                    assert(self.holders()[k][c2] =~= h[k][c2]);
                                }
                            }
                            assert(self.holders()[k] =~= h[k]);
                        }
                    }
                    assert(self.holders() =~= h);
                }
            },
            None => {
                let mut set: OrderedMap<()> = OrderedMap::new();
                set.insert(node_id.0, ());
                let mut table: OrderedMap<OrderedMap<()>> = OrderedMap::new();
                table.insert(c, set);
                self.availability.push(m, table);
                proof {
                    let h = with_holder(h0, m, c, node_id.0);
                    assert(self.holders().dom() =~= h.dom());
                    assert forall|k: u128| #[trigger] self.holders().contains_key(k) implies self.holders()[k] == h[k] by {
                        if k == m {
                            assert(self.holders()[k].dom() =~= h[k].dom());
                            assert(self.holders()[k][c] =~= h[k][c]);
                            assert(self.holders()[k] =~= h[k]);
                        }
                    }
                    assert(self.holders() =~= h);
                }
            },
        }
    }

    /// Forget peer `node_id` as a holder of anything.
    pub fn remove_peer_availability(&mut self, node_id: NodeId)
        requires
            old(self).wf(),
        ensures
            final(self).wf(),
            final(self).transfers() == old(self).transfers(),
            final(self).holders() == without_holder(old(self).holders(), node_id.0),
    {
        let ghost ks = self.availability.key_seq();
        let ghost a0 = self.availability@;
        proof {
            self.availability.lemma_view();
            assert forall|j: int| 0 <= j < ks.len() implies #[trigger] self.availability@[ks[j]].wf() by {
                assert(ks.contains(ks[j]));
                assert(self.availability@.contains_key(ks[j]));
            }
        }
        let len = self.availability.len();
        let mut i: usize = 0;
        while i < len
            invariant
                self.active == old(self).active,
                self.availability.wf(),
                self.availability.key_seq() == ks,
                len == ks.len(),
                i <= len,
                ks.no_duplicates(),
                forall|k: u128| #[trigger] a0.contains_key(k) <==> ks.contains(k),
                self.availability@.dom() == a0.dom(),
                forall|m: u128| #[trigger] a0.contains_key(m) ==> a0[m].wf(),
                forall|m: u128, c: u64| #![trigger a0[m]@[c]] a0.contains_key(m) && a0[m]@.contains_key(c) ==> a0[m]@[c].wf(),
                forall|j: int| 0 <= j < len ==> #[trigger] self.availability@[ks[j]].wf(),
                forall|j: int, c: u64| 0 <= j < i && #[trigger] self.availability@[ks[j]]@.contains_key(c) ==> self.availability@[ks[j]]@[c].wf(),
                forall|j: int| 0 <= j < i ==> (#[trigger] self.availability@[ks[j]])@.dom() == a0[ks[j]]@.dom(),
                forall|j: int, c: u64| 0 <= j < i && #[trigger] self.availability@[ks[j]]@.contains_key(c) ==> self.availability@[ks[j]]@[c]@.dom() == a0[ks[j]]@[c]@.dom().remove(node_id.0),
                forall|j: int| i <= j < len ==> #[trigger] self.availability@[ks[j]] == a0[ks[j]],
            decreases len - i,
        {
            proof {
                assert(ks.contains(ks[i as int]));
            }
            let table = self.availability.value_at_mut(i);
            drop_holder(table, node_id.0);
            proof {
                assert forall|j: int| 0 <= j < len implies #[trigger] self.availability@[ks[j]].wf() by {
                    if j != i {
                        assert(ks[j] != ks[i as int]);
                    }
                }
                assert forall|j: int| i + 1 <= j < len implies #[trigger] self.availability@[ks[j]] == a0[ks[j]] by {
                    assert(ks[j] != ks[i as int]);
                }
                assert forall|j: int, c: u64| 0 <= j < i + 1 && #[trigger] self.availability@[ks[j]]@.contains_key(c) implies self.availability@[ks[j]]@[c].wf()
                    && self.availability@[ks[j]]@[c]@.dom() == a0[ks[j]]@[c]@.dom().remove(node_id.0) by {
                    if j != i {
                        assert(ks[j] != ks[i as int]);
                    }
                }
                assert forall|j: int| 0 <= j < i + 1 implies (#[trigger] self.availability@[ks[j]])@.dom() == a0[ks[j]]@.dom() by {
                    if j != i {
                        assert(ks[j] != ks[i as int]);
                    }
                }
            }
            i = i + 1;
        }
        proof {
            let h = without_holder(old(self).holders(), node_id.0);
            assert(self.holders().dom() =~= h.dom());
            assert forall|m: u128| #[trigger] self.holders().contains_key(m) implies self.holders()[m] == h[m] by {
                let j = ks.index_of(m);
                assert(self.holders()[m].dom() =~= h[m].dom());
                assert forall|c: u64| #[trigger] self.holders()[m].contains_key(c) implies self.holders()[m][c] == h[m][c] by {
                    assert(self.holders()[m][c] =~= h[m][c]);
                }
                assert(self.holders()[m] =~= h[m]);
            }
            assert(self.holders() =~= h);
        }
    }

    /// Forget peer `node_id` as a holder of chunk `chunk_id` of manifest `manifest_id`.
    pub fn remove_peer_chunk_availability(&mut self, manifest_id: ManifestId, chunk_id: ChunkId, node_id: NodeId)
        requires
            old(self).wf(),
        ensures
            final(self).wf(),
            final(self).transfers() == old(self).transfers(),
            final(self).holders() == without_chunk_holder(old(self).holders(), manifest_id.0, chunk_id.0 as u64, node_id.0),
    {
        let ghost h0 = self.holders();
        let m = manifest_id.0;
        let c = chunk_id.0 as u64;
        match self.availability.find(m) {
            Some(i) => {
                if !self.availability.value_at(i).contains_key(c) {
                    return;
                }
                let table = self.availability.value_at_mut(i);
                match table.remove(c) {
                    Some(s) => {
                        let mut set = s;
                        set.remove(node_id.0);
                        table.insert(c, set);
                        proof {
                            let h = without_chunk_holder(h0, m, c, node_id.0);
                            assert(self.holders().dom() =~= h.dom());
                            assert forall|k: u128| #[trigger] self.holders().contains_key(k) implies self.holders()[k] == h[k] by {
                                if k == m {
                                    assert(self.holders()[k].dom() =~= h[k].dom());
                                    assert forall|c2: u64| #[trigger] self.holders()[k].contains_key(c2) implies self.holders()[k][c2] == h[k][c2] by {
                                        if c2 == c {
                                            assert(self.holders()[k][c2] =~= h[k][c2]);
                                        }
                                    }
                                    assert(self.holders()[k] =~= h[k]);
                                }
                            }
                            assert(self.holders() =~= h);
                        }
                    },
                    None => {},
                }
            },
            None => {},
        }
    }

    /// The peers known to hold chunk `chunk_id` of manifest `manifest_id`, in
    /// increasing id order; `None` when nothing was ever recorded for it.
    pub fn get_chunk_holders(&self, manifest_id: ManifestId, chunk_id: ChunkId) -> (r: Option<Vec<NodeId>>)
        requires
            self.wf(),
        ensures
            self.holders().contains_key(manifest_id.0) && self.holders()[manifest_id.0].contains_key(chunk_id.0 as u64) ==> (r matches Some(v)
                && ids_increasing(v@) && forall|x: NodeId| v@.contains(x) <==> self.holders()[manifest_id.0][chunk_id.0 as u64].contains(x.0)),
            !(self.holders().contains_key(manifest_id.0) && self.holders()[manifest_id.0].contains_key(chunk_id.0 as u64)) ==> r is None,
    {
        let i = match self.availability.find(manifest_id.0) {
            Some(i) => i,
            None => {
                return None;
            },
        };
        let table = self.availability.value_at(i);
        let set = match table.get(chunk_id.0 as u64) {
            Some(s) => s,
            None => {
                return None;
            },
        };
        proof {
            set.lemma_view();
        }
        let ks = set.keys();
        let mut v: Vec<NodeId> = Vec::new();
        let mut j: usize = 0;
        while j < ks.len()
            invariant
                set.wf(),
                ks@ == set.key_seq(),
                strictly_increasing(ks@),
                j <= ks@.len(),
                v@.len() == j,
                forall|a: int| 0 <= a < j ==> (#[trigger] v@[a]).0 == ks@[a],
            decreases ks.len() - j,
        {
            v.push(NodeId(ks[j]));
            j = j + 1;
        }
        proof {
            assert forall|x: NodeId| v@.contains(x) <==> set@.dom().contains(x.0) by {
                if v@.contains(x) {
                    let a = v@.index_of(x);
                    assert(ks@.contains(x.0));
                }
                if set@.dom().contains(x.0) {
                    let a = ks@.index_of(x.0);
                    assert(v@[a] == x);
                }
            }
        }
        Some(v)
    }

    /// Number of known holders of chunk `c` of manifest `m`.
    fn holder_count_of(&self, m: u128, c: u64) -> (n: usize)
        requires
            self.wf(),
        ensures
            n == holder_count(self.holders(), m, c),
    {
        match self.availability.find(m) {
            Some(i) => {
                let table = self.availability.value_at(i);
                match table.get(c) {
                    Some(set) => set.len(),
                    None => 0,
                }
            },
            None => 0,
        }
    }

    /// The pending chunks of manifest `manifest_id`, rarest first: ordered by
    /// the number of known holders, then by chunk id. Empty when the manifest
    /// is not being transferred.
    pub fn get_rarest_pending_chunks(&self, manifest_id: ManifestId) -> (r: Vec<ChunkId>)
        requires
            self.wf(),
        ensures
            !self.transfers().contains_key(manifest_id.0) ==> r@.len() == 0,
            self.transfers().contains_key(manifest_id.0) ==> {
                &&& forall|i: int, j: int| 0 <= i < j < r@.len() ==> #[trigger] rarer(
                    self.holders(),
                    manifest_id.0,
                    r@[i].0 as u64,
                    r@[j].0 as u64,
                )
                &&& forall|x: ChunkId| r@.contains(x) <==> self.transfers()[manifest_id.0].pending().contains(x.0 as u64)
            },
    {
        let m = manifest_id.0;
        let i = match self.active.find(m) {
            Some(i) => i,
            None => {
                return Vec::new();
            },
        };
        let p = self.active.value_at(i);
        let ghost h = self.holders();
        proof {
            p.chunks_pending.lemma_view();
        }
        let ks = p.chunks_pending.keys();
        let mut sorted: Vec<(usize, u64)> = Vec::new();
        let mut a: usize = 0;
        while a < ks.len()
            invariant
                self.wf(),
                h == self.holders(),
                p.wf(),
                ks@ == p.chunks_pending.key_seq(),
                strictly_increasing(ks@),
                a <= ks@.len(),
                forall|x, y| 0 <= x < y < sorted@.len() ==> count_lt(#[trigger] sorted@[x], #[trigger] sorted@[y]),
                forall|x| 0 <= x < sorted@.len() ==> (#[trigger] sorted@[x]).0 == holder_count(h, m, sorted@[x].1),
                forall|c: u64| #[trigger] lists_chunk(sorted@, c) <==> ks@.take(a as int).contains(c),
            decreases ks.len() - a,
        {
            let c = ks[a];
            let cnt = self.holder_count_of(m, c);
            let e = (cnt, c);
            let mut pos: usize = 0;
            while pos < sorted.len() && (sorted[pos].0 < cnt || (sorted[pos].0 == cnt && sorted[pos].1 < c))
                invariant
                    pos <= sorted@.len(),
                    e == (cnt, c),
                    forall|x| 0 <= x < pos ==> count_lt(#[trigger] sorted@[x], e),
                decreases sorted.len() - pos,
            {
                pos = pos + 1;
            }
            let ghost before = sorted@;
            proof {
                assert forall|x| pos <= x < before.len() implies count_lt(e, #[trigger] before[x]) by {
                    if x > pos {
                        assert(count_lt(before[pos as int], before[x]));
                    }
                    assert(before[x].1 != c) by {
                        assert(lists_chunk(before, before[x].1));
                        let b = ks@.take(a as int).index_of(before[x].1);
                        assert(ks@[b] < ks@[a as int]);
                    }
                }
            }
            sorted.insert(pos, e);
            proof {
                assert forall|x, y| 0 <= x < y < sorted@.len() implies count_lt(#[trigger] sorted@[x], #[trigger] sorted@[y]) by {
                    if y < pos {
                    } else if y == pos {
                    } else if x < pos {
                        assert(sorted@[y] == before[y - 1]);
                    } else if x == pos {
                        assert(sorted@[y] == before[y - 1]);
                    } else {
                        assert(sorted@[y] == before[y - 1]);
                        assert(sorted@[x] == before[x - 1]);
                    }
                }
                assert forall|x| 0 <= x < sorted@.len() implies (#[trigger] sorted@[x]).0 == holder_count(h, m, sorted@[x].1) by {
                    if x < pos {
                        assert(sorted@[x] == before[x]);
                    } else if x > pos {
                        assert(sorted@[x] == before[x - 1]);
                    }
                }
                assert forall|c2: u64| #[trigger] lists_chunk(sorted@, c2) <==> ks@.take(a + 1).contains(c2) by {
                    if lists_chunk(sorted@, c2) {
                        let x = choose|x: int| 0 <= x < sorted@.len() && sorted@[x].1 == c2;
                        if x < pos {
                            assert(before[x].1 == c2);
                            assert(lists_chunk(before, c2));
                            let b = ks@.take(a as int).index_of(c2);
                            assert(ks@.take(a + 1)[b] == c2);
                        } else if x > pos {
                            assert(before[x - 1].1 == c2);
                            assert(lists_chunk(before, c2));
                            let b = ks@.take(a as int).index_of(c2);
                            assert(ks@.take(a + 1)[b] == c2);
                        } else {
                            assert(ks@.take(a + 1)[a as int] == c2);
                        }
                    }
                    if ks@.take(a + 1).contains(c2) {
                        let b = ks@.take(a + 1).index_of(c2);
                        if b < a {
                            assert(ks@.take(a as int)[b] == c2);
                            assert(lists_chunk(before, c2));
                            let x = choose|x: int| 0 <= x < before.len() && before[x].1 == c2;
                            if x < pos {
                                assert(sorted@[x] == before[x]);
                            } else {
                                assert(sorted@[x + 1] == before[x]);
                            }
                        } else {
                            assert(sorted@[pos as int].1 == c2);
                        }
                    }
                }
            }
            a = a + 1;
        }
        proof {
            assert forall|x| 0 <= x < sorted@.len() implies (#[trigger] sorted@[x]).1 <= u32::MAX by {
                let c = sorted@[x].1;
                assert(lists_chunk(sorted@, c));
                let b = ks@.take(a as int).index_of(c);
                assert(ks@[b] == c);
                assert(ks@.contains(c));
                assert(p.chunks_pending@.contains_key(c));
            }
        }
        let mut r: Vec<ChunkId> = Vec::new();
        let mut b: usize = 0;
        while b < sorted.len()
            invariant
                b <= sorted@.len(),
                r@.len() == b,
                forall|x| 0 <= x < sorted@.len() ==> (#[trigger] sorted@[x]).1 <= u32::MAX,
                forall|x| 0 <= x < b ==> (#[trigger] r@[x]).0 as u64 == sorted@[x].1,
            decreases sorted.len() - b,
        {
            r.push(ChunkId(sorted[b].1 as u32));
            b = b + 1;
        }
        proof {
            assert forall|x: int, y: int| 0 <= x < y < r@.len() implies #[trigger] rarer(h, m, r@[x].0 as u64, r@[y].0 as u64) by {
                assert(count_lt(sorted@[x], sorted@[y]));
            }
            assert forall|x: ChunkId| r@.contains(x) <==> p.pending().contains(x.0 as u64) by {
                if r@.contains(x) {
                    let j = r@.index_of(x);
                    assert(sorted@[j].1 == x.0 as u64);
                    assert(lists_chunk(sorted@, x.0 as u64));
                    assert(ks@.take(a as int) =~= ks@);
                    assert(ks@.contains(x.0 as u64));
                }
                if p.pending().contains(x.0 as u64) {
                    assert(ks@.contains(x.0 as u64));
                    assert(ks@.take(a as int) =~= ks@);
                    assert(lists_chunk(sorted@, x.0 as u64));
                    let j = choose|j: int| 0 <= j < sorted@.len() && sorted@[j].1 == x.0 as u64;
                    assert(r@[j].0 as u64 == x.0 as u64);
                    assert(r@[j] == x);
                }
            }
        }
        r
    }

    /// Every pending chunk of every active transfer, as (manifest, chunk)
    /// pairs, each once.
    pub fn get_all_pending_chunks(&self) -> (r: Vec<(ManifestId, ChunkId)>)
        requires
            self.wf(),
        ensures
            r@.no_duplicates(),
            forall|x: (ManifestId, ChunkId)| #[trigger] r@.contains(x) <==> self.transfers().contains_key(x.0.0)
                && self.transfers()[x.0.0].pending().contains(x.1.0 as u64),
    {
        let ghost ks = self.active.key_seq();
        proof {
            self.active.lemma_view();
        }
        let mut r: Vec<(ManifestId, ChunkId)> = Vec::new();
        let len = self.active.len();
        let mut i: usize = 0;
        while i < len
            invariant
                self.wf(),
                ks == self.active.key_seq(),
                ks.no_duplicates(),
                len == ks.len(),
                i <= len,
                forall|k: u128| #[trigger] self.active@.contains_key(k) <==> ks.contains(k),
                r@.no_duplicates(),
                forall|x: (ManifestId, ChunkId)| #[trigger] r@.contains(x) <==> (exists|j: int| 0 <= j < i && ks[j] == x.0.0)
                    && self.transfers().contains_key(x.0.0) && self.transfers()[x.0.0].pending().contains(x.1.0 as u64),
            decreases len - i,
        {
            let m = self.active.key_at(i);
            let p = self.active.value_at(i);
            proof {
                assert(ks.contains(m));
                assert(self.active@.contains_key(m));
                p.chunks_pending.lemma_view();
            }
            let cs = p.chunks_pending.keys();
            proof {
                assert forall|t: int| 0 <= t < cs@.len() implies #[trigger] cs@[t] <= u32::MAX by {
                    assert(cs@.contains(cs@[t]));
                    assert(p.chunks_pending@.contains_key(cs@[t]));
                }
                assert forall|x: (ManifestId, ChunkId)| #[trigger] r@.contains(x) implies x.0.0 != m by {
                    let j = choose|j: int| 0 <= j < i && ks[j] == x.0.0;
                    assert(ks[j] != ks[i as int]);
                }
            }
            let ghost r0 = r@;
            append_pairs(&mut r, m, &cs);
            proof {
                assert forall|x: (ManifestId, ChunkId)| #[trigger] r@.contains(x) <==> (exists|j: int| 0 <= j < i + 1 && ks[j] == x.0.0)
                    && self.transfers().contains_key(x.0.0) && self.transfers()[x.0.0].pending().contains(x.1.0 as u64) by {
                    if r0.contains(x) {
                        let j = choose|j: int| 0 <= j < i && ks[j] == x.0.0;
                        assert(0 <= j < i + 1 && ks[j] == x.0.0);
                    }
                    if x.0.0 == m && cs@.contains(x.1.0 as u64) {
                        assert(ks[i as int] == x.0.0);
                    }
                    if (exists|j: int| 0 <= j < i + 1 && ks[j] == x.0.0) && self.transfers().contains_key(x.0.0)
                        && self.transfers()[x.0.0].pending().contains(x.1.0 as u64) {
                        let j = choose|j: int| 0 <= j < i + 1 && ks[j] == x.0.0;
                        if j == i {
                            assert(cs@.contains(x.1.0 as u64));
                        } else {
                            assert(r0.contains(x));
                        }
                    }
                }
            }
            i = i + 1;
        }
        proof {
            assert forall|x: (ManifestId, ChunkId)| #[trigger] r@.contains(x) <==> self.transfers().contains_key(x.0.0)
                && self.transfers()[x.0.0].pending().contains(x.1.0 as u64) by {
                if self.transfers().contains_key(x.0.0) {
                    let j = ks.index_of(x.0.0);
                    assert(ks[j] == x.0.0);
                }
            }
        }
        r
    }

    /// Peer `node_id` disconnected: forget it as a holder, and put every chunk
    /// requested from it back to pending. Returns those chunks, each once.
    pub fn handle_node_disconnect(&mut self, node_id: NodeId) -> (r: Vec<(ManifestId, ChunkId)>)
        requires
            old(self).wf(),
        ensures
            final(self).wf(),
            final(self).holders() == without_holder(old(self).holders(), node_id.0),
            final(self).transfers().dom() == old(self).transfers().dom(),
            forall|m: u128| #[trigger] old(self).transfers().contains_key(m) ==> requeued(
                old(self).transfers()[m],
                final(self).transfers()[m],
                requested_from(old(self).transfers()[m].in_flight(), node_id),
            ),
            r@.no_duplicates(),
            forall|x: (ManifestId, ChunkId)| #[trigger] r@.contains(x) <==> old(self).transfers().contains_key(x.0.0)
                && requested_from(old(self).transfers()[x.0.0].in_flight(), node_id).contains(x.1.0 as u64),
    {
        self.remove_peer_availability(node_id);
        let ghost t0 = self.transfers();
        let ghost ks = self.active.key_seq();
        let ghost av1 = self.availability;
        let ghost h1 = self.holders();
        proof {
            self.active.lemma_view();
        }
        let mut r: Vec<(ManifestId, ChunkId)> = Vec::new();
        let len = self.active.len();
        let mut i: usize = 0;
        while i < len
            invariant
                self.active.wf(),
                self.availability == av1,
                h1 == without_holder(old(self).holders(), node_id.0),
                av1.wf(),
                forall|m: u128| #[trigger] av1@.contains_key(m) ==> av1@[m].wf(),
                forall|m: u128, c: u64| #![trigger av1@[m]@[c]] av1@.contains_key(m) && av1@[m]@.contains_key(c) ==> av1@[m]@[c].wf(),
                h1 == Map::new(
                    |m: u128| av1@.contains_key(m),
                    |m: u128| Map::new(|c: u64| av1@[m]@.contains_key(c), |c: u64| av1@[m]@[c]@.dom()),
                ),
                self.active.key_seq() == ks,
                ks.no_duplicates(),
                len == ks.len(),
                i <= len,
                forall|k: u128| #[trigger] t0.contains_key(k) <==> ks.contains(k),
                self.transfers().dom() == t0.dom(),
                forall|m: u128| #[trigger] t0.contains_key(m) ==> t0[m].wf() && t0[m].manifest.id.0 == m,
                forall|j: int| 0 <= j < i ==> requeued(
                    t0[ks[j]],
                    #[trigger] self.transfers()[ks[j]],
                    requested_from(t0[ks[j]].in_flight(), node_id),
                ) && self.transfers()[ks[j]].wf(),
                forall|j: int| i <= j < len ==> #[trigger] self.transfers()[ks[j]] == t0[ks[j]],
                r@.no_duplicates(),
                forall|x: (ManifestId, ChunkId)| #[trigger] r@.contains(x) <==> (exists|j: int| 0 <= j < i && ks[j] == x.0.0)
                    && t0.contains_key(x.0.0) && requested_from(t0[x.0.0].in_flight(), node_id).contains(x.1.0 as u64),
            decreases len - i,
        {
            let m = self.active.key_at(i);
            proof {
                assert(ks.contains(m));
                assert(t0.contains_key(m));
            }
            let ghost p0 = t0[m];
            let p = self.active.value_at_mut(i);
            let picked = p.sweep(Sweep::Holder(node_id));
            let cs = swept_chunks(&picked);
            proof {
                assert(swept_keys(p0.in_flight(), Sweep::Holder(node_id)) =~= requested_from(p0.in_flight(), node_id));
                assert forall|t: int| 0 <= t < cs@.len() implies #[trigger] cs@[t] <= u32::MAX by {
                    assert(picked@.contains(picked@[t]));
                    assert(p0.chunks_in_flight@.contains_key(cs@[t]));
                }
                assert forall|x: (ManifestId, ChunkId)| #[trigger] r@.contains(x) implies x.0.0 != m by {
                    let j = choose|j: int| 0 <= j < i && ks[j] == x.0.0;
                    assert(ks[j] != ks[i as int]);
                }
                assert forall|j: int| 0 <= j < i + 1 implies requeued(
                    t0[ks[j]],
                    #[trigger] self.transfers()[ks[j]],
                    requested_from(t0[ks[j]].in_flight(), node_id),
                ) && self.transfers()[ks[j]].wf() by {
                    if j != i {
                        assert(ks[j] != ks[i as int]);
                    }
                }
                assert forall|j: int| i + 1 <= j < len implies #[trigger] self.transfers()[ks[j]] == t0[ks[j]] by {
                    assert(ks[j] != ks[i as int]);
                }
            }
            let ghost r0 = r@;
            append_pairs(&mut r, m, &cs);
            proof {
                assert forall|x: (ManifestId, ChunkId)| #[trigger] r@.contains(x) <==> (exists|j: int| 0 <= j < i + 1 && ks[j] == x.0.0)
                    && t0.contains_key(x.0.0) && requested_from(t0[x.0.0].in_flight(), node_id).contains(x.1.0 as u64) by {
                    if r0.contains(x) {
                        let j = choose|j: int| 0 <= j < i && ks[j] == x.0.0;
                        assert(0 <= j < i + 1 && ks[j] == x.0.0);
                    }
                    if x.0.0 == m && cs@.contains(x.1.0 as u64) {
                        assert(ks[i as int] == x.0.0);
                        let t = cs@.index_of(x.1.0 as u64);
                        assert(picked@.contains(picked@[t]));
                    }
                    if (exists|j: int| 0 <= j < i + 1 && ks[j] == x.0.0) && t0.contains_key(x.0.0)
                        && requested_from(t0[x.0.0].in_flight(), node_id).contains(x.1.0 as u64) {
                        let j = choose|j: int| 0 <= j < i + 1 && ks[j] == x.0.0;
                        if j == i {
                            let c = x.1.0 as u64;
                            let e = (c, p0.in_flight()[c].0);
                            assert(picked@.contains(e));
                            let t = picked@.index_of(e);
                            assert(cs@[t] == c);
                            assert(cs@.contains(c));
                        } else {
                            assert(r0.contains(x));
                        }
                    }
                }
            }
            i = i + 1;
        }
        proof {
            assert forall|m: u128| #[trigger] t0.contains_key(m) implies requeued(
                t0[m],
                self.transfers()[m],
                requested_from(t0[m].in_flight(), node_id),
            ) && self.transfers()[m].wf() by {
                let j = ks.index_of(m);
                assert(ks[j] == m);
            }
            assert forall|x: (ManifestId, ChunkId)| #[trigger] r@.contains(x) <==> t0.contains_key(x.0.0)
                && requested_from(t0[x.0.0].in_flight(), node_id).contains(x.1.0 as u64) by {
                if t0.contains_key(x.0.0) {
                    let j = ks.index_of(x.0.0);
                    assert(ks[j] == x.0.0);
                }
            }
            assert forall|m: u128| #[trigger] self.active@.contains_key(m) implies self.active@[m].wf() && self.active@[m].manifest.id.0 == m by {
                assert(t0.contains_key(m));
            }
        }
        r
    }

    /// Take back every request older than `timeout_ms` at `now_ms`: those
    /// chunks become pending again. Returns the manifests that had such
    /// requests, each once, and the peers they were sent to, in increasing id
    /// order.
    pub fn check_timeouts(&mut self, timeout_ms: u64, now_ms: u64) -> (r: (Vec<ManifestId>, Vec<NodeId>))
        requires
            old(self).wf(),
        ensures
            final(self).wf(),
            final(self).holders() == old(self).holders(),
            final(self).transfers().dom() == old(self).transfers().dom(),
            forall|m: u128| #[trigger] old(self).transfers().contains_key(m) ==> requeued(
                old(self).transfers()[m],
                final(self).transfers()[m],
                overdue_requests(old(self).transfers()[m].in_flight(), timeout_ms, now_ms),
            ),
            r.0@.no_duplicates(),
            forall|x: ManifestId| #[trigger] r.0@.contains(x) <==> old(self).transfers().contains_key(x.0)
                && overdue_requests(old(self).transfers()[x.0].in_flight(), timeout_ms, now_ms) != Set::<u64>::empty(),
            ids_increasing(r.1@),
            forall|n: NodeId| #[trigger] r.1@.contains(n) <==> exists|m: u128, c: u64|
                old(self).transfers().contains_key(m) && #[trigger] overdue_requests(old(self).transfers()[m].in_flight(), timeout_ms, now_ms).contains(c)
                    && old(self).transfers()[m].in_flight()[c].0 == n,
    {
        let ghost t0 = self.transfers();
        let ghost ks = self.active.key_seq();
        let ghost av1 = self.availability;
        let ghost h1 = self.holders();
        proof {
            self.active.lemma_view();
        }
        let mut affected: Vec<ManifestId> = Vec::new();
        let mut offenders: OrderedMap<()> = OrderedMap::new();
        let len = self.active.len();
        let mut i: usize = 0;
        while i < len
            invariant
                self.active.wf(),
                self.availability == av1,
                h1 == old(self).holders(),
                av1.wf(),
                forall|m: u128| #[trigger] av1@.contains_key(m) ==> av1@[m].wf(),
                forall|m: u128, c: u64| #![trigger av1@[m]@[c]] av1@.contains_key(m) && av1@[m]@.contains_key(c) ==> av1@[m]@[c].wf(),
                h1 == Map::new(
                    |m: u128| av1@.contains_key(m),
                    |m: u128| Map::new(|c: u64| av1@[m]@.contains_key(c), |c: u64| av1@[m]@[c]@.dom()),
                ),
                t0 == old(self).transfers(),
                self.active.key_seq() == ks,
                ks.no_duplicates(),
                len == ks.len(),
                i <= len,
                forall|k: u128| #[trigger] t0.contains_key(k) <==> ks.contains(k),
                self.transfers().dom() == t0.dom(),
                forall|m: u128| #[trigger] t0.contains_key(m) ==> t0[m].wf() && t0[m].manifest.id.0 == m,
                forall|j: int| 0 <= j < i ==> requeued(
                    t0[ks[j]],
                    #[trigger] self.transfers()[ks[j]],
                    overdue_requests(t0[ks[j]].in_flight(), timeout_ms, now_ms),
                ) && self.transfers()[ks[j]].wf(),
                forall|j: int| i <= j < len ==> #[trigger] self.transfers()[ks[j]] == t0[ks[j]],
                affected@.no_duplicates(),
                forall|x: ManifestId| #[trigger] affected@.contains(x) <==> (exists|j: int| 0 <= j < i && ks[j] == x.0)
                    && overdue_requests(t0[x.0].in_flight(), timeout_ms, now_ms) != Set::<u64>::empty(),
                offenders.wf(),
                forall|n: u64| #[trigger] offenders@.contains_key(n) <==> blamed(t0, ks, i as int, n, timeout_ms, now_ms),
            decreases len - i,
        {
            let m = self.active.key_at(i);
            proof {
                assert(ks.contains(m));
                assert(t0.contains_key(m));
            }
            let ghost p0 = t0[m];
            let ghost sel = overdue_requests(p0.in_flight(), timeout_ms, now_ms);
            let p = self.active.value_at_mut(i);
            let picked = p.sweep(Sweep::Overdue { timeout: timeout_ms, now: now_ms });
            proof {
                assert(swept_keys(p0.in_flight(), Sweep::Overdue { timeout: timeout_ms, now: now_ms }) =~= sel);
                assert forall|j: int| 0 <= j < i + 1 implies requeued(
                    t0[ks[j]],
                    #[trigger] self.transfers()[ks[j]],
                    overdue_requests(t0[ks[j]].in_flight(), timeout_ms, now_ms),
                ) && self.transfers()[ks[j]].wf() by {
                    if j != i {
                        assert(ks[j] != ks[i as int]);
                    }
                }
                assert forall|j: int| i + 1 <= j < len implies #[trigger] self.transfers()[ks[j]] == t0[ks[j]] by {
                    assert(ks[j] != ks[i as int]);
                }
            }
            let ghost a0 = affected@;
            if picked.len() > 0 {
                affected.push(ManifestId(m));
            }
            proof {
                assert(picked@.len() > 0 <==> sel != Set::<u64>::empty()) by {
                    if picked@.len() > 0 {
                        assert(picked@.contains(picked@[0]));
                        assert(sel.contains(picked@[0].0));
                    }
                    if sel != Set::<u64>::empty() {
                        if forall|c: u64| !sel.contains(c) {
                            assert(sel =~= Set::<u64>::empty());
                        }
                        let c = choose|c: u64| sel.contains(c);
                        assert(picked@.contains((c, p0.in_flight()[c].0)));
                    }
                }
                assert(!a0.contains(ManifestId(m))) by {
                    if a0.contains(ManifestId(m)) {
                        let j = choose|j: int| 0 <= j < i && ks[j] == m;
                        assert(ks[j] != ks[i as int]);
                    }
                }
                assert forall|x: ManifestId| #[trigger] affected@.contains(x) <==> (exists|j: int| 0 <= j < i + 1 && ks[j] == x.0)
                    && overdue_requests(t0[x.0].in_flight(), timeout_ms, now_ms) != Set::<u64>::empty() by {
                    if a0.contains(x) {
                        let j = choose|j: int| 0 <= j < i && ks[j] == x.0;
                        assert(0 <= j < i + 1 && ks[j] == x.0);
                    }
                    if affected@.contains(x) && !a0.contains(x) {
                        assert(x == ManifestId(m));
                        assert(ks[i as int] == x.0);
                    }
                    if (exists|j: int| 0 <= j < i + 1 && ks[j] == x.0) && overdue_requests(t0[x.0].in_flight(), timeout_ms, now_ms) != Set::<u64>::empty() {
                        let j = choose|j: int| 0 <= j < i + 1 && ks[j] == x.0;
                        if j == i {
                            assert(x == ManifestId(m));
                            assert(affected@.last() == x);
                        } else {
                            assert(a0.contains(x));
                            let a = a0.index_of(x);
                            assert(affected@[a] == x);
                        }
                    }
                }
            }
            let mut k: usize = 0;
            while k < picked.len()
                invariant
                    offenders.wf(),
                    k <= picked@.len(),
                    forall|x: (u64, NodeId)| picked@.contains(x) <==> sel.contains(x.0) && p0.in_flight()[x.0].0 == x.1,
                    forall|n: u64| #[trigger] offenders@.contains_key(n) <==> blamed(t0, ks, i as int, n, timeout_ms, now_ms)
                        || exists|a: int| 0 <= a < k && (#[trigger] picked@[a]).1.0 == n,
                decreases picked.len() - k,
            {
                offenders.insert(picked[k].1.0, ());
                proof {
                    assert forall|n: u64| #[trigger] offenders@.contains_key(n) <==> blamed(t0, ks, i as int, n, timeout_ms, now_ms)
                        || exists|a: int| 0 <= a < k + 1 && (#[trigger] picked@[a]).1.0 == n by {
                        if n == picked@[k as int].1.0 {
                            assert(0 <= k < k + 1 && picked@[k as int].1.0 == n);
                        }
                        if exists|a: int| 0 <= a < k + 1 && (#[trigger] picked@[a]).1.0 == n {
                            let a = choose|a: int| 0 <= a < k + 1 && (#[trigger] picked@[a]).1.0 == n;
                            if a < k {
                                assert(0 <= a < k && picked@[a].1.0 == n);
                            }
                        }
                    }
                }
                k = k + 1;
            }
            proof {
                assert forall|n: u64| #[trigger] offenders@.contains_key(n) <==> blamed(t0, ks, i + 1, n, timeout_ms, now_ms) by {
                    if blamed(t0, ks, i as int, n, timeout_ms, now_ms) {
                        let (j, c) = choose|j: int, c: u64|
                            0 <= j < i && #[trigger] overdue_requests(t0[ks[j]].in_flight(), timeout_ms, now_ms).contains(c) && t0[ks[j]].in_flight()[c].0.0 == n;
                        assert(0 <= j < i + 1);
                    }
                    if exists|a: int| 0 <= a < picked@.len() && (#[trigger] picked@[a]).1.0 == n {
                        let a = choose|a: int| 0 <= a < picked@.len() && (#[trigger] picked@[a]).1.0 == n;
                        assert(picked@.contains(picked@[a]));
                        let c = picked@[a].0;
                        assert(sel.contains(c));
                        assert(ks[i as int] == m);
                        assert(overdue_requests(t0[ks[i as int]].in_flight(), timeout_ms, now_ms).contains(c));
                    }
                    if blamed(t0, ks, i + 1, n, timeout_ms, now_ms) {
                        let (j, c) = choose|j: int, c: u64|
                            0 <= j < i + 1 && #[trigger] overdue_requests(t0[ks[j]].in_flight(), timeout_ms, now_ms).contains(c) && t0[ks[j]].in_flight()[c].0.0 == n;
                        if j == i {
                            let e = (c, p0.in_flight()[c].0);
                            assert(picked@.contains(e));
                            let a = picked@.index_of(e);
                            assert(picked@[a].1.0 == n);
                        } else {
                            assert(blamed(t0, ks, i as int, n, timeout_ms, now_ms));
                        }
                    }
                }
            }
            i = i + 1;
        }
        proof {
            offenders.lemma_view();
        }
        let ids = offenders.keys();
        let mut nodes: Vec<NodeId> = Vec::new();
        let mut b: usize = 0;
        while b < ids.len()
            invariant
                strictly_increasing(ids@),
                b <= ids@.len(),
                nodes@.len() == b,
                forall|a: int| 0 <= a < b ==> (#[trigger] nodes@[a]).0 == ids@[a],
            decreases ids.len() - b,
        {
            nodes.push(NodeId(ids[b]));
            b = b + 1;
        }
        proof {
            assert forall|m: u128| #[trigger] t0.contains_key(m) implies requeued(
                t0[m],
                self.transfers()[m],
                overdue_requests(t0[m].in_flight(), timeout_ms, now_ms),
            ) && self.transfers()[m].wf() by {
                let j = ks.index_of(m);
                assert(ks[j] == m);
            }
            assert forall|m: u128| #[trigger] self.active@.contains_key(m) implies self.active@[m].wf() && self.active@[m].manifest.id.0 == m by {
                assert(t0.contains_key(m));
            }
            assert forall|x: ManifestId| #[trigger] affected@.contains(x) <==> t0.contains_key(x.0)
                && overdue_requests(t0[x.0].in_flight(), timeout_ms, now_ms) != Set::<u64>::empty() by {
                if t0.contains_key(x.0) {
                    let j = ks.index_of(x.0);
                    assert(ks[j] == x.0);
                }
            }
            assert forall|n: NodeId| #[trigger] nodes@.contains(n) <==> exists|m: u128, c: u64|
                t0.contains_key(m) && #[trigger] overdue_requests(t0[m].in_flight(), timeout_ms, now_ms).contains(c)
                    && t0[m].in_flight()[c].0 == n by {
                if nodes@.contains(n) {
                    let a = nodes@.index_of(n);
                    assert(ids@.contains(n.0));
                    assert(offenders@.contains_key(n.0));
                    let (j, c) = choose|j: int, c: u64|
                        0 <= j < len && #[trigger] overdue_requests(t0[ks[j]].in_flight(), timeout_ms, now_ms).contains(c) && t0[ks[j]].in_flight()[c].0.0 == n.0;
                    assert(ks.contains(ks[j]));
                    assert(t0.contains_key(ks[j]));
                }
                if exists|m: u128, c: u64|
                    t0.contains_key(m) && #[trigger] overdue_requests(t0[m].in_flight(), timeout_ms, now_ms).contains(c)
                        && t0[m].in_flight()[c].0 == n {
                    let (m, c) = choose|m: u128, c: u64|
                        t0.contains_key(m) && #[trigger] overdue_requests(t0[m].in_flight(), timeout_ms, now_ms).contains(c)
                            && t0[m].in_flight()[c].0 == n;
                    let j = ks.index_of(m);
                    assert(ks[j] == m);
                    assert(blamed(t0, ks, len as int, n.0, timeout_ms, now_ms));
                    assert(offenders@.contains_key(n.0));
                    let a = ids@.index_of(n.0);
                    assert(nodes@[a] == n);
                }
            }
        }
        (affected, nodes)
    }

    /// A copy of every active transfer, with its manifest id.
    pub fn get_all_progress(&self) -> (r: Vec<(ManifestId, TransferProgress)>)
        requires
            self.wf(),
        ensures
            r@.len() == self.transfers().dom().len(),
            forall|a: int| 0 <= a < r@.len() ==> self.transfers().contains_key((#[trigger] r@[a]).0.0),
            forall|a: int, b: int| 0 <= a < b < r@.len() ==> (#[trigger] r@[a]).0 != (#[trigger] r@[b]).0,
            forall|a: int| 0 <= a < r@.len() ==> same_progress((#[trigger] r@[a]).1, self.transfers()[r@[a].0.0]),
    {
        let ghost ks = self.active.key_seq();
        proof {
            self.active.lemma_view();
        }
        let mut r: Vec<(ManifestId, TransferProgress)> = Vec::new();
        let len = self.active.len();
        let mut i: usize = 0;
        while i < len
            invariant
                self.wf(),
                ks == self.active.key_seq(),
                ks.no_duplicates(),
                len == ks.len(),
                i <= len,
                forall|k: u128| #[trigger] self.transfers().contains_key(k) <==> ks.contains(k),
                r@.len() == i,
                forall|a: int| 0 <= a < i ==> (#[trigger] r@[a]).0.0 == ks[a],
                forall|a: int| 0 <= a < i ==> same_progress((#[trigger] r@[a]).1, self.transfers()[ks[a]]),
            decreases len - i,
        {
            let m = self.active.key_at(i);
            let p = self.active.value_at(i);
            proof {
                assert(ks.contains(ks[i as int]));
                self.lemma_transfers_wf(m);
            }
            r.push((ManifestId(m), p.copy()));
            i = i + 1;
        }
        proof {
            assert forall|a: int| 0 <= a < r@.len() implies self.transfers().contains_key((#[trigger] r@[a]).0.0) by {
                assert(ks.contains(ks[a]));
            }
        }
        r
    }

    /// In a tracked transfer a chunk is in at most one of the three states:
    /// received, pending or in flight. Every operation keeps it so.
    pub proof fn lemma_chunk_states_exclusive(&self, m: u128, c: u64)
        requires
            self.wf(),
            self.transfers().contains_key(m),
        ensures
            self.transfers()[m].received().contains(c) ==> !self.transfers()[m].pending().contains(c)
                && !self.transfers()[m].in_flight().contains_key(c),
            self.transfers()[m].pending().contains(c) ==> !self.transfers()[m].in_flight().contains_key(c),
    {
        assert(self.transfers()[m].wf());
    }
}

impl Default for TransferTracker {
    fn default() -> (r: Self)
        ensures
            r.wf(),
            r.transfers() == Map::<u128, TransferProgress>::empty(),
            r.holders() == Map::<u128, Map<u64, Set<u64>>>::empty(),
    {
        Self::new()
    }
}

} // verus!
