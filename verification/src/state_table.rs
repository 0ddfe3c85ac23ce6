//! The overlay state table: every node of the cluster, the coordinator and its
//! term, and the ownership state of every chunk.
use vstd::prelude::*;

use crate::chunk::{status_rank, ChunkOwnership, ChunkStatus, OstFragment};
use crate::cluster::ClusterConfig;
use crate::error::MurmurError;
use crate::node::{status_available, Node};
use crate::ordered_map::OrderedMap;
use crate::types::{ids_sorted, sort_node_ids, ChunkId, NodeId, SimTime};

verus! {

/// Abstract state of the table.
pub struct OverlayView {
    /// Nodes keyed by node id.
    pub nodes: Map<u64, Node>,
    pub coordinator: Option<NodeId>,
    pub term: u64,
    pub config: ClusterConfig,
    /// Chunk ownership keyed by chunk id.
    pub chunk_ownership: Map<u64, ChunkOwnership>,
}

/// The entry of a chunk that has no entry yet.
pub open spec fn fresh_entry(chunk_id: ChunkId) -> ChunkOwnership {
    ChunkOwnership {
        chunk_id,
        status: ChunkStatus::Unassigned,
        assigned_to: None,
        verified_by: None,
        epoch: 0,
    }
}

/// One reported status merged into one entry: a higher status replaces the
/// entry's status and records the reporter (as verifier for `Verified`, as
/// assignee for `Assigned` and `InProgress`); a status that is not higher
/// changes nothing.
pub open spec fn merge_entry(e: ChunkOwnership, status: ChunkStatus, node: NodeId) -> ChunkOwnership {
    if status_rank(status) > status_rank(e.status) {
        if status == ChunkStatus::Verified {
            ChunkOwnership { status, verified_by: Some(node), ..e }
        } else if status == ChunkStatus::InProgress || status == ChunkStatus::Assigned {
            ChunkOwnership { status, assigned_to: Some(node), ..e }
        } else {
            ChunkOwnership { status, ..e }
        }
    } else {
        e
    }
}

/// The entry of `chunk_id` in `m`, or a fresh one.
pub open spec fn entry_or_fresh(m: Map<u64, ChunkOwnership>, chunk_id: ChunkId) -> ChunkOwnership {
    if m.contains_key(chunk_id.0 as u64) {
        m[chunk_id.0 as u64]
    } else {
        fresh_entry(chunk_id)
    }
}

/// The ownership map after merging the reported pairs of `node`, in order.
/// Every reported chunk gets an entry.
pub open spec fn merge_all(m: Map<u64, ChunkOwnership>, owned: Seq<(ChunkId, ChunkStatus)>, node: NodeId) -> Map<
    u64,
    ChunkOwnership,
>
    decreases owned.len(),
{
    if owned.len() == 0 {
        m
    } else {
        let prev = merge_all(m, owned.drop_last(), node);
        let (c, s) = owned.last();
        prev.insert(c.0 as u64, merge_entry(entry_or_fresh(prev, c), s, node))
    }
}

/// The pairs a node reports for the entries of `keys`/`vals`: each chunk it
/// verified, as `Verified`, and each other chunk assigned to it, with its status.
pub open spec fn fragment_pairs(keys: Seq<u64>, vals: Seq<ChunkOwnership>, node: NodeId) -> Seq<(ChunkId, ChunkStatus)>
    decreases keys.len(),
{
    if keys.len() == 0 || vals.len() == 0 {
        Seq::empty()
    } else {
        let rest = fragment_pairs(keys.drop_last(), vals.drop_last(), node);
        let e = vals.last();
        let c = ChunkId(keys.last() as u32);
        if e.verified_by == Some(node) {
            rest.push((c, ChunkStatus::Verified))
        } else if e.assigned_to == Some(node) {
            rest.push((c, e.status))
        } else {
            rest
        }
    }
}

/// Ids of the available nodes among `vals`, in order.
pub open spec fn available_ids(vals: Seq<Node>) -> Seq<NodeId>
    decreases vals.len(),
{
    if vals.len() == 0 {
        Seq::empty()
    } else {
        let rest = available_ids(vals.drop_last());
        if status_available(vals.last().status) {
            rest.push(vals.last().id)
        } else {
            rest
        }
    }
}

/// Cluster-wide metadata view.
#[derive(Debug)]
pub struct OverlayStateTable {
    nodes: OrderedMap<Node>,
    coordinator: Option<NodeId>,
    term: u64,
    config: ClusterConfig,
    /// Chunk ownership state, keyed by chunk id.
    pub chunk_ownership: OrderedMap<ChunkOwnership>,
}

impl OverlayStateTable {
    pub closed spec fn view(&self) -> OverlayView {
        OverlayView {
            nodes: self.nodes@,
            coordinator: self.coordinator,
            term: self.term,
            config: self.config,
            chunk_ownership: self.chunk_ownership@,
        }
    }

    pub closed spec fn wf(&self) -> bool {
        self.nodes.wf() && self.chunk_ownership.wf()
    }

    /// The node values in increasing id order.
    pub closed spec fn node_values(&self) -> Seq<Node> {
        self.nodes.val_seq()
    }

    /// The chunk ids that have an ownership entry, in increasing order.
    pub closed spec fn ownership_keys(&self) -> Seq<u64> {
        self.chunk_ownership.key_seq()
    }

    /// The ownership entries in increasing chunk order.
    pub closed spec fn ownership_values(&self) -> Seq<ChunkOwnership> {
        self.chunk_ownership.val_seq()
    }

    /// Facts tying the ordered ownership entries to the ownership map.
    pub proof fn lemma_ownership_entries(&self)
        requires
            self.wf(),
        ensures
            self.ownership_keys().len() == self.ownership_values().len(),
            forall|i: int| 0 <= i < self.ownership_keys().len() ==> #[trigger] self@.chunk_ownership[self.ownership_keys()[i]] == self.ownership_values()[i],
            forall|k: u64| #[trigger] self@.chunk_ownership.contains_key(k) <==> self.ownership_keys().contains(k),
    {
        self.chunk_ownership.lemma_view();
    }

    /// An empty table with the given configuration.
    pub fn new(config: ClusterConfig) -> (r: Self)
        ensures
            r.wf(),
            r@ == (OverlayView {
                nodes: Map::empty(),
                coordinator: None,
                term: 0,
                config,
                chunk_ownership: Map::empty(),
            }),
    {
        OverlayStateTable {
            nodes: OrderedMap::new(),
            coordinator: None,
            term: 0,
            config,
            chunk_ownership: OrderedMap::new(),
        }
    }

    /// Add (or replace) a node; refused with `ClusterFull` when the table
    /// already holds `max_nodes` nodes.
    pub fn add_node(&mut self, node: Node) -> (r: Result<(), MurmurError>)
        requires
            old(self).wf(),
        ensures
            final(self).wf(),
            old(self)@.nodes.len() >= old(self)@.config.max_nodes ==> {
                &&& r == Err::<(), MurmurError>(MurmurError::ClusterFull(old(self)@.config.max_nodes))
                &&& final(self)@ == old(self)@
            },
            old(self)@.nodes.len() < old(self)@.config.max_nodes ==> {
                &&& r is Ok
                &&& final(self)@ == (OverlayView { nodes: old(self)@.nodes.insert(node.id.0, node), ..old(self)@ })
            },
    {
        if self.nodes.len() >= self.config.max_nodes {
            return Err(MurmurError::ClusterFull(self.config.max_nodes));
        }
        self.nodes.insert(node.id.0, node);
        Ok(())
    }

    /// Remove a node, returning it; removing the coordinator clears the coordinator.
    pub fn remove_node(&mut self, node_id: NodeId) -> (r: Option<Node>)
        requires
            old(self).wf(),
        ensures
            final(self).wf(),
            r == if old(self)@.nodes.contains_key(node_id.0) {
                Some(old(self)@.nodes[node_id.0])
            } else {
                None::<Node>
            },
            final(self)@ == (OverlayView {
                nodes: old(self)@.nodes.remove(node_id.0),
                coordinator: if old(self)@.nodes.contains_key(node_id.0) && old(self)@.coordinator == Some(node_id) {
                    None
                } else {
                    old(self)@.coordinator
                },
                ..old(self)@
            }),
    {
        let removed = self.nodes.remove(node_id.0);
        if removed.is_some() {
            if let Some(c) = self.coordinator {
                if c.0 == node_id.0 {
                    self.coordinator = None;
                }
            }
        }
        removed
    }

    /// The node with id `node_id`, if present.
    pub fn get_node(&self, node_id: NodeId) -> (r: Option<&Node>)
        requires
            self.wf(),
        ensures
            r == if self@.nodes.contains_key(node_id.0) {
                Some(&self@.nodes[node_id.0])
            } else {
                None::<&Node>
            },
    {
        self.nodes.get(node_id.0)
    }

    /// A mutable reference to the node with id `node_id`, if present.
    pub fn get_node_mut(&mut self, node_id: NodeId) -> (r: Option<&mut Node>)
        requires
            old(self).wf(),
        ensures
            old(self)@.nodes.contains_key(node_id.0) <==> r is Some,
            r is Some ==> *r->0 == old(self)@.nodes[node_id.0],
            r is Some ==> final(self)@ == (OverlayView {
                nodes: old(self)@.nodes.insert(node_id.0, *final(r->0)),
                ..old(self)@
            }),
            r is None ==> final(self)@ == old(self)@,
            final(self).wf(),
    {
        self.nodes.get_mut(node_id.0)
    }

    /// Ids of the nodes that are active or the coordinator, in increasing order.
    pub fn active_nodes(&self) -> (r: Vec<NodeId>)
        requires
            self.wf(),
        ensures
            ids_sorted(r@),
            r@.to_multiset() == available_ids(self.node_values()).to_multiset(),
    {
        let n = self.nodes.len();
        let mut ids: Vec<NodeId> = Vec::new();
        let mut i: usize = 0;
        while i < n
            invariant
                self.wf(),
                n == self.nodes.key_seq().len(),
                i <= n,
                ids@ == available_ids(self.node_values().take(i as int)),
            decreases n - i,
        {
            proof {
                self.nodes.lemma_view();
                assert(self.node_values().take(i + 1).drop_last() =~= self.node_values().take(i as int));
            }
            let node = self.nodes.value_at(i);
            if node.status.is_available() {
                ids.push(node.id);
            }
            i = i + 1;
        }
        proof {
            self.nodes.lemma_view();
            assert(self.node_values().take(n as int) =~= self.node_values());
        }
        sort_node_ids(&ids)
    }

    /// Ids of every node regardless of status, in increasing order.
    pub fn all_node_ids(&self) -> (r: Vec<NodeId>)
        requires
            self.wf(),
        ensures
            forall|k: NodeId| r@.contains(k) <==> self@.nodes.contains_key(k.0),
            forall|i: int, j: int| 0 <= i < j < r@.len() ==> r@[i].0 < r@[j].0,
            r@.len() == self@.nodes.len(),
    {
        proof {
            self.nodes.lemma_view();
        }
        let keys = self.nodes.keys();
        let mut out: Vec<NodeId> = Vec::new();
        let mut i: usize = 0;
        while i < keys.len()
            invariant
                keys@ == self.nodes.key_seq(),
                i <= keys@.len(),
                out@.len() == i,
                forall|a: int| 0 <= a < i ==> out@[a] == NodeId(keys@[a]),
            decreases keys.len() - i,
        {
            out.push(NodeId(keys[i]));
            i = i + 1;
        }
        proof {
            assert forall|k: NodeId| out@.contains(k) <==> self@.nodes.contains_key(k.0) by {
                if out@.contains(k) {
                    let a = choose|a: int| 0 <= a < out@.len() && out@[a] == k;
                    assert(keys@.contains(k.0));
                }
                if self@.nodes.contains_key(k.0) {
                    assert(keys@.contains(k.0));
                    let a = choose|a: int| 0 <= a < keys@.len() && keys@[a] == k.0;
                    assert(out@[a] == k);
                }
            }
        }
        out
    }

    /// Number of nodes, all statuses included.
    pub fn node_count(&self) -> (r: usize)
        requires
            self.wf(),
        ensures
            r == self@.nodes.len(),
    {
        self.nodes.len()
    }

    /// Set the coordinator and its election term.
    pub fn set_coordinator(&mut self, node_id: NodeId, term: u64)
        requires
            old(self).wf(),
        ensures
            final(self).wf(),
            final(self)@ == (OverlayView { coordinator: Some(node_id), term, ..old(self)@ }),
    {
        self.coordinator = Some(node_id);
        self.term = term;
    }

    /// Clear the coordinator; the term is kept.
    pub fn clear_coordinator(&mut self)
        requires
            old(self).wf(),
        ensures
            final(self).wf(),
            final(self)@ == (OverlayView { coordinator: None, ..old(self)@ }),
    {
        self.coordinator = None;
    }

    /// The current coordinator, if any.
    pub fn coordinator(&self) -> (r: Option<NodeId>)
        ensures
            r == self@.coordinator,
    {
        self.coordinator
    }

    /// The current election term.
    pub fn current_term(&self) -> (r: u64)
        ensures
            r == self@.term,
    {
        self.term
    }

    /// The cluster configuration.
    pub fn config(&self) -> (r: &ClusterConfig)
        ensures
            *r == self@.config,
    {
        &self.config
    }

    /// The fragment `node_id` reports at `now`: the current term as epoch and,
    /// in increasing chunk order, each chunk it verified (as `Verified`) and each
    /// other chunk assigned to it (with its status).
    pub fn to_fragment(&self, node_id: NodeId, now: SimTime) -> (r: OstFragment)
        requires
            self.wf(),
        ensures
            r.node_id == node_id,
            r.epoch == self@.term,
            r.last_updated == now,
            r.owned_chunks@ == fragment_pairs(self.ownership_keys(), self.ownership_values(), node_id),
    {
        let n = self.chunk_ownership.len();
        let mut owned: Vec<(ChunkId, ChunkStatus)> = Vec::new();
        let mut i: usize = 0;
        proof {
            self.chunk_ownership.lemma_view();
        }
        while i < n
            invariant
                self.wf(),
                n == self.chunk_ownership.key_seq().len(),
                n == self.chunk_ownership.val_seq().len(),
                i <= n,
                owned@ == fragment_pairs(
                    self.chunk_ownership.key_seq().take(i as int),
                    self.chunk_ownership.val_seq().take(i as int),
                    node_id,
                ),
            decreases n - i,
        {
            proof {
                assert(self.chunk_ownership.key_seq().take(i + 1).drop_last() =~= self.chunk_ownership.key_seq().take(i as int));
                assert(self.chunk_ownership.val_seq().take(i + 1).drop_last() =~= self.chunk_ownership.val_seq().take(i as int));
            }
            let k = self.chunk_ownership.key_at(i);
            let e = self.chunk_ownership.value_at(i);
            let c = ChunkId(k as u32);
            let mine_verified = match e.verified_by {
                Some(v) => v.0 == node_id.0,
                None => false,
            };
            let mine_assigned = match e.assigned_to {
                Some(v) => v.0 == node_id.0,
                None => false,
            };
            if mine_verified {
                owned.push((c, ChunkStatus::Verified));
            } else if mine_assigned {
                owned.push((c, e.status));
            }
            i = i + 1;
        }
        proof {
            assert(self.chunk_ownership.key_seq().take(n as int) =~= self.chunk_ownership.key_seq());
            assert(self.chunk_ownership.val_seq().take(n as int) =~= self.chunk_ownership.val_seq());
        }
        OstFragment { node_id, epoch: self.term, owned_chunks: owned, last_updated: now }
    }

    /// Merge a fragment into the ownership state, chunk by chunk, keeping the
    /// higher status (see `merge_entry`). A fragment from an older epoch than
    /// the current term is ignored.
    pub fn merge_fragment(&mut self, fragment: OstFragment)
        requires
            old(self).wf(),
        ensures
            final(self).wf(),
            fragment.epoch < old(self)@.term ==> final(self)@ == old(self)@,
            fragment.epoch >= old(self)@.term ==> final(self)@ == (OverlayView {
                chunk_ownership: merge_all(old(self)@.chunk_ownership, fragment.owned_chunks@, fragment.node_id),
                ..old(self)@
            }),
    {
        if fragment.epoch < self.term {
            return;
        }
        let node = fragment.node_id;
        let owned = &fragment.owned_chunks;
        let mut i: usize = 0;
        while i < owned.len()
            invariant
                self.wf(),
                i <= owned@.len(),
                self@ == (OverlayView {
                    chunk_ownership: merge_all(old(self)@.chunk_ownership, owned@.take(i as int), node),
                    ..old(self)@
                }),
            decreases owned.len() - i,
        {
            let (chunk_id, status) = owned[i];
            proof {
                assert(owned@.take(i + 1).drop_last() =~= owned@.take(i as int));
                assert(owned@.take(i + 1).last() == (chunk_id, status));
            }
            let key = chunk_id.0 as u64;
            let current = match self.chunk_ownership.get(key) {
                Some(e) => *e,
                None => ChunkOwnership::new(chunk_id),
            };
            let mut entry = current;
            if status.rank() > entry.status.rank() {
                entry.status = status;
                if status.is_terminal() {
                    entry.verified_by = Some(node);
                } else if status == ChunkStatus::InProgress || status == ChunkStatus::Assigned {
                    entry.assigned_to = Some(node);
                }
            }
            self.chunk_ownership.insert(key, entry);
            i = i + 1;
        }
        assert(owned@.take(i as int) =~= owned@);
    }
}

/// The highest status rank `owned` reports for chunk key `key` (zero when none).
pub open spec fn max_reported(owned: Seq<(ChunkId, ChunkStatus)>, key: u64) -> nat
    decreases owned.len(),
{
    if owned.len() == 0 {
        0
    } else {
        let rest = max_reported(owned.drop_last(), key);
        let here: nat = if owned.last().0.0 as u64 == key { status_rank(owned.last().1) } else { 0 };
        if here > rest { here } else { rest }
    }
}

/// Whether `owned` reports anything for chunk key `key`.
pub open spec fn reported(owned: Seq<(ChunkId, ChunkStatus)>, key: u64) -> bool {
    exists|i: int| 0 <= i < owned.len() && owned[i].0.0 as u64 == key
}

/// The rank of the status `m` holds for `key` (zero without an entry).
pub open spec fn held_rank(m: Map<u64, ChunkOwnership>, key: u64) -> nat {
    if m.contains_key(key) { status_rank(m[key].status) } else { 0 }
}

proof fn lemma_merge_entry_rank(e: ChunkOwnership, status: ChunkStatus, node: NodeId)
    ensures
        status_rank(merge_entry(e, status, node).status) == if status_rank(status) > status_rank(e.status) {
            status_rank(status)
        } else {
            status_rank(e.status)
        },
        merge_entry(e, status, node).chunk_id == e.chunk_id,
{
}

/// An id is among the available ids of `vals` exactly when some node of
/// `vals` with that id is `Active` or the `Coordinator`.
proof fn lemma_available_ids_contains(vals: Seq<Node>, x: NodeId)
    ensures
        available_ids(vals).contains(x) <==> exists|i: int|
            0 <= i < vals.len() && vals[i].id == x && (vals[i].status is Active || vals[i].status is Coordinator),
    decreases vals.len(),
{
    if vals.len() > 0 {
        let p = vals.drop_last();
        lemma_available_ids_contains(p, x);
        let last = vals.last();
        if exists|i: int| 0 <= i < p.len() && p[i].id == x && (p[i].status is Active || p[i].status is Coordinator) {
            let i = choose|i: int| 0 <= i < p.len() && p[i].id == x && (p[i].status is Active || p[i].status is Coordinator);
            assert(vals[i] == p[i]);
        }
        if exists|i: int| 0 <= i < vals.len() && vals[i].id == x && (vals[i].status is Active || vals[i].status is Coordinator) {
            let i = choose|i: int| 0 <= i < vals.len() && vals[i].id == x && (vals[i].status is Active || vals[i].status is Coordinator);
            if i < p.len() {
                assert(p[i] == vals[i]);
            }
        }
        let rest = available_ids(p);
        if status_available(last.status) {
            assert(available_ids(vals) == rest.push(last.id));
            assert(available_ids(vals).contains(x) <==> (rest.contains(x) || last.id == x)) by {
                if rest.push(last.id).contains(x) {
                    let j = choose|j: int| 0 <= j < rest.push(last.id).len() && rest.push(last.id)[j] == x;
                    if j < rest.len() {
                        assert(rest[j] == x);
                    }
                }
                if rest.contains(x) {
                    let j = choose|j: int| 0 <= j < rest.len() && rest[j] == x;
                    assert(rest.push(last.id)[j] == x);
                }
                if last.id == x {
                    assert(rest.push(last.id)[rest.len() as int] == x);
                }
            }
            assert(vals[vals.len() - 1] == last);
        }
    }
}

/// Law: the active nodes listed by [`OverlayStateTable::active_nodes`] are
/// exactly the nodes that are `Active` or the `Coordinator`: a crashed,
/// disconnected, joining or low-battery node is never listed.
pub proof fn lemma_active_nodes_are_working(t: &OverlayStateTable, listed: Seq<NodeId>)
    requires
        listed.to_multiset() == available_ids(t.node_values()).to_multiset(),
    ensures
        forall|x: NodeId| #[trigger] listed.contains(x) <==> exists|i: int|
            0 <= i < t.node_values().len() && t.node_values()[i].id == x && (t.node_values()[i].status is Active
                || t.node_values()[i].status is Coordinator),
{
    assert forall|x: NodeId| #[trigger] listed.contains(x) <==> exists|i: int|
        0 <= i < t.node_values().len() && t.node_values()[i].id == x && (t.node_values()[i].status is Active
            || t.node_values()[i].status is Coordinator) by {
        let av = available_ids(t.node_values());
        listed.to_multiset_ensures();
        av.to_multiset_ensures();
        assert(listed.to_multiset().count(x) == av.to_multiset().count(x));
        assert(listed.contains(x) <==> listed.to_multiset().count(x) > 0);
        assert(av.contains(x) <==> av.to_multiset().count(x) > 0);
        lemma_available_ids_contains(t.node_values(), x);
    }
}

/// Whether `owned` reports chunk key `key` as assigned or in progress.
pub open spec fn reports_work(owned: Seq<(ChunkId, ChunkStatus)>, key: u64) -> bool {
    exists|i: int| 0 <= i < owned.len() && owned[i].0.0 as u64 == key && (owned[i].1 is Assigned || owned[i].1 is InProgress)
}

/// Law: a merge records who did what. For a chunk that a fragment from
/// `node` reports:
/// - it is recorded as verified by `node` exactly when the fragment reports it
///   verified and it was not verified before; otherwise its verifier stays;
/// - its assignee stays unless the fragment reports it assigned or in
///   progress; when the fragment's highest report for it is assigned or in
///   progress and above what it held, `node` becomes its assignee.
pub proof fn lemma_merge_records_reporter(m: Map<u64, ChunkOwnership>, owned: Seq<(ChunkId, ChunkStatus)>, node: NodeId, key: u64)
    requires
        merge_all(m, owned, node).contains_key(key),
    ensures
        merge_all(m, owned, node)[key].verified_by == if held_rank(m, key) < 3 && max_reported(owned, key) == 3 {
            Some(node)
        } else if m.contains_key(key) {
            m[key].verified_by
        } else {
            None
        },
        !reports_work(owned, key) ==> merge_all(m, owned, node)[key].assigned_to == if m.contains_key(key) {
            m[key].assigned_to
        } else {
            None
        },
        (max_reported(owned, key) == 1 || max_reported(owned, key) == 2) && held_rank(m, key) < max_reported(owned, key)
            ==> merge_all(m, owned, node)[key].assigned_to == Some(node),
    decreases owned.len(),
{
    if owned.len() > 0 {
        let prefix = owned.drop_last();
        let prev = merge_all(m, prefix, node);
        let (c, st) = owned.last();
        let ck = c.0 as u64;
        lemma_merge_takes_max(m, prefix, node);
        if reports_work(prefix, key) {
            let i = choose|i: int| 0 <= i < prefix.len() && prefix[i].0.0 as u64 == key && (prefix[i].1 is Assigned || prefix[i].1 is InProgress);
            assert(owned[i] == prefix[i]);
        }
        if key != ck {
            assert(prev.contains_key(key));
            lemma_merge_records_reporter(m, prefix, node, key);
        } else {
            assert(owned[owned.len() - 1] == (c, st));
            if prev.contains_key(key) {
                lemma_merge_records_reporter(m, prefix, node, key);
                assert(held_rank(prev, key) == status_rank(prev[key].status));
            } else {
                assert(!m.contains_key(key));
                if reported(prefix, key) {
                    assert(prev.contains_key(key));
                }
                lemma_max_reported_zero(prefix, key);
            }
            if st is Assigned || st is InProgress {
                assert(reports_work(owned, key));
            }
        }
    }
}

/// Law: merging a fragment keeps every existing entry, adds one for each reported
/// chunk, and leaves each chunk with the highest status among the one it held and
/// the ones reported for it: statuses only ever advance.
pub proof fn lemma_merge_takes_max(m: Map<u64, ChunkOwnership>, owned: Seq<(ChunkId, ChunkStatus)>, node: NodeId)
    ensures
        forall|key: u64| #[trigger] merge_all(m, owned, node).contains_key(key) <==> (m.contains_key(key) || reported(owned, key)),
        forall|key: u64| #[trigger] merge_all(m, owned, node).contains_key(key) ==> status_rank(merge_all(m, owned, node)[key].status)
            == if held_rank(m, key) > max_reported(owned, key) { held_rank(m, key) } else { max_reported(owned, key) },
    decreases owned.len(),
{
    if owned.len() > 0 {
        let prefix = owned.drop_last();
        lemma_merge_takes_max(m, prefix, node);
        let prev = merge_all(m, prefix, node);
        let (c, st) = owned.last();
        let ck = c.0 as u64;
        lemma_merge_entry_rank(entry_or_fresh(prev, c), st, node);
        assert forall|key: u64| #[trigger] merge_all(m, owned, node).contains_key(key) <==> (m.contains_key(key) || reported(owned, key)) by {
            if reported(prefix, key) {
                let i = choose|i: int| 0 <= i < prefix.len() && prefix[i].0.0 as u64 == key;
                assert(owned[i] == prefix[i]);
            }
            if reported(owned, key) && key != ck {
                let i = choose|i: int| 0 <= i < owned.len() && owned[i].0.0 as u64 == key;
                assert(i < owned.len() - 1);
                assert(prefix[i] == owned[i]);
            }
            if key == ck {
                assert(owned[owned.len() - 1].0.0 as u64 == key);
            }
        }
        assert forall|key: u64| #[trigger] merge_all(m, owned, node).contains_key(key) implies status_rank(merge_all(m, owned, node)[key].status)
            == if held_rank(m, key) > max_reported(owned, key) { held_rank(m, key) } else { max_reported(owned, key) } by {
            if key == ck {
                if !prev.contains_key(key) {
                    assert(!m.contains_key(key));
                    lemma_max_reported_zero(prefix, key);
                }
            } else {
                assert(prev.contains_key(key));
            }
        }
    }
}

/// Nothing reported for `key` means a zero maximum.
proof fn lemma_max_reported_zero(owned: Seq<(ChunkId, ChunkStatus)>, key: u64)
    requires
        !reported(owned, key),
    ensures
        max_reported(owned, key) == 0,
    decreases owned.len(),
{
    if owned.len() > 0 {
        let prefix = owned.drop_last();
        if reported(prefix, key) {
            let i = choose|i: int| 0 <= i < prefix.len() && prefix[i].0.0 as u64 == key;
            assert(owned[i] == prefix[i]);
        }
        lemma_max_reported_zero(prefix, key);
        if owned.last().0.0 as u64 == key {
            assert(owned[owned.len() - 1].0.0 as u64 == key);
        }
    }
}

/// Merging pairs that are all already dominated by the map changes nothing.
proof fn lemma_merge_dominated(r: Map<u64, ChunkOwnership>, owned: Seq<(ChunkId, ChunkStatus)>, node: NodeId)
    requires
        forall|i: int| 0 <= i < owned.len() ==> r.contains_key(#[trigger] owned[i].0.0 as u64),
        forall|i: int| 0 <= i < owned.len() ==> status_rank(#[trigger] owned[i].1) <= status_rank(r[owned[i].0.0 as u64].status),
        forall|k: u64| #[trigger] r.contains_key(k) ==> r[k].chunk_id.0 as u64 == k,
    ensures
        merge_all(r, owned, node) == r,
    decreases owned.len(),
{
    if owned.len() > 0 {
        let prefix = owned.drop_last();
        assert forall|i: int| 0 <= i < prefix.len() implies r.contains_key(#[trigger] prefix[i].0.0 as u64) by {
            assert(prefix[i] == owned[i]);
        }
        assert forall|i: int| 0 <= i < prefix.len() implies status_rank(#[trigger] prefix[i].1) <= status_rank(r[prefix[i].0.0 as u64].status) by {
            assert(prefix[i] == owned[i]);
        }
        lemma_merge_dominated(r, prefix, node);
        let (c, st) = owned.last();
        assert(r.contains_key(owned[owned.len() - 1].0.0 as u64));
        assert(merge_all(r, owned, node) =~= r);
    }
}

/// Every entry of a merged map is stored under its own chunk id.
proof fn lemma_merge_keys_match(m: Map<u64, ChunkOwnership>, owned: Seq<(ChunkId, ChunkStatus)>, node: NodeId)
    requires
        forall|k: u64| #[trigger] m.contains_key(k) ==> m[k].chunk_id.0 as u64 == k,
    ensures
        forall|k: u64| #[trigger] merge_all(m, owned, node).contains_key(k) ==> merge_all(m, owned, node)[k].chunk_id.0 as u64 == k,
    decreases owned.len(),
{
    if owned.len() > 0 {
        lemma_merge_keys_match(m, owned.drop_last(), node);
        let prev = merge_all(m, owned.drop_last(), node);
        let (c, st) = owned.last();
        lemma_merge_entry_rank(entry_or_fresh(prev, c), st, node);
    }
}

/// Law: merging the same fragment a second time changes nothing (for an
/// ownership map whose entries are stored under their own chunk ids).
pub proof fn lemma_merge_idempotent(m: Map<u64, ChunkOwnership>, owned: Seq<(ChunkId, ChunkStatus)>, node: NodeId)
    requires
        forall|k: u64| #[trigger] m.contains_key(k) ==> m[k].chunk_id.0 as u64 == k,
    ensures
        merge_all(merge_all(m, owned, node), owned, node) == merge_all(m, owned, node),
{
    let r = merge_all(m, owned, node);
    lemma_merge_takes_max(m, owned, node);
    lemma_merge_keys_match(m, owned, node);
    assert forall|i: int| 0 <= i < owned.len() implies r.contains_key(#[trigger] owned[i].0.0 as u64) by {
        let key = owned[i].0.0 as u64;
        assert(reported(owned, key));
    }
    assert forall|i: int| 0 <= i < owned.len() implies status_rank(#[trigger] owned[i].1) <= status_rank(r[owned[i].0.0 as u64].status) by {
        let key = owned[i].0.0 as u64;
        assert(reported(owned, key));
        assert(r.contains_key(key));
        lemma_max_reported_bound(owned, i);
    }
    lemma_merge_dominated(r, owned, node);
}

proof fn lemma_max_reported_bound(owned: Seq<(ChunkId, ChunkStatus)>, i: int)
    requires
        0 <= i < owned.len(),
    ensures
        status_rank(owned[i].1) <= max_reported(owned, owned[i].0.0 as u64),
    decreases owned.len(),
{
    if i < owned.len() - 1 {
        lemma_max_reported_bound(owned.drop_last(), i);
        assert(owned.drop_last()[i] == owned[i]);
    }
}

/// Law: a verified chunk never regresses: merging any fragment leaves its entry,
/// verifier included, exactly as it was.
pub proof fn lemma_merge_keeps_verified(m: Map<u64, ChunkOwnership>, owned: Seq<(ChunkId, ChunkStatus)>, node: NodeId, key: u64)
    requires
        m.contains_key(key),
        m[key].status == ChunkStatus::Verified,
    ensures
        merge_all(m, owned, node).contains_key(key),
        merge_all(m, owned, node)[key] == m[key],
    decreases owned.len(),
{
    if owned.len() > 0 {
        lemma_merge_keeps_verified(m, owned.drop_last(), node, key);
    }
}

/// Law: the status a chunk ends with does not depend on the order in which two
/// fragments are merged (only who is recorded as assignee may).
pub proof fn lemma_merge_order_independent_status(
    m: Map<u64, ChunkOwnership>,
    a: Seq<(ChunkId, ChunkStatus)>,
    node_a: NodeId,
    b: Seq<(ChunkId, ChunkStatus)>,
    node_b: NodeId,
    key: u64,
)
    ensures
        merge_all(merge_all(m, a, node_a), b, node_b).contains_key(key) == merge_all(merge_all(m, b, node_b), a, node_a).contains_key(key),
        merge_all(merge_all(m, a, node_a), b, node_b).contains_key(key) ==> status_rank(
            merge_all(merge_all(m, a, node_a), b, node_b)[key].status,
        ) == status_rank(merge_all(merge_all(m, b, node_b), a, node_a)[key].status),
{
    lemma_merge_takes_max(m, a, node_a);
    lemma_merge_takes_max(m, b, node_b);
    lemma_merge_takes_max(merge_all(m, a, node_a), b, node_b);
    lemma_merge_takes_max(merge_all(m, b, node_b), a, node_a);
    if !reported(a, key) {
        lemma_max_reported_zero(a, key);
    }
    if !reported(b, key) {
        lemma_max_reported_zero(b, key);
    }
    let ab = merge_all(m, a, node_a);
    let ba = merge_all(m, b, node_b);
    assert(ab.contains_key(key) <==> (m.contains_key(key) || reported(a, key)));
    assert(ba.contains_key(key) <==> (m.contains_key(key) || reported(b, key)));
    let abb = merge_all(ab, b, node_b);
    let baa = merge_all(ba, a, node_a);
    assert(abb.contains_key(key) <==> (ab.contains_key(key) || reported(b, key)));
    assert(baa.contains_key(key) <==> (ba.contains_key(key) || reported(a, key)));
    if abb.contains_key(key) {
        assert(baa.contains_key(key));
        if ab.contains_key(key) {
            assert(held_rank(ab, key) == status_rank(ab[key].status));
        }
        if ba.contains_key(key) {
            assert(held_rank(ba, key) == status_rank(ba[key].status));
        }
        assert(status_rank(abb[key].status) == if held_rank(ab, key) > max_reported(b, key) { held_rank(ab, key) } else { max_reported(b, key) });
        assert(status_rank(baa[key].status) == if held_rank(ba, key) > max_reported(a, key) { held_rank(ba, key) } else { max_reported(a, key) });
    }
}

} // verus!
