//! Bonded downloads: one URL fetched by the whole swarm.
//!
//! The coordinator cuts the URL into byte-range chunks and hands them out in
//! batches to whichever node asks for more work, so faster links naturally
//! take more of the file.
use vstd::prelude::*;

use std::collections::VecDeque;

use crate::chunk::ChunkMeta;
use crate::manifest::Manifest;
use crate::node::NodeConfig;
use crate::ordered_map::OrderedMap;
use crate::types::{ChunkId, NodeId};
use crate::url_manifest::{manifest_from_url_info, range_chunks, UrlResourceInfo, DEFAULT_BONDED_CHUNK_SIZE};

verus! {

/// Largest total size of a batch, unless its first chunk alone is larger: 8 MiB.
pub const MAX_BATCH_BYTES: u64 = 8388608;

/// Status of a bonded download.
#[derive(Debug, Clone, PartialEq, Eq)]
pub enum BondedStatus {
    /// Probing the URL for size and range support.
    Probing,
    /// Assigning chunks to nodes.
    Scheduling,
    /// Nodes are downloading their assigned ranges.
    Downloading,
    /// LAN transfer phase: chunks moving to the requester.
    Assembling,
    /// Download complete.
    Completed,
    /// Download failed.
    Failed(String),
}

/// Throughput average after a new sample: the first sample is taken as is;
/// after that the new sample weighs three tenths, rounded down.
pub open spec fn next_average(prev: u64, sample: u64) -> u64 {
    if prev == 0 {
        sample
    } else {
        ((3 * sample + 7 * prev) / 10) as u64
    }
}

/// Per-node speed observation for the progress view.
#[derive(Debug, Clone, Copy, PartialEq, Eq, Structural)]
pub struct NodeSpeedObservation {
    /// Moving average of throughput in bytes per second.
    pub avg_throughput_bps: u64,
    /// Number of chunks completed by this node.
    pub chunks_completed: u32,
    /// Total bytes downloaded by this node.
    pub bytes_downloaded: u64,
}

impl NodeSpeedObservation {
    /// No observation yet.
    pub fn new() -> (r: Self)
        ensures
            r == (NodeSpeedObservation { avg_throughput_bps: 0, chunks_completed: 0, bytes_downloaded: 0 }),
    {
        NodeSpeedObservation { avg_throughput_bps: 0, chunks_completed: 0, bytes_downloaded: 0 }
    }

    /// Take in one finished chunk of `chunk_bytes` bytes fetched at `throughput_bps`.
    pub fn update(&mut self, throughput_bps: u64, chunk_bytes: u64)
        requires
            old(self).chunks_completed < u32::MAX,
            old(self).bytes_downloaded + chunk_bytes <= u64::MAX,
        ensures
            final(self).avg_throughput_bps == next_average(old(self).avg_throughput_bps, throughput_bps),
            final(self).chunks_completed == old(self).chunks_completed + 1,
            final(self).bytes_downloaded == old(self).bytes_downloaded + chunk_bytes,
    {
        if self.avg_throughput_bps == 0 {
            self.avg_throughput_bps = throughput_bps;
        } else {
            let v = (3 * (throughput_bps as u128) + 7 * (self.avg_throughput_bps as u128)) / 10;
            proof {
                assert(v <= u64::MAX) by (nonlinear_arith)
                    requires
                        v == (3 * (throughput_bps as u128) + 7 * (self.avg_throughput_bps as u128)) / 10,
                ;
            }
            self.avg_throughput_bps = v as u64;
        }
        self.chunks_completed = self.chunks_completed + 1;
        self.bytes_downloaded = self.bytes_downloaded + chunk_bytes;
    }
}

/// Chunk `c` names a chunk of `m`.
pub open spec fn names_chunk(m: Manifest, c: ChunkId) -> bool {
    (c.0 as int) < m.chunks@.len()
}

/// The range entry handed out for chunk `c` of `m`: its id, offset and size.
pub open spec fn range_entry(m: Manifest, c: ChunkId) -> (ChunkId, u64, u32) {
    (m.chunks@[c.0 as int].id, m.chunks@[c.0 as int].offset, m.chunks@[c.0 as int].size)
}

/// The entries for the valid chunks among the first `k` queued ids, in order.
pub open spec fn batch_of(m: Manifest, q: Seq<ChunkId>, k: int) -> Seq<(ChunkId, u64, u32)>
    decreases k,
{
    if k <= 0 {
        Seq::empty()
    } else if names_chunk(m, q[k - 1]) {
        batch_of(m, q, k - 1).push(range_entry(m, q[k - 1]))
    } else {
        batch_of(m, q, k - 1)
    }
}

/// Total size of a batch.
pub open spec fn batch_bytes(b: Seq<(ChunkId, u64, u32)>) -> nat
    decreases b.len(),
{
    if b.len() == 0 {
        0
    } else {
        batch_bytes(b.drop_last()) + (b.last().2 as nat)
    }
}

/// Handing out stops before queued id `k`: the queue is exhausted, or the
/// chunk is valid and would push a non-empty batch past the size limit.
pub open spec fn stops_at(m: Manifest, q: Seq<ChunkId>, k: int) -> bool {
    k == q.len() || (names_chunk(m, q[k]) && batch_of(m, q, k).len() > 0 && batch_bytes(batch_of(m, q, k))
        + m.chunks@[q[k].0 as int].size > MAX_BATCH_BYTES)
}

/// Sum of the throughput averages.
pub open spec fn total_average(s: Seq<NodeSpeedObservation>) -> nat
    decreases s.len(),
{
    if s.len() == 0 {
        0
    } else {
        total_average(s.drop_last()) + (s.last().avg_throughput_bps as nat)
    }
}

/// The first queued id at or after `j` before which handing out stops.
pub open spec fn stop_from(m: Manifest, q: Seq<ChunkId>, j: int) -> int
    decreases q.len() - j,
{
    if j >= q.len() || stops_at(m, q, j) {
        j
    } else {
        stop_from(m, q, j + 1)
    }
}

/// How many queued ids one call of `dispense_batch` takes off the queue.
pub open spec fn first_stop(m: Manifest, q: Seq<ChunkId>) -> int {
    stop_from(m, q, 0)
}

proof fn lemma_stop_from(m: Manifest, q: Seq<ChunkId>, k: int, i: int)
    requires
        0 <= i <= k <= q.len(),
        stops_at(m, q, k),
        forall|j: int| 0 <= j < k ==> !#[trigger] stops_at(m, q, j),
    ensures
        stop_from(m, q, i) == k,
    decreases k - i,
{
    if i < k {
        lemma_stop_from(m, q, k, i + 1);
    }
}

/// The first batches that `nodes`, in turn, get from queue `q`, each with
/// the node it goes to; a node whose batch would be empty gets none.
pub open spec fn planned_batches(m: Manifest, q: Seq<ChunkId>, nodes: Seq<NodeId>) -> Seq<
    (NodeId, Seq<(ChunkId, u64, u32)>),
>
    decreases nodes.len(),
{
    if nodes.len() == 0 {
        Seq::empty()
    } else {
        let k = first_stop(m, q);
        let b = batch_of(m, q, k);
        let rest = planned_batches(m, q.skip(k), nodes.drop_first());
        if b.len() > 0 {
            seq![(nodes[0], b)] + rest
        } else {
            rest
        }
    }
}

/// The queue left after `nodes`, in turn, got their first batches from `q`.
pub open spec fn planned_rest(m: Manifest, q: Seq<ChunkId>, nodes: Seq<NodeId>) -> Seq<ChunkId>
    decreases nodes.len(),
{
    if nodes.len() == 0 {
        q
    } else {
        planned_rest(m, q.skip(first_stop(m, q)), nodes.drop_first())
    }
}

/// Sum of the chunks completed by each observed node.
pub open spec fn total_completed(s: Seq<NodeSpeedObservation>) -> nat
    decreases s.len(),
{
    if s.len() == 0 {
        0
    } else {
        total_completed(s.drop_last()) + (s.last().chunks_completed as nat)
    }
}

/// A bonded download in progress.
#[derive(Debug)]
pub struct BondedDownload {
    /// The URL being downloaded.
    pub url: String,
    /// The generated manifest.
    pub manifest: Manifest,
    /// URL resource info from probing.
    pub url_info: UrlResourceInfo,
    /// Where to save the file on the requesting node.
    pub output_path: String,
    /// The node that requested the download.
    pub requester: NodeId,
    /// Current status.
    pub status: BondedStatus,
    /// Chunks not yet handed out, in order.
    pub unassigned_chunks: VecDeque<ChunkId>,
    /// Per-node speed observations, by node id.
    pub node_speeds: OrderedMap<NodeSpeedObservation>,
}

impl BondedDownload {
    /// A download of `manifest` with every chunk waiting to be handed out, in chunk order.
    pub fn new(url: String, url_info: UrlResourceInfo, manifest: Manifest, output_path: String, requester: NodeId) -> (r: Self)
        ensures
            r.url == url,
            r.url_info == url_info,
            r.manifest == manifest,
            r.output_path == output_path,
            r.requester == requester,
            r.status == BondedStatus::Scheduling,
            r.unassigned_chunks@.len() == manifest.chunks@.len(),
            forall|k: int| 0 <= k < manifest.chunks@.len() ==> #[trigger] r.unassigned_chunks@[k] == manifest.chunks@[k].id,
            r.node_speeds.wf(),
            r.node_speeds@ == Map::<u64, NodeSpeedObservation>::empty(),
    {
        let ids = manifest.chunk_ids();
        let mut queue: VecDeque<ChunkId> = VecDeque::new();
        let mut k: usize = 0;
        while k < ids.len()
            invariant
                k <= ids@.len(),
                queue@ == ids@.take(k as int),
            decreases ids.len() - k,
        {
            queue.push_back(ids[k]);
            k = k + 1;
            assert(queue@ =~= ids@.take(k as int));
        }
        assert(ids@.take(k as int) =~= ids@);
        BondedDownload {
            url,
            manifest,
            url_info,
            output_path,
            requester,
            status: BondedStatus::Scheduling,
            unassigned_chunks: queue,
            node_speeds: OrderedMap::new(),
        }
    }

    /// Hand out the next batch of chunks from the front of the queue: ids
    /// that name no chunk are dropped; chunks are taken while the batch stays
    /// within 8 MiB (its first chunk is always taken). The download is now
    /// downloading.
    pub fn dispense_batch(&mut self) -> (r: Vec<(ChunkId, u64, u32)>)
        ensures
            final(self).status == BondedStatus::Downloading,
            final(self).url == old(self).url,
            final(self).manifest == old(self).manifest,
            final(self).url_info == old(self).url_info,
            final(self).output_path == old(self).output_path,
            final(self).requester == old(self).requester,
            final(self).node_speeds == old(self).node_speeds,
            exists|k: int|
                0 <= k <= old(self).unassigned_chunks@.len() && stops_at(old(self).manifest, old(self).unassigned_chunks@, k)
                    && (forall|j: int| 0 <= j < k ==> !#[trigger] stops_at(old(self).manifest, old(self).unassigned_chunks@, j))
                    && r@ == batch_of(old(self).manifest, old(self).unassigned_chunks@, k)
                    && final(self).unassigned_chunks@ == old(self).unassigned_chunks@.skip(k),
            r@ == batch_of(old(self).manifest, old(self).unassigned_chunks@, first_stop(old(self).manifest, old(self).unassigned_chunks@)),
            final(self).unassigned_chunks@ == old(self).unassigned_chunks@.skip(
                first_stop(old(self).manifest, old(self).unassigned_chunks@),
            ),
    {
        self.status = BondedStatus::Downloading;
        let ghost q = self.unassigned_chunks@;
        let ghost m = self.manifest;
        let mut batch: Vec<(ChunkId, u64, u32)> = Vec::new();
        let mut bytes: u64 = 0;
        let ghost mut k: int = 0;
        loop
            invariant
                q == old(self).unassigned_chunks@,
                m == old(self).manifest,
                self.manifest == m,
                0 <= k <= q.len(),
                self.unassigned_chunks@ == q.skip(k),
                batch@ == batch_of(m, q, k),
                bytes == batch_bytes(batch@),
                bytes <= MAX_BATCH_BYTES || batch@.len() == 1,
                bytes <= u32::MAX + MAX_BATCH_BYTES,
                forall|j: int| 0 <= j < k ==> !#[trigger] stops_at(m, q, j),
                self.status == BondedStatus::Downloading,
                self.url == old(self).url,
                self.url_info == old(self).url_info,
                self.output_path == old(self).output_path,
                self.requester == old(self).requester,
                self.node_speeds == old(self).node_speeds,
            ensures
                0 <= k <= q.len(),
                stops_at(m, q, k),
                forall|j: int| 0 <= j < k ==> !#[trigger] stops_at(m, q, j),
                batch@ == batch_of(m, q, k),
                self.unassigned_chunks@ == q.skip(k),
                self.status == BondedStatus::Downloading,
                self.manifest == m,
                self.url == old(self).url,
                self.url_info == old(self).url_info,
                self.output_path == old(self).output_path,
                self.requester == old(self).requester,
                self.node_speeds == old(self).node_speeds,
            decreases q.len() - k,
        {
            if self.unassigned_chunks.len() == 0 {
                proof {
                    assert(q.skip(k).len() == 0);
                }
                break;
            }
            let id = self.unassigned_chunks[0];
            proof {
                assert(id == q[k]);
            }
            match self.manifest.get_chunk(id) {
                Some(meta) => {
                    let size = meta.size;
                    let entry = (meta.id, meta.offset, meta.size);
                    if batch.len() > 0 && bytes + size as u64 > MAX_BATCH_BYTES {
                        break;
                    }
                    self.unassigned_chunks.pop_front();
                    proof {
                        assert(q.skip(k).subrange(1, q.skip(k).len() as int) =~= q.skip(k + 1));
                        assert(batch@.push(entry).drop_last() =~= batch@);
                    }
                    batch.push(entry);
                    bytes = bytes + size as u64;
                    proof {
                        k = k + 1;
                    }
                },
                None => {
                    self.unassigned_chunks.pop_front();
                    proof {
                        assert(q.skip(k).subrange(1, q.skip(k).len() as int) =~= q.skip(k + 1));
                        k = k + 1;
                    }
                },
            }
        }
        proof {
            lemma_stop_from(m, q, k, 0);
        }
        batch
    }

    /// Record that `node_id` finished a chunk of `chunk_bytes` bytes at `throughput_bps`.
    pub fn record_speed(&mut self, node_id: NodeId, throughput_bps: u64, chunk_bytes: u64)
        requires
            old(self).node_speeds.wf(),
            old(self).node_speeds@.contains_key(node_id.0) ==> old(self).node_speeds@[node_id.0].chunks_completed < u32::MAX
                && old(self).node_speeds@[node_id.0].bytes_downloaded + chunk_bytes <= u64::MAX,
        ensures
            final(self).node_speeds.wf(),
            final(self).status == old(self).status,
            final(self).manifest == old(self).manifest,
            final(self).unassigned_chunks == old(self).unassigned_chunks,
            final(self).node_speeds@.dom() == old(self).node_speeds@.dom().insert(node_id.0),
            forall|n: u64| n != node_id.0 && #[trigger] old(self).node_speeds@.contains_key(n) ==> final(self).node_speeds@[n] == old(self).node_speeds@[n],
            ({
                let prev = if old(self).node_speeds@.contains_key(node_id.0) {
                    old(self).node_speeds@[node_id.0]
                } else {
                    NodeSpeedObservation { avg_throughput_bps: 0, chunks_completed: 0, bytes_downloaded: 0 }
                };
                final(self).node_speeds@[node_id.0] == NodeSpeedObservation {
                    avg_throughput_bps: next_average(prev.avg_throughput_bps, throughput_bps),
                    chunks_completed: (prev.chunks_completed + 1) as u32,
                    bytes_downloaded: (prev.bytes_downloaded + chunk_bytes) as u64,
                }
            }),
    {
        let mut obs = match self.node_speeds.get(node_id.0) {
            Some(o) => *o,
            None => NodeSpeedObservation::new(),
        };
        obs.update(throughput_bps, chunk_bytes);
        self.node_speeds.insert(node_id.0, obs);
    }

    /// Sum of the throughput averages of every node that reported.
    pub fn combined_bandwidth_bps(&self) -> (r: u64)
        requires
            self.node_speeds.wf(),
            total_average(self.node_speeds.val_seq()) <= u64::MAX,
        ensures
            r == total_average(self.node_speeds.val_seq()),
    {
        proof {
            self.node_speeds.lemma_view();
        }
        let n = self.node_speeds.len();
        let mut total: u64 = 0;
        let mut i: usize = 0;
        while i < n
            invariant
                self.node_speeds.wf(),
                n == self.node_speeds.key_seq().len(),
                n == self.node_speeds.val_seq().len(),
                total_average(self.node_speeds.val_seq()) <= u64::MAX,
                i <= n,
                total == total_average(self.node_speeds.val_seq().take(i as int)),
            decreases n - i,
        {
            proof {
                let s = self.node_speeds.val_seq();
                assert(s.take(i + 1).drop_last() =~= s.take(i as int));
                lemma_total_average_take(s, i + 1);
            }
            total = total + self.node_speeds.value_at(i).avg_throughput_bps;
            i = i + 1;
        }
        proof {
            assert(self.node_speeds.val_seq().take(n as int) =~= self.node_speeds.val_seq());
        }
        total
    }

    /// Chunks completed so far over all reporting nodes, the count behind the
    /// download's progress.
    pub fn completed_chunk_count(&self) -> (r: u32)
        requires
            self.node_speeds.wf(),
            total_completed(self.node_speeds.val_seq()) <= u32::MAX,
        ensures
            r == total_completed(self.node_speeds.val_seq()),
    {
        proof {
            self.node_speeds.lemma_view();
        }
        let n = self.node_speeds.len();
        let mut total: u32 = 0;
        let mut i: usize = 0;
        while i < n
            invariant
                self.node_speeds.wf(),
                n == self.node_speeds.key_seq().len(),
                n == self.node_speeds.val_seq().len(),
                total_completed(self.node_speeds.val_seq()) <= u32::MAX,
                i <= n,
                total == total_completed(self.node_speeds.val_seq().take(i as int)),
            decreases n - i,
        {
            proof {
                let s = self.node_speeds.val_seq();
                assert(s.take(i + 1).drop_last() =~= s.take(i as int));
                lemma_total_completed_take(s, i + 1);
            }
            total = total + self.node_speeds.value_at(i).chunks_completed;
            i = i + 1;
        }
        proof {
            assert(self.node_speeds.val_seq().take(n as int) =~= self.node_speeds.val_seq());
        }
        total
    }

    /// Each reporting node's id with its throughput average, by increasing id.
    pub fn node_speed_map(&self) -> (r: Vec<(u64, u64)>)
        requires
            self.node_speeds.wf(),
        ensures
            r@.len() == self.node_speeds.key_seq().len(),
            forall|i: int| 0 <= i < r@.len() ==> #[trigger] r@[i] == (
                self.node_speeds.key_seq()[i],
                self.node_speeds.val_seq()[i].avg_throughput_bps,
            ),
    {
        proof {
            self.node_speeds.lemma_view();
        }
        let n = self.node_speeds.len();
        let mut r: Vec<(u64, u64)> = Vec::new();
        let mut i: usize = 0;
        while i < n
            invariant
                self.node_speeds.wf(),
                n == self.node_speeds.key_seq().len(),
                n == self.node_speeds.val_seq().len(),
                i <= n,
                r@.len() == i,
                forall|j: int| 0 <= j < i ==> #[trigger] r@[j] == (
                    self.node_speeds.key_seq()[j],
                    self.node_speeds.val_seq()[j].avg_throughput_bps,
                ),
            decreases n - i,
        {
            r.push((self.node_speeds.key_at(i), self.node_speeds.value_at(i).avg_throughput_bps));
            i = i + 1;
        }
        r
    }

    /// Mark the download as completed.
    pub fn complete(&mut self)
        ensures
            final(self).status == BondedStatus::Completed,
            final(self).manifest == old(self).manifest,
            final(self).unassigned_chunks == old(self).unassigned_chunks,
            final(self).node_speeds == old(self).node_speeds,
    {
        self.status = BondedStatus::Completed;
    }

    /// Mark the download as failed for `reason`.
    pub fn fail(&mut self, reason: String)
        ensures
            final(self).status == BondedStatus::Failed(reason),
            final(self).manifest == old(self).manifest,
            final(self).unassigned_chunks == old(self).unassigned_chunks,
            final(self).node_speeds == old(self).node_speeds,
    {
        self.status = BondedStatus::Failed(reason);
    }

    /// Rebalancing happens through work stealing (nodes ask for the next
    /// batch when done), so there is never anything to reassign here.
    pub fn rebalance(&mut self, nodes: &[(NodeId, NodeConfig)], completed_chunks: &[ChunkId]) -> (r: Vec<
        (NodeId, Vec<(ChunkId, u64, u32)>),
    >)
        ensures
            r@.len() == 0,
            final(self).status == old(self).status,
            final(self).manifest == old(self).manifest,
            final(self).unassigned_chunks == old(self).unassigned_chunks,
            final(self).node_speeds == old(self).node_speeds,
    {
        Vec::new()
    }
}

proof fn lemma_total_completed_take(s: Seq<NodeSpeedObservation>, k: int)
    requires
        0 <= k <= s.len(),
    ensures
        total_completed(s.take(k)) <= total_completed(s),
    decreases s.len(),
{
    if k < s.len() {
        let d = s.drop_last();
        assert(d.take(k) =~= s.take(k));
        lemma_total_completed_take(d, k);
    } else {
        assert(s.take(k) =~= s);
    }
}

proof fn lemma_total_average_take(s: Seq<NodeSpeedObservation>, k: int)
    requires
        0 <= k <= s.len(),
    ensures
        total_average(s.take(k)) <= total_average(s),
    decreases s.len(),
{
    if k < s.len() {
        let d = s.drop_last();
        assert(d.take(k) =~= s.take(k));
        lemma_total_average_take(d, k);
    } else {
        assert(s.take(k) =~= s);
    }
}

/// The chunk size of a bonded download: the one asked for, or the default
/// of 256 KiB when zero is asked for.
pub fn bonded_chunk_size(requested: u32) -> (r: u32)
    ensures
        r == if requested > 0 { requested } else { DEFAULT_BONDED_CHUNK_SIZE },
{
    if requested > 0 {
        requested
    } else {
        DEFAULT_BONDED_CHUNK_SIZE
    }
}

/// The ids of `nodes`, in order.
pub open spec fn node_ids(nodes: Seq<(NodeId, NodeConfig)>) -> Seq<NodeId> {
    nodes.map_values(|p: (NodeId, NodeConfig)| p.0)
}

/// The ids of the chunks of `m`, in order.
pub open spec fn chunk_queue(m: Manifest) -> Seq<ChunkId> {
    m.chunks@.map_values(|c: ChunkMeta| c.id)
}

/// The coordinator's side of starting a bonded download once the URL has
/// been probed: the manifest (chunks of `chunk_size` bytes, 256 KiB by
/// default; named after the suggested file name, else `bonded_download`),
/// the download, and a first batch for each node in turn that gets one.
pub fn plan_bonded_download(
    url: &str,
    output_path: &str,
    requester_id: NodeId,
    nodes: &[(NodeId, NodeConfig)],
    chunk_size: Option<u32>,
    url_info: UrlResourceInfo,
) -> (r: (BondedDownload, Vec<(NodeId, Vec<(ChunkId, u64, u32)>)>))
    requires
        ({
            let cs = match chunk_size {
                Some(c) => c,
                None => DEFAULT_BONDED_CHUNK_SIZE,
            };
            &&& cs > 0 || url_info.total_size == 0
            &&& url_info.total_size <= (cs as nat) * (u32::MAX as nat)
        }),
    ensures
        ({
            let cs = match chunk_size {
                Some(c) => c,
                None => DEFAULT_BONDED_CHUNK_SIZE,
            };
            let m = r.0.manifest;
            let plan = planned_batches(m, chunk_queue(m), node_ids(nodes@));
            &&& r.0.url@ == url@
            &&& r.0.output_path@ == output_path@
            &&& r.0.requester == requester_id
            &&& r.0.url_info == url_info
            &&& m.name@ == match url_info.suggested_filename {
                Some(n) => n@,
                None => "bonded_download"@,
            }
            &&& m.total_size == url_info.total_size
            &&& m.chunk_size == cs
            &&& range_chunks(m.chunks@, url_info.total_size as nat, cs as nat)
            &&& r.0.status == if nodes@.len() > 0 { BondedStatus::Downloading } else { BondedStatus::Scheduling }
            &&& r.0.node_speeds.wf()
            &&& r.0.node_speeds@ == Map::<u64, NodeSpeedObservation>::empty()
            &&& r.0.unassigned_chunks@ == planned_rest(m, chunk_queue(m), node_ids(nodes@))
            &&& r.1@.len() == plan.len()
            &&& forall|i: int| 0 <= i < r.1@.len() ==> (#[trigger] r.1@[i]).0 == plan[i].0 && r.1@[i].1@ == plan[i].1
        }),
{
    let cs = match chunk_size {
        Some(c) => c,
        None => DEFAULT_BONDED_CHUNK_SIZE,
    };
    let name = match &url_info.suggested_filename {
        Some(n) => n.clone(),
        None => String::from_str("bonded_download"),
    };
    let manifest = manifest_from_url_info(&url_info, url, name.as_str(), cs);
    let mut download = BondedDownload::new(url.to_owned(), url_info, manifest, output_path.to_owned(), requester_id);
    let ghost m = download.manifest;
    let ghost q0 = download.unassigned_chunks@;
    let ghost ns = node_ids(nodes@);
    let ghost total = planned_batches(m, q0, ns);
    proof {
        assert(q0 =~= chunk_queue(m));
        assert(nodes@.skip(0) =~= nodes@);
        assert(ns.skip(0) =~= ns);
        assert(total.skip(0) =~= total);
    }
    let mut per_node: Vec<(NodeId, Vec<(ChunkId, u64, u32)>)> = Vec::new();
    let mut i: usize = 0;
    while i < nodes.len()
        invariant
            i <= nodes@.len(),
            ns == node_ids(nodes@),
            total == planned_batches(m, q0, ns),
            download.manifest == m,
            download.url@ == url@,
            download.output_path@ == output_path@,
            download.requester == requester_id,
            download.url_info == url_info,
            download.node_speeds.wf(),
            download.node_speeds@ == Map::<u64, NodeSpeedObservation>::empty(),
            download.status == if i > 0 { BondedStatus::Downloading } else { BondedStatus::Scheduling },
            per_node@.len() <= total.len(),
            forall|j: int| 0 <= j < per_node@.len() ==> (#[trigger] per_node@[j]).0 == total[j].0 && per_node@[j].1@ == total[j].1,
            planned_batches(m, download.unassigned_chunks@, ns.skip(i as int)) == total.skip(per_node@.len() as int),
            planned_rest(m, download.unassigned_chunks@, ns.skip(i as int)) == planned_rest(m, q0, ns),
        decreases nodes.len() - i,
    {
        let ghost qi = download.unassigned_chunks@;
        let ghost l = per_node@.len() as int;
        let batch = download.dispense_batch();
        proof {
            let rest_nodes = ns.skip(i as int);
            assert(rest_nodes.drop_first() =~= ns.skip(i + 1));
            assert(rest_nodes[0] == nodes@[i as int].0);
        }
        if batch.len() > 0 {
            proof {
                let b = batch_of(m, qi, first_stop(m, qi));
                let rest = planned_batches(m, qi.skip(first_stop(m, qi)), ns.skip(i + 1));
                assert(total.skip(l) == seq![(nodes@[i as int].0, b)] + rest);
                assert(total.skip(l)[0] == total[l]);
                assert(total.skip(l + 1) =~= rest) by {
                    assert(total.skip(l + 1) =~= total.skip(l).drop_first());
                    assert((seq![(nodes@[i as int].0, b)] + rest).drop_first() =~= rest);
                }
            }
            per_node.push((nodes[i].0, batch));
        }
        i = i + 1;
    }
    proof {
        assert(ns.skip(i as int) =~= Seq::<NodeId>::empty());
        assert(total.skip(per_node@.len() as int).len() == 0);
    }
    (download, per_node)
}

proof fn lemma_batch_split(m: Manifest, q: Seq<ChunkId>, k: int, j: int)
    requires
        0 <= k,
        0 <= j,
        k + j <= q.len(),
    ensures
        batch_of(m, q, k + j) == batch_of(m, q, k) + batch_of(m, q.skip(k), j),
    decreases j,
{
    if j == 0 {
        assert(batch_of(m, q, k) + batch_of(m, q.skip(k), 0) =~= batch_of(m, q, k));
    } else {
        lemma_batch_split(m, q, k, j - 1);
        assert(q.skip(k)[j - 1] == q[k + j - 1]);
        if names_chunk(m, q[k + j - 1]) {
            assert(batch_of(m, q, k) + batch_of(m, q.skip(k), j) =~= (batch_of(m, q, k) + batch_of(m, q.skip(k), j - 1)).push(
                range_entry(m, q[k + j - 1]),
            ));
        }
    }
}

proof fn lemma_stop_from_props(m: Manifest, q: Seq<ChunkId>, j: int)
    requires
        0 <= j <= q.len(),
    ensures
        j <= stop_from(m, q, j) <= q.len(),
        stop_from(m, q, j) < q.len() ==> stops_at(m, q, stop_from(m, q, j)),
        forall|t: int| j <= t < stop_from(m, q, j) ==> !#[trigger] stops_at(m, q, t),
    decreases q.len() - j,
{
    if j < q.len() && !stops_at(m, q, j) {
        lemma_stop_from_props(m, q, j + 1);
    }
}

proof fn lemma_batch_within_limit(m: Manifest, q: Seq<ChunkId>, k: int)
    requires
        0 <= k <= q.len(),
        forall|t: int| 0 <= t < k ==> !#[trigger] stops_at(m, q, t),
    ensures
        batch_bytes(batch_of(m, q, k)) <= MAX_BATCH_BYTES || batch_of(m, q, k).len() <= 1,
    decreases k,
{
    if k > 0 {
        lemma_batch_within_limit(m, q, k - 1);
        assert(!stops_at(m, q, k - 1));
        if names_chunk(m, q[k - 1]) {
            let b = batch_of(m, q, k - 1);
            assert(batch_of(m, q, k).drop_last() =~= b);
        }
    }
}

/// Law: a batch is as full as the 8 MiB limit allows. What one call of
/// [`BondedDownload::dispense_batch`] hands out totals at most 8 MiB (unless
/// it is a single larger chunk), and when it leaves the queue not empty, the
/// queue goes on with a valid chunk that would take the batch past 8 MiB: a
/// chunk that keeps the batch within 8 MiB, exactly 8 MiB included, is always
/// taken.
pub proof fn lemma_batch_is_full(m: Manifest, q: Seq<ChunkId>, batch: Seq<(ChunkId, u64, u32)>, rest: Seq<ChunkId>)
    requires
        batch == batch_of(m, q, first_stop(m, q)),
        rest == q.skip(first_stop(m, q)),
    ensures
        batch_bytes(batch) <= MAX_BATCH_BYTES || batch.len() == 1,
        rest.len() > 0 ==> (rest[0].0 as int) < m.chunks@.len() && batch.len() > 0 && batch_bytes(batch)
            + m.chunks@[rest[0].0 as int].size > 8 * 1024 * 1024,
{
    lemma_stop_from_props(m, q, 0);
    let k = first_stop(m, q);
    lemma_batch_within_limit(m, q, k);
    if rest.len() > 0 {
        assert(rest[0] == q[k]);
    }
}

/// Handing out batches never loses nor repeats a chunk: what one call hands
/// out, followed by everything the remaining queue can still hand out, is
/// exactly the valid chunks of the queue, in order. And a call on a
/// non-empty queue always takes at least one id off it, so repeated calls
/// empty the queue.
pub proof fn lemma_batches_partition(m: Manifest, q: Seq<ChunkId>, k: int)
    requires
        0 <= k <= q.len(),
    ensures
        batch_of(m, q, q.len() as int) == batch_of(m, q, k) + batch_of(m, q.skip(k), q.len() - k),
        q.len() > 0 ==> !stops_at(m, q, 0),
{
    lemma_batch_split(m, q, k, q.len() - k);
}

} // verus!
