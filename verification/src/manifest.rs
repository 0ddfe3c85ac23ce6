//! Manifests: the integrity contract of a transfer.
//!
//! A manifest fixes how a file is cut into chunks, the BLAKE3 digest of every
//! chunk and of the whole file. Correctness of a transfer never rests on
//! trusting peers: it rests on checking data against the manifest.
use vstd::prelude::*;

use crate::chunk::ChunkMeta;
use crate::digest::{
    blake3_digest, blake3_hash, copy_range, digests_equal, hashed_input, hasher_finalize, hasher_new,
    hasher_update,
};
use crate::types::{is_v4_uuid, ChunkId, ManifestId, SimTime};

verus! {

/// Where a manifest's data comes from.
#[derive(Debug, Clone)]
pub enum ManifestSource {
    /// A file seeded by a local node.
    LocalFile { path: String },
    /// An HTTP(S) URL of known size, fetched by bonded download.
    HttpUrl { url: String, mirrors: Vec<String>, etag: Option<String>, last_modified: Option<String> },
    /// A magnet-link-style descriptor.
    DorDescriptor { info_hash: [u8; 32] },
}

/// The integrity contract for a cooperative file transfer.
#[derive(Debug, Clone)]
pub struct Manifest {
    /// Unique manifest identifier.
    pub id: ManifestId,
    /// Human-readable name (e.g. the file name).
    pub name: String,
    /// Total file size in bytes.
    pub total_size: u64,
    /// Ordered list of chunks.
    pub chunks: Vec<ChunkMeta>,
    /// BLAKE3 digest of the entire file.
    pub file_hash: [u8; 32],
    /// Chunk size used for splitting (the last chunk may be smaller).
    pub chunk_size: u32,
    /// The source of this manifest's data.
    pub source: ManifestSource,
    /// When this manifest was created (simulation time).
    pub created_at: SimTime,
}

/// The bytes of `data` covered by piece `k` when cut into pieces of `size` bytes.
pub open spec fn piece(data: Seq<u8>, size: nat, k: int) -> Seq<u8> {
    let start = k * size;
    let end = if (k + 1) * size <= data.len() { (k + 1) * size } else { data.len() as int };
    data.subrange(start, end)
}

/// `chunks` describe `data` cut into pieces of `size` bytes: just enough
/// pieces to cover it, each with its index as id, its offset, its length and
/// its BLAKE3 digest.
pub open spec fn chunks_of(chunks: Seq<ChunkMeta>, data: Seq<u8>, size: nat) -> bool {
    &&& chunks.len() * size >= data.len()
    &&& (chunks.len() == 0 || (chunks.len() - 1) * size < data.len())
    &&& forall|k: int| 0 <= k < chunks.len() ==> {
        &&& (#[trigger] chunks[k]).id == ChunkId(k as u32)
        &&& chunks[k].offset == k * size
        &&& chunks[k].size == piece(data, size, k).len()
        &&& chunks[k].hash@ == blake3_digest(piece(data, size, k))
    }
}

proof fn lemma_mul_step(k: int, size: int)
    ensures
        (k + 1) * size == k * size + size,
{
    assert((k + 1) * size == k * size + size) by (nonlinear_arith);
}

impl Manifest {
    /// A manifest for `data`: cut into chunks of `chunk_size` bytes (the last
    /// one may be shorter), each chunk and the whole file hashed with BLAKE3.
    pub fn from_data(name: &str, data: &[u8], chunk_size: u32, source: ManifestSource, created_at: SimTime) -> (m: Manifest)
        requires
            chunk_size > 0,
        ensures
            m.name@ == name@,
            m.total_size == data@.len(),
            chunks_of(m.chunks@, data@, chunk_size as nat),
            m.file_hash@ == blake3_digest(data@),
            m.chunk_size == chunk_size,
            m.source == source,
            m.created_at == created_at,
            is_v4_uuid(m.id.0),
    {
        let file_hash = blake3_hash(data);
        let n = data.len();
        let cs = chunk_size as usize;
        let mut chunks: Vec<ChunkMeta> = Vec::new();
        let mut start: usize = 0;
        let mut k: usize = 0;
        while start < n
            invariant
                cs == chunk_size,
                cs > 0,
                n == data@.len(),
                start <= n,
                k == chunks@.len(),
                start == k * cs || (start == n && k > 0 && (k - 1) * cs < n <= k * cs),
                start < n ==> start == k * cs,
                k > 0 ==> (k - 1) * cs < n,
                forall|j: int| 0 <= j < k ==> {
                    &&& (#[trigger] chunks@[j]).id == ChunkId(j as u32)
                    &&& chunks@[j].offset == j * cs
                    &&& chunks@[j].size == piece(data@, cs as nat, j).len()
                    &&& chunks@[j].hash@ == blake3_digest(piece(data@, cs as nat, j))
                },
            decreases n - start,
        {
            proof {
                lemma_mul_step(k as int, cs as int);
                assert(k <= k * cs) by (nonlinear_arith)
                    requires
                        cs >= 1,
                ;
            }
            let end = if n - start <= cs { n } else { start + cs };
            let bytes = copy_range(data, start, end);
            let h = blake3_hash(bytes.as_slice());
            proof {
                assert(bytes@ == piece(data@, cs as nat, k as int));
            }
            chunks.push(ChunkMeta { id: ChunkId(k as u32), offset: start as u64, size: (end - start) as u32, hash: h });
            start = end;
            k = k + 1;
        }
        Manifest {
            id: ManifestId::new(),
            name: name.to_owned(),
            total_size: n as u64,
            chunks,
            file_hash,
            chunk_size,
            source,
            created_at,
        }
    }

    /// Number of chunks.
    pub fn chunk_count(&self) -> (n: usize)
        ensures
            n == self.chunks@.len(),
    {
        self.chunks.len()
    }

    /// The metadata of chunk `id`, which is the chunk at position `id`.
    pub fn get_chunk(&self, id: ChunkId) -> (r: Option<&ChunkMeta>)
        ensures
            (id.0 as int) < self.chunks@.len() ==> r == Some(&self.chunks@[id.0 as int]),
            (id.0 as int) >= self.chunks@.len() ==> r is None,
    {
        let i = id.0 as usize;
        if i < self.chunks.len() {
            Some(&self.chunks[i])
        } else {
            None
        }
    }

    /// Whether `data` is chunk `chunk_id` of this manifest: the chunk exists
    /// and `data` has its BLAKE3 digest.
    pub fn verify_chunk(&self, chunk_id: ChunkId, data: &[u8]) -> (r: bool)
        ensures
            r == ((chunk_id.0 as int) < self.chunks@.len() && blake3_digest(data@) == self.chunks@[chunk_id.0 as int].hash@),
    {
        match self.get_chunk(chunk_id) {
            Some(meta) => {
                let actual = blake3_hash(data);
                digests_equal(&actual, &meta.hash)
            },
            None => false,
        }
    }

    /// Whether `data` is the whole file: the right size and the file's BLAKE3 digest.
    pub fn verify_file(&self, data: &[u8]) -> (r: bool)
        ensures
            r == (data@.len() == self.total_size && blake3_digest(data@) == self.file_hash@),
    {
        if data.len() as u64 != self.total_size {
            return false;
        }
        let actual = blake3_hash(data);
        digests_equal(&actual, &self.file_hash)
    }

    /// All chunk ids, in chunk order.
    pub fn chunk_ids(&self) -> (r: Vec<ChunkId>)
        ensures
            r@.len() == self.chunks@.len(),
            forall|k: int| 0 <= k < r@.len() ==> #[trigger] r@[k] == self.chunks@[k].id,
    {
        let mut r: Vec<ChunkId> = Vec::new();
        let mut k: usize = 0;
        while k < self.chunks.len()
            invariant
                k <= self.chunks@.len(),
                r@.len() == k,
                forall|j: int| 0 <= j < k ==> #[trigger] r@[j] == self.chunks@[j].id,
            decreases self.chunks.len() - k,
        {
            r.push(self.chunks[k].id);
            k = k + 1;
        }
        r
    }
}

/// Builds a manifest from data that arrives in blocks of the chunk size, the
/// last block possibly shorter, without keeping the data itself.
#[derive(Debug)]
pub struct ManifestBuilder {
    chunk_size: u32,
    chunks: Vec<ChunkMeta>,
    offset: u64,
    hasher: blake3::Hasher,
    complete: bool,
}

proof fn lemma_mul_le(a: int, b: int, size: int)
    requires
        a <= b,
        size >= 0,
    ensures
        a * size <= b * size,
{
    assert(a * size <= b * size) by (nonlinear_arith)
        requires
            a <= b,
            size >= 0,
    ;
}

impl ManifestBuilder {
    /// Every byte added so far, in order.
    pub closed spec fn input(&self) -> Seq<u8> {
        hashed_input(self.hasher)
    }

    /// The chunk size the data is cut by.
    pub closed spec fn size(&self) -> u32 {
        self.chunk_size
    }

    /// The chunks recorded so far.
    pub closed spec fn chunk_list(&self) -> Seq<ChunkMeta> {
        self.chunks@
    }

    /// No short block has been added yet, so more blocks may follow.
    pub closed spec fn open(&self) -> bool {
        !self.complete
    }

    /// The recorded chunks describe the input, and while the builder is open
    /// every block so far was a full one.
    pub closed spec fn wf(&self) -> bool {
        &&& self.chunk_size > 0
        &&& self.offset == self.input().len()
        &&& chunks_of(self.chunks@, self.input(), self.chunk_size as nat)
        &&& !self.complete ==> self.input().len() == self.chunks@.len() * self.chunk_size
    }

    /// A builder cutting data into chunks of `chunk_size` bytes.
    pub fn new(chunk_size: u32) -> (b: Self)
        requires
            chunk_size > 0,
        ensures
            b.wf(),
            b.open(),
            b.size() == chunk_size,
            b.input() == Seq::<u8>::empty(),
            b.chunk_list() == Seq::<ChunkMeta>::empty(),
    {
        let chunks: Vec<ChunkMeta> = Vec::new();
        let hasher = hasher_new();
        let b = ManifestBuilder { chunk_size, chunks, offset: 0, hasher, complete: false };
        assert(b.chunks@ =~= Seq::<ChunkMeta>::empty());
        assert(b.input().len() == 0);
        let ghost n = b.chunks@.len();
        assert(n * (chunk_size as nat) == 0) by (nonlinear_arith)
            requires
                n == 0,
        ;
        b
    }

    /// Add the next block of data: a full chunk, or a shorter final one after
    /// which the builder takes no more.
    pub fn add_block(&mut self, block: &[u8])
        requires
            old(self).wf(),
            old(self).open(),
            0 < block@.len() <= old(self).size(),
            old(self).input().len() + block@.len() <= u64::MAX,
            old(self).chunk_list().len() < u32::MAX,
        ensures
            final(self).wf(),
            final(self).size() == old(self).size(),
            final(self).input() == old(self).input() + block@,
            final(self).open() == (block@.len() == old(self).size()),
            final(self).chunk_list().len() == old(self).chunk_list().len() + 1,
            chunks_of(final(self).chunk_list(), final(self).input(), final(self).size() as nat),
    {
        let ghost before = self.input();
        let ghost k = self.chunks@.len() as int;
        let ghost cs = self.chunk_size as int;
        let h = blake3_hash(block);
        hasher_update(&mut self.hasher, block);
        let id = ChunkId(self.chunks.len() as u32);
        self.chunks.push(ChunkMeta { id, offset: self.offset, size: block.len() as u32, hash: h });
        self.offset = self.offset + block.len() as u64;
        if block.len() < self.chunk_size as usize {
            self.complete = true;
        }
        proof {
            let after = self.input();
            lemma_mul_step(k, cs);
            assert(after.subrange(k * cs, after.len() as int) =~= block@);
            assert(piece(after, cs as nat, k) =~= block@);
            assert forall|j: int| 0 <= j < k implies #[trigger] piece(after, cs as nat, j) == piece(before, cs as nat, j) by {
                lemma_mul_le(j + 1, k, cs);
                lemma_mul_step(j, cs);
                assert(piece(after, cs as nat, j) =~= piece(before, cs as nat, j));
            }
            assert forall|j: int| 0 <= j < self.chunks@.len() implies {
                &&& (#[trigger] self.chunks@[j]).id == ChunkId(j as u32)
                &&& self.chunks@[j].offset == j * cs
                &&& self.chunks@[j].size == piece(after, cs as nat, j).len()
                &&& self.chunks@[j].hash@ == blake3_digest(piece(after, cs as nat, j))
            } by {
                if j < k {
                    assert(self.chunks@[j] == old(self).chunks@[j]);
                }
            }
        }
    }

    /// The manifest of all data added: chunk list, total size and file digest.
    pub fn finish(self, name: &str, source: ManifestSource, created_at: SimTime) -> (m: Manifest)
        requires
            self.wf(),
        ensures
            m.name@ == name@,
            m.total_size == self.input().len(),
            chunks_of(m.chunks@, self.input(), self.size() as nat),
            m.file_hash@ == blake3_digest(self.input()),
            m.chunk_size == self.size(),
            m.source == source,
            m.created_at == created_at,
            is_v4_uuid(m.id.0),
    {
        let file_hash = hasher_finalize(&self.hasher);
        Manifest {
            id: ManifestId::new(),
            name: name.to_owned(),
            total_size: self.offset,
            chunks: self.chunks,
            file_hash,
            chunk_size: self.chunk_size,
            source,
            created_at,
        }
    }
}

/// Cutting the same data by the same chunk size always gives the same chunk
/// list: a manifest built block by block equals one built from the whole data.
pub proof fn lemma_chunks_determined(a: Seq<ChunkMeta>, b: Seq<ChunkMeta>, data: Seq<u8>, size: nat)
    requires
        size > 0,
        chunks_of(a, data, size),
        chunks_of(b, data, size),
    ensures
        a == b,
{
    if a.len() < b.len() {
        lemma_mul_le(a.len() as int, b.len() - 1, size as int);
    } else if b.len() < a.len() {
        lemma_mul_le(b.len() as int, a.len() - 1, size as int);
    }
    assert forall|k: int| 0 <= k < a.len() implies a[k] == b[k] by {
        assert(a[k].hash@ == b[k].hash@);
        assert(a[k].hash == b[k].hash);
    }
    assert(a =~= b);
}

/// `a` and `b` name the same source.
pub open spec fn same_source(a: ManifestSource, b: ManifestSource) -> bool {
    match (a, b) {
        (ManifestSource::LocalFile { path: p }, ManifestSource::LocalFile { path: q }) => p == q,
        (
            ManifestSource::HttpUrl { url: u1, mirrors: m1, etag: e1, last_modified: l1 },
            ManifestSource::HttpUrl { url: u2, mirrors: m2, etag: e2, last_modified: l2 },
        ) => u1 == u2 && m1@ == m2@ && e1 == e2 && l1 == l2,
        (ManifestSource::DorDescriptor { info_hash: h1 }, ManifestSource::DorDescriptor { info_hash: h2 }) => h1 == h2,
        _ => false,
    }
}

/// `a` is a copy of `b`: every field holds the same value.
pub open spec fn same_manifest(a: Manifest, b: Manifest) -> bool {
    &&& a.id == b.id
    &&& a.name == b.name
    &&& a.total_size == b.total_size
    &&& a.chunks@ == b.chunks@
    &&& a.file_hash == b.file_hash
    &&& a.chunk_size == b.chunk_size
    &&& same_source(a.source, b.source)
    &&& a.created_at == b.created_at
}

fn copy_text(s: &Option<String>) -> (r: Option<String>)
    ensures
        r == *s,
{
    match s {
        Some(t) => Some(t.clone()),
        None => None,
    }
}

fn copy_texts(v: &Vec<String>) -> (r: Vec<String>)
    ensures
        r@ == v@,
{
    let mut r: Vec<String> = Vec::new();
    let mut i: usize = 0;
    while i < v.len()
        invariant
            i <= v@.len(),
            r@ == v@.take(i as int),
        decreases v.len() - i,
    {
        r.push(v[i].clone());
        i = i + 1;
        assert(r@ =~= v@.take(i as int));
    }
    assert(v@.take(i as int) =~= v@);
    r
}

fn copy_source(s: &ManifestSource) -> (r: ManifestSource)
    ensures
        same_source(r, *s),
{
    match s {
        ManifestSource::LocalFile { path } => ManifestSource::LocalFile { path: path.clone() },
        ManifestSource::HttpUrl { url, mirrors, etag, last_modified } => ManifestSource::HttpUrl {
            url: url.clone(),
            mirrors: copy_texts(mirrors),
            etag: copy_text(etag),
            last_modified: copy_text(last_modified),
        },
        ManifestSource::DorDescriptor { info_hash } => ManifestSource::DorDescriptor { info_hash: *info_hash },
    }
}

/// A copy of `m`.
pub fn copy_manifest(m: &Manifest) -> (r: Manifest)
    ensures
        same_manifest(r, *m),
{
    let mut chunks = Vec::new();
    let mut i: usize = 0;
    while i < m.chunks.len()
        invariant
            i <= m.chunks@.len(),
            chunks@ == m.chunks@.take(i as int),
        decreases m.chunks.len() - i,
    {
        chunks.push(m.chunks[i]);
        i = i + 1;
        assert(chunks@ =~= m.chunks@.take(i as int));
    }
    assert(m.chunks@.take(i as int) =~= m.chunks@);
    Manifest {
        id: m.id,
        name: m.name.clone(),
        total_size: m.total_size,
        chunks,
        file_hash: m.file_hash,
        chunk_size: m.chunk_size,
        source: copy_source(&m.source),
        created_at: m.created_at,
    }
}

} // verus!
