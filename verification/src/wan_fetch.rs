//! HTTP byte-range fetching for bonded downloads: planning the requests and
//! cutting the answers into chunks.
//!
//! Assignments that sit next to each other in the file are merged into one
//! request of at most 8 MiB; the answer is then cut back into the chunks it
//! covers, each hashed with BLAKE3.
use vstd::prelude::*;
use vstd::string::*;

use crate::digest::{blake3_digest, blake3_hash, copy_range};
use crate::text::{decimal_digits, push_decimal};

verus! {

/// Largest total size of one merged range request: 8 MiB.
pub const MAX_AGGREGATE_SIZE: u64 = 8388608;

/// One assignment: chunk id, byte offset and size.
pub type RangeAssignment = (u32, u64, u32);

/// `s` is a stable ordering of `a` by offset, with `perm` telling where each
/// entry of `s` came from: a rearrangement of `a`, offsets non-decreasing,
/// and entries with equal offsets in the order they were given.
pub open spec fn stable_by_offset(a: Seq<RangeAssignment>, s: Seq<RangeAssignment>, perm: Seq<int>) -> bool {
    &&& s.len() == a.len()
    &&& perm.len() == a.len()
    &&& forall|i: int| 0 <= i < perm.len() ==> 0 <= #[trigger] perm[i] < a.len() && s[i] == a[perm[i]]
    &&& forall|i: int, j: int| 0 <= i < j < perm.len() ==> #[trigger] perm[i] != #[trigger] perm[j]
    &&& forall|i: int, j: int| 0 <= i < j < s.len() ==> #[trigger] s[i].1 <= #[trigger] s[j].1
    &&& forall|i: int, j: int| 0 <= i < j < s.len() && s[i].1 == s[j].1 ==> #[trigger] perm[i] < #[trigger] perm[j]
}

/// Byte just past the end of assignment `x`.
pub open spec fn end_of(x: RangeAssignment) -> int {
    x.1 + x.2
}

/// Total size of a block of assignments.
pub open spec fn block_size(b: Seq<RangeAssignment>) -> nat
    decreases b.len(),
{
    if b.len() == 0 {
        0
    } else {
        block_size(b.drop_last()) + (b.last().2 as nat)
    }
}

/// The blocks, one after the other.
pub open spec fn flatten(bs: Seq<Seq<RangeAssignment>>) -> Seq<RangeAssignment>
    decreases bs.len(),
{
    if bs.len() == 0 {
        Seq::empty()
    } else {
        flatten(bs.drop_last()) + bs.last()
    }
}

/// A block: non-empty, each entry starting where the previous one ends, and
/// every prefix past the first entry within the size limit.
pub open spec fn is_block(b: Seq<RangeAssignment>) -> bool {
    &&& b.len() > 0
    &&& forall|t: int| 0 < t < b.len() ==> #[trigger] b[t].1 == end_of(b[t - 1]) && block_size(b.take(t + 1))
        <= MAX_AGGREGATE_SIZE
}

/// `bs` groups `s` greedily: the blocks spell out `s`, each is a block, and
/// each block ends only because the next entry does not start where it ends
/// or would take it past the size limit.
pub open spec fn greedy_blocks(s: Seq<RangeAssignment>, bs: Seq<Seq<RangeAssignment>>) -> bool {
    &&& flatten(bs) == s
    &&& forall|i: int| 0 <= i < bs.len() ==> is_block(#[trigger] bs[i])
    &&& forall|i: int| 0 < i < bs.len() ==> !(#[trigger] bs[i][0].1 == end_of(bs[i - 1].last()) && block_size(bs[i - 1])
        + bs[i][0].2 <= MAX_AGGREGATE_SIZE)
}

/// `a` ordered stably by offset, with where each entry came from.
fn sort_by_offset(a: &[RangeAssignment]) -> (r: (Vec<RangeAssignment>, Ghost<Seq<int>>))
    ensures
        stable_by_offset(a@, r.0@, r.1@),
{
    let mut out: Vec<RangeAssignment> = Vec::new();
    let ghost mut perm: Seq<int> = Seq::empty();
    let mut i: usize = 0;
    while i < a.len()
        invariant
            i <= a@.len(),
            out@.len() == i,
            perm.len() == i,
            forall|t: int| 0 <= t < perm.len() ==> 0 <= #[trigger] perm[t] < i && out@[t] == a@[perm[t]],
            forall|t: int, u: int| 0 <= t < u < perm.len() ==> #[trigger] perm[t] != #[trigger] perm[u],
            forall|t: int, u: int| 0 <= t < u < out@.len() ==> #[trigger] out@[t].1 <= #[trigger] out@[u].1,
            forall|t: int, u: int| 0 <= t < u < out@.len() && out@[t].1 == out@[u].1 ==> #[trigger] perm[t] < #[trigger] perm[u],
        decreases a.len() - i,
    {
        let x = a[i];
        let mut p: usize = 0;
        while p < out.len() && out[p].1 <= x.1
            invariant
                p <= out@.len(),
                forall|t: int| 0 <= t < p ==> out@[t].1 <= x.1,
            decreases out.len() - p,
        {
            p = p + 1;
        }
        let ghost before = out@;
        let ghost pb = perm;
        proof {
            assert forall|t: int| p <= t < before.len() implies before[t].1 > x.1 by {
                if t > p {
                    assert(before[p as int].1 <= before[t].1);
                }
            }
        }
        out.insert(p, x);
        proof {
            perm = pb.insert(p as int, i as int);
            assert forall|t: int| 0 <= t < perm.len() implies 0 <= #[trigger] perm[t] < i + 1 && out@[t] == a@[perm[t]] by {
                if t < p {
                    assert(perm[t] == pb[t]);
                } else if t > p {
                    assert(perm[t] == pb[t - 1]);
                }
            }
            assert forall|t: int, u: int| 0 <= t < u < perm.len() implies #[trigger] perm[t] != #[trigger] perm[u] by {
                if t < p && u < p {
                } else if t < p && u == p {
                    assert(pb[t] < i);
                } else if t < p {
                    assert(perm[u] == pb[u - 1]);
                } else if t == p {
                    assert(perm[u] == pb[u - 1]);
                    assert(pb[u - 1] < i);
                } else {
                    assert(perm[u] == pb[u - 1]);
                    assert(perm[t] == pb[t - 1]);
                }
            }
            assert forall|t: int, u: int| 0 <= t < u < out@.len() implies #[trigger] out@[t].1 <= #[trigger] out@[u].1 by {
                if u < p {
                } else if u == p {
                } else if t < p {
                    assert(out@[u] == before[u - 1]);
                } else if t == p {
                    assert(out@[u] == before[u - 1]);
                } else {
                    assert(out@[u] == before[u - 1]);
                    assert(out@[t] == before[t - 1]);
                }
            }
            assert forall|t: int, u: int| 0 <= t < u < out@.len() && out@[t].1 == out@[u].1 implies #[trigger] perm[t] < #[trigger] perm[u] by {
                if u < p {
                } else if u == p {
                    assert(pb[t] < i);
                } else if t < p {
                    assert(out@[u] == before[u - 1]);
                    assert(perm[u] == pb[u - 1]);
                } else if t == p {
                    assert(out@[u] == before[u - 1]);
                } else {
                    assert(out@[u] == before[u - 1]);
                    assert(out@[t] == before[t - 1]);
                    assert(perm[u] == pb[u - 1]);
                    assert(perm[t] == pb[t - 1]);
                }
            }
        }
        i = i + 1;
    }
    (out, Ghost(perm))
}

proof fn lemma_flatten_push(bs: Seq<Seq<RangeAssignment>>, b: Seq<RangeAssignment>)
    ensures
        flatten(bs.push(b)) == flatten(bs) + b,
{
    assert(bs.push(b).drop_last() =~= bs);
}

proof fn lemma_block_size_push(b: Seq<RangeAssignment>, x: RangeAssignment)
    ensures
        block_size(b.push(x)) == block_size(b) + x.2,
{
    assert(b.push(x).drop_last() =~= b);
}

/// Block size of a contiguous run: where it ends minus where it starts.
proof fn lemma_contiguous_size(b: Seq<RangeAssignment>)
    requires
        b.len() > 0,
        forall|t: int| 0 < t < b.len() ==> #[trigger] b[t].1 == end_of(b[t - 1]),
    ensures
        block_size(b) == end_of(b.last()) - b[0].1,
    decreases b.len(),
{
    let d = b.drop_last();
    assert(block_size(b) == block_size(d) + (b.last().2 as nat));
    if b.len() > 1 {
        assert forall|t: int| 0 < t < d.len() implies #[trigger] d[t].1 == end_of(d[t - 1]) by {
            assert(d[t] == b[t] && d[t - 1] == b[t - 1]);
        }
        lemma_contiguous_size(d);
        assert(b[b.len() - 1].1 == end_of(b[b.len() - 2]));
    } else {
        assert(block_size(d) == 0);
    }
}

/// Group assignments into merged range requests: ordered by offset, runs of
/// assignments that each start where the previous one ends are merged while
/// the merged size stays within 8 MiB.
#[verifier::spinoff_prover]
#[verifier::rlimit(50)]
pub fn group_into_blocks(assignments: &[RangeAssignment]) -> (r: Vec<Vec<RangeAssignment>>)
    requires
        forall|i: int| 0 <= i < assignments@.len() ==> #[trigger] end_of(assignments@[i]) <= u64::MAX,
    ensures
        exists|s: Seq<RangeAssignment>, perm: Seq<int>|
            stable_by_offset(assignments@, s, perm) && greedy_blocks(s, r@.map_values(|b: Vec<RangeAssignment>| b@)),
{
    let (sorted, Ghost(perm)) = sort_by_offset(assignments);
    let ghost s = sorted@;
    proof {
        assert forall|t: int| 0 <= t < s.len() implies #[trigger] end_of(s[t]) <= u64::MAX by {
            assert(0 <= perm[t] < assignments@.len());
            assert(end_of(assignments@[perm[t]]) <= u64::MAX);
        }
    }
    let mut blocks: Vec<Vec<RangeAssignment>> = Vec::new();
    let mut current: Vec<RangeAssignment> = Vec::new();
    let mut cur_end: u64 = 0;
    let mut i: usize = 0;
    while i < sorted.len()
        invariant
            s == sorted@,
            forall|t: int| 0 <= t < s.len() ==> #[trigger] end_of(s[t]) <= u64::MAX,
            i <= s.len(),
            flatten(blocks@.map_values(|b: Vec<RangeAssignment>| b@)) + current@ == s.take(i as int),
            forall|k: int| 0 <= k < blocks@.len() ==> is_block(#[trigger] blocks@[k]@),
            forall|k: int| 0 < k < blocks@.len() ==> !(#[trigger] blocks@[k]@[0].1 == end_of(blocks@[k - 1]@.last())
                && block_size(blocks@[k - 1]@) + blocks@[k]@[0].2 <= MAX_AGGREGATE_SIZE),
            current@.len() == 0 ==> i == 0 || blocks@.len() > 0,
            current@.len() > 0 ==> is_block(current@) && cur_end == end_of(current@.last()),
            current@.len() > 0 && blocks@.len() > 0 ==> !(current@[0].1 == end_of(blocks@.last()@.last()) && block_size(
                blocks@.last()@,
            ) + current@[0].2 <= MAX_AGGREGATE_SIZE),
            current@.len() == 0 ==> i == 0,
        decreases s.len() - i,
    {
        let x = sorted[i];
        let ghost bview = blocks@.map_values(|b: Vec<RangeAssignment>| b@);
        proof {
            assert(s.take(i + 1) =~= s.take(i as int).push(x));
            assert(end_of(s[i as int]) <= u64::MAX);
        }
        if current.len() == 0 {
            current.push(x);
            cur_end = x.1 + x.2 as u64;
            proof {
                assert(current@ =~= seq![x]);
            }
        } else {
            let start = current[0].1;
            proof {
                lemma_contiguous_size(current@);
            }
            let size = cur_end - start;
            if x.1 == cur_end && size + x.2 as u64 <= MAX_AGGREGATE_SIZE {
                let ghost cb = current@;
                current.push(x);
                cur_end = x.1 + x.2 as u64;
                proof {
                    lemma_block_size_push(cb, x);
                    assert(current@.take(current@.len() as int) =~= current@);
                    assert forall|t: int| 0 < t < current@.len() implies #[trigger] current@[t].1 == end_of(current@[t - 1])
                        && block_size(current@.take(t + 1)) <= MAX_AGGREGATE_SIZE by {
                        if t < cb.len() {
                            assert(current@.take(t + 1) =~= cb.take(t + 1));
                        }
                    }
                }
            } else {
                let ghost cb = current@;
                let mut old_current: Vec<RangeAssignment> = Vec::new();
                std::mem::swap(&mut old_current, &mut current);
                blocks.push(old_current);
                current.push(x);
                cur_end = x.1 + x.2 as u64;
                proof {
                    let nview = blocks@.map_values(|b: Vec<RangeAssignment>| b@);
                    assert(nview =~= bview.push(cb));
                    lemma_flatten_push(bview, cb);
                    assert(current@ =~= seq![x]);
                    lemma_contiguous_size(cb);
                    assert forall|k: int| 0 < k < blocks@.len() implies !(#[trigger] blocks@[k]@[0].1 == end_of(blocks@[k - 1]@.last())
                        && block_size(blocks@[k - 1]@) + blocks@[k]@[0].2 <= MAX_AGGREGATE_SIZE) by {
                        if k == blocks@.len() - 1 {
                        }
                    }
                }
            }
        }
        proof {
            let nview = blocks@.map_values(|b: Vec<RangeAssignment>| b@);
            assert(flatten(nview) + current@ =~= s.take(i + 1));
        }
        i = i + 1;
    }
    if current.len() > 0 {
        let ghost bview = blocks@.map_values(|b: Vec<RangeAssignment>| b@);
        let ghost cb = current@;
        blocks.push(current);
        proof {
            let nview = blocks@.map_values(|b: Vec<RangeAssignment>| b@);
            assert(nview =~= bview.push(cb));
            lemma_flatten_push(bview, cb);
        }
    }
    proof {
        let nview = blocks@.map_values(|b: Vec<RangeAssignment>| b@);
        assert(s.take(s.len() as int) =~= s);
        assert(flatten(nview) =~= s);
        assert(stable_by_offset(assignments@, s, perm));
        assert(greedy_blocks(s, nview));
    }
    blocks
}

/// Result of downloading a chunk range, with timing information.
#[derive(Debug, Clone)]
pub struct FetchResult {
    /// The downloaded bytes.
    pub data: Vec<u8>,
    /// BLAKE3 digest of the downloaded data.
    pub hash: [u8; 32],
    /// Time taken to download, in milliseconds.
    pub elapsed_ms: u64,
    /// Effective throughput in bytes per second.
    pub throughput_bps: u64,
}

/// Throughput of `len` bytes fetched in `elapsed_ms` milliseconds, in bytes
/// per second; a fetch under a millisecond counts as taking a microsecond.
pub open spec fn throughput_of(len: nat, elapsed_ms: nat) -> nat {
    if elapsed_ms > 0 {
        len * 1000 / elapsed_ms
    } else {
        len * 1000000
    }
}

/// Throughput of `len` bytes fetched in `elapsed_ms` milliseconds.
pub fn throughput(len: u64, elapsed_ms: u64) -> (r: u64)
    requires
        len * 1000000 <= u64::MAX,
    ensures
        r == throughput_of(len as nat, elapsed_ms as nat),
{
    if elapsed_ms > 0 {
        proof {
            assert(len * 1000 <= len * 1000000) by (nonlinear_arith);
            assert((len * 1000) as int / (elapsed_ms as int) <= len * 1000) by (nonlinear_arith)
                requires
                    elapsed_ms > 0,
            ;
        }
        len * 1000 / elapsed_ms
    } else {
        len * 1000000
    }
}

/// The downloaded bytes with their digest and timing.
pub fn fetch_result(data: Vec<u8>, elapsed_ms: u64) -> (r: FetchResult)
    requires
        data@.len() * 1000000 <= u64::MAX,
    ensures
        r.data@ == data@,
        r.hash@ == blake3_digest(data@),
        r.elapsed_ms == elapsed_ms,
        r.throughput_bps == throughput_of(data@.len(), elapsed_ms as nat),
{
    let hash = blake3_hash(data.as_slice());
    let t = throughput(data.len() as u64, elapsed_ms);
    FetchResult { data, hash, elapsed_ms, throughput_bps: t }
}

/// The merged answer did not hold all the chunks of its block.
#[derive(Debug, Clone, Copy, PartialEq, Eq, Structural)]
pub struct ShortBody;

/// Sum of the sizes of the first `t` entries of a block.
pub open spec fn size_before(b: Seq<RangeAssignment>, t: int) -> nat {
    block_size(b.take(t))
}

/// `r` is `data` cut along `block`: the first `k` chunks fit in the data and
/// come out in order, each hashed and timed; if a chunk does not fit, one
/// `ShortBody` error follows and nothing more.
pub open spec fn split_ok(
    block: Seq<RangeAssignment>,
    data: Seq<u8>,
    elapsed_ms: u64,
    r: Seq<Result<(u32, FetchResult), ShortBody>>,
    k: int,
) -> bool {
    &&& 0 <= k <= block.len()
    &&& forall|t: int| 0 <= t < k ==> #[trigger] size_before(block, t + 1) <= data.len()
    &&& k < block.len() ==> size_before(block, k + 1) > data.len()
    &&& r.len() == (if k < block.len() { k + 1 } else { k })
    &&& k < block.len() ==> r[k] == Err::<(u32, FetchResult), ShortBody>(ShortBody)
    &&& forall|t: int| 0 <= t < k ==> (#[trigger] r[t] matches Ok((id, fr)) && id == block[t].0
        && fr.data@ == data.subrange(size_before(block, t) as int, size_before(block, t + 1) as int)
        && fr.hash@ == blake3_digest(fr.data@) && fr.elapsed_ms == elapsed_ms
        && fr.throughput_bps == throughput_of(data.len(), elapsed_ms as nat))
}

/// Cut the merged answer `data` for `block` back into its chunks, in order,
/// each hashed and given the block's timing. Stops with a `ShortBody` error
/// at the first chunk the data does not fully hold.
pub fn split_block(block: &[RangeAssignment], data: &[u8], elapsed_ms: u64) -> (r: Vec<Result<(u32, FetchResult), ShortBody>>)
    requires
        data@.len() * 1000000 <= u64::MAX,
    ensures
        exists|k: int| #[trigger] split_ok(block@, data@, elapsed_ms, r@, k),
{
    let tp = throughput(data.len() as u64, elapsed_ms);
    let mut r: Vec<Result<(u32, FetchResult), ShortBody>> = Vec::new();
    let mut cursor: usize = 0;
    let mut t: usize = 0;
    while t < block.len()
        invariant
            t <= block@.len(),
            cursor == size_before(block@, t as int),
            cursor <= data@.len(),
            tp == throughput_of(data@.len(), elapsed_ms as nat),
            r@.len() == t,
            forall|u: int| 0 <= u < t ==> #[trigger] size_before(block@, u + 1) <= data@.len(),
            forall|u: int| 0 <= u < t ==> (#[trigger] r@[u] matches Ok((id, fr)) && id == block@[u].0
                && fr.data@ == data@.subrange(size_before(block@, u) as int, size_before(block@, u + 1) as int)
                && fr.hash@ == blake3_digest(fr.data@) && fr.elapsed_ms == elapsed_ms
                && fr.throughput_bps == throughput_of(data@.len(), elapsed_ms as nat)),
        decreases block.len() - t,
    {
        let (id, _offset, size) = block[t];
        proof {
            assert(block@.take(t + 1).drop_last() =~= block@.take(t as int));
            assert(size_before(block@, t + 1) == cursor + size);
        }
        if size as usize > data.len() - cursor {
            r.push(Err(ShortBody));
            proof {
                assert forall|u: int| 0 <= u < t implies (#[trigger] r@[u] matches Ok((id, fr)) && id == block@[u].0
                    && fr.data@ == data@.subrange(size_before(block@, u) as int, size_before(block@, u + 1) as int)
                    && fr.hash@ == blake3_digest(fr.data@) && fr.elapsed_ms == elapsed_ms
                    && fr.throughput_bps == throughput_of(data@.len(), elapsed_ms as nat)) by {
                    assert(r@[u] == r@.drop_last()[u]);
                }
                assert(split_ok(block@, data@, elapsed_ms, r@, t as int));
            }
            return r;
        }
        let end = cursor + size as usize;
        let bytes = copy_range(data, cursor, end);
        let hash = blake3_hash(bytes.as_slice());
        let ghost rb = r@;
        r.push(Ok((id, FetchResult { data: bytes, hash, elapsed_ms, throughput_bps: tp })));
        proof {
            assert forall|u: int| 0 <= u < t + 1 implies (#[trigger] r@[u] matches Ok((id, fr)) && id == block@[u].0
                && fr.data@ == data@.subrange(size_before(block@, u) as int, size_before(block@, u + 1) as int)
                && fr.hash@ == blake3_digest(fr.data@) && fr.elapsed_ms == elapsed_ms
                && fr.throughput_bps == throughput_of(data@.len(), elapsed_ms as nat)) by {
                if u < t {
                    assert(r@[u] == rb[u]);
                }
            }
        }
        cursor = end;
        t = t + 1;
    }
    assert(split_ok(block@, data@, elapsed_ms, r@, t as int));
    r
}

/// The `Range` header asking for `size` bytes from `offset`.
pub open spec fn range_header_text(offset: nat, size: nat) -> Seq<char> {
    seq!['b', 'y', 't', 'e', 's', '='] + decimal_digits(offset) + seq!['-'] + decimal_digits((offset + size - 1) as nat)
}

/// The `Range` header value asking for `size` bytes from `offset`: `bytes=first-last`.
pub fn range_header(offset: u64, size: u32) -> (r: String)
    requires
        1 <= offset + size <= u64::MAX,
    ensures
        r@ == range_header_text(offset as nat, size as nat),
{
    let end = offset + size as u64 - 1;
    let mut s = String::from_str("bytes=");
    push_decimal(&mut s, offset);
    s.append("-");
    push_decimal(&mut s, end);
    proof {
        reveal_strlit("bytes=");
        reveal_strlit("-");
    }
    assert(s@ =~= range_header_text(offset as nat, size as nat));
    s
}

/// How a byte-range request was answered.
#[derive(Debug, Clone, Copy, PartialEq, Eq, Structural)]
pub enum RangeAnswer {
    /// 206 Partial Content: the body is the range.
    Partial,
    /// Another success status: the server ignored the range.
    RangeIgnored(u16),
    /// Any other status.
    Failed(u16),
}

/// Classify the status of a byte-range request.
pub fn classify_range_status(status: u16) -> (r: RangeAnswer)
    ensures
        status == 206 ==> r == RangeAnswer::Partial,
        status != 206 && 200 <= status <= 299 ==> r == RangeAnswer::RangeIgnored(status),
        !(200 <= status <= 299) ==> r == RangeAnswer::Failed(status),
{
    if status == 206 {
        RangeAnswer::Partial
    } else if 200 <= status && status <= 299 {
        RangeAnswer::RangeIgnored(status)
    } else {
        RangeAnswer::Failed(status)
    }
}

} // verus!
