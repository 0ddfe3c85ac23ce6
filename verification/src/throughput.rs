//! Sizing the batches a node is asked to fetch from its measured throughput.
//!
//! The throughput average itself is kept in floating point by the caller;
//! what is decided here is how a byte target becomes a batch size.
use vstd::prelude::*;

verus! {

/// Batches are made of whole granular chunks of 512 KiB.
pub const GRANULAR_CHUNK_SIZE: u64 = 524288;

/// No batch is larger than 16 MiB.
pub const MAX_BATCH_SIZE: u64 = 16777216;

/// `target` kept between one granular chunk and the largest batch.
pub open spec fn clamped(target: u64) -> u64 {
    if target < GRANULAR_CHUNK_SIZE {
        GRANULAR_CHUNK_SIZE
    } else if target > MAX_BATCH_SIZE {
        MAX_BATCH_SIZE
    } else {
        target
    }
}

/// The batch size for a target of `target` in-flight bytes: the target
/// clamped to one granular chunk at least and 16 MiB at most, then rounded
/// up to a whole number of granular chunks.
pub fn granular_batch_size(target: u64) -> (r: u64)
    ensures
        r == ((clamped(target) + GRANULAR_CHUNK_SIZE - 1) / (GRANULAR_CHUNK_SIZE as int)) * GRANULAR_CHUNK_SIZE,
        r % GRANULAR_CHUNK_SIZE == 0,
        GRANULAR_CHUNK_SIZE <= r <= MAX_BATCH_SIZE,
        clamped(target) <= r,
{
    let b = if target < GRANULAR_CHUNK_SIZE {
        GRANULAR_CHUNK_SIZE
    } else if target > MAX_BATCH_SIZE {
        MAX_BATCH_SIZE
    } else {
        target
    };
    let n = (b + GRANULAR_CHUNK_SIZE - 1) / GRANULAR_CHUNK_SIZE;
    assert(1 <= n <= 32);
    let r = n * GRANULAR_CHUNK_SIZE;
    assert(r % GRANULAR_CHUNK_SIZE == 0) by (nonlinear_arith)
        requires
            r == n * GRANULAR_CHUNK_SIZE,
    ;
    assert(b <= r) by (nonlinear_arith)
        requires
            n == (b + GRANULAR_CHUNK_SIZE - 1) / (GRANULAR_CHUNK_SIZE as int),
            r == n * GRANULAR_CHUNK_SIZE,
    ;
    r
}

} // verus!
