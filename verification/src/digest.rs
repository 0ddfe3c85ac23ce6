//! BLAKE3 digests of byte strings, computed by the `blake3` crate.
use vstd::prelude::*;

verus! {

/// The 32-byte BLAKE3 digest of `data`, as computed by `blake3::hash`.
pub uninterp spec fn blake3_digest(data: Seq<u8>) -> Seq<u8>;

/// Everything fed so far into an incremental BLAKE3 hasher, in order.
pub uninterp spec fn hashed_input(h: blake3::Hasher) -> Seq<u8>;

#[verifier::external_type_specification]
#[verifier::external_body]
pub struct ExHasher(blake3::Hasher);

/// Hashes `data` with `blake3::hash` and returns the digest bytes
/// (`Hash::as_bytes`). Claimed: the result is `blake3_digest` of the input.
#[verifier::external_body]
pub(crate) fn blake3_hash(data: &[u8]) -> (h: [u8; 32])
    ensures
        h@ == blake3_digest(data@),
{
    *blake3::hash(data).as_bytes()
}

/// A fresh hasher from `blake3::Hasher::new` (the unkeyed hash; the library
/// makes no other kind). Claimed: it has absorbed nothing.
#[verifier::external_body]
pub(crate) fn hasher_new() -> (h: blake3::Hasher)
    ensures
        hashed_input(h) == Seq::<u8>::empty(),
{
    blake3::Hasher::new()
}

/// Feeds `data` to the hasher with `blake3::Hasher::update`. Claimed: the
/// absorbed input grows by exactly `data`. (A hasher made by `Hasher::new`
/// never reaches the input-offset limit that makes `update` panic.)
#[verifier::external_body]
pub(crate) fn hasher_update(h: &mut blake3::Hasher, data: &[u8])
    ensures
        hashed_input(*final(h)) == hashed_input(*old(h)) + data@,
{
    h.update(data);
}

/// The digest of everything absorbed, from `blake3::Hasher::finalize`.
/// Claimed, as the crate documents: it equals `blake3::hash` of the
/// concatenated input.
#[verifier::external_body]
pub(crate) fn hasher_finalize(h: &blake3::Hasher) -> (d: [u8; 32])
    ensures
        d@ == blake3_digest(hashed_input(*h)),
{
    *h.finalize().as_bytes()
}

/// Whether two digests are equal, byte for byte.
pub(crate) fn digests_equal(a: &[u8; 32], b: &[u8; 32]) -> (r: bool)
    ensures
        r == (a@ == b@),
{
    let mut i: usize = 0;
    while i < 32
        invariant
            i <= 32,
            a@.len() == 32,
            b@.len() == 32,
            forall|j: int| 0 <= j < i ==> a@[j] == b@[j],
        decreases 32 - i,
    {
        if a[i] != b[i] {
            return false;
        }
        i = i + 1;
    }
    assert(a@ =~= b@);
    true
}

/// A copy of `data[start..end]`.
pub(crate) fn copy_range(data: &[u8], start: usize, end: usize) -> (r: Vec<u8>)
    requires
        start <= end <= data@.len(),
    ensures
        r@ == data@.subrange(start as int, end as int),
{
    let mut r: Vec<u8> = Vec::new();
    let mut i: usize = start;
    while i < end
        invariant
            start <= i <= end,
            end <= data@.len(),
            r@ == data@.subrange(start as int, i as int),
        decreases end - i,
    {
        r.push(data[i]);
        i = i + 1;
        assert(r@ =~= data@.subrange(start as int, i as int));
    }
    r
}

} // verus!
