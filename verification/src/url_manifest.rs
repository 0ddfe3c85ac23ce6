//! Turning a URL into a manifest for bonded downloads.
//!
//! A URL of known size becomes a manifest whose chunks are HTTP byte
//! ranges; the chunk digests are unknown until each range is fetched.
use vstd::prelude::*;
use vstd::string::*;

use crate::chunk::ChunkMeta;
use crate::text::push_char;
use crate::manifest::{Manifest, ManifestSource};
use crate::types::{is_v4_uuid, ChunkId, ManifestId, SimTime};

verus! {

/// Capability tier of the remote server.
#[derive(Debug, Clone, Copy, PartialEq, Eq, Structural)]
pub enum ServerTier {
    /// Full range support (`Accept-Ranges: bytes` and a `Content-Length`).
    Tier1FullRange,
    /// A `Content-Length` only: the download cannot be split.
    Tier2ContentLengthOnly,
    /// Chunked transfer encoding (streaming response).
    Tier3Chunked,
    /// Redirect or authentication required.
    Tier4Redirect,
}

/// Metadata about a remote URL resource.
#[derive(Debug, Clone)]
pub struct UrlResourceInfo {
    /// The capability tier of the server.
    pub tier: ServerTier,
    /// Total size of the resource in bytes.
    pub total_size: u64,
    /// Whether the server supports HTTP Range requests.
    pub supports_ranges: bool,
    /// ETag header if provided by the server.
    pub etag: Option<String>,
    /// Last-Modified header if provided by the server.
    pub last_modified: Option<String>,
    /// The resolved content type (e.g. `application/octet-stream`).
    pub content_type: Option<String>,
    /// The suggested file name, from `Content-Disposition` or the URL path.
    pub suggested_filename: Option<String>,
}

/// Default chunk size for bonded downloads: 256 KiB.
pub const DEFAULT_BONDED_CHUNK_SIZE: u32 = 262144;

/// `chunks` cut `total` bytes into ranges of `size` bytes: just enough ranges
/// to cover them, each with its index as id, its offset, its length and an
/// all-zero digest (the digest is learnt once the range is fetched).
pub open spec fn range_chunks(chunks: Seq<ChunkMeta>, total: nat, size: nat) -> bool {
    &&& chunks.len() * size >= total
    &&& (chunks.len() == 0 || (chunks.len() - 1) * size < total)
    &&& forall|k: int| 0 <= k < chunks.len() ==> {
        &&& (#[trigger] chunks[k]).id == ChunkId(k as u32)
        &&& chunks[k].offset == k * size
        &&& chunks[k].size == if (k + 1) * size <= total { size as int } else { total - k * size }
        &&& chunks[k].hash@ == Seq::new(32, |i: int| 0u8)
    }
}

/// A copy of an optional string.
fn copy_opt(s: &Option<String>) -> (r: Option<String>)
    ensures
        r == *s,
{
    match s {
        Some(v) => Some(v.clone()),
        None => None,
    }
}

/// A manifest for the resource at `url`: its size cut into ranges of
/// `chunk_size` bytes, digests zeroed, the source being the URL with the
/// server's ETag and Last-Modified.
pub fn manifest_from_url_info(url_info: &UrlResourceInfo, url: &str, name: &str, chunk_size: u32) -> (m: Manifest)
    requires
        chunk_size > 0 || url_info.total_size == 0,
        url_info.total_size <= (chunk_size as nat) * (u32::MAX as nat),
    ensures
        m.name@ == name@,
        m.total_size == url_info.total_size,
        range_chunks(m.chunks@, url_info.total_size as nat, chunk_size as nat),
        m.file_hash@ == Seq::new(32, |i: int| 0u8),
        m.chunk_size == chunk_size,
        m.created_at == SimTime(0),
        is_v4_uuid(m.id.0),
        m.source matches ManifestSource::HttpUrl { url: u, mirrors, etag, last_modified } && u@ == url@ && mirrors@.len() == 0
            && etag == url_info.etag && last_modified == url_info.last_modified,
{
    let total = url_info.total_size;
    let cs = chunk_size as u64;
    let mut chunks: Vec<ChunkMeta> = Vec::new();
    let mut offset: u64 = 0;
    let mut index: u32 = 0;
    while offset < total
        invariant
            cs == chunk_size,
            cs > 0 || total == 0,
            total == url_info.total_size,
            total <= (chunk_size as nat) * (u32::MAX as nat),
            offset <= total,
            index == chunks@.len(),
            offset < total ==> offset == index * cs,
            offset == total ==> index * cs >= total,
            index > 0 ==> (index - 1) * cs < total,
            forall|k: int| 0 <= k < index ==> {
                &&& (#[trigger] chunks@[k]).id == ChunkId(k as u32)
                &&& chunks@[k].offset == k * cs
                &&& chunks@[k].size == if (k + 1) * cs <= total { cs as int } else { total - k * cs }
                &&& chunks@[k].hash@ == Seq::new(32, |i: int| 0u8)
            },
        decreases total - offset,
    {
        let remaining = total - offset;
        let this = if remaining < cs { remaining } else { cs };
        proof {
            assert((index + 1) * cs == index * cs + cs) by (nonlinear_arith);
            assert(index < u32::MAX) by (nonlinear_arith)
                requires
                    offset == index * cs,
                    offset < total,
                    total <= cs * (u32::MAX as nat),
                    cs > 0,
            ;
        }
        let zero: [u8; 32] = [0u8; 32];
        proof {
            assert(zero@ =~= Seq::new(32, |i: int| 0u8));
        }
        chunks.push(ChunkMeta { id: ChunkId(index), offset, size: this as u32, hash: zero });
        offset = offset + this;
        index = index + 1;
    }
    let file_hash: [u8; 32] = [0u8; 32];
    assert(file_hash@ =~= Seq::new(32, |i: int| 0u8));
    Manifest {
        id: ManifestId::new(),
        name: name.to_owned(),
        total_size: total,
        chunks,
        file_hash,
        chunk_size,
        source: ManifestSource::HttpUrl {
            url: url.to_owned(),
            mirrors: Vec::new(),
            etag: copy_opt(&url_info.etag),
            last_modified: copy_opt(&url_info.last_modified),
        },
        created_at: SimTime(0),
    }
}

/// What a server answered to an HTTP HEAD request: the status code and the
/// raw bytes of the headers the probe looks at.
#[derive(Debug, Clone)]
pub struct HeadResponse {
    pub status: u16,
    pub content_length: Option<Vec<u8>>,
    pub accept_ranges: Option<Vec<u8>>,
    pub etag: Option<Vec<u8>>,
    pub last_modified: Option<Vec<u8>>,
    pub content_type: Option<Vec<u8>>,
    pub content_disposition: Option<Vec<u8>>,
}

/// Why a probe could not describe the resource.
#[derive(Debug, Clone, Copy, PartialEq, Eq, Structural)]
pub enum ProbeError {
    /// The server answered with this status, which is neither a success, a
    /// redirection nor 401.
    Status(u16),
    /// The server gave no usable `Content-Length` (missing, unreadable or zero).
    NoContentLength,
}

/// A byte that may appear in header text: visible ASCII or a tab.
pub open spec fn visible(b: u8) -> bool {
    (32 <= b && b < 127) || b == 9
}

/// The header value as text, when every byte is visible ASCII.
pub open spec fn header_text(v: Seq<u8>) -> Option<Seq<char>> {
    if forall|i: int| 0 <= i < v.len() ==> visible(#[trigger] v[i]) {
        Some(v.map_values(|b: u8| b as char))
    } else {
        None
    }
}

/// The value of a string of decimal digits.
pub open spec fn digits_value(d: Seq<char>) -> nat
    decreases d.len(),
{
    if d.len() == 0 {
        0
    } else {
        digits_value(d.drop_last()) * 10 + (d.last() as nat - 48) as nat
    }
}

/// Every character is a decimal digit.
pub open spec fn all_digits(d: Seq<char>) -> bool {
    forall|i: int| 0 <= i < d.len() ==> '0' <= #[trigger] d[i] && d[i] <= '9'
}

/// How text parses as an unsigned 64-bit number: an optional `+`, then one
/// or more decimal digits, the value fitting in 64 bits.
pub open spec fn parsed_u64(s: Seq<char>) -> Option<u64> {
    let d = if s.len() > 0 && s[0] == '+' { s.skip(1) } else { s };
    if d.len() > 0 && all_digits(d) && digits_value(d) <= u64::MAX {
        Some(digits_value(d) as u64)
    } else {
        None
    }
}

/// `pat` occurs in `s` at position `i`.
pub open spec fn occurs_at(s: Seq<char>, pat: Seq<char>, i: int) -> bool {
    0 <= i && i + pat.len() <= s.len() && s.subrange(i, i + pat.len()) == pat
}

/// `pat` occurs somewhere in `s`.
pub open spec fn occurs(s: Seq<char>, pat: Seq<char>) -> bool {
    exists|i: int| #[trigger] occurs_at(s, pat, i)
}

/// The first position where `pat` occurs in `s` (meaningful when it occurs).
pub open spec fn first_occurrence(s: Seq<char>, pat: Seq<char>) -> int {
    choose|i: int| occurs_at(s, pat, i) && forall|j: int| 0 <= j < i ==> !#[trigger] occurs_at(s, pat, j)
}

/// The second piece of `s` split at `pat`: the text after the first
/// occurrence, up to the next one or the end.
#[verifier::opaque]
pub open spec fn second_piece(s: Seq<char>, pat: Seq<char>) -> Option<Seq<char>> {
    if occurs(s, pat) {
        let rest = s.skip(first_occurrence(s, pat) + pat.len());
        if occurs(rest, pat) {
            Some(rest.take(first_occurrence(rest, pat)))
        } else {
            Some(rest)
        }
    } else {
        None
    }
}

/// Number of leading characters equal to `c`.
pub open spec fn leading(s: Seq<char>, c: char) -> nat
    decreases s.len(),
{
    if s.len() > 0 && s[0] == c {
        1 + leading(s.skip(1), c)
    } else {
        0
    }
}

/// Number of trailing characters equal to `c`.
pub open spec fn trailing(s: Seq<char>, c: char) -> nat
    decreases s.len(),
{
    if s.len() > 0 && s.last() == c {
        1 + trailing(s.drop_last(), c)
    } else {
        0
    }
}

/// `s` with every leading and trailing `c` removed.
pub open spec fn trimmed(s: Seq<char>, c: char) -> Seq<char> {
    let a = leading(s, c);
    if a == s.len() {
        Seq::empty()
    } else {
        s.subrange(a as int, s.len() - trailing(s, c))
    }
}

/// The position of the last `/` in `url` (meaningful when there is one).
pub open spec fn last_slash(url: Seq<char>) -> int {
    choose|p: int| 0 <= p < url.len() && url[p] == '/' && forall|q: int| p < q < url.len() ==> url[q] != '/'
}

/// The last `/`-separated segment of `url` (all of it when there is no `/`).
pub open spec fn last_segment(url: Seq<char>) -> Seq<char> {
    if url.contains('/') {
        url.skip(last_slash(url) + 1)
    } else {
        url
    }
}

/// The position of the first `c` in `s` (meaningful when there is one).
pub open spec fn first_index(s: Seq<char>, c: char) -> int {
    choose|p: int| 0 <= p < s.len() && s[p] == c && forall|q: int| 0 <= q < p ==> s[q] != c
}

/// The part of `s` before its first `?` (all of it when there is none).
pub open spec fn before_query(s: Seq<char>) -> Seq<char> {
    if s.contains('?') {
        s.take(first_index(s, '?'))
    } else {
        s
    }
}

/// The file name a probe suggests: from `Content-Disposition` when it names
/// one (`filename=`, quotes trimmed), else from the URL's last path segment
/// when it is non-empty and contains a dot (query string removed).
pub open spec fn suggested_name(url: Seq<char>, disposition: Option<Seq<u8>>) -> Option<Seq<char>> {
    let from_header = match disposition {
        Some(v) => match header_text(v) {
            Some(t) => match second_piece(t, seq!['f', 'i', 'l', 'e', 'n', 'a', 'm', 'e', '=']) {
                Some(p) => Some(trimmed(p, '"')),
                None => None,
            },
            None => None,
        },
        None => None,
    };
    match from_header {
        Some(n) => Some(n),
        None => {
            let seg = last_segment(url);
            if seg.len() > 0 && seg.contains('.') {
                Some(before_query(seg))
            } else {
                None
            }
        },
    }
}

/// The text of an optional header, when it has readable text.
pub open spec fn opt_text(v: Option<Seq<u8>>) -> Option<Seq<char>> {
    match v {
        Some(b) => header_text(b),
        None => None,
    }
}

/// Bytes of an optional header as a sequence.
pub open spec fn opt_bytes(v: Option<Vec<u8>>) -> Option<Seq<u8>> {
    match v {
        Some(b) => Some(b@),
        None => None,
    }
}

/// A string's characters, when present.
pub open spec fn opt_chars(v: Option<String>) -> Option<Seq<char>> {
    match v {
        Some(s) => Some(s@),
        None => None,
    }
}

/// The `Content-Length` a HEAD answer gives, zero when missing or unreadable.
pub open spec fn content_length(head: HeadResponse) -> u64 {
    match opt_text(opt_bytes(head.content_length)) {
        Some(t) => match parsed_u64(t) {
            Some(n) => n,
            None => 0,
        },
        None => 0,
    }
}

/// The server advertises byte ranges: `Accept-Ranges` mentions `bytes`.
pub open spec fn advertises_ranges(head: HeadResponse) -> bool {
    match opt_text(opt_bytes(head.accept_ranges)) {
        Some(t) => occurs(t, seq!['b', 'y', 't', 'e', 's']),
        None => false,
    }
}

/// The header value as characters, when all of it is visible ASCII.
fn header_chars(v: &Vec<u8>) -> (r: Option<Vec<char>>)
    ensures
        match header_text(v@) {
            Some(t) => r matches Some(x) && x@ == t,
            None => r is None,
        },
{
    let mut out: Vec<char> = Vec::new();
    let mut i: usize = 0;
    while i < v.len()
        invariant
            i <= v@.len(),
            forall|j: int| 0 <= j < i ==> visible(#[trigger] v@[j]),
            out@ == v@.take(i as int).map_values(|b: u8| b as char),
        decreases v.len() - i,
    {
        let b = v[i];
        if !((32 <= b && b < 127) || b == 9) {
            return None;
        }
        out.push(b as char);
        i = i + 1;
        assert(out@ =~= v@.take(i as int).map_values(|b: u8| b as char));
    }
    assert(v@.take(i as int) =~= v@);
    Some(out)
}

/// The characters of an optional header, when it has readable text.
fn opt_header_chars(v: &Option<Vec<u8>>) -> (r: Option<Vec<char>>)
    ensures
        match opt_text(opt_bytes(*v)) {
            Some(t) => r matches Some(x) && x@ == t,
            None => r is None,
        },
{
    match v {
        Some(b) => header_chars(b),
        None => None,
    }
}

/// A string holding `cs[lo..hi)`.
fn string_of(cs: &Vec<char>, lo: usize, hi: usize) -> (r: String)
    requires
        lo <= hi <= cs@.len(),
    ensures
        r@ == cs@.subrange(lo as int, hi as int),
{
    let mut r = String::new();
    let mut i: usize = lo;
    while i < hi
        invariant
            lo <= i <= hi,
            hi <= cs@.len(),
            r@ == cs@.subrange(lo as int, i as int),
        decreases hi - i,
    {
        push_char(&mut r, cs[i]);
        i = i + 1;
        assert(r@ =~= cs@.subrange(lo as int, i as int));
    }
    r
}

proof fn lemma_digits_prefix(d: Seq<char>, k: int)
    requires
        all_digits(d),
        0 <= k <= d.len(),
    ensures
        digits_value(d.take(k)) <= digits_value(d),
    decreases d.len(),
{
    if k < d.len() {
        let e = d.drop_last();
        assert(e.take(k) =~= d.take(k));
        assert(all_digits(e));
        lemma_digits_prefix(e, k);
    } else {
        assert(d.take(k) =~= d);
    }
}

/// How the text `t` parses as an unsigned 64-bit number.
fn parse_u64(t: &Vec<char>) -> (r: Option<u64>)
    ensures
        r == parsed_u64(t@),
{
    let n = t.len();
    let start: usize = if n > 0 && t[0] == '+' { 1 } else { 0 };
    let ghost d = if t@.len() > 0 && t@[0] == '+' { t@.skip(1) } else { t@ };
    proof {
        assert(d =~= t@.subrange(start as int, n as int));
    }
    if start == n {
        return None;
    }
    let mut val: u64 = 0;
    let mut i: usize = start;
    while i < n
        invariant
            start <= i <= n,
            n == t@.len(),
            d == t@.subrange(start as int, n as int),
            d == (if t@.len() > 0 && t@[0] == '+' { t@.skip(1) } else { t@ }),
            val == digits_value(d.take(i - start)),
            forall|j: int| 0 <= j < i - start ==> '0' <= #[trigger] d[j] && d[j] <= '9',
        decreases n - i,
    {
        let ch = t[i];
        proof {
            assert(d[i - start] == ch);
        }
        if ch < '0' || ch > '9' {
            return None;
        }
        let dig = (ch as u32 - 48) as u64;
        proof {
            assert(d.take(i - start + 1).drop_last() =~= d.take(i - start));
            assert(d.take(i - start + 1).last() == ch);
        }
        let next = match val.checked_mul(10) {
            Some(x) => x.checked_add(dig),
            None => None,
        };
        match next {
            Some(v2) => {
                val = v2;
            },
            None => {
                proof {
                    assert(digits_value(d.take(i - start + 1)) == val * 10 + dig);
                    assert(val * 10 + dig > u64::MAX);
                    if all_digits(d) {
                        lemma_digits_prefix(d, i - start + 1);
                    }
                }
                return None;
            },
        }
        i = i + 1;
    }
    proof {
        assert(d.take(i - start) =~= d);
    }
    Some(val)
}

/// The first position at or after `from` where `pat` occurs in `s`.
fn find_from(s: &Vec<char>, pat: &Vec<char>, from: usize) -> (r: Option<usize>)
    ensures
        r matches Some(i) ==> from <= i && occurs_at(s@, pat@, i as int) && forall|j: int| from <= j < i ==> !#[trigger] occurs_at(s@, pat@, j),
        r is None ==> forall|j: int| from <= j ==> !#[trigger] occurs_at(s@, pat@, j),
{
    let n = s.len();
    let m = pat.len();
    let mut i: usize = from;
    while i <= n && m <= n - i
        invariant
            n == s@.len(),
            m == pat@.len(),
            from <= i,
            forall|j: int| from <= j < i ==> !#[trigger] occurs_at(s@, pat@, j),
        decreases n + 1 - i,
    {
        let mut k: usize = 0;
        while k < m && s[i + k] == pat[k]
            invariant
                k <= m,
                i + m <= n,
                n == s@.len(),
                m == pat@.len(),
                forall|q: int| 0 <= q < k ==> s@[i + q] == pat@[q],
            decreases m - k,
        {
            k = k + 1;
        }
        if k == m {
            assert(s@.subrange(i as int, i + m) =~= pat@);
            return Some(i);
        }
        assert(!occurs_at(s@, pat@, i as int)) by {
            if occurs_at(s@, pat@, i as int) {
                assert(s@.subrange(i as int, i + m)[k as int] == pat@[k as int]);
            }
        }
        i = i + 1;
    }
    None
}

proof fn lemma_first_occurrence(s: Seq<char>, pat: Seq<char>, i: int)
    requires
        occurs_at(s, pat, i),
        forall|j: int| 0 <= j < i ==> !#[trigger] occurs_at(s, pat, j),
    ensures
        occurs(s, pat),
        first_occurrence(s, pat) == i,
{
    let c = first_occurrence(s, pat);
    assert(occurs_at(s, pat, c) && forall|j: int| 0 <= j < c ==> !#[trigger] occurs_at(s, pat, j));
    if c < i {
        assert(occurs_at(s, pat, c));
    } else if i < c {
        assert(!occurs_at(s, pat, i));
    }
}

proof fn lemma_occurs_skip(s: Seq<char>, pat: Seq<char>, k: int, j: int)
    requires
        0 <= k <= s.len(),
        0 <= j,
    ensures
        occurs_at(s.skip(k), pat, j) == occurs_at(s, pat, k + j),
{
    if occurs_at(s, pat, k + j) {
        assert(s.skip(k).subrange(j, j + pat.len()) =~= s.subrange(k + j, k + j + pat.len()));
    }
    if occurs_at(s.skip(k), pat, j) {
        assert(s.skip(k).subrange(j, j + pat.len()) =~= s.subrange(k + j, k + j + pat.len()));
    }
}

/// The second piece of `s` split at `pat`, as positions `[lo, hi)` of `s`.
fn second_piece_range(s: &Vec<char>, pat: &Vec<char>) -> (r: Option<(usize, usize)>)
    requires
        pat@.len() > 0,
    ensures
        match second_piece(s@, pat@) {
            Some(p) => r matches Some(x) && x.0 <= x.1 <= s@.len() && p == s@.subrange(x.0 as int, x.1 as int),
            None => r is None,
        },
{
    reveal(second_piece);
    let n = s.len();
    let first = find_from(s, pat, 0);
    match first {
        None => {
            assert(!occurs(s@, pat@));
            None
        },
        Some(i) => {
            proof {
                lemma_first_occurrence(s@, pat@, i as int);
                assert(i + pat@.len() <= s@.len());
            }
            let lo = i + pat.len();
            let ghost rest = s@.skip(lo as int);
            match find_from(s, pat, lo) {
                Some(j) => {
                    proof {
                        lemma_occurs_skip(s@, pat@, lo as int, j - lo);
                        assert forall|q: int| 0 <= q < j - lo implies !#[trigger] occurs_at(rest, pat@, q) by {
                            lemma_occurs_skip(s@, pat@, lo as int, q);
                        }
                        lemma_first_occurrence(rest, pat@, j - lo);
                        assert(rest.take(j - lo) =~= s@.subrange(lo as int, j as int));
                    }
                    Some((lo, j))
                },
                None => {
                    proof {
                        assert(!occurs(rest, pat@)) by {
                            if occurs(rest, pat@) {
                                let q = choose|q: int| #[trigger] occurs_at(rest, pat@, q);
                                lemma_occurs_skip(s@, pat@, lo as int, q);
                            }
                        }
                        assert(rest =~= s@.subrange(lo as int, s@.len() as int));
                    }
                    Some((lo, n))
                },
            }
        },
    }
}

proof fn lemma_leading(s: Seq<char>, c: char, i: int)
    requires
        0 <= i <= s.len(),
        forall|j: int| 0 <= j < i ==> s[j] == c,
        i == s.len() || s[i] != c,
    ensures
        leading(s, c) == i,
    decreases i,
{
    if i > 0 {
        lemma_leading(s.skip(1), c, i - 1);
    }
}

proof fn lemma_trailing(s: Seq<char>, c: char, i: int)
    requires
        0 <= i <= s.len(),
        forall|q: int| s.len() - i <= q < s.len() ==> s[q] == c,
        i == s.len() || s[s.len() - 1 - i] != c,
    ensures
        trailing(s, c) == i,
    decreases i,
{
    if i > 0 {
        let d = s.drop_last();
        assert forall|q: int| d.len() - (i - 1) <= q < d.len() implies d[q] == c by {
            assert(d[q] == s[q]);
        }
        lemma_trailing(d, c, i - 1);
    }
}

/// Positions `[a, b)` of `t` that hold `t` with every leading and trailing `c` removed.
fn trim_range(t: &Vec<char>, c: char) -> (r: (usize, usize))
    ensures
        r.0 <= r.1 <= t@.len(),
        t@.subrange(r.0 as int, r.1 as int) == trimmed(t@, c),
{
    let n = t.len();
    let mut a: usize = 0;
    while a < n && t[a] == c
        invariant
            a <= n,
            n == t@.len(),
            forall|j: int| 0 <= j < a ==> t@[j] == c,
        decreases n - a,
    {
        a = a + 1;
    }
    proof {
        lemma_leading(t@, c, a as int);
    }
    if a == n {
        assert(t@.subrange(0, 0) =~= Seq::<char>::empty());
        return (0, 0);
    }
    let mut b: usize = 0;
    while b < n - a && t[n - 1 - b] == c
        invariant
            a < n,
            b <= n - a,
            n == t@.len(),
            t@[a as int] != c,
            forall|q: int| n - b <= q < n ==> t@[q] == c,
        decreases n - a - b,
    {
        b = b + 1;
    }
    proof {
        lemma_trailing(t@, c, b as int);
    }
    (a, n - b)
}

/// The characters of `s`.
fn str_chars(s: &str) -> (r: Vec<char>)
    ensures
        r@ == s@,
{
    let n = s.unicode_len();
    let mut r: Vec<char> = Vec::new();
    let mut i: usize = 0;
    while i < n
        invariant
            n == s@.len(),
            i <= n,
            r@ == s@.take(i as int),
        decreases n - i,
    {
        r.push(s.get_char(i));
        i = i + 1;
        assert(r@ =~= s@.take(i as int));
    }
    assert(s@.take(i as int) =~= s@);
    r
}

/// The file name suggested by the URL alone: its last segment without the
/// query string, when that segment is non-empty and contains a dot.
fn name_from_url(url: &Vec<char>) -> (r: Option<String>)
    ensures
        opt_chars(r) == (if last_segment(url@).len() > 0 && last_segment(url@).contains('.') {
            Some(before_query(last_segment(url@)))
        } else {
            None
        }),
{
    let n = url.len();
    let mut k: usize = n;
    while k > 0 && url[k - 1] != '/'
        invariant
            k <= n,
            n == url@.len(),
            forall|q: int| k <= q < n ==> url@[q] != '/',
        decreases k,
    {
        k = k - 1;
    }
    let ghost seg = last_segment(url@);
    proof {
        if k > 0 {
            let p = (k - 1) as int;
            assert(url@.contains('/'));
            let c = last_slash(url@);
            assert(0 <= c < url@.len() && url@[c] == '/' && forall|q: int| c < q < url@.len() ==> url@[q] != '/');
            if c < p {
                assert(url@[p] == '/');
            } else if p < c {
                assert(url@[c] != '/');
            }
            assert(seg =~= url@.subrange(k as int, n as int));
        } else {
            assert(!url@.contains('/')) by {
                if url@.contains('/') {
                    let q = choose|q: int| 0 <= q < url@.len() && url@[q] == '/';
                    assert(url@[q] != '/');
                }
            }
            assert(seg =~= url@.subrange(0, n as int));
        }
    }
    if k == n {
        return None;
    }
    let mut dot = false;
    let mut q: usize = k;
    let mut query: usize = n;
    while q < n
        invariant
            k <= q <= n,
            n == url@.len(),
            seg == url@.subrange(k as int, n as int),
            dot == exists|j: int| k <= j < q && url@[j] == '.',
            query <= n,
            query == n ==> forall|j: int| k <= j < q ==> url@[j] != '?',
            query < n ==> k <= query < q && url@[query as int] == '?' && forall|j: int| k <= j < query ==> url@[j] != '?',
        decreases n - q,
    {
        if url[q] == '.' {
            dot = true;
        }
        if query == n && url[q] == '?' {
            query = q;
        }
        q = q + 1;
    }
    proof {
        assert(dot == seg.contains('.')) by {
            if dot {
                let j = choose|j: int| k <= j < q && url@[j] == '.';
                assert(seg[j - k] == '.');
            }
            if seg.contains('.') {
                let j = choose|j: int| 0 <= j < seg.len() && seg[j] == '.';
                assert(url@[k + j] == '.');
            }
        }
    }
    if !dot {
        return None;
    }
    let r = string_of(url, k, query);
    proof {
        if query < n {
            let qq = (query - k) as int;
            assert forall|j: int| 0 <= j < qq implies seg[j] != '?' by {
                assert(seg[j] == url@[k + j]);
            }
            assert(seg[qq] == '?');
            assert(seg.contains('?'));
            assert(exists|p: int| 0 <= p < seg.len() && seg[p] == '?' && forall|j: int| 0 <= j < p ==> seg[j] != '?');
            let f = first_index(seg, '?');
            assert(0 <= f < seg.len() && seg[f] == '?' && forall|j: int| 0 <= j < f ==> seg[j] != '?');
            if f < qq {
                assert(url@[k + f] != '?');
            } else if qq < f {
                assert(seg[qq] != '?');
            }
            assert(before_query(seg) =~= url@.subrange(k as int, query as int));
        } else {
            assert(!seg.contains('?')) by {
                if seg.contains('?') {
                    let j = choose|j: int| 0 <= j < seg.len() && seg[j] == '?';
                    assert(url@[k + j] != '?');
                }
            }
            assert(before_query(seg) =~= url@.subrange(k as int, n as int));
        }
    }
    Some(r)
}

/// The file name a `Content-Disposition` text names: the text after
/// `filename=` (up to any further `filename=`), quotes trimmed.
fn name_from_disposition(t: &Vec<char>) -> (r: Option<String>)
    ensures
        opt_chars(r) == (match second_piece(t@, seq!['f', 'i', 'l', 'e', 'n', 'a', 'm', 'e', '=']) {
            Some(p) => Some(trimmed(p, '"')),
            None => None,
        }),
{
    let pat: Vec<char> = vec!['f', 'i', 'l', 'e', 'n', 'a', 'm', 'e', '='];
    assert(pat@ =~= seq!['f', 'i', 'l', 'e', 'n', 'a', 'm', 'e', '=']);
    match second_piece_range(t, &pat) {
        Some((lo, hi)) => {
            let mut piece: Vec<char> = Vec::new();
            let mut i: usize = lo;
            while i < hi
                invariant
                    lo <= i <= hi,
                    hi <= t@.len(),
                    piece@ == t@.subrange(lo as int, i as int),
                decreases hi - i,
            {
                piece.push(t[i]);
                i = i + 1;
                assert(piece@ =~= t@.subrange(lo as int, i as int));
            }
            let (a, b) = trim_range(&piece, '"');
            Some(string_of(&piece, a, b))
        },
        None => None,
    }
}

/// The file name a probe suggests for the resource at `url` given the
/// `Content-Disposition` header bytes.
fn suggest_name(url: &Vec<char>, disposition: &Option<Vec<u8>>) -> (r: Option<String>)
    ensures
        opt_chars(r) == suggested_name(url@, opt_bytes(*disposition)),
{
    let text = opt_header_chars(disposition);
    let from_header = match text {
        Some(t) => name_from_disposition(&t),
        None => None,
    };
    match from_header {
        Some(n) => Some(n),
        None => name_from_url(url),
    }
}

/// A copy of an optional header as text, when it has readable text.
fn opt_string(v: &Option<Vec<u8>>) -> (r: Option<String>)
    ensures
        opt_chars(r) == opt_text(opt_bytes(*v)),
{
    match opt_header_chars(v) {
        Some(t) => Some(string_of(&t, 0, t.len())),
        None => None,
    }
}

/// What a probe learns from a HEAD answer for the resource at `url`. A
/// redirection or 401 means the resource sits behind a redirect or a login;
/// any other status but a success is an error, and so is a success without
/// a non-zero `Content-Length`.
pub fn classify_head(url: &str, head: &HeadResponse) -> (r: Result<UrlResourceInfo, ProbeError>)
    ensures
        (300 <= head.status <= 399 || head.status == 401) ==> (r matches Ok(info) && info.tier == ServerTier::Tier4Redirect
            && info.total_size == 0 && !info.supports_ranges && info.etag is None && info.last_modified is None
            && info.content_type is None && info.suggested_filename is None),
        !(300 <= head.status <= 399 || head.status == 401) && !(200 <= head.status <= 299) ==> r == Err::<
            UrlResourceInfo,
            ProbeError,
        >(ProbeError::Status(head.status)),
        200 <= head.status <= 299 && content_length(*head) == 0 ==> r == Err::<UrlResourceInfo, ProbeError>(
            ProbeError::NoContentLength,
        ),
        200 <= head.status <= 299 && content_length(*head) > 0 ==> (r matches Ok(info) && info.total_size == content_length(*head)
            && info.supports_ranges == advertises_ranges(*head)
            && info.tier == (if advertises_ranges(*head) { ServerTier::Tier1FullRange } else { ServerTier::Tier2ContentLengthOnly })
            && opt_chars(info.etag) == opt_text(opt_bytes(head.etag))
            && opt_chars(info.last_modified) == opt_text(opt_bytes(head.last_modified))
            && opt_chars(info.content_type) == opt_text(opt_bytes(head.content_type))
            && opt_chars(info.suggested_filename) == suggested_name(url@, opt_bytes(head.content_disposition))),
{
    let status = head.status;
    if (300 <= status && status <= 399) || status == 401 {
        return Ok(UrlResourceInfo {
            tier: ServerTier::Tier4Redirect,
            total_size: 0,
            supports_ranges: false,
            etag: None,
            last_modified: None,
            content_type: None,
            suggested_filename: None,
        });
    }
    if !(200 <= status && status <= 299) {
        return Err(ProbeError::Status(status));
    }
    let total_size: u64 = match opt_header_chars(&head.content_length) {
        Some(t) => match parse_u64(&t) {
            Some(n) => n,
            None => 0,
        },
        None => 0,
    };
    if total_size == 0 {
        return Err(ProbeError::NoContentLength);
    }
    let supports_ranges = match opt_header_chars(&head.accept_ranges) {
        Some(t) => {
            let pat: Vec<char> = vec!['b', 'y', 't', 'e', 's'];
            assert(pat@ =~= seq!['b', 'y', 't', 'e', 's']);
            let found = find_from(&t, &pat, 0);
            proof {
                if found is None {
                    assert(!occurs(t@, pat@));
                }
            }
            found.is_some()
        },
        None => false,
    };
    let etag = opt_string(&head.etag);
    let last_modified = opt_string(&head.last_modified);
    let tier = if supports_ranges { ServerTier::Tier1FullRange } else { ServerTier::Tier2ContentLengthOnly };
    let content_type = opt_string(&head.content_type);
    let chars = str_chars(url);
    let suggested_filename = suggest_name(&chars, &head.content_disposition);
    Ok(UrlResourceInfo { tier, total_size, supports_ranges, etag, last_modified, content_type, suggested_filename })
}

} // verus!
