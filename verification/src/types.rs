//! Identifiers and the simulated clock shared by every part of the runtime.
use vstd::prelude::*;
use vstd::string::*;

use crate::text::{decimal_digits, hex_digits, padded_decimal, push_decimal, push_hex, push_padded_decimal};

verus! {

/// Unique identifier for a node in the cluster.
#[derive(Debug, Clone, Copy, PartialEq, Eq, Hash, PartialOrd, Ord, Structural)]
pub struct NodeId(pub u64);

/// Unique identifier for a chunk within a manifest.
#[derive(Debug, Clone, Copy, PartialEq, Eq, Hash, PartialOrd, Ord, Structural)]
pub struct ChunkId(pub u32);

/// Unique identifier for a task.
#[derive(Debug, Clone, Copy, PartialEq, Eq, Hash, PartialOrd, Ord, Structural)]
pub struct TaskId(pub u64);

/// Simulated time in milliseconds from simulation start.
///
/// This is not wall-clock time: it is a virtual clock driven by the caller.
#[derive(Debug, Clone, Copy, PartialEq, Eq, PartialOrd, Ord, Hash, Structural)]
pub struct SimTime(pub u64);

impl SimTime {
    /// Add milliseconds to this time, saturating at the largest representable time.
    pub fn add_ms(self, ms: u64) -> (r: SimTime)
        ensures
            r.0 == if self.0 + ms > u64::MAX { u64::MAX as int } else { self.0 + ms },
    {
        SimTime(self.0.saturating_add(ms))
    }

    /// Milliseconds elapsed since `earlier`; zero when `earlier` is not in the past.
    pub fn duration_since(self, earlier: SimTime) -> (d: u64)
        ensures
            d == elapsed(self, earlier),
    {
        self.0.saturating_sub(earlier.0)
    }
}

impl Default for SimTime {
    /// The start of the simulation.
    fn default() -> (r: Self)
        ensures
            r == SimTime(0),
    {
        SimTime(0)
    }
}

/// How a simulated time reads: whole minutes and seconds from one minute on
/// (`1m5s`), seconds with three decimals from one second on (`1.500s`), and
/// plain milliseconds below that (`500ms`).
pub open spec fn sim_time_text(ms: nat) -> Seq<char> {
    if ms >= 60000 {
        decimal_digits(ms / 60000) + seq!['m'] + decimal_digits((ms % 60000) / 1000) + seq!['s']
    } else if ms >= 1000 {
        decimal_digits(ms / 1000) + seq!['.'] + padded_decimal(ms % 1000, 3) + seq!['s']
    } else {
        decimal_digits(ms) + seq!['m', 's']
    }
}

impl SimTime {
    /// The time as text, e.g. `500ms`, `1.500s` or `1m5s`.
    pub fn to_string(&self) -> (r: String)
        ensures
            r@ == sim_time_text(self.0 as nat),
    {
        let mut s = String::new();
        let ms = self.0;
        if ms >= 60000 {
            push_decimal(&mut s, ms / 60000);
            s.append("m");
            push_decimal(&mut s, (ms % 60000) / 1000);
            s.append("s");
            proof {
                reveal_strlit("m");
                reveal_strlit("s");
            }
        } else if ms >= 1000 {
            push_decimal(&mut s, ms / 1000);
            s.append(".");
            push_padded_decimal(&mut s, ms % 1000, 3);
            s.append("s");
            proof {
                reveal_strlit(".");
                reveal_strlit("s");
            }
        } else {
            push_decimal(&mut s, ms);
            s.append("ms");
            proof {
                reveal_strlit("ms");
            }
        }
        assert(s@ =~= sim_time_text(ms as nat));
        s
    }
}

/// Milliseconds from `earlier` to `now`, or zero when `earlier` lies ahead.
pub open spec fn elapsed(now: SimTime, earlier: SimTime) -> nat {
    if now.0 >= earlier.0 { (now.0 - earlier.0) as nat } else { 0 }
}

/// `prefix`, an opening parenthesis, the decimal digits of `n` and a closing parenthesis.
pub open spec fn labelled_number(prefix: Seq<char>, n: nat) -> Seq<char> {
    prefix + seq!['('] + decimal_digits(n) + seq![')']
}

impl NodeId {
    /// The id as text, e.g. `Node(5)`.
    pub fn to_string(&self) -> (r: String)
        ensures
            r@ == labelled_number(seq!['N', 'o', 'd', 'e'], self.0 as nat),
    {
        let mut s = String::from_str("Node(");
        push_decimal(&mut s, self.0);
        s.append(")");
        proof {
            reveal_strlit("Node(");
            reveal_strlit(")");
        }
        assert(s@ =~= labelled_number(seq!['N', 'o', 'd', 'e'], self.0 as nat));
        s
    }
}

impl ChunkId {
    /// The id as text, e.g. `Chunk(3)`.
    pub fn to_string(&self) -> (r: String)
        ensures
            r@ == labelled_number(seq!['C', 'h', 'u', 'n', 'k'], self.0 as nat),
    {
        let mut s = String::from_str("Chunk(");
        push_decimal(&mut s, self.0 as u64);
        s.append(")");
        proof {
            reveal_strlit("Chunk(");
            reveal_strlit(")");
        }
        assert(s@ =~= labelled_number(seq!['C', 'h', 'u', 'n', 'k'], self.0 as nat));
        s
    }
}

impl TaskId {
    /// The id as text, e.g. `Task(7)`.
    pub fn to_string(&self) -> (r: String)
        ensures
            r@ == labelled_number(seq!['T', 'a', 's', 'k'], self.0 as nat),
    {
        let mut s = String::from_str("Task(");
        push_decimal(&mut s, self.0);
        s.append(")");
        proof {
            reveal_strlit("Task(");
            reveal_strlit(")");
        }
        assert(s@ =~= labelled_number(seq!['T', 'a', 's', 'k'], self.0 as nat));
        s
    }
}

/// The 128 bits of a version-4 UUID: the version nibble reads 4 and the
/// variant bits read `10` (RFC 4122).
pub open spec fn is_v4_uuid(bits: u128) -> bool {
    (bits >> 76u32) & 0xf == 4 && (bits >> 62u32) & 3 == 2
}

/// Draws a random version-4 UUID with `uuid::Uuid::new_v4` and returns its 128
/// bits (`Uuid::as_u128`, most significant byte first). The value is random;
/// claimed is only what `new_v4` sets in every outcome: the version and
/// variant bits.
#[verifier::external_body]
fn random_uuid_bits() -> (r: u128)
    ensures
        is_v4_uuid(r),
{
    uuid::Uuid::new_v4().as_u128()
}

/// The first eight hex digits of a UUID in its usual text form: its top 32 bits.
pub open spec fn uuid_prefix(bits: u128) -> Seq<char> {
    hex_digits(bits as nat / 0x1_0000_0000_0000_0000_0000_0000, 8)
}

/// Unique identifier for a cluster: the 128 bits of a random UUID.
#[derive(Debug, Clone, Copy, PartialEq, Eq, Hash, Structural)]
pub struct ClusterId(pub u128);

impl ClusterId {
    /// A fresh random identifier.
    pub fn new() -> (r: Self)
        ensures
            is_v4_uuid(r.0),
    {
        ClusterId(random_uuid_bits())
    }

    /// The id as text: `Cluster(` and the first eight hex digits of the UUID, then `)`.
    pub fn to_string(&self) -> (r: String)
        ensures
            r@ == seq!['C', 'l', 'u', 's', 't', 'e', 'r', '('] + uuid_prefix(self.0) + seq![')'],
    {
        let mut s = String::from_str("Cluster(");
        push_hex(&mut s, self.0 / 0x1_0000_0000_0000_0000_0000_0000, 8);
        s.append(")");
        proof {
            reveal_strlit("Cluster(");
            reveal_strlit(")");
        }
        assert(s@ =~= seq!['C', 'l', 'u', 's', 't', 'e', 'r', '('] + uuid_prefix(self.0) + seq![')']);
        s
    }
}

/// Unique identifier for a transfer manifest: the 128 bits of a random UUID.
#[derive(Debug, Clone, Copy, PartialEq, Eq, Hash, Structural)]
pub struct ManifestId(pub u128);

impl ManifestId {
    /// A fresh random identifier.
    pub fn new() -> (r: Self)
        ensures
            is_v4_uuid(r.0),
    {
        ManifestId(random_uuid_bits())
    }

    /// The id as text: `Manifest(` and the first eight hex digits of the UUID, then `)`.
    pub fn to_string(&self) -> (r: String)
        ensures
            r@ == seq!['M', 'a', 'n', 'i', 'f', 'e', 's', 't', '('] + uuid_prefix(self.0) + seq![')'],
    {
        let mut s = String::from_str("Manifest(");
        push_hex(&mut s, self.0 / 0x1_0000_0000_0000_0000_0000_0000, 8);
        s.append(")");
        proof {
            reveal_strlit("Manifest(");
            reveal_strlit(")");
        }
        assert(s@ =~= seq!['M', 'a', 'n', 'i', 'f', 'e', 's', 't', '('] + uuid_prefix(self.0) + seq![')']);
        s
    }
}

} // verus!

verus! {

/// Node ids in non-decreasing order.
pub open spec fn ids_sorted(s: Seq<NodeId>) -> bool {
    forall|i: int, j: int| 0 <= i < j < s.len() ==> s[i].0 <= s[j].0
}

/// The same ids in non-decreasing order.
pub(crate) fn sort_node_ids(ids: &[NodeId]) -> (r: Vec<NodeId>)
    ensures
        ids_sorted(r@),
        r@.to_multiset() == ids@.to_multiset(),
        r@.len() == ids@.len(),
{
    let mut out: Vec<NodeId> = Vec::new();
    let mut i: usize = 0;
    proof {
        assert(ids@.take(0) =~= out@);
    }
    while i < ids.len()
        invariant
            i <= ids@.len(),
            ids_sorted(out@),
            out@.to_multiset() == ids@.take(i as int).to_multiset(),
            out@.len() == i,
        decreases ids.len() - i,
    {
        let x = ids[i];
        let mut p: usize = 0;
        while p < out.len() && out[p].0 <= x.0
            invariant
                p <= out@.len(),
                forall|k: int| 0 <= k < p ==> out@[k].0 <= x.0,
            decreases out.len() - p,
        {
            p = p + 1;
        }
        let ghost before = out@;
        out.insert(p, x);
        proof {
            assert forall|a: int, b: int| 0 <= a < b < out@.len() implies out@[a].0 <= out@[b].0 by {
                if b < p {
                } else if b == p {
                } else if a < p {
                    assert(out@[b] == before[b - 1]);
                    if p < before.len() {
                        assert(before[p as int].0 > x.0);
                        assert(before[p as int].0 <= before[b - 1].0);
                    }
                } else if a == p {
                    assert(out@[b] == before[b - 1]);
                    assert(before[p as int].0 > x.0);
                    assert(before[p as int].0 <= before[b - 1].0);
                } else {
                    assert(out@[b] == before[b - 1]);
                    assert(out@[a] == before[a - 1]);
                }
            }
            assert(ids@.take(i + 1) =~= ids@.take(i as int).push(x));
            vstd::seq_lib::to_multiset_insert(before, p as int, x);
            vstd::seq_lib::to_multiset_build(ids@.take(i as int), x);
        }
        i = i + 1;
    }
    assert(ids@.take(i as int) =~= ids@);
    out
}

} // verus!
