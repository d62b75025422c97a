use vstd::prelude::*;
use vstd::bytes::{spec_u64_to_le_bytes, spec_u64_from_le_bytes, lemma_auto_spec_u64_to_from_le_bytes};
use vstd::slice::slice_subrange;
use crate::address::Address;
use crate::error::ListError;

verus! {

/// Number of bytes in a node record: the payload, then `prev`, then `next`.
pub const RECORD_LEN: usize = 72;

/// A node record as it is stored in a slot.
#[derive(Clone, Copy, Debug)]
pub struct Node {
    pub data: u64,
    pub prev: Address,
    pub next: Address,
}

impl Node {
    /// The stored form: 8 bytes of little-endian payload, then the 32 bytes
    /// of `prev` and the 32 bytes of `next`.
    pub open spec fn spec_bytes(self) -> Seq<u8> {
        spec_u64_to_le_bytes(self.data) + self.prev.bytes@ + self.next.bytes@
    }

    /// This node with `next` replaced.
    pub open spec fn with_next(self, next: Address) -> Node {
        Node { next, ..self }
    }

    /// This node with `prev` replaced.
    pub open spec fn with_prev(self, prev: Address) -> Node {
        Node { prev, ..self }
    }
}

/// The node that a slot's bytes hold, if they hold one.
pub open spec fn record_of(b: Seq<u8>) -> Option<Node> {
    if exists|n: Node| #[trigger] n.spec_bytes() == b {
        Some(choose|n: Node| #[trigger] n.spec_bytes() == b)
    } else {
        None
    }
}

/// The bytes of a slot of `len` bytes that holds no record yet.
pub open spec fn blank(len: nat) -> Seq<u8> {
    Seq::new(len, |i: int| 0u8)
}

/// Every record is `RECORD_LEN` bytes long.
pub proof fn lemma_record_len(n: Node)
    ensures
        n.spec_bytes().len() == RECORD_LEN,
{
    lemma_auto_spec_u64_to_from_le_bytes();
}

/// Distinct nodes have distinct records.
pub proof fn lemma_record_injective(n: Node, m: Node)
    requires
        n.spec_bytes() == m.spec_bytes(),
    ensures
        n == m,
{
    broadcast use vstd::array::group_array_axioms;
    lemma_auto_spec_u64_to_from_le_bytes();
    let b = n.spec_bytes();
    assert(spec_u64_to_le_bytes(n.data) =~= b.subrange(0, 8));
    assert(spec_u64_to_le_bytes(m.data) =~= b.subrange(0, 8));
    assert(n.data == m.data);
    assert forall|i: int| 0 <= i < 32 implies n.prev.bytes[i] == m.prev.bytes[i] by {
        assert(b[8 + i] == n.prev.bytes@[i]);
        assert(m.spec_bytes()[8 + i] == m.prev.bytes@[i]);
    }
    assert forall|i: int| 0 <= i < 32 implies n.next.bytes[i] == m.next.bytes[i] by {
        assert(b[40 + i] == n.next.bytes@[i]);
        assert(m.spec_bytes()[40 + i] == m.next.bytes@[i]);
    }
    assert(n.prev.bytes =~= m.prev.bytes);
    assert(n.next.bytes =~= m.next.bytes);
}

/// A record reads back as the node it was written from.
pub proof fn lemma_record_round_trip(n: Node)
    ensures
        record_of(n.spec_bytes()) == Some(n),
{
    let b = n.spec_bytes();
    assert(exists|m: Node| #[trigger] m.spec_bytes() == b);
    let m = choose|m: Node| #[trigger] m.spec_bytes() == b;
    lemma_record_injective(n, m);
}

/// Bytes of any length other than `RECORD_LEN` hold no record.
pub proof fn lemma_wrong_len_no_record(b: Seq<u8>)
    requires
        b.len() != RECORD_LEN,
    ensures
        record_of(b) is None,
{
    if exists|n: Node| #[trigger] n.spec_bytes() == b {
        let n = choose|n: Node| #[trigger] n.spec_bytes() == b;
        lemma_record_len(n);
    }
}

/// Relies on borsh::to_vec on a u64: borsh writes an integer as its
/// little-endian bytes, and appending to a Vec<u8> does not fail.
#[verifier::external_body]
pub(crate) fn borsh_u64_bytes(x: u64) -> (r: Vec<u8>)
    ensures
        r@ == spec_u64_to_le_bytes(x),
{
    borsh::to_vec(&x).unwrap_or_default()
}

/// Relies on borsh::from_slice for a u64: it reads eight little-endian bytes
/// and fails unless the slice holds exactly those.
#[verifier::external_body]
pub(crate) fn borsh_u64_from(b: &[u8]) -> (r: Option<u64>)
    ensures
        r is Some <==> b@.len() == 8,
        r matches Some(x) ==> x == spec_u64_from_le_bytes(b@),
{
    borsh::from_slice::<u64>(b).ok()
}

/// Reads the address stored in `b` from byte `at` on.
pub(crate) fn read_address(b: &[u8], at: usize) -> (r: Address)
    requires
        at + 32 <= b@.len(),
    ensures
        r.bytes@ == b@.subrange(at as int, at + 32),
{
    let len = b.len();
    let mut bytes = [0u8; 32];
    let mut i: usize = 0;
    while i < 32
        invariant
            i <= 32,
            len == b@.len(),
            at + 32 <= len,
            forall|j: int| 0 <= j < i ==> bytes[j] == b@[at + j],
        decreases 32 - i,
    {
        bytes[i] = b[at + i];
        i = i + 1;
    }
    proof {
        broadcast use vstd::array::group_array_axioms;
    }
    assert(bytes@ =~= b@.subrange(at as int, at + 32));
    Address { bytes }
}

/// Appends the bytes of `a` to `out`.
pub(crate) fn push_address(out: &mut Vec<u8>, a: &Address)
    ensures
        final(out)@ == old(out)@ + a.bytes@,
{
    proof {
        broadcast use vstd::array::group_array_axioms;
    }
    let ghost start = out@;
    let mut i: usize = 0;
    while i < 32
        invariant
            i <= 32,
            out@ == start + a.bytes@.subrange(0, i as int),
        decreases 32 - i,
    {
        out.push(a.bytes[i]);
        assert(a.bytes@.subrange(0, i + 1) =~= a.bytes@.subrange(0, i as int).push(a.bytes[i as int]));
        i = i + 1;
    }
    assert(a.bytes@.subrange(0, 32) =~= a.bytes@);
}

impl Node {
    /// The record of this node, as written to a slot.
    pub fn to_bytes(&self) -> (r: Vec<u8>)
        ensures
            r@ == self.spec_bytes(),
            r@.len() == RECORD_LEN,
    {
        let mut out = borsh_u64_bytes(self.data);
        push_address(&mut out, &self.prev);
        push_address(&mut out, &self.next);
        proof {
            lemma_record_len(*self);
        }
        out
    }

    /// Reads a node record; the bytes must be exactly one record long.
    pub fn try_from_slice(b: &[u8]) -> (r: Result<Node, ListError>)
        ensures
            r is Ok <==> b@.len() == RECORD_LEN,
            r matches Ok(n) ==> n.spec_bytes() == b@ && record_of(b@) == Some(n),
            r is Err ==> r == Err::<Node, ListError>(ListError::MalformedRecord) && record_of(b@) is None,
    {
        if b.len() != RECORD_LEN {
            proof {
                lemma_wrong_len_no_record(b@);
            }
            return Err(ListError::MalformedRecord);
        }
        let head = slice_subrange(b, 0, 8);
        let data = match borsh_u64_from(head) {
            Some(x) => x,
            None => {
                return Err(ListError::MalformedRecord);
            },
        };
        let prev = read_address(b, 8);
        let next = read_address(b, 40);
        let n = Node { data, prev, next };
        proof {
            lemma_auto_spec_u64_to_from_le_bytes();
            assert(spec_u64_to_le_bytes(data) == head@);
            assert(n.spec_bytes() =~= b@);
            lemma_record_round_trip(n);
        }
        Ok(n)
    }
}

} // verus!
