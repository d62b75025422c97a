use vstd::prelude::*;
use vstd::bytes::{spec_u64_to_le_bytes, lemma_auto_spec_u64_to_from_le_bytes};
use vstd::slice::slice_subrange;
use crate::address::Address;
use crate::error::ListError;
use crate::record::{borsh_u64_bytes, borsh_u64_from, read_address, push_address};

verus! {

/// A command to the list, as a caller encodes it.
#[derive(Clone, Copy, Debug)]
pub enum InstructionData {
    InitializeList,
    AddNode { data: u64 },
    RemoveNode { target_node: Address },
}

impl InstructionData {
    /// The encoded form: a tag byte naming the command (0, 1 or 2), then the
    /// command's field, a little-endian u64 or the 32 bytes of an address.
    pub open spec fn spec_bytes(self) -> Seq<u8> {
        match self {
            InstructionData::InitializeList => seq![0u8],
            InstructionData::AddNode { data } => seq![1u8] + spec_u64_to_le_bytes(data),
            InstructionData::RemoveNode { target_node } => seq![2u8] + target_node.bytes@,
        }
    }

    /// The encoded form of this command.
    pub fn try_to_vec(&self) -> (r: Result<Vec<u8>, ListError>)
        ensures
            r matches Ok(b) && b@ == self.spec_bytes(),
    {
        let mut out: Vec<u8> = Vec::new();
        match self {
            InstructionData::InitializeList => {
                out.push(0u8);
                assert(out@ =~= seq![0u8]);
            },
            InstructionData::AddNode { data } => {
                out.push(1u8);
                let mut tail = borsh_u64_bytes(*data);
                out.append(&mut tail);
                assert(out@ =~= seq![1u8] + spec_u64_to_le_bytes(*data));
            },
            InstructionData::RemoveNode { target_node } => {
                out.push(2u8);
                push_address(&mut out, target_node);
                assert(out@ =~= seq![2u8] + target_node.bytes@);
            },
        }
        Ok(out)
    }

    /// Decodes a command; the bytes must hold exactly one.
    pub fn try_from_slice(b: &[u8]) -> (r: Result<InstructionData, ListError>)
        ensures
            r is Ok <==> is_command_bytes(b@),
            r matches Ok(c) ==> c.spec_bytes() == b@ && command_of(b@) == Some(c),
            r is Err ==> command_of(b@) is None && r == Err::<InstructionData, ListError>(ListError::InvalidCommand),
    {
        let r = Self::decode(b);
        proof {
            if let Ok(c) = r {
                lemma_command_round_trip(c);
            }
        }
        r
    }

    fn decode(b: &[u8]) -> (r: Result<InstructionData, ListError>)
        ensures
            r is Ok <==> is_command_bytes(b@),
            r matches Ok(c) ==> c.spec_bytes() == b@,
            r is Err ==> r == Err::<InstructionData, ListError>(ListError::InvalidCommand),
    {
        let len = b.len();
        if len == 0 {
            return Err(ListError::InvalidCommand);
        }
        let tag = b[0];
        if tag == 0 && len == 1 {
            let c = InstructionData::InitializeList;
            assert(c.spec_bytes() =~= b@);
            Ok(c)
        } else if tag == 1 && len == 9 {
            let field = slice_subrange(b, 1, 9);
            match borsh_u64_from(field) {
                Some(data) => {
                    let c = InstructionData::AddNode { data };
                    proof {
                        lemma_auto_spec_u64_to_from_le_bytes();
                        assert(spec_u64_to_le_bytes(data) == field@);
                    }
                    assert(c.spec_bytes() =~= b@);
                    Ok(c)
                },
                None => Err(ListError::InvalidCommand),
            }
        } else if tag == 2 && len == 33 {
            let target_node = read_address(b, 1);
            let c = InstructionData::RemoveNode { target_node };
            assert(c.spec_bytes() =~= b@);
            Ok(c)
        } else {
            Err(ListError::InvalidCommand)
        }
    }
}

/// Whether `b` is the encoded form of some command.
pub open spec fn is_command_bytes(b: Seq<u8>) -> bool {
    ||| b.len() == 1 && b[0] == 0
    ||| b.len() == 9 && b[0] == 1
    ||| b.len() == 33 && b[0] == 2
}

/// The command that `b` encodes, if it encodes one.
pub open spec fn command_of(b: Seq<u8>) -> Option<InstructionData> {
    if is_command_bytes(b) {
        Some(choose|c: InstructionData| #[trigger] c.spec_bytes() == b)
    } else {
        None
    }
}

/// Distinct commands have distinct encodings.
pub proof fn lemma_command_injective(c: InstructionData, d: InstructionData)
    requires
        c.spec_bytes() == d.spec_bytes(),
    ensures
        c == d,
{
    broadcast use vstd::array::group_array_axioms;
    lemma_auto_spec_u64_to_from_le_bytes();
    let b = c.spec_bytes();
    assert(b[0] == d.spec_bytes()[0]);
    match (c, d) {
        (InstructionData::AddNode { data: x }, InstructionData::AddNode { data: y }) => {
            assert(spec_u64_to_le_bytes(x) =~= b.subrange(1, 9));
            assert(spec_u64_to_le_bytes(y) =~= b.subrange(1, 9));
        },
        (InstructionData::RemoveNode { target_node: x }, InstructionData::RemoveNode { target_node: y }) => {
            assert forall|i: int| 0 <= i < 32 implies x.bytes[i] == y.bytes[i] by {
                assert(b[1 + i] == x.bytes@[i]);
                assert(d.spec_bytes()[1 + i] == y.bytes@[i]);
            }
            assert(x.bytes =~= y.bytes);
        },
        _ => {},
    }
}

/// Decoding the encoded form of a command gives that command back.
pub proof fn lemma_command_round_trip(c: InstructionData)
    ensures
        command_of(c.spec_bytes()) == Some(c),
{
    lemma_auto_spec_u64_to_from_le_bytes();
    let b = c.spec_bytes();
    assert(is_command_bytes(b));
    let d = choose|d: InstructionData| #[trigger] d.spec_bytes() == b;
    lemma_command_injective(c, d);
}

} // verus!
