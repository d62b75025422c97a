use vstd::prelude::*;
use crate::address::Address;
use crate::error::ListError;
use crate::instruction::{InstructionData, command_of};
use crate::relink::{initialize, insert, remove, initialize_outcome, insert_outcome, remove_outcome, follows};
use crate::slots::{SlotState, WorkingSet};

verus! {

/// What a command does to the slots `m`, given the addresses of the slots
/// passed to the call in order. Initialize takes (payer, head); Insert takes
/// (head, payer, new node, resource provider); Remove takes (payer, head,
/// target), where the third must be the command's target.
pub open spec fn command_outcome(
    m: Map<Address, SlotState>,
    program: Address,
    accounts: Seq<Address>,
    cmd: InstructionData,
) -> Result<Map<Address, SlotState>, ListError> {
    match cmd {
        InstructionData::InitializeList => {
            if accounts.len() < 2 {
                Err(ListError::MissingSlot)
            } else {
                initialize_outcome(m, program, accounts[1])
            }
        },
        InstructionData::AddNode { data } => {
            if accounts.len() < 4 {
                Err(ListError::MissingSlot)
            } else {
                insert_outcome(m, program, accounts[0], accounts[2], data)
            }
        },
        InstructionData::RemoveNode { target_node } => {
            if accounts.len() < 3 || accounts[2] != target_node {
                Err(ListError::MissingSlot)
            } else {
                remove_outcome(m, program, accounts[0], accounts[1], target_node)
            }
        },
    }
}

/// What a call with the encoded command `data` does to the slots `m`.
pub open spec fn instruction_outcome(
    m: Map<Address, SlotState>,
    program: Address,
    accounts: Seq<Address>,
    data: Seq<u8>,
) -> Result<Map<Address, SlotState>, ListError> {
    match command_of(data) {
        None => Err(ListError::InvalidCommand),
        Some(cmd) => command_outcome(m, program, accounts, cmd),
    }
}

/// Decodes a command and runs it on the slots of `ws`; `accounts` lists the
/// addresses of the slots passed to the call, in the order the command reads them.
pub fn process_instruction(
    program_id: &Address,
    accounts: &[Address],
    ws: &mut WorkingSet,
    instruction_data: &[u8],
) -> (r: Result<(), ListError>)
    ensures
        follows(instruction_outcome(old(ws)@, *program_id, accounts@, instruction_data@), old(ws)@, final(ws)@, r),
{
    let cmd = match InstructionData::try_from_slice(instruction_data) {
        Ok(c) => c,
        Err(e) => {
            return Err(e);
        },
    };
    match cmd {
        InstructionData::InitializeList => {
            if accounts.len() < 2 {
                return Err(ListError::MissingSlot);
            }
            initialize(ws, program_id, &accounts[1])
        },
        InstructionData::AddNode { data } => {
            if accounts.len() < 4 {
                return Err(ListError::MissingSlot);
            }
            insert(ws, program_id, &accounts[0], &accounts[2], data)
        },
        InstructionData::RemoveNode { target_node } => {
            if accounts.len() < 3 || !accounts[2].same_as(&target_node) {
                return Err(ListError::MissingSlot);
            }
            remove(ws, program_id, &accounts[0], &accounts[1], &target_node)
        },
    }
}

} // verus!
