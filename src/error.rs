use vstd::prelude::*;

verus! {

/// Why an operation on the list was refused. A refused operation changes no slot.
#[derive(Clone, Copy, Debug, PartialEq, Eq, Structural)]
pub enum ListError {
    /// The command bytes do not decode to a command.
    InvalidCommand,
    /// A slot that the operation reads as a node or writes is not owned by the list's authority.
    NotAuthorized,
    /// Initialize found a slot that already holds something other than a blank record.
    AlreadyInitialized,
    /// A slot that the operation needs was not among the slots handed to the call.
    MissingSlot,
    /// A slot's bytes are not a node record, or the slot cannot hold one.
    MalformedRecord,
    /// Two roles of one call name the same slot where they must differ.
    AliasedSlot,
    /// The node to remove links to itself: it is the only node of its list.
    SoleNode,
    /// Crediting the reclaimed balance would overflow the receiving slot's balance.
    BalanceOverflow,
}

} // verus!
