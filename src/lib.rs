//! A circular doubly linked list whose nodes live in separately addressed
//! storage slots, relinked by explicit reads and writes of fixed-size records.

pub mod address;
pub mod error;
pub mod instruction;
pub mod processor;
pub mod record;
pub mod relink;
pub mod ring;
pub mod slots;

pub use address::Address;
pub use error::ListError;
pub use instruction::InstructionData;
pub use processor::process_instruction;
pub use record::Node;
pub use slots::{Slot, SlotState, WorkingSet};
