//! Patch sites that accompany a procedure's machine code.

use vstd::prelude::*;

verus! {

/// A deferred fix-up that the object writer resolves once final addresses
/// are known.
#[derive(Debug, Clone, PartialEq, Eq)]
pub enum Relocation {
    /// Bytes of local data referenced from `offset` in the code buffer.
    LocalData { offset: u64, data: Vec<u8> },
    /// A call or reference to the external function `name` at `offset`.
    LinkedFunction { offset: u64, name: String },
    /// A reference to the external data symbol `name` at `offset`.
    LinkedData { offset: u64, name: String },
    /// A jump to the procedure's return sequence: the instruction at
    /// `inst_loc`, `inst_size` bytes long, jumps to `offset`.
    JmpToReturn { inst_loc: u64, inst_size: u64, offset: u64 },
}

} // verus!
