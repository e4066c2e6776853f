//! The errors of the library.

use vstd::prelude::*;

verus! {

/// Why an operation of this library gave up.
#[derive(Debug, Clone, Copy, PartialEq, Eq, Structural)]
pub enum Error {
    /// The buffer is not a chunk of the expected format: wrong header, an
    /// unknown opcode or operand, or the buffer ends too early.
    FormatError,
    /// A conditional is not followed by a jump, or a jump does not land on
    /// the first instruction of a basic block.
    MalformedCFG,
    /// More registers or constants are needed than an instruction can name.
    ResourceExhausted,
    /// A value that the library keeps consistent was found inconsistent.
    InternalInvariant,
}

} // verus!
