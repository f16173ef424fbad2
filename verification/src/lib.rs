//! A verified execution engine for a tiny eight-instruction tape language.
//!
//! A program is a sequence of instruction bytes.  Eight byte values are
//! instructions; a loader drops every other byte before a program is built.
//! Before a run, a linear scan pairs each open bracket with its matching
//! close bracket in a jump table.  The engine then executes the program
//! against a fixed-size circular tape of byte cells, wrapping both the tape
//! pointer and the cell values, until the program counter leaves the program.
//!
//! Input and output are modelled as plain values: the engine consumes a queue
//! of input bytes and produces the sequence of bytes it emitted.  A caller
//! that talks to real streams drives the engine one instruction at a time.

use vstd::prelude::*;

pub mod jump;
pub mod machine;
pub mod ops;

verus! {

/// Number of byte cells on the tape.
pub const TAPE_LEN: usize = 30000;

/// Every way a load or a run can fail.  Each failure is terminal for the
/// run and carries the position at which it was detected.
#[derive(Clone, Copy, Debug, PartialEq, Eq, Structural)]
pub enum EngineError {
    /// A byte outside the eight instruction characters was decoded,
    /// at this program position.
    UnknownInstruction { position: u64, byte: u8 },
    /// An unmatched bracket: for a stray close bracket, its own position;
    /// for an open bracket never closed, the position of such an open bracket.
    MalformedProgram { position: u64 },
    /// An input instruction found no input byte at this program position.
    InputExhausted { position: u64 },
}

} // verus!
