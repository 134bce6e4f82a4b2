use vstd::prelude::*;

pub mod backend;
pub mod compiler;
pub mod vm;

verus! {

/// Command-line options consumed by the surrounding application: run the
/// program directly, or render it to a textual low-level program in `output`.
pub struct AppCli {
    /// Execute the input file directly on the virtual machine.
    pub execute: bool,
    /// Render the input file to a textual low-level program at this path.
    pub output: Option<String>,
    /// The file to execute or compile.
    pub file: String,
}

/// Number of tape cells the generated program reserves. The interpreter's
/// tape is sparse and unbounded; only the generated code is bounded by this.
pub const NUM_CELLS: usize = 30000;

/// The intermediate representation: a closed set of six operations shared by
/// the translator, the interpreter and the code-generation backend.
#[derive(Clone, Copy, Debug, PartialEq, Eq, Structural)]
pub enum Instruction {
    /// Shift the data pointer by the given offset (wrapping).
    MovePointer(isize),
    /// Add the given delta to the cell under the pointer, modulo 256.
    Add(isize),
    /// Read one byte (0 at end of input) into the cell under the pointer.
    Input,
    /// Emit the byte stored in the cell under the pointer.
    Output,
    /// Branch to the target index when the cell under the pointer is zero.
    JumpIfZero(usize),
    /// Branch to the target index when the cell under the pointer is nonzero.
    JumpIfNonZero(usize),
}

/// Errors the translator can surface: an unmatched closing bracket in the
/// source, or a desynchronized bracket stack after the fusion pass (the
/// latter would indicate a translator defect, never a user error).
#[derive(Clone, Copy, Debug, PartialEq, Eq, Structural)]
pub enum CompileError {
    SyntaxError,
    InternalInvariantError,
}

impl Instruction {
    /// Two instructions fuse when they are adjacent and of the same
    /// payload-carrying kind.
    pub open spec fn fuses_with(self, other: Instruction) -> bool {
        ||| (self is MovePointer && other is MovePointer)
        ||| (self is Add && other is Add)
    }
}

} // verus!
