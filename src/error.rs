use vstd::prelude::*;

verus! {

/// Why an execution stopped before the program finished.
#[derive(Clone, Copy, Debug, PartialEq, Eq, Structural)]
pub enum ExecError {
    /// The pointer or an indexed cell would leave the tape.
    OutOfBounds,
    /// The input source could not supply a byte.
    InputFailed,
    /// A loop ran for more iterations than the step limit allows.
    StepLimit,
}

} // verus!
