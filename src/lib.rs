//! An interpreter for a minimal tape language: programs are parsed into an
//! operation tree, common loop idioms are replaced by single operations, and
//! the tree is executed against a byte tape.

pub mod bf;
pub mod equivalence;
pub mod error;
pub mod interpreter;
pub mod memory;
pub mod op;
pub mod optimize;
pub mod options;
pub mod profiler;
pub mod semantics;

pub use crate::error::ExecError;
pub use crate::memory::{Memory, Tape, MEM_SIZE};
pub use crate::semantics::{Node, Outcome, Run};
pub use crate::op::Op;
pub use crate::options::Options;
pub use crate::optimize::{optimize_add_and_zero, optimize_routine, optimize_zero};
pub use crate::interpreter::Interpreter;
pub use crate::bf::{bf, STEP_LIMIT};
pub use crate::profiler::Profiler;
