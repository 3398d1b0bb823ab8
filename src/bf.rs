use vstd::prelude::*;

use crate::error::ExecError;
use crate::interpreter::{parse_program, Interpreter};
use crate::memory::{Memory, Tape, MEM_SIZE};
use crate::op::{error_of, run_of};
use crate::options::Options;
use crate::semantics::{run_node, Outcome, Run};
use vstd::string::StringSliceAdditionalSpecFns;

verus! {

/// How many times in a row a loop may run before a run is given up.
pub const STEP_LIMIT: u64 = 0xffff_ffff_ffff_ffff;

/// The state a program starts in: a zero tape of `MEM_SIZE` cells, nothing
/// output and nothing read.
pub open spec fn initial_run() -> Run {
    Run {
        tape: Tape { cells: Seq::new(MEM_SIZE as nat, |i: int| 0u8), ptr: 0 },
        out: Seq::empty(),
        nread: 0,
    }
}

/// Running the program text `b` on a fresh tape, with `input` as the bytes read.
pub open spec fn program_outcome(b: Seq<u8>, input: Seq<u8>) -> Outcome {
    run_node(parse_program(b), initial_run(), input, STEP_LIMIT as nat)
}

/// Whether the program text `b`, reading exactly the bytes `input`, finishes
/// without error having output `out`.
pub open spec fn finishes_with(b: Seq<u8>, input: Seq<u8>, out: Seq<u8>) -> bool {
    &&& program_outcome(b, input).1 == None::<ExecError>
    &&& program_outcome(b, input).0.out == out
    &&& program_outcome(b, input).0.nread == input.len()
}

/// Whether the program text `b`, with `input` as the bytes it can read, stops with `e`.
pub open spec fn fails_with(b: Seq<u8>, input: Seq<u8>, e: ExecError) -> bool {
    program_outcome(b, input).1 == Some(e)
}

/// Interpret the program `prog` and return the bytes it outputs.
///
/// Each input byte comes from one call of `read`; unless `options.buffer`
/// holds, each output byte is also handed to `emit` as soon as it is produced.
/// The result is that of running the program on the bytes `read` returned.
pub fn bf<R: Fn() -> Option<u8>, W: Fn(u8)>(prog: &str, options: &Options, read: &R, emit: &W) -> (r: Result<Vec<u8>, ExecError>)
    requires
        prog.spec_bytes().len() <= isize::MAX,
        read.requires(()),
        forall|b: u8| emit.requires((b,)),
    ensures
        match r {
            Ok(out) => exists|input: Seq<u8>| #[trigger] finishes_with(prog.spec_bytes(), input, out@),
            Err(e) => exists|input: Seq<u8>| #[trigger] fails_with(prog.spec_bytes(), input, e),
        },
{
    let bytes = prog.as_bytes();
    let start = Interpreter::interpret(bytes);
    let mut memory = Memory::new();
    let mut output: Vec<u8> = Vec::new();
    let mut inputs: Vec<u8> = Vec::new();
    proof {
        assert(run_of(memory, output@, inputs@) == initial_run());
    }
    let result = start.execute(&mut memory, options, &mut output, &mut inputs, read, emit, STEP_LIMIT);
    proof {
        let s = run_of(memory, output@, inputs@);
        assert(program_outcome(prog.spec_bytes(), inputs@) == (s, error_of(result)));
    }
    let ghost log = inputs@;
    match result {
        Ok(()) => {
            let ghost out = output@;
            assert(finishes_with(prog.spec_bytes(), log, out));
            let res: Result<Vec<u8>, ExecError> = Ok(output);
            assert(res.unwrap()@ == out);
            res
        },
        Err(e) => {
            assert(fails_with(prog.spec_bytes(), log, e));
            Err(e)
        },
    }
}

} // verus!
