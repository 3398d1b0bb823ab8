use vstd::prelude::*;

use crate::error::ExecError;
use crate::memory::Memory;
use crate::options::Options;
use crate::semantics::{
    extends, lemma_reach_input, lemma_reach_loop, lemma_seq_input, loop_reach, run_node, run_seq, Node,
    Run,
};

verus! {

broadcast use vstd::std_specs::vec::axiom_vec_index_decreases;

/// An operation of a parsed program. A program is a tree of these.
pub enum Op {
    /// Operations run in order; when `cond` holds, run again and again while
    /// the current cell is not zero, and not at all if it is zero on entry.
    Routine { ops: Vec<Op>, cond: bool },
    /// Move the pointer by `amount`.
    Seek { amount: isize },
    /// Add `amount` to the current cell, modulo 256.
    Inc { amount: isize },
    /// Store one byte of input in the current cell.
    Input,
    /// Output the current cell.
    Output,
    /// Set the current cell to zero.
    Zero,
    /// Add the current cell to the cell at each offset of `targets`, then zero it.
    AddAndZero { targets: Vec<isize> },
}

pub open spec fn op_node(op: Op) -> Node
    decreases op,
{
    match op {
        Op::Routine { ops, cond } => Node::Routine { body: ops_nodes(ops@), cond },
        Op::Seek { amount } => Node::Seek { amount },
        Op::Inc { amount } => Node::Inc { amount },
        Op::Input => Node::Input,
        Op::Output => Node::Output,
        Op::Zero => Node::Zero,
        Op::AddAndZero { targets } => Node::AddAndZero { targets: targets@ },
    }
}

pub open spec fn ops_nodes(ops: Seq<Op>) -> Seq<Node>
    decreases ops,
{
    if ops.len() == 0 {
        Seq::empty()
    } else {
        ops_nodes(ops.drop_last()).push(op_node(ops.last()))
    }
}

impl View for Op {
    type V = Node;

    open spec fn view(&self) -> Node {
        op_node(*self)
    }
}

pub proof fn lemma_ops_nodes(ops: Seq<Op>)
    ensures
        ops_nodes(ops).len() == ops.len(),
        forall|i: int| 0 <= i < ops.len() ==> #[trigger] ops_nodes(ops)[i] == op_node(ops[i]),
    decreases ops.len(),
{
    if ops.len() > 0 {
        lemma_ops_nodes(ops.drop_last());
    }
}

pub proof fn lemma_ops_nodes_take(ops: Seq<Op>, i: int)
    requires
        0 <= i <= ops.len(),
    ensures
        ops_nodes(ops.take(i)) == ops_nodes(ops).take(i),
{
    lemma_ops_nodes(ops.take(i));
    lemma_ops_nodes(ops);
    assert(ops_nodes(ops.take(i)) =~= ops_nodes(ops).take(i));
}

/// The state of a run made of the given parts.
pub open spec fn run_of(memory: Memory, output: Seq<u8>, log: Seq<u8>) -> Run {
    Run { tape: memory@, out: output, nread: log.len() }
}

pub open spec fn error_of(r: Result<(), ExecError>) -> Option<ExecError> {
    match r {
        Ok(_) => None,
        Err(e) => Some(e),
    }
}

impl Op {
    /// Execute this operation on `memory`, appending output bytes to `output`.
    ///
    /// Each byte of input comes from one call of `read`, which fails the run when
    /// it returns `None`; each byte read is appended to `inputs`. Unless
    /// `options.buffer` holds, `emit` receives each output byte as it is produced.
    /// A loop that runs more than `limit` times in a row fails with `StepLimit`.
    pub fn execute<R: Fn() -> Option<u8>, W: Fn(u8)>(
        &self,
        memory: &mut Memory,
        options: &Options,
        output: &mut Vec<u8>,
        inputs: &mut Vec<u8>,
        read: &R,
        emit: &W,
        limit: u64,
    ) -> (r: Result<(), ExecError>)
        requires
            old(memory).wf(),
            read.requires(()),
            forall|b: u8| emit.requires((b,)),
        ensures
            final(memory).wf(),
            extends(old(inputs)@, final(inputs)@),
            run_node(self@, run_of(*old(memory), old(output)@, old(inputs)@), final(inputs)@, limit as nat)
                == (run_of(*final(memory), final(output)@, final(inputs)@), error_of(r)),
        decreases self, 0nat,
    {
        proof {
            assert(inputs@.take(inputs@.len() as int) =~= inputs@);
        }
        match self {
            Op::Seek { amount } => memory.seek(*amount),
            Op::Inc { amount } => {
                memory.inc(*amount);
                Ok(())
            },
            Op::Zero => {
                memory.set_zero();
                Ok(())
            },
            Op::Output => {
                let value = memory.read();
                output.push(value);
                if !options.buffer {
                    emit(value);
                }
                Ok(())
            },
            Op::Input => {
                match read() {
                    Some(b) => {
                        inputs.push(b);
                        memory.write(b);
                        assert(inputs@.take(old(inputs)@.len() as int) =~= old(inputs)@);
                        Ok(())
                    },
                    None => {
                        assert(inputs@.take(inputs@.len() as int) =~= inputs@);
                        Err(ExecError::InputFailed)
                    },
                }
            },
            Op::AddAndZero { targets } => memory.copy_zero(targets),
            Op::Routine { ops, cond } => {
                if !*cond {
                    return execute_ops(ops, memory, options, output, inputs, read, emit, limit);
                }
                let ghost body = ops_nodes(ops@);
                let ghost s0 = run_of(*memory, output@, inputs@);
                let ghost log0 = inputs@;
                let mut k: u64 = limit;
                proof {
                    assert(inputs@.take(inputs@.len() as int) =~= inputs@);
                }
                loop
                    invariant
                        memory.wf(),
                        read.requires(()),
                        forall|b: u8| emit.requires((b,)),
                        *cond,
                        *self == (Op::Routine { ops: *ops, cond: *cond }),
                        s0 == run_of(*old(memory), old(output)@, old(inputs)@),
                        log0 == old(inputs)@,
                        body == ops_nodes(ops@),
                        self@ == (Node::Routine { body, cond: true }),
                        k <= limit,
                        s0.nread == log0.len(),
                        extends(log0, inputs@),
                        loop_reach(body, s0, inputs@, limit as nat, (limit - k) as nat)
                            == Some(run_of(*memory, output@, inputs@)),
                    decreases k,
                {
                    proof {
                        lemma_reach_loop(body, s0, inputs@, limit as nat, (limit - k) as nat, limit as nat);
                    }
                    if memory.zero() {
                        return Ok(());
                    }
                    if k == 0 {
                        return Err(ExecError::StepLimit);
                    }
                    let ghost before = run_of(*memory, output@, inputs@);
                    let ghost log1 = inputs@;
                    let r = execute_ops(ops, memory, options, output, inputs, read, emit, limit);
                    proof {
                        lemma_reach_input(body, s0, log1, inputs@, limit as nat, (limit - k) as nat);
                        assert(inputs@.take(log0.len() as int) =~= log0) by {
                            assert(inputs@.take(log1.len() as int).take(log0.len() as int) =~= inputs@.take(log0.len() as int));
                        }
                        lemma_reach_loop(body, s0, inputs@, limit as nat, (limit - k) as nat, limit as nat);
                    }
                    if r.is_err() {
                        return r;
                    }
                    k = k - 1;
                    assert(loop_reach(body, s0, inputs@, limit as nat, (limit - k) as nat)
                        == Some(run_of(*memory, output@, inputs@)));
                }
            },
        }
    }
}

/// Execute `ops` in order, as `Op::execute` does, stopping at the first error.
fn execute_ops<R: Fn() -> Option<u8>, W: Fn(u8)>(
    ops: &Vec<Op>,
    memory: &mut Memory,
    options: &Options,
    output: &mut Vec<u8>,
    inputs: &mut Vec<u8>,
    read: &R,
    emit: &W,
    limit: u64,
) -> (r: Result<(), ExecError>)
    requires
        old(memory).wf(),
        read.requires(()),
        forall|b: u8| emit.requires((b,)),
    ensures
        final(memory).wf(),
        extends(old(inputs)@, final(inputs)@),
        run_seq(ops_nodes(ops@), run_of(*old(memory), old(output)@, old(inputs)@), final(inputs)@, limit as nat)
            == (run_of(*final(memory), final(output)@, final(inputs)@), error_of(r)),
    decreases ops, 0nat,
{
    let ghost s0 = run_of(*memory, output@, inputs@);
    let ghost log0 = inputs@;
    proof {
        assert(inputs@.take(inputs@.len() as int) =~= inputs@);
        assert(ops@.take(0) =~= Seq::<Op>::empty());
        lemma_ops_nodes(ops@);
    }
    let mut i: usize = 0;
    while i < ops.len()
        invariant
            memory.wf(),
            read.requires(()),
            forall|b: u8| emit.requires((b,)),
            i <= ops.len(),
            s0 == run_of(*old(memory), old(output)@, old(inputs)@),
            log0 == old(inputs)@,
            s0.nread == log0.len(),
            extends(log0, inputs@),
            run_seq(ops_nodes(ops@.take(i as int)), s0, inputs@, limit as nat)
                == (run_of(*memory, output@, inputs@), None::<ExecError>),
        decreases ops.len() - i,
    {
        let ghost log1 = inputs@;
        let r = ops[i].execute(memory, options, output, inputs, read, emit, limit);
        proof {
            let pre = ops_nodes(ops@.take(i as int));
            lemma_seq_input(pre, s0, log1, inputs@, limit as nat);
            assert(inputs@.take(log0.len() as int) =~= log0) by {
                assert(inputs@.take(log1.len() as int).take(log0.len() as int) =~= inputs@.take(log0.len() as int));
            }
            let next = ops_nodes(ops@.take(i + 1));
            lemma_ops_nodes(ops@.take(i + 1));
            lemma_ops_nodes(ops@.take(i as int));
            assert(next.drop_last() =~= pre) by {
                assert(ops@.take(i + 1).drop_last() =~= ops@.take(i as int));
            }
            assert(next.last() == ops[i as int]@);
        }
        if r.is_err() {
            proof {
                lemma_ops_nodes(ops@);
                lemma_ops_nodes_take(ops@, i + 1);
                lemma_ops_nodes_take(ops@, i as int);
                lemma_seq_prefix_error(ops_nodes(ops@), (i + 1) as int, s0, inputs@, limit as nat);
            }
            return r;
        }
        i = i + 1;
    }
    proof {
        assert(ops@.take(i as int) =~= ops@);
    }
    Ok(())
}

/// A sequence that fails in its first `i` operations ends as that prefix does.
proof fn lemma_seq_prefix_error(body: Seq<Node>, i: int, s: Run, input: Seq<u8>, limit: nat)
    requires
        0 <= i <= body.len(),
        run_seq(body.take(i), s, input, limit).1.is_some(),
    ensures
        run_seq(body, s, input, limit) == run_seq(body.take(i), s, input, limit),
    decreases body.len(),
{
    if i < body.len() {
        assert(body.drop_last().take(i) =~= body.take(i));
        lemma_seq_prefix_error(body.drop_last(), i, s, input, limit);
    } else {
        assert(body.take(i) =~= body);
    }
}

} // verus!
