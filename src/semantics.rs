use vstd::prelude::*;

use crate::error::ExecError;
use crate::memory::Tape;

verus! {

/// The mathematical value of an operation tree.
pub enum Node {
    Routine { body: Seq<Node>, cond: bool },
    Seek { amount: isize },
    Inc { amount: isize },
    Input,
    Output,
    Zero,
    AddAndZero { targets: Seq<isize> },
}

/// The state of a run: the tape, the bytes output so far, and how many input
/// bytes have been read.
pub struct Run {
    pub tape: Tape,
    pub out: Seq<u8>,
    pub nread: nat,
}

/// What a run ends with: its last state, and the error that stopped it, if any.
pub type Outcome = (Run, Option<ExecError>);

/// Executing `n` from `s`, where `input` holds the bytes that the input source
/// supplies and a loop may run at most `limit` times each time it is entered.
pub open spec fn run_node(n: Node, s: Run, input: Seq<u8>, limit: nat) -> Outcome
    decreases n, 0nat,
{
    match n {
        Node::Routine { body, cond } => {
            if cond {
                run_loop(body, s, input, limit, limit)
            } else {
                run_seq(body, s, input, limit)
            }
        },
        Node::Seek { amount } => match s.tape.seek(amount as int) {
            Some(t) => (Run { tape: t, ..s }, None),
            None => (s, Some(ExecError::OutOfBounds)),
        },
        Node::Inc { amount } => (Run { tape: s.tape.inc(amount as int), ..s }, None),
        Node::Input => {
            if s.nread < input.len() {
                (Run { tape: s.tape.with_current(input[s.nread as int]), nread: s.nread + 1, ..s }, None)
            } else {
                (s, Some(ExecError::InputFailed))
            }
        },
        Node::Output => (Run { out: s.out.push(s.tape.current()), ..s }, None),
        Node::Zero => (Run { tape: s.tape.with_current(0), ..s }, None),
        Node::AddAndZero { targets } => match s.tape.add_and_zero(targets) {
            Some(t) => (Run { tape: t, ..s }, None),
            None => (s, Some(ExecError::OutOfBounds)),
        },
    }
}

/// Executing the operations of `body` in order, stopping at the first error.
pub open spec fn run_seq(body: Seq<Node>, s: Run, input: Seq<u8>, limit: nat) -> Outcome
    decreases body, 0nat,
{
    if body.len() == 0 {
        (s, None)
    } else {
        let (s1, e) = run_seq(body.drop_last(), s, input, limit);
        if e.is_some() {
            (s1, e)
        } else {
            run_node(body.last(), s1, input, limit)
        }
    }
}

/// Executing `body` while the current cell is not zero, at most `k` more times.
pub open spec fn run_loop(body: Seq<Node>, s: Run, input: Seq<u8>, limit: nat, k: nat) -> Outcome
    decreases body, k,
{
    if s.tape.current() == 0 {
        (s, None)
    } else if k == 0 {
        (s, Some(ExecError::StepLimit))
    } else {
        let (s1, e) = run_seq(body, s, input, limit);
        if e.is_some() {
            (s1, e)
        } else {
            run_loop(body, s1, input, limit, (k - 1) as nat)
        }
    }
}

/// The state after `n` passes of a loop over `body` from `s`, each begun on a
/// non-zero cell and finished without error; `None` when that is not so.
pub open spec fn loop_reach(body: Seq<Node>, s: Run, input: Seq<u8>, limit: nat, n: nat) -> Option<Run>
    decreases n,
{
    if n == 0 {
        Some(s)
    } else {
        match loop_reach(body, s, input, limit, (n - 1) as nat) {
            Some(t) => {
                if t.tape.current() == 0 {
                    None
                } else {
                    let (t1, e) = run_seq(body, t, input, limit);
                    if e.is_some() {
                        None
                    } else {
                        Some(t1)
                    }
                }
            },
            None => None,
        }
    }
}

/// Running a sequence with one more operation runs that operation after the rest.
pub proof fn lemma_run_seq_push(x: Seq<Node>, n: Node, s: Run, input: Seq<u8>, limit: nat)
    ensures
        run_seq(x.push(n), s, input, limit) == (if run_seq(x, s, input, limit).1.is_some() {
            run_seq(x, s, input, limit)
        } else {
            run_node(n, run_seq(x, s, input, limit).0, input, limit)
        }),
{
    assert(x.push(n).drop_last() =~= x);
}

pub open spec fn extends(small: Seq<u8>, big: Seq<u8>) -> bool {
    small.len() <= big.len() && big.take(small.len() as int) == small
}

/// A run reads input only below its end, and gives the same outcome on any
/// longer input unless it stopped for want of input.
pub proof fn lemma_node_input(n: Node, s: Run, l1: Seq<u8>, l2: Seq<u8>, limit: nat)
    requires
        s.nread <= l1.len(),
        extends(l1, l2),
    ensures
        s.nread <= run_node(n, s, l1, limit).0.nread <= l1.len(),
        run_node(n, s, l1, limit).1 != Some(ExecError::InputFailed)
            ==> run_node(n, s, l2, limit) == run_node(n, s, l1, limit),
    decreases n, 0nat,
{
    match n {
        Node::Routine { body, cond } => {
            if cond {
                lemma_loop_input(body, s, l1, l2, limit, limit);
            } else {
                lemma_seq_input(body, s, l1, l2, limit);
            }
        },
        Node::Input => {
            if s.nread < l1.len() {
                assert(l2[s.nread as int] == l2.take(l1.len() as int)[s.nread as int]);
            }
        },
        _ => {},
    }
}

pub proof fn lemma_seq_input(body: Seq<Node>, s: Run, l1: Seq<u8>, l2: Seq<u8>, limit: nat)
    requires
        s.nread <= l1.len(),
        extends(l1, l2),
    ensures
        s.nread <= run_seq(body, s, l1, limit).0.nread <= l1.len(),
        run_seq(body, s, l1, limit).1 != Some(ExecError::InputFailed)
            ==> run_seq(body, s, l2, limit) == run_seq(body, s, l1, limit),
    decreases body, 0nat,
{
    if body.len() > 0 {
        lemma_seq_input(body.drop_last(), s, l1, l2, limit);
        let (s1, e) = run_seq(body.drop_last(), s, l1, limit);
        if e.is_none() {
            lemma_node_input(body.last(), s1, l1, l2, limit);
        }
    }
}

pub proof fn lemma_loop_input(body: Seq<Node>, s: Run, l1: Seq<u8>, l2: Seq<u8>, limit: nat, k: nat)
    requires
        s.nread <= l1.len(),
        extends(l1, l2),
    ensures
        s.nread <= run_loop(body, s, l1, limit, k).0.nread <= l1.len(),
        run_loop(body, s, l1, limit, k).1 != Some(ExecError::InputFailed)
            ==> run_loop(body, s, l2, limit, k) == run_loop(body, s, l1, limit, k),
    decreases body, k,
{
    if s.tape.current() != 0 && k > 0 {
        lemma_seq_input(body, s, l1, l2, limit);
        let (s1, e) = run_seq(body, s, l1, limit);
        if e.is_none() {
            lemma_loop_input(body, s1, l1, l2, limit, (k - 1) as nat);
        }
    }
}

/// Passes of a loop that finished without error end in the same state on a longer input.
pub proof fn lemma_reach_input(body: Seq<Node>, s: Run, l1: Seq<u8>, l2: Seq<u8>, limit: nat, n: nat)
    requires
        s.nread <= l1.len(),
        extends(l1, l2),
        loop_reach(body, s, l1, limit, n).is_some(),
    ensures
        loop_reach(body, s, l2, limit, n) == loop_reach(body, s, l1, limit, n),
        s.nread <= loop_reach(body, s, l1, limit, n).unwrap().nread <= l1.len(),
    decreases n,
{
    if n > 0 {
        lemma_reach_input(body, s, l1, l2, limit, (n - 1) as nat);
        let t = loop_reach(body, s, l1, limit, (n - 1) as nat).unwrap();
        lemma_seq_input(body, t, l1, l2, limit);
    }
}

/// After `n` passes that finished without error, the loop goes on from where they ended.
pub proof fn lemma_reach_loop(body: Seq<Node>, s: Run, input: Seq<u8>, limit: nat, n: nat, k: nat)
    requires
        loop_reach(body, s, input, limit, n).is_some(),
        n <= k,
    ensures
        run_loop(body, s, input, limit, k)
            == run_loop(body, loop_reach(body, s, input, limit, n).unwrap(), input, limit, (k - n) as nat),
    decreases n,
{
    if n > 0 {
        lemma_reach_loop(body, s, input, limit, (n - 1) as nat, k);
        let t = loop_reach(body, s, input, limit, (n - 1) as nat).unwrap();
        assert(t.tape.current() != 0);
    }
}

} // verus!
