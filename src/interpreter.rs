use vstd::prelude::*;

use crate::op::{lemma_ops_nodes, ops_nodes, Op};
use crate::optimize::{
    fully_optimized, lemma_reoptimize_fixed, option_node, optimize_routine, optimized, reoptimize,
};
use crate::memory::wrap;
use crate::semantics::{lemma_run_seq_push, run_node, run_seq, Node, Outcome, Run};

verus! {

/// `>`: move the pointer right.
pub const MOVE_RIGHT: u8 = 62;

/// `<`: move the pointer left.
pub const MOVE_LEFT: u8 = 60;

/// `+`: add one to the current cell.
pub const INCREMENT: u8 = 43;

/// `-`: subtract one from the current cell.
pub const DECREMENT: u8 = 45;

/// `.`: output the current cell.
pub const OUTPUT: u8 = 46;

/// `,`: read a byte into the current cell.
pub const INPUT: u8 = 44;

/// `[`: start a loop.
pub const LOOP_OPEN: u8 = 91;

/// `]`: end a loop.
pub const LOOP_CLOSE: u8 = 93;

/// `acc` with the pending operation, if any, appended.
pub open spec fn flush(acc: Seq<Node>, pend: Option<Node>) -> Seq<Node> {
    match pend {
        Some(n) => acc.push(n),
        None => acc,
    }
}

/// A move by `d` merged into a pending move, or started as a new pending one.
pub open spec fn fuse_seek(acc: Seq<Node>, pend: Option<Node>, d: int) -> (Seq<Node>, Option<Node>) {
    match pend {
        Some(Node::Seek { amount }) => (acc, Some(Node::Seek { amount: (amount + d) as isize })),
        _ => (flush(acc, pend), Some(Node::Seek { amount: d as isize })),
    }
}

/// An addition of `d` merged into a pending addition, or started as a new pending one.
pub open spec fn fuse_inc(acc: Seq<Node>, pend: Option<Node>, d: int) -> (Seq<Node>, Option<Node>) {
    match pend {
        Some(Node::Inc { amount }) => (acc, Some(Node::Inc { amount: (amount + d) as isize })),
        _ => (flush(acc, pend), Some(Node::Inc { amount: d as isize })),
    }
}

/// A routine over `body`, or the single operation that replaces it.
pub open spec fn routine_node(body: Seq<Node>, cond: bool) -> Node {
    match optimized(cond, body) {
        Some(n) => n,
        None => Node::Routine { body, cond },
    }
}

/// Parsing `b` from `pos`, with the operations `acc` already built and `pend`
/// waiting to be merged with the next one: the operations of the routine and
/// the position after it. Inside a loop (`nested`) a `]` ends the routine;
/// outside one it is ignored like any other unknown byte.
pub open spec fn parse_seq(b: Seq<u8>, pos: int, acc: Seq<Node>, pend: Option<Node>, nested: bool) -> (Seq<Node>, int)
    decreases b.len() - pos,
{
    if pos < 0 || pos >= b.len() {
        (flush(acc, pend), b.len() as int)
    } else {
        let c = b[pos];
        if c == MOVE_RIGHT {
            let (a, p) = fuse_seek(acc, pend, 1);
            parse_seq(b, pos + 1, a, p, nested)
        } else if c == MOVE_LEFT {
            let (a, p) = fuse_seek(acc, pend, -1);
            parse_seq(b, pos + 1, a, p, nested)
        } else if c == INCREMENT {
            let (a, p) = fuse_inc(acc, pend, 1);
            parse_seq(b, pos + 1, a, p, nested)
        } else if c == DECREMENT {
            let (a, p) = fuse_inc(acc, pend, -1);
            parse_seq(b, pos + 1, a, p, nested)
        } else if c == OUTPUT {
            parse_seq(b, pos + 1, flush(acc, pend).push(Node::Output), None, nested)
        } else if c == INPUT {
            parse_seq(b, pos + 1, flush(acc, pend).push(Node::Input), None, nested)
        } else if c == LOOP_OPEN {
            let (inner, end) = parse_seq(b, pos + 1, Seq::empty(), None, true);
            if end <= pos || end > b.len() {
                (acc, pos)
            } else {
                parse_seq(b, end, flush(acc, pend).push(routine_node(inner, true)), None, nested)
            }
        } else if c == LOOP_CLOSE && nested {
            (flush(acc, pend), pos + 1)
        } else {
            parse_seq(b, pos + 1, acc, pend, nested)
        }
    }
}

/// The operation tree of the program `b`.
pub open spec fn parse_program(b: Seq<u8>) -> Node {
    Node::Routine { body: parse_seq(b, 0, Seq::empty(), None, false).0, cond: false }
}

/// Parsing from a position on the input ends after it, and no further than the end.
pub proof fn lemma_parse_end(b: Seq<u8>, pos: int, acc: Seq<Node>, pend: Option<Node>, nested: bool)
    requires
        0 <= pos <= b.len(),
    ensures
        pos < b.len() ==> pos < parse_seq(b, pos, acc, pend, nested).1,
        parse_seq(b, pos, acc, pend, nested).1 <= b.len(),
    decreases b.len() - pos,
{
    if pos < b.len() {
        let c = b[pos];
        if c == MOVE_RIGHT {
            let (a, p) = fuse_seek(acc, pend, 1);
            lemma_parse_end(b, pos + 1, a, p, nested);
        } else if c == MOVE_LEFT {
            let (a, p) = fuse_seek(acc, pend, -1);
            lemma_parse_end(b, pos + 1, a, p, nested);
        } else if c == INCREMENT {
            let (a, p) = fuse_inc(acc, pend, 1);
            lemma_parse_end(b, pos + 1, a, p, nested);
        } else if c == DECREMENT {
            let (a, p) = fuse_inc(acc, pend, -1);
            lemma_parse_end(b, pos + 1, a, p, nested);
        } else if c == OUTPUT {
            lemma_parse_end(b, pos + 1, flush(acc, pend).push(Node::Output), None, nested);
        } else if c == INPUT {
            lemma_parse_end(b, pos + 1, flush(acc, pend).push(Node::Input), None, nested);
        } else if c == LOOP_OPEN {
            let (inner, end) = parse_seq(b, pos + 1, Seq::empty(), None, true);
            lemma_parse_end(b, pos + 1, Seq::empty(), None, true);
            lemma_parse_end(b, end, flush(acc, pend).push(routine_node(inner, true)), None, nested);
        } else if c == LOOP_CLOSE && nested {
        } else {
            lemma_parse_end(b, pos + 1, acc, pend, nested);
        }
    }
}

pub open spec fn all_optimized(s: Seq<Node>) -> bool {
    forall|i: int| 0 <= i < s.len() ==> #[trigger] fully_optimized(s[i])
}

proof fn lemma_all_optimized_push(s: Seq<Node>, n: Node)
    requires
        all_optimized(s),
        fully_optimized(n),
    ensures
        all_optimized(s.push(n)),
{
    assert forall|i: int| 0 <= i < s.push(n).len() implies #[trigger] fully_optimized(s.push(n)[i]) by {
        if i < s.len() {
            assert(s.push(n)[i] == s[i]);
        }
    }
}

/// Every routine that parsing builds has been through the optimizer already.
proof fn lemma_parse_optimized(b: Seq<u8>, pos: int, acc: Seq<Node>, pend: Option<Node>, nested: bool)
    requires
        0 <= pos <= b.len(),
        all_optimized(acc),
        pend matches Some(n) ==> fully_optimized(n),
    ensures
        all_optimized(parse_seq(b, pos, acc, pend, nested).0),
    decreases b.len() - pos,
{
    if let Some(n) = pend {
        lemma_all_optimized_push(acc, n);
    }
    if pos < b.len() {
        let c = b[pos];
        if c == MOVE_RIGHT {
            let (a, p) = fuse_seek(acc, pend, 1);
            lemma_parse_optimized(b, pos + 1, a, p, nested);
        } else if c == MOVE_LEFT {
            let (a, p) = fuse_seek(acc, pend, -1);
            lemma_parse_optimized(b, pos + 1, a, p, nested);
        } else if c == INCREMENT {
            let (a, p) = fuse_inc(acc, pend, 1);
            lemma_parse_optimized(b, pos + 1, a, p, nested);
        } else if c == DECREMENT {
            let (a, p) = fuse_inc(acc, pend, -1);
            lemma_parse_optimized(b, pos + 1, a, p, nested);
        } else if c == OUTPUT {
            lemma_all_optimized_push(flush(acc, pend), Node::Output);
            lemma_parse_optimized(b, pos + 1, flush(acc, pend).push(Node::Output), None, nested);
        } else if c == INPUT {
            lemma_all_optimized_push(flush(acc, pend), Node::Input);
            lemma_parse_optimized(b, pos + 1, flush(acc, pend).push(Node::Input), None, nested);
        } else if c == LOOP_OPEN {
            let (inner, end) = parse_seq(b, pos + 1, Seq::empty(), None, true);
            lemma_parse_optimized(b, pos + 1, Seq::empty(), None, true);
            lemma_parse_end(b, pos + 1, Seq::empty(), None, true);
            let r = routine_node(inner, true);
            crate::optimize::lemma_seq_optimized(inner);
            lemma_all_optimized_push(flush(acc, pend), r);
            lemma_parse_optimized(b, end, flush(acc, pend).push(r), None, nested);
        } else if c == LOOP_CLOSE && nested {
        } else {
            lemma_parse_optimized(b, pos + 1, acc, pend, nested);
        }
    }
}

/// Running the optimizer a second time over a parsed program changes nothing.
pub proof fn lemma_optimize_idempotent(b: Seq<u8>)
    ensures
        reoptimize(parse_program(b)) == parse_program(b),
{
    lemma_parse_optimized(b, 0, Seq::empty(), None, false);
    crate::optimize::lemma_seq_optimized(parse_seq(b, 0, Seq::empty(), None, false).0);
    lemma_reoptimize_fixed(parse_program(b));
}

/// The operation of one instruction byte on its own, before any merging; a byte
/// that is no instruction does nothing.
pub open spec fn unit_node(c: u8) -> Node {
    if c == MOVE_RIGHT {
        Node::Seek { amount: 1 }
    } else if c == MOVE_LEFT {
        Node::Seek { amount: -1isize }
    } else if c == INCREMENT {
        Node::Inc { amount: 1 }
    } else if c == DECREMENT {
        Node::Inc { amount: -1isize }
    } else if c == OUTPUT {
        Node::Output
    } else {
        Node::Routine { body: Seq::empty(), cond: false }
    }
}

/// Whether `c` is a move, an addition, a subtraction or an output.
pub open spec fn is_straight_byte(c: u8) -> bool {
    c == MOVE_RIGHT || c == MOVE_LEFT || c == INCREMENT || c == DECREMENT || c == OUTPUT
}

/// Executing `b` one byte at a time, each as its own operation.
pub open spec fn run_bytes(b: Seq<u8>, s: Run) -> Outcome
    decreases b.len(),
{
    if b.len() == 0 {
        (s, None)
    } else {
        let (s1, e) = run_bytes(b.drop_last(), s);
        if e.is_some() {
            (s1, e)
        } else {
            run_node(unit_node(b.last()), s1, Seq::empty(), 0)
        }
    }
}

/// Whether the move at byte `k` of `b`, run one byte at a time from `s`, neither
/// stops at the first cell nor passes the last.
pub open spec fn move_ok(b: Seq<u8>, s: Run, k: int) -> bool {
    let t = run_bytes(b.take(k), s).0.tape;
    &&& b[k] == MOVE_LEFT ==> t.ptr > 0
    &&& b[k] == MOVE_RIGHT ==> t.ptr + 1 < t.cells.len()
}

/// Whether, run one byte at a time from `s`, no move of `b` stops at the first
/// cell or passes the last.
pub open spec fn moves_stay_on_tape(b: Seq<u8>, s: Run) -> bool {
    forall|k: int| 0 <= k < b.len() ==> #[trigger] move_ok(b, s, k)
}

/// The pending operation is an in-range move or addition whose amount is at
/// most `pos` in size, after operations that ran without error.
pub open spec fn pending_ok(acc: Seq<Node>, pend: Option<Node>, s: Run, pos: int, input: Seq<u8>, limit: nat) -> bool {
    let (u, e) = run_seq(acc, s, input, limit);
    match pend {
        Some(Node::Seek { amount }) => {
            &&& -pos <= amount <= pos
            &&& e.is_none()
            &&& 0 <= u.tape.ptr + amount < u.tape.cells.len()
        },
        Some(Node::Inc { amount }) => -pos <= amount <= pos && e.is_none() && u.tape.wf(),
        None => true,
        _ => false,
    }
}

pub proof fn lemma_wrap_twice(v: int, a: int, d: int)
    ensures
        wrap(wrap(v + a) + d) == wrap(v + a + d),
{
    vstd::arithmetic::div_mod::lemma_add_mod_noop(v + a, d, 256);
    vstd::arithmetic::div_mod::lemma_mod_twice(v + a, 256);
    vstd::arithmetic::div_mod::lemma_add_mod_noop((v + a) % 256, d, 256);
}

proof fn lemma_run_bytes_step(b: Seq<u8>, s: Run, pos: int)
    requires
        0 <= pos < b.len(),
    ensures
        run_bytes(b.take(pos + 1), s) == (if run_bytes(b.take(pos), s).1.is_some() {
            run_bytes(b.take(pos), s)
        } else {
            run_node(unit_node(b[pos]), run_bytes(b.take(pos), s).0, Seq::empty(), 0)
        }),
{
    assert(b.take(pos + 1).drop_last() =~= b.take(pos));
}

/// A move merged into a pending move goes where the two moves go one after the other.
proof fn lemma_seek_merge(u: Run, a: isize, d: int, input: Seq<u8>, limit: nat)
    requires
        0 <= u.tape.ptr + a < u.tape.cells.len(),
        0 <= u.tape.ptr + a + d < u.tape.cells.len(),
        isize::MIN <= a + d <= isize::MAX,
        d == 1 || d == -1,
    ensures
        run_node(Node::Seek { amount: (a + d) as isize }, u, input, limit)
            == run_node(Node::Seek { amount: d as isize }, run_node(Node::Seek { amount: a }, u, input, limit).0, Seq::empty(), 0),
        run_node(Node::Seek { amount: (a + d) as isize }, u, input, limit).1 == None::<crate::error::ExecError>,
{
}

/// An addition merged into a pending addition gives what the two give one after the other.
proof fn lemma_inc_merge(u: Run, a: isize, d: int, input: Seq<u8>, limit: nat)
    requires
        u.tape.wf(),
        isize::MIN <= a + d <= isize::MAX,
        d == 1 || d == -1,
    ensures
        run_node(Node::Inc { amount: (a + d) as isize }, u, input, limit)
            == run_node(Node::Inc { amount: d as isize }, run_node(Node::Inc { amount: a }, u, input, limit).0, Seq::empty(), 0),
{
    let t = run_node(Node::Inc { amount: a }, u, input, limit).0;
    lemma_wrap_twice(u.tape.current() as int, a as int, d);
    assert(t.tape.inc(d).cells =~= u.tape.inc(a + d).cells);
}

/// A single instruction other than input does not depend on the input or the loop limit.
proof fn lemma_unit_node_free(c: u8, t: Run, input: Seq<u8>, limit: nat)
    requires
        is_straight_byte(c),
    ensures
        run_node(unit_node(c), t, input, limit) == run_node(unit_node(c), t, Seq::empty(), 0),
{
}

proof fn lemma_fusion_step(b: Seq<u8>, s: Run, input: Seq<u8>, limit: nat, pos: int, acc: Seq<Node>, pend: Option<Node>)
    requires
        0 <= pos < b.len() <= isize::MAX,
        is_straight_byte(b[pos]),
        move_ok(b, s, pos),
        run_bytes(b.take(pos), s).1 == None::<crate::error::ExecError>,
        run_bytes(b.take(pos), s).0.tape.wf(),
        run_seq(flush(acc, pend), s, input, limit) == run_bytes(b.take(pos), s),
        pending_ok(acc, pend, s, pos, input, limit),
    ensures
        ({
            let c = b[pos];
            let (next_acc, next_pend) = if c == MOVE_RIGHT {
                fuse_seek(acc, pend, 1)
            } else if c == MOVE_LEFT {
                fuse_seek(acc, pend, -1)
            } else if c == INCREMENT {
                fuse_inc(acc, pend, 1)
            } else if c == DECREMENT {
                fuse_inc(acc, pend, -1)
            } else {
                (flush(acc, pend).push(Node::Output), None)
            };
            &&& run_bytes(b.take(pos + 1), s).1 == None::<crate::error::ExecError>
            &&& run_bytes(b.take(pos + 1), s).0.tape.wf()
            &&& run_seq(flush(next_acc, next_pend), s, input, limit) == run_bytes(b.take(pos + 1), s)
            &&& pending_ok(next_acc, next_pend, s, pos + 1, input, limit)
        }),
{
    let c = b[pos];
    let t = run_bytes(b.take(pos), s).0;
    lemma_run_bytes_step(b, s, pos);
    lemma_unit_node_free(c, t, input, limit);
    let u = run_seq(acc, s, input, limit).0;
    let fl = flush(acc, pend);
    if c == MOVE_RIGHT || c == MOVE_LEFT {
        let d: int = if c == MOVE_RIGHT { 1 } else { -1 };
        match pend {
            Some(Node::Seek { amount }) => {
                lemma_run_seq_push(acc, Node::Seek { amount }, s, input, limit);
                lemma_run_seq_push(acc, Node::Seek { amount: (amount + d) as isize }, s, input, limit);
                lemma_seek_merge(u, amount, d, input, limit);
            },
            _ => {
                lemma_run_seq_push(fl, Node::Seek { amount: d as isize }, s, input, limit);
            },
        }
    } else if c == INCREMENT || c == DECREMENT {
        let d: int = if c == INCREMENT { 1 } else { -1 };
        match pend {
            Some(Node::Inc { amount }) => {
                lemma_run_seq_push(acc, Node::Inc { amount }, s, input, limit);
                lemma_run_seq_push(acc, Node::Inc { amount: (amount + d) as isize }, s, input, limit);
                lemma_inc_merge(u, amount, d, input, limit);
            },
            _ => {
                lemma_run_seq_push(fl, Node::Inc { amount: d as isize }, s, input, limit);
            },
        }
    } else {
        lemma_run_seq_push(fl, Node::Output, s, input, limit);
    }
}

/// Parsing from `pos` on, with what is built so far matching the first `pos`
/// bytes run one at a time, gives operations that match the whole of `b`.
proof fn lemma_fusion_from(b: Seq<u8>, s: Run, input: Seq<u8>, limit: nat, pos: int, acc: Seq<Node>, pend: Option<Node>)
    requires
        0 <= pos <= b.len() <= isize::MAX,
        forall|k: int| 0 <= k < b.len() ==> #[trigger] is_straight_byte(b[k]),
        moves_stay_on_tape(b, s),
        run_bytes(b.take(pos), s).1 == None::<crate::error::ExecError>,
        run_bytes(b.take(pos), s).0.tape.wf(),
        run_seq(flush(acc, pend), s, input, limit) == run_bytes(b.take(pos), s),
        pending_ok(acc, pend, s, pos, input, limit),
    ensures
        run_seq(parse_seq(b, pos, acc, pend, false).0, s, input, limit) == run_bytes(b, s),
    decreases b.len() - pos,
{
    if pos == b.len() {
        assert(b.take(pos) =~= b);
    } else {
        let c = b[pos];
        assert(is_straight_byte(b[pos]));
        assert(move_ok(b, s, pos));
        lemma_fusion_step(b, s, input, limit, pos, acc, pend);
        if c == MOVE_RIGHT {
            let (a, p) = fuse_seek(acc, pend, 1);
            lemma_fusion_from(b, s, input, limit, pos + 1, a, p);
        } else if c == MOVE_LEFT {
            let (a, p) = fuse_seek(acc, pend, -1);
            lemma_fusion_from(b, s, input, limit, pos + 1, a, p);
        } else if c == INCREMENT {
            let (a, p) = fuse_inc(acc, pend, 1);
            lemma_fusion_from(b, s, input, limit, pos + 1, a, p);
        } else if c == DECREMENT {
            let (a, p) = fuse_inc(acc, pend, -1);
            lemma_fusion_from(b, s, input, limit, pos + 1, a, p);
        } else {
            lemma_fusion_from(b, s, input, limit, pos + 1, flush(acc, pend).push(Node::Output), None);
        }
    }
}

/// A program of moves, additions, subtractions and outputs alone runs as its
/// bytes do one at a time, as long as no move stops at the first cell or passes
/// the last (there a merged move would differ).
pub proof fn lemma_fusion_matches_bytes(b: Seq<u8>, s: Run, input: Seq<u8>, limit: nat)
    requires
        s.tape.wf(),
        b.len() <= isize::MAX,
        forall|k: int| 0 <= k < b.len() ==> #[trigger] is_straight_byte(b[k]),
        moves_stay_on_tape(b, s),
    ensures
        run_node(parse_program(b), s, input, limit) == run_bytes(b, s),
{
    assert(b.take(0) =~= Seq::<u8>::empty());
    lemma_fusion_from(b, s, input, limit, 0, Seq::empty(), None);
}

/// Whether `ws` is empty or a pending move or addition whose amount is at most `bound` in size.
pub open spec fn workspace_ok(ws: Option<Op>, bound: int) -> bool {
    match ws {
        Some(Op::Seek { amount }) => -bound <= amount <= bound,
        Some(Op::Inc { amount }) => -bound <= amount <= bound,
        None => true,
        _ => false,
    }
}

proof fn lemma_ops_nodes_push(ops: Seq<Op>, op: Op)
    ensures
        ops_nodes(ops.push(op)) == ops_nodes(ops).push(op@),
{
    assert(ops.push(op).drop_last() =~= ops);
}

/// Builds operation trees from program text.
pub struct Interpreter;

impl Interpreter {
    /// The operation tree of a whole program: a routine run once, whose loops
    /// are already optimized.
    pub fn interpret(program: &[u8]) -> (r: Op)
        requires
            program@.len() <= isize::MAX,
        ensures
            r@ == parse_program(program@),
    {
        let (ops, _end) = Interpreter::interpret_vec(program, 0, false);
        Op::Routine { ops, cond: false }
    }

    /// The routine that starts at `start`, optimized, and the position after it.
    fn interpret_routine(bytes: &[u8], start: usize, cond: bool) -> (r: (Op, usize))
        requires
            start <= bytes@.len() <= isize::MAX,
        ensures
            r.0@ == routine_node(parse_seq(bytes@, start as int, Seq::empty(), None, true).0, cond),
            r.1 == parse_seq(bytes@, start as int, Seq::empty(), None, true).1,
        decreases bytes@.len() - start, 1nat,
    {
        let (ops, end) = Interpreter::interpret_vec(bytes, start, true);
        match optimize_routine(cond, &ops) {
            Some(op) => (op, end),
            None => (Op::Routine { ops, cond }, end),
        }
    }

    /// The operations from `start` up to the end of the enclosing routine, and
    /// the position after it.
    fn interpret_vec(bytes: &[u8], start: usize, nested: bool) -> (r: (Vec<Op>, usize))
        requires
            start <= bytes@.len() <= isize::MAX,
        ensures
            ops_nodes(r.0@) == parse_seq(bytes@, start as int, Seq::empty(), None, nested).0,
            r.1 == parse_seq(bytes@, start as int, Seq::empty(), None, nested).1,
        decreases bytes@.len() - start, 0nat,
    {
        let mut ops: Vec<Op> = Vec::new();
        let mut workspace: Option<Op> = None;
        let mut pos: usize = start;
        let ghost target = parse_seq(bytes@, start as int, Seq::empty(), None, nested);
        proof {
            assert(ops_nodes(ops@) =~= Seq::<Node>::empty());
        }
        while pos < bytes.len()
            invariant
                start <= pos <= bytes@.len() <= isize::MAX,
                workspace_ok(workspace, pos - start),
                target == parse_seq(bytes@, start as int, Seq::empty(), None, nested),
                target == parse_seq(bytes@, pos as int, ops_nodes(ops@), option_node(workspace), nested),
            decreases bytes@.len() - pos,
        {
            let c = bytes[pos];
            if c == MOVE_RIGHT {
                Interpreter::process_workspace_seek(&mut workspace, &mut ops, 1);
            } else if c == MOVE_LEFT {
                Interpreter::process_workspace_seek(&mut workspace, &mut ops, -1);
            } else if c == INCREMENT {
                Interpreter::process_workspace_inc(&mut workspace, &mut ops, 1);
            } else if c == DECREMENT {
                Interpreter::process_workspace_inc(&mut workspace, &mut ops, -1);
            } else if c == OUTPUT {
                Interpreter::commit(&mut workspace, &mut ops);
                proof { lemma_ops_nodes_push(ops@, Op::Output); }
                ops.push(Op::Output);
            } else if c == INPUT {
                Interpreter::commit(&mut workspace, &mut ops);
                proof { lemma_ops_nodes_push(ops@, Op::Input); }
                ops.push(Op::Input);
            } else if c == LOOP_OPEN {
                Interpreter::commit(&mut workspace, &mut ops);
                let (op, end) = Interpreter::interpret_routine(bytes, pos + 1, true);
                proof {
                    lemma_ops_nodes_push(ops@, op);
                    lemma_parse_end(bytes@, pos + 1, Seq::empty(), None, true);
                }
                ops.push(op);
                pos = end;
                continue;
            } else if c == LOOP_CLOSE && nested {
                Interpreter::commit(&mut workspace, &mut ops);
                return (ops, pos + 1);
            }
            pos = pos + 1;
        }
        Interpreter::commit(&mut workspace, &mut ops);
        (ops, pos)
    }

    /// Move the pending operation, if any, to the end of `ops`, leaving nothing pending.
    fn commit(workspace: &mut Option<Op>, ops: &mut Vec<Op>)
        ensures
            ops_nodes(final(ops)@) == flush(ops_nodes(old(ops)@), option_node(*old(workspace))),
            *final(workspace) == None::<Op>,
    {
        let taken = workspace.take();
        match taken {
            Some(op) => {
                proof { lemma_ops_nodes_push(ops@, op); }
                ops.push(op);
            },
            None => {},
        }
    }

    /// Merge a move by `amount` into the pending operation, or commit that and
    /// start a pending move.
    fn process_workspace_seek(workspace: &mut Option<Op>, ops: &mut Vec<Op>, amount: isize)
        requires
            -1 <= amount <= 1,
            workspace_ok(*old(workspace), isize::MAX - 1),
        ensures
            (ops_nodes(final(ops)@), option_node(*final(workspace)))
                == fuse_seek(ops_nodes(old(ops)@), option_node(*old(workspace)), amount as int),
            forall|bound: int| bound >= 0 && workspace_ok(*old(workspace), bound) ==> workspace_ok(*final(workspace), bound + 1),
    {
        match workspace {
            Some(Op::Seek { amount: current }) => {
                *current = *current + amount;
            },
            _ => {
                Interpreter::commit(workspace, ops);
                *workspace = Some(Op::Seek { amount });
            },
        }
    }

    /// Merge an addition of `amount` into the pending operation, or commit that
    /// and start a pending addition.
    fn process_workspace_inc(workspace: &mut Option<Op>, ops: &mut Vec<Op>, amount: isize)
        requires
            -1 <= amount <= 1,
            workspace_ok(*old(workspace), isize::MAX - 1),
        ensures
            (ops_nodes(final(ops)@), option_node(*final(workspace)))
                == fuse_inc(ops_nodes(old(ops)@), option_node(*old(workspace)), amount as int),
            forall|bound: int| bound >= 0 && workspace_ok(*old(workspace), bound) ==> workspace_ok(*final(workspace), bound + 1),
    {
        match workspace {
            Some(Op::Inc { amount: current }) => {
                *current = *current + amount;
            },
            _ => {
                Interpreter::commit(workspace, ops);
                *workspace = Some(Op::Inc { amount });
            },
        }
    }
}

} // verus!
