use vstd::prelude::*;

use crate::op::{lemma_ops_nodes, ops_nodes, Op};
use crate::semantics::Node;

verus! {

/// Whether a routine is a loop whose body only adds to the current cell.
pub open spec fn is_zero_loop(cond: bool, body: Seq<Node>) -> bool {
    cond && forall|i: int| 0 <= i < body.len() ==> #[trigger] body[i] is Inc
}

/// The amount of a `Seek`, and zero for any other operation.
pub open spec fn seek_amount(n: Node) -> int {
    match n {
        Node::Seek { amount } => amount as int,
        _ => 0,
    }
}

/// The number of (move, add one) pairs in a body of the add-and-zero shape.
pub open spec fn pair_count(body: Seq<Node>) -> int {
    (body.len() - 2) / 2
}

/// The offset from the base cell reached by the move of pair `j`: the sum of
/// the moves of pairs `0..=j`.
pub open spec fn offset_at(body: Seq<Node>, j: int) -> int
    decreases j + 1,
{
    if j < 0 {
        0
    } else {
        offset_at(body, j - 1) + seek_amount(body[1 + 2 * j])
    }
}

/// Pair `j` is a move to a cell other than the base, whose offset fits an
/// `isize`, followed by adding one.
pub open spec fn pair_ok(body: Seq<Node>, j: int) -> bool {
    &&& body[1 + 2 * j] is Seek
    &&& body[2 + 2 * j] == (Node::Inc { amount: 1isize })
    &&& isize::MIN <= offset_at(body, j) <= isize::MAX
    &&& offset_at(body, j) != 0
}

/// Whether a routine is a loop that subtracts one from the current cell, adds
/// one to each of a number of distinct other cells, and moves back.
pub open spec fn is_add_and_zero_loop(cond: bool, body: Seq<Node>) -> bool {
    &&& cond
    &&& body.len() >= 4
    &&& body.len() % 2 == 0
    &&& body[0] == (Node::Inc { amount: -1isize })
    &&& forall|j: int| 0 <= j < pair_count(body) ==> #[trigger] pair_ok(body, j)
    &&& forall|j: int, k: int|
        0 <= k < j < pair_count(body) ==> #[trigger] offset_at(body, k) != #[trigger] offset_at(body, j)
    &&& body.last() is Seek
    &&& seek_amount(body.last()) == -offset_at(body, pair_count(body) - 1)
}

/// The cells, relative to the base, that an add-and-zero loop adds to, in order.
pub open spec fn add_and_zero_targets(body: Seq<Node>) -> Seq<isize> {
    Seq::new(pair_count(body) as nat, |j: int| offset_at(body, j) as isize)
}

/// The single operation that replaces a routine, if one of the recognized
/// idioms matches; the zero loop is tried first.
pub open spec fn optimized(cond: bool, body: Seq<Node>) -> Option<Node> {
    if is_zero_loop(cond, body) {
        Some(Node::Zero)
    } else if is_add_and_zero_loop(cond, body) {
        Some(Node::AddAndZero { targets: add_and_zero_targets(body) })
    } else {
        None
    }
}

/// Whether no routine anywhere in `n` is matched by a recognizer.
pub open spec fn fully_optimized(n: Node) -> bool
    decreases n,
{
    match n {
        Node::Routine { body, cond } => {
            &&& optimized(cond, body).is_none()
            &&& seq_optimized(body)
        },
        _ => true,
    }
}

/// Whether no routine anywhere in the operations of `body` is matched by a recognizer.
pub open spec fn seq_optimized(body: Seq<Node>) -> bool
    decreases body,
{
    body.len() == 0 || (seq_optimized(body.drop_last()) && fully_optimized(body.last()))
}

pub proof fn lemma_seq_optimized(body: Seq<Node>)
    ensures
        seq_optimized(body) <==> forall|i: int| 0 <= i < body.len() ==> #[trigger] fully_optimized(body[i]),
    decreases body.len(),
{
    if body.len() > 0 {
        let pre = body.drop_last();
        lemma_seq_optimized(pre);
        assert(forall|i: int| 0 <= i < pre.len() ==> #[trigger] pre[i] == body[i]);
        if seq_optimized(body) {
            assert forall|i: int| 0 <= i < body.len() implies #[trigger] fully_optimized(body[i]) by {
                if i < pre.len() {
                    assert(fully_optimized(pre[i]));
                }
            }
        }
        if forall|i: int| 0 <= i < body.len() ==> #[trigger] fully_optimized(body[i]) {
            assert(fully_optimized(body[body.len() - 1]));
            assert forall|i: int| 0 <= i < pre.len() implies #[trigger] fully_optimized(pre[i]) by {
                assert(fully_optimized(body[i]));
            }
        }
    }
}

/// `n` with the optimizer applied once more to every routine, bottom-up.
pub open spec fn reoptimize(n: Node) -> Node
    decreases n,
{
    match n {
        Node::Routine { body, cond } => {
            let b = reoptimize_seq(body);
            match optimized(cond, b) {
                Some(r) => r,
                None => Node::Routine { body: b, cond },
            }
        },
        _ => n,
    }
}

pub open spec fn reoptimize_seq(body: Seq<Node>) -> Seq<Node>
    decreases body,
{
    if body.len() == 0 {
        Seq::empty()
    } else {
        reoptimize_seq(body.drop_last()).push(reoptimize(body.last()))
    }
}

/// Optimizing a tree in which no routine is matched any more changes nothing.
pub proof fn lemma_reoptimize_fixed(n: Node)
    requires
        fully_optimized(n),
    ensures
        reoptimize(n) == n,
    decreases n, 0nat,
{
    if let Node::Routine { body, cond } = n {
        lemma_seq_optimized(body);
        lemma_reoptimize_seq_fixed(body);
    }
}

proof fn lemma_reoptimize_seq_fixed(body: Seq<Node>)
    requires
        forall|i: int| 0 <= i < body.len() ==> #[trigger] fully_optimized(body[i]),
    ensures
        reoptimize_seq(body) == body,
    decreases body, 0nat,
{
    if body.len() > 0 {
        let pre = body.drop_last();
        assert forall|i: int| 0 <= i < pre.len() implies #[trigger] fully_optimized(pre[i]) by {
            assert(pre[i] == body[i]);
        }
        lemma_reoptimize_seq_fixed(pre);
        assert(fully_optimized(body[body.len() - 1]));
        lemma_reoptimize_fixed(body.last());
        assert(pre.push(body.last()) =~= body);
    }
}

pub open spec fn option_node(r: Option<Op>) -> Option<Node> {
    match r {
        Some(op) => Some(op@),
        None => None,
    }
}

/// Replace a loop that only adds to the current cell by `Zero`.
pub fn optimize_zero(cond: bool, ops: &Vec<Op>) -> (r: Option<Op>)
    ensures
        option_node(r) == (if is_zero_loop(cond, ops_nodes(ops@)) {
            Some(Node::Zero)
        } else {
            None
        }),
{
    proof {
        lemma_ops_nodes(ops@);
    }
    if !cond {
        return None;
    }
    let mut i: usize = 0;
    while i < ops.len()
        invariant
            i <= ops.len(),
            ops_nodes(ops@).len() == ops@.len(),
            forall|k: int| 0 <= k < ops@.len() ==> #[trigger] ops_nodes(ops@)[k] == ops@[k]@,
            forall|k: int| 0 <= k < i ==> #[trigger] ops_nodes(ops@)[k] is Inc,
        decreases ops.len() - i,
    {
        match &ops[i] {
            Op::Inc { .. } => {},
            _ => {
                assert(!(ops_nodes(ops@)[i as int] is Inc));
                return None;
            },
        }
        i = i + 1;
    }
    Some(Op::Zero)
}

/// Replace a loop of the add-and-zero shape, such as `[->+<]` or `[->+>+<<]`,
/// by one `AddAndZero` over the offsets it adds to.
pub fn optimize_add_and_zero(cond: bool, ops: &Vec<Op>) -> (r: Option<Op>)
    ensures
        option_node(r) == (if is_add_and_zero_loop(cond, ops_nodes(ops@)) {
            Some(Node::AddAndZero { targets: add_and_zero_targets(ops_nodes(ops@)) })
        } else {
            None
        }),
{
    let ghost body = ops_nodes(ops@);
    proof {
        lemma_ops_nodes(ops@);
    }
    if !cond || ops.len() < 4 || ops.len() % 2 != 0 {
        return None;
    }
    match &ops[0] {
        Op::Inc { amount } => {
            if *amount != -1 {
                return None;
            }
        },
        _ => {
            return None;
        },
    }
    let len: usize = ops.len();
    let n: usize = (len - 2) / 2;
    let mut targets: Vec<isize> = Vec::new();
    let mut offset: isize = 0;
    let mut j: usize = 0;
    while j < n
        invariant
            body == ops_nodes(ops@),
            body.len() == ops@.len(),
            forall|i: int| 0 <= i < ops@.len() ==> #[trigger] body[i] == ops@[i]@,
            cond,
            body.len() >= 4,
            body.len() % 2 == 0,
            body[0] == (Node::Inc { amount: -1isize }),
            n == pair_count(body),
            2 * n + 2 == len,
            len == ops@.len(),
            j <= n,
            offset == offset_at(body, j - 1),
            targets@ == Seq::new(j as nat, |k: int| offset_at(body, k) as isize),
            forall|k: int| 0 <= k < j ==> #[trigger] pair_ok(body, k),
            forall|a: int, b: int| 0 <= b < a < j ==> #[trigger] offset_at(body, b) != #[trigger] offset_at(body, a),
        decreases n - j,
    {
        let amount: isize = match &ops[1 + 2 * j] {
            Op::Seek { amount } => *amount,
            _ => {
                assert(!pair_ok(body, j as int));
                return None;
            },
        };
        match &ops[2 + 2 * j] {
            Op::Inc { amount } => {
                if *amount != 1 {
                    assert(!pair_ok(body, j as int));
                    return None;
                }
            },
            _ => {
                assert(!pair_ok(body, j as int));
                return None;
            },
        }
        let sum: i128 = offset as i128 + amount as i128;
        if sum < isize::MIN as i128 || sum > isize::MAX as i128 || sum == 0 {
            assert(!pair_ok(body, j as int));
            return None;
        }
        let next = sum as isize;
        assert(next == offset_at(body, j as int));
        let mut k: usize = 0;
        while k < j
            invariant
                k <= j,
                j < n,
                body == ops_nodes(ops@),
                n == pair_count(body),
                targets@ == Seq::new(j as nat, |m: int| offset_at(body, m) as isize),
                forall|m: int| 0 <= m < j ==> #[trigger] pair_ok(body, m),
                next == offset_at(body, j as int),
                forall|m: int| 0 <= m < k ==> offset_at(body, m) != #[trigger] offset_at(body, j as int),
            decreases j - k,
        {
            assert(pair_ok(body, k as int));
            if targets[k] == next {
                assert(offset_at(body, k as int) == offset_at(body, j as int));
                return None;
            }
            k = k + 1;
        }
        targets.push(next);
        offset = next;
        j = j + 1;
        assert(pair_ok(body, j - 1));
        assert(targets@ =~= Seq::new(j as nat, |m: int| offset_at(body, m) as isize));
    }
    assert(body.last() == ops@[ops.len() - 1]@);
    match &ops[ops.len() - 1] {
        Op::Seek { amount } => {
            if *amount as i128 != -(offset as i128) {
                return None;
            }
        },
        _ => {
            return None;
        },
    }
    Some(Op::AddAndZero { targets })
}

/// Replace a routine by a single equivalent operation when it matches one of
/// the recognized idioms; the first that matches wins.
pub fn optimize_routine(cond: bool, ops: &Vec<Op>) -> (r: Option<Op>)
    ensures
        option_node(r) == optimized(cond, ops_nodes(ops@)),
{
    match optimize_zero(cond, ops) {
        Some(op) => Some(op),
        None => optimize_add_and_zero(cond, ops),
    }
}

} // verus!
