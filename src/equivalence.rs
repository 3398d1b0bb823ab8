use vstd::prelude::*;

use crate::memory::{add_to_targets, wrap, Tape};
use crate::optimize::{
    add_and_zero_targets, is_add_and_zero_loop, is_zero_loop, offset_at, pair_count, pair_ok, seek_amount,
};
use crate::semantics::{lemma_run_seq_push, run_loop, run_node, run_seq, Node, Run};

verus! {

/// The sum of the amounts of a body of additions.
pub open spec fn inc_sum(body: Seq<Node>) -> int
    decreases body.len(),
{
    if body.len() == 0 {
        0
    } else {
        inc_sum(body.drop_last()) + match body.last() {
            Node::Inc { amount } => amount as int,
            _ => 0,
        }
    }
}

/// A body of additions to the current cell changes only that cell, by the sum
/// of its amounts, and never fails.
proof fn lemma_inc_body(body: Seq<Node>, s: Run, input: Seq<u8>, limit: nat)
    requires
        s.tape.wf(),
        forall|i: int| 0 <= i < body.len() ==> #[trigger] body[i] is Inc,
    ensures
        ({
            let (r, e) = run_seq(body, s, input, limit);
            &&& e == None::<crate::error::ExecError>
            &&& r.out == s.out
            &&& r.nread == s.nread
            &&& r.tape.ptr == s.tape.ptr
            &&& r.tape.cells == s.tape.cells.update(s.tape.ptr, r.tape.current())
            &&& r.tape.current() == wrap(s.tape.current() + inc_sum(body))
        }),
    decreases body.len(),
{
    if body.len() > 0 {
        let pre = body.drop_last();
        assert forall|i: int| 0 <= i < pre.len() implies #[trigger] pre[i] is Inc by {
            assert(pre[i] == body[i]);
        }
        lemma_inc_body(pre, s, input, limit);
        let (r, e) = run_seq(pre, s, input, limit);
        assert(body.last() is Inc);
        let (r2, e2) = run_node(body.last(), r, input, limit);
        assert(r2.tape.cells =~= s.tape.cells.update(s.tape.ptr, r2.tape.current()));
        if let Node::Inc { amount } = body.last() {
            crate::interpreter::lemma_wrap_twice(s.tape.current() as int, inc_sum(pre), amount as int);
        }
    } else {
        assert(s.tape.cells =~= s.tape.cells.update(s.tape.ptr, s.tape.current()));
    }
}

proof fn lemma_zero_loop_run(body: Seq<Node>, s: Run, input: Seq<u8>, limit: nat, k: nat)
    requires
        s.tape.wf(),
        forall|i: int| 0 <= i < body.len() ==> #[trigger] body[i] is Inc,
        run_loop(body, s, input, limit, k).1 == None::<crate::error::ExecError>,
    ensures
        run_loop(body, s, input, limit, k) == run_node(Node::Zero, s, input, limit),
    decreases k,
{
    if s.tape.current() == 0 {
        assert(s.tape.cells =~= s.tape.cells.update(s.tape.ptr, 0));
    } else if k > 0 {
        lemma_inc_body(body, s, input, limit);
        let (s1, e) = run_seq(body, s, input, limit);
        lemma_zero_loop_run(body, s1, input, limit, (k - 1) as nat);
        assert(s1.tape.cells.update(s.tape.ptr, 0) =~= s.tape.cells.update(s.tape.ptr, 0));
    }
}

proof fn lemma_unit_zero_loop(body: Seq<Node>, s: Run, input: Seq<u8>, limit: nat, k: nat)
    requires
        s.tape.wf(),
        forall|i: int| 0 <= i < body.len() ==> #[trigger] body[i] is Inc,
        inc_sum(body) % 256 == 1 || inc_sum(body) % 256 == 255,
        inc_sum(body) % 256 == 255 ==> k >= s.tape.current(),
        inc_sum(body) % 256 == 1 ==> k + s.tape.current() >= 256 || s.tape.current() == 0,
    ensures
        run_loop(body, s, input, limit, k).1 == None::<crate::error::ExecError>,
    decreases k,
{
    if s.tape.current() != 0 {
        lemma_inc_body(body, s, input, limit);
        let (s1, e) = run_seq(body, s, input, limit);
        let v = s.tape.current() as int;
        vstd::arithmetic::div_mod::lemma_add_mod_noop(v, inc_sum(body), 256);
        lemma_unit_zero_loop(body, s1, input, limit, (k - 1) as nat);
    }
}

/// A loop whose body only adds to the current cell and moves it by one, up or
/// down modulo 256, in each pass, ends from every starting value in the state
/// that `Zero` gives, when it may run 255 times.
pub proof fn lemma_unit_zero_loop_equivalence(body: Seq<Node>, s: Run, input: Seq<u8>, limit: nat)
    requires
        s.tape.wf(),
        is_zero_loop(true, body),
        inc_sum(body) % 256 == 1 || inc_sum(body) % 256 == 255,
        limit >= 255,
    ensures
        run_node(Node::Routine { body, cond: true }, s, input, limit) == run_node(Node::Zero, s, input, limit),
{
    lemma_unit_zero_loop(body, s, input, limit, limit);
    lemma_zero_loop_run(body, s, input, limit, limit);
}

/// A loop whose body only adds to the current cell, by any amounts, ends in the
/// state that `Zero` gives whenever it finishes. (A body whose additions sum to
/// an even amount never finishes from an odd cell.)
pub proof fn lemma_zero_loop_equivalence(body: Seq<Node>, s: Run, input: Seq<u8>, limit: nat)
    requires
        s.tape.wf(),
        is_zero_loop(true, body),
        run_node(Node::Routine { body, cond: true }, s, input, limit).1 == None::<crate::error::ExecError>,
    ensures
        run_node(Node::Routine { body, cond: true }, s, input, limit) == run_node(Node::Zero, s, input, limit),
{
    lemma_zero_loop_run(body, s, input, limit, limit);
}

/// Whether some offset of `ts` from `base` is the cell `x`.
pub open spec fn hit(ts: Seq<isize>, base: int, x: int) -> bool {
    exists|i: int| 0 <= i < ts.len() && base + ts[i] == x
}

pub open spec fn distinct(ts: Seq<isize>) -> bool {
    forall|i: int, j: int| 0 <= i < j < ts.len() ==> ts[i] != ts[j]
}

/// With distinct offsets, each cell that an offset names gains `v` once, and the others stay.
proof fn lemma_add_to_targets_at(c: Seq<u8>, base: int, ts: Seq<isize>, v: u8, x: int)
    requires
        forall|i: int| 0 <= i < ts.len() ==> 0 <= base + #[trigger] ts[i] < c.len(),
        distinct(ts),
        0 <= x < c.len(),
    ensures
        add_to_targets(c, base, ts, v).len() == c.len(),
        add_to_targets(c, base, ts, v)[x] == (if hit(ts, base, x) {
            wrap(c[x] + v)
        } else {
            c[x]
        }),
    decreases ts.len(),
{
    if ts.len() > 0 {
        let pre = ts.drop_last();
        assert(forall|i: int| 0 <= i < pre.len() ==> #[trigger] pre[i] == ts[i]);
        lemma_add_to_targets_at(c, base, pre, v, x);
        let at = base + ts.last();
        assert(0 <= at < c.len()) by {
            assert(0 <= base + ts[ts.len() - 1] < c.len());
        }
        if x == at {
            assert(hit(ts, base, x)) by {
                assert(base + ts[ts.len() - 1] == x);
            }
            assert(!hit(pre, base, x)) by {
                if hit(pre, base, x) {
                    let i = choose|i: int| 0 <= i < pre.len() && base + pre[i] == x;
                    assert(ts[i] == ts[ts.len() - 1]);
                }
            }
        } else {
            if hit(ts, base, x) {
                let i = choose|i: int| 0 <= i < ts.len() && base + ts[i] == x;
                assert(i < pre.len());
                assert(pre[i] == ts[i]);
                assert(hit(pre, base, x));
            }
            if hit(pre, base, x) {
                let i = choose|i: int| 0 <= i < pre.len() && base + pre[i] == x;
                assert(hit(ts, base, x));
            }
        }
    }
}

/// The offsets that an add-and-zero loop adds to are distinct, none is the base,
/// and each is its offset as an `isize`.
proof fn lemma_targets_facts(body: Seq<Node>)
    requires
        is_add_and_zero_loop(true, body),
    ensures
        add_and_zero_targets(body).len() == pair_count(body),
        distinct(add_and_zero_targets(body)),
        forall|j: int| 0 <= j < pair_count(body)
            ==> #[trigger] add_and_zero_targets(body)[j] as int == offset_at(body, j) && offset_at(body, j) != 0,
{
    let ts = add_and_zero_targets(body);
    assert forall|j: int| 0 <= j < pair_count(body) implies #[trigger] ts[j] as int == offset_at(body, j)
        && offset_at(body, j) != 0 by {
        assert(pair_ok(body, j));
    }
    assert forall|i: int, j: int| 0 <= i < j < ts.len() implies ts[i] != ts[j] by {
        assert(pair_ok(body, i));
        assert(pair_ok(body, j));
        assert(offset_at(body, i) != offset_at(body, j));
    }
}

/// The first `1 + 2 * j` operations of an add-and-zero body subtract one from
/// the base cell, add one to each of the first `j` targets, and leave the
/// pointer on the last of them.
proof fn lemma_pass_prefix(body: Seq<Node>, t: Run, input: Seq<u8>, limit: nat, j: int)
    requires
        is_add_and_zero_loop(true, body),
        t.tape.wf(),
        t.tape.targets_in_range(add_and_zero_targets(body)),
        0 <= j <= pair_count(body),
    ensures
        run_seq(body.take(1 + 2 * j), t, input, limit) == (Run {
            tape: Tape {
                cells: add_to_targets(
                    t.tape.cells.update(t.tape.ptr, wrap(t.tape.current() - 1)),
                    t.tape.ptr,
                    add_and_zero_targets(body).take(j),
                    1,
                ),
                ptr: t.tape.ptr + offset_at(body, j - 1),
            },
            ..t
        }, None::<crate::error::ExecError>),
    decreases j,
{
    let ts = add_and_zero_targets(body);
    let p = t.tape.ptr;
    let c1 = t.tape.cells.update(p, wrap(t.tape.current() - 1));
    lemma_targets_facts(body);
    if j == 0 {
        assert(body.take(1) =~= Seq::<Node>::empty().push(body[0]));
        lemma_run_seq_push(Seq::empty(), body[0], t, input, limit);
        assert(ts.take(0).len() == 0);
    } else {
        lemma_pass_prefix(body, t, input, limit, j - 1);
        let k = j - 1;
        assert(pair_ok(body, k));
        let pre = body.take(1 + 2 * k);
        let mid = body.take(2 + 2 * k);
        assert(mid =~= pre.push(body[1 + 2 * k]));
        assert(body.take(1 + 2 * j) =~= mid.push(body[2 + 2 * k]));
        lemma_run_seq_push(pre, body[1 + 2 * k], t, input, limit);
        lemma_run_seq_push(mid, body[2 + 2 * k], t, input, limit);
        let cprev = add_to_targets(c1, p, ts.take(k), 1);
        assert(ts.take(j).drop_last() =~= ts.take(k));
        assert(ts.take(j).last() == ts[k]);
        assert(0 <= ts[k] + p < t.tape.cells.len());
        assert(ts[k] as int == offset_at(body, k));
        lemma_add_len(c1, p, ts.take(k), 1, ts);
        assert(seek_amount(body[1 + 2 * k]) + offset_at(body, k - 1) == offset_at(body, k));
    }
}

proof fn lemma_add_len(c: Seq<u8>, base: int, part: Seq<isize>, v: u8, ts: Seq<isize>)
    requires
        forall|i: int| 0 <= i < ts.len() ==> 0 <= base + #[trigger] ts[i] < c.len(),
        part.len() <= ts.len(),
        forall|i: int| 0 <= i < part.len() ==> #[trigger] part[i] == ts[i],
    ensures
        add_to_targets(c, base, part, v).len() == c.len(),
    decreases part.len(),
{
    if part.len() > 0 {
        let pre = part.drop_last();
        assert(forall|i: int| 0 <= i < pre.len() ==> #[trigger] pre[i] == part[i]);
        lemma_add_len(c, base, pre, v, ts);
        assert(part[part.len() - 1] == ts[part.len() - 1]);
    }
}

/// One pass of an add-and-zero body: the base cell loses one, each target gains
/// one, and the pointer comes back.
proof fn lemma_pass(body: Seq<Node>, t: Run, input: Seq<u8>, limit: nat)
    requires
        is_add_and_zero_loop(true, body),
        t.tape.wf(),
        t.tape.targets_in_range(add_and_zero_targets(body)),
    ensures
        run_seq(body, t, input, limit) == (Run {
            tape: Tape {
                cells: add_to_targets(
                    t.tape.cells.update(t.tape.ptr, wrap(t.tape.current() - 1)),
                    t.tape.ptr,
                    add_and_zero_targets(body),
                    1,
                ),
                ptr: t.tape.ptr,
            },
            ..t
        }, None::<crate::error::ExecError>),
{
    let n = pair_count(body);
    let ts = add_and_zero_targets(body);
    assert(2 * n + 2 == body.len());
    lemma_pass_prefix(body, t, input, limit, n);
    assert(body =~= body.take(1 + 2 * n).push(body.last()));
    lemma_run_seq_push(body.take(1 + 2 * n), body.last(), t, input, limit);
    assert(ts.take(n) =~= ts);
    lemma_targets_facts(body);
    assert(pair_ok(body, n - 1));
    let mid = run_seq(body.take(1 + 2 * n), t, input, limit).0;
    assert(mid.tape.ptr == t.tape.ptr + offset_at(body, n - 1));
    lemma_add_len(t.tape.cells.update(t.tape.ptr, wrap(t.tape.current() - 1)), t.tape.ptr, ts, 1, ts);
    let last_amount = seek_amount(body.last());
    assert(body.last() == (Node::Seek { amount: last_amount as isize }));
    assert(mid.tape.seek(last_amount) == Some(Tape { cells: mid.tape.cells, ptr: t.tape.ptr }));
}

/// The cells after `i` passes of an add-and-zero loop started on a base cell of `v`.
pub open spec fn cells_after(c0: Seq<u8>, base: int, ts: Seq<isize>, v: u8, i: int) -> Seq<u8> {
    Seq::new(c0.len(), |x: int| {
        if x == base {
            wrap(v - i)
        } else if hit(ts, base, x) {
            wrap(c0[x] + i)
        } else {
            c0[x]
        }
    })
}

proof fn lemma_loop_passes(body: Seq<Node>, s: Run, input: Seq<u8>, limit: nat, i: nat, k: nat)
    requires
        is_add_and_zero_loop(true, body),
        s.tape.wf(),
        s.tape.targets_in_range(add_and_zero_targets(body)),
        i <= s.tape.current(),
        k + i >= s.tape.current(),
    ensures
        run_loop(
            body,
            Run { tape: Tape { cells: cells_after(s.tape.cells, s.tape.ptr, add_and_zero_targets(body), s.tape.current(), i as int), ptr: s.tape.ptr }, ..s },
            input,
            limit,
            k,
        ) == (Run {
            tape: Tape { cells: cells_after(s.tape.cells, s.tape.ptr, add_and_zero_targets(body), s.tape.current(), s.tape.current() as int), ptr: s.tape.ptr },
            ..s
        }, None::<crate::error::ExecError>),
    decreases k,
{
    let ts = add_and_zero_targets(body);
    let p = s.tape.ptr;
    let v = s.tape.current();
    let c = cells_after(s.tape.cells, p, ts, v, i as int);
    let t = Run { tape: Tape { cells: c, ptr: p }, ..s };
    assert(c[p] == wrap(v - i));
    if i < v {
        assert(t.tape.current() != 0);
        lemma_targets_facts(body);
        assert(t.tape.targets_in_range(ts)) by {
            assert forall|j: int| 0 <= j < ts.len() implies 0 <= #[trigger] ts[j] + t.tape.ptr < t.tape.cells.len() by {
                assert(s.tape.targets_in_range(ts));
                assert(0 <= ts[j] + s.tape.ptr < s.tape.cells.len());
            }
        }
        lemma_pass(body, t, input, limit);
        let c1 = c.update(p, wrap(c[p] - 1));
        let c2 = add_to_targets(c1, p, ts, 1);
        let next = cells_after(s.tape.cells, p, ts, v, i + 1 as int);
        assert forall|x: int| 0 <= x < c.len() implies #[trigger] c2[x] == next[x] by {
            lemma_add_to_targets_at(c1, p, ts, 1, x);
            if x == p {
                assert(!hit(ts, p, x)) by {
                    if hit(ts, p, x) {
                        let j = choose|j: int| 0 <= j < ts.len() && p + ts[j] == x;
                        assert(ts[j] as int == offset_at(body, j));
                    }
                }
                lemma_wrap_twice_sub(v as int, i as int);
            } else if hit(ts, p, x) {
                crate::interpreter::lemma_wrap_twice(s.tape.cells[x] as int, i as int, 1);
            }
        }
        lemma_add_len(c1, p, ts, 1, ts);
        assert(c2 =~= next);
        lemma_loop_passes(body, s, input, limit, (i + 1) as nat, (k - 1) as nat);
    } else {
        assert(t.tape.current() == 0);
    }
}

proof fn lemma_wrap_twice_sub(v: int, i: int)
    requires
        0 <= i < v <= 255,
    ensures
        wrap(wrap(v - i) - 1) == wrap(v - (i + 1)),
{
}

/// A loop that subtracts one from its base cell and adds one to each of some
/// distinct other cells ends, from any starting value, in the state that the
/// single `AddAndZero` over those cells gives, provided the cells are on the
/// tape and the loop may run 255 times.
pub proof fn lemma_add_and_zero_equivalence(body: Seq<Node>, s: Run, input: Seq<u8>, limit: nat)
    requires
        s.tape.wf(),
        is_add_and_zero_loop(true, body),
        s.tape.targets_in_range(add_and_zero_targets(body)),
        limit >= 255,
    ensures
        run_node(Node::Routine { body, cond: true }, s, input, limit)
            == run_node(Node::AddAndZero { targets: add_and_zero_targets(body) }, s, input, limit),
{
    let ts = add_and_zero_targets(body);
    let p = s.tape.ptr;
    let v = s.tape.current();
    lemma_targets_facts(body);
    assert(s.tape.cells =~= cells_after(s.tape.cells, p, ts, v, 0)) by {
        assert forall|x: int| 0 <= x < s.tape.cells.len() implies #[trigger] s.tape.cells[x]
            == cells_after(s.tape.cells, p, ts, v, 0)[x] by {
            if x == p {
                assert(wrap(v - 0) == v);
            }
        }
    }
    lemma_loop_passes(body, s, input, limit, 0, limit);
    if v != 0 {
        let fin = add_to_targets(s.tape.cells, p, ts, v).update(p, 0);
        let exp = cells_after(s.tape.cells, p, ts, v, v as int);
        lemma_add_len(s.tape.cells, p, ts, v, ts);
        assert forall|x: int| 0 <= x < s.tape.cells.len() implies #[trigger] fin[x] == exp[x] by {
            lemma_add_to_targets_at(s.tape.cells, p, ts, v, x);
        }
        assert(fin =~= exp);
    } else {
        assert(s.tape.cells =~= cells_after(s.tape.cells, p, ts, v, v as int));
    }
}

} // verus!
