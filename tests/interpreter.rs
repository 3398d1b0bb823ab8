use std::cell::{Cell, RefCell};

use brainfuck::{
    bf, optimize_add_and_zero, optimize_routine, optimize_zero, ExecError, Interpreter, Memory, Op,
    Options,
};

fn no_input() -> Option<u8> {
    None
}

fn ignore(_b: u8) {}

fn run(prog: &str) -> Result<Vec<u8>, ExecError> {
    bf(prog, &Options::default(true, false, false, false), &no_input, &ignore)
}

fn body_of(op: &Op) -> &Vec<Op> {
    match op {
        Op::Routine { ops, .. } => ops,
        _ => panic!("not a routine"),
    }
}

#[test]
fn test_hello_world() {
    assert_eq!(
        run("++++++++++[>+++++++>++++++++++>+++>+<<<<-]>++.>+.+++++++..+++.>++.<<+++++++++++++++.>.+++.------.--------.>+.>."),
        Ok(b"Hello World!\n".to_vec()),
    );
}

#[test]
fn empty_program_outputs_nothing() {
    assert_eq!(run(""), Ok(vec![]));
}

#[test]
fn unmatched_open_is_closed_at_end() {
    assert_eq!(run("+++.[->+<"), Ok(vec![3]));
    assert_eq!(run("+.["), Ok(vec![1]));
}

#[test]
fn unmatched_close_is_ignored() {
    assert_eq!(run("+]+."), Ok(vec![2]));
}

#[test]
fn comments_are_skipped() {
    assert_eq!(run("a+b+c. done"), Ok(vec![2]));
}

#[test]
fn pointer_clamps_at_first_cell() {
    let mut m = Memory::with_size(4);
    assert_eq!(m.seek(-1), Ok(()));
    assert_eq!(m.pointer(), 0);
    assert_eq!(m.seek(-1000), Ok(()));
    assert_eq!(m.pointer(), 0);
    assert_eq!(m.seek(isize::MIN), Ok(()));
    assert_eq!(m.pointer(), 0);
    assert_eq!(run("<<<+."), Ok(vec![1]));
}

#[test]
fn seek_past_end_fails() {
    let mut m = Memory::with_size(4);
    assert_eq!(m.seek(3), Ok(()));
    assert_eq!(m.pointer(), 3);
    assert_eq!(m.seek(1), Err(ExecError::OutOfBounds));
    assert_eq!(m.pointer(), 3);
    assert_eq!(m.seek(isize::MAX), Err(ExecError::OutOfBounds));
    assert_eq!(m.seek(-2), Ok(()));
    assert_eq!(m.pointer(), 1);
}

#[test]
fn cells_wrap_around() {
    let mut m = Memory::with_size(2);
    m.write(255);
    m.inc(1);
    assert_eq!(m.read(), 0);
    m.inc(-1);
    assert_eq!(m.read(), 255);
    m.write(10);
    m.inc(-266);
    assert_eq!(m.read(), 0);
    m.inc(513);
    assert_eq!(m.read(), 1);
    m.inc(isize::MIN);
    assert_eq!(m.read(), 1);
    m.inc(isize::MAX);
    assert_eq!(m.read(), 0);
    assert_eq!(run("-."), Ok(vec![255]));
    assert_eq!(run("-+."), Ok(vec![0]));
}

#[test]
fn memory_zero_and_set_zero() {
    let mut m = Memory::new();
    assert_eq!(m.size(), 30000);
    assert!(m.zero());
    m.inc(7);
    assert!(!m.zero());
    m.set_zero();
    assert!(m.zero());
}

#[test]
fn copy_zero_moves_value() {
    let mut m = Memory::with_size(6);
    assert_eq!(m.seek(2), Ok(()));
    m.write(200);
    assert_eq!(m.seek(1), Ok(()));
    m.write(100);
    assert_eq!(m.seek(-1), Ok(()));
    assert_eq!(m.copy_zero(&vec![1, -2, 3]), Ok(()));
    assert_eq!(m.cell(2), 0);
    assert_eq!(m.cell(3), 44);
    assert_eq!(m.cell(0), 200);
    assert_eq!(m.cell(5), 200);
    assert_eq!(m.pointer(), 2);
}

#[test]
fn copy_zero_out_of_range_fails() {
    let mut m = Memory::with_size(3);
    m.write(5);
    assert_eq!(m.copy_zero(&vec![1, -1]), Err(ExecError::OutOfBounds));
    assert_eq!(m.read(), 5);
    assert_eq!(m.cell(1), 0);
    m.write(0);
    assert_eq!(m.copy_zero(&vec![-1]), Ok(()));
}

#[test]
fn fusion_combines_runs() {
    let op = Interpreter::interpret(b"+++>>-<.");
    let ops = body_of(&op);
    assert_eq!(ops.len(), 5);
    assert!(matches!(ops[0], Op::Inc { amount: 3 }));
    assert!(matches!(ops[1], Op::Seek { amount: 2 }));
    assert!(matches!(ops[2], Op::Inc { amount: -1 }));
    assert!(matches!(ops[3], Op::Seek { amount: -1 }));
    assert!(matches!(ops[4], Op::Output));
}

#[test]
fn zero_loops_are_replaced() {
    for prog in ["[-]", "[---]", "[+]", "[++-]", "[+-]"] {
        let op = Interpreter::interpret(prog.as_bytes());
        let ops = body_of(&op);
        assert_eq!(ops.len(), 1, "{}", prog);
        assert!(matches!(ops[0], Op::Zero), "{}", prog);
    }
    let op = Interpreter::interpret(b"[>-]");
    assert!(matches!(body_of(&op)[0], Op::Routine { cond: true, .. }));
}

#[test]
fn add_and_zero_loops_are_replaced() {
    let cases: [(&str, Vec<isize>); 4] = [
        ("[->+<]", vec![1]),
        ("[->>>+<<<]", vec![3]),
        ("[->+>+>+<<<]", vec![1, 2, 3]),
        ("[-<<+>+>>>+<+<]", vec![-2, -1, 2, 1]),
    ];
    for (prog, expected) in cases.iter() {
        let op = Interpreter::interpret(prog.as_bytes());
        match &body_of(&op)[0] {
            Op::AddAndZero { targets } => assert_eq!(targets, expected, "{}", prog),
            _ => panic!("{} was not replaced", prog),
        }
    }
    for prog in ["[->+<<]", "[->++<]", "[-->+<]", "[->+<+]", "[->+<>+<]", "[->+<+>-<]"] {
        let op = Interpreter::interpret(prog.as_bytes());
        assert!(matches!(body_of(&op)[0], Op::Routine { cond: true, .. }), "{}", prog);
    }
}

#[test]
fn optimizers_need_a_loop() {
    let ops = vec![Op::Inc { amount: -1 }, Op::Seek { amount: 1 }, Op::Inc { amount: 1 }, Op::Seek { amount: -1 }];
    assert!(optimize_zero(false, &ops).is_none());
    assert!(optimize_add_and_zero(false, &ops).is_none());
    assert!(optimize_routine(false, &ops).is_none());
    assert!(matches!(optimize_add_and_zero(true, &ops), Some(Op::AddAndZero { .. })));
    assert!(matches!(optimize_routine(true, &ops), Some(Op::AddAndZero { .. })));
    let incs = vec![Op::Inc { amount: 2 }, Op::Inc { amount: -5 }];
    assert!(matches!(optimize_zero(true, &incs), Some(Op::Zero)));
    assert!(matches!(optimize_routine(true, &incs), Some(Op::Zero)));
    assert!(matches!(optimize_zero(true, &vec![]), Some(Op::Zero)));
}

#[test]
fn input_is_read_once_per_instruction() {
    let next = Cell::new(65u8);
    let calls = Cell::new(0usize);
    let read = || {
        calls.set(calls.get() + 1);
        let b = next.get();
        next.set(b + 1);
        Some(b)
    };
    let out = bf(",.,.", &Options::default(true, false, false, false), &read, &ignore);
    assert_eq!(out, Ok(vec![65, 66]));
    assert_eq!(calls.get(), 2);
}

#[test]
fn input_failure_stops_the_run() {
    assert_eq!(run("+.,."), Err(ExecError::InputFailed));
}

#[test]
fn streaming_emits_each_byte() {
    let seen = RefCell::new(Vec::new());
    let emit = |b: u8| seen.borrow_mut().push(b);
    let out = bf("+.+.", &Options::default(false, false, false, false), &no_input, &emit);
    assert_eq!(out, Ok(vec![1, 2]));
    assert_eq!(*seen.borrow(), vec![1, 2]);
    seen.borrow_mut().clear();
    let out = bf("+.+.", &Options::default(true, false, false, false), &no_input, &emit);
    assert_eq!(out, Ok(vec![1, 2]));
    assert!(seen.borrow().is_empty());
}

#[test]
fn running_past_the_tape_fails() {
    let prog = format!("{}", ">".repeat(30000));
    assert_eq!(run(&prog), Err(ExecError::OutOfBounds));
    let prog = format!("{}+.", ">".repeat(29999));
    assert_eq!(run(&prog), Ok(vec![1]));
}

#[test]
fn execute_with_small_tape() {
    let op = Interpreter::interpret(b"+++++[->+>+<<]>.>.");
    let mut m = Memory::with_size(3);
    let mut out = Vec::new();
    let mut log = Vec::new();
    let opts = Options::default(true, false, false, false);
    assert_eq!(op.execute(&mut m, &opts, &mut out, &mut log, &no_input, &ignore, 10), Ok(()));
    assert_eq!(out, vec![5, 5]);
    assert!(log.is_empty());
}

#[test]
fn step_limit_stops_endless_loops() {
    let op = Interpreter::interpret(b"+[>+<]");
    let mut m = Memory::with_size(3);
    let mut out = Vec::new();
    let mut log = Vec::new();
    let opts = Options::default(true, false, false, false);
    assert_eq!(op.execute(&mut m, &opts, &mut out, &mut log, &no_input, &ignore, 300), Err(ExecError::StepLimit));
    assert_eq!(m.cell(1), 44);
}

fn raw_loop(ops: Vec<Op>) -> Op {
    Op::Routine { ops, cond: true }
}

fn run_on_tape(op: &Op, cells: &[u8], ptr: usize) -> (Result<(), ExecError>, Vec<u8>, usize) {
    let mut m = Memory::with_size(cells.len());
    for (i, &c) in cells.iter().enumerate() {
        assert_eq!(m.seek(i as isize - m.pointer() as isize), Ok(()));
        m.write(c);
    }
    assert_eq!(m.seek(ptr as isize - m.pointer() as isize), Ok(()));
    let mut out = Vec::new();
    let mut log = Vec::new();
    let opts = Options::default(true, false, false, false);
    let r = op.execute(&mut m, &opts, &mut out, &mut log, &no_input, &ignore, 1000);
    let tape: Vec<u8> = (0..m.size()).map(|i| m.cell(i)).collect();
    (r, tape, m.pointer())
}

#[test]
fn zero_loop_matches_raw_loop() {
    let bodies: Vec<Vec<isize>> = vec![vec![-1], vec![1], vec![-3], vec![2, -1], vec![5, 2]];
    for amounts in bodies {
        let raw = raw_loop(amounts.iter().map(|&a| Op::Inc { amount: a }).collect());
        for v in 0..=255u8 {
            let cells = [7, v, 9];
            let (r_raw, t_raw, ptr_raw) = run_on_tape(&raw, &cells, 1);
            let (r_opt, t_opt, ptr_opt) = run_on_tape(&Op::Zero, &cells, 1);
            assert_eq!(r_opt, Ok(()));
            if amounts.iter().sum::<isize>() % 2 != 0 {
                assert_eq!(r_raw, Ok(()), "{:?} from {}", amounts, v);
            }
            if r_raw.is_ok() {
                assert_eq!((t_raw, ptr_raw), (t_opt, ptr_opt), "{:?} from {}", amounts, v);
            }
        }
    }
    let (r, _, _) = run_on_tape(&raw_loop(vec![Op::Inc { amount: 2 }]), &[1], 0);
    assert_eq!(r, Err(ExecError::StepLimit));
}

#[test]
fn add_and_zero_matches_raw_loop() {
    for prog in ["[->+<]", "[->>>+<<<]", "[->+>+>+<<<]", "[-<<+>+>>>+<+<]"] {
        let body = Interpreter::interpret(&prog.as_bytes()[1..prog.len() - 1]);
        let raw: Vec<Op> = match body {
            Op::Routine { ops, cond: false } => ops,
            _ => panic!("a straight body parses to a routine"),
        };
        let optimized = optimize_add_and_zero(true, &raw).expect("shape is recognized");
        let raw = raw_loop(raw);
        for v in 0..=255u8 {
            let cells = [11, 250, v, 3, 4, 255];
            let (r_raw, t_raw, ptr_raw) = run_on_tape(&raw, &cells, 2);
            let (r_opt, t_opt, ptr_opt) = run_on_tape(&optimized, &cells, 2);
            assert_eq!(r_raw, Ok(()));
            assert_eq!(r_opt, Ok(()));
            assert_eq!((t_raw, ptr_raw), (t_opt, ptr_opt), "{} from {}", prog, v);
        }
    }
}

#[test]
fn fused_program_matches_byte_by_byte() {
    let prog = "+++>>--<+.>>>+++++.<<-.+-+-..>";
    let op = Interpreter::interpret(prog.as_bytes());
    let mut m = Memory::with_size(8);
    let mut out = Vec::new();
    let mut log = Vec::new();
    let opts = Options::default(true, false, false, false);
    assert_eq!(op.execute(&mut m, &opts, &mut out, &mut log, &no_input, &ignore, 10), Ok(()));
    let mut m2 = Memory::with_size(8);
    let mut out2 = Vec::new();
    for b in prog.bytes() {
        match b {
            b'>' => assert_eq!(m2.seek(1), Ok(())),
            b'<' => assert_eq!(m2.seek(-1), Ok(())),
            b'+' => m2.inc(1),
            b'-' => m2.inc(-1),
            b'.' => out2.push(m2.read()),
            _ => {}
        }
    }
    assert_eq!(out, out2);
    assert_eq!(out, vec![1, 5, 253, 253, 253]);
    assert_eq!(m.pointer(), m2.pointer());
    for i in 0..8 {
        assert_eq!(m.cell(i), m2.cell(i));
    }
}

fn assert_settled(op: &Op) {
    if let Op::Routine { ops, cond } = op {
        assert!(optimize_routine(*cond, ops).is_none());
        for child in ops {
            assert_settled(child);
        }
    }
}

#[test]
fn optimizing_again_changes_nothing() {
    let op = Interpreter::interpret(b"++[->+<][-][>[->>+<<]<-]+[>.<-]");
    assert_settled(&op);
    let ops = body_of(&op);
    assert!(matches!(ops[1], Op::AddAndZero { .. }));
    assert!(matches!(ops[2], Op::Zero));
    match &ops[3] {
        Op::Routine { ops: inner, cond: true } => assert!(matches!(inner[1], Op::AddAndZero { .. })),
        _ => panic!("outer loop kept"),
    }
}

#[test]
fn profiler_counts_only_while_running() {
    let mut p = brainfuck::Profiler::new(false);
    assert!(!p.running());
    assert_eq!(p.duration(), 0);
    p.stop();
    assert_eq!(p.duration(), 0);
    p.start();
    assert!(p.running());
    let d1 = p.duration();
    assert!(p.running());
    p.stop();
    assert!(!p.running());
    let d2 = p.duration();
    assert!(d2 >= d1);
    assert_eq!(p.duration(), d2);
    let q = brainfuck::Profiler::new(true);
    assert!(q.running());
}
