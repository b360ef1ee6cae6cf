use bf_interp::interpreter::{run, serialize_ops, ExecError, InterpreterState, RunResult, RunStatus};
use bf_interp::opt::compute_jumptable;
use bf_interp::parser::{merge_ops, optimize_loop, parse, CompileError, Instruction, Op, Program};

fn compile_src(src: &str) -> Program {
    merge_ops(&parse(src.as_bytes())).unwrap()
}

fn run_src(src: &str, input: &[u8], mem: usize) -> RunResult {
    let program = compile_src(src);
    run(&program, InterpreterState::new(mem), &input.to_vec(), 100_000)
}

fn state_with(memory: Vec<u8>, ptr: usize) -> InterpreterState {
    InterpreterState { memory, pc: 0, ptr }
}

/// One operation per symbol, brackets resolved through the jump table.
fn unoptimized(src: &str) -> Program {
    let instructions = parse(src.as_bytes());
    let table = compute_jumptable(&instructions).unwrap();
    let mut ops = Vec::new();
    for (i, ins) in instructions.iter().enumerate() {
        let arg = match ins {
            Instruction::JumpZero => table[i] as i64 + 1,
            Instruction::JumpNotZero => table[i] as i64,
            _ => 1,
        };
        ops.push(Op::new(*ins, arg));
    }
    Program { ops }
}

#[test]
fn multiply_loop_writes_sixteen() {
    let r = run_src("++++[>++++<-]>.", &[], 30000);
    assert_eq!(r.output, vec![16]);
    assert_eq!(r.status, RunStatus::Halted);
    assert_eq!(r.consumed, 0);
}

#[test]
fn clear_loop_collapses_and_halts() {
    let program = compile_src("+[-]");
    assert_eq!(
        program.ops,
        vec![Op::new(Instruction::IncData, 1), Op::new(Instruction::LoopSetZero, 0)]
    );
    let r = run(&program, InterpreterState::new(30000), &vec![], 2);
    assert_eq!(r.status, RunStatus::Halted);
    assert_eq!(r.state.memory[0], 0);
    assert!(r.output.is_empty());
}

#[test]
fn empty_source_is_empty_program() {
    let program = compile_src("no symbols here\n");
    assert!(program.ops.is_empty());
    let r = run(&program, InterpreterState::new(16), &vec![], 0);
    assert_eq!(r.status, RunStatus::Halted);
    assert!(r.output.is_empty());
    assert_eq!(r.state.memory, vec![0u8; 16]);
    assert_eq!(r.state.pc, 0);
    assert_eq!(r.state.ptr, 0);
}

#[test]
fn parse_drops_comments() {
    assert_eq!(
        parse(b"a+b-c>d<e[f]g,h.i"),
        vec![
            Instruction::IncData,
            Instruction::DecData,
            Instruction::IncPtr,
            Instruction::DecPtr,
            Instruction::JumpZero,
            Instruction::JumpNotZero,
            Instruction::Read,
            Instruction::Write,
        ]
    );
    assert!(parse(b"").is_empty());
}

#[test]
fn runs_merge_but_io_does_not() {
    let program = compile_src("+++>>..,,<");
    assert_eq!(
        program.ops,
        vec![
            Op::new(Instruction::IncData, 3),
            Op::new(Instruction::IncPtr, 2),
            Op::new(Instruction::Write, 1),
            Op::new(Instruction::Write, 1),
            Op::new(Instruction::Read, 1),
            Op::new(Instruction::Read, 1),
            Op::new(Instruction::DecPtr, 1),
        ]
    );
}

#[test]
fn plain_loop_gets_jump_targets() {
    let program = compile_src("+[>+<-]");
    assert_eq!(program.ops[1], Op::new(Instruction::JumpZero, 7));
    assert_eq!(program.ops[6], Op::new(Instruction::JumpNotZero, 1));
    assert_eq!(program.ops.len(), 7);
}

#[test]
fn unmatched_brackets_are_rejected() {
    assert_eq!(merge_ops(&parse(b"[")).err(), Some(CompileError::UnmatchedOpen(0)));
    assert_eq!(merge_ops(&parse(b"]")).err(), Some(CompileError::UnmatchedClose(0)));
    assert_eq!(merge_ops(&parse(b"+[[]")).err(), Some(CompileError::UnmatchedOpen(1)));
    assert_eq!(merge_ops(&parse(b"[]]")).err(), Some(CompileError::UnmatchedClose(2)));
    assert_eq!(merge_ops(&parse(b"x][")).err(), Some(CompileError::UnmatchedClose(0)));
    assert_eq!(merge_ops(&parse(b"[[-]")).err(), Some(CompileError::UnmatchedOpen(0)));
}

#[test]
fn clear_loop_zeroes_any_value() {
    for src in ["[-]", "[+]", "[---]"] {
        let program = compile_src(src);
        assert_eq!(program.ops, vec![Op::new(Instruction::LoopSetZero, 0)]);
        for v in 1..=255u8 {
            let r = run(&program, state_with(vec![0, v, 9], 1), &vec![], 1);
            assert_eq!(r.status, RunStatus::Halted);
            assert_eq!(r.state.memory, vec![0, 0, 9]);
            assert_eq!(r.state.ptr, 1);
        }
    }
}

#[test]
fn clear_loop_matches_unoptimized() {
    for src in ["[-]", "[+]"] {
        for v in 0..=255u8 {
            let fast = run(&compile_src(src), state_with(vec![v, 3], 0), &vec![], 10);
            let slow = run(&unoptimized(src), state_with(vec![v, 3], 0), &vec![], 10_000);
            assert_eq!(slow.status, RunStatus::Halted);
            assert_eq!(fast.state.memory, slow.state.memory);
            assert_eq!(fast.state.ptr, slow.state.ptr);
        }
    }
}

#[test]
fn scan_stops_at_first_zero() {
    let program = compile_src("[>>]");
    assert_eq!(program.ops, vec![Op::new(Instruction::LoopMovePtr, 2)]);
    let r = run(&program, state_with(vec![1, 0, 1, 5, 1, 0, 0], 0), &vec![], 1);
    assert_eq!(r.status, RunStatus::Halted);
    assert_eq!(r.state.ptr, 6);

    let back = compile_src("[<]");
    assert_eq!(back.ops, vec![Op::new(Instruction::LoopMovePtr, -1)]);
    let r = run(&back, state_with(vec![1, 0, 1, 1], 3), &vec![], 1);
    assert_eq!(r.state.ptr, 1);
}

#[test]
fn scan_matches_unoptimized() {
    let tape = vec![3, 1, 4, 0, 5, 9, 0, 6, 5, 0];
    for src in ["[>]", "[>>]", "[>>>]", "[<]", "[<<]"] {
        for start in 0..tape.len() {
            let fast = run(&compile_src(src), state_with(tape.clone(), start), &vec![], 10);
            let slow = run(&unoptimized(src), state_with(tape.clone(), start), &vec![], 10_000);
            assert_eq!(fast.status, slow.status);
            if slow.status == RunStatus::Halted {
                assert_eq!(fast.state.ptr, slow.state.ptr);
                assert_eq!(tape[fast.state.ptr], 0);
            }
        }
    }
}

#[test]
fn scan_off_the_tape_is_a_bounds_error() {
    let r = run(&compile_src("[>]"), state_with(vec![0, 1, 1], 1), &vec![], 10);
    assert_eq!(r.status, RunStatus::Failed(ExecError::OutOfBounds));
    assert_eq!(r.state.ptr, 1);
}

#[test]
fn move_cell_adds_and_clears() {
    let program = compile_src("[->>+<<]");
    assert_eq!(program.ops, vec![Op::new(Instruction::LoopMoveData, 2)]);
    let left = compile_src("[-<+>]");
    assert_eq!(left.ops, vec![Op::new(Instruction::LoopMoveData, -1)]);
    for v in 0..=255u8 {
        let r = run(&program, state_with(vec![v, 7, 200], 0), &vec![], 1);
        assert_eq!(r.status, RunStatus::Halted);
        assert_eq!(r.state.memory, vec![0, 7, 200u8.wrapping_add(v)]);
        assert_eq!(r.state.ptr, 0);
        let r = run(&left, state_with(vec![100, v], 1), &vec![], 1);
        assert_eq!(r.state.memory, vec![100u8.wrapping_add(v), 0]);
        assert_eq!(r.state.ptr, 1);
    }
}

#[test]
fn move_cell_matches_unoptimized() {
    for v in 0..=255u8 {
        let fast = run(&compile_src("[->+<]"), state_with(vec![v, 77], 0), &vec![], 10);
        let slow = run(&unoptimized("[->+<]"), state_with(vec![v, 77], 0), &vec![], 100_000);
        assert_eq!(slow.status, RunStatus::Halted);
        assert_eq!(fast.state.memory, slow.state.memory);
        assert_eq!(fast.state.ptr, slow.state.ptr);
    }
}

#[test]
fn other_loops_are_not_collapsed() {
    let ops = compile_src("[->+<<]").ops;
    assert_eq!(ops[0].op_type, Instruction::JumpZero);
    let ops = compile_src("[-->+<]").ops;
    assert_eq!(ops[0].op_type, Instruction::JumpZero);
    let ops = compile_src("[.]").ops;
    assert_eq!(ops[0], Op::new(Instruction::JumpZero, 3));
    let ops = compile_src("[]").ops;
    assert_eq!(ops, vec![Op::new(Instruction::JumpZero, 2), Op::new(Instruction::JumpNotZero, 0)]);
    let ops = compile_src("[[-]]").ops;
    assert_eq!(ops.len(), 3);
}

#[test]
fn optimize_loop_reads_the_tail() {
    let ops = vec![Op::new(Instruction::IncData, 2), Op::new(Instruction::JumpZero, 0), Op::new(Instruction::DecPtr, 3)];
    assert_eq!(optimize_loop(&ops, 1), vec![Op::new(Instruction::LoopMovePtr, -3)]);
    assert!(optimize_loop(&ops, 0).is_empty());
    assert!(optimize_loop(&ops, 3).is_empty());
    let degenerate = vec![
        Op::new(Instruction::JumpZero, 0),
        Op::new(Instruction::DecData, 1),
        Op::new(Instruction::IncPtr, 0),
        Op::new(Instruction::IncData, 1),
        Op::new(Instruction::DecPtr, 0),
    ];
    assert!(optimize_loop(&degenerate, 0).is_empty());
}

#[test]
fn optimized_matches_unoptimized_without_idioms() {
    let cases: [(&str, &[u8]); 4] = [
        ("++>+++[<+>-]<.", &[]),
        (",[.,]", b"hello"),
        ("+++[>++[>+++<-]<-]>>.", &[]),
        ("++++++++[>++++[>++>+++>+++>+<<<<-]>+>+>->>+[<]<-]>>.>---.+++++++..+++.", &[]),
    ];
    for (src, input) in cases {
        let fast = run(&compile_src(src), InterpreterState::new(64), &input.to_vec(), 100_000);
        let slow = run(&unoptimized(src), InterpreterState::new(64), &input.to_vec(), 1_000_000);
        assert_eq!(slow.status, fast.status);
        assert_eq!(fast.output, slow.output);
        assert_eq!(fast.state.memory, slow.state.memory);
    }
}

#[test]
fn cells_wrap_both_ways() {
    let r = run_src("-.", &[], 4);
    assert_eq!(r.output, vec![255]);
    let plus256 = "+".repeat(256);
    let program = compile_src(&plus256);
    assert_eq!(program.ops, vec![Op::new(Instruction::IncData, 256)]);
    let r = run(&program, InterpreterState::new(4), &vec![], 5);
    assert_eq!(r.state.memory[0], 0);
    let r = run_src(&"-".repeat(300), &[], 4);
    assert_eq!(r.state.memory[0], 212);
}

#[test]
fn read_and_write_bytes() {
    let r = run_src(",.,+.", b"AB", 4);
    assert_eq!(r.output, b"AC".to_vec());
    assert_eq!(r.consumed, 2);
    assert_eq!(r.status, RunStatus::Halted);
}

#[test]
fn reading_past_input_fails() {
    let r = run_src(",.,", b"Z", 4);
    assert_eq!(r.output, b"Z".to_vec());
    assert_eq!(r.status, RunStatus::Failed(ExecError::InputExhausted));
    assert_eq!(r.state.pc, 2);
}

#[test]
fn pointer_bounds_are_checked() {
    let r = run_src("<", &[], 4);
    assert_eq!(r.status, RunStatus::Failed(ExecError::OutOfBounds));
    assert_eq!(r.state.ptr, 0);
    let r = run_src(">>>.>", &[], 4);
    assert_eq!(r.output, vec![0]);
    assert_eq!(r.status, RunStatus::Failed(ExecError::OutOfBounds));
    assert_eq!(r.state.ptr, 3);
}

#[test]
fn fuel_bounds_a_run() {
    let r = run_src("+[]", &[], 4);
    assert_eq!(r.status, RunStatus::OutOfFuel);
}

#[test]
fn step_reports_each_effect() {
    let program = compile_src("+.,");
    let mut state = InterpreterState::new(2);
    assert_eq!(state.step(&program, None), Ok(None));
    assert_eq!(state.step(&program, None), Ok(Some(1)));
    assert_eq!(state.step(&program, None), Err(ExecError::InputExhausted));
    assert_eq!(state.pc, 2);
    assert_eq!(state.step(&program, Some(9)), Ok(None));
    assert_eq!(state.memory[0], 9);
    assert_eq!(state.pc, 3);
}

#[test]
fn op_text_forms() {
    assert_eq!(Op::new(Instruction::IncData, 3).to_string(), "+3");
    assert_eq!(Op::new(Instruction::JumpZero, 120).to_string(), "[120");
    assert_eq!(Op::new(Instruction::LoopMovePtr, -4).to_string(), "p-4");
    assert_eq!(Op::new(Instruction::LoopSetZero, 0).to_string(), "s0");
    assert_eq!(Op::new(Instruction::LoopMoveData, 10).to_string(), "d10");
    assert_eq!(Op::new(Instruction::Invalid, i64::MIN).to_string(), "x-9223372036854775808");
    assert_eq!(Op::new(Instruction::Write, i64::MAX).to_string(), ".9223372036854775807");
}

#[test]
fn serialize_concatenates() {
    let program = compile_src("++[>+<-].");
    assert_eq!(serialize_ops(&program.ops), "+2[7>1+1<1-1]1.1");
    assert_eq!(serialize_ops(&vec![]), "");
}

#[test]
fn jumptable_pairs_brackets() {
    assert_eq!(compute_jumptable(&parse(b"[[]]")).unwrap(), vec![3, 2, 1, 0]);
    assert_eq!(compute_jumptable(&parse(b"+[-]")).unwrap(), vec![0, 3, 0, 1]);
    assert_eq!(compute_jumptable(&parse(b"")).unwrap(), Vec::<usize>::new());
    assert_eq!(compute_jumptable(&parse(b"[[]")), Err(CompileError::UnmatchedOpen(0)));
    assert_eq!(compute_jumptable(&parse(b"[]][")), Err(CompileError::UnmatchedClose(2)));
}

#[test]
fn symbols_round_trip() {
    let src = b"hi +[->+<]. bye";
    let instructions = parse(src);
    let respelled: Vec<u8> = instructions
        .iter()
        .map(|i| match i {
            Instruction::IncPtr => b'>',
            Instruction::DecPtr => b'<',
            Instruction::IncData => b'+',
            Instruction::DecData => b'-',
            Instruction::JumpZero => b'[',
            Instruction::JumpNotZero => b']',
            Instruction::Read => b',',
            Instruction::Write => b'.',
            _ => 0,
        })
        .collect();
    assert_eq!(respelled, b"+[->+<].".to_vec());
    assert_eq!(parse(&respelled), instructions);
}
