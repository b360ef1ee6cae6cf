//! The loop idioms that the compiler collapses behave as the loops they
//! replace: each law runs the loop operation by operation and compares the
//! result with the single collapsed operation.
use vstd::prelude::*;

use crate::interpreter::{
    ExecError, MachineState, RunStatus, adjusted, in_tape, out_seq, run_spec, scan_spec, step_spec,
};
use crate::parser::{Instruction, Op, compile, compile_prefix, loop_body, loop_idiom};

verus! {

/// One step that reads no input and writes nothing passes the rest of the run on.
pub(crate) proof fn lemma_silent_step(ops: Seq<Op>, m: MachineState, m2: MachineState, input: Seq<u8>, fuel: nat)
    requires
        0 <= m.pc < ops.len(),
        fuel > 0,
        ops[m.pc].op_type != Instruction::Read,
        step_spec(ops[m.pc], m, None) == Ok::<(MachineState, Option<u8>), ExecError>((m2, None)),
    ensures
        run_spec(ops, m, input, fuel) == run_spec(ops, m2, input, (fuel - 1) as nat),
{
    let r = run_spec(ops, m2, input, (fuel - 1) as nat);
    assert(input.subrange(0, input.len() as int) =~= input);
    assert(out_seq(None) + r.1 =~= r.1);
}

/// The loop `[-]` or `[+]` before collapse: open, one adjustment, close.
pub open spec fn clear_loop(t: Instruction) -> Seq<Op> {
    seq![
        Op { op_type: Instruction::JumpZero, arg: 3 },
        Op { op_type: t, arg: 1 },
        Op { op_type: Instruction::JumpNotZero, arg: 0 },
    ]
}

/// How many times the clear loop's body runs on a cell holding `v`.
pub open spec fn clear_iterations(v: u8, t: Instruction) -> nat {
    if t == Instruction::DecData {
        v as nat
    } else {
        ((256 - v) % 256) as nat
    }
}

proof fn lemma_clear_step_arith(v: u8, t: Instruction)
    requires
        t == Instruction::IncData || t == Instruction::DecData,
        v != 0,
    ensures
        ({
            let w = adjusted(v, if t == Instruction::IncData { 1 } else { -1 });
            &&& w == 0 ==> clear_iterations(v, t) == 1
            &&& w != 0 ==> clear_iterations(w, t) + 1 == clear_iterations(v, t)
        }),
{
    if t == Instruction::IncData {
        if v == 255 {
            assert(adjusted(v, 1) == 0);
        } else {
            assert(adjusted(v, 1) == v + 1);
        }
    } else {
        assert(adjusted(v, -1) == v - 1);
    }
}

proof fn lemma_clear_loop_runs(t: Instruction, m: MachineState, input: Seq<u8>, fuel: nat)
    requires
        t == Instruction::IncData || t == Instruction::DecData,
        in_tape(m.tape, m.ptr),
        m.pc == 0,
        fuel >= 3 * clear_iterations(m.tape[m.ptr], t) + 1,
    ensures
        run_spec(clear_loop(t), m, input, fuel) == (
            MachineState { tape: m.tape.update(m.ptr, 0), pc: 3, ptr: m.ptr },
            Seq::<u8>::empty(),
            0int,
            RunStatus::Halted,
        ),
    decreases clear_iterations(m.tape[m.ptr], t),
{
    let ops = clear_loop(t);
    let v = m.tape[m.ptr];
    if v == 0 {
        let m1 = MachineState { tape: m.tape, pc: 3, ptr: m.ptr };
        lemma_silent_step(ops, m, m1, input, fuel);
        assert(m.tape.update(m.ptr, 0) =~= m.tape);
    } else {
        let m1 = MachineState { tape: m.tape, pc: 1, ptr: m.ptr };
        lemma_silent_step(ops, m, m1, input, fuel);
        let d: int = if t == Instruction::IncData {
            1
        } else {
            -1
        };
        let w = adjusted(v, d);
        lemma_clear_step_arith(v, t);
        let m2 = MachineState { tape: m.tape.update(m.ptr, w), pc: 2, ptr: m.ptr };
        assert(step_spec(ops[1], m1, None) == Ok::<(MachineState, Option<u8>), ExecError>((m2, None)));
        lemma_silent_step(ops, m1, m2, input, (fuel - 1) as nat);
        assert(m.tape.update(m.ptr, w).update(m.ptr, 0) =~= m.tape.update(m.ptr, 0));
        if w == 0 {
            let m3 = MachineState { tape: m2.tape, pc: 3, ptr: m.ptr };
            lemma_silent_step(ops, m2, m3, input, (fuel - 2) as nat);
        } else {
            let m3 = MachineState { tape: m2.tape, pc: 0, ptr: m.ptr };
            lemma_silent_step(ops, m2, m3, input, (fuel - 2) as nat);
            lemma_clear_loop_runs(t, m3, input, (fuel - 3) as nat);
        }
    }
}

/// The compiler turns a clearing loop, whose body is one increment or one
/// decrement, into the single clearing operation; and the loop halts from any
/// cell value with that cell at zero and the pointer where it was, the same
/// machine as that operation leaves.
pub proof fn lemma_clear_loop_collapse(t: Instruction, m: MachineState, input: Seq<u8>)
    requires
        t == Instruction::IncData || t == Instruction::DecData,
        in_tape(m.tape, m.ptr),
        m.pc == 0,
    ensures
        compile(seq![Instruction::JumpZero, t, Instruction::JumpNotZero]) == Ok::<Seq<Op>, crate::parser::CompileError>(
            seq![Op { op_type: Instruction::LoopSetZero, arg: 0 }],
        ),
        ({
            let slow = run_spec(clear_loop(t), m, input, 3 * 256);
            let fast = run_spec(
                seq![Op { op_type: Instruction::LoopSetZero, arg: 0 }],
                m,
                input,
                1,
            );
            &&& slow.3 == RunStatus::Halted && fast.3 == RunStatus::Halted
            &&& slow.0.tape == fast.0.tape && slow.0.ptr == fast.0.ptr && slow.1 == fast.1
            &&& fast.0.tape[m.ptr] == 0 && fast.0.ptr == m.ptr
        }),
{
    let src = seq![Instruction::JumpZero, t, Instruction::JumpNotZero];
    let jz = Op { op_type: Instruction::JumpZero, arg: 0 };
    let o = Op { op_type: t, arg: 1 };
    let opens = seq![(0usize, 0usize)];
    assert(compile_prefix(src, 0) == Ok::<_, crate::parser::CompileError>(
        (Seq::<Op>::empty(), Seq::<(usize, usize)>::empty()),
    ));
    assert(Seq::<Op>::empty().push(jz) =~= seq![jz]);
    assert(Seq::<(usize, usize)>::empty().push((0usize, 0usize)) =~= opens);
    assert(compile_prefix(src, 1) == Ok::<_, crate::parser::CompileError>((seq![jz], opens)));
    assert(seq![jz].push(o) =~= seq![jz, o]);
    assert(compile_prefix(src, 2) == Ok::<_, crate::parser::CompileError>((seq![jz, o], opens)));
    assert(loop_body(seq![jz, o], 0) =~= seq![o]);
    assert(seq![jz, o].subrange(0, 0).push(Op { op_type: Instruction::LoopSetZero, arg: 0 })
        =~= seq![Op { op_type: Instruction::LoopSetZero, arg: 0 }]);
    assert(opens.drop_last() =~= Seq::<(usize, usize)>::empty());
    assert(compile_prefix(src, 3) == Ok::<_, crate::parser::CompileError>(
        (seq![Op { op_type: Instruction::LoopSetZero, arg: 0 }], Seq::<(usize, usize)>::empty()),
    ));
    lemma_clear_loop_runs(t, m, input, 3 * 256);
    let fast_ops = seq![Op { op_type: Instruction::LoopSetZero, arg: 0 }];
    let m1 = MachineState { tape: m.tape.update(m.ptr, 0), pc: 1, ptr: m.ptr };
    lemma_silent_step(fast_ops, m, m1, input, 1);
}

/// A scanning loop before collapse: open, one pointer move, close.
pub open spec fn scan_loop(mv: Op) -> Seq<Op> {
    seq![
        Op { op_type: Instruction::JumpZero, arg: 3 },
        mv,
        Op { op_type: Instruction::JumpNotZero, arg: 0 },
    ]
}

/// The signed distance that a pointer move covers.
pub open spec fn move_stride(mv: Op) -> int {
    if mv.op_type == Instruction::IncPtr {
        mv.arg as int
    } else {
        -mv.arg
    }
}

pub open spec fn scan_measure(len: int, ptr: int, stride: int) -> int {
    if stride > 0 {
        len - ptr
    } else {
        ptr
    }
}

proof fn lemma_scan_loop_runs(mv: Op, m: MachineState, input: Seq<u8>, fuel: nat)
    requires
        mv.op_type == Instruction::IncPtr || mv.op_type == Instruction::DecPtr,
        mv.arg != 0,
        in_tape(m.tape, m.ptr),
        m.pc == 0,
        fuel >= 3 * (scan_measure(m.tape.len() as int, m.ptr, move_stride(mv)) + 1),
    ensures
        match scan_spec(m.tape, m.ptr, move_stride(mv)) {
            Ok(p) => run_spec(scan_loop(mv), m, input, fuel) == (
                MachineState { tape: m.tape, pc: 3, ptr: p },
                Seq::<u8>::empty(),
                0int,
                RunStatus::Halted,
            ),
            Err(e) => run_spec(scan_loop(mv), m, input, fuel).1 == Seq::<u8>::empty()
                && run_spec(scan_loop(mv), m, input, fuel).3 == RunStatus::Failed(e),
        },
    decreases scan_measure(m.tape.len() as int, m.ptr, move_stride(mv)),
{
    let ops = scan_loop(mv);
    let stride = move_stride(mv);
    let next = m.ptr + stride;
    assert(stride != 0);
    if m.tape[m.ptr] == 0 {
        assert(scan_spec(m.tape, m.ptr, stride) == Ok::<int, ExecError>(m.ptr));
        let m1 = MachineState { tape: m.tape, pc: 3, ptr: m.ptr };
        lemma_silent_step(ops, m, m1, input, fuel);
    } else {
        let m1 = MachineState { tape: m.tape, pc: 1, ptr: m.ptr };
        lemma_silent_step(ops, m, m1, input, fuel);
        assert(scan_spec(m.tape, m.ptr, stride) == if in_tape(m.tape, next) {
            scan_spec(m.tape, next, stride)
        } else {
            Err(ExecError::OutOfBounds)
        });
        if in_tape(m.tape, next) {
            let m2 = MachineState { tape: m.tape, pc: 2, ptr: next };
            lemma_silent_step(ops, m1, m2, input, (fuel - 1) as nat);
            if m.tape[next] == 0 {
                assert(scan_spec(m.tape, next, stride) == Ok::<int, ExecError>(next));
                let m3 = MachineState { tape: m.tape, pc: 3, ptr: next };
                lemma_silent_step(ops, m2, m3, input, (fuel - 2) as nat);
            } else {
                let m3 = MachineState { tape: m.tape, pc: 0, ptr: next };
                lemma_silent_step(ops, m2, m3, input, (fuel - 2) as nat);
                lemma_scan_loop_runs(mv, m3, input, (fuel - 3) as nat);
            }
        } else {
            assert(step_spec(ops[1], m1, None) == Err::<(MachineState, Option<u8>), ExecError>(
                ExecError::OutOfBounds,
            ));
        }
    }
}

/// A scanning loop, whose body is one pointer move, ends as the single
/// collapsed scan does: both halt with the pointer at the first position on the
/// way, stepping by the move's stride from the start, whose cell is zero, the
/// tape unchanged and nothing written; or both fail on the same bounds error.
pub proof fn lemma_scan_loop_collapse(mv: Op, m: MachineState, input: Seq<u8>)
    requires
        mv.op_type == Instruction::IncPtr || (mv.op_type == Instruction::DecPtr && mv.arg
            != i64::MIN),
        mv.arg != 0,
        in_tape(m.tape, m.ptr),
        m.pc == 0,
    ensures
        loop_idiom(seq![mv]) == Some(Op { op_type: Instruction::LoopMovePtr, arg: move_stride(mv) as i64 }),
        ({
            let slow = run_spec(scan_loop(mv), m, input, 3 * (m.tape.len() + 1));
            let fast = run_spec(seq![loop_idiom(seq![mv])->Some_0], m, input, 1);
            &&& slow.3 == fast.3
            &&& slow.1 == fast.1
            &&& slow.3 == RunStatus::Halted ==> slow.0.tape == fast.0.tape && slow.0.ptr
                == fast.0.ptr && fast.0.tape == m.tape && fast.0.tape[fast.0.ptr] == 0
            &&& (fast.3 == RunStatus::Halted <==> scan_spec(m.tape, m.ptr, move_stride(mv)) is Ok)
        }),
{
    let fuel = 3 * (m.tape.len() + 1);
    lemma_scan_loop_runs(mv, m, input, fuel);
    lemma_scan_result_is_zero(m.tape, m.ptr, move_stride(mv));
    let fast_ops = seq![loop_idiom(seq![mv])->Some_0];
    match scan_spec(m.tape, m.ptr, move_stride(mv)) {
        Ok(p) => {
            let m1 = MachineState { tape: m.tape, pc: 1, ptr: p };
            lemma_silent_step(fast_ops, m, m1, input, 1);
        },
        Err(e) => {},
    }
}

/// Where a scan stops, the cell is zero.
proof fn lemma_scan_result_is_zero(tape: Seq<u8>, ptr: int, stride: int)
    requires
        in_tape(tape, ptr),
        stride != 0,
    ensures
        scan_spec(tape, ptr, stride) matches Ok(p) ==> in_tape(tape, p) && tape[p] == 0,
    decreases scan_measure(tape.len() as int, ptr, stride),
{
    if tape[ptr] != 0 && in_tape(tape, ptr + stride) {
        lemma_scan_result_is_zero(tape, ptr + stride, stride);
    }
}

/// A data-moving loop before collapse: `-`, a move out, `+`, a move back.
pub open spec fn move_loop(out: Op, back: Op) -> Seq<Op> {
    seq![
        Op { op_type: Instruction::JumpZero, arg: 6 },
        Op { op_type: Instruction::DecData, arg: 1 },
        out,
        Op { op_type: Instruction::IncData, arg: 1 },
        back,
        Op { op_type: Instruction::JumpNotZero, arg: 0 },
    ]
}

proof fn lemma_adjust_then_adjust(x: u8, v: u8)
    requires
        v > 0,
    ensures
        adjusted(adjusted(x, 1), v - 1) == adjusted(x, v as int),
{
}

/// One turn of the data-moving loop on a nonzero cell, up to its closing jump.
proof fn lemma_move_loop_turn(out: Op, back: Op, m: MachineState, input: Seq<u8>, fuel: nat)
    requires
        out.op_type == Instruction::IncPtr || out.op_type == Instruction::DecPtr,
        back.op_type == Instruction::IncPtr || back.op_type == Instruction::DecPtr,
        move_stride(out) != 0,
        move_stride(back) == -move_stride(out),
        in_tape(m.tape, m.ptr),
        in_tape(m.tape, m.ptr + move_stride(out)),
        m.pc == 0,
        m.tape[m.ptr] != 0,
        fuel >= 5,
    ensures
        ({
            let dest = m.ptr + move_stride(out);
            let t = m.tape.update(m.ptr, (m.tape[m.ptr] - 1) as u8).update(
                dest,
                adjusted(m.tape[dest], 1),
            );
            run_spec(move_loop(out, back), m, input, fuel) == run_spec(
                move_loop(out, back),
                MachineState { tape: t, pc: 5, ptr: m.ptr },
                input,
                (fuel - 5) as nat,
            )
        }),
{
    let ops = move_loop(out, back);
    let v = m.tape[m.ptr];
    let p = m.ptr;
    let dest = p + move_stride(out);
    let x = m.tape[dest];
    let m1 = MachineState { tape: m.tape, pc: 1, ptr: p };
    lemma_silent_step(ops, m, m1, input, fuel);
    assert(adjusted(v, -1) == v - 1);
    let t2 = m.tape.update(p, (v - 1) as u8);
    let m2 = MachineState { tape: t2, pc: 2, ptr: p };
    lemma_silent_step(ops, m1, m2, input, (fuel - 1) as nat);
    let m3 = MachineState { tape: t2, pc: 3, ptr: dest };
    lemma_silent_step(ops, m2, m3, input, (fuel - 2) as nat);
    let t4 = t2.update(dest, adjusted(x, 1));
    let m4 = MachineState { tape: t4, pc: 4, ptr: dest };
    lemma_silent_step(ops, m3, m4, input, (fuel - 3) as nat);
    let m5 = MachineState { tape: t4, pc: 5, ptr: p };
    lemma_silent_step(ops, m4, m5, input, (fuel - 4) as nat);
}

proof fn lemma_move_loop_runs(out: Op, back: Op, m: MachineState, input: Seq<u8>, fuel: nat)
    requires
        out.op_type == Instruction::IncPtr || out.op_type == Instruction::DecPtr,
        back.op_type == Instruction::IncPtr || back.op_type == Instruction::DecPtr,
        move_stride(out) != 0,
        move_stride(back) == -move_stride(out),
        in_tape(m.tape, m.ptr),
        in_tape(m.tape, m.ptr + move_stride(out)),
        m.pc == 0,
        fuel >= 6 * m.tape[m.ptr] + 1,
    ensures
        ({
            let dest = m.ptr + move_stride(out);
            run_spec(move_loop(out, back), m, input, fuel) == (
                MachineState {
                    tape: m.tape.update(dest, adjusted(m.tape[dest], m.tape[m.ptr] as int)).update(
                        m.ptr,
                        0,
                    ),
                    pc: 6,
                    ptr: m.ptr,
                },
                Seq::<u8>::empty(),
                0int,
                RunStatus::Halted,
            )
        }),
    decreases m.tape[m.ptr],
{
    let ops = move_loop(out, back);
    let v = m.tape[m.ptr];
    let p = m.ptr;
    let dest = p + move_stride(out);
    let x = m.tape[dest];
    if v == 0 {
        let m1 = MachineState { tape: m.tape, pc: 6, ptr: p };
        lemma_silent_step(ops, m, m1, input, fuel);
        assert(adjusted(x, 0) == x);
        assert(m.tape.update(dest, adjusted(x, 0)).update(p, 0) =~= m.tape);
    } else {
        lemma_move_loop_turn(out, back, m, input, fuel);
        let t4 = m.tape.update(p, (v - 1) as u8).update(dest, adjusted(x, 1));
        let m5 = MachineState { tape: t4, pc: 5, ptr: p };
        assert(t4[p] == v - 1);
        lemma_adjust_then_adjust(x, v);
        if v == 1 {
            let m6 = MachineState { tape: t4, pc: 6, ptr: p };
            lemma_silent_step(ops, m5, m6, input, (fuel - 5) as nat);
            assert(adjusted(x, 1) == adjusted(x, v as int));
            assert(t4 =~= m.tape.update(dest, adjusted(x, v as int)).update(p, 0));
        } else {
            let m6 = MachineState { tape: t4, pc: 0, ptr: p };
            lemma_silent_step(ops, m5, m6, input, (fuel - 5) as nat);
            lemma_move_loop_runs(out, back, m6, input, (fuel - 6) as nat);
            assert(t4.update(dest, adjusted(t4[dest], t4[p] as int)).update(p, 0) =~= m.tape.update(
                dest,
                adjusted(x, v as int),
            ).update(p, 0));
        }
    }
}

/// A data-moving loop, `-`, a move by K, `+`, the move back, with K nonzero,
/// ends as the single collapsed operation does: whatever the current cell's
/// value V and the value D at offset K, both halt with (D + V) mod 256 at the
/// offset, 0 in the current cell, the pointer unmoved and nothing written.
pub proof fn lemma_move_loop_collapse(out: Op, back: Op, m: MachineState, input: Seq<u8>)
    requires
        out.op_type == Instruction::IncPtr || (out.op_type == Instruction::DecPtr && out.arg
            != i64::MIN),
        back.op_type == (if out.op_type == Instruction::IncPtr {
            Instruction::DecPtr
        } else {
            Instruction::IncPtr
        }),
        back.arg == out.arg,
        out.arg != 0,
        in_tape(m.tape, m.ptr),
        in_tape(m.tape, m.ptr + move_stride(out)),
        m.pc == 0,
    ensures
        loop_idiom(move_loop(out, back).subrange(1, 5)) == Some(
            Op { op_type: Instruction::LoopMoveData, arg: move_stride(out) as i64 },
        ),
        ({
            let dest = m.ptr + move_stride(out);
            let slow = run_spec(move_loop(out, back), m, input, 6 * 256);
            let fast = run_spec(
                seq![Op { op_type: Instruction::LoopMoveData, arg: move_stride(out) as i64 }],
                m,
                input,
                1,
            );
            &&& slow.3 == RunStatus::Halted && fast.3 == RunStatus::Halted
            &&& slow.0.tape == fast.0.tape && slow.0.ptr == fast.0.ptr && slow.1 == fast.1
            &&& fast.0.tape[dest] == (m.tape[dest] + m.tape[m.ptr]) % 256
            &&& fast.0.tape[m.ptr] == 0
            &&& fast.0.ptr == m.ptr
        }),
{
    let dest = m.ptr + move_stride(out);
    let body = move_loop(out, back).subrange(1, 5);
    assert(body =~= seq![
        Op { op_type: Instruction::DecData, arg: 1 },
        out,
        Op { op_type: Instruction::IncData, arg: 1 },
        back,
    ]);
    lemma_move_loop_runs(out, back, m, input, 6 * 256);
    let op = Op { op_type: Instruction::LoopMoveData, arg: move_stride(out) as i64 };
    let fast_ops = seq![op];
    let v = m.tape[m.ptr];
    let t = m.tape.update(dest, adjusted(m.tape[dest], v as int)).update(m.ptr, 0);
    if v == 0 {
        let m1 = MachineState { tape: m.tape, pc: 1, ptr: m.ptr };
        lemma_silent_step(fast_ops, m, m1, input, 1);
        assert(adjusted(m.tape[dest], 0) == m.tape[dest]);
        assert(t =~= m.tape);
    } else {
        let m1 = MachineState { tape: t, pc: 1, ptr: m.ptr };
        lemma_silent_step(fast_ops, m, m1, input, 1);
    }
}

} // verus!
