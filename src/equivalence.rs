//! Where no loop is collapsed, the compiled program runs as the program with
//! one operation per symbol does.
use vstd::prelude::*;

use crate::expansion::{block, expand, has_loop_op, is_loop_tag, lemma_compile_expansion};
use crate::interpreter::{ExecError, MachineState, RunStatus, adjusted, in_tape, out_seq, run_spec, step_spec};
use crate::opt::{closes_at, depth, jump_entry, lemma_compile_prefix_opens};
use crate::parser::{Instruction, Op, compile, compile_one, compile_prefix, is_run_tag};
use vstd::arithmetic::div_mod::lemma_add_mod_noop_right;

verus! {

/// Where operation `j` starts in the spelled-out instruction sequence.
pub open spec fn offs(ops: Seq<Op>, j: int) -> int {
    expand(ops.subrange(0, j)).len() as int
}

proof fn lemma_offs_update(ops: Seq<Op>, i: int, o: Op, x: int)
    requires
        0 <= i < ops.len(),
        0 <= x <= ops.len(),
        block(o) == block(ops[i]),
    ensures
        offs(ops.update(i, o), x) == offs(ops, x),
{
    if i < x {
        assert(ops.update(i, o).subrange(0, x) =~= ops.subrange(0, x).update(i, o));
        crate::expansion::lemma_expand_update(ops.subrange(0, x), i, o);
    } else {
        assert(ops.update(i, o).subrange(0, x) =~= ops.subrange(0, x));
    }
}

proof fn lemma_offs_push(ops: Seq<Op>, o: Op, x: int)
    requires
        0 <= x <= ops.len(),
    ensures
        offs(ops.push(o), x) == offs(ops, x),
{
    assert(ops.push(o).subrange(0, x) =~= ops.subrange(0, x));
}

proof fn lemma_offs_next(ops: Seq<Op>, j: int)
    requires
        0 <= j < ops.len(),
    ensures
        offs(ops, j + 1) == offs(ops, j) + block(ops[j]).len(),
{
    assert(ops.subrange(0, j + 1).drop_last() =~= ops.subrange(0, j));
}

proof fn lemma_offs_end(ops: Seq<Op>)
    ensures
        offs(ops, ops.len() as int) == expand(ops).len(),
{
    assert(ops.subrange(0, ops.len() as int) =~= ops);
}

/// The jump structure that the compiler builds while it collapses nothing:
/// each open loop's operation still waits for its target, each close jumps
/// back to its open, and the two stand where partner brackets stand.
#[verifier::opaque]
pub open spec fn jumps_ok(s: Seq<Instruction>, ops: Seq<Op>, opens: Seq<(usize, usize)>) -> bool {
    &&& forall|l: int|
        0 <= l < opens.len() ==> offs(ops, (#[trigger] opens[l]).0 as int) == opens[l].1 && ops[opens[l].0 as int].arg == 0
    &&& forall|j: int|
        0 <= j < ops.len() && #[trigger] ops[j].op_type == Instruction::JumpNotZero ==> {
            let a = ops[j].arg as int;
            &&& 0 <= a < j
            &&& ops[a].op_type == Instruction::JumpZero
            &&& ops[a].arg == j + 1
            &&& closes_at(s, offs(ops, a), offs(ops, j))
        }
    &&& forall|j: int|
        0 <= j < ops.len() && #[trigger] ops[j].op_type == Instruction::JumpZero && ops[j].arg != 0
            ==> 1 <= ops[j].arg <= ops.len() && ops[ops[j].arg - 1] == (Op {
            op_type: Instruction::JumpNotZero,
            arg: j as i64,
        })
    &&& forall|j: int|
        0 <= j < ops.len() && #[trigger] ops[j].op_type == Instruction::JumpZero && ops[j].arg == 0
            ==> exists|l: int| 0 <= l < opens.len() && (#[trigger] opens[l]).0 == j
}

/// The compiler's record of open loops points at opening jumps, in order.
#[verifier::opaque]
pub open spec fn opens_ok(ops: Seq<Op>, opens: Seq<(usize, usize)>) -> bool {
    &&& forall|l: int|
        0 <= l < opens.len() ==> (#[trigger] opens[l]).0 < ops.len() && ops[opens[l].0 as int].op_type
            == Instruction::JumpZero
    &&& forall|a: int, b: int|
        0 <= a < b < opens.len() ==> (#[trigger] opens[a]).0 < (#[trigger] opens[b]).0
}

proof fn lemma_jumps_push(s: Seq<Instruction>, ops: Seq<Op>, opens: Seq<(usize, usize)>, o: Op)
    requires
        jumps_ok(s, ops, opens),
        opens_ok(ops, opens),
        o.op_type != Instruction::JumpZero && o.op_type != Instruction::JumpNotZero,
    ensures
        jumps_ok(s, ops.push(o), opens),
{
    reveal(jumps_ok);
    reveal(opens_ok);
    let new_ops = ops.push(o);
    let n0 = ops.len() as int;
    assert forall|x: int| 0 <= x <= n0 implies #[trigger] offs(new_ops, x) == offs(ops, x) by {
        lemma_offs_push(ops, o, x);
    }
    assert forall|l: int| 0 <= l < opens.len() implies offs(new_ops, (#[trigger] opens[l]).0 as int)
        == opens[l].1 && new_ops[opens[l].0 as int].arg == 0 by {
        assert(new_ops[opens[l].0 as int] == ops[opens[l].0 as int]);
    }
    assert forall|x: int|
        0 <= x < new_ops.len() && #[trigger] new_ops[x].op_type == Instruction::JumpNotZero implies ({
        let a = new_ops[x].arg as int;
        &&& 0 <= a < x
        &&& new_ops[a].op_type == Instruction::JumpZero
        &&& new_ops[a].arg == x + 1
        &&& closes_at(s, offs(new_ops, a), offs(new_ops, x))
    }) by {
        assert(new_ops[x] == ops[x]);
        assert(new_ops[ops[x].arg as int] == ops[ops[x].arg as int]);
    }
    assert forall|x: int|
        0 <= x < new_ops.len() && #[trigger] new_ops[x].op_type == Instruction::JumpZero
            && new_ops[x].arg != 0 implies 1 <= new_ops[x].arg <= new_ops.len() && new_ops[new_ops[x].arg
        - 1] == (Op { op_type: Instruction::JumpNotZero, arg: x as i64 }) by {
        assert(new_ops[x] == ops[x]);
        assert(ops[ops[x].arg - 1].op_type == Instruction::JumpNotZero);
        assert(new_ops[ops[x].arg - 1] == ops[ops[x].arg - 1]);
    }
    assert forall|x: int|
        0 <= x < new_ops.len() && #[trigger] new_ops[x].op_type == Instruction::JumpZero
            && new_ops[x].arg == 0 implies exists|l: int|
        0 <= l < opens.len() && (#[trigger] opens[l]).0 == x by {
        assert(new_ops[x] == ops[x]);
    }
}

proof fn lemma_jumps_merge(s: Seq<Instruction>, ops: Seq<Op>, opens: Seq<(usize, usize)>, o: Op)
    requires
        jumps_ok(s, ops, opens),
        opens_ok(ops, opens),
        ops.len() > 0,
        is_run_tag(o.op_type),
        is_run_tag(ops.last().op_type),
    ensures
        jumps_ok(s, ops.update(ops.len() - 1, o), opens),
{
    reveal(jumps_ok);
    reveal(opens_ok);
    let li = ops.len() - 1;
    let new_ops = ops.update(li, o);
    assert forall|x: int| 0 <= x <= li implies #[trigger] offs(new_ops, x) == offs(ops, x) by {
        assert(new_ops.subrange(0, x) =~= ops.subrange(0, x));
    }
    assert forall|l: int| 0 <= l < opens.len() implies offs(new_ops, (#[trigger] opens[l]).0 as int)
        == opens[l].1 && new_ops[opens[l].0 as int].arg == 0 by {
        assert(opens[l].0 != li);
    }
    assert forall|x: int|
        0 <= x < new_ops.len() && #[trigger] new_ops[x].op_type == Instruction::JumpNotZero implies ({
        let a = new_ops[x].arg as int;
        &&& 0 <= a < x
        &&& new_ops[a].op_type == Instruction::JumpZero
        &&& new_ops[a].arg == x + 1
        &&& closes_at(s, offs(new_ops, a), offs(new_ops, x))
    }) by {
        assert(new_ops[x] == ops[x]);
        assert(new_ops[ops[x].arg as int] == ops[ops[x].arg as int]);
    }
    assert forall|x: int|
        0 <= x < new_ops.len() && #[trigger] new_ops[x].op_type == Instruction::JumpZero
            && new_ops[x].arg != 0 implies 1 <= new_ops[x].arg <= new_ops.len() && new_ops[new_ops[x].arg
        - 1] == (Op { op_type: Instruction::JumpNotZero, arg: x as i64 }) by {
        assert(new_ops[x] == ops[x]);
        assert(ops[ops[x].arg - 1].op_type == Instruction::JumpNotZero);
        assert(new_ops[ops[x].arg - 1] == ops[ops[x].arg - 1]);
    }
    assert forall|x: int|
        0 <= x < new_ops.len() && #[trigger] new_ops[x].op_type == Instruction::JumpZero
            && new_ops[x].arg == 0 implies exists|l: int|
        0 <= l < opens.len() && (#[trigger] opens[l]).0 == x by {
        assert(new_ops[x] == ops[x]);
    }
}

#[verifier::rlimit(60)]
proof fn lemma_jumps_open(s: Seq<Instruction>, ops: Seq<Op>, opens: Seq<(usize, usize)>, pos: usize)
    requires
        jumps_ok(s, ops, opens),
        opens_ok(ops, opens),
        ops.len() <= usize::MAX,
        offs(ops, ops.len() as int) == pos,
    ensures
        jumps_ok(
            s,
            ops.push(Op { op_type: Instruction::JumpZero, arg: 0 }),
            opens.push((ops.len() as usize, pos)),
        ),
{
    reveal(jumps_ok);
    reveal(opens_ok);
    let o = Op { op_type: Instruction::JumpZero, arg: 0 };
    let new_ops = ops.push(o);
    let new_opens = opens.push((ops.len() as usize, pos));
    let n0 = ops.len() as int;
    assert forall|x: int| 0 <= x <= n0 implies #[trigger] offs(new_ops, x) == offs(ops, x) by {
        lemma_offs_push(ops, o, x);
    }
    assert forall|l: int| 0 <= l < new_opens.len() implies offs(
        new_ops,
        (#[trigger] new_opens[l]).0 as int,
    ) == new_opens[l].1 && new_ops[new_opens[l].0 as int].arg == 0 by {
        if l < opens.len() {
            assert(new_opens[l] == opens[l]);
        }
    }
    assert forall|x: int|
        0 <= x < new_ops.len() && #[trigger] new_ops[x].op_type == Instruction::JumpNotZero implies ({
        let a = new_ops[x].arg as int;
        &&& 0 <= a < x
        &&& new_ops[a].op_type == Instruction::JumpZero
        &&& new_ops[a].arg == x + 1
        &&& closes_at(s, offs(new_ops, a), offs(new_ops, x))
    }) by {
        assert(new_ops[x] == ops[x]);
        assert(new_ops[ops[x].arg as int] == ops[ops[x].arg as int]);
    }
    assert forall|x: int|
        0 <= x < new_ops.len() && #[trigger] new_ops[x].op_type == Instruction::JumpZero
            && new_ops[x].arg != 0 implies 1 <= new_ops[x].arg <= new_ops.len() && new_ops[new_ops[x].arg
        - 1] == (Op { op_type: Instruction::JumpNotZero, arg: x as i64 }) by {
        assert(new_ops[x] == ops[x]);
        assert(ops[ops[x].arg - 1].op_type == Instruction::JumpNotZero);
        assert(new_ops[ops[x].arg - 1] == ops[ops[x].arg - 1]);
    }
    assert forall|x: int|
        0 <= x < new_ops.len() && #[trigger] new_ops[x].op_type == Instruction::JumpZero
            && new_ops[x].arg == 0 implies exists|l: int|
        0 <= l < new_opens.len() && (#[trigger] new_opens[l]).0 == x by {
        if x < n0 {
            let l = choose|l: int| 0 <= l < opens.len() && (#[trigger] opens[l]).0 == x;
            assert(new_opens[l] == opens[l]);
        } else {
            assert(new_opens[opens.len() as int].0 == x);
        }
    }
}

#[verifier::rlimit(60)]
proof fn lemma_jumps_close(s: Seq<Instruction>, ops: Seq<Op>, opens: Seq<(usize, usize)>, pos: int)
    requires
        jumps_ok(s, ops, opens),
        opens_ok(ops, opens),
        opens.len() > 0,
        ops.len() < i64::MAX,
        offs(ops, ops.len() as int) == pos,
        closes_at(s, opens.last().1 as int, pos),
    ensures
        ({
            let start = opens.last().0 as int;
            let jz = Op { op_type: Instruction::JumpZero, arg: (ops.len() + 1) as i64 };
            let jnz = Op { op_type: Instruction::JumpNotZero, arg: start as i64 };
            jumps_ok(s, ops.update(start, jz).push(jnz), opens.drop_last())
        }),
{
    reveal(jumps_ok);
    reveal(opens_ok);
    let start = opens.last().0 as int;
    let rest = opens.drop_last();
    let jz = Op { op_type: Instruction::JumpZero, arg: (ops.len() + 1) as i64 };
    let jnz = Op { op_type: Instruction::JumpNotZero, arg: start as i64 };
    let mid = ops.update(start, jz);
    let new_ops = mid.push(jnz);
    let n0 = ops.len() as int;
    assert(opens[opens.len() - 1].0 == start);
    assert forall|x: int| 0 <= x <= n0 implies #[trigger] offs(new_ops, x) == offs(ops, x) by {
        lemma_offs_update(ops, start, jz, x);
        lemma_offs_push(mid, jnz, x);
    }
    assert(offs(new_ops, start) == opens.last().1);
    assert forall|l: int| 0 <= l < rest.len() implies offs(new_ops, (#[trigger] rest[l]).0 as int)
        == rest[l].1 && new_ops[rest[l].0 as int].arg == 0 by {
        assert(rest[l] == opens[l]);
        assert(opens[l].0 < start);
    }
    assert forall|x: int|
        0 <= x < new_ops.len() && #[trigger] new_ops[x].op_type == Instruction::JumpNotZero implies ({
        let a = new_ops[x].arg as int;
        &&& 0 <= a < x
        &&& new_ops[a].op_type == Instruction::JumpZero
        &&& new_ops[a].arg == x + 1
        &&& closes_at(s, offs(new_ops, a), offs(new_ops, x))
    }) by {
        if x < n0 {
            assert(new_ops[x] == ops[x]);
            let a = ops[x].arg as int;
            assert(a != start);
            assert(new_ops[a] == ops[a]);
        }
    }
    assert forall|x: int|
        0 <= x < new_ops.len() && #[trigger] new_ops[x].op_type == Instruction::JumpZero
            && new_ops[x].arg != 0 implies 1 <= new_ops[x].arg <= new_ops.len() && new_ops[new_ops[x].arg
        - 1] == (Op { op_type: Instruction::JumpNotZero, arg: x as i64 }) by {
        if x != start {
            assert(new_ops[x] == ops[x]);
            assert(ops[ops[x].arg - 1].op_type == Instruction::JumpNotZero);
            assert(new_ops[ops[x].arg - 1] == ops[ops[x].arg - 1]);
        }
    }
    assert forall|x: int|
        0 <= x < new_ops.len() && #[trigger] new_ops[x].op_type == Instruction::JumpZero
            && new_ops[x].arg == 0 implies exists|l: int|
        0 <= l < rest.len() && (#[trigger] rest[l]).0 == x by {
        assert(x != start && x < n0);
        assert(new_ops[x] == ops[x]);
        let l = choose|l: int| 0 <= l < opens.len() && (#[trigger] opens[l]).0 == x;
        assert(l != opens.len() - 1);
        assert(rest[l] == opens[l]);
    }
}

/// What the compiler's state after `k` instructions keeps of the source.
proof fn lemma_prefix_facts(s: Seq<Instruction>, k: nat)
    requires
        k <= s.len() < i64::MAX,
        s.len() <= usize::MAX,
        compile_prefix(s, k) is Ok,
    ensures
        opens_ok(compile_prefix(s, k)->Ok_0.0, compile_prefix(s, k)->Ok_0.1),
        compile_prefix(s, k)->Ok_0.0.len() <= k,
        !has_loop_op(compile_prefix(s, k)->Ok_0.0) ==> expand(compile_prefix(s, k)->Ok_0.0)
            == s.subrange(0, k as int),
        k > 0 && !has_loop_op(compile_prefix(s, k)->Ok_0.0) ==> !has_loop_op(
            compile_prefix(s, (k - 1) as nat)->Ok_0.0,
        ),
{
    reveal(opens_ok);
    lemma_compile_expansion(s, k);
}

/// A close that finds an open loop closes the innermost one.
proof fn lemma_close_partner(s: Seq<Instruction>, j: nat)
    requires
        j < s.len() <= usize::MAX,
        compile_prefix(s, j) is Ok,
        compile_prefix(s, j)->Ok_0.1.len() > 0,
        s[j as int] == Instruction::JumpNotZero,
    ensures
        closes_at(s, compile_prefix(s, j)->Ok_0.1.last().1 as int, j as int),
{
    lemma_compile_prefix_opens(s, j);
    let opens = compile_prefix(s, j)->Ok_0.1;
    let p = opens.last().1 as int;
    let level = opens.len() - 1;
    assert(opens[level].1 == p);
    assert(depth(s, p) == level);
    assert(depth(s, p + 1) > level);
    assert(depth(s, p + 1) == depth(s, p) + crate::opt::bracket_delta(s[p]));
    assert(depth(s, (j + 1) as int) == depth(s, j as int) + crate::opt::bracket_delta(s[j as int]));
}

proof fn lemma_compile_jumps(s: Seq<Instruction>, k: nat)
    requires
        k <= s.len() < i64::MAX,
        s.len() <= usize::MAX,
        compile_prefix(s, k) is Ok,
        !has_loop_op(compile_prefix(s, k)->Ok_0.0),
    ensures
        jumps_ok(s, compile_prefix(s, k)->Ok_0.0, compile_prefix(s, k)->Ok_0.1),
    decreases k,
{
    if k == 0 {
        reveal(jumps_ok);
    } else {
        let j = (k - 1) as nat;
        assert(compile_prefix(s, j) is Ok);
        lemma_prefix_facts(s, k);
        lemma_prefix_facts(s, j);
        lemma_compile_jumps(s, j);
        let ops = compile_prefix(s, j)->Ok_0.0;
        let opens = compile_prefix(s, j)->Ok_0.1;
        let ins = s[j as int];
        assert(compile_prefix(s, k) == compile_one(ops, opens, ins, j as usize));
        lemma_offs_end(ops);
        if ins == Instruction::JumpZero {
            lemma_jumps_open(s, ops, opens, j as usize);
        } else if ins == Instruction::JumpNotZero {
            lemma_close_partner(s, j);
            let new_ops = compile_prefix(s, k)->Ok_0.0;
            assert(new_ops.len() > 0 && !is_loop_tag(new_ops[new_ops.len() - 1].op_type));
            assert(crate::parser::loop_idiom(crate::parser::loop_body(ops, opens.last().0 as int))
                is None);
            lemma_jumps_close(s, ops, opens, j as int);
        } else if is_run_tag(ins) && ops.len() > 0 && ops.last().op_type == ins {
            lemma_jumps_merge(s, ops, opens, Op { op_type: ins, arg: (ops.last().arg + 1) as i64 });
        } else {
            lemma_jumps_push(s, ops, opens, Op { op_type: ins, arg: 1 });
        }
    }
}

/// The program with one operation per symbol: each jump's target comes from
/// the jump table `t` (an open jumps past its partner, a close back to it).
pub open spec fn plain_program(s: Seq<Instruction>, t: Seq<usize>) -> Seq<Op> {
    Seq::new(
        s.len(),
        |i: int|
            Op {
                op_type: s[i],
                arg: if s[i] == Instruction::JumpZero {
                    (t[i] + 1) as i64
                } else if s[i] == Instruction::JumpNotZero {
                    t[i] as i64
                } else {
                    1
                },
            },
    )
}

proof fn lemma_expand_split(ops: Seq<Op>, x: int)
    requires
        0 <= x <= ops.len(),
    ensures
        expand(ops) == expand(ops.subrange(0, x)) + expand(ops.subrange(x, ops.len() as int)),
    decreases ops.len(),
{
    if x == ops.len() {
        assert(ops.subrange(0, x) =~= ops);
        assert(ops.subrange(x, ops.len() as int) =~= Seq::<Op>::empty());
        assert(expand(ops) + Seq::<Instruction>::empty() =~= expand(ops));
    } else {
        let dl = ops.drop_last();
        lemma_expand_split(dl, x);
        assert(dl.subrange(0, x) =~= ops.subrange(0, x));
        assert(ops.subrange(x, ops.len() as int).drop_last() =~= dl.subrange(x, dl.len() as int));
        assert(ops.subrange(x, ops.len() as int).last() == ops.last());
        assert(expand(ops) =~= expand(ops.subrange(0, x)) + expand(ops.subrange(x, ops.len() as int)));
    }
}

/// Operation `j` stands at its offset in the spelled-out sequence.
proof fn lemma_block_at(ops: Seq<Op>, j: int, i: int)
    requires
        0 <= j < ops.len(),
        0 <= i < block(ops[j]).len(),
    ensures
        offs(ops, j) + block(ops[j]).len() <= expand(ops).len(),
        expand(ops)[offs(ops, j) + i] == ops[j].op_type,
{
    lemma_expand_split(ops, j + 1);
    lemma_offs_next(ops, j);
    assert(ops.subrange(0, j + 1).drop_last() =~= ops.subrange(0, j));
    assert(ops.subrange(0, j + 1).last() == ops[j]);
    assert(expand(ops.subrange(0, j + 1))[offs(ops, j) + i] == block(ops[j])[i]);
}

proof fn lemma_adjust_compose(v: u8, d: int, e: int)
    ensures
        adjusted(adjusted(v, d), e) == adjusted(v, d + e),
{
    lemma_add_mod_noop_right(e, v + d, 256);
}

/// `c` one-step moves of the plain program move the pointer by `c`.
proof fn lemma_plain_moves(plain: Seq<Op>, m: MachineState, input: Seq<u8>, fuel: nat, c: nat, up: bool)
    requires
        0 <= m.pc,
        m.pc + c <= plain.len(),
        forall|i: int|
            m.pc <= i < m.pc + c ==> #[trigger] plain[i] == (Op {
                op_type: if up {
                    Instruction::IncPtr
                } else {
                    Instruction::DecPtr
                },
                arg: 1,
            }),
        in_tape(m.tape, m.ptr),
        in_tape(m.tape, if up { m.ptr + c } else { m.ptr - c }),
        fuel >= c,
    ensures
        run_spec(plain, m, input, fuel) == run_spec(
            plain,
            MachineState { tape: m.tape, pc: m.pc + c, ptr: if up { m.ptr + c } else { m.ptr - c } },
            input,
            (fuel - c) as nat,
        ),
    decreases c,
{
    if c > 0 {
        let p1 = if up { m.ptr + 1 } else { m.ptr - 1 };
        let m1 = MachineState { tape: m.tape, pc: m.pc + 1, ptr: p1 };
        assert(plain[m.pc] == plain[m.pc]);
        crate::idioms::lemma_silent_step(plain, m, m1, input, fuel);
        lemma_plain_moves(plain, m1, input, (fuel - 1) as nat, (c - 1) as nat, up);
    }
}

proof fn lemma_adjust_zero(tape: Seq<u8>, p: int)
    requires
        in_tape(tape, p),
    ensures
        tape.update(p, adjusted(tape[p], 0)) == tape,
{
    assert(adjusted(tape[p], 0) == tape[p]);
    assert(tape.update(p, tape[p]) =~= tape);
}

proof fn lemma_adjust_twice(tape: Seq<u8>, p: int, d: int, e: int)
    requires
        in_tape(tape, p),
    ensures
        tape.update(p, adjusted(tape[p], d)).update(p, adjusted(adjusted(tape[p], d), e))
            == tape.update(p, adjusted(tape[p], d + e)),
{
    lemma_adjust_compose(tape[p], d, e);
    assert(tape.update(p, adjusted(tape[p], d)).update(p, adjusted(adjusted(tape[p], d), e))
        =~= tape.update(p, adjusted(tape[p], d + e)));
}

proof fn lemma_plain_adjust_step(plain: Seq<Op>, m: MachineState, up: bool)
    requires
        0 <= m.pc < plain.len(),
        plain[m.pc] == (Op {
            op_type: if up {
                Instruction::IncData
            } else {
                Instruction::DecData
            },
            arg: 1,
        }),
    ensures
        step_spec(plain[m.pc], m, None) == Ok::<(MachineState, Option<u8>), ExecError>(
            (
                MachineState {
                    tape: m.tape.update(m.ptr, adjusted(m.tape[m.ptr], if up { 1int } else { -1 })),
                    pc: m.pc + 1,
                    ptr: m.ptr,
                },
                None,
            ),
        ),
{
}

/// `c` one-step adjustments of the plain program adjust the cell by `c`.
proof fn lemma_plain_adjusts(plain: Seq<Op>, m: MachineState, input: Seq<u8>, fuel: nat, c: nat, up: bool)
    requires
        0 <= m.pc,
        m.pc + c <= plain.len(),
        forall|i: int|
            m.pc <= i < m.pc + c ==> #[trigger] plain[i] == (Op {
                op_type: if up {
                    Instruction::IncData
                } else {
                    Instruction::DecData
                },
                arg: 1,
            }),
        in_tape(m.tape, m.ptr),
        fuel >= c,
    ensures
        run_spec(plain, m, input, fuel) == run_spec(
            plain,
            MachineState {
                tape: m.tape.update(m.ptr, adjusted(m.tape[m.ptr], if up { c as int } else { -c })),
                pc: m.pc + c,
                ptr: m.ptr,
            },
            input,
            (fuel - c) as nat,
        ),
    decreases c,
{
    let d: int = if up { 1 } else { -1 };
    if c == 0 {
        lemma_adjust_zero(m.tape, m.ptr);
    } else {
        let w = adjusted(m.tape[m.ptr], d);
        let m1 = MachineState { tape: m.tape.update(m.ptr, w), pc: m.pc + 1, ptr: m.ptr };
        lemma_plain_adjust_step(plain, m, up);
        crate::idioms::lemma_silent_step(plain, m, m1, input, fuel);
        lemma_plain_adjusts(plain, m1, input, (fuel - 1) as nat, (c - 1) as nat, up);
        let e: int = if up { c - 1 } else { -(c - 1) };
        lemma_adjust_twice(m.tape, m.ptr, d, e);
        assert(d + e == if up { c as int } else { -c });
    }
}

/// Two partners of one open, or of one close, are the same bracket.
proof fn lemma_partner_unique(s: Seq<Instruction>, i1: int, j1: int, i2: int, j2: int)
    requires
        closes_at(s, i1, j1),
        closes_at(s, i2, j2),
        i1 == i2 || j1 == j2,
    ensures
        i1 == i2 && j1 == j2,
{
    if i1 == i2 && j1 < j2 {
        assert(depth(s, j1 + 1) > depth(s, i1));
    } else if i1 == i2 && j2 < j1 {
        assert(depth(s, j2 + 1) > depth(s, i2));
    } else if j1 == j2 && i1 < i2 {
        assert(depth(s, i2) > depth(s, i1));
    } else if j1 == j2 && i2 < i1 {
        assert(depth(s, i1) > depth(s, i2));
    }
}

/// What the compiled program and its source share when no loop was collapsed.
pub open spec fn sim_ctx(s: Seq<Instruction>, t: Seq<usize>, ops: Seq<Op>) -> bool {
    &&& s.len() < i64::MAX
    &&& ops.len() <= s.len()
    &&& expand(ops) == s
    &&& jumps_ok(s, ops, Seq::empty())
    &&& !has_loop_op(ops)
    &&& forall|i: int| 0 <= i < ops.len() && is_run_tag(#[trigger] ops[i].op_type) ==> 1 <= ops[i].arg <= s.len()
    &&& t.len() == s.len()
    &&& forall|i: int| 0 <= i < s.len() ==> #[trigger] jump_entry(s, t, i)
}

/// The plain machine that stands for a machine of the compiled program.
pub open spec fn mirror(ops: Seq<Op>, m: MachineState) -> MachineState {
    MachineState { tape: m.tape, pc: offs(ops, m.pc), ptr: m.ptr }
}

proof fn lemma_plain_at(s: Seq<Instruction>, t: Seq<usize>, ops: Seq<Op>, j: int, i: int)
    requires
        sim_ctx(s, t, ops),
        0 <= j < ops.len(),
        0 <= i < block(ops[j]).len(),
    ensures
        offs(ops, j) + block(ops[j]).len() <= s.len(),
        plain_program(s, t)[offs(ops, j) + i].op_type == ops[j].op_type,
        is_run_tag(ops[j].op_type) ==> plain_program(s, t)[offs(ops, j) + i].arg == 1,
        offs(ops, j + 1) == offs(ops, j) + block(ops[j]).len(),
{
    lemma_block_at(ops, j, i);
    lemma_offs_next(ops, j);
}

/// Where a jump of the compiled program lands, the plain program's jump lands
/// at the mirrored place.
proof fn lemma_jump_targets(s: Seq<Instruction>, t: Seq<usize>, ops: Seq<Op>, j: int)
    requires
        sim_ctx(s, t, ops),
        0 <= j < ops.len(),
        ops[j].op_type == Instruction::JumpZero || ops[j].op_type == Instruction::JumpNotZero,
    ensures
        0 <= ops[j].arg <= ops.len(),
        plain_program(s, t)[offs(ops, j)].arg == offs(ops, ops[j].arg as int),
{
    reveal(jumps_ok);
    let q = offs(ops, j);
    lemma_plain_at(s, t, ops, j, 0);
    assert(s[q] == ops[j].op_type);
    assert(jump_entry(s, t, q));
    let a = ops[j].arg as int;
    if ops[j].op_type == Instruction::JumpZero {
        if ops[j].arg == 0 {
            let opens = Seq::<(usize, usize)>::empty();
            assert(exists|l: int| 0 <= l < opens.len() && (#[trigger] opens[l]).0 == j);
            let l = choose|l: int| 0 <= l < opens.len() && (#[trigger] opens[l]).0 == j;
            assert(opens.len() == 0);
        }
        assert(ops[a - 1] == (Op { op_type: Instruction::JumpNotZero, arg: j as i64 }));
        assert(ops[a - 1].op_type == Instruction::JumpNotZero);
        assert(ops[a - 1].arg as int == j);
        assert(closes_at(s, offs(ops, j), offs(ops, a - 1)));
        lemma_partner_unique(s, q, t[q] as int, q, offs(ops, a - 1));
        lemma_offs_next(ops, a - 1);
    } else {
        assert(closes_at(s, offs(ops, a), q));
        lemma_partner_unique(s, t[q] as int, q, offs(ops, a), q);
    }
}

pub open spec fn combine(o: Seq<u8>, used: int, r: (MachineState, Seq<u8>, int, RunStatus)) -> (
    MachineState,
    Seq<u8>,
    int,
    RunStatus,
) {
    (r.0, o + r.1, used + r.2, r.3)
}

/// The compiled program's operation at `pc` that is no counted one takes one
/// plain step too, with the same effect.
proof fn lemma_single_step(
    s: Seq<Instruction>,
    t: Seq<usize>,
    ops: Seq<Op>,
    mo: MachineState,
    input: Seq<u8>,
    f: nat,
    big: nat,
) -> (res: (MachineState, Seq<u8>, int))
    requires
        sim_ctx(s, t, ops),
        0 <= mo.pc < ops.len(),
        in_tape(mo.tape, mo.ptr),
        f > 0,
        big > 0,
        !is_run_tag(ops[mo.pc].op_type),
        run_spec(ops, mo, input, f).3 == RunStatus::Halted,
    ensures
        0 <= res.2 <= input.len(),
        0 <= res.0.pc <= ops.len(),
        in_tape(res.0.tape, res.0.ptr),
        run_spec(ops, mo, input, f) == combine(
            res.1,
            res.2,
            run_spec(ops, res.0, input.subrange(res.2, input.len() as int), (f - 1) as nat),
        ),
        run_spec(plain_program(s, t), mirror(ops, mo), input, big) == combine(
            res.1,
            res.2,
            run_spec(
                plain_program(s, t),
                mirror(ops, res.0),
                input.subrange(res.2, input.len() as int),
                (big - 1) as nat,
            ),
        ),
{
    let plain = plain_program(s, t);
    let j = mo.pc;
    let op = ops[j];
    let q = offs(ops, j);
    lemma_plain_at(s, t, ops, j, 0);
    let pop = plain[q];
    assert(pop.op_type == op.op_type);
    let mp = mirror(ops, mo);
    let reads = op.op_type == Instruction::Read;
    let byte = if reads && input.len() > 0 {
        Some(input[0])
    } else {
        None
    };
    assert(!is_loop_tag(op.op_type));
    if op.op_type == Instruction::JumpZero || op.op_type == Instruction::JumpNotZero {
        lemma_jump_targets(s, t, ops, j);
    }
    let r = step_spec(op, mo, byte)->Ok_0;
    let used: int = if reads { 1 } else { 0 };
    assert(step_spec(op, mo, byte) is Ok);
    assert(step_spec(pop, mp, byte) == Ok::<(MachineState, Option<u8>), ExecError>((mirror(ops, r.0), r.1)));
    (r.0, out_seq(r.1), used)
}

/// One counted move or adjustment of the compiled program is as many plain
/// steps.
proof fn lemma_counted_step(
    s: Seq<Instruction>,
    t: Seq<usize>,
    ops: Seq<Op>,
    mo: MachineState,
    input: Seq<u8>,
    f: nat,
    big: nat,
) -> (res: MachineState)
    requires
        sim_ctx(s, t, ops),
        0 <= mo.pc < ops.len(),
        in_tape(mo.tape, mo.ptr),
        f > 0,
        big >= s.len(),
        is_run_tag(ops[mo.pc].op_type),
        run_spec(ops, mo, input, f).3 == RunStatus::Halted,
    ensures
        res.pc == mo.pc + 1,
        in_tape(res.tape, res.ptr),
        run_spec(ops, mo, input, f) == run_spec(ops, res, input, (f - 1) as nat),
        run_spec(plain_program(s, t), mirror(ops, mo), input, big) == run_spec(
            plain_program(s, t),
            mirror(ops, res),
            input,
            (big - ops[mo.pc].arg) as nat,
        ),
{
    let plain = plain_program(s, t);
    let j = mo.pc;
    let op = ops[j];
    let c = op.arg as nat;
    let q = offs(ops, j);
    let mp = mirror(ops, mo);
    assert(1 <= op.arg <= s.len());
    assert(block(op).len() == c);
    lemma_plain_at(s, t, ops, j, 0);
    assert forall|i: int| q <= i < q + c implies #[trigger] plain[i] == (Op {
        op_type: op.op_type,
        arg: 1,
    }) by {
        lemma_plain_at(s, t, ops, j, i - q);
    }
    let r = step_spec(op, mo, None);
    assert(r is Ok);
    let next = r->Ok_0.0;
    crate::idioms::lemma_silent_step(ops, mo, next, input, f);
    if op.op_type == Instruction::IncPtr || op.op_type == Instruction::DecPtr {
        let up = op.op_type == Instruction::IncPtr;
        lemma_plain_moves(plain, mp, input, big, c, up);
    } else {
        let up = op.op_type == Instruction::IncData;
        lemma_plain_adjusts(plain, mp, input, big, c, up);
    }
    next
}

proof fn lemma_simulation(
    s: Seq<Instruction>,
    t: Seq<usize>,
    ops: Seq<Op>,
    mo: MachineState,
    input: Seq<u8>,
    f: nat,
    big: nat,
)
    requires
        sim_ctx(s, t, ops),
        0 <= mo.pc <= ops.len(),
        in_tape(mo.tape, mo.ptr),
        big >= f * (s.len() + 1),
        run_spec(ops, mo, input, f).3 == RunStatus::Halted,
    ensures
        ({
            let fast = run_spec(ops, mo, input, f);
            let slow = run_spec(plain_program(s, t), mirror(ops, mo), input, big);
            &&& slow.3 == RunStatus::Halted
            &&& slow.0.tape == fast.0.tape
            &&& slow.0.ptr == fast.0.ptr
            &&& slow.1 == fast.1
            &&& slow.2 == fast.2
        }),
    decreases f,
{
    let plain = plain_program(s, t);
    if mo.pc == ops.len() {
        lemma_offs_end(ops);
    } else {
        assert(f > 0);
        assert(f * (s.len() + 1) == (f - 1) * (s.len() + 1) + s.len() + 1) by (nonlinear_arith);
        if is_run_tag(ops[mo.pc].op_type) {
            let next = lemma_counted_step(s, t, ops, mo, input, f, big);
            lemma_simulation(s, t, ops, next, input, (f - 1) as nat, (big - ops[mo.pc].arg) as nat);
        } else {
            let res = lemma_single_step(s, t, ops, mo, input, f, big);
            let rest = input.subrange(res.2, input.len() as int);
            lemma_simulation(s, t, ops, res.0, rest, (f - 1) as nat, (big - 1) as nat);
        }
    }
}

/// Where the compiler collapsed no loop, running the compiled program and
/// running the program with one operation per symbol (its jumps taken from a
/// jump table of the source) agree: whenever the compiled run halts, the plain
/// run halts too, with the same tape, pointer, output and input consumed.
pub proof fn lemma_optimization_preserves_behaviour(
    s: Seq<Instruction>,
    t: Seq<usize>,
    m: MachineState,
    input: Seq<u8>,
    fuel: nat,
)
    requires
        s.len() < i64::MAX,
        s.len() <= usize::MAX,
        compile(s) is Ok,
        !has_loop_op(compile(s)->Ok_0),
        t.len() == s.len(),
        forall|i: int| 0 <= i < s.len() ==> #[trigger] jump_entry(s, t, i),
        in_tape(m.tape, m.ptr),
        m.pc == 0,
    ensures
        ({
            let fast = run_spec(compile(s)->Ok_0, m, input, fuel);
            let slow = run_spec(plain_program(s, t), m, input, fuel * (s.len() + 1));
            fast.3 == RunStatus::Halted ==> {
                &&& slow.3 == RunStatus::Halted
                &&& slow.0.tape == fast.0.tape
                &&& slow.0.ptr == fast.0.ptr
                &&& slow.1 == fast.1
                &&& slow.2 == fast.2
            }
        }),
{
    let n = s.len();
    let ops = compile(s)->Ok_0;
    assert(compile_prefix(s, n) is Ok);
    assert(compile_prefix(s, n)->Ok_0.1.len() == 0);
    assert(compile_prefix(s, n)->Ok_0.1 =~= Seq::<(usize, usize)>::empty());
    lemma_prefix_facts(s, n);
    lemma_compile_jumps(s, n);
    lemma_compile_expansion(s, n);
    assert(s.subrange(0, n as int) =~= s);
    assert(ops.subrange(0, 0) =~= Seq::<Op>::empty());
    assert(mirror(ops, m) == m);
    if run_spec(ops, m, input, fuel).3 == RunStatus::Halted {
        lemma_simulation(s, t, ops, m, input, fuel, fuel * (n + 1));
    }
}

} // verus!
