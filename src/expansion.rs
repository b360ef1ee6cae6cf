//! Spelling compiled operations back out as primitive instructions.
use vstd::prelude::*;

use crate::parser::{
    Instruction, Op, compile, compile_one, compile_prefix, decoded, is_run_tag, lemma_symbols_round_trip,
    stripped, symbols,
};

verus! {

/// The tags of the operations that stand for a whole collapsed loop.
pub open spec fn is_loop_tag(t: Instruction) -> bool {
    t == Instruction::LoopSetZero || t == Instruction::LoopMovePtr || t == Instruction::LoopMoveData
}

/// Some operation stands for a collapsed loop.
pub open spec fn has_loop_op(ops: Seq<Op>) -> bool {
    exists|i: int| 0 <= i < ops.len() && is_loop_tag(#[trigger] ops[i].op_type)
}

/// The instructions that one operation stands for: a counted move or
/// adjustment is its tag repeated, anything else is its tag once.
pub open spec fn block(op: Op) -> Seq<Instruction> {
    if is_run_tag(op.op_type) {
        Seq::new(op.arg as nat, |_i: int| op.op_type)
    } else {
        seq![op.op_type]
    }
}

/// Operations spelled out as instructions, block after block.
pub open spec fn expand(ops: Seq<Op>) -> Seq<Instruction>
    decreases ops.len(),
{
    if ops.len() == 0 {
        Seq::empty()
    } else {
        expand(ops.drop_last()) + block(ops.last())
    }
}

pub(crate) proof fn lemma_expand_update(ops: Seq<Op>, j: int, o: Op)
    requires
        0 <= j < ops.len(),
        block(o) == block(ops[j]),
    ensures
        expand(ops.update(j, o)) == expand(ops),
    decreases ops.len(),
{
    if j == ops.len() - 1 {
        assert(ops.update(j, o).drop_last() =~= ops.drop_last());
    } else {
        assert(ops.update(j, o).drop_last() =~= ops.drop_last().update(j, o));
        lemma_expand_update(ops.drop_last(), j, o);
    }
}

pub(crate) proof fn lemma_expand_push(ops: Seq<Op>, o: Op)
    ensures
        expand(ops.push(o)) == expand(ops) + block(o),
{
    assert(ops.push(o).drop_last() =~= ops);
}

pub(crate) proof fn lemma_compile_expansion(s: Seq<Instruction>, k: nat)
    requires
        k <= s.len() < i64::MAX,
        s.len() <= usize::MAX,
        compile_prefix(s, k) is Ok,
    ensures
        ({
            let ops = compile_prefix(s, k)->Ok_0.0;
            let opens = compile_prefix(s, k)->Ok_0.1;
            &&& ops.len() <= k
            &&& forall|l: int|
                0 <= l < opens.len() ==> (#[trigger] opens[l]).0 < ops.len()
                    && ops[opens[l].0 as int].op_type == Instruction::JumpZero
            &&& forall|a: int, b: int|
                0 <= a < b < opens.len() ==> (#[trigger] opens[a]).0 < (#[trigger] opens[b]).0
            &&& forall|i: int|
                0 <= i < ops.len() && is_run_tag(#[trigger] ops[i].op_type) ==> 1 <= ops[i].arg <= k
            &&& has_loop_op(ops) || expand(ops) == s.subrange(0, k as int)
            &&& k > 0 && has_loop_op(compile_prefix(s, (k - 1) as nat)->Ok_0.0) ==> has_loop_op(ops)
        }),
    decreases k,
{
    if k > 0 {
        let j = (k - 1) as nat;
        lemma_compile_expansion(s, j);
        let ops = compile_prefix(s, j)->Ok_0.0;
        let opens = compile_prefix(s, j)->Ok_0.1;
        let ins = s[j as int];
        assert(compile_prefix(s, k) == compile_one(ops, opens, ins, j as usize));
        let new_ops = compile_prefix(s, k)->Ok_0.0;
        let new_opens = compile_prefix(s, k)->Ok_0.1;
        assert(s.subrange(0, k as int) =~= s.subrange(0, j as int).push(ins));
        if ins == Instruction::JumpZero {
            let o = Op { op_type: Instruction::JumpZero, arg: 0 };
            assert(new_ops == ops.push(o));
            assert(new_opens == opens.push((ops.len() as usize, j as usize)));
            assert forall|l: int| 0 <= l < new_opens.len() implies (#[trigger] new_opens[l]).0
                < new_ops.len() && new_ops[new_opens[l].0 as int].op_type
                == Instruction::JumpZero by {
                if l < opens.len() {
                    assert(new_opens[l] == opens[l]);
                }
            }
            assert forall|a: int, b: int| 0 <= a < b < new_opens.len() implies (
            #[trigger] new_opens[a]).0 < (#[trigger] new_opens[b]).0 by {
                assert(new_opens[a] == opens[a]);
                if b < opens.len() {
                    assert(new_opens[b] == opens[b]);
                }
            }
            assert forall|i: int| 0 <= i < new_ops.len() && is_run_tag(
                #[trigger] new_ops[i].op_type,
            ) implies 1 <= new_ops[i].arg <= k by {
                assert(new_ops[i] == ops[i]);
            }
            if has_loop_op(ops) {
                let w = choose|i: int| 0 <= i < ops.len() && is_loop_tag(#[trigger] ops[i].op_type);
                assert(new_ops[w] == ops[w]);
            } else {
                lemma_expand_push(ops, o);
            }
        } else if ins == Instruction::JumpNotZero {
            assert(opens.len() > 0);
            let start = opens.last().0 as int;
            let rest = opens.drop_last();
            assert(new_opens == rest);
            assert(ops[start].op_type == Instruction::JumpZero);
            assert forall|l: int| 0 <= l < rest.len() implies (#[trigger] rest[l]).0 < start by {
                assert(rest[l] == opens[l]);
                assert(opens[l].0 < opens[opens.len() - 1].0);
            }
            assert forall|a: int, b: int| 0 <= a < b < new_opens.len() implies (
            #[trigger] new_opens[a]).0 < (#[trigger] new_opens[b]).0 by {
                assert(new_opens[a] == opens[a]);
                assert(new_opens[b] == opens[b]);
            }
            match crate::parser::loop_idiom(crate::parser::loop_body(ops, start)) {
                Some(o) => {
                    assert(new_ops == ops.subrange(0, start).push(o));
                    assert(is_loop_tag(o.op_type));
                    assert forall|l: int| 0 <= l < new_opens.len() implies (
                    #[trigger] new_opens[l]).0 < new_ops.len() && new_ops[new_opens[l].0 as int].op_type
                        == Instruction::JumpZero by {
                        assert(rest[l].0 < start);
                        assert(rest[l] == opens[l]);
                    }
                    assert forall|i: int| 0 <= i < new_ops.len() && is_run_tag(
                        #[trigger] new_ops[i].op_type,
                    ) implies 1 <= new_ops[i].arg <= k by {
                        if i < start {
                            assert(new_ops[i] == ops[i]);
                        }
                    }
                    assert(is_loop_tag(new_ops[new_ops.len() - 1].op_type));
                },
                None => {
                    let jz = Op { op_type: Instruction::JumpZero, arg: (ops.len() + 1) as i64 };
                    let jnz = Op { op_type: Instruction::JumpNotZero, arg: start as i64 };
                    assert(new_ops == ops.update(start, jz).push(jnz));
                    assert forall|l: int| 0 <= l < new_opens.len() implies (
                    #[trigger] new_opens[l]).0 < new_ops.len() && new_ops[new_opens[l].0 as int].op_type
                        == Instruction::JumpZero by {
                        assert(rest[l].0 < start);
                        assert(rest[l] == opens[l]);
                    }
                    assert forall|i: int| 0 <= i < new_ops.len() && is_run_tag(
                        #[trigger] new_ops[i].op_type,
                    ) implies 1 <= new_ops[i].arg <= k by {
                        if i < ops.len() && i != start {
                            assert(new_ops[i] == ops[i]);
                        }
                    }
                    if has_loop_op(ops) {
                        let w = choose|i: int|
                            0 <= i < ops.len() && is_loop_tag(#[trigger] ops[i].op_type);
                        assert(w != start);
                        assert(new_ops[w] == ops[w]);
                    } else {
                        lemma_expand_update(ops, start, jz);
                        lemma_expand_push(ops.update(start, jz), jnz);
                    }
                },
            }
        } else if is_run_tag(ins) && ops.len() > 0 && ops.last().op_type == ins {
            let last = ops.last();
            let merged = Op { op_type: ins, arg: (last.arg + 1) as i64 };
            let li = ops.len() - 1;
            assert(new_ops == ops.update(li, merged));
            assert(new_opens == opens);
            assert forall|l: int| 0 <= l < new_opens.len() implies (#[trigger] new_opens[l]).0
                < new_ops.len() && new_ops[new_opens[l].0 as int].op_type
                == Instruction::JumpZero by {
                assert(opens[l].0 != li);
            }
            assert forall|i: int| 0 <= i < new_ops.len() && is_run_tag(
                #[trigger] new_ops[i].op_type,
            ) implies 1 <= new_ops[i].arg <= k by {
                if i != li {
                    assert(new_ops[i] == ops[i]);
                } else {
                    assert(ops[li].arg <= j);
                }
            }
            if has_loop_op(ops) {
                let w = choose|i: int| 0 <= i < ops.len() && is_loop_tag(#[trigger] ops[i].op_type);
                assert(w != li);
                assert(new_ops[w] == ops[w]);
            } else {
                assert(new_ops.drop_last() =~= ops.drop_last());
                assert(block(merged) =~= block(last).push(ins));
                assert(expand(new_ops) =~= expand(ops).push(ins));
            }
        } else {
            let o = Op { op_type: ins, arg: 1 };
            assert(new_ops == ops.push(o));
            assert(new_opens == opens);
            assert forall|l: int| 0 <= l < new_opens.len() implies (#[trigger] new_opens[l]).0
                < new_ops.len() && new_ops[new_opens[l].0 as int].op_type
                == Instruction::JumpZero by {
                assert(new_ops[opens[l].0 as int] == ops[opens[l].0 as int]);
            }
            assert forall|i: int| 0 <= i < new_ops.len() && is_run_tag(
                #[trigger] new_ops[i].op_type,
            ) implies 1 <= new_ops[i].arg <= k by {
                if i < ops.len() {
                    assert(new_ops[i] == ops[i]);
                }
            }
            if has_loop_op(ops) {
                let w = choose|i: int| 0 <= i < ops.len() && is_loop_tag(#[trigger] ops[i].op_type);
                assert(new_ops[w] == ops[w]);
            } else {
                lemma_expand_push(ops, o);
                assert(block(o) =~= seq![ins]);
                if is_loop_tag(ins) {
                    assert(is_loop_tag(new_ops[new_ops.len() - 1].op_type));
                }
            }
        }
    }
}

/// Where the compiler collapsed no loop, spelling every operation back out
/// gives the instruction sequence it compiled, and so the source's symbols with
/// the comments stripped.
pub proof fn lemma_expand_compiled(bytes: Seq<u8>)
    requires
        decoded(bytes).len() < i64::MAX,
        decoded(bytes).len() <= usize::MAX,
        compile(decoded(bytes)) is Ok,
        !has_loop_op(compile(decoded(bytes))->Ok_0),
    ensures
        expand(compile(decoded(bytes))->Ok_0) == decoded(bytes),
        symbols(expand(compile(decoded(bytes))->Ok_0)) == stripped(bytes),
{
    let s = decoded(bytes);
    lemma_compile_expansion(s, s.len());
    assert(s.subrange(0, s.len() as int) =~= s);
    lemma_symbols_round_trip(bytes);
}

} // verus!
