use vstd::prelude::*;

use crate::parser::{CompileError, Instruction, compile, compile_prefix};

verus! {

/// How a symbol changes the loop nesting depth.
pub open spec fn bracket_delta(ins: Instruction) -> int {
    if ins == Instruction::JumpZero {
        1
    } else if ins == Instruction::JumpNotZero {
        -1
    } else {
        0
    }
}

/// Opening minus closing brackets among the first `k` instructions.
pub open spec fn depth(s: Seq<Instruction>, k: int) -> int
    decreases k,
{
    if k <= 0 {
        0
    } else {
        depth(s, k - 1) + bracket_delta(s[k - 1])
    }
}

/// No prefix closes more loops than it opens.
pub open spec fn never_negative(s: Seq<Instruction>) -> bool {
    forall|q: int| 0 <= q <= s.len() ==> #[trigger] depth(s, q) >= 0
}

/// Every bracket has its partner.
pub open spec fn balanced(s: Seq<Instruction>) -> bool {
    never_negative(s) && depth(s, s.len() as int) == 0
}

/// The close at `p` is the first bracket that has no partner.
pub open spec fn unmatched_close_at(s: Seq<Instruction>, p: int) -> bool {
    &&& 0 <= p < s.len()
    &&& depth(s, p + 1) < 0
    &&& forall|q: int| 0 <= q <= p ==> #[trigger] depth(s, q) >= 0
}

/// Every close has its partner, and the open at `p` is the first one that does
/// not: after it the depth never comes back to its level.
pub open spec fn unmatched_open_at(s: Seq<Instruction>, p: int) -> bool {
    &&& never_negative(s)
    &&& 0 <= p < s.len()
    &&& depth(s, p) == 0
    &&& forall|q: int| p < q <= s.len() ==> #[trigger] depth(s, q) > 0
}

/// The open at `i` and the close at `j` are partners: `j` is the first place
/// after `i` where the depth falls back to what it was before `i`.
pub open spec fn closes_at(s: Seq<Instruction>, i: int, j: int) -> bool {
    &&& 0 <= i < j < s.len()
    &&& s[i] == Instruction::JumpZero
    &&& s[j] == Instruction::JumpNotZero
    &&& depth(s, j + 1) == depth(s, i)
    &&& forall|q: int| i < q <= j ==> #[trigger] depth(s, q) > depth(s, i)
}

/// The bracket error of a sequence, as its position states it.
pub open spec fn error_at(s: Seq<Instruction>, e: CompileError) -> bool {
    match e {
        CompileError::UnmatchedClose(p) => unmatched_close_at(s, p as int),
        CompileError::UnmatchedOpen(p) => unmatched_open_at(s, p as int),
    }
}

/// A jump table entry: an open holds its partner's position, a close its
/// partner's, anything else 0.
pub open spec fn jump_entry(s: Seq<Instruction>, t: Seq<usize>, i: int) -> bool {
    if s[i] == Instruction::JumpZero {
        closes_at(s, i, t[i] as int)
    } else if s[i] == Instruction::JumpNotZero {
        closes_at(s, t[i] as int, i)
    } else {
        t[i] == 0
    }
}

/// For each bracket of a primitive instruction sequence, the position of its
/// partner; 0 elsewhere. An unmatched bracket is an error.
pub fn compute_jumptable(instructions: &Vec<Instruction>) -> (r: Result<Vec<usize>, CompileError>)
    ensures
        match r {
            Ok(t) => balanced(instructions@) && t.len() == instructions.len() && forall|i: int|
                0 <= i < t.len() ==> #[trigger] jump_entry(instructions@, t@, i),
            Err(e) => error_at(instructions@, e),
        },
{
    let ghost s = instructions@;
    let program_size = instructions.len();
    let mut jump_table: Vec<usize> = Vec::new();
    let mut i: usize = 0;
    while i < program_size
        invariant
            program_size == instructions.len(),
            i <= program_size,
            jump_table.len() == i,
            forall|k: int| 0 <= k < i ==> jump_table[k] == 0,
        decreases program_size - i,
    {
        jump_table.push(0);
        i = i + 1;
    }
    let mut stack: Vec<usize> = Vec::new();
    let mut pc: usize = 0;
    while pc < program_size
        invariant
            s == instructions@,
            program_size == instructions.len(),
            jump_table.len() == program_size,
            pc <= program_size,
            stack.len() == depth(s, pc as int),
            forall|q: int| 0 <= q <= pc ==> #[trigger] depth(s, q) >= 0,
            forall|l: int|
                0 <= l < stack.len() ==> {
                    &&& #[trigger] stack[l] < pc
                    &&& s[stack[l] as int] == Instruction::JumpZero
                    &&& depth(s, stack[l] as int) == l
                    &&& forall|q: int| stack[l] < q <= pc ==> #[trigger] depth(s, q) > l
                },
            forall|k: int|
                0 <= k < pc && s[k] == Instruction::JumpZero ==> (#[trigger] jump_table[k] == 0
                    && forall|q: int| k < q <= pc ==> #[trigger] depth(s, q) > depth(s, k)) || (
                closes_at(s, k, jump_table[k] as int) && jump_table[k] < pc),
            forall|k: int|
                0 <= k < pc && s[k] == Instruction::JumpNotZero ==> closes_at(
                    s,
                    #[trigger] jump_table[k] as int,
                    k,
                ),
            forall|k: int|
                0 <= k < program_size && (pc <= k || (s[k] != Instruction::JumpZero && s[k]
                    != Instruction::JumpNotZero)) ==> #[trigger] jump_table[k] == 0,
        decreases program_size - pc,
    {
        assert(depth(s, pc + 1) == depth(s, pc as int) + bracket_delta(s[pc as int]));
        match instructions[pc] {
            Instruction::JumpZero => {
                stack.push(pc);
            },
            Instruction::JumpNotZero => {
                if stack.len() == 0 {
                    return Err(CompileError::UnmatchedClose(pc));
                }
                let open = stack.pop().unwrap();
                assert(depth(s, open as int) == stack.len());
                jump_table.set(open, pc);
                jump_table.set(pc, open);
            },
            _ => {},
        }
        pc = pc + 1;
    }
    if stack.len() > 0 {
        return Err(CompileError::UnmatchedOpen(stack[0]));
    }
    Ok(jump_table)
}

/// The open loops that the compiler keeps after `k` instructions stand, level
/// by level, at the last position before which the depth was that level; a
/// close that finds none is the first one without a partner.
pub(crate) proof fn lemma_compile_prefix_opens(s: Seq<Instruction>, k: nat)
    requires
        k <= s.len() <= usize::MAX,
    ensures
        (forall|q: int| 0 <= q <= k ==> #[trigger] depth(s, q) >= 0) ==> {
            &&& compile_prefix(s, k) is Ok
            &&& compile_prefix(s, k)->Ok_0.1.len() == depth(s, k as int)
            &&& forall|l: int|
                0 <= l < compile_prefix(s, k)->Ok_0.1.len() ==> {
                    let pos = #[trigger] compile_prefix(s, k)->Ok_0.1[l].1 as int;
                    &&& pos < k
                    &&& depth(s, pos) == l
                    &&& forall|q: int| pos < q <= k ==> #[trigger] depth(s, q) > l
                }
        },
        !(forall|q: int| 0 <= q <= k ==> #[trigger] depth(s, q) >= 0) ==> {
            &&& compile_prefix(s, k) matches Err(CompileError::UnmatchedClose(p))
            &&& unmatched_close_at(s, p as int)
        },
    decreases k,
{
    if k > 0 {
        let j = (k - 1) as nat;
        lemma_compile_prefix_opens(s, j);
        assert(depth(s, k as int) == depth(s, j as int) + bracket_delta(s[j as int]));
        if !(forall|q: int| 0 <= q <= j ==> #[trigger] depth(s, q) >= 0) {
            let q0 = choose|q: int| 0 <= q <= j && !(#[trigger] depth(s, q) >= 0);
            assert(0 <= q0 <= k && !(depth(s, q0) >= 0));
        } else {
            let st = compile_prefix(s, j)->Ok_0;
            assert(compile_prefix(s, k) == crate::parser::compile_one(
                st.0,
                st.1,
                s[j as int],
                j as usize,
            ));
            if s[j as int] == Instruction::JumpNotZero && st.1.len() == 0 {
                assert(!(depth(s, k as int) >= 0));
                assert forall|q: int| 0 <= q <= j implies #[trigger] depth(s, q) >= 0 by {}
            } else {
                assert forall|q: int| 0 <= q <= k implies #[trigger] depth(s, q) >= 0 by {
                    if q == k {
                    }
                }
            }
        }
    }
}

/// An instruction sequence compiles exactly when its brackets are balanced;
/// otherwise the error names the first close without a partner or, failing
/// that, the first open without one.
pub proof fn lemma_unmatched_bracket_rejected(s: Seq<Instruction>)
    requires
        s.len() <= usize::MAX,
    ensures
        compile(s) is Ok <==> balanced(s),
        compile(s) matches Err(e) ==> error_at(s, e),
{
    lemma_compile_prefix_opens(s, s.len());
    if !never_negative(s) {
        let q0 = choose|q: int| 0 <= q <= s.len() && !(#[trigger] depth(s, q) >= 0);
        assert(!(depth(s, q0) >= 0));
    } else {
        let st = compile_prefix(s, s.len())->Ok_0;
        if st.1.len() > 0 {
            let pos = st.1[0].1 as int;
            assert(depth(s, pos) == 0);
            assert(unmatched_open_at(s, pos));
        }
    }
}

} // verus!
