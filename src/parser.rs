use vstd::prelude::*;
use vstd::string::StringExecFns;

use crate::opt::{balanced, error_at, lemma_unmatched_bracket_rejected};

verus! {

/// A compiled program: an ordered sequence of operations.
pub struct Program {
    pub ops: Vec<Op>,
}

/// The tag of a primitive instruction or of a compiled operation.
///
/// The first eight (besides `Invalid`) are the source symbols; the last three
/// stand for whole loops that the compiler collapsed.
#[derive(Debug, Clone, Copy, PartialEq, Eq, Structural)]
pub enum Instruction {
    Invalid,
    IncPtr,
    DecPtr,
    IncData,
    DecData,
    Read,
    Write,
    JumpZero,
    JumpNotZero,
    LoopSetZero,
    LoopMovePtr,
    LoopMoveData,
}

/// One operation of a compiled program: a tag and its integer argument
/// (a count, a stride, an offset or a jump target, by tag).
#[derive(Debug, Clone, Copy, PartialEq, Eq, Structural)]
pub struct Op {
    pub op_type: Instruction,
    pub arg: i64,
}

/// Why a source cannot be compiled: a bracket without its partner, with the
/// bracket's position in the instruction sequence.
#[derive(Debug, Clone, Copy, PartialEq, Eq, Structural)]
pub enum CompileError {
    UnmatchedOpen(usize),
    UnmatchedClose(usize),
}

/// The instruction that a source byte stands for; `Invalid` for a comment byte.
/// The eight symbols, in ASCII: `>` 62, `<` 60, `+` 43, `-` 45, `[` 91, `]` 93,
/// `,` 44, `.` 46.
pub open spec fn decode_byte(b: u8) -> Instruction {
    if b == 62 {
        Instruction::IncPtr
    } else if b == 60 {
        Instruction::DecPtr
    } else if b == 43 {
        Instruction::IncData
    } else if b == 45 {
        Instruction::DecData
    } else if b == 91 {
        Instruction::JumpZero
    } else if b == 93 {
        Instruction::JumpNotZero
    } else if b == 44 {
        Instruction::Read
    } else if b == 46 {
        Instruction::Write
    } else {
        Instruction::Invalid
    }
}

/// The instructions of a source: its recognized bytes, in order, decoded.
pub open spec fn decoded(bytes: Seq<u8>) -> Seq<Instruction>
    decreases bytes.len(),
{
    if bytes.len() == 0 {
        Seq::empty()
    } else {
        let rest = decoded(bytes.drop_last());
        let ins = decode_byte(bytes.last());
        if ins == Instruction::Invalid {
            rest
        } else {
            rest.push(ins)
        }
    }
}

/// The character that names a tag in a program's text form.
pub open spec fn tag_char(t: Instruction) -> char {
    match t {
        Instruction::IncPtr => '>',
        Instruction::DecPtr => '<',
        Instruction::IncData => '+',
        Instruction::DecData => '-',
        Instruction::JumpZero => '[',
        Instruction::JumpNotZero => ']',
        Instruction::Read => ',',
        Instruction::Write => '.',
        Instruction::LoopSetZero => 's',
        Instruction::LoopMovePtr => 'p',
        Instruction::LoopMoveData => 'd',
        Instruction::Invalid => 'x',
    }
}

/// The decimal digit for `d < 10`.
pub open spec fn digit_char(d: nat) -> char {
    if d == 0 {
        '0'
    } else if d == 1 {
        '1'
    } else if d == 2 {
        '2'
    } else if d == 3 {
        '3'
    } else if d == 4 {
        '4'
    } else if d == 5 {
        '5'
    } else if d == 6 {
        '6'
    } else if d == 7 {
        '7'
    } else if d == 8 {
        '8'
    } else {
        '9'
    }
}

/// The decimal digits of `n`, most significant first, without leading zeros.
pub open spec fn digits(n: nat) -> Seq<char>
    decreases n,
{
    if n < 10 {
        seq![digit_char(n)]
    } else {
        digits(n / 10).push(digit_char(n % 10))
    }
}

/// `n` in decimal, with a leading `-` when negative.
pub open spec fn decimal(n: int) -> Seq<char> {
    if n < 0 {
        seq!['-'] + digits((-n) as nat)
    } else {
        digits(n as nat)
    }
}

/// An operation's text: its tag character, then its argument in decimal.
pub open spec fn op_text(op: Op) -> Seq<char> {
    seq![tag_char(op.op_type)] + decimal(op.arg as int)
}

fn push_digit(s: &mut String, d: u64)
    requires
        d < 10,
    ensures
        final(s)@ == old(s)@.push(digit_char(d as nat)),
{
    match d {
        0 => {
            proof {
                reveal_strlit("0");
            }
            s.append("0");
        },
        1 => {
            proof {
                reveal_strlit("1");
            }
            s.append("1");
        },
        2 => {
            proof {
                reveal_strlit("2");
            }
            s.append("2");
        },
        3 => {
            proof {
                reveal_strlit("3");
            }
            s.append("3");
        },
        4 => {
            proof {
                reveal_strlit("4");
            }
            s.append("4");
        },
        5 => {
            proof {
                reveal_strlit("5");
            }
            s.append("5");
        },
        6 => {
            proof {
                reveal_strlit("6");
            }
            s.append("6");
        },
        7 => {
            proof {
                reveal_strlit("7");
            }
            s.append("7");
        },
        8 => {
            proof {
                reveal_strlit("8");
            }
            s.append("8");
        },
        _ => {
            proof {
                reveal_strlit("9");
            }
            s.append("9");
        },
    }
}

fn push_digits(s: &mut String, n: u64)
    ensures
        final(s)@ == old(s)@ + digits(n as nat),
    decreases n,
{
    if n >= 10 {
        push_digits(s, n / 10);
    }
    push_digit(s, n % 10);
    proof {
        if n < 10 {
            assert(old(s)@.push(digit_char(n as nat)) =~= old(s)@ + digits(n as nat));
        } else {
            assert((old(s)@ + digits((n / 10) as nat)).push(digit_char((n % 10) as nat)) =~= old(s)@
                + digits(n as nat));
        }
    }
}

/// A byte that stands for an instruction (anything else is a comment).
pub open spec fn is_symbol(b: u8) -> bool {
    decode_byte(b) != Instruction::Invalid
}

/// A source with its comment bytes removed.
pub open spec fn stripped(bytes: Seq<u8>) -> Seq<u8>
    decreases bytes.len(),
{
    if bytes.len() == 0 {
        Seq::empty()
    } else {
        let rest = stripped(bytes.drop_last());
        if is_symbol(bytes.last()) {
            rest.push(bytes.last())
        } else {
            rest
        }
    }
}

/// The source symbol of a primitive instruction; 0 for the other tags.
pub open spec fn symbol_of(ins: Instruction) -> u8 {
    match ins {
        Instruction::IncPtr => 62,
        Instruction::DecPtr => 60,
        Instruction::IncData => 43,
        Instruction::DecData => 45,
        Instruction::JumpZero => 91,
        Instruction::JumpNotZero => 93,
        Instruction::Read => 44,
        Instruction::Write => 46,
        _ => 0,
    }
}

/// The source text that spells an instruction sequence.
pub open spec fn symbols(instrs: Seq<Instruction>) -> Seq<u8> {
    instrs.map_values(|ins: Instruction| symbol_of(ins))
}

/// Re-spelling decoded instructions gives back the source with its comments
/// stripped, and decoding that gives back the same instructions.
pub proof fn lemma_symbols_round_trip(bytes: Seq<u8>)
    ensures
        symbols(decoded(bytes)) == stripped(bytes),
        decoded(symbols(decoded(bytes))) == decoded(bytes),
    decreases bytes.len(),
{
    if bytes.len() > 0 {
        let init = bytes.drop_last();
        lemma_symbols_round_trip(init);
        let rest = decoded(init);
        if is_symbol(bytes.last()) {
            let ins = decode_byte(bytes.last());
            assert(symbols(rest.push(ins)) =~= symbols(rest).push(bytes.last()));
            assert(symbols(rest.push(ins)).drop_last() =~= symbols(rest));
            assert(decode_byte(symbol_of(ins)) == ins);
            assert(decoded(symbols(rest.push(ins))) == decoded(symbols(rest)).push(ins));
        }
        assert(bytes.drop_last() == init);
    } else {
        assert(symbols(decoded(bytes)) =~= stripped(bytes));
    }
}

impl Op {
    pub fn new(op_type: Instruction, arg: i64) -> (r: Op)
        ensures
            r.op_type == op_type,
            r.arg == arg,
    {
        Op { op_type, arg }
    }

    /// The operation's text form, such as `+3` or `[12`.
    pub fn to_string(&self) -> (r: String)
        ensures
            r@ == op_text(*self),
    {
        let mut s = String::new();
        match self.op_type {
            Instruction::IncPtr => {
                proof {
                    reveal_strlit(">");
                }
                s.append(">");
            },
            Instruction::DecPtr => {
                proof {
                    reveal_strlit("<");
                }
                s.append("<");
            },
            Instruction::IncData => {
                proof {
                    reveal_strlit("+");
                }
                s.append("+");
            },
            Instruction::DecData => {
                proof {
                    reveal_strlit("-");
                }
                s.append("-");
            },
            Instruction::JumpZero => {
                proof {
                    reveal_strlit("[");
                }
                s.append("[");
            },
            Instruction::JumpNotZero => {
                proof {
                    reveal_strlit("]");
                }
                s.append("]");
            },
            Instruction::Read => {
                proof {
                    reveal_strlit(",");
                }
                s.append(",");
            },
            Instruction::Write => {
                proof {
                    reveal_strlit(".");
                }
                s.append(".");
            },
            Instruction::LoopSetZero => {
                proof {
                    reveal_strlit("s");
                }
                s.append("s");
            },
            Instruction::LoopMovePtr => {
                proof {
                    reveal_strlit("p");
                }
                s.append("p");
            },
            Instruction::LoopMoveData => {
                proof {
                    reveal_strlit("d");
                }
                s.append("d");
            },
            Instruction::Invalid => {
                proof {
                    reveal_strlit("x");
                }
                s.append("x");
            },
        }
        if self.arg < 0 {
            proof {
                reveal_strlit("-");
            }
            s.append("-");
            let magnitude: u64 = (-(self.arg as i128)) as u64;
            push_digits(&mut s, magnitude);
        } else {
            push_digits(&mut s, self.arg as u64);
        }
        assert(s@ =~= op_text(*self));
        s
    }
}

/// Decodes one byte.
fn decode(b: u8) -> (r: Instruction)
    ensures
        r == decode_byte(b),
{
    match b {
        62 => Instruction::IncPtr,  // '>'
        60 => Instruction::DecPtr,  // '<'
        43 => Instruction::IncData,  // '+'
        45 => Instruction::DecData,  // '-'
        91 => Instruction::JumpZero,  // '['
        93 => Instruction::JumpNotZero,  // ']'
        44 => Instruction::Read,  // ','
        46 => Instruction::Write,  // '.'
        _ => Instruction::Invalid,
    }
}

/// Turns source bytes into primitive instructions, dropping every byte that is
/// not one of the eight symbols.
pub fn parse(bytes: &[u8]) -> (r: Vec<Instruction>)
    ensures
        r@ == decoded(bytes@),
{
    let mut instructions: Vec<Instruction> = Vec::new();
    let mut i: usize = 0;
    while i < bytes.len()
        invariant
            i <= bytes@.len(),
            instructions@ == decoded(bytes@.subrange(0, i as int)),
        decreases bytes@.len() - i,
    {
        let ins = decode(bytes[i]);
        proof {
            let next = bytes@.subrange(0, i + 1);
            assert(next.drop_last() =~= bytes@.subrange(0, i as int));
        }
        if ins != Instruction::Invalid {
            instructions.push(ins);
        }
        i = i + 1;
    }
    assert(bytes@.subrange(0, bytes@.len() as int) =~= bytes@);
    instructions
}

/// The single operation that replaces a whole loop with this body, if the body
/// is one of the known idioms: one cell adjustment (the cell ends at zero), one
/// pointer move (a scan for a zero cell by that stride), or
/// `-`, move by K, `+`, move back by K with K nonzero (the cell's value moves
/// to the cell at offset K). A stride or offset whose negation does not fit
/// in an `i64` is left alone.
pub open spec fn loop_idiom(body: Seq<Op>) -> Option<Op> {
    if body.len() == 1 {
        let o = body[0];
        if o.op_type == Instruction::IncData || o.op_type == Instruction::DecData {
            Some(Op { op_type: Instruction::LoopSetZero, arg: 0 })
        } else if o.op_type == Instruction::IncPtr {
            Some(Op { op_type: Instruction::LoopMovePtr, arg: o.arg })
        } else if o.op_type == Instruction::DecPtr && o.arg != i64::MIN {
            Some(Op { op_type: Instruction::LoopMovePtr, arg: (-o.arg) as i64 })
        } else {
            None
        }
    } else if body.len() == 4 && body[0] == (Op { op_type: Instruction::DecData, arg: 1 })
        && body[2] == (Op { op_type: Instruction::IncData, arg: 1 }) && body[1].arg == body[3].arg
        && body[1].arg != 0 {
        let k = body[1].arg;
        if body[1].op_type == Instruction::IncPtr && body[3].op_type == Instruction::DecPtr {
            Some(Op { op_type: Instruction::LoopMoveData, arg: k })
        } else if body[1].op_type == Instruction::DecPtr && body[3].op_type == Instruction::IncPtr
            && k != i64::MIN {
            Some(Op { op_type: Instruction::LoopMoveData, arg: (-k) as i64 })
        } else {
            None
        }
    } else {
        None
    }
}

/// The body of the loop whose opening operation stands at `start`: the
/// operations after it.
pub open spec fn loop_body(ops: Seq<Op>, start: int) -> Seq<Op> {
    if start < ops.len() {
        ops.subrange(start + 1, ops.len() as int)
    } else {
        Seq::empty()
    }
}

/// The operations that replace a loop: the idiom's one operation, or none.
pub open spec fn idiom_ops(body: Seq<Op>) -> Seq<Op> {
    match loop_idiom(body) {
        Some(o) => seq![o],
        None => Seq::empty(),
    }
}

/// Given the operations emitted so far, where the loop opened at `start` ends,
/// returns the single operation that replaces the whole loop, or nothing when
/// its body is no idiom.
pub fn optimize_loop(ops: &Vec<Op>, start: usize) -> (r: Vec<Op>)
    requires
        start <= ops.len(),
    ensures
        r@ == idiom_ops(loop_body(ops@, start as int)),
{
    let mut new_ops: Vec<Op> = Vec::new();
    let ghost body = loop_body(ops@, start as int);
    let n = ops.len() - start;
    if n == 2 {
        let o = ops[start + 1];
        assert(body[0] == o);
        match o.op_type {
            Instruction::IncData | Instruction::DecData => {
                new_ops.push(Op::new(Instruction::LoopSetZero, 0));
            },
            Instruction::IncPtr => {
                new_ops.push(Op::new(Instruction::LoopMovePtr, o.arg));
            },
            Instruction::DecPtr => {
                if o.arg != i64::MIN {
                    new_ops.push(Op::new(Instruction::LoopMovePtr, -o.arg));
                }
            },
            _ => {},
        }
    } else if n == 5 {
        let data_one = ops[start + 1];
        let move_one = ops[start + 2];
        let data_two = ops[start + 3];
        let move_two = ops[start + 4];
        assert(body[0] == data_one && body[1] == move_one && body[2] == data_two && body[3]
            == move_two);
        if data_one.op_type == Instruction::DecData && data_one.arg == 1 && data_two.op_type
            == Instruction::IncData && data_two.arg == 1 && move_one.arg == move_two.arg
            && move_one.arg != 0 {
            let k = move_one.arg;
            if move_one.op_type == Instruction::IncPtr && move_two.op_type == Instruction::DecPtr {
                new_ops.push(Op::new(Instruction::LoopMoveData, k));
            } else if move_one.op_type == Instruction::DecPtr && move_two.op_type
                == Instruction::IncPtr && k != i64::MIN {
                new_ops.push(Op::new(Instruction::LoopMoveData, -k));
            }
        }
    }
    assert(new_ops@ =~= idiom_ops(body));
    new_ops
}

/// The tags that the compiler merges into one counted operation when they repeat.
pub open spec fn is_run_tag(t: Instruction) -> bool {
    t == Instruction::IncPtr || t == Instruction::DecPtr || t == Instruction::IncData || t
        == Instruction::DecData
}

/// Whether an operation's argument suits a program of `len` operations: a jump
/// lands in `0..=len`, a scan moves by a nonzero stride.
pub open spec fn op_wf(op: Op, len: int) -> bool {
    &&& (op.op_type == Instruction::JumpZero || op.op_type == Instruction::JumpNotZero) ==> 0
        <= op.arg <= len
    &&& op.op_type == Instruction::LoopMovePtr ==> op.arg != 0
}

pub open spec fn ops_wf(ops: Seq<Op>) -> bool {
    forall|i: int| 0 <= i < ops.len() ==> #[trigger] op_wf(ops[i], ops.len() as int)
}

impl Program {
    /// Every jump target is in range and every scan stride is nonzero.
    pub open spec fn wf(&self) -> bool {
        ops_wf(self.ops@)
    }
}

/// The compiler's state after one more instruction at source position `pos`:
/// the operations emitted so far and, for each loop still open, the index of
/// its opening operation and its source position.
pub open spec fn compile_one(
    ops: Seq<Op>,
    opens: Seq<(usize, usize)>,
    ins: Instruction,
    pos: usize,
) -> Result<(Seq<Op>, Seq<(usize, usize)>), CompileError> {
    if ins == Instruction::JumpZero {
        Ok(
            (
                ops.push(Op { op_type: Instruction::JumpZero, arg: 0 }),
                opens.push((ops.len() as usize, pos)),
            ),
        )
    } else if ins == Instruction::JumpNotZero {
        if opens.len() == 0 {
            Err(CompileError::UnmatchedClose(pos))
        } else {
            let start = opens.last().0 as int;
            let rest = opens.drop_last();
            match loop_idiom(loop_body(ops, start)) {
                Some(o) => Ok((ops.subrange(0, start).push(o), rest)),
                None => Ok(
                    (
                        ops.update(
                            start,
                            Op { op_type: Instruction::JumpZero, arg: (ops.len() + 1) as i64 },
                        ).push(Op { op_type: Instruction::JumpNotZero, arg: start as i64 }),
                        rest,
                    ),
                ),
            }
        }
    } else if is_run_tag(ins) && ops.len() > 0 && ops.last().op_type == ins {
        Ok((ops.update(ops.len() - 1, Op { op_type: ins, arg: (ops.last().arg + 1) as i64 }), opens))
    } else {
        Ok((ops.push(Op { op_type: ins, arg: 1 }), opens))
    }
}

/// The compiler's state after the first `n` instructions.
pub open spec fn compile_prefix(instrs: Seq<Instruction>, n: nat) -> Result<
    (Seq<Op>, Seq<(usize, usize)>),
    CompileError,
>
    decreases n,
{
    if n == 0 {
        Ok((Seq::empty(), Seq::empty()))
    } else {
        match compile_prefix(instrs, (n - 1) as nat) {
            Err(e) => Err(e),
            Ok(st) => compile_one(st.0, st.1, instrs[n - 1], (n - 1) as usize),
        }
    }
}

/// The program compiled from an instruction sequence, or the first bracket
/// error: a close with no open loop, else the outermost loop left open.
pub open spec fn compile(instrs: Seq<Instruction>) -> Result<Seq<Op>, CompileError> {
    match compile_prefix(instrs, instrs.len()) {
        Err(e) => Err(e),
        Ok(st) => if st.1.len() > 0 {
            Err(CompileError::UnmatchedOpen(st.1[0].1))
        } else {
            Ok(st.0)
        },
    }
}

proof fn lemma_error_persists(instrs: Seq<Instruction>, k: nat, n: nat)
    requires
        k <= n,
        compile_prefix(instrs, k) is Err,
    ensures
        compile_prefix(instrs, n) == compile_prefix(instrs, k),
    decreases n - k,
{
    if k < n {
        lemma_error_persists(instrs, k, (n - 1) as nat);
    }
}

fn is_run_instruction(ins: Instruction) -> (r: bool)
    ensures
        r == is_run_tag(ins),
{
    match ins {
        Instruction::IncPtr | Instruction::DecPtr | Instruction::IncData | Instruction::DecData => true,
        _ => false,
    }
}

/// Compiles primitive instructions into a program: runs of one move or adjust
/// symbol become one counted operation, loops whose body is an idiom become one
/// operation, and every other bracket pair becomes a pair of jumps that hold
/// each other's place. An unmatched bracket is an error.
pub fn merge_ops(instructions: &Vec<Instruction>) -> (r: Result<Program, CompileError>)
    requires
        instructions.len() < i64::MAX,
    ensures
        match r {
            Ok(p) => compile(instructions@) == Ok::<Seq<Op>, CompileError>(p.ops@) && p.wf(),
            Err(e) => compile(instructions@) == Err::<Seq<Op>, CompileError>(e),
        },
        r is Ok <==> balanced(instructions@),
        r matches Err(e) ==> error_at(instructions@, e),
{
    let mut pc: usize = 0;
    let mut ops: Vec<Op> = Vec::new();
    let mut opens: Vec<(usize, usize)> = Vec::new();
    let program_size = instructions.len();
    while pc < program_size
        invariant
            program_size == instructions.len() < i64::MAX,
            pc <= program_size,
            compile_prefix(instructions@, pc as nat) == Ok::<_, CompileError>((ops@, opens@)),
            ops.len() <= pc,
            forall|i: int| 0 <= i < ops.len() ==> #[trigger] ops[i].arg <= pc,
            forall|i: int|
                0 <= i < ops.len() && is_run_tag(#[trigger] ops[i].op_type) ==> ops[i].arg >= 1,
            forall|i: int|
                0 <= i < ops.len() && #[trigger] ops[i].op_type == Instruction::LoopMovePtr
                    ==> ops[i].arg != 0,
            forall|i: int|
                0 <= i < ops.len() && #[trigger] ops[i].op_type == Instruction::JumpZero ==> 0
                    <= ops[i].arg <= ops.len(),
            forall|i: int|
                0 <= i < ops.len() && #[trigger] ops[i].op_type == Instruction::JumpNotZero ==> 0
                    <= ops[i].arg < i,
            forall|i: int, k: int|
                0 <= i < ops.len() && 0 <= k < opens.len() && #[trigger] ops[i].op_type
                    == Instruction::JumpZero && i < #[trigger] opens[k].0 ==> ops[i].arg
                    <= opens[k].0,
            forall|k: int| 0 <= k < opens.len() ==> #[trigger] opens[k].0 < ops.len(),
            forall|a: int, b: int|
                0 <= a < b < opens.len() ==> #[trigger] opens[a].0 < #[trigger] opens[b].0,
        decreases program_size - pc,
    {
        let ins = instructions[pc];
        let ghost old_ops = ops@;
        let ghost old_opens = opens@;
        match ins {
            Instruction::JumpZero => {
                opens.push((ops.len(), pc));
                ops.push(Op::new(Instruction::JumpZero, 0));
            },
            Instruction::JumpNotZero => {
                if opens.len() == 0 {
                    proof {
                        lemma_error_persists(instructions@, (pc + 1) as nat, instructions@.len());
                        lemma_unmatched_bracket_rejected(instructions@);
                    }
                    return Err(CompileError::UnmatchedClose(pc));
                }
                let (start, _pos) = opens.pop().unwrap();
                let optimized = optimize_loop(&ops, start);
                if optimized.len() == 0 {
                    let target = ops.len() + 1;
                    ops.set(start, Op::new(Instruction::JumpZero, target as i64));
                    ops.push(Op::new(Instruction::JumpNotZero, start as i64));
                } else {
                    ops.truncate(start);
                    ops.push(optimized[0]);
                }
            },
            _ => {
                let last = ops.len();
                if is_run_instruction(ins) && last > 0 && ops[last - 1].op_type == ins {
                    let count = ops[last - 1].arg;
                    ops.set(last - 1, Op::new(ins, count + 1));
                } else {
                    ops.push(Op::new(ins, 1));
                }
            },
        }
        assert(compile_prefix(instructions@, (pc + 1) as nat) == compile_one(
            old_ops,
            old_opens,
            ins,
            pc,
        ));
        assert(compile_prefix(instructions@, (pc + 1) as nat) == Ok::<_, CompileError>(
            (ops@, opens@),
        ));
        pc = pc + 1;
    }
    proof {
        lemma_unmatched_bracket_rejected(instructions@);
    }
    if opens.len() > 0 {
        return Err(CompileError::UnmatchedOpen(opens[0].1));
    }
    Ok(Program { ops })
}

} // verus!
