use vstd::prelude::*;
use vstd::string::StringExecFns;
use vstd::arithmetic::div_mod::lemma_mod_multiples_vanish;

use crate::parser::{Instruction, Op, Program, op_text, op_wf};

verus! {

/// Why a run stopped before its program ended.
#[derive(Debug, Clone, Copy, PartialEq, Eq, Structural)]
pub enum ExecError {
    /// The data pointer would leave the tape.
    OutOfBounds,
    /// A read found no byte left.
    InputExhausted,
}

/// The abstract machine: tape contents, program counter and data pointer.
pub struct MachineState {
    pub tape: Seq<u8>,
    pub pc: int,
    pub ptr: int,
}

/// The tape and registers of one run.
pub struct InterpreterState {
    pub memory: Vec<u8>,
    pub pc: usize,
    pub ptr: usize,
}

impl View for InterpreterState {
    type V = MachineState;

    open spec fn view(&self) -> MachineState {
        MachineState { tape: self.memory@, pc: self.pc as int, ptr: self.ptr as int }
    }
}

pub open spec fn in_tape(tape: Seq<u8>, p: int) -> bool {
    0 <= p < tape.len()
}

/// A cell after adding `delta`, modulo 256.
pub open spec fn adjusted(cell: u8, delta: int) -> u8 {
    ((cell as int + delta) % 256) as u8
}

/// Where a scan that starts at `ptr` and steps by `stride` stops: the first
/// position on its way whose cell is zero, or a bounds error if it would leave
/// the tape first.
pub open spec fn scan_spec(tape: Seq<u8>, ptr: int, stride: int) -> Result<int, ExecError>
    decreases (if stride > 0 {
        tape.len() - ptr
    } else {
        ptr
    }),
    when in_tape(tape, ptr) && stride != 0
{
    if tape[ptr] == 0 {
        Ok(ptr)
    } else if in_tape(tape, ptr + stride) {
        scan_spec(tape, ptr + stride, stride)
    } else {
        Err(ExecError::OutOfBounds)
    }
}

/// The machine after moving the pointer to `p` and advancing.
pub open spec fn moved_to(m: MachineState, p: int) -> Result<(MachineState, Option<u8>), ExecError> {
    if in_tape(m.tape, p) {
        Ok((MachineState { tape: m.tape, pc: m.pc + 1, ptr: p }, None))
    } else {
        Err(ExecError::OutOfBounds)
    }
}

/// The machine after the current cell takes `v` and the counter advances.
pub open spec fn cell_set(m: MachineState, v: u8) -> MachineState {
    MachineState { tape: m.tape.update(m.ptr, v), pc: m.pc + 1, ptr: m.ptr }
}

/// One step of execution of `op` on `m`: the next machine and the byte
/// written, if any, or the error that ends the run. `input` is the byte that a
/// read takes, `None` when the input is exhausted.
pub open spec fn step_spec(op: Op, m: MachineState, input: Option<u8>) -> Result<
    (MachineState, Option<u8>),
    ExecError,
> {
    let cell = m.tape[m.ptr];
    let next = MachineState { tape: m.tape, pc: m.pc + 1, ptr: m.ptr };
    match op.op_type {
        Instruction::IncPtr => moved_to(m, m.ptr + op.arg),
        Instruction::DecPtr => moved_to(m, m.ptr - op.arg),
        Instruction::IncData => Ok((cell_set(m, adjusted(cell, op.arg as int)), None)),
        Instruction::DecData => Ok((cell_set(m, adjusted(cell, -op.arg)), None)),
        Instruction::Read => match input {
            Some(b) => Ok((cell_set(m, b), None)),
            None => Err(ExecError::InputExhausted),
        },
        Instruction::Write => Ok((next, Some(cell))),
        Instruction::JumpZero => Ok(
            (
                MachineState {
                    tape: m.tape,
                    pc: if cell == 0 {
                        op.arg as int
                    } else {
                        m.pc + 1
                    },
                    ptr: m.ptr,
                },
                None,
            ),
        ),
        Instruction::JumpNotZero => Ok(
            (
                MachineState {
                    tape: m.tape,
                    pc: if cell != 0 {
                        op.arg as int
                    } else {
                        m.pc + 1
                    },
                    ptr: m.ptr,
                },
                None,
            ),
        ),
        Instruction::LoopSetZero => Ok((cell_set(m, 0), None)),
        Instruction::LoopMovePtr => match scan_spec(m.tape, m.ptr, op.arg as int) {
            Ok(p) => Ok((MachineState { tape: m.tape, pc: m.pc + 1, ptr: p }, None)),
            Err(e) => Err(e),
        },
        Instruction::LoopMoveData => if cell == 0 {
            Ok((next, None))
        } else if in_tape(m.tape, m.ptr + op.arg) {
            let dest = m.ptr + op.arg;
            let t = m.tape.update(dest, adjusted(m.tape[dest], cell as int));
            Ok((MachineState { tape: t.update(m.ptr, 0), pc: m.pc + 1, ptr: m.ptr }, None))
        } else {
            Err(ExecError::OutOfBounds)
        },
        Instruction::Invalid => Ok((next, None)),
    }
}

/// The text of a sequence of operations: each one's text, in order.
pub open spec fn ops_text(ops: Seq<Op>) -> Seq<char>
    decreases ops.len(),
{
    if ops.len() == 0 {
        Seq::empty()
    } else {
        ops_text(ops.drop_last()) + op_text(ops.last())
    }
}

/// Writes operations as text, one after another with no separator.
pub fn serialize_ops(ops: &Vec<Op>) -> (r: String)
    ensures
        r@ == ops_text(ops@),
{
    let mut string = String::new();
    let mut i: usize = 0;
    while i < ops.len()
        invariant
            i <= ops.len(),
            string@ == ops_text(ops@.subrange(0, i as int)),
        decreases ops.len() - i,
    {
        let text = ops[i].to_string();
        string.append(text.as_str());
        assert(ops@.subrange(0, i + 1).drop_last() =~= ops@.subrange(0, i as int));
        i = i + 1;
    }
    assert(ops@.subrange(0, ops.len() as int) =~= ops@);
    string
}

/// `cell + delta` modulo 256.
fn adjust(cell: u8, delta: i128) -> (r: u8)
    requires
        -0x1_0000_0000_0000_0000 < delta < 0x1_0000_0000_0000_0000,
    ensures
        r == adjusted(cell, delta as int),
{
    let shifted: i128 = cell as i128 + delta + 0x100_0000_0000_0000_0000;
    proof {
        lemma_mod_multiples_vanish(0x1_0000_0000_0000_0000, cell as int + delta, 256);
    }
    ((shifted as u128) % 256) as u8
}

impl InterpreterState {
    /// The pointer is on the tape.
    pub open spec fn wf(&self) -> bool {
        self.ptr < self.memory.len()
    }

    /// A zeroed tape of `mem_size` cells, with pointer and counter at 0.
    pub fn new(mem_size: usize) -> (r: InterpreterState)
        ensures
            r.memory@ == Seq::new(mem_size as nat, |i: int| 0u8),
            r.pc == 0,
            r.ptr == 0,
    {
        let mut memory: Vec<u8> = Vec::new();
        let mut i: usize = 0;
        while i < mem_size
            invariant
                i <= mem_size,
                memory@ == Seq::new(i as nat, |j: int| 0u8),
            decreases mem_size - i,
        {
            memory.push(0);
            i = i + 1;
            assert(memory@ =~= Seq::new(i as nat, |j: int| 0u8));
        }
        InterpreterState { memory, pc: 0, ptr: 0 }
    }

    /// Moves the pointer to `p`, if it is on the tape, and advances.
    fn move_to(&mut self, p: i128) -> (r: Result<Option<u8>, ExecError>)
        requires
            old(self).wf(),
            old(self).pc < usize::MAX,
        ensures
            match moved_to(old(self)@, p as int) {
                Ok(res) => r == Ok::<Option<u8>, ExecError>(res.1) && final(self)@ == res.0,
                Err(e) => r == Err::<Option<u8>, ExecError>(e) && *final(self) == *old(self),
            },
            final(self).wf(),
    {
        if p < 0 || p >= self.memory.len() as i128 {
            return Err(ExecError::OutOfBounds);
        }
        self.ptr = p as usize;
        self.pc = self.pc + 1;
        Ok(None)
    }

    /// Executes the operation at the program counter. Returns the byte that it
    /// writes, if any; `input` is the byte that a read takes. On an error the
    /// state is left as it was.
    pub fn step(&mut self, program: &Program, input: Option<u8>) -> (r: Result<Option<u8>, ExecError>)
        requires
            old(self).wf(),
            program.wf(),
            old(self).pc < program.ops.len(),
        ensures
            match step_spec(program.ops@[old(self).pc as int], old(self)@, input) {
                Ok(res) => r == Ok::<Option<u8>, ExecError>(res.1) && final(self)@ == res.0,
                Err(e) => r == Err::<Option<u8>, ExecError>(e) && *final(self) == *old(self),
            },
            final(self).wf(),
    {
        let op = program.ops[self.pc];
        assert(op_wf(program.ops@[self.pc as int], program.ops@.len() as int));
        let cell = self.memory[self.ptr];
        match op.op_type {
            Instruction::IncPtr => self.move_to(self.ptr as i128 + op.arg as i128),
            Instruction::DecPtr => self.move_to(self.ptr as i128 - op.arg as i128),
            Instruction::IncData | Instruction::DecData => {
                let delta: i128 = if op.op_type == Instruction::IncData {
                    op.arg as i128
                } else {
                    -(op.arg as i128)
                };
                self.memory.set(self.ptr, adjust(cell, delta));
                self.pc = self.pc + 1;
                Ok(None)
            },
            Instruction::Read => {
                match input {
                    Some(b) => {
                        self.memory.set(self.ptr, b);
                        self.pc = self.pc + 1;
                        Ok(None)
                    },
                    None => Err(ExecError::InputExhausted),
                }
            },
            Instruction::Write => {
                self.pc = self.pc + 1;
                Ok(Some(cell))
            },
            Instruction::JumpZero => {
                if cell == 0 {
                    self.pc = op.arg as usize;
                } else {
                    self.pc = self.pc + 1;
                }
                Ok(None)
            },
            Instruction::JumpNotZero => {
                if cell != 0 {
                    self.pc = op.arg as usize;
                } else {
                    self.pc = self.pc + 1;
                }
                Ok(None)
            },
            Instruction::LoopSetZero => {
                self.memory.set(self.ptr, 0);
                self.pc = self.pc + 1;
                Ok(None)
            },
            Instruction::LoopMovePtr => {
                match scan(&self.memory, self.ptr, op.arg) {
                    Ok(p) => {
                        self.ptr = p;
                        self.pc = self.pc + 1;
                        Ok(None)
                    },
                    Err(e) => Err(e),
                }
            },
            Instruction::LoopMoveData => {
                if cell != 0 {
                    let d: i128 = self.ptr as i128 + op.arg as i128;
                    if d < 0 || d >= self.memory.len() as i128 {
                        return Err(ExecError::OutOfBounds);
                    }
                    let dest = d as usize;
                    let sum = adjust(self.memory[dest], cell as i128);
                    self.memory.set(dest, sum);
                    self.memory.set(self.ptr, 0);
                }
                self.pc = self.pc + 1;
                Ok(None)
            },
            Instruction::Invalid => {
                self.pc = self.pc + 1;
                Ok(None)
            },
        }
    }
}

/// Moves from `ptr` by `stride` until the cell under the pointer is zero.
fn scan(memory: &Vec<u8>, ptr: usize, stride: i64) -> (r: Result<usize, ExecError>)
    requires
        ptr < memory.len(),
        stride != 0,
    ensures
        match scan_spec(memory@, ptr as int, stride as int) {
            Ok(p) => r == Ok::<usize, ExecError>(p as usize) && 0 <= p < memory.len(),
            Err(e) => r == Err::<usize, ExecError>(e),
        },
{
    let mut p: usize = ptr;
    while memory[p] != 0
        invariant
            p < memory.len(),
            stride != 0,
            scan_spec(memory@, ptr as int, stride as int) == scan_spec(
                memory@,
                p as int,
                stride as int,
            ),
        decreases (if stride > 0 {
            memory.len() - p
        } else {
            p as int
        }),
    {
        let n: i128 = p as i128 + stride as i128;
        if n < 0 || n >= memory.len() as i128 {
            return Err(ExecError::OutOfBounds);
        }
        p = n as usize;
    }
    Ok(p)
}

/// How a bounded run ended.
#[derive(Debug, Clone, Copy, PartialEq, Eq, Structural)]
pub enum RunStatus {
    /// The program counter passed the end of the program.
    Halted,
    /// The step budget ran out first.
    OutOfFuel,
    /// A step failed; the state is the one before that step.
    Failed(ExecError),
}

/// What a bounded run leaves: the final state, the bytes written, how many
/// input bytes were read, and how it ended.
pub struct RunResult {
    pub state: InterpreterState,
    pub output: Vec<u8>,
    pub consumed: usize,
    pub status: RunStatus,
}

pub open spec fn out_seq(o: Option<u8>) -> Seq<u8> {
    match o {
        Some(b) => seq![b],
        None => Seq::empty(),
    }
}

/// At most `fuel` steps of `ops` from `m`, reads taking bytes from `input` in
/// order: the final machine, the bytes written, the count of bytes read, and
/// how the run ended.
pub open spec fn run_spec(ops: Seq<Op>, m: MachineState, input: Seq<u8>, fuel: nat) -> (
    MachineState,
    Seq<u8>,
    int,
    RunStatus,
)
    decreases fuel,
{
    if !(0 <= m.pc < ops.len()) {
        (m, Seq::empty(), 0, RunStatus::Halted)
    } else if fuel == 0 {
        (m, Seq::empty(), 0, RunStatus::OutOfFuel)
    } else {
        let op = ops[m.pc];
        let reads = op.op_type == Instruction::Read;
        let byte = if reads && input.len() > 0 {
            Some(input[0])
        } else {
            None
        };
        match step_spec(op, m, byte) {
            Err(e) => (m, Seq::empty(), 0, RunStatus::Failed(e)),
            Ok(res) => {
                let used: int = if reads {
                    1
                } else {
                    0
                };
                let rest = run_spec(ops, res.0, input.subrange(used, input.len() as int), (fuel - 1) as nat);
                (rest.0, out_seq(res.1) + rest.1, used + rest.2, rest.3)
            },
        }
    }
}

/// Runs `program` from `state` for at most `fuel` steps, reads taking the
/// bytes of `input` in order.
pub fn run(program: &Program, state: InterpreterState, input: &Vec<u8>, fuel: usize) -> (r: RunResult)
    requires
        program.wf(),
        state.wf(),
    ensures
        ({
            let spec_run = run_spec(program.ops@, state@, input@, fuel as nat);
            &&& r.state@ == spec_run.0
            &&& r.output@ == spec_run.1
            &&& r.consumed == spec_run.2
            &&& r.status == spec_run.3
        }),
{
    let ghost total = run_spec(program.ops@, state@, input@, fuel as nat);
    let mut state = state;
    let mut output: Vec<u8> = Vec::new();
    let mut consumed: usize = 0;
    let mut left: usize = fuel;
    let mut status: Option<RunStatus> = None;
    assert(input@.subrange(0, input.len() as int) =~= input@);
    assert(Seq::<u8>::empty() + total.1 =~= total.1);
    while status.is_none()
        invariant
            program.wf(),
            state.wf(),
            consumed <= input.len(),
            status is None ==> ({
                let rest = run_spec(
                    program.ops@,
                    state@,
                    input@.subrange(consumed as int, input.len() as int),
                    left as nat,
                );
                total == (rest.0, output@ + rest.1, consumed + rest.2, rest.3)
            }),
            status matches Some(st) ==> total == (state@, output@, consumed as int, st),
        decreases left + (if status is None {
            1int
        } else {
            0
        }),
    {
        let ghost rest_in = input@.subrange(consumed as int, input.len() as int);
        if state.pc >= program.ops.len() {
            assert(output@ + Seq::<u8>::empty() =~= output@);
            status = Some(RunStatus::Halted);
        } else if left == 0 {
            assert(output@ + Seq::<u8>::empty() =~= output@);
            status = Some(RunStatus::OutOfFuel);
        } else {
            let reads = program.ops[state.pc].op_type == Instruction::Read;
            let byte = if reads && consumed < input.len() {
                Some(input[consumed])
            } else {
                None
            };
            let ghost before = state@;
            match state.step(program, byte) {
                Err(e) => {
                    assert(output@ + Seq::<u8>::empty() =~= output@);
                    status = Some(RunStatus::Failed(e));
                },
                Ok(written) => {
                    let ghost prev_out = output@;
                    if let Some(b) = written {
                        output.push(b);
                    }
                    assert(output@ =~= prev_out + out_seq(written));
                    if reads {
                        assert(input@.subrange(consumed + 1, input.len() as int) =~= rest_in.subrange(
                            1,
                            rest_in.len() as int,
                        ));
                        consumed = consumed + 1;
                    } else {
                        assert(rest_in.subrange(0, rest_in.len() as int) =~= rest_in);
                    }
                    left = left - 1;
                    let ghost after = run_spec(
                        program.ops@,
                        state@,
                        input@.subrange(consumed as int, input.len() as int),
                        left as nat,
                    );
                    assert(prev_out + (out_seq(written) + after.1) =~= output@ + after.1);
                },
            }
        }
    }
    match status {
        Some(st) => RunResult { state, output, consumed, status: st },
        None => RunResult { state, output, consumed, status: RunStatus::Halted },
    }
}

} // verus!
