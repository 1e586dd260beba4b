use vstd::prelude::*;

use crate::chunk::{Chunk, Value, ValueModel};
use crate::opcode::{
    OP_CONSTANT, OP_DECREMENT, OP_DECREMENT_SINGULAR, OP_DEFINE_TAPE, OP_INCREMENT,
    OP_INCREMENT_SINGULAR, OP_INPUT, OP_JUMP_IF_ZERO, OP_LOOP, OP_MOVE_LEFT, OP_MOVE_RIGHT,
    OP_MULTI_INPUT, OP_PRINT, OP_PRINT_RANGE, OP_RETURN, OP_SET_POINTER, OP_SHIFT_LEFT,
    OP_SHIFT_RIGHT, OP_WRITE_CELL, OP_WRITE_STRING,
};

verus! {

/// Why a run halted abnormally. Faults are terminal: none is retried, and
/// the fault is surfaced to the caller as a typed failure.
#[derive(Clone, Copy, PartialEq, Eq, Structural, Debug)]
pub enum RuntimeFault {
    /// A pointer move or seek outside `[0, tape.len())`.
    PointerOutOfBounds,
    /// A write (string or multi-input) past the tape's capacity.
    WriteOutOfBounds,
    /// An operand-seeking instruction found the stack empty: an internal
    /// invariant violation, never produced by compiled code.
    StackUnderflow,
    /// A popped operand had the wrong payload kind.
    TypeMismatch,
    /// A byte in opcode position encodes no instruction.
    BadOpcode,
    /// The code ends in the middle of an instruction's operand bytes.
    TruncatedOperand,
    /// A `Constant` instruction referenced past the pool.
    BadConstant,
    /// A jump offset leads outside the code.
    BadJump,
    /// Execution ran past the end of the code without a `Return`.
    RanOffEnd,
}

/// What one instruction step did.
#[derive(Clone, Copy, PartialEq, Eq, Structural, Debug)]
pub enum StepOutcome {
    Continue,
    Halt,
    Fault(RuntimeFault),
}

/// How a bounded run ended: normally via `Return`, on a fault, or still
/// running when the step budget ran out.
#[derive(Clone, Copy, PartialEq, Eq, Structural, Debug)]
pub enum ExitStatus {
    Running,
    Halted,
    Fault(RuntimeFault),
}

/// The mathematical model of a [`VM`]'s whole state.
pub ghost struct VmModel {
    pub code: Seq<u8>,
    pub constants: Seq<ValueModel>,
    pub ip: int,
    pub tape: Seq<u8>,
    pub pointer: int,
    pub stack: Seq<ValueModel>,
    pub input: Seq<u8>,
    pub input_pos: int,
    pub output: Seq<u8>,
}

/// The first index at or after `i` holding a newline, or the length of `s`
/// if there is none: the extent of one `MultiInput` read.
pub open spec fn nl_end(s: Seq<u8>, i: int) -> int
    decreases s.len() - i when 0 <= i <= s.len()
{
    if i >= s.len() {
        s.len() as int
    } else if s[i] == 10 {
        i
    } else {
        nl_end(s, i + 1)
    }
}

pub proof fn lemma_nl_end_bounds(s: Seq<u8>, i: int)
    requires
        0 <= i <= s.len(),
    ensures
        i <= nl_end(s, i) <= s.len(),
    decreases s.len() - i,
{
    if i < s.len() && s[i] != 10 {
        lemma_nl_end_bounds(s, i + 1);
    }
}

/// One fetch-decode-execute step of the machine, per the instruction
/// semantics: cell arithmetic wraps at 8 bits; pointer moves, seeks and
/// writes outside the tape fault rather than wrapping; `DefineTape`
/// (re)allocates a zero-filled tape and resets the pointer; `Input` reads
/// one byte (a drained input reads 0); `MultiInput` copies one input line
/// onto the tape, advancing the pointer past it when bit 0 of its flag
/// byte is set; jumps carry 16-bit big-endian offsets, `JumpIfZero`
/// forward when the current cell is zero and `Loop` always backward;
/// `Return` halts.
pub open spec fn spec_step(m: VmModel) -> (VmModel, StepOutcome) {
    let n = m.code.len() as int;
    if !(0 <= m.ip < n) {
        (m, StepOutcome::Fault(RuntimeFault::RanOffEnd))
    } else {
        let b = m.code[m.ip];
        if b == OP_RETURN {
            (m, StepOutcome::Halt)
        } else if b == OP_CONSTANT {
            if m.ip + 2 > n {
                (m, StepOutcome::Fault(RuntimeFault::TruncatedOperand))
            } else if m.code[m.ip + 1] >= m.constants.len() {
                (m, StepOutcome::Fault(RuntimeFault::BadConstant))
            } else {
                (
                    VmModel {
                        ip: m.ip + 2,
                        stack: m.stack.push(m.constants[m.code[m.ip + 1] as int]),
                        ..m
                    },
                    StepOutcome::Continue,
                )
            }
        } else if b == OP_DEFINE_TAPE {
            if m.stack.len() == 0 {
                (m, StepOutcome::Fault(RuntimeFault::StackUnderflow))
            } else {
                match m.stack.last() {
                    ValueModel::Int(sz) => (
                        VmModel {
                            ip: m.ip + 1,
                            stack: m.stack.drop_last(),
                            tape: Seq::new(sz as nat, |i: int| 0u8),
                            pointer: 0,
                            ..m
                        },
                        StepOutcome::Continue,
                    ),
                    ValueModel::Str(_) => (m, StepOutcome::Fault(RuntimeFault::TypeMismatch)),
                }
            }
        } else if b == OP_INCREMENT_SINGULAR || b == OP_DECREMENT_SINGULAR {
            if !(0 <= m.pointer < m.tape.len()) {
                (m, StepOutcome::Fault(RuntimeFault::PointerOutOfBounds))
            } else {
                let amt: int = if b == OP_INCREMENT_SINGULAR {
                    1
                } else {
                    255
                };
                (
                    VmModel {
                        ip: m.ip + 1,
                        tape: m.tape.update(m.pointer, ((m.tape[m.pointer] + amt) % 256) as u8),
                        ..m
                    },
                    StepOutcome::Continue,
                )
            }
        } else if b == OP_INCREMENT || b == OP_DECREMENT {
            if m.ip + 2 > n {
                (m, StepOutcome::Fault(RuntimeFault::TruncatedOperand))
            } else if !(0 <= m.pointer < m.tape.len()) {
                (m, StepOutcome::Fault(RuntimeFault::PointerOutOfBounds))
            } else {
                let amt: int = if b == OP_INCREMENT {
                    m.code[m.ip + 1] as int
                } else {
                    256 - m.code[m.ip + 1]
                };
                (
                    VmModel {
                        ip: m.ip + 2,
                        tape: m.tape.update(m.pointer, ((m.tape[m.pointer] + amt) % 256) as u8),
                        ..m
                    },
                    StepOutcome::Continue,
                )
            }
        } else if b == OP_SHIFT_LEFT {
            if m.pointer >= 1 {
                (VmModel { ip: m.ip + 1, pointer: m.pointer - 1, ..m }, StepOutcome::Continue)
            } else {
                (m, StepOutcome::Fault(RuntimeFault::PointerOutOfBounds))
            }
        } else if b == OP_SHIFT_RIGHT {
            if m.pointer + 1 < m.tape.len() {
                (VmModel { ip: m.ip + 1, pointer: m.pointer + 1, ..m }, StepOutcome::Continue)
            } else {
                (m, StepOutcome::Fault(RuntimeFault::PointerOutOfBounds))
            }
        } else if b == OP_MOVE_LEFT || b == OP_MOVE_RIGHT || b == OP_SET_POINTER {
            if m.stack.len() == 0 {
                (m, StepOutcome::Fault(RuntimeFault::StackUnderflow))
            } else {
                match m.stack.last() {
                    ValueModel::Int(k) => {
                        let target: int = if b == OP_MOVE_LEFT {
                            m.pointer - k
                        } else if b == OP_MOVE_RIGHT {
                            m.pointer + k
                        } else {
                            k as int
                        };
                        if 0 <= target < m.tape.len() {
                            (
                                VmModel {
                                    ip: m.ip + 1,
                                    pointer: target,
                                    stack: m.stack.drop_last(),
                                    ..m
                                },
                                StepOutcome::Continue,
                            )
                        } else {
                            (m, StepOutcome::Fault(RuntimeFault::PointerOutOfBounds))
                        }
                    },
                    ValueModel::Str(_) => (m, StepOutcome::Fault(RuntimeFault::TypeMismatch)),
                }
            }
        } else if b == OP_WRITE_CELL {
            if m.ip + 2 > n {
                (m, StepOutcome::Fault(RuntimeFault::TruncatedOperand))
            } else if !(0 <= m.pointer < m.tape.len()) {
                (m, StepOutcome::Fault(RuntimeFault::PointerOutOfBounds))
            } else {
                (
                    VmModel {
                        ip: m.ip + 2,
                        tape: m.tape.update(m.pointer, m.code[m.ip + 1]),
                        ..m
                    },
                    StepOutcome::Continue,
                )
            }
        } else if b == OP_WRITE_STRING {
            if m.stack.len() == 0 {
                (m, StepOutcome::Fault(RuntimeFault::StackUnderflow))
            } else {
                match m.stack.last() {
                    ValueModel::Str(s) => {
                        if 0 <= m.pointer && m.pointer + s.len() <= m.tape.len() {
                            (
                                VmModel {
                                    ip: m.ip + 1,
                                    stack: m.stack.drop_last(),
                                    tape: m.tape.subrange(0, m.pointer) + s + m.tape.subrange(
                                        m.pointer + s.len(),
                                        m.tape.len() as int,
                                    ),
                                    ..m
                                },
                                StepOutcome::Continue,
                            )
                        } else {
                            (m, StepOutcome::Fault(RuntimeFault::WriteOutOfBounds))
                        }
                    },
                    ValueModel::Int(_) => (m, StepOutcome::Fault(RuntimeFault::TypeMismatch)),
                }
            }
        } else if b == OP_PRINT {
            if !(0 <= m.pointer < m.tape.len()) {
                (m, StepOutcome::Fault(RuntimeFault::PointerOutOfBounds))
            } else {
                (
                    VmModel { ip: m.ip + 1, output: m.output.push(m.tape[m.pointer]), ..m },
                    StepOutcome::Continue,
                )
            }
        } else if b == OP_PRINT_RANGE {
            if m.stack.len() == 0 {
                (m, StepOutcome::Fault(RuntimeFault::StackUnderflow))
            } else {
                match m.stack.last() {
                    ValueModel::Int(k) => {
                        if 0 <= m.pointer && m.pointer + k <= m.tape.len() {
                            (
                                VmModel {
                                    ip: m.ip + 1,
                                    stack: m.stack.drop_last(),
                                    output: m.output + m.tape.subrange(
                                        m.pointer,
                                        m.pointer + k,
                                    ),
                                    ..m
                                },
                                StepOutcome::Continue,
                            )
                        } else {
                            (m, StepOutcome::Fault(RuntimeFault::PointerOutOfBounds))
                        }
                    },
                    ValueModel::Str(_) => (m, StepOutcome::Fault(RuntimeFault::TypeMismatch)),
                }
            }
        } else if b == OP_INPUT {
            if !(0 <= m.pointer < m.tape.len()) {
                (m, StepOutcome::Fault(RuntimeFault::PointerOutOfBounds))
            } else if m.input_pos < m.input.len() {
                (
                    VmModel {
                        ip: m.ip + 1,
                        tape: m.tape.update(m.pointer, m.input[m.input_pos]),
                        input_pos: m.input_pos + 1,
                        ..m
                    },
                    StepOutcome::Continue,
                )
            } else {
                (
                    VmModel { ip: m.ip + 1, tape: m.tape.update(m.pointer, 0), ..m },
                    StepOutcome::Continue,
                )
            }
        } else if b == OP_MULTI_INPUT {
            if m.ip + 2 > n {
                (m, StepOutcome::Fault(RuntimeFault::TruncatedOperand))
            } else if !(0 <= m.input_pos <= m.input.len()) {
                (m, StepOutcome::Fault(RuntimeFault::RanOffEnd))
            } else {
                let flag = m.code[m.ip + 1];
                let e = nl_end(m.input, m.input_pos);
                let cnt = e - m.input_pos;
                let advance_ptr = flag % 2 == 1;
                if !(0 <= m.pointer) || m.pointer + cnt > m.tape.len() || (advance_ptr
                    && m.pointer + cnt >= m.tape.len()) {
                    (m, StepOutcome::Fault(RuntimeFault::WriteOutOfBounds))
                } else {
                    (
                        VmModel {
                            ip: m.ip + 2,
                            tape: m.tape.subrange(0, m.pointer) + m.input.subrange(m.input_pos, e)
                                + m.tape.subrange(m.pointer + cnt, m.tape.len() as int),
                            pointer: if advance_ptr {
                                m.pointer + cnt
                            } else {
                                m.pointer
                            },
                            input_pos: if e < m.input.len() {
                                e + 1
                            } else {
                                e
                            },
                            ..m
                        },
                        StepOutcome::Continue,
                    )
                }
            }
        } else if b == OP_JUMP_IF_ZERO {
            if m.ip + 3 > n {
                (m, StepOutcome::Fault(RuntimeFault::TruncatedOperand))
            } else if !(0 <= m.pointer < m.tape.len()) {
                (m, StepOutcome::Fault(RuntimeFault::PointerOutOfBounds))
            } else if m.tape[m.pointer] != 0 {
                (VmModel { ip: m.ip + 3, ..m }, StepOutcome::Continue)
            } else {
                let off = m.code[m.ip + 1] * 256 + m.code[m.ip + 2];
                if m.ip + 3 + off <= n {
                    (VmModel { ip: m.ip + 3 + off, ..m }, StepOutcome::Continue)
                } else {
                    (m, StepOutcome::Fault(RuntimeFault::BadJump))
                }
            }
        } else if b == OP_LOOP {
            if m.ip + 3 > n {
                (m, StepOutcome::Fault(RuntimeFault::TruncatedOperand))
            } else {
                let off = m.code[m.ip + 1] * 256 + m.code[m.ip + 2];
                if off <= m.ip + 3 {
                    (VmModel { ip: m.ip + 3 - off, ..m }, StepOutcome::Continue)
                } else {
                    (m, StepOutcome::Fault(RuntimeFault::BadJump))
                }
            }
        } else {
            (m, StepOutcome::Fault(RuntimeFault::BadOpcode))
        }
    }
}

/// A valid pointer: inside the tape, or parked at zero while no tape (or
/// an empty tape) exists.
pub open spec fn pointer_ok(m: VmModel) -> bool {
    0 <= m.pointer && (m.pointer < m.tape.len() || m.pointer == 0)
}

/// Pointer-validity law: a step that does not fault leaves the pointer a
/// valid tape index (or at zero on an empty tape) whenever it started as
/// one — attempts to move outside the tape fault instead of wrapping or
/// leaving a stray pointer behind.
#[verifier::rlimit(100)]
pub proof fn lemma_pointer_stays_valid(m: VmModel)
    requires
        pointer_ok(m),
    ensures
        !(spec_step(m).1 is Fault) ==> pointer_ok(spec_step(m).0),
{
    let r = spec_step(m);
    let n = m.code.len() as int;
    if 0 <= m.ip < n {
        let b = m.code[m.ip];
        if b == OP_DEFINE_TAPE {
            assert(!(r.1 is Fault) ==> pointer_ok(r.0));
        } else if b == OP_SHIFT_LEFT || b == OP_SHIFT_RIGHT {
            assert(!(r.1 is Fault) ==> pointer_ok(r.0));
        } else if b == OP_MOVE_LEFT || b == OP_MOVE_RIGHT || b == OP_SET_POINTER {
            assert(!(r.1 is Fault) ==> pointer_ok(r.0));
        } else if b == OP_WRITE_STRING {
            assert(!(r.1 is Fault) ==> pointer_ok(r.0));
        } else if b == OP_MULTI_INPUT {
            if m.ip + 2 <= n && 0 <= m.input_pos <= m.input.len() {
                lemma_nl_end_bounds(m.input, m.input_pos);
            }
            assert(!(r.1 is Fault) ==> pointer_ok(r.0));
        } else {
            assert(!(r.1 is Fault) ==> pointer_ok(r.0));
        }
    }
}

/// Iterated [`spec_step`]: up to `fuel` steps, stopping at a halt or a
/// fault.
pub open spec fn spec_run(m: VmModel, fuel: nat) -> (VmModel, ExitStatus)
    decreases fuel,
{
    if fuel == 0 {
        (m, ExitStatus::Running)
    } else {
        let r = spec_step(m);
        match r.1 {
            StepOutcome::Halt => (r.0, ExitStatus::Halted),
            StepOutcome::Fault(f) => (r.0, ExitStatus::Fault(f)),
            StepOutcome::Continue => spec_run(r.0, (fuel - 1) as nat),
        }
    }
}

/// The bytecode execution engine: an instruction pointer into the chunk's
/// code, the growable zero-initialized tape of 8-bit cells with its
/// pointer, the transient operand stack, and the byte streams it reads
/// from and writes to.
pub struct VM {
    pub chunk: Chunk,
    pub ip: usize,
    pub tape: Vec<u8>,
    pub pointer: usize,
    pub stack: Vec<Value>,
    pub input: Vec<u8>,
    pub input_pos: usize,
    pub output: Vec<u8>,
}

impl View for VM {
    type V = VmModel;

    open spec fn view(&self) -> VmModel {
        VmModel {
            code: self.chunk@.code,
            constants: self.chunk@.constants,
            ip: self.ip as int,
            tape: self.tape@,
            pointer: self.pointer as int,
            stack: self.stack@.map_values(|v: Value| v@),
            input: self.input@,
            input_pos: self.input_pos as int,
            output: self.output@,
        }
    }
}

/// A zero-filled tape of `n` cells.
fn zero_tape(n: usize) -> (r: Vec<u8>)
    ensures
        r@ == Seq::new(n as nat, |i: int| 0u8),
{
    let mut out: Vec<u8> = Vec::new();
    let mut i: usize = 0;
    while i < n
        invariant
            i <= n,
            out@ == Seq::new(i as nat, |k: int| 0u8),
        decreases n - i,
    {
        let ghost pre = out@;
        out.push(0);
        proof {
            assert(pre.push(0u8) =~= Seq::new((i + 1) as nat, |k: int| 0u8));
        }
        i = i + 1;
    }
    out
}

impl VM {
    /// A machine ready to run `chunk` with no input.
    pub fn new(chunk: Chunk) -> (vm: VM)
        ensures
            vm@.code == chunk@.code,
            vm@.constants == chunk@.constants,
            vm@.ip == 0,
            vm@.tape == Seq::<u8>::empty(),
            vm@.pointer == 0,
            vm@.stack == Seq::<ValueModel>::empty(),
            vm@.input == Seq::<u8>::empty(),
            vm@.input_pos == 0,
            vm@.output == Seq::<u8>::empty(),
    {
        let vm = VM {
            chunk,
            ip: 0,
            tape: Vec::new(),
            pointer: 0,
            stack: Vec::new(),
            input: Vec::new(),
            input_pos: 0,
            output: Vec::new(),
        };
        proof {
            assert(vm.stack@.map_values(|v: Value| v@) =~= Seq::<ValueModel>::empty());
        }
        vm
    }

    /// A machine ready to run `chunk`, reading `Input`/`MultiInput` bytes
    /// from `input`.
    pub fn new_with_input(chunk: Chunk, input: Vec<u8>) -> (vm: VM)
        ensures
            vm@.code == chunk@.code,
            vm@.constants == chunk@.constants,
            vm@.ip == 0,
            vm@.tape == Seq::<u8>::empty(),
            vm@.pointer == 0,
            vm@.stack == Seq::<ValueModel>::empty(),
            vm@.input == input@,
            vm@.input_pos == 0,
            vm@.output == Seq::<u8>::empty(),
    {
        let vm = VM {
            chunk,
            ip: 0,
            tape: Vec::new(),
            pointer: 0,
            stack: Vec::new(),
            input,
            input_pos: 0,
            output: Vec::new(),
        };
        proof {
            assert(vm.stack@.map_values(|v: Value| v@) =~= Seq::<ValueModel>::empty());
        }
        vm
    }

    /// The bytes the program has written so far.
    pub fn output(&self) -> (r: &Vec<u8>)
        ensures
            r@ == self@.output,
    {
        &self.output
    }

    /// Pops the operand stack.
    fn pop_value(&mut self) -> (r: Option<Value>)
        ensures
            old(self)@.stack.len() == 0 ==> r is None && final(self)@ == old(self)@ && final(self).chunk == old(self).chunk && final(self).tape == old(self).tape && final(self).ip
                == old(self).ip && final(self).pointer == old(self).pointer && final(self).input
                == old(self).input && final(self).input_pos == old(self).input_pos && final(self).output == old(self).output,
            old(self)@.stack.len() > 0 ==> match r {
                Option::Some(v) => {
                    &&& v@ == old(self)@.stack.last()
                    &&& final(self)@.stack == old(self)@.stack.drop_last()
                    &&& final(self).chunk == old(self).chunk
                    &&& final(self).ip == old(self).ip
                    &&& final(self).tape == old(self).tape
                    &&& final(self).pointer == old(self).pointer
                    &&& final(self).input == old(self).input
                    &&& final(self).input_pos == old(self).input_pos
                    &&& final(self).output == old(self).output
                },
                Option::None => false,
            },
    {
        let ghost pre = self.stack@.map_values(|v: Value| v@);
        let r = self.stack.pop();
        proof {
            if pre.len() > 0 {
                assert(self.stack@.map_values(|v: Value| v@) =~= pre.drop_last());
                assert(pre.last() == self.stack@.push(r.unwrap()).map_values(|v: Value| v@).last());
            }
        }
        r
    }

    /// Pushes one operand.
    fn push_value(&mut self, v: Value)
        ensures
            final(self)@.stack == old(self)@.stack.push(v@),
            final(self).chunk == old(self).chunk,
            final(self).ip == old(self).ip,
            final(self).tape == old(self).tape,
            final(self).pointer == old(self).pointer,
            final(self).input == old(self).input,
            final(self).input_pos == old(self).input_pos,
            final(self).output == old(self).output,
    {
        let ghost pre = self.stack@.map_values(|x: Value| x@);
        self.stack.push(v);
        proof {
            assert(self.stack@.map_values(|x: Value| x@) =~= pre.push(self.stack@.last()@));
        }
    }

    /// Executes one instruction: [`spec_step`] on the machine's state.
    #[verifier::loop_isolation(false)]
    #[verifier::rlimit(60)]
    pub fn step(&mut self) -> (r: StepOutcome)
        ensures
            (*final(self))@ == spec_step(old(self)@).0,
            r == spec_step(old(self)@).1,
    {
        let n = self.chunk.code.len();
        if self.ip >= n {
            return StepOutcome::Fault(RuntimeFault::RanOffEnd);
        }
        let b = self.chunk.code[self.ip];
        if b == OP_RETURN {
            StepOutcome::Halt
        } else if b == OP_CONSTANT {
            if n - self.ip < 2 {
                return StepOutcome::Fault(RuntimeFault::TruncatedOperand);
            }
            let idx = self.chunk.code[self.ip + 1] as usize;
            if idx >= self.chunk.constants.len() {
                return StepOutcome::Fault(RuntimeFault::BadConstant);
            }
            let v = self.chunk.constants[idx].clone();
            self.push_value(v);
            self.ip = self.ip + 2;
            StepOutcome::Continue
        } else if b == OP_DEFINE_TAPE {
            match self.pop_value() {
                None => StepOutcome::Fault(RuntimeFault::StackUnderflow),
                Some(Value::Int(sz)) => {
                    self.tape = zero_tape(sz as usize);
                    self.pointer = 0;
                    self.ip = self.ip + 1;
                    StepOutcome::Continue
                },
                Some(Value::Str(s)) => {
                    self.push_value(Value::Str(s));
                    proof {
                        assert(self@.stack =~= old(self)@.stack);
                    }
                    StepOutcome::Fault(RuntimeFault::TypeMismatch)
                },
            }
        } else {
            self.step_rest(b, n)
        }
    }

    /// The remaining instruction forms of [`VM::step`].
    #[verifier::loop_isolation(false)]
    #[verifier::rlimit(100)]
    fn step_rest(&mut self, b: u8, n: usize) -> (r: StepOutcome)
        requires
            n == old(self)@.code.len(),
            0 <= old(self).ip < n,
            b == old(self)@.code[old(self).ip as int],
            b != OP_RETURN,
            b != OP_CONSTANT,
            b != OP_DEFINE_TAPE,
        ensures
            (*final(self))@ == spec_step(old(self)@).0,
            r == spec_step(old(self)@).1,
    {
        if b == OP_INCREMENT_SINGULAR || b == OP_DECREMENT_SINGULAR {
            if self.pointer >= self.tape.len() {
                return StepOutcome::Fault(RuntimeFault::PointerOutOfBounds);
            }
            let amt: u16 = if b == OP_INCREMENT_SINGULAR {
                1
            } else {
                255
            };
            let cell = self.tape[self.pointer];
            self.tape[self.pointer] = ((cell as u16 + amt) % 256) as u8;
            self.ip = self.ip + 1;
            StepOutcome::Continue
        } else if b == OP_INCREMENT || b == OP_DECREMENT {
            if n - self.ip < 2 {
                return StepOutcome::Fault(RuntimeFault::TruncatedOperand);
            }
            if self.pointer >= self.tape.len() {
                return StepOutcome::Fault(RuntimeFault::PointerOutOfBounds);
            }
            let operand = self.chunk.code[self.ip + 1];
            let amt: u16 = if b == OP_INCREMENT {
                operand as u16
            } else {
                256 - operand as u16
            };
            let cell = self.tape[self.pointer];
            self.tape[self.pointer] = ((cell as u16 + amt) % 256) as u8;
            self.ip = self.ip + 2;
            StepOutcome::Continue
        } else if b == OP_SHIFT_LEFT {
            if self.pointer >= 1 {
                self.pointer = self.pointer - 1;
                self.ip = self.ip + 1;
                StepOutcome::Continue
            } else {
                StepOutcome::Fault(RuntimeFault::PointerOutOfBounds)
            }
        } else if b == OP_SHIFT_RIGHT {
            if self.tape.len() > 0 && self.pointer < self.tape.len() - 1 {
                self.pointer = self.pointer + 1;
                self.ip = self.ip + 1;
                StepOutcome::Continue
            } else {
                StepOutcome::Fault(RuntimeFault::PointerOutOfBounds)
            }
        } else if b == OP_MOVE_LEFT || b == OP_MOVE_RIGHT || b == OP_SET_POINTER {
            let popped = self.pop_value();
            match popped {
                None => StepOutcome::Fault(RuntimeFault::StackUnderflow),
                Some(Value::Int(k)) => {
                    let ku = k as usize;
                    if b == OP_MOVE_LEFT {
                        if ku <= self.pointer && self.pointer - ku < self.tape.len() {
                            self.pointer = self.pointer - ku;
                            self.ip = self.ip + 1;
                            StepOutcome::Continue
                        } else {
                            self.push_value(Value::Int(k));
                            proof {
                                assert(self@.stack =~= old(self)@.stack);
                            }
                            StepOutcome::Fault(RuntimeFault::PointerOutOfBounds)
                        }
                    } else if b == OP_MOVE_RIGHT {
                        if ku < self.tape.len() && self.pointer < self.tape.len() - ku {
                            self.pointer = self.pointer + ku;
                            self.ip = self.ip + 1;
                            StepOutcome::Continue
                        } else {
                            self.push_value(Value::Int(k));
                            proof {
                                assert(self@.stack =~= old(self)@.stack);
                            }
                            StepOutcome::Fault(RuntimeFault::PointerOutOfBounds)
                        }
                    } else {
                        if ku < self.tape.len() {
                            self.pointer = ku;
                            self.ip = self.ip + 1;
                            StepOutcome::Continue
                        } else {
                            self.push_value(Value::Int(k));
                            proof {
                                assert(self@.stack =~= old(self)@.stack);
                            }
                            StepOutcome::Fault(RuntimeFault::PointerOutOfBounds)
                        }
                    }
                },
                Some(Value::Str(s)) => {
                    self.push_value(Value::Str(s));
                    proof {
                        assert(self@.stack =~= old(self)@.stack);
                    }
                    StepOutcome::Fault(RuntimeFault::TypeMismatch)
                },
            }
        } else if b == OP_WRITE_CELL {
            if n - self.ip < 2 {
                return StepOutcome::Fault(RuntimeFault::TruncatedOperand);
            }
            if self.pointer >= self.tape.len() {
                return StepOutcome::Fault(RuntimeFault::PointerOutOfBounds);
            }
            let v = self.chunk.code[self.ip + 1];
            self.tape[self.pointer] = v;
            self.ip = self.ip + 2;
            StepOutcome::Continue
        } else {
            self.step_io(b, n)
        }
    }

    /// The I/O and jump instruction forms of [`VM::step`].
    #[verifier::loop_isolation(false)]
    #[verifier::rlimit(100)]
    fn step_io(&mut self, b: u8, n: usize) -> (r: StepOutcome)
        requires
            n == old(self)@.code.len(),
            0 <= old(self).ip < n,
            b == old(self)@.code[old(self).ip as int],
            b != OP_RETURN,
            b != OP_CONSTANT,
            b != OP_DEFINE_TAPE,
            b != OP_INCREMENT_SINGULAR,
            b != OP_DECREMENT_SINGULAR,
            b != OP_INCREMENT,
            b != OP_DECREMENT,
            b != OP_SHIFT_LEFT,
            b != OP_SHIFT_RIGHT,
            b != OP_MOVE_LEFT,
            b != OP_MOVE_RIGHT,
            b != OP_SET_POINTER,
            b != OP_WRITE_CELL,
        ensures
            (*final(self))@ == spec_step(old(self)@).0,
            r == spec_step(old(self)@).1,
    {
        if b == OP_WRITE_STRING {
            let popped = self.pop_value();
            match popped {
                None => StepOutcome::Fault(RuntimeFault::StackUnderflow),
                Some(Value::Str(s)) => {
                    if s.len() <= self.tape.len() && self.pointer <= self.tape.len() - s.len() {
                        let ghost oldtape = self.tape@;
                        let mut i: usize = 0;
                        while i < s.len()
                            invariant
                                i <= s@.len(),
                                self.pointer + s@.len() <= self.tape@.len(),
                                self.tape@.len() == oldtape.len(),
                                self.tape@ == oldtape.subrange(0, self.pointer as int)
                                    + s@.subrange(0, i as int) + oldtape.subrange(
                                    self.pointer + i,
                                    oldtape.len() as int,
                                ),
                                self.pointer == old(self).pointer,
                                self.ip == old(self).ip,
                                self.chunk == old(self).chunk,
                                self.input == old(self).input,
                                self.input_pos == old(self).input_pos,
                                self.output == old(self).output,
                                self@.stack == old(self)@.stack.drop_last(),
                            decreases s@.len() - i,
                        {
                            let ghost pretape = self.tape@;
                            self.tape[self.pointer + i] = s[i];
                            proof {
                                assert(self.tape@ =~= oldtape.subrange(0, self.pointer as int)
                                    + s@.subrange(0, i + 1) + oldtape.subrange(
                                    self.pointer + i + 1,
                                    oldtape.len() as int,
                                ));
                            }
                            i = i + 1;
                        }
                        self.ip = self.ip + 1;
                        proof {
                            assert(s@.subrange(0, s@.len() as int) =~= s@);
                            assert(self@.tape =~= spec_step(old(self)@).0.tape);
                        }
                        StepOutcome::Continue
                    } else {
                        self.push_value(Value::Str(s));
                        proof {
                            assert(self@.stack =~= old(self)@.stack);
                        }
                        StepOutcome::Fault(RuntimeFault::WriteOutOfBounds)
                    }
                },
                Some(Value::Int(k)) => {
                    self.push_value(Value::Int(k));
                    proof {
                        assert(self@.stack =~= old(self)@.stack);
                    }
                    StepOutcome::Fault(RuntimeFault::TypeMismatch)
                },
            }
        } else if b == OP_PRINT {
            if self.pointer >= self.tape.len() {
                return StepOutcome::Fault(RuntimeFault::PointerOutOfBounds);
            }
            let c = self.tape[self.pointer];
            self.output.push(c);
            self.ip = self.ip + 1;
            StepOutcome::Continue
        } else if b == OP_PRINT_RANGE {
            let popped = self.pop_value();
            match popped {
                None => StepOutcome::Fault(RuntimeFault::StackUnderflow),
                Some(Value::Int(k)) => {
                    let ku = k as usize;
                    if ku <= self.tape.len() && self.pointer <= self.tape.len() - ku {
                        let ghost oldout = self.output@;
                        let mut i: usize = 0;
                        while i < ku
                            invariant
                                i <= ku,
                                self.pointer + ku <= self.tape@.len(),
                                self.output@ == oldout + self.tape@.subrange(
                                    self.pointer as int,
                                    self.pointer + i,
                                ),
                                self.pointer == old(self).pointer,
                                self.ip == old(self).ip,
                                self.chunk == old(self).chunk,
                                self.tape == old(self).tape,
                                self.input == old(self).input,
                                self.input_pos == old(self).input_pos,
                                self@.stack == old(self)@.stack.drop_last(),
                            decreases ku - i,
                        {
                            let ghost preout = self.output@;
                            let c = self.tape[self.pointer + i];
                            self.output.push(c);
                            proof {
                                assert(preout.push(c) =~= oldout + self.tape@.subrange(
                                    self.pointer as int,
                                    self.pointer + i + 1,
                                ));
                            }
                            i = i + 1;
                        }
                        self.ip = self.ip + 1;
                        StepOutcome::Continue
                    } else {
                        self.push_value(Value::Int(k));
                        proof {
                            assert(self@.stack =~= old(self)@.stack);
                        }
                        StepOutcome::Fault(RuntimeFault::PointerOutOfBounds)
                    }
                },
                Some(Value::Str(s)) => {
                    self.push_value(Value::Str(s));
                    proof {
                        assert(self@.stack =~= old(self)@.stack);
                    }
                    StepOutcome::Fault(RuntimeFault::TypeMismatch)
                },
            }
        } else if b == OP_INPUT {
            if self.pointer >= self.tape.len() {
                return StepOutcome::Fault(RuntimeFault::PointerOutOfBounds);
            }
            if self.input_pos < self.input.len() {
                let c = self.input[self.input_pos];
                self.tape[self.pointer] = c;
                self.input_pos = self.input_pos + 1;
            } else {
                self.tape[self.pointer] = 0;
            }
            self.ip = self.ip + 1;
            StepOutcome::Continue
        } else if b == OP_MULTI_INPUT {
            if n - self.ip < 2 {
                return StepOutcome::Fault(RuntimeFault::TruncatedOperand);
            }
            let flag = self.chunk.code[self.ip + 1];
            let ni = self.input.len();
            if self.input_pos > ni {
                return StepOutcome::Fault(RuntimeFault::RanOffEnd);
            }
            proof {
                lemma_nl_end_bounds(self.input@, self.input_pos as int);
            }
            let mut e: usize = self.input_pos;
            while e < ni && self.input[e] != 10
                invariant
                    self.input_pos <= e <= ni,
                    nl_end(self.input@, self.input_pos as int) == nl_end(self.input@, e as int),
                decreases ni - e,
            {
                e = e + 1;
            }
            let cnt = e - self.input_pos;
            let advance_ptr = flag % 2 == 1;
            if cnt > self.tape.len() || self.pointer > self.tape.len() - cnt || (advance_ptr
                && self.pointer >= self.tape.len() - cnt) {
                return StepOutcome::Fault(RuntimeFault::WriteOutOfBounds);
            }
            let ghost oldtape = self.tape@;
            let ghost oldinpos = self.input_pos as int;
            let mut i: usize = 0;
            while i < cnt
                invariant
                    i <= cnt,
                    self.input_pos + cnt == e <= ni,
                    ni == self.input@.len(),
                    self.pointer + cnt <= self.tape@.len(),
                    self.tape@.len() == oldtape.len(),
                    self.tape@ == oldtape.subrange(0, self.pointer as int) + self.input@.subrange(
                        self.input_pos as int,
                        self.input_pos + i,
                    ) + oldtape.subrange(self.pointer + i, oldtape.len() as int),
                    self.pointer == old(self).pointer,
                    self.ip == old(self).ip,
                    self.chunk == old(self).chunk,
                    self.input == old(self).input,
                    self.input_pos == old(self).input_pos,
                    self.output == old(self).output,
                    self.stack == old(self).stack,
                decreases cnt - i,
            {
                let c = self.input[self.input_pos + i];
                self.tape[self.pointer + i] = c;
                proof {
                    assert(self.tape@ =~= oldtape.subrange(0, self.pointer as int)
                        + self.input@.subrange(self.input_pos as int, self.input_pos + i + 1)
                        + oldtape.subrange(self.pointer + i + 1, oldtape.len() as int));
                }
                i = i + 1;
            }
            if advance_ptr {
                self.pointer = self.pointer + cnt;
            }
            self.input_pos = if e < ni {
                e + 1
            } else {
                e
            };
            self.ip = self.ip + 2;
            StepOutcome::Continue
        } else if b == OP_JUMP_IF_ZERO {
            if n - self.ip < 3 {
                return StepOutcome::Fault(RuntimeFault::TruncatedOperand);
            }
            if self.pointer >= self.tape.len() {
                return StepOutcome::Fault(RuntimeFault::PointerOutOfBounds);
            }
            if self.tape[self.pointer] != 0 {
                self.ip = self.ip + 3;
                return StepOutcome::Continue;
            }
            let off = (self.chunk.code[self.ip + 1] as usize) * 256 + (self.chunk.code[self.ip
                + 2] as usize);
            if off <= n - (self.ip + 3) {
                self.ip = self.ip + 3 + off;
                StepOutcome::Continue
            } else {
                StepOutcome::Fault(RuntimeFault::BadJump)
            }
        } else if b == OP_LOOP {
            if n - self.ip < 3 {
                return StepOutcome::Fault(RuntimeFault::TruncatedOperand);
            }
            let off = (self.chunk.code[self.ip + 1] as usize) * 256 + (self.chunk.code[self.ip
                + 2] as usize);
            if off <= self.ip + 3 {
                self.ip = self.ip + 3 - off;
                StepOutcome::Continue
            } else {
                StepOutcome::Fault(RuntimeFault::BadJump)
            }
        } else {
            StepOutcome::Fault(RuntimeFault::BadOpcode)
        }
    }

    /// Runs up to `steps` instructions: [`spec_run`] on the machine's
    /// state. Returns `Halted` on `Return`, the fault if one instruction
    /// faulted, or `Running` when the budget ran out first; the caller may
    /// call again to continue.
    pub fn run(&mut self, steps: u64) -> (r: ExitStatus)
        ensures
            (*final(self))@ == spec_run(old(self)@, steps as nat).0,
            r == spec_run(old(self)@, steps as nat).1,
    {
        let mut left: u64 = steps;
        loop
            invariant
                left <= steps,
                spec_run(old(self)@, steps as nat) == spec_run(self@, left as nat),
            decreases left,
        {
            if left == 0 {
                return ExitStatus::Running;
            }
            let o = self.step();
            match o {
                StepOutcome::Halt => {
                    return ExitStatus::Halted;
                },
                StepOutcome::Fault(f) => {
                    return ExitStatus::Fault(f);
                },
                StepOutcome::Continue => {},
            }
            left = left - 1;
        }
    }
}

} // verus!
