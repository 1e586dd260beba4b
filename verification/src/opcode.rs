use vstd::prelude::*;

verus! {

/// The fixed instruction vocabulary of the bytecode.
///
/// Operand encoding is split per operator: hot single-step operators are one
/// byte; small bounded operands (counted `+`/`-`, `#N`, the input flag) follow
/// the opcode as one raw inline byte; large or unbounded operands (counts for
/// `<`/`>`/`.`, tape sizes, absolute seeks, strings) go through the constant
/// pool via `Constant`; loop jumps carry a two-byte big-endian offset.
#[derive(Clone, Copy, PartialEq, Eq, Structural, Debug)]
pub enum OpCode {
    Constant,
    DefineTape,
    IncrementSingular,
    DecrementSingular,
    Increment,
    Decrement,
    ShiftLeft,
    ShiftRight,
    MoveLeft,
    MoveRight,
    SetPointer,
    WriteCell,
    WriteString,
    Print,
    PrintRange,
    Input,
    MultiInput,
    JumpIfZero,
    Loop,
    Return,
}

pub const OP_CONSTANT: u8 = 0;
pub const OP_DEFINE_TAPE: u8 = 1;
pub const OP_INCREMENT_SINGULAR: u8 = 2;
pub const OP_DECREMENT_SINGULAR: u8 = 3;
pub const OP_INCREMENT: u8 = 4;
pub const OP_DECREMENT: u8 = 5;
pub const OP_SHIFT_LEFT: u8 = 6;
pub const OP_SHIFT_RIGHT: u8 = 7;
pub const OP_MOVE_LEFT: u8 = 8;
pub const OP_MOVE_RIGHT: u8 = 9;
pub const OP_SET_POINTER: u8 = 10;
pub const OP_WRITE_CELL: u8 = 11;
pub const OP_WRITE_STRING: u8 = 12;
pub const OP_PRINT: u8 = 13;
pub const OP_PRINT_RANGE: u8 = 14;
pub const OP_INPUT: u8 = 15;
pub const OP_MULTI_INPUT: u8 = 16;
pub const OP_JUMP_IF_ZERO: u8 = 17;
pub const OP_LOOP: u8 = 18;
pub const OP_RETURN: u8 = 19;

/// The byte that encodes each opcode in a chunk's code sequence.
pub open spec fn spec_opcode_byte(op: OpCode) -> u8 {
    match op {
        OpCode::Constant => OP_CONSTANT,
        OpCode::DefineTape => OP_DEFINE_TAPE,
        OpCode::IncrementSingular => OP_INCREMENT_SINGULAR,
        OpCode::DecrementSingular => OP_DECREMENT_SINGULAR,
        OpCode::Increment => OP_INCREMENT,
        OpCode::Decrement => OP_DECREMENT,
        OpCode::ShiftLeft => OP_SHIFT_LEFT,
        OpCode::ShiftRight => OP_SHIFT_RIGHT,
        OpCode::MoveLeft => OP_MOVE_LEFT,
        OpCode::MoveRight => OP_MOVE_RIGHT,
        OpCode::SetPointer => OP_SET_POINTER,
        OpCode::WriteCell => OP_WRITE_CELL,
        OpCode::WriteString => OP_WRITE_STRING,
        OpCode::Print => OP_PRINT,
        OpCode::PrintRange => OP_PRINT_RANGE,
        OpCode::Input => OP_INPUT,
        OpCode::MultiInput => OP_MULTI_INPUT,
        OpCode::JumpIfZero => OP_JUMP_IF_ZERO,
        OpCode::Loop => OP_LOOP,
        OpCode::Return => OP_RETURN,
    }
}

pub fn opcode_byte(op: OpCode) -> (r: u8)
    ensures
        r == spec_opcode_byte(op),
{
    match op {
        OpCode::Constant => OP_CONSTANT,
        OpCode::DefineTape => OP_DEFINE_TAPE,
        OpCode::IncrementSingular => OP_INCREMENT_SINGULAR,
        OpCode::DecrementSingular => OP_DECREMENT_SINGULAR,
        OpCode::Increment => OP_INCREMENT,
        OpCode::Decrement => OP_DECREMENT,
        OpCode::ShiftLeft => OP_SHIFT_LEFT,
        OpCode::ShiftRight => OP_SHIFT_RIGHT,
        OpCode::MoveLeft => OP_MOVE_LEFT,
        OpCode::MoveRight => OP_MOVE_RIGHT,
        OpCode::SetPointer => OP_SET_POINTER,
        OpCode::WriteCell => OP_WRITE_CELL,
        OpCode::WriteString => OP_WRITE_STRING,
        OpCode::Print => OP_PRINT,
        OpCode::PrintRange => OP_PRINT_RANGE,
        OpCode::Input => OP_INPUT,
        OpCode::MultiInput => OP_MULTI_INPUT,
        OpCode::JumpIfZero => OP_JUMP_IF_ZERO,
        OpCode::Loop => OP_LOOP,
        OpCode::Return => OP_RETURN,
    }
}

/// Whether a byte encodes some opcode (the encoding is contiguous from 0).
pub open spec fn spec_is_opcode(b: u8) -> bool {
    b <= OP_RETURN
}

/// How many inline operand bytes follow an opcode byte in the code sequence.
///
/// `Constant`, `Increment`, `Decrement`, `WriteCell` and `MultiInput` carry
/// one inline byte; `JumpIfZero` and `Loop` carry a two-byte offset; all
/// other instructions take their operands from the stack or have none.
pub open spec fn spec_operand_len(b: u8) -> int {
    if b == OP_CONSTANT || b == OP_INCREMENT || b == OP_DECREMENT || b == OP_WRITE_CELL
        || b == OP_MULTI_INPUT {
        1
    } else if b == OP_JUMP_IF_ZERO || b == OP_LOOP {
        2
    } else {
        0
    }
}

} // verus!
