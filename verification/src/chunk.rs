use vstd::prelude::*;

use crate::opcode::{
    spec_is_opcode, spec_operand_len, OP_CONSTANT, OP_JUMP_IF_ZERO, OP_LOOP,
};

verus! {

/// A literal value held in a chunk's constant pool: a 32-bit unsigned
/// integer, or an immutable string kept as its bytes.
#[derive(Debug)]
pub enum Value {
    Int(u32),
    Str(Vec<u8>),
}

/// The mathematical model of a [`Value`].
pub ghost enum ValueModel {
    Int(u32),
    Str(Seq<u8>),
}

impl View for Value {
    type V = ValueModel;

    open spec fn view(&self) -> ValueModel {
        match self {
            Value::Int(n) => ValueModel::Int(*n),
            Value::Str(b) => ValueModel::Str(b@),
        }
    }
}

/// Copies a byte vector; the result holds the same byte sequence.
pub fn copy_bytes(v: &Vec<u8>) -> (r: Vec<u8>)
    ensures
        r@ == v@,
{
    let mut out: Vec<u8> = Vec::new();
    let mut i: usize = 0;
    while i < v.len()
        invariant
            i <= v.len(),
            out@ == v@.subrange(0, i as int),
        decreases v.len() - i,
    {
        out.push(v[i]);
        i = i + 1;
    }
    assert(out@ =~= v@);
    out
}

impl Clone for Value {
    /// The clone denotes the same value as the original.
    fn clone(&self) -> (r: Value)
        ensures
            r@ == self@,
    {
        match self {
            Value::Int(n) => Value::Int(*n),
            Value::Str(b) => Value::Str(copy_bytes(b)),
        }
    }
}

/// The mathematical model of a [`Chunk`].
#[verifier::ext_equal]
pub ghost struct ChunkModel {
    pub code: Seq<u8>,
    pub constants: Seq<ValueModel>,
    pub lines: Seq<u32>,
}

/// The bytecode container: a byte sequence, its constant pool, and a
/// parallel per-byte source-line table.
#[derive(Debug)]
pub struct Chunk {
    pub code: Vec<u8>,
    pub constants: Vec<Value>,
    pub lines: Vec<u32>,
}

impl View for Chunk {
    type V = ChunkModel;

    open spec fn view(&self) -> ChunkModel {
        ChunkModel {
            code: self.code@,
            constants: self.constants@.map_values(|v: Value| v@),
            lines: self.lines@,
        }
    }
}

/// Scans the code sequence from position `i`, checking that every byte in
/// opcode position encodes a known instruction, that no instruction's inline
/// operand bytes are truncated, and that every `Constant` instruction's pool
/// index is below `nconsts`.
pub open spec fn code_ok_from(code: Seq<u8>, i: int, nconsts: int) -> bool
    decreases code.len() - i when 0 <= i <= code.len()
{
    if i >= code.len() {
        true
    } else {
        let b = code[i];
        if !spec_is_opcode(b) {
            false
        } else if i + 1 + spec_operand_len(b) > code.len() {
            false
        } else if b == OP_CONSTANT && !(code[i + 1] < nconsts) {
            false
        } else {
            code_ok_from(code, i + 1 + spec_operand_len(b), nconsts)
        }
    }
}

/// Well-formedness of a chunk model: the line table parallels the code, the
/// constant pool is index-addressable by one byte (at most 256 entries), and
/// every embedded constant reference is a valid pool index.
pub open spec fn chunk_wf(c: ChunkModel) -> bool {
    &&& c.lines.len() == c.code.len()
    &&& c.constants.len() <= 256
    &&& code_ok_from(c.code, 0, c.constants.len() as int)
}

impl Chunk {
    /// A fresh chunk with no code, constants or line entries.
    pub fn new() -> (r: Chunk)
        ensures
            r@.code == Seq::<u8>::empty(),
            r@.constants == Seq::<ValueModel>::empty(),
            r@.lines == Seq::<u32>::empty(),
    {
        let r = Chunk { code: Vec::new(), constants: Vec::new(), lines: Vec::new() };
        assert(r@.constants =~= Seq::<ValueModel>::empty());
        r
    }

    /// Appends one byte of code, recording the source line it came from.
    pub fn write_chunk(&mut self, byte: u8, line: u32)
        ensures
            final(self)@.code == old(self)@.code.push(byte),
            final(self)@.lines == old(self)@.lines.push(line),
            final(self)@.constants == old(self)@.constants,
    {
        self.code.push(byte);
        self.lines.push(line);
    }

    /// Appends a value to the constant pool and returns its index.
    pub fn add_constant(&mut self, value: Value) -> (idx: usize)
        ensures
            final(self)@.constants == old(self)@.constants.push(value@),
            final(self)@.code == old(self)@.code,
            final(self)@.lines == old(self)@.lines,
            idx == old(self)@.constants.len(),
    {
        let ghost oldmap = self.constants@.map_values(|v: Value| v@);
        let idx = self.constants.len();
        self.constants.push(value);
        proof {
            assert(self.constants@.map_values(|v: Value| v@) =~= oldmap.push(
                self.constants@.last()@,
            ));
        }
        idx
    }

    /// Overwrites one already-emitted code byte: how a forward jump's
    /// reserved offset is backpatched once its target is known.
    pub fn patch_byte(&mut self, i: usize, byte: u8)
        requires
            i < old(self)@.code.len(),
        ensures
            final(self)@.code == old(self)@.code.update(i as int, byte),
            final(self)@.lines == old(self)@.lines,
            final(self)@.constants == old(self)@.constants,
    {
        self.code[i] = byte;
    }

    /// Whether this chunk satisfies [`chunk_wf`], checked executably: the
    /// decoder only ever constructs well-formed chunks, and only
    /// well-formed chunks round-trip through serialization.
    pub fn is_wf(&self) -> (r: bool)
        ensures
            r == chunk_wf(self@),
    {
        if self.lines.len() != self.code.len() {
            return false;
        }
        if self.constants.len() > 256 {
            return false;
        }
        code_ok(&self.code, self.constants.len())
    }
}

/// Executable check of [`code_ok_from`] over a whole code sequence.
pub fn code_ok(code: &Vec<u8>, nconsts: usize) -> (r: bool)
    ensures
        r == code_ok_from(code@, 0, nconsts as int),
{
    let n = code.len();
    let mut i: usize = 0;
    while i < n
        invariant
            0 <= i <= n,
            n == code@.len(),
            code_ok_from(code@, 0, nconsts as int) == code_ok_from(code@, i as int, nconsts as int),
        decreases n - i,
    {
        let b = code[i];
        if b > crate::opcode::OP_RETURN {
            return false;
        }
        let oplen: usize = if b == OP_CONSTANT || b == crate::opcode::OP_INCREMENT
            || b == crate::opcode::OP_DECREMENT || b == crate::opcode::OP_WRITE_CELL
            || b == crate::opcode::OP_MULTI_INPUT {
            1
        } else if b == OP_JUMP_IF_ZERO || b == OP_LOOP {
            2
        } else {
            0
        };
        assert(oplen == spec_operand_len(b));
        if n - i - 1 < oplen {
            return false;
        }
        if b == OP_CONSTANT {
            let idx = code[i + 1];
            if !((idx as usize) < nconsts) {
                return false;
            }
        }
        i = i + 1 + oplen;
    }
    true
}

} // verus!
