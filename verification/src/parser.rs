use vstd::prelude::*;

use crate::chunk::{chunk_wf, code_ok_from, Chunk, ChunkModel, Value, ValueModel};
use crate::opcode::{
    opcode_byte, spec_is_opcode, spec_opcode_byte, spec_operand_len, OpCode, OP_CONSTANT,
    OP_DECREMENT, OP_DECREMENT_SINGULAR, OP_DEFINE_TAPE, OP_INCREMENT, OP_INCREMENT_SINGULAR,
    OP_INPUT, OP_JUMP_IF_ZERO, OP_LOOP, OP_MOVE_LEFT, OP_MOVE_RIGHT, OP_MULTI_INPUT, OP_PRINT,
    OP_PRINT_RANGE, OP_RETURN, OP_SET_POINTER, OP_SHIFT_LEFT, OP_SHIFT_RIGHT, OP_WRITE_CELL,
    OP_WRITE_STRING,
};
use crate::scanner::{
    digits_end, digits_val, first_sig_kind, lemma_skip_insig_bounds, lemma_tok_next_bounds,
    line_no, scanner_wf, skip_insig, skipped_error, str_end, tok_kind_at, tok_next, Scanner,
};
use crate::token::{Token, TokenKind};

verus! {

/// The reasons compilation can fail.
#[derive(Clone, Copy, PartialEq, Eq, Structural, Debug)]
pub enum CompileErrorKind {
    /// A malformed lexeme: an unterminated string, an out-of-range integer
    /// literal, or an operator in a position where none may stand.
    UnexpectedToken,
    /// A counted `+` or `-` with a count above 255.
    CountRange,
    /// `#` not followed by an integer.
    ExpectIntegerAfterHash,
    /// `#` followed by an integer above 255.
    WriteCellRange,
    /// `@` not followed by an integer.
    ExpectIntegerAfterAt,
    /// `{` not followed by an integer.
    ExpectIntegerAfterBrace,
    /// A tape definition not closed by `}`.
    ExpectRightBrace,
    /// A `[` never closed by `]`.
    UnclosedLoop,
    /// A forward jump past the 16-bit offset range.
    JumpTooLarge,
    /// A loop body past the 16-bit offset range.
    LoopTooLarge,
    /// More than 256 constants in one chunk.
    TooManyConstants,
}

/// A compile diagnostic: the offending source line and what went wrong.
#[derive(Clone, Copy, PartialEq, Eq, Structural, Debug)]
pub struct CompileError {
    pub line: u32,
    pub kind: CompileErrorKind,
}

/// An open loop during compilation: where its `JumpIfZero` instruction
/// starts, and where its two reserved forward-offset bytes sit.
#[derive(Clone, Copy, PartialEq, Eq, Structural, Debug)]
pub struct LoopFrame {
    pub start: usize,
    pub patch: usize,
}

/// The single-pass scanner-driven compiler: consumes tokens with one token
/// of lookahead (`previous`/`current`), emits bytes and operands into its
/// chunk, and resolves loop jumps by backpatching.
pub struct Parser {
    pub scanner: Scanner,
    pub chunk: Chunk,
    pub previous: Token,
    pub current: Token,
    pub had_error: bool,
    pub panic_mode: bool,
    pub err: Option<CompileError>,
    pub loops: Vec<LoopFrame>,
    /// Length of the code prefix that backpatching never touches.
    pub base: Ghost<usize>,
}

/// The decimal value of the first significant token after position `i`,
/// meaningful when that token is an integer literal.
pub open spec fn sig_int_val(s: Seq<u8>, i: int) -> int {
    digits_val(s, skip_insig(s, i), digits_end(s, skip_insig(s, i)))
}

/// The scanner position just after the first significant token at or
/// after `i`.
pub open spec fn after_sig(s: Seq<u8>, i: int) -> int {
    tok_next(s, skip_insig(s, i))
}

/// What every compiler step preserves: the source, the protected code
/// prefix, the constants already in the pool, and a latched error.
pub open spec fn extends(a: Parser, b: Parser) -> bool {
    &&& b.scanner.source@ == a.scanner.source@
    &&& b.base == a.base
    &&& b.chunk@.code.len() >= a.chunk@.code.len()
    &&& forall|i: int| 0 <= i < a.base@ ==> #[trigger] b.chunk@.code[i] == a.chunk@.code[i]
    &&& b.chunk@.constants.len() >= a.chunk@.constants.len()
    &&& forall|i: int|
        0 <= i < a.chunk@.constants.len() ==> #[trigger] b.chunk@.constants[i]
            == a.chunk@.constants[i]
    &&& (a.had_error ==> b.had_error)
}

/// A significant token as the compiler's lookahead holds it: its kind, its
/// decimal value (zero unless an integer), its payload (empty unless a
/// string), and the source line it ends on.
#[verifier::ext_equal]
pub ghost struct CTok {
    pub kind: TokenKind,
    pub val: u32,
    pub text: Seq<u8>,
    pub line: u32,
}

/// The significant token an advance from position `q` of the source yields.
pub open spec fn sig_tok(s: Seq<u8>, q: int) -> CTok {
    let t = skip_insig(s, q);
    let k = tok_kind_at(s, t);
    CTok {
        kind: k,
        val: if k == TokenKind::Integer {
            digits_val(s, t, digits_end(s, t)) as u32
        } else {
            0u32
        },
        text: if k == TokenKind::Str {
            s.subrange(t + 1, str_end(s, t + 1))
        } else {
            Seq::empty()
        },
        line: line_no(s, tok_next(s, t)),
    }
}

/// Whether an executable token carries exactly the fields of `c`.
pub open spec fn tok_is(t: Token, c: CTok) -> bool {
    &&& t.kind == c.kind
    &&& t.value == c.val
    &&& t.text@ == c.text
    &&& t.line == c.line
}

/// The compiler's whole observable state: the scanner position, the
/// lookahead token, the line emissions are tagged with, the chunk under
/// construction, the open loop frames, and the error latch.
#[verifier::ext_equal]
pub ghost struct CState {
    pub pos: int,
    pub cur: CTok,
    pub prev_line: u32,
    pub code: Seq<u8>,
    pub constants: Seq<ValueModel>,
    pub lines: Seq<u32>,
    pub frames: Seq<LoopFrame>,
    pub err: bool,
}

/// The state of a compiler before any token was read.
pub open spec fn init_cstate() -> CState {
    CState {
        pos: 0,
        cur: CTok { kind: TokenKind::Empty, val: 0, text: Seq::empty(), line: 0 },
        prev_line: 0,
        code: Seq::empty(),
        constants: Seq::empty(),
        lines: Seq::empty(),
        frames: Seq::empty(),
        err: false,
    }
}

/// One advance: the lookahead's line becomes the emission line, the next
/// significant token becomes the lookahead, and skipped `Error` tokens
/// latch the error flag.
pub open spec fn st_advance(s: Seq<u8>, st: CState) -> CState {
    CState {
        pos: after_sig(s, st.pos),
        cur: sig_tok(s, st.pos),
        prev_line: st.cur.line,
        err: st.err || skipped_error(s, st.pos),
        ..st
    }
}

/// One emitted code byte, tagged with the current emission line.
pub open spec fn st_emit(st: CState, b: u8) -> CState {
    CState { code: st.code.push(b), lines: st.lines.push(st.prev_line), ..st }
}

/// One pooled constant and its `Constant` instruction; an index past one
/// byte latches the error flag.
pub open spec fn st_emit_const(st: CState, v: ValueModel) -> CState {
    CState {
        constants: st.constants.push(v),
        code: st.code.push(OP_CONSTANT).push((st.constants.len() % 256) as u8),
        lines: st.lines.push(st.prev_line).push(st.prev_line),
        err: st.err || st.constants.len() > 255,
        ..st
    }
}

/// A latched compile error.
pub open spec fn st_err(st: CState) -> CState {
    CState { err: true, ..st }
}

/// A counted inline-operand operator (`+`, `-`).
pub open spec fn st_sized_code(s: Seq<u8>, st: CState, one: u8, many: u8) -> CState {
    let a1 = st_advance(s, st);
    if a1.cur.kind == TokenKind::Integer {
        let a2 = st_advance(s, a1);
        if a1.cur.val > 255 {
            st_err(a2)
        } else {
            st_emit(st_emit(a2, many), a1.cur.val as u8)
        }
    } else {
        st_emit(a1, one)
    }
}

/// A counted pool-operand operator (`<`, `>`, `.`).
pub open spec fn st_sized_constant(s: Seq<u8>, st: CState, one: u8, many: u8) -> CState {
    let a1 = st_advance(s, st);
    if a1.cur.kind == TokenKind::Integer {
        let a2 = st_advance(s, a1);
        st_emit(st_emit_const(a2, ValueModel::Int(a1.cur.val)), many)
    } else {
        st_emit(a1, one)
    }
}

/// The `,` input form with its `*` and `^` modifiers.
pub open spec fn st_input(s: Seq<u8>, st: CState) -> CState {
    let a1 = st_advance(s, st);
    let e = if a1.cur.kind == TokenKind::Star {
        st_emit(st_advance(s, a1), OP_MULTI_INPUT)
    } else {
        st_emit(st_emit(a1, OP_INPUT), OP_MULTI_INPUT)
    };
    if e.cur.kind == TokenKind::Caret {
        st_emit(st_advance(s, e), 1u8)
    } else {
        st_emit(e, 0u8)
    }
}

/// The `#N` literal cell write.
pub open spec fn st_replace(s: Seq<u8>, st: CState) -> CState {
    let a1 = st_advance(s, st);
    if a1.cur.kind == TokenKind::Integer {
        let a2 = st_advance(s, a1);
        if a1.cur.val > 255 {
            st_err(a2)
        } else {
            st_emit(st_emit(a2, OP_WRITE_CELL), a1.cur.val as u8)
        }
    } else {
        st_err(a1)
    }
}

/// The `@N` absolute seek.
pub open spec fn st_set_pointer(s: Seq<u8>, st: CState) -> CState {
    let a1 = st_advance(s, st);
    if a1.cur.kind == TokenKind::Integer {
        let a2 = st_advance(s, a1);
        st_emit(st_emit_const(a2, ValueModel::Int(a1.cur.val)), OP_SET_POINTER)
    } else {
        st_err(a1)
    }
}

/// The `{N}` tape definition; a missing integer or closing brace latches
/// the error flag.
pub open spec fn st_define_tape(s: Seq<u8>, st: CState) -> CState {
    let a1 = st_advance(s, st);
    if a1.cur.kind == TokenKind::Integer {
        let a2 = st_advance(s, a1);
        let e = st_emit(st_emit_const(a2, ValueModel::Int(a1.cur.val)), OP_DEFINE_TAPE);
        if e.cur.kind == TokenKind::RightBrace {
            st_advance(s, e)
        } else {
            st_err(e)
        }
    } else {
        st_err(a1)
    }
}

/// A string literal with its optional `$` and `^` modifiers, in that order.
pub open spec fn st_string(s: Seq<u8>, st: CState) -> CState {
    let l = st.cur.text.len() as u32;
    let e1 = st_emit(st_emit_const(st, ValueModel::Str(st.cur.text)), OP_WRITE_STRING);
    let a1 = st_advance(s, e1);
    let afterd = if a1.cur.kind == TokenKind::Dollar {
        st_emit(st_emit_const(st_advance(s, a1), ValueModel::Int(l)), OP_PRINT_RANGE)
    } else {
        a1
    };
    if afterd.cur.kind == TokenKind::Caret {
        st_emit(st_emit_const(st_advance(s, afterd), ValueModel::Int(l)), OP_MOVE_RIGHT)
    } else {
        afterd
    }
}

/// A `[`: the placeholder `JumpIfZero` and its open frame.
pub open spec fn st_open_loop(s: Seq<u8>, st: CState) -> CState {
    let fr = LoopFrame { start: st.code.len() as usize, patch: (st.code.len() + 1) as usize };
    let e = st_emit(st_emit(st_emit(st, OP_JUMP_IF_ZERO), 255), 255);
    st_advance(s, CState { frames: st.frames.push(fr), ..e })
}

/// The `Loop` instruction with its big-endian backward offset; an offset
/// past 16 bits latches the error flag (the truncated bytes still stand).
pub open spec fn st_loop_back(st: CState, start: int) -> CState {
    let diff = st.code.len() + 1 - start;
    let off = (diff + 2) % 65536;
    let e = CState { err: st.err || diff > 65533, ..st };
    st_emit(st_emit(st_emit(e, OP_LOOP), (off / 256) as u8), (off % 256) as u8)
}

/// A backpatched forward offset; a distance past 16 bits latches the
/// error flag.
pub open spec fn st_patch(st: CState, patch: int) -> CState {
    let j = (st.code.len() - patch - 2) % 65536;
    CState {
        code: st.code.update(patch, (j / 256) as u8).update(patch + 1, (j % 256) as u8),
        err: st.err || st.code.len() - patch - 2 > 65535,
        ..st
    }
}

/// A `]`: closes the innermost frame, or latches an error with none open.
pub open spec fn st_close_loop(s: Seq<u8>, st: CState) -> CState {
    if st.frames.len() == 0 {
        st_advance(s, st_err(st))
    } else {
        let f = st.frames.last();
        let e = st_patch(
            st_loop_back(CState { frames: st.frames.drop_last(), ..st }, f.start as int),
            f.patch as int,
        );
        st_advance(s, e)
    }
}

/// One dispatch of the compiler on its lookahead: what
/// [`Parser::expression`] does to the whole state.
pub open spec fn cstep(s: Seq<u8>, st: CState) -> CState {
    match st.cur.kind {
        TokenKind::Plus => st_sized_code(s, st, OP_INCREMENT_SINGULAR, OP_INCREMENT),
        TokenKind::Minus => st_sized_code(s, st, OP_DECREMENT_SINGULAR, OP_DECREMENT),
        TokenKind::LeftAngle => st_sized_constant(s, st, OP_SHIFT_LEFT, OP_MOVE_LEFT),
        TokenKind::RightAngle => st_sized_constant(s, st, OP_SHIFT_RIGHT, OP_MOVE_RIGHT),
        TokenKind::Dot => st_sized_constant(s, st, OP_PRINT, OP_PRINT_RANGE),
        TokenKind::Comma => st_input(s, st),
        TokenKind::Hash => st_replace(s, st),
        TokenKind::At => st_set_pointer(s, st),
        TokenKind::LeftBrace => st_define_tape(s, st),
        TokenKind::LeftBracket => st_open_loop(s, st),
        TokenKind::RightBracket => st_close_loop(s, st),
        TokenKind::Str => st_string(s, st),
        _ => st_advance(s, st),
    }
}

/// Iterated [`cstep`] until the lookahead is end-of-input (the fuel is an
/// upper bound on the steps any source can take).
pub open spec fn run_steps(s: Seq<u8>, st: CState, fuel: nat) -> CState
    decreases fuel,
{
    if fuel == 0 || st.cur.kind == TokenKind::Eof {
        st
    } else {
        run_steps(s, cstep(s, st), (fuel - 1) as nat)
    }
}

/// The whole compilation of source `s`, as [`Parser::compile`] performs
/// it: the first advance, the default-tape preamble when the program does
/// not open with `{`, every construct in turn, an error for a loop left
/// open, and the terminating `Return`. Its `err` field is the error latch:
/// compilation succeeds exactly when it is false.
pub open spec fn spec_compile(s: Seq<u8>) -> CState {
    let a = st_advance(s, init_cstate());
    let b = if a.cur.kind != TokenKind::LeftBrace {
        st_emit(st_emit_const(a, ValueModel::Int(30000)), OP_DEFINE_TAPE)
    } else {
        a
    };
    let fin = run_steps(s, b, 2 * s.len() + 2);
    let c = if fin.frames.len() > 0 {
        st_err(fin)
    } else {
        fin
    };
    st_emit(c, OP_RETURN)
}

/// Decoding the code sequence from `i` lands exactly on `end`: every byte in
/// opcode position up to `end` encodes a known instruction, no operand field
/// crosses `end`, and every `Constant` index is below `n`.
pub open spec fn code_ok_between(code: Seq<u8>, i: int, end: int, n: int) -> bool
    decreases end - i
        when 0 <= i <= end <= code.len()
{
    if i >= end {
        true
    } else {
        let b = code[i];
        if !spec_is_opcode(b) {
            false
        } else if i + 1 + spec_operand_len(b) > end {
            false
        } else if b == OP_CONSTANT && !(code[i + 1] < n) {
            false
        } else {
            code_ok_between(code, i + 1 + spec_operand_len(b), end, n)
        }
    }
}

/// Where the code segment closed off on the left by open frame `k` begins:
/// just past the previous frame's placeholder, or at the start of the code.
pub open spec fn seg_start(frames: Seq<LoopFrame>, k: int) -> int {
    if k == 0 {
        0
    } else {
        frames[k - 1].start + 3
    }
}

/// Open frame `k` sits on its own placeholder: its patch field names the
/// operand bytes of a `JumpIfZero` at its recorded start, and the code from
/// the previous placeholder up to this one decodes cleanly.
pub open spec fn frame_ok(code: Seq<u8>, frames: Seq<LoopFrame>, n: int, k: int) -> bool {
    let f = frames[k];
    &&& f.patch == f.start + 1
    &&& seg_start(frames, k) <= f.start
    &&& f.start + 3 <= code.len()
    &&& code[f.start as int] == OP_JUMP_IF_ZERO
    &&& code_ok_between(code, seg_start(frames, k), f.start as int, n)
}

/// The chunk under construction is well formed around its open loops: the
/// pool is one-byte addressable, each open frame sits on its own `JumpIfZero`
/// placeholder left to right, and the code between consecutive placeholders
/// (and after the last one) decodes cleanly with pool indices below `n`.
pub open spec fn build_wf(code: Seq<u8>, frames: Seq<LoopFrame>, n: int) -> bool {
    &&& 0 <= n <= 256
    &&& forall|k: int| 0 <= k < frames.len() ==> #[trigger] frame_ok(code, frames, n, k)
    &&& code_ok_between(code, seg_start(frames, frames.len() as int), code.len() as int, n)
}

/// The invariant an error-free compile maintains ([`lemma_step_wf`]): the
/// line table parallels the code and the chunk under construction is well
/// formed around its open loops. With no loop left open it yields
/// [`chunk_wf`] once the final `Return` is emitted.
pub open spec fn st_wf(st: CState) -> bool {
    &&& st.lines.len() == st.code.len()
    &&& build_wf(st.code, st.frames, st.constants.len() as int)
}

/// Clean decoding is kept when the pool bound grows.
proof fn lemma_between_mono(code: Seq<u8>, i: int, end: int, n: int, n2: int)
    requires
        0 <= i <= end <= code.len(),
        n <= n2,
        code_ok_between(code, i, end, n),
    ensures
        code_ok_between(code, i, end, n2),
    decreases end - i,
{
    if i < end {
        lemma_between_mono(code, i + 1 + spec_operand_len(code[i]), end, n, n2);
    }
}

/// Clean decoding composes over adjacent regions.
proof fn lemma_between_trans(code: Seq<u8>, i: int, m: int, end: int, n: int)
    requires
        0 <= i <= m <= end <= code.len(),
        code_ok_between(code, i, m, n),
        code_ok_between(code, m, end, n),
    ensures
        code_ok_between(code, i, end, n),
    decreases m - i,
{
    if i < m {
        lemma_between_trans(code, i + 1 + spec_operand_len(code[i]), m, end, n);
    }
}

/// Clean decoding of a region depends only on the bytes inside it.
proof fn lemma_between_frame(c1: Seq<u8>, c2: Seq<u8>, i: int, end: int, n: int)
    requires
        0 <= i <= end <= c1.len(),
        end <= c2.len(),
        forall|j: int| i <= j < end ==> c1[j] == c2[j],
        code_ok_between(c1, i, end, n),
    ensures
        code_ok_between(c2, i, end, n),
    decreases end - i,
{
    if i < end {
        lemma_between_frame(c1, c2, i + 1 + spec_operand_len(c1[i]), end, n);
    }
}

/// A region that decodes cleanly up to the end of the code satisfies the
/// serializer's whole-sequence check.
proof fn lemma_between_to_from(code: Seq<u8>, i: int, n: int)
    requires
        0 <= i <= code.len(),
        code_ok_between(code, i, code.len() as int, n),
    ensures
        code_ok_from(code, i, n),
    decreases code.len() - i,
{
    if i < code.len() {
        lemma_between_to_from(code, i + 1 + spec_operand_len(code[i]), n);
    }
}

/// A single complete instruction decodes cleanly as a region of its own.
proof fn lemma_between_instr(code: Seq<u8>, i: int, end: int, n: int)
    requires
        0 <= i < end <= code.len(),
        spec_is_opcode(code[i]),
        i + 1 + spec_operand_len(code[i]) == end,
        code[i] == OP_CONSTANT ==> code[i + 1] < n,
    ensures
        code_ok_between(code, i, end, n),
{
    assert(code_ok_between(code, end, end, n));
}

/// Open frames sit left to right, each past the previous placeholder.
proof fn lemma_frames_sorted(code: Seq<u8>, frames: Seq<LoopFrame>, n: int, j: int, k: int)
    requires
        forall|q: int| 0 <= q < frames.len() ==> #[trigger] frame_ok(code, frames, n, q),
        0 <= j < k < frames.len(),
    ensures
        frames[j].start + 3 <= frames[k].start,
    decreases k - j,
{
    assert(frame_ok(code, frames, n, k));
    if j + 1 < k {
        lemma_frames_sorted(code, frames, n, j, k - 1);
        assert(frame_ok(code, frames, n, k - 1));
    }
}

/// Appending whole instructions after the last open placeholder, with the
/// pool possibly grown, keeps the chunk under construction well formed.
proof fn lemma_build_append(code: Seq<u8>, frames: Seq<LoopFrame>, n: int, code2: Seq<u8>, n2: int)
    requires
        build_wf(code, frames, n),
        n <= n2 <= 256,
        code.len() <= code2.len(),
        forall|j: int| 0 <= j < code.len() ==> code2[j] == code[j],
        code_ok_between(code2, code.len() as int, code2.len() as int, n2),
    ensures
        build_wf(code2, frames, n2),
{
    let lo = seg_start(frames, frames.len() as int);
    if frames.len() > 0 {
        assert(frame_ok(code, frames, n, frames.len() - 1));
    }
    assert forall|k: int| 0 <= k < frames.len() implies #[trigger] frame_ok(
        code2,
        frames,
        n2,
        k,
    ) by {
        assert(frame_ok(code, frames, n, k));
        lemma_between_frame(code, code2, seg_start(frames, k), frames[k].start as int, n);
        lemma_between_mono(code2, seg_start(frames, k), frames[k].start as int, n, n2);
    }
    lemma_between_frame(code, code2, lo, code.len() as int, n);
    lemma_between_mono(code2, lo, code.len() as int, n, n2);
    lemma_between_trans(code2, lo, code.len() as int, code2.len() as int, n2);
}

/// Opening a loop appends its placeholder `JumpIfZero` and pushes the frame
/// that points at the placeholder's operand bytes.
proof fn lemma_build_open(code: Seq<u8>, frames: Seq<LoopFrame>, n: int, code2: Seq<u8>, fr: LoopFrame)
    requires
        build_wf(code, frames, n),
        code2 == code.push(OP_JUMP_IF_ZERO).push(255u8).push(255u8),
        fr.start == code.len(),
        fr.patch == code.len() + 1,
    ensures
        build_wf(code2, frames.push(fr), n),
{
    let frames2 = frames.push(fr);
    let m = code.len() as int;
    let lo = seg_start(frames, frames.len() as int);
    if frames.len() > 0 {
        assert(frame_ok(code, frames, n, frames.len() - 1));
    }
    assert forall|k: int| 0 <= k < frames2.len() implies #[trigger] frame_ok(
        code2,
        frames2,
        n,
        k,
    ) by {
        if k < frames.len() {
            assert(frame_ok(code, frames, n, k));
            assert(seg_start(frames2, k) == seg_start(frames, k));
            lemma_between_frame(code, code2, seg_start(frames, k), frames[k].start as int, n);
        } else {
            assert(seg_start(frames2, k) == lo);
            lemma_between_frame(code, code2, lo, m, n);
            assert(code2[m] == OP_JUMP_IF_ZERO);
        }
    }
    assert(seg_start(frames2, frames2.len() as int) == m + 3);
    assert(code_ok_between(code2, m + 3, m + 3, n));
}

/// Closing the innermost loop appends its backward `Loop` jump and
/// backpatches the matching placeholder's operand bytes, merging the code
/// segments on either side of the placeholder.
proof fn lemma_build_close(
    code: Seq<u8>,
    frames: Seq<LoopFrame>,
    n: int,
    code2: Seq<u8>,
    h1: u8,
    h2: u8,
    b1: u8,
    b2: u8,
)
    requires
        build_wf(code, frames, n),
        frames.len() > 0,
        code2 == code.push(OP_LOOP).push(h1).push(h2).update(
            frames.last().patch as int,
            b1,
        ).update(frames.last().patch + 1, b2),
    ensures
        build_wf(code2, frames.drop_last(), n),
{
    let f = frames.last();
    let m = code.len() as int;
    let li = frames.len() - 1;
    let frames2 = frames.drop_last();
    assert(frame_ok(code, frames, n, li));
    assert(code2.len() == m + 3);
    assert(forall|j: int|
        0 <= j < m && j != f.start + 1 && j != f.start + 2 ==> code2[j] == code[j]);
    assert forall|k: int| 0 <= k < frames2.len() implies #[trigger] frame_ok(
        code2,
        frames2,
        n,
        k,
    ) by {
        assert(frame_ok(code, frames, n, k));
        lemma_frames_sorted(code, frames, n, k, li);
        assert(seg_start(frames2, k) == seg_start(frames, k));
        lemma_between_frame(code, code2, seg_start(frames, k), frames[k].start as int, n);
        assert(code2[frames[k].start as int] == code[frames[k].start as int]);
    }
    let lo2 = seg_start(frames, li);
    if li > 0 {
        assert(frame_ok(code, frames, n, li - 1));
    }
    assert(seg_start(frames2, frames2.len() as int) == lo2);
    lemma_between_frame(code, code2, lo2, f.start as int, n);
    assert(code2[f.start as int] == OP_JUMP_IF_ZERO);
    lemma_between_instr(code2, f.start as int, f.start + 3, n);
    assert(seg_start(frames, frames.len() as int) == f.start + 3);
    lemma_between_frame(code, code2, f.start + 3, m, n);
    assert(code2[m] == OP_LOOP);
    lemma_between_instr(code2, m, m + 3, n);
    lemma_between_trans(code2, f.start + 3, m, m + 3, n);
    lemma_between_trans(code2, f.start as int, f.start + 3, m + 3, n);
    lemma_between_trans(code2, lo2, f.start as int, m + 3, n);
}

/// A counted inline-operand operator keeps the build well formed.
proof fn lemma_wf_sized_code(s: Seq<u8>, st: CState, one: u8, many: u8)
    requires
        !st.err ==> st_wf(st),
        spec_is_opcode(one),
        spec_operand_len(one) == 0,
        one != OP_CONSTANT,
        spec_is_opcode(many),
        spec_operand_len(many) == 1,
        many != OP_CONSTANT,
    ensures
        !st_sized_code(s, st, one, many).err ==> st_wf(st_sized_code(s, st, one, many)),
{
    let r = st_sized_code(s, st, one, many);
    let a1 = st_advance(s, st);
    let m0 = st.code.len() as int;
    let n0 = st.constants.len() as int;
    if !r.err {
        assert(!st.err);
        if a1.cur.kind == TokenKind::Integer {
            let a2 = st_advance(s, a1);
            if a1.cur.val > 255 {
                assert(false);
            } else {
                assert(r.code == st.code.push(many).push(a1.cur.val as u8));
                assert(r.code[m0] == many);
                lemma_between_instr(r.code, m0, m0 + 2, n0);
                lemma_build_append(st.code, st.frames, n0, r.code, n0);
            }
        } else {
            assert(r.code == st.code.push(one));
            assert(r.code[m0] == one);
            lemma_between_instr(r.code, m0, m0 + 1, n0);
            lemma_build_append(st.code, st.frames, n0, r.code, n0);
        }
    }
}

/// A counted pool-operand operator keeps the build well formed.
proof fn lemma_wf_sized_constant(s: Seq<u8>, st: CState, one: u8, many: u8)
    requires
        !st.err ==> st_wf(st),
        spec_is_opcode(one),
        spec_operand_len(one) == 0,
        one != OP_CONSTANT,
        spec_is_opcode(many),
        spec_operand_len(many) == 0,
        many != OP_CONSTANT,
    ensures
        !st_sized_constant(s, st, one, many).err ==> st_wf(st_sized_constant(s, st, one, many)),
{
    let r = st_sized_constant(s, st, one, many);
    let a1 = st_advance(s, st);
    let m0 = st.code.len() as int;
    let n0 = st.constants.len() as int;
    if !r.err {
        assert(!st.err);
        if a1.cur.kind == TokenKind::Integer {
            assert(n0 <= 255);
            assert(r.code == st.code.push(OP_CONSTANT).push((n0 % 256) as u8).push(many));
            assert(r.code[m0] == OP_CONSTANT);
            assert(r.code[m0 + 1] == n0 as u8);
            lemma_between_instr(r.code, m0, m0 + 2, n0 + 1);
            assert(r.code[m0 + 2] == many);
            lemma_between_instr(r.code, m0 + 2, m0 + 3, n0 + 1);
            lemma_between_trans(r.code, m0, m0 + 2, m0 + 3, n0 + 1);
            lemma_build_append(st.code, st.frames, n0, r.code, n0 + 1);
        } else {
            assert(r.code == st.code.push(one));
            assert(r.code[m0] == one);
            lemma_between_instr(r.code, m0, m0 + 1, n0);
            lemma_build_append(st.code, st.frames, n0, r.code, n0);
        }
    }
}

/// The input form keeps the build well formed.
proof fn lemma_wf_input(s: Seq<u8>, st: CState)
    requires
        !st.err ==> st_wf(st),
    ensures
        !st_input(s, st).err ==> st_wf(st_input(s, st)),
{
    let r = st_input(s, st);
    let a1 = st_advance(s, st);
    let m0 = st.code.len() as int;
    let n0 = st.constants.len() as int;
    if !r.err {
        assert(!st.err);
        if a1.cur.kind == TokenKind::Star {
            assert(r.code == st.code.push(OP_MULTI_INPUT).push(r.code.last()));
            assert(r.code[m0] == OP_MULTI_INPUT);
            lemma_between_instr(r.code, m0, m0 + 2, n0);
            lemma_build_append(st.code, st.frames, n0, r.code, n0);
        } else {
            assert(r.code == st.code.push(OP_INPUT).push(OP_MULTI_INPUT).push(r.code.last()));
            assert(r.code[m0] == OP_INPUT);
            lemma_between_instr(r.code, m0, m0 + 1, n0);
            assert(r.code[m0 + 1] == OP_MULTI_INPUT);
            lemma_between_instr(r.code, m0 + 1, m0 + 3, n0);
            lemma_between_trans(r.code, m0, m0 + 1, m0 + 3, n0);
            lemma_build_append(st.code, st.frames, n0, r.code, n0);
        }
    }
}

/// The literal cell write keeps the build well formed.
proof fn lemma_wf_replace(s: Seq<u8>, st: CState)
    requires
        !st.err ==> st_wf(st),
    ensures
        !st_replace(s, st).err ==> st_wf(st_replace(s, st)),
{
    let r = st_replace(s, st);
    let a1 = st_advance(s, st);
    let m0 = st.code.len() as int;
    let n0 = st.constants.len() as int;
    if !r.err {
        assert(!st.err);
        if a1.cur.kind == TokenKind::Integer && a1.cur.val <= 255 {
            assert(r.code == st.code.push(OP_WRITE_CELL).push(a1.cur.val as u8));
            assert(r.code[m0] == OP_WRITE_CELL);
            lemma_between_instr(r.code, m0, m0 + 2, n0);
            lemma_build_append(st.code, st.frames, n0, r.code, n0);
        } else {
            assert(false);
        }
    }
}

/// A pool constant followed by a one-byte instruction keeps the build well
/// formed: the shared shape of the absolute seek, the tape definition and
/// each piece of a string literal.
proof fn lemma_wf_const_then(st: CState, r: CState, op: u8)
    requires
        st_wf(st),
        spec_is_opcode(op),
        spec_operand_len(op) == 0,
        op != OP_CONSTANT,
        st.constants.len() <= 255,
        r.code == st.code.push(OP_CONSTANT).push((st.constants.len() % 256) as u8).push(op),
        r.frames == st.frames,
        r.constants.len() == st.constants.len() + 1,
        r.lines.len() == r.code.len(),
    ensures
        st_wf(r),
{
    let m0 = st.code.len() as int;
    let n0 = st.constants.len() as int;
    assert(r.code[m0] == OP_CONSTANT);
    assert(r.code[m0 + 1] == n0 as u8);
    lemma_between_instr(r.code, m0, m0 + 2, n0 + 1);
    assert(r.code[m0 + 2] == op);
    lemma_between_instr(r.code, m0 + 2, m0 + 3, n0 + 1);
    lemma_between_trans(r.code, m0, m0 + 2, m0 + 3, n0 + 1);
    lemma_build_append(st.code, st.frames, n0, r.code, n0 + 1);
}

/// The absolute seek keeps the build well formed.
proof fn lemma_wf_set_pointer(s: Seq<u8>, st: CState)
    requires
        !st.err ==> st_wf(st),
    ensures
        !st_set_pointer(s, st).err ==> st_wf(st_set_pointer(s, st)),
{
    let r = st_set_pointer(s, st);
    let a1 = st_advance(s, st);
    if !r.err {
        assert(!st.err);
        if a1.cur.kind == TokenKind::Integer {
            lemma_wf_const_then(st, r, OP_SET_POINTER);
        } else {
            assert(false);
        }
    }
}

/// The tape definition keeps the build well formed.
proof fn lemma_wf_define_tape(s: Seq<u8>, st: CState)
    requires
        !st.err ==> st_wf(st),
    ensures
        !st_define_tape(s, st).err ==> st_wf(st_define_tape(s, st)),
{
    let r = st_define_tape(s, st);
    let a1 = st_advance(s, st);
    if !r.err {
        assert(!st.err);
        if a1.cur.kind == TokenKind::Integer {
            lemma_wf_const_then(st, r, OP_DEFINE_TAPE);
        } else {
            assert(false);
        }
    }
}

/// A string literal with its modifiers keeps the build well formed.
proof fn lemma_wf_string(s: Seq<u8>, st: CState)
    requires
        !st.err ==> st_wf(st),
    ensures
        !st_string(s, st).err ==> st_wf(st_string(s, st)),
{
    let r = st_string(s, st);
    if !r.err {
        assert(!st.err);
        let e1 = st_emit(st_emit_const(st, ValueModel::Str(st.cur.text)), OP_WRITE_STRING);
        assert(!e1.err);
        lemma_wf_const_then(st, e1, OP_WRITE_STRING);
        let a1 = st_advance(s, e1);
        let l = ValueModel::Int(st.cur.text.len() as u32);
        let afterd = if a1.cur.kind == TokenKind::Dollar {
            st_emit(st_emit_const(st_advance(s, a1), l), OP_PRINT_RANGE)
        } else {
            a1
        };
        if a1.cur.kind == TokenKind::Dollar {
            assert(!afterd.err);
            lemma_wf_const_then(e1, afterd, OP_PRINT_RANGE);
        }
        if afterd.cur.kind == TokenKind::Caret {
            lemma_wf_const_then(afterd, r, OP_MOVE_RIGHT);
        }
    }
}

/// Opening a loop keeps the build well formed (the code stays short enough
/// for its positions to be recorded exactly).
proof fn lemma_wf_open_loop(s: Seq<u8>, st: CState)
    requires
        !st.err ==> st_wf(st),
        st.code.len() + 3 <= usize::MAX,
    ensures
        !st_open_loop(s, st).err ==> st_wf(st_open_loop(s, st)),
{
    let r = st_open_loop(s, st);
    if !r.err {
        assert(!st.err);
        let fr = LoopFrame {
            start: st.code.len() as usize,
            patch: (st.code.len() + 1) as usize,
        };
        lemma_build_open(
            st.code,
            st.frames,
            st.constants.len() as int,
            r.code,
            fr,
        );
        assert(r.frames == st.frames.push(fr));
    }
}

/// Closing a loop keeps the build well formed.
proof fn lemma_wf_close_loop(s: Seq<u8>, st: CState)
    requires
        !st.err ==> st_wf(st),
    ensures
        !st_close_loop(s, st).err ==> st_wf(st_close_loop(s, st)),
{
    let r = st_close_loop(s, st);
    if !r.err {
        assert(!st.err);
        if st.frames.len() == 0 {
            assert(false);
        } else {
            let f = st.frames.last();
            assert(frame_ok(st.code, st.frames, st.constants.len() as int, st.frames.len() - 1));
            let inner = CState { frames: st.frames.drop_last(), ..st };
            let lb = st_loop_back(inner, f.start as int);
            let e = st_patch(lb, f.patch as int);
            let diff = st.code.len() + 1 - f.start;
            let off = (diff + 2) % 65536;
            let j = (lb.code.len() - f.patch - 2) % 65536;
            assert(e.code == st.code.push(OP_LOOP).push((off / 256) as u8).push(
                (off % 256) as u8,
            ).update(f.patch as int, (j / 256) as u8).update(f.patch + 1, (j % 256) as u8));
            lemma_build_close(
                st.code,
                st.frames,
                st.constants.len() as int,
                e.code,
                (off / 256) as u8,
                (off % 256) as u8,
                (j / 256) as u8,
                (j % 256) as u8,
            );
            assert(r.frames == st.frames.drop_last());
            assert(lb.lines.len() == st.lines.len() + 3);
            assert(e.lines == lb.lines);
            assert(e.code.len() == lb.code.len());
            assert(r.lines.len() == r.code.len());
        }
    }
}

/// One compile step keeps the chunk under construction well formed while no
/// error has been latched.
proof fn lemma_step_wf(s: Seq<u8>, st: CState)
    requires
        !st.err ==> st_wf(st),
        cstep(s, st).code.len() <= usize::MAX,
    ensures
        !cstep(s, st).err ==> st_wf(cstep(s, st)),
{
    let r = cstep(s, st);
    match st.cur.kind {
        TokenKind::Plus => lemma_wf_sized_code(s, st, OP_INCREMENT_SINGULAR, OP_INCREMENT),
        TokenKind::Minus => lemma_wf_sized_code(s, st, OP_DECREMENT_SINGULAR, OP_DECREMENT),
        TokenKind::LeftAngle => lemma_wf_sized_constant(s, st, OP_SHIFT_LEFT, OP_MOVE_LEFT),
        TokenKind::RightAngle => lemma_wf_sized_constant(s, st, OP_SHIFT_RIGHT, OP_MOVE_RIGHT),
        TokenKind::Dot => lemma_wf_sized_constant(s, st, OP_PRINT, OP_PRINT_RANGE),
        TokenKind::Comma => lemma_wf_input(s, st),
        TokenKind::Hash => lemma_wf_replace(s, st),
        TokenKind::At => lemma_wf_set_pointer(s, st),
        TokenKind::LeftBrace => lemma_wf_define_tape(s, st),
        TokenKind::LeftBracket => lemma_wf_open_loop(s, st),
        TokenKind::RightBracket => lemma_wf_close_loop(s, st),
        TokenKind::Str => lemma_wf_string(s, st),
        _ => {
            assert(r.code == st.code);
        },
    }
}

impl Parser {
    /// Internal invariant: the scanner stays in bounds, the line table
    /// parallels the code, every open loop's reserved offset bytes lie
    /// between the protected prefix and the end of the code, the error
    /// latch and stored diagnostic agree, and an error-free compiler has
    /// never overflowed the constant pool.
    pub open spec fn wf(&self) -> bool {
        &&& scanner_wf(self.scanner)
        &&& self.chunk@.lines.len() == self.chunk@.code.len()
        &&& self.base@ <= self.chunk@.code.len()
        &&& forall|i: int|
            0 <= i < self.loops@.len() ==> {
                &&& self.base@ <= (#[trigger] self.loops@[i]).patch
                &&& self.loops@[i].patch + 2 <= self.chunk@.code.len()
                &&& self.loops@[i].start <= self.chunk@.code.len()
            }
        &&& self.had_error == self.panic_mode
        &&& self.had_error == (self.err is Some)
        &&& (!self.had_error ==> self.chunk@.constants.len() <= 256)
    }

    /// The compiler's state as [`CState`] models it.
    pub open spec fn cstate(&self) -> CState {
        CState {
            pos: self.scanner.pos as int,
            cur: CTok {
                kind: self.current.kind,
                val: self.current.value,
                text: self.current.text@,
                line: self.current.line,
            },
            prev_line: self.previous.line,
            code: self.chunk@.code,
            constants: self.chunk@.constants,
            lines: self.chunk@.lines,
            frames: self.loops@,
            err: self.had_error,
        }
    }

    /// Progress measure for the token stream: how much source is left,
    /// plus one while the lookahead still holds a significant token.
    pub open spec fn measure(&self) -> int {
        2 * (self.scanner.source@.len() - self.scanner.pos) + if self.current.kind
            == TokenKind::Eof {
            0int
        } else {
            1int
        }
    }

    /// What [`Parser::advance`] does: `previous` takes the old lookahead,
    /// `current` takes the first significant token from the scanner (with
    /// its decimal value or string payload), every skipped `Error` token
    /// latches a diagnostic, and nothing else changes.
    pub open spec fn adv_rel(a: Parser, b: Parser) -> bool {
        let s = a.scanner.source@;
        let p = a.scanner.pos as int;
        &&& b.scanner.source@ == s
        &&& b.chunk == a.chunk
        &&& b.loops == a.loops
        &&& b.base == a.base
        &&& b.previous == a.current
        &&& b.current.kind == first_sig_kind(s, p)
        &&& b.scanner.pos == after_sig(s, p)
        &&& (b.current.kind == TokenKind::Integer ==> b.current.value == sig_int_val(s, p))
        &&& (b.current.kind == TokenKind::Str ==> b.current.text@ == s.subrange(
            skip_insig(s, p) + 1,
            str_end(s, skip_insig(s, p) + 1),
        ))
        &&& tok_is(b.current, sig_tok(s, p))
        &&& b.cstate() == st_advance(s, a.cstate())
        &&& b.had_error == (a.had_error || skipped_error(s, p))
        &&& b.panic_mode == (a.panic_mode || skipped_error(s, p))
        &&& b.measure() <= a.measure()
        &&& (a.current.kind != TokenKind::Eof ==> b.measure() < a.measure())
    }

    /// A fresh compiler over `scanner`, emitting into `chunk`.
    pub fn new(scanner: Scanner, chunk: Chunk) -> (p: Parser)
        ensures
            p.scanner == scanner,
            p.chunk == chunk,
            p.previous.kind == TokenKind::Empty,
            p.current.kind == TokenKind::Empty,
            p.previous.value == 0,
            p.previous.text@ == Seq::<u8>::empty(),
            p.previous.line == 0,
            p.current.value == 0,
            p.current.text@ == Seq::<u8>::empty(),
            p.current.line == 0,
            !p.had_error,
            !p.panic_mode,
            p.err is None,
            p.loops@.len() == 0,
            p.base@ == 0,
    {
        Parser {
            scanner,
            chunk,
            previous: Token::empty(),
            current: Token::empty(),
            had_error: false,
            panic_mode: false,
            err: None,
            loops: Vec::new(),
            base: Ghost(0),
        }
    }

    /// Latches a diagnostic: outside panic mode it records exactly the
    /// given line and kind as the run's first error and sets the latch;
    /// inside it, it changes nothing, so one malformed construct yields
    /// one primary diagnostic per run.
    fn error_at(&mut self, line: u32, kind: CompileErrorKind)
        requires
            old(self).had_error == old(self).panic_mode,
            old(self).had_error == (old(self).err is Some),
        ensures
            final(self).had_error == final(self).panic_mode,
            final(self).had_error == (final(self).err is Some),
            !old(self).panic_mode ==> final(self).err == Some(CompileError { line, kind }),
            old(self).panic_mode ==> final(self).err == old(self).err,
            final(self).scanner == old(self).scanner,
            final(self).chunk == old(self).chunk,
            final(self).loops == old(self).loops,
            final(self).base == old(self).base,
            final(self).previous == old(self).previous,
            final(self).current == old(self).current,
            final(self).had_error,
            final(self).panic_mode,
    {
        if self.panic_mode {
            return;
        }
        self.panic_mode = true;
        self.had_error = true;
        self.err = Some(CompileError { line, kind });
    }

    /// Moves the lookahead forward: the old `current` becomes `previous`,
    /// and the next significant token becomes `current`, with `Ignore`
    /// tokens skipped silently and `Error` tokens reported and skipped.
    fn advance(&mut self)
        requires
            old(self).wf(),
        ensures
            final(self).wf(),
            Parser::adv_rel(*old(self), *final(self)),
    {
        let ghost src = self.scanner.source@;
        let ghost p0 = self.scanner.pos as int;
        std::mem::swap(&mut self.current, &mut self.previous);
        proof {
            lemma_tok_next_bounds(src, p0);
        }
        let ghost mut ts: int = p0;
        let ghost mut seen: bool = false;
        let mut t = self.scanner.scan_token();
        while t.kind == TokenKind::Ignore || t.kind == TokenKind::Error
            invariant
                old(self).wf(),
                scanner_wf(self.scanner),
                self.scanner.source@ == src,
                self.chunk == old(self).chunk,
                self.loops == old(self).loops,
                self.base == old(self).base,
                self.previous == old(self).current,
                0 <= ts <= src.len(),
                t.kind == crate::scanner::tok_kind_at(src, ts),
                self.scanner.pos == tok_next(src, ts),
                t.kind == TokenKind::Integer ==> t.value == digits_val(src, ts, digits_end(src, ts)),
                t.kind == TokenKind::Str ==> t.text@ == src.subrange(ts + 1, str_end(src, ts + 1)),
                t.kind != TokenKind::Integer ==> t.value == 0,
                t.kind != TokenKind::Str ==> t.text@ == Seq::<u8>::empty(),
                t.line == line_no(src, tok_next(src, ts)),
                skip_insig(src, p0) == skip_insig(src, ts),
                skipped_error(src, p0) == (seen || skipped_error(src, ts)),
                self.had_error == (old(self).had_error || seen),
                self.panic_mode == (old(self).panic_mode || seen),
                self.had_error == self.panic_mode,
                self.had_error == (self.err is Some),
                ts >= p0,
            decreases src.len() - ts,
        {
            if t.kind == TokenKind::Error {
                let line = t.line;
                self.error_at(line, CompileErrorKind::UnexpectedToken);
                proof {
                    seen = true;
                }
            }
            proof {
                lemma_tok_next_bounds(src, ts);
                ts = tok_next(src, ts);
                lemma_tok_next_bounds(src, ts);
            }
            t = self.scanner.scan_token();
        }
        self.current = t;
        proof {
            lemma_skip_insig_bounds(src, p0);
            assert(skip_insig(src, ts) == ts);
            assert(self.scanner.pos == after_sig(src, p0));
            assert(tok_is(self.current, sig_tok(src, p0)));
            assert(self.cstate() =~= st_advance(src, old(self).cstate()));
            lemma_tok_next_bounds(src, ts);
            if old(self).current.kind != TokenKind::Eof {
                if ts < src.len() {
                    assert(self.scanner.pos > ts >= p0);
                } else {
                    assert(self.current.kind == TokenKind::Eof);
                    assert(self.scanner.pos == tok_next(src, ts) == ts);
                }
            }
        }
    }

    /// Consumes the lookahead when it has kind `kind` and says so.
    fn matches_kind(&mut self, kind: TokenKind) -> (r: bool)
        requires
            old(self).wf(),
        ensures
            final(self).wf(),
            r == (old(self).current.kind == kind),
            r ==> Parser::adv_rel(*old(self), *final(self)),
            !r ==> *final(self) == *old(self),
    {
        if self.current.kind == kind {
            self.advance();
            true
        } else {
            false
        }
    }

    /// Consumes the lookahead when it has kind `kind`; otherwise latches
    /// the given diagnostic and leaves the token stream where it is.
    fn consume(&mut self, kind: TokenKind, ek: CompileErrorKind)
        requires
            old(self).wf(),
        ensures
            final(self).wf(),
            old(self).current.kind == kind ==> Parser::adv_rel(*old(self), *final(self)),
            old(self).current.kind != kind ==> {
                &&& final(self).scanner == old(self).scanner
                &&& final(self).chunk == old(self).chunk
                &&& final(self).loops == old(self).loops
                &&& final(self).base == old(self).base
                &&& final(self).previous == old(self).previous
                &&& final(self).current == old(self).current
                &&& final(self).had_error
                &&& final(self).cstate() == st_err(old(self).cstate())
            },
    {
        if self.current.kind == kind {
            self.advance();
        } else {
            let line = self.current.line;
            self.error_at(line, ek);
        }
    }

    /// Appends one code byte, tagged with the line of the token that
    /// produced it.
    fn emit_byte(&mut self, byte: u8)
        requires
            old(self).wf(),
        ensures
            final(self).wf(),
            final(self).chunk@.code == old(self).chunk@.code.push(byte),
            final(self).chunk@.lines == old(self).chunk@.lines.push(old(self).previous.line),
            final(self).chunk@.constants == old(self).chunk@.constants,
            final(self).scanner == old(self).scanner,
            final(self).loops == old(self).loops,
            final(self).base == old(self).base,
            final(self).previous == old(self).previous,
            final(self).current == old(self).current,
            final(self).had_error == old(self).had_error,
            final(self).measure() == old(self).measure(),
            final(self).cstate() == st_emit(old(self).cstate(), byte),
    {
        let line = self.previous.line;
        self.chunk.write_chunk(byte, line);
        proof {
            assert(self.cstate() =~= st_emit(old(self).cstate(), byte));
        }
    }

    /// Appends an opcode byte.
    fn emit_op(&mut self, op: OpCode)
        requires
            old(self).wf(),
        ensures
            final(self).wf(),
            final(self).chunk@.code == old(self).chunk@.code.push(spec_opcode_byte(op)),
            final(self).chunk@.lines == old(self).chunk@.lines.push(old(self).previous.line),
            final(self).chunk@.constants == old(self).chunk@.constants,
            final(self).scanner == old(self).scanner,
            final(self).loops == old(self).loops,
            final(self).base == old(self).base,
            final(self).previous == old(self).previous,
            final(self).current == old(self).current,
            final(self).had_error == old(self).had_error,
            final(self).measure() == old(self).measure(),
            final(self).cstate() == st_emit(old(self).cstate(), spec_opcode_byte(op)),
    {
        let b = opcode_byte(op);
        self.emit_byte(b);
    }

    /// Adds `value` to the constant pool and emits `Constant` with the new
    /// entry's index; an index past one byte latches an error (and the
    /// emitted operand byte is the index truncated, as a latched error
    /// discards the chunk).
    fn emit_constant(&mut self, value: Value)
        requires
            old(self).wf(),
        ensures
            final(self).wf(),
            final(self).chunk@.constants == old(self).chunk@.constants.push(value@),
            final(self).chunk@.code == old(self).chunk@.code.push(OP_CONSTANT).push(
                (old(self).chunk@.constants.len() % 256) as u8,
            ),
            final(self).scanner == old(self).scanner,
            final(self).loops == old(self).loops,
            final(self).base == old(self).base,
            final(self).previous == old(self).previous,
            final(self).current == old(self).current,
            final(self).chunk@.lines == old(self).chunk@.lines.push(old(self).previous.line).push(
                old(self).previous.line,
            ),
            old(self).chunk@.constants.len() <= 255 ==> final(self).had_error == old(self).had_error,
            old(self).chunk@.constants.len() > 255 ==> final(self).had_error,
            final(self).measure() == old(self).measure(),
            final(self).cstate() == st_emit_const(old(self).cstate(), value@),
    {
        let idx = self.chunk.add_constant(value);
        if idx > 255 {
            let line = self.previous.line;
            self.error_at(line, CompileErrorKind::TooManyConstants);
        }
        self.emit_byte(OP_CONSTANT);
        self.emit_byte((idx % 256) as u8);
        proof {
            assert(self.cstate() =~= st_emit_const(old(self).cstate(), value@));
        }
    }

    /// Counted form whose count rides inline: for `+` and `-`. With no
    /// count, emits the one-byte singular opcode; with a count of 0 to 255,
    /// emits the counted opcode followed by the raw count byte; a larger
    /// count is a compile error and emits nothing.
    fn sized_code(&mut self, one: OpCode, many: OpCode)
        requires
            old(self).wf(),
            old(self).current.kind != TokenKind::Eof,
        ensures
            final(self).wf(),
            extends(*old(self), *final(self)),
            final(self).loops == old(self).loops,
            final(self).measure() < old(self).measure(),
            ({
                let s = old(self).scanner.source@;
                let p = old(self).scanner.pos as int;
                let k1 = first_sig_kind(s, p);
                let v = sig_int_val(s, p);
                &&& (k1 != TokenKind::Integer ==> final(self).chunk@.code == old(self).chunk@.code.push(spec_opcode_byte(one)) && final(self).chunk@.constants == old(self).chunk@.constants)
                &&& (k1 == TokenKind::Integer && v <= 255 ==> final(self).chunk@.code == old(self).chunk@.code.push(spec_opcode_byte(many)).push(v as u8) && final(self).chunk@.constants == old(self).chunk@.constants)
                &&& (k1 == TokenKind::Integer && v > 255 ==> final(self).chunk@.code == old(self).chunk@.code && final(self).had_error)
            }),
            final(self).cstate() == st_sized_code(
                old(self).scanner.source@,
                old(self).cstate(),
                spec_opcode_byte(one),
                spec_opcode_byte(many),
            ),
    {
        let ghost s = self.scanner.source@;
        let ghost st0 = self.cstate();
        self.advance();
        let ghost a1 = self.cstate();
        if self.matches_kind(TokenKind::Integer) {
            let ghost a2 = self.cstate();
            let size = self.previous.value;
            if size > 255 {
                let line = self.current.line;
                self.error_at(line, CompileErrorKind::CountRange);
                proof {
                    assert(self.cstate() =~= st_err(a2));
                }
                return;
            }
            self.emit_op(many);
            self.emit_byte(size as u8);
            proof {
                assert(self.cstate() =~= st_emit(st_emit(a2, spec_opcode_byte(many)), (a1.cur.val as u8)));
            }
        } else {
            self.emit_op(one);
            proof {
                assert(self.cstate() =~= st_emit(a1, spec_opcode_byte(one)));
            }
        }
    }

    /// Counted form whose count rides in the constant pool: for `<`, `>`
    /// and `.`. With no count, emits the one-byte opcode; with a count,
    /// emits `Constant(count)` followed by the pool-consuming opcode.
    fn sized_constant(&mut self, one: OpCode, many: OpCode)
        requires
            old(self).wf(),
            old(self).current.kind != TokenKind::Eof,
        ensures
            final(self).wf(),
            extends(*old(self), *final(self)),
            final(self).loops == old(self).loops,
            final(self).measure() < old(self).measure(),
            ({
                let s = old(self).scanner.source@;
                let p = old(self).scanner.pos as int;
                let k1 = first_sig_kind(s, p);
                let v = sig_int_val(s, p);
                &&& (k1 != TokenKind::Integer ==> final(self).chunk@.code == old(self).chunk@.code.push(spec_opcode_byte(one)) && final(self).chunk@.constants == old(self).chunk@.constants)
                &&& (k1 == TokenKind::Integer ==> final(self).chunk@.constants == old(self).chunk@.constants.push(ValueModel::Int(v as u32)) && final(self).chunk@.code
                    == old(self).chunk@.code.push(OP_CONSTANT).push(
                    (old(self).chunk@.constants.len() % 256) as u8,
                ).push(spec_opcode_byte(many)))
            }),
            final(self).cstate() == st_sized_constant(
                old(self).scanner.source@,
                old(self).cstate(),
                spec_opcode_byte(one),
                spec_opcode_byte(many),
            ),
    {
        let ghost s = self.scanner.source@;
        let ghost st0 = self.cstate();
        self.advance();
        let ghost a1 = self.cstate();
        if self.matches_kind(TokenKind::Integer) {
            let ghost a2 = self.cstate();
            let size = self.previous.value;
            self.emit_constant(Value::Int(size));
            self.emit_op(many);
            proof {
                assert(self.cstate() =~= st_emit(
                    st_emit_const(a2, ValueModel::Int(a1.cur.val)),
                    spec_opcode_byte(many),
                ));
            }
        } else {
            self.emit_op(one);
            proof {
                assert(self.cstate() =~= st_emit(a1, spec_opcode_byte(one)));
            }
        }
    }

    /// The `,` input form: without a `*` modifier it emits `Input`; it then
    /// always emits `MultiInput` with a one-byte flag field whose bit 0 is
    /// set when a `^` modifier follows.
    fn input_expression(&mut self)
        requires
            old(self).wf(),
            old(self).current.kind != TokenKind::Eof,
        ensures
            final(self).wf(),
            extends(*old(self), *final(self)),
            final(self).loops == old(self).loops,
            final(self).measure() < old(self).measure(),
            final(self).chunk@.constants == old(self).chunk@.constants,
            ({
                let s = old(self).scanner.source@;
                let p = old(self).scanner.pos as int;
                let k1 = first_sig_kind(s, p);
                let k2 = first_sig_kind(s, after_sig(s, p));
                &&& (k1 == TokenKind::Star ==> final(self).chunk@.code == old(self).chunk@.code.push(spec_opcode_byte(OpCode::MultiInput)).push(
                    if k2 == TokenKind::Caret {
                        1u8
                    } else {
                        0u8
                    },
                ))
                &&& (k1 != TokenKind::Star ==> final(self).chunk@.code == old(self).chunk@.code.push(spec_opcode_byte(OpCode::Input)).push(
                    spec_opcode_byte(OpCode::MultiInput),
                ).push(
                    if k1 == TokenKind::Caret {
                        1u8
                    } else {
                        0u8
                    },
                ))
            }),
            final(self).cstate() == st_input(old(self).scanner.source@, old(self).cstate()),
    {
        let ghost s = self.scanner.source@;
        let ghost st0 = self.cstate();
        self.advance();
        if !self.matches_kind(TokenKind::Star) {
            self.emit_op(OpCode::Input);
        }
        self.emit_op(OpCode::MultiInput);
        let flag: u8 = if self.matches_kind(TokenKind::Caret) {
            1
        } else {
            0
        };
        self.emit_byte(flag);
        proof {
            assert(self.cstate() =~= st_input(s, st0));
        }
    }

    /// The `#N` literal write: requires an integer 0 to 255 and emits
    /// `WriteCell` with the raw byte; anything else is a compile error.
    fn replace_current(&mut self)
        requires
            old(self).wf(),
            old(self).current.kind != TokenKind::Eof,
        ensures
            final(self).wf(),
            extends(*old(self), *final(self)),
            final(self).loops == old(self).loops,
            final(self).measure() < old(self).measure(),
            final(self).chunk@.constants == old(self).chunk@.constants,
            ({
                let s = old(self).scanner.source@;
                let p = old(self).scanner.pos as int;
                let k1 = first_sig_kind(s, p);
                let v = sig_int_val(s, p);
                &&& (k1 == TokenKind::Integer && v <= 255 ==> final(self).chunk@.code == old(self).chunk@.code.push(spec_opcode_byte(OpCode::WriteCell)).push(v as u8))
                &&& (k1 == TokenKind::Integer && v > 255 ==> final(self).chunk@.code == old(self).chunk@.code && final(self).had_error)
                &&& (k1 != TokenKind::Integer ==> final(self).chunk@.code == old(self).chunk@.code
                    && final(self).had_error)
            }),
            final(self).cstate() == st_replace(old(self).scanner.source@, old(self).cstate()),
    {
        let ghost s = self.scanner.source@;
        let ghost st0 = self.cstate();
        self.advance();
        let ghost a1 = self.cstate();
        if self.current.kind == TokenKind::Integer {
            self.advance();
            let ghost a2 = self.cstate();
            let value = self.previous.value;
            if value > 255 {
                let line = self.previous.line;
                self.error_at(line, CompileErrorKind::WriteCellRange);
                proof {
                    assert(self.cstate() =~= st_err(a2));
                }
                return;
            }
            self.emit_op(OpCode::WriteCell);
            self.emit_byte(value as u8);
            proof {
                assert(self.cstate() =~= st_emit(
                    st_emit(a2, spec_opcode_byte(OpCode::WriteCell)),
                    (a1.cur.val as u8),
                ));
            }
        } else {
            let line = self.current.line;
            self.error_at(line, CompileErrorKind::ExpectIntegerAfterHash);
            proof {
                assert(self.cstate() =~= st_err(a1));
            }
        }
    }

    /// The `@N` absolute seek: requires an integer (32-bit range) and emits
    /// `Constant(N)` then `SetPointer`.
    fn set_pointer_expression(&mut self)
        requires
            old(self).wf(),
            old(self).current.kind != TokenKind::Eof,
        ensures
            final(self).wf(),
            extends(*old(self), *final(self)),
            final(self).loops == old(self).loops,
            final(self).measure() < old(self).measure(),
            ({
                let s = old(self).scanner.source@;
                let p = old(self).scanner.pos as int;
                let k1 = first_sig_kind(s, p);
                let v = sig_int_val(s, p);
                &&& (k1 == TokenKind::Integer ==> final(self).chunk@.constants == old(self).chunk@.constants.push(ValueModel::Int(v as u32)) && final(self).chunk@.code
                    == old(self).chunk@.code.push(OP_CONSTANT).push(
                    (old(self).chunk@.constants.len() % 256) as u8,
                ).push(spec_opcode_byte(OpCode::SetPointer)))
                &&& (k1 != TokenKind::Integer ==> final(self).chunk@.code == old(self).chunk@.code
                    && final(self).chunk@.constants == old(self).chunk@.constants && final(self).had_error)
            }),
            final(self).cstate() == st_set_pointer(old(self).scanner.source@, old(self).cstate()),
    {
        let ghost s = self.scanner.source@;
        let ghost st0 = self.cstate();
        self.advance();
        let ghost a1 = self.cstate();
        if self.current.kind == TokenKind::Integer {
            self.advance();
            let ghost a2 = self.cstate();
            let value = self.previous.value;
            self.emit_constant(Value::Int(value));
            self.emit_op(OpCode::SetPointer);
            proof {
                assert(self.cstate() =~= st_emit(
                    st_emit_const(a2, ValueModel::Int(a1.cur.val)),
                    spec_opcode_byte(OpCode::SetPointer),
                ));
            }
        } else {
            let line = self.current.line;
            self.error_at(line, CompileErrorKind::ExpectIntegerAfterAt);
            proof {
                assert(self.cstate() =~= st_err(a1));
            }
        }
    }

    /// The `{N}` tape definition: requires an integer and a closing brace
    /// and emits `Constant(N)` then `DefineTape`.
    fn define_tape(&mut self)
        requires
            old(self).wf(),
            old(self).current.kind != TokenKind::Eof,
        ensures
            final(self).wf(),
            extends(*old(self), *final(self)),
            final(self).loops == old(self).loops,
            final(self).measure() < old(self).measure(),
            ({
                let s = old(self).scanner.source@;
                let p = old(self).scanner.pos as int;
                let k1 = first_sig_kind(s, p);
                let v = sig_int_val(s, p);
                &&& (k1 == TokenKind::Integer ==> final(self).chunk@.constants == old(self).chunk@.constants.push(ValueModel::Int(v as u32)) && final(self).chunk@.code
                    == old(self).chunk@.code.push(OP_CONSTANT).push(
                    (old(self).chunk@.constants.len() % 256) as u8,
                ).push(spec_opcode_byte(OpCode::DefineTape)))
                &&& (k1 != TokenKind::Integer ==> final(self).chunk@.code == old(self).chunk@.code
                    && final(self).chunk@.constants == old(self).chunk@.constants && final(self).had_error)
            }),
            final(self).cstate() == st_define_tape(old(self).scanner.source@, old(self).cstate()),
    {
        let ghost s = self.scanner.source@;
        let ghost st0 = self.cstate();
        self.advance();
        let ghost a1 = self.cstate();
        if self.current.kind == TokenKind::Integer {
            self.advance();
            let ghost a2 = self.cstate();
            let size = self.previous.value;
            self.emit_constant(Value::Int(size));
            self.emit_op(OpCode::DefineTape);
            let ghost e = self.cstate();
            proof {
                assert(e =~= st_emit(
                    st_emit_const(a2, ValueModel::Int(a1.cur.val)),
                    spec_opcode_byte(OpCode::DefineTape),
                ));
            }
            self.consume(TokenKind::RightBrace, CompileErrorKind::ExpectRightBrace);
            proof {
                assert(self.cstate() =~= st_define_tape(s, st0));
            }
        } else {
            let line = self.current.line;
            self.error_at(line, CompileErrorKind::ExpectIntegerAfterBrace);
            proof {
                assert(self.cstate() =~= st_err(a1));
            }
        }
    }

    /// A string literal: emits `Constant(string)` then `WriteString`; a
    /// following `$` additionally emits `Constant(length)` + `PrintRange`,
    /// and a following `^` additionally emits `Constant(length)` +
    /// `MoveRight` — independent, order-fixed modifiers, each optional.
    pub fn string(&mut self)
        requires
            old(self).wf(),
            old(self).current.kind == TokenKind::Str,
        ensures
            final(self).wf(),
            extends(*old(self), *final(self)),
            final(self).loops == old(self).loops,
            final(self).measure() < old(self).measure(),
            ({
                let s = old(self).scanner.source@;
                let p = old(self).scanner.pos as int;
                let text = old(self).current.text@;
                let l = ValueModel::Int(text.len() as u32);
                let n0 = old(self).chunk@.constants.len() as int;
                let k1 = first_sig_kind(s, p);
                let k2 = first_sig_kind(s, after_sig(s, p));
                let c0 = old(self).chunk@.code.push(OP_CONSTANT).push((n0 % 256) as u8).push(
                    spec_opcode_byte(OpCode::WriteString),
                );
                let c1p = c0.push(OP_CONSTANT).push(((n0 + 1) % 256) as u8).push(
                    spec_opcode_byte(OpCode::PrintRange),
                );
                let base0 = old(self).chunk@.constants.push(ValueModel::Str(text));
                &&& (k1 == TokenKind::Dollar && k2 == TokenKind::Caret ==> final(self).chunk@.code == c1p.push(OP_CONSTANT).push(((n0 + 2) % 256) as u8).push(
                    spec_opcode_byte(OpCode::MoveRight),
                ) && final(self).chunk@.constants == base0.push(l).push(l))
                &&& (k1 == TokenKind::Dollar && k2 != TokenKind::Caret ==> final(self).chunk@.code == c1p && final(self).chunk@.constants == base0.push(l))
                &&& (k1 == TokenKind::Caret ==> final(self).chunk@.code == c0.push(
                    OP_CONSTANT,
                ).push(((n0 + 1) % 256) as u8).push(spec_opcode_byte(OpCode::MoveRight)) && final(self).chunk@.constants == base0.push(l))
                &&& (k1 != TokenKind::Dollar && k1 != TokenKind::Caret ==> final(self).chunk@.code == c0 && final(self).chunk@.constants == base0)
            }),
            final(self).cstate() == st_string(old(self).scanner.source@, old(self).cstate()),
    {
        let ghost s = self.scanner.source@;
        let ghost st0 = self.cstate();
        let text = crate::chunk::copy_bytes(&self.current.text);
        let length = text.len();
        self.emit_constant(Value::Str(text));
        self.emit_op(OpCode::WriteString);
        proof {
            assert(self.cstate() =~= st_emit(
                st_emit_const(st0, ValueModel::Str(st0.cur.text)),
                spec_opcode_byte(OpCode::WriteString),
            ));
        }
        self.advance();
        let ghost a1 = self.cstate();
        if self.matches_kind(TokenKind::Dollar) {
            let ghost a2 = self.cstate();
            self.emit_constant(Value::Int(length as u32));
            self.emit_op(OpCode::PrintRange);
            proof {
                assert(self.cstate() =~= st_emit(
                    st_emit_const(a2, ValueModel::Int(st0.cur.text.len() as u32)),
                    spec_opcode_byte(OpCode::PrintRange),
                ));
            }
        }
        let ghost afterd = self.cstate();
        if self.matches_kind(TokenKind::Caret) {
            let ghost a3 = self.cstate();
            self.emit_constant(Value::Int(length as u32));
            self.emit_op(OpCode::MoveRight);
            proof {
                assert(self.cstate() =~= st_emit(
                    st_emit_const(a3, ValueModel::Int(st0.cur.text.len() as u32)),
                    spec_opcode_byte(OpCode::MoveRight),
                ));
            }
        }
        proof {
            assert(self.cstate() =~= st_string(s, st0));
        }
    }

    /// A `[`: records the loop start, emits a placeholder `JumpIfZero`
    /// whose two forward-offset bytes are reserved as 0xFFFF, and leaves
    /// the frame open for the matching `]` to backpatch.
    fn open_loop(&mut self)
        requires
            old(self).wf(),
            old(self).current.kind == TokenKind::LeftBracket,
        ensures
            final(self).wf(),
            extends(*old(self), *final(self)),
            final(self).measure() < old(self).measure(),
            final(self).chunk@.constants == old(self).chunk@.constants,
            final(self).chunk@.code == old(self).chunk@.code.push(
                spec_opcode_byte(OpCode::JumpIfZero),
            ).push(255).push(255),
            final(self).loops@ == old(self).loops@.push(
                LoopFrame {
                    start: old(self).chunk@.code.len() as usize,
                    patch: (old(self).chunk@.code.len() + 1) as usize,
                },
            ),
            final(self).cstate() == st_open_loop(old(self).scanner.source@, old(self).cstate()),
    {
        let ghost s = self.scanner.source@;
        let ghost st0 = self.cstate();
        let start = self.chunk.code.len();
        self.emit_op(OpCode::JumpIfZero);
        self.emit_byte(255);
        self.emit_byte(255);
        let patch = self.chunk.code.len() - 2;
        self.loops.push(LoopFrame { start, patch });
        proof {
            let fr = LoopFrame { start: st0.code.len() as usize, patch: (st0.code.len() + 1) as usize };
            assert(self.cstate() =~= CState {
                frames: st0.frames.push(fr),
                ..st_emit(st_emit(st_emit(st0, spec_opcode_byte(OpCode::JumpIfZero)), 255), 255)
            });
        }
        self.advance();
        proof {
            assert(self.cstate() =~= st_open_loop(s, st0));
        }
    }

    /// Emits the `Loop` instruction with its two-byte big-endian backward
    /// offset, measured from the end of the operand back to the loop's
    /// `JumpIfZero`; an offset past 16 bits is a compile error (the
    /// truncated bytes are still emitted, as a latched error discards the
    /// chunk).
    fn emit_loop_back(&mut self, start: usize)
        requires
            old(self).wf(),
            start <= old(self).chunk@.code.len(),
        ensures
            final(self).wf(),
            final(self).scanner == old(self).scanner,
            final(self).current == old(self).current,
            final(self).loops == old(self).loops,
            final(self).base == old(self).base,
            final(self).measure() == old(self).measure(),
            final(self).chunk@.constants == old(self).chunk@.constants,
            ({
                let off = (old(self).chunk@.code.len() + 3 - start) % 65536;
                final(self).chunk@.code == old(self).chunk@.code.push(
                    spec_opcode_byte(OpCode::Loop),
                ).push((off / 256) as u8).push((off % 256) as u8)
            }),
            old(self).chunk@.code.len() + 3 - start > 65535 ==> final(self).had_error,
            old(self).chunk@.code.len() + 3 - start <= 65535 ==> final(self).had_error == old(self).had_error,
            final(self).previous == old(self).previous,
            final(self).chunk@.lines == old(self).chunk@.lines.push(old(self).previous.line).push(
                old(self).previous.line,
            ).push(old(self).previous.line),
            final(self).cstate() == st_loop_back(old(self).cstate(), start as int),
    {
        let ghost st0 = self.cstate();
        self.emit_op(OpCode::Loop);
        let diff = self.chunk.code.len() - start;
        if diff > 65533 {
            let line = self.previous.line;
            self.error_at(line, CompileErrorKind::LoopTooLarge);
        }
        let om = ((diff % 65536) + 2) % 65536;
        proof {
            vstd::arithmetic::div_mod::lemma_add_mod_noop(diff as int, 2, 65536);
            assert(2int % 65536 == 2);
            assert(om == (diff + 2) % 65536);
        }
        self.emit_byte((om / 256) as u8);
        self.emit_byte((om % 256) as u8);
        proof {
            assert(self.cstate() =~= st_loop_back(st0, start as int));
        }
    }

    /// Backpatches a reserved forward offset: writes the big-endian
    /// distance from the end of the offset bytes to the current end of
    /// code; a distance past 16 bits is a compile error.
    fn patch_jump(&mut self, patch: usize)
        requires
            old(self).wf(),
            old(self).base@ <= patch,
            patch + 2 <= old(self).chunk@.code.len(),
        ensures
            final(self).wf(),
            final(self).scanner == old(self).scanner,
            final(self).current == old(self).current,
            final(self).loops == old(self).loops,
            final(self).base == old(self).base,
            final(self).measure() == old(self).measure(),
            final(self).chunk@.constants == old(self).chunk@.constants,
            ({
                let j = (old(self).chunk@.code.len() - patch - 2) % 65536;
                final(self).chunk@.code == old(self).chunk@.code.update(
                    patch as int,
                    (j / 256) as u8,
                ).update(patch + 1, (j % 256) as u8)
            }),
            old(self).chunk@.code.len() - patch - 2 > 65535 ==> final(self).had_error,
            old(self).chunk@.code.len() - patch - 2 <= 65535 ==> final(self).had_error == old(self).had_error,
            final(self).previous == old(self).previous,
            final(self).chunk@.lines == old(self).chunk@.lines,
            final(self).cstate() == st_patch(old(self).cstate(), patch as int),
    {
        let ghost st0 = self.cstate();
        let jump = self.chunk.code.len() - patch - 2;
        if jump > 65535 {
            let line = self.previous.line;
            self.error_at(line, CompileErrorKind::JumpTooLarge);
        }
        let jm = jump % 65536;
        self.chunk.patch_byte(patch, (jm / 256) as u8);
        self.chunk.patch_byte(patch + 1, (jm % 256) as u8);
        proof {
            assert(self.cstate() =~= st_patch(st0, patch as int));
        }
    }

    /// A `]`: closes the innermost open loop by emitting its backward
    /// `Loop` jump and backpatching its forward `JumpIfZero` offset; with
    /// no loop open it is a compile error.
    fn close_loop(&mut self)
        requires
            old(self).wf(),
            old(self).current.kind == TokenKind::RightBracket,
        ensures
            final(self).wf(),
            extends(*old(self), *final(self)),
            final(self).measure() < old(self).measure(),
            final(self).chunk@.constants == old(self).chunk@.constants,
            old(self).loops@.len() == 0 ==> final(self).loops@ == old(self).loops@ && final(self).chunk@.code == old(self).chunk@.code && final(self).had_error,
            old(self).loops@.len() > 0 ==> final(self).loops@ == old(self).loops@.drop_last() && ({
                let f = old(self).loops@.last();
                let off = (old(self).chunk@.code.len() + 3 - f.start) % 65536;
                let mid = old(self).chunk@.code.push(spec_opcode_byte(OpCode::Loop)).push(
                    (off / 256) as u8,
                ).push((off % 256) as u8);
                let j = (old(self).chunk@.code.len() + 3 - f.patch - 2) % 65536;
                final(self).chunk@.code == mid.update(f.patch as int, (j / 256) as u8).update(
                    f.patch + 1,
                    (j % 256) as u8,
                )
            }),
            final(self).cstate() == st_close_loop(old(self).scanner.source@, old(self).cstate()),
    {
        let ghost s = self.scanner.source@;
        let ghost st0 = self.cstate();
        match self.loops.pop() {
            Some(f) => {
                proof {
                    assert(self.cstate() =~= CState { frames: st0.frames.drop_last(), ..st0 });
                }
                self.emit_loop_back(f.start);
                self.patch_jump(f.patch);
                proof {
                    assert(self.cstate() =~= st_patch(
                        st_loop_back(CState { frames: st0.frames.drop_last(), ..st0 }, f.start as int),
                        f.patch as int,
                    ));
                }
            },
            None => {
                let line = self.current.line;
                self.error_at(line, CompileErrorKind::UnexpectedToken);
                proof {
                    assert(self.cstate() =~= st_err(st0));
                }
            },
        }
        self.advance();
        proof {
            assert(self.cstate() =~= st_close_loop(s, st0));
        }
    }

    /// Compiles one construct, dispatching on the lookahead's kind; a
    /// token that opens no construct is consumed and skipped.
    pub fn expression(&mut self)
        requires
            old(self).wf(),
        ensures
            final(self).wf(),
            extends(*old(self), *final(self)),
            final(self).measure() <= old(self).measure(),
            old(self).current.kind != TokenKind::Eof ==> final(self).measure() < old(self).measure(),
            final(self).cstate() == cstep(old(self).scanner.source@, old(self).cstate()),
    {
        match self.current.kind {
            TokenKind::Plus => self.sized_code(OpCode::IncrementSingular, OpCode::Increment),
            TokenKind::Minus => self.sized_code(OpCode::DecrementSingular, OpCode::Decrement),
            TokenKind::LeftAngle => self.sized_constant(OpCode::ShiftLeft, OpCode::MoveLeft),
            TokenKind::RightAngle => self.sized_constant(OpCode::ShiftRight, OpCode::MoveRight),
            TokenKind::Dot => self.sized_constant(OpCode::Print, OpCode::PrintRange),
            TokenKind::Comma => self.input_expression(),
            TokenKind::Hash => self.replace_current(),
            TokenKind::At => self.set_pointer_expression(),
            TokenKind::LeftBrace => self.define_tape(),
            TokenKind::LeftBracket => self.open_loop(),
            TokenKind::RightBracket => self.close_loop(),
            TokenKind::Str => self.string(),
            _ => self.advance(),
        }
    }

    /// Compiles the whole token stream into the chunk. A program that does
    /// not open with a `{N}` tape definition gets the default preamble
    /// `Constant(30000)` + `DefineTape`, so every program has a sized tape
    /// before its first cell access. A terminating `Return` is always
    /// emitted, and the result is true exactly when no error was latched;
    /// on failure the caller discards the partially built chunk. A chunk
    /// built without error is well formed: its code decodes cleanly and
    /// every embedded pool index is valid.
    pub fn compile(&mut self) -> (r: bool)
        requires
            old(self).wf(),
            old(self).scanner.pos == 0,
            old(self).chunk@.code.len() == 0,
            old(self).chunk@.constants.len() == 0,
            old(self).chunk@.lines.len() == 0,
            old(self).loops@.len() == 0,
            !old(self).had_error,
            !old(self).panic_mode,
            old(self).cstate() == init_cstate(),
        ensures
            final(self).wf(),
            r == !final(self).had_error,
            final(self).cstate() == spec_compile(old(self).scanner.source@),
            r == !spec_compile(old(self).scanner.source@).err,
            final(self).scanner.source@ == old(self).scanner.source@,
            final(self).chunk@.lines.len() == final(self).chunk@.code.len(),
            r ==> final(self).chunk@.constants.len() <= 256,
            r ==> chunk_wf(final(self).chunk@),
            final(self).chunk@.code.len() >= 1,
            final(self).chunk@.code.last() == crate::opcode::OP_RETURN,
            first_sig_kind(old(self).scanner.source@, 0) != TokenKind::LeftBrace ==> {
                &&& final(self).chunk@.code.len() >= 3
                &&& final(self).chunk@.code[0] == OP_CONSTANT
                &&& final(self).chunk@.code[1] == 0
                &&& final(self).chunk@.code[2] == crate::opcode::OP_DEFINE_TAPE
                &&& final(self).chunk@.constants.len() >= 1
                &&& final(self).chunk@.constants[0] == ValueModel::Int(30000)
            },
    {
        let ghost src = self.scanner.source@;
        self.advance();
        proof {
            assert(self.cstate() == st_advance(src, init_cstate()));
        }
        if !(self.current.kind == TokenKind::LeftBrace) {
            self.emit_constant(Value::Int(30000));
            self.emit_op(OpCode::DefineTape);
            proof {
                assert(self.chunk@.code =~= seq![OP_CONSTANT, 0u8, crate::opcode::OP_DEFINE_TAPE]);
                assert(self.cstate() =~= st_emit(
                    st_emit_const(st_advance(src, init_cstate()), ValueModel::Int(30000)),
                    crate::opcode::OP_DEFINE_TAPE,
                ));
            }
        }
        proof {
            let bst = self.cstate();
            if bst.code.len() == 0 {
                assert(code_ok_between(bst.code, 0, 0, bst.constants.len() as int));
            } else {
                lemma_between_instr(bst.code, 0, 2, 1);
                lemma_between_instr(bst.code, 2, 3, 1);
                lemma_between_trans(bst.code, 0, 2, 3, 1);
            }
            assert(st_wf(bst));
        }
        self.base = Ghost(self.chunk.code.len());
        let ghost bstate = self.cstate();
        let ghost fuel0: nat = 2 * src.len() + 2;
        let ghost mut fuel: nat = fuel0;
        while !(self.current.kind == TokenKind::Eof)
            invariant
                self.wf(),
                self.scanner.source@ == src,
                fuel >= self.measure(),
                run_steps(src, bstate, fuel0) == run_steps(src, self.cstate(), fuel),
                !self.had_error ==> st_wf(self.cstate()),
                first_sig_kind(src, 0) != TokenKind::LeftBrace ==> {
                    &&& self.base@ == 3
                    &&& self.chunk@.code.len() >= 3
                    &&& self.chunk@.code[0] == OP_CONSTANT
                    &&& self.chunk@.code[1] == 0
                    &&& self.chunk@.code[2] == crate::opcode::OP_DEFINE_TAPE
                    &&& self.chunk@.constants.len() >= 1
                    &&& self.chunk@.constants[0] == ValueModel::Int(30000)
                },
            decreases self.measure(),
        {
            let ghost pre = self.cstate();
            proof {
                assert(self.measure() >= 1);
                assert(fuel > 0);
                assert(run_steps(src, pre, fuel) == run_steps(src, cstep(src, pre), (fuel - 1) as nat));
            }
            self.expression();
            let cl: usize = self.chunk.code.len();
            proof {
                assert(self.cstate().code.len() == cl as int);
                lemma_step_wf(src, pre);
                fuel = (fuel - 1) as nat;
            }
        }
        proof {
            assert(run_steps(src, self.cstate(), fuel) == self.cstate());
        }
        let ghost fin = self.cstate();
        if self.loops.len() > 0 {
            let line = self.current.line;
            self.error_at(line, CompileErrorKind::UnclosedLoop);
            proof {
                assert(self.cstate() =~= st_err(fin));
            }
        }
        let ghost closed = self.cstate();
        self.emit_op(OpCode::Return);
        proof {
            assert(self.cstate() =~= st_emit(closed, crate::opcode::OP_RETURN));
            assert(self.cstate() =~= spec_compile(src));
            if !self.had_error {
                let n = closed.constants.len() as int;
                assert(st_wf(closed));
                assert(closed.frames.len() == 0);
                assert(self.cstate().code == closed.code.push(OP_RETURN));
                assert(self.cstate().code[closed.code.len() as int] == OP_RETURN);
                lemma_between_instr(
                    self.cstate().code,
                    closed.code.len() as int,
                    closed.code.len() as int + 1,
                    n,
                );
                lemma_build_append(closed.code, closed.frames, n, self.cstate().code, n);
                lemma_between_to_from(self.cstate().code, 0, n);
                assert(chunk_wf(self.chunk@));
            }
        }
        !self.had_error
    }

    /// Surrenders the built chunk.
    pub fn into_chunk(self) -> (c: Chunk)
        ensures
            c == self.chunk,
    {
        self.chunk
    }
}


/// Compiles source text to a chunk, or reports the first compile error:
/// the result is `Ok` exactly when compilation succeeds. A successful
/// chunk is well-formed (so it survives the serialization round trip),
/// ends in `Return`, and — whenever the program does not open with a
/// `{N}` tape definition — begins with the default `Constant(30000)` +
/// `DefineTape` preamble.
pub fn parse(program: Vec<u8>) -> (r: Result<Chunk, CompileError>)
    ensures
        ({
            let st = spec_compile(program@);
            let cm = ChunkModel { code: st.code, constants: st.constants, lines: st.lines };
            match r {
                Result::Ok(c) => !st.err && chunk_wf(cm) && c@ == cm,
                Result::Err(_) => st.err,
            }
        }),
        match r {
            Result::Ok(c) => {
                &&& chunk_wf(c@)
                &&& c@.code.len() >= 1
                &&& c@.code.last() == crate::opcode::OP_RETURN
                &&& (first_sig_kind(program@, 0) != TokenKind::LeftBrace ==> c@.code.len() >= 3
                    && c@.code[0] == OP_CONSTANT && c@.code[1] == 0 && c@.code[2]
                    == crate::opcode::OP_DEFINE_TAPE && c@.constants.len() >= 1 && c@.constants[0]
                    == ValueModel::Int(30000))
            },
            Result::Err(_) => true,
        },
{
    let scanner = Scanner::new(program);
    let chunk = Chunk::new();
    let mut p = Parser::new(scanner, chunk);
    proof {
        assert(p.cstate() =~= init_cstate());
    }
    let success = p.compile();
    let ghost st = spec_compile(program@);
    let ghost cm = ChunkModel { code: st.code, constants: st.constants, lines: st.lines };
    if success {
        let c = p.into_chunk();
        proof {
            assert(c@ =~= cm);
        }
        Result::Ok(c)
    } else {
        match p.err {
            Some(e) => Result::Err(e),
            None => Result::Err(
                CompileError { line: 0, kind: CompileErrorKind::UnexpectedToken },
            ),
        }
    }
}

} // verus!
