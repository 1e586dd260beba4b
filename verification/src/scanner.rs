use vstd::prelude::*;

use crate::token::{Token, TokenKind};

verus! {

/// Whether a byte is an ASCII decimal digit.
pub open spec fn is_digit(c: u8) -> bool {
    48 <= c <= 57
}

/// The kind of a single-character token: each of the fifteen operator
/// characters has its own kind, and every other byte is ignorable.
pub open spec fn op_kind(c: u8) -> TokenKind {
    if c == 43 {
        TokenKind::Plus
    } else if c == 45 {
        TokenKind::Minus
    } else if c == 60 {
        TokenKind::LeftAngle
    } else if c == 62 {
        TokenKind::RightAngle
    } else if c == 46 {
        TokenKind::Dot
    } else if c == 44 {
        TokenKind::Comma
    } else if c == 35 {
        TokenKind::Hash
    } else if c == 64 {
        TokenKind::At
    } else if c == 42 {
        TokenKind::Star
    } else if c == 36 {
        TokenKind::Dollar
    } else if c == 94 {
        TokenKind::Caret
    } else if c == 123 {
        TokenKind::LeftBrace
    } else if c == 125 {
        TokenKind::RightBrace
    } else if c == 91 {
        TokenKind::LeftBracket
    } else if c == 93 {
        TokenKind::RightBracket
    } else {
        TokenKind::Ignore
    }
}

/// The end of the maximal digit run starting at `i`.
pub open spec fn digits_end(s: Seq<u8>, i: int) -> int
    decreases s.len() - i when 0 <= i <= s.len()
{
    if i >= s.len() || !is_digit(s[i]) {
        i
    } else {
        digits_end(s, i + 1)
    }
}

/// The decimal value of the digits `s[i..j]`.
pub open spec fn digits_val(s: Seq<u8>, i: int, j: int) -> int
    decreases j - i,
{
    if j <= i {
        0
    } else {
        digits_val(s, i, j - 1) * 10 + (s[j - 1] - 48)
    }
}

/// The first index at or after `i` holding a closing quote, or the length
/// of `s` if there is none.
pub open spec fn str_end(s: Seq<u8>, i: int) -> int
    decreases s.len() - i when 0 <= i <= s.len()
{
    if i >= s.len() {
        s.len() as int
    } else if s[i] == 34 {
        i
    } else {
        str_end(s, i + 1)
    }
}

pub proof fn lemma_digits_end_bounds(s: Seq<u8>, i: int)
    requires
        0 <= i <= s.len(),
    ensures
        i <= digits_end(s, i) <= s.len(),
    decreases s.len() - i,
{
    if i < s.len() && is_digit(s[i]) {
        lemma_digits_end_bounds(s, i + 1);
    }
}

pub proof fn lemma_str_end_bounds(s: Seq<u8>, i: int)
    requires
        0 <= i <= s.len(),
    ensures
        i <= str_end(s, i) <= s.len(),
    decreases s.len() - i,
{
    if i < s.len() && s[i] != 34 {
        lemma_str_end_bounds(s, i + 1);
    }
}

/// The 1-based source line at position `j`: one more than the newlines
/// before it, saturating at the largest line number.
pub open spec fn line_no(s: Seq<u8>, j: int) -> u32
    decreases j when j >= 0
{
    if j <= 0 {
        1u32
    } else {
        let prev = line_no(s, j - 1);
        if 0 <= j - 1 < s.len() && s[j - 1] == 10 {
            if prev < u32::MAX {
                (prev + 1) as u32
            } else {
                prev
            }
        } else {
            prev
        }
    }
}

/// The kind of the token starting at position `i` of the source.
pub open spec fn tok_kind_at(s: Seq<u8>, i: int) -> TokenKind {
    if i >= s.len() {
        TokenKind::Eof
    } else if s[i] == 34 {
        if str_end(s, i + 1) < s.len() {
            TokenKind::Str
        } else {
            TokenKind::Error
        }
    } else if is_digit(s[i]) {
        if digits_val(s, i, digits_end(s, i)) <= u32::MAX {
            TokenKind::Integer
        } else {
            TokenKind::Error
        }
    } else {
        op_kind(s[i])
    }
}

/// The position just after the token starting at `i`.
pub open spec fn tok_next(s: Seq<u8>, i: int) -> int {
    if i >= s.len() {
        i
    } else if s[i] == 34 {
        if str_end(s, i + 1) < s.len() {
            str_end(s, i + 1) + 1
        } else {
            s.len() as int
        }
    } else if is_digit(s[i]) {
        digits_end(s, i)
    } else {
        i + 1
    }
}

pub proof fn lemma_tok_next_bounds(s: Seq<u8>, i: int)
    requires
        0 <= i <= s.len(),
    ensures
        i <= tok_next(s, i) <= s.len(),
        i < s.len() ==> i < tok_next(s, i),
{
    if i < s.len() {
        if s[i] == 34 {
            lemma_str_end_bounds(s, i + 1);
        } else if is_digit(s[i]) {
            lemma_digits_end_bounds(s, i + 1);
            assert(digits_end(s, i) == digits_end(s, i + 1));
        }
    }
}

/// The position of the first token at or after `i` that the compiler's
/// advance step does not skip (neither `Ignore` nor `Error`).
pub open spec fn skip_insig(s: Seq<u8>, i: int) -> int
    decreases s.len() - i when 0 <= i <= s.len() via skip_insig_dec
{
    let k = tok_kind_at(s, i);
    if k == TokenKind::Ignore || k == TokenKind::Error {
        skip_insig(s, tok_next(s, i))
    } else {
        i
    }
}

#[via_fn]
proof fn skip_insig_dec(s: Seq<u8>, i: int) {
    lemma_tok_next_bounds(s, i);
}

/// The kind of the first significant token of `s` at or after `i`: what the
/// compiler sees in `current` after an advance from position `i`.
pub open spec fn first_sig_kind(s: Seq<u8>, i: int) -> TokenKind {
    tok_kind_at(s, skip_insig(s, i))
}

/// Whether the advance step starting at `i` passes over any `Error` token
/// before reaching a significant one.
pub open spec fn skipped_error(s: Seq<u8>, i: int) -> bool
    decreases s.len() - i when 0 <= i <= s.len() via skipped_error_dec
{
    let k = tok_kind_at(s, i);
    if k == TokenKind::Error {
        true
    } else if k == TokenKind::Ignore {
        skipped_error(s, tok_next(s, i))
    } else {
        false
    }
}

#[via_fn]
proof fn skipped_error_dec(s: Seq<u8>, i: int) {
    lemma_tok_next_bounds(s, i);
}

pub proof fn lemma_skip_insig_bounds(s: Seq<u8>, i: int)
    requires
        0 <= i <= s.len(),
    ensures
        i <= skip_insig(s, i) <= s.len(),
    decreases s.len() - i,
{
    let k = tok_kind_at(s, i);
    if k == TokenKind::Ignore || k == TokenKind::Error {
        lemma_tok_next_bounds(s, i);
        lemma_skip_insig_bounds(s, tok_next(s, i));
    }
}

/// Produces a lazy sequence of tokens from source text: finite, consumed
/// left to right exactly once by one compiler.
pub struct Scanner {
    pub source: Vec<u8>,
    pub pos: usize,
    pub line: u32,
}

/// The scanner's position never runs past its source, and its line
/// counter is the source line at that position.
pub open spec fn scanner_wf(sc: Scanner) -> bool {
    &&& sc.pos <= sc.source@.len()
    &&& sc.line == line_no(sc.source@, sc.pos as int)
}

impl Scanner {
    /// A scanner at the start of `source`, on line 1.
    pub fn new(source: Vec<u8>) -> (sc: Scanner)
        ensures
            sc.source@ == source@,
            sc.pos == 0,
            sc.line == 1,
            scanner_wf(sc),
    {
        Scanner { source, pos: 0, line: 1 }
    }

    /// Returns the next token: the single-character operators, double-quoted
    /// string literals taken verbatim (no escapes), decimal integer
    /// literals, `Ignore` for any other byte, and `Eof` at the end. On a
    /// malformed lexeme (an unterminated string, an integer past the 32-bit
    /// range) it returns an `Error` token rather than failing the scan.
    #[verifier::loop_isolation(false)]
    pub fn scan_token(&mut self) -> (t: Token)
        requires
            scanner_wf(*old(self)),
        ensures
            scanner_wf(*final(self)),
            final(self).source@ == old(self).source@,
            t.kind == tok_kind_at(old(self).source@, old(self).pos as int),
            final(self).pos == tok_next(old(self).source@, old(self).pos as int),
            t.kind == TokenKind::Integer ==> t.value as int == digits_val(
                old(self).source@,
                old(self).pos as int,
                digits_end(old(self).source@, old(self).pos as int),
            ),
            t.kind == TokenKind::Str ==> t.text@ == old(self).source@.subrange(
                old(self).pos + 1,
                str_end(old(self).source@, old(self).pos + 1),
            ),
            t.kind != TokenKind::Integer ==> t.value == 0,
            t.kind != TokenKind::Str ==> t.text@ == Seq::<u8>::empty(),
            t.line == line_no(old(self).source@, tok_next(old(self).source@, old(self).pos as int)),
    {
        let ghost src = self.source@;
        let n = self.source.len();
        if self.pos >= n {
            return Token { kind: TokenKind::Eof, text: Vec::new(), value: 0, line: self.line };
        }
        let c = self.source[self.pos];
        if c == 34 {
            let start = self.pos;
            let mut j = self.pos + 1;
            proof {
                lemma_str_end_bounds(src, start + 1);
            }
            while j < n && self.source[j] != 34
                invariant
                    self.source@ == src,
                    self.pos == start,
                    start + 1 <= j <= n,
                    str_end(src, start + 1) == str_end(src, j as int),
                    self.line == line_no(src, j as int),
                decreases n - j,
            {
                if self.source[j] == 10 {
                    if self.line < u32::MAX {
                        self.line = self.line + 1;
                    }
                }
                j = j + 1;
            }
            if j < n {
                let mut text: Vec<u8> = Vec::new();
                let mut k: usize = start + 1;
                while k < j
                    invariant
                        self.source@ == src,
                        start + 1 <= k <= j,
                        text@ == src.subrange(start + 1, k as int),
                    decreases j - k,
                {
                    let ghost pre = text@;
                    text.push(self.source[k]);
                    proof {
                        assert(pre.push(src[k as int]) =~= src.subrange(start + 1, k + 1));
                    }
                    k = k + 1;
                }
                self.pos = j + 1;
                Token { kind: TokenKind::Str, text, value: 0, line: self.line }
            } else {
                self.pos = n;
                Token { kind: TokenKind::Error, text: Vec::new(), value: 0, line: self.line }
            }
        } else if 48 <= c && c <= 57 {
            let start = self.pos;
            let mut j = self.pos;
            let mut val: u64 = 0;
            let mut over = false;
            proof {
                lemma_digits_end_bounds(src, start as int);
            }
            while j < n && 48 <= self.source[j] && self.source[j] <= 57
                invariant
                    self.source@ == src,
                    self.pos == start,
                    start <= j <= n,
                    digits_end(src, start as int) == digits_end(src, j as int),
                    self.line == line_no(src, j as int),
                    !over ==> val as int == digits_val(src, start as int, j as int) && val
                        <= u32::MAX,
                    over ==> digits_val(src, start as int, j as int) > u32::MAX,
                decreases n - j,
            {
                let d = self.source[j] - 48;
                let ghost dv = digits_val(src, start as int, j as int);
                proof {
                    assert(digits_val(src, start as int, j + 1) == dv * 10 + (src[j as int] - 48));
                }
                if !over {
                    let nv: u64 = val * 10 + d as u64;
                    if nv > 0xFFFF_FFFF {
                        over = true;
                    } else {
                        val = nv;
                    }
                } else {
                    proof {
                        assert(dv * 10 + (src[j as int] - 48) > u32::MAX) by (nonlinear_arith)
                            requires
                                dv > u32::MAX,
                        ;
                    }
                }
                j = j + 1;
            }
            self.pos = j;
            if over {
                Token { kind: TokenKind::Error, text: Vec::new(), value: 0, line: self.line }
            } else {
                Token {
                    kind: TokenKind::Integer,
                    text: Vec::new(),
                    value: val as u32,
                    line: self.line,
                }
            }
        } else {
            if c == 10 {
                if self.line < u32::MAX {
                    self.line = self.line + 1;
                }
            }
            self.pos = self.pos + 1;
            let kind = if c == 43 {
                TokenKind::Plus
            } else if c == 45 {
                TokenKind::Minus
            } else if c == 60 {
                TokenKind::LeftAngle
            } else if c == 62 {
                TokenKind::RightAngle
            } else if c == 46 {
                TokenKind::Dot
            } else if c == 44 {
                TokenKind::Comma
            } else if c == 35 {
                TokenKind::Hash
            } else if c == 64 {
                TokenKind::At
            } else if c == 42 {
                TokenKind::Star
            } else if c == 36 {
                TokenKind::Dollar
            } else if c == 94 {
                TokenKind::Caret
            } else if c == 123 {
                TokenKind::LeftBrace
            } else if c == 125 {
                TokenKind::RightBrace
            } else if c == 91 {
                TokenKind::LeftBracket
            } else if c == 93 {
                TokenKind::RightBracket
            } else {
                TokenKind::Ignore
            };
            Token { kind, text: Vec::new(), value: 0, line: self.line }
        }
    }
}

} // verus!
