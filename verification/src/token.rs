use vstd::prelude::*;

verus! {

/// The lexical category of a token.
///
/// Every byte of source is classified: the fifteen operator characters each
/// get a kind of their own; `"`-delimited text is a `Str`; a maximal decimal
/// digit run is an `Integer`; any other byte is `Ignore`, filtered by the
/// compiler's advance step. `Error` marks a malformed lexeme (an unterminated
/// string, or an integer past the 32-bit range). `Empty` is the kind of the
/// placeholder tokens a fresh compiler starts with.
#[derive(Clone, Copy, PartialEq, Eq, Structural, Debug)]
pub enum TokenKind {
    Plus,
    Minus,
    LeftAngle,
    RightAngle,
    Dot,
    Comma,
    Hash,
    At,
    Star,
    Dollar,
    Caret,
    LeftBrace,
    RightBrace,
    LeftBracket,
    RightBracket,
    Str,
    Integer,
    Ignore,
    Error,
    Eof,
    Empty,
}

/// A classified lexeme: its kind, its payload, and its 1-based source line.
pub struct Token {
    pub kind: TokenKind,
    /// For a string token, the bytes between the quotes; otherwise empty.
    pub text: Vec<u8>,
    /// For an integer token, its decimal value; otherwise zero.
    pub value: u32,
    /// The 1-based source line just after the token: for a lexeme that
    /// spans lines (a multi-line string), the line it closes on.
    pub line: u32,
}

impl Token {
    /// The placeholder token a fresh compiler holds before its first advance.
    pub fn empty() -> (t: Token)
        ensures
            t.kind == TokenKind::Empty,
            t.text@ == Seq::<u8>::empty(),
            t.value == 0,
            t.line == 0,
    {
        Token { kind: TokenKind::Empty, text: Vec::new(), value: 0, line: 0 }
    }
}

} // verus!
