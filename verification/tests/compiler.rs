use paroxy::chunk::{Chunk, Value};
use paroxy::opcode::{
    OP_CONSTANT, OP_DEFINE_TAPE, OP_INCREMENT, OP_INCREMENT_SINGULAR, OP_JUMP_IF_ZERO, OP_LOOP,
    OP_MOVE_RIGHT, OP_PRINT_RANGE, OP_RETURN, OP_WRITE_STRING,
};
use paroxy::parser::{parse, CompileErrorKind, Parser};
use paroxy::scanner::Scanner;

fn compile_ok(src: &str) -> Chunk {
    parse(src.as_bytes().to_vec()).expect("program should compile")
}

#[test]
fn default_tape_preamble() {
    let c = compile_ok("+");
    assert_eq!(c.code[0], OP_CONSTANT);
    assert_eq!(c.code[1], 0);
    assert_eq!(c.code[2], OP_DEFINE_TAPE);
    assert!(matches!(c.constants[0], Value::Int(30000)));
}

#[test]
fn default_tape_preamble_on_loop_program() {
    let c = compile_ok("[+]");
    assert_eq!(c.code[0], OP_CONSTANT);
    assert_eq!(c.code[1], 0);
    assert_eq!(c.code[2], OP_DEFINE_TAPE);
    assert!(matches!(c.constants[0], Value::Int(30000)));
}

#[test]
fn explicit_tape_skips_preamble() {
    let c = compile_ok("{5}+");
    assert_eq!(c.code[0], OP_CONSTANT);
    assert_eq!(c.code[1], 0);
    assert_eq!(c.code[2], OP_DEFINE_TAPE);
    assert!(matches!(c.constants[0], Value::Int(5)));
}

#[test]
fn counted_increment_bound_rejected() {
    let e = parse(b"+256".to_vec()).unwrap_err();
    assert_eq!(e.kind, CompileErrorKind::CountRange);
}

#[test]
fn counted_increment_bound_accepted() {
    let c = compile_ok("+255");
    assert_eq!(&c.code[3..], &[OP_INCREMENT, 255, OP_RETURN]);
}

#[test]
fn loop_offsets_land_on_loop_ends() {
    let c = compile_ok("[+]");
    assert_eq!(
        c.code,
        vec![
            OP_CONSTANT,
            0,
            OP_DEFINE_TAPE,
            OP_JUMP_IF_ZERO,
            0,
            4,
            OP_INCREMENT_SINGULAR,
            OP_LOOP,
            0,
            7,
            OP_RETURN
        ]
    );
    // JumpIfZero at 3: its forward offset, added to the end of its own
    // operand (position 6), lands just past the Loop instruction.
    let fwd = (c.code[4] as usize) * 256 + c.code[5] as usize;
    assert_eq!(6 + fwd, 10);
    // Loop at 7: its backward offset, subtracted from the end of its own
    // operand (position 10), lands exactly on the JumpIfZero.
    let back = (c.code[8] as usize) * 256 + c.code[9] as usize;
    assert_eq!(10 - back, 3);
}

#[test]
fn string_modifiers_emit_in_order() {
    let c = compile_ok("\"hi\"$^");
    assert_eq!(
        &c.code[3..],
        &[
            OP_CONSTANT,
            1,
            OP_WRITE_STRING,
            OP_CONSTANT,
            2,
            OP_PRINT_RANGE,
            OP_CONSTANT,
            3,
            OP_MOVE_RIGHT,
            OP_RETURN
        ]
    );
    assert!(matches!(&c.constants[1], Value::Str(s) if s == b"hi"));
    assert!(matches!(c.constants[2], Value::Int(2)));
    assert!(matches!(c.constants[3], Value::Int(2)));
}

#[test]
fn recompilation_is_byte_identical() {
    let src = "{16}\"ab\"$^ [+>2-] #7 @3 ,* .";
    let a = parse(src.as_bytes().to_vec()).expect("compiles");
    let b = parse(src.as_bytes().to_vec()).expect("compiles");
    assert_eq!(a.code, b.code);
    assert_eq!(a.lines, b.lines);
    assert_eq!(a.to_bytes(), b.to_bytes());
}

#[test]
fn ignorable_characters_do_not_change_code() {
    let a = compile_ok("+ x\n  + yz");
    let b = compile_ok("++");
    assert_eq!(a.code, b.code);
}

#[test]
fn unterminated_string_is_an_error() {
    let e = parse(b"\"oops".to_vec()).unwrap_err();
    assert_eq!(e.kind, CompileErrorKind::UnexpectedToken);
}

#[test]
fn oversized_integer_literal_is_an_error() {
    assert!(parse(b"@99999999999".to_vec()).is_err());
}

#[test]
fn unclosed_loop_is_an_error() {
    let e = parse(b"[+".to_vec()).unwrap_err();
    assert_eq!(e.kind, CompileErrorKind::UnclosedLoop);
}

#[test]
fn stray_close_bracket_is_an_error() {
    let e = parse(b"]".to_vec()).unwrap_err();
    assert_eq!(e.kind, CompileErrorKind::UnexpectedToken);
}

#[test]
fn write_cell_requires_integer_in_range() {
    assert_eq!(
        parse(b"#x".to_vec()).unwrap_err().kind,
        CompileErrorKind::ExpectIntegerAfterHash
    );
    assert_eq!(
        parse(b"#256".to_vec()).unwrap_err().kind,
        CompileErrorKind::WriteCellRange
    );
    assert!(parse(b"#255".to_vec()).is_ok());
}

#[test]
fn tape_definition_requires_closing_brace() {
    assert_eq!(
        parse(b"{5+".to_vec()).unwrap_err().kind,
        CompileErrorKind::ExpectRightBrace
    );
    assert_eq!(
        parse(b"{x}".to_vec()).unwrap_err().kind,
        CompileErrorKind::ExpectIntegerAfterBrace
    );
}

#[test]
fn seek_requires_integer() {
    assert_eq!(
        parse(b"@!".to_vec()).unwrap_err().kind,
        CompileErrorKind::ExpectIntegerAfterAt
    );
}

#[test]
fn first_error_line_is_reported() {
    let e = parse(b"+\n+256".to_vec()).unwrap_err();
    assert_eq!(e.line, 2);
}

#[test]
fn parser_reports_success_flag() {
    let scanner = Scanner::new(b"+-".to_vec());
    let chunk = Chunk::new();
    let mut p = Parser::new(scanner, chunk);
    assert!(p.compile());
    let c = p.into_chunk();
    assert_eq!(*c.code.last().unwrap(), OP_RETURN);
}

#[test]
fn every_chunk_ends_in_return() {
    for src in ["", "+", "{3}", "\"s\"", "[+]", ",*^"] {
        let c = compile_ok(src);
        assert_eq!(*c.code.last().unwrap(), OP_RETURN);
    }
}
