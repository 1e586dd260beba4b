use paroxy::chunk::{Chunk, Value};
use paroxy::codec::DecodeError;
use paroxy::opcode::{OP_CONSTANT, OP_PRINT, OP_RETURN};
use paroxy::parser::parse;
use paroxy::vm::{ExitStatus, VM};

fn sample_chunk() -> Chunk {
    parse(b"{16}\"hi\"$^ [+>2-] #7 @3 ,* .".to_vec()).expect("program should compile")
}

fn assert_chunks_equal(a: &Chunk, b: &Chunk) {
    assert_eq!(a.code, b.code);
    assert_eq!(a.lines, b.lines);
    assert_eq!(a.constants.len(), b.constants.len());
    for (x, y) in a.constants.iter().zip(b.constants.iter()) {
        match (x, y) {
            (Value::Int(m), Value::Int(n)) => assert_eq!(m, n),
            (Value::Str(s), Value::Str(t)) => assert_eq!(s, t),
            _ => panic!("constant kinds differ"),
        }
    }
}

#[test]
fn round_trip_preserves_structure() {
    let c = sample_chunk();
    assert!(c.is_wf());
    let bytes = c.to_bytes();
    let d = Chunk::from_bytes(&bytes).expect("round trip should decode");
    assert_chunks_equal(&c, &d);
}

#[test]
fn round_trip_of_empty_program() {
    let c = parse(b"".to_vec()).expect("compiles");
    let d = Chunk::from_bytes(&c.to_bytes()).expect("decodes");
    assert_chunks_equal(&c, &d);
}

#[test]
fn encoding_is_deterministic() {
    let a = sample_chunk().to_bytes();
    let b = sample_chunk().to_bytes();
    assert_eq!(a, b);
}

#[test]
fn reloaded_chunk_runs_like_the_original() {
    let src = "#72.#105.";
    let c = parse(src.as_bytes().to_vec()).expect("compiles");
    let mut direct = VM::new(parse(src.as_bytes().to_vec()).expect("compiles"));
    assert_eq!(direct.run(1_000_000), ExitStatus::Halted);
    let d = Chunk::from_bytes(&c.to_bytes()).expect("decodes");
    let mut reloaded = VM::new(d);
    assert_eq!(reloaded.run(1_000_000), ExitStatus::Halted);
    assert_eq!(direct.output(), reloaded.output());
    assert_eq!(reloaded.output().clone(), b"Hi".to_vec());
}

#[test]
fn bad_format_tag_is_rejected() {
    let mut bytes = sample_chunk().to_bytes();
    bytes[0] = bytes[0].wrapping_add(1);
    assert!(matches!(Chunk::from_bytes(&bytes), Err(DecodeError::BadTag)));
}

#[test]
fn truncated_payload_is_rejected() {
    let bytes = sample_chunk().to_bytes();
    for cut in [0, 1, 5, 9, bytes.len() - 1] {
        let short = bytes[..cut].to_vec();
        assert!(Chunk::from_bytes(&short).is_err());
    }
}

#[test]
fn trailing_bytes_are_rejected() {
    let mut bytes = sample_chunk().to_bytes();
    bytes.push(0);
    assert!(Chunk::from_bytes(&bytes).is_err());
}

#[test]
fn out_of_range_constant_reference_is_rejected() {
    let c = Chunk {
        code: vec![OP_CONSTANT, 5, OP_RETURN],
        constants: vec![Value::Int(1)],
        lines: vec![1, 1, 1],
    };
    assert!(!c.is_wf());
    let bytes = c.to_bytes();
    assert!(matches!(Chunk::from_bytes(&bytes), Err(DecodeError::InvalidCode)));
}

#[test]
fn unknown_opcode_is_rejected_at_decode() {
    let c = Chunk { code: vec![200, OP_RETURN], constants: vec![], lines: vec![1, 1] };
    let bytes = c.to_bytes();
    assert!(matches!(Chunk::from_bytes(&bytes), Err(DecodeError::InvalidCode)));
}

#[test]
fn mismatched_line_table_is_rejected() {
    let c = Chunk { code: vec![OP_PRINT, OP_RETURN], constants: vec![], lines: vec![1] };
    let bytes = c.to_bytes();
    assert!(matches!(Chunk::from_bytes(&bytes), Err(DecodeError::BadLineTable)));
}

#[test]
fn string_constants_survive_the_trip() {
    let c = parse(b"\"some text with spaces\"".to_vec()).expect("compiles");
    let d = Chunk::from_bytes(&c.to_bytes()).expect("decodes");
    assert!(matches!(&d.constants[1], Value::Str(s) if s == b"some text with spaces"));
}
