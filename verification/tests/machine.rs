use paroxy::parser::parse;
use paroxy::vm::{ExitStatus, RuntimeFault, VM};

const FUEL: u64 = 1_000_000;

fn run_program(src: &str, input: &[u8]) -> (ExitStatus, Vec<u8>) {
    let chunk = parse(src.as_bytes().to_vec()).expect("program should compile");
    let mut vm = VM::new_with_input(chunk, input.to_vec());
    let status = vm.run(FUEL);
    let out = vm.output().clone();
    (status, out)
}

#[test]
fn bounds_fault_on_move_left() {
    let (status, _) = run_program("{1}<", b"");
    assert_eq!(status, ExitStatus::Fault(RuntimeFault::PointerOutOfBounds));
}

#[test]
fn empty_program_halts() {
    let (status, out) = run_program("", b"");
    assert_eq!(status, ExitStatus::Halted);
    assert!(out.is_empty());
}

#[test]
fn write_and_print_cell() {
    let (status, out) = run_program("#65.", b"");
    assert_eq!(status, ExitStatus::Halted);
    assert_eq!(out, b"A".to_vec());
}

#[test]
fn increment_wraps_at_eight_bits() {
    let (status, out) = run_program("#255+.", b"");
    assert_eq!(status, ExitStatus::Halted);
    assert_eq!(out, vec![0]);
}

#[test]
fn decrement_wraps_at_eight_bits() {
    let (status, out) = run_program("-.", b"");
    assert_eq!(status, ExitStatus::Halted);
    assert_eq!(out, vec![255]);
}

#[test]
fn counted_arithmetic_applies_count() {
    let (status, out) = run_program("+200+55.", b"");
    assert_eq!(status, ExitStatus::Halted);
    assert_eq!(out, vec![255]);
}

#[test]
fn counted_moves_and_seek() {
    let (status, out) = run_program("{10}>3#9.@5#7.<4.", b"");
    assert_eq!(status, ExitStatus::Halted);
    // cell 3 gets 9, cell 5 gets 7, then pointer moves back to cell 1 (zero)
    assert_eq!(out, vec![9, 7, 0]);
}

#[test]
fn loop_counts_down_to_zero() {
    let (status, out) = run_program("#3[-].", b"");
    assert_eq!(status, ExitStatus::Halted);
    assert_eq!(out, vec![0]);
}

#[test]
fn string_write_and_print_range() {
    let (status, out) = run_program("\"hi\"$", b"");
    assert_eq!(status, ExitStatus::Halted);
    assert_eq!(out, b"hi".to_vec());
}

#[test]
fn string_caret_advances_pointer() {
    let (status, out) = run_program("\"ab\"^#33.", b"");
    assert_eq!(status, ExitStatus::Halted);
    assert_eq!(out, vec![33]);
}

#[test]
fn single_input_reads_one_byte() {
    let (status, out) = run_program(",.", b"Z");
    assert_eq!(status, ExitStatus::Halted);
    assert_eq!(out, b"Z".to_vec());
}

#[test]
fn input_past_end_reads_zero() {
    let (status, out) = run_program("#9,.", b"");
    assert_eq!(status, ExitStatus::Halted);
    assert_eq!(out, vec![0]);
}

#[test]
fn multi_input_reads_a_line() {
    let (status, out) = run_program(",*.>.", b"hi\nrest");
    assert_eq!(status, ExitStatus::Halted);
    assert_eq!(out, b"hi".to_vec());
}

#[test]
fn shift_right_past_tape_end_faults() {
    let (status, _) = run_program("{1}>", b"");
    assert_eq!(status, ExitStatus::Fault(RuntimeFault::PointerOutOfBounds));
}

#[test]
fn seek_out_of_bounds_faults() {
    let (status, _) = run_program("{4}@4", b"");
    assert_eq!(status, ExitStatus::Fault(RuntimeFault::PointerOutOfBounds));
}

#[test]
fn string_write_past_tape_end_faults() {
    let (status, _) = run_program("{1}\"hi\"", b"");
    assert_eq!(status, ExitStatus::Fault(RuntimeFault::WriteOutOfBounds));
}

#[test]
fn zero_sized_tape_faults_on_cell_access() {
    let (status, _) = run_program("{0}+", b"");
    assert_eq!(status, ExitStatus::Fault(RuntimeFault::PointerOutOfBounds));
}

#[test]
fn budget_exhaustion_reports_running() {
    let chunk = parse(b"+[]".to_vec()).expect("compiles");
    let mut vm = VM::new(chunk);
    assert_eq!(vm.run(0), ExitStatus::Running);
    // an infinite loop never halts within any finite budget
    assert_eq!(vm.run(10_000), ExitStatus::Running);
}

#[test]
fn run_can_be_resumed() {
    let chunk = parse(b"#65.#66.".to_vec()).expect("compiles");
    let mut vm = VM::new(chunk);
    let mut status = vm.run(1);
    while status == ExitStatus::Running {
        status = vm.run(1);
    }
    assert_eq!(status, ExitStatus::Halted);
    assert_eq!(vm.output().clone(), b"AB".to_vec());
}
