//! End-to-end behaviour of the compiler and machine: compilation, folding,
//! wraparound arithmetic, tape-edge faults, and input/output handling.

use bf_interpreter::compiler::{Instruction, Program};
use bf_interpreter::vm::{Machine, RuntimeError, Status};
use bf_interpreter::Config;

fn config(cells: usize) -> Config {
    Config { program: String::new(), cell_sz: cells, inp_type: true, optimize: false }
}

fn run_source(
    src: &str,
    optimize: bool,
    cells: usize,
    input: Vec<u8>,
) -> (Machine, Result<Status, RuntimeError>) {
    let program = Program::from_str(src, optimize).expect("source should compile");
    let mut machine = Machine::new(&config(cells));
    let status = machine.run(&program, &input, usize::MAX);
    (machine, status)
}

#[test]
fn three_increments_on_one_cell() {
    let (machine, status) = run_source("+++", false, 1, vec![]);
    assert_eq!(status.unwrap(), Status::Completed);
    assert_eq!(machine.cells(), &vec![3u8]);
    assert_eq!(machine.pointer(), 0);
}

#[test]
fn loop_transfers_and_doubles() {
    let (machine, status) = run_source("++[>++<-]", false, 2, vec![]);
    assert_eq!(status.unwrap(), Status::Completed);
    assert_eq!(machine.cells(), &vec![0u8, 4u8]);
}

#[test]
fn loop_transfers_and_doubles_optimized() {
    let (machine, status) = run_source("++[>++<-]", true, 2, vec![]);
    assert_eq!(status.unwrap(), Status::Completed);
    assert_eq!(machine.cells(), &vec![0u8, 4u8]);
}

#[test]
fn optimizer_folds_four_increments() {
    let program = Program::from_str("++++", true).expect("source should compile");
    assert_eq!(program.len(), 2);
    assert_eq!(program.get(0), Instruction::Inc(4));
    assert_eq!(program.get(1), Instruction::Exit);

    let (folded, status) = run_source("++++", true, 1, vec![]);
    assert_eq!(status.unwrap(), Status::Completed);
    let (plain, status2) = run_source("++++", false, 1, vec![]);
    assert_eq!(status2.unwrap(), Status::Completed);
    assert_eq!(folded.cells(), &vec![4u8]);
    assert_eq!(plain.cells(), folded.cells());
}

#[test]
fn increments_wrap_at_byte_boundary() {
    let src: String = std::iter::repeat('+').take(256).collect();
    let (machine, status) = run_source(&src, false, 1, vec![]);
    assert_eq!(status.unwrap(), Status::Completed);
    assert_eq!(machine.cells(), &vec![0u8]);
    let (folded, status2) = run_source(&src, true, 1, vec![]);
    assert_eq!(status2.unwrap(), Status::Completed);
    assert_eq!(folded.cells(), &vec![0u8]);
}

#[test]
fn decrement_wraps_below_zero() {
    let (machine, status) = run_source("-", false, 1, vec![]);
    assert_eq!(status.unwrap(), Status::Completed);
    assert_eq!(machine.cells(), &vec![255u8]);
}

#[test]
fn moving_right_at_last_cell_overflows() {
    let (_, status) = run_source(">", false, 1, vec![]);
    match status {
        Err(RuntimeError::CellOverflow(msg)) => {
            assert!(msg.contains("can't move beyond"));
        },
        other => panic!("expected an overflow fault, got {:?}", other),
    }
}

#[test]
fn moving_left_at_cell_zero_underflows() {
    let (_, status) = run_source("<", false, 4, vec![]);
    match status {
        Err(RuntimeError::CellUnderflow(msg)) => {
            assert_eq!(msg, "Pointer can't move below 0");
        },
        other => panic!("expected an underflow fault, got {:?}", other),
    }
}

#[test]
fn moving_one_short_of_each_edge_never_faults() {
    let (machine, status) = run_source(">", false, 2, vec![]);
    assert_eq!(status.unwrap(), Status::Completed);
    assert_eq!(machine.pointer(), 1);
    let (machine2, status2) = run_source("><", false, 2, vec![]);
    assert_eq!(status2.unwrap(), Status::Completed);
    assert_eq!(machine2.pointer(), 0);
}

#[test]
fn folded_moves_fault_like_single_steps() {
    let (_, plain) = run_source(">>>", false, 2, vec![]);
    let (_, folded) = run_source(">>>", true, 2, vec![]);
    assert!(matches!(plain, Err(RuntimeError::CellOverflow(_))));
    assert!(matches!(folded, Err(RuntimeError::CellOverflow(_))));
}

#[test]
fn write_byte_emits_cell_value() {
    let (machine, status) = run_source("++.", false, 1, vec![]);
    assert_eq!(status.unwrap(), Status::Completed);
    assert_eq!(machine.output(), &vec![2u8]);
}

#[test]
fn read_byte_consumes_input_in_order() {
    let (machine, status) = run_source(",>,", false, 2, vec![7, 9]);
    assert_eq!(status.unwrap(), Status::Completed);
    assert_eq!(machine.cells(), &vec![7u8, 9u8]);
    assert_eq!(machine.consumed(), 2);
}

#[test]
fn exhausted_input_reads_zero_without_fault() {
    let (machine, status) = run_source("+,", false, 1, vec![]);
    assert_eq!(status.unwrap(), Status::Completed);
    assert_eq!(machine.cells(), &vec![0u8]);
    assert_eq!(machine.consumed(), 0);
}

#[test]
fn optimized_run_matches_plain_run_on_io() {
    let src = "++[>,+.<-]";
    let input = vec![10, 20];
    let (plain, status) = run_source(src, false, 2, input.clone());
    let (folded, status2) = run_source(src, true, 2, input);
    assert_eq!(status.unwrap(), Status::Completed);
    assert_eq!(status2.unwrap(), Status::Completed);
    assert_eq!(plain.output(), &vec![11u8, 21u8]);
    assert_eq!(folded.output(), plain.output());
    assert_eq!(folded.consumed(), plain.consumed());
    assert_eq!(folded.cells(), plain.cells());
}

#[test]
fn matched_brackets_compile_to_one_instruction_per_operator() {
    let program = Program::from_str("[[][]]", false).expect("matched brackets compile");
    assert_eq!(program.len(), 7);
    let nested = Program::from_str("+[->[+]<]", false).expect("matched brackets compile");
    assert_eq!(nested.len(), 10);
}

#[test]
fn jump_targets_stay_inside_the_program() {
    for optimize in [false, true] {
        let program = Program::from_str("++[>++[-]<-]", optimize).expect("should compile");
        let n = program.len();
        let mut i = 0;
        while i < n {
            match program.get(i) {
                Instruction::Jmp(t) => assert!(t < n),
                Instruction::JmpZ(t) => assert!(t < n),
                _ => {},
            }
            i += 1;
        }
    }
}

#[test]
fn comments_and_whitespace_are_ignored() {
    let (machine, status) = run_source("+ a+\tb+ # comment", false, 1, vec![]);
    assert_eq!(status.unwrap(), Status::Completed);
    assert_eq!(machine.cells(), &vec![3u8]);
}

#[test]
fn empty_source_compiles_to_halt_alone() {
    let program = Program::from_str("", false).expect("empty source compiles");
    assert_eq!(program.len(), 1);
    assert_eq!(program.get(0), Instruction::Exit);
}

#[test]
fn exhausted_fuel_reports_pending_and_resumes() {
    let program = Program::from_str("+++", false).expect("should compile");
    let mut machine = Machine::new(&config(1));
    let input = vec![];
    assert_eq!(machine.run(&program, &input, 1).unwrap(), Status::Pending);
    assert_eq!(machine.cells(), &vec![1u8]);
    assert_eq!(machine.run(&program, &input, usize::MAX).unwrap(), Status::Completed);
    assert_eq!(machine.cells(), &vec![3u8]);
}

#[test]
fn nonterminating_loop_stays_pending() {
    let program = Program::from_str("+[]", false).expect("should compile");
    let mut machine = Machine::new(&config(1));
    let input = vec![];
    assert_eq!(machine.run(&program, &input, 10_000).unwrap(), Status::Pending);
}
