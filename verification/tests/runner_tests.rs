use yabir::parser::{Instruction, Instructions};
use yabir::runner::{run, RunError};

fn run_and_get_output(prog: Instructions, input: &[u8]) -> Result<Vec<u8>, RunError> {
    let mut output = Vec::new();
    match run(prog, input, &mut output) {
        Ok(()) => Ok(output),
        Err(err) => Err(err),
    }
}

fn assert_run_writes_correct_output(prog: Instructions, input: &[u8], expected_output: &[u8]) {
    let output = match run_and_get_output(prog, input) {
        Ok(output) => output,
        Err(err) => panic!("run() failed with {}", err.message()),
    };
    assert_eq!(output, expected_output);
}

fn assert_run_returns_error(prog: Instructions, input: &[u8]) {
    let result = run_and_get_output(prog, input);
    assert!(result.is_err());
}

#[test]
fn test_run_does_nothing_when_program_has_no_instructions() {
    assert_run_writes_correct_output(vec![], &[], &[]);
}

#[test]
fn test_run_can_read_from_input_and_write_to_output() {
    assert_run_writes_correct_output(
        vec![Instruction::Read, Instruction::Write],
        &[1],
        &[1],
    );
}

#[test]
fn test_read_does_not_alter_cell_value_when_at_end_of_file() {
    assert_run_writes_correct_output(
        vec![Instruction::Inc, Instruction::Read, Instruction::Write],
        &[],
        &[1],
    );
}

#[test]
fn test_run_can_increment_cell() {
    assert_run_writes_correct_output(
        vec![Instruction::Read, Instruction::Inc, Instruction::Write],
        &[1],
        &[2],
    );
}

#[test]
fn test_run_can_decrement_cell() {
    assert_run_writes_correct_output(
        vec![Instruction::Read, Instruction::Dec, Instruction::Write],
        &[1],
        &[0],
    );
}

#[test]
fn test_run_can_move_between_cells() {
    assert_run_writes_correct_output(
        vec![
            Instruction::Read,
            Instruction::Next,
            Instruction::Read,
            Instruction::Next,
            Instruction::Prev,
            Instruction::Write,
            Instruction::Prev,
            Instruction::Write,
        ],
        &[1, 2],
        &[2, 1],
    );
}

#[test]
fn test_run_can_loop() {
    assert_run_writes_correct_output(
        vec![
            Instruction::Read,
            Instruction::LoopStart(6),
            Instruction::Dec,
            Instruction::Next,
            Instruction::Inc,
            Instruction::Prev,
            Instruction::LoopEnd(1),
            Instruction::Write,
            Instruction::Next,
            Instruction::Write,
        ],
        &[2],
        &[0, 2],
    );
}

#[test]
fn test_copies_input_to_output() {
    assert_run_writes_correct_output(
        vec![
            // Read the whole input:
            Instruction::Next,
            Instruction::Inc,
            Instruction::LoopStart(5),
            Instruction::Next,
            Instruction::Read,
            Instruction::LoopEnd(2),
            // Rewind to the beginning:
            Instruction::Prev,
            Instruction::LoopStart(9),
            Instruction::Prev,
            Instruction::LoopEnd(7),
            // Write the whole input:
            Instruction::Next,
            Instruction::Next,
            Instruction::LoopStart(15),
            Instruction::Write,
            Instruction::Next,
            Instruction::LoopEnd(12),
        ],
        &[4, 3, 1, 5],
        &[4, 3, 1, 5],
    );
}

#[test]
fn test_returns_error_when_underflowing_data_pointer() {
    assert_run_returns_error(vec![Instruction::Prev], &[]);
}
