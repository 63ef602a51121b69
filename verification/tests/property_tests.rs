//! Scenario tests for the properties the library states: wrap-around
//! arithmetic, the end-of-input policy, pointer underflow, the identity
//! copy program, and the rendered error messages.

use yabir::lexer::tokenize;
use yabir::parser::{parse, Instruction};
use yabir::runner::{run, Runner, RunError};

fn output_of(prog: Vec<Instruction>, input: &[u8]) -> Result<Vec<u8>, RunError> {
    let mut output = Vec::new();
    run(prog, input, &mut output).map(|_| output)
}

/// The copy program of `test_copies_input_to_output`, shared by the
/// identity scenarios.
fn copy_program() -> Vec<Instruction> {
    vec![
        Instruction::Next,
        Instruction::Inc,
        Instruction::LoopStart(5),
        Instruction::Next,
        Instruction::Read,
        Instruction::LoopEnd(2),
        Instruction::Prev,
        Instruction::LoopStart(9),
        Instruction::Prev,
        Instruction::LoopEnd(7),
        Instruction::Next,
        Instruction::Next,
        Instruction::LoopStart(15),
        Instruction::Write,
        Instruction::Next,
        Instruction::LoopEnd(12),
    ]
}

#[test]
fn test_increment_applied_256_times_returns_cell_to_original_value() {
    let mut prog = vec![Instruction::Read];
    for _ in 0..256 {
        prog.push(Instruction::Inc);
    }
    prog.push(Instruction::Write);
    assert_eq!(output_of(prog, &[7]).unwrap(), vec![7]);
}

#[test]
fn test_increment_wraps_from_255_to_zero() {
    // 255 + 1 = 0.
    let prog = vec![Instruction::Read, Instruction::Inc, Instruction::Write];
    assert_eq!(output_of(prog, &[255]).unwrap(), vec![0]);
}

#[test]
fn test_decrement_wraps_from_zero_to_255() {
    // 0 - 1 = 255.
    let prog = vec![Instruction::Read, Instruction::Dec, Instruction::Write];
    assert_eq!(output_of(prog, &[0]).unwrap(), vec![255]);
}

#[test]
fn test_decrement_undoes_increment() {
    let prog = vec![
        Instruction::Read,
        Instruction::Inc,
        Instruction::Dec,
        Instruction::Write,
        Instruction::Dec,
        Instruction::Inc,
        Instruction::Write,
    ];
    assert_eq!(output_of(prog, &[9]).unwrap(), vec![9, 9]);
}

#[test]
fn test_move_left_at_cell_zero_fails_with_pointer_underflow() {
    let err = output_of(vec![Instruction::Prev], &[]).unwrap_err();
    assert_eq!(err, RunError::PointerUnderflow);
    assert_eq!(
        err.message(),
        "cannot decrement the data pointer because it is 0".to_string()
    );
}

#[test]
fn test_pointer_overflow_message() {
    assert_eq!(
        RunError::PointerOverflow.message(),
        "cannot increment the data pointer because it is MAX".to_string()
    );
}

#[test]
fn test_copy_program_is_identity_on_nonzero_input() {
    let input = [255, 1, 2, 128, 64, 3];
    assert_eq!(output_of(copy_program(), &input).unwrap(), input.to_vec());
}

#[test]
fn test_copy_program_is_identity_on_single_byte() {
    assert_eq!(output_of(copy_program(), &[42]).unwrap(), vec![42]);
}

#[test]
fn test_copy_program_stops_at_zero_byte() {
    // A zero byte ends the program's own loops early, so the identity
    // holds only for inputs without zero bytes.
    assert_eq!(output_of(copy_program(), &[0]).unwrap(), vec![]);
}

#[test]
fn test_run_appends_to_existing_output() {
    let mut output = vec![9, 8];
    let r = run(
        vec![Instruction::Read, Instruction::Write],
        &[5],
        &mut output,
    );
    assert!(r.is_ok());
    assert_eq!(output, vec![9, 8, 5]);
}

#[test]
fn test_runner_can_be_reused_across_programs() {
    let mut runner = Runner::new();
    let mut first = Vec::new();
    runner
        .run(
            vec![Instruction::Read, Instruction::Write],
            &[3],
            &mut first,
        )
        .unwrap();
    assert_eq!(first, vec![3]);
    // The second run resets the tape, so the cell no longer holds 3.
    let mut second = Vec::new();
    runner
        .run(vec![Instruction::Write], &[], &mut second)
        .unwrap();
    assert_eq!(second, vec![0]);
}

#[test]
fn test_read_at_end_of_input_leaves_later_reads_unchanged_too() {
    // Two reads on a one-byte input: the second read hits the end of the
    // input and leaves the cell as the first read set it.
    let prog = vec![
        Instruction::Read,
        Instruction::Read,
        Instruction::Write,
    ];
    assert_eq!(output_of(prog, &[6]).unwrap(), vec![6]);
}

#[test]
fn test_full_pipeline_echoes_input_until_zero_byte() {
    // ,[.,] echoes every byte read until a zero byte arrives.
    let tokens = tokenize(&",[.,]".to_string());
    let prog = parse(&tokens).unwrap();
    let mut output = Vec::new();
    run(prog, &[104, 105, 0], &mut output).unwrap();
    assert_eq!(output, vec![104, 105]);
}

#[test]
fn test_full_pipeline_ignores_comment_text() {
    let source = "read a byte, bump it twice ++ and print it .".to_string();
    let tokens = tokenize(&source);
    let prog = parse(&tokens).unwrap();
    let mut output = Vec::new();
    run(prog, &[10], &mut output).unwrap();
    assert_eq!(output, vec![12]);
}
