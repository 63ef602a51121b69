use yabir::lexer::Token;
use yabir::parser::{parse, Instruction, ParseError};

#[test]
fn parse_returns_empty_vec_when_there_are_no_tokens() {
    assert_eq!(parse(&vec![]).unwrap(), vec![]);
}

#[test]
fn parse_correctly_parses_infinite_loop() {
    // []
    let tokens = vec![Token::LoopStart, Token::LoopEnd];
    let expected_result = Ok(vec![Instruction::LoopStart(1), Instruction::LoopEnd(0)]);
    assert_eq!(parse(&tokens), expected_result);
}

#[test]
fn parse_correctly_parses_valid_program() {
    // [->+<,]
    let tokens = vec![
        Token::LoopStart,
        Token::Dec,
        Token::Next,
        Token::Inc,
        Token::Prev,
        Token::Read,
        Token::LoopEnd,
    ];
    let expected_result = Ok(vec![
        Instruction::LoopStart(6),
        Instruction::Dec,
        Instruction::Next,
        Instruction::Inc,
        Instruction::Prev,
        Instruction::Read,
        Instruction::LoopEnd(0),
    ]);
    assert_eq!(parse(&tokens), expected_result);
}

#[test]
fn parse_returns_error_when_missing_loop_end() {
    let err = parse(&vec![Token::LoopStart]).unwrap_err();
    assert_eq!(err, ParseError::UnmatchedLoopOpen { position: 0 });
    assert_eq!(err.message(), "missing end of a loop started at index 0".to_string());
}

#[test]
fn parse_returns_error_when_missing_loop_start() {
    let err = parse(&vec![Token::LoopEnd]).unwrap_err();
    assert_eq!(err, ParseError::UnmatchedLoopClose { position: 0 });
    assert_eq!(err.message(), "missing start of a loop ended at index 0".to_string());
}

#[test]
fn parse_resolves_nested_loops_mutually() {
    // [[]] — the outer pair must resolve to each other, and so must the
    // inner pair; target of target is the original index.
    let tokens = vec![Token::LoopStart, Token::LoopStart, Token::LoopEnd, Token::LoopEnd];
    let instructions = parse(&tokens).unwrap();
    assert_eq!(
        instructions,
        vec![
            Instruction::LoopStart(3),
            Instruction::LoopStart(2),
            Instruction::LoopEnd(1),
            Instruction::LoopEnd(0),
        ]
    );
}

#[test]
fn parse_reports_innermost_unclosed_loop() {
    // Several unclosed loops: the most recently opened one is reported.
    let tokens = vec![Token::LoopStart, Token::Inc, Token::LoopStart, Token::LoopStart];
    let err = parse(&tokens).unwrap_err();
    assert_eq!(err, ParseError::UnmatchedLoopOpen { position: 3 });
}

#[test]
fn parse_reports_first_unmatched_close() {
    // An early unmatched close wins over later unclosed opens.
    let tokens = vec![Token::LoopStart, Token::LoopEnd, Token::LoopEnd, Token::LoopStart];
    let err = parse(&tokens).unwrap_err();
    assert_eq!(err, ParseError::UnmatchedLoopClose { position: 2 });
}

#[test]
fn parse_error_message_renders_multi_digit_positions() {
    // Eleven opens: the innermost, at index 10, is reported in decimal.
    let tokens = vec![Token::LoopStart; 11];
    let err = parse(&tokens).unwrap_err();
    assert_eq!(err, ParseError::UnmatchedLoopOpen { position: 10 });
    assert_eq!(err.message(), "missing end of a loop started at index 10".to_string());
}
