use yabir::lexer::{tokenize, Token};

#[test]
fn test_tokenize_returns_empty_vec_when_there_are_no_instructions() {
    assert_eq!(tokenize(&"".to_string()), vec![]);
}

#[test]
fn test_tokenize_recognizes_all_valid_tokens() {
    assert_eq!(
        tokenize(&"><+-,.[]".to_string()),
        vec![
            Token::Next,
            Token::Prev,
            Token::Inc,
            Token::Dec,
            Token::Read,
            Token::Write,
            Token::LoopStart,
            Token::LoopEnd,
        ]
    );
}

#[test]
fn test_tokenize_ignores_unsupported_characters() {
    assert_eq!(tokenize(&"a|()@#".to_string()), vec![]);
}

#[test]
fn test_tokenize_keeps_source_order_among_comments() {
    assert_eq!(
        tokenize(&"first: + and then: -".to_string()),
        vec![Token::Inc, Token::Dec]
    );
}

#[test]
fn test_tokenize_skips_multibyte_characters() {
    assert_eq!(tokenize(&"héllo>wörld<".to_string()), vec![Token::Next, Token::Prev]);
}
