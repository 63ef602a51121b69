//! Lexical analysis of programs.

use vstd::prelude::*;

verus! {

/// Valid tokens in programs.
#[derive(Clone, Copy, Debug, PartialEq, Eq, Structural)]
pub enum Token {
    /// `>`
    Next,
    /// `<`
    Prev,
    /// `+`
    Inc,
    /// `-`
    Dec,
    /// `,`
    Read,
    /// `.`
    Write,
    /// `[`
    LoopStart,
    /// `]`
    LoopEnd,
}

/// A vector of tokens.
pub type Tokens = Vec<Token>;

/// The token a source character stands for, if any; characters outside the
/// eight recognized ones stand for no token.
pub open spec fn token_of(c: char) -> Option<Token> {
    if c == '>' {
        Some(Token::Next)
    } else if c == '<' {
        Some(Token::Prev)
    } else if c == '+' {
        Some(Token::Inc)
    } else if c == '-' {
        Some(Token::Dec)
    } else if c == ',' {
        Some(Token::Read)
    } else if c == '.' {
        Some(Token::Write)
    } else if c == '[' {
        Some(Token::LoopStart)
    } else if c == ']' {
        Some(Token::LoopEnd)
    } else {
        None
    }
}

/// The token sequence of a source text: one token per recognized character,
/// in source order; every other character contributes nothing.
pub open spec fn tokens_of(s: Seq<char>) -> Seq<Token>
    decreases s.len(),
{
    if s.len() == 0 {
        Seq::empty()
    } else {
        let rest = tokens_of(s.drop_last());
        match token_of(s.last()) {
            Some(t) => rest.push(t),
            None => rest,
        }
    }
}

/// Converts the given program into a vector of tokens.
///
/// Scans the source left to right; each recognized character is appended as
/// its token, every other character is silently skipped.
pub fn tokenize(prog: &String) -> (tokens: Tokens)
    ensures
        tokens@ == tokens_of(prog@),
{
    let mut tokens = Tokens::new();
    let n = prog.as_str().unicode_len();
    let mut i: usize = 0;
    while i < n
        invariant
            i <= n,
            n == prog@.len(),
            tokens@ == tokens_of(prog@.subrange(0, i as int)),
        decreases n - i,
    {
        let c = prog.as_str().get_char(i);
        match c {
            '>' => tokens.push(Token::Next),
            '<' => tokens.push(Token::Prev),
            '+' => tokens.push(Token::Inc),
            '-' => tokens.push(Token::Dec),
            ',' => tokens.push(Token::Read),
            '.' => tokens.push(Token::Write),
            '[' => tokens.push(Token::LoopStart),
            ']' => tokens.push(Token::LoopEnd),
            _ => (),
        }
        proof {
            let s = prog@;
            assert(s.subrange(0, i + 1).drop_last() =~= s.subrange(0, i as int));
            assert(s.subrange(0, i + 1).last() == s[i as int]);
        }
        i = i + 1;
    }
    proof {
        assert(prog@.subrange(0, n as int) =~= prog@);
    }
    tokens
}

/// Law: tokenization emits a token only for recognized characters, keeps
/// them in source order, and never emits more tokens than there are
/// characters. The token sequence is exactly the recognized characters,
/// filtered in order and mapped to their tokens.
pub proof fn lemma_tokens_of_shape(s: Seq<char>)
    ensures
        tokens_of(s).len() <= s.len(),
        tokens_of(s) == s.filter(|c: char| token_of(c) is Some).map_values(
            |c: char| token_of(c)->Some_0,
        ),
    decreases s.len(),
{
    reveal(Seq::filter);
    let pred = |c: char| token_of(c) is Some;
    let f = |c: char| token_of(c)->Some_0;
    if s.len() == 0 {
        assert(tokens_of(s) =~= s.filter(pred).map_values(f));
    } else {
        lemma_tokens_of_shape(s.drop_last());
        assert(tokens_of(s) =~= s.filter(pred).map_values(f));
    }
}

} // verus!
