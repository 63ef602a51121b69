//! Syntactic analysis of programs.
//!
//! The parser turns a token sequence into an instruction sequence in which
//! every loop bracket carries the index of its partner. The specification
//! is declarative: [`is_match`] characterizes the unique canonical pairing
//! of brackets through the nesting-depth function [`depth`], and
//! [`resolves`] pins down the whole instruction sequence position by
//! position.

use vstd::prelude::*;
use vstd::string::StringExecFns;
use crate::lexer::Token;
use crate::lexer::Tokens;

verus! {

/// Available instructions.
#[derive(Clone, Copy, Debug, PartialEq, Eq, Structural)]
pub enum Instruction {
    /// Move to the next cell (`>`).
    Next,
    /// Move to the previous cell (`<`).
    Prev,
    /// Increment the current cell (`+`).
    Inc,
    /// Decrement the current cell (`-`).
    Dec,
    /// Read a byte from the input into the current cell (`,`).
    Read,
    /// Write a byte from the current cell into the output (`.`).
    Write,
    /// Start of a loop ending on the given index (`[`).
    LoopStart(usize),
    /// End of a loop starting on the given index (`]`).
    LoopEnd(usize),
}

/// A vector of instructions.
pub type Instructions = Vec<Instruction>;

/// An internal stack of opened loop indexes that need to be closed before
/// parsing is finished.
type LoopStack = Vec<usize>;

/// Structural errors found while parsing: a loop bracket with no partner,
/// reported with the offending source-order index.
#[derive(Clone, Copy, Debug, PartialEq, Eq, Structural)]
pub enum ParseError {
    /// A loop was opened at `position` and never closed.
    UnmatchedLoopOpen { position: usize },
    /// A loop was closed at `position` with no open loop pending.
    UnmatchedLoopClose { position: usize },
}

/// How one token changes the loop-nesting depth.
pub open spec fn token_delta(tok: Token) -> int {
    match tok {
        Token::LoopStart => 1,
        Token::LoopEnd => -1,
        _ => 0,
    }
}

/// Loop-nesting depth in front of position `k`: the number of loop-opens
/// minus the number of loop-closes among the first `k` tokens.
pub open spec fn depth(t: Seq<Token>, k: int) -> int
    decreases k,
{
    if k <= 0 {
        0
    } else {
        depth(t, k - 1) + token_delta(t[k - 1])
    }
}

/// Positions `i` and `j` bracket one loop: `i` opens it, `j` closes it,
/// the depth never returns to its value outside the loop in between, and
/// right after `j` it does. This pairing is canonical and unique (see
/// [`lemma_match_unique_close`] and [`lemma_match_unique_open`]).
pub open spec fn is_match(t: Seq<Token>, i: int, j: int) -> bool {
    &&& 0 <= i < j < t.len()
    &&& t[i] is LoopStart
    &&& t[j] is LoopEnd
    &&& depth(t, j + 1) == depth(t, i)
    &&& forall|k: int| i < k <= j ==> depth(t, k) > depth(t, i)
}

/// Every loop-close has a pending loop-open and every loop-open is closed.
pub open spec fn well_bracketed(t: Seq<Token>) -> bool {
    &&& forall|k: int| 0 <= k <= t.len() ==> depth(t, k) >= 0
    &&& depth(t, t.len() as int) == 0
}

/// The loop-close at `i` has no pending loop-open, and it is the first
/// position where that happens.
pub open spec fn is_first_unmatched_close(t: Seq<Token>, i: int) -> bool {
    &&& 0 <= i < t.len()
    &&& t[i] is LoopEnd
    &&& depth(t, i) == 0
    &&& forall|k: int| 0 <= k <= i ==> depth(t, k) >= 0
}

/// Every loop-close has a pending loop-open, yet the loop opened at `p`
/// never closes, and among such positions `p` is the most recently opened
/// one.
pub open spec fn is_last_unmatched_open(t: Seq<Token>, p: int) -> bool {
    let n = t.len() as int;
    &&& 0 <= p < n
    &&& t[p] is LoopStart
    &&& forall|k: int| 0 <= k <= n ==> depth(t, k) >= 0
    &&& depth(t, n) > 0
    &&& depth(t, p) == depth(t, n) - 1
    &&& forall|m: int| p < m <= n ==> depth(t, m) >= depth(t, n)
}

/// The instruction a token without loop semantics maps to.
pub open spec fn plain_instruction(tok: Token) -> Instruction {
    match tok {
        Token::Next => Instruction::Next,
        Token::Prev => Instruction::Prev,
        Token::Inc => Instruction::Inc,
        Token::Dec => Instruction::Dec,
        Token::Read => Instruction::Read,
        Token::Write => Instruction::Write,
        Token::LoopStart => Instruction::LoopStart(0),
        Token::LoopEnd => Instruction::LoopEnd(0),
    }
}

/// The instruction at position `i` corresponds to the token at `i`, with
/// loop brackets resolved to their canonical partner.
pub open spec fn resolves_at(t: Seq<Token>, ins: Seq<Instruction>, i: int) -> bool {
    match t[i] {
        Token::LoopStart => ins[i] is LoopStart && is_match(t, i, ins[i]->LoopStart_0 as int),
        Token::LoopEnd => ins[i] is LoopEnd && is_match(t, ins[i]->LoopEnd_0 as int, i),
        _ => ins[i] == plain_instruction(t[i]),
    }
}

/// The instruction sequence `ins` is the full resolution of the token
/// sequence `t`: same length, positional correspondence, and every loop
/// bracket carries the index of its canonical partner.
pub open spec fn resolves(t: Seq<Token>, ins: Seq<Instruction>) -> bool {
    &&& ins.len() == t.len()
    &&& forall|i: int| 0 <= i < t.len() ==> resolves_at(t, ins, i)
}

/// A loop-open has at most one canonical closing partner.
pub proof fn lemma_match_unique_close(t: Seq<Token>, p: int, q1: int, q2: int)
    requires
        is_match(t, p, q1),
        is_match(t, p, q2),
    ensures
        q1 == q2,
{
    if q1 < q2 {
        assert(depth(t, q1 + 1) > depth(t, p));
    }
    if q2 < q1 {
        assert(depth(t, q2 + 1) > depth(t, p));
    }
}

/// A loop-close has at most one canonical opening partner.
pub proof fn lemma_match_unique_open(t: Seq<Token>, p1: int, p2: int, q: int)
    requires
        is_match(t, p1, q),
        is_match(t, p2, q),
    ensures
        p1 == p2,
{
    if p1 < p2 {
        assert(depth(t, p2) > depth(t, p1));
        assert(depth(t, q + 1) == depth(t, p1));
        assert(depth(t, q + 1) == depth(t, p2));
    }
    if p2 < p1 {
        assert(depth(t, p1) > depth(t, p2));
        assert(depth(t, q + 1) == depth(t, p1));
        assert(depth(t, q + 1) == depth(t, p2));
    }
}

/// Law: the resolution of a token sequence is unique — the contract of
/// [`parse`] admits exactly one instruction sequence per input.
pub proof fn lemma_resolution_unique(t: Seq<Token>, a: Seq<Instruction>, b: Seq<Instruction>)
    requires
        resolves(t, a),
        resolves(t, b),
    ensures
        a == b,
{
    assert forall|i: int| 0 <= i < t.len() implies a[i] == b[i] by {
        assert(resolves_at(t, a, i));
        assert(resolves_at(t, b, i));
        match t[i] {
            Token::LoopStart => {
                lemma_match_unique_close(t, i, a[i]->LoopStart_0 as int, b[i]->LoopStart_0 as int);
            }
            Token::LoopEnd => {
                lemma_match_unique_open(t, a[i]->LoopEnd_0 as int, b[i]->LoopEnd_0 as int, i);
            }
            _ => {}
        }
    }
    assert(a =~= b);
}

/// Law: in a resolved instruction sequence every pair of loop brackets
/// points at each other — the target of a target is the original index.
/// Together with the success half of [`parse`]'s contract this says that
/// parsing a well-bracketed token sequence succeeds and resolves every
/// loop-open/loop-close pair mutually.
pub proof fn lemma_parse_round_trip(t: Seq<Token>, ins: Seq<Instruction>)
    requires
        well_bracketed(t),
        resolves(t, ins),
    ensures
        forall|i: int|
            0 <= i < ins.len() && ins[i] is LoopStart ==> {
                let j = ins[i]->LoopStart_0 as int;
                &&& i < j < ins.len()
                &&& ins[j] is LoopEnd
                &&& ins[j]->LoopEnd_0 == i
            },
        forall|j: int|
            0 <= j < ins.len() && ins[j] is LoopEnd ==> {
                let i = ins[j]->LoopEnd_0 as int;
                &&& 0 <= i < j
                &&& ins[i] is LoopStart
                &&& ins[i]->LoopStart_0 == j
            },
{
    assert forall|i: int| 0 <= i < ins.len() && ins[i] is LoopStart implies {
        let j = ins[i]->LoopStart_0 as int;
        &&& i < j < ins.len()
        &&& ins[j] is LoopEnd
        &&& ins[j]->LoopEnd_0 == i
    } by {
        assert(resolves_at(t, ins, i));
        let j = ins[i]->LoopStart_0 as int;
        assert(t[i] is LoopStart);
        assert(is_match(t, i, j));
        assert(resolves_at(t, ins, j));
        lemma_match_unique_open(t, ins[j]->LoopEnd_0 as int, i, j);
    }
    assert forall|j: int| 0 <= j < ins.len() && ins[j] is LoopEnd implies {
        let i = ins[j]->LoopEnd_0 as int;
        &&& 0 <= i < j
        &&& ins[i] is LoopStart
        &&& ins[i]->LoopStart_0 == j
    } by {
        assert(resolves_at(t, ins, j));
        let i = ins[j]->LoopEnd_0 as int;
        assert(t[j] is LoopEnd);
        assert(is_match(t, i, j));
        assert(resolves_at(t, ins, i));
        lemma_match_unique_close(t, i, ins[i]->LoopStart_0 as int, j);
    }
}

/// The loop opened at `p` is still pending right before position `i`: the
/// depth never came back down to its value at `p`.
spec fn pending(t: Seq<Token>, p: int, i: int) -> bool {
    forall|m: int| p < m <= i ==> depth(t, m) > depth(t, p)
}

/// Invariant of the parsing pass over the loop stack after the first `i`
/// tokens: no unmatched close was seen, the stack holds exactly the
/// pending loop-opens in nesting order, and the entry at index `k` sits at
/// depth `k`.
spec fn stack_ok(t: Seq<Token>, i: int, st: Seq<usize>) -> bool {
    &&& 0 <= i <= t.len()
    &&& forall|k: int| 0 <= k <= i ==> depth(t, k) >= 0
    &&& st.len() == depth(t, i)
    &&& forall|k: int|
        0 <= k < st.len() ==> {
            &&& st[k] < i
            &&& t[#[trigger] st[k] as int] is LoopStart
            &&& depth(t, st[k] as int) == k
            &&& pending(t, st[k] as int, i)
        }
    &&& forall|p: int|
        0 <= p < i && t[p] is LoopStart && #[trigger] pending(t, p, i) ==> {
            &&& depth(t, p) < st.len()
            &&& st[depth(t, p)] == p
        }
}

/// Invariant of the parsing pass over the instructions emitted for the
/// first `i` tokens: plain tokens are mapped directly, every close is
/// resolved, and an open is resolved exactly when it is no longer pending
/// (a pending open still holds its placeholder target).
spec fn ins_ok(t: Seq<Token>, i: int, ins: Seq<Instruction>) -> bool {
    &&& ins.len() == i
    &&& forall|p: int| 0 <= p < i ==> ins_entry_ok(t, i, ins, p)
}

spec fn ins_entry_ok(t: Seq<Token>, i: int, ins: Seq<Instruction>, p: int) -> bool {
    match t[p] {
        Token::LoopStart => if pending(t, p, i) {
            ins[p] == Instruction::LoopStart(0)
        } else {
            ins[p] is LoopStart && is_match(t, p, ins[p]->LoopStart_0 as int)
        },
        Token::LoopEnd => ins[p] is LoopEnd && is_match(t, ins[p]->LoopEnd_0 as int, p),
        _ => ins[p] == plain_instruction(t[p]),
    }
}

/// One parsing step over a token without loop semantics keeps both
/// invariants.
proof fn lemma_step_plain(t: Seq<Token>, i: int, ins: Seq<Instruction>, st: Seq<usize>)
    requires
        stack_ok(t, i, st),
        ins_ok(t, i, ins),
        0 <= i < t.len(),
        !(t[i] is LoopStart),
        !(t[i] is LoopEnd),
    ensures
        stack_ok(t, i + 1, st),
        ins_ok(t, i + 1, ins.push(plain_instruction(t[i]))),
{
    let ins1 = ins.push(plain_instruction(t[i]));
    assert(depth(t, i + 1) == depth(t, i));
    assert forall|p: int| 0 <= p < i + 1 implies #[trigger] ins_entry_ok(t, i + 1, ins1, p) by {
        if p < i {
            assert(ins_entry_ok(t, i, ins, p));
            if t[p] is LoopStart {
                assert(pending(t, p, i + 1) ==> pending(t, p, i));
                if pending(t, p, i) && !pending(t, p, i + 1) {
                    assert(depth(t, i + 1) <= depth(t, p));
                    assert(depth(t, i) > depth(t, p));
                }
            }
        } else {
            assert(ins1[p] == plain_instruction(t[i]));
        }
    }
    assert forall|p: int|
        0 <= p < i + 1 && t[p] is LoopStart && #[trigger] pending(t, p, i + 1) implies {
            &&& depth(t, p) < st.len()
            &&& st[depth(t, p)] == p
        } by {
        assert(pending(t, p, i));
        if p == i {
            assert(depth(t, i + 1) > depth(t, i));
        }
    }
}

fn handle_loop_start(
    instructions: &mut Instructions,
    loop_stack: &mut LoopStack,
    i: usize,
    Ghost(t): Ghost<Seq<Token>>,
) -> (r: Result<(), ParseError>)
    requires
        stack_ok(t, i as int, old(loop_stack)@),
        ins_ok(t, i as int, old(instructions)@),
        i < t.len(),
        t[i as int] is LoopStart,
    ensures
        r is Ok,
        stack_ok(t, i + 1, final(loop_stack)@),
        ins_ok(t, i + 1, final(instructions)@),
{
    // We don't know the target yet, so pass 0. It will be updated later when
    // we reach the matching loop end.
    instructions.push(Instruction::LoopStart(0));
    loop_stack.push(i);
    proof {
        let st = old(loop_stack)@;
        let st1 = loop_stack@;
        let ins1 = instructions@;
        assert(depth(t, i + 1) == depth(t, i as int) + 1);
        assert forall|k: int|
            0 <= k < st1.len() implies {
                &&& st1[k] < i + 1
                &&& t[#[trigger] st1[k] as int] is LoopStart
                &&& depth(t, st1[k] as int) == k
                &&& pending(t, st1[k] as int, i + 1)
            } by {
            if k < st.len() {
                assert(st1[k] == st[k]);
                assert(depth(t, i as int) > k);
            } else {
                assert(st1[k] == i);
            }
        }
        assert forall|p: int|
            0 <= p < i + 1 && t[p] is LoopStart && #[trigger] pending(t, p, i + 1) implies {
                &&& depth(t, p) < st1.len()
                &&& st1[depth(t, p)] == p
            } by {
            if p == i {
                assert(st1[depth(t, i as int)] == i);
            } else {
                assert(pending(t, p, i as int));
                assert(st1[depth(t, p)] == st[depth(t, p)]);
            }
        }
        assert forall|p: int| 0 <= p < i + 1 implies #[trigger] ins_entry_ok(t, i + 1, ins1, p) by {
            if p < i {
                assert(ins_entry_ok(t, i as int, old(instructions)@, p));
                if t[p] is LoopStart {
                    assert(pending(t, p, i + 1) ==> pending(t, p, i as int));
                    if pending(t, p, i as int) {
                        assert(depth(t, i as int) > depth(t, p));
                        assert(depth(t, i + 1) > depth(t, p));
                        assert(pending(t, p, i + 1));
                    }
                }
            } else {
                assert(pending(t, i as int, i + 1));
            }
        }
    }
    Ok(())
}

fn handle_loop_end(
    instructions: &mut Instructions,
    loop_stack: &mut LoopStack,
    i: usize,
    Ghost(t): Ghost<Seq<Token>>,
) -> (r: Result<(), ParseError>)
    requires
        stack_ok(t, i as int, old(loop_stack)@),
        ins_ok(t, i as int, old(instructions)@),
        i < t.len(),
        t[i as int] is LoopEnd,
    ensures
        match r {
            Ok(()) => stack_ok(t, i + 1, final(loop_stack)@) && ins_ok(
                t,
                i + 1,
                final(instructions)@,
            ),
            Err(e) => {
                &&& e == (ParseError::UnmatchedLoopClose { position: i })
                &&& is_first_unmatched_close(t, i as int)
                &&& !well_bracketed(t)
            },
        },
{
    let target = match loop_stack.pop() {
        Some(target) => target,
        None => {
            proof {
                assert(depth(t, i as int) == 0);
                assert(depth(t, i + 1) == -1);
            }
            return Err(ParseError::UnmatchedLoopClose { position: i });
        },
    };
    instructions.push(Instruction::LoopEnd(target));
    // Update the index of the target in the loop start because it was
    // initialized to zero.
    instructions[target] = Instruction::LoopStart(i);
    proof {
        let st = old(loop_stack)@;
        let st1 = loop_stack@;
        let ins = old(instructions)@;
        let ins1 = instructions@;
        let j = target as int;
        let k = st.len() - 1;
        assert(st1 =~= st.drop_last());
        assert(st[k] == target);
        assert(depth(t, j) == k);
        assert(pending(t, j, i as int));
        assert(depth(t, i + 1) == depth(t, i as int) - 1);
        assert(is_match(t, j, i as int));
        assert(ins1 =~= ins.push(Instruction::LoopEnd(target)).update(j, Instruction::LoopStart(i)));
        // The stack invariant at i + 1.
        assert forall|m: int|
            0 <= m < st1.len() implies {
                &&& st1[m] < i + 1
                &&& t[#[trigger] st1[m] as int] is LoopStart
                &&& depth(t, st1[m] as int) == m
                &&& pending(t, st1[m] as int, i + 1)
            } by {
            assert(st1[m] == st[m]);
            assert(pending(t, st[m] as int, i as int));
            assert(depth(t, i + 1) == k > m);
        }
        assert forall|p: int|
            0 <= p < i + 1 && t[p] is LoopStart && #[trigger] pending(t, p, i + 1) implies {
                &&& depth(t, p) < st1.len()
                &&& st1[depth(t, p)] == p
            } by {
            assert(depth(t, i + 1) > depth(t, p));
            assert(pending(t, p, i as int));
            assert(st[depth(t, p)] == p);
            assert(depth(t, p) < k);
            assert(st1[depth(t, p)] == st[depth(t, p)]);
        }
        // The instruction invariant at i + 1.
        assert forall|p: int| 0 <= p < i + 1 implies #[trigger] ins_entry_ok(t, i + 1, ins1, p) by {
            if p == i {
                assert(ins1[p] == Instruction::LoopEnd(target));
            } else if p == j {
                assert(ins1[p] == Instruction::LoopStart(i));
                assert(!pending(t, j, i + 1));
            } else {
                assert(ins_entry_ok(t, i as int, ins, p));
                assert(ins1[p] == ins[p]);
                if t[p] is LoopStart {
                    if pending(t, p, i + 1) {
                        assert(pending(t, p, i as int));
                    } else if pending(t, p, i as int) {
                        // An open pending before the close but not after it
                        // would sit at the top of the stack, which is `j`.
                        assert(depth(t, i + 1) <= depth(t, p));
                        assert(depth(t, p) < st.len());
                        assert(depth(t, p) >= k);
                        assert(st[k] == p);
                        assert(false);
                    }
                }
            }
        }
    }
    Ok(())
}

fn ensure_all_loops_have_ended(loop_stack: &LoopStack, Ghost(t): Ghost<Seq<Token>>) -> (r: Result<
    (),
    ParseError,
>)
    requires
        stack_ok(t, t.len() as int, loop_stack@),
    ensures
        match r {
            Ok(()) => well_bracketed(t),
            Err(e) => {
                &&& e matches ParseError::UnmatchedLoopOpen { position }
                    && is_last_unmatched_open(t, position as int)
                &&& !well_bracketed(t)
            },
        },
{
    if loop_stack.len() == 0 {
        Ok(())
    } else {
        let i = loop_stack[loop_stack.len() - 1];
        proof {
            let st = loop_stack@;
            let n = t.len() as int;
            let k = st.len() - 1;
            assert(st[k] == i);
            assert(depth(t, i as int) == depth(t, n) - 1);
            assert forall|m: int| i < m <= n implies depth(t, m) >= depth(t, n) by {
                assert(pending(t, i as int, n));
                assert(depth(t, m) > k);
            }
        }
        Err(ParseError::UnmatchedLoopOpen { position: i })
    }
}

/// Parses the given vector of tokens into a vector of instructions.
///
/// Success and failure are characterized exactly: parsing succeeds if and
/// only if the tokens are well bracketed, and then every loop bracket is
/// resolved to its canonical partner; a close with no pending open is
/// reported at the first position where that happens, and an open that
/// never closes is reported at the most recently opened such position.
///
/// # Arguments
///
/// * `tokens` - Tokens representing a program.
pub fn parse(tokens: &Tokens) -> (r: Result<Instructions, ParseError>)
    ensures
        well_bracketed(tokens@) <==> r is Ok,
        match r {
            Ok(ins) => resolves(tokens@, ins@),
            Err(ParseError::UnmatchedLoopClose { position }) => is_first_unmatched_close(
                tokens@,
                position as int,
            ),
            Err(ParseError::UnmatchedLoopOpen { position }) => is_last_unmatched_open(
                tokens@,
                position as int,
            ),
        },
{
    let ghost t = tokens@;
    let mut instructions = Instructions::with_capacity(tokens.len());
    let mut loop_stack = LoopStack::new();
    let n = tokens.len();
    let mut i: usize = 0;
    while i < n
        invariant
            i <= n,
            n == t.len(),
            tokens@ == t,
            stack_ok(t, i as int, loop_stack@),
            ins_ok(t, i as int, instructions@),
        decreases n - i,
    {
        let ghost pre_ins = instructions@;
        let ghost pre_st = loop_stack@;
        let token = tokens[i];
        match token {
            Token::Next => instructions.push(Instruction::Next),
            Token::Prev => instructions.push(Instruction::Prev),
            Token::Inc => instructions.push(Instruction::Inc),
            Token::Dec => instructions.push(Instruction::Dec),
            Token::Read => instructions.push(Instruction::Read),
            Token::Write => instructions.push(Instruction::Write),
            Token::LoopStart => {
                handle_loop_start(&mut instructions, &mut loop_stack, i, Ghost(t))?;
            },
            Token::LoopEnd => {
                handle_loop_end(&mut instructions, &mut loop_stack, i, Ghost(t))?;
            },
        }
        proof {
            if !(t[i as int] is LoopStart) && !(t[i as int] is LoopEnd) {
                lemma_step_plain(t, i as int, pre_ins, pre_st);
                assert(instructions@ == pre_ins.push(plain_instruction(t[i as int])));
            }
        }
        i = i + 1;
    }
    ensure_all_loops_have_ended(&loop_stack, Ghost(t))?;
    proof {
        assert forall|p: int| 0 <= p < t.len() implies #[trigger] resolves_at(t, instructions@, p) by {
            assert(ins_entry_ok(t, t.len() as int, instructions@, p));
            if t[p] is LoopStart {
                assert(depth(t, t.len() as int) <= depth(t, p));
                assert(!pending(t, p, t.len() as int));
            }
        }
    }
    Ok(instructions)
}

/// The character of a single decimal digit.
pub open spec fn digit_char(d: nat) -> char {
    if d == 0 {
        '0'
    } else if d == 1 {
        '1'
    } else if d == 2 {
        '2'
    } else if d == 3 {
        '3'
    } else if d == 4 {
        '4'
    } else if d == 5 {
        '5'
    } else if d == 6 {
        '6'
    } else if d == 7 {
        '7'
    } else if d == 8 {
        '8'
    } else {
        '9'
    }
}

/// The decimal rendering of `n`, most significant digit first, without
/// leading zeros (a single `'0'` for zero).
pub open spec fn dec_str(n: nat) -> Seq<char>
    decreases n,
{
    if n < 10 {
        seq![digit_char(n)]
    } else {
        dec_str(n / 10).push(digit_char(n % 10))
    }
}

fn digit_str(d: usize) -> (s: &'static str)
    requires
        d < 10,
    ensures
        s@ == seq![digit_char(d as nat)],
{
    proof {
        reveal_strlit("0");
        reveal_strlit("1");
        reveal_strlit("2");
        reveal_strlit("3");
        reveal_strlit("4");
        reveal_strlit("5");
        reveal_strlit("6");
        reveal_strlit("7");
        reveal_strlit("8");
        reveal_strlit("9");
    }
    let s = if d == 0 {
        "0"
    } else if d == 1 {
        "1"
    } else if d == 2 {
        "2"
    } else if d == 3 {
        "3"
    } else if d == 4 {
        "4"
    } else if d == 5 {
        "5"
    } else if d == 6 {
        "6"
    } else if d == 7 {
        "7"
    } else if d == 8 {
        "8"
    } else {
        "9"
    };
    proof {
        assert(s@ =~= seq![digit_char(d as nat)]);
    }
    s
}

fn usize_to_string(n: usize) -> (s: String)
    ensures
        s@ == dec_str(n as nat),
    decreases n,
{
    if n < 10 {
        digit_str(n).to_owned()
    } else {
        let mut s = usize_to_string(n / 10);
        s.append(digit_str(n % 10));
        proof {
            assert(s@ =~= dec_str(n as nat));
        }
        s
    }
}

impl ParseError {
    /// The human-readable message of this error, with the offending index
    /// rendered in decimal.
    pub open spec fn spec_message(self) -> Seq<char> {
        match self {
            ParseError::UnmatchedLoopOpen { position } => "missing end of a loop started at index "@
                + dec_str(position as nat),
            ParseError::UnmatchedLoopClose { position } => "missing start of a loop ended at index "@
                + dec_str(position as nat),
        }
    }

    /// Renders this error as its human-readable message.
    pub fn message(&self) -> (s: String)
        ensures
            s@ == self.spec_message(),
    {
        match *self {
            ParseError::UnmatchedLoopOpen { position } => {
                let mut s = "missing end of a loop started at index ".to_owned();
                let num = usize_to_string(position);
                s.append(num.as_str());
                s
            },
            ParseError::UnmatchedLoopClose { position } => {
                let mut s = "missing start of a loop ended at index ".to_owned();
                let num = usize_to_string(position);
                s.append(num.as_str());
                s
            },
        }
    }
}

} // verus!
