//! The statement builder: a single left-to-right pass over symbols that emits
//! one statement per symbol and tags each loop delimiter with the bracket
//! nesting depth at which it occurred.

use vstd::prelude::*;
use crate::tokenizer::Token;

verus! {

/// The one error the statement builder raises: the bracket nesting depth did
/// not return to zero (an unmatched `[`), or would have gone negative (an
/// unmatched `]`).
#[derive(Debug, Clone, Copy, PartialEq, Eq, Structural)]
pub enum ParseError {
    UnbalancedBrackets,
}

/// One pipeline-intermediate unit per symbol. Loop delimiters carry the
/// bracket nesting depth at which they stand; depth values are reused by
/// sibling loop groups once an inner group has closed.
#[derive(Debug, Clone, Copy, PartialEq, Eq, Structural)]
pub enum Statement {
    ShiftRight,
    ShiftLeft,
    Increment,
    Decrement,
    Print,
    Read,
    JumpIfZero(usize),
    JumpIfNotZero(usize),
}

/// How one symbol changes the bracket nesting depth.
pub open spec fn token_delta(t: Token) -> int {
    match t {
        Token::LeftBracket => 1,
        Token::RightBracket => -1,
        _ => 0,
    }
}

/// The net bracket nesting depth after all of `toks`.
pub open spec fn depth_after(toks: Seq<Token>) -> int
    decreases toks.len(),
{
    if toks.len() == 0 {
        0
    } else {
        depth_after(toks.drop_last()) + token_delta(toks.last())
    }
}

/// No prefix of `toks` closes more brackets than were opened before it.
pub open spec fn prefixes_nonneg(toks: Seq<Token>) -> bool {
    forall|i: int| 0 <= i <= toks.len() ==> depth_after(#[trigger] toks.subrange(0, i)) >= 0
}

/// Every `[` has its `]` and vice versa: the depth counter never goes
/// negative and ends at exactly zero.
pub open spec fn well_bracketed(toks: Seq<Token>) -> bool {
    prefixes_nonneg(toks) && depth_after(toks) == 0
}

/// The statement for one symbol, given the bracket nesting depth in force
/// just before it. A loop-open is tagged with that depth; a loop-close with
/// the depth of the group it closes, which is one less.
pub open spec fn stmt_for(t: Token, depth: int) -> Statement {
    match t {
        Token::MovePointerLeft => Statement::ShiftLeft,
        Token::MovePointerRight => Statement::ShiftRight,
        Token::Increment => Statement::Increment,
        Token::Decrement => Statement::Decrement,
        Token::Print => Statement::Print,
        Token::Read => Statement::Read,
        Token::LeftBracket => Statement::JumpIfZero(depth as usize),
        Token::RightBracket => Statement::JumpIfNotZero((depth - 1) as usize),
    }
}

/// The statement sequence the builder produces for `toks`: one statement per
/// symbol, each loop delimiter tagged with the running depth.
pub open spec fn stmts_of(toks: Seq<Token>) -> Seq<Statement>
    decreases toks.len(),
{
    if toks.len() == 0 {
        Seq::empty()
    } else {
        stmts_of(toks.drop_last()).push(
            stmt_for(toks.last(), depth_after(toks.drop_last())),
        )
    }
}

/// How one statement changes the bracket nesting depth.
pub open spec fn stmt_delta(s: Statement) -> int {
    match s {
        Statement::JumpIfZero(_) => 1,
        Statement::JumpIfNotZero(_) => -1,
        _ => 0,
    }
}

/// The net bracket nesting depth after the first `k` statements of `stmts`.
pub open spec fn stmt_depth(stmts: Seq<Statement>, k: int) -> int
    decreases k,
{
    if k <= 0 {
        0
    } else {
        stmt_depth(stmts, k - 1) + stmt_delta(stmts[k - 1])
    }
}

/// The loop statements of `stmts` nest like brackets: no prefix closes a
/// group that was never opened, and every group is closed by the end.
pub open spec fn stmts_balanced(stmts: Seq<Statement>) -> bool {
    &&& forall|k: int| 0 <= k <= stmts.len() ==> #[trigger] stmt_depth(stmts, k) >= 0
    &&& stmt_depth(stmts, stmts.len() as int) == 0
}

/// `stmt_depth(s, k)` reads only the first `k` statements.
pub proof fn lemma_stmt_depth_agree(s1: Seq<Statement>, s2: Seq<Statement>, k: int)
    requires
        forall|j: int| 0 <= j < k ==> s1[j] == s2[j],
    ensures
        stmt_depth(s1, k) == stmt_depth(s2, k),
    decreases k,
{
    if k > 0 {
        lemma_stmt_depth_agree(s1, s2, k - 1);
    }
}

/// Builds the statement sequence for `tokens`: one statement per symbol, with
/// each loop delimiter tagged by the running bracket nesting depth. Succeeds
/// exactly when the brackets of `tokens` are balanced; any unmatched `[` or
/// `]` is rejected with [`ParseError::UnbalancedBrackets`].
pub fn parse(tokens: &[Token]) -> (r: Result<Vec<Statement>, ParseError>)
    ensures
        r is Ok <==> well_bracketed(tokens@),
        r matches Ok(stmts) ==> {
            &&& stmts@ == stmts_of(tokens@)
            &&& stmts@.len() == tokens@.len()
            &&& stmts_balanced(stmts@)
        },
        r matches Err(e) ==> e == ParseError::UnbalancedBrackets,
{
    let mut depth: usize = 0;
    let mut stmts: Vec<Statement> = Vec::new();
    let mut i: usize = 0;

    while i < tokens.len()
        invariant
            i <= tokens.len(),
            depth <= i,
            depth as int == depth_after(tokens@.subrange(0, i as int)),
            forall|k: int| 0 <= k <= i ==> depth_after(#[trigger] tokens@.subrange(0, k)) >= 0,
            stmts@ == stmts_of(tokens@.subrange(0, i as int)),
            stmts@.len() == i,
            forall|k: int| 0 <= k <= i ==> #[trigger] stmt_depth(stmts@, k)
                == depth_after(tokens@.subrange(0, k)),
        decreases tokens.len() - i,
    {
        let t = tokens[i];
        let ghost pre = tokens@.subrange(0, i as int);
        let ghost ext = tokens@.subrange(0, i as int + 1);
        let ghost old_stmts = stmts@;
        proof {
            assert(ext.drop_last() =~= pre);
            assert(ext.last() == tokens@[i as int]);
        }
        match t {
            Token::MovePointerLeft => stmts.push(Statement::ShiftLeft),
            Token::MovePointerRight => stmts.push(Statement::ShiftRight),
            Token::Increment => stmts.push(Statement::Increment),
            Token::Decrement => stmts.push(Statement::Decrement),
            Token::Print => stmts.push(Statement::Print),
            Token::Read => stmts.push(Statement::Read),
            Token::LeftBracket => {
                stmts.push(Statement::JumpIfZero(depth));
                depth = depth + 1;
            },
            Token::RightBracket => {
                if depth == 0 {
                    proof {
                        assert(depth_after(ext) == -1);
                        assert(!prefixes_nonneg(tokens@));
                    }
                    return Err(ParseError::UnbalancedBrackets);
                }
                depth = depth - 1;
                stmts.push(Statement::JumpIfNotZero(depth));
            },
        }
        proof {
            assert(stmts@.drop_last() =~= old_stmts);
            assert forall|k: int| 0 <= k <= i + 1 implies #[trigger] stmt_depth(stmts@, k)
                == depth_after(tokens@.subrange(0, k)) by {
                lemma_stmt_depth_agree(stmts@, old_stmts, k - 1);
                if k <= i {
                    lemma_stmt_depth_agree(stmts@, old_stmts, k);
                } else {
                    assert(tokens@.subrange(0, k) == ext);
                    assert(stmt_depth(stmts@, k)
                        == stmt_depth(stmts@, k - 1) + stmt_delta(stmts@[k - 1]));
                }
            }
        }
        i = i + 1;
    }
    proof {
        assert(tokens@.subrange(0, tokens@.len() as int) =~= tokens@);
    }
    if depth != 0 {
        Err(ParseError::UnbalancedBrackets)
    } else {
        Ok(stmts)
    }
}

} // verus!
