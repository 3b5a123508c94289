//! The lexical filter: maps each recognized character to its symbol and drops
//! everything else, so that unrecognized characters act as comments.

use vstd::prelude::*;

verus! {

/// The decoded form of one recognized input character.
#[derive(Debug, Clone, Copy, PartialEq, Eq, Structural)]
pub enum Token {
    MovePointerLeft,
    MovePointerRight,
    Decrement,
    Increment,
    Print,
    Read,
    LeftBracket,
    RightBracket,
}

/// The symbol denoted by one character, or `None` for a character that the
/// language treats as a comment.
pub open spec fn token_of(c: char) -> Option<Token> {
    match c {
        '<' => Some(Token::MovePointerLeft),
        '>' => Some(Token::MovePointerRight),
        '+' => Some(Token::Increment),
        '-' => Some(Token::Decrement),
        '.' => Some(Token::Print),
        ',' => Some(Token::Read),
        '[' => Some(Token::LeftBracket),
        ']' => Some(Token::RightBracket),
        _ => None,
    }
}

/// Whether `c` is one of the eight characters the language gives meaning to.
pub open spec fn recognized(c: char) -> bool {
    token_of(c) is Some
}

/// The ordered subsequence of symbols obtained by mapping each recognized
/// character of `s` to its symbol.
pub open spec fn tokens_of(s: Seq<char>) -> Seq<Token>
    decreases s.len(),
{
    if s.len() == 0 {
        Seq::empty()
    } else {
        let rest = tokens_of(s.drop_last());
        match token_of(s.last()) {
            Some(t) => rest.push(t),
            None => rest,
        }
    }
}

/// The filter never produces more symbols than it was given characters.
pub proof fn lemma_tokens_of_len(s: Seq<char>)
    ensures
        tokens_of(s).len() <= s.len(),
    decreases s.len(),
{
    if s.len() > 0 {
        lemma_tokens_of_len(s.drop_last());
    }
}

/// The lexical filter is order-preserving and lossless on recognized
/// characters: its output is exactly the recognized characters of the input,
/// in input order, each replaced by its symbol — so only the eight recognized
/// characters survive, and no more symbols come out than characters went in.
pub proof fn lemma_tokens_of_is_ordered_filter(s: Seq<char>)
    ensures
        tokens_of(s).len() <= s.len(),
        tokens_of(s) == s.filter(|c: char| recognized(c)).map_values(
            |c: char| token_of(c)->Some_0,
        ),
    decreases s.len(),
{
    reveal(Seq::filter);
    lemma_tokens_of_len(s);
    let pred = |c: char| recognized(c);
    let f = |c: char| token_of(c)->Some_0;
    if s.len() == 0 {
        assert(tokens_of(s) =~= s.filter(pred).map_values(f));
    } else {
        lemma_tokens_of_is_ordered_filter(s.drop_last());
        let sub = s.drop_last().filter(pred);
        if pred(s.last()) {
            assert(sub.push(s.last()).map_values(f) =~= sub.map_values(f).push(f(s.last())));
        }
        assert(tokens_of(s) =~= s.filter(pred).map_values(f));
    }
}

/// Maps each recognized character of `s` to its symbol, in order, and drops
/// the unrecognized characters.
pub fn tokenize(s: &str) -> (r: Vec<Token>)
    ensures
        r@ == tokens_of(s@),
{
    let n = s.unicode_len();
    let mut out: Vec<Token> = Vec::new();
    let mut i: usize = 0;
    while i < n
        invariant
            i <= n,
            n == s@.len(),
            out@ == tokens_of(s@.subrange(0, i as int)),
        decreases n - i,
    {
        let c = s.get_char(i);
        match c {
            '<' => out.push(Token::MovePointerLeft),
            '>' => out.push(Token::MovePointerRight),
            '+' => out.push(Token::Increment),
            '-' => out.push(Token::Decrement),
            '.' => out.push(Token::Print),
            ',' => out.push(Token::Read),
            '[' => out.push(Token::LeftBracket),
            ']' => out.push(Token::RightBracket),
            _ => (),
        }
        proof {
            let pre = s@.subrange(0, i as int);
            let ext = s@.subrange(0, i as int + 1);
            assert(ext.drop_last() =~= pre);
            assert(ext.last() == s@[i as int]);
        }
        i = i + 1;
    }
    proof {
        assert(s@.subrange(0, n as int) =~= s@);
    }
    out
}

} // verus!
