//! A compiler and bounded-tape virtual machine for a minimal, eight-instruction
//! tape language: pointer movement, cell increment/decrement, byte output, byte
//! input, and a pair of bracketed loop delimiters meaning "skip the loop body if
//! the current cell is zero; otherwise repeat".
//!
//! The pipeline runs strictly forward: characters are filtered to symbols
//! ([`tokenizer::tokenize`]), symbols become depth-tagged statements
//! ([`parser::parse`]), statements are folded and their brackets resolved into
//! absolute jump targets ([`vm::compile`]), and the resulting instruction stream
//! runs against a fixed-capacity byte tape ([`vm::VM::eval`]).

use vstd::prelude::*;

pub mod parser;
pub mod tokenizer;
pub mod vm;

use parser::{parse, ParseError};
use tokenizer::tokenize;
use vm::{compile, Instruction};

verus! {

/// Compiles a complete program: filters the characters of `src` to symbols,
/// builds the depth-tagged statement sequence, and lowers it to a resolved
/// instruction stream. Succeeds exactly on well-bracketed programs; every
/// other program is rejected with [`ParseError::UnbalancedBrackets`].
pub fn compile_source(src: &str) -> (r: Result<Vec<Instruction>, ParseError>)
    requires
        src@.len() <= i32::MAX as int,
    ensures
        r is Ok <==> parser::well_bracketed(tokenizer::tokens_of(src@)),
        r matches Ok(code) ==> code@ == vm::compiled(parser::stmts_of(tokenizer::tokens_of(src@))),
        r matches Err(e) ==> e == ParseError::UnbalancedBrackets,
{
    let tokens = tokenize(src);
    proof {
        tokenizer::lemma_tokens_of_len(src@);
    }
    match parse(&tokens) {
        Ok(stmts) => Ok(compile(&stmts)),
        Err(e) => Err(e),
    }
}

} // verus!
