//! The stages of compilation, in the order in which a program passes them,
//! and the whole way from source text to procedure.
use vstd::prelude::*;
use crate::compiler::codegen::{codegen, CodegenError};
use crate::compiler::ir::{halts_once, well_formed, Procedure};
use crate::compiler::lexer::{lex, tokens_of, Token};
use crate::compiler::lowering::{lemma_supported_symbols, loops, lowered};
use crate::compiler::parser::{imbalance, ParseError, Parser};
use crate::compiler::syntax::{
    balanced, depth, lemma_program_of, lemma_unparse, peak, program_of, unparse, Node,
};

pub mod lexer;
pub mod syntax;
pub mod parser;
pub mod ir;
pub mod lowering;
pub mod shape;
pub mod codegen;

verus! {

/// Why a source text does not compile, named by the stage that refused it.
#[derive(Debug, Clone, Copy, PartialEq, Eq)]
pub enum CompileError {
    /// The brackets of the text do not match.
    Parse(ParseError),
    /// The program holds what has no lowering.
    Codegen(CodegenError),
}

/// A source text whose brackets are balanced spells a program, and the
/// loops of that program nest as deep as the brackets of the text.
pub proof fn lemma_balanced_text(text: Seq<char>)
    requires
        balanced(tokens_of(text)),
    ensures
        unparse(program_of(tokens_of(text))) == tokens_of(text),
        depth(program_of(tokens_of(text))) == peak(tokens_of(text)),
{
    lemma_program_of(tokens_of(text));
}

/// A source text with a bracket that has no partner spells no program.
pub proof fn lemma_unbalanced_text(text: Seq<char>, nodes: Seq<Node>)
    requires
        !balanced(tokens_of(text)),
    ensures
        unparse(nodes) != tokens_of(text),
{
    lemma_unparse(nodes);
}

/// Compiles source text to its procedure. Nothing comes out of a text that
/// a stage refuses: a text whose brackets do not match is refused by the
/// parser, and one that reads input by the code generator.
pub fn compile(source: &str) -> (result: Result<Procedure, CompileError>)
    ensures
        match result {
            Ok(procedure) => {
                let program = program_of(tokens_of(source@));
                &&& balanced(tokens_of(source@))
                &&& !tokens_of(source@).contains(Token::Read)
                &&& procedure@ == lowered(program)
                &&& procedure@.blocks.len() == 1 + 3 * loops(program)
                &&& well_formed(procedure@)
                &&& halts_once(procedure@)
            },
            Err(CompileError::Parse(error)) => imbalance(tokens_of(source@)) == Some(error),
            Err(CompileError::Codegen(_)) => {
                &&& balanced(tokens_of(source@))
                &&& tokens_of(source@).contains(Token::Read)
            },
        },
{
    proof {
        lemma_program_of(tokens_of(source@));
        lemma_supported_symbols(program_of(tokens_of(source@)));
    }
    let tokens = lex(source);
    let mut parser = Parser::new();
    parser.parse(tokens);
    if let Some(error) = parser.failure() {
        return Err(CompileError::Parse(error));
    }
    match codegen(parser.code_elements()) {
        Ok(procedure) => Ok(procedure),
        Err(error) => Err(CompileError::Codegen(error)),
    }
}

} // verus!
