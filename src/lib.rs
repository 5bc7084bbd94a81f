use vstd::prelude::*;

pub mod ast;
pub mod balance;
pub mod parser;
pub mod token;
pub mod tokenizer;

use crate::ast::{AstNode, Expr};
use crate::parser::{ParseError, parse_tokens, tree_of};
use crate::tokenizer::{ScanError, scan, scan_line};

verus! {

/// Why a line could not be turned into an expression tree.
#[derive(Debug, Clone, Copy, PartialEq, Eq, Structural)]
pub enum CalcError {
    Scan(ScanError),
    Parse(ParseError),
}

/// What a line compiles to: the tree of its tokens, or the first error.
pub open spec fn compiled(s: Seq<char>) -> Result<Expr, CalcError> {
    match scan(s) {
        Err(e) => Err(CalcError::Scan(e)),
        Ok(ts) => match tree_of(ts) {
            Ok(n) => Ok(n),
            Err(e) => Err(CalcError::Parse(e)),
        },
    }
}

/// Scans and parses one line.
pub fn compile(input: &str) -> (r: Result<AstNode, CalcError>)
    ensures
        match r {
            Ok(n) => compiled(input@) == Ok::<Expr, CalcError>(n@),
            Err(e) => compiled(input@) == Err::<Expr, CalcError>(e),
        },
{
    match scan_line(input) {
        Err(e) => Err(CalcError::Scan(e)),
        Ok(tokens) => {
            match parse_tokens(tokens) {
                Ok(n) => Ok(n),
                Err(e) => Err(CalcError::Parse(e)),
            }
        },
    }
}

} // verus!
