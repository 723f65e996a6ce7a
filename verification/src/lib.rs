//! Front end of an LR parser-generator toolchain: a reader for Yacc grammar
//! text, the grammar that it yields, and the generator that keeps a lexer's
//! rule ids in step with the grammar's tokens.

use vstd::prelude::*;

pub mod builder;
pub mod grammar;
pub mod grammar_ast;
pub mod idmap;
pub mod lexer;
pub mod names;
pub mod printer;
pub mod reparse;
pub mod text;
pub mod trusted;
pub mod written;
pub mod yacc;

pub use crate::grammar::ast_to_grammar;
pub use crate::grammar_ast::{GrammarAST, GrammarASTError};
pub use crate::yacc::{YaccError, YaccErrorKind};
use crate::grammar_ast::{GrammarView, has_rule_named};
use crate::yacc::{parse_yacc, parsed};

verus! {

/// Why a grammar text gave no grammar: it could not be read, or what was
/// read is not valid.
#[derive(Debug)]
pub enum FromYaccError {
    YaccError(YaccError),
    GrammarASTError(GrammarASTError),
}

impl From<YaccError> for FromYaccError {
    fn from(err: YaccError) -> (r: FromYaccError) {
        FromYaccError::YaccError(err)
    }
}

impl vstd::std_specs::convert::FromSpecImpl<YaccError> for FromYaccError {
    open spec fn obeys_from_spec() -> bool {
        true
    }

    open spec fn from_spec(err: YaccError) -> FromYaccError {
        FromYaccError::YaccError(err)
    }
}

impl From<GrammarASTError> for FromYaccError {
    fn from(err: GrammarASTError) -> (r: FromYaccError) {
        FromYaccError::GrammarASTError(err)
    }
}

impl vstd::std_specs::convert::FromSpecImpl<GrammarASTError> for FromYaccError {
    open spec fn obeys_from_spec() -> bool {
        true
    }

    open spec fn from_spec(err: GrammarASTError) -> FromYaccError {
        FromYaccError::GrammarASTError(err)
    }
}

impl FromYaccError {
    /// The error in words.
    pub fn message(&self) -> (r: String)
        ensures
            r@ == match self {
                FromYaccError::YaccError(e) => e@.message(),
                FromYaccError::GrammarASTError(e) => e.spec_message(),
            },
    {
        match self {
            FromYaccError::YaccError(e) => e.message(),
            FromYaccError::GrammarASTError(e) => e.message(),
        }
    }
}

/// Whether the grammar `g` is valid: a declared start symbol names a rule.
pub open spec fn is_valid(g: GrammarView) -> bool {
    g.start matches Some(n) ==> has_rule_named(g.rules, n)
}

/// Reads the grammar text `s` and validates what was read.
pub fn from_yacc(s: &String) -> (r: Result<GrammarAST, FromYaccError>)
    ensures
        match parsed(s@) {
            Err(e) => r matches Err(FromYaccError::YaccError(x)) && x@ == e && x.off <= s@.len(),
            Ok(gv) => if is_valid(gv) {
                r matches Ok(g) && g@ == gv && g@.terminals_are_tokens()
            } else {
                r matches Err(FromYaccError::GrammarASTError(GrammarASTError::InvalidStartRule(n)))
                    && gv.start == Some(n@)
            },
        },
{
    let grmast = match parse_yacc(s) {
        Ok(g) => g,
        Err(e) => {
            return Err(FromYaccError::from(e));
        },
    };
    match grmast.validate() {
        Ok(_) => Ok(grmast),
        Err(e) => Err(FromYaccError::from(e)),
    }
}

} // verus!
