//! A regular-expression engine with one notation for named groups and
//! backreferences.
//!
//! A pattern goes through four stages: the lexer turns its codepoints into
//! tokens, the parser turns the tokens into a syntax tree, the compiler
//! turns the tree into an automaton, and the simulation runs the automaton
//! on an input. What each stage computes is a function that is written down
//! next to it, and each stage is proved to compute that function.
//!
//! What the matches of a pattern are is stated a second time, without
//! regard to how the simulation finds them, as walks through the automaton
//! ([`paths`], [`complete`]). On that rest the laws of the notation:
//! counted repetition ([`counted`], [`regroup`], [`ranges`], [`from_zero`]),
//! lazy and greedy quantifiers ([`laziness`]), the groups of a match
//! ([`numbered`]), relative backreferences ([`alike`], [`relative`]), a
//! repetition in a repetition ([`nested`]), and the round trip through the
//! notation that transpiling writes ([`roundtrip`], with [`spelling`],
//! [`reread`], [`normal`] and [`zeros`]).

use vstd::prelude::*;

pub mod alike;
pub mod ast;
pub mod complete;
pub mod counted;
pub mod engine;
pub mod error;
pub mod from_zero;
pub mod grammar;
pub mod groups;
pub mod handle;
pub mod laziness;
pub mod lexer;
pub mod nested;
pub mod nfa;
pub mod normal;
pub mod numbered;
pub mod parser;
pub mod paths;
pub mod pieces;
pub mod ranges;
pub mod regroup;
pub mod relative;
pub mod reread;
pub mod replace;
pub mod roundtrip;
pub mod shift;
pub mod simulation;
pub mod spelling;
pub mod text;
pub mod thompson;
pub mod transpiler;
pub mod zeros;

pub use ast::Expr;
pub use engine::{Match, ModeFlags, Regex};
pub use error::{LexerErrorKind, ParseError, RegexError, Span, SpannedError};
pub use groups::{GroupCollector, GroupInfo, GroupRegistry, GroupRegistryError};
pub use handle::{MatchHandle, RegexHandle};
pub use lexer::{Lexer, Token};
pub use nfa::{Nfa, State, StateId, Transition};
pub use parser::{parse, Parser};
pub use replace::{Replacement, ReplacementError, ReplacementPart};
pub use transpiler::{transpile, transpile_debug, TranspileResult};

verus! {

/// The pattern `input` in conventional notation.
pub fn compile(input: &str) -> (r: Result<String, error::RegexError>)
    ensures
        match r {
            Ok(s) => transpiler::transpiled(input@) == Ok::<Seq<char>, error::RegexErrorView>(s@),
            Err(e) => transpiler::transpiled(input@) == Err::<Seq<char>, error::RegexErrorView>(
                e@,
            ),
        },
{
    transpiler::transpile(input)
}

} // verus!
