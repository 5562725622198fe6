//! From the unified notation to the conventional one, in which a named
//! group reads `(?<name>...)`.

use crate::ast::{Expr, ExprView, regex_text};
use crate::error::{RegexError, RegexErrorView};
use crate::grammar::pattern_tree;
use crate::parser::read_pattern;
use vstd::prelude::*;
use vstd::string::*;

verus! {

/// How the derived `Debug` form of a syntax tree reads.
pub uninterp spec fn debug_form(e: ExprView) -> Seq<char>;

/// Formats `expr` with the `Debug` implementation that `derive` wrote for
/// it. The text is a function of the tree alone; nothing more is claimed.
#[verifier::external_body]
fn debug_text(expr: &Expr) -> (s: String)
    ensures
        s@ == debug_form(expr@),
{
    format!("{:?}", expr)
}

/// What transpiling the pattern `s` gives: the conventional notation of its
/// syntax tree, or the error of reading it.
pub open spec fn transpiled(s: Seq<char>) -> Result<Seq<char>, RegexErrorView> {
    match pattern_tree(s) {
        Ok(ast) => Ok(regex_text(ast)),
        Err(e) => Err(e),
    }
}

/// The pattern `input` in conventional notation.
pub fn transpile(input: &str) -> (r: Result<String, RegexError>)
    ensures
        match r {
            Ok(s) => transpiled(input@) == Ok::<Seq<char>, RegexErrorView>(s@),
            Err(e) => transpiled(input@) == Err::<Seq<char>, RegexErrorView>(e@),
        },
{
    match read_pattern(input) {
        Ok(ast) => Ok(ast.to_regex_string()),
        Err(e) => Err(e),
    }
}

/// A transpilation with what it went through.
#[derive(Debug, Clone)]
pub struct TranspileResult {
    /// The pattern as it was given.
    pub input: String,
    /// The syntax tree, in its `Debug` form.
    pub ast: String,
    /// The pattern in conventional notation.
    pub output: String,
}

impl TranspileResult {
    /// The report of the transpilation, line by line.
    pub open spec fn report(&self) -> Seq<char> {
        "Transpilation Report\n"@ + "====================\n"@ + "Input:  "@ + self.input@
            + "\nAST:    "@ + self.ast@ + "\nOutput: "@ + self.output@ + "\n"@
    }

    /// The report of the transpilation, line by line.
    pub fn report_text(&self) -> (s: String)
        ensures
            s@ == self.report(),
    {
        let mut s = String::from_str("Transpilation Report\n");
        s.append("====================\n");
        s.append("Input:  ");
        s.append(self.input.as_str());
        s.append("\nAST:    ");
        s.append(self.ast.as_str());
        s.append("\nOutput: ");
        s.append(self.output.as_str());
        s.append("\n");
        s
    }
}

/// The pattern `input` in conventional notation, with the pattern itself
/// and its syntax tree.
pub fn transpile_debug(input: &str) -> (r: Result<TranspileResult, RegexError>)
    ensures
        match r {
            Ok(t) => pattern_tree(input@) is Ok && t.input@ == input@ && t.ast@ == debug_form(
                pattern_tree(input@)->Ok_0,
            ) && t.output@ == regex_text(pattern_tree(input@)->Ok_0),
            Err(e) => pattern_tree(input@) == Err::<ExprView, RegexErrorView>(e@),
        },
{
    match read_pattern(input) {
        Ok(ast) => Ok(
            TranspileResult {
                input: String::from_str(input),
                ast: debug_text(&ast),
                output: ast.to_regex_string(),
            },
        ),
        Err(e) => Err(e),
    }
}

} // verus!
