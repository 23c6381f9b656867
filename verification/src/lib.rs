//! A calculator for sums of non-negative integers, with parentheses.
//!
//! A line of text is first cut into tokens by [`tokenizer::tokenize`] and the
//! tokens are then evaluated by [`parser::Parser`]. Numbers are kept in 32
//! bits: a number or a sum too large for that wraps around modulo 2^32.

use crate::parser::{expr_at, outcome, ParseError, Parser};
use crate::tokenizer::{scan, tokenize, Token, TokenizerError};
use vstd::prelude::*;

pub mod parser;
pub mod parser_laws;
pub mod scan_laws;
pub mod tokenizer;
pub mod wrap;

verus! {

/// Why a line of text has no value.
#[derive(Debug, PartialEq, Eq, Clone, Copy, Structural)]
pub enum InputError {
    /// The line holds a character that belongs to no token.
    Tokenizer(TokenizerError),
    /// The tokens of the line do not form an expression.
    Parser(ParseError),
}

impl InputError {
    /// The message for the user: that of the error inside.
    pub fn message(&self) -> (text: String)
        ensures
            text@ == match *self {
                InputError::Tokenizer(TokenizerError::UnexpectedCharacter(c)) =>
                    "Unexpected character "@.push(c),
                InputError::Parser(_) => "Unable to parse input."@,
            },
    {
        match self {
            InputError::Tokenizer(e) => e.message(),
            InputError::Parser(e) => e.message(),
        }
    }
}

/// The value of the expression written in `line`, or why it has none.
pub open spec fn evaluation(line: Seq<char>) -> Result<u32, InputError> {
    match scan(line) {
        Ok(tokens) => match outcome(expr_at(tokens, 0).value) {
            Ok(value) => Ok(value),
            Err(e) => Err(InputError::Parser(e)),
        },
        Err(e) => Err(InputError::Tokenizer(e)),
    }
}

/// What is left of `line` when the white space at its start and at its end
/// is taken away, as `str::trim` does it.
pub uninterp spec fn trimmed(line: Seq<char>) -> Seq<char>;

/// Calls `str::trim`, which returns the part of `input` between its leading
/// and its trailing white space. The contract only gives that part its
/// name, `trimmed`: which characters count as white space is not stated.
#[verifier::external_body]
fn trim(input: &str) -> (line: &str)
    ensures
        line@ == trimmed(input@),
{
    input.trim()
}

/// Evaluates the expression written in `line`.
pub fn evaluate(line: &str) -> (result: Result<u32, InputError>)
    ensures
        result == evaluation(line@),
{
    let tokens = match tokenize(line) {
        Ok(tokens) => tokens,
        Err(e) => {
            return Err(InputError::Tokenizer(e));
        },
    };
    let mut parser = match Parser::new(tokens) {
        Ok(parser) => parser,
        Err(e) => {
            return Err(InputError::Parser(e));
        },
    };
    match parser.parse() {
        Ok(value) => Ok(value),
        Err(e) => Err(InputError::Parser(e)),
    }
}

/// Evaluates one line as the user typed it: the white space around it,
/// such as the line break at its end, is taken away first.
pub fn process_user_input(input: &str) -> (result: Result<u32, InputError>)
    ensures
        result == evaluation(trimmed(input@)),
{
    evaluate(trim(input))
}

/// Scanning a line and evaluating its tokens a second time gives what it
/// gave the first time, the same tokens and the same value or the same
/// error: both steps are functions of what they are given, and keep
/// nothing from one call to the next.
pub proof fn lemma_scan_then_parse_is_repeatable(
    line: Seq<char>,
    first_tokens: Result<Seq<Token>, TokenizerError>,
    first: Result<u32, ParseError>,
    second_tokens: Result<Seq<Token>, TokenizerError>,
    second: Result<u32, ParseError>,
)
    requires
        first_tokens == scan(line),
        second_tokens == scan(line),
        first_tokens is Ok ==> first == outcome(expr_at(first_tokens->Ok_0, 0).value),
        second_tokens is Ok ==> second == outcome(expr_at(second_tokens->Ok_0, 0).value),
    ensures
        first_tokens == second_tokens,
        first_tokens is Ok ==> first == second,
{
}

} // verus!
