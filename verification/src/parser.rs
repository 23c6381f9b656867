//! The evaluator: a recursive-descent parser that computes the value of the
//! expression while it reads the tokens.
//!
//! The grammar, with `P` as its start symbol:
//!
//! ```text
//! P  -> E
//! E  -> T E'
//! E' -> + T E' | ϵ
//! T  -> ( E ) | num
//! ```
//!
//! The parser reads one expression from its cursor on and stops behind it;
//! what follows the expression is left unread. Where the list of tokens
//! ends without `EOF`, the end of the list is read as `EOF` is. Sums are
//! kept in 32 bits and wrap around modulo 2^32.

use crate::tokenizer::Token;
use crate::wrap::{lemma_wrap_add, lemma_wrap_small, wrap};
use vstd::prelude::*;

verus! {

/// Why a list of tokens could not be evaluated.
#[derive(Debug, PartialEq, Eq, Clone, Copy, Structural)]
pub enum ParseError {
    /// The tokens do not form an expression.
    GenericError,
    /// There are no tokens at all.
    NoInput,
}

impl ParseError {
    /// The message for the user, the same for both errors.
    pub fn message(&self) -> (text: String)
        ensures
            text@ == "Unable to parse input."@,
    {
        "Unable to parse input.".to_owned()
    }
}

/// What reading one grammar symbol at some position comes to.
pub struct Parsed {
    /// The value of what was read, or `None` where the tokens do not fit
    /// the symbol.
    pub value: Option<int>,
    /// How many tokens were taken. After a failure, these are the tokens
    /// that were taken before the reading was given up.
    pub taken: nat,
}

/// What reading `first` and then `rest` behind it comes to: the sum of both
/// values, if both have one. Where `first` has none, the reading ends with
/// it and `rest` does not count.
pub open spec fn and_then_sum(first: Parsed, rest: Parsed) -> Parsed {
    match (first.value, rest.value) {
        (Some(v), Some(w)) => Parsed { value: Some(v + w), taken: first.taken + rest.taken },
        (Some(_), None) => Parsed { value: None, taken: first.taken + rest.taken },
        (None, _) => first,
    }
}

/// Whether a plus sign stands at position `i`.
pub open spec fn has_plus_at(tokens: Seq<Token>, i: nat) -> bool {
    i < tokens.len() && tokens[i as int] == Token::Plus
}

/// Reads `T -> ( E ) | num` at position `i`.
///
/// Where the list has ended, nothing is taken. Any other token that cannot
/// start a term is taken and the reading fails. After `( E`, a token that
/// is not the closing bracket is left in place.
pub open spec fn term_at(tokens: Seq<Token>, i: nat) -> Parsed
    decreases
            if i < tokens.len() {
                tokens.len() - i
            } else {
                0
            },
            0nat,
{
    if i >= tokens.len() {
        Parsed { value: None, taken: 0 }
    } else {
        match tokens[i as int] {
            Token::Num(v) => Parsed { value: Some(v as int), taken: 1 },
            Token::LBracket => {
                let inner = expr_at(tokens, i + 1);
                let end = i + 1 + inner.taken;
                if inner.value is Some && end < tokens.len() && tokens[end as int]
                    == Token::RBracket {
                    Parsed { value: inner.value, taken: inner.taken + 2 }
                } else {
                    Parsed { value: None, taken: inner.taken + 1 }
                }
            },
            _ => Parsed { value: None, taken: 1 },
        }
    }
}

/// Reads `E' -> + T E' | ϵ` at position `i`: the sum of the terms that
/// follow one plus sign each. Where no plus sign stands, that is zero, with
/// no token taken.
pub open spec fn tail_at(tokens: Seq<Token>, i: nat) -> Parsed
    decreases
            if i < tokens.len() {
                tokens.len() - i
            } else {
                0
            },
            1nat,
{
    if has_plus_at(tokens, i) {
        let term = term_at(tokens, i + 1);
        let plus_term = Parsed { value: term.value, taken: term.taken + 1 };
        and_then_sum(plus_term, tail_at(tokens, i + plus_term.taken))
    } else {
        Parsed { value: Some(0), taken: 0 }
    }
}

/// Reads `E -> T E'` at position `i`: a term and the terms added to it.
pub open spec fn expr_at(tokens: Seq<Token>, i: nat) -> Parsed
    decreases
            if i < tokens.len() {
                tokens.len() - i
            } else {
                0
            },
            2nat,
{
    let term = term_at(tokens, i);
    and_then_sum(term, tail_at(tokens, i + term.taken))
}

/// What the parser hands out for a value read from the tokens: the value
/// in 32 bits, or `GenericError` where there is none.
pub open spec fn outcome(value: Option<int>) -> Result<u32, ParseError> {
    match value {
        Some(v) => Ok(wrap(v)),
        None => Err(ParseError::GenericError),
    }
}

/// Reads a list of tokens from left to right and evaluates it.
///
/// The list is never empty, and the cursor is a position in it or the
/// position behind its last token.
pub struct Parser {
    tokens: Vec<Token>,
    current_token_index: usize,
}

impl Parser {
    #[verifier::type_invariant]
    spec fn well_formed(self) -> bool {
        &&& self.tokens@.len() > 0
        &&& self.current_token_index <= self.tokens@.len()
    }

    /// The tokens that the parser reads.
    pub closed spec fn tokens(&self) -> Seq<Token> {
        self.tokens@
    }

    /// The position of the next token to consider.
    pub closed spec fn cursor(&self) -> nat {
        self.current_token_index as nat
    }

    /// Makes a parser for `tokens`, with its cursor at the first of them.
    /// An empty list is refused with `NoInput`.
    pub fn new(tokens: Vec<Token>) -> (result: Result<Parser, ParseError>)
        ensures
            tokens@.len() == 0 ==> result == Err::<Parser, ParseError>(ParseError::NoInput),
            tokens@.len() > 0 ==> result is Ok && result->Ok_0.tokens() == tokens@
                && result->Ok_0.cursor() == 0,
    {
        if tokens.len() == 0 {
            Err(ParseError::NoInput)
        } else {
            Ok(Parser { tokens, current_token_index: 0 })
        }
    }

    /// Evaluates the expression that starts at the cursor, by the
    /// production `P -> E`, and returns its value, or `GenericError` where
    /// the tokens are not an expression.
    ///
    /// The cursor is left behind the tokens that were taken, so that what
    /// follows the expression is still to be read.
    pub fn parse(&mut self) -> (result: Result<u32, ParseError>)
        ensures
            final(self).tokens() == old(self).tokens(),
            final(self).cursor() == old(self).cursor() + expr_at(
                old(self).tokens(),
                old(self).cursor(),
            ).taken,
            final(self).cursor() <= final(self).tokens().len(),
            result == outcome(expr_at(old(self).tokens(), old(self).cursor()).value),
    {
        let result = self.parse_e();
        proof {
            use_type_invariant(&*self);
        }
        result
    }

    /// The production `E -> T E'`.
    fn parse_e(&mut self) -> (result: Result<u32, ParseError>)
        ensures
            final(self).tokens() == old(self).tokens(),
            final(self).cursor() == old(self).cursor() + expr_at(
                old(self).tokens(),
                old(self).cursor(),
            ).taken,
            result == outcome(expr_at(old(self).tokens(), old(self).cursor()).value),
        decreases old(self).tokens@.len() - old(self).current_token_index, 2nat,
    {
        proof {
            use_type_invariant(&*self);
        }
        let ghost term = term_at(self.tokens(), self.cursor());
        let t_result = self.parse_t()?;
        proof {
            use_type_invariant(&*self);
        }
        let ghost tail = tail_at(self.tokens(), self.cursor());
        match self.parse_e_prime()? {
            Some(e_prime_result) => {
                proof {
                    lemma_wrap_add(term.value->0, tail.value->0);
                }
                Ok(t_result.wrapping_add(e_prime_result))
            },
            None => Ok(t_result),
        }
    }

    /// The production `E' -> + T E' | ϵ`. The value is `None` where `ϵ` was
    /// produced, because no plus sign stands at the cursor, and else the
    /// sum of the terms behind the plus signs.
    fn parse_e_prime(&mut self) -> (result: Result<Option<u32>, ParseError>)
        ensures
            final(self).tokens() == old(self).tokens(),
            final(self).cursor() == old(self).cursor() + tail_at(
                old(self).tokens(),
                old(self).cursor(),
            ).taken,
            match result {
                Ok(Some(v)) => has_plus_at(old(self).tokens(), old(self).cursor()) && Ok::<
                    u32,
                    ParseError,
                >(v) == outcome(tail_at(old(self).tokens(), old(self).cursor()).value),
                Ok(None) => !has_plus_at(old(self).tokens(), old(self).cursor()),
                Err(e) => e == ParseError::GenericError && tail_at(
                    old(self).tokens(),
                    old(self).cursor(),
                ).value is None,
            },
        decreases old(self).tokens@.len() - old(self).current_token_index, 1nat,
    {
        proof {
            use_type_invariant(&*self);
        }
        if !self.has_token() {
            return Ok(None);
        }
        let token = self.current_token();
        match token {
            Token::Plus => {
                let ghost term = term_at(self.tokens(), self.cursor());
                let t_result = self.parse_t()?;
                proof {
                    use_type_invariant(&*self);
                }
                let ghost tail = tail_at(self.tokens(), self.cursor());
                let next_e_prime_result = self.parse_e_prime()?;
                match next_e_prime_result {
                    Some(val) => {
                        proof {
                            lemma_wrap_add(tail.value->0, term.value->0);
                        }
                        Ok(Some(val.wrapping_add(t_result)))
                    },
                    None => Ok(Some(t_result)),
                }
            },
            _ => {
                // The token belongs to the rule around this one.
                self.put_back_token();
                Ok(None)
            },
        }
    }

    /// The production `T -> ( E ) | num`.
    fn parse_t(&mut self) -> (result: Result<u32, ParseError>)
        ensures
            final(self).tokens() == old(self).tokens(),
            final(self).cursor() == old(self).cursor() + term_at(
                old(self).tokens(),
                old(self).cursor(),
            ).taken,
            result == outcome(term_at(old(self).tokens(), old(self).cursor()).value),
        decreases old(self).tokens@.len() - old(self).current_token_index, 0nat,
    {
        proof {
            use_type_invariant(&*self);
        }
        if !self.has_token() {
            return Err(ParseError::GenericError);
        }
        let token = self.current_token();
        match token {
            Token::LBracket => {
                let inner_expression_result = self.parse_e()?;
                if !self.expect_token(Token::RBracket) {
                    Err(ParseError::GenericError)
                } else {
                    Ok(inner_expression_result)
                }
            },
            Token::Num(val) => {
                proof {
                    lemma_wrap_small(val as int);
                }
                Ok(val)
            },
            _ => Err(ParseError::GenericError),
        }
    }

    /// Whether a token is left to consider.
    fn has_token(&self) -> (result: bool)
        ensures
            result == (self.cursor() < self.tokens().len()),
    {
        self.current_token_index < self.tokens.len()
    }

    /// Takes the token at the cursor and moves the cursor behind it.
    fn current_token(&mut self) -> (token: Token)
        requires
            old(self).cursor() < old(self).tokens().len(),
        ensures
            token == old(self).tokens()[old(self).cursor() as int],
            final(self).tokens() == old(self).tokens(),
            final(self).cursor() == old(self).cursor() + 1,
    {
        proof {
            use_type_invariant(&*self);
        }
        assert(self.current_token_index < self.tokens.len());
        let token = self.tokens[self.current_token_index];
        self.current_token_index += 1;
        token
    }

    /// Takes the token at the cursor if it is `t`, and says whether it was.
    /// Any other token is left in place, and so is the cursor at the end of
    /// the list.
    fn expect_token(&mut self, t: Token) -> (result: bool)
        ensures
            result == (old(self).cursor() < old(self).tokens().len() && old(self).tokens()[old(
                self,
            ).cursor() as int] == t),
            final(self).tokens() == old(self).tokens(),
            final(self).cursor() == if result {
                old(self).cursor() + 1
            } else {
                old(self).cursor()
            },
    {
        if !self.has_token() {
            return false;
        }
        let token = self.current_token();
        let result = token == t;
        if !result {
            self.put_back_token();
        }
        result
    }

    /// Moves the cursor back by one token, so that the token taken last is
    /// the next to be taken again.
    fn put_back_token(&mut self)
        requires
            old(self).cursor() > 0,
        ensures
            final(self).tokens() == old(self).tokens(),
            final(self).cursor() == old(self).cursor() - 1,
    {
        proof {
            use_type_invariant(&*self);
        }
        self.current_token_index -= 1
    }
}

} // verus!
