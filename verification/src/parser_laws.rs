//! What holds of every list of tokens that is evaluated: laws of `term_at`,
//! `tail_at` and `expr_at`, proved from their definitions.

use crate::parser::{expr_at, has_plus_at, tail_at, term_at, Parsed};
use crate::tokenizer::Token;
use vstd::prelude::*;

verus! {

/// The number that a token stands for: its value for a `Num`, zero for any
/// other token.
pub open spec fn number_of(token: Token) -> int {
    match token {
        Token::Num(v) => v as int,
        _ => 0,
    }
}

/// The sum of all the numbers among `tokens`.
pub open spec fn sum_of_numbers(tokens: Seq<Token>) -> int
    decreases tokens.len(),
{
    if tokens.len() == 0 {
        0
    } else {
        sum_of_numbers(tokens.drop_last()) + number_of(tokens.last())
    }
}

/// The numbers of two lists, one behind the other, add up.
pub proof fn lemma_sum_of_numbers_concat(a: Seq<Token>, b: Seq<Token>)
    ensures
        sum_of_numbers(a + b) == sum_of_numbers(a) + sum_of_numbers(b),
    decreases b.len(),
{
    if b.len() == 0 {
        assert(a + b =~= a);
    } else {
        lemma_sum_of_numbers_concat(a, b.drop_last());
        assert((a + b).drop_last() =~= a + b.drop_last());
    }
}

/// The numbers of a stretch of tokens are those of its first part and those
/// of the rest.
proof fn lemma_sum_of_numbers_split(tokens: Seq<Token>, from: nat, mid: nat, to: nat)
    requires
        from <= mid <= to <= tokens.len(),
    ensures
        sum_of_numbers(tokens.subrange(from as int, to as int)) == sum_of_numbers(
            tokens.subrange(from as int, mid as int),
        ) + sum_of_numbers(tokens.subrange(mid as int, to as int)),
{
    let first = tokens.subrange(from as int, mid as int);
    let rest = tokens.subrange(mid as int, to as int);
    lemma_sum_of_numbers_concat(first, rest);
    assert(first + rest =~= tokens.subrange(from as int, to as int));
}

/// One token alone has its own number for a sum.
proof fn lemma_sum_of_numbers_one(tokens: Seq<Token>, at: nat)
    requires
        at < tokens.len(),
    ensures
        sum_of_numbers(tokens.subrange(at as int, (at + 1) as int)) == number_of(tokens[at as int]),
{
    let one = tokens.subrange(at as int, (at + 1) as int);
    assert(one.drop_last().len() == 0);
    assert(sum_of_numbers(one.drop_last()) == 0);
    assert(one.last() == tokens[at as int]);
}

/// Whether `parsed`, read at position `i`, stays within the tokens and, where
/// it has a value, has the sum of the numbers among the tokens taken.
pub open spec fn is_sum_of_taken(tokens: Seq<Token>, i: nat, parsed: Parsed) -> bool {
    &&& i + parsed.taken <= tokens.len()
    &&& parsed.value is Some ==> parsed.value->0 == sum_of_numbers(
        tokens.subrange(i as int, (i + parsed.taken) as int),
    )
}

/// A term stays within the tokens, takes at least one token where it has a
/// value, and its value is the sum of the numbers among the tokens taken:
/// brackets group, and change no value.
pub proof fn lemma_term_is_sum(tokens: Seq<Token>, i: nat)
    requires
        i <= tokens.len(),
    ensures
        is_sum_of_taken(tokens, i, term_at(tokens, i)),
        term_at(tokens, i).value is Some ==> term_at(tokens, i).taken > 0,
    decreases tokens.len() - i, 0nat,
{
    if i < tokens.len() {
        match tokens[i as int] {
            Token::Num(v) => {
                lemma_sum_of_numbers_one(tokens, i);
            },
            Token::LBracket => {
                let inner = expr_at(tokens, i + 1);
                lemma_expr_is_sum(tokens, i + 1);
                let end = i + 1 + inner.taken;
                if term_at(tokens, i).value is Some {
                    lemma_sum_of_numbers_split(tokens, i, i + 1, end + 1);
                    lemma_sum_of_numbers_split(tokens, i + 1, end, end + 1);
                    lemma_sum_of_numbers_one(tokens, i);
                    lemma_sum_of_numbers_one(tokens, end);
                }
            },
            _ => {},
        }
    }
}

/// The terms behind plus signs stay within the tokens, and their sum is the
/// sum of the numbers among the tokens taken.
pub proof fn lemma_tail_is_sum(tokens: Seq<Token>, i: nat)
    requires
        i <= tokens.len(),
    ensures
        is_sum_of_taken(tokens, i, tail_at(tokens, i)),
    decreases tokens.len() - i, 1nat,
{
    if has_plus_at(tokens, i) {
        let term = term_at(tokens, i + 1);
        lemma_term_is_sum(tokens, i + 1);
        if term.value is Some {
            let mid = i + 1 + term.taken;
            let rest = tail_at(tokens, mid);
            lemma_tail_is_sum(tokens, mid);
            if rest.value is Some {
                let end = mid + rest.taken;
                lemma_sum_of_numbers_split(tokens, i, i + 1, end);
                lemma_sum_of_numbers_split(tokens, i + 1, mid, end);
                lemma_sum_of_numbers_one(tokens, i);
            }
        }
    } else {
        assert(tokens.subrange(i as int, i as int).len() == 0);
    }
}

/// An expression stays within the tokens, takes at least one token where it
/// has a value, and its value is the sum of the numbers among the tokens
/// taken, however they are grouped by brackets.
pub proof fn lemma_expr_is_sum(tokens: Seq<Token>, i: nat)
    requires
        i <= tokens.len(),
    ensures
        is_sum_of_taken(tokens, i, expr_at(tokens, i)),
        expr_at(tokens, i).value is Some ==> expr_at(tokens, i).taken > 0,
    decreases tokens.len() - i, 2nat,
{
    let term = term_at(tokens, i);
    lemma_term_is_sum(tokens, i);
    if term.value is Some {
        let mid = i + term.taken;
        let rest = tail_at(tokens, mid);
        lemma_tail_is_sum(tokens, mid);
        if rest.value is Some {
            lemma_sum_of_numbers_split(tokens, i, mid, mid + rest.taken);
        }
    }
}

/// Whether no `EOF` stands among the `parsed.taken` tokens from position
/// `i` on, where `parsed` has a value.
pub open spec fn value_takes_no_eof(tokens: Seq<Token>, i: nat, parsed: Parsed) -> bool {
    parsed.value is Some ==> forall|k: int|
        i <= k < i + parsed.taken ==> #[trigger] tokens[k] != Token::EOF
}

/// A term with a value is made of numbers, brackets and plus signs alone.
pub proof fn lemma_term_takes_no_eof(tokens: Seq<Token>, i: nat)
    requires
        i <= tokens.len(),
    ensures
        value_takes_no_eof(tokens, i, term_at(tokens, i)),
    decreases tokens.len() - i, 0nat,
{
    if i < tokens.len() && tokens[i as int] == Token::LBracket {
        lemma_expr_takes_no_eof(tokens, i + 1);
    }
}

/// Terms behind plus signs, where they have a value, are made of numbers,
/// brackets and plus signs alone.
pub proof fn lemma_tail_takes_no_eof(tokens: Seq<Token>, i: nat)
    requires
        i <= tokens.len(),
    ensures
        value_takes_no_eof(tokens, i, tail_at(tokens, i)),
    decreases tokens.len() - i, 1nat,
{
    if has_plus_at(tokens, i) {
        let term = term_at(tokens, i + 1);
        lemma_term_takes_no_eof(tokens, i + 1);
        lemma_term_is_sum(tokens, i + 1);
        if term.value is Some {
            lemma_tail_takes_no_eof(tokens, i + 1 + term.taken);
        }
    }
}

/// An expression with a value is made of numbers, brackets and plus signs
/// alone.
pub proof fn lemma_expr_takes_no_eof(tokens: Seq<Token>, i: nat)
    requires
        i <= tokens.len(),
    ensures
        value_takes_no_eof(tokens, i, expr_at(tokens, i)),
    decreases tokens.len() - i, 2nat,
{
    let term = term_at(tokens, i);
    lemma_term_takes_no_eof(tokens, i);
    lemma_term_is_sum(tokens, i);
    if term.value is Some {
        lemma_tail_takes_no_eof(tokens, i + term.taken);
    }
}

/// In a list that ends with `EOF`, an expression with a value ends before
/// the `EOF`: the cursor is then left at a token of the list, and never
/// behind the `EOF`.
pub proof fn lemma_expr_ends_before_eof(tokens: Seq<Token>, i: nat)
    requires
        i < tokens.len(),
        tokens.last() == Token::EOF,
    ensures
        expr_at(tokens, i).value is Some ==> i + expr_at(tokens, i).taken < tokens.len(),
        i + expr_at(tokens, i).taken <= tokens.len(),
{
    lemma_expr_takes_no_eof(tokens, i);
    lemma_expr_is_sum(tokens, i);
    if expr_at(tokens, i).value is Some && i + expr_at(tokens, i).taken == tokens.len() {
        assert(tokens[tokens.len() - 1] != Token::EOF);
    }
}

} // verus!
