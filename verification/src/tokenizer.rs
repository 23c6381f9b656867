//! The scanner: from characters to tokens.
//!
//! A line is read from left to right. Digits that follow one another make
//! one number, brackets and plus signs are a token each, spaces are passed
//! over, and any other character ends the scan with an error. `EOF` closes
//! every list of tokens.
//!
//! A number is kept in 32 bits. One that is too large for that is reduced
//! modulo 2^32: no digit is dropped, the value wraps around.

use crate::scan_laws::{
    lemma_decimal_value_leading_digit, lemma_digit_run_len, lemma_scan_ends_with_eof,
    lemma_scan_first_unexpected, lemma_scan_succeeds_iff_token_chars,
};
use crate::wrap::{lemma_wrap_add, lemma_wrap_mul, lemma_wrap_small, wrap};
use vstd::prelude::*;

verus! {

/// A lexical unit of an expression.
#[derive(Debug, PartialEq, Eq, Clone, Copy, Structural)]
pub enum Token {
    /// The opening bracket, `(`.
    LBracket,
    /// The closing bracket, `)`.
    RBracket,
    /// The plus sign.
    Plus,
    /// A number, written as a run of decimal digits.
    Num(u32),
    /// Marks the end of the input.
    EOF,
}

/// Why a line could not be cut into tokens.
#[derive(Debug, PartialEq, Eq, Clone, Copy, Structural)]
pub enum TokenizerError {
    /// The character is no digit, bracket, plus sign or space.
    UnexpectedCharacter(char),
}

/// Calls `String::push`, which puts `c` at the end of `text` and leaves the
/// characters before it as they were.
#[verifier::external_body]
fn push_char(text: &mut String, c: char)
    ensures
        final(text)@ == old(text)@.push(c),
{
    text.push(c);
}

impl TokenizerError {
    /// The message for the user: `Unexpected character `, then the character.
    pub fn message(&self) -> (text: String)
        ensures
            text@ == match *self {
                TokenizerError::UnexpectedCharacter(c) => "Unexpected character "@.push(c),
            },
    {
        match self {
            TokenizerError::UnexpectedCharacter(c) => {
                let mut text = "Unexpected character ".to_owned();
                push_char(&mut text, *c);
                text
            },
        }
    }
}

/// The decimal digits `'0'` to `'9'`.
pub open spec fn is_digit(c: char) -> bool {
    '0' <= c <= '9'
}

/// The number that a decimal digit stands for.
pub open spec fn digit_value(c: char) -> int {
    c as int - '0' as int
}

/// Whether every character of `s` is a decimal digit.
pub open spec fn all_digits(s: Seq<char>) -> bool {
    forall|i: int| 0 <= i < s.len() ==> is_digit(#[trigger] s[i])
}

/// The number written by the digits `s`, most significant digit first.
/// The empty sequence writes zero.
pub open spec fn decimal_value(s: Seq<char>) -> nat
    decreases s.len(),
{
    if s.len() == 0 {
        0
    } else {
        (10 * decimal_value(s.drop_last()) + digit_value(s.last())) as nat
    }
}

/// Ten to the power `n`.
pub open spec fn pow10(n: nat) -> nat
    decreases n,
{
    if n == 0 {
        1
    } else {
        10 * pow10((n - 1) as nat)
    }
}

/// How many digits follow one another in `s` from position `i` on.
pub open spec fn digit_run_len(s: Seq<char>, i: nat) -> nat
    decreases s.len() - i,
{
    if i < s.len() && is_digit(s[i as int]) {
        1 + digit_run_len(s, i + 1)
    } else {
        0
    }
}

/// Puts `token` in front of the tokens of `rest`; a failure stays as it is.
pub open spec fn token_then(
    token: Token,
    rest: Result<Seq<Token>, TokenizerError>,
) -> Result<Seq<Token>, TokenizerError> {
    match rest {
        Ok(tokens) => Ok(seq![token] + tokens),
        Err(e) => Err(e),
    }
}

/// Puts `tokens` in front of the tokens of `rest`; a failure stays as it is.
pub open spec fn tokens_then(
    tokens: Seq<Token>,
    rest: Result<Seq<Token>, TokenizerError>,
) -> Result<Seq<Token>, TokenizerError> {
    match rest {
        Ok(more) => Ok(tokens + more),
        Err(e) => Err(e),
    }
}

/// The tokens of `s` from position `i` on, or the first character from
/// there on that belongs to no token.
///
/// A run of digits is one number, as long as it can be; a space is passed
/// over; after the last character comes `EOF`.
pub open spec fn tokens_from(s: Seq<char>, i: nat) -> Result<Seq<Token>, TokenizerError>
    decreases
            if i < s.len() {
                s.len() - i
            } else {
                0
            },
{
    if i >= s.len() {
        Ok(seq![Token::EOF])
    } else {
        let c = s[i as int];
        if is_digit(c) {
            let end = i + digit_run_len(s, i);
            token_then(
                Token::Num(wrap(decimal_value(s.subrange(i as int, end as int)) as int)),
                tokens_from(s, end),
            )
        } else if c == '(' {
            token_then(Token::LBracket, tokens_from(s, i + 1))
        } else if c == ')' {
            token_then(Token::RBracket, tokens_from(s, i + 1))
        } else if c == '+' {
            token_then(Token::Plus, tokens_from(s, i + 1))
        } else if c == ' ' {
            tokens_from(s, i + 1)
        } else {
            Err(TokenizerError::UnexpectedCharacter(c))
        }
    }
}

/// The tokens of the line `s`: what `tokenize` returns for it.
pub open spec fn scan(s: Seq<char>) -> Result<Seq<Token>, TokenizerError> {
    tokens_from(s, 0)
}

/// Whether `tokens` is a list as the scanner makes them: `EOF` stands at
/// its end and nowhere else.
pub open spec fn ends_with_eof(tokens: Seq<Token>) -> bool {
    &&& tokens.len() > 0
    &&& forall|i: int| 0 <= i < tokens.len() ==> (#[trigger] tokens[i] == Token::EOF <==> i
        == tokens.len() - 1)
}

/// The characters that tokens are made of, and the space between them.
pub open spec fn is_token_char(c: char) -> bool {
    is_digit(c) || c == '(' || c == ')' || c == '+' || c == ' '
}

/// Whether `k` is the first position of `s` whose character belongs to no
/// token and is no space.
pub open spec fn is_first_unexpected(s: Seq<char>, k: int) -> bool {
    &&& 0 <= k < s.len()
    &&& !is_token_char(s[k])
    &&& forall|j: int| 0 <= j < k ==> is_token_char(#[trigger] s[j])
}

/// Whether `c` is a decimal digit.
fn is_digit_char(c: char) -> (r: bool)
    ensures
        r == is_digit(c),
{
    '0' <= c && c <= '9'
}

/// The number that the decimal digit `c` stands for.
fn digit_to_u32(c: char) -> (r: u32)
    requires
        is_digit(c),
    ensures
        r == digit_value(c),
{
    (c as u32) - ('0' as u32)
}

/// The value of the digits in `numeric_chars`, most significant digit first,
/// reduced modulo 2^32.
///
/// The digits are read from the last to the first, each multiplied by its
/// place value: one, ten, a hundred and so on.
pub fn numeric_char_vec_to_u32(numeric_chars: &Vec<char>) -> (num: u32)
    requires
        numeric_chars@.len() > 0,
        all_digits(numeric_chars@),
    ensures
        num == wrap(decimal_value(numeric_chars@) as int),
{
    let n = numeric_chars.len();
    let mut place_value: u32 = 1;
    let mut num: u32 = 0;
    let mut i: usize = n;
    proof {
        lemma_wrap_small(0);
        lemma_wrap_small(1);
        assert(numeric_chars@.subrange(n as int, n as int).len() == 0);
    }
    while i > 0
        invariant
            i <= n,
            n == numeric_chars@.len(),
            all_digits(numeric_chars@),
            num == wrap(decimal_value(numeric_chars@.subrange(i as int, n as int)) as int),
            place_value == wrap(pow10((n - i) as nat) as int),
        decreases i,
    {
        i -= 1;
        let digit = digit_to_u32(numeric_chars[i]);
        proof {
            let rest = numeric_chars@.subrange(i + 1, n as int);
            let run = numeric_chars@.subrange(i as int, n as int);
            let place = pow10((n - i - 1) as nat) as int;
            assert(run.drop_first() =~= rest);
            lemma_decimal_value_leading_digit(run);
            lemma_wrap_small(digit as int);
            lemma_wrap_small(10);
            lemma_wrap_mul(digit as int, place);
            lemma_wrap_add(decimal_value(rest) as int, digit * place);
            lemma_wrap_mul(place, 10);
            assert(place * 10 == pow10((n - i) as nat));
        }
        num = num.wrapping_add(digit.wrapping_mul(place_value));
        place_value = place_value.wrapping_mul(10);
    }
    assert(numeric_chars@.subrange(0, n as int) =~= numeric_chars@);
    num
}

/// Turns the digits collected in `numeric_chars` into one `Num` token at the
/// end of `token_list`, and empties `numeric_chars` for the next number.
pub fn add_num_to_token_list(numeric_chars: &mut Vec<char>, token_list: &mut Vec<Token>)
    requires
        old(numeric_chars)@.len() > 0,
        all_digits(old(numeric_chars)@),
    ensures
        final(token_list)@ == old(token_list)@.push(
            Token::Num(wrap(decimal_value(old(numeric_chars)@) as int)),
        ),
        final(numeric_chars)@ == Seq::<char>::empty(),
{
    let num = numeric_char_vec_to_u32(numeric_chars);
    token_list.push(Token::Num(num));
    numeric_chars.clear();
}

/// A token at the end of what stands in front is a token at the start of
/// what follows.
proof fn lemma_tokens_then_push(
    tokens: Seq<Token>,
    token: Token,
    rest: Result<Seq<Token>, TokenizerError>,
)
    ensures
        tokens_then(tokens.push(token), rest) == tokens_then(tokens, token_then(token, rest)),
{
    match rest {
        Ok(more) => {
            assert(tokens.push(token) + more =~= tokens + (seq![token] + more));
        },
        Err(_) => {},
    }
}

/// What `tokenize` promises of every line, beside the tokens themselves.
proof fn lemma_scan_laws(s: Seq<char>)
    ensures
        scan(s) is Ok <==> forall|j: int| 0 <= j < s.len() ==> is_token_char(#[trigger] s[j]),
        forall|k: int|
            is_first_unexpected(s, k) ==> scan(s) == Err::<Seq<Token>, TokenizerError>(
                TokenizerError::UnexpectedCharacter(s[k]),
            ),
        scan(s) is Ok ==> ends_with_eof(scan(s)->Ok_0),
{
    lemma_scan_succeeds_iff_token_chars(s);
    lemma_scan_ends_with_eof(s);
    assert forall|k: int| is_first_unexpected(s, k) implies scan(s) == Err::<
        Seq<Token>,
        TokenizerError,
    >(TokenizerError::UnexpectedCharacter(s[k])) by {
        lemma_scan_first_unexpected(s, k);
    }
}

/// Cuts a line of text into its tokens, with `EOF` after the last one.
///
/// Spaces separate tokens and are otherwise passed over. A character that
/// is no digit, bracket, plus sign or space ends the scan with an error that
/// names it.
pub fn tokenize(input: &str) -> (result: Result<Vec<Token>, TokenizerError>)
    ensures
        match result {
            Ok(tokens) => scan(input@) == Ok::<Seq<Token>, TokenizerError>(tokens@),
            Err(e) => scan(input@) == Err::<Seq<Token>, TokenizerError>(e),
        },
        result is Ok <==> forall|j: int|
            0 <= j < input@.len() ==> is_token_char(#[trigger] input@[j]),
        forall|k: int|
            is_first_unexpected(input@, k) ==> result == Err::<Vec<Token>, TokenizerError>(
                TokenizerError::UnexpectedCharacter(input@[k]),
            ),
        result is Ok ==> ends_with_eof(result->Ok_0@),
{
    let mut token_list: Vec<Token> = Vec::new();
    let mut numeric_chars: Vec<char> = Vec::new();
    let ghost s = input@;

    for character in it: input.chars()
        invariant
            s == input@,
            it.seq() == s,
            numeric_chars@.len() <= it.index(),
            numeric_chars@ == s.subrange(it.index() - numeric_chars@.len(), it.index()),
            all_digits(numeric_chars@),
            scan(s) == tokens_then(
                token_list@,
                tokens_from(s, (it.index() - numeric_chars@.len()) as nat),
            ),
    {
        let ghost k = it.index();
        let ghost start = (k - numeric_chars@.len()) as nat;
        assert(0 <= k < s.len() && character == s[k]);
        assert forall|j: int| start <= j < k implies is_digit(#[trigger] s[j]) by {
            assert(s[j] == numeric_chars@[j - start]);
        }
        if is_digit_char(character) {
            numeric_chars.push(character);
            proof {
                assert(numeric_chars@ =~= s.subrange(start as int, k + 1));
            }
        } else {
            if numeric_chars.len() > 0 {
                proof {
                    lemma_digit_run_len(s, start, k as nat);
                    lemma_tokens_then_push(
                        token_list@,
                        Token::Num(wrap(decimal_value(numeric_chars@) as int)),
                        tokens_from(s, k as nat),
                    );
                }
                add_num_to_token_list(&mut numeric_chars, &mut token_list);
            }
            proof {
                assert(numeric_chars@ =~= s.subrange(k + 1, k + 1));
            }
            if character == '(' {
                proof {
                    lemma_tokens_then_push(
                        token_list@,
                        Token::LBracket,
                        tokens_from(s, (k + 1) as nat),
                    );
                }
                token_list.push(Token::LBracket);
            } else if character == ')' {
                proof {
                    lemma_tokens_then_push(
                        token_list@,
                        Token::RBracket,
                        tokens_from(s, (k + 1) as nat),
                    );
                }
                token_list.push(Token::RBracket);
            } else if character == '+' {
                proof {
                    lemma_tokens_then_push(token_list@, Token::Plus, tokens_from(s, (k + 1) as nat));
                }
                token_list.push(Token::Plus);
            } else if character == ' ' {
            } else {
                proof {
                    lemma_scan_laws(s);
                }
                return Err(TokenizerError::UnexpectedCharacter(character));
            }
        }
    }

    let ghost n = s.len();
    let ghost start = (n - numeric_chars@.len()) as nat;
    if numeric_chars.len() > 0 {
        proof {
            assert forall|j: int| start <= j < n implies is_digit(#[trigger] s[j]) by {
                assert(s[j] == numeric_chars@[j - start]);
            }
            lemma_digit_run_len(s, start, n);
            lemma_tokens_then_push(
                token_list@,
                Token::Num(wrap(decimal_value(numeric_chars@) as int)),
                tokens_from(s, n),
            );
        }
        add_num_to_token_list(&mut numeric_chars, &mut token_list);
    }
    proof {
        lemma_scan_laws(s);
        lemma_tokens_then_push(token_list@, Token::EOF, Ok(Seq::empty()));
        assert(seq![Token::EOF] + Seq::<Token>::empty() =~= seq![Token::EOF]);
        assert(token_list@.push(Token::EOF) + Seq::<Token>::empty() =~= token_list@.push(
            Token::EOF,
        ));
    }
    token_list.push(Token::EOF);

    Ok(token_list)
}

} // verus!
