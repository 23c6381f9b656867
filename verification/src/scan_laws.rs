//! What holds of every line that is scanned: laws of `scan`, proved from
//! its definition.

use crate::tokenizer::{
    all_digits, decimal_value, digit_run_len, digit_value, ends_with_eof, is_digit,
    is_first_unexpected, is_token_char, pow10, scan, token_then, tokens_from, Token,
    TokenizerError,
};
use crate::wrap::{lemma_wrap_small, wrap};
use vstd::prelude::*;

verus! {

/// A number is its leading digit, at that digit's place value, plus the
/// number written by the digits after it.
pub proof fn lemma_decimal_value_leading_digit(s: Seq<char>)
    requires
        s.len() > 0,
        all_digits(s),
    ensures
        decimal_value(s) == digit_value(s[0]) * pow10((s.len() - 1) as nat) + decimal_value(
            s.drop_first(),
        ),
    decreases s.len(),
{
    let tail = s.drop_first();
    if s.len() == 1 {
        assert(decimal_value(s.drop_last()) == 0);
        assert(decimal_value(tail) == 0);
        assert(is_digit(s[0]));
        assert(decimal_value(s) == digit_value(s[0]));
        assert(pow10(0) == 1);
    } else {
        let front = s.drop_last();
        lemma_decimal_value_leading_digit(front);
        assert(front.drop_first() =~= tail.drop_last());
        assert(tail.last() == s.last());
        let d = digit_value(s[0]);
        let p = pow10((front.len() - 1) as nat) as int;
        let inner = decimal_value(tail.drop_last()) as int;
        assert(is_digit(s.last()));
        assert(decimal_value(front) == d * p + inner);
        assert(decimal_value(tail) == 10 * inner + digit_value(s.last()));
        assert(decimal_value(s) == 10 * (d * p + inner) + digit_value(s.last()));
        assert(pow10((s.len() - 1) as nat) == 10 * p);
        assert(10 * (d * p + inner) == d * (10 * p) + 10 * inner) by (nonlinear_arith);
    }
}

/// The digit that stands for `d`, a number below ten.
pub open spec fn digit_char(d: nat) -> char {
    ('0' as nat + d) as char
}

/// How `n` is written in decimal digits, without leading zeros.
pub open spec fn decimal_digits(n: nat) -> Seq<char>
    decreases n,
{
    if n < 10 {
        seq![digit_char(n)]
    } else {
        decimal_digits(n / 10).push(digit_char(n % 10))
    }
}

/// The decimal digits of a number are digits, and they write that number.
pub proof fn lemma_decimal_digits(n: nat)
    ensures
        decimal_digits(n).len() > 0,
        all_digits(decimal_digits(n)),
        decimal_value(decimal_digits(n)) == n,
    decreases n,
{
    let s = decimal_digits(n);
    if n < 10 {
        assert(is_digit(digit_char(n)) && digit_value(digit_char(n)) == n);
        assert(s.drop_last().len() == 0);
        assert(decimal_value(s.drop_last()) == 0);
    } else {
        let front = decimal_digits(n / 10);
        let last = digit_char(n % 10);
        lemma_decimal_digits(n / 10);
        assert(is_digit(last) && digit_value(last) == n % 10);
        assert(s.drop_last() =~= front);
        assert forall|i: int| 0 <= i < s.len() implies is_digit(#[trigger] s[i]) by {
            if i < front.len() {
                assert(s[i] == front[i]);
            }
        }
    }
}

/// A run of digits from `start` up to `end`, where no digit follows, is the
/// whole run that starts at `start`.
pub proof fn lemma_digit_run_len(s: Seq<char>, start: nat, end: nat)
    requires
        start <= end <= s.len(),
        forall|j: int| start <= j < end ==> is_digit(#[trigger] s[j]),
        end < s.len() ==> !is_digit(s[end as int]),
    ensures
        digit_run_len(s, start) == end - start,
    decreases end - start,
{
    if start < end {
        lemma_digit_run_len(s, start + 1, end);
    }
}

/// A run of digits ends before the next character that is no digit.
pub proof fn lemma_digit_run_stops(s: Seq<char>, i: nat, k: nat)
    requires
        i <= k < s.len(),
        !is_digit(s[k as int]),
    ensures
        i + digit_run_len(s, i) <= k,
    decreases k - i,
{
    if i < k && is_digit(s[i as int]) {
        lemma_digit_run_stops(s, i + 1, k);
    }
}

/// A run of digits ends at the end of the line at the latest.
pub proof fn lemma_digit_run_within(s: Seq<char>, i: nat)
    requires
        i <= s.len(),
    ensures
        i + digit_run_len(s, i) <= s.len(),
    decreases s.len() - i,
{
    if i < s.len() && is_digit(s[i as int]) {
        lemma_digit_run_within(s, i + 1);
    }
}

/// Every character of a run of digits is a digit, and the run cannot be
/// made longer.
pub proof fn lemma_digit_run_is_digits(s: Seq<char>, i: nat)
    requires
        i <= s.len(),
    ensures
        forall|j: int| i <= j < i + digit_run_len(s, i) ==> is_digit(#[trigger] s[j]),
        i + digit_run_len(s, i) < s.len() ==> !is_digit(s[(i + digit_run_len(s, i)) as int]),
    decreases s.len() - i,
{
    if i < s.len() && is_digit(s[i as int]) {
        lemma_digit_run_is_digits(s, i + 1);
    }
}

/// The tokens from any position on end with the one `EOF` among them.
pub proof fn lemma_tokens_from_ends_with_eof(s: Seq<char>, i: nat)
    ensures
        tokens_from(s, i) is Ok ==> ends_with_eof(tokens_from(s, i)->Ok_0),
    decreases
            if i < s.len() {
                s.len() - i
            } else {
                0
            },
{
    if i < s.len() {
        let c = s[i as int];
        let next = if is_digit(c) {
            i + digit_run_len(s, i)
        } else {
            i + 1
        };
        lemma_tokens_from_ends_with_eof(s, next);
        if tokens_from(s, i) is Ok && c != ' ' {
            let rest = tokens_from(s, next)->Ok_0;
            let all = tokens_from(s, i)->Ok_0;
            assert(all.len() == rest.len() + 1);
            assert forall|j: int| 0 <= j < all.len() implies (#[trigger] all[j] == Token::EOF
                <==> j == all.len() - 1) by {
                if j > 0 {
                    assert(all[j] == rest[j - 1]);
                }
            }
        }
    }
}

/// Every list of tokens that the scanner makes ends with `EOF`, and has no
/// other `EOF` in it.
pub proof fn lemma_scan_ends_with_eof(s: Seq<char>)
    ensures
        scan(s) is Ok ==> ends_with_eof(scan(s)->Ok_0),
{
    lemma_tokens_from_ends_with_eof(s, 0);
}

/// Scanning from `i` on fails with the first unexpected character at or
/// behind `i`.
pub proof fn lemma_tokens_from_first_unexpected(s: Seq<char>, i: nat, k: nat)
    requires
        i <= k < s.len(),
        !is_token_char(s[k as int]),
        forall|j: int| i <= j < k ==> is_token_char(#[trigger] s[j]),
    ensures
        tokens_from(s, i) == Err::<Seq<Token>, TokenizerError>(
            TokenizerError::UnexpectedCharacter(s[k as int]),
        ),
    decreases k - i,
{
    if i < k {
        assert(is_token_char(s[i as int]));
        if is_digit(s[i as int]) {
            lemma_digit_run_stops(s, i, k);
            lemma_tokens_from_first_unexpected(s, i + digit_run_len(s, i), k);
        } else {
            lemma_tokens_from_first_unexpected(s, i + 1, k);
        }
    }
}

/// A line with a character that belongs to no token is refused, and the
/// error names the first such character.
pub proof fn lemma_scan_first_unexpected(s: Seq<char>, k: int)
    requires
        is_first_unexpected(s, k),
    ensures
        scan(s) == Err::<Seq<Token>, TokenizerError>(TokenizerError::UnexpectedCharacter(s[k])),
{
    lemma_tokens_from_first_unexpected(s, 0, k as nat);
}

/// Among the positions up to `k`, where an unexpected character stands,
/// one is the first.
pub proof fn lemma_first_unexpected_exists(s: Seq<char>, k: int) -> (first: int)
    requires
        0 <= k < s.len(),
        !is_token_char(s[k]),
    ensures
        is_first_unexpected(s, first),
        first <= k,
    decreases k,
{
    if exists|j: int| 0 <= j < k && !is_token_char(s[j]) {
        let j = choose|j: int| 0 <= j < k && !is_token_char(s[j]);
        lemma_first_unexpected_exists(s, j)
    } else {
        k
    }
}

/// Scanning from any position on succeeds where only digits, brackets, plus
/// signs and spaces follow.
pub proof fn lemma_tokens_from_token_chars(s: Seq<char>, i: nat)
    requires
        forall|j: int| i <= j < s.len() ==> is_token_char(#[trigger] s[j]),
    ensures
        tokens_from(s, i) is Ok,
    decreases
            if i < s.len() {
                s.len() - i
            } else {
                0
            },
{
    if i < s.len() {
        assert(is_token_char(s[i as int]));
        if is_digit(s[i as int]) {
            lemma_tokens_from_token_chars(s, i + digit_run_len(s, i));
        } else {
            lemma_tokens_from_token_chars(s, i + 1);
        }
    }
}

/// A line is cut into tokens if and only if it holds nothing but digits,
/// brackets, plus signs and spaces.
pub proof fn lemma_scan_succeeds_iff_token_chars(s: Seq<char>)
    ensures
        scan(s) is Ok <==> forall|j: int| 0 <= j < s.len() ==> is_token_char(#[trigger] s[j]),
{
    if forall|j: int| 0 <= j < s.len() ==> is_token_char(#[trigger] s[j]) {
        lemma_tokens_from_token_chars(s, 0);
    } else {
        let k = choose|k: int| 0 <= k < s.len() && !is_token_char(s[k]);
        let first = lemma_first_unexpected_exists(s, k);
        lemma_scan_first_unexpected(s, first);
    }
}

/// A line of digits alone is one number: the tokens are that number and
/// `EOF`. A number too large for 32 bits is reduced modulo 2^32.
pub proof fn lemma_scan_number(s: Seq<char>)
    requires
        s.len() > 0,
        all_digits(s),
    ensures
        scan(s) == Ok::<Seq<Token>, TokenizerError>(
            seq![Token::Num(wrap(decimal_value(s) as int)), Token::EOF],
        ),
        decimal_value(s) <= u32::MAX ==> scan(s) == Ok::<Seq<Token>, TokenizerError>(
            seq![Token::Num(decimal_value(s) as u32), Token::EOF],
        ),
{
    lemma_digit_run_len(s, 0, s.len());
    assert(is_digit(s[0]));
    assert(s.subrange(0, s.len() as int) =~= s);
    let number = Token::Num(wrap(decimal_value(s) as int));
    assert(tokens_from(s, s.len()) == Ok::<Seq<Token>, TokenizerError>(seq![Token::EOF]));
    assert(tokens_from(s, 0) == token_then(number, tokens_from(s, s.len())));
    assert(seq![number] + seq![Token::EOF] =~= seq![number, Token::EOF]);
    if decimal_value(s) <= u32::MAX {
        lemma_wrap_small(decimal_value(s) as int);
    }
}

/// Every number that fits in 32 bits, written in decimal digits, is scanned
/// as that number and `EOF`.
pub proof fn lemma_scan_decimal_digits(n: nat)
    requires
        n <= u32::MAX,
    ensures
        scan(decimal_digits(n)) == Ok::<Seq<Token>, TokenizerError>(
            seq![Token::Num(n as u32), Token::EOF],
        ),
{
    lemma_decimal_digits(n);
    lemma_scan_number(decimal_digits(n));
}

/// Whether `a` from position `i` on holds the same characters as `b` from
/// position `j` on.
pub open spec fn same_from(a: Seq<char>, i: nat, b: Seq<char>, j: nat) -> bool {
    &&& i <= a.len()
    &&& j <= b.len()
    &&& a.skip(i as int) == b.skip(j as int)
}

/// What is equal from two positions on is equal from `n` characters further
/// on, and equal in the `n` characters between.
proof fn lemma_same_from_further(a: Seq<char>, i: nat, b: Seq<char>, j: nat, n: nat)
    requires
        same_from(a, i, b, j),
        i + n <= a.len(),
    ensures
        same_from(a, i + n, b, j + n),
        a.subrange(i as int, (i + n) as int) == b.subrange(j as int, (j + n) as int),
        n > 0 ==> a[i as int] == b[j as int],
{
    let rest_a = a.skip(i as int);
    let rest_b = b.skip(j as int);
    assert(rest_a.len() == rest_b.len());
    assert(a.skip((i + n) as int) =~= rest_a.skip(n as int));
    assert(b.skip((j + n) as int) =~= rest_b.skip(n as int));
    assert(a.subrange(i as int, (i + n) as int) =~= rest_a.take(n as int));
    assert(b.subrange(j as int, (j + n) as int) =~= rest_b.take(n as int));
    if n > 0 {
        assert(a[i as int] == rest_a[0]);
        assert(b[j as int] == rest_b[0]);
    }
}

/// Runs of digits that start in equal remainders of two lines are equally
/// long.
pub proof fn lemma_digit_run_len_same_from(a: Seq<char>, i: nat, b: Seq<char>, j: nat)
    requires
        same_from(a, i, b, j),
    ensures
        digit_run_len(a, i) == digit_run_len(b, j),
    decreases a.len() - i,
{
    assert(a.skip(i as int).len() == b.skip(j as int).len());
    if i < a.len() {
        lemma_same_from_further(a, i, b, j, 1);
        if is_digit(a[i as int]) {
            lemma_digit_run_len_same_from(a, i + 1, b, j + 1);
        }
    }
}

/// The tokens from a position on depend on the characters from there on
/// alone.
pub proof fn lemma_tokens_from_same_from(a: Seq<char>, i: nat, b: Seq<char>, j: nat)
    requires
        same_from(a, i, b, j),
    ensures
        tokens_from(a, i) == tokens_from(b, j),
    decreases a.len() - i,
{
    assert(a.skip(i as int).len() == b.skip(j as int).len());
    if i < a.len() {
        let n = if is_digit(a[i as int]) {
            digit_run_len(a, i)
        } else {
            1
        };
        lemma_digit_run_len_same_from(a, i, b, j);
        lemma_digit_run_within(a, i);
        lemma_same_from_further(a, i, b, j, n);
        lemma_tokens_from_same_from(a, i + n, b, j + n);
    }
}

/// Whether a space put into `s` at position `at` would part a number: a
/// digit stands before that position and at it.
pub open spec fn parts_a_number(s: Seq<char>, at: int) -> bool {
    0 < at < s.len() && is_digit(s[at - 1]) && is_digit(s[at])
}

proof fn lemma_tokens_from_before_space(s: Seq<char>, at: int, j: nat)
    requires
        j <= at <= s.len(),
        !parts_a_number(s, at),
    ensures
        tokens_from(s.insert(at, ' '), j) == tokens_from(s, j),
    decreases at - j,
{
    let t = s.insert(at, ' ');
    if j == at {
        assert(t.skip((j + 1) as int) =~= s.skip(j as int));
        lemma_tokens_from_same_from(t, j + 1, s, j);
    } else {
        assert(t[j as int] == s[j as int]);
        if is_digit(s[j as int]) {
            let n = digit_run_len(t, j);
            lemma_digit_run_stops(t, j, at as nat);
            lemma_digit_run_is_digits(t, j);
            assert forall|k: int| j <= k < j + n implies is_digit(#[trigger] s[k]) by {
                assert(t[k] == s[k]);
            }
            if j + n < at {
                assert(t[(j + n) as int] == s[(j + n) as int]);
            } else {
                assert(is_digit(s[at - 1]));
            }
            lemma_digit_run_len(s, j, j + n);
            assert(t.subrange(j as int, (j + n) as int) =~= s.subrange(
                j as int,
                (j + n) as int,
            ));
            lemma_tokens_from_before_space(s, at, j + n);
        } else {
            lemma_tokens_from_before_space(s, at, j + 1);
        }
    }
}

/// Spaces are insignificant: a space put into a line, at its start, at its
/// end or between two characters that are not both digits, changes none of
/// its tokens and no error.
pub proof fn lemma_space_is_insignificant(s: Seq<char>, at: int)
    requires
        0 <= at <= s.len(),
        !parts_a_number(s, at),
    ensures
        scan(s.insert(at, ' ')) == scan(s),
{
    lemma_tokens_from_before_space(s, at, 0);
}

} // verus!
