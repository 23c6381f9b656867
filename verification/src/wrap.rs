//! Arithmetic modulo 2^32, the width in which numbers are kept.

use vstd::arithmetic::div_mod::{lemma_add_mod_noop, lemma_mul_mod_noop, lemma_small_mod};
use vstd::prelude::*;

verus! {

/// Numbers are kept in 32 bits; a larger one wraps around this modulus.
pub open spec fn modulus() -> int {
    0x1_0000_0000
}

/// The 32-bit number that stands for the integer `n`: its remainder modulo 2^32.
pub open spec fn wrap(n: int) -> u32 {
    (n % modulus()) as u32
}

/// A number that fits in 32 bits stands for itself.
pub proof fn lemma_wrap_small(n: int)
    requires
        0 <= n <= u32::MAX,
    ensures
        wrap(n) == n,
{
    lemma_small_mod(n as nat, modulus() as nat);
}

/// Adding with wrap-around what stands for `a` and for `b` gives what stands for `a + b`.
pub proof fn lemma_wrap_add(a: int, b: int)
    ensures
        vstd::wrapping::u32_specs::wrapping_add(wrap(a), wrap(b)) == wrap(a + b),
{
    let m = modulus();
    let x = a % m;
    let y = b % m;
    lemma_add_mod_noop(a, b, m);
    if x + y >= m {
        assert((x + y - m) % m == (x + y) % m) by {
            vstd::arithmetic::div_mod::lemma_mod_sub_multiples_vanish(x + y, m);
        }
        lemma_small_mod((x + y - m) as nat, m as nat);
    } else {
        lemma_small_mod((x + y) as nat, m as nat);
    }
}

/// Multiplying with wrap-around what stands for `a` and for `b` gives what stands for `a * b`.
pub proof fn lemma_wrap_mul(a: int, b: int)
    ensures
        vstd::wrapping::u32_specs::wrapping_mul(wrap(a), wrap(b)) == wrap(a * b),
{
    let m = modulus();
    let x = a % m;
    let y = b % m;
    lemma_mul_mod_noop(a, b, m);
    assert(0 <= x * y) by (nonlinear_arith)
        requires
            0 <= x,
            0 <= y,
    ;
    assert((x as nat * y as nat) % (m as nat) == (x * y) % m);
}

} // verus!
