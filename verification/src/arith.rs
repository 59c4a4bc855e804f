//! Integer arithmetic that the renderers share: division with remainder,
//! rounding to nearest, and powers.

use vstd::arithmetic::div_mod::{lemma_fundamental_div_mod, lemma_fundamental_div_mod_converse};
use vstd::arithmetic::power::pow;
use vstd::prelude::*;

verus! {

/// `num / den` rounded to the nearest integer, halves upwards.
pub open spec fn round_div(num: int, den: int) -> int {
    (2 * num + den) / (2 * den)
}

/// Division with remainder of a non-negative number by a positive one.
pub proof fn lemma_split(p: int, d: int)
    requires
        0 <= p,
        0 < d,
    ensures
        p == (p / d) * d + p % d,
        0 <= p % d < d,
        0 <= p / d <= p,
{
    lemma_fundamental_div_mod(p, d);
    let q = p / d;
    let r = p % d;
    assert(d * q == q * d) by (nonlinear_arith);
    assert(0 <= q <= p) by (nonlinear_arith)
        requires
            p == q * d + r,
            0 <= r < d,
            0 <= p,
    ;
}

/// Rounding to nearest adds one to the quotient exactly where the remainder is
/// at least half the divisor.
pub proof fn lemma_round_div(num: int, den: int)
    requires
        0 <= num,
        0 < den,
    ensures
        round_div(num, den) == num / den + if 2 * (num % den) >= den {
            1int
        } else {
            0int
        },
{
    lemma_split(num, den);
    let q = num / den;
    let r = num % den;
    if 2 * r < den {
        assert(2 * num + den == q * (2 * den) + (2 * r + den)) by (nonlinear_arith)
            requires
                num == q * den + r,
        ;
        lemma_fundamental_div_mod_converse(2 * num + den, 2 * den, q, 2 * r + den);
    } else {
        assert(2 * num + den == (q + 1) * (2 * den) + (2 * r - den)) by (nonlinear_arith)
            requires
                num == q * den + r,
        ;
        lemma_fundamental_div_mod_converse(2 * num + den, 2 * den, q + 1, 2 * r - den);
    }
}

/// One more factor: `pow(b, e + 1)` is `b * pow(b, e)`.
pub proof fn lemma_pow_succ(b: int, e: nat)
    ensures
        pow(b, e + 1) == b * pow(b, e),
{
    reveal(pow);
}

/// A larger base gives a larger power.
pub proof fn lemma_pow_base_increases(a: int, b: int, e: nat)
    requires
        0 <= a <= b,
    ensures
        0 <= pow(a, e) <= pow(b, e),
    decreases e,
{
    reveal(pow);
    if e > 0 {
        lemma_pow_base_increases(a, b, (e - 1) as nat);
        let x = pow(a, (e - 1) as nat);
        let y = pow(b, (e - 1) as nat);
        assert(0 <= a * x <= b * y) by (nonlinear_arith)
            requires
                0 <= a <= b,
                0 <= x <= y,
        ;
    }
}

} // verus!
