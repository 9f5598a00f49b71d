//! Integer model of the IEEE 754 binary64 values that the size arithmetic
//! goes through: a non-negative integer converted to `f64` keeps its 53 most
//! significant bits, rounded to nearest with ties to even.

use vstd::prelude::*;

verus! {

/// 2^53: the first integer whose successor a binary64 value cannot hold.
pub open spec fn two_pow_53() -> nat {
    9007199254740992
}

/// `n / d` rounded to the nearest integer, ties to the even neighbour.
pub open spec fn round_half_even(n: nat, d: nat) -> nat
    recommends
        d > 0,
{
    let q = n / d;
    let r = n % d;
    if 2 * r > d || (2 * r == d && q % 2 == 1) {
        q + 1
    } else {
        q
    }
}

/// The power of two by which the 53-bit significand of `x` is scaled.
pub open spec fn binary64_scale(x: nat) -> nat
    decreases x,
{
    if x < two_pow_53() {
        1
    } else {
        2 * binary64_scale(x / 2)
    }
}

/// The value that `x as f64` holds, for a non-negative integer `x`.
pub open spec fn binary64_value(x: nat) -> nat {
    let s = binary64_scale(x);
    round_half_even(x, s) * s
}

proof fn lemma_scale_positive(x: nat)
    ensures
        binary64_scale(x) >= 1,
    decreases x,
{
    if x >= two_pow_53() {
        lemma_scale_positive(x / 2);
    }
}

proof fn lemma_scale_step(x: nat, s: nat)
    requires
        s >= 1,
        x / s >= two_pow_53(),
    ensures
        binary64_scale(x / s) == 2 * binary64_scale(x / (2 * s)),
{
    vstd::arithmetic::div_mod::lemma_div_denominator(x as int, s as int, 2);
    assert(x / s / 2 == x / (s * 2));
    assert(s * 2 == 2 * s);
}

proof fn lemma_scale_bound(x: nat)
    ensures
        binary64_scale(x) == 1 || binary64_scale(x) * 4503599627370496 <= x,
    decreases x,
{
    if x >= two_pow_53() {
        lemma_scale_bound(x / 2);
    }
}

/// Rounding to a binary64 value at most doubles a positive integer.
pub proof fn lemma_value_at_most_twice(x: nat)
    ensures
        binary64_value(x) <= 2 * x,
{
    lemma_scale_positive(x);
    lemma_scale_bound(x);
    let s = binary64_scale(x);
    let q = x / s;
    assert(q * s <= x) by (nonlinear_arith)
        requires
            q == x / s,
            s >= 1,
    {
        vstd::arithmetic::div_mod::lemma_fundamental_div_mod(x as int, s as int);
    }
    assert(round_half_even(x, s) <= q + 1);
    assert(round_half_even(x, s) * s <= q * s + s) by (nonlinear_arith)
        requires
            round_half_even(x, s) <= q + 1,
    ;
    if x == 0 {
        assert(s == 1);
        assert(round_half_even(x, s) == 0);
    }
}

/// The exponent of the power of two by which the significand is scaled.
pub open spec fn binary64_exponent(x: nat) -> nat
    decreases x,
{
    if x < two_pow_53() {
        0
    } else {
        1 + binary64_exponent(x / 2)
    }
}

/// The scale is two to the exponent.
pub proof fn lemma_scale_is_pow2(x: nat)
    ensures
        binary64_scale(x) == vstd::arithmetic::power2::pow2(binary64_exponent(x)),
    decreases x,
{
    vstd::arithmetic::power2::lemma2_to64();
    if x >= two_pow_53() {
        lemma_scale_is_pow2(x / 2);
        vstd::arithmetic::power2::lemma_pow2_unfold(binary64_exponent(x));
    }
}

/// The significand stays below 2^53.
pub proof fn lemma_significand_bound(x: nat)
    ensures
        binary64_scale(x) >= 1,
        x / binary64_scale(x) < two_pow_53(),
        binary64_scale(x) == 1 || binary64_scale(x) * 4503599627370496 <= x,
    decreases x,
{
    lemma_scale_positive(x);
    lemma_scale_bound(x);
    if x >= two_pow_53() {
        lemma_significand_bound(x / 2);
        let s = binary64_scale(x / 2);
        vstd::arithmetic::div_mod::lemma_div_denominator(x as int, 2, s as int);
        assert(x / 2 / s == x / (2 * s));
    }
}

/// Below 2^53 every integer is held exactly.
pub proof fn lemma_exact_below_2_53(x: nat)
    requires
        x < two_pow_53(),
    ensures
        binary64_value(x) == x,
{
    assert(binary64_scale(x) == 1);
    assert(x / 1 == x && x % 1 == 0) by (nonlinear_arith);
}

/// Executable `binary64_value`.
pub fn binary64_round(x: u128) -> (r: u128)
    requires
        x <= 0x1000_0000_0000_0000_0000_0000_0000_0000,
    ensures
        r == binary64_value(x as nat),
{
    let mut s: u128 = 1;
    while x / s >= 9007199254740992
        invariant
            1 <= s <= x || s == 1,
            x <= 0x1000_0000_0000_0000_0000_0000_0000_0000,
            s * binary64_scale((x / s) as nat) == binary64_scale(x as nat),
        decreases x - s,
    {
        proof {
            lemma_scale_step(x as nat, s as nat);
            assert(s * two_pow_53() <= x) by (nonlinear_arith)
                requires
                    x / s >= two_pow_53(),
                    s >= 1,
            {
                vstd::arithmetic::div_mod::lemma_fundamental_div_mod(x as int, s as int);
            }
            let g = binary64_scale(x as nat / (2 * s as nat));
            assert(s * (2 * g) == (2 * s) * g) by (nonlinear_arith);
        }
        s = s * 2;
    }
    proof {
        lemma_scale_positive(x as nat);
        assert(s * binary64_scale((x / s) as nat) == binary64_scale(x as nat));
        assert(binary64_scale((x / s) as nat) == 1);
        assert(s * 1 == s);
        assert(s == binary64_scale(x as nat));
    }
    let q = x / s;
    let r = x % s;
    assert(q < 9007199254740992);
    let rounded: u128 = if 2 * r > s || (2 * r == s && q % 2 == 1) {
        q + 1
    } else {
        q
    };
    proof {
        assert(rounded * s <= x + s) by (nonlinear_arith)
            requires
                rounded <= q + 1,
                q == x / s,
                s >= 1,
        {
            vstd::arithmetic::div_mod::lemma_fundamental_div_mod(x as int, s as int);
        }
    }
    assert(rounded == round_half_even(x as nat, s as nat));
    rounded * s
}

} // verus!
