//! The one-percent threshold below which a child is gathered into "Other":
//! `(size as f64) < (total as f64) * 0.01`, decided in integers.

use vstd::prelude::*;
use crate::binary64::{
    binary64_value, binary64_round, lemma_value_at_most_twice, binary64_scale, binary64_exponent,
    lemma_exact_below_2_53, lemma_scale_is_pow2, lemma_significand_bound,
};
use vstd::arithmetic::power2::{
    pow2, lemma2_to64, lemma2_to64_rest, lemma_pow2_adds, lemma_pow2_strictly_increases,
};

verus! {

/// The significand of the `f64` nearest to 0.01, which is that significand
/// times 2^-59.
pub open spec fn hundredth_significand() -> nat {
    5764607523034235
}

pub open spec fn two_pow_59() -> nat {
    576460752303423488
}

/// `(size as f64) < (total as f64) * 0.01`, computed as binary64 does: the
/// product is rounded to a binary64 value, and scaling both sides by 2^59
/// leaves the comparison exact.
pub open spec fn below_one_percent(size: nat, total: nat) -> bool {
    binary64_value(size) * two_pow_59() < binary64_value(
        binary64_value(total) * hundredth_significand(),
    )
}

/// Whether a child of `size` bytes is too small, next to `total`, for a
/// slice of its own.
pub fn is_minor(size: u64, total: u64) -> (r: bool)
    ensures
        r == below_one_percent(size as nat, total as nat),
{
    proof {
        lemma_value_at_most_twice(size as nat);
        lemma_value_at_most_twice(total as nat);
    }
    let s = binary64_round(size as u128);
    let t = binary64_round(total as u128);
    assert(t * 5764607523034235 <= 0x2_0000_0000_0000_0000 * 5764607523034235) by (nonlinear_arith)
        requires
            t <= 0x2_0000_0000_0000_0000,
    ;
    let threshold = binary64_round(t * 5764607523034235);
    assert(s * 576460752303423488 <= 0x2_0000_0000_0000_0000 * 576460752303423488) by (nonlinear_arith)
        requires
            s <= 0x2_0000_0000_0000_0000,
    ;
    s * 576460752303423488 < threshold
}

/// For totals that a binary64 value holds exactly (below 2^53), a child is
/// gathered into "Other" exactly when it is under one percent of the total.
pub proof fn lemma_minor_means_under_one_percent(size: nat, total: nat)
    requires
        size <= total,
        total < crate::binary64::two_pow_53(),
    ensures
        below_one_percent(size, total) <==> 100 * size < total,
{
    let c = hundredth_significand();
    let v = two_pow_59();
    lemma_exact_below_2_53(size);
    lemma_exact_below_2_53(total);
    let p = total * c;
    let sc = binary64_scale(p);
    let k = binary64_exponent(p);
    let q = p / sc;
    let r = p % sc;
    lemma_significand_bound(p);
    lemma_scale_is_pow2(p);
    lemma2_to64();
    lemma2_to64_rest();
    vstd::arithmetic::div_mod::lemma_fundamental_div_mod(p as int, sc as int);
    assert(p == q * sc + r && 0 <= r < sc);
    assert(p < 9007199254740992 * c) by (nonlinear_arith)
        requires
            p == total * c,
            total < 9007199254740992,
            c == 5764607523034235,
    ;
    assert(k <= 53) by {
        if k > 53 {
            if k > 54 {
                lemma_pow2_strictly_increases(54, k);
            }
            assert(sc >= 18014398509481984);
            assert(sc * 4503599627370496 >= 18014398509481984 * 4503599627370496) by (nonlinear_arith)
                requires
                    sc >= 18014398509481984,
            ;
        }
    }
    assert(sc <= 9007199254740992) by {
        if k < 53 {
            lemma_pow2_strictly_increases(k, 53);
        }
    }
    lemma_pow2_adds(k, (59 - k) as nat);
    assert(pow2(59) == v);
    let g = pow2((59 - k) as nat);
    let m = size * g;
    assert(size * v == m * sc) by (nonlinear_arith)
        requires
            v == sc * g,
            m == size * g,
    ;
    let rounded = crate::binary64::round_half_even(p, sc);
    assert(rounded == q || rounded == q + 1);
    assert(binary64_value(p) == rounded * sc);
    assert(100 * c == v + 12);
    if 100 * size < total {
        assert(100 * (p - size * v) >= v + 12) by (nonlinear_arith)
            requires
                p == total * c,
                100 * c == v + 12,
                100 * size + 1 <= total,
        ;
        if rounded == q {
            assert(2 * r <= sc);
            assert(rounded * sc == p - r);
        } else {
            assert(rounded * sc == q * sc + sc) by (nonlinear_arith)
                requires
                    rounded == q + 1,
            ;
        }
    } else if 100 * size > total {
        assert(100 * (size * v - p) >= v - 12 * total) by (nonlinear_arith)
            requires
                p == total * c,
                100 * c == v + 12,
                100 * size >= total + 1,
        ;
        assert(q < m) by {
            if q >= m {
                assert(q * sc >= m * sc) by (nonlinear_arith)
                    requires
                        q >= m,
                ;
            }
        }
        assert(rounded * sc <= m * sc) by (nonlinear_arith)
            requires
                rounded <= q + 1,
                q + 1 <= m,
        ;
    } else {
        if size > 0 {
            assert(p == m * sc + 12 * size) by (nonlinear_arith)
                requires
                    p == total * c,
                    total == 100 * size,
                    100 * c == v + 12,
                    size * v == m * sc,
            ;
            assert(p < (q + 1) * sc) by (nonlinear_arith)
                requires
                    p == q * sc + r,
                    r < sc,
            ;
            assert((q + 1) * sc <= 9007199254740992 * sc) by (nonlinear_arith)
                requires
                    q < 9007199254740992,
            ;
            assert(24 * size < sc) by (nonlinear_arith)
                requires
                    p < 9007199254740992 * sc,
                    p >= size * v,
                    v == 576460752303423488,
                    size > 0,
            ;
            vstd::arithmetic::div_mod::lemma_fundamental_div_mod_converse(
                p as int,
                sc as int,
                m as int,
                (12 * size) as int,
            );
            assert(rounded == m);
        } else {
            assert(p == 0);
            assert(q == 0 && r == 0);
        }
    }
}

} // verus!
