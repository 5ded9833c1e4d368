//! Integer division as Rust computes it (rounding toward zero).
use vstd::arithmetic::div_mod::{
    lemma_div_is_ordered, lemma_div_is_ordered_by_denominator, lemma_div_multiples_vanish, lemma_fundamental_div_mod,
    lemma_fundamental_div_mod_converse,
};
use vstd::prelude::*;

verus! {

/// `|a|`.
pub open spec fn abs(a: int) -> int {
    if a >= 0 {
        a
    } else {
        -a
    }
}

/// `a / b` rounded toward zero, as Rust's signed division computes it
/// (`/` on `int` in specifications is Euclidean).
pub open spec fn tdiv(a: int, b: int) -> int {
    if a >= 0 {
        a / b
    } else {
        -((-a) / b)
    }
}

/// Euclidean division by a negative number.
proof fn lemma_div_neg_divisor(a: int, b: int)
    requires
        b < 0,
    ensures
        a / b == -(a / (-b)),
{
    lemma_fundamental_div_mod(a, b);
    assert(0 <= a % b < -b);
    assert(a == (-(a / b)) * (-b) + a % b) by (nonlinear_arith)
        requires
            a == b * (a / b) + (a % b),
    ;
    lemma_fundamental_div_mod_converse(a, -b, -(a / b), a % b);
}

/// Truncating division is the quotient of the magnitudes, with the sign of the
/// product.
pub proof fn lemma_tdiv(a: int, b: int)
    requires
        b != 0,
    ensures
        tdiv(a, b) == if (a >= 0) == (b > 0) {
            abs(a) / abs(b)
        } else {
            -(abs(a) / abs(b))
        },
        abs(a) / abs(b) >= 0,
        abs(a) / abs(b) <= abs(a),
{
    if b < 0 {
        lemma_div_neg_divisor(a, b);
        lemma_div_neg_divisor(-a, b);
    }
    assert(abs(a) / abs(b) >= 0 && abs(a) / abs(b) <= abs(a)) by (nonlinear_arith)
        requires
            abs(a) >= 0,
            abs(b) >= 1,
    ;
}

/// Scaling `d` by `num / den`, a fraction in `[0, 1]`, with truncation stays
/// between 0 and `d`.
pub proof fn lemma_tdiv_scale(d: int, num: int, den: int)
    requires
        den != 0,
        num == 0 || (num > 0) == (den > 0),
        abs(num) <= abs(den),
    ensures
        d >= 0 ==> 0 <= tdiv(d * num, den) <= d,
        d < 0 ==> d <= tdiv(d * num, den) <= 0,
{
    lemma_tdiv(d * num, den);
    let an = abs(num);
    let ad = abs(den);
    let m = abs(d);
    assert(abs(d * num) == m * an) by (nonlinear_arith)
        requires
            m == abs(d),
            an == abs(num),
    ;
    assert(m * an <= m * ad) by (nonlinear_arith)
        requires
            m >= 0,
            0 <= an <= ad,
    ;
    lemma_div_is_ordered(m * an, m * ad, ad);
    lemma_div_multiples_vanish(m, ad);
    if num == 0 || d == 0 {
        assert(d * num == 0) by (nonlinear_arith)
            requires
                num == 0 || d == 0,
        ;
    } else if d > 0 {
        assert((d * num > 0) == (num > 0)) by (nonlinear_arith)
            requires
                d > 0,
                num != 0,
        ;
    } else {
        assert((d * num > 0) == (num < 0)) by (nonlinear_arith)
            requires
                d < 0,
                num != 0,
        ;
    }
}

/// Truncating division is off by less than one divisor: `q * b` lies strictly
/// within `|b|` of `a`, on the side of zero.
pub proof fn lemma_tdiv_remainder(a: int, b: int)
    requires
        b != 0,
    ensures
        abs(a - tdiv(a, b) * b) < abs(b),
        a >= 0 ==> 0 <= a - tdiv(a, b) * b,
        a <= 0 ==> a - tdiv(a, b) * b <= 0,
{
    lemma_tdiv(a, b);
    let aa = abs(a);
    let ab = abs(b);
    let q = aa / ab;
    lemma_fundamental_div_mod(aa, ab);
    assert(0 <= aa % ab < ab);
    let r = aa % ab;
    assert(aa == ab * q + r);
    if (a >= 0) == (b > 0) {
        assert(tdiv(a, b) == q);
        if a >= 0 {
            assert(a - q * b == r) by (nonlinear_arith)
                requires
                    a == aa,
                    b == ab,
                    aa == ab * q + r,
            ;
        } else {
            assert(a - q * b == -r) by (nonlinear_arith)
                requires
                    a == -aa,
                    b == -ab,
                    aa == ab * q + r,
            ;
        }
    } else {
        assert(tdiv(a, b) == -q);
        if a >= 0 {
            assert(a - (-q) * b == r) by (nonlinear_arith)
                requires
                    a == aa,
                    b == -ab,
                    aa == ab * q + r,
            ;
        } else {
            assert(a - (-q) * b == -r) by (nonlinear_arith)
                requires
                    a == -aa,
                    b == ab,
                    aa == ab * q + r,
            ;
        }
    }
}

/// Dividing an exact multiple leaves no remainder: `tdiv(a * b, b) == a`.
pub proof fn lemma_tdiv_exact(a: int, b: int)
    requires
        b != 0,
    ensures
        tdiv(a * b, b) == a,
{
    lemma_tdiv_remainder(a * b, b);
    let t = tdiv(a * b, b);
    assert(t == a) by (nonlinear_arith)
        requires
            abs(a * b - t * b) < abs(b),
            b != 0,
    ;
}

/// `a / b` for `i64`, rounding toward zero.
pub fn div_i64(a: i64, b: i64) -> (c: i64)
    requires
        b != 0,
        !(a == i64::MIN && b == -1),
    ensures
        c == tdiv(a as int, b as int),
{
    proof {
        lemma_tdiv(a as int, b as int);
        if b < 0 {
            lemma_div_neg_divisor(a as int, b as int);
            lemma_div_neg_divisor(-a, b as int);
            if b < -1 {
                lemma_div_is_ordered_by_denominator(abs(a as int), 2, abs(b as int));
            }
        }
    }
    a / b
}

} // verus!
