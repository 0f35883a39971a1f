//! Fixed-point arithmetic on integers.
//!
//! Every length, coordinate and factor in this crate is an integer count of
//! millionths: the value `1.0` is the integer [`ONE`]. Coordinates are kept
//! within [`COORD_MAX`] of zero so that the products the geometry needs fit in
//! 128 bits.
use vstd::prelude::*;
use vstd::arithmetic::div_mod::lemma_fundamental_div_mod;
use vstd::arithmetic::div_mod::lemma_fundamental_div_mod_converse;

verus! {

/// The fixed-point representation of the number one.
pub const ONE: i64 = 1_000_000;

/// The largest magnitude a coordinate may have.
pub const COORD_MAX: i64 = 1_000_000_000_000;

/// Whether `x` is a coordinate this crate can hold.
pub open spec fn in_range(x: int) -> bool {
    -COORD_MAX <= x <= COORD_MAX
}

/// The quotient `n / d` rounded towards minus infinity, for any non-zero `d`.
pub open spec fn floor_div(n: int, d: int) -> int
    recommends
        d != 0,
{
    if d > 0 {
        n / d
    } else {
        (-n) / (-d)
    }
}

/// The quotient `n / d` rounded towards plus infinity, for any non-zero `d`.
pub open spec fn ceil_div(n: int, d: int) -> int
    recommends
        d != 0,
{
    -floor_div(-n, d)
}

/// `floor_div(n, d)` is the one integer `q` with `q * d <= n < (q + 1) * d`
/// when `d` is positive.
pub proof fn lemma_floor_div_unique(n: int, d: int, q: int)
    requires
        d > 0,
        q * d <= n < (q + 1) * d,
    ensures
        floor_div(n, d) == q,
{
    let r = n - q * d;
    assert((q + 1) * d == q * d + d) by (nonlinear_arith);
    assert(n == q * d + r);
    lemma_fundamental_div_mod_converse(n, d, q, r);
}

/// The defining bracket of `floor_div` for a positive divisor.
pub proof fn lemma_floor_div_bracket(n: int, d: int)
    requires
        d > 0,
    ensures
        floor_div(n, d) * d <= n < (floor_div(n, d) + 1) * d,
{
    lemma_fundamental_div_mod(n, d);
    let q = n / d;
    assert(0 <= n % d < d);
    assert(d * q == q * d) by (nonlinear_arith);
    assert((q + 1) * d == q * d + d) by (nonlinear_arith);
}

/// Adding a multiple of the divisor to the numerator adds that multiple's
/// factor to the quotient.
pub proof fn lemma_floor_div_shift(n: int, d: int, k: int)
    requires
        d != 0,
    ensures
        floor_div(n + k * d, d) == floor_div(n, d) + k,
{
    if d > 0 {
        lemma_floor_div_bracket(n, d);
        let q = floor_div(n, d);
        assert((q + k) * d == q * d + k * d) by (nonlinear_arith);
        assert((q + k + 1) * d == (q + 1) * d + k * d) by (nonlinear_arith);
        lemma_floor_div_unique(n + k * d, d, q + k);
    } else {
        let e = -d;
        lemma_floor_div_bracket(-n, e);
        let q = floor_div(-n, e);
        assert(-(n + k * d) == -n + k * e) by (nonlinear_arith)
            requires
                e == -d,
        ;
        assert((q + k) * e == q * e + k * e) by (nonlinear_arith);
        assert((q + k + 1) * e == (q + 1) * e + k * e) by (nonlinear_arith);
        lemma_floor_div_unique(-n + k * e, e, q + k);
    }
}

/// A product is bounded by the product of its factors' bounds.
pub proof fn lemma_product_bound(a: int, b: int, ma: int, mb: int)
    requires
        -ma <= a <= ma,
        -mb <= b <= mb,
    ensures
        -(ma * mb) <= a * b <= ma * mb,
{
    assert(-(ma * mb) <= a * b <= ma * mb) by (nonlinear_arith)
        requires
            -ma <= a <= ma,
            -mb <= b <= mb,
    ;
}

/// Divides rounding towards minus infinity.
pub fn div_floor(n: i128, d: i128) -> (q: i128)
    requires
        d != 0,
        -i128::MAX <= n,
        -i128::MAX <= d,
    ensures
        q == floor_div(n as int, d as int),
{
    let num: i128 = if d < 0 { -n } else { n };
    let den: i128 = if d < 0 { -d } else { d };
    let t: i128 = num / den;
    let r: i128 = num % den;
    proof {
        lemma_floor_div_bracket(num as int, den as int);
        if num < 0 {
            let m = -(num as int);
            lemma_floor_div_bracket(m, den as int);
            lemma_fundamental_div_mod(m, den as int);
            assert(t == -(m / (den as int)));
            assert(r == -(m % (den as int)));
            let q0 = m / (den as int);
            assert((-q0) * den == -(q0 * den)) by (nonlinear_arith);
            assert((-q0 - 1) * den == -(q0 * den) - den) by (nonlinear_arith);
            assert((-q0 + 1) * den == -(q0 * den) + den) by (nonlinear_arith);
            assert((den as int) * q0 == q0 * den) by (nonlinear_arith);
            if r < 0 {
                lemma_floor_div_unique(num as int, den as int, -q0 - 1);
            } else {
                lemma_floor_div_unique(num as int, den as int, -q0);
            }
        }
    }
    if r < 0 {
        t - 1
    } else {
        t
    }
}

} // verus!
