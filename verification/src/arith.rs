//! Rounding division on integers and the bounds it needs.

use vstd::arithmetic::div_mod::lemma_fundamental_div_mod;
use vstd::prelude::*;

verus! {

/// `n / d` rounded up.
pub open spec fn ceil_of(n: int, d: int) -> int {
    -((-n) / d)
}

/// `n / d` rounded down.
pub open spec fn floor_of(n: int, d: int) -> int {
    n / d
}

/// `n / d` rounded toward zero.
pub open spec fn trunc_of(n: int, d: int) -> int {
    if n >= 0 {
        n / d
    } else {
        -((-n) / d)
    }
}

/// `n / d` rounded to the nearest integer, halves away from zero.
pub open spec fn round_of(n: int, d: int) -> int {
    if n >= 0 {
        (2 * n + d) / (2 * d)
    } else {
        -((-2 * n + d) / (2 * d))
    }
}

/// The ceiling is the least integer that is not below the fraction.
pub proof fn lemma_ceil(n: int, d: int)
    requires
        d > 0,
    ensures
        ceil_of(n, d) * d >= n,
        (ceil_of(n, d) - 1) * d < n,
{
    let q = (-n) / d;
    lemma_fundamental_div_mod(-n, d);
    assert(-n == d * q + (-n) % d);
    assert((-q) * d >= n && (-q - 1) * d < n) by (nonlinear_arith)
        requires
            -n == d * q + (-n) % d,
            0 <= (-n) % d < d,
    ;
}

/// An integer that is not below the fraction, while its predecessor is.
pub proof fn lemma_ceil_is(n: int, d: int, c: int)
    requires
        d > 0,
        c * d >= n,
        (c - 1) * d < n,
    ensures
        ceil_of(n, d) == c,
{
    lemma_ceil(n, d);
    let e = ceil_of(n, d);
    assert(e == c) by (nonlinear_arith)
        requires
            e * d >= n,
            (e - 1) * d < n,
            c * d >= n,
            (c - 1) * d < n,
            d > 0,
    ;
}

/// The floor is the greatest integer that is not above the fraction.
pub proof fn lemma_floor(n: int, d: int)
    requires
        d > 0,
    ensures
        floor_of(n, d) * d <= n,
        (floor_of(n, d) + 1) * d > n,
{
    lemma_fundamental_div_mod(n, d);
    let q = n / d;
    assert(q * d <= n && (q + 1) * d > n) by (nonlinear_arith)
        requires
            n == d * q + n % d,
            0 <= n % d < d,
    ;
}

/// An integer that is not above the fraction, while its successor is.
pub proof fn lemma_floor_is(n: int, d: int, f: int)
    requires
        d > 0,
        f * d <= n,
        (f + 1) * d > n,
    ensures
        floor_of(n, d) == f,
{
    lemma_floor(n, d);
    let e = n / d;
    assert(e == f) by (nonlinear_arith)
        requires
            e * d <= n,
            (e + 1) * d > n,
            f * d <= n,
            (f + 1) * d > n,
            d > 0,
    ;
}

/// Factors of bounded size have a product of bounded size.
pub proof fn lemma_product(a: int, b: int, x: int, y: int)
    requires
        -x <= a <= x,
        -y <= b <= y,
    ensures
        -(x * y) <= a * b <= x * y,
{
    assert(-(x * y) <= a * b && a * b <= x * y) by (nonlinear_arith)
        requires
            -x <= a <= x,
            -y <= b <= y,
    ;
}

/// Division rounded up.
pub fn ceil_div(num: i128, den: i128) -> (r: i128)
    requires
        den > 0,
        -i128::MAX <= num,
        num + den - 1 <= i128::MAX,
    ensures
        r == ceil_of(num as int, den as int),
{
    if num > 0 {
        let n: u128 = (num + (den - 1)) as u128;
        let d: u128 = den as u128;
        let q: u128 = n / d;
        proof {
            let (ni, di, qi) = (n as int, d as int, q as int);
            lemma_floor(ni, di);
            assert(qi * di >= num && (qi - 1) * di < num) by (nonlinear_arith)
                requires
                    qi * di <= ni,
                    (qi + 1) * di > ni,
                    ni == num + di - 1,
                    di > 0,
            ;
            lemma_ceil_is(num as int, den as int, qi);
            assert(qi <= ni) by (nonlinear_arith)
                requires
                    qi * di <= ni,
                    di >= 1,
                    ni >= 0,
                    qi >= 0,
            ;
        }
        q as i128
    } else {
        let n: u128 = (-num) as u128;
        let q: u128 = n / (den as u128);
        proof {
            let (ni, di, qi) = (n as int, den as int, q as int);
            lemma_floor(ni, di);
            assert(qi <= ni) by (nonlinear_arith)
                requires
                    qi * di <= ni,
                    di >= 1,
                    ni >= 0,
                    qi >= 0,
            ;
        }
        -(q as i128)
    }
}

/// Division rounded down.
pub fn floor_div(num: i128, den: i128) -> (r: i128)
    requires
        den > 0,
        -i128::MAX <= num - den,
    ensures
        r == floor_of(num as int, den as int),
{
    if num >= 0 {
        let q: u128 = (num as u128) / (den as u128);
        proof {
            let (ni, di, qi) = (num as int, den as int, q as int);
            lemma_floor(ni, di);
            assert(qi <= ni) by (nonlinear_arith)
                requires
                    qi * di <= ni,
                    di >= 1,
                    ni >= 0,
                    qi >= 0,
            ;
        }
        q as i128
    } else {
        // floor(-m / d) == -ceil(m / d)
        let m: u128 = (-(num - (den - 1))) as u128;
        let q: u128 = m / (den as u128);
        proof {
            let (mi, di, qi, ni) = (m as int, den as int, q as int, num as int);
            lemma_floor(mi, di);
            assert(-qi * di <= ni && (-qi + 1) * di > ni) by (nonlinear_arith)
                requires
                    qi * di <= mi,
                    (qi + 1) * di > mi,
                    mi == -ni + di - 1,
                    di > 0,
            ;
            lemma_floor_is(ni, di, -qi);
            assert(qi <= mi) by (nonlinear_arith)
                requires
                    qi * di <= mi,
                    di >= 1,
                    mi >= 0,
                    qi >= 0,
            ;
        }
        -(q as i128)
    }
}

/// Division rounded toward zero.
pub fn trunc_div(num: i128, den: i128) -> (r: i128)
    requires
        den > 0,
        -i128::MAX <= num,
    ensures
        r == trunc_of(num as int, den as int),
        num >= 0 ==> 0 <= r <= num,
        num <= 0 ==> num <= r <= 0,
{
    let n: u128 = if num >= 0 {
        num as u128
    } else {
        (-num) as u128
    };
    let q: u128 = n / (den as u128);
    proof {
        let (ni, di, qi) = (n as int, den as int, q as int);
        lemma_floor(ni, di);
        assert(qi <= ni) by (nonlinear_arith)
            requires
                qi * di <= ni,
                di >= 1,
                ni >= 0,
                qi >= 0,
        ;
    }
    if num >= 0 {
        q as i128
    } else {
        -(q as i128)
    }
}

} // verus!
