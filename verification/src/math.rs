//! Integer division that rounds the way the grids need it.

use vstd::arithmetic::div_mod::{lemma_fundamental_div_mod, lemma_mod_multiples_basic};
use vstd::prelude::*;

verus! {

/// `num / den` rounded down, for a positive `den`.
pub open spec fn floor_div(num: int, den: int) -> int {
    num / den
}

/// `num / den` rounded up, for a positive `den`.
pub open spec fn ceil_div(num: int, den: int) -> int {
    (num + den - 1) / den
}

/// `num / den` rounded to the nearest integer, a tie going away from zero,
/// for a positive `den`.
pub open spec fn round_half_away(num: int, den: int) -> int {
    if num >= 0 {
        (2 * num + den) / (2 * den)
    } else {
        -((den - 2 * num) / (2 * den))
    }
}

/// `num / den` rounded down.
pub fn floor_div_exec(num: i128, den: i128) -> (quotient: i128)
    requires
        den > 0,
        -0x1_0000_0000_0000_0000_0000 <= num <= 0x1_0000_0000_0000_0000_0000,
        den <= 0x1_0000_0000_0000_0000_0000,
    ensures
        quotient == floor_div(num as int, den as int),
{
    if num >= 0 {
        num / den
    } else {
        let back = -num;
        let whole = back / den;
        let rest = back % den;
        assert(num == -(whole * den + rest) && 0 <= rest < den && 0 <= whole <= back)
            by (nonlinear_arith)
            requires
                back == -num,
                back >= 0,
                den > 0,
                whole == back as int / den as int,
                rest == back as int % den as int,
        ;
        if rest == 0 {
            assert(num as int / den as int == -whole) by (nonlinear_arith)
                requires
                    num == -(whole * den),
                    den > 0,
            ;
            -whole
        } else {
            assert(num as int / den as int == -whole - 1) by (nonlinear_arith)
                requires
                    num == -(whole * den + rest),
                    0 < rest < den,
            ;
            -whole - 1
        }
    }
}

/// `num / den` rounded up.
pub fn ceil_div_exec(num: i128, den: i128) -> (quotient: i128)
    requires
        den > 0,
        -0x1_0000_0000_0000_0000_0000 <= num <= 0x1_0000_0000_0000_0000,
        den <= 0x1_0000_0000_0000_0000,
    ensures
        quotient == ceil_div(num as int, den as int),
{
    floor_div_exec(num + den - 1, den)
}

/// `num / den` rounded to the nearest integer, a tie going away from zero.
pub fn round_half_away_exec(num: i128, den: i128) -> (quotient: i128)
    requires
        den > 0,
        -0x1_0000_0000_0000_0000 <= num <= 0x1_0000_0000_0000_0000,
        den <= 0x1_0000_0000_0000_0000,
    ensures
        quotient == round_half_away(num as int, den as int),
{
    if num >= 0 {
        (2 * num + den) / (2 * den)
    } else {
        -((den - 2 * num) / (2 * den))
    }
}

/// True when no integer above one divides both `a` and `b`.
pub open spec fn coprime(a: int, b: int) -> bool {
    forall|k: int| k > 1 ==> !(#[trigger] (a % k) == 0 && b % k == 0)
}

/// A multiple of `k` leaves no remainder.
proof fn lemma_multiple(k: int, count: int)
    requires
        k > 0,
    ensures
        (k * count) % k == 0,
{
    lemma_mod_multiples_basic(count, k);
    assert(count * k == k * count) by (nonlinear_arith);
}

/// A number that `k` divides is `k` times the quotient.
proof fn lemma_divided(n: int, k: int)
    requires
        k > 0,
        n % k == 0,
    ensures
        n == k * (n / k),
{
    lemma_fundamental_div_mod(n, k);
}

/// Euclid's lemma: a number that divides a product and shares no divisor
/// with one factor divides the other factor.
pub proof fn lemma_coprime_divides(a: int, b: int, d: int)
    requires
        b > 0,
        coprime(a, b),
        (a * d) % b == 0,
    ensures
        d % b == 0,
    decreases b,
{
    if b == 1 {
    } else {
        let q = a / b;
        let r = a % b;
        lemma_fundamental_div_mod(a, b);
        if r == 0 {
            lemma_multiple(b, 1);
            assert(b * 1 == b);
            assert(a % b == 0 && b % b == 0);
        }
        assert forall|k: int| k > 1 implies !(#[trigger] (b % k) == 0 && r % k == 0) by {
            if b % k == 0 && r % k == 0 {
                lemma_divided(b, k);
                lemma_divided(r, k);
                let count = (b / k) * q + r / k;
                assert(a == k * count) by (nonlinear_arith)
                    requires
                        a == b * q + r,
                        b == k * (b / k),
                        r == k * (r / k),
                        count == (b / k) * q + r / k,
                ;
                lemma_multiple(k, count);
                assert(a % k == 0);
            }
        }
        lemma_divided(a * d, b);
        let t = (a * d) / b;
        assert(r * d == b * (t - q * d)) by (nonlinear_arith)
            requires
                a == b * q + r,
                a * d == b * t,
        ;
        lemma_multiple(b, t - q * d);
        let m = t - q * d;
        assert(b * m == r * d);
        assert(r * d == d * r) by (nonlinear_arith);
        lemma_multiple(r, d);
        assert((b * m) % r == 0) by {
            assert(b * m == r * d);
        }
        lemma_coprime_divides(b, r, m);
        lemma_divided(m, r);
        let m2 = m / r;
        assert(d == b * m2) by (nonlinear_arith)
            requires
                r * d == b * m,
                m == r * m2,
                r > 0,
        ;
        lemma_multiple(b, m2);
    }
}

/// A fraction has one form in lowest terms with a positive denominator.
pub proof fn lemma_lowest_terms_unique(a: int, b: int, c: int, d: int)
    requires
        b > 0,
        d > 0,
        coprime(a, b),
        coprime(c, d),
        a * d == c * b,
    ensures
        a == c,
        b == d,
{
    assert(c * b == b * c) by (nonlinear_arith);
    lemma_multiple(b, c);
    lemma_coprime_divides(a, b, d);
    assert(a * d == d * a) by (nonlinear_arith);
    lemma_multiple(d, a);
    assert((c * b) % d == 0);
    lemma_coprime_divides(c, d, b);
    lemma_divided(d, b);
    lemma_divided(b, d);
    assert(b == d) by (nonlinear_arith)
        requires
            d == b * (d / b),
            b == d * (b / d),
            b > 0,
            d > 0,
    ;
    assert(a == c) by (nonlinear_arith)
        requires
            a * d == c * b,
            b == d,
            d > 0,
    ;
}

/// The lowest terms of a fraction are no larger than the fraction's own
/// terms.
pub proof fn lemma_lowest_terms_bound(num: int, den: int, a: int, b: int)
    requires
        den != 0,
        b > 0,
        coprime(a, b),
        a * den == num * b,
    ensures
        b <= den || b <= -den,
        -num <= a <= num || num <= a <= -num,
{
    assert(a * den == b * num) by (nonlinear_arith)
        requires
            a * den == num * b,
    ;
    lemma_multiple(b, num);
    lemma_coprime_divides(a, b, den);
    lemma_divided(den, b);
    let t = den / b;
    assert(t != 0 && (b <= den || b <= -den)) by (nonlinear_arith)
        requires
            den == b * t,
            den != 0,
            b > 0,
    ;
    assert(num == a * t) by (nonlinear_arith)
        requires
            a * den == num * b,
            den == b * t,
            b > 0,
    ;
    assert(-num <= a <= num || num <= a <= -num) by (nonlinear_arith)
        requires
            num == a * t,
            t != 0,
    ;
}

} // verus!
