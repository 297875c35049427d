//! How far arithmetic on numbers strays from arithmetic on their values.
//!
//! A sum is off by no more than one part in 2^53 of what it should be, for each
//! time it was rounded. Nothing here speaks of overflow but to say when there is
//! none.

use crate::number::{
    difference, lemma_exact, lemma_exact_ratio, lemma_nearest_at_most, lemma_rounds_somewhere,
    lemma_sum_keeps_order, lemma_units_monotonic, lemma_units_of, lemma_units_split,
    lemma_units_step, nearest, negated, num, product, quotient, rounds_to, signed, sum, units,
    Number, FRACTION, INFINITE, ONE, SIGN, ZERO,
};
use vstd::arithmetic::mul::*;
use vstd::arithmetic::power2::*;
use vstd::arithmetic::power::*;
use vstd::prelude::*;

verus! {

/// Two to the fifty-third.
pub const PARTS: u64 = 0x20_0000_0000_0000;

/// How large a value is, whatever its sign.
pub open spec fn size(x: int) -> int {
    if x < 0 {
        -x
    } else {
        x
    }
}

/// Whether a value is another one rounded once.
pub open spec fn close(x: int, exact: int) -> bool {
    PARTS * size(x - exact) <= size(exact)
}

/// Whether a value that is not negative is another one rounded no more than so
/// many times.
pub open spec fn within(x: int, exact: int, times: nat) -> bool {
    &&& exact * pow(PARTS - 1, times) <= x * pow(PARTS as int, times)
    &&& x * pow(PARTS as int, times) <= exact * pow(PARTS + 1, times)
}

/// How far apart two neighbours are.
proof fn lemma_spacing(m: nat)
    ensures
        m < FRACTION ==> units(m + 1) == units(m) + 1,
        m >= FRACTION ==> FRACTION * (units(m + 1) - units(m)) <= units(m),
        units(m) < units(m + 1),
{
    let f = FRACTION as nat;
    lemma_units_step(m);
    lemma_units_split(m);
    lemma2_to64();
    if m < f {
        lemma_units_split(m + 1);
        if m + 1 == f {
            lemma_units_of(0, f);
        }
    } else {
        let t = (m / f - 1) as nat;
        let q = m % f + f;
        lemma_units_of(t, q);
        lemma_units_of(t, q + 1);
        let p = pow2(t);
        assert((q + 1) * p - q * p == p) by (nonlinear_arith);
        assert(f * p <= q * p) by (nonlinear_arith)
            requires
                f <= q,
                p >= 0,
        ;
    }
}

pub proof fn lemma_nearest_close(num: nat)
    ensures
        nearest(num, 1) < INFINITE ==> close(units(nearest(num, 1)) as int, num as int),
{
    let m = nearest(num, 1);
    let u = units(m);
    lemma_rounds_somewhere(num);
    if m < INFINITE {
        lemma_spacing(m);
        if u >= num {
            if m > 0 {
                lemma_spacing((m - 1) as nat);
            }
        }
    }
}

/// Every ratio has the last magnitude worth no more.
proof fn lemma_last_ratio(num: nat, den: nat, top: nat) -> (k: nat)
    requires
        num < units(top + 1) * den,
    ensures
        k <= top,
        units(k) * den <= num < units(k + 1) * den,
    decreases top,
{
    if units(top) * den <= num {
        top
    } else {
        assert(top > 0) by {
            if top == 0 {
                assert(units(0) * den == 0) by (nonlinear_arith)
                    requires
                        units(0) == 0,
                ;
            }
        }
        lemma_last_ratio(num, den, (top - 1) as nat)
    }
}

/// Every ratio rounds to something.
proof fn lemma_ratio_rounds(num: nat, den: nat)
    requires
        den > 0,
    ensures
        rounds_to(nearest(num, den), num, den),
{
    let top = INFINITE as nat;
    if units(top) * den <= num {
        lemma_units_step((top - 1) as nat);
        let before = units((top - 1) as nat);
        let u = units(top);
        assert((before + u) * den < 2 * num) by (nonlinear_arith)
            requires
                before < u,
                u * den <= num,
                den > 0,
        ;
        assert(rounds_to(top, num, den));
    } else {
        let k = lemma_last_ratio(num, den, (top - 1) as nat);
        let u = units(k);
        let after = units(k + 1);
        lemma_units_step(k);
        lemma_units_step(k + 1);
        let next = units(k + 2);
        if k > 0 {
            lemma_units_step((k - 1) as nat);
            let before = units((k - 1) as nat);
            assert((before + u) * den < 2 * num) by (nonlinear_arith)
                requires
                    before < u,
                    u * den <= num,
                    den > 0,
            ;
        }
        assert((after + next) * den > 2 * num) by (nonlinear_arith)
            requires
                after < next,
                num < after * den,
                den > 0,
        ;
        let half = (u + after) * den;
        if 2 * num < half || (2 * num == half && k % 2 == 0) {
            assert(rounds_to(k, num, den));
        } else {
            assert(rounds_to(k + 1, num, den));
        }
    }
}

/// A ratio is what it should be but for one rounding, and half the smallest number
/// at that.
proof fn lemma_ratio_close(num: nat, den: nat)
    requires
        den > 0,
    ensures
        nearest(num, den) < INFINITE ==> PARTS * size(units(nearest(num, den)) * den - num) <= num
            + FRACTION * den,
{
    let m = nearest(num, den);
    let u = units(m) as int;
    let d = den as int;
    let n = num as int;
    lemma_ratio_rounds(num, den);
    if m < INFINITE {
        if u * d >= n {
            if m > 0 {
                lemma_spacing((m - 1) as nat);
                let before = units((m - 1) as nat) as int;
                let w = u - before;
                assert(2 * (u * d - n) <= w * d) by (nonlinear_arith)
                    requires
                        (before + u) * d <= 2 * n,
                        w == u - before,
                ;
                if m - 1 < FRACTION {
                    assert(w * d == d) by (nonlinear_arith)
                        requires
                            w == 1,
                    ;
                } else {
                    assert(FRACTION * (w * d) <= n) by (nonlinear_arith)
                        requires
                            FRACTION * w <= before,
                            (before + u) * d <= 2 * n,
                            before <= u,
                            d > 0,
                    ;
                }
            } else {
                assert(u * d == 0) by (nonlinear_arith)
                    requires
                        u == 0,
                ;
            }
        } else {
            lemma_spacing(m);
            let after = units(m + 1) as int;
            let w = after - u;
            assert(2 * (n - u * d) <= w * d) by (nonlinear_arith)
                requires
                    2 * n <= (u + after) * d,
                    w == after - u,
            ;
            if m < FRACTION {
                assert(w * d == d) by (nonlinear_arith)
                    requires
                        w == 1,
                ;
            } else {
                assert(FRACTION * (w * d) <= n) by (nonlinear_arith)
                    requires
                        FRACTION * w <= u,
                        u * d <= n,
                        d > 0,
                ;
            }
        }
    }
}

/// Rounding a ratio passes no magnitude that is worth as much.
proof fn lemma_ratio_at_most(num: nat, den: nat, magnitude: nat)
    requires
        den > 0,
        num <= units(magnitude) * den,
    ensures
        nearest(num, den) <= magnitude,
{
    lemma_ratio_rounds(num, den);
    let r = nearest(num, den);
    if r > magnitude {
        lemma_units_monotonic(magnitude, (r - 1) as nat);
        lemma_units_monotonic(magnitude, r);
        let low = units((r - 1) as nat);
        let high = units(r);
        let u = units(magnitude);
        assert((low + high) * den > 2 * (u * den)) by (nonlinear_arith)
            requires
                low >= u,
                high > u,
                den > 0,
        ;
    }
}

/// The larger of two ratios rounds no lower.
proof fn lemma_ratio_keeps_order(low: nat, high: nat, den: nat)
    requires
        den > 0,
        low <= high,
    ensures
        nearest(low, den) <= nearest(high, den),
{
    lemma_ratio_rounds(low, den);
    lemma_ratio_rounds(high, den);
    let r = nearest(low, den);
    let s = nearest(high, den);
    if s < r {
        lemma_units_monotonic(s, (r - 1) as nat);
        lemma_units_monotonic(s + 1, r);
        let x = units(s) + units(s + 1);
        let y = units((r - 1) as nat) + units(r);
        lemma_mul_inequality(x as int, y as int, den as int);
        assert(low == high);
    }
}

/// A larger part of the same is no smaller.
pub proof fn lemma_quotient_keeps_order(a: Number, b: Number, c: Number)
    requires
        a.finite(),
        b.finite(),
        c.finite(),
        0 <= a.value() <= b.value(),
        c.value() > 0,
        !a.negative() && !b.negative(),
    ensures
        quotient(a, c).rank() <= quotient(b, c).rank(),
        !quotient(a, c).nan() && !quotient(b, c).nan(),
{
    let p = pow2(1074);
    let n = units(a.magnitude());
    let m = units(b.magnitude());
    let d = units(c.magnitude());
    lemma_quotient_of_positive(a, c);
    lemma_quotient_of_positive(b, c);
    assert(n <= m && d > 0);
    lemma_mul_inequality(n as int, m as int, p as int);
    lemma_ratio_keeps_order(n * p, m * p, d);
}

pub proof fn lemma_quotient_of_positive(a: Number, c: Number)
    requires
        a.finite(),
        c.finite(),
        !a.negative(),
        c.value() > 0,
    ensures
        quotient(a, c).rank() == nearest(units(a.magnitude()) * pow2(1074), units(c.magnitude())),
        !quotient(a, c).nan(),
        !quotient(a, c).negative(),
{
    reveal(quotient);
    lemma_units_monotonic(0, c.magnitude());
    let k = nearest(units(a.magnitude()) * pow2(1074), units(c.magnitude()));
    lemma_ratio_rounds(units(a.magnitude()) * pow2(1074), units(c.magnitude()));
    assert(quotient(a, c) == signed(false, k));
    assert(signed(false, k).bits == k);
}

/// Nothing of something is nothing, and all of it one.
pub proof fn lemma_none_and_all(x: Number)
    requires
        x.finite(),
        num(ZERO).less(x),
    ensures
        quotient(num(ZERO), x) == num(ZERO),
        quotient(x, x) == num(ONE),
{
    reveal(quotient);
    let p = pow2(1074);
    let u = units(x.magnitude());
    lemma_units_monotonic(0, x.magnitude());
    lemma_units_of(1022, FRACTION as nat);
    lemma2_to64_rest();
    lemma_pow2_adds(52, 1022);
    assert(ONE == 1022 * FRACTION + FRACTION);
    assert(units(ONE as nat) == p);
    assert(u > 0);
    assert(0 * p == 0) by (nonlinear_arith);
    assert(0 * u == 0) by (nonlinear_arith);
    lemma_mul_is_commutative(u as int, p as int);
    lemma_exact_ratio(0, 0, u);
    lemma_exact_ratio(ONE as nat, u * p, u);
}

/// A quotient of what is not above zero is not above zero.
pub proof fn lemma_quotient_of_negative(a: Number, c: Number)
    requires
        a.finite(),
        c.finite(),
        a.negative(),
        !c.negative(),
        c.value() > 0,
    ensures
        quotient(a, c).rank() <= 0,
        !quotient(a, c).nan(),
{
    reveal(quotient);
    lemma_units_monotonic(0, c.magnitude());
    let k = nearest(units(a.magnitude()) * pow2(1074), units(c.magnitude()));
    lemma_ratio_rounds(units(a.magnitude()) * pow2(1074), units(c.magnitude()));
    assert(quotient(a, c) == signed(true, k));
    assert(signed(true, k).bits == k + SIGN);
}

/// A product of two that are not negative is not.
pub proof fn lemma_product_of_positive(a: Number, b: Number)
    requires
        a.finite(),
        b.finite(),
        !a.negative(),
        !b.negative(),
    ensures
        !product(a, b).negative(),
        !product(a, b).nan(),
{
    reveal(product);
    let n = units(a.magnitude()) * units(b.magnitude());
    lemma_pow2_pos(1074);
    let k = nearest(n, pow2(1074));
    lemma_ratio_rounds(n, pow2(1074));
    assert(product(a, b) == signed(false, k));
    assert(signed(false, k).bits == k);
}

/// A product is what it should be but for one rounding, and half the smallest number
/// at that; there is one wherever it should be no more than the largest number.
pub proof fn lemma_product_close(a: Number, b: Number)
    requires
        a.finite(),
        b.finite(),
    ensures
        product(a, b).finite() ==> PARTS * size(
            product(a, b).value() * pow2(1074) - a.value() * b.value(),
        ) <= size(a.value() * b.value()) + FRACTION * pow2(1074),
        size(a.value() * b.value()) <= units((INFINITE - 1) as nat) * pow2(1074) ==> product(
            a,
            b,
        ).finite(),
{
    reveal(product);
    let n = units(a.magnitude());
    let d = units(b.magnitude());
    let p = pow2(1074);
    lemma_pow2_pos(1074);
    lemma_ratio_close(n * d, p);
    lemma_ratio_rounds(n * d, p);
    lemma_signed_product(a, b);
    if n * d <= units((INFINITE - 1) as nat) * p {
        lemma_ratio_at_most(n * d, p, (INFINITE - 1) as nat);
    }
    let m = units(nearest(n * d, p));
    lemma_mul_unary_negation(m as int, p as int);
}

proof fn lemma_signed_product(a: Number, b: Number)
    ensures
        ({
            let n = units(a.magnitude()) * units(b.magnitude());
            &&& a.negative() == b.negative() ==> a.value() * b.value() == n
            &&& a.negative() != b.negative() ==> a.value() * b.value() == -n
            &&& n >= 0
        }),
{
    let x = units(a.magnitude()) as int;
    let y = units(b.magnitude()) as int;
    lemma_mul_unary_negation(x, y);
    lemma_mul_cancels_negatives(x, y);
    lemma_mul_inequality(0, x, y);
    lemma_mul_basics(y);
}

/// A ratio of numbers is what it should be but for one rounding, and half the
/// smallest number at that.
pub proof fn lemma_quotient_near(a: Number, b: Number)
    requires
        a.finite(),
        b.finite(),
        b.value() != 0,
        quotient(a, b).finite(),
    ensures
        PARTS * size(quotient(a, b).value() * b.value() - a.value() * pow2(1074)) <= size(a.value())
            * pow2(1074) + FRACTION * size(b.value()),
{
    reveal(quotient);
    let n = units(a.magnitude());
    let d = units(b.magnitude());
    let p = pow2(1074);
    lemma_units_monotonic(0, b.magnitude());
    lemma_ratio_close(n * p, d);
    lemma_ratio_rounds(n * p, d);
    let m = units(nearest(n * p, d)) as int;
    lemma_mul_unary_negation(m, d as int);
    lemma_mul_unary_negation(n as int, p as int);
    lemma_mul_cancels_negatives(m, d as int);
}

/// There is a ratio wherever it should be no more than the largest number.
pub proof fn lemma_quotient_finite(a: Number, b: Number)
    requires
        a.finite(),
        b.finite(),
        b.value() != 0,
        size(a.value()) * pow2(1074) <= units((INFINITE - 1) as nat) * size(b.value()),
    ensures
        quotient(a, b).finite(),
{
    reveal(quotient);
    let n = units(a.magnitude());
    let d = units(b.magnitude());
    lemma_units_monotonic(0, b.magnitude());
    lemma_ratio_at_most(n * pow2(1074), d, (INFINITE - 1) as nat);
}

/// A part of something positive is what it should be but for one rounding, and half
/// the smallest number at that.
pub proof fn lemma_quotient_close(a: Number, b: Number)
    requires
        a.finite(),
        b.finite(),
        0 <= a.value() <= b.value(),
        b.value() > 0,
    ensures
        quotient(a, b).finite(),
        quotient(a, b).value() >= 0,
        PARTS * size(quotient(a, b).value() * b.value() - a.value() * pow2(1074)) <= a.value()
            * pow2(1074) + FRACTION * b.value(),
{
    reveal(quotient);
    let n = units(a.magnitude());
    let d = units(b.magnitude());
    let p = pow2(1074);
    lemma_units_monotonic(0, a.magnitude());
    lemma_units_monotonic(0, b.magnitude());
    assert(a.value() == n && b.value() == d);
    lemma_ratio_rounds(n * p, d);
    lemma_ratio_close(n * p, d);
    let m = nearest(n * p, d);
    assert(m < INFINITE) by {
        if m == INFINITE {
            let one = (1023 * FRACTION) as nat;
            lemma_units_of(1022, FRACTION as nat);
            lemma2_to64_rest();
            lemma_pow2_adds(52, 1022);
            assert(one == 1022 * FRACTION + FRACTION);
            lemma_units_monotonic(one, (INFINITE - 1) as nat);
            lemma_units_monotonic(one, INFINITE as nat);
            let low = units((INFINITE - 1) as nat);
            let high = units(INFINITE as nat);
            assert((low + high) * d > 2 * (n * p)) by (nonlinear_arith)
                requires
                    low > p,
                    high > p,
                    n <= d,
                    d > 0,
            ;
        }
    }
    if a.negative() {
        assert(n * p == 0) by (nonlinear_arith)
            requires
                n == 0,
        ;
        assert(m == 0) by {
            lemma_units_monotonic(0, m);
            assert(units(m) == 0) by (nonlinear_arith)
                requires
                    PARTS * size(units(m) * d - 0) <= 0 + FRACTION * d,
                    d > 0,
            ;
        }
    }
}

/// A sum is what it should be, rounded once; there is one wherever it should be no
/// more than the largest number.
pub proof fn lemma_sum_close(a: Number, b: Number)
    requires
        a.finite(),
        b.finite(),
    ensures
        sum(a, b).finite() ==> close(sum(a, b).value(), a.value() + b.value()),
        size(a.value() + b.value()) <= units((INFINITE - 1) as nat) ==> sum(a, b).finite(),
        !sum(a, b).nan(),
{
    reveal(sum);
    let exact = a.value() + b.value();
    let much = size(exact) as nat;
    lemma_nearest_close(much);
    lemma_rounds_somewhere(much);
    if much <= units((INFINITE - 1) as nat) {
        lemma_nearest_at_most(much, (INFINITE - 1) as nat);
    }
}

pub proof fn lemma_difference_close(a: Number, b: Number)
    requires
        a.finite(),
        b.finite(),
    ensures
        difference(a, b).finite() ==> close(difference(a, b).value(), a.value() - b.value()),
        size(a.value() - b.value()) <= units((INFINITE - 1) as nat) ==> difference(a, b).finite(),
        !difference(a, b).nan(),
{
    assert(negated(b).value() == -b.value());
    lemma_sum_close(a, negated(b));
}

/// A sum that did not overflow is of numbers.
pub proof fn lemma_of_numbers(a: Number, b: Number)
    requires
        sum(a, b).finite(),
    ensures
        a.finite(),
        b.finite(),
{
    reveal(sum);
}

/// Taking away what is more than nothing leads no further on.
pub proof fn lemma_difference_no_more(a: Number, b: Number)
    requires
        a.finite(),
        b.finite(),
        b.value() > 0,
    ensures
        difference(a, b).at_most(a),
{
    let zero = num(ZERO);
    assert(negated(b).value() == -b.value());
    lemma_units_monotonic(0, negated(b).magnitude());
    assert(negated(b).at_most(zero)) by {
        lemma_ranks_as_valued(negated(b), zero);
    }
    lemma_sum_keeps_order(negated(b), zero, a);
    lemma_sum_commutes(negated(b), a);
    lemma_sum_commutes(zero, a);
    lemma_sum_of_zero(a);
}

pub proof fn lemma_sum_commutes(a: Number, b: Number)
    requires
        a.finite(),
        b.finite(),
    ensures
        sum(a, b) == sum(b, a),
{
    reveal(sum);
}

proof fn lemma_sum_of_zero(a: Number)
    requires
        a.finite(),
    ensures
        sum(a, num(ZERO)).same(a),
{
    reveal(sum);
    lemma_units_monotonic(0, a.magnitude());
    if a.value() != 0 {
        lemma_exact(a.magnitude());
    }
}

/// Finite numbers stand as their values do.
pub proof fn lemma_ranks_as_valued(a: Number, b: Number)
    requires
        a.finite(),
        b.finite(),
    ensures
        a.rank() <= b.rank() <==> a.value() <= b.value(),
        a.rank() < b.rank() <==> a.value() < b.value(),
{
    lemma_units_monotonic(a.magnitude(), b.magnitude());
    lemma_units_monotonic(0, a.magnitude());
    lemma_units_monotonic(0, b.magnitude());
}

/// What is not rounded is within any number of roundings.
pub proof fn lemma_within_none(x: int)
    ensures
        within(x, x, 0),
{
    lemma_pow0(PARTS - 1);
    lemma_pow0(PARTS as int);
    lemma_pow0(PARTS + 1);
}

/// One rounding more.
pub proof fn lemma_within_more(x: int, y: int, exact: int, times: nat)
    requires
        within(x, exact, times),
        x >= 0,
        close(y, x),
    ensures
        within(y, exact, times + 1),
        y >= 0,
{
    let e = PARTS as int;
    let low = pow(e - 1, times);
    let mid = pow(e, times);
    let high = pow(e + 1, times);
    lemma_pow_positive(e, times);
    lemma_pow_adds(e - 1, 1, times);
    lemma_pow_adds(e, 1, times);
    lemma_pow_adds(e + 1, 1, times);
    lemma_pow1(e - 1);
    lemma_pow1(e);
    lemma_pow1(e + 1);
    let d = size(y - x);
    assert((e - 1) * x <= e * y <= (e + 1) * x) by (nonlinear_arith)
        requires
            e * d <= x,
            -d <= y - x <= d,
            e >= 1,
    ;
    assert(y >= 0) by (nonlinear_arith)
        requires
            (e - 1) * x <= e * y,
            x >= 0,
            e > 1,
    ;
    assert(exact * ((e - 1) * low) <= y * (e * mid)) by (nonlinear_arith)
        requires
            exact * low <= x * mid,
            (e - 1) * x <= e * y,
            mid >= 0,
            e >= 1,
    ;
    assert(y * (e * mid) <= exact * ((e + 1) * high)) by (nonlinear_arith)
        requires
            x * mid <= exact * high,
            e * y <= (e + 1) * x,
            mid >= 0,
            e >= 1,
    ;
}

/// The sum of two that are within as many roundings is within as many.
pub proof fn lemma_within_sum(x: int, y: int, exact: int, other: int, times: nat)
    requires
        within(x, exact, times),
        within(y, other, times),
    ensures
        within(x + y, exact + other, times),
{
    let e = PARTS as int;
    let low = pow(e - 1, times);
    let mid = pow(e, times);
    let high = pow(e + 1, times);
    assert((exact + other) * low == exact * low + other * low) by (nonlinear_arith);
    assert((exact + other) * high == exact * high + other * high) by (nonlinear_arith);
    assert((x + y) * mid == x * mid + y * mid) by (nonlinear_arith);
}

/// What is within so many roundings is within more.
pub proof fn lemma_within_longer(x: int, exact: int, times: nat, more: nat)
    requires
        within(x, exact, times),
        x >= 0,
        times <= more,
    ensures
        within(x, exact, more),
    decreases more,
{
    if times < more {
        lemma_within_longer(x, exact, times, (more - 1) as nat);
        lemma_within_more(x, x, exact, (more - 1) as nat);
    }
}

} // verus!
