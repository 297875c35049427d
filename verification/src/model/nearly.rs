//! Arithmetic on numbers held against arithmetic on what they are worth.

use crate::model::bezier::blossom;
use crate::model::ease::{mixed, polar};
use crate::model::exact::{
    along, exact, lemma_along_close, lemma_along_range, lemma_ends, lemma_ends_of_product,
    lemma_product_more, lemma_product_no_less, lemma_product_turns, lemma_product_whole,
    lemma_ratio,
};
use crate::number::{
    difference, lemma_units_monotonic, lemma_units_of, negated, num, product, quotient, sum, units,
    Number, FRACTION, INFINITE, ONE, ZERO,
};
use crate::rounding::{lemma_product_close, lemma_quotient_near, lemma_sum_close, size, PARTS};
use vstd::arithmetic::mul::*;
use vstd::arithmetic::power2::*;
use vstd::prelude::*;

verus! {

/// One part in 2^53.
pub open spec fn grain() -> real {
    1 as real / (PARTS as real)
}

pub proof fn lemma_grain()
    ensures
        grain() > 0 as real,
        (PARTS as real) * grain() == 1 as real,
{
    let p = PARTS as real;
    let g = grain();
    lemma_ratio(1 as real, p, g);
    lemma_product_turns(g, p);
    lemma_ends_of_product(p);
    if g <= 0 as real {
        lemma_product_no_less(g, 0 as real, p);
    }
}

/// What is no less after it was taken so many times was no less.
pub proof fn lemma_no_less_before(x: real, y: real, t: real)
    requires
        t > 0 as real,
        x * t <= y * t,
    ensures
        x <= y,
{
    if x > y {
        lemma_product_more(y, x, t);
    }
}

/// A bound on so many parts, in grains.
proof fn lemma_in_grains(d: real, b: real)
    requires
        (PARTS as real) * d <= b,
    ensures
        d <= b * grain(),
{
    let p = PARTS as real;
    let g = grain();
    lemma_grain();
    lemma_product_no_less(p * d, b, g);
    assert((p * d) * g == d * (p * g)) by (nonlinear_arith);
    lemma_product_turns(d, 1 as real);
    lemma_ends_of_product(d);
}

/// What a count of units is worth.
pub open spec fn worth(n: int) -> real {
    (n as real) / (pow2(1074) as real)
}

proof fn lemma_worth(n: int)
    ensures
        worth(n) * (pow2(1074) as real) == n as real,
        pow2(1074) as real > 0 as real,
{
    lemma_pow2_pos(1074);
    lemma_ratio(n as real, pow2(1074) as real, worth(n));
}

proof fn lemma_worth_sum(a: int, b: int)
    ensures
        worth(a + b) == worth(a) + worth(b),
        worth(a - b) == worth(a) - worth(b),
        worth(-b) == -worth(b),
{
    let p = pow2(1074) as real;
    lemma_worth(a);
    lemma_worth(b);
    lemma_worth(-b);
    lemma_worth(a + b);
    lemma_worth(a - b);
    let x = worth(a);
    let y = worth(b);
    assert((x + y) * p == x * p + y * p) by (nonlinear_arith);
    assert((x - y) * p == x * p - y * p) by (nonlinear_arith);
    assert((-y) * p == -(y * p)) by (nonlinear_arith);
    lemma_no_less_before(worth(a + b), x + y, p);
    lemma_no_less_before(x + y, worth(a + b), p);
    lemma_no_less_before(worth(a - b), x - y, p);
    lemma_no_less_before(x - y, worth(a - b), p);
    lemma_no_less_before(worth(-b), -y, p);
    lemma_no_less_before(-y, worth(-b), p);
}

/// A bound on a count of units bounds what it is worth, and the other way round.
proof fn lemma_worth_order(n: int, m: int)
    ensures
        n <= m * pow2(1074) <==> worth(n) <= m as real,
        -(m * pow2(1074)) <= n <==> -(m as real) <= worth(n),
{
    let p = pow2(1074) as real;
    let r = m as real;
    lemma_worth(n);
    lemma_product_whole(m, pow2(1074) as int);
    assert((-r) * p == -(r * p)) by (nonlinear_arith);
    if worth(n) <= r {
        lemma_product_no_less(worth(n), r, p);
    }
    if n <= m * pow2(1074) {
        lemma_no_less_before(worth(n), r, p);
    }
    if -r <= worth(n) {
        lemma_product_no_less(-r, worth(n), p);
    }
    if -(m * pow2(1074)) <= n {
        lemma_no_less_before(-r, worth(n), p);
    }
}

/// An error of so many parts of units is one of so many grains.
proof fn lemma_error(d: int, k: int)
    requires
        PARTS * size(d) <= k * pow2(1074),
    ensures
        -((k as real) * grain()) <= worth(d) <= (k as real) * grain(),
{
    let p = PARTS as real;
    let e = size(d);
    lemma_worth_order(PARTS * e, k);
    lemma_worth_times(PARTS as int, e);
    lemma_in_grains(worth(e), k as real);
    lemma_worth_sum(0, e);
    lemma_worth_order(e, 0);
    lemma_mul_basics(pow2(1074) as int);
}

proof fn lemma_worth_times(k: int, n: int)
    ensures
        worth(k * n) == (k as real) * worth(n),
{
    let p = pow2(1074) as real;
    let r = k as real;
    let x = worth(n);
    lemma_worth(n);
    lemma_worth(k * n);
    lemma_product_whole(k, n);
    assert((r * x) * p == r * (x * p)) by (nonlinear_arith);
    lemma_no_less_before(worth(k * n), r * x, p);
    lemma_no_less_before(r * x, worth(k * n), p);
}

/// Whether a number is no larger than a bound.
pub open spec fn held(x: Number, m: int) -> bool {
    x.finite() && -(m as real) <= exact(x) <= m as real
}

/// There is room for a number of up to 2^41.
proof fn lemma_much_room(k: int)
    requires
        0 <= k <= 0x200_0000_0000,
    ensures
        k * pow2(1074) <= units((INFINITE - 1) as nat),
{
    lemma2_to64();
    lemma2_to64_rest();
    lemma_units_of(1063, FRACTION as nat);
    lemma_units_monotonic((1064 * FRACTION) as nat, (INFINITE - 1) as nat);
    lemma_pow2_adds(41, 1074);
    lemma_pow2_adds(52, 1063);
    lemma_mul_inequality(k, 0x200_0000_0000, pow2(1074) as int);
}

pub proof fn lemma_sum_near(a: Number, b: Number, m: int)
    requires
        held(a, m),
        held(b, m),
        0 <= m <= 0x10_0000,
    ensures
        sum(a, b).finite(),
        -((2 * m) as real * grain()) <= exact(sum(a, b)) - (exact(a) + exact(b)) <= (2 * m) as real
            * grain(),
{
    let p = pow2(1074) as int;
    let v = a.value() + b.value();
    lemma_worth_order(a.value(), m);
    lemma_worth_order(b.value(), m);
    lemma_mul_is_distributive_add_other_way(p, m, m);
    lemma_much_room(2 * m);
    lemma_sum_close(a, b);
    let s = sum(a, b).value();
    lemma_error(s - v, 2 * m);
    lemma_worth_sum(s, v);
    lemma_worth_sum(a.value(), b.value());
}

pub proof fn lemma_negated_worth(b: Number)
    requires
        b.finite(),
    ensures
        negated(b).finite(),
        exact(negated(b)) == -exact(b),
{
    assert(negated(b).value() == -b.value());
    lemma_worth_sum(0, b.value());
}

pub proof fn lemma_difference_near(a: Number, b: Number, m: int)
    requires
        held(a, m),
        held(b, m),
        0 <= m <= 0x10_0000,
    ensures
        difference(a, b).finite(),
        -((2 * m) as real * grain()) <= exact(difference(a, b)) - (exact(a) - exact(b)) <= (2 * m)
            as real * grain(),
{
    lemma_negated_worth(b);
    lemma_sum_near(a, negated(b), m);
}

/// An error of so many parts of products of units is one of so many grains.
proof fn lemma_square_error(d: int, k: int, x: real)
    requires
        PARTS * size(d) <= (k * pow2(1074)) * pow2(1074),
        d as real == (x * (pow2(1074) as real)) * (pow2(1074) as real),
    ensures
        -((k as real) * grain()) <= x <= (k as real) * grain(),
{
    let p = pow2(1074) as int;
    let r = p as real;
    let parts = PARTS as real;
    let e = k as real;
    lemma_worth(0);
    lemma_product_whole(k * p, p);
    lemma_product_whole(k, p);
    let y = (x * r) * r;
    let z = (e * r) * r;
    assert((PARTS * d) as real == parts * y) by {
        lemma_product_whole(PARTS as int, d);
    }
    assert(-z <= parts * y <= z);
    assert(parts * ((x * r) * r) == ((parts * x) * r) * r) by (nonlinear_arith);
    lemma_no_less_before((parts * x) * r, e * r, r);
    lemma_no_less_before(parts * x, e, r);
    assert((-((e * r))) * r == -((e * r) * r)) by (nonlinear_arith);
    assert((-e) * r == -(e * r)) by (nonlinear_arith);
    lemma_no_less_before(-(e * r), (parts * x) * r, r);
    lemma_no_less_before(-e, parts * x, r);
    lemma_in_grains(x, e);
    assert(parts * (-x) == -(parts * x)) by (nonlinear_arith);
    lemma_in_grains(-x, e);
}

pub proof fn lemma_product_near(a: Number, b: Number, m: int, n: int)
    requires
        held(a, m),
        held(b, n),
        0 <= m <= 0x10_0000,
        0 <= n <= 0x10_0000,
    ensures
        product(a, b).finite(),
        -((m * n + 1) as real * grain()) <= exact(product(a, b)) - exact(a) * exact(b) <= (m * n
            + 1) as real * grain(),
{
    let p = pow2(1074) as int;
    let r = p as real;
    let x = a.value();
    let y = b.value();
    lemma_worth(0);
    lemma_pow2_pos(1074);
    lemma_worth_order(x, m);
    lemma_worth_order(y, n);
    // |x y| is no more than (m p) (n p).
    lemma_size_of_product(x, y, m * p, n * p);
    let k = m * n;
    lemma_mul_is_associative(m * p, n, p);
    lemma_mul_is_associative(m, p, n);
    lemma_mul_is_commutative(p, n);
    lemma_mul_is_associative(m, n, p);
    assert((m * p) * (n * p) == (k * p) * p);
    lemma_mul_inequality(m, 0x10_0000, n);
    lemma_mul_inequality(0, m, n);
    lemma_mul_inequality(n, 0x10_0000, 0x10_0000);
    lemma_mul_is_commutative(0x10_0000, n);
    assert(0 <= k <= 0x100_0000_0000);
    lemma_much_room(k);
    lemma_mul_inequality(k * p, units((INFINITE - 1) as nat) as int, p);
    lemma_product_close(a, b);
    let v = product(a, b).value();
    lemma2_to64_rest();
    lemma_pow2_strictly_increases(52, 1074);
    lemma_mul_inequality(FRACTION as int, p, p);
    lemma_mul_is_distributive_add_other_way(p, k, 1);
    lemma_mul_is_distributive_add_other_way(p, k * p, p);
    let d = v * p - x * y;
    let e = exact(product(a, b)) - exact(a) * exact(b);
    lemma_worth(v);
    lemma_worth(x);
    lemma_worth(y);
    lemma_product_whole(v, p);
    lemma_product_whole(x, y);
    lemma_squared(exact(product(a, b)), exact(a), exact(b), r);
    lemma_square_error(d, k + 1, e);
}

proof fn lemma_squared(v: real, x: real, y: real, r: real)
    ensures
        (v * r) * r - (x * r) * (y * r) == ((v - x * y) * r) * r,
{
    let w = x * y;
    assert((x * r) * (y * r) == ((x * y) * r) * r) by (nonlinear_arith);
    assert((v - w) * r == v * r - w * r) by (nonlinear_arith);
    let a = v * r;
    let b = w * r;
    assert((a - b) * r == a * r - b * r) by (nonlinear_arith);
}

proof fn lemma_size_of_product(x: int, y: int, m: int, n: int)
    requires
        -m <= x <= m,
        -n <= y <= n,
    ensures
        size(x * y) <= m * n,
{
    let s = size(x);
    let t = size(y);
    lemma_mul_unary_negation(s, t);
    lemma_mul_cancels_negatives(s, t);
    lemma_mul_inequality(0, s, t);
    lemma_mul_basics(t);
    lemma_mul_inequality(s, m, t);
    lemma_mul_inequality(t, n, m);
    lemma_mul_is_commutative(m, t);
    lemma_mul_is_commutative(m, n);
}

/// A ratio that was told, given back.
pub proof fn lemma_ratio_near(a: Number, b: Number, m: int, n: int)
    requires
        held(a, m),
        held(b, n),
        0 <= m,
        0 <= n,
        quotient(a, b).finite(),
    ensures
        exact(b) != 0 as real,
        -((m + n) as real * grain()) <= exact(quotient(a, b)) * exact(b) - exact(a) <= (m + n)
            as real * grain(),
{
    let p = pow2(1074) as int;
    let r = p as real;
    let x = a.value();
    let y = b.value();
    lemma_worth(0);
    lemma_pow2_pos(1074);
    assert(y != 0) by {
        reveal(quotient);
        lemma_units_monotonic(0, b.magnitude());
    }
    lemma_worth(x);
    lemma_worth(y);
    lemma_ends_of_product(r);
    lemma_worth_order(x, m);
    lemma_worth_order(y, n);
    lemma_quotient_near(a, b);
    let v = quotient(a, b).value();
    lemma_worth(v);
    lemma2_to64_rest();
    lemma_pow2_strictly_increases(52, 1074);
    lemma_mul_inequality(size(x), m * p, p);
    lemma_mul_inequality(FRACTION as int, p, size(y));
    lemma_mul_inequality(size(y), n * p, p);
    lemma_mul_is_commutative(p, size(y));
    lemma_mul_is_distributive_add_other_way(p, m, n);
    lemma_mul_is_distributive_add_other_way(p, m * p, n * p);
    let d = v * y - x * p;
    let q = exact(quotient(a, b));
    lemma_product_whole(v, y);
    lemma_product_whole(x, p);
    lemma_squared(exact(a), q, exact(b), r);
    let e = q * exact(b) - exact(a);
    let f = exact(a) - q * exact(b);
    assert((e * r) * r == -((f * r) * r)) by {
        assert((-f) * r == -(f * r)) by (nonlinear_arith);
        let g = f * r;
        assert((-g) * r == -(g * r)) by (nonlinear_arith);
    }
    lemma_square_error(d, m + n, e);
}

/// So many grains more are more.
pub proof fn lemma_more_grains(k: int, n: int)
    requires
        k <= n,
    ensures
        k as real * grain() <= n as real * grain(),
{
    lemma_grain();
    lemma_product_no_less(k as real, n as real, grain());
}

pub proof fn lemma_grains_together(k: int, n: int)
    ensures
        k as real * grain() + n as real * grain() == (k + n) as real * grain(),
{
    let g = grain();
    let x = k as real;
    let y = n as real;
    assert((x + y) * g == x * g + y * g) by (nonlinear_arith);
}

/// So many grains are less than one.
pub proof fn lemma_grains_small(k: int)
    requires
        k <= PARTS,
    ensures
        k as real * grain() <= 1 as real,
{
    lemma_grain();
    lemma_more_grains(k, PARTS as int);
}

/// Mixing rounds a few times.
pub proof fn lemma_mixed_near(a: Number, b: Number, t: Number, m: int)
    requires
        held(a, m),
        held(b, m),
        1 <= m <= 0x1_0000,
        t.finite(),
        0 as real <= exact(t) <= 1 as real,
    ensures
        mixed(a, b, t).finite(),
        -((16 * m) as real * grain()) <= exact(mixed(a, b, t)) - along(exact(a), exact(b), exact(t))
            <= (16 * m) as real * grain(),
{
    reveal(along);
    let g = grain();
    let x = exact(a);
    let y = exact(b);
    let s = exact(t);
    let d = difference(b, a);
    lemma_grain();
    lemma_difference_near(b, a, m);
    lemma_grains_small(2 * m);
    let e = exact(d);
    assert(held(d, 3 * m));
    let f = product(t, d);
    assert(held(t, 1));
    lemma_product_near(t, d, 1, 3 * m);
    lemma_mul_basics(3 * m);
    lemma_grains_small(3 * m + 1);
    // s e is between -e and e.
    lemma_part_of(s, e, 3 * m);
    assert(held(f, 4 * m));
    lemma_sum_near(a, f, 4 * m);
    // s e is s (y - x), but for 2 m grains.
    let off = (2 * m) as real * g;
    lemma_part_off(s, e, y - x, off);
    lemma_grains_together(2 * m, 3 * m + 1);
    lemma_grains_together(5 * m + 1, 8 * m);
    lemma_more_grains(13 * m + 1, 16 * m);
}

proof fn lemma_part_of(s: real, e: real, m: int)
    requires
        0 as real <= s <= 1 as real,
        -(m as real) <= e <= m as real,
    ensures
        -(m as real) <= s * e <= m as real,
{
    let r = m as real;
    let z = 0 as real;
    let o = 1 as real;
    lemma_product_no_less(-r, e, s);
    lemma_product_no_less(e, r, s);
    lemma_product_no_less(s, o, r);
    lemma_product_turns(e, s);
    lemma_product_turns(r, s);
    lemma_ends_of_product(r);
    assert((-r) * s == -(r * s)) by (nonlinear_arith);
}

proof fn lemma_part_off(s: real, e: real, f: real, off: real)
    requires
        0 as real <= s <= 1 as real,
        -off <= e - f <= off,
    ensures
        -off <= s * e - s * f <= off,
{
    let d = e - f;
    lemma_product_no_less(-off, d, s);
    lemma_product_no_less(d, off, s);
    lemma_product_no_less(s, 1 as real, off);
    lemma_product_turns(d, s);
    lemma_product_turns(off, s);
    lemma_ends_of_product(off);
    assert((-off) * s == -(off * s)) by (nonlinear_arith);
    assert(s * e - s * f == s * (e - f)) by (nonlinear_arith);
}

/// The polar form rounds three times as much.
pub proof fn lemma_polar_near(p: Number, q: Number, u: Number, v: Number, w: Number, m: int)
    requires
        held(p, m),
        held(q, m),
        1 <= m <= 0x1000,
        u.finite() && v.finite() && w.finite(),
        0 as real <= exact(u) <= 1 as real,
        0 as real <= exact(v) <= 1 as real,
        0 as real <= exact(w) <= 1 as real,
    ensures
        held(polar(p, q, u, v, w), 2 * m),
        ({
            let off = (96 * m) as real * grain();
            let found = exact(polar(p, q, u, v, w));
            -off <= found - blossom(exact(p), exact(q), exact(u), exact(v), exact(w)) <= off
        }),
{
    reveal(polar);
    lemma_ends();
    lemma_grain();
    let z = 0 as real;
    let o = 1 as real;
    let x = exact(p);
    let y = exact(q);
    let low = -(m as real);
    let high = m as real;
    let zero = num(ZERO);
    let one = num(ONE);
    assert(held(zero, m) && held(one, m));
    let a = mixed(zero, p, u);
    let b = mixed(p, q, u);
    let c = mixed(q, one, u);
    lemma_mixed_near(zero, p, u, m);
    lemma_mixed_near(p, q, u, m);
    lemma_mixed_near(q, one, u, m);
    lemma_more_grains(16 * m, 32 * m);
    lemma_grains_small(32 * m);
    lemma_grains_small(64 * m);
    lemma_grains_small(96 * m);
    let first = (32 * m) as real * grain();
    lemma_along_range(z, x, exact(u), low, high);
    lemma_along_range(x, y, exact(u), low, high);
    lemma_along_range(y, o, exact(u), low, high);
    assert(held(a, 2 * m) && held(b, 2 * m) && held(c, 2 * m));
    let d = mixed(a, b, v);
    let e = mixed(b, c, v);
    lemma_mixed_near(a, b, v, 2 * m);
    lemma_mixed_near(b, c, v, 2 * m);
    let ra = along(z, x, exact(u));
    let rb = along(x, y, exact(u));
    let rc = along(y, o, exact(u));
    lemma_along_close(exact(a), exact(b), ra, rb, exact(v), first);
    lemma_along_close(exact(b), exact(c), rb, rc, exact(v), first);
    lemma_grains_together(32 * m, 32 * m);
    lemma_grains_together(64 * m, 32 * m);
    let second = (64 * m) as real * grain();
    let rd = along(ra, rb, exact(v));
    let re = along(rb, rc, exact(v));
    lemma_along_range(ra, rb, exact(v), low, high);
    lemma_along_range(rb, rc, exact(v), low, high);
    assert(held(d, 2 * m) && held(e, 2 * m));
    lemma_mixed_near(d, e, w, 2 * m);
    lemma_along_close(exact(d), exact(e), rd, re, exact(w), second);
    lemma_along_range(rd, re, exact(w), low, high);
}

} // verus!
