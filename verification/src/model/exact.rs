//! Numbers taken exactly, as real ones, and how far from there a key is put when it
//! is carried onto a window.

use crate::model::keys::ParamKey;
use crate::model::ride::shifted;
use crate::number::{
    difference, lemma_sum_keeps_order, lemma_units_monotonic, lemma_units_of, negated, num,
    quotient, sum, units, Number, FRACTION, ONE, ZERO,
};
use crate::rounding::{
    lemma_difference_close, lemma_quotient_close, lemma_ranks_as_valued, size, PARTS,
};
use vstd::arithmetic::mul::*;
use vstd::arithmetic::power2::*;
use vstd::prelude::*;

verus! {

/// What a finite number is worth.
pub open spec fn exact(x: Number) -> real {
    (x.value() as real) / (pow2(1074) as real)
}

/// The way from one value to another, a part of it gone.
#[verifier::opaque]
pub open spec fn along(from: real, to: real, part: real) -> real {
    from + part * (to - from)
}

/// Whether a window can be divided by.
pub open spec fn open_window(a: Number, b: Number) -> bool {
    a.finite() && b.finite() && a.less(b) && difference(b, a).finite()
}

/// The position in the old length of a part of the window gone.
pub open spec fn instant(a: Number, b: Number, part: real) -> real {
    along(exact(a), exact(b), part)
}

/// How far rounding may carry a key: one part in 2^50 of the window.
pub open spec fn slip_of(a: Number, b: Number) -> real {
    (exact(b) - exact(a)) / (0x4_0000_0000_0000int as real)
}

// Arithmetic.

pub proof fn lemma_product_more(x: real, y: real, t: real)
    requires
        x < y,
        t > 0 as real,
    ensures
        x * t < y * t,
{
    let d = y - x;
    assert(d * t > 0 as real) by (nonlinear_arith)
        requires
            d > 0 as real,
            t > 0 as real,
    ;
    assert((x + d) * t == x * t + d * t) by (nonlinear_arith);
}

pub proof fn lemma_product_no_less(x: real, y: real, t: real)
    requires
        x <= y,
        t >= 0 as real,
    ensures
        x * t <= y * t,
{
    let d = y - x;
    assert(d * t >= 0 as real) by (nonlinear_arith)
        requires
            d >= 0 as real,
            t >= 0 as real,
    ;
    assert((x + d) * t == x * t + d * t) by (nonlinear_arith);
}

pub proof fn lemma_product_turns(x: real, y: real)
    ensures
        x * y == y * x,
{
    assert(x * y == y * x) by (nonlinear_arith);
}

proof fn lemma_split_product(q: real, r: real, o: real, t: real)
    requires
        q == r + o,
    ensures
        q * t == r * t + o * t,
{
    assert(q * t == r * t + o * t) by (nonlinear_arith)
        requires
            q == r + o,
    ;
}

pub proof fn lemma_product_whole(x: int, y: int)
    ensures
        (x * y) as real == (x as real) * (y as real),
    decreases
        if x < 0 {
            -x
        } else {
            x
        },
{
    let t = y as real;
    let o = 1 as real;
    lemma_ends_of_product(t);
    lemma_mul_basics(y);
    if x > 0 {
        let r = (x - 1) as real;
        let q = x as real;
        lemma_product_whole(x - 1, y);
        lemma_mul_is_distributive_sub_other_way(y, x, 1);
        lemma_split_product(q, r, o, t);
    } else if x < 0 {
        let r = (x + 1) as real;
        let q = x as real;
        lemma_product_whole(x + 1, y);
        lemma_mul_is_distributive_add_other_way(y, x, 1);
        lemma_split_product(r, q, o, t);
    } else {
        assert(x * y == 0);
        assert((x as real) * (y as real) == 0 as real);
    }
}

pub proof fn lemma_ends_of_product(t: real)
    ensures
        (0 as real) * t == 0 as real,
        (1 as real) * t == t,
{
    let z = 0 as real;
    let o = 1 as real;
    assert(z * t == z && o * t == t) by (nonlinear_arith)
        requires
            z == 0 as real,
            o == 1 as real,
    ;
}

/// The same part of two ways whose ends are close is as close.
pub proof fn lemma_along_close(a: real, b: real, c: real, d: real, p: real, t: real)
    requires
        0 as real <= p <= 1 as real,
        -t <= a - c <= t,
        -t <= b - d <= t,
    ensures
        -t <= along(a, b, p) - along(c, d, p) <= t,
{
    let o = 1 as real;
    let e = a - c;
    let f = b - d;
    let r = o - p;
    lemma_weighted(a, b, p);
    lemma_weighted(c, d, p);
    assert(r * a - r * c == r * (a - c)) by (nonlinear_arith);
    assert(p * b - p * d == p * (b - d)) by (nonlinear_arith);
    lemma_product_no_less(-t, e, r);
    lemma_product_no_less(e, t, r);
    lemma_product_no_less(-t, f, p);
    lemma_product_no_less(f, t, p);
    lemma_product_turns(e, r);
    lemma_product_turns(f, p);
    assert((-t) * r == -(t * r)) by (nonlinear_arith);
    assert((-t) * p == -(t * p)) by (nonlinear_arith);
    assert(t * (r + p) == t * r + t * p) by (nonlinear_arith);
    lemma_ends_of_product(t);
    lemma_product_turns(t, o);
}

/// A part of a way weighs its two ends.
pub proof fn lemma_weighted(from: real, to: real, part: real)
    ensures
        along(from, to, part) == (1 as real - part) * from + part * to,
{
    reveal(along);
    let o = 1 as real;
    let r = o - part;
    assert(part * (to - from) == part * to - part * from) by (nonlinear_arith);
    assert((r + part) * from == r * from + part * from) by (nonlinear_arith);
    lemma_ends_of_product(from);
}

/// What lies between two values lies where they do.
pub proof fn lemma_along_range(from: real, to: real, part: real, low: real, high: real)
    requires
        0 as real <= part <= 1 as real,
        low <= from <= high,
        low <= to <= high,
    ensures
        low <= along(from, to, part) <= high,
{
    let o = 1 as real;
    let r = o - part;
    lemma_weighted(from, to, part);
    lemma_product_no_less(low, from, r);
    lemma_product_no_less(from, high, r);
    lemma_product_no_less(low, to, part);
    lemma_product_no_less(to, high, part);
    lemma_product_turns(from, r);
    lemma_product_turns(to, part);
    lemma_weighted(low, low, part);
    lemma_weighted(high, high, part);
    lemma_product_turns(low, r);
    lemma_product_turns(low, part);
    lemma_product_turns(high, r);
    lemma_product_turns(high, part);
    lemma_along_same(low, part);
    lemma_along_same(high, part);
}

proof fn lemma_along_same(x: real, part: real)
    ensures
        along(x, x, part) == x,
{
    reveal(along);
    lemma_ends_of_product(part);
    lemma_product_turns(part, 0 as real);
}

/// The two ends of a way.
pub proof fn lemma_along_ends(from: real, to: real)
    ensures
        along(from, to, 0 as real) == from,
        along(from, to, 1 as real) == to,
{
    reveal(along);
    lemma_ends_of_product(to - from);
}

/// A ratio gives back what it was taken of.
pub proof fn lemma_ratio(n: real, d: real, r: real)
    requires
        d > 0 as real,
        r == n / d,
    ensures
        r * d == n,
{
    assert(n == r * d) by (nonlinear_arith)
        requires
            r == n / d,
            d > 0 as real,
    ;
}

/// What is no more than a whole is a part of it.
pub proof fn lemma_is_part(n: real, d: real, r: real)
    requires
        d > 0 as real,
        r * d == n,
        0 as real <= n <= d,
    ensures
        0 as real <= r <= 1 as real,
{
    let z = 0 as real;
    let o = 1 as real;
    lemma_ends_of_product(d);
    if r < z {
        lemma_product_more(r, z, d);
    }
    if r > o {
        lemma_product_more(o, r, d);
    }
}

/// Exact worth keeps order.
pub proof fn lemma_exact_order(a: Number, b: Number)
    requires
        a.finite(),
        b.finite(),
    ensures
        a.at_most(b) ==> exact(a) <= exact(b),
        a.less(b) ==> exact(a) < exact(b),
{
    lemma_ranks_as_valued(a, b);
    lemma_pow2_pos(1074);
    let p = pow2(1074) as real;
    let x = a.value() as real;
    let y = b.value() as real;
    lemma_ratio(x, p, x / p);
    lemma_ratio(y, p, y / p);
    if x / p > y / p {
        lemma_product_more(y / p, x / p, p);
    }
}

/// What zero and one are worth.
pub proof fn lemma_ends()
    ensures
        units(ONE as nat) == pow2(1074),
        exact(num(ZERO)) == 0 as real,
        exact(num(ONE)) == 1 as real,
{
    lemma2_to64_rest();
    lemma_units_of(1022, FRACTION as nat);
    lemma_pow2_adds(52, 1022);
    lemma_pow2_pos(1074);
    assert(ONE == 1022 * FRACTION + FRACTION);
    let p = pow2(1074) as real;
    let z = 0 as real;
    let o = 1 as real;
    lemma_ratio(p, p, p / p);
    lemma_ratio(z, p, z / p);
    lemma_ends_of_product(p);
    if p / p > o {
        lemma_product_more(o, p / p, p);
    } else if p / p < o {
        lemma_product_more(p / p, o, p);
    }
    if z / p > z {
        lemma_product_more(z, z / p, p);
    } else if z / p < z {
        lemma_product_more(z / p, z, p);
    }
}

/// Where a key inside the window is put, in units.
proof fn lemma_placed(key: ParamKey, a: Number, b: Number)
    requires
        key.at.finite(),
        open_window(a, b),
        a.at_most(key.at),
        key.at.at_most(b),
    ensures
        shifted(key, a, b).at.finite(),
        0 <= shifted(key, a, b).at.value() <= pow2(1074),
        0x4_0000_0000_0000 * size(
            shifted(key, a, b).at.value() * (b.value() - a.value()) - (key.at.value() - a.value())
                * pow2(1074),
        ) <= (b.value() - a.value()) * pow2(1074),
{
    let p = key.at.value() - a.value();
    let q = b.value() - a.value();
    let w = pow2(1074) as int;
    lemma_ends();
    lemma_pow2_pos(1074);
    lemma_pow2_strictly_increases(53, 1074);
    lemma2_to64_rest();
    assert(2 * FRACTION <= w);
    lemma_ranks_as_valued(a, key.at);
    lemma_ranks_as_valued(key.at, b);
    lemma_ranks_as_valued(a, b);
    assert(negated(a).finite());
    lemma_sum_keeps_order(key.at, b, negated(a));
    lemma_difference_close(b, a);
    lemma_difference_close(key.at, a);
    let over = difference(b, a);
    let part = difference(key.at, a);
    lemma_units_monotonic(over.magnitude(), (crate::number::INFINITE - 1) as nat);
    let qh = over.value();
    assert(qh > 0);
    assert(part.finite()) by {
        lemma_same_or_less(key.at, b, a);
    }
    let ph = part.value();
    lemma_ranks_as_valued(part, over);
    assert(0 <= ph <= qh);
    lemma_quotient_close(part, over);
    let found = quotient(part, over);
    let u = found.value();
    let c = size(ph - p);
    let e = size(qh - q);
    let g = size(u * qh - ph * w);
    assert(qh <= 2 * q);
    lemma_mul_inequality(ph, qh, w);
    lemma_mul_inequality(2 * FRACTION, w, qh);
    lemma_mul_is_commutative(w, qh);
    assert(u * qh <= 2 * (qh * w));
    lemma_mul_is_associative(2, w, qh);
    if u > 2 * w {
        lemma_mul_strict_inequality(2 * w, u, qh);
    }
    lemma_mul_is_distributive_add(u, qh, q - qh);
    lemma_mul_is_distributive_sub_other_way(w, ph, p);
    lemma_mul_inequality(q - qh, e, u);
    lemma_mul_inequality(-e, q - qh, u);
    lemma_mul_is_commutative(u, q - qh);
    lemma_mul_is_commutative(u, e);
    lemma_mul_unary_negation(e, u);
    lemma_mul_inequality(ph - p, c, w);
    lemma_mul_inequality(-c, ph - p, w);
    lemma_mul_unary_negation(c, w);
    lemma_mul_inequality(PARTS * e, q, u);
    lemma_mul_is_associative(PARTS as int, e, u);
    lemma_mul_inequality(u, 2 * w, q);
    lemma_mul_is_commutative(u, q);
    lemma_mul_is_associative(2, w, q);
    lemma_mul_is_commutative(w, q);
    lemma_mul_inequality(PARTS * c, q, w);
    lemma_mul_is_associative(PARTS as int, c, w);
    lemma_mul_inequality(qh, 2 * q, w);
    lemma_mul_is_associative(2, q, w);
    assert(PARTS * size(u * q - p * w) <= 8 * (q * w));
    let s = shifted(key, a, b).at;
    lemma_mul_inequality(p, q, w);
    lemma_ranks_as_valued(num(ONE), found);
    lemma_ranks_as_valued(found, num(ZERO));
    if num(ONE).less(found) {
        assert(s == num(ONE));
        lemma_mul_inequality(w, u, q);
    }
}

/// The way to a point before another is no longer.
pub proof fn lemma_same_or_less(x: Number, y: Number, from: Number)
    requires
        x.finite(),
        y.finite(),
        from.finite(),
        from.at_most(x),
        x.at_most(y),
        difference(y, from).finite(),
        difference(x, from).at_most(difference(y, from)),
    ensures
        difference(x, from).finite(),
{
    reveal(sum);
    lemma_ranks_as_valued(from, x);
    assert(negated(from).value() == -from.value());
    lemma_difference_close(x, from);
    let gap = x.value() - from.value();
    assert(gap >= 0);
    crate::number::lemma_rounds_somewhere(gap as nat);
    assert(!difference(x, from).negative() || gap == 0);
}

/// A key inside the window is put at a number.
pub proof fn lemma_placed_finite(key: ParamKey, a: Number, b: Number)
    requires
        key.at.finite(),
        open_window(a, b),
        a.at_most(key.at),
        key.at.at_most(b),
    ensures
        shifted(key, a, b).at.finite(),
{
    lemma_placed(key, a, b);
}

/// The way to what lies further on is a positive number.
pub proof fn lemma_beyond(from: Number, x: Number)
    requires
        from.finite(),
        x.finite(),
        from.less(x),
    ensures
        !difference(x, from).negative(),
        difference(x, from).finite() ==> difference(x, from).value() > 0,
{
    reveal(sum);
    lemma_ranks_as_valued(from, x);
    assert(negated(from).value() == -from.value());
    let gap = x.value() - from.value();
    lemma_difference_close(x, from);
    crate::number::lemma_rounds_somewhere(gap as nat);
    crate::number::lemma_nearest_at_least(gap as nat, 1);
    lemma_units_monotonic(0, difference(x, from).magnitude());
}

/// Where a key inside the window is put, exactly.
pub proof fn lemma_near_place(key: ParamKey, a: Number, b: Number)
    requires
        key.at.finite(),
        open_window(a, b),
        a.at_most(key.at),
        key.at.at_most(b),
    ensures
        ({
            let part = exact(shifted(key, a, b).at);
            &&& 0 as real <= part <= 1 as real
            &&& -slip_of(a, b) <= exact(key.at) - instant(a, b, part) <= slip_of(a, b)
        }),
{
    lemma_placed(key, a, b);
    lemma_pow2_pos(1074);
    let w = pow2(1074) as real;
    let u = shifted(key, a, b).at.value() as real;
    let x = key.at.value() as real;
    let y = a.value() as real;
    let z = b.value() as real;
    let k = 0x4_0000_0000_0000int as real;
    lemma_ratio(u, w, u / w);
    lemma_is_part(u, w, u / w);
    let error = u * (z - y) - (x - y) * w;
    assert(-((z - y) * w) <= k * error <= (z - y) * w) by {
        lemma_in_reals(
            shifted(key, a, b).at.value(),
            key.at.value(),
            a.value(),
            b.value(),
            pow2(1074) as int,
        );
    }
    lemma_scaled_down(u, x, y, z, w, k);
}

/// What holds of whole numbers holds of them as real ones.
proof fn lemma_in_reals(u: int, x: int, y: int, z: int, w: int)
    requires
        0x4_0000_0000_0000 * size(u * (z - y) - (x - y) * w) <= (z - y) * w,
    ensures
        ({
            let k = 0x4_0000_0000_0000int as real;
            let error = (u as real) * (z as real - y as real) - (x as real - y as real) * (
            w as real);
            &&& -((z as real - y as real) * (w as real)) <= k * error
            &&& k * error <= (z as real - y as real) * (w as real)
        }),
{
    let e = u * (z - y) - (x - y) * w;
    let d = (z - y) * w;
    assert(-d <= 0x4_0000_0000_0000 * e <= d);
    assert((0x4_0000_0000_0000 * e) as real == (0x4_0000_0000_0000int as real) * (e as real));
    lemma_product_whole(u, z - y);
    lemma_product_whole(x - y, w);
    lemma_product_whole(z - y, w);
}

proof fn lemma_negated_group(k: real, g: real, s: real)
    ensures
        k * (-(g * s)) == -((k * g) * s),
{
    assert(k * (-(g * s)) == -((k * g) * s)) by (nonlinear_arith);
}

proof fn lemma_grouped(x: real, w: real)
    ensures
        (x * w) * w == x * (w * w),
{
    assert((x * w) * w == x * (w * w)) by (nonlinear_arith);
}

proof fn lemma_regroup(p: real, w: real, f: real)
    ensures
        (p * w) * (f * w) == (p * f) * (w * w),
{
    assert((p * w) * (f * w) == (p * f) * (w * w)) by (nonlinear_arith);
}

/// A bound on values is one on what they are worth.
proof fn lemma_scaled_down(u: real, x: real, y: real, z: real, w: real, k: real)
    requires
        w > 0 as real,
        k > 0 as real,
        -((z - y) * w) <= k * (u * (z - y) - (x - y) * w),
        k * (u * (z - y) - (x - y) * w) <= (z - y) * w,
    ensures
        ({
            let gap = x / w - along(y / w, z / w, u / w);
            let most = (z / w - y / w) / k;
            -most <= gap <= most
        }),
{
    reveal(along);
    let a = y / w;
    let b = z / w;
    let c = x / w;
    let p = u / w;
    lemma_ratio(y, w, a);
    lemma_ratio(z, w, b);
    lemma_ratio(x, w, c);
    lemma_ratio(u, w, p);
    let s = w * w;
    let gap = c - (a + p * (b - a));
    let f = b - a;
    let m = p * f;
    let g = c - a;
    lemma_split_product(b, f, a, w);
    lemma_split_product(c, g, a, w);
    assert((p * w) * (f * w) == m * s) by {
        lemma_regroup(p, w, f);
    }
    assert((g * w) * w == g * s) by {
        lemma_grouped(g, w);
    }
    assert((f * w) * w == f * s) by {
        lemma_grouped(f, w);
    }
    lemma_split_product(g, gap, m, s);
    lemma_ends_of_product(w);
    lemma_product_more(0 as real, w, w);
    let far = k * gap;
    assert(k * (-(gap * s)) == -((k * gap) * s)) by {
        lemma_negated_group(k, gap, s);
    }
    if far > b - a {
        lemma_product_more(b - a, far, s);
    }
    if far < -(b - a) {
        lemma_product_more(far, -(b - a), s);
        assert((-(b - a)) * s == -((b - a) * s)) by (nonlinear_arith);
    }
    let most = (b - a) / k;
    lemma_ratio(b - a, k, most);
    lemma_product_turns(k, gap);
    if gap > most {
        lemma_product_more(most, gap, k);
    }
    if gap < -most {
        lemma_product_more(gap, -most, k);
        assert((-most) * k == -(most * k)) by (nonlinear_arith);
    }
}

} // verus!
