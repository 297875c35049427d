//! What arithmetic on numbers comes to, as arithmetic on what they are worth.
//!
//! A number is worth its exact value. One operation takes no more than one part in
//! 2^53 of what should have come out, and the least number where that is more.

use crate::model::exact::{
    exact, lemma_ends_of_product, lemma_exact_order, lemma_product_no_less, lemma_product_turns,
    lemma_product_whole, lemma_ratio,
};
use crate::model::nearly::{grain, lemma_grain, lemma_no_less_before};
use crate::number::{difference, negated, product, quotient, sum, Number, FRACTION};
use crate::rounding::{
    lemma_difference_close, lemma_product_close, lemma_quotient_near, lemma_sum_close, size, PARTS,
};
use vstd::arithmetic::power2::*;
use vstd::prelude::*;

verus! {

/// How large a value is, whatever its sign.
pub open spec fn magnitude(x: real) -> real {
    if x < 0 as real {
        -x
    } else {
        x
    }
}

/// What the least positive number is worth.
pub open spec fn least() -> real {
    1 as real / (pow2(1074) as real)
}

/// Whether two values are no further apart than this.
pub open spec fn apart_by(x: real, y: real, off: real) -> bool {
    -off <= x - y <= off
}

pub proof fn lemma_least()
    ensures
        least() > 0 as real,
        least() * (pow2(1074) as real) == 1 as real,
        pow2(1074) as real > 0 as real,
{
    let p = pow2(1074) as real;
    lemma_pow2_pos(1074);
    lemma_ratio(1 as real, p, least());
    if least() <= 0 as real {
        lemma_product_no_less(least(), 0 as real, p);
        lemma_ends_of_product(p);
    }
}

/// What a number is worth, in least numbers.
pub proof fn lemma_counted(x: Number)
    ensures
        exact(x) * (pow2(1074) as real) == x.value() as real,
{
    lemma_least();
    lemma_ratio(x.value() as real, pow2(1074) as real, exact(x));
}

/// A bound on so many parts.
proof fn lemma_one_part(d: real, b: real)
    requires
        (PARTS as real) * d <= b,
    ensures
        d <= grain() * b,
{
    let p = PARTS as real;
    let g = grain();
    lemma_grain();
    lemma_product_no_less(p * d, b, g);
    assert((p * d) * g == d * (p * g)) by (nonlinear_arith);
    lemma_product_turns(d, 1 as real);
    lemma_ends_of_product(d);
    lemma_product_turns(b, g);
}

proof fn lemma_magnitude_times(x: real, t: real)
    requires
        t >= 0 as real,
    ensures
        magnitude(x) * t == magnitude(x * t),
{
    assert((-x) * t == -(x * t)) by (nonlinear_arith);
    if x >= 0 as real {
        lemma_product_no_less(0 as real, x, t);
    } else {
        lemma_product_no_less(x, 0 as real, t);
    }
    lemma_ends_of_product(t);
}

proof fn lemma_size_whole(n: int)
    ensures
        size(n) as real == magnitude(n as real),
{
}

/// What one rounding takes of a count of least numbers.
pub proof fn lemma_rounded_once(v: int, w: int, x: real, y: real)
    requires
        PARTS * size(v - w) <= size(w),
        x * (pow2(1074) as real) == v as real,
        y * (pow2(1074) as real) == w as real,
    ensures
        magnitude(x - y) <= grain() * magnitude(y),
{
    let p = pow2(1074) as real;
    let d = magnitude(x - y);
    lemma_least();
    assert((x - y) * p == x * p - y * p) by (nonlinear_arith);
    lemma_magnitude_times(x - y, p);
    lemma_magnitude_times(y, p);
    lemma_product_whole(PARTS as int, size(v - w));
    let parts = PARTS as real;
    assert((parts * d) * p == parts * (d * p)) by (nonlinear_arith);
    lemma_no_less_before(parts * d, magnitude(y), p);
    lemma_one_part(d, magnitude(y));
}

/// A sum is what it should be, but for one part in 2^53 of it.
pub proof fn lemma_sum_measured(a: Number, b: Number)
    requires
        a.finite(),
        b.finite(),
        sum(a, b).finite(),
    ensures
        apart_by(
            exact(sum(a, b)),
            exact(a) + exact(b),
            grain() * magnitude(exact(a) + exact(b)),
        ),
{
    let p = pow2(1074) as real;
    let x = exact(a);
    let y = exact(b);
    lemma_counted(a);
    lemma_counted(b);
    lemma_counted(sum(a, b));
    lemma_sum_close(a, b);
    assert((x + y) * p == x * p + y * p) by (nonlinear_arith);
    lemma_rounded_once(sum(a, b).value(), a.value() + b.value(), exact(sum(a, b)), x + y);
}

pub proof fn lemma_difference_measured(a: Number, b: Number)
    requires
        a.finite(),
        b.finite(),
        difference(a, b).finite(),
    ensures
        apart_by(
            exact(difference(a, b)),
            exact(a) - exact(b),
            grain() * magnitude(exact(a) - exact(b)),
        ),
{
    let p = pow2(1074) as real;
    let x = exact(a);
    let y = exact(b);
    lemma_counted(a);
    lemma_counted(b);
    lemma_counted(difference(a, b));
    lemma_difference_close(a, b);
    assert((x - y) * p == x * p - y * p) by (nonlinear_arith);
    lemma_rounded_once(
        difference(a, b).value(),
        a.value() - b.value(),
        exact(difference(a, b)),
        x - y,
    );
}

/// A bound on parts of least numbers of least numbers.
proof fn lemma_rounded_twice(d: int, n: int, m: int, e: real, w: real, z: real)
    requires
        PARTS * size(d) <= size(n) + FRACTION * m,
        m >= 0,
        d as real == (e * (pow2(1074) as real)) * (pow2(1074) as real),
        n as real == (w * (pow2(1074) as real)) * (pow2(1074) as real),
        m as real == z * (pow2(1074) as real),
        z >= 0 as real,
    ensures
        magnitude(e) <= grain() * magnitude(w) + least() * z,
{
    let p = pow2(1074) as real;
    let parts = PARTS as real;
    let f = FRACTION as real;
    let l = least();
    lemma_least();
    lemma_grain();
    lemma_magnitude_times(e, p);
    lemma_magnitude_times(e * p, p);
    lemma_magnitude_times(w, p);
    lemma_magnitude_times(w * p, p);
    lemma_product_whole(PARTS as int, size(d));
    lemma_product_whole(FRACTION as int, m);
    let a = magnitude(e);
    let b = magnitude(w);
    let r = f * (l * z);
    assert(parts * ((a * p) * p) == ((parts * a) * p) * p) by (nonlinear_arith);
    assert((l * z) * p == z * (l * p)) by (nonlinear_arith);
    lemma_product_turns(z, 1 as real);
    lemma_ends_of_product(z);
    assert((f * (l * z)) * p == f * ((l * z) * p)) by (nonlinear_arith);
    assert(r * p == f * z);
    assert((f * z) * p == f * (z * p)) by (nonlinear_arith);
    assert(((b + r) * p) * p == (b * p) * p + (r * p) * p) by (nonlinear_arith);
    lemma_no_less_before((parts * a) * p, (b + r) * p, p);
    lemma_no_less_before(parts * a, b + r, p);
    lemma_one_part(a, b + r);
    // 2^52 of 2^53 parts is half.
    let g = grain();
    let lz = l * z;
    lemma_product_no_less(0 as real, z, l);
    lemma_ends_of_product(l);
    lemma_product_turns(z, l);
    assert(g * (b + r) == g * b + g * r) by (nonlinear_arith);
    assert(g * (f * lz) == (f * g) * lz) by (nonlinear_arith);
    assert(f * g <= 1 as real) by {
        lemma_product_no_less(f, parts, g);
        lemma_product_turns(parts, g);
    }
    lemma_product_no_less(f * g, 1 as real, lz);
    lemma_ends_of_product(lz);
}

/// A product is what it should be, but for one part in 2^53 of it and the least
/// number.
pub proof fn lemma_product_measured(a: Number, b: Number)
    requires
        a.finite(),
        b.finite(),
        product(a, b).finite(),
    ensures
        apart_by(
            exact(product(a, b)),
            exact(a) * exact(b),
            grain() * magnitude(exact(a) * exact(b)) + least(),
        ),
{
    let p = pow2(1074) as real;
    let x = exact(a);
    let y = exact(b);
    let v = exact(product(a, b));
    lemma_least();
    lemma_counted(a);
    lemma_counted(b);
    lemma_counted(product(a, b));
    lemma_product_close(a, b);
    lemma_product_whole(product(a, b).value(), pow2(1074) as int);
    lemma_product_whole(a.value(), b.value());
    assert((x * p) * (y * p) == ((x * y) * p) * p) by (nonlinear_arith);
    let w = x * y;
    assert((v - w) * p == v * p - w * p) by (nonlinear_arith);
    let s = v * p;
    let t = w * p;
    assert((s - t) * p == s * p - t * p) by (nonlinear_arith);
    lemma_ends_of_product(p);
    lemma_product_turns(least(), 1 as real);
    lemma_ends_of_product(least());
    lemma_rounded_twice(
        product(a, b).value() * pow2(1074) - a.value() * b.value(),
        a.value() * b.value(),
        pow2(1074) as int,
        v - w,
        w,
        1 as real,
    );
}

/// What a quotient takes of what is divided is that, but for one part in 2^53 of it
/// and the least number of what it is divided by.
pub proof fn lemma_quotient_measured(a: Number, b: Number)
    requires
        a.finite(),
        b.finite(),
        exact(b) != 0 as real,
        quotient(a, b).finite(),
    ensures
        apart_by(
            exact(quotient(a, b)) * exact(b),
            exact(a),
            grain() * magnitude(exact(a)) + least() * magnitude(exact(b)),
        ),
{
    let p = pow2(1074) as real;
    let x = exact(a);
    let y = exact(b);
    let v = exact(quotient(a, b));
    lemma_least();
    lemma_counted(a);
    lemma_counted(b);
    lemma_counted(quotient(a, b));
    if b.value() == 0 {
        lemma_ends_of_product(p);
        lemma_no_less_before(y, 0 as real, p);
        lemma_no_less_before(0 as real, y, p);
    }
    lemma_quotient_near(a, b);
    let q = quotient(a, b).value();
    let n = a.value() * pow2(1074);
    lemma_product_whole(q, b.value());
    lemma_product_whole(a.value(), pow2(1074) as int);
    assert((v * p) * (y * p) == ((v * y) * p) * p) by (nonlinear_arith);
    let w = v * y;
    assert((w - x) * p == w * p - x * p) by (nonlinear_arith);
    let s = w * p;
    let t = x * p;
    assert((s - t) * p == s * p - t * p) by (nonlinear_arith);
    lemma_magnitude_times(y, p);
    lemma_size_times(a.value(), pow2(1074) as int);
    lemma_rounded_twice(q * b.value() - n, n, size(b.value()), w - x, x, magnitude(y));
}

proof fn lemma_size_times(n: int, m: int)
    requires
        m >= 0,
    ensures
        size(n * m) == size(n) * m,
{
    assert((-n) * m == -(n * m)) by (nonlinear_arith);
    assert(n >= 0 ==> n * m >= 0) by (nonlinear_arith)
        requires
            m >= 0,
    ;
    assert(n <= 0 ==> n * m <= 0) by (nonlinear_arith)
        requires
            m >= 0,
    ;
}

pub proof fn lemma_negated_measured(a: Number)
    ensures
        exact(negated(a)) == -exact(a),
{
    let p = pow2(1074) as real;
    lemma_least();
    lemma_counted(a);
    lemma_counted(negated(a));
    assert(negated(a).value() == -a.value());
    let x = exact(a);
    assert((-x) * p == -(x * p)) by (nonlinear_arith);
    lemma_no_less_before(exact(negated(a)), -x, p);
    lemma_no_less_before(-x, exact(negated(a)), p);
}

/// Numbers that compare the same are worth the same.
pub proof fn lemma_same_measured(a: Number, b: Number)
    requires
        a.finite(),
        b.finite(),
        a.same(b),
    ensures
        exact(a) == exact(b),
{
    lemma_exact_order(a, b);
    lemma_exact_order(b, a);
}

} // verus!
