//! What a mix counts in: the samples a clip feeds and a timeline lasts, where an input
//! is sought, and how much of what it lands on is cut.

use crate::audio::graph::{delay_of, THOUSAND};
use crate::audio::mixing::{as_number, input_target, landed_early, length_of, samples_of, MILLION};
use crate::audio::speed::engine_speed;
use crate::commands::asked::{at_least, kept_between};
use crate::digits::{as_rounded, as_whole, one};
use crate::limits::{lemma_what_the_clocks_count, lemma_what_the_ranges_are};
use crate::measure::{
    apart_by, least, lemma_counted, lemma_difference_measured, lemma_least, lemma_product_measured,
    lemma_quotient_measured, lemma_rounded_once, lemma_sum_measured, magnitude,
};
use crate::model::exact::{
    exact, lemma_ends, lemma_ends_of_product, lemma_exact_order, lemma_product_no_less,
    lemma_product_turns, lemma_product_whole, lemma_ratio,
};
use crate::model::nearly::{grain, lemma_grain};
use crate::number::{
    difference, larger, lemma_nearest_at_most, lemma_units_monotonic, lemma_units_of, nearest, num,
    product, quotient, signed, sum, units, whole, Number, FRACTION, INFINITE, ZERO,
};
use crate::ranges::{MAX_SPEED, MIN_SPEED};
use crate::rounding::{
    lemma_difference_close, lemma_nearest_close, lemma_product_close, lemma_quotient_finite,
    lemma_sum_close, size, PARTS,
};
use crate::timing::{lemma_made, lemma_same_second, made, second_of, Ratio, TimeBase};
use vstd::arithmetic::div_mod::*;
use vstd::arithmetic::power2::*;
use vstd::prelude::*;

verus! {

/// Further than anything is counted here.
pub open spec fn far() -> real {
    18446744073709551616 as real
}

/// There are numbers as large as that.
proof fn lemma_room()
    ensures
        units((INFINITE - 1) as nat) as real >= far() * (pow2(1074) as real),
{
    lemma2_to64();
    lemma2_to64_rest();
    lemma_units_of(1086, FRACTION as nat);
    lemma_pow2_adds(52, 1086);
    lemma_pow2_adds(64, 1074);
    lemma_units_monotonic((1086 * FRACTION + FRACTION) as nat, (INFINITE - 1) as nat);
    lemma_product_whole(pow2(64) as int, pow2(1074) as int);
}

proof fn lemma_product_room(a: Number, b: Number)
    requires
        a.finite(),
        b.finite(),
        magnitude(exact(a) * exact(b)) <= far(),
    ensures
        product(a, b).finite(),
{
    let p = pow2(1074) as real;
    let w = exact(a) * exact(b);
    let x = exact(a);
    let y = exact(b);
    lemma_room();
    lemma_least();
    lemma_counted(a);
    lemma_counted(b);
    lemma_product_close(a, b);
    lemma_product_whole(a.value(), b.value());
    lemma_product_whole(units((INFINITE - 1) as nat) as int, pow2(1074) as int);
    assert((x * p) * (y * p) == (x * y) * (p * p)) by (nonlinear_arith);
    let q = p * p;
    assert(q >= 0 as real) by (nonlinear_arith)
        requires
            q == p * p,
    ;
    lemma_product_no_less(w, far(), q);
    lemma_product_no_less(-far(), w, q);
    assert((-far()) * q == -(far() * q)) by (nonlinear_arith);
    let top = units((INFINITE - 1) as nat) as real;
    lemma_product_no_less(far() * p, top, p);
    assert((far() * p) * p == far() * q) by (nonlinear_arith)
        requires
            q == p * p,
    ;
}

proof fn lemma_sum_room(a: Number, b: Number)
    requires
        a.finite(),
        b.finite(),
        magnitude(exact(a) + exact(b)) <= far(),
    ensures
        sum(a, b).finite(),
{
    let p = pow2(1074) as real;
    let x = exact(a);
    let y = exact(b);
    lemma_room();
    lemma_least();
    lemma_counted(a);
    lemma_counted(b);
    lemma_sum_close(a, b);
    assert((x + y) * p == x * p + y * p) by (nonlinear_arith);
    lemma_product_no_less(x + y, far(), p);
    lemma_product_no_less(-far(), x + y, p);
    assert((-far()) * p == -(far() * p)) by (nonlinear_arith);
}

proof fn lemma_difference_room(a: Number, b: Number)
    requires
        a.finite(),
        b.finite(),
        magnitude(exact(a) - exact(b)) <= far(),
    ensures
        difference(a, b).finite(),
{
    let p = pow2(1074) as real;
    let x = exact(a);
    let y = exact(b);
    lemma_room();
    lemma_least();
    lemma_counted(a);
    lemma_counted(b);
    lemma_difference_close(a, b);
    assert((x - y) * p == x * p - y * p) by (nonlinear_arith);
    lemma_product_no_less(x - y, far(), p);
    lemma_product_no_less(-far(), x - y, p);
    assert((-far()) * p == -(far() * p)) by (nonlinear_arith);
}

/// What an integer is worth as a number.
pub proof fn lemma_whole_measured(n: int)
    requires
        -0x1_0000_0000_0000_0000 <= n <= 0x1_0000_0000_0000_0000,
    ensures
        whole(n).finite(),
        apart_by(exact(whole(n)), n as real, grain() * magnitude(n as real)),
        n >= 0 ==> exact(whole(n)) >= 0 as real,
{
    let p = pow2(1074);
    let k: nat = if n < 0 {
        (-n) as nat
    } else {
        n as nat
    };
    lemma_room();
    lemma_least();
    lemma_product_whole(k as int, p as int);
    lemma_product_no_less(k as real, far(), p as real);
    lemma_nearest_at_most(k * p, (INFINITE - 1) as nat);
    lemma_nearest_close(k * p);
    lemma_counted(whole(n));
    let m = nearest(k * p, 1);
    reveal(whole);
    assert(whole(n) == signed(n < 0, m));
    assert(whole(n).magnitude() == m);
    lemma_product_whole(n, p as int);
    assert((-n) * p == -(n * p)) by (nonlinear_arith);
    lemma_rounded_once(whole(n).value(), n * p, exact(whole(n)), n as real);
    if n >= 0 {
        assert(whole(n).value() >= 0);
        let e = exact(whole(n));
        let t = p as real;
        assert(e >= 0 as real) by (nonlinear_arith)
            requires
                e * t >= 0 as real,
                t > 0 as real,
        ;
    }
}

/// Rounded to an integer, a number is no more than a half off.
pub proof fn lemma_rounded_to_whole(x: Number)
    requires
        x.finite(),
        magnitude(exact(x)) <= 4611686018427387904 as real,
    ensures
        apart_by(as_rounded(x) as real, exact(x), 1 as real / 2 as real),
{
    lemma_to_whole(x);
}

/// Cut to an integer, it is less than one off.
pub proof fn lemma_cut_to_whole(x: Number)
    requires
        x.finite(),
        magnitude(exact(x)) <= 4611686018427387904 as real,
    ensures
        apart_by(as_whole(x) as real, exact(x), 1 as real),
{
    lemma_to_whole(x);
}

proof fn lemma_to_whole(x: Number)
    requires
        x.finite(),
        magnitude(exact(x)) <= 4611686018427387904 as real,
    ensures
        apart_by(as_rounded(x) as real, exact(x), 1 as real / 2 as real),
        apart_by(as_whole(x) as real, exact(x), 1 as real),
{
    let v = units(x.magnitude());
    let p = one() as real;
    lemma_least();
    lemma_pow2_pos(1074);
    lemma_counted(x);
    lemma_fundamental_div_mod(v as int, one() as int);
    lemma_mod_bound(v as int, one() as int);
    let q = (v / one()) as real;
    let r = (v % one()) as real;
    lemma_product_whole(one() as int, (v / one()) as int);
    let e = if x.negative() {
        -exact(x)
    } else {
        exact(x)
    };
    assert((-exact(x)) * p == -(exact(x) * p)) by (nonlinear_arith);
    assert(e * p == p * q + r);
    let f = e - q;
    assert(f * p == e * p - p * q) by (nonlinear_arith)
        requires
            f == e - q,
    ;
    assert(f >= 0 as real) by (nonlinear_arith)
        requires
            f * p >= 0 as real,
            p > 0 as real,
    ;
    assert(f < 1 as real) by (nonlinear_arith)
        requires
            f * p < p,
            p > 0 as real,
    ;
    let g = 2 as real * f;
    assert(g * p == 2 as real * (f * p)) by (nonlinear_arith)
        requires
            g == 2 as real * f,
    ;
    if 2 * (v % one()) >= one() {
        assert(g >= 1 as real) by (nonlinear_arith)
            requires
                g * p >= p,
                p > 0 as real,
        ;
    } else {
        assert(g <= 1 as real) by (nonlinear_arith)
            requires
                g * p <= p,
                p > 0 as real,
        ;
    }
    assert(q <= 4611686018427387904 as real);
}

/// One rounding takes far less than a part in a million million of a value, and the
/// least number is less still.
proof fn lemma_speck(x: real)
    requires
        x >= 0 as real,
    ensures
        0 as real <= grain() * x,
        9000000000000000 as real * (grain() * x) <= x,
        least() > 0 as real,
        1000000000000000000 as real * least() <= 1 as real,
{
    let g = grain();
    lemma_grain();
    lemma_least();
    lemma_product_no_less(9000000000000000 as real, PARTS as real, g);
    lemma_product_no_less(0 as real, g, x);
    lemma_ends_of_product(x);
    let k = 9000000000000000 as real * g;
    lemma_product_no_less(k, 1 as real, x);
    assert(k * x == 9000000000000000 as real * (g * x)) by (nonlinear_arith)
        requires
            k == 9000000000000000 as real * g,
    ;
    lemma2_to64_rest();
    lemma_pow2_adds(64, 1010);
    lemma_pow2_pos(1010);
    assert(pow2(1074) >= pow2(64)) by (nonlinear_arith)
        requires
            pow2(1074) == pow2(64) * pow2(1010),
            pow2(1010) >= 1,
    ;
    lemma_product_no_less(1000000000000000000 as real, pow2(1074) as real, least());
    lemma_product_turns(least(), pow2(1074) as real);
}

/// A product of two numbers that are nearly what they should be.
proof fn lemma_multiplied(
    a: Number,
    b: Number,
    x: real,
    y: real,
    da: real,
    db: real,
    most: real,
    much: real,
)
    requires
        a.finite(),
        b.finite(),
        apart_by(exact(a), x, da),
        apart_by(exact(b), y, db),
        -most <= x <= most,
        -much <= y <= much,
        0 as real <= da <= most,
        0 as real <= db <= much,
        1 as real <= most * much,
        most * much <= 1000000000000000000 as real,
    ensures
        product(a, b).finite(),
        apart_by(
            exact(product(a, b)),
            x * y,
            2 as real * (da * much) + db * most + most * much / 1000000000000000 as real,
        ),
{
    let u = exact(a);
    let v = exact(b);
    let top = most * much;
    assert(u * v - x * y == (u - x) * v + x * (v - y)) by (nonlinear_arith);
    let w = 2 as real * much;
    let left = (u - x) * v;
    let right = x * (v - y);
    assert(-(da * w) <= left <= da * w) by (nonlinear_arith)
        requires
            -da <= u - x <= da,
            -w <= v <= w,
            left == (u - x) * v,
    ;
    assert(da * w == 2 as real * (da * much)) by (nonlinear_arith)
        requires
            w == 2 as real * much,
    ;
    assert(-(db * most) <= right <= db * most) by (nonlinear_arith)
        requires
            -db <= v - y <= db,
            -most <= x <= most,
            right == x * (v - y),
    ;
    let big = 2 as real * most;
    assert(-(big * w) <= u * v <= big * w) by (nonlinear_arith)
        requires
            -big <= u <= big,
            -w <= v <= w,
    ;
    assert(big * w == 4 as real * top) by (nonlinear_arith)
        requires
            big == 2 as real * most,
            w == 2 as real * much,
            top == most * much,
    ;
    lemma_product_room(a, b);
    lemma_product_measured(a, b);
    lemma_speck(magnitude(u * v));
}

/// A timeline lasts as many samples as its seconds at forty-eight thousand a second, and
/// none where it has no length.
pub proof fn lemma_a_timeline_lasts_its_seconds(duration: Number)
    requires
        duration.finite(),
        exact(duration) <= 1000000000 as real,
    ensures
        apart_by(
            length_of(duration) as real,
            48000 as real * at_least(exact(duration), 0 as real),
            1 as real,
        ),
{
    let d = larger(duration, num(ZERO));
    let w = whole(48000);
    lemma_ends();
    lemma_exact_order(duration, num(ZERO));
    lemma_exact_order(num(ZERO), duration);
    lemma_whole_measured(48000);
    lemma_speck(48000 as real);
    lemma_multiplied(
        d,
        w,
        exact(d),
        48000 as real,
        0 as real,
        1 as real / 100000000000 as real,
        1000000000 as real,
        48000 as real,
    );
    lemma_rounded_to_whole(product(d, w));
}

/// A clip feeds the source it covers, its length times its speed, and what is cut
/// before it, at the source's own rate.
pub proof fn lemma_a_clip_feeds_what_it_covers(
    duration: Number,
    speed: Number,
    lead: Number,
    rate: u32,
)
    requires
        duration.finite(),
        speed.finite(),
        lead.finite(),
        0 as real <= exact(duration) <= 1000000 as real,
        0 as real <= exact(lead) <= 1000000 as real,
        rate <= 1000000,
    ensures
        ({
            let pace = kept_between(exact(speed), 1 as real / 16 as real, 16 as real);
            apart_by(
                samples_of(duration, speed, lead, rate) as real,
                (exact(duration) * pace + exact(lead)) * (rate as real),
                1 as real,
            )
        }),
{
    let e = engine_speed(speed);
    let pace = kept_between(exact(speed), 1 as real / 16 as real, 16 as real);
    lemma_what_the_ranges_are();
    lemma_exact_order(speed, num(MIN_SPEED));
    lemma_exact_order(num(MIN_SPEED), speed);
    lemma_exact_order(speed, num(MAX_SPEED));
    lemma_exact_order(num(MAX_SPEED), speed);
    assert(exact(e) == pace);
    let d = exact(duration);
    lemma_multiplied(
        duration,
        e,
        d,
        pace,
        0 as real,
        0 as real,
        1000000 as real,
        16 as real,
    );
    let p = product(duration, e);
    let near = d * pace;
    assert(0 as real <= near <= 16000000 as real) by (nonlinear_arith)
        requires
            0 as real <= d <= 1000000 as real,
            0 as real <= pace <= 16 as real,
            near == d * pace,
    ;
    assert(apart_by(exact(p), near, 2 as real / 100000000 as real));
    lemma_sum_room(p, lead);
    lemma_sum_measured(p, lead);
    lemma_speck(magnitude(exact(p) + exact(lead)));
    let s = sum(p, lead);
    assert(apart_by(exact(s), near + exact(lead), 3 as real / 100000000 as real));
    let w = whole(rate as int);
    lemma_whole_measured(rate as int);
    lemma_speck(rate as real);
    lemma_multiplied(
        s,
        w,
        near + exact(lead),
        rate as real,
        3 as real / 100000000 as real,
        1 as real / 1000000000 as real,
        20000000 as real,
        1000000 as real,
    );
    let all = near + exact(lead);
    let r = rate as real;
    assert(0 as real <= all * r <= 20000000000000 as real) by (nonlinear_arith)
        requires
            0 as real <= all <= 20000000 as real,
            0 as real <= r <= 1000000 as real,
    ;
    lemma_rounded_to_whole_of(s, w, all * r);
}

proof fn lemma_rounded_to_whole_of(s: Number, w: Number, x: real)
    requires
        product(s, w).finite(),
        apart_by(exact(product(s, w)), x, 1 as real / 4 as real),
        -100000000000000 as real <= x <= 100000000000000 as real,
    ensures
        apart_by(as_rounded(product(s, w)) as real, x, 1 as real),
{
    lemma_rounded_to_whole(product(s, w));
}

/// A clip is delayed to where it sits, in milliseconds.
pub proof fn lemma_a_clip_is_delayed_to_its_start(start: Number)
    requires
        start.finite(),
        exact(start) <= 1000000000 as real,
        exact(start) >= -1000000000 as real,
    ensures
        apart_by(
            delay_of(start) as real,
            1000 as real * at_least(exact(start), 0 as real),
            1 as real,
        ),
{
    let k = num(THOUSAND);
    lemma_what_the_clocks_count();
    lemma_multiplied(
        start,
        k,
        exact(start),
        1000 as real,
        0 as real,
        0 as real,
        1000000000 as real,
        1000 as real,
    );
    lemma_rounded_to_whole(product(start, k));
}

/// Whether an instant is one a file has: within so many seconds of its beginning.
pub open spec fn within_reach(at: Ratio) -> bool {
    &&& at.denominator() > 0
    &&& -1000000 as real <= second_of(at) <= 1000000 as real
    &&& i64::MIN <= at.numerator() <= i64::MAX
    &&& at.denominator() <= i64::MAX
}

/// An instant as a number is that instant.
proof fn lemma_as_number(at: Ratio)
    requires
        within_reach(at),
    ensures
        as_number(at).finite(),
        apart_by(exact(as_number(at)), second_of(at), 1 as real / 1000000000 as real),
{
    let a = whole(at.numerator());
    let b = whole(at.denominator());
    let n = at.numerator() as real;
    let d = at.denominator() as real;
    let r = second_of(at);
    lemma_ratio(n, d, r);
    lemma_whole_measured(at.numerator());
    lemma_whole_measured(at.denominator());
    lemma_speck(magnitude(n));
    lemma_speck(d);
    let x = exact(a);
    let y = exact(b);
    assert(2 as real * y >= d && y <= 2 as real * d);
    let m = magnitude(r);
    assert(magnitude(n) == m * d) by {
        assert((-r) * d == -(r * d)) by (nonlinear_arith);
        lemma_product_no_less(0 as real, m, d);
        lemma_ends_of_product(d);
    }
    lemma_quotient_room(a, b, m, d);
    let q = exact(quotient(a, b));
    lemma_quotient_measured(a, b);
    lemma_speck(magnitude(x));
    // How far the quotient is off, times what it was divided by.
    let off = q - r;
    assert(off * y == (q * y - x) + (x - n) + r * (d - y)) by (nonlinear_arith)
        requires
            off == q - r,
            n == r * d,
    ;
    let t = r * (d - y);
    let gd = grain() * d;
    assert(-(m * gd) <= t <= m * gd) by (nonlinear_arith)
        requires
            -gd <= d - y <= gd,
            -m <= r <= m,
            t == r * (d - y),
    ;
    assert(m * gd == grain() * (m * d)) by (nonlinear_arith)
        requires
            gd == grain() * d,
    ;
    let g = grain() * magnitude(n);
    assert(magnitude(x) <= 2 as real * magnitude(n));
    lemma_grain();
    lemma_product_no_less(magnitude(x), 2 as real * magnitude(n), grain());
    lemma_product_turns(magnitude(x), grain());
    assert((2 as real * magnitude(n)) * grain() == 2 as real * (grain() * magnitude(n)))
        by (nonlinear_arith);
    let l = least();
    assert(-(4 as real * g + l * y) <= off * y <= 4 as real * g + l * y);
    let c = 1 as real / 1000000000 as real;
    // That is less than a part in a thousand million of it.
    assert(m * d <= 1000000 as real * d) by {
        lemma_product_no_less(m, 1000000 as real, d);
    }
    assert(9000000000000000 as real * g <= 1000000 as real * d);
    assert(4 as real * g <= y / 1000000000 as real * (9 as real / 10 as real));
    assert(1000000000000000000 as real * (l * y) <= y) by {
        lemma_product_no_less(1000000000000000000 as real * l, 1 as real, y);
        assert((1000000000000000000 as real * l) * y == 1000000000000000000 as real * (l * y))
            by (nonlinear_arith);
    }
    assert(c * y == y / 1000000000 as real) by (nonlinear_arith)
        requires
            c == 1 as real / 1000000000 as real,
    ;
    assert(-(c * y) <= off * y <= c * y);
    assert(off <= c) by (nonlinear_arith)
        requires
            off * y <= c * y,
            y > 0 as real,
    ;
    assert(off >= -c) by (nonlinear_arith)
        requires
            -(c * y) <= off * y,
            y > 0 as real,
    ;
}

/// There is such a quotient.
proof fn lemma_quotient_room(a: Number, b: Number, m: real, d: real)
    requires
        a.finite(),
        b.finite(),
        0 as real <= m <= 1000000 as real,
        d > 0 as real,
        magnitude(exact(a)) <= 2 as real * (m * d),
        2 as real * exact(b) >= d,
    ensures
        quotient(a, b).finite(),
        exact(b) > 0 as real,
{
    let p = pow2(1074) as real;
    let x = exact(a);
    let y = exact(b);
    let top = units((INFINITE - 1) as nat) as real;
    lemma_room();
    lemma_least();
    lemma_counted(a);
    lemma_counted(b);
    lemma_product_no_less(m, 1000000 as real, d);
    assert(magnitude(x) <= 4000000 as real * y);
    let yp = y * p;
    assert(yp > 0 as real) by (nonlinear_arith)
        requires
            yp == y * p,
            y > 0 as real,
            p > 0 as real,
    ;
    lemma_product_no_less(x, 4000000 as real * y, p);
    lemma_product_no_less(-(4000000 as real * y), x, p);
    assert((4000000 as real * y) * p == 4000000 as real * yp) by (nonlinear_arith)
        requires
            yp == y * p,
    ;
    assert((-(4000000 as real * y)) * p == -(4000000 as real * yp)) by (nonlinear_arith)
        requires
            yp == y * p,
    ;
    let s = size(a.value());
    assert(s as real <= 4000000 as real * yp);
    lemma_product_no_less(s as real, 4000000 as real * yp, p);
    assert((4000000 as real * yp) * p == (4000000 as real * p) * yp) by (nonlinear_arith);
    assert(4000000 as real * p <= top) by {
        lemma_product_no_less(4000000 as real, far(), p);
    }
    lemma_product_no_less(4000000 as real * p, top, yp);
    lemma_product_whole(s, pow2(1074) as int);
    lemma_product_whole(units((INFINITE - 1) as nat) as int, b.value());
    lemma_quotient_finite(a, b);
}

/// An input is sought at its in-point on the stream's own clock: where the stream starts
/// and the in-point after that, in millionths of a second.
pub proof fn lemma_an_input_is_sought_at_its_in_point(source_start: Number, start: Ratio)
    requires
        source_start.finite(),
        0 as real <= exact(source_start) <= 1000000 as real,
        within_reach(start),
    ensures
        exact(source_start) == 0 as real ==> input_target(source_start, start) is None,
        exact(source_start) > 0 as real ==> input_target(source_start, start) is Some && apart_by(
            input_target(source_start, start)->0 as real,
            1000000 as real * (exact(source_start) + second_of(start)),
            2 as real,
        ),
{
    lemma_ends();
    lemma_exact_order(num(ZERO), source_start);
    lemma_exact_order(source_start, num(ZERO));
    lemma_as_number(start);
    lemma_what_the_clocks_count();
    let from = as_number(start);
    let x = exact(source_start) + second_of(start);
    lemma_sum_room(source_start, from);
    lemma_sum_measured(source_start, from);
    lemma_speck(magnitude(exact(source_start) + exact(from)));
    let s = sum(source_start, from);
    let k = num(MILLION);
    lemma_multiplied(
        s,
        k,
        x,
        1000000 as real,
        2 as real / 1000000000 as real,
        0 as real,
        3000000 as real,
        1000000 as real,
    );
    lemma_cut_to_whole(product(s, k));
}

/// What is cut before a clip is what came before its in-point: the in-point less where
/// the first frame landed, counted from where the stream starts. A frame past the
/// in-point leaves nothing to cut, and neither does one that does not say.
pub proof fn lemma_what_landed_early_is_cut(
    source_start: Number,
    count: i64,
    base: TimeBase,
    start: Ratio,
)
    requires
        source_start.finite(),
        0 as real <= exact(source_start) <= 1000000 as real,
        within_reach(start),
        base.denominator > 0,
        made(base.product(count).0, base.product(count).1) is Some,
        within_reach(made(base.product(count).0, base.product(count).1)->0),
    ensures
        ({
            let landed = ((count * base.numerator) as real) / (base.denominator as real)
                - second_of(start);
            apart_by(
                exact(landed_early(source_start, Some(count), base, start)),
                at_least(exact(source_start) - landed, 0 as real),
                1 as real / 100000000 as real,
            )
        }),
        source_start.finite() ==> exact(landed_early(source_start, None, base, start)) == 0 as real,
{
    let n = (count * base.numerator) as int;
    let d = base.denominator as int;
    let at = made(n, d)->0;
    lemma_made(n, d);
    lemma_as_number(at);
    lemma_as_number(start);
    lemma_same_second(at, n, d);
    let a = as_number(at);
    let b = as_number(start);
    lemma_difference_room(a, b);
    lemma_difference_measured(a, b);
    lemma_speck(magnitude(exact(a) - exact(b)));
    let landed = difference(a, b);
    lemma_difference_room(source_start, landed);
    lemma_difference_measured(source_start, landed);
    lemma_speck(magnitude(exact(source_start) - exact(landed)));
    let early = difference(source_start, landed);
    lemma_ends();
    lemma_exact_order(early, num(ZERO));
    lemma_exact_order(num(ZERO), early);
    let none = difference(source_start, source_start);
    lemma_difference_room(source_start, source_start);
    lemma_difference_measured(source_start, source_start);
    assert(grain() * (0 as real) == 0 as real) by {
        lemma_product_turns(grain(), 0 as real);
        lemma_ends_of_product(grain());
    }
    lemma_exact_order(none, num(ZERO));
    lemma_exact_order(num(ZERO), none);
}

} // verus!
