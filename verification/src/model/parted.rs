//! How near a part of an ease comes to the stretch of the curve it is taken of.

use crate::model::bezier::{
    blossom, cubic, gentle, lemma_cubic_ends, lemma_stretch_gains, lemma_stretch_in_order, within,
};
use crate::model::ease::{curve, parameter, polar, sought, spread, step, GRID, GRID_SIZE};
use crate::model::exact::{
    exact, lemma_ends, lemma_ends_of_product, lemma_exact_order, lemma_product_no_less,
    lemma_product_turns, lemma_product_whole, lemma_ratio,
};
use crate::model::nearly::{
    grain, held, lemma_difference_near, lemma_grain, lemma_grains_small, lemma_grains_together,
    lemma_more_grains, lemma_no_less_before, lemma_polar_near, lemma_ratio_near,
};
use crate::number::{
    clamped, difference, lemma_exact, lemma_exact_ratio, lemma_held, lemma_units_of, num, quotient,
    units, whole, Number, FRACTION, ONE, ZERO,
};
use crate::ranges::in_clip;
use crate::rounding::PARTS;
use vstd::arithmetic::mul::*;
use vstd::arithmetic::power2::*;
use vstd::prelude::*;

verus! {

// The grid.

/// A point of the grid is exact.
proof fn lemma_step(j: nat)
    requires
        j <= GRID,
    ensures
        step(j).finite(),
        exact(step(j)) * (GRID as real) == j as real,
{
    reveal(quotient);
    reveal(whole);
    lemma2_to64_rest();
    lemma_pow2_pos(1074);
    let p = pow2(1074);
    let k = lemma_held(j, 1074);
    lemma_exact(k);
    assert(whole(j as int).magnitude() == k);
    lemma_units_of(1074, FRACTION as nat);
    assert(GRID_SIZE == 1074 * FRACTION + FRACTION);
    assert(units(GRID_SIZE as nat) == FRACTION * p);
    let h = pow2(1022);
    lemma_pow2_adds(52, 1022);
    let m = lemma_held(j, 1022);
    assert((j * p) * p == (j * h) * (FRACTION * p)) by (nonlinear_arith)
        requires
            p == FRACTION * h,
    ;
    assert(FRACTION * p > 0) by (nonlinear_arith)
        requires
            p > 0,
    ;
    lemma_exact_ratio(m, (j * p) * p, (FRACTION * p) as nat);
    assert(step(j).magnitude() == m);
    assert(step(j).value() == j * h);
    // j h / p is j / 2^52.
    let r = p as real;
    let t = exact(step(j));
    let g = GRID as real;
    lemma_ratio((j * h) as real, r, t);
    lemma_product_whole(j as int, h as int);
    lemma_product_whole(FRACTION as int, h as int);
    let x = h as real;
    let y = j as real;
    // t r == y x and r == g x, so (t g) x == y x.
    assert((t * g) * x == t * (g * x)) by (nonlinear_arith);
    lemma_pow2_pos(1022);
    lemma_no_less_before(t * g, y, x);
    lemma_no_less_before(y, t * g, x);
}

/// Neighbours on the grid are two grains apart, and the grid is the unit stretch.
proof fn lemma_steps(j: nat)
    requires
        j < GRID,
    ensures
        step(j).finite() && step((j + 1) as nat).finite(),
        0 as real <= exact(step(j)) <= exact(step((j + 1) as nat)) <= 1 as real,
        exact(step((j + 1) as nat)) - exact(step(j)) <= 2 as real * grain(),
{
    let g = GRID as real;
    let x = exact(step(j));
    let y = exact(step((j + 1) as nat));
    lemma_step(j);
    lemma_step((j + 1) as nat);
    lemma_ends_of_product(g);
    lemma_no_less_before(0 as real, x, g);
    lemma_no_less_before(x, y, g);
    lemma_no_less_before(y, 1 as real, g);
    let d = y - x;
    let h = grain();
    lemma_grain();
    assert((y - x) * g == y * g - x * g) by (nonlinear_arith);
    let e = 2 as real * h;
    assert(e * g == h * (2 as real * g)) by (nonlinear_arith)
        requires
            e == 2 as real * h,
    ;
    lemma_product_turns(h, PARTS as real);
    assert(2 as real * g == PARTS as real);
    lemma_no_less_before(d, e, g);
}

// Where a curve has come to.

/// What a search keeps: the curve has not passed `x` at one end, nor fallen short of
/// it at the other, but for what rounding takes.
spec fn around(p: Number, q: Number, x: Number, low: nat, high: nat) -> bool {
    let off = 96 as real * grain();
    &&& low < high <= GRID
    &&& cubic(exact(p), exact(q), exact(step(low))) <= exact(x) + off
    &&& exact(x) - off <= cubic(exact(p), exact(q), exact(step(high)))
}

proof fn lemma_sought(p: Number, q: Number, x: Number, low: nat, high: nat)
    requires
        held(p, 1),
        held(q, 1),
        x.finite(),
        around(p, q, x, low, high),
    ensures
        low <= sought(p, q, x, low, high) < high,
        around(
            p,
            q,
            x,
            sought(p, q, x, low, high),
            (sought(p, q, x, low, high) + 1) as nat,
        ),
    decreases high - low,
{
    if high > low + 1 {
        let middle = (low + high) / 2;
        let t = step(middle);
        lemma_steps(middle);
        lemma_polar_near(p, q, t, t, t, 1);
        lemma_exact_order(curve(p, q, t), x);
        lemma_exact_order(x, curve(p, q, t));
        if curve(p, q, t).at_most(x) {
            lemma_sought(p, q, x, middle, high);
        } else {
            assert(x.less(curve(p, q, t)));
            lemma_sought(p, q, x, low, middle);
        }
    }
}

proof fn lemma_sought_range(p: Number, q: Number, x: Number, low: nat, high: nat)
    requires
        low < high,
    ensures
        low <= sought(p, q, x, low, high) < high,
    decreases high - low,
{
    if high > low + 1 {
        let middle = (low + high) / 2;
        lemma_sought_range(p, q, x, middle, high);
        lemma_sought_range(p, q, x, low, middle);
    }
}

/// What is sought further on is found no earlier.
proof fn lemma_sought_in_order(p: Number, q: Number, x: Number, y: Number, low: nat, high: nat)
    requires
        low < high,
        x.at_most(y),
    ensures
        sought(p, q, x, low, high) <= sought(p, q, y, low, high),
    decreases high - low,
{
    if high > low + 1 {
        let middle = (low + high) / 2;
        lemma_sought_in_order(p, q, x, y, middle, high);
        lemma_sought_in_order(p, q, x, y, low, middle);
        lemma_sought_range(p, q, x, low, middle);
        lemma_sought_range(p, q, y, middle, high);
    }
}

/// The parameter at which a curve has come to `x`: the curve is there, but for what
/// rounding takes.
pub proof fn lemma_parameter(p: Number, q: Number, x: Number)
    requires
        held(p, 1),
        held(q, 1),
        within(exact(p), exact(q)),
        x.finite(),
        0 as real <= exact(x) <= 1 as real,
    ensures
        parameter(p, q, x).finite(),
        0 as real <= exact(parameter(p, q, x)) <= 1 as real,
        ({
            let off = 102 as real * grain();
            let found = cubic(exact(p), exact(q), exact(parameter(p, q, x)));
            -off <= found - exact(x) <= off
        }),
{
    lemma_ends();
    lemma_grain();
    lemma_cubic_ends(exact(p), exact(q));
    lemma_exact_order(x, num(ZERO));
    lemma_exact_order(num(ONE), x);
    lemma_grains_together(96, 6);
    lemma_more_grains(0, 96);
    lemma_more_grains(96, 102);
    lemma_ends_of_product(grain());
    if !x.at_most(num(ZERO)) && !num(ONE).at_most(x) {
        let whole_grid = GRID as nat;
        lemma_step(0);
        lemma_step(whole_grid);
        let g = GRID as real;
        lemma_ends_of_product(g);
        lemma_no_less_before(exact(step(0)), 0 as real, g);
        lemma_no_less_before(0 as real, exact(step(0)), g);
        lemma_no_less_before(exact(step(whole_grid)), 1 as real, g);
        lemma_no_less_before(1 as real, exact(step(whole_grid)), g);
        assert(around(p, q, x, 0, whole_grid));
        lemma_sought(p, q, x, 0, whole_grid);
        let j = sought(p, q, x, 0, whole_grid);
        lemma_steps(j);
        let s = exact(step(j));
        let t = exact(step((j + 1) as nat));
        lemma_stretch_gains(exact(p), exact(q), s, t);
        lemma_product_no_less(t - s, 2 as real * grain(), 3 as real);
        lemma_product_turns(t - s, 3 as real);
        let h = grain();
        assert((2 as real * h) * 3 as real == 6 as real * h) by (nonlinear_arith);
    }
}

/// What comes later on a curve has the later parameter.
pub proof fn lemma_parameters_in_order(p: Number, q: Number, x: Number, y: Number)
    requires
        x.at_most(y),
    ensures
        exact(parameter(p, q, x)) <= exact(parameter(p, q, y)),
{
    lemma_ends();
    let n = GRID as nat;
    let g = GRID as real;
    lemma_ends_of_product(g);
    lemma_sought_range(p, q, x, 0, n);
    lemma_sought_range(p, q, y, 0, n);
    lemma_sought_in_order(p, q, x, y, 0, n);
    let i = sought(p, q, x, 0, n);
    let j = sought(p, q, y, 0, n);
    lemma_steps(i);
    lemma_steps(j);
    lemma_step(i);
    lemma_step(j);
    lemma_no_less_before(exact(step(i)), exact(step(j)), g);
}

// The control points.

/// Whether a control point of a stretch, spread, is where it should be, but for
/// something.
pub open spec fn fits(found: real, from: real, point: real, to: real, off: real) -> bool {
    -off <= found * (to - from) - (point - from) <= off
}

/// A control point as it is computed: what is divided, what by, and what comes out.
proof fn lemma_spread(
    p: Number,
    q: Number,
    s: Number,
    v: Number,
    t: Number,
    m: int,
) -> (parts: (real, real))
    requires
        held(p, m),
        held(q, m),
        1 <= m <= 16,
        s.finite() && v.finite() && t.finite(),
        0 as real <= exact(s) <= 1 as real,
        0 as real <= exact(v) <= 1 as real,
        0 as real <= exact(t) <= 1 as real,
        spread(p, q, s, t, polar(p, q, s, v, t)).finite(),
    ensures
        ({
            let (n, d) = parts;
            let found = exact(spread(p, q, s, t, polar(p, q, s, v, t)));
            let (x, y) = (exact(p), exact(q));
            let (i, j, k) = (exact(s), exact(v), exact(t));
            let from = cubic(x, y, i);
            let off = (200 * m) as real * grain();
            let rest = (10 * m) as real * grain();
            &&& -off <= n - (blossom(x, y, i, j, k) - from) <= off
            &&& -off <= d - (cubic(x, y, k) - from) <= off
            &&& -rest <= found * d - n <= rest
        }),
{
    let low = curve(p, q, s);
    let high = curve(p, q, t);
    let point = polar(p, q, s, v, t);
    lemma_polar_near(p, q, s, s, s, m);
    lemma_polar_near(p, q, t, t, t, m);
    lemma_polar_near(p, q, s, v, t, m);
    lemma_difference_near(point, low, 2 * m);
    lemma_difference_near(high, low, 2 * m);
    lemma_grain();
    lemma_grains_small(4 * m);
    lemma_grains_together(96 * m, 96 * m);
    lemma_grains_together(192 * m, 4 * m);
    lemma_more_grains(196 * m, 200 * m);
    let above = difference(point, low);
    let over = difference(high, low);
    assert(held(above, 5 * m));
    assert(held(over, 5 * m));
    lemma_ratio_near(above, over, 5 * m, 5 * m);
    (exact(above), exact(over))
}

/// An error in what is divided by, and in what is divided.
proof fn lemma_off_by(found: real, n: real, d: real, e: real, f: real, off: real, rest: real)
    requires
        -off <= n - e <= off,
        -off <= d - f <= off,
        -rest <= found * d - n <= rest,
        off >= 0 as real,
    ensures
        ({
            let most = if found < 0 as real {
                -found
            } else {
                found
            };
            let all = most * off + rest + off;
            -all <= found * f - e <= all
        }),
{
    let most = if found < 0 as real {
        -found
    } else {
        found
    };
    let g = d - f;
    assert(found * d - found * f == found * (d - f)) by (nonlinear_arith);
    lemma_product_no_less(-off, g, most);
    lemma_product_no_less(g, off, most);
    lemma_product_turns(g, most);
    lemma_product_turns(off, most);
    assert((-off) * most == -(off * most)) by (nonlinear_arith);
    assert((-found) * g == -(found * g)) by (nonlinear_arith);
}

/// Of a curve's height the control points of a stretch are found as near as they
/// reach.
pub proof fn lemma_height_fits(
    p: Number,
    q: Number,
    s: Number,
    v: Number,
    t: Number,
    reach: real,
)
    requires
        held(p, 16),
        held(q, 16),
        s.finite() && v.finite() && t.finite(),
        0 as real <= exact(s) <= 1 as real,
        0 as real <= exact(v) <= 1 as real,
        0 as real <= exact(t) <= 1 as real,
        spread(p, q, s, t, polar(p, q, s, v, t)).finite(),
        reach >= 1 as real,
        -reach <= exact(spread(p, q, s, t, polar(p, q, s, v, t))) <= reach,
    ensures
        fits(
            exact(spread(p, q, s, t, polar(p, q, s, v, t))),
            cubic(exact(p), exact(q), exact(s)),
            blossom(exact(p), exact(q), exact(s), exact(v), exact(t)),
            cubic(exact(p), exact(q), exact(t)),
            reach * (0x2000 as real * grain()),
        ),
{
    let found = exact(spread(p, q, s, t, polar(p, q, s, v, t)));
    let (n, d) = lemma_spread(p, q, s, v, t, 16);
    let off = 3200 as real * grain();
    let rest = 160 as real * grain();
    let from = cubic(exact(p), exact(q), exact(s));
    let e = blossom(exact(p), exact(q), exact(s), exact(v), exact(t)) - from;
    let f = cubic(exact(p), exact(q), exact(t)) - from;
    lemma_grain();
    lemma_more_grains(0, 3200);
    lemma_ends_of_product(grain());
    lemma_off_by(found, n, d, e, f, off, rest);
    let most = if found < 0 as real {
        -found
    } else {
        found
    };
    lemma_product_no_less(most, reach, off);
    lemma_grains_together(160, 3200);
    let more = 3360 as real * grain();
    lemma_more_grains(0, 3360);
    lemma_product_no_less(1 as real, reach, more);
    lemma_ends_of_product(more);
    lemma_grains_together(3200, 3360);
    lemma_more_grains(6560, 0x2000);
    assert(reach * off + reach * more == reach * (off + more)) by (nonlinear_arith);
    let all = 0x2000 as real * grain();
    lemma_product_no_less(off + more, all, reach);
    lemma_product_turns(off + more, reach);
    lemma_product_turns(all, reach);
}

/// Of a curve's width the control points of a stretch are found, held to the unit
/// stretch, as near as rounding leaves them: of a gentle curve always, of another
/// where they need no holding.
pub proof fn lemma_width_fits(p: Number, q: Number, s: Number, v: Number, t: Number)
    requires
        held(p, 1),
        held(q, 1),
        gentle(exact(p), exact(q)) || in_clip(spread(p, q, s, t, polar(p, q, s, v, t))),
        s.finite() && v.finite() && t.finite(),
        v == s || v == t,
        0 as real <= exact(s) <= exact(t) <= 1 as real,
        spread(p, q, s, t, polar(p, q, s, v, t)).finite(),
    ensures
        ({
            let found = clamped(
                spread(p, q, s, t, polar(p, q, s, v, t)),
                num(ZERO),
                num(ONE),
            );
            &&& found.finite()
            &&& 0 as real <= exact(found) <= 1 as real
            &&& fits(
                exact(found),
                cubic(exact(p), exact(q), exact(s)),
                blossom(exact(p), exact(q), exact(s), exact(v), exact(t)),
                cubic(exact(p), exact(q), exact(t)),
                450 as real * grain(),
            )
        }),
{
    let r = spread(p, q, s, t, polar(p, q, s, v, t));
    let raw = exact(r);
    let (n, d) = lemma_spread(p, q, s, v, t, 1);
    let z = 0 as real;
    let o = 1 as real;
    let off = 200 as real * grain();
    let rest = 10 as real * grain();
    let all = 450 as real * grain();
    let from = cubic(exact(p), exact(q), exact(s));
    let e = blossom(exact(p), exact(q), exact(s), exact(v), exact(t)) - from;
    let f = cubic(exact(p), exact(q), exact(t)) - from;
    if gentle(exact(p), exact(q)) {
        lemma_stretch_in_order(exact(p), exact(q), exact(s), exact(t));
        assert(z <= e <= f);
    }
    lemma_ends();
    lemma_grain();
    lemma_exact_order(r, num(ZERO));
    lemma_exact_order(num(ZERO), r);
    lemma_exact_order(num(ONE), r);
    lemma_exact_order(r, num(ONE));
    lemma_more_grains(0, 10);
    lemma_more_grains(10, 200);
    lemma_ends_of_product(grain());
    lemma_grains_together(200, 10);
    lemma_grains_together(200, 210);
    lemma_more_grains(410, 450);
    let found = clamped(r, num(ZERO), num(ONE));
    let x = exact(found);
    lemma_ends_of_product(f);
    lemma_ends_of_product(d);
    if r.less(num(ZERO)) {
        assert(raw < z);
        if d >= z {
            lemma_product_no_less(raw, z, d);
        }
    } else if num(ONE).less(r) {
        assert(raw > o);
        if d >= z {
            lemma_product_no_less(o, raw, d);
        }
    } else {
        assert(z <= raw <= o);
        lemma_off_by(raw, n, d, e, f, off, rest);
        lemma_product_no_less(raw, o, off);
        lemma_ends_of_product(off);
    }
}

} // verus!
