//! Curves between two values, taken exactly.
//!
//! A cubic is drawn by mixing the neighbours of its four control points three
//! times over. With a parameter of its own for each time this is the polar form,
//! which does not mind their order and is straight in each of them; so the control
//! points of a stretch of the cubic are its polar form at the stretch's ends.

use crate::model::exact::{
    along, lemma_along_close, lemma_along_ends, lemma_along_range, lemma_ends_of_product,
    lemma_product_no_less, lemma_product_turns, lemma_weighted,
};
use vstd::prelude::*;

verus! {

/// The cubic with these control points.
pub open spec fn casteljau(a: real, b: real, c: real, d: real, t: real) -> real {
    along(
        along(along(a, b, t), along(b, c, t), t),
        along(along(b, c, t), along(c, d, t), t),
        t,
    )
}

/// The polar form of the cubic that leads from zero to one by `p` and `q`.
pub open spec fn blossom(p: real, q: real, u: real, v: real, w: real) -> real {
    along(
        along(along(0 as real, p, u), along(p, q, u), v),
        along(along(p, q, u), along(q, 1 as real, u), v),
        w,
    )
}

/// The cubic that leads from zero to one by `p` and `q`.
pub open spec fn cubic(p: real, q: real, t: real) -> real {
    blossom(p, q, t, t, t)
}

proof fn lemma_times_sum(w: real, r: real, s: real, t: real)
    ensures
        w * (r + s - t) == w * r + w * s - w * t,
{
    assert(w * (r + s - t) == w * r + w * s - w * t) by (nonlinear_arith);
}

proof fn lemma_times_twice(w: real, v: real, y: real)
    ensures
        w * (v * y) == v * (w * y),
{
    assert(w * (v * y) == v * (w * y)) by (nonlinear_arith);
}

/// Mixing by one parameter and then by another is mixing by the other first.
pub proof fn lemma_exchange(a: real, b: real, c: real, d: real, v: real, w: real)
    ensures
        along(along(a, b, v), along(c, d, v), w) == along(along(a, c, w), along(b, d, w), v),
{
    reveal(along);
    let x = b - a;
    let y = d - c;
    let vx = v * x;
    let vy = v * y;
    lemma_times_sum(w, c - a, vy, vx);
    lemma_times_twice(w, v, y);
    lemma_times_twice(w, v, x);
    let e = c - a;
    let f = d - b;
    let we = w * e;
    let wf = w * f;
    lemma_times_sum(v, b - a, wf, we);
    lemma_times_twice(v, w, f);
    lemma_times_twice(v, w, e);
    // w (v y) - w (v x) and v (w f) - v (w e) are both v w (d - c - b + a).
    let wy = w * y;
    let wx = w * x;
    lemma_times_sum(v, wy, 0 as real, wx);
    lemma_times_sum(v, wf, 0 as real, we);
    lemma_times_sum(w, y, 0 as real, x);
    lemma_times_sum(w, f, 0 as real, e);
    assert(y - x == f - e);
}

/// A part of the way between two parts of a way.
pub proof fn lemma_nested(a: real, b: real, p: real, q: real, t: real)
    ensures
        along(a, b, along(p, q, t)) == along(along(a, b, p), along(a, b, q), t),
{
    reveal(along);
    let d = b - a;
    let g = q - p;
    let tg = t * g;
    let pd = p * d;
    let qd = q * d;
    lemma_times_sum(d, p, tg, 0 as real);
    lemma_times_sum(d, q, 0 as real, p);
    lemma_times_twice(d, t, g);
    lemma_times_sum(t, qd, 0 as real, pd);
    assert((p + tg) * d == d * (p + tg - 0 as real)) by {
        lemma_turn(p + tg, d);
    }
    lemma_turn(p, d);
    lemma_turn(q, d);
    lemma_turn(tg, d);
}

proof fn lemma_turn(x: real, y: real)
    ensures
        x * y == y * x,
{
    assert(x * y == y * x) by (nonlinear_arith);
}

/// Mixing two values spread alike is their mix spread.
pub proof fn lemma_affine(m: real, k: real, a: real, b: real, t: real)
    ensures
        along(m + k * a, m + k * b, t) == m + k * along(a, b, t),
{
    reveal(along);
    let d = b - a;
    let td = t * d;
    lemma_times_sum(k, a, td, 0 as real);
    lemma_times_sum(k, b, 0 as real, a);
    lemma_times_twice(k, t, d);
}

/// A way between later ends is no earlier.
pub proof fn lemma_along_order(a: real, b: real, c: real, d: real, t: real)
    requires
        0 as real <= t <= 1 as real,
        a <= c,
        b <= d,
    ensures
        along(a, b, t) <= along(c, d, t),
{
    let r = 1 as real - t;
    lemma_weighted(a, b, t);
    lemma_weighted(c, d, t);
    lemma_product_no_less(a, c, r);
    lemma_product_no_less(b, d, t);
    lemma_product_turns(a, r);
    lemma_product_turns(c, r);
    lemma_product_turns(b, t);
    lemma_product_turns(d, t);
}

/// Further along a way that rises is no lower.
pub proof fn lemma_along_rises(a: real, b: real, p: real, q: real)
    requires
        a <= b,
        p <= q,
    ensures
        along(a, b, p) <= along(a, b, q),
{
    reveal(along);
    lemma_product_no_less(p, q, b - a);
}

/// How much a way that rises by no more than one rises.
proof fn lemma_along_gains(a: real, b: real, p: real, q: real)
    requires
        b <= a + 1 as real,
        p <= q,
    ensures
        along(a, b, q) - along(a, b, p) <= q - p,
{
    reveal(along);
    let d = b - a;
    lemma_times_sum(d, q, 0 as real, p);
    lemma_turn(d, q);
    lemma_turn(d, p);
    lemma_turn(d, q - p);
    lemma_product_no_less(d, 1 as real, q - p);
    lemma_ends_of_product(q - p);
}

// The four control points.

pub proof fn lemma_casteljau_close(
    a: real,
    b: real,
    c: real,
    d: real,
    e: real,
    f: real,
    g: real,
    h: real,
    t: real,
    off: real,
)
    requires
        0 as real <= t <= 1 as real,
        -off <= a - e <= off,
        -off <= b - f <= off,
        -off <= c - g <= off,
        -off <= d - h <= off,
    ensures
        -off <= casteljau(a, b, c, d, t) - casteljau(e, f, g, h, t) <= off,
{
    lemma_along_close(a, b, e, f, t, off);
    lemma_along_close(b, c, f, g, t, off);
    lemma_along_close(c, d, g, h, t, off);
    lemma_along_close(along(a, b, t), along(b, c, t), along(e, f, t), along(f, g, t), t, off);
    lemma_along_close(along(b, c, t), along(c, d, t), along(f, g, t), along(g, h, t), t, off);
    lemma_along_close(
        along(along(a, b, t), along(b, c, t), t),
        along(along(b, c, t), along(c, d, t), t),
        along(along(e, f, t), along(f, g, t), t),
        along(along(f, g, t), along(g, h, t), t),
        t,
        off,
    );
}

/// A cubic from one value to another is the one from zero to one, spread.
pub proof fn lemma_casteljau_affine(m: real, k: real, p: real, q: real, t: real)
    ensures
        casteljau(m, m + k * p, m + k * q, m + k, t) == m + k * cubic(p, q, t),
{
    let z = 0 as real;
    let o = 1 as real;
    lemma_ends_of_product(k);
    lemma_turn(k, z);
    lemma_turn(k, o);
    lemma_affine(m, k, z, p, t);
    lemma_affine(m, k, p, q, t);
    lemma_affine(m, k, q, o, t);
    let e = along(z, p, t);
    let f = along(p, q, t);
    let g = along(q, o, t);
    lemma_affine(m, k, e, f, t);
    lemma_affine(m, k, f, g, t);
    lemma_affine(m, k, along(e, f, t), along(f, g, t), t);
}

/// A cubic carried along a way is the cubic with its control points carried.
pub proof fn lemma_casteljau_along(
    from: real,
    to: real,
    a: real,
    b: real,
    c: real,
    d: real,
    t: real,
)
    ensures
        along(from, to, casteljau(a, b, c, d, t)) == casteljau(
            along(from, to, a),
            along(from, to, b),
            along(from, to, c),
            along(from, to, d),
            t,
        ),
{
    lemma_nested(from, to, a, b, t);
    lemma_nested(from, to, b, c, t);
    lemma_nested(from, to, c, d, t);
    let e = along(a, b, t);
    let f = along(b, c, t);
    let g = along(c, d, t);
    lemma_nested(from, to, e, f, t);
    lemma_nested(from, to, f, g, t);
    lemma_nested(from, to, along(e, f, t), along(f, g, t), t);
}

// The polar form.

/// The order of the parameters does not matter.
pub proof fn lemma_blossom_turns(p: real, q: real, u: real, v: real, w: real)
    ensures
        blossom(p, q, u, v, w) == blossom(p, q, u, w, v),
        blossom(p, q, u, v, w) == blossom(p, q, v, u, w),
{
    let z = 0 as real;
    let o = 1 as real;
    lemma_exchange(along(z, p, u), along(p, q, u), along(p, q, u), along(q, o, u), v, w);
    lemma_exchange(z, p, p, q, u, v);
    lemma_exchange(p, q, q, o, u, v);
}

/// The polar form is straight in its last parameter.
proof fn lemma_blossom_straight(p: real, q: real, u: real, v: real, s: real, t: real, x: real)
    ensures
        blossom(p, q, u, v, along(s, t, x)) == along(
            blossom(p, q, u, v, s),
            blossom(p, q, u, v, t),
            x,
        ),
{
    let z = 0 as real;
    let o = 1 as real;
    lemma_nested(
        along(along(z, p, u), along(p, q, u), v),
        along(along(p, q, u), along(q, o, u), v),
        s,
        t,
        x,
    );
}

/// A stretch of a cubic is the cubic whose control points are the polar form at the
/// stretch's ends.
pub proof fn lemma_stretch(p: real, q: real, s: real, t: real, x: real)
    ensures
        cubic(p, q, along(s, t, x)) == casteljau(
            blossom(p, q, s, s, s),
            blossom(p, q, s, s, t),
            blossom(p, q, s, t, t),
            blossom(p, q, t, t, t),
            x,
        ),
{
    let m = along(s, t, x);
    // The last of three, then the second, then the first.
    lemma_blossom_straight(p, q, m, m, s, t, x);
    lemma_blossom_turns(p, q, m, m, s);
    lemma_blossom_turns(p, q, m, s, m);
    lemma_blossom_turns(p, q, m, m, t);
    lemma_blossom_turns(p, q, m, t, m);
    lemma_blossom_straight(p, q, s, m, s, t, x);
    lemma_blossom_straight(p, q, t, m, s, t, x);
    lemma_blossom_turns(p, q, s, m, s);
    lemma_blossom_turns(p, q, s, m, t);
    lemma_blossom_turns(p, q, t, m, s);
    lemma_blossom_turns(p, q, t, m, t);
    lemma_blossom_straight(p, q, s, s, s, t, x);
    lemma_blossom_straight(p, q, s, t, s, t, x);
    lemma_blossom_straight(p, q, t, s, s, t, x);
    lemma_blossom_straight(p, q, t, t, s, t, x);
    lemma_blossom_turns(p, q, s, t, s);
    lemma_blossom_turns(p, q, t, s, s);
    lemma_blossom_turns(p, q, t, s, t);
    lemma_blossom_turns(p, q, t, t, s);
    lemma_blossom_turns(p, q, s, s, t);
    lemma_blossom_turns(p, q, s, t, t);
}

/// The polar form lies where the control points do.
pub proof fn lemma_blossom_range(
    p: real,
    q: real,
    u: real,
    v: real,
    w: real,
    low: real,
    high: real,
)
    requires
        low <= 0 as real,
        1 as real <= high,
        low <= p <= high,
        low <= q <= high,
        0 as real <= u <= 1 as real,
        0 as real <= v <= 1 as real,
        0 as real <= w <= 1 as real,
    ensures
        low <= blossom(p, q, u, v, w) <= high,
{
    let z = 0 as real;
    let o = 1 as real;
    lemma_along_range(z, p, u, low, high);
    lemma_along_range(p, q, u, low, high);
    lemma_along_range(q, o, u, low, high);
    lemma_along_range(along(z, p, u), along(p, q, u), v, low, high);
    lemma_along_range(along(p, q, u), along(q, o, u), v, low, high);
    lemma_along_range(
        along(along(z, p, u), along(p, q, u), v),
        along(along(p, q, u), along(q, o, u), v),
        w,
        low,
        high,
    );
}

/// Whether a curve's control points stay between its ends.
pub open spec fn within(p: real, q: real) -> bool {
    0 as real <= p <= 1 as real && 0 as real <= q <= 1 as real
}

/// The polar form of such a curve gains no more than its last parameter does.
proof fn lemma_blossom_gains(p: real, q: real, u: real, v: real, s: real, t: real)
    requires
        within(p, q),
        0 as real <= u <= 1 as real,
        0 as real <= v <= 1 as real,
        s <= t,
    ensures
        blossom(p, q, u, v, t) - blossom(p, q, u, v, s) <= t - s,
{
    let z = 0 as real;
    let o = 1 as real;
    let a = along(z, p, u);
    let b = along(p, q, u);
    let c = along(q, o, u);
    lemma_along_range(z, p, u, z, o);
    lemma_along_range(p, q, u, z, o);
    lemma_along_range(q, o, u, z, o);
    lemma_along_range(a, b, v, z, o);
    lemma_along_range(b, c, v, z, o);
    lemma_along_gains(along(a, b, v), along(b, c, v), s, t);
}

/// Such a curve gains no more than three times what its parameter does.
pub proof fn lemma_stretch_gains(p: real, q: real, s: real, t: real)
    requires
        within(p, q),
        0 as real <= s <= t <= 1 as real,
    ensures
        cubic(p, q, t) - cubic(p, q, s) <= 3 as real * (t - s),
{
    lemma_blossom_gains(p, q, s, s, s, t);
    lemma_blossom_gains(p, q, s, t, s, t);
    lemma_blossom_gains(p, q, t, t, s, t);
    lemma_blossom_turns(p, q, s, t, s);
    lemma_blossom_turns(p, q, s, s, t);
    lemma_blossom_turns(p, q, t, t, s);
    lemma_blossom_turns(p, q, t, s, t);
}

/// Whether a curve's control points never turn back.
pub open spec fn gentle(p: real, q: real) -> bool {
    0 as real <= p <= q <= 1 as real
}

/// The polar form of a gentle curve rises with its last parameter.
proof fn lemma_blossom_rises(p: real, q: real, u: real, v: real, s: real, t: real)
    requires
        gentle(p, q),
        0 as real <= u <= 1 as real,
        0 as real <= v <= 1 as real,
        s <= t,
    ensures
        blossom(p, q, u, v, s) <= blossom(p, q, u, v, t),
{
    let z = 0 as real;
    let o = 1 as real;
    let a = along(z, p, u);
    let b = along(p, q, u);
    let c = along(q, o, u);
    lemma_along_order(z, p, p, q, u);
    lemma_along_order(p, q, q, o, u);
    lemma_along_range(z, p, u, z, o);
    lemma_along_range(q, o, u, z, o);
    lemma_along_order(a, b, b, c, v);
    lemma_along_range(a, b, v, z, o);
    lemma_along_range(b, c, v, z, o);
    lemma_along_rises(along(a, b, v), along(b, c, v), s, t);
}

/// The control points of a stretch of a gentle curve are in order.
pub proof fn lemma_stretch_in_order(p: real, q: real, s: real, t: real)
    requires
        gentle(p, q),
        0 as real <= s <= t <= 1 as real,
    ensures
        blossom(p, q, s, s, s) <= blossom(p, q, s, s, t),
        blossom(p, q, s, s, t) <= blossom(p, q, s, t, t),
        blossom(p, q, s, t, t) <= blossom(p, q, t, t, t),
{
    lemma_blossom_rises(p, q, s, s, s, t);
    lemma_blossom_rises(p, q, s, t, s, t);
    lemma_blossom_rises(p, q, t, t, s, t);
    lemma_blossom_turns(p, q, s, t, s);
    lemma_blossom_turns(p, q, s, s, t);
    lemma_blossom_turns(p, q, t, t, s);
    lemma_blossom_turns(p, q, t, s, t);
}

/// Where a curve begins and ends.
pub proof fn lemma_cubic_ends(p: real, q: real)
    ensures
        cubic(p, q, 0 as real) == 0 as real,
        cubic(p, q, 1 as real) == 1 as real,
{
    let z = 0 as real;
    let o = 1 as real;
    lemma_along_ends(z, p);
    lemma_along_ends(p, q);
    lemma_along_ends(q, o);
    lemma_along_ends(along(z, p, z), along(p, q, z));
    lemma_along_ends(along(p, q, z), along(q, o, z));
    lemma_along_ends(
        along(along(z, p, z), along(p, q, z), z),
        along(along(p, q, z), along(q, o, z), z),
    );
    lemma_along_ends(along(z, p, o), along(p, q, o));
    lemma_along_ends(along(p, q, o), along(q, o, o));
    lemma_along_ends(
        along(along(z, p, o), along(p, q, o), o),
        along(along(p, q, o), along(q, o, o), o),
    );
}

} // verus!
