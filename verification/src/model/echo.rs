//! What is left of the way to a key when a window cuts it.

use crate::model::bezier::{
    blossom, cubic, lemma_blossom_range, lemma_casteljau_affine, lemma_casteljau_along,
    lemma_casteljau_close, lemma_cubic_ends, lemma_nested, lemma_stretch, within,
};
use crate::model::ease::parameter;
use crate::model::exact::{
    along, exact, instant, lemma_along_close, lemma_along_ends, lemma_along_range, lemma_ends,
    lemma_ends_of_product, lemma_exact_order, lemma_is_part, lemma_near_place,
    lemma_product_no_less, lemma_product_turns, lemma_ratio, open_window, slip_of,
};
use crate::model::keys::{linear, KeyEase, ParamKey};
use crate::model::nearly::{
    grain, held, lemma_difference_near, lemma_grain, lemma_grains_together, lemma_more_grains,
    lemma_no_less_before,
};
use crate::model::parted::{
    fits, lemma_height_fits, lemma_parameter, lemma_parameters_in_order, lemma_width_fits,
};
use crate::model::playing::{
    all_lined, heard, lined, nearby, on_ride, on_segment, playable, shape_x, shape_y, tame, told,
};
use crate::model::ride::{cut_ease, reached, shifted};
use crate::number::{clamped, difference, lemma_sum_keeps_order, negated, num, Number, ONE, ZERO};
use crate::ranges::in_clip;
use crate::rounding::{lemma_quotient_keeps_order, lemma_ranks_as_valued, PARTS};
use vstd::prelude::*;

verus! {

/// Where the window cuts the way to a key: at an end of the way, or inside it.
pub open spec fn cut_at(from: Number, to: Number, x: Number) -> real {
    if x.at_most(from) {
        exact(from)
    } else if to.at_most(x) {
        exact(to)
    } else {
        exact(x)
    }
}

/// Whether a way lies in the clip.
pub open spec fn on_clip(from: Number, to: Number) -> bool {
    &&& held(from, 1) && held(to, 1)
    &&& 0 as real <= exact(from)
    &&& from.less(to)
}

proof fn lemma_on_clip(keys: Seq<ParamKey>, i: int)
    requires
        playable(keys),
        1 <= i < keys.len(),
    ensures
        on_clip(keys[i - 1].at, keys[i].at),
        exact(keys[i - 1].at) < exact(keys[i].at),
        exact(keys[i].at) - exact(keys[i - 1].at) <= 1 as real,
{
    let from = keys[i - 1].at;
    let to = keys[i].at;
    lemma_ends();
    assert(keys[i - 1].valid() && keys[i].valid());
    assert(keys[i - 1].at.less(keys[i].at));
    lemma_exact_order(from, to);
    lemma_exact_order(num(ZERO), from);
    lemma_exact_order(from, num(ONE));
    lemma_exact_order(num(ZERO), to);
    lemma_exact_order(to, num(ONE));
}

/// How far along a way something is, is told nearly.
proof fn lemma_reached(from: Number, to: Number, x: Number)
    requires
        on_clip(from, to),
        x.finite(),
    ensures
        reached(from, to, x).finite(),
        0 as real <= exact(reached(from, to, x)) <= 1 as real,
        ({
            let off = 8 as real * grain();
            -off <= cut_at(from, to, x) - along(
                exact(from),
                exact(to),
                exact(reached(from, to, x)),
            ) <= off
        }),
{
    lemma_ends();
    lemma_grain();
    lemma_more_grains(0, 8);
    lemma_ends_of_product(grain());
    lemma_exact_order(from, to);
    lemma_along_ends(exact(from), exact(to));
    if !x.at_most(from) && !to.at_most(x) {
        lemma_difference_near(to, from, 1);
        assert(open_window(from, to));
        let key = ParamKey { at: x, value: x, ease: linear() };
        lemma_near_place(key, from, to);
        assert(shifted(key, from, to).at == reached(from, to, x));
        lemma_narrow(exact(to) - exact(from));
        assert(reached(from, to, x).finite()) by {
            crate::model::exact::lemma_placed_finite(key, from, to);
        }
    }
}

/// One part in 2^50 of what is no more than one is eight grains.
proof fn lemma_narrow(d: real)
    requires
        0 as real <= d <= 1 as real,
    ensures
        d / (0x4_0000_0000_0000int as real) <= 8 as real * grain(),
{
    let k = 0x4_0000_0000_0000int as real;
    let r = d / k;
    let g = 8 as real * grain();
    lemma_ratio(d, k, r);
    lemma_grain();
    let h = grain();
    assert(g * k == h * (8 as real * k)) by (nonlinear_arith)
        requires
            g == 8 as real * h,
    ;
    assert(8 as real * k == PARTS as real);
    lemma_product_turns(h, PARTS as real);
    lemma_no_less_before(r, g, k);
}

/// What lies further on is reached no earlier.
proof fn lemma_reached_in_order(from: Number, to: Number, x: Number, y: Number)
    requires
        on_clip(from, to),
        x.finite(),
        y.finite(),
        x.less(y),
    ensures
        reached(from, to, x).at_most(reached(from, to, y)),
{
    lemma_reached(from, to, x);
    lemma_reached(from, to, y);
    lemma_ends();
    let low = reached(from, to, x);
    let high = reached(from, to, y);
    lemma_exact_order(low, num(ZERO));
    lemma_exact_order(num(ONE), high);
    if !x.at_most(from) && !to.at_most(x) && !to.at_most(y) {
        lemma_sum_keeps_order(x, y, negated(from));
        lemma_difference_near(to, from, 1);
        crate::model::exact::lemma_beyond(from, x);
        crate::model::exact::lemma_beyond(from, y);
        crate::model::exact::lemma_beyond(from, to);
        lemma_sum_keeps_order(y, to, negated(from));
        let a = difference(x, from);
        let b = difference(y, from);
        let c = difference(to, from);
        assert(a.finite() && b.finite());
        lemma_ranks_as_valued(a, b);
        lemma_quotient_keeps_order(a, b, c);
    }
}

/// What is near stays near along a way of the clip.
proof fn lemma_along_near(from: real, to: real, x: real, y: real, off: real)
    requires
        0 as real <= to - from <= 1 as real,
        -off <= x - y <= off,
    ensures
        -off <= along(from, to, x) - along(from, to, y) <= off,
{
    reveal(along);
    let d = to - from;
    let e = x - y;
    assert(x * d - y * d == (x - y) * d) by (nonlinear_arith);
    lemma_product_no_less(-off, e, d);
    lemma_product_no_less(e, off, d);
    lemma_product_no_less(d, 1 as real, off);
    lemma_product_turns(d, off);
    lemma_ends_of_product(off);
    assert((-off) * d == -(off * d)) by (nonlinear_arith);
}

/// The parameter at which a window cuts the way to a key: there the old ease stands,
/// but for what rounding takes.
proof fn lemma_cut_parameter(from: Number, to: Number, x: Number, p: Number, q: Number)
    requires
        on_clip(from, to),
        exact(to) - exact(from) <= 1 as real,
        x.finite(),
        held(p, 1),
        held(q, 1),
        within(exact(p), exact(q)),
    ensures
        ({
            let s = parameter(p, q, reached(from, to, x));
            let off = 110 as real * grain();
            &&& s.finite()
            &&& 0 as real <= exact(s) <= 1 as real
            &&& -off <= cut_at(from, to, x) - along(
                exact(from),
                exact(to),
                cubic(exact(p), exact(q), exact(s)),
            ) <= off
            &&& x.at_most(from) ==> exact(s) == 0 as real
            &&& !x.at_most(from) && to.at_most(x) ==> exact(s) == 1 as real
        }),
{
    let r = reached(from, to, x);
    lemma_ends();
    lemma_reached(from, to, x);
    lemma_parameter(p, q, r);
    lemma_exact_order(from, to);
    lemma_grains_together(102, 8);
    let s = parameter(p, q, r);
    lemma_along_near(
        exact(from),
        exact(to),
        cubic(exact(p), exact(q), exact(s)),
        exact(r),
        102 as real * grain(),
    );
}

/// A control point of a stretch, spread between ends that are nearly its own.
proof fn lemma_control(
    c: real,
    d: real,
    a: real,
    m: real,
    b: real,
    k: real,
    e: real,
    f: real,
    reach: real,
)
    requires
        -e <= c - a <= e,
        -e <= d - b <= e,
        -reach <= k <= reach,
        -f <= k * (b - a) - (m - a) <= f,
        e >= 0 as real,
        reach >= 0 as real,
    ensures
        ({
            let off = e + reach * (e + e) + f;
            -off <= (c + (d - c) * k) - m <= off
        }),
{
    let u = d - c;
    let v = b - a;
    let w = u - v;
    let g = e + e;
    assert(u * k == k * u) by (nonlinear_arith);
    assert(k * u - k * v == k * (u - v)) by (nonlinear_arith);
    let n = if k < 0 as real {
        -k
    } else {
        k
    };
    assert((-k) * w == -(k * w)) by (nonlinear_arith);
    lemma_product_no_less(-g, w, n);
    lemma_product_no_less(w, g, n);
    lemma_product_turns(w, n);
    lemma_product_turns(g, n);
    assert((-g) * n == -(g * n)) by (nonlinear_arith);
    lemma_product_no_less(n, reach, g);
}

/// A control point, carried along a way.
proof fn lemma_fits_along(
    from: real,
    to: real,
    a: real,
    m: real,
    b: real,
    k: real,
    off: real,
    scale: real,
)
    requires
        fits(k, a, m, b, off),
        -scale <= to - from <= scale,
        off >= 0 as real,
    ensures
        ({
            let all = scale * off;
            let x = along(from, to, a);
            -all <= k * (along(from, to, b) - x) - (along(from, to, m) - x) <= all
        }),
{
    reveal(along);
    let d = to - from;
    let e = k * (b - a) - (m - a);
    assert(b * d - a * d == (b - a) * d) by (nonlinear_arith);
    assert(m * d - a * d == (m - a) * d) by (nonlinear_arith);
    let f = b - a;
    assert(k * (f * d) == (k * f) * d) by (nonlinear_arith);
    let g = k * f;
    let h = m - a;
    assert(g * d - h * d == (g - h) * d) by (nonlinear_arith);
    let n = if d < 0 as real {
        -d
    } else {
        d
    };
    assert(e * (-d) == -(e * d)) by (nonlinear_arith);
    lemma_product_no_less(-off, e, n);
    lemma_product_no_less(e, off, n);
    assert((-off) * n == -(off * n)) by (nonlinear_arith);
    lemma_product_no_less(n, scale, off);
    lemma_product_turns(off, n);
}

/// A curve between ends that are nearly a stretch's own, by control points that are
/// nearly its own, is nearly the stretch.
proof fn lemma_curve_near(
    c: real,
    d: real,
    from: real,
    to: real,
    p: real,
    q: real,
    s: real,
    t: real,
    k: real,
    l: real,
    e: real,
    f: real,
    reach: real,
    x: real,
)
    requires
        0 as real <= x <= 1 as real,
        e >= 0 as real,
        f >= 0 as real,
        reach >= 0 as real,
        -reach <= k <= reach,
        -reach <= l <= reach,
        ({
            let a = along(from, to, blossom(p, q, s, s, s));
            let m = along(from, to, blossom(p, q, s, s, t));
            let n = along(from, to, blossom(p, q, s, t, t));
            let b = along(from, to, blossom(p, q, t, t, t));
            &&& -e <= c - a <= e
            &&& -e <= d - b <= e
            &&& -f <= k * (b - a) - (m - a) <= f
            &&& -f <= l * (b - a) - (n - a) <= f
        }),
    ensures
        ({
            let off = e + reach * (e + e) + f;
            -off <= along(c, d, cubic(k, l, x)) - along(from, to, cubic(p, q, along(s, t, x)))
                <= off
        }),
{
    let a = along(from, to, blossom(p, q, s, s, s));
    let m = along(from, to, blossom(p, q, s, s, t));
    let n = along(from, to, blossom(p, q, s, t, t));
    let b = along(from, to, blossom(p, q, t, t, t));
    lemma_stretch(p, q, s, t, x);
    lemma_casteljau_along(
        from,
        to,
        blossom(p, q, s, s, s),
        blossom(p, q, s, s, t),
        blossom(p, q, s, t, t),
        blossom(p, q, t, t, t),
        x,
    );
    let u = d - c;
    lemma_casteljau_affine(c, u, k, l, x);
    assert(along(c, d, cubic(k, l, x)) == c + u * cubic(k, l, x)) by {
        reveal(along);
        lemma_product_turns(cubic(k, l, x), u);
    }
    lemma_control(c, d, a, m, b, k, e, f, reach);
    lemma_control(c, d, a, n, b, l, e, f, reach);
    let off = e + reach * (e + e) + f;
    lemma_product_no_less(0 as real, reach, e + e);
    lemma_ends_of_product(e + e);
    lemma_casteljau_close(c, c + u * k, c + u * l, d, a, m, n, b, x, off);
}

/// What the ends of the way that is left are: where the window cuts it, or the
/// key's own.
pub open spec fn ends_well(
    keys: Seq<ParamKey>,
    i: int,
    x: Number,
    value: Number,
    slack: real,
) -> bool {
    let (from, to) = (keys[i - 1].at, keys[i].at);
    if x.at_most(from) {
        value == keys[i - 1].value
    } else if to.at_most(x) {
        value == keys[i].value
    } else {
        forall|y: real, w: real| #[trigger]
            on_ride(keys, y, w) && -nearby(keys) <= y - exact(x) <= nearby(keys) ==> -slack
                <= exact(value) - w <= slack
    }
}

/// How far what is left of a curved way strays, beyond what its ends do.
pub open spec fn stray(slack: real, reach: real, swing: real) -> real {
    slack + reach * (slack + slack) + swing * (reach * (0x2000 as real * grain()))
}

/// The value at an end of the way that is left.
proof fn lemma_end_value(
    keys: Seq<ParamKey>,
    i: int,
    x: Number,
    value: Number,
    slack: real,
)
    requires
        playable(keys),
        1 <= i < keys.len(),
        !lined(keys[i].ease),
        x.finite(),
        slack >= 0 as real,
        ends_well(keys, i, x, value, slack),
    ensures
        ({
            let curved = keys[i].ease.made_sane();
            let s = parameter(curved.x1, curved.x2, reached(keys[i - 1].at, keys[i].at, x));
            let w = along(
                exact(keys[i - 1].value),
                exact(keys[i].value),
                cubic(exact(curved.y1), exact(curved.y2), exact(s)),
            );
            -slack <= exact(value) - w <= slack
        }),
{
    let from = keys[i - 1].at;
    let to = keys[i].at;
    let curved = keys[i].ease.made_sane();
    let s = parameter(curved.x1, curved.x2, reached(from, to, x));
    lemma_on_clip(keys, i);
    lemma_sane_curve(keys[i].ease);
    assert(keys[i].valid());
    lemma_cut_parameter(from, to, x, curved.x1, curved.x2);
    lemma_cubic_ends(exact(curved.y1), exact(curved.y2));
    let v = exact(keys[i - 1].value);
    let u = exact(keys[i].value);
    lemma_along_ends(v, u);
    if !x.at_most(from) && !to.at_most(x) {
        let y = along(
            exact(from),
            exact(to),
            cubic(exact(curved.x1), exact(curved.x2), exact(s)),
        );
        let w = along(v, u, cubic(exact(curved.y1), exact(curved.y2), exact(s)));
        assert(on_segment(keys, i - 1, exact(s), y, w));
        assert(on_ride(keys, y, w));
        lemma_more_grains(110, 0x80);
        assert(!all_lined(keys));
    }
}

/// A tame ease, made sane.
pub proof fn lemma_sane_curve(ease: KeyEase)
    requires
        tame(ease),
    ensures
        ({
            let sane = ease.made_sane();
            &&& held(sane.x1, 1) && held(sane.x2, 1)
            &&& within(exact(sane.x1), exact(sane.x2))
            &&& held(sane.y1, 16) && held(sane.y2, 16)
        }),
{
    lemma_ends();
    let sane = ease.made_sane();
    if ease.all_finite() {
        lemma_exact_order(num(ZERO), sane.x1);
        lemma_exact_order(sane.x1, num(ONE));
        lemma_exact_order(num(ZERO), sane.x2);
        lemma_exact_order(sane.x2, num(ONE));
    }
}

/// Whether two neighbours of a carried run lie where the window leaves the way
/// between two old ones.
pub open spec fn in_place(
    keys: Seq<ParamKey>,
    i: int,
    a: Number,
    b: Number,
    here: ParamKey,
    there: ParamKey,
    slack: real,
) -> bool {
    let (from, to) = (keys[i - 1].at, keys[i].at);
    let slip = slip_of(a, b);
    &&& from.less(b) && a.less(to)
    &&& there.ease == cut_ease(keys, i, a, b)
    &&& ends_well(keys, i, a, here.value, slack)
    &&& ends_well(keys, i, b, there.value, slack)
    &&& -slip <= cut_at(from, to, a) - instant(a, b, exact(here.at)) <= slip
    &&& -slip <= cut_at(from, to, b) - instant(a, b, exact(there.at)) <= slip
}

/// Positions between two neighbours of a carried run.
pub proof fn lemma_position(
    a: Number,
    b: Number,
    here: ParamKey,
    there: ParamKey,
    c: real,
    d: real,
    slip: real,
    x: real,
)
    requires
        0 as real <= x <= 1 as real,
        -slip <= c - instant(a, b, exact(here.at)) <= slip,
        -slip <= d - instant(a, b, exact(there.at)) <= slip,
    ensures
        -slip <= along(c, d, x) - instant(a, b, along(exact(here.at), exact(there.at), x)) <= slip,
{
    let u = exact(here.at);
    let v = exact(there.at);
    lemma_nested(exact(a), exact(b), u, v, x);
    lemma_along_close(c, d, instant(a, b, u), instant(a, b, v), x, slip);
}

/// Of a way that is not cut all is left.
proof fn lemma_whole_heard(
    keys: Seq<ParamKey>,
    i: int,
    a: Number,
    b: Number,
    here: ParamKey,
    there: ParamKey,
    slack: real,
    x: real,
)
    requires
        playable(keys),
        1 <= i < keys.len(),
        in_place(keys, i, a, b, here, there, slack),
        a.at_most(keys[i - 1].at),
        keys[i].at.at_most(b),
        slack >= 0 as real,
        0 as real <= x <= 1 as real,
    ensures
        heard(
            keys,
            instant(a, b, along(exact(here.at), exact(there.at), shape_x(there.ease, x))),
            along(exact(here.value), exact(there.value), shape_y(there.ease, x)),
            slip_of(a, b),
            slack,
        ),
{
    let from = keys[i - 1].at;
    let to = keys[i].at;
    let ease = keys[i].ease;
    lemma_on_clip(keys, i);
    assert(!b.at_most(from)) by {
        assert(from.less(b));
    }
    assert(there.ease == ease);
    let s = shape_x(ease, x);
    assert(keys[i].valid());
    if !lined(ease) {
        lemma_sane_curve(ease);
        let sane = ease.made_sane();
        lemma_blossom_range(exact(sane.x1), exact(sane.x2), x, x, x, 0 as real, 1 as real);
    }
    lemma_position(a, b, here, there, exact(from), exact(to), slip_of(a, b), s);
    let y = along(exact(from), exact(to), s);
    let w = along(exact(keys[i - 1].value), exact(keys[i].value), shape_y(ease, x));
    assert(on_segment(keys, i - 1, x, y, w));
    assert(on_ride(keys, y, w));
}

/// What part of a way a position on it is.
pub proof fn lemma_part_at(from: real, to: real, c: real) -> (part: real)
    requires
        from < to,
        from <= c <= to,
    ensures
        0 as real <= part <= 1 as real,
        along(from, to, part) == c,
        c == from ==> part == 0 as real,
        c == to ==> part == 1 as real,
{
    reveal(along);
    let d = to - from;
    let part = (c - from) / d;
    lemma_ratio(c - from, d, part);
    lemma_is_part(c - from, d, part);
    lemma_ends_of_product(d);
    lemma_no_less_before(part, 1 as real, d);
    if c == from {
        lemma_no_less_before(part, 0 as real, d);
    }
    if c == to {
        lemma_no_less_before(1 as real, part, d);
    }
    part
}

/// The value of a straight way at an end of what is left of it.
proof fn lemma_line_end(
    keys: Seq<ParamKey>,
    i: int,
    x: Number,
    value: Number,
    slack: real,
    part: real,
)
    requires
        playable(keys),
        1 <= i < keys.len(),
        lined(keys[i].ease),
        slack >= 0 as real,
        ends_well(keys, i, x, value, slack),
        0 as real <= part <= 1 as real,
        along(exact(keys[i - 1].at), exact(keys[i].at), part) == cut_at(
            keys[i - 1].at,
            keys[i].at,
            x,
        ),
        x.at_most(keys[i - 1].at) ==> part == 0 as real,
        !x.at_most(keys[i - 1].at) && keys[i].at.at_most(x) ==> part == 1 as real,
    ensures
        -slack <= exact(value) - along(exact(keys[i - 1].value), exact(keys[i].value), part)
            <= slack,
{
    let from = keys[i - 1].at;
    let to = keys[i].at;
    let v = exact(keys[i - 1].value);
    let u = exact(keys[i].value);
    lemma_along_ends(v, u);
    if !x.at_most(from) && !to.at_most(x) {
        let w = along(v, u, part);
        assert(on_segment(keys, i - 1, part, exact(x), w));
        assert(on_ride(keys, exact(x), w));
        lemma_grain();
        lemma_more_grains(0, 0x80);
        lemma_ends_of_product(grain());
    }
}

/// Of a straight way what is left is straight.
proof fn lemma_line_heard(
    keys: Seq<ParamKey>,
    i: int,
    a: Number,
    b: Number,
    here: ParamKey,
    there: ParamKey,
    slack: real,
    x: real,
)
    requires
        playable(keys),
        1 <= i < keys.len(),
        a.finite(),
        b.finite(),
        in_place(keys, i, a, b, here, there, slack),
        lined(keys[i].ease),
        slack >= 0 as real,
        0 as real <= x <= 1 as real,
    ensures
        heard(
            keys,
            instant(a, b, along(exact(here.at), exact(there.at), shape_x(there.ease, x))),
            along(exact(here.value), exact(there.value), shape_y(there.ease, x)),
            slip_of(a, b),
            slack,
        ),
{
    let from = keys[i - 1].at;
    let to = keys[i].at;
    lemma_on_clip(keys, i);
    assert(lined(there.ease));
    let c = cut_at(from, to, a);
    let d = cut_at(from, to, b);
    lemma_exact_order(from, a);
    lemma_exact_order(a, to);
    lemma_exact_order(from, b);
    lemma_exact_order(b, to);
    let p = exact(from);
    let q = exact(to);
    let s = lemma_part_at(p, q, c);
    let t = lemma_part_at(p, q, d);
    let v = exact(keys[i - 1].value);
    let u = exact(keys[i].value);
    lemma_line_end(keys, i, a, here.value, slack, s);
    lemma_line_end(keys, i, b, there.value, slack, t);
    let r = along(s, t, x);
    lemma_along_range(s, t, x, 0 as real, 1 as real);
    lemma_nested(p, q, s, t, x);
    lemma_nested(v, u, s, t, x);
    lemma_position(a, b, here, there, c, d, slip_of(a, b), x);
    let y = along(p, q, r);
    let w = along(v, u, r);
    lemma_along_close(
        along(v, u, s),
        along(v, u, t),
        exact(here.value),
        exact(there.value),
        x,
        slack,
    );
    assert(on_segment(keys, i - 1, r, y, w));
    assert(on_ride(keys, y, w));
}

/// A part that is told, as an ease of its own.
proof fn lemma_part_told(
    keys: Seq<ParamKey>,
    i: int,
    a: Number,
    b: Number,
    reach: real,
    swing: real,
)
    requires
        playable(keys),
        1 <= i < keys.len(),
        keys[i - 1].at.less(b),
        a.less(keys[i].at),
        !lined(keys[i].ease),
        told(keys, i, a, b, reach, swing),
        !(a.at_most(keys[i - 1].at) && keys[i].at.at_most(b)),
    ensures
        ({
            let (from, to) = (keys[i - 1].at, keys[i].at);
            let curved = keys[i].ease.made_sane();
            let s = parameter(curved.x1, curved.x2, reached(from, to, a));
            let t = parameter(curved.x1, curved.x2, reached(from, to, b));
            let raw = curved.between(s, t);
            let ease = cut_ease(keys, i, a, b);
            &&& !lined(ease)
            &&& raw.all_finite()
            &&& exact(curved.x1) <= exact(curved.x2) || (in_clip(raw.x1) && in_clip(raw.x2))
            &&& ease.made_sane().x1 == clamped(raw.x1, num(ZERO), num(ONE))
            &&& ease.made_sane().x2 == clamped(raw.x2, num(ZERO), num(ONE))
            &&& ease.made_sane().y1 == raw.y1
            &&& ease.made_sane().y2 == raw.y2
            &&& -reach <= exact(raw.y1) <= reach
            &&& -reach <= exact(raw.y2) <= reach
            &&& -swing <= exact(keys[i].value) - exact(keys[i - 1].value) <= swing
        }),
{
    assert(!b.at_most(keys[i - 1].at));
    assert(!keys[i].at.at_most(a));
    lemma_ends();
}

/// The two parameters of a stretch that a window leaves.
proof fn lemma_stretch_ends(keys: Seq<ParamKey>, i: int, a: Number, b: Number)
    requires
        playable(keys),
        1 <= i < keys.len(),
        a.finite(),
        b.finite(),
        a.less(b),
        !lined(keys[i].ease),
    ensures
        ({
            let (from, to) = (keys[i - 1].at, keys[i].at);
            let curved = keys[i].ease.made_sane();
            let s = parameter(curved.x1, curved.x2, reached(from, to, a));
            let t = parameter(curved.x1, curved.x2, reached(from, to, b));
            &&& s.finite() && t.finite()
            &&& 0 as real <= exact(s) <= exact(t) <= 1 as real
        }),
{
    let from = keys[i - 1].at;
    let to = keys[i].at;
    let curved = keys[i].ease.made_sane();
    assert(keys[i].valid());
    lemma_on_clip(keys, i);
    lemma_sane_curve(keys[i].ease);
    lemma_cut_parameter(from, to, a, curved.x1, curved.x2);
    lemma_cut_parameter(from, to, b, curved.x1, curved.x2);
    lemma_reached(from, to, a);
    lemma_reached(from, to, b);
    lemma_reached_in_order(from, to, a, b);
    lemma_parameters_in_order(curved.x1, curved.x2, reached(from, to, a), reached(from, to, b));
    lemma_exact_order(
        parameter(curved.x1, curved.x2, reached(from, to, a)),
        parameter(curved.x1, curved.x2, reached(from, to, b)),
    );
}

/// Where a curve stands at a parameter of what a window leaves of it.
proof fn lemma_curved_place(
    keys: Seq<ParamKey>,
    i: int,
    a: Number,
    b: Number,
    reach: real,
    swing: real,
    x: real,
)
    requires
        playable(keys),
        1 <= i < keys.len(),
        a.finite(),
        b.finite(),
        a.less(b),
        keys[i - 1].at.less(b),
        a.less(keys[i].at),
        !lined(keys[i].ease),
        told(keys, i, a, b, reach, swing),
        !(a.at_most(keys[i - 1].at) && keys[i].at.at_most(b)),
        0 as real <= x <= 1 as real,
    ensures
        ({
            let (from, to) = (keys[i - 1].at, keys[i].at);
            let curved = keys[i].ease.made_sane();
            let s = exact(parameter(curved.x1, curved.x2, reached(from, to, a)));
            let t = exact(parameter(curved.x1, curved.x2, reached(from, to, b)));
            let off = 0x400 as real * grain();
            let place = shape_x(cut_ease(keys, i, a, b), x);
            &&& 0 as real <= place <= 1 as real
            &&& -off <= along(cut_at(from, to, a), cut_at(from, to, b), place) - along(
                exact(from),
                exact(to),
                cubic(exact(curved.x1), exact(curved.x2), along(s, t, x)),
            ) <= off
        }),
{
    let from = keys[i - 1].at;
    let to = keys[i].at;
    let curved = keys[i].ease.made_sane();
    let first = parameter(curved.x1, curved.x2, reached(from, to, a));
    let second = parameter(curved.x1, curved.x2, reached(from, to, b));
    let s = exact(first);
    let t = exact(second);
    let raw = curved.between(first, second);
    let ease = cut_ease(keys, i, a, b);
    let p = exact(curved.x1);
    let q = exact(curved.x2);
    assert(keys[i].valid());
    lemma_on_clip(keys, i);
    lemma_sane_curve(keys[i].ease);
    lemma_part_told(keys, i, a, b, reach, swing);
    lemma_stretch_ends(keys, i, a, b);
    lemma_cut_parameter(from, to, a, curved.x1, curved.x2);
    lemma_cut_parameter(from, to, b, curved.x1, curved.x2);
    lemma_width_fits(curved.x1, curved.x2, first, first, second);
    lemma_width_fits(curved.x1, curved.x2, first, second, second);
    let k = exact(ease.made_sane().x1);
    let l = exact(ease.made_sane().x2);
    let e = 110 as real * grain();
    let f = 450 as real * grain();
    let o = 1 as real;
    lemma_grain();
    lemma_more_grains(0, 110);
    lemma_more_grains(0, 450);
    lemma_ends_of_product(grain());
    lemma_ends_of_product(f);
    lemma_ends_of_product(e + e);
    lemma_fits_along(
        exact(from),
        exact(to),
        blossom(p, q, s, s, s),
        blossom(p, q, s, s, t),
        blossom(p, q, t, t, t),
        k,
        f,
        o,
    );
    lemma_fits_along(
        exact(from),
        exact(to),
        blossom(p, q, s, s, s),
        blossom(p, q, s, t, t),
        blossom(p, q, t, t, t),
        l,
        f,
        o,
    );
    lemma_curve_near(
        cut_at(from, to, a),
        cut_at(from, to, b),
        exact(from),
        exact(to),
        p,
        q,
        s,
        t,
        k,
        l,
        e,
        f,
        o,
        x,
    );
    lemma_grains_together(110, 110);
    lemma_grains_together(110, 220);
    lemma_grains_together(330, 450);
    lemma_more_grains(780, 0x400);
    lemma_blossom_range(k, l, x, x, x, 0 as real, o);
}

/// How high a curve stands at a parameter of what a window leaves of it.
proof fn lemma_curved_value(
    keys: Seq<ParamKey>,
    i: int,
    a: Number,
    b: Number,
    here: Number,
    there: Number,
    slack: real,
    reach: real,
    swing: real,
    x: real,
)
    requires
        playable(keys),
        1 <= i < keys.len(),
        a.finite(),
        b.finite(),
        a.less(b),
        keys[i - 1].at.less(b),
        a.less(keys[i].at),
        !lined(keys[i].ease),
        told(keys, i, a, b, reach, swing),
        !(a.at_most(keys[i - 1].at) && keys[i].at.at_most(b)),
        ends_well(keys, i, a, here, slack),
        ends_well(keys, i, b, there, slack),
        slack >= 0 as real,
        reach >= 1 as real,
        0 as real <= x <= 1 as real,
    ensures
        ({
            let (from, to) = (keys[i - 1].at, keys[i].at);
            let curved = keys[i].ease.made_sane();
            let s = exact(parameter(curved.x1, curved.x2, reached(from, to, a)));
            let t = exact(parameter(curved.x1, curved.x2, reached(from, to, b)));
            let off = stray(slack, reach, swing);
            -off <= along(
                exact(here),
                exact(there),
                shape_y(cut_ease(keys, i, a, b), x),
            ) - along(
                exact(keys[i - 1].value),
                exact(keys[i].value),
                cubic(exact(curved.y1), exact(curved.y2), along(s, t, x)),
            ) <= off
        }),
{
    let from = keys[i - 1].at;
    let to = keys[i].at;
    let curved = keys[i].ease.made_sane();
    let first = parameter(curved.x1, curved.x2, reached(from, to, a));
    let second = parameter(curved.x1, curved.x2, reached(from, to, b));
    let s = exact(first);
    let t = exact(second);
    let ease = cut_ease(keys, i, a, b);
    let p = exact(curved.y1);
    let q = exact(curved.y2);
    assert(keys[i].valid());
    lemma_sane_curve(keys[i].ease);
    lemma_part_told(keys, i, a, b, reach, swing);
    lemma_stretch_ends(keys, i, a, b);
    lemma_end_value(keys, i, a, here, slack);
    lemma_end_value(keys, i, b, there, slack);
    lemma_height_fits(curved.y1, curved.y2, first, first, second, reach);
    lemma_height_fits(curved.y1, curved.y2, first, second, second, reach);
    let k = exact(ease.made_sane().y1);
    let l = exact(ease.made_sane().y2);
    let v = exact(keys[i - 1].value);
    let u = exact(keys[i].value);
    let g = 0x2000 as real * grain();
    let rest = reach * g;
    lemma_grain();
    lemma_more_grains(0, 0x2000);
    lemma_ends_of_product(grain());
    lemma_product_no_less(0 as real, reach, g);
    lemma_ends_of_product(g);
    lemma_ends_of_product(rest);
    lemma_product_no_less(0 as real, swing, rest);
    lemma_fits_along(
        v,
        u,
        blossom(p, q, s, s, s),
        blossom(p, q, s, s, t),
        blossom(p, q, t, t, t),
        k,
        rest,
        swing,
    );
    lemma_fits_along(
        v,
        u,
        blossom(p, q, s, s, s),
        blossom(p, q, s, t, t),
        blossom(p, q, t, t, t),
        l,
        rest,
        swing,
    );
    lemma_curve_near(
        exact(here),
        exact(there),
        v,
        u,
        p,
        q,
        s,
        t,
        k,
        l,
        slack,
        swing * rest,
        reach,
        x,
    );
}

/// By how much more than `slip_of` a curve may slip.
pub open spec fn slip_on(keys: Seq<ParamKey>, a: Number, b: Number) -> real {
    if all_lined(keys) {
        slip_of(a, b)
    } else {
        slip_of(a, b) + 0x400 as real * grain()
    }
}

/// By how much the values may stray.
pub open spec fn slack_on(keys: Seq<ParamKey>, slack: real, reach: real, swing: real) -> real {
    if all_lined(keys) {
        slack
    } else {
        stray(slack, reach, swing)
    }
}

/// What is allowed is no less than the slips and the slack of straight keys.
pub proof fn lemma_allowed(
    keys: Seq<ParamKey>,
    a: Number,
    b: Number,
    slack: real,
    reach: real,
    swing: real,
)
    requires
        slack >= 0 as real,
        reach >= 1 as real,
        swing >= 0 as real,
    ensures
        slip_of(a, b) + nearby(keys) <= slip_on(keys, a, b),
        slack <= slack_on(keys, slack, reach, swing),
        nearby(keys) >= 0 as real,
{
    lemma_grain();
    lemma_more_grains(0, 0x80);
    lemma_more_grains(0x80, 0x400);
    lemma_ends_of_product(grain());
    let g = 0x2000 as real * grain();
    lemma_more_grains(0, 0x2000);
    lemma_product_no_less(0 as real, reach, g);
    lemma_ends_of_product(g);
    let rest = reach * g;
    lemma_product_no_less(0 as real, swing, rest);
    lemma_ends_of_product(rest);
    lemma_product_no_less(0 as real, reach, slack + slack);
    lemma_ends_of_product(slack + slack);
}

/// What the window leaves of the way between two old keys plays what that stretch
/// of it did.
pub proof fn lemma_way_heard(
    keys: Seq<ParamKey>,
    i: int,
    a: Number,
    b: Number,
    here: ParamKey,
    there: ParamKey,
    slack: real,
    reach: real,
    swing: real,
    x: real,
)
    requires
        playable(keys),
        1 <= i < keys.len(),
        a.finite(),
        b.finite(),
        a.less(b),
        in_place(keys, i, a, b, here, there, slack),
        told(keys, i, a, b, reach, swing),
        slack >= 0 as real,
        reach >= 1 as real,
        swing >= 0 as real,
        0 as real <= x <= 1 as real,
    ensures
        heard(
            keys,
            instant(a, b, along(exact(here.at), exact(there.at), shape_x(there.ease, x))),
            along(exact(here.value), exact(there.value), shape_y(there.ease, x)),
            slip_on(keys, a, b),
            slack_on(keys, slack, reach, swing),
        ),
{
    let from = keys[i - 1].at;
    let to = keys[i].at;
    let at = instant(a, b, along(exact(here.at), exact(there.at), shape_x(there.ease, x)));
    let value = along(exact(here.value), exact(there.value), shape_y(there.ease, x));
    lemma_allowed(keys, a, b, slack, reach, swing);
    if lined(keys[i].ease) {
        lemma_line_heard(keys, i, a, b, here, there, slack, x);
        lemma_more_heard(
            keys,
            at,
            value,
            slip_of(a, b),
            slack,
            slip_on(keys, a, b),
            slack_on(keys, slack, reach, swing),
        );
    } else if a.at_most(from) && to.at_most(b) {
        lemma_whole_heard(keys, i, a, b, here, there, slack, x);
        lemma_more_heard(
            keys,
            at,
            value,
            slip_of(a, b),
            slack,
            slip_on(keys, a, b),
            slack_on(keys, slack, reach, swing),
        );
    } else {
        let curved = keys[i].ease.made_sane();
        let s = exact(parameter(curved.x1, curved.x2, reached(from, to, a)));
        let t = exact(parameter(curved.x1, curved.x2, reached(from, to, b)));
        lemma_stretch_ends(keys, i, a, b);
        lemma_curved_place(keys, i, a, b, reach, swing, x);
        lemma_curved_value(keys, i, a, b, here.value, there.value, slack, reach, swing, x);
        let place = shape_x(there.ease, x);
        lemma_position(
            a,
            b,
            here,
            there,
            cut_at(from, to, a),
            cut_at(from, to, b),
            slip_of(a, b),
            place,
        );
        let r = along(s, t, x);
        lemma_along_range(s, t, x, 0 as real, 1 as real);
        let y = along(exact(from), exact(to), cubic(exact(curved.x1), exact(curved.x2), r));
        let w = along(
            exact(keys[i - 1].value),
            exact(keys[i].value),
            cubic(exact(curved.y1), exact(curved.y2), r),
        );
        assert(on_segment(keys, i - 1, r, y, w));
        assert(on_ride(keys, y, w));
        assert(!all_lined(keys));
    }
}

/// What is heard is heard where more is allowed.
pub proof fn lemma_more_heard(
    keys: Seq<ParamKey>,
    at: real,
    value: real,
    slip: real,
    slack: real,
    more: real,
    loose: real,
)
    requires
        heard(keys, at, value, slip, slack),
        slip <= more,
        slack <= loose,
    ensures
        heard(keys, at, value, more, loose),
{
}

/// What a ride is worth at a position between two keys, or near it.
pub proof fn lemma_found_near(keys: Seq<ParamKey>, i: int, at: Number) -> (found: (real, real))
    requires
        playable(keys),
        1 <= i < keys.len(),
        at.finite(),
        keys[i - 1].at.at_most(at),
        at.at_most(keys[i].at),
    ensures
        on_ride(keys, found.0, found.1),
        -nearby(keys) <= found.0 - exact(at) <= nearby(keys),
{
    let from = keys[i - 1].at;
    let to = keys[i].at;
    let v = exact(keys[i - 1].value);
    let u = exact(keys[i].value);
    lemma_on_clip(keys, i);
    lemma_exact_order(from, at);
    lemma_exact_order(at, from);
    lemma_exact_order(at, to);
    lemma_exact_order(to, at);
    lemma_grain();
    lemma_more_grains(0, 0x80);
    lemma_more_grains(110, 0x80);
    lemma_ends_of_product(grain());
    if lined(keys[i].ease) {
        let s = lemma_part_at(exact(from), exact(to), exact(at));
        assert(on_segment(keys, i - 1, s, exact(at), along(v, u, s)));
        (exact(at), along(v, u, s))
    } else {
        let curved = keys[i].ease.made_sane();
        assert(keys[i].valid());
        lemma_sane_curve(keys[i].ease);
        lemma_cut_parameter(from, to, at, curved.x1, curved.x2);
        let s = exact(parameter(curved.x1, curved.x2, reached(from, to, at)));
        let y = along(exact(from), exact(to), cubic(exact(curved.x1), exact(curved.x2), s));
        let w = along(v, u, cubic(exact(curved.y1), exact(curved.y2), s));
        assert(on_segment(keys, i - 1, s, y, w));
        assert(cut_at(from, to, at) == exact(at));
        (y, w)
    }
}

} // verus!
