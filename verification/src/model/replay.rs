//! That a run of keys plays the same once it is carried onto a window of its old
//! length.

use crate::model::bezier::{lemma_blossom_range, lemma_cubic_ends};
use crate::model::echo::{
    in_place, lemma_allowed, lemma_found_near, lemma_position, lemma_sane_curve, lemma_way_heard,
    slack_on, slip_on, stray,
};
use crate::model::exact::{
    along, exact, instant, lemma_along_close, lemma_along_ends, lemma_ends, lemma_ends_of_product,
    lemma_exact_order, lemma_near_place, lemma_product_no_less, lemma_product_turns, open_window,
    slip_of,
};
use crate::model::keys::ParamKey;
use crate::model::nearly::{grain, lemma_grain, lemma_more_grains};
use crate::model::playing::{
    all_lined, clear, draws, heard, lined, nearby, on_ride, on_segment, playable, shape_x, shape_y,
    tame, told,
};
use crate::model::ride::{
    after_window, before_window, cut_ease, cut_keys, lead_ease, lead_keys, opening_ease, rewindowed,
    shifted, Ride,
};
use crate::number::{
    difference, lemma_sum_grows, lemma_units_monotonic, num, sum, Number, ONE, ZERO,
};
use crate::order::Ranked;
use crate::ranges::KEY_EPSILON;
use crate::rounding::lemma_difference_no_more;
use vstd::prelude::*;

verus! {

/// Whether a run can be carried onto a window so that it plays the same: its keys
/// can be played and stand clear of the window's edges, the engine plays what they
/// draw at both edges, and of each way that is cut what is left can be told.
pub open spec fn carries(
    keys: Seq<ParamKey>,
    a: Number,
    b: Number,
    ride: Ride,
    rest: Number,
    slack: real,
    reach: real,
    swing: real,
) -> bool {
    &&& playable(keys)
    &&& open_window(a, b)
    &&& slack >= 0 as real
    &&& reach >= 8 as real
    &&& swing >= 0 as real
    &&& forall|i: int| 0 <= i < keys.len() ==> clear(#[trigger] keys[i], a, b)
    &&& forall|i: int| 1 <= i < keys.len() ==> #[trigger] told(keys, i, a, b, reach, swing)
    &&& draws(ride, keys, a, rest, slack)
    &&& draws(ride, keys, b, rest, slack)
}

/// Where a list stops that is picked from the front on.
proof fn lemma_front<T>(s: Seq<T>, pred: spec_fn(T) -> bool) -> (m: int)
    requires
        forall|i: int, j: int|
            0 <= i < j < s.len() && pred(#[trigger] s[j]) ==> pred(#[trigger] s[i]),
    ensures
        0 <= m <= s.len(),
        forall|i: int| 0 <= i < s.len() ==> pred(#[trigger] s[i]) == (i < m),
    decreases s.len(),
{
    if s.len() == 0 {
        0
    } else if pred(s[s.len() - 1]) {
        s.len() as int
    } else {
        let d = s.drop_last();
        assert forall|i: int, j: int| 0 <= i < j < d.len() && pred(#[trigger] d[j]) implies pred(
            #[trigger] d[i],
        ) by {
            assert(d[i] == s[i] && d[j] == s[j]);
        }
        let m = lemma_front(d, pred);
        assert forall|i: int| 0 <= i < s.len() implies pred(#[trigger] s[i]) == (i < m) by {
            if i < d.len() {
                assert(d[i] == s[i]);
            }
        }
        m
    }
}

/// What is picked from one place to another is that stretch.
proof fn lemma_filter_stretch<T>(s: Seq<T>, pred: spec_fn(T) -> bool, m: int, n: int)
    requires
        0 <= m <= n <= s.len(),
        forall|i: int| 0 <= i < s.len() ==> pred(#[trigger] s[i]) == (m <= i < n),
    ensures
        s.filter(pred) == s.subrange(m, n),
    decreases s.len(),
{
    reveal(Seq::filter);
    if s.len() == 0 {
        assert(s.filter(pred) =~= s.subrange(m, n));
    } else {
        let d = s.drop_last();
        let k = s.len() - 1;
        let to = if n <= k {
            n
        } else {
            k
        };
        let from = if m <= to {
            m
        } else {
            to
        };
        assert forall|i: int| 0 <= i < d.len() implies pred(#[trigger] d[i]) == (from <= i < to) by {
            assert(d[i] == s[i]);
        }
        lemma_filter_stretch(d, pred, from, to);
        assert(pred(s[k]) == (m <= k < n));
        if pred(s[k]) {
            assert(d.subrange(from, to).push(s[k]) =~= s.subrange(m, n));
        } else {
            assert(d.subrange(from, to) =~= s.subrange(m, n));
        }
    }
}

/// Whether keys stand before a window up to the `m`th, and after it from the `n`th.
pub open spec fn parted(keys: Seq<ParamKey>, a: Number, b: Number, m: int, n: int) -> bool {
    &&& 0 <= m <= n <= keys.len()
    &&& forall|i: int| 0 <= i < keys.len() ==> before_window(#[trigger] keys[i], a) == (i < m)
    &&& forall|i: int| 0 <= i < keys.len() ==> after_window(#[trigger] keys[i], b) == (i >= n)
    &&& forall|i: int| 0 <= i < m ==> (#[trigger] keys[i]).at.less(a)
    &&& forall|i: int|
        m <= i < n ==> a.at_most((#[trigger] keys[i]).at) && keys[i].at.at_most(b)
    &&& forall|i: int| n <= i < keys.len() ==> b.less((#[trigger] keys[i]).at)
}

/// Keys in order stand before a window, in it and after it, in that order.
pub proof fn lemma_three_parts(keys: Seq<ParamKey>, a: Number, b: Number) -> (parts: (int, int))
    requires
        playable(keys),
        open_window(a, b),
        forall|i: int| 0 <= i < keys.len() ==> clear(#[trigger] keys[i], a, b),
    ensures
        parted(keys, a, b, parts.0, parts.1),
{
    let open = difference(a, num(KEY_EPSILON));
    let close = sum(b, num(KEY_EPSILON));
    lemma_units_monotonic(0, KEY_EPSILON as nat);
    lemma_difference_no_more(a, num(KEY_EPSILON));
    lemma_sum_grows(b, num(KEY_EPSILON));
    assert(open.at_most(a));
    assert(b.at_most(close));
    assert forall|i: int, j: int| 0 <= i < j < keys.len() implies (#[trigger] keys[i]).at.rank()
        < (#[trigger] keys[j]).at.rank() by {
        assert(keys[i].at.less(keys[j].at));
    }
    let early = |k: ParamKey| before_window(k, a);
    let not_late = |k: ParamKey| !after_window(k, b);
    let m = lemma_front(keys, early);
    let n = lemma_front(keys, not_late);
    assert forall|i: int| 0 <= i < keys.len() implies before_window(#[trigger] keys[i], a) == (i
        < m) && after_window(keys[i], b) == (i >= n) by {
        assert(early(keys[i]) == (i < m));
        assert(not_late(keys[i]) == (i < n));
        assert(keys[i].valid());
    }
    assert(m <= n) by {
        if m > n {
            assert(before_window(keys[n], a) && after_window(keys[n], b));
        }
    }
    (m, n)
}

/// How many keys stand for those beyond an edge.
pub open spec fn heads(beyond: int) -> int {
    if beyond > 0 {
        1
    } else {
        0
    }
}

/// A re-anchored run, part by part.
pub proof fn lemma_new_run(
    keys: Seq<ParamKey>,
    a: Number,
    b: Number,
    ride: Ride,
    rest: Number,
    m: int,
    n: int,
)
    requires
        parted(keys, a, b, m, n),
    ensures
        ({
            let new = rewindowed(keys, a, b, ride, rest);
            let cut = cut_keys(keys, a, b);
            let h = heads(m);
            &&& new.len() == h + (n - m) + heads(keys.len() - n)
            &&& m > 0 ==> new[0].at == num(ZERO) && new[0].value == ride(keys, a, rest)
            &&& forall|k: int|
                h <= k < h + (n - m) ==> #[trigger] new[k] == shifted(cut[k - h + m], a, b)
            &&& n < keys.len() ==> new.last().at == num(ONE) && new.last().value == ride(
                keys,
                b,
                rest,
            ) && new.last().ease == cut_ease(keys, n, a, b)
        }),
{
    let cut = cut_keys(keys, a, b);
    assert forall|i: int| 0 <= i < cut.len() implies before_window(#[trigger] cut[i], a) == (i < m)
        && after_window(cut[i], b) == (i >= n) by {
        assert(cut[i].at == keys[i].at);
        assert(before_window(keys[i], a) == (i < m));
    }
    lemma_filter_stretch(
        cut,
        |k: ParamKey| !before_window(k, a) && !after_window(k, b),
        m,
        n,
    );
    lemma_filter_stretch(
        cut,
        |k: ParamKey| !before_window(k, a) && after_window(k, b),
        n,
        cut.len() as int,
    );
    assert(m > 0 ==> before_window(keys[0], a));
}

pub proof fn lemma_slip(a: Number, b: Number)
    requires
        open_window(a, b),
    ensures
        slip_of(a, b) >= 0 as real,
        exact(a) < exact(b),
        instant(a, b, 0 as real) == exact(a),
        instant(a, b, 1 as real) == exact(b),
{
    lemma_exact_order(a, b);
    let k = 0x4_0000_0000_0000int as real;
    let d = exact(b) - exact(a);
    assert(d / k >= 0 as real) by (nonlinear_arith)
        requires
            d >= 0 as real,
            k > 0 as real,
    ;
    lemma_along_ends(exact(a), exact(b));
}

/// A key's own place is on the ride.
proof fn lemma_on_key(keys: Seq<ParamKey>, i: int)
    requires
        0 <= i < keys.len(),
    ensures
        on_ride(keys, exact(keys[i].at), exact(keys[i].value)),
{
    if i > 0 {
        let o = 1 as real;
        let sane = keys[i].ease.made_sane();
        lemma_cubic_ends(exact(sane.x1), exact(sane.x2));
        lemma_cubic_ends(exact(sane.y1), exact(sane.y2));
        lemma_along_ends(exact(keys[i - 1].at), exact(keys[i].at));
        lemma_along_ends(exact(keys[i - 1].value), exact(keys[i].value));
        assert(on_segment(keys, i - 1, o, exact(keys[i].at), exact(keys[i].value)));
    }
}

/// Something small, some times over.
proof fn lemma_times_over(u: real, k: real, slack: real, top: real)
    requires
        -slack <= u <= slack,
        -top <= k <= top,
    ensures
        -(top * slack) <= k * u <= top * slack,
{
    let n = if k < 0 as real {
        -k
    } else {
        k
    };
    assert((-k) * u == -(k * u)) by (nonlinear_arith);
    lemma_product_no_less(-slack, u, n);
    lemma_product_no_less(u, slack, n);
    lemma_product_turns(u, n);
    lemma_product_turns(slack, n);
    assert((-slack) * n == -(slack * n)) by (nonlinear_arith);
    lemma_product_no_less(n, top, slack);
}

/// Between two values one of which is right, and the other nearly.
proof fn lemma_all_but(here: real, there: real, value: real, y: real, slack: real)
    requires
        -slack <= value - here <= slack,
        -slack <= value - there <= slack,
        value == here || value == there,
        -(16 as real) <= y <= 16 as real,
        slack >= 0 as real,
    ensures
        -(17 as real * slack) <= value - along(here, there, y) <= 17 as real * slack,
{
    reveal(along);
    let d = there - here;
    lemma_product_turns(d, y);
    lemma_times_over(d, y, slack, 16 as real);
}

/// Two new keys at one old one, where the window's edge falls on it.
proof fn lemma_joint_heard(
    keys: Seq<ParamKey>,
    i: int,
    a: Number,
    b: Number,
    here: ParamKey,
    there: ParamKey,
    slack: real,
    reach: real,
    swing: real,
    x: real,
)
    requires
        0 <= i < keys.len(),
        0 as real <= x <= 1 as real,
        slack >= 0 as real,
        reach >= 8 as real,
        swing >= 0 as real,
        lined(there.ease) || (tame(there.ease) && !all_lined(keys)),
        here.value == keys[i].value || there.value == keys[i].value,
        ({
            let slip = slip_of(a, b);
            let at = exact(keys[i].at);
            let value = exact(keys[i].value);
            &&& -slip <= at - instant(a, b, exact(here.at)) <= slip
            &&& -slip <= at - instant(a, b, exact(there.at)) <= slip
            &&& -slack <= value - exact(here.value) <= slack
            &&& -slack <= value - exact(there.value) <= slack
        }),
    ensures
        heard(
            keys,
            instant(a, b, along(exact(here.at), exact(there.at), shape_x(there.ease, x))),
            along(exact(here.value), exact(there.value), shape_y(there.ease, x)),
            slip_on(keys, a, b),
            slack_on(keys, slack, reach, swing),
        ),
{
    let at = exact(keys[i].at);
    let value = exact(keys[i].value);
    lemma_on_key(keys, i);
    lemma_allowed(keys, a, b, slack, reach, swing);
    let place = shape_x(there.ease, x);
    let height = shape_y(there.ease, x);
    if lined(there.ease) {
        lemma_along_close(value, value, exact(here.value), exact(there.value), x, slack);
        lemma_along_still(value, x);
    } else {
        let sane = there.ease.made_sane();
        lemma_sane_curve(there.ease);
        let low = -(16 as real);
        let high = 16 as real;
        lemma_blossom_range(exact(sane.x1), exact(sane.x2), x, x, x, 0 as real, 1 as real);
        lemma_blossom_range(exact(sane.y1), exact(sane.y2), x, x, x, low, high);
        lemma_all_but(exact(here.value), exact(there.value), value, height, slack);
        lemma_overshoot(slack, reach, swing);
    }
    lemma_position(a, b, here, there, at, at, slip_of(a, b), place);
    lemma_along_still(at, place);
}

/// What a curve may overshoot is allowed for.
proof fn lemma_overshoot(slack: real, reach: real, swing: real)
    requires
        slack >= 0 as real,
        reach >= 8 as real,
        swing >= 0 as real,
    ensures
        17 as real * slack <= stray(slack, reach, swing),
{
    let g = 0x2000 as real * grain();
    lemma_grain();
    lemma_more_grains(0, 0x2000);
    lemma_ends_of_product(grain());
    lemma_ends_of_product(g);
    lemma_product_no_less(0 as real, reach, g);
    let rest = reach * g;
    lemma_ends_of_product(rest);
    lemma_product_no_less(0 as real, swing, rest);
    lemma_product_no_less(8 as real, reach, slack + slack);
}

/// From a value to itself all the way is that value.
proof fn lemma_along_still(v: real, x: real)
    ensures
        along(v, v, x) == v,
{
    reveal(along);
    let z = 0 as real;
    assert(x * z == z) by (nonlinear_arith)
        requires
            z == 0 as real,
    ;
}

/// The way between two new neighbours.
proof fn lemma_neighbours_heard(
    keys: Seq<ParamKey>,
    a: Number,
    b: Number,
    ride: Ride,
    rest: Number,
    slack: real,
    reach: real,
    swing: real,
    m: int,
    n: int,
    k: int,
    x: real,
)
    requires
        carries(keys, a, b, ride, rest, slack, reach, swing),
        parted(keys, a, b, m, n),
        0 <= k < rewindowed(keys, a, b, ride, rest).len() - 1,
        0 as real <= x <= 1 as real,
    ensures
        ({
            let new = rewindowed(keys, a, b, ride, rest);
            heard(
                keys,
                instant(
                    a,
                    b,
                    along(exact(new[k].at), exact(new[k + 1].at), shape_x(new[k + 1].ease, x)),
                ),
                along(
                    exact(new[k].value),
                    exact(new[k + 1].value),
                    shape_y(new[k + 1].ease, x),
                ),
                slip_on(keys, a, b),
                slack_on(keys, slack, reach, swing),
            )
        }),
{
    let new = rewindowed(keys, a, b, ride, rest);
    let cut = cut_keys(keys, a, b);
    lemma_new_run(keys, a, b, ride, rest, m, n);
    lemma_ends();
    lemma_slip(a, b);
    lemma_allowed(keys, a, b, slack, reach, swing);
    let h = heads(m);
    let i = if k < h {
        m
    } else {
        m + k - h + 1
    };
    assert(1 <= i < keys.len());
    let here = new[k];
    let there = new[k + 1];
    let from = keys[i - 1];
    let to = keys[i];
    assert(from.valid() && to.valid());
    assert(from.at.less(to.at));
    if k >= h {
        assert(new[i - 1 - m + h] == shifted(cut[i - 1], a, b));
        lemma_near_place(cut[i - 1], a, b);
    }
    if i < n {
        assert(new[i - m + h] == shifted(cut[i], a, b));
        assert(k + 1 == i - m + h);
        lemma_near_place(cut[i], a, b);
    } else {
        assert(k + 1 == new.len() - 1);
    }
    if to.at.at_most(a) {
        lemma_exact_order(to.at, a);
        lemma_exact_order(a, to.at);
        lemma_on_key(keys, i);
        lemma_joint_heard(keys, i, a, b, here, there, slack, reach, swing, x);
    } else if b.at_most(from.at) {
        lemma_exact_order(from.at, b);
        lemma_exact_order(b, from.at);
        lemma_on_key(keys, i - 1);
        lemma_joint_heard(keys, i - 1, a, b, here, there, slack, reach, swing, x);
    } else {
        assert(told(keys, i, a, b, reach, swing));
        assert(in_place(keys, i, a, b, here, there, slack));
        lemma_way_heard(keys, i, a, b, here, there, slack, reach, swing, x);
    }
}

/// A part further on is an instant no earlier.
pub proof fn lemma_instants_in_order(a: Number, b: Number, p: real, q: real)
    requires
        exact(a) <= exact(b),
        p <= q,
    ensures
        instant(a, b, p) <= instant(a, b, q),
{
    reveal(along);
    let d = exact(b) - exact(a);
    assert(p * d <= q * d) by (nonlinear_arith)
        requires
            p <= q,
            d >= 0 as real,
    ;
}

/// What the engine answers at an edge is heard there.
proof fn lemma_edge_heard(
    keys: Seq<ParamKey>,
    at: Number,
    ride: Ride,
    rest: Number,
    slack: real,
    m: int,
)
    requires
        playable(keys),
        at.finite(),
        0 < m <= keys.len(),
        keys[m - 1].at.at_most(at),
        m < keys.len() ==> at.at_most(keys[m].at),
        draws(ride, keys, at, rest, slack),
        nearby(keys) >= 0 as real,
    ensures
        heard(keys, exact(at), exact(ride(keys, at, rest)), nearby(keys), slack),
{
    assert(keys[m - 1].valid());
    lemma_exact_order(keys[m - 1].at, at);
    if m == keys.len() {
        assert(on_ride(keys, exact(at), exact(keys.last().value)));
    } else {
        let (y, w) = lemma_found_near(keys, m, at);
        assert(on_ride(keys, y, w));
    }
}

/// Up to the first new key.
proof fn lemma_heard_first(
    keys: Seq<ParamKey>,
    a: Number,
    b: Number,
    ride: Ride,
    rest: Number,
    slack: real,
    reach: real,
    swing: real,
    part: real,
    m: int,
    n: int,
)
    requires
        carries(keys, a, b, ride, rest, slack, reach, swing),
        parted(keys, a, b, m, n),
        0 as real <= part <= 1 as real,
        part <= exact(rewindowed(keys, a, b, ride, rest)[0].at),
    ensures
        heard(
            keys,
            instant(a, b, part),
            exact(rewindowed(keys, a, b, ride, rest)[0].value),
            slip_on(keys, a, b),
            slack_on(keys, slack, reach, swing),
        ),
{
    let new = rewindowed(keys, a, b, ride, rest);
    let cut = cut_keys(keys, a, b);
    lemma_new_run(keys, a, b, ride, rest, m, n);
    lemma_ends();
    lemma_slip(a, b);
    lemma_allowed(keys, a, b, slack, reach, swing);
    let x = instant(a, b, part);
    assert(keys[0].valid());
    if m > 0 {
        if m < keys.len() {
            assert(a.at_most(keys[m].at));
        }
        assert(keys[m - 1].at.less(a));
        lemma_edge_heard(keys, a, ride, rest, slack, m);
        assert(part == 0 as real);
    } else if n > 0 {
        assert(new[0 - m + 0] == shifted(cut[0], a, b));
        lemma_near_place(cut[0], a, b);
        lemma_instants_in_order(a, b, part, exact(new[0].at));
        let t = if x <= exact(keys[0].at) {
            x
        } else {
            exact(keys[0].at)
        };
        assert(on_ride(keys, t, exact(keys[0].value)));
    } else {
        lemma_instants_in_order(a, b, part, 1 as real);
        assert(new[0] == new.last());
        assert(b.less(keys[0].at));
        lemma_exact_order(b, keys[0].at);
        assert(on_ride(keys, x, exact(keys[0].value)));
        assert(on_ride(keys, exact(b), exact(keys[0].value)));
    }
}

/// From the last new key on.
proof fn lemma_heard_last(
    keys: Seq<ParamKey>,
    a: Number,
    b: Number,
    ride: Ride,
    rest: Number,
    slack: real,
    reach: real,
    swing: real,
    part: real,
    m: int,
    n: int,
)
    requires
        carries(keys, a, b, ride, rest, slack, reach, swing),
        parted(keys, a, b, m, n),
        0 as real <= part <= 1 as real,
        part >= exact(rewindowed(keys, a, b, ride, rest).last().at),
    ensures
        heard(
            keys,
            instant(a, b, part),
            exact(rewindowed(keys, a, b, ride, rest).last().value),
            slip_on(keys, a, b),
            slack_on(keys, slack, reach, swing),
        ),
{
    let new = rewindowed(keys, a, b, ride, rest);
    let cut = cut_keys(keys, a, b);
    let top = keys.len() - 1;
    lemma_new_run(keys, a, b, ride, rest, m, n);
    lemma_ends();
    lemma_slip(a, b);
    lemma_allowed(keys, a, b, slack, reach, swing);
    let x = instant(a, b, part);
    assert(keys[top].valid());
    if n < keys.len() {
        assert(part == 1 as real);
        assert(b.less(keys[n].at));
        if n > 0 {
            assert(keys[n - 1].at.at_most(b));
            lemma_edge_heard(keys, b, ride, rest, slack, n);
        } else {
            assert(keys[0].valid());
            lemma_exact_order(b, keys[0].at);
            assert(on_ride(keys, exact(b), exact(keys[0].value)));
        }
    } else if m < n {
        let h = heads(m);
        assert(new[top - m + h] == shifted(cut[top], a, b));
        lemma_near_place(cut[top], a, b);
        lemma_instants_in_order(a, b, exact(new.last().at), part);
        let t = if x >= exact(keys[top].at) {
            x
        } else {
            exact(keys[top].at)
        };
        assert(on_ride(keys, t, exact(keys[top].value)));
    } else {
        lemma_instants_in_order(a, b, 0 as real, part);
        assert(new[0] == new.last());
        assert(keys[top].at.less(a));
        lemma_exact_order(keys[top].at, a);
        assert(on_ride(keys, x, exact(keys[top].value)));
        assert(on_ride(keys, exact(a), exact(keys[top].value)));
    }
}

/// A run plays the same once it is carried onto a window of its old length:
/// whatever the new run is worth a part of the window gone, the old one is worth at
/// that part of the window. Rounding carries a key by no more than one part in 2^50
/// of the window, and a curve that is cut by no more than one part in 2^43 of the
/// clip beyond that; the values stray by the slack of the engine's answers at the
/// edges, which what is left of a curve carries as far as its control points reach.
pub proof fn lemma_keys_play_the_same(
    keys: Seq<ParamKey>,
    a: Number,
    b: Number,
    ride: Ride,
    rest: Number,
    slack: real,
    reach: real,
    swing: real,
    part: real,
    value: real,
)
    requires
        carries(keys, a, b, ride, rest, slack, reach, swing),
        0 as real <= part <= 1 as real,
        on_ride(rewindowed(keys, a, b, ride, rest), part, value),
    ensures
        heard(
            keys,
            instant(a, b, part),
            value,
            slip_on(keys, a, b),
            slack_on(keys, slack, reach, swing),
        ),
{
    let new = rewindowed(keys, a, b, ride, rest);
    let (m, n) = lemma_three_parts(keys, a, b);
    if exists|i: int, p: real| #[trigger] on_segment(new, i, p, part, value) {
        let (k, p) = choose|i: int, p: real| #[trigger] on_segment(new, i, p, part, value);
        lemma_neighbours_heard(keys, a, b, ride, rest, slack, reach, swing, m, n, k, p);
    } else if part <= exact(new[0].at) && value == exact(new[0].value) {
        lemma_heard_first(keys, a, b, ride, rest, slack, reach, swing, part, m, n);
    } else {
        lemma_heard_last(keys, a, b, ride, rest, slack, reach, swing, part, m, n);
    }
}

/// A run of straight keys plays the same once it is carried onto a window of its
/// old length: whatever the new run is worth a part of the window gone, the old
/// one is worth at that part of the window, but that rounding carries a key by no
/// more than one part in 2^50 of the window and that the engine's answers at the
/// edges have their slack.
pub proof fn lemma_straight_keys_play_the_same(
    keys: Seq<ParamKey>,
    a: Number,
    b: Number,
    ride: Ride,
    rest: Number,
    slack: real,
    part: real,
    value: real,
)
    requires
        playable(keys),
        all_lined(keys),
        open_window(a, b),
        forall|i: int| 0 <= i < keys.len() ==> clear(#[trigger] keys[i], a, b),
        slack >= 0 as real,
        draws(ride, keys, a, rest, slack),
        draws(ride, keys, b, rest, slack),
        0 as real <= part <= 1 as real,
        on_ride(rewindowed(keys, a, b, ride, rest), part, value),
    ensures
        heard(keys, instant(a, b, part), value, slip_of(a, b), slack),
{
    assert forall|i: int| 1 <= i < keys.len() implies #[trigger] told(
        keys,
        i,
        a,
        b,
        8 as real,
        0 as real,
    ) by {
        assert(lined(keys[i].ease));
    }
    lemma_keys_play_the_same(
        keys,
        a,
        b,
        ride,
        rest,
        slack,
        8 as real,
        0 as real,
        part,
        value,
    );
}

/// The two pieces of a cut hold the same key on it: the one that ends the first
/// piece and the one that opens the second are worth the same and are approached
/// the same way, so that whichever a merge keeps leads on as the other would.
pub proof fn lemma_both_pieces_hold_the_cut(
    keys: Seq<ParamKey>,
    a: Number,
    cut: Number,
    b: Number,
    ride: Ride,
    rest: Number,
)
    requires
        playable(keys),
        open_window(a, cut),
        open_window(cut, b),
        forall|i: int| 0 <= i < keys.len() ==> a.at_most((#[trigger] keys[i]).at),
        forall|i: int| 0 <= i < keys.len() ==> (#[trigger] keys[i]).at.at_most(b),
        forall|i: int|
            0 <= i < keys.len() ==> before_window(#[trigger] keys[i], cut) || after_window(
                keys[i],
                cut,
            ),
        before_window(keys[0], cut),
        after_window(keys.last(), cut),
    ensures
        ({
            let first = rewindowed(keys, a, cut, ride, rest).last();
            let second = rewindowed(keys, cut, b, ride, rest)[0];
            &&& first.at == num(ONE)
            &&& second.at == num(ZERO)
            &&& first.value == second.value
            &&& first.ease == second.ease
        }),
{
    let top = keys.len() - 1;
    lemma_units_monotonic(0, KEY_EPSILON as nat);
    lemma_difference_no_more(cut, num(KEY_EPSILON));
    lemma_sum_grows(cut, num(KEY_EPSILON));
    lemma_difference_no_more(a, num(KEY_EPSILON));
    lemma_sum_grows(b, num(KEY_EPSILON));
    assert forall|i: int| 0 <= i < keys.len() implies clear(#[trigger] keys[i], a, cut) && clear(
        keys[i],
        cut,
        b,
    ) by {
        assert(keys[i].valid());
        assert(a.at_most(keys[i].at) && keys[i].at.at_most(b));
    }
    let (m, n) = lemma_three_parts(keys, a, cut);
    let (k, l) = lemma_three_parts(keys, cut, b);
    assert(before_window(keys[0], cut) == (0 < k));
    assert(after_window(keys[top], cut) == (top >= n));
    assert(!(k < n)) by {
        if k < n {
            assert(before_window(keys[k], cut) == (k < k));
            assert(after_window(keys[k], cut) == (k >= n));
        }
    }
    assert(!(n < k)) by {
        if n < k {
            assert(keys[n].at.less(cut));
            assert(cut.less(keys[n].at));
        }
    }
    lemma_new_run(keys, a, cut, ride, rest, m, n);
    lemma_new_run(keys, cut, b, ride, rest, k, l);
    let lead = lead_keys(keys, cut);
    assert forall|i: int| 0 <= i < lead.len() implies before_window(#[trigger] lead[i], cut) == (i
        < k) by {
        assert(before_window(keys[i], cut) == (i < k));
    }
    lemma_filter_stretch(
        lead,
        |p: ParamKey| !before_window(p, cut),
        k,
        lead.len() as int,
    );
    assert(opening_ease(keys, cut) == lead_ease(keys, k, cut));
    assert(rewindowed(keys, cut, b, ride, rest)[0].ease == opening_ease(keys, cut)) by {
        assert(before_window(keys[0], cut));
    }
    assert(keys[k - 1].at.less(cut) && cut.less(keys[k].at));
    assert(a.at_most(keys[k - 1].at));
}

} // verus!
