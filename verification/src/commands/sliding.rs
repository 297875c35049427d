//! What a cut, a trim and a change of speed leave of the picture: no pixel slides.
//!
//! A clip shows its source: from its in-point on, at its speed, for as long as it
//! lasts. What follows speaks of that, of seconds and not of numbers, so every
//! statement leaves room for what rounding takes.

use crate::commands::command::TrimEdge;
use crate::commands::cuts::{
    head_length, head_moved, head_shift, head_source, head_start, tail_length, trimmed_head,
    trimming, trims,
};
use crate::commands::properties::put;
use crate::commands::round_trips::lemma_windowed_keeps;
use crate::find::lemma_first_is;
use crate::measure::{
    apart_by, least, lemma_counted, lemma_difference_measured, lemma_least, lemma_negated_measured,
    lemma_product_measured, lemma_same_measured, lemma_sum_measured, magnitude,
};
use crate::model::clip::ClipView;
use crate::model::exact::{
    exact, lemma_ends, lemma_ends_of_product, lemma_exact_order, lemma_product_no_less,
    lemma_product_turns,
};
use crate::model::nearly::{grain, lemma_grain};
use crate::model::project::ProjectView;
use crate::model::ride::Ride;
use crate::model::timeline::TimelineView;
use crate::number::{
    difference, larger, lemma_exact, lemma_exact_ratio, lemma_rounds_somewhere,
    lemma_units_monotonic, negated, num, product, quotient, sum, units, Number, ONE, ZERO,
};
use crate::ranges::{JOIN_EPSILON, MIN_CLIP_DURATION};
use crate::rounding::{
    lemma_difference_close, lemma_none_and_all, lemma_of_numbers, lemma_quotient_of_negative,
    lemma_ranks_as_valued, PARTS,
};
use vstd::prelude::*;

verus! {

/// The source second a clip shows at a second of the timeline.
pub open spec fn shown(clip: ClipView, t: real) -> real {
    exact(clip.source_start) + (t - exact(clip.start)) * exact(clip.speed)
}

/// The source second a clip stops at.
pub open spec fn out_point(clip: ClipView) -> real {
    exact(clip.source_start) + exact(clip.duration) * exact(clip.speed)
}

/// Whether where a clip stands, how long it is and what it shows are numbers.
pub open spec fn timed(clip: ClipView) -> bool {
    clip.start.finite() && clip.duration.finite() && clip.source_start.finite()
        && clip.speed.finite()
}

/// The clips of the timeline being edited.
pub open spec fn clips_in(project: ProjectView, after: ProjectView) -> Seq<ClipView> {
    after.timelines[project.active_index()].clips
}

// Arithmetic.

pub proof fn lemma_magnitudes(x: real, y: real)
    ensures
        magnitude(x * y) == magnitude(x) * magnitude(y),
        magnitude(x) >= 0 as real,
        magnitude(x + y) <= magnitude(x) + magnitude(y),
        magnitude(x - y) <= magnitude(x) + magnitude(y),
        magnitude(x) * magnitude(y) >= 0 as real,
{
    assert((-x) * y == -(x * y)) by (nonlinear_arith);
    assert(x * (-y) == -(x * y)) by (nonlinear_arith);
    assert((-x) * (-y) == x * y) by (nonlinear_arith);
    let a = magnitude(x);
    let b = magnitude(y);
    lemma_product_no_less(0 as real, a, b);
    lemma_ends_of_product(b);
}

/// A part in 2^53 is no more than a quarter.
pub proof fn lemma_small_grain(x: real)
    requires
        x >= 0 as real,
    ensures
        0 as real <= grain() * x,
        4 as real * (grain() * x) <= x,
{
    let g = grain();
    lemma_grain();
    lemma_product_no_less(4 as real, PARTS as real, g);
    lemma_product_no_less(0 as real, g, x);
    lemma_product_no_less(4 as real * g, 1 as real, x);
    lemma_ends_of_product(x);
    assert((4 as real * g) * x == 4 as real * (g * x)) by (nonlinear_arith);
}

/// What was rounded is no more than twice what came out.
pub proof fn lemma_rounded_back(x: real, y: real)
    requires
        apart_by(x, y, grain() * magnitude(y)),
    ensures
        magnitude(y) <= 2 as real * magnitude(x),
        apart_by(x, y, 2 as real * (grain() * magnitude(x))),
{
    let g = grain();
    lemma_grain();
    lemma_small_grain(magnitude(y));
    lemma_product_no_less(magnitude(y), 2 as real * magnitude(x), g);
    lemma_product_turns(magnitude(y), g);
    let m = magnitude(x);
    assert((2 as real * m) * g == 2 as real * (g * m)) by (nonlinear_arith);
}

pub proof fn lemma_twice(a: real, b: real, v: real)
    requires
        a <= 2 as real * b,
        v >= 0 as real,
    ensures
        a * v <= 2 as real * (b * v),
{
    lemma_product_no_less(a, 2 as real * b, v);
    assert((2 as real * b) * v == 2 as real * (b * v)) by (nonlinear_arith);
}

/// The in-point moves with the head, at the clip's speed: `b` is how far the head
/// went, `m` how far that was found to be, `q` what that is in the source.
pub proof fn lemma_in_point(s: real, n: real, b: real, m: real, q: real, v: real)
    requires
        apart_by(m, b, grain() * magnitude(b)),
        apart_by(q, m * v, grain() * magnitude(m * v) + least()),
        apart_by(n, s + q, grain() * magnitude(s + q)),
    ensures
        apart_by(
            n - s,
            b * v,
            4 as real * (grain() * (magnitude(n) + magnitude(b) * magnitude(v))) + least(),
        ),
{
    let g = grain();
    let k = magnitude(v);
    let l = magnitude(b);
    let bv = l * k;
    lemma_grain();
    lemma_least();
    lemma_rounded_back(n, s + q);
    lemma_small_grain(l);
    lemma_magnitudes(m, v);
    lemma_magnitudes(b, v);
    // The found way is no more than twice the way.
    assert(magnitude(m) <= 2 as real * l);
    lemma_twice(magnitude(m), l, k);
    lemma_product_no_less(magnitude(m) * k, 2 as real * bv, g);
    lemma_product_turns(magnitude(m) * k, g);
    assert((2 as real * bv) * g == 2 as real * (g * bv)) by (nonlinear_arith);
    // And off by a part of it, times the speed.
    let e = m - b;
    assert(m * v - b * v == (m - b) * v) by (nonlinear_arith);
    lemma_magnitudes(e, v);
    lemma_product_no_less(magnitude(e), g * l, k);
    assert((g * l) * k == g * (l * k)) by (nonlinear_arith);
    let c = magnitude(n);
    assert(g * (c + bv) == g * c + g * bv) by (nonlinear_arith);
    lemma_magnitudes(n, 1 as real);
    lemma_small_grain(c);
    lemma_small_grain(bv);
}

/// The same, where how far the head went is told by what it takes off the length.
proof fn lemma_out_point_held(s: real, n: real, d: real, e: real, m: real, q: real, v: real)
    requires
        apart_by(e, d - m, grain() * magnitude(d - m)),
        apart_by(q, m * v, grain() * magnitude(m * v) + least()),
        apart_by(n, s + q, grain() * magnitude(s + q)),
    ensures
        apart_by(
            n + e * v,
            s + d * v,
            4 as real * (grain() * (magnitude(n) + (magnitude(d) + magnitude(e)) * magnitude(v)))
                + least(),
        ),
{
    let g = grain();
    let k = magnitude(v);
    let c = magnitude(n);
    let dd = magnitude(d);
    let ee = magnitude(e);
    lemma_grain();
    lemma_least();
    lemma_rounded_back(n, s + q);
    lemma_rounded_back(e, d - m);
    lemma_magnitudes(m, v);
    lemma_magnitudes(d, d - m);
    lemma_magnitudes(d, v);
    lemma_magnitudes(e, v);
    assert(magnitude(m) <= dd + 2 as real * ee);
    let mm = magnitude(m);
    let both = dd + ee;
    lemma_twice(mm, both, k);
    lemma_product_no_less(mm * k, 2 as real * (both * k), g);
    lemma_product_turns(mm * k, g);
    let bk = both * k;
    assert((2 as real * bk) * g == 2 as real * (g * bk)) by (nonlinear_arith);
    let f = e - (d - m);
    assert(e * v - d * v + m * v == (e - (d - m)) * v) by (nonlinear_arith);
    lemma_magnitudes(f, v);
    lemma_product_no_less(magnitude(f), 2 as real * (g * ee), k);
    assert((2 as real * (g * ee)) * k == 2 as real * (g * (ee * k))) by (nonlinear_arith);
    assert(both * k == dd * k + ee * k) by (nonlinear_arith)
        requires
            both == dd + ee,
    ;
    let x = dd * k;
    let y = ee * k;
    assert(g * (c + (x + y)) == g * c + g * x + g * y) by (nonlinear_arith);
    assert(g * (x + y) == g * x + g * y) by (nonlinear_arith);
    lemma_magnitudes(n, 1 as real);
    lemma_small_grain(c);
    lemma_small_grain(x);
    lemma_small_grain(y);
}

// Trims.

/// The clip a trim of the head leaves.
proof fn lemma_head_trimmed(
    project: ProjectView,
    counter: nat,
    clip_id: Seq<char>,
    delta: Number,
    ripple: bool,
    ride: Ride,
)
    requires
        project.editable(),
        project.active().clip_index(clip_id) is Some,
    ensures
        ({
            let i = project.active().clip_index(clip_id)->0;
            let was = project.active().clips[i];
            let after = trimming(project, counter, clip_id, TrimEdge::Start, delta, ripple, ride);
            let is = clips_in(project, after.project)[i];
            let moved = head_moved(was, delta, ripple);
            &&& 0 <= i < project.active().clips.len()
            &&& is.id == was.id && is.track_id == was.track_id && is.speed == was.speed
            &&& is.media_id == was.media_id && is.speed_curve == was.speed_curve
            &&& is.start == if ripple {
                was.start
            } else {
                put(was.start, head_start(was, delta, ripple))
            }
            &&& is.duration == put(was.duration, difference(was.duration, moved))
            &&& is.source_start == put(
                was.source_start,
                larger(sum(was.source_start, product(moved, was.speed)), num(ZERO)),
            )
        }),
{
    let i = project.active().clip_index(clip_id)->0;
    lemma_first_is(project.timelines, |t: TimelineView| t.id == project.active_timeline_id);
    lemma_first_is(project.active().clips, |c: ClipView| c.id == clip_id);
    let was = project.active().clips[i];
    lemma_windowed_keeps(
        ClipView {
            start: put(was.start, head_start(was, delta, ripple)),
            duration: put(was.duration, head_length(was, delta, ripple)),
            source_start: put(was.source_start, head_source(was, delta, ripple)),
            ..was
        },
        was.duration,
        head_moved(was, delta, ripple),
        was.duration,
        ride,
    );
}

/// What a clip shows once its head has gone to a start, or as far as one.
proof fn lemma_head_moved_by(was: ClipView, is: ClipView, start: Number, ripple: bool)
    requires
        timed(was),
        timed(is),
        is.speed == was.speed,
        !ripple ==> start.nan() || !start.less(num(ZERO)),
        ({
            let moved = difference(start, was.start);
            let source = larger(sum(was.source_start, product(moved, was.speed)), num(ZERO));
            &&& is.start == if ripple {
                was.start
            } else {
                put(was.start, start)
            }
            &&& is.duration == put(was.duration, difference(was.duration, moved))
            &&& is.source_start == put(was.source_start, source)
        }),
    ensures
        ({
            let n = magnitude(exact(is.source_start));
            let v = magnitude(exact(was.speed));
            let way = magnitude(exact(is.start) - exact(was.start));
            let lengths = magnitude(exact(was.duration)) + magnitude(exact(is.duration));
            &&& is.speed == was.speed
            &&& exact(is.source_start) >= 0 as real
            &&& ripple ==> is.start == was.start
            &&& !ripple ==> exact(is.start) >= 0 as real || is.start == was.start
            &&& exact(is.source_start) > 0 as real ==> apart_by(
                out_point(is),
                out_point(was),
                4 as real * (grain() * (n + lengths * v)) + least(),
            )
            &&& exact(is.source_start) > 0 as real && !ripple ==> forall|t: real|
                apart_by(
                    #[trigger] shown(is, t),
                    shown(was, t),
                    4 as real * (grain() * (n + way * v)) + least(),
                )
            &&& !ripple ==> apart_by(
                exact(is.start) + exact(is.duration),
                exact(was.start) + exact(was.duration),
                4 as real * (grain() * (way + magnitude(exact(is.duration)))),
            )
        }),
{
    lemma_ends();
    let moved = difference(start, was.start);
    let length = difference(was.duration, moved);
    assert(length.finite()) by {
        if was.duration.same(length) {
        }
    }
    lemma_of_numbers(was.duration, negated(moved));
    lemma_of_numbers(start, negated(was.start));
    lemma_put(was.duration, length);
    lemma_difference_measured(start, was.start);
    lemma_difference_measured(was.duration, moved);
    let found = sum(was.source_start, product(moved, was.speed));
    let source = larger(found, num(ZERO));
    lemma_put(was.source_start, source);
    lemma_exact_order(num(ZERO), source);
    if exact(is.source_start) > 0 as real {
        assert(source == found) by {
            if source != found {
                assert(source == num(ZERO));
            }
        }
        lemma_pixels_held(was, is, start, moved, ripple);
    }
    if !ripple {
        lemma_put(was.start, start);
        lemma_exact_order(num(ZERO), start);
        lemma_end_held(
            exact(start) - exact(was.start),
            exact(was.duration),
            exact(is.duration),
            exact(moved),
        );
    }
}

/// Where a clip ends on the timeline, once its head has gone `b`.
proof fn lemma_end_held(b: real, d: real, e: real, m: real)
    requires
        apart_by(m, b, grain() * magnitude(b)),
        apart_by(e, d - m, grain() * magnitude(d - m)),
    ensures
        apart_by(b + e, d, 4 as real * (grain() * (magnitude(b) + magnitude(e)))),
{
    let g = grain();
    let x = magnitude(e);
    let w = magnitude(b);
    lemma_rounded_back(e, d - m);
    assert(g * (w + x) == g * w + g * x) by (nonlinear_arith);
    lemma_magnitudes(b, e);
    lemma_magnitudes(e, b);
    lemma_small_grain(w);
    lemma_small_grain(x);
}

/// What a clip shows once its head has gone to a start, where its in-point is not
/// held.
proof fn lemma_pixels_held(
    was: ClipView,
    is: ClipView,
    start: Number,
    moved: Number,
    ripple: bool,
)
    requires
        timed(was),
        timed(is),
        start.finite(),
        moved.finite(),
        is.speed == was.speed,
        moved == difference(start, was.start),
        !ripple ==> is.start == put(was.start, start),
        exact(is.source_start) == exact(sum(was.source_start, product(moved, was.speed))),
        sum(was.source_start, product(moved, was.speed)).finite(),
        exact(is.duration) == exact(difference(was.duration, moved)),
        difference(was.duration, moved).finite(),
    ensures
        ({
            let n = magnitude(exact(is.source_start));
            let v = magnitude(exact(was.speed));
            let way = magnitude(exact(is.start) - exact(was.start));
            let lengths = magnitude(exact(was.duration)) + magnitude(exact(is.duration));
            &&& apart_by(
                out_point(is),
                out_point(was),
                4 as real * (grain() * (n + lengths * v)) + least(),
            )
            &&& !ripple ==> forall|t: real|
                apart_by(
                    #[trigger] shown(is, t),
                    shown(was, t),
                    4 as real * (grain() * (n + way * v)) + least(),
                )
        }),
{
    lemma_difference_measured(start, was.start);
    lemma_difference_measured(was.duration, moved);
    lemma_of_numbers(was.source_start, product(moved, was.speed));
    lemma_product_measured(moved, was.speed);
    lemma_sum_measured(was.source_start, product(moved, was.speed));
    let b = exact(start) - exact(was.start);
    let m = exact(moved);
    let v = exact(was.speed);
    let q = exact(product(moved, was.speed));
    let s = exact(was.source_start);
    let n = exact(is.source_start);
    lemma_out_point_held(s, n, exact(was.duration), exact(is.duration), m, q, v);
    lemma_in_point(s, n, b, m, q, v);
    if !ripple {
        lemma_put(was.start, start);
        assert forall|t: real|
            apart_by(
                #[trigger] shown(is, t),
                shown(was, t),
                4 as real * (grain() * (magnitude(n) + magnitude(b) * magnitude(v))) + least(),
            ) by {
            let x = t - exact(is.start);
            let y = t - exact(was.start);
            assert(x * v - y * v == (x - y) * v) by (nonlinear_arith);
            assert((-b) * v == -(b * v)) by (nonlinear_arith);
        }
    }
}

/// A trim of the head slides no pixel. A point of the timeline that is still in the
/// clip shows the source second it showed; a magnetic trim moves the clip along, and
/// then it is a point as far from the clip's end that does. The clip still ends where
/// it ended, in the source and, where it is not magnetic, on the timeline. All of
/// this holds wherever the in-point is not held at the source's beginning.
pub proof fn lemma_a_head_trim_slides_nothing(
    project: ProjectView,
    counter: nat,
    clip_id: Seq<char>,
    delta: Number,
    ripple: bool,
    ride: Ride,
)
    requires
        project.editable(),
        project.active().clip_index(clip_id) is Some,
        ({
            let i = project.active().clip_index(clip_id)->0;
            let after = trimming(project, counter, clip_id, TrimEdge::Start, delta, ripple, ride);
            timed(project.active().clips[i]) && timed(clips_in(project, after.project)[i])
        }),
    ensures
        ({
            let i = project.active().clip_index(clip_id)->0;
            let was = project.active().clips[i];
            let after = trimming(project, counter, clip_id, TrimEdge::Start, delta, ripple, ride);
            let is = clips_in(project, after.project)[i];
            let n = magnitude(exact(is.source_start));
            let v = magnitude(exact(was.speed));
            let way = magnitude(exact(is.start) - exact(was.start));
            let lengths = magnitude(exact(was.duration)) + magnitude(exact(is.duration));
            &&& is.speed == was.speed
            &&& exact(is.source_start) >= 0 as real
            &&& ripple ==> is.start == was.start
            &&& !ripple ==> exact(is.start) >= 0 as real || is.start == was.start
            &&& exact(is.source_start) > 0 as real ==> apart_by(
                out_point(is),
                out_point(was),
                4 as real * (grain() * (n + lengths * v)) + least(),
            )
            &&& exact(is.source_start) > 0 as real && !ripple ==> forall|t: real|
                apart_by(
                    #[trigger] shown(is, t),
                    shown(was, t),
                    4 as real * (grain() * (n + way * v)) + least(),
                )
            &&& !ripple ==> apart_by(
                exact(is.start) + exact(is.duration),
                exact(was.start) + exact(was.duration),
                4 as real * (grain() * (way + magnitude(exact(is.duration)))),
            )
        }),
{
    let i = project.active().clip_index(clip_id)->0;
    let was = project.active().clips[i];
    let after = trimming(project, counter, clip_id, TrimEdge::Start, delta, ripple, ride);
    let is = clips_in(project, after.project)[i];
    lemma_head_trimmed(project, counter, clip_id, delta, ripple, ride);
    lemma_head_moved_by(was, is, head_start(was, delta, ripple), ripple);
}

/// What a field is set to is what it is worth.
pub proof fn lemma_put(slot: Number, value: Number)
    requires
        slot.finite(),
        put(slot, value).finite(),
    ensures
        value.finite(),
        exact(put(slot, value)) == exact(value),
{
    if slot.same(value) {
        lemma_same_measured(slot, value);
    }
}

/// How far a head that goes `delta` from `b` is found to have gone.
proof fn lemma_way_found(b: real, delta: real, start: real, m: real)
    requires
        apart_by(start, b + delta, grain() * magnitude(b + delta)),
        apart_by(m, start - b, grain() * magnitude(start - b)),
    ensures
        apart_by(m, delta, 3 as real * (grain() * (magnitude(b) + magnitude(delta)))),
{
    let g = grain();
    let x = magnitude(b);
    let y = magnitude(delta);
    lemma_grain();
    lemma_magnitudes(b, delta);
    lemma_magnitudes(delta, b);
    lemma_product_no_less(magnitude(b + delta), x + y, g);
    lemma_product_turns(magnitude(b + delta), g);
    lemma_product_turns(x + y, g);
    lemma_small_grain(x + y);
    let w = start - b;
    assert(magnitude(w) <= y + g * (x + y));
    assert(magnitude(w) <= 2 as real * (x + y));
    lemma_product_no_less(magnitude(w), 2 as real * (x + y), g);
    lemma_product_turns(magnitude(w), g);
    let z = x + y;
    assert((2 as real * z) * g == 2 as real * (g * z)) by (nonlinear_arith);
}

/// A trim of the head takes off what it is asked to, where the clip has that much
/// to give: it is not left shorter than the shortest a clip can be, the source
/// reaches back that far, and so does the timeline. Asked for more, it leaves the
/// shortest clip there is.
pub proof fn lemma_a_head_trim_takes_what_is_asked(
    project: ProjectView,
    counter: nat,
    clip_id: Seq<char>,
    delta: Number,
    ripple: bool,
    ride: Ride,
)
    requires
        project.editable(),
        project.active().clip_index(clip_id) is Some,
        delta.finite(),
        ({
            let i = project.active().clip_index(clip_id)->0;
            let was = project.active().clips[i];
            let after = trimming(project, counter, clip_id, TrimEdge::Start, delta, ripple, ride);
            let least_length = num(MIN_CLIP_DURATION);
            let back = quotient(negated(was.source_start), was.speed);
            let most = difference(was.duration, least_length);
            &&& timed(was) && timed(clips_in(project, after.project)[i])
            &&& back.at_most(delta) && back.at_most(most)
            &&& ripple || (num(ZERO).at_most(sum(was.start, delta)) && num(ZERO).at_most(
                sum(was.start, most),
            ))
        }),
    ensures
        ({
            let i = project.active().clip_index(clip_id)->0;
            let was = project.active().clips[i];
            let after = trimming(project, counter, clip_id, TrimEdge::Start, delta, ripple, ride);
            let is = clips_in(project, after.project)[i];
            let most = difference(was.duration, num(MIN_CLIP_DURATION));
            let sizes = magnitude(exact(was.start)) + magnitude(exact(was.duration)) + magnitude(
                exact(is.duration),
            ) + magnitude(exact(delta)) + 1 as real;
            let off = 8 as real * (grain() * sizes);
            &&& delta.at_most(most) ==> apart_by(
                exact(was.duration) - exact(is.duration),
                exact(delta),
                off,
            )
            &&& most.less(delta) ==> apart_by(
                exact(is.duration),
                exact(num(MIN_CLIP_DURATION)),
                off,
            )
        }),
{
    let i = project.active().clip_index(clip_id)->0;
    let was = project.active().clips[i];
    let after = trimming(project, counter, clip_id, TrimEdge::Start, delta, ripple, ride);
    let is = clips_in(project, after.project)[i];
    lemma_head_trimmed(project, counter, clip_id, delta, ripple, ride);
    lemma_shortest();
    let most = difference(was.duration, num(MIN_CLIP_DURATION));
    let asked = if most.less(delta) {
        most
    } else {
        delta
    };
    let start = head_start(was, delta, ripple);
    let moved = head_moved(was, delta, ripple);
    let length = difference(was.duration, moved);
    assert(head_shift(was, delta) == asked);
    assert(start == sum(was.start, asked)) by {
        if !ripple {
            assert(!sum(was.start, asked).less(num(ZERO)));
            assert(!sum(was.start, asked).nan());
        }
    }
    assert(length.finite()) by {
        if was.duration.same(length) {
        }
    }
    lemma_of_numbers(was.duration, negated(moved));
    lemma_of_numbers(start, negated(was.start));
    lemma_of_numbers(was.start, asked);
    lemma_put(was.duration, length);
    lemma_sum_measured(was.start, asked);
    lemma_difference_measured(start, was.start);
    lemma_difference_measured(was.duration, moved);
    let b = exact(was.start);
    let m = exact(moved);
    let d = exact(was.duration);
    let e = exact(is.duration);
    let k = exact(asked);
    lemma_way_found(b, k, exact(start), m);
    lemma_rounded_back(e, d - m);
    let g = grain();
    let (bb, dd, ee, kk, aa) = (
        magnitude(b),
        magnitude(d),
        magnitude(e),
        magnitude(k),
        magnitude(exact(delta)),
    );
    lemma_magnitudes(b, d);
    lemma_magnitudes(d, b);
    lemma_magnitudes(e, k);
    lemma_magnitudes(k, e);
    lemma_magnitudes(exact(delta), b);
    let o = 1 as real;
    lemma_grain();
    if most.less(delta) {
        let low = exact(num(MIN_CLIP_DURATION));
        lemma_of_numbers(was.duration, negated(num(MIN_CLIP_DURATION)));
        lemma_difference_measured(was.duration, num(MIN_CLIP_DURATION));
        lemma_magnitudes(d, low);
        let gap = magnitude(d - low);
        lemma_product_no_less(gap, dd + o, g);
        lemma_product_turns(gap, g);
        lemma_product_turns(dd + o, g);
        lemma_small_grain(dd + o);
        // The room there is, is no more than twice the length and one.
        assert(kk <= 2 as real * (dd + o));
        lemma_product_no_less(bb + kk, bb + 2 as real * (dd + o), g);
        lemma_product_turns(bb + kk, g);
        let y = dd + o;
        assert((bb + 2 as real * y) * g == g * bb + 2 as real * (g * y)) by (nonlinear_arith);
        assert(g * (dd + o) == g * dd + g * o) by (nonlinear_arith);
    } else {
        assert(g * (bb + kk) == g * bb + g * kk) by (nonlinear_arith);
    }
    lemma_five_grains(g, bb, dd, ee, aa, o);
    lemma_small_grain(bb);
    lemma_small_grain(dd);
    lemma_small_grain(ee);
    lemma_small_grain(aa);
    lemma_small_grain(o);
}

proof fn lemma_five_grains(g: real, a: real, b: real, c: real, d: real, e: real)
    ensures
        g * (a + b + c + d + e) == g * a + g * b + g * c + g * d + g * e,
{
    assert(g * (a + b + c + d + e) == g * a + g * b + g * c + g * d + g * e) by (nonlinear_arith);
}

/// The shortest a clip can be is one frame of sixty a second.
pub proof fn lemma_shortest()
    ensures
        num(MIN_CLIP_DURATION).finite(),
        exact(num(MIN_CLIP_DURATION)) > 0 as real,
        exact(num(MIN_CLIP_DURATION)) <= 1 as real,
{
    lemma_ends();
    lemma_exact_order(num(ZERO), num(MIN_CLIP_DURATION));
    lemma_exact_order(num(MIN_CLIP_DURATION), num(ONE));
}

/// A trim of the tail takes off, or gives, what it is asked to, and touches neither
/// where the clip starts nor what it shows. It leaves no clip shorter than the
/// shortest, and that one only where it is asked for no more.
pub proof fn lemma_a_tail_trim_takes_what_is_asked(
    project: ProjectView,
    counter: nat,
    clip_id: Seq<char>,
    delta: Number,
    ripple: bool,
    ride: Ride,
)
    requires
        project.editable(),
        project.active().clip_index(clip_id) is Some,
        delta.finite(),
        ({
            let i = project.active().clip_index(clip_id)->0;
            let was = project.active().clips[i];
            timed(was) && sum(was.duration, delta).finite()
        }),
    ensures
        ({
            let i = project.active().clip_index(clip_id)->0;
            let was = project.active().clips[i];
            let after = trimming(project, counter, clip_id, TrimEdge::End, delta, ripple, ride);
            let is = clips_in(project, after.project)[i];
            let low = exact(num(MIN_CLIP_DURATION));
            let asked = exact(was.duration) + exact(delta);
            &&& is.start == was.start && is.source_start == was.source_start
            &&& is.speed == was.speed
            &&& is.duration.finite() && exact(is.duration) >= low
            &&& asked >= 2 as real * low ==> apart_by(
                exact(is.duration),
                asked,
                2 as real * (grain() * asked),
            )
            &&& 2 as real * asked <= low ==> exact(is.duration) == low
            &&& apart_by(exact(is.duration), asked, 2 as real * (grain() * magnitude(asked)))
                || exact(is.duration) == low
        }),
{
    let i = project.active().clip_index(clip_id)->0;
    lemma_first_is(project.timelines, |t: TimelineView| t.id == project.active_timeline_id);
    lemma_first_is(project.active().clips, |c: ClipView| c.id == clip_id);
    let was = project.active().clips[i];
    let after = trimming(project, counter, clip_id, TrimEdge::End, delta, ripple, ride);
    let is = clips_in(project, after.project)[i];
    let length = tail_length(was, delta);
    lemma_windowed_keeps(
        ClipView { duration: length, ..was },
        was.duration,
        num(ZERO),
        length,
        ride,
    );
    lemma_shortest();
    let low = exact(num(MIN_CLIP_DURATION));
    let asked = exact(was.duration) + exact(delta);
    let found = sum(was.duration, delta);
    lemma_sum_measured(was.duration, delta);
    lemma_exact_order(found, num(MIN_CLIP_DURATION));
    lemma_exact_order(num(MIN_CLIP_DURATION), found);
    if was.duration.same(length) {
        lemma_same_measured(was.duration, length);
    }
    assert(exact(is.duration) == exact(length));
    lemma_grain();
    lemma_magnitudes(asked, 1 as real);
    lemma_small_grain(magnitude(asked));
}

/// Nothing added to a number leaves it.
proof fn lemma_plus_nothing(a: Number, z: Number)
    requires
        a.finite(),
        z.finite(),
        z.magnitude() == 0,
    ensures
        sum(a, z).same(a),
        sum(a, z).finite(),
        difference(a, z).same(a),
        difference(a, z).finite(),
{
    reveal(sum);
    lemma_exact(a.magnitude());
    lemma_units_monotonic(0, a.magnitude());
    assert(negated(z).magnitude() == 0);
    assert(negated(z).value() == 0 && z.value() == 0);
}

/// A number less itself is nothing.
proof fn lemma_less_itself(a: Number, b: Number)
    requires
        a.finite(),
        b.finite(),
        a.same(b),
    ensures
        difference(a, b).magnitude() == 0,
        difference(a, b).finite(),
{
    reveal(sum);
    lemma_ranks_as_valued(a, b);
    lemma_ranks_as_valued(b, a);
    assert(negated(b).value() == -b.value());
}

/// A trim of the head by nothing leaves every clip as it was.
pub proof fn lemma_a_trim_by_nothing_changes_nothing(
    project: ProjectView,
    counter: nat,
    clip_id: Seq<char>,
    delta: Number,
    ripple: bool,
    ride: Ride,
)
    requires
        project.editable(),
        project.active().clip_index(clip_id) is Some,
        delta.finite(),
        exact(delta) == 0 as real,
        ({
            let i = project.active().clip_index(clip_id)->0;
            let was = project.active().clips[i];
            &&& timed(was)
            &&& num(ZERO).at_most(was.source_start)
            &&& num(ZERO).less(was.speed)
            &&& num(MIN_CLIP_DURATION).at_most(was.duration)
            &&& ripple || num(ZERO).at_most(was.start)
        }),
    ensures
        clips_in(
            project,
            trimming(project, counter, clip_id, TrimEdge::Start, delta, ripple, ride).project,
        ) == project.active().clips,
{
    let i = project.active().clip_index(clip_id)->0;
    lemma_first_is(project.timelines, |t: TimelineView| t.id == project.active_timeline_id);
    lemma_first_is(project.active().clips, |c: ClipView| c.id == clip_id);
    let was = project.active().clips[i];
    lemma_counted(delta);
    lemma_least();
    lemma_ends_of_product(vstd::arithmetic::power2::pow2(1074) as real);
    lemma_units_monotonic(0, delta.magnitude());
    assert(delta.magnitude() == 0);
    let least_length = num(MIN_CLIP_DURATION);
    let most = difference(was.duration, least_length);
    assert(!most.less(delta)) by {
        lemma_difference_close(was.duration, least_length);
        lemma_ranks_as_valued(least_length, was.duration);
        lemma_not_below(was.duration, least_length);
    }
    let back = quotient(negated(was.source_start), was.speed);
    assert(!delta.less(back)) by {
        lemma_ranks_as_valued(num(ZERO), was.speed);
        lemma_not_above(was.source_start, was.speed);
    }
    assert(head_shift(was, delta) == delta);
    lemma_plus_nothing(was.start, delta);
    let start = head_start(was, delta, ripple);
    assert(start.same(was.start));
    lemma_less_itself(start, was.start);
    let moved = head_moved(was, delta, ripple);
    lemma_plus_nothing(was.duration, moved);
    lemma_nothing_of(moved, was.speed);
    lemma_plus_nothing(was.source_start, product(moved, was.speed));
    let clips = project.active().clips;
    assert(trimmed_head(was, delta, ripple, ride) == was);
    assert(clips.update(i, was) =~= clips);
    assert(project.active().with_clips(clips).clips == clips);
}

/// What is no less than another, less it, is not below zero.
proof fn lemma_not_below(a: Number, b: Number)
    requires
        a.finite(),
        b.finite(),
        a.value() >= b.value(),
    ensures
        !difference(a, b).less(num(ZERO)),
{
    reveal(sum);
    assert(negated(b).value() == -b.value());
    let gap = a.value() - b.value();
    lemma_rounds_somewhere(gap as nat);
}

/// What is below zero, divided, is not above it.
proof fn lemma_not_above(s: Number, v: Number)
    requires
        s.finite(),
        v.finite(),
        num(ZERO).at_most(s),
        v.value() > 0,
    ensures
        !num(ZERO).less(quotient(negated(s), v)),
{
    if negated(s).negative() {
        lemma_ranks_as_valued(num(ZERO), v);
        lemma_units_monotonic(0, v.magnitude());
        lemma_quotient_of_negative(negated(s), v);
    } else {
        // A negative zero, turned.
        assert(s.magnitude() == 0);
        assert(negated(s) == num(ZERO));
        lemma_ranks_as_valued(num(ZERO), v);
        lemma_none_and_all(v);
    }
}

/// Nothing, any times over, is nothing.
proof fn lemma_nothing_of(a: Number, b: Number)
    requires
        a.finite(),
        a.magnitude() == 0,
        b.finite(),
    ensures
        product(a, b).finite(),
        product(a, b).magnitude() == 0,
{
    reveal(product);
    let u = vstd::arithmetic::power2::pow2(1074);
    vstd::arithmetic::power2::lemma_pow2_pos(1074);
    assert(0 * units(b.magnitude()) == 0) by (nonlinear_arith);
    lemma_exact_ratio(0, 0, u);
    assert(0 * u == 0) by (nonlinear_arith);
}

/// A magnetic trim keeps the lane's gaps: whatever stands behind the edge moves by
/// what the clip grew or shrank, unless the timeline begins before it gets there,
/// and whatever stands before it stays. So it is as far behind the clip's end as it
/// was.
pub proof fn lemma_a_magnetic_trim_keeps_the_gaps(
    project: ProjectView,
    counter: nat,
    clip_id: Seq<char>,
    edge: TrimEdge,
    delta: Number,
    ride: Ride,
    k: int,
)
    requires
        project.editable(),
        project.active().clip_index(clip_id) is Some,
        0 <= k < project.active().clips.len(),
        ({
            let i = project.active().clip_index(clip_id)->0;
            let was = project.active().clips;
            let is = clips_in(
                project,
                trimming(project, counter, clip_id, edge, delta, true, ride).project,
            );
            &&& was[k].id != clip_id
            &&& was[k].track_id == was[i].track_id
            &&& timed(was[i]) && timed(is[i])
            &&& was[k].start.finite() && is[k].start.finite()
        }),
    ensures
        ({
            let i = project.active().clip_index(clip_id)->0;
            let was = project.active().clips;
            let is = clips_in(
                project,
                trimming(project, counter, clip_id, edge, delta, true, ride).project,
            );
            let behind = match edge {
                TrimEdge::Start => sum(was[i].start, num(JOIN_EPSILON)),
                TrimEdge::End => difference(
                    sum(was[i].start, was[i].duration),
                    num(JOIN_EPSILON),
                ),
            };
            let grew = exact(is[i].duration) - exact(was[i].duration);
            let off = 4 as real * (grain() * (magnitude(exact(is[k].start)) + magnitude(
                exact(is[i].duration),
            ) + magnitude(grew)));
            &&& is[k] == ClipView { start: is[k].start, ..was[k] }
            &&& !behind.at_most(was[k].start) ==> is[k].start == was[k].start
            &&& behind.at_most(was[k].start) && exact(is[k].start) != 0 as real ==> apart_by(
                exact(is[k].start) - exact(was[k].start),
                grew,
                off,
            )
        }),
{
    let i = project.active().clip_index(clip_id)->0;
    lemma_first_is(project.timelines, |t: TimelineView| t.id == project.active_timeline_id);
    lemma_first_is(project.active().clips, |c: ClipView| c.id == clip_id);
    let was = project.active().clips;
    let is = clips_in(
        project,
        trimming(project, counter, clip_id, edge, delta, true, ride).project,
    );
    let clip = was[i];
    let grew = exact(is[i].duration) - exact(clip.duration);
    let by = match edge {
        TrimEdge::End => difference(tail_length(clip, delta), clip.duration),
        TrimEdge::Start => negated(head_moved(clip, delta, true)),
    };
    lemma_ends();
    lemma_grain();
    lemma_lengthened(project, counter, clip_id, edge, delta, ride);
    let g = grain();
    let x = magnitude(exact(is[k].start));
    let y = magnitude(exact(is[i].duration));
    let z = magnitude(grew);
    assert(g * (x + y + z) == g * x + g * y + g * z) by (nonlinear_arith);
    assert(g * (y + z) == g * y + g * z) by (nonlinear_arith);
    lemma_magnitudes(exact(is[k].start), grew);
    lemma_magnitudes(exact(is[i].duration), grew);
    lemma_magnitudes(grew, 1 as real);
    lemma_small_grain(x);
    lemma_small_grain(y);
    lemma_small_grain(z);
    let behind = match edge {
        TrimEdge::Start => sum(clip.start, num(JOIN_EPSILON)),
        TrimEdge::End => difference(sum(clip.start, clip.duration), num(JOIN_EPSILON)),
    };
    if trims(clip, edge, delta, true) && behind.at_most(was[k].start) {
        if !by.same(num(ZERO)) {
            assert(is[k].start == larger(sum(was[k].start, by), num(ZERO)));
            if exact(is[k].start) != 0 as real {
                lemma_pushed_by(was[k].start, by, is[k].start);
            }
        } else {
            assert(is[k] == was[k]);
            lemma_same_measured(by, num(ZERO));
        }
    }
}

/// How far a start that is moved and held goes.
proof fn lemma_pushed_by(was: Number, by: Number, is: Number)
    requires
        was.finite(),
        is.finite(),
        is == larger(sum(was, by), num(ZERO)),
        exact(is) != 0 as real,
    ensures
        by.finite(),
        apart_by(exact(is) - exact(was), exact(by), 2 as real * (grain() * magnitude(exact(is)))),
{
    lemma_ends();
    assert(is == sum(was, by));
    lemma_of_numbers(was, by);
    lemma_sum_measured(was, by);
    lemma_rounded_back(exact(is), exact(was) + exact(by));
}

/// By how much a magnetic trim makes its clip longer.
proof fn lemma_lengthened(
    project: ProjectView,
    counter: nat,
    clip_id: Seq<char>,
    edge: TrimEdge,
    delta: Number,
    ride: Ride,
)
    requires
        project.editable(),
        project.active().clip_index(clip_id) is Some,
        ({
            let i = project.active().clip_index(clip_id)->0;
            let after = trimming(project, counter, clip_id, edge, delta, true, ride);
            timed(project.active().clips[i]) && timed(clips_in(project, after.project)[i])
        }),
    ensures
        ({
            let i = project.active().clip_index(clip_id)->0;
            let was = project.active().clips[i];
            let after = trimming(project, counter, clip_id, edge, delta, true, ride);
            let is = clips_in(project, after.project)[i];
            let by = match edge {
                TrimEdge::End => difference(tail_length(was, delta), was.duration),
                TrimEdge::Start => negated(head_moved(was, delta, true)),
            };
            let grew = exact(is.duration) - exact(was.duration);
            &&& by.finite() ==> apart_by(
                exact(by),
                grew,
                2 as real * (grain() * (magnitude(exact(is.duration)) + magnitude(grew))),
            )
            &&& !trims(was, edge, delta, true) ==> grew == 0 as real
            &&& edge is Start ==> by.finite()
        }),
{
    let i = project.active().clip_index(clip_id)->0;
    lemma_first_is(project.timelines, |t: TimelineView| t.id == project.active_timeline_id);
    lemma_first_is(project.active().clips, |c: ClipView| c.id == clip_id);
    let was = project.active().clips[i];
    let after = trimming(project, counter, clip_id, edge, delta, true, ride);
    let is = clips_in(project, after.project)[i];
    let e = magnitude(exact(is.duration));
    let w = magnitude(exact(is.duration) - exact(was.duration));
    let g = grain();
    assert(g * (e + w) == g * e + g * w) by (nonlinear_arith);
    lemma_magnitudes(exact(is.duration), exact(was.duration));
    lemma_magnitudes(exact(is.duration) - exact(was.duration), 1 as real);
    lemma_small_grain(e);
    lemma_small_grain(w);
    match edge {
        TrimEdge::End => {
            let length = tail_length(was, delta);
            lemma_windowed_keeps(
                ClipView { duration: length, ..was },
                was.duration,
                num(ZERO),
                length,
                ride,
            );
            if was.duration.same(length) {
                lemma_same_measured(was.duration, length);
            }
            let by = difference(length, was.duration);
            if by.finite() {
                lemma_difference_measured(length, was.duration);
            }
        },
        TrimEdge::Start => {
            lemma_head_trimmed(project, counter, clip_id, delta, true, ride);
            let moved = head_moved(was, delta, true);
            let length = difference(was.duration, moved);
            lemma_put(was.duration, length);
            lemma_of_numbers(was.duration, negated(moved));
            lemma_negated_measured(moved);
            lemma_difference_measured(was.duration, moved);
            lemma_rounded_back(exact(is.duration), exact(was.duration) - exact(moved));
        },
    }
}

} // verus!
