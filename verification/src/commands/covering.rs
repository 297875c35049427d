//! What a change of speed, a split and a freeze leave of a clip: the source it
//! covers, and nothing of it lost or shown twice.

use crate::commands::clips::shelved;
use crate::commands::cuts::{freezing, head_of, misses, split_all, splitting, tail_of, uncurved};
use crate::commands::mint::minted;
use crate::commands::properties::{put, setting_curve, setting_speed};
use crate::commands::round_trips::{lemma_same_active, lemma_windowed_keeps};
use crate::commands::sliding::{
    clips_in, lemma_in_point, lemma_magnitudes, lemma_put, lemma_rounded_back, lemma_shortest,
    lemma_small_grain, shown, timed,
};
use crate::find::{is_first, lemma_first, lemma_first_is};
use crate::measure::{
    apart_by, least, lemma_counted, lemma_difference_measured, lemma_least, lemma_product_measured,
    lemma_quotient_measured, lemma_same_measured, lemma_sum_measured, magnitude,
};
use crate::model::clip::ClipView;
use crate::model::exact::{
    exact, lemma_ends, lemma_ends_of_product, lemma_exact_order, lemma_product_more,
    lemma_product_no_less, lemma_product_turns,
};
use crate::model::keys::SpeedPoint;
use crate::model::media::NewMediaView;
use crate::model::nearly::{grain, lemma_grain, lemma_no_less_before};
use crate::model::project::ProjectView;
use crate::model::ride::Ride;
use crate::model::timeline::TimelineView;
use crate::number::{
    clamped, difference, larger, lemma_exact_ratio, lemma_sum_keeps_order, lemma_units_monotonic,
    lemma_units_of, negated, num, product, quotient, sum, units, Number, FRACTION, ONE, ZERO,
};
use crate::ranges::{MAX_SPEED, MIN_CLIP_DURATION, MIN_SPEED};
use crate::rounding::{lemma_of_numbers, lemma_product_of_positive, lemma_quotient_of_positive};
use vstd::arithmetic::power2::*;
use vstd::prelude::*;

verus! {

// Speed.

/// How much of its source a clip plays.
pub open spec fn covered(clip: ClipView) -> real {
    exact(clip.duration) * exact(clip.speed)
}

/// The slowest and the fastest a clip plays: a sixteenth, and sixteen times.
pub proof fn lemma_speeds()
    ensures
        num(MIN_SPEED).finite() && num(MAX_SPEED).finite(),
        16 as real * exact(num(MIN_SPEED)) == 1 as real,
        exact(num(MAX_SPEED)) == 16 as real,
{
    lemma2_to64();
    lemma2_to64_rest();
    lemma_units_of(1018, FRACTION as nat);
    lemma_units_of(1026, FRACTION as nat);
    lemma_pow2_adds(52, 1018);
    lemma_pow2_adds(52, 1026);
    lemma_pow2_adds(4, 1070);
    lemma_pow2_adds(4, 1074);
    assert(MIN_SPEED == 1018 * FRACTION + FRACTION);
    assert(MAX_SPEED == 1026 * FRACTION + FRACTION);
    lemma_counted(num(MIN_SPEED));
    lemma_counted(num(MAX_SPEED));
    lemma_least();
    let p = pow2(1074) as real;
    let x = exact(num(MIN_SPEED));
    let y = exact(num(MAX_SPEED));
    assert((16 as real * x) * p == 16 as real * (x * p)) by (nonlinear_arith);
    lemma_ends_of_product(p);
    lemma_no_less_before(16 as real * x, 1 as real, p);
    lemma_no_less_before(1 as real, 16 as real * x, p);
    lemma_no_less_before(y, 16 as real, p);
    lemma_no_less_before(16 as real, y, p);
}

/// How far the source covered may be off.
pub open spec fn covered_off(clip: ClipView) -> real {
    3 as real * (grain() * magnitude(covered(clip))) + 32 as real * least()
}

/// A length found for the same source at another speed.
proof fn lemma_relength(d: real, v: real, w: real, p: real, q: real)
    requires
        apart_by(p, d * v, grain() * magnitude(d * v) + least()),
        apart_by(q * w, p, grain() * magnitude(p) + least() * magnitude(w)),
        magnitude(w) <= 16 as real,
    ensures
        apart_by(q * w, d * v, 3 as real * (grain() * magnitude(d * v)) + 32 as real * least()),
{
    let g = grain();
    let l = least();
    let c = magnitude(d * v);
    lemma_grain();
    lemma_least();
    lemma_magnitudes(d * v, 1 as real);
    lemma_magnitudes(p, 1 as real);
    lemma_small_grain(c);
    lemma_small_grain(l);
    assert(magnitude(p) <= c + g * c + l);
    assert(magnitude(p) <= 2 as real * c + l);
    lemma_product_no_less(magnitude(p), 2 as real * c + l, g);
    lemma_product_turns(magnitude(p), g);
    assert((2 as real * c + l) * g == 2 as real * (g * c) + g * l) by (nonlinear_arith);
    lemma_product_no_less(magnitude(w), 16 as real, l);
    lemma_product_turns(magnitude(w), l);
}

/// What a length that covers the same source at a speed comes to.
proof fn lemma_covers(was: ClipView, rate: Number, length: Number)
    requires
        was.duration.finite(),
        was.speed.finite(),
        exact(was.duration) >= 0 as real,
        exact(was.speed) >= 0 as real,
        rate.finite(),
        exact(rate) > 0 as real,
        exact(rate) <= 16 as real,
        length.finite(),
        length == larger(
            quotient(product(was.duration, was.speed), rate),
            num(MIN_CLIP_DURATION),
        ),
    ensures
        exact(length) >= exact(num(MIN_CLIP_DURATION)),
        exact(length) > exact(num(MIN_CLIP_DURATION)) ==> apart_by(
            exact(length) * exact(rate),
            covered(was),
            covered_off(was),
        ),
        exact(length) == exact(num(MIN_CLIP_DURATION)) ==> covered(was) <= exact(length) * exact(
            rate,
        ) + covered_off(was),
{
    let low = num(MIN_CLIP_DURATION);
    let whole = product(was.duration, was.speed);
    let found = quotient(whole, rate);
    lemma_shortest();
    lemma_ends();
    lemma_counted(rate);
    lemma_counted(was.duration);
    lemma_counted(was.speed);
    lemma_least();
    let p = pow2(1074) as real;
    lemma_product_no_less(0 as real, exact(was.duration), p);
    lemma_product_no_less(0 as real, exact(was.speed), p);
    lemma_ends_of_product(p);
    lemma_product_more(0 as real, exact(rate), p);
    assert(rate.value() > 0);
    assert(!found.nan() && !(found.infinite() && found.negative())) by {
        reveal(product);
        reveal(quotient);
        lemma_never_below(was.duration, was.speed, rate);
    }
    if found.infinite() {
        assert(!found.less(low));
        assert(length == found);
    }
    assert(found.finite());
    assert(whole.finite()) by {
        reveal(quotient);
    }
    lemma_product_measured(was.duration, was.speed);
    lemma_quotient_measured(whole, rate);
    lemma_relength(
        exact(was.duration),
        exact(was.speed),
        exact(rate),
        exact(whole),
        exact(found),
    );
    lemma_exact_order(found, low);
    lemma_exact_order(low, found);
    if length == low {
        lemma_product_no_less(exact(found), exact(low), exact(rate));
    }
}

/// What is not below zero, times and over what is not, is not below zero.
proof fn lemma_never_below(d: Number, v: Number, rate: Number)
    requires
        d.finite(),
        v.finite(),
        rate.finite(),
        d.value() >= 0,
        v.value() >= 0,
        rate.value() > 0,
    ensures
        ({
            let found = quotient(product(d, v), rate);
            !found.nan() && !(found.infinite() && found.negative())
        }),
{
    reveal(product);
    reveal(quotient);
    let whole = product(d, v);
    lemma_units_monotonic(0, d.magnitude());
    lemma_units_monotonic(0, v.magnitude());
    lemma_units_monotonic(0, rate.magnitude());
    let p = pow2(1074);
    lemma_pow2_pos(1074);
    if d.magnitude() == 0 || v.magnitude() == 0 {
        assert(units_product_zero(d, v)) by {
            assert(0 * units(v.magnitude()) == 0) by (nonlinear_arith);
            assert(units(d.magnitude()) * 0 == 0) by (nonlinear_arith);
        }
        assert(0 * p == 0) by (nonlinear_arith);
        lemma_exact_ratio(0, 0, p);
        assert(whole.magnitude() == 0);
        let u = units(rate.magnitude());
        assert(0 * u == 0) by (nonlinear_arith);
        lemma_exact_ratio(0, 0, u);
    } else {
        assert(!d.negative() && !v.negative());
        lemma_product_of_positive(d, v);
        if whole.finite() {
            lemma_quotient_of_positive(whole, rate);
        }
    }
}

spec fn units_product_zero(d: Number, v: Number) -> bool {
    units(d.magnitude()) * units(v.magnitude()) == 0
}

/// A change of speed keeps the source the clip covers: how long it is, times how
/// fast, is what it was, but for what rounding takes, wherever the new length is not
/// held at the shortest a clip can be; and there it would have been no longer. The
/// speed is the one asked for, held between a sixteenth and sixteen. Where the clip
/// stands, and where it starts in the source, stays.
pub proof fn lemma_a_speed_change_keeps_the_source(
    project: ProjectView,
    counter: nat,
    clip_id: Seq<char>,
    speed: Number,
)
    requires
        project.editable(),
        project.active().clip_index(clip_id) is Some,
        speed.finite(),
        ({
            let i = project.active().clip_index(clip_id)->0;
            let was = project.active().clips[i];
            let is = clips_in(
                project,
                setting_speed(project, counter, clip_id, speed).project,
            )[i];
            &&& timed(was) && is.duration.finite()
            &&& exact(was.duration) >= 0 as real
            &&& exact(was.speed) >= 0 as real
        }),
    ensures
        ({
            let i = project.active().clip_index(clip_id)->0;
            let was = project.active().clips[i];
            let is = clips_in(
                project,
                setting_speed(project, counter, clip_id, speed).project,
            )[i];
            let low = exact(num(MIN_CLIP_DURATION));
            let asked = exact(speed);
            &&& is == ClipView {
                speed: is.speed,
                duration: is.duration,
                speed_curve: None,
                ..was
            }
            &&& is.speed.finite()
            &&& 16 as real * asked >= 1 as real && asked <= 16 as real ==> exact(is.speed) == asked
            &&& 16 as real * asked < 1 as real ==> 16 as real * exact(is.speed) == 1 as real
            &&& asked > 16 as real ==> exact(is.speed) == 16 as real
            &&& exact(is.duration) >= low
            &&& exact(is.duration) > low ==> apart_by(covered(is), covered(was), covered_off(was))
            &&& exact(is.duration) == low ==> covered(was) <= covered(is) + covered_off(was)
        }),
{
    let i = project.active().clip_index(clip_id)->0;
    lemma_first_is(project.timelines, |t: TimelineView| t.id == project.active_timeline_id);
    lemma_first_is(project.active().clips, |c: ClipView| c.id == clip_id);
    let was = project.active().clips[i];
    let is = clips_in(project, setting_speed(project, counter, clip_id, speed).project)[i];
    let rate = clamped(speed, num(MIN_SPEED), num(MAX_SPEED));
    lemma_rate(speed);
    let length = larger(
        quotient(product(was.duration, was.speed), rate),
        num(MIN_CLIP_DURATION),
    );
    lemma_put(was.duration, length);
    lemma_put_rate(was.speed, rate);
    lemma_covers(was, rate, length);
}

proof fn lemma_put_rate(slot: Number, rate: Number)
    requires
        slot.finite(),
        rate.finite(),
    ensures
        put(slot, rate).finite(),
        exact(put(slot, rate)) == exact(rate),
{
    if slot.same(rate) {
        lemma_same_measured(slot, rate);
    }
}

/// A speed, held to the range.
proof fn lemma_rate(speed: Number)
    requires
        speed.finite(),
    ensures
        ({
            let rate = clamped(speed, num(MIN_SPEED), num(MAX_SPEED));
            let asked = exact(speed);
            &&& rate.finite()
            &&& exact(rate) > 0 as real && exact(rate) <= 16 as real
            &&& 16 as real * asked >= 1 as real && asked <= 16 as real ==> exact(rate) == asked
            &&& 16 as real * asked < 1 as real ==> 16 as real * exact(rate) == 1 as real
            &&& asked > 16 as real ==> exact(rate) == 16 as real
        }),
{
    lemma_speeds();
    lemma_exact_order(speed, num(MIN_SPEED));
    lemma_exact_order(num(MIN_SPEED), speed);
    lemma_exact_order(speed, num(MAX_SPEED));
    lemma_exact_order(num(MAX_SPEED), speed);
}

/// Giving a clip a speed curve, or taking it away, keeps the source it covers at the
/// mean speed it is given, as a change of speed does.
pub proof fn lemma_a_speed_curve_keeps_the_source(
    project: ProjectView,
    counter: nat,
    clip_id: Seq<char>,
    points: Option<Vec<SpeedPoint>>,
    mean: Option<Number>,
)
    requires
        project.editable(),
        project.active().clip_index(clip_id) is Some,
        mean is Some ==> mean->0.finite(),
        ({
            let i = project.active().clip_index(clip_id)->0;
            let was = project.active().clips[i];
            let is = clips_in(
                project,
                setting_curve(project, counter, clip_id, points, mean).project,
            )[i];
            &&& timed(was) && is.duration.finite()
            &&& exact(was.duration) >= 0 as real
            &&& exact(was.speed) >= 0 as real
        }),
    ensures
        ({
            let i = project.active().clip_index(clip_id)->0;
            let was = project.active().clips[i];
            let is = clips_in(
                project,
                setting_curve(project, counter, clip_id, points, mean).project,
            )[i];
            let low = exact(num(MIN_CLIP_DURATION));
            let asked = if points is Some && mean is Some {
                exact(mean->0)
            } else {
                exact(was.speed)
            };
            &&& is == ClipView {
                speed: is.speed,
                duration: is.duration,
                speed_curve: is.speed_curve,
                ..was
            }
            &&& points is None || mean is None ==> is.speed_curve is None
            &&& points is Some && mean is Some ==> is.speed_curve is Some
            &&& 16 as real * asked >= 1 as real && asked <= 16 as real ==> exact(is.speed) == asked
            &&& exact(is.duration) >= low
            &&& exact(is.duration) > low ==> apart_by(covered(is), covered(was), covered_off(was))
            &&& exact(is.duration) == low ==> covered(was) <= covered(is) + covered_off(was)
        }),
{
    let i = project.active().clip_index(clip_id)->0;
    lemma_first_is(project.timelines, |t: TimelineView| t.id == project.active_timeline_id);
    lemma_first_is(project.active().clips, |c: ClipView| c.id == clip_id);
    let was = project.active().clips[i];
    let is = clips_in(project, setting_curve(project, counter, clip_id, points, mean).project)[i];
    let speed = if points is Some && mean is Some {
        mean->0
    } else {
        was.speed
    };
    let rate = clamped(speed, num(MIN_SPEED), num(MAX_SPEED));
    lemma_rate(speed);
    let length = larger(
        quotient(product(was.duration, was.speed), rate),
        num(MIN_CLIP_DURATION),
    );
    lemma_put(was.duration, length);
    lemma_put_rate(was.speed, rate);
    lemma_covers(was, rate, length);
}

/// A change of speed and its reverse give the length back: what the clip covers at
/// its old speed is what it covered, but for what rounding takes twice, wherever
/// neither length is held at the shortest.
pub proof fn lemma_a_speed_change_can_be_taken_back(
    project: ProjectView,
    counter: nat,
    clip_id: Seq<char>,
    speed: Number,
)
    requires
        project.editable(),
        project.active().clip_index(clip_id) is Some,
        speed.finite(),
        ({
            let i = project.active().clip_index(clip_id)->0;
            let was = project.active().clips[i];
            let there = setting_speed(project, counter, clip_id, speed).project;
            let between = clips_in(project, there)[i];
            let back = setting_speed(there, counter, clip_id, was.speed).project;
            let is = clips_in(project, back)[i];
            let low = exact(num(MIN_CLIP_DURATION));
            &&& timed(was) && between.duration.finite() && is.duration.finite()
            &&& exact(was.duration) >= 0 as real
            &&& 16 as real * exact(was.speed) >= 1 as real && exact(was.speed) <= 16 as real
            &&& exact(between.duration) > low && exact(is.duration) > low
        }),
    ensures
        ({
            let i = project.active().clip_index(clip_id)->0;
            let was = project.active().clips[i];
            let there = setting_speed(project, counter, clip_id, speed).project;
            let between = clips_in(project, there)[i];
            let back = setting_speed(there, counter, clip_id, was.speed).project;
            let is = clips_in(project, back)[i];
            let v = exact(was.speed);
            &&& exact(is.speed) == v
            &&& apart_by(
                exact(is.duration) * v,
                exact(was.duration) * v,
                covered_off(was) + covered_off(between),
            )
        }),
{
    let i = project.active().clip_index(clip_id)->0;
    let was = project.active().clips[i];
    lemma_a_speed_change_keeps_the_source(project, counter, clip_id, speed);
    let there = setting_speed(project, counter, clip_id, speed).project;
    let between = clips_in(project, there)[i];
    lemma_first_is(project.timelines, |t: TimelineView| t.id == project.active_timeline_id);
    lemma_first_is(project.active().clips, |c: ClipView| c.id == clip_id);
    lemma_same_active(project, project.active().with_clip(i, between));
    assert(there == project.with_active(project.active().with_clip(i, between)));
    assert(there.active().clips =~= project.active().clips.update(i, between));
    let mine = |c: ClipView| c.id == clip_id;
    assert(is_first(there.active().clips, mine, i)) by {
        assert(is_first(project.active().clips, mine, i));
    }
    lemma_first(there.active().clips, mine, i);
    lemma_speeds();
    lemma_shortest();
    lemma_a_speed_change_keeps_the_source(there, counter, clip_id, was.speed);
}

// Cuts.

/// Whether a time falls in a clip, a shortest clip from either end.
pub open spec fn falls_inside(clip: ClipView, time: Number) -> bool {
    let offset = difference(time, clip.start);
    &&& num(MIN_CLIP_DURATION).less(offset)
    &&& offset.less(difference(clip.duration, num(MIN_CLIP_DURATION)))
}

/// Two pieces of a clip: the first is the clip up to the cut and the second the rest
/// of it. Together they are as long, the second shows from its start on what the
/// clip showed from the cut on, and both run at the clip's speed.
pub open spec fn is_cut(clip: ClipView, head: ClipView, tail: ClipView, cut: real) -> bool {
    let n = magnitude(exact(tail.source_start));
    let v = magnitude(exact(clip.speed));
    let way = magnitude(exact(head.duration));
    let g = grain();
    &&& head.start == clip.start && head.source_start == clip.source_start
    &&& head.speed == clip.speed && tail.speed == clip.speed
    &&& head.id == clip.id && head.track_id == clip.track_id && tail.track_id == clip.track_id
    &&& head.media_id == clip.media_id && tail.media_id == clip.media_id
    &&& head.kind == clip.kind && tail.kind == clip.kind
    &&& apart_by(
        exact(head.duration),
        cut - exact(clip.start),
        2 as real * (g * magnitude(exact(head.duration))),
    )
    &&& apart_by(
        exact(head.duration) + exact(tail.duration),
        exact(clip.duration),
        2 as real * (g * magnitude(exact(tail.duration))),
    )
    &&& apart_by(
        exact(tail.source_start),
        shown(clip, exact(clip.start) + exact(head.duration)),
        4 as real * (g * (n + way * v)) + least(),
    )
}

/// The two pieces a cut makes.
proof fn lemma_is_cut(
    clip: ClipView,
    flat: ClipView,
    time: Number,
    id: Seq<char>,
    start: Number,
    ride: Ride,
)
    requires
        timed(clip),
        time.finite(),
        falls_inside(clip, time),
        flat == clip || flat == (ClipView { speed_curve: None, ..clip }),
        ({
            let offset = difference(time, clip.start);
            let tail = tail_of(flat, offset, id, start, ride);
            tail.source_start.finite() && tail.duration.finite()
        }),
    ensures
        ({
            let offset = difference(time, clip.start);
            let head = head_of(flat, offset, ride);
            let tail = tail_of(flat, offset, id, start, ride);
            &&& is_cut(clip, head, tail, exact(time))
            &&& head.duration == offset
            &&& tail.start == start && tail.id == id
            &&& offset.finite()
            &&& exact(head.duration) > 0 as real
        }),
{
    let offset = difference(time, clip.start);
    let head = head_of(flat, offset, ride);
    let tail = tail_of(flat, offset, id, start, ride);
    lemma_windowed_keeps(
        ClipView { duration: offset, fade_out: num(ZERO), ..flat },
        flat.duration,
        num(ZERO),
        offset,
        ride,
    );
    lemma_windowed_keeps(
        ClipView {
            id,
            start,
            duration: difference(flat.duration, offset),
            source_start: sum(flat.source_start, product(offset, flat.speed)),
            transition_in: None,
            fade_in: num(ZERO),
            ..flat
        },
        flat.duration,
        offset,
        flat.duration,
        ride,
    );
    lemma_of_numbers(clip.duration, negated(offset));
    lemma_of_numbers(clip.source_start, product(offset, clip.speed));
    lemma_shortest();
    lemma_exact_order(num(MIN_CLIP_DURATION), offset);
    lemma_difference_measured(time, clip.start);
    lemma_difference_measured(clip.duration, offset);
    lemma_product_measured(offset, clip.speed);
    lemma_sum_measured(clip.source_start, product(offset, clip.speed));
    let o = exact(offset);
    let v = exact(clip.speed);
    lemma_rounded_back(o, exact(time) - exact(clip.start));
    lemma_rounded_back(exact(tail.duration), exact(clip.duration) - o);
    lemma_magnitudes(o, v);
    lemma_small_grain(magnitude(o));
    lemma_in_point(
        exact(clip.source_start),
        exact(tail.source_start),
        o,
        o,
        exact(product(offset, clip.speed)),
        v,
    );
    let b = exact(clip.start);
    assert((b + o) - b == o);
}

/// A split makes two pieces of its clip, one after the other, of all that the clip
/// showed and nothing else, and leaves every other clip alone.
pub proof fn lemma_a_split_shows_the_same(
    project: ProjectView,
    counter: nat,
    clip_id: Seq<char>,
    time: Number,
    ride: Ride,
)
    requires
        project.editable(),
        project.active().clip_index(clip_id) is Some,
        time.finite(),
        ({
            let i = project.active().clip_index(clip_id)->0;
            let was = project.active().clips[i];
            let is = clips_in(
                project,
                splitting(project, counter, seq![clip_id], time, ride).project,
            );
            &&& timed(was) && timed(is[i + 1])
            &&& falls_inside(was, time)
        }),
    ensures
        ({
            let i = project.active().clip_index(clip_id)->0;
            let was = project.active().clips;
            let is = clips_in(
                project,
                splitting(project, counter, seq![clip_id], time, ride).project,
            );
            &&& is.len() == was.len() + 1
            &&& is_cut(was[i], is[i], is[i + 1], exact(time))
            &&& apart_by(
                exact(is[i + 1].start),
                exact(is[i].start) + exact(is[i].duration),
                2 as real * (grain() * magnitude(exact(is[i + 1].start))),
            )
            &&& forall|k: int| 0 <= k < i ==> #[trigger] is[k] == was[k]
            &&& forall|k: int| i + 1 < k < is.len() ==> #[trigger] is[k] == was[k - 1]
        }),
{
    let i = project.active().clip_index(clip_id)->0;
    lemma_first_is(project.timelines, |t: TimelineView| t.id == project.active_timeline_id);
    lemma_first_is(project.active().clips, |c: ClipView| c.id == clip_id);
    let was = project.active().clips;
    let clip = was[i];
    let ids = seq![clip_id];
    let offset = difference(time, clip.start);
    let flat = uncurved(clip, offset);
    reveal_with_fuel(split_all, 2);
    assert(ids.drop_last() =~= Seq::<Seq<char>>::empty());
    assert(ids.last() == clip_id);
    assert(!misses(flat, offset));
    let start = sum(clip.start, offset);
    let id = minted("c"@, counter);
    let is = clips_in(project, splitting(project, counter, ids, time, ride).project);
    assert(is[i] == head_of(flat, offset, ride));
    assert(is[i + 1] == tail_of(flat, offset, id, start, ride));
    lemma_is_cut(clip, flat, time, id, start, ride);
    lemma_sum_measured(clip.start, offset);
    lemma_rounded_back(exact(start), exact(clip.start) + exact(offset));
}

/// A freeze holds as long as it is asked to. The still stands at the time it is
/// asked for and lasts what is asked, or the shortest a clip can be where that is
/// shorter; one second where nothing is asked, or nothing above zero. The clip is cut
/// there, and everything of its lane from there on, the rest of the clip first, starts
/// later by exactly what the still lasts. Nothing else moves.
pub proof fn lemma_a_freeze_holds_what_is_asked(
    project: ProjectView,
    counter: nat,
    clip_id: Seq<char>,
    time: Number,
    duration: Option<Number>,
    still: Option<NewMediaView>,
    ride: Ride,
)
    requires
        project.editable(),
        project.active().clip_index(clip_id) is Some,
        time.finite(),
        ({
            let i = project.active().clip_index(clip_id)->0;
            let was = project.active().clips[i];
            let is = clips_in(
                project,
                freezing(project, counter, clip_id, time, duration, still, ride).project,
            );
            &&& timed(was) && is[i + 1].source_start.finite() && is[i + 1].duration.finite()
            &&& falls_inside(was, time)
            &&& was.kind is Image || (was.kind is Video && still is Some)
        }),
    ensures
        ({
            let i = project.active().clip_index(clip_id)->0;
            let was = project.active().clips;
            let is = clips_in(
                project,
                freezing(project, counter, clip_id, time, duration, still, ride).project,
            );
            let frame = is.last();
            let late = |k: int| was[k].track_id == was[i].track_id && time.at_most(was[k].start);
            &&& is.len() == was.len() + 2
            &&& frame.start == time && frame.track_id == was[i].track_id && frame.kind is Image
            &&& duration is Some && num(MIN_CLIP_DURATION).at_most(duration->0) ==> frame.duration
                == duration->0
            &&& duration is Some && num(ZERO).less(duration->0) && duration->0.less(
                num(MIN_CLIP_DURATION),
            ) ==> frame.duration == num(MIN_CLIP_DURATION)
            &&& duration is None || !num(ZERO).less(duration->0) ==> frame.duration == num(ONE)
            &&& is_cut(was[i], is[i], is[i + 1], exact(time))
            &&& is[i + 1].start == sum(time, frame.duration)
            &&& forall|k: int|
                0 <= k < i ==> #[trigger] is[k] == if late(k) {
                    ClipView { start: sum(was[k].start, frame.duration), ..was[k] }
                } else {
                    was[k]
                }
            &&& forall|k: int|
                i + 1 < k < is.len() - 1 ==> #[trigger] is[k] == if late(k - 1) {
                    ClipView { start: sum(was[k - 1].start, frame.duration), ..was[k - 1] }
                } else {
                    was[k - 1]
                }
        }),
{
    let i = project.active().clip_index(clip_id)->0;
    lemma_first_is(project.timelines, |t: TimelineView| t.id == project.active_timeline_id);
    lemma_first_is(project.active().clips, |c: ClipView| c.id == clip_id);
    let was = project.active().clips;
    let clip = was[i];
    let flat = ClipView { speed_curve: None, ..clip };
    let offset = difference(time, clip.start);
    let is = clips_in(
        project,
        freezing(project, counter, clip_id, time, duration, still, ride).project,
    );
    lemma_shortest();
    lemma_ends();
    assert(!misses(clip, offset));
    let frame = is.last();
    let count = match still {
        Some(item) => shelved(
            project,
            counter,
            item.still(minted("m"@, counter)),
        ).1,
        None => counter,
    };
    let id = minted("c"@, count);
    let head = head_of(flat, offset, ride);
    let tail = tail_of(flat, offset, id, time, ride);
    lemma_windowed_keeps(
        ClipView {
            id,
            start: time,
            duration: difference(flat.duration, offset),
            source_start: sum(flat.source_start, product(offset, flat.speed)),
            transition_in: None,
            fade_in: num(ZERO),
            ..flat
        },
        flat.duration,
        offset,
        flat.duration,
        ride,
    );
    lemma_windowed_keeps(
        ClipView { duration: offset, fade_out: num(ZERO), ..flat },
        flat.duration,
        num(ZERO),
        offset,
        ride,
    );
    lemma_is_later(time, clip.start);
    assert(is[i] == head);
    assert(is[i + 1] == (ClipView { start: sum(time, frame.duration), ..tail }));
    lemma_is_cut(clip, flat, time, id, time, ride);
    assert(is_cut(clip, head, tail, exact(time)));
}

/// What is further from another than nothing is after it.
proof fn lemma_is_later(time: Number, start: Number)
    requires
        time.finite(),
        start.finite(),
        num(MIN_CLIP_DURATION).less(difference(time, start)),
    ensures
        !time.at_most(start),
{
    if time.at_most(start) {
        lemma_sum_keeps_order(time, start, negated(start));
        reveal(sum);
        assert(negated(start).value() == -start.value());
        assert(difference(start, start).magnitude() == 0);
    }
}

} // verus!
