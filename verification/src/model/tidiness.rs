//! What tidying leaves: every number in its range, keys that can be played and in
//! order, and nothing for a second tidying to do.

use crate::find::{lemma_filter_all, lemma_filter_keeps, lemma_filter_kept};
use crate::model::clip::{
    held_key, held_point, tidied_chain, tidied_crop, tidied_curve, tidied_keys, tidied_points,
    ClipView,
};
use crate::model::filter::{finite_params, pruned, straight_run, straight_runs, FilterView};
use crate::model::keys::{
    closest, lemma_closest, ordered_run, reaches, ClipKey, KeyEase, KeyProperty, ParamKey,
    SpeedPoint,
};
use crate::model::picture::{tidied_strokes, Crop, CutoutView, Point, StrokeView};
use crate::model::style::{
    StyleView, TransitionView, BACKGROUND_PADDING_X, BACKGROUND_PADDING_Y, BACKGROUND_RADIUS,
    FONT_SIZE, FONT_WEIGHT, LINE_HEIGHT, MAX_FONT_WEIGHT, MIN_FONT_SIZE, MIN_FONT_WEIGHT,
    MIN_LINE_HEIGHT,
};
use crate::number::{
    clamped, difference, larger, lemma_nearest_at_most, lemma_units_monotonic, negated, num, sum,
    units, Number, ONE, ZERO,
};
use crate::order::{
    in_order, lemma_sorted, lemma_sorted_already, lemma_sorted_holds, sorted, Ranked,
};
use crate::ranges::{
    between, finite_or, in_clip, lemma_wrapped_in_range, lemma_wrapping_settles, whole_degrees,
    wrapped, HALF_TURN, MAX_BRUSH, MAX_CROP, MAX_FEATHER, MAX_OFFSET, MAX_SCALE, MAX_SPEED,
    MAX_STRETCH, MAX_STROKE, MINUS_HALF_TURN, MIN_BRUSH, MIN_CLIP_DURATION, MIN_OFFSET, MIN_SCALE,
    MIN_SPEED, MIN_STRETCH, MIN_STROKE, MIN_TRANSITION,
};
use vstd::prelude::*;

verus! {

// Ranges.

/// Whether a number is finite and no less than `low`.
pub open spec fn no_less(x: Number, low: Number) -> bool {
    x.finite() && low.at_most(x)
}

/// Whether a key can be played and holds a value its property can have.
pub open spec fn key_in_range(key: ClipKey) -> bool {
    &&& key.valid()
    &&& key.ease.all_finite()
    &&& match key.property {
        KeyProperty::Scale => between(key.value, num(MIN_SCALE), num(MAX_SCALE)),
        KeyProperty::Opacity => between(key.value, num(ZERO), num(ONE)),
        KeyProperty::Volume => no_less(key.value, num(ZERO)),
        KeyProperty::OffsetX => between(key.value, num(MIN_OFFSET), num(MAX_OFFSET)),
        KeyProperty::OffsetY => between(key.value, num(MIN_OFFSET), num(MAX_OFFSET)),
        KeyProperty::Rotation => true,
    }
}

/// Whether a clip's keys can all be played, hold what their properties can have
/// and stand in order.
pub open spec fn keys_in_range(keys: Seq<ClipKey>) -> bool {
    &&& forall|i: int| 0 <= i < keys.len() ==> key_in_range(#[trigger] keys[i])
    &&& in_order(keys, |k: ClipKey| k.rank())
}

/// Whether a run holds keys, all of which can be played, in order.
pub open spec fn run_in_range(run: Seq<ParamKey>) -> bool {
    &&& run.len() > 0
    &&& forall|i: int| 0 <= i < run.len() ==> (#[trigger] run[i]).valid() && run[i].ease.all_finite()
    &&& in_order(run, |k: ParamKey| k.rank())
}

/// Whether the settings of a filter are finite and its runs can be played.
pub open spec fn runs_in_range(filter: FilterView) -> bool {
    &&& forall|name: Seq<char>| #[trigger]
        filter.params.dom().contains(name) ==> filter.params[name].finite()
    &&& forall|name: Seq<char>| #[trigger]
        filter.keys.dom().contains(name) ==> run_in_range(filter.keys[name])
}

pub open spec fn chain_in_range(filters: Seq<FilterView>) -> bool {
    forall|i: int| 0 <= i < filters.len() ==> runs_in_range(#[trigger] filters[i])
}

/// Whether a curve has a point, and every point lies in the clip at a speed that
/// can be played.
pub open spec fn curve_in_range(points: Seq<SpeedPoint>) -> bool {
    &&& points.len() > 0
    &&& forall|i: int|
        0 <= i < points.len() ==> in_clip((#[trigger] points[i]).at) && between(
            points[i].speed,
            num(MIN_SPEED),
            num(MAX_SPEED),
        )
}

/// Whether a crop takes no more off an edge than it may, and something off one.
pub open spec fn crop_in_range(crop: Crop) -> bool {
    &&& between(crop.left, num(ZERO), num(MAX_CROP))
    &&& between(crop.top, num(ZERO), num(MAX_CROP))
    &&& between(crop.right, num(ZERO), num(MAX_CROP))
    &&& between(crop.bottom, num(ZERO), num(MAX_CROP))
    &&& !crop.nothing()
}

pub open spec fn stroke_in_range(stroke: StrokeView) -> bool {
    &&& between(stroke.size, num(MIN_BRUSH), num(MAX_BRUSH))
    &&& stroke.at matches Some(at) ==> no_less(at, num(ZERO))
    &&& stroke.points.len() > 0
    &&& forall|i: int|
        0 <= i < stroke.points.len() ==> between(
            (#[trigger] stroke.points[i]).x,
            num(MIN_STROKE),
            num(MAX_STROKE),
        ) && between(stroke.points[i].y, num(MIN_STROKE), num(MAX_STROKE))
}

pub open spec fn cutout_in_range(cutout: CutoutView) -> bool {
    &&& between(cutout.feather, num(ZERO), num(MAX_FEATHER))
    &&& forall|i: int|
        0 <= i < cutout.strokes.len() ==> stroke_in_range(#[trigger] cutout.strokes[i])
}

pub open spec fn style_in_range(style: StyleView) -> bool {
    &&& between(style.font_size, num(MIN_FONT_SIZE), num(ONE))
    &&& between(style.font_weight, num(MIN_FONT_WEIGHT), num(MAX_FONT_WEIGHT))
    &&& between(style.opacity, num(ZERO), num(ONE))
    &&& no_less(style.stroke_width, num(ZERO))
    &&& no_less(style.background_radius, num(ZERO))
    &&& no_less(style.background_padding_x, num(ZERO))
    &&& no_less(style.background_padding_y, num(ZERO))
    &&& no_less(style.line_height, num(MIN_LINE_HEIGHT))
    &&& style.tracking.finite()
    &&& no_less(style.max_width, num(ZERO))
    &&& no_less(style.max_height, num(ZERO))
}

/// Whether the numbers of a clip's own are in the ranges the commands hold them
/// to.
pub open spec fn numbers_in_range(clip: ClipView) -> bool {
    &&& no_less(clip.start, num(ZERO))
    &&& no_less(clip.duration, num(MIN_CLIP_DURATION))
    &&& no_less(clip.source_start, num(ZERO))
    &&& no_less(clip.volume, num(ZERO))
    &&& no_less(clip.fade_in, num(ZERO))
    &&& no_less(clip.fade_out, num(ZERO))
    &&& between(clip.scale, num(MIN_SCALE), num(MAX_SCALE))
    &&& between(clip.offset_x, num(MIN_OFFSET), num(MAX_OFFSET))
    &&& between(clip.offset_y, num(MIN_OFFSET), num(MAX_OFFSET))
    &&& num(MINUS_HALF_TURN).less(clip.rotation) && clip.rotation.at_most(num(HALF_TURN))
    &&& between(clip.stretch_x, num(MIN_STRETCH), num(MAX_STRETCH))
    &&& between(clip.stretch_y, num(MIN_STRETCH), num(MAX_STRETCH))
    &&& between(clip.opacity, num(ZERO), num(ONE))
    &&& between(clip.speed, num(MIN_SPEED), num(MAX_SPEED))
}

/// Whether everything a clip carries is in the ranges the commands hold it to.
pub open spec fn parts_in_range(clip: ClipView) -> bool {
    &&& clip.speed_curve matches Some(points) ==> curve_in_range(points)
    &&& keys_in_range(clip.keys)
    &&& clip.crop matches Some(crop) ==> crop_in_range(crop)
    &&& clip.cutout matches Some(cutout) ==> cutout_in_range(cutout)
    &&& chain_in_range(clip.filters)
    &&& chain_in_range(clip.video_effects)
    &&& clip.muted != Some(false)
    &&& clip.transition_in matches Some(transition) ==> no_less(
        transition.duration,
        num(MIN_TRANSITION),
    )
    &&& clip.text matches Some(style) ==> style_in_range(style)
}

proof fn lemma_keys_in_range(keys: Seq<ClipKey>)
    ensures
        keys_in_range(tidied_keys(keys)),
{
    let playable = |k: ClipKey| in_clip(k.at) && k.value.finite();
    let held = |k: ClipKey| held_key(k);
    let valid = |k: ClipKey| k.valid();
    let rank = |k: ClipKey| k.rank();
    let ready = |k: ClipKey| key_in_range(k);
    let kept = keys.filter(playable);
    lemma_filter_kept(keys, playable);
    let list = kept.map_values(held);
    assert forall|i: int| 0 <= i < list.len() implies ready(#[trigger] list[i]) by {
        assert(playable(kept[i]));
    }
    assert forall|i: int| 0 <= i < list.len() implies valid(#[trigger] list[i]) by {
        assert(ready(list[i]));
    }
    lemma_filter_all(list, valid);
    lemma_sorted(list, rank);
    lemma_sorted_holds(list, rank, ready);
    assert forall|i: int| 0 <= i < tidied_keys(keys).len() implies key_in_range(
        #[trigger] tidied_keys(keys)[i],
    ) by {
        assert(ready(sorted(list, rank)[i]));
    }
}

proof fn lemma_run_in_order(run: Seq<ParamKey>)
    ensures
        forall|i: int| 0 <= i < ordered_run(run).len() ==> (#[trigger] ordered_run(run)[i]).valid(),
        in_order(ordered_run(run), |k: ParamKey| k.rank()),
{
    let valid = |k: ParamKey| k.valid();
    let rank = |k: ParamKey| k.rank();
    let kept = run.filter(valid);
    lemma_filter_kept(run, valid);
    lemma_sorted(kept, rank);
    lemma_sorted_holds(kept, rank, valid);
    assert forall|i: int| 0 <= i < ordered_run(run).len() implies (
    #[trigger] ordered_run(run)[i]).valid() by {
        assert(valid(sorted(kept, rank)[i]));
    }
}

proof fn lemma_chain_in_range(filters: Seq<FilterView>)
    ensures
        chain_in_range(tidied_chain(filters)),
{
    assert forall|i: int| 0 <= i < tidied_chain(filters).len() implies runs_in_range(
        #[trigger] tidied_chain(filters)[i],
    ) by {
        let filter = filters[i];
        let tidy = filter.tidied();
        assert(tidied_chain(filters)[i] == tidy);
        assert forall|name: Seq<char>| #[trigger] tidy.keys.dom().contains(name) implies run_in_range(
            tidy.keys[name],
        ) by {
            let run = ordered_run(filter.keys[name]);
            lemma_run_in_order(filter.keys[name]);
            assert(tidy.keys[name] == straight_run(run));
            let rank = |k: ParamKey| k.rank();
            assert forall|k: int| 0 <= k < run.len() implies rank(
                #[trigger] straight_run(run)[k],
            ) == rank(run[k]) && straight_run(run)[k].valid() by {
                assert(run[k].valid());
            }
        }
    }
}

proof fn lemma_curve_in_range(points: Seq<SpeedPoint>)
    ensures
        tidied_points(points).len() > 0 ==> curve_in_range(tidied_points(points)),
{
    let inside = |p: SpeedPoint| p.at.finite() && in_clip(p.at);
    let kept = points.filter(inside);
    lemma_filter_kept(points, inside);
    assert forall|i: int| 0 <= i < tidied_points(points).len() implies in_clip(
        (#[trigger] tidied_points(points)[i]).at,
    ) && between(tidied_points(points)[i].speed, num(MIN_SPEED), num(MAX_SPEED)) by {
        assert(inside(kept[i]));
        assert(tidied_points(points)[i] == held_point(kept[i]));
    }
}

/// What is left of the most a crop takes, once one edge has had its part.
proof fn lemma_rest_of_crop(near: Number)
    requires
        between(near, num(ZERO), num(MAX_CROP)),
    ensures
        between(larger(difference(num(MAX_CROP), near), num(ZERO)), num(ZERO), num(MAX_CROP)),
{
    reveal(sum);
    let most = units(MAX_CROP as nat);
    lemma_units_monotonic(near.magnitude(), MAX_CROP as nat);
    lemma_units_monotonic(0, near.magnitude());
    let left = num(MAX_CROP).value() + negated(near).value();
    assert(negated(near).magnitude() == near.magnitude());
    if near.magnitude() > 0 {
        assert(!near.negative());
        assert(negated(near).negative());
    }
    assert(units(0) == 0);
    assert(0 <= left <= most);
    lemma_nearest_at_most(left as nat, MAX_CROP as nat);
}

proof fn lemma_crop_in_range(crop: Crop)
    requires
        !crop.tidied().nothing(),
    ensures
        crop_in_range(crop.tidied()),
{
    lemma_rest_of_crop(crop.tidied().left);
    lemma_rest_of_crop(crop.tidied().top);
}

proof fn lemma_strokes_in_range(strokes: Seq<StrokeView>)
    ensures
        forall|i: int|
            0 <= i < tidied_strokes(strokes).len() ==> stroke_in_range(
                #[trigger] tidied_strokes(strokes)[i],
            ),
    decreases strokes.len(),
{
    if strokes.len() > 0 {
        lemma_strokes_in_range(strokes.drop_last());
        let rest = tidied_strokes(strokes.drop_last());
        let last = strokes.last();
        if last.tidied() is Some {
            let finite = |p: Point| p.all_finite();
            let kept = last.points.filter(finite);
            lemma_filter_kept(last.points, finite);
            let stroke = last.tidied().unwrap();
            assert forall|i: int| 0 <= i < stroke.points.len() implies between(
                (#[trigger] stroke.points[i]).x,
                num(MIN_STROKE),
                num(MAX_STROKE),
            ) && between(stroke.points[i].y, num(MIN_STROKE), num(MAX_STROKE)) by {
                assert(finite(kept[i]));
                assert(stroke.points[i] == kept[i].held());
            }
            assert(stroke_in_range(stroke));
        }
        assert forall|i: int| 0 <= i < tidied_strokes(strokes).len() implies stroke_in_range(
            #[trigger] tidied_strokes(strokes)[i],
        ) by {
            if i < rest.len() {
                assert(stroke_in_range(rest[i]));
            }
        }
    }
}

proof fn lemma_clamped(x: Number, fallback: Number, low: Number, high: Number)
    requires
        fallback.finite(),
        low.finite(),
        high.finite(),
        low.at_most(high),
    ensures
        between(clamped(finite_or(x, fallback), low, high), low, high),
        clamped(finite_or(clamped(finite_or(x, fallback), low, high), fallback), low, high)
            == clamped(finite_or(x, fallback), low, high),
{
}

proof fn lemma_larger(x: Number, fallback: Number, low: Number)
    requires
        fallback.finite(),
        low.finite(),
    ensures
        no_less(larger(finite_or(x, fallback), low), low),
        larger(finite_or(larger(finite_or(x, fallback), low), fallback), low) == larger(
            finite_or(x, fallback),
            low,
        ),
{
}

/// Where the numbers of a tidied clip come from.
spec fn numbers_tidied(clip: ClipView, tidy: ClipView) -> bool {
    &&& tidy.start == larger(finite_or(clip.start, num(ZERO)), num(ZERO))
    &&& tidy.duration == larger(finite_or(clip.duration, num(ONE)), num(MIN_CLIP_DURATION))
    &&& tidy.source_start == larger(finite_or(clip.source_start, num(ZERO)), num(ZERO))
    &&& tidy.volume == larger(finite_or(clip.volume, num(ONE)), num(ZERO))
    &&& tidy.fade_in == larger(finite_or(clip.fade_in, num(ZERO)), num(ZERO))
    &&& tidy.fade_out == larger(finite_or(clip.fade_out, num(ZERO)), num(ZERO))
    &&& tidy.scale == clamped(finite_or(clip.scale, num(ONE)), num(MIN_SCALE), num(MAX_SCALE))
    &&& tidy.offset_x == clamped(
        finite_or(clip.offset_x, num(ZERO)),
        num(MIN_OFFSET),
        num(MAX_OFFSET),
    )
    &&& tidy.offset_y == clamped(
        finite_or(clip.offset_y, num(ZERO)),
        num(MIN_OFFSET),
        num(MAX_OFFSET),
    )
    &&& tidy.rotation == wrapped(finite_or(clip.rotation, num(ZERO)))
    &&& tidy.stretch_x == clamped(
        finite_or(clip.stretch_x, num(ONE)),
        num(MIN_STRETCH),
        num(MAX_STRETCH),
    )
    &&& tidy.stretch_y == clamped(
        finite_or(clip.stretch_y, num(ONE)),
        num(MIN_STRETCH),
        num(MAX_STRETCH),
    )
    &&& tidy.opacity == clamped(finite_or(clip.opacity, num(ONE)), num(ZERO), num(ONE))
    &&& tidy.speed == clamped(finite_or(clip.speed, num(ONE)), num(MIN_SPEED), num(MAX_SPEED))
}

proof fn lemma_numbers_tidied(clip: ClipView)
    ensures
        numbers_tidied(clip, clip.tidied()),
{
    reveal(ClipView::tidied);
}

/// The ranges are ranges, and what stands in for a number is one.
spec fn sane_ranges() -> bool {
    &&& num(ZERO).finite() && num(ONE).finite() && num(MIN_CLIP_DURATION).finite()
    &&& num(MIN_SCALE).finite() && num(MAX_SCALE).finite() && num(MIN_SCALE).at_most(
        num(MAX_SCALE),
    )
    &&& num(MIN_OFFSET).finite() && num(MAX_OFFSET).finite() && num(MIN_OFFSET).at_most(
        num(MAX_OFFSET),
    )
    &&& num(MIN_STRETCH).finite() && num(MAX_STRETCH).finite() && num(MIN_STRETCH).at_most(
        num(MAX_STRETCH),
    )
    &&& num(MIN_SPEED).finite() && num(MAX_SPEED).finite() && num(MIN_SPEED).at_most(
        num(MAX_SPEED),
    )
    &&& num(ZERO).at_most(num(ONE))
}

proof fn lemma_sane_ranges()
    ensures
        sane_ranges(),
{
}

/// Each of a clip's own numbers, tidied, is in range, and tidied again is as it
/// is.
proof fn lemma_each_number(clip: ClipView)
    ensures
        numbers_in_range(clip.tidied()),
        ({
            let tidy = clip.tidied();
            let again = tidy.tidied();
            wrapped(tidy.rotation) == tidy.rotation ==> numbers_alike(tidy, again)
        }),
{
    let tidy = clip.tidied();
    lemma_sane_ranges();
    lemma_numbers_tidied(clip);
    lemma_numbers_tidied(tidy);
    lemma_larger(clip.start, num(ZERO), num(ZERO));
    lemma_larger(clip.duration, num(ONE), num(MIN_CLIP_DURATION));
    lemma_larger(clip.source_start, num(ZERO), num(ZERO));
    lemma_larger(clip.volume, num(ONE), num(ZERO));
    lemma_larger(clip.fade_in, num(ZERO), num(ZERO));
    lemma_larger(clip.fade_out, num(ZERO), num(ZERO));
    lemma_clamped(clip.scale, num(ONE), num(MIN_SCALE), num(MAX_SCALE));
    lemma_clamped(clip.offset_x, num(ZERO), num(MIN_OFFSET), num(MAX_OFFSET));
    lemma_clamped(clip.offset_y, num(ZERO), num(MIN_OFFSET), num(MAX_OFFSET));
    lemma_clamped(clip.stretch_x, num(ONE), num(MIN_STRETCH), num(MAX_STRETCH));
    lemma_clamped(clip.stretch_y, num(ONE), num(MIN_STRETCH), num(MAX_STRETCH));
    lemma_clamped(clip.opacity, num(ONE), num(ZERO), num(ONE));
    lemma_clamped(clip.speed, num(ONE), num(MIN_SPEED), num(MAX_SPEED));
    lemma_wrapped_in_range(finite_or(clip.rotation, num(ZERO)));
    assert(tidy.rotation.finite());
}

spec fn numbers_alike(a: ClipView, b: ClipView) -> bool {
    &&& a.start == b.start
    &&& a.duration == b.duration
    &&& a.source_start == b.source_start
    &&& a.volume == b.volume
    &&& a.fade_in == b.fade_in
    &&& a.fade_out == b.fade_out
    &&& a.scale == b.scale
    &&& a.offset_x == b.offset_x
    &&& a.offset_y == b.offset_y
    &&& a.rotation == b.rotation
    &&& a.stretch_x == b.stretch_x
    &&& a.stretch_y == b.stretch_y
    &&& a.opacity == b.opacity
    &&& a.speed == b.speed
}

/// Where everything a tidied clip carries comes from.
spec fn parts_tidied(clip: ClipView, tidy: ClipView) -> bool {
    &&& tidy.speed_curve == tidied_curve(clip.speed_curve)
    &&& tidy.keys == tidied_keys(clip.keys)
    &&& tidy.crop == tidied_crop(clip.crop)
    &&& tidy.cutout == match clip.cutout {
        Some(cutout) => Some(cutout.tidied()),
        None => None,
    }
    &&& tidy.filters == tidied_chain(clip.filters)
    &&& tidy.video_effects == tidied_chain(clip.video_effects)
    &&& tidy.muted == if clip.muted == Some(false) {
        None
    } else {
        clip.muted
    }
    &&& tidy.transition_in == match clip.transition_in {
        Some(transition) => Some(transition.tidied()),
        None => None,
    }
    &&& tidy.text == match clip.text {
        Some(style) => Some(style.tidied()),
        None => None,
    }
}

proof fn lemma_parts_tidied(clip: ClipView)
    ensures
        parts_tidied(clip, clip.tidied()),
{
    reveal(ClipView::tidied);
}

proof fn lemma_style_in_range(style: StyleView)
    ensures
        style_in_range(style.tidied()),
        style.tidied().tidied() == style.tidied(),
{
    lemma_sane_styles();
    lemma_clamped(style.font_size, num(FONT_SIZE), num(MIN_FONT_SIZE), num(ONE));
    lemma_clamped(
        style.font_weight,
        num(FONT_WEIGHT),
        num(MIN_FONT_WEIGHT),
        num(MAX_FONT_WEIGHT),
    );
    lemma_clamped(style.opacity, num(ONE), num(ZERO), num(ONE));
    lemma_larger(style.stroke_width, num(ZERO), num(ZERO));
    lemma_larger(style.background_radius, num(BACKGROUND_RADIUS), num(ZERO));
    lemma_larger(style.background_padding_x, num(BACKGROUND_PADDING_X), num(ZERO));
    lemma_larger(style.background_padding_y, num(BACKGROUND_PADDING_Y), num(ZERO));
    lemma_larger(style.line_height, num(LINE_HEIGHT), num(MIN_LINE_HEIGHT));
    lemma_larger(style.max_width, num(ZERO), num(ZERO));
    lemma_larger(style.max_height, num(ZERO), num(ZERO));
}

spec fn sane_styles() -> bool {
    &&& num(ZERO).finite() && num(ONE).finite() && num(ZERO).at_most(num(ONE))
    &&& num(FONT_SIZE).finite() && num(MIN_FONT_SIZE).finite() && num(MIN_FONT_SIZE).at_most(
        num(ONE),
    )
    &&& num(FONT_WEIGHT).finite() && num(MIN_FONT_WEIGHT).finite() && num(
        MAX_FONT_WEIGHT,
    ).finite() && num(MIN_FONT_WEIGHT).at_most(num(MAX_FONT_WEIGHT))
    &&& num(BACKGROUND_RADIUS).finite() && num(BACKGROUND_PADDING_X).finite() && num(
        BACKGROUND_PADDING_Y,
    ).finite()
    &&& num(LINE_HEIGHT).finite() && num(MIN_LINE_HEIGHT).finite()
}

proof fn lemma_sane_styles()
    ensures
        sane_styles(),
{
}

proof fn lemma_transition_in_range(transition: TransitionView)
    ensures
        no_less(transition.tidied().duration, num(MIN_TRANSITION)),
        transition.tidied().tidied() == transition.tidied(),
{
}

proof fn lemma_cutout_in_range(cutout: CutoutView)
    ensures
        cutout_in_range(cutout.tidied()),
{
    lemma_strokes_in_range(cutout.strokes);
}

/// Tidying holds a clip's own numbers to their ranges, whatever they were.
pub proof fn lemma_numbers_in_range(clip: ClipView)
    ensures
        numbers_in_range(clip.tidied()),
{
    lemma_each_number(clip);
}

/// Tidying holds every number of a clip to its range, whatever it was.
pub proof fn lemma_tidied_in_range(clip: ClipView)
    ensures
        numbers_in_range(clip.tidied()),
        parts_in_range(clip.tidied()),
{
    lemma_each_number(clip);
    lemma_parts_tidied(clip);
    lemma_keys_in_range(clip.keys);
    lemma_chain_in_range(clip.filters);
    lemma_chain_in_range(clip.video_effects);
    if clip.speed_curve is Some {
        lemma_curve_in_range(clip.speed_curve.unwrap());
    }
    if clip.crop is Some && !clip.crop.unwrap().tidied().nothing() {
        lemma_crop_in_range(clip.crop.unwrap());
    }
    if clip.cutout is Some {
        lemma_cutout_in_range(clip.cutout.unwrap());
    }
    if clip.text is Some {
        lemma_style_in_range(clip.text.unwrap());
    }
    if clip.transition_in is Some {
        lemma_transition_in_range(clip.transition_in.unwrap());
    }
}

// A second tidying.

proof fn lemma_keys_settle(keys: Seq<ClipKey>)
    requires
        keys_in_range(keys),
    ensures
        tidied_keys(keys) == keys,
{
    let playable = |k: ClipKey| in_clip(k.at) && k.value.finite();
    let held = |k: ClipKey| held_key(k);
    let valid = |k: ClipKey| k.valid();
    assert forall|i: int| 0 <= i < keys.len() implies playable(#[trigger] keys[i]) && valid(
        keys[i],
    ) && held(keys[i]) == keys[i] by {
        assert(key_in_range(keys[i]));
    }
    lemma_filter_all(keys, playable);
    assert(keys.map_values(held) =~= keys);
    lemma_filter_all(keys, valid);
    lemma_sorted_already(keys, |k: ClipKey| k.rank());
}

proof fn lemma_chain_settles(filters: Seq<FilterView>)
    requires
        chain_in_range(filters),
    ensures
        tidied_chain(filters) == filters,
{
    assert forall|i: int| 0 <= i < filters.len() implies (#[trigger] filters[i]).tidied()
        == filters[i] by {
        let filter = filters[i];
        assert(runs_in_range(filter));
        assert forall|name: Seq<char>| #[trigger] filter.keys.dom().contains(name) implies {
            &&& ordered_run(filter.keys[name]) == filter.keys[name]
            &&& straight_run(filter.keys[name]) == filter.keys[name]
        } by {
            let run = filter.keys[name];
            let valid = |k: ParamKey| k.valid();
            assert(run_in_range(run));
            assert forall|k: int| 0 <= k < run.len() implies valid(#[trigger] run[k]) by {}
            lemma_filter_all(run, valid);
            lemma_sorted_already(run, |k: ParamKey| k.rank());
            assert(straight_run(run) =~= run);
        }
        assert(pruned(filter.keys) =~= filter.keys);
        assert(straight_runs(filter.keys) =~= filter.keys);
        assert(finite_params(filter.params) =~= filter.params);
    }
    assert(tidied_chain(filters) =~= filters);
}

proof fn lemma_curve_settles(points: Seq<SpeedPoint>)
    requires
        curve_in_range(points),
    ensures
        tidied_points(points) == points,
{
    let inside = |p: SpeedPoint| p.at.finite() && in_clip(p.at);
    let held = |p: SpeedPoint| held_point(p);
    assert forall|i: int| 0 <= i < points.len() implies inside(#[trigger] points[i]) && held(
        points[i],
    ) == points[i] by {}
    lemma_filter_all(points, inside);
    assert(points.map_values(held) =~= points);
}

/// A pair of edges pulled back once stays.
proof fn lemma_pair_settles(near: Number, far: Number)
    ensures
        ({
            let n = Crop::held(near);
            let f = Crop::pulled_back(n, Crop::held(far));
            &&& Crop::held(n) == n
            &&& Crop::pulled_back(n, Crop::held(f)) == f
        }),
{
    let n = Crop::held(near);
    let f = Crop::held(far);
    if num(MAX_CROP).less(sum(n, f)) {
        lemma_rest_of_crop(n);
    }
}

proof fn lemma_crop_settles(crop: Crop)
    ensures
        crop.tidied().tidied() == crop.tidied(),
{
    lemma_pair_settles(crop.left, crop.right);
    lemma_pair_settles(crop.top, crop.bottom);
}

proof fn lemma_stroke_settles(stroke: StrokeView)
    requires
        stroke_in_range(stroke),
    ensures
        stroke.tidied() == Some(stroke),
{
    let finite = |p: Point| p.all_finite();
    let held = |p: Point| p.held();
    assert forall|i: int| 0 <= i < stroke.points.len() implies finite(
        #[trigger] stroke.points[i],
    ) && held(stroke.points[i]) == stroke.points[i] by {}
    lemma_filter_all(stroke.points, finite);
    assert(stroke.points.map_values(held) =~= stroke.points);
}

proof fn lemma_strokes_settle(strokes: Seq<StrokeView>)
    requires
        forall|i: int| 0 <= i < strokes.len() ==> stroke_in_range(#[trigger] strokes[i]),
    ensures
        tidied_strokes(strokes) == strokes,
    decreases strokes.len(),
{
    if strokes.len() > 0 {
        let d = strokes.drop_last();
        assert forall|i: int| 0 <= i < d.len() implies stroke_in_range(#[trigger] d[i]) by {
            assert(d[i] == strokes[i]);
        }
        lemma_strokes_settle(d);
        assert(stroke_in_range(strokes[strokes.len() - 1]));
        lemma_stroke_settles(strokes.last());
        assert(d.push(strokes.last()) =~= strokes);
    }
}

proof fn lemma_cutout_settles(cutout: CutoutView)
    ensures
        cutout.tidied().tidied() == cutout.tidied(),
{
    lemma_strokes_in_range(cutout.strokes);
    lemma_strokes_settle(tidied_strokes(cutout.strokes));
}

/// What is tidied stays as it is: a clip is the same after it is saved and opened
/// again. Wrapping a rotation rounds, and there are rotations that a second
/// wrapping moves again; this holds of every other.
pub proof fn lemma_tidying_settles(clip: ClipView)
    requires
        wrapped(clip.tidied().rotation) == clip.tidied().rotation,
    ensures
        clip.tidied().tidied() == clip.tidied(),
{
    let tidy = clip.tidied();
    lemma_each_number(clip);
    lemma_parts_tidied(clip);
    lemma_parts_tidied(tidy);
    lemma_keys_in_range(clip.keys);
    lemma_keys_settle(tidy.keys);
    lemma_chain_in_range(clip.filters);
    lemma_chain_settles(tidy.filters);
    lemma_chain_in_range(clip.video_effects);
    lemma_chain_settles(tidy.video_effects);
    if clip.speed_curve is Some {
        lemma_curve_in_range(clip.speed_curve.unwrap());
        if tidy.speed_curve is Some {
            lemma_curve_settles(tidy.speed_curve.unwrap());
        }
    }
    if clip.crop is Some {
        lemma_crop_settles(clip.crop.unwrap());
    }
    if clip.cutout is Some {
        lemma_cutout_settles(clip.cutout.unwrap());
    }
    if clip.text is Some {
        lemma_style_in_range(clip.text.unwrap());
    }
    if clip.transition_in is Some {
        lemma_transition_in_range(clip.transition_in.unwrap());
    }
    lemma_rest_kept(clip);
    lemma_rest_kept(tidy);
    assert(tidy.tidied() =~= tidy);
}

/// What is tidied stays as it is wherever the rotation is a whole number of
/// degrees, or no number.
pub proof fn lemma_tidying_twice_is_once(clip: ClipView)
    requires
        whole_degrees(finite_or(clip.rotation, num(ZERO))),
    ensures
        clip.tidied().tidied() == clip.tidied(),
{
    lemma_numbers_tidied(clip);
    lemma_wrapping_settles(finite_or(clip.rotation, num(ZERO)));
    lemma_tidying_settles(clip);
}

/// What tidying does not touch.
proof fn lemma_rest_kept(clip: ClipView)
    ensures
        ({
            let tidy = clip.tidied();
            &&& tidy.id == clip.id
            &&& tidy.track_id == clip.track_id
            &&& tidy.media_id == clip.media_id
            &&& tidy.name == clip.name
            &&& tidy.kind == clip.kind
            &&& tidy.flip_h == clip.flip_h
            &&& tidy.flip_v == clip.flip_v
            &&& tidy.blend == clip.blend
            &&& tidy.preserve_pitch == clip.preserve_pitch
            &&& tidy.audio_stream == clip.audio_stream
            &&& tidy.detached_from == clip.detached_from
            &&& tidy.extra == clip.extra
        }),
{
    reveal(ClipView::tidied);
}

// Order.

/// Putting a key on, or taking one off, leaves a clip's keys in order, by
/// property and then by position; and a key put on is there.
pub proof fn lemma_keys_stay_in_order(
    clip: ClipView,
    property: KeyProperty,
    at: Number,
    value: Number,
    ease: KeyEase,
)
    requires
        in_order(clip.keys, |k: ClipKey| k.rank()),
    ensures
        in_order(clip.with_key(property, at, value, ease).keys, |k: ClipKey| k.rank()),
        in_order(clip.without_key(property, at).keys, |k: ClipKey| k.rank()),
        at.finite() && value.finite() ==> clip.with_key(property, at, value, ease).keys.contains(
            ClipKey { property, at: clamped(at, num(ZERO), num(ONE)), value, ease },
        ),
{
    broadcast use vstd::seq_lib::group_to_multiset_ensures;

    let rank = |k: ClipKey| k.rank();
    lemma_closest(reaches(clip.keys, property, at));
    if let Some(gone) = closest(reaches(clip.keys, property, at)) {
        let left = clip.keys.remove(gone);
        assert forall|i: int, j: int| 0 <= i <= j < left.len() implies rank(
            #[trigger] left[i],
        ) <= rank(#[trigger] left[j]) by {
            let a = if i < gone {
                i
            } else {
                i + 1
            };
            let b = if j < gone {
                j
            } else {
                j + 1
            };
            assert(rank(clip.keys[a]) <= rank(clip.keys[b]));
        }
    }
    if at.finite() && value.finite() {
        let place = clamped(at, num(ZERO), num(ONE));
        let key = ClipKey { property, at: place, value, ease };
        let slot = closest(reaches(clip.keys, property, place));
        lemma_closest(reaches(clip.keys, property, place));
        let put = match slot {
            Some(i) => clip.keys.update(i, key),
            None => clip.keys.push(key),
        };
        let there = match slot {
            Some(i) => i,
            None => clip.keys.len() as int,
        };
        let valid = |k: ClipKey| k.valid();
        let kept = put.filter(valid);
        assert(put[there] == key);
        lemma_filter_keeps(put, valid, there);
        lemma_sorted(kept, rank);
        assert(kept.contains(key));
        assert(kept.to_multiset().count(key) > 0);
        assert(sorted(kept, rank).to_multiset().count(key) > 0);
        assert(sorted(kept, rank).contains(key));
    }
}

} // verus!
