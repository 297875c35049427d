//! What an edit asks for is what it does, property by property, and it does nothing
//! else.

use crate::commands::clips::{moved, moving_clips};
use crate::commands::command::{ClipMove, ClipPatch};
use crate::commands::properties::{placing, put, updating_clip, Placement};
use crate::commands::sliding::clips_in;
use crate::find::{first, lemma_first_is};
use crate::limits::lemma_what_the_ranges_are;
use crate::measure::{lemma_negated_measured, lemma_same_measured};
use crate::model::clip::ClipView;
use crate::model::exact::{exact, lemma_ends, lemma_exact_order};
use crate::model::project::ProjectView;
use crate::model::timeline::{TimelineView, TrackView};
use crate::number::{clamped, larger, negated, num, Number, ONE, ZERO};
use crate::ranges::{MAX_OFFSET, MAX_SCALE, MAX_STRETCH, MIN_OFFSET, MIN_SCALE, MIN_STRETCH};
use vstd::prelude::*;

verus! {

/// The larger of two values.
pub open spec fn at_least(x: real, low: real) -> real {
    if x < low {
        low
    } else {
        x
    }
}

/// A value held between two others.
pub open spec fn kept_between(x: real, low: real, high: real) -> real {
    if x < low {
        low
    } else if x > high {
        high
    } else {
        x
    }
}

/// Whether a number is what was asked for and no less than nothing, and what it was
/// where nothing was asked for.
pub open spec fn floored(is: Number, was: Number, asked: Option<Number>) -> bool {
    match asked {
        Some(v) => was.finite() && v.finite() ==> is.finite() && exact(is) == at_least(
            exact(v),
            0 as real,
        ),
        None => is == was,
    }
}

/// Whether a number is what was asked for, held to a range, and what it was where
/// nothing was asked for.
pub open spec fn held(is: Number, was: Number, asked: Option<Number>, low: real, high: real) -> bool {
    match asked {
        Some(v) => was.finite() && v.finite() ==> is.finite() && exact(is) == kept_between(
            exact(v),
            low,
            high,
        ),
        None => is == was,
    }
}

pub proof fn lemma_floored(slot: Number, v: Number)
    requires
        slot.finite(),
        v.finite(),
    ensures
        put(slot, larger(v, num(ZERO))).finite(),
        exact(put(slot, larger(v, num(ZERO)))) == at_least(exact(v), 0 as real),
        exact(larger(v, num(ZERO))) == at_least(exact(v), 0 as real),
{
    let zero = num(ZERO);
    lemma_ends();
    lemma_exact_order(v, zero);
    lemma_exact_order(zero, v);
    let w = larger(v, zero);
    if slot.same(w) {
        lemma_same_measured(slot, w);
    }
}

pub proof fn lemma_kept(slot: Number, v: Number, low: Number, high: Number)
    requires
        slot.finite(),
        v.finite(),
        low.finite(),
        high.finite(),
        low.at_most(high),
    ensures
        put(slot, clamped(v, low, high)).finite(),
        exact(put(slot, clamped(v, low, high))) == kept_between(exact(v), exact(low), exact(high)),
{
    lemma_exact_order(v, low);
    lemma_exact_order(low, v);
    lemma_exact_order(v, high);
    lemma_exact_order(high, v);
    lemma_exact_order(low, high);
    let w = clamped(v, low, high);
    if slot.same(w) {
        lemma_same_measured(slot, w);
    }
}

/// A patch sets each property it names to what it says, held to what the property may
/// be, and leaves every other as it was. It moves, cuts and retimes nothing.
pub proof fn lemma_a_patch_sets_what_it_names(
    project: ProjectView,
    counter: nat,
    clip_id: Seq<char>,
    patch: ClipPatch,
)
    requires
        project.editable(),
        project.active().clip_index(clip_id) is Some,
    ensures
        ({
            let i = project.active().clip_index(clip_id)->0;
            let was = project.active().clips[i];
            let after = updating_clip(project, counter, clip_id, patch);
            let is = clips_in(project, after.project)[i];
            &&& floored(is.volume, was.volume, patch.volume)
            &&& floored(is.fade_in, was.fade_in, patch.fade_in)
            &&& floored(is.fade_out, was.fade_out, patch.fade_out)
            &&& held(is.opacity, was.opacity, patch.opacity, 0 as real, 1 as real)
            &&& is.preserve_pitch == (if patch.preserve_pitch is Some {
                patch.preserve_pitch->0
            } else {
                was.preserve_pitch
            })
            &&& is.flip_h == (if patch.flip_h is Some {
                patch.flip_h->0
            } else {
                was.flip_h
            })
            &&& is.flip_v == (if patch.flip_v is Some {
                patch.flip_v->0
            } else {
                was.flip_v
            })
            &&& patch.muted == Some(true) ==> is.muted == Some(true)
            &&& patch.muted == Some(false) ==> is.muted is None
            &&& patch.muted is None ==> is.muted == was.muted
            &&& patch.name is None && patch.text is None ==> is.name == was.name
            &&& patch.name is Some && patch.text is None ==> is.name == patch.name->0@
            &&& patch.audio_stream is Some ==> is.audio_stream == patch.audio_stream->0
            &&& patch.audio_stream is None ==> is.audio_stream == was.audio_stream
            &&& patch.blend is None ==> is.blend == was.blend
            &&& patch.blend is Some && patch.blend->0@ != "normal"@ ==> is.blend == patch.blend->0@
            &&& patch.blend is Some && patch.blend->0@ == "normal"@ ==> is.blend.len() == 0
            &&& patch.crop is None ==> is.crop == was.crop
            &&& patch.filters is None ==> is.filters == was.filters
            &&& patch.video_effects is None ==> is.video_effects == was.video_effects
            &&& patch.transition_in is None ==> is.transition_in == was.transition_in
            &&& patch.text is None ==> is.text == was.text
            &&& is == ClipView {
                name: is.name,
                volume: is.volume,
                fade_in: is.fade_in,
                fade_out: is.fade_out,
                opacity: is.opacity,
                preserve_pitch: is.preserve_pitch,
                muted: is.muted,
                flip_h: is.flip_h,
                flip_v: is.flip_v,
                blend: is.blend,
                crop: is.crop,
                filters: is.filters,
                video_effects: is.video_effects,
                transition_in: is.transition_in,
                text: is.text,
                audio_stream: is.audio_stream,
                ..was
            }
            &&& clips_in(project, after.project) == project.active().clips.update(i, is)
            &&& after.project.media == project.media
            &&& after.counter == counter
        }),
{
    let i = project.active().clip_index(clip_id)->0;
    lemma_first_is(project.timelines, |t: TimelineView| t.id == project.active_timeline_id);
    lemma_first_is(project.active().clips, |c: ClipView| c.id == clip_id);
    let was = project.active().clips[i];
    lemma_ends();
    if was.volume.finite() && patch.volume is Some && patch.volume->0.finite() {
        lemma_floored(was.volume, patch.volume->0);
    }
    if was.fade_in.finite() && patch.fade_in is Some && patch.fade_in->0.finite() {
        lemma_floored(was.fade_in, patch.fade_in->0);
    }
    if was.fade_out.finite() && patch.fade_out is Some && patch.fade_out->0.finite() {
        lemma_floored(was.fade_out, patch.fade_out->0);
    }
    if was.opacity.finite() && patch.opacity is Some && patch.opacity->0.finite() {
        lemma_kept(was.opacity, patch.opacity->0, num(ZERO), num(ONE));
    }
}

/// A placement sets what it names, held to what a picture may be placed at, and leaves
/// the rest of the clip as it was.
pub proof fn lemma_a_placement_sets_what_it_names(
    project: ProjectView,
    counter: nat,
    clip_id: Seq<char>,
    place: Placement,
)
    requires
        project.editable(),
        project.active().clip_index(clip_id) is Some,
    ensures
        ({
            let i = project.active().clip_index(clip_id)->0;
            let was = project.active().clips[i];
            let after = placing(project, counter, clip_id, place);
            let is = clips_in(project, after.project)[i];
            let small = exact(num(MIN_SCALE));
            let thin = exact(num(MIN_STRETCH));
            &&& held(is.scale, was.scale, place.scale, small, 8 as real)
            &&& held(is.offset_x, was.offset_x, place.offset_x, -3 as real, 3 as real)
            &&& held(is.offset_y, was.offset_y, place.offset_y, -3 as real, 3 as real)
            &&& held(is.stretch_x, was.stretch_x, place.stretch_x, thin, 10 as real)
            &&& held(is.stretch_y, was.stretch_y, place.stretch_y, thin, 10 as real)
            &&& place.rotation is None ==> is.rotation == was.rotation
            &&& is == ClipView {
                scale: is.scale,
                offset_x: is.offset_x,
                offset_y: is.offset_y,
                rotation: is.rotation,
                stretch_x: is.stretch_x,
                stretch_y: is.stretch_y,
                ..was
            }
            &&& clips_in(project, after.project) == project.active().clips.update(i, is)
            &&& after.project.media == project.media
            &&& after.counter == counter
        }),
{
    let i = project.active().clip_index(clip_id)->0;
    lemma_first_is(project.timelines, |t: TimelineView| t.id == project.active_timeline_id);
    lemma_first_is(project.active().clips, |c: ClipView| c.id == clip_id);
    let was = project.active().clips[i];
    lemma_what_the_ranges_are();
    lemma_how_far_off_centre();
    if was.scale.finite() && place.scale is Some && place.scale->0.finite() {
        lemma_kept(was.scale, place.scale->0, num(MIN_SCALE), num(MAX_SCALE));
    }
    if was.offset_x.finite() && place.offset_x is Some && place.offset_x->0.finite() {
        lemma_kept(was.offset_x, place.offset_x->0, num(MIN_OFFSET), num(MAX_OFFSET));
    }
    if was.offset_y.finite() && place.offset_y is Some && place.offset_y->0.finite() {
        lemma_kept(was.offset_y, place.offset_y->0, num(MIN_OFFSET), num(MAX_OFFSET));
    }
    if was.stretch_x.finite() && place.stretch_x is Some && place.stretch_x->0.finite() {
        lemma_kept(was.stretch_x, place.stretch_x->0, num(MIN_STRETCH), num(MAX_STRETCH));
    }
    if was.stretch_y.finite() && place.stretch_y is Some && place.stretch_y->0.finite() {
        lemma_kept(was.stretch_y, place.stretch_y->0, num(MIN_STRETCH), num(MAX_STRETCH));
    }
}

pub proof fn lemma_how_far_off_centre()
    ensures
        exact(num(MAX_OFFSET)) == 3 as real,
        exact(num(MIN_OFFSET)) == -3 as real,
        num(MIN_OFFSET).at_most(num(MAX_OFFSET)),
{
    lemma_what_the_ranges_are();
    lemma_negated_measured(num(MAX_OFFSET));
    assert(negated(num(MAX_OFFSET)) == num(MIN_OFFSET));
}

/// A move puts a clip where it is told, on the lane it is told where there is one, and
/// changes nothing else of it. No other clip moves.
pub proof fn lemma_a_move_goes_where_it_is_told(
    project: ProjectView,
    counter: nat,
    wanted: ClipMove,
)
    requires
        project.editable(),
        project.active().clip_index(wanted.clip_id@) is Some,
    ensures
        ({
            let timeline = project.active();
            let i = timeline.clip_index(wanted.clip_id@)->0;
            let was = timeline.clips[i];
            let after = moving_clips(project, counter, seq![wanted]);
            let is = clips_in(project, after.project)[i];
            let lane = exists|k: int|
                0 <= k < timeline.tracks.len() && (#[trigger] timeline.tracks[k]).id
                    == wanted.track_id@;
            &&& floored(is.start, was.start, Some(wanted.start))
            &&& is.track_id == if lane {
                wanted.track_id@
            } else {
                was.track_id
            }
            &&& is == ClipView { start: is.start, track_id: is.track_id, ..was }
            &&& clips_in(project, after.project) == timeline.clips.update(i, is)
            &&& after.counter == counter
        }),
{
    let timeline = project.active();
    let moves = seq![wanted];
    let i = timeline.clip_index(wanted.clip_id@)->0;
    lemma_first_is(project.timelines, |t: TimelineView| t.id == project.active_timeline_id);
    lemma_first_is(timeline.clips, |c: ClipView| c.id == wanted.clip_id@);
    lemma_first_is(timeline.tracks, |t: TrackView| t.id == wanted.track_id@);
    lemma_lane(timeline.tracks, wanted.track_id@);
    assert(moves.drop_last() =~= Seq::<ClipMove>::empty());
    assert(moved(timeline.clips, timeline.tracks, moves.drop_last()) == (timeline.clips, false));
    let was = timeline.clips[i];
    if was.start.finite() && wanted.start.finite() {
        lemma_floored(was.start, wanted.start);
    }
}

proof fn lemma_lane(tracks: Seq<TrackView>, id: Seq<char>)
    ensures
        first(tracks, |t: TrackView| t.id == id) is Some <==> exists|k: int|
            0 <= k < tracks.len() && (#[trigger] tracks[k]).id == id,
{
    let pred = |t: TrackView| t.id == id;
    lemma_first_is(tracks, pred);
    if exists|k: int| 0 <= k < tracks.len() && (#[trigger] tracks[k]).id == id {
        let k = choose|k: int| 0 <= k < tracks.len() && (#[trigger] tracks[k]).id == id;
        assert(pred(tracks[k]));
    }
    if first(tracks, pred) is Some {
        let k = first(tracks, pred)->0;
        assert(pred(tracks[k]));
    }
}

} // verus!
