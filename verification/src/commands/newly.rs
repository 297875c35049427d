//! Clips as they are first placed: what they show, where, and for how long.

use crate::commands::asked::{
    at_least, floored, kept_between, lemma_floored, lemma_how_far_off_centre,
};
use crate::commands::audio::{detaching, placed_sounds, sound_of, sounds};
use crate::commands::clips::{
    adding_clip, adding_clip_anywhere, adding_layer, adding_text, length_of, replacing_media,
};
use crate::commands::sliding::{clips_in, lemma_shortest};
use crate::find::{lemma_filter_keeps, lemma_filter_kept, lemma_first_is};
use crate::limits::lemma_what_is_given_where_none_is_asked;
use crate::model::clip::ClipView;
use crate::model::exact::{exact, lemma_ends, lemma_exact_order};
use crate::model::keys::{ClipKey, KeyProperty};
use crate::model::media::{MediaView, NewMediaView};
use crate::model::project::ProjectView;
use crate::model::style::StyleView;
use crate::model::timeline::TimelineView;
use crate::number::{clamped, larger, num, sum, Number, ONE, ZERO};
use crate::ranges::{MAX_OFFSET, MIN_CLIP_DURATION, MIN_OFFSET};
use vstd::prelude::*;

verus! {

/// Whether a clip plays its source from the beginning, at its own rate and level, the
/// whole picture upright and in the middle, and nothing has been done to it.
pub open spec fn untouched(clip: ClipView) -> bool {
    &&& exact(clip.source_start) == 0 as real
    &&& exact(clip.speed) == 1 as real && clip.speed_curve is None
    &&& exact(clip.volume) == 1 as real && clip.muted is None && clip.preserve_pitch
    &&& exact(clip.fade_in) == 0 as real && exact(clip.fade_out) == 0 as real
    &&& exact(clip.scale) == 1 as real && exact(clip.opacity) == 1 as real
    &&& exact(clip.offset_x) == 0 as real && exact(clip.rotation) == 0 as real
    &&& exact(clip.stretch_x) == 1 as real && exact(clip.stretch_y) == 1 as real
    &&& !clip.flip_h && !clip.flip_v
    &&& clip.blend.len() == 0 && clip.crop is None && clip.cutout is None
    &&& clip.keys.len() == 0 && clip.filters.len() == 0
    &&& clip.transition_in is None && clip.detached_from is None && clip.audio_stream is None
}

/// Whether a length is the one asked for, or so many seconds where none was, and no
/// shorter than a clip can be.
pub open spec fn lasts(is: Number, asked: Option<Number>, otherwise: real) -> bool {
    match asked {
        Some(d) => d.finite() ==> exact(is) == at_least(exact(d), exact(num(MIN_CLIP_DURATION))),
        None => exact(is) == otherwise,
    }
}

/// Whether a clip is a piece of media as it is first placed: all of it, or five seconds
/// of what has no length.
pub open spec fn shows(clip: ClipView, media: MediaView) -> bool {
    &&& untouched(clip) && exact(clip.offset_y) == 0 as real
    &&& clip.media_id == media.id && clip.name == media.name
    &&& clip.kind is Video <==> media.kind is Video
    &&& clip.kind is Audio <==> media.kind is Audio
    &&& clip.kind is Image <==> media.kind is Image
    &&& clip.text is None && clip.video_effects.len() == 0
    &&& media.kind is Image ==> exact(clip.duration) == 5 as real
    &&& !(media.kind is Image) ==> lasts(clip.duration, media.duration, 5 as real)
}

/// The length of what is held to the shortest, once or twice.
proof fn lemma_long_enough(d: Number)
    requires
        d.finite(),
    ensures
        ({
            let low = num(MIN_CLIP_DURATION);
            let once = larger(d, low);
            &&& once.finite()
            &&& exact(once) == at_least(exact(d), exact(low))
            &&& larger(once, low) == once
        }),
{
    let low = num(MIN_CLIP_DURATION);
    lemma_shortest();
    lemma_exact_order(d, low);
    lemma_exact_order(low, d);
}

proof fn lemma_lengths()
    ensures
        exact(num(MIN_CLIP_DURATION)) <= 1 as real,
        num(crate::commands::clips::UNKNOWN_DURATION).finite(),
        num(crate::commands::clips::DEFAULT_IMAGE_DURATION).finite(),
        num(crate::commands::clips::DEFAULT_TEXT_DURATION).finite(),
        num(crate::commands::clips::DEFAULT_LAYER_DURATION).finite(),
{
    lemma_shortest();
}

/// A clip added at a second of a lane stands there and shows its media from the
/// beginning. Unless the drop ripples, nothing else moves.
pub proof fn lemma_an_added_clip_shows_its_media(
    project: ProjectView,
    counter: nat,
    media_id: Seq<char>,
    track_id: Seq<char>,
    start: Number,
)
    requires
        project.editable(),
        project.media_index(media_id) is Some,
        project.active().track_index(track_id) is Some,
    ensures
        ({
            let media = project.media[project.media_index(media_id)->0];
            let after = adding_clip(project, counter, media_id, track_id, start, false);
            let clips = clips_in(project, after.project);
            let is = clips.last();
            &&& clips.drop_last() == project.active().clips
            &&& shows(is, media)
            &&& is.track_id == track_id
            &&& start.finite() ==> exact(is.start) == at_least(exact(start), 0 as real)
            &&& after.answer->Ok_0.created_id == Some(is.id)
            &&& after.project.media == project.media
        }),
{
    let m = project.media_index(media_id)->0;
    let media = project.media[m];
    lemma_first_is(project.timelines, |t: TimelineView| t.id == project.active_timeline_id);
    lemma_first_is(project.media, |m: MediaView| m.id == media_id);
    let after = adding_clip(project, counter, media_id, track_id, start, false);
    let clips = clips_in(project, after.project);
    assert(clips.drop_last() =~= project.active().clips);
    lemma_shown(media, start);
}

/// What the numbers of a clip of this media come to.
proof fn lemma_shown(media: MediaView, start: Number)
    ensures
        ({
            let length = larger(length_of(media), num(MIN_CLIP_DURATION));
            &&& media.kind is Image ==> exact(length) == 5 as real
            &&& !(media.kind is Image) ==> lasts(length, media.duration, 5 as real)
        }),
        exact(num(ZERO)) == 0 as real,
        exact(num(ONE)) == 1 as real,
        start.finite() ==> exact(larger(larger(start, num(ZERO)), num(ZERO))) == at_least(
            exact(start),
            0 as real,
        ),
{
    lemma_ends();
    lemma_what_is_given_where_none_is_asked();
    lemma_lengths();
    lemma_long_enough(num(crate::commands::clips::UNKNOWN_DURATION));
    lemma_long_enough(num(crate::commands::clips::DEFAULT_IMAGE_DURATION));
    if media.duration is Some && media.duration->0.finite() {
        lemma_long_enough(media.duration->0);
    }
    if start.finite() {
        lemma_floored(num(ZERO), start);
    }
}

/// A clip dropped where there is room does the same, on a lane of the timeline.
pub proof fn lemma_a_dropped_clip_shows_its_media(
    project: ProjectView,
    counter: nat,
    media_id: Seq<char>,
    start: Number,
)
    requires
        project.editable(),
        project.media_index(media_id) is Some,
        project.active().tracks.len() > 0,
    ensures
        ({
            let media = project.media[project.media_index(media_id)->0];
            let after = adding_clip_anywhere(project, counter, media_id, start);
            let clips = clips_in(project, after.project);
            let is = clips.last();
            &&& clips.drop_last() == project.active().clips
            &&& shows(is, media)
            &&& start.finite() ==> exact(is.start) == at_least(exact(start), 0 as real)
            &&& after.answer->Ok_0.created_id == Some(is.id)
            &&& after.project.media == project.media
        }),
{
    let m = project.media_index(media_id)->0;
    let media = project.media[m];
    lemma_first_is(project.timelines, |t: TimelineView| t.id == project.active_timeline_id);
    lemma_first_is(project.media, |m: MediaView| m.id == media_id);
    let after = adding_clip_anywhere(project, counter, media_id, start);
    let clips = clips_in(project, after.project);
    assert(clips.drop_last() =~= project.active().clips);
    lemma_shown(media, start);
}

/// A drop that ripples makes room by its own length: the clips of its lane from where
/// it lands on start later by it or stay, and nothing else about them changes.
pub proof fn lemma_a_ripple_drop_makes_room_by_its_length(
    project: ProjectView,
    counter: nat,
    media_id: Seq<char>,
    track_id: Seq<char>,
    start: Number,
    k: int,
)
    requires
        project.editable(),
        project.media_index(media_id) is Some,
        project.active().track_index(track_id) is Some,
        0 <= k < project.active().clips.len(),
        length_of(project.media[project.media_index(media_id)->0]).finite(),
    ensures
        ({
            let media = project.media[project.media_index(media_id)->0];
            let after = adding_clip(project, counter, media_id, track_id, start, true);
            let clips = clips_in(project, after.project);
            let new = clips.last();
            let was = project.active().clips[k];
            &&& clips.len() == project.active().clips.len() + 1
            &&& untouched(new) && new.media_id == media.id && new.track_id == track_id
            &&& clips[k] == was || clips[k] == ClipView {
                start: sum(was.start, new.duration),
                ..was
            }
            &&& was.track_id != track_id ==> clips[k] == was
        }),
{
    let m = project.media_index(media_id)->0;
    let media = project.media[m];
    lemma_first_is(project.timelines, |t: TimelineView| t.id == project.active_timeline_id);
    lemma_first_is(project.media, |m: MediaView| m.id == media_id);
    lemma_shown(media, start);
    lemma_shortest();
    lemma_long_enough(length_of(media));
    let after = adding_clip(project, counter, media_id, track_id, start, true);
    let clips = clips_in(project, after.project);
    assert(clips.last().duration == length_of(media));
}

/// A title is placed with the look it is sent, for as long as it is asked to last, four
/// seconds where nobody says, and no further off centre than a picture may be.
pub proof fn lemma_an_added_title_is_as_it_is_sent(
    project: ProjectView,
    counter: nat,
    track_id: Option<Seq<char>>,
    above: bool,
    start: Number,
    style: StyleView,
    duration: Option<Number>,
    offset_y: Option<Number>,
)
    requires
        project.editable(),
        adding_text(
            project,
            counter,
            track_id,
            above,
            start,
            Some(style),
            duration,
            offset_y,
        ).answer is Ok,
    ensures
        ({
            let after = adding_text(
                project,
                counter,
                track_id,
                above,
                start,
                Some(style),
                duration,
                offset_y,
            );
            let clips = clips_in(project, after.project);
            let is = clips.last();
            &&& clips.drop_last() == project.active().clips
            &&& untouched(is) && is.kind is Text && is.text == Some(style)
            &&& is.media_id.len() == 0 && is.video_effects.len() == 0
            &&& track_id is Some ==> is.track_id == track_id->0
            &&& start.finite() ==> exact(is.start) == at_least(exact(start), 0 as real)
            &&& lasts(is.duration, duration, 4 as real)
            &&& offset_y is None ==> exact(is.offset_y) == 0 as real
            &&& offset_y is Some && offset_y->0.finite() ==> exact(is.offset_y) == kept_between(
                exact(offset_y->0),
                -3 as real,
                3 as real,
            )
        }),
{
    lemma_first_is(project.timelines, |t: TimelineView| t.id == project.active_timeline_id);
    let after = adding_text(
        project,
        counter,
        track_id,
        above,
        start,
        Some(style),
        duration,
        offset_y,
    );
    let clips = clips_in(project, after.project);
    assert(clips.drop_last() =~= project.active().clips);
    lemma_ends();
    lemma_what_is_given_where_none_is_asked();
    lemma_lengths();
    lemma_how_far_off_centre();
    lemma_long_enough(num(crate::commands::clips::DEFAULT_TEXT_DURATION));
    if duration is Some && duration->0.finite() {
        lemma_long_enough(duration->0);
    }
    if start.finite() {
        lemma_floored(num(ZERO), start);
    }
    lemma_centred(match offset_y {
        Some(y) => y,
        None => num(ZERO),
    });
}

proof fn lemma_centred(y: Number)
    ensures
        y.finite() ==> exact(clamped(y, num(MIN_OFFSET), num(MAX_OFFSET))) == kept_between(
            exact(y),
            -3 as real,
            3 as real,
        ),
{
    lemma_how_far_off_centre();
    if y.finite() {
        let low = num(MIN_OFFSET);
        let high = num(MAX_OFFSET);
        lemma_exact_order(y, low);
        lemma_exact_order(low, y);
        lemma_exact_order(y, high);
        lemma_exact_order(high, y);
    }
}

/// A layer is placed with the one effect it is made for, switched on, for as long as it
/// is asked to last, five seconds where nobody says.
pub proof fn lemma_an_added_layer_has_its_effect(
    project: ProjectView,
    counter: nat,
    track_id: Option<Seq<char>>,
    start: Number,
    duration: Option<Number>,
    effect_id: Seq<char>,
    name: Seq<char>,
)
    requires
        project.editable(),
        adding_layer(project, counter, track_id, start, duration, effect_id, name).answer is Ok,
    ensures
        ({
            let after = adding_layer(project, counter, track_id, start, duration, effect_id, name);
            let clips = clips_in(project, after.project);
            let is = clips.last();
            &&& clips.drop_last() == project.active().clips
            &&& untouched(is) && is.kind is Layer && is.text is None
            &&& is.media_id.len() == 0 && exact(is.offset_y) == 0 as real
            &&& is.video_effects.len() == 1
            &&& is.video_effects[0].id == effect_id && is.video_effects[0].enabled
            &&& track_id is Some ==> is.track_id == track_id->0
            &&& start.finite() ==> exact(is.start) == at_least(exact(start), 0 as real)
            &&& lasts(is.duration, duration, 5 as real)
        }),
{
    lemma_first_is(project.timelines, |t: TimelineView| t.id == project.active_timeline_id);
    let after = adding_layer(project, counter, track_id, start, duration, effect_id, name);
    let clips = clips_in(project, after.project);
    assert(clips.drop_last() =~= project.active().clips);
    lemma_ends();
    lemma_what_is_given_where_none_is_asked();
    lemma_lengths();
    lemma_long_enough(num(crate::commands::clips::DEFAULT_LAYER_DURATION));
    if duration is Some && duration->0.finite() {
        lemma_long_enough(duration->0);
    }
    if start.finite() {
        lemma_floored(num(ZERO), start);
    }
}

/// Whether a clip is heard as another would be, and only heard.
pub open spec fn sounds_as(sound: ClipView, clip: ClipView) -> bool {
    &&& sound.kind is Audio && sound.detached_from == Some(clip.id)
    &&& sound.media_id == clip.media_id
    &&& sound.source_start == clip.source_start
    &&& sound.speed == clip.speed && sound.speed_curve == clip.speed_curve
    &&& sound.preserve_pitch == clip.preserve_pitch
    &&& sound.volume == clip.volume
    &&& sound.fade_in == clip.fade_in && sound.fade_out == clip.fade_out
    &&& sound.filters == clip.filters
    &&& clip.start.finite() && exact(clip.start) >= 0 as real ==> sound.start == clip.start
    &&& clip.duration.finite() && exact(clip.duration) >= exact(num(MIN_CLIP_DURATION))
        ==> sound.duration == clip.duration
    &&& forall|k: int|
        0 <= k < sound.keys.len() ==> clip.keys.contains(#[trigger] sound.keys[k])
            && sound.keys[k].property is Volume
    &&& forall|k: int|
        0 <= k < clip.keys.len() && (#[trigger] clip.keys[k]).property is Volume
            ==> sound.keys.contains(clip.keys[k])
    &&& sound.video_effects.len() == 0 && sound.text is None && sound.muted is None
}

proof fn lemma_sound_of(
    clip: ClipView,
    id: Seq<char>,
    track_id: Seq<char>,
    stream: Option<u32>,
    name: Seq<char>,
)
    ensures
        ({
            let sound = sound_of(clip, id, track_id, stream, name);
            sounds_as(sound, clip) && sound.audio_stream == stream
        }),
{
    let sound = sound_of(clip, id, track_id, stream, name);
    let pred = |k: ClipKey| k.property == KeyProperty::Volume;
    assert(sound.keys == clip.keys.filter(pred));
    lemma_filter_kept(clip.keys, pred);
    assert forall|k: int| 0 <= k < sound.keys.len() implies clip.keys.contains(
        #[trigger] sound.keys[k],
    ) && sound.keys[k].property is Volume by {
        assert(pred(clip.keys.filter(pred)[k]));
    }
    assert forall|k: int|
        0 <= k < clip.keys.len() && (#[trigger] clip.keys[k]).property is Volume implies
        sound.keys.contains(clip.keys[k]) by {
        lemma_filter_keeps(clip.keys, pred, k);
    }
    lemma_shortest();
    lemma_ends();
    if clip.start.finite() {
        lemma_exact_order(clip.start, num(ZERO));
    }
    if clip.duration.finite() {
        lemma_exact_order(clip.duration, num(MIN_CLIP_DURATION));
    }
}

proof fn lemma_placed_sounds(
    timeline: TimelineView,
    counter: nat,
    clip: ClipView,
    wanted: Seq<(Option<u32>, Seq<char>)>,
)
    ensures
        ({
            let after = placed_sounds(timeline, counter, clip, wanted).0;
            let n = timeline.clips.len() as int;
            &&& after.clips.len() == n + wanted.len()
            &&& forall|k: int| 0 <= k < n ==> #[trigger] after.clips[k] == timeline.clips[k]
            &&& forall|k: int|
                n <= k < after.clips.len() ==> sounds_as(#[trigger] after.clips[k], clip)
                    && after.clips[k].audio_stream == wanted[k - n].0
        }),
    decreases wanted.len(),
{
    if wanted.len() > 0 {
        let less = wanted.drop_last();
        lemma_placed_sounds(timeline, counter, clip, less);
        let sofar = placed_sounds(timeline, counter, clip, less).0;
        let after = placed_sounds(timeline, counter, clip, wanted).0;
        let n = timeline.clips.len() as int;
        let new = after.clips.last();
        lemma_sound_of(clip, new.id, new.track_id, wanted.last().0, wanted.last().1);
        assert forall|k: int| n <= k < after.clips.len() implies sounds_as(
            #[trigger] after.clips[k],
            clip,
        ) && after.clips[k].audio_stream == wanted[k - n].0 by {
            if k < after.clips.len() - 1 {
                assert(after.clips[k] == sofar.clips[k]);
                assert(less[k - n] == wanted[k - n]);
            }
        }
    }
}

/// Detaching the sound of a picture leaves the picture as it was but silent, and gives
/// a clip for each of the file's streams that is heard where, when and as the picture
/// was.
pub proof fn lemma_a_detached_sound_is_heard_as_before(
    project: ProjectView,
    counter: nat,
    clip_id: Seq<char>,
)
    requires
        project.editable(),
        detaching(project, counter, clip_id).answer->Ok_0.applied,
    ensures
        ({
            let timeline = project.active();
            let i = timeline.clip_index(clip_id)->0;
            let was = timeline.clips[i];
            let tracks = project.media[project.media_index(was.media_id)->0].audio_tracks;
            let n = timeline.clips.len() as int;
            let clips = clips_in(project, detaching(project, counter, clip_id).project);
            &&& was.kind is Video
            &&& clips[i] == ClipView { muted: Some(true), filters: Seq::empty(), ..was }
            &&& forall|k: int| 0 <= k < n && k != i ==> #[trigger] clips[k] == timeline.clips[k]
            &&& clips.len() == n + if tracks.len() > 1 {
                tracks.len()
            } else {
                1
            }
            &&& forall|k: int| n <= k < clips.len() ==> sounds_as(#[trigger] clips[k], was)
            &&& forall|k: int|
                n <= k < clips.len() && tracks.len() > 1 ==> (#[trigger] clips[k]).audio_stream
                    == Some(tracks[k - n].index)
            &&& tracks.len() <= 1 ==> clips[n].audio_stream == was.audio_stream
        }),
{
    let timeline = project.active();
    let i = timeline.clip_index(clip_id)->0;
    lemma_first_is(project.timelines, |t: TimelineView| t.id == project.active_timeline_id);
    lemma_first_is(timeline.clips, |c: ClipView| c.id == clip_id);
    let was = timeline.clips[i];
    let tracks = project.media[project.media_index(was.media_id)->0].audio_tracks;
    let wanted = sounds(was, tracks);
    lemma_placed_sounds(timeline, counter, was, wanted);
}

/// Putting another file behind a clip changes what it plays, and from where if that is
/// asked, and nothing else: not where it stands, how long it is or how it looks.
pub proof fn lemma_a_replaced_file_keeps_the_clip(
    project: ProjectView,
    counter: nat,
    clip_id: Seq<char>,
    item: NewMediaView,
    source_start: Option<Number>,
)
    requires
        project.editable(),
        project.active().clip_index(clip_id) is Some,
    ensures
        ({
            let i = project.active().clip_index(clip_id)->0;
            let was = project.active().clips[i];
            let after = replacing_media(project, counter, clip_id, item, source_start);
            let clips = clips_in(project, after.project);
            let is = clips[i];
            &&& is == ClipView { media_id: is.media_id, source_start: is.source_start, ..was }
            &&& clips == project.active().clips.update(i, is)
            &&& floored(is.source_start, was.source_start, source_start)
            &&& exists|m: int|
                0 <= m < after.project.media.len() && (#[trigger] after.project.media[m]).id
                    == is.media_id && after.project.media[m].path == item.path
            &&& forall|m: int|
                0 <= m < project.media.len() ==> #[trigger] after.project.media[m]
                    == project.media[m]
        }),
{
    let i = project.active().clip_index(clip_id)->0;
    lemma_first_is(project.timelines, |t: TimelineView| t.id == project.active_timeline_id);
    lemma_first_is(project.active().clips, |c: ClipView| c.id == clip_id);
    lemma_first_is(project.media, |m: MediaView| m.path == item.path);
    let was = project.active().clips[i];
    if source_start is Some && was.source_start.finite() && source_start->0.finite() {
        lemma_floored(was.source_start, source_start->0);
    }
    let after = replacing_media(project, counter, clip_id, item, source_start);
    let m = match project.path_index(item.path) {
        Some(k) => k,
        None => project.media.len() as int,
    };
    assert(after.project.media[m].path == item.path);
}

} // verus!
