//! Placing and moving clips: the edits that change what is on the timeline.

use crate::commands::command::{ClipMove, CommandError, Outcome, Refusal};
use crate::commands::mint::{minted, IdMint};
use crate::commands::properties::{assign, at_least_zero, differs, put, put_some};
use crate::commands::step::Step;
use crate::find::{first, lemma_first, lemma_no_first};
use crate::model::clip::{Clip, ClipView};
use crate::model::filter::{chain, AppliedFilter, FilterView};
use crate::model::media::{
    clip_kind, kind_of, text_of, ClipKind, MediaItem, MediaKind, MediaView, NewMedia, NewMediaView,
};
use crate::model::project::{find_media, find_path, media_of, Project, ProjectView};
use crate::model::style::{StyleView, TextStyle};
use crate::model::timeline::{
    clips_of, find_clip, find_track, tracks_of, Timeline, TimelineView, Track, TrackView,
};
use crate::number::{clamped, larger, num, sum, Number, ZERO};
use crate::ranges::{MAX_OFFSET, MIN_CLIP_DURATION, MIN_OFFSET};
use crate::shared::share;
use crate::text::{blank, first_line, is_blank, label, successor};
use std::sync::Arc;
use vstd::prelude::*;

verus! {

/// How long media whose container reports no duration lasts: 5.
pub const UNKNOWN_DURATION: u64 = 0x4014_0000_0000_0000;

/// How long a still lasts when first placed: 5.
pub const DEFAULT_IMAGE_DURATION: u64 = 0x4014_0000_0000_0000;

/// How long a title lasts when first placed: 4.
pub const DEFAULT_TEXT_DURATION: u64 = 0x4010_0000_0000_0000;

/// How long a layer covers when first placed: 5.
pub const DEFAULT_LAYER_DURATION: u64 = 0x4014_0000_0000_0000;

/// Where a clip asked for here is placed: never before the timeline begins.
pub open spec fn asked_start(start: Number) -> Number {
    larger(start, num(ZERO))
}

/// How long a clip of this media is when first placed, never under the shortest a
/// clip can be.
pub open spec fn length_of(media: MediaView) -> Number {
    larger(
        if media.kind == MediaKind::Image {
            num(DEFAULT_IMAGE_DURATION)
        } else {
            match media.duration {
                Some(duration) => duration,
                None => num(UNKNOWN_DURATION),
            }
        },
        num(MIN_CLIP_DURATION),
    )
}

fn default_length(media: &MediaItem) -> (r: Number)
    ensures
        r == length_of(media@),
{
    let length: Number = match media.kind {
        MediaKind::Image => num(DEFAULT_IMAGE_DURATION),
        _ => match media.duration {
            Some(duration) => duration,
            None => num(UNKNOWN_DURATION),
        },
    };
    length.max(num(MIN_CLIP_DURATION))
}

/// A clip of this media as first placed.
pub open spec fn clip_of(
    id: Seq<char>,
    track_id: Seq<char>,
    media: MediaView,
    start: Number,
) -> ClipView {
    ClipView {
        media_id: media.id,
        ..ClipView::blank(
            id,
            track_id,
            kind_of(media.kind),
            media.name,
            start,
            length_of(media),
        )
    }
}

fn default_clip(id: String, track_id: String, media: &MediaItem, start: Number) -> (r: Clip)
    ensures
        r@ == clip_of(id@, track_id@, media@, start),
{
    let mut clip: Clip = Clip::blank(
        id,
        track_id,
        clip_kind(media.kind),
        media.name.clone(),
        start,
        default_length(media),
    );
    clip.media_id = media.id.clone();
    clip
}

/// Where a clip ends.
pub open spec fn end(clip: ClipView) -> Number {
    sum(clip.start, clip.duration)
}

/// Whether a clip on this lane reaches into a span.
pub open spec fn overlaps(clip: ClipView, track_id: Seq<char>, from: Number, to: Number) -> bool {
    clip.track_id == track_id && clip.start.less(to) && from.less(end(clip))
}

/// Whether any clip on this lane reaches into a span.
pub open spec fn occupied(
    clips: Seq<ClipView>,
    track_id: Seq<char>,
    from: Number,
    to: Number,
) -> bool {
    exists|i: int| 0 <= i < clips.len() && overlaps(#[trigger] clips[i], track_id, from, to)
}

pub fn is_occupied(clips: &Vec<Arc<Clip>>, track_id: &String, from: Number, to: Number) -> (r: bool)
    ensures
        r == occupied(clips_of(clips@), track_id@, from, to),
{
    let ghost views = clips_of(clips@);
    let mut i: usize = 0;
    while i < clips.len()
        invariant
            i <= clips.len(),
            views == clips_of(clips@),
            forall|j: int| 0 <= j < i ==> !overlaps(#[trigger] views[j], track_id@, from, to),
        decreases clips.len() - i,
    {
        assert(views[i as int] == clips@[i as int]@);
        if clips[i].track_id == *track_id && clips[i].start.below(to) && from.below(
            clips[i].start.plus(clips[i].duration),
        ) {
            assert(overlaps(views[i as int], track_id@, from, to));
            return true;
        }
        i = i + 1;
    }
    false
}

// Making room.

/// Where a drop lands: after the clips of the lane it would land on.
pub open spec fn landing(clips: Seq<ClipView>, track_id: Seq<char>, start: Number) -> Number
    decreases clips.len(),
{
    if clips.len() == 0 {
        start
    } else {
        let sofar = landing(clips.drop_last(), track_id, start);
        let clip = clips.last();
        if clip.track_id == track_id && clip.start.less(start) && start.less(end(clip)) {
            larger(sofar, end(clip))
        } else {
            sofar
        }
    }
}

/// The lane's clips at or after a point moved right.
pub open spec fn pushed(
    clips: Seq<ClipView>,
    track_id: Seq<char>,
    from: Number,
    by: Number,
) -> Seq<ClipView> {
    clips.map_values(
        |c: ClipView|
            if c.track_id == track_id && from.at_most(c.start) {
                ClipView { start: sum(c.start, by), ..c }
            } else {
                c
            },
    )
}

/// The lane's clips at or after a point moved right.
pub fn push_right(clips: &Vec<Arc<Clip>>, track_id: &String, from: Number, by: Number) -> (r: Vec<
    Arc<Clip>,
>)
    ensures
        clips_of(r@) == pushed(clips_of(clips@), track_id@, from, by),
{
    let ghost wanted = pushed(clips_of(clips@), track_id@, from, by);
    let mut r: Vec<Arc<Clip>> = Vec::new();
    let mut i: usize = 0;
    while i < clips.len()
        invariant
            i <= clips.len(),
            r.len() == i,
            wanted == pushed(clips_of(clips@), track_id@, from, by),
            forall|j: int| 0 <= j < i ==> (#[trigger] r@[j])@ == wanted[j],
        decreases clips.len() - i,
    {
        if clips[i].track_id == *track_id && from.up_to(clips[i].start) {
            let mut clip: Clip = (*clips[i]).clone();
            clip.start = clip.start.plus(by);
            r.push(Arc::new(clip));
        } else {
            r.push(share(&clips[i]));
        }
        i = i + 1;
    }
    assert(clips_of(r@) =~= wanted);
    r
}

/// The clips once there is room for a new one: where the drop would cover
/// something, everything at or after it moves right by its length.
pub open spec fn with_room(
    clips: Seq<ClipView>,
    track_id: Seq<char>,
    start: Number,
    duration: Number,
) -> Seq<ClipView> {
    let at = landing(clips, track_id, start);
    if occupied(clips, track_id, at, sum(at, duration)) {
        pushed(clips, track_id, at, duration)
    } else {
        clips
    }
}

fn landing_place(clips: &Vec<Arc<Clip>>, track_id: &String, start: Number) -> (r: Number)
    ensures
        r == landing(clips_of(clips@), track_id@, start),
{
    let ghost views = clips_of(clips@);
    let mut at: Number = start;
    let mut i: usize = 0;
    assert(views.take(0) =~= Seq::<ClipView>::empty());
    while i < clips.len()
        invariant
            i <= clips.len(),
            views == clips_of(clips@),
            at == landing(views.take(i as int), track_id@, start),
        decreases clips.len() - i,
    {
        proof {
            assert(views.take(i as int + 1).drop_last() =~= views.take(i as int));
            assert(views.take(i as int + 1).last() == clips@[i as int]@);
        }
        let finish: Number = clips[i].start.plus(clips[i].duration);
        if clips[i].track_id == *track_id && clips[i].start.below(start) && start.below(finish) {
            at = at.max(finish);
        }
        i = i + 1;
    }
    assert(views.take(views.len() as int) =~= views);
    at
}

/// Places a clip of a bin entry on a named lane.
pub open spec fn adding_clip(
    project: ProjectView,
    counter: nat,
    media_id: Seq<char>,
    track_id: Seq<char>,
    start: Number,
    ripple: bool,
) -> Step {
    let start = asked_start(start);
    let timeline = project.active();
    match project.media_index(media_id) {
        None => Step::refused(project, counter, Refusal::MediaGone),
        Some(m) => if timeline.track_index(track_id) is None {
            Step::refused(project, counter, Refusal::TrackGone)
        } else {
            let media = project.media[m];
            let id = minted("c"@, counter);
            let clips = if ripple {
                with_room(timeline.clips, track_id, start, length_of(media))
            } else {
                timeline.clips
            };
            let at = if ripple {
                landing(timeline.clips, track_id, start)
            } else {
                start
            };
            Step::created(
                project.with_active(timeline.with_clips(clips.push(clip_of(id, track_id, media, at)))),
                successor(counter),
                id,
            )
        },
    }
}

pub fn push_clip(timeline: &mut Timeline, clip: Clip)
    ensures
        final(timeline)@ == old(timeline)@.with_clips(old(timeline)@.clips.push(clip@)),
{
    let ghost before = timeline.clips@;
    let shared: Arc<Clip> = Arc::new(clip);
    timeline.clips.push(shared);
    assert(clips_of(timeline.clips@) =~= clips_of(before).push(clip@));
}

pub fn add_clip(
    project: &mut Project,
    mint: &mut IdMint,
    media_id: &str,
    track_id: String,
    start: Number,
    ripple: bool,
) -> (r: Result<Outcome, CommandError>)
    requires
        old(project)@.editable(),
    ensures
        adding_clip(old(project)@, old(mint)@, media_id@, track_id@, start, ripple).is(
            final(project)@,
            final(mint)@,
            r,
        ),
{
    let start: Number = start.max(num(ZERO));
    let media: MediaItem = match find_media(&project.media, media_id) {
        None => {
            return Err(CommandError::MediaGone);
        },
        Some(m) => project.media[m].clone(),
    };
    let mut timeline: Timeline = project.active().clone();
    if timeline.track(track_id.as_str()).is_none() {
        return Err(CommandError::TrackGone);
    }
    let ghost before = timeline@;
    let mut at: Number = start;
    if ripple {
        let duration: Number = default_length(&media);
        at = landing_place(&timeline.clips, &track_id, start);
        if is_occupied(&timeline.clips, &track_id, at, at.plus(duration)) {
            let moved: Vec<Arc<Clip>> = push_right(&timeline.clips, &track_id, at, duration);
            timeline.clips = moved;
        }
    }
    let id: String = mint.next("c");
    push_clip(&mut timeline, default_clip(id.clone(), track_id, &media, at));
    project.put_active(timeline);
    Ok(Outcome::created(id))
}

// Free lanes.

/// The lowest lane with nothing in a span, or the bottom one.
pub open spec fn free_track(timeline: TimelineView, start: Number, duration: Number) -> Option<
    Seq<char>,
> {
    match first(
        timeline.tracks,
        |t: TrackView| !occupied(timeline.clips, t.id, start, sum(start, duration)),
    ) {
        Some(i) => Some(timeline.tracks[i].id),
        None => if timeline.tracks.len() > 0 {
            Some(timeline.tracks[0].id)
        } else {
            None
        },
    }
}

fn first_free_track(timeline: &Timeline, start: Number, duration: Number) -> (r: Option<String>)
    ensures
        text_of(r) == free_track(timeline@, start, duration),
{
    let finish: Number = start.plus(duration);
    let ghost view = timeline@;
    let ghost pred = |t: TrackView| !occupied(view.clips, t.id, start, sum(start, duration));
    let mut i: usize = 0;
    while i < timeline.tracks.len()
        invariant
            i <= timeline.tracks.len(),
            view == timeline@,
            finish == sum(start, duration),
            pred == (|t: TrackView| !occupied(view.clips, t.id, start, sum(start, duration))),
            forall|j: int| 0 <= j < i ==> !pred(#[trigger] view.tracks[j]),
        decreases timeline.tracks.len() - i,
    {
        assert(view.tracks[i as int] == timeline.tracks@[i as int]@);
        if !is_occupied(&timeline.clips, &timeline.tracks[i].id, start, finish) {
            proof {
                lemma_first(view.tracks, pred, i as int);
            }
            return Some(timeline.tracks[i].id.clone());
        }
        i = i + 1;
    }
    proof {
        lemma_no_first(view.tracks, pred);
    }
    if timeline.tracks.len() > 0 {
        assert(view.tracks[0] == timeline.tracks@[0]@);
        Some(timeline.tracks[0].id.clone())
    } else {
        None
    }
}

/// How many lanes stand up to the highest one occupied over a span.
pub open spec fn floor(
    tracks: Seq<TrackView>,
    clips: Seq<ClipView>,
    from: Number,
    to: Number,
) -> nat
    decreases tracks.len(),
{
    if tracks.len() == 0 {
        0
    } else if occupied(clips, tracks.last().id, from, to) {
        tracks.len()
    } else {
        floor(tracks.drop_last(), clips, from, to)
    }
}

/// The first free lane above the highest one occupied over a span, where there
/// is one.
pub open spec fn free_track_above(timeline: TimelineView, start: Number, duration: Number) -> Option<
    Seq<char>,
> {
    let row = floor(timeline.tracks, timeline.clips, start, sum(start, duration));
    if row < timeline.tracks.len() {
        Some(timeline.tracks[row as int].id)
    } else {
        None
    }
}

fn first_free_track_above(timeline: &Timeline, start: Number, duration: Number) -> (r: Option<
    String,
>)
    ensures
        text_of(r) == free_track_above(timeline@, start, duration),
{
    let finish: Number = start.plus(duration);
    let ghost view = timeline@;
    let mut row: usize = timeline.tracks.len();
    assert(view.tracks.take(row as int) =~= view.tracks);
    while row > 0 && !is_occupied(&timeline.clips, &timeline.tracks[row - 1].id, start, finish)
        invariant
            row <= timeline.tracks.len(),
            view == timeline@,
            finish == sum(start, duration),
            floor(view.tracks, view.clips, start, finish) == floor(
                view.tracks.take(row as int),
                view.clips,
                start,
                finish,
            ),
        decreases row,
    {
        proof {
            assert(view.tracks.take(row as int).drop_last() =~= view.tracks.take(row - 1));
            assert(view.tracks.take(row as int).last() == timeline.tracks@[row - 1]@);
        }
        row = row - 1;
    }
    proof {
        if row > 0 {
            assert(view.tracks.take(row as int).last() == timeline.tracks@[row - 1]@);
        }
    }
    if row < timeline.tracks.len() {
        assert(view.tracks[row as int] == timeline.tracks@[row as int]@);
        Some(timeline.tracks[row].id.clone())
    } else {
        None
    }
}

/// Places a clip of a bin entry on the first free lane.
pub open spec fn adding_clip_anywhere(
    project: ProjectView,
    counter: nat,
    media_id: Seq<char>,
    start: Number,
) -> Step {
    let start = asked_start(start);
    let timeline = project.active();
    match project.media_index(media_id) {
        None => Step::refused(project, counter, Refusal::MediaGone),
        Some(m) => {
            let media = project.media[m];
            match free_track(timeline, start, length_of(media)) {
                None => Step::refused(project, counter, Refusal::NoTracks),
                Some(track_id) => {
                    let id = minted("c"@, counter);
                    Step::created(
                        project.with_active(
                            timeline.with_clips(
                                timeline.clips.push(clip_of(id, track_id, media, start)),
                            ),
                        ),
                        successor(counter),
                        id,
                    )
                },
            }
        },
    }
}

pub fn add_clip_at_first_free(
    project: &mut Project,
    mint: &mut IdMint,
    media_id: &str,
    start: Number,
) -> (r: Result<Outcome, CommandError>)
    requires
        old(project)@.editable(),
    ensures
        adding_clip_anywhere(old(project)@, old(mint)@, media_id@, start).is(
            final(project)@,
            final(mint)@,
            r,
        ),
{
    let start: Number = start.max(num(ZERO));
    let media: MediaItem = match find_media(&project.media, media_id) {
        None => {
            return Err(CommandError::MediaGone);
        },
        Some(m) => project.media[m].clone(),
    };
    let mut timeline: Timeline = project.active().clone();
    match first_free_track(&timeline, start, default_length(&media)) {
        None => Err(CommandError::NoTracks),
        Some(track_id) => {
            let id: String = mint.next("c");
            push_clip(&mut timeline, default_clip(id.clone(), track_id, &media, start));
            project.put_active(timeline);
            Ok(Outcome::created(id))
        },
    }
}

// Titles and layers.

/// A length asked for, or the default, never under the shortest a clip can be.
pub open spec fn asked_length(duration: Option<Number>, default: Number) -> Number {
    larger(
        match duration {
            Some(asked) => asked,
            None => default,
        },
        num(MIN_CLIP_DURATION),
    )
}

fn ask_length(duration: Option<Number>, default: Number) -> (r: Number)
    ensures
        r == asked_length(duration, default),
{
    match duration {
        Some(asked) => asked.max(num(MIN_CLIP_DURATION)),
        None => default.max(num(MIN_CLIP_DURATION)),
    }
}

/// A title as first placed.
pub open spec fn title_of(
    id: Seq<char>,
    track_id: Seq<char>,
    style: StyleView,
    start: Number,
    duration: Number,
    offset_y: Option<Number>,
) -> ClipView {
    ClipView {
        offset_y: clamped(
            match offset_y {
                Some(y) => y,
                None => num(ZERO),
            },
            num(MIN_OFFSET),
            num(MAX_OFFSET),
        ),
        text: Some(style),
        ..ClipView::blank(id, track_id, ClipKind::Text, label(style.content), start, duration)
    }
}

/// Places a title.
pub open spec fn adding_text(
    project: ProjectView,
    counter: nat,
    track_id: Option<Seq<char>>,
    above: bool,
    start: Number,
    style: Option<StyleView>,
    duration: Option<Number>,
    offset_y: Option<Number>,
) -> Step {
    let start = asked_start(start);
    let timeline = project.active();
    let look = match style {
        Some(sent) => sent,
        None => StyleView::plain(),
    };
    let length = asked_length(duration, num(DEFAULT_TEXT_DURATION));
    let place = |tracks: Seq<TrackView>, lane: Seq<char>, count: nat|
        Step::created(
            project.with_active(
                TimelineView {
                    tracks,
                    clips: timeline.clips.push(
                        title_of(minted("c"@, count), lane, look, start, length, offset_y),
                    ),
                    ..timeline
                },
            ),
            successor(count),
            minted("c"@, count),
        );
    match track_id {
        Some(lane) => if timeline.track_index(lane) is Some {
            place(timeline.tracks, lane, counter)
        } else {
            Step::refused(project, counter, Refusal::TrackGone)
        },
        None => if above {
            match free_track_above(timeline, start, length) {
                Some(lane) => place(timeline.tracks, lane, counter),
                None => place(
                    timeline.tracks.push(TrackView::fresh(minted("t"@, counter))),
                    minted("t"@, counter),
                    successor(counter),
                ),
            }
        } else {
            match free_track(timeline, start, length) {
                Some(lane) => place(timeline.tracks, lane, counter),
                None => Step::refused(project, counter, Refusal::NoTracks),
            }
        },
    }
}

pub fn add_text_clip(
    project: &mut Project,
    mint: &mut IdMint,
    track_id: Option<String>,
    above: bool,
    start: Number,
    style: Option<TextStyle>,
    duration: Option<Number>,
    offset_y: Option<Number>,
) -> (r: Result<Outcome, CommandError>)
    requires
        old(project)@.editable(),
    ensures
        adding_text(
            old(project)@,
            old(mint)@,
            text_of(track_id),
            above,
            start,
            crate::model::clip::style_of(style),
            duration,
            offset_y,
        ).is(final(project)@, final(mint)@, r),
{
    let start: Number = start.max(num(ZERO));
    let style: TextStyle = match style {
        Some(sent) => sent,
        None => TextStyle::default(),
    };
    let duration: Number = ask_length(duration, num(DEFAULT_TEXT_DURATION));
    let mut timeline: Timeline = project.active().clone();
    let ghost view = timeline@;
    let lane: String = match track_id {
        Some(id) => {
            if timeline.track(id.as_str()).is_none() {
                return Err(CommandError::TrackGone);
            }
            id
        },
        None => {
            if above {
                match first_free_track_above(&timeline, start, duration) {
                    Some(id) => id,
                    None => {
                        // Every lane above the video is taken: mint one at the
                        // top for the words to land on.
                        let id: String = mint.next("t");
                        let ghost before = timeline.tracks@;
                        let track: Track = Track::fresh(id.clone());
                        timeline.tracks.push(track);
                        assert(tracks_of(timeline.tracks@) =~= tracks_of(before).push(track@));
                        id
                    },
                }
            } else {
                match first_free_track(&timeline, start, duration) {
                    Some(id) => id,
                    None => {
                        return Err(CommandError::NoTracks);
                    },
                }
            }
        },
    };
    let id: String = mint.next("c");
    let mut clip: Clip = Clip::blank(
        id.clone(),
        lane,
        ClipKind::Text,
        first_line(style.content.as_str()),
        start,
        duration,
    );
    let y: Number = match offset_y {
        Some(y) => y,
        None => num(ZERO),
    };
    clip.offset_y = y.clamp(num(MIN_OFFSET), num(MAX_OFFSET));
    clip.text = Some(style);
    push_clip(&mut timeline, clip);
    project.put_active(timeline);
    Ok(Outcome::created(id))
}

/// A layer as first placed.
pub open spec fn layer_of(
    id: Seq<char>,
    track_id: Seq<char>,
    name: Seq<char>,
    effect_id: Seq<char>,
    start: Number,
    duration: Number,
) -> ClipView {
    ClipView {
        video_effects: seq![
            FilterView {
                id: effect_id,
                params: Map::empty(),
                enabled: true,
                keys: Map::empty(),
            },
        ],
        ..ClipView::blank(
            id,
            track_id,
            ClipKind::Layer,
            if blank(name) {
                effect_id
            } else {
                name
            },
            start,
            duration,
        )
    }
}

/// Places a layer.
pub open spec fn adding_layer(
    project: ProjectView,
    counter: nat,
    track_id: Option<Seq<char>>,
    start: Number,
    duration: Option<Number>,
    effect_id: Seq<char>,
    name: Seq<char>,
) -> Step {
    let start = asked_start(start);
    let timeline = project.active();
    let length = asked_length(duration, num(DEFAULT_LAYER_DURATION));
    let place = |lane: Seq<char>|
        Step::created(
            project.with_active(
                timeline.with_clips(
                    timeline.clips.push(
                        layer_of(minted("c"@, counter), lane, name, effect_id, start, length),
                    ),
                ),
            ),
            successor(counter),
            minted("c"@, counter),
        );
    match track_id {
        Some(lane) => if timeline.track_index(lane) is Some {
            place(lane)
        } else {
            Step::refused(project, counter, Refusal::TrackGone)
        },
        None => match free_track(timeline, start, length) {
            Some(lane) => place(lane),
            None => Step::refused(project, counter, Refusal::NoTracks),
        },
    }
}

pub fn add_layer_clip(
    project: &mut Project,
    mint: &mut IdMint,
    track_id: Option<String>,
    start: Number,
    duration: Option<Number>,
    effect_id: String,
    name: String,
) -> (r: Result<Outcome, CommandError>)
    requires
        old(project)@.editable(),
    ensures
        adding_layer(
            old(project)@,
            old(mint)@,
            text_of(track_id),
            start,
            duration,
            effect_id@,
            name@,
        ).is(final(project)@, final(mint)@, r),
{
    let start: Number = start.max(num(ZERO));
    let duration: Number = ask_length(duration, num(DEFAULT_LAYER_DURATION));
    let mut timeline: Timeline = project.active().clone();
    let lane: String = match track_id {
        Some(id) => {
            if timeline.track(id.as_str()).is_none() {
                return Err(CommandError::TrackGone);
            }
            id
        },
        None => match first_free_track(&timeline, start, duration) {
            Some(id) => id,
            None => {
                return Err(CommandError::NoTracks);
            },
        },
    };
    let id: String = mint.next("c");
    let name: String = if is_blank(name.as_str()) {
        effect_id.clone()
    } else {
        name
    };
    let mut clip: Clip = Clip::blank(id.clone(), lane, ClipKind::Layer, name, start, duration);
    let link: AppliedFilter = AppliedFilter::new(effect_id);
    clip.video_effects = vec![link];
    assert(chain(clip.video_effects@) =~= seq![link@]);
    push_clip(&mut timeline, clip);
    project.put_active(timeline);
    Ok(Outcome::created(id))
}

// Moves.

/// A clip moved to a place and, where the lane exists, onto it.
pub open spec fn moved_clip(clip: ClipView, tracks: Seq<TrackView>, wanted: ClipMove) -> ClipView {
    ClipView {
        start: put(clip.start, larger(wanted.start, num(ZERO))),
        track_id: if first(tracks, |t: TrackView| t.id == wanted.track_id@) is Some {
            wanted.track_id@
        } else {
            clip.track_id
        },
        ..clip
    }
}

/// The clips after a run of moves, and whether any of them changed anything.
pub open spec fn moved(clips: Seq<ClipView>, tracks: Seq<TrackView>, moves: Seq<ClipMove>) -> (
    Seq<ClipView>,
    bool,
)
    decreases moves.len(),
{
    if moves.len() == 0 {
        (clips, false)
    } else {
        let (sofar, changed) = moved(clips, tracks, moves.drop_last());
        let wanted = moves.last();
        match first(sofar, |c: ClipView| c.id == wanted.clip_id@) {
            None => (sofar, changed),
            Some(i) => (
                sofar.update(i, moved_clip(sofar[i], tracks, wanted)),
                changed || !sofar[i].start.same(larger(wanted.start, num(ZERO))) || moved_clip(
                    sofar[i],
                    tracks,
                    wanted,
                ).track_id != sofar[i].track_id,
            ),
        }
    }
}

/// Repositions any number of clips.
pub open spec fn moving_clips(project: ProjectView, counter: nat, moves: Seq<ClipMove>) -> Step {
    let timeline = project.active();
    let (clips, applied) = moved(timeline.clips, timeline.tracks, moves);
    Step::changed(project.with_active(timeline.with_clips(clips)), counter, applied)
}

pub fn move_clips(project: &mut Project, mint: &mut IdMint, moves: Vec<ClipMove>) -> (r: Result<
    Outcome,
    CommandError,
>)
    requires
        old(project)@.editable(),
    ensures
        moving_clips(old(project)@, old(mint)@, moves@).is(final(project)@, final(mint)@, r),
{
    let mut timeline: Timeline = project.active().clone();
    let ghost start = timeline@;
    let mut applied: bool = false;
    let mut i: usize = 0;
    assert(moves@.take(0) =~= Seq::<ClipMove>::empty());
    while i < moves.len()
        invariant
            i <= moves.len(),
            timeline@ == start.with_clips(moved(start.clips, start.tracks, moves@.take(i as int)).0),
            applied == moved(start.clips, start.tracks, moves@.take(i as int)).1,
        decreases moves.len() - i,
    {
        proof {
            assert(moves@.take(i as int + 1).drop_last() =~= moves@.take(i as int));
            assert(moves@.take(i as int + 1).last() == moves@[i as int]);
        }
        let wanted: &ClipMove = &moves[i];
        match find_clip(&timeline.clips, wanted.clip_id.as_str()) {
            None => {},
            Some(at) => {
                let mut clip: Clip = (*timeline.clips[at]).clone();
                let shifted: bool = assign(&mut clip.start, wanted.start.max(num(ZERO)));
                let mut lane: bool = false;
                if find_track(&timeline.tracks, wanted.track_id.as_str()).is_some() {
                    lane = clip.track_id != wanted.track_id;
                    clip.track_id = wanted.track_id.clone();
                }
                timeline.put_clip(at, clip);
                applied = applied || shifted || lane;
            },
        }
        i = i + 1;
    }
    assert(moves@.take(moves@.len() as int) =~= moves@);
    project.put_active(timeline);
    Ok(Outcome::changed(applied))
}

// Another file behind a clip.

/// The bin with a file in it, the counter after, and the file's id: the entry
/// already there for its path, or a fresh one.
pub open spec fn shelved(project: ProjectView, counter: nat, entry: MediaView) -> (
    ProjectView,
    nat,
    Seq<char>,
) {
    match project.path_index(entry.path) {
        Some(i) => (project, counter, project.media[i].id),
        None => (
            ProjectView { media: project.media.push(entry), ..project },
            successor(counter),
            entry.id,
        ),
    }
}

/// A clip pointed at another file.
pub open spec fn repointed(
    clip: ClipView,
    media_id: Seq<char>,
    source_start: Option<Number>,
) -> ClipView {
    ClipView {
        media_id,
        source_start: put_some(clip.source_start, at_least_zero(source_start)),
        ..clip
    }
}

/// Points a clip at another file.
pub open spec fn replacing_media(
    project: ProjectView,
    counter: nat,
    clip_id: Seq<char>,
    item: NewMediaView,
    source_start: Option<Number>,
) -> Step {
    match project.active().clip_index(clip_id) {
        None => Step::nothing(project, counter),
        Some(i) => {
            let clip = project.active().clips[i];
            let (shelf, count, media_id) = shelved(
                project,
                counter,
                item.entry(minted("m"@, counter)),
            );
            let after = shelf.with_active(
                shelf.active().with_clip(i, repointed(clip, media_id, source_start)),
            );
            if media_id != clip.media_id || shelf.media.len() != project.media.len() || differs(
                clip.source_start,
                at_least_zero(source_start),
            ) {
                Step::created(after, count, media_id)
            } else {
                Step::nothing(after, count)
            }
        },
    }
}

pub fn replace_clip_media(
    project: &mut Project,
    mint: &mut IdMint,
    clip_id: &str,
    item: NewMedia,
    source_start: Option<Number>,
) -> (r: Result<Outcome, CommandError>)
    requires
        old(project)@.editable(),
    ensures
        replacing_media(old(project)@, old(mint)@, clip_id@, item@, source_start).is(
            final(project)@,
            final(mint)@,
            r,
        ),
{
    let mut timeline: Timeline = project.active().clone();
    match find_clip(&timeline.clips, clip_id) {
        None => Ok(Outcome::default()),
        Some(i) => {
            let mut taken_in: bool = false;
            let media_id: String = match find_path(&project.media, item.path.as_str()) {
                Some(m) => {
                    assert(project@.media[m as int] == project.media@[m as int]@);
                    project.media[m].id.clone()
                },
                None => {
                    let id: String = mint.next("m");
                    let ghost before = project.media@;
                    let entry: MediaItem = item.into_entry(id.clone());
                    project.media.push(entry);
                    assert(media_of(project.media@) =~= media_of(before).push(entry@));
                    taken_in = true;
                    id
                },
            };
            let mut clip: Clip = (*timeline.clips[i]).clone();
            let repointed: bool = clip.media_id != media_id;
            clip.media_id = media_id.clone();
            let mut shifted: bool = false;
            match source_start {
                Some(at) => {
                    shifted = assign(&mut clip.source_start, at.max(num(ZERO)));
                },
                None => {},
            }
            timeline.put_clip(i, clip);
            project.put_active(timeline);
            if repointed || taken_in || shifted {
                Ok(Outcome::created(media_id))
            } else {
                Ok(Outcome::default())
            }
        },
    }
}

} // verus!
