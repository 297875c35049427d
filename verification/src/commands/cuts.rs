//! Cutting clips: trims, splits, freezes, merges and deletions.

use crate::commands::clips::{end, push_right, pushed, shelved};
use crate::commands::command::{CommandError, Outcome, TrimEdge};
use crate::commands::mint::{minted, IdMint};
use crate::commands::properties::{assign, put};
use crate::commands::step::Step;
use crate::find::first;
use crate::model::clip::{Clip, ClipView};
use crate::model::filter::FilterView;
use crate::model::keys::ParamKey;
use crate::model::media::{text_of, ClipKind, MediaItem, NewMedia, NewMediaView};
use crate::model::project::{find_path, media_of, Project, ProjectView};
use crate::model::ride::{plays, ride_of, Ride};
use crate::model::timeline::{clips_of, find_clip, Timeline};
use crate::number::{
    difference, larger, negated, num, product, quotient, smaller, sum, Number, ONE, ZERO,
};
use crate::ranges::{JOIN_EPSILON, MIN_CLIP_DURATION};
use crate::shared::share;
use crate::text::successor;
use std::sync::Arc;
use vstd::prelude::*;

verus! {

/// How long a freeze frame holds when the caller does not say: 1.
pub const DEFAULT_FREEZE_DURATION: u64 = 0x3ff0_0000_0000_0000;

// Trims.

/// How a trim of the tail leaves a clip.
pub open spec fn tail_length(clip: ClipView, delta: Number) -> Number {
    larger(sum(clip.duration, delta), num(MIN_CLIP_DURATION))
}

pub open spec fn trimmed_tail(clip: ClipView, delta: Number, ride: Ride) -> ClipView {
    let length = tail_length(clip, delta);
    if clip.duration.same(length) {
        clip
    } else {
        (ClipView { duration: length, ..clip }).windowed(clip.duration, num(ZERO), length, ride)
    }
}

/// How far a trim of the head goes: not past the shortest a clip can be, and not
/// before the source begins.
pub open spec fn head_shift(clip: ClipView, delta: Number) -> Number {
    larger(
        smaller(delta, difference(clip.duration, num(MIN_CLIP_DURATION))),
        quotient(negated(clip.source_start), clip.speed),
    )
}

/// Where a trim of the head leaves the clip's start. A magnetic trim never moves
/// the clip, so the timeline's own start is no limit to it.
pub open spec fn head_start(clip: ClipView, delta: Number, ripple: bool) -> Number {
    let start = sum(clip.start, head_shift(clip, delta));
    if ripple {
        start
    } else {
        larger(start, num(ZERO))
    }
}

/// How far the head moved.
pub open spec fn head_moved(clip: ClipView, delta: Number, ripple: bool) -> Number {
    difference(head_start(clip, delta, ripple), clip.start)
}

/// Where the source starts after a trim of the head: the in-point moves with the
/// edge, scaled by speed, so the remaining pixels do not slide.
pub open spec fn head_source(clip: ClipView, delta: Number, ripple: bool) -> Number {
    larger(
        sum(clip.source_start, product(head_moved(clip, delta, ripple), clip.speed)),
        num(ZERO),
    )
}

pub open spec fn head_length(clip: ClipView, delta: Number, ripple: bool) -> Number {
    difference(clip.duration, head_moved(clip, delta, ripple))
}

/// Whether a trim changes the clip.
pub open spec fn trims(clip: ClipView, edge: TrimEdge, delta: Number, ripple: bool) -> bool {
    match edge {
        TrimEdge::End => !clip.duration.same(tail_length(clip, delta)),
        TrimEdge::Start => !clip.start.same(head_start(clip, delta, ripple)) || !clip.duration.same(
            head_length(clip, delta, ripple),
        ) || !clip.source_start.same(head_source(clip, delta, ripple)),
    }
}

/// How a trim of the head leaves a clip.
pub open spec fn trimmed_head(clip: ClipView, delta: Number, ripple: bool, ride: Ride) -> ClipView {
    let cut = ClipView {
        start: put(clip.start, head_start(clip, delta, ripple)),
        duration: put(clip.duration, head_length(clip, delta, ripple)),
        source_start: put(clip.source_start, head_source(clip, delta, ripple)),
        ..clip
    };
    let keyed = if trims(clip, TrimEdge::Start, delta, ripple) {
        cut.windowed(clip.duration, head_moved(clip, delta, ripple), clip.duration, ride)
    } else {
        cut
    };
    if ripple {
        ClipView { start: clip.start, ..keyed }
    } else {
        keyed
    }
}

/// The other clips of the lane behind a point, moved along.
pub open spec fn closed_up(
    clips: Seq<ClipView>,
    clip_id: Seq<char>,
    track_id: Seq<char>,
    behind: Number,
    by: Number,
) -> Seq<ClipView> {
    clips.map_values(
        |c: ClipView|
            if c.id != clip_id && c.track_id == track_id && behind.at_most(c.start) {
                ClipView { start: larger(sum(c.start, by), num(ZERO)), ..c }
            } else {
                c
            },
    )
}

/// Drags one edge of a clip.
pub open spec fn trimming(
    project: ProjectView,
    counter: nat,
    clip_id: Seq<char>,
    edge: TrimEdge,
    delta: Number,
    ripple: bool,
    ride: Ride,
) -> Step {
    let timeline = project.active();
    match timeline.clip_index(clip_id) {
        None => Step::nothing(project, counter),
        Some(i) => {
            let clip = timeline.clips[i];
            let applied = trims(clip, edge, delta, ripple);
            let cut = match edge {
                TrimEdge::End => trimmed_tail(clip, delta, ride),
                TrimEdge::Start => trimmed_head(clip, delta, ripple, ride),
            };
            let by = match edge {
                TrimEdge::End => difference(tail_length(clip, delta), clip.duration),
                TrimEdge::Start => negated(head_moved(clip, delta, ripple)),
            };
            let behind = match edge {
                TrimEdge::End => difference(end(clip), num(JOIN_EPSILON)),
                TrimEdge::Start => sum(clip.start, num(JOIN_EPSILON)),
            };
            let clips = timeline.clips.update(i, cut);
            Step::changed(
                project.with_active(
                    timeline.with_clips(
                        if ripple && applied && !by.same(num(ZERO)) {
                            closed_up(clips, clip_id, clip.track_id, behind, by)
                        } else {
                            clips
                        },
                    ),
                ),
                counter,
                applied,
            )
        },
    }
}

fn close_up(
    clips: &Vec<Arc<Clip>>,
    clip_id: &String,
    track_id: &String,
    behind: Number,
    by: Number,
) -> (r: Vec<Arc<Clip>>)
    ensures
        clips_of(r@) == closed_up(clips_of(clips@), clip_id@, track_id@, behind, by),
{
    let ghost wanted = closed_up(clips_of(clips@), clip_id@, track_id@, behind, by);
    let mut r: Vec<Arc<Clip>> = Vec::new();
    let mut i: usize = 0;
    while i < clips.len()
        invariant
            i <= clips.len(),
            r.len() == i,
            wanted == closed_up(clips_of(clips@), clip_id@, track_id@, behind, by),
            forall|j: int| 0 <= j < i ==> (#[trigger] r@[j])@ == wanted[j],
        decreases clips.len() - i,
    {
        if clips[i].id != *clip_id && clips[i].track_id == *track_id && behind.up_to(
            clips[i].start,
        ) {
            let mut clip: Clip = (*clips[i]).clone();
            clip.start = clip.start.plus(by).max(num(ZERO));
            r.push(Arc::new(clip));
        } else {
            r.push(share(&clips[i]));
        }
        i = i + 1;
    }
    assert(clips_of(r@) =~= wanted);
    r
}

fn trim_tail<F: Fn(&Vec<ParamKey>, Number, Number) -> Number>(
    clip: Clip,
    delta: Number,
    engine: &F,
) -> (r: Clip)
    requires
        plays(*engine),
    ensures
        r@ == trimmed_tail(clip@, delta, ride_of(*engine)),
{
    let mut clip: Clip = clip;
    let length: Number = clip.duration.plus(delta).max(num(MIN_CLIP_DURATION));
    let before: Number = clip.duration;
    if assign(&mut clip.duration, length) {
        clip.rewindow_keys(before, num(ZERO), length, engine);
    }
    clip
}

fn trim_head<F: Fn(&Vec<ParamKey>, Number, Number) -> Number>(
    clip: Clip,
    delta: Number,
    ripple: bool,
    engine: &F,
) -> (r: (Clip, bool, Number))
    requires
        plays(*engine),
    ensures
        r.0@ == trimmed_head(clip@, delta, ripple, ride_of(*engine)),
        r.1 == trims(clip@, TrimEdge::Start, delta, ripple),
        r.2 == head_moved(clip@, delta, ripple),
{
    let mut clip: Clip = clip;
    let anchor: Number = clip.start;
    let before: Number = clip.duration;
    let shift: Number = delta.min(clip.duration.minus(num(MIN_CLIP_DURATION))).max(
        clip.source_start.negate().over(clip.speed),
    );
    let start: Number = if ripple {
        clip.start.plus(shift)
    } else {
        clip.start.plus(shift).max(num(ZERO))
    };
    let moved: Number = start.minus(clip.start);
    let length: Number = clip.duration.minus(moved);
    let source: Number = clip.source_start.plus(moved.times(clip.speed)).max(num(ZERO));
    let a: bool = assign(&mut clip.start, start);
    let b: bool = assign(&mut clip.duration, length);
    let c: bool = assign(&mut clip.source_start, source);
    let applied: bool = a || b || c;
    if applied {
        clip.rewindow_keys(before, moved, before, engine);
    }
    if ripple {
        // The in-point moved; the clip stays put, and the lane behind it closes
        // by what came off the head.
        clip.start = anchor;
    }
    (clip, applied, moved)
}

pub fn trim_clip<F: Fn(&Vec<ParamKey>, Number, Number) -> Number>(
    project: &mut Project,
    mint: &mut IdMint,
    clip_id: String,
    edge: TrimEdge,
    delta: Number,
    ripple: bool,
    engine: &F,
) -> (r: Result<Outcome, CommandError>)
    requires
        old(project)@.editable(),
        plays(*engine),
    ensures
        trimming(old(project)@, old(mint)@, clip_id@, edge, delta, ripple, ride_of(*engine)).is(
            final(project)@,
            final(mint)@,
            r,
        ),
{
    let mut timeline: Timeline = project.active().clone();
    match find_clip(&timeline.clips, clip_id.as_str()) {
        None => Ok(Outcome::default()),
        Some(i) => {
            let clip: Clip = (*timeline.clips[i]).clone();
            let track_id: String = clip.track_id.clone();
            let start: Number = clip.start;
            let length: Number = clip.duration;
            let (cut, applied, by, behind) = match edge {
                TrimEdge::End => {
                    let next: Number = length.plus(delta).max(num(MIN_CLIP_DURATION));
                    let applied: bool = !length.equals(next);
                    (
                        trim_tail(clip, delta, engine),
                        applied,
                        next.minus(length),
                        start.plus(length).minus(num(JOIN_EPSILON)),
                    )
                },
                TrimEdge::Start => {
                    let (cut, applied, moved) = trim_head(clip, delta, ripple, engine);
                    (cut, applied, moved.negate(), start.plus(num(JOIN_EPSILON)))
                },
            };
            timeline.put_clip(i, cut);
            if ripple && applied && !by.equals(num(ZERO)) {
                let clips: Vec<Arc<Clip>> = close_up(
                    &timeline.clips,
                    &clip_id,
                    &track_id,
                    behind,
                    by,
                );
                timeline.clips = clips;
            }
            project.put_active(timeline);
            Ok(Outcome::changed(applied))
        },
    }
}

// Splits.

/// Whether a cut at this offset grazes or misses a clip.
pub open spec fn misses(clip: ClipView, offset: Number) -> bool {
    offset.at_most(num(MIN_CLIP_DURATION)) || difference(
        clip.duration,
        num(MIN_CLIP_DURATION),
    ).at_most(offset)
}

fn is_missed(clip: &Clip, offset: Number) -> (r: bool)
    ensures
        r == misses(clip@, offset),
{
    offset.up_to(num(MIN_CLIP_DURATION)) || clip.duration.minus(num(MIN_CLIP_DURATION)).up_to(offset)
}

/// The piece before a cut. It keeps the id and the way in.
pub open spec fn head_of(clip: ClipView, offset: Number, ride: Ride) -> ClipView {
    (ClipView { duration: offset, fade_out: num(ZERO), ..clip }).windowed(
        clip.duration,
        num(ZERO),
        offset,
        ride,
    )
}

/// The piece after a cut: it starts in the source where the head stops, and
/// keeps the way out.
pub open spec fn tail_of(
    clip: ClipView,
    offset: Number,
    id: Seq<char>,
    start: Number,
    ride: Ride,
) -> ClipView {
    (ClipView {
        id,
        start,
        duration: difference(clip.duration, offset),
        source_start: sum(clip.source_start, product(offset, clip.speed)),
        transition_in: None,
        fade_in: num(ZERO),
        ..clip
    }).windowed(clip.duration, offset, clip.duration, ride)
}

/// A list with one clip cut in two.
pub open spec fn cut_at(clips: Seq<ClipView>, index: int, head: ClipView, tail: ClipView) -> Seq<
    ClipView,
> {
    clips.update(index, head).insert(index + 1, tail)
}

/// A curve does not survive a cut in halves: both go to the constant mean they
/// averaged.
pub open spec fn uncurved(clip: ClipView, offset: Number) -> ClipView {
    if num(MIN_CLIP_DURATION).less(offset) && offset.less(
        difference(clip.duration, num(MIN_CLIP_DURATION)),
    ) {
        ClipView { speed_curve: None, ..clip }
    } else {
        clip
    }
}

/// The clips after cuts at one time, the counter, and the last tail's id.
pub open spec fn split_all(
    clips: Seq<ClipView>,
    counter: nat,
    ids: Seq<Seq<char>>,
    time: Number,
    ride: Ride,
) -> (Seq<ClipView>, nat, Option<Seq<char>>)
    decreases ids.len(),
{
    if ids.len() == 0 {
        (clips, counter, None)
    } else {
        let (sofar, count, last) = split_all(clips, counter, ids.drop_last(), time, ride);
        match first(sofar, |c: ClipView| c.id == ids.last()) {
            None => (sofar, count, last),
            Some(i) => {
                let offset = difference(time, sofar[i].start);
                let clip = uncurved(sofar[i], offset);
                if misses(clip, offset) {
                    (sofar.update(i, clip), count, last)
                } else {
                    let id = minted("c"@, count);
                    (
                        cut_at(
                            sofar,
                            i,
                            head_of(clip, offset, ride),
                            tail_of(clip, offset, id, sum(clip.start, offset), ride),
                        ),
                        successor(count),
                        Some(id),
                    )
                }
            },
        }
    }
}

/// The views of a list of ids.
pub open spec fn ids_of(ids: Seq<String>) -> Seq<Seq<char>> {
    ids.map_values(|s: String| s@)
}

/// Cuts each named clip in two at one time.
pub open spec fn splitting(
    project: ProjectView,
    counter: nat,
    ids: Seq<Seq<char>>,
    time: Number,
    ride: Ride,
) -> Step {
    let timeline = project.active();
    let (clips, count, created) = split_all(timeline.clips, counter, ids, time, ride);
    let after = project.with_active(timeline.with_clips(clips));
    match created {
        Some(id) => Step::created(after, count, id),
        None => Step::nothing(after, count),
    }
}

/// Cuts the clip at an index in two.
fn cut_clip<F: Fn(&Vec<ParamKey>, Number, Number) -> Number>(
    timeline: &mut Timeline,
    index: usize,
    offset: Number,
    id: String,
    start: Number,
    engine: &F,
)
    requires
        index < old(timeline).clips.len(),
        plays(*engine),
    ensures
        ({
            let clip = old(timeline)@.clips[index as int];
            final(timeline)@ == old(timeline)@.with_clips(
                cut_at(
                    old(timeline)@.clips,
                    index as int,
                    head_of(clip, offset, ride_of(*engine)),
                    tail_of(clip, offset, id@, start, ride_of(*engine)),
                ),
            )
        }),
{
    let ghost before = timeline@;
    let ghost held = timeline.clips@;
    assert(before.clips[index as int] == held[index as int]@);
    let whole: Number = timeline.clips[index].duration;
    let mut tail: Clip = (*timeline.clips[index]).clone();
    tail.id = id;
    tail.start = start;
    tail.duration = whole.minus(offset);
    tail.source_start = tail.source_start.plus(offset.times(tail.speed));
    // The transition belongs to the cut at the original clip's start, which the
    // head keeps; the way in belongs to the head and the way out to the tail.
    tail.transition_in = None;
    tail.fade_in = num(ZERO);
    tail.rewindow_keys(whole, offset, whole, engine);
    let mut head: Clip = (*timeline.clips[index]).clone();
    head.duration = offset;
    head.fade_out = num(ZERO);
    head.rewindow_keys(whole, num(ZERO), offset, engine);
    timeline.put_clip(index, head);
    let ghost middle = timeline.clips@;
    let shared: Arc<Clip> = Arc::new(tail);
    timeline.clips.insert(index + 1, shared);
    assert(clips_of(timeline.clips@) =~= clips_of(middle).insert(index as int + 1, tail@));
}

pub fn split_clips<F: Fn(&Vec<ParamKey>, Number, Number) -> Number>(
    project: &mut Project,
    mint: &mut IdMint,
    clip_ids: Vec<String>,
    time: Number,
    engine: &F,
) -> (r: Result<Outcome, CommandError>)
    requires
        old(project)@.editable(),
        plays(*engine),
    ensures
        splitting(old(project)@, old(mint)@, ids_of(clip_ids@), time, ride_of(*engine)).is(
            final(project)@,
            final(mint)@,
            r,
        ),
{
    let mut timeline: Timeline = project.active().clone();
    let ghost start = timeline@;
    let ghost counter = mint@;
    let ghost ids = ids_of(clip_ids@);
    let ghost ride = ride_of(*engine);
    let mut created: Option<String> = None;
    let mut k: usize = 0;
    assert(ids.take(0) =~= Seq::<Seq<char>>::empty());
    while k < clip_ids.len()
        invariant
            k <= clip_ids.len(),
            plays(*engine),
            ride == ride_of(*engine),
            ids == ids_of(clip_ids@),
            timeline@ == start.with_clips(
                split_all(start.clips, counter, ids.take(k as int), time, ride).0,
            ),
            mint@ == split_all(start.clips, counter, ids.take(k as int), time, ride).1,
            text_of(created) == split_all(start.clips, counter, ids.take(k as int), time, ride).2,
        decreases clip_ids.len() - k,
    {
        proof {
            assert(ids.take(k as int + 1).drop_last() =~= ids.take(k as int));
            assert(ids.take(k as int + 1).last() == clip_ids@[k as int]@);
        }
        match find_clip(&timeline.clips, clip_ids[k].as_str()) {
            None => {},
            Some(i) => {
                let ghost sofar = timeline@;
                let mut clip: Clip = (*timeline.clips[i]).clone();
                assert(sofar.clips[i as int] == clip@);
                let offset: Number = time.minus(clip.start);
                if num(MIN_CLIP_DURATION).below(offset) && offset.below(
                    clip.duration.minus(num(MIN_CLIP_DURATION)),
                ) {
                    clip.speed_curve = None;
                }
                assert(clip@ == uncurved(sofar.clips[i as int], offset));
                let missed: bool = is_missed(&clip, offset);
                let at: Number = clip.start.plus(offset);
                let ghost flat = clip@;
                timeline.put_clip(i, clip);
                if !missed {
                    let id: String = mint.next("c");
                    created = Some(id.clone());
                    cut_clip(&mut timeline, i, offset, id, at, engine);
                    proof {
                        let head = head_of(flat, offset, ride);
                        assert(sofar.clips.update(i as int, flat).update(i as int, head)
                            =~= sofar.clips.update(i as int, head));
                    }
                }
            },
        }
        k = k + 1;
    }
    assert(ids.take(ids.len() as int) =~= ids);
    project.put_active(timeline);
    match created {
        Some(id) => Ok(Outcome::created(id)),
        None => Ok(Outcome::default()),
    }
}

// Freeze frames.

/// How long a freeze holds.
pub open spec fn hold_of(duration: Option<Number>) -> Number {
    larger(
        match duration {
            Some(asked) => if num(ZERO).less(asked) {
                asked
            } else {
                num(DEFAULT_FREEZE_DURATION)
            },
            None => num(DEFAULT_FREEZE_DURATION),
        },
        num(MIN_CLIP_DURATION),
    )
}

/// The still a clip freezes into: the clip turned into a picture, with the
/// hold's own facts over the moving ones.
pub open spec fn frozen(
    clip: ClipView,
    id: Seq<char>,
    media_id: Seq<char>,
    time: Number,
    hold: Number,
) -> ClipView {
    ClipView {
        id,
        kind: ClipKind::Image,
        media_id,
        start: time,
        duration: hold,
        source_start: num(ZERO),
        speed: num(ONE),
        speed_curve: None,
        volume: num(ONE),
        fade_in: num(ZERO),
        fade_out: num(ZERO),
        filters: Seq::empty(),
        muted: None,
        detached_from: None,
        transition_in: None,
        text: None,
        ..clip
    }
}

/// The clips after a freeze: cut in two at the time, everything of the lane from
/// there on moved along by the hold, and the still in the gap.
pub open spec fn froze(
    clips: Seq<ClipView>,
    index: int,
    time: Number,
    hold: Number,
    media_id: Seq<char>,
    counter: nat,
    ride: Ride,
) -> Seq<ClipView> {
    let clip = clips[index];
    let flat = ClipView { speed_curve: None, ..clip };
    let offset = difference(time, clip.start);
    let pieces = cut_at(
        clips,
        index,
        head_of(flat, offset, ride),
        tail_of(flat, offset, minted("c"@, counter), time, ride),
    );
    pushed(pieces, clip.track_id, time, hold).push(
        frozen(clip, minted("c"@, successor(counter)), media_id, time, hold),
    )
}

/// Inserts a freeze frame.
pub open spec fn freezing(
    project: ProjectView,
    counter: nat,
    clip_id: Seq<char>,
    time: Number,
    duration: Option<Number>,
    still: Option<NewMediaView>,
    ride: Ride,
) -> Step {
    let timeline = project.active();
    let hold = hold_of(duration);
    match timeline.clip_index(clip_id) {
        None => Step::nothing(project, counter),
        Some(i) => {
            let clip = timeline.clips[i];
            if (clip.kind != ClipKind::Video && clip.kind != ClipKind::Image) || misses(
                clip,
                difference(time, clip.start),
            ) || (still is None && clip.kind != ClipKind::Image) {
                Step::nothing(project, counter)
            } else {
                let (shelf, count, media_id) = match still {
                    Some(item) => shelved(project, counter, item.still(minted("m"@, counter))),
                    None => (project, counter, clip.media_id),
                };
                Step::created(
                    shelf.with_active(
                        shelf.active().with_clips(
                            froze(timeline.clips, i, time, hold, media_id, count, ride),
                        ),
                    ),
                    successor(successor(count)),
                    minted("c"@, successor(count)),
                )
            }
        },
    }
}

fn freeze_clip(clip: Clip, id: String, media_id: String, time: Number, hold: Number) -> (r: Clip)
    ensures
        r@ == frozen(clip@, id@, media_id@, time, hold),
{
    let mut still: Clip = clip;
    still.id = id;
    still.kind = ClipKind::Image;
    still.media_id = media_id;
    still.start = time;
    still.duration = hold;
    still.source_start = num(ZERO);
    still.speed = num(ONE);
    still.speed_curve = None;
    still.volume = num(ONE);
    still.fade_in = num(ZERO);
    still.fade_out = num(ZERO);
    still.filters = Vec::new();
    still.muted = None;
    still.detached_from = None;
    still.transition_in = None;
    still.text = None;
    assert(still@.filters =~= Seq::<FilterView>::empty());
    still
}

/// How long a freeze holds.
fn hold_length(duration: Option<Number>) -> (r: Number)
    ensures
        r == hold_of(duration),
{
    let asked: Number = match duration {
        Some(asked) => if num(ZERO).below(asked) {
            asked
        } else {
            num(DEFAULT_FREEZE_DURATION)
        },
        None => num(DEFAULT_FREEZE_DURATION),
    };
    asked.max(num(MIN_CLIP_DURATION))
}

/// Puts a still in the bin, or finds it there.
fn shelve_still(project: &mut Project, mint: &mut IdMint, item: NewMedia) -> (r: String)
    ensures
        shelved(old(project)@, old(mint)@, item@.still(minted("m"@, old(mint)@))) == (
            final(project)@,
            final(mint)@,
            r@,
        ),
{
    match find_path(&project.media, item.path.as_str()) {
        Some(m) => {
            assert(project@.media[m as int] == project.media@[m as int]@);
            project.media[m].id.clone()
        },
        None => {
            let id: String = mint.next("m");
            let ghost before = project.media@;
            let entry: MediaItem = item.into_still(id.clone());
            project.media.push(entry);
            assert(media_of(project.media@) =~= media_of(before).push(entry@));
            id
        },
    }
}

/// Cuts a clip at a time and puts a still in the gap.
fn freeze_at<F: Fn(&Vec<ParamKey>, Number, Number) -> Number>(
    timeline: &mut Timeline,
    mint: &mut IdMint,
    index: usize,
    time: Number,
    hold: Number,
    media_id: String,
    engine: &F,
) -> (r: String)
    requires
        index < old(timeline).clips.len(),
        plays(*engine),
    ensures
        final(timeline)@ == old(timeline)@.with_clips(
            froze(
                old(timeline)@.clips,
                index as int,
                time,
                hold,
                media_id@,
                old(mint)@,
                ride_of(*engine),
            ),
        ),
        final(mint)@ == successor(successor(old(mint)@)),
        r@ == minted("c"@, successor(old(mint)@)),
{
    let ghost before = timeline@;
    let picture: Clip = (*timeline.clips[index]).clone();
    assert(before.clips[index as int] == picture@);
    let track_id: String = picture.track_id.clone();
    let offset: Number = time.minus(picture.start);
    let mut flat: Clip = picture.clone();
    flat.speed_curve = None;
    let ghost plain = flat@;
    timeline.put_clip(index, flat);
    let tail_id: String = mint.next("c");
    cut_clip(timeline, index, offset, tail_id, time, engine);
    proof {
        let head = head_of(plain, offset, ride_of(*engine));
        assert(before.clips.update(index as int, plain).update(index as int, head)
            =~= before.clips.update(index as int, head));
    }
    let mut moved: Vec<Arc<Clip>> = push_right(&timeline.clips, &track_id, time, hold);
    let id: String = mint.next("c");
    let still: Clip = freeze_clip(picture, id.clone(), media_id, time, hold);
    let ghost held = moved@;
    let shared: Arc<Clip> = Arc::new(still);
    moved.push(shared);
    assert(clips_of(moved@) =~= clips_of(held).push(still@));
    timeline.clips = moved;
    id
}

pub fn freeze_frame<F: Fn(&Vec<ParamKey>, Number, Number) -> Number>(
    project: &mut Project,
    mint: &mut IdMint,
    clip_id: &str,
    time: Number,
    duration: Option<Number>,
    still: Option<NewMedia>,
    engine: &F,
) -> (r: Result<Outcome, CommandError>)
    requires
        old(project)@.editable(),
        plays(*engine),
    ensures
        freezing(
            old(project)@,
            old(mint)@,
            clip_id@,
            time,
            duration,
            (match still {
                Some(item) => Some(item@),
                None => None,
            }),
            ride_of(*engine),
        ).is(final(project)@, final(mint)@, r),
{
    let hold: Number = hold_length(duration);
    let mut timeline: Timeline = project.active().clone();
    match find_clip(&timeline.clips, clip_id) {
        None => Ok(Outcome::default()),
        Some(i) => {
            let clip: Clip = (*timeline.clips[i]).clone();
            assert(timeline@.clips[i as int] == clip@);
            if clip.kind != ClipKind::Video && clip.kind != ClipKind::Image {
                return Ok(Outcome::default());
            }
            if is_missed(&clip, time.minus(clip.start)) {
                return Ok(Outcome::default());
            }
            let media_id: String = match still {
                Some(item) => shelve_still(project, mint, item),
                None => {
                    if clip.kind != ClipKind::Image {
                        return Ok(Outcome::default());
                    }
                    clip.media_id.clone()
                },
            };
            let id: String = freeze_at(&mut timeline, mint, i, time, hold, media_id, engine);
            project.put_active(timeline);
            Ok(Outcome::created(id))
        },
    }
}

} // verus!
