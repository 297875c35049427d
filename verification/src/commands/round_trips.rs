//! What one command undoes of another, and what it leaves alone.

use crate::commands::anchoring::showing;
use crate::commands::audio::{
    detaching, is_sound_of, placed_sounds, reattaching, silent, sounds, voiced,
};
use crate::commands::clips::{
    asked_start, clip_of, end, floor, free_track, landing, length_of, occupied, overlaps, with_room,
};
use crate::commands::command::TrimEdge;
use crate::commands::cuts::{
    cut_at, head_length, head_moved, head_of, head_source, head_start, misses, tail_length, tail_of,
    trimming,
};
use crate::commands::joins::{continues, gap_reason, in_time, merge_reason, pieces, touch};
use crate::commands::media::{adding_font, adding_media, filling_slot, removing_media};
use crate::commands::numbering::{listed, tab_ids};
use crate::commands::properties::put;
use crate::commands::removal::{before, closed, emptied, Emptied, Span};
use crate::commands::step::Step;
use crate::commands::timelines::{reordering, timeline_index};
use crate::find::{
    first, is_first, lemma_filter_all, lemma_filter_keeps, lemma_filter_kept, lemma_first,
    lemma_first_is, lemma_no_first,
};
use crate::model::clip::ClipView;
use crate::model::media::{MediaView, NewMediaView};
use crate::model::project::ProjectView;
use crate::model::ride::Ride;
use crate::model::timeline::{TimelineView, TrackView};
use crate::number::{
    absolute, difference, lemma_sum_grows, lemma_sum_keeps_order, lemma_units_monotonic, negated,
    num, product, smaller, sum, total_rank, Number, ZERO,
};
use crate::order::{in_order, lemma_sorted, lemma_sorted_already, Ranked};
use crate::ranges::{JOIN_EPSILON, MIN_CLIP_DURATION};
use vstd::prelude::*;

verus! {

// Cutting and joining.

/// A number is no distance from itself.
proof fn lemma_no_distance(x: Number)
    ensures
        !num(JOIN_EPSILON).less(absolute(difference(x, x))),
{
    reveal(sum);
    assert(negated(x).magnitude() == x.magnitude());
    assert(negated(x).negative() != x.negative());
}

pub proof fn lemma_windowed_keeps(clip: ClipView, old: Number, from: Number, to: Number, ride: Ride)
    ensures
        ({
            let after = clip.windowed(old, from, to, ride);
            after == ClipView {
                keys: after.keys,
                filters: after.filters,
                video_effects: after.video_effects,
                ..clip
            }
        }),
{
    reveal(ClipView::windowed);
}

/// The two pieces of a cut are continuous: the tail starts where the head ends, on
/// the timeline and in the source. The fade in stays with the head and the fade
/// out with the tail.
pub proof fn lemma_pieces_are_continuous(
    clip: ClipView,
    offset: Number,
    id: Seq<char>,
    ride: Ride,
)
    ensures
        ({
            let head = head_of(clip, offset, ride);
            let tail = tail_of(clip, offset, id, sum(clip.start, offset), ride);
            &&& touch(head, tail)
            &&& continues(head, tail)
            &&& head.start == clip.start
            &&& head.source_start == clip.source_start
            &&& head.fade_in == clip.fade_in && head.fade_out == num(ZERO)
            &&& tail.fade_out == clip.fade_out && tail.fade_in == num(ZERO)
        }),
{
    let start = sum(clip.start, offset);
    let head = head_of(clip, offset, ride);
    let tail = tail_of(clip, offset, id, start, ride);
    lemma_windowed_keeps(
        ClipView { duration: offset, fade_out: num(ZERO), ..clip },
        clip.duration,
        num(ZERO),
        offset,
        ride,
    );
    lemma_windowed_keeps(
        ClipView {
            id,
            start,
            duration: difference(clip.duration, offset),
            source_start: sum(clip.source_start, product(offset, clip.speed)),
            transition_in: None,
            fade_in: num(ZERO),
            ..clip
        },
        clip.duration,
        offset,
        clip.duration,
        ride,
    );
    lemma_no_distance(start);
    lemma_no_distance(sum(clip.source_start, product(offset, clip.speed)));
}

proof fn lemma_two_in_time(head: ClipView, tail: ClipView)
    requires
        total_rank(head.start) <= total_rank(tail.start),
    ensures
        in_time(seq![head, tail]) == seq![head, tail],
{
    let rank = |c: ClipView| total_rank(c.start);
    let both = seq![head, tail];
    assert(in_order(both, rank));
    lemma_sorted_already(both, rank);
}

/// The two pieces of a cut can be merged again.
pub proof fn lemma_pieces_can_merge(
    clips: Seq<ClipView>,
    at: int,
    offset: Number,
    id: Seq<char>,
    ride: Ride,
)
    requires
        0 <= at < clips.len(),
        forall|i: int, j: int|
            0 <= i < j < clips.len() ==> (#[trigger] clips[i]).id != (#[trigger] clips[j]).id,
        forall|i: int| 0 <= i < clips.len() ==> (#[trigger] clips[i]).id != id,
        clips[at].speed_curve is None,
        !clips[at].speed.nan(),
        clips[at].start.finite(),
        offset.finite(),
        !misses(clips[at], offset),
    ensures
        ({
            let clip = clips[at];
            let head = head_of(clip, offset, ride);
            let tail = tail_of(clip, offset, id, sum(clip.start, offset), ride);
            merge_reason(cut_at(clips, at, head, tail), seq![clip.id, id]) is None
        }),
{
    let clip = clips[at];
    let start = sum(clip.start, offset);
    let head = head_of(clip, offset, ride);
    let tail = tail_of(clip, offset, id, start, ride);
    let cut = cut_at(clips, at, head, tail);
    let ids = seq![clip.id, id];
    lemma_pieces_are_continuous(clip, offset, id, ride);
    lemma_windowed_keeps(
        ClipView { duration: offset, fade_out: num(ZERO), ..clip },
        clip.duration,
        num(ZERO),
        offset,
        ride,
    );
    lemma_windowed_keeps(
        ClipView {
            id,
            start,
            duration: difference(clip.duration, offset),
            source_start: sum(clip.source_start, product(offset, clip.speed)),
            transition_in: None,
            fade_in: num(ZERO),
            ..clip
        },
        clip.duration,
        offset,
        clip.duration,
        ride,
    );
    let found = pieces(cut, ids);
    assert(found =~= seq![head, tail]) by {
        let one = |c: ClipView| c.id == clip.id;
        let two = |c: ClipView| c.id == id;
        assert(cut[at] == head && cut[at + 1] == tail);
        assert forall|j: int| 0 <= j < at implies !one(#[trigger] cut[j]) by {
            assert(cut[j] == clips[j]);
        }
        assert(is_first(cut, one, at));
        lemma_first(cut, one, at);
        assert forall|j: int| 0 <= j < at + 1 implies !two(#[trigger] cut[j]) by {
            if j < at {
                assert(cut[j] == clips[j]);
            }
        }
        assert(is_first(cut, two, at + 1));
        lemma_first(cut, two, at + 1);
        reveal_with_fuel(pieces, 3);
        assert(ids.drop_last().drop_last() =~= Seq::<Seq<char>>::empty());
        assert(ids.last() == id);
        assert(ids.drop_last().last() == clip.id);
    }
    assert(offset.value() > 0) by {
        assert(!offset.at_most(num(MIN_CLIP_DURATION)));
        lemma_units_monotonic(0, offset.magnitude());
    }
    lemma_sum_grows(clip.start, offset);
    lemma_two_in_time(head, tail);
    assert(gap_reason(seq![head, tail]) is None) by {
        reveal_with_fuel(gap_reason, 3);
        assert(seq![head, tail].drop_last().len() == 1);
    }
}

// Ripple delete.

/// A ripple delete moves nothing but what has a gap before it on its own lane.
pub proof fn lemma_ripple_moves_only_what_follows(
    kept: Seq<ClipView>,
    gone: Seq<ClipView>,
    k: int,
)
    requires
        0 <= k < kept.len(),
        forall|g: int|
            0 <= g < gone.len() ==> (#[trigger] gone[g]).track_id != kept[k].track_id
                || !gone[g].start.less(kept[k].start),
    ensures
        closed(kept, emptied(gone))[k] == kept[k],
{
    let clip = kept[k];
    let gaps = emptied(gone);
    let behind = |g: Emptied| before(g, clip);
    assert forall|i: int| 0 <= i < gaps.len() implies !behind(#[trigger] gaps[i]) by {
        assert(gone[i].track_id == gaps[i].track_id);
    }
    lemma_filter_none(gaps, behind);
    let spans = gaps.filter(behind).map_values(
        |g: Emptied| Span { start: g.start, end: smaller(g.end, clip.start) },
    );
    assert(spans =~= Seq::<Span>::empty());
    lemma_sorted(spans, |s: Span| s.rank());
}

proof fn lemma_filter_none<T>(s: Seq<T>, pred: spec_fn(T) -> bool)
    requires
        forall|i: int| 0 <= i < s.len() ==> !pred(#[trigger] s[i]),
    ensures
        s.filter(pred) == Seq::<T>::empty(),
    decreases s.len(),
{
    reveal(Seq::filter);
    if s.len() > 0 {
        let d = s.drop_last();
        assert forall|i: int| 0 <= i < d.len() implies !pred(#[trigger] d[i]) by {
            assert(d[i] == s[i]);
        }
        lemma_filter_none(d, pred);
        assert(!pred(s[s.len() - 1]));
    }
}

// Sound.

/// A filter that keeps one part of a list whole and drops the rest.
proof fn lemma_filter_front<T>(s: Seq<T>, pred: spec_fn(T) -> bool, n: int)
    requires
        0 <= n <= s.len(),
        forall|i: int| 0 <= i < n ==> pred(#[trigger] s[i]),
        forall|i: int| n <= i < s.len() ==> !pred(#[trigger] s[i]),
    ensures
        s.filter(pred) == s.take(n),
    decreases s.len(),
{
    reveal(Seq::filter);
    if s.len() == n {
        lemma_filter_all(s, pred);
        assert(s.take(n) =~= s);
    } else {
        let d = s.drop_last();
        assert forall|i: int| 0 <= i < n implies pred(#[trigger] d[i]) by {
            assert(d[i] == s[i]);
        }
        assert forall|i: int| n <= i < d.len() implies !pred(#[trigger] d[i]) by {
            assert(d[i] == s[i]);
        }
        lemma_filter_front(d, pred, n);
        assert(d.take(n) =~= s.take(n));
        assert(!pred(s[s.len() - 1]));
    }
}

/// What the sounds of a clip are, behind the clips that were there.
proof fn lemma_sounds_behind(
    timeline: TimelineView,
    counter: nat,
    clip: ClipView,
    wanted: Seq<(Option<u32>, Seq<char>)>,
)
    ensures
        ({
            let after = placed_sounds(timeline, counter, clip, wanted).0;
            let n = timeline.clips.len() as int;
            &&& after.clips.len() == n + wanted.len()
            &&& after.clips.take(n) == timeline.clips
            &&& after.id == timeline.id
            &&& forall|k: int|
                n <= k < after.clips.len() ==> is_sound_of(#[trigger] after.clips[k], clip.id)
                    && after.clips[k].filters == clip.filters
        }),
    decreases wanted.len(),
{
    let n = timeline.clips.len() as int;
    if wanted.len() == 0 {
        assert(timeline.clips.take(n) =~= timeline.clips);
    } else {
        lemma_sounds_behind(timeline, counter, clip, wanted.drop_last());
        let sofar = placed_sounds(timeline, counter, clip, wanted.drop_last()).0;
        let after = placed_sounds(timeline, counter, clip, wanted).0;
        assert(after.clips.take(n) =~= sofar.clips.take(n));
        assert forall|k: int| n <= k < after.clips.len() implies is_sound_of(
            #[trigger] after.clips[k],
            clip.id,
        ) && after.clips[k].filters == clip.filters by {
            if k < sofar.clips.len() {
                assert(after.clips[k] == sofar.clips[k]);
            }
        }
    }
}

/// Reattaching takes detaching back: the clips are again those there were, the
/// picture with its sound on. Lanes made for the sounds stay.
pub proof fn lemma_reattaching_takes_detaching_back(
    project: ProjectView,
    counter: nat,
    clip_id: Seq<char>,
    later: nat,
)
    requires
        project.editable(),
        detaching(project, counter, clip_id).answer->Ok_0.applied,
        project.active().clips[project.active().clip_index(clip_id).unwrap()].detached_from is None,
    ensures
        ({
            let timeline = project.active();
            let i = timeline.clip_index(clip_id).unwrap();
            let apart = detaching(project, counter, clip_id).project;
            let again = reattaching(apart, later, clip_id);
            &&& again.answer->Ok_0.applied
            &&& again.project.active().clips == timeline.clips.update(
                i,
                ClipView { muted: None, ..timeline.clips[i] },
            )
        }),
{
    let timeline = project.active();
    let at = project.active_index();
    lemma_first_is(project.timelines, |t: TimelineView| t.id == project.active_timeline_id);
    lemma_first_is(timeline.clips, |c: ClipView| c.id == clip_id);
    let i = timeline.clip_index(clip_id).unwrap();
    let clip = timeline.clips[i];
    let n = timeline.clips.len() as int;
    let m = project.media_index(clip.media_id).unwrap();
    let wanted = sounds(clip, project.media[m].audio_tracks);
    let (after, count) = placed_sounds(timeline, counter, clip, wanted);
    lemma_sounds_behind(timeline, counter, clip, wanted);
    let left = after.with_clip(i, silent(clip));
    let apart = project.with_active(left);
    lemma_same_active(project, left);
    assert(apart.active() == left);
    assert forall|k: int| 0 <= k < n && k != i implies #[trigger] left.clips[k]
        == timeline.clips[k] by {
        assert(after.clips[k] == after.clips.take(n)[k]);
    }
    let mine = |c: ClipView| c.id == clip_id;
    let sound = |c: ClipView| is_sound_of(c, clip_id);
    assert(is_first(left.clips, mine, i));
    lemma_first(left.clips, mine, i);
    assert forall|j: int| 0 <= j < n implies !sound(#[trigger] left.clips[j]) by {
        assert(!is_sound_of(timeline.clips[j], clip.id));
    }
    assert(left.clips[n] == after.clips[n]);
    assert(is_first(left.clips, sound, n));
    lemma_first(left.clips, sound, n);
    let whole = left.clips.update(i, voiced(silent(clip), clip.filters));
    let stays = |c: ClipView| !is_sound_of(c, clip_id);
    assert forall|k: int| 0 <= k < n implies stays(#[trigger] whole[k]) by {
        if k != i {
            assert(left.clips[k] == timeline.clips[k]);
            assert(!sound(left.clips[k]));
        }
    }
    assert forall|k: int| n <= k < whole.len() implies !stays(#[trigger] whole[k]) by {
        assert(whole[k] == after.clips[k]);
    }
    lemma_filter_front(whole, stays, n);
    let back = timeline.clips.update(i, ClipView { muted: None, ..clip });
    assert(whole.take(n) =~= back);
    lemma_same_active(apart, left.with_clips(back));
}

/// The timeline being edited is still the one being edited once it is written
/// over with one that keeps its id.
pub proof fn lemma_same_active(project: ProjectView, timeline: TimelineView)
    requires
        project.editable(),
        timeline.id == project.active().id,
    ensures
        project.with_active(timeline).active() == timeline,
        project.with_active(timeline).active_index() == project.active_index(),
        project.with_active(timeline).editable(),
{
    let pred = |t: TimelineView| t.id == project.active_timeline_id;
    lemma_first_is(project.timelines, pred);
    let after = project.with_active(timeline);
    let at = project.active_index();
    match first(project.timelines, pred) {
        Some(i) => {
            assert forall|j: int| 0 <= j < i implies !pred(#[trigger] after.timelines[j]) by {
                assert(after.timelines[j] == project.timelines[j]);
            }
            assert(is_first(after.timelines, pred, i));
            lemma_first(after.timelines, pred, i);
        },
        None => {
            assert forall|j: int| 0 <= j < after.timelines.len() implies !pred(
                #[trigger] after.timelines[j],
            ) by {
                assert(!pred(project.timelines[j]));
                assert(!pred(project.timelines[at]));
            }
            lemma_no_first(after.timelines, pred);
        },
    }
}

// Files and tabs.

/// A file is imported once: another import of its path does nothing.
pub proof fn lemma_an_import_is_made_once(
    project: ProjectView,
    counter: nat,
    item: NewMediaView,
    again: NewMediaView,
)
    requires
        again.path == item.path,
    ensures
        ({
            let first = adding_media(project, counter, item);
            adding_media(first.project, first.counter, again) == Step::nothing(
                first.project,
                first.counter,
            )
        }),
{
    let after = adding_media(project, counter, item).project;
    let there = |m: MediaView| m.path == again.path;
    if project.path_index(item.path) is None {
        assert(there(after.media.last()));
    }
    lemma_first_is(project.media, |m: MediaView| m.path == item.path);
    lemma_first_is(after.media, there);
}

/// A font is registered once: another registration of its path does nothing.
pub proof fn lemma_a_font_is_added_once(
    project: ProjectView,
    counter: nat,
    family: Seq<char>,
    again: Seq<char>,
    path: Seq<char>,
)
    ensures
        ({
            let first = adding_font(project, counter, family, path);
            adding_font(first.project, first.counter, again, path) == Step::nothing(
                first.project,
                first.counter,
            )
        }),
{
    let after = adding_font(project, counter, family, path).project;
    if after.fonts.len() > project.fonts.len() {
        assert(after.fonts[project.fonts.len() as int].path == path);
    }
}

/// A filled slot keeps the template's timing: every clip stays on its lane, at its
/// place and as long as it was.
pub proof fn lemma_a_filled_slot_keeps_the_timing(
    project: ProjectView,
    counter: nat,
    media_id: Seq<char>,
    item: NewMediaView,
    i: int,
    k: int,
)
    requires
        0 <= i < project.timelines.len(),
        0 <= k < project.timelines[i].clips.len(),
    ensures
        ({
            let after = filling_slot(project, counter, media_id, item).project;
            let was = project.timelines[i].clips[k];
            let is = after.timelines[i].clips[k];
            &&& after.timelines.len() == project.timelines.len()
            &&& after.timelines[i].clips.len() == project.timelines[i].clips.len()
            &&& is.id == was.id && is.track_id == was.track_id && is.media_id == was.media_id
            &&& is.start == was.start && is.duration == was.duration && is.speed == was.speed
        }),
{
}

/// A file that goes takes its clips with it, from every timeline, and leaves the
/// others.
pub proof fn lemma_a_file_takes_its_clips(
    project: ProjectView,
    counter: nat,
    media_id: Seq<char>,
    i: int,
)
    requires
        0 <= i < project.timelines.len(),
        project.media_index(media_id) is Some,
    ensures
        ({
            let was = project.timelines[i].clips;
            let is = removing_media(project, counter, media_id).project.timelines[i].clips;
            &&& forall|k: int| 0 <= k < is.len() ==> (#[trigger] is[k]).media_id != media_id
            &&& forall|k: int|
                0 <= k < was.len() && (#[trigger] was[k]).media_id != media_id ==> is.contains(
                    was[k],
                )
        }),
{
    let was = project.timelines[i].clips;
    let stays = |c: ClipView| c.media_id != media_id;
    let is = removing_media(project, counter, media_id).project.timelines[i].clips;
    assert(is == was.filter(stays));
    lemma_filter_kept(was, stays);
    assert forall|k: int| 0 <= k < is.len() implies (#[trigger] is[k]).media_id != media_id by {
        assert(stays(was.filter(stays)[k]));
    }
    assert forall|k: int|
        0 <= k < was.len() && (#[trigger] was[k]).media_id != media_id implies is.contains(
        was[k],
    ) by {
        lemma_filter_keeps(was, stays, k);
    }
}

/// A tab that moves takes nobody's place: the timeline shown is the one that was.
pub proof fn lemma_a_moved_tab_keeps_the_selection(
    project: ProjectView,
    counter: nat,
    timeline_id: Seq<char>,
    index: nat,
)
    requires
        showing(project),
        listed(tab_ids(project.timelines), counter),
    ensures
        reordering(project, counter, timeline_id, index).project.active() == project.active(),
{
    let after = reordering(project, counter, timeline_id, index).project;
    let shown = |t: TimelineView| t.id == project.active_timeline_id;
    lemma_first_is(project.timelines, |t: TimelineView| t.id == timeline_id);
    lemma_first_is(project.timelines, shown);
    lemma_first_is(after.timelines, shown);
    let ids = tab_ids(project.timelines);
    let s = choose|s: int| 0 <= s < ids.len() && ids[s] == project.active_timeline_id;
    assert(shown(project.timelines[s]));
    let a = project.active_index();
    assert(ids[a] == project.active_timeline_id);
    match timeline_index(project, timeline_id) {
        Some(i) => {
            let rest = project.timelines.remove(i);
            let to = if index < rest.len() {
                index as int
            } else {
                rest.len() as int
            };
            let there = if a == i {
                to
            } else {
                let b = if a < i {
                    a
                } else {
                    a - 1
                };
                assert(rest[b] == project.timelines[a]);
                if b < to {
                    b
                } else {
                    b + 1
                }
            };
            assert(after.timelines[there] == project.timelines[a]);
            assert(shown(after.timelines[there]));
            let b = after.active_index();
            assert(shown(after.timelines[b]));
            let j = if b < to {
                b
            } else {
                b - 1
            };
            let from = if b == to {
                i
            } else if j < i {
                j
            } else {
                j + 1
            };
            assert(after.timelines[b] == project.timelines[from]);
            assert(ids[from] == project.active_timeline_id);
        },
        None => {},
    }
}

// Lanes.

/// A caption's lane is above everything: nothing stands in its span on it or on
/// any lane above it, and something does on the lane below it.
pub proof fn lemma_the_lane_above_is_free(
    tracks: Seq<TrackView>,
    clips: Seq<ClipView>,
    from: Number,
    to: Number,
)
    ensures
        floor(tracks, clips, from, to) <= tracks.len(),
        forall|row: int|
            floor(tracks, clips, from, to) <= row < tracks.len() ==> !occupied(
                clips,
                (#[trigger] tracks[row]).id,
                from,
                to,
            ),
        floor(tracks, clips, from, to) > 0 ==> occupied(
            clips,
            tracks[floor(tracks, clips, from, to) - 1].id,
            from,
            to,
        ),
    decreases tracks.len(),
{
    if tracks.len() > 0 && !occupied(clips, tracks.last().id, from, to) {
        let rest = tracks.drop_last();
        lemma_the_lane_above_is_free(rest, clips, from, to);
        assert forall|row: int| floor(tracks, clips, from, to) <= row < tracks.len() implies !occupied(
            clips,
            (#[trigger] tracks[row]).id,
            from,
            to,
        ) by {
            if row < rest.len() {
                assert(rest[row] == tracks[row]);
            }
        }
        if floor(tracks, clips, from, to) > 0 {
            let row = floor(tracks, clips, from, to) - 1;
            assert(rest[row] == tracks[row]);
        }
    }
}

/// The first free lane is the lowest with nothing in the span, and the bottom one
/// where every lane has something.
pub proof fn lemma_the_first_free_lane(timeline: TimelineView, start: Number, duration: Number)
    ensures
        match free_track(timeline, start, duration) {
            Some(lane) => exists|row: int|
                0 <= row < timeline.tracks.len() && (#[trigger] timeline.tracks[row]).id == lane && (
                row == 0 || !occupied(
                    timeline.clips,
                    lane,
                    start,
                    sum(start, duration),
                )) && forall|below: int|
                    0 <= below < row ==> occupied(
                        timeline.clips,
                        (#[trigger] timeline.tracks[below]).id,
                        start,
                        sum(start, duration),
                    ),
            None => timeline.tracks.len() == 0,
        },
{
    let free = |t: TrackView| !occupied(timeline.clips, t.id, start, sum(start, duration));
    lemma_first_is(timeline.tracks, free);
    match first(timeline.tracks, free) {
        Some(row) => {
            assert forall|below: int| 0 <= below < row implies occupied(
                timeline.clips,
                (#[trigger] timeline.tracks[below]).id,
                start,
                sum(start, duration),
            ) by {
                assert(!free(timeline.tracks[below]));
            }
            assert(timeline.tracks[row].id == free_track(timeline, start, duration).unwrap());
        },
        None => {
            if timeline.tracks.len() > 0 {
                assert(timeline.tracks[0].id == free_track(timeline, start, duration).unwrap());
            }
        },
    }
}

/// Whether the clips of a lane lie one after another: each somewhere, each some
/// time long, and none over another.
pub open spec fn spread(clips: Seq<ClipView>, track_id: Seq<char>) -> bool {
    &&& forall|i: int|
        0 <= i < clips.len() && (#[trigger] clips[i]).track_id == track_id ==> {
            &&& clips[i].start.finite()
            &&& clips[i].duration.finite()
            &&& num(ZERO).less(clips[i].duration)
        }
    &&& forall|i: int, j: int|
        0 <= i < clips.len() && 0 <= j < clips.len() && i != j && clips[j].track_id == track_id
            ==> !overlaps(
            #[trigger] clips[i],
            track_id,
            (#[trigger] clips[j]).start,
            end(clips[j]),
        )
}

/// A clip that is some time long ends no earlier than it starts.
proof fn lemma_ends_after(clip: ClipView)
    requires
        clip.start.finite(),
        clip.duration.finite(),
        num(ZERO).less(clip.duration),
    ensures
        clip.start.at_most(end(clip)),
{
    lemma_units_monotonic(0, clip.duration.magnitude());
    lemma_sum_grows(clip.start, clip.duration);
}

/// A drop lands past every clip it would have landed on, and no further.
proof fn lemma_landing(clips: Seq<ClipView>, track_id: Seq<char>, start: Number)
    requires
        start.finite(),
        forall|i: int|
            0 <= i < clips.len() && (#[trigger] clips[i]).track_id == track_id ==> !end(
                clips[i],
            ).nan(),
    ensures
        start.at_most(landing(clips, track_id, start)),
        forall|i: int|
            0 <= i < clips.len() && (#[trigger] clips[i]).track_id == track_id
                && clips[i].start.less(start) && start.less(end(clips[i])) ==> end(
                clips[i],
            ).at_most(landing(clips, track_id, start)),
        landing(clips, track_id, start) == start || exists|i: int|
            0 <= i < clips.len() && (#[trigger] clips[i]).track_id == track_id
                && clips[i].start.less(start) && end(clips[i]) == landing(clips, track_id, start),
    decreases clips.len(),
{
    if clips.len() > 0 {
        let rest = clips.drop_last();
        assert forall|i: int|
            0 <= i < rest.len() && (#[trigger] rest[i]).track_id == track_id implies !end(
            rest[i],
        ).nan() by {
            assert(rest[i] == clips[i]);
        }
        lemma_landing(rest, track_id, start);
        let at = landing(clips, track_id, start);
        let last = clips.len() - 1;
        assert(clips[last] == clips.last());
        assert forall|i: int|
            0 <= i < clips.len() && (#[trigger] clips[i]).track_id == track_id
                && clips[i].start.less(start) && start.less(end(clips[i])) implies end(
            clips[i],
        ).at_most(at) by {
            if i < last {
                assert(rest[i] == clips[i]);
            }
        }
        let sofar = landing(rest, track_id, start);
        if sofar != start {
            let i = choose|i: int|
                0 <= i < rest.len() && (#[trigger] rest[i]).track_id == track_id
                    && rest[i].start.less(start) && end(rest[i]) == sofar;
            assert(clips[i] == rest[i]);
        }
    }
}

/// A magnetic drop covers nothing: on a lane whose clips lie one after another,
/// the place made for the new clip is free from where it starts to where it ends,
/// wherever the drop was asked for.
pub proof fn lemma_a_drop_covers_nothing(
    clips: Seq<ClipView>,
    id: Seq<char>,
    track_id: Seq<char>,
    media: MediaView,
    start: Number,
)
    requires
        spread(clips, track_id),
        start.finite(),
        length_of(media).finite(),
    ensures
        ({
            let from = asked_start(start);
            let placed = clip_of(id, track_id, media, landing(clips, track_id, from));
            !occupied(
                with_room(clips, track_id, from, length_of(media)),
                track_id,
                placed.start,
                end(placed),
            )
        }),
{
    let start = asked_start(start);
    let length = length_of(media);
    let at = landing(clips, track_id, start);
    let placed = clip_of(id, track_id, media, at);
    let room = with_room(clips, track_id, start, length);
    assert forall|i: int| 0 <= i < clips.len() && (#[trigger] clips[i]).track_id == track_id implies
        clips[i].start.at_most(end(clips[i])) by {
        lemma_ends_after(clips[i]);
    }
    lemma_landing(clips, track_id, start);
    assert(placed.start == at);
    assert(end(placed) == sum(at, length));
    if occupied(clips, track_id, at, sum(at, length)) {
        assert forall|i: int| 0 <= i < room.len() implies !overlaps(
            #[trigger] room[i],
            track_id,
            at,
            sum(at, length),
        ) by {
            let clip = clips[i];
            if clip.track_id == track_id {
                if at.at_most(clip.start) {
                    lemma_sum_keeps_order(at, clip.start, length);
                } else if start.at_most(clip.start) {
                    let d = choose|d: int|
                        0 <= d < clips.len() && (#[trigger] clips[d]).track_id == track_id
                            && clips[d].start.less(start) && end(clips[d]) == at;
                    assert(!overlaps(clips[d], track_id, clips[i].start, end(clips[i])));
                }
            }
        }
    }
}

/// A trim that is not magnetic touches its clip alone. A magnetic one leaves the
/// clip where it is, and moves nothing of another lane.
pub proof fn lemma_a_trim_stays_on_its_lane(
    project: ProjectView,
    counter: nat,
    clip_id: Seq<char>,
    edge: TrimEdge,
    delta: Number,
    ripple: bool,
    ride: Ride,
    k: int,
)
    requires
        project.editable(),
        project.active().clip_index(clip_id) is Some,
        0 <= k < project.active().clips.len(),
    ensures
        ({
            let i = project.active().clip_index(clip_id)->0;
            let was = project.active().clips;
            let after = trimming(project, counter, clip_id, edge, delta, ripple, ride).project;
            let is = after.timelines[project.active_index()].clips;
            &&& is.len() == was.len()
            &&& !ripple && k != i ==> is[k] == was[k]
            &&& k != i && was[k].track_id != was[i].track_id ==> is[k] == was[k]
            &&& ripple ==> is[i].start == was[i].start
            &&& is[k].id == was[k].id && is[k].track_id == was[k].track_id
        }),
{
    let i = project.active().clip_index(clip_id)->0;
    lemma_first_is(project.timelines, |t: TimelineView| t.id == project.active_timeline_id);
    lemma_first_is(project.active().clips, |c: ClipView| c.id == clip_id);
    let clip = project.active().clips[i];
    let length = tail_length(clip, delta);
    lemma_windowed_keeps(
        ClipView { duration: length, ..clip },
        clip.duration,
        num(ZERO),
        length,
        ride,
    );
    lemma_windowed_keeps(
        ClipView {
            start: put(clip.start, head_start(clip, delta, ripple)),
            duration: put(clip.duration, head_length(clip, delta, ripple)),
            source_start: put(clip.source_start, head_source(clip, delta, ripple)),
            ..clip
        },
        clip.duration,
        head_moved(clip, delta, ripple),
        clip.duration,
        ride,
    );
}

} // verus!
