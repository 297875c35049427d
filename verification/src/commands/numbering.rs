//! No two things of a kind share an id: what the mint is for, kept by every
//! command.

use crate::commands::apply::{
    cutting_step, is_cutting, is_keys, is_lanes, is_look, is_media, is_placing, keys_step,
    lanes_step, lemma_run_stays_editable, look_step, media_step, placing_step, ran, stepped,
    still_of, tabs_step,
};
use crate::commands::audio::{
    detaching, empty_track, is_sound_of, placed_sounds, reattaching, silent, sounds, voiced,
};
use crate::commands::clips::{
    asked_length, asked_start, clip_of, end, free_track, free_track_above, landing, layer_of,
    length_of, moved, pushed, repointed, shelved, title_of, with_room, DEFAULT_LAYER_DURATION,
    DEFAULT_TEXT_DURATION,
};
use crate::commands::command::{ClipMove, Command, TrimEdge};
use crate::commands::cuts::{
    cut_at, freezing, froze, frozen, head_of, hold_of, ids_of, misses, split_all, splitting,
    tail_of, trimmed_head, trimmed_tail, trimming, uncurved,
};
use crate::commands::joins::{absorbed_all, in_time, merge_reason, merged, merging, names, pieces};
use crate::commands::mint::{
    adopted_all, covered, lemma_minted_fresh, lemma_project_covered, minted, project_ids,
    timeline_ids, timelines_ids,
};
use crate::commands::removal::removing;
use crate::commands::step::Step;
use crate::commands::timelines::{
    adding_timeline, fresh_timeline, labels, reordering, timeline_index,
};
use crate::commands::tracks::flagged;
use crate::find::{first, lemma_first_is};
use crate::model::clip::{style_of, ClipView};
use crate::model::keys::ClipKey;
use crate::model::media::{text_of, MediaView, NewMediaView};
use crate::model::project::ProjectView;
use crate::model::ride::Ride;
use crate::model::style::StyleView;
use crate::model::timeline::{TimelineView, TrackView, VideoSettings};
use crate::number::{difference, num, sum, Number, ZERO};
use crate::text::is_digit;
use vstd::prelude::*;

verus! {

/// The prefixes that ids are minted under.
pub open spec fn minting(prefix: Seq<char>) -> bool {
    prefix == "m"@ || prefix == "c"@ || prefix == "t"@ || prefix == "tl"@
}

/// Whether the mint will not issue an id any more: no number past the counter
/// makes it.
pub open spec fn spent(id: Seq<char>, counter: nat) -> bool {
    forall|prefix: Seq<char>, n: nat|
        minting(prefix) && counter <= n < u64::MAX ==> id != #[trigger] minted(prefix, n)
}

/// Whether no id of a list is another's, and the mint is past every one of them.
pub open spec fn listed(ids: Seq<Seq<char>>, counter: nat) -> bool {
    &&& forall|i: int| 0 <= i < ids.len() ==> spent(#[trigger] ids[i], counter)
    &&& forall|i: int, j: int|
        0 <= i < j < ids.len() ==> #[trigger] ids[i] != #[trigger] ids[j]
}

pub open spec fn clip_ids(clips: Seq<ClipView>) -> Seq<Seq<char>> {
    clips.map_values(|c: ClipView| c.id)
}

pub open spec fn track_ids(tracks: Seq<TrackView>) -> Seq<Seq<char>> {
    tracks.map_values(|t: TrackView| t.id)
}

pub open spec fn media_ids(media: Seq<MediaView>) -> Seq<Seq<char>> {
    media.map_values(|m: MediaView| m.id)
}

pub open spec fn tab_ids(timelines: Seq<TimelineView>) -> Seq<Seq<char>> {
    timelines.map_values(|t: TimelineView| t.id)
}

/// Whether the lanes and the clips of a timeline are told apart by their ids.
pub open spec fn told_apart(timeline: TimelineView, counter: nat) -> bool {
    listed(track_ids(timeline.tracks), counter) && listed(clip_ids(timeline.clips), counter)
}

/// Whether everything in a project is told apart from its like by its id, and the
/// mint is past every one of the ids.
pub open spec fn numbered(project: ProjectView, counter: nat) -> bool {
    &&& listed(media_ids(project.media), counter)
    &&& listed(tab_ids(project.timelines), counter)
    &&& forall|i: int|
        0 <= i < project.timelines.len() ==> told_apart(#[trigger] project.timelines[i], counter)
}

proof fn lemma_listed_on(ids: Seq<Seq<char>>, counter: nat, later: nat)
    requires
        listed(ids, counter),
        counter <= later,
    ensures
        listed(ids, later),
{
    assert forall|i: int| 0 <= i < ids.len() implies spent(#[trigger] ids[i], later) by {
        assert(spent(ids[i], counter));
    }
}

/// A mint that has moved on is still past the ids it was past.
pub proof fn lemma_numbered_on(project: ProjectView, counter: nat, later: nat)
    requires
        numbered(project, counter),
        counter <= later,
    ensures
        numbered(project, later),
{
    lemma_listed_on(media_ids(project.media), counter, later);
    lemma_listed_on(tab_ids(project.timelines), counter, later);
    assert forall|i: int| 0 <= i < project.timelines.len() implies told_apart(
        #[trigger] project.timelines[i],
        later,
    ) by {
        assert(told_apart(project.timelines[i], counter));
        lemma_listed_on(track_ids(project.timelines[i].tracks), counter, later);
        lemma_listed_on(clip_ids(project.timelines[i].clips), counter, later);
    }
}

proof fn lemma_nondigit(prefix: Seq<char>)
    requires
        minting(prefix),
    ensures
        prefix.len() > 0,
        !is_digit(prefix.last()),
{
    reveal_strlit("m");
    reveal_strlit("c");
    reveal_strlit("t");
    reveal_strlit("tl");
}

/// An id without a number past the counter is spent.
pub proof fn lemma_covered_is_spent(id: Seq<char>, counter: nat)
    requires
        covered(id, counter),
    ensures
        spent(id, counter),
{
    assert forall|prefix: Seq<char>, n: nat|
        minting(prefix) && counter <= n < u64::MAX implies id != #[trigger] minted(prefix, n) by {
        lemma_nondigit(prefix);
        lemma_minted_fresh(prefix, n, id);
    }
}

/// What is minted is spent.
proof fn lemma_minted_spent(prefix: Seq<char>, counter: nat)
    requires
        minting(prefix),
        counter < u64::MAX,
    ensures
        spent(minted(prefix, counter), counter + 1),
{
    lemma_nondigit(prefix);
    lemma_minted_fresh(prefix, counter, Seq::empty());
    lemma_covered_is_spent(minted(prefix, counter), counter + 1);
}

/// A fresh id anywhere in a list is told apart from the rest.
proof fn lemma_listed_insert(ids: Seq<Seq<char>>, at: int, prefix: Seq<char>, counter: nat)
    requires
        listed(ids, counter),
        0 <= at <= ids.len(),
        counter < u64::MAX,
        minting(prefix),
    ensures
        listed(ids.insert(at, minted(prefix, counter)), counter + 1),
{
    let id = minted(prefix, counter);
    let after = ids.insert(at, id);
    lemma_listed_on(ids, counter, counter + 1);
    lemma_minted_spent(prefix, counter);
    assert forall|i: int| 0 <= i < ids.len() implies #[trigger] ids[i] != id by {
        assert(spent(ids[i], counter));
    }
    assert forall|i: int| 0 <= i < after.len() implies spent(
        #[trigger] after[i],
        counter + 1,
    ) by {
        if i < at {
            assert(after[i] == ids[i]);
        } else if i > at {
            assert(after[i] == ids[i - 1]);
        }
    }
    assert forall|i: int, j: int| 0 <= i < j < after.len() implies #[trigger] after[i]
        != #[trigger] after[j] by {
        let a = if i < at {
            i
        } else {
            i - 1
        };
        let b = if j < at {
            j
        } else {
            j - 1
        };
        if i == at {
            assert(after[j] == ids[b]);
        } else if j == at {
            assert(after[i] == ids[a]);
        } else {
            assert(after[i] == ids[a] && after[j] == ids[b]);
        }
    }
}

proof fn lemma_listed_push(ids: Seq<Seq<char>>, prefix: Seq<char>, counter: nat)
    requires
        listed(ids, counter),
        counter < u64::MAX,
        minting(prefix),
    ensures
        listed(ids.push(minted(prefix, counter)), counter + 1),
{
    lemma_listed_insert(ids, ids.len() as int, prefix, counter);
    assert(ids.insert(ids.len() as int, minted(prefix, counter)) =~= ids.push(
        minted(prefix, counter),
    ));
}

proof fn lemma_listed_remove(ids: Seq<Seq<char>>, at: int, counter: nat)
    requires
        listed(ids, counter),
        0 <= at < ids.len(),
    ensures
        listed(ids.remove(at), counter),
{
    let after = ids.remove(at);
    assert forall|i: int| 0 <= i < after.len() implies spent(#[trigger] after[i], counter) by {
        assert(after[i] == ids[if i < at { i } else { i + 1 }]);
    }
    assert forall|i: int, j: int| 0 <= i < j < after.len() implies #[trigger] after[i]
        != #[trigger] after[j] by {
        assert(after[i] == ids[if i < at { i } else { i + 1 }]);
        assert(after[j] == ids[if j < at { j } else { j + 1 }]);
    }
}

/// Part of a list of things is told apart as the whole is.
proof fn lemma_listed_filter<T>(
    s: Seq<T>,
    pred: spec_fn(T) -> bool,
    id: spec_fn(T) -> Seq<char>,
    counter: nat,
)
    requires
        listed(s.map_values(id), counter),
    ensures
        listed(s.filter(pred).map_values(id), counter),
        forall|i: int|
            0 <= i < s.filter(pred).len() ==> s.map_values(id).contains(
                id(#[trigger] s.filter(pred)[i]),
            ),
    decreases s.len(),
{
    reveal(Seq::filter);
    if s.len() > 0 {
        let d = s.drop_last();
        let ids = s.map_values(id);
        assert(d.map_values(id) =~= ids.drop_last());
        assert forall|i: int| 0 <= i < d.map_values(id).len() implies spent(
            #[trigger] d.map_values(id)[i],
            counter,
        ) by {
            assert(d.map_values(id)[i] == ids[i]);
        }
        assert forall|i: int, j: int| 0 <= i < j < d.map_values(id).len() implies #[trigger] d.map_values(
            id,
        )[i] != #[trigger] d.map_values(id)[j] by {
            assert(d.map_values(id)[i] == ids[i]);
            assert(d.map_values(id)[j] == ids[j]);
        }
        lemma_listed_filter(d, pred, id, counter);
        let kept = d.filter(pred);
        let all = s.filter(pred);
        assert forall|i: int| 0 <= i < kept.len() implies exists|k: int|
            0 <= k < ids.len() - 1 && #[trigger] ids[k] == id(#[trigger] kept[i]) by {
            let k = choose|k: int|
                0 <= k < d.map_values(id).len() && #[trigger] d.map_values(id)[k] == id(kept[i]);
            assert(ids[k] == id(kept[i]));
        }
        assert(ids[ids.len() - 1] == id(s.last()));
        assert forall|i: int| 0 <= i < all.len() implies ids.contains(id(#[trigger] all[i])) by {
            if i < kept.len() {
                assert(all[i] == kept[i]);
            }
        }
        if pred(s.last()) {
            assert(all.map_values(id) =~= kept.map_values(id).push(id(s.last())));
            let after = all.map_values(id);
            assert forall|i: int| 0 <= i < after.len() implies spent(
                #[trigger] after[i],
                counter,
            ) by {
                if i < kept.len() {
                    assert(after[i] == kept.map_values(id)[i]);
                } else {
                    assert(after[i] == ids[ids.len() - 1]);
                }
            }
            assert forall|i: int, j: int| 0 <= i < j < after.len() implies #[trigger] after[i]
                != #[trigger] after[j] by {
                assert(after[i] == kept.map_values(id)[i]);
                if j < kept.len() {
                    assert(after[j] == kept.map_values(id)[j]);
                } else {
                    assert(after[j] == ids[ids.len() - 1]);
                    assert(kept[i] == kept[i]);
                }
            }
        }
    }
}

/// Whether a step mints no more than `most` ids and leaves everything told apart.
spec fn numbers(step: Step, counter: nat, most: nat) -> bool {
    &&& counter <= step.counter <= counter + most
    &&& numbered(step.project, step.counter)
}

/// The timeline being edited can be written over with one that keeps its id.
proof fn lemma_active_numbered(
    project: ProjectView,
    counter: nat,
    timeline: TimelineView,
    later: nat,
)
    requires
        project.editable(),
        numbered(project, counter),
        counter <= later,
    ensures
        0 <= project.active_index() < project.timelines.len(),
        told_apart(project.active(), counter),
        timeline.id == project.active().id && told_apart(timeline, later) ==> numbered(
            project.with_active(timeline),
            later,
        ),
{
    lemma_first_is(project.timelines, |t: TimelineView| t.id == project.active_timeline_id);
    let at = project.active_index();
    assert(told_apart(project.timelines[at], counter));
    if timeline.id == project.active().id && told_apart(timeline, later) {
        lemma_numbered_on(project, counter, later);
        let after = project.with_active(timeline);
        assert(tab_ids(after.timelines) =~= tab_ids(project.timelines));
        assert forall|i: int| 0 <= i < after.timelines.len() implies told_apart(
            #[trigger] after.timelines[i],
            later,
        ) by {
            if i != at {
                assert(after.timelines[i] == project.timelines[i]);
            }
        }
    }
}

/// Clips written over one for one keep their ids.
proof fn lemma_reclipped(
    project: ProjectView,
    counter: nat,
    clips: Seq<ClipView>,
)
    requires
        project.editable(),
        numbered(project, counter),
        clip_ids(clips) == clip_ids(project.active().clips),
    ensures
        numbered(project.with_active(project.active().with_clips(clips)), counter),
{
    lemma_active_numbered(project, counter, project.active().with_clips(clips), counter);
}

proof fn lemma_media_numbers(project: ProjectView, counter: nat, command: Command)
    requires
        project.editable(),
        numbered(project, counter),
        counter < u64::MAX,
    ensures
        numbers(media_step(project, counter, command), counter, 1),
{
    reveal(media_step);
    let after = media_step(project, counter, command).project;
    match command {
        Command::AddMedia { item } => {
            lemma_numbered_on(project, counter, counter + 1);
            lemma_listed_push(media_ids(project.media), "m"@, counter);
            assert(after.media.len() > project.media.len() ==> media_ids(after.media) =~= media_ids(
                project.media,
            ).push(minted("m"@, counter)));
        },
        Command::RemoveMedia { media_id } => {
            let id = |m: MediaView| m.id;
            lemma_listed_filter(
                project.media,
                |m: MediaView| m.id != media_id@,
                id,
                counter,
            );
            assert(tab_ids(after.timelines) =~= tab_ids(project.timelines));
            assert forall|i: int| 0 <= i < after.timelines.len() implies told_apart(
                #[trigger] after.timelines[i],
                counter,
            ) by {
                assert(told_apart(project.timelines[i], counter));
                let own = |c: ClipView| c.id;
                lemma_listed_filter(
                    project.timelines[i].clips,
                    |c: ClipView| c.media_id != media_id@,
                    own,
                    counter,
                );
            }
        },
        Command::FillSlot { media_id, item } => {
            lemma_first_is(project.media, |m: MediaView| m.id == media_id@);
            assert(media_ids(after.media) =~= media_ids(project.media));
            assert(tab_ids(after.timelines) =~= tab_ids(project.timelines));
            assert forall|i: int| 0 <= i < after.timelines.len() implies told_apart(
                #[trigger] after.timelines[i],
                counter,
            ) by {
                assert(told_apart(project.timelines[i], counter));
                assert(clip_ids(after.timelines[i].clips) =~= clip_ids(project.timelines[i].clips));
            }
        },
        Command::SetMediaPlaceholder { media_id, .. } => {
            lemma_first_is(project.media, |m: MediaView| m.id == media_id@);
            assert(media_ids(after.media) =~= media_ids(project.media));
        },
        Command::UpdateMediaPath { media_id, .. } => {
            lemma_first_is(project.media, |m: MediaView| m.id == media_id@);
            assert(media_ids(after.media) =~= media_ids(project.media));
        },
        Command::SetMediaColorRange { media_id, .. } => {
            lemma_first_is(project.media, |m: MediaView| m.id == media_id@);
            assert(media_ids(after.media) =~= media_ids(project.media));
        },
        _ => {},
    }
}

/// A new clip at the end of the timeline being edited.
proof fn lemma_clip_pushed(
    project: ProjectView,
    counter: nat,
    clips: Seq<ClipView>,
    clip: ClipView,
)
    requires
        project.editable(),
        numbered(project, counter),
        counter < u64::MAX,
        clip_ids(clips) == clip_ids(project.active().clips),
        clip.id == minted("c"@, counter),
    ensures
        numbered(
            project.with_active(project.active().with_clips(clips.push(clip))),
            counter + 1,
        ),
{
    let after = project.active().with_clips(clips.push(clip));
    lemma_active_numbered(project, counter, after, counter + 1);
    lemma_listed_on(track_ids(after.tracks), counter, counter + 1);
    lemma_listed_push(clip_ids(clips), "c"@, counter);
    assert(clip_ids(clips.push(clip)) =~= clip_ids(clips).push(clip.id));
    lemma_active_numbered(project, counter, after, counter + 1);
}

/// A new clip on a new lane.
proof fn lemma_lane_and_clip_pushed(project: ProjectView, counter: nat, clip: ClipView)
    requires
        project.editable(),
        numbered(project, counter),
        counter + 1 < u64::MAX,
        clip.id == minted("c"@, counter + 1),
    ensures
        ({
            let timeline = project.active();
            numbered(
                project.with_active(
                    TimelineView {
                        tracks: timeline.tracks.push(TrackView::fresh(minted("t"@, counter))),
                        clips: timeline.clips.push(clip),
                        ..timeline
                    },
                ),
                counter + 2,
            )
        }),
{
    let timeline = project.active();
    let lane = TrackView::fresh(minted("t"@, counter));
    let after = TimelineView {
        tracks: timeline.tracks.push(lane),
        clips: timeline.clips.push(clip),
        ..timeline
    };
    lemma_active_numbered(project, counter, after, counter + 2);
    lemma_listed_push(track_ids(timeline.tracks), "t"@, counter);
    assert(track_ids(after.tracks) =~= track_ids(timeline.tracks).push(lane.id));
    lemma_listed_on(track_ids(after.tracks), counter + 1, counter + 2);
    lemma_listed_on(clip_ids(timeline.clips), counter, counter + 1);
    lemma_listed_push(clip_ids(timeline.clips), "c"@, counter + 1);
    assert(clip_ids(after.clips) =~= clip_ids(timeline.clips).push(clip.id));
    lemma_active_numbered(project, counter, after, counter + 2);
}

proof fn lemma_moved_ids(clips: Seq<ClipView>, tracks: Seq<TrackView>, moves: Seq<ClipMove>)
    ensures
        clip_ids(moved(clips, tracks, moves).0) == clip_ids(clips),
    decreases moves.len(),
{
    if moves.len() > 0 {
        lemma_moved_ids(clips, tracks, moves.drop_last());
        let sofar = moved(clips, tracks, moves.drop_last()).0;
        let wanted = moves.last();
        lemma_first_is(sofar, |c: ClipView| c.id == wanted.clip_id@);
        assert(clip_ids(moved(clips, tracks, moves).0) =~= clip_ids(sofar));
    }
}

/// A file put on the shelf is told apart from the rest of the bin.
proof fn lemma_shelved(project: ProjectView, counter: nat, entry: MediaView)
    requires
        project.editable(),
        numbered(project, counter),
        counter < u64::MAX,
        entry.id == minted("m"@, counter),
    ensures
        counter <= shelved(project, counter, entry).1 <= counter + 1,
        numbered(shelved(project, counter, entry).0, shelved(project, counter, entry).1),
        shelved(project, counter, entry).0.editable(),
        shelved(project, counter, entry).0.timelines == project.timelines,
        shelved(project, counter, entry).0.active() == project.active(),
{
    lemma_numbered_on(project, counter, counter + 1);
    lemma_listed_push(media_ids(project.media), "m"@, counter);
    assert(media_ids(project.media.push(entry)) =~= media_ids(project.media).push(entry.id));
    let shelf = shelved(project, counter, entry).0;
    assert(shelf.active_timeline_id == project.active_timeline_id);
}

proof fn lemma_placing_numbers(project: ProjectView, counter: nat, command: Command)
    requires
        project.editable(),
        numbered(project, counter),
        counter + 1 < u64::MAX,
    ensures
        numbers(placing_step(project, counter, command), counter, 2),
{
    reveal(placing_step);
    let timeline = project.active();
    let step = placing_step(project, counter, command);
    match command {
        Command::AddClip { media_id, track_id, start, ripple } => {
            if step.answer is Ok {
                let start = asked_start(start);
                let media = project.media[project.media_index(media_id@).unwrap()];
                let clips = if ripple {
                    with_room(timeline.clips, track_id@, start, length_of(media))
                } else {
                    timeline.clips
                };
                let at = if ripple {
                    landing(timeline.clips, track_id@, start)
                } else {
                    start
                };
                assert(clip_ids(clips) =~= clip_ids(timeline.clips));
                lemma_clip_pushed(
                    project,
                    counter,
                    clips,
                    clip_of(minted("c"@, counter), track_id@, media, at),
                );
            }
        },
        Command::AddClipAtFirstFree { media_id, start } => {
            if step.answer is Ok {
                let start = asked_start(start);
                let media = project.media[project.media_index(media_id@).unwrap()];
                let lane = free_track(timeline, start, length_of(media)).unwrap();
                lemma_clip_pushed(
                    project,
                    counter,
                    timeline.clips,
                    clip_of(minted("c"@, counter), lane, media, start),
                );
            }
        },
        Command::AddTextClip { track_id, above, start, style, duration, offset_y } => {
            let look = match style_of(style) {
                Some(sent) => sent,
                None => StyleView::plain(),
            };
            let start = asked_start(start);
            let length = asked_length(duration, num(DEFAULT_TEXT_DURATION));
            let lane = match text_of(track_id) {
                Some(lane) => lane,
                None => if above {
                    free_track_above(timeline, start, length).unwrap()
                } else {
                    free_track(timeline, start, length).unwrap()
                },
            };
            lemma_clip_pushed(
                project,
                counter,
                timeline.clips,
                title_of(minted("c"@, counter), lane, look, start, length, offset_y),
            );
            lemma_lane_and_clip_pushed(
                project,
                counter,
                title_of(
                    minted("c"@, counter + 1),
                    minted("t"@, counter),
                    look,
                    start,
                    length,
                    offset_y,
                ),
            );
        },
        Command::AddLayerClip { track_id, start, duration, effect_id, name } => {
            let start = asked_start(start);
            let length = asked_length(duration, num(DEFAULT_LAYER_DURATION));
            let lane = match text_of(track_id) {
                Some(lane) => lane,
                None => free_track(timeline, start, length).unwrap(),
            };
            lemma_clip_pushed(
                project,
                counter,
                timeline.clips,
                layer_of(minted("c"@, counter), lane, name@, effect_id@, start, length),
            );
        },
        Command::MoveClips { moves } => {
            lemma_moved_ids(timeline.clips, timeline.tracks, moves@);
            lemma_reclipped(
                project,
                counter,
                moved(timeline.clips, timeline.tracks, moves@).0,
            );
        },
        Command::ReplaceClipMedia { clip_id, item, source_start } => {
            lemma_first_is(timeline.clips, |c: ClipView| c.id == clip_id@);
            if timeline.clip_index(clip_id@) is Some {
                let i = timeline.clip_index(clip_id@).unwrap();
                let entry = item@.entry(minted("m"@, counter));
                lemma_shelved(project, counter, entry);
                let (shelf, count, media_id) = shelved(project, counter, entry);
                let clips = timeline.clips.update(
                    i,
                    repointed(timeline.clips[i], media_id, source_start),
                );
                assert(clip_ids(clips) =~= clip_ids(timeline.clips));
                lemma_reclipped(shelf, count, clips);
            }
        },
        _ => {},
    }
}

proof fn lemma_look_numbers(project: ProjectView, counter: nat, command: Command)
    requires
        project.editable(),
        numbered(project, counter),
    ensures
        numbers(look_step(project, counter, command), counter, 0),
{
    reveal(look_step);
    let timeline = project.active();
    let step = look_step(project, counter, command);
    lemma_active_numbered(project, counter, timeline, counter);
    let after = step.project.active();
    let at = project.active_index();
    let clips = step.project.timelines[at].clips;
    if step.project != project {
        assert(clip_ids(clips) =~= clip_ids(timeline.clips));
        lemma_reclipped(project, counter, clips);
    }
}

proof fn lemma_keys_numbers(project: ProjectView, counter: nat, command: Command)
    requires
        project.editable(),
        numbered(project, counter),
    ensures
        numbers(keys_step(project, counter, command), counter, 0),
{
    reveal(keys_step);
    let timeline = project.active();
    let step = keys_step(project, counter, command);
    lemma_active_numbered(project, counter, timeline, counter);
    let at = project.active_index();
    let clips = step.project.timelines[at].clips;
    if step.project != project {
        assert(clip_ids(clips) =~= clip_ids(timeline.clips));
        lemma_reclipped(project, counter, clips);
    }
}

proof fn lemma_windowed_id(clip: ClipView, old: Number, from: Number, to: Number, ride: Ride)
    ensures
        clip.windowed(old, from, to, ride).id == clip.id,
{
    reveal(ClipView::windowed);
}

proof fn lemma_rekeyed_id(
    clip: ClipView,
    keys: Seq<ClipKey>,
    offset: Number,
    length: Number,
    duration: Number,
)
    ensures
        clip.with_keys_of(keys, offset, length, duration).id == clip.id,
    decreases keys.len(),
{
    if keys.len() > 0 {
        lemma_rekeyed_id(clip, keys.drop_last(), offset, length, duration);
    }
}

proof fn lemma_absorbed_id(clip: ClipView, rest: Seq<ClipView>, origin: Number)
    ensures
        absorbed_all(clip, rest, origin).id == clip.id,
    decreases rest.len(),
{
    if rest.len() > 0 {
        lemma_absorbed_id(clip, rest.drop_last(), origin);
        let piece = rest.last();
        let sofar = absorbed_all(clip, rest.drop_last(), origin);
        let offset = difference(piece.start, origin);
        reveal(ClipView::absorbed);
        lemma_rekeyed_id(sofar, piece.keys, offset, piece.duration, sofar.duration);
    }
}

/// A cut keeps the head's id where it was and puts a fresh one behind it.
proof fn lemma_cut_listed(
    clips: Seq<ClipView>,
    at: int,
    head: ClipView,
    tail: ClipView,
    counter: nat,
)
    requires
        listed(clip_ids(clips), counter),
        counter < u64::MAX,
        0 <= at < clips.len(),
        head.id == clips[at].id,
        tail.id == minted("c"@, counter),
    ensures
        listed(clip_ids(cut_at(clips, at, head, tail)), counter + 1),
{
    lemma_listed_insert(clip_ids(clips), at + 1, "c"@, counter);
    assert(clip_ids(cut_at(clips, at, head, tail)) =~= clip_ids(clips).insert(at + 1, tail.id));
}

proof fn lemma_split_listed(
    clips: Seq<ClipView>,
    counter: nat,
    ids: Seq<Seq<char>>,
    time: Number,
    ride: Ride,
)
    requires
        listed(clip_ids(clips), counter),
        counter + ids.len() <= u64::MAX,
    ensures
        ({
            let (after, count, created) = split_all(clips, counter, ids, time, ride);
            counter <= count <= counter + ids.len() && listed(clip_ids(after), count)
        }),
    decreases ids.len(),
{
    if ids.len() > 0 {
        lemma_split_listed(clips, counter, ids.drop_last(), time, ride);
        let (sofar, count, last) = split_all(clips, counter, ids.drop_last(), time, ride);
        lemma_first_is(sofar, |c: ClipView| c.id == ids.last());
        match first(sofar, |c: ClipView| c.id == ids.last()) {
            None => {},
            Some(i) => {
                let offset = difference(time, sofar[i].start);
                let clip = uncurved(sofar[i], offset);
                assert(clip_ids(sofar.update(i, clip)) =~= clip_ids(sofar));
                if !misses(clip, offset) {
                    let head = head_of(clip, offset, ride);
                    let tail = tail_of(
                        clip,
                        offset,
                        minted("c"@, count),
                        sum(clip.start, offset),
                        ride,
                    );
                    lemma_piece_ids(clip, offset, minted("c"@, count), sum(clip.start, offset), ride);
                    lemma_cut_listed(sofar, i, head, tail, count);
                }
            },
        }
    }
}

proof fn lemma_piece_ids(
    clip: ClipView,
    offset: Number,
    id: Seq<char>,
    start: Number,
    ride: Ride,
)
    ensures
        head_of(clip, offset, ride).id == clip.id,
        tail_of(clip, offset, id, start, ride).id == id,
{
    reveal(ClipView::windowed);
}

proof fn lemma_froze_listed(
    clips: Seq<ClipView>,
    at: int,
    time: Number,
    hold: Number,
    media_id: Seq<char>,
    counter: nat,
    ride: Ride,
)
    requires
        listed(clip_ids(clips), counter),
        counter + 1 < u64::MAX,
        0 <= at < clips.len(),
    ensures
        listed(clip_ids(froze(clips, at, time, hold, media_id, counter, ride)), counter + 2),
{
    let clip = clips[at];
    let flat = ClipView { speed_curve: None, ..clip };
    let offset = difference(time, clip.start);
    let head = head_of(flat, offset, ride);
    let tail = tail_of(flat, offset, minted("c"@, counter), time, ride);
    lemma_piece_ids(flat, offset, minted("c"@, counter), time, ride);
    lemma_cut_listed(clips, at, head, tail, counter);
    let pieces = cut_at(clips, at, head, tail);
    let moved = pushed(pieces, clip.track_id, time, hold);
    assert(clip_ids(moved) =~= clip_ids(pieces));
    let still = frozen(clip, minted("c"@, counter + 1), media_id, time, hold);
    lemma_listed_push(clip_ids(moved), "c"@, counter + 1);
    assert(clip_ids(moved.push(still)) =~= clip_ids(moved).push(still.id));
}

/// Clips of a part of those there, one for one.
proof fn lemma_reclipped_part(
    project: ProjectView,
    counter: nat,
    pred: spec_fn(ClipView) -> bool,
    clips: Seq<ClipView>,
)
    requires
        project.editable(),
        numbered(project, counter),
        clip_ids(clips) == clip_ids(project.active().clips.filter(pred)),
    ensures
        numbered(project.with_active(project.active().with_clips(clips)), counter),
{
    let timeline = project.active();
    let after = timeline.with_clips(clips);
    let id = |c: ClipView| c.id;
    lemma_active_numbered(project, counter, after, counter);
    lemma_listed_filter(timeline.clips, pred, id, counter);
    lemma_active_numbered(project, counter, after, counter);
}

proof fn lemma_trimming_numbers(
    project: ProjectView,
    counter: nat,
    clip_id: Seq<char>,
    edge: TrimEdge,
    delta: Number,
    ripple: bool,
    ride: Ride,
)
    requires
        project.editable(),
        numbered(project, counter),
    ensures
        numbers(trimming(project, counter, clip_id, edge, delta, ripple, ride), counter, 0),
{
    let timeline = project.active();
    lemma_first_is(timeline.clips, |c: ClipView| c.id == clip_id);
    if timeline.clip_index(clip_id) is Some {
        let i = timeline.clip_index(clip_id).unwrap();
        let clip = timeline.clips[i];
        lemma_trimmed_ids(clip, delta, ripple, ride);
        lemma_active_numbered(project, counter, timeline, counter);
        let step = trimming(project, counter, clip_id, edge, delta, ripple, ride);
        let clips = step.project.timelines[project.active_index()].clips;
        assert(clip_ids(clips) =~= clip_ids(timeline.clips));
        lemma_reclipped(project, counter, clips);
    }
}

proof fn lemma_trimmed_ids(clip: ClipView, delta: Number, ripple: bool, ride: Ride)
    ensures
        trimmed_tail(clip, delta, ride).id == clip.id,
        trimmed_head(clip, delta, ripple, ride).id == clip.id,
{
    reveal(ClipView::windowed);
}

proof fn lemma_splitting_numbers(
    project: ProjectView,
    counter: nat,
    ids: Seq<Seq<char>>,
    time: Number,
    ride: Ride,
)
    requires
        project.editable(),
        numbered(project, counter),
        counter + ids.len() <= u64::MAX,
    ensures
        numbers(splitting(project, counter, ids, time, ride), counter, ids.len()),
{
    let timeline = project.active();
    lemma_active_numbered(project, counter, timeline, counter);
    lemma_split_listed(timeline.clips, counter, ids, time, ride);
    let (clips, count, created) = split_all(timeline.clips, counter, ids, time, ride);
    lemma_listed_on(track_ids(timeline.tracks), counter, count);
    lemma_active_numbered(project, counter, timeline.with_clips(clips), count);
}

proof fn lemma_freezing_numbers(
    project: ProjectView,
    counter: nat,
    clip_id: Seq<char>,
    time: Number,
    duration: Option<Number>,
    still: Option<NewMediaView>,
    ride: Ride,
)
    requires
        project.editable(),
        numbered(project, counter),
        counter + 3 <= u64::MAX,
    ensures
        numbers(freezing(project, counter, clip_id, time, duration, still, ride), counter, 3),
{
    let timeline = project.active();
    lemma_active_numbered(project, counter, timeline, counter);
    lemma_first_is(timeline.clips, |c: ClipView| c.id == clip_id);
    if timeline.clip_index(clip_id) is Some {
        let i = timeline.clip_index(clip_id).unwrap();
        let clip = timeline.clips[i];
        let hold = hold_of(duration);
        let (shelf, count, media_id) = match still {
            Some(item) => shelved(project, counter, item.still(minted("m"@, counter))),
            None => (project, counter, clip.media_id),
        };
        if still is Some {
            lemma_shelved(project, counter, still.unwrap().still(minted("m"@, counter)));
        }
        let clips = froze(timeline.clips, i, time, hold, media_id, count, ride);
        lemma_listed_on(clip_ids(timeline.clips), counter, count);
        lemma_froze_listed(timeline.clips, i, time, hold, media_id, count, ride);
        lemma_listed_on(track_ids(timeline.tracks), counter, count + 2);
        lemma_active_numbered(shelf, count, timeline.with_clips(clips), count + 2);
    }
}

proof fn lemma_merging_numbers(
    project: ProjectView,
    counter: nat,
    ids: Seq<Seq<char>>,
    ride: Ride,
)
    requires
        project.editable(),
        numbered(project, counter),
    ensures
        numbers(merging(project, counter, ids, ride), counter, 0),
{
    let timeline = project.active();
    if merge_reason(timeline.clips, ids) is None {
        let ordered = in_time(pieces(timeline.clips, ids));
        let pred = |c: ClipView| !names(ordered.skip(1), c.id);
        let kept = timeline.clips.filter(pred);
        lemma_first_is(kept, |c: ClipView| c.id == ordered[0].id);
        match first(kept, |c: ClipView| c.id == ordered[0].id) {
            Some(i) => {
                let one = merged(ordered, ride);
                lemma_merged_id(ordered, ride);
                assert(clip_ids(kept.update(i, one)) =~= clip_ids(kept));
                lemma_reclipped_part(project, counter, pred, kept.update(i, one));
            },
            None => {},
        }
    }
}

proof fn lemma_removing_numbers(
    project: ProjectView,
    counter: nat,
    ids: Seq<Seq<char>>,
    ripple: bool,
)
    requires
        project.editable(),
        numbered(project, counter),
    ensures
        numbers(removing(project, counter, ids, ripple), counter, 0),
{
    let timeline = project.active();
    let pred = |c: ClipView| !ids.contains(c.id);
    lemma_active_numbered(project, counter, timeline, counter);
    let step = removing(project, counter, ids, ripple);
    let clips = step.project.timelines[project.active_index()].clips;
    assert(clip_ids(clips) =~= clip_ids(timeline.clips.filter(pred)));
    lemma_reclipped_part(project, counter, pred, clips);
}

proof fn lemma_cutting_numbers(
    project: ProjectView,
    counter: nat,
    command: Command,
    ride: Ride,
    most: nat,
)
    requires
        project.editable(),
        numbered(project, counter),
        command matches Command::SplitClips { clip_ids, .. } ==> clip_ids.len() <= most,
        command is FreezeFrame ==> 3 <= most,
        counter + most <= u64::MAX,
    ensures
        numbers(cutting_step(project, counter, command, ride), counter, most),
{
    reveal(cutting_step);
    match command {
        Command::TrimClip { clip_id, edge, delta, ripple } => {
            lemma_trimming_numbers(project, counter, clip_id@, edge, delta, ripple, ride);
        },
        Command::SplitClips { clip_ids: picked, time } => {
            lemma_splitting_numbers(project, counter, ids_of(picked@), time, ride);
        },
        Command::FreezeFrame { clip_id, time, duration, still } => {
            lemma_freezing_numbers(
                project,
                counter,
                clip_id@,
                time,
                duration,
                still_of(still),
                ride,
            );
        },
        Command::MergeClips { clip_ids: picked } => {
            lemma_merging_numbers(project, counter, ids_of(picked@), ride);
        },
        Command::RemoveClips { clip_ids: picked, ripple } => {
            lemma_removing_numbers(project, counter, ids_of(picked@), ripple);
        },
        _ => {},
    }
}

proof fn lemma_merged_id(ordered: Seq<ClipView>, ride: Ride)
    ensures
        merged(ordered, ride).id == ordered[0].id,
{
    let head = ordered[0];
    let length = difference(end(ordered.last()), head.start);
    let stretched = ClipView { duration: length, ..head };
    lemma_windowed_id(stretched, head.duration, num(ZERO), length, ride);
    lemma_absorbed_id(
        stretched.windowed(head.duration, num(ZERO), length, ride),
        ordered.skip(1),
        head.start,
    );
}

proof fn lemma_sounds_told_apart(
    timeline: TimelineView,
    counter: nat,
    clip: ClipView,
    wanted: Seq<(Option<u32>, Seq<char>)>,
)
    requires
        told_apart(timeline, counter),
        counter + 2 * wanted.len() <= u64::MAX,
    ensures
        ({
            let (after, count) = placed_sounds(timeline, counter, clip, wanted);
            &&& counter <= count <= counter + 2 * wanted.len()
            &&& told_apart(after, count)
            &&& after.id == timeline.id
            &&& after.clips.len() >= timeline.clips.len()
            &&& after.clips.take(timeline.clips.len() as int) == timeline.clips
        }),
    decreases wanted.len(),
{
    if wanted.len() == 0 {
        assert(timeline.clips.take(timeline.clips.len() as int) =~= timeline.clips);
    } else {
            lemma_sounds_told_apart(timeline, counter, clip, wanted.drop_last());
        let (sofar, count) = placed_sounds(timeline, counter, clip, wanted.drop_last());
        let (stream, name) = wanted.last();
        let (after, then) = placed_sounds(timeline, counter, clip, wanted);
        assert(after.clips.take(timeline.clips.len() as int) =~= sofar.clips.take(
            timeline.clips.len() as int,
        ));
        match empty_track(sofar.tracks, sofar.clips, clip.start, end(clip)) {
            Some(i) => {
                lemma_listed_push(clip_ids(sofar.clips), "c"@, count);
                assert(clip_ids(after.clips) =~= clip_ids(sofar.clips).push(minted("c"@, count)));
                lemma_listed_on(track_ids(sofar.tracks), count, count + 1);
            },
            None => {
                lemma_listed_push(track_ids(sofar.tracks), "t"@, count);
                assert(track_ids(after.tracks) =~= track_ids(sofar.tracks).push(
                    minted("t"@, count),
                ));
                lemma_listed_on(track_ids(after.tracks), count + 1, count + 2);
                lemma_listed_on(clip_ids(sofar.clips), count, count + 1);
                lemma_listed_push(clip_ids(sofar.clips), "c"@, count + 1);
                assert(clip_ids(after.clips) =~= clip_ids(sofar.clips).push(
                    minted("c"@, count + 1),
                ));
            },
        }
    }
}

/// The sounds that come off a clip.
pub open spec fn sounds_off(project: ProjectView, clip_id: Seq<char>) -> nat {
    let timeline = project.active();
    match timeline.clip_index(clip_id) {
        Some(i) => match project.media_index(timeline.clips[i].media_id) {
            Some(m) => sounds(timeline.clips[i], project.media[m].audio_tracks).len(),
            None => 0,
        },
        None => 0,
    }
}

proof fn lemma_detaching_numbers(project: ProjectView, counter: nat, clip_id: Seq<char>)
    requires
        project.editable(),
        numbered(project, counter),
        counter + 2 * sounds_off(project, clip_id) <= u64::MAX,
    ensures
        numbers(
            detaching(project, counter, clip_id),
            counter,
            2 * sounds_off(project, clip_id),
        ),
{
    let timeline = project.active();
    lemma_active_numbered(project, counter, timeline, counter);
    lemma_first_is(timeline.clips, |c: ClipView| c.id == clip_id);
    if timeline.clip_index(clip_id) is Some {
        let i = timeline.clip_index(clip_id).unwrap();
        let clip = timeline.clips[i];
        if project.media_index(clip.media_id) is Some {
            let m = project.media_index(clip.media_id).unwrap();
            let wanted = sounds(clip, project.media[m].audio_tracks);
            lemma_sounds_told_apart(timeline, counter, clip, wanted);
            let (after, count) = placed_sounds(timeline, counter, clip, wanted);
            assert(after.clips[i] == after.clips.take(timeline.clips.len() as int)[i]);
            let left = after.with_clip(i, silent(clip));
            assert(clip_ids(left.clips) =~= clip_ids(after.clips));
            lemma_active_numbered(project, counter, left, count);
        }
    }
}

proof fn lemma_lanes_numbers(project: ProjectView, counter: nat, command: Command, most: nat)
    requires
        project.editable(),
        numbered(project, counter),
        command matches Command::DetachAudio { clip_id } ==> 2 * sounds_off(project, clip_id@)
            <= most,
        command is AddTrack ==> 1 <= most,
        counter + most <= u64::MAX,
    ensures
        numbers(lanes_step(project, counter, command), counter, most),
{
    reveal(lanes_step);
    let timeline = project.active();
    lemma_active_numbered(project, counter, timeline, counter);
    match command {
        Command::DetachAudio { clip_id } => {
            lemma_detaching_numbers(project, counter, clip_id@);
        },
        Command::ReattachAudio { clip_id } => {
            lemma_reattaching_numbers(project, counter, clip_id@);
        },
        Command::AddTrack => {
            let lane = TrackView::fresh(minted("t"@, counter));
            let after = TimelineView { tracks: timeline.tracks.push(lane), ..timeline };
            lemma_listed_push(track_ids(timeline.tracks), "t"@, counter);
            assert(track_ids(after.tracks) =~= track_ids(timeline.tracks).push(lane.id));
            lemma_listed_on(clip_ids(timeline.clips), counter, counter + 1);
            lemma_active_numbered(project, counter, after, counter + 1);
        },
        Command::RemoveTrack { track_id } => {
            lemma_first_is(timeline.tracks, |t: TrackView| t.id == track_id@);
            if timeline.track_index(track_id@) is Some {
                let i = timeline.track_index(track_id@).unwrap();
                let pred = |c: ClipView| c.track_id != track_id@;
                let id = |c: ClipView| c.id;
                let after = TimelineView {
                    tracks: timeline.tracks.remove(i),
                    clips: timeline.clips.filter(pred),
                    ..timeline
                };
                lemma_listed_remove(track_ids(timeline.tracks), i, counter);
                assert(track_ids(after.tracks) =~= track_ids(timeline.tracks).remove(i));
                lemma_listed_filter(timeline.clips, pred, id, counter);
                lemma_active_numbered(project, counter, after, counter);
            }
        },
        Command::SetTrackFlag { track_id, flag, value } => {
            lemma_first_is(timeline.tracks, |t: TrackView| t.id == track_id@);
            if timeline.track_index(track_id@) is Some {
                let i = timeline.track_index(track_id@).unwrap();
                let after = TimelineView {
                    tracks: timeline.tracks.update(i, flagged(timeline.tracks[i], flag, value)),
                    ..timeline
                };
                assert(track_ids(after.tracks) =~= track_ids(timeline.tracks));
                lemma_active_numbered(project, counter, after, counter);
            }
        },
        _ => {},
    }
}

proof fn lemma_reattaching_numbers(project: ProjectView, counter: nat, clip_id: Seq<char>)
    requires
        project.editable(),
        numbered(project, counter),
    ensures
        numbers(reattaching(project, counter, clip_id), counter, 0),
{
    let timeline = project.active();
    lemma_first_is(timeline.clips, |c: ClipView| c.id == clip_id);
    if timeline.clip_index(clip_id) is Some {
        let i = timeline.clip_index(clip_id).unwrap();
        let picture = match timeline.clips[i].detached_from {
            Some(id) => id,
            None => clip_id,
        };
        let pred = |c: ClipView| !is_sound_of(c, picture);
        lemma_first_is(timeline.clips, |c: ClipView| c.id == picture);
        lemma_first_is(timeline.clips, |c: ClipView| is_sound_of(c, picture));
        match (
            timeline.clip_index(picture),
            first(timeline.clips, |c: ClipView| is_sound_of(c, picture)),
        ) {
            (Some(p), Some(s)) => {
                let clips = timeline.clips.update(
                    p,
                    voiced(timeline.clips[p], timeline.clips[s].filters),
                );
                let id = |c: ClipView| c.id;
                let left = timeline.with_clips(clips.filter(pred));
                lemma_active_numbered(project, counter, left, counter);
                assert(clip_ids(clips) =~= clip_ids(timeline.clips));
                lemma_listed_filter(clips, pred, id, counter);
                lemma_active_numbered(project, counter, left, counter);
            },
            _ => {},
        }
    }
}

proof fn lemma_adding_timeline_numbers(project: ProjectView, counter: nat)
    requires
        project.editable(),
        numbered(project, counter),
        counter + 5 <= u64::MAX,
    ensures
        numbers(adding_timeline(project, counter), counter, 5),
{
    let later = counter + 5;
    let timeline = fresh_timeline(labels(project.timelines), counter);
    let after = adding_timeline(project, counter).project;
    lemma_numbered_on(project, counter, later);
    lemma_listed_push(tab_ids(project.timelines), "tl"@, counter);
    lemma_listed_on(tab_ids(project.timelines).push(timeline.id), counter + 1, later);
    assert(tab_ids(after.timelines) =~= tab_ids(project.timelines).push(timeline.id));
    let none = Seq::<Seq<char>>::empty();
    assert(listed(none, counter + 1));
    let one = none.push(minted("t"@, counter + 1));
    let two = one.push(minted("t"@, counter + 2));
    let three = two.push(minted("t"@, counter + 3));
    let four = three.push(minted("t"@, counter + 4));
    lemma_listed_push(none, "t"@, counter + 1);
    lemma_listed_push(one, "t"@, counter + 2);
    lemma_listed_push(two, "t"@, counter + 3);
    lemma_listed_push(three, "t"@, counter + 4);
    assert(track_ids(timeline.tracks) =~= four);
    assert(clip_ids(timeline.clips) =~= none);
    assert(told_apart(timeline, later));
    assert forall|i: int| 0 <= i < after.timelines.len() implies told_apart(
        #[trigger] after.timelines[i],
        later,
    ) by {
        if i < project.timelines.len() {
            assert(after.timelines[i] == project.timelines[i]);
        }
    }
}

proof fn lemma_reordering_numbers(
    project: ProjectView,
    counter: nat,
    timeline_id: Seq<char>,
    index: nat,
)
    requires
        project.editable(),
        numbered(project, counter),
    ensures
        numbers(reordering(project, counter, timeline_id, index), counter, 0),
{
    lemma_first_is(project.timelines, |t: TimelineView| t.id == timeline_id);
    let after = reordering(project, counter, timeline_id, index).project;
    if timeline_index(project, timeline_id) is Some {
        let i = timeline_index(project, timeline_id).unwrap();
        let rest = project.timelines.remove(i);
        let to = if index < rest.len() {
            index as int
        } else {
            rest.len() as int
        };
        let from = |k: int|
            if k == to {
                i
            } else {
                let j = if k < to {
                    k
                } else {
                    k - 1
                };
                if j < i {
                    j
                } else {
                    j + 1
                }
            };
        assert forall|k: int| 0 <= k < after.timelines.len() implies 0 <= from(k)
            < project.timelines.len() && #[trigger] after.timelines[k]
            == project.timelines[from(k)] by {}
        let ids = tab_ids(after.timelines);
        let held = tab_ids(project.timelines);
        assert forall|k: int| 0 <= k < ids.len() implies spent(#[trigger] ids[k], counter) by {
            assert(after.timelines[k] == project.timelines[from(k)]);
            assert(ids[k] == held[from(k)]);
        }
        assert forall|k: int, l: int| 0 <= k < l < ids.len() implies #[trigger] ids[k]
            != #[trigger] ids[l] by {
            assert(after.timelines[k] == project.timelines[from(k)]);
            assert(after.timelines[l] == project.timelines[from(l)]);
            assert(ids[k] == held[from(k)] && ids[l] == held[from(l)]);
            assert(from(k) != from(l));
        }
        assert forall|k: int| 0 <= k < after.timelines.len() implies told_apart(
            #[trigger] after.timelines[k],
            counter,
        ) by {
            assert(told_apart(project.timelines[from(k)], counter));
        }
    }
}

proof fn lemma_tabs_numbers(project: ProjectView, counter: nat, command: Command, most: nat)
    requires
        project.editable(),
        numbered(project, counter),
        command is AddTimeline ==> 5 <= most,
        counter + most <= u64::MAX,
    ensures
        numbers(tabs_step(project, counter, command), counter, most),
{
    reveal(tabs_step);
    let after = tabs_step(project, counter, command).project;
    match command {
        Command::AddTimeline => {
            lemma_adding_timeline_numbers(project, counter);
        },
        Command::RemoveTimeline { timeline_id } => {
            lemma_first_is(project.timelines, |t: TimelineView| t.id == timeline_id@);
            if timeline_index(project, timeline_id@) is Some && project.timelines.len() > 1 {
                let i = timeline_index(project, timeline_id@).unwrap();
                lemma_listed_remove(tab_ids(project.timelines), i, counter);
                assert(tab_ids(after.timelines) =~= tab_ids(project.timelines).remove(i));
                assert forall|k: int| 0 <= k < after.timelines.len() implies told_apart(
                    #[trigger] after.timelines[k],
                    counter,
                ) by {
                    assert(after.timelines[k] == project.timelines[if k < i { k } else { k + 1 }]);
                }
            }
        },
        Command::SetTimelineVideo { timeline_id, video } => {
            lemma_first_is(project.timelines, |t: TimelineView| t.id == timeline_id@);
            assert(tab_ids(after.timelines) =~= tab_ids(project.timelines));
            lemma_retold(project, after, counter);
        },
        Command::RenameTimeline { timeline_id, name } => {
            lemma_first_is(project.timelines, |t: TimelineView| t.id == timeline_id@);
            assert(tab_ids(after.timelines) =~= tab_ids(project.timelines));
            lemma_retold(project, after, counter);
        },
        Command::MoveTimeline { timeline_id, index } => {
            lemma_reordering_numbers(project, counter, timeline_id@, index as nat);
        },
        _ => {},
    }
}

proof fn lemma_retold(project: ProjectView, after: ProjectView, counter: nat)
    requires
        numbered(project, counter),
        after.media == project.media,
        tab_ids(after.timelines) == tab_ids(project.timelines),
        forall|i: int|
            0 <= i < project.timelines.len() ==> (#[trigger] after.timelines[i]).tracks
                == project.timelines[i].tracks && after.timelines[i].clips
                == project.timelines[i].clips,
    ensures
        numbered(after, counter),
{
    assert(after.timelines.len() == tab_ids(after.timelines).len());
    assert(project.timelines.len() == tab_ids(project.timelines).len());
    assert forall|i: int| 0 <= i < after.timelines.len() implies told_apart(
        #[trigger] after.timelines[i],
        counter,
    ) by {
        assert(told_apart(project.timelines[i], counter));
    }
}

/// The most ids a command can mint.
pub open spec fn asks(project: ProjectView, counter: nat, command: Command, ride: Ride) -> nat
    decreases command, 0nat,
{
    match command {
        Command::Batch { commands } => run_asks(
            project,
            counter,
            commands@,
            commands@.len(),
            ride,
        ),
        Command::SplitClips { clip_ids, .. } => clip_ids.len() as nat,
        Command::DetachAudio { clip_id } => 2 * sounds_off(project, clip_id@),
        Command::AddTimeline => 5,
        _ => 3,
    }
}

/// The most ids the first `n` of these commands can mint, one after another.
pub open spec fn run_asks(
    project: ProjectView,
    counter: nat,
    commands: Seq<Command>,
    n: nat,
    ride: Ride,
) -> nat
    decreases commands, n,
    when n <= commands.len()
{
    if n == 0 {
        0
    } else {
        let sofar = ran(project, counter, commands, (n - 1) as nat, ride);
        run_asks(project, counter, commands, (n - 1) as nat, ride) + asks(
            sofar.project,
            sofar.counter,
            commands[n - 1],
            ride,
        )
    }
}

/// No two things of a kind ever share an id: what is told apart before a command
/// is told apart after it, and the mint is past every id again. The mint starts
/// over when its counter is spent, so this asks for as many numbers left as the
/// command can mint ids.
pub proof fn lemma_ids_stay_apart(
    project: ProjectView,
    counter: nat,
    command: Command,
    ride: Ride,
)
    requires
        project.editable(),
        numbered(project, counter),
        counter + asks(project, counter, command, ride) <= u64::MAX,
    ensures
        counter <= stepped(project, counter, command, ride).counter <= counter + asks(
            project,
            counter,
            command,
            ride,
        ),
        numbered(
            stepped(project, counter, command, ride).project,
            stepped(project, counter, command, ride).counter,
        ),
    decreases command, 0nat,
{
    let most = asks(project, counter, command, ride);
    match command {
        Command::Batch { commands } => {
            if command.all_finite() {
                lemma_run_stays_apart(project, counter, commands@, commands@.len(), ride);
                lemma_numbered_on(
                    project,
                    counter,
                    stepped(project, counter, command, ride).counter,
                );
            }
        },
        _ => {
            if command.all_finite() {
                if is_media(command) {
                    lemma_media_numbers(project, counter, command);
                } else if is_placing(command) {
                    lemma_placing_numbers(project, counter, command);
                } else if is_cutting(command) {
                    lemma_cutting_numbers(project, counter, command, ride, most);
                } else if is_look(command) {
                    lemma_look_numbers(project, counter, command);
                } else if is_keys(command) {
                    lemma_keys_numbers(project, counter, command);
                } else if is_lanes(command) {
                    lemma_lanes_numbers(project, counter, command, most);
                } else {
                    lemma_tabs_numbers(project, counter, command, most);
                }
            }
        },
    }
}

/// The same of commands one after another.
pub proof fn lemma_run_stays_apart(
    project: ProjectView,
    counter: nat,
    commands: Seq<Command>,
    n: nat,
    ride: Ride,
)
    requires
        project.editable(),
        numbered(project, counter),
        n <= commands.len(),
        counter + run_asks(project, counter, commands, n, ride) <= u64::MAX,
    ensures
        counter <= ran(project, counter, commands, n, ride).counter <= counter + run_asks(
            project,
            counter,
            commands,
            n,
            ride,
        ),
        numbered(
            ran(project, counter, commands, n, ride).project,
            ran(project, counter, commands, n, ride).counter,
        ),
    decreases commands, n,
{
    if n > 0 {
        let sofar = ran(project, counter, commands, (n - 1) as nat, ride);
        lemma_run_stays_apart(project, counter, commands, (n - 1) as nat, ride);
        if sofar.answer is Ok {
            lemma_run_stays_editable(project, counter, commands, (n - 1) as nat, ride);
            lemma_ids_stay_apart(sofar.project, sofar.counter, commands[n - 1], ride);
            lemma_numbered_on(
                sofar.project,
                sofar.counter,
                stepped(sofar.project, sofar.counter, commands[n - 1], ride).counter,
            );
        }
    }
}

/// A fresh project has everything told apart, from a mint that has issued nothing.
pub proof fn lemma_a_fresh_project_is_numbered(video: VideoSettings)
    ensures
        numbered(ProjectView::fresh(video), 0),
{
    let project = ProjectView::fresh(video);
    let lanes = track_ids(project.timelines[0].tracks);
    reveal_strlit("T1");
    reveal_strlit("T2");
    reveal_strlit("T3");
    reveal_strlit("T4");
    reveal_strlit("TL1");
    assert(lanes =~= seq!["T1"@, "T2"@, "T3"@, "T4"@]);
    assert forall|i: int| 0 <= i < lanes.len() implies spent(#[trigger] lanes[i], 0) by {
        lemma_capital_is_spent(lanes[i]);
    }
    assert forall|i: int, j: int| 0 <= i < j < lanes.len() implies #[trigger] lanes[i]
        != #[trigger] lanes[j] by {
        assert(lanes[i][1] != lanes[j][1]);
    }
    lemma_capital_is_spent("TL1"@);
}

proof fn lemma_capital_is_spent(id: Seq<char>)
    requires
        id.len() > 0,
        id[0] == 'T',
    ensures
        spent(id, 0),
{
    assert forall|prefix: Seq<char>, n: nat|
        minting(prefix) && 0 <= n < u64::MAX implies id != #[trigger] minted(prefix, n) by {
        reveal_strlit("m");
        reveal_strlit("c");
        reveal_strlit("t");
        reveal_strlit("tl");
        assert(minted(prefix, n)[0] == prefix[0]);
    }
}

/// Where a timeline's own ids start among all those of a list of timelines.
spec fn ids_before(timelines: Seq<TimelineView>, i: int) -> int {
    timelines_ids(timelines.take(i)).len() as int
}

proof fn lemma_ids_of_one(timelines: Seq<TimelineView>, i: int)
    requires
        0 <= i < timelines.len(),
    ensures
        ({
            let at = ids_before(timelines, i);
            let own = timeline_ids(timelines[i]);
            &&& 0 <= at
            &&& at + own.len() <= timelines_ids(timelines).len()
            &&& timelines_ids(timelines).subrange(at, at + own.len()) == own
        }),
    decreases timelines.len(),
{
    let last = timelines.len() - 1;
    let rest = timelines.drop_last();
    let at = ids_before(timelines, i);
    let own = timeline_ids(timelines[i]);
    if i == last {
        assert(timelines.take(i) =~= rest);
    } else {
        lemma_ids_of_one(rest, i);
        assert(rest.take(i) =~= timelines.take(i));
        assert(timelines_ids(timelines).subrange(at, at + own.len()) =~= timelines_ids(
            rest,
        ).subrange(at, at + own.len()));
    }
    assert(timelines_ids(timelines).subrange(at, at + own.len()) =~= own);
}

proof fn lemma_ids_in_order(timelines: Seq<TimelineView>, i: int, j: int)
    requires
        0 <= i < j < timelines.len(),
    ensures
        ids_before(timelines, i) < ids_before(timelines, j),
    decreases j - i,
{
    assert(timelines.take(j).drop_last() =~= timelines.take(j - 1));
    if i < j - 1 {
        lemma_ids_in_order(timelines, i, j - 1);
    }
}

/// A stretch of a project's ids is told apart as the whole is.
proof fn lemma_part_listed(project: ProjectView, part: Seq<Seq<char>>, at: int)
    requires
        project_ids(project).no_duplicates(),
        0 <= at,
        at + part.len() <= project_ids(project).len(),
        part == project_ids(project).subrange(at, at + part.len()),
    ensures
        listed(part, adopted_all(0, project_ids(project))),
{
    let ids = project_ids(project);
    let counter = adopted_all(0, ids);
    assert forall|i: int| 0 <= i < part.len() implies spent(#[trigger] part[i], counter) by {
        assert(part[i] == ids[at + i]);
        lemma_project_covered(0, project, part[i]);
        lemma_covered_is_spent(part[i], counter);
    }
    assert forall|i: int, j: int| 0 <= i < j < part.len() implies #[trigger] part[i]
        != #[trigger] part[j] by {
        assert(part[i] == ids[at + i]);
        assert(part[j] == ids[at + j]);
    }
}

/// A restored project whose own ids are told apart stays so: the mint is past
/// every one of them once it has adopted the project.
pub proof fn lemma_a_restored_project_is_numbered(project: ProjectView)
    requires
        project_ids(project).no_duplicates(),
    ensures
        numbered(project, adopted_all(0, project_ids(project))),
{
    let ids = project_ids(project);
    let counter = adopted_all(0, ids);
    let bin = media_ids(project.media);
    let rest = timelines_ids(project.timelines);
    let n = bin.len() as int;
    assert(bin =~= ids.subrange(0, n));
    lemma_part_listed(project, bin, 0);
    assert(rest =~= ids.subrange(n, ids.len() as int));
    assert forall|i: int| 0 <= i < project.timelines.len() implies told_apart(
        #[trigger] project.timelines[i],
        counter,
    ) by {
        let timeline = project.timelines[i];
        let at = ids_before(project.timelines, i);
        let own = timeline_ids(timeline);
        let lanes = track_ids(timeline.tracks);
        let clips = clip_ids(timeline.clips);
        let k = lanes.len() as int;
        lemma_ids_of_one(project.timelines, i);
        assert(own =~= ids.subrange(n + at, n + at + own.len()));
        assert(lanes =~= own.subrange(1, 1 + k));
        assert(clips =~= own.subrange(1 + k, own.len() as int));
        assert(lanes =~= ids.subrange(n + at + 1, n + at + 1 + k));
        assert(clips =~= ids.subrange(n + at + 1 + k, n + at + 1 + k + clips.len()));
        lemma_part_listed(project, lanes, n + at + 1);
        lemma_part_listed(project, clips, n + at + 1 + k);
    }
    let tabs = tab_ids(project.timelines);
    assert forall|i: int| 0 <= i < tabs.len() implies #[trigger] tabs[i] == ids[n + ids_before(
        project.timelines,
        i,
    )] && n + ids_before(project.timelines, i) < ids.len() by {
        let at = ids_before(project.timelines, i);
        let own = timeline_ids(project.timelines[i]);
        lemma_ids_of_one(project.timelines, i);
        assert(rest.subrange(at, at + own.len())[0] == own[0]);
        assert(rest[at] == own[0]);
    }
    assert forall|i: int| 0 <= i < tabs.len() implies spent(#[trigger] tabs[i], counter) by {
        lemma_ids_of_one(project.timelines, i);
        assert(ids.contains(tabs[i]));
        lemma_project_covered(0, project, tabs[i]);
        lemma_covered_is_spent(tabs[i], counter);
    }
    assert forall|i: int, j: int| 0 <= i < j < tabs.len() implies #[trigger] tabs[i]
        != #[trigger] tabs[j] by {
        lemma_ids_of_one(project.timelines, i);
        lemma_ids_in_order(project.timelines, i, j);
    }
}

} // verus!
