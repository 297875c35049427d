//! A command that says it changed nothing has changed nothing, so what history
//! does not record is never missed.

use crate::commands::apply::{
    cutting_step, is_cutting, is_keys, is_lanes, is_look, is_media, is_placing, keys_step,
    lanes_step, look_step, media_step, placing_step, ran, stepped, tabs_step,
};
use crate::commands::clips::{moved, moved_clip, replacing_media, shelved};
use crate::commands::command::{ClipMove, Command, TrimEdge};
use crate::commands::cuts::{ids_of, misses, split_all, trimming, uncurved};
use crate::commands::mint::minted;
use crate::commands::properties::with_link;
use crate::commands::removal::removing;
use crate::commands::step::Step;
use crate::commands::timelines::timeline_index;
use crate::find::{first, lemma_first_is};
use crate::model::clip::{keys_of, keys_without, ClipView};
use crate::model::keys::{ClipKey, KeyProperty};
use crate::model::media::{FontView, MediaView, NewMediaView};
use crate::model::project::ProjectView;
use crate::model::ride::Ride;
use crate::model::timeline::{TimelineView, TrackView};
use crate::number::{difference, Number};
use vstd::prelude::*;

verus! {

/// Whether a step that says it changed nothing has changed nothing, and made
/// nothing.
pub open spec fn honest(project: ProjectView, step: Step) -> bool {
    step.answer matches Ok(outcome) ==> !outcome.applied ==> step.project == project
        && outcome.created_id is None
}

/// A filter that keeps as many as there were keeps them all.
proof fn lemma_filter_whole<T>(s: Seq<T>, pred: spec_fn(T) -> bool)
    requires
        s.filter(pred).len() == s.len(),
    ensures
        s.filter(pred) == s,
    decreases s.len(),
{
    reveal(Seq::filter);
    if s.len() > 0 {
        let d = s.drop_last();
        lemma_filter_len(d, pred);
        lemma_filter_whole(d, pred);
        assert(d.push(s.last()) =~= s);
    } else {
        assert(s.filter(pred) =~= s);
    }
}

proof fn lemma_filter_len<T>(s: Seq<T>, pred: spec_fn(T) -> bool)
    ensures
        s.filter(pred).len() <= s.len(),
    decreases s.len(),
{
    reveal(Seq::filter);
    if s.len() > 0 {
        lemma_filter_len(s.drop_last(), pred);
    }
}

/// A timeline written over with itself is no change.
proof fn lemma_rewritten(project: ProjectView, clips: Seq<ClipView>)
    requires
        project.editable(),
        clips == project.active().clips,
    ensures
        project.with_active(project.active().with_clips(clips)) == project,
{
    lemma_first_is(project.timelines, |t: TimelineView| t.id == project.active_timeline_id);
    assert(project.active().with_clips(clips) == project.active());
    assert(project.with_active(project.active()).timelines =~= project.timelines);
}

proof fn lemma_media_honest(project: ProjectView, counter: nat, command: Command)
    requires
        project.editable(),
    ensures
        honest(project, media_step(project, counter, command)),
{
    reveal(media_step);
    let step = media_step(project, counter, command);
    let after = step.project;
    match command {
        Command::RemoveFont { family } => {
            if step.answer->Ok_0.applied == false {
                lemma_filter_whole(
                    project.fonts,
                    |f: FontView| f.family != family@,
                );
            }
        },
        Command::SetMediaPlaceholder { media_id, .. } => {
            lemma_first_is(project.media, |m: MediaView| m.id == media_id@);
            if step.answer->Ok_0.applied == false {
                assert(after.media =~= project.media);
            }
        },
        Command::UpdateMediaPath { media_id, .. } => {
            lemma_first_is(project.media, |m: MediaView| m.id == media_id@);
            if step.answer->Ok_0.applied == false {
                assert(after.media =~= project.media);
            }
        },
        Command::SetMediaColorRange { media_id, .. } => {
            lemma_first_is(project.media, |m: MediaView| m.id == media_id@);
            if step.answer->Ok_0.applied == false {
                assert(after.media =~= project.media);
            }
        },
        _ => {},
    }
}

proof fn lemma_moved_honest(clips: Seq<ClipView>, tracks: Seq<TrackView>, moves: Seq<ClipMove>)
    ensures
        !moved(clips, tracks, moves).1 ==> moved(clips, tracks, moves).0 == clips,
    decreases moves.len(),
{
    if moves.len() > 0 {
        lemma_moved_honest(clips, tracks, moves.drop_last());
        let (sofar, changed) = moved(clips, tracks, moves.drop_last());
        let wanted = moves.last();
        lemma_first_is(sofar, |c: ClipView| c.id == wanted.clip_id@);
        if !moved(clips, tracks, moves).1 {
            match first(sofar, |c: ClipView| c.id == wanted.clip_id@) {
                None => {},
                Some(i) => {
                    assert(moved_clip(sofar[i], tracks, wanted) == sofar[i]);
                    assert(sofar.update(i, sofar[i]) =~= sofar);
                },
            }
        }
    }
}

proof fn lemma_replacing_honest(
    project: ProjectView,
    counter: nat,
    clip_id: Seq<char>,
    item: NewMediaView,
    source_start: Option<Number>,
)
    requires
        project.editable(),
    ensures
        honest(project, replacing_media(project, counter, clip_id, item, source_start)),
{
    let timeline = project.active();
    let step = replacing_media(project, counter, clip_id, item, source_start);
    lemma_first_is(timeline.clips, |c: ClipView| c.id == clip_id);
    if timeline.clip_index(clip_id) is Some && !step.answer->Ok_0.applied {
        let i = timeline.clip_index(clip_id).unwrap();
        let clip = timeline.clips[i];
        assert(shelved(project, counter, item.entry(minted("m"@, counter))).0 == project);
        assert(timeline.clips.update(i, clip) =~= timeline.clips);
        lemma_rewritten(project, timeline.clips);
    }
}

proof fn lemma_placing_honest(project: ProjectView, counter: nat, command: Command)
    requires
        project.editable(),
    ensures
        honest(project, placing_step(project, counter, command)),
{
    reveal(placing_step);
    let timeline = project.active();
    match command {
        Command::MoveClips { moves } => {
            lemma_moved_honest(timeline.clips, timeline.tracks, moves@);
            lemma_rewritten(project, timeline.clips);
        },
        Command::ReplaceClipMedia { clip_id, item, source_start } => {
            lemma_replacing_honest(project, counter, clip_id@, item@, source_start);
        },
        _ => {},
    }
}

proof fn lemma_split_honest(
    clips: Seq<ClipView>,
    counter: nat,
    ids: Seq<Seq<char>>,
    time: Number,
    ride: Ride,
)
    ensures
        ({
            let (after, count, created) = split_all(clips, counter, ids, time, ride);
            created is None ==> after == clips
        }),
    decreases ids.len(),
{
    if ids.len() > 0 {
        lemma_split_honest(clips, counter, ids.drop_last(), time, ride);
        let (sofar, count, last) = split_all(clips, counter, ids.drop_last(), time, ride);
        lemma_first_is(sofar, |c: ClipView| c.id == ids.last());
        match first(sofar, |c: ClipView| c.id == ids.last()) {
            None => {},
            Some(i) => {
                let offset = difference(time, sofar[i].start);
                let clip = uncurved(sofar[i], offset);
                if misses(clip, offset) {
                    assert(clip == sofar[i]);
                    assert(sofar.update(i, clip) =~= sofar);
                }
            },
        }
    }
}

proof fn lemma_trimming_honest(
    project: ProjectView,
    counter: nat,
    clip_id: Seq<char>,
    edge: TrimEdge,
    delta: Number,
    ripple: bool,
    ride: Ride,
)
    requires
        project.editable(),
    ensures
        honest(project, trimming(project, counter, clip_id, edge, delta, ripple, ride)),
{
    let timeline = project.active();
    let step = trimming(project, counter, clip_id, edge, delta, ripple, ride);
    lemma_first_is(timeline.clips, |c: ClipView| c.id == clip_id);
    if timeline.clip_index(clip_id) is Some && !step.answer->Ok_0.applied {
        let i = timeline.clip_index(clip_id).unwrap();
        assert(timeline.clips.update(i, timeline.clips[i]) =~= timeline.clips);
        lemma_rewritten(project, timeline.clips);
    }
}

proof fn lemma_cutting_honest(
    project: ProjectView,
    counter: nat,
    command: Command,
    ride: Ride,
)
    requires
        project.editable(),
    ensures
        honest(project, cutting_step(project, counter, command, ride)),
{
    reveal(cutting_step);
    let timeline = project.active();
    match command {
        Command::TrimClip { clip_id, edge, delta, ripple } => {
            lemma_trimming_honest(project, counter, clip_id@, edge, delta, ripple, ride);
        },
        Command::SplitClips { clip_ids, time } => {
            lemma_split_honest(timeline.clips, counter, ids_of(clip_ids@), time, ride);
            lemma_rewritten(project, timeline.clips);
        },
        Command::RemoveClips { clip_ids, ripple } => {
            let ids = ids_of(clip_ids@);
            let stays = |c: ClipView| !ids.contains(c.id);
            let step = removing(project, counter, ids, ripple);
            if !step.answer->Ok_0.applied {
                lemma_filter_whole(timeline.clips, stays);
                lemma_rewritten(project, timeline.clips);
            }
        },
        _ => {},
    }
}

/// One clip written over with itself is no change.
proof fn lemma_reedited(project: ProjectView, index: int)
    requires
        project.editable(),
        0 <= index < project.active().clips.len(),
    ensures
        project.with_active(
            project.active().with_clip(index, project.active().clips[index]),
        ) == project,
{
    let clips = project.active().clips;
    assert(clips.update(index, clips[index]) =~= clips);
    lemma_rewritten(project, clips);
}

proof fn lemma_look_honest(project: ProjectView, counter: nat, command: Command)
    requires
        project.editable(),
    ensures
        honest(project, look_step(project, counter, command)),
{
    reveal(look_step);
    let timeline = project.active();
    match command {
        Command::UpdateClip { clip_id, .. } => {
            lemma_first_is(timeline.clips, |c: ClipView| c.id == clip_id@);
            if timeline.clip_index(clip_id@) is Some {
                lemma_reedited(project, timeline.clip_index(clip_id@).unwrap());
            }
        },
        Command::SetClipSpeed { clip_id, .. } => {
            lemma_first_is(timeline.clips, |c: ClipView| c.id == clip_id@);
            if timeline.clip_index(clip_id@) is Some {
                lemma_reedited(project, timeline.clip_index(clip_id@).unwrap());
            }
        },
        Command::SetClipSpeedCurve { clip_id, .. } => {
            lemma_first_is(timeline.clips, |c: ClipView| c.id == clip_id@);
            if timeline.clip_index(clip_id@) is Some {
                lemma_reedited(project, timeline.clip_index(clip_id@).unwrap());
            }
        },
        Command::SetClipCutout { clip_id, .. } => {
            lemma_first_is(timeline.clips, |c: ClipView| c.id == clip_id@);
            if timeline.clip_index(clip_id@) is Some {
                lemma_reedited(project, timeline.clip_index(clip_id@).unwrap());
            }
        },
        Command::SetClipTransform { clip_id, .. } => {
            lemma_first_is(timeline.clips, |c: ClipView| c.id == clip_id@);
            if timeline.clip_index(clip_id@) is Some {
                lemma_reedited(project, timeline.clip_index(clip_id@).unwrap());
            }
        },
        _ => {},
    }
}

proof fn lemma_unkeyed(keys: Seq<ClipKey>, property: KeyProperty)
    requires
        keys_of(keys, property).len() == 0,
    ensures
        keys_without(keys, property) == keys,
    decreases keys.len(),
{
    reveal(Seq::filter);
    if keys.len() > 0 {
        lemma_unkeyed(keys.drop_last(), property);
        assert(keys.drop_last().push(keys.last()) =~= keys);
    } else {
        assert(keys_without(keys, property) =~= keys);
    }
}

proof fn lemma_keys_honest(project: ProjectView, counter: nat, command: Command)
    requires
        project.editable(),
    ensures
        honest(project, keys_step(project, counter, command)),
{
    reveal(keys_step);
    let timeline = project.active();
    let step = keys_step(project, counter, command);
    match command {
        Command::SetClipKey { clip_id, .. } => {
            lemma_first_is(timeline.clips, |c: ClipView| c.id == clip_id@);
            if timeline.clip_index(clip_id@) is Some {
                lemma_reedited(project, timeline.clip_index(clip_id@).unwrap());
            }
        },
        Command::ClearClipKey { clip_id, .. } => {
            lemma_first_is(timeline.clips, |c: ClipView| c.id == clip_id@);
            if timeline.clip_index(clip_id@) is Some {
                lemma_reedited(project, timeline.clip_index(clip_id@).unwrap());
            }
        },
        Command::ClearClipKeys { clip_id, property } => {
            lemma_first_is(timeline.clips, |c: ClipView| c.id == clip_id@);
            if timeline.clip_index(clip_id@) is Some && !step.answer->Ok_0.applied {
                let i = timeline.clip_index(clip_id@).unwrap();
                lemma_unkeyed(timeline.clips[i].keys, property);
                lemma_reedited(project, i);
            }
        },
        Command::SetEffectKey { clip_id, entry, key, at, value, ease } => {
            lemma_first_is(timeline.clips, |c: ClipView| c.id == clip_id@);
            if timeline.clip_index(clip_id@) is Some {
                let i = timeline.clip_index(clip_id@).unwrap();
                lemma_relinked(project, i, entry as int);
            }
        },
        Command::ClearEffectKey { clip_id, entry, .. } => {
            lemma_first_is(timeline.clips, |c: ClipView| c.id == clip_id@);
            if timeline.clip_index(clip_id@) is Some {
                let i = timeline.clip_index(clip_id@).unwrap();
                lemma_relinked(project, i, entry as int);
            }
        },
        Command::ClearEffectKeys { clip_id, entry, key } => {
            lemma_first_is(timeline.clips, |c: ClipView| c.id == clip_id@);
            if timeline.clip_index(clip_id@) is Some {
                let i = timeline.clip_index(clip_id@).unwrap();
                lemma_relinked(project, i, entry as int);
                let link = timeline.clips[i].video_effects[entry as int];
                if !link.keys.dom().contains(key@) {
                    assert(link.keys.remove(key@) =~= link.keys);
                }
            }
        },
        _ => {},
    }
}

proof fn lemma_relinked(project: ProjectView, index: int, entry: int)
    requires
        project.editable(),
        0 <= index < project.active().clips.len(),
        0 <= entry,
    ensures
        ({
            let clip = project.active().clips[index];
            entry < clip.video_effects.len() ==> project.with_active(
                project.active().with_clip(
                    index,
                    with_link(clip, entry, clip.video_effects[entry]),
                ),
            ) == project
        }),
{
    let clip = project.active().clips[index];
    if entry < clip.video_effects.len() {
        assert(clip.video_effects.update(entry, clip.video_effects[entry]) =~= clip.video_effects);
        lemma_reedited(project, index);
    }
}

proof fn lemma_lanes_honest(project: ProjectView, counter: nat, command: Command)
    requires
        project.editable(),
    ensures
        honest(project, lanes_step(project, counter, command)),
{
    reveal(lanes_step);
    let timeline = project.active();
    let step = lanes_step(project, counter, command);
    match command {
        Command::SetTrackFlag { track_id, .. } => {
            lemma_first_is(timeline.tracks, |t: TrackView| t.id == track_id@);
            if timeline.track_index(track_id@) is Some && !step.answer->Ok_0.applied {
                let i = timeline.track_index(track_id@).unwrap();
                assert(timeline.tracks.update(i, timeline.tracks[i]) =~= timeline.tracks);
                lemma_rewritten(project, timeline.clips);
            }
        },
        _ => {},
    }
}

proof fn lemma_tabs_honest(project: ProjectView, counter: nat, command: Command)
    requires
        project.editable(),
    ensures
        honest(project, tabs_step(project, counter, command)),
{
    reveal(tabs_step);
    let step = tabs_step(project, counter, command);
    let after = step.project;
    match command {
        Command::SetTimelineVideo { timeline_id, .. } => {
            lemma_first_is(project.timelines, |t: TimelineView| t.id == timeline_id@);
            if !step.answer->Ok_0.applied {
                assert(after.timelines =~= project.timelines);
            }
        },
        Command::RenameTimeline { timeline_id, .. } => {
            lemma_first_is(project.timelines, |t: TimelineView| t.id == timeline_id@);
            if !step.answer->Ok_0.applied {
                assert(after.timelines =~= project.timelines);
            }
        },
        Command::MoveTimeline { timeline_id, index } => {
            lemma_first_is(project.timelines, |t: TimelineView| t.id == timeline_id@);
            if timeline_index(project, timeline_id@) is Some && !step.answer->Ok_0.applied {
                assert(after.timelines =~= project.timelines);
            }
        },
        _ => {},
    }
}

/// A command that says it changed nothing has changed nothing, and made nothing.
pub proof fn lemma_no_change_is_none(
    project: ProjectView,
    counter: nat,
    command: Command,
    ride: Ride,
)
    requires
        project.editable(),
    ensures
        honest(project, stepped(project, counter, command, ride)),
    decreases command, 0nat,
{
    if command.all_finite() {
        match command {
            Command::Batch { commands } => {
                lemma_run_honest(project, counter, commands@, commands@.len(), ride);
            },
            _ => {
                if is_media(command) {
                    lemma_media_honest(project, counter, command);
                } else if is_placing(command) {
                    lemma_placing_honest(project, counter, command);
                } else if is_cutting(command) {
                    lemma_cutting_honest(project, counter, command, ride);
                } else if is_look(command) {
                    lemma_look_honest(project, counter, command);
                } else if is_keys(command) {
                    lemma_keys_honest(project, counter, command);
                } else if is_lanes(command) {
                    lemma_lanes_honest(project, counter, command);
                } else {
                    lemma_tabs_honest(project, counter, command);
                }
            },
        }
    }
}

proof fn lemma_run_honest(
    project: ProjectView,
    counter: nat,
    commands: Seq<Command>,
    n: nat,
    ride: Ride,
)
    requires
        project.editable(),
        n <= commands.len(),
    ensures
        honest(project, ran(project, counter, commands, n, ride)),
    decreases commands, n,
{
    if n > 0 {
        let sofar = ran(project, counter, commands, (n - 1) as nat, ride);
        lemma_run_honest(project, counter, commands, (n - 1) as nat, ride);
        if sofar.answer is Ok && !sofar.answer->Ok_0.applied {
            lemma_no_change_is_none(project, sofar.counter, commands[n - 1], ride);
        }
    }
}

} // verus!
