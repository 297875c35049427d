//! Lanes: adding, removing and flagging them.

use crate::commands::command::{CommandError, Outcome, Refusal, TrackFlag};
use crate::commands::mint::{minted, IdMint};
use crate::commands::step::Step;
use crate::find::{lemma_filter_maps, lemma_filter_step};
use crate::model::clip::{Clip, ClipView};
use crate::model::project::{Project, ProjectView};
use crate::model::timeline::{
    clips_of, find_track, tracks_of, Timeline, TimelineView, Track, TrackView,
};
use crate::shared::share;
use crate::text::successor;
use std::sync::Arc;
use vstd::prelude::*;

verus! {

/// Appends a lane.
pub open spec fn adding_track(project: ProjectView, counter: nat) -> Step {
    let id = minted("t"@, counter);
    let timeline = project.active();
    Step::created(
        project.with_active(
            TimelineView { tracks: timeline.tracks.push(TrackView::fresh(id)), ..timeline },
        ),
        successor(counter),
        id,
    )
}

/// Deletes a lane and every clip on it, down to one lane.
pub open spec fn removing_track(project: ProjectView, counter: nat, track_id: Seq<char>) -> Step {
    let timeline = project.active();
    if timeline.tracks.len() <= 1 {
        Step::refused(project, counter, Refusal::LastTrack)
    } else {
        match timeline.track_index(track_id) {
            None => Step::nothing(project, counter),
            Some(i) => Step::changed(
                project.with_active(
                    TimelineView {
                        tracks: timeline.tracks.remove(i),
                        clips: timeline.clips.filter(|c: ClipView| c.track_id != track_id),
                        ..timeline
                    },
                ),
                counter,
                true,
            ),
        }
    }
}

/// A lane with one of its toggles set.
pub open spec fn flagged(track: TrackView, flag: TrackFlag, value: bool) -> TrackView {
    match flag {
        TrackFlag::Visible => TrackView { visible: value, ..track },
        TrackFlag::Muted => TrackView { muted: value, ..track },
    }
}

/// Sets one of a lane's toggles.
pub open spec fn flagging_track(
    project: ProjectView,
    counter: nat,
    track_id: Seq<char>,
    flag: TrackFlag,
    value: bool,
) -> Step {
    let timeline = project.active();
    match timeline.track_index(track_id) {
        None => Step::nothing(project, counter),
        Some(i) => Step::changed(
            project.with_active(
                TimelineView {
                    tracks: timeline.tracks.update(i, flagged(timeline.tracks[i], flag, value)),
                    ..timeline
                },
            ),
            counter,
            flagged(timeline.tracks[i], flag, value) != timeline.tracks[i],
        ),
    }
}

pub fn add_track(project: &mut Project, mint: &mut IdMint) -> (r: Result<Outcome, CommandError>)
    requires
        old(project)@.editable(),
    ensures
        adding_track(old(project)@, old(mint)@).is(final(project)@, final(mint)@, r),
{
    let mut timeline: Timeline = project.active().clone();
    let id: String = mint.next("t");
    let ghost before = timeline.tracks@;
    let track: Track = Track::fresh(id.clone());
    timeline.tracks.push(track);
    assert(tracks_of(timeline.tracks@) =~= tracks_of(before).push(track@));
    project.put_active(timeline);
    Ok(Outcome::created(id))
}

/// The clips that are not on a lane.
pub fn clips_off(clips: &Vec<Arc<Clip>>, track_id: &String) -> (r: Vec<Arc<Clip>>)
    ensures
        clips_of(r@) == clips_of(clips@).filter(|c: ClipView| c.track_id != track_id@),
{
    let ghost pred = |c: Arc<Clip>| c@.track_id != track_id@;
    let ghost image = |c: Arc<Clip>| c@;
    let ghost onto = |c: ClipView| c.track_id != track_id@;
    let mut r: Vec<Arc<Clip>> = Vec::new();
    let mut i: usize = 0;
    proof {
        reveal(Seq::filter);
        assert(clips@.take(0).filter(pred) =~= Seq::<Arc<Clip>>::empty());
    }
    while i < clips.len()
        invariant
            i <= clips.len(),
            pred == (|c: Arc<Clip>| c@.track_id != track_id@),
            r@ == clips@.take(i as int).filter(pred),
        decreases clips.len() - i,
    {
        proof {
            lemma_filter_step(clips@, pred, i as int);
        }
        if clips[i].track_id != *track_id {
            r.push(share(&clips[i]));
        }
        i = i + 1;
    }
    assert(clips@.take(clips@.len() as int) =~= clips@);
    proof {
        lemma_filter_maps(clips@, pred, image, onto);
    }
    r
}

pub fn remove_track(project: &mut Project, mint: &mut IdMint, track_id: String) -> (r: Result<
    Outcome,
    CommandError,
>)
    requires
        old(project)@.editable(),
    ensures
        removing_track(old(project)@, old(mint)@, track_id@).is(final(project)@, final(mint)@, r),
{
    let mut timeline: Timeline = project.active().clone();
    assert(timeline.tracks.len() == timeline@.tracks.len());
    if timeline.tracks.len() <= 1 {
        return Err(CommandError::LastTrack);
    }
    match find_track(&timeline.tracks, track_id.as_str()) {
        None => Ok(Outcome::default()),
        Some(i) => {
            let ghost before = timeline.tracks@;
            let clips: Vec<Arc<Clip>> = clips_off(&timeline.clips, &track_id);
            timeline.tracks.remove(i);
            assert(tracks_of(timeline.tracks@) =~= tracks_of(before).remove(i as int));
            timeline.clips = clips;
            project.put_active(timeline);
            Ok(Outcome::changed(true))
        },
    }
}

pub fn set_track_flag(
    project: &mut Project,
    mint: &mut IdMint,
    track_id: &str,
    flag: TrackFlag,
    value: bool,
) -> (r: Result<Outcome, CommandError>)
    requires
        old(project)@.editable(),
    ensures
        flagging_track(old(project)@, old(mint)@, track_id@, flag, value).is(
            final(project)@,
            final(mint)@,
            r,
        ),
{
    let mut timeline: Timeline = project.active().clone();
    match find_track(&timeline.tracks, track_id) {
        None => Ok(Outcome::default()),
        Some(i) => {
            let ghost before = timeline.tracks@;
            let mut track: Track = timeline.tracks[i].clone();
            let applied: bool = match flag {
                TrackFlag::Visible => {
                    let applied: bool = track.visible != value;
                    track.visible = value;
                    applied
                },
                TrackFlag::Muted => {
                    let applied: bool = track.muted != value;
                    track.muted = value;
                    applied
                },
            };
            timeline.tracks.set(i, track);
            assert(tracks_of(timeline.tracks@) =~= tracks_of(before).update(i as int, track@));
            project.put_active(timeline);
            Ok(Outcome::changed(applied))
        },
    }
}

} // verus!
