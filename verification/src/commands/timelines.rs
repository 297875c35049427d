//! Timelines: adding, removing, naming, selecting and ordering them.

use crate::commands::command::{CommandError, Outcome, Refusal};
use crate::commands::mint::{minted, IdMint};
use crate::commands::step::Step;
use crate::find::first;
use crate::model::project::{find_timeline, timelines_of, Project, ProjectView};
use crate::model::timeline::{Timeline, TimelineView, Track, TrackView, VideoSettings};
use crate::text::{next_name, next_numbered, successor, trim, trimmed};
use std::sync::Arc;
use vstd::prelude::*;

verus! {

/// Where the timeline with this id stands.
pub open spec fn timeline_index(project: ProjectView, id: Seq<char>) -> Option<int> {
    first(project.timelines, |t: TimelineView| t.id == id)
}

/// A fresh timeline: four lanes whose ids follow its own.
pub open spec fn fresh_timeline(names: Seq<Seq<char>>, counter: nat) -> TimelineView {
    let a = successor(counter);
    let b = successor(a);
    let c = successor(b);
    let d = successor(c);
    TimelineView {
        id: minted("tl"@, counter),
        name: next_name("Timeline"@, names),
        video: VideoSettings::standard(),
        tracks: seq![
            TrackView::fresh(minted("t"@, a)),
            TrackView::fresh(minted("t"@, b)),
            TrackView::fresh(minted("t"@, c)),
            TrackView::fresh(minted("t"@, d)),
        ],
        clips: Seq::empty(),
        extra: Seq::empty(),
    }
}

/// The tab labels.
pub open spec fn labels(timelines: Seq<TimelineView>) -> Seq<Seq<char>> {
    timelines.map_values(|t: TimelineView| t.name)
}

/// Adds a fresh timeline and makes it active.
pub open spec fn adding_timeline(project: ProjectView, counter: nat) -> Step {
    let timeline = fresh_timeline(labels(project.timelines), counter);
    Step::created(
        ProjectView {
            timelines: project.timelines.push(timeline),
            active_timeline_id: timeline.id,
            ..project
        },
        successor(successor(successor(successor(successor(counter))))),
        timeline.id,
    )
}

/// Deletes a timeline, down to one. The tab to its right takes its place where
/// it was active, or the one to its left where it was last.
pub open spec fn removing_timeline(
    project: ProjectView,
    counter: nat,
    timeline_id: Seq<char>,
) -> Step {
    if project.timelines.len() <= 1 {
        Step::refused(project, counter, Refusal::LastTimeline)
    } else {
        match timeline_index(project, timeline_id) {
            None => Step::nothing(project, counter),
            Some(i) => {
                let timelines = project.timelines.remove(i);
                let next = if i < timelines.len() {
                    i
                } else {
                    timelines.len() - 1
                };
                Step::changed(
                    ProjectView {
                        timelines,
                        active_timeline_id: if project.active_timeline_id == timeline_id {
                            timelines[next].id
                        } else {
                            project.active_timeline_id
                        },
                        ..project
                    },
                    counter,
                    true,
                )
            },
        }
    }
}

/// Sets a timeline's frame and rate, where a frame could have them.
pub open spec fn setting_video(
    project: ProjectView,
    counter: nat,
    timeline_id: Seq<char>,
    video: VideoSettings,
) -> Step {
    match timeline_index(project, timeline_id) {
        Some(i) => if video.sane() {
            Step::changed(
                ProjectView {
                    timelines: project.timelines.update(
                        i,
                        TimelineView { video, ..project.timelines[i] },
                    ),
                    ..project
                },
                counter,
                project.timelines[i].video != video,
            )
        } else {
            Step::nothing(project, counter)
        },
        None => Step::nothing(project, counter),
    }
}

/// Renames a tab, never to a blank.
pub open spec fn renaming(
    project: ProjectView,
    counter: nat,
    timeline_id: Seq<char>,
    name: Seq<char>,
) -> Step {
    match timeline_index(project, timeline_id) {
        Some(i) => if trimmed(name).len() > 0 {
            Step::changed(
                ProjectView {
                    timelines: project.timelines.update(
                        i,
                        TimelineView { name: trimmed(name), ..project.timelines[i] },
                    ),
                    ..project
                },
                counter,
                project.timelines[i].name != trimmed(name),
            )
        } else {
            Step::nothing(project, counter)
        },
        None => Step::nothing(project, counter),
    }
}

/// Switches which timeline commands act on.
pub open spec fn selecting(project: ProjectView, counter: nat, timeline_id: Seq<char>) -> Step {
    match timeline_index(project, timeline_id) {
        Some(_) => Step::changed(
            ProjectView { active_timeline_id: timeline_id, ..project },
            counter,
            project.active_timeline_id != timeline_id,
        ),
        None => Step::nothing(project, counter),
    }
}

/// Moves a tab. Which timeline is active does not change.
pub open spec fn reordering(
    project: ProjectView,
    counter: nat,
    timeline_id: Seq<char>,
    index: nat,
) -> Step {
    match timeline_index(project, timeline_id) {
        Some(i) => {
            let rest = project.timelines.remove(i);
            let to = if index < rest.len() {
                index as int
            } else {
                rest.len() as int
            };
            Step::changed(
                ProjectView { timelines: rest.insert(to, project.timelines[i]), ..project },
                counter,
                to != i,
            )
        },
        None => Step::nothing(project, counter),
    }
}

pub fn add_timeline(project: &mut Project, mint: &mut IdMint) -> (r: Result<Outcome, CommandError>)
    ensures
        adding_timeline(old(project)@, old(mint)@).is(final(project)@, final(mint)@, r),
{
    let ghost whole = project@;
    let ghost counter = mint@;
    let mut names: Vec<String> = Vec::new();
    let mut i: usize = 0;
    while i < project.timelines.len()
        invariant
            i <= project.timelines.len(),
            project@ == whole,
            names.len() == i,
            forall|j: int| 0 <= j < i ==> (#[trigger] names@[j])@ == whole.timelines[j].name,
        decreases project.timelines.len() - i,
    {
        names.push(project.timelines[i].name.clone());
        i = i + 1;
    }
    assert(names@.map_values(|s: String| s@) =~= labels(whole.timelines));
    let id: String = mint.next("tl");
    let a: String = mint.next("t");
    let b: String = mint.next("t");
    let c: String = mint.next("t");
    let d: String = mint.next("t");
    let timeline: Timeline = Timeline {
        id: id.clone(),
        name: next_numbered("Timeline", &names),
        video: VideoSettings::default(),
        tracks: vec![Track::fresh(a), Track::fresh(b), Track::fresh(c), Track::fresh(d)],
        clips: Vec::new(),
        extra: String::new(),
    };
    let ghost wanted = fresh_timeline(labels(whole.timelines), counter);
    assert(timeline@ =~= wanted) by {
        assert(timeline@.tracks =~= wanted.tracks);
        assert(timeline@.clips =~= wanted.clips);
    }
    let ghost before = project.timelines@;
    let shared: Arc<Timeline> = Arc::new(timeline);
    project.timelines.push(shared);
    assert(timelines_of(project.timelines@) =~= timelines_of(before).push(timeline@));
    project.active_timeline_id = id.clone();
    Ok(Outcome::created(id))
}

pub fn remove_timeline(project: &mut Project, mint: &mut IdMint, timeline_id: String) -> (r: Result<
    Outcome,
    CommandError,
>)
    ensures
        removing_timeline(old(project)@, old(mint)@, timeline_id@).is(
            final(project)@,
            final(mint)@,
            r,
        ),
{
    assert(project.timelines.len() == project@.timelines.len());
    if project.timelines.len() <= 1 {
        return Err(CommandError::LastTimeline);
    }
    match find_timeline(&project.timelines, timeline_id.as_str()) {
        None => Ok(Outcome::default()),
        Some(i) => {
            let ghost before = project.timelines@;
            project.timelines.remove(i);
            assert(timelines_of(project.timelines@) =~= timelines_of(before).remove(i as int));
            if project.active_timeline_id == timeline_id {
                let next: usize = if i < project.timelines.len() {
                    i
                } else {
                    project.timelines.len() - 1
                };
                assert(timelines_of(project.timelines@)[next as int]
                    == project.timelines@[next as int]@);
                project.active_timeline_id = project.timelines[next].id.clone();
            }
            Ok(Outcome::changed(true))
        },
    }
}

pub fn set_timeline_video(
    project: &mut Project,
    mint: &mut IdMint,
    timeline_id: &str,
    video: VideoSettings,
) -> (r: Result<Outcome, CommandError>)
    ensures
        setting_video(old(project)@, old(mint)@, timeline_id@, video).is(
            final(project)@,
            final(mint)@,
            r,
        ),
{
    match find_timeline(&project.timelines, timeline_id) {
        None => Ok(Outcome::default()),
        Some(i) => {
            if !video.is_sane() {
                return Ok(Outcome::default());
            }
            let mut timeline: Timeline = (*project.timelines[i]).clone();
            let applied: bool = timeline.video != video;
            timeline.video = video;
            project.put_timeline(i, timeline);
            Ok(Outcome::changed(applied))
        },
    }
}

pub fn rename_timeline(
    project: &mut Project,
    mint: &mut IdMint,
    timeline_id: &str,
    name: &str,
) -> (r: Result<Outcome, CommandError>)
    ensures
        renaming(old(project)@, old(mint)@, timeline_id@, name@).is(
            final(project)@,
            final(mint)@,
            r,
        ),
{
    let name: String = trim(name);
    match find_timeline(&project.timelines, timeline_id) {
        None => Ok(Outcome::default()),
        Some(i) => {
            if name.as_str().is_empty() {
                return Ok(Outcome::default());
            }
            let mut timeline: Timeline = (*project.timelines[i]).clone();
            let applied: bool = timeline.name != name;
            timeline.name = name;
            project.put_timeline(i, timeline);
            Ok(Outcome::changed(applied))
        },
    }
}

pub fn select_timeline(project: &mut Project, mint: &mut IdMint, timeline_id: String) -> (r: Result<
    Outcome,
    CommandError,
>)
    ensures
        selecting(old(project)@, old(mint)@, timeline_id@).is(final(project)@, final(mint)@, r),
{
    match find_timeline(&project.timelines, timeline_id.as_str()) {
        None => Ok(Outcome::default()),
        Some(_) => {
            let applied: bool = project.active_timeline_id != timeline_id;
            project.active_timeline_id = timeline_id;
            Ok(Outcome::changed(applied))
        },
    }
}

pub fn move_timeline(
    project: &mut Project,
    mint: &mut IdMint,
    timeline_id: &str,
    index: usize,
) -> (r: Result<Outcome, CommandError>)
    ensures
        reordering(old(project)@, old(mint)@, timeline_id@, index as nat).is(
            final(project)@,
            final(mint)@,
            r,
        ),
{
    match find_timeline(&project.timelines, timeline_id) {
        None => Ok(Outcome::default()),
        Some(i) => {
            let ghost before = project.timelines@;
            let timeline: Arc<Timeline> = project.timelines.remove(i);
            let to: usize = if index < project.timelines.len() {
                index
            } else {
                project.timelines.len()
            };
            project.timelines.insert(to, timeline);
            assert(timelines_of(project.timelines@) =~= timelines_of(before).remove(
                i as int,
            ).insert(to as int, timelines_of(before)[i as int]));
            Ok(Outcome::changed(to != i))
        },
    }
}

} // verus!
