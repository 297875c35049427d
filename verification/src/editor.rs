//! The editing session: a project, its id mint, and undo.
//!
//! Undo is whole-state snapshots, and they are cheap: the project's timelines
//! and clips are shared, so a snapshot copies pointers and a command copies only
//! the clip it writes to.
//!
//! Two refinements on one snapshot per command:
//!
//! - A gesture is one undo step. A knob being dragged commits on every pause of
//!   the pointer; the caller names the gesture, and commits that name the same
//!   gesture as the last recorded step fold into it.
//! - View state is not an edit. Which timeline tab is showing, and the order of
//!   the tabs, is saved with the document but never recorded in history.

use crate::commands::apply::{apply, stepped};
use crate::commands::command::{Command, CommandError, Outcome, OutcomeView, Refusal};
use crate::commands::honesty::lemma_no_change_is_none;
use crate::commands::laws::lemma_refusal_changes_nothing;
use crate::commands::mint::{adopted_all, project_ids, IdMint};
use crate::commands::numbering::{
    asks, clip_ids, lemma_ids_stay_apart, lemma_numbered_on, numbered, tab_ids, told_apart,
};
use crate::model::clip::{Clip, ClipView};
use crate::model::keys::ParamKey;
use crate::model::media::text_of;
use crate::model::project::{find_timeline, Project, ProjectView};
use crate::model::ride::{plays, ride_of, Ride};
use crate::model::tidiness::{lemma_numbers_in_range, numbers_in_range};
use crate::model::timeline::{Timeline, TimelineView, VideoSettings};
use crate::number::Number;
use crate::shared::{share, shares};
use crate::text::same_text;
use std::collections::VecDeque;
use std::sync::Arc;
use vstd::prelude::*;

verus! {

/// How many steps back history goes.
pub const UNDO_DEPTH: usize = 200;

/// The state before one recorded step, and the gesture it belonged to.
struct Snapshot {
    before: Project,
    /// Set while the gesture that produced this step may still continue.
    gesture: Option<String>,
}

/// What a snapshot says.
#[verifier::ext_equal]
pub struct SnapshotView {
    pub before: ProjectView,
    pub gesture: Option<Seq<char>>,
}

impl Snapshot {
    spec fn shown(self) -> SnapshotView {
        SnapshotView { before: self.before@, gesture: text_of(self.gesture) }
    }
}

/// One editing session: the project, the id mint that keeps its ids unique, and
/// the undo and redo stacks.
pub struct Editor {
    project: Project,
    mint: IdMint,
    /// Oldest snapshot at the front.
    undo: VecDeque<Snapshot>,
    redo: Vec<Project>,
}

/// What an editing session says: the project, the number minted last, the steps
/// back, oldest first, and the steps forward, nearest last.
#[verifier::ext_equal]
pub struct EditorView {
    pub project: ProjectView,
    pub counter: nat,
    pub undo: Seq<SnapshotView>,
    pub redo: Seq<ProjectView>,
}

/// Steps, the oldest let go where there are more than history holds.
pub open spec fn capped(steps: Seq<SnapshotView>) -> Seq<SnapshotView> {
    if steps.len() > UNDO_DEPTH {
        steps.skip(1)
    } else {
        steps
    }
}

impl EditorView {
    /// What every session keeps: a timeline to edit in every state it can be in,
    /// and no more steps than history holds.
    pub open spec fn sound(self) -> bool {
        &&& self.project.editable()
        &&& forall|i: int| 0 <= i < self.undo.len() ==> (#[trigger] self.undo[i]).before.editable()
        &&& forall|i: int| 0 <= i < self.redo.len() ==> (#[trigger] self.redo[i]).editable()
        &&& self.undo.len() + self.redo.len() <= UNDO_DEPTH
    }

    /// Whether two sessions stand at the same project and lead to the same ones.
    pub open spec fn leads_alike(self, other: EditorView) -> bool {
        &&& self.project == other.project
        &&& self.counter == other.counter
        &&& self.redo == other.redo
        &&& self.undo.len() == other.undo.len()
        &&& forall|i: int|
            0 <= i < self.undo.len() ==> (#[trigger] self.undo[i]).before == other.undo[i].before
    }

    /// A session that has just opened a project.
    pub open spec fn opened(project: ProjectView, counter: nat) -> EditorView {
        EditorView { project, counter, undo: Seq::empty(), redo: Seq::empty() }
    }

    /// Whether a step of this gesture folds into the last one.
    pub open spec fn continues(self, gesture: Option<Seq<char>>) -> bool {
        gesture is Some && self.undo.len() > 0 && self.undo.last().gesture == gesture
    }

    /// The session once an edit is recorded.
    pub open spec fn recorded(
        self,
        after: ProjectView,
        counter: nat,
        gesture: Option<Seq<char>>,
    ) -> EditorView {
        EditorView {
            project: after,
            counter,
            undo: if self.continues(gesture) {
                self.undo
            } else {
                capped(self.undo.push(SnapshotView { before: self.project, gesture }))
            },
            redo: Seq::empty(),
        }
    }

    /// The session one step back. The step it leaves last belongs to no gesture
    /// in progress: what came after it has ended that.
    pub open spec fn undone(self) -> EditorView {
        if self.undo.len() == 0 {
            self
        } else {
            EditorView {
                project: self.undo.last().before,
                counter: self.counter,
                undo: self.undo.drop_last(),
                redo: self.redo.push(self.project),
            }.rested()
        }
    }

    /// The session one step forward again.
    pub open spec fn redone(self) -> EditorView {
        if self.redo.len() == 0 {
            self
        } else {
            EditorView {
                project: self.redo.last(),
                counter: self.counter,
                undo: self.undo.push(SnapshotView { before: self.project, gesture: None }),
                redo: self.redo.drop_last(),
            }
        }
    }

    /// The session once the gesture in progress has ended.
    pub open spec fn rested(self) -> EditorView {
        if self.undo.len() == 0 {
            self
        } else {
            EditorView {
                undo: self.undo.update(
                    self.undo.len() - 1,
                    SnapshotView { gesture: None, ..self.undo.last() },
                ),
                ..self
            }
        }
    }
}

/// A gesture's name, where it has one.
pub open spec fn named(gesture: Option<&str>) -> Option<Seq<char>> {
    match gesture {
        Some(name) => Some(name@),
        None => None,
    }
}

// Tidying what a command wrote.

/// A clip as a session leaves it: tidied, where tidying changes it.
pub open spec fn neat(clip: ClipView) -> ClipView {
    if clip.tidied().same(clip) {
        clip
    } else {
        clip.tidied()
    }
}

/// Whether a clip stood in a timeline of this id before.
pub open spec fn stood(before: ProjectView, timeline_id: Seq<char>, clip: ClipView) -> bool {
    exists|t: int, k: int|
        0 <= t < before.timelines.len() && 0 <= k < before.timelines[t].clips.len()
            && before.timelines[t].id == timeline_id && #[trigger] before.timelines[t].clips[k]
            == clip
}

/// Whether a clip was left as a session leaves it: what the command wrote is
/// neat, and what it did not is as it stood.
pub open spec fn clip_settled(
    before: ProjectView,
    timeline_id: Seq<char>,
    written: ClipView,
    left: ClipView,
) -> bool {
    left == neat(written) || (left == written && stood(before, timeline_id, written))
}

pub open spec fn timeline_settled(
    before: ProjectView,
    written: TimelineView,
    left: TimelineView,
) -> bool {
    &&& left == written.with_clips(left.clips)
    &&& left.clips.len() == written.clips.len()
    &&& forall|k: int|
        0 <= k < left.clips.len() ==> clip_settled(
            before,
            written.id,
            written.clips[k],
            #[trigger] left.clips[k],
        )
}

/// Whether a project is what a command wrote, with every clip it wrote tidied.
pub open spec fn settled(before: ProjectView, written: ProjectView, left: ProjectView) -> bool {
    &&& left == (ProjectView { timelines: left.timelines, ..written })
    &&& left.timelines.len() == written.timelines.len()
    &&& forall|i: int|
        0 <= i < left.timelines.len() ==> timeline_settled(
            before,
            written.timelines[i],
            #[trigger] left.timelines[i],
        )
}

/// Whether `same` tells one of these clips to be this one: yes where it says so
/// of some clip, and no where it denies it of every one.
fn is_shared<F: Fn(&Arc<Clip>, &Arc<Clip>) -> bool>(
    clips: &Vec<Arc<Clip>>,
    clip: &Arc<Clip>,
    same: F,
) -> (r: bool)
    requires
        forall|k: int| 0 <= k < clips.len() ==> call_requires(same, (&#[trigger] clips@[k], clip)),
    ensures
        r ==> exists|k: int|
            0 <= k < clips.len() && call_ensures(same, (&#[trigger] clips@[k], clip), true),
        !r ==> forall|k: int|
            0 <= k < clips.len() ==> call_ensures(same, (&#[trigger] clips@[k], clip), false),
{
    let mut i: usize = 0;
    while i < clips.len()
        invariant
            i <= clips.len(),
            forall|k: int|
                0 <= k < clips.len() ==> call_requires(same, (&#[trigger] clips@[k], clip)),
            forall|k: int|
                0 <= k < i ==> call_ensures(same, (&#[trigger] clips@[k], clip), false),
        decreases clips.len() - i,
    {
        if same(&clips[i], clip) {
            assert(call_ensures(same, (&clips@[i as int], clip), true));
            return true;
        }
        i = i + 1;
    }
    false
}

fn tidy_clips(clips: &Vec<Arc<Clip>>, kept: &Vec<Arc<Clip>>) -> (r: Vec<Arc<Clip>>)
    ensures
        r.len() == clips.len(),
        forall|k: int|
            0 <= k < r.len() ==> (#[trigger] r@[k])@ == neat(clips@[k]@) || (r@[k]@ == clips@[k]@
                && exists|j: int| 0 <= j < kept.len() && #[trigger] kept@[j]@ == clips@[k]@),
{
    let mut r: Vec<Arc<Clip>> = Vec::new();
    let mut i: usize = 0;
    while i < clips.len()
        invariant
            i <= clips.len(),
            r.len() == i,
            forall|k: int|
                0 <= k < r.len() ==> (#[trigger] r@[k])@ == neat(clips@[k]@) || (r@[k]@
                    == clips@[k]@ && exists|j: int|
                    0 <= j < kept.len() && #[trigger] kept@[j]@ == clips@[k]@),
        decreases clips.len() - i,
    {
        if is_shared(kept, &clips[i], shares) {
            proof {
                let j = choose|j: int|
                    0 <= j < kept.len() && call_ensures(
                        shares::<Clip>,
                        (&#[trigger] kept@[j], &clips@[i as int]),
                        true,
                    );
                assert(kept@[j]@ == clips@[i as int]@);
            }
            r.push(share(&clips[i]));
        } else {
            let tidied: Clip = (*clips[i]).clone().tidy();
            if tidied.same(&*clips[i]) {
                r.push(share(&clips[i]));
            } else {
                r.push(Arc::new(tidied));
            }
        }
        i = i + 1;
    }
    r
}

/// Tidies every clip of a timeline that is not still shared with how it was.
fn tidy_timeline(timeline: &Arc<Timeline>, before: &Project) -> (r: Arc<Timeline>)
    ensures
        timeline_settled(before@, timeline@, r@),
{
    match find_timeline(&before.timelines, timeline.id.as_str()) {
        Some(t) => {
            let old_timeline: &Arc<Timeline> = &before.timelines[t];
            assert(before@.timelines[t as int] == before.timelines@[t as int]@);
            if shares(old_timeline, timeline) {
                proof {
                    assert forall|k: int| 0 <= k < timeline@.clips.len() implies clip_settled(
                        before@,
                        timeline@.id,
                        timeline@.clips[k],
                        #[trigger] timeline@.clips[k],
                    ) by {
                        assert(before@.timelines[t as int].clips[k] == timeline@.clips[k]);
                    }
                }
                return share(timeline);
            }
            let clips: Vec<Arc<Clip>> = tidy_clips(&timeline.clips, &old_timeline.clips);
            let mut left: Timeline = (**timeline).clone();
            left.clips = clips;
            proof {
                assert forall|k: int| 0 <= k < left@.clips.len() implies clip_settled(
                    before@,
                    timeline@.id,
                    timeline@.clips[k],
                    #[trigger] left@.clips[k],
                ) by {
                    assert(left@.clips[k] == clips@[k]@);
                    assert(timeline@.clips[k] == timeline.clips@[k]@);
                    if left@.clips[k] != neat(timeline@.clips[k]) {
                        let j = choose|j: int|
                            0 <= j < old_timeline.clips.len() && #[trigger] old_timeline.clips@[j]@
                                == timeline.clips@[k]@;
                        assert(before@.timelines[t as int].clips[j] == timeline@.clips[k]);
                    }
                }
            }
            Arc::new(left)
        },
        None => {
            let none: Vec<Arc<Clip>> = Vec::new();
            let clips: Vec<Arc<Clip>> = tidy_clips(&timeline.clips, &none);
            let mut left: Timeline = (**timeline).clone();
            left.clips = clips;
            proof {
                assert forall|k: int| 0 <= k < left@.clips.len() implies clip_settled(
                    before@,
                    timeline@.id,
                    timeline@.clips[k],
                    #[trigger] left@.clips[k],
                ) by {
                    assert(left@.clips[k] == clips@[k]@);
                    assert(timeline@.clips[k] == timeline.clips@[k]@);
                }
            }
            Arc::new(left)
        },
    }
}

/// Tidies every clip a command wrote, so the clamps live in one place and a
/// document is the same on screen as it is after a save and a reopen.
fn tidy_touched(project: &mut Project, before: &Project)
    ensures
        settled(before@, old(project)@, final(project)@),
{
    let ghost written = project@;
    let mut timelines: Vec<Arc<Timeline>> = Vec::new();
    let mut i: usize = 0;
    while i < project.timelines.len()
        invariant
            i <= project.timelines.len(),
            project@ == written,
            timelines.len() == i,
            forall|k: int|
                0 <= k < i ==> timeline_settled(
                    before@,
                    written.timelines[k],
                    (#[trigger] timelines@[k])@,
                ),
        decreases project.timelines.len() - i,
    {
        assert(written.timelines[i as int] == project.timelines@[i as int]@);
        timelines.push(tidy_timeline(&project.timelines[i], before));
        i = i + 1;
    }
    project.timelines = timelines;
    assert forall|k: int| 0 <= k < project@.timelines.len() implies timeline_settled(
        before@,
        written.timelines[k],
        #[trigger] project@.timelines[k],
    ) by {
        assert(project@.timelines[k] == timelines@[k]@);
    }
}

/// What a session's steps say.
spec fn steps(undo: Seq<Snapshot>) -> Seq<SnapshotView> {
    undo.map_values(|s: Snapshot| s.shown())
}

spec fn states(redo: Seq<Project>) -> Seq<ProjectView> {
    redo.map_values(|p: Project| p@)
}

impl Editor {
    pub closed spec fn view(&self) -> EditorView {
        EditorView {
            project: self.project@,
            counter: self.mint@,
            undo: steps(self.undo@),
            redo: states(self.redo@),
        }
    }

    /// A fresh, empty project.
    pub fn new() -> (r: Editor)
        ensures
            r@ == EditorView::opened(ProjectView::fresh(VideoSettings::standard()), 0),
            r@.sound(),
    {
        Editor::with_video(VideoSettings::default())
    }

    /// A fresh editor whose first timeline renders to `video`.
    pub fn with_video(video: VideoSettings) -> (r: Editor)
        ensures
            r@ == EditorView::opened(ProjectView::fresh(video), 0),
            r@.sound(),
    {
        let r: Editor = Editor {
            project: Project::with_video(video),
            mint: IdMint::new(),
            undo: VecDeque::new(),
            redo: Vec::new(),
        };
        assert(r@.undo =~= Seq::<SnapshotView>::empty());
        assert(r@.redo =~= Seq::<ProjectView>::empty());
        r
    }

    /// Opens a restored project, adopting every id it uses so the mint can never
    /// re-issue one. None for a project with no timeline to edit.
    pub fn from_project(project: Project) -> (r: Option<Editor>)
        ensures
            match r {
                Some(editor) => project@.editable() && editor@ == EditorView::opened(
                    project@,
                    adopted_all(0, project_ids(project@)),
                ) && editor@.sound(),
                None => !project@.editable(),
            },
    {
        assert(project.timelines.len() == project@.timelines.len());
        if project.timelines.len() == 0 {
            return None;
        }
        let mut mint: IdMint = IdMint::new();
        mint.adopt_project(&project);
        let r: Editor = Editor { project, mint, undo: VecDeque::new(), redo: Vec::new() };
        assert(r@.undo =~= Seq::<SnapshotView>::empty());
        assert(r@.redo =~= Seq::<ProjectView>::empty());
        Some(r)
    }

    /// The current state, read-only: all mutation goes through commands so
    /// nothing can change without being undoable.
    pub fn project(&self) -> (r: &Project)
        ensures
            r@ == self@.project,
    {
        &self.project
    }

    /// Whether a step of this gesture folds into the last one.
    fn folds(&self, gesture: Option<&str>) -> (r: bool)
        ensures
            r == self@.continues(named(gesture)),
    {
        let count: usize = self.undo.len();
        match gesture {
            Some(name) => {
                if count == 0 {
                    return false;
                }
                assert(self@.undo.last() == self.undo@[count - 1].shown());
                match &self.undo[count - 1].gesture {
                    Some(last) => same_text(last.as_str(), name),
                    None => false,
                }
            },
            None => false,
        }
    }

    /// Applies one command, recording the state before it for undo. A command
    /// that fails leaves the project and history untouched, and a step is only
    /// recorded when the command changed something.
    pub fn apply<F: Fn(&Vec<ParamKey>, Number, Number) -> Number>(
        &mut self,
        command: Command,
        engine: &F,
    ) -> (r: Result<Outcome, CommandError>)
        requires
            old(self)@.sound(),
            plays(*engine),
        ensures
            final(self)@.sound(),
            edited(old(self)@, None, command, ride_of(*engine), final(self)@, r),
    {
        self.apply_within(None, command, engine)
    }

    /// Applies one command as one move of a gesture. The first command naming a
    /// gesture records a step as usual; every later command naming the same
    /// gesture, with no other step recorded in between, folds into that step, so
    /// undo lands where the gesture began. None is a step of its own.
    pub fn apply_within<F: Fn(&Vec<ParamKey>, Number, Number) -> Number>(
        &mut self,
        gesture: Option<&str>,
        command: Command,
        engine: &F,
    ) -> (r: Result<Outcome, CommandError>)
        requires
            old(self)@.sound(),
            plays(*engine),
        ensures
            final(self)@.sound(),
            edited(old(self)@, named(gesture), command, ride_of(*engine), final(self)@, r),
    {
        if command.is_view_state() {
            return apply(&mut self.project, &mut self.mint, command, engine);
        }
        let ghost start = self@;
        let before: Project = self.project.clone();
        let outcome: Outcome = match apply(&mut self.project, &mut self.mint, command, engine) {
            Ok(outcome) => outcome,
            Err(error) => {
                return Err(error);
            },
        };
        if !outcome.applied {
            return Ok(outcome);
        }
        let ghost written = self.project@;
        tidy_touched(&mut self.project, &before);
        let folds: bool = self.folds(gesture);
        assert(folds == start.continues(named(gesture)));
        if !folds {
            let ghost held = self.undo@;
            let name: Option<String> = match gesture {
                Some(name) => Some(name.to_owned()),
                None => None,
            };
            let snapshot: Snapshot = Snapshot { before, gesture: name };
            self.undo.push_back(snapshot);
            proof {
                assert(snapshot.shown() == SnapshotView { before: start.project, gesture: named(gesture) });
                assert(steps(self.undo@) =~= steps(held).push(snapshot.shown()));
                assert(self.undo.len() == steps(self.undo@).len());
            }
            if self.undo.len() > UNDO_DEPTH {
                let ghost full = self.undo@;
                self.undo.pop_front();
                assert(steps(self.undo@) =~= steps(full).skip(1));
            }
        }
        self.redo.clear();
        proof {
            assert(states(self.redo@) =~= Seq::<ProjectView>::empty());
            assert(self@ =~= start.recorded(self.project@, self.mint@, named(gesture)));
            assert(self.project@.editable());
            assert forall|i: int| 0 <= i < self@.undo.len() implies (
            #[trigger] self@.undo[i]).before.editable() by {
                let pushed = start.undo.push(
                    SnapshotView { before: start.project, gesture: named(gesture) },
                );
                assert(forall|j: int|
                    0 <= j < pushed.len() ==> (#[trigger] pushed[j]).before.editable());
                if start.continues(named(gesture)) {
                    assert(start.undo[i].before.editable());
                } else if pushed.len() > UNDO_DEPTH {
                    assert(self@.undo[i] == pushed[i + 1]);
                }
            }
        }
        Ok(outcome)
    }

    /// Ends the gesture in progress, if any: the next command naming it starts a
    /// new step rather than folding into the last one.
    pub fn end_gesture(&mut self)
        requires
            old(self)@.sound(),
        ensures
            final(self)@ == old(self)@.rested(),
            final(self)@.sound(),
    {
        let ghost start = self@;
        let ghost held = self.undo@;
        assert(self.undo.len() == steps(self.undo@).len());
        match self.undo.pop_back() {
            Some(last) => {
                let ghost popped = self.undo@;
                let rested: Snapshot = Snapshot { before: last.before, gesture: None };
                self.undo.push_back(rested);
                proof {
                    assert(steps(self.undo@) =~= start.rested().undo);
                    assert forall|i: int| 0 <= i < self@.undo.len() implies (
                    #[trigger] self@.undo[i]).before.editable() by {
                        assert(start.undo[i].before.editable());
                    }
                }
            },
            None => {},
        }
    }

    /// Steps back one edit, and ends the gesture in progress. Returns whether
    /// anything changed.
    pub fn undo(&mut self) -> (r: bool)
        requires
            old(self)@.sound(),
        ensures
            final(self)@ == old(self)@.undone(),
            r == (old(self)@.undo.len() > 0),
            final(self)@.sound(),
    {
        let ghost start = self@;
        let ghost held = self.undo@;
        assert(self.undo.len() == steps(self.undo@).len());
        match self.undo.pop_back() {
            Some(previous) => {
                let ghost forward = self.redo@;
                let mut project: Project = previous.before;
                std::mem::swap(&mut project, &mut self.project);
                self.redo.push(project);
                proof {
                    assert(steps(self.undo@) =~= start.undo.drop_last());
                    assert(states(self.redo@) =~= states(forward).push(project@));
                    assert(start.undo.last() == held[held.len() - 1].shown());
                    lemma_stepped_back_sound(start, self@);
                }
                self.end_gesture();
                true
            },
            None => false,
        }
    }

    /// Steps forward again. Returns whether anything changed.
    pub fn redo(&mut self) -> (r: bool)
        requires
            old(self)@.sound(),
        ensures
            final(self)@ == old(self)@.redone(),
            r == (old(self)@.redo.len() > 0),
            final(self)@.sound(),
    {
        let ghost start = self@;
        let ghost held = self.redo@;
        assert(self.redo.len() == states(self.redo@).len());
        match self.redo.pop() {
            Some(next) => {
                let ghost back = self.undo@;
                let mut before: Project = next;
                std::mem::swap(&mut before, &mut self.project);
                let snapshot: Snapshot = Snapshot { before, gesture: None };
                self.undo.push_back(snapshot);
                proof {
                    assert(states(self.redo@) =~= start.redo.drop_last());
                    assert(steps(self.undo@) =~= steps(back).push(snapshot.shown()));
                    assert(start.redo.last() == held[held.len() - 1]@);
                    lemma_redone_sound(start);
                }
                true
            },
            None => false,
        }
    }

    /// Whether undo would do anything.
    pub fn can_undo(&self) -> (r: bool)
        ensures
            r == (self@.undo.len() > 0),
    {
        assert(self.undo.len() == steps(self.undo@).len());
        self.undo.len() > 0
    }

    /// Whether redo would do anything.
    pub fn can_redo(&self) -> (r: bool)
        ensures
            r == (self@.redo.len() > 0),
    {
        assert(self.redo.len() == states(self.redo@).len());
        self.redo.len() > 0
    }
}

impl Default for Editor {
    fn default() -> (r: Editor)
        ensures
            r@ == EditorView::opened(ProjectView::fresh(VideoSettings::standard()), 0),
            r@.sound(),
    {
        Editor::new()
    }
}

/// What a command does to a session. View state is applied and never recorded;
/// a refusal and a no-op record nothing; an edit is tidied and recorded.
pub open spec fn edited(
    start: EditorView,
    gesture: Option<Seq<char>>,
    command: Command,
    ride: Ride,
    after: EditorView,
    answer: Result<Outcome, CommandError>,
) -> bool {
    let step = stepped(start.project, start.counter, command, ride);
    &&& match answer {
        Ok(outcome) => step.answer == Ok::<OutcomeView, Refusal>(outcome@),
        Err(error) => step.answer == Err::<OutcomeView, Refusal>(error@),
    }
    &&& match step.answer {
        Ok(outcome) => if command.view_state() || !outcome.applied {
            after == (EditorView { project: step.project, counter: step.counter, ..start })
        } else {
            &&& settled(start.project, step.project, after.project)
            &&& after == start.recorded(after.project, step.counter, gesture)
        },
        Err(why) => after == (EditorView { project: step.project, counter: step.counter, ..start }),
    }
}

proof fn lemma_stepped_back_sound(editor: EditorView, after: EditorView)
    requires
        editor.sound(),
        editor.undo.len() > 0,
        after == (EditorView {
            project: editor.undo.last().before,
            counter: editor.counter,
            undo: editor.undo.drop_last(),
            redo: editor.redo.push(editor.project),
        }),
    ensures
        after.sound(),
{
    assert(editor.undo[editor.undo.len() - 1].before.editable());
    assert forall|i: int| 0 <= i < after.undo.len() implies (
    #[trigger] after.undo[i]).before.editable() by {
        assert(editor.undo[i].before.editable());
    }
    assert forall|i: int| 0 <= i < after.redo.len() implies (
    #[trigger] after.redo[i]).editable() by {
        if i < editor.redo.len() {
            assert(editor.redo[i].editable());
        }
    }
}

proof fn lemma_redone_sound(editor: EditorView)
    requires
        editor.sound(),
    ensures
        editor.redone().sound(),
{
    let after = editor.redone();
    if editor.redo.len() > 0 {
        assert(editor.redo[editor.redo.len() - 1].editable());
        assert forall|i: int| 0 <= i < after.undo.len() implies (
        #[trigger] after.undo[i]).before.editable() by {
            if i < editor.undo.len() {
                assert(editor.undo[i].before.editable());
            }
        }
        assert forall|i: int| 0 <= i < after.redo.len() implies (
        #[trigger] after.redo[i]).editable() by {
            assert(editor.redo[i].editable());
        }
    }
}

// What holds of every session.

/// Whether a command was an edit: it changed something, and not view state alone.
pub open spec fn recorded(command: Command, answer: Result<Outcome, CommandError>) -> bool {
    !command.view_state() && match answer {
        Ok(outcome) => outcome@.applied,
        Err(error) => false,
    }
}

/// Undo takes an edit back: the project is again what it was, and redo leads to
/// the edit and nowhere else.
pub proof fn lemma_undo_takes_an_edit_back(
    start: EditorView,
    gesture: Option<Seq<char>>,
    command: Command,
    ride: Ride,
    after: EditorView,
    answer: Result<Outcome, CommandError>,
)
    requires
        edited(start, gesture, command, ride, after, answer),
        recorded(command, answer),
        !start.continues(gesture),
    ensures
        after.undo.len() > 0,
        after.undone().project == start.project,
        after.undone().redo == seq![after.project],
{
    let pushed = start.undo.push(SnapshotView { before: start.project, gesture });
    assert(after.undo == capped(pushed));
    assert(after.undo.last() == pushed.last());
    assert(after.undone().redo =~= seq![after.project]);
}

/// Redo brings back what undo took: the session stands where it stood and leads
/// where it led, but no gesture is in progress.
pub proof fn lemma_redo_brings_it_back(editor: EditorView)
    requires
        editor.undo.len() > 0,
    ensures
        editor.undone().redone().leads_alike(editor),
        forall|name: Seq<char>| !#[trigger] editor.undone().redone().continues(Some(name)),
{
    let there = editor.undone();
    assert(there.redo.drop_last() =~= editor.redo);
    let back = there.redone();
    assert forall|i: int| 0 <= i < back.undo.len() implies (#[trigger] back.undo[i]).before
        == editor.undo[i].before by {
        if i < editor.undo.len() - 1 {
            assert(back.undo[i] == there.undo[i]);
            assert(there.undo[i].before == editor.undo[i].before);
        }
    }
}

/// Undo takes back what redo brought: the session is as it was, but that no
/// gesture is in progress.
pub proof fn lemma_undo_takes_a_redo_back(editor: EditorView)
    requires
        editor.redo.len() > 0,
    ensures
        editor.redone().undone() == editor.rested(),
{
    let there = editor.redone();
    assert(there.undo.drop_last() =~= editor.undo);
    assert(there.redo.push(there.project) =~= editor.redo);
}

/// A step that was undone has ended the gesture before it, and so has one that
/// was done again: the next edit of any gesture is a step of its own.
pub proof fn lemma_a_step_between_ends_a_gesture(editor: EditorView, name: Seq<char>)
    ensures
        editor.undo.len() > 0 ==> !editor.undone().continues(Some(name)),
        editor.redo.len() > 0 ==> !editor.redone().continues(Some(name)),
{
}

/// A gesture is one step: however it goes on, undo lands where it began.
pub proof fn lemma_a_gesture_is_one_step(
    start: EditorView,
    name: Seq<char>,
    first: Command,
    between: EditorView,
    first_answer: Result<Outcome, CommandError>,
    second: Command,
    after: EditorView,
    second_answer: Result<Outcome, CommandError>,
    ride: Ride,
)
    requires
        !start.continues(Some(name)),
        edited(start, Some(name), first, ride, between, first_answer),
        recorded(first, first_answer),
        edited(between, Some(name), second, ride, after, second_answer),
    ensures
        after.undo == between.undo,
        after.undone().project == start.project,
        recorded(second, second_answer) ==> between.continues(Some(name)) && after.continues(
            Some(name),
        ),
{
    lemma_undo_takes_an_edit_back(start, Some(name), first, ride, between, first_answer);
    let pushed = start.undo.push(SnapshotView { before: start.project, gesture: Some(name) });
    assert(between.undo == capped(pushed));
    assert(between.undo.last() == pushed.last());
}

/// A gesture that has ended does not go on: the next edit of that name is a step
/// of its own. Ending it changes nothing else.
pub proof fn lemma_an_ended_gesture_stays_ended(editor: EditorView, name: Seq<char>)
    ensures
        !editor.rested().continues(Some(name)),
        editor.rested().project == editor.project,
        editor.rested().undone() == editor.undone(),
        editor.rested().redone().project == editor.redone().project,
{
    if editor.undo.len() > 0 {
        assert(editor.rested().undo.drop_last() =~= editor.undo.drop_last());
    }
}

/// What is no edit leaves no step: history is what it was both ways. A command
/// that was refused leaves the project what it was too, and so does one that says
/// it changed nothing.
pub proof fn lemma_only_edits_are_recorded(
    start: EditorView,
    gesture: Option<Seq<char>>,
    command: Command,
    ride: Ride,
    after: EditorView,
    answer: Result<Outcome, CommandError>,
)
    requires
        edited(start, gesture, command, ride, after, answer),
        !recorded(command, answer),
    ensures
        after.undo == start.undo,
        after.redo == start.redo,
        answer is Err ==> after.project == start.project,
        answer matches Ok(outcome) ==> !outcome@.applied && start.project.editable()
            ==> after.project == start.project && outcome@.created_id is None,
{
    if answer is Err {
        lemma_refusal_changes_nothing(start.project, start.counter, command, ride);
    } else if start.project.editable() {
        lemma_no_change_is_none(start.project, start.counter, command, ride);
    }
}

/// An edit ends what could be redone.
pub proof fn lemma_an_edit_ends_redo(
    start: EditorView,
    gesture: Option<Seq<char>>,
    command: Command,
    ride: Ride,
    after: EditorView,
    answer: Result<Outcome, CommandError>,
)
    requires
        edited(start, gesture, command, ride, after, answer),
        recorded(command, answer),
    ensures
        after.redo.len() == 0,
        after.redone() == after,
{
}

/// Whether everything is told apart by its id in every state a session can go
/// back or forward to, and the mint is past all of their ids.
pub open spec fn numbered_throughout(editor: EditorView) -> bool {
    &&& numbered(editor.project, editor.counter)
    &&& forall|i: int|
        0 <= i < editor.undo.len() ==> numbered(
            (#[trigger] editor.undo[i]).before,
            editor.counter,
        )
    &&& forall|i: int|
        0 <= i < editor.redo.len() ==> numbered(#[trigger] editor.redo[i], editor.counter)
}

proof fn lemma_settled_numbered(
    before: ProjectView,
    written: ProjectView,
    left: ProjectView,
    counter: nat,
)
    requires
        settled(before, written, left),
        numbered(written, counter),
    ensures
        numbered(left, counter),
{
    assert forall|i: int| 0 <= i < left.timelines.len() implies told_apart(
        #[trigger] left.timelines[i],
        counter,
    ) && left.timelines[i].id == written.timelines[i].id by {
        let was = written.timelines[i];
        let is = left.timelines[i];
        assert(timeline_settled(before, was, is));
        assert(told_apart(was, counter));
        assert(clip_ids(is.clips) =~= clip_ids(was.clips)) by {
            assert forall|k: int| 0 <= k < is.clips.len() implies (#[trigger] is.clips[k]).id
                == was.clips[k].id by {
                assert(clip_settled(before, was.id, was.clips[k], is.clips[k]));
                lemma_tidied_id(was.clips[k]);
            }
        }
    }
    assert(tab_ids(left.timelines) =~= tab_ids(written.timelines));
}

proof fn lemma_tidied_id(clip: ClipView)
    ensures
        clip.tidied().id == clip.id,
{
    reveal(ClipView::tidied);
}

/// Ids stay apart over a whole session: no command issues an id that stands in
/// any state that undo or redo leads to. The mint starts over when its counter is
/// spent, so this asks for as many numbers left as the command can mint ids.
pub proof fn lemma_ids_stay_apart_throughout(
    start: EditorView,
    gesture: Option<Seq<char>>,
    command: Command,
    ride: Ride,
    after: EditorView,
    answer: Result<Outcome, CommandError>,
)
    requires
        start.sound(),
        numbered_throughout(start),
        start.counter + asks(start.project, start.counter, command, ride) <= u64::MAX,
        edited(start, gesture, command, ride, after, answer),
    ensures
        numbered_throughout(after),
{
    let step = stepped(start.project, start.counter, command, ride);
    lemma_ids_stay_apart(start.project, start.counter, command, ride);
    lemma_numbered_on(start.project, start.counter, step.counter);
    assert forall|i: int| 0 <= i < start.undo.len() implies numbered(
        (#[trigger] start.undo[i]).before,
        step.counter,
    ) by {
        lemma_numbered_on(start.undo[i].before, start.counter, step.counter);
    }
    assert forall|i: int| 0 <= i < start.redo.len() implies numbered(
        #[trigger] start.redo[i],
        step.counter,
    ) by {
        lemma_numbered_on(start.redo[i], start.counter, step.counter);
    }
    if recorded(command, answer) {
        lemma_settled_numbered(start.project, step.project, after.project, step.counter);
        let pushed = start.undo.push(SnapshotView { before: start.project, gesture });
        assert forall|i: int| 0 <= i < after.undo.len() implies numbered(
            (#[trigger] after.undo[i]).before,
            step.counter,
        ) by {
            if start.continues(gesture) {
                assert(after.undo[i] == start.undo[i]);
            } else {
                let k = if pushed.len() > UNDO_DEPTH {
                    i + 1
                } else {
                    i
                };
                assert(after.undo[i] == pushed[k]);
                if k < start.undo.len() {
                    assert(pushed[k] == start.undo[k]);
                }
            }
        }
    }
}

/// Stepping back and forward keeps ids apart.
pub proof fn lemma_steps_keep_ids_apart(editor: EditorView)
    requires
        numbered_throughout(editor),
    ensures
        numbered_throughout(editor.undone()),
        numbered_throughout(editor.redone()),
        numbered_throughout(editor.rested()),
{
    let back = editor.undone();
    if editor.undo.len() > 0 {
        assert(numbered(editor.undo[editor.undo.len() - 1].before, editor.counter));
        assert forall|i: int| 0 <= i < back.undo.len() implies numbered(
            (#[trigger] back.undo[i]).before,
            editor.counter,
        ) by {
            assert(back.undo[i].before == editor.undo[i].before);
        }
        assert forall|i: int| 0 <= i < back.redo.len() implies numbered(
            #[trigger] back.redo[i],
            editor.counter,
        ) by {
            if i < editor.redo.len() {
                assert(back.redo[i] == editor.redo[i]);
            }
        }
    }
    let forth = editor.redone();
    if editor.redo.len() > 0 {
        assert(numbered(editor.redo[editor.redo.len() - 1], editor.counter));
        assert forall|i: int| 0 <= i < forth.undo.len() implies numbered(
            (#[trigger] forth.undo[i]).before,
            editor.counter,
        ) by {
            if i < editor.undo.len() {
                assert(forth.undo[i] == editor.undo[i]);
            }
        }
        assert forall|i: int| 0 <= i < forth.redo.len() implies numbered(
            #[trigger] forth.redo[i],
            editor.counter,
        ) by {
            assert(forth.redo[i] == editor.redo[i]);
        }
    }
    let still = editor.rested();
    assert forall|i: int| 0 <= i < still.undo.len() implies numbered(
        (#[trigger] still.undo[i]).before,
        editor.counter,
    ) by {
        assert(numbered(editor.undo[i].before, editor.counter));
    }
}

/// An edit leaves tidy clips behind: every clip is one that stood before, or has
/// its own numbers in range.
pub proof fn lemma_an_edit_leaves_tidy_clips(
    start: EditorView,
    gesture: Option<Seq<char>>,
    command: Command,
    ride: Ride,
    after: EditorView,
    answer: Result<Outcome, CommandError>,
    i: int,
    k: int,
)
    requires
        edited(start, gesture, command, ride, after, answer),
        recorded(command, answer),
        0 <= i < after.project.timelines.len(),
        0 <= k < after.project.timelines[i].clips.len(),
    ensures
        stood(
            start.project,
            after.project.timelines[i].id,
            after.project.timelines[i].clips[k],
        ) || numbers_in_range(after.project.timelines[i].clips[k]),
{
    let written = stepped(start.project, start.counter, command, ride).project;
    let is = after.project.timelines[i];
    let was = written.timelines[i];
    assert(timeline_settled(start.project, was, is));
    assert(clip_settled(start.project, was.id, was.clips[k], is.clips[k]));
    lemma_neat_in_range(was.clips[k]);
}

proof fn lemma_neat_in_range(clip: ClipView)
    ensures
        numbers_in_range(neat(clip)),
{
    lemma_numbers_in_range(clip);
}

} // verus!
