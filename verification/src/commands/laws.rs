//! What holds of every command: a refusal changes nothing, a batch is one
//! command, and no command leaves a timeline without a lane.

use crate::commands::apply::{
    cutting_step, keys_step, lanes_step, lemma_run_stays_editable, lemma_stays_editable, look_step,
    media_step, placing_step, ran, stepped, tabs_step,
};
use crate::commands::clips::{adding_clip, adding_layer, adding_text, replacing_media};
use crate::commands::command::{Command, OutcomeView, Refusal};
use crate::commands::step::Step;
use crate::model::clip::style_of;
use crate::model::media::{text_of, NewMediaView};
use crate::model::project::ProjectView;
use crate::model::ride::Ride;
use crate::model::style::StyleView;
use crate::number::Number;
use vstd::prelude::*;

verus! {

/// Whether every timeline of a project has a lane.
pub open spec fn laned(project: ProjectView) -> bool {
    forall|i: int|
        0 <= i < project.timelines.len() ==> (#[trigger] project.timelines[i]).tracks.len() > 0
}

/// Whether a step that is refused changes nothing, and one that is not leaves
/// every timeline a lane.
spec fn orderly(project: ProjectView, step: Step) -> bool {
    &&& step.answer is Err ==> step.project == project
    &&& project.editable() && laned(project) ==> laned(step.project)
}

proof fn lemma_media_orderly(project: ProjectView, counter: nat, command: Command)
    ensures
        orderly(project, media_step(project, counter, command)),
{
    reveal(media_step);
}

proof fn lemma_add_clip_orderly(
    project: ProjectView,
    counter: nat,
    media_id: Seq<char>,
    track_id: Seq<char>,
    start: Number,
    ripple: bool,
)
    ensures
        orderly(project, adding_clip(project, counter, media_id, track_id, start, ripple)),
{
}

proof fn lemma_add_text_orderly(
    project: ProjectView,
    counter: nat,
    track_id: Option<Seq<char>>,
    above: bool,
    start: Number,
    style: Option<StyleView>,
    duration: Option<Number>,
    offset_y: Option<Number>,
)
    ensures
        orderly(
            project,
            adding_text(project, counter, track_id, above, start, style, duration, offset_y),
        ),
{
}

proof fn lemma_add_layer_orderly(
    project: ProjectView,
    counter: nat,
    track_id: Option<Seq<char>>,
    start: Number,
    duration: Option<Number>,
    effect_id: Seq<char>,
    name: Seq<char>,
)
    ensures
        orderly(
            project,
            adding_layer(project, counter, track_id, start, duration, effect_id, name),
        ),
{
}

proof fn lemma_replace_media_orderly(
    project: ProjectView,
    counter: nat,
    clip_id: Seq<char>,
    item: NewMediaView,
    source_start: Option<Number>,
)
    ensures
        orderly(project, replacing_media(project, counter, clip_id, item, source_start)),
{
}

proof fn lemma_placing_orderly(project: ProjectView, counter: nat, command: Command)
    ensures
        orderly(project, placing_step(project, counter, command)),
{
    reveal(placing_step);
    match command {
        Command::AddClip { media_id, track_id, start, ripple } => {
            lemma_add_clip_orderly(project, counter, media_id@, track_id@, start, ripple);
        },
        Command::AddTextClip { track_id, above, start, style, duration, offset_y } => {
            lemma_add_text_orderly(
                project,
                counter,
                text_of(track_id),
                above,
                start,
                style_of(style),
                duration,
                offset_y,
            );
        },
        Command::AddLayerClip { track_id, start, duration, effect_id, name } => {
            lemma_add_layer_orderly(
                project,
                counter,
                text_of(track_id),
                start,
                duration,
                effect_id@,
                name@,
            );
        },
        Command::ReplaceClipMedia { clip_id, item, source_start } => {
            lemma_replace_media_orderly(project, counter, clip_id@, item@, source_start);
        },
        _ => {},
    }
}

proof fn lemma_cutting_orderly(
    project: ProjectView,
    counter: nat,
    command: Command,
    ride: Ride,
)
    ensures
        orderly(project, cutting_step(project, counter, command, ride)),
{
    reveal(cutting_step);
}

proof fn lemma_look_orderly(project: ProjectView, counter: nat, command: Command)
    ensures
        orderly(project, look_step(project, counter, command)),
{
    reveal(look_step);
}

proof fn lemma_keys_orderly(project: ProjectView, counter: nat, command: Command)
    ensures
        orderly(project, keys_step(project, counter, command)),
{
    reveal(keys_step);
}

proof fn lemma_lanes_orderly(project: ProjectView, counter: nat, command: Command)
    ensures
        orderly(project, lanes_step(project, counter, command)),
{
    reveal(lanes_step);
}

proof fn lemma_tabs_orderly(project: ProjectView, counter: nat, command: Command)
    ensures
        orderly(project, tabs_step(project, counter, command)),
{
    reveal(tabs_step);
}

proof fn lemma_orderly(project: ProjectView, counter: nat, command: Command, ride: Ride)
    ensures
        orderly(project, stepped(project, counter, command, ride)),
    decreases command, 0nat,
{
    match command {
        Command::Batch { commands } => {
            if command.all_finite() {
                lemma_run_orderly(project, counter, commands@, commands@.len(), ride);
            }
        },
        _ => {
            lemma_media_orderly(project, counter, command);
            lemma_placing_orderly(project, counter, command);
            lemma_cutting_orderly(project, counter, command, ride);
            lemma_look_orderly(project, counter, command);
            lemma_keys_orderly(project, counter, command);
            lemma_lanes_orderly(project, counter, command);
            lemma_tabs_orderly(project, counter, command);
        },
    }
}

proof fn lemma_run_orderly(
    project: ProjectView,
    counter: nat,
    commands: Seq<Command>,
    n: nat,
    ride: Ride,
)
    requires
        n <= commands.len(),
    ensures
        project.editable() && laned(project) ==> laned(
            ran(project, counter, commands, n, ride).project,
        ),
    decreases commands, n,
{
    if n > 0 {
        let sofar = ran(project, counter, commands, (n - 1) as nat, ride);
        lemma_run_orderly(project, counter, commands, (n - 1) as nat, ride);
        if project.editable() {
            lemma_run_stays_editable(project, counter, commands, (n - 1) as nat, ride);
        }
        lemma_orderly(sofar.project, sofar.counter, commands[n - 1], ride);
    }
}

/// A command that is refused leaves the project as it was. A batch is no
/// exception: where one of its commands is refused, none of them has happened.
pub proof fn lemma_refusal_changes_nothing(
    project: ProjectView,
    counter: nat,
    command: Command,
    ride: Ride,
)
    requires
        stepped(project, counter, command, ride).answer is Err,
    ensures
        stepped(project, counter, command, ride).project == project,
{
    lemma_orderly(project, counter, command, ride);
}

/// No command takes the last lane of a timeline, nor the last timeline.
pub proof fn lemma_a_lane_is_left(
    project: ProjectView,
    counter: nat,
    command: Command,
    ride: Ride,
)
    requires
        project.editable(),
        laned(project),
    ensures
        stepped(project, counter, command, ride).project.editable(),
        laned(stepped(project, counter, command, ride).project),
{
    lemma_stays_editable(project, counter, command, ride);
    lemma_orderly(project, counter, command, ride);
}

/// A number that is not finite is refused before anything is touched, however
/// deep in a batch it stands.
pub proof fn lemma_a_number_is_finite_or_refused(
    project: ProjectView,
    counter: nat,
    commands: Vec<Command>,
    k: int,
    ride: Ride,
)
    requires
        0 <= k < commands.len(),
        !commands[k].all_finite(),
    ensures
        stepped(project, counter, commands[k], ride) == Step::refused(
            project,
            counter,
            Refusal::NotANumber,
        ),
        stepped(project, counter, Command::Batch { commands }, ride) == Step::refused(
            project,
            counter,
            Refusal::NotANumber,
        ),
{
}

/// What the `k`th command of a run does, from where those before it left off.
pub open spec fn member(
    project: ProjectView,
    counter: nat,
    commands: Seq<Command>,
    k: int,
    ride: Ride,
) -> Step {
    let sofar = ran(project, counter, commands, k as nat, ride);
    stepped(sofar.project, sofar.counter, commands[k], ride)
}

proof fn lemma_run(
    project: ProjectView,
    counter: nat,
    commands: Seq<Command>,
    n: nat,
    ride: Ride,
)
    requires
        n <= commands.len(),
    ensures
        match ran(project, counter, commands, n, ride).answer {
            Ok(outcome) => {
                &&& forall|k: int|
                    0 <= k < n ==> (#[trigger] member(project, counter, commands, k, ride)).answer is Ok
                &&& outcome.applied == exists|k: int|
                    0 <= k < n && (#[trigger] member(
                        project,
                        counter,
                        commands,
                        k,
                        ride,
                    )).answer->Ok_0.applied
            },
            Err(why) => exists|k: int|
                0 <= k < n && (#[trigger] member(project, counter, commands, k, ride)).answer
                    == Err::<OutcomeView, Refusal>(why),
        },
    decreases n,
{
    if n > 0 {
        lemma_run(project, counter, commands, (n - 1) as nat, ride);
        let last = member(project, counter, commands, n - 1, ride);
        assert(last == stepped(
            ran(project, counter, commands, (n - 1) as nat, ride).project,
            ran(project, counter, commands, (n - 1) as nat, ride).counter,
            commands[n - 1],
            ride,
        ));
    }
}

/// A batch answers as its commands do, one after another: with the first
/// refusal, or, where none is refused, having changed something exactly if one
/// of them has.
pub proof fn lemma_a_batch_answers_for_its_commands(
    project: ProjectView,
    counter: nat,
    commands: Vec<Command>,
    ride: Ride,
)
    requires
        (Command::Batch { commands }).all_finite(),
    ensures
        match stepped(project, counter, Command::Batch { commands }, ride).answer {
            Ok(outcome) => {
                &&& forall|k: int|
                    0 <= k < commands.len() ==> (#[trigger] member(
                        project,
                        counter,
                        commands@,
                        k,
                        ride,
                    )).answer is Ok
                &&& outcome.applied == exists|k: int|
                    0 <= k < commands.len() && (#[trigger] member(
                        project,
                        counter,
                        commands@,
                        k,
                        ride,
                    )).answer->Ok_0.applied
            },
            Err(why) => exists|k: int|
                0 <= k < commands.len() && (#[trigger] member(
                    project,
                    counter,
                    commands@,
                    k,
                    ride,
                )).answer == Err::<OutcomeView, Refusal>(why),
        },
{
    lemma_run(project, counter, commands@, commands@.len(), ride);
}

} // verus!
