//! What the tabs are called: no command leaves one blank.

use crate::commands::apply::{
    cutting_step, keys_step, lanes_step, lemma_run_stays_editable, look_step, media_step,
    placing_step, ran, stepped, tabs_step,
};
use crate::commands::audio::{lemma_placed_grows, sounds};
use crate::commands::clips::{adding_clip, adding_layer, adding_text, replacing_media};
use crate::commands::command::Command;
use crate::commands::step::Step;
use crate::commands::timelines::labels;
use crate::model::clip::style_of;
use crate::model::media::{text_of, NewMediaView};
use crate::model::project::ProjectView;
use crate::model::ride::Ride;
use crate::model::style::StyleView;
use crate::model::timeline::VideoSettings;
use crate::number::Number;
use crate::text::{blank, lemma_trimmed_is_not_blank, next_name, trimmed};
use vstd::prelude::*;

verus! {

/// Whether every timeline of a project is called something.
pub open spec fn named(project: ProjectView) -> bool {
    forall|i: int|
        0 <= i < project.timelines.len() ==> !blank((#[trigger] project.timelines[i]).name)
}

/// Whether a step leaves every timeline of a project the name it has, or one of
/// its own.
spec fn naming(project: ProjectView, step: Step) -> bool {
    project.editable() && named(project) ==> named(step.project)
}

proof fn lemma_media_naming(project: ProjectView, counter: nat, command: Command)
    ensures
        naming(project, media_step(project, counter, command)),
{
    reveal(media_step);
}

proof fn lemma_add_clip_naming(
    project: ProjectView,
    counter: nat,
    media_id: Seq<char>,
    track_id: Seq<char>,
    start: Number,
    ripple: bool,
)
    ensures
        naming(project, adding_clip(project, counter, media_id, track_id, start, ripple)),
{
}

proof fn lemma_add_text_naming(
    project: ProjectView,
    counter: nat,
    track_id: Option<Seq<char>>,
    above: bool,
    start: Number,
    style: Option<StyleView>,
    duration: Option<Number>,
    offset_y: Option<Number>,
)
    ensures
        naming(
            project,
            adding_text(project, counter, track_id, above, start, style, duration, offset_y),
        ),
{
}

proof fn lemma_add_layer_naming(
    project: ProjectView,
    counter: nat,
    track_id: Option<Seq<char>>,
    start: Number,
    duration: Option<Number>,
    effect_id: Seq<char>,
    name: Seq<char>,
)
    ensures
        naming(
            project,
            adding_layer(project, counter, track_id, start, duration, effect_id, name),
        ),
{
}

proof fn lemma_replace_media_naming(
    project: ProjectView,
    counter: nat,
    clip_id: Seq<char>,
    item: NewMediaView,
    source_start: Option<Number>,
)
    ensures
        naming(project, replacing_media(project, counter, clip_id, item, source_start)),
{
}

proof fn lemma_placing_naming(project: ProjectView, counter: nat, command: Command)
    ensures
        naming(project, placing_step(project, counter, command)),
{
    reveal(placing_step);
    match command {
        Command::AddClip { media_id, track_id, start, ripple } => {
            lemma_add_clip_naming(project, counter, media_id@, track_id@, start, ripple);
        },
        Command::AddTextClip { track_id, above, start, style, duration, offset_y } => {
            lemma_add_text_naming(
                project,
                counter,
                text_of(track_id),
                above,
                start,
                style_of(style),
                duration,
                offset_y,
            );
        },
        Command::AddLayerClip { track_id, start, duration, effect_id, name } => {
            lemma_add_layer_naming(
                project,
                counter,
                text_of(track_id),
                start,
                duration,
                effect_id@,
                name@,
            );
        },
        Command::ReplaceClipMedia { clip_id, item, source_start } => {
            lemma_replace_media_naming(project, counter, clip_id@, item@, source_start);
        },
        _ => {},
    }
}

proof fn lemma_cutting_naming(project: ProjectView, counter: nat, command: Command, ride: Ride)
    ensures
        naming(project, cutting_step(project, counter, command, ride)),
{
    reveal(cutting_step);
}

proof fn lemma_look_naming(project: ProjectView, counter: nat, command: Command)
    ensures
        naming(project, look_step(project, counter, command)),
{
    reveal(look_step);
}

proof fn lemma_keys_naming(project: ProjectView, counter: nat, command: Command)
    ensures
        naming(project, keys_step(project, counter, command)),
{
    reveal(keys_step);
}

proof fn lemma_lanes_naming(project: ProjectView, counter: nat, command: Command)
    ensures
        naming(project, lanes_step(project, counter, command)),
{
    reveal(lanes_step);
    match command {
        Command::DetachAudio { clip_id } => {
            let timeline = project.active();
            if let Some(i) = timeline.clip_index(clip_id@) {
                let clip = timeline.clips[i];
                if let Some(m) = project.media_index(clip.media_id) {
                    let wanted = sounds(clip, project.media[m].audio_tracks);
                    lemma_placed_grows(timeline, counter, clip, wanted);
                }
            }
        },
        _ => {},
    }
}

proof fn lemma_tabs_naming(project: ProjectView, counter: nat, command: Command)
    ensures
        naming(project, tabs_step(project, counter, command)),
{
    reveal(tabs_step);
    match command {
        Command::AddTimeline => {
            lemma_next_is_named(labels(project.timelines));
        },
        Command::RenameTimeline { timeline_id, name } => {
            if trimmed(name@).len() > 0 {
                lemma_trimmed_is_not_blank(name@);
            }
        },
        _ => {},
    }
}

proof fn lemma_next_is_named(names: Seq<Seq<char>>)
    ensures
        !blank(next_name("Timeline"@, names)),
{
    reveal_strlit("Timeline");
    assert(next_name("Timeline"@, names)[0] == 'T');
}

proof fn lemma_naming(project: ProjectView, counter: nat, command: Command, ride: Ride)
    ensures
        naming(project, stepped(project, counter, command, ride)),
    decreases command, 0nat,
{
    match command {
        Command::Batch { commands } => {
            if command.all_finite() {
                lemma_run_naming(project, counter, commands@, commands@.len(), ride);
            }
        },
        _ => {
            lemma_media_naming(project, counter, command);
            lemma_placing_naming(project, counter, command);
            lemma_cutting_naming(project, counter, command, ride);
            lemma_look_naming(project, counter, command);
            lemma_keys_naming(project, counter, command);
            lemma_lanes_naming(project, counter, command);
            lemma_tabs_naming(project, counter, command);
        },
    }
}

proof fn lemma_run_naming(
    project: ProjectView,
    counter: nat,
    commands: Seq<Command>,
    n: nat,
    ride: Ride,
)
    requires
        n <= commands.len(),
    ensures
        project.editable() && named(project) ==> named(
            ran(project, counter, commands, n, ride).project,
        ),
    decreases commands, n,
{
    if n > 0 {
        let sofar = ran(project, counter, commands, (n - 1) as nat, ride);
        lemma_run_naming(project, counter, commands, (n - 1) as nat, ride);
        if project.editable() {
            lemma_run_stays_editable(project, counter, commands, (n - 1) as nat, ride);
        }
        lemma_naming(sofar.project, sofar.counter, commands[n - 1], ride);
    }
}

/// No command leaves a tab blank.
pub proof fn lemma_a_tab_is_never_blank(
    project: ProjectView,
    counter: nat,
    command: Command,
    ride: Ride,
)
    requires
        project.editable(),
        named(project),
    ensures
        named(stepped(project, counter, command, ride).project),
{
    lemma_naming(project, counter, command, ride);
}

/// A fresh project's one tab is called something.
pub proof fn lemma_a_fresh_tab_is_named(video: VideoSettings)
    ensures
        named(ProjectView::fresh(video)),
{
    reveal_strlit("Timeline 1");
    assert("Timeline 1"@[0] == 'T');
}

} // verus!
