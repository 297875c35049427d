//! Applying a command: the one place each one's meaning is chosen.

use crate::commands::audio::{detach_audio, detaching, reattach_audio, reattaching};
use crate::commands::clips::{
    add_clip, add_clip_at_first_free, add_layer_clip, add_text_clip, adding_clip,
    adding_clip_anywhere, adding_layer, adding_text, move_clips, moving_clips, replace_clip_media,
    replacing_media,
};
use crate::commands::command::{Command, CommandError, Outcome, OutcomeView, Refusal};
use crate::commands::cuts::{
    freeze_frame, freezing, ids_of, split_clips, splitting, trim_clip, trimming,
};
use crate::commands::joins::{merge_clips, merging};
use crate::commands::media::{
    add_font, add_media, adding_font, adding_media, fill_slot, filling_slot, marking_slot,
    relinking, remove_font, remove_media, removing_font, removing_media, set_media_color_range,
    set_media_placeholder, setting_levels, update_media_path,
};
use crate::commands::mint::IdMint;
use crate::commands::properties::{
    add_cutout_stroke, clear_clip_key, clear_clip_keys, clear_effect_key, clear_effect_keys, keying,
    keying_effect, painting, placing, set_clip_cutout, set_clip_key, set_clip_speed,
    set_clip_speed_curve, set_clip_transform, set_effect_key, setting_curve, setting_cutout,
    setting_speed, unkeying, unkeying_all, unkeying_effect, unkeying_effect_all, update_clip,
    updating_clip, Placement,
};
use crate::commands::removal::{remove_clips, removing};
use crate::commands::step::Step;
use crate::commands::timelines::{
    add_timeline, adding_timeline, move_timeline, remove_timeline, removing_timeline,
    rename_timeline, renaming, reordering, select_timeline, selecting, set_timeline_video,
    setting_video,
};
use crate::commands::tracks::{
    add_track, adding_track, flagging_track, remove_track, removing_track, set_track_flag,
};
use crate::model::clip::{cutout_of, style_of};
use crate::model::keys::ParamKey;
use crate::model::media::{text_of, NewMedia, NewMediaView};
use crate::model::project::{Project, ProjectView};
use crate::model::ride::{plays, ride_of, Ride};
use crate::number::Number;
use vstd::prelude::*;

verus! {

pub open spec fn still_of(still: Option<NewMedia>) -> Option<NewMediaView> {
    match still {
        Some(item) => Some(item@),
        None => None,
    }
}

/// Whether a command is about the bin and the fonts.
pub open spec fn is_media(command: Command) -> bool {
    command is AddMedia
        || command is RemoveMedia
        || command is SetMediaPlaceholder
        || command is FillSlot
        || command is AddFont
        || command is RemoveFont
        || command is UpdateMediaPath
        || command is SetMediaColorRange
}

/// What a command about the bin and the fonts does.
#[verifier::opaque]
pub open spec fn media_step(
    project: ProjectView,
    counter: nat,
    command: Command,
) -> Step {
    match command {
        Command::AddMedia { item } => adding_media(project, counter, item@),
        Command::RemoveMedia { media_id } => removing_media(project, counter, media_id@),
        Command::SetMediaPlaceholder { media_id, placeholder } => marking_slot(
            project,
            counter,
            media_id@,
            placeholder,
        ),
        Command::FillSlot { media_id, item } => filling_slot(
            project,
            counter,
            media_id@,
            item@,
        ),
        Command::AddFont { family, path } => adding_font(project, counter, family@, path@),
        Command::RemoveFont { family } => removing_font(project, counter, family@),
        Command::UpdateMediaPath { media_id, new_path } => relinking(
            project,
            counter,
            media_id@,
            new_path@,
        ),
        Command::SetMediaColorRange { media_id, range } => setting_levels(
            project,
            counter,
            media_id@,
            range,
        ),
        _ => Step::nothing(project, counter),
    }
}

proof fn lemma_media_editable(
    project: ProjectView,
    counter: nat,
    command: Command,
)
    requires
        project.editable(),
    ensures
        media_step(project, counter, command).project.editable(),
{
    reveal(media_step);
}

fn apply_media(
    project: &mut Project,
    mint: &mut IdMint,
    command: Command,
) -> (r: Result<Outcome, CommandError>)
    requires
        is_media(command),
        old(project)@.editable(),
    ensures
        media_step(old(project)@, old(mint)@, command).is(
            final(project)@,
            final(mint)@,
            r,
        ),
{
    proof {
        reveal(media_step);
    }
    match command {
        Command::AddMedia { item } => add_media(project, mint, item),
        Command::RemoveMedia { media_id } => remove_media(project, mint, media_id),
        Command::SetMediaPlaceholder { media_id, placeholder } => set_media_placeholder(
            project,
            mint,
            media_id.as_str(),
            placeholder,
        ),
        Command::FillSlot { media_id, item } => fill_slot(project, mint, media_id, item),
        Command::AddFont { family, path } => add_font(project, mint, family, path),
        Command::RemoveFont { family } => remove_font(project, mint, family),
        Command::UpdateMediaPath { media_id, new_path } => update_media_path(
            project,
            mint,
            media_id.as_str(),
            new_path,
        ),
        Command::SetMediaColorRange { media_id, range } => set_media_color_range(
            project,
            mint,
            media_id.as_str(),
            range,
        ),
        _ => Ok(Outcome::default()),
    }
}

/// Whether a command is about placing and moving clips.
pub open spec fn is_placing(command: Command) -> bool {
    command is AddClip
        || command is AddClipAtFirstFree
        || command is AddTextClip
        || command is AddLayerClip
        || command is MoveClips
        || command is ReplaceClipMedia
}

/// What a command about placing and moving clips does.
#[verifier::opaque]
pub open spec fn placing_step(
    project: ProjectView,
    counter: nat,
    command: Command,
) -> Step {
    match command {
        Command::AddClip { media_id, track_id, start, ripple } => adding_clip(
            project,
            counter,
            media_id@,
            track_id@,
            start,
            ripple,
        ),
        Command::AddClipAtFirstFree { media_id, start } => adding_clip_anywhere(
            project,
            counter,
            media_id@,
            start,
        ),
        Command::AddTextClip { track_id, above, start, style, duration, offset_y } =>
        adding_text(
            project,
            counter,
            text_of(track_id),
            above,
            start,
            style_of(style),
            duration,
            offset_y,
        ),
        Command::AddLayerClip { track_id, start, duration, effect_id, name } => adding_layer(
            project,
            counter,
            text_of(track_id),
            start,
            duration,
            effect_id@,
            name@,
        ),
        Command::MoveClips { moves } => moving_clips(project, counter, moves@),
        Command::ReplaceClipMedia { clip_id, item, source_start } => replacing_media(
            project,
            counter,
            clip_id@,
            item@,
            source_start,
        ),
        _ => Step::nothing(project, counter),
    }
}

proof fn lemma_placing_editable(
    project: ProjectView,
    counter: nat,
    command: Command,
)
    requires
        project.editable(),
    ensures
        placing_step(project, counter, command).project.editable(),
{
    reveal(placing_step);
}

fn apply_placing(
    project: &mut Project,
    mint: &mut IdMint,
    command: Command,
) -> (r: Result<Outcome, CommandError>)
    requires
        is_placing(command),
        old(project)@.editable(),
    ensures
        placing_step(old(project)@, old(mint)@, command).is(
            final(project)@,
            final(mint)@,
            r,
        ),
{
    proof {
        reveal(placing_step);
    }
    match command {
        Command::AddClip { media_id, track_id, start, ripple } => add_clip(
            project,
            mint,
            media_id.as_str(),
            track_id,
            start,
            ripple,
        ),
        Command::AddClipAtFirstFree { media_id, start } => add_clip_at_first_free(
            project,
            mint,
            media_id.as_str(),
            start,
        ),
        Command::AddTextClip { track_id, above, start, style, duration, offset_y } => add_text_clip(
            project,
            mint,
            track_id,
            above,
            start,
            style,
            duration,
            offset_y,
        ),
        Command::AddLayerClip { track_id, start, duration, effect_id, name } => add_layer_clip(
            project,
            mint,
            track_id,
            start,
            duration,
            effect_id,
            name,
        ),
        Command::MoveClips { moves } => move_clips(project, mint, moves),
        Command::ReplaceClipMedia { clip_id, item, source_start } => replace_clip_media(
            project,
            mint,
            clip_id.as_str(),
            item,
            source_start,
        ),
        _ => Ok(Outcome::default()),
    }
}

/// Whether a command is about cutting and joining clips.
pub open spec fn is_cutting(command: Command) -> bool {
    command is TrimClip
        || command is SplitClips
        || command is FreezeFrame
        || command is MergeClips
        || command is RemoveClips
}

/// What a command about cutting and joining clips does.
#[verifier::opaque]
pub open spec fn cutting_step(
    project: ProjectView,
    counter: nat,
    command: Command,
    ride: Ride,
) -> Step {
    match command {
        Command::TrimClip { clip_id, edge, delta, ripple } => trimming(
            project,
            counter,
            clip_id@,
            edge,
            delta,
            ripple,
            ride,
        ),
        Command::SplitClips { clip_ids, time } => splitting(
            project,
            counter,
            ids_of(clip_ids@),
            time,
            ride,
        ),
        Command::FreezeFrame { clip_id, time, duration, still } => freezing(
            project,
            counter,
            clip_id@,
            time,
            duration,
            still_of(still),
            ride,
        ),
        Command::MergeClips { clip_ids } => merging(project, counter, ids_of(clip_ids@), ride),
        Command::RemoveClips { clip_ids, ripple } => removing(
            project,
            counter,
            ids_of(clip_ids@),
            ripple,
        ),
        _ => Step::nothing(project, counter),
    }
}

proof fn lemma_cutting_editable(
    project: ProjectView,
    counter: nat,
    command: Command,
    ride: Ride,
)
    requires
        project.editable(),
    ensures
        cutting_step(project, counter, command, ride).project.editable(),
{
    reveal(cutting_step);
}

fn apply_cutting<F: Fn(&Vec<ParamKey>, Number, Number) -> Number>(
    project: &mut Project,
    mint: &mut IdMint,
    command: Command,
    engine: &F,
) -> (r: Result<Outcome, CommandError>)
    requires
        is_cutting(command),
        old(project)@.editable(),
        plays(*engine),
    ensures
        cutting_step(old(project)@, old(mint)@, command, ride_of(*engine)).is(
            final(project)@,
            final(mint)@,
            r,
        ),
{
    proof {
        reveal(cutting_step);
    }
    match command {
        Command::TrimClip { clip_id, edge, delta, ripple } => trim_clip(
            project,
            mint,
            clip_id,
            edge,
            delta,
            ripple,
            engine,
        ),
        Command::SplitClips { clip_ids, time } => split_clips(
            project,
            mint,
            clip_ids,
            time,
            engine,
        ),
        Command::FreezeFrame { clip_id, time, duration, still } => freeze_frame(
            project,
            mint,
            clip_id.as_str(),
            time,
            duration,
            still,
            engine,
        ),
        Command::MergeClips { clip_ids } => merge_clips(project, mint, &clip_ids, engine),
        Command::RemoveClips { clip_ids, ripple } => remove_clips(project, mint, &clip_ids, ripple),
        _ => Ok(Outcome::default()),
    }
}

/// Whether a command is about what a placed clip looks and sounds like.
pub open spec fn is_look(command: Command) -> bool {
    command is UpdateClip
        || command is SetClipSpeed
        || command is SetClipSpeedCurve
        || command is SetClipCutout
        || command is AddCutoutStroke
        || command is SetClipTransform
}

/// What a command about what a placed clip looks and sounds like does.
#[verifier::opaque]
pub open spec fn look_step(
    project: ProjectView,
    counter: nat,
    command: Command,
) -> Step {
    match command {
        Command::UpdateClip { clip_id, patch } => updating_clip(
            project,
            counter,
            clip_id@,
            patch,
        ),
        Command::SetClipSpeed { clip_id, speed } => setting_speed(
            project,
            counter,
            clip_id@,
            speed,
        ),
        Command::SetClipSpeedCurve { clip_id, curve, mean } => setting_curve(
            project,
            counter,
            clip_id@,
            curve,
            mean,
        ),
        Command::SetClipCutout { clip_id, cutout } => setting_cutout(
            project,
            counter,
            clip_id@,
            cutout_of(cutout),
        ),
        Command::AddCutoutStroke { clip_id, stroke } => painting(
            project,
            counter,
            clip_id@,
            stroke@,
        ),
        Command::SetClipTransform {
            clip_id,
            scale,
            offset_x,
            offset_y,
            rotation,
            stretch_x,
            stretch_y,
        } => placing(
            project,
            counter,
            clip_id@,
            Placement { scale, offset_x, offset_y, rotation, stretch_x, stretch_y },
        ),
        _ => Step::nothing(project, counter),
    }
}

proof fn lemma_look_editable(
    project: ProjectView,
    counter: nat,
    command: Command,
)
    requires
        project.editable(),
    ensures
        look_step(project, counter, command).project.editable(),
{
    reveal(look_step);
}

fn apply_look(
    project: &mut Project,
    mint: &mut IdMint,
    command: Command,
) -> (r: Result<Outcome, CommandError>)
    requires
        is_look(command),
        old(project)@.editable(),
    ensures
        look_step(old(project)@, old(mint)@, command).is(
            final(project)@,
            final(mint)@,
            r,
        ),
{
    proof {
        reveal(look_step);
    }
    match command {
        Command::UpdateClip { clip_id, patch } => update_clip(
            project,
            mint,
            clip_id.as_str(),
            patch,
        ),
        Command::SetClipSpeed { clip_id, speed } => set_clip_speed(
            project,
            mint,
            clip_id.as_str(),
            speed,
        ),
        Command::SetClipSpeedCurve { clip_id, curve, mean } => set_clip_speed_curve(
            project,
            mint,
            clip_id.as_str(),
            curve,
            mean,
        ),
        Command::SetClipCutout { clip_id, cutout } => set_clip_cutout(
            project,
            mint,
            clip_id.as_str(),
            cutout,
        ),
        Command::AddCutoutStroke { clip_id, stroke } => add_cutout_stroke(
            project,
            mint,
            clip_id.as_str(),
            stroke,
        ),
        Command::SetClipTransform {
            clip_id,
            scale,
            offset_x,
            offset_y,
            rotation,
            stretch_x,
            stretch_y,
        } => set_clip_transform(
            project,
            mint,
            clip_id.as_str(),
            Placement { scale, offset_x, offset_y, rotation, stretch_x, stretch_y },
        ),
        _ => Ok(Outcome::default()),
    }
}

/// Whether a command is about a clip's keys and its effects'.
pub open spec fn is_keys(command: Command) -> bool {
    command is SetClipKey
        || command is ClearClipKey
        || command is ClearClipKeys
        || command is SetEffectKey
        || command is ClearEffectKey
        || command is ClearEffectKeys
}

/// What a command about a clip's keys and its effects' does.
#[verifier::opaque]
pub open spec fn keys_step(
    project: ProjectView,
    counter: nat,
    command: Command,
) -> Step {
    match command {
        Command::SetClipKey { clip_id, property, at, value, ease } => keying(
            project,
            counter,
            clip_id@,
            property,
            at,
            value,
            ease,
        ),
        Command::ClearClipKey { clip_id, property, at } => unkeying(
            project,
            counter,
            clip_id@,
            property,
            at,
        ),
        Command::ClearClipKeys { clip_id, property } => unkeying_all(
            project,
            counter,
            clip_id@,
            property,
        ),
        Command::SetEffectKey { clip_id, entry, key, at, value, ease } => keying_effect(
            project,
            counter,
            clip_id@,
            entry as int,
            key@,
            at,
            value,
            ease,
        ),
        Command::ClearEffectKey { clip_id, entry, key, at } => unkeying_effect(
            project,
            counter,
            clip_id@,
            entry as int,
            key@,
            at,
        ),
        Command::ClearEffectKeys { clip_id, entry, key } => unkeying_effect_all(
            project,
            counter,
            clip_id@,
            entry as int,
            key@,
        ),
        _ => Step::nothing(project, counter),
    }
}

proof fn lemma_keys_editable(
    project: ProjectView,
    counter: nat,
    command: Command,
)
    requires
        project.editable(),
    ensures
        keys_step(project, counter, command).project.editable(),
{
    reveal(keys_step);
}

fn apply_keys(
    project: &mut Project,
    mint: &mut IdMint,
    command: Command,
) -> (r: Result<Outcome, CommandError>)
    requires
        is_keys(command),
        old(project)@.editable(),
    ensures
        keys_step(old(project)@, old(mint)@, command).is(
            final(project)@,
            final(mint)@,
            r,
        ),
{
    proof {
        reveal(keys_step);
    }
    match command {
        Command::SetClipKey { clip_id, property, at, value, ease } => set_clip_key(
            project,
            mint,
            clip_id.as_str(),
            property,
            at,
            value,
            ease,
        ),
        Command::ClearClipKey { clip_id, property, at } => clear_clip_key(
            project,
            mint,
            clip_id.as_str(),
            property,
            at,
        ),
        Command::ClearClipKeys { clip_id, property } => clear_clip_keys(
            project,
            mint,
            clip_id.as_str(),
            property,
        ),
        Command::SetEffectKey { clip_id, entry, key, at, value, ease } => set_effect_key(
            project,
            mint,
            clip_id.as_str(),
            entry,
            key.as_str(),
            at,
            value,
            ease,
        ),
        Command::ClearEffectKey { clip_id, entry, key, at } => clear_effect_key(
            project,
            mint,
            clip_id.as_str(),
            entry,
            key.as_str(),
            at,
        ),
        Command::ClearEffectKeys { clip_id, entry, key } => clear_effect_keys(
            project,
            mint,
            clip_id.as_str(),
            entry,
            key.as_str(),
        ),
        _ => Ok(Outcome::default()),
    }
}

/// Whether a command is about sounds and lanes.
pub open spec fn is_lanes(command: Command) -> bool {
    command is DetachAudio
        || command is ReattachAudio
        || command is AddTrack
        || command is RemoveTrack
        || command is SetTrackFlag
}

/// What a command about sounds and lanes does.
#[verifier::opaque]
pub open spec fn lanes_step(
    project: ProjectView,
    counter: nat,
    command: Command,
) -> Step {
    match command {
        Command::DetachAudio { clip_id } => detaching(project, counter, clip_id@),
        Command::ReattachAudio { clip_id } => reattaching(project, counter, clip_id@),
        Command::AddTrack => adding_track(project, counter),
        Command::RemoveTrack { track_id } => removing_track(project, counter, track_id@),
        Command::SetTrackFlag { track_id, flag, value } => flagging_track(
            project,
            counter,
            track_id@,
            flag,
            value,
        ),
        _ => Step::nothing(project, counter),
    }
}

proof fn lemma_lanes_editable(
    project: ProjectView,
    counter: nat,
    command: Command,
)
    requires
        project.editable(),
    ensures
        lanes_step(project, counter, command).project.editable(),
{
    reveal(lanes_step);
}

fn apply_lanes(
    project: &mut Project,
    mint: &mut IdMint,
    command: Command,
) -> (r: Result<Outcome, CommandError>)
    requires
        is_lanes(command),
        old(project)@.editable(),
    ensures
        lanes_step(old(project)@, old(mint)@, command).is(
            final(project)@,
            final(mint)@,
            r,
        ),
{
    proof {
        reveal(lanes_step);
    }
    match command {
        Command::DetachAudio { clip_id } => detach_audio(project, mint, clip_id.as_str()),
        Command::ReattachAudio { clip_id } => reattach_audio(project, mint, clip_id),
        Command::AddTrack => add_track(project, mint),
        Command::RemoveTrack { track_id } => remove_track(project, mint, track_id),
        Command::SetTrackFlag { track_id, flag, value } => set_track_flag(
            project,
            mint,
            track_id.as_str(),
            flag,
            value,
        ),
        _ => Ok(Outcome::default()),
    }
}

/// Whether a command is about timelines.
pub open spec fn is_tabs(command: Command) -> bool {
    command is AddTimeline
        || command is RemoveTimeline
        || command is SetTimelineVideo
        || command is RenameTimeline
        || command is SelectTimeline
        || command is MoveTimeline
}

/// What a command about timelines does.
#[verifier::opaque]
pub open spec fn tabs_step(
    project: ProjectView,
    counter: nat,
    command: Command,
) -> Step {
    match command {
        Command::AddTimeline => adding_timeline(project, counter),
        Command::RemoveTimeline { timeline_id } => removing_timeline(
            project,
            counter,
            timeline_id@,
        ),
        Command::SetTimelineVideo { timeline_id, video } => setting_video(
            project,
            counter,
            timeline_id@,
            video,
        ),
        Command::RenameTimeline { timeline_id, name } => renaming(
            project,
            counter,
            timeline_id@,
            name@,
        ),
        Command::SelectTimeline { timeline_id } => selecting(project, counter, timeline_id@),
        Command::MoveTimeline { timeline_id, index } => reordering(
            project,
            counter,
            timeline_id@,
            index as nat,
        ),
        _ => Step::nothing(project, counter),
    }
}

proof fn lemma_tabs_editable(
    project: ProjectView,
    counter: nat,
    command: Command,
)
    requires
        project.editable(),
    ensures
        tabs_step(project, counter, command).project.editable(),
{
    reveal(tabs_step);
}

fn apply_tabs(
    project: &mut Project,
    mint: &mut IdMint,
    command: Command,
) -> (r: Result<Outcome, CommandError>)
    requires
        is_tabs(command),
        old(project)@.editable(),
    ensures
        tabs_step(old(project)@, old(mint)@, command).is(
            final(project)@,
            final(mint)@,
            r,
        ),
{
    proof {
        reveal(tabs_step);
    }
    match command {
        Command::AddTimeline => add_timeline(project, mint),
        Command::RemoveTimeline { timeline_id } => remove_timeline(project, mint, timeline_id),
        Command::SetTimelineVideo { timeline_id, video } => set_timeline_video(
            project,
            mint,
            timeline_id.as_str(),
            video,
        ),
        Command::RenameTimeline { timeline_id, name } => rename_timeline(
            project,
            mint,
            timeline_id.as_str(),
            name.as_str(),
        ),
        Command::SelectTimeline { timeline_id } => select_timeline(project, mint, timeline_id),
        Command::MoveTimeline { timeline_id, index } => move_timeline(
            project,
            mint,
            timeline_id.as_str(),
            index,
        ),
        _ => Ok(Outcome::default()),
    }
}

/// Which part of the document a command is about.
enum Kind {
    Media,
    Placing,
    Cutting,
    Look,
    Keys,
    Lanes,
    Tabs,
}

fn kind_of(command: &Command) -> (r: Kind)
    requires
        !(command is Batch),
    ensures
        match r {
            Kind::Media => is_media(*command),
            Kind::Placing => is_placing(*command),
            Kind::Cutting => is_cutting(*command),
            Kind::Look => is_look(*command),
            Kind::Keys => is_keys(*command),
            Kind::Lanes => is_lanes(*command),
            Kind::Tabs => is_tabs(*command),
        },
{
    match command {
        Command::AddMedia { .. } => Kind::Media,
        Command::RemoveMedia { .. } => Kind::Media,
        Command::SetMediaPlaceholder { .. } => Kind::Media,
        Command::FillSlot { .. } => Kind::Media,
        Command::AddFont { .. } => Kind::Media,
        Command::RemoveFont { .. } => Kind::Media,
        Command::UpdateMediaPath { .. } => Kind::Media,
        Command::SetMediaColorRange { .. } => Kind::Media,
        Command::AddClip { .. } => Kind::Placing,
        Command::AddClipAtFirstFree { .. } => Kind::Placing,
        Command::AddTextClip { .. } => Kind::Placing,
        Command::AddLayerClip { .. } => Kind::Placing,
        Command::MoveClips { .. } => Kind::Placing,
        Command::ReplaceClipMedia { .. } => Kind::Placing,
        Command::TrimClip { .. } => Kind::Cutting,
        Command::SplitClips { .. } => Kind::Cutting,
        Command::FreezeFrame { .. } => Kind::Cutting,
        Command::MergeClips { .. } => Kind::Cutting,
        Command::RemoveClips { .. } => Kind::Cutting,
        Command::UpdateClip { .. } => Kind::Look,
        Command::SetClipSpeed { .. } => Kind::Look,
        Command::SetClipSpeedCurve { .. } => Kind::Look,
        Command::SetClipCutout { .. } => Kind::Look,
        Command::AddCutoutStroke { .. } => Kind::Look,
        Command::SetClipTransform { .. } => Kind::Look,
        Command::SetClipKey { .. } => Kind::Keys,
        Command::ClearClipKey { .. } => Kind::Keys,
        Command::ClearClipKeys { .. } => Kind::Keys,
        Command::SetEffectKey { .. } => Kind::Keys,
        Command::ClearEffectKey { .. } => Kind::Keys,
        Command::ClearEffectKeys { .. } => Kind::Keys,
        Command::DetachAudio { .. } => Kind::Lanes,
        Command::ReattachAudio { .. } => Kind::Lanes,
        Command::AddTrack => Kind::Lanes,
        Command::RemoveTrack { .. } => Kind::Lanes,
        Command::SetTrackFlag { .. } => Kind::Lanes,
        _ => Kind::Tabs,
    }
}

/// What a command does. A number that is not finite is refused before anything
/// else is looked at.
pub open spec fn stepped(project: ProjectView, counter: nat, command: Command, ride: Ride) -> Step
    decreases command, 0nat,
{
    if !command.all_finite() {
        Step::refused(project, counter, Refusal::NotANumber)
    } else {
        match command {
            Command::Batch { commands } => batched(
                project,
                ran(project, counter, commands@, commands@.len(), ride),
            ),
            _ => if is_media(command) {
                media_step(project, counter, command)
            } else if is_placing(command) {
                placing_step(project, counter, command)
            } else if is_cutting(command) {
                cutting_step(project, counter, command, ride)
            } else if is_look(command) {
                look_step(project, counter, command)
            } else if is_keys(command) {
                keys_step(project, counter, command)
            } else if is_lanes(command) {
                lanes_step(project, counter, command)
            } else {
                tabs_step(project, counter, command)
            },
        }
    }
}

/// What the first `n` of these commands do one after another, up to the first
/// that is refused. The answer carries the last id minted, and whether any of
/// them changed anything.
pub open spec fn ran(
    project: ProjectView,
    counter: nat,
    commands: Seq<Command>,
    n: nat,
    ride: Ride,
) -> Step
    decreases commands, n,
    when n <= commands.len()
{
    if n == 0 {
        Step::nothing(project, counter)
    } else {
        let sofar = ran(project, counter, commands, (n - 1) as nat, ride);
        match sofar.answer {
            Err(why) => sofar,
            Ok(outcome) => {
                let next = stepped(sofar.project, sofar.counter, commands[n - 1], ride);
                match next.answer {
                    Err(why) => Step::refused(sofar.project, next.counter, why),
                    Ok(more) => Step {
                        project: next.project,
                        counter: next.counter,
                        answer: Ok(
                            OutcomeView {
                                created_id: if more.created_id is Some {
                                    more.created_id
                                } else {
                                    outcome.created_id
                                },
                                applied: outcome.applied || more.applied,
                            },
                        ),
                    },
                }
            },
        }
    }
}

/// A run of commands as one: all of it, or, where one was refused, none.
pub open spec fn batched(project: ProjectView, run: Step) -> Step {
    match run.answer {
        Ok(outcome) => run,
        Err(why) => Step::refused(project, run.counter, why),
    }
}

proof fn lemma_ran_failed(
    project: ProjectView,
    counter: nat,
    commands: Seq<Command>,
    k: nat,
    n: nat,
    ride: Ride,
)
    requires
        k <= n <= commands.len(),
        ran(project, counter, commands, k, ride).answer is Err,
    ensures
        ran(project, counter, commands, n, ride) == ran(project, counter, commands, k, ride),
    decreases n,
{
    if k < n {
        lemma_ran_failed(project, counter, commands, k, (n - 1) as nat, ride);
    }
}

/// A command keeps a timeline to edit.
pub proof fn lemma_stays_editable(
    project: ProjectView,
    counter: nat,
    command: Command,
    ride: Ride,
)
    requires
        project.editable(),
    ensures
        stepped(project, counter, command, ride).project.editable(),
    decreases command, 0nat,
{
    match command {
        Command::Batch { commands } => {
            if command.all_finite() {
                lemma_run_stays_editable(project, counter, commands@, commands@.len(), ride);
            }
        },
        _ => {
            lemma_media_editable(project, counter, command);
            lemma_placing_editable(project, counter, command);
            lemma_cutting_editable(project, counter, command, ride);
            lemma_look_editable(project, counter, command);
            lemma_keys_editable(project, counter, command);
            lemma_lanes_editable(project, counter, command);
            lemma_tabs_editable(project, counter, command);
        },
    }
}

pub proof fn lemma_run_stays_editable(
    project: ProjectView,
    counter: nat,
    commands: Seq<Command>,
    n: nat,
    ride: Ride,
)
    requires
        project.editable(),
        n <= commands.len(),
    ensures
        ran(project, counter, commands, n, ride).project.editable(),
    decreases commands, n,
{
    if n > 0 {
        lemma_run_stays_editable(project, counter, commands, (n - 1) as nat, ride);
        let sofar = ran(project, counter, commands, (n - 1) as nat, ride);
        lemma_stays_editable(sofar.project, sofar.counter, commands[n - 1], ride);
    }
}

/// Applies one command. Errors each have a sentence; a command that legitimately
/// does nothing returns no created id and reports that nothing was applied. The
/// engine is asked what a keyed property is worth where a cut needs a key of its
/// own.
pub fn apply<F: Fn(&Vec<ParamKey>, Number, Number) -> Number>(
    project: &mut Project,
    mint: &mut IdMint,
    command: Command,
    engine: &F,
) -> (r: Result<Outcome, CommandError>)
    requires
        old(project)@.editable(),
        plays(*engine),
    ensures
        stepped(old(project)@, old(mint)@, command, ride_of(*engine)).is(
            final(project)@,
            final(mint)@,
            r,
        ),
        final(project)@.editable(),
    decreases command,
{
    proof {
        lemma_stays_editable(project@, mint@, command, ride_of(*engine));
    }
    if command.has_non_finite() {
        return Err(CommandError::NotANumber);
    }
    let ghost whole = command;
    match command {
        Command::Batch { commands } => {
            // All or nothing: apply to a staged copy and commit only a fully
            // successful run, so one bad command cannot leave a half-applied
            // batch behind.
            let ghost start = project@;
            let ghost counter = mint@;
            let ghost list = commands@;
            let ghost ride = ride_of(*engine);
            let mut staged: Project = project.clone();
            let mut created: Option<String> = None;
            let mut applied: bool = false;
            for member in it: commands.into_iter()
                invariant
                    it.seq() == list,
                    whole == command,
                    whole == (Command::Batch { commands }),
                    list == commands@,
                    whole.all_finite(),
                    plays(*engine),
                    ride == ride_of(*engine),
                    start.editable(),
                    start == old(project)@,
                    project@ == start,
                    counter == old(mint)@,
                    staged@.editable(),
                    ({
                        let run = ran(start, counter, list, it.index() as nat, ride);
                        &&& run.project == staged@
                        &&& run.counter == mint@
                        &&& run.answer == Ok::<OutcomeView, Refusal>(
                            OutcomeView { created_id: text_of(created), applied },
                        )
                    }),
            {
                let ghost k = it.index() as nat;
                assert(member == list[k as int]);
                proof {
                    assert(whole->commands == commands);
                    assert(decreases_to!(whole => whole->commands));
                    assert(decreases_to!(commands => commands@));
                    assert(decreases_to!(list => list[k as int]));
                }
                match apply(&mut staged, mint, member, engine) {
                    Ok(outcome) => {
                        if outcome.created_id.is_some() {
                            created = outcome.created_id;
                        }
                        applied = applied || outcome.applied;
                    },
                    Err(error) => {
                        proof {
                            lemma_ran_failed(
                                start,
                                counter,
                                list,
                                (k + 1) as nat,
                                list.len(),
                                ride,
                            );
                        }
                        return Err(error);
                    },
                }
            }
            *project = staged;
            Ok(Outcome { created_id: created, applied })
        },
        command => match kind_of(&command) {
            Kind::Media => apply_media(project, mint, command),
            Kind::Placing => apply_placing(project, mint, command),
            Kind::Cutting => apply_cutting(project, mint, command, engine),
            Kind::Look => apply_look(project, mint, command),
            Kind::Keys => apply_keys(project, mint, command),
            Kind::Lanes => apply_lanes(project, mint, command),
            Kind::Tabs => apply_tabs(project, mint, command),
        },
    }
}

} // verus!
