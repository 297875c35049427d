//! What a placed clip looks and sounds like: its patchable fields, speed,
//! transform, keys and cutout.

use crate::commands::command::{ClipPatch, CommandError, Outcome};
use crate::commands::mint::IdMint;
use crate::commands::step::Step;
use crate::model::clip::{
    copy_keys, crop_same, curve, curve_same, cutout_of, cutout_same, keys_of, keys_same,
    keys_without, same_crop, same_curve, same_cutout, same_keys, same_style, same_transition,
    style_of, style_same, tidied_crop, tidy_crop, transition_of, transition_same, Clip, ClipView,
};
use crate::model::filter::{
    chain, chain_same, runs_same, same_chain, same_runs, AppliedFilter, FilterView,
};
use crate::model::keys::{closest, reaches, run_reaches, ClipKey, KeyEase, KeyProperty, SpeedPoint};
use crate::model::media::text_of;
use crate::model::picture::{Crop, Cutout, CutoutMode, CutoutView, Stroke, StrokeView};
use crate::model::project::{Project, ProjectView};
use crate::model::style::{TextStyle, Transition};
use crate::model::timeline::{find_clip, Timeline};
use crate::number::{clamped, larger, num, product, quotient, Number, ONE, ZERO};
use crate::ranges::{
    wrap_rotation, wrapped, MAX_OFFSET, MAX_SCALE, MAX_SPEED, MAX_STRETCH, MIN_CLIP_DURATION,
    MIN_OFFSET, MIN_SCALE, MIN_SPEED, MIN_STRETCH,
};
use crate::text::{first_line, label};
use vstd::prelude::*;

verus! {

/// A field set to a value: a field that already holds the value keeps what it
/// holds.
pub open spec fn put(slot: Number, value: Number) -> Number {
    if slot.same(value) {
        slot
    } else {
        value
    }
}

/// Sets a field, reporting whether that changed anything. A field set to the
/// value it already holds must count as nothing happened, or the undo history
/// would record phantom edits.
pub fn assign(slot: &mut Number, value: Number) -> (r: bool)
    ensures
        r == !old(slot).same(value),
        *final(slot) == put(*old(slot), value),
{
    if slot.equals(value) {
        false
    } else {
        *slot = value;
        true
    }
}

/// One clip of the edited timeline written over.
pub open spec fn edited(
    project: ProjectView,
    counter: nat,
    index: int,
    clip: ClipView,
    applied: bool,
) -> Step {
    Step::changed(
        project.with_active(project.active().with_clip(index, clip)),
        counter,
        applied,
    )
}

/// An optional number put through a range into a field.
pub open spec fn put_some(slot: Number, value: Option<Number>) -> Number {
    match value {
        Some(v) => put(slot, v),
        None => slot,
    }
}

/// Whether an optional number changes a field.
pub open spec fn differs(slot: Number, value: Option<Number>) -> bool {
    match value {
        Some(v) => !slot.same(v),
        None => false,
    }
}

fn assign_some(slot: &mut Number, value: Option<Number>) -> (r: bool)
    ensures
        r == differs(*old(slot), value),
        *final(slot) == put_some(*old(slot), value),
{
    match value {
        Some(v) => assign(slot, v),
        None => false,
    }
}

pub open spec fn at_least_zero(value: Option<Number>) -> Option<Number> {
    match value {
        Some(v) => Some(larger(v, num(ZERO))),
        None => None,
    }
}

fn floor_at_zero(value: Option<Number>) -> (r: Option<Number>)
    ensures
        r == at_least_zero(value),
{
    match value {
        Some(v) => Some(v.max(num(ZERO))),
        None => None,
    }
}

pub open spec fn held_between(value: Option<Number>, low: Number, high: Number) -> Option<Number> {
    match value {
        Some(v) => Some(clamped(v, low, high)),
        None => None,
    }
}

fn hold_between(value: Option<Number>, low: Number, high: Number) -> (r: Option<Number>)
    ensures
        r == held_between(value, low, high),
{
    match value {
        Some(v) => Some(v.clamp(low, high)),
        None => None,
    }
}

pub open spec fn turned(value: Option<Number>) -> Option<Number> {
    match value {
        Some(v) => Some(wrapped(v)),
        None => None,
    }
}

fn turn(value: Option<Number>) -> (r: Option<Number>)
    ensures
        r == turned(value),
{
    match value {
        Some(v) => Some(wrap_rotation(v)),
        None => None,
    }
}

// A patch.

/// The name after a patch's own name.
pub open spec fn renamed(clip: ClipView, patch: ClipPatch) -> Seq<char> {
    match patch.name {
        Some(name) => name@,
        None => clip.name,
    }
}

/// The name after a patch: its title's first line, where it sets a title.
pub open spec fn retitled(clip: ClipView, patch: ClipPatch) -> Seq<char> {
    match patch.text {
        Some(Some(style)) => label(style@.content),
        _ => renamed(clip, patch),
    }
}

/// The silence after a patch. Unmuted is the absent value.
pub open spec fn silenced(clip: ClipView, patch: ClipPatch) -> Option<bool> {
    match patch.muted {
        Some(true) => Some(true),
        Some(false) => None,
        None => clip.muted,
    }
}

/// The blend after a patch. Normal is the empty name.
pub open spec fn blended(clip: ClipView, patch: ClipPatch) -> Seq<char> {
    match patch.blend {
        Some(name) => if name@ == "normal"@ {
            Seq::empty()
        } else {
            name@
        },
        None => clip.blend,
    }
}

pub open spec fn cropped(clip: ClipView, patch: ClipPatch) -> Option<Crop> {
    match patch.crop {
        Some(crop) => if crop_same(clip.crop, tidied_crop(crop)) {
            clip.crop
        } else {
            tidied_crop(crop)
        },
        None => clip.crop,
    }
}

pub open spec fn refiltered(held: Seq<FilterView>, sent: Option<Vec<AppliedFilter>>) -> Seq<
    FilterView,
> {
    match sent {
        Some(filters) => if chain_same(held, chain(filters@)) {
            held
        } else {
            chain(filters@)
        },
        None => held,
    }
}

pub open spec fn refilters(held: Seq<FilterView>, sent: Option<Vec<AppliedFilter>>) -> bool {
    match sent {
        Some(filters) => !chain_same(held, chain(filters@)),
        None => false,
    }
}

/// A clip with a patch's fields on it.
pub open spec fn patched(clip: ClipView, patch: ClipPatch) -> ClipView {
    ClipView {
        name: retitled(clip, patch),
        volume: put_some(clip.volume, at_least_zero(patch.volume)),
        fade_in: put_some(clip.fade_in, at_least_zero(patch.fade_in)),
        fade_out: put_some(clip.fade_out, at_least_zero(patch.fade_out)),
        opacity: put_some(clip.opacity, held_between(patch.opacity, num(ZERO), num(ONE))),
        preserve_pitch: match patch.preserve_pitch {
            Some(value) => value,
            None => clip.preserve_pitch,
        },
        muted: silenced(clip, patch),
        flip_h: match patch.flip_h {
            Some(value) => value,
            None => clip.flip_h,
        },
        flip_v: match patch.flip_v {
            Some(value) => value,
            None => clip.flip_v,
        },
        blend: blended(clip, patch),
        crop: cropped(clip, patch),
        filters: refiltered(clip.filters, patch.filters),
        video_effects: refiltered(clip.video_effects, patch.video_effects),
        transition_in: match patch.transition_in {
            Some(sent) => if transition_same(clip.transition_in, transition_of(sent)) {
                clip.transition_in
            } else {
                transition_of(sent)
            },
            None => clip.transition_in,
        },
        text: match patch.text {
            Some(sent) => if style_same(clip.text, style_of(sent)) {
                clip.text
            } else {
                style_of(sent)
            },
            None => clip.text,
        },
        audio_stream: match patch.audio_stream {
            Some(stream) => stream,
            None => clip.audio_stream,
        },
        ..clip
    }
}

/// Whether a patch changes anything.
pub open spec fn patches(clip: ClipView, patch: ClipPatch) -> bool {
    ||| renamed(clip, patch) != clip.name
    ||| retitled(clip, patch) != renamed(clip, patch)
    ||| differs(clip.volume, at_least_zero(patch.volume))
    ||| differs(clip.fade_in, at_least_zero(patch.fade_in))
    ||| differs(clip.fade_out, at_least_zero(patch.fade_out))
    ||| differs(clip.opacity, held_between(patch.opacity, num(ZERO), num(ONE)))
    ||| patched(clip, patch).preserve_pitch != clip.preserve_pitch
    ||| silenced(clip, patch) != clip.muted
    ||| patched(clip, patch).flip_h != clip.flip_h
    ||| patched(clip, patch).flip_v != clip.flip_v
    ||| blended(clip, patch) != clip.blend
    ||| (patch.crop matches Some(crop) && !crop_same(clip.crop, tidied_crop(crop)))
    ||| refilters(clip.filters, patch.filters)
    ||| refilters(clip.video_effects, patch.video_effects)
    ||| (patch.transition_in matches Some(sent) && !transition_same(
        clip.transition_in,
        transition_of(sent),
    ))
    ||| (patch.text matches Some(sent) && !style_same(clip.text, style_of(sent)))
    ||| patched(clip, patch).audio_stream != clip.audio_stream
}

/// Applies a patch to a clip.
pub open spec fn updating_clip(
    project: ProjectView,
    counter: nat,
    clip_id: Seq<char>,
    patch: ClipPatch,
) -> Step {
    match project.active().clip_index(clip_id) {
        None => Step::nothing(project, counter),
        Some(i) => {
            let clip = project.active().clips[i];
            edited(project, counter, i, patched(clip, patch), patches(clip, patch))
        },
    }
}

fn assign_chain(slot: &mut Vec<AppliedFilter>, sent: Option<Vec<AppliedFilter>>) -> (r: bool)
    ensures
        chain(final(slot)@) == refiltered(chain(old(slot)@), sent),
        r == refilters(chain(old(slot)@), sent),
{
    match sent {
        Some(filters) => {
            if same_chain(&*slot, &filters) {
                false
            } else {
                *slot = filters;
                true
            }
        },
        None => false,
    }
}

fn assign_flag(slot: &mut bool, sent: Option<bool>) -> (r: bool)
    ensures
        *final(slot) == (match sent {
            Some(value) => value,
            None => *old(slot),
        }),
        r == (*final(slot) != *old(slot)),
{
    match sent {
        Some(value) => {
            let changed: bool = *slot != value;
            *slot = value;
            changed
        },
        None => false,
    }
}

fn assign_name(slot: &mut String, sent: Option<String>) -> (r: bool)
    ensures
        final(slot)@ == (match sent {
            Some(name) => name@,
            None => old(slot)@,
        }),
        r == (final(slot)@ != old(slot)@),
{
    match sent {
        Some(name) => {
            if *slot == name {
                false
            } else {
                *slot = name;
                true
            }
        },
        None => false,
    }
}

fn assign_silence(slot: &mut Option<bool>, sent: Option<bool>) -> (r: bool)
    ensures
        *final(slot) == (match sent {
            Some(true) => Some(true),
            Some(false) => None,
            None => *old(slot),
        }),
        r == (*final(slot) != *old(slot)),
{
    let wanted: Option<bool> = match sent {
        Some(true) => Some(true),
        Some(false) => None,
        None => *slot,
    };
    let changed: bool = match (wanted, *slot) {
        (Some(a), Some(b)) => a != b,
        (None, None) => false,
        _ => true,
    };
    *slot = wanted;
    changed
}

fn assign_blend(slot: &mut String, sent: Option<String>) -> (r: bool)
    ensures
        final(slot)@ == (match sent {
            Some(name) => if name@ == "normal"@ {
                Seq::empty()
            } else {
                name@
            },
            None => old(slot)@,
        }),
        r == (final(slot)@ != old(slot)@),
{
    let wanted: Option<String> = match sent {
        Some(name) => if name == "normal".to_owned() {
            Some(String::new())
        } else {
            Some(name)
        },
        None => None,
    };
    assign_name(slot, wanted)
}

fn assign_crop(slot: &mut Option<Crop>, sent: Option<Option<Crop>>) -> (r: bool)
    ensures
        *final(slot) == (match sent {
            Some(crop) => if crop_same(*old(slot), tidied_crop(crop)) {
                *old(slot)
            } else {
                tidied_crop(crop)
            },
            None => *old(slot),
        }),
        r == (sent matches Some(crop) && !crop_same(*old(slot), tidied_crop(crop))),
{
    match sent {
        Some(crop) => {
            let wanted: Option<Crop> = tidy_crop(crop);
            if same_crop(&*slot, &wanted) {
                false
            } else {
                *slot = wanted;
                true
            }
        },
        None => false,
    }
}

fn assign_transition(slot: &mut Option<Transition>, sent: Option<Option<Transition>>) -> (r: bool)
    ensures
        transition_of(*final(slot)) == (match sent {
            Some(wanted) => if transition_same(transition_of(*old(slot)), transition_of(wanted)) {
                transition_of(*old(slot))
            } else {
                transition_of(wanted)
            },
            None => transition_of(*old(slot)),
        }),
        r == (sent matches Some(wanted) && !transition_same(
            transition_of(*old(slot)),
            transition_of(wanted),
        )),
{
    match sent {
        Some(wanted) => {
            if same_transition(&*slot, &wanted) {
                false
            } else {
                *slot = wanted;
                true
            }
        },
        None => false,
    }
}

fn assign_style(slot: &mut Option<TextStyle>, sent: Option<Option<TextStyle>>) -> (r: bool)
    ensures
        style_of(*final(slot)) == (match sent {
            Some(wanted) => if style_same(style_of(*old(slot)), style_of(wanted)) {
                style_of(*old(slot))
            } else {
                style_of(wanted)
            },
            None => style_of(*old(slot)),
        }),
        r == (sent matches Some(wanted) && !style_same(style_of(*old(slot)), style_of(wanted))),
{
    match sent {
        Some(wanted) => {
            if same_style(&*slot, &wanted) {
                false
            } else {
                *slot = wanted;
                true
            }
        },
        None => false,
    }
}

fn assign_stream(slot: &mut Option<u32>, sent: Option<Option<u32>>) -> (r: bool)
    ensures
        *final(slot) == (match sent {
            Some(stream) => stream,
            None => *old(slot),
        }),
        r == (*final(slot) != *old(slot)),
{
    match sent {
        Some(stream) => {
            let changed: bool = match (stream, *slot) {
                (Some(a), Some(b)) => a != b,
                (None, None) => false,
                _ => true,
            };
            *slot = stream;
            changed
        },
        None => false,
    }
}

/// The name a title sets: its first line.
fn title_name(sent: &Option<Option<TextStyle>>) -> (r: Option<String>)
    ensures
        text_of(r) == (match *sent {
            Some(Some(style)) => Some(label(style@.content)),
            _ => None,
        }),
{
    match sent {
        Some(Some(style)) => Some(first_line(style.content.as_str())),
        _ => None,
    }
}

/// Puts a patch on a clip, reporting whether that changed anything.
pub fn patch_clip(clip: Clip, patch: ClipPatch) -> (r: (Clip, bool))
    ensures
        r.0@ == patched(clip@, patch),
        r.1 == patches(clip@, patch),
{
    let mut clip: Clip = clip;
    let title: Option<String> = title_name(&patch.text);
    let name: bool = assign_name(&mut clip.name, patch.name);
    let volume: bool = assign_some(&mut clip.volume, floor_at_zero(patch.volume));
    let fade_in: bool = assign_some(&mut clip.fade_in, floor_at_zero(patch.fade_in));
    let fade_out: bool = assign_some(&mut clip.fade_out, floor_at_zero(patch.fade_out));
    let opacity: bool = assign_some(
        &mut clip.opacity,
        hold_between(patch.opacity, num(ZERO), num(ONE)),
    );
    let pitch: bool = assign_flag(&mut clip.preserve_pitch, patch.preserve_pitch);
    let silence: bool = assign_silence(&mut clip.muted, patch.muted);
    let flip_h: bool = assign_flag(&mut clip.flip_h, patch.flip_h);
    let flip_v: bool = assign_flag(&mut clip.flip_v, patch.flip_v);
    let blend: bool = assign_blend(&mut clip.blend, patch.blend);
    let crop: bool = assign_crop(&mut clip.crop, patch.crop);
    let filters: bool = assign_chain(&mut clip.filters, patch.filters);
    let effects: bool = assign_chain(&mut clip.video_effects, patch.video_effects);
    let transition: bool = assign_transition(&mut clip.transition_in, patch.transition_in);
    let retitled: bool = assign_name(&mut clip.name, title);
    let text: bool = assign_style(&mut clip.text, patch.text);
    let stream: bool = assign_stream(&mut clip.audio_stream, patch.audio_stream);
    let changed: bool = name || volume || fade_in || fade_out || opacity || pitch || silence
        || flip_h || flip_v || blend || crop || filters || effects || transition || retitled || text
        || stream;
    (clip, changed)
}

pub fn update_clip(
    project: &mut Project,
    mint: &mut IdMint,
    clip_id: &str,
    patch: ClipPatch,
) -> (r: Result<Outcome, CommandError>)
    requires
        old(project)@.editable(),
    ensures
        updating_clip(old(project)@, old(mint)@, clip_id@, patch).is(
            final(project)@,
            final(mint)@,
            r,
        ),
{
    let mut timeline: Timeline = project.active().clone();
    match find_clip(&timeline.clips, clip_id) {
        None => Ok(Outcome::default()),
        Some(i) => {
            let (clip, applied) = patch_clip((*timeline.clips[i]).clone(), patch);
            timeline.put_clip(i, clip);
            project.put_active(timeline);
            Ok(Outcome::changed(applied))
        },
    }
}

// Speed.

/// How long a clip is at a rate that covers the same source.
pub open spec fn stretched(clip: ClipView, speed: Number) -> Number {
    larger(quotient(product(clip.duration, clip.speed), speed), num(MIN_CLIP_DURATION))
}

/// A clip retimed to a constant rate. The source covered is held constant and
/// the curve goes.
pub open spec fn retimed(clip: ClipView, speed: Number) -> ClipView {
    let next = clamped(speed, num(MIN_SPEED), num(MAX_SPEED));
    ClipView {
        speed: put(clip.speed, next),
        duration: put(clip.duration, stretched(clip, next)),
        speed_curve: None,
        ..clip
    }
}

pub open spec fn retimes(clip: ClipView, speed: Number) -> bool {
    let next = clamped(speed, num(MIN_SPEED), num(MAX_SPEED));
    !clip.speed.same(next) || !clip.duration.same(stretched(clip, next)) || clip.speed_curve is Some
}

/// Changes a clip's rate.
pub open spec fn setting_speed(
    project: ProjectView,
    counter: nat,
    clip_id: Seq<char>,
    speed: Number,
) -> Step {
    match project.active().clip_index(clip_id) {
        None => Step::nothing(project, counter),
        Some(i) => {
            let clip = project.active().clips[i];
            edited(project, counter, i, retimed(clip, speed), retimes(clip, speed))
        },
    }
}

pub fn set_clip_speed(project: &mut Project, mint: &mut IdMint, clip_id: &str, speed: Number) -> (r:
    Result<Outcome, CommandError>)
    requires
        old(project)@.editable(),
    ensures
        setting_speed(old(project)@, old(mint)@, clip_id@, speed).is(
            final(project)@,
            final(mint)@,
            r,
        ),
{
    let mut timeline: Timeline = project.active().clone();
    match find_clip(&timeline.clips, clip_id) {
        None => Ok(Outcome::default()),
        Some(i) => {
            let mut clip: Clip = (*timeline.clips[i]).clone();
            let next: Number = speed.clamp(num(MIN_SPEED), num(MAX_SPEED));
            let covered: Number = clip.duration.times(clip.speed);
            let rate: bool = assign(&mut clip.speed, next);
            let length: bool = assign(
                &mut clip.duration,
                covered.over(next).max(num(MIN_CLIP_DURATION)),
            );
            let curved: bool = clip.speed_curve.is_some();
            clip.speed_curve = None;
            timeline.put_clip(i, clip);
            project.put_active(timeline);
            Ok(Outcome::changed(rate || length || curved))
        },
    }
}

/// The curve a command leaves: the one sent, where the engine makes a curve of
/// it.
pub open spec fn playable(points: Option<Vec<SpeedPoint>>, mean: Option<Number>) -> Option<
    Seq<SpeedPoint>,
> {
    match mean {
        Some(_) => curve(points),
        None => None,
    }
}

/// The rate a command leaves: the curve's mean, or the clip's own where there is
/// no curve, in the engine's range.
pub open spec fn mean_rate(
    clip: ClipView,
    points: Option<Vec<SpeedPoint>>,
    mean: Option<Number>,
) -> Number {
    clamped(
        match (playable(points, mean), mean) {
            (Some(_), Some(average)) => average,
            _ => clip.speed,
        },
        num(MIN_SPEED),
        num(MAX_SPEED),
    )
}

pub open spec fn curved(
    clip: ClipView,
    points: Option<Vec<SpeedPoint>>,
    mean: Option<Number>,
) -> ClipView {
    let rate = mean_rate(clip, points, mean);
    ClipView {
        speed_curve: if curve_same(clip.speed_curve, playable(points, mean)) {
            clip.speed_curve
        } else {
            playable(points, mean)
        },
        speed: put(clip.speed, rate),
        duration: put(clip.duration, stretched(clip, rate)),
        ..clip
    }
}

pub open spec fn curves(
    clip: ClipView,
    points: Option<Vec<SpeedPoint>>,
    mean: Option<Number>,
) -> bool {
    let rate = mean_rate(clip, points, mean);
    !curve_same(clip.speed_curve, playable(points, mean)) || !clip.speed.same(rate)
        || !clip.duration.same(stretched(clip, rate))
}

/// Gives a clip a speed curve, or takes it away.
pub open spec fn setting_curve(
    project: ProjectView,
    counter: nat,
    clip_id: Seq<char>,
    points: Option<Vec<SpeedPoint>>,
    mean: Option<Number>,
) -> Step {
    match project.active().clip_index(clip_id) {
        None => Step::nothing(project, counter),
        Some(i) => {
            let clip = project.active().clips[i];
            edited(project, counter, i, curved(clip, points, mean), curves(clip, points, mean))
        },
    }
}

pub fn set_clip_speed_curve(
    project: &mut Project,
    mint: &mut IdMint,
    clip_id: &str,
    points: Option<Vec<SpeedPoint>>,
    mean: Option<Number>,
) -> (r: Result<Outcome, CommandError>)
    requires
        old(project)@.editable(),
    ensures
        setting_curve(old(project)@, old(mint)@, clip_id@, points, mean).is(
            final(project)@,
            final(mint)@,
            r,
        ),
{
    let mut timeline: Timeline = project.active().clone();
    match find_clip(&timeline.clips, clip_id) {
        None => Ok(Outcome::default()),
        Some(i) => {
            let mut clip: Clip = (*timeline.clips[i]).clone();
            let mut rate: Number = clip.speed;
            let mut wanted: Option<Vec<SpeedPoint>> = None;
            match mean {
                Some(average) => {
                    if points.is_some() {
                        rate = average;
                    }
                    wanted = points;
                },
                None => {},
            }
            let rate: Number = rate.clamp(num(MIN_SPEED), num(MAX_SPEED));
            let covered: Number = clip.duration.times(clip.speed);
            let reshaped: bool = !same_curve(&clip.speed_curve, &wanted);
            if reshaped {
                clip.speed_curve = wanted;
            }
            let faster: bool = assign(&mut clip.speed, rate);
            let length: bool = assign(
                &mut clip.duration,
                covered.over(rate).max(num(MIN_CLIP_DURATION)),
            );
            timeline.put_clip(i, clip);
            project.put_active(timeline);
            Ok(Outcome::changed(reshaped || faster || length))
        },
    }
}

// Cutouts.

/// Sets or clears a clip's cutout, tidied on the way in.
pub open spec fn setting_cutout(
    project: ProjectView,
    counter: nat,
    clip_id: Seq<char>,
    cutout: Option<CutoutView>,
) -> Step {
    match project.active().clip_index(clip_id) {
        None => Step::nothing(project, counter),
        Some(i) => {
            let clip = project.active().clips[i];
            let wanted = match cutout {
                Some(held) => Some(held.tidied()),
                None => None,
            };
            if cutout_same(clip.cutout, wanted) {
                edited(project, counter, i, clip, false)
            } else {
                edited(project, counter, i, ClipView { cutout: wanted, ..clip }, true)
            }
        },
    }
}

pub fn set_clip_cutout(
    project: &mut Project,
    mint: &mut IdMint,
    clip_id: &str,
    cutout: Option<Cutout>,
) -> (r: Result<Outcome, CommandError>)
    requires
        old(project)@.editable(),
    ensures
        setting_cutout(old(project)@, old(mint)@, clip_id@, cutout_of(cutout)).is(
            final(project)@,
            final(mint)@,
            r,
        ),
{
    let mut timeline: Timeline = project.active().clone();
    match find_clip(&timeline.clips, clip_id) {
        None => Ok(Outcome::default()),
        Some(i) => {
            let mut clip: Clip = (*timeline.clips[i]).clone();
            let wanted: Option<Cutout> = match cutout {
                Some(held) => Some(held.tidy()),
                None => None,
            };
            let applied: bool = !same_cutout(&clip.cutout, &wanted);
            if applied {
                clip.cutout = wanted;
            }
            timeline.put_clip(i, clip);
            project.put_active(timeline);
            Ok(Outcome::changed(applied))
        },
    }
}

/// A clip's cutout with a stroke on it: a custom one, whatever it was.
pub open spec fn painted(clip: ClipView, stroke: StrokeView) -> ClipView {
    let cutout = match clip.cutout {
        Some(held) => held,
        None => CutoutView::automatic(),
    };
    ClipView {
        cutout: Some(
            CutoutView {
                mode: CutoutMode::Custom,
                strokes: cutout.strokes.push(stroke),
                ..cutout
            },
        ),
        ..clip
    }
}

/// Paints one stroke onto a clip's cutout.
pub open spec fn painting(
    project: ProjectView,
    counter: nat,
    clip_id: Seq<char>,
    stroke: StrokeView,
) -> Step {
    match project.active().clip_index(clip_id) {
        None => Step::nothing(project, counter),
        Some(i) => match stroke.tidied() {
            None => Step::nothing(project, counter),
            Some(tidy) => edited(
                project,
                counter,
                i,
                painted(project.active().clips[i], tidy),
                true,
            ),
        },
    }
}

pub fn add_cutout_stroke(
    project: &mut Project,
    mint: &mut IdMint,
    clip_id: &str,
    stroke: Stroke,
) -> (r: Result<Outcome, CommandError>)
    requires
        old(project)@.editable(),
    ensures
        painting(old(project)@, old(mint)@, clip_id@, stroke@).is(final(project)@, final(mint)@, r),
{
    let mut timeline: Timeline = project.active().clone();
    match find_clip(&timeline.clips, clip_id) {
        None => Ok(Outcome::default()),
        Some(i) => {
            match stroke.tidy() {
                None => Ok(Outcome::default()),
                Some(tidy) => {
                    let mut clip: Clip = (*timeline.clips[i]).clone();
                    let ghost before = clip@;
                    let mut cutout: Cutout = match clip.cutout {
                        Some(held) => held,
                        None => Cutout::auto(),
                    };
                    let ghost held = cutout.strokes@;
                    cutout.mode = CutoutMode::Custom;
                    cutout.strokes.push(tidy);
                    assert(cutout.strokes@.map_values(|s: Stroke| s@) =~= held.map_values(
                        |s: Stroke| s@,
                    ).push(tidy@));
                    clip.cutout = Some(cutout);
                    assert(clip@ == painted(before, tidy@));
                    timeline.put_clip(i, clip);
                    project.put_active(timeline);
                    Ok(Outcome::changed(true))
                },
            }
        },
    }
}

// Keys.

/// A key's value clamped the way the field itself is. There is no ceiling on the
/// level and none on a spin.
pub open spec fn key_value(property: KeyProperty, value: Number) -> Number {
    match property {
        KeyProperty::Scale => clamped(value, num(MIN_SCALE), num(MAX_SCALE)),
        KeyProperty::Opacity => clamped(value, num(ZERO), num(ONE)),
        KeyProperty::Volume => larger(value, num(ZERO)),
        _ => value,
    }
}

/// Puts a key on a property of a clip.
pub open spec fn keying(
    project: ProjectView,
    counter: nat,
    clip_id: Seq<char>,
    property: KeyProperty,
    at: Number,
    value: Number,
    ease: KeyEase,
) -> Step {
    match project.active().clip_index(clip_id) {
        None => Step::nothing(project, counter),
        Some(i) => if !at.finite() || !value.finite() {
            Step::nothing(project, counter)
        } else {
            let clip = project.active().clips[i];
            let keyed = clip.with_key(property, at, key_value(property, value), ease);
            if keys_same(keyed.keys, clip.keys) {
                Step::nothing(project, counter)
            } else {
                edited(project, counter, i, keyed, true)
            }
        },
    }
}

pub fn set_clip_key(
    project: &mut Project,
    mint: &mut IdMint,
    clip_id: &str,
    property: KeyProperty,
    at: Number,
    value: Number,
    ease: KeyEase,
) -> (r: Result<Outcome, CommandError>)
    requires
        old(project)@.editable(),
    ensures
        keying(old(project)@, old(mint)@, clip_id@, property, at, value, ease).is(
            final(project)@,
            final(mint)@,
            r,
        ),
{
    let mut timeline: Timeline = project.active().clone();
    match find_clip(&timeline.clips, clip_id) {
        None => Ok(Outcome::default()),
        Some(i) => {
            if !at.is_finite() || !value.is_finite() {
                return Ok(Outcome::default());
            }
            let value: Number = match property {
                KeyProperty::Scale => value.clamp(num(MIN_SCALE), num(MAX_SCALE)),
                KeyProperty::Opacity => value.clamp(num(ZERO), num(ONE)),
                KeyProperty::Volume => value.max(num(ZERO)),
                _ => value,
            };
            let mut clip: Clip = (*timeline.clips[i]).clone();
            let before: Vec<ClipKey> = copy_keys(&clip.keys);
            clip.set_key(property, at, value, ease);
            if same_keys(&clip.keys, &before) {
                return Ok(Outcome::default());
            }
            timeline.put_clip(i, clip);
            project.put_active(timeline);
            Ok(Outcome::changed(true))
        },
    }
}

/// Takes the key at a point off a property of a clip.
pub open spec fn unkeying(
    project: ProjectView,
    counter: nat,
    clip_id: Seq<char>,
    property: KeyProperty,
    at: Number,
) -> Step {
    match project.active().clip_index(clip_id) {
        None => Step::nothing(project, counter),
        Some(i) => {
            let clip = project.active().clips[i];
            edited(
                project,
                counter,
                i,
                clip.without_key(property, at),
                closest(reaches(clip.keys, property, at)) is Some,
            )
        },
    }
}

pub fn clear_clip_key(
    project: &mut Project,
    mint: &mut IdMint,
    clip_id: &str,
    property: KeyProperty,
    at: Number,
) -> (r: Result<Outcome, CommandError>)
    requires
        old(project)@.editable(),
    ensures
        unkeying(old(project)@, old(mint)@, clip_id@, property, at).is(
            final(project)@,
            final(mint)@,
            r,
        ),
{
    let mut timeline: Timeline = project.active().clone();
    match find_clip(&timeline.clips, clip_id) {
        None => Ok(Outcome::default()),
        Some(i) => {
            let mut clip: Clip = (*timeline.clips[i]).clone();
            let applied: bool = clip.clear_key(property, at);
            timeline.put_clip(i, clip);
            project.put_active(timeline);
            Ok(Outcome::changed(applied))
        },
    }
}

/// Takes every key off a property of a clip.
pub open spec fn unkeying_all(
    project: ProjectView,
    counter: nat,
    clip_id: Seq<char>,
    property: KeyProperty,
) -> Step {
    match project.active().clip_index(clip_id) {
        None => Step::nothing(project, counter),
        Some(i) => {
            let clip = project.active().clips[i];
            edited(
                project,
                counter,
                i,
                ClipView { keys: keys_without(clip.keys, property), ..clip },
                keys_of(clip.keys, property).len() > 0,
            )
        },
    }
}

pub fn clear_clip_keys(
    project: &mut Project,
    mint: &mut IdMint,
    clip_id: &str,
    property: KeyProperty,
) -> (r: Result<Outcome, CommandError>)
    requires
        old(project)@.editable(),
    ensures
        unkeying_all(old(project)@, old(mint)@, clip_id@, property).is(
            final(project)@,
            final(mint)@,
            r,
        ),
{
    let mut timeline: Timeline = project.active().clone();
    match find_clip(&timeline.clips, clip_id) {
        None => Ok(Outcome::default()),
        Some(i) => {
            let mut clip: Clip = (*timeline.clips[i]).clone();
            let applied: bool = clip.clear_keys(property);
            timeline.put_clip(i, clip);
            project.put_active(timeline);
            Ok(Outcome::changed(applied))
        },
    }
}

/// A clip with one link of its picture chain written over.
pub open spec fn with_link(clip: ClipView, entry: int, link: FilterView) -> ClipView {
    ClipView { video_effects: clip.video_effects.update(entry, link), ..clip }
}

fn put_link(clip: &mut Clip, entry: usize, link: AppliedFilter)
    requires
        entry < old(clip).video_effects.len(),
    ensures
        final(clip)@ == with_link(old(clip)@, entry as int, link@),
{
    let ghost before = clip.video_effects@;
    clip.video_effects.set(entry, link);
    assert(chain(clip.video_effects@) =~= chain(before).update(entry as int, link@));
}

/// Puts a key on a parameter of a link of a clip's picture chain.
pub open spec fn keying_effect(
    project: ProjectView,
    counter: nat,
    clip_id: Seq<char>,
    entry: int,
    key: Seq<char>,
    at: Number,
    value: Number,
    ease: KeyEase,
) -> Step {
    match project.active().clip_index(clip_id) {
        None => Step::nothing(project, counter),
        Some(i) => {
            let clip = project.active().clips[i];
            if entry >= clip.video_effects.len() || !at.finite() || !value.finite() {
                Step::nothing(project, counter)
            } else {
                let link = clip.video_effects[entry];
                let keyed = link.with_key(key, at, value, ease);
                if runs_same(keyed.keys, link.keys) {
                    Step::nothing(project, counter)
                } else {
                    edited(project, counter, i, with_link(clip, entry, keyed), true)
                }
            }
        },
    }
}

pub fn set_effect_key(
    project: &mut Project,
    mint: &mut IdMint,
    clip_id: &str,
    entry: usize,
    key: &str,
    at: Number,
    value: Number,
    ease: KeyEase,
) -> (r: Result<Outcome, CommandError>)
    requires
        old(project)@.editable(),
    ensures
        keying_effect(old(project)@, old(mint)@, clip_id@, entry as int, key@, at, value, ease).is(
            final(project)@,
            final(mint)@,
            r,
        ),
{
    let mut timeline: Timeline = project.active().clone();
    match find_clip(&timeline.clips, clip_id) {
        None => Ok(Outcome::default()),
        Some(i) => {
            let mut clip: Clip = (*timeline.clips[i]).clone();
            assert(clip.video_effects.len() == clip@.video_effects.len());
            if entry >= clip.video_effects.len() || !at.is_finite() || !value.is_finite() {
                return Ok(Outcome::default());
            }
            assert(clip@.video_effects[entry as int] == clip.video_effects@[entry as int]@);
            let before: AppliedFilter = clip.video_effects[entry].clone();
            let mut link: AppliedFilter = before.clone();
            link.set_key(key, at, value, ease);
            if same_runs(&link.keys, &before.keys) {
                return Ok(Outcome::default());
            }
            put_link(&mut clip, entry, link);
            timeline.put_clip(i, clip);
            project.put_active(timeline);
            Ok(Outcome::changed(true))
        },
    }
}

/// Takes the key at a point off a parameter of a link.
pub open spec fn unkeying_effect(
    project: ProjectView,
    counter: nat,
    clip_id: Seq<char>,
    entry: int,
    key: Seq<char>,
    at: Number,
) -> Step {
    match project.active().clip_index(clip_id) {
        None => Step::nothing(project, counter),
        Some(i) => {
            let clip = project.active().clips[i];
            if entry >= clip.video_effects.len() {
                Step::nothing(project, counter)
            } else {
                let link = clip.video_effects[entry];
                edited(
                    project,
                    counter,
                    i,
                    with_link(clip, entry, link.without_key(key, at)),
                    closest(run_reaches(link.run(key), at)) is Some,
                )
            }
        },
    }
}

pub fn clear_effect_key(
    project: &mut Project,
    mint: &mut IdMint,
    clip_id: &str,
    entry: usize,
    key: &str,
    at: Number,
) -> (r: Result<Outcome, CommandError>)
    requires
        old(project)@.editable(),
    ensures
        unkeying_effect(old(project)@, old(mint)@, clip_id@, entry as int, key@, at).is(
            final(project)@,
            final(mint)@,
            r,
        ),
{
    let mut timeline: Timeline = project.active().clone();
    match find_clip(&timeline.clips, clip_id) {
        None => Ok(Outcome::default()),
        Some(i) => {
            let mut clip: Clip = (*timeline.clips[i]).clone();
            assert(clip.video_effects.len() == clip@.video_effects.len());
            if entry >= clip.video_effects.len() {
                return Ok(Outcome::default());
            }
            assert(clip@.video_effects[entry as int] == clip.video_effects@[entry as int]@);
            let mut link: AppliedFilter = clip.video_effects[entry].clone();
            let applied: bool = link.clear_key(key, at);
            put_link(&mut clip, entry, link);
            timeline.put_clip(i, clip);
            project.put_active(timeline);
            Ok(Outcome::changed(applied))
        },
    }
}

/// Takes every key off a parameter of a link. Where there is none, nothing goes.
pub open spec fn unkeying_effect_all(
    project: ProjectView,
    counter: nat,
    clip_id: Seq<char>,
    entry: int,
    key: Seq<char>,
) -> Step {
    match project.active().clip_index(clip_id) {
        None => Step::nothing(project, counter),
        Some(i) => {
            let clip = project.active().clips[i];
            if entry >= clip.video_effects.len() {
                Step::nothing(project, counter)
            } else {
                let link = clip.video_effects[entry];
                if link.run(key).len() == 0 {
                    Step::nothing(project, counter)
                } else {
                    edited(
                        project,
                        counter,
                        i,
                        with_link(clip, entry, FilterView { keys: link.keys.remove(key), ..link }),
                        true,
                    )
                }
            }
        },
    }
}

pub fn clear_effect_keys(
    project: &mut Project,
    mint: &mut IdMint,
    clip_id: &str,
    entry: usize,
    key: &str,
) -> (r: Result<Outcome, CommandError>)
    requires
        old(project)@.editable(),
    ensures
        unkeying_effect_all(old(project)@, old(mint)@, clip_id@, entry as int, key@).is(
            final(project)@,
            final(mint)@,
            r,
        ),
{
    let mut timeline: Timeline = project.active().clone();
    match find_clip(&timeline.clips, clip_id) {
        None => Ok(Outcome::default()),
        Some(i) => {
            let mut clip: Clip = (*timeline.clips[i]).clone();
            assert(clip.video_effects.len() == clip@.video_effects.len());
            if entry >= clip.video_effects.len() {
                return Ok(Outcome::default());
            }
            assert(clip@.video_effects[entry as int] == clip.video_effects@[entry as int]@);
            let mut link: AppliedFilter = clip.video_effects[entry].clone();
            if !link.clear_keys(key) {
                return Ok(Outcome::default());
            }
            put_link(&mut clip, entry, link);
            timeline.put_clip(i, clip);
            project.put_active(timeline);
            Ok(Outcome::changed(true))
        },
    }
}

// Placement.

/// What a placement command carries.
#[derive(Clone, Copy, Debug)]
pub struct Placement {
    pub scale: Option<Number>,
    pub offset_x: Option<Number>,
    pub offset_y: Option<Number>,
    pub rotation: Option<Number>,
    pub stretch_x: Option<Number>,
    pub stretch_y: Option<Number>,
}

impl Placement {
    /// The placement with every number in range and the rotation wrapped.
    pub open spec fn held(self) -> Placement {
        Placement {
            scale: held_between(self.scale, num(MIN_SCALE), num(MAX_SCALE)),
            offset_x: held_between(self.offset_x, num(MIN_OFFSET), num(MAX_OFFSET)),
            offset_y: held_between(self.offset_y, num(MIN_OFFSET), num(MAX_OFFSET)),
            rotation: turned(self.rotation),
            stretch_x: held_between(self.stretch_x, num(MIN_STRETCH), num(MAX_STRETCH)),
            stretch_y: held_between(self.stretch_y, num(MIN_STRETCH), num(MAX_STRETCH)),
        }
    }
}

pub open spec fn placed(clip: ClipView, place: Placement) -> ClipView {
    ClipView {
        scale: put_some(clip.scale, place.scale),
        offset_x: put_some(clip.offset_x, place.offset_x),
        offset_y: put_some(clip.offset_y, place.offset_y),
        rotation: put_some(clip.rotation, place.rotation),
        stretch_x: put_some(clip.stretch_x, place.stretch_x),
        stretch_y: put_some(clip.stretch_y, place.stretch_y),
        ..clip
    }
}

pub open spec fn places(clip: ClipView, place: Placement) -> bool {
    differs(clip.scale, place.scale) || differs(clip.offset_x, place.offset_x) || differs(
        clip.offset_y,
        place.offset_y,
    ) || differs(clip.rotation, place.rotation) || differs(clip.stretch_x, place.stretch_x)
        || differs(clip.stretch_y, place.stretch_y)
}

/// Adjusts a picture's placement.
pub open spec fn placing(
    project: ProjectView,
    counter: nat,
    clip_id: Seq<char>,
    place: Placement,
) -> Step {
    match project.active().clip_index(clip_id) {
        None => Step::nothing(project, counter),
        Some(i) => {
            let clip = project.active().clips[i];
            edited(project, counter, i, placed(clip, place.held()), places(clip, place.held()))
        },
    }
}

pub fn set_clip_transform(
    project: &mut Project,
    mint: &mut IdMint,
    clip_id: &str,
    place: Placement,
) -> (r: Result<Outcome, CommandError>)
    requires
        old(project)@.editable(),
    ensures
        placing(old(project)@, old(mint)@, clip_id@, place).is(final(project)@, final(mint)@, r),
{
    let mut timeline: Timeline = project.active().clone();
    match find_clip(&timeline.clips, clip_id) {
        None => Ok(Outcome::default()),
        Some(i) => {
            let mut clip: Clip = (*timeline.clips[i]).clone();
            let scale: bool = assign_some(
                &mut clip.scale,
                hold_between(place.scale, num(MIN_SCALE), num(MAX_SCALE)),
            );
            let x: bool = assign_some(
                &mut clip.offset_x,
                hold_between(place.offset_x, num(MIN_OFFSET), num(MAX_OFFSET)),
            );
            let y: bool = assign_some(
                &mut clip.offset_y,
                hold_between(place.offset_y, num(MIN_OFFSET), num(MAX_OFFSET)),
            );
            let rotation: bool = assign_some(&mut clip.rotation, turn(place.rotation));
            let width: bool = assign_some(
                &mut clip.stretch_x,
                hold_between(place.stretch_x, num(MIN_STRETCH), num(MAX_STRETCH)),
            );
            let height: bool = assign_some(
                &mut clip.stretch_y,
                hold_between(place.stretch_y, num(MIN_STRETCH), num(MAX_STRETCH)),
            );
            timeline.put_clip(i, clip);
            project.put_active(timeline);
            Ok(Outcome::changed(scale || x || y || rotation || width || height))
        },
    }
}

} // verus!
