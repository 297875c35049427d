//! Commands: every edit, as data.

use crate::model::clip::curve;
use crate::model::filter::{chain, AppliedFilter, FilterView};
use crate::model::keys::{KeyEase, KeyProperty, SpeedPoint};
use crate::model::media::{text_of, ColorRange, NewMedia};
use crate::model::picture::{is_option_finite, option_finite, Crop, Cutout, Stroke};
use crate::model::style::{TextStyle, Transition};
use crate::model::timeline::VideoSettings;
use crate::number::Number;
use vstd::prelude::*;

verus! {

/// Which end of a clip a trim drags.
#[derive(Clone, Copy, PartialEq, Eq, Debug, Structural)]
pub enum TrimEdge {
    /// The head. Trimming here moves the in-point with the edge.
    Start,
    /// The tail. Trimming here only lengthens or shortens the clip.
    End,
}

/// Which per-track toggle a command flips.
#[derive(Clone, Copy, PartialEq, Eq, Debug, Structural)]
pub enum TrackFlag {
    /// Whether the track's video reaches the composite.
    Visible,
    /// Whether the track's audio is silenced.
    Muted,
}

/// Where one clip is going, in a multi-clip move.
#[derive(Debug)]
pub struct ClipMove {
    /// The clip to move. An unknown id is skipped.
    pub clip_id: String,
    /// New timeline position in seconds, floored at 0.
    pub start: Number,
    /// Destination track. An unknown id moves the clip in time but leaves it on
    /// its current track.
    pub track_id: String,
}

/// A partial update to one clip. Every field optional; the doubly optional ones
/// tell "clear it" from "leave it alone".
#[derive(Debug)]
pub struct ClipPatch {
    /// New display name, taken verbatim. A `text` patch overwrites it with the
    /// title's first line.
    pub name: Option<String>,
    /// New gain; floored at 0, deliberately not capped at 1.
    pub volume: Option<Number>,
    /// New fade-in length in seconds, floored at 0.
    pub fade_in: Option<Number>,
    /// New fade-out length in seconds, floored at 0.
    pub fade_out: Option<Number>,
    /// New opacity, clamped into 0..=1.
    pub opacity: Option<Number>,
    pub preserve_pitch: Option<bool>,
    /// Whether the clip's own sound is silenced.
    pub muted: Option<bool>,
    pub flip_h: Option<bool>,
    pub flip_v: Option<bool>,
    /// The blend mode's name; empty is normal.
    pub blend: Option<String>,
    pub crop: Option<Option<Crop>>,
    /// Wholesale replacement of the audio filter chain.
    pub filters: Option<Vec<AppliedFilter>>,
    /// Wholesale replacement of the video effect chain.
    pub video_effects: Option<Vec<AppliedFilter>>,
    pub transition_in: Option<Option<Transition>>,
    /// Setting a style also renames the clip after its first line.
    pub text: Option<Option<TextStyle>>,
    pub audio_stream: Option<Option<u32>>,
}

impl Default for ClipPatch {
    /// A patch that leaves everything alone.
    fn default() -> (r: ClipPatch)
        ensures
            r == (ClipPatch {
                name: None,
                volume: None,
                fade_in: None,
                fade_out: None,
                opacity: None,
                preserve_pitch: None,
                muted: None,
                flip_h: None,
                flip_v: None,
                blend: None,
                crop: None,
                filters: None,
                video_effects: None,
                transition_in: None,
                text: None,
                audio_stream: None,
            }),
    {
        ClipPatch {
            name: None,
            volume: None,
            fade_in: None,
            fade_out: None,
            opacity: None,
            preserve_pitch: None,
            muted: None,
            flip_h: None,
            flip_v: None,
            blend: None,
            crop: None,
            filters: None,
            video_effects: None,
            transition_in: None,
            text: None,
            audio_stream: None,
        }
    }
}

/// Every edit, as the window sends it. The notes here state what each one does:
/// the clamps, the tolerances, what gets minted.
#[derive(Debug)]
#[allow(inconsistent_fields)]
pub enum Command {
    /// Imports a file into the bin, minting an "m" id. A path already present is
    /// a tolerated no-op that mints nothing.
    AddMedia { item: NewMedia },
    /// Removes a bin item and every clip referencing it, on all timelines. An
    /// unknown id is a no-op.
    RemoveMedia { media_id: String },
    /// Marks a bin item as a template slot, or back to ordinary media.
    SetMediaPlaceholder { media_id: String, placeholder: bool },
    /// Swaps the user's file into a template slot in place. The slot keeps its
    /// id; start, duration and speed stay the template's, while the in-point
    /// resets and each clip's kind and name follow the new file, across all
    /// timelines. Errs if the id is unknown or the item is not a slot.
    FillSlot { media_id: String, item: NewMedia },
    /// Several commands as one atomic edit: applied to a staged copy and
    /// committed only if every one succeeds. The outcome carries the last id
    /// minted inside.
    Batch { commands: Vec<Command> },
    /// Places a clip of a bin item on a named track, minting a "c" id. Errs if
    /// the media or track no longer exists. With `ripple`, a drop that would
    /// overlap something pushes every clip at or after it right by the new
    /// clip's length.
    AddClip { media_id: String, track_id: String, start: Number, ripple: bool },
    /// The same without naming a lane: lands on the lowest track with nothing in
    /// the clip's span, falling back to the bottom track.
    AddClipAtFirstFree { media_id: String, start: Number },
    /// Places a title, named after the text's first line, minting a "c" id. With
    /// no track named it picks the first free one; with `above`, the first free
    /// one above the highest one occupied over its span, minting a lane where
    /// every one above is taken. Naming a vanished track errs.
    AddTextClip {
        track_id: Option<String>,
        above: bool,
        start: Number,
        style: Option<TextStyle>,
        duration: Option<Number>,
        offset_y: Option<Number>,
    },
    /// Places a layer: an effect over a span of the timeline that treats
    /// everything beneath it.
    AddLayerClip {
        track_id: Option<String>,
        start: Number,
        duration: Option<Number>,
        effect_id: String,
        name: String,
    },
    /// Gives a clip a speed curve, or takes it away. The source covered is held
    /// constant, so the clip's length follows the curve's mean; `speed` is kept
    /// at that mean. `mean` is what the engine says the curve averages, None
    /// where the points make no curve.
    SetClipSpeedCurve {
        clip_id: String,
        curve: Option<Vec<SpeedPoint>>,
        mean: Option<Number>,
    },
    /// Puts a key on one property at one point of a clip, replacing whichever
    /// key on that property was already within a hair of it.
    SetClipKey {
        clip_id: String,
        property: KeyProperty,
        at: Number,
        value: Number,
        ease: KeyEase,
    },
    /// Takes the key at `at` off one property, if there is one there.
    ClearClipKey { clip_id: String, property: KeyProperty, at: Number },
    /// Takes every key off one property, returning it to its constant.
    ClearClipKeys { clip_id: String, property: KeyProperty },
    /// Puts a key on one parameter of one link of a clip's picture chain. A link
    /// out of range is a no-op.
    SetEffectKey {
        clip_id: String,
        entry: usize,
        key: String,
        at: Number,
        value: Number,
        ease: KeyEase,
    },
    /// Takes the key at `at` off one parameter of one link, if there is one.
    ClearEffectKey { clip_id: String, entry: usize, key: String, at: Number },
    /// Takes every key off one parameter of one link.
    ClearEffectKeys { clip_id: String, entry: usize, key: String },
    /// Sets or clears a picture's cutout, tidied on the way in.
    SetClipCutout { clip_id: String, cutout: Option<Cutout> },
    /// Paints one stroke onto a clip's cutout. A clip with no cutout gets a
    /// custom one; an automatic cutout becomes custom. A stroke with no points is
    /// a no-op.
    AddCutoutStroke { clip_id: String, stroke: Stroke },
    /// Repositions any number of clips in one edit.
    MoveClips { moves: Vec<ClipMove> },
    /// Drags one edge of a clip. A head trim moves the in-point with the edge so
    /// the remaining pixels do not slide; either edge stops at the minimum
    /// duration. With `ripple` the lane closes up behind the trim.
    TrimClip { clip_id: String, edge: TrimEdge, delta: Number, ripple: bool },
    /// Cuts each named clip in two at one playhead time. The head keeps the id
    /// and the transition; the tail is minted fresh and stays
    /// source-continuous. A clip the time misses is skipped.
    SplitClips { clip_ids: Vec<String>, time: Number },
    /// Points a clip at another file, adding the file to the bin first when it
    /// is not there. An unknown clip is a no-op.
    ReplaceClipMedia { clip_id: String, item: NewMedia, source_start: Option<Number> },
    /// A freeze frame at `time`: splits the clip, inserts a still on the same
    /// track, and ripples later clips on that track by its length. Video needs a
    /// probed `still`; image clips may omit it and reuse their media. Audio and
    /// text are no-ops.
    FreezeFrame {
        clip_id: String,
        time: Number,
        duration: Option<Number>,
        still: Option<NewMedia>,
    },
    /// Rejoins split pieces into the earliest piece, which keeps its id. Errs
    /// with a sentence unless the pieces sit on one track, come from one file at
    /// one speed, touch within a microsecond, and are still in source order.
    MergeClips { clip_ids: Vec<String> },
    /// Deletes clips from the active timeline. With `ripple` the deletion leaves
    /// no gap on the tracks it touched.
    RemoveClips { clip_ids: Vec<String>, ripple: bool },
    /// Applies a patch: only the fields present change. An unknown clip is a
    /// no-op.
    UpdateClip { clip_id: String, patch: ClipPatch },
    /// Changes playback rate while holding the amount of source covered
    /// constant.
    SetClipSpeed { clip_id: String, speed: Number },
    /// Adjusts the picture's placement. Absent fields stay put.
    SetClipTransform {
        clip_id: String,
        scale: Option<Number>,
        offset_x: Option<Number>,
        offset_y: Option<Number>,
        rotation: Option<Number>,
        stretch_x: Option<Number>,
        stretch_y: Option<Number>,
    },
    /// Pulls a video clip's sound out into its own audio clip, one for each of
    /// its file's streams, each on a free lane (minting one if none is free),
    /// muting the video and moving its audio filters to the sound. A no-op unless
    /// the clip is an unmuted video whose media has audio and is not already
    /// detached.
    DetachAudio { clip_id: String },
    /// Undoes a detach: deletes the detached sound clips, unmutes the video and
    /// hands the sound's filters back. Accepts either the video's id or the
    /// sound's; a no-op when either side is gone.
    ReattachAudio { clip_id: String },
    /// Appends a lane, minting a "t" id.
    AddTrack,
    /// Deletes a lane and every clip on it. Errs at the floor of one track.
    RemoveTrack { track_id: String },
    /// Flips one of a track's two toggles. An unknown id is a no-op.
    SetTrackFlag { track_id: String, flag: TrackFlag, value: bool },
    /// Adds a fresh timeline, four new lanes, "Timeline N" after the highest in
    /// use, and makes it active. Mints a "tl" id.
    AddTimeline,
    /// Deletes a timeline, moving the active tab to a neighbour if it was this
    /// one. Errs at the floor of one timeline.
    RemoveTimeline { timeline_id: String },
    /// Sets a timeline's output frame and rate. A term no frame could have is
    /// refused as a no-op.
    SetTimelineVideo { timeline_id: String, video: VideoSettings },
    /// Renames a timeline tab. Whitespace-only names are ignored; unknown ids
    /// are tolerated.
    RenameTimeline { timeline_id: String, name: String },
    /// Switches which timeline subsequent commands act on. An unknown id leaves
    /// the selection where it was.
    SelectTimeline { timeline_id: String },
    /// Moves a timeline tab to a new position in the strip, counted with the
    /// timeline already removed from its old slot and clamped to the end.
    MoveTimeline { timeline_id: String, index: usize },
    /// Registers a font file for titles. A path already registered is a no-op.
    AddFont { family: String, path: String },
    /// Unregisters a font family. Clips keep the family name.
    RemoveFont { family: String },
    /// Updates a media item's path on disk. An unknown id is a no-op.
    UpdateMediaPath { media_id: String, new_path: String },
    /// Says what levels a media file's picture really spans, over whatever the
    /// file claims. An unknown id is a no-op.
    SetMediaColorRange { media_id: String, range: Option<ColorRange> },
}

pub open spec fn chain_finite(filters: Seq<FilterView>) -> bool {
    forall|i: int| 0 <= i < filters.len() ==> (#[trigger] filters[i]).all_finite()
}

fn is_chain_finite(filters: &Vec<AppliedFilter>) -> (r: bool)
    ensures
        r == chain_finite(chain(filters@)),
{
    let ghost views = chain(filters@);
    let mut i: usize = 0;
    while i < filters.len()
        invariant
            i <= filters.len(),
            views == chain(filters@),
            forall|j: int| 0 <= j < i ==> (#[trigger] views[j]).all_finite(),
        decreases filters.len() - i,
    {
        if !filters[i].is_finite() {
            assert(!views[i as int].all_finite());
            return false;
        }
        i = i + 1;
    }
    true
}

pub open spec fn points_finite(points: Option<Seq<SpeedPoint>>) -> bool {
    match points {
        Some(held) => forall|i: int|
            0 <= i < held.len() ==> (#[trigger] held[i]).at.finite() && held[i].speed.finite(),
        None => true,
    }
}

fn are_points_finite(points: &Option<Vec<SpeedPoint>>) -> (r: bool)
    ensures
        r == points_finite(curve(*points)),
{
    match points {
        Some(held) => {
            let mut i: usize = 0;
            while i < held.len()
                invariant
                    i <= held.len(),
                    curve(*points) == Some(held@),
                    forall|j: int|
                        0 <= j < i ==> (#[trigger] held@[j]).at.finite() && held@[j].speed.finite(),
                decreases held.len() - i,
            {
                if !(held[i].at.is_finite() && held[i].speed.is_finite()) {
                    assert(curve(*points)->0[i as int] == held@[i as int]);
                    return false;
                }
                i = i + 1;
            }
            true
        },
        None => true,
    }
}

pub open spec fn moves_finite(moves: Seq<ClipMove>) -> bool {
    forall|i: int| 0 <= i < moves.len() ==> (#[trigger] moves[i]).start.finite()
}

fn are_moves_finite(moves: &Vec<ClipMove>) -> (r: bool)
    ensures
        r == moves_finite(moves@),
{
    let mut i: usize = 0;
    while i < moves.len()
        invariant
            i <= moves.len(),
            forall|j: int| 0 <= j < i ==> (#[trigger] moves@[j]).start.finite(),
        decreases moves.len() - i,
    {
        if !moves[i].start.is_finite() {
            assert(!moves@[i as int].start.finite());
            return false;
        }
        i = i + 1;
    }
    true
}

impl ClipPatch {
    /// Whether every number the patch carries is finite.
    pub open spec fn all_finite(self) -> bool {
        &&& option_finite(self.volume)
        &&& option_finite(self.fade_in)
        &&& option_finite(self.fade_out)
        &&& option_finite(self.opacity)
        &&& match self.crop {
            Some(Some(crop)) => crop.all_finite(),
            _ => true,
        }
        &&& match self.filters {
            Some(filters) => chain_finite(chain(filters@)),
            None => true,
        }
        &&& match self.video_effects {
            Some(filters) => chain_finite(chain(filters@)),
            None => true,
        }
        &&& match self.transition_in {
            Some(Some(transition)) => transition.duration.finite(),
            _ => true,
        }
        &&& match self.text {
            Some(Some(style)) => style@.all_finite(),
            _ => true,
        }
    }

    /// Whether every number the patch carries is finite.
    pub fn is_finite(&self) -> (r: bool)
        ensures
            r == self.all_finite(),
    {
        is_option_finite(self.volume) && is_option_finite(self.fade_in) && is_option_finite(
            self.fade_out,
        ) && is_option_finite(self.opacity) && (match &self.crop {
            Some(Some(crop)) => crop.is_finite(),
            _ => true,
        }) && (match &self.filters {
            Some(filters) => is_chain_finite(filters),
            None => true,
        }) && (match &self.video_effects {
            Some(filters) => is_chain_finite(filters),
            None => true,
        }) && (match &self.transition_in {
            Some(Some(transition)) => transition.duration.is_finite(),
            _ => true,
        }) && (match &self.text {
            Some(Some(style)) => style.is_finite(),
            _ => true,
        })
    }
}

impl Command {
    /// Whether this changes what the person is looking at, not the edit.
    pub open spec fn view_state(self) -> bool {
        self is SelectTimeline || self is MoveTimeline
    }

    /// Whether every number the command carries is finite.
    pub open spec fn all_finite(self) -> bool
        decreases self,
    {
        match self {
            Command::Batch { commands } => forall|i: int|
                0 <= i < commands.len() ==> (#[trigger] commands[i]).all_finite(),
            Command::AddMedia { item } => option_finite(item.duration) && option_finite(
                item.frame_rate,
            ),
            Command::FillSlot { media_id, item } => option_finite(item.duration) && option_finite(
                item.frame_rate,
            ),
            Command::AddClip { media_id, track_id, start, ripple } => start.finite(),
            Command::AddClipAtFirstFree { media_id, start } => start.finite(),
            Command::AddTextClip { track_id, above, start, style, duration, offset_y } =>
            start.finite() && option_finite(duration) && option_finite(offset_y) && (match style {
                Some(style) => style@.all_finite(),
                None => true,
            }),
            Command::AddLayerClip { track_id, start, duration, effect_id, name } => start.finite()
                && option_finite(duration),
            Command::SetClipSpeedCurve { clip_id, curve: points, mean } => points_finite(
                curve(points),
            ) && option_finite(mean),
            Command::SetClipKey { clip_id, property, at, value, ease } => at.finite()
                && value.finite() && ease.all_finite(),
            Command::SetEffectKey { clip_id, entry, key, at, value, ease } => at.finite()
                && value.finite() && ease.all_finite(),
            Command::ClearClipKey { clip_id, property, at } => at.finite(),
            Command::ClearEffectKey { clip_id, entry, key, at } => at.finite(),
            Command::SetClipCutout { clip_id, cutout } => match cutout {
                Some(cutout) => cutout@.all_finite(),
                None => true,
            },
            Command::AddCutoutStroke { clip_id, stroke } => stroke@.all_finite(),
            Command::MoveClips { moves } => moves_finite(moves@),
            Command::TrimClip { clip_id, edge, delta, ripple } => delta.finite(),
            Command::SplitClips { clip_ids, time } => time.finite(),
            Command::FreezeFrame { clip_id, time, duration, still } => time.finite()
                && option_finite(duration) && (match still {
                Some(item) => option_finite(item.duration) && option_finite(item.frame_rate),
                None => true,
            }),
            Command::ReplaceClipMedia { clip_id, item, source_start } => option_finite(
                item.duration,
            ) && option_finite(item.frame_rate) && option_finite(source_start),
            Command::UpdateClip { clip_id, patch } => patch.all_finite(),
            Command::SetClipSpeed { clip_id, speed } => speed.finite(),
            Command::SetClipTransform {
                clip_id,
                scale,
                offset_x,
                offset_y,
                rotation,
                stretch_x,
                stretch_y,
            } => option_finite(scale) && option_finite(offset_x) && option_finite(offset_y)
                && option_finite(rotation) && option_finite(stretch_x) && option_finite(stretch_y),
            _ => true,
        }
    }

    /// True for a command that changes what the person is looking at, not the
    /// edit: which timeline tab is showing and the order of the tabs. Saved with
    /// the document, never recorded in undo history.
    pub fn is_view_state(&self) -> (r: bool)
        ensures
            r == self.view_state(),
    {
        match self {
            Command::SelectTimeline { .. } => true,
            Command::MoveTimeline { .. } => true,
            _ => false,
        }
    }

    /// True when any number in the command is not a number or infinite. One
    /// stored would poison every duration and key it touched.
    pub fn has_non_finite(&self) -> (r: bool)
        ensures
            r == !self.all_finite(),
        decreases self,
    {
        match self {
            Command::Batch { commands } => {
                let mut i: usize = 0;
                while i < commands.len()
                    invariant
                        i <= commands.len(),
                        self matches Command::Batch { commands: held } && held == commands,
                        forall|j: int| 0 <= j < i ==> (#[trigger] commands@[j]).all_finite(),
                    decreases commands.len() - i,
                {
                    if commands[i].has_non_finite() {
                        assert(!commands@[i as int].all_finite());
                        return true;
                    }
                    i = i + 1;
                }
                false
            },
            Command::AddMedia { item } => !item.is_finite(),
            Command::FillSlot { item, .. } => !item.is_finite(),
            Command::AddClip { start, .. } => !start.is_finite(),
            Command::AddClipAtFirstFree { start, .. } => !start.is_finite(),
            Command::AddTextClip { start, duration, offset_y, style, .. } => {
                !start.is_finite() || !is_option_finite(*duration) || !is_option_finite(*offset_y)
                    || (match style {
                    Some(style) => !style.is_finite(),
                    None => false,
                })
            },
            Command::AddLayerClip { start, duration, .. } => {
                !start.is_finite() || !is_option_finite(*duration)
            },
            Command::SetClipSpeedCurve { curve, mean, .. } => {
                !are_points_finite(curve) || !is_option_finite(*mean)
            },
            Command::SetClipKey { at, value, ease, .. } => {
                !at.is_finite() || !value.is_finite() || !ease.is_finite()
            },
            Command::SetEffectKey { at, value, ease, .. } => {
                !at.is_finite() || !value.is_finite() || !ease.is_finite()
            },
            Command::ClearClipKey { at, .. } => !at.is_finite(),
            Command::ClearEffectKey { at, .. } => !at.is_finite(),
            Command::SetClipCutout { cutout, .. } => match cutout {
                Some(cutout) => !cutout.is_finite(),
                None => false,
            },
            Command::AddCutoutStroke { stroke, .. } => !stroke.is_finite(),
            Command::MoveClips { moves } => !are_moves_finite(moves),
            Command::TrimClip { delta, .. } => !delta.is_finite(),
            Command::SplitClips { time, .. } => !time.is_finite(),
            Command::FreezeFrame { time, duration, still, .. } => {
                !time.is_finite() || !is_option_finite(*duration) || (match still {
                    Some(item) => !item.is_finite(),
                    None => false,
                })
            },
            Command::ReplaceClipMedia { item, source_start, .. } => {
                !item.is_finite() || !is_option_finite(*source_start)
            },
            Command::UpdateClip { patch, .. } => !patch.is_finite(),
            Command::SetClipSpeed { speed, .. } => !speed.is_finite(),
            Command::SetClipTransform {
                scale,
                offset_x,
                offset_y,
                rotation,
                stretch_x,
                stretch_y,
                ..
            } => {
                !is_option_finite(*scale) || !is_option_finite(*offset_x) || !is_option_finite(
                    *offset_y,
                ) || !is_option_finite(*rotation) || !is_option_finite(*stretch_x)
                    || !is_option_finite(*stretch_y)
            },
            _ => false,
        }
    }
}

/// What a command produced, beyond the new state.
#[derive(Debug)]
pub struct Outcome {
    /// The id of what the command created, or, for a batch, the last id minted
    /// inside it. Absent when nothing was created.
    pub created_id: Option<String>,
    /// Whether the command actually changed the project. A tolerated no-op
    /// succeeds but reports false.
    pub applied: bool,
}

/// What an outcome says.
#[verifier::ext_equal]
pub struct OutcomeView {
    pub created_id: Option<Seq<char>>,
    pub applied: bool,
}

impl View for Outcome {
    type V = OutcomeView;

    open spec fn view(&self) -> OutcomeView {
        OutcomeView { created_id: text_of(self.created_id), applied: self.applied }
    }
}

impl Outcome {
    /// An outcome that created nothing.
    pub fn changed(applied: bool) -> (r: Outcome)
        ensures
            r@ == (OutcomeView { created_id: None, applied }),
    {
        Outcome { created_id: None, applied }
    }

    /// An outcome that created something.
    pub fn created(id: String) -> (r: Outcome)
        ensures
            r@ == (OutcomeView { created_id: Some(id@), applied: true }),
    {
        Outcome { created_id: Some(id), applied: true }
    }
}

impl Default for Outcome {
    fn default() -> (r: Outcome)
        ensures
            r@ == (OutcomeView { created_id: None, applied: false }),
    {
        Outcome { created_id: None, applied: false }
    }
}

/// Why a command was refused. Every variant has the exact sentence the window
/// shows.
#[derive(Debug)]
pub enum CommandError {
    /// A slot to fill is no longer in the bin.
    SlotGone,
    /// A slot to fill is ordinary media.
    NotASlot,
    /// A clip-placing command named media no longer in the bin.
    MediaGone,
    /// A clip-placing command named a track no longer on the timeline.
    TrackGone,
    /// A first-free-track placement found a timeline with no tracks at all.
    NoTracks,
    /// A merge was refused, for the reason given.
    CannotMerge { reason: String },
    /// The last track would have been deleted.
    LastTrack,
    /// The last timeline would have been deleted.
    LastTimeline,
    /// A number in the command is not finite.
    NotANumber,
}

/// What a refusal says.
#[verifier::ext_equal]
pub enum Refusal {
    SlotGone,
    NotASlot,
    MediaGone,
    TrackGone,
    NoTracks,
    CannotMerge { reason: Seq<char> },
    LastTrack,
    LastTimeline,
    NotANumber,
}

impl View for CommandError {
    type V = Refusal;

    open spec fn view(&self) -> Refusal {
        match self {
            CommandError::SlotGone => Refusal::SlotGone,
            CommandError::NotASlot => Refusal::NotASlot,
            CommandError::MediaGone => Refusal::MediaGone,
            CommandError::TrackGone => Refusal::TrackGone,
            CommandError::NoTracks => Refusal::NoTracks,
            CommandError::CannotMerge { reason } => Refusal::CannotMerge { reason: reason@ },
            CommandError::LastTrack => Refusal::LastTrack,
            CommandError::LastTimeline => Refusal::LastTimeline,
            CommandError::NotANumber => Refusal::NotANumber,
        }
    }
}

impl Refusal {
    /// The sentence the window shows.
    pub open spec fn sentence(self) -> Seq<char> {
        match self {
            Refusal::SlotGone => "That template slot no longer exists."@,
            Refusal::NotASlot => "That media is not a template slot."@,
            Refusal::MediaGone => "That media is no longer in the bin."@,
            Refusal::TrackGone => "That track no longer exists."@,
            Refusal::NoTracks => "There are no tracks."@,
            Refusal::CannotMerge { reason } => reason,
            Refusal::LastTrack => "A timeline needs at least one track."@,
            Refusal::LastTimeline => "A project needs at least one timeline."@,
            Refusal::NotANumber => "A number in that edit is not finite."@,
        }
    }
}

impl CommandError {
    /// The sentence the window shows.
    pub fn message(&self) -> (r: String)
        ensures
            r@ == self@.sentence(),
    {
        match self {
            CommandError::SlotGone => "That template slot no longer exists.".to_owned(),
            CommandError::NotASlot => "That media is not a template slot.".to_owned(),
            CommandError::MediaGone => "That media is no longer in the bin.".to_owned(),
            CommandError::TrackGone => "That track no longer exists.".to_owned(),
            CommandError::NoTracks => "There are no tracks.".to_owned(),
            CommandError::CannotMerge { reason } => reason.clone(),
            CommandError::LastTrack => "A timeline needs at least one track.".to_owned(),
            CommandError::LastTimeline => "A project needs at least one timeline.".to_owned(),
            CommandError::NotANumber => "A number in that edit is not finite.".to_owned(),
        }
    }
}

} // verus!
