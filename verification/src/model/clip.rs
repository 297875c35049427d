//! Clips: the placed pieces of a timeline.

use crate::find::lemma_filter_step;
use crate::model::filter::{
    around, chain, chain_same, copy_chain, find_around, rejoined, same_chain, AppliedFilter,
    FilterView,
};
use crate::model::keys::{
    closest, find_key, order_keys, ordered_keys, reaches, ClipKey, KeyEase, KeyProperty, ParamKey,
    SpeedPoint,
};
use crate::model::media::{copy_text, same_optional_text, text_of, ClipKind};
use crate::model::picture::{Crop, Cutout, CutoutView};
use crate::model::ride::{played, plays, rewindow, rewindowed, ride_of, Ride};
use crate::model::style::{StyleView, TextStyle, Transition, TransitionView};
use crate::number::{clamped, larger, num, quotient, Number, ONE, ZERO};
use crate::ranges::{
    finite, finite_or, in_clip, is_in_clip, wrap_rotation, wrapped, MAX_OFFSET, MAX_SCALE,
    MAX_SPEED, MAX_STRETCH, MIN_CLIP_DURATION, MIN_OFFSET, MIN_SCALE, MIN_SPEED, MIN_STRETCH,
    MIN_TRANSITION,
};
use vstd::prelude::*;

verus! {

/// One placed piece of a timeline: a stretch of media (or a title) with its
/// timing, mix, transform, and effects.
#[derive(Debug)]
pub struct Clip {
    /// Minted by the editor; how every command names its target.
    pub id: String,
    /// The lane this clip sits on.
    pub track_id: String,
    /// Empty for a clip with no file behind it.
    pub media_id: String,
    /// Display label.
    pub name: String,
    /// What this clip renders as.
    pub kind: ClipKind,
    /// Seconds from the start of the timeline.
    pub start: Number,
    /// Seconds of timeline the clip occupies.
    pub duration: Number,
    /// In-point: how far into the media the clip starts.
    pub source_start: Number,
    /// Linear gain, 1 being unity.
    pub volume: Number,
    /// Seconds of ramp-in at the head.
    pub fade_in: Number,
    /// Seconds of ramp-out at the tail.
    pub fade_out: Number,
    /// Multiplier over the fitted size.
    pub scale: Number,
    /// Offset from centred, as a fraction of frame width.
    pub offset_x: Number,
    /// The vertical half of the pair; positive moves down.
    pub offset_y: Number,
    /// Clockwise rotation in degrees.
    pub rotation: Number,
    /// A multiplier on the fitted width beyond `scale`.
    pub stretch_x: Number,
    /// The same for the height.
    pub stretch_y: Number,
    /// Blend strength over whatever is beneath, in 0..1.
    pub opacity: Number,
    /// Playback rate. With a curve set this is the curve's mean.
    pub speed: Number,
    /// Speed as it changes over the clip. None is the constant rate.
    pub speed_curve: Option<Vec<SpeedPoint>>,
    /// The user's own keys, sorted by property and then by position.
    pub keys: Vec<ClipKey>,
    /// Mirrored left to right.
    pub flip_h: bool,
    /// Mirrored top to bottom.
    pub flip_v: bool,
    /// How the picture's colour meets what is beneath it; empty is normal.
    pub blend: String,
    /// What is cut off each edge of the source before it is fitted.
    pub crop: Option<Crop>,
    /// The background taken away by a mask.
    pub cutout: Option<Cutout>,
    /// Keep voices at their natural pitch when `speed` is not 1.
    pub preserve_pitch: bool,
    /// Audio filters, in order.
    pub filters: Vec<AppliedFilter>,
    /// Video effects, in order.
    pub video_effects: Vec<AppliedFilter>,
    /// Which of the media's audio streams this clip plays; None is the first.
    pub audio_stream: Option<u32>,
    /// True when a video clip's embedded audio is detached out of it.
    pub muted: Option<bool>,
    /// On a detached audio clip: the video clip the sound came from.
    pub detached_from: Option<String>,
    /// The transition on the cut into this clip, if any.
    pub transition_in: Option<Transition>,
    /// The overlay, when this is a text clip.
    pub text: Option<TextStyle>,
    /// Fields this build does not know, as the text they were read from.
    pub extra: String,
}

/// What a clip says.
#[verifier::ext_equal]
pub struct ClipView {
    pub id: Seq<char>,
    pub track_id: Seq<char>,
    pub media_id: Seq<char>,
    pub name: Seq<char>,
    pub kind: ClipKind,
    pub start: Number,
    pub duration: Number,
    pub source_start: Number,
    pub volume: Number,
    pub fade_in: Number,
    pub fade_out: Number,
    pub scale: Number,
    pub offset_x: Number,
    pub offset_y: Number,
    pub rotation: Number,
    pub stretch_x: Number,
    pub stretch_y: Number,
    pub opacity: Number,
    pub speed: Number,
    pub speed_curve: Option<Seq<SpeedPoint>>,
    pub keys: Seq<ClipKey>,
    pub flip_h: bool,
    pub flip_v: bool,
    pub blend: Seq<char>,
    pub crop: Option<Crop>,
    pub cutout: Option<CutoutView>,
    pub preserve_pitch: bool,
    pub filters: Seq<FilterView>,
    pub video_effects: Seq<FilterView>,
    pub audio_stream: Option<u32>,
    pub muted: Option<bool>,
    pub detached_from: Option<Seq<char>>,
    pub transition_in: Option<TransitionView>,
    pub text: Option<StyleView>,
    pub extra: Seq<char>,
}

impl View for Clip {
    type V = ClipView;

    open spec fn view(&self) -> ClipView {
        ClipView {
            id: self.id@,
            track_id: self.track_id@,
            media_id: self.media_id@,
            name: self.name@,
            kind: self.kind,
            start: self.start,
            duration: self.duration,
            source_start: self.source_start,
            volume: self.volume,
            fade_in: self.fade_in,
            fade_out: self.fade_out,
            scale: self.scale,
            offset_x: self.offset_x,
            offset_y: self.offset_y,
            rotation: self.rotation,
            stretch_x: self.stretch_x,
            stretch_y: self.stretch_y,
            opacity: self.opacity,
            speed: self.speed,
            speed_curve: curve(self.speed_curve),
            keys: self.keys@,
            flip_h: self.flip_h,
            flip_v: self.flip_v,
            blend: self.blend@,
            crop: self.crop,
            cutout: cutout_of(self.cutout),
            preserve_pitch: self.preserve_pitch,
            filters: chain(self.filters@),
            video_effects: chain(self.video_effects@),
            audio_stream: self.audio_stream,
            muted: self.muted,
            detached_from: text_of(self.detached_from),
            transition_in: transition_of(self.transition_in),
            text: style_of(self.text),
            extra: self.extra@,
        }
    }
}

impl Clone for Clip {
    fn clone(&self) -> (r: Clip)
        ensures
            r@ == self@,
    {
        Clip {
            id: self.id.clone(),
            track_id: self.track_id.clone(),
            media_id: self.media_id.clone(),
            name: self.name.clone(),
            kind: self.kind,
            start: self.start,
            duration: self.duration,
            source_start: self.source_start,
            volume: self.volume,
            fade_in: self.fade_in,
            fade_out: self.fade_out,
            scale: self.scale,
            offset_x: self.offset_x,
            offset_y: self.offset_y,
            rotation: self.rotation,
            stretch_x: self.stretch_x,
            stretch_y: self.stretch_y,
            opacity: self.opacity,
            speed: self.speed,
            speed_curve: copy_curve(&self.speed_curve),
            keys: copy_keys(&self.keys),
            flip_h: self.flip_h,
            flip_v: self.flip_v,
            blend: self.blend.clone(),
            crop: self.crop,
            cutout: copy_cutout(&self.cutout),
            preserve_pitch: self.preserve_pitch,
            filters: copy_chain(&self.filters),
            video_effects: copy_chain(&self.video_effects),
            audio_stream: self.audio_stream,
            muted: self.muted,
            detached_from: copy_text(&self.detached_from),
            transition_in: copy_transition(&self.transition_in),
            text: copy_style(&self.text),
            extra: self.extra.clone(),
        }
    }
}

pub open spec fn cutout_of(value: Option<Cutout>) -> Option<CutoutView> {
    match value {
        Some(held) => Some(held@),
        None => None,
    }
}

/// A copy of an optional cutout.
pub fn copy_cutout(value: &Option<Cutout>) -> (r: Option<Cutout>)
    ensures
        cutout_of(r) == cutout_of(*value),
{
    match value {
        Some(held) => Some(held.clone()),
        None => None,
    }
}

pub open spec fn cutout_same(a: Option<CutoutView>, b: Option<CutoutView>) -> bool {
    match (a, b) {
        (Some(x), Some(y)) => x.same(y),
        (None, None) => true,
        _ => false,
    }
}

pub fn same_cutout(a: &Option<Cutout>, b: &Option<Cutout>) -> (r: bool)
    ensures
        r == cutout_same(cutout_of(*a), cutout_of(*b)),
{
    match (a, b) {
        (Some(x), Some(y)) => x.same(y),
        (None, None) => true,
        _ => false,
    }
}

pub open spec fn transition_of(value: Option<Transition>) -> Option<TransitionView> {
    match value {
        Some(held) => Some(held@),
        None => None,
    }
}

/// A copy of an optional transition.
pub fn copy_transition(value: &Option<Transition>) -> (r: Option<Transition>)
    ensures
        transition_of(r) == transition_of(*value),
{
    match value {
        Some(held) => Some(held.clone()),
        None => None,
    }
}

pub open spec fn transition_same(a: Option<TransitionView>, b: Option<TransitionView>) -> bool {
    match (a, b) {
        (Some(x), Some(y)) => x.same(y),
        (None, None) => true,
        _ => false,
    }
}

pub fn same_transition(a: &Option<Transition>, b: &Option<Transition>) -> (r: bool)
    ensures
        r == transition_same(transition_of(*a), transition_of(*b)),
{
    match (a, b) {
        (Some(x), Some(y)) => x.same(y),
        (None, None) => true,
        _ => false,
    }
}

pub open spec fn style_of(value: Option<TextStyle>) -> Option<StyleView> {
    match value {
        Some(held) => Some(held@),
        None => None,
    }
}

/// A copy of an optional title style.
pub fn copy_style(value: &Option<TextStyle>) -> (r: Option<TextStyle>)
    ensures
        style_of(r) == style_of(*value),
{
    match value {
        Some(held) => Some(held.clone()),
        None => None,
    }
}

pub open spec fn style_same(a: Option<StyleView>, b: Option<StyleView>) -> bool {
    match (a, b) {
        (Some(x), Some(y)) => x.same(y),
        (None, None) => true,
        _ => false,
    }
}

pub fn same_style(a: &Option<TextStyle>, b: &Option<TextStyle>) -> (r: bool)
    ensures
        r == style_same(style_of(*a), style_of(*b)),
{
    match (a, b) {
        (Some(x), Some(y)) => x.same(y),
        (None, None) => true,
        _ => false,
    }
}

pub open spec fn crop_same(a: Option<Crop>, b: Option<Crop>) -> bool {
    match (a, b) {
        (Some(x), Some(y)) => x.same(y),
        (None, None) => true,
        _ => false,
    }
}

pub fn same_crop(a: &Option<Crop>, b: &Option<Crop>) -> (r: bool)
    ensures
        r == crop_same(*a, *b),
{
    match (a, b) {
        (Some(x), Some(y)) => x.equals(y),
        (None, None) => true,
        _ => false,
    }
}

/// What an optional speed curve says.
pub open spec fn curve(points: Option<Vec<SpeedPoint>>) -> Option<Seq<SpeedPoint>> {
    match points {
        Some(held) => Some(held@),
        None => None,
    }
}

/// A copy of an optional speed curve.
pub fn copy_curve(points: &Option<Vec<SpeedPoint>>) -> (r: Option<Vec<SpeedPoint>>)
    ensures
        curve(r) == curve(*points),
{
    match points {
        Some(held) => {
            let r: Vec<SpeedPoint> = held.clone();
            assert(r@ =~= held@);
            Some(r)
        },
        None => None,
    }
}

pub open spec fn curve_same(a: Option<Seq<SpeedPoint>>, b: Option<Seq<SpeedPoint>>) -> bool {
    match (a, b) {
        (Some(x), Some(y)) => x.len() == y.len() && forall|i: int|
            0 <= i < x.len() ==> (#[trigger] x[i]).at.same(y[i].at) && x[i].speed.same(y[i].speed),
        (None, None) => true,
        _ => false,
    }
}

pub fn same_curve(a: &Option<Vec<SpeedPoint>>, b: &Option<Vec<SpeedPoint>>) -> (r: bool)
    ensures
        r == curve_same(curve(*a), curve(*b)),
{
    match (a, b) {
        (Some(x), Some(y)) => {
            if x.len() != y.len() {
                return false;
            }
            let mut i: usize = 0;
            while i < x.len()
                invariant
                    i <= x.len() == y.len(),
                    curve(*a) == Some(x@),
                    curve(*b) == Some(y@),
                    forall|j: int|
                        0 <= j < i ==> (#[trigger] x@[j]).at.same(y@[j].at) && x@[j].speed.same(
                            y@[j].speed,
                        ),
                decreases x.len() - i,
            {
                if !(x[i].at.equals(y[i].at) && x[i].speed.equals(y[i].speed)) {
                    assert(!(x@[i as int].at.same(y@[i as int].at) && x@[i as int].speed.same(
                        y@[i as int].speed,
                    )));
                    return false;
                }
                i = i + 1;
            }
            true
        },
        (None, None) => true,
        _ => false,
    }
}

/// A copy of a clip's keys.
pub fn copy_keys(keys: &Vec<ClipKey>) -> (r: Vec<ClipKey>)
    ensures
        r@ == keys@,
{
    let r: Vec<ClipKey> = keys.clone();
    assert(r@ =~= keys@);
    r
}

pub open spec fn keys_same(a: Seq<ClipKey>, b: Seq<ClipKey>) -> bool {
    a.len() == b.len() && forall|i: int| 0 <= i < a.len() ==> (#[trigger] a[i]).same(b[i])
}

/// Whether two clips' keys are the same keys.
pub fn same_keys(a: &Vec<ClipKey>, b: &Vec<ClipKey>) -> (r: bool)
    ensures
        r == keys_same(a@, b@),
{
    if a.len() != b.len() {
        return false;
    }
    let mut i: usize = 0;
    while i < a.len()
        invariant
            i <= a.len() == b.len(),
            forall|j: int| 0 <= j < i ==> (#[trigger] a@[j]).same(b@[j]),
        decreases a.len() - i,
    {
        if !a[i].equals(&b[i]) {
            assert(!a@[i as int].same(b@[i as int]));
            return false;
        }
        i = i + 1;
    }
    true
}

/// A key held to what its property's own field may hold. Rotation is the
/// exception: a key past a full turn is a spin.
pub open spec fn held_value(property: KeyProperty, value: Number) -> Number {
    match property {
        KeyProperty::Scale => clamped(value, num(MIN_SCALE), num(MAX_SCALE)),
        KeyProperty::Opacity => clamped(value, num(ZERO), num(ONE)),
        KeyProperty::Volume => larger(value, num(ZERO)),
        KeyProperty::OffsetX => clamped(value, num(MIN_OFFSET), num(MAX_OFFSET)),
        KeyProperty::OffsetY => clamped(value, num(MIN_OFFSET), num(MAX_OFFSET)),
        KeyProperty::Rotation => value,
    }
}

fn hold_value(property: KeyProperty, value: Number) -> (r: Number)
    ensures
        r == held_value(property, value),
{
    match property {
        KeyProperty::Scale => value.clamp(num(MIN_SCALE), num(MAX_SCALE)),
        KeyProperty::Opacity => value.clamp(num(ZERO), num(ONE)),
        KeyProperty::Volume => value.max(num(ZERO)),
        KeyProperty::OffsetX => value.clamp(num(MIN_OFFSET), num(MAX_OFFSET)),
        KeyProperty::OffsetY => value.clamp(num(MIN_OFFSET), num(MAX_OFFSET)),
        KeyProperty::Rotation => value,
    }
}

pub open spec fn held_key(key: ClipKey) -> ClipKey {
    ClipKey {
        value: held_value(key.property, key.value),
        ease: key.ease.or_straight(),
        ..key
    }
}

/// The keys that can be played, each held to its property's range, in order.
pub open spec fn tidied_keys(keys: Seq<ClipKey>) -> Seq<ClipKey> {
    ordered_keys(
        keys.filter(|k: ClipKey| in_clip(k.at) && k.value.finite()).map_values(
            |k: ClipKey| held_key(k),
        ),
    )
}

pub open spec fn held_point(point: SpeedPoint) -> SpeedPoint {
    SpeedPoint {
        at: point.at,
        speed: clamped(finite_or(point.speed, num(ONE)), num(MIN_SPEED), num(MAX_SPEED)),
    }
}

pub open spec fn tidied_points(points: Seq<SpeedPoint>) -> Seq<SpeedPoint> {
    points.filter(|p: SpeedPoint| p.at.finite() && in_clip(p.at)).map_values(
        |p: SpeedPoint| held_point(p),
    )
}

/// The curve's points that lie in the clip, each at a speed the engine plays;
/// no curve where none does.
pub open spec fn tidied_curve(points: Option<Seq<SpeedPoint>>) -> Option<Seq<SpeedPoint>> {
    match points {
        Some(held) => if tidied_points(held).len() > 0 {
            Some(tidied_points(held))
        } else {
            None
        },
        None => None,
    }
}

/// The crop in range; none where nothing is cut.
pub open spec fn tidied_crop(crop: Option<Crop>) -> Option<Crop> {
    match crop {
        Some(held) => if held.tidied().nothing() {
            None
        } else {
            Some(held.tidied())
        },
        None => None,
    }
}

/// The crop in range; none where nothing is cut.
pub fn tidy_crop(crop: Option<Crop>) -> (r: Option<Crop>)
    ensures
        r == tidied_crop(crop),
{
    match crop {
        Some(held) => {
            let tidy: Crop = held.tidy();
            if tidy.is_none() {
                None
            } else {
                Some(tidy)
            }
        },
        None => None,
    }
}

impl TransitionView {
    pub open spec fn tidied(self) -> TransitionView {
        TransitionView {
            duration: larger(finite_or(self.duration, num(ONE)), num(MIN_TRANSITION)),
            ..self
        }
    }
}

pub open spec fn tidied_chain(filters: Seq<FilterView>) -> Seq<FilterView> {
    filters.map_values(|f: FilterView| f.tidied())
}

pub open spec fn windowed_chain(
    filters: Seq<FilterView>,
    a: Number,
    b: Number,
    ride: Ride,
) -> Seq<FilterView> {
    filters.map_values(|f: FilterView| f.windowed(a, b, ride))
}

/// A chain with a later piece's keys on it, link by link, where the links are
/// the same effect.
pub open spec fn absorbed_chain(
    mine: Seq<FilterView>,
    theirs: Seq<FilterView>,
    offset: Number,
    length: Number,
    duration: Number,
) -> Seq<FilterView> {
    Seq::new(
        mine.len(),
        |i: int|
            if i < theirs.len() && mine[i].id == theirs[i].id {
                mine[i].absorbed(theirs[i], offset, length, duration)
            } else {
                mine[i]
            },
    )
}

/// The keys of one property.
pub open spec fn keys_of(keys: Seq<ClipKey>, property: KeyProperty) -> Seq<ClipKey> {
    keys.filter(|k: ClipKey| k.property == property)
}

pub open spec fn keys_without(keys: Seq<ClipKey>, property: KeyProperty) -> Seq<ClipKey> {
    keys.filter(|k: ClipKey| k.property != property)
}

/// Keys as the points of a ride.
pub open spec fn points_of(keys: Seq<ClipKey>) -> Seq<ParamKey> {
    keys.map_values(|k: ClipKey| k.point())
}

/// The points of a ride as keys of a property.
pub open spec fn keys_from(points: Seq<ParamKey>, property: KeyProperty) -> Seq<ClipKey> {
    points.map_values(
        |k: ParamKey| ClipKey { property, at: k.at, value: k.value, ease: k.ease },
    )
}

/// Keys with one put on a property at a position: over the key already there,
/// else added, and in order again.
pub open spec fn keys_with(
    keys: Seq<ClipKey>,
    property: KeyProperty,
    at: Number,
    value: Number,
    ease: KeyEase,
) -> Seq<ClipKey> {
    let place = clamped(at, num(ZERO), num(ONE));
    let key = ClipKey { property, at: place, value, ease };
    ordered_keys(
        match closest(reaches(keys, property, place)) {
            Some(i) => keys.update(i, key),
            None => keys.push(key),
        },
    )
}

/// Whether a window can be measured against a length.
pub open spec fn measurable(old: Number, from: Number, to: Number) -> bool {
    old.finite() && num(ZERO).less(old) && to.finite() && from.less(to)
}

impl ClipView {
    /// A clip with nothing set but what names and places it.
    pub open spec fn blank(
        id: Seq<char>,
        track_id: Seq<char>,
        kind: ClipKind,
        name: Seq<char>,
        start: Number,
        duration: Number,
    ) -> ClipView {
        ClipView {
            id,
            track_id,
            media_id: Seq::empty(),
            name,
            kind,
            start: larger(start, num(ZERO)),
            duration: larger(duration, num(MIN_CLIP_DURATION)),
            source_start: num(ZERO),
            volume: num(ONE),
            fade_in: num(ZERO),
            fade_out: num(ZERO),
            scale: num(ONE),
            offset_x: num(ZERO),
            offset_y: num(ZERO),
            rotation: num(ZERO),
            stretch_x: num(ONE),
            stretch_y: num(ONE),
            opacity: num(ONE),
            speed: num(ONE),
            speed_curve: None,
            keys: Seq::empty(),
            flip_h: false,
            flip_v: false,
            blend: Seq::empty(),
            crop: None,
            cutout: None,
            preserve_pitch: true,
            filters: Seq::empty(),
            video_effects: Seq::empty(),
            audio_stream: None,
            muted: None,
            detached_from: None,
            transition_in: None,
            text: None,
            extra: Seq::empty(),
        }
    }

    /// The clip with every number in the range a command would have held it to.
    #[verifier::opaque]
    pub open spec fn tidied(self) -> ClipView {
        ClipView {
            start: larger(finite_or(self.start, num(ZERO)), num(ZERO)),
            duration: larger(finite_or(self.duration, num(ONE)), num(MIN_CLIP_DURATION)),
            source_start: larger(finite_or(self.source_start, num(ZERO)), num(ZERO)),
            volume: larger(finite_or(self.volume, num(ONE)), num(ZERO)),
            fade_in: larger(finite_or(self.fade_in, num(ZERO)), num(ZERO)),
            fade_out: larger(finite_or(self.fade_out, num(ZERO)), num(ZERO)),
            scale: clamped(finite_or(self.scale, num(ONE)), num(MIN_SCALE), num(MAX_SCALE)),
            offset_x: clamped(finite_or(self.offset_x, num(ZERO)), num(MIN_OFFSET), num(MAX_OFFSET)),
            offset_y: clamped(finite_or(self.offset_y, num(ZERO)), num(MIN_OFFSET), num(MAX_OFFSET)),
            rotation: wrapped(finite_or(self.rotation, num(ZERO))),
            stretch_x: clamped(finite_or(self.stretch_x, num(ONE)), num(MIN_STRETCH), num(MAX_STRETCH)),
            stretch_y: clamped(finite_or(self.stretch_y, num(ONE)), num(MIN_STRETCH), num(MAX_STRETCH)),
            opacity: clamped(finite_or(self.opacity, num(ONE)), num(ZERO), num(ONE)),
            speed: clamped(finite_or(self.speed, num(ONE)), num(MIN_SPEED), num(MAX_SPEED)),
            speed_curve: tidied_curve(self.speed_curve),
            keys: tidied_keys(self.keys),
            crop: tidied_crop(self.crop),
            cutout: match self.cutout {
                Some(cutout) => Some(cutout.tidied()),
                None => None,
            },
            filters: tidied_chain(self.filters),
            video_effects: tidied_chain(self.video_effects),
            muted: if self.muted == Some(false) {
                None
            } else {
                self.muted
            },
            transition_in: match self.transition_in {
                Some(transition) => Some(transition.tidied()),
                None => None,
            },
            text: match self.text {
                Some(style) => Some(style.tidied()),
                None => None,
            },
            ..self
        }
    }

    pub open spec fn constant(self, property: KeyProperty) -> Number {
        match property {
            KeyProperty::Scale => self.scale,
            KeyProperty::OffsetX => self.offset_x,
            KeyProperty::OffsetY => self.offset_y,
            KeyProperty::Rotation => self.rotation,
            KeyProperty::Opacity => self.opacity,
            KeyProperty::Volume => self.volume,
        }
    }

    pub open spec fn with_key(
        self,
        property: KeyProperty,
        at: Number,
        value: Number,
        ease: KeyEase,
    ) -> ClipView {
        if !at.finite() || !value.finite() {
            self
        } else {
            ClipView { keys: keys_with(self.keys, property, at, value, ease), ..self }
        }
    }

    pub open spec fn without_key(self, property: KeyProperty, at: Number) -> ClipView {
        match closest(reaches(self.keys, property, at)) {
            Some(i) => ClipView { keys: self.keys.remove(i), ..self },
            None => self,
        }
    }

    /// One property's keys carried onto the window `(a, b)` of the old length.
    pub open spec fn windowed_property(
        self,
        property: KeyProperty,
        a: Number,
        b: Number,
        ride: Ride,
    ) -> ClipView {
        let held = keys_of(self.keys, property);
        if held.len() == 0 {
            self
        } else {
            let moved = rewindowed(points_of(held), a, b, ride, self.constant(property));
            ClipView {
                keys: keys_without(self.keys, property) + keys_from(moved, property),
                ..self
            }
        }
    }

    /// Every key re-anchored after the clip's span changed: `old` is the length
    /// the keys were set against, and `[from, to]` the window of that length the
    /// clip now covers.
    #[verifier::opaque]
    pub open spec fn windowed(self, old: Number, from: Number, to: Number, ride: Ride) -> ClipView {
        if !measurable(old, from, to) {
            self
        } else {
            let a = quotient(from, old);
            let b = quotient(to, old);
            let moved = self.windowed_property(KeyProperty::Scale, a, b, ride).windowed_property(
                KeyProperty::OffsetX,
                a,
                b,
                ride,
            ).windowed_property(KeyProperty::OffsetY, a, b, ride).windowed_property(
                KeyProperty::Rotation,
                a,
                b,
                ride,
            ).windowed_property(KeyProperty::Opacity, a, b, ride).windowed_property(
                KeyProperty::Volume,
                a,
                b,
                ride,
            );
            ClipView {
                keys: ordered_keys(moved.keys),
                filters: windowed_chain(self.filters, a, b, ride),
                video_effects: windowed_chain(self.video_effects, a, b, ride),
                ..self
            }
        }
    }

    /// A later piece's own keys put on this clip, one after another.
    pub open spec fn with_keys_of(
        self,
        keys: Seq<ClipKey>,
        offset: Number,
        length: Number,
        duration: Number,
    ) -> ClipView
        decreases keys.len(),
    {
        if keys.len() == 0 {
            self
        } else {
            let key = keys.last();
            self.with_keys_of(keys.drop_last(), offset, length, duration).with_key(
                key.property,
                rejoined(key.at, offset, length, duration),
                key.value,
                key.ease,
            )
        }
    }

    /// This clip with the keys of a piece merged into it, which sat `offset`
    /// seconds after its start.
    #[verifier::opaque]
    pub open spec fn absorbed(self, piece: ClipView, offset: Number) -> ClipView {
        if !(self.duration.finite() && num(ZERO).less(self.duration)) {
            self
        } else {
            ClipView {
                filters: absorbed_chain(
                    self.filters,
                    piece.filters,
                    offset,
                    piece.duration,
                    self.duration,
                ),
                video_effects: absorbed_chain(
                    self.video_effects,
                    piece.video_effects,
                    offset,
                    piece.duration,
                    self.duration,
                ),
                ..self.with_keys_of(piece.keys, offset, piece.duration, self.duration)
            }
        }
    }

    /// Whether two clips are the same clip, number by number.
    pub open spec fn same(self, other: ClipView) -> bool {
        &&& self.id == other.id
        &&& self.track_id == other.track_id
        &&& self.media_id == other.media_id
        &&& self.name == other.name
        &&& self.kind == other.kind
        &&& self.start.same(other.start)
        &&& self.duration.same(other.duration)
        &&& self.source_start.same(other.source_start)
        &&& self.volume.same(other.volume)
        &&& self.fade_in.same(other.fade_in)
        &&& self.fade_out.same(other.fade_out)
        &&& self.scale.same(other.scale)
        &&& self.offset_x.same(other.offset_x)
        &&& self.offset_y.same(other.offset_y)
        &&& self.rotation.same(other.rotation)
        &&& self.stretch_x.same(other.stretch_x)
        &&& self.stretch_y.same(other.stretch_y)
        &&& self.opacity.same(other.opacity)
        &&& self.speed.same(other.speed)
        &&& curve_same(self.speed_curve, other.speed_curve)
        &&& keys_same(self.keys, other.keys)
        &&& self.flip_h == other.flip_h
        &&& self.flip_v == other.flip_v
        &&& self.blend == other.blend
        &&& crop_same(self.crop, other.crop)
        &&& cutout_same(self.cutout, other.cutout)
        &&& self.preserve_pitch == other.preserve_pitch
        &&& chain_same(self.filters, other.filters)
        &&& chain_same(self.video_effects, other.video_effects)
        &&& self.audio_stream == other.audio_stream
        &&& self.muted == other.muted
        &&& self.detached_from == other.detached_from
        &&& transition_same(self.transition_in, other.transition_in)
        &&& style_same(self.text, other.text)
        &&& self.extra == other.extra
    }
}

impl Clip {
    /// A clip with nothing set but what names and places it: unity gain, scale
    /// and speed, no fades, no effects, no keys.
    pub fn blank(
        id: String,
        track_id: String,
        kind: ClipKind,
        name: String,
        start: Number,
        duration: Number,
    ) -> (r: Clip)
        ensures
            r@ == ClipView::blank(id@, track_id@, kind, name@, start, duration),
    {
        let r: Clip = Clip {
            id,
            track_id,
            media_id: String::new(),
            name,
            kind,
            start: start.max(num(ZERO)),
            duration: duration.max(num(MIN_CLIP_DURATION)),
            source_start: num(ZERO),
            volume: num(ONE),
            fade_in: num(ZERO),
            fade_out: num(ZERO),
            scale: num(ONE),
            offset_x: num(ZERO),
            offset_y: num(ZERO),
            rotation: num(ZERO),
            stretch_x: num(ONE),
            stretch_y: num(ONE),
            opacity: num(ONE),
            speed: num(ONE),
            speed_curve: None,
            keys: Vec::new(),
            flip_h: false,
            flip_v: false,
            blend: String::new(),
            crop: None,
            cutout: None,
            preserve_pitch: true,
            filters: Vec::new(),
            video_effects: Vec::new(),
            audio_stream: None,
            muted: None,
            detached_from: None,
            transition_in: None,
            text: None,
            extra: String::new(),
        };
        assert(r@.filters =~= Seq::<FilterView>::empty());
        assert(r@.video_effects =~= Seq::<FilterView>::empty());
        r
    }

    /// Pulls every number back into the range a command would have held it to:
    /// the floors and ceilings, the rotation wrapped, non-finite values replaced
    /// by their neutral, the crop and the cutout tidied, the keys sorted.
    pub fn tidy(self) -> (r: Clip)
        ensures
            r@ == self@.tidied(),
    {
        proof {
            reveal(ClipView::tidied);
        }
        let start: Number = finite(self.start, num(ZERO)).max(num(ZERO));
        let duration: Number = finite(self.duration, num(ONE)).max(num(MIN_CLIP_DURATION));
        let source_start: Number = finite(self.source_start, num(ZERO)).max(num(ZERO));
        let volume: Number = finite(self.volume, num(ONE)).max(num(ZERO));
        let fade_in: Number = finite(self.fade_in, num(ZERO)).max(num(ZERO));
        let fade_out: Number = finite(self.fade_out, num(ZERO)).max(num(ZERO));
        let scale: Number = finite(self.scale, num(ONE)).clamp(num(MIN_SCALE), num(MAX_SCALE));
        let offset_x: Number = finite(self.offset_x, num(ZERO)).clamp(num(MIN_OFFSET), num(MAX_OFFSET));
        let offset_y: Number = finite(self.offset_y, num(ZERO)).clamp(num(MIN_OFFSET), num(MAX_OFFSET));
        let rotation: Number = wrap_rotation(finite(self.rotation, num(ZERO)));
        let stretch_x: Number = finite(self.stretch_x, num(ONE)).clamp(num(MIN_STRETCH), num(MAX_STRETCH));
        let stretch_y: Number = finite(self.stretch_y, num(ONE)).clamp(num(MIN_STRETCH), num(MAX_STRETCH));
        let opacity: Number = finite(self.opacity, num(ONE)).clamp(num(ZERO), num(ONE));
        let speed: Number = finite(self.speed, num(ONE)).clamp(num(MIN_SPEED), num(MAX_SPEED));
        let speed_curve: Option<Vec<SpeedPoint>> = tidy_curve(&self.speed_curve);
        let crop: Option<Crop> = tidy_crop(self.crop);
        let cutout: Option<Cutout> = match self.cutout {
            Some(cutout) => Some(cutout.tidy()),
            None => None,
        };
        let transition_in: Option<Transition> = match self.transition_in {
            Some(transition) => Some(
                Transition {
                    id: transition.id,
                    duration: finite(transition.duration, num(ONE)).max(num(MIN_TRANSITION)),
                },
            ),
            None => None,
        };
        let keys: Vec<ClipKey> = tidy_keys(&self.keys);
        let filters: Vec<AppliedFilter> = tidy_chain(&self.filters);
        let video_effects: Vec<AppliedFilter> = tidy_chain(&self.video_effects);
        let text: Option<TextStyle> = match self.text {
            Some(style) => Some(style.tidy()),
            None => None,
        };
        let muted: Option<bool> = match self.muted {
            Some(false) => None,
            other => other,
        };
        Clip {
            start,
            duration,
            source_start,
            volume,
            fade_in,
            fade_out,
            scale,
            offset_x,
            offset_y,
            rotation,
            stretch_x,
            stretch_y,
            opacity,
            speed,
            speed_curve,
            keys,
            crop,
            cutout,
            filters,
            video_effects,
            muted,
            transition_in,
            text,
            ..self
        }
    }

    /// The clip's own constant for a keyable property.
    pub fn constant(&self, property: KeyProperty) -> (r: Number)
        ensures
            r == self@.constant(property),
    {
        match property {
            KeyProperty::Scale => self.scale,
            KeyProperty::OffsetX => self.offset_x,
            KeyProperty::OffsetY => self.offset_y,
            KeyProperty::Rotation => self.rotation,
            KeyProperty::Opacity => self.opacity,
            KeyProperty::Volume => self.volume,
        }
    }

    /// This property's keys, in order.
    pub fn keys_on(&self, property: KeyProperty) -> (r: Vec<ClipKey>)
        ensures
            r@ == keys_of(self@.keys, property),
    {
        pick_keys(&self.keys, property)
    }

    /// Whether this property is keyed at all.
    pub fn is_keyed(&self, property: KeyProperty) -> (r: bool)
        ensures
            r == (keys_of(self@.keys, property).len() > 0),
    {
        self.keys_on(property).len() > 0
    }

    /// The index into `keys` of this property's key at `at`, choosing the
    /// nearest when two are in reach.
    pub fn key_at(&self, property: KeyProperty, at: Number) -> (r: Option<usize>)
        ensures
            match r {
                Some(i) => i < self.keys.len() && closest(reaches(self@.keys, property, at)) == Some(
                    i as int,
                ),
                None => closest(reaches(self@.keys, property, at)) is None,
            },
    {
        find_key(&self.keys, property, at)
    }

    /// This property's keys as the engine plays them.
    pub fn track_on(&self, property: KeyProperty) -> (r: Vec<ParamKey>)
        ensures
            r@ == points_of(keys_of(self@.keys, property)),
    {
        let held: Vec<ClipKey> = self.keys_on(property);
        to_points(&held)
    }

    /// What a property is worth at `at`: its ride where it is keyed, and its
    /// constant where it is not.
    pub fn value_at<F: Fn(&Vec<ParamKey>, Number, Number) -> Number>(
        &self,
        property: KeyProperty,
        at: Number,
        engine: &F,
    ) -> (r: Number)
        requires
            plays(*engine),
        ensures
            r == (if keys_of(self@.keys, property).len() > 0 {
                ride_of(*engine)(
                    points_of(keys_of(self@.keys, property)),
                    at,
                    self@.constant(property),
                )
            } else {
                self@.constant(property)
            }),
    {
        let constant: Number = self.constant(property);
        let track: Vec<ParamKey> = self.track_on(property);
        if track.len() == 0 {
            return constant;
        }
        played(engine, &track, at, constant)
    }

    /// The nearest key strictly before `at`, and the nearest strictly after.
    pub fn keys_around(&self, property: KeyProperty, at: Number) -> (r: (
        Option<Number>,
        Option<Number>,
    ))
        ensures
            r == around(keys_of(self@.keys, property).map_values(|k: ClipKey| k.at), at),
    {
        let held: Vec<ClipKey> = self.keys_on(property);
        let mut ats: Vec<Number> = Vec::new();
        let mut i: usize = 0;
        while i < held.len()
            invariant
                i <= held.len(),
                ats@ =~= held@.take(i as int).map_values(|k: ClipKey| k.at),
            decreases held.len() - i,
        {
            ats.push(held[i].at);
            i = i + 1;
        }
        assert(held@.take(held@.len() as int) =~= held@);
        find_around(&ats, at)
    }

    /// Sets a key, replacing whichever key on that property was already within
    /// a hair of `at`. Keeps `keys` sorted by property and then by `at`.
    pub fn set_key(&mut self, property: KeyProperty, at: Number, value: Number, ease: KeyEase)
        ensures
            final(self)@ == old(self)@.with_key(property, at, value, ease),
    {
        if !at.is_finite() || !value.is_finite() {
            return ;
        }
        let at: Number = at.clamp(num(ZERO), num(ONE));
        let key: ClipKey = ClipKey { property, at, value, ease };
        let mut keys: Vec<ClipKey> = copy_keys(&self.keys);
        match find_key(&keys, property, at) {
            Some(index) => {
                keys.set(index, key);
            },
            None => {
                keys.push(key);
            },
        }
        self.keys = order_keys(&keys);
    }

    /// Removes this property's key at `at`, if there is one. True when a key
    /// actually went.
    pub fn clear_key(&mut self, property: KeyProperty, at: Number) -> (r: bool)
        ensures
            final(self)@ == old(self)@.without_key(property, at),
            r == (closest(reaches(old(self)@.keys, property, at)) is Some),
    {
        let mut keys: Vec<ClipKey> = copy_keys(&self.keys);
        match find_key(&keys, property, at) {
            Some(index) => {
                keys.remove(index);
                self.keys = keys;
                true
            },
            None => false,
        }
    }

    /// Takes every key off one property. True when there were any.
    pub fn clear_keys(&mut self, property: KeyProperty) -> (r: bool)
        ensures
            final(self)@ == (ClipView { keys: keys_without(old(self)@.keys, property), ..old(self)@ }),
            r == (keys_of(old(self)@.keys, property).len() > 0),
    {
        let left: Vec<ClipKey> = drop_keys(&self.keys, property);
        let any: bool = self.is_keyed(property);
        self.keys = left;
        any
    }

    /// Drops keys that are not finite or not in `0..=1`, then orders them.
    pub fn sort_keys(&mut self)
        ensures
            final(self)@ == (ClipView { keys: ordered_keys(old(self)@.keys), ..old(self)@ }),
    {
        let keys: Vec<ClipKey> = order_keys(&self.keys);
        self.keys = keys;
    }

    fn rewindow_property<F: Fn(&Vec<ParamKey>, Number, Number) -> Number>(
        &mut self,
        property: KeyProperty,
        a: Number,
        b: Number,
        engine: &F,
    )
        requires
            plays(*engine),
        ensures
            final(self)@ == old(self)@.windowed_property(property, a, b, ride_of(*engine)),
    {
        let held: Vec<ClipKey> = self.keys_on(property);
        if held.len() == 0 {
            return ;
        }
        let points: Vec<ParamKey> = to_points(&held);
        let moved: Vec<ParamKey> = rewindow(&points, a, b, engine, self.constant(property));
        let mut keys: Vec<ClipKey> = drop_keys(&self.keys, property);
        let mut placed: Vec<ClipKey> = from_points(&moved, property);
        keys.append(&mut placed);
        self.keys = keys;
    }

    /// Re-anchors every key, the clip's own and its effects', after the clip's
    /// span changed, so each key stays at the instant of the picture it was set
    /// on.
    pub fn rewindow_keys<F: Fn(&Vec<ParamKey>, Number, Number) -> Number>(
        &mut self,
        old_length: Number,
        from: Number,
        to: Number,
        engine: &F,
    )
        requires
            plays(*engine),
        ensures
            final(self)@ == old(self)@.windowed(old_length, from, to, ride_of(*engine)),
    {
        proof {
            reveal(ClipView::windowed);
        }
        if !(old_length.is_finite() && num(ZERO).below(old_length) && to.is_finite() && from.below(
            to,
        )) {
            return ;
        }
        let a: Number = from.over(old_length);
        let b: Number = to.over(old_length);
        self.rewindow_property(KeyProperty::Scale, a, b, engine);
        self.rewindow_property(KeyProperty::OffsetX, a, b, engine);
        self.rewindow_property(KeyProperty::OffsetY, a, b, engine);
        self.rewindow_property(KeyProperty::Rotation, a, b, engine);
        self.rewindow_property(KeyProperty::Opacity, a, b, engine);
        self.rewindow_property(KeyProperty::Volume, a, b, engine);
        let filters: Vec<AppliedFilter> = rewindow_chain(&self.filters, a, b, engine);
        let video_effects: Vec<AppliedFilter> = rewindow_chain(&self.video_effects, a, b, engine);
        self.filters = filters;
        self.video_effects = video_effects;
        self.sort_keys();
    }

    /// Takes on the keys of `piece`, a clip that sat `offset` seconds after this
    /// one's start and has been merged into it.
    pub fn absorb_keys(&mut self, piece: &Clip, offset: Number)
        ensures
            final(self)@ == old(self)@.absorbed(piece@, offset),
    {
        proof {
            reveal(ClipView::absorbed);
        }
        if !(self.duration.is_finite() && num(ZERO).below(self.duration)) {
            return ;
        }
        let ghost start = self@;
        let duration: Number = self.duration;
        let mut i: usize = 0;
        assert(piece.keys@.take(0) =~= Seq::<ClipKey>::empty());
        while i < piece.keys.len()
            invariant
                i <= piece.keys.len(),
                duration == start.duration,
                self@ == start.with_keys_of(
                    piece.keys@.take(i as int),
                    offset,
                    piece.duration,
                    duration,
                ),
            decreases piece.keys.len() - i,
        {
            let key: ClipKey = piece.keys[i];
            proof {
                assert(piece.keys@.take(i as int + 1).drop_last() =~= piece.keys@.take(i as int));
                assert(piece.keys@.take(i as int + 1).last() == key);
            }
            let at: Number = offset.plus(key.at.times(piece.duration)).over(duration);
            self.set_key(key.property, at, key.value, key.ease);
            i = i + 1;
        }
        assert(piece.keys@.take(piece.keys@.len() as int) =~= piece.keys@);
        proof {
            lemma_with_keys_frame(start, piece@.keys, offset, piece.duration, duration);
        }
        let filters: Vec<AppliedFilter> = absorb_chain(
            &self.filters,
            &piece.filters,
            offset,
            piece.duration,
            duration,
        );
        let video_effects: Vec<AppliedFilter> = absorb_chain(
            &self.video_effects,
            &piece.video_effects,
            offset,
            piece.duration,
            duration,
        );
        self.filters = filters;
        self.video_effects = video_effects;
    }

    /// Whether two clips are the same clip, number by number.
    pub fn same(&self, other: &Clip) -> (r: bool)
        ensures
            r == self@.same(other@),
    {
        self.id == other.id
            && self.track_id == other.track_id
            && self.media_id == other.media_id
            && self.name == other.name
            && self.kind == other.kind
            && self.start.equals(other.start)
            && self.duration.equals(other.duration)
            && self.source_start.equals(other.source_start)
            && self.volume.equals(other.volume)
            && self.fade_in.equals(other.fade_in)
            && self.fade_out.equals(other.fade_out)
            && self.scale.equals(other.scale)
            && self.offset_x.equals(other.offset_x)
            && self.offset_y.equals(other.offset_y)
            && self.rotation.equals(other.rotation)
            && self.stretch_x.equals(other.stretch_x)
            && self.stretch_y.equals(other.stretch_y)
            && self.opacity.equals(other.opacity)
            && self.speed.equals(other.speed)
            && same_curve(&self.speed_curve, &other.speed_curve)
            && same_keys(&self.keys, &other.keys)
            && self.flip_h == other.flip_h
            && self.flip_v == other.flip_v
            && self.blend == other.blend
            && same_crop(&self.crop, &other.crop)
            && same_cutout(&self.cutout, &other.cutout)
            && self.preserve_pitch == other.preserve_pitch
            && same_chain(&self.filters, &other.filters)
            && same_chain(&self.video_effects, &other.video_effects)
            && self.audio_stream == other.audio_stream
            && self.muted == other.muted
            && same_optional_text(&self.detached_from, &other.detached_from)
            && same_transition(&self.transition_in, &other.transition_in)
            && same_style(&self.text, &other.text)
            && self.extra == other.extra
    }
}

impl Default for Clip {
    /// What a document entry starts from before its own fields land on it: a
    /// blank clip with no id, on no track, one second of video.
    fn default() -> (r: Clip)
        ensures
            r@ == ClipView::blank(""@, ""@, ClipKind::Video, "clip"@, num(ZERO), num(ONE)),
    {
        Clip::blank(
            "".to_owned(),
            "".to_owned(),
            ClipKind::Video,
            "clip".to_owned(),
            num(ZERO),
            num(ONE),
        )
    }
}

proof fn lemma_with_keys_frame(
    clip: ClipView,
    keys: Seq<ClipKey>,
    offset: Number,
    length: Number,
    duration: Number,
)
    ensures
        ({
            let r = clip.with_keys_of(keys, offset, length, duration);
            r == (ClipView { keys: r.keys, ..clip })
        }),
    decreases keys.len(),
{
    if keys.len() > 0 {
        lemma_with_keys_frame(clip, keys.drop_last(), offset, length, duration);
    }
}

fn pick_keys(keys: &Vec<ClipKey>, property: KeyProperty) -> (r: Vec<ClipKey>)
    ensures
        r@ == keys_of(keys@, property),
{
    let ghost pred = |k: ClipKey| k.property == property;
    let mut r: Vec<ClipKey> = Vec::new();
    let mut i: usize = 0;
    proof {
        reveal(Seq::filter);
        assert(keys@.take(0).filter(pred) =~= Seq::<ClipKey>::empty());
    }
    while i < keys.len()
        invariant
            i <= keys.len(),
            pred == (|k: ClipKey| k.property == property),
            r@ == keys@.take(i as int).filter(pred),
        decreases keys.len() - i,
    {
        proof {
            lemma_filter_step(keys@, pred, i as int);
        }
        if keys[i].property == property {
            r.push(keys[i]);
        }
        i = i + 1;
    }
    assert(keys@.take(keys@.len() as int) =~= keys@);
    r
}

fn drop_keys(keys: &Vec<ClipKey>, property: KeyProperty) -> (r: Vec<ClipKey>)
    ensures
        r@ == keys_without(keys@, property),
{
    let ghost pred = |k: ClipKey| k.property != property;
    let mut r: Vec<ClipKey> = Vec::new();
    let mut i: usize = 0;
    proof {
        reveal(Seq::filter);
        assert(keys@.take(0).filter(pred) =~= Seq::<ClipKey>::empty());
    }
    while i < keys.len()
        invariant
            i <= keys.len(),
            pred == (|k: ClipKey| k.property != property),
            r@ == keys@.take(i as int).filter(pred),
        decreases keys.len() - i,
    {
        proof {
            lemma_filter_step(keys@, pred, i as int);
        }
        if keys[i].property != property {
            r.push(keys[i]);
        }
        i = i + 1;
    }
    assert(keys@.take(keys@.len() as int) =~= keys@);
    r
}

fn to_points(keys: &Vec<ClipKey>) -> (r: Vec<ParamKey>)
    ensures
        r@ == points_of(keys@),
{
    let mut r: Vec<ParamKey> = Vec::new();
    let mut i: usize = 0;
    while i < keys.len()
        invariant
            i <= keys.len(),
            r.len() == i,
            forall|j: int| 0 <= j < i ==> #[trigger] r@[j] == keys@[j].point(),
        decreases keys.len() - i,
    {
        r.push(ParamKey { at: keys[i].at, value: keys[i].value, ease: keys[i].ease });
        i = i + 1;
    }
    assert(r@ =~= points_of(keys@));
    r
}

fn from_points(points: &Vec<ParamKey>, property: KeyProperty) -> (r: Vec<ClipKey>)
    ensures
        r@ == keys_from(points@, property),
{
    let mut r: Vec<ClipKey> = Vec::new();
    let mut i: usize = 0;
    while i < points.len()
        invariant
            i <= points.len(),
            r.len() == i,
            forall|j: int|
                0 <= j < i ==> #[trigger] r@[j] == (ClipKey {
                    property,
                    at: points@[j].at,
                    value: points@[j].value,
                    ease: points@[j].ease,
                }),
        decreases points.len() - i,
    {
        r.push(
            ClipKey {
                property,
                at: points[i].at,
                value: points[i].value,
                ease: points[i].ease,
            },
        );
        i = i + 1;
    }
    assert(r@ =~= keys_from(points@, property));
    r
}

fn tidy_keys(keys: &Vec<ClipKey>) -> (r: Vec<ClipKey>)
    ensures
        r@ == tidied_keys(keys@),
{
    let ghost pred = |k: ClipKey| in_clip(k.at) && k.value.finite();
    let ghost held = |k: ClipKey| held_key(k);
    let mut kept: Vec<ClipKey> = Vec::new();
    let mut i: usize = 0;
    proof {
        reveal(Seq::filter);
        assert(keys@.take(0).filter(pred).map_values(held) =~= Seq::<ClipKey>::empty());
    }
    while i < keys.len()
        invariant
            i <= keys.len(),
            pred == (|k: ClipKey| in_clip(k.at) && k.value.finite()),
            held == (|k: ClipKey| held_key(k)),
            kept@ == keys@.take(i as int).filter(pred).map_values(held),
        decreases keys.len() - i,
    {
        let key: ClipKey = keys[i];
        proof {
            lemma_filter_step(keys@, pred, i as int);
            let sofar = keys@.take(i as int).filter(pred);
            assert(sofar.push(key).map_values(held) =~= sofar.map_values(held).push(held(key)));
        }
        if is_in_clip(key.at) && key.value.is_finite() {
            kept.push(
                ClipKey {
                    property: key.property,
                    at: key.at,
                    value: hold_value(key.property, key.value),
                    ease: key.ease.straighten(),
                },
            );
        }
        i = i + 1;
    }
    assert(keys@.take(keys@.len() as int) =~= keys@);
    order_keys(&kept)
}

fn tidy_curve(points: &Option<Vec<SpeedPoint>>) -> (r: Option<Vec<SpeedPoint>>)
    ensures
        curve(r) == tidied_curve(curve(*points)),
{
    match points {
        Some(held) => {
            let ghost pred = |p: SpeedPoint| p.at.finite() && in_clip(p.at);
            let ghost image = |p: SpeedPoint| held_point(p);
            let mut kept: Vec<SpeedPoint> = Vec::new();
            let mut i: usize = 0;
            proof {
                reveal(Seq::filter);
                assert(held@.take(0).filter(pred).map_values(image) =~= Seq::<SpeedPoint>::empty());
            }
            while i < held.len()
                invariant
                    i <= held.len(),
                    pred == (|p: SpeedPoint| p.at.finite() && in_clip(p.at)),
                    image == (|p: SpeedPoint| held_point(p)),
                    kept@ == held@.take(i as int).filter(pred).map_values(image),
                decreases held.len() - i,
            {
                let p: SpeedPoint = held[i];
                proof {
                    lemma_filter_step(held@, pred, i as int);
                    let sofar = held@.take(i as int).filter(pred);
                    assert(sofar.push(p).map_values(image) =~= sofar.map_values(image).push(
                        image(p),
                    ));
                }
                if p.at.is_finite() && is_in_clip(p.at) {
                    kept.push(
                        SpeedPoint {
                            at: p.at,
                            speed: finite(p.speed, num(ONE)).clamp(num(MIN_SPEED), num(MAX_SPEED)),
                        },
                    );
                }
                i = i + 1;
            }
            assert(held@.take(held@.len() as int) =~= held@);
            if kept.len() > 0 {
                Some(kept)
            } else {
                None
            }
        },
        None => None,
    }
}

fn tidy_chain(filters: &Vec<AppliedFilter>) -> (r: Vec<AppliedFilter>)
    ensures
        chain(r@) == tidied_chain(chain(filters@)),
{
    let mut r: Vec<AppliedFilter> = Vec::new();
    let mut i: usize = 0;
    while i < filters.len()
        invariant
            i <= filters.len(),
            r.len() == i,
            forall|j: int| 0 <= j < i ==> (#[trigger] r@[j])@ == filters@[j]@.tidied(),
        decreases filters.len() - i,
    {
        let mut link: AppliedFilter = filters[i].clone();
        link.tidy();
        r.push(link);
        i = i + 1;
    }
    assert(chain(r@) =~= tidied_chain(chain(filters@)));
    r
}

fn rewindow_chain<F: Fn(&Vec<ParamKey>, Number, Number) -> Number>(
    filters: &Vec<AppliedFilter>,
    a: Number,
    b: Number,
    engine: &F,
) -> (r: Vec<AppliedFilter>)
    requires
        plays(*engine),
    ensures
        chain(r@) == windowed_chain(chain(filters@), a, b, ride_of(*engine)),
{
    let mut r: Vec<AppliedFilter> = Vec::new();
    let mut i: usize = 0;
    while i < filters.len()
        invariant
            i <= filters.len(),
            plays(*engine),
            r.len() == i,
            forall|j: int|
                0 <= j < i ==> (#[trigger] r@[j])@ == filters@[j]@.windowed(a, b, ride_of(*engine)),
        decreases filters.len() - i,
    {
        let mut link: AppliedFilter = filters[i].clone();
        link.rewindow_keys(a, b, engine);
        r.push(link);
        i = i + 1;
    }
    assert(chain(r@) =~= windowed_chain(chain(filters@), a, b, ride_of(*engine)));
    r
}

fn absorb_chain(
    mine: &Vec<AppliedFilter>,
    theirs: &Vec<AppliedFilter>,
    offset: Number,
    length: Number,
    duration: Number,
) -> (r: Vec<AppliedFilter>)
    ensures
        chain(r@) == absorbed_chain(chain(mine@), chain(theirs@), offset, length, duration),
{
    let mut r: Vec<AppliedFilter> = Vec::new();
    let mut i: usize = 0;
    let ghost wanted = absorbed_chain(chain(mine@), chain(theirs@), offset, length, duration);
    while i < mine.len()
        invariant
            i <= mine.len(),
            r.len() == i,
            wanted == absorbed_chain(chain(mine@), chain(theirs@), offset, length, duration),
            forall|j: int| 0 <= j < i ==> (#[trigger] r@[j])@ == wanted[j],
        decreases mine.len() - i,
    {
        let mut link: AppliedFilter = mine[i].clone();
        if i < theirs.len() && link.id == theirs[i].id {
            link.absorb(&theirs[i], offset, length, duration);
        }
        r.push(link);
        i = i + 1;
    }
    assert(chain(r@) =~= wanted);
    r
}

} // verus!
