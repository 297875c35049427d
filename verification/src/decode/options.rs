//! What is asked of a reader, and the filtergraph it decodes through.

use crate::decode::color::{ColorRange, ColorSignal, Range};
use crate::model::media::text_of;
use crate::text::{decimal, decimal_text, join, joined, signed_decimal, signed_text, texts};
use crate::timing::{made, representable, rotation_filters, turning, Ratio, TimeBase};
use vstd::prelude::*;
use vstd::string::*;

verus! {

/// A frame rate: frames a second, positive.
#[derive(Clone, Copy, Debug, PartialEq, Eq)]
pub struct FrameRate {
    frames: i64,
    seconds: i64,
}

impl FrameRate {
    #[verifier::type_invariant]
    spec fn formed(self) -> bool {
        self.frames > 0 && self.seconds > 0
    }

    /// `frames() / seconds()` frames a second.
    pub closed spec fn frames(self) -> int {
        self.frames as int
    }

    pub closed spec fn seconds(self) -> int {
        self.seconds as int
    }

    /// A rate of this many frames a second; none for zero and below.
    pub fn new(fps: Ratio) -> (r: Option<FrameRate>)
        ensures
            match r {
                Some(rate) => fps.numerator() > 0 && rate.frames() == fps.numerator()
                    && rate.seconds() == fps.denominator(),
                None => fps.numerator() <= 0,
            },
    {
        let frames: i64 = fps.numerator_of();
        let seconds: i64 = fps.denominator_of();
        if frames <= 0 {
            None
        } else {
            Some(FrameRate { frames, seconds })
        }
    }

    /// How long one frame lasts.
    pub fn frame_duration(&self) -> (r: Option<Ratio>)
        ensures
            match r {
                Some(length) => length.is(self.seconds(), self.frames()),
                None => !representable(self.seconds(), self.frames()),
            },
            r == made(self.seconds(), self.frames()),
    {
        proof {
            use_type_invariant(self);
        }
        Ratio::checked_new(self.seconds as i128, self.frames as i128)
    }
}

/// Which of the platform's devices, by its place in the list of them.
#[derive(Clone, Copy, Debug, PartialEq, Eq, Structural)]
pub struct HwDevice {
    pub place: u8,
}

/// Whether to decode on the platform's video hardware.
#[derive(Clone, Copy, Debug, PartialEq, Eq, Structural)]
pub enum HwPolicy {
    /// As the process-wide preference says.
    Preferred,
    /// Never.
    Software,
    /// On this device, and in software where it will not.
    Device(HwDevice),
}

/// How to open a reader.
#[derive(Debug)]
pub struct DecodeOptions {
    /// Seek here before the first frame.
    pub start: Option<Ratio>,
    /// Stop after this many frames.
    pub max_frames: Option<u64>,
    /// Scale to this size. The file's own displayed size where there is none.
    pub size: Option<(u32, u32)>,
    /// Pace output to this rate, repeating and dropping source frames so that
    /// exactly one comes out per output instant.
    pub frame_rate: Option<FrameRate>,
    /// Repeat the last frame forever, which is how a still behaves like
    /// footage of any length.
    pub looping: bool,
    /// Extra filters, applied after any scaling. A scale back to the promised
    /// size follows, so an effect cannot change what the caller receives.
    pub filter_chain: Option<String>,
    /// Filters applied before the fit, in the source's own pixels: where a
    /// crop lives.
    pub pre_chain: Option<String>,
    /// Decode keyframes only, and let a seek land on the keyframe at or before
    /// its target. For a thumbnail, never for what a person watches.
    pub keyframes_only: bool,
    /// Threads the codec may use, zero to let it count the cores.
    pub threads: u16,
    /// Whether to decode on the platform's video hardware.
    pub hardware: HwPolicy,
    /// What the picture's levels are taken to be, over whatever the file says.
    pub color_range: Option<ColorRange>,
}

/// A chain, or none where it is empty.
pub open spec fn chain_or_none(chain: Option<Seq<char>>) -> Option<Seq<char>> {
    match chain {
        Some(text) => if text.len() == 0 {
            None
        } else {
            Some(text)
        },
        None => None,
    }
}

fn kept(chain: String) -> (r: Option<String>)
    ensures
        text_of(r) == chain_or_none(Some(chain@)),
{
    if chain.as_str().unicode_len() == 0 {
        None
    } else {
        Some(chain)
    }
}

impl Default for DecodeOptions {
    fn default() -> (r: DecodeOptions)
        ensures
            r.start is None,
            r.max_frames is None,
            r.size is None,
            r.frame_rate is None,
            !r.looping,
            r.filter_chain is None,
            r.pre_chain is None,
            !r.keyframes_only,
            r.threads == 0,
            r.hardware is Preferred,
            r.color_range is None,
    {
        DecodeOptions {
            start: None,
            max_frames: None,
            size: None,
            frame_rate: None,
            looping: false,
            filter_chain: None,
            pre_chain: None,
            keyframes_only: false,
            threads: 0,
            hardware: HwPolicy::Preferred,
            color_range: None,
        }
    }
}

impl Clone for DecodeOptions {
    fn clone(&self) -> (r: DecodeOptions)
        ensures
            text_of(r.filter_chain) == text_of(self.filter_chain),
            text_of(r.pre_chain) == text_of(self.pre_chain),
            r == (DecodeOptions {
                filter_chain: r.filter_chain,
                pre_chain: r.pre_chain,
                ..*self
            }),
    {
        DecodeOptions {
            start: self.start,
            max_frames: self.max_frames,
            size: self.size,
            frame_rate: self.frame_rate,
            looping: self.looping,
            filter_chain: match &self.filter_chain {
                Some(chain) => Some(chain.clone()),
                None => None,
            },
            pre_chain: match &self.pre_chain {
                Some(chain) => Some(chain.clone()),
                None => None,
            },
            keyframes_only: self.keyframes_only,
            threads: self.threads,
            hardware: self.hardware,
            color_range: self.color_range,
        }
    }
}

impl DecodeOptions {
    /// Seeks to `start` before decoding.
    pub fn starting_at(self, start: Ratio) -> (r: DecodeOptions)
        ensures
            r == (DecodeOptions { start: Some(start), ..self }),
    {
        DecodeOptions { start: Some(start), ..self }
    }

    /// Stops after `count` frames.
    pub fn limited_to(self, count: u64) -> (r: DecodeOptions)
        ensures
            r == (DecodeOptions { max_frames: Some(count), ..self }),
    {
        DecodeOptions { max_frames: Some(count), ..self }
    }

    /// Scales output to `width` by `height`.
    pub fn scaled_to(self, width: u32, height: u32) -> (r: DecodeOptions)
        ensures
            r == (DecodeOptions { size: Some((width, height)), ..self }),
    {
        DecodeOptions { size: Some((width, height)), ..self }
    }

    /// Paces output to `rate`.
    pub fn at_rate(self, rate: FrameRate) -> (r: DecodeOptions)
        ensures
            r == (DecodeOptions { frame_rate: Some(rate), ..self }),
    {
        DecodeOptions { frame_rate: Some(rate), ..self }
    }

    /// Repeats the last frame forever.
    pub fn repeating(self) -> (r: DecodeOptions)
        ensures
            r == (DecodeOptions { looping: true, ..self }),
    {
        DecodeOptions { looping: true, ..self }
    }

    /// Applies `chain` before the fit. An empty chain is no chain.
    pub fn prefiltered(self, chain: String) -> (r: DecodeOptions)
        ensures
            text_of(r.pre_chain) == chain_or_none(Some(chain@)),
            r == (DecodeOptions { pre_chain: r.pre_chain, ..self }),
    {
        DecodeOptions { pre_chain: kept(chain), ..self }
    }

    /// Applies `chain` after scaling. An empty chain is no chain.
    pub fn filtered(self, chain: String) -> (r: DecodeOptions)
        ensures
            text_of(r.filter_chain) == chain_or_none(Some(chain@)),
            r == (DecodeOptions { filter_chain: r.filter_chain, ..self }),
    {
        DecodeOptions { filter_chain: kept(chain), ..self }
    }

    /// Decodes keyframes only.
    pub fn nearest_keyframes(self) -> (r: DecodeOptions)
        ensures
            r == (DecodeOptions { keyframes_only: true, ..self }),
    {
        DecodeOptions { keyframes_only: true, ..self }
    }

    /// Limits the codec to `threads`.
    pub fn threaded(self, threads: u16) -> (r: DecodeOptions)
        ensures
            r == (DecodeOptions { threads, ..self }),
    {
        DecodeOptions { threads, ..self }
    }

    /// Decodes on `device`, whatever the preference says, and in software if
    /// the device will not.
    pub fn accelerated(self, device: HwDevice) -> (r: DecodeOptions)
        ensures
            r == (DecodeOptions { hardware: HwPolicy::Device(device), ..self }),
    {
        DecodeOptions { hardware: HwPolicy::Device(device), ..self }
    }

    /// Decodes in software, whatever the preference says.
    pub fn in_software(self) -> (r: DecodeOptions)
        ensures
            r == (DecodeOptions { hardware: HwPolicy::Software, ..self }),
    {
        DecodeOptions { hardware: HwPolicy::Software, ..self }
    }

    /// Reads the picture as `range`, whatever the file says; none goes back to
    /// the file's tag.
    pub fn in_range(self, range: Option<ColorRange>) -> (r: DecodeOptions)
        ensures
            r == (DecodeOptions { color_range: range, ..self }),
    {
        DecodeOptions { color_range: range, ..self }
    }
}

// The filtergraph.

/// What the fit is told of the colour. A wide picture is converted whole, its
/// range among the terms. Any other is left to the frames' own tag, unless the
/// caller says what the levels are; a range read off the codec is named only
/// when it is full, since untagged already means limited.
pub open spec fn color_terms(
    color: Option<ColorSignal>,
    named: Option<ColorRange>,
) -> Seq<char> {
    if color is Some && color->0.wide() {
        color->0.conversion()
    } else if named is Some {
        ":in_range="@ + named->0.scale_word()
    } else if color is Some && color->0.implied && color->0.range is Jpeg {
        ":in_range=pc"@
    } else {
        Seq::empty()
    }
}

/// The scale that pins a size.
pub open spec fn scale_text(width: u32, height: u32) -> Seq<char> {
    "scale="@ + decimal(width as nat) + ":"@ + decimal(height as nat) + ":flags=bilinear"@
}

pub open spec fn some(text: Option<Seq<char>>) -> Seq<Seq<char>> {
    match text {
        Some(t) => seq![t],
        None => Seq::empty(),
    }
}

/// The filters between the codec and the caller: the turn, the source's own
/// filters, the fit, the effects at output size with the size pinned again
/// behind them, and RGBA.
pub open spec fn filters(
    rotation: int,
    options: DecodeOptions,
    width: u32,
    height: u32,
    color: Option<ColorSignal>,
) -> Seq<Seq<char>> {
    some(turning(rotation)) + some(text_of(options.pre_chain)) + seq![
        scale_text(width, height) + color_terms(color, options.color_range),
    ] + (match text_of(options.filter_chain) {
        Some(chain) => seq![chain, scale_text(width, height)],
        None => Seq::empty(),
    }) + seq!["format=rgba"@]
}

fn scale(width: u32, height: u32) -> (s: String)
    ensures
        s@ == scale_text(width, height),
{
    let mut s: String = "scale=".to_owned();
    s.append(decimal_text(width as u64).as_str());
    s.append(":");
    s.append(decimal_text(height as u64).as_str());
    s.append(":flags=bilinear");
    s
}

/// The filtergraph between the codec and the caller, as one text.
pub fn video_filter(
    rotation: i64,
    options: &DecodeOptions,
    width: u32,
    height: u32,
    color: Option<ColorSignal>,
) -> (s: String)
    ensures
        s@ == joined(filters(rotation as int, *options, width, height, color), ","@),
{
    let mut parts: Vec<String> = Vec::new();
    match rotation_filters(rotation) {
        Some(turn) => {
            parts.push(turn.to_owned());
        },
        None => {},
    }
    assert(texts(parts@) =~= some(turning(rotation as int)));
    match &options.pre_chain {
        Some(pre) => {
            parts.push(pre.clone());
        },
        None => {},
    }
    assert(texts(parts@) =~= some(turning(rotation as int)) + some(text_of(options.pre_chain)));
    let mut fit: String = scale(width, height);
    let wide: bool = match color {
        Some(signal) => signal.is_wide(),
        None => false,
    };
    match (color, options.color_range) {
        (Some(signal), named) => {
            if wide {
                fit.append(signal.bt709_args().as_str());
            } else {
                match named {
                    Some(range) => {
                        let mut term: String = ":in_range=".to_owned();
                        term.append(range.scale_name());
                        fit.append(term.as_str());
                    },
                    None => {
                        if signal.implied && matches!(signal.range, Range::Jpeg) {
                            fit.append(":in_range=pc");
                        }
                    },
                }
            }
        },
        (None, Some(range)) => {
            let mut term: String = ":in_range=".to_owned();
            term.append(range.scale_name());
            fit.append(term.as_str());
        },
        (None, None) => {},
    }
    assert(fit@ =~= scale_text(width, height) + color_terms(color, options.color_range));
    parts.push(fit);
    match &options.filter_chain {
        Some(chain) => {
            parts.push(chain.clone());
            parts.push(scale(width, height));
        },
        None => {},
    }
    parts.push("format=rgba".to_owned());
    assert(texts(parts@) =~= filters(rotation as int, *options, width, height, color));
    join(&parts, ",")
}

/// What the graph's source is told of the frames it will be handed.
pub open spec fn source_text(width: u32, height: u32, format: i32, base: TimeBase) -> Seq<char> {
    "video_size="@ + decimal(width as nat) + "x"@ + decimal(height as nat) + ":pix_fmt="@
        + signed_decimal(format as int) + ":time_base="@ + signed_decimal(base.numerator as int)
        + "/"@ + signed_decimal(base.denominator as int) + ":pixel_aspect=1/1"@
}

/// The graph source's arguments, for frames of this size, format number and
/// clock.
pub fn buffer_args(width: u32, height: u32, format: i32, time_base: TimeBase) -> (s: String)
    ensures
        s@ == source_text(width, height, format, time_base),
{
    let mut s: String = "video_size=".to_owned();
    s.append(decimal_text(width as u64).as_str());
    s.append("x");
    s.append(decimal_text(height as u64).as_str());
    s.append(":pix_fmt=");
    s.append(signed_text(format as i64).as_str());
    s.append(":time_base=");
    s.append(signed_text(time_base.numerator as i64).as_str());
    s.append("/");
    s.append(signed_text(time_base.denominator as i64).as_str());
    s.append(":pixel_aspect=1/1");
    s
}

} // verus!
