//! One reader of a file, as the decisions it makes.
//!
//! Opening, seeking, decoding and copying back from a device happen outside;
//! a reader is told what came of each and says what to do next. Frames before
//! a seek's target never come out, and a device that fails at any point hands
//! the reader to software from the frame it was at.

use crate::decode::color::{Codec, ColorSignal, Pixel, Primaries, Range, Space, Transfer};
use crate::decode::options::{
    buffer_args, filters, source_text, video_filter, DecodeOptions, HwDevice,
};
use crate::digits::clipped;
use crate::text::joined;
use crate::timing::{
    av_ticks, displayed, integer, made, seconds, shown_size, start_at, start_of, Ratio, TimeBase,
    AV_TIME_BASE,
};
use vstd::prelude::*;

verus! {

/// One decoded picture, before the filtergraph: which one, and when it shows.
#[derive(Clone, Copy, Debug)]
pub struct Source {
    pub frame: u64,
    pub pts: Option<Ratio>,
}

/// What a file's video stream says once its codec is open.
#[derive(Clone, Copy, Debug)]
pub struct Opened {
    pub time_base: TimeBase,
    /// The stream's first timestamp, where it says one.
    pub start: Option<i64>,
    pub rotation: i64,
    /// The coded width and height.
    pub coded: (u32, u32),
    pub primaries: Primaries,
    pub transfer: Transfer,
    pub matrix: Space,
    pub range: Range,
    pub codec: Codec,
    pub pixel: Pixel,
    /// The device the codec is on and the format its frames arrive in.
    pub hardware: Option<(HwDevice, Pixel)>,
}

/// Why a stream cannot be read.
#[derive(Clone, Copy, Debug, PartialEq, Eq, Structural)]
pub enum OpenError {
    /// The picture has no usable size.
    NoSize,
}

/// A reader.
pub struct Decoder {
    pub time_base: TimeBase,
    /// Where the stream's timestamps start: taken off every timestamp read and
    /// put back on every seek.
    pub start: Ratio,
    pub rotation: i64,
    pub options: DecodeOptions,
    pub width: u32,
    pub height: u32,
    /// The format and size the filtergraph was built for.
    pub graph: Option<(Pixel, u32, u32)>,
    /// Frames before this instant are discarded: the exact half of a seek.
    pub discard_before: Option<Ratio>,
    /// Frames at or before this instant are discarded too: where a reader that
    /// moved to software mid-file picks up.
    pub discard_through: Option<Ratio>,
    /// The device the codec is on, or none in software.
    pub hardware: Option<(HwDevice, Pixel)>,
    /// The last picture's timestamp.
    pub last_pts: Option<Ratio>,
    /// The output instant the pacer is at.
    pub tick: u64,
    pub origin: Ratio,
    /// The source frame the pacer is showing, and the one after it.
    pub current: Option<Source>,
    pub pending: Option<Source>,
    pub source_done: bool,
    pub produced: u64,
    pub position: Option<Ratio>,
    pub color: ColorSignal,
}

/// What the codec answered when asked for a frame.
#[derive(Clone, Copy, Debug)]
pub enum Received {
    /// A frame, with its timestamp and format.
    Frame { ticks: Option<i64>, format: Pixel },
    /// The stream is over.
    End,
    /// It wants a packet first.
    Again,
    /// It failed.
    Failed,
}

/// What came of reading a packet and handing it to the codec.
#[derive(Clone, Copy, Debug)]
pub enum Fed {
    /// The packet was another stream's.
    Foreign,
    /// The codec took it.
    Sent,
    /// The codec wants its frames taken first.
    Full,
    /// The codec refused it.
    Refused,
    /// The file is over.
    EndOfFile,
    /// The file could not be read.
    ReadFailed,
}

/// What a reader does next.
#[derive(Clone, Copy, Debug)]
pub enum Step {
    /// Ask the codec for a frame.
    Receive,
    /// Read a packet and hand it to the codec.
    Feed,
    /// Tell the codec the file is over, and ask it for its last frames.
    Flush,
    /// Copy the frame back from the device.
    Download { pts: Option<Ratio> },
    /// Let the frame go and ask for the next.
    Skip,
    /// The frame is the next one out.
    Give { pts: Option<Ratio> },
    /// Reopen the codec in software and seek to where this picks up.
    Resume { from: Option<Ratio>, after: bool },
    /// There are no more frames.
    End,
    /// Report the failure.
    Fail,
}

/// The later of an instant and one there may be.
pub open spec fn later(held: Option<Ratio>, at: Ratio) -> Ratio {
    match held {
        Some(before) => if at.less(before) {
            before
        } else {
            at
        },
        None => at,
    }
}

impl Decoder {
    /// The size frames come out at.
    pub open spec fn output_size(stream: Opened, options: DecodeOptions) -> (u32, u32) {
        match options.size {
            Some(size) => size,
            None => shown_size(stream.coded.0, stream.coded.1, stream.rotation as int),
        }
    }

    /// A reader that has just been opened.
    pub open spec fn fresh(stream: Opened, options: DecodeOptions) -> Decoder {
        Decoder {
            time_base: stream.time_base,
            start: start_at(stream.start, stream.time_base),
            rotation: stream.rotation,
            options,
            width: Decoder::output_size(stream, options).0,
            height: Decoder::output_size(stream, options).1,
            graph: None,
            discard_before: None,
            discard_through: None,
            hardware: stream.hardware,
            last_pts: None,
            tick: 0,
            origin: integer(0),
            current: None,
            pending: None,
            source_done: false,
            produced: 0,
            position: None,
            color: ColorSignal::of(
                stream.primaries,
                stream.transfer,
                stream.matrix,
                stream.range,
                options.color_range,
                stream.codec,
                stream.pixel,
            ),
        }
    }

    /// Where a timestamp lies, from the stream's own first frame.
    pub open spec fn pts_of(self, ticks: Option<i64>) -> Option<Ratio> {
        match ticks {
            Some(count) => match made(
                self.time_base.product(count).0,
                self.time_base.product(count).1,
            ) {
                Some(at) => made(at.gap_of(self.start).0, at.gap_of(self.start).1),
                None => None,
            },
            None => None,
        }
    }

    /// The container's ticks for an instant.
    pub open spec fn target_of(self, to: Ratio) -> Option<int> {
        match made(to.sum_of(self.start).0, to.sum_of(self.start).1) {
            Some(at) => Some(clipped((at.numerator() * AV_TIME_BASE) / at.denominator())),
            None => None,
        }
    }

    /// The reader once the container has landed.
    pub open spec fn landed(self, to: Ratio) -> Decoder {
        Decoder {
            discard_before: if self.options.keyframes_only {
                None
            } else {
                Some(to)
            },
            discard_through: None,
            last_pts: None,
            origin: to,
            tick: 0,
            current: None,
            pending: None,
            source_done: false,
            position: None,
            ..self
        }
    }

    /// Whether a frame lies where frames are let go.
    pub open spec fn discards(self, pts: Option<Ratio>) -> bool {
        match pts {
            Some(at) => (self.discard_before is Some && at.less(self.discard_before->0)) || (
            self.discard_through is Some && !self.discard_through->0.less(at)),
            None => false,
        }
    }

    /// What becomes of a frame in memory.
    pub open spec fn arriving(self, pts: Option<Ratio>) -> (Decoder, Step) {
        if self.discards(pts) {
            (self, Step::Skip)
        } else {
            (
                Decoder { discard_before: None, discard_through: None, last_pts: pts, ..self },
                Step::Give { pts },
            )
        }
    }

    /// What a reader whose codec failed does.
    pub open spec fn failing(self) -> (Decoder, Step) {
        if self.hardware is Some {
            (
                Decoder { hardware: None, ..self },
                Step::Resume { from: self.last_pts, after: self.last_pts is Some },
            )
        } else {
            (self, Step::Fail)
        }
    }

    /// What becomes of the codec's answer.
    pub open spec fn receiving(self, event: Received) -> (Decoder, Step) {
        match event {
            Received::Frame { ticks, format } => {
                let pts = self.pts_of(ticks);
                if self.hardware is Some && (self.hardware->0).1 == format {
                    (self, Step::Download { pts })
                } else {
                    Decoder { hardware: None, ..self }.arriving(pts)
                }
            },
            Received::End => (self, Step::End),
            Received::Again => (self, Step::Feed),
            Received::Failed => self.failing(),
        }
    }

    /// What becomes of a frame a device was asked to copy back.
    pub open spec fn downloading(self, pts: Option<Ratio>, copied: bool) -> (Decoder, Step) {
        if copied {
            self.arriving(pts)
        } else {
            (self, Step::Resume { from: pts, after: false })
        }
    }

    /// What follows a packet.
    pub open spec fn feeding(self, event: Fed) -> (Decoder, Step) {
        match event {
            Fed::Foreign => (self, Step::Feed),
            Fed::Sent => (self, Step::Receive),
            Fed::Full => (self, Step::Receive),
            Fed::Refused => self.failing(),
            Fed::EndOfFile => (self, Step::Flush),
            Fed::ReadFailed => (self, Step::Fail),
        }
    }

    /// Where a reader that moves to software picks up.
    pub open spec fn pickup(self, from: Option<Ratio>) -> Ratio {
        match from {
            Some(at) => at,
            None => self.origin,
        }
    }

    /// The reader once software has taken over.
    pub open spec fn taken_over(self, from: Option<Ratio>, after: bool) -> Decoder {
        let at = self.pickup(from);
        if self.options.keyframes_only {
            Decoder { hardware: None, ..self }
        } else if after {
            Decoder { hardware: None, discard_through: Some(at), ..self }
        } else {
            Decoder {
                hardware: None,
                discard_before: Some(later(self.discard_before, at)),
                ..self
            }
        }
    }

    /// Opens a reader on a stream. A picture with no size cannot be read.
    pub fn open(stream: Opened, options: DecodeOptions) -> (r: Result<Decoder, OpenError>)
        ensures
            match r {
                Ok(decoder) => decoder == Decoder::fresh(stream, options) && decoder.width > 0
                    && decoder.height > 0,
                Err(error) => error is NoSize && (Decoder::output_size(stream, options).0 == 0
                    || Decoder::output_size(stream, options).1 == 0),
            },
    {
        let start: Ratio = start_of(stream.start, stream.time_base);
        let color: ColorSignal = ColorSignal::read(
            stream.primaries,
            stream.transfer,
            stream.matrix,
            stream.range,
            options.color_range,
            stream.codec,
            stream.pixel,
        );
        let (width, height) = match options.size {
            Some(size) => size,
            None => displayed(stream.coded.0, stream.coded.1, stream.rotation),
        };
        if width == 0 || height == 0 {
            return Err(OpenError::NoSize);
        }
        Ok(
            Decoder {
                time_base: stream.time_base,
                start,
                rotation: stream.rotation,
                options,
                width,
                height,
                graph: None,
                discard_before: None,
                discard_through: None,
                hardware: stream.hardware,
                last_pts: None,
                tick: 0,
                origin: Ratio::from_int(0),
                current: None,
                pending: None,
                source_done: false,
                produced: 0,
                position: None,
                color,
            },
        )
    }

    /// Where the caller asked to start, unless at the beginning.
    pub fn first_seek(&self) -> (r: Option<Ratio>)
        ensures
            r == (match self.options.start {
                Some(start) => if start.numerator() != 0 {
                    Some(start)
                } else {
                    None
                },
                None => None,
            }),
    {
        match self.options.start {
            Some(start) => if start.numerator_of() != 0 {
                Some(start)
            } else {
                None
            },
            None => None,
        }
    }

    /// The container's ticks for an instant; none where the instant has no
    /// representation on the stream's clock.
    pub fn seek_target(&self, to: Ratio) -> (r: Option<i64>)
        ensures
            match r {
                Some(ticks) => self.target_of(to) == Some(ticks as int),
                None => self.target_of(to) is None,
            },
    {
        match to.plus(&self.start) {
            Some(at) => Some(av_ticks(at)),
            None => None,
        }
    }

    /// The container has sought to `to`. With keyframes only the picture it
    /// landed on is the one wanted; otherwise everything before `to` is let go.
    pub fn jump(&mut self, to: Ratio)
        ensures
            *final(self) == old(self).landed(to),
    {
        self.discard_before = if self.options.keyframes_only {
            None
        } else {
            Some(to)
        };
        self.discard_through = None;
        self.last_pts = None;
        self.origin = to;
        self.tick = 0;
        self.current = None;
        self.pending = None;
        self.source_done = false;
        self.position = None;
    }

    fn timestamp(&self, ticks: Option<i64>) -> (r: Option<Ratio>)
        ensures
            r == self.pts_of(ticks),
    {
        match ticks {
            Some(count) => match seconds(count, self.time_base) {
                Some(at) => at.minus(&self.start),
                None => None,
            },
            None => None,
        }
    }

    /// A frame is in memory: whether it is the next one out.
    fn arrive(&mut self, pts: Option<Ratio>) -> (r: Step)
        ensures
            (*final(self), r) == old(self).arriving(pts),
    {
        match pts {
            Some(at) => {
                match self.discard_before {
                    Some(before) => {
                        if at.before(&before) {
                            return Step::Skip;
                        }
                    },
                    None => {},
                }
                match self.discard_through {
                    Some(through) => {
                        if !through.before(&at) {
                            return Step::Skip;
                        }
                    },
                    None => {},
                }
            },
            None => {},
        }
        self.discard_before = None;
        self.discard_through = None;
        self.last_pts = pts;
        Step::Give { pts }
    }

    fn fail(&mut self) -> (r: Step)
        ensures
            (*final(self), r) == old(self).failing(),
    {
        if self.hardware.is_some() {
            self.hardware = None;
            Step::Resume { from: self.last_pts, after: self.last_pts.is_some() }
        } else {
            Step::Fail
        }
    }

    /// The codec has answered. A frame from the device is copied back before
    /// anything else; one that arrives in another format shows that the codec
    /// declined the device and went on in software by itself.
    pub fn received(&mut self, event: Received) -> (r: Step)
        ensures
            (*final(self), r) == old(self).receiving(event),
    {
        match event {
            Received::Frame { ticks, format } => {
                let pts: Option<Ratio> = self.timestamp(ticks);
                match self.hardware {
                    Some((_, expected)) => {
                        if expected == format {
                            return Step::Download { pts };
                        }
                        self.hardware = None;
                    },
                    None => {},
                }
                self.arrive(pts)
            },
            Received::End => Step::End,
            Received::Again => Step::Feed,
            Received::Failed => self.fail(),
        }
    }

    /// The device was asked for a frame. One it cannot copy back hands the
    /// reader to software at that frame.
    pub fn downloaded(&mut self, pts: Option<Ratio>, copied: bool) -> (r: Step)
        ensures
            (*final(self), r) == old(self).downloading(pts, copied),
    {
        if copied {
            self.arrive(pts)
        } else {
            Step::Resume { from: pts, after: false }
        }
    }

    /// A packet was read and handed on, or was not.
    pub fn fed(&mut self, event: Fed) -> (r: Step)
        ensures
            (*final(self), r) == old(self).feeding(event),
    {
        match event {
            Fed::Foreign => Step::Feed,
            Fed::Sent => Step::Receive,
            Fed::Full => Step::Receive,
            Fed::Refused => self.fail(),
            Fed::EndOfFile => Step::Flush,
            Fed::ReadFailed => Step::Fail,
        }
    }

    /// Where a reader that moves to software seeks to.
    pub fn resume_target(&self, from: Option<Ratio>) -> (r: Option<i64>)
        ensures
            match r {
                Some(ticks) => self.target_of(self.pickup(from)) == Some(ticks as int),
                None => self.target_of(self.pickup(from)) is None,
            },
    {
        let at: Ratio = match from {
            Some(at) => at,
            None => self.origin,
        };
        self.seek_target(at)
    }

    /// The codec is open in software and the container has sought: the frame
    /// at `from` is the next one out, or the one after it.
    pub fn resume_in_software(&mut self, from: Option<Ratio>, after: bool)
        ensures
            *final(self) == old(self).taken_over(from, after),
    {
        let at: Ratio = match from {
            Some(at) => at,
            None => self.origin,
        };
        self.hardware = None;
        if !self.options.keyframes_only {
            if after {
                self.discard_through = Some(at);
            } else {
                let until: Ratio = match self.discard_before {
                    Some(before) => if at.before(&before) {
                        before
                    } else {
                        at
                    },
                    None => at,
                };
                self.discard_before = Some(until);
            }
        }
    }

    /// How many frames have been produced so far.
    pub fn produced(&self) -> (r: u64)
        ensures
            r == self.produced,
    {
        self.produced
    }

    /// The device the codec is decoding on, or none in software.
    pub fn hardware(&self) -> (r: Option<HwDevice>)
        ensures
            r == (match self.hardware {
                Some(on) => Some(on.0),
                None => None,
            }),
    {
        match self.hardware {
            Some(on) => Some(on.0),
            None => None,
        }
    }

    /// What the stream says its colour is.
    pub fn color(&self) -> (r: ColorSignal)
        ensures
            r == self.color,
    {
        self.color
    }

    /// The width of every picture that comes out.
    pub fn width(&self) -> (r: u32)
        ensures
            r == self.width,
    {
        self.width
    }

    /// The height of every picture that comes out.
    pub fn height(&self) -> (r: u32)
        ensures
            r == self.height,
    {
        self.height
    }

    /// The filtergraph for pictures of this format, by the library's own number,
    /// and size: the arguments of its source, and the filters between that and
    /// what comes out.
    pub fn build_graph(&self, format: i32, width: u32, height: u32) -> (r: (String, String))
        ensures
            r.0@ == source_text(width, height, format, self.time_base),
            r.1@ == joined(
                filters(
                    self.rotation as int,
                    self.options,
                    self.width,
                    self.height,
                    Some(self.color),
                ),
                ","@,
            ),
    {
        (
            buffer_args(width, height, format, self.time_base),
            video_filter(
                self.rotation,
                &self.options,
                self.width,
                self.height,
                Some(self.color),
            ),
        )
    }

    /// Whether a picture needs the filtergraph built again: none stands yet,
    /// or it stands for another format or size.
    pub fn needs_graph(&self, format: Pixel, width: u32, height: u32) -> (r: bool)
        ensures
            r == (self.graph != Some((format, width, height))),
    {
        match self.graph {
            Some(key) => !(key.0 == format && key.1 == width && key.2 == height),
            None => true,
        }
    }

    /// The filtergraph stands for this format and size.
    pub fn built_graph(&mut self, format: Pixel, width: u32, height: u32)
        ensures
            *final(self) == (Decoder { graph: Some((format, width, height)), ..*old(self) }),
    {
        self.graph = Some((format, width, height));
    }
}

/// A reader still looking for its seek's target gives no frame from before it,
/// whether the frame comes from the codec or off the device, and goes on
/// looking until a frame comes out.
pub proof fn lemma_seek_is_exact(
    reader: Decoder,
    to: Ratio,
    event: Received,
    pts: Option<Ratio>,
    copied: bool,
)
    requires
        reader.discard_before == Some(to),
    ensures
        match reader.receiving(event).1 {
            Step::Give { pts } => pts is Some ==> !pts->0.less(to),
            _ => reader.receiving(event).0.discard_before == Some(to),
        },
        match reader.downloading(pts, copied).1 {
            Step::Give { pts } => pts is Some ==> !pts->0.less(to),
            _ => reader.downloading(pts, copied).0.discard_before == Some(to),
        },
{
}

/// A seek looks for its target exactly, unless keyframes are all that was asked
/// for: then the picture the container landed on is the one wanted.
pub proof fn lemma_seek_target(reader: Decoder, to: Ratio)
    ensures
        !reader.options.keyframes_only ==> reader.landed(to).discard_before == Some(to),
        reader.options.keyframes_only ==> forall|pts: Option<Ratio>|
            !(#[trigger] reader.landed(to).discards(pts)),
{
}

/// A device that fails after a frame came out hands over to software, and the
/// next timed frame out lies after that one: none is repeated.
pub proof fn lemma_software_picks_up_after(reader: Decoder, pts: Option<Ratio>)
    requires
        reader.hardware is Some,
        reader.last_pts is Some,
        !reader.options.keyframes_only,
    ensures
        reader.failing().1 == (Step::Resume { from: reader.last_pts, after: true }),
        ({
            let resumed = reader.failing().0.taken_over(reader.last_pts, true);
            &&& resumed.hardware is None
            &&& resumed.arriving(pts).1 is Give && pts is Some ==> reader.last_pts->0.less(
                pts->0,
            )
        }),
{
}

} // verus!
