//! Running a mix: what each input contributes, and when the mix ends.
//!
//! Every frame fed to the graph is stamped from a running sample count, so a
//! source whose own timestamps jump cannot park frames outside the mix, and
//! where a clip or the mix ends is a sample count too. Opening, decoding,
//! filtering and encoding happen outside; a mix is told what came of each and
//! says what to do next.

use crate::audio::graph::AudioClip;
use crate::audio::speed::{clamp_speed, engine_speed, MIX_RATE};
use crate::digits::{as_rounded, as_whole, clipped};
use crate::number::{difference, larger, num, product, quotient, sum, whole, Number, ZERO};
use crate::text::{decimal, decimal_text};
use crate::timing::{made, seconds, Ratio, TimeBase};
use vstd::prelude::*;
use vstd::string::*;

verus! {

/// A million, for the ticks container seeks count in.
pub const MILLION: u64 = 0x412e_8480_0000_0000;

/// An exact instant as a number of seconds.
pub open spec fn as_number(at: Ratio) -> Number {
    quotient(whole(at.numerator()), whole(at.denominator()))
}

fn number_of(at: Ratio) -> (r: Number)
    ensures
        r == as_number(at),
{
    Number::from_int(at.numerator_of()).over(Number::from_int(at.denominator_of()))
}

/// Where an input is sought before its first frame is read: near its in-point,
/// on the stream's own clock. Nowhere for a clip that begins with its source.
pub open spec fn input_target(source_start: Number, start: Ratio) -> Option<int> {
    if num(ZERO).less(source_start) {
        Some(as_whole(product(sum(source_start, as_number(start)), num(MILLION))))
    } else {
        None
    }
}

pub fn input_seek(source_start: Number, start: Ratio) -> (r: Option<i64>)
    ensures
        match r {
            Some(ticks) => input_target(source_start, start) == Some(ticks as int),
            None => input_target(source_start, start) is None,
        },
{
    if num(ZERO).below(source_start) {
        Some(source_start.plus(number_of(start)).times(num(MILLION)).to_whole())
    } else {
        None
    }
}

/// How far before its in-point an input landed, by its first frame's own
/// timestamp. A frame with none, or one past the in-point, is nothing to cut.
pub open spec fn landed_early(
    source_start: Number,
    ticks: Option<i64>,
    base: TimeBase,
    start: Ratio,
) -> Number {
    let landed = match ticks {
        Some(count) => match made(base.product(count).0, base.product(count).1) {
            Some(at) => difference(as_number(at), as_number(start)),
            None => source_start,
        },
        None => source_start,
    };
    larger(difference(source_start, landed), num(ZERO))
}

pub fn lead(source_start: Number, ticks: Option<i64>, base: TimeBase, start: Ratio) -> (r: Number)
    ensures
        r == landed_early(source_start, ticks, base, start),
{
    let landed: Number = match ticks {
        Some(count) => match seconds(count, base) {
            Some(at) => number_of(at).minus(number_of(start)),
            None => source_start,
        },
        None => source_start,
    };
    source_start.minus(landed).max(num(ZERO))
}

/// How many source samples a clip may feed, the lead the graph cuts included. A
/// sped-up clip covers more source than its timeline length.
pub open spec fn samples_of(duration: Number, speed: Number, lead: Number, rate: u32) -> int {
    as_rounded(product(sum(product(duration, engine_speed(speed)), lead), whole(rate as int)))
}

pub fn clip_samples(clip: &AudioClip, lead: Number, rate: u32) -> (r: i64)
    ensures
        r == samples_of(clip.duration, clip.speed, lead, rate),
{
    clip.duration.times(clamp_speed(clip.speed)).plus(lead).times(
        Number::from_int(rate as i64),
    ).to_rounded()
}

/// Where a mix ends, in samples.
pub open spec fn length_of(duration: Number) -> int {
    let n = as_rounded(product(larger(duration, num(ZERO)), whole(MIX_RATE as int)));
    if n < 0 {
        0
    } else {
        n
    }
}

pub fn total_samples(duration: Number) -> (r: i64)
    ensures
        r == length_of(duration),
        r >= 0,
{
    let n: i64 = duration.max(num(ZERO)).times(Number::from_int(MIX_RATE as i64)).to_rounded();
    if n < 0 {
        0
    } else {
        n
    }
}

/// What the graph's source for an input is told: one sample a tick, so the
/// graph's clock is the sample clock.
pub open spec fn source_args_text(rate: u32, format: Seq<char>, layout: Seq<char>) -> Seq<char> {
    "time_base=1/"@ + decimal(rate as nat) + ":sample_rate="@ + decimal(rate as nat)
        + ":sample_fmt="@ + format + ":channel_layout="@ + layout
}

pub fn source_args(rate: u32, format: &str, layout: &str) -> (s: String)
    ensures
        s@ == source_args_text(rate, format@, layout@),
{
    let mut s: String = "time_base=1/".to_owned();
    s.append(decimal_text(rate as u64).as_str());
    s.append(":sample_rate=");
    s.append(decimal_text(rate as u64).as_str());
    s.append(":sample_fmt=");
    s.append(format);
    s.append(":channel_layout=");
    s.append(layout);
    s
}

/// A mix's graph landing on the encoder's own format.
pub fn sink_graph(graph: &str) -> (s: String)
    ensures
        s@ == graph@
            + ";[out]aformat=sample_fmts=fltp:sample_rates=48000:channel_layouts=stereo[sink]"@,
{
    let mut s: String = graph.to_owned();
    s.append(";[out]aformat=sample_fmts=fltp:sample_rates=48000:channel_layouts=stereo[sink]");
    s
}

// One input.

/// One open input of the mix.
#[derive(Clone, Copy, Debug)]
pub struct MixInput {
    /// Whether it has given all it will.
    pub done: bool,
    /// Samples already sent to the graph for this clip.
    pub samples_sent: i64,
    /// How many samples this clip contributes.
    pub clip_samples: i64,
}

/// What an input's codec answered when asked for a frame.
#[derive(Clone, Copy, Debug)]
pub enum Decoded {
    Frame,
    End,
    Again,
    Failed,
}

/// What came of reading a packet and handing it to an input's codec.
#[derive(Clone, Copy, Debug)]
pub enum Sent {
    /// The packet was another stream's.
    Foreign,
    /// The codec took it, or wants its frames taken first.
    Taken,
    /// The codec refused it.
    Refused,
    /// The file is over.
    EndOfFile,
    /// The file could not be read.
    ReadFailed,
}

/// What an input does next.
#[derive(Clone, Copy, Debug)]
pub enum InputStep {
    /// Ask the codec for a frame.
    Receive,
    /// Read a packet and hand it to the codec.
    Feed,
    /// Tell the codec the file is over, and ask it for its last frames.
    Flush,
    /// The frame is the next one.
    Give,
    /// There are no more.
    End,
    /// Report the failure.
    Fail,
}

impl MixInput {
    /// An input whose first frame, of `first` samples, goes to the graph
    /// separately and counts towards its total.
    pub fn opened(first: u32, clip_samples: i64) -> (r: MixInput)
        ensures
            r == (MixInput { done: false, samples_sent: first as i64, clip_samples }),
    {
        MixInput { done: false, samples_sent: first as i64, clip_samples }
    }

    /// Where reading one frame begins: nowhere once the input is done.
    pub fn begin(&self) -> (r: InputStep)
        ensures
            r == (if self.done {
                InputStep::End
            } else {
                InputStep::Receive
            }),
    {
        if self.done {
            InputStep::End
        } else {
            InputStep::Receive
        }
    }

    /// The codec has answered.
    pub fn decoded(&mut self, event: Decoded) -> (r: InputStep)
        ensures
            match event {
                Decoded::Frame => r is Give && *final(self) == *old(self),
                Decoded::End => r is End && *final(self) == (MixInput { done: true, ..*old(self) }),
                Decoded::Again => r is Feed && *final(self) == *old(self),
                Decoded::Failed => r is Fail && *final(self) == *old(self),
            },
    {
        match event {
            Decoded::Frame => InputStep::Give,
            Decoded::End => {
                self.done = true;
                InputStep::End
            },
            Decoded::Again => InputStep::Feed,
            Decoded::Failed => InputStep::Fail,
        }
    }

    /// A packet was read and handed on, or was not.
    pub fn fed(&self, event: Sent) -> (r: InputStep)
        ensures
            match event {
                Sent::Foreign => r is Feed,
                Sent::Taken => r is Receive,
                Sent::Refused => r is Fail,
                Sent::EndOfFile => r is Flush,
                Sent::ReadFailed => r is Fail,
            },
    {
        match event {
            Sent::Foreign => InputStep::Feed,
            Sent::Taken => InputStep::Receive,
            Sent::Refused => InputStep::Fail,
            Sent::EndOfFile => InputStep::Flush,
            Sent::ReadFailed => InputStep::Fail,
        }
    }
}

// The mix.

/// What the graph's sink gave when asked for mixed sound.
#[derive(Clone, Copy, Debug)]
pub enum Pulled {
    /// A frame of this many samples.
    Frame(u32),
    /// The graph ran dry.
    End,
    /// It wants input first.
    Again,
    Failed,
}

/// What came of reading one frame from an input.
#[derive(Clone, Copy, Debug)]
pub enum Read {
    /// A frame of this many samples.
    Frame(u32),
    End,
    Failed,
}

/// What came of handing a frame to the graph.
#[derive(Clone, Copy, Debug)]
pub enum Added {
    Taken,
    /// The graph has closed this input's slot.
    Closed,
    Failed,
}

/// What a mix does next.
#[derive(Clone, Copy, Debug, PartialEq, Eq, Structural)]
pub enum MixStep {
    /// Ask the sink for mixed sound.
    Pull,
    /// Encode this many samples of what was pulled, stamped so.
    Encode { samples: i64, pts: i64 },
    /// Read one frame from an input.
    Read(usize),
    /// Hand what was read to the graph, stamped so.
    Add { input: usize, pts: i64 },
    /// Tell the graph an input is over.
    Close(usize),
    /// Flush the encoder and close the file.
    Finish,
    /// Report the failure.
    Fail,
}

/// A mix in progress.
pub struct Mixer {
    pub inputs: Vec<MixInput>,
    /// Where the mix ends, in samples.
    pub total: i64,
    /// Samples encoded so far.
    pub written: i64,
}

/// What a mix says.
#[verifier::ext_equal]
pub struct MixerView {
    pub inputs: Seq<MixInput>,
    pub total: int,
    pub written: int,
}

/// The first input at or after `from` that still has frames.
pub open spec fn open_from(inputs: Seq<MixInput>, from: int) -> Option<int>
    decreases inputs.len() - from,
{
    if from >= inputs.len() {
        None
    } else if !inputs[from].done {
        Some(from)
    } else {
        open_from(inputs, from + 1)
    }
}

impl MixerView {
    /// What every mix keeps: it has written no more than it is long.
    pub open spec fn sound(self) -> bool {
        0 <= self.written <= self.total <= i64::MAX && self.inputs.len() <= usize::MAX
    }

    /// The step after an input has had its turn: the next open input's, or the
    /// sink's.
    pub open spec fn after(self, from: int) -> MixStep {
        match open_from(self.inputs, from) {
            Some(i) => MixStep::Read(i as usize),
            None => MixStep::Pull,
        }
    }

    pub open spec fn with_input(self, i: int, input: MixInput) -> MixerView {
        MixerView { inputs: self.inputs.update(i, input), ..self }
    }

    /// What follows mixed sound. The last frame is shortened to land on the
    /// mix's end; a graph that runs dry ends the mix too, so the file still
    /// gets its trailer.
    pub open spec fn pulling(self, event: Pulled) -> (MixerView, MixStep) {
        match event {
            Pulled::Frame(samples) => {
                let remaining = self.total - self.written;
                if remaining <= 0 {
                    (self, MixStep::Finish)
                } else {
                    let taken = if samples < remaining {
                        samples as int
                    } else {
                        remaining
                    };
                    (
                        MixerView { written: self.written + taken, ..self },
                        MixStep::Encode { samples: taken as i64, pts: self.written as i64 },
                    )
                }
            },
            Pulled::End => (self, MixStep::Finish),
            Pulled::Again => (self, self.after(0)),
            Pulled::Failed => (self, MixStep::Fail),
        }
    }

    /// What follows an input's frame: it is stamped with the samples sent
    /// before it, unless the clip has already sent its worth.
    pub open spec fn reading(self, i: int, event: Read) -> (MixerView, MixStep) {
        let input = self.inputs[i];
        match event {
            Read::Frame(samples) => if input.samples_sent >= input.clip_samples {
                (
                    self.with_input(i, MixInput { done: true, ..input }),
                    MixStep::Close(i as usize),
                )
            } else {
                (
                    self.with_input(
                        i,
                        MixInput {
                            samples_sent: clipped(input.samples_sent + samples) as i64,
                            ..input
                        },
                    ),
                    MixStep::Add { input: i as usize, pts: input.samples_sent },
                )
            },
            Read::End => (
                self.with_input(i, MixInput { done: true, ..input }),
                MixStep::Close(i as usize),
            ),
            Read::Failed => (self, MixStep::Fail),
        }
    }

    /// What follows handing a frame to the graph. A slot the graph has closed
    /// ends the input rather than the mix.
    pub open spec fn adding(self, i: int, event: Added) -> (MixerView, MixStep) {
        match event {
            Added::Taken => (self, self.after(i + 1)),
            Added::Closed => (
                self.with_input(i, MixInput { done: true, ..self.inputs[i] }),
                MixStep::Close(i as usize),
            ),
            Added::Failed => (self, MixStep::Fail),
        }
    }
}

impl Mixer {
    pub open spec fn view(&self) -> MixerView {
        MixerView {
            inputs: self.inputs@,
            total: self.total as int,
            written: self.written as int,
        }
    }

    /// A mix of these inputs, of this many samples.
    pub fn new(inputs: Vec<MixInput>, total: i64) -> (r: Mixer)
        requires
            total >= 0,
        ensures
            r@ == (MixerView { inputs: inputs@, total: total as int, written: 0 }),
            r@.sound(),
    {
        let r: Mixer = Mixer { inputs, total, written: 0 };
        assert(r.inputs.len() == r@.inputs.len());
        r
    }

    fn turn(&self, from: usize) -> (r: MixStep)
        ensures
            r == self@.after(from as int),
    {
        let mut i: usize = from;
        while i < self.inputs.len()
            invariant
                from <= i,
                open_from(self.inputs@, from as int) == open_from(self.inputs@, i as int),
            decreases self.inputs.len() - i,
        {
            if !self.inputs[i].done {
                return MixStep::Read(i);
            }
            i = i + 1;
        }
        MixStep::Pull
    }

    /// The sink has answered.
    pub fn pulled(&mut self, event: Pulled) -> (r: MixStep)
        requires
            old(self)@.sound(),
        ensures
            (final(self)@, r) == old(self)@.pulling(event),
            final(self)@.sound(),
    {
        match event {
            Pulled::Frame(samples) => {
                let remaining: i64 = self.total - self.written;
                if remaining <= 0 {
                    return MixStep::Finish;
                }
                let taken: i64 = if (samples as i64) < remaining {
                    samples as i64
                } else {
                    remaining
                };
                let pts: i64 = self.written;
                self.written = self.written + taken;
                MixStep::Encode { samples: taken, pts }
            },
            Pulled::End => MixStep::Finish,
            Pulled::Again => self.turn(0),
            Pulled::Failed => MixStep::Fail,
        }
    }

    /// What was pulled is encoded.
    pub fn encoded(&self) -> (r: MixStep)
        ensures
            r == (if self@.written >= self@.total {
                MixStep::Finish
            } else {
                MixStep::Pull
            }),
    {
        if self.written >= self.total {
            MixStep::Finish
        } else {
            MixStep::Pull
        }
    }

    /// An input was asked for a frame.
    pub fn read(&mut self, i: usize, event: Read) -> (r: MixStep)
        requires
            old(self)@.sound(),
            i < old(self)@.inputs.len(),
        ensures
            (final(self)@, r) == old(self)@.reading(i as int, event),
            final(self)@.sound(),
    {
        let mut input: MixInput = self.inputs[i];
        match event {
            Read::Frame(samples) => {
                if input.samples_sent >= input.clip_samples {
                    input.done = true;
                    self.inputs.set(i, input);
                    return MixStep::Close(i);
                }
                let pts: i64 = input.samples_sent;
                let sent: i128 = (pts as i128) + (samples as i128);
                input.samples_sent = if sent > i64::MAX as i128 {
                    i64::MAX
                } else {
                    sent as i64
                };
                self.inputs.set(i, input);
                MixStep::Add { input: i, pts }
            },
            Read::End => {
                input.done = true;
                self.inputs.set(i, input);
                MixStep::Close(i)
            },
            Read::Failed => MixStep::Fail,
        }
    }

    /// A frame was handed to the graph.
    pub fn added(&mut self, i: usize, event: Added) -> (r: MixStep)
        requires
            old(self)@.sound(),
            i < old(self)@.inputs.len(),
        ensures
            (final(self)@, r) == old(self)@.adding(i as int, event),
            final(self)@.sound(),
    {
        match event {
            Added::Taken => self.turn(i + 1),
            Added::Closed => {
                let mut input: MixInput = self.inputs[i];
                input.done = true;
                self.inputs.set(i, input);
                MixStep::Close(i)
            },
            Added::Failed => MixStep::Fail,
        }
    }

    /// The graph knows an input is over.
    pub fn closed(&self, i: usize) -> (r: MixStep)
        requires
            i < self@.inputs.len(),
        ensures
            r == self@.after(i + 1),
    {
        assert(self.inputs.len() == self@.inputs.len());
        self.turn(i + 1)
    }
}

// What holds of every mix.

/// What is encoded is stamped without gaps, never runs past the mix's end, and
/// an encoded frame that leaves nothing to write has landed on the end exactly.
pub proof fn lemma_mix_ends_with_the_timeline(mix: MixerView, event: Pulled)
    requires
        mix.sound(),
    ensures
        mix.pulling(event).0.sound(),
        match mix.pulling(event).1 {
            MixStep::Encode { samples, pts } => {
                &&& pts == mix.written
                &&& mix.pulling(event).0.written == pts + samples
                &&& pts + samples <= mix.total
                &&& mix.pulling(event).0.written >= mix.total ==> pts + samples == mix.total
            },
            _ => mix.pulling(event).0.written == mix.written,
        },
{
}

/// What an input sends is stamped without gaps from its own sample count, and
/// an input that has sent its clip's worth sends no more.
pub proof fn lemma_input_stops_at_its_out_point(mix: MixerView, i: int, samples: u32)
    requires
        mix.sound(),
        0 <= i < mix.inputs.len(),
    ensures
        mix.inputs[i].samples_sent >= mix.inputs[i].clip_samples ==> mix.reading(
            i,
            Read::Frame(samples),
        ).1 == MixStep::Close(i as usize) && mix.reading(i, Read::Frame(samples)).0.inputs[i].done,
        match mix.reading(i, Read::Frame(samples)).1 {
            MixStep::Add { input, pts } => {
                &&& input == i
                &&& pts == mix.inputs[i].samples_sent
                &&& pts < mix.inputs[i].clip_samples
            },
            _ => true,
        },
{
}

/// Only inputs that still have frames are ever asked for one.
pub proof fn lemma_only_open_inputs_are_read(mix: MixerView, from: int)
    requires
        mix.sound(),
        0 <= from,
    ensures
        match mix.after(from) {
            MixStep::Read(i) => from <= i < mix.inputs.len() && !mix.inputs[i as int].done
                && forall|j: int| from <= j < i ==> (#[trigger] mix.inputs[j]).done,
            _ => forall|j: int| from <= j < mix.inputs.len() ==> (#[trigger] mix.inputs[j]).done,
        },
    decreases mix.inputs.len() - from,
{
    if from < mix.inputs.len() && mix.inputs[from].done {
        lemma_only_open_inputs_are_read(mix, from + 1);
    }
}

} // verus!
