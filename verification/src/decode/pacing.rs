//! Which source frame is on screen at each output instant, and the copy out.

use crate::decode::options::FrameRate;
use crate::decode::reading::{Decoder, Source};
use crate::timing::{made, Ratio};
use vstd::prelude::*;

verus! {

/// What a paced reader does next.
#[derive(Clone, Copy, Debug)]
pub enum Pace {
    /// Take the next picture from the codec.
    Take,
    /// Show this one.
    Show(Source),
    /// The file is over.
    End,
    /// The instant has no representation.
    Unknown,
}

impl Decoder {
    /// The output instant the pacer is at.
    pub open spec fn instant(self, rate: FrameRate) -> Option<Ratio> {
        match made(rate.seconds(), rate.frames()) {
            Some(length) => match made(length.numerator() * self.tick, length.denominator()) {
                Some(offset) => made(
                    self.origin.sum_of(offset).0,
                    self.origin.sum_of(offset).1,
                ),
                None => None,
            },
            None => None,
        }
    }

    /// Whether the frame after the one showing is not yet past the instant, or
    /// not yet known. A frame with no timestamp counts as the next in line.
    pub open spec fn behind(self, target: Ratio) -> bool {
        !self.source_done && match self.pending {
            Some(next) => match next.pts {
                Some(pts) => !target.less(pts),
                None => true,
            },
            None => true,
        }
    }

    /// The reader with the frame in line moved up, so the one after it can be
    /// taken.
    pub open spec fn moved_up(self) -> Decoder {
        match self.pending {
            Some(next) => Decoder { current: Some(next), pending: None, ..self },
            None => self,
        }
    }

    /// The reader with something to show where anything is: before the first
    /// frame's own instant, that frame.
    pub open spec fn settled(self) -> Decoder {
        match self.current {
            Some(current) => self,
            None => Decoder { current: self.pending, pending: None, ..self },
        }
    }

    /// Whether the last frame has shown once at its own instant and the file is
    /// over.
    pub open spec fn over(self, current: Source, rate: FrameRate, target: Ratio) -> bool {
        self.source_done && self.pending is None && !self.options.looping && match (
            current.pts,
            made(rate.seconds(), rate.frames()),
        ) {
            (Some(pts), Some(length)) => match made(
                pts.sum_of(length).0,
                pts.sum_of(length).1,
            ) {
                Some(end) => !target.less(end),
                None => false,
            },
            _ => false,
        }
    }

    /// What the pacer does.
    pub open spec fn pacing(self, rate: FrameRate) -> (Decoder, Pace) {
        match self.instant(rate) {
            None => (self, Pace::Unknown),
            Some(target) => if self.tick == u64::MAX {
                (self, Pace::Unknown)
            } else if self.behind(target) {
                (self.moved_up(), Pace::Take)
            } else {
                let ready = self.settled();
                match ready.current {
                    None => (ready, Pace::End),
                    Some(current) => if ready.over(current, rate, target) {
                        (ready, Pace::End)
                    } else {
                        (
                            Decoder {
                                position: Some(target),
                                tick: (ready.tick + 1) as u64,
                                ..ready
                            },
                            Pace::Show(current),
                        )
                    },
                }
            },
        }
    }

    /// What a reader without pacing does with what the codec gave.
    pub open spec fn unpaced(self, source: Option<Source>) -> (Decoder, Pace) {
        match source {
            Some(source) => (
                Decoder { position: source.pts, current: Some(source), ..self },
                Pace::Show(source),
            ),
            None => match self.current {
                Some(last) => if self.options.looping {
                    (Decoder { position: last.pts, ..self }, Pace::Show(last))
                } else {
                    (self, Pace::End)
                },
                None => (self, Pace::End),
            },
        }
    }

    /// Whether the caller's budget of frames is spent.
    pub open spec fn exhausted(self) -> bool {
        match self.options.max_frames {
            Some(limit) => self.produced >= limit,
            None => false,
        }
    }

    /// With pacing: the source frame on screen at the next output instant, or
    /// what is needed to know it.
    pub fn next_paced(&mut self, rate: FrameRate) -> (r: Pace)
        ensures
            (*final(self), r) == old(self).pacing(rate),
    {
        let length: Ratio = match rate.frame_duration() {
            Some(length) => length,
            None => {
                return Pace::Unknown;
            },
        };
        let offset: Ratio = match length.times(self.tick) {
            Some(offset) => offset,
            None => {
                return Pace::Unknown;
            },
        };
        let target: Ratio = match self.origin.plus(&offset) {
            Some(target) => target,
            None => {
                return Pace::Unknown;
            },
        };
        if self.tick == u64::MAX {
            return Pace::Unknown;
        }
        let behind: bool = !self.source_done && match self.pending {
            Some(next) => match next.pts {
                Some(pts) => !target.before(&pts),
                None => true,
            },
            None => true,
        };
        if behind {
            match self.pending {
                Some(next) => {
                    self.current = Some(next);
                    self.pending = None;
                },
                None => {},
            }
            return Pace::Take;
        }
        if self.current.is_none() {
            self.current = self.pending;
            self.pending = None;
        }
        match self.current {
            None => Pace::End,
            Some(current) => {
                if self.source_done && self.pending.is_none() && !self.options.looping {
                    match current.pts {
                        Some(pts) => match pts.plus(&length) {
                            Some(end) => {
                                if !target.before(&end) {
                                    return Pace::End;
                                }
                            },
                            None => {},
                        },
                        None => {},
                    }
                }
                self.position = Some(target);
                self.tick = self.tick + 1;
                Pace::Show(current)
            },
        }
    }

    /// What the codec gave the pacer: the next picture, or the end.
    pub fn supplied(&mut self, source: Option<Source>)
        ensures
            *final(self) == (match source {
                Some(source) => Decoder { pending: Some(source), ..*old(self) },
                None => Decoder { source_done: true, ..*old(self) },
            }),
    {
        match source {
            Some(source) => {
                self.pending = Some(source);
            },
            None => {
                self.source_done = true;
            },
        }
    }

    /// Without pacing: every source frame, in order, and the last one again
    /// where it repeats.
    pub fn next_unpaced(&mut self, source: Option<Source>) -> (r: Pace)
        ensures
            (*final(self), r) == old(self).unpaced(source),
    {
        match source {
            Some(source) => {
                self.position = source.pts;
                self.current = Some(source);
                Pace::Show(source)
            },
            None => match self.current {
                Some(last) => {
                    if self.options.looping {
                        self.position = last.pts;
                        Pace::Show(last)
                    } else {
                        Pace::End
                    }
                },
                None => Pace::End,
            },
        }
    }

    /// Whether the caller's budget of frames is spent.
    pub fn spent(&self) -> (r: bool)
        ensures
            r == self.exhausted(),
    {
        match self.options.max_frames {
            Some(limit) => self.produced >= limit,
            None => false,
        }
    }

    /// A frame was handed to the caller.
    pub fn count_frame(&mut self)
        requires
            old(self).produced < u64::MAX,
        ensures
            *final(self) == (Decoder { produced: (old(self).produced + 1) as u64, ..*old(self) }),
    {
        self.produced = self.produced + 1;
    }

    /// When the frame just returned is meant to be shown.
    pub fn position(&self) -> (r: Option<Ratio>)
        ensures
            r == self.position,
    {
        self.position
    }
}

/// The frame the pacer shows is the one on screen at its instant: the one
/// after it, where its time is known, has not started.
pub proof fn lemma_shown_frame_is_current(reader: Decoder, rate: FrameRate)
    requires
        reader.pacing(rate).1 is Show,
        reader.current is Some,
        reader.pending is Some,
        reader.pending->0.pts is Some,
        !reader.source_done,
    ensures
        reader.pacing(rate).0.position->0.less(reader.pending->0.pts->0),
        reader.pacing(rate).1 == Pace::Show(reader.current->0),
{
}

/// Every frame shown moves the pacer on by exactly one instant, and nothing
/// else does.
pub proof fn lemma_one_frame_per_instant(reader: Decoder, rate: FrameRate)
    ensures
        reader.pacing(rate).0.tick == reader.tick + (if reader.pacing(rate).1 is Show {
            1int
        } else {
            0int
        }),
        reader.pacing(rate).0.origin == reader.origin,
{
}

/// A repeating reader that has a picture never ends, paced or not.
pub proof fn lemma_a_still_never_ends(reader: Decoder, rate: FrameRate, source: Option<Source>)
    requires
        reader.options.looping,
        reader.current is Some,
    ensures
        !(reader.pacing(rate).1 is End),
        !(reader.unpaced(source).1 is End),
{
}

// The copy out.

/// The rows of a picture whose lines are `stride` bytes apart, packed.
pub open spec fn packed_rows(
    data: Seq<u8>,
    row: nat,
    height: nat,
    stride: nat,
) -> Seq<u8>
    decreases height,
{
    if height == 0 {
        Seq::empty()
    } else {
        let from = (height - 1) * stride;
        packed_rows(data, row, (height - 1) as nat, stride) + data.subrange(from, from + row)
    }
}

/// Copies a picture out of a padded buffer: `height` rows of `row` bytes, one
/// every `stride`.
pub fn pack_rows(data: &Vec<u8>, row: usize, height: usize, stride: usize) -> (r: Vec<u8>)
    requires
        row <= stride,
        height * stride <= data.len(),
    ensures
        r@ == packed_rows(data@, row as nat, height as nat, stride as nat),
{
    let mut r: Vec<u8> = Vec::new();
    let mut y: usize = 0;
    let mut from: usize = 0;
    while y < height
        invariant
            y <= height,
            from == y * stride,
            row <= stride,
            height * stride <= data.len(),
            r@ == packed_rows(data@, row as nat, y as nat, stride as nat),
        decreases height - y,
    {
        assert((y + 1) * stride <= height * stride && (y + 1) * stride == y * stride + stride)
            by (nonlinear_arith)
            requires
                y + 1 <= height,
        ;
        let ghost before = r@;
        let mut x: usize = 0;
        while x < row
            invariant
                x <= row <= stride,
                from + stride <= data.len(),
                r@ == before + data@.subrange(from as int, from + x),
            decreases row - x,
        {
            r.push(data[from + x]);
            assert(data@.subrange(from as int, from + x + 1) =~= data@.subrange(
                from as int,
                from + x,
            ).push(data[from + x]));
            x = x + 1;
        }
        y = y + 1;
        from = from + stride;
    }
    r
}

} // verus!
