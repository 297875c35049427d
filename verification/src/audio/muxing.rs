//! Joining an encoded picture and an encoded sound, packet by packet.
//!
//! Whichever stream's next packet is due sooner goes next, in seconds rather
//! than ticks since the two files' clocks differ: that keeps the two abreast
//! however their packet rates compare. The file ends with the shorter of the
//! two.

use crate::timing::{integer, made, seconds, Ratio, TimeBase};
use vstd::prelude::*;

verus! {

/// When a packet is shown and decoded, and for how long.
#[derive(Clone, Copy, Debug)]
pub struct Packet {
    pub pts: Option<i64>,
    pub dts: Option<i64>,
    pub duration: i64,
}

/// One input of the join: its clock, and the packet waiting to be written.
#[derive(Clone, Copy, Debug)]
pub struct Feed {
    pub from: TimeBase,
    pub next: Option<Packet>,
    pub done: bool,
    /// When the packet last written stops showing.
    pub end: Ratio,
}

/// Which of the two.
#[derive(Clone, Copy, Debug, PartialEq, Eq, Structural)]
pub enum Side {
    Picture,
    Sound,
}

/// What came of reading a packet.
#[derive(Clone, Copy, Debug)]
pub enum Filled {
    /// A packet of the wanted stream.
    Packet(Packet),
    /// Another stream's.
    Foreign,
    /// The file is over.
    End,
    Failed,
}

/// What the join does next.
#[derive(Clone, Copy, Debug, PartialEq, Eq, Structural)]
pub enum MuxStep {
    /// Read a packet of this side.
    Fill(Side),
    /// Write this side's waiting packet.
    Write(Side),
    /// Close the file.
    Finish,
    /// Report the failure.
    Fail,
}

pub open spec fn either(first: Option<i64>, second: Option<i64>) -> Option<i64> {
    match first {
        Some(ticks) => Some(ticks),
        None => second,
    }
}

pub open spec fn instant_of(ticks: Option<i64>, base: TimeBase) -> Option<Ratio> {
    match ticks {
        Some(count) => made(base.product(count).0, base.product(count).1),
        None => None,
    }
}

/// Whether one instant is no later than another, where an unknown one comes
/// first.
pub open spec fn no_later(a: Option<Ratio>, b: Option<Ratio>) -> bool {
    match (a, b) {
        (None, _) => true,
        (Some(x), None) => false,
        (Some(x), Some(y)) => !y.less(x),
    }
}

impl Feed {
    /// A feed nothing has been read from.
    pub fn new(from: TimeBase) -> (r: Feed)
        ensures
            r == (Feed { from, next: None, done: false, end: integer(0) }),
    {
        Feed { from, next: None, done: false, end: Ratio::from_int(0) }
    }

    /// When the waiting packet is due: its decode time, or its presentation
    /// time where the container gave no other.
    pub open spec fn due_at(self) -> Option<Ratio> {
        match self.next {
            Some(packet) => instant_of(either(packet.dts, packet.pts), self.from),
            None => None,
        }
    }

    /// When the waiting packet is shown.
    pub open spec fn shown_at(self) -> Option<Ratio> {
        match self.next {
            Some(packet) => instant_of(either(packet.pts, packet.dts), self.from),
            None => None,
        }
    }

    /// The feed once its waiting packet is written.
    pub open spec fn sent(self) -> Feed {
        match self.next {
            Some(packet) => {
                let end = match either(packet.pts, packet.dts) {
                    Some(ticks) => if i64::MIN <= ticks + packet.duration <= i64::MAX {
                        instant_of(Some((ticks + packet.duration) as i64), self.from)
                    } else {
                        None
                    },
                    None => None,
                };
                Feed {
                    next: None,
                    end: match end {
                        Some(at) => at,
                        None => self.end,
                    },
                    ..self
                }
            },
            None => self,
        }
    }

    fn at(&self, ticks: Option<i64>) -> (r: Option<Ratio>)
        ensures
            r == instant_of(ticks, self.from),
    {
        match ticks {
            Some(count) => seconds(count, self.from),
            None => None,
        }
    }

    /// When the waiting packet is due, in seconds.
    pub fn due(&self) -> (r: Option<Ratio>)
        ensures
            r == self.due_at(),
    {
        match self.next {
            Some(packet) => match packet.dts {
                Some(ticks) => self.at(Some(ticks)),
                None => self.at(packet.pts),
            },
            None => None,
        }
    }

    /// When the waiting packet is shown, in seconds.
    pub fn shown(&self) -> (r: Option<Ratio>)
        ensures
            r == self.shown_at(),
    {
        match self.next {
            Some(packet) => match packet.pts {
                Some(ticks) => self.at(Some(ticks)),
                None => self.at(packet.dts),
            },
            None => None,
        }
    }

    /// Reads ahead to the next packet of the wanted stream.
    pub fn fill(&mut self, event: Filled)
        ensures
            *final(self) == (match event {
                Filled::Packet(packet) => Feed { next: Some(packet), ..*old(self) },
                Filled::End => Feed { done: true, ..*old(self) },
                _ => *old(self),
            }),
    {
        match event {
            Filled::Packet(packet) => {
                self.next = Some(packet);
            },
            Filled::End => {
                self.done = true;
            },
            _ => {},
        }
    }

    /// The waiting packet is written.
    pub fn write(&mut self)
        ensures
            *final(self) == old(self).sent(),
    {
        match self.next {
            Some(packet) => {
                let ticks: Option<i64> = match packet.pts {
                    Some(count) => Some(count),
                    None => packet.dts,
                };
                match ticks {
                    Some(count) => {
                        let last: i128 = (count as i128) + (packet.duration as i128);
                        if i64::MIN as i128 <= last && last <= i64::MAX as i128 {
                            match self.at(Some(last as i64)) {
                                Some(end) => {
                                    self.end = end;
                                },
                                None => {},
                            }
                        }
                    },
                    None => {},
                }
                self.next = None;
            },
            None => {},
        }
    }
}

/// A join in progress.
#[derive(Clone, Copy, Debug)]
pub struct Mux {
    pub picture: Feed,
    pub sound: Feed,
}

impl Mux {
    /// Whether a side has to be read from before anything is decided.
    pub open spec fn hungry(feed: Feed) -> bool {
        feed.next is None && !feed.done
    }

    /// Where the file ends, once a side has run out: with the one that ended
    /// sooner.
    pub open spec fn cutoff(self) -> Option<Ratio> {
        match (self.picture.next, self.sound.next) {
            (None, None) => Some(
                if self.sound.end.less(self.picture.end) {
                    self.sound.end
                } else {
                    self.picture.end
                },
            ),
            (None, Some(_)) => Some(self.picture.end),
            (Some(_), None) => Some(self.sound.end),
            (Some(_), Some(_)) => None,
        }
    }

    /// The side whose waiting packet is due sooner; the picture's where they
    /// are due together.
    pub open spec fn sooner(self) -> Option<Side> {
        match (self.picture.next, self.sound.next) {
            (None, None) => None,
            (Some(_), None) => Some(Side::Picture),
            (None, Some(_)) => Some(Side::Sound),
            (Some(_), Some(_)) => Some(
                if no_later(self.picture.due_at(), self.sound.due_at()) {
                    Side::Picture
                } else {
                    Side::Sound
                },
            ),
        }
    }

    pub open spec fn feed(self, side: Side) -> Feed {
        match side {
            Side::Picture => self.picture,
            Side::Sound => self.sound,
        }
    }

    /// What the join does next.
    pub open spec fn next(self) -> MuxStep {
        if Mux::hungry(self.picture) {
            MuxStep::Fill(Side::Picture)
        } else if Mux::hungry(self.sound) {
            MuxStep::Fill(Side::Sound)
        } else {
            match self.sooner() {
                None => MuxStep::Finish,
                Some(side) => match (self.cutoff(), self.feed(side).shown_at()) {
                    (Some(end), Some(shown)) => if !shown.less(end) {
                        MuxStep::Finish
                    } else {
                        MuxStep::Write(side)
                    },
                    _ => MuxStep::Write(side),
                },
            }
        }
    }

    /// A join of two streams, by their clocks.
    pub fn new(picture: TimeBase, sound: TimeBase) -> (r: Mux)
        ensures
            r.picture == (Feed { from: picture, next: None, done: false, end: integer(0) }),
            r.sound == (Feed { from: sound, next: None, done: false, end: integer(0) }),
    {
        Mux { picture: Feed::new(picture), sound: Feed::new(sound) }
    }

    fn picture_first(&self) -> (r: bool)
        ensures
            r == no_later(self.picture.due_at(), self.sound.due_at()),
    {
        match self.picture.due() {
            None => true,
            Some(first) => match self.sound.due() {
                None => false,
                Some(second) => !second.before(&first),
            },
        }
    }

    /// What the join does next.
    pub fn step(&self) -> (r: MuxStep)
        ensures
            r == self.next(),
    {
        if self.picture.next.is_none() && !self.picture.done {
            return MuxStep::Fill(Side::Picture);
        }
        if self.sound.next.is_none() && !self.sound.done {
            return MuxStep::Fill(Side::Sound);
        }
        let picture: bool = self.picture.next.is_some();
        let sound: bool = self.sound.next.is_some();
        if !picture && !sound {
            return MuxStep::Finish;
        }
        let side: Side = if picture && (!sound || self.picture_first()) {
            Side::Picture
        } else {
            Side::Sound
        };
        if !(picture && sound) {
            let end: Ratio = if picture {
                self.sound.end
            } else {
                self.picture.end
            };
            let shown: Option<Ratio> = match side {
                Side::Picture => self.picture.shown(),
                Side::Sound => self.sound.shown(),
            };
            match shown {
                Some(at) => {
                    if !at.before(&end) {
                        return MuxStep::Finish;
                    }
                },
                None => {},
            }
        }
        MuxStep::Write(side)
    }

    /// A side was read from.
    pub fn filled(&mut self, side: Side, event: Filled) -> (r: MuxStep)
        ensures
            event is Failed ==> r is Fail && *final(self) == *old(self),
            !(event is Failed) ==> r == final(self).next() && match side {
                Side::Picture => final(self).sound == old(self).sound && final(self).picture == (
                match event {
                    Filled::Packet(packet) => Feed { next: Some(packet), ..old(self).picture },
                    Filled::End => Feed { done: true, ..old(self).picture },
                    _ => old(self).picture,
                }),
                Side::Sound => final(self).picture == old(self).picture && final(self).sound == (
                match event {
                    Filled::Packet(packet) => Feed { next: Some(packet), ..old(self).sound },
                    Filled::End => Feed { done: true, ..old(self).sound },
                    _ => old(self).sound,
                }),
            },
    {
        match event {
            Filled::Failed => {
                return MuxStep::Fail;
            },
            _ => {},
        }
        match side {
            Side::Picture => self.picture.fill(event),
            Side::Sound => self.sound.fill(event),
        }
        self.step()
    }

    /// A side's waiting packet was written.
    pub fn written(&mut self, side: Side) -> (r: MuxStep)
        ensures
            r == final(self).next(),
            match side {
                Side::Picture => *final(self) == (Mux {
                    picture: old(self).picture.sent(),
                    ..*old(self)
                }),
                Side::Sound => *final(self) == (Mux { sound: old(self).sound.sent(), ..*old(self) }),
            },
    {
        match side {
            Side::Picture => self.picture.write(),
            Side::Sound => self.sound.write(),
        }
        self.step()
    }
}

/// A packet is written only where the other side has nothing waiting that is
/// due sooner.
pub proof fn lemma_written_in_due_order(mux: Mux)
    requires
        mux.next() is Write,
        mux.picture.next is Some,
        mux.sound.next is Some,
    ensures
        mux.next() == MuxStep::Write(Side::Picture) ==> no_later(
            mux.picture.due_at(),
            mux.sound.due_at(),
        ),
        mux.next() == MuxStep::Write(Side::Sound) ==> no_later(
            mux.sound.due_at(),
            mux.picture.due_at(),
        ),
{
    match (mux.picture.due_at(), mux.sound.due_at()) {
        (Some(a), Some(b)) => {
            lemma_order_is_total(a, b);
        },
        _ => {},
    }
}

proof fn lemma_order_is_total(a: Ratio, b: Ratio)
    ensures
        !(a.less(b) && b.less(a)),
{
}

/// Once a side has run out, the other carries on only to where that one ended:
/// nothing shown at or past it is written.
pub proof fn lemma_ends_with_the_shorter(mux: Mux, side: Side)
    requires
        mux.next() == MuxStep::Write(side),
        mux.cutoff() is Some,
        mux.feed(side).shown_at() is Some,
    ensures
        mux.feed(side).shown_at()->0.less(mux.cutoff()->0),
{
}

/// A join ends only when both sides have run out, or when one has and the other
/// has reached its end.
pub proof fn lemma_finishes_only_at_an_end(mux: Mux)
    requires
        mux.next() is Finish,
    ensures
        mux.picture.done && mux.picture.next is None || mux.sound.done && mux.sound.next is None,
{
}

} // verus!
