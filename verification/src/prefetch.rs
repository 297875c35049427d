//! Decoding ahead of the playhead, and the one queue everything else decodes
//! on.
//!
//! The transport says where the playhead is and which way it goes; the instants
//! ahead of it are decoded nearest first and held until it has passed them. The
//! same few workers take everything else that decodes for the screen, at lower
//! priorities, and one of them always stays clear of the background work, so
//! the artwork of a big import cannot make playback wait. Threads and decoding
//! live outside; jobs and frames are known here by number.

use crate::find::lemma_filter_step;
use crate::number::{difference, larger, num, sum, Number, ZERO};
use std::collections::VecDeque;
use vstd::prelude::*;

verus! {

/// How many frame instants are decoded ahead of the cursor.
pub const AHEAD: u32 = 8;

/// What a job is for, most urgent first. A worker takes the most urgent job
/// waiting; among jobs of one priority, the first queued.
#[derive(Clone, Copy, Debug, PartialEq, Eq, PartialOrd, Ord, Hash, Structural)]
pub enum Priority {
    /// The frames the playhead is about to reach.
    Playback,
    /// A clip's filmstrip, drawn on the timeline.
    Filmstrip,
    /// The bin's thumbnails and waveforms.
    Artwork,
    /// A proxy being written: minutes of work nobody is waiting on.
    Proxy,
}

impl Priority {
    /// Whether a job of this priority is background work, which the reserved
    /// worker never takes.
    pub open spec fn is_background(self) -> bool {
        self is Artwork || self is Proxy
    }

    /// Every priority, most urgent first.
    pub fn all() -> (r: Vec<Priority>)
        ensures
            r@ == seq![
                Priority::Playback,
                Priority::Filmstrip,
                Priority::Artwork,
                Priority::Proxy,
            ],
    {
        vec![Priority::Playback, Priority::Filmstrip, Priority::Artwork, Priority::Proxy]
    }

    pub fn background(self) -> (r: bool)
        ensures
            r == self.is_background(),
    {
        matches!(self, Priority::Artwork | Priority::Proxy)
    }
}

/// Which way the transport is going.
#[derive(Clone, Copy, Debug, PartialEq, Eq, Structural)]
pub enum Direction {
    /// Time increasing: play, or a scrub to the right.
    Forward,
    /// Time decreasing: shuttle, or a scrub to the left.
    Backward,
}

/// Where the playhead is and how it moves.
#[derive(Clone, Copy, Debug)]
pub struct Cursor {
    /// The playhead, in timeline seconds.
    pub time: Number,
    /// Which way the next frame lies.
    pub direction: Direction,
    /// Timeline seconds a wall second: zero for a scrub or a pause.
    pub rate: Number,
}

impl Cursor {
    /// Whether an instant is behind the cursor: already passed in its
    /// direction, by more than a frame's slack.
    pub open spec fn is_past(self, time: Number, slack: Number) -> bool {
        match self.direction {
            Direction::Forward => time.less(difference(self.time, slack)),
            Direction::Backward => sum(self.time, slack).less(time),
        }
    }

    pub fn passed(&self, time: Number, slack: Number) -> (r: bool)
        ensures
            r == self.is_past(time, slack),
    {
        match self.direction {
            Direction::Forward => time.below(self.time.minus(slack)),
            Direction::Backward => self.time.plus(slack).below(time),
        }
    }
}

// The queue.

/// The queue the workers take from: one lane per priority, and what is running.
pub struct Queue {
    playback: VecDeque<u64>,
    filmstrip: VecDeque<u64>,
    artwork: VecDeque<u64>,
    proxy: VecDeque<u64>,
    background_running: usize,
    proxy_running: usize,
    running: usize,
    closed: bool,
    workers: usize,
}

/// What a queue says.
#[verifier::ext_equal]
pub struct QueueView {
    pub playback: Seq<u64>,
    pub filmstrip: Seq<u64>,
    pub artwork: Seq<u64>,
    pub proxy: Seq<u64>,
    /// Background jobs running now.
    pub background_running: nat,
    /// Proxy jobs running now.
    pub proxy_running: nat,
    /// Jobs of any priority running now.
    pub running: nat,
    pub closed: bool,
    /// How many workers there are.
    pub workers: nat,
}

/// What a worker does next.
#[derive(Clone, Copy, Debug, PartialEq, Eq, Structural)]
pub enum Turn {
    /// Leave: the queue is closed.
    Leave,
    /// Run this job.
    Run(Priority, u64),
    /// Wait until something changes.
    Wait,
}

impl QueueView {
    pub open spec fn lane(self, priority: Priority) -> Seq<u64> {
        match priority {
            Priority::Playback => self.playback,
            Priority::Filmstrip => self.filmstrip,
            Priority::Artwork => self.artwork,
            Priority::Proxy => self.proxy,
        }
    }

    pub open spec fn with_lane(self, priority: Priority, jobs: Seq<u64>) -> QueueView {
        match priority {
            Priority::Playback => QueueView { playback: jobs, ..self },
            Priority::Filmstrip => QueueView { filmstrip: jobs, ..self },
            Priority::Artwork => QueueView { artwork: jobs, ..self },
            Priority::Proxy => QueueView { proxy: jobs, ..self },
        }
    }

    /// A queue with nothing in it.
    pub open spec fn empty(workers: nat) -> QueueView {
        QueueView {
            playback: Seq::empty(),
            filmstrip: Seq::empty(),
            artwork: Seq::empty(),
            proxy: Seq::empty(),
            background_running: 0,
            proxy_running: 0,
            running: 0,
            closed: false,
            workers,
        }
    }

    /// The workers background work may not take: one, where there is another.
    pub open spec fn reserve(self) -> nat {
        if self.workers > 1 {
            1
        } else {
            0
        }
    }

    /// Whether a job of this priority may start now: background work never
    /// takes the last free worker, and a proxy runs alone among proxies.
    pub open spec fn allowed(self, priority: Priority) -> bool {
        &&& priority.is_background() ==> self.background_running + self.reserve() < self.workers
        &&& priority is Proxy ==> self.proxy_running == 0
    }

    pub open spec fn ready(self, priority: Priority) -> bool {
        self.allowed(priority) && self.lane(priority).len() > 0
    }

    /// The most urgent priority with a job that may start now.
    pub open spec fn chosen(self) -> Option<Priority> {
        if self.ready(Priority::Playback) {
            Some(Priority::Playback)
        } else if self.ready(Priority::Filmstrip) {
            Some(Priority::Filmstrip)
        } else if self.ready(Priority::Artwork) {
            Some(Priority::Artwork)
        } else if self.ready(Priority::Proxy) {
            Some(Priority::Proxy)
        } else {
            None
        }
    }

    /// The queue once a job of this priority has started.
    pub open spec fn counted(self, priority: Priority) -> QueueView {
        QueueView {
            running: self.running + 1,
            background_running: self.background_running + if priority.is_background() {
                1nat
            } else {
                0nat
            },
            proxy_running: self.proxy_running + if priority is Proxy {
                1nat
            } else {
                0nat
            },
            ..self
        }
    }

    /// The queue once a job of this priority has finished.
    pub open spec fn uncounted(self, priority: Priority) -> QueueView {
        QueueView {
            running: (self.running - 1) as nat,
            background_running: (self.background_running - if priority.is_background() {
                1int
            } else {
                0int
            }) as nat,
            proxy_running: (self.proxy_running - if priority is Proxy {
                1int
            } else {
                0int
            }) as nat,
            ..self
        }
    }

    /// What a worker that asks does, and what that leaves.
    pub open spec fn turn(self) -> (QueueView, Turn) {
        if self.closed {
            (self, Turn::Leave)
        } else {
            match self.chosen() {
                Some(priority) => (
                    self.with_lane(priority, self.lane(priority).skip(1)).counted(priority),
                    Turn::Run(priority, self.lane(priority)[0]),
                ),
                None => (self, Turn::Wait),
            }
        }
    }

    /// Whether a job of this priority is running.
    pub open spec fn has_running(self, priority: Priority) -> bool {
        &&& self.running > 0
        &&& priority.is_background() ==> self.background_running > 0
        &&& priority is Proxy ==> self.proxy_running > 0
    }

    /// What every queue keeps: the counters agree, a worker is left free of
    /// background work where there is more than one, and at most one proxy
    /// runs.
    pub open spec fn sound(self) -> bool {
        &&& self.workers > 0
        &&& self.proxy_running <= self.background_running <= self.running
        &&& self.proxy_running <= 1
        &&& self.background_running + self.reserve() <= self.workers
    }

    /// Whether nothing is queued or running.
    pub open spec fn idle(self) -> bool {
        self.running == 0 && self.playback.len() == 0 && self.filmstrip.len() == 0
            && self.artwork.len() == 0 && self.proxy.len() == 0
    }
}

impl Queue {
    pub closed spec fn view(&self) -> QueueView {
        QueueView {
            playback: self.playback@,
            filmstrip: self.filmstrip@,
            artwork: self.artwork@,
            proxy: self.proxy@,
            background_running: self.background_running as nat,
            proxy_running: self.proxy_running as nat,
            running: self.running as nat,
            closed: self.closed,
            workers: self.workers as nat,
        }
    }

    /// A queue for `workers` workers, one at least.
    pub fn new(workers: usize) -> (r: Queue)
        ensures
            r@ == QueueView::empty(if workers == 0 { 1 } else { workers as nat }),
            r@.sound(),
    {
        let workers: usize = if workers == 0 {
            1
        } else {
            workers
        };
        let r: Queue = Queue {
            playback: VecDeque::new(),
            filmstrip: VecDeque::new(),
            artwork: VecDeque::new(),
            proxy: VecDeque::new(),
            background_running: 0,
            proxy_running: 0,
            running: 0,
            closed: false,
            workers,
        };
        assert(r@ =~= QueueView::empty(workers as nat));
        r
    }

    fn waiting(&self, priority: Priority) -> (r: usize)
        ensures
            r == self@.lane(priority).len(),
    {
        match priority {
            Priority::Playback => self.playback.len(),
            Priority::Filmstrip => self.filmstrip.len(),
            Priority::Artwork => self.artwork.len(),
            Priority::Proxy => self.proxy.len(),
        }
    }

    fn may_start(&self, priority: Priority) -> (r: bool)
        requires
            self@.sound(),
        ensures
            r == self@.ready(priority),
    {
        let reserve: usize = if self.workers > 1 {
            1
        } else {
            0
        };
        if priority.background() && self.background_running >= self.workers - reserve {
            return false;
        }
        if matches!(priority, Priority::Proxy) && self.proxy_running > 0 {
            return false;
        }
        self.waiting(priority) > 0
    }

    fn front(&mut self, priority: Priority) -> (job: u64)
        requires
            old(self)@.lane(priority).len() > 0,
        ensures
            job == old(self)@.lane(priority)[0],
            final(self)@ == old(self)@.with_lane(priority, old(self)@.lane(priority).skip(1)),
    {
        let ghost before = self@;
        let taken: Option<u64> = match priority {
            Priority::Playback => self.playback.pop_front(),
            Priority::Filmstrip => self.filmstrip.pop_front(),
            Priority::Artwork => self.artwork.pop_front(),
            Priority::Proxy => self.proxy.pop_front(),
        };
        assert(self@.lane(priority) =~= before.lane(priority).skip(1));
        match taken {
            Some(job) => job,
            None => 0,
        }
    }

    /// The most urgent job a worker may take now, honouring the reserve.
    pub fn take(&mut self) -> (r: Option<(Priority, u64)>)
        requires
            old(self)@.sound(),
        ensures
            match old(self)@.chosen() {
                Some(priority) => {
                    &&& r == Some((priority, old(self)@.lane(priority)[0]))
                    &&& final(self)@ == old(self)@.with_lane(
                        priority,
                        old(self)@.lane(priority).skip(1),
                    )
                },
                None => r is None && final(self)@ == old(self)@,
            },
    {
        if self.may_start(Priority::Playback) {
            Some((Priority::Playback, self.front(Priority::Playback)))
        } else if self.may_start(Priority::Filmstrip) {
            Some((Priority::Filmstrip, self.front(Priority::Filmstrip)))
        } else if self.may_start(Priority::Artwork) {
            Some((Priority::Artwork, self.front(Priority::Artwork)))
        } else if self.may_start(Priority::Proxy) {
            Some((Priority::Proxy, self.front(Priority::Proxy)))
        } else {
            None
        }
    }

    /// A worker asks what to do: leave a closed queue, run the most urgent job
    /// it may, or wait.
    pub fn work(&mut self) -> (r: Turn)
        requires
            old(self)@.sound(),
            old(self)@.running < usize::MAX,
        ensures
            (final(self)@, r) == old(self)@.turn(),
            final(self)@.sound(),
    {
        if self.closed {
            return Turn::Leave;
        }
        match self.take() {
            Some((priority, job)) => {
                self.running = self.running + 1;
                if priority.background() {
                    self.background_running = self.background_running + 1;
                }
                if matches!(priority, Priority::Proxy) {
                    self.proxy_running = self.proxy_running + 1;
                }
                Turn::Run(priority, job)
            },
            None => Turn::Wait,
        }
    }

    /// A job has finished, whatever it did.
    pub fn finish(&mut self, priority: Priority)
        requires
            old(self)@.sound(),
            old(self)@.has_running(priority),
            priority.is_background() || old(self)@.running > old(self)@.background_running,
            priority is Artwork ==> old(self)@.background_running > old(self)@.proxy_running,
        ensures
            final(self)@ == old(self)@.uncounted(priority),
            final(self)@.sound(),
    {
        self.running = self.running - 1;
        if priority.background() {
            self.background_running = self.background_running - 1;
        }
        if matches!(priority, Priority::Proxy) {
            self.proxy_running = self.proxy_running - 1;
        }
    }

    /// Queues a job; a closed queue takes none.
    pub fn submit(&mut self, priority: Priority, job: u64)
        ensures
            final(self)@ == (if old(self)@.closed {
                old(self)@
            } else {
                old(self)@.with_lane(priority, old(self)@.lane(priority).push(job))
            }),
            old(self)@.sound() ==> final(self)@.sound(),
    {
        if self.closed {
            return;
        }
        match priority {
            Priority::Playback => self.playback.push_back(job),
            Priority::Filmstrip => self.filmstrip.push_back(job),
            Priority::Artwork => self.artwork.push_back(job),
            Priority::Proxy => self.proxy.push_back(job),
        }
    }

    /// Queues the instants ahead of a moved cursor, nearest first, in place of
    /// those queued for the last one.
    pub fn supersede(&mut self, jobs: &Vec<u64>)
        ensures
            final(self)@ == (if old(self)@.closed {
                old(self)@
            } else {
                old(self)@.with_lane(Priority::Playback, jobs@)
            }),
            old(self)@.sound() ==> final(self)@.sound(),
    {
        if self.closed {
            return;
        }
        let ghost before = self@;
        self.playback.clear();
        let mut i: usize = 0;
        assert(self.playback@ =~= jobs@.take(0));
        while i < jobs.len()
            invariant
                i <= jobs.len(),
                self.playback@ == jobs@.take(i as int),
                self@ == before.with_lane(Priority::Playback, self.playback@),
            decreases jobs.len() - i,
        {
            self.playback.push_back(jobs[i]);
            assert(self.playback@ =~= jobs@.take(i + 1));
            i = i + 1;
        }
        assert(jobs@.take(jobs.len() as int) =~= jobs@);
    }

    /// Closes the queue: what is waiting never runs, and workers leave.
    pub fn close(&mut self)
        ensures
            final(self)@ == (QueueView {
                playback: Seq::empty(),
                filmstrip: Seq::empty(),
                artwork: Seq::empty(),
                proxy: Seq::empty(),
                closed: true,
                ..old(self)@
            }),
    {
        self.closed = true;
        self.playback.clear();
        self.filmstrip.clear();
        self.artwork.clear();
        self.proxy.clear();
    }

    /// Jobs waiting at a priority, not counting any running.
    pub fn pending(&self, priority: Priority) -> (r: usize)
        ensures
            r == self@.lane(priority).len(),
    {
        self.waiting(priority)
    }

    /// Whether every queued job has run.
    pub fn drained(&self) -> (r: bool)
        ensures
            r == self@.idle(),
    {
        self.running == 0 && self.playback.len() == 0 && self.filmstrip.len() == 0
            && self.artwork.len() == 0 && self.proxy.len() == 0
    }

    /// How many jobs are running: of any priority, of the background ones, and
    /// proxies.
    pub fn counters(&self) -> (r: (usize, usize, usize))
        ensures
            r.0 == self@.running,
            r.1 == self@.background_running,
            r.2 == self@.proxy_running,
    {
        (self.running, self.background_running, self.proxy_running)
    }
}

/// Playback never waits behind anything queued: an open queue with a playback
/// job hands it out first.
pub proof fn lemma_playback_goes_first(queue: QueueView)
    requires
        !queue.closed,
        queue.playback.len() > 0,
    ensures
        queue.turn().1 == Turn::Run(Priority::Playback, queue.playback[0]),
{
}

/// Background work never takes the last free worker where there is more than
/// one, and never two proxies at once.
pub proof fn lemma_background_leaves_one_worker(queue: QueueView)
    requires
        queue.sound(),
    ensures
        queue.turn().0.sound(),
        queue.workers > 1 ==> queue.turn().0.background_running < queue.workers,
        queue.turn().0.proxy_running <= 1,
{
}

/// A job that starts and finishes leaves the counters as they were, so nothing
/// a job does can spend the reserve for good.
pub proof fn lemma_counters_come_back_down(queue: QueueView, priority: Priority)
    ensures
        queue.counted(priority).uncounted(priority) == queue,
{
}

/// A waiting job that may start is never passed over for a less urgent one.
pub proof fn lemma_most_urgent_first(queue: QueueView, waiting: Priority)
    requires
        !queue.closed,
        queue.ready(waiting),
    ensures
        match queue.turn().1 {
            Turn::Run(priority, _) => place(priority) <= place(waiting),
            _ => false,
        },
{
}

/// A priority's place among the others, most urgent first.
pub open spec fn place(priority: Priority) -> int {
    match priority {
        Priority::Playback => 0,
        Priority::Filmstrip => 1,
        Priority::Artwork => 2,
        Priority::Proxy => 3,
    }
}

// What lies ahead.

/// What the playback jobs share: the cursor as last reported, and the frames
/// decoded ahead of it, held until passed.
pub struct Ahead {
    cursor: Option<Cursor>,
    generation: u64,
    pinned: Vec<(Number, u64)>,
    slack: Number,
}

/// What is known of what lies ahead.
#[verifier::ext_equal]
pub struct AheadView {
    pub cursor: Option<Cursor>,
    /// Counts the cursors: a job made for an older one is stale.
    pub generation: nat,
    /// The instants held, each with what it is made of.
    pub pinned: Seq<(Number, u64)>,
    /// A frame's worth of slack, in seconds.
    pub slack: Number,
}

/// A thirtieth of a second: the slack before the first cursor.
pub const FIRST_SLACK: u64 = 0x3fa1_1111_1111_1111;

impl AheadView {
    /// What is left once the cursor has moved: what it has passed is let go.
    pub open spec fn moved(self, cursor: Cursor, frame_seconds: Number) -> AheadView {
        AheadView {
            cursor: Some(cursor),
            generation: (self.generation + 1) % 0x1_0000_0000_0000_0000,
            pinned: self.pinned.filter(|p: (Number, u64)| !cursor.is_past(p.0, frame_seconds)),
            slack: larger(frame_seconds, num(ZERO)),
        }
    }

    /// Whether an instant queued for a cursor is still worth decoding.
    pub open spec fn wants(self, generation: nat, time: Number) -> bool {
        generation == self.generation && match self.cursor {
            Some(cursor) => !cursor.is_past(time, self.slack),
            None => true,
        }
    }
}

impl Ahead {
    pub closed spec fn view(&self) -> AheadView {
        AheadView {
            cursor: self.cursor,
            generation: self.generation as nat,
            pinned: self.pinned@,
            slack: self.slack,
        }
    }

    /// Nothing held and no cursor yet.
    pub fn new() -> (r: Ahead)
        ensures
            r@ == (AheadView {
                cursor: None,
                generation: 0,
                pinned: Seq::empty(),
                slack: num(FIRST_SLACK),
            }),
    {
        let r: Ahead = Ahead {
            cursor: None,
            generation: 0,
            pinned: Vec::new(),
            slack: num(FIRST_SLACK),
        };
        assert(r@.pinned =~= Seq::<(Number, u64)>::empty());
        r
    }

    /// The cursor as last reported.
    pub fn cursor(&self) -> (r: Option<Cursor>)
        ensures
            r == self@.cursor,
    {
        self.cursor
    }

    /// Moves the cursor and lets go of what it has passed. Returns the number
    /// of this cursor, which the jobs queued for it carry.
    pub fn advance(&mut self, cursor: Cursor, frame_seconds: Number) -> (generation: u64)
        ensures
            final(self)@ == old(self)@.moved(cursor, frame_seconds),
            generation == final(self)@.generation,
    {
        let ghost before = self@;
        let ghost keep = |p: (Number, u64)| !cursor.is_past(p.0, frame_seconds);
        self.generation = if self.generation == u64::MAX {
            0
        } else {
            self.generation + 1
        };
        self.cursor = Some(cursor);
        self.slack = frame_seconds.max(num(ZERO));
        let mut kept: Vec<(Number, u64)> = Vec::new();
        let mut i: usize = 0;
        proof {
            reveal(Seq::filter);
        }
        assert(before.pinned.take(0).filter(keep) =~= Seq::<(Number, u64)>::empty());
        while i < self.pinned.len()
            invariant
                i <= self.pinned.len(),
                self.pinned@ == before.pinned,
                keep == (|p: (Number, u64)| !cursor.is_past(p.0, frame_seconds)),
                kept@ == before.pinned.take(i as int).filter(keep),
            decreases self.pinned.len() - i,
        {
            let held: (Number, u64) = self.pinned[i];
            proof {
                lemma_filter_step(before.pinned, keep, i as int);
            }
            if !cursor.passed(held.0, frame_seconds) {
                kept.push(held);
            }
            i = i + 1;
        }
        assert(before.pinned.take(before.pinned.len() as int) =~= before.pinned);
        self.pinned = kept;
        self.generation
    }

    /// Whether an instant queued for a cursor is still worth decoding: the
    /// cursor has not moved on, and has not passed it.
    pub fn worth_decoding(&self, generation: u64, time: Number) -> (r: bool)
        ensures
            r == self@.wants(generation as nat, time),
    {
        if generation != self.generation {
            return false;
        }
        match self.cursor {
            Some(cursor) => !cursor.passed(time, self.slack),
            None => true,
        }
    }

    /// Holds what an instant is made of, unless the cursor moved meanwhile.
    pub fn hold(&mut self, generation: u64, time: Number, frames: u64)
        ensures
            final(self)@ == (if generation == old(self)@.generation {
                AheadView { pinned: old(self)@.pinned.push((time, frames)), ..old(self)@ }
            } else {
                old(self)@
            }),
    {
        if generation == self.generation {
            self.pinned.push((time, frames));
        }
    }

    /// Frames decoded ahead of the cursor and not yet passed.
    pub fn held_ahead(&self) -> (r: usize)
        ensures
            r == self@.pinned.len(),
    {
        self.pinned.len()
    }

    /// The instants held ahead, in timeline seconds.
    pub fn held_instants(&self) -> (r: Vec<Number>)
        ensures
            r@ == self@.pinned.map_values(|p: (Number, u64)| p.0),
    {
        let mut r: Vec<Number> = Vec::new();
        let mut i: usize = 0;
        while i < self.pinned.len()
            invariant
                i <= self.pinned.len(),
                r@ == self.pinned@.take(i as int).map_values(|p: (Number, u64)| p.0),
            decreases self.pinned.len() - i,
        {
            r.push(self.pinned[i].0);
            assert(r@ =~= self.pinned@.take(i + 1).map_values(|p: (Number, u64)| p.0));
            i = i + 1;
        }
        assert(self.pinned@.take(self.pinned.len() as int) =~= self.pinned@);
        r
    }

    /// What is held ahead, by the numbers it was held under.
    pub fn held_frames(&self) -> (r: Vec<u64>)
        ensures
            r@ == self@.pinned.map_values(|p: (Number, u64)| p.1),
    {
        let mut r: Vec<u64> = Vec::new();
        let mut i: usize = 0;
        while i < self.pinned.len()
            invariant
                i <= self.pinned.len(),
                r@ == self.pinned@.take(i as int).map_values(|p: (Number, u64)| p.1),
            decreases self.pinned.len() - i,
        {
            r.push(self.pinned[i].1);
            assert(r@ =~= self.pinned@.take(i + 1).map_values(|p: (Number, u64)| p.1));
            i = i + 1;
        }
        assert(self.pinned@.take(self.pinned.len() as int) =~= self.pinned@);
        r
    }
}

/// Once the cursor has moved, nothing it has passed is held, and nothing ahead
/// of it is let go.
pub proof fn lemma_passed_is_released(ahead: AheadView, cursor: Cursor, frame_seconds: Number)
    ensures
        forall|i: int|
            0 <= i < ahead.moved(cursor, frame_seconds).pinned.len() ==> !cursor.is_past(
                (#[trigger] ahead.moved(cursor, frame_seconds).pinned[i]).0,
                frame_seconds,
            ),
        forall|i: int|
            0 <= i < ahead.pinned.len() && !cursor.is_past(
                (#[trigger] ahead.pinned[i]).0,
                frame_seconds,
            ) ==> ahead.moved(cursor, frame_seconds).pinned.contains(ahead.pinned[i]),
{
    let keep = |p: (Number, u64)| !cursor.is_past(p.0, frame_seconds);
    let left = ahead.pinned.filter(keep);
    assert forall|i: int| 0 <= i < left.len() implies keep(#[trigger] left[i]) by {
        ahead.pinned.lemma_filter_pred(keep, i);
    }
    assert forall|i: int| 0 <= i < ahead.pinned.len() && keep(
        #[trigger] ahead.pinned[i],
    ) implies left.contains(ahead.pinned[i]) by {
        ahead.pinned.lemma_filter_contains(keep, i);
    }
}

/// A moved cursor supersedes what was queued for the last one: none of it is
/// worth decoding, nor held.
pub proof fn lemma_moved_cursor_supersedes(
    ahead: AheadView,
    cursor: Cursor,
    frame_seconds: Number,
    time: Number,
)
    requires
        ahead.generation < 0x1_0000_0000_0000_0000,
    ensures
        !ahead.moved(cursor, frame_seconds).wants(ahead.generation, time),
{
}

/// How many decoders run at once: a quarter of the machine's threads, two at
/// least and four at most; two where nobody knows.
pub open spec fn worker_count(threads: Option<usize>) -> int {
    match threads {
        Some(n) => if n / 4 < 2 {
            2
        } else if n / 4 > 4 {
            4
        } else {
            (n / 4) as int
        },
        None => 2,
    }
}

pub fn default_workers(threads: Option<usize>) -> (r: usize)
    ensures
        r == worker_count(threads),
{
    match threads {
        Some(n) => {
            let share: usize = n / 4;
            if share < 2 {
                2
            } else if share > 4 {
                4
            } else {
                share
            }
        },
        None => 2,
    }
}

} // verus!
