//! Waveform peaks: the lowest and highest sample of each bucket of a sound, at
//! a fixed rate.
//!
//! A waveform is drawn from a few hundred buckets a second, not from the
//! samples. They are folded into buckets as they arrive and never accumulate.

use crate::digits::{as_ceiling, as_whole};
use crate::number::{num, quotient, whole, Number};
use crate::single::{
    difference32, larger32, narrowed, product32, quotient32, single, smaller32, whole32, Single,
};
use vstd::arithmetic::div_mod::*;
use vstd::prelude::*;

verus! {

/// The rate sound is resampled to before bucketing, which makes the bucket size
/// exact.
pub const PEAK_RATE: u32 = 48_000;

/// The most buckets the coarsest level of a pyramid has.
pub const COARSEST: usize = 64;

/// One, in single precision.
pub const ONE32: u32 = 0x3f80_0000;

/// A thousandth of a bucket: the noise forgiven at a boundary.
pub const HAIR: u32 = 0x3a83_126f;

/// 32768, which takes a sample to its place between minus one and one.
pub const SAMPLE_SCALE: u64 = 0x40e0_0000_0000_0000;

/// A sound's waveform, reduced to per-bucket extremes. Buckets are seeded at
/// zero: silence reads as a flat pair of zeros, and a bucket's lowest never
/// sits above the axis.
#[derive(Debug)]
pub struct Peaks {
    /// The lowest sample in each bucket.
    pub min: Vec<Single>,
    /// The highest sample in each bucket.
    pub max: Vec<Single>,
    /// How many buckets cover one second.
    pub buckets_per_second: Single,
}

/// What a waveform says.
#[verifier::ext_equal]
pub struct PeaksView {
    pub min: Seq<Single>,
    pub max: Seq<Single>,
    pub rate: Single,
}

/// The lowest of a run of singles, and of zero.
pub open spec fn lowest(s: Seq<Single>) -> Single
    decreases s.len(),
{
    if s.len() == 0 {
        single(0)
    } else {
        smaller32(lowest(s.drop_last()), s.last())
    }
}

/// The highest of a run of singles, and of zero.
pub open spec fn highest(s: Seq<Single>) -> Single
    decreases s.len(),
{
    if s.len() == 0 {
        single(0)
    } else {
        larger32(highest(s.drop_last()), s.last())
    }
}

// The cache format.

/// A word as four bytes, lowest first.
pub open spec fn word(n: nat) -> Seq<u8> {
    seq![
        (n % 256) as u8,
        (n / 256 % 256) as u8,
        (n / 65536 % 256) as u8,
        (n / 16777216 % 256) as u8,
    ]
}

/// What four bytes are worth.
pub open spec fn worth(b: Seq<u8>) -> nat {
    b[0] as nat + 256 * b[1] as nat + 65536 * b[2] as nat + 16777216 * b[3] as nat
}

/// Singles as bytes, one after another.
pub open spec fn laid_out(s: Seq<Single>) -> Seq<u8>
    decreases s.len(),
{
    if s.len() == 0 {
        Seq::empty()
    } else {
        laid_out(s.drop_last()) + word(s.last().bits as nat)
    }
}

/// The singles in `count` words from `offset` on.
pub open spec fn read_back(bytes: Seq<u8>, offset: int, count: nat) -> Seq<Single> {
    Seq::new(
        count,
        |i: int|
            single(worth(bytes.subrange(offset + 4 * i, offset + 4 * i + 4)) as u32),
    )
}

pub open spec fn ceil_div(n: nat, d: nat) -> nat {
    ((n + d - 1) / d as int) as nat
}

impl PeaksView {
    /// How many buckets there are.
    pub open spec fn count(self) -> nat {
        if self.min.len() < self.max.len() {
            self.min.len()
        } else {
            self.max.len()
        }
    }

    /// The cache format: the rate, the count, the lows and the highs, each a
    /// word of four bytes.
    pub open spec fn encoded(self) -> Seq<u8> {
        word(self.rate.bits as nat) + word(self.count() % 0x1_0000_0000) + laid_out(
            self.min.take(self.count() as int),
        ) + laid_out(self.max.take(self.count() as int))
    }

    /// The waveform some bytes hold, where they have that shape.
    pub open spec fn decoded(bytes: Seq<u8>) -> Option<PeaksView> {
        if bytes.len() < 8 {
            None
        } else {
            let count = worth(bytes.subrange(4, 8));
            if bytes.len() != 8 + count * 8 {
                None
            } else {
                Some(
                    PeaksView {
                        min: read_back(bytes, 8, count),
                        max: read_back(bytes, (8 + count * 4) as int, count),
                        rate: single(worth(bytes.subrange(0, 4)) as u32),
                    },
                )
            }
        }
    }

    /// Where a coarse bucket's run of fine ones ends.
    pub open spec fn group_end(self, factor: nat, group: int) -> int {
        if self.count() - group * factor <= factor {
            self.count() as int
        } else {
            group * factor + factor
        }
    }

    /// The same waveform at `factor` buckets to one.
    pub open spec fn coarse(self, factor: nat) -> PeaksView {
        let by = if factor == 0 {
            1
        } else {
            factor
        };
        PeaksView {
            min: Seq::new(
                ceil_div(self.count(), by),
                |g: int| lowest(self.min.subrange(g * by, self.group_end(by, g))),
            ),
            max: Seq::new(
                ceil_div(self.count(), by),
                |g: int| highest(self.max.subrange(g * by, self.group_end(by, g))),
            ),
            rate: quotient32(self.rate, whole32(by)),
        }
    }

    /// The buckets that cover a span of seconds: those that begin inside it, so
    /// a bucket that straddles two spans is read by one of them, or the bucket
    /// a narrow span sits in. None past the end, and for an empty span.
    pub open spec fn span(self, from: Single, to: Single) -> Option<(int, int)> {
        let count = self.count() as int;
        if count == 0 || to.at_most(from) || self.rate.at_most(single(0)) {
            None
        } else {
            let start = product32(from, self.rate);
            let end = product32(to, self.rate);
            let first = held(as_ceiling(difference32(start, single(HAIR)).widened()), count);
            let last = held(as_ceiling(difference32(end, single(HAIR)).widened()), count);
            if first < last {
                Some((first, last))
            } else if whole32(count as nat).at_most(start) {
                None
            } else {
                let inside = held(as_whole(start.widened()), count - 1);
                Some((inside, inside + 1))
            }
        }
    }

    /// The extremes over a span of seconds.
    pub open spec fn over(self, from: Single, to: Single) -> (Single, Single) {
        match self.span(from, to) {
            Some((first, last)) => (
                lowest(self.min.subrange(first, last)),
                highest(self.max.subrange(first, last)),
            ),
            None => (single(0), single(0)),
        }
    }
}

/// An index held to what there is.
pub open spec fn held(n: int, most: int) -> int {
    if n < 0 {
        0
    } else if n > most {
        most
    } else {
        n
    }
}

fn hold(n: i64, most: usize) -> (r: usize)
    ensures
        r == held(n as int, most as int),
{
    if n < 0 {
        0
    } else if (n as u64) > (most as u64) {
        most
    } else {
        n as usize
    }
}

fn push_word(bytes: &mut Vec<u8>, n: u32)
    ensures
        final(bytes)@ == old(bytes)@ + word(n as nat),
{
    let ghost before = bytes@;
    bytes.push((n % 256) as u8);
    bytes.push((n / 256 % 256) as u8);
    bytes.push((n / 65536 % 256) as u8);
    bytes.push((n / 16777216 % 256) as u8);
    assert(bytes@ =~= before + word(n as nat));
}

fn read_word(bytes: &Vec<u8>, offset: usize) -> (n: u32)
    requires
        offset + 4 <= bytes.len(),
    ensures
        n == worth(bytes@.subrange(offset as int, offset + 4)),
{
    (bytes[offset] as u32) + 256 * (bytes[offset + 1] as u32) + 65536 * (bytes[offset + 2] as u32)
        + 16777216 * (bytes[offset + 3] as u32)
}

fn push_singles(bytes: &mut Vec<u8>, singles: &Vec<Single>, count: usize)
    requires
        count <= singles.len(),
    ensures
        final(bytes)@ == old(bytes)@ + laid_out(singles@.take(count as int)),
{
    let ghost before = bytes@;
    let mut i: usize = 0;
    assert(singles@.take(0) =~= Seq::<Single>::empty());
    assert(bytes@ =~= before + laid_out(singles@.take(0)));
    while i < count
        invariant
            i <= count <= singles.len(),
            bytes@ == before + laid_out(singles@.take(i as int)),
        decreases count - i,
    {
        let ghost run = laid_out(singles@.take(i as int));
        push_word(bytes, singles[i].bits);
        proof {
            assert(singles@.take(i + 1).drop_last() =~= singles@.take(i as int));
            assert(bytes@ =~= before + (run + word(singles@[i as int].bits as nat)));
        }
        i = i + 1;
    }
}

fn read_singles(bytes: &Vec<u8>, offset: usize, count: usize) -> (r: Vec<Single>)
    requires
        offset + 4 * count <= bytes.len(),
    ensures
        r@ == read_back(bytes@, offset as int, count as nat),
{
    let mut r: Vec<Single> = Vec::new();
    let mut i: usize = 0;
    while i < count
        invariant
            i <= count,
            offset + 4 * count <= bytes.len(),
            r@ == read_back(bytes@, offset as int, i as nat),
        decreases count - i,
    {
        r.push(single(read_word(bytes, offset + 4 * i)));
        assert(r@ =~= read_back(bytes@, offset as int, (i + 1) as nat));
        i = i + 1;
    }
    r
}

fn lowest_of(s: &Vec<Single>, from: usize, to: usize) -> (r: Single)
    requires
        from <= to <= s.len(),
    ensures
        r == lowest(s@.subrange(from as int, to as int)),
{
    let mut r: Single = single(0);
    let mut i: usize = from;
    assert(s@.subrange(from as int, from as int) =~= Seq::<Single>::empty());
    while i < to
        invariant
            from <= i <= to <= s.len(),
            r == lowest(s@.subrange(from as int, i as int)),
        decreases to - i,
    {
        proof {
            let run = s@.subrange(from as int, i + 1);
            assert(run.drop_last() =~= s@.subrange(from as int, i as int));
        }
        r = r.min(s[i]);
        i = i + 1;
    }
    r
}

fn highest_of(s: &Vec<Single>, from: usize, to: usize) -> (r: Single)
    requires
        from <= to <= s.len(),
    ensures
        r == highest(s@.subrange(from as int, to as int)),
{
    let mut r: Single = single(0);
    let mut i: usize = from;
    assert(s@.subrange(from as int, from as int) =~= Seq::<Single>::empty());
    while i < to
        invariant
            from <= i <= to <= s.len(),
            r == highest(s@.subrange(from as int, i as int)),
        decreases to - i,
    {
        proof {
            let run = s@.subrange(from as int, i + 1);
            assert(run.drop_last() =~= s@.subrange(from as int, i as int));
        }
        r = r.max(s[i]);
        i = i + 1;
    }
    r
}

impl Peaks {
    pub open spec fn view(&self) -> PeaksView {
        PeaksView { min: self.min@, max: self.max@, rate: self.buckets_per_second }
    }

    /// The cache format's bytes.
    pub fn encode(&self) -> (bytes: Vec<u8>)
        ensures
            bytes@ == self@.encoded(),
    {
        let count: usize = self.len();
        let mut bytes: Vec<u8> = Vec::new();
        push_word(&mut bytes, self.buckets_per_second.bits);
        let low: u64 = (count as u64) % 0x1_0000_0000;
        push_word(&mut bytes, low as u32);
        push_singles(&mut bytes, &self.min, count);
        push_singles(&mut bytes, &self.max, count);
        assert(bytes@ =~= self@.encoded());
        bytes
    }

    /// The waveform some bytes hold: none for bytes that do not have that
    /// shape, so a corrupt cache entry regenerates instead of drawing.
    pub fn decode(bytes: &Vec<u8>) -> (r: Option<Peaks>)
        ensures
            match r {
                Some(peaks) => PeaksView::decoded(bytes@) == Some(peaks@),
                None => PeaksView::decoded(bytes@) is None,
            },
    {
        if bytes.len() < 8 {
            return None;
        }
        let rate: Single = single(read_word(bytes, 0));
        let count: u32 = read_word(bytes, 4);
        if bytes.len() as u64 != 8 + (count as u64) * 8 {
            return None;
        }
        let n: usize = count as usize;
        let min: Vec<Single> = read_singles(bytes, 8, n);
        let max: Vec<Single> = read_singles(bytes, 8 + n * 4, n);
        Some(Peaks { min, max, buckets_per_second: rate })
    }

    /// How many buckets there are.
    pub fn len(&self) -> (r: usize)
        ensures
            r == self@.count(),
    {
        if self.min.len() < self.max.len() {
            self.min.len()
        } else {
            self.max.len()
        }
    }

    /// Whether there are none.
    pub fn is_empty(&self) -> (r: bool)
        ensures
            r == (self@.count() == 0),
    {
        self.len() == 0
    }

    /// The same waveform at `factor` buckets to one: each new bucket takes the
    /// extremes of those it folds. A trailing partial group still counts.
    pub fn coarser(&self, factor: usize) -> (r: Peaks)
        ensures
            r@ == self@.coarse(factor as nat),
    {
        let by: usize = if factor == 0 {
            1
        } else {
            factor
        };
        let count: usize = self.len();
        let mut min: Vec<Single> = Vec::new();
        let mut max: Vec<Single> = Vec::new();
        let mut from: usize = 0;
        let ghost groups = ceil_div(count as nat, by as nat);
        proof {
            lemma_groups(count as nat, by as nat, 0);
        }
        while from < count
            invariant
                by == (if factor == 0 {
                    1
                } else {
                    factor
                }),
                count == self@.count(),
                count <= self.min.len(),
                count <= self.max.len(),
                groups == ceil_div(count as nat, by as nat),
                min.len() == max.len(),
                min.len() <= groups,
                from < count ==> from == min.len() * by,
                from >= count ==> min.len() == groups,
                min@ == self@.coarse(factor as nat).min.take(min.len() as int),
                max@ == self@.coarse(factor as nat).max.take(min.len() as int),
            decreases count - from,
        {
            let to: usize = if count - from <= by {
                count
            } else {
                from + by
            };
            let ghost g = min.len() as int;
            proof {
                lemma_groups(count as nat, by as nat, g as nat);
                assert(g * by == from);
                assert(to == self@.group_end(by as nat, g));
            }
            min.push(lowest_of(&self.min, from, to));
            max.push(highest_of(&self.max, from, to));
            proof {
                let whole = self@.coarse(factor as nat);
                assert(whole.min[g] == min@[g]);
                assert(whole.max[g] == max@[g]);
                assert(whole.min.take(g + 1) =~= whole.min.take(g).push(min@[g]));
                assert(whole.max.take(g + 1) =~= whole.max.take(g).push(max@[g]));
                lemma_groups(count as nat, by as nat, (g + 1) as nat);
                assert((g + 1) * by == g * by + by) by (nonlinear_arith);
            }
            from = to;
        }
        let rate: Single = self.buckets_per_second.over(Single::from_count(by as u64));
        let r: Peaks = Peaks { min, max, buckets_per_second: rate };
        assert(r@.min =~= self@.coarse(factor as nat).min);
        assert(r@.max =~= self@.coarse(factor as nat).max);
        r
    }

    /// The extremes over the buckets covering `from` to `to` seconds of the
    /// file, the low at or below zero and the high at or above it. Past the end,
    /// or an empty span, is silence.
    pub fn extremes(&self, from: Single, to: Single) -> (r: (Single, Single))
        ensures
            r == self@.over(from, to),
    {
        let count: usize = self.len();
        if count == 0 || to.up_to(from) || self.buckets_per_second.up_to(single(0)) {
            return (single(0), single(0));
        }
        let start: Single = from.times(self.buckets_per_second);
        let end: Single = to.times(self.buckets_per_second);
        let first: usize = hold(start.minus(single(HAIR)).widen().to_ceiling(), count);
        let last: usize = hold(end.minus(single(HAIR)).widen().to_ceiling(), count);
        if first < last {
            return (lowest_of(&self.min, first, last), highest_of(&self.max, first, last));
        }
        if Single::from_count(count as u64).up_to(start) {
            return (single(0), single(0));
        }
        let inside: usize = hold(start.widen().to_whole(), count - 1);
        (lowest_of(&self.min, inside, inside + 1), highest_of(&self.max, inside, inside + 1))
    }
}

/// Group `g` begins inside exactly where it is one of the groups.
proof fn lemma_groups(count: nat, by: nat, g: nat)
    requires
        by > 0,
    ensures
        g < ceil_div(count, by) <==> g * by < count,
{
    let n = count + by - 1;
    lemma_fundamental_div_mod(n, by as int);
    lemma_mod_bound(n, by as int);
    let q = n / by as int;
    assert(g < q <==> g * by < count) by (nonlinear_arith)
        requires
            by > 0,
            n == count + by - 1,
            n == by * q + n % by as int,
            0 <= n % by as int,
            n % (by as int) < by,
    ;
    assert(q >= 0) by (nonlinear_arith)
        requires
            n >= 0,
            by > 0,
            n == by * q + n % by as int,
            n % (by as int) < by,
    ;
}

// What holds of the cache and of the levels.

proof fn lemma_word(n: nat)
    requires
        n < 0x1_0000_0000,
    ensures
        word(n).len() == 4,
        worth(word(n)) == n,
{
    assert(n == n % 256 + 256 * (n / 256 % 256) + 65536 * (n / 65536 % 256) + 16777216 * (n
        / 16777216 % 256)) by (nonlinear_arith)
        requires
            n < 0x1_0000_0000,
    ;
}

proof fn lemma_laid_out(s: Seq<Single>, i: int)
    ensures
        laid_out(s).len() == 4 * s.len(),
        0 <= i < s.len() ==> laid_out(s).subrange(4 * i, 4 * i + 4) == word(s[i].bits as nat),
    decreases s.len(),
{
    if s.len() > 0 {
        let init = s.drop_last();
        lemma_laid_out(init, i);
        lemma_word(s.last().bits as nat);
        if 0 <= i < init.len() {
            assert(laid_out(s).subrange(4 * i, 4 * i + 4) =~= laid_out(init).subrange(
                4 * i,
                4 * i + 4,
            ));
        } else if i == init.len() {
            assert(laid_out(s).subrange(4 * i, 4 * i + 4) =~= word(s.last().bits as nat));
        }
    }
}

proof fn lemma_read_back(bytes: Seq<u8>, offset: int, s: Seq<Single>)
    requires
        0 <= offset,
        offset + 4 * s.len() <= bytes.len(),
        bytes.subrange(offset, offset + 4 * s.len()) == laid_out(s),
    ensures
        read_back(bytes, offset, s.len()) == s,
{
    let r = read_back(bytes, offset, s.len());
    let run = bytes.subrange(offset, offset + 4 * s.len());
    assert forall|i: int| 0 <= i < s.len() implies r[i] == s[i] by {
        lemma_laid_out(s, i);
        assert(bytes.subrange(offset + 4 * i, offset + 4 * i + 4) =~= run.subrange(
            4 * i,
            4 * i + 4,
        ));
        lemma_word(s[i].bits as nat);
    }
    assert(r =~= s);
}

/// A waveform read back from its own bytes is the waveform, as far as both its
/// lows and its highs go. A count takes four bytes, so this is for waveforms
/// that have no more buckets than four bytes count.
pub proof fn lemma_cache_round_trip(peaks: PeaksView)
    requires
        peaks.count() < 0x1_0000_0000,
    ensures
        PeaksView::decoded(peaks.encoded()) == Some(
            PeaksView {
                min: peaks.min.take(peaks.count() as int),
                max: peaks.max.take(peaks.count() as int),
                rate: peaks.rate,
            },
        ),
        peaks.encoded().len() == 8 + 8 * peaks.count(),
{
    let count = peaks.count();
    let n = count as int;
    let bytes = peaks.encoded();
    let low = peaks.min.take(count as int);
    let high = peaks.max.take(count as int);
    lemma_word(peaks.rate.bits as nat);
    lemma_word(count);
    lemma_small_mod(count, 0x1_0000_0000);
    lemma_laid_out(low, 0);
    lemma_laid_out(high, 0);
    assert(bytes.subrange(0, 4) =~= word(peaks.rate.bits as nat));
    assert(bytes.subrange(4, 8) =~= word(count));
    assert(bytes.subrange(8, 8 + 4 * n) =~= laid_out(low));
    assert(bytes.subrange(8 + 4 * n, 8 + 4 * n + 4 * n) =~= laid_out(high));
    lemma_read_back(bytes, 8, low);
    lemma_read_back(bytes, (8 + count * 4) as int, high);
}

/// The lowest of a run is a number at or below zero, no higher than anything in
/// the run, and zero or one of the run.
pub proof fn lemma_lowest(s: Seq<Single>)
    ensures
        !lowest(s).nan(),
        lowest(s).rank() <= 0,
        forall|i: int|
            0 <= i < s.len() && !(#[trigger] s[i]).nan() ==> lowest(s).rank() <= s[i].rank(),
        lowest(s) == single(0) || (lowest(s).rank() < 0 && s.contains(lowest(s))),
    decreases s.len(),
{
    if s.len() > 0 {
        let init = s.drop_last();
        lemma_lowest(init);
        assert forall|i: int| 0 <= i < s.len() && !(#[trigger] s[i]).nan() implies lowest(s).rank()
            <= s[i].rank() by {
            if i < init.len() {
                assert(init[i] == s[i]);
            }
        }
        if lowest(s) != single(0) {
            if lowest(s) == lowest(init) {
                let i = choose|i: int| 0 <= i < init.len() && init[i] == lowest(init);
                assert(s[i] == lowest(s));
            } else {
                assert(s[s.len() - 1] == lowest(s));
            }
        }
    }
}

/// The highest of a run is a number at or above zero, no lower than anything in
/// the run, and zero or one of the run.
pub proof fn lemma_highest(s: Seq<Single>)
    ensures
        !highest(s).nan(),
        highest(s).rank() >= 0,
        forall|i: int|
            0 <= i < s.len() && !(#[trigger] s[i]).nan() ==> highest(s).rank() >= s[i].rank(),
        highest(s) == single(0) || (highest(s).rank() > 0 && s.contains(highest(s))),
    decreases s.len(),
{
    if s.len() > 0 {
        let init = s.drop_last();
        lemma_highest(init);
        assert forall|i: int| 0 <= i < s.len() && !(#[trigger] s[i]).nan() implies highest(s).rank()
            >= s[i].rank() by {
            if i < init.len() {
                assert(init[i] == s[i]);
            }
        }
        if highest(s) != single(0) {
            if highest(s) == highest(init) {
                let i = choose|i: int| 0 <= i < init.len() && init[i] == highest(init);
                assert(s[i] == highest(s));
            } else {
                assert(s[s.len() - 1] == highest(s));
            }
        }
    }
}

/// Fine bucket `i` lies in group `i / by`.
proof fn lemma_in_group(peaks: PeaksView, by: nat, i: int)
    requires
        by > 0,
        0 <= i < peaks.count(),
    ensures
        ({
            let g = i / by as int;
            0 <= g < ceil_div(peaks.count(), by) && g * by <= i < peaks.group_end(by, g)
        }),
{
    let g = i / by as int;
    lemma_fundamental_div_mod(i, by as int);
    lemma_mod_bound(i, by as int);
    assert(g * by <= i && i < g * by + by && g >= 0) by (nonlinear_arith)
        requires
            i == by * g + i % by as int,
            0 <= i % by as int,
            i % (by as int) < by,
            i >= 0,
            by > 0,
    ;
    lemma_groups(peaks.count(), by, g as nat);
}

/// Group `g` lies inside the fine buckets.
proof fn lemma_group_bounds(peaks: PeaksView, by: nat, g: int)
    requires
        by > 0,
        0 <= g < ceil_div(peaks.count(), by),
    ensures
        0 <= g * by < peaks.group_end(by, g) <= peaks.count(),
{
    lemma_groups(peaks.count(), by, g as nat);
    assert(g * by >= 0) by (nonlinear_arith)
        requires
            g >= 0,
            by > 0,
    ;
}

/// A coarser level keeps the extremes of the whole waveform exactly: nothing
/// quieter or louder than the fine shape appears, and nothing is lost.
pub proof fn lemma_coarser_keeps_the_extremes(peaks: PeaksView, factor: nat)
    ensures
        lowest(peaks.coarse(factor).min) == lowest(peaks.min.take(peaks.count() as int)),
        highest(peaks.coarse(factor).max) == highest(peaks.max.take(peaks.count() as int)),
        peaks.coarse(factor).min.len() == peaks.coarse(factor).max.len(),
{
    let by: nat = if factor == 0 {
        1
    } else {
        factor
    };
    let count = peaks.count();
    let coarse = peaks.coarse(factor);
    let low = peaks.min.take(count as int);
    let high = peaks.max.take(count as int);
    lemma_lowest(coarse.min);
    lemma_lowest(low);
    lemma_highest(coarse.max);
    lemma_highest(high);
    // the fine lowest is no lower than the coarse one
    if lowest(low) != single(0) {
        let i = choose|i: int| 0 <= i < low.len() && low[i] == lowest(low);
        let g = i / by as int;
        lemma_in_group(peaks, by, i);
        let run = peaks.min.subrange(g * by, peaks.group_end(by, g));
        lemma_lowest(run);
        assert(run[i - g * by] == low[i]);
        assert(coarse.min[g] == lowest(run));
    }
    if lowest(coarse.min) != single(0) {
        let g = choose|g: int| 0 <= g < coarse.min.len() && coarse.min[g] == lowest(coarse.min);
        lemma_group_bounds(peaks, by, g);
        let run = peaks.min.subrange(g * by, peaks.group_end(by, g));
        lemma_lowest(run);
        let k = choose|k: int| 0 <= k < run.len() && run[k] == lowest(run);
        assert(low[g * by + k] == run[k]);
    }
    if highest(high) != single(0) {
        let i = choose|i: int| 0 <= i < high.len() && high[i] == highest(high);
        let g = i / by as int;
        lemma_in_group(peaks, by, i);
        let run = peaks.max.subrange(g * by, peaks.group_end(by, g));
        lemma_highest(run);
        assert(run[i - g * by] == high[i]);
        assert(coarse.max[g] == highest(run));
    }
    if highest(coarse.max) != single(0) {
        let g = choose|g: int| 0 <= g < coarse.max.len() && coarse.max[g] == highest(coarse.max);
        lemma_group_bounds(peaks, by, g);
        let run = peaks.max.subrange(g * by, peaks.group_end(by, g));
        lemma_highest(run);
        let k = choose|k: int| 0 <= k < run.len() && run[k] == highest(run);
        assert(high[g * by + k] == run[k]);
    }
}

/// Whatever span is asked for, the low is at or below zero and the high at or
/// above it, and neither is other than a number.
pub proof fn lemma_extremes_straddle_the_axis(peaks: PeaksView, from: Single, to: Single)
    ensures
        !peaks.over(from, to).0.nan() && peaks.over(from, to).0.rank() <= 0,
        !peaks.over(from, to).1.nan() && peaks.over(from, to).1.rank() >= 0,
{
    match peaks.span(from, to) {
        Some((first, last)) => {
            lemma_lowest(peaks.min.subrange(first, last));
            lemma_highest(peaks.max.subrange(first, last));
        },
        None => {},
    }
}

// Every resolution.

/// A waveform halved again and again until a level is a handful of buckets,
/// finest first.
pub open spec fn pyramid(finest: PeaksView) -> Seq<PeaksView>
    decreases finest.count(),
{
    if finest.count() > COARSEST {
        proof {
            lemma_halves_shrink(finest);
        }
        seq![finest] + pyramid(finest.coarse(2))
    } else {
        seq![finest]
    }
}

/// The coarsest level at or below `i` whose buckets are no larger than a
/// column, if any.
pub open spec fn fitting(levels: Seq<PeaksView>, seconds: Single, i: int) -> Option<int>
    decreases i + 1,
{
    if i < 0 {
        None
    } else if single(ONE32).at_most(product32(levels[i].rate, seconds)) {
        Some(i)
    } else {
        fitting(levels, seconds, i - 1)
    }
}

/// The level a column of `seconds` is drawn from: the coarsest whose buckets
/// are no larger than the column, or the finest.
pub open spec fn level_of(levels: Seq<PeaksView>, seconds: Single) -> int {
    if seconds.nan() || seconds.at_most(single(0)) {
        0
    } else {
        match fitting(levels, seconds, levels.len() - 1) {
            Some(i) => i,
            None => 0,
        }
    }
}

/// A waveform at every resolution a drawing could want: a clip drawn across two
/// thousand columns reads two thousand buckets and not two million.
pub struct Pyramid {
    levels: Vec<Peaks>,
}

/// What a list of waveforms says.
pub open spec fn shapes(levels: Seq<Peaks>) -> Seq<PeaksView> {
    levels.map_values(|level: Peaks| level@)
}

/// Halving leaves fewer buckets, and some.
pub proof fn lemma_halves_shrink(peaks: PeaksView)
    requires
        peaks.count() > COARSEST,
    ensures
        peaks.coarse(2).count() < peaks.count(),
        peaks.coarse(2).count() > 0,
{
    assert(ceil_div(peaks.count(), 2) == (peaks.count() + 1) / 2);
}

impl Pyramid {
    #[verifier::type_invariant]
    spec fn formed(self) -> bool {
        self.levels.len() > 0
    }

    pub closed spec fn view(&self) -> Seq<PeaksView> {
        shapes(self.levels@)
    }

    /// Every level, from `finest` down to a few buckets.
    pub fn of(finest: Peaks) -> (r: Pyramid)
        ensures
            r@ == pyramid(finest@),
    {
        let ghost whole = pyramid(finest@);
        let mut levels: Vec<Peaks> = Vec::new();
        levels.push(finest);
        proof {
            assert(shapes(levels@) =~= seq![finest@]);
            assert(shapes(levels@).drop_last() + pyramid(finest@) =~= whole);
        }
        let mut last: usize = 0;
        while levels[last].len() > COARSEST
            invariant
                last + 1 == levels.len(),
                shapes(levels@).drop_last() + pyramid(levels@.last()@) == whole,
            decreases levels@.last()@.count(),
        {
            let ghost fine = levels@.last()@;
            let ghost before = shapes(levels@);
            let coarser: Peaks = levels[last].coarser(2);
            proof {
                lemma_halves_shrink(fine);
            }
            levels.push(coarser);
            last = levels.len() - 1;
            proof {
                assert(shapes(levels@).drop_last() =~= before);
                assert(before =~= before.drop_last().push(fine));
                assert(before + pyramid(coarser@) =~= before.drop_last() + pyramid(fine));
            }
        }
        proof {
            let l = shapes(levels@);
            assert(l =~= l.drop_last() + seq![levels@.last()@]);
        }
        Pyramid { levels }
    }

    /// The peaks as extracted.
    pub fn finest(&self) -> (r: &Peaks)
        ensures
            self@.len() > 0,
            r@ == self@[0],
    {
        proof {
            use_type_invariant(self);
        }
        &self.levels[0]
    }

    /// The level to draw a column of `seconds` from, so a column reads one
    /// bucket or a few and never a fraction of one.
    pub fn level_for(&self, seconds_per_column: Single) -> (r: &Peaks)
        ensures
            0 <= level_of(self@, seconds_per_column) < self@.len(),
            r@ == self@[level_of(self@, seconds_per_column)],
    {
        proof {
            use_type_invariant(self);
        }
        if seconds_per_column.is_nan() || seconds_per_column.up_to(single(0)) {
            return &self.levels[0];
        }
        let mut i: usize = self.levels.len();
        while i > 0
            invariant
                i <= self.levels.len(),
                self.levels.len() > 0,
                fitting(self@, seconds_per_column, self@.len() - 1) == fitting(
                    self@,
                    seconds_per_column,
                    i - 1,
                ),
                !(seconds_per_column.nan() || seconds_per_column.at_most(single(0))),
            decreases i,
        {
            i = i - 1;
            assert(self@[i as int] == self.levels@[i as int]@);
            let buckets: Single = self.levels[i].buckets_per_second.times(seconds_per_column);
            if single(ONE32).up_to(buckets) {
                return &self.levels[i];
            }
        }
        &self.levels[0]
    }

    /// How many levels there are.
    pub fn depth(&self) -> (r: usize)
        ensures
            r == self@.len(),
    {
        self.levels.len()
    }
}

/// Every level says the same about the whole file.
pub proof fn lemma_levels_agree(finest: PeaksView, i: int)
    requires
        0 <= i < pyramid(finest).len(),
    ensures
        ({
            let level = pyramid(finest)[i];
            &&& lowest(level.min.take(level.count() as int)) == lowest(
                finest.min.take(finest.count() as int),
            )
            &&& highest(level.max.take(level.count() as int)) == highest(
                finest.max.take(finest.count() as int),
            )
        }),
    decreases finest.count(),
{
    if finest.count() > COARSEST && i > 0 {
        let half = finest.coarse(2);
        lemma_halves_shrink(finest);
        lemma_coarser_keeps_the_extremes(finest, 2);
        lemma_levels_agree(half, i - 1);
        assert(pyramid(finest)[i] == pyramid(half)[i - 1]);
        assert(half.min.take(half.count() as int) =~= half.min);
        assert(half.max.take(half.count() as int) =~= half.max);
    }
}

// Folding samples.

/// The lowest of a run of samples, and of zero.
pub open spec fn low_sample(s: Seq<i16>) -> i16
    decreases s.len(),
{
    if s.len() == 0 {
        0
    } else if s.last() < low_sample(s.drop_last()) {
        s.last()
    } else {
        low_sample(s.drop_last())
    }
}

/// The highest of a run of samples, and of zero.
pub open spec fn high_sample(s: Seq<i16>) -> i16
    decreases s.len(),
{
    if s.len() == 0 {
        0
    } else if s.last() > high_sample(s.drop_last()) {
        s.last()
    } else {
        high_sample(s.drop_last())
    }
}

/// A sample between minus one and one.
pub open spec fn level(sample: i16) -> Single {
    narrowed(quotient(whole(sample as int), num(SAMPLE_SCALE)))
}

fn level_at(sample: i16) -> (r: Single)
    ensures
        r == level(sample),
{
    Number::from_int(sample as i64).over(num(SAMPLE_SCALE)).narrow()
}

/// How many samples a bucket holds.
pub open spec fn bucket_size(buckets_per_second: u32) -> nat {
    if buckets_per_second == 0 {
        PEAK_RATE as nat
    } else if buckets_per_second > PEAK_RATE {
        1
    } else {
        (PEAK_RATE / buckets_per_second) as nat
    }
}

/// Bucket `i` of some samples.
pub open spec fn bucket(samples: Seq<i16>, size: nat, i: int) -> Seq<i16> {
    samples.subrange(
        i * size,
        if (i + 1) * size <= samples.len() {
            (i + 1) * size
        } else {
            samples.len() as int
        },
    )
}

/// Samples as peaks: one bucket after another, a trailing partial one included.
pub open spec fn peaks_of(samples: Seq<i16>, size: nat) -> PeaksView {
    let count = ceil_div(samples.len(), size);
    PeaksView {
        min: Seq::new(count, |i: int| level(low_sample(bucket(samples, size, i)))),
        max: Seq::new(count, |i: int| level(high_sample(bucket(samples, size, i)))),
        rate: quotient32(whole32(PEAK_RATE as nat), whole32(size)),
    }
}

/// Folds a run of samples into peaks without holding the samples.
pub struct Folder {
    bucket_size: usize,
    min: Vec<Single>,
    max: Vec<Single>,
    low: i16,
    high: i16,
    filled: usize,
    /// Every sample folded so far.
    folded: Ghost<Seq<i16>>,
}

impl Folder {
    #[verifier::type_invariant]
    spec fn formed(self) -> bool {
        let size = self.bucket_size as nat;
        let s = self.folded@;
        let full = s.len() / size;
        &&& 0 < size <= PEAK_RATE
        &&& self.filled == s.len() % size
        &&& self.min.len() == full
        &&& self.max.len() == full
        &&& forall|i: int|
            0 <= i < full ==> #[trigger] self.min@[i] == level(low_sample(bucket(s, size, i)))
        &&& forall|i: int|
            0 <= i < full ==> #[trigger] self.max@[i] == level(high_sample(bucket(s, size, i)))
        &&& self.low == low_sample(s.subrange((full * size) as int, s.len() as int))
        &&& self.high == high_sample(s.subrange((full * size) as int, s.len() as int))
    }

    /// How many samples a bucket of this folder holds.
    pub closed spec fn size(&self) -> nat {
        self.bucket_size as nat
    }

    /// Every sample folded so far.
    pub closed spec fn samples(&self) -> Seq<i16> {
        self.folded@
    }

    /// A folder of this many buckets a second, one at least and one a sample at
    /// most.
    pub fn new(buckets_per_second: u32) -> (r: Folder)
        ensures
            r.size() == bucket_size(buckets_per_second),
            r.samples() == Seq::<i16>::empty(),
    {
        let rate: u32 = if buckets_per_second == 0 {
            1
        } else if buckets_per_second > PEAK_RATE {
            PEAK_RATE
        } else {
            buckets_per_second
        };
        let bucket_size: usize = (PEAK_RATE / rate) as usize;
        proof {
            assert(0 < PEAK_RATE / rate <= PEAK_RATE) by (nonlinear_arith)
                requires
                    0 < rate <= PEAK_RATE,
                    PEAK_RATE == 48000,
            ;
            assert(PEAK_RATE / 1 == PEAK_RATE);
            assert(PEAK_RATE / PEAK_RATE == 1);
            let s = Seq::<i16>::empty();
            lemma_small_mod(0, bucket_size as nat);
            lemma_div_basics(bucket_size as int);
            assert(s.subrange(0, 0) =~= s);
            assert(0 * bucket_size as int == 0);
        }
        Folder {
            bucket_size,
            min: Vec::new(),
            max: Vec::new(),
            low: 0,
            high: 0,
            filled: 0,
            folded: Ghost(Seq::empty()),
        }
    }

    /// Folds one sample in.
    fn fold(self, sample: i16) -> (r: Folder)
        ensures
            r.size() == self.size(),
            r.samples() == self.samples().push(sample),
    {
        proof {
            use_type_invariant(&self);
        }
        let ghost size = self.bucket_size as nat;
        let ghost s = self.folded@;
        let ghost more = s.push(sample);
        let ghost full = s.len() / size;
        let ghost run = s.subrange((full * size) as int, s.len() as int);
        let low: i16 = if sample < self.low {
            sample
        } else {
            self.low
        };
        let high: i16 = if sample > self.high {
            sample
        } else {
            self.high
        };
        let mut min: Vec<Single> = self.min;
        let mut max: Vec<Single> = self.max;
        proof {
            lemma_fundamental_div_mod(s.len() as int, size as int);
            lemma_mod_bound(s.len() as int, size as int);
            assert(full * size <= s.len()) by (nonlinear_arith)
                requires
                    s.len() == size * full + s.len() % size,
                    s.len() % size >= 0,
            ;
            assert(full * size == size * full) by (nonlinear_arith);
            let longer = more.subrange((full * size) as int, more.len() as int);
            assert(longer.drop_last() =~= run);
            assert(longer.last() == sample);
            assert(low == low_sample(longer));
            assert(high == high_sample(longer));
            assert forall|i: int| 0 <= i < full implies #[trigger] bucket(more, size, i) == bucket(
                s,
                size,
                i,
            ) by {
                assert((i + 1) * size <= full * size && i * size >= 0 && i * size <= (i + 1) * size)
                    by (nonlinear_arith)
                    requires
                        0 <= i < full,
                        size > 0,
                ;
                assert(bucket(more, size, i) =~= bucket(s, size, i));
            }
        }
        if self.filled + 1 == self.bucket_size {
            proof {
                let n = s.len() as int;
                let left = n % size as int;
                assert(left + 1 == size);
                assert(n + 1 == (full + 1) * size + 0) by (nonlinear_arith)
                    requires
                        n == size * full + left,
                        left + 1 == size,
                ;
                lemma_fundamental_div_mod_converse(
                    more.len() as int,
                    size as int,
                    (full + 1) as int,
                    0,
                );
                assert(bucket(more, size, full as int) =~= more.subrange(
                    (full * size) as int,
                    more.len() as int,
                ));
                let rest = more.subrange(((full + 1) * size) as int, more.len() as int);
                assert(rest =~= Seq::<i16>::empty());
            }
            min.push(level_at(low));
            max.push(level_at(high));
            Folder {
                bucket_size: self.bucket_size,
                min,
                max,
                low: 0,
                high: 0,
                filled: 0,
                folded: Ghost(more),
            }
        } else {
            proof {
                assert(more.len() == full * size + (s.len() % size + 1));
                lemma_fundamental_div_mod_converse(
                    more.len() as int,
                    size as int,
                    full as int,
                    (s.len() % size + 1) as int,
                );
            }
            Folder {
                bucket_size: self.bucket_size,
                min,
                max,
                low,
                high,
                filled: self.filled + 1,
                folded: Ghost(more),
            }
        }
    }

    /// Folds a run of samples in.
    pub fn fold_all(self, samples: &Vec<i16>) -> (r: Folder)
        ensures
            r.size() == self.size(),
            r.samples() == self.samples() + samples@,
    {
        let ghost before = self.samples();
        let ghost size = self.size();
        let mut folder: Folder = self;
        let mut i: usize = 0;
        assert(before + samples@.take(0) =~= before);
        while i < samples.len()
            invariant
                i <= samples.len(),
                folder.size() == size,
                folder.samples() == before + samples@.take(i as int),
            decreases samples.len() - i,
        {
            folder = folder.fold(samples[i]);
            assert(before + samples@.take(i + 1) =~= (before + samples@.take(i as int)).push(
                samples@[i as int],
            ));
            i = i + 1;
        }
        assert(samples@.take(samples.len() as int) =~= samples@);
        folder
    }

    /// The peaks of everything folded in. The trailing partial bucket still
    /// counts.
    pub fn finish(self) -> (r: Peaks)
        ensures
            r@ == peaks_of(self.samples(), self.size()),
    {
        proof {
            use_type_invariant(&self);
        }
        let ghost s = self.folded@;
        let ghost size = self.bucket_size as nat;
        let ghost full = s.len() / size;
        proof {
            lemma_fundamental_div_mod(s.len() as int, size as int);
            lemma_mod_bound(s.len() as int, size as int);
            lemma_groups(s.len(), size, full);
            lemma_groups(s.len(), size, full + 1);
            if full > 0 {
                lemma_groups(s.len(), size, (full - 1) as nat);
                assert((full - 1) * size < size * full) by (nonlinear_arith)
                    requires
                        size > 0,
                ;
            }
            assert(full * size == size * full) by (nonlinear_arith);
            assert((full + 1) * size == size * full + size) by (nonlinear_arith);
        }
        let mut min: Vec<Single> = self.min;
        let mut max: Vec<Single> = self.max;
        if self.filled > 0 {
            min.push(level_at(self.low));
            max.push(level_at(self.high));
            assert(bucket(s, size, full as int) =~= s.subrange(
                (full * size) as int,
                s.len() as int,
            ));
        }
        let rate: Single = Single::from_count(PEAK_RATE as u64).over(
            Single::from_count(self.bucket_size as u64),
        );
        let r: Peaks = Peaks { min, max, buckets_per_second: rate };
        proof {
            let p = peaks_of(s, size);
            assert(r@.min =~= p.min);
            assert(r@.max =~= p.max);
        }
        r
    }
}

} // verus!
