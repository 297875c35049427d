//! Retiming a clip's sound.

use crate::digits::{fixed, fixed_text};
use crate::number::{
    absolute, clamped, difference, lemma_doubles, lemma_halves, lemma_units_double, num, units,
    Number, FRACTION, HALF, ONE, TWO,
};
use crate::ranges::{MAX_SPEED, MIN_SPEED};
use crate::text::{text_from, texts};
use vstd::arithmetic::power2::*;
use vstd::prelude::*;
use vstd::string::*;

verus! {

/// The rate everything is mixed at.
pub const MIX_RATE: u32 = 48_000;

/// The gap between one and the next number up.
pub const EPSILON: u64 = 0x3cb0_0000_0000_0000;

/// A rate held to the playback rates the engine supports.
pub open spec fn engine_speed(speed: Number) -> Number {
    clamped(speed, num(MIN_SPEED), num(MAX_SPEED))
}

/// Holds a rate to the playback rates the engine supports.
pub fn clamp_speed(speed: Number) -> (r: Number)
    ensures
        r == engine_speed(speed),
{
    speed.clamp(num(MIN_SPEED), num(MAX_SPEED))
}

/// Whether a number is one, to within the gap beside it.
pub open spec fn is_one(x: Number) -> bool {
    absolute(difference(x, num(ONE))).less(num(EPSILON))
}

/// A fast rate in stages of two and a rest. Each stage of two takes one off the
/// exponent.
pub open spec fn fast_stages(magnitude: nat) -> Seq<Number>
    decreases magnitude,
{
    if magnitude > TWO {
        seq![num(TWO)] + fast_stages((magnitude - FRACTION) as nat)
    } else {
        seq![num(magnitude as u64)]
    }
}

/// A slow rate in stages of one half and a rest.
pub open spec fn slow_stages(magnitude: nat) -> Seq<Number>
    decreases HALF + FRACTION - magnitude,
{
    if magnitude < HALF {
        seq![num(HALF)] + slow_stages((magnitude + FRACTION) as nat)
    } else {
        seq![num(magnitude as u64)]
    }
}

/// A rate as stages that each stay inside one filter's range.
pub open spec fn stages(speed: Number) -> Seq<Number> {
    let rate = engine_speed(speed);
    if rate.nan() {
        seq![rate]
    } else if num(TWO).less(rate) {
        fast_stages(rate.magnitude())
    } else {
        slow_stages(rate.magnitude())
    }
}

proof fn lemma_engine_speed(speed: Number)
    ensures
        ({
            let rate = engine_speed(speed);
            !rate.nan() ==> !rate.negative() && MIN_SPEED <= rate.magnitude() <= MAX_SPEED
                && rate.bits == rate.magnitude()
        }),
{
}

/// Splits a rate into stages that each stay inside the range one tempo filter
/// takes: four times has to become two times, two times.
pub fn tempo_stages(speed: Number) -> (r: Vec<Number>)
    ensures
        r@ == stages(speed),
{
    let mut r: Vec<Number> = Vec::new();
    let rate: Number = clamp_speed(speed);
    proof {
        lemma_engine_speed(speed);
    }
    if rate.is_nan() {
        r.push(rate);
        assert(r@ =~= stages(speed));
        return r;
    }
    let mut remaining: Number = rate;
    assert(r@ + fast_stages(rate.magnitude()) =~= fast_stages(rate.magnitude()));
    while num(TWO).below(remaining)
        invariant
            !remaining.nan(),
            !remaining.negative(),
            remaining.bits == remaining.magnitude(),
            MIN_SPEED <= remaining.magnitude() <= MAX_SPEED,
            remaining == rate || remaining.magnitude() > ONE,
            remaining == rate ==> r@ == Seq::<Number>::empty(),
            num(TWO).less(rate) ==> r@ + fast_stages(remaining.magnitude()) == fast_stages(
                rate.magnitude(),
            ),
            !num(TWO).less(rate) ==> remaining == rate,
        decreases remaining.magnitude(),
    {
        proof {
            lemma_halves(remaining);
            let m = remaining.magnitude();
            assert(r@.push(num(TWO)) + fast_stages((m - FRACTION) as nat) =~= r@ + fast_stages(m));
        }
        r.push(num(TWO));
        remaining = remaining.over(num(TWO));
    }
    if num(TWO).below(rate) {
        r.push(remaining);
        assert(remaining == num(remaining.magnitude() as u64));
        assert(r@ =~= stages(speed));
        return r;
    }
    assert(r@ + slow_stages(rate.magnitude()) =~= slow_stages(rate.magnitude()));
    while remaining.below(num(HALF))
        invariant
            !remaining.nan(),
            !remaining.negative(),
            remaining.bits == remaining.magnitude(),
            MIN_SPEED <= remaining.magnitude() <= TWO,
            r@ + slow_stages(remaining.magnitude()) == slow_stages(rate.magnitude()),
        decreases HALF + FRACTION - remaining.magnitude(),
    {
        proof {
            lemma_doubles(remaining);
            let m = remaining.magnitude();
            assert(r@.push(num(HALF)) + slow_stages((m + FRACTION) as nat) =~= r@ + slow_stages(m));
        }
        r.push(num(HALF));
        remaining = remaining.over(num(HALF));
    }
    r.push(remaining);
    assert(remaining == num(remaining.magnitude() as u64));
    assert(r@ =~= stages(speed));
    r
}

proof fn lemma_fast_stages(magnitude: nat)
    requires
        FRACTION <= magnitude <= MAX_SPEED,
        magnitude > HALF,
    ensures
        ({
            let s = fast_stages(magnitude);
            let n = (s.len() - 1) as nat;
            &&& s.len() > 0
            &&& forall|i: int| 0 <= i < n ==> s[i] == num(TWO)
            &&& HALF <= s.last().magnitude() <= TWO
            &&& !s.last().negative()
            &&& units(s.last().magnitude()) * pow2(n) == units(magnitude)
        }),
    decreases magnitude,
{
    let s = fast_stages(magnitude);
    lemma2_to64();
    if magnitude > TWO {
        let k = (magnitude - FRACTION) as nat;
        lemma_fast_stages(k);
        lemma_units_double(k);
        let rest = fast_stages(k);
        let n = (rest.len() - 1) as nat;
        lemma_pow2_unfold(n + 1);
        let u = units(rest.last().magnitude());
        assert(u * (2 * pow2(n)) == 2 * (u * pow2(n))) by (nonlinear_arith);
        assert(s.last() == rest.last());
        assert forall|i: int| 0 <= i < s.len() - 1 implies s[i] == num(TWO) by {
            if i > 0 {
                assert(s[i] == rest[i - 1]);
            }
        }
    } else {
        assert(units(magnitude) * pow2(0) == units(magnitude)) by (nonlinear_arith)
            requires
                pow2(0) == 1,
        ;
    }
}

proof fn lemma_slow_stages(magnitude: nat)
    requires
        FRACTION <= magnitude <= TWO,
    ensures
        ({
            let s = slow_stages(magnitude);
            let n = (s.len() - 1) as nat;
            &&& s.len() > 0
            &&& forall|i: int| 0 <= i < n ==> s[i] == num(HALF)
            &&& HALF <= s.last().magnitude() <= TWO
            &&& !s.last().negative()
            &&& units(s.last().magnitude()) == units(magnitude) * pow2(n)
        }),
    decreases HALF + FRACTION - magnitude,
{
    let s = slow_stages(magnitude);
    lemma2_to64();
    if magnitude < HALF {
        let k = (magnitude + FRACTION) as nat;
        lemma_slow_stages(k);
        lemma_units_double(magnitude);
        let rest = slow_stages(k);
        let n = (rest.len() - 1) as nat;
        lemma_pow2_unfold(n + 1);
        let u = units(magnitude);
        assert((2 * u) * pow2(n) == u * (2 * pow2(n))) by (nonlinear_arith);
        assert(s.last() == rest.last());
        assert forall|i: int| 0 <= i < s.len() - 1 implies s[i] == num(HALF) by {
            if i > 0 {
                assert(s[i] == rest[i - 1]);
            }
        }
    } else {
        assert(units(magnitude) * pow2(0) == units(magnitude)) by (nonlinear_arith)
            requires
                pow2(0) == 1,
        ;
    }
}

/// Every stage of a rate that is a number is one the tempo filter takes, from a
/// half to two; and the stages multiply back to the rate exactly: all but the
/// last are twos, or all are halves, and the last makes up the rest.
pub proof fn lemma_stages_multiply_back(speed: Number)
    requires
        !speed.nan(),
    ensures
        ({
            let s = stages(speed);
            let n = (s.len() - 1) as nat;
            let rate = engine_speed(speed);
            &&& s.len() > 0
            &&& forall|i: int|
                0 <= i < s.len() ==> num(HALF).at_most(#[trigger] s[i]) && s[i].at_most(num(TWO))
            &&& num(TWO).less(rate) ==> (forall|i: int| 0 <= i < n ==> s[i] == num(TWO))
                && s.last().value() * pow2(n) == rate.value()
            &&& !num(TWO).less(rate) ==> (forall|i: int| 0 <= i < n ==> s[i] == num(HALF))
                && s.last().value() == rate.value() * pow2(n)
        }),
{
    lemma_engine_speed(speed);
    let rate = engine_speed(speed);
    let s = stages(speed);
    if num(TWO).less(rate) {
        lemma_fast_stages(rate.magnitude());
    } else {
        lemma_slow_stages(rate.magnitude());
    }
    assert forall|i: int| 0 <= i < s.len() implies num(HALF).at_most(#[trigger] s[i])
        && s[i].at_most(num(TWO)) by {
        if i == s.len() - 1 {
            assert(s[i] == s.last());
        }
    }
}

/// The filters that retime a clip.
pub open spec fn retiming(speed: Number, preserve_pitch: bool) -> Seq<Seq<char>> {
    let rate = engine_speed(speed);
    if is_one(rate) {
        Seq::empty()
    } else if preserve_pitch {
        stages(rate).map_values(|factor: Number| "atempo="@ + fixed(factor, 6))
    } else {
        seq![
            "aresample=48000"@,
            "asetrate=48000*"@ + fixed(rate, 6),
            "aresample=48000"@,
        ]
    }
}

/// `start` and a number with `places` decimals.
pub(crate) fn with_number(start: &str, x: Number, places: u32) -> (s: String)
    requires
        places <= 6,
    ensures
        s@ == start@ + fixed(x, places as nat),
{
    let mut s: String = start.to_owned();
    s.append(text_from(&fixed_text(x, places)).as_str());
    s
}

/// The filters that retime one clip, in order. Empty at normal speed.
///
/// Holding the pitch stages the tempo filter. The tape effect first lands on
/// the mix rate so the shift is exact whatever the source's rate was, then
/// shifts, then lands back.
pub fn speed_filters(speed: Number, preserve_pitch: bool) -> (r: Vec<String>)
    ensures
        texts(r@) == retiming(speed, preserve_pitch),
{
    let rate: Number = clamp_speed(speed);
    let mut r: Vec<String> = Vec::new();
    if rate.minus(num(ONE)).abs().below(num(EPSILON)) {
        assert(texts(r@) =~= retiming(speed, preserve_pitch));
        return r;
    }
    if preserve_pitch {
        let factors: Vec<Number> = tempo_stages(rate);
        let ghost whole = retiming(speed, preserve_pitch);
        let mut i: usize = 0;
        while i < factors.len()
            invariant
                i <= factors.len(),
                whole == factors@.map_values(|factor: Number| "atempo="@ + fixed(factor, 6)),
                texts(r@) == whole.take(i as int),
            decreases factors.len() - i,
        {
            let ghost before = texts(r@);
            let filter: String = with_number("atempo=", factors[i], 6);
            r.push(filter);
            assert(texts(r@) =~= before.push(filter@));
            assert(whole[i as int] == filter@);
            assert(texts(r@) =~= whole.take(i + 1));
            i = i + 1;
        }
        assert(whole.take(factors.len() as int) =~= whole);
    } else {
        r.push("aresample=48000".to_owned());
        r.push(with_number("asetrate=48000*", rate, 6));
        r.push("aresample=48000".to_owned());
        assert(texts(r@) =~= retiming(speed, preserve_pitch));
    }
    r
}

} // verus!
