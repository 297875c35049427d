//! A part of an ease.
//!
//! An ease is a curve from one corner of the unit square to the other, led by two
//! control points. What a stretch of it draws is such a curve again, once it is
//! spread over the square. Its control points are the curve's polar form at the
//! stretch's two ends.

use crate::model::keys::{linear, KeyEase};
use crate::number::{difference, num, product, quotient, sum, whole, Number, ONE, ZERO};
use vstd::prelude::*;

verus! {

/// How finely a curve's parameter is told: in parts of 2^52.
pub const GRID: u64 = 0x10_0000_0000_0000;

/// The same count as a number.
pub const GRID_SIZE: u64 = 0x4330_0000_0000_0000;

/// A part of the way from one number to another.
pub open spec fn mixed(a: Number, b: Number, part: Number) -> Number {
    sum(a, product(part, difference(b, a)))
}

/// The polar form of the cubic that leads from zero to one by `p` and `q`: each of
/// its three steps mixes neighbours by a parameter of its own.
#[verifier::opaque]
pub open spec fn polar(p: Number, q: Number, u: Number, v: Number, w: Number) -> Number {
    let a = mixed(num(ZERO), p, u);
    let b = mixed(p, q, u);
    let c = mixed(q, num(ONE), u);
    mixed(mixed(a, b, v), mixed(b, c, v), w)
}

/// The cubic itself: its polar form with one parameter for all three.
pub open spec fn curve(p: Number, q: Number, t: Number) -> Number {
    polar(p, q, t, t, t)
}

/// A point of the grid.
pub open spec fn step(j: nat) -> Number {
    quotient(whole(j as int), num(GRID_SIZE))
}

/// The grid point before which a rising curve has reached `x`, between two of
/// which it has and has not.
pub open spec fn sought(p: Number, q: Number, x: Number, low: nat, high: nat) -> nat
    decreases high - low,
{
    if high <= low + 1 {
        low
    } else {
        let middle = (low + high) / 2;
        if curve(p, q, step(middle)).at_most(x) {
            sought(p, q, x, middle, high)
        } else {
            sought(p, q, x, low, middle)
        }
    }
}

/// The parameter at which a curve has come to `x`.
pub open spec fn parameter(p: Number, q: Number, x: Number) -> Number {
    if x.at_most(num(ZERO)) {
        num(ZERO)
    } else if num(ONE).at_most(x) {
        num(ONE)
    } else {
        step(sought(p, q, x, 0, GRID as nat))
    }
}

/// A control point of a stretch of a curve, spread so that the stretch leads from
/// zero to one.
pub open spec fn spread(p: Number, q: Number, s: Number, t: Number, point: Number) -> Number {
    quotient(
        difference(point, curve(p, q, s)),
        difference(curve(p, q, t), curve(p, q, s)),
    )
}

impl KeyEase {
    /// Whether this is the straight line.
    pub open spec fn straight(self) -> bool {
        self.same(linear())
    }

    /// The ease of the stretch between two parameters.
    pub open spec fn between(self, s: Number, t: Number) -> KeyEase {
        KeyEase {
            x1: spread(self.x1, self.x2, s, t, polar(self.x1, self.x2, s, s, t)),
            y1: spread(self.y1, self.y2, s, t, polar(self.y1, self.y2, s, s, t)),
            x2: spread(self.x1, self.x2, s, t, polar(self.x1, self.x2, s, t, t)),
            y2: spread(self.y1, self.y2, s, t, polar(self.y1, self.y2, s, t, t)),
        }
    }

    /// The ease of the stretch between the parameters whose x is `from` and `to`.
    /// All of an ease is that ease, and a part of a straight line is one.
    pub open spec fn part(self, from: Number, to: Number) -> KeyEase {
        let curved = self.made_sane();
        if from.at_most(num(ZERO)) && num(ONE).at_most(to) {
            self
        } else if curved.straight() {
            linear()
        } else {
            curved.between(
                parameter(curved.x1, curved.x2, from),
                parameter(curved.x1, curved.x2, to),
            ).made_sane()
        }
    }
}

fn mix(a: Number, b: Number, part: Number) -> (r: Number)
    ensures
        r == mixed(a, b, part),
{
    a.plus(part.times(b.minus(a)))
}

fn bloom(p: Number, q: Number, u: Number, v: Number, w: Number) -> (r: Number)
    ensures
        r == polar(p, q, u, v, w),
{
    proof {
        reveal(polar);
    }
    let a: Number = mix(num(ZERO), p, u);
    let b: Number = mix(p, q, u);
    let c: Number = mix(q, num(ONE), u);
    mix(mix(a, b, v), mix(b, c, v), w)
}

fn seek(p: Number, q: Number, x: Number) -> (r: Number)
    ensures
        r == parameter(p, q, x),
{
    if x.up_to(num(ZERO)) {
        return num(ZERO);
    }
    if num(ONE).up_to(x) {
        return num(ONE);
    }
    let mut low: u64 = 0;
    let mut high: u64 = GRID;
    while high > low + 1
        invariant
            low < high <= GRID,
            sought(p, q, x, low as nat, high as nat) == sought(p, q, x, 0, GRID as nat),
        decreases high - low,
    {
        let middle: u64 = (low + high) / 2;
        let t: Number = Number::from_count(middle).over(num(GRID_SIZE));
        if bloom(p, q, t, t, t).up_to(x) {
            low = middle;
        } else {
            high = middle;
        }
    }
    Number::from_count(low).over(num(GRID_SIZE))
}

fn spread_over(low: Number, high: Number, point: Number) -> (r: Number)
    ensures
        r == quotient(difference(point, low), difference(high, low)),
{
    point.minus(low).over(high.minus(low))
}

/// The ease that draws, over a stretch of its own, what an ease draws between the
/// parameters whose x is `from` and `to`.
pub fn part_of_ease(ease: KeyEase, from: Number, to: Number) -> (r: KeyEase)
    ensures
        r == ease.part(from, to),
{
    if from.up_to(num(ZERO)) && num(ONE).up_to(to) {
        return ease;
    }
    let e: KeyEase = ease.sane();
    if e.equals(linear()) {
        return linear();
    }
    let s: Number = seek(e.x1, e.x2, from);
    let t: Number = seek(e.x1, e.x2, to);
    let left: Number = bloom(e.x1, e.x2, s, s, s);
    let right: Number = bloom(e.x1, e.x2, t, t, t);
    let low: Number = bloom(e.y1, e.y2, s, s, s);
    let high: Number = bloom(e.y1, e.y2, t, t, t);
    let found: KeyEase = KeyEase {
        x1: spread_over(left, right, bloom(e.x1, e.x2, s, s, t)),
        y1: spread_over(low, high, bloom(e.y1, e.y2, s, s, t)),
        x2: spread_over(left, right, bloom(e.x1, e.x2, s, t, t)),
        y2: spread_over(low, high, bloom(e.y1, e.y2, s, t, t)),
    };
    found.sane()
}

/// A part of the straight line is the straight line.
pub proof fn lemma_part_of_a_line(from: Number, to: Number)
    ensures
        linear().part(from, to) == linear(),
{
}

/// All of an ease is that ease.
pub proof fn lemma_all_of_an_ease(ease: KeyEase)
    ensures
        ease.part(num(ZERO), num(ONE)) == ease,
{
}

} // verus!
