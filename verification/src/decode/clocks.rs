//! The clocks of a reader: a stream's own, which may start late, and the timeline's,
//! which starts at nothing. Times are exact here, and so is what they come to.

use crate::decode::options::FrameRate;
use crate::decode::reading::Decoder;
use crate::model::exact::{
    lemma_ends_of_product, lemma_product_more, lemma_product_no_less, lemma_product_turns,
    lemma_product_whole, lemma_ratio,
};
use crate::model::nearly::lemma_no_less_before;
use crate::timing::{
    lemma_integer, lemma_made, lemma_same_second, made, second_of, start_at, Ratio, TimeBase,
};
use vstd::arithmetic::div_mod::*;
use vstd::prelude::*;

verus! {

/// The second a count of ticks is.
pub open spec fn ticked(ticks: int, base: TimeBase) -> real {
    ((ticks * base.numerator) as real) / (base.denominator as real)
}

/// A ratio of integers is the second it should be.
proof fn lemma_second(num: int, den: int)
    requires
        den > 0,
        made(num, den) is Some,
    ensures
        second_of(made(num, den)->0) == (num as real) / (den as real),
        made(num, den)->0.denominator() > 0,
{
    lemma_made(num, den);
    lemma_same_second(made(num, den)->0, num, den);
}

/// The sum and the difference of two instants, unreduced, are those of their seconds.
proof fn lemma_seconds_together(a: Ratio, b: Ratio)
    requires
        a.denominator() > 0,
        b.denominator() > 0,
    ensures
        a.sum_of(b).1 > 0,
        a.gap_of(b).1 > 0,
        (a.sum_of(b).0 as real) / (a.sum_of(b).1 as real) == second_of(a) + second_of(b),
        (a.gap_of(b).0 as real) / (a.gap_of(b).1 as real) == second_of(a) - second_of(b),
{
    let p = a.numerator() as real;
    let q = a.denominator() as real;
    let x = b.numerator() as real;
    let y = b.denominator() as real;
    let r = second_of(a);
    let s = second_of(b);
    lemma_ratio(p, q, r);
    lemma_ratio(x, y, s);
    lemma_product_whole(a.numerator(), b.denominator());
    lemma_product_whole(b.numerator(), a.denominator());
    lemma_product_whole(a.denominator(), b.denominator());
    let d = q * y;
    lemma_spread_out(p, q, x, y, r, s);
    lemma_over(r + s, d);
    lemma_over(r - s, d);
}

proof fn lemma_over(x: real, d: real)
    requires
        d > 0 as real,
    ensures
        (x * d) / d == x,
{
    let r = (x * d) / d;
    lemma_ratio(x * d, d, r);
    lemma_no_less_before(r, x, d);
    lemma_no_less_before(x, r, d);
}

/// Two ratios over the product of what they are over.
proof fn lemma_spread_out(p: real, q: real, x: real, y: real, r: real, s: real)
    requires
        q > 0 as real,
        y > 0 as real,
        r * q == p,
        s * y == x,
    ensures
        q * y > 0 as real,
        p * y == r * (q * y),
        x * q == s * (q * y),
        p * y + x * q == (r + s) * (q * y),
        p * y - x * q == (r - s) * (q * y),
{
    let d = q * y;
    lemma_product_more(0 as real, q, y);
    lemma_ends_of_product(y);
    assert((r * q) * y == r * (q * y)) by (nonlinear_arith);
    assert((s * y) * q == s * (q * y)) by (nonlinear_arith);
    assert((r + s) * d == r * d + s * d) by (nonlinear_arith);
    assert((r - s) * d == r * d - s * d) by (nonlinear_arith);
}

/// A frame's time is its own on the stream's clock less where that clock starts.
pub proof fn lemma_a_frame_is_timed_from_the_start(reader: Decoder, ticks: i64)
    requires
        reader.time_base.denominator > 0,
        reader.start.denominator() > 0,
        reader.pts_of(Some(ticks)) is Some,
    ensures
        second_of(reader.pts_of(Some(ticks))->0) == ticked(ticks as int, reader.time_base)
            - second_of(reader.start),
        reader.pts_of(None) is None,
{
    let base = reader.time_base;
    let at = made(base.product(ticks).0, base.product(ticks).1)->0;
    lemma_second(base.product(ticks).0, base.product(ticks).1);
    lemma_seconds_together(at, reader.start);
    lemma_second(at.gap_of(reader.start).0, at.gap_of(reader.start).1);
}

/// A seek looks for an instant where the stream's clock has it, in millionths of a
/// second, and never past it.
pub proof fn lemma_a_seek_is_on_the_streams_clock(reader: Decoder, to: Ratio)
    requires
        to.denominator() > 0,
        reader.start.denominator() > 0,
        reader.target_of(to) is Some,
        i64::MIN < reader.target_of(to)->0 < i64::MAX,
    ensures
        ({
            let ticks = reader.target_of(to)->0 as real;
            let wanted = 1000000 as real * (second_of(to) + second_of(reader.start));
            ticks <= wanted && wanted < ticks + 1 as real
        }),
{
    let sum = to.sum_of(reader.start);
    let at = made(sum.0, sum.1)->0;
    lemma_seconds_together(to, reader.start);
    lemma_second(sum.0, sum.1);
    let n = at.numerator() * 1000000;
    let d = at.denominator();
    lemma_fundamental_div_mod(n, d);
    lemma_mod_bound(n, d);
    let q = (n / d) as real;
    let m = (n % d) as real;
    let y = d as real;
    let s = second_of(at);
    lemma_ratio(at.numerator() as real, y, s);
    lemma_product_whole(d, n / d);
    let w = 1000000 as real * s;
    let f = w - q;
    assert((w - q) * y == w * y - q * y) by (nonlinear_arith);
    assert((1000000 as real * s) * y == 1000000 as real * (s * y)) by (nonlinear_arith);
    lemma_product_turns(q, y);
    assert(f * y == m);
    lemma_ends_of_product(y);
    lemma_no_less_before(0 as real, f, y);
    if f >= 1 as real {
        lemma_product_no_less(1 as real, f, y);
    }
}

/// The instants a paced reader shows are evenly spread from where it started: one of
/// the rate's frames apart.
pub proof fn lemma_instants_are_a_frame_apart(reader: Decoder, rate: FrameRate)
    requires
        rate.frames() > 0,
        reader.origin.denominator() > 0,
        reader.instant(rate) is Some,
    ensures
        ({
            let frame = (rate.seconds() as real) / (rate.frames() as real);
            second_of(reader.instant(rate)->0) == second_of(reader.origin) + (reader.tick as real)
                * frame
        }),
{
    let length = made(rate.seconds(), rate.frames())->0;
    let frame = second_of(length);
    lemma_second(rate.seconds(), rate.frames());
    let n = length.numerator() * reader.tick;
    let d = length.denominator();
    let offset = made(n, d)->0;
    lemma_second(n, d);
    lemma_product_whole(length.numerator(), reader.tick as int);
    lemma_ratio(length.numerator() as real, d as real, frame);
    let t = reader.tick as real;
    let y = d as real;
    let p = length.numerator() as real;
    assert((t * frame) * y == t * (frame * y)) by (nonlinear_arith);
    lemma_product_turns(p, t);
    lemma_over(t * frame, y);
    lemma_seconds_together(reader.origin, offset);
    lemma_second(reader.origin.sum_of(offset).0, reader.origin.sum_of(offset).1);
}

/// A stream starts at its own first tick where that comes after nothing, and else at
/// nothing.
pub proof fn lemma_where_a_stream_starts(start: Option<i64>, base: TimeBase)
    requires
        base.denominator > 0,
    ensures
        ({
            let at = start_at(start, base);
            &&& start is None ==> second_of(at) == 0 as real
            &&& start is Some && start->0 <= 0 ==> second_of(at) == 0 as real
            &&& start is Some && start->0 > 0 ==> second_of(at) == 0 as real || second_of(at)
                == ticked(start->0 as int, base)
            &&& start is Some && start->0 > 0 && made(
                base.product(start->0).0,
                base.product(start->0).1,
            ) is Some ==> second_of(at) == ticked(start->0 as int, base)
        }),
{
    lemma_integer(0);
    lemma_no_seconds();
    if start is Some && made(base.product(start->0).0, base.product(start->0).1) is Some {
        lemma_second(base.product(start->0).0, base.product(start->0).1);
    }
}

proof fn lemma_no_seconds()
    ensures
        0 as real / 1 as real == 0 as real,
{
    let r = 0 as real / 1 as real;
    lemma_ratio(0 as real, 1 as real, r);
    lemma_product_turns(r, 1 as real);
    lemma_ends_of_product(r);
}

} // verus!
