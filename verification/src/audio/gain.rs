//! A gain that changes over a clip, as an expression the mixer evaluates.

use crate::audio::speed::with_number;
use crate::digits::{fixed, fixed_text};
use crate::number::{difference, larger, num, Number, ZERO};
use crate::text::text_from;
use vstd::prelude::*;
use vstd::string::*;

verus! {

/// Straight segments per eased one, when a gain ride is flattened before it is
/// written: enough that the worst chord is far under what anyone can hear.
pub const EASE_STEPS: usize = 12;

/// One point of a flattened ride: a linear gain at a fraction of the clip's
/// length.
#[derive(Clone, Copy, Debug)]
pub struct GainKey {
    pub at: Number,
    pub value: Number,
}

/// A gain as it is written: never below silence.
pub open spec fn gain_text(value: Number) -> Seq<char> {
    fixed(larger(value, num(ZERO)), 6)
}

/// The clip's own clock as a fraction of its length.
pub open spec fn clock_text(duration: Number) -> Seq<char> {
    "(t/"@ + fixed(duration, 6) + ")"@
}

/// The straight run between two neighbours. Two at one instant have none, and
/// the later one's value stands.
pub open spec fn segment_text(a: GainKey, b: GainKey, clock: Seq<char>) -> Seq<char> {
    let span = difference(b.at, a.at);
    if span.at_most(num(ZERO)) {
        gain_text(b.value)
    } else {
        "("@ + gain_text(a.value) + "+("@ + fixed(
            difference(larger(b.value, num(ZERO)), larger(a.value, num(ZERO))),
            6,
        ) + ")*clip(("@ + clock + "-"@ + fixed(a.at, 6) + ")/"@ + fixed(span, 6) + ",0,1))"@
    }
}

/// "Until this instant, this; afterwards, that."
pub open spec fn until_text(
    clock: Seq<char>,
    at: Number,
    first: Seq<char>,
    rest: Seq<char>,
) -> Seq<char> {
    "if(lte("@ + clock + ","@ + fixed(at, 6) + "),"@ + first + ","@ + rest + ")"@
}

/// The ride from key `i` on: straight to each neighbour in turn, then the last
/// key's value held.
pub open spec fn ride_text(keys: Seq<GainKey>, i: int, clock: Seq<char>) -> Seq<char>
    decreases keys.len() - i,
{
    if i + 1 >= keys.len() {
        gain_text(keys.last().value)
    } else {
        until_text(
            clock,
            keys[i + 1].at,
            segment_text(keys[i], keys[i + 1], clock),
            ride_text(keys, i + 1, clock),
        )
    }
}

/// A gain that changes over a clip: the first key's value held before it, the
/// ride, the last key's value held after it. None where there are no keys and
/// the constant gain will do.
pub open spec fn ride_expression(keys: Seq<GainKey>, duration: Number) -> Option<Seq<char>> {
    if keys.len() == 0 {
        None
    } else if duration.at_most(num(ZERO)) {
        Some(gain_text(keys[0].value))
    } else {
        let clock = clock_text(duration);
        Some(until_text(clock, keys[0].at, gain_text(keys[0].value), ride_text(keys, 0, clock)))
    }
}

fn gain(value: Number) -> (s: String)
    ensures
        s@ == gain_text(value),
{
    text_from(&fixed_text(value.max(num(ZERO)), 6))
}

fn segment(a: GainKey, b: GainKey, clock: &str) -> (s: String)
    ensures
        s@ == segment_text(a, b, clock@),
{
    let span: Number = b.at.minus(a.at);
    if span.up_to(num(ZERO)) {
        return gain(b.value);
    }
    let mut s: String = "(".to_owned();
    s.append(gain(a.value).as_str());
    s.append("+(");
    let rise: Number = b.value.max(num(ZERO)).minus(a.value.max(num(ZERO)));
    s.append(text_from(&fixed_text(rise, 6)).as_str());
    s.append(")*clip((");
    s.append(clock);
    s.append("-");
    s.append(text_from(&fixed_text(a.at, 6)).as_str());
    s.append(")/");
    s.append(text_from(&fixed_text(span, 6)).as_str());
    s.append(",0,1))");
    s
}

fn until(clock: &str, at: Number, first: &str, rest: &str) -> (s: String)
    ensures
        s@ == until_text(clock@, at, first@, rest@),
{
    let mut s: String = "if(lte(".to_owned();
    s.append(clock);
    s.append(",");
    s.append(text_from(&fixed_text(at, 6)).as_str());
    s.append("),");
    s.append(first);
    s.append(",");
    s.append(rest);
    s.append(")");
    s
}

/// The expression for a gain that changes over a clip, or none where there are
/// no keys. Its clock is seconds from the clip's own start.
pub fn volume_expr(keys: &Vec<GainKey>, duration: Number) -> (r: Option<String>)
    ensures
        match r {
            Some(expr) => ride_expression(keys@, duration) == Some(expr@),
            None => ride_expression(keys@, duration) is None,
        },
{
    if keys.len() == 0 {
        return None;
    }
    if duration.up_to(num(ZERO)) {
        return Some(gain(keys[0].value));
    }
    let mut clock: String = with_number("(t/", duration, 6);
    clock.append(")");
    let last: usize = keys.len() - 1;
    // From the tail back: each step wraps what it has in "until this key, ride
    // this segment".
    let mut expr: String = gain(keys[last].value);
    let mut i: usize = last;
    while i > 0
        invariant
            i <= last,
            last == keys.len() - 1,
            clock@ == clock_text(duration),
            expr@ == ride_text(keys@, i as int, clock@),
        decreases i,
    {
        i = i - 1;
        let run: String = segment(keys[i], keys[i + 1], clock.as_str());
        expr = until(clock.as_str(), keys[i + 1].at, run.as_str(), expr.as_str());
    }
    let held: String = gain(keys[0].value);
    Some(until(clock.as_str(), keys[0].at, held.as_str(), expr.as_str()))
}

} // verus!
