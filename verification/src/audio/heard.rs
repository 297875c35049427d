//! What a written gain ride comes to, read as a function of time.
//!
//! The mixer evaluates the text, so what is promised is what it evaluates to: the ride
//! goes through its keys and straight from each to the next.

use crate::audio::gain::{
    clock_text, gain_text, ride_expression, ride_text, segment_text, until_text, GainKey,
};
use crate::digits::fixed;
use crate::measure::{apart_by, lemma_counted, lemma_difference_measured, lemma_least, magnitude};
use crate::model::exact::{
    along, exact, lemma_ends, lemma_ends_of_product, lemma_exact_order, lemma_product_no_less,
    lemma_product_turns, lemma_ratio,
};
use crate::model::nearly::{grain, lemma_grain};
use crate::number::{difference, larger, lemma_units_monotonic, num, Number, INFINITE, ZERO};
use crate::reading::{lemma_written_to_six_places, micro, reads};
use crate::rounding::{lemma_difference_close, lemma_ranks_as_valued, PARTS};
use vstd::arithmetic::power2::*;
use vstd::prelude::*;
use vstd::string::*;

verus! {

/// An expression as the mixer reads it.
pub enum Term {
    /// A decimal.
    Literal(Seq<char>),
    /// The seconds from the clip's start.
    Seconds,
    Group(Box<Term>),
    Plus(Box<Term>, Box<Term>),
    Minus(Box<Term>, Box<Term>),
    Times(Box<Term>, Box<Term>),
    Over(Box<Term>, Box<Term>),
    /// Held between nothing and one.
    Clip(Box<Term>),
    /// The third where the first is no more than the second, else the fourth.
    UpTo(Box<Term>, Box<Term>, Box<Term>, Box<Term>),
}

/// How an expression is written.
pub open spec fn written(e: Term) -> Seq<char>
    decreases e,
{
    match e {
        Term::Literal(text) => text,
        Term::Seconds => "t"@,
        Term::Group(a) => "("@ + written(*a) + ")"@,
        Term::Plus(a, b) => written(*a) + "+"@ + written(*b),
        Term::Minus(a, b) => written(*a) + "-"@ + written(*b),
        Term::Times(a, b) => written(*a) + "*"@ + written(*b),
        Term::Over(a, b) => written(*a) + "/"@ + written(*b),
        Term::Clip(a) => "clip("@ + written(*a) + ",0,1)"@,
        Term::UpTo(a, b, x, y) => "if(lte("@ + written(*a) + ","@ + written(*b) + "),"@ + written(
            *x,
        ) + ","@ + written(*y) + ")"@,
    }
}

/// What an expression is worth so many seconds in.
pub open spec fn worth_at(e: Term, t: real) -> real
    decreases e,
{
    match e {
        Term::Literal(text) => reads(text),
        Term::Seconds => t,
        Term::Group(a) => worth_at(*a, t),
        Term::Plus(a, b) => worth_at(*a, t) + worth_at(*b, t),
        Term::Minus(a, b) => worth_at(*a, t) - worth_at(*b, t),
        Term::Times(a, b) => worth_at(*a, t) * worth_at(*b, t),
        Term::Over(a, b) => worth_at(*a, t) / worth_at(*b, t),
        Term::Clip(a) => unit(worth_at(*a, t)),
        Term::UpTo(a, b, x, y) => if worth_at(*a, t) <= worth_at(*b, t) {
            worth_at(*x, t)
        } else {
            worth_at(*y, t)
        },
    }
}

/// A value held between nothing and one.
pub open spec fn unit(x: real) -> real {
    if x < 0 as real {
        0 as real
    } else if x > 1 as real {
        1 as real
    } else {
        x
    }
}

/// How loud a key is: never less than silence.
pub open spec fn loudness(key: GainKey) -> real {
    if exact(key.value) < 0 as real {
        0 as real
    } else {
        exact(key.value)
    }
}

/// Whether a point is on the straight run from a key to the next.
pub open spec fn on_run(keys: Seq<GainKey>, i: int, part: real, x: real, v: real) -> bool {
    &&& 0 <= i < keys.len() - 1
    &&& 0 as real <= part <= 1 as real
    &&& x == along(exact(keys[i].at), exact(keys[i + 1].at), part)
    &&& v == along(loudness(keys[i]), loudness(keys[i + 1]), part)
}

/// Whether a point is on the ride: held up to the first key and from the last, and
/// straight from each key to the next.
pub open spec fn on_ride(keys: Seq<GainKey>, x: real, v: real) -> bool {
    ||| x <= exact(keys[0].at) && v == loudness(keys[0])
    ||| x >= exact(keys.last().at) && v == loudness(keys.last())
    ||| exists|i: int, part: real| #[trigger] on_run(keys, i, part, x, v)
}

/// Whether a point is on the ride but for what the last place written leaves out.
pub open spec fn nearly_on_ride(keys: Seq<GainKey>, x: real, v: real, top: real) -> bool {
    exists|y: real, w: real| #[trigger]
        on_ride(keys, y, w) && apart_by(x, y, 2 as real * micro()) && apart_by(
            v,
            w,
            micro() + grain() * top,
        )
}

/// Keys a ride can be made of: in order along the clip, and none louder than this.
pub open spec fn ridden(keys: Seq<GainKey>, top: real) -> bool {
    &&& keys.len() > 0
    &&& top >= 0 as real
    &&& forall|i: int|
        0 <= i < keys.len() ==> {
            &&& (#[trigger] keys[i]).at.finite()
            &&& keys[i].value.finite()
            &&& 0 as real <= exact(keys[i].at)
            &&& exact(keys[i].at) <= 1 as real
            &&& exact(keys[i].value) <= top
        }
    &&& forall|i: int, j: int|
        0 <= i <= j < keys.len() ==> exact((#[trigger] keys[i]).at) <= exact(
            (#[trigger] keys[j]).at,
        )
}

spec fn literal(x: Number) -> Term {
    Term::Literal(fixed(x, 6))
}

spec fn level(key: GainKey) -> Term {
    Term::Literal(gain_text(key.value))
}

spec fn clock(duration: Number) -> Term {
    Term::Group(Box::new(Term::Over(Box::new(Term::Seconds), Box::new(literal(duration)))))
}

/// The straight run between two neighbours.
spec fn run(a: GainKey, b: GainKey, duration: Number) -> Term {
    let span = difference(b.at, a.at);
    if span.at_most(num(ZERO)) {
        level(b)
    } else {
        Term::Group(
            Box::new(
                Term::Plus(
                    Box::new(level(a)),
                    Box::new(
                        Term::Times(
                            Box::new(
                                Term::Group(
                                    Box::new(
                                        literal(
                                            difference(
                                                larger(b.value, num(ZERO)),
                                                larger(a.value, num(ZERO)),
                                            ),
                                        ),
                                    ),
                                ),
                            ),
                            Box::new(
                                Term::Clip(
                                    Box::new(
                                        Term::Over(
                                            Box::new(
                                                Term::Group(
                                                    Box::new(
                                                        Term::Minus(
                                                            Box::new(clock(duration)),
                                                            Box::new(literal(a.at)),
                                                        ),
                                                    ),
                                                ),
                                            ),
                                            Box::new(literal(span)),
                                        ),
                                    ),
                                ),
                            ),
                        ),
                    ),
                ),
            ),
        )
    }
}

spec fn until(duration: Number, at: Number, first: Term, rest: Term) -> Term {
    Term::UpTo(
        Box::new(clock(duration)),
        Box::new(literal(at)),
        Box::new(first),
        Box::new(rest),
    )
}

/// The ride from a key on.
spec fn from_key(keys: Seq<GainKey>, i: int, duration: Number) -> Term
    decreases keys.len() - i,
{
    if i + 1 >= keys.len() {
        level(keys.last())
    } else {
        until(
            duration,
            keys[i + 1].at,
            run(keys[i], keys[i + 1], duration),
            from_key(keys, i + 1, duration),
        )
    }
}

proof fn lemma_clock_written(duration: Number)
    ensures
        written(clock(duration)) == clock_text(duration),
{
    reveal_with_fuel(written, 4);
    reveal_strlit("(t/");
    reveal_strlit("(");
    reveal_strlit("t");
    reveal_strlit("/");
    let d = fixed(duration, 6);
    assert("(t/"@ =~= "("@ + ("t"@ + "/"@));
    assert("("@ + ("t"@ + "/"@ + d) + ")"@ =~= "(t/"@ + d + ")"@);
}

/// The marks of a run, one by one and together.
proof fn lemma_marks()
    ensures
        "+("@ == "+"@ + "("@,
        ")*clip(("@ == ")"@ + "*"@ + "clip("@ + "("@,
        ")/"@ == ")"@ + "/"@,
        ",0,1))"@ == ",0,1)"@ + ")"@,
{
    reveal_strlit("+(");
    reveal_strlit("+");
    reveal_strlit("(");
    reveal_strlit(")*clip((");
    reveal_strlit(")");
    reveal_strlit("*");
    reveal_strlit("clip(");
    reveal_strlit(")/");
    reveal_strlit("/");
    reveal_strlit(",0,1))");
    reveal_strlit(",0,1)");
    assert("+("@ =~= "+"@ + "("@);
    assert(")*clip(("@ =~= ")"@ + "*"@ + "clip("@ + "("@);
    assert(")/"@ =~= ")"@ + "/"@);
    assert(",0,1))"@ =~= ",0,1)"@ + ")"@);
}

/// Texts put together in another order.
proof fn lemma_regrouped(
    open: Seq<char>,
    close: Seq<char>,
    va: Seq<char>,
    plus: Seq<char>,
    rise: Seq<char>,
    times: Seq<char>,
    word: Seq<char>,
    inner: Seq<char>,
    held: Seq<char>,
)
    ensures
        open + (va + plus + ((open + rise + close) + times + (word + inner + held))) + close
            == open + va + (plus + open) + rise + (close + times + word) + inner + (held + close),
{
    let x = (open + rise + close) + times + (word + inner + held);
    let y = open + rise + (close + times + word) + inner + held;
    assert(x =~= y);
    assert(open + (va + plus + y) + close =~= open + va + (plus + open) + rise + (close + times
        + word) + inner + (held + close));
}

/// And so is what is divided.
proof fn lemma_regrouped_inside(
    front: Seq<char>,
    open: Seq<char>,
    c: Seq<char>,
    less: Seq<char>,
    at: Seq<char>,
    close: Seq<char>,
    over: Seq<char>,
    span: Seq<char>,
)
    ensures
        front + ((open + (c + less + at) + close) + over + span) == (front + open) + c + less + at
            + (close + over) + span,
{
    assert(front + ((open + (c + less + at) + close) + over + span) =~= (front + open) + c + less
        + at + (close + over) + span);
}

proof fn lemma_run_written(a: GainKey, b: GainKey, duration: Number)
    ensures
        written(run(a, b, duration)) == segment_text(a, b, clock_text(duration)),
{
    lemma_clock_written(duration);
    let span = difference(b.at, a.at);
    if !span.at_most(num(ZERO)) {
        let much = difference(larger(b.value, num(ZERO)), larger(a.value, num(ZERO)));
        let va = gain_text(a.value);
        let rise = fixed(much, 6);
        let c = clock_text(duration);
        let at = fixed(a.at, 6);
        let sp = fixed(span, 6);
        let since = Term::Minus(Box::new(clock(duration)), Box::new(literal(a.at)));
        let part = Term::Over(Box::new(Term::Group(Box::new(since))), Box::new(literal(span)));
        let slope = Term::Group(Box::new(literal(much)));
        let climb = Term::Times(Box::new(slope), Box::new(Term::Clip(Box::new(part))));
        let all = Term::Plus(Box::new(level(a)), Box::new(climb));
        assert(run(a, b, duration) == Term::Group(Box::new(all)));
        assert(written(literal(a.at)) == at);
        assert(written(literal(span)) == sp);
        assert(written(literal(much)) == rise);
        assert(written(level(a)) == va);
        assert(written(since) == c + "-"@ + at);
        assert(written(Term::Group(Box::new(since))) == "("@ + (c + "-"@ + at) + ")"@);
        let inner = ("("@ + (c + "-"@ + at) + ")"@) + "/"@ + sp;
        assert(written(part) == inner);
        let held = "clip("@ + inner + ",0,1)"@;
        assert(written(Term::Clip(Box::new(part))) == held);
        assert(written(slope) == "("@ + rise + ")"@);
        assert(written(climb) == ("("@ + rise + ")"@) + "*"@ + held);
        assert(written(all) == va + "+"@ + written(climb));
        assert(written(run(a, b, duration)) == "("@ + (va + "+"@ + written(climb)) + ")"@);
        lemma_marks();
        lemma_regrouped("("@, ")"@, va, "+"@, rise, "*"@, "clip("@, inner, ",0,1)"@);
        let front = "("@ + va + "+("@ + rise + (")"@ + "*"@ + "clip("@);
        lemma_regrouped_inside(front, "("@, c, "-"@, at, ")"@, "/"@, sp);
        let start = "("@ + va + "+("@ + rise;
        assert(start + (")"@ + "*"@ + "clip("@) + "("@ =~= start + (")"@ + "*"@ + "clip("@ + "("@));
    }
}

proof fn lemma_until_written(duration: Number, at: Number, first: Term, rest: Term)
    ensures
        written(until(duration, at, first, rest)) == until_text(
            clock_text(duration),
            at,
            written(first),
            written(rest),
        ),
{
    lemma_clock_written(duration);
    reveal_with_fuel(written, 2);
}

proof fn lemma_ride_written(keys: Seq<GainKey>, i: int, duration: Number)
    requires
        keys.len() > 0,
    ensures
        written(from_key(keys, i, duration)) == ride_text(keys, i, clock_text(duration)),
    decreases keys.len() - i,
{
    if i + 1 < keys.len() {
        lemma_ride_written(keys, i + 1, duration);
        lemma_run_written(keys[i], keys[i + 1], duration);
        lemma_until_written(
            duration,
            keys[i + 1].at,
            run(keys[i], keys[i + 1], duration),
            from_key(keys, i + 1, duration),
        );
    }
}

/// A grain is far less than the last place written.
proof fn lemma_grain_unwritten()
    ensures
        grain() > 0 as real,
        2 as real * grain() <= micro(),
{
    lemma_grain();
    lemma_product_no_less(2000000 as real, PARTS as real, grain());
}

/// What the level of a key is read as.
proof fn lemma_level(key: GainKey)
    requires
        key.value.finite(),
    ensures
        larger(key.value, num(ZERO)).finite(),
        exact(larger(key.value, num(ZERO))) == loudness(key),
        apart_by(reads(gain_text(key.value)), loudness(key), micro() / 2 as real),
{
    let zero = num(ZERO);
    lemma_ends();
    lemma_ranks_as_valued(key.value, zero);
    lemma_exact_order(key.value, zero);
    lemma_exact_order(zero, key.value);
    lemma_written_to_six_places(larger(key.value, zero));
}

/// The difference of two numbers that are not negative.
pub proof fn lemma_apart(a: Number, b: Number, most: real)
    requires
        a.finite(),
        b.finite(),
        0 as real <= exact(a) <= most,
        0 as real <= exact(b) <= most,
    ensures
        difference(b, a).finite(),
        apart_by(exact(difference(b, a)), exact(b) - exact(a), grain() * most),
{
    let p = pow2(1074) as real;
    lemma_least();
    lemma_counted(a);
    lemma_counted(b);
    lemma_product_no_less(0 as real, exact(a), p);
    lemma_product_no_less(0 as real, exact(b), p);
    lemma_units_monotonic(a.magnitude(), (INFINITE - 1) as nat);
    lemma_units_monotonic(b.magnitude(), (INFINITE - 1) as nat);
    lemma_difference_close(b, a);
    lemma_difference_measured(b, a);
    let d = magnitude(exact(b) - exact(a));
    let g = grain();
    lemma_grain();
    lemma_product_no_less(d, most, g);
    lemma_product_turns(d, g);
    lemma_product_turns(most, g);
}

/// A run read at a part of the way is the level there.
proof fn lemma_run_level(va: real, vb: real, from: real, rise: real, c: real, off: real)
    requires
        apart_by(from, va, micro() / 2 as real),
        apart_by(rise, vb - va, micro() / 2 as real + off),
        0 as real <= c <= 1 as real,
        off >= 0 as real,
    ensures
        apart_by(from + rise * c, along(va, vb, c), micro() + off),
{
    reveal(along);
    let d = rise - (vb - va);
    let bound = micro() / 2 as real + off;
    assert(rise * c - c * (vb - va) == c * d) by (nonlinear_arith)
        requires
            d == rise - (vb - va),
    ;
    assert(-bound <= c * d <= bound) by (nonlinear_arith)
        requires
            -bound <= d <= bound,
            0 as real <= c <= 1 as real,
            bound >= 0 as real,
    ;
}

/// And stands where it is read.
proof fn lemma_run_place(a: real, b: real, start: real, end: real, span: real, x: real, c: real)
    requires
        a <= b,
        apart_by(start, a, micro() / 2 as real),
        apart_by(end, b, micro() / 2 as real),
        apart_by(span, b - a, micro()),
        span >= 0 as real,
        start < x <= end,
        c == unit((x - start) / span),
    ensures
        apart_by(x, along(a, b, c), 2 as real * micro()),
{
    reveal(along);
    let w = b - a;
    if span > 0 as real {
        let r = (x - start) / span;
        lemma_ratio(x - start, span, r);
        assert(r > 0 as real) by (nonlinear_arith)
            requires
                r * span > 0 as real,
                span > 0 as real,
        ;
        if r <= 1 as real {
            let d = w - span;
            assert(r * w == r * span + r * d) by (nonlinear_arith)
                requires
                    d == w - span,
            ;
            let m = micro();
            assert(-m <= r * d <= m) by (nonlinear_arith)
                requires
                    -m <= d <= m,
                    0 as real <= r <= 1 as real,
                    m >= 0 as real,
            ;
        } else {
            assert(r * span > span) by (nonlinear_arith)
                requires
                    r > 1 as real,
                    span > 0 as real,
            ;
            assert(1 as real * w == w);
        }
    } else {
        assert(0 as real <= c * w <= w) by (nonlinear_arith)
            requires
                0 as real <= c <= 1 as real,
                w >= 0 as real,
        ;
    }
}

proof fn lemma_clock_worth(duration: Number, t: real)
    ensures
        worth_at(clock(duration), t) == t / reads(fixed(duration, 6)),
{
    reveal_with_fuel(worth_at, 4);
}

/// A run between two neighbours is on the ride wherever it is read.
proof fn lemma_run_heard(keys: Seq<GainKey>, i: int, duration: Number, t: real, top: real)
    requires
        ridden(keys, top),
        0 <= i < keys.len() - 1,
        reads(fixed(keys[i].at, 6)) < t / reads(fixed(duration, 6)) <= reads(
            fixed(keys[i + 1].at, 6),
        ),
    ensures
        nearly_on_ride(
            keys,
            t / reads(fixed(duration, 6)),
            worth_at(run(keys[i], keys[i + 1], duration), t),
            top,
        ),
{
    let a = keys[i];
    let b = keys[i + 1];
    let x = t / reads(fixed(duration, 6));
    let span = difference(b.at, a.at);
    let g = grain();
    lemma_grain_unwritten();
    lemma_written_to_six_places(a.at);
    lemma_written_to_six_places(b.at);
    lemma_level(a);
    lemma_level(b);
    lemma_apart(a.at, b.at, 1 as real);
    assert(g * (1 as real) == g);
    lemma_product_no_less(0 as real, g, top);
    lemma_ends_of_product(top);
    lemma_ends();
    lemma_ranks_as_valued(span, num(ZERO));
    lemma_exact_order(span, num(ZERO));
    lemma_exact_order(num(ZERO), span);
    let ea = exact(a.at);
    let eb = exact(b.at);
    let va = loudness(a);
    let vb = loudness(b);
    if span.at_most(num(ZERO)) {
        let w = worth_at(run(a, b, duration), t);
        assert(w == reads(gain_text(b.value)));
        assert(along(ea, eb, 1 as real) == eb && along(va, vb, 1 as real) == vb) by {
            reveal(along);
            assert(1 as real * (eb - ea) == eb - ea);
            assert(1 as real * (vb - va) == vb - va);
        }
        assert(on_run(keys, i, 1 as real, eb, vb));
        assert(on_ride(keys, eb, vb));
    } else {
        let more = difference(larger(b.value, num(ZERO)), larger(a.value, num(ZERO)));
        lemma_apart(larger(a.value, num(ZERO)), larger(b.value, num(ZERO)), top);
        lemma_written_to_six_places(more);
        lemma_written_to_six_places(span);
        let c = unit((x - reads(fixed(a.at, 6))) / reads(fixed(span, 6)));
        lemma_run_worth(a, b, duration, t);
        lemma_run_level(va, vb, reads(gain_text(a.value)), reads(fixed(more, 6)), c, g * top);
        lemma_run_place(
            ea,
            eb,
            reads(fixed(a.at, 6)),
            reads(fixed(b.at, 6)),
            reads(fixed(span, 6)),
            x,
            c,
        );
        let y = along(ea, eb, c);
        let w = along(va, vb, c);
        assert(on_run(keys, i, c, y, w));
        assert(on_ride(keys, y, w));
    }
}

proof fn lemma_run_worth(a: GainKey, b: GainKey, duration: Number, t: real)
    requires
        !difference(b.at, a.at).at_most(num(ZERO)),
    ensures
        worth_at(run(a, b, duration), t) == reads(gain_text(a.value)) + reads(
            fixed(difference(larger(b.value, num(ZERO)), larger(a.value, num(ZERO))), 6),
        ) * unit(
            (t / reads(fixed(duration, 6)) - reads(fixed(a.at, 6))) / reads(
                fixed(difference(b.at, a.at), 6),
            ),
        ),
{
    lemma_clock_worth(duration, t);
    reveal_with_fuel(worth_at, 9);
}

proof fn lemma_ride_heard(keys: Seq<GainKey>, i: int, duration: Number, t: real, top: real)
    requires
        ridden(keys, top),
        0 <= i < keys.len(),
        reads(fixed(keys[i].at, 6)) < t / reads(fixed(duration, 6)),
    ensures
        nearly_on_ride(
            keys,
            t / reads(fixed(duration, 6)),
            worth_at(from_key(keys, i, duration), t),
            top,
        ),
    decreases keys.len() - i,
{
    let x = t / reads(fixed(duration, 6));
    let w = worth_at(from_key(keys, i, duration), t);
    lemma_grain_unwritten();
    lemma_product_no_less(0 as real, grain(), top);
    lemma_ends_of_product(top);
    if i + 1 >= keys.len() {
        let key = keys.last();
        lemma_level(key);
        lemma_written_to_six_places(key.at);
        let y = if x < exact(key.at) {
            exact(key.at)
        } else {
            x
        };
        assert(on_ride(keys, y, loudness(key)));
    } else {
        let first = run(keys[i], keys[i + 1], duration);
        let rest = from_key(keys, i + 1, duration);
        lemma_clock_worth(duration, t);
        assert(worth_at(literal(keys[i + 1].at), t) == reads(fixed(keys[i + 1].at, 6)));
        assert(w == if x <= reads(fixed(keys[i + 1].at, 6)) {
            worth_at(first, t)
        } else {
            worth_at(rest, t)
        });
        if x <= reads(fixed(keys[i + 1].at, 6)) {
            lemma_run_heard(keys, i, duration, t, top);
        } else {
            lemma_ride_heard(keys, i + 1, duration, t, top);
        }
    }
}

/// Read as a function of time, a written ride is its keys joined by straight runs, with
/// the first key's level held before it and the last key's after it, none of them below
/// silence. It goes through every key at that key's instant, and between two keys it
/// stays between their levels. It is off by no more than six places can say.
pub proof fn lemma_a_written_ride_goes_through_its_keys(
    keys: Seq<GainKey>,
    duration: Number,
    top: real,
) -> (e: Term)
    requires
        ridden(keys, top),
        duration.finite(),
        exact(duration) > 0 as real,
    ensures
        ride_expression(keys, duration) == Some(written(e)),
        forall|t: real|
            nearly_on_ride(
                keys,
                t / reads(fixed(duration, 6)),
                #[trigger] worth_at(e, t),
                top,
            ),
{
    let first = level(keys[0]);
    let rest = from_key(keys, 0, duration);
    let e = until(duration, keys[0].at, first, rest);
    lemma_ends();
    lemma_exact_order(duration, num(ZERO));
    lemma_ride_written(keys, 0, duration);
    lemma_until_written(duration, keys[0].at, first, rest);
    lemma_grain_unwritten();
    lemma_product_no_less(0 as real, grain(), top);
    lemma_ends_of_product(top);
    assert forall|t: real|
        nearly_on_ride(
            keys,
            t / reads(fixed(duration, 6)),
            #[trigger] worth_at(e, t),
            top,
        ) by {
        let x = t / reads(fixed(duration, 6));
        let key = keys[0];
        lemma_clock_worth(duration, t);
        assert(worth_at(literal(key.at), t) == reads(fixed(key.at, 6)));
        assert(worth_at(e, t) == if x <= reads(fixed(key.at, 6)) {
            worth_at(first, t)
        } else {
            worth_at(rest, t)
        });
        if x <= reads(fixed(key.at, 6)) {
            lemma_level(key);
            lemma_written_to_six_places(key.at);
            let y = if x > exact(key.at) {
                exact(key.at)
            } else {
                x
            };
            assert(on_ride(keys, y, loudness(key)));
        } else {
            lemma_ride_heard(keys, 0, duration, t, top);
        }
    }
    e
}

} // verus!
