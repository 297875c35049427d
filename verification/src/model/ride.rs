//! Rides: what a run of keys plays between its points, and how a run is
//! carried onto another stretch of time.
//!
//! The curve between two keys is the engine's to solve. Whoever edits hands
//! the engine in as a function from keys, a position and the value at rest to
//! the value there; everything else about a ride is decided here.

use crate::find::lemma_filter_step;
use crate::model::ease::part_of_ease;
use crate::model::keys::{linear, KeyEase, ParamKey};
use crate::number::{clamped, difference, num, quotient, sum, Number, ONE, ZERO};
use crate::ranges::KEY_EPSILON;
use vstd::prelude::*;

verus! {

/// What a run of keys is worth at a position, over a value at rest.
pub type Ride = spec_fn(Seq<ParamKey>, Number, Number) -> Number;

/// Whether an engine can be asked anything, and answers the same question the
/// same way.
pub open spec fn plays<F: Fn(&Vec<ParamKey>, Number, Number) -> Number>(engine: F) -> bool {
    &&& forall|keys: &Vec<ParamKey>, at: Number, rest: Number| #[trigger]
        call_requires(engine, (keys, at, rest))
    &&& forall|
        j: &Vec<ParamKey>,
        k: &Vec<ParamKey>,
        at: Number,
        rest: Number,
        v: Number,
        w: Number,
    | #[trigger]
        call_ensures(engine, (j, at, rest), v) && #[trigger] call_ensures(engine, (k, at, rest), w)
            && j@ == k@ ==> v == w
}

/// Whether the engine may answer `value`.
pub open spec fn could_play<F: Fn(&Vec<ParamKey>, Number, Number) -> Number>(
    engine: F,
    keys: Seq<ParamKey>,
    at: Number,
    rest: Number,
    value: Number,
) -> bool {
    exists|held: &Vec<ParamKey>|
        held@ == keys && #[trigger] call_ensures(engine, (held, at, rest), value)
}

/// The engine's answers, as a function.
pub open spec fn ride_of<F: Fn(&Vec<ParamKey>, Number, Number) -> Number>(engine: F) -> Ride {
    |keys: Seq<ParamKey>, at: Number, rest: Number|
        choose|value: Number| could_play(engine, keys, at, rest, value)
}

/// Asks the engine.
pub fn played<F: Fn(&Vec<ParamKey>, Number, Number) -> Number>(
    engine: &F,
    keys: &Vec<ParamKey>,
    at: Number,
    rest: Number,
) -> (value: Number)
    requires
        plays(*engine),
    ensures
        value == ride_of(*engine)(keys@, at, rest),
{
    let value: Number = engine(keys, at, rest);
    assert(could_play(*engine, keys@, at, rest, value));
    let ghost answer = ride_of(*engine)(keys@, at, rest);
    assert(could_play(*engine, keys@, at, rest, answer));
    value
}

// The window.

/// Whether a key stands before a window that opens at `a`.
pub open spec fn before_window(key: ParamKey, a: Number) -> bool {
    key.at.less(difference(a, num(KEY_EPSILON)))
}

/// Whether a key stands after a window that closes at `b`.
pub open spec fn after_window(key: ParamKey, b: Number) -> bool {
    sum(b, num(KEY_EPSILON)).less(key.at)
}

/// A key inside the window, measured over it.
pub open spec fn shifted(key: ParamKey, a: Number, b: Number) -> ParamKey {
    ParamKey {
        at: clamped(
            quotient(difference(key.at, a), difference(b, a)),
            num(ZERO),
            num(ONE),
        ),
        value: key.value,
        ease: key.ease,
    }
}

pub open spec fn inside(keys: Seq<ParamKey>, a: Number, b: Number) -> Seq<ParamKey> {
    keys.filter(|k: ParamKey| !before_window(k, a) && !after_window(k, b))
}

pub open spec fn past(keys: Seq<ParamKey>, a: Number, b: Number) -> Seq<ParamKey> {
    keys.filter(|k: ParamKey| !before_window(k, a) && after_window(k, b))
}

/// How far along the way from one position to another a third is, from zero to
/// one.
pub open spec fn reached(from: Number, to: Number, x: Number) -> Number {
    if x.at_most(from) {
        num(ZERO)
    } else if to.at_most(x) {
        num(ONE)
    } else {
        clamped(quotient(difference(x, from), difference(to, from)), num(ZERO), num(ONE))
    }
}

/// How a key is approached inside the window: by that part of its ease that the
/// window leaves of the way from the key before it. A way outside the window keeps
/// its ease.
pub open spec fn cut_ease(keys: Seq<ParamKey>, i: int, a: Number, b: Number) -> KeyEase {
    if i == 0 {
        keys[i].ease
    } else {
        let (from, to) = (keys[i - 1].at, keys[i].at);
        if b.at_most(from) || to.at_most(a) {
            keys[i].ease
        } else {
            keys[i].ease.part(reached(from, to, a), reached(from, to, b))
        }
    }
}

/// The keys, each approached as it is inside the window.
pub open spec fn cut_keys(keys: Seq<ParamKey>, a: Number, b: Number) -> Seq<ParamKey> {
    Seq::new(keys.len(), |i: int| ParamKey { ease: cut_ease(keys, i, a, b), ..keys[i] })
}

/// How the opening of a window is approached from the key before it, on the way to
/// the key after.
pub open spec fn lead_ease(keys: Seq<ParamKey>, i: int, a: Number) -> KeyEase {
    if i == 0 {
        keys[i].ease
    } else {
        keys[i].ease.part(num(ZERO), reached(keys[i - 1].at, keys[i].at, a))
    }
}

/// The keys, each approached as far as the window's opening.
pub open spec fn lead_keys(keys: Seq<ParamKey>, a: Number) -> Seq<ParamKey> {
    Seq::new(keys.len(), |i: int| ParamKey { ease: lead_ease(keys, i, a), ..keys[i] })
}

pub open spec fn ahead(keys: Seq<ParamKey>, a: Number) -> Seq<ParamKey> {
    keys.filter(|k: ParamKey| !before_window(k, a))
}

/// How the key on a window's opening is approached: as the way it lies on was, up to
/// there.
pub open spec fn opening_ease(keys: Seq<ParamKey>, a: Number) -> KeyEase {
    let after = ahead(lead_keys(keys, a), a);
    if after.len() > 0 {
        after[0].ease
    } else {
        linear()
    }
}

/// One run of keys over an old length, re-anchored to the window `(a, b)` of
/// that length. A key outside the window is replaced by one on the window's
/// edge carrying what the ride is worth there. A key whose way the window cuts is
/// approached by the part of its ease that is left, and so is the edge after; the
/// edge before keeps the part that is cut away, for the piece that comes before.
pub open spec fn rewindowed(
    keys: Seq<ParamKey>,
    a: Number,
    b: Number,
    ride: Ride,
    rest: Number,
) -> Seq<ParamKey> {
    let head = if exists|i: int| 0 <= i < keys.len() && before_window(#[trigger] keys[i], a) {
        seq![
            ParamKey {
                at: num(ZERO),
                value: ride(keys, a, rest),
                ease: opening_ease(keys, a),
            },
        ]
    } else {
        seq![]
    };
    let cut = cut_keys(keys, a, b);
    let body = inside(cut, a, b).map_values(|k: ParamKey| shifted(k, a, b));
    let tail = if past(cut, a, b).len() > 0 {
        seq![
            ParamKey { at: num(ONE), value: ride(keys, b, rest), ease: past(cut, a, b)[0].ease },
        ]
    } else {
        seq![]
    };
    head + body + tail
}

fn reach(from: Number, to: Number, x: Number) -> (r: Number)
    ensures
        r == reached(from, to, x),
{
    if x.up_to(from) {
        num(ZERO)
    } else if to.up_to(x) {
        num(ONE)
    } else {
        x.minus(from).over(to.minus(from)).clamp(num(ZERO), num(ONE))
    }
}

fn ease_inside(keys: &Vec<ParamKey>, i: usize, a: Number, b: Number) -> (r: KeyEase)
    requires
        i < keys.len(),
    ensures
        r == cut_ease(keys@, i as int, a, b),
{
    let ease: KeyEase = keys[i].ease;
    if i == 0 {
        return ease;
    }
    let from: Number = keys[i - 1].at;
    let to: Number = keys[i].at;
    if b.up_to(from) || to.up_to(a) {
        return ease;
    }
    part_of_ease(ease, reach(from, to, a), reach(from, to, b))
}

fn ease_up_to(keys: &Vec<ParamKey>, i: usize, a: Number) -> (r: KeyEase)
    requires
        i < keys.len(),
    ensures
        r == lead_ease(keys@, i as int, a),
{
    let ease: KeyEase = keys[i].ease;
    if i == 0 {
        return ease;
    }
    part_of_ease(ease, num(ZERO), reach(keys[i - 1].at, keys[i].at, a))
}

/// Re-anchors one run of keys to the window `(a, b)` of its old length.
pub fn rewindow<F: Fn(&Vec<ParamKey>, Number, Number) -> Number>(
    keys: &Vec<ParamKey>,
    a: Number,
    b: Number,
    engine: &F,
    rest: Number,
) -> (r: Vec<ParamKey>)
    requires
        plays(*engine),
    ensures
        r@ == rewindowed(keys@, a, b, ride_of(*engine), rest),
{
    let span: Number = b.minus(a);
    let open: Number = a.minus(num(KEY_EPSILON));
    let close: Number = b.plus(num(KEY_EPSILON));
    let ghost held = |k: ParamKey| !before_window(k, a) && !after_window(k, b);
    let ghost late = |k: ParamKey| !before_window(k, a) && after_window(k, b);
    let ghost moved = |k: ParamKey| shifted(k, a, b);
    let ghost cut = cut_keys(keys@, a, b);
    let ghost lead = lead_keys(keys@, a);
    let ghost early = |k: ParamKey| !before_window(k, a);
    let mut body: Vec<ParamKey> = Vec::new();
    let mut earlier: bool = false;
    let mut first_ahead: Option<KeyEase> = None;
    let mut first_after: Option<KeyEase> = None;
    let mut i: usize = 0;
    proof {
        reveal(Seq::filter);
        assert(cut.take(0).filter(held).map_values(moved) =~= Seq::<ParamKey>::empty());
        assert(cut.take(0).filter(late) =~= Seq::<ParamKey>::empty());
        assert(lead.take(0).filter(early) =~= Seq::<ParamKey>::empty());
    }
    while i < keys.len()
        invariant
            i <= keys.len(),
            span == difference(b, a),
            open == difference(a, num(KEY_EPSILON)),
            close == sum(b, num(KEY_EPSILON)),
            held == (|k: ParamKey| !before_window(k, a) && !after_window(k, b)),
            late == (|k: ParamKey| !before_window(k, a) && after_window(k, b)),
            moved == (|k: ParamKey| shifted(k, a, b)),
            cut == cut_keys(keys@, a, b),
            lead == lead_keys(keys@, a),
            early == (|k: ParamKey| !before_window(k, a)),
            match first_ahead {
                Some(ease) => lead.take(i as int).filter(early).len() > 0 && lead.take(
                    i as int,
                ).filter(early)[0].ease == ease,
                None => lead.take(i as int).filter(early).len() == 0,
            },
            earlier == (exists|j: int| 0 <= j < i && before_window(#[trigger] keys[j], a)),
            body@ == cut.take(i as int).filter(held).map_values(moved),
            match first_after {
                Some(ease) => cut.take(i as int).filter(late).len() > 0 && cut.take(
                    i as int,
                ).filter(late)[0].ease == ease,
                None => cut.take(i as int).filter(late).len() == 0,
            },
        decreases keys.len() - i,
    {
        let key: ParamKey = keys[i];
        proof {
            lemma_filter_step(cut, held, i as int);
            lemma_filter_step(cut, late, i as int);
            lemma_filter_step(lead, early, i as int);
            let next = cut[i as int];
            assert(cut.take(i as int).filter(held).push(next).map_values(moved) =~= cut.take(
                i as int,
            ).filter(held).map_values(moved).push(moved(next)));
        }
        if key.at.below(open) {
            earlier = true;
        } else {
            if first_ahead.is_none() {
                first_ahead = Some(ease_up_to(keys, i, a));
            }
            if close.below(key.at) {
                if first_after.is_none() {
                    first_after = Some(ease_inside(keys, i, a, b));
                }
            } else {
                body.push(
                    ParamKey {
                        at: key.at.minus(a).over(span).clamp(num(ZERO), num(ONE)),
                        value: key.value,
                        ease: ease_inside(keys, i, a, b),
                    },
                );
            }
        }
        i = i + 1;
    }
    assert(cut.take(cut.len() as int) =~= cut);
    assert(lead.take(lead.len() as int) =~= lead);
    let mut out: Vec<ParamKey> = Vec::new();
    if earlier {
        let ease: KeyEase = match first_ahead {
            Some(ease) => ease,
            None => linear(),
        };
        out.push(ParamKey { at: num(ZERO), value: played(engine, keys, a, rest), ease });
    }
    out.append(&mut body);
    match first_after {
        Some(ease) => {
            out.push(ParamKey { at: num(ONE), value: played(engine, keys, b, rest), ease });
        },
        None => {},
    }
    assert(out@ =~= rewindowed(keys@, a, b, ride_of(*engine), rest));
    out
}

} // verus!
