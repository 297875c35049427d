//! What a run of keys plays, taken exactly: the first key's value up to the first
//! key, the last one's from the last, and between two keys what the later one's
//! ease draws from one to the other.

use crate::model::bezier::cubic;
use crate::model::ease::parameter;
use crate::model::exact::{along, exact};
use crate::model::keys::{KeyEase, ParamKey};
use crate::model::nearly::{grain, held};
use crate::model::ride::{after_window, before_window, reached, Ride};
use crate::number::{num, Number, ONE, ZERO};
use crate::ranges::in_clip;
use vstd::prelude::*;

verus! {

/// Whether an ease draws the straight line.
pub open spec fn lined(ease: KeyEase) -> bool {
    ease.made_sane().straight()
}

/// How far along the way to a key its ease is, and how high, at a parameter.
pub open spec fn shape_x(ease: KeyEase, t: real) -> real {
    if lined(ease) {
        t
    } else {
        cubic(exact(ease.made_sane().x1), exact(ease.made_sane().x2), t)
    }
}

pub open spec fn shape_y(ease: KeyEase, t: real) -> real {
    if lined(ease) {
        t
    } else {
        cubic(exact(ease.made_sane().y1), exact(ease.made_sane().y2), t)
    }
}

/// Whether a point is what the ease of the next key draws at a parameter.
pub open spec fn on_segment(
    keys: Seq<ParamKey>,
    i: int,
    t: real,
    at: real,
    value: real,
) -> bool {
    let ease = keys[i + 1].ease;
    &&& 0 <= i < keys.len() - 1
    &&& 0 as real <= t <= 1 as real
    &&& at == along(exact(keys[i].at), exact(keys[i + 1].at), shape_x(ease, t))
    &&& value == along(exact(keys[i].value), exact(keys[i + 1].value), shape_y(ease, t))
}

/// Whether a ride is worth `value` at a position.
pub open spec fn on_ride(keys: Seq<ParamKey>, at: real, value: real) -> bool {
    ||| keys.len() > 0 && at <= exact(keys[0].at) && value == exact(keys[0].value)
    ||| keys.len() > 0 && at >= exact(keys.last().at) && value == exact(keys.last().value)
    ||| exists|i: int, t: real| #[trigger] on_segment(keys, i, t, at, value)
}

/// Whether a ride is worth `value` at a position, but for a slip of the position
/// and some slack in the value.
pub open spec fn heard(
    keys: Seq<ParamKey>,
    at: real,
    value: real,
    slip: real,
    slack: real,
) -> bool {
    exists|x: real, w: real| #[trigger]
        on_ride(keys, x, w) && -slip <= x - at <= slip && -slack <= w - value <= slack
}

/// Whether an ease's control points are in sight of the square.
pub open spec fn tame(ease: KeyEase) -> bool {
    let sane = ease.made_sane();
    held(sane.y1, 16) && held(sane.y2, 16)
}

/// Whether keys can be played: each at a point of the clip, no two of them at one
/// position, and each approached straight or by a tame ease.
pub open spec fn playable(keys: Seq<ParamKey>) -> bool {
    &&& keys.len() > 0
    &&& forall|i: int|
        0 <= i < keys.len() ==> (#[trigger] keys[i]).valid() && (lined(keys[i].ease) || tame(
            keys[i].ease,
        ))
    &&& forall|i: int, j: int|
        0 <= i < j < keys.len() ==> (#[trigger] keys[i]).at.less((#[trigger] keys[j]).at)
}

/// Whether every key is approached straight.
pub open spec fn all_lined(keys: Seq<ParamKey>) -> bool {
    forall|i: int| 0 <= i < keys.len() ==> lined((#[trigger] keys[i]).ease)
}

/// Whether a key stands clear of a window's edges: past one of them by more than
/// two keys may be apart and count as one, or inside.
pub open spec fn clear(key: ParamKey, a: Number, b: Number) -> bool {
    before_window(key, a) || after_window(key, b) || (a.at_most(key.at) && key.at.at_most(b))
}

/// Whether the way to a key, where the window cuts it, leaves a part that can be
/// told: it does not end as high as it starts nor come out straight, its control
/// points lie between its ends and reach no further than `reach` times as high, and
/// the values differ by no more than `swing`. The points lie between the ends
/// whenever those of the whole way are in order.
pub open spec fn told(
    keys: Seq<ParamKey>,
    i: int,
    a: Number,
    b: Number,
    reach: real,
    swing: real,
) -> bool {
    let (from, to) = (keys[i - 1].at, keys[i].at);
    let curved = keys[i].ease.made_sane();
    let (low, high) = (reached(from, to, a), reached(from, to, b));
    let whole = a.at_most(from) && to.at_most(b);
    let apart = b.at_most(from) || to.at_most(a);
    whole || apart || lined(keys[i].ease) || {
        let part = curved.between(
            parameter(curved.x1, curved.x2, low),
            parameter(curved.x1, curved.x2, high),
        );
        &&& !(low.at_most(num(ZERO)) && num(ONE).at_most(high))
        &&& part.all_finite()
        &&& !lined(part)
        &&& exact(curved.x1) <= exact(curved.x2) || (in_clip(part.x1) && in_clip(part.x2))
        &&& -reach <= exact(part.y1) <= reach
        &&& -reach <= exact(part.y2) <= reach
        &&& -swing <= exact(keys[i].value) - exact(keys[i - 1].value) <= swing
    }
}

/// How near a position a ride is asked of: at it, where it is made of lines.
pub open spec fn nearby(keys: Seq<ParamKey>) -> real {
    if all_lined(keys) {
        0 as real
    } else {
        0x80 as real * grain()
    }
}

/// Whether an engine plays what the eases draw, at a position and near it, but for
/// some slack.
pub open spec fn draws(
    ride: Ride,
    keys: Seq<ParamKey>,
    at: Number,
    rest: Number,
    slack: real,
) -> bool {
    forall|x: real, w: real| #[trigger]
        on_ride(keys, x, w) && -nearby(keys) <= x - exact(at) <= nearby(keys) ==> -slack <= exact(
            ride(keys, at, rest),
        ) - w <= slack
}

} // verus!
