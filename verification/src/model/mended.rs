//! That a merge of the two pieces of a cut gets a ride back.

use crate::find::{lemma_filter_all, lemma_filter_none};
use crate::model::bezier::{lemma_blossom_range, lemma_nested};
use crate::model::carried::lemma_carried_run_is_tidy;
use crate::model::echo::{lemma_allowed, lemma_part_at, slack_on, slip_on};
use crate::model::exact::{
    along, exact, instant, lemma_along_close, lemma_along_range, lemma_ends, lemma_exact_order,
    lemma_placed_finite, open_window,
};
use crate::model::filter::{absorbed_run, rejoined, run_with, FilterView};
use crate::model::keys::{
    closest, lemma_closest, ordered_run, reach, run_reaches, KeyEase, ParamKey,
};
use crate::model::playing::{clear, heard, lined, on_ride, on_segment, playable, shape_x, shape_y};
use crate::model::replay::{
    carries, lemma_both_pieces_hold_the_cut, lemma_keys_play_the_same, lemma_new_run, lemma_slip,
    lemma_three_parts,
};
use crate::model::ride::{
    after_window, before_window, cut_keys, inside, past, rewindowed, shifted, Ride,
};
use crate::number::{
    clamped, difference, lemma_sum_grows, lemma_units_monotonic, num, sum, Number, ONE, ZERO,
};
use crate::order::{in_order, lemma_sorted_already, Ranked};
use crate::ranges::KEY_EPSILON;
use crate::rounding::lemma_difference_no_more;
use vstd::prelude::*;

verus! {

/// A run of a later piece, where its keys land in the clip it is merged into.
pub open spec fn landed(
    run: Seq<ParamKey>,
    offset: Number,
    length: Number,
    duration: Number,
) -> Seq<ParamKey> {
    run.map_values(
        |k: ParamKey|
            ParamKey {
                at: clamped(rejoined(k.at, offset, length, duration), num(ZERO), num(ONE)),
                ..k
            },
    )
}

/// Whether the keys of a piece, moved, stand where the stretch `(a, b)` that the
/// piece covers says, but for a drift.
pub open spec fn stays(
    run: Seq<ParamKey>,
    moved: Seq<ParamKey>,
    a: Number,
    b: Number,
    drift: real,
) -> bool {
    forall|i: int|
        0 <= i < run.len() ==> -drift <= exact((#[trigger] moved[i]).at) - instant(
            a,
            b,
            exact(run[i].at),
        ) <= drift
}

/// Whether no two keys of a run are so near that they count as one.
pub open spec fn apart(run: Seq<ParamKey>) -> bool {
    forall|i: int, j: int|
        0 <= i < j < run.len() ==> (#[trigger] run[i]).at.less((#[trigger] run[j]).at) && reach(
            run[i].at,
            run[j].at,
        ) is None
}

/// The run of a whole clip, of the runs of its pieces where they land: the key on
/// the cut is the second piece's.
pub open spec fn rejoined_run(first: Seq<ParamKey>, second: Seq<ParamKey>) -> Seq<ParamKey> {
    first.drop_last() + second
}

proof fn lemma_in_order(run: Seq<ParamKey>)
    requires
        forall|i: int, j: int|
            0 <= i < j < run.len() ==> (#[trigger] run[i]).at.less((#[trigger] run[j]).at),
    ensures
        in_order(run, |k: ParamKey| k.rank()),
{
    assert forall|i: int, j: int| 0 <= i <= j < run.len() implies (#[trigger] run[i]).rank() <= (
    #[trigger] run[j]).rank() by {
        if i < j {
            assert(run[i].at.less(run[j].at));
        }
    }
}

/// A key that is near no other joins the run at its end.
proof fn lemma_joins(run: Seq<ParamKey>, key: ParamKey)
    requires
        forall|i: int, j: int|
            0 <= i < j < run.len() ==> (#[trigger] run[i]).at.less((#[trigger] run[j]).at),
        forall|i: int|
            0 <= i < run.len() ==> (#[trigger] run[i]).at.less(key.at) && reach(
                run[i].at,
                key.at,
            ) is None,
    ensures
        run_with(run, key) == run.push(key),
{
    let reaches = run_reaches(run, key.at);
    lemma_closest(reaches);
    assert forall|i: int| 0 <= i < reaches.len() implies (#[trigger] reaches[i]) is None by {
        assert(run[i].at.less(key.at));
    }
    let more = run.push(key);
    lemma_in_order(more);
    lemma_sorted_already(more, |k: ParamKey| k.rank());
}

/// A key near the last one alone takes its place.
proof fn lemma_takes_over(run: Seq<ParamKey>, key: ParamKey)
    requires
        run.len() > 0,
        forall|i: int, j: int|
            0 <= i < j < run.len() ==> (#[trigger] run[i]).at.less((#[trigger] run[j]).at),
        forall|i: int|
            0 <= i < run.len() - 1 ==> (#[trigger] run[i]).at.less(key.at) && reach(
                run[i].at,
                key.at,
            ) is None,
        reach(run.last().at, key.at) is Some,
    ensures
        run_with(run, key) == run.drop_last().push(key),
{
    let reaches = run_reaches(run, key.at);
    let top = run.len() - 1;
    lemma_closest(reaches);
    assert forall|i: int| 0 <= i < top implies (#[trigger] reaches[i]) is None by {
        assert(run[i].at.less(key.at));
    }
    assert(reaches[top] is Some);
    assert(closest(reaches) == Some(top));
    let more = run.drop_last().push(key);
    assert(run.update(top, key) =~= more);
    assert forall|i: int, j: int| 0 <= i < j < more.len() implies (#[trigger] more[i]).at.less(
        (#[trigger] more[j]).at,
    ) by {
        assert(run[i].at.less(key.at));
        if j < top {
            assert(run[i].at.less(run[j].at));
        }
    }
    lemma_in_order(more);
    lemma_sorted_already(more, |k: ParamKey| k.rank());
}

/// A later piece's keys, put on the first piece's one after another.
proof fn lemma_absorbed(
    first: Seq<ParamKey>,
    tail: Seq<ParamKey>,
    offset: Number,
    length: Number,
    duration: Number,
    j: nat,
)
    requires
        first.len() > 0,
        1 <= j <= tail.len(),
        ({
            let second = landed(tail, offset, length, duration);
            &&& forall|i: int|
                0 <= i < tail.len() ==> (#[trigger] tail[i]).value.finite() && rejoined(
                    tail[i].at,
                    offset,
                    length,
                    duration,
                ).finite()
            &&& apart(first)
            &&& apart(rejoined_run(first, second))
            &&& reach(first.last().at, second[0].at) is Some
        }),
    ensures
        absorbed_run(Some(first), tail.take(j as int), offset, length, duration) == Some(
            rejoined_run(first, landed(tail, offset, length, duration).take(j as int)),
        ),
    decreases j,
{
    let second = landed(tail, offset, length, duration);
    let whole = rejoined_run(first, second);
    let n = first.len() - 1;
    let some = tail.take(j as int);
    let key = second[j - 1];
    assert(some.last() == tail[j - 1]);
    assert(some.drop_last() =~= tail.take(j - 1));
    assert(tail[j - 1].value.finite());
    if j == 1 {
        assert(tail.take(0) =~= Seq::<ParamKey>::empty());
        assert forall|i: int| 0 <= i < n implies (#[trigger] first[i]).at.less(key.at) && reach(
            first[i].at,
            key.at,
        ) is None by {
            assert(whole[i] == first[i] && whole[n] == key);
        }
        assert forall|i: int, k: int| 0 <= i < k < first.len() implies (#[trigger] first[i]).at.less(
            (#[trigger] first[k]).at,
        ) by {
            assert(reach(first[i].at, first[k].at) is None);
        }
        lemma_takes_over(first, key);
        assert(rejoined_run(first, second.take(1)) =~= first.drop_last().push(key));
    } else {
        lemma_absorbed(first, tail, offset, length, duration, (j - 1) as nat);
        let before = rejoined_run(first, second.take(j - 1));
        assert(before.len() == n + j - 1);
        assert forall|i: int| 0 <= i < before.len() implies #[trigger] before[i] == whole[i] by {
            if i >= n {
                assert(second.take(j - 1)[i - n] == second[i - n]);
            }
        }
        assert(whole[n + j - 1] == key);
        assert forall|i: int| 0 <= i < before.len() implies (#[trigger] before[i]).at.less(key.at)
            && reach(before[i].at, key.at) is None by {
            assert(whole[i].at.less(whole[n + j - 1].at));
        }
        assert forall|i: int, k: int| 0 <= i < k < before.len() implies (#[trigger] before[i]).at.less(
            (#[trigger] before[k]).at,
        ) by {
            assert(whole[i].at.less(whole[k].at));
        }
        lemma_joins(before, key);
        assert(rejoined_run(first, second.take(j as int)) =~= before.push(key));
    }
}

/// How far along its way an ease is, is between its ends.
proof fn lemma_place(ease: KeyEase, x: real)
    requires
        0 as real <= x <= 1 as real,
    ensures
        0 as real <= shape_x(ease, x) <= 1 as real,
{
    if !lined(ease) {
        let sane = ease.made_sane();
        lemma_ends();
        lemma_exact_order(num(ZERO), sane.x1);
        lemma_exact_order(sane.x1, num(ONE));
        lemma_exact_order(num(ZERO), sane.x2);
        lemma_exact_order(sane.x2, num(ONE));
        lemma_blossom_range(exact(sane.x1), exact(sane.x2), x, x, x, 0 as real, 1 as real);
    }
}

/// Between two keys that stand where a piece's do, the piece is worth the same.
proof fn lemma_pair_back(
    run: Seq<ParamKey>,
    j: int,
    here: ParamKey,
    there: ParamKey,
    a: Number,
    b: Number,
    drift: real,
    t: real,
) -> (x: real)
    requires
        0 <= j < run.len() - 1,
        0 as real <= t <= 1 as real,
        here.value == run[j].value,
        there.value == run[j + 1].value,
        there.ease == run[j + 1].ease,
        0 as real <= exact(run[j].at) <= 1 as real,
        0 as real <= exact(run[j + 1].at) <= 1 as real,
        -drift <= exact(here.at) - instant(a, b, exact(run[j].at)) <= drift,
        -drift <= exact(there.at) - instant(a, b, exact(run[j + 1].at)) <= drift,
    ensures
        0 as real <= x <= 1 as real,
        on_ride(
            run,
            x,
            along(exact(here.value), exact(there.value), shape_y(there.ease, t)),
        ),
        -drift <= along(exact(here.at), exact(there.at), shape_x(there.ease, t)) - instant(a, b, x)
            <= drift,
{
    let place = shape_x(there.ease, t);
    let u = exact(run[j].at);
    let v = exact(run[j + 1].at);
    let x = along(u, v, place);
    lemma_place(there.ease, t);
    lemma_along_range(u, v, place, 0 as real, 1 as real);
    lemma_nested(exact(a), exact(b), u, v, place);
    lemma_along_close(
        exact(here.at),
        exact(there.at),
        instant(a, b, u),
        instant(a, b, v),
        place,
        drift,
    );
    let value = along(exact(here.value), exact(there.value), shape_y(there.ease, t));
    assert(on_segment(run, j, t, x, value));
    x
}

/// The part of a window that a position is, or the nearest before or after a key.
proof fn lemma_beyond_key(
    a: Number,
    b: Number,
    key: real,
    moved: real,
    at: real,
    drift: real,
    before: bool,
) -> (x: real)
    requires
        exact(a) < exact(b),
        instant(a, b, 0 as real) == exact(a),
        instant(a, b, 1 as real) == exact(b),
        0 as real <= key <= 1 as real,
        before ==> exact(a) <= at,
        !before ==> at <= exact(b),
        drift >= 0 as real,
        -drift <= moved - instant(a, b, key) <= drift,
        before ==> at <= moved,
        !before ==> at >= moved,
    ensures
        0 as real <= x <= 1 as real,
        before ==> x <= key,
        !before ==> x >= key,
        -drift <= at - instant(a, b, x) <= drift,
{
    let there = instant(a, b, key);
    lemma_along_range(exact(a), exact(b), key, exact(a), exact(b));
    if before && at <= there || !before && at >= there {
        let x = lemma_part_at(exact(a), exact(b), at);
        if before && key < x {
            lemma_instants_apart(a, b, key, x);
        }
        if !before && x < key {
            lemma_instants_apart(a, b, x, key);
        }
        x
    } else {
        key
    }
}

proof fn lemma_instants_apart(a: Number, b: Number, p: real, q: real)
    requires
        exact(a) < exact(b),
        p < q,
    ensures
        instant(a, b, p) < instant(a, b, q),
{
    reveal(along);
    let d = exact(b) - exact(a);
    assert(p * d < q * d) by (nonlinear_arith)
        requires
            p < q,
            d > 0 as real,
    ;
}

/// A run spread over a longer clip keeps all its keys.
pub proof fn lemma_spread(run: Seq<ParamKey>, stretch: Number, ride: Ride, rest: Number)
    requires
        forall|i: int| 0 <= i < run.len() ==> (#[trigger] run[i]).valid(),
        open_window(num(ZERO), stretch),
        num(ONE).at_most(stretch),
    ensures
        rewindowed(run, num(ZERO), stretch, ride, rest) == run.map_values(
            |k: ParamKey| shifted(k, num(ZERO), stretch),
        ),
{
    let zero = num(ZERO);
    let cut = cut_keys(run, zero, stretch);
    lemma_ends();
    lemma_units_monotonic(0, KEY_EPSILON as nat);
    lemma_difference_no_more(zero, num(KEY_EPSILON));
    lemma_sum_grows(stretch, num(KEY_EPSILON));
    assert(difference(zero, num(KEY_EPSILON)).at_most(zero));
    assert(stretch.at_most(sum(stretch, num(KEY_EPSILON))));
    assert forall|i: int| 0 <= i < run.len() implies !before_window(#[trigger] run[i], zero)
        && !after_window(run[i], stretch) by {
        assert(run[i].valid());
    }
    assert forall|i: int| 0 <= i < run.len() implies #[trigger] cut[i] == run[i] by {
        assert(run[i].valid());
        if i > 0 {
            assert(run[i - 1].valid());
        }
    }
    assert(cut =~= run);
    lemma_filter_all(cut, |k: ParamKey| !before_window(k, zero) && !after_window(k, stretch));
    lemma_filter_none(cut, |k: ParamKey| !before_window(k, zero) && after_window(k, stretch));
    assert(inside(cut, zero, stretch) == cut);
    assert(past(cut, zero, stretch).len() == 0);
    let new = rewindowed(run, zero, stretch, ride, rest);
    assert(!(exists|i: int| 0 <= i < run.len() && before_window(#[trigger] run[i], zero)));
    assert(new =~= run.map_values(|k: ParamKey| shifted(k, zero, stretch)));
}

/// What is heard at a position is heard near it.
proof fn lemma_heard_near(
    keys: Seq<ParamKey>,
    at: real,
    near: real,
    value: real,
    slip: real,
    slack: real,
    drift: real,
    all: real,
)
    requires
        heard(keys, at, value, slip, slack),
        -drift <= near - at <= drift,
        slip + drift <= all,
    ensures
        heard(keys, near, value, all, slack),
{
    let (x, w) = choose|x: real, w: real| #[trigger]
        on_ride(keys, x, w) && -slip <= x - at <= slip && -slack <= w - value <= slack;
    assert(on_ride(keys, x, w));
}

/// Whether a run that is cut in two lands, once the pieces are merged, where it
/// was: neither piece's keys drift by more than `drift`, no two keys land so near
/// that they count as one but for the two on the cut, and those do.
pub open spec fn comes_back(
    head: Seq<ParamKey>,
    tail: Seq<ParamKey>,
    first: Seq<ParamKey>,
    second: Seq<ParamKey>,
    cut: Number,
    drift: real,
) -> bool {
    &&& stays(head, first, num(ZERO), cut, drift)
    &&& stays(tail, second, cut, num(ONE), drift)
    &&& apart(first)
    &&& apart(rejoined_run(first, second))
    &&& reach(first.last().at, second[0].at) is Some
}

/// Whether a run can be cut between two of its keys and merged again: it can be
/// carried onto both pieces, the engine answers with numbers at their edges, and it
/// comes back. `stretch` is the merged clip's length over the first piece's;
/// `offset` and `length` are where the second piece sat and how long it was, and
/// `duration` how long the merged clip is.
pub open spec fn mends(
    keys: Seq<ParamKey>,
    cut: Number,
    stretch: Number,
    offset: Number,
    length: Number,
    duration: Number,
    ride: Ride,
    rest: Number,
    slack: real,
    reach: real,
    swing: real,
    drift: real,
) -> bool {
    let head = rewindowed(keys, num(ZERO), cut, ride, rest);
    let tail = rewindowed(keys, cut, num(ONE), ride, rest);
    let first = rewindowed(head, num(ZERO), stretch, ride, rest);
    let second = landed(tail, offset, length, duration);
    &&& carries(keys, num(ZERO), cut, ride, rest, slack, reach, swing)
    &&& carries(keys, cut, num(ONE), ride, rest, slack, reach, swing)
    &&& ride(keys, num(ZERO), rest).finite()
    &&& ride(keys, cut, rest).finite()
    &&& ride(keys, num(ONE), rest).finite()
    &&& before_window(keys[0], cut)
    &&& after_window(keys.last(), cut)
    &&& forall|i: int|
        0 <= i < keys.len() ==> before_window(#[trigger] keys[i], cut) || after_window(
            keys[i],
            cut,
        )
    &&& open_window(num(ZERO), stretch)
    &&& num(ONE).at_most(stretch)
    &&& drift >= 0 as real
    &&& forall|i: int|
        0 <= i < tail.len() ==> rejoined(
            (#[trigger] tail[i]).at,
            offset,
            length,
            duration,
        ).finite()
    &&& comes_back(head, tail, first, second, cut, drift)
}

/// Whether the old run is worth what the merged one is, wherever that is asked.
pub open spec fn gets_back(
    keys: Seq<ParamKey>,
    whole: Seq<ParamKey>,
    cut: Number,
    slack: real,
    reach: real,
    swing: real,
    drift: real,
) -> bool {
    let slip = slip_on(keys, num(ZERO), cut) + slip_on(keys, cut, num(ONE)) + drift;
    forall|part: real, value: real|
        0 as real <= part <= 1 as real && #[trigger] on_ride(whole, part, value) ==> heard(
            keys,
            part,
            value,
            slip,
            slack_on(keys, slack, reach, swing),
        )
}

/// A merge of the two pieces of a cut gets the ride back. A run is carried onto the
/// two pieces of a clip that is cut between two of its keys; the first piece's is
/// then spread over the merged clip and the second's keys are put on it. Whatever
/// that run is worth at a position, the old one is worth there, up to the slips of
/// the two pieces, the drift, and the slack.
pub proof fn lemma_a_merge_gets_the_ride_back(
    keys: Seq<ParamKey>,
    cut: Number,
    stretch: Number,
    offset: Number,
    length: Number,
    duration: Number,
    ride: Ride,
    rest: Number,
    slack: real,
    reach: real,
    swing: real,
    drift: real,
)
    requires
        mends(
            keys,
            cut,
            stretch,
            offset,
            length,
            duration,
            ride,
            rest,
            slack,
            reach,
            swing,
            drift,
        ),
    ensures
        ({
            let head = rewindowed(keys, num(ZERO), cut, ride, rest);
            let tail = rewindowed(keys, cut, num(ONE), ride, rest);
            let first = rewindowed(head, num(ZERO), stretch, ride, rest);
            let whole = absorbed_run(Some(first), tail, offset, length, duration);
            &&& whole == Some(rejoined_run(first, landed(tail, offset, length, duration)))
            &&& gets_back(keys, whole->0, cut, slack, reach, swing, drift)
        }),
{
    let zero = num(ZERO);
    let one = num(ONE);
    let head = rewindowed(keys, zero, cut, ride, rest);
    let tail = rewindowed(keys, cut, one, ride, rest);
    let first = rewindowed(head, zero, stretch, ride, rest);
    let second = landed(tail, offset, length, duration);
    let run = rejoined_run(first, second);
    lemma_carried_run_is_tidy(keys, zero, cut, ride, rest);
    lemma_carried_run_is_tidy(keys, cut, one, ride, rest);
    lemma_spread(head, stretch, ride, rest);
    assert forall|i: int| 0 <= i < tail.len() implies (#[trigger] tail[i]).value.finite() by {
        assert(tail[i].valid());
    }
    lemma_absorbed(first, tail, offset, length, duration, tail.len());
    assert(tail.take(tail.len() as int) =~= tail);
    assert(second.take(second.len() as int) =~= second);
    assert forall|i: int| 0 <= i < keys.len() implies zero.at_most((#[trigger] keys[i]).at)
        && keys[i].at.at_most(one) by {
        assert(keys[i].valid());
    }
    lemma_both_pieces_hold_the_cut(keys, zero, cut, one, ride, rest);
    lemma_head_is_long(keys, cut, ride, rest);
    assert forall|part: real, value: real|
        0 as real <= part <= 1 as real && #[trigger] on_ride(run, part, value) implies heard(
        keys,
        part,
        value,
        slip_on(keys, zero, cut) + slip_on(keys, cut, one) + drift,
        slack_on(keys, slack, reach, swing),
    ) by {
        assert(pieces_of(head, tail, first, second));
        let (headed, x) = lemma_source(head, tail, first, second, cut, drift, part, value);
        let (a, b) = if headed {
            (zero, cut)
        } else {
            (cut, one)
        };
        lemma_slip(zero, cut);
        lemma_slip(cut, one);
        lemma_allowed(keys, zero, cut, slack, reach, swing);
        lemma_allowed(keys, cut, one, slack, reach, swing);
        lemma_keys_play_the_same(keys, a, b, ride, rest, slack, reach, swing, x, value);
        lemma_heard_near(
            keys,
            instant(a, b, x),
            part,
            value,
            slip_on(keys, a, b),
            slack_on(keys, slack, reach, swing),
            drift,
            slip_on(keys, zero, cut) + slip_on(keys, cut, one) + drift,
        );
    }
}

/// Whether two pieces, and their runs where they land, belong together.
spec fn pieces_of(
    head: Seq<ParamKey>,
    tail: Seq<ParamKey>,
    first: Seq<ParamKey>,
    second: Seq<ParamKey>,
) -> bool {
    &&& first.len() == head.len() && head.len() >= 2
    &&& second.len() == tail.len() && tail.len() >= 1
    &&& forall|i: int| 0 <= i < head.len() ==> (#[trigger] head[i]).valid()
    &&& forall|i: int| 0 <= i < tail.len() ==> (#[trigger] tail[i]).valid()
    &&& forall|i: int|
        0 <= i < head.len() ==> (#[trigger] first[i]).value == head[i].value && first[i].ease
            == head[i].ease
    &&& forall|i: int|
        0 <= i < tail.len() ==> (#[trigger] second[i]).value == tail[i].value && second[i].ease
            == tail[i].ease
    &&& head.last().at == num(ONE)
    &&& tail[0].at == num(ZERO)
    &&& head.last().value == tail[0].value
    &&& head.last().ease == tail[0].ease
}

/// Whether a piece is worth `value` at a part of it that is a position of the whole,
/// but for a drift.
spec fn worth_at(
    run: Seq<ParamKey>,
    a: Number,
    b: Number,
    x: real,
    part: real,
    value: real,
    drift: real,
) -> bool {
    &&& 0 as real <= x <= 1 as real
    &&& on_ride(run, x, value)
    &&& -drift <= part - instant(a, b, x) <= drift
}

/// Between two neighbours.
proof fn lemma_between(
    head: Seq<ParamKey>,
    tail: Seq<ParamKey>,
    first: Seq<ParamKey>,
    second: Seq<ParamKey>,
    cut: Number,
    drift: real,
    part: real,
    value: real,
    i: int,
    t: real,
) -> (found: (bool, real))
    requires
        pieces_of(head, tail, first, second),
        stays(head, first, num(ZERO), cut, drift),
        stays(tail, second, cut, num(ONE), drift),
        instant(num(ZERO), cut, 1 as real) == exact(cut),
        instant(cut, num(ONE), 0 as real) == exact(cut),
        on_segment(rejoined_run(first, second), i, t, part, value),
    ensures
        found.0 ==> worth_at(head, num(ZERO), cut, found.1, part, value, drift),
        !found.0 ==> worth_at(tail, cut, num(ONE), found.1, part, value, drift),
{
    let run = rejoined_run(first, second);
    let n = first.len() - 1;
    let here = run[i];
    let there = run[i + 1];
    lemma_ends();
    assert(run.len() == n + second.len());
    if i < n {
        lemma_unit(head[i]);
        lemma_unit(head[i + 1]);
        assert(here == first[i]);
        if i + 1 < n {
            assert(there == first[i + 1]);
        } else {
            assert(there == second[0]);
            assert(head[i + 1] == head.last());
        }
        (true, lemma_pair_back(head, i, here, there, num(ZERO), cut, drift, t))
    } else {
        let j = i - n;
        lemma_unit(tail[j]);
        lemma_unit(tail[j + 1]);
        assert(here == second[j] && there == second[j + 1]);
        (false, lemma_pair_back(tail, j, here, there, cut, num(ONE), drift, t))
    }
}

/// What the pieces are worth where they land, one of them is worth.
proof fn lemma_source(
    head: Seq<ParamKey>,
    tail: Seq<ParamKey>,
    first: Seq<ParamKey>,
    second: Seq<ParamKey>,
    cut: Number,
    drift: real,
    part: real,
    value: real,
) -> (found: (bool, real))
    requires
        pieces_of(head, tail, first, second),
        stays(head, first, num(ZERO), cut, drift),
        stays(tail, second, cut, num(ONE), drift),
        open_window(num(ZERO), cut),
        open_window(cut, num(ONE)),
        drift >= 0 as real,
        0 as real <= part <= 1 as real,
        on_ride(rejoined_run(first, second), part, value),
    ensures
        found.0 ==> worth_at(head, num(ZERO), cut, found.1, part, value, drift),
        !found.0 ==> worth_at(tail, cut, num(ONE), found.1, part, value, drift),
{
    let zero = num(ZERO);
    let one = num(ONE);
    let run = rejoined_run(first, second);
    lemma_ends();
    lemma_slip(zero, cut);
    lemma_slip(cut, one);
    if exists|i: int, t: real| #[trigger] on_segment(run, i, t, part, value) {
        let (i, t) = choose|i: int, t: real| #[trigger] on_segment(run, i, t, part, value);
        lemma_between(head, tail, first, second, cut, drift, part, value, i, t)
    } else if part <= exact(run[0].at) && value == exact(run[0].value) {
        assert(run[0] == first[0]);
        lemma_unit(head[0]);
        let x = lemma_beyond_key(
            zero,
            cut,
            exact(head[0].at),
            exact(first[0].at),
            part,
            drift,
            true,
        );
        assert(on_ride(head, x, value));
        (true, x)
    } else {
        let top = second.len() - 1;
        assert(run.last() == second[top]);
        assert(tail.last() == tail[top]);
        lemma_unit(tail[top]);
        let x = lemma_beyond_key(
            cut,
            one,
            exact(tail[top].at),
            exact(second[top].at),
            part,
            drift,
            false,
        );
        assert(on_ride(tail, x, value));
        (false, x)
    }
}

/// A key that can be played stands between zero and one.
proof fn lemma_unit(key: ParamKey)
    requires
        key.valid(),
    ensures
        0 as real <= exact(key.at) <= 1 as real,
{
    lemma_ends();
    lemma_exact_order(num(ZERO), key.at);
    lemma_exact_order(key.at, num(ONE));
}

/// The first piece has a key of its own before the one on the cut.
proof fn lemma_head_is_long(keys: Seq<ParamKey>, cut: Number, ride: Ride, rest: Number)
    requires
        playable(keys),
        open_window(num(ZERO), cut),
        forall|i: int| 0 <= i < keys.len() ==> clear(#[trigger] keys[i], num(ZERO), cut),
        before_window(keys[0], cut),
        after_window(keys.last(), cut),
    ensures
        rewindowed(keys, num(ZERO), cut, ride, rest).len() >= 2,
{
    let zero = num(ZERO);
    let (m, n) = lemma_three_parts(keys, zero, cut);
    lemma_new_run(keys, zero, cut, ride, rest, m, n);
    lemma_units_monotonic(0, KEY_EPSILON as nat);
    lemma_difference_no_more(zero, num(KEY_EPSILON));
    lemma_difference_no_more(cut, num(KEY_EPSILON));
    lemma_sum_grows(cut, num(KEY_EPSILON));
    assert(keys[0].valid());
    assert(before_window(keys[0], zero) == (0 < m));
    assert(after_window(keys[0], cut) == (0 >= n));
    assert(after_window(keys[keys.len() - 1], cut) == (keys.len() - 1 >= n));
    lemma_ends();
}

/// The runs of an effect's pieces are those of the run itself.
proof fn lemma_tidy_run(run: Seq<ParamKey>)
    requires
        forall|i: int| 0 <= i < run.len() ==> (#[trigger] run[i]).valid(),
        in_order(run, |k: ParamKey| k.rank()),
    ensures
        ordered_run(run) == run,
{
    lemma_filter_all(run, |k: ParamKey| k.valid());
    lemma_sorted_already(run, |k: ParamKey| k.rank());
}

/// A merge gets the rides of an effect's parameters back.
pub proof fn lemma_an_effect_gets_its_rides_back(
    effect: FilterView,
    name: Seq<char>,
    cut: Number,
    stretch: Number,
    offset: Number,
    length: Number,
    duration: Number,
    ride: Ride,
    slack: real,
    reach: real,
    swing: real,
    drift: real,
)
    requires
        effect.keys.dom().contains(name),
        mends(
            effect.keys[name],
            cut,
            stretch,
            offset,
            length,
            duration,
            ride,
            effect.param(name, num(ZERO)),
            slack,
            reach,
            swing,
            drift,
        ),
    ensures
        ({
            let head = effect.windowed(num(ZERO), cut, ride);
            let tail = effect.windowed(cut, num(ONE), ride);
            let whole = head.windowed(num(ZERO), stretch, ride).absorbed(
                tail,
                offset,
                length,
                duration,
            );
            &&& whole.keys.dom().contains(name)
            &&& gets_back(
                effect.keys[name],
                whole.keys[name],
                cut,
                slack,
                reach,
                swing,
                drift,
            )
        }),
{
    let zero = num(ZERO);
    let one = num(ONE);
    let keys = effect.keys[name];
    let rest = effect.param(name, zero);
    let head = rewindowed(keys, zero, cut, ride, rest);
    let tail = rewindowed(keys, cut, one, ride, rest);
    let first = rewindowed(head, zero, stretch, ride, rest);
    lemma_carried_run_is_tidy(keys, zero, cut, ride, rest);
    lemma_carried_run_is_tidy(keys, cut, one, ride, rest);
    lemma_tidy_run(head);
    lemma_tidy_run(tail);
    lemma_spread(head, stretch, ride, rest);
    lemma_first_is_tidy(head, first, stretch);
    lemma_tidy_run(first);
    let cut_head = effect.windowed(zero, cut, ride);
    assert(cut_head.keys.dom().contains(name) && cut_head.keys[name] == head);
    assert(cut_head.param(name, zero) == rest);
    let spread = cut_head.windowed(zero, stretch, ride);
    assert(spread.keys.dom().contains(name) && spread.keys[name] == first);
    let cut_tail = effect.windowed(cut, one, ride);
    assert(cut_tail.keys.dom().contains(name) && cut_tail.keys[name] == tail);
    assert(cut_tail.run(name) == tail);
    assert(spread.held(name) == Some(first));
    lemma_a_merge_gets_the_ride_back(
        keys,
        cut,
        stretch,
        offset,
        length,
        duration,
        ride,
        rest,
        slack,
        reach,
        swing,
        drift,
    );
}

/// The first piece's run, spread, can be played and is in order.
pub proof fn lemma_first_is_tidy(head: Seq<ParamKey>, first: Seq<ParamKey>, stretch: Number)
    requires
        forall|i: int| 0 <= i < head.len() ==> (#[trigger] head[i]).valid(),
        open_window(num(ZERO), stretch),
        num(ONE).at_most(stretch),
        first == head.map_values(|k: ParamKey| shifted(k, num(ZERO), stretch)),
        apart(first),
    ensures
        forall|i: int| 0 <= i < first.len() ==> (#[trigger] first[i]).valid(),
        in_order(first, |k: ParamKey| k.rank()),
{
    lemma_ends();
    assert forall|i: int| 0 <= i < first.len() implies (#[trigger] first[i]).valid() by {
        assert(head[i].valid());
        lemma_placed_finite(head[i], num(ZERO), stretch);
    }
    assert forall|i: int, j: int| 0 <= i < j < first.len() implies (#[trigger] first[i]).at.less(
        (#[trigger] first[j]).at,
    ) by {
        assert(reach(first[i].at, first[j].at) is None);
    }
    lemma_in_order(first);
}

} // verus!
