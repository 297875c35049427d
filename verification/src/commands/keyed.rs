//! That splitting a clip between two keys of a ride and merging the pieces gets the
//! ride back.

use crate::commands::clips::end;
use crate::commands::cuts::{head_of, tail_of};
use crate::commands::joins::{absorbed_all, merged};
use crate::commands::round_trips::lemma_windowed_keeps;
use crate::model::carried::{lemma_carried_run_is_tidy, lemma_property_moved};
use crate::model::clip::{keys_of, measurable, points_of, windowed_chain, ClipView};
use crate::model::exact::lemma_ends;
use crate::model::filter::{rejoined, FilterView};
use crate::model::keys::{ClipKey, KeyProperty, ParamKey};
use crate::model::mended::{
    gets_back, landed, lemma_a_merge_gets_the_ride_back, lemma_an_effect_gets_its_rides_back,
    lemma_first_is_tidy, lemma_spread, mends, rejoined_run,
};
use crate::model::regained::{keys_fit, landed_keys, lemma_keys_put};
use crate::model::ride::{rewindowed, Ride};
use crate::number::{difference, num, product, quotient, sum, Number, ONE, ZERO};
use crate::rounding::lemma_none_and_all;
use vstd::prelude::*;

verus! {

/// A clip's run of one property.
pub open spec fn run_on(clip: ClipView, property: KeyProperty) -> Seq<ParamKey> {
    points_of(keys_of(clip.keys, property))
}

/// The two pieces of a cut, in time.
pub open spec fn pieces_at(
    clip: ClipView,
    offset: Number,
    id: Seq<char>,
    start: Number,
    ride: Ride,
) -> Seq<ClipView> {
    seq![head_of(clip, offset, ride), tail_of(clip, offset, id, start, ride)]
}

/// How long the pieces are together.
pub open spec fn length_of(pieces: Seq<ClipView>) -> Number {
    difference(end(pieces.last()), pieces[0].start)
}

/// Whether a cut falls inside the clip, and the pieces are longer together than the
/// first alone.
pub open spec fn cuts_inside(
    clip: ClipView,
    offset: Number,
    id: Seq<char>,
    start: Number,
    ride: Ride,
) -> bool {
    &&& measurable(clip.duration, num(ZERO), offset)
    &&& measurable(clip.duration, offset, clip.duration)
    &&& measurable(offset, num(ZERO), length_of(pieces_at(clip, offset, id, start, ride)))
}

/// Whether a run mends once the two pieces of a cut are merged.
pub open spec fn run_mends(
    clip: ClipView,
    offset: Number,
    id: Seq<char>,
    start: Number,
    ride: Ride,
    keys: Seq<ParamKey>,
    rest: Number,
    slack: real,
    reach: real,
    swing: real,
    drift: real,
) -> bool {
    let pieces = pieces_at(clip, offset, id, start, ride);
    let length = length_of(pieces);
    mends(
        keys,
        quotient(offset, clip.duration),
        quotient(length, offset),
        difference(pieces[1].start, pieces[0].start),
        pieces[1].duration,
        length,
        ride,
        rest,
        slack,
        reach,
        swing,
        drift,
    )
}

/// A property's keys, once landed, fit on those that are there.
proof fn lemma_fits(
    held: Seq<ClipKey>,
    own: Seq<ClipKey>,
    keys: Seq<ParamKey>,
    cut: Number,
    stretch: Number,
    offset: Number,
    length: Number,
    duration: Number,
    ride: Ride,
    rest: Number,
    slack: real,
    reach: real,
    swing: real,
    drift: real,
)
    requires
        mends(
            keys,
            cut,
            stretch,
            offset,
            length,
            duration,
            ride,
            rest,
            slack,
            reach,
            swing,
            drift,
        ),
        points_of(held) == rewindowed(
            rewindowed(keys, num(ZERO), cut, ride, rest),
            num(ZERO),
            stretch,
            ride,
            rest,
        ),
        points_of(own) == rewindowed(keys, cut, num(ONE), ride, rest),
        forall|i: int| 0 <= i < held.len() ==> (#[trigger] points_of(held)[i]).valid(),
        forall|i: int| 0 <= i < own.len() ==> (#[trigger] points_of(own)[i]).valid(),
        held.len() > 0,
        own.len() > 0,
    ensures
        keys_fit(held, own, offset, length, duration),
        points_of(held.drop_last() + landed_keys(own, offset, length, duration)) == rejoined_run(
            points_of(held),
            landed(points_of(own), offset, length, duration),
        ),
{
    let first = points_of(held);
    let tail = points_of(own);
    let second = landed(tail, offset, length, duration);
    let landing = landed_keys(own, offset, length, duration);
    let run = rejoined_run(first, second);
    let whole = held.drop_last() + landing;
    let n = held.len() - 1;
    assert forall|i: int| 0 <= i < whole.len() implies #[trigger] run[i] == whole[i].point() by {
        if i < n {
            assert(first[i] == held[i].point());
        } else {
            assert(tail[i - n] == own[i - n].point());
            assert(landing[i - n].point() == second[i - n]);
        }
    }
    assert(points_of(whole) =~= run);
    assert forall|i: int| 0 <= i < own.len() implies (#[trigger] own[i]).value.finite()
        && rejoined(own[i].at, offset, length, duration).finite() by {
        assert(tail[i] == own[i].point());
        assert(tail[i].valid());
    }
    assert forall|i: int| 0 <= i < held.len() implies (#[trigger] held[i]).valid() by {
        assert(first[i] == held[i].point());
        assert(first[i].valid());
    }
    assert forall|i: int| 0 <= i < whole.len() implies (#[trigger] whole[i]).valid() by {
        if i < n {
            assert(held[i].valid());
        } else {
            assert(own[i - n].value.finite());
            lemma_ends();
        }
    }
    assert forall|i: int, j: int| 0 <= i < j < held.len() implies (#[trigger] held[i]).at.less(
        (#[trigger] held[j]).at,
    ) && crate::model::keys::reach(held[i].at, held[j].at) is None by {
        assert(first[i] == held[i].point() && first[j] == held[j].point());
        assert(first[i].at.less(first[j].at));
    }
    assert forall|i: int, j: int| 0 <= i < j < whole.len() implies (#[trigger] whole[i]).at.less(
        (#[trigger] whole[j]).at,
    ) && crate::model::keys::reach(whole[i].at, whole[j].at) is None by {
        assert(run[i] == whole[i].point() && run[j] == whole[j].point());
        assert(run[i].at.less(run[j].at));
    }
    assert(first.last() == held.last().point());
    assert(tail[0] == own[0].point());
    assert(landing[0].at == second[0].at);
}

/// Merging gets a property's ride back: a clip is split between two of the keys of
/// a property and the pieces are merged, and whatever the property is worth at a
/// position, it was worth there before, up to the slips of the two pieces, the drift
/// of their keys, and the slack.
pub proof fn lemma_merging_gets_the_ride_back(
    clip: ClipView,
    offset: Number,
    id: Seq<char>,
    start: Number,
    ride: Ride,
    property: KeyProperty,
    slack: real,
    reach: real,
    swing: real,
    drift: real,
)
    requires
        cuts_inside(clip, offset, id, start, ride),
        run_mends(
            clip,
            offset,
            id,
            start,
            ride,
            run_on(clip, property),
            clip.constant(property),
            slack,
            reach,
            swing,
            drift,
        ),
    ensures
        gets_back(
            run_on(clip, property),
            run_on(merged(pieces_at(clip, offset, id, start, ride), ride), property),
            quotient(offset, clip.duration),
            slack,
            reach,
            swing,
            drift,
        ),
{
    let pieces = pieces_at(clip, offset, id, start, ride);
    let head = pieces[0];
    let tail = pieces[1];
    let length = length_of(pieces);
    let cut = quotient(offset, clip.duration);
    let stretch = quotient(length, offset);
    let away = difference(tail.start, head.start);
    let keys = run_on(clip, property);
    let rest = clip.constant(property);
    lemma_none_and_all(clip.duration);
    lemma_none_and_all(offset);
    lemma_carried_run_is_tidy(keys, num(ZERO), cut, ride, rest);
    lemma_carried_run_is_tidy(keys, cut, num(ONE), ride, rest);
    let before = ClipView { duration: offset, fade_out: num(ZERO), ..clip };
    lemma_property_moved(before, clip.duration, num(ZERO), offset, ride, property);
    let after = ClipView {
        id,
        start,
        duration: difference(clip.duration, offset),
        source_start: sum(clip.source_start, product(offset, clip.speed)),
        transition_in: None,
        fade_in: num(ZERO),
        ..clip
    };
    lemma_property_moved(after, clip.duration, offset, clip.duration, ride, property);
    lemma_windowed_keeps(
        before,
        clip.duration,
        num(ZERO),
        offset,
        ride,
    );
    lemma_windowed_keeps(
        after,
        clip.duration,
        offset,
        clip.duration,
        ride,
    );
    let long = ClipView { duration: length, ..head };
    let run = run_on(head, property);
    lemma_spread(run, stretch, ride, rest);
    lemma_first_is_tidy(run, rewindowed(run, num(ZERO), stretch, ride, rest), stretch);
    assert(long.constant(property) == rest);
    lemma_property_moved(long, offset, num(ZERO), length, ride, property);
    let spread = long.windowed(offset, num(ZERO), length, ride);
    lemma_windowed_keeps(long, offset, num(ZERO), length, ride);
    let held = keys_of(spread.keys, property);
    let own = keys_of(tail.keys, property);
    lemma_fits(
        held,
        own,
        keys,
        cut,
        stretch,
        away,
        tail.duration,
        length,
        ride,
        rest,
        slack,
        reach,
        swing,
        drift,
    );
    lemma_keys_put(spread, tail.keys, property, away, tail.duration, length);
    assert(pieces.skip(1) =~= seq![tail]);
    assert(seq![tail].drop_last() =~= Seq::<ClipView>::empty());
    reveal_with_fuel(absorbed_all, 2);
    reveal(ClipView::absorbed);
    lemma_a_merge_gets_the_ride_back(
        keys,
        cut,
        stretch,
        away,
        tail.duration,
        length,
        ride,
        rest,
        slack,
        reach,
        swing,
        drift,
    );
}

/// A chain once the pieces of its clip are merged.
pub open spec fn merged_chain(
    effects: Seq<FilterView>,
    cut: Number,
    stretch: Number,
    offset: Number,
    length: Number,
    duration: Number,
    ride: Ride,
) -> Seq<FilterView> {
    effects.map_values(
        |f: FilterView|
            f.windowed(num(ZERO), cut, ride).windowed(num(ZERO), stretch, ride).absorbed(
                f.windowed(cut, num(ONE), ride),
                offset,
                length,
                duration,
            ),
    )
}

/// The chains of a merged clip.
proof fn lemma_merged_chains(
    clip: ClipView,
    offset: Number,
    id: Seq<char>,
    start: Number,
    ride: Ride,
)
    requires
        cuts_inside(clip, offset, id, start, ride),
    ensures
        ({
            let pieces = pieces_at(clip, offset, id, start, ride);
            let length = length_of(pieces);
            let cut = quotient(offset, clip.duration);
            let stretch = quotient(length, offset);
            let away = difference(pieces[1].start, pieces[0].start);
            let whole = merged(pieces, ride);
            &&& whole.filters == merged_chain(
                clip.filters,
                cut,
                stretch,
                away,
                pieces[1].duration,
                length,
                ride,
            )
            &&& whole.video_effects == merged_chain(
                clip.video_effects,
                cut,
                stretch,
                away,
                pieces[1].duration,
                length,
                ride,
            )
        }),
{
    let pieces = pieces_at(clip, offset, id, start, ride);
    let head = pieces[0];
    let tail = pieces[1];
    let length = length_of(pieces);
    let cut = quotient(offset, clip.duration);
    let stretch = quotient(length, offset);
    let away = difference(tail.start, head.start);
    lemma_none_and_all(clip.duration);
    lemma_none_and_all(offset);
    reveal(ClipView::windowed);
    reveal(ClipView::absorbed);
    reveal_with_fuel(absorbed_all, 2);
    assert(pieces.skip(1) =~= seq![tail]);
    assert(seq![tail].drop_last() =~= Seq::<ClipView>::empty());
    assert(head.filters == windowed_chain(clip.filters, num(ZERO), cut, ride));
    assert(tail.filters == windowed_chain(clip.filters, cut, num(ONE), ride));
    assert(head.video_effects == windowed_chain(clip.video_effects, num(ZERO), cut, ride));
    assert(tail.video_effects == windowed_chain(clip.video_effects, cut, num(ONE), ride));
    let whole = merged(pieces, ride);
    assert(whole.filters =~= merged_chain(
        clip.filters,
        cut,
        stretch,
        away,
        tail.duration,
        length,
        ride,
    ));
    assert(whole.video_effects =~= merged_chain(
        clip.video_effects,
        cut,
        stretch,
        away,
        tail.duration,
        length,
        ride,
    ));
}

/// Merging gets the rides of a sound filter back, parameter by parameter, as it
/// does a property's.
pub proof fn lemma_merging_gets_the_filters_back(
    clip: ClipView,
    offset: Number,
    id: Seq<char>,
    start: Number,
    ride: Ride,
    i: int,
    name: Seq<char>,
    slack: real,
    reach: real,
    swing: real,
    drift: real,
)
    requires
        cuts_inside(clip, offset, id, start, ride),
        0 <= i < clip.filters.len(),
        clip.filters[i].keys.dom().contains(name),
        run_mends(
            clip,
            offset,
            id,
            start,
            ride,
            clip.filters[i].keys[name],
            clip.filters[i].param(name, num(ZERO)),
            slack,
            reach,
            swing,
            drift,
        ),
    ensures
        ({
            let whole = merged(pieces_at(clip, offset, id, start, ride), ride).filters[i];
            &&& whole.keys.dom().contains(name)
            &&& gets_back(
                clip.filters[i].keys[name],
                whole.keys[name],
                quotient(offset, clip.duration),
                slack,
                reach,
                swing,
                drift,
            )
        }),
{
    lemma_merged_chains(clip, offset, id, start, ride);
    let pieces = pieces_at(clip, offset, id, start, ride);
    let length = length_of(pieces);
    lemma_an_effect_gets_its_rides_back(
        clip.filters[i],
        name,
        quotient(offset, clip.duration),
        quotient(length, offset),
        difference(pieces[1].start, pieces[0].start),
        pieces[1].duration,
        length,
        ride,
        slack,
        reach,
        swing,
        drift,
    );
}

/// Merging gets the rides of a picture effect back, parameter by parameter, as it
/// does a property's.
pub proof fn lemma_merging_gets_the_effects_back(
    clip: ClipView,
    offset: Number,
    id: Seq<char>,
    start: Number,
    ride: Ride,
    i: int,
    name: Seq<char>,
    slack: real,
    reach: real,
    swing: real,
    drift: real,
)
    requires
        cuts_inside(clip, offset, id, start, ride),
        0 <= i < clip.video_effects.len(),
        clip.video_effects[i].keys.dom().contains(name),
        run_mends(
            clip,
            offset,
            id,
            start,
            ride,
            clip.video_effects[i].keys[name],
            clip.video_effects[i].param(name, num(ZERO)),
            slack,
            reach,
            swing,
            drift,
        ),
    ensures
        ({
            let whole = merged(pieces_at(clip, offset, id, start, ride), ride).video_effects[i];
            &&& whole.keys.dom().contains(name)
            &&& gets_back(
                clip.video_effects[i].keys[name],
                whole.keys[name],
                quotient(offset, clip.duration),
                slack,
                reach,
                swing,
                drift,
            )
        }),
{
    lemma_merged_chains(clip, offset, id, start, ride);
    let pieces = pieces_at(clip, offset, id, start, ride);
    let length = length_of(pieces);
    lemma_an_effect_gets_its_rides_back(
        clip.video_effects[i],
        name,
        quotient(offset, clip.duration),
        quotient(length, offset),
        difference(pieces[1].start, pieces[0].start),
        pieces[1].duration,
        length,
        ride,
        slack,
        reach,
        swing,
        drift,
    );
}

} // verus!
