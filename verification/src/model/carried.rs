//! What a window leaves of a clip's keys: every keyed property, and every keyed
//! parameter of an effect, plays what it did over that stretch.

use crate::find::{lemma_filter_all, lemma_filter_none, lemma_filter_twice};
use crate::model::clip::{
    keys_from, keys_of, keys_without, measurable, points_of, windowed_chain, ClipView,
};
use crate::model::echo::{slack_on, slip_on};
use crate::model::exact::{
    instant, lemma_beyond, lemma_ends, lemma_placed_finite, lemma_same_or_less, open_window,
};
use crate::model::filter::FilterView;
use crate::model::keys::{ordered_keys, ordered_run, ClipKey, KeyProperty, ParamKey};
use crate::model::playing::{clear, heard, on_ride, playable};
use crate::model::replay::{
    carries, heads, lemma_keys_play_the_same, lemma_new_run, lemma_three_parts,
};
use crate::model::ride::{cut_keys, rewindowed, shifted, Ride};
use crate::number::{difference, lemma_sum_keeps_order, negated, num, quotient, sum, Number, ZERO};
use crate::order::{in_order, lemma_sorted, lemma_sorted_already, lemma_sorted_filters, Ranked};
use crate::rounding::{
    lemma_quotient_keeps_order, lemma_quotient_of_negative, lemma_quotient_of_positive,
    lemma_ranks_as_valued,
};
use vstd::prelude::*;

verus! {

/// The way from a window's opening to a key in it.
proof fn lemma_way_in(key: ParamKey, a: Number, b: Number)
    requires
        key.at.finite(),
        open_window(a, b),
        a.at_most(key.at),
        key.at.at_most(b),
    ensures
        difference(key.at, a).finite(),
        difference(key.at, a).value() >= 0,
        a.less(key.at) ==> !difference(key.at, a).negative(),
        !a.less(key.at) ==> difference(key.at, a).magnitude() == 0,
        key.at == a ==> !difference(key.at, a).negative(),
        difference(b, a).value() > 0,
        !difference(b, a).negative(),
{
    lemma_beyond(a, b);
    lemma_sum_keeps_order(key.at, b, negated(a));
    lemma_same_or_less(key.at, b, a);
    lemma_ranks_as_valued(a, key.at);
    lemma_ranks_as_valued(key.at, a);
    if a.less(key.at) {
        lemma_beyond(a, key.at);
    } else {
        reveal(sum);
        assert(negated(a).value() == -a.value());
        assert(key.at.value() == a.value());
    }
}

/// A key further on in the window is put no earlier.
proof fn lemma_shifted_in_order(x: ParamKey, y: ParamKey, a: Number, b: Number)
    requires
        x.at.finite(),
        y.at.finite(),
        open_window(a, b),
        a.at_most(x.at),
        x.at.less(y.at),
        y.at.at_most(b),
    ensures
        shifted(x, a, b).at.rank() <= shifted(y, a, b).at.rank(),
        !shifted(y, a, b).at.negative(),
{
    let c = difference(b, a);
    let d = difference(x.at, a);
    let e = difference(y.at, a);
    lemma_ends();
    lemma_way_in(x, a, b);
    lemma_way_in(y, a, b);
    lemma_quotient_of_positive(e, c);
    if d.negative() {
        lemma_quotient_of_negative(d, c);
    } else {
        lemma_sum_keeps_order(x.at, y.at, negated(a));
        lemma_ranks_as_valued(d, e);
        lemma_ranks_as_valued(e, d);
        lemma_quotient_keeps_order(d, e, c);
    }
}

/// A key on the opening of a window that has a key before it is put at zero.
proof fn lemma_shifted_forward(key: ParamKey, a: Number, b: Number)
    requires
        key.at.finite(),
        open_window(a, b),
        a.at_most(key.at),
        key.at.at_most(b),
        num(ZERO).less(a),
    ensures
        !shifted(key, a, b).at.negative(),
{
    lemma_ends();
    lemma_way_in(key, a, b);
    if !a.less(key.at) {
        assert(key.at.bits == a.bits);
    }
    lemma_quotient_of_positive(difference(key.at, a), difference(b, a));
}

/// The keys of a carried run can be played, and are in order.
pub proof fn lemma_carried_run_is_tidy(
    keys: Seq<ParamKey>,
    a: Number,
    b: Number,
    ride: Ride,
    rest: Number,
)
    requires
        playable(keys),
        open_window(a, b),
        forall|i: int| 0 <= i < keys.len() ==> clear(#[trigger] keys[i], a, b),
        ride(keys, a, rest).finite(),
        ride(keys, b, rest).finite(),
    ensures
        ({
            let new = rewindowed(keys, a, b, ride, rest);
            &&& new.len() > 0
            &&& forall|k: int| 0 <= k < new.len() ==> (#[trigger] new[k]).valid()
            &&& in_order(new, |k: ParamKey| k.rank())
        }),
{
    let new = rewindowed(keys, a, b, ride, rest);
    let cut = cut_keys(keys, a, b);
    let (m, n) = lemma_three_parts(keys, a, b);
    lemma_new_run(keys, a, b, ride, rest, m, n);
    lemma_ends();
    let h = heads(m);
    assert(keys[0].valid());
    assert forall|k: int| 0 <= k < new.len() implies (#[trigger] new[k]).valid() by {
        if h <= k < h + (n - m) {
            assert(keys[k - h + m].valid());
            lemma_placed_finite(cut[k - h + m], a, b);
        } else if k < h {
            assert(new[k] == new[0]);
        } else {
            assert(new[k] == new.last());
        }
    }
    assert forall|j: int, k: int| 0 <= j <= k < new.len() implies (#[trigger] new[j]).rank() <= (
    #[trigger] new[k]).rank() by {
        assert(new[j].valid() && new[k].valid());
        if j < k {
            if k >= h + (n - m) {
                assert(new[k] == new.last());
            } else {
                let y = cut[k - h + m];
                assert(keys[k - h + m].valid());
                if j < h {
                    assert(new[j] == new[0]);
                    assert(keys[0].at.less(a));
                    lemma_shifted_forward(y, a, b);
                } else {
                    let x = cut[j - h + m];
                    assert(keys[j - h + m].valid());
                    assert(keys[j - h + m].at.less(keys[k - h + m].at));
                    lemma_shifted_in_order(x, y, a, b);
                }
            }
        }
    }
}

/// Whether of a clip, one property of which was carried, another property's keys
/// are what they were, and its own what they should be.
#[verifier::opaque]
spec fn moves(
    before: ClipView,
    after: ClipView,
    moved: KeyProperty,
    property: KeyProperty,
    a: Number,
    b: Number,
    ride: Ride,
) -> bool {
    let held = keys_of(before.keys, property);
    &&& after == ClipView { keys: after.keys, ..before }
    &&& keys_of(after.keys, property) == if moved != property || held.len() == 0 {
        held
    } else {
        keys_from(rewindowed(points_of(held), a, b, ride, before.constant(property)), property)
    }
}

/// What a window over one property leaves of the keys of another, and of its own.
proof fn lemma_property_window(
    clip: ClipView,
    moved: KeyProperty,
    property: KeyProperty,
    a: Number,
    b: Number,
    ride: Ride,
)
    ensures
        moves(
            clip,
            clip.windowed_property(moved, a, b, ride),
            moved,
            property,
            a,
            b,
            ride,
        ),
{
    reveal(moves);
    let held = keys_of(clip.keys, moved);
    if held.len() > 0 {
        let run = rewindowed(points_of(held), a, b, ride, clip.constant(moved));
        let others = keys_without(clip.keys, moved);
        let own = keys_from(run, moved);
        let pred = |k: ClipKey| k.property == property;
        let rest = |k: ClipKey| k.property != moved;
        Seq::filter_distributes_over_add(others, own, pred);
        if moved == property {
            let none = |k: ClipKey| false;
            lemma_filter_twice(clip.keys, rest, pred, none);
            lemma_filter_none(clip.keys, none);
            lemma_filter_all(own, pred);
            assert(Seq::<ClipKey>::empty() + own =~= own);
        } else {
            lemma_filter_twice(clip.keys, rest, pred, pred);
            lemma_filter_none(own, pred);
            let kept = keys_of(clip.keys, property);
            assert(kept + Seq::<ClipKey>::empty() =~= kept);
        }
    }
}

/// A clip each property of which was carried in turn.
proof fn lemma_in_turn(
    clip: ClipView,
    scaled: ClipView,
    across: ClipView,
    down: ClipView,
    turned: ClipView,
    faded: ClipView,
    moved: ClipView,
    property: KeyProperty,
    a: Number,
    b: Number,
    ride: Ride,
)
    requires
        moves(clip, scaled, KeyProperty::Scale, property, a, b, ride),
        moves(scaled, across, KeyProperty::OffsetX, property, a, b, ride),
        moves(across, down, KeyProperty::OffsetY, property, a, b, ride),
        moves(down, turned, KeyProperty::Rotation, property, a, b, ride),
        moves(turned, faded, KeyProperty::Opacity, property, a, b, ride),
        moves(faded, moved, KeyProperty::Volume, property, a, b, ride),
    ensures
        carried_keys(clip, moved, property, a, b, ride),
{
    reveal(moves);
    let held = keys_of(clip.keys, property);
    if property == KeyProperty::Scale {
        assert(keys_of(moved.keys, property) == keys_of(scaled.keys, property));
    } else {
        assert(keys_of(scaled.keys, property) == held);
        assert(scaled.constant(property) == clip.constant(property));
    }
}

/// Whether a clip's keys of one property are another's, carried.
spec fn carried_keys(
    clip: ClipView,
    moved: ClipView,
    property: KeyProperty,
    a: Number,
    b: Number,
    ride: Ride,
) -> bool {
    let held = keys_of(clip.keys, property);
    keys_of(moved.keys, property) == if held.len() == 0 {
        held
    } else {
        keys_from(rewindowed(points_of(held), a, b, ride, clip.constant(property)), property)
    }
}

/// A clip with every property's keys carried.
spec fn all_moved(clip: ClipView, a: Number, b: Number, ride: Ride) -> ClipView {
    clip.windowed_property(KeyProperty::Scale, a, b, ride).windowed_property(
        KeyProperty::OffsetX,
        a,
        b,
        ride,
    ).windowed_property(KeyProperty::OffsetY, a, b, ride).windowed_property(
        KeyProperty::Rotation,
        a,
        b,
        ride,
    ).windowed_property(KeyProperty::Opacity, a, b, ride).windowed_property(
        KeyProperty::Volume,
        a,
        b,
        ride,
    )
}

/// The keys of one property once a clip is carried, before they are put in order.
proof fn lemma_keys_moved(
    clip: ClipView,
    property: KeyProperty,
    a: Number,
    b: Number,
    ride: Ride,
)
    ensures
        carried_keys(clip, all_moved(clip, a, b, ride), property, a, b, ride),
{
    let scaled = clip.windowed_property(KeyProperty::Scale, a, b, ride);
    let across = scaled.windowed_property(KeyProperty::OffsetX, a, b, ride);
    let down = across.windowed_property(KeyProperty::OffsetY, a, b, ride);
    let turned = down.windowed_property(KeyProperty::Rotation, a, b, ride);
    let faded = turned.windowed_property(KeyProperty::Opacity, a, b, ride);
    let moved = faded.windowed_property(KeyProperty::Volume, a, b, ride);
    lemma_property_window(clip, KeyProperty::Scale, property, a, b, ride);
    lemma_property_window(scaled, KeyProperty::OffsetX, property, a, b, ride);
    lemma_property_window(across, KeyProperty::OffsetY, property, a, b, ride);
    lemma_property_window(down, KeyProperty::Rotation, property, a, b, ride);
    lemma_property_window(turned, KeyProperty::Opacity, property, a, b, ride);
    lemma_property_window(faded, KeyProperty::Volume, property, a, b, ride);
    lemma_in_turn(clip, scaled, across, down, turned, faded, moved, property, a, b, ride);
}

/// The keys of one property, put in order with all the others.
pub proof fn lemma_keys_of_ordered(keys: Seq<ClipKey>, property: KeyProperty)
    requires
        forall|i: int|
            0 <= i < keys_of(keys, property).len() ==> (#[trigger] keys_of(
                keys,
                property,
            )[i]).valid(),
        in_order(keys_of(keys, property), |k: ClipKey| k.rank()),
    ensures
        keys_of(ordered_keys(keys), property) == keys_of(keys, property),
{
    let valid = |k: ClipKey| k.valid();
    let own = |k: ClipKey| k.property == property;
    let both = |k: ClipKey| k.valid() && k.property == property;
    let rank = |k: ClipKey| k.rank();
    lemma_sorted_filters(keys.filter(valid), rank, own);
    lemma_filter_twice(keys, valid, own, both);
    lemma_filter_twice(keys, own, valid, both);
    lemma_filter_all(keys_of(keys, property), valid);
    lemma_sorted_already(keys_of(keys, property), rank);
}

/// A property's run once its clip is carried onto a window, where that can be
/// played and is in order.
pub proof fn lemma_property_moved(
    clip: ClipView,
    old: Number,
    from: Number,
    to: Number,
    ride: Ride,
    property: KeyProperty,
)
    requires
        measurable(old, from, to),
        keys_of(clip.keys, property).len() > 0,
        ({
            let run = rewindowed(
                points_of(keys_of(clip.keys, property)),
                quotient(from, old),
                quotient(to, old),
                ride,
                clip.constant(property),
            );
            &&& forall|k: int| 0 <= k < run.len() ==> (#[trigger] run[k]).valid()
            &&& in_order(run, |k: ParamKey| k.rank())
        }),
    ensures
        points_of(keys_of(clip.windowed(old, from, to, ride).keys, property)) == rewindowed(
            points_of(keys_of(clip.keys, property)),
            quotient(from, old),
            quotient(to, old),
            ride,
            clip.constant(property),
        ),
{
    reveal(ClipView::windowed);
    let a = quotient(from, old);
    let b = quotient(to, old);
    let keys = points_of(keys_of(clip.keys, property));
    let run = rewindowed(keys, a, b, ride, clip.constant(property));
    let moved = all_moved(clip, a, b, ride);
    lemma_keys_moved(clip, property, a, b, ride);
    let own = keys_from(run, property);
    assert(keys_of(moved.keys, property) == own);
    assert forall|i: int| 0 <= i < own.len() implies (#[trigger] own[i]).valid() by {
        assert(run[i].valid());
    }
    assert forall|i: int, j: int| 0 <= i <= j < own.len() implies (#[trigger] own[i]).rank() <= (
    #[trigger] own[j]).rank() by {
        assert(run[i].rank() <= run[j].rank());
    }
    lemma_keys_of_ordered(moved.keys, property);
    assert(points_of(own) =~= run);
}

/// Every keyed property of a clip plays the same once the clip is carried onto a
/// window of its old length: whatever the property is worth a part of the clip
/// gone, it was worth at that part of the window, up to the slips and the slack of
/// its run.
pub proof fn lemma_properties_play_the_same(
    clip: ClipView,
    old: Number,
    from: Number,
    to: Number,
    ride: Ride,
    property: KeyProperty,
    slack: real,
    reach: real,
    swing: real,
    part: real,
    value: real,
)
    requires
        measurable(old, from, to),
        ({
            let (a, b) = (quotient(from, old), quotient(to, old));
            let keys = points_of(keys_of(clip.keys, property));
            let rest = clip.constant(property);
            &&& carries(keys, a, b, ride, rest, slack, reach, swing)
            &&& ride(keys, a, rest).finite()
            &&& ride(keys, b, rest).finite()
        }),
        0 as real <= part <= 1 as real,
        on_ride(
            points_of(keys_of(clip.windowed(old, from, to, ride).keys, property)),
            part,
            value,
        ),
    ensures
        ({
            let (a, b) = (quotient(from, old), quotient(to, old));
            let keys = points_of(keys_of(clip.keys, property));
            heard(
                keys,
                instant(a, b, part),
                value,
                slip_on(keys, a, b),
                slack_on(keys, slack, reach, swing),
            )
        }),
{
    let keys = points_of(keys_of(clip.keys, property));
    lemma_carried_run_is_tidy(
        keys,
        quotient(from, old),
        quotient(to, old),
        ride,
        clip.constant(property),
    );
    lemma_property_moved(clip, old, from, to, ride, property);
    lemma_keys_play_the_same(
        keys,
        quotient(from, old),
        quotient(to, old),
        ride,
        clip.constant(property),
        slack,
        reach,
        swing,
        part,
        value,
    );
}

/// A property without keys has none once the clip is carried, and stays at the
/// value it is set to.
pub proof fn lemma_unkeyed_properties_stay(
    clip: ClipView,
    old: Number,
    from: Number,
    to: Number,
    ride: Ride,
    property: KeyProperty,
)
    requires
        keys_of(clip.keys, property).len() == 0,
    ensures
        keys_of(clip.windowed(old, from, to, ride).keys, property).len() == 0,
        clip.windowed(old, from, to, ride).constant(property) == clip.constant(property),
{
    reveal(ClipView::windowed);
    if measurable(old, from, to) {
        let a = quotient(from, old);
        let b = quotient(to, old);
        let moved = all_moved(clip, a, b, ride);
    lemma_keys_moved(clip, property, a, b, ride);
        lemma_keys_of_ordered(moved.keys, property);
    }
}

/// A keyed parameter of an effect of a chain plays the same once the chain is
/// carried.
proof fn lemma_chain_plays_the_same(
    effects: Seq<FilterView>,
    i: int,
    name: Seq<char>,
    a: Number,
    b: Number,
    ride: Ride,
    slack: real,
    reach: real,
    swing: real,
    part: real,
    value: real,
)
    requires
        0 <= i < effects.len(),
        effects[i].keys.dom().contains(name),
        ({
            let keys = effects[i].keys[name];
            let rest = effects[i].param(name, num(ZERO));
            &&& carries(keys, a, b, ride, rest, slack, reach, swing)
            &&& ride(keys, a, rest).finite()
            &&& ride(keys, b, rest).finite()
        }),
        0 as real <= part <= 1 as real,
    ensures
        ({
            let keys = effects[i].keys[name];
            let after = windowed_chain(effects, a, b, ride)[i];
            &&& after.keys.dom().contains(name)
            &&& on_ride(after.keys[name], part, value) ==> heard(
                keys,
                instant(a, b, part),
                value,
                slip_on(keys, a, b),
                slack_on(keys, slack, reach, swing),
            )
        }),
{
    let keys = effects[i].keys[name];
    let rest = effects[i].param(name, num(ZERO));
    let run = rewindowed(keys, a, b, ride, rest);
    lemma_carried_run_is_tidy(keys, a, b, ride, rest);
    lemma_filter_all(run, |k: ParamKey| k.valid());
    lemma_sorted_already(run, |k: ParamKey| k.rank());
    assert(ordered_run(run) == run);
    if on_ride(run, part, value) {
        lemma_keys_play_the_same(keys, a, b, ride, rest, slack, reach, swing, part, value);
    }
}

/// Every keyed parameter of a sound filter plays the same once
/// the clip is carried onto a window of its old length. It still has a run, and
/// whatever that is worth a part of the clip gone, the old one was worth at that
/// part of the window, up to the slips and the slack of the run.
pub proof fn lemma_filters_play_the_same(
    clip: ClipView,
    old: Number,
    from: Number,
    to: Number,
    ride: Ride,
    i: int,
    name: Seq<char>,
    slack: real,
    reach: real,
    swing: real,
    part: real,
    value: real,
)
    requires
        measurable(old, from, to),
        0 <= i < clip.filters.len(),
        clip.filters[i].keys.dom().contains(name),
        ({
            let (a, b) = (quotient(from, old), quotient(to, old));
            let keys = clip.filters[i].keys[name];
            let rest = clip.filters[i].param(name, num(ZERO));
            &&& carries(keys, a, b, ride, rest, slack, reach, swing)
            &&& ride(keys, a, rest).finite()
            &&& ride(keys, b, rest).finite()
        }),
        0 as real <= part <= 1 as real,
    ensures
        ({
            let (a, b) = (quotient(from, old), quotient(to, old));
            let keys = clip.filters[i].keys[name];
            let after = clip.windowed(old, from, to, ride).filters[i];
            &&& after.keys.dom().contains(name)
            &&& on_ride(after.keys[name], part, value) ==> heard(
                keys,
                instant(a, b, part),
                value,
                slip_on(keys, a, b),
                slack_on(keys, slack, reach, swing),
            )
        }),
{
    reveal(ClipView::windowed);
    lemma_chain_plays_the_same(
        clip.filters,
        i,
        name,
        quotient(from, old),
        quotient(to, old),
        ride,
        slack,
        reach,
        swing,
        part,
        value,
    );
}

/// Every keyed parameter of a picture effect plays the same once
/// the clip is carried onto a window of its old length. It still has a run, and
/// whatever that is worth a part of the clip gone, the old one was worth at that
/// part of the window, up to the slips and the slack of the run.
pub proof fn lemma_video_effects_play_the_same(
    clip: ClipView,
    old: Number,
    from: Number,
    to: Number,
    ride: Ride,
    i: int,
    name: Seq<char>,
    slack: real,
    reach: real,
    swing: real,
    part: real,
    value: real,
)
    requires
        measurable(old, from, to),
        0 <= i < clip.video_effects.len(),
        clip.video_effects[i].keys.dom().contains(name),
        ({
            let (a, b) = (quotient(from, old), quotient(to, old));
            let keys = clip.video_effects[i].keys[name];
            let rest = clip.video_effects[i].param(name, num(ZERO));
            &&& carries(keys, a, b, ride, rest, slack, reach, swing)
            &&& ride(keys, a, rest).finite()
            &&& ride(keys, b, rest).finite()
        }),
        0 as real <= part <= 1 as real,
    ensures
        ({
            let (a, b) = (quotient(from, old), quotient(to, old));
            let keys = clip.video_effects[i].keys[name];
            let after = clip.windowed(old, from, to, ride).video_effects[i];
            &&& after.keys.dom().contains(name)
            &&& on_ride(after.keys[name], part, value) ==> heard(
                keys,
                instant(a, b, part),
                value,
                slip_on(keys, a, b),
                slack_on(keys, slack, reach, swing),
            )
        }),
{
    reveal(ClipView::windowed);
    lemma_chain_plays_the_same(
        clip.video_effects,
        i,
        name,
        quotient(from, old),
        quotient(to, old),
        ride,
        slack,
        reach,
        swing,
        part,
        value,
    );
}

/// A clip's keys stay in order once they are carried onto a window, and nothing but
/// the keys, its own and its effects', is touched.
pub proof fn lemma_carried_keys_stay_in_order(
    clip: ClipView,
    old: Number,
    from: Number,
    to: Number,
    ride: Ride,
)
    requires
        measurable(old, from, to),
    ensures
        ({
            let after = clip.windowed(old, from, to, ride);
            &&& in_order(after.keys, |k: ClipKey| k.rank())
            &&& after == ClipView {
                keys: after.keys,
                filters: after.filters,
                video_effects: after.video_effects,
                ..clip
            }
        }),
{
    reveal(ClipView::windowed);
    let a = quotient(from, old);
    let b = quotient(to, old);
    let moved = clip.windowed_property(KeyProperty::Scale, a, b, ride).windowed_property(
        KeyProperty::OffsetX,
        a,
        b,
        ride,
    ).windowed_property(KeyProperty::OffsetY, a, b, ride).windowed_property(
        KeyProperty::Rotation,
        a,
        b,
        ride,
    ).windowed_property(KeyProperty::Opacity, a, b, ride).windowed_property(
        KeyProperty::Volume,
        a,
        b,
        ride,
    );
    lemma_sorted(moved.keys.filter(|k: ClipKey| k.valid()), |k: ClipKey| k.rank());
}

} // verus!
