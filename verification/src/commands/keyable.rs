//! Setting and clearing keys: what is set is there, what is cleared is gone, and the
//! others stay.

use crate::audio::heard::lemma_apart;
use crate::commands::asked::{at_least, kept_between};
use crate::commands::properties::{key_value, keying, unkeying, unkeying_all};
use crate::commands::sliding::clips_in;
use crate::find::{lemma_filter_keeps, lemma_filter_kept, lemma_first_is};
use crate::limits::{lemma_what_the_other_ranges_are, lemma_what_the_ranges_are};
use crate::measure::{apart_by, lemma_counted, lemma_least, magnitude};
use crate::model::clip::{keys_without, ClipView};
use crate::model::exact::{exact, lemma_ends, lemma_exact_order};
use crate::model::filter::around;
use crate::model::keys::{
    closest, lemma_closest, ordered_keys, reaches, ClipKey, KeyEase, KeyProperty,
};
use crate::model::nearly::{grain, lemma_grain};
use crate::model::project::ProjectView;
use crate::model::timeline::TimelineView;
use crate::number::{absolute, clamped, difference, num, sum, Number, ONE, ZERO};
use crate::order::{lemma_sorted, sorted, Ranked};
use crate::ranges::{KEY_EPSILON, MAX_SCALE, MIN_SCALE};
use vstd::prelude::*;

verus! {

/// Whether a value is what was asked for of a property, held to what it may be.
pub open spec fn key_worth(property: KeyProperty, is: Number, asked: Number) -> bool {
    match property {
        KeyProperty::Scale => exact(is) == kept_between(
            exact(asked),
            exact(num(MIN_SCALE)),
            8 as real,
        ),
        KeyProperty::Opacity => exact(is) == kept_between(exact(asked), 0 as real, 1 as real),
        KeyProperty::Volume => exact(is) == at_least(exact(asked), 0 as real),
        _ => is == asked,
    }
}

/// Keys put in order are the same keys, but for those that cannot be played.
proof fn lemma_ordered_holds(keys: Seq<ClipKey>, key: ClipKey)
    ensures
        ordered_keys(keys).contains(key) <==> keys.contains(key) && key.valid(),
{
    broadcast use vstd::seq_lib::group_to_multiset_ensures;

    let pred = |k: ClipKey| k.valid();
    let rank = |k: ClipKey| k.rank();
    let kept = keys.filter(pred);
    lemma_sorted(kept, rank);
    lemma_filter_kept(keys, pred);
    if keys.contains(key) && key.valid() {
        let i = choose|i: int| 0 <= i < keys.len() && keys[i] == key;
        lemma_filter_keeps(keys, pred, i);
    }
    if kept.contains(key) {
        let i = choose|i: int| 0 <= i < kept.len() && kept[i] == key;
        assert(pred(keys.filter(pred)[i]));
    }
    let after = sorted(kept, rank);
    assert(ordered_keys(keys) == after);
    assert(after.contains(key) <==> after.to_multiset().count(key) > 0);
    assert(kept.contains(key) <==> kept.to_multiset().count(key) > 0);
}

proof fn lemma_key_worth(property: KeyProperty, value: Number)
    requires
        value.finite(),
    ensures
        key_value(property, value).finite(),
        key_worth(property, key_value(property, value), value),
{
    lemma_ends();
    lemma_what_the_ranges_are();
    let low = num(MIN_SCALE);
    let high = num(MAX_SCALE);
    lemma_exact_order(value, low);
    lemma_exact_order(low, value);
    lemma_exact_order(value, high);
    lemma_exact_order(high, value);
    lemma_exact_order(value, num(ZERO));
    lemma_exact_order(num(ZERO), value);
    lemma_exact_order(value, num(ONE));
    lemma_exact_order(num(ONE), value);
}

/// A key that is set is there: on its property, at its place along the clip, worth what
/// was asked as far as the property allows, and approached as asked. Every other key
/// was there before, and every key of another property still is.
pub proof fn lemma_a_key_that_is_set_is_there(
    project: ProjectView,
    counter: nat,
    clip_id: Seq<char>,
    property: KeyProperty,
    at: Number,
    value: Number,
    ease: KeyEase,
)
    requires
        project.editable(),
        project.active().clip_index(clip_id) is Some,
        keying(project, counter, clip_id, property, at, value, ease).answer->Ok_0.applied,
    ensures
        ({
            let i = project.active().clip_index(clip_id)->0;
            let was = project.active().clips[i];
            let after = keying(project, counter, clip_id, property, at, value, ease);
            let is = clips_in(project, after.project)[i];
            &&& is == ClipView { keys: is.keys, ..was }
            &&& clips_in(project, after.project) == project.active().clips.update(i, is)
            &&& exists|new: ClipKey|
                {
                    &&& #[trigger] is.keys.contains(new)
                    &&& new.property == property
                    &&& exact(new.at) == kept_between(exact(at), 0 as real, 1 as real)
                    &&& key_worth(property, new.value, value)
                    &&& new.ease == ease
                    &&& forall|k: ClipKey| #[trigger]
                        is.keys.contains(k) ==> k == new || was.keys.contains(k)
                }
            &&& forall|k: ClipKey| #[trigger]
                was.keys.contains(k) && k.valid() && k.property != property ==> is.keys.contains(k)
        }),
{
    let i = project.active().clip_index(clip_id)->0;
    lemma_first_is(project.timelines, |t: TimelineView| t.id == project.active_timeline_id);
    lemma_first_is(project.active().clips, |c: ClipView| c.id == clip_id);
    let was = project.active().clips[i];
    let after = keying(project, counter, clip_id, property, at, value, ease);
    let is = clips_in(project, after.project)[i];
    let place = clamped(at, num(ZERO), num(ONE));
    let worth = key_value(property, value);
    let new = ClipKey { property, at: place, value: worth, ease };
    lemma_key_worth(property, value);
    lemma_ends();
    lemma_exact_order(at, num(ZERO));
    lemma_exact_order(num(ZERO), at);
    lemma_exact_order(at, num(ONE));
    lemma_exact_order(num(ONE), at);
    let near = reaches(was.keys, property, place);
    lemma_closest(near);
    let put = match closest(near) {
        Some(j) => was.keys.update(j, new),
        None => was.keys.push(new),
    };
    assert(is.keys == ordered_keys(put));
    lemma_ordered_holds(put, new);
    let at_new = match closest(near) {
        Some(j) => j,
        None => was.keys.len() as int,
    };
    assert(put[at_new] == new);
    assert(new.valid());
    assert(is.keys.contains(new));
    assert forall|k: ClipKey| #[trigger] is.keys.contains(k) implies k == new || was.keys.contains(
        k,
    ) by {
        lemma_ordered_holds(put, k);
        let j = choose|j: int| 0 <= j < put.len() && put[j] == k;
        if j != at_new {
            assert(was.keys[j] == k);
        }
    }
    assert forall|k: ClipKey| #[trigger]
        was.keys.contains(k) && k.valid() && k.property != property implies is.keys.contains(k) by {
        let j = choose|j: int| 0 <= j < was.keys.len() && was.keys[j] == k;
        assert(j != at_new);
        assert(put[j] == k);
        lemma_ordered_holds(put, k);
    }
}

/// Clearing a property's keys leaves none of them, and all the others as they were.
pub proof fn lemma_keys_that_are_cleared_are_gone(
    project: ProjectView,
    counter: nat,
    clip_id: Seq<char>,
    property: KeyProperty,
)
    requires
        project.editable(),
        project.active().clip_index(clip_id) is Some,
    ensures
        ({
            let i = project.active().clip_index(clip_id)->0;
            let was = project.active().clips[i];
            let after = unkeying_all(project, counter, clip_id, property);
            let is = clips_in(project, after.project)[i];
            &&& is == ClipView { keys: is.keys, ..was }
            &&& clips_in(project, after.project) == project.active().clips.update(i, is)
            &&& forall|k: ClipKey| #[trigger]
                is.keys.contains(k) <==> was.keys.contains(k) && k.property != property
        }),
{
    let i = project.active().clip_index(clip_id)->0;
    lemma_first_is(project.timelines, |t: TimelineView| t.id == project.active_timeline_id);
    lemma_first_is(project.active().clips, |c: ClipView| c.id == clip_id);
    let was = project.active().clips[i];
    let pred = |k: ClipKey| k.property != property;
    let left = was.keys.filter(pred);
    assert(keys_without(was.keys, property) == left);
    lemma_filter_kept(was.keys, pred);
    assert forall|k: ClipKey| #[trigger]
        left.contains(k) <==> was.keys.contains(k) && k.property != property by {
        if left.contains(k) {
            let j = choose|j: int| 0 <= j < left.len() && left[j] == k;
            assert(pred(was.keys.filter(pred)[j]));
        }
        if was.keys.contains(k) && k.property != property {
            let j = choose|j: int| 0 <= j < was.keys.len() && was.keys[j] == k;
            lemma_filter_keeps(was.keys, pred, j);
        }
    }
}

proof fn lemma_absolute(x: Number)
    requires
        x.finite(),
    ensures
        absolute(x).finite(),
        exact(absolute(x)) == magnitude(exact(x)),
{
    let p = vstd::arithmetic::power2::pow2(1074) as real;
    lemma_least();
    lemma_counted(x);
    lemma_counted(absolute(x));
    let e = exact(x);
    let f = exact(absolute(x));
    assert(f * p >= 0 as real);
    assert(f * p == e * p || f * p == -(e * p));
    assert(f == e || f == -e) by (nonlinear_arith)
        requires
            f * p == e * p || f * p == -(e * p),
            p > 0 as real,
    ;
    assert(f >= 0 as real) by (nonlinear_arith)
        requires
            f * p >= 0 as real,
            p > 0 as real,
    ;
}

/// Clearing a key at a place takes away one key of that property, no further from the
/// place than a five hundredth of the clip, and leaves the rest. A key that stands
/// there is not missed.
pub proof fn lemma_a_key_that_is_cleared_is_gone(
    project: ProjectView,
    counter: nat,
    clip_id: Seq<char>,
    property: KeyProperty,
    at: Number,
)
    requires
        project.editable(),
        project.active().clip_index(clip_id) is Some,
        at.finite(),
        0 as real <= exact(at) <= 1 as real,
        ({
            let i = project.active().clip_index(clip_id)->0;
            let was = project.active().clips[i];
            forall|k: int|
                0 <= k < was.keys.len() ==> (#[trigger] was.keys[k]).at.finite() && 0 as real
                    <= exact(was.keys[k].at) && exact(was.keys[k].at) <= 1 as real
        }),
    ensures
        ({
            let i = project.active().clip_index(clip_id)->0;
            let was = project.active().clips[i];
            let after = unkeying(project, counter, clip_id, property, at);
            let is = clips_in(project, after.project)[i];
            let off = 1 as real / 500 as real + 1 as real / 1000000000 as real;
            &&& is == ClipView { keys: is.keys, ..was }
            &&& is.keys == was.keys || exists|j: int|
                {
                    &&& 0 <= j < was.keys.len()
                    &&& (#[trigger] was.keys[j]).property == property
                    &&& apart_by(exact(was.keys[j].at), exact(at), off)
                    &&& is.keys == was.keys.remove(j)
                }
            &&& forall|j: int|
                0 <= j < was.keys.len() && (#[trigger] was.keys[j]).property == property && exact(
                    was.keys[j].at,
                ) == exact(at) ==> is.keys.len() == was.keys.len() - 1
        }),
{
    let i = project.active().clip_index(clip_id)->0;
    lemma_first_is(project.timelines, |t: TimelineView| t.id == project.active_timeline_id);
    lemma_first_is(project.active().clips, |c: ClipView| c.id == clip_id);
    let was = project.active().clips[i];
    let near = reaches(was.keys, property, at);
    let eps = num(KEY_EPSILON);
    lemma_closest(near);
    lemma_what_the_other_ranges_are();
    lemma_grain();
    crate::model::exact::lemma_product_no_less(
        1000000000000 as real,
        crate::rounding::PARTS as real,
        grain(),
    );
    match closest(near) {
        Some(j) => {
            let held = was.keys[j].at;
            let gap = difference(held, at);
            lemma_apart(at, held, 1 as real);
            assert(grain() * (1 as real) == grain());
            lemma_absolute(gap);
            lemma_exact_order(absolute(gap), eps);
        },
        None => {},
    }
    assert forall|j: int|
        0 <= j < was.keys.len() && (#[trigger] was.keys[j]).property == property && exact(
            was.keys[j].at,
        ) == exact(at) implies closest(near) is Some by {
        let held = was.keys[j].at;
        let gap = difference(held, at);
        lemma_apart(at, held, 1 as real);
        lemma_absolute(gap);
        lemma_exact_order(eps, absolute(gap));
        assert(grain() * (1 as real) == grain());
        assert(near[j] is Some);
    }
}

/// Each property rests at the clip's own value of it.
pub proof fn lemma_a_property_rests_at_its_own_value(clip: ClipView)
    ensures
        clip.constant(KeyProperty::Scale) == clip.scale,
        clip.constant(KeyProperty::OffsetX) == clip.offset_x,
        clip.constant(KeyProperty::OffsetY) == clip.offset_y,
        clip.constant(KeyProperty::Rotation) == clip.rotation,
        clip.constant(KeyProperty::Opacity) == clip.opacity,
        clip.constant(KeyProperty::Volume) == clip.volume,
{
}

/// The neighbours of a place are keys, one before it and one after it, and no other key
/// on that side is nearer.
pub proof fn lemma_the_neighbours_are_nearest(ats: Seq<Number>, at: Number)
    ensures
        ({
            let (before, after) = around(ats, at);
            let low = difference(at, num(KEY_EPSILON));
            let high = sum(at, num(KEY_EPSILON));
            &&& before is Some ==> ats.contains(before->0) && before->0.less(low)
            &&& after is Some ==> ats.contains(after->0) && high.less(after->0)
            &&& forall|i: int|
                0 <= i < ats.len() && (#[trigger] ats[i]).less(low) ==> before is Some
                    && ats[i].at_most(before->0)
            &&& forall|i: int|
                0 <= i < ats.len() && !(#[trigger] ats[i]).less(low) && high.less(ats[i])
                    ==> after is Some && after->0.at_most(ats[i])
        }),
    decreases ats.len(),
{
    if ats.len() > 0 {
        let less = ats.drop_last();
        lemma_the_neighbours_are_nearest(less, at);
        let (before, after) = around(less, at);
        let held = ats.last();
        assert(ats.contains(held));
        assert forall|x: Number| less.contains(x) implies #[trigger] ats.contains(x) by {
            let i = choose|i: int| 0 <= i < less.len() && less[i] == x;
            assert(ats[i] == x);
        }
        assert forall|i: int| 0 <= i < less.len() implies #[trigger] ats[i] == less[i] by {}
    }
}

} // verus!
