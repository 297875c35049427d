//! That a merge gets the rides of a clip's properties back, which share one list of
//! keys.

use crate::find::lemma_filter_kept;
use crate::model::carried::lemma_keys_of_ordered;
use crate::model::clip::{keys_of, keys_with, ClipView};
use crate::model::filter::rejoined;
use crate::model::keys::{closest, lemma_closest, reach, reaches, ClipKey, KeyEase, KeyProperty};
use crate::number::{clamped, num, Number, ONE, ZERO};
use crate::order::{in_order, Ranked};
use vstd::prelude::*;

verus! {

/// A list with one thing written over, picked from.
proof fn lemma_filter_around<T>(s: Seq<T>, i: int, x: T, pred: spec_fn(T) -> bool)
    requires
        0 <= i < s.len(),
    ensures
        s.update(i, x).filter(pred) == s.take(i).filter(pred) + if pred(x) {
            seq![x]
        } else {
            seq![]
        } + s.skip(i + 1).filter(pred),
{
    let one = seq![x];
    assert(s.update(i, x) =~= s.take(i) + one + s.skip(i + 1));
    Seq::filter_distributes_over_add(s.take(i) + one, s.skip(i + 1), pred);
    Seq::filter_distributes_over_add(s.take(i), one, pred);
    assert(one.filter(pred) =~= if pred(x) {
        seq![x]
    } else {
        seq![]
    }) by {
        reveal(Seq::filter);
        assert(one.drop_last() =~= Seq::<T>::empty());
        assert(one.drop_last().filter(pred) =~= Seq::<T>::empty());
    }
}

/// Whether a property's keys can be played and are in order.
spec fn tidy(own: Seq<ClipKey>) -> bool {
    &&& forall|i: int| 0 <= i < own.len() ==> (#[trigger] own[i]).valid()
    &&& forall|i: int, j: int|
        0 <= i < j < own.len() ==> (#[trigger] own[i]).at.less((#[trigger] own[j]).at)
}

proof fn lemma_tidy_in_order(own: Seq<ClipKey>, property: KeyProperty)
    requires
        tidy(own),
        forall|i: int| 0 <= i < own.len() ==> (#[trigger] own[i]).property == property,
    ensures
        in_order(own, |k: ClipKey| k.rank()),
{
    assert forall|i: int, j: int| 0 <= i <= j < own.len() implies (#[trigger] own[i]).rank() <= (
    #[trigger] own[j]).rank() by {
        if i < j {
            assert(own[i].at.less(own[j].at));
        }
    }
}

/// A list of keys whose keys of one property are tidy, put in order.
proof fn lemma_own_stay(keys: Seq<ClipKey>, property: KeyProperty)
    requires
        tidy(keys_of(keys, property)),
    ensures
        keys_of(crate::model::keys::ordered_keys(keys), property) == keys_of(keys, property),
{
    let own = keys_of(keys, property);
    lemma_filter_kept(keys, |k: ClipKey| k.property == property);
    lemma_tidy_in_order(own, property);
    lemma_keys_of_ordered(keys, property);
}

/// A key put on one property leaves another's.
proof fn lemma_another_stays(
    keys: Seq<ClipKey>,
    put: KeyProperty,
    property: KeyProperty,
    at: Number,
    value: Number,
    ease: KeyEase,
)
    requires
        put != property,
        tidy(keys_of(keys, property)),
    ensures
        keys_of(keys_with(keys, put, at, value, ease), property) == keys_of(keys, property),
{
    let place = clamped(at, num(ZERO), num(ONE));
    let key = ClipKey { property: put, at: place, value, ease };
    let pred = |k: ClipKey| k.property == property;
    let near = reaches(keys, put, place);
    lemma_closest(near);
    match closest(near) {
        Some(i) => {
            assert(near[i] is Some);
            assert(keys[i].property == put);
            lemma_filter_around(keys, i, key, pred);
            lemma_filter_around(keys, i, keys[i], pred);
            assert(keys.update(i, keys[i]) =~= keys);
            lemma_own_stay(keys.update(i, key), property);
        },
        None => {
            reveal(Seq::filter);
            assert(keys.push(key).drop_last() =~= keys);
            lemma_own_stay(keys.push(key), property);
        },
    }
}

/// A key that is near none of its property's joins them at their end.
proof fn lemma_own_joins(
    keys: Seq<ClipKey>,
    property: KeyProperty,
    at: Number,
    value: Number,
    ease: KeyEase,
)
    requires
        tidy(keys_of(keys, property)),
        ({
            let own = keys_of(keys, property);
            let key = ClipKey {
                property,
                at: clamped(at, num(ZERO), num(ONE)),
                value,
                ease,
            };
            &&& key.valid()
            &&& forall|i: int|
                0 <= i < own.len() ==> (#[trigger] own[i]).at.less(key.at) && reach(
                    own[i].at,
                    key.at,
                ) is None
        }),
    ensures
        keys_of(keys_with(keys, property, at, value, ease), property) == keys_of(
            keys,
            property,
        ).push(
            (ClipKey { property, at: clamped(at, num(ZERO), num(ONE)), value, ease }),
        ),
{
    let place = clamped(at, num(ZERO), num(ONE));
    let key = ClipKey { property, at: place, value, ease };
    let own = keys_of(keys, property);
    let pred = |k: ClipKey| k.property == property;
    let near = reaches(keys, property, place);
    lemma_closest(near);
    assert forall|i: int| 0 <= i < near.len() implies (#[trigger] near[i]) is None by {
        if keys[i].property == property {
            crate::find::lemma_filter_keeps(keys, pred, i);
            let j = choose|j: int| 0 <= j < own.len() && own[j] == keys[i];
            assert(own[j].at.less(place));
        }
    }
    reveal(Seq::filter);
    assert(keys.push(key).drop_last() =~= keys);
    assert(keys_of(keys.push(key), property) == own.push(key));
    lemma_own_stay(keys.push(key), property);
}

/// A key near its property's last alone takes that one's place.
proof fn lemma_own_takes_over(
    keys: Seq<ClipKey>,
    property: KeyProperty,
    at: Number,
    value: Number,
    ease: KeyEase,
)
    requires
        tidy(keys_of(keys, property)),
        keys_of(keys, property).len() > 0,
        ({
            let own = keys_of(keys, property);
            let key = ClipKey {
                property,
                at: clamped(at, num(ZERO), num(ONE)),
                value,
                ease,
            };
            &&& key.valid()
            &&& forall|i: int|
                0 <= i < own.len() - 1 ==> (#[trigger] own[i]).at.less(key.at) && reach(
                    own[i].at,
                    key.at,
                ) is None
            &&& reach(own.last().at, key.at) is Some
        }),
    ensures
        keys_of(keys_with(keys, property, at, value, ease), property) == keys_of(
            keys,
            property,
        ).drop_last().push(
            (ClipKey { property, at: clamped(at, num(ZERO), num(ONE)), value, ease }),
        ),
{
    let place = clamped(at, num(ZERO), num(ONE));
    let key = ClipKey { property, at: place, value, ease };
    let own = keys_of(keys, property);
    let top = own.len() - 1;
    let pred = |k: ClipKey| k.property == property;
    let near = reaches(keys, property, place);
    lemma_closest(near);
    lemma_filter_kept(keys, pred);
    assert(pred(own[top]) && keys.contains(own[top]));
    let at_last = choose|k: int| 0 <= k < keys.len() && keys[k] == own[top];
    assert(near[at_last] is Some);
    let i = closest(near)->0;
    assert(near[i] is Some);
    assert(keys[i].property == property);
    let before = keys.take(i).filter(pred);
    let after = keys.skip(i + 1).filter(pred);
    lemma_filter_around(keys, i, keys[i], pred);
    lemma_filter_around(keys, i, key, pred);
    assert(keys.update(i, keys[i]) =~= keys);
    assert(own == before + seq![keys[i]] + after);
    assert(own[before.len() as int] == keys[i]);
    assert(before.len() == top);
    assert(after =~= Seq::<ClipKey>::empty());
    let changed = keys.update(i, key);
    let new = keys_of(changed, property);
    assert(new =~= own.drop_last().push(key));
    assert forall|j: int, k: int| 0 <= j < k < new.len() implies (#[trigger] new[j]).at.less(
        (#[trigger] new[k]).at,
    ) by {
        assert(own[j].at.less(key.at));
        if k < top {
            assert(own[j].at.less(own[k].at));
        }
    }
    assert forall|j: int| 0 <= j < new.len() implies (#[trigger] new[j]).valid() by {
        if j < top {
            assert(own[j].valid());
        }
    }
    lemma_own_stay(changed, property);
}

/// A property's keys of a later piece, where they land in the clip it is merged
/// into.
pub open spec fn landed_keys(
    own: Seq<ClipKey>,
    offset: Number,
    length: Number,
    duration: Number,
) -> Seq<ClipKey> {
    own.map_values(
        |k: ClipKey|
            ClipKey {
                at: clamped(rejoined(k.at, offset, length, duration), num(ZERO), num(ONE)),
                ..k
            },
    )
}

/// Whether keys of a property are tidy, and no two of them count as one.
pub open spec fn keys_apart(own: Seq<ClipKey>) -> bool {
    &&& forall|i: int| 0 <= i < own.len() ==> (#[trigger] own[i]).valid()
    &&& forall|i: int, j: int|
        0 <= i < j < own.len() ==> (#[trigger] own[i]).at.less((#[trigger] own[j]).at) && reach(
            own[i].at,
            own[j].at,
        ) is None
}

/// Whether a later piece's keys of a property can be put on a clip's.
pub open spec fn keys_fit(
    held: Seq<ClipKey>,
    own: Seq<ClipKey>,
    offset: Number,
    length: Number,
    duration: Number,
) -> bool {
    let second = landed_keys(own, offset, length, duration);
    &&& held.len() > 0
    &&& keys_apart(held)
    &&& keys_apart(held.drop_last() + second)
    &&& forall|i: int|
        0 <= i < own.len() ==> (#[trigger] own[i]).value.finite() && rejoined(
            own[i].at,
            offset,
            length,
            duration,
        ).finite()
    &&& own.len() > 0 ==> reach(held.last().at, second[0].at) is Some
}

/// What fits, fits but for its last key.
proof fn lemma_fits_but_one(
    held: Seq<ClipKey>,
    own: Seq<ClipKey>,
    offset: Number,
    length: Number,
    duration: Number,
)
    requires
        own.len() > 0,
        keys_fit(held, own, offset, length, duration),
    ensures
        keys_fit(held, own.drop_last(), offset, length, duration),
{
    let less = own.drop_last();
    let second = landed_keys(own, offset, length, duration);
    let fewer = landed_keys(less, offset, length, duration);
    let whole = held.drop_last() + second;
    let part = held.drop_last() + fewer;
    assert forall|i: int| 0 <= i < part.len() implies #[trigger] part[i] == whole[i] by {
        if i >= held.len() - 1 {
            assert(fewer[i - (held.len() - 1)] == second[i - (held.len() - 1)]);
        }
    }
    assert forall|i: int| 0 <= i < part.len() implies (#[trigger] part[i]).valid() by {
        assert(whole[i].valid());
    }
    assert forall|i: int, j: int| 0 <= i < j < part.len() implies (#[trigger] part[i]).at.less(
        (#[trigger] part[j]).at,
    ) && reach(part[i].at, part[j].at) is None by {
        assert(whole[i].at.less(whole[j].at));
    }
    assert forall|i: int| 0 <= i < less.len() implies (#[trigger] less[i]).value.finite()
        && rejoined(less[i].at, offset, length, duration).finite() by {
        assert(own[i].value.finite());
    }
}

/// A later piece's keys, put on a clip one after another, leave of one property the
/// clip's own but for the last, and then the piece's where they land.
pub proof fn lemma_keys_put(
    clip: ClipView,
    keys: Seq<ClipKey>,
    property: KeyProperty,
    offset: Number,
    length: Number,
    duration: Number,
)
    requires
        keys_fit(
            keys_of(clip.keys, property),
            keys_of(keys, property),
            offset,
            length,
            duration,
        ),
    ensures
        ({
            let held = keys_of(clip.keys, property);
            let own = keys_of(keys, property);
            keys_of(clip.with_keys_of(keys, offset, length, duration).keys, property) == if own.len()
                == 0 {
                held
            } else {
                held.drop_last() + landed_keys(own, offset, length, duration)
            }
        }),
    decreases keys.len(),
{
    let held = keys_of(clip.keys, property);
    let own = keys_of(keys, property);
    let second = landed_keys(own, offset, length, duration);
    reveal(Seq::filter);
    if keys.len() > 0 {
        let rest = keys.drop_last();
        let key = keys.last();
        let less = keys_of(rest, property);
        if key.property == property {
            assert(own =~= less.push(key));
            assert(own.drop_last() =~= less);
            lemma_fits_but_one(held, own, offset, length, duration);
        } else {
            assert(own == less);
        }
        lemma_keys_put(clip, rest, property, offset, length, duration);
        let before = clip.with_keys_of(rest, offset, length, duration);
        let there = keys_of(before.keys, property);
        let fewer = landed_keys(less, offset, length, duration);
        assert(tidy(there)) by {
            assert(keys_apart(held));
            assert(keys_apart(held.drop_last() + fewer));
        }
        let at = rejoined(key.at, offset, length, duration);
        if key.property != property {
            if at.finite() && key.value.finite() {
                lemma_another_stays(
                    before.keys,
                    key.property,
                    property,
                    at,
                    key.value,
                    key.ease,
                );
            }
        } else {
            let top = own.len() - 1;
            let whole = held.drop_last() + second;
            let n = held.len() - 1;
            assert(own[top] == key);
            assert(own[top].value.finite());
            let put = ClipKey {
                property,
                at: clamped(at, num(ZERO), num(ONE)),
                value: key.value,
                ease: key.ease,
            };
            assert(second[top] == put);
            assert(whole[n + top] == put);
            assert(put.valid());
            if top == 0 {
                assert forall|i: int| 0 <= i < n implies (#[trigger] there[i]).at.less(put.at)
                    && reach(there[i].at, put.at) is None by {
                    assert(whole[i] == there[i]);
                    assert(whole[i].at.less(whole[n].at));
                }
                lemma_own_takes_over(before.keys, property, at, key.value, key.ease);
                assert(whole =~= there.drop_last().push(put));
            } else {
                assert forall|i: int| 0 <= i < there.len() implies (#[trigger] there[i]).at.less(
                    put.at,
                ) && reach(there[i].at, put.at) is None by {
                    if i >= n {
                        assert(fewer[i - n] == second[i - n]);
                    }
                    assert(whole[i] == there[i]);
                    assert(whole[i].at.less(whole[n + top].at));
                }
                lemma_own_joins(before.keys, property, at, key.value, key.ease);
                assert(whole =~= there.push(put));
            }
        }
    }
}

} // verus!
