//! Finding the first of a kind, and keeping the rest.

use vstd::prelude::*;

verus! {

/// Whether `i` is the first position that `pred` picks.
pub open spec fn is_first<T>(s: Seq<T>, pred: spec_fn(T) -> bool, i: int) -> bool {
    &&& 0 <= i < s.len()
    &&& pred(s[i])
    &&& forall|j: int| 0 <= j < i ==> !pred(#[trigger] s[j])
}

/// The first position that `pred` picks.
pub open spec fn first<T>(s: Seq<T>, pred: spec_fn(T) -> bool) -> Option<int> {
    if exists|i: int| is_first(s, pred, i) {
        Some(choose|i: int| is_first(s, pred, i))
    } else {
        None
    }
}

/// The first one is the first one.
pub proof fn lemma_first<T>(s: Seq<T>, pred: spec_fn(T) -> bool, i: int)
    requires
        is_first(s, pred, i),
    ensures
        first(s, pred) == Some(i),
{
    let k = choose|k: int| is_first(s, pred, k);
    assert(is_first(s, pred, k));
    if k < i {
        assert(!pred(s[k]));
    }
    if i < k {
        assert(!pred(s[i]));
    }
}

/// Where nothing is picked there is no first.
pub proof fn lemma_no_first<T>(s: Seq<T>, pred: spec_fn(T) -> bool)
    requires
        forall|j: int| 0 <= j < s.len() ==> !pred(#[trigger] s[j]),
    ensures
        first(s, pred) is None,
{
}

proof fn lemma_first_below<T>(s: Seq<T>, pred: spec_fn(T) -> bool, i: int)
    requires
        0 <= i < s.len(),
        pred(s[i]),
    ensures
        first(s, pred) is Some,
    decreases i,
{
    if is_first(s, pred, i) {
        lemma_first(s, pred, i);
    } else {
        let j = choose|j: int| 0 <= j < i && pred(#[trigger] s[j]);
        lemma_first_below(s, pred, j);
    }
}

/// What `first` says: the first position picked, and none only where nothing
/// is.
pub proof fn lemma_first_is<T>(s: Seq<T>, pred: spec_fn(T) -> bool)
    ensures
        match first(s, pred) {
            Some(i) => is_first(s, pred, i),
            None => forall|j: int| 0 <= j < s.len() ==> !pred(#[trigger] s[j]),
        },
{
    if first(s, pred) is None {
        assert forall|j: int| 0 <= j < s.len() implies !pred(#[trigger] s[j]) by {
            if pred(s[j]) {
                lemma_first_below(s, pred, j);
            }
        }
    }
}

/// Filtering and looking at an image is looking at the image and filtering,
/// where both pick alike.
pub proof fn lemma_filter_maps<T, U>(
    s: Seq<T>,
    pred: spec_fn(T) -> bool,
    image: spec_fn(T) -> U,
    onto: spec_fn(U) -> bool,
)
    requires
        forall|t: T| #[trigger] onto(image(t)) == pred(t),
    ensures
        s.filter(pred).map_values(image) == s.map_values(image).filter(onto),
    decreases s.len(),
{
    reveal(Seq::filter);
    if s.len() == 0 {
        assert(s.filter(pred).map_values(image) =~= s.map_values(image).filter(onto));
    } else {
        let d = s.drop_last();
        lemma_filter_maps(d, pred, image, onto);
        assert(s.map_values(image).drop_last() =~= d.map_values(image));
        assert(s.map_values(image).last() == image(s.last()));
        assert(onto(image(s.last())) == pred(s.last()));
        assert(d.filter(pred).push(s.last()).map_values(image) =~= d.filter(pred).map_values(
            image,
        ).push(image(s.last())));
    }
}

/// What the last element adds to a filtered prefix.
pub proof fn lemma_filter_step<T>(s: Seq<T>, pred: spec_fn(T) -> bool, i: int)
    requires
        0 <= i < s.len(),
    ensures
        s.take(i + 1).filter(pred) == if pred(s[i]) {
            s.take(i).filter(pred).push(s[i])
        } else {
            s.take(i).filter(pred)
        },
{
    reveal(Seq::filter);
    assert(s.take(i + 1).drop_last() =~= s.take(i));
    assert(s.take(i + 1).last() == s[i]);
}

/// Filtering what is all kept keeps it all.
pub proof fn lemma_filter_all<T>(s: Seq<T>, pred: spec_fn(T) -> bool)
    requires
        forall|i: int| 0 <= i < s.len() ==> pred(#[trigger] s[i]),
    ensures
        s.filter(pred) == s,
    decreases s.len(),
{
    reveal(Seq::filter);
    if s.len() > 0 {
        let d = s.drop_last();
        assert forall|i: int| 0 <= i < d.len() implies pred(#[trigger] d[i]) by {
            assert(d[i] == s[i]);
        }
        lemma_filter_all(d, pred);
        assert(pred(s[s.len() - 1]));
        assert(d.push(s.last()) =~= s);
    } else {
        assert(s.filter(pred) =~= s);
    }
}

/// What a filter keeps was there and is picked.
pub proof fn lemma_filter_kept<T>(s: Seq<T>, pred: spec_fn(T) -> bool)
    ensures
        s.filter(pred).len() <= s.len(),
        forall|i: int|
            0 <= i < s.filter(pred).len() ==> pred(#[trigger] s.filter(pred)[i]) && s.contains(
                s.filter(pred)[i],
            ),
    decreases s.len(),
{
    reveal(Seq::filter);
    if s.len() > 0 {
        let d = s.drop_last();
        lemma_filter_kept(d, pred);
        assert forall|i: int| 0 <= i < s.filter(pred).len() implies pred(
            #[trigger] s.filter(pred)[i],
        ) && s.contains(s.filter(pred)[i]) by {
            if i < d.filter(pred).len() {
                let x = d.filter(pred)[i];
                assert(s.filter(pred)[i] == x);
                let j = choose|j: int| 0 <= j < d.len() && d[j] == x;
                assert(s[j] == x);
            } else {
                assert(s[s.len() - 1] == s.filter(pred)[i]);
            }
        }
    }
}

/// Picking twice is picking what both pick.
pub proof fn lemma_filter_twice<T>(
    s: Seq<T>,
    first: spec_fn(T) -> bool,
    second: spec_fn(T) -> bool,
    both: spec_fn(T) -> bool,
)
    requires
        forall|t: T| #[trigger] both(t) == (first(t) && second(t)),
    ensures
        s.filter(first).filter(second) == s.filter(both),
    decreases s.len(),
{
    reveal(Seq::filter);
    if s.len() > 0 {
        lemma_filter_twice(s.drop_last(), first, second, both);
        let x = s.last();
        assert(both(x) == (first(x) && second(x)));
        if first(x) {
            let d = s.drop_last().filter(first);
            assert(d.push(x).drop_last() =~= d);
        }
    }
}

/// What nothing is picked of.
pub proof fn lemma_filter_none<T>(s: Seq<T>, pred: spec_fn(T) -> bool)
    requires
        forall|i: int| 0 <= i < s.len() ==> !pred(#[trigger] s[i]),
    ensures
        s.filter(pred) == Seq::<T>::empty(),
{
    lemma_filter_kept(s, pred);
    if s.filter(pred).len() > 0 {
        let x = s.filter(pred)[0];
        assert(pred(x) && s.contains(x));
    }
    assert(s.filter(pred) =~= Seq::<T>::empty());
}

/// What is picked is kept.
pub proof fn lemma_filter_keeps<T>(s: Seq<T>, pred: spec_fn(T) -> bool, i: int)
    requires
        0 <= i < s.len(),
        pred(s[i]),
    ensures
        s.filter(pred).contains(s[i]),
    decreases s.len(),
{
    reveal(Seq::filter);
    let d = s.drop_last();
    if i < d.len() {
        lemma_filter_keeps(d, pred, i);
        let j = choose|j: int| 0 <= j < d.filter(pred).len() && d.filter(pred)[j] == s[i];
        assert(s.filter(pred)[j] == s[i]);
    } else {
        assert(s.filter(pred)[d.filter(pred).len() as int] == s[i]);
    }
}

} // verus!
