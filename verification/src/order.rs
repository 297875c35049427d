//! Stable sorting.
//!
//! Keys, spans and pieces are put in order by a rank. Equal ranks keep the
//! order they came in.

use crate::find::lemma_filter_kept;
use vstd::prelude::*;

verus! {

/// Something that has a place in an order.
pub trait Ranked: Sized {
    /// Where this stands; the lower comes first.
    spec fn rank(&self) -> int;

    /// Whether this may stand before `other` without being moved.
    fn at_or_before(&self, other: &Self) -> (r: bool)
        ensures
            r == (self.rank() <= other.rank()),
    ;
}

/// `s`, which is in order, with `x` after everything that ranks no higher.
pub open spec fn inserted<T>(s: Seq<T>, x: T, rank: spec_fn(T) -> int) -> Seq<T>
    decreases s.len(),
{
    if s.len() == 0 || rank(s.last()) <= rank(x) {
        s.push(x)
    } else {
        inserted(s.drop_last(), x, rank).push(s.last())
    }
}

/// `s` in order, equal ranks as they came.
pub open spec fn sorted<T>(s: Seq<T>, rank: spec_fn(T) -> int) -> Seq<T>
    decreases s.len(),
{
    if s.len() == 0 {
        s
    } else {
        inserted(sorted(s.drop_last(), rank), s.last(), rank)
    }
}

/// Whether the ranks of `s` never fall.
pub open spec fn in_order<T>(s: Seq<T>, rank: spec_fn(T) -> int) -> bool {
    forall|i: int, j: int|
        0 <= i <= j < s.len() ==> rank(#[trigger] s[i]) <= rank(#[trigger] s[j])
}

proof fn lemma_inserted<T>(s: Seq<T>, x: T, rank: spec_fn(T) -> int)
    requires
        in_order(s, rank),
    ensures
        in_order(inserted(s, x, rank), rank),
        inserted(s, x, rank).len() == s.len() + 1,
        inserted(s, x, rank).to_multiset() == s.to_multiset().insert(x),
        s.len() > 0 ==> rank(inserted(s, x, rank).last()) == if rank(s.last()) <= rank(x) {
            rank(x)
        } else {
            rank(s.last())
        },
        s.len() == 0 ==> inserted(s, x, rank).last() == x,
    decreases s.len(),
{
    broadcast use vstd::seq_lib::group_to_multiset_ensures;

    if s.len() > 0 && rank(s.last()) > rank(x) {
        let d = s.drop_last();
        lemma_inserted(d, x, rank);
        let r = inserted(d, x, rank);
        assert(d.push(s.last()) =~= s);
        assert forall|i: int, j: int| 0 <= i <= j < r.push(s.last()).len() implies rank(
            #[trigger] r.push(s.last())[i],
        ) <= rank(#[trigger] r.push(s.last())[j]) by {
            if i < r.len() {
                assert(rank(r[i]) <= rank(r.last()));
                if d.len() > 0 {
                    assert(rank(s[d.len() - 1]) <= rank(s.last()));
                }
            }
        }
        assert(s.to_multiset() =~= d.to_multiset().insert(s.last()));
        assert(r.push(s.last()).to_multiset() =~= r.to_multiset().insert(s.last()));
        assert(d.to_multiset().insert(x).insert(s.last()) =~= d.to_multiset().insert(
            s.last(),
        ).insert(x));
    } else {
        assert forall|i: int, j: int| 0 <= i <= j < s.push(x).len() implies rank(
            #[trigger] s.push(x)[i],
        ) <= rank(#[trigger] s.push(x)[j]) by {
            if i < s.len() {
                assert(rank(s[i]) <= rank(s.last()));
            }
        }
    }
}

/// Sorting keeps what was there and puts it in order.
pub proof fn lemma_sorted<T>(s: Seq<T>, rank: spec_fn(T) -> int)
    ensures
        in_order(sorted(s, rank), rank),
        sorted(s, rank).len() == s.len(),
        sorted(s, rank).to_multiset() == s.to_multiset(),
    decreases s.len(),
{
    broadcast use vstd::seq_lib::group_to_multiset_ensures;

    if s.len() > 0 {
        lemma_sorted(s.drop_last(), rank);
        lemma_inserted(sorted(s.drop_last(), rank), s.last(), rank);
        assert(s.drop_last().push(s.last()) =~= s);
    }
}

/// There is one order for what no two of rank alike.
pub proof fn lemma_one_order<T>(a: Seq<T>, b: Seq<T>, rank: spec_fn(T) -> int)
    requires
        in_order(a, rank),
        in_order(b, rank),
        a.to_multiset() == b.to_multiset(),
        forall|i: int, j: int|
            0 <= i < j < a.len() ==> rank(#[trigger] a[i]) != rank(#[trigger] a[j]),
    ensures
        a == b,
    decreases a.len(),
{
    broadcast use vstd::seq_lib::group_to_multiset_ensures;

    assert(a.len() == a.to_multiset().len());
    assert(b.len() == b.to_multiset().len());
    if a.len() == 0 {
        assert(a =~= b);
    } else {
        let n = a.len() - 1;
        assert(b.contains(b[n]));
        assert(a.to_multiset().count(b[n]) > 0);
        assert(a.contains(b[n]));
        let m = choose|m: int| 0 <= m < a.len() && a[m] == b[n];
        assert(a.contains(a[n]));
        assert(b.to_multiset().count(a[n]) > 0);
        assert(b.contains(a[n]));
        let k = choose|k: int| 0 <= k < b.len() && b[k] == a[n];
        assert(rank(a[m]) <= rank(a[n]));
        assert(rank(b[k]) <= rank(b[n]));
        if m < n {
            assert(rank(a[m]) != rank(a[n]));
        }
        let c = a.drop_last();
        let d = b.drop_last();
        assert(a.remove(n) =~= c);
        assert(b.remove(n) =~= d);
        assert forall|i: int, j: int| 0 <= i <= j < c.len() implies rank(#[trigger] c[i]) <= rank(
            #[trigger] c[j],
        ) by {
            assert(rank(a[i]) <= rank(a[j]));
        }
        assert forall|i: int, j: int| 0 <= i <= j < d.len() implies rank(#[trigger] d[i]) <= rank(
            #[trigger] d[j],
        ) by {
            assert(rank(b[i]) <= rank(b[j]));
        }
        assert forall|i: int, j: int| 0 <= i < j < c.len() implies rank(#[trigger] c[i]) != rank(
            #[trigger] c[j],
        ) by {
            assert(rank(a[i]) != rank(a[j]));
        }
        lemma_one_order(c, d, rank);
        assert(a =~= c.push(a[n]));
        assert(b =~= d.push(b[n]));
    }
}

/// What holds of all of a list holds of all of it in order.
pub proof fn lemma_sorted_holds<T>(s: Seq<T>, rank: spec_fn(T) -> int, pred: spec_fn(T) -> bool)
    requires
        forall|i: int| 0 <= i < s.len() ==> pred(#[trigger] s[i]),
    ensures
        forall|i: int|
            0 <= i < sorted(s, rank).len() ==> pred(#[trigger] sorted(s, rank)[i]),
{
    broadcast use vstd::seq_lib::group_to_multiset_ensures;

    lemma_sorted(s, rank);
    let after = sorted(s, rank);
    assert forall|i: int| 0 <= i < after.len() implies pred(#[trigger] after[i]) by {
        assert(after.contains(after[i]));
        assert(after.to_multiset().count(after[i]) > 0);
        assert(s.to_multiset().count(after[i]) > 0);
        assert(s.contains(after[i]));
    }
}

/// What is in order already stays as it is.
pub proof fn lemma_sorted_already<T>(s: Seq<T>, rank: spec_fn(T) -> int)
    requires
        in_order(s, rank),
    ensures
        sorted(s, rank) == s,
    decreases s.len(),
{
    if s.len() > 0 {
        let d = s.drop_last();
        assert forall|i: int, j: int| 0 <= i <= j < d.len() implies rank(#[trigger] d[i]) <= rank(
            #[trigger] d[j],
        ) by {
            assert(rank(s[i]) <= rank(s[j]));
        }
        lemma_sorted_already(d, rank);
        if d.len() > 0 {
            assert(rank(s[d.len() - 1]) <= rank(s[s.len() - 1]));
        }
        assert(d.push(s.last()) =~= s);
    }
}

proof fn lemma_inserted_maps<T, U>(
    s: Seq<T>,
    x: T,
    rank: spec_fn(T) -> int,
    image: spec_fn(T) -> U,
    onto: spec_fn(U) -> int,
)
    requires
        forall|t: T| #[trigger] onto(image(t)) == rank(t),
    ensures
        inserted(s, x, rank).map_values(image) == inserted(s.map_values(image), image(x), onto),
    decreases s.len(),
{
    if s.len() == 0 {
        assert(s.push(x).map_values(image) =~= s.map_values(image).push(image(x)));
    } else {
        assert(s.map_values(image).last() == image(s.last()));
        assert(onto(image(s.last())) == rank(s.last()));
        assert(onto(image(x)) == rank(x));
        if rank(s.last()) <= rank(x) {
            assert(s.push(x).map_values(image) =~= s.map_values(image).push(image(x)));
        } else {
            lemma_inserted_maps(s.drop_last(), x, rank, image, onto);
            assert(s.drop_last().map_values(image) =~= s.map_values(image).drop_last());
            let r = inserted(s.drop_last(), x, rank);
            assert(r.push(s.last()).map_values(image) =~= r.map_values(image).push(
                image(s.last()),
            ));
        }
    }
}

/// Sorting and then looking at an image is looking at the image and then
/// sorting, where both rank alike.
pub proof fn lemma_sorted_maps<T, U>(
    s: Seq<T>,
    rank: spec_fn(T) -> int,
    image: spec_fn(T) -> U,
    onto: spec_fn(U) -> int,
)
    requires
        forall|t: T| #[trigger] onto(image(t)) == rank(t),
    ensures
        sorted(s, rank).map_values(image) == sorted(s.map_values(image), onto),
    decreases s.len(),
{
    if s.len() == 0 {
        assert(s.map_values(image) =~= Seq::<U>::empty());
        assert(sorted(s, rank).map_values(image) =~= Seq::<U>::empty());
    } else {
        lemma_sorted_maps(s.drop_last(), rank, image, onto);
        lemma_inserted_maps(sorted(s.drop_last(), rank), s.last(), rank, image, onto);
        assert(s.drop_last().map_values(image) =~= s.map_values(image).drop_last());
    }
}

proof fn lemma_inserted_filters<T>(
    s: Seq<T>,
    x: T,
    rank: spec_fn(T) -> int,
    pred: spec_fn(T) -> bool,
)
    requires
        in_order(s, rank),
    ensures
        inserted(s, x, rank).filter(pred) == if pred(x) {
            inserted(s.filter(pred), x, rank)
        } else {
            s.filter(pred)
        },
    decreases s.len(),
{
    reveal(Seq::filter);
    let kept = s.filter(pred);
    if s.len() == 0 || rank(s.last()) <= rank(x) {
        assert(s.push(x).drop_last() =~= s);
        lemma_filter_kept(s, pred);
        if kept.len() > 0 {
            let k = choose|k: int| 0 <= k < s.len() && s[k] == kept.last();
            assert(s.contains(kept[kept.len() - 1]));
            assert(rank(s[k]) <= rank(s[s.len() - 1]));
        }
    } else {
        let d = s.drop_last();
        let last = s.last();
        assert forall|i: int, j: int| 0 <= i <= j < d.len() implies rank(#[trigger] d[i]) <= rank(
            #[trigger] d[j],
        ) by {
            assert(rank(s[i]) <= rank(s[j]));
        }
        lemma_inserted_filters(d, x, rank, pred);
        let r = inserted(d, x, rank);
        assert(r.push(last).drop_last() =~= r);
        if pred(last) {
            assert(kept.drop_last() =~= d.filter(pred));
            assert(kept.last() == last);
        }
    }
}

/// Picking from what is in order is putting in order what is picked.
pub proof fn lemma_sorted_filters<T>(
    s: Seq<T>,
    rank: spec_fn(T) -> int,
    pred: spec_fn(T) -> bool,
)
    ensures
        sorted(s, rank).filter(pred) == sorted(s.filter(pred), rank),
    decreases s.len(),
{
    reveal(Seq::filter);
    if s.len() > 0 {
        let d = s.drop_last();
        lemma_sorted_filters(d, rank, pred);
        lemma_sorted(d, rank);
        lemma_inserted_filters(sorted(d, rank), s.last(), rank, pred);
        if pred(s.last()) {
            let kept = d.filter(pred);
            assert(kept.push(s.last()).drop_last() =~= kept);
        }
    }
}

/// Puts a list in order, equal ranks as they came.
pub fn stable_sort<T: Ranked>(list: Vec<T>) -> (r: Vec<T>)
    ensures
        r@ == sorted(list@, |x: T| x.rank()),
{
    let ghost rank = |x: T| x.rank();
    let ghost whole = list@;
    let mut rest: Vec<T> = list;
    let mut reversed: Vec<T> = Vec::new();
    // Taken from the back, so the first one in comes off last.
    while rest.len() > 0
        invariant
            rest@ + reversed@.reverse() == whole,
        decreases rest.len(),
    {
        let ghost before = rest@;
        match rest.pop() {
            Some(x) => {
                proof {
                    assert(before =~= rest@.push(x));
                    assert(reversed@.push(x).reverse() =~= seq![x] + reversed@.reverse());
                    assert(rest@ + (seq![x] + reversed@.reverse()) =~= before + reversed@.reverse());
                }
                reversed.push(x);
            },
            None => {},
        }
    }
    assert(rest@ =~= Seq::<T>::empty());
    assert(reversed@.reverse() =~= whole);
    let mut out: Vec<T> = Vec::new();
    assert(whole.take(0) =~= Seq::<T>::empty());
    while reversed.len() > 0
        invariant
            reversed.len() <= whole.len(),
            reversed@.reverse() == whole.skip(whole.len() - reversed.len()),
            out@ == sorted(whole.take(whole.len() - reversed.len()), rank),
            rank == (|x: T| x.rank()),
        decreases reversed.len(),
    {
        let ghost done = whole.len() - reversed.len();
        let ghost before = reversed@;
        match reversed.pop() {
            Some(x) => {
                proof {
                    assert(before =~= reversed@.push(x));
                    assert(before.reverse()[0] == x);
                    assert(whole.skip(done)[0] == whole[done]);
                    assert(reversed@.reverse() =~= before.reverse().skip(1));
                    assert(whole.skip(done).skip(1) =~= whole.skip(done + 1));
                    assert(whole.take(done + 1).drop_last() =~= whole.take(done));
                }
                let ghost sofar = out@;
                let mut at: usize = out.len();
                assert(sofar.take(at as int) =~= sofar);
                assert(inserted(sofar, x, rank) + sofar.skip(at as int) =~= inserted(sofar, x, rank));
                while at > 0 && !out[at - 1].at_or_before(&x)
                    invariant
                        at <= out.len(),
                        out@ == sofar,
                        rank == (|x: T| x.rank()),
                        inserted(sofar, x, rank) == inserted(sofar.take(at as int), x, rank)
                            + sofar.skip(at as int),
                    decreases at,
                {
                    proof {
                        let t = sofar.take(at as int);
                        assert(t.drop_last() =~= sofar.take(at - 1));
                        assert(t.last() == sofar[at - 1]);
                        assert(inserted(t, x, rank) == inserted(t.drop_last(), x, rank).push(
                            t.last(),
                        ));
                        assert(inserted(t.drop_last(), x, rank).push(t.last()) + sofar.skip(
                            at as int,
                        ) =~= inserted(t.drop_last(), x, rank) + sofar.skip(at - 1));
                    }
                    at = at - 1;
                }
                proof {
                    assert(inserted(sofar.take(at as int), x, rank) == sofar.take(at as int).push(x));
                    assert(sofar.insert(at as int, x) =~= sofar.take(at as int).push(x)
                        + sofar.skip(at as int));
                }
                out.insert(at, x);
            },
            None => {},
        }
    }
    assert(whole.take(whole.len() as int) =~= whole);
    out
}

} // verus!
