//! What merging gives back of a split, and that it is the same merge in whatever
//! order the pieces are named.

use crate::commands::clips::end;
use crate::commands::cuts::{cut_at, head_of, misses, split_all, splitting, tail_of, uncurved};
use crate::commands::joins::{
    absorbed_all, agree, gap_reason, in_time, merge_reason, merged, merging, names, pieces, touch,
};
use crate::commands::mint::minted;
use crate::commands::round_trips::{lemma_pieces_are_continuous, lemma_same_active};
use crate::commands::step::Step;
use crate::find::{first, is_first, lemma_filter_all, lemma_first, lemma_first_is};
use crate::model::clip::{absorbed_chain, keys_of, windowed_chain, ClipView};
use crate::model::filter::FilterView;
use crate::model::keys::{ordered_keys, ClipKey, KeyProperty, ParamKey};
use crate::model::project::ProjectView;
use crate::model::ride::Ride;
use crate::number::{
    absolute, difference, lemma_sum_grows, lemma_sum_keeps_order, lemma_units_monotonic,
    lemma_units_of, num, product, sum, total_rank, units, Number, FRACTION, INFINITE, ZERO,
};
use crate::order::{in_order, lemma_one_order, lemma_sorted, lemma_sorted_already};
use crate::ranges::{JOIN_EPSILON, MIN_CLIP_DURATION};
use crate::rounding::{
    lemma_difference_close, lemma_difference_no_more, lemma_of_numbers, lemma_ranks_as_valued,
    lemma_sum_close, lemma_sum_commutes, size, PARTS,
};
use crate::text::successor;
use vstd::arithmetic::power2::*;
use vstd::prelude::*;

verus! {

// A clip without keys.

/// Whether no link of a chain has keys.
pub open spec fn unkeyed_chain(filters: Seq<FilterView>) -> bool {
    forall|i: int|
        0 <= i < filters.len() ==> (#[trigger] filters[i]).keys == Map::<
            Seq<char>,
            Seq<ParamKey>,
        >::empty()
}

/// Whether a clip has no keys, of its own or of its effects.
pub open spec fn unkeyed(clip: ClipView) -> bool {
    clip.keys.len() == 0 && unkeyed_chain(clip.filters) && unkeyed_chain(clip.video_effects)
}

proof fn lemma_unkeyed_chain_stays(filters: Seq<FilterView>, a: Number, b: Number, ride: Ride)
    requires
        unkeyed_chain(filters),
    ensures
        windowed_chain(filters, a, b, ride) == filters,
{
    assert forall|i: int| 0 <= i < filters.len() implies (#[trigger] filters[i]).windowed(
        a,
        b,
        ride,
    ) == filters[i] by {
        assert(filters[i].windowed(a, b, ride).keys =~= filters[i].keys);
    }
    assert(windowed_chain(filters, a, b, ride) =~= filters);
}

proof fn lemma_unkeyed_stays(clip: ClipView, old: Number, from: Number, to: Number, ride: Ride)
    requires
        unkeyed(clip),
    ensures
        clip.windowed(old, from, to, ride) == clip,
{
    reveal(ClipView::windowed);
    reveal(Seq::filter);
    let a = crate::number::quotient(from, old);
    let b = crate::number::quotient(to, old);
    lemma_unkeyed_chain_stays(clip.filters, a, b, ride);
    lemma_unkeyed_chain_stays(clip.video_effects, a, b, ride);
    assert(keys_of(clip.keys, KeyProperty::Scale).len() == 0);
    assert(keys_of(clip.keys, KeyProperty::OffsetX).len() == 0);
    assert(keys_of(clip.keys, KeyProperty::OffsetY).len() == 0);
    assert(keys_of(clip.keys, KeyProperty::Rotation).len() == 0);
    assert(keys_of(clip.keys, KeyProperty::Opacity).len() == 0);
    assert(keys_of(clip.keys, KeyProperty::Volume).len() == 0);
    let valid = |k: ClipKey| k.valid();
    lemma_filter_all(clip.keys, valid);
    assert(ordered_keys(clip.keys) =~= clip.keys);
}

proof fn lemma_unkeyed_absorbs_nothing(clip: ClipView, piece: ClipView, offset: Number)
    requires
        unkeyed(clip),
        unkeyed(piece),
    ensures
        clip.absorbed(piece, offset) == clip,
{
    reveal(ClipView::absorbed);
    lemma_chain_absorbs_nothing(
        clip.filters,
        piece.filters,
        offset,
        piece.duration,
        clip.duration,
    );
    lemma_chain_absorbs_nothing(
        clip.video_effects,
        piece.video_effects,
        offset,
        piece.duration,
        clip.duration,
    );
}

proof fn lemma_chain_absorbs_nothing(
    mine: Seq<FilterView>,
    theirs: Seq<FilterView>,
    offset: Number,
    length: Number,
    duration: Number,
)
    requires
        unkeyed_chain(mine),
        unkeyed_chain(theirs),
    ensures
        absorbed_chain(mine, theirs, offset, length, duration) == mine,
{
    let after = absorbed_chain(mine, theirs, offset, length, duration);
    assert forall|i: int| 0 <= i < mine.len() implies #[trigger] after[i] == mine[i] by {
        if i < theirs.len() && mine[i].id == theirs[i].id {
            assert(theirs[i].keys == Map::<
                Seq<char>,
                Seq<ParamKey>,
            >::empty());
            assert(after[i].keys =~= mine[i].keys);
        }
    }
    assert(after =~= mine);
}

// Splitting and merging.

/// How long the piece is that two pieces of a cut merge into.
pub open spec fn rejoined_length(clip: ClipView, offset: Number) -> Number {
    difference(
        sum(sum(clip.start, offset), difference(clip.duration, offset)),
        clip.start,
    )
}

/// The pieces of a cut merge into something as long as what was cut, but for what
/// four roundings of numbers the size of its end take.
proof fn lemma_rejoined_as_long(clip: ClipView, offset: Number)
    requires
        clip.start.finite(),
        clip.duration.finite(),
        offset.finite(),
        0 < offset.value() < clip.duration.value(),
        size(clip.start.value()) + clip.duration.value() <= units((INFINITE - FRACTION) as nat),
    ensures
        rejoined_length(clip, offset).finite(),
        PARTS * size(rejoined_length(clip, offset).value() - clip.duration.value()) <= 8 * (size(
            clip.start.value(),
        ) + clip.duration.value()),
{
    let s = clip.start.value();
    let d = clip.duration.value();
    let o = offset.value();
    let most = size(s) + d;
    lemma_units_monotonic((INFINITE - FRACTION) as nat, (INFINITE - 1) as nat);
    lemma_room();
    let at = sum(clip.start, offset);
    let left = difference(clip.duration, offset);
    lemma_sum_close(clip.start, offset);
    lemma_difference_close(clip.duration, offset);
    assert(at.finite() && left.finite());
    lemma_sum_close(at, left);
    let over = sum(at, left);
    assert(PARTS * size(at.value() + left.value() - (s + d)) <= 2 * most);
    assert(over.finite());
    lemma_difference_close(over, clip.start);
}

/// There is room above half the largest number.
proof fn lemma_room()
    ensures
        5 * units((INFINITE - FRACTION) as nat) <= 4 * units((INFINITE - 1) as nat),
{
    let m = (INFINITE - FRACTION) as nat;
    let k = (INFINITE - FRACTION + FRACTION / 2) as nat;
    lemma_units_monotonic(k, (INFINITE - 1) as nat);
    crate::number::lemma_units_split(m);
    crate::number::lemma_units_split(k);
    let p = vstd::arithmetic::power2::pow2((m / (FRACTION as nat) - 1) as nat);
    assert(k / (FRACTION as nat) == m / (FRACTION as nat));
    assert(5 * (FRACTION * p) <= 4 * ((FRACTION + FRACTION / 2) * p)) by (nonlinear_arith)
        requires
            p >= 0,
    ;
}

proof fn lemma_two_in_time(head: ClipView, tail: ClipView)
    requires
        total_rank(head.start) <= total_rank(tail.start),
    ensures
        in_time(seq![head, tail]) == seq![head, tail],
        total_rank(head.start) < total_rank(tail.start) ==> in_time(seq![tail, head]) == seq![
            head,
            tail,
        ],
{
    let rank = |c: ClipView| total_rank(c.start);
    let both = seq![head, tail];
    assert(in_order(both, rank));
    lemma_sorted_already(both, rank);
    let other = seq![tail, head];
    reveal_with_fuel(crate::order::sorted, 3);
    reveal_with_fuel(crate::order::inserted, 3);
    assert(other.drop_last() =~= seq![tail]);
    assert(other.drop_last().drop_last() =~= Seq::<ClipView>::empty());
    assert(Seq::<ClipView>::empty().push(tail) =~= seq![tail]);
    assert(seq![tail].drop_last() =~= Seq::<ClipView>::empty());
    assert(Seq::<ClipView>::empty().push(head).push(tail) =~= both);
}

/// The ids of the two pieces of a cut, in one order or the other.
pub open spec fn both_ids(clip: Seq<char>, tail: Seq<char>, tail_first: bool) -> Seq<Seq<char>> {
    if tail_first {
        seq![tail, clip]
    } else {
        seq![clip, tail]
    }
}

proof fn lemma_found(
    cut: Seq<ClipView>,
    at: int,
    head: ClipView,
    tail: ClipView,
    tail_first: bool,
)
    requires
        0 <= at < cut.len() - 1,
        cut[at] == head,
        cut[at + 1] == tail,
        head.id != tail.id,
        forall|j: int|
            0 <= j < at ==> (#[trigger] cut[j]).id != head.id && cut[j].id != tail.id,
    ensures
        pieces(cut, both_ids(head.id, tail.id, tail_first)) == if tail_first {
            seq![tail, head]
        } else {
            seq![head, tail]
        },
{
    let ids = both_ids(head.id, tail.id, tail_first);
    let one = |c: ClipView| c.id == head.id;
    let two = |c: ClipView| c.id == tail.id;
    assert(is_first(cut, one, at));
    lemma_first(cut, one, at);
    assert(is_first(cut, two, at + 1));
    lemma_first(cut, two, at + 1);
    reveal_with_fuel(pieces, 3);
    assert(ids.drop_last().drop_last() =~= Seq::<Seq<char>>::empty());
    if tail_first {
        assert(pieces(cut, ids) =~= seq![tail, head]);
    } else {
        assert(pieces(cut, ids) =~= seq![head, tail]);
    }
}

proof fn lemma_kept(cut: Seq<ClipView>, clips: Seq<ClipView>, at: int, tail: ClipView)
    requires
        0 <= at < clips.len(),
        cut == clips.insert(at + 1, tail),
        forall|i: int| 0 <= i < clips.len() ==> (#[trigger] clips[i]).id != tail.id,
    ensures
        cut.filter(|c: ClipView| !names(seq![tail], c.id)) == clips,
{
    let stays = |c: ClipView| !names(seq![tail], c.id);
    let before = clips.take(at + 1);
    let after = clips.skip(at + 1);
    assert forall|c: ClipView| #[trigger] stays(c) == (c.id != tail.id) by {
        assert(seq![tail][0] == tail);
    }
    assert(cut =~= before + (seq![tail] + after));
    assert(clips =~= before + after);
    Seq::filter_distributes_over_add(before, seq![tail] + after, stays);
    Seq::filter_distributes_over_add(seq![tail], after, stays);
    lemma_filter_all(before, stays);
    lemma_filter_all(after, stays);
    assert(seq![tail].filter(stays) =~= Seq::<ClipView>::empty()) by {
        reveal_with_fuel(Seq::filter, 2);
        assert(!stays(tail));
        assert(seq![tail].drop_last() =~= Seq::<ClipView>::empty());
        assert(seq![tail].last() == tail);
    }
    assert(before + (Seq::<ClipView>::empty() + after) =~= clips);
}

/// Merging gives back what was split: the two pieces, named in either order, are
/// one clip again under the first id, with its start, its in-point, its fades and
/// its transition, and no other clip moves. It is as long as it was, but for what
/// rounding takes. A cut so far out that the tail's start rounds to the head's
/// gives the pieces in the order they are named.
pub proof fn lemma_merging_undoes_a_split(
    project: ProjectView,
    counter: nat,
    at: int,
    time: Number,
    tail_first: bool,
    ride: Ride,
)
    requires
        project.editable(),
        ({
            let clips = project.active().clips;
            let clip = clips[at];
            let offset = difference(time, clip.start);
            &&& 0 <= at < clips.len()
            &&& forall|i: int, j: int|
                0 <= i < j < clips.len() ==> (#[trigger] clips[i]).id != (#[trigger] clips[j]).id
            &&& forall|i: int|
                0 <= i < clips.len() ==> (#[trigger] clips[i]).id != minted("c"@, counter)
            &&& unkeyed(clip)
            &&& clip.speed_curve is None
            &&& !clip.speed.nan()
            &&& clip.start.finite()
            &&& clip.duration.finite()
            &&& offset.finite()
            &&& !misses(clip, offset)
            &&& tail_first ==> clip.start.less(sum(clip.start, offset))
        }),
    ensures
        ({
            let timeline = project.active();
            let clip = timeline.clips[at];
            let id = minted("c"@, counter);
            let split = splitting(project, counter, seq![clip.id], time, ride);
            let length = rejoined_length(clip, difference(time, clip.start));
            &&& split.answer == Step::created(project, counter, id).answer
            &&& merging(
                split.project,
                split.counter,
                both_ids(clip.id, id, tail_first),
                ride,
            ) == Step::created(
                project.with_active(
                    timeline.with_clips(
                        timeline.clips.update(at, ClipView { duration: length, ..clip }),
                    ),
                ),
                split.counter,
                clip.id,
            )
            &&& size(clip.start.value()) + clip.duration.value() <= units(
                (INFINITE - FRACTION) as nat,
            ) ==> length.finite() && PARTS * size(length.value() - clip.duration.value()) <= 8 * (
            size(clip.start.value()) + clip.duration.value())
        }),
{
    let timeline = project.active();
    let clips = timeline.clips;
    let clip = clips[at];
    let id = minted("c"@, counter);
    let offset = difference(time, clip.start);
    let start = sum(clip.start, offset);
    let head = head_of(clip, offset, ride);
    let tail = tail_of(clip, offset, id, start, ride);
    let cut = cut_at(clips, at, head, tail);
    lemma_split_once(project, counter, at, time, ride);
    let split = splitting(project, counter, seq![clip.id], time, ride);
    lemma_unkeyed_stays(
        ClipView { duration: offset, fade_out: num(ZERO), ..clip },
        clip.duration,
        num(ZERO),
        offset,
        ride,
    );
    lemma_unkeyed_stays(
        ClipView {
            id,
            start,
            duration: difference(clip.duration, offset),
            source_start: sum(clip.source_start, product(offset, clip.speed)),
            transition_in: None,
            fade_in: num(ZERO),
            ..clip
        },
        clip.duration,
        offset,
        clip.duration,
        ride,
    );
    assert(offset.value() > 0) by {
        assert(!offset.at_most(num(MIN_CLIP_DURATION)));
        lemma_units_monotonic(0, offset.magnitude());
    }
    lemma_sum_grows(clip.start, offset);
    assert forall|j: int| 0 <= j < at implies (#[trigger] cut[j]).id != head.id && cut[j].id
        != tail.id by {
        assert(cut[j] == clips[j]);
    }
    lemma_found(cut, at, head, tail, tail_first);
    lemma_two_in_time(head, tail);
    let ids = both_ids(clip.id, id, tail_first);
    let found = pieces(cut, ids);
    let ordered = seq![head, tail];
    assert(in_time(found) == ordered);
    lemma_pieces_are_continuous(clip, offset, id, ride);
    assert(gap_reason(ordered) is None) by {
        reveal_with_fuel(gap_reason, 3);
        assert(ordered.drop_last().len() == 1);
    }
    assert(merge_reason(cut, ids) is None);
    let ahead = clips.update(at, head);
    assert forall|i: int| 0 <= i < ahead.len() implies (#[trigger] ahead[i]).id != tail.id by {
        assert(clips[i].id != id);
    }
    lemma_kept(cut, ahead, at, tail);
    assert(ordered.skip(1) =~= seq![tail]);
    let mine = |c: ClipView| c.id == head.id;
    assert forall|j: int| 0 <= j < at implies !mine(#[trigger] ahead[j]) by {
        assert(ahead[j] == clips[j]);
    }
    assert(is_first(ahead, mine, at));
    lemma_first(ahead, mine, at);
    let length = rejoined_length(clip, offset);
    lemma_merged_whole(clip, head, tail, ride);
    let one = ClipView { duration: length, ..clip };
    assert(merged(ordered, ride) == one);
    assert(ahead.update(at, one) =~= clips.update(at, one));
    lemma_same_active(project, timeline.with_clips(cut));
    let rewritten = timeline.with_clips(clips.update(at, one));
    assert(split.project.with_active(rewritten).timelines =~= project.with_active(
        rewritten,
    ).timelines);
    lemma_inside(clip, offset);
    if size(clip.start.value()) + clip.duration.value() <= units((INFINITE - FRACTION) as nat) {
        lemma_rejoined_as_long(clip, offset);
    }
}

/// A cut inside a clip is at an offset of less than its length.
proof fn lemma_inside(clip: ClipView, offset: Number)
    requires
        clip.duration.finite(),
        offset.finite(),
        !misses(clip, offset),
    ensures
        0 < offset.value() < clip.duration.value(),
{
    let least = num(MIN_CLIP_DURATION);
    assert(least.finite());
    lemma_units_monotonic(0, MIN_CLIP_DURATION as nat);
    lemma_ranks_as_valued(offset, least);
    lemma_ranks_as_valued(offset, clip.duration);
    let short = difference(clip.duration, least);
    assert(short.at_most(clip.duration)) by {
        lemma_difference_no_more(clip.duration, least);
    }
}

/// What one cut of one clip does.
proof fn lemma_split_once(project: ProjectView, counter: nat, at: int, time: Number, ride: Ride)
    requires
        ({
            let clips = project.active().clips;
            let clip = clips[at];
            &&& 0 <= at < clips.len()
            &&& forall|i: int, j: int|
                0 <= i < j < clips.len() ==> (#[trigger] clips[i]).id != (#[trigger] clips[j]).id
            &&& clip.speed_curve is None
            &&& !misses(clip, difference(time, clip.start))
        }),
    ensures
        ({
            let timeline = project.active();
            let clip = timeline.clips[at];
            let offset = difference(time, clip.start);
            let id = minted("c"@, counter);
            splitting(project, counter, seq![clip.id], time, ride) == Step::created(
                project.with_active(
                    timeline.with_clips(
                        cut_at(
                            timeline.clips,
                            at,
                            head_of(clip, offset, ride),
                            tail_of(clip, offset, id, sum(clip.start, offset), ride),
                        ),
                    ),
                ),
                successor(counter),
                id,
            )
        }),
{
    let clips = project.active().clips;
    let clip = clips[at];
    let ids = seq![clip.id];
    let mine = |c: ClipView| c.id == clip.id;
    assert(is_first(clips, mine, at));
    lemma_first(clips, mine, at);
    reveal_with_fuel(split_all, 2);
    assert(ids.drop_last() =~= Seq::<Seq<char>>::empty());
    assert(ids.last() == clip.id);
    assert(uncurved(clip, difference(time, clip.start)) == clip);
}

/// The pieces of a cut without keys merge into the clip that was cut.
proof fn lemma_merged_whole(clip: ClipView, head: ClipView, tail: ClipView, ride: Ride)
    requires
        unkeyed(clip),
        unkeyed(tail),
        head == (ClipView { duration: head.duration, fade_out: num(ZERO), ..clip }),
        tail.fade_out == clip.fade_out,
    ensures
        merged(seq![head, tail], ride) == (ClipView {
            duration: difference(end(tail), clip.start),
            ..clip
        }),
{
    let ordered = seq![head, tail];
    let length = difference(end(tail), head.start);
    let long = ClipView { duration: length, ..head };
    lemma_unkeyed_stays(long, head.duration, num(ZERO), length, ride);
    assert(ordered.skip(1) =~= seq![tail]);
    assert(seq![tail].drop_last() =~= Seq::<ClipView>::empty());
    reveal_with_fuel(absorbed_all, 2);
    lemma_unkeyed_absorbs_nothing(long, tail, difference(tail.start, head.start));
}

// The order the pieces are named in.

/// Whether a clip is long enough to be told from one that starts with it.
pub open spec fn stands(clip: ClipView) -> bool {
    !touch(clip, clip)
}

/// Naming one piece less finds one piece less, or as many.
proof fn lemma_pieces_but_one(clips: Seq<ClipView>, ids: Seq<Seq<char>>, k: int)
    requires
        0 <= k < ids.len(),
    ensures
        pieces(clips, ids).to_multiset() == match first(clips, |c: ClipView| c.id == ids[k]) {
            Some(i) => pieces(clips, ids.remove(k)).to_multiset().insert(clips[i]),
            None => pieces(clips, ids.remove(k)).to_multiset(),
        },
    decreases ids.len(),
{
    broadcast use vstd::seq_lib::group_to_multiset_ensures;

    let less = ids.remove(k);
    if k == ids.len() - 1 {
        assert(less =~= ids.drop_last());
    } else {
        lemma_pieces_but_one(clips, ids.drop_last(), k);
        assert(ids.drop_last().remove(k) =~= less.drop_last());
        assert(less.last() == ids.last());
        assert(ids.drop_last()[k] == ids[k]);
        let most = pieces(clips, less.drop_last()).to_multiset();
        match (
            first(clips, |c: ClipView| c.id == ids[k]),
            first(clips, |c: ClipView| c.id == ids.last()),
        ) {
            (Some(i), Some(j)) => {
                assert(most.insert(clips[i]).insert(clips[j]) =~= most.insert(clips[j]).insert(
                    clips[i],
                ));
            },
            _ => {},
        }
    }
}

/// The same names find the same pieces.
proof fn lemma_same_pieces(clips: Seq<ClipView>, ids: Seq<Seq<char>>, others: Seq<Seq<char>>)
    requires
        ids.to_multiset() == others.to_multiset(),
    ensures
        pieces(clips, ids).to_multiset() == pieces(clips, others).to_multiset(),
    decreases ids.len(),
{
    broadcast use vstd::seq_lib::group_to_multiset_ensures;

    assert(ids.len() == ids.to_multiset().len());
    assert(others.len() == others.to_multiset().len());
    if ids.len() == 0 {
        assert(ids =~= others);
    } else {
        let n = ids.len() - 1;
        assert(ids.contains(ids[n]));
        assert(others.to_multiset().count(ids[n]) > 0);
        assert(others.contains(ids[n]));
        let k = choose|k: int| 0 <= k < others.len() && others[k] == ids[n];
        lemma_pieces_but_one(clips, ids, n);
        lemma_pieces_but_one(clips, others, k);
        lemma_same_pieces(clips, ids.remove(n), others.remove(k));
    }
}

proof fn lemma_same_members<T>(a: Seq<T>, b: Seq<T>, i: int) -> (k: int)
    requires
        a.to_multiset() == b.to_multiset(),
        0 <= i < a.len(),
    ensures
        0 <= k < b.len(),
        b[k] == a[i],
{
    broadcast use vstd::seq_lib::group_to_multiset_ensures;

    assert(a.contains(a[i]));
    assert(b.to_multiset().count(a[i]) > 0);
    assert(b.contains(a[i]));
    choose|k: int| 0 <= k < b.len() && b[k] == a[i]
}

/// What agrees in one order agrees in another.
proof fn lemma_agree_in_any_order(
    found: Seq<ClipView>,
    other: Seq<ClipView>,
    like: spec_fn(ClipView, ClipView) -> bool,
)
    requires
        found.len() > 0,
        other.len() > 0,
        found.to_multiset() == other.to_multiset(),
        agree(found, like),
        forall|a: ClipView, b: ClipView, c: ClipView|
            #[trigger] like(a, c) && #[trigger] like(b, c) ==> like(a, b),
    ensures
        agree(other, like),
{
    let k = lemma_same_members(other, found, 0);
    assert(like(found[k], found[0]));
    assert forall|i: int| 0 <= i < other.len() implies like(#[trigger] other[i], other[0]) by {
        let j = lemma_same_members(other, found, i);
        assert(like(found[j], found[0]));
    }
}

/// A piece that starts where another does does not touch it.
proof fn lemma_tied_do_not_touch(earlier: ClipView, later: ClipView)
    requires
        stands(earlier),
        total_rank(earlier.start) == total_rank(later.start),
    ensures
        !touch(earlier, later),
{
    assert(later.start.bits == earlier.start.bits);
    assert(later.start == earlier.start);
}

/// Pieces two of which start together do not join.
proof fn lemma_tied_do_not_join(ordered: Seq<ClipView>, i: int, j: int)
    requires
        in_order(ordered, |c: ClipView| total_rank(c.start)),
        0 <= i < j < ordered.len(),
        total_rank(ordered[i].start) == total_rank(ordered[j].start),
        forall|k: int| 0 <= k < ordered.len() ==> stands(#[trigger] ordered[k]),
    ensures
        gap_reason(ordered) is Some,
    decreases ordered.len(),
{
    let rank = |c: ClipView| total_rank(c.start);
    let n = ordered.len();
    let before = ordered.drop_last();
    assert forall|x: int, y: int| 0 <= x <= y < before.len() implies rank(#[trigger] before[x])
        <= rank(#[trigger] before[y]) by {
        assert(rank(ordered[x]) <= rank(ordered[y]));
    }
    if j < n - 1 {
        lemma_tied_do_not_join(before, i, j);
    } else {
        let last = ordered[n - 2];
        assert(rank(ordered[i]) <= rank(ordered[n - 2]));
        assert(rank(ordered[n - 2]) <= rank(ordered[n - 1]));
        assert(stands(last));
        lemma_tied_do_not_touch(last, ordered[n - 1]);
    }
}

/// Whether pieces can be merged does not hang on the order they are named in.
proof fn lemma_merge_goes_over(
    clips: Seq<ClipView>,
    ids: Seq<Seq<char>>,
    others: Seq<Seq<char>>,
)
    requires
        ids.to_multiset() == others.to_multiset(),
        forall|i: int| 0 <= i < clips.len() ==> stands(#[trigger] clips[i]),
        merge_reason(clips, ids) is None,
    ensures
        merge_reason(clips, others) is None,
{
    broadcast use vstd::seq_lib::group_to_multiset_ensures;

    let found = pieces(clips, ids);
    let other = pieces(clips, others);
    let rank = |c: ClipView| total_rank(c.start);
    lemma_same_pieces(clips, ids, others);
    assert(ids.len() == ids.to_multiset().len());
    assert(others.len() == others.to_multiset().len());
    assert(found.len() == found.to_multiset().len());
    assert(other.len() == other.to_multiset().len());
    lemma_agree_in_any_order(
        found,
        other,
        |a: ClipView, b: ClipView| a.track_id == b.track_id,
    );
    lemma_agree_in_any_order(
        found,
        other,
        |a: ClipView, b: ClipView| a.media_id == b.media_id,
    );
    lemma_agree_in_any_order(found, other, |a: ClipView, b: ClipView| a.speed.same(b.speed));
    lemma_agree_in_any_order(found, other, |a: ClipView, b: ClipView| a.kind == b.kind);
    lemma_agree_in_any_order(found, other, |a: ClipView, b: ClipView| a.speed_curve is None);
    lemma_agree_in_any_order(
        found,
        other,
        |a: ClipView, b: ClipView| a.audio_stream == b.audio_stream,
    );
    lemma_sorted(found, rank);
    lemma_sorted(other, rank);
    let ordered = in_time(found);
    assert forall|k: int| 0 <= k < ordered.len() implies stands(#[trigger] ordered[k]) by {
        let i = lemma_same_members(ordered, found, k);
        lemma_piece_is_a_clip(clips, ids, i);
    }
    assert forall|i: int, j: int| 0 <= i < j < ordered.len() implies rank(#[trigger] ordered[i])
        != rank(#[trigger] ordered[j]) by {
        if rank(ordered[i]) == rank(ordered[j]) {
            lemma_tied_do_not_join(ordered, i, j);
        }
    }
    lemma_one_order(ordered, in_time(other), rank);
}

proof fn lemma_piece_is_a_clip(clips: Seq<ClipView>, ids: Seq<Seq<char>>, i: int)
    requires
        0 <= i < pieces(clips, ids).len(),
    ensures
        clips.contains(pieces(clips, ids)[i]),
    decreases ids.len(),
{
    if ids.len() > 0 {
        let found = |c: ClipView| c.id == ids.last();
        lemma_first_is(clips, found);
        if i < pieces(clips, ids.drop_last()).len() {
            lemma_piece_is_a_clip(clips, ids.drop_last(), i);
        }
    }
}

/// Whether pieces can be merged does not hang on the order they are named in.
pub proof fn lemma_merging_in_any_order(
    clips: Seq<ClipView>,
    ids: Seq<Seq<char>>,
    others: Seq<Seq<char>>,
)
    requires
        ids.to_multiset() == others.to_multiset(),
        forall|i: int| 0 <= i < clips.len() ==> stands(#[trigger] clips[i]),
    ensures
        merge_reason(clips, ids) is None <==> merge_reason(clips, others) is None,
{
    if merge_reason(clips, ids) is None {
        lemma_merge_goes_over(clips, ids, others);
    }
    if merge_reason(clips, others) is None {
        lemma_merge_goes_over(clips, others, ids);
    }
}

/// A clip of the shortest length or more is long enough, wherever it starts in the
/// first 2^40 seconds.
pub proof fn lemma_the_shortest_stands(clip: ClipView)
    requires
        num(MIN_CLIP_DURATION).at_most(clip.duration),
        clip.start.finite(),
        0 <= clip.start.value() <= 0x100_0000_0000 * pow2(1074),
    ensures
        stands(clip),
{
    let least = num(MIN_CLIP_DURATION);
    let b = pow2(1002) as int;
    lemma2_to64();
    lemma2_to64_rest();
    lemma_pow2_pos(1002);
    lemma_pow2_adds(14, 1002);
    lemma_pow2_adds(60, 1014);
    lemma_pow2_adds(12, 1002);
    let m = least.value();
    let eps = num(JOIN_EPSILON).value();
    assert(m == 0x11_1111_1111_1111 * pow2(1016));
    assert(m == 0x4_4444_4444_4444_4000 * b) by (nonlinear_arith)
        requires
            m == 0x11_1111_1111_1111 * (0x4000 * b),
    ;
    assert(eps == 0x10_c6f7_a0b5_ed8d * b);
    let s = clip.start.value();
    assert(s <= 0x1_0000_0000_0000_0000_0000_0000_0000 * b) by (nonlinear_arith)
        requires
            s <= 0x100_0000_0000 * pow2(1074),
            pow2(1074) == 0x1000_0000_0000_0000 * pow2(1014),
            pow2(1014) == 0x1000 * b,
    ;
    let over = end(clip);
    lemma_sum_close(clip.start, least);
    let soon = sum(clip.start, least);
    lemma_units_of(1063, FRACTION as nat);
    lemma_units_monotonic((1064 * FRACTION) as nat, (INFINITE - 1) as nat);
    lemma_pow2_adds(41, 1074);
    lemma_pow2_adds(52, 1063);
    assert(s + m <= pow2(1115)) by (nonlinear_arith)
        requires
            s <= 0x1_0000_0000_0000_0000_0000_0000_0000 * b,
            m == 0x4_4444_4444_4444_4000 * b,
            pow2(1115) == 0x200_0000_0000 * (0x1000_0000_0000_0000 * (0x1000 * b)),
            b > 0,
    ;
    assert(soon.finite());
    assert(soon.value() - s > 0x2_0000_0000_0000_0000 * b) by (nonlinear_arith)
        requires
            PARTS * size(soon.value() - (s + m)) <= s + m,
            s <= 0x1_0000_0000_0000_0000_0000_0000_0000 * b,
            m == 0x4_4444_4444_4444_4000 * b,
            b > 0,
    ;
    if clip.duration.finite() {
        lemma_sum_keeps_order(least, clip.duration, clip.start);
        lemma_sum_commutes(least, clip.start);
        lemma_sum_commutes(clip.duration, clip.start);
        assert(soon.at_most(over));
    }
    if over.finite() {
        lemma_of_numbers(clip.start, clip.duration);
        lemma_ranks_as_valued(soon, over);
        lemma_units_monotonic(over.magnitude(), (INFINITE - 1) as nat);
        lemma_difference_close(clip.start, over);
        let apart = difference(clip.start, over);
        assert(apart.finite());
        assert(size(apart.value()) > eps) by (nonlinear_arith)
            requires
                PARTS * size(apart.value() - (s - over.value())) <= size(s - over.value()),
                over.value() - s > 0x2_0000_0000_0000_0000 * b,
                eps == 0x10_c6f7_a0b5_ed8d * b,
                b > 0,
        ;
        lemma_units_monotonic(0, apart.magnitude());
        assert(absolute(apart).value() == size(apart.value()));
        lemma_ranks_as_valued(num(JOIN_EPSILON), absolute(apart));
    } else {
        reveal(sum);
        assert(!over.nan());
        assert(difference(clip.start, over).infinite());
    }
}

} // verus!
