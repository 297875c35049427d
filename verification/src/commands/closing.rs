//! What a ripple delete closes: each clip that is left is pulled back by the time that
//! went from its lane before it, and by no more.

use crate::commands::clips::end;
use crate::commands::gaps::{in_span, in_spans, lemma_length_of_the_union, spans_in_order, union_of};
use crate::commands::removal::{
    before, closed, emptied, removing, spans_before, union_length, Emptied, Span,
};
use crate::commands::sliding::clips_in;
use crate::find::{lemma_filter_keeps, lemma_filter_kept, lemma_first_is};
use crate::model::clip::ClipView;
use crate::model::project::ProjectView;
use crate::model::timeline::TimelineView;
use crate::number::{difference, larger, num, smaller, Number, ZERO};
use crate::order::{lemma_sorted, lemma_sorted_holds, sorted, Ranked};
use crate::rounding::{lemma_ranks_as_valued, lemma_within_longer, within, PARTS};
use vstd::arithmetic::power::*;
use vstd::prelude::*;

verus! {

/// Whether a clip holds a moment of a lane before another clip starts. Moments are
/// counted in the least number.
pub open spec fn held_before(gone: ClipView, clip: ClipView, moment: int) -> bool {
    &&& gone.track_id == clip.track_id
    &&& gone.start.value() <= moment
    &&& moment < end(gone).value()
    &&& moment < clip.start.value()
}

/// The moments of a clip's lane before it that went with other clips. One that several
/// of them held went once.
pub open spec fn gone_before(gone: Seq<ClipView>, clip: ClipView) -> Set<int> {
    Set::new(
        |moment: int|
            exists|g: int| 0 <= g < gone.len() && held_before(#[trigger] gone[g], clip, moment),
    )
}

/// Whether a clip starts and ends somewhere, in that order.
pub open spec fn stands(clip: ClipView) -> bool {
    clip.start.finite() && end(clip).finite() && clip.start.at_most(end(clip))
}

/// The stretch of a clip that went that lies before another.
spec fn stretch(gone: ClipView, clip: ClipView) -> Span {
    Span { start: gone.start, end: smaller(end(gone), clip.start) }
}

proof fn lemma_spans(gone: Seq<ClipView>, clip: ClipView)
    requires
        clip.start.finite(),
        forall|g: int| 0 <= g < gone.len() ==> stands(#[trigger] gone[g]),
    ensures
        ({
            let spans = spans_before(emptied(gone), clip);
            &&& spans_in_order(spans)
            &&& spans.len() <= gone.len()
            &&& union_of(spans) == gone_before(gone, clip)
        }),
{
    broadcast use vstd::seq_lib::group_to_multiset_ensures;

    let gaps = emptied(gone);
    let pred = |g: Emptied| before(g, clip);
    let kept = gaps.filter(pred);
    let cut = |g: Emptied| Span { start: g.start, end: smaller(g.end, clip.start) };
    let raw = kept.map_values(cut);
    let rank = |s: Span| s.rank();
    let spans = sorted(raw, rank);
    assert(spans == spans_before(gaps, clip));
    lemma_sorted(raw, rank);
    lemma_filter_kept(gaps, pred);
    // Where each span came from.
    let from = |s: Span|
        exists|g: int|
            0 <= g < gone.len() && before(gaps[g], clip) && s == #[trigger] stretch(gone[g], clip);
    assert forall|i: int| 0 <= i < raw.len() implies from(#[trigger] raw[i]) by {
        assert(pred(gaps.filter(pred)[i]));
        let g = choose|g: int| 0 <= g < gaps.len() && gaps[g] == kept[i];
        assert(gaps[g].start == gone[g].start);
        assert(raw[i] == stretch(gone[g], clip));
    }
    lemma_sorted_holds(raw, rank, from);
    // And that none was left behind.
    assert forall|g: int| 0 <= g < gone.len() && before(gaps[g], clip) implies spans.contains(
        #[trigger] stretch(gone[g], clip),
    ) by {
        lemma_filter_keeps(gaps, pred, g);
        let i = choose|i: int| 0 <= i < kept.len() && kept[i] == gaps[g];
        assert(raw[i] == stretch(gone[g], clip));
        assert(raw.contains(stretch(gone[g], clip)));
        assert(raw.to_multiset().count(stretch(gone[g], clip)) > 0);
    }
    assert forall|i: int| 0 <= i < spans.len() implies (#[trigger] spans[i]).start.finite()
        && spans[i].end.finite() && spans[i].start.at_most(spans[i].end) by {
        assert(from(spans[i]));
        let g = choose|g: int|
            0 <= g < gone.len() && before(gaps[g], clip) && spans[i] == #[trigger] stretch(
                gone[g],
                clip,
            );
        assert(stands(gone[g]));
    }
    assert forall|m: int| #[trigger] in_spans(spans, m) <==> gone_before(gone, clip).contains(m) by {
        if in_spans(spans, m) {
            let i = choose|i: int| 0 <= i < spans.len() && in_span(#[trigger] spans[i], m);
            assert(from(spans[i]));
            let g = choose|g: int|
                0 <= g < gone.len() && before(gaps[g], clip) && spans[i] == #[trigger] stretch(
                    gone[g],
                    clip,
                );
            assert(stands(gone[g]));
            lemma_ranks_as_valued(end(gone[g]), clip.start);
            lemma_ranks_as_valued(clip.start, end(gone[g]));
            assert(held_before(gone[g], clip, m));
        }
        if gone_before(gone, clip).contains(m) {
            let g = choose|g: int|
                0 <= g < gone.len() && held_before(#[trigger] gone[g], clip, m);
            assert(stands(gone[g]));
            lemma_ranks_as_valued(gone[g].start, clip.start);
            lemma_ranks_as_valued(end(gone[g]), clip.start);
            lemma_ranks_as_valued(clip.start, end(gone[g]));
            assert(before(gaps[g], clip));
            let s = stretch(gone[g], clip);
            assert(spans.contains(s));
            let i = choose|i: int| 0 <= i < spans.len() && spans[i] == s;
            assert(in_span(spans[i], m));
        }
    }
    assert(union_of(spans) =~= gone_before(gone, clip)) by {
        assert forall|m: int| #[trigger] union_of(spans).contains(m) <==> gone_before(
            gone,
            clip,
        ).contains(m) by {
            assert(union_of(spans).contains(m) <==> in_spans(spans, m));
        }
    }
}

/// A ripple delete pulls a clip that is left back by what its lane lost before it: the
/// time the clips that went held there, once however many of them held it, and only as
/// far as the clip's own start. It changes nothing else of it, and nothing starts
/// before the beginning.
pub proof fn lemma_a_ripple_delete_closes_what_is_gone(
    kept: Seq<ClipView>,
    gone: Seq<ClipView>,
    k: int,
)
    requires
        0 <= k < kept.len(),
        kept[k].start.finite(),
        forall|g: int| 0 <= g < gone.len() ==> stands(#[trigger] gone[g]),
        union_length(spans_before(emptied(gone), kept[k])).finite(),
    ensures
        ({
            let was = kept[k];
            let is = closed(kept, emptied(gone))[k];
            let lost = gone_before(gone, was);
            &&& is == ClipView { start: is.start, ..was }
            &&& lost.finite()
            &&& is.start == was.start && lost.len() == 0 || exists|by: Number|
                {
                    &&& by.finite() && within(by.value(), lost.len() as int, 2 * gone.len())
                    &&& is.start == larger(#[trigger] difference(was.start, by), num(ZERO))
                }
        }),
{
    let was = kept[k];
    let spans = spans_before(emptied(gone), was);
    lemma_spans(gone, was);
    if spans.len() == 0 {
        assert(union_of(spans) =~= Set::<int>::empty());
    } else {
        lemma_length_of_the_union(spans);
        let by = union_length(spans);
        let n = gone_before(gone, was).len() as int;
        let v = by.value();
        let low = pow(PARTS - 1, 2 * spans.len());
        let mid = pow(PARTS as int, 2 * spans.len());
        lemma_pow_positive(PARTS - 1, 2 * spans.len());
        lemma_pow_positive(PARTS as int, 2 * spans.len());
        assert(v >= 0) by (nonlinear_arith)
            requires
                n * low <= v * mid,
                n >= 0,
                low > 0,
                mid > 0,
        ;
        lemma_within_longer(v, n, 2 * spans.len(), 2 * gone.len());
        let is = closed(kept, emptied(gone))[k];
        assert(is.start == larger(difference(was.start, by), num(ZERO)));
    }
}

/// A delete takes the clips it names and no others, and without a ripple the rest stay
/// as they were, in their order.
pub proof fn lemma_a_delete_takes_what_it_names(
    project: ProjectView,
    counter: nat,
    ids: Seq<Seq<char>>,
    ripple: bool,
)
    requires
        project.editable(),
    ensures
        ({
            let was = project.active().clips;
            let after = removing(project, counter, ids, ripple);
            let is = clips_in(project, after.project);
            &&& forall|k: int| 0 <= k < is.len() ==> !ids.contains(#[trigger] is[k].id)
            &&& !ripple ==> forall|c: ClipView| #[trigger]
                is.contains(c) <==> was.contains(c) && !ids.contains(c.id)
            &&& forall|k: int|
                0 <= k < was.len() && !ids.contains(#[trigger] was[k].id) ==> exists|j: int|
                    0 <= j < is.len() && #[trigger] is[j] == (ClipView { start: is[j].start, ..was[k] })
            &&& after.counter == counter
            &&& after.project.media == project.media
        }),
{
    lemma_first_is(project.timelines, |t: TimelineView| t.id == project.active_timeline_id);
    let was = project.active().clips;
    let pred = |c: ClipView| !ids.contains(c.id);
    let kept = was.filter(pred);
    lemma_filter_kept(was, pred);
    let after = removing(project, counter, ids, ripple);
    let is = clips_in(project, after.project);
    assert(is.len() == kept.len());
    assert forall|k: int| 0 <= k < is.len() implies is[k] == (ClipView {
        start: is[k].start,
        ..#[trigger] kept[k]
    }) by {}
    assert forall|k: int| 0 <= k < is.len() implies !ids.contains(#[trigger] is[k].id) by {
        assert(pred(was.filter(pred)[k]));
        assert(is[k].id == kept[k].id);
    }
    assert forall|c: ClipView| #[trigger] kept.contains(c) <==> was.contains(c) && !ids.contains(
        c.id,
    ) by {
        if kept.contains(c) {
            let j = choose|j: int| 0 <= j < kept.len() && kept[j] == c;
            assert(pred(was.filter(pred)[j]));
        }
        if was.contains(c) && !ids.contains(c.id) {
            let j = choose|j: int| 0 <= j < was.len() && was[j] == c;
            lemma_filter_keeps(was, pred, j);
        }
    }
    assert forall|k: int| 0 <= k < was.len() && !ids.contains(#[trigger] was[k].id) implies exists|
        j: int,
    |
        0 <= j < is.len() && #[trigger] is[j] == (ClipView { start: is[j].start, ..was[k] }) by {
        lemma_filter_keeps(was, pred, k);
        let j = choose|j: int| 0 <= j < kept.len() && kept[j] == was[k];
        assert(is[j] == (ClipView { start: is[j].start, ..kept[j] }));
    }
}

} // verus!
