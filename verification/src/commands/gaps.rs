//! How long the gaps are that a ripple delete closes.

use crate::commands::removal::{swept, union_length, Span};
use crate::number::{difference, sum, total_rank};
use crate::order::{in_order, Ranked};
use crate::rounding::{
    lemma_difference_close, lemma_of_numbers, lemma_ranks_as_valued, lemma_sum_close,
    lemma_within_longer, lemma_within_more, lemma_within_none, lemma_within_sum, within,
};
use vstd::prelude::*;
use vstd::set_lib::*;

verus! {

/// Whether a moment lies in a span. Moments are counted in units of the smallest
/// positive number.
pub open spec fn in_span(span: Span, moment: int) -> bool {
    span.start.value() <= moment < span.end.value()
}

pub open spec fn in_spans(spans: Seq<Span>, moment: int) -> bool {
    exists|i: int| 0 <= i < spans.len() && in_span(#[trigger] spans[i], moment)
}

/// The moments that lie in one of these spans or another.
pub open spec fn union_of(spans: Seq<Span>) -> Set<int> {
    Set::new(|moment: int| in_spans(spans, moment))
}

/// Whether spans can be measured: each ends no earlier than it starts, and they
/// are in order.
pub open spec fn spans_in_order(spans: Seq<Span>) -> bool {
    &&& in_order(spans, |s: Span| s.rank())
    &&& forall|i: int|
        0 <= i < spans.len() ==> (#[trigger] spans[i]).start.finite() && spans[i].end.finite()
            && spans[i].start.at_most(spans[i].end)
}

/// What a sweep has left behind it: the moments that are done, as many as it has
/// measured, all of them before the stretch it is in.
proof fn lemma_swept(spans: Seq<Span>) -> (done: Set<int>)
    requires
        spans.len() > 0,
        spans_in_order(spans),
        swept(spans).0.finite(),
    ensures
        done.finite(),
        ({
            let (gap, last) = swept(spans);
            &&& forall|x: int| #[trigger] done.contains(x) ==> x < last.start.value()
            &&& forall|x: int|
                in_spans(spans, x) <==> #[trigger] done.contains(x) || in_span(last, x)
            &&& last.start.finite()
            &&& last.end.finite()
            &&& last.start.value() <= last.end.value()
            &&& total_rank(last.start) <= total_rank(spans.last().start)
            &&& gap.value() >= 0
            &&& within(gap.value(), done.len() as int, (2 * (spans.len() - 1)) as nat)
        }),
    decreases spans.len(),
{
    let n = spans.len();
    if n == 1 {
        lemma_within_none(0);
        lemma_ranks_as_valued(spans[0].start, spans[0].end);
        assert forall|x: int| in_spans(spans, x) <==> #[trigger] Set::<int>::empty().contains(x)
            || in_span(spans[0], x) by {
            if in_span(spans[0], x) {
                assert(in_spans(spans, x));
            }
        }
        Set::empty()
    } else {
        let before = spans.drop_last();
        let (gap, last) = swept(before);
        let span = spans.last();
        let rank = |s: Span| s.rank();
        assert(spans_in_order(before)) by {
            assert forall|i: int, j: int| 0 <= i <= j < before.len() implies rank(
                #[trigger] before[i],
            ) <= rank(#[trigger] before[j]) by {
                assert(rank(spans[i]) <= rank(spans[j]));
            }
        }
        if !span.start.at_most(last.end) {
            lemma_of_numbers(gap, difference(last.end, last.start));
        }
        let done = lemma_swept(before);
        assert(rank(spans[n - 2]) <= rank(spans[n - 1]));
        assert(spans[n - 1] == span);
        lemma_ranks_as_valued(last.start, span.start);
        lemma_ranks_as_valued(span.start, last.end);
        lemma_ranks_as_valued(span.start, span.end);
        lemma_ranks_as_valued(last.end, span.end);
        assert(last.start.value() <= span.start.value());
        assert forall|x: int| #[trigger] in_spans(spans, x) <==> in_spans(before, x) || in_span(
            span,
            x,
        ) by {
            if in_spans(spans, x) {
                let i = choose|i: int| 0 <= i < spans.len() && in_span(#[trigger] spans[i], x);
                if i < n - 1 {
                    assert(before[i] == spans[i]);
                }
            }
            if in_spans(before, x) {
                let i = choose|i: int| 0 <= i < before.len() && in_span(#[trigger] before[i], x);
                assert(in_span(spans[i], x));
            }
            if in_span(span, x) {
                assert(in_span(spans[n - 1], x));
            }
        }
        if span.start.at_most(last.end) {
            lemma_within_longer(
                gap.value(),
                done.len() as int,
                (2 * (n - 2)) as nat,
                (2 * (n - 1)) as nat,
            );
            done
        } else {
            let long = difference(last.end, last.start);
            let from = last.start.value();
            let to = last.end.value();
            let stretch = set_int_range(from, to);
            let times = (2 * n - 3) as nat;
            lemma_int_range(from, to);
            lemma_set_disjoint_lens(done, stretch);
            lemma_difference_close(last.end, last.start);
            lemma_within_none(to - from);
            lemma_within_more(to - from, long.value(), to - from, 0);
            lemma_within_longer(long.value(), to - from, 1, times);
            lemma_within_longer(gap.value(), done.len() as int, (2 * (n - 2)) as nat, times);
            lemma_within_sum(gap.value(), long.value(), done.len() as int, to - from, times);
            lemma_sum_close(gap, long);
            lemma_within_more(
                gap.value() + long.value(),
                sum(gap, long).value(),
                done.len() + (to - from),
                times,
            );
            let all = done + stretch;
            assert forall|x: int| in_spans(spans, x) <==> #[trigger] all.contains(x) || in_span(
                span,
                x,
            ) by {
                assert(in_spans(before, x) <==> done.contains(x) || in_span(last, x));
            }
            all
        }
    }
}

/// What a sweep over spans in order measures is the length of their union: a
/// moment in several of them counts once. Each span rounds no more than twice.
pub proof fn lemma_length_of_the_union(spans: Seq<Span>)
    requires
        spans.len() > 0,
        spans_in_order(spans),
        union_length(spans).finite(),
    ensures
        union_of(spans).finite(),
        within(union_length(spans).value(), union_of(spans).len() as int, 2 * spans.len()),
{
    let n = spans.len();
    let (gap, last) = swept(spans);
    let long = difference(last.end, last.start);
    lemma_of_numbers(gap, long);
    let done = lemma_swept(spans);
    let from = last.start.value();
    let to = last.end.value();
    let stretch = set_int_range(from, to);
    let times = (2 * n - 1) as nat;
    lemma_int_range(from, to);
    lemma_set_disjoint_lens(done, stretch);
    lemma_difference_close(last.end, last.start);
    lemma_within_none(to - from);
    lemma_within_more(to - from, long.value(), to - from, 0);
    lemma_within_longer(long.value(), to - from, 1, times);
    lemma_within_longer(gap.value(), done.len() as int, (2 * (n - 1)) as nat, times);
    lemma_within_sum(gap.value(), long.value(), done.len() as int, to - from, times);
    lemma_sum_close(gap, long);
    lemma_within_more(
        gap.value() + long.value(),
        sum(gap, long).value(),
        done.len() + (to - from),
        times,
    );
    let all = done + stretch;
    assert forall|x: int| #[trigger] union_of(spans).contains(x) <==> all.contains(x) by {
        assert(in_spans(spans, x) <==> done.contains(x) || in_span(last, x));
    }
    assert(union_of(spans) =~= all);
}

} // verus!
