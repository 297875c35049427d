//! Deleting clips, and closing the gaps a magnetic deletion leaves.

use crate::commands::clips::end;
use crate::commands::command::{CommandError, Outcome};
use crate::commands::cuts::ids_of;
use crate::commands::mint::IdMint;
use crate::commands::step::Step;
use crate::find::{lemma_filter_maps, lemma_filter_step};
use crate::model::clip::{Clip, ClipView};
use crate::model::project::{Project, ProjectView};
use crate::model::timeline::{clips_of, Timeline};
use crate::number::{difference, larger, num, smaller, sum, total_rank, Number, ZERO};
use crate::order::{sorted, stable_sort, Ranked};
use crate::shared::share;
use std::sync::Arc;
use vstd::prelude::*;

verus! {

/// A stretch of one lane that a deletion empties.
#[verifier::ext_equal]
pub struct Emptied {
    pub track_id: Seq<char>,
    pub start: Number,
    pub end: Number,
}

/// A stretch of time.
#[derive(Clone, Copy, Debug)]
pub struct Span {
    pub start: Number,
    pub end: Number,
}

impl Ranked for Span {
    open spec fn rank(&self) -> int {
        total_rank(self.start)
    }

    fn at_or_before(&self, other: &Span) -> (r: bool) {
        self.start.ordered(other.start)
    }
}

/// The stretches these clips occupy.
pub open spec fn emptied(clips: Seq<ClipView>) -> Seq<Emptied> {
    clips.map_values(|c: ClipView| Emptied { track_id: c.track_id, start: c.start, end: end(c) })
}

/// Whether a stretch lies before a clip, on its lane.
pub open spec fn before(gap: Emptied, clip: ClipView) -> bool {
    gap.track_id == clip.track_id && gap.start.less(clip.start)
}

/// The stretches before a clip on its lane, each up to where the clip starts, in
/// order.
pub open spec fn spans_before(removed: Seq<Emptied>, clip: ClipView) -> Seq<Span> {
    sorted(
        removed.filter(|g: Emptied| before(g, clip)).map_values(
            |g: Emptied| Span { start: g.start, end: smaller(g.end, clip.start) },
        ),
        |s: Span| s.rank(),
    )
}

/// What a sweep over spans in order has measured: the length of the stretches
/// that are done, and the one it is in. Spans that overlap count once.
pub open spec fn swept(spans: Seq<Span>) -> (Number, Span)
    decreases spans.len(),
{
    if spans.len() <= 1 {
        (num(ZERO), spans[0])
    } else {
        let (gap, last) = swept(spans.drop_last());
        let span = spans.last();
        if span.start.at_most(last.end) {
            (gap, Span { start: last.start, end: larger(last.end, span.end) })
        } else {
            (sum(gap, difference(last.end, last.start)), span)
        }
    }
}

/// The length of spans in order, those that overlap counted once.
pub open spec fn union_length(spans: Seq<Span>) -> Number {
    let (gap, last) = swept(spans);
    sum(gap, difference(last.end, last.start))
}

/// A clip pulled left by what was emptied before it on its lane, never before
/// zero.
pub open spec fn pulled(clip: ClipView, removed: Seq<Emptied>) -> ClipView {
    let spans = spans_before(removed, clip);
    if spans.len() == 0 {
        clip
    } else {
        ClipView {
            start: larger(difference(clip.start, union_length(spans)), num(ZERO)),
            ..clip
        }
    }
}

/// The clips with every gap closed on the lanes the deletion touched.
pub open spec fn closed(clips: Seq<ClipView>, removed: Seq<Emptied>) -> Seq<ClipView> {
    clips.map_values(|c: ClipView| pulled(c, removed))
}

/// Deletes clips.
pub open spec fn removing(
    project: ProjectView,
    counter: nat,
    ids: Seq<Seq<char>>,
    ripple: bool,
) -> Step {
    let timeline = project.active();
    let gone = timeline.clips.filter(|c: ClipView| ids.contains(c.id));
    let kept = timeline.clips.filter(|c: ClipView| !ids.contains(c.id));
    let applied = kept.len() != timeline.clips.len();
    Step::changed(
        project.with_active(
            timeline.with_clips(
                if ripple && applied {
                    closed(kept, emptied(gone))
                } else {
                    kept
                },
            ),
        ),
        counter,
        applied,
    )
}

/// A stretch of one lane that a deletion empties.
struct Hole {
    track_id: String,
    start: Number,
    end: Number,
}

impl Hole {
    spec fn shown(self) -> Emptied {
        Emptied { track_id: self.track_id@, start: self.start, end: self.end }
    }
}

spec fn holes(held: Seq<Hole>) -> Seq<Emptied> {
    held.map_values(|h: Hole| h.shown())
}

fn is_named(ids: &Vec<String>, id: &String) -> (r: bool)
    ensures
        r == ids_of(ids@).contains(id@),
{
    let ghost views = ids_of(ids@);
    let mut i: usize = 0;
    while i < ids.len()
        invariant
            i <= ids.len(),
            views == ids_of(ids@),
            forall|j: int| 0 <= j < i ==> #[trigger] views[j] != id@,
        decreases ids.len() - i,
    {
        assert(views[i as int] == ids@[i as int]@);
        if ids[i] == *id {
            return true;
        }
        i = i + 1;
    }
    false
}

fn find_holes(clips: &Vec<Arc<Clip>>, ids: &Vec<String>) -> (r: Vec<Hole>)
    ensures
        holes(r@) == emptied(
            clips_of(clips@).filter(|c: ClipView| ids_of(ids@).contains(c.id)),
        ),
{
    let ghost views = clips_of(clips@);
    let ghost pred = |c: ClipView| ids_of(ids@).contains(c.id);
    let mut r: Vec<Hole> = Vec::new();
    let mut i: usize = 0;
    proof {
        reveal(Seq::filter);
        assert(holes(r@) =~= emptied(views.take(0).filter(pred)));
    }
    while i < clips.len()
        invariant
            i <= clips.len(),
            views == clips_of(clips@),
            pred == (|c: ClipView| ids_of(ids@).contains(c.id)),
            holes(r@) == emptied(views.take(i as int).filter(pred)),
        decreases clips.len() - i,
    {
        proof {
            lemma_filter_step(views, pred, i as int);
            assert(views[i as int] == clips@[i as int]@);
        }
        if is_named(ids, &clips[i].id) {
            let ghost before = r@;
            let hole: Hole = Hole {
                track_id: clips[i].track_id.clone(),
                start: clips[i].start,
                end: clips[i].start.plus(clips[i].duration),
            };
            r.push(hole);
            proof {
                assert(holes(r@) =~= holes(before).push(hole.shown()));
                let kept = views.take(i as int).filter(pred);
                assert(emptied(kept.push(views[i as int])) =~= emptied(kept).push(hole.shown()));
            }
        }
        i = i + 1;
    }
    assert(views.take(views.len() as int) =~= views);
    r
}

fn keep_others(clips: &Vec<Arc<Clip>>, ids: &Vec<String>) -> (r: Vec<Arc<Clip>>)
    ensures
        clips_of(r@) == clips_of(clips@).filter(|c: ClipView| !ids_of(ids@).contains(c.id)),
{
    let ghost pred = |c: Arc<Clip>| !ids_of(ids@).contains(c@.id);
    let ghost image = |c: Arc<Clip>| c@;
    let ghost onto = |c: ClipView| !ids_of(ids@).contains(c.id);
    let mut r: Vec<Arc<Clip>> = Vec::new();
    let mut i: usize = 0;
    proof {
        reveal(Seq::filter);
        assert(clips@.take(0).filter(pred) =~= Seq::<Arc<Clip>>::empty());
    }
    while i < clips.len()
        invariant
            i <= clips.len(),
            pred == (|c: Arc<Clip>| !ids_of(ids@).contains(c@.id)),
            r@ == clips@.take(i as int).filter(pred),
        decreases clips.len() - i,
    {
        proof {
            lemma_filter_step(clips@, pred, i as int);
        }
        if !is_named(ids, &clips[i].id) {
            r.push(share(&clips[i]));
        }
        i = i + 1;
    }
    assert(clips@.take(clips@.len() as int) =~= clips@);
    proof {
        lemma_filter_maps(clips@, pred, image, onto);
    }
    r
}

fn find_spans(removed: &Vec<Hole>, clip: &Clip) -> (r: Vec<Span>)
    ensures
        r@ == spans_before(holes(removed@), clip@),
{
    let ghost gaps = holes(removed@);
    let ghost pred = |g: Emptied| before(g, clip@);
    let ghost image = |g: Emptied| Span { start: g.start, end: smaller(g.end, clip@.start) };
    let mut spans: Vec<Span> = Vec::new();
    let mut i: usize = 0;
    proof {
        reveal(Seq::filter);
        assert(spans@ =~= gaps.take(0).filter(pred).map_values(image));
    }
    while i < removed.len()
        invariant
            i <= removed.len(),
            gaps == holes(removed@),
            pred == (|g: Emptied| before(g, clip@)),
            image == (|g: Emptied| Span { start: g.start, end: smaller(g.end, clip@.start) }),
            spans@ == gaps.take(i as int).filter(pred).map_values(image),
        decreases removed.len() - i,
    {
        proof {
            lemma_filter_step(gaps, pred, i as int);
            let sofar = gaps.take(i as int).filter(pred);
            assert(sofar.push(gaps[i as int]).map_values(image) =~= sofar.map_values(image).push(
                image(gaps[i as int]),
            ));
            assert(gaps[i as int] == removed@[i as int].shown());
        }
        if removed[i].track_id == clip.track_id && removed[i].start.below(clip.start) {
            spans.push(Span { start: removed[i].start, end: removed[i].end.min(clip.start) });
        }
        i = i + 1;
    }
    assert(gaps.take(gaps.len() as int) =~= gaps);
    stable_sort(spans)
}

fn measure(spans: &Vec<Span>) -> (r: Number)
    requires
        spans.len() > 0,
    ensures
        r == union_length(spans@),
{
    let mut gap: Number = num(ZERO);
    let mut last: Span = spans[0];
    let mut i: usize = 1;
    assert(spans@.take(1)[0] == spans@[0]);
    while i < spans.len()
        invariant
            1 <= i <= spans.len(),
            (gap, last) == swept(spans@.take(i as int)),
        decreases spans.len() - i,
    {
        let span: Span = spans[i];
        proof {
            assert(spans@.take(i as int + 1).drop_last() =~= spans@.take(i as int));
            assert(spans@.take(i as int + 1).last() == span);
        }
        if span.start.up_to(last.end) {
            last = Span { start: last.start, end: last.end.max(span.end) };
        } else {
            gap = gap.plus(last.end.minus(last.start));
            last = span;
        }
        i = i + 1;
    }
    assert(spans@.take(spans@.len() as int) =~= spans@);
    gap.plus(last.end.minus(last.start))
}

/// Pulls every clip that sits after an emptied stretch left by the length of the
/// stretches before it, on that clip's own lane.
fn close_gaps(clips: &Vec<Arc<Clip>>, removed: &Vec<Hole>) -> (r: Vec<Arc<Clip>>)
    ensures
        clips_of(r@) == closed(clips_of(clips@), holes(removed@)),
{
    let ghost wanted = closed(clips_of(clips@), holes(removed@));
    let mut r: Vec<Arc<Clip>> = Vec::new();
    let mut i: usize = 0;
    while i < clips.len()
        invariant
            i <= clips.len(),
            r.len() == i,
            wanted == closed(clips_of(clips@), holes(removed@)),
            forall|j: int| 0 <= j < i ==> (#[trigger] r@[j])@ == wanted[j],
        decreases clips.len() - i,
    {
        let spans: Vec<Span> = find_spans(removed, &*clips[i]);
        if spans.len() == 0 {
            r.push(share(&clips[i]));
        } else {
            let gap: Number = measure(&spans);
            let mut clip: Clip = (*clips[i]).clone();
            clip.start = clip.start.minus(gap).max(num(ZERO));
            r.push(Arc::new(clip));
        }
        i = i + 1;
    }
    assert(clips_of(r@) =~= wanted);
    r
}

pub fn remove_clips(
    project: &mut Project,
    mint: &mut IdMint,
    clip_ids: &Vec<String>,
    ripple: bool,
) -> (r: Result<Outcome, CommandError>)
    requires
        old(project)@.editable(),
    ensures
        removing(old(project)@, old(mint)@, ids_of(clip_ids@), ripple).is(
            final(project)@,
            final(mint)@,
            r,
        ),
{
    let mut timeline: Timeline = project.active().clone();
    let removed: Vec<Hole> = find_holes(&timeline.clips, clip_ids);
    let kept: Vec<Arc<Clip>> = keep_others(&timeline.clips, clip_ids);
    assert(kept.len() == clips_of(kept@).len());
    assert(timeline.clips.len() == timeline@.clips.len());
    let applied: bool = kept.len() != timeline.clips.len();
    if ripple && applied {
        timeline.clips = close_gaps(&kept, &removed);
    } else {
        timeline.clips = kept;
    }
    project.put_active(timeline);
    Ok(Outcome::changed(applied))
}

} // verus!
