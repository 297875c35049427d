//! Joining what is left: merges, deletions, and the gaps they close.

use crate::commands::clips::end;
use crate::commands::command::{CommandError, Outcome, Refusal};
use crate::commands::cuts::ids_of;
use crate::commands::mint::IdMint;
use crate::commands::step::Step;
use crate::find::{first, lemma_filter_maps, lemma_filter_step};
use crate::model::clip::{Clip, ClipView};
use crate::model::keys::ParamKey;
use crate::model::media::text_of;
use crate::model::project::{Project, ProjectView};
use crate::model::ride::{plays, ride_of, Ride};
use crate::model::timeline::{clips_of, find_clip, Timeline};
use crate::number::{absolute, difference, num, product, sum, total_rank, Number, ZERO};
use crate::order::{lemma_sorted, lemma_sorted_maps, sorted, stable_sort, Ranked};
use crate::ranges::JOIN_EPSILON;
use crate::shared::share;
use std::sync::Arc;
use vstd::prelude::*;

verus! {

/// The clips these ids name, in the ids' order. An unknown id names none.
pub open spec fn pieces(clips: Seq<ClipView>, ids: Seq<Seq<char>>) -> Seq<ClipView>
    decreases ids.len(),
{
    if ids.len() == 0 {
        Seq::empty()
    } else {
        let rest = pieces(clips, ids.drop_last());
        match first(clips, |c: ClipView| c.id == ids.last()) {
            Some(i) => rest.push(clips[i]),
            None => rest,
        }
    }
}

/// Clips by where they start.
pub open spec fn in_time(clips: Seq<ClipView>) -> Seq<ClipView> {
    sorted(clips, |c: ClipView| total_rank(c.start))
}

/// Whether two clips in time order touch.
pub open spec fn touch(previous: ClipView, current: ClipView) -> bool {
    !num(JOIN_EPSILON).less(absolute(difference(current.start, end(previous))))
}

/// Whether a clip starts in the source where the one before it stopped.
pub open spec fn continues(previous: ClipView, current: ClipView) -> bool {
    !num(JOIN_EPSILON).less(
        absolute(
            difference(
                current.source_start,
                sum(previous.source_start, product(previous.duration, previous.speed)),
            ),
        ),
    )
}

/// Why clips in time order do not join, from the first pair that does not.
pub open spec fn gap_reason(clips: Seq<ClipView>) -> Option<Seq<char>>
    decreases clips.len(),
{
    if clips.len() < 2 {
        None
    } else {
        match gap_reason(clips.drop_last()) {
            Some(reason) => Some(reason),
            None => {
                let previous = clips[clips.len() - 2];
                let current = clips.last();
                if !touch(previous, current) {
                    Some("Merged clips must touch, with no gap or overlap."@)
                } else if !continues(previous, current) {
                    Some("These pieces are no longer in their original order."@)
                } else {
                    None
                }
            },
        }
    }
}

/// Whether every clip agrees with the first, by a test on two clips.
pub open spec fn agree(clips: Seq<ClipView>, like: spec_fn(ClipView, ClipView) -> bool) -> bool {
    forall|i: int| 0 <= i < clips.len() ==> like(#[trigger] clips[i], clips[0])
}

/// Why these clips cannot be merged, or None if they can.
pub open spec fn merge_reason(clips: Seq<ClipView>, ids: Seq<Seq<char>>) -> Option<Seq<char>> {
    let found = pieces(clips, ids);
    if ids.len() < 2 || found.len() < 2 {
        Some("Select two or more clips to merge."@)
    } else if !agree(found, |a: ClipView, b: ClipView| a.track_id == b.track_id) {
        Some("Merged clips must be on the same track."@)
    } else if !agree(found, |a: ClipView, b: ClipView| a.media_id == b.media_id) {
        Some("Merged clips must come from the same file."@)
    } else if !agree(found, |a: ClipView, b: ClipView| a.speed.same(b.speed)) {
        Some("Merged clips must play at the same speed."@)
    } else if !agree(found, |a: ClipView, b: ClipView| a.kind == b.kind) {
        Some("Merged clips must be the same kind."@)
    } else if !agree(found, |a: ClipView, b: ClipView| a.speed_curve is None) {
        Some("A clip with a speed curve cannot be merged."@)
    } else if !agree(found, |a: ClipView, b: ClipView| a.audio_stream == b.audio_stream) {
        Some("Merged clips must play the same audio track."@)
    } else {
        gap_reason(in_time(found))
    }
}

/// A clip shared with its timeline, ordered by where it starts.
struct Piece {
    clip: Arc<Clip>,
}

impl Ranked for Piece {
    closed spec fn rank(&self) -> int {
        total_rank(self.clip@.start)
    }

    fn at_or_before(&self, other: &Piece) -> (r: bool) {
        self.clip.start.ordered(other.clip.start)
    }
}

spec fn shown(held: Seq<Piece>) -> Seq<ClipView> {
    held.map_values(|p: Piece| p.clip@)
}

fn find_pieces(clips: &Vec<Arc<Clip>>, ids: &Vec<String>) -> (r: Vec<Piece>)
    ensures
        shown(r@) == pieces(clips_of(clips@), ids_of(ids@)),
{
    let ghost names = ids_of(ids@);
    let ghost views = clips_of(clips@);
    let mut r: Vec<Piece> = Vec::new();
    let mut k: usize = 0;
    assert(names.take(0) =~= Seq::<Seq<char>>::empty());
    assert(shown(r@) =~= pieces(views, names.take(0)));
    while k < ids.len()
        invariant
            k <= ids.len(),
            names == ids_of(ids@),
            views == clips_of(clips@),
            shown(r@) == pieces(views, names.take(k as int)),
        decreases ids.len() - k,
    {
        proof {
            assert(names.take(k as int + 1).drop_last() =~= names.take(k as int));
            assert(names.take(k as int + 1).last() == ids@[k as int]@);
        }
        match find_clip(clips, ids[k].as_str()) {
            Some(i) => {
                let ghost before = r@;
                let piece: Piece = Piece { clip: share(&clips[i]) };
                r.push(piece);
                assert(shown(r@) =~= shown(before).push(piece.clip@));
                assert(views[i as int] == clips@[i as int]@);
            },
            None => {},
        }
        k = k + 1;
    }
    assert(names.take(names.len() as int) =~= names);
    r
}

fn order_pieces(held: Vec<Piece>) -> (r: Vec<Piece>)
    ensures
        shown(r@) == in_time(shown(held@)),
        r.len() == held.len(),
{
    let ghost whole = held@;
    proof {
        lemma_sorted_maps(
            whole,
            |x: Piece| x.rank(),
            |p: Piece| p.clip@,
            |c: ClipView| total_rank(c.start),
        );
        lemma_sorted(whole, |x: Piece| x.rank());
    }
    stable_sort(held)
}

/// Which of the tests every piece has to agree on fails first.
fn disagreement(held: &Vec<Piece>) -> (r: Option<String>)
    requires
        held.len() >= 2,
    ensures
        ({
            let found = shown(held@);
            text_of(r) == (if !agree(found, |a: ClipView, b: ClipView| a.track_id == b.track_id) {
                Some("Merged clips must be on the same track."@)
            } else if !agree(found, |a: ClipView, b: ClipView| a.media_id == b.media_id) {
                Some("Merged clips must come from the same file."@)
            } else if !agree(found, |a: ClipView, b: ClipView| a.speed.same(b.speed)) {
                Some("Merged clips must play at the same speed."@)
            } else if !agree(found, |a: ClipView, b: ClipView| a.kind == b.kind) {
                Some("Merged clips must be the same kind."@)
            } else if !agree(found, |a: ClipView, b: ClipView| a.speed_curve is None) {
                Some("A clip with a speed curve cannot be merged."@)
            } else if !agree(found, |a: ClipView, b: ClipView| a.audio_stream == b.audio_stream) {
                Some("Merged clips must play the same audio track."@)
            } else {
                None
            })
        }),
{
    let ghost found = shown(held@);
    let mut track: bool = true;
    let mut media: bool = true;
    let mut speed: bool = true;
    let mut kind: bool = true;
    let mut curve: bool = true;
    let mut stream: bool = true;
    let mut i: usize = 0;
    while i < held.len()
        invariant
            i <= held.len(),
            held.len() >= 2,
            found == shown(held@),
            track == (forall|j: int|
                0 <= j < i ==> (#[trigger] found[j]).track_id == found[0].track_id),
            media == (forall|j: int|
                0 <= j < i ==> (#[trigger] found[j]).media_id == found[0].media_id),
            speed == (forall|j: int|
                0 <= j < i ==> (#[trigger] found[j]).speed.same(found[0].speed)),
            kind == (forall|j: int| 0 <= j < i ==> (#[trigger] found[j]).kind == found[0].kind),
            curve == (forall|j: int| 0 <= j < i ==> (#[trigger] found[j]).speed_curve is None),
            stream == (forall|j: int|
                0 <= j < i ==> (#[trigger] found[j]).audio_stream == found[0].audio_stream),
        decreases held.len() - i,
    {
        let a: &Clip = &*held[i].clip;
        let b: &Clip = &*held[0].clip;
        assert(found[i as int] == a@);
        assert(found[0] == b@);
        let same_stream: bool = match (a.audio_stream, b.audio_stream) {
            (Some(x), Some(y)) => x == y,
            (None, None) => true,
            _ => false,
        };
        track = track && a.track_id == b.track_id;
        media = media && a.media_id == b.media_id;
        speed = speed && a.speed.equals(b.speed);
        kind = kind && a.kind == b.kind;
        curve = curve && a.speed_curve.is_none();
        stream = stream && same_stream;
        i = i + 1;
    }
    proof {
        let by_track = |a: ClipView, b: ClipView| a.track_id == b.track_id;
        let by_media = |a: ClipView, b: ClipView| a.media_id == b.media_id;
        let by_speed = |a: ClipView, b: ClipView| a.speed.same(b.speed);
        let by_kind = |a: ClipView, b: ClipView| a.kind == b.kind;
        let by_curve = |a: ClipView, b: ClipView| a.speed_curve is None;
        let by_stream = |a: ClipView, b: ClipView| a.audio_stream == b.audio_stream;
        lemma_agree(found, by_track, track);
        lemma_agree(found, by_media, media);
        lemma_agree(found, by_speed, speed);
        lemma_agree(found, by_kind, kind);
        lemma_agree(found, by_curve, curve);
        lemma_agree(found, by_stream, stream);
    }
    if !track {
        Some("Merged clips must be on the same track.".to_owned())
    } else if !media {
        Some("Merged clips must come from the same file.".to_owned())
    } else if !speed {
        Some("Merged clips must play at the same speed.".to_owned())
    } else if !kind {
        Some("Merged clips must be the same kind.".to_owned())
    } else if !curve {
        Some("A clip with a speed curve cannot be merged.".to_owned())
    } else if !stream {
        Some("Merged clips must play the same audio track.".to_owned())
    } else {
        None
    }
}

proof fn lemma_agree(clips: Seq<ClipView>, like: spec_fn(ClipView, ClipView) -> bool, all: bool)
    requires
        all == (forall|j: int| 0 <= j < clips.len() ==> like(#[trigger] clips[j], clips[0])),
    ensures
        all == agree(clips, like),
{
}

/// Why pieces in time order do not join.
fn find_gap(held: &Vec<Piece>) -> (r: Option<String>)
    ensures
        text_of(r) == gap_reason(shown(held@)),
{
    let ghost views = shown(held@);
    let mut i: usize = 1;
    if held.len() < 2 {
        return None;
    }
    assert(views.take(1).len() < 2);
    while i < held.len()
        invariant
            1 <= i <= held.len(),
            views == shown(held@),
            gap_reason(views.take(i as int)) is None,
        decreases held.len() - i,
    {
        let previous: &Clip = &*held[i - 1].clip;
        let current: &Clip = &*held[i].clip;
        proof {
            let next = views.take(i as int + 1);
            assert(next.drop_last() =~= views.take(i as int));
            assert(next.last() == current@);
            assert(next[next.len() - 2] == previous@);
        }
        let gap: Number = current.start.minus(previous.start.plus(previous.duration)).abs();
        if num(JOIN_EPSILON).below(gap) {
            proof {
                lemma_gap_stays(views, i as int + 1);
            }
            return Some("Merged clips must touch, with no gap or overlap.".to_owned());
        }
        let step: Number = current.source_start.minus(
            previous.source_start.plus(previous.duration.times(previous.speed)),
        ).abs();
        if num(JOIN_EPSILON).below(step) {
            proof {
                lemma_gap_stays(views, i as int + 1);
            }
            return Some("These pieces are no longer in their original order.".to_owned());
        }
        i = i + 1;
    }
    assert(views.take(views.len() as int) =~= views);
    None
}

proof fn lemma_gap_stays(clips: Seq<ClipView>, k: int)
    requires
        0 <= k <= clips.len(),
        gap_reason(clips.take(k)) is Some,
    ensures
        gap_reason(clips) == gap_reason(clips.take(k)),
    decreases clips.len(),
{
    if k == clips.len() {
        assert(clips.take(k) =~= clips);
    } else {
        assert(clips.drop_last().take(k) =~= clips.take(k));
        lemma_gap_stays(clips.drop_last(), k);
    }
}

fn merge_refusal(clips: &Vec<Arc<Clip>>, clip_ids: &Vec<String>) -> (r: Option<String>)
    ensures
        text_of(r) == merge_reason(clips_of(clips@), ids_of(clip_ids@)),
{
    if clip_ids.len() < 2 {
        return Some("Select two or more clips to merge.".to_owned());
    }
    let held: Vec<Piece> = find_pieces(clips, clip_ids);
    assert(held.len() == shown(held@).len());
    if held.len() < 2 {
        return Some("Select two or more clips to merge.".to_owned());
    }
    match disagreement(&held) {
        Some(reason) => Some(reason),
        None => {
            let ordered: Vec<Piece> = order_pieces(held);
            find_gap(&ordered)
        },
    }
}

/// Why these clips cannot be merged, or None if they can. A sentence, because a
/// disabled button that will not say why is worse than no button.
pub fn why_not_merge(timeline: &Timeline, clip_ids: &Vec<String>) -> (r: Option<String>)
    ensures
        text_of(r) == merge_reason(timeline@.clips, ids_of(clip_ids@)),
{
    merge_refusal(&timeline.clips, clip_ids)
}

// Merging.

/// A clip with the keys of the pieces merged into it, one after another.
pub open spec fn absorbed_all(clip: ClipView, rest: Seq<ClipView>, origin: Number) -> ClipView
    decreases rest.len(),
{
    if rest.len() == 0 {
        clip
    } else {
        let piece = rest.last();
        absorbed_all(clip, rest.drop_last(), origin).absorbed(
            piece,
            difference(piece.start, origin),
        )
    }
}

/// The clip pieces in time order merge into: the first one, as long as all of
/// them, with every piece's keys where they were on the picture and the last
/// one's way out.
pub open spec fn merged(ordered: Seq<ClipView>, ride: Ride) -> ClipView {
    let head = ordered[0];
    let tail = ordered.last();
    let length = difference(end(tail), head.start);
    ClipView {
        fade_out: tail.fade_out,
        ..absorbed_all(
            (ClipView { duration: length, ..head }).windowed(
                head.duration,
                num(ZERO),
                length,
                ride,
            ),
            ordered.skip(1),
            head.start,
        )
    }
}

/// Whether one of these clips has this id.
pub open spec fn names(clips: Seq<ClipView>, id: Seq<char>) -> bool {
    exists|i: int| 0 <= i < clips.len() && (#[trigger] clips[i]).id == id
}

/// Rejoins pieces into the earliest. Where the earliest is itself among the
/// pieces that go, named twice, nothing happens.
pub open spec fn merging(
    project: ProjectView,
    counter: nat,
    ids: Seq<Seq<char>>,
    ride: Ride,
) -> Step {
    let timeline = project.active();
    match merge_reason(timeline.clips, ids) {
        Some(reason) => Step::refused(project, counter, Refusal::CannotMerge { reason }),
        None => {
            let ordered = in_time(pieces(timeline.clips, ids));
            let kept = timeline.clips.filter(|c: ClipView| !names(ordered.skip(1), c.id));
            match first(kept, |c: ClipView| c.id == ordered[0].id) {
                Some(i) => Step::created(
                    project.with_active(
                        timeline.with_clips(kept.update(i, merged(ordered, ride))),
                    ),
                    counter,
                    ordered[0].id,
                ),
                None => Step::nothing(project, counter),
            }
        },
    }
}

fn names_piece(held: &Vec<Piece>, from: usize, id: &String) -> (r: bool)
    requires
        from <= held.len(),
    ensures
        r == names(shown(held@).skip(from as int), id@),
{
    let ghost rest = shown(held@).skip(from as int);
    let mut i: usize = from;
    while i < held.len()
        invariant
            from <= i <= held.len(),
            rest == shown(held@).skip(from as int),
            forall|j: int| 0 <= j < i - from ==> (#[trigger] rest[j]).id != id@,
        decreases held.len() - i,
    {
        assert(rest[i - from] == held@[i as int].clip@);
        if held[i].clip.id == *id {
            assert(rest[i - from].id == id@);
            return true;
        }
        i = i + 1;
    }
    false
}

fn keep_unnamed(clips: &Vec<Arc<Clip>>, held: &Vec<Piece>) -> (r: Vec<Arc<Clip>>)
    requires
        held.len() >= 1,
    ensures
        clips_of(r@) == clips_of(clips@).filter(
            |c: ClipView| !names(shown(held@).skip(1), c.id),
        ),
{
    let ghost gone = shown(held@).skip(1);
    let ghost pred = |c: Arc<Clip>| !names(gone, c@.id);
    let ghost image = |c: Arc<Clip>| c@;
    let ghost onto = |c: ClipView| !names(gone, c.id);
    let mut r: Vec<Arc<Clip>> = Vec::new();
    let mut i: usize = 0;
    proof {
        reveal(Seq::filter);
        assert(clips@.take(0).filter(pred) =~= Seq::<Arc<Clip>>::empty());
    }
    while i < clips.len()
        invariant
            i <= clips.len(),
            held.len() >= 1,
            gone == shown(held@).skip(1),
            pred == (|c: Arc<Clip>| !names(gone, c@.id)),
            r@ == clips@.take(i as int).filter(pred),
        decreases clips.len() - i,
    {
        proof {
            lemma_filter_step(clips@, pred, i as int);
        }
        if !names_piece(held, 1, &clips[i].id) {
            r.push(share(&clips[i]));
        }
        i = i + 1;
    }
    assert(clips@.take(clips@.len() as int) =~= clips@);
    proof {
        lemma_filter_maps(clips@, pred, image, onto);
    }
    r
}

fn merge_pieces<F: Fn(&Vec<ParamKey>, Number, Number) -> Number>(
    held: &Vec<Piece>,
    engine: &F,
) -> (r: Clip)
    requires
        held.len() >= 1,
        plays(*engine),
    ensures
        r@ == merged(shown(held@), ride_of(*engine)),
{
    let ghost ordered = shown(held@);
    let ghost rest = ordered.skip(1);
    let head: &Clip = &*held[0].clip;
    let tail: &Clip = &*held[held.len() - 1].clip;
    assert(ordered[0] == head@);
    assert(ordered.last() == tail@);
    let length: Number = tail.start.plus(tail.duration).minus(head.start);
    let mut clip: Clip = head.clone();
    clip.duration = length;
    clip.rewindow_keys(head.duration, num(ZERO), length, engine);
    let ghost base = clip@;
    let mut i: usize = 1;
    assert(rest.take(0) =~= Seq::<ClipView>::empty());
    while i < held.len()
        invariant
            1 <= i <= held.len(),
            ordered == shown(held@),
            rest == ordered.skip(1),
            head@ == ordered[0],
            clip@ == absorbed_all(base, rest.take(i - 1), head.start),
        decreases held.len() - i,
    {
        let piece: &Clip = &*held[i].clip;
        proof {
            assert(rest.take(i as int).drop_last() =~= rest.take(i - 1));
            assert(rest.take(i as int).last() == piece@);
        }
        clip.absorb_keys(piece, piece.start.minus(head.start));
        i = i + 1;
    }
    assert(rest.take(rest.len() as int) =~= rest);
    clip.fade_out = tail.fade_out;
    clip
}

pub fn merge_clips<F: Fn(&Vec<ParamKey>, Number, Number) -> Number>(
    project: &mut Project,
    mint: &mut IdMint,
    clip_ids: &Vec<String>,
    engine: &F,
) -> (r: Result<Outcome, CommandError>)
    requires
        old(project)@.editable(),
        plays(*engine),
    ensures
        merging(old(project)@, old(mint)@, ids_of(clip_ids@), ride_of(*engine)).is(
            final(project)@,
            final(mint)@,
            r,
        ),
{
    let mut timeline: Timeline = project.active().clone();
    match merge_refusal(&timeline.clips, clip_ids) {
        Some(reason) => Err(CommandError::CannotMerge { reason }),
        None => {
            let ghost view = timeline@;
            let held: Vec<Piece> = find_pieces(&timeline.clips, clip_ids);
            assert(held.len() == shown(held@).len());
            let ordered: Vec<Piece> = order_pieces(held);
            let kept: Vec<Arc<Clip>> = keep_unnamed(&timeline.clips, &ordered);
            let id: String = ordered[0].clip.id.clone();
            assert(shown(ordered@)[0] == ordered@[0].clip@);
            timeline.clips = kept;
            match find_clip(&timeline.clips, id.as_str()) {
                Some(i) => {
                    let clip: Clip = merge_pieces(&ordered, engine);
                    timeline.put_clip(i, clip);
                    project.put_active(timeline);
                    Ok(Outcome::created(id))
                },
                None => Ok(Outcome::default()),
            }
        },
    }
}

} // verus!
