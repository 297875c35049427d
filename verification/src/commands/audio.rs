//! Sound detached from pictures, and given back.

use crate::commands::clips::{end, occupied};
use crate::commands::command::{CommandError, Outcome};
use crate::commands::mint::{minted, IdMint};
use crate::commands::step::Step;
use crate::find::{first, lemma_filter_maps, lemma_filter_step, lemma_first, lemma_no_first};
use crate::model::clip::{copy_curve, keys_of, Clip, ClipView};
use crate::model::filter::{copy_chain, FilterView};
use crate::model::keys::KeyProperty;
use crate::model::media::{streams, AudioTrack, AudioTrackView, ClipKind, MediaView};
use crate::model::project::{find_media, Project, ProjectView};
use crate::model::timeline::{
    clips_of, find_clip, tracks_of, Timeline, TimelineView, Track, TrackView,
};
use crate::number::Number;
use crate::shared::share;
use crate::text::{decimal, decimal_text, successor};
use std::sync::Arc;
use vstd::prelude::*;

verus! {

/// What a stream is called: its title, or its number.
pub open spec fn stream_label(track: AudioTrackView, row: nat) -> Seq<char> {
    if track.title.len() > 0 {
        track.title
    } else {
        "Track "@ + decimal(row + 1)
    }
}

/// The sounds a clip's media gives: one for each of its streams, named for it,
/// or the clip's own where the file has no more than one.
pub open spec fn sounds(clip: ClipView, tracks: Seq<AudioTrackView>) -> Seq<
    (Option<u32>, Seq<char>),
> {
    if tracks.len() > 1 {
        Seq::new(
            tracks.len(),
            |i: int|
                (
                    Some(tracks[i].index),
                    clip.name + " - "@ + stream_label(tracks[i], i as nat),
                ),
        )
    } else {
        seq![(clip.audio_stream, clip.name)]
    }
}

/// A clip's sound as a clip of its own: the same stretch of the same media, with
/// the mix and the filters the picture had.
pub open spec fn sound_of(
    clip: ClipView,
    id: Seq<char>,
    track_id: Seq<char>,
    stream: Option<u32>,
    name: Seq<char>,
) -> ClipView {
    ClipView {
        media_id: clip.media_id,
        source_start: clip.source_start,
        volume: clip.volume,
        fade_in: clip.fade_in,
        fade_out: clip.fade_out,
        speed: clip.speed,
        speed_curve: clip.speed_curve,
        keys: keys_of(clip.keys, KeyProperty::Volume),
        preserve_pitch: clip.preserve_pitch,
        filters: clip.filters,
        audio_stream: stream,
        detached_from: Some(clip.id),
        ..ClipView::blank(id, track_id, ClipKind::Audio, name, clip.start, clip.duration)
    }
}

/// The lowest lane with nothing in a span.
pub open spec fn empty_track(
    tracks: Seq<TrackView>,
    clips: Seq<ClipView>,
    from: Number,
    to: Number,
) -> Option<int> {
    first(tracks, |t: TrackView| !occupied(clips, t.id, from, to))
}

/// The lanes, the clips and the counter once a run of sounds is placed, each on
/// a free lane, minted where none is.
pub open spec fn placed_sounds(
    timeline: TimelineView,
    counter: nat,
    clip: ClipView,
    wanted: Seq<(Option<u32>, Seq<char>)>,
) -> (TimelineView, nat)
    decreases wanted.len(),
{
    if wanted.len() == 0 {
        (timeline, counter)
    } else {
        let (sofar, count) = placed_sounds(timeline, counter, clip, wanted.drop_last());
        let (stream, name) = wanted.last();
        match empty_track(sofar.tracks, sofar.clips, clip.start, end(clip)) {
            Some(i) => (
                sofar.with_clips(
                    sofar.clips.push(
                        sound_of(clip, minted("c"@, count), sofar.tracks[i].id, stream, name),
                    ),
                ),
                successor(count),
            ),
            None => {
                let lane = minted("t"@, count);
                let id = minted("c"@, successor(count));
                (
                    TimelineView {
                        tracks: sofar.tracks.push(TrackView::fresh(lane)),
                        clips: sofar.clips.push(sound_of(clip, id, lane, stream, name)),
                        ..sofar
                    },
                    successor(successor(count)),
                )
            },
        }
    }
}

/// A picture whose sound is elsewhere.
pub open spec fn silent(clip: ClipView) -> ClipView {
    ClipView { muted: Some(true), filters: Seq::empty(), ..clip }
}

/// Whether a clip is the sound of another.
pub open spec fn is_sound_of(clip: ClipView, id: Seq<char>) -> bool {
    clip.detached_from == Some(id)
}

/// Whether a clip has sound to detach.
pub open spec fn detachable(timeline: TimelineView, clip: ClipView, media: MediaView) -> bool {
    &&& clip.kind == ClipKind::Video
    &&& clip.muted != Some(true)
    &&& media.has_audio
    &&& forall|i: int|
        0 <= i < timeline.clips.len() ==> !is_sound_of(#[trigger] timeline.clips[i], clip.id)
}

/// Pulls a picture's sound out into clips of its own.
pub open spec fn detaching(project: ProjectView, counter: nat, clip_id: Seq<char>) -> Step {
    let timeline = project.active();
    match timeline.clip_index(clip_id) {
        None => Step::nothing(project, counter),
        Some(i) => {
            let clip = timeline.clips[i];
            match project.media_index(clip.media_id) {
                None => Step::nothing(project, counter),
                Some(m) => if !detachable(timeline, clip, project.media[m]) {
                    Step::nothing(project, counter)
                } else {
                    let wanted = sounds(clip, project.media[m].audio_tracks);
                    let (after, count) = placed_sounds(timeline, counter, clip, wanted);
                    Step::created(
                        project.with_active(after.with_clip(i, silent(clip))),
                        count,
                        after.clips[timeline.clips.len() as int].id,
                    )
                },
            }
        },
    }
}

/// A picture with its sound back.
pub open spec fn voiced(clip: ClipView, filters: Seq<FilterView>) -> ClipView {
    ClipView { muted: None, filters, ..clip }
}

/// Undoes a detach, named by the picture or by its sound.
pub open spec fn reattaching(project: ProjectView, counter: nat, clip_id: Seq<char>) -> Step {
    let timeline = project.active();
    match timeline.clip_index(clip_id) {
        None => Step::nothing(project, counter),
        Some(i) => {
            let picture = match timeline.clips[i].detached_from {
                Some(id) => id,
                None => clip_id,
            };
            match (
                timeline.clip_index(picture),
                first(timeline.clips, |c: ClipView| is_sound_of(c, picture)),
            ) {
                (Some(p), Some(s)) => {
                    let clips = timeline.clips.update(
                        p,
                        voiced(timeline.clips[p], timeline.clips[s].filters),
                    );
                    Step::changed(
                        project.with_active(
                            timeline.with_clips(
                                clips.filter(|c: ClipView| !is_sound_of(c, picture)),
                            ),
                        ),
                        counter,
                        true,
                    )
                },
                _ => Step::nothing(project, counter),
            }
        },
    }
}

fn is_from(clip: &Clip, id: &String) -> (r: bool)
    ensures
        r == is_sound_of(clip@, id@),
{
    match &clip.detached_from {
        Some(from) => *from == *id,
        None => false,
    }
}

/// The first sound of a picture.
fn find_sound(clips: &Vec<Arc<Clip>>, id: &String) -> (r: Option<usize>)
    ensures
        match r {
            Some(i) => i < clips.len() && first(
                clips_of(clips@),
                |c: ClipView| is_sound_of(c, id@),
            ) == Some(i as int),
            None => first(clips_of(clips@), |c: ClipView| is_sound_of(c, id@)) is None && forall|
                i: int,
            |
                0 <= i < clips_of(clips@).len() ==> !is_sound_of(
                    #[trigger] clips_of(clips@)[i],
                    id@,
                ),
        },
{
    let ghost views = clips_of(clips@);
    let ghost pred = |c: ClipView| is_sound_of(c, id@);
    let mut i: usize = 0;
    while i < clips.len()
        invariant
            i <= clips.len(),
            views == clips_of(clips@),
            pred == (|c: ClipView| is_sound_of(c, id@)),
            forall|j: int| 0 <= j < i ==> !pred(#[trigger] views[j]),
        decreases clips.len() - i,
    {
        assert(views[i as int] == clips@[i as int]@);
        if is_from(&*clips[i], id) {
            proof {
                lemma_first(views, pred, i as int);
            }
            return Some(i);
        }
        i = i + 1;
    }
    proof {
        lemma_no_first(views, pred);
        assert forall|j: int| 0 <= j < views.len() implies !is_sound_of(
            #[trigger] views[j],
            id@,
        ) by {
            assert(!pred(views[j]));
        }
    }
    None
}

fn find_empty_track(timeline: &Timeline, from: Number, to: Number) -> (r: Option<usize>)
    ensures
        match r {
            Some(i) => i < timeline.tracks.len() && empty_track(
                timeline@.tracks,
                timeline@.clips,
                from,
                to,
            ) == Some(i as int),
            None => empty_track(timeline@.tracks, timeline@.clips, from, to) is None,
        },
{
    let ghost view = timeline@;
    let ghost pred = |t: TrackView| !occupied(view.clips, t.id, from, to);
    let mut i: usize = 0;
    while i < timeline.tracks.len()
        invariant
            i <= timeline.tracks.len(),
            view == timeline@,
            pred == (|t: TrackView| !occupied(view.clips, t.id, from, to)),
            forall|j: int| 0 <= j < i ==> !pred(#[trigger] view.tracks[j]),
        decreases timeline.tracks.len() - i,
    {
        assert(view.tracks[i as int] == timeline.tracks@[i as int]@);
        if !crate::commands::clips::is_occupied(
            &timeline.clips,
            &timeline.tracks[i].id,
            from,
            to,
        ) {
            proof {
                lemma_first(view.tracks, pred, i as int);
            }
            return Some(i);
        }
        i = i + 1;
    }
    proof {
        lemma_no_first(view.tracks, pred);
    }
    None
}

fn make_sound(
    clip: &Clip,
    id: String,
    track_id: String,
    stream: Option<u32>,
    name: String,
) -> (r: Clip)
    ensures
        r@ == sound_of(clip@, id@, track_id@, stream, name@),
{
    let mut sound: Clip = Clip::blank(
        id,
        track_id,
        ClipKind::Audio,
        name,
        clip.start,
        clip.duration,
    );
    sound.media_id = clip.media_id.clone();
    sound.source_start = clip.source_start;
    sound.volume = clip.volume;
    sound.fade_in = clip.fade_in;
    sound.fade_out = clip.fade_out;
    sound.speed = clip.speed;
    sound.speed_curve = copy_curve(&clip.speed_curve);
    sound.keys = clip.keys_on(KeyProperty::Volume);
    sound.preserve_pitch = clip.preserve_pitch;
    sound.filters = copy_chain(&clip.filters);
    sound.audio_stream = stream;
    sound.detached_from = Some(clip.id.clone());
    sound
}

/// A sound to place: which stream, and its name.
struct Wanted {
    stream: Option<u32>,
    name: String,
}

impl Wanted {
    spec fn shown(self) -> (Option<u32>, Seq<char>) {
        (self.stream, self.name@)
    }
}

fn list_sounds(clip: &Clip, tracks: &Vec<AudioTrack>) -> (r: Vec<Wanted>)
    ensures
        r@.map_values(|w: Wanted| w.shown()) == sounds(clip@, streams(tracks@)),
        r.len() > 0,
{
    let ghost views = streams(tracks@);
    let ghost wanted = sounds(clip@, views);
    let mut r: Vec<Wanted> = Vec::new();
    if tracks.len() > 1 {
        let mut i: usize = 0;
        while i < tracks.len()
            invariant
                i <= tracks.len(),
                tracks.len() > 1,
                views == streams(tracks@),
                wanted == sounds(clip@, views),
                r.len() == i,
                forall|j: int| 0 <= j < i ==> (#[trigger] r@[j]).shown() == wanted[j],
            decreases tracks.len() - i,
        {
            assert(views[i as int] == tracks@[i as int]@);
            let mut name: String = clip.name.clone();
            name.append(" - ");
            if tracks[i].title.as_str().is_empty() {
                let mut number: String = "Track ".to_owned();
                number.append(decimal_text(i as u64 + 1).as_str());
                name.append(number.as_str());
            } else {
                name.append(tracks[i].title.as_str());
            }
            r.push(Wanted { stream: Some(tracks[i].index), name });
            i = i + 1;
        }
    } else {
        r.push(Wanted { stream: clip.audio_stream, name: clip.name.clone() });
    }
    assert(r@.map_values(|w: Wanted| w.shown()) =~= wanted);
    r
}

fn place_sound(timeline: &mut Timeline, mint: &mut IdMint, clip: &Clip, wanted: &Wanted)
    ensures
        placed_sounds(old(timeline)@, old(mint)@, clip@, seq![wanted.shown()]) == (
            final(timeline)@,
            final(mint)@,
        ),
{
    let ghost before = timeline@;
    let ghost counter = mint@;
    let ghost one = seq![wanted.shown()];
    proof {
        assert(one.drop_last() =~= Seq::<(Option<u32>, Seq<char>)>::empty());
        assert(placed_sounds(before, counter, clip@, one.drop_last()) == (before, counter));
        assert(one.last() == wanted.shown());
    }
    let finish: Number = clip.start.plus(clip.duration);
    let lane: String = match find_empty_track(&*timeline, clip.start, finish) {
        Some(i) => {
            assert(before.tracks[i as int] == timeline.tracks@[i as int]@);
            timeline.tracks[i].id.clone()
        },
        None => {
            let id: String = mint.next("t");
            let ghost held = timeline.tracks@;
            let track: Track = Track::fresh(id.clone());
            timeline.tracks.push(track);
            assert(tracks_of(timeline.tracks@) =~= tracks_of(held).push(track@));
            id
        },
    };
    let id: String = mint.next("c");
    let sound: Clip = make_sound(clip, id, lane, wanted.stream, wanted.name.clone());
    crate::commands::clips::push_clip(timeline, sound);
}

proof fn lemma_placed_step(
    timeline: TimelineView,
    counter: nat,
    clip: ClipView,
    wanted: Seq<(Option<u32>, Seq<char>)>,
    k: int,
)
    requires
        0 <= k < wanted.len(),
    ensures
        ({
            let (t, c) = placed_sounds(timeline, counter, clip, wanted.take(k));
            placed_sounds(timeline, counter, clip, wanted.take(k + 1)) == placed_sounds(
                t,
                c,
                clip,
                seq![wanted[k]],
            )
        }),
{
    let (t, c) = placed_sounds(timeline, counter, clip, wanted.take(k));
    let one = seq![wanted[k]];
    assert(wanted.take(k + 1).drop_last() =~= wanted.take(k));
    assert(one.drop_last() =~= Seq::<(Option<u32>, Seq<char>)>::empty());
    assert(placed_sounds(t, c, clip, one.drop_last()) == (t, c));
}

/// Placing sounds adds one clip for each and leaves those before them, and what
/// the timeline is called.
pub proof fn lemma_placed_grows(
    timeline: TimelineView,
    counter: nat,
    clip: ClipView,
    wanted: Seq<(Option<u32>, Seq<char>)>,
)
    ensures
        ({
            let after = placed_sounds(timeline, counter, clip, wanted).0;
            &&& after.clips.len() == timeline.clips.len() + wanted.len()
            &&& after.clips.take(timeline.clips.len() as int) == timeline.clips
            &&& after.id == timeline.id && after.name == timeline.name
        }),
    decreases wanted.len(),
{
    if wanted.len() > 0 {
        lemma_placed_grows(timeline, counter, clip, wanted.drop_last());
        let sofar = placed_sounds(timeline, counter, clip, wanted.drop_last()).0;
        let after = placed_sounds(timeline, counter, clip, wanted).0;
        assert(after.clips.take(timeline.clips.len() as int) =~= sofar.clips.take(
            timeline.clips.len() as int,
        ));
    } else {
        assert(timeline.clips.take(timeline.clips.len() as int) =~= timeline.clips);
    }
}

pub fn detach_audio(project: &mut Project, mint: &mut IdMint, clip_id: &str) -> (r: Result<
    Outcome,
    CommandError,
>)
    requires
        old(project)@.editable(),
    ensures
        detaching(old(project)@, old(mint)@, clip_id@).is(final(project)@, final(mint)@, r),
{
    let mut timeline: Timeline = project.active().clone();
    match find_clip(&timeline.clips, clip_id) {
        None => Ok(Outcome::default()),
        Some(i) => {
            let clip: Clip = (*timeline.clips[i]).clone();
            assert(timeline@.clips[i as int] == clip@);
            match find_media(&project.media, clip.media_id.as_str()) {
                None => Ok(Outcome::default()),
                Some(m) => {
                    assert(project@.media[m as int] == project.media@[m as int]@);
                    let muted: bool = match clip.muted {
                        Some(true) => true,
                        _ => false,
                    };
                    if clip.kind != ClipKind::Video || muted || !project.media[m].has_audio
                        || find_sound(&timeline.clips, &clip.id).is_some() {
                        return Ok(Outcome::default());
                    }
                    let ghost start = timeline@;
                    let ghost counter = mint@;
                    let wanted: Vec<Wanted> = list_sounds(&clip, &project.media[m].audio_tracks);
                    let ghost views = wanted@.map_values(|w: Wanted| w.shown());
                    let count: usize = timeline.clips.len();
                    let mut k: usize = 0;
                    assert(views.take(0) =~= Seq::<(Option<u32>, Seq<char>)>::empty());
                    while k < wanted.len()
                        invariant
                            k <= wanted.len(),
                            views == wanted@.map_values(|w: Wanted| w.shown()),
                            (timeline@, mint@) == placed_sounds(
                                start,
                                counter,
                                clip@,
                                views.take(k as int),
                            ),
                        decreases wanted.len() - k,
                    {
                        proof {
                            lemma_placed_step(start, counter, clip@, views, k as int);
                            assert(views[k as int] == wanted@[k as int].shown());
                        }
                        place_sound(&mut timeline, mint, &clip, &wanted[k]);
                        k = k + 1;
                    }
                    proof {
                        assert(views.take(views.len() as int) =~= views);
                        lemma_placed_grows(start, counter, clip@, views);
                        assert(timeline.clips.len() == timeline@.clips.len());
                        assert(timeline@.clips[count as int] == timeline.clips@[count as int]@);
                    }
                    let id: String = timeline.clips[count].id.clone();
                    let mut picture: Clip = clip;
                    picture.muted = Some(true);
                    picture.filters = Vec::new();
                    assert(picture@.filters =~= Seq::<FilterView>::empty());
                    timeline.put_clip(i, picture);
                    project.put_active(timeline);
                    Ok(Outcome::created(id))
                },
            }
        },
    }
}

fn drop_sounds(clips: &Vec<Arc<Clip>>, id: &String) -> (r: Vec<Arc<Clip>>)
    ensures
        clips_of(r@) == clips_of(clips@).filter(|c: ClipView| !is_sound_of(c, id@)),
{
    let ghost pred = |c: Arc<Clip>| !is_sound_of(c@, id@);
    let ghost image = |c: Arc<Clip>| c@;
    let ghost onto = |c: ClipView| !is_sound_of(c, id@);
    let mut r: Vec<Arc<Clip>> = Vec::new();
    let mut i: usize = 0;
    proof {
        reveal(Seq::filter);
        assert(clips@.take(0).filter(pred) =~= Seq::<Arc<Clip>>::empty());
    }
    while i < clips.len()
        invariant
            i <= clips.len(),
            pred == (|c: Arc<Clip>| !is_sound_of(c@, id@)),
            r@ == clips@.take(i as int).filter(pred),
        decreases clips.len() - i,
    {
        proof {
            lemma_filter_step(clips@, pred, i as int);
        }
        if !is_from(&*clips[i], id) {
            r.push(share(&clips[i]));
        }
        i = i + 1;
    }
    assert(clips@.take(clips@.len() as int) =~= clips@);
    proof {
        lemma_filter_maps(clips@, pred, image, onto);
    }
    r
}

pub fn reattach_audio(project: &mut Project, mint: &mut IdMint, clip_id: String) -> (r: Result<
    Outcome,
    CommandError,
>)
    requires
        old(project)@.editable(),
    ensures
        reattaching(old(project)@, old(mint)@, clip_id@).is(final(project)@, final(mint)@, r),
{
    let mut timeline: Timeline = project.active().clone();
    match find_clip(&timeline.clips, clip_id.as_str()) {
        None => Ok(Outcome::default()),
        Some(i) => {
            assert(timeline@.clips[i as int] == timeline.clips@[i as int]@);
            let picture: String = match &timeline.clips[i].detached_from {
                Some(id) => id.clone(),
                None => clip_id.clone(),
            };
            match (find_clip(&timeline.clips, picture.as_str()), find_sound(
                &timeline.clips,
                &picture,
            )) {
                (Some(p), Some(s)) => {
                    assert(timeline@.clips[p as int] == timeline.clips@[p as int]@);
                    assert(timeline@.clips[s as int] == timeline.clips@[s as int]@);
                    let mut clip: Clip = (*timeline.clips[p]).clone();
                    clip.muted = None;
                    clip.filters = copy_chain(&timeline.clips[s].filters);
                    timeline.put_clip(p, clip);
                    let kept: Vec<Arc<Clip>> = drop_sounds(&timeline.clips, &picture);
                    timeline.clips = kept;
                    project.put_active(timeline);
                    Ok(Outcome::changed(true))
                },
                _ => Ok(Outcome::default()),
            }
        },
    }
}

} // verus!
