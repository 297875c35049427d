//! Nothing is left hanging: no command leaves a clip on a lane that is gone, or
//! playing a file that is not in the bin, or a project showing a timeline it does
//! not have.

use crate::commands::apply::{
    cutting_step, is_cutting, is_keys, is_lanes, is_look, is_media, is_placing, keys_step,
    lanes_step, lemma_run_stays_editable, look_step, media_step, placing_step, ran, stepped,
    still_of, tabs_step,
};
use crate::commands::audio::{
    detaching, empty_track, is_sound_of, placed_sounds, reattaching, silent, sounds, voiced,
};
use crate::commands::clips::{
    adding_clip, adding_text, asked_length, asked_start, clip_of, end, floor, free_track,
    free_track_above, landing, layer_of, length_of, moved, occupied, replacing_media, repointed,
    shelved, title_of, with_room, DEFAULT_LAYER_DURATION, DEFAULT_TEXT_DURATION,
};
use crate::commands::command::{ClipMove, Command, TrimEdge};
use crate::commands::cuts::{
    cut_at, freezing, froze, head_of, hold_of, ids_of, misses, split_all, tail_of, trimmed_head,
    trimmed_tail, trimming, uncurved,
};
use crate::commands::joins::{absorbed_all, in_time, merge_reason, merged, merging, names, pieces};
use crate::commands::mint::minted;
use crate::commands::numbering::{media_ids, tab_ids, track_ids};
use crate::commands::removal::removing;
use crate::commands::timelines::timeline_index;
use crate::commands::tracks::flagged;
use crate::find::{first, lemma_filter_keeps, lemma_filter_kept, lemma_first_is};
use crate::model::clip::{style_of, ClipView};
use crate::model::keys::ClipKey;
use crate::model::media::{text_of, MediaView, NewMediaView};
use crate::model::project::ProjectView;
use crate::model::ride::Ride;
use crate::model::style::StyleView;
use crate::model::timeline::{TimelineView, TrackView};
use crate::number::{difference, num, sum, total_rank, Number, ZERO};
use crate::order::{lemma_sorted, lemma_sorted_holds};
use crate::text::successor;
use vstd::prelude::*;

verus! {

/// Whether a clip stands on one of these lanes and plays one of these files, or
/// none at all.
pub open spec fn fits(media: Seq<MediaView>, tracks: Seq<TrackView>, clip: ClipView) -> bool {
    &&& track_ids(tracks).contains(clip.track_id)
    &&& clip.media_id.len() == 0 || media_ids(media).contains(clip.media_id)
}

pub open spec fn all_fit(
    media: Seq<MediaView>,
    tracks: Seq<TrackView>,
    clips: Seq<ClipView>,
) -> bool {
    forall|k: int| 0 <= k < clips.len() ==> fits(media, tracks, #[trigger] clips[k])
}

/// Whether every clip of a project stands on a lane of its timeline and plays a
/// file of the bin, or none at all.
pub open spec fn anchored(project: ProjectView) -> bool {
    forall|i: int|
        0 <= i < project.timelines.len() ==> all_fit(
            project.media,
            (#[trigger] project.timelines[i]).tracks,
            project.timelines[i].clips,
        )
}

/// Whether the timeline a project shows is one it has.
pub open spec fn showing(project: ProjectView) -> bool {
    tab_ids(project.timelines).contains(project.active_timeline_id)
}

/// Whether a project is still anchored, with the tabs it had.
spec fn steady(project: ProjectView, after: ProjectView) -> bool {
    &&& anchored(after)
    &&& tab_ids(after.timelines) == tab_ids(project.timelines)
    &&& after.active_timeline_id == project.active_timeline_id
}

proof fn lemma_fits_on(
    media: Seq<MediaView>,
    tracks: Seq<TrackView>,
    clip: ClipView,
    more: Seq<MediaView>,
    lanes: Seq<TrackView>,
)
    requires
        fits(media, tracks, clip),
        forall|i: int| 0 <= i < media.len() ==> media_ids(more).contains((#[trigger] media[i]).id),
        forall|i: int|
            0 <= i < tracks.len() ==> track_ids(lanes).contains((#[trigger] tracks[i]).id),
    ensures
        fits(more, lanes, clip),
{
    let t = choose|t: int|
        0 <= t < track_ids(tracks).len() && track_ids(tracks)[t] == clip.track_id;
    assert(tracks[t].id == clip.track_id);
    if clip.media_id.len() != 0 {
        let m = choose|m: int| 0 <= m < media_ids(media).len() && media_ids(media)[m]
            == clip.media_id;
        assert(media[m].id == clip.media_id);
    }
}

/// A list that grows at the end, or is written over one for one, still has its
/// ids.
proof fn lemma_media_kept(media: Seq<MediaView>, more: Seq<MediaView>)
    requires
        media.len() <= more.len(),
        forall|i: int| 0 <= i < media.len() ==> (#[trigger] more[i]).id == media[i].id,
    ensures
        forall|i: int| 0 <= i < media.len() ==> media_ids(more).contains((#[trigger] media[i]).id),
{
    assert forall|i: int| 0 <= i < media.len() implies media_ids(more).contains(
        (#[trigger] media[i]).id,
    ) by {
        assert(more[i].id == media[i].id);
        assert(media_ids(more)[i] == media[i].id);
    }
}

proof fn lemma_tracks_kept(tracks: Seq<TrackView>, lanes: Seq<TrackView>)
    requires
        tracks.len() <= lanes.len(),
        forall|i: int| 0 <= i < tracks.len() ==> (#[trigger] lanes[i]).id == tracks[i].id,
    ensures
        forall|i: int|
            0 <= i < tracks.len() ==> track_ids(lanes).contains((#[trigger] tracks[i]).id),
{
    assert forall|i: int| 0 <= i < tracks.len() implies track_ids(lanes).contains(
        (#[trigger] tracks[i]).id,
    ) by {
        assert(lanes[i].id == tracks[i].id);
        assert(track_ids(lanes)[i] == tracks[i].id);
    }
}

proof fn lemma_media_grown(project: ProjectView, more: Seq<MediaView>)
    requires
        anchored(project),
        project.media.len() <= more.len(),
        forall|i: int| 0 <= i < project.media.len() ==> (#[trigger] more[i]).id
            == project.media[i].id,
    ensures
        steady(project, ProjectView { media: more, ..project }),
{
    lemma_media_kept(project.media, more);
    assert forall|i: int| 0 <= i < project.timelines.len() implies all_fit(
        more,
        (#[trigger] project.timelines[i]).tracks,
        project.timelines[i].clips,
    ) by {
        let t = project.timelines[i];
        lemma_tracks_kept(t.tracks, t.tracks);
        assert forall|k: int| 0 <= k < t.clips.len() implies fits(
            more,
            t.tracks,
            #[trigger] t.clips[k],
        ) by {
            assert(fits(project.media, t.tracks, t.clips[k]));
            lemma_fits_on(project.media, t.tracks, t.clips[k], more, t.tracks);
        }
    }
}

/// The timeline being edited can be written over with one whose clips all fit.
proof fn lemma_active_steady(project: ProjectView, timeline: TimelineView)
    requires
        project.editable(),
        anchored(project),
    ensures
        0 <= project.active_index() < project.timelines.len(),
        all_fit(project.media, project.active().tracks, project.active().clips),
        timeline.id == project.active().id && all_fit(
            project.media,
            timeline.tracks,
            timeline.clips,
        ) ==> steady(project, project.with_active(timeline)),
{
    lemma_first_is(project.timelines, |t: TimelineView| t.id == project.active_timeline_id);
    let at = project.active_index();
    assert(all_fit(project.media, project.timelines[at].tracks, project.timelines[at].clips));
    if timeline.id == project.active().id && all_fit(
        project.media,
        timeline.tracks,
        timeline.clips,
    ) {
        let after = project.with_active(timeline);
        assert(tab_ids(after.timelines) =~= tab_ids(project.timelines));
        assert forall|i: int| 0 <= i < after.timelines.len() implies all_fit(
            after.media,
            (#[trigger] after.timelines[i]).tracks,
            after.timelines[i].clips,
        ) by {
            if i != at {
                assert(after.timelines[i] == project.timelines[i]);
            }
        }
    }
}

/// Whether each of these clips stands on the lane and plays the file of one of
/// those.
spec fn kin(clips: Seq<ClipView>, held: Seq<ClipView>) -> bool {
    forall|k: int|
        0 <= k < clips.len() ==> exists|j: int|
            0 <= j < held.len() && (#[trigger] clips[k]).track_id == (#[trigger] held[j]).track_id
                && clips[k].media_id == held[j].media_id
}

proof fn lemma_kin_fit(
    media: Seq<MediaView>,
    tracks: Seq<TrackView>,
    held: Seq<ClipView>,
    clips: Seq<ClipView>,
)
    requires
        all_fit(media, tracks, held),
        kin(clips, held),
    ensures
        all_fit(media, tracks, clips),
{
    assert forall|k: int| 0 <= k < clips.len() implies fits(media, tracks, #[trigger] clips[k]) by {
        let j = choose|j: int|
            0 <= j < held.len() && clips[k].track_id == (#[trigger] held[j]).track_id
                && clips[k].media_id == held[j].media_id;
        assert(fits(media, tracks, held[j]));
    }
}

/// Clips that stand where others stood and play what they played.
proof fn lemma_reclipped_steady(project: ProjectView, clips: Seq<ClipView>)
    requires
        project.editable(),
        anchored(project),
        kin(clips, project.active().clips),
    ensures
        steady(project, project.with_active(project.active().with_clips(clips))),
{
    let timeline = project.active();
    lemma_active_steady(project, timeline.with_clips(clips));
    lemma_kin_fit(project.media, timeline.tracks, timeline.clips, clips);
    lemma_active_steady(project, timeline.with_clips(clips));
}

proof fn lemma_filter_kin(clips: Seq<ClipView>, pred: spec_fn(ClipView) -> bool)
    ensures
        kin(clips.filter(pred), clips),
{
    lemma_filter_kept(clips, pred);
    let part = clips.filter(pred);
    assert forall|k: int| 0 <= k < part.len() implies exists|j: int|
        0 <= j < clips.len() && (#[trigger] part[k]).track_id == (#[trigger] clips[j]).track_id
            && part[k].media_id == clips[j].media_id by {
        let j = choose|j: int| 0 <= j < clips.len() && clips[j] == part[k];
        assert(clips[j] == part[k]);
    }
}

proof fn lemma_media_steady(project: ProjectView, counter: nat, command: Command)
    requires
        project.editable(),
        anchored(project),
    ensures
        steady(project, media_step(project, counter, command).project),
{
    reveal(media_step);
    let after = media_step(project, counter, command).project;
    match command {
        Command::RemoveMedia { media_id } => {
            assert(tab_ids(after.timelines) =~= tab_ids(project.timelines));
            assert forall|i: int| 0 <= i < after.timelines.len() implies all_fit(
                after.media,
                (#[trigger] after.timelines[i]).tracks,
                after.timelines[i].clips,
            ) by {
                lemma_swept_fit(project, media_id@, i);
                assert(all_fit(
                    project.media,
                    project.timelines[i].tracks,
                    project.timelines[i].clips,
                ));
            }
        },
        Command::FillSlot { media_id, item } => {
            lemma_first_is(project.media, |m: MediaView| m.id == media_id@);
            lemma_media_grown(project, after.media);
            let filled = ProjectView { media: after.media, ..project };
            assert(tab_ids(after.timelines) =~= tab_ids(project.timelines));
            assert forall|i: int| 0 <= i < after.timelines.len() implies all_fit(
                after.media,
                (#[trigger] after.timelines[i]).tracks,
                after.timelines[i].clips,
            ) by {
                let was = project.timelines[i];
                assert(all_fit(filled.media, filled.timelines[i].tracks, filled.timelines[i].clips));
                assert forall|k: int| 0 <= k < after.timelines[i].clips.len() implies fits(
                    after.media,
                    was.tracks,
                    #[trigger] after.timelines[i].clips[k],
                ) by {
                    assert(fits(after.media, was.tracks, was.clips[k]));
                }
            }
        },
        Command::AddMedia { .. } => {
            lemma_media_grown(project, after.media);
        },
        Command::SetMediaPlaceholder { media_id, .. } => {
            lemma_first_is(project.media, |m: MediaView| m.id == media_id@);
            lemma_media_grown(project, after.media);
        },
        Command::UpdateMediaPath { media_id, .. } => {
            lemma_first_is(project.media, |m: MediaView| m.id == media_id@);
            lemma_media_grown(project, after.media);
        },
        Command::SetMediaColorRange { media_id, .. } => {
            lemma_first_is(project.media, |m: MediaView| m.id == media_id@);
            lemma_media_grown(project, after.media);
        },
        _ => {},
    }
}

proof fn lemma_swept_fit(project: ProjectView, media_id: Seq<char>, i: int)
    requires
        anchored(project),
        0 <= i < project.timelines.len(),
    ensures
        all_fit(
            project.media.filter(|m: MediaView| m.id != media_id),
            project.timelines[i].tracks,
            project.timelines[i].clips.filter(|c: ClipView| c.media_id != media_id),
        ),
{
    let timeline = project.timelines[i];
    let other = |m: MediaView| m.id != media_id;
    let stays = |c: ClipView| c.media_id != media_id;
    let left = project.media.filter(other);
    let clips = timeline.clips.filter(stays);
    lemma_filter_kept(timeline.clips, stays);
    assert forall|k: int| 0 <= k < clips.len() implies fits(
        left,
        timeline.tracks,
        #[trigger] clips[k],
    ) by {
        assert(stays(clips[k]));
        let j = choose|j: int| 0 <= j < timeline.clips.len() && timeline.clips[j] == clips[k];
        assert(fits(project.media, timeline.tracks, timeline.clips[j]));
        if clips[k].media_id.len() != 0 {
            let m = choose|m: int|
                0 <= m < media_ids(project.media).len() && media_ids(project.media)[m]
                    == clips[k].media_id;
            lemma_filter_keeps(project.media, other, m);
            let n = choose|n: int| 0 <= n < left.len() && left[n] == project.media[m];
            assert(media_ids(left)[n] == clips[k].media_id);
        }
    }
}

/// A list of clips with one more that fits.
proof fn lemma_clip_added(
    project: ProjectView,
    tracks: Seq<TrackView>,
    clips: Seq<ClipView>,
    clip: ClipView,
)
    requires
        project.editable(),
        anchored(project),
        kin(clips, project.active().clips),
        project.active().tracks.len() <= tracks.len(),
        forall|i: int|
            0 <= i < project.active().tracks.len() ==> (#[trigger] tracks[i]).id
                == project.active().tracks[i].id,
        fits(project.media, tracks, clip),
    ensures
        ({
            let timeline = project.active();
            steady(
                project,
                project.with_active(TimelineView { tracks, clips: clips.push(clip), ..timeline }),
            )
        }),
{
    let timeline = project.active();
    let after = TimelineView { tracks, clips: clips.push(clip), ..timeline };
    lemma_active_steady(project, after);
    lemma_kin_fit(project.media, timeline.tracks, timeline.clips, clips);
    lemma_tracks_kept(timeline.tracks, tracks);
    lemma_media_kept(project.media, project.media);
    assert forall|k: int| 0 <= k < after.clips.len() implies fits(
        project.media,
        tracks,
        #[trigger] after.clips[k],
    ) by {
        if k < clips.len() {
            assert(fits(project.media, timeline.tracks, clips[k]));
            lemma_fits_on(project.media, timeline.tracks, clips[k], project.media, tracks);
        }
    }
    lemma_active_steady(project, after);
}

proof fn lemma_lane_is_there(timeline: TimelineView, track_id: Seq<char>)
    requires
        timeline.track_index(track_id) is Some,
    ensures
        track_ids(timeline.tracks).contains(track_id),
{
    lemma_first_is(timeline.tracks, |t: TrackView| t.id == track_id);
    let i = timeline.track_index(track_id).unwrap();
    assert(track_ids(timeline.tracks)[i] == track_id);
}

proof fn lemma_free_lane_is_there(timeline: TimelineView, start: Number, duration: Number)
    ensures
        free_track(timeline, start, duration) matches Some(lane) ==> track_ids(
            timeline.tracks,
        ).contains(lane),
        free_track_above(timeline, start, duration) matches Some(lane) ==> track_ids(
            timeline.tracks,
        ).contains(lane),
{
    let ids = track_ids(timeline.tracks);
    lemma_first_is(
        timeline.tracks,
        |t: TrackView| !occupied(timeline.clips, t.id, start, sum(start, duration)),
    );
    if free_track(timeline, start, duration) is Some {
        match first(
            timeline.tracks,
            |t: TrackView| !occupied(timeline.clips, t.id, start, sum(start, duration)),
        ) {
            Some(i) => {
                assert(ids[i] == timeline.tracks[i].id);
            },
            None => {
                assert(ids[0] == timeline.tracks[0].id);
            },
        }
    }
    if free_track_above(timeline, start, duration) is Some {
        let row = floor(timeline.tracks, timeline.clips, start, sum(start, duration));
        assert(ids[row as int] == timeline.tracks[row as int].id);
    }
}

proof fn lemma_media_is_there(project: ProjectView, media_id: Seq<char>)
    ensures
        project.media_index(media_id) matches Some(m) ==> media_ids(project.media).contains(
            project.media[m].id,
        ),
{
    lemma_first_is(project.media, |m: MediaView| m.id == media_id);
    if project.media_index(media_id) is Some {
        let m = project.media_index(media_id).unwrap();
        assert(media_ids(project.media)[m] == project.media[m].id);
    }
}

proof fn lemma_moved_fit(
    media: Seq<MediaView>,
    clips: Seq<ClipView>,
    tracks: Seq<TrackView>,
    moves: Seq<ClipMove>,
)
    requires
        all_fit(media, tracks, clips),
    ensures
        all_fit(media, tracks, moved(clips, tracks, moves).0),
    decreases moves.len(),
{
    if moves.len() > 0 {
        lemma_moved_fit(media, clips, tracks, moves.drop_last());
        let sofar = moved(clips, tracks, moves.drop_last()).0;
        let after = moved(clips, tracks, moves).0;
        let wanted = moves.last();
        lemma_first_is(sofar, |c: ClipView| c.id == wanted.clip_id@);
        lemma_first_is(tracks, |t: TrackView| t.id == wanted.track_id@);
        if first(tracks, |t: TrackView| t.id == wanted.track_id@) is Some {
            let t = first(tracks, |t: TrackView| t.id == wanted.track_id@).unwrap();
            assert(track_ids(tracks)[t] == wanted.track_id@);
        }
        assert forall|k: int| 0 <= k < after.len() implies fits(
            media,
            tracks,
            #[trigger] after[k],
        ) by {
            assert(fits(media, tracks, sofar[k]));
        }
    }
}

proof fn lemma_shelved_steady(project: ProjectView, counter: nat, entry: MediaView)
    requires
        project.editable(),
        anchored(project),
    ensures
        ({
            let (shelf, count, media_id) = shelved(project, counter, entry);
            &&& steady(project, shelf)
            &&& shelf.editable()
            &&& shelf.timelines == project.timelines
            &&& shelf.active() == project.active()
            &&& media_ids(shelf.media).contains(media_id)
        }),
{
    let (shelf, count, media_id) = shelved(project, counter, entry);
    lemma_media_grown(project, shelf.media);
    lemma_first_is(project.media, |m: MediaView| m.path == entry.path);
    match project.path_index(entry.path) {
        Some(i) => {
            assert(media_ids(shelf.media)[i] == media_id);
        },
        None => {
            assert(media_ids(shelf.media)[project.media.len() as int] == media_id);
        },
    }
}

proof fn lemma_same_kin(clips: Seq<ClipView>)
    ensures
        kin(clips, clips),
{
    assert forall|k: int| 0 <= k < clips.len() implies exists|j: int|
        0 <= j < clips.len() && (#[trigger] clips[k]).track_id == (#[trigger] clips[j]).track_id
            && clips[k].media_id == clips[j].media_id by {
        assert(clips[k].track_id == clips[k].track_id);
    }
}

/// Clips written over one for one, each on its lane and with its file.
proof fn lemma_one_for_one(clips: Seq<ClipView>, held: Seq<ClipView>)
    requires
        clips.len() == held.len(),
        forall|k: int|
            0 <= k < clips.len() ==> (#[trigger] clips[k]).track_id == held[k].track_id
                && clips[k].media_id == held[k].media_id,
    ensures
        kin(clips, held),
{
    assert forall|k: int| 0 <= k < clips.len() implies exists|j: int|
        0 <= j < held.len() && (#[trigger] clips[k]).track_id == (#[trigger] held[j]).track_id
            && clips[k].media_id == held[j].media_id by {
        assert(clips[k].track_id == held[k].track_id);
    }
}

proof fn lemma_adding_clip_steady(
    project: ProjectView,
    counter: nat,
    media_id: Seq<char>,
    track_id: Seq<char>,
    start: Number,
    ripple: bool,
)
    requires
        project.editable(),
        anchored(project),
    ensures
        steady(
            project,
            adding_clip(project, counter, media_id, track_id, start, ripple).project,
        ),
{
    let timeline = project.active();
    let step = adding_clip(project, counter, media_id, track_id, start, ripple);
    let start = asked_start(start);
    if step.answer is Ok {
        lemma_media_is_there(project, media_id);
        lemma_lane_is_there(timeline, track_id);
        let media = project.media[project.media_index(media_id).unwrap()];
        let clips = if ripple {
            with_room(timeline.clips, track_id, start, length_of(media))
        } else {
            timeline.clips
        };
        let at = if ripple {
            landing(timeline.clips, track_id, start)
        } else {
            start
        };
        lemma_one_for_one(clips, timeline.clips);
        lemma_clip_added(
            project,
            timeline.tracks,
            clips,
            clip_of(minted("c"@, counter), track_id, media, at),
        );
    }
}

proof fn lemma_replacing_steady(
    project: ProjectView,
    counter: nat,
    clip_id: Seq<char>,
    item: NewMediaView,
    source_start: Option<Number>,
)
    requires
        project.editable(),
        anchored(project),
    ensures
        steady(
            project,
            replacing_media(project, counter, clip_id, item, source_start).project,
        ),
{
    let timeline = project.active();
    lemma_first_is(timeline.clips, |c: ClipView| c.id == clip_id);
    if timeline.clip_index(clip_id) is Some {
        let i = timeline.clip_index(clip_id).unwrap();
        let entry = item.entry(minted("m"@, counter));
        lemma_shelved_steady(project, counter, entry);
        let (shelf, count, media_id) = shelved(project, counter, entry);
        lemma_active_steady(shelf, timeline);
        let clips = timeline.clips.update(
            i,
            repointed(timeline.clips[i], media_id, source_start),
        );
        assert forall|k: int| 0 <= k < clips.len() implies fits(
            shelf.media,
            timeline.tracks,
            #[trigger] clips[k],
        ) by {
            assert(fits(shelf.media, timeline.tracks, timeline.clips[k]));
        }
        lemma_active_steady(shelf, timeline.with_clips(clips));
    }
}

proof fn lemma_placing_steady(project: ProjectView, counter: nat, command: Command)
    requires
        project.editable(),
        anchored(project),
    ensures
        steady(project, placing_step(project, counter, command).project),
{
    reveal(placing_step);
    let timeline = project.active();
    let step = placing_step(project, counter, command);
    lemma_same_kin(timeline.clips);
    match command {
        Command::AddClip { media_id, track_id, start, ripple } => {
            lemma_adding_clip_steady(project, counter, media_id@, track_id@, start, ripple);
        },
        Command::AddClipAtFirstFree { media_id, start } => {
            if step.answer is Ok {
                let start = asked_start(start);
                lemma_media_is_there(project, media_id@);
                let media = project.media[project.media_index(media_id@).unwrap()];
                lemma_free_lane_is_there(timeline, start, length_of(media));
                let lane = free_track(timeline, start, length_of(media)).unwrap();
                lemma_clip_added(
                    project,
                    timeline.tracks,
                    timeline.clips,
                    clip_of(minted("c"@, counter), lane, media, start),
                );
            }
        },
        Command::AddTextClip { track_id, above, start, style, duration, offset_y } => {
            lemma_adding_text_steady(
                project,
                counter,
                text_of(track_id),
                above,
                start,
                style_of(style),
                duration,
                offset_y,
            );
        },
        Command::AddLayerClip { track_id, start, duration, effect_id, name } => {
            if step.answer is Ok {
                let start = asked_start(start);
                let length = asked_length(duration, num(DEFAULT_LAYER_DURATION));
                lemma_free_lane_is_there(timeline, start, length);
                let lane = match text_of(track_id) {
                    Some(lane) => lane,
                    None => free_track(timeline, start, length).unwrap(),
                };
                if text_of(track_id) is Some {
                    lemma_lane_is_there(timeline, lane);
                }
                lemma_clip_added(
                    project,
                    timeline.tracks,
                    timeline.clips,
                    layer_of(minted("c"@, counter), lane, name@, effect_id@, start, length),
                );
            }
        },
        Command::MoveClips { moves } => {
            lemma_active_steady(project, timeline);
            lemma_moved_fit(project.media, timeline.clips, timeline.tracks, moves@);
            lemma_active_steady(
                project,
                timeline.with_clips(moved(timeline.clips, timeline.tracks, moves@).0),
            );
        },
        Command::ReplaceClipMedia { clip_id, item, source_start } => {
            lemma_replacing_steady(project, counter, clip_id@, item@, source_start);
        },
        _ => {},
    }
}

proof fn lemma_adding_text_steady(
    project: ProjectView,
    counter: nat,
    track_id: Option<Seq<char>>,
    above: bool,
    start: Number,
    style: Option<StyleView>,
    duration: Option<Number>,
    offset_y: Option<Number>,
)
    requires
        project.editable(),
        anchored(project),
    ensures
        steady(
            project,
            adding_text(
                project,
                counter,
                track_id,
                above,
                start,
                style,
                duration,
                offset_y,
            ).project,
        ),
{
    let timeline = project.active();
    let step = adding_text(
        project,
        counter,
        track_id,
        above,
        start,
        style,
        duration,
        offset_y,
    );
    let look = match style {
        Some(sent) => sent,
        None => StyleView::plain(),
    };
    let start = asked_start(start);
    let length = asked_length(duration, num(DEFAULT_TEXT_DURATION));
    lemma_same_kin(timeline.clips);
    lemma_free_lane_is_there(timeline, start, length);
    if step.answer is Ok {
        if track_id is None && above && free_track_above(timeline, start, length) is None {
            let lane = minted("t"@, counter);
            let tracks = timeline.tracks.push(TrackView::fresh(lane));
            let count = successor(counter);
            assert(track_ids(tracks)[timeline.tracks.len() as int] == lane);
            lemma_clip_added(
                project,
                tracks,
                timeline.clips,
                title_of(minted("c"@, count), lane, look, start, length, offset_y),
            );
        } else {
            let lane = match track_id {
                Some(lane) => lane,
                None => if above {
                    free_track_above(timeline, start, length).unwrap()
                } else {
                    free_track(timeline, start, length).unwrap()
                },
            };
            if track_id is Some {
                lemma_lane_is_there(timeline, lane);
            }
            lemma_clip_added(
                project,
                timeline.tracks,
                timeline.clips,
                title_of(minted("c"@, counter), lane, look, start, length, offset_y),
            );
        }
    }
}

proof fn lemma_look_steady(project: ProjectView, counter: nat, command: Command)
    requires
        project.editable(),
        anchored(project),
    ensures
        steady(project, look_step(project, counter, command).project),
{
    reveal(look_step);
    let timeline = project.active();
    let step = look_step(project, counter, command);
    lemma_active_steady(project, timeline);
    let clips = step.project.timelines[project.active_index()].clips;
    if step.project != project {
        lemma_one_for_one(clips, timeline.clips);
        lemma_reclipped_steady(project, clips);
    }
}

proof fn lemma_keys_steady(project: ProjectView, counter: nat, command: Command)
    requires
        project.editable(),
        anchored(project),
    ensures
        steady(project, keys_step(project, counter, command).project),
{
    reveal(keys_step);
    let timeline = project.active();
    let step = keys_step(project, counter, command);
    lemma_active_steady(project, timeline);
    let clips = step.project.timelines[project.active_index()].clips;
    if step.project != project {
        lemma_one_for_one(clips, timeline.clips);
        lemma_reclipped_steady(project, clips);
    }
}

/// Whether one clip stands on another's lane and plays its file.
spec fn beside(a: ClipView, b: ClipView) -> bool {
    a.track_id == b.track_id && a.media_id == b.media_id
}

proof fn lemma_pieces_beside(
    clip: ClipView,
    offset: Number,
    id: Seq<char>,
    start: Number,
    ride: Ride,
)
    ensures
        beside(head_of(clip, offset, ride), clip),
        beside(tail_of(clip, offset, id, start, ride), clip),
{
    reveal(ClipView::windowed);
}

proof fn lemma_trimmed_beside(clip: ClipView, delta: Number, ripple: bool, ride: Ride)
    ensures
        beside(trimmed_tail(clip, delta, ride), clip),
        beside(trimmed_head(clip, delta, ripple, ride), clip),
{
    reveal(ClipView::windowed);
}

proof fn lemma_rekeyed_beside(
    clip: ClipView,
    keys: Seq<ClipKey>,
    offset: Number,
    length: Number,
    duration: Number,
)
    ensures
        beside(clip.with_keys_of(keys, offset, length, duration), clip),
    decreases keys.len(),
{
    if keys.len() > 0 {
        lemma_rekeyed_beside(clip, keys.drop_last(), offset, length, duration);
    }
}

proof fn lemma_absorbed_beside(clip: ClipView, rest: Seq<ClipView>, origin: Number)
    ensures
        beside(absorbed_all(clip, rest, origin), clip),
    decreases rest.len(),
{
    if rest.len() > 0 {
        lemma_absorbed_beside(clip, rest.drop_last(), origin);
        let piece = rest.last();
        let sofar = absorbed_all(clip, rest.drop_last(), origin);
        let offset = difference(piece.start, origin);
        reveal(ClipView::absorbed);
        lemma_rekeyed_beside(sofar, piece.keys, offset, piece.duration, sofar.duration);
    }
}

proof fn lemma_merged_beside(ordered: Seq<ClipView>, ride: Ride)
    ensures
        beside(merged(ordered, ride), ordered[0]),
{
    let head = ordered[0];
    let length = difference(end(ordered.last()), head.start);
    let stretched = ClipView { duration: length, ..head };
    assert(beside(stretched.windowed(head.duration, num(ZERO), length, ride), head)) by {
        reveal(ClipView::windowed);
    }
    lemma_absorbed_beside(
        stretched.windowed(head.duration, num(ZERO), length, ride),
        ordered.skip(1),
        head.start,
    );
}

proof fn lemma_cut_fits(
    media: Seq<MediaView>,
    tracks: Seq<TrackView>,
    clips: Seq<ClipView>,
    at: int,
    head: ClipView,
    tail: ClipView,
)
    requires
        all_fit(media, tracks, clips),
        0 <= at < clips.len(),
        beside(head, clips[at]),
        beside(tail, clips[at]),
    ensures
        all_fit(media, tracks, cut_at(clips, at, head, tail)),
{
    let after = cut_at(clips, at, head, tail);
    assert(fits(media, tracks, clips[at]));
    assert forall|k: int| 0 <= k < after.len() implies fits(media, tracks, #[trigger] after[k]) by {
        if k < at {
            assert(after[k] == clips[k]);
        } else if k > at + 1 {
            assert(after[k] == clips[k - 1]);
        }
    }
}

proof fn lemma_split_fits(
    media: Seq<MediaView>,
    tracks: Seq<TrackView>,
    clips: Seq<ClipView>,
    counter: nat,
    ids: Seq<Seq<char>>,
    time: Number,
    ride: Ride,
)
    requires
        all_fit(media, tracks, clips),
    ensures
        all_fit(media, tracks, split_all(clips, counter, ids, time, ride).0),
    decreases ids.len(),
{
    if ids.len() > 0 {
        lemma_split_fits(media, tracks, clips, counter, ids.drop_last(), time, ride);
        let (sofar, count, last) = split_all(clips, counter, ids.drop_last(), time, ride);
        lemma_first_is(sofar, |c: ClipView| c.id == ids.last());
        match first(sofar, |c: ClipView| c.id == ids.last()) {
            None => {},
            Some(i) => {
                let offset = difference(time, sofar[i].start);
                let clip = uncurved(sofar[i], offset);
                let id = minted("c"@, count);
                let start = sum(clip.start, offset);
                let after = split_all(clips, counter, ids, time, ride).0;
                if misses(clip, offset) {
                    assert forall|k: int| 0 <= k < after.len() implies fits(
                        media,
                        tracks,
                        #[trigger] after[k],
                    ) by {
                        assert(fits(media, tracks, sofar[k]));
                    }
                } else {
                    lemma_pieces_beside(clip, offset, id, start, ride);
                    lemma_cut_fits(
                        media,
                        tracks,
                        sofar,
                        i,
                        head_of(clip, offset, ride),
                        tail_of(clip, offset, id, start, ride),
                    );
                }
            },
        }
    }
}

proof fn lemma_froze_fits(
    media: Seq<MediaView>,
    tracks: Seq<TrackView>,
    clips: Seq<ClipView>,
    at: int,
    time: Number,
    hold: Number,
    media_id: Seq<char>,
    counter: nat,
    ride: Ride,
)
    requires
        all_fit(media, tracks, clips),
        0 <= at < clips.len(),
        media_id.len() == 0 || media_ids(media).contains(media_id),
    ensures
        all_fit(media, tracks, froze(clips, at, time, hold, media_id, counter, ride)),
{
    let clip = clips[at];
    let flat = ClipView { speed_curve: None, ..clip };
    let offset = difference(time, clip.start);
    let head = head_of(flat, offset, ride);
    let tail = tail_of(flat, offset, minted("c"@, counter), time, ride);
    lemma_pieces_beside(flat, offset, minted("c"@, counter), time, ride);
    lemma_cut_fits(media, tracks, clips, at, head, tail);
    let pieces = cut_at(clips, at, head, tail);
    let after = froze(clips, at, time, hold, media_id, counter, ride);
    assert(fits(media, tracks, clips[at]));
    assert forall|k: int| 0 <= k < after.len() implies fits(media, tracks, #[trigger] after[k]) by {
        if k < pieces.len() {
            assert(fits(media, tracks, pieces[k]));
        }
    }
}

proof fn lemma_trimming_steady(
    project: ProjectView,
    counter: nat,
    clip_id: Seq<char>,
    edge: TrimEdge,
    delta: Number,
    ripple: bool,
    ride: Ride,
)
    requires
        project.editable(),
        anchored(project),
    ensures
        steady(
            project,
            trimming(project, counter, clip_id, edge, delta, ripple, ride).project,
        ),
{
    let timeline = project.active();
    lemma_first_is(timeline.clips, |c: ClipView| c.id == clip_id);
    if timeline.clip_index(clip_id) is Some {
        let i = timeline.clip_index(clip_id).unwrap();
        lemma_trimmed_beside(timeline.clips[i], delta, ripple, ride);
        lemma_active_steady(project, timeline);
        let step = trimming(project, counter, clip_id, edge, delta, ripple, ride);
        let clips = step.project.timelines[project.active_index()].clips;
        lemma_one_for_one(clips, timeline.clips);
        lemma_reclipped_steady(project, clips);
    }
}

proof fn lemma_freezing_steady(
    project: ProjectView,
    counter: nat,
    clip_id: Seq<char>,
    time: Number,
    duration: Option<Number>,
    still: Option<NewMediaView>,
    ride: Ride,
)
    requires
        project.editable(),
        anchored(project),
    ensures
        steady(
            project,
            freezing(project, counter, clip_id, time, duration, still, ride).project,
        ),
{
    let timeline = project.active();
    lemma_active_steady(project, timeline);
    lemma_first_is(timeline.clips, |c: ClipView| c.id == clip_id);
    if timeline.clip_index(clip_id) is Some {
        let i = timeline.clip_index(clip_id).unwrap();
        let clip = timeline.clips[i];
        let hold = hold_of(duration);
        assert(fits(project.media, timeline.tracks, clip));
        let (shelf, count, media_id) = match still {
            Some(item) => shelved(project, counter, item.still(minted("m"@, counter))),
            None => (project, counter, clip.media_id),
        };
        if still is Some {
            lemma_shelved_steady(project, counter, still.unwrap().still(minted("m"@, counter)));
        }
        lemma_active_steady(shelf, timeline);
        let clips = froze(timeline.clips, i, time, hold, media_id, count, ride);
        lemma_froze_fits(
            shelf.media,
            timeline.tracks,
            timeline.clips,
            i,
            time,
            hold,
            media_id,
            count,
            ride,
        );
        lemma_active_steady(shelf, timeline.with_clips(clips));
    }
}

proof fn lemma_pieces_fit(
    media: Seq<MediaView>,
    tracks: Seq<TrackView>,
    clips: Seq<ClipView>,
    ids: Seq<Seq<char>>,
)
    requires
        all_fit(media, tracks, clips),
    ensures
        all_fit(media, tracks, pieces(clips, ids)),
    decreases ids.len(),
{
    if ids.len() > 0 {
        lemma_pieces_fit(media, tracks, clips, ids.drop_last());
        lemma_first_is(clips, |c: ClipView| c.id == ids.last());
        let rest = pieces(clips, ids.drop_last());
        assert forall|k: int| 0 <= k < pieces(clips, ids).len() implies fits(
            media,
            tracks,
            #[trigger] pieces(clips, ids)[k],
        ) by {
            if k < rest.len() {
                assert(fits(media, tracks, rest[k]));
            } else {
                let i = first(clips, |c: ClipView| c.id == ids.last()).unwrap();
                assert(fits(media, tracks, clips[i]));
            }
        }
    }
}

proof fn lemma_merging_steady(
    project: ProjectView,
    counter: nat,
    ids: Seq<Seq<char>>,
    ride: Ride,
)
    requires
        project.editable(),
        anchored(project),
    ensures
        steady(project, merging(project, counter, ids, ride).project),
{
    let timeline = project.active();
    lemma_active_steady(project, timeline);
    if merge_reason(timeline.clips, ids) is None {
        let found = pieces(timeline.clips, ids);
        let ordered = in_time(found);
        let pred = |c: ClipView| !names(ordered.skip(1), c.id);
        let kept = timeline.clips.filter(pred);
        let fine = |c: ClipView| fits(project.media, timeline.tracks, c);
        lemma_pieces_fit(project.media, timeline.tracks, timeline.clips, ids);
        assert forall|k: int| 0 <= k < found.len() implies fine(#[trigger] found[k]) by {}
        lemma_sorted_holds(found, |c: ClipView| total_rank(c.start), fine);
        lemma_sorted(found, |c: ClipView| total_rank(c.start));
        assert(fine(ordered[0]));
        lemma_filter_kin(timeline.clips, pred);
        lemma_kin_fit(project.media, timeline.tracks, timeline.clips, kept);
        lemma_merged_beside(ordered, ride);
        lemma_first_is(kept, |c: ClipView| c.id == ordered[0].id);
        match first(kept, |c: ClipView| c.id == ordered[0].id) {
            Some(i) => {
                let clips = kept.update(i, merged(ordered, ride));
                assert forall|k: int| 0 <= k < clips.len() implies fits(
                    project.media,
                    timeline.tracks,
                    #[trigger] clips[k],
                ) by {
                    assert(fits(project.media, timeline.tracks, kept[k]));
                }
                lemma_active_steady(project, timeline.with_clips(clips));
            },
            None => {},
        }
    }
}

proof fn lemma_removing_steady(
    project: ProjectView,
    counter: nat,
    ids: Seq<Seq<char>>,
    ripple: bool,
)
    requires
        project.editable(),
        anchored(project),
    ensures
        steady(project, removing(project, counter, ids, ripple).project),
{
    let timeline = project.active();
    let pred = |c: ClipView| !ids.contains(c.id);
    let kept = timeline.clips.filter(pred);
    lemma_active_steady(project, timeline);
    let step = removing(project, counter, ids, ripple);
    let clips = step.project.timelines[project.active_index()].clips;
    lemma_filter_kin(timeline.clips, pred);
    lemma_kin_fit(project.media, timeline.tracks, timeline.clips, kept);
    lemma_one_for_one(clips, kept);
    lemma_kin_fit(project.media, timeline.tracks, kept, clips);
    lemma_active_steady(project, timeline.with_clips(clips));
}

proof fn lemma_cutting_steady(
    project: ProjectView,
    counter: nat,
    command: Command,
    ride: Ride,
)
    requires
        project.editable(),
        anchored(project),
    ensures
        steady(project, cutting_step(project, counter, command, ride).project),
{
    reveal(cutting_step);
    let timeline = project.active();
    match command {
        Command::TrimClip { clip_id, edge, delta, ripple } => {
            lemma_trimming_steady(project, counter, clip_id@, edge, delta, ripple, ride);
        },
        Command::SplitClips { clip_ids, time } => {
            let ids = ids_of(clip_ids@);
            lemma_active_steady(project, timeline);
            lemma_split_fits(
                project.media,
                timeline.tracks,
                timeline.clips,
                counter,
                ids,
                time,
                ride,
            );
            lemma_active_steady(
                project,
                timeline.with_clips(split_all(timeline.clips, counter, ids, time, ride).0),
            );
        },
        Command::FreezeFrame { clip_id, time, duration, still } => {
            lemma_freezing_steady(
                project,
                counter,
                clip_id@,
                time,
                duration,
                still_of(still),
                ride,
            );
        },
        Command::MergeClips { clip_ids } => {
            lemma_merging_steady(project, counter, ids_of(clip_ids@), ride);
        },
        Command::RemoveClips { clip_ids, ripple } => {
            lemma_removing_steady(project, counter, ids_of(clip_ids@), ripple);
        },
        _ => {},
    }
}

proof fn lemma_sounds_fit(
    media: Seq<MediaView>,
    timeline: TimelineView,
    counter: nat,
    clip: ClipView,
    wanted: Seq<(Option<u32>, Seq<char>)>,
)
    requires
        all_fit(media, timeline.tracks, timeline.clips),
        fits(media, timeline.tracks, clip),
    ensures
        ({
            let after = placed_sounds(timeline, counter, clip, wanted).0;
            &&& all_fit(media, after.tracks, after.clips)
            &&& fits(media, after.tracks, clip)
            &&& after.id == timeline.id
            &&& after.clips.len() >= timeline.clips.len()
        }),
    decreases wanted.len(),
{
    if wanted.len() > 0 {
        lemma_sounds_fit(media, timeline, counter, clip, wanted.drop_last());
        let (sofar, count) = placed_sounds(timeline, counter, clip, wanted.drop_last());
        let (after, then) = placed_sounds(timeline, counter, clip, wanted);
        lemma_first_is(
            sofar.tracks,
            |t: TrackView| !occupied(sofar.clips, t.id, clip.start, end(clip)),
        );
        lemma_tracks_kept(sofar.tracks, after.tracks);
        lemma_media_kept(media, media);
        lemma_fits_on(media, sofar.tracks, clip, media, after.tracks);
        let sound = after.clips.last();
        match empty_track(sofar.tracks, sofar.clips, clip.start, end(clip)) {
            Some(i) => {
                assert(track_ids(after.tracks)[i] == sound.track_id);
            },
            None => {
                assert(track_ids(after.tracks)[sofar.tracks.len() as int] == sound.track_id);
            },
        }
        assert forall|k: int| 0 <= k < after.clips.len() implies fits(
            media,
            after.tracks,
            #[trigger] after.clips[k],
        ) by {
            if k < sofar.clips.len() {
                assert(fits(media, sofar.tracks, sofar.clips[k]));
                lemma_fits_on(media, sofar.tracks, sofar.clips[k], media, after.tracks);
            }
        }
    }
}

proof fn lemma_detaching_steady(project: ProjectView, counter: nat, clip_id: Seq<char>)
    requires
        project.editable(),
        anchored(project),
    ensures
        steady(project, detaching(project, counter, clip_id).project),
{
    let timeline = project.active();
    lemma_active_steady(project, timeline);
    lemma_first_is(timeline.clips, |c: ClipView| c.id == clip_id);
    if timeline.clip_index(clip_id) is Some {
        let i = timeline.clip_index(clip_id).unwrap();
        let clip = timeline.clips[i];
        assert(fits(project.media, timeline.tracks, clip));
        if project.media_index(clip.media_id) is Some {
            let m = project.media_index(clip.media_id).unwrap();
            let wanted = sounds(clip, project.media[m].audio_tracks);
            lemma_sounds_fit(project.media, timeline, counter, clip, wanted);
            let after = placed_sounds(timeline, counter, clip, wanted).0;
            let left = after.with_clip(i, silent(clip));
            assert forall|k: int| 0 <= k < left.clips.len() implies fits(
                project.media,
                left.tracks,
                #[trigger] left.clips[k],
            ) by {
                assert(fits(project.media, after.tracks, after.clips[k]));
            }
            lemma_active_steady(project, left);
        }
    }
}

proof fn lemma_reattaching_steady(project: ProjectView, counter: nat, clip_id: Seq<char>)
    requires
        project.editable(),
        anchored(project),
    ensures
        steady(project, reattaching(project, counter, clip_id).project),
{
    let timeline = project.active();
    lemma_active_steady(project, timeline);
    lemma_first_is(timeline.clips, |c: ClipView| c.id == clip_id);
    if timeline.clip_index(clip_id) is Some {
        let i = timeline.clip_index(clip_id).unwrap();
        let picture = match timeline.clips[i].detached_from {
            Some(id) => id,
            None => clip_id,
        };
        let pred = |c: ClipView| !is_sound_of(c, picture);
        lemma_first_is(timeline.clips, |c: ClipView| c.id == picture);
        lemma_first_is(timeline.clips, |c: ClipView| is_sound_of(c, picture));
        match (
            timeline.clip_index(picture),
            first(timeline.clips, |c: ClipView| is_sound_of(c, picture)),
        ) {
            (Some(p), Some(s)) => {
                let clips = timeline.clips.update(
                    p,
                    voiced(timeline.clips[p], timeline.clips[s].filters),
                );
                lemma_one_for_one(clips, timeline.clips);
                lemma_kin_fit(project.media, timeline.tracks, timeline.clips, clips);
                lemma_filter_kin(clips, pred);
                lemma_kin_fit(project.media, timeline.tracks, clips, clips.filter(pred));
                lemma_active_steady(project, timeline.with_clips(clips.filter(pred)));
            },
            _ => {},
        }
    }
}

proof fn lemma_lanes_steady(project: ProjectView, counter: nat, command: Command)
    requires
        project.editable(),
        anchored(project),
    ensures
        steady(project, lanes_step(project, counter, command).project),
{
    reveal(lanes_step);
    let timeline = project.active();
    let after = lanes_step(project, counter, command).project;
    lemma_active_steady(project, timeline);
    match command {
        Command::DetachAudio { clip_id } => {
            lemma_detaching_steady(project, counter, clip_id@);
        },
        Command::ReattachAudio { clip_id } => {
            lemma_reattaching_steady(project, counter, clip_id@);
        },
        Command::AddTrack => {
            let left = TimelineView {
                tracks: timeline.tracks.push(TrackView::fresh(minted("t"@, counter))),
                ..timeline
            };
            lemma_relaned(project, left);
        },
        Command::RemoveTrack { track_id } => {
            lemma_first_is(timeline.tracks, |t: TrackView| t.id == track_id@);
            if timeline.track_index(track_id@) is Some {
                let i = timeline.track_index(track_id@).unwrap();
                lemma_unlaned(project, i, track_id@);
            }
        },
        Command::SetTrackFlag { track_id, flag, value } => {
            lemma_first_is(timeline.tracks, |t: TrackView| t.id == track_id@);
            if timeline.track_index(track_id@) is Some {
                let i = timeline.track_index(track_id@).unwrap();
                let left = TimelineView {
                    tracks: timeline.tracks.update(i, flagged(timeline.tracks[i], flag, value)),
                    ..timeline
                };
                lemma_relaned(project, left);
            }
        },
        _ => {},
    }
}

proof fn lemma_relaned(project: ProjectView, left: TimelineView)
    requires
        project.editable(),
        anchored(project),
        left.id == project.active().id,
        left.clips == project.active().clips,
        project.active().tracks.len() <= left.tracks.len(),
        forall|i: int|
            0 <= i < project.active().tracks.len() ==> (#[trigger] left.tracks[i]).id
                == project.active().tracks[i].id,
    ensures
        steady(project, project.with_active(left)),
{
    let timeline = project.active();
    lemma_active_steady(project, left);
    lemma_tracks_kept(timeline.tracks, left.tracks);
    lemma_media_kept(project.media, project.media);
    assert forall|k: int| 0 <= k < left.clips.len() implies fits(
        project.media,
        left.tracks,
        #[trigger] left.clips[k],
    ) by {
        assert(fits(project.media, timeline.tracks, timeline.clips[k]));
        lemma_fits_on(project.media, timeline.tracks, left.clips[k], project.media, left.tracks);
    }
    lemma_active_steady(project, left);
}

proof fn lemma_unlaned(project: ProjectView, at: int, track_id: Seq<char>)
    requires
        project.editable(),
        anchored(project),
        0 <= at < project.active().tracks.len(),
        project.active().tracks[at].id == track_id,
    ensures
        ({
            let timeline = project.active();
            steady(
                project,
                project.with_active(
                    TimelineView {
                        tracks: timeline.tracks.remove(at),
                        clips: timeline.clips.filter(|c: ClipView| c.track_id != track_id),
                        ..timeline
                    },
                ),
            )
        }),
{
    let timeline = project.active();
    let stays = |c: ClipView| c.track_id != track_id;
    let left = TimelineView {
        tracks: timeline.tracks.remove(at),
        clips: timeline.clips.filter(stays),
        ..timeline
    };
    lemma_active_steady(project, left);
    lemma_filter_kept(timeline.clips, stays);
    assert forall|k: int| 0 <= k < left.clips.len() implies fits(
        project.media,
        left.tracks,
        #[trigger] left.clips[k],
    ) by {
        let clip = left.clips[k];
        assert(stays(clip));
        let j = choose|j: int| 0 <= j < timeline.clips.len() && timeline.clips[j] == clip;
        assert(fits(project.media, timeline.tracks, timeline.clips[j]));
        let t = choose|t: int|
            0 <= t < track_ids(timeline.tracks).len() && track_ids(timeline.tracks)[t]
                == clip.track_id;
        let now = if t < at {
            t
        } else {
            t - 1
        };
        assert(timeline.tracks[t].id == clip.track_id);
        assert(left.tracks[now] == timeline.tracks[t]);
        assert(track_ids(left.tracks)[now] == clip.track_id);
    }
    lemma_active_steady(project, left);
}

proof fn lemma_tabs_anchored(project: ProjectView, counter: nat, command: Command)
    requires
        project.editable(),
        anchored(project),
        showing(project),
    ensures
        anchored(tabs_step(project, counter, command).project),
        showing(tabs_step(project, counter, command).project),
{
    reveal(tabs_step);
    let after = tabs_step(project, counter, command).project;
    let a = choose|a: int|
        0 <= a < tab_ids(project.timelines).len() && tab_ids(project.timelines)[a]
            == project.active_timeline_id;
    assert(project.timelines[a].id == project.active_timeline_id);
    match command {
        Command::AddTimeline => {
            let n = project.timelines.len() as int;
            assert(tab_ids(after.timelines)[n] == after.active_timeline_id);
            assert forall|i: int| 0 <= i < after.timelines.len() implies all_fit(
                after.media,
                (#[trigger] after.timelines[i]).tracks,
                after.timelines[i].clips,
            ) by {
                if i < n {
                    assert(after.timelines[i] == project.timelines[i]);
                }
            }
        },
        Command::RemoveTimeline { timeline_id } => {
            lemma_first_is(project.timelines, |t: TimelineView| t.id == timeline_id@);
            if timeline_index(project, timeline_id@) is Some && project.timelines.len() > 1 {
                let i = timeline_index(project, timeline_id@).unwrap();
                assert forall|k: int| 0 <= k < after.timelines.len() implies all_fit(
                    after.media,
                    (#[trigger] after.timelines[k]).tracks,
                    after.timelines[k].clips,
                ) by {
                    assert(after.timelines[k] == project.timelines[if k < i { k } else { k + 1 }]);
                }
                if project.active_timeline_id == timeline_id@ {
                    let next = if i < after.timelines.len() {
                        i
                    } else {
                        after.timelines.len() - 1
                    };
                    assert(tab_ids(after.timelines)[next] == after.active_timeline_id);
                } else {
                    let now = if a < i {
                        a
                    } else {
                        a - 1
                    };
                    assert(after.timelines[now] == project.timelines[a]);
                    assert(tab_ids(after.timelines)[now] == after.active_timeline_id);
                }
            }
        },
        Command::SetTimelineVideo { timeline_id, video } => {
            lemma_first_is(project.timelines, |t: TimelineView| t.id == timeline_id@);
            assert(tab_ids(after.timelines)[a] == after.active_timeline_id);
        },
        Command::RenameTimeline { timeline_id, name } => {
            lemma_first_is(project.timelines, |t: TimelineView| t.id == timeline_id@);
            assert(tab_ids(after.timelines)[a] == after.active_timeline_id);
        },
        Command::SelectTimeline { timeline_id } => {
            lemma_first_is(project.timelines, |t: TimelineView| t.id == timeline_id@);
            if timeline_index(project, timeline_id@) is Some {
                let i = timeline_index(project, timeline_id@).unwrap();
                assert(tab_ids(after.timelines)[i] == after.active_timeline_id);
            }
        },
        Command::MoveTimeline { timeline_id, index } => {
            lemma_first_is(project.timelines, |t: TimelineView| t.id == timeline_id@);
            if timeline_index(project, timeline_id@) is Some {
                let i = timeline_index(project, timeline_id@).unwrap();
                let rest = project.timelines.remove(i);
                let to = if index < rest.len() {
                    index as int
                } else {
                    rest.len() as int
                };
                assert forall|k: int| 0 <= k < after.timelines.len() implies all_fit(
                    after.media,
                    (#[trigger] after.timelines[k]).tracks,
                    after.timelines[k].clips,
                ) by {
                    let j = if k < to {
                        k
                    } else {
                        k - 1
                    };
                    if k == to {
                        assert(after.timelines[k] == project.timelines[i]);
                    } else {
                        assert(after.timelines[k] == rest[j]);
                        assert(rest[j] == project.timelines[if j < i { j } else { j + 1 }]);
                    }
                }
                if a == i {
                    assert(tab_ids(after.timelines)[to] == after.active_timeline_id);
                } else {
                    let b = if a < i {
                        a
                    } else {
                        a - 1
                    };
                    assert(rest[b] == project.timelines[a]);
                    let c = if b < to {
                        b
                    } else {
                        b + 1
                    };
                    assert(after.timelines[c] == rest[b]);
                    assert(tab_ids(after.timelines)[c] == after.active_timeline_id);
                }
            }
        },
        _ => {},
    }
}

/// No command leaves anything hanging: every clip stands on a lane of its
/// timeline and plays a file of the bin, or none at all, and the timeline shown is
/// one of those there are.
pub proof fn lemma_nothing_is_left_hanging(
    project: ProjectView,
    counter: nat,
    command: Command,
    ride: Ride,
)
    requires
        project.editable(),
        anchored(project),
        showing(project),
    ensures
        anchored(stepped(project, counter, command, ride).project),
        showing(stepped(project, counter, command, ride).project),
    decreases command, 0nat,
{
    match command {
        Command::Batch { commands } => {
            if command.all_finite() {
                lemma_run_leaves_nothing_hanging(
                    project,
                    counter,
                    commands@,
                    commands@.len(),
                    ride,
                );
            }
        },
        _ => {
            if command.all_finite() {
                if is_media(command) {
                    lemma_media_steady(project, counter, command);
                } else if is_placing(command) {
                    lemma_placing_steady(project, counter, command);
                } else if is_cutting(command) {
                    lemma_cutting_steady(project, counter, command, ride);
                } else if is_look(command) {
                    lemma_look_steady(project, counter, command);
                } else if is_keys(command) {
                    lemma_keys_steady(project, counter, command);
                } else if is_lanes(command) {
                    lemma_lanes_steady(project, counter, command);
                } else {
                    lemma_tabs_anchored(project, counter, command);
                }
            }
        },
    }
}

proof fn lemma_run_leaves_nothing_hanging(
    project: ProjectView,
    counter: nat,
    commands: Seq<Command>,
    n: nat,
    ride: Ride,
)
    requires
        project.editable(),
        anchored(project),
        showing(project),
        n <= commands.len(),
    ensures
        anchored(ran(project, counter, commands, n, ride).project),
        showing(ran(project, counter, commands, n, ride).project),
    decreases commands, n,
{
    if n > 0 {
        let sofar = ran(project, counter, commands, (n - 1) as nat, ride);
        lemma_run_leaves_nothing_hanging(project, counter, commands, (n - 1) as nat, ride);
        lemma_run_stays_editable(project, counter, commands, (n - 1) as nat, ride);
        lemma_nothing_is_left_hanging(sofar.project, sofar.counter, commands[n - 1], ride);
    }
}

} // verus!
