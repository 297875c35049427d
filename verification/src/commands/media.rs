//! The bin and the fonts: what a project can place, before anything is placed.

use crate::commands::command::{CommandError, Outcome, Refusal};
use crate::commands::mint::{minted, IdMint};
use crate::commands::step::Step;
use crate::find::{lemma_filter_maps, lemma_filter_step};
use crate::model::clip::{Clip, ClipView};
use crate::model::media::{
    clip_kind, kind_of, ColorRange, CustomFont, FontView, MediaItem, MediaView, NewMedia,
    NewMediaView,
};
use crate::model::project::{
    find_media, find_path, fonts_of, media_of, timelines_of, Project, ProjectView,
};
use crate::model::timeline::{clips_of, Timeline, TimelineView};
use crate::number::{num, ZERO};
use crate::shared::share;
use crate::text::successor;
use std::sync::Arc;
use vstd::prelude::*;

verus! {

/// Imports a file: a path already in the bin is a no-op.
pub open spec fn adding_media(project: ProjectView, counter: nat, item: NewMediaView) -> Step {
    if project.path_index(item.path) is Some {
        Step::nothing(project, counter)
    } else {
        let id = minted("m"@, counter);
        Step::created(
            ProjectView { media: project.media.push(item.entry(id)), ..project },
            successor(counter),
            id,
        )
    }
}

/// A bin entry written over.
pub open spec fn with_media(project: ProjectView, index: int, item: MediaView) -> ProjectView {
    ProjectView { media: project.media.update(index, item), ..project }
}

/// Marks a bin entry as a template slot, or back.
pub open spec fn marking_slot(
    project: ProjectView,
    counter: nat,
    media_id: Seq<char>,
    placeholder: bool,
) -> Step {
    match project.media_index(media_id) {
        Some(i) => Step::changed(
            with_media(project, i, MediaView { placeholder, ..project.media[i] }),
            counter,
            project.media[i].placeholder != placeholder,
        ),
        None => Step::nothing(project, counter),
    }
}

/// A clip of a slot's media, once the slot is filled: its timing stays the
/// template's, its in-point, kind, name and stream follow the file.
pub open spec fn refilled(clip: ClipView, media_id: Seq<char>, item: NewMediaView) -> ClipView {
    if clip.media_id == media_id {
        ClipView {
            source_start: num(ZERO),
            kind: kind_of(item.kind),
            name: item.name,
            audio_stream: None,
            ..clip
        }
    } else {
        clip
    }
}

pub open spec fn refilled_timeline(
    timeline: TimelineView,
    media_id: Seq<char>,
    item: NewMediaView,
) -> TimelineView {
    timeline.with_clips(timeline.clips.map_values(|c: ClipView| refilled(c, media_id, item)))
}

/// Swaps a file into a template slot in place, across all timelines.
pub open spec fn filling_slot(
    project: ProjectView,
    counter: nat,
    media_id: Seq<char>,
    item: NewMediaView,
) -> Step {
    match project.media_index(media_id) {
        None => Step::refused(project, counter, Refusal::SlotGone),
        Some(i) => if !project.media[i].placeholder {
            Step::refused(project, counter, Refusal::NotASlot)
        } else {
            Step::changed(
                ProjectView {
                    media: project.media.update(i, project.media[i].filled(item)),
                    timelines: project.timelines.map_values(
                        |t: TimelineView| refilled_timeline(t, media_id, item),
                    ),
                    ..project
                },
                counter,
                true,
            )
        },
    }
}

/// A timeline without the clips of a bin entry.
pub open spec fn swept(timeline: TimelineView, media_id: Seq<char>) -> TimelineView {
    timeline.with_clips(timeline.clips.filter(|c: ClipView| c.media_id != media_id))
}

/// Removes a bin entry and every clip of it, on all timelines. An id the bin does
/// not hold removes nothing.
pub open spec fn removing_media(project: ProjectView, counter: nat, media_id: Seq<char>) -> Step {
    match project.media_index(media_id) {
        Some(_) => Step::changed(
            ProjectView {
                media: project.media.filter(|m: MediaView| m.id != media_id),
                timelines: project.timelines.map_values(|t: TimelineView| swept(t, media_id)),
                ..project
            },
            counter,
            true,
        ),
        None => Step::nothing(project, counter),
    }
}

/// Registers a font: a path already registered is a no-op.
pub open spec fn adding_font(
    project: ProjectView,
    counter: nat,
    family: Seq<char>,
    path: Seq<char>,
) -> Step {
    if exists|i: int| 0 <= i < project.fonts.len() && (#[trigger] project.fonts[i]).path == path {
        Step::nothing(project, counter)
    } else {
        Step::changed(
            ProjectView { fonts: project.fonts.push(FontView { family, path }), ..project },
            counter,
            true,
        )
    }
}

/// Unregisters a font family.
pub open spec fn removing_font(project: ProjectView, counter: nat, family: Seq<char>) -> Step {
    let fonts = project.fonts.filter(|f: FontView| f.family != family);
    Step::changed(
        ProjectView { fonts, ..project },
        counter,
        fonts.len() != project.fonts.len(),
    )
}

/// Relinks a bin entry.
pub open spec fn relinking(
    project: ProjectView,
    counter: nat,
    media_id: Seq<char>,
    path: Seq<char>,
) -> Step {
    match project.media_index(media_id) {
        Some(i) => Step::changed(
            with_media(project, i, MediaView { path, ..project.media[i] }),
            counter,
            project.media[i].path != path,
        ),
        None => Step::nothing(project, counter),
    }
}

/// Says what levels a bin entry's picture spans.
pub open spec fn setting_levels(
    project: ProjectView,
    counter: nat,
    media_id: Seq<char>,
    range: Option<ColorRange>,
) -> Step {
    match project.media_index(media_id) {
        Some(i) => Step::changed(
            with_media(project, i, MediaView { color_range: range, ..project.media[i] }),
            counter,
            project.media[i].color_range != range,
        ),
        None => Step::nothing(project, counter),
    }
}

/// Adds a file to the bin under a fresh id.
pub fn add_media(project: &mut Project, mint: &mut IdMint, item: NewMedia) -> (r: Result<
    Outcome,
    CommandError,
>)
    ensures
        adding_media(old(project)@, old(mint)@, item@).is(final(project)@, final(mint)@, r),
{
    match find_path(&project.media, item.path.as_str()) {
        Some(_) => Ok(Outcome::default()),
        None => {
            let ghost before = project.media@;
            let id: String = mint.next("m");
            let entry: MediaItem = item.into_entry(id.clone());
            project.media.push(entry);
            assert(media_of(project.media@) =~= media_of(before).push(entry@));
            Ok(Outcome::created(id))
        },
    }
}

/// Writes over a bin entry.
fn put_media(project: &mut Project, index: usize, item: MediaItem)
    requires
        index < old(project).media.len(),
    ensures
        final(project)@ == with_media(old(project)@, index as int, item@),
{
    let ghost before = project.media@;
    project.media.set(index, item);
    assert(media_of(project.media@) =~= media_of(before).update(index as int, item@));
}

pub fn set_media_placeholder(
    project: &mut Project,
    mint: &mut IdMint,
    media_id: &str,
    placeholder: bool,
) -> (r: Result<Outcome, CommandError>)
    ensures
        marking_slot(old(project)@, old(mint)@, media_id@, placeholder).is(
            final(project)@,
            final(mint)@,
            r,
        ),
{
    match find_media(&project.media, media_id) {
        Some(i) => {
            let mut item: MediaItem = project.media[i].clone();
            let applied: bool = item.placeholder != placeholder;
            item.placeholder = placeholder;
            put_media(project, i, item);
            Ok(Outcome::changed(applied))
        },
        None => Ok(Outcome::default()),
    }
}

fn refill_clips(clips: &Vec<Arc<Clip>>, media_id: &String, item: &NewMedia) -> (r: Vec<Arc<Clip>>)
    ensures
        clips_of(r@) == clips_of(clips@).map_values(|c: ClipView| refilled(c, media_id@, item@)),
{
    let mut r: Vec<Arc<Clip>> = Vec::new();
    let mut i: usize = 0;
    while i < clips.len()
        invariant
            i <= clips.len(),
            r.len() == i,
            forall|j: int|
                0 <= j < i ==> (#[trigger] r@[j])@ == refilled(clips@[j]@, media_id@, item@),
        decreases clips.len() - i,
    {
        if clips[i].media_id == *media_id {
            let mut clip: Clip = (*clips[i]).clone();
            clip.source_start = num(ZERO);
            clip.kind = clip_kind(item.kind);
            clip.name = item.name.clone();
            clip.audio_stream = None;
            r.push(Arc::new(clip));
        } else {
            r.push(share(&clips[i]));
        }
        i = i + 1;
    }
    assert(clips_of(r@) =~= clips_of(clips@).map_values(
        |c: ClipView| refilled(c, media_id@, item@),
    ));
    r
}

fn refill_timelines(timelines: &Vec<Arc<Timeline>>, media_id: &String, item: &NewMedia) -> (r: Vec<
    Arc<Timeline>,
>)
    ensures
        timelines_of(r@) == timelines_of(timelines@).map_values(
            |t: TimelineView| refilled_timeline(t, media_id@, item@),
        ),
{
    let mut r: Vec<Arc<Timeline>> = Vec::new();
    let mut i: usize = 0;
    while i < timelines.len()
        invariant
            i <= timelines.len(),
            r.len() == i,
            forall|j: int|
                0 <= j < i ==> (#[trigger] r@[j])@ == refilled_timeline(
                    timelines@[j]@,
                    media_id@,
                    item@,
                ),
        decreases timelines.len() - i,
    {
        if shows(&timelines[i].clips, media_id) {
            let mut timeline: Timeline = (*timelines[i]).clone();
            timeline.clips = refill_clips(&timelines[i].clips, media_id, item);
            r.push(Arc::new(timeline));
        } else {
            proof {
                let t = timelines@[i as int]@;
                assert(t.clips.map_values(|c: ClipView| refilled(c, media_id@, item@))
                    =~= t.clips);
                assert(refilled_timeline(t, media_id@, item@) =~= t);
            }
            r.push(share(&timelines[i]));
        }
        i = i + 1;
    }
    assert(timelines_of(r@) =~= timelines_of(timelines@).map_values(
        |t: TimelineView| refilled_timeline(t, media_id@, item@),
    ));
    r
}

/// Whether any of these clips is of a bin entry.
fn shows(clips: &Vec<Arc<Clip>>, media_id: &String) -> (r: bool)
    ensures
        r == (exists|i: int|
            0 <= i < clips_of(clips@).len() && (#[trigger] clips_of(clips@)[i]).media_id
                == media_id@),
{
    let mut i: usize = 0;
    while i < clips.len()
        invariant
            i <= clips.len(),
            forall|j: int| 0 <= j < i ==> (#[trigger] clips_of(clips@)[j]).media_id != media_id@,
        decreases clips.len() - i,
    {
        if clips[i].media_id == *media_id {
            assert(clips_of(clips@)[i as int].media_id == media_id@);
            return true;
        }
        i = i + 1;
    }
    false
}

pub fn fill_slot(project: &mut Project, mint: &mut IdMint, media_id: String, item: NewMedia) -> (r:
    Result<Outcome, CommandError>)
    ensures
        filling_slot(old(project)@, old(mint)@, media_id@, item@).is(
            final(project)@,
            final(mint)@,
            r,
        ),
{
    match find_media(&project.media, media_id.as_str()) {
        None => Err(CommandError::SlotGone),
        Some(i) => {
            if !project.media[i].placeholder {
                return Err(CommandError::NotASlot);
            }
            let timelines: Vec<Arc<Timeline>> = refill_timelines(
                &project.timelines,
                &media_id,
                &item,
            );
            let mut entry: MediaItem = project.media[i].clone();
            entry.fill(item);
            put_media(project, i, entry);
            project.timelines = timelines;
            Ok(Outcome::changed(true))
        },
    }
}

fn sweep_clips(clips: &Vec<Arc<Clip>>, media_id: &String) -> (r: Vec<Arc<Clip>>)
    ensures
        clips_of(r@) == clips_of(clips@).filter(|c: ClipView| c.media_id != media_id@),
{
    let ghost pred = |c: Arc<Clip>| c@.media_id != media_id@;
    let ghost image = |c: Arc<Clip>| c@;
    let ghost onto = |c: ClipView| c.media_id != media_id@;
    let mut r: Vec<Arc<Clip>> = Vec::new();
    let mut i: usize = 0;
    proof {
        reveal(Seq::filter);
        assert(clips@.take(0).filter(pred) =~= Seq::<Arc<Clip>>::empty());
    }
    while i < clips.len()
        invariant
            i <= clips.len(),
            pred == (|c: Arc<Clip>| c@.media_id != media_id@),
            r@ == clips@.take(i as int).filter(pred),
        decreases clips.len() - i,
    {
        proof {
            lemma_filter_step(clips@, pred, i as int);
        }
        if clips[i].media_id != *media_id {
            r.push(share(&clips[i]));
        }
        i = i + 1;
    }
    assert(clips@.take(clips@.len() as int) =~= clips@);
    proof {
        lemma_filter_maps(clips@, pred, image, onto);
    }
    r
}

pub fn remove_media(project: &mut Project, mint: &mut IdMint, media_id: String) -> (r: Result<
    Outcome,
    CommandError,
>)
    ensures
        removing_media(old(project)@, old(mint)@, media_id@).is(final(project)@, final(mint)@, r),
{
    if find_media(&project.media, media_id.as_str()).is_none() {
        return Ok(Outcome::default());
    }
    let ghost whole = project@;
    let ghost onto = |m: MediaView| m.id != media_id@;
    let mut media: Vec<MediaItem> = Vec::new();
    let mut i: usize = 0;
    proof {
        reveal(Seq::filter);
        assert(whole.media.take(0).filter(onto) =~= Seq::<MediaView>::empty());
        assert(media_of(media@) =~= Seq::<MediaView>::empty());
    }
    while i < project.media.len()
        invariant
            i <= project.media.len(),
            onto == (|m: MediaView| m.id != media_id@),
            project@ == whole,
            media_of(media@) == whole.media.take(i as int).filter(onto),
        decreases project.media.len() - i,
    {
        proof {
            lemma_filter_step(whole.media, onto, i as int);
        }
        if project.media[i].id != media_id {
            let ghost before = media@;
            let item: MediaItem = project.media[i].clone();
            media.push(item);
            assert(media_of(media@) =~= media_of(before).push(item@));
        }
        i = i + 1;
    }
    assert(whole.media.take(whole.media.len() as int) =~= whole.media);
    let mut timelines: Vec<Arc<Timeline>> = Vec::new();
    let mut i: usize = 0;
    while i < project.timelines.len()
        invariant
            i <= project.timelines.len(),
            project@ == whole,
            timelines.len() == i,
            forall|j: int|
                0 <= j < i ==> (#[trigger] timelines@[j])@ == swept(whole.timelines[j], media_id@),
        decreases project.timelines.len() - i,
    {
        let mut timeline: Timeline = (*project.timelines[i]).clone();
        timeline.clips = sweep_clips(&project.timelines[i].clips, &media_id);
        proof {
            assert(whole.timelines[i as int] == project.timelines@[i as int]@);
            assert(timeline@ =~= swept(whole.timelines[i as int], media_id@));
        }
        timelines.push(Arc::new(timeline));
        i = i + 1;
    }
    project.media = media;
    project.timelines = timelines;
    assert(project@.timelines =~= whole.timelines.map_values(
        |t: TimelineView| swept(t, media_id@),
    ));
    Ok(Outcome::changed(true))
}

pub fn add_font(project: &mut Project, mint: &mut IdMint, family: String, path: String) -> (r:
    Result<Outcome, CommandError>)
    ensures
        adding_font(old(project)@, old(mint)@, family@, path@).is(final(project)@, final(mint)@, r),
{
    let ghost whole = project@;
    let mut i: usize = 0;
    while i < project.fonts.len()
        invariant
            i <= project.fonts.len(),
            project@ == whole,
            *project == *old(project),
            *mint == *old(mint),
            forall|j: int| 0 <= j < i ==> (#[trigger] whole.fonts[j]).path != path@,
        decreases project.fonts.len() - i,
    {
        if project.fonts[i].path == path {
            assert(whole.fonts[i as int].path == path@);
            return Ok(Outcome::default());
        }
        i = i + 1;
    }
    let ghost before = project.fonts@;
    let font: CustomFont = CustomFont { family, path };
    project.fonts.push(font);
    assert(fonts_of(project.fonts@) =~= fonts_of(before).push(font@));
    Ok(Outcome::changed(true))
}

pub fn remove_font(project: &mut Project, mint: &mut IdMint, family: String) -> (r: Result<
    Outcome,
    CommandError,
>)
    ensures
        removing_font(old(project)@, old(mint)@, family@).is(final(project)@, final(mint)@, r),
{
    let ghost whole = project@;
    let ghost onto = |f: FontView| f.family != family@;
    let mut fonts: Vec<CustomFont> = Vec::new();
    let mut i: usize = 0;
    proof {
        reveal(Seq::filter);
        assert(whole.fonts.take(0).filter(onto) =~= Seq::<FontView>::empty());
        assert(fonts_of(fonts@) =~= Seq::<FontView>::empty());
    }
    while i < project.fonts.len()
        invariant
            i <= project.fonts.len(),
            onto == (|f: FontView| f.family != family@),
            project@ == whole,
            fonts_of(fonts@) == whole.fonts.take(i as int).filter(onto),
        decreases project.fonts.len() - i,
    {
        proof {
            lemma_filter_step(whole.fonts, onto, i as int);
        }
        if project.fonts[i].family != family {
            let ghost before = fonts@;
            let font: CustomFont = project.fonts[i].clone();
            fonts.push(font);
            assert(fonts_of(fonts@) =~= fonts_of(before).push(font@));
        }
        i = i + 1;
    }
    assert(whole.fonts.take(whole.fonts.len() as int) =~= whole.fonts);
    assert(fonts.len() == fonts_of(fonts@).len());
    let applied: bool = fonts.len() != project.fonts.len();
    project.fonts = fonts;
    Ok(Outcome::changed(applied))
}

pub fn update_media_path(
    project: &mut Project,
    mint: &mut IdMint,
    media_id: &str,
    new_path: String,
) -> (r: Result<Outcome, CommandError>)
    ensures
        relinking(old(project)@, old(mint)@, media_id@, new_path@).is(
            final(project)@,
            final(mint)@,
            r,
        ),
{
    match find_media(&project.media, media_id) {
        Some(i) => {
            let mut item: MediaItem = project.media[i].clone();
            let applied: bool = item.path != new_path;
            item.path = new_path;
            put_media(project, i, item);
            Ok(Outcome::changed(applied))
        },
        None => Ok(Outcome::default()),
    }
}

pub fn set_media_color_range(
    project: &mut Project,
    mint: &mut IdMint,
    media_id: &str,
    range: Option<ColorRange>,
) -> (r: Result<Outcome, CommandError>)
    ensures
        setting_levels(old(project)@, old(mint)@, media_id@, range).is(
            final(project)@,
            final(mint)@,
            r,
        ),
{
    match find_media(&project.media, media_id) {
        Some(i) => {
            let mut item: MediaItem = project.media[i].clone();
            let applied: bool = match (item.color_range, range) {
                (Some(a), Some(b)) => a != b,
                (None, None) => false,
                _ => true,
            };
            item.color_range = range;
            put_media(project, i, item);
            Ok(Outcome::changed(applied))
        },
        None => Ok(Outcome::default()),
    }
}

} // verus!
