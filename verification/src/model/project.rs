//! Projects: the bin, the fonts and the timelines.

use crate::find::{first, lemma_first, lemma_no_first};
use crate::model::media::{CustomFont, FontView, MediaItem, MediaView, MissingMedia, MissingView};
use crate::model::timeline::{Timeline, TimelineView, Track, TrackView, VideoSettings};
use crate::shared::{own, share};
use crate::text::same_text;
use std::sync::Arc;
use vstd::prelude::*;

verus! {

/// The edit: everything the document stores except the app-level settings that
/// the host manages around it.
#[derive(Debug)]
pub struct Project {
    /// The bin: every imported file, shared by all timelines.
    pub media: Vec<MediaItem>,
    /// Fonts the user added from disk.
    pub fonts: Vec<CustomFont>,
    /// Every timeline, in tab order. Always at least one.
    pub timelines: Vec<Arc<Timeline>>,
    /// Which timeline commands act on.
    pub active_timeline_id: String,
    /// Fields this build does not know, as the text they were read from.
    pub extra: String,
}

/// What a project says.
#[verifier::ext_equal]
pub struct ProjectView {
    pub media: Seq<MediaView>,
    pub fonts: Seq<FontView>,
    pub timelines: Seq<TimelineView>,
    pub active_timeline_id: Seq<char>,
    pub extra: Seq<char>,
}

/// What a list of timelines says.
pub open spec fn timelines_of(timelines: Seq<Arc<Timeline>>) -> Seq<TimelineView> {
    timelines.map_values(|t: Arc<Timeline>| t@)
}

/// What a bin says.
pub open spec fn media_of(media: Seq<MediaItem>) -> Seq<MediaView> {
    media.map_values(|m: MediaItem| m@)
}

/// What a list of fonts says.
pub open spec fn fonts_of(fonts: Seq<CustomFont>) -> Seq<FontView> {
    fonts.map_values(|f: CustomFont| f@)
}

impl View for Project {
    type V = ProjectView;

    open spec fn view(&self) -> ProjectView {
        ProjectView {
            media: media_of(self.media@),
            fonts: fonts_of(self.fonts@),
            timelines: timelines_of(self.timelines@),
            active_timeline_id: self.active_timeline_id@,
            extra: self.extra@,
        }
    }
}

/// The bin entries whose file is not there.
pub open spec fn missing(media: Seq<MediaView>, present: Seq<bool>) -> Seq<MissingView>
    decreases media.len(),
{
    if media.len() == 0 {
        Seq::empty()
    } else {
        let rest = missing(media.drop_last(), present);
        let item = media.last();
        if present[media.len() - 1] {
            rest
        } else {
            rest.push(MissingView { id: item.id, name: item.name, path: item.path })
        }
    }
}

impl ProjectView {
    /// Which timeline is being edited: the one the active id names, or the
    /// first.
    pub open spec fn active_index(self) -> int {
        match first(self.timelines, |t: TimelineView| t.id == self.active_timeline_id) {
            Some(i) => i,
            None => 0,
        }
    }

    /// The timeline being edited.
    pub open spec fn active(self) -> TimelineView {
        self.timelines[self.active_index()]
    }

    /// This project with the edited timeline written over.
    pub open spec fn with_active(self, timeline: TimelineView) -> ProjectView {
        ProjectView {
            timelines: self.timelines.update(self.active_index(), timeline),
            ..self
        }
    }

    /// Where the bin entry with this id stands.
    pub open spec fn media_index(self, id: Seq<char>) -> Option<int> {
        first(self.media, |m: MediaView| m.id == id)
    }

    /// Where the bin entry of this path stands.
    pub open spec fn path_index(self, path: Seq<char>) -> Option<int> {
        first(self.media, |m: MediaView| m.path == path)
    }

    /// Whether there is a timeline to edit.
    pub open spec fn editable(self) -> bool {
        self.timelines.len() > 0
    }

    /// A new project whose one timeline renders to `video`.
    pub open spec fn fresh(video: VideoSettings) -> ProjectView {
        ProjectView {
            media: Seq::empty(),
            fonts: Seq::empty(),
            timelines: seq![
                TimelineView {
                    id: "TL1"@,
                    name: "Timeline 1"@,
                    video,
                    tracks: seq![
                        TrackView::fresh("T1"@),
                        TrackView::fresh("T2"@),
                        TrackView::fresh("T3"@),
                        TrackView::fresh("T4"@),
                    ],
                    clips: Seq::empty(),
                    extra: Seq::empty(),
                },
            ],
            active_timeline_id: "TL1"@,
            extra: Seq::empty(),
        }
    }
}

fn copy_media(media: &Vec<MediaItem>) -> (r: Vec<MediaItem>)
    ensures
        media_of(r@) == media_of(media@),
{
    let mut r: Vec<MediaItem> = Vec::new();
    let mut i: usize = 0;
    while i < media.len()
        invariant
            i <= media.len(),
            r.len() == i,
            forall|j: int| 0 <= j < i ==> (#[trigger] r@[j])@ == media@[j]@,
        decreases media.len() - i,
    {
        r.push(media[i].clone());
        i = i + 1;
    }
    assert(media_of(r@) =~= media_of(media@));
    r
}

fn copy_fonts(fonts: &Vec<CustomFont>) -> (r: Vec<CustomFont>)
    ensures
        fonts_of(r@) == fonts_of(fonts@),
{
    let mut r: Vec<CustomFont> = Vec::new();
    let mut i: usize = 0;
    while i < fonts.len()
        invariant
            i <= fonts.len(),
            r.len() == i,
            forall|j: int| 0 <= j < i ==> (#[trigger] r@[j])@ == fonts@[j]@,
        decreases fonts.len() - i,
    {
        r.push(fonts[i].clone());
        i = i + 1;
    }
    assert(fonts_of(r@) =~= fonts_of(fonts@));
    r
}

fn share_timelines(timelines: &Vec<Arc<Timeline>>) -> (r: Vec<Arc<Timeline>>)
    ensures
        r@ == timelines@,
{
    let mut r: Vec<Arc<Timeline>> = Vec::new();
    let mut i: usize = 0;
    while i < timelines.len()
        invariant
            i <= timelines.len(),
            r@ == timelines@.take(i as int),
        decreases timelines.len() - i,
    {
        r.push(share(&timelines[i]));
        assert(timelines@.take(i as int + 1) =~= timelines@.take(i as int).push(
            timelines@[i as int],
        ));
        i = i + 1;
    }
    assert(timelines@.take(timelines@.len() as int) =~= timelines@);
    r
}

impl Clone for Project {
    fn clone(&self) -> (r: Project)
        ensures
            r@ == self@,
    {
        Project {
            media: copy_media(&self.media),
            fonts: copy_fonts(&self.fonts),
            timelines: share_timelines(&self.timelines),
            active_timeline_id: self.active_timeline_id.clone(),
            extra: self.extra.clone(),
        }
    }
}

/// Where the timeline with this id stands in a list.
pub fn find_timeline(timelines: &Vec<Arc<Timeline>>, id: &str) -> (r: Option<usize>)
    ensures
        match r {
            Some(i) => i < timelines.len() && first(
                timelines_of(timelines@),
                |t: TimelineView| t.id == id@,
            ) == Some(i as int) && timelines[i as int]@.id == id@,
            None => first(timelines_of(timelines@), |t: TimelineView| t.id == id@) is None,
        },
{
    let ghost pred = |t: TimelineView| t.id == id@;
    let ghost views = timelines_of(timelines@);
    let mut i: usize = 0;
    while i < timelines.len()
        invariant
            i <= timelines.len(),
            pred == (|t: TimelineView| t.id == id@),
            views == timelines_of(timelines@),
            forall|j: int| 0 <= j < i ==> !pred(#[trigger] views[j]),
        decreases timelines.len() - i,
    {
        if same_text(timelines[i].id.as_str(), id) {
            proof {
                assert(views[i as int] == timelines@[i as int]@);
                lemma_first(views, pred, i as int);
            }
            return Some(i);
        }
        assert(!pred(views[i as int]));
        i = i + 1;
    }
    proof {
        lemma_no_first(views, pred);
    }
    None
}

/// Where the bin entry with this id stands.
pub fn find_media(media: &Vec<MediaItem>, id: &str) -> (r: Option<usize>)
    ensures
        match r {
            Some(i) => i < media.len() && first(media_of(media@), |m: MediaView| m.id == id@)
                == Some(i as int),
            None => first(media_of(media@), |m: MediaView| m.id == id@) is None,
        },
{
    let ghost pred = |m: MediaView| m.id == id@;
    let ghost views = media_of(media@);
    let mut i: usize = 0;
    while i < media.len()
        invariant
            i <= media.len(),
            pred == (|m: MediaView| m.id == id@),
            views == media_of(media@),
            forall|j: int| 0 <= j < i ==> !pred(#[trigger] views[j]),
        decreases media.len() - i,
    {
        if same_text(media[i].id.as_str(), id) {
            proof {
                assert(views[i as int] == media@[i as int]@);
                lemma_first(views, pred, i as int);
            }
            return Some(i);
        }
        assert(!pred(views[i as int]));
        i = i + 1;
    }
    proof {
        lemma_no_first(views, pred);
    }
    None
}

/// Where the bin entry of this path stands.
pub fn find_path(media: &Vec<MediaItem>, path: &str) -> (r: Option<usize>)
    ensures
        match r {
            Some(i) => i < media.len() && first(media_of(media@), |m: MediaView| m.path == path@)
                == Some(i as int),
            None => first(media_of(media@), |m: MediaView| m.path == path@) is None,
        },
{
    let ghost pred = |m: MediaView| m.path == path@;
    let ghost views = media_of(media@);
    let mut i: usize = 0;
    while i < media.len()
        invariant
            i <= media.len(),
            pred == (|m: MediaView| m.path == path@),
            views == media_of(media@),
            forall|j: int| 0 <= j < i ==> !pred(#[trigger] views[j]),
        decreases media.len() - i,
    {
        if same_text(media[i].path.as_str(), path) {
            proof {
                assert(views[i as int] == media@[i as int]@);
                lemma_first(views, pred, i as int);
            }
            return Some(i);
        }
        assert(!pred(views[i as int]));
        i = i + 1;
    }
    proof {
        lemma_no_first(views, pred);
    }
    None
}

impl Project {
    /// A new project: one timeline, four lanes, at the default frame.
    pub fn new() -> (r: Project)
        ensures
            r@ == ProjectView::fresh(VideoSettings::standard()),
    {
        Project::with_video(VideoSettings::default())
    }

    /// A new project whose one timeline renders to `video`.
    pub fn with_video(video: VideoSettings) -> (r: Project)
        ensures
            r@ == ProjectView::fresh(video),
    {
        let timeline: Timeline = Timeline {
            id: "TL1".to_owned(),
            name: "Timeline 1".to_owned(),
            video,
            tracks: vec![
                Track::fresh("T1".to_owned()),
                Track::fresh("T2".to_owned()),
                Track::fresh("T3".to_owned()),
                Track::fresh("T4".to_owned()),
            ],
            clips: Vec::new(),
            extra: String::new(),
        };
        let ghost wanted = ProjectView::fresh(video);
        assert(timeline@ =~= wanted.timelines[0]) by {
            assert(timeline@.tracks =~= wanted.timelines[0].tracks);
            assert(timeline@.clips =~= wanted.timelines[0].clips);
        }
        let r: Project = Project {
            media: Vec::new(),
            fonts: Vec::new(),
            timelines: vec![Arc::new(timeline)],
            active_timeline_id: "TL1".to_owned(),
            extra: String::new(),
        };
        assert(r@.timelines =~= wanted.timelines);
        assert(r@ =~= wanted);
        r
    }

    /// Which timeline is being edited.
    pub fn active_position(&self) -> (r: usize)
        requires
            self@.editable(),
        ensures
            r == self@.active_index(),
            r < self.timelines.len(),
    {
        match find_timeline(&self.timelines, self.active_timeline_id.as_str()) {
            Some(i) => i,
            None => 0,
        }
    }

    /// The timeline being edited: the one the active id names, or the first.
    pub fn active(&self) -> (r: &Timeline)
        requires
            self@.editable(),
        ensures
            r@ == self@.active(),
    {
        let i: usize = self.active_position();
        &*self.timelines[i]
    }

    /// The timeline being edited, to write to, copied out of any snapshot that
    /// shares it.
    pub fn active_mut(&mut self) -> (r: &mut Timeline)
        requires
            old(self)@.editable(),
        ensures
            r@ == old(self)@.active(),
            final(self)@ == old(self)@.with_active(final(r)@),
    {
        let i: usize = self.active_position();
        own(&mut self.timelines[i])
    }

    /// Writes over the timeline being edited. The one there stays with whoever
    /// still shares it.
    pub fn put_active(&mut self, timeline: Timeline)
        requires
            old(self)@.editable(),
        ensures
            final(self)@ == old(self)@.with_active(timeline@),
    {
        let i: usize = self.active_position();
        self.put_timeline(i, timeline);
    }

    /// Writes over the timeline at `index`.
    pub fn put_timeline(&mut self, index: usize, timeline: Timeline)
        requires
            index < old(self).timelines.len(),
        ensures
            final(self)@ == (ProjectView {
                timelines: old(self)@.timelines.update(index as int, timeline@),
                ..old(self)@
            }),
            final(self).timelines.len() == old(self).timelines.len(),
    {
        let ghost before = self.timelines@;
        let shared: Arc<Timeline> = Arc::new(timeline);
        self.timelines.set(index, shared);
        assert(timelines_of(self.timelines@) =~= timelines_of(before).update(
            index as int,
            timeline@,
        ));
    }

    /// The bin entry with this id, or None if it was removed.
    pub fn media_by_id(&self, media_id: &str) -> (r: Option<&MediaItem>)
        ensures
            match r {
                Some(item) => self@.media_index(media_id@) is Some && item@
                    == self@.media[self@.media_index(media_id@)->0],
                None => self@.media_index(media_id@) is None,
            },
    {
        match find_media(&self.media, media_id) {
            Some(i) => Some(&self.media[i]),
            None => None,
        }
    }

    /// Every media item whose file is not there. Whether each file is there is
    /// the caller's to say, in the bin's order.
    pub fn missing_media(&self, present: &Vec<bool>) -> (r: Vec<MissingMedia>)
        requires
            present.len() == self.media.len(),
        ensures
            r@.map_values(|m: MissingMedia| m@) == missing(self@.media, present@),
    {
        let ghost views = self@.media;
        let ghost image = |m: MissingMedia| m@;
        let mut r: Vec<MissingMedia> = Vec::new();
        let mut i: usize = 0;
        assert(r@.map_values(image) =~= missing(views.take(0), present@));
        while i < self.media.len()
            invariant
                i <= self.media.len() == present.len(),
                views == self@.media,
                image == (|m: MissingMedia| m@),
                r@.map_values(image) == missing(views.take(i as int), present@),
            decreases self.media.len() - i,
        {
            proof {
                assert(views.take(i as int + 1).drop_last() =~= views.take(i as int));
                assert(views.take(i as int + 1).last() == self.media@[i as int]@);
            }
            if !present[i] {
                let ghost before = r@;
                let item: MissingMedia = MissingMedia {
                    id: self.media[i].id.clone(),
                    name: self.media[i].name.clone(),
                    path: self.media[i].path.clone(),
                };
                r.push(item);
                assert(r@.map_values(image) =~= before.map_values(image).push(item@));
            }
            i = i + 1;
        }
        assert(views.take(views.len() as int) =~= views);
        r
    }
}

impl Default for Project {
    fn default() -> (r: Project)
        ensures
            r@ == ProjectView::fresh(VideoSettings::standard()),
    {
        Project::new()
    }
}

} // verus!
