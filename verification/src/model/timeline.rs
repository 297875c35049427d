//! Timelines: lanes, the clips on them, and the frame they render to.

use crate::find::{first, lemma_first, lemma_no_first};
use crate::model::clip::{Clip, ClipView};
use crate::number::{larger, num, quotient, sum, whole, Number, ZERO};
use crate::shared::{own, share};
use crate::text::same_text;
use std::sync::Arc;
use vstd::prelude::*;

verus! {

/// A lane. Deliberately untyped: any media goes on any track.
#[derive(Debug)]
pub struct Track {
    pub id: String,
    /// Video clips on this track are left out of the composite when false.
    pub visible: bool,
    /// Audio on this track is silent when true.
    pub muted: bool,
    /// Fields this build does not know, as the text they were read from.
    pub extra: String,
}

/// What a lane says.
#[verifier::ext_equal]
pub struct TrackView {
    pub id: Seq<char>,
    pub visible: bool,
    pub muted: bool,
    pub extra: Seq<char>,
}

impl View for Track {
    type V = TrackView;

    open spec fn view(&self) -> TrackView {
        TrackView { id: self.id@, visible: self.visible, muted: self.muted, extra: self.extra@ }
    }
}

impl TrackView {
    /// A fresh lane.
    pub open spec fn fresh(id: Seq<char>) -> TrackView {
        TrackView { id, visible: true, muted: false, extra: Seq::empty() }
    }
}

impl Clone for Track {
    fn clone(&self) -> (r: Track)
        ensures
            r@ == self@,
    {
        Track {
            id: self.id.clone(),
            visible: self.visible,
            muted: self.muted,
            extra: self.extra.clone(),
        }
    }
}

impl Track {
    /// A fresh lane.
    pub fn fresh(id: String) -> (r: Track)
        ensures
            r@ == TrackView::fresh(id@),
    {
        Track { id, visible: true, muted: false, extra: String::new() }
    }
}

impl Default for Track {
    fn default() -> (r: Track)
        ensures
            r@ == TrackView::fresh(Seq::empty()),
    {
        Track::fresh(String::new())
    }
}

/// A timeline's output frame and rate.
#[derive(Clone, Copy, PartialEq, Eq, Debug, Structural)]
pub struct VideoSettings {
    /// Output frame width in pixels.
    pub width: u32,
    /// Output frame height in pixels.
    pub height: u32,
    /// Numerator of the frame rate, e.g. 30000 for 29.97 fps.
    pub rate_num: i64,
    /// Denominator of the frame rate, e.g. 1001 for 29.97 fps.
    pub rate_den: i64,
}

impl VideoSettings {
    /// 1080p at 30, the frame a fresh project is born with.
    pub open spec fn standard() -> VideoSettings {
        VideoSettings { width: 1920, height: 1080, rate_num: 30, rate_den: 1 }
    }

    /// Whether every term is one a frame could actually have.
    pub open spec fn sane(self) -> bool {
        self.width > 0 && self.height > 0 && self.rate_num > 0 && self.rate_den > 0
    }

    /// The rate as a number, for anything that draws or counts frames.
    pub fn rate(self) -> (r: Number)
        ensures
            r == quotient(
                whole(self.rate_num as int),
                whole(
                    if self.rate_den > 1 {
                        self.rate_den as int
                    } else {
                        1
                    },
                ),
            ),
    {
        let den: i64 = if self.rate_den > 1 {
            self.rate_den
        } else {
            1
        };
        Number::from_int(self.rate_num).over(Number::from_int(den))
    }

    /// This frame with every zero or negative field taken from `fallback`
    /// instead.
    pub fn or(self, fallback: VideoSettings) -> (r: VideoSettings)
        ensures
            r.width == (if self.width > 0 {
                self.width
            } else {
                fallback.width
            }),
            r.height == (if self.height > 0 {
                self.height
            } else {
                fallback.height
            }),
            r.rate_num == (if self.rate_num > 0 {
                self.rate_num
            } else {
                fallback.rate_num
            }),
            r.rate_den == (if self.rate_den > 0 {
                self.rate_den
            } else {
                fallback.rate_den
            }),
            self.sane() ==> r == self,
            fallback.sane() ==> r.sane(),
    {
        VideoSettings {
            width: if self.width > 0 {
                self.width
            } else {
                fallback.width
            },
            height: if self.height > 0 {
                self.height
            } else {
                fallback.height
            },
            rate_num: if self.rate_num > 0 {
                self.rate_num
            } else {
                fallback.rate_num
            },
            rate_den: if self.rate_den > 0 {
                self.rate_den
            } else {
                fallback.rate_den
            },
        }
    }

    /// Whether every term is one a frame could actually have. A zero dimension
    /// or rate is never a real setting.
    pub fn is_sane(self) -> (r: bool)
        ensures
            r == self.sane(),
    {
        self.width > 0 && self.height > 0 && self.rate_num > 0 && self.rate_den > 0
    }
}

impl Default for VideoSettings {
    fn default() -> (r: VideoSettings)
        ensures
            r == VideoSettings::standard(),
    {
        VideoSettings { width: 1920, height: 1080, rate_num: 30, rate_den: 1 }
    }
}

/// One timeline: a name and its lanes and clips.
#[derive(Debug)]
pub struct Timeline {
    pub id: String,
    /// The tab label.
    pub name: String,
    /// The frame this timeline renders to and the rate it runs at.
    pub video: VideoSettings,
    /// The lanes, top to bottom.
    pub tracks: Vec<Track>,
    /// Every clip on this timeline, in insertion order, not time order. Behind
    /// `Arc` so that copying the timeline copies one pointer per clip.
    pub clips: Vec<Arc<Clip>>,
    /// Fields this build does not know, as the text they were read from.
    pub extra: String,
}

/// What a timeline says.
#[verifier::ext_equal]
pub struct TimelineView {
    pub id: Seq<char>,
    pub name: Seq<char>,
    pub video: VideoSettings,
    pub tracks: Seq<TrackView>,
    pub clips: Seq<ClipView>,
    pub extra: Seq<char>,
}

/// What a list of clips says.
pub open spec fn clips_of(clips: Seq<Arc<Clip>>) -> Seq<ClipView> {
    clips.map_values(|c: Arc<Clip>| c@)
}

/// What a list of lanes says.
pub open spec fn tracks_of(tracks: Seq<Track>) -> Seq<TrackView> {
    tracks.map_values(|t: Track| t@)
}

impl View for Timeline {
    type V = TimelineView;

    open spec fn view(&self) -> TimelineView {
        TimelineView {
            id: self.id@,
            name: self.name@,
            video: self.video,
            tracks: tracks_of(self.tracks@),
            clips: clips_of(self.clips@),
            extra: self.extra@,
        }
    }
}

/// Where the last of these clips ends, zero for none.
pub open spec fn end_of(clips: Seq<ClipView>) -> Number
    decreases clips.len(),
{
    if clips.len() == 0 {
        num(ZERO)
    } else {
        larger(end_of(clips.drop_last()), sum(clips.last().start, clips.last().duration))
    }
}

impl TimelineView {
    /// Where the clip with this id stands.
    pub open spec fn clip_index(self, id: Seq<char>) -> Option<int> {
        first(self.clips, |c: ClipView| c.id == id)
    }

    /// Where the lane with this id stands.
    pub open spec fn track_index(self, id: Seq<char>) -> Option<int> {
        first(self.tracks, |t: TrackView| t.id == id)
    }

    /// This timeline with other clips.
    pub open spec fn with_clips(self, clips: Seq<ClipView>) -> TimelineView {
        TimelineView { clips, ..self }
    }

    /// This timeline with one clip written over.
    pub open spec fn with_clip(self, index: int, clip: ClipView) -> TimelineView {
        self.with_clips(self.clips.update(index, clip))
    }
}

/// A copy of a list of lanes.
pub fn copy_tracks(tracks: &Vec<Track>) -> (r: Vec<Track>)
    ensures
        tracks_of(r@) == tracks_of(tracks@),
{
    let mut r: Vec<Track> = Vec::new();
    let mut i: usize = 0;
    while i < tracks.len()
        invariant
            i <= tracks.len(),
            r.len() == i,
            forall|j: int| 0 <= j < i ==> (#[trigger] r@[j])@ == tracks@[j]@,
        decreases tracks.len() - i,
    {
        r.push(tracks[i].clone());
        i = i + 1;
    }
    assert(tracks_of(r@) =~= tracks_of(tracks@));
    r
}

/// Another list of the same clips.
pub fn share_clips(clips: &Vec<Arc<Clip>>) -> (r: Vec<Arc<Clip>>)
    ensures
        r@ == clips@,
{
    let mut r: Vec<Arc<Clip>> = Vec::new();
    let mut i: usize = 0;
    while i < clips.len()
        invariant
            i <= clips.len(),
            r@ == clips@.take(i as int),
        decreases clips.len() - i,
    {
        r.push(share(&clips[i]));
        assert(clips@.take(i as int + 1) =~= clips@.take(i as int).push(clips@[i as int]));
        i = i + 1;
    }
    assert(clips@.take(clips@.len() as int) =~= clips@);
    r
}

/// Where the clip with this id stands in a list.
pub fn find_clip(clips: &Vec<Arc<Clip>>, id: &str) -> (r: Option<usize>)
    ensures
        match r {
            Some(i) => i < clips.len() && first(clips_of(clips@), |c: ClipView| c.id == id@) == Some(
                i as int,
            ) && clips[i as int]@.id == id@,
            None => first(clips_of(clips@), |c: ClipView| c.id == id@) is None,
        },
{
    let ghost pred = |c: ClipView| c.id == id@;
    let ghost views = clips_of(clips@);
    let mut i: usize = 0;
    while i < clips.len()
        invariant
            i <= clips.len(),
            pred == (|c: ClipView| c.id == id@),
            views == clips_of(clips@),
            forall|j: int| 0 <= j < i ==> !pred(#[trigger] views[j]),
        decreases clips.len() - i,
    {
        if same_text(clips[i].id.as_str(), id) {
            proof {
                assert(views[i as int] == clips@[i as int]@);
                lemma_first(views, pred, i as int);
            }
            return Some(i);
        }
        assert(!pred(views[i as int]));
        i = i + 1;
    }
    proof {
        lemma_no_first(views, pred);
    }
    None
}

/// Where the lane with this id stands in a list.
pub fn find_track(tracks: &Vec<Track>, id: &str) -> (r: Option<usize>)
    ensures
        match r {
            Some(i) => i < tracks.len() && first(tracks_of(tracks@), |t: TrackView| t.id == id@)
                == Some(i as int),
            None => first(tracks_of(tracks@), |t: TrackView| t.id == id@) is None,
        },
{
    let ghost pred = |t: TrackView| t.id == id@;
    let ghost views = tracks_of(tracks@);
    let mut i: usize = 0;
    while i < tracks.len()
        invariant
            i <= tracks.len(),
            pred == (|t: TrackView| t.id == id@),
            views == tracks_of(tracks@),
            forall|j: int| 0 <= j < i ==> !pred(#[trigger] views[j]),
        decreases tracks.len() - i,
    {
        if same_text(tracks[i].id.as_str(), id) {
            proof {
                assert(views[i as int] == tracks@[i as int]@);
                lemma_first(views, pred, i as int);
            }
            return Some(i);
        }
        assert(!pred(views[i as int]));
        i = i + 1;
    }
    proof {
        lemma_no_first(views, pred);
    }
    None
}

impl Clone for Timeline {
    fn clone(&self) -> (r: Timeline)
        ensures
            r@ == self@,
            r.clips@ == self.clips@,
    {
        Timeline {
            id: self.id.clone(),
            name: self.name.clone(),
            video: self.video,
            tracks: copy_tracks(&self.tracks),
            clips: share_clips(&self.clips),
            extra: self.extra.clone(),
        }
    }
}

impl Default for Timeline {
    fn default() -> (r: Timeline)
        ensures
            r@ == (TimelineView {
                id: Seq::empty(),
                name: "Timeline"@,
                video: VideoSettings::standard(),
                tracks: Seq::empty(),
                clips: Seq::empty(),
                extra: Seq::empty(),
            }),
    {
        let r: Timeline = Timeline {
            id: String::new(),
            name: "Timeline".to_owned(),
            video: VideoSettings::default(),
            tracks: Vec::new(),
            clips: Vec::new(),
            extra: String::new(),
        };
        assert(r@.tracks =~= Seq::<TrackView>::empty());
        assert(r@.clips =~= Seq::<ClipView>::empty());
        r
    }
}

impl Timeline {
    /// The clip with this id, or None if it is not on this timeline.
    pub fn clip(&self, clip_id: &str) -> (r: Option<&Clip>)
        ensures
            match r {
                Some(clip) => self@.clip_index(clip_id@) is Some && clip@
                    == self@.clips[self@.clip_index(clip_id@)->0] && 0 <= self@.clip_index(
                    clip_id@,
                )->0 < self@.clips.len() && clip@.id == clip_id@,
                None => self@.clip_index(clip_id@) is None,
            },
    {
        match find_clip(&self.clips, clip_id) {
            Some(i) => Some(&*self.clips[i]),
            None => None,
        }
    }

    /// The clip with this id, to write to, copied out of any snapshot that shares
    /// it.
    pub fn clip_mut(&mut self, clip_id: &str) -> (r: Option<&mut Clip>)
        ensures
            match r {
                Some(clip) => old(self)@.clip_index(clip_id@) matches Some(i) && clip@
                    == old(self)@.clips[i] && final(self)@ == old(self)@.with_clip(
                    i,
                    final(clip)@,
                ),
                None => old(self)@.clip_index(clip_id@) is None && final(self)@ == old(self)@,
            },
    {
        match find_clip(&self.clips, clip_id) {
            Some(i) => Some(self.clip_at_mut(i)),
            None => None,
        }
    }

    /// The clip at `index`, to write to, copied out of any snapshot that shares it.
    pub fn clip_at_mut(&mut self, index: usize) -> (r: &mut Clip)
        requires
            index < old(self).clips.len(),
        ensures
            r@ == old(self)@.clips[index as int],
            final(self)@ == old(self)@.with_clip(index as int, final(r)@),
    {
        own(&mut self.clips[index])
    }

    /// The track with this id, or None if it was removed.
    pub fn track(&self, track_id: &str) -> (r: Option<&Track>)
        ensures
            match r {
                Some(track) => self@.track_index(track_id@) is Some && track@
                    == self@.tracks[self@.track_index(track_id@)->0],
                None => self@.track_index(track_id@) is None,
            },
    {
        match find_track(&self.tracks, track_id) {
            Some(i) => Some(&self.tracks[i]),
            None => None,
        }
    }

    /// Writes a clip over the one at `index`. The one there stays with whoever
    /// still shares it.
    pub fn put_clip(&mut self, index: usize, clip: Clip)
        requires
            index < old(self).clips.len(),
        ensures
            final(self)@ == old(self)@.with_clip(index as int, clip@),
            final(self).clips.len() == old(self).clips.len(),
    {
        let ghost before = self.clips@;
        let shared: Arc<Clip> = Arc::new(clip);
        self.clips.set(index, shared);
        assert(clips_of(self.clips@) =~= clips_of(before).update(index as int, clip@));
    }

    /// Where the last clip ends. Zero for an empty timeline.
    pub fn duration(&self) -> (r: Number)
        ensures
            r == end_of(self@.clips),
    {
        let mut end: Number = num(ZERO);
        let mut i: usize = 0;
        assert(self@.clips.take(0) =~= Seq::<ClipView>::empty());
        while i < self.clips.len()
            invariant
                i <= self.clips.len(),
                end == end_of(self@.clips.take(i as int)),
            decreases self.clips.len() - i,
        {
            proof {
                assert(self@.clips.take(i as int + 1).drop_last() =~= self@.clips.take(i as int));
                assert(self@.clips.take(i as int + 1).last() == self.clips@[i as int]@);
            }
            end = end.max(self.clips[i].start.plus(self.clips[i].duration));
            i = i + 1;
        }
        assert(self@.clips.take(self@.clips.len() as int) =~= self@.clips);
        end
    }
}

} // verus!
