//! The bin: files and what is known of them.

use crate::model::picture::{is_option_finite, option_finite};
use crate::number::Number;
use vstd::prelude::*;

verus! {

/// What a piece of media is. A still is not a video with one frame: it has no
/// intrinsic duration.
#[derive(Clone, Copy, PartialEq, Eq, Debug, Structural)]
pub enum MediaKind {
    /// Moving pictures, with or without embedded sound.
    Video,
    /// Sound only; nothing to composite.
    Audio,
    /// A still, whose timeline length is editorial.
    Image,
}

impl Default for MediaKind {
    fn default() -> (r: MediaKind)
        ensures
            r == MediaKind::Video,
    {
        MediaKind::Video
    }
}

/// What made a media file, when it was the editor and not the user's import.
#[derive(Clone, Copy, PartialEq, Eq, Debug, Structural)]
pub enum MediaOrigin {
    /// Read aloud by the speech sheet.
    Speech,
    /// A clip's sound rendered as it played.
    Processed,
}

/// What a clip can be. Wider than [`MediaKind`] because a text clip has no file
/// behind it.
#[derive(Clone, Copy, PartialEq, Eq, Debug, Structural)]
pub enum ClipKind {
    /// A cut of a video media item.
    Video,
    /// A cut of audio, either audio media or sound detached from a video.
    Audio,
    /// A placed still.
    Image,
    /// A title.
    Text,
    /// A treatment over everything beneath it for as long as it runs.
    Layer,
}

impl ClipKind {
    /// True for the kinds that put pixels on screen.
    pub fn is_visual(self) -> (r: bool)
        ensures
            r == (self == ClipKind::Video || self == ClipKind::Image),
    {
        self == ClipKind::Video || self == ClipKind::Image
    }
}

/// The kind a clip of this media has.
pub open spec fn kind_of(kind: MediaKind) -> ClipKind {
    match kind {
        MediaKind::Video => ClipKind::Video,
        MediaKind::Audio => ClipKind::Audio,
        MediaKind::Image => ClipKind::Image,
    }
}

/// The kind a clip of this media has.
pub fn clip_kind(kind: MediaKind) -> (r: ClipKind)
    ensures
        r == kind_of(kind),
{
    match kind {
        MediaKind::Video => ClipKind::Video,
        MediaKind::Audio => ClipKind::Audio,
        MediaKind::Image => ClipKind::Image,
    }
}

/// The levels a media file's picture spans, when the person says so over
/// whatever the file claims.
#[derive(Clone, Copy, PartialEq, Eq, Debug, Structural)]
pub enum ColorRange {
    /// 16-235: what broadcast, cameras and every player expect.
    Limited,
    /// 0-255: what screen recorders and some phones write.
    Full,
}

/// One audio stream of a media file, as the probe reported it.
#[derive(Debug)]
pub struct AudioTrack {
    /// The stream's index within the file.
    pub index: u32,
    /// Codec short name, e.g. "aac".
    pub codec: String,
    /// Channel count: 1 mono, 2 stereo.
    pub channels: u32,
    /// Samples per second.
    pub sample_rate: u32,
    /// The name the file gives the track; empty otherwise.
    pub title: String,
    /// The track's language tag; empty when unstated.
    pub language: String,
}

/// What an audio stream says.
#[verifier::ext_equal]
pub struct AudioTrackView {
    pub index: u32,
    pub codec: Seq<char>,
    pub channels: u32,
    pub sample_rate: u32,
    pub title: Seq<char>,
    pub language: Seq<char>,
}

impl View for AudioTrack {
    type V = AudioTrackView;

    open spec fn view(&self) -> AudioTrackView {
        AudioTrackView {
            index: self.index,
            codec: self.codec@,
            channels: self.channels,
            sample_rate: self.sample_rate,
            title: self.title@,
            language: self.language@,
        }
    }
}

impl Clone for AudioTrack {
    fn clone(&self) -> (r: AudioTrack)
        ensures
            r@ == self@,
    {
        AudioTrack {
            index: self.index,
            codec: self.codec.clone(),
            channels: self.channels,
            sample_rate: self.sample_rate,
            title: self.title.clone(),
            language: self.language.clone(),
        }
    }
}

/// What a list of audio streams says.
pub open spec fn streams(tracks: Seq<AudioTrack>) -> Seq<AudioTrackView> {
    tracks.map_values(|t: AudioTrack| t@)
}

/// A copy of a list of audio streams.
pub fn copy_streams(tracks: &Vec<AudioTrack>) -> (r: Vec<AudioTrack>)
    ensures
        streams(r@) == streams(tracks@),
{
    let mut r: Vec<AudioTrack> = Vec::new();
    let mut i: usize = 0;
    while i < tracks.len()
        invariant
            i <= tracks.len(),
            r.len() == i,
            forall|j: int| 0 <= j < i ==> (#[trigger] r@[j])@ == tracks@[j]@,
        decreases tracks.len() - i,
    {
        r.push(tracks[i].clone());
        i = i + 1;
    }
    assert(streams(r@) =~= streams(tracks@));
    r
}

/// What an optional text says.
pub open spec fn text_of(text: Option<String>) -> Option<Seq<char>> {
    match text {
        Some(s) => Some(s@),
        None => None,
    }
}

/// A copy of an optional text.
pub fn copy_text(text: &Option<String>) -> (r: Option<String>)
    ensures
        text_of(r) == text_of(*text),
{
    match text {
        Some(s) => Some(s.clone()),
        None => None,
    }
}

/// Whether two optional texts are the same.
pub fn same_optional_text(a: &Option<String>, b: &Option<String>) -> (r: bool)
    ensures
        r == (text_of(*a) == text_of(*b)),
{
    match a {
        Some(x) => match b {
            Some(y) => *x == *y,
            None => false,
        },
        None => match b {
            Some(_) => false,
            None => true,
        },
    }
}

/// One entry in the media bin: a file the user imported, plus what the host's
/// probe learned about it.
#[derive(Debug)]
pub struct MediaItem {
    /// Minted by the editor and never re-issued.
    pub id: String,
    /// Absolute path on the user's disk. Doubles as the duplicate check.
    pub path: String,
    /// Display name in the bin.
    pub name: String,
    /// Seconds. None when the container did not say.
    pub duration: Option<Number>,
    /// What the probe decided the file is.
    pub kind: MediaKind,
    /// Pixel width, when the file has pictures.
    pub width: Option<u32>,
    /// Pixel height, same terms as `width`.
    pub height: Option<u32>,
    /// Frames per second as a decimal, for display.
    pub frame_rate: Option<Number>,
    /// The exact fraction, e.g. "30000/1001".
    pub frame_rate_fraction: Option<String>,
    /// Codec name as probed.
    pub video_codec: Option<String>,
    /// Codec of the embedded audio, when there is any.
    pub audio_codec: Option<String>,
    /// Whether the file carries an audio stream.
    pub has_audio: bool,
    /// Every audio stream the file carries, in file order.
    pub audio_tracks: Vec<AudioTrack>,
    /// True when this item is a template slot.
    pub placeholder: bool,
    /// The levels the picture is read as, over the file's own tag.
    pub color_range: Option<ColorRange>,
    /// Where the file came from when the editor made it.
    pub origin: Option<MediaOrigin>,
    /// Fields this build does not know, as the text they were read from.
    pub extra: String,
}

/// What a bin entry says.
#[verifier::ext_equal]
pub struct MediaView {
    pub id: Seq<char>,
    pub path: Seq<char>,
    pub name: Seq<char>,
    pub duration: Option<Number>,
    pub kind: MediaKind,
    pub width: Option<u32>,
    pub height: Option<u32>,
    pub frame_rate: Option<Number>,
    pub frame_rate_fraction: Option<Seq<char>>,
    pub video_codec: Option<Seq<char>>,
    pub audio_codec: Option<Seq<char>>,
    pub has_audio: bool,
    pub audio_tracks: Seq<AudioTrackView>,
    pub placeholder: bool,
    pub color_range: Option<ColorRange>,
    pub origin: Option<MediaOrigin>,
    pub extra: Seq<char>,
}

impl View for MediaItem {
    type V = MediaView;

    open spec fn view(&self) -> MediaView {
        MediaView {
            id: self.id@,
            path: self.path@,
            name: self.name@,
            duration: self.duration,
            kind: self.kind,
            width: self.width,
            height: self.height,
            frame_rate: self.frame_rate,
            frame_rate_fraction: text_of(self.frame_rate_fraction),
            video_codec: text_of(self.video_codec),
            audio_codec: text_of(self.audio_codec),
            has_audio: self.has_audio,
            audio_tracks: streams(self.audio_tracks@),
            placeholder: self.placeholder,
            color_range: self.color_range,
            origin: self.origin,
            extra: self.extra@,
        }
    }
}

impl Clone for MediaItem {
    fn clone(&self) -> (r: MediaItem)
        ensures
            r@ == self@,
    {
        MediaItem {
            id: self.id.clone(),
            path: self.path.clone(),
            name: self.name.clone(),
            duration: self.duration,
            kind: self.kind,
            width: self.width,
            height: self.height,
            frame_rate: self.frame_rate,
            frame_rate_fraction: copy_text(&self.frame_rate_fraction),
            video_codec: copy_text(&self.video_codec),
            audio_codec: copy_text(&self.audio_codec),
            has_audio: self.has_audio,
            audio_tracks: copy_streams(&self.audio_tracks),
            placeholder: self.placeholder,
            color_range: self.color_range,
            origin: self.origin,
            extra: self.extra.clone(),
        }
    }
}

/// A media item as probed by the host, before it has an id.
#[derive(Debug)]
pub struct NewMedia {
    /// Absolute path on the user's disk. Doubles as the duplicate check.
    pub path: String,
    /// Display name in the bin.
    pub name: String,
    /// Seconds. None when the container did not say.
    pub duration: Option<Number>,
    /// What the probe decided the file is.
    pub kind: MediaKind,
    /// Pixel width, when the file has pictures.
    pub width: Option<u32>,
    /// Pixel height, same terms as `width`.
    pub height: Option<u32>,
    /// Frames per second as a decimal, for display.
    pub frame_rate: Option<Number>,
    /// The exact fraction, e.g. "30000/1001".
    pub frame_rate_fraction: Option<String>,
    /// Codec name as probed.
    pub video_codec: Option<String>,
    /// Codec of the embedded audio, when there is any.
    pub audio_codec: Option<String>,
    /// Whether the file carries an audio stream.
    pub has_audio: bool,
    /// Every audio stream the file carries, in file order.
    pub audio_tracks: Vec<AudioTrack>,
    /// Where the file came from when the editor made it.
    pub origin: Option<MediaOrigin>,
}

/// What a probed file says.
#[verifier::ext_equal]
pub struct NewMediaView {
    pub path: Seq<char>,
    pub name: Seq<char>,
    pub duration: Option<Number>,
    pub kind: MediaKind,
    pub width: Option<u32>,
    pub height: Option<u32>,
    pub frame_rate: Option<Number>,
    pub frame_rate_fraction: Option<Seq<char>>,
    pub video_codec: Option<Seq<char>>,
    pub audio_codec: Option<Seq<char>>,
    pub has_audio: bool,
    pub audio_tracks: Seq<AudioTrackView>,
    pub origin: Option<MediaOrigin>,
}

impl View for NewMedia {
    type V = NewMediaView;

    open spec fn view(&self) -> NewMediaView {
        NewMediaView {
            path: self.path@,
            name: self.name@,
            duration: self.duration,
            kind: self.kind,
            width: self.width,
            height: self.height,
            frame_rate: self.frame_rate,
            frame_rate_fraction: text_of(self.frame_rate_fraction),
            video_codec: text_of(self.video_codec),
            audio_codec: text_of(self.audio_codec),
            has_audio: self.has_audio,
            audio_tracks: streams(self.audio_tracks@),
            origin: self.origin,
        }
    }
}

impl Clone for NewMedia {
    fn clone(&self) -> (r: NewMedia)
        ensures
            r@ == self@,
    {
        NewMedia {
            path: self.path.clone(),
            name: self.name.clone(),
            duration: self.duration,
            kind: self.kind,
            width: self.width,
            height: self.height,
            frame_rate: self.frame_rate,
            frame_rate_fraction: copy_text(&self.frame_rate_fraction),
            video_codec: copy_text(&self.video_codec),
            audio_codec: copy_text(&self.audio_codec),
            has_audio: self.has_audio,
            audio_tracks: copy_streams(&self.audio_tracks),
            origin: self.origin,
        }
    }
}

impl NewMediaView {
    /// The bin entry this file becomes under an id.
    pub open spec fn entry(self, id: Seq<char>) -> MediaView {
        MediaView {
            id,
            path: self.path,
            name: self.name,
            duration: self.duration,
            kind: self.kind,
            width: self.width,
            height: self.height,
            frame_rate: self.frame_rate,
            frame_rate_fraction: self.frame_rate_fraction,
            video_codec: self.video_codec,
            audio_codec: self.audio_codec,
            has_audio: self.has_audio,
            audio_tracks: self.audio_tracks,
            origin: self.origin,
            placeholder: false,
            color_range: None,
            extra: Seq::empty(),
        }
    }

    /// The bin entry a still of this file becomes under an id.
    pub open spec fn still(self, id: Seq<char>) -> MediaView {
        MediaView {
            kind: MediaKind::Image,
            audio_codec: None,
            has_audio: false,
            audio_tracks: Seq::empty(),
            ..self.entry(id)
        }
    }
}

impl MediaView {
    /// A slot with a file in it. The slot keeps its id, its levels and its
    /// origin.
    pub open spec fn filled(self, item: NewMediaView) -> MediaView {
        MediaView {
            path: item.path,
            name: item.name,
            duration: item.duration,
            kind: item.kind,
            width: item.width,
            height: item.height,
            frame_rate: item.frame_rate,
            frame_rate_fraction: item.frame_rate_fraction,
            video_codec: item.video_codec,
            audio_codec: item.audio_codec,
            has_audio: item.has_audio,
            audio_tracks: item.audio_tracks,
            placeholder: false,
            ..self
        }
    }

    /// A nameless entry is called by its path.
    pub open spec fn tidied(self) -> MediaView {
        if self.name.len() == 0 {
            MediaView { name: self.path, ..self }
        } else {
            self
        }
    }
}

impl NewMedia {
    /// The bin entry this file becomes under an id.
    pub fn into_entry(self, id: String) -> (r: MediaItem)
        ensures
            r@ == self@.entry(id@),
    {
        MediaItem {
            id,
            path: self.path,
            name: self.name,
            duration: self.duration,
            kind: self.kind,
            width: self.width,
            height: self.height,
            frame_rate: self.frame_rate,
            frame_rate_fraction: self.frame_rate_fraction,
            video_codec: self.video_codec,
            audio_codec: self.audio_codec,
            has_audio: self.has_audio,
            audio_tracks: self.audio_tracks,
            origin: self.origin,
            placeholder: false,
            color_range: None,
            extra: String::new(),
        }
    }

    /// The bin entry a still of this file becomes under an id.
    pub fn into_still(self, id: String) -> (r: MediaItem)
        ensures
            r@ == self@.still(id@),
    {
        let mut r: MediaItem = self.into_entry(id);
        r.kind = MediaKind::Image;
        r.audio_codec = None;
        r.has_audio = false;
        r.audio_tracks = Vec::new();
        assert(r@.audio_tracks =~= Seq::<AudioTrackView>::empty());
        r
    }

    /// Whether the numbers of the item are finite.
    pub fn is_finite(&self) -> (r: bool)
        ensures
            r == (option_finite(self.duration) && option_finite(self.frame_rate)),
    {
        is_option_finite(self.duration) && is_option_finite(self.frame_rate)
    }
}

/// The row of the stream with this index.
pub open spec fn row_of(tracks: Seq<AudioTrackView>, index: u32) -> Option<int> {
    if exists|i: int| is_row(tracks, index, i) {
        Some(choose|i: int| is_row(tracks, index, i))
    } else {
        None
    }
}

/// Whether `i` is the first row with this index.
pub open spec fn is_row(tracks: Seq<AudioTrackView>, index: u32, i: int) -> bool {
    0 <= i < tracks.len() && tracks[i].index == index && forall|j: int|
        0 <= j < i ==> (#[trigger] tracks[j]).index != index
}

impl MediaItem {
    /// Puts a file into this slot.
    pub fn fill(&mut self, item: NewMedia)
        ensures
            final(self)@ == old(self)@.filled(item@),
    {
        self.path = item.path;
        self.name = item.name;
        self.duration = item.duration;
        self.kind = item.kind;
        self.width = item.width;
        self.height = item.height;
        self.frame_rate = item.frame_rate;
        self.frame_rate_fraction = item.frame_rate_fraction;
        self.video_codec = item.video_codec;
        self.audio_codec = item.audio_codec;
        self.has_audio = item.has_audio;
        self.audio_tracks = item.audio_tracks;
        self.placeholder = false;
    }

    /// A nameless entry is called by its path.
    pub fn tidy(self) -> (r: MediaItem)
        ensures
            r@ == self@.tidied(),
    {
        let mut r: MediaItem = self;
        if r.name.as_str().is_empty() {
            r.name = r.path.clone();
        }
        r
    }

    /// Which row of `audio_tracks` a clip's stream is: the named stream's
    /// position, or the first row for a clip that names none or names a stream
    /// this file does not have.
    pub fn audio_track_position(&self, stream: Option<u32>) -> (r: usize)
        ensures
            match stream {
                Some(index) => match row_of(self@.audio_tracks, index) {
                    Some(i) => r == i,
                    None => r == 0,
                },
                None => r == 0,
            },
    {
        match stream {
            Some(index) => {
                let mut i: usize = 0;
                while i < self.audio_tracks.len()
                    invariant
                        i <= self.audio_tracks.len(),
                        stream == Some(index),
                        forall|j: int|
                            0 <= j < i ==> (#[trigger] self@.audio_tracks[j]).index != index,
                    decreases self.audio_tracks.len() - i,
                {
                    if self.audio_tracks[i].index == index {
                        proof {
                            assert(is_row(self@.audio_tracks, index, i as int));
                            let k = row_of(self@.audio_tracks, index)->0;
                            assert(is_row(self@.audio_tracks, index, k));
                            if k < i {
                                assert(self@.audio_tracks[k].index != index);
                            }
                            if i < k {
                                assert(self@.audio_tracks[i as int].index != index);
                            }
                            assert(self@.audio_tracks[i as int].index == index);
                            assert(k == i);
                        }
                        return i;
                    }
                    i = i + 1;
                }
                0
            },
            None => 0,
        }
    }
}

/// A font the user added from disk.
#[derive(Debug)]
pub struct CustomFont {
    /// The family name titles refer to.
    pub family: String,
    /// Where the font file lives on disk. Doubles as the duplicate check.
    pub path: String,
}

/// What a font says.
#[verifier::ext_equal]
pub struct FontView {
    pub family: Seq<char>,
    pub path: Seq<char>,
}

impl View for CustomFont {
    type V = FontView;

    open spec fn view(&self) -> FontView {
        FontView { family: self.family@, path: self.path@ }
    }
}

impl Clone for CustomFont {
    fn clone(&self) -> (r: CustomFont)
        ensures
            r@ == self@,
    {
        CustomFont { family: self.family.clone(), path: self.path.clone() }
    }
}

/// A media reference whose file is not there.
#[derive(Debug)]
pub struct MissingMedia {
    /// The media item's stable id.
    pub id: String,
    /// Display name in the bin.
    pub name: String,
    /// The path that no longer exists.
    pub path: String,
}

/// What a missing reference says.
#[verifier::ext_equal]
pub struct MissingView {
    pub id: Seq<char>,
    pub name: Seq<char>,
    pub path: Seq<char>,
}

impl View for MissingMedia {
    type V = MissingView;

    open spec fn view(&self) -> MissingView {
        MissingView { id: self.id@, name: self.name@, path: self.path@ }
    }
}

} // verus!
