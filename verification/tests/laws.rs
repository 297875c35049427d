//! What holds of every edit, on edits picked to try it.

use std::collections::HashSet;

use concat_edit::commands::clips::replace_clip_media;
use concat_edit::commands::command::{
    ClipMove, ClipPatch, Command, CommandError, Outcome, TrackFlag, TrimEdge,
};
use concat_edit::commands::joins::why_not_merge;
use concat_edit::commands::mint::IdMint;
use concat_edit::editor::{Editor as Session, UNDO_DEPTH};
use concat_edit::model::clip::Clip;
use concat_edit::model::ease::part_of_ease;
use concat_edit::model::filter::AppliedFilter;
use concat_edit::model::keys::{
    ease_in, ease_in_out, ease_out, linear, ClipKey, KeyEase, KeyProperty, ParamKey, SpeedPoint,
};
use concat_edit::model::media::{AudioTrack, ClipKind, MediaKind, NewMedia};
use concat_edit::model::picture::{BrushTool, Crop, Cutout, CutoutMode, Point, Stroke, Subject};
use concat_edit::model::project::Project;
use concat_edit::model::style::TextStyle;
use concat_edit::model::timeline::VideoSettings;
use concat_edit::number::Number;
use concat_edit::peaks::Pyramid;
use concat_edit::perf::workload::{
    came_out, cut_end, cut_media, every_other, gradient, lay_at_halves, lay_in_rows, published,
    spiked_peaks, step_back,
};
use concat_edit::prefetch::{Priority, Queue, Turn};
use concat_edit::ranges::wrap_rotation;
use concat_edit::relay::{formatted, relayed, Severity};
use concat_edit::single::Single;
use concat_edit::table::Table;
use concat_edit::text::next_numbered;

fn n(value: f64) -> Number {
    Number::from_bits(value.to_bits())
}

fn f(value: Number) -> f64 {
    f64::from_bits(value.to_bits())
}

fn said(project: &Project) -> String {
    format!("{:?}", project)
}

/// Every ride plays as what its property rests at.
fn still(_: &Vec<ParamKey>, _: Number, rest: Number) -> Number {
    rest
}

fn run(editor: &mut Session, command: Command) -> Result<Outcome, CommandError> {
    editor.apply(command, &still)
}

fn made(editor: &mut Session, command: Command) -> String {
    run(editor, command)
        .expect("applies")
        .created_id
        .expect("an id")
}

fn file(path: &str, sounds: usize) -> Command {
    Command::AddMedia {
        item: NewMedia {
            path: path.to_owned(),
            name: path.to_owned(),
            duration: Some(n(10.0)),
            kind: MediaKind::Video,
            width: Some(1920),
            height: Some(1080),
            frame_rate: Some(n(30.0)),
            frame_rate_fraction: Some("30/1".to_owned()),
            video_codec: Some("h264".to_owned()),
            audio_codec: Some("aac".to_owned()),
            has_audio: sounds > 0,
            audio_tracks: (0..sounds)
                .map(|index| AudioTrack {
                    index: index as u32,
                    codec: "aac".to_owned(),
                    channels: 2,
                    sample_rate: 48_000,
                    title: String::new(),
                    language: String::new(),
                })
                .collect(),
            origin: None,
        },
    }
}

/// A session with a file of two sounds and a clip of it on the first lane.
fn session() -> (Session, String, String) {
    let mut editor = Session::new();
    let media_id = made(&mut editor, file("/a.mp4", 2));
    let track_id = editor.project().active().tracks[0].id.clone();
    let clip_id = made(
        &mut editor,
        Command::AddClip {
            media_id: media_id.clone(),
            track_id,
            start: n(0.0),
            ripple: false,
        },
    );
    (editor, media_id, clip_id)
}

fn rename(clip_id: &str, name: &str) -> Command {
    Command::UpdateClip {
        clip_id: clip_id.to_owned(),
        patch: ClipPatch {
            name: Some(name.to_owned()),
            ..ClipPatch::default()
        },
    }
}

/// Whether no two things of a kind share an id, and nothing hangs.
fn sound(project: &Project) -> bool {
    let apart = |ids: Vec<&String>| {
        let count = ids.len();
        ids.into_iter().collect::<HashSet<_>>().len() == count
    };
    let bin: HashSet<&String> = project.media.iter().map(|item| &item.id).collect();
    apart(project.media.iter().map(|item| &item.id).collect())
        && apart(project.timelines.iter().map(|tab| &tab.id).collect())
        && project.timelines.iter().any(|tab| tab.id == project.active_timeline_id)
        && project.timelines.iter().all(|tab| {
            let lanes: HashSet<&String> = tab.tracks.iter().map(|track| &track.id).collect();
            !tab.tracks.is_empty()
                && apart(tab.tracks.iter().map(|track| &track.id).collect())
                && apart(tab.clips.iter().map(|clip| &clip.id).collect())
                && tab.clips.iter().all(|clip| {
                    lanes.contains(&clip.track_id)
                        && (clip.media_id.is_empty() || bin.contains(&clip.media_id))
                })
        })
}

// Refusals.

#[test]
fn a_refusal_changes_nothing() {
    let (mut editor, _, clip_id) = session();
    let before = said(editor.project());
    let lanes: Vec<String> = editor
        .project()
        .active()
        .tracks
        .iter()
        .map(|track| track.id.clone())
        .collect();
    for command in [
        Command::MergeClips {
            clip_ids: vec![clip_id.clone()],
        },
        Command::AddClip {
            media_id: "gone".to_owned(),
            track_id: lanes[0].clone(),
            start: n(0.0),
            ripple: true,
        },
        Command::RemoveTimeline {
            timeline_id: "TL1".to_owned(),
        },
        Command::Batch {
            commands: vec![
                rename(&clip_id, "half way"),
                Command::AddTrack,
                Command::MergeClips { clip_ids: vec![] },
            ],
        },
    ] {
        assert!(run(&mut editor, command).is_err());
        assert_eq!(said(editor.project()), before);
    }
}

#[test]
fn a_number_that_is_none_is_refused_however_deep_it_stands() {
    let (mut editor, _, clip_id) = session();
    let before = said(editor.project());
    let bad = Command::SetClipSpeed {
        clip_id: clip_id.clone(),
        speed: n(f64::NAN),
    };
    let deep = Command::Batch {
        commands: vec![
            rename(&clip_id, "never"),
            Command::Batch {
                commands: vec![bad],
            },
        ],
    };
    let still = match file("/still.jpg", 0) {
        Command::AddMedia { item } => NewMedia { frame_rate: Some(n(f64::INFINITY)), ..item },
        _ => unreachable!(),
    };
    let frozen = Command::FreezeFrame {
        clip_id: clip_id.clone(),
        time: n(2.0),
        duration: None,
        still: Some(still),
    };
    let style = TextStyle { background_radius: n(f64::NAN), ..TextStyle::default() };
    let titled = Command::AddTextClip {
        track_id: None,
        above: false,
        start: n(0.0),
        style: Some(style),
        duration: None,
        offset_y: None,
    };
    let curved = Command::SetClipSpeedCurve {
        clip_id,
        curve: Some(vec![SpeedPoint { at: n(0.0), speed: n(1.0) }]),
        mean: Some(n(f64::NAN)),
    };
    for command in [deep, frozen, titled, curved] {
        let error = run(&mut editor, command).expect_err("refused");
        assert!(matches!(error, CommandError::NotANumber), "{error:?}");
        assert_eq!(said(editor.project()), before);
    }
}

#[test]
fn a_batch_answers_for_its_commands() {
    let (mut editor, _, clip_id) = session();
    let idle = Command::RemoveClips {
        clip_ids: vec!["nobody".to_owned()],
        ripple: false,
    };
    let outcome = run(
        &mut editor,
        Command::Batch {
            commands: vec![idle, rename(&clip_id, "b"), Command::AddTrack],
        },
    )
    .expect("applies");
    assert!(outcome.applied);
    assert_eq!(
        outcome.created_id.as_deref(),
        editor.project().active().tracks.last().map(|track| track.id.as_str()),
        "the last id minted"
    );
    let outcome = run(&mut editor, Command::Batch { commands: vec![] }).expect("applies");
    assert!(!outcome.applied && outcome.created_id.is_none());
}

#[test]
fn the_last_lane_and_the_last_timeline_stay() {
    let mut editor = Session::new();
    let lanes: Vec<String> = editor
        .project()
        .active()
        .tracks
        .iter()
        .map(|track| track.id.clone())
        .collect();
    for (index, lane) in lanes.iter().enumerate() {
        let answer = run(
            &mut editor,
            Command::RemoveTrack {
                track_id: lane.clone(),
            },
        );
        assert_eq!(answer.is_ok(), index < 3);
    }
    assert_eq!(editor.project().active().tracks.len(), 1);
    assert!(run(
        &mut editor,
        Command::RemoveTimeline {
            timeline_id: "TL1".to_owned()
        }
    )
    .is_err());
    assert_eq!(editor.project().timelines.len(), 1);
}

// Ids, and what stands on what.

#[test]
fn ids_stay_apart_and_nothing_hangs() {
    let (mut editor, media_id, clip_id) = session();
    assert!(sound(editor.project()));
    let other = made(&mut editor, file("/b.mp4", 0));
    let lanes: Vec<String> = editor
        .project()
        .active()
        .tracks
        .iter()
        .map(|track| track.id.clone())
        .collect();
    let commands = vec![
        Command::DetachAudio {
            clip_id: clip_id.clone(),
        },
        Command::SplitClips {
            clip_ids: vec![clip_id.clone()],
            time: n(4.0),
        },
        Command::AddClip {
            media_id: other.clone(),
            track_id: lanes[0].clone(),
            start: n(2.0),
            ripple: true,
        },
        Command::AddTextClip {
            track_id: None,
            above: true,
            start: n(1.0),
            style: None,
            duration: None,
            offset_y: None,
        },
        Command::MoveClips {
            moves: vec![ClipMove {
                clip_id: clip_id.clone(),
                track_id: "nowhere".to_owned(),
                start: n(3.0),
            }],
        },
        Command::AddTimeline,
        Command::AddTrack,
        Command::SelectTimeline {
            timeline_id: "TL1".to_owned(),
        },
        Command::RemoveTrack {
            track_id: lanes[1].clone(),
        },
        Command::SetTrackFlag {
            track_id: lanes[0].clone(),
            flag: TrackFlag::Muted,
            value: true,
        },
        Command::RemoveMedia {
            media_id: other.clone(),
        },
        Command::RemoveTimeline {
            timeline_id: "TL1".to_owned(),
        },
    ];
    for command in commands {
        run(&mut editor, command).expect("applies");
        assert!(sound(editor.project()), "{}", said(editor.project()));
    }
    while editor.undo() {
        assert!(sound(editor.project()));
    }
    // What was minted before the undos is not minted again.
    let again = made(&mut editor, file("/c.mp4", 0));
    assert!(again != media_id && again != other);
    assert!(sound(editor.project()));
}

#[test]
fn a_restored_project_is_past_its_own_ids() {
    let (editor, media_id, clip_id) = session();
    let mut restored = Session::from_project(editor.project().clone()).expect("a timeline");
    let lane = restored.project().active().tracks[0].id.clone();
    let fresh = made(
        &mut restored,
        Command::AddClip {
            media_id,
            track_id: lane,
            start: n(20.0),
            ripple: false,
        },
    );
    assert_ne!(fresh, clip_id);
    assert!(sound(restored.project()));
}

#[test]
fn a_project_without_a_timeline_opens_no_session() {
    let mut project = Session::with_video(VideoSettings::default()).project().clone();
    project.timelines.clear();
    assert!(Session::from_project(project).is_none());
}

// What changes nothing.

#[test]
fn what_says_it_changed_nothing_changed_nothing() {
    let (mut editor, _, clip_id) = session();
    let before = said(editor.project());
    let clip = editor.project().active().clip(&clip_id).expect("there").clone();
    let lane = clip.track_id.clone();
    for command in [
        rename(&clip_id, clip.name.as_str()),
        Command::SetClipSpeed {
            clip_id: clip_id.clone(),
            speed: n(1.0),
        },
        Command::TrimClip {
            clip_id: clip_id.clone(),
            edge: TrimEdge::Start,
            delta: n(-1.0),
            ripple: false,
        },
        Command::SplitClips {
            clip_ids: vec![clip_id.clone()],
            time: n(40.0),
        },
        Command::MoveClips {
            moves: vec![ClipMove {
                clip_id: clip_id.clone(),
                track_id: lane.clone(),
                start: n(-2.0),
            }],
        },
        Command::ClearClipKeys {
            clip_id: clip_id.clone(),
            property: KeyProperty::Scale,
        },
        Command::MoveTimeline {
            timeline_id: "TL1".to_owned(),
            index: 7,
        },
        Command::RemoveMedia {
            media_id: "nobody".to_owned(),
        },
    ] {
        let outcome = run(&mut editor, command).expect("tolerated");
        assert!(!outcome.applied);
        assert_eq!(said(editor.project()), before);
    }
}

#[test]
fn a_zero_of_the_other_sign_changes_nothing() {
    let (editor, _, clip_id) = session();
    let mut editor = with_effect(&editor, AppliedFilter::new("glow".to_owned()));
    let key = |value: f64| Command::SetClipKey {
        clip_id: clip_id.clone(),
        property: KeyProperty::OffsetX,
        at: n(0.5),
        value: n(value),
        ease: linear(),
    };
    let knob = |value: f64| Command::SetEffectKey {
        clip_id: clip_id.clone(),
        entry: 0,
        key: "amount".to_owned(),
        at: n(0.5),
        value: n(value),
        ease: linear(),
    };
    assert!(run(&mut editor, key(0.0)).expect("keys").applied);
    assert!(run(&mut editor, knob(0.0)).expect("keys").applied);
    let before = said(editor.project());
    for command in [key(-0.0), knob(-0.0)] {
        let outcome = run(&mut editor, command).expect("keys");
        assert!(!outcome.applied);
        assert!(outcome.created_id.is_none());
        assert_eq!(said(editor.project()), before);
    }
    let clip = editor.project().active().clip(&clip_id).expect("there");
    assert!(f(clip.keys[0].value).is_sign_positive());
    let run = clip.video_effects[0].keys.get("amount").expect("a run");
    assert!(f(run[0].value).is_sign_positive());
}

/// A session like another, with an effect on the first clip's picture.
fn with_effect(editor: &Session, effect: AppliedFilter) -> Session {
    let mut project = editor.project().clone();
    let mut timeline = project.active().clone();
    let mut clip = (*timeline.clips[0]).clone();
    clip.video_effects = vec![effect];
    timeline.put_clip(0, clip);
    project.put_active(timeline);
    Session::from_project(project).expect("a timeline")
}

#[test]
fn a_run_without_keys_is_left_alone() {
    let (editor, _, clip_id) = session();
    let mut glow = AppliedFilter::new("glow".to_owned());
    glow.keys.set("amount".to_owned(), Vec::new());
    let mut editor = with_effect(&editor, glow);
    let before = said(editor.project());
    let outcome = run(
        &mut editor,
        Command::ClearEffectKeys {
            clip_id: clip_id.clone(),
            entry: 0,
            key: "amount".to_owned(),
        },
    )
    .expect("tolerated");
    assert!(!outcome.applied);
    assert!(outcome.created_id.is_none());
    assert_eq!(said(editor.project()), before);
    let clip = editor.project().active().clip(&clip_id).expect("there");
    assert!(clip.video_effects[0].keys.get("amount").is_some());
}

#[test]
fn a_file_taken_into_the_bin_is_a_change() {
    let (editor, media_id, clip_id) = session();
    let mut project = editor.project().clone();
    let item = match file("/b.mp4", 1) {
        Command::AddMedia { item } => item,
        _ => unreachable!(),
    };
    // A mint that has not seen the project gives the file the clip's own id.
    let outcome = replace_clip_media(&mut project, &mut IdMint::new(), &clip_id, item, None)
        .expect("replaces");
    assert!(outcome.applied);
    assert_eq!(outcome.created_id, Some(media_id));
    assert_eq!(project.media.len(), 2);
}

// There and back.

#[test]
fn the_pieces_of_a_cut_merge_again() {
    let (mut editor, _, clip_id) = session();
    let tail_id = made(
        &mut editor,
        Command::SplitClips {
            clip_ids: vec![clip_id.clone()],
            time: n(3.7),
        },
    );
    let active = editor.project().active();
    let (head, tail) = (
        active.clip(&clip_id).expect("the head"),
        active.clip(&tail_id).expect("the tail"),
    );
    assert_eq!(f(tail.start), f(head.start) + f(head.duration));
    assert_eq!(
        f(tail.source_start),
        f(head.source_start) + f(head.duration) * f(head.speed)
    );
    let merged = made(
        &mut editor,
        Command::MergeClips {
            clip_ids: vec![tail_id, clip_id.clone()],
        },
    );
    assert_eq!(merged, clip_id);
    let whole = editor.project().active().clip(&clip_id).expect("there");
    assert!((f(whole.duration) - 10.0).abs() < 1e-9);
}

#[test]
fn a_merge_gives_back_what_was_split() {
    for tail_first in [false, true] {
        let (mut editor, media_id, clip_id) = session();
        let lane = editor.project().active().tracks[0].id.clone();
        made(
            &mut editor,
            Command::AddClip {
                media_id,
                track_id: lane,
                start: n(20.0),
                ripple: false,
            },
        );
        run(
            &mut editor,
            Command::UpdateClip {
                clip_id: clip_id.clone(),
                patch: ClipPatch {
                    fade_in: Some(n(0.5)),
                    fade_out: Some(n(0.75)),
                    ..ClipPatch::default()
                },
            },
        )
        .expect("patches");
        let before = said(editor.project());
        let tail_id = made(
            &mut editor,
            Command::SplitClips {
                clip_ids: vec![clip_id.clone()],
                time: n(4.0),
            },
        );
        let clip_ids = if tail_first {
            vec![tail_id, clip_id.clone()]
        } else {
            vec![clip_id.clone(), tail_id]
        };
        let outcome = run(&mut editor, Command::MergeClips { clip_ids }).expect("merges");
        assert_eq!(outcome.created_id, Some(clip_id));
        assert!(outcome.applied);
        assert_eq!(said(editor.project()), before);
    }
}

#[test]
fn pieces_merge_in_whatever_order_they_are_named() {
    let (mut editor, _, clip_id) = session();
    let mut ids = vec![clip_id.clone()];
    for time in [2.0, 5.0] {
        let last = ids[ids.len() - 1].clone();
        ids.push(made(
            &mut editor,
            Command::SplitClips {
                clip_ids: vec![last],
                time: n(time),
            },
        ));
    }
    let active = editor.project().active();
    for order in [[0, 1, 2], [0, 2, 1], [1, 0, 2], [1, 2, 0], [2, 0, 1], [2, 1, 0]] {
        let named: Vec<String> = order.iter().map(|&index| ids[index].clone()).collect();
        assert_eq!(why_not_merge(active, &named), None);
    }
    for named in [[0, 2], [2, 0]] {
        let named: Vec<String> = named.iter().map(|&index| ids[index].clone()).collect();
        assert!(why_not_merge(active, &named).is_some(), "there is a gap");
    }
    let twice = vec![clip_id.clone(), clip_id];
    assert!(why_not_merge(active, &twice).is_some(), "it starts with itself");
}

#[test]
fn reattaching_takes_detaching_back() {
    let (mut editor, _, clip_id) = session();
    let clips = format!("{:?}", editor.project().active().clips);
    run(
        &mut editor,
        Command::DetachAudio {
            clip_id: clip_id.clone(),
        },
    )
    .expect("detaches");
    assert_eq!(editor.project().active().clips.len(), 3);
    let outcome = run(
        &mut editor,
        Command::ReattachAudio {
            clip_id: clip_id.clone(),
        },
    )
    .expect("reattaches");
    assert!(outcome.applied);
    assert_eq!(format!("{:?}", editor.project().active().clips), clips);
}

#[test]
fn a_ripple_moves_only_what_follows_on_its_lane() {
    let (mut editor, media_id, clip_id) = session();
    let lanes: Vec<String> = editor
        .project()
        .active()
        .tracks
        .iter()
        .map(|track| track.id.clone())
        .collect();
    let add = |track: &str, start: f64| Command::AddClip {
        media_id: media_id.clone(),
        track_id: track.to_owned(),
        start: n(start),
        ripple: false,
    };
    let doomed = made(&mut editor, add(&lanes[0], 10.0));
    let behind = made(&mut editor, add(&lanes[0], 20.0));
    let aside = made(&mut editor, add(&lanes[1], 20.0));
    run(
        &mut editor,
        Command::RemoveClips {
            clip_ids: vec![doomed],
            ripple: true,
        },
    )
    .expect("removes");
    let start = |id: &str| f(editor.project().active().clip(id).expect("there").start);
    assert_eq!(
        (start(&clip_id), start(&behind), start(&aside)),
        (0.0, 10.0, 20.0)
    );
}

// Sharing.

#[test]
fn what_is_written_stays_out_of_what_shares_it() {
    let (editor, _, clip_id) = session();
    let snapshot = editor.project().clone();
    let mut project = editor.project().clone();
    project.active_mut().name = "Cut".to_owned();
    project.active_mut().clip_mut(&clip_id).expect("there").name = "One".to_owned();
    assert!(project.active_mut().clip_mut("nobody").is_none());
    project.active_mut().clip_at_mut(0).muted = Some(true);
    assert_eq!(project.active().name, "Cut");
    assert_eq!(project.active().clips[0].name, "One");
    assert_eq!(project.active().clips[0].muted, Some(true));
    assert_eq!(snapshot.active().clips[0].name, "/a.mp4");
    assert_ne!(snapshot.active().clips[0].muted, Some(true));
    assert_eq!(said(&snapshot), said(editor.project()));
}

#[test]
fn a_track_holds_the_keys_of_its_property_alone() {
    let (mut editor, _, clip_id) = session();
    for (property, at, value) in [
        (KeyProperty::Scale, 0.5, 2.0),
        (KeyProperty::Opacity, 0.25, 0.5),
        (KeyProperty::Scale, 0.25, 1.5),
    ] {
        run(
            &mut editor,
            Command::SetClipKey {
                clip_id: clip_id.clone(),
                property,
                at: n(at),
                value: n(value),
                ease: linear(),
            },
        )
        .expect("keys");
    }
    let clip = &editor.project().active().clips[0];
    let track: Vec<(f64, f64)> = clip
        .track_on(KeyProperty::Scale)
        .iter()
        .map(|key| (f(key.at), f(key.value)))
        .collect();
    assert_eq!(track, vec![(0.25, 1.5), (0.5, 2.0)]);
    assert!(clip.track_on(KeyProperty::Rotation).is_empty());
}

// Files, tabs and lanes.

#[test]
fn a_magnetic_drop_covers_nothing() {
    let (mut editor, media_id, _) = session();
    let lane = editor.project().active().tracks[0].id.clone();
    for start in [30.0, 12.0, 4.0, 0.0, 21.0] {
        made(
            &mut editor,
            Command::AddClip {
                media_id: media_id.clone(),
                track_id: lane.clone(),
                start: n(start),
                ripple: true,
            },
        );
    }
    let mut spans: Vec<(f64, f64)> = editor
        .project()
        .active()
        .clips
        .iter()
        .map(|clip| (f(clip.start), f(clip.start) + f(clip.duration)))
        .collect();
    spans.sort_by(|a, b| a.0.total_cmp(&b.0));
    assert_eq!(spans.len(), 6);
    for pair in spans.windows(2) {
        assert!(pair[0].1 <= pair[1].0, "{spans:?}");
    }
}

#[test]
fn a_drop_before_the_start_lands_at_it_and_makes_room() {
    let (mut editor, media_id, clip_id) = session();
    let lane = editor.project().active().tracks[0].id.clone();
    let dropped = made(
        &mut editor,
        Command::AddClip {
            media_id,
            track_id: lane,
            start: n(-10.0),
            ripple: true,
        },
    );
    let active = editor.project().active();
    let clip = active.clip(&dropped).expect("the dropped one");
    assert_eq!((f(clip.start), f(clip.duration)), (0.0, 10.0));
    assert_eq!(f(active.clip(&clip_id).expect("the other").start), 10.0);
}

#[test]
fn an_unknown_file_takes_nothing_with_it() {
    let mut editor = Session::new();
    made(
        &mut editor,
        Command::AddTextClip {
            track_id: None,
            above: false,
            start: n(0.0),
            style: None,
            duration: None,
            offset_y: None,
        },
    );
    let before = said(editor.project());
    let outcome = run(
        &mut editor,
        Command::RemoveMedia {
            media_id: String::new(),
        },
    )
    .expect("tolerated");
    assert_eq!((outcome.created_id, outcome.applied), (None, false));
    assert_eq!(said(editor.project()), before);
}

#[test]
fn a_gap_counts_once_however_many_leave_it() {
    let (mut editor, media_id, clip_id) = session();
    let lane = editor.project().active().tracks[0].id.clone();
    let mut ids = vec![clip_id];
    for start in [4.0, 12.0, 40.0] {
        ids.push(made(
            &mut editor,
            Command::AddClip {
                media_id: media_id.clone(),
                track_id: lane.clone(),
                start: n(start),
                ripple: false,
            },
        ));
    }
    // 0 to 10, 4 to 14 and 12 to 22 are 22 seconds together.
    let last = ids.pop().expect("the one that stays");
    run(
        &mut editor,
        Command::RemoveClips {
            clip_ids: ids,
            ripple: true,
        },
    )
    .expect("removes");
    let active = editor.project().active();
    assert_eq!(f(active.clip(&last).expect("there").start), 18.0);
}

#[test]
fn a_trim_stays_on_its_lane() {
    for ripple in [false, true] {
        for edge in [TrimEdge::Start, TrimEdge::End] {
            let (mut editor, media_id, clip_id) = session();
            let lanes: Vec<String> = editor
                .project()
                .active()
                .tracks
                .iter()
                .map(|track| track.id.clone())
                .collect();
            for lane in [&lanes[0], &lanes[1]] {
                made(
                    &mut editor,
                    Command::AddClip {
                        media_id: media_id.clone(),
                        track_id: lane.clone(),
                        start: n(10.0),
                        ripple: false,
                    },
                );
            }
            run(&mut editor, Command::TrimClip { clip_id, edge, delta: n(2.0), ripple })
                .expect("trims");
            let clips = &editor.project().active().clips;
            let starts: Vec<f64> = clips.iter().map(|clip| f(clip.start)).collect();
            let wanted = match (edge, ripple) {
                (TrimEdge::Start, false) => vec![2.0, 10.0, 10.0],
                (TrimEdge::Start, true) => vec![0.0, 8.0, 10.0],
                (TrimEdge::End, false) => vec![0.0, 10.0, 10.0],
                (TrimEdge::End, true) => vec![0.0, 12.0, 10.0],
            };
            assert_eq!(starts, wanted);
        }
    }
}

#[test]
fn a_tab_is_never_blank() {
    let mut editor = Session::new();
    let timeline_id = editor.project().active().id.clone();
    for name in ["", "   ", "\t\n\u{3000}", "  Cut  "] {
        run(
            &mut editor,
            Command::RenameTimeline { timeline_id: timeline_id.clone(), name: name.to_owned() },
        )
        .expect("tolerated");
        assert!(!editor.project().active().name.trim().is_empty());
    }
    assert_eq!(editor.project().active().name, "Cut");
    made(&mut editor, Command::AddTimeline);
    assert_eq!(editor.project().active().name, "Timeline 1");
}

#[test]
fn a_path_is_taken_in_once() {
    let mut editor = Session::new();
    made(&mut editor, file("/a.mp4", 1));
    let before = said(editor.project());
    let again = run(&mut editor, file("/a.mp4", 2)).expect("tolerated");
    assert!(!again.applied && again.created_id.is_none());
    assert_eq!(said(editor.project()), before);
    let font = |family: &str| Command::AddFont {
        family: family.to_owned(),
        path: "/face.ttf".to_owned(),
    };
    assert!(run(&mut editor, font("Face")).expect("adds").applied);
    assert!(!run(&mut editor, font("Other")).expect("tolerated").applied);
    assert_eq!(editor.project().fonts.len(), 1);
}

#[test]
fn keys_stay_in_order_and_an_ease_is_made_legal() {
    let mut clip = Clip::blank(
        "c1".to_owned(),
        "t1".to_owned(),
        ClipKind::Video,
        "a".to_owned(),
        n(0.0),
        n(4.0),
    );
    for (property, at) in [
        (KeyProperty::Volume, 0.5),
        (KeyProperty::Scale, 0.9),
        (KeyProperty::Scale, 0.1),
        (KeyProperty::Volume, -3.0),
        (KeyProperty::Scale, 0.1005),
    ] {
        clip.set_key(property, n(at), n(1.0), linear());
    }
    let held: Vec<(KeyProperty, f64)> =
        clip.keys.iter().map(|key| (key.property, f(key.at))).collect();
    assert_eq!(
        held,
        vec![
            (KeyProperty::Scale, 0.1005),
            (KeyProperty::Scale, 0.9),
            (KeyProperty::Volume, 0.0),
            (KeyProperty::Volume, 0.5),
        ]
    );
    assert!(clip.clear_key(KeyProperty::Volume, n(0.0)));
    assert_eq!(clip.keys.len(), 3);
    let wild = KeyEase { x1: n(-2.0), y1: n(-2.0), x2: n(7.0), y2: n(7.0) }.sane();
    assert_eq!([f(wild.x1), f(wild.y1), f(wild.x2), f(wild.y2)], [0.0, -2.0, 1.0, 7.0]);
    let lost = KeyEase { x1: n(f64::NAN), ..wild }.sane();
    assert_eq!([f(lost.x1), f(lost.y1), f(lost.x2), f(lost.y2)], [0.0, 0.0, 1.0, 1.0]);
}

#[test]
fn a_title_is_called_by_a_short_label() {
    let mut editor = Session::new();
    let mut called = |content: &str| {
        made(
            &mut editor,
            Command::AddTextClip {
                track_id: None,
                above: false,
                start: n(0.0),
                style: Some(TextStyle { content: content.to_owned(), ..TextStyle::default() }),
                duration: None,
                offset_y: None,
            },
        );
        editor.project().active().clips.last().expect("placed").name.clone()
    };
    assert_eq!(called(" \n \t\n"), "Text");
    assert_eq!(called("\n  Two words \nmore"), "Two words");
    assert_eq!(called(&"x".repeat(90)), "x".repeat(40));
}

#[test]
fn a_filled_slot_keeps_the_timing() {
    let (mut editor, media_id, clip_id) = session();
    run(
        &mut editor,
        Command::TrimClip {
            clip_id,
            edge: TrimEdge::End,
            delta: n(-4.0),
            ripple: false,
        },
    )
    .expect("trims");
    run(
        &mut editor,
        Command::SetMediaPlaceholder { media_id: media_id.clone(), placeholder: true },
    )
    .expect("marks");
    let was = editor.project().active().clips[0].clone();
    let item = match file("/b.mp4", 1) {
        Command::AddMedia { item } => item,
        _ => unreachable!(),
    };
    run(&mut editor, Command::FillSlot { media_id, item }).expect("fills");
    let is = &editor.project().active().clips[0];
    assert_eq!(is.name, "/b.mp4");
    assert_eq!(is.id, was.id);
    assert_eq!(is.track_id, was.track_id);
    assert_eq!(f(is.start), f(was.start));
    assert_eq!(f(is.duration), 6.0);
    assert_eq!(f(is.speed), f(was.speed));
}

#[test]
fn a_file_takes_its_clips_from_every_timeline() {
    let (mut editor, media_id, _) = session();
    let other = made(&mut editor, file("/b.mp4", 1));
    made(&mut editor, Command::AddTimeline);
    for id in [&media_id, &other, &media_id] {
        made(
            &mut editor,
            Command::AddClipAtFirstFree { media_id: id.clone(), start: n(0.0) },
        );
    }
    run(&mut editor, Command::RemoveMedia { media_id: media_id.clone() }).expect("removes");
    let left: Vec<usize> = editor
        .project()
        .timelines
        .iter()
        .map(|tab| tab.clips.len())
        .collect();
    assert_eq!(left, vec![0, 1]);
    assert_eq!(editor.project().timelines[1].clips[0].media_id, other);
}

#[test]
fn a_moved_tab_keeps_the_selection() {
    let (mut editor, _, _) = session();
    let second = made(&mut editor, Command::AddTimeline);
    let third = made(&mut editor, Command::AddTimeline);
    run(&mut editor, Command::SelectTimeline { timeline_id: second.clone() }).expect("selects");
    for (timeline_id, index) in [(&second, 0), (&third, 0), (&second, 9), (&second, 1)] {
        run(
            &mut editor,
            Command::MoveTimeline { timeline_id: timeline_id.clone(), index },
        )
        .expect("moves");
        assert_eq!(editor.project().active().id, second);
        assert_eq!(editor.project().timelines.len(), 3);
    }
}

#[test]
fn a_clip_takes_the_first_free_lane_and_a_caption_the_one_above_all() {
    let (mut editor, media_id, _) = session();
    let lanes: Vec<String> = editor
        .project()
        .active()
        .tracks
        .iter()
        .map(|track| track.id.clone())
        .collect();
    let lane_of = |editor: &Session, id: &str| {
        editor
            .project()
            .active()
            .clips
            .iter()
            .find(|clip| clip.id == id)
            .map(|clip| clip.track_id.clone())
            .expect("placed")
    };
    made(
        &mut editor,
        Command::AddClip {
            media_id: media_id.clone(),
            track_id: lanes[2].clone(),
            start: n(0.0),
            ripple: false,
        },
    );
    let clip = made(
        &mut editor,
        Command::AddClipAtFirstFree { media_id: media_id.clone(), start: n(5.0) },
    );
    assert_eq!(lane_of(&editor, &clip), lanes[1]);
    let caption = |start: f64| Command::AddTextClip {
        track_id: None,
        above: true,
        start: n(start),
        style: None,
        duration: Some(n(2.0)),
        offset_y: None,
    };
    let first = made(&mut editor, caption(1.0));
    assert_eq!(lane_of(&editor, &first), lanes[3]);
    let second = made(&mut editor, caption(2.0));
    assert!(!lanes.contains(&lane_of(&editor, &second)));
    assert_eq!(editor.project().active().tracks.len(), lanes.len() + 1);
    let later = made(&mut editor, caption(40.0));
    assert_eq!(lane_of(&editor, &later), lanes[0]);
}

// History.

#[test]
fn undo_and_redo_take_each_other_back() {
    let (mut editor, _, clip_id) = session();
    let before = said(editor.project());
    run(&mut editor, rename(&clip_id, "named")).expect("renames");
    let after = said(editor.project());
    assert!(editor.undo());
    assert_eq!(said(editor.project()), before);
    assert!(editor.redo());
    assert_eq!(said(editor.project()), after);
    assert!(!editor.redo(), "nothing further forward");
    assert!(editor.undo());
    assert_eq!(said(editor.project()), before);
    // An edit ends what could be redone.
    run(&mut editor, rename(&clip_id, "else")).expect("renames");
    assert!(!editor.can_redo());
}

#[test]
fn a_gesture_folds_until_it_ends() {
    let (mut editor, _, clip_id) = session();
    let before = said(editor.project());
    for name in ["a", "ab", "abc"] {
        editor
            .apply_within(Some("typing"), rename(&clip_id, name), &still)
            .expect("renames");
    }
    let typed = said(editor.project());
    editor.end_gesture();
    assert_eq!(said(editor.project()), typed, "ending it changes nothing else");
    editor
        .apply_within(Some("typing"), rename(&clip_id, "abcd"), &still)
        .expect("renames");
    assert!(editor.undo());
    assert_eq!(said(editor.project()), typed);
    assert!(editor.undo());
    assert_eq!(said(editor.project()), before);
}

#[test]
fn a_step_between_ends_a_gesture() {
    let (mut editor, _, clip_id) = session();
    let scaled = |scale: f64| Command::SetClipTransform {
        clip_id: clip_id.clone(),
        scale: Some(n(scale)),
        offset_x: None,
        offset_y: None,
        rotation: None,
        stretch_x: None,
        stretch_y: None,
    };
    editor.apply_within(Some("s"), scaled(1.1), &still).expect("scales");
    editor.apply(scaled(1.2), &still).expect("scales");
    assert!(editor.undo());
    editor.apply_within(Some("s"), scaled(1.3), &still).expect("scales");
    assert!(editor.undo());
    let scale = editor.project().active().clip(&clip_id).expect("there").scale;
    assert_eq!(f(scale), 1.1);
}

#[test]
fn history_goes_as_far_back_as_it_says() {
    let (mut editor, _, clip_id) = session();
    for index in 0..UNDO_DEPTH + 20 {
        run(&mut editor, rename(&clip_id, &format!("{index}"))).expect("renames");
    }
    let mut steps = 0;
    while editor.undo() {
        steps += 1;
    }
    assert_eq!(steps, UNDO_DEPTH);
}

#[test]
fn what_is_no_edit_leaves_no_step() {
    let (mut editor, _, _) = session();
    while editor.undo() {}
    assert!(editor.can_redo());
    run(
        &mut editor,
        Command::SelectTimeline {
            timeline_id: "TL1".to_owned(),
        },
    )
    .expect("selects");
    run(
        &mut editor,
        Command::RemoveClips {
            clip_ids: vec![],
            ripple: true,
        },
    )
    .expect("tolerated");
    assert!(run(&mut editor, Command::MergeClips { clip_ids: vec![] }).is_err());
    assert!(!editor.can_undo() && editor.can_redo());
}

// Tidiness.

fn ragged() -> Clip {
    let (editor, _, clip_id) = session();
    let mut clip = editor.project().active().clip(&clip_id).expect("there").clone();
    clip.start = n(-4.0);
    clip.duration = n(f64::NAN);
    clip.volume = n(-1.0);
    clip.scale = n(900.0);
    clip.rotation = n(725.0);
    clip.opacity = n(f64::INFINITY);
    clip.speed = n(0.0);
    clip.muted = Some(false);
    clip.speed_curve = Some(vec![
        SpeedPoint {
            at: n(2.0),
            speed: n(1.0),
        },
        SpeedPoint {
            at: n(0.25),
            speed: n(99.0),
        },
    ]);
    let key = |property: KeyProperty, at: f64, value: f64| ClipKey {
        property,
        at: n(at),
        value: n(value),
        ease: linear(),
    };
    clip.keys = vec![
        key(KeyProperty::Opacity, 0.5, 3.0),
        key(KeyProperty::Scale, 0.9, 1.0),
        key(KeyProperty::Scale, 0.1, 0.0),
        key(KeyProperty::Scale, 1.5, 1.0),
        key(KeyProperty::Volume, 0.5, f64::NAN),
    ];
    clip.crop = Some(Crop {
        left: n(0.6),
        top: n(-1.0),
        right: n(0.6),
        bottom: n(2.0),
    });
    clip.cutout = Some(Cutout {
        mode: CutoutMode::Custom,
        subject: Subject::Auto,
        feather: n(4.0),
        strokes: vec![
            Stroke {
                tool: BrushTool::Brush,
                size: n(9.0),
                points: vec![
                    Point {
                        x: n(f64::NAN),
                        y: n(0.0),
                    },
                    Point {
                        x: n(7.0),
                        y: n(-7.0),
                    },
                ],
                at: Some(n(-1.0)),
            },
            Stroke {
                tool: BrushTool::Brush,
                size: n(0.1),
                points: vec![],
                at: None,
            },
        ],
    });
    clip.video_effects = vec![AppliedFilter::new("glow".to_owned())];
    clip
}

#[test]
fn a_tidied_clip_is_in_range_and_stays_tidied() {
    let tidy = ragged().tidy();
    assert_eq!(f(tidy.start), 0.0);
    assert_eq!(f(tidy.duration), 1.0);
    assert_eq!(f(tidy.volume), 0.0);
    assert_eq!(f(tidy.scale), 8.0);
    assert_eq!(f(tidy.rotation), 5.0);
    assert_eq!(f(tidy.opacity), 1.0);
    assert_eq!(f(tidy.speed), 0.0625);
    assert_eq!(tidy.muted, None);
    let curve = tidy.speed_curve.as_ref().expect("a point is left");
    assert_eq!((curve.len(), f(curve[0].speed)), (1, 16.0));
    let keys: Vec<(KeyProperty, f64, f64)> = tidy
        .keys
        .iter()
        .map(|key| (key.property, f(key.at), f(key.value)))
        .collect();
    assert_eq!(
        keys,
        vec![
            (KeyProperty::Scale, 0.1, 0.05),
            (KeyProperty::Scale, 0.9, 1.0),
            (KeyProperty::Opacity, 0.5, 1.0),
        ]
    );
    let crop = tidy.crop.expect("something is cut");
    assert_eq!(
        (f(crop.left), f(crop.top), f(crop.bottom)),
        (0.6, 0.0, 0.9)
    );
    assert_eq!(f(crop.right), 0.9 - 0.6);
    let cutout = tidy.cutout.as_ref().expect("a cutout");
    assert_eq!(f(cutout.feather), 0.1);
    assert_eq!(cutout.strokes.len(), 1);
    assert_eq!(f(cutout.strokes[0].size), 0.5);
    assert_eq!(cutout.strokes[0].at.map(f), Some(0.0));
    assert_eq!(
        cutout.strokes[0]
            .points
            .iter()
            .map(|point| (f(point.x), f(point.y)))
            .collect::<Vec<_>>(),
        vec![(1.5, -0.5)]
    );
    let said = format!("{:?}", tidy);
    assert_eq!(format!("{:?}", tidy.tidy()), said);
}

#[test]
fn what_is_no_number_is_tidied_away() {
    let mut clip = ragged();
    clip.crop = Some(Crop {
        left: n(f64::NAN),
        top: n(0.0),
        right: n(0.0),
        bottom: n(0.0),
    });
    let bent = KeyEase {
        x1: n(f64::NAN),
        ..linear()
    };
    clip.keys = vec![ClipKey {
        property: KeyProperty::Scale,
        at: n(0.5),
        value: n(2.0),
        ease: bent,
    }];
    let mut glow = AppliedFilter::new("glow".to_owned());
    glow.params.set("amount".to_owned(), n(f64::INFINITY));
    glow.params.set("radius".to_owned(), n(4.0));
    glow.keys.set(
        "radius".to_owned(),
        vec![ParamKey {
            at: n(0.25),
            value: n(1.0),
            ease: bent,
        }],
    );
    clip.video_effects = vec![glow];
    let tidy = clip.tidy();
    assert!(tidy.crop.is_none());
    let straight = format!("{:?}", linear());
    assert_eq!(format!("{:?}", tidy.keys[0].ease), straight);
    let glow = &tidy.video_effects[0];
    assert!(glow.params.get("amount").is_none());
    assert_eq!(glow.params.get("radius").copied().map(f), Some(4.0));
    let run = glow.keys.get("radius").expect("a run");
    assert_eq!(format!("{:?}", run[0].ease), straight);
}

#[test]
fn whole_degrees_are_wrapped_once() {
    for degrees in [
        0.0, -0.0, 1.0, -1.0, 179.0, 180.0, 181.0, -180.0, -181.0, 359.0, 360.0, 725.0, -725.0, 1e9,
        -1e15, 1e300,
    ] {
        let once = wrap_rotation(n(degrees));
        assert_eq!(wrap_rotation(once).to_bits(), once.to_bits(), "{degrees}");
        let mut clip = ragged();
        clip.rotation = n(degrees);
        let tidy = clip.tidy();
        let said = format!("{:?}", tidy);
        assert_eq!(format!("{:?}", tidy.tidy()), said);
    }
}

#[test]
fn a_table_stands_in_order_of_name() {
    let mut table: Table<u8> = Table::new();
    for (name, value) in [("wet", 1), ("a", 2), ("Amount", 3), ("\u{e9}", 4), ("ab", 5), ("", 6)] {
        table.set(name.to_owned(), value);
    }
    table.set("a".to_owned(), 7);
    let held: Vec<(String, u8)> = table.entries().clone();
    let mut expected: Vec<(String, u8)> = [
        ("wet", 1),
        ("a", 7),
        ("Amount", 3),
        ("\u{e9}", 4),
        ("ab", 5),
        ("", 6),
    ]
    .iter()
    .map(|&(name, value)| (name.to_owned(), value))
    .collect();
    expected.sort();
    assert_eq!(held, expected);
    assert_eq!(table.take("ab"), Some(5));
    assert_eq!(table.take("ab"), None);
    assert_eq!(table.get("a"), Some(&7));
    assert_eq!(table.entries().len(), 5);
}

#[test]
fn only_digits_count_as_a_number() {
    let named = |names: &[&str]| -> Vec<String> {
        names.iter().map(|name| (*name).to_owned()).collect()
    };
    assert_eq!(next_numbered("Track", &named(&["Track +5"])), "Track 1");
    assert_eq!(next_numbered("Track", &named(&["Track 5", "Track +9", "Track 6x"])), "Track 6");
    assert_eq!(next_numbered("Track", &named(&["Track ", "Track"])), "Track 1");
}

#[test]
fn a_straight_run_plays_the_same_in_a_window() {
    // A straight line between keys, and the end values beyond them.
    let line = |keys: &Vec<ParamKey>, at: Number, _: Number| -> Number {
        let at = f(at);
        let last = keys.len() - 1;
        if at <= f(keys[0].at) {
            return keys[0].value;
        }
        for index in 0..last {
            let (here, there) = (&keys[index], &keys[index + 1]);
            if at <= f(there.at) {
                let part = (at - f(here.at)) / (f(there.at) - f(here.at));
                return n(f(here.value) + part * (f(there.value) - f(here.value)));
            }
        }
        keys[last].value
    };
    let mut clip = ragged().tidy();
    let points = [(0.1, 1.0), (0.4, 4.0), (0.55, 0.5), (0.9, 2.0)];
    clip.keys = points
        .iter()
        .map(|&(at, value)| ClipKey {
            property: KeyProperty::Scale,
            at: n(at),
            value: n(value),
            ease: linear(),
        })
        .collect();
    let run = |clip: &Clip| -> Vec<ParamKey> {
        clip.keys
            .iter()
            .map(|key| ParamKey {
                at: key.at,
                value: key.value,
                ease: key.ease,
            })
            .collect()
    };
    let old = run(&clip);
    for (from, to) in [(0.0, 10.0), (2.5, 7.0), (0.0, 3.0), (6.0, 10.0), (4.5, 5.0), (-5.0, 20.0)] {
        let mut piece = clip.clone();
        piece.rewindow_keys(n(10.0), n(from), n(to), &line);
        let new = run(&piece);
        assert!(new.windows(2).all(|pair| f(pair[0].at) <= f(pair[1].at)));
        for step in 0..=40 {
            let part = step as f64 / 40.0;
            let there = (from + part * (to - from)) / 10.0;
            let now = f(line(&new, n(part), n(1.0)));
            let then = f(line(&old, n(there), n(1.0)));
            assert!((now - then).abs() < 1e-9, "{from} to {to} at {part}: {now}, was {then}");
        }
        piece.keys = clip.keys.clone();
        assert_eq!(format!("{:?}", piece), format!("{:?}", clip), "nothing else moved");
    }
}

/// The height of the ease of one key, some of the way to it gone.
fn eased(ease: KeyEase, x: f64) -> f64 {
    let sane = ease.sane();
    let bezier = |p: f64, q: f64, t: f64| {
        let s = 1.0 - t;
        3.0 * p * s * s * t + 3.0 * q * s * t * t + t * t * t
    };
    let (mut low, mut high) = (0.0, 1.0);
    for _ in 0..200 {
        let middle = (low + high) / 2.0;
        if bezier(f(sane.x1), f(sane.x2), middle) <= x {
            low = middle;
        } else {
            high = middle;
        }
    }
    bezier(f(sane.y1), f(sane.y2), low)
}

/// Every key approached by its ease, and the end values beyond the ends.
fn curved(keys: &Vec<ParamKey>, at: Number, rest: Number) -> Number {
    let at = f(at);
    if keys.is_empty() {
        return rest;
    }
    if at <= f(keys[0].at) {
        return keys[0].value;
    }
    for pair in keys.windows(2) {
        let (here, there) = (&pair[0], &pair[1]);
        if at <= f(there.at) && f(here.at) < f(there.at) {
            let part = (at - f(here.at)) / (f(there.at) - f(here.at));
            let height = eased(there.ease, part);
            return n(f(here.value) + height * (f(there.value) - f(here.value)));
        }
    }
    keys[keys.len() - 1].value
}

fn run_of(clip: &Clip, property: KeyProperty) -> Vec<ParamKey> {
    clip.keys
        .iter()
        .filter(|key| key.property == property)
        .map(|key| ParamKey {
            at: key.at,
            value: key.value,
            ease: key.ease,
        })
        .collect()
}

fn near(found: KeyEase, x1: f64, y1: f64, x2: f64, y2: f64) -> bool {
    (f(found.x1) - x1).abs() < 1e-9
        && (f(found.y1) - y1).abs() < 1e-9
        && (f(found.x2) - x2).abs() < 1e-9
        && (f(found.y2) - y2).abs() < 1e-9
}

#[test]
fn a_part_of_an_ease_is_the_stretch_of_its_curve() {
    // Both halves of the slow-fast-slow ease, cut where it is half way.
    assert!(near(part_of_ease(ease_in_out(), n(0.0), n(0.5)), 0.42, 0.0, 0.71, 0.5));
    assert!(near(part_of_ease(ease_in_out(), n(0.5), n(1.0)), 0.29, 0.5, 0.58, 1.0));
    // All of it is it, and part of a line is the line.
    for (from, to) in [(0.0, 1.0), (-1.0, 2.0)] {
        assert!(near(part_of_ease(ease_in_out(), n(from), n(to)), 0.42, 0.0, 0.58, 1.0));
    }
    assert!(near(part_of_ease(linear(), n(0.25), n(0.75)), 0.0, 0.0, 1.0, 1.0));
    // What has no curve is a line, and so is nothing of a curve.
    let lost = KeyEase { y1: n(f64::NAN), ..ease_in() };
    assert!(near(part_of_ease(lost, n(0.25), n(0.75)), 0.0, 0.0, 1.0, 1.0));
    assert!(near(part_of_ease(ease_in(), n(0.5), n(0.5)), 0.0, 0.0, 1.0, 1.0));
    // A part plays what the whole did over that stretch.
    let backed = KeyEase { x1: n(0.3), y1: n(-0.6), x2: n(0.7), y2: n(1.6) };
    for ease in [ease_in(), ease_out(), ease_in_out(), backed] {
        for (from, to) in [(0.0, 0.4), (0.3, 1.0), (0.2, 0.9), (0.49, 0.51)] {
            let part = part_of_ease(ease, n(from), n(to));
            let (low, high) = (eased(ease, from), eased(ease, to));
            for step in 0..=20 {
                let x = step as f64 / 20.0;
                let whole = eased(ease, from + x * (to - from));
                let found = low + eased(part, x) * (high - low);
                assert!((found - whole).abs() < 1e-9, "{from} to {to} at {x}: {found}, was {whole}");
            }
        }
    }
}

#[test]
fn an_eased_run_plays_the_same_in_a_window() {
    let mut clip = ragged().tidy();
    let key = |property: KeyProperty, at: f64, value: f64, ease: KeyEase| ClipKey {
        property,
        at: n(at),
        value: n(value),
        ease,
    };
    clip.keys = vec![
        key(KeyProperty::Scale, 0.1, 1.0, linear()),
        key(KeyProperty::Scale, 0.4, 4.0, ease_in()),
        key(KeyProperty::Scale, 0.5, 0.5, ease_out()),
        key(KeyProperty::Scale, 0.9, 2.0, ease_in_out()),
        key(KeyProperty::Opacity, 0.0, 0.0, linear()),
        key(KeyProperty::Opacity, 1.0, 1.0, ease_in_out()),
    ];
    let mut glow = AppliedFilter::new("glow".to_owned());
    glow.keys.set(
        "amount".to_owned(),
        [(0.0, 3.0, linear()), (0.6, 9.0, ease_in()), (1.0, 5.0, ease_in_out())]
            .iter()
            .map(|&(at, value, ease)| ParamKey { at: n(at), value: n(value), ease })
            .collect(),
    );
    clip.filters = vec![glow.clone()];
    clip.video_effects = vec![glow];
    let runs = |clip: &Clip| -> Vec<Vec<ParamKey>> {
        vec![
            run_of(clip, KeyProperty::Scale),
            run_of(clip, KeyProperty::Opacity),
            clip.filters[0].keys.get("amount").expect("a run").clone(),
            clip.video_effects[0].keys.get("amount").expect("a run").clone(),
        ]
    };
    let old = runs(&clip);
    for (from, to) in [
        (0.0, 10.0),
        (0.0, 5.0),
        (5.0, 10.0),
        (2.5, 7.5),
        (6.0, 8.0),
        (4.0, 9.0),
        (-5.0, 20.0),
    ] {
        let mut piece = clip.clone();
        piece.rewindow_keys(n(10.0), n(from), n(to), &curved);
        let new = runs(&piece);
        for (now, then) in new.iter().zip(old.iter()) {
            assert!(now.windows(2).all(|pair| f(pair[0].at) <= f(pair[1].at)));
            for step in 1..40 {
                let part = step as f64 / 40.0;
                let there = (from + part * (to - from)) / 10.0;
                let found = f(curved(now, n(part), n(1.0)));
                let was = f(curved(then, n(there), n(1.0)));
                assert!((found - was).abs() < 1e-6, "{from} to {to} at {part}: {found}, was {was}");
            }
        }
        assert_eq!(run_of(&piece, KeyProperty::Rotation).len(), 0);
        piece.keys = clip.keys.clone();
        piece.filters = clip.filters.clone();
        piece.video_effects = clip.video_effects.clone();
        assert_eq!(format!("{:?}", piece), format!("{:?}", clip), "nothing else moved");
    }
}

#[test]
fn a_fade_cut_in_half_is_as_slow_as_it_was() {
    let (mut editor, _, clip_id) = session();
    for (at, value, ease) in [(0.0, 0.0, linear()), (1.0, 1.0, ease_in_out())] {
        let command = Command::SetClipKey {
            clip_id: clip_id.clone(),
            property: KeyProperty::Opacity,
            at: n(at),
            value: n(value),
            ease,
        };
        assert!(editor.apply(command, &curved).expect("keys").applied);
    }
    let opacity = |editor: &Session, id: &str, at: f64| {
        let clip = editor.project().active().clip(id).expect("there");
        f(curved(&run_of(clip, KeyProperty::Opacity), n(at), n(1.0)))
    };
    assert!((opacity(&editor, &clip_id, 0.25) - 0.12916193104731985).abs() < 1e-9);
    let split = Command::SplitClips {
        clip_ids: vec![clip_id.clone()],
        time: n(5.0),
    };
    let tail_id = editor
        .apply(split, &curved)
        .expect("splits")
        .created_id
        .expect("a tail");
    assert!((opacity(&editor, &clip_id, 0.5) - 0.12916193104731985).abs() < 1e-6);
    assert!((opacity(&editor, &tail_id, 0.5) - (1.0 - 0.12916193104731985)).abs() < 1e-6);
    let merge = Command::MergeClips {
        clip_ids: vec![clip_id.clone(), tail_id],
    };
    assert!(editor.apply(merge, &curved).expect("merges").applied);
    for step in 0..=20 {
        let at = step as f64 / 20.0;
        let whole = eased(ease_in_out(), at);
        assert!((opacity(&editor, &clip_id, at) - whole).abs() < 1e-6, "at {at}");
    }
}

#[test]
fn a_merge_gets_an_eased_ride_back() {
    let points = [(0.0, 0.0, linear()), (0.5, 1.0, ease_in()), (1.0, 0.25, ease_in_out())];
    let ride: Vec<ParamKey> = points
        .iter()
        .map(|&(at, value, ease)| ParamKey { at: n(at), value: n(value), ease })
        .collect();
    // Before a key, on it, after it, and in three.
    for cuts in [vec![2.0], vec![5.0], vec![7.7], vec![1.5, 6.5]] {
        let (editor, _, clip_id) = session();
        let mut glow = AppliedFilter::new("glow".to_owned());
        glow.keys.set("amount".to_owned(), ride.clone());
        let mut editor = with_effect(&editor, glow);
        for &(at, value, ease) in &points {
            let command = Command::SetClipKey {
                clip_id: clip_id.clone(),
                property: KeyProperty::Opacity,
                at: n(at),
                value: n(value),
                ease,
            };
            assert!(editor.apply(command, &curved).expect("keys").applied);
        }
        let mut pieces = vec![clip_id.clone()];
        for &time in &cuts {
            let split = Command::SplitClips {
                clip_ids: vec![pieces[pieces.len() - 1].clone()],
                time: n(time),
            };
            let outcome = editor.apply(split, &curved).expect("splits");
            pieces.push(outcome.created_id.expect("a tail"));
        }
        let merge = Command::MergeClips { clip_ids: pieces };
        assert!(editor.apply(merge, &curved).expect("merges").applied);
        let clip = editor.project().active().clip(&clip_id).expect("there");
        let fade = run_of(clip, KeyProperty::Opacity);
        let knob = clip.video_effects[0].keys.get("amount").expect("a run").clone();
        for step in 0..=100 {
            let at = step as f64 / 100.0;
            let was = f(curved(&ride, n(at), n(1.0)));
            for run in [&fade, &knob] {
                let found = f(curved(run, n(at), n(1.0)));
                assert!((found - was).abs() < 1e-6, "cut at {cuts:?}, at {at}: {found}, was {was}");
            }
        }
    }
}

#[test]
fn a_wrapped_rotation_lies_in_half_a_turn_either_way() {
    for degrees in [
        0.0, -0.0, 180.0, -180.0, 180.5, 359.9, -359.9, 540.0, -540.0, 1e9, -1e9, 1e300, 1e-300,
        -340.1809096410736,
    ] {
        let wrapped = f(wrap_rotation(n(degrees)));
        assert!(wrapped > -180.0 && wrapped <= 180.0, "{degrees} went to {wrapped}");
    }
    // There are rotations that a second wrapping moves.
    let once = wrap_rotation(n(-340.1809096410736));
    assert_ne!(f(wrap_rotation(once)), f(once));
}

#[test]
fn an_edit_leaves_a_tidy_clip() {
    let (mut editor, _, clip_id) = session();
    run(
        &mut editor,
        Command::UpdateClip {
            clip_id: clip_id.clone(),
            patch: ClipPatch {
                fade_in: Some(n(-3.0)),
                name: Some("tidy".to_owned()),
                ..ClipPatch::default()
            },
        },
    )
    .expect("patches");
    let clip = editor.project().active().clip(&clip_id).expect("there");
    assert_eq!(f(clip.fade_in), 0.0);
    assert_eq!(clip.name, "tidy");
}

// The work that is timed.

#[test]
fn a_cut_is_laid_in_rows_and_closes_up() {
    let mut editor = Session::new();
    let media_id = made(
        &mut editor,
        Command::AddMedia {
            item: cut_media("/perf/ripple.mp4", "ripple.mp4", n(1.0)),
        },
    );
    let lanes: Vec<String> = editor
        .project()
        .active()
        .tracks
        .iter()
        .map(|track| track.id.clone())
        .collect();
    let ids = lay_in_rows(&mut editor, &media_id, &lanes, 40, &still).expect("lays");
    assert_eq!(ids.len(), 40);
    for (index, id) in ids.iter().enumerate() {
        let clip = editor.project().active().clip(id).expect("there");
        assert_eq!(clip.track_id, lanes[index % 4]);
        assert_eq!(f(clip.start), (index / 4) as f64);
    }
    assert_eq!(f(cut_end(editor.project())), 10.0);
    let doomed = every_other(&ids);
    assert_eq!(doomed.len(), 20);
    assert_eq!((&doomed[0], &doomed[19]), (&ids[0], &ids[38]));
    run(
        &mut editor,
        Command::RemoveClips {
            clip_ids: doomed,
            ripple: true,
        },
    )
    .expect("removes");
    assert_eq!(editor.project().active().clips.len(), 20);
    let lost = lay_in_rows(&mut editor, "gone", &lanes, 3, &still);
    assert!(matches!(lost, Err(CommandError::MediaGone)), "{lost:?}");
}

#[test]
fn a_cut_laid_at_halves_is_taken_back_step_by_step() {
    let mut editor = Session::new();
    let media_id = made(
        &mut editor,
        Command::AddMedia {
            item: cut_media("/perf/clip.mp4", "clip.mp4", n(10.0)),
        },
    );
    let ids = lay_at_halves(&mut editor, &media_id, 12, &still).expect("lays");
    let starts: Vec<f64> = editor
        .project()
        .active()
        .clips
        .iter()
        .map(|clip| f(clip.start))
        .collect();
    assert_eq!(ids.len(), 12);
    assert_eq!(starts, (0..12).map(|index| index as f64 * 0.5).collect::<Vec<_>>());
    assert!(step_back(&mut editor, 12));
    assert!(editor.project().active().clips.is_empty());
    assert!(!step_back(&mut editor, 2), "one step was left");
    assert!(editor.project().media.is_empty());
}

#[test]
fn a_window_publishes_what_reaches_into_it() {
    let clips: Vec<(Number, Number)> = (0..10).map(|at| (n(at as f64), n(1.0))).collect();
    assert_eq!(published(&clips, n(3.5), n(5.0)), 3);
    assert_eq!(published(&clips, n(-9.0), n(-0.5)), 0);
    assert_eq!(published(&clips, n(0.0), n(100.0)), 10);
}

#[test]
fn a_gradient_has_something_everywhere() {
    let picture = gradient(4, 2, 100);
    assert_eq!(picture.len(), 32);
    assert_eq!(&picture[..8], &[0, 0, 44, 255, 63, 0, 44, 255]);
    assert_eq!(&picture[28..], &[191, 127, 44, 255]);
    assert!(gradient(0, 9, 1).is_empty());
}

#[test]
fn one_frame_may_stay_in_the_delay() {
    assert!(came_out(90, 90) && came_out(89, 90) && came_out(91, 90));
    assert!(!came_out(88, 90));
}

#[test]
fn every_column_of_a_spiked_hour_has_sound() {
    let single = |value: f32| Single { bits: value.to_bits() };
    let pyramid = Pyramid::of(spiked_peaks(36_000, 997, single(10.0)));
    let level = pyramid.level_for(single(3600.0 / 64.0));
    for column in 0..64 {
        let from = column as f32 * 3600.0 / 64.0;
        let (low, high) = level.extremes(single(from), single(from + 3600.0 / 64.0));
        assert!(f32::from_bits(high.bits) >= 0.2 && f32::from_bits(low.bits) <= -0.2);
    }
}

// The log, and the counters of the queue.

#[test]
fn a_line_is_an_error_only_where_it_is_fatal() {
    assert!(formatted(24, 24) && !formatted(32, 24));
    let (severity, text) = relayed(8, "no memory \n").expect("kept");
    assert_eq!((severity, text.as_str()), (Severity::Error, "no memory"));
    let (severity, text) = relayed(16, " mmco: unref short failure\n").expect("kept");
    assert_eq!(
        (severity, text.as_str()),
        (Severity::Debug, " mmco: unref short failure")
    );
    assert!(relayed(0, " \t\n").is_none());
}

/// A job that fails is counted as finished: the next one runs, and the queue
/// drains rather than waiting on a counter nothing brings down.
#[test]
fn a_panicking_job_does_not_take_the_worker_with_it() {
    let mut queue = Queue::new(1);
    let jobs: [fn() -> Result<(), &'static str>; 2] = [|| Err("a bad job"), || Ok(())];
    queue.submit(Priority::Artwork, 0);
    queue.submit(Priority::Artwork, 1);
    let mut ran = 0;
    while let Turn::Run(priority, job) = queue.work() {
        if jobs[job as usize]().is_ok() {
            ran += 1;
        }
        queue.finish(priority);
    }
    assert!(queue.drained());
    assert_eq!(ran, 1, "the job after the panic ran");
    assert_eq!(queue.counters(), (0, 0, 0), "the counters came back down");
}
