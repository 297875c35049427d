//! The work the scenarios time: cuts laid clip by clip, the clips a window shows,
//! a picture with something in it everywhere, an hour of peaks.

use crate::commands::apply::{placing_step, stepped};
use crate::commands::clips::end;
use crate::commands::command::{Command, CommandError, Outcome};
use crate::editor::{edited, Editor, EditorView};
use crate::find::lemma_filter_step;
use crate::model::clip::{Clip, ClipView};
use crate::model::keys::ParamKey;
use crate::model::media::{MediaKind, NewMedia, NewMediaView};
use crate::model::project::Project;
use crate::model::ride::{plays, ride_of, Ride};
use crate::model::timeline::clips_of;
use crate::number::{larger, num, product, sum, whole, Number, HALF, ZERO};
use crate::peaks::Peaks;
use crate::single::{single, Single};
use std::sync::Arc;
use vstd::prelude::*;

verus! {

// Cuts.

/// The file a cut is laid from: a video of this many seconds and no sound.
pub fn cut_media(path: &str, name: &str, seconds: Number) -> (r: NewMedia)
    ensures
        r@ == (NewMediaView {
            path: path@,
            name: name@,
            duration: Some(seconds),
            kind: MediaKind::Video,
            width: Some(1920),
            height: Some(1080),
            frame_rate: Some(num(THIRTY)),
            frame_rate_fraction: Some("30/1"@),
            video_codec: Some("h264"@),
            audio_codec: None,
            has_audio: false,
            audio_tracks: Seq::empty(),
            origin: None,
        }),
{
    let r: NewMedia = NewMedia {
        path: path.to_owned(),
        name: name.to_owned(),
        duration: Some(seconds),
        kind: MediaKind::Video,
        width: Some(1920),
        height: Some(1080),
        frame_rate: Some(num(THIRTY)),
        frame_rate_fraction: Some("30/1".to_owned()),
        video_codec: Some("h264".to_owned()),
        audio_codec: None,
        has_audio: false,
        audio_tracks: Vec::new(),
        origin: None,
    };
    assert(r@.audio_tracks =~= Seq::empty());
    r
}

/// Thirty.
pub const THIRTY: u64 = 0x403e_0000_0000_0000;

/// Whether these states follow one another by these commands, each of which
/// created the id beside it.
pub open spec fn laid(
    states: Seq<EditorView>,
    commands: Seq<Command>,
    ids: Seq<String>,
    ride: Ride,
) -> bool {
    &&& states.len() == commands.len() + 1
    &&& ids.len() == commands.len()
    &&& forall|k: int|
        0 <= k < commands.len() ==> made(
            states[k],
            #[trigger] commands[k],
            states[k + 1],
            ids[k]@,
            ride,
        )
}

/// Whether a command made one state into another and created this id.
pub open spec fn made(
    start: EditorView,
    command: Command,
    after: EditorView,
    id: Seq<char>,
    ride: Ride,
) -> bool {
    exists|outcome: Outcome| #[trigger]
        outcome@.created_id == Some(id) && edited(
            start,
            None,
            command,
            ride,
            after,
            Ok::<Outcome, CommandError>(outcome),
        )
}

/// Whether a command puts the `k`th clip of a cut laid in rows: one to each lane
/// in turn, and a second on with every row.
pub open spec fn in_rows(
    command: Command,
    k: int,
    media_id: Seq<char>,
    lanes: Seq<String>,
) -> bool {
    command matches Command::AddClip { media_id: file, track_id, start, ripple } && file@
        == media_id && track_id@ == lanes[k % lanes.len() as int]@ && start == whole(
        k / lanes.len() as int,
    ) && !ripple
}

/// Whether a command puts the `k`th clip of a cut laid half a second apart, each on
/// the first free lane.
pub open spec fn at_halves(command: Command, k: int, media_id: Seq<char>) -> bool {
    command matches Command::AddClipAtFirstFree { media_id: file, start } && file@ == media_id
        && start == product(whole(k), num(HALF))
}

proof fn lemma_placed_is_created(
    start: EditorView,
    command: Command,
    ride: Ride,
    after: EditorView,
    outcome: Outcome,
)
    requires
        command is AddClip || command is AddClipAtFirstFree,
        edited(start, None, command, ride, after, Ok::<Outcome, CommandError>(outcome)),
    ensures
        outcome@.created_id is Some,
{
    reveal(placing_step);
}

/// Whether a session laid these clips in rows.
pub open spec fn laid_in_rows(
    start: EditorView,
    after: EditorView,
    media_id: Seq<char>,
    lanes: Seq<String>,
    ids: Seq<String>,
    ride: Ride,
) -> bool {
    exists|states: Seq<EditorView>, commands: Seq<Command>| #[trigger]
        laid(states, commands, ids, ride) && states[0] == start && states.last() == after
            && rows(commands, media_id, lanes)
}

pub open spec fn rows(commands: Seq<Command>, media_id: Seq<char>, lanes: Seq<String>) -> bool {
    forall|k: int| 0 <= k < commands.len() ==> in_rows(#[trigger] commands[k], k, media_id, lanes)
}

/// Whether a session laid some of these clips in rows and was refused the next.
pub open spec fn refused_in_rows(
    start: EditorView,
    after: EditorView,
    media_id: Seq<char>,
    lanes: Seq<String>,
    count: nat,
    error: CommandError,
    ride: Ride,
) -> bool {
    exists|between: EditorView, ids: Seq<String>, last: Command| #[trigger]
        laid_in_rows(start, between, media_id, lanes, ids, ride) && ids.len() < count
            && #[trigger] in_rows(last, ids.len() as int, media_id, lanes) && edited(
            between,
            None,
            last,
            ride,
            after,
            Err::<Outcome, CommandError>(error),
        )
}

/// Whether a session laid these clips half a second apart.
pub open spec fn laid_at_halves(
    start: EditorView,
    after: EditorView,
    media_id: Seq<char>,
    ids: Seq<String>,
    ride: Ride,
) -> bool {
    exists|states: Seq<EditorView>, commands: Seq<Command>| #[trigger]
        laid(states, commands, ids, ride) && states[0] == start && states.last() == after
            && halves(commands, media_id)
}

pub open spec fn halves(commands: Seq<Command>, media_id: Seq<char>) -> bool {
    forall|k: int| 0 <= k < commands.len() ==> at_halves(#[trigger] commands[k], k, media_id)
}

/// Whether a session laid some of these clips half a second apart and was refused
/// the next.
pub open spec fn refused_at_halves(
    start: EditorView,
    after: EditorView,
    media_id: Seq<char>,
    count: nat,
    error: CommandError,
    ride: Ride,
) -> bool {
    exists|between: EditorView, ids: Seq<String>, last: Command| #[trigger]
        laid_at_halves(start, between, media_id, ids, ride) && ids.len() < count
            && #[trigger] at_halves(last, ids.len() as int, media_id) && edited(
            between,
            None,
            last,
            ride,
            after,
            Err::<Outcome, CommandError>(error),
        )
}

/// Lays `count` clips of a file in rows over these lanes, each row a second after
/// the one before. Gives back the ids of the clips, or what refused one.
pub fn lay_in_rows<F: Fn(&Vec<ParamKey>, Number, Number) -> Number>(
    editor: &mut Editor,
    media_id: &str,
    lanes: &Vec<String>,
    count: usize,
    engine: &F,
) -> (r: Result<Vec<String>, CommandError>)
    requires
        old(editor)@.sound(),
        plays(*engine),
        lanes.len() > 0,
    ensures
        final(editor)@.sound(),
        match r {
            Ok(ids) => ids.len() == count && laid_in_rows(
                old(editor)@,
                final(editor)@,
                media_id@,
                lanes@,
                ids@,
                ride_of(*engine),
            ),
            Err(error) => refused_in_rows(
                old(editor)@,
                final(editor)@,
                media_id@,
                lanes@,
                count as nat,
                error,
                ride_of(*engine),
            ),
        },
{
    let ghost ride = ride_of(*engine);
    let ghost start = editor@;
    let ghost mut states: Seq<EditorView> = seq![editor@];
    let ghost mut commands: Seq<Command> = Seq::empty();
    let mut ids: Vec<String> = Vec::new();
    let mut index: usize = 0;
    while index < count
        invariant
            index <= count,
            lanes.len() > 0,
            plays(*engine),
            ride == ride_of(*engine),
            editor@.sound(),
            start == old(editor)@,
            states[0] == start,
            states.last() == editor@,
            commands.len() == index,
            laid(states, commands, ids@, ride),
            rows(commands, media_id@, lanes@),
        decreases count - index,
    {
        let command: Command = Command::AddClip {
            media_id: media_id.to_owned(),
            track_id: lanes[index % lanes.len()].clone(),
            start: Number::from_count((index / lanes.len()) as u64),
            ripple: false,
        };
        let ghost asked = command;
        let ghost before = editor@;
        assert(in_rows(asked, index as int, media_id@, lanes@));
        match editor.apply(command, engine) {
            Ok(outcome) => {
                proof {
                    lemma_placed_is_created(before, asked, ride, editor@, outcome);
                }
                let ghost whole_outcome = outcome;
                match outcome.created_id {
                    Some(id) => {
                        proof {
                            assert(whole_outcome@.created_id == Some(id@));
                            assert(made(before, asked, editor@, id@, ride));
                            states = states.push(editor@);
                            commands = commands.push(asked);
                        }
                        let ghost held = ids@;
                        ids.push(id);
                        proof {
                            assert forall|k: int| 0 <= k < commands.len() implies made(
                                states[k],
                                #[trigger] commands[k],
                                states[k + 1],
                                ids@[k]@,
                                ride,
                            ) by {
                                if k < index {
                                    assert(commands[k] == commands.drop_last()[k]);
                                    assert(ids@[k] == held[k]);
                                }
                            }
                        }
                    },
                    None => {},
                }
            },
            Err(error) => {
                assert(laid_in_rows(start, before, media_id@, lanes@, ids@, ride));
                assert(in_rows(asked, ids@.len() as int, media_id@, lanes@));
                return Err(error);
            },
        }
        index = index + 1;
    }
    assert(laid_in_rows(start, editor@, media_id@, lanes@, ids@, ride));
    Ok(ids)
}

/// Lays `count` clips of a file half a second apart, each on the first free lane.
/// Gives back the ids of the clips, or what refused one.
pub fn lay_at_halves<F: Fn(&Vec<ParamKey>, Number, Number) -> Number>(
    editor: &mut Editor,
    media_id: &str,
    count: usize,
    engine: &F,
) -> (r: Result<Vec<String>, CommandError>)
    requires
        old(editor)@.sound(),
        plays(*engine),
    ensures
        final(editor)@.sound(),
        match r {
            Ok(ids) => ids.len() == count && laid_at_halves(
                old(editor)@,
                final(editor)@,
                media_id@,
                ids@,
                ride_of(*engine),
            ),
            Err(error) => refused_at_halves(
                old(editor)@,
                final(editor)@,
                media_id@,
                count as nat,
                error,
                ride_of(*engine),
            ),
        },
{
    let ghost ride = ride_of(*engine);
    let ghost start = editor@;
    let ghost mut states: Seq<EditorView> = seq![editor@];
    let ghost mut commands: Seq<Command> = Seq::empty();
    let mut ids: Vec<String> = Vec::new();
    let mut index: usize = 0;
    while index < count
        invariant
            index <= count,
            plays(*engine),
            ride == ride_of(*engine),
            editor@.sound(),
            start == old(editor)@,
            states[0] == start,
            states.last() == editor@,
            commands.len() == index,
            laid(states, commands, ids@, ride),
            halves(commands, media_id@),
        decreases count - index,
    {
        let command: Command = Command::AddClipAtFirstFree {
            media_id: media_id.to_owned(),
            start: Number::from_count(index as u64).times(num(HALF)),
        };
        let ghost asked = command;
        let ghost before = editor@;
        assert(at_halves(asked, index as int, media_id@));
        match editor.apply(command, engine) {
            Ok(outcome) => {
                proof {
                    lemma_placed_is_created(before, asked, ride, editor@, outcome);
                }
                let ghost whole_outcome = outcome;
                match outcome.created_id {
                    Some(id) => {
                        proof {
                            assert(whole_outcome@.created_id == Some(id@));
                            assert(made(before, asked, editor@, id@, ride));
                            states = states.push(editor@);
                            commands = commands.push(asked);
                        }
                        let ghost held = ids@;
                        ids.push(id);
                        proof {
                            assert forall|k: int| 0 <= k < commands.len() implies made(
                                states[k],
                                #[trigger] commands[k],
                                states[k + 1],
                                ids@[k]@,
                                ride,
                            ) by {
                                if k < index {
                                    assert(commands[k] == commands.drop_last()[k]);
                                    assert(ids@[k] == held[k]);
                                }
                            }
                        }
                    },
                    None => {},
                }
            },
            Err(error) => {
                assert(laid_at_halves(start, before, media_id@, ids@, ride));
                assert(at_halves(asked, ids@.len() as int, media_id@));
                return Err(error);
            },
        }
        index = index + 1;
    }
    assert(laid_at_halves(start, editor@, media_id@, ids@, ride));
    Ok(ids)
}

/// A session this many steps back.
pub open spec fn back(editor: EditorView, steps: nat) -> EditorView
    decreases steps,
{
    if steps == 0 {
        editor
    } else {
        back(editor, (steps - 1) as nat).undone()
    }
}

/// Steps back `steps` edits. False where there were not as many.
pub fn step_back(editor: &mut Editor, steps: usize) -> (r: bool)
    requires
        old(editor)@.sound(),
    ensures
        final(editor)@.sound(),
        final(editor)@ == back(old(editor)@, steps as nat),
        r == (old(editor)@.undo.len() >= steps),
{
    let ghost start = editor@;
    let mut all: bool = true;
    let mut done: usize = 0;
    while done < steps
        invariant
            done <= steps,
            editor@.sound(),
            editor@ == back(start, done as nat),
            editor@.undo.len() == (if start.undo.len() >= done {
                start.undo.len() - done
            } else {
                0
            }),
            all == (start.undo.len() >= done),
        decreases steps - done,
    {
        let stepped: bool = editor.undo();
        all = all && stepped;
        done = done + 1;
    }
    all
}

/// Every other one of a list, the first among them.
pub fn every_other(ids: &Vec<String>) -> (r: Vec<String>)
    ensures
        r.len() == (ids.len() + 1) / 2,
        forall|k: int| 0 <= k < r.len() ==> (#[trigger] r@[k])@ == ids@[2 * k]@,
{
    let mut r: Vec<String> = Vec::new();
    let mut left: usize = ids.len();
    let mut at: usize = 0;
    while left > 0
        invariant
            at + left == ids.len(),
            left > 0 ==> at == 2 * r.len(),
            left == 0 ==> r.len() == (ids.len() + 1) / 2,
            forall|k: int| 0 <= k < r.len() ==> (#[trigger] r@[k])@ == ids@[2 * k]@,
        decreases left,
    {
        r.push(ids[at].clone());
        if left >= 2 {
            at = at + 2;
            left = left - 2;
        } else {
            at = at + 1;
            left = 0;
        }
    }
    r
}

/// Where the last of these clips ends; zero where there is none.
pub open spec fn last_end(clips: Seq<ClipView>) -> Number
    decreases clips.len(),
{
    if clips.len() == 0 {
        num(ZERO)
    } else {
        larger(last_end(clips.drop_last()), end(clips.last()))
    }
}

/// Where the timeline being edited ends.
pub fn cut_end(project: &Project) -> (r: Number)
    requires
        project@.editable(),
    ensures
        r == last_end(project@.active().clips),
{
    let clips: &Vec<Arc<Clip>> = &project.active().clips;
    let ghost views = clips_of(clips@);
    let mut r: Number = num(ZERO);
    let mut i: usize = 0;
    assert(views.take(0) =~= Seq::<ClipView>::empty());
    while i < clips.len()
        invariant
            i <= clips.len(),
            views == clips_of(clips@),
            r == last_end(views.take(i as int)),
        decreases clips.len() - i,
    {
        proof {
            assert(views.take(i as int + 1).drop_last() =~= views.take(i as int));
            assert(views.take(i as int + 1).last() == clips@[i as int]@);
        }
        r = r.max(clips[i].start.plus(clips[i].duration));
        i = i + 1;
    }
    assert(views.take(clips.len() as int) =~= views);
    r
}

// What a window shows.

/// Whether a clip that starts at `start` and lasts `length` reaches into a view.
pub open spec fn in_view(clip: (Number, Number), from: Number, to: Number) -> bool {
    from.at_most(sum(clip.0, clip.1)) && clip.0.at_most(to)
}

/// How many of these clips, each a start and a length, a window publishes for a
/// view.
pub fn published(clips: &Vec<(Number, Number)>, from: Number, to: Number) -> (r: usize)
    ensures
        r == clips@.filter(|c: (Number, Number)| in_view(c, from, to)).len(),
{
    let ghost shown = |c: (Number, Number)| in_view(c, from, to);
    let mut r: usize = 0;
    let mut i: usize = 0;
    proof {
        reveal(Seq::filter);
    }
    assert(clips@.take(0).filter(shown) =~= Seq::<(Number, Number)>::empty());
    while i < clips.len()
        invariant
            i <= clips.len(),
            shown == (|c: (Number, Number)| in_view(c, from, to)),
            r <= i,
            r == clips@.take(i as int).filter(shown).len(),
        decreases clips.len() - i,
    {
        proof {
            lemma_filter_step(clips@, shown, i as int);
        }
        let clip: (Number, Number) = clips[i];
        if from.up_to(clip.0.plus(clip.1)) && clip.0.up_to(to) {
            r = r + 1;
        }
        i = i + 1;
    }
    assert(clips@.take(clips.len() as int) =~= clips@);
    r
}

// Pictures.

/// One byte of the picture.
pub open spec fn gradient_byte(width: int, height: int, seed: u8, at: int) -> u8 {
    let x = (at / 4) % width;
    let y = (at / 4) / width;
    if at % 4 == 0 {
        ((x * 255) / width) as u8
    } else if at % 4 == 1 {
        ((y * 255) / height) as u8
    } else if at % 4 == 2 {
        ((seed * 3) % 256) as u8
    } else {
        255u8
    }
}

/// A picture with something in it everywhere, different per `seed`: rows of pixels,
/// four bytes each.
pub fn gradient(width: u32, height: u32, seed: u8) -> (r: Vec<u8>)
    requires
        width * height * 4 <= usize::MAX,
    ensures
        r.len() == width * height * 4,
        forall|at: int|
            0 <= at < r.len() ==> #[trigger] r@[at] == gradient_byte(
                width as int,
                height as int,
                seed,
                at,
            ),
{
    let mut r: Vec<u8> = Vec::new();
    let third: u8 = ((seed as u32 * 3) % 256) as u8;
    let mut y: u32 = 0;
    while y < height
        invariant
            y <= height,
            third == (seed * 3) % 256,
            width * height * 4 <= usize::MAX,
            r.len() == width * y * 4,
            forall|at: int|
                0 <= at < r.len() ==> #[trigger] r@[at] == gradient_byte(
                    width as int,
                    height as int,
                    seed,
                    at,
                ),
        decreases height - y,
    {
        let down: u8 = ((y as u64 * 255) / height as u64) as u8;
        proof {
            lemma_share(y as int, height as int);
        }
        let mut x: u32 = 0;
        while x < width
            invariant
                x <= width,
                y < height,
                third == (seed * 3) % 256,
                down == (y * 255) / height as int,
                0 <= (y * 255) / height as int <= 255,
                r.len() == (width * y + x) * 4,
                forall|at: int|
                    0 <= at < r.len() ==> #[trigger] r@[at] == gradient_byte(
                        width as int,
                        height as int,
                        seed,
                        at,
                    ),
            decreases width - x,
        {
            let ghost at = r.len() as int;
            proof {
                lemma_share(x as int, width as int);
                lemma_pixel(width as int, x as int, y as int);
            }
            r.push(((x as u64 * 255) / width as u64) as u8);
            r.push(down);
            r.push(third);
            r.push(255);
            assert(r@[at] == gradient_byte(width as int, height as int, seed, at));
            assert(r@[at + 1] == gradient_byte(width as int, height as int, seed, at + 1));
            assert(r@[at + 2] == gradient_byte(width as int, height as int, seed, at + 2));
            assert(r@[at + 3] == gradient_byte(width as int, height as int, seed, at + 3));
            x = x + 1;
        }
        proof {
            assert((width * y + width) * 4 == width * (y + 1) * 4) by (nonlinear_arith);
        }
        y = y + 1;
    }
    r
}

proof fn lemma_share(x: int, width: int)
    requires
        0 <= x < width,
    ensures
        0 <= (x * 255) / width <= 255,
{
    assert(0 <= (x * 255) / width <= 255) by (nonlinear_arith)
        requires
            0 <= x < width,
    ;
}

proof fn lemma_pixel(width: int, x: int, y: int)
    requires
        0 <= x < width,
        0 <= y,
    ensures
        (width * y + x) % width == x,
        (width * y + x) / width == y,
{
    assert(width * y == y * width) by (nonlinear_arith);
    vstd::arithmetic::div_mod::lemma_fundamental_div_mod_converse(
        width * y + x,
        width,
        y,
        x,
    );
}

/// Whether as many frames came out as went in: the last can stay in the encoder's
/// delay, so one short is right and two is not.
pub fn came_out(count: u32, expected: u32) -> (r: bool)
    ensures
        r == (count + 1 >= expected),
{
    count >= expected || expected - count <= 1
}

// Sound.

/// The peaks of a quiet file with a loud moment every `apart` buckets.
pub fn spiked_peaks(buckets: usize, apart: usize, rate: Single) -> (r: Peaks)
    requires
        apart > 0,
    ensures
        r@.rate == rate,
        r@.min.len() == buckets && r@.max.len() == buckets,
        forall|i: int|
            0 <= i < buckets ==> #[trigger] r@.min[i] == (if i % apart as int == 0 {
                single(LOUD_LOW)
            } else {
                single(QUIET_LOW)
            }),
        forall|i: int|
            0 <= i < buckets ==> #[trigger] r@.max[i] == (if i % apart as int == 0 {
                single(LOUD_HIGH)
            } else {
                single(QUIET_HIGH)
            }),
{
    let mut min: Vec<Single> = Vec::new();
    let mut max: Vec<Single> = Vec::new();
    let mut i: usize = 0;
    while i < buckets
        invariant
            apart > 0,
            i <= buckets,
            min.len() == i,
            max.len() == i,
            forall|k: int|
                0 <= k < i ==> #[trigger] min@[k] == (if k % apart as int == 0 {
                    single(LOUD_LOW)
                } else {
                    single(QUIET_LOW)
                }),
            forall|k: int|
                0 <= k < i ==> #[trigger] max@[k] == (if k % apart as int == 0 {
                    single(LOUD_HIGH)
                } else {
                    single(QUIET_HIGH)
                }),
        decreases buckets - i,
    {
        if i % apart == 0 {
            min.push(single(LOUD_LOW));
            max.push(single(LOUD_HIGH));
        } else {
            min.push(single(QUIET_LOW));
            max.push(single(QUIET_HIGH));
        }
        i = i + 1;
    }
    Peaks { min, max, buckets_per_second: rate }
}

/// -0.2.
pub const QUIET_LOW: u32 = 0xbe4c_cccd;

/// 0.2.
pub const QUIET_HIGH: u32 = 0x3e4c_cccd;

/// -0.9.
pub const LOUD_LOW: u32 = 0xbf66_6666;

/// 0.9.
pub const LOUD_HIGH: u32 = 0x3f66_6666;

} // verus!
