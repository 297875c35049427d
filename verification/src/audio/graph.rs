//! The filtergraph of a mix.

use crate::audio::gain::{ride_expression, volume_expr, GainKey};
use crate::audio::speed::{retiming, speed_filters, with_number, EPSILON};
use crate::digits::{as_rounded, fixed, fixed_text};
use crate::number::{absolute, difference, larger, num, product, Number, ONE, ZERO};
use crate::text::{
    characters, decimal, decimal_text, join, joined, signed_decimal, signed_text, text_from, texts,
};
use vstd::prelude::*;
use vstd::string::*;

verus! {

/// A thousand, for milliseconds.
pub const THOUSAND: u64 = 0x408f_4000_0000_0000;

/// One audible clip, in timeline terms.
#[derive(Debug)]
pub struct AudioClip {
    /// The media file.
    pub path: String,
    /// Which of the file's audio streams; none is the first in file order.
    pub stream: Option<usize>,
    /// Where the clip sits on the timeline, in seconds.
    pub start: Number,
    /// How long it runs on the timeline, in seconds.
    pub duration: Number,
    /// Seconds into the source file where the clip begins.
    pub source_start: Number,
    /// Source seconds consumed per timeline second.
    pub speed: Number,
    /// Whether pitch holds while the rate changes.
    pub preserve_pitch: bool,
    /// Linear gain, unless the curve says otherwise.
    pub volume: Number,
    /// Gain as it changes over the clip, flattened to straight runs. Empty is
    /// the constant; a curve supersedes it rather than multiplying it.
    pub volume_curve: Vec<GainKey>,
    /// Fade up over this many seconds from the clip's start.
    pub fade_in: Number,
    /// Fade out over this many seconds into the clip's end.
    pub fade_out: Number,
    /// Extra audio filters, or empty. Validated, not trusted.
    pub filter_chain: String,
}

/// Whether a character would let a chain out of its slot in the graph: one that
/// starts a new chain, rebinds streams or ends the line.
pub open spec fn forbidden(c: char) -> bool {
    c == ';' || c == '[' || c == ']' || c == '\n' || c == '\r'
}

/// The first character of a chain that would let it out.
pub open spec fn escape_in(chain: Seq<char>) -> Option<char>
    decreases chain.len(),
{
    if chain.len() == 0 {
        None
    } else if forbidden(chain[0]) {
        Some(chain[0])
    } else {
        escape_in(chain.skip(1))
    }
}

/// A chain is refused exactly where some character of it would let it out.
pub proof fn lemma_escape(chain: Seq<char>)
    ensures
        escape_in(chain) is None <==> forall|i: int|
            0 <= i < chain.len() ==> !forbidden(#[trigger] chain[i]),
        escape_in(chain) is Some ==> forbidden(escape_in(chain)->0) && chain.contains(
            escape_in(chain)->0,
        ),
    decreases chain.len(),
{
    if chain.len() > 0 && !forbidden(chain[0]) {
        let rest = chain.skip(1);
        lemma_escape(rest);
        if escape_in(chain) is None {
            assert forall|i: int| 0 <= i < chain.len() implies !forbidden(#[trigger] chain[i]) by {
                if i > 0 {
                    assert(rest[i - 1] == chain[i]);
                }
            }
        } else {
            let i = choose|i: int| 0 <= i < rest.len() && rest[i] == escape_in(rest)->0;
            assert(chain[i + 1] == escape_in(chain)->0);
        }
    }
}

/// A filter chain that could break out of its slot in the graph.
#[derive(Debug)]
pub struct InvalidFilterChain {
    pub chain: String,
    pub found: char,
}

impl InvalidFilterChain {
    /// What is wrong with the chain.
    pub open spec fn complaint(self) -> Seq<char> {
        "contains "@ + (if self.found == '\n' {
            "'\\n'"@
        } else if self.found == '\r' {
            "'\\r'"@
        } else {
            seq!['\'', self.found, '\'']
        }) + ", which would escape the clip's filter slot"@
    }

    /// What is wrong with the chain, in words.
    pub fn detail(&self) -> (s: String)
        ensures
            s@ == self.complaint(),
    {
        let mut s: String = "contains ".to_owned();
        if self.found == '\n' {
            s.append("'\\n'");
        } else if self.found == '\r' {
            s.append("'\\r'");
        } else {
            s.push('\'');
            s.push(self.found);
            s.push('\'');
            assert(s@ =~= "contains "@ + seq!['\'', self.found, '\'']);
        }
        s.append(", which would escape the clip's filter slot");
        s
    }
}

/// Refuses a filter chain that could break out of its slot in the graph.
pub fn validate_chain(chain: &str) -> (r: Result<(), InvalidFilterChain>)
    ensures
        match r {
            Ok(_) => escape_in(chain@) is None,
            Err(error) => escape_in(chain@) == Some(error.found) && error.chain@ == chain@,
        },
{
    let chars: Vec<char> = characters(chain);
    let mut i: usize = 0;
    assert(chars@.skip(0) =~= chars@);
    while i < chars.len()
        invariant
            i <= chars.len(),
            chars@ == chain@,
            escape_in(chain@) == escape_in(chars@.skip(i as int)),
        decreases chars.len() - i,
    {
        let c: char = chars[i];
        if c == ';' || c == '[' || c == ']' || c == '\n' || c == '\r' {
            return Err(InvalidFilterChain { chain: chain.to_owned(), found: c });
        }
        assert(chars@.skip(i as int).skip(1) =~= chars@.skip(i + 1));
        i = i + 1;
    }
    Ok(())
}

// The text of one clip.

/// The delay that puts a clip where it sits, in whole milliseconds.
pub open spec fn delay_of(start: Number) -> int {
    let ms = as_rounded(product(start, num(THOUSAND)));
    if ms < 0 {
        0
    } else {
        ms
    }
}

/// How an input enters: cut by how far before its in-point it landed.
pub open spec fn entry_text(index: nat, lead: Number) -> Seq<char> {
    if num(ZERO).less(lead) {
        "["@ + decimal(index) + ":a]atrim=start="@ + fixed(lead, 6) + ",asetpts=PTS-STARTPTS"@
    } else {
        "["@ + decimal(index) + ":a]anull"@
    }
}

/// Filters, each behind a comma.
pub open spec fn chained(filters: Seq<Seq<char>>) -> Seq<char>
    decreases filters.len(),
{
    if filters.len() == 0 {
        Seq::empty()
    } else {
        chained(filters.drop_last()) + ","@ + filters.last()
    }
}

/// The clip's gain: a curve evaluated frame by frame, or a constant that is not
/// unity.
pub open spec fn volume_text(clip: AudioClip) -> Seq<char> {
    match ride_expression(clip.volume_curve@, clip.duration) {
        Some(expr) => ",volume=volume='"@ + expr + "':eval=frame"@,
        None => if num(EPSILON).less(absolute(difference(clip.volume, num(ONE)))) {
            ",volume="@ + fixed(larger(clip.volume, num(ZERO)), 4)
        } else {
            Seq::empty()
        },
    }
}

pub open spec fn fade_in_text(clip: AudioClip) -> Seq<char> {
    if num(ZERO).less(clip.fade_in) {
        ",afade=t=in:st=0:d="@ + fixed(clip.fade_in, 4)
    } else {
        Seq::empty()
    }
}

pub open spec fn fade_out_text(clip: AudioClip) -> Seq<char> {
    if num(ZERO).less(clip.fade_out) {
        ",afade=t=out:st="@ + fixed(
            larger(difference(clip.duration, clip.fade_out), num(ZERO)),
            4,
        ) + ":d="@ + fixed(clip.fade_out, 4)
    } else {
        Seq::empty()
    }
}

/// One clip's chain: cut to its in-point, retimed, through its own filters,
/// then gain and fades, which are adjustments of that result, then delayed to
/// where it sits.
pub open spec fn clip_text(index: nat, clip: AudioClip, lead: Number) -> Seq<char> {
    entry_text(index, lead) + chained(retiming(clip.speed, clip.preserve_pitch)) + (
    if clip.filter_chain@.len() > 0 {
        ","@ + clip.filter_chain@
    } else {
        Seq::empty()
    }) + volume_text(clip) + fade_in_text(clip) + fade_out_text(clip) + ",adelay="@
        + signed_decimal(delay_of(clip.start)) + ":all=1[a"@ + decimal(index) + "]"@
}

/// How far before its in-point an input landed; nothing where nobody says.
pub open spec fn lead_of(leads: Seq<Number>, index: int) -> Number {
    if 0 <= index < leads.len() {
        leads[index]
    } else {
        num(ZERO)
    }
}

/// The labels of the first `count` clips, one after another.
pub open spec fn labels(count: nat) -> Seq<char>
    decreases count,
{
    if count == 0 {
        Seq::empty()
    } else {
        labels((count - 1) as nat) + "[a"@ + decimal((count - 1) as nat) + "]"@
    }
}

/// How the clips meet: one alone passes through, since mixing it would still
/// apply the mixer's normalisation.
pub open spec fn meeting_text(count: nat) -> Seq<char> {
    if count == 1 {
        labels(count) + "anull[mixed]"@
    } else {
        labels(count) + "amix=inputs="@ + decimal(count) + ":normalize=0[mixed]"@
    }
}

/// The chains of a mix. The last lands the mix on one continuous series of
/// timestamps and pads it with silence for as long as it is read.
pub open spec fn chains(clips: Seq<AudioClip>, leads: Seq<Number>) -> Seq<Seq<char>> {
    Seq::new(
        clips.len(),
        |i: int| clip_text(i as nat, clips[i], lead_of(leads, i)),
    ).push(meeting_text(clips.len()) + ";[mixed]aresample=48000,apad[out]"@)
}

/// The first clip whose chain is refused, with what it is refused for.
pub open spec fn first_escape(clips: Seq<AudioClip>, from: int) -> Option<(int, char)>
    decreases clips.len() - from,
{
    if from >= clips.len() {
        None
    } else {
        match escape_in(clips[from].filter_chain@) {
            Some(found) => Some((from, found)),
            None => first_escape(clips, from + 1),
        }
    }
}

fn clip_chain(index: usize, clip: &AudioClip, lead: Number) -> (s: String)
    ensures
        s@ == clip_text(index as nat, *clip, lead),
{
    let mut s: String = "[".to_owned();
    s.append(decimal_text(index as u64).as_str());
    if num(ZERO).below(lead) {
        s.append(":a]atrim=start=");
        s.append(text_from(&fixed_text(lead, 6)).as_str());
        s.append(",asetpts=PTS-STARTPTS");
    } else {
        s.append(":a]anull");
    }
    let ghost head = s@;
    assert(head == entry_text(index as nat, lead));
    let filters: Vec<String> = speed_filters(clip.speed, clip.preserve_pitch);
    let mut i: usize = 0;
    assert(texts(filters@).take(0) =~= Seq::<Seq<char>>::empty());
    assert(s@ =~= head + chained(texts(filters@).take(0)));
    while i < filters.len()
        invariant
            i <= filters.len(),
            s@ == head + chained(texts(filters@).take(i as int)),
        decreases filters.len() - i,
    {
        let ghost before = chained(texts(filters@).take(i as int));
        s.append(",");
        s.append(filters[i].as_str());
        proof {
            let all = texts(filters@);
            assert(all.take(i + 1).drop_last() =~= all.take(i as int));
            assert(s@ =~= head + (before + ","@ + filters@[i as int]@));
        }
        i = i + 1;
    }
    assert(texts(filters@).take(filters.len() as int) =~= texts(filters@));
    let ghost timed = s@;
    if clip.filter_chain.as_str().unicode_len() > 0 {
        let mut own: String = ",".to_owned();
        own.append(clip.filter_chain.as_str());
        s.append(own.as_str());
    }
    assert(s@ =~= timed + (if clip.filter_chain@.len() > 0 {
        ","@ + clip.filter_chain@
    } else {
        Seq::empty()
    }));
    let ghost own = s@;
    match volume_expr(&clip.volume_curve, clip.duration) {
        Some(expr) => {
            let mut gain: String = ",volume=volume='".to_owned();
            gain.append(expr.as_str());
            gain.append("':eval=frame");
            s.append(gain.as_str());
        },
        None => {
            if num(EPSILON).below(clip.volume.minus(num(ONE)).abs()) {
                s.append(with_number(",volume=", clip.volume.max(num(ZERO)), 4).as_str());
            }
        },
    }
    assert(s@ =~= own + volume_text(*clip));
    let ghost loud = s@;
    if num(ZERO).below(clip.fade_in) {
        s.append(with_number(",afade=t=in:st=0:d=", clip.fade_in, 4).as_str());
    }
    assert(s@ =~= loud + fade_in_text(*clip));
    let ghost rising = s@;
    if num(ZERO).below(clip.fade_out) {
        let from: Number = clip.duration.minus(clip.fade_out).max(num(ZERO));
        let mut fade: String = with_number(",afade=t=out:st=", from, 4);
        fade.append(with_number(":d=", clip.fade_out, 4).as_str());
        assert(fade@ =~= fade_out_text(*clip));
        s.append(fade.as_str());
    }
    assert(s@ =~= rising + fade_out_text(*clip));
    s.append(",adelay=");
    let ms: i64 = clip.start.times(num(THOUSAND)).to_rounded();
    let ms: i64 = if ms < 0 {
        0
    } else {
        ms
    };
    s.append(signed_text(ms).as_str());
    s.append(":all=1[a");
    s.append(decimal_text(index as u64).as_str());
    s.append("]");
    s
}

fn meeting(count: usize) -> (s: String)
    ensures
        s@ == meeting_text(count as nat),
{
    proof {
        reveal_strlit("");
    }
    let mut s: String = "".to_owned();
    let mut i: usize = 0;
    assert(s@ =~= labels(0));
    while i < count
        invariant
            i <= count,
            s@ == labels(i as nat),
        decreases count - i,
    {
        s.append("[a");
        s.append(decimal_text(i as u64).as_str());
        s.append("]");
        i = i + 1;
    }
    if count == 1 {
        s.append("anull[mixed]");
    } else {
        s.append("amix=inputs=");
        s.append(decimal_text(count as u64).as_str());
        s.append(":normalize=0[mixed]");
    }
    s
}

/// The graph that trims, retimes, shapes, delays and mixes every clip into one
/// stream, for inputs that landed a little before their in-points: `leads` says
/// by how many seconds each, which the graph cuts off the front. The first clip
/// whose chain would escape its slot is refused.
pub fn mix_graph_from(clips: &Vec<AudioClip>, leads: &Vec<Number>) -> (r: Result<
    String,
    InvalidFilterChain,
>)
    ensures
        match r {
            Ok(graph) => first_escape(clips@, 0) is None && graph@ == joined(
                chains(clips@, leads@),
                ";"@,
            ),
            Err(error) => {
                let bad = first_escape(clips@, 0);
                bad is Some && error.found == (bad->0).1 && error.chain@ == clips@[(bad
                    ->0).0].filter_chain@
            },
        },
{
    let mut parts: Vec<String> = Vec::new();
    let mut i: usize = 0;
    let ghost whole = chains(clips@, leads@);
    while i < clips.len()
        invariant
            i <= clips.len(),
            whole == chains(clips@, leads@),
            first_escape(clips@, 0) == first_escape(clips@, i as int),
            texts(parts@) == whole.take(i as int),
        decreases clips.len() - i,
    {
        let checked: Result<(), InvalidFilterChain> = validate_chain(
            clips[i].filter_chain.as_str(),
        );
        match checked {
            Ok(_) => {},
            Err(error) => {
                return Err(error);
            },
        }
        let lead: Number = if i < leads.len() {
            leads[i]
        } else {
            num(ZERO)
        };
        let ghost before = texts(parts@);
        let chain: String = clip_chain(i, &clips[i], lead);
        parts.push(chain);
        proof {
            assert(texts(parts@) =~= before.push(chain@));
            assert(whole[i as int] == chain@);
            assert(whole.take(i + 1) =~= whole.take(i as int).push(chain@));
        }
        i = i + 1;
    }
    let mut last: String = meeting(clips.len());
    last.append(";[mixed]aresample=48000,apad[out]");
    let ghost before = texts(parts@);
    parts.push(last);
    proof {
        assert(texts(parts@) =~= before.push(last@));
        assert(texts(parts@) =~= whole);
    }
    Ok(join(&parts, ";"))
}

/// The graph of a mix whose inputs land exactly on their in-points. Input `N`
/// is clip `N`'s file, and every input must hold an audio stream.
pub fn mix_graph(clips: &Vec<AudioClip>) -> (r: Result<String, InvalidFilterChain>)
    ensures
        match r {
            Ok(graph) => first_escape(clips@, 0) is None && graph@ == joined(
                chains(clips@, Seq::empty()),
                ";"@,
            ),
            Err(error) => {
                let bad = first_escape(clips@, 0);
                bad is Some && error.found == (bad->0).1 && error.chain@ == clips@[(bad
                    ->0).0].filter_chain@
            },
        },
{
    let leads: Vec<Number> = Vec::new();
    mix_graph_from(clips, &leads)
}

/// A mix is refused exactly where some clip's chain would escape its slot.
pub proof fn lemma_mix_is_refused(clips: Seq<AudioClip>, from: int)
    requires
        0 <= from,
    ensures
        first_escape(clips, from) is None <==> forall|i: int|
            from <= i < clips.len() ==> escape_in((#[trigger] clips[i]).filter_chain@) is None,
    decreases clips.len() - from,
{
    if from < clips.len() && escape_in(clips[from].filter_chain@) is None {
        lemma_mix_is_refused(clips, from + 1);
    }
}

} // verus!
