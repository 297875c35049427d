//! What a filter is told of a picture's colour: each tag by its own name, and no two
//! tags by the same.

use crate::decode::color::{ColorRange, ColorSignal, Primaries, Range, Space, Transfer};
use crate::decode::options::color_terms;
use crate::reading::{lemma_split_first, lemma_split_last, split, unmarked};
use vstd::prelude::*;
use vstd::string::*;

verus! {

/// The names of the tags have no colon in them.
proof fn lemma_names_unmarked()
    ensures
        unmarked("bt2020"@, ':') && unmarked("bt709"@, ':') && unmarked("smpte432"@, ':'),
        unmarked("smpte2084"@, ':') && unmarked("arib-std-b67"@, ':'),
        unmarked("bt2020-10"@, ':') && unmarked("bt2020-12"@, ':'),
        unmarked("bt2020nc"@, ':') && unmarked("bt2020c"@, ':'),
        unmarked("tv"@, ':') && unmarked("pc"@, ':') && unmarked("auto"@, ':'),
{
    reveal_strlit("bt2020");
    reveal_strlit("bt709");
    reveal_strlit("smpte432");
    reveal_strlit("smpte2084");
    reveal_strlit("arib-std-b67");
    reveal_strlit("bt2020-10");
    reveal_strlit("bt2020-12");
    reveal_strlit("bt2020nc");
    reveal_strlit("bt2020c");
    reveal_strlit("tv");
    reveal_strlit("pc");
    reveal_strlit("auto");
}

/// One term after another.
proof fn lemma_term(mark: Seq<char>, key: Seq<char>, value: Seq<char>, rest: Seq<char>)
    requires
        mark == seq![':'] + key,
        unmarked(key, ':'),
        unmarked(value, ':'),
        rest.len() > 0 && rest[0] == ':',
    ensures
        split((mark + value + rest).skip(1), ':') == seq![key + value] + split(rest.skip(1), ':'),
        (mark + value + rest).len() > 0 && (mark + value + rest)[0] == ':',
{
    let part = key + value;
    assert(unmarked(part, ':'));
    lemma_split_first(part, rest.skip(1), ':');
    assert((mark + value + rest).skip(1) =~= part + seq![':'] + rest.skip(1));
}

/// What every conversion asks for: BT.709 at video range, tone-mapped rather than
/// clipped.
proof fn lemma_asked(text: Seq<char>)
    requires
        text
            == ":out_primaries=bt709:out_transfer=bt709:out_color_matrix=bt709:out_range=tv:intent=perceptual"@,
    ensures
        text.len() > 0 && text[0] == ':',
        split(text.skip(1), ':') == seq![
            "out_primaries=bt709"@,
            "out_transfer=bt709"@,
            "out_color_matrix=bt709"@,
            "out_range=tv"@,
            "intent=perceptual"@,
        ],
{
    reveal_strlit(
        ":out_primaries=bt709:out_transfer=bt709:out_color_matrix=bt709:out_range=tv:intent=perceptual",
    );
    reveal_strlit("out_primaries=bt709");
    reveal_strlit("out_transfer=bt709");
    reveal_strlit("out_color_matrix=bt709");
    reveal_strlit("out_range=tv");
    reveal_strlit("intent=perceptual");
    let (a, b, c, d, e) = (
        "out_primaries=bt709"@,
        "out_transfer=bt709"@,
        "out_color_matrix=bt709"@,
        "out_range=tv"@,
        "intent=perceptual"@,
    );
    let m = seq![':'];
    let r4 = d + m + e;
    let r3 = c + m + r4;
    let r2 = b + m + r3;
    let r1 = a + m + r2;
    assert(text.skip(1) =~= r1);
    lemma_split_last(e, ':');
    lemma_split_first(d, e, ':');
    lemma_split_first(c, r4, ':');
    lemma_split_first(b, r3, ':');
    lemma_split_first(a, r2, ':');
    assert(seq![a] + (seq![b] + (seq![c] + (seq![d] + seq![e]))) =~= seq![a, b, c, d, e]);
}

/// The terms of a conversion, for what its four tags are called.
proof fn lemma_terms(p: Seq<char>, t: Seq<char>, m: Seq<char>, r: Seq<char>)
    requires
        unmarked(p, ':'),
        unmarked(t, ':'),
        unmarked(m, ':'),
        unmarked(r, ':'),
    ensures
        split(
            ":in_primaries="@ + p + ":in_transfer="@ + t + ":in_color_matrix="@ + m + ":in_range="@
                + r
                + ":out_primaries=bt709:out_transfer=bt709:out_color_matrix=bt709:out_range=tv:intent=perceptual"@,
            ':',
        ) == seq![
            Seq::<char>::empty(),
            "in_primaries="@ + p,
            "in_transfer="@ + t,
            "in_color_matrix="@ + m,
            "in_range="@ + r,
            "out_primaries=bt709"@,
            "out_transfer=bt709"@,
            "out_color_matrix=bt709"@,
            "out_range=tv"@,
            "intent=perceptual"@,
        ],
{
    let out =
        ":out_primaries=bt709:out_transfer=bt709:out_color_matrix=bt709:out_range=tv:intent=perceptual"@;
    lemma_asked(out);
    lemma_keys();
    let r4 = ":in_range="@ + r + out;
    let r3 = ":in_color_matrix="@ + m + r4;
    let r2 = ":in_transfer="@ + t + r3;
    let r1 = ":in_primaries="@ + p + r2;
    lemma_term(":in_range="@, "in_range="@, r, out);
    lemma_term(":in_color_matrix="@, "in_color_matrix="@, m, r4);
    lemma_term(":in_transfer="@, "in_transfer="@, t, r3);
    lemma_term(":in_primaries="@, "in_primaries="@, p, r2);
    let text = ":in_primaries="@ + p + ":in_transfer="@ + t + ":in_color_matrix="@ + m
        + ":in_range="@ + r + out;
    assert(text =~= r1);
    let none = Seq::<char>::empty();
    assert(r1 =~= none + seq![':'] + r1.skip(1));
    lemma_split_first(none, r1.skip(1), ':');
    let tail = split(out.skip(1), ':');
    assert(split(text, ':') == seq![none] + (seq!["in_primaries="@ + p] + (seq![
        "in_transfer="@ + t,
    ] + (seq!["in_color_matrix="@ + m] + (seq!["in_range="@ + r] + tail)))));
}

/// The keys the tags are named under.
proof fn lemma_keys()
    ensures
        ":in_primaries="@ == seq![':'] + "in_primaries="@,
        ":in_transfer="@ == seq![':'] + "in_transfer="@,
        ":in_color_matrix="@ == seq![':'] + "in_color_matrix="@,
        ":in_range="@ == seq![':'] + "in_range="@,
        unmarked("in_primaries="@, ':') && unmarked("in_transfer="@, ':'),
        unmarked("in_color_matrix="@, ':') && unmarked("in_range="@, ':'),
{
    reveal_strlit(":in_primaries=");
    reveal_strlit(":in_transfer=");
    reveal_strlit(":in_color_matrix=");
    reveal_strlit(":in_range=");
    reveal_strlit("in_primaries=");
    reveal_strlit("in_transfer=");
    reveal_strlit("in_color_matrix=");
    reveal_strlit("in_range=");
    assert(":in_primaries="@ =~= seq![':'] + "in_primaries="@);
    assert(":in_transfer="@ =~= seq![':'] + "in_transfer="@);
    assert(":in_color_matrix="@ =~= seq![':'] + "in_color_matrix="@);
    assert(":in_range="@ =~= seq![':'] + "in_range="@);
}

/// A wide picture is converted term by term: each of its four tags is named as the
/// filter knows it, PQ as smpte2084 and HLG as arib-std-b67 among the transfers, and
/// left to the filter where there is none; and what is asked for is BT.709 at video
/// range.
pub proof fn lemma_each_tag_has_its_name(signal: ColorSignal)
    ensures
        ({
            let terms = split(signal.conversion(), ':');
            &&& terms.len() == 10
            &&& terms[0] == Seq::<char>::empty()
            &&& signal.primaries is Bt2020 ==> terms[1] == "in_primaries="@ + "bt2020"@
            &&& signal.primaries is Bt709 ==> terms[1] == "in_primaries="@ + "bt709"@
            &&& signal.primaries is Smpte432 ==> terms[1] == "in_primaries="@ + "smpte432"@
            &&& signal.primaries is Unspecified || signal.primaries is Other ==> terms[1]
                == "in_primaries="@ + "auto"@
            &&& signal.transfer is Smpte2084 ==> terms[2] == "in_transfer="@ + "smpte2084"@
            &&& signal.transfer is AribStdB67 ==> terms[2] == "in_transfer="@ + "arib-std-b67"@
            &&& signal.transfer is Bt2020Ten ==> terms[2] == "in_transfer="@ + "bt2020-10"@
            &&& signal.transfer is Bt2020Twelve ==> terms[2] == "in_transfer="@ + "bt2020-12"@
            &&& signal.transfer is Bt709 ==> terms[2] == "in_transfer="@ + "bt709"@
            &&& signal.transfer is Unspecified || signal.transfer is Other ==> terms[2]
                == "in_transfer="@ + "auto"@
            &&& signal.matrix is Bt2020Ncl ==> terms[3] == "in_color_matrix="@ + "bt2020nc"@
            &&& signal.matrix is Bt2020Cl ==> terms[3] == "in_color_matrix="@ + "bt2020c"@
            &&& signal.matrix is Bt709 ==> terms[3] == "in_color_matrix="@ + "bt709"@
            &&& signal.matrix is Unspecified || signal.matrix is Other ==> terms[3]
                == "in_color_matrix="@ + "auto"@
            &&& signal.range is Mpeg ==> terms[4] == "in_range="@ + "tv"@
            &&& signal.range is Jpeg ==> terms[4] == "in_range="@ + "pc"@
            &&& signal.range is Unspecified ==> terms[4] == "in_range="@ + "auto"@
            &&& terms[5] == "out_primaries=bt709"@
            &&& terms[6] == "out_transfer=bt709"@
            &&& terms[7] == "out_color_matrix=bt709"@
            &&& terms[8] == "out_range=tv"@
            &&& terms[9] == "intent=perceptual"@
        }),
{
    lemma_names_unmarked();
    let p = match signal.primaries {
        Primaries::Bt2020 => "bt2020"@,
        Primaries::Bt709 => "bt709"@,
        Primaries::Smpte432 => "smpte432"@,
        _ => "auto"@,
    };
    let t = match signal.transfer {
        Transfer::Smpte2084 => "smpte2084"@,
        Transfer::AribStdB67 => "arib-std-b67"@,
        Transfer::Bt2020Ten => "bt2020-10"@,
        Transfer::Bt2020Twelve => "bt2020-12"@,
        Transfer::Bt709 => "bt709"@,
        _ => "auto"@,
    };
    let m = match signal.matrix {
        Space::Bt2020Ncl => "bt2020nc"@,
        Space::Bt2020Cl => "bt2020c"@,
        Space::Bt709 => "bt709"@,
        _ => "auto"@,
    };
    let r = match signal.range {
        Range::Mpeg => "tv"@,
        Range::Jpeg => "pc"@,
        Range::Unspecified => "auto"@,
    };
    lemma_terms(p, t, m, r);
}

/// Whether a tag has a name of its own.
pub open spec fn named_gamut(tag: Primaries) -> bool {
    !(tag is Unspecified) && !(tag is Other)
}

pub open spec fn named_transfer(tag: Transfer) -> bool {
    !(tag is Unspecified) && !(tag is Other)
}

pub open spec fn named_matrix(tag: Space) -> bool {
    !(tag is Unspecified) && !(tag is Other)
}

/// Two pictures converted alike are tagged alike: no two tags that have names share
/// one, and none is named as if it had none.
pub proof fn lemma_no_two_tags_share_a_name(a: ColorSignal, b: ColorSignal)
    requires
        a.conversion() == b.conversion(),
    ensures
        named_gamut(a.primaries) ==> a.primaries == b.primaries,
        named_transfer(a.transfer) ==> a.transfer == b.transfer,
        named_matrix(a.matrix) ==> a.matrix == b.matrix,
        a.range == b.range,
{
    lemma_each_tag_has_its_name(a);
    lemma_each_tag_has_its_name(b);
    reveal_strlit("bt2020");
    reveal_strlit("bt709");
    reveal_strlit("smpte432");
    reveal_strlit("smpte2084");
    reveal_strlit("arib-std-b67");
    reveal_strlit("bt2020-10");
    reveal_strlit("bt2020-12");
    reveal_strlit("bt2020nc");
    reveal_strlit("bt2020c");
    reveal_strlit("tv");
    reveal_strlit("pc");
    reveal_strlit("auto");
    let s = split(a.conversion(), ':');
    assert(s[1].skip("in_primaries="@.len() as int) == split(b.conversion(), ':')[1].skip(
        "in_primaries="@.len() as int,
    ));
    let (p, t, m, r) = (
        "in_primaries="@.len() as int,
        "in_transfer="@.len() as int,
        "in_color_matrix="@.len() as int,
        "in_range="@.len() as int,
    );
    // The last two characters of a name and how long it is tell them apart.
    let (x, y, z, w) = (s[1], s[2], s[3], s[4]);
    assert(x[x.len() - 1] == x[x.len() - 1]);
    assert(named_gamut(a.primaries) ==> a.primaries == b.primaries) by {
        assert(x.last() == x[x.len() - 1] && x.len() > p + 3);
    }
    assert(named_transfer(a.transfer) ==> a.transfer == b.transfer) by {
        assert(y.last() == y[y.len() - 1] && y.len() > t + 3);
    }
    assert(named_matrix(a.matrix) ==> a.matrix == b.matrix) by {
        assert(z.last() == z[z.len() - 1] && z.len() > m + 3);
    }
    assert(a.range == b.range) by {
        assert(w.last() == w[w.len() - 1] && w.len() > r + 1);
    }
}

/// The one or two parts of a fit that is told of the levels alone.
proof fn lemma_levels(word: Seq<char>)
    requires
        unmarked(word, ':'),
    ensures
        split(":in_range="@ + word, ':') == seq![Seq::<char>::empty(), "in_range="@ + word],
{
    lemma_keys();
    reveal_strlit("in_range=");
    reveal_strlit(":in_range=");
    let none = Seq::<char>::empty();
    let part = "in_range="@ + word;
    assert(unmarked(part, ':'));
    assert(":in_range="@ + word =~= none + seq![':'] + part);
    lemma_split_first(none, part, ':');
    lemma_split_last(part, ':');
    assert(seq![none] + seq![part] =~= seq![none, part]);
}

/// What the fit is told of a picture's colour. One with an HDR transfer or in the
/// BT.2020 gamut is converted whole. Of any other nothing is said but its levels, and
/// those only where the caller names them, or where the codec's pictures are at full
/// range and the file says nothing.
pub proof fn lemma_what_the_fit_is_told(color: Option<ColorSignal>, named: Option<ColorRange>)
    ensures
        ({
            let text = color_terms(color, named);
            let terms = split(text, ':');
            let none = Seq::<char>::empty();
            let wide = color is Some && (color->0.transfer is Smpte2084
                || color->0.transfer is AribStdB67 || color->0.primaries is Bt2020);
            let full = color is Some && color->0.implied && color->0.range is Jpeg;
            &&& wide ==> text == color->0.conversion()
            &&& !wide && named == Some(ColorRange::Limited) ==> terms == seq![
                none,
                "in_range="@ + "tv"@,
            ]
            &&& !wide && named == Some(ColorRange::Full) ==> terms == seq![
                none,
                "in_range="@ + "pc"@,
            ]
            &&& !wide && named is None && full ==> terms == seq![none, "in_range="@ + "pc"@]
            &&& !wide && named is None && !full ==> text == none
        }),
{
    reveal_strlit("tv");
    reveal_strlit("pc");
    reveal_strlit(":in_range=pc");
    reveal_strlit(":in_range=tv");
    reveal_strlit(":in_range=");
    lemma_levels("tv"@);
    lemma_levels("pc"@);
    assert(":in_range=pc"@ =~= ":in_range="@ + "pc"@);
}

} // verus!
