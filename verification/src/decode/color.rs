//! How a picture's numbers are read: the levels they span and the colour
//! space they are in.

use crate::text::{lower, lowered, same_text, trim, trimmed};
use vstd::prelude::*;
use vstd::string::*;

verus! {

/// The codecs the reading of a range tells apart.
#[derive(Clone, Copy, Debug, PartialEq, Eq, Structural)]
pub enum Codec {
    Unknown,
    Mjpeg,
    Png,
    Apng,
    Bmp,
    Gif,
    Tiff,
    Webp,
    H264,
    Hevc,
    RawVideo,
    Other,
}

/// The pixel formats the reading of a range tells apart.
#[derive(Clone, Copy, Debug, PartialEq, Eq, Structural)]
pub enum Pixel {
    Unknown,
    Yuv420p,
    Yuv420p10le,
    Nv12,
    Yuvj420p,
    Yuvj422p,
    Yuvj444p,
    Yuvj440p,
    Yuvj411p,
    Rgb24,
    Bgr24,
    Rgba,
    Bgra,
    Argb,
    Abgr,
    Zrgb,
    Zbgr,
    Rgb8,
    Bgr8,
    Pal8,
    Rgb48be,
    Rgb48le,
    Rgba64be,
    Rgba64le,
    Rgb565be,
    Rgb565le,
    Rgb555be,
    Rgb555le,
    Gbrp,
    Gbrap,
    Gbrp10be,
    Gbrp10le,
    Gbrp12be,
    Gbrp12le,
    Gbrp16be,
    Gbrp16le,
    Gbrap10be,
    Gbrap10le,
    Gbrap12be,
    Gbrap12le,
    Gbrap16be,
    Gbrap16le,
    X2rgb10le,
    X2rgb10be,
    X2bgr10le,
    X2bgr10be,
    /// Any other that is RGB, by the library's own number.
    OtherRgb(i32),
    /// Any other, by the library's own number.
    Other(i32),
}

/// A stream's gamut tag.
#[derive(Clone, Copy, Debug, PartialEq, Eq, Structural)]
pub enum Primaries {
    Unspecified,
    Bt709,
    Bt2020,
    Smpte432,
    Other,
}

/// A stream's transfer curve tag.
#[derive(Clone, Copy, Debug, PartialEq, Eq, Structural)]
pub enum Transfer {
    Unspecified,
    Bt709,
    Smpte2084,
    AribStdB67,
    Bt2020Ten,
    Bt2020Twelve,
    Other,
}

/// A stream's matrix tag.
#[derive(Clone, Copy, Debug, PartialEq, Eq, Structural)]
pub enum Space {
    Unspecified,
    Bt709,
    Bt2020Ncl,
    Bt2020Cl,
    Other,
}

/// A stream's range tag.
#[derive(Clone, Copy, Debug, PartialEq, Eq, Structural)]
pub enum Range {
    Unspecified,
    Mpeg,
    Jpeg,
}

/// The levels a picture's numbers span: video range, black at 16 and white at
/// 235 of 255, or full range, 0 to 255. A file tagged the wrong one shows grey
/// where it should show black, or clips its shadows and highlights.
#[derive(Clone, Copy, Debug, PartialEq, Eq, Hash, Structural)]
pub enum ColorRange {
    /// 16 to 235. The default everywhere.
    Limited,
    /// 0 to 255.
    Full,
}

/// Whether a codec holds pictures, which are full range by definition.
pub open spec fn is_picture(codec: Codec) -> bool {
    codec is Mjpeg || codec is Png || codec is Apng || codec is Bmp || codec is Gif || codec is Tiff
        || codec is Webp
}

/// Whether a format is YCbCr at video range unless tagged, or one nobody here
/// tells apart. Every other format is RGB, for which there is no matrix to be
/// limited under, or says it is full.
pub open spec fn is_untold(pixel: Pixel) -> bool {
    pixel is Unknown || pixel is Yuv420p || pixel is Yuv420p10le || pixel is Nv12
        || pixel is Other
}

impl ColorRange {
    /// The levels a stream that says nothing is taken to span.
    pub open spec fn implied_by(codec: Codec, pixel: Pixel) -> ColorRange {
        if is_picture(codec) || !is_untold(pixel) {
            ColorRange::Full
        } else {
            ColorRange::Limited
        }
    }

    /// The name a document or a request stores.
    pub open spec fn spelled(self) -> Seq<char> {
        match self {
            ColorRange::Limited => "limited"@,
            ColorRange::Full => "full"@,
        }
    }

    /// The levels a stored name means.
    pub open spec fn meant(name: Seq<char>) -> Option<ColorRange> {
        let word = lowered(trimmed(name));
        if word == "limited"@ || word == "tv"@ || word == "video"@ || word == "mpeg"@ {
            Some(ColorRange::Limited)
        } else if word == "full"@ || word == "pc"@ || word == "jpeg"@ {
            Some(ColorRange::Full)
        } else {
            None
        }
    }

    /// The tag that says these levels.
    pub open spec fn tag(self) -> Range {
        match self {
            ColorRange::Limited => Range::Mpeg,
            ColorRange::Full => Range::Jpeg,
        }
    }

    /// The `scale` filter's word for these levels.
    pub open spec fn scale_word(self) -> Seq<char> {
        match self {
            ColorRange::Limited => "tv"@,
            ColorRange::Full => "pc"@,
        }
    }

    /// Every range, in the order a menu lists them.
    pub fn all() -> (r: Vec<ColorRange>)
        ensures
            r@ == seq![ColorRange::Limited, ColorRange::Full],
    {
        vec![ColorRange::Limited, ColorRange::Full]
    }

    /// The range a stream is taken to span when its file says nothing, read off
    /// what the codec and its pixels are by convention. A hardware decoder
    /// hands a full-range stream back in a plain format, which is why the codec
    /// is asked as well as the pixels.
    pub fn implied(codec: Codec, pixel: Pixel) -> (r: ColorRange)
        ensures
            r == ColorRange::implied_by(codec, pixel),
    {
        let picture: bool = matches!(
            codec,
            Codec::Mjpeg
                | Codec::Png
                | Codec::Apng
                | Codec::Bmp
                | Codec::Gif
                | Codec::Tiff
                | Codec::Webp
        );
        let full_pixels: bool = matches!(
            pixel,
            Pixel::Yuvj420p
                | Pixel::Yuvj422p
                | Pixel::Yuvj444p
                | Pixel::Yuvj440p
                | Pixel::Yuvj411p
                | Pixel::Rgb24
                | Pixel::Bgr24
                | Pixel::Rgba
                | Pixel::Bgra
                | Pixel::Argb
                | Pixel::Abgr
                | Pixel::Zrgb
                | Pixel::Zbgr
                | Pixel::Rgb8
                | Pixel::Bgr8
                | Pixel::Pal8
                | Pixel::Rgb48be
                | Pixel::Rgb48le
                | Pixel::Rgba64be
                | Pixel::Rgba64le
                | Pixel::Rgb565be
                | Pixel::Rgb565le
                | Pixel::Rgb555be
                | Pixel::Rgb555le
                | Pixel::Gbrp
                | Pixel::Gbrap
                | Pixel::Gbrp10be
                | Pixel::Gbrp10le
                | Pixel::Gbrp12be
                | Pixel::Gbrp12le
                | Pixel::Gbrp16be
                | Pixel::Gbrp16le
                | Pixel::Gbrap10be
                | Pixel::Gbrap10le
                | Pixel::Gbrap12be
                | Pixel::Gbrap12le
                | Pixel::Gbrap16be
                | Pixel::Gbrap16le
                | Pixel::X2rgb10le
                | Pixel::X2rgb10be
                | Pixel::X2bgr10le
                | Pixel::X2bgr10be
                | Pixel::OtherRgb(_)
        );
        if picture || full_pixels {
            ColorRange::Full
        } else {
            ColorRange::Limited
        }
    }

    /// The name a document or a request stores.
    pub fn name(self) -> (r: &'static str)
        ensures
            r@ == self.spelled(),
    {
        match self {
            ColorRange::Limited => "limited",
            ColorRange::Full => "full",
        }
    }

    /// The range a stored name means, or none for one nobody stores.
    pub fn parse(name: &str) -> (r: Option<ColorRange>)
        ensures
            r == ColorRange::meant(name@),
    {
        let word: String = lower(trim(name).as_str());
        let word: &str = word.as_str();
        if same_text(word, "limited") || same_text(word, "tv") || same_text(word, "video")
            || same_text(word, "mpeg") {
            Some(ColorRange::Limited)
        } else if same_text(word, "full") || same_text(word, "pc") || same_text(word, "jpeg") {
            Some(ColorRange::Full)
        } else {
            None
        }
    }

    /// What the levels are called on a label.
    pub fn label(self) -> (r: &'static str)
        ensures
            r@ == (match self {
                ColorRange::Limited => "Limited"@,
                ColorRange::Full => "Full"@,
            }),
    {
        match self {
            ColorRange::Limited => "Limited",
            ColorRange::Full => "Full",
        }
    }

    /// The tag that says these levels.
    pub fn as_ffmpeg(self) -> (r: Range)
        ensures
            r == self.tag(),
    {
        match self {
            ColorRange::Limited => Range::Mpeg,
            ColorRange::Full => Range::Jpeg,
        }
    }

    /// A tag read back: none for a stream that says nothing.
    pub fn from_ffmpeg(range: Range) -> (r: Option<ColorRange>)
        ensures
            match r {
                Some(levels) => range == levels.tag(),
                None => range is Unspecified,
            },
    {
        match range {
            Range::Mpeg => Some(ColorRange::Limited),
            Range::Jpeg => Some(ColorRange::Full),
            Range::Unspecified => None,
        }
    }

    /// The `scale` filter's word for these levels.
    pub fn scale_name(self) -> (r: &'static str)
        ensures
            r@ == self.scale_word(),
    {
        match self {
            ColorRange::Limited => "tv",
            ColorRange::Full => "pc",
        }
    }
}

impl Default for ColorRange {
    fn default() -> (r: ColorRange)
        ensures
            r is Limited,
    {
        ColorRange::Limited
    }
}

/// What each range is called reads back as the range itself.
pub proof fn lemma_name_parses(range: ColorRange)
    ensures
        ColorRange::meant(range.spelled()) == Some(range),
{
    reveal_strlit("limited");
    reveal_strlit("full");
    reveal_strlit("tv");
    reveal_strlit("video");
    reveal_strlit("mpeg");
    let name = range.spelled();
    assert(crate::text::first_mark(name, 0) == 0);
    assert(crate::text::trimmed_end(name, 0, name.len()) == name.len());
    assert(trimmed(name) =~= name);
    assert(lowered(name) =~= name);
    assert("full"@[0] == 'f');
    assert("limited"@[0] == 'l');
    assert("tv"@[0] == 't');
    assert("video"@[0] == 'v');
    assert("mpeg"@[0] == 'm');
}

/// How a stream says its colour is encoded. Unspecified where it says nothing,
/// and then it is taken for BT.709.
#[derive(Clone, Copy, Debug, PartialEq, Eq, Structural)]
pub struct ColorSignal {
    /// The gamut.
    pub primaries: Primaries,
    /// The transfer curve.
    pub transfer: Transfer,
    /// The YCbCr matrix.
    pub matrix: Space,
    /// Video or full range.
    pub range: Range,
    /// Whether the range is a reading of the codec rather than the file's tag
    /// or the caller's word. The frames then carry no tag either, so a full
    /// reading has to be named to the fit.
    pub implied: bool,
}

impl ColorSignal {
    /// Whether the transfer is a high dynamic range one.
    pub open spec fn hdr(self) -> bool {
        self.transfer is Smpte2084 || self.transfer is AribStdB67
    }

    /// Whether the picture is outside BT.709: an HDR transfer, or the BT.2020
    /// gamut.
    pub open spec fn wide(self) -> bool {
        self.hdr() || self.primaries is Bt2020
    }

    /// The `scale` arguments that bring a wide picture into BT.709.
    pub open spec fn conversion(self) -> Seq<char> {
        ":in_primaries="@ + (match self.primaries {
            Primaries::Bt2020 => "bt2020"@,
            Primaries::Bt709 => "bt709"@,
            Primaries::Smpte432 => "smpte432"@,
            _ => "auto"@,
        }) + ":in_transfer="@ + (match self.transfer {
            Transfer::Smpte2084 => "smpte2084"@,
            Transfer::AribStdB67 => "arib-std-b67"@,
            Transfer::Bt2020Ten => "bt2020-10"@,
            Transfer::Bt2020Twelve => "bt2020-12"@,
            Transfer::Bt709 => "bt709"@,
            _ => "auto"@,
        }) + ":in_color_matrix="@ + (match self.matrix {
            Space::Bt2020Ncl => "bt2020nc"@,
            Space::Bt2020Cl => "bt2020c"@,
            Space::Bt709 => "bt709"@,
            _ => "auto"@,
        }) + ":in_range="@ + (match self.range {
            Range::Mpeg => "tv"@,
            Range::Jpeg => "pc"@,
            Range::Unspecified => "auto"@,
        })
            + ":out_primaries=bt709:out_transfer=bt709:out_color_matrix=bt709:out_range=tv:intent=perceptual"@
    }

    /// The signal of a stream: its tags, with the caller's range over the
    /// file's, and the codec's convention where neither says.
    pub open spec fn of(
        primaries: Primaries,
        transfer: Transfer,
        matrix: Space,
        tagged: Range,
        named: Option<ColorRange>,
        codec: Codec,
        pixel: Pixel,
    ) -> ColorSignal {
        ColorSignal {
            primaries,
            transfer,
            matrix,
            range: match named {
                Some(range) => range.tag(),
                None => if tagged is Unspecified {
                    ColorRange::implied_by(codec, pixel).tag()
                } else {
                    tagged
                },
            },
            implied: named is None && tagged is Unspecified,
        }
    }

    /// Reads a stream's signal.
    pub fn read(
        primaries: Primaries,
        transfer: Transfer,
        matrix: Space,
        tagged: Range,
        named: Option<ColorRange>,
        codec: Codec,
        pixel: Pixel,
    ) -> (r: ColorSignal)
        ensures
            r == ColorSignal::of(primaries, transfer, matrix, tagged, named, codec, pixel),
    {
        let unsaid: bool = matches!(tagged, Range::Unspecified);
        let range: Range = match named {
            Some(range) => range.as_ffmpeg(),
            None => if unsaid {
                ColorRange::implied(codec, pixel).as_ffmpeg()
            } else {
                tagged
            },
        };
        ColorSignal { primaries, transfer, matrix, range, implied: named.is_none() && unsaid }
    }

    /// Whether the picture is outside BT.709 and needs converting on the way
    /// in.
    pub fn is_wide(&self) -> (r: bool)
        ensures
            r == self.wide(),
    {
        self.is_hdr() || matches!(self.primaries, Primaries::Bt2020)
    }

    /// Whether the transfer is PQ or HLG.
    pub fn is_hdr(&self) -> (r: bool)
        ensures
            r == self.hdr(),
    {
        matches!(self.transfer, Transfer::Smpte2084 | Transfer::AribStdB67)
    }

    /// The `scale` arguments that bring a wide picture into BT.709: the
    /// source's tags named where it has them, `auto` where it does not, and
    /// BT.709 out, tone-mapped rather than clipped.
    pub fn bt709_args(self) -> (r: String)
        ensures
            r@ == self.conversion(),
    {
        let primaries: &str = match self.primaries {
            Primaries::Bt2020 => "bt2020",
            Primaries::Bt709 => "bt709",
            Primaries::Smpte432 => "smpte432",
            _ => "auto",
        };
        let transfer: &str = match self.transfer {
            Transfer::Smpte2084 => "smpte2084",
            Transfer::AribStdB67 => "arib-std-b67",
            Transfer::Bt2020Ten => "bt2020-10",
            Transfer::Bt2020Twelve => "bt2020-12",
            Transfer::Bt709 => "bt709",
            _ => "auto",
        };
        let matrix: &str = match self.matrix {
            Space::Bt2020Ncl => "bt2020nc",
            Space::Bt2020Cl => "bt2020c",
            Space::Bt709 => "bt709",
            _ => "auto",
        };
        let range: &str = match self.range {
            Range::Mpeg => "tv",
            Range::Jpeg => "pc",
            Range::Unspecified => "auto",
        };
        let mut s: String = ":in_primaries=".to_owned();
        s.append(primaries);
        s.append(":in_transfer=");
        s.append(transfer);
        s.append(":in_color_matrix=");
        s.append(matrix);
        s.append(":in_range=");
        s.append(range);
        s.append(
            ":out_primaries=bt709:out_transfer=bt709:out_color_matrix=bt709:out_range=tv:intent=perceptual",
        );
        s
    }
}

} // verus!
