//! Titles and transitions: the styling a clip carries beyond its picture.

use crate::number::{clamped, larger, num, Number, ONE, ZERO};
use crate::ranges::{finite, finite_or};
use vstd::prelude::*;

verus! {

/// How a title's lines sit within their block, and which point of the block the
/// clip's position pins.
#[derive(Clone, Copy, PartialEq, Eq, Debug, Structural)]
pub enum TextAlign {
    Left,
    Center,
    Right,
}

/// The size a title starts with: 0.09.
pub const FONT_SIZE: u64 = 0x3fb7_0a3d_70a3_d70a;

/// The weight a title starts with: 700.0.
pub const FONT_WEIGHT: u64 = 0x4085_e000_0000_0000;

/// The corner radius a title's background starts with: 0.0135.
pub const BACKGROUND_RADIUS: u64 = 0x3f8b_a5e3_53f7_ced9;

/// The air beside a title's words: 0.0315.
pub const BACKGROUND_PADDING_X: u64 = 0x3fa0_20c4_9ba5_e354;

/// The air above and below a title's words: 0.018.
pub const BACKGROUND_PADDING_Y: u64 = 0x3f92_6e97_8d4f_df3b;

/// The spacing a title's lines start with: 1.2.
pub const LINE_HEIGHT: u64 = 0x3ff3_3333_3333_3333;

/// The smallest a title is drawn: 0.01.
pub const MIN_FONT_SIZE: u64 = 0x3f84_7ae1_47ae_147b;

/// The lightest a title is drawn: 100.0.
pub const MIN_FONT_WEIGHT: u64 = 0x4059_0000_0000_0000;

/// The heaviest a title is drawn: 900.0.
pub const MAX_FONT_WEIGHT: u64 = 0x408c_2000_0000_0000;

/// The closest lines may come: 0.5.
pub const MIN_LINE_HEIGHT: u64 = 0x3fe0_0000_0000_0000;

/// A title's styling. Sizes are fractions of the frame.
#[derive(Debug)]
pub struct TextStyle {
    /// The words themselves, newlines included.
    pub content: String,
    /// CSS-style family name, quotes included where the name needs them.
    pub font_family: String,
    /// Cap height as a fraction of frame height.
    pub font_size: Number,
    /// CSS-scale weight, 100..=900.
    pub font_weight: Number,
    /// Italic when true.
    pub italic: bool,
    /// Fill colour as a CSS hex string.
    pub color: String,
    /// Line alignment within the block.
    pub align: TextAlign,
    /// Opacity of the whole title in 0..=1.
    pub opacity: Number,
    /// Outline thickness as a fraction of frame height; zero is none.
    pub stroke_width: Number,
    /// Outline colour.
    pub stroke_color: String,
    /// A drop shadow for legibility over footage.
    pub shadow: bool,
    /// A solid background behind the text, empty for none.
    pub background: String,
    /// The background's corner radius as a fraction of frame height.
    pub background_radius: Number,
    /// The air between the words and the background's sides.
    pub background_padding_x: Number,
    /// The same above and below.
    pub background_padding_y: Number,
    /// Baseline spacing as a multiple of the font size.
    pub line_height: Number,
    /// Extra letter spacing.
    pub tracking: Number,
    /// The widest a line may run, zero for no limit.
    pub max_width: Number,
    /// The box's height, zero for the words' own.
    pub max_height: Number,
}

/// What a title's styling says.
#[verifier::ext_equal]
pub struct StyleView {
    pub content: Seq<char>,
    pub font_family: Seq<char>,
    pub font_size: Number,
    pub font_weight: Number,
    pub italic: bool,
    pub color: Seq<char>,
    pub align: TextAlign,
    pub opacity: Number,
    pub stroke_width: Number,
    pub stroke_color: Seq<char>,
    pub shadow: bool,
    pub background: Seq<char>,
    pub background_radius: Number,
    pub background_padding_x: Number,
    pub background_padding_y: Number,
    pub line_height: Number,
    pub tracking: Number,
    pub max_width: Number,
    pub max_height: Number,
}

impl View for TextStyle {
    type V = StyleView;

    open spec fn view(&self) -> StyleView {
        StyleView {
            content: self.content@,
            font_family: self.font_family@,
            font_size: self.font_size,
            font_weight: self.font_weight,
            italic: self.italic,
            color: self.color@,
            align: self.align,
            opacity: self.opacity,
            stroke_width: self.stroke_width,
            stroke_color: self.stroke_color@,
            shadow: self.shadow,
            background: self.background@,
            background_radius: self.background_radius,
            background_padding_x: self.background_padding_x,
            background_padding_y: self.background_padding_y,
            line_height: self.line_height,
            tracking: self.tracking,
            max_width: self.max_width,
            max_height: self.max_height,
        }
    }
}

impl StyleView {
    /// The styling a title starts with.
    pub open spec fn plain() -> StyleView {
        StyleView {
            content: "Your text"@,
            font_family: "\"Cabinet Grotesk\""@,
            font_size: num(FONT_SIZE),
            font_weight: num(FONT_WEIGHT),
            italic: false,
            color: "#ffffff"@,
            align: TextAlign::Center,
            opacity: num(ONE),
            stroke_width: num(ZERO),
            stroke_color: "#000000"@,
            shadow: true,
            background: ""@,
            background_radius: num(BACKGROUND_RADIUS),
            background_padding_x: num(BACKGROUND_PADDING_X),
            background_padding_y: num(BACKGROUND_PADDING_Y),
            line_height: num(LINE_HEIGHT),
            tracking: num(ZERO),
            max_width: num(ZERO),
            max_height: num(ZERO),
        }
    }

    /// Every number pulled into the range a title can be drawn at.
    pub open spec fn tidied(self) -> StyleView {
        StyleView {
            font_size: clamped(finite_or(self.font_size, num(FONT_SIZE)), num(MIN_FONT_SIZE), num(ONE)),
            font_weight: clamped(finite_or(self.font_weight, num(FONT_WEIGHT)), num(MIN_FONT_WEIGHT), num(MAX_FONT_WEIGHT)),
            opacity: clamped(finite_or(self.opacity, num(ONE)), num(ZERO), num(ONE)),
            stroke_width: larger(finite_or(self.stroke_width, num(ZERO)), num(ZERO)),
            background_radius: larger(finite_or(self.background_radius, num(BACKGROUND_RADIUS)), num(ZERO)),
            background_padding_x: larger(finite_or(self.background_padding_x, num(BACKGROUND_PADDING_X)), num(ZERO)),
            background_padding_y: larger(finite_or(self.background_padding_y, num(BACKGROUND_PADDING_Y)), num(ZERO)),
            line_height: larger(finite_or(self.line_height, num(LINE_HEIGHT)), num(MIN_LINE_HEIGHT)),
            tracking: finite_or(self.tracking, num(ZERO)),
            max_width: larger(finite_or(self.max_width, num(ZERO)), num(ZERO)),
            max_height: larger(finite_or(self.max_height, num(ZERO)), num(ZERO)),
            ..self
        }
    }

    pub open spec fn same(self, other: StyleView) -> bool {
        &&& self.content == other.content
        &&& self.font_family == other.font_family
        &&& self.font_size.same(other.font_size)
        &&& self.font_weight.same(other.font_weight)
        &&& self.italic == other.italic
        &&& self.color == other.color
        &&& self.align == other.align
        &&& self.opacity.same(other.opacity)
        &&& self.stroke_width.same(other.stroke_width)
        &&& self.stroke_color == other.stroke_color
        &&& self.shadow == other.shadow
        &&& self.background == other.background
        &&& self.background_radius.same(other.background_radius)
        &&& self.background_padding_x.same(other.background_padding_x)
        &&& self.background_padding_y.same(other.background_padding_y)
        &&& self.line_height.same(other.line_height)
        &&& self.tracking.same(other.tracking)
        &&& self.max_width.same(other.max_width)
        &&& self.max_height.same(other.max_height)
    }

    /// Whether every number is finite.
    pub open spec fn all_finite(self) -> bool {
        &&& self.font_size.finite()
        &&& self.font_weight.finite()
        &&& self.opacity.finite()
        &&& self.stroke_width.finite()
        &&& self.background_radius.finite()
        &&& self.background_padding_x.finite()
        &&& self.background_padding_y.finite()
        &&& self.line_height.finite()
        &&& self.tracking.finite()
        &&& self.max_width.finite()
        &&& self.max_height.finite()
    }
}

impl Clone for TextStyle {
    fn clone(&self) -> (r: TextStyle)
        ensures
            r@ == self@,
    {
        TextStyle {
            content: self.content.clone(),
            font_family: self.font_family.clone(),
            font_size: self.font_size,
            font_weight: self.font_weight,
            italic: self.italic,
            color: self.color.clone(),
            align: self.align,
            opacity: self.opacity,
            stroke_width: self.stroke_width,
            stroke_color: self.stroke_color.clone(),
            shadow: self.shadow,
            background: self.background.clone(),
            background_radius: self.background_radius,
            background_padding_x: self.background_padding_x,
            background_padding_y: self.background_padding_y,
            line_height: self.line_height,
            tracking: self.tracking,
            max_width: self.max_width,
            max_height: self.max_height,
        }
    }
}

impl Default for TextStyle {
    fn default() -> (r: TextStyle)
        ensures
            r@ == StyleView::plain(),
    {
        TextStyle {
            content: "Your text".to_owned(),
            font_family: "\"Cabinet Grotesk\"".to_owned(),
            font_size: num(FONT_SIZE),
            font_weight: num(FONT_WEIGHT),
            italic: false,
            color: "#ffffff".to_owned(),
            align: TextAlign::Center,
            opacity: num(ONE),
            stroke_width: num(ZERO),
            stroke_color: "#000000".to_owned(),
            shadow: true,
            background: "".to_owned(),
            background_radius: num(BACKGROUND_RADIUS),
            background_padding_x: num(BACKGROUND_PADDING_X),
            background_padding_y: num(BACKGROUND_PADDING_Y),
            line_height: num(LINE_HEIGHT),
            tracking: num(ZERO),
            max_width: num(ZERO),
            max_height: num(ZERO),
        }
    }
}

impl TextStyle {
    /// Every number pulled into the range a title can be drawn at.
    pub fn tidy(self) -> (r: TextStyle)
        ensures
            r@ == self@.tidied(),
    {
        TextStyle {
            font_size: finite(self.font_size, num(FONT_SIZE)).clamp(num(MIN_FONT_SIZE), num(ONE)),
            font_weight: finite(self.font_weight, num(FONT_WEIGHT)).clamp(num(MIN_FONT_WEIGHT), num(MAX_FONT_WEIGHT)),
            opacity: finite(self.opacity, num(ONE)).clamp(num(ZERO), num(ONE)),
            stroke_width: finite(self.stroke_width, num(ZERO)).max(num(ZERO)),
            background_radius: finite(self.background_radius, num(BACKGROUND_RADIUS)).max(num(ZERO)),
            background_padding_x: finite(self.background_padding_x, num(BACKGROUND_PADDING_X)).max(num(ZERO)),
            background_padding_y: finite(self.background_padding_y, num(BACKGROUND_PADDING_Y)).max(num(ZERO)),
            line_height: finite(self.line_height, num(LINE_HEIGHT)).max(num(MIN_LINE_HEIGHT)),
            tracking: finite(self.tracking, num(ZERO)),
            max_width: finite(self.max_width, num(ZERO)).max(num(ZERO)),
            max_height: finite(self.max_height, num(ZERO)).max(num(ZERO)),
            ..self
        }
    }

    pub fn same(&self, other: &TextStyle) -> (r: bool)
        ensures
            r == self@.same(other@),
    {
        self.content == other.content
            && self.font_family == other.font_family
            && self.font_size.equals(other.font_size)
            && self.font_weight.equals(other.font_weight)
            && self.italic == other.italic
            && self.color == other.color
            && self.align == other.align
            && self.opacity.equals(other.opacity)
            && self.stroke_width.equals(other.stroke_width)
            && self.stroke_color == other.stroke_color
            && self.shadow == other.shadow
            && self.background == other.background
            && self.background_radius.equals(other.background_radius)
            && self.background_padding_x.equals(other.background_padding_x)
            && self.background_padding_y.equals(other.background_padding_y)
            && self.line_height.equals(other.line_height)
            && self.tracking.equals(other.tracking)
            && self.max_width.equals(other.max_width)
            && self.max_height.equals(other.max_height)
    }

    /// Whether the numbers a command checks are finite.
    pub fn is_finite(&self) -> (r: bool)
        ensures
            r == self@.all_finite(),
    {
        self.font_size.is_finite()
            && self.font_weight.is_finite()
            && self.opacity.is_finite()
            && self.stroke_width.is_finite()
            && self.background_radius.is_finite()
            && self.background_padding_x.is_finite()
            && self.background_padding_y.is_finite()
            && self.line_height.is_finite()
            && self.tracking.is_finite()
            && self.max_width.is_finite()
            && self.max_height.is_finite()
    }
}

/// A transition on the cut into a clip.
#[derive(Debug)]
pub struct Transition {
    /// Which transition from the catalogue, e.g. "cross-fade".
    pub id: String,
    /// Seconds the transition covers.
    pub duration: Number,
}

/// What a transition says.
#[verifier::ext_equal]
pub struct TransitionView {
    pub id: Seq<char>,
    pub duration: Number,
}

impl View for Transition {
    type V = TransitionView;

    open spec fn view(&self) -> TransitionView {
        TransitionView { id: self.id@, duration: self.duration }
    }
}

impl TransitionView {
    pub open spec fn same(self, other: TransitionView) -> bool {
        self.id == other.id && self.duration.same(other.duration)
    }
}

impl Clone for Transition {
    fn clone(&self) -> (r: Transition)
        ensures
            r@ == self@,
    {
        Transition { id: self.id.clone(), duration: self.duration }
    }
}

impl Transition {
    pub fn same(&self, other: &Transition) -> (r: bool)
        ensures
            r == self@.same(other@),
    {
        self.id == other.id && self.duration.equals(other.duration)
    }
}

} // verus!
