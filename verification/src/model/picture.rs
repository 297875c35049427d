//! What is taken off a picture: crops, and cutouts with their strokes.

use crate::find::lemma_filter_step;
use crate::number::{clamped, difference, larger, num, sum, Number, ZERO};
use crate::ranges::{
    finite, finite_or, DEFAULT_FEATHER, MAX_BRUSH, MAX_CROP, MAX_FEATHER, MAX_STROKE, MIN_BRUSH,
    MIN_STROKE,
};
use vstd::prelude::*;

verus! {

/// The two ways a cutout decides what stays.
#[derive(Clone, Copy, PartialEq, Eq, Debug, Structural)]
pub enum CutoutMode {
    /// The model's mask as it is.
    Auto,
    /// The model's mask, then the strokes over it.
    Custom,
}

/// What a cutout keeps.
#[derive(Clone, Copy, PartialEq, Eq, Debug, Structural)]
pub enum Subject {
    /// A person when the person model finds one, the object otherwise.
    Auto,
    /// The person model, always.
    Person,
    /// The object model, always.
    Object,
}

impl Default for Subject {
    fn default() -> (r: Subject)
        ensures
            r == Subject::Auto,
    {
        Subject::Auto
    }
}

impl Subject {
    /// The name the mask cache is keyed by.
    pub open spec fn spelled(self) -> Seq<char> {
        match self {
            Subject::Auto => "auto"@,
            Subject::Person => "person"@,
            Subject::Object => "object"@,
        }
    }

    /// The default, left out of the document.
    pub fn is_auto(&self) -> (r: bool)
        ensures
            r == (*self == Subject::Auto),
    {
        *self == Subject::Auto
    }

    /// The name the mask cache is keyed by.
    pub fn key(&self) -> (r: &'static str)
        ensures
            r@ == self.spelled(),
    {
        match self {
            Subject::Auto => "auto",
            Subject::Person => "person",
            Subject::Object => "object",
        }
    }
}

/// No two subjects share a key, so masks cached under one are never another's.
pub proof fn lemma_keys_distinct(a: Subject, b: Subject)
    requires
        a.spelled() == b.spelled(),
    ensures
        a == b,
{
    reveal_strlit("auto");
    reveal_strlit("person");
    reveal_strlit("object");
    assert("person"@[0] != "object"@[0]);
}

/// The four brushes of a custom cutout.
#[derive(Clone, Copy, PartialEq, Eq, Debug, Structural)]
pub enum BrushTool {
    /// Keeps what the model thought might be the subject under the stroke.
    SmartBrush,
    /// Keeps everything under the stroke.
    Brush,
    /// Removes what the model was unsure of under the stroke.
    SmartEraser,
    /// Removes everything under the stroke.
    Eraser,
}

/// A point of a stroke, as fractions of the source picture.
#[derive(Clone, Copy, Debug)]
pub struct Point {
    pub x: Number,
    pub y: Number,
}

/// One brush stroke over a cutout: which tool, how wide, and where it went.
#[derive(Debug)]
pub struct Stroke {
    pub tool: BrushTool,
    /// The brush's diameter as a fraction of the picture's width.
    pub size: Number,
    pub points: Vec<Point>,
    /// The source instant, in seconds, the stroke was painted at.
    pub at: Option<Number>,
}

/// How a picture's background is taken away when there is no key colour to
/// remove.
#[derive(Debug)]
pub struct Cutout {
    pub mode: CutoutMode,
    /// What the model looks for.
    pub subject: Subject,
    /// How far the edge is softened, as a fraction of the picture's width.
    pub feather: Number,
    /// Corrections painted on the monitor, in the order they were made.
    pub strokes: Vec<Stroke>,
}

/// What a stroke says.
#[verifier::ext_equal]
pub struct StrokeView {
    pub tool: BrushTool,
    pub size: Number,
    pub points: Seq<Point>,
    pub at: Option<Number>,
}

/// What a cutout says.
#[verifier::ext_equal]
pub struct CutoutView {
    pub mode: CutoutMode,
    pub subject: Subject,
    pub feather: Number,
    pub strokes: Seq<StrokeView>,
}

impl View for Stroke {
    type V = StrokeView;

    open spec fn view(&self) -> StrokeView {
        StrokeView { tool: self.tool, size: self.size, points: self.points@, at: self.at }
    }
}

impl View for Cutout {
    type V = CutoutView;

    open spec fn view(&self) -> CutoutView {
        CutoutView {
            mode: self.mode,
            subject: self.subject,
            feather: self.feather,
            strokes: self.strokes@.map_values(|s: Stroke| s@),
        }
    }
}

impl Point {
    pub open spec fn all_finite(self) -> bool {
        self.x.finite() && self.y.finite()
    }

    pub open spec fn same(self, other: Point) -> bool {
        self.x.same(other.x) && self.y.same(other.y)
    }

    /// The point held to half a picture around the picture.
    pub open spec fn held(self) -> Point {
        Point {
            x: clamped(self.x, num(MIN_STROKE), num(MAX_STROKE)),
            y: clamped(self.y, num(MIN_STROKE), num(MAX_STROKE)),
        }
    }
}

/// Numeric equality of optional numbers.
pub open spec fn option_same(a: Option<Number>, b: Option<Number>) -> bool {
    match (a, b) {
        (Some(x), Some(y)) => x.same(y),
        (None, None) => true,
        _ => false,
    }
}

pub fn same_option(a: Option<Number>, b: Option<Number>) -> (r: bool)
    ensures
        r == option_same(a, b),
{
    match (a, b) {
        (Some(x), Some(y)) => x.equals(y),
        (None, None) => true,
        _ => false,
    }
}

/// Whether an optional number is finite where it is there.
pub open spec fn option_finite(value: Option<Number>) -> bool {
    match value {
        Some(x) => x.finite(),
        None => true,
    }
}

pub fn is_option_finite(value: Option<Number>) -> (r: bool)
    ensures
        r == option_finite(value),
{
    match value {
        Some(x) => x.is_finite(),
        None => true,
    }
}

impl StrokeView {
    /// The points left on or near the picture.
    pub open spec fn tidy_points(self) -> Seq<Point> {
        self.points.filter(|p: Point| p.all_finite()).map_values(|p: Point| p.held())
    }

    /// The stroke with its size and points held to their ranges; None where no
    /// point is left.
    pub open spec fn tidied(self) -> Option<StrokeView> {
        if self.tidy_points().len() == 0 {
            None
        } else {
            Some(
                StrokeView {
                    tool: self.tool,
                    size: if self.size.finite() {
                        clamped(self.size, num(MIN_BRUSH), num(MAX_BRUSH))
                    } else {
                        num(MIN_BRUSH)
                    },
                    points: self.tidy_points(),
                    at: match self.at {
                        Some(at) => if at.finite() {
                            Some(larger(at, num(ZERO)))
                        } else {
                            None
                        },
                        None => None,
                    },
                },
            )
        }
    }

    pub open spec fn same(self, other: StrokeView) -> bool {
        &&& self.tool == other.tool
        &&& self.size.same(other.size)
        &&& self.points.len() == other.points.len()
        &&& forall|i: int|
            0 <= i < self.points.len() ==> (#[trigger] self.points[i]).same(other.points[i])
        &&& option_same(self.at, other.at)
    }

    pub open spec fn all_finite(self) -> bool {
        &&& self.size.finite()
        &&& option_finite(self.at)
        &&& forall|i: int| 0 <= i < self.points.len() ==> (#[trigger] self.points[i]).all_finite()
    }
}

/// The strokes that have somewhere to go, tidied.
pub open spec fn tidied_strokes(strokes: Seq<StrokeView>) -> Seq<StrokeView>
    decreases strokes.len(),
{
    if strokes.len() == 0 {
        Seq::empty()
    } else {
        let rest = tidied_strokes(strokes.drop_last());
        match strokes.last().tidied() {
            Some(stroke) => rest.push(stroke),
            None => rest,
        }
    }
}

impl CutoutView {
    /// An automatic cutout with the default edge.
    pub open spec fn automatic() -> CutoutView {
        CutoutView {
            mode: CutoutMode::Auto,
            subject: Subject::Auto,
            feather: num(DEFAULT_FEATHER),
            strokes: Seq::empty(),
        }
    }

    pub open spec fn tidied(self) -> CutoutView {
        CutoutView {
            mode: self.mode,
            subject: self.subject,
            feather: if self.feather.finite() {
                clamped(self.feather, num(ZERO), num(MAX_FEATHER))
            } else {
                num(DEFAULT_FEATHER)
            },
            strokes: tidied_strokes(self.strokes),
        }
    }

    pub open spec fn same(self, other: CutoutView) -> bool {
        &&& self.mode == other.mode
        &&& self.subject == other.subject
        &&& self.feather.same(other.feather)
        &&& self.strokes.len() == other.strokes.len()
        &&& forall|i: int|
            0 <= i < self.strokes.len() ==> (#[trigger] self.strokes[i]).same(other.strokes[i])
    }

    pub open spec fn all_finite(self) -> bool {
        &&& self.feather.finite()
        &&& forall|i: int|
            0 <= i < self.strokes.len() ==> (#[trigger] self.strokes[i]).all_finite()
    }
}

impl Clone for Stroke {
    fn clone(&self) -> (r: Stroke)
        ensures
            r@ == self@,
    {
        let points: Vec<Point> = self.points.clone();
        assert(points@ =~= self.points@);
        Stroke { tool: self.tool, size: self.size, points, at: self.at }
    }
}

impl Stroke {
    /// Whether the stroke's tool reads the picture rather than painting a disc.
    pub fn is_smart(&self) -> (r: bool)
        ensures
            r == (self.tool == BrushTool::SmartBrush || self.tool == BrushTool::SmartEraser),
    {
        self.tool == BrushTool::SmartBrush || self.tool == BrushTool::SmartEraser
    }

    /// The size held to its range and the points to the picture; None for a
    /// stroke with no points left.
    pub fn tidy(self) -> (r: Option<Stroke>)
        ensures
            match r {
                Some(stroke) => self@.tidied() == Some(stroke@),
                None => self@.tidied() is None,
            },
    {
        let size: Number = if self.size.is_finite() {
            self.size.clamp(num(MIN_BRUSH), num(MAX_BRUSH))
        } else {
            num(MIN_BRUSH)
        };
        let at: Option<Number> = match self.at {
            Some(at) => if at.is_finite() {
                Some(at.max(num(ZERO)))
            } else {
                None
            },
            None => None,
        };
        let ghost good = |p: Point| p.all_finite();
        let ghost held = |p: Point| p.held();
        let mut points: Vec<Point> = Vec::new();
        let mut i: usize = 0;
        proof {
            reveal(Seq::filter);
            assert(self.points@.take(0).filter(good).map_values(held) =~= Seq::<Point>::empty());
        }
        while i < self.points.len()
            invariant
                i <= self.points.len(),
                good == (|p: Point| p.all_finite()),
                held == (|p: Point| p.held()),
                points@ == self.points@.take(i as int).filter(good).map_values(held),
            decreases self.points.len() - i,
        {
            let p: Point = self.points[i];
            proof {
                lemma_filter_step(self.points@, good, i as int);
                let sofar = self.points@.take(i as int).filter(good);
                assert(sofar.push(p).map_values(held) =~= sofar.map_values(held).push(held(p)));
            }
            if p.x.is_finite() && p.y.is_finite() {
                points.push(
                    Point {
                        x: p.x.clamp(num(MIN_STROKE), num(MAX_STROKE)),
                        y: p.y.clamp(num(MIN_STROKE), num(MAX_STROKE)),
                    },
                );
            }
            i = i + 1;
        }
        assert(self.points@.take(self.points@.len() as int) =~= self.points@);
        if points.len() == 0 {
            None
        } else {
            Some(Stroke { tool: self.tool, size, points, at })
        }
    }

    pub fn same(&self, other: &Stroke) -> (r: bool)
        ensures
            r == self@.same(other@),
    {
        if self.tool != other.tool || !self.size.equals(other.size) || self.points.len()
            != other.points.len() || !same_option(self.at, other.at) {
            return false;
        }
        let mut i: usize = 0;
        while i < self.points.len()
            invariant
                i <= self.points.len() == other.points.len(),
                forall|j: int| 0 <= j < i ==> (#[trigger] self.points@[j]).same(other.points@[j]),
            decreases self.points.len() - i,
        {
            let a: Point = self.points[i];
            let b: Point = other.points[i];
            if !(a.x.equals(b.x) && a.y.equals(b.y)) {
                assert(!self@.points[i as int].same(other@.points[i as int]));
                return false;
            }
            i = i + 1;
        }
        true
    }

    /// Whether every number of the stroke is finite.
    pub fn is_finite(&self) -> (r: bool)
        ensures
            r == self@.all_finite(),
    {
        if !self.size.is_finite() || !is_option_finite(self.at) {
            return false;
        }
        let mut i: usize = 0;
        while i < self.points.len()
            invariant
                i <= self.points.len(),
                forall|j: int| 0 <= j < i ==> (#[trigger] self.points@[j]).all_finite(),
            decreases self.points.len() - i,
        {
            if !(self.points[i].x.is_finite() && self.points[i].y.is_finite()) {
                assert(!self@.points[i as int].all_finite());
                return false;
            }
            i = i + 1;
        }
        true
    }
}

impl Clone for Cutout {
    fn clone(&self) -> (r: Cutout)
        ensures
            r@ == self@,
    {
        let mut strokes: Vec<Stroke> = Vec::new();
        let mut i: usize = 0;
        while i < self.strokes.len()
            invariant
                i <= self.strokes.len(),
                strokes.len() == i,
                forall|j: int| 0 <= j < i ==> (#[trigger] strokes@[j])@ == self.strokes@[j]@,
            decreases self.strokes.len() - i,
        {
            strokes.push(self.strokes[i].clone());
            i = i + 1;
        }
        let r: Cutout = Cutout {
            mode: self.mode,
            subject: self.subject,
            feather: self.feather,
            strokes,
        };
        assert(r@.strokes =~= self@.strokes);
        r
    }
}

impl Cutout {
    /// An automatic cutout with the default edge.
    pub fn auto() -> (r: Cutout)
        ensures
            r@ == CutoutView::automatic(),
    {
        let r: Cutout = Cutout {
            mode: CutoutMode::Auto,
            subject: Subject::Auto,
            feather: num(DEFAULT_FEATHER),
            strokes: Vec::new(),
        };
        assert(r@.strokes =~= Seq::<StrokeView>::empty());
        r
    }

    /// The feather held to its range, every stroke to its own, and strokes with
    /// nowhere to go dropped.
    pub fn tidy(self) -> (r: Cutout)
        ensures
            r@ == self@.tidied(),
    {
        let feather: Number = if self.feather.is_finite() {
            self.feather.clamp(num(ZERO), num(MAX_FEATHER))
        } else {
            num(DEFAULT_FEATHER)
        };
        let ghost views = self@.strokes;
        let mut strokes: Vec<Stroke> = Vec::new();
        let mut i: usize = 0;
        assert(strokes@.map_values(|s: Stroke| s@) =~= tidied_strokes(views.take(0)));
        while i < self.strokes.len()
            invariant
                i <= self.strokes.len(),
                views == self@.strokes,
                strokes@.map_values(|s: Stroke| s@) == tidied_strokes(views.take(i as int)),
            decreases self.strokes.len() - i,
        {
            let ghost before = strokes@;
            proof {
                assert(views.take(i as int + 1).drop_last() =~= views.take(i as int));
                assert(views.take(i as int + 1).last() == self.strokes@[i as int]@);
            }
            match self.strokes[i].clone().tidy() {
                Some(stroke) => {
                    strokes.push(stroke);
                    assert(strokes@.map_values(|s: Stroke| s@) =~= before.map_values(
                        |s: Stroke| s@,
                    ).push(stroke@));
                },
                None => {},
            }
            i = i + 1;
        }
        assert(views.take(views.len() as int) =~= views);
        Cutout { mode: self.mode, subject: self.subject, feather, strokes }
    }

    pub fn same(&self, other: &Cutout) -> (r: bool)
        ensures
            r == self@.same(other@),
    {
        if self.mode != other.mode || self.subject != other.subject || !self.feather.equals(
            other.feather,
        ) || self.strokes.len() != other.strokes.len() {
            return false;
        }
        let mut i: usize = 0;
        while i < self.strokes.len()
            invariant
                i <= self.strokes.len() == other.strokes.len(),
                forall|j: int| 0 <= j < i ==> (#[trigger] self@.strokes[j]).same(other@.strokes[j]),
            decreases self.strokes.len() - i,
        {
            if !self.strokes[i].same(&other.strokes[i]) {
                assert(!self@.strokes[i as int].same(other@.strokes[i as int]));
                return false;
            }
            i = i + 1;
        }
        true
    }

    /// Whether every number of the cutout is finite.
    pub fn is_finite(&self) -> (r: bool)
        ensures
            r == self@.all_finite(),
    {
        if !self.feather.is_finite() {
            return false;
        }
        let mut i: usize = 0;
        while i < self.strokes.len()
            invariant
                i <= self.strokes.len(),
                forall|j: int| 0 <= j < i ==> (#[trigger] self@.strokes[j]).all_finite(),
            decreases self.strokes.len() - i,
        {
            if !self.strokes[i].is_finite() {
                assert(!self@.strokes[i as int].all_finite());
                return false;
            }
            i = i + 1;
        }
        true
    }
}

/// A crop: what is taken off each edge, as fractions of the source.
#[derive(Clone, Copy, Debug)]
pub struct Crop {
    pub left: Number,
    pub top: Number,
    pub right: Number,
    pub bottom: Number,
}

impl Crop {
    pub open spec fn nothing(self) -> bool {
        self.left.at_most(num(ZERO)) && self.top.at_most(num(ZERO)) && self.right.at_most(num(ZERO))
            && self.bottom.at_most(num(ZERO))
    }

    /// The far one of a pair of edges, pulled back where the two together take
    /// more than a crop may.
    pub open spec fn pulled_back(near: Number, far: Number) -> Number {
        if num(MAX_CROP).less(sum(near, far)) {
            larger(difference(num(MAX_CROP), near), num(ZERO))
        } else {
            far
        }
    }

    /// What an edge takes off, held to what it may; nothing where it is no finite
    /// number.
    pub open spec fn held(edge: Number) -> Number {
        clamped(finite_or(edge, num(ZERO)), num(ZERO), num(MAX_CROP))
    }

    pub open spec fn tidied(self) -> Crop {
        let left = Crop::held(self.left);
        let top = Crop::held(self.top);
        Crop {
            left,
            top,
            right: Crop::pulled_back(left, Crop::held(self.right)),
            bottom: Crop::pulled_back(top, Crop::held(self.bottom)),
        }
    }

    pub open spec fn same(self, other: Crop) -> bool {
        self.left.same(other.left) && self.top.same(other.top) && self.right.same(other.right)
            && self.bottom.same(other.bottom)
    }

    pub open spec fn all_finite(self) -> bool {
        self.left.finite() && self.top.finite() && self.right.finite() && self.bottom.finite()
    }

    /// True when nothing is cut.
    pub fn is_none(&self) -> (r: bool)
        ensures
            r == self.nothing(),
    {
        self.left.up_to(num(ZERO)) && self.top.up_to(num(ZERO)) && self.right.up_to(num(ZERO))
            && self.bottom.up_to(num(ZERO))
    }

    /// Each edge held to `0..=0.9`, one that is no finite number taking nothing
    /// off, and a pair that would meet pulled back so at least a tenth of the
    /// picture is left.
    pub fn tidy(self) -> (r: Crop)
        ensures
            r == self.tidied(),
    {
        let left: Number = finite(self.left, num(ZERO)).clamp(num(ZERO), num(MAX_CROP));
        let top: Number = finite(self.top, num(ZERO)).clamp(num(ZERO), num(MAX_CROP));
        let mut right: Number = finite(self.right, num(ZERO)).clamp(num(ZERO), num(MAX_CROP));
        let mut bottom: Number = finite(self.bottom, num(ZERO)).clamp(num(ZERO), num(MAX_CROP));
        if num(MAX_CROP).below(left.plus(right)) {
            right = num(MAX_CROP).minus(left).max(num(ZERO));
        }
        if num(MAX_CROP).below(top.plus(bottom)) {
            bottom = num(MAX_CROP).minus(top).max(num(ZERO));
        }
        Crop { left, top, right, bottom }
    }

    pub fn equals(&self, other: &Crop) -> (r: bool)
        ensures
            r == self.same(*other),
    {
        self.left.equals(other.left) && self.top.equals(other.top) && self.right.equals(other.right)
            && self.bottom.equals(other.bottom)
    }

    pub fn is_finite(&self) -> (r: bool)
        ensures
            r == self.all_finite(),
    {
        self.left.is_finite() && self.top.is_finite() && self.right.is_finite()
            && self.bottom.is_finite()
    }
}

impl Default for Crop {
    fn default() -> (r: Crop)
        ensures
            r == (Crop { left: num(ZERO), top: num(ZERO), right: num(ZERO), bottom: num(ZERO) }),
    {
        Crop { left: num(ZERO), top: num(ZERO), right: num(ZERO), bottom: num(ZERO) }
    }
}

} // verus!
