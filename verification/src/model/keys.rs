//! Keys: values set at points of a clip, and how the run between them is
//! approached.

use crate::find::lemma_filter_step;
use crate::number::{absolute, clamped, difference, num, total_rank, Number, ONE, ZERO};
use crate::order::{sorted, stable_sort, Ranked};
use crate::ranges::{in_clip, is_in_clip, EASE_EPSILON, KEY_EPSILON};
use crate::text::same_text;
use vstd::prelude::*;

verus! {

/// Which property a user-set key belongs to. Five of the six are the
/// picture's; the sixth is the mix's.
#[derive(Clone, Copy, PartialEq, Eq, Debug, Structural)]
pub enum KeyProperty {
    Scale,
    OffsetX,
    OffsetY,
    Rotation,
    Opacity,
    Volume,
}

/// How a key is approached from the one before it: a timing function's two
/// control points.
#[derive(Clone, Copy, Debug)]
pub struct KeyEase {
    pub x1: Number,
    pub y1: Number,
    pub x2: Number,
    pub y2: Number,
}

/// One user-set key: a property, a point in the clip, and the value there, in
/// the property's own units.
#[derive(Clone, Copy, Debug)]
pub struct ClipKey {
    pub property: KeyProperty,
    /// Where in the clip, as a fraction of its timeline length, `0..=1`.
    pub at: Number,
    pub value: Number,
    /// How this key is approached from the previous one.
    pub ease: KeyEase,
}

/// One key on one parameter of an applied effect, or one point of any ride.
#[derive(Clone, Copy, Debug)]
pub struct ParamKey {
    /// Where in the clip, as a fraction of its timeline length, `0..=1`.
    pub at: Number,
    pub value: Number,
    pub ease: KeyEase,
}

/// One point of a speed curve.
#[derive(Clone, Copy, Debug)]
pub struct SpeedPoint {
    /// Where in the clip, as a fraction of its timeline length, `0..=1`.
    pub at: Number,
    /// Source seconds per timeline second there.
    pub speed: Number,
}

/// The x of a slow start: 0.42.
pub const EASE_SLOW: u64 = 0x3fda_e147_ae14_7ae1;

/// The x of a slow arrival: 0.58.
pub const EASE_LATE: u64 = 0x3fe2_8f5c_28f5_c28f;

/// A straight line.
#[verifier::allow_in_spec]
pub fn linear() -> KeyEase
    returns
        (KeyEase { x1: num(ZERO), y1: num(ZERO), x2: num(ONE), y2: num(ONE) }),
{
    KeyEase { x1: num(ZERO), y1: num(ZERO), x2: num(ONE), y2: num(ONE) }
}

/// Starts slow, arrives fast.
#[verifier::allow_in_spec]
pub fn ease_in() -> KeyEase
    returns
        (KeyEase { x1: num(EASE_SLOW), y1: num(ZERO), x2: num(ONE), y2: num(ONE) }),
{
    KeyEase { x1: num(EASE_SLOW), y1: num(ZERO), x2: num(ONE), y2: num(ONE) }
}

/// Starts fast, arrives slow.
#[verifier::allow_in_spec]
pub fn ease_out() -> KeyEase
    returns
        (KeyEase { x1: num(ZERO), y1: num(ZERO), x2: num(EASE_LATE), y2: num(ONE) }),
{
    KeyEase { x1: num(ZERO), y1: num(ZERO), x2: num(EASE_LATE), y2: num(ONE) }
}

/// Slow at both ends.
#[verifier::allow_in_spec]
pub fn ease_in_out() -> KeyEase
    returns
        (KeyEase { x1: num(EASE_SLOW), y1: num(ZERO), x2: num(EASE_LATE), y2: num(ONE) }),
{
    KeyEase { x1: num(EASE_SLOW), y1: num(ZERO), x2: num(EASE_LATE), y2: num(ONE) }
}

impl KeyProperty {
    /// The name this property carries in a document.
    pub open spec fn spelled(self) -> Seq<char> {
        match self {
            KeyProperty::Scale => "scale"@,
            KeyProperty::OffsetX => "offsetX"@,
            KeyProperty::OffsetY => "offsetY"@,
            KeyProperty::Rotation => "rotation"@,
            KeyProperty::Opacity => "opacity"@,
            KeyProperty::Volume => "volume"@,
        }
    }

    /// The order properties are kept in.
    pub open spec fn place(self) -> int {
        match self {
            KeyProperty::Scale => 0,
            KeyProperty::OffsetX => 1,
            KeyProperty::OffsetY => 2,
            KeyProperty::Rotation => 3,
            KeyProperty::Opacity => 4,
            KeyProperty::Volume => 5,
        }
    }

    fn index(self) -> (r: u8)
        ensures
            r == self.place(),
    {
        match self {
            KeyProperty::Scale => 0,
            KeyProperty::OffsetX => 1,
            KeyProperty::OffsetY => 2,
            KeyProperty::Rotation => 3,
            KeyProperty::Opacity => 4,
            KeyProperty::Volume => 5,
        }
    }

    /// The name this property carries in a document and across the export
    /// boundary.
    pub fn name(self) -> (r: &'static str)
        ensures
            r@ == self.spelled(),
    {
        match self {
            KeyProperty::Scale => "scale",
            KeyProperty::OffsetX => "offsetX",
            KeyProperty::OffsetY => "offsetY",
            KeyProperty::Rotation => "rotation",
            KeyProperty::Opacity => "opacity",
            KeyProperty::Volume => "volume",
        }
    }

    /// The property of that name, or None.
    pub fn from_name(name: &str) -> (r: Option<KeyProperty>)
        ensures
            match r {
                Some(property) => property.spelled() == name@,
                None => forall|property: KeyProperty| #[trigger] property.spelled() != name@,
            },
    {
        if same_text(name, "scale") {
            Some(KeyProperty::Scale)
        } else if same_text(name, "offsetX") {
            Some(KeyProperty::OffsetX)
        } else if same_text(name, "offsetY") {
            Some(KeyProperty::OffsetY)
        } else if same_text(name, "rotation") {
            Some(KeyProperty::Rotation)
        } else if same_text(name, "opacity") {
            Some(KeyProperty::Opacity)
        } else if same_text(name, "volume") {
            Some(KeyProperty::Volume)
        } else {
            None
        }
    }

    /// Every property that can be keyed, in the order a panel lists them.
    pub fn all() -> (r: Vec<KeyProperty>)
        ensures
            r@ == all_properties(),
    {
        vec![
            KeyProperty::Scale,
            KeyProperty::OffsetX,
            KeyProperty::OffsetY,
            KeyProperty::Rotation,
            KeyProperty::Opacity,
            KeyProperty::Volume,
        ]
    }
}

/// Every property, in order.
pub open spec fn all_properties() -> Seq<KeyProperty> {
    seq![
        KeyProperty::Scale,
        KeyProperty::OffsetX,
        KeyProperty::OffsetY,
        KeyProperty::Rotation,
        KeyProperty::Opacity,
        KeyProperty::Volume,
    ]
}

/// No two properties share a name, so a name read back is the property that
/// was written.
pub proof fn lemma_names_distinct(a: KeyProperty, b: KeyProperty)
    requires
        a.spelled() == b.spelled(),
    ensures
        a == b,
{
    reveal_strlit("scale");
    reveal_strlit("offsetX");
    reveal_strlit("offsetY");
    reveal_strlit("rotation");
    reveal_strlit("opacity");
    reveal_strlit("volume");
    if a.spelled().len() == 7 && a != b {
        assert("offsetX"@[6] != "offsetY"@[6]);
        assert("offsetX"@[1] != "opacity"@[1]);
        assert("offsetY"@[1] != "opacity"@[1]);
    }
}

impl KeyEase {
    pub open spec fn all_finite(self) -> bool {
        self.x1.finite() && self.y1.finite() && self.x2.finite() && self.y2.finite()
    }

    /// The ease with its x values where a timing function keeps them, or the
    /// straight line where a number is missing.
    pub open spec fn made_sane(self) -> KeyEase {
        if self.all_finite() {
            KeyEase {
                x1: clamped(self.x1, num(ZERO), num(ONE)),
                y1: self.y1,
                x2: clamped(self.x2, num(ZERO), num(ONE)),
                y2: self.y2,
            }
        } else {
            linear()
        }
    }

    /// The ease, or the straight line where a number is missing.
    pub open spec fn or_straight(self) -> KeyEase {
        if self.all_finite() {
            self
        } else {
            linear()
        }
    }

    pub open spec fn named(name: Seq<char>) -> KeyEase {
        if name == "in"@ {
            ease_in()
        } else if name == "out"@ {
            ease_out()
        } else if name == "inOut"@ {
            ease_in_out()
        } else {
            linear()
        }
    }

    /// Numeric equality of the four numbers.
    pub open spec fn same(self, other: KeyEase) -> bool {
        self.x1.same(other.x1) && self.y1.same(other.y1) && self.x2.same(other.x2) && self.y2.same(
            other.y2,
        )
    }

    pub fn equals(self, other: KeyEase) -> (r: bool)
        ensures
            r == self.same(other),
    {
        self.x1.equals(other.x1) && self.y1.equals(other.y1) && self.x2.equals(other.x2)
            && self.y2.equals(other.y2)
    }

    pub fn is_finite(self) -> (r: bool)
        ensures
            r == self.all_finite(),
    {
        self.x1.is_finite() && self.y1.is_finite() && self.x2.is_finite() && self.y2.is_finite()
    }

    /// The ease, or the straight line where a number is missing.
    pub fn straighten(self) -> (r: KeyEase)
        ensures
            r == self.or_straight(),
    {
        if self.is_finite() {
            self
        } else {
            linear()
        }
    }

    /// The ease named by a first-version document, or linear for a name this
    /// build has never heard of.
    pub fn from_name(name: &str) -> (r: KeyEase)
        ensures
            r == KeyEase::named(name@),
    {
        if same_text(name, "in") {
            ease_in()
        } else if same_text(name, "out") {
            ease_out()
        } else if same_text(name, "inOut") {
            ease_in_out()
        } else {
            linear()
        }
    }

    /// The ease four numbers in a document spell, and the straight line for any
    /// other count.
    pub fn from_points(points: &Vec<Number>) -> (r: KeyEase)
        ensures
            r == (if points.len() == 4 {
                (KeyEase { x1: points[0], y1: points[1], x2: points[2], y2: points[3] }).made_sane()
            } else {
                linear()
            }),
    {
        if points.len() == 4 {
            let ease: KeyEase = KeyEase {
                x1: points[0],
                y1: points[1],
                x2: points[2],
                y2: points[3],
            };
            ease.sane()
        } else {
            linear()
        }
    }

    /// The four numbers, with the two x values clamped where a legal timing
    /// function keeps them and anything unreadable falling back to linear.
    pub fn sane(self) -> (r: KeyEase)
        ensures
            r == self.made_sane(),
    {
        if !self.is_finite() {
            return linear();
        }
        KeyEase {
            x1: self.x1.clamp(num(ZERO), num(ONE)),
            y1: self.y1,
            x2: self.x2.clamp(num(ZERO), num(ONE)),
            y2: self.y2,
        }
    }

    /// Whether this is another ease, to within a hair. What lights a preset's
    /// chip in the panel.
    pub fn is(self, other: KeyEase) -> (r: bool)
        ensures
            r == (near(self.x1, other.x1) && near(self.y1, other.y1) && near(self.x2, other.x2)
                && near(self.y2, other.y2)),
    {
        is_near(self.x1, other.x1) && is_near(self.y1, other.y1) && is_near(self.x2, other.x2)
            && is_near(self.y2, other.y2)
    }
}

pub open spec fn near(a: Number, b: Number) -> bool {
    absolute(difference(a, b)).less(num(EASE_EPSILON))
}

fn is_near(a: Number, b: Number) -> (r: bool)
    ensures
        r == near(a, b),
{
    a.minus(b).abs().below(num(EASE_EPSILON))
}

impl Default for KeyEase {
    fn default() -> (r: KeyEase)
        ensures
            r == linear(),
    {
        linear()
    }
}

impl ClipKey {
    pub open spec fn same(self, other: ClipKey) -> bool {
        self.property == other.property && self.at.same(other.at) && self.value.same(other.value)
            && self.ease.same(other.ease)
    }

    pub fn equals(&self, other: &ClipKey) -> (r: bool)
        ensures
            r == self.same(*other),
    {
        self.property == other.property && self.at.equals(other.at) && self.value.equals(
            other.value,
        ) && self.ease.equals(other.ease)
    }

    /// Whether a key can be played: a finite value at a point of the clip.
    pub open spec fn valid(self) -> bool {
        self.at.finite() && self.value.finite() && in_clip(self.at)
    }

    /// This key as a point of its property's ride.
    pub open spec fn point(self) -> ParamKey {
        ParamKey { at: self.at, value: self.value, ease: self.ease }
    }
}

impl ParamKey {
    pub open spec fn same(self, other: ParamKey) -> bool {
        self.at.same(other.at) && self.value.same(other.value) && self.ease.same(other.ease)
    }

    pub fn equals(&self, other: &ParamKey) -> (r: bool)
        ensures
            r == self.same(*other),
    {
        self.at.equals(other.at) && self.value.equals(other.value) && self.ease.equals(other.ease)
    }

    pub open spec fn valid(self) -> bool {
        self.at.finite() && self.value.finite() && in_clip(self.at)
    }
}

// Order: a clip's keys by property and then by position, a run's by position.

impl Ranked for ClipKey {
    open spec fn rank(&self) -> int {
        self.property.place() * 0x2_0000_0000_0000_0000 + total_rank(self.at)
    }

    fn at_or_before(&self, other: &ClipKey) -> (r: bool) {
        let a: u8 = self.property.index();
        let b: u8 = other.property.index();
        if a == b {
            self.at.ordered(other.at)
        } else {
            a < b
        }
    }
}

impl Ranked for ParamKey {
    open spec fn rank(&self) -> int {
        total_rank(self.at)
    }

    fn at_or_before(&self, other: &ParamKey) -> (r: bool) {
        self.at.ordered(other.at)
    }
}

/// The keys that can be played, in order: by property, then by position.
pub open spec fn ordered_keys(keys: Seq<ClipKey>) -> Seq<ClipKey> {
    sorted(keys.filter(|k: ClipKey| k.valid()), |k: ClipKey| k.rank())
}

/// The keys of a run that can be played, in order.
pub open spec fn ordered_run(run: Seq<ParamKey>) -> Seq<ParamKey> {
    sorted(run.filter(|k: ParamKey| k.valid()), |k: ParamKey| k.rank())
}

/// Orders keys and drops those that cannot be played.
pub fn order_keys(keys: &Vec<ClipKey>) -> (r: Vec<ClipKey>)
    ensures
        r@ == ordered_keys(keys@),
{
    let ghost pred = |k: ClipKey| k.valid();
    let mut kept: Vec<ClipKey> = Vec::new();
    let mut i: usize = 0;
    proof {
        reveal(Seq::filter);
        assert(keys@.take(0).filter(pred) =~= Seq::<ClipKey>::empty());
    }
    while i < keys.len()
        invariant
            i <= keys.len(),
            pred == (|k: ClipKey| k.valid()),
            kept@ == keys@.take(i as int).filter(pred),
        decreases keys.len() - i,
    {
        let key: ClipKey = keys[i];
        proof {
            lemma_filter_step(keys@, pred, i as int);
        }
        if key.at.is_finite() && key.value.is_finite() && is_in_clip(key.at) {
            kept.push(key);
        }
        i = i + 1;
    }
    assert(keys@.take(keys@.len() as int) =~= keys@);
    stable_sort(kept)
}

/// Orders a run and drops the keys of it that cannot be played.
pub fn order_run(run: &Vec<ParamKey>) -> (r: Vec<ParamKey>)
    ensures
        r@ == ordered_run(run@),
{
    let ghost pred = |k: ParamKey| k.valid();
    let mut kept: Vec<ParamKey> = Vec::new();
    let mut i: usize = 0;
    proof {
        reveal(Seq::filter);
        assert(run@.take(0).filter(pred) =~= Seq::<ParamKey>::empty());
    }
    while i < run.len()
        invariant
            i <= run.len(),
            pred == (|k: ParamKey| k.valid()),
            kept@ == run@.take(i as int).filter(pred),
        decreases run.len() - i,
    {
        let key: ParamKey = run[i];
        proof {
            lemma_filter_step(run@, pred, i as int);
        }
        if key.at.is_finite() && key.value.is_finite() && is_in_clip(key.at) {
            kept.push(key);
        }
        i = i + 1;
    }
    assert(run@.take(run@.len() as int) =~= run@);
    stable_sort(kept)
}

// Finding a key near a point.

/// How near a key at `held` is to `at`, where it is near enough to be the key
/// there.
pub open spec fn reach(held: Number, at: Number) -> Option<int> {
    let gap = absolute(difference(held, at));
    if gap.at_most(num(KEY_EPSILON)) {
        Some(total_rank(gap))
    } else {
        None
    }
}

/// The index of the least reach, the first of those equally near.
pub open spec fn closest(reaches: Seq<Option<int>>) -> Option<int>
    decreases reaches.len(),
{
    if reaches.len() == 0 {
        None
    } else {
        let best = closest(reaches.drop_last());
        match reaches.last() {
            None => best,
            Some(gap) => match best {
                None => Some(reaches.len() - 1),
                Some(i) => if gap < reaches[i]->0 {
                    Some(reaches.len() - 1)
                } else {
                    best
                },
            },
        }
    }
}

/// What `closest` names is in reach, and nothing is nearer.
pub proof fn lemma_closest(reaches: Seq<Option<int>>)
    ensures
        match closest(reaches) {
            Some(i) => {
                &&& 0 <= i < reaches.len()
                &&& reaches[i] is Some
                &&& forall|j: int|
                    0 <= j < reaches.len() && #[trigger] reaches[j] is Some ==> reaches[i]->0
                        <= reaches[j]->0 && (j < i ==> reaches[i]->0 < reaches[j]->0)
            },
            None => forall|j: int| 0 <= j < reaches.len() ==> #[trigger] reaches[j] is None,
        },
    decreases reaches.len(),
{
    if reaches.len() > 0 {
        let before = reaches.drop_last();
        lemma_closest(before);
        assert forall|j: int| 0 <= j < reaches.len() - 1 implies #[trigger] reaches[j]
            == before[j] by {}
    }
}

/// How near each key of one property is to `at`.
pub open spec fn reaches(keys: Seq<ClipKey>, property: KeyProperty, at: Number) -> Seq<
    Option<int>,
> {
    keys.map_values(
        |k: ClipKey|
            if k.property == property {
                reach(k.at, at)
            } else {
                None
            },
    )
}

/// How near each key of a run is to `at`.
pub open spec fn run_reaches(run: Seq<ParamKey>, at: Number) -> Seq<Option<int>> {
    run.map_values(|k: ParamKey| reach(k.at, at))
}

/// The index into `keys` of this property's key at `at`, the nearest when two
/// are in reach.
pub fn find_key(keys: &Vec<ClipKey>, property: KeyProperty, at: Number) -> (r: Option<usize>)
    ensures
        match r {
            Some(i) => i < keys.len() && closest(reaches(keys@, property, at)) == Some(i as int),
            None => closest(reaches(keys@, property, at)) is None,
        },
{
    let ghost all = reaches(keys@, property, at);
    let mut best: Option<usize> = None;
    let mut least: Number = num(ZERO);
    let mut i: usize = 0;
    while i < keys.len()
        invariant
            i <= keys.len(),
            all == reaches(keys@, property, at),
            match best {
                Some(b) => b < i && closest(all.take(i as int)) == Some(b as int) && all[b as int]
                    == Some(total_rank(least)),
                None => closest(all.take(i as int)) is None,
            },
        decreases keys.len() - i,
    {
        proof {
            assert(all.take(i as int + 1).drop_last() =~= all.take(i as int));
        }
        if keys[i].property == property {
            let gap: Number = keys[i].at.minus(at).abs();
            if gap.up_to(num(KEY_EPSILON)) {
                match best {
                    None => {
                        best = Some(i);
                        least = gap;
                    },
                    Some(_) => {
                        if !least.ordered(gap) {
                            best = Some(i);
                            least = gap;
                        }
                    },
                }
            }
        }
        i = i + 1;
    }
    assert(all.take(all.len() as int) =~= all);
    best
}

/// The index of a run's key at `at`, the nearest when two are in reach.
pub fn find_in_run(run: &Vec<ParamKey>, at: Number) -> (r: Option<usize>)
    ensures
        match r {
            Some(i) => i < run.len() && closest(run_reaches(run@, at)) == Some(i as int),
            None => closest(run_reaches(run@, at)) is None,
        },
{
    let ghost all = run_reaches(run@, at);
    let mut best: Option<usize> = None;
    let mut least: Number = num(ZERO);
    let mut i: usize = 0;
    while i < run.len()
        invariant
            i <= run.len(),
            all == run_reaches(run@, at),
            match best {
                Some(b) => b < i && closest(all.take(i as int)) == Some(b as int) && all[b as int]
                    == Some(total_rank(least)),
                None => closest(all.take(i as int)) is None,
            },
        decreases run.len() - i,
    {
        proof {
            assert(all.take(i as int + 1).drop_last() =~= all.take(i as int));
        }
        let gap: Number = run[i].at.minus(at).abs();
        if gap.up_to(num(KEY_EPSILON)) {
            match best {
                None => {
                    best = Some(i);
                    least = gap;
                },
                Some(_) => {
                    if !least.ordered(gap) {
                        best = Some(i);
                        least = gap;
                    }
                },
            }
        }
        i = i + 1;
    }
    assert(all.take(all.len() as int) =~= all);
    best
}

/// An ease made sane is one a timing function can have: four finite numbers, its
/// two x values from zero to one.
pub proof fn lemma_a_sane_ease_is_legal(ease: KeyEase)
    ensures
        ({
            let sane = ease.made_sane();
            &&& sane.all_finite()
            &&& num(ZERO).at_most(sane.x1) && sane.x1.at_most(num(ONE))
            &&& num(ZERO).at_most(sane.x2) && sane.x2.at_most(num(ONE))
            &&& sane.made_sane() == sane
        }),
{
}

} // verus!
