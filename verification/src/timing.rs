//! Exact times, and how a stream's own clock is read.
//!
//! A container counts ticks of a rational time base, so an instant is a
//! rational number of seconds and no rounding enters on the way in. A stream
//! may start late and may ask to be turned; both are read here.

use crate::digits::{as_rounded, clipped};
use crate::model::exact::{lemma_product_whole, lemma_ratio};
use crate::number::Number;
use vstd::arithmetic::div_mod::*;
use vstd::prelude::*;

verus! {

/// The ticks a second that container seeks count in.
pub const AV_TIME_BASE: i64 = 1_000_000;

/// The greatest common divisor.
pub open spec fn divisor(a: nat, b: nat) -> nat
    decreases b,
{
    if b == 0 {
        a
    } else {
        divisor(b, a % b)
    }
}

/// The common divisor divides both, and is positive where either is.
pub proof fn lemma_divisor(a: nat, b: nat)
    ensures
        a + b > 0 ==> divisor(a, b) > 0,
        a + b > 0 ==> a % divisor(a, b) == 0,
        a + b > 0 ==> b % divisor(a, b) == 0,
        a > 0 ==> divisor(a, b) <= a,
    decreases b,
{
    if b == 0 {
        if a > 0 {
            lemma_mod_self_0(a as int);
            lemma_small_mod(0, a);
        }
    } else {
        let r = a % b;
        let g = divisor(b, r);
        lemma_divisor(b, r);
        lemma_fundamental_div_mod(a as int, b as int);
        // a is a multiple of b and r, and both are multiples of g
        lemma_fundamental_div_mod(b as int, g as int);
        lemma_fundamental_div_mod(r as int, g as int);
        let q = a / b;
        let x = b / g;
        let y = r / g;
        assert(a == g * (x * q + y)) by (nonlinear_arith)
            requires
                a == b * q + r,
                b == g * x,
                r == g * y,
        ;
        lemma_mod_multiples_basic((x * q + y) as int, g as int);
        assert((x * q + y) * g == g * (x * q + y)) by (nonlinear_arith);
        if a > 0 {
            assert(x * q + y > 0) by (nonlinear_arith)
                requires
                    a > 0,
                    a == g * (x * q + y),
            ;
            assert(g <= a) by (nonlinear_arith)
                requires
                    a == g * (x * q + y),
                    x * q + y > 0,
            ;
        }
    }
}

/// A ratio in lowest terms, its denominator positive: what is left of
/// `num / den` once the common divisor is out.
pub open spec fn lowest(num: int, den: int) -> (int, int) {
    let n: nat = if num < 0 {
        (-num) as nat
    } else {
        num as nat
    };
    let d: nat = if den < 0 {
        (-den) as nat
    } else {
        den as nat
    };
    let g = divisor(n, d);
    let top = (n / g) as int;
    (
        if (num < 0) != (den < 0) {
            -top
        } else {
            top
        },
        (d / g) as int,
    )
}

/// Lowest terms change nothing of a ratio's value: the two cross products are
/// equal.
pub proof fn lemma_lowest_exact(num: int, den: int)
    requires
        den != 0,
    ensures
        lowest(num, den).0 * den == num * lowest(num, den).1,
        lowest(num, den).1 > 0,
{
    let n: nat = if num < 0 {
        (-num) as nat
    } else {
        num as nat
    };
    let d: nat = if den < 0 {
        (-den) as nat
    } else {
        den as nat
    };
    let g = divisor(n, d);
    lemma_divisor(n, d);
    lemma_fundamental_div_mod(n as int, g as int);
    lemma_fundamental_div_mod(d as int, g as int);
    let x = (n / g) as int;
    let y = (d / g) as int;
    assert(x * d == n * y) by (nonlinear_arith)
        requires
            n == g * x,
            d == g * y,
    ;
    assert(y > 0) by (nonlinear_arith)
        requires
            d == g * y,
            d > 0,
            g > 0,
    ;
    assert((-x) * d == -(x * d) && x * (-d) == -(x * d) && (-n) * y == -(n * y) && (-x) * (-d)
        == x * d) by (nonlinear_arith);
}

/// Whether a ratio has a denominator and, in lowest terms, fits sixty-four
/// bits.
pub open spec fn representable(num: int, den: int) -> bool {
    den != 0 && i64::MIN <= lowest(num, den).0 <= i64::MAX && lowest(num, den).1 <= i64::MAX
}

/// An exact rational number of seconds.
#[derive(Clone, Copy, Debug, PartialEq, Eq)]
pub struct Ratio {
    num: i64,
    den: i64,
}

/// The ratio of two integers, in lowest terms, where it can be represented.
pub closed spec fn made(num: int, den: int) -> Option<Ratio> {
    if representable(num, den) {
        Some(Ratio { num: lowest(num, den).0 as i64, den: lowest(num, den).1 as i64 })
    } else {
        None
    }
}

/// What the ratio of two integers is made of.
pub proof fn lemma_made(num: int, den: int)
    ensures
        match made(num, den) {
            Some(at) => {
                &&& den != 0
                &&& at.numerator() * den == num * at.denominator()
                &&& at.denominator() > 0
            },
            None => !representable(num, den),
        },
{
    if den != 0 {
        lemma_lowest_exact(num, den);
    }
}

/// The second an exact instant is.
pub open spec fn second_of(at: Ratio) -> real {
    (at.numerator() as real) / (at.denominator() as real)
}

/// An instant in lowest terms is the same second.
pub proof fn lemma_same_second(at: Ratio, n: int, d: int)
    requires
        d > 0,
        at.denominator() > 0,
        at.numerator() * d == n * at.denominator(),
    ensures
        second_of(at) == (n as real) / (d as real),
{
    let p = at.numerator() as real;
    let q = at.denominator() as real;
    let x = n as real;
    let y = d as real;
    lemma_product_whole(at.numerator(), d);
    lemma_product_whole(n, at.denominator());
    let r = p / q;
    let s = x / y;
    lemma_ratio(p, q, r);
    lemma_ratio(x, y, s);
    assert(r == s) by (nonlinear_arith)
        requires
            r * q == p,
            s * y == x,
            p * y == x * q,
            q > 0 as real,
            y > 0 as real,
    ;
}

/// A whole number of seconds.
pub closed spec fn integer(n: i64) -> Ratio {
    Ratio { num: n, den: 1 }
}

/// Whether `a / b` is below `c / d`, for positive denominators.
pub open spec fn below(a: int, b: int, c: int, d: int) -> bool {
    a * d < c * b
}

/// A whole number of seconds is that many.
pub proof fn lemma_integer(n: i64)
    ensures
        integer(n).numerator() == n,
        integer(n).denominator() == 1,
{
}

fn size(n: i128) -> (r: u128)
    requires
        n > i128::MIN,
    ensures
        r == (if n < 0 { -n } else { n as int }),
{
    if n < 0 {
        (-n) as u128
    } else {
        n as u128
    }
}

fn common(a: u128, b: u128) -> (r: u128)
    ensures
        r == divisor(a as nat, b as nat),
    decreases b,
{
    if b == 0 {
        a
    } else {
        common(b, a % b)
    }
}

impl Ratio {
    #[verifier::type_invariant]
    spec fn formed(self) -> bool {
        self.den > 0
    }

    pub closed spec fn numerator(self) -> int {
        self.num as int
    }

    pub closed spec fn denominator(self) -> int {
        self.den as int
    }

    /// Whether this is the ratio `num / den` in lowest terms.
    pub open spec fn is(self, num: int, den: int) -> bool {
        self.numerator() == lowest(num, den).0 && self.denominator() == lowest(num, den).1
    }

    pub open spec fn less(self, other: Ratio) -> bool {
        below(self.numerator(), self.denominator(), other.numerator(), other.denominator())
    }

    /// The sum of two ratios, unreduced.
    pub open spec fn sum_of(self, other: Ratio) -> (int, int) {
        (
            self.numerator() * other.denominator() + other.numerator() * self.denominator(),
            self.denominator() * other.denominator(),
        )
    }

    /// The difference of two ratios, unreduced.
    pub open spec fn gap_of(self, other: Ratio) -> (int, int) {
        (
            self.numerator() * other.denominator() - other.numerator() * self.denominator(),
            self.denominator() * other.denominator(),
        )
    }

    /// A ratio in lowest terms, or none where it has no denominator or does
    /// not fit.
    pub fn checked_new(num: i128, den: i128) -> (r: Option<Ratio>)
        requires
            num > i128::MIN,
            den > i128::MIN,
        ensures
            match r {
                Some(ratio) => representable(num as int, den as int) && ratio.is(
                    num as int,
                    den as int,
                ) && ratio.denominator() > 0,
                None => !representable(num as int, den as int),
            },
            r == made(num as int, den as int),
    {
        if den == 0 {
            return None;
        }
        let n: u128 = size(num);
        let d: u128 = size(den);
        let g: u128 = common(n, d);
        proof {
            lemma_divisor(n as nat, d as nat);
            lemma_fundamental_div_mod(d as int, g as int);
            assert(d / g > 0) by (nonlinear_arith)
                requires
                    d == g * (d / g) + d % g,
                    d % g == 0,
                    d > 0,
                    g > 0,
            ;
        }
        let top: u128 = n / g;
        let bottom: u128 = d / g;
        let negative: bool = (num < 0) != (den < 0);
        if bottom > 0x7fff_ffff_ffff_ffff {
            return None;
        }
        if negative {
            if top > 0x8000_0000_0000_0000 {
                return None;
            }
            let num: i64 = (-(top as i128)) as i64;
            Some(Ratio { num, den: bottom as i64 })
        } else {
            if top > 0x7fff_ffff_ffff_ffff {
                return None;
            }
            Some(Ratio { num: top as i64, den: bottom as i64 })
        }
    }

    /// A whole number of seconds.
    pub fn from_int(n: i64) -> (r: Ratio)
        ensures
            r.numerator() == n,
            r.denominator() == 1,
            r == integer(n),
    {
        Ratio { num: n, den: 1 }
    }

    pub fn numerator_of(&self) -> (r: i64)
        ensures
            r == self.numerator(),
    {
        self.num
    }

    pub fn denominator_of(&self) -> (r: i64)
        ensures
            r == self.denominator(),
            r > 0,
    {
        proof {
            use_type_invariant(self);
        }
        self.den
    }

    /// Whether this comes before `other`.
    pub fn before(&self, other: &Ratio) -> (r: bool)
        ensures
            r == self.less(*other),
    {
        proof {
            use_type_invariant(self);
            use_type_invariant(other);
            let (a, b, c, d) = (self.num, self.den, other.num, other.den);
            assert(-0x4000_0000_0000_0000_0000_0000_0000_0000 <= a * d
                <= 0x4000_0000_0000_0000_0000_0000_0000_0000) by (nonlinear_arith)
                requires
                    -0x8000_0000_0000_0000 <= a <= 0x8000_0000_0000_0000,
                    0 < d <= 0x8000_0000_0000_0000,
            ;
            assert(-0x4000_0000_0000_0000_0000_0000_0000_0000 <= c * b
                <= 0x4000_0000_0000_0000_0000_0000_0000_0000) by (nonlinear_arith)
                requires
                    -0x8000_0000_0000_0000 <= c <= 0x8000_0000_0000_0000,
                    0 < b <= 0x8000_0000_0000_0000,
            ;
        }
        (self.num as i128) * (other.den as i128) < (other.num as i128) * (self.den as i128)
    }

    /// The sum, or none where it does not fit.
    pub fn plus(&self, other: &Ratio) -> (r: Option<Ratio>)
        ensures
            match r {
                Some(ratio) => {
                    let s = self.sum_of(*other);
                    representable(s.0, s.1) && ratio.is(s.0, s.1)
                },
                None => {
                    let s = self.sum_of(*other);
                    !representable(s.0, s.1)
                },
            },
            r == made(self.sum_of(*other).0, self.sum_of(*other).1),
    {
        proof {
            use_type_invariant(self);
            use_type_invariant(other);
            lemma_products(self.num as int, self.den as int, other.num as int, other.den as int);
        }
        let cross: i128 = (self.num as i128) * (other.den as i128);
        let other_cross: i128 = (other.num as i128) * (self.den as i128);
        let den: i128 = (self.den as i128) * (other.den as i128);
        Ratio::checked_new(cross + other_cross, den)
    }

    /// The difference, or none where it does not fit.
    pub fn minus(&self, other: &Ratio) -> (r: Option<Ratio>)
        ensures
            match r {
                Some(ratio) => {
                    let s = self.gap_of(*other);
                    representable(s.0, s.1) && ratio.is(s.0, s.1)
                },
                None => {
                    let s = self.gap_of(*other);
                    !representable(s.0, s.1)
                },
            },
            r == made(self.gap_of(*other).0, self.gap_of(*other).1),
    {
        proof {
            use_type_invariant(self);
            use_type_invariant(other);
            lemma_products(self.num as int, self.den as int, other.num as int, other.den as int);
        }
        let cross: i128 = (self.num as i128) * (other.den as i128);
        let other_cross: i128 = (other.num as i128) * (self.den as i128);
        let den: i128 = (self.den as i128) * (other.den as i128);
        Ratio::checked_new(cross - other_cross, den)
    }

    /// A count of these, or none where it does not fit.
    pub fn times(&self, count: u64) -> (r: Option<Ratio>)
        ensures
            match r {
                Some(ratio) => representable(self.numerator() * count, self.denominator())
                    && ratio.is(self.numerator() * count, self.denominator()),
                None => !representable(self.numerator() * count, self.denominator()),
            },
            r == made(self.numerator() * count, self.denominator()),
    {
        proof {
            use_type_invariant(self);
            let a = self.num;
            assert(-0x8000_0000_0000_0000_0000_0000_0000_0000 < a * count
                < 0x8000_0000_0000_0000_0000_0000_0000_0000) by (nonlinear_arith)
                requires
                    -0x8000_0000_0000_0000 <= a <= 0x7fff_ffff_ffff_ffff,
                    0 <= count <= 0xffff_ffff_ffff_ffff,
            ;
        }
        Ratio::checked_new((self.num as i128) * (count as i128), self.den as i128)
    }
}

proof fn lemma_products(a: int, b: int, c: int, d: int)
    requires
        i64::MIN <= a <= i64::MAX,
        i64::MIN <= c <= i64::MAX,
        0 < b <= i64::MAX,
        0 < d <= i64::MAX,
    ensures
        -0x3fff_ffff_ffff_ffff_ffff_ffff_ffff_ffff <= a * d
            <= 0x3fff_ffff_ffff_ffff_ffff_ffff_ffff_ffff,
        -0x3fff_ffff_ffff_ffff_ffff_ffff_ffff_ffff <= c * b
            <= 0x3fff_ffff_ffff_ffff_ffff_ffff_ffff_ffff,
        0 < b * d <= 0x3fff_ffff_ffff_ffff_ffff_ffff_ffff_ffff,
{
    assert(-0x3fff_ffff_ffff_ffff_ffff_ffff_ffff_ffff <= a * d
        <= 0x3fff_ffff_ffff_ffff_ffff_ffff_ffff_ffff) by (nonlinear_arith)
        requires
            -0x8000_0000_0000_0000 <= a <= 0x7fff_ffff_ffff_ffff,
            0 < d <= 0x7fff_ffff_ffff_ffff,
    ;
    assert(-0x3fff_ffff_ffff_ffff_ffff_ffff_ffff_ffff <= c * b
        <= 0x3fff_ffff_ffff_ffff_ffff_ffff_ffff_ffff) by (nonlinear_arith)
        requires
            -0x8000_0000_0000_0000 <= c <= 0x7fff_ffff_ffff_ffff,
            0 < b <= 0x7fff_ffff_ffff_ffff,
    ;
    assert(0 < b * d <= 0x3fff_ffff_ffff_ffff_ffff_ffff_ffff_ffff) by (nonlinear_arith)
        requires
            0 < b <= 0x7fff_ffff_ffff_ffff,
            0 < d <= 0x7fff_ffff_ffff_ffff,
    ;
}

/// How long a tick of a stream's clock lasts, in seconds.
#[derive(Clone, Copy, Debug, PartialEq, Eq, Structural)]
pub struct TimeBase {
    pub numerator: i32,
    pub denominator: i32,
}

impl TimeBase {
    /// The seconds a count of ticks is, unreduced.
    pub open spec fn product(self, ticks: i64) -> (int, int) {
        (ticks * self.numerator, self.denominator as int)
    }
}

/// A stream timestamp in seconds, exactly. None where the container's numbers
/// form no representable value, which is a position nobody knows.
pub fn seconds(ticks: i64, time_base: TimeBase) -> (r: Option<Ratio>)
    ensures
        match r {
            Some(at) => representable(time_base.product(ticks).0, time_base.product(ticks).1)
                && at.is(time_base.product(ticks).0, time_base.product(ticks).1),
            None => !representable(time_base.product(ticks).0, time_base.product(ticks).1),
        },
        r == made(time_base.product(ticks).0, time_base.product(ticks).1),
{
    let n: i32 = time_base.numerator;
    assert(-0x4000_0000_0000_0000_0000_0000 <= ticks * n <= 0x4000_0000_0000_0000_0000_0000)
        by (nonlinear_arith)
        requires
            -0x8000_0000_0000_0000 <= ticks <= 0x7fff_ffff_ffff_ffff,
            -0x8000_0000 <= n <= 0x7fff_ffff,
    ;
    Ratio::checked_new((ticks as i128) * (n as i128), time_base.denominator as i128)
}

/// Where a stream's timestamps start.
pub open spec fn start_at(start: Option<i64>, time_base: TimeBase) -> Ratio {
    match start {
        Some(ticks) => match made(time_base.product(ticks).0, time_base.product(ticks).1) {
            Some(at) => if ticks > 0 {
                at
            } else {
                integer(0)
            },
            None => integer(0),
        },
        None => integer(0),
    }
}

/// Where a stream's timestamps start, in seconds: zero for a stream that does
/// not say, starts at or before zero, or says what cannot be represented.
pub fn start_of(start: Option<i64>, time_base: TimeBase) -> (r: Ratio)
    ensures
        match start {
            Some(ticks) => {
                let p = time_base.product(ticks);
                if ticks > 0 && representable(p.0, p.1) {
                    r.is(p.0, p.1)
                } else {
                    r.numerator() == 0 && r.denominator() == 1
                }
            },
            None => r.numerator() == 0 && r.denominator() == 1,
        },
        r == start_at(start, time_base),
{
    match start {
        Some(ticks) => {
            if ticks <= 0 {
                return Ratio::from_int(0);
            }
            match seconds(ticks, time_base) {
                Some(at) => at,
                None => Ratio::from_int(0),
            }
        },
        None => Ratio::from_int(0),
    }
}

/// Seconds in the ticks container seeks take: rounded down, held to sixty-four
/// bits.
pub fn av_ticks(seconds: Ratio) -> (r: i64)
    ensures
        r == clipped((seconds.numerator() * AV_TIME_BASE) / seconds.denominator()),
{
    let den: i64 = seconds.denominator_of();
    let scaled: i128 = (seconds.numerator_of() as i128) * (AV_TIME_BASE as i128);
    let d: i128 = den as i128;
    let floor: i128 = if scaled >= 0 {
        scaled / d
    } else {
        // rounded towards the past
        let up: i128 = (-scaled + (d - 1)) / d;
        proof {
            let n = -scaled as int;
            lemma_fundamental_div_mod(n + (d - 1), d as int);
            lemma_mod_bound(n + (d - 1), d as int);
            let r = (n + (d - 1)) % (d as int);
            assert(scaled == (-up) * d + (d - 1 - r)) by (nonlinear_arith)
                requires
                    -scaled + (d - 1) == d * up + r,
            ;
            lemma_fundamental_div_mod_converse(scaled as int, d as int, -up as int, d - 1 - r);
        }
        -up
    };
    if floor < i64::MIN as i128 {
        i64::MIN
    } else if floor > i64::MAX as i128 {
        i64::MAX
    } else {
        floor as i64
    }
}

/// Degrees brought into one turn.
pub open spec fn turned(degrees: int) -> int {
    degrees % 360
}

fn whole_turn(degrees: i64) -> (r: i64)
    ensures
        r == turned(degrees as int),
        0 <= r < 360,
{
    if degrees >= 0 {
        degrees % 360
    } else {
        let n: i128 = -(degrees as i128);
        let m: i128 = n % 360;
        if m == 0 {
            0
        } else {
            (360 - m) as i64
        }
    }
}

/// The rotation a stream asks players to apply, in whole degrees clockwise
/// within one turn: the display matrix's angle, or the older tag's, or none.
pub open spec fn rotation_of(matrix: Option<Number>, tag: Option<Number>) -> int {
    match (matrix, tag) {
        (Some(angle), _) => turned(as_rounded(angle)),
        (None, Some(angle)) => turned(as_rounded(angle)),
        (None, None) => 0,
    }
}

pub fn rotation(matrix: Option<Number>, tag: Option<Number>) -> (r: i64)
    ensures
        r == rotation_of(matrix, tag),
        0 <= r < 360,
{
    match matrix {
        Some(angle) => whole_turn(angle.to_rounded()),
        None => match tag {
            Some(angle) => whole_turn(angle.to_rounded()),
            None => 0,
        },
    }
}

/// The filters that turn a decoded frame the way its rotation asks.
pub open spec fn turning(degrees: int) -> Option<Seq<char>> {
    if degrees == 90 {
        Some("transpose=clock"@)
    } else if degrees == 180 {
        Some("hflip,vflip"@)
    } else if degrees == 270 {
        Some("transpose=cclock"@)
    } else {
        None
    }
}

pub fn rotation_filters(degrees: i64) -> (r: Option<&'static str>)
    ensures
        match r {
            Some(filters) => turning(degrees as int) == Some(filters@),
            None => turning(degrees as int) is None,
        },
{
    if degrees == 90 {
        Some("transpose=clock")
    } else if degrees == 180 {
        Some("hflip,vflip")
    } else if degrees == 270 {
        Some("transpose=cclock")
    } else {
        None
    }
}

/// The size a picture is shown at: a quarter turn swaps the two.
pub open spec fn shown_size(width: u32, height: u32, degrees: int) -> (u32, u32) {
    if degrees % 180 == 90 {
        (height, width)
    } else {
        (width, height)
    }
}

pub fn displayed(width: u32, height: u32, degrees: i64) -> (r: (u32, u32))
    ensures
        r == shown_size(width, height, degrees as int),
{
    let turn: i64 = whole_turn(degrees);
    if turn == 90 || turn == 270 {
        (height, width)
    } else {
        (width, height)
    }
}

} // verus!
