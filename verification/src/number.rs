//! Binary64 numbers, carried as their bits.
//!
//! A document's times, ratios and angles are double precision numbers. This
//! module holds one as its sixty-four bits and computes with integers alone:
//! order, equality and range checks read the bits, and the four operations and
//! the remainder round to the nearest number, ties to the even one. What each
//! returns is stated over the exact value of its operands, counted in units of
//! the smallest positive number.

use vstd::arithmetic::power2::*;
use vstd::prelude::*;

verus! {

/// The weight of the lowest exponent bit: two to the fifty-second.
pub const FRACTION: u64 = 0x0010_0000_0000_0000;

/// The magnitude of infinity. Larger magnitudes are not numbers.
pub const INFINITE: u64 = 0x7ff0_0000_0000_0000;

/// The weight of the sign bit.
pub const SIGN: u64 = 0x8000_0000_0000_0000;

/// The quiet not-a-number every invalid operation returns.
pub const NOT_A_NUMBER: u64 = 0x7ff8_0000_0000_0000;

/// A binary64 number.
#[derive(Clone, Copy, Debug)]
pub struct Number {
    pub bits: u64,
}

/// The number with these bits. Constants are kept as bits and read through
/// this.
#[verifier::allow_in_spec]
pub fn num(bits: u64) -> Number
    returns
        (Number { bits }),
{
    Number { bits }
}

pub const ZERO: u64 = 0;

pub const ONE: u64 = 0x3ff0_0000_0000_0000;

/// What a magnitude is worth, in units of the smallest positive number. The
/// same formula carried on to infinity gives the value one past the largest
/// number, which is what rounding compares against.
pub open spec fn units(magnitude: nat) -> nat {
    if magnitude < FRACTION {
        magnitude
    } else {
        ((FRACTION + magnitude % (FRACTION as nat)) * pow2(
            (magnitude / (FRACTION as nat) - 1) as nat,
        )) as nat
    }
}

/// Whether `magnitude` is the one nearest to `num / den` units, the even one of
/// two that are equally near. Infinity is what everything past the largest
/// number's half step rounds to.
pub open spec fn rounds_to(magnitude: nat, num: nat, den: nat) -> bool {
    &&& magnitude <= INFINITE
    &&& magnitude > 0 ==> {
        let half = (units((magnitude - 1) as nat) + units(magnitude)) * den;
        half < 2 * num || (half == 2 * num && magnitude % 2 == 0)
    }
    &&& magnitude < INFINITE ==> {
        let half = (units(magnitude) + units(magnitude + 1)) * den;
        2 * num < half || (half == 2 * num && magnitude % 2 == 0)
    }
}

/// The magnitude nearest to `num / den` units.
pub open spec fn nearest(num: nat, den: nat) -> nat {
    choose|magnitude: nat| rounds_to(magnitude, num, den)
}

impl Number {
    /// The bits below the sign.
    pub open spec fn magnitude(self) -> nat {
        (self.bits as nat) % (SIGN as nat)
    }

    pub open spec fn negative(self) -> bool {
        self.bits >= SIGN
    }

    pub open spec fn nan(self) -> bool {
        self.magnitude() > INFINITE
    }

    pub open spec fn infinite(self) -> bool {
        self.magnitude() == INFINITE
    }

    pub open spec fn finite(self) -> bool {
        self.magnitude() < INFINITE
    }

    /// The exact value, in units of the smallest positive number.
    pub open spec fn value(self) -> int {
        if self.negative() {
            -(units(self.magnitude()) as int)
        } else {
            units(self.magnitude()) as int
        }
    }

    /// Where the number stands among the others: signed magnitudes order as
    /// the values do.
    pub open spec fn rank(self) -> int {
        if self.negative() {
            -(self.magnitude() as int)
        } else {
            self.magnitude() as int
        }
    }

    /// Numeric `<`: false whenever a side is not a number.
    pub open spec fn less(self, other: Self) -> bool {
        !self.nan() && !other.nan() && self.rank() < other.rank()
    }

    /// Numeric `<=`.
    pub open spec fn at_most(self, other: Self) -> bool {
        !self.nan() && !other.nan() && self.rank() <= other.rank()
    }

    /// Numeric `==`: the two zeros are equal, and what is not a number equals
    /// nothing.
    pub open spec fn same(self, other: Self) -> bool {
        !self.nan() && !other.nan() && self.rank() == other.rank()
    }
}

/// The number with this sign and magnitude.
pub open spec fn signed(negative: bool, magnitude: nat) -> Number {
    Number { bits: (magnitude + if negative { SIGN as nat } else { 0 }) as u64 }
}

/// The number nearest to `num / den` units, under a sign.
pub open spec fn rounded(negative: bool, num: nat, den: nat) -> Number {
    signed(negative, nearest(num, den))
}

// What rounding rests on: the units grow with the magnitude, so at most one
// magnitude is nearest.

pub proof fn lemma_units_of(t: nat, q: nat)
    requires
        q <= 2 * FRACTION,
        t == 0 || q >= FRACTION,
    ensures
        units(t * (FRACTION as nat) + q) == q * pow2(t),
{
    let f = FRACTION as nat;
    let m = t * f + q;
    lemma_pow2_unfold(t + 1);
    assert(pow2(0) == 1) by {
        lemma2_to64();
    }
    if m < f {
        assert(t == 0) by (nonlinear_arith)
            requires
                t * f + q < f,
                f > 0,
                q >= 0,
                t >= 0,
        ;
    } else if q < 2 * f && q >= f {
        assert(m == (t + 1) * f + (q - f)) by (nonlinear_arith)
            requires
                m == t * f + q,
        ;
        vstd::arithmetic::div_mod::lemma_fundamental_div_mod_converse(
            m as int,
            f as int,
            (t + 1) as int,
            q - f,
        );
    } else {
        assert(q == 2 * f);
        assert(m == (t + 2) * f + 0) by (nonlinear_arith)
            requires
                m == t * f + q,
                q == 2 * f,
        ;
        vstd::arithmetic::div_mod::lemma_fundamental_div_mod_converse(
            m as int,
            f as int,
            (t + 2) as int,
            0,
        );
        assert(pow2((m / f - 1) as nat) == pow2(t + 1));
        assert((f + 0) * (2 * pow2(t)) == (2 * f) * pow2(t)) by (nonlinear_arith);
    }
}

/// The magnitude as an exponent and a significand.
pub proof fn lemma_units_split(m: nat)
    ensures
        m < FRACTION ==> units(m) == m,
        m >= FRACTION ==> {
            let t = (m / (FRACTION as nat) - 1) as nat;
            let q = m % (FRACTION as nat) + FRACTION;
            &&& m == t * FRACTION + q
            &&& FRACTION <= q < 2 * FRACTION
            &&& units(m) == q * pow2(t)
        },
{
    let f = FRACTION as nat;
    if m >= f {
        let t = (m / f - 1) as nat;
        vstd::arithmetic::div_mod::lemma_fundamental_div_mod(m as int, f as int);
        assert(m == t * f + (m % f + f)) by (nonlinear_arith)
            requires
                m == f * (m / f) + m % f,
                t == m / f - 1,
        ;
    }
}

pub proof fn lemma_units_step(m: nat)
    ensures
        units(m) < units(m + 1),
{
    lemma_units_split(m);
    lemma_units_split(m + 1);
    assert(pow2(0) == 1) by {
        lemma2_to64();
    }
    let f = FRACTION as nat;
    if m + 1 >= f {
        if m < f {
            lemma_units_of(0, f);
        } else {
            let t = (m / f - 1) as nat;
            let q = m % f + f;
            lemma_units_of(t, q);
            lemma_units_of(t, q + 1);
            lemma_pow2_pos(t);
            assert(q * pow2(t) < (q + 1) * pow2(t)) by (nonlinear_arith)
                requires
                    pow2(t) > 0,
            ;
        }
    }
}

/// Units grow with the magnitude.
pub proof fn lemma_units_monotonic(a: nat, b: nat)
    ensures
        a < b <==> units(a) < units(b),
        a == b <==> units(a) == units(b),
    decreases a + b,
{
    if a < b {
        lemma_units_step((b - 1) as nat);
        if a < b - 1 {
            lemma_units_monotonic(a, (b - 1) as nat);
        }
    } else if b < a {
        lemma_units_step((a - 1) as nat);
        if b < a - 1 {
            lemma_units_monotonic(b, (a - 1) as nat);
        }
    }
}

proof fn lemma_nearest_below(a: nat, b: nat, num: nat, den: nat)
    requires
        rounds_to(a, num, den),
        rounds_to(b, num, den),
        den > 0,
    ensures
        a >= b,
{
    if a < b {
        lemma_units_monotonic(a, (b - 1) as nat);
        lemma_units_monotonic(a + 1, b);
        let low = units(a) + units(a + 1);
        let high = units((b - 1) as nat) + units(b);
        if b == a + 1 {
            assert(low == high);
        } else {
            assert(low < high);
            assert(low * den < high * den) by (nonlinear_arith)
                requires
                    low < high,
                    den > 0,
            ;
        }
    }
}

/// At most one magnitude is nearest to a ratio, so `nearest` names it.
pub proof fn lemma_nearest_is(magnitude: nat, num: nat, den: nat)
    requires
        rounds_to(magnitude, num, den),
        den > 0,
    ensures
        nearest(num, den) == magnitude,
{
    let other = nearest(num, den);
    lemma_nearest_below(magnitude, other, num, den);
    lemma_nearest_below(other, magnitude, num, den);
}

// The rounding core: a significand, a power of two and whether anything lies
// below the significand.

/// Two to the power of `exponent`.
pub(crate) fn power_of_two(exponent: u32) -> (power: u128)
    requires
        exponent < 128,
    ensures
        power == pow2(exponent as nat),
{
    let mut power: u128 = 1;
    let mut done: u32 = 0;
    proof {
        lemma2_to64();
    }
    while done < exponent
        invariant
            done <= exponent < 128,
            power == pow2(done as nat),
        decreases exponent - done,
    {
        proof {
            lemma_pow2_unfold((done + 1) as nat);
            assert(pow2(127) == 0x8000_0000_0000_0000_0000_0000_0000_0000) by {
                lemma2_to64();
                lemma2_to64_rest();
                lemma_pow2_adds(63, 64);
            }
            if done + 1 < 127 {
                lemma_pow2_strictly_increases((done + 1) as nat, 127);
            }
        }
        power = power * 2;
        done = done + 1;
    }
    power
}

/// How many bits `significand` takes.
fn bit_length(significand: u128) -> (length: u32)
    requires
        significand > 0,
    ensures
        1 <= length <= 128,
        pow2((length - 1) as nat) <= significand < pow2(length as nat),
{
    let mut rest: u128 = significand / 2;
    let mut length: u32 = 1;
    proof {
        lemma2_to64();
    }
    while rest > 0
        invariant
            1 <= length <= 128,
            rest > 0 ==> length <= 127,
            pow2((length - 1) as nat) <= significand,
            rest * pow2(length as nat) <= significand,
            significand < (rest + 1) * pow2(length as nat),
        decreases rest,
    {
        proof {
            lemma_pow2_unfold((length + 1) as nat);
            lemma_pow2_pos(length as nat);
            let p = pow2(length as nat) as int;
            let half = (rest / 2) as int;
            assert(half * (2 * p) <= rest * p && (rest + 1) * p <= (half + 1) * (2 * p) && p <= rest
                * p) by (nonlinear_arith)
                requires
                    p > 0,
                    rest >= 1,
                    2 * half <= rest,
                    rest + 1 <= 2 * half + 2,
            ;
            if length == 127 && half > 0 {
                lemma2_to64();
                lemma_pow2_adds(64, 64);
                assert(2 * p <= half * (2 * p)) by (nonlinear_arith)
                    requires
                        p > 0,
                        half >= 1,
                ;
            }
        }
        rest = rest / 2;
        length = length + 1;
    }
    assert(rest == 0);
    assert((rest + 1) * pow2(length as nat) == pow2(length as nat)) by (nonlinear_arith)
        requires
            rest == 0,
    ;
    length
}

/// Rounding a significand to its kept part: `whole` is what stands above the
/// dropped bits and `up` says whether they round it up.
proof fn lemma_round_half(
    significand: int,
    sticky: bool,
    power: int,
    whole: int,
    dropped: int,
    up: bool,
    n: int,
    d: int,
)
    requires
        power >= 2,
        power % 2 == 0,
        d > 0,
        significand == whole * power + dropped,
        0 <= dropped < power,
        whole >= 0,
        significand * d <= n < (significand + 1) * d,
        sticky <==> significand * d < n,
        up <==> (dropped > power / 2 || (dropped == power / 2 && (sticky || whole % 2 == 1))),
    ensures
        ({
            let q = if up { whole + 1 } else { whole };
            &&& (2 * q - 1) * (power * d) < 2 * n || ((2 * q - 1) * (power * d) == 2 * n && q % 2 == 0)
            &&& 2 * n < (2 * q + 1) * (power * d) || (2 * n == (2 * q + 1) * (power * d) && q % 2 == 0)
        }),
{
    let half = power / 2;
    let q = if up { whole + 1 } else { whole };
    let pd = power * d;
    assert(power == 2 * half);
    // The half-way point above the kept part, in steps of the dropped bits.
    assert((2 * whole + 1) * pd == 2 * ((whole * power + half) * d)) by (nonlinear_arith)
        requires
            pd == power * d,
            power == 2 * half,
    ;
    let mid = whole * power + half;
    assert((2 * whole - 1) * pd == 2 * ((whole * power - half) * d)) by (nonlinear_arith)
        requires
            pd == power * d,
            power == 2 * half,
    ;
    assert((2 * whole + 3) * pd == 2 * ((whole * power + 3 * half) * d)) by (nonlinear_arith)
        requires
            pd == power * d,
            power == 2 * half,
    ;
    if up {
        assert(mid * d <= significand * d) by (nonlinear_arith)
            requires
                mid <= significand,
                d > 0,
        ;
        if dropped > half {
            assert(mid * d < significand * d) by (nonlinear_arith)
                requires
                    mid < significand,
                    d > 0,
            ;
        }
        assert((significand + 1) * d <= (whole * power + 3 * half) * d) by (nonlinear_arith)
            requires
                significand + 1 <= whole * power + 3 * half,
                d > 0,
        ;
    } else {
        assert((whole * power - half) * d < significand * d) by (nonlinear_arith)
            requires
                whole * power - half < significand,
                d > 0,
        ;
        if dropped < half {
            assert((significand + 1) * d <= mid * d) by (nonlinear_arith)
                requires
                    significand + 1 <= mid,
                    d > 0,
            ;
        }
    }
}

/// A significand rounded at an exponent is the nearest magnitude.
proof fn lemma_rounds_at(t: nat, q: nat, num: nat, den: nat)
    requires
        den > 0,
        q <= 2 * FRACTION,
        t == 0 || q >= FRACTION,
        t > 0 && q == FRACTION ==> 2 * num >= 2 * q * pow2(t) * den,
        (2 * q - 1) * pow2(t) * den < 2 * num || ((2 * q - 1) * pow2(t) * den == 2 * num && q % 2
            == 0),
        2 * num < (2 * q + 1) * pow2(t) * den || ((2 * q + 1) * pow2(t) * den == 2 * num && q % 2
            == 0),
        q == 2 * FRACTION ==> 2 * num < 2 * q * pow2(t) * den,
    ensures
        ({
            let m = t * (FRACTION as nat) + q;
            rounds_to(if m <= INFINITE { m } else { INFINITE as nat }, num, den)
        }),
{
    let f = FRACTION as nat;
    let p = pow2(t);
    let m = t * f + q;
    lemma_pow2_pos(t);
    lemma_units_of(t, q);
    assert(m % 2 == q % 2) by (nonlinear_arith)
        requires
            m == t * f + q,
            f == 0x0010_0000_0000_0000,
    ;
    if m > 0 {
        let before = units((m - 1) as nat);
        if q > f || t == 0 {
            lemma_units_of(t, (q - 1) as nat);
            assert((before + units(m)) * den == (2 * q - 1) * p * den) by (nonlinear_arith)
                requires
                    before == (q - 1) * p,
                    units(m) == q * p,
            ;
        } else {
            assert(q == f);
            assert(m - 1 == (t - 1) * f + (2 * f - 1)) by (nonlinear_arith)
                requires
                    m == t * f + q,
                    q == f,
            ;
            lemma_units_of((t - 1) as nat, (2 * f - 1) as nat);
            lemma_pow2_unfold(t);
            lemma_units_step((m - 1) as nat);
            assert((before + units(m)) * den < 2 * q * p * den) by (nonlinear_arith)
                requires
                    before < units(m),
                    units(m) == q * p,
                    den > 0,
            ;
        }
    }
    if q < 2 * f {
        lemma_units_of(t, q + 1);
        assert((units(m) + units(m + 1)) * den == (2 * q + 1) * p * den) by (nonlinear_arith)
            requires
                units(m + 1) == (q + 1) * p,
                units(m) == q * p,
        ;
    } else {
        lemma_units_step(m);
        assert((units(m) + units(m + 1)) * den > 2 * q * p * den) by (nonlinear_arith)
            requires
                units(m + 1) > units(m),
                units(m) == q * p,
                den > 0,
        ;
    }
    if m > INFINITE {
        let top = INFINITE as nat;
        lemma_units_monotonic((top - 1) as nat, (m - 1) as nat);
        lemma_units_monotonic(top, m);
        let a = units((top - 1) as nat) + units(top);
        let b = units((m - 1) as nat) + units(m);
        assert(a * den < b * den) by (nonlinear_arith)
            requires
                a < b,
                den > 0,
        ;
    }
}

/// A value below half a unit rounds to zero.
proof fn lemma_round_tiny(significand: nat, length: nat, b: nat, num: nat, den: nat)
    requires
        den > 0,
        significand < pow2(length),
        b > length,
        num * pow2(b) < (significand + 1) * den,
    ensures
        rounds_to(0, num, den),
{
    lemma2_to64();
    lemma_pow2_pos(b);
    lemma_pow2_unfold(b);
    if length < b - 1 {
        lemma_pow2_strictly_increases(length, (b - 1) as nat);
    }
    assert(2 * (num * pow2(b)) < pow2(b) * den) by (nonlinear_arith)
        requires
            num * pow2(b) < (significand + 1) * den,
            significand + 1 <= pow2((b - 1) as nat),
            pow2(b) == 2 * pow2((b - 1) as nat),
            den > 0,
    ;
    assert(2 * num < den) by (nonlinear_arith)
        requires
            2 * (num * pow2(b)) < pow2(b) * den,
            pow2(b) > 0,
    ;
    assert((2 * 0 - 1) * pow2(0) * den < 2 * num) by (nonlinear_arith)
        requires
            den > 0,
            pow2(0) == 1,
            num >= 0,
    ;
    assert((2 * 0 + 1) * pow2(0) * den == den) by (nonlinear_arith)
        requires
            pow2(0) == 1,
    ;
    lemma_rounds_at(0, 0, num, den);
}

/// A value whose significand fits is the magnitude it spells.
proof fn lemma_round_exact(significand: nat, up: nat, t: nat, num: nat, den: nat)
    requires
        den > 0,
        num == significand * (den * pow2(t + up)),
        significand * pow2(up) < 2 * FRACTION,
        t > 0 ==> significand * pow2(up) >= FRACTION,
    ensures
        ({
            let m = (t * (FRACTION as nat) + significand * pow2(up)) as nat;
            rounds_to(if m <= INFINITE { m } else { INFINITE as nat }, num, den)
        }),
{
    let q = significand * pow2(up);
    lemma_pow2_adds(t, up);
    lemma_pow2_pos(t);
    assert(num == q * pow2(t) * den) by (nonlinear_arith)
        requires
            num == significand * (den * pow2(t + up)),
            pow2(t + up) == pow2(t) * pow2(up),
            q == significand * pow2(up),
    ;
    assert((2 * q - 1) * pow2(t) * den < 2 * (q * pow2(t) * den) && 2 * (q * pow2(t) * den) < (2 * q
        + 1) * pow2(t) * den && 2 * (q * pow2(t) * den) == 2 * q * pow2(t) * den)
        by (nonlinear_arith)
        requires
            den > 0,
            pow2(t) > 0,
    ;
    lemma_rounds_at(t, q, num, den);
}

/// A significand cut to its kept part, rounded by what was dropped, is the
/// nearest magnitude.
proof fn lemma_round_kept(
    significand: nat,
    sticky: bool,
    drop: nat,
    whole: nat,
    dropped: nat,
    up: bool,
    a: nat,
    b: nat,
    t: nat,
    num: nat,
    den: nat,
)
    requires
        den > 0,
        drop > 0,
        drop + a == t + b,
        significand == whole * pow2(drop) + dropped,
        dropped < pow2(drop),
        whole < 2 * FRACTION,
        t > 0 ==> whole >= FRACTION,
        significand * (den * pow2(a)) <= num * pow2(b),
        num * pow2(b) < (significand + 1) * (den * pow2(a)),
        sticky <==> significand * (den * pow2(a)) < num * pow2(b),
        up <==> (dropped > pow2(drop) / 2 || (dropped == pow2(drop) / 2 && (sticky || whole % 2
            == 1))),
    ensures
        ({
            let q = if up { whole + 1 } else { whole };
            let m = (t * (FRACTION as nat) + q) as nat;
            rounds_to(if m <= INFINITE { m } else { INFINITE as nat }, num, den)
        }),
{
    let q = if up { whole + 1 } else { whole };
    let n = num * pow2(b);
    let d = den * pow2(a);
    let power = pow2(drop);
    lemma_pow2_pos(a);
    lemma_pow2_pos(b);
    lemma_pow2_pos(t);
    lemma_pow2_unfold(drop);
    lemma_pow2_pos((drop - 1) as nat);
    assert(d > 0) by (nonlinear_arith)
        requires
            den > 0,
            pow2(a) > 0,
            d == den * pow2(a),
    ;
    lemma_round_half(
        significand as int,
        sticky,
        power as int,
        whole as int,
        dropped as int,
        up,
        n as int,
        d as int,
    );
    // Both sides carry two to the power of `b`.
    lemma_pow2_adds(drop, a);
    lemma_pow2_adds(t, b);
    let pb = pow2(b) as int;
    let pt = pow2(t) as int;
    assert(power * d == pt * pb * den) by (nonlinear_arith)
        requires
            d == den * pow2(a),
            power * pow2(a) == pt * pb,
    ;
    let low = (2 * q - 1) * pt * den;
    let high = (2 * q + 1) * pt * den;
    assert((2 * q - 1) * (power * d) == low * pb && (2 * q + 1) * (power * d) == high * pb && 2 * n
        == (2 * num) * pb) by (nonlinear_arith)
        requires
            power * d == pt * pb * den,
            low == (2 * q - 1) * pt * den,
            high == (2 * q + 1) * pt * den,
            n == num * pb,
    ;
    lemma_cancel(low, 2 * num as int, pb);
    lemma_cancel(2 * num as int, high, pb);
    lemma_cancel(2 * num as int, 2 * q * pt * den, pb);
    assert((2 * q) * (power * d) == (2 * q * pt * den) * pb) by (nonlinear_arith)
        requires
            power * d == pt * pb * den,
    ;
    if t > 0 && q == FRACTION {
        assert(!up);
        assert(2 * n >= 2 * q * (power * d)) by (nonlinear_arith)
            requires
                n >= significand * d,
                significand >= q * power,
                d > 0,
        ;
    }
    if q == 2 * FRACTION {
        assert(up);
        assert(significand + 1 <= q * power) by (nonlinear_arith)
            requires
                significand == whole * power + dropped,
                dropped < power,
                q == whole + 1,
        ;
        assert(2 * n < (2 * q) * (power * d)) by (nonlinear_arith)
            requires
                n < (significand + 1) * d,
                significand + 1 <= q * power,
                d > 0,
        ;
    }
    lemma_rounds_at(t, q, num, den);
}

/// The magnitude nearest to `num / den` units, given as a significand, a power
/// of two and whether anything lies below the significand.
#[verifier::spinoff_prover]
#[verifier::rlimit(60)]
fn round(
    significand: u128,
    exponent: i32,
    sticky: bool,
    Ghost(num): Ghost<nat>,
    Ghost(den): Ghost<nat>,
) -> (magnitude: u64)
    requires
        0 < significand,
        -4000 <= exponent <= 4000,
        den > 0,
        ({
            let a = if exponent > 0 { exponent as nat } else { 0 };
            let b = if exponent < 0 { (-exponent) as nat } else { 0 };
            &&& significand * (den * pow2(a)) <= num * pow2(b)
            &&& num * pow2(b) < (significand + 1) * (den * pow2(a))
            &&& sticky <==> significand * (den * pow2(a)) < num * pow2(b)
        }),
        sticky ==> significand >= 0x0100_0000_0000_0000,
        significand < 0x8000_0000_0000_0000_0000_0000_0000_0000,
    ensures
        rounds_to(magnitude as nat, num, den),
        magnitude == nearest(num, den),
{
    let ghost a: nat = if exponent > 0 { exponent as nat } else { 0 };
    let ghost b: nat = if exponent < 0 { (-exponent) as nat } else { 0 };
    let length: i32 = bit_length(significand) as i32;
    proof {
        lemma2_to64();
        lemma2_to64_rest();
        lemma_pow2_adds(63, 64);
        if length == 128 {
            assert(false);
        }
        if sticky && length <= 56 {
            if length < 56 {
                lemma_pow2_strictly_increases(length as nat, 56);
            }
            assert(false);
        }
    }
    let shifted: i32 = exponent + length - 53;
    let top: i32 = if shifted > 0 { shifted } else { 0 };
    let drop: i32 = top - exponent;
    let ghost t = top as nat;
    if drop > length {
        proof {
            lemma_round_tiny(significand as nat, length as nat, b, num, den);
            lemma_nearest_is(0, num, den);
        }
        return 0;
    }
    let kept: u128;
    if drop <= 0 {
        let power: u128 = power_of_two((-drop) as u32);
        proof {
            let up = (-drop) as nat;
            lemma_pow2_adds(length as nat, up);
            lemma_pow2_adds((length - 1) as nat, up);
            if length + up < 53 {
                lemma_pow2_strictly_increases((length + up) as nat, 53);
            }
            assert(significand * power < pow2(length as nat) * pow2(up)) by (nonlinear_arith)
                requires
                    significand < pow2(length as nat),
                    power == pow2(up),
                    power > 0,
            ;
            assert(significand * power >= pow2((length - 1) as nat) * pow2(up)) by (nonlinear_arith)
                requires
                    significand >= pow2((length - 1) as nat),
                    power == pow2(up),
                    power > 0,
            ;
        }
        kept = significand * power;
        proof {
            lemma_round_exact(significand as nat, (-drop) as nat, t, num, den);
        }
    } else {
        let power: u128 = power_of_two(drop as u32);
        proof {
            lemma_pow2_unfold(drop as nat);
            lemma_pow2_pos((drop - 1) as nat);
        }
        let whole: u128 = significand / power;
        let dropped: u128 = significand % power;
        let half: u128 = power / 2;
        let up: bool = dropped > half || (dropped == half && (sticky || whole % 2 == 1));
        proof {
            vstd::arithmetic::div_mod::lemma_fundamental_div_mod(significand as int, power as int);
            assert(significand == whole * power + dropped) by (nonlinear_arith)
                requires
                    significand == power * whole + dropped,
            ;
            // The kept part fits fifty-three bits.
            if top == shifted {
                lemma_pow2_adds(53, drop as nat);
                lemma_pow2_adds(52, drop as nat);
                assert(whole < pow2(53)) by (nonlinear_arith)
                    requires
                        whole * power <= significand,
                        significand < pow2(53) * power,
                        power > 0,
                ;
                assert(whole >= pow2(52)) by (nonlinear_arith)
                    requires
                        significand == whole * power + dropped,
                        dropped < power,
                        significand >= pow2(52) * power,
                        power > 0,
                ;
            } else {
                lemma_pow2_adds(53, drop as nat);
                if length < 53 + drop {
                    lemma_pow2_strictly_increases(length as nat, (53 + drop) as nat);
                }
                assert(whole < pow2(53)) by (nonlinear_arith)
                    requires
                        whole * power <= significand,
                        significand < pow2(53) * power,
                        power > 0,
                ;
            }
        }
        kept = if up { whole + 1 } else { whole };
        proof {
            lemma_round_kept(
                significand as nat,
                sticky,
                drop as nat,
                whole as nat,
                dropped as nat,
                up,
                a,
                b,
                t,
                num,
                den,
            );
        }
    }
    proof {
        let m = (t * (FRACTION as nat) + kept) as nat;
        lemma_nearest_is(if m <= INFINITE { m } else { INFINITE as nat }, num, den);
    }
    let magnitude: u128 = (top as u128) * (FRACTION as u128) + kept;
    if magnitude < INFINITE as u128 {
        magnitude as u64
    } else {
        INFINITE
    }
}

proof fn lemma_cancel(x: int, y: int, p: int)
    requires
        p > 0,
    ensures
        x < y <==> x * p < y * p,
        x == y <==> x * p == y * p,
{
    assert(x < y ==> x * p < y * p) by (nonlinear_arith)
        requires
            p > 0,
    ;
    assert(y < x ==> y * p < x * p) by (nonlinear_arith)
        requires
            p > 0,
    ;
}

// The operations.

/// `-x`.
pub open spec fn negated(x: Number) -> Number {
    Number { bits: if x.negative() { (x.bits - SIGN) as u64 } else { (x.bits + SIGN) as u64 } }
}

/// `|x|`.
pub open spec fn absolute(x: Number) -> Number {
    signed(false, x.magnitude())
}

/// `a + b`: the exact sum, rounded. A zero sum is negative only where both
/// sides are.
#[verifier::opaque]
pub open spec fn sum(a: Number, b: Number) -> Number {
    if a.nan() || b.nan() || (a.infinite() && b.infinite() && a.negative() != b.negative()) {
        Number { bits: NOT_A_NUMBER }
    } else if a.infinite() {
        a
    } else if b.infinite() {
        b
    } else if a.value() + b.value() == 0 {
        signed(a.negative() && b.negative(), 0)
    } else if a.value() + b.value() < 0 {
        rounded(true, (-(a.value() + b.value())) as nat, 1)
    } else {
        rounded(false, (a.value() + b.value()) as nat, 1)
    }
}

/// `a - b`.
pub open spec fn difference(a: Number, b: Number) -> Number {
    sum(a, negated(b))
}

/// `a * b`: the exact product, rounded.
#[verifier::opaque]
pub open spec fn product(a: Number, b: Number) -> Number {
    let negative = a.negative() != b.negative();
    if a.nan() || b.nan() || (a.infinite() && b.magnitude() == 0) || (b.infinite() && a.magnitude()
        == 0) {
        Number { bits: NOT_A_NUMBER }
    } else if a.infinite() || b.infinite() {
        signed(negative, INFINITE as nat)
    } else {
        rounded(negative, units(a.magnitude()) * units(b.magnitude()), pow2(1074))
    }
}

/// `a / b`: the exact quotient, rounded.
#[verifier::opaque]
pub open spec fn quotient(a: Number, b: Number) -> Number {
    let negative = a.negative() != b.negative();
    if a.nan() || b.nan() || (a.infinite() && b.infinite()) || (a.magnitude() == 0 && b.magnitude()
        == 0) {
        Number { bits: NOT_A_NUMBER }
    } else if a.infinite() || b.magnitude() == 0 {
        signed(negative, INFINITE as nat)
    } else if b.infinite() {
        signed(negative, 0)
    } else {
        rounded(negative, units(a.magnitude()) * pow2(1074), units(b.magnitude()))
    }
}

/// `a % b`: what is left of `a` after taking `b` whole times towards zero. It
/// is exact, and carries the sign of `a`.
#[verifier::opaque]
pub open spec fn remainder(a: Number, b: Number) -> Number {
    if a.nan() || b.nan() || a.infinite() || b.magnitude() == 0 {
        Number { bits: NOT_A_NUMBER }
    } else if b.infinite() {
        a
    } else {
        rounded(a.negative(), units(a.magnitude()) % units(b.magnitude()), 1)
    }
}

/// The larger of two numbers; where one is not a number, the other.
pub open spec fn larger(a: Number, b: Number) -> Number {
    if a.nan() || a.less(b) {
        b
    } else {
        a
    }
}

/// The smaller of two numbers; where one is not a number, the other.
pub open spec fn smaller(a: Number, b: Number) -> Number {
    if a.nan() || b.less(a) {
        b
    } else {
        a
    }
}

/// `x` held between two bounds. What is not a number stays.
pub open spec fn clamped(x: Number, low: Number, high: Number) -> Number {
    if x.less(low) {
        low
    } else if high.less(x) {
        high
    } else {
        x
    }
}

/// The total order of the bits: negative before positive, and what is not a
/// number past the infinities.
pub open spec fn total_rank(x: Number) -> int {
    if x.negative() {
        -(x.magnitude() as int) - 1
    } else {
        x.magnitude() as int
    }
}

/// A whole number, rounded.
#[verifier::opaque]
pub open spec fn whole(n: int) -> Number {
    if n < 0 {
        rounded(true, ((-n) as nat) * pow2(1074), 1)
    } else {
        rounded(false, (n as nat) * pow2(1074), 1)
    }
}

pub proof fn lemma_exact(magnitude: nat)
    requires
        magnitude <= INFINITE,
    ensures
        nearest(units(magnitude), 1) == magnitude,
{
    if magnitude > 0 {
        lemma_units_step((magnitude - 1) as nat);
    }
    lemma_units_step(magnitude);
    lemma_nearest_is(magnitude, units(magnitude), 1);
}

proof fn lemma_nearest_zero(den: nat)
    requires
        den > 0,
    ensures
        nearest(0, den) == 0,
{
    assert((units(0) + units(1)) * den > 0) by (nonlinear_arith)
        requires
            units(0) == 0,
            units(1) == 1,
            den > 0,
    ;
    lemma_nearest_is(0, 0, den);
}

/// Every count of units has the last magnitude worth no more.
proof fn lemma_last_below(num: nat, top: nat) -> (k: nat)
    requires
        num < units(top + 1),
    ensures
        k <= top,
        units(k) <= num < units(k + 1),
    decreases top,
{
    if units(top) <= num {
        top
    } else {
        lemma_last_below(num, (top - 1) as nat)
    }
}

/// Every count of units rounds to something.
pub proof fn lemma_rounds_somewhere(num: nat)
    ensures
        rounds_to(nearest(num, 1), num, 1),
{
    let top = INFINITE as nat;
    if units(top) <= num {
        lemma_units_step((top - 1) as nat);
        assert(rounds_to(top, num, 1));
    } else {
        let k = lemma_last_below(num, (top - 1) as nat);
        if k > 0 {
            lemma_units_step((k - 1) as nat);
        }
        lemma_units_step(k);
        lemma_units_step(k + 1);
        let half = units(k) + units(k + 1);
        if 2 * num < half || (2 * num == half && k % 2 == 0) {
            assert(rounds_to(k, num, 1));
        } else {
            assert(rounds_to(k + 1, num, 1));
        }
    }
}

/// Rounding passes no magnitude: what is worth no more than it rounds no further.
pub proof fn lemma_nearest_at_most(num: nat, magnitude: nat)
    requires
        num <= units(magnitude),
    ensures
        nearest(num, 1) <= magnitude,
{
    lemma_rounds_somewhere(num);
    let r = nearest(num, 1);
    if r > magnitude {
        lemma_units_step(magnitude);
        lemma_units_monotonic(magnitude, (r - 1) as nat);
        lemma_units_monotonic(magnitude + 1, r);
    }
}

/// Nor does it fall short of one: what is worth no less rounds no nearer zero.
pub proof fn lemma_nearest_at_least(num: nat, magnitude: nat)
    requires
        units(magnitude) <= num,
        magnitude <= INFINITE,
    ensures
        magnitude <= nearest(num, 1) <= INFINITE,
{
    lemma_rounds_somewhere(num);
    let r = nearest(num, 1);
    if r < magnitude {
        lemma_units_step(r);
        lemma_units_monotonic(r + 1, magnitude);
    }
}

/// Adding what is no less than nothing leads no further back.
pub proof fn lemma_sum_grows(a: Number, b: Number)
    requires
        a.finite(),
        b.finite(),
        b.value() > 0,
    ensures
        total_rank(a) <= total_rank(sum(a, b)),
        !sum(a, b).nan(),
{
    reveal(sum);
    let exact = a.value() + b.value();
    lemma_units_monotonic(0, a.magnitude());
    if exact > 0 {
        lemma_nearest_at_least(exact as nat, if a.negative() { 0 } else { a.magnitude() });
    } else if exact < 0 {
        lemma_nearest_at_most((-exact) as nat, a.magnitude());
    }
}

/// What is worth more rounds no lower.
proof fn lemma_nearest_keeps_order(low: nat, high: nat)
    requires
        low <= high,
    ensures
        nearest(low, 1) <= nearest(high, 1) <= INFINITE,
{
    lemma_rounds_somewhere(low);
    lemma_rounds_somewhere(high);
    let r = nearest(low, 1);
    let s = nearest(high, 1);
    if s < r {
        lemma_units_monotonic(s, (r - 1) as nat);
        lemma_units_monotonic(s + 1, r);
        assert(low == high);
    }
}

/// Adding the same to two numbers keeps their order.
pub proof fn lemma_sum_keeps_order(a: Number, b: Number, c: Number)
    requires
        a.finite(),
        b.finite(),
        c.finite(),
        a.at_most(b),
    ensures
        sum(a, c).at_most(sum(b, c)),
{
    reveal(sum);
    lemma_units_monotonic(a.magnitude(), b.magnitude());
    lemma_units_monotonic(0, a.magnitude());
    lemma_units_monotonic(0, b.magnitude());
    let low = a.value() + c.value();
    let high = b.value() + c.value();
    assert(low <= high);
    if low > 0 {
        lemma_nearest_keeps_order(low as nat, high as nat);
    } else if high < 0 {
        lemma_nearest_keeps_order((-high) as nat, (-low) as nat);
    } else {
        lemma_nearest_keeps_order(0, (-low) as nat);
        lemma_nearest_keeps_order(0, high as nat);
    }
}

/// A ratio that is exactly a magnitude's worth rounds to it.
pub proof fn lemma_exact_ratio(magnitude: nat, num: nat, den: nat)
    requires
        magnitude <= INFINITE,
        den > 0,
        num == units(magnitude) * den,
    ensures
        nearest(num, den) == magnitude,
{
    let u = units(magnitude);
    if magnitude > 0 {
        lemma_units_step((magnitude - 1) as nat);
        let before = units((magnitude - 1) as nat);
        assert((before + u) * den < 2 * (u * den)) by (nonlinear_arith)
            requires
                before < u,
                den > 0,
        ;
    }
    lemma_units_step(magnitude);
    let after = units(magnitude + 1);
    assert(2 * (u * den) < (u + after) * den) by (nonlinear_arith)
        requires
            u < after,
            den > 0,
    ;
    lemma_nearest_is(magnitude, num, den);
}

/// One exponent up is twice the worth.
pub proof fn lemma_units_double(magnitude: nat)
    requires
        magnitude >= FRACTION,
    ensures
        units((magnitude + FRACTION) as nat) == 2 * units(magnitude),
{
    let f = FRACTION as nat;
    let t = (magnitude / f - 1) as nat;
    let q = magnitude % f + f;
    lemma_units_split(magnitude);
    assert(magnitude + f == (t + 1) * f + q) by (nonlinear_arith)
        requires
            magnitude == t * f + q,
    ;
    lemma_units_of(t + 1, q);
    lemma_pow2_unfold(t + 1);
    assert(q * (2 * pow2(t)) == 2 * (q * pow2(t))) by (nonlinear_arith);
}

/// A small whole number is held exactly.
pub proof fn lemma_whole_exact(n: nat)
    requires
        n <= 0x400,
    ensures
        units(nearest(n * pow2(1074), 1)) == n * pow2(1074),
        nearest(n * pow2(1074), 1) < INFINITE,
{
    let f = FRACTION as nat;
    let num = n * pow2(1074);
    lemma2_to64();
    lemma2_to64_rest();
    lemma_pow2_adds(10, 1074);
    lemma_pow2_adds(52, 1032);
    assert(num <= pow2(1084)) by (nonlinear_arith)
        requires
            num == n * pow2(1074),
            pow2(1084) == 0x400 * pow2(1074),
            n <= 0x400,
            pow2(1074) >= 0,
    ;
    let top = (1034 * f) as nat;
    lemma_units_of(1033, f);
    lemma_pow2_unfold(1033);
    lemma_pow2_pos(1032);
    assert(pow2(1084) < f * pow2(1033)) by (nonlinear_arith)
        requires
            pow2(1084) == f * pow2(1032),
            pow2(1033) == 2 * pow2(1032),
            pow2(1032) > 0,
            f > 0,
    ;
    lemma_units_step(top);
    let k = lemma_last_below(num, top);
    lemma_units_monotonic(k, top);
    assert(k < top);
    lemma_units_split(k);
    if k >= f {
        let t = (k / f - 1) as nat;
        let q = k % f + f;
        assert(t < 1033) by (nonlinear_arith)
            requires
                k == t * f + q,
                q >= f,
                k < 1034 * f,
        ;
        lemma_units_of(t, q + 1);
        let p = pow2(t);
        let c = n * pow2((1074 - t) as nat);
        lemma_pow2_adds((1074 - t) as nat, t);
        assert(num == c * p) by (nonlinear_arith)
            requires
                num == n * (pow2((1074 - t) as nat) * p),
                c == n * pow2((1074 - t) as nat),
        ;
        assert(c == q) by (nonlinear_arith)
            requires
                q * p <= c * p < (q + 1) * p,
                p >= 0,
        ;
    } else {
        lemma_units_split(k + 1);
        if k + 1 == f {
            lemma_units_of(0, f);
        }
        assert(num == k);
    }
    lemma_exact(k);
}

/// What so many significant bits can tell is held exactly.
pub proof fn lemma_held(q: nat, t: nat) -> (k: nat)
    requires
        q < 2 * FRACTION,
        t <= 1500,
    ensures
        units(k) == q * pow2(t),
        k < INFINITE,
    decreases t,
{
    if q >= FRACTION {
        lemma_units_of(t, q);
        (t * FRACTION + q) as nat
    } else if t == 0 {
        lemma2_to64();
        assert(q * pow2(0) == q) by (nonlinear_arith)
            requires
                pow2(0) == 1,
        ;
        q
    } else {
        let k = lemma_held(2 * q, (t - 1) as nat);
        lemma_pow2_unfold(t);
        let p = pow2((t - 1) as nat);
        assert((2 * q) * p == q * (2 * p)) by (nonlinear_arith);
        k
    }
}

/// A finite number is known by its sign and its value.
pub proof fn lemma_known_by_value(a: Number, b: Number)
    requires
        a.finite(),
        b.finite(),
        a.value() == b.value(),
        a.negative() == b.negative(),
    ensures
        a == b,
{
    lemma_units_monotonic(a.magnitude(), b.magnitude());
}

/// Two, and one half.
pub const TWO: u64 = 0x4000_0000_0000_0000;

pub const HALF: u64 = 0x3fe0_0000_0000_0000;

proof fn lemma_worth_of_two()
    ensures
        units(TWO as nat) == 2 * pow2(1074),
        2 * units(HALF as nat) == pow2(1074),
{
    lemma2_to64();
    lemma2_to64_rest();
    lemma_pow2_adds(52, 1022);
    lemma_pow2_adds(52, 1023);
    lemma_pow2_adds(52, 1021);
    lemma_pow2_unfold(1075);
    lemma_pow2_unfold(1074);
}

/// Halving a number of a whole exponent or more is exact: its exponent goes
/// down by one.
pub proof fn lemma_halves(x: Number)
    requires
        !x.negative(),
        2 * FRACTION <= x.magnitude() < INFINITE,
    ensures
        quotient(x, num(TWO)) == num((x.bits - FRACTION) as u64),
{
    reveal(quotient);
    lemma_worth_of_two();
    lemma_pow2_pos(1074);
    let m = x.magnitude();
    let k = (m - FRACTION) as nat;
    lemma_units_double(k);
    let p = pow2(1074);
    assert(units(m) * p == units(k) * (2 * p)) by (nonlinear_arith)
        requires
            units(m) == 2 * units(k),
    ;
    lemma_exact_ratio(k, units(m) * p, 2 * p);
}

/// Dividing by one half is exact: the exponent goes up by one.
pub proof fn lemma_doubles(x: Number)
    requires
        !x.negative(),
        FRACTION <= x.magnitude(),
        x.magnitude() + FRACTION <= INFINITE,
    ensures
        quotient(x, num(HALF)) == num((x.bits + FRACTION) as u64),
{
    reveal(quotient);
    lemma_worth_of_two();
    lemma_pow2_pos(1074);
    let m = x.magnitude();
    let k = (m + FRACTION) as nat;
    lemma_units_double(m);
    let d = units(HALF as nat);
    assert(units(m) * (2 * d) == units(k) * d) by (nonlinear_arith)
        requires
            units(k) == 2 * units(m),
    ;
    lemma_exact_ratio(k, units(m) * pow2(1074), d);
}

/// Adding or taking away less than a quarter step leaves the number.
proof fn lemma_absorbs(magnitude: nat, t: nat, small: nat, num: nat)
    requires
        t > 1,
        t == magnitude / (FRACTION as nat) - 1,
        magnitude < INFINITE,
        4 * small < pow2(t),
        num == units(magnitude) + small || num + small == units(magnitude),
    ensures
        nearest(num, 1) == magnitude,
{
    let f = FRACTION as nat;
    let q = magnitude % f + f;
    lemma_units_split(magnitude);
    lemma_units_of(t, q);
    lemma_units_of(t, q + 1);
    lemma_pow2_unfold(t);
    let p = pow2(t);
    assert((q + 1) * p == q * p + p) by (nonlinear_arith);
    let before = units((magnitude - 1) as nat);
    if q > f {
        lemma_units_of(t, (q - 1) as nat);
        assert((q - 1) * p == q * p - p) by (nonlinear_arith);
    } else {
        let h = pow2((t - 1) as nat);
        assert(magnitude - 1 == (t - 1) * f + (2 * f - 1)) by (nonlinear_arith)
            requires
                magnitude == t * f + q,
                q == f,
        ;
        lemma_units_of((t - 1) as nat, (2 * f - 1) as nat);
        assert((2 * f - 1) * h == q * p - h) by (nonlinear_arith)
            requires
                p == 2 * h,
                q == f,
        ;
    }
    lemma_nearest_is(magnitude, num, 1);
}

/// A finite magnitude as a significand and a power of two.
pub(crate) fn split(magnitude: u64) -> (parts: (u64, u32))
    requires
        magnitude < INFINITE,
    ensures
        units(magnitude as nat) == parts.0 * pow2(parts.1 as nat),
        parts.0 < 2 * FRACTION,
        parts.1 <= 2045,
        parts.1 == 0 || parts.0 >= FRACTION,
        parts.1 == (if magnitude < FRACTION { 0int } else { magnitude / FRACTION - 1 }),
        magnitude > 0 <==> parts.0 > 0,
        magnitude < FRACTION ==> parts.0 == magnitude,
{
    proof {
        lemma_units_split(magnitude as nat);
        lemma2_to64();
    }
    if magnitude < FRACTION {
        assert(magnitude * pow2(0) == magnitude) by (nonlinear_arith)
            requires
                pow2(0) == 1,
        ;
        (magnitude, 0)
    } else {
        (magnitude % FRACTION + FRACTION, (magnitude / FRACTION - 1) as u32)
    }
}

/// The number with this sign and magnitude.
fn with_sign(negative: bool, magnitude: u64) -> (r: Number)
    requires
        magnitude < SIGN,
    ensures
        r == signed(negative, magnitude as nat),
        r.magnitude() == magnitude,
        r.negative() == negative,
{
    Number { bits: if negative { magnitude + SIGN } else { magnitude } }
}

/// A significand times a power of two, under a sign.
pub(crate) fn scaled(negative: bool, significand: u64, exponent: u32) -> (r: Number)
    requires
        exponent <= 2000,
    ensures
        r == rounded(negative, (significand * pow2(exponent as nat)) as nat, 1),
{
    let ghost num: nat = (significand * pow2(exponent as nat)) as nat;
    proof {
        lemma_pow2_pos(exponent as nat);
        lemma2_to64();
    }
    if significand == 0 {
        proof {
            assert(num == 0) by (nonlinear_arith)
                requires
                    num == significand * pow2(exponent as nat),
                    significand == 0,
            ;
            lemma_nearest_zero(1);
        }
        return with_sign(negative, 0);
    }
    proof {
        let p = pow2(exponent as nat);
        assert(num * pow2(0) == num && significand * (1 * p) == num && num < (significand + 1) * (1
            * p)) by (nonlinear_arith)
            requires
                pow2(0) == 1,
                significand * p == num,
                p > 0,
        ;
    }
    let magnitude: u64 = round(significand as u128, exponent as i32, false, Ghost(num), Ghost(1));
    with_sign(negative, magnitude)
}

impl Number {
    /// The number those bits stand for.
    pub fn from_bits(bits: u64) -> (r: Number)
        ensures
            r.bits == bits,
    {
        Number { bits }
    }

    pub fn to_bits(self) -> (bits: u64)
        ensures
            bits == self.bits,
    {
        self.bits
    }

    /// The number nearest to a whole number.
    pub fn from_int(n: i64) -> (r: Number)
        ensures
            r == whole(n as int),
    {
        proof {
            reveal(whole);
        }
        let size: u128 = if n < 0 {
            (-(n as i128)) as u128
        } else {
            n as u128
        };
        let ghost num: nat = (size as nat) * pow2(1074);
        proof {
            lemma_pow2_pos(1074);
            lemma2_to64();
        }
        if size == 0 {
            proof {
                assert(num == 0) by (nonlinear_arith)
                    requires
                        num == (size as nat) * pow2(1074),
                        size == 0,
                ;
                lemma_nearest_zero(1);
            }
            return with_sign(false, 0);
        }
        proof {
            let p = pow2(1074);
            assert(num * pow2(0) == num && size * (1 * p) == num && num < (size + 1) * (1 * p))
                by (nonlinear_arith)
                requires
                    pow2(0) == 1,
                    size * p == num,
                    p > 0,
            ;
        }
        let magnitude: u64 = round(size, 1074, false, Ghost(num), Ghost(1));
        with_sign(n < 0, magnitude)
    }

    /// The number nearest to a count.
    pub fn from_count(n: u64) -> (r: Number)
        ensures
            r == whole(n as int),
    {
        proof {
            reveal(whole);
        }
        scaled(false, n, 1074)
    }

    pub(crate) fn size(self) -> (magnitude: u64)
        ensures
            magnitude == self.magnitude(),
    {
        if self.bits >= SIGN {
            self.bits - SIGN
        } else {
            self.bits
        }
    }

    /// Whether this is neither infinite nor not a number.
    pub fn is_finite(self) -> (r: bool)
        ensures
            r == self.finite(),
    {
        self.size() < INFINITE
    }

    pub fn is_nan(self) -> (r: bool)
        ensures
            r == self.nan(),
    {
        self.size() > INFINITE
    }

    /// Numeric `<`.
    pub fn below(self, other: Number) -> (r: bool)
        ensures
            r == self.less(other),
    {
        let a: u64 = self.size();
        let b: u64 = other.size();
        if a > INFINITE || b > INFINITE {
            false
        } else if self.bits >= SIGN {
            if other.bits >= SIGN {
                b < a
            } else {
                a > 0 || b > 0
            }
        } else if other.bits >= SIGN {
            false
        } else {
            a < b
        }
    }

    /// Numeric `<=`.
    pub fn up_to(self, other: Number) -> (r: bool)
        ensures
            r == self.at_most(other),
    {
        !self.is_nan() && !other.is_nan() && !other.below(self)
    }

    /// Numeric `==`.
    pub fn equals(self, other: Number) -> (r: bool)
        ensures
            r == self.same(other),
    {
        self.up_to(other) && other.up_to(self)
    }

    /// Whether this comes at or before `other` in the total order.
    pub fn ordered(self, other: Number) -> (r: bool)
        ensures
            r == (total_rank(self) <= total_rank(other)),
    {
        let a: u64 = self.size();
        let b: u64 = other.size();
        if self.bits >= SIGN {
            if other.bits >= SIGN {
                b <= a
            } else {
                true
            }
        } else if other.bits >= SIGN {
            false
        } else {
            a <= b
        }
    }

    pub fn max(self, other: Number) -> (r: Number)
        ensures
            r == larger(self, other),
    {
        if self.is_nan() || self.below(other) {
            other
        } else {
            self
        }
    }

    pub fn min(self, other: Number) -> (r: Number)
        ensures
            r == smaller(self, other),
    {
        if self.is_nan() || other.below(self) {
            other
        } else {
            self
        }
    }

    pub fn clamp(self, low: Number, high: Number) -> (r: Number)
        ensures
            r == clamped(self, low, high),
    {
        if self.below(low) {
            low
        } else if high.below(self) {
            high
        } else {
            self
        }
    }

    pub fn negate(self) -> (r: Number)
        ensures
            r == negated(self),
            r.magnitude() == self.magnitude(),
            r.negative() == !self.negative(),
            r.value() == -self.value(),
    {
        if self.bits >= SIGN {
            Number { bits: self.bits - SIGN }
        } else {
            Number { bits: self.bits + SIGN }
        }
    }

    pub fn abs(self) -> (r: Number)
        ensures
            r == absolute(self),
    {
        with_sign(false, self.size())
    }

    /// `self + other`.
    pub fn plus(self, other: Number) -> (r: Number)
        ensures
            r == sum(self, other),
    {
        proof {
            reveal(sum);
        }
        let a: u64 = self.size();
        let b: u64 = other.size();
        let na: bool = self.bits >= SIGN;
        let nb: bool = other.bits >= SIGN;
        if a > INFINITE || b > INFINITE || (a == INFINITE && b == INFINITE && na != nb) {
            return Number { bits: NOT_A_NUMBER };
        }
        if a == INFINITE {
            return self;
        }
        if b == INFINITE {
            return other;
        }
        let swap: bool = a < b;
        let large: u64 = if swap { b } else { a };
        let small: u64 = if swap { a } else { b };
        let negative: bool = if swap { nb } else { na };
        let (ql, tl) = split(large);
        let (qs, ts) = split(small);
        let ghost ul = units(large as nat);
        let ghost us = units(small as nat);
        proof {
            lemma_units_monotonic(large as nat, small as nat);
            lemma_units_monotonic(0, large as nat);
            lemma_units_monotonic(0, small as nat);
            assert(units(0) == 0);
        }
        if na != nb && a == b {
            return Number { bits: 0 };
        }
        if large == 0 {
            return self;
        }
        let ghost num: nat = if na == nb { ul + us } else { (ul - us) as nat };
        assert(num > 0);
        assert(sum(self, other) == rounded(negative, num, 1));
        let gap: u32 = tl - ts;
        if gap > 64 {
            proof {
                lemma2_to64();
                lemma2_to64_rest();
                lemma_pow2_adds(ts as nat, 65);
                if ts + 65 < tl {
                    lemma_pow2_strictly_increases((ts + 65) as nat, tl as nat);
                }
                let p = pow2(ts as nat) as int;
                lemma_pow2_pos(ts as nat);
                lemma_pow2_adds(1, 64);
                assert(4 * us < p * pow2(65)) by (nonlinear_arith)
                    requires
                        us == qs * p,
                        qs < 0x0020_0000_0000_0000,
                        p > 0,
                        pow2(65) == 0x2_0000_0000_0000_0000,
                ;
                lemma_absorbs(large as nat, tl as nat, us, num);
            }
            return with_sign(negative, large);
        }
        let power: u128 = power_of_two(gap);
        proof {
            lemma2_to64();
            if gap < 64 {
                lemma_pow2_strictly_increases(gap as nat, 64);
            }
            lemma_pow2_pos(gap as nat);
            assert(ql * power < 0x0020_0000_0000_0000 * 0x1_0000_0000_0000_0001 && ql * power >= ql)
                by (nonlinear_arith)
                requires
                    ql < 0x0020_0000_0000_0000,
                    0 < power <= 0x1_0000_0000_0000_0000,
            ;
            lemma_pow2_adds(ts as nat, gap as nat);
            let p = pow2(ts as nat) as int;
            lemma_pow2_pos(ts as nat);
            assert(ul == (ql * power) * p) by (nonlinear_arith)
                requires
                    ul == ql * pow2(tl as nat),
                    pow2(tl as nat) == p * power,
            ;
            lemma_cancel(qs as int, (ql * power) as int, p);
            assert((ql * power + qs) * p == ul + us && (ql * power - qs) * p == ul - us)
                by (nonlinear_arith)
                requires
                    ul == (ql * power) * p,
                    us == qs * p,
            ;
        }
        let scaled: u128 = (ql as u128) * power;
        let significand: u128 = if na == nb { scaled + qs as u128 } else { scaled - qs as u128 };
        proof {
            let p = pow2(ts as nat);
            assert(significand * p == num);
            assert(significand > 0) by (nonlinear_arith)
                requires
                    significand * p == num,
                    num > 0,
            ;
            assert(num * pow2(0) == num && significand * (1 * p) == num && num < (significand + 1) * (1
                * p)) by (nonlinear_arith)
                requires
                    pow2(0) == 1,
                    significand * p == num,
                    p > 0,
            ;
        }
        let magnitude: u64 = round(significand, ts as i32, false, Ghost(num), Ghost(1));
        with_sign(negative, magnitude)
    }

    /// `self - other`.
    pub fn minus(self, other: Number) -> (r: Number)
        ensures
            r == difference(self, other),
    {
        self.plus(other.negate())
    }

    /// `self * other`.
    pub fn times(self, other: Number) -> (r: Number)
        ensures
            r == product(self, other),
    {
        proof {
            reveal(product);
        }
        let a: u64 = self.size();
        let b: u64 = other.size();
        let negative: bool = (self.bits >= SIGN) != (other.bits >= SIGN);
        if a > INFINITE || b > INFINITE || (a == INFINITE && b == 0) || (b == INFINITE && a == 0) {
            return Number { bits: NOT_A_NUMBER };
        }
        if a == INFINITE || b == INFINITE {
            return with_sign(negative, INFINITE);
        }
        let ghost num: nat = units(a as nat) * units(b as nat);
        let ghost den: nat = pow2(1074);
        proof {
            lemma_pow2_pos(1074);
        }
        if a == 0 || b == 0 {
            proof {
                assert(units(0) == 0);
                assert(num == 0) by (nonlinear_arith)
                    requires
                        num == units(a as nat) * units(b as nat),
                        units(a as nat) == 0 || units(b as nat) == 0,
                ;
                lemma_nearest_zero(den);
            }
            return with_sign(negative, 0);
        }
        let (qa, ta) = split(a);
        let (qb, tb) = split(b);
        assert(0 < qa * qb < 0x0020_0000_0000_0000 * 0x0020_0000_0000_0000) by (nonlinear_arith)
            requires
                0 < qa < 0x0020_0000_0000_0000,
                0 < qb < 0x0020_0000_0000_0000,
        ;
        let significand: u128 = (qa as u128) * (qb as u128);
        let exponent: i32 = ta as i32 + tb as i32 - 1074;
        proof {
            let up = if exponent > 0 { exponent as nat } else { 0 };
            let down = if exponent < 0 { (-exponent) as nat } else { 0 };
            assert(ta + tb + down == 1074 + up);
            lemma_pow2_adds(ta as nat, tb as nat);
            lemma_pow2_adds((ta + tb) as nat, down);
            lemma_pow2_adds(1074, up);
            let pa = pow2(ta as nat);
            let pb = pow2(tb as nat);
            let pd = pow2(down);
            let pu = pow2(up);
            assert(significand * (den * pu) == num * pd) by (nonlinear_arith)
                requires
                    num == (qa * pa) * (qb * pb),
                    significand == qa * qb,
                    pow2((ta + tb) as nat) == pa * pb,
                    pow2((ta + tb) as nat) * pd == den * pu,
            ;
            lemma_pow2_pos(up);
            assert(den * pu > 0) by (nonlinear_arith)
                requires
                    den > 0,
                    pu > 0,
            ;
            assert((significand + 1) * (den * pu) == significand * (den * pu) + den * pu)
                by (nonlinear_arith);
        }
        let magnitude: u64 = round(significand, exponent, false, Ghost(num), Ghost(den));
        with_sign(negative, magnitude)
    }

    /// `self / other`.
    pub fn over(self, other: Number) -> (r: Number)
        ensures
            r == quotient(self, other),
    {
        proof {
            reveal(quotient);
        }
        let a: u64 = self.size();
        let b: u64 = other.size();
        let negative: bool = (self.bits >= SIGN) != (other.bits >= SIGN);
        if a > INFINITE || b > INFINITE || (a == INFINITE && b == INFINITE) || (a == 0 && b == 0) {
            return Number { bits: NOT_A_NUMBER };
        }
        if a == INFINITE || b == 0 {
            return with_sign(negative, INFINITE);
        }
        if b == INFINITE {
            return with_sign(negative, 0);
        }
        let ghost num: nat = units(a as nat) * pow2(1074);
        let ghost den: nat = units(b as nat);
        proof {
            lemma_units_monotonic(0, b as nat);
            assert(units(0) == 0);
        }
        if a == 0 {
            proof {
                assert(num == 0) by (nonlinear_arith)
                    requires
                        num == units(a as nat) * pow2(1074),
                        units(a as nat) == 0,
                ;
                lemma_nearest_zero(den);
            }
            return with_sign(negative, 0);
        }
        let (qa, ta) = split(a);
        let (qb, tb) = split(b);
        let length: u32 = bit_length(qa as u128);
        proof {
            lemma2_to64();
            lemma2_to64_rest();
            if length > 53 {
                if length > 54 {
                    lemma_pow2_strictly_increases(53, (length - 1) as nat);
                }
                assert(false);
            }
        }
        let lift: u32 = 53 - length + 64;
        let power: u128 = power_of_two(lift);
        proof {
            lemma_pow2_adds(length as nat, lift as nat);
            lemma_pow2_adds((length - 1) as nat, lift as nat);
            lemma_pow2_adds(53, 64);
            lemma_pow2_adds(52, 64);
            lemma_pow2_pos(lift as nat);
            assert(pow2((length - 1) as nat) * power <= qa * power < pow2(length as nat) * power)
                by (nonlinear_arith)
                requires
                    pow2((length - 1) as nat) <= qa < pow2(length as nat),
                    power > 0,
            ;
        }
        let scaled: u128 = (qa as u128) * power;
        let significand: u128 = scaled / (qb as u128);
        let rest: u128 = scaled % (qb as u128);
        let exponent: i32 = ta as i32 - lift as i32 - tb as i32 + 1074;
        proof {
            vstd::arithmetic::div_mod::lemma_fundamental_div_mod(scaled as int, qb as int);
            assert(scaled == significand * qb + rest) by (nonlinear_arith)
                requires
                    scaled == qb * significand + rest,
            ;
            assert(significand >= 0x0100_0000_0000_0000) by (nonlinear_arith)
                requires
                    scaled == significand * qb + rest,
                    rest < qb,
                    qb < 0x0020_0000_0000_0000,
                    scaled >= 0x0010_0000_0000_0000 * 0x1_0000_0000_0000_0000,
            ;
            assert(significand <= scaled) by (nonlinear_arith)
                requires
                    scaled == significand * qb + rest,
                    qb >= 1,
                    rest >= 0,
                    significand >= 0,
            ;
            let up = if exponent > 0 { exponent as nat } else { 0 };
            let down = if exponent < 0 { (-exponent) as nat } else { 0 };
            assert(ta + 1074 + down == tb + up + lift);
            lemma_pow2_adds(ta as nat, 1074);
            lemma_pow2_adds((ta + 1074) as nat, down);
            lemma_pow2_adds(tb as nat, up);
            lemma_pow2_adds((tb + up) as nat, lift as nat);
            let pa = pow2(ta as nat);
            let pb = pow2(tb as nat);
            let pd = pow2(down);
            let pu = pow2(up);
            let p = pow2((tb + up) as nat);
            lemma_pow2_pos((tb + up) as nat);
            let k = pow2(1074);
            assert(num * pd == scaled * p) by (nonlinear_arith)
                requires
                    num == (qa * pa) * k,
                    scaled == qa * power,
                    pow2((ta + 1074) as nat) == pa * k,
                    pow2((ta + 1074) as nat) * pd == p * power,
            ;
            assert(den * pu == qb * p) by (nonlinear_arith)
                requires
                    den == qb * pb,
                    p == pb * pu,
            ;
            assert(significand * (qb * p) == scaled * p - rest * p && (significand + 1) * (qb * p)
                == scaled * p + (qb - rest) * p) by (nonlinear_arith)
                requires
                    scaled == significand * qb + rest,
            ;
            assert(rest * p >= 0 && (rest > 0 ==> rest * p > 0) && (rest == 0 ==> rest * p == 0) && (qb
                - rest) * p > 0) by (nonlinear_arith)
                requires
                    p > 0,
                    0 <= rest < qb,
            ;
        }
        let magnitude: u64 = round(significand, exponent, rest > 0, Ghost(num), Ghost(den));
        with_sign(negative, magnitude)
    }

    /// `self % other`.
    pub fn modulo(self, other: Number) -> (r: Number)
        ensures
            r == remainder(self, other),
    {
        proof {
            reveal(remainder);
        }
        let a: u64 = self.size();
        let b: u64 = other.size();
        let negative: bool = self.bits >= SIGN;
        if a > INFINITE || b > INFINITE || a == INFINITE || b == 0 {
            return Number { bits: NOT_A_NUMBER };
        }
        if b == INFINITE {
            return self;
        }
        let (qa, ta) = split(a);
        let (qb, tb) = split(b);
        let ghost ua = units(a as nat);
        let ghost ub = units(b as nat);
        proof {
            lemma_units_monotonic(a as nat, b as nat);
            lemma_units_monotonic(0, b as nat);
            assert(units(0) == 0);
        }
        if ta < tb {
            proof {
                vstd::arithmetic::div_mod::lemma_small_mod(ua, ub);
                lemma_exact(a as nat);
            }
            return with_sign(negative, a);
        }
        let mut left: u64 = qa % qb;
        let mut done: u32 = tb;
        let ghost mut times: int = (qa / qb) as int;
        proof {
            vstd::arithmetic::div_mod::lemma_fundamental_div_mod(qa as int, qb as int);
            lemma2_to64();
            assert(qa * pow2(0) == times * qb + left) by (nonlinear_arith)
                requires
                    qa == qb * times + left,
                    pow2(0) == 1,
            ;
        }
        while done < ta
            invariant
                tb <= done <= ta,
                left < qb < 2 * FRACTION,
                qa * pow2((done - tb) as nat) == times * qb + left,
            decreases ta - done,
        {
            let twice: u64 = left * 2;
            proof {
                let e = (done - tb) as nat;
                lemma_pow2_unfold(e + 1);
                let q = (twice / qb) as int;
                vstd::arithmetic::div_mod::lemma_fundamental_div_mod(twice as int, qb as int);
                assert(qa * (2 * pow2(e)) == (2 * times + q) * qb + twice % qb) by (nonlinear_arith)
                    requires
                        qa * pow2(e) == times * qb + left,
                        twice == 2 * left,
                        twice == qb * q + twice % qb,
                ;
                times = 2 * times + q;
            }
            left = twice % qb;
            done = done + 1;
        }
        let ghost num: nat = (left as nat) * pow2(tb as nat);
        proof {
            let gap = (ta - tb) as nat;
            let p = pow2(tb as nat);
            lemma_pow2_adds(gap, tb as nat);
            lemma_pow2_pos(tb as nat);
            assert(ua == times * ub + num && 0 <= num < ub) by (nonlinear_arith)
                requires
                    ua == qa * pow2(ta as nat),
                    pow2(ta as nat) == pow2(gap) * p,
                    qa * pow2(gap) == times * qb + left,
                    ub == qb * p,
                    num == left * p,
                    left < qb,
                    p > 0,
            ;
            vstd::arithmetic::div_mod::lemma_fundamental_div_mod_converse(
                ua as int,
                ub as int,
                times,
                num as int,
            );
        }
        if left == 0 {
            proof {
                assert(num == 0) by (nonlinear_arith)
                    requires
                        num == left * pow2(tb as nat),
                        left == 0,
                ;
                lemma_nearest_zero(1);
            }
            return with_sign(negative, 0);
        }
        proof {
            let p = pow2(tb as nat);
            lemma2_to64();
            assert(num * pow2(0) == num && left * (1 * p) == num && num < (left + 1) * (1 * p))
                by (nonlinear_arith)
                requires
                    pow2(0) == 1,
                    left * p == num,
                    p > 0,
            ;
        }
        let magnitude: u64 = round(left as u128, tb as i32, false, Ghost(num), Ghost(1));
        with_sign(negative, magnitude)
    }
}

} // verus!
