//! Binary32 numbers, carried as their bits.
//!
//! A waveform's samples are single precision numbers. They are compared by
//! their bits; arithmetic on them is done in double precision, which holds
//! every single exactly, and rounded back to the nearest single.

use crate::number::{
    difference, num, power_of_two, product, quotient, rounded, split, units, Number, FRACTION,
    INFINITE,
};
use vstd::arithmetic::div_mod::*;
use vstd::arithmetic::power2::*;
use vstd::prelude::*;

verus! {

/// The weight of the lowest exponent bit.
pub const FRACTION32: u32 = 0x0080_0000;

/// The magnitude of infinity.
pub const INFINITE32: u32 = 0x7f80_0000;

/// The weight of the sign bit.
pub const SIGN32: u32 = 0x8000_0000;

/// A quiet not-a-number.
pub const NOT_A_NUMBER32: u32 = 0x7fc0_0000;

/// A binary32 number.
#[derive(Clone, Copy, Debug, PartialEq, Eq, Structural)]
pub struct Single {
    pub bits: u32,
}

/// The single with these bits.
#[verifier::allow_in_spec]
pub fn single(bits: u32) -> Single
    returns
        (Single { bits }),
{
    Single { bits }
}

/// What a magnitude is worth, in units of the smallest positive single.
pub open spec fn units32(magnitude: nat) -> nat {
    if magnitude < FRACTION32 {
        magnitude
    } else {
        ((FRACTION32 + magnitude % (FRACTION32 as nat)) * pow2(
            (magnitude / (FRACTION32 as nat) - 1) as nat,
        )) as nat
    }
}

/// Whether `magnitude` is the one nearest to `num / den` units, the even one of
/// two that are equally near.
pub open spec fn rounds_to32(magnitude: nat, num: nat, den: nat) -> bool {
    &&& magnitude <= INFINITE32
    &&& magnitude > 0 ==> {
        let half = (units32((magnitude - 1) as nat) + units32(magnitude)) * den;
        half < 2 * num || (half == 2 * num && magnitude % 2 == 0)
    }
    &&& magnitude < INFINITE32 ==> {
        let half = (units32(magnitude) + units32(magnitude + 1)) * den;
        2 * num < half || (half == 2 * num && magnitude % 2 == 0)
    }
}

/// The magnitude nearest to `num / den` units.
pub open spec fn nearest32(num: nat, den: nat) -> nat {
    choose|magnitude: nat| rounds_to32(magnitude, num, den)
}

/// The single with this sign and magnitude.
pub open spec fn signed32(negative: bool, magnitude: nat) -> Single {
    Single { bits: (magnitude + if negative { SIGN32 as nat } else { 0 }) as u32 }
}

impl Single {
    pub open spec fn magnitude(self) -> nat {
        (self.bits as nat) % (SIGN32 as nat)
    }

    pub open spec fn negative(self) -> bool {
        self.bits >= SIGN32
    }

    pub open spec fn nan(self) -> bool {
        self.magnitude() > INFINITE32
    }

    /// Where the single stands among the others.
    pub open spec fn rank(self) -> int {
        if self.negative() {
            -(self.magnitude() as int)
        } else {
            self.magnitude() as int
        }
    }

    /// Numeric `<`.
    pub open spec fn less(self, other: Self) -> bool {
        !self.nan() && !other.nan() && self.rank() < other.rank()
    }

    /// Numeric `<=`.
    pub open spec fn at_most(self, other: Self) -> bool {
        !self.nan() && !other.nan() && self.rank() <= other.rank()
    }

    /// The same number in double precision.
    #[verifier::opaque]
    pub open spec fn widened(self) -> Number {
        if self.nan() {
            Number { bits: crate::number::NOT_A_NUMBER }
        } else if self.magnitude() == INFINITE32 {
            crate::number::signed(self.negative(), INFINITE as nat)
        } else {
            rounded(self.negative(), units32(self.magnitude()) * pow2(925), 1)
        }
    }
}

/// The single nearest to a number.
#[verifier::opaque]
pub open spec fn narrowed(x: Number) -> Single {
    if x.nan() {
        Single { bits: NOT_A_NUMBER32 }
    } else if x.infinite() {
        signed32(x.negative(), INFINITE32 as nat)
    } else {
        signed32(x.negative(), nearest32(units(x.magnitude()), pow2(925)))
    }
}

/// The single nearest to a whole number.
pub open spec fn whole32(n: nat) -> Single {
    signed32(false, nearest32(n * pow2(149), 1))
}

/// `a * b` in single precision.
pub open spec fn product32(a: Single, b: Single) -> Single {
    narrowed(product(a.widened(), b.widened()))
}

/// `a / b` in single precision.
pub open spec fn quotient32(a: Single, b: Single) -> Single {
    narrowed(quotient(a.widened(), b.widened()))
}

/// `a - b` in single precision.
pub open spec fn difference32(a: Single, b: Single) -> Single {
    narrowed(difference(a.widened(), b.widened()))
}

/// The smaller of two singles; where one is not a number, the other.
pub open spec fn smaller32(a: Single, b: Single) -> Single {
    if a.nan() || b.less(a) {
        b
    } else {
        a
    }
}

/// The larger of two singles; where one is not a number, the other.
pub open spec fn larger32(a: Single, b: Single) -> Single {
    if a.nan() || a.less(b) {
        b
    } else {
        a
    }
}

// What rounding rests on.

proof fn lemma_units32_step(k: nat)
    ensures
        units32(k) < units32(k + 1),
        k >= FRACTION32 ==> units32(k + 1) == units32(k) + pow2(
            (k / (FRACTION32 as nat) - 1) as nat,
        ),
        k < FRACTION32 ==> units32(k + 1) == k + 1,
{
    let f = FRACTION32 as nat;
    lemma2_to64();
    if k + 1 < f {
    } else if k < f {
        assert(k + 1 == f);
        assert(f % f == 0 && f / f == 1);
        assert((f + 0) * pow2(0) == f) by (nonlinear_arith)
            requires
                pow2(0) == 1,
        ;
    } else {
        let e = k / f;
        let r = k % f;
        let p = pow2((e - 1) as nat);
        lemma_pow2_pos((e - 1) as nat);
        lemma_fundamental_div_mod(k as int, f as int);
        if r + 1 < f {
            lemma_fundamental_div_mod_converse((k + 1) as int, f as int, e as int, (r + 1) as int);
            assert((f + r + 1) * p == (f + r) * p + p) by (nonlinear_arith);
        } else {
            assert(k + 1 == (e + 1) * f + 0) by (nonlinear_arith)
                requires
                    k == f * e + r,
                    r + 1 == f,
            ;
            lemma_fundamental_div_mod_converse((k + 1) as int, f as int, (e + 1) as int, 0);
            lemma_pow2_unfold(e);
            assert((f + 0) * (2 * p) == (f + r) * p + p) by (nonlinear_arith)
                requires
                    r + 1 == f,
            ;
        }
    }
}

proof fn lemma_units32_monotonic(a: nat, b: nat)
    requires
        a < b,
    ensures
        units32(a) < units32(b),
    decreases b,
{
    lemma_units32_step((b - 1) as nat);
    if a < b - 1 {
        lemma_units32_monotonic(a, (b - 1) as nat);
    }
}

proof fn lemma_nearest32_below(a: nat, b: nat, num: nat, den: nat)
    requires
        rounds_to32(a, num, den),
        rounds_to32(b, num, den),
        den > 0,
    ensures
        a >= b,
{
    if a < b {
        let low = units32(a) + units32(a + 1);
        let high = units32((b - 1) as nat) + units32(b);
        if b == a + 1 {
            assert(low == high);
        } else {
            lemma_units32_monotonic(a, (b - 1) as nat);
            lemma_units32_monotonic(a + 1, b);
            assert(low * den < high * den) by (nonlinear_arith)
                requires
                    low < high,
                    den > 0,
            ;
        }
    }
}

/// At most one magnitude is nearest to a ratio.
proof fn lemma_nearest32_is(magnitude: nat, num: nat, den: nat)
    requires
        rounds_to32(magnitude, num, den),
        den > 0,
    ensures
        nearest32(num, den) == magnitude,
{
    let other = nearest32(num, den);
    lemma_nearest32_below(magnitude, other, num, den);
    lemma_nearest32_below(other, magnitude, num, den);
}

/// Doubles that are singles, and how those between two neighbours lie.
proof fn lemma_between(k: nat, r: nat)
    requires
        k >= FRACTION32,
        r < 0x2000_0000,
    ensures
        ({
            let p = pow2((895 + k / (FRACTION32 as nat)) as nat);
            &&& units((896 * FRACTION + k * 0x2000_0000 + r) as nat) == units32(k) * pow2(925) + r
                * p
            &&& units32(k + 1) * pow2(925) == units32(k) * pow2(925) + 0x2000_0000 * p
            &&& p > 0
        }),
{
    let f = FRACTION32 as nat;
    let g = FRACTION as nat;
    let c: nat = 0x2000_0000;
    let e = k / f;
    let s = k % f;
    let m = (896 * g + k * c + r) as nat;
    lemma_fundamental_div_mod(k as int, f as int);
    assert(g == f * c);
    assert(m == (896 + e) * g + (s * c + r) && s * c + r < g) by (nonlinear_arith)
        requires
            m == 896 * g + k * c + r,
            k == f * e + s,
            g == f * c,
            s < f,
            r < c,
    ;
    lemma_fundamental_div_mod_converse(m as int, g as int, (896 + e) as int, (s * c + r) as int);
    assert(m >= g) by (nonlinear_arith)
        requires
            m == (896 + e) * g + (s * c + r),
            g > 0,
    ;
    let p = pow2((895 + e) as nat);
    let q = pow2((e - 1) as nat);
    lemma_pow2_pos((895 + e) as nat);
    lemma_pow2_adds((e - 1) as nat, 896);
    lemma2_to64();
    lemma_pow2_adds(29, 896);
    assert(pow2(29) == c);
    let h = pow2(896);
    // units(m) = (g + s c + r) p
    assert((g + (s * c + r)) * p == ((f + s) * q) * (c * h) + r * p) by (nonlinear_arith)
        requires
            g == f * c,
            p == q * h,
    ;
    lemma_units32_step(k);
    let u = units32(k);
    assert((u + q) * (c * h) == u * (c * h) + c * p) by (nonlinear_arith)
        requires
            p == q * h,
    ;
}

/// Rounds a normal single's worth of double.
proof fn lemma_narrow_normal(k: nat, r: nat, up: bool)
    requires
        FRACTION32 <= k < INFINITE32,
        r < 0x2000_0000,
        up == (r > 0x1000_0000 || (r == 0x1000_0000 && k % 2 == 1)),
    ensures
        nearest32(units((896 * FRACTION + k * 0x2000_0000 + r) as nat), pow2(925)) == k + (if up {
            1nat
        } else {
            0nat
        }),
{
    let num = units((896 * FRACTION + k * 0x2000_0000 + r) as nat);
    let den = pow2(925);
    lemma_pow2_pos(925);
    lemma_between(k, r);
    lemma_units32_step(k);
    lemma_units32_step((k - 1) as nat);
    lemma_units32_step(k + 1);
    let p = pow2((895 + k / (FRACTION32 as nat)) as nat);
    let before = units32((k - 1) as nat);
    let u = units32(k);
    let after = units32(k + 1);
    let next = units32(k + 2);
    assert((before + u) * den < 2 * (u * den)) by (nonlinear_arith)
        requires
            before < u,
            den > 0,
    ;
    assert((u + after) * den == 2 * (u * den) + 0x2000_0000 * p) by (nonlinear_arith)
        requires
            after * den == u * den + 0x2000_0000 * p,
    ;
    assert(r < 0x1000_0000 ==> 2 * (r * p) < 0x2000_0000 * p) by (nonlinear_arith)
        requires
            p > 0,
    ;
    assert(r > 0x1000_0000 ==> 2 * (r * p) > 0x2000_0000 * p) by (nonlinear_arith)
        requires
            p > 0,
    ;
    assert(r == 0x1000_0000 ==> 2 * (r * p) == 0x2000_0000 * p) by (nonlinear_arith);
    assert(r * p >= 0) by (nonlinear_arith)
        requires
            p > 0,
            r >= 0,
    ;
    assert(r * p < 0x2000_0000 * p) by (nonlinear_arith)
        requires
            p > 0,
            r < 0x2000_0000,
    ;
    assert((after + next) * den > 2 * (after * den)) by (nonlinear_arith)
        requires
            next > after,
            den > 0,
    ;
    if up {
        lemma_nearest32_is(k + 1, num, den);
    } else {
        lemma_nearest32_is(k, num, den);
    }
}

/// Everything past the largest single's half step is infinite.
proof fn lemma_narrow_infinite(k: nat, r: nat)
    requires
        k >= INFINITE32,
        r < 0x2000_0000,
    ensures
        nearest32(units((896 * FRACTION + k * 0x2000_0000 + r) as nat), pow2(925)) == INFINITE32,
{
    let num = units((896 * FRACTION + k * 0x2000_0000 + r) as nat);
    let den = pow2(925);
    let top = INFINITE32 as nat;
    lemma_pow2_pos(925);
    lemma_between(k, r);
    if k > top {
        lemma_units32_monotonic(top, k);
    }
    lemma_units32_step((top - 1) as nat);
    let p = pow2((895 + k / (FRACTION32 as nat)) as nat);
    assert(r * p >= 0) by (nonlinear_arith)
        requires
            p > 0,
            r >= 0,
    ;
    let before = units32((top - 1) as nat);
    let u = units32(top);
    let v = units32(k);
    assert((before + u) * den < 2 * (v * den)) by (nonlinear_arith)
        requires
            before < u,
            u <= v,
            den > 0,
    ;
    lemma_nearest32_is(top, num, den);
}

/// Rounds what is below the normal singles.
proof fn lemma_narrow_small(num: nat, den: nat, floor: nat, rest: nat, up: bool)
    requires
        den > 0,
        num == floor * den + rest,
        rest < den,
        floor < FRACTION32,
        up == (2 * rest > den || (2 * rest == den && floor % 2 == 1)),
    ensures
        nearest32(num, den) == floor + (if up {
            1nat
        } else {
            0nat
        }),
{
    lemma_units32_step(floor);
    lemma_units32_step(floor + 1);
    if floor > 0 {
        lemma_units32_step((floor - 1) as nat);
        assert((floor - 1 + floor) * den == 2 * (floor * den) - den) by (nonlinear_arith);
    }
    let next = units32(floor + 2);
    assert((floor + (floor + 1)) * den == 2 * (floor * den) + den) by (nonlinear_arith);
    assert((floor + 1 + next) * den > 2 * (floor * den) + 2 * den) by (nonlinear_arith)
        requires
            next > floor + 1,
            den > 0,
    ;
    if up {
        lemma_nearest32_is(floor + 1, num, den);
    } else {
        lemma_nearest32_is(floor, num, den);
    }
}

/// Rounds a whole number whose significand begins `t` places up.
proof fn lemma_whole_rounds(n: nat, q: nat, r: nat, t: nat, up: bool)
    requires
        FRACTION32 <= q < 2 * FRACTION32,
        t <= 70,
        n * 0x100_0000 == q * pow2(t) + r,
        r < pow2(t),
        up == (2 * r > pow2(t) || (2 * r == pow2(t) && q % 2 == 1)),
    ensures
        nearest32(n * pow2(149), 1) == (t + 125) * FRACTION32 + q + (if up {
            1nat
        } else {
            0nat
        }),
{
    let f = FRACTION32 as nat;
    let k = ((t + 125) * f + q) as nat;
    let num = n * pow2(149);
    let p = pow2(125);
    let w = pow2(t);
    assert(k == (t + 126) * f + (q - f)) by (nonlinear_arith)
        requires
            k == (t + 125) * f + q,
    ;
    lemma_fundamental_div_mod_converse(k as int, f as int, (t + 126) as int, (q - f) as int);
    lemma_pow2_pos(125);
    lemma_pow2_adds(t, 125);
    lemma_pow2_adds(24, 125);
    lemma2_to64();
    assert(num == (q * w + r) * p) by (nonlinear_arith)
        requires
            num == n * (0x100_0000 * p),
            n * 0x100_0000 == q * w + r,
    ;
    lemma_units32_step(k);
    lemma_units32_step((k - 1) as nat);
    lemma_units32_step(k + 1);
    assert(units32(k) == q * (w * p));
    assert(units32(k + 1) == q * (w * p) + w * p);
    assert((q * w + r) * p == q * (w * p) + r * p) by (nonlinear_arith);
    assert(r * p < w * p) by (nonlinear_arith)
        requires
            r < w,
            p > 0,
    ;
    assert(2 * (r * p) > w * p <==> 2 * r > w) by (nonlinear_arith)
        requires
            p > 0,
    ;
    assert(2 * (r * p) == w * p <==> 2 * r == w) by (nonlinear_arith)
        requires
            p > 0,
    ;
    assert(k % 2 == q % 2) by {
        assert(f == 2 * 0x40_0000);
        assert((t + 125) * f == 2 * ((t + 125) * 0x40_0000)) by (nonlinear_arith)
            requires
                f == 2 * 0x40_0000,
        ;
    }
    if up {
        lemma_nearest32_is(k + 1, num, 1);
    } else {
        lemma_nearest32_is(k, num, 1);
    }
}

fn with_sign32(negative: bool, magnitude: u32) -> (r: Single)
    requires
        magnitude < SIGN32,
    ensures
        r == signed32(negative, magnitude as nat),
{
    Single { bits: if negative { magnitude + SIGN32 } else { magnitude } }
}

impl Number {
    /// The nearest single.
    pub fn narrow(self) -> (r: Single)
        ensures
            r == narrowed(self),
    {
        proof {
            reveal(narrowed);
        }
        let m: u64 = self.size();
        let negative: bool = self.bits >= 0x8000_0000_0000_0000;
        if m > INFINITE {
            return Single { bits: NOT_A_NUMBER32 };
        }
        if m == INFINITE {
            return with_sign32(negative, INFINITE32);
        }
        if m >= 897 * FRACTION {
            let above: u64 = m - 896 * FRACTION;
            let k: u64 = above / 0x2000_0000;
            let r: u64 = above % 0x2000_0000;
            proof {
                assert(m == 896 * FRACTION + k * 0x2000_0000 + r);
            }
            if k >= INFINITE32 as u64 {
                proof {
                    lemma_narrow_infinite(k as nat, r as nat);
                }
                return with_sign32(negative, INFINITE32);
            }
            let up: bool = r > 0x1000_0000 || (r == 0x1000_0000 && k % 2 == 1);
            proof {
                lemma_narrow_normal(k as nat, r as nat, up);
            }
            let rounded: u64 = if up {
                k + 1
            } else {
                k
            };
            return with_sign32(negative, rounded as u32);
        }
        let (q, t) = split(m);
        let s: u32 = 925 - t;
        let ghost num = units(m as nat);
        let ghost den = pow2(925);
        proof {
            lemma_pow2_pos(925);
            lemma_pow2_adds(t as nat, s as nat);
            lemma_pow2_pos(t as nat);
            lemma_pow2_pos(s as nat);
            lemma2_to64();
            lemma2_to64_rest();
        }
        if s >= 100 {
            proof {
                lemma_pow2_adds(64, 36);
                if s > 100 {
                    lemma_pow2_strictly_increases(100, s as nat);
                }
                let p = pow2(t as nat);
                let d = pow2(s as nat);
                assert(2 * (q * p) < p * d) by (nonlinear_arith)
                    requires
                        2 * q < d,
                        p > 0,
                ;
                assert(0 * den + num == num) by (nonlinear_arith);
                lemma_narrow_small(num, den, 0, num, false);
            }
            return with_sign32(negative, 0);
        }
        let d: u128 = power_of_two(s);
        let floor: u128 = (q as u128) / d;
        let rest: u128 = (q as u128) % d;
        proof {
            if s < 100 {
                lemma_pow2_strictly_increases(s as nat, 100);
            }
            lemma_pow2_adds(64, 36);
            if s > 30 {
                lemma_pow2_strictly_increases(30, s as nat);
            }
            lemma_fundamental_div_mod(q as int, d as int);
            lemma_mod_bound(q as int, d as int);
            assert(floor < 0x80_0000) by (nonlinear_arith)
                requires
                    q == d * floor + rest,
                    q < 0x20_0000_0000_0000,
                    d >= 0x4000_0000,
                    rest >= 0,
            ;
        }
        let up: bool = 2 * rest > d || (2 * rest == d && floor % 2 == 1);
        proof {
            let p = pow2(t as nat) as int;
            assert(q * p == floor * (p * d) + rest * p) by (nonlinear_arith)
                requires
                    q == d * floor + rest,
            ;
            assert(rest * p < p * d) by (nonlinear_arith)
                requires
                    rest < d,
                    p > 0,
            ;
            assert(2 * (rest * p) > p * d <==> 2 * rest > d) by (nonlinear_arith)
                requires
                    p > 0,
            ;
            assert(2 * (rest * p) == p * d <==> 2 * rest == d) by (nonlinear_arith)
                requires
                    p > 0,
            ;
            lemma_narrow_small(num, den, floor as nat, (rest * p) as nat, up);
        }
        let rounded: u128 = if up {
            floor + 1
        } else {
            floor
        };
        with_sign32(negative, rounded as u32)
    }
}

impl Single {
    /// The single nearest to a whole number.
    pub fn from_count(n: u64) -> (r: Single)
        ensures
            r == whole32(n as nat),
    {
        if n == 0 {
            proof {
                assert(0 * pow2(149) == 0) by (nonlinear_arith);
                lemma_narrow_small(0, 1, 0, 0, false);
            }
            return Single { bits: 0 };
        }
        let x: u128 = (n as u128) * 0x100_0000;
        let mut q: u128 = x;
        let mut t: u32 = 0;
        let mut weight: u128 = 1;
        let mut r: u128 = 0;
        proof {
            lemma2_to64();
        }
        while q >= 2 * (FRACTION32 as u128)
            invariant
                q >= FRACTION32,
                weight == pow2(t as nat),
                x == q * weight + r,
                r < weight,
                x < 0x1_0000_0000_0000_0000 * 0x100_0000,
                t <= 70,
                weight <= x,
            decreases q,
        {
            let odd: u128 = q % 2;
            proof {
                assert(q == 2 * (q / 2) + odd);
                assert(q * weight == (q / 2) * (2 * weight) + odd * weight) by (nonlinear_arith)
                    requires
                        q == 2 * (q / 2) + odd,
                ;
                lemma_pow2_unfold((t + 1) as nat);
                assert(odd * weight <= weight) by (nonlinear_arith)
                    requires
                        odd <= 1,
                        weight >= 0,
                ;
                assert(2 * weight <= x) by (nonlinear_arith)
                    requires
                        x == q * weight + r,
                        q >= 2,
                        weight >= 0,
                        r >= 0,
                ;
                assert(0x100_0000 * weight <= x) by (nonlinear_arith)
                    requires
                        x == q * weight + r,
                        q >= 0x100_0000,
                        weight >= 0,
                        r >= 0,
                ;
                assert(t < 70) by {
                    if t >= 70 {
                        lemma2_to64_rest();
                        if t > 64 {
                            lemma_pow2_strictly_increases(64, t as nat);
                        }
                    }
                }
                assert(odd == 0 || odd == 1);
                assert(odd == 0 ==> odd * weight == 0) by (nonlinear_arith);
                assert(odd == 1 ==> odd * weight == weight) by (nonlinear_arith);
            }
            if odd == 1 {
                r = r + weight;
            }
            q = q / 2;
            weight = 2 * weight;
            t = t + 1;
        }
        let up: bool = 2 * r > weight || (2 * r == weight && q % 2 == 1);
        proof {
            lemma_whole_rounds(n as nat, q as nat, r as nat, t as nat, up);
        }
        let floor: u32 = (t + 125) * FRACTION32 + q as u32;
        Single {
            bits: if up {
                floor + 1
            } else {
                floor
            },
        }
    }

    fn size(self) -> (magnitude: u32)
        ensures
            magnitude == self.magnitude(),
    {
        if self.bits >= SIGN32 {
            self.bits - SIGN32
        } else {
            self.bits
        }
    }

    pub fn is_nan(self) -> (r: bool)
        ensures
            r == self.nan(),
    {
        self.size() > INFINITE32
    }

    fn place(self) -> (r: i64)
        ensures
            r == self.rank(),
    {
        if self.bits >= SIGN32 {
            -(self.size() as i64)
        } else {
            self.size() as i64
        }
    }

    /// Numeric `<`.
    pub fn below(self, other: Single) -> (r: bool)
        ensures
            r == self.less(other),
    {
        !self.is_nan() && !other.is_nan() && self.place() < other.place()
    }

    /// Numeric `<=`.
    pub fn up_to(self, other: Single) -> (r: bool)
        ensures
            r == self.at_most(other),
    {
        !self.is_nan() && !other.is_nan() && self.place() <= other.place()
    }

    pub fn min(self, other: Single) -> (r: Single)
        ensures
            r == smaller32(self, other),
    {
        if self.is_nan() || other.below(self) {
            other
        } else {
            self
        }
    }

    pub fn max(self, other: Single) -> (r: Single)
        ensures
            r == larger32(self, other),
    {
        if self.is_nan() || self.below(other) {
            other
        } else {
            self
        }
    }

    /// The same number in double precision.
    pub fn widen(self) -> (r: Number)
        ensures
            r == self.widened(),
    {
        proof {
            reveal(Single::widened);
        }
        let m: u32 = self.size();
        let negative: bool = self.bits >= SIGN32;
        if m > INFINITE32 {
            return num(crate::number::NOT_A_NUMBER);
        }
        if m == INFINITE32 {
            return num(if negative { INFINITE + 0x8000_0000_0000_0000 } else { INFINITE });
        }
        let (q, t): (u32, u32) = if m < FRACTION32 {
            (m, 0)
        } else {
            (m % FRACTION32 + FRACTION32, m / FRACTION32 - 1)
        };
        proof {
            lemma2_to64();
            assert(m * pow2(0) == m) by (nonlinear_arith)
                requires
                    pow2(0) == 1,
            ;
            lemma_pow2_adds(t as nat, 925);
            let p = pow2(t as nat);
            assert((q * p) * pow2(925) == q * (p * pow2(925))) by (nonlinear_arith);
        }
        crate::number::scaled(negative, q as u64, t + 925)
    }

    /// `self * other`.
    pub fn times(self, other: Single) -> (r: Single)
        ensures
            r == product32(self, other),
    {
        self.widen().times(other.widen()).narrow()
    }

    /// `self / other`.
    pub fn over(self, other: Single) -> (r: Single)
        ensures
            r == quotient32(self, other),
    {
        self.widen().over(other.widen()).narrow()
    }

    /// `self - other`.
    pub fn minus(self, other: Single) -> (r: Single)
        ensures
            r == difference32(self, other),
    {
        self.widen().minus(other.widen()).narrow()
    }
}

} // verus!
