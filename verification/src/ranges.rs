//! The ranges a clip's numbers are held in. One set, used by every command
//! that sets a value and by [`crate::model::clip::Clip::tidy`], so a file and
//! an edit can never disagree about what is in range. Each constant is the
//! bits of the number its comment gives.

use crate::number::{
    difference, lemma_known_by_value, lemma_nearest_at_most, lemma_units_double,
    lemma_units_monotonic, lemma_whole_exact, nearest, negated, num, remainder, sum, units, whole,
    Number, FRACTION, ZERO,
};
use vstd::arithmetic::div_mod::*;
use vstd::arithmetic::power2::*;
use vstd::prelude::*;

verus! {

/// The shortest a clip can be: one frame at sixty, 1/60.
pub const MIN_CLIP_DURATION: u64 = 0x3f91_1111_1111_1111;

/// The slowest a clip plays: 0.0625.
pub const MIN_SPEED: u64 = 0x3fb0_0000_0000_0000;

/// The fastest a clip plays: 16.
pub const MAX_SPEED: u64 = 0x4030_0000_0000_0000;

/// The smallest a picture can be scaled to: 0.05.
pub const MIN_SCALE: u64 = 0x3fa9_9999_9999_999a;

/// The largest a picture can be scaled to: 8.
pub const MAX_SCALE: u64 = 0x4020_0000_0000_0000;

/// The least a picture may be pulled along one axis: 0.1.
pub const MIN_STRETCH: u64 = 0x3fb9_9999_9999_999a;

/// The most a picture may be stretched along one axis: 10.
pub const MAX_STRETCH: u64 = 0x4024_0000_0000_0000;

/// How far off centre a picture may be moved, in frame widths: 3.
pub const MAX_OFFSET: u64 = 0x4008_0000_0000_0000;

/// The same the other way: -3.
pub const MIN_OFFSET: u64 = 0xc008_0000_0000_0000;

/// A transition can be no shorter than this, in seconds: 0.1.
pub const MIN_TRANSITION: u64 = 0x3fb9_9999_9999_999a;

/// The edge softness a cutout starts with: 0.01.
pub const DEFAULT_FEATHER: u64 = 0x3f84_7ae1_47ae_147b;

/// The widest an edge may be softened: 0.1.
pub const MAX_FEATHER: u64 = 0x3fb9_9999_9999_999a;

/// The narrowest brush, as a fraction of the picture's width: 0.005.
pub const MIN_BRUSH: u64 = 0x3f74_7ae1_47ae_147b;

/// The widest brush: 0.5.
pub const MAX_BRUSH: u64 = 0x3fe0_0000_0000_0000;

/// How far before the picture a stroke may go: -0.5.
pub const MIN_STROKE: u64 = 0xbfe0_0000_0000_0000;

/// How far past the picture a stroke may go: 1.5.
pub const MAX_STROKE: u64 = 0x3ff8_0000_0000_0000;

/// The most a crop takes off an edge, or off two edges together: 0.9.
pub const MAX_CROP: u64 = 0x3fec_cccc_cccc_cccd;

/// How near two keys on one property have to be to count as the same key: 0.002 of a clip.
pub const KEY_EPSILON: u64 = 0x3f60_624d_d2f1_a9fc;

/// How near an ease has to be to a preset to be called it: 0.005.
pub const EASE_EPSILON: u64 = 0x3f74_7ae1_47ae_147b;

/// How far apart two clips may sit and still count as touching, in seconds: 0.000001.
pub const JOIN_EPSILON: u64 = 0x3eb0_c6f7_a0b5_ed8d;

/// A full turn: 360.
pub const TURN: u64 = 0x4076_8000_0000_0000;

/// Half a turn: 180.
pub const HALF_TURN: u64 = 0x4066_8000_0000_0000;

/// Half a turn the other way: -180.
pub const MINUS_HALF_TURN: u64 = 0xc066_8000_0000_0000;

/// A turn and a half: 540.
pub const TURN_AND_A_HALF: u64 = 0x4080_e000_0000_0000;

/// A rotation brought into half a turn either way of upright.
pub open spec fn wrapped(degrees: Number) -> Number {
    let folded = difference(
        remainder(sum(remainder(degrees, num(TURN)), num(TURN_AND_A_HALF)), num(TURN)),
        num(HALF_TURN),
    );
    if folded.same(num(MINUS_HALF_TURN)) {
        num(HALF_TURN)
    } else {
        folded
    }
}

/// A wrapped rotation lies in (-180, 180].
pub proof fn lemma_wrapped_in_range(degrees: Number)
    requires
        degrees.finite(),
    ensures
        num(MINUS_HALF_TURN).less(wrapped(degrees)),
        wrapped(degrees).at_most(num(HALF_TURN)),
{
    reveal(remainder);
    reveal(sum);
    let turn = units(TURN as nat);
    let half = units(HALF_TURN as nat);
    let most = units(TURN_AND_A_HALF as nat);
    lemma_units_monotonic(0, TURN as nat);
    lemma_units_monotonic(TURN as nat, TURN_AND_A_HALF as nat);
    lemma_units_double(TURN_AND_A_HALF as nat);
    lemma_units_double(HALF_TURN as nat);
    assert(turn == 2 * half);
    let first = remainder(degrees, num(TURN));
    lemma_nearest_at_most(units(degrees.magnitude()) % turn, TURN as nat);
    lemma_units_monotonic(first.magnitude(), TURN as nat);
    let second = sum(first, num(TURN_AND_A_HALF));
    assert(first.value() + num(TURN_AND_A_HALF).value() > 0);
    lemma_nearest_at_most(
        (first.value() + most) as nat,
        TURN_AND_A_HALF as nat + FRACTION as nat,
    );
    assert(second.finite() && !second.negative());
    let third = remainder(second, num(TURN));
    lemma_nearest_at_most(units(second.magnitude()) % turn, TURN as nat);
    lemma_units_monotonic(third.magnitude(), TURN as nat);
    assert(third.finite() && !third.negative());
    let by = third.value() - half;
    assert(negated(num(HALF_TURN)).value() == -half);
    if by < 0 {
        lemma_nearest_at_most((-by) as nat, HALF_TURN as nat);
    } else {
        lemma_nearest_at_most(by as nat, HALF_TURN as nat);
    }
}

/// Whether a rotation is a whole number of degrees.
pub open spec fn whole_degrees(degrees: Number) -> bool {
    degrees.finite() && degrees.value() % (pow2(1074) as int) == 0
}

/// Whole degrees brought into half a turn either way of upright.
spec fn turned(degrees: int) -> int {
    let rest = if degrees < 0 {
        -((-degrees) % 360)
    } else {
        degrees % 360
    };
    let folded = (rest + 540) % 360 - 180;
    if folded == -180 {
        180
    } else {
        folded
    }
}

proof fn lemma_worth_of_turns()
    ensures
        units(TURN as nat) == 360 * pow2(1074),
        units(HALF_TURN as nat) == 180 * pow2(1074),
        units(TURN_AND_A_HALF as nat) == 540 * pow2(1074),
{
    lemma2_to64();
    lemma2_to64_rest();
    lemma_pow2_adds(44, 1030);
    lemma_pow2_adds(45, 1029);
    lemma_pow2_adds(43, 1031);
    let a = pow2(1030);
    let b = pow2(1029);
    let c = pow2(1031);
    assert(0x10_e000_0000_0000 * c == 540 * (0x800_0000_0000 * c)) by (nonlinear_arith);
    assert(units(TURN_AND_A_HALF as nat) == 0x10_e000_0000_0000 * c);
    assert(0x16_8000_0000_0000 * a == 360 * (0x1000_0000_0000 * a)) by (nonlinear_arith);
    assert(0x16_8000_0000_0000 * b == 180 * (0x2000_0000_0000 * b)) by (nonlinear_arith);
    assert(units(TURN as nat) == 0x16_8000_0000_0000 * a);
    assert(units(HALF_TURN as nat) == 0x16_8000_0000_0000 * b);
}

/// The number of so many whole degrees.
proof fn lemma_whole_number(n: int)
    requires
        -0x400 <= n <= 0x400,
    ensures
        whole(n).finite(),
        whole(n).value() == n * pow2(1074),
        whole(n).negative() == (n < 0),
{
    reveal(whole);
    lemma_pow2_pos(1074);
    if n < 0 {
        lemma_whole_exact((-n) as nat);
        assert(((-n) as nat) * pow2(1074) == -(n * pow2(1074))) by (nonlinear_arith)
            requires
                n < 0,
        ;
    } else {
        lemma_whole_exact(n as nat);
    }
}

/// What a number of whole degrees leaves over whole turns.
proof fn lemma_whole_remainder(x: Number, n: int)
    requires
        x.finite(),
        x.value() == n * pow2(1074),
    ensures
        ({
            let left = remainder(x, num(TURN));
            let rest = if n < 0 {
                -((-n) % 360)
            } else {
                n % 360
            };
            &&& left.finite()
            &&& left.value() == rest * pow2(1074)
            &&& left.negative() == x.negative()
        }),
{
    reveal(remainder);
    lemma_worth_of_turns();
    let p = pow2(1074) as int;
    lemma_pow2_pos(1074);
    let size = if n < 0 {
        -n
    } else {
        n
    };
    let m = units(x.magnitude()) as int;
    lemma_units_monotonic(0, x.magnitude());
    assert(m == size * p) by (nonlinear_arith)
        requires
            n < 0 ==> size == -n,
            n >= 0 ==> size == n,
            m == n * p || m == -(n * p),
            m >= 0,
            p > 0,
    ;
    let over = size / 360;
    let rest = size % 360;
    lemma_fundamental_div_mod(size, 360);
    assert(m == (360 * p) * over + rest * p) by (nonlinear_arith)
        requires
            m == size * p,
            size == 360 * over + rest,
    ;
    assert(0 <= rest * p < 360 * p) by (nonlinear_arith)
        requires
            0 <= rest < 360,
            p > 0,
    ;
    assert((360 * p) * over == over * (360 * p)) by (nonlinear_arith);
    lemma_fundamental_div_mod_converse(m, 360 * p, over, rest * p);
    lemma_whole_exact(rest as nat);
    assert((-rest) * p == -(rest * p)) by (nonlinear_arith);
    assert(x.negative() && x.value() != 0 ==> n < 0) by (nonlinear_arith)
        requires
            x.negative() ==> x.value() == -m,
            m >= 0,
            x.value() == n * p,
            p > 0,
    ;
    assert(!x.negative() ==> n >= 0) by (nonlinear_arith)
        requires
            !x.negative() ==> x.value() == m,
            m >= 0,
            x.value() == n * p,
            p > 0,
    ;
    if x.value() == 0 {
        assert(n == 0) by (nonlinear_arith)
            requires
                n * p == 0,
                p > 0,
        ;
    }
}

/// Adding whole degrees.
proof fn lemma_whole_sum(a: Number, i: int, b: Number, j: int)
    requires
        a.finite(),
        b.finite(),
        a.value() == i * pow2(1074),
        b.value() == j * pow2(1074),
        -0x400 <= i + j <= 0x400,
        !a.negative() || !b.negative(),
    ensures
        sum(a, b) == whole(i + j),
{
    reveal(sum);
    reveal(whole);
    let p = pow2(1074) as int;
    lemma_pow2_pos(1074);
    lemma_whole_number(i + j);
    assert(i * p + j * p == (i + j) * p) by (nonlinear_arith);
    let n = i + j;
    if n < 0 {
        assert(n * p < 0) by (nonlinear_arith)
            requires
                n < 0,
                p > 0,
        ;
        assert((-n) * p == -(n * p)) by (nonlinear_arith);
    } else if n > 0 {
        assert(n * p > 0) by (nonlinear_arith)
            requires
                n > 0,
                p > 0,
        ;
    } else {
        assert(n * p == 0) by (nonlinear_arith)
            requires
                n == 0,
        ;
        lemma_whole_exact(0);
        lemma_units_monotonic(0, nearest(0, 1));
    }
}

proof fn lemma_wrapped_whole(degrees: Number, n: int)
    requires
        degrees.finite(),
        degrees.value() == n * pow2(1074),
    ensures
        wrapped(degrees) == whole(turned(n)),
{
    lemma_worth_of_turns();
    let p = pow2(1074) as int;
    lemma_pow2_pos(1074);
    let rest = if n < 0 {
        -((-n) % 360)
    } else {
        n % 360
    };
    let first = remainder(degrees, num(TURN));
    lemma_whole_remainder(degrees, n);
    lemma_whole_sum(first, rest, num(TURN_AND_A_HALF), 540);
    let second = whole(rest + 540);
    lemma_whole_number(rest + 540);
    let third = remainder(second, num(TURN));
    lemma_whole_remainder(second, rest + 540);
    let over = (rest + 540) % 360;
    assert(negated(num(HALF_TURN)).value() == -180 * p);
    lemma_whole_sum(third, over, negated(num(HALF_TURN)), -180);
    lemma_whole_number(over - 180);
    lemma_whole_number(180);
    assert(num(HALF_TURN) == whole(180)) by {
        lemma_known_by_value(num(HALF_TURN), whole(180));
    }
    let folded = whole(over - 180);
    if over - 180 == -180 {
        lemma_known_by_value(folded, num(MINUS_HALF_TURN));
    } else {
        assert((over - 180) * p > -180 * p) by (nonlinear_arith)
            requires
                over - 180 > -180,
                p > 0,
        ;
        if folded.same(num(MINUS_HALF_TURN)) {
            assert(folded.value() == num(MINUS_HALF_TURN).value());
            assert(false);
        }
    }
}

/// A whole number of degrees, once wrapped, wraps to itself.
pub proof fn lemma_wrapping_settles(degrees: Number)
    requires
        whole_degrees(degrees),
    ensures
        wrapped(wrapped(degrees)) == wrapped(degrees),
{
    let p = pow2(1074) as int;
    lemma_pow2_pos(1074);
    let n = degrees.value() / p;
    lemma_fundamental_div_mod(degrees.value(), p);
    assert(degrees.value() == n * p) by (nonlinear_arith)
        requires
            degrees.value() == p * n + 0,
    ;
    lemma_wrapped_whole(degrees, n);
    let once = turned(n);
    lemma_whole_number(once);
    lemma_wrapped_whole(whole(once), once);
    assert(turned(once) == once);
}

/// A rotation kept in (-180, 180] so a full drag never accumulates turns.
pub fn wrap_rotation(degrees: Number) -> (r: Number)
    ensures
        r == wrapped(degrees),
{
    let folded: Number = degrees.modulo(num(TURN)).plus(num(TURN_AND_A_HALF)).modulo(
        num(TURN),
    ).minus(num(HALF_TURN));
    if folded.equals(num(MINUS_HALF_TURN)) {
        num(HALF_TURN)
    } else {
        folded
    }
}

/// `value` where it is finite, else `fallback`.
pub open spec fn finite_or(value: Number, fallback: Number) -> Number {
    if value.finite() {
        value
    } else {
        fallback
    }
}

/// A value that has to be a number, with what stands in where it is not.
pub fn finite(value: Number, fallback: Number) -> (r: Number)
    ensures
        r == finite_or(value, fallback),
{
    if value.is_finite() {
        value
    } else {
        fallback
    }
}

/// Whether `low <= value <= high`.
pub open spec fn between(value: Number, low: Number, high: Number) -> bool {
    low.at_most(value) && value.at_most(high)
}

/// Whether a position lies in the clip: `0..=1`.
pub open spec fn in_clip(at: Number) -> bool {
    between(at, num(ZERO), num(crate::number::ONE))
}

/// Whether a position lies in the clip.
pub fn is_in_clip(at: Number) -> (r: bool)
    ensures
        r == in_clip(at),
{
    num(ZERO).up_to(at) && at.up_to(num(crate::number::ONE))
}

} // verus!
