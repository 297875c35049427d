//! What the constants of the library are worth.

use crate::audio::graph::THOUSAND;
use crate::audio::mixing::MILLION;
use crate::commands::clips::{
    DEFAULT_IMAGE_DURATION, DEFAULT_LAYER_DURATION, DEFAULT_TEXT_DURATION, UNKNOWN_DURATION,
};
use crate::commands::cuts::DEFAULT_FREEZE_DURATION;
use crate::measure::{apart_by, lemma_counted};
use crate::model::exact::exact;
use crate::model::style::{
    FONT_SIZE, FONT_WEIGHT, LINE_HEIGHT, MAX_FONT_WEIGHT, MIN_FONT_SIZE, MIN_FONT_WEIGHT,
    MIN_LINE_HEIGHT,
};
use crate::number::{lemma_units_of, num, FRACTION, INFINITE};
use crate::ranges::{
    DEFAULT_FEATHER, EASE_EPSILON, HALF_TURN, KEY_EPSILON, MAX_BRUSH, MAX_CROP, MAX_FEATHER,
    MAX_OFFSET, MAX_SCALE, MAX_SPEED, MAX_STRETCH, MAX_STROKE, MIN_BRUSH, MIN_CLIP_DURATION,
    MIN_SCALE, MIN_SPEED, MIN_STRETCH, MIN_TRANSITION, TURN, TURN_AND_A_HALF,
};
use vstd::arithmetic::power2::*;
use vstd::prelude::*;

verus! {

/// A part in a million million: far more than what rounding takes of a constant.
pub open spec fn pico() -> real {
    1 as real / 1000000000000 as real
}

/// What a positive number is worth by its bits.
proof fn lemma_bits(bits: u64, t: nat, q: nat, scale: nat)
    requires
        bits == t * (FRACTION as nat) + q,
        FRACTION <= q < 2 * FRACTION,
        t <= 1074,
        bits < INFINITE,
        scale == pow2((1074 - t) as nat),
    ensures
        num(bits).finite(),
        exact(num(bits)) * (scale as real) == q as real,
{
    lemma_units_of(t, q);
    lemma_pow2_adds(t, (1074 - t) as nat);
    lemma_pow2_pos(t);
    lemma_counted(num(bits));
    let e = exact(num(bits));
    let a = pow2(t) as real;
    let s = scale as real;
    let p = pow2(1074) as real;
    let v = q as real;
    let whole = (q * pow2(t)) as real;
    assert(p == a * s) by (nonlinear_arith)
        requires
            p == (pow2(t) * scale) as real,
            a == pow2(t) as real,
            s == scale as real,
    ;
    assert(whole == v * a) by (nonlinear_arith)
        requires
            whole == (q * pow2(t)) as real,
            v == q as real,
            a == pow2(t) as real,
    ;
    assert(e * s == v) by (nonlinear_arith)
        requires
            e * (a * s) == v * a,
            a > 0 as real,
    ;
}

/// The limits the numbers of a clip are held to.
pub proof fn lemma_what_the_ranges_are()
    ensures
        apart_by(60 as real * exact(num(MIN_CLIP_DURATION)), 1 as real, pico()),
        16 as real * exact(num(MIN_SPEED)) == 1 as real,
        exact(num(MAX_SPEED)) == 16 as real,
        apart_by(20 as real * exact(num(MIN_SCALE)), 1 as real, pico()),
        exact(num(MAX_SCALE)) == 8 as real,
        apart_by(10 as real * exact(num(MIN_STRETCH)), 1 as real, pico()),
        exact(num(MAX_STRETCH)) == 10 as real,
        exact(num(MAX_OFFSET)) == 3 as real,
        apart_by(10 as real * exact(num(MIN_TRANSITION)), 1 as real, pico()),
        apart_by(100 as real * exact(num(DEFAULT_FEATHER)), 1 as real, pico()),
{
    lemma2_to64();
    lemma2_to64_rest();
    lemma_bits(MIN_CLIP_DURATION, 1016, 0x11111111111111, 0x400000000000000);
    lemma_bits(MIN_SPEED, 1018, 0x10000000000000, 0x100000000000000);
    lemma_bits(MAX_SPEED, 1026, 0x10000000000000, 0x1000000000000);
    lemma_bits(MIN_SCALE, 1017, 0x1999999999999a, 0x200000000000000);
    lemma_bits(MAX_SCALE, 1025, 0x10000000000000, 0x2000000000000);
    lemma_bits(MIN_STRETCH, 1018, 0x1999999999999a, 0x100000000000000);
    lemma_bits(MAX_STRETCH, 1025, 0x14000000000000, 0x2000000000000);
    lemma_bits(MAX_OFFSET, 1023, 0x18000000000000, 0x8000000000000);
    lemma_bits(MIN_TRANSITION, 1018, 0x1999999999999a, 0x100000000000000);
    lemma_bits(DEFAULT_FEATHER, 1015, 0x147ae147ae147b, 0x800000000000000);
}

/// The limits the numbers of a clip are held to.
pub proof fn lemma_what_the_other_ranges_are()
    ensures
        apart_by(10 as real * exact(num(MAX_FEATHER)), 1 as real, pico()),
        apart_by(200 as real * exact(num(MIN_BRUSH)), 1 as real, pico()),
        2 as real * exact(num(MAX_BRUSH)) == 1 as real,
        2 as real * exact(num(MAX_STROKE)) == 3 as real,
        apart_by(10 as real * exact(num(MAX_CROP)), 9 as real, pico()),
        apart_by(500 as real * exact(num(KEY_EPSILON)), 1 as real, pico()),
        apart_by(200 as real * exact(num(EASE_EPSILON)), 1 as real, pico()),
        exact(num(TURN)) == 360 as real,
        exact(num(HALF_TURN)) == 180 as real,
        exact(num(TURN_AND_A_HALF)) == 540 as real,
{
    lemma2_to64();
    lemma2_to64_rest();
    lemma_bits(MAX_FEATHER, 1018, 0x1999999999999a, 0x100000000000000);
    lemma_bits(MIN_BRUSH, 1014, 0x147ae147ae147b, 0x1000000000000000);
    lemma_bits(MAX_BRUSH, 1021, 0x10000000000000, 0x20000000000000);
    lemma_bits(MAX_STROKE, 1022, 0x18000000000000, 0x10000000000000);
    lemma_bits(MAX_CROP, 1021, 0x1ccccccccccccd, 0x20000000000000);
    lemma_bits(KEY_EPSILON, 1013, 0x10624dd2f1a9fc, 0x2000000000000000);
    lemma_bits(EASE_EPSILON, 1014, 0x147ae147ae147b, 0x1000000000000000);
    lemma_bits(TURN, 1030, 0x16800000000000, 0x100000000000);
    lemma_bits(HALF_TURN, 1029, 0x16800000000000, 0x200000000000);
    lemma_bits(TURN_AND_A_HALF, 1031, 0x10e00000000000, 0x80000000000);
}

/// The clocks sound is placed by: thousandths and millionths of a second.
pub proof fn lemma_what_the_clocks_count()
    ensures
        exact(num(THOUSAND)) == 1000 as real,
        exact(num(MILLION)) == 1000000 as real,
{
    lemma2_to64();
    lemma2_to64_rest();
    lemma_bits(THOUSAND, 1031, 0x1f400000000000, 0x80000000000);
    lemma_bits(MILLION, 1041, 0x1e848000000000, 0x200000000);
}

/// How long what is placed lasts where nobody says.
pub proof fn lemma_what_is_given_where_none_is_asked()
    ensures
        exact(num(UNKNOWN_DURATION)) == 5 as real,
        exact(num(DEFAULT_IMAGE_DURATION)) == 5 as real,
        exact(num(DEFAULT_TEXT_DURATION)) == 4 as real,
        exact(num(DEFAULT_LAYER_DURATION)) == 5 as real,
        exact(num(DEFAULT_FREEZE_DURATION)) == 1 as real,
{
    lemma2_to64();
    lemma2_to64_rest();
    lemma_bits(UNKNOWN_DURATION, 1024, 0x14000000000000, 0x4000000000000);
    lemma_bits(DEFAULT_IMAGE_DURATION, 1024, 0x14000000000000, 0x4000000000000);
    lemma_bits(DEFAULT_TEXT_DURATION, 1024, 0x10000000000000, 0x4000000000000);
    lemma_bits(DEFAULT_LAYER_DURATION, 1024, 0x14000000000000, 0x4000000000000);
    lemma_bits(DEFAULT_FREEZE_DURATION, 1022, 0x10000000000000, 0x10000000000000);
}

/// What a title starts with, and what its numbers are held to.
pub proof fn lemma_what_a_title_starts_with()
    ensures
        apart_by(100 as real * exact(num(FONT_SIZE)), 9 as real, pico()),
        exact(num(FONT_WEIGHT)) == 700 as real,
        apart_by(5 as real * exact(num(LINE_HEIGHT)), 6 as real, pico()),
        apart_by(100 as real * exact(num(MIN_FONT_SIZE)), 1 as real, pico()),
        exact(num(MIN_FONT_WEIGHT)) == 100 as real,
        exact(num(MAX_FONT_WEIGHT)) == 900 as real,
        2 as real * exact(num(MIN_LINE_HEIGHT)) == 1 as real,
{
    lemma2_to64();
    lemma2_to64_rest();
    lemma_bits(FONT_SIZE, 1018, 0x170a3d70a3d70a, 0x100000000000000);
    lemma_bits(FONT_WEIGHT, 1031, 0x15e00000000000, 0x80000000000);
    lemma_bits(LINE_HEIGHT, 1022, 0x13333333333333, 0x10000000000000);
    lemma_bits(MIN_FONT_SIZE, 1015, 0x147ae147ae147b, 0x800000000000000);
    lemma_bits(MIN_FONT_WEIGHT, 1028, 0x19000000000000, 0x400000000000);
    lemma_bits(MAX_FONT_WEIGHT, 1031, 0x1c200000000000, 0x80000000000);
    lemma_bits(MIN_LINE_HEIGHT, 1021, 0x10000000000000, 0x20000000000000);
}

} // verus!
