//! Numbers as integers and as decimal text.
//!
//! A filtergraph is text, so the times and gains in it are written out with a
//! fixed number of places, and sample counts and delays are whole. Both are
//! computed here from a number's exact value.

use crate::number::{num, power_of_two, split, units, Number};
use crate::text::{decimal, digit};
use vstd::arithmetic::div_mod::*;
use vstd::arithmetic::power2::*;
use vstd::prelude::*;

verus! {

/// How many of the smallest positive number make one.
pub open spec fn one() -> nat {
    pow2(1074)
}

/// `num / den` rounded to the nearest integer, ties to the even one.
pub open spec fn half_even(num: nat, den: nat) -> nat {
    let floor = num / den;
    let rest = 2 * (num % den);
    if rest > den || (rest == den && floor % 2 == 1) {
        floor + 1
    } else {
        floor
    }
}

/// An integer held to what sixty-four bits can.
pub open spec fn clipped(n: int) -> int {
    if n < i64::MIN {
        i64::MIN as int
    } else if n > i64::MAX {
        i64::MAX as int
    } else {
        n
    }
}

/// A finite number without its fraction.
pub open spec fn truncated(x: Number) -> int {
    let floor = (units(x.magnitude()) / one()) as int;
    if x.negative() {
        -floor
    } else {
        floor
    }
}

/// A finite number to the nearest integer, ties away from zero.
pub open spec fn half_away(x: Number) -> int {
    let v = units(x.magnitude());
    let size = (v / one()) as int + if 2 * (v % one()) >= one() {
        1int
    } else {
        0int
    };
    if x.negative() {
        -size
    } else {
        size
    }
}

/// The least integer no less than a finite number.
pub open spec fn upward(x: Number) -> int {
    let v = units(x.magnitude());
    if x.negative() {
        -((v / one()) as int)
    } else {
        (v / one()) as int + if v % one() == 0 {
            0int
        } else {
            1int
        }
    }
}

/// The integer a number rounds up to, held to sixty-four bits.
pub open spec fn as_ceiling(x: Number) -> int {
    if x.nan() {
        0
    } else if x.infinite() {
        if x.negative() {
            i64::MIN as int
        } else {
            i64::MAX as int
        }
    } else {
        clipped(upward(x))
    }
}

/// The integer a number converts to: its whole part, held to sixty-four bits,
/// and zero for what is not a number.
pub open spec fn as_whole(x: Number) -> int {
    if x.nan() {
        0
    } else if x.infinite() {
        if x.negative() {
            i64::MIN as int
        } else {
            i64::MAX as int
        }
    } else {
        clipped(truncated(x))
    }
}

/// The integer a number rounds to, converted likewise.
pub open spec fn as_rounded(x: Number) -> int {
    if x.nan() {
        0
    } else if x.infinite() {
        if x.negative() {
            i64::MIN as int
        } else {
            i64::MAX as int
        }
    } else {
        clipped(half_away(x))
    }
}

/// Ten to the power of `places`.
pub open spec fn ten(places: nat) -> nat
    decreases places,
{
    if places == 0 {
        1
    } else {
        10 * ten((places - 1) as nat)
    }
}

/// The last `width` digits of `n`.
pub open spec fn padded(n: nat, width: nat) -> Seq<char>
    decreases width,
{
    if width == 0 {
        Seq::empty()
    } else {
        padded(n / 10, (width - 1) as nat).push(digit(n % 10))
    }
}

/// A number with exactly `places` decimal places: the nearest such decimal to
/// its exact value, ties to the even one.
pub open spec fn fixed(x: Number, places: nat) -> Seq<char> {
    let sign = if x.negative() {
        seq!['-']
    } else {
        Seq::empty()
    };
    if x.nan() {
        seq!['N', 'a', 'N']
    } else if x.infinite() {
        sign + seq!['i', 'n', 'f']
    } else {
        let n = half_even(units(x.magnitude()) * ten(places), one());
        sign + decimal(n / ten(places)) + seq!['.'] + padded(n % ten(places), places)
    }
}

/// How what is left over compares with half.
enum Rest {
    Nothing,
    Below,
    Half,
    Above,
}

/// A significand, a power of two below one and a scale: the whole part, and
/// how the rest compares with half.
fn divide(q: u64, t: u32, scale: u64) -> (r: (u128, Rest))
    requires
        q < 0x20_0000_0000_0000,
        t < 1074,
        scale <= 1_000_000,
    ensures
        ({
            let n = q * pow2(t as nat) * scale;
            &&& r.0 == n / (one() as int)
            &&& r.0 <= q * scale
            &&& r.1 is Nothing <==> n % (one() as int) == 0
            &&& r.1 is Nothing || r.1 is Below <==> 2 * (n % (one() as int)) < one()
            &&& r.1 is Half <==> 2 * (n % (one() as int)) == one()
        }),
{
    let s: u32 = 1074 - t;
    assert(q * scale < 0x20_0000_0000_0000 * 1_000_001) by (nonlinear_arith)
        requires
            q < 0x20_0000_0000_0000,
            scale <= 1_000_000,
    ;
    let a: u128 = (q as u128) * (scale as u128);
    proof {
        let p = pow2(t as nat) as int;
        let d = pow2(s as nat) as int;
        lemma_pow2_pos(t as nat);
        lemma_pow2_pos(s as nat);
        lemma_pow2_adds(t as nat, s as nat);
        assert((q * p) * scale == p * a) by (nonlinear_arith)
            requires
                a == q * scale,
        ;
        lemma_div_multiples_vanish_quotient(p, a as int, d);
        lemma_truncate_middle(a as int, p, d);
        let r = a as int % d;
        lemma_mod_bound(a as int, d);
        assert(2 * (p * r) < p * d <==> 2 * r < d) by (nonlinear_arith)
            requires
                p > 0,
        ;
        assert(2 * (p * r) == p * d <==> 2 * r == d) by (nonlinear_arith)
            requires
                p > 0,
        ;
        assert(p * r == 0 <==> r == 0) by (nonlinear_arith)
            requires
                p > 0,
        ;
        lemma_pow2_pos(1074);
    }
    if s >= 100 {
        proof {
            lemma2_to64();
            lemma2_to64_rest();
            lemma_pow2_adds(64, 36);
            if s > 100 {
                lemma_pow2_strictly_increases(100, s as nat);
            }
            lemma_small_mod(a as nat, pow2(s as nat));
            lemma_basic_div(a as int, pow2(s as nat) as int);
        }
        if a == 0 {
            (0, Rest::Nothing)
        } else {
            (0, Rest::Below)
        }
    } else {
        let d: u128 = power_of_two(s);
        proof {
            lemma2_to64();
            lemma2_to64_rest();
            lemma_pow2_adds(64, 36);
            if s < 100 {
                lemma_pow2_strictly_increases(s as nat, 100);
            }
            lemma_mod_bound(a as int, d as int);
            lemma_div_is_ordered_by_denominator(a as int, 1, d as int);
        }
        let rest: u128 = 2 * (a % d);
        let side: Rest = if rest == 0 {
            Rest::Nothing
        } else if rest < d {
            Rest::Below
        } else if rest == d {
            Rest::Half
        } else {
            Rest::Above
        };
        (a / d, side)
    }
}

/// The size of a finite number as an integer, where it has no fraction.
fn shift_up(q: u64, t: u32) -> (r: u128)
    requires
        q < 0x20_0000_0000_0000,
        1074 <= t < 1138,
    ensures
        r * one() == q * pow2(t as nat),
        r == q * pow2((t - 1074) as nat),
{
    let s: u32 = t - 1074;
    let p: u128 = power_of_two(s);
    proof {
        lemma2_to64();
        lemma_pow2_strictly_increases(s as nat, 64);
        lemma_pow2_adds(s as nat, 1074);
        assert(q * p < 0x20_0000_0000_0000 * 0x1_0000_0000_0000_0000) by (nonlinear_arith)
            requires
                q < 0x20_0000_0000_0000,
                p < 0x1_0000_0000_0000_0000,
        ;
        assert((q * p) * one() == q * (p * one())) by (nonlinear_arith);
    }
    (q as u128) * p
}

proof fn lemma_whole(u: nat)
    ensures
        (u * one()) / one() == u,
        (u * one()) % one() == 0,
{
    lemma_pow2_pos(1074);
    lemma_div_multiples_vanish(u as int, one() as int);
    lemma_mod_multiples_basic(u as int, one() as int);
    assert(one() * u == u * one()) by (nonlinear_arith);
}

fn clip(negative: bool, size: u128) -> (r: i64)
    ensures
        r == clipped(if negative { -(size as int) } else { size as int }),
{
    if negative {
        if size >= 0x8000_0000_0000_0000 {
            i64::MIN
        } else {
            -(size as i64)
        }
    } else if size > 0x7fff_ffff_ffff_ffff {
        i64::MAX
    } else {
        size as i64
    }
}

/// A size past what sixty-four bits hold.
proof fn lemma_past(q: nat, t: nat)
    requires
        q >= 0x10_0000_0000_0000,
        t >= 1138,
    ensures
        (q * pow2(t)) / one() >= 0x8000_0000_0000_0000,
        (q * pow2(t)) % one() == 0,
{
    let s = (t - 1074) as nat;
    lemma_pow2_adds(s, 1074);
    assert(q * (pow2(s) * one()) == (q * pow2(s)) * one()) by (nonlinear_arith);
    lemma_whole(q * pow2(s));
    lemma2_to64();
    if s > 64 {
        lemma_pow2_strictly_increases(64, s);
    }
    assert(q * pow2(s) >= 0x8000_0000_0000_0000) by (nonlinear_arith)
        requires
            q >= 1,
            pow2(s) >= 0x1_0000_0000_0000_0000,
    ;
}

impl Number {
    fn beyond(self) -> (r: i64)
        ensures
            r == (if self.negative() {
                i64::MIN as int
            } else {
                i64::MAX as int
            }),
    {
        if self.bits >= 0x8000_0000_0000_0000 {
            i64::MIN
        } else {
            i64::MAX
        }
    }

    /// The whole part, held to sixty-four bits.
    pub fn to_whole(self) -> (r: i64)
        ensures
            r == as_whole(self),
    {
        let negative: bool = self.bits >= 0x8000_0000_0000_0000;
        if self.is_nan() {
            return 0;
        }
        if !self.is_finite() {
            return self.beyond();
        }
        let (q, t) = split(self.size());
        proof {
            assert(units(self.magnitude()) * 1 == units(self.magnitude()));
        }
        if t < 1074 {
            let (whole, rest) = divide(q, t, 1);
            proof {
                assert(q * pow2(t as nat) * 1 == q * pow2(t as nat)) by (nonlinear_arith);
            }
            clip(negative, whole)
        } else if t < 1138 {
            let whole: u128 = shift_up(q, t);
            proof {
                lemma_whole(whole as nat);
            }
            clip(negative, whole)
        } else {
            proof {
                lemma_past(q as nat, t as nat);
            }
            self.beyond()
        }
    }

    /// The least integer no less, held to sixty-four bits.
    pub fn to_ceiling(self) -> (r: i64)
        ensures
            r == as_ceiling(self),
    {
        let negative: bool = self.bits >= 0x8000_0000_0000_0000;
        if self.is_nan() {
            return 0;
        }
        if !self.is_finite() {
            return self.beyond();
        }
        let (q, t) = split(self.size());
        proof {
            lemma_pow2_pos(1074);
        }
        if t < 1074 {
            let (whole, rest) = divide(q, t, 1);
            proof {
                assert(q * pow2(t as nat) * 1 == q * pow2(t as nat)) by (nonlinear_arith);
                assert(q * 1 == q);
            }
            if negative {
                clip(true, whole)
            } else {
                match rest {
                    Rest::Nothing => clip(false, whole),
                    _ => clip(false, whole + 1),
                }
            }
        } else if t < 1138 {
            let whole: u128 = shift_up(q, t);
            proof {
                lemma_whole(whole as nat);
            }
            clip(negative, whole)
        } else {
            proof {
                lemma_past(q as nat, t as nat);
            }
            self.beyond()
        }
    }

    /// The nearest integer, ties away from zero, held to sixty-four bits.
    pub fn to_rounded(self) -> (r: i64)
        ensures
            r == as_rounded(self),
    {
        let negative: bool = self.bits >= 0x8000_0000_0000_0000;
        if self.is_nan() {
            return 0;
        }
        if !self.is_finite() {
            return self.beyond();
        }
        let (q, t) = split(self.size());
        proof {
            lemma_pow2_pos(1074);
        }
        if t < 1074 {
            let (whole, rest) = divide(q, t, 1);
            proof {
                assert(q * pow2(t as nat) * 1 == q * pow2(t as nat)) by (nonlinear_arith);
                assert(q * 1 == q);
            }
            match rest {
                Rest::Nothing => clip(negative, whole),
                Rest::Below => clip(negative, whole),
                _ => clip(negative, whole + 1),
            }
        } else if t < 1138 {
            let whole: u128 = shift_up(q, t);
            proof {
                lemma_whole(whole as nat);
            }
            clip(negative, whole)
        } else {
            proof {
                lemma_past(q as nat, t as nat);
            }
            self.beyond()
        }
    }
}

// Decimal text.

/// What a run of digits is worth, lowest first.
spec fn worth_of(digits: Seq<u8>) -> nat
    decreases digits.len(),
{
    if digits.len() == 0 {
        0
    } else {
        digits[0] as nat + 10 * worth_of(digits.skip(1))
    }
}

spec fn all_small(digits: Seq<u8>) -> bool {
    forall|i: int| 0 <= i < digits.len() ==> (#[trigger] digits[i]) < 10
}

proof fn lemma_worth_push(digits: Seq<u8>, d: u8)
    ensures
        worth_of(digits.push(d)) == worth_of(digits) + d * ten(digits.len()),
    decreases digits.len(),
{
    let more = digits.push(d);
    if digits.len() == 0 {
        assert(more.skip(1) =~= digits);
        assert(ten(0) == 1);
        assert(d * 1 == d);
    } else {
        assert(more.skip(1) =~= digits.skip(1).push(d));
        lemma_worth_push(digits.skip(1), d);
        let t = ten((digits.len() - 1) as nat);
        assert(10 * (d * t) == d * (10 * t)) by (nonlinear_arith);
    }
}

/// Twice a run of digits.
fn double(digits: &Vec<u8>) -> (r: Vec<u8>)
    requires
        all_small(digits@),
        digits.len() > 0,
        digits.len() < 0x1_0000,
        digits@.last() > 0,
    ensures
        all_small(r@),
        worth_of(r@) == 2 * worth_of(digits@),
        digits.len() <= r.len() <= digits.len() + 1,
        r@.last() > 0,
{
    let mut r: Vec<u8> = Vec::new();
    let mut carry: u8 = 0;
    let mut i: usize = 0;
    assert(digits@.take(0) =~= Seq::<u8>::empty());
    assert(carry * ten(0) == 0) by (nonlinear_arith)
        requires
            carry == 0,
    ;
    while i < digits.len()
        invariant
            i <= digits.len(),
            all_small(digits@),
            all_small(r@),
            r.len() == i,
            carry <= 1,
            worth_of(r@) + carry * ten(i as nat) == 2 * worth_of(digits@.take(i as int)),
            i > 0 && digits[i as int - 1] > 0 ==> carry > 0 || r@.last() > 0,
        decreases digits.len() - i,
    {
        let sum: u8 = 2 * digits[i] + carry;
        let ghost before = r@;
        let ghost held = carry;
        let d: u8 = if sum >= 10 {
            sum - 10
        } else {
            sum
        };
        let next: u8 = if sum >= 10 {
            1
        } else {
            0
        };
        r.push(d);
        carry = next;
        proof {
            assert(digits@.take(i + 1) =~= digits@.take(i as int).push(digits[i as int]));
            lemma_worth_push(digits@.take(i as int), digits[i as int]);
            lemma_worth_push(before, d);
            let t = ten(i as nat);
            let x = digits[i as int];
            assert(ten((i + 1) as nat) == 10 * t);
            assert(d * t + next * (10 * t) == 2 * (x * t) + held * t) by (nonlinear_arith)
                requires
                    d + 10 * next == 2 * x + held,
            ;
        }
        i = i + 1;
    }
    assert(digits@.take(digits.len() as int) =~= digits@);
    if carry > 0 {
        proof {
            lemma_worth_push(r@, carry);
        }
        r.push(carry);
    } else {
        assert(carry * ten(i as nat) == 0) by (nonlinear_arith)
            requires
                carry == 0,
        ;
    }
    r
}

/// A run of digits as text, highest first.
spec fn written(digits: Seq<u8>) -> Seq<char>
    decreases digits.len(),
{
    if digits.len() == 0 {
        Seq::empty()
    } else {
        written(digits.skip(1)).push(digit(digits[0] as nat))
    }
}

proof fn lemma_written(digits: Seq<u8>)
    requires
        all_small(digits),
        digits.len() > 0,
        digits.last() > 0,
    ensures
        written(digits) == decimal(worth_of(digits)),
        worth_of(digits) > 0,
    decreases digits.len(),
{
    let rest = digits.skip(1);
    let n = worth_of(digits);
    if rest.len() == 0 {
        assert(worth_of(rest) == 0);
        assert(n == digits[0]);
        assert(written(rest) =~= Seq::<char>::empty());
        assert(written(digits) =~= seq![digit(n)]);
    } else {
        assert(rest.last() == digits.last());
        lemma_written(rest);
        assert(n / 10 == worth_of(rest) && n % 10 == digits[0] as nat);
    }
}

fn digit_char(d: u8) -> (c: char)
    requires
        d < 10,
    ensures
        c == digit(d as nat),
{
    (0x30 + d) as char
}

/// A run of digits as text.
fn write_digits(digits: &Vec<u8>) -> (s: Vec<char>)
    requires
        all_small(digits@),
    ensures
        s@ == written(digits@),
{
    let mut s: Vec<char> = Vec::new();
    let mut i: usize = digits.len();
    assert(digits@.skip(i as int) =~= Seq::<u8>::empty());
    while i > 0
        invariant
            i <= digits.len(),
            all_small(digits@),
            s@ == written(digits@.skip(i as int)),
        decreases i,
    {
        i = i - 1;
        s.push(digit_char(digits[i]));
        assert(digits@.skip(i as int).skip(1) =~= digits@.skip(i + 1));
    }
    assert(digits@.skip(0) =~= digits@);
    s
}

/// The digits of an integer, lowest first.
fn digits_of(n: u128) -> (r: Vec<u8>)
    requires
        n > 0,
    ensures
        all_small(r@),
        worth_of(r@) == n,
        0 < r.len() <= 39,
        r@.last() > 0,
{
    let mut r: Vec<u8> = Vec::new();
    let mut left: u128 = n;
    proof {
        reveal_with_fuel(ten, 40);
        assert(left * ten(0) == left) by (nonlinear_arith)
            requires
                ten(0) == 1,
        ;
    }
    while left > 0
        invariant
            all_small(r@),
            n > 0,
            n == worth_of(r@) + left * ten(r@.len()),
            left == 0 ==> r.len() > 0 && r@.last() > 0,
            r.len() == 0 ==> left == n,
            n <= u128::MAX,
            r.len() <= 39,
            left * ten(r@.len()) <= n,
            ten(39) > u128::MAX,
        decreases left,
    {
        let d: u8 = (left % 10) as u8;
        proof {
            let t = ten(r@.len());
            lemma_worth_push(r@, d);
            assert(left * t == (left / 10) * (10 * t) + d * t) by (nonlinear_arith)
                requires
                    left == 10 * (left / 10) + d,
            ;
            assert(left * t >= t) by (nonlinear_arith)
                requires
                    left >= 1,
                    t >= 0,
            ;
            assert(d * t >= 0) by (nonlinear_arith)
                requires
                    t >= 0,
            ;
            assert(r@.len() < 39);
        }
        r.push(d);
        left = left / 10;
    }
    proof {
        assert(left * ten(r@.len()) == 0) by (nonlinear_arith)
            requires
                left == 0,
        ;
    }
    r
}

/// An integer as text.
fn integer_text(n: u128) -> (s: Vec<char>)
    ensures
        s@ == decimal(n as nat),
{
    if n == 0 {
        let mut s: Vec<char> = Vec::new();
        s.push('0');
        assert(s@ =~= decimal(0));
        s
    } else {
        let digits: Vec<u8> = digits_of(n);
        proof {
            lemma_written(digits@);
        }
        write_digits(&digits)
    }
}

/// A significand and a power of two as text.
fn large_text(q: u64, k: u32) -> (s: Vec<char>)
    requires
        q > 0,
        k <= 1000,
    ensures
        s@ == decimal((q * pow2(k as nat)) as nat),
{
    let mut digits: Vec<u8> = digits_of(q as u128);
    let mut done: u32 = 0;
    proof {
        lemma2_to64();
        assert(q * pow2(0) == q) by (nonlinear_arith)
            requires
                pow2(0) == 1,
        ;
    }
    while done < k
        invariant
            done <= k <= 1000,
            all_small(digits@),
            0 < digits.len() <= 39 + done,
            digits@.last() > 0,
            worth_of(digits@) == q * pow2(done as nat),
        decreases k - done,
    {
        digits = double(&digits);
        proof {
            lemma_pow2_unfold((done + 1) as nat);
            let p = pow2(done as nat);
            assert(2 * (q * p) == q * (2 * p)) by (nonlinear_arith);
        }
        done = done + 1;
    }
    proof {
        lemma_written(digits@);
    }
    write_digits(&digits)
}

/// The last digits of an integer as text.
fn padded_text(n: u64, width: u32) -> (s: Vec<char>)
    ensures
        s@ == padded(n as nat, width as nat),
    decreases width,
{
    if width == 0 {
        Vec::new()
    } else {
        let mut s: Vec<char> = padded_text(n / 10, width - 1);
        s.push(digit_char((n % 10) as u8));
        s
    }
}

fn extend(s: &mut Vec<char>, tail: &Vec<char>)
    ensures
        final(s)@ == old(s)@ + tail@,
{
    let ghost head = s@;
    let mut i: usize = 0;
    while i < tail.len()
        invariant
            i <= tail.len(),
            s@ == head + tail@.take(i as int),
        decreases tail.len() - i,
    {
        s.push(tail[i]);
        assert(tail@.take(i + 1) =~= tail@.take(i as int).push(tail[i as int]));
        i = i + 1;
    }
    assert(tail@.take(tail.len() as int) =~= tail@);
}

fn power_of_ten(places: u32) -> (r: u64)
    requires
        places <= 6,
    ensures
        r == ten(places as nat),
        1 <= r <= 1_000_000,
{
    proof {
        reveal_with_fuel(ten, 8);
    }
    if places == 0 {
        1
    } else if places == 1 {
        10
    } else if places == 2 {
        100
    } else if places == 3 {
        1_000
    } else if places == 4 {
        10_000
    } else if places == 5 {
        100_000
    } else {
        1_000_000
    }
}

/// A number with exactly `places` decimal places.
pub fn fixed_text(x: Number, places: u32) -> (s: Vec<char>)
    requires
        places <= 6,
    ensures
        s@ == fixed(x, places as nat),
{
    let mut s: Vec<char> = Vec::new();
    if x.is_nan() {
        s.push('N');
        s.push('a');
        s.push('N');
        assert(s@ =~= fixed(x, places as nat));
        return s;
    }
    if x.bits >= 0x8000_0000_0000_0000 {
        s.push('-');
    }
    let ghost sign = s@;
    proof {
        assert(sign =~= if x.negative() {
            seq!['-']
        } else {
            Seq::empty()
        });
    }
    if !x.is_finite() {
        s.push('i');
        s.push('n');
        s.push('f');
        assert(s@ =~= fixed(x, places as nat));
        return s;
    }
    let scale: u64 = power_of_ten(places);
    let (q, t) = split(x.size());
    let ghost n = half_even(units(x.magnitude()) * ten(places as nat), one());
    if t < 1074 {
        let (floor, rest) = divide(q, t, scale);
        proof {
            assert(q * scale < 0x20_0000_0000_0000 * 1_000_001) by (nonlinear_arith)
                requires
                    q < 0x20_0000_0000_0000,
                    scale <= 1_000_000,
            ;
        }
        let up: bool = match rest {
            Rest::Nothing => false,
            Rest::Below => false,
            Rest::Half => floor % 2 == 1,
            Rest::Above => true,
        };
        let whole: u128 = if up {
            floor + 1
        } else {
            floor
        };
        proof {
            let a = units(x.magnitude()) * ten(places as nat);
            assert(a == q * pow2(t as nat) * scale);
            lemma_pow2_pos(1074);
            assert(floor == a / one());
            assert(whole == n);
        }
        let head: Vec<char> = integer_text(whole / (scale as u128));
        extend(&mut s, &head);
        s.push('.');
        let tail: Vec<char> = padded_text((whole % (scale as u128)) as u64, places);
        extend(&mut s, &tail);
        assert(s@ =~= fixed(x, places as nat));
    } else {
        let head: Vec<char> = large_text(q, t - 1074);
        proof {
            let k = (t - 1074) as nat;
            let u = (q * pow2(k)) as nat;
            let c = ten(places as nat);
            lemma_pow2_adds(k, 1074);
            assert(q * (pow2(k) * one()) * c == (u * c) * one()) by (nonlinear_arith)
                requires
                    u == q * pow2(k),
            ;
            lemma_whole(u * c);
            lemma_pow2_pos(1074);
            assert(n == u * c);
            lemma_div_multiples_vanish(u as int, c as int);
            lemma_mod_multiples_basic(u as int, c as int);
            assert(c * u == u * c) by (nonlinear_arith);
        }
        extend(&mut s, &head);
        s.push('.');
        let tail: Vec<char> = padded_text(0, places);
        extend(&mut s, &tail);
        assert(s@ =~= fixed(x, places as nat));
    }
    s
}

} // verus!
