//! Text as a filtergraph reads it: taken apart at its marks, and a decimal for what it
//! is worth.

use crate::digits::{fixed, half_even, one, padded, ten};
use crate::measure::{apart_by, lemma_counted, lemma_least};
use crate::model::exact::{exact, lemma_ratio};
use crate::number::{units, Number};
use crate::text::{all_digits, decimal, digit, digits_value, is_digit, lemma_decimal};
use vstd::arithmetic::div_mod::*;
use vstd::arithmetic::power2::*;
use vstd::arithmetic::power::*;
use vstd::prelude::*;

verus! {

/// How much of a text comes before the first mark.
pub open spec fn up_to(text: Seq<char>, mark: char) -> nat
    decreases text.len(),
{
    if text.len() == 0 || text[0] == mark {
        0
    } else {
        1 + up_to(text.skip(1), mark)
    }
}

/// A text taken apart at every mark.
pub open spec fn split(text: Seq<char>, mark: char) -> Seq<Seq<char>>
    decreases text.len(),
{
    let i = up_to(text, mark) as int;
    if i < text.len() {
        seq![text.take(i)] + split(text.skip(i + 1), mark)
    } else {
        seq![text]
    }
}

/// Whether a text has no mark in it.
pub open spec fn unmarked(text: Seq<char>, mark: char) -> bool {
    forall|i: int| 0 <= i < text.len() ==> #[trigger] text[i] != mark
}

pub proof fn lemma_up_to(part: Seq<char>, rest: Seq<char>, mark: char)
    requires
        unmarked(part, mark),
        rest.len() == 0 || rest[0] == mark,
    ensures
        up_to(part + rest, mark) == part.len(),
    decreases part.len(),
{
    if part.len() == 0 {
        assert(part + rest =~= rest);
    } else {
        let less = part.skip(1);
        assert forall|i: int| 0 <= i < less.len() implies #[trigger] less[i] != mark by {
            assert(less[i] == part[i + 1]);
        }
        lemma_up_to(less, rest, mark);
        assert((part + rest).skip(1) =~= less + rest);
        assert((part + rest)[0] == part[0]);
    }
}

/// The first part of a text, up to the first mark.
pub proof fn lemma_split_first(part: Seq<char>, rest: Seq<char>, mark: char)
    requires
        unmarked(part, mark),
    ensures
        split(part + seq![mark] + rest, mark) == seq![part] + split(rest, mark),
{
    let text = part + seq![mark] + rest;
    let n = part.len() as int;
    lemma_up_to(part, seq![mark] + rest, mark);
    assert(text =~= part + (seq![mark] + rest));
    assert(text.take(n) =~= part);
    assert(text.skip(n + 1) =~= rest);
}

pub proof fn lemma_split_last(part: Seq<char>, mark: char)
    requires
        unmarked(part, mark),
    ensures
        split(part, mark) == seq![part],
{
    lemma_up_to(part, Seq::empty(), mark);
    assert(part + Seq::<char>::empty() =~= part);
}

/// What a decimal without a sign is worth: what stands before the point, and the
/// digits after it over as many tens.
pub open spec fn unsigned(text: Seq<char>) -> real {
    let i = up_to(text, '.') as int;
    let part = text.skip(i + 1);
    (digits_value(text.take(i)) as real) + (digits_value(part) as real) / (pow(
        10,
        part.len(),
    ) as real)
}

/// What a decimal is worth.
pub open spec fn reads(text: Seq<char>) -> real {
    if text.len() > 0 && text[0] == '-' {
        -unsigned(text.skip(1))
    } else {
        unsigned(text)
    }
}

/// A millionth: the last place that is written.
pub open spec fn micro() -> real {
    1 as real / 1000000 as real
}

proof fn lemma_padded(n: nat, width: nat)
    requires
        n < ten(width),
    ensures
        padded(n, width).len() == width,
        all_digits(padded(n, width)),
        digits_value(padded(n, width)) == n,
    decreases width,
{
    if width > 0 {
        let less = (width - 1) as nat;
        lemma_padded(n / 10, less);
        let text = padded(n, width);
        assert(text.drop_last() =~= padded(n / 10, less));
        assert(text.last() == digit(n % 10));
    }
}

proof fn lemma_millionths()
    ensures
        ten(6) == 1000000,
        pow(10, 6) == 1000000,
{
    reveal_with_fuel(ten, 7);
    reveal(pow);
    reveal_with_fuel(pow, 7);
}

/// A whole part and six places are read as so many millionths.
proof fn lemma_reads_places(n: nat)
    ensures
        ({
            let text = decimal(n / 1000000) + seq!['.'] + padded(n % 1000000, 6);
            &&& text[0] != '-'
            &&& text.len() > 0
            &&& unsigned(text) * (1000000 as real) == n as real
        }),
{
    let whole = decimal(n / 1000000);
    let part = padded(n % 1000000, 6);
    let text = whole + seq!['.'] + part;
    lemma_millionths();
    lemma_decimal(n / 1000000);
    lemma_padded(n % 1000000, 6);
    assert(is_digit(whole[0]));
    assert(text[0] == whole[0]);
    assert forall|i: int| 0 <= i < whole.len() implies #[trigger] whole[i] != '.' by {
        assert(is_digit(whole[i]));
    }
    assert(text =~= whole + (seq!['.'] + part));
    lemma_up_to(whole, seq!['.'] + part, '.');
    let i = whole.len() as int;
    assert(text.take(i) =~= whole);
    assert(text.skip(i + 1) =~= part);
    let q = (n / 1000000) as real;
    let r = (n % 1000000) as real;
    assert(n == 1000000 * (n / 1000000) + n % 1000000);
    lemma_ratio(r, 1000000 as real, r / (1000000 as real));
}

/// Rounding to an integer takes no more than half.
proof fn lemma_half_even(num: nat, den: nat)
    requires
        den > 0,
    ensures
        -(den as int) <= 2 * (half_even(num, den) * den) - 2 * num <= den,
{
    lemma_fundamental_div_mod(num as int, den as int);
    lemma_mod_bound(num as int, den as int);
    let q = (num / den) as int;
    let d = den as int;
    assert(d * q == q * d) by (nonlinear_arith);
    assert((q + 1) * d == q * d + d) by (nonlinear_arith);
}

/// A number written with six places is worth no more than half of the last place more
/// or less than it.
pub proof fn lemma_written_to_six_places(x: Number)
    requires
        x.finite(),
    ensures
        apart_by(reads(fixed(x, 6)), exact(x), micro() / 2 as real),
        exact(x) >= 0 as real ==> reads(fixed(x, 6)) >= 0 as real,
{
    let u = units(x.magnitude());
    let n = half_even(u * ten(6), one());
    let text = decimal(n / 1000000) + seq!['.'] + padded(n % 1000000, 6);
    lemma_millionths();
    lemma_reads_places(n);
    lemma_counted(x);
    lemma_least();
    lemma_pow2_pos(1074);
    lemma_half_even(u * 1000000, one());
    let size = unsigned(text);
    if x.negative() {
        let whole = seq!['-'] + decimal(n / 1000000) + seq!['.'] + padded(n % 1000000, 6);
        assert(fixed(x, 6) =~= whole);
        assert(whole[0] == '-');
        assert(whole.skip(1) =~= text);
    } else {
        assert(fixed(x, 6) =~= text);
    }
    let e = if x.negative() {
        -exact(x)
    } else {
        exact(x)
    };
    let p = one() as real;
    let h = micro() / 2 as real;
    let d = size - e;
    assert((-exact(x)) * p == -(exact(x) * p)) by (nonlinear_arith);
    assert(e * p == u as real);
    let np = (n * one()) as real;
    let m = n as real;
    assert(np == m * p) by (nonlinear_arith)
        requires
            np == (n * one()) as real,
            m == n as real,
            p == one() as real,
    ;
    assert(-p <= 2 as real * np - 2000000 as real * (u as real) <= p);
    assert((size * (1000000 as real)) * p == (size * p) * (1000000 as real)) by (nonlinear_arith);
    assert(d * p == size * p - e * p) by (nonlinear_arith)
        requires
            d == size - e,
    ;
    assert(-p <= 2000000 as real * (d * p) <= p);
    assert(h == 1 as real / 2000000 as real);
    assert(d <= h) by (nonlinear_arith)
        requires
            2000000 as real * (d * p) <= p,
            p > 0 as real,
            h == 1 as real / 2000000 as real,
    ;
    assert(d >= -h) by (nonlinear_arith)
        requires
            -p <= 2000000 as real * (d * p),
            p > 0 as real,
            h == 1 as real / 2000000 as real,
    ;
    assert(size >= 0 as real);
    if exact(x) >= 0 as real && x.negative() {
        // Nothing below nothing: it is written as none.
        assert(e * p <= 0 as real) by (nonlinear_arith)
            requires
                e <= 0 as real,
                p > 0 as real,
        ;
        assert(u == 0);
        assert(n == 0) by {
            lemma_small_mod(0, one());
            lemma_div_of0(one() as int);
        }
    }
}

} // verus!
