//! Text the document writes and reads: decimal numbers, trimmed names and
//! one-line labels.

use vstd::prelude::*;
use vstd::string::*;

verus! {

pub open spec fn is_digit(c: char) -> bool {
    '0' <= c <= '9'
}

/// The characters Unicode calls white space.
pub open spec fn is_white(c: char) -> bool {
    ||| '\u{9}' <= c <= '\u{d}'
    ||| c == ' ' || c == '\u{85}' || c == '\u{a0}' || c == '\u{1680}'
    ||| '\u{2000}' <= c <= '\u{200a}'
    ||| c == '\u{2028}' || c == '\u{2029}' || c == '\u{202f}' || c == '\u{205f}' || c == '\u{3000}'
}

/// The digit worth `d`.
pub open spec fn digit(d: nat) -> char {
    ('0' as nat + d) as char
}

/// What a digit is worth.
pub open spec fn worth(c: char) -> nat {
    (c as nat - '0' as nat) as nat
}

/// `n` written in decimal.
pub open spec fn decimal(n: nat) -> Seq<char>
    decreases n,
{
    if n < 10 {
        seq![digit(n)]
    } else {
        decimal(n / 10).push(digit(n % 10))
    }
}

pub open spec fn all_digits(s: Seq<char>) -> bool {
    forall|i: int| 0 <= i < s.len() ==> is_digit(#[trigger] s[i])
}

/// Whether one text comes before another because of this place: they are the same
/// up to it, and there the first ends or has the lower character.
pub open spec fn precedes_at(a: Seq<char>, b: Seq<char>, i: int) -> bool {
    &&& 0 <= i <= a.len()
    &&& i < b.len()
    &&& forall|j: int| 0 <= j < i ==> #[trigger] a[j] == b[j]
    &&& i == a.len() || a[i] < b[i]
}

/// Whether one text comes before another in the order of their characters.
pub open spec fn precedes(a: Seq<char>, b: Seq<char>) -> bool {
    exists|i: int| #[trigger] precedes_at(a, b, i)
}

/// Of two texts that differ exactly one comes first, and no text before itself.
pub proof fn lemma_one_precedes(a: Seq<char>, b: Seq<char>)
    ensures
        a == b ==> !precedes(a, b),
        a != b ==> precedes(a, b) != precedes(b, a),
{
    if precedes(a, b) {
        let i = choose|i: int| #[trigger] precedes_at(a, b, i);
        if a == b {
            assert(false);
        }
        if precedes(b, a) {
            let k = choose|k: int| #[trigger] precedes_at(b, a, k);
            if i < k {
                assert(b[i] == a[i]);
            } else if k < i {
                assert(a[k] == b[k]);
            }
            assert(false);
        }
    } else if a != b {
        lemma_differ_at(a, b, 0);
    }
}

proof fn lemma_differ_at(a: Seq<char>, b: Seq<char>, from: int)
    requires
        a != b,
        0 <= from <= a.len(),
        from <= b.len(),
        forall|j: int| 0 <= j < from ==> #[trigger] a[j] == b[j],
    ensures
        precedes(a, b) || precedes(b, a),
    decreases a.len() - from,
{
    if from == a.len() && from == b.len() {
        assert(a =~= b);
    } else if from == a.len() || (from < b.len() && a[from] < b[from]) {
        assert(precedes_at(a, b, from));
    } else if from == b.len() || b[from] < a[from] {
        assert(precedes_at(b, a, from));
    } else {
        lemma_differ_at(a, b, from + 1);
    }
}

pub proof fn lemma_precedes_on(a: Seq<char>, b: Seq<char>, c: Seq<char>)
    requires
        precedes(a, b),
        precedes(b, c),
    ensures
        precedes(a, c),
{
    let i = choose|i: int| #[trigger] precedes_at(a, b, i);
    let k = choose|k: int| #[trigger] precedes_at(b, c, k);
    let m = if i < k {
        i
    } else {
        k
    };
    assert forall|j: int| 0 <= j < m implies #[trigger] a[j] == c[j] by {
        assert(a[j] == b[j]);
        assert(b[j] == c[j]);
    }
    if i < k {
        assert(b[i] == c[i]);
    } else if k < i {
        assert(a[k] == b[k]);
    }
    assert(precedes_at(a, c, m));
}

/// What a run of digits is worth.
pub open spec fn digits_value(s: Seq<char>) -> nat
    decreases s.len(),
{
    if s.len() == 0 {
        0
    } else {
        digits_value(s.drop_last()) * 10 + worth(s.last())
    }
}

/// The number a text spells: one or more digits and nothing else, worth no more
/// than sixty-four bits hold.
pub open spec fn parsed(s: Seq<char>) -> Option<nat> {
    if s.len() > 0 && all_digits(s) && digits_value(s) <= u64::MAX {
        Some(digits_value(s))
    } else {
        None
    }
}

/// The run of digits a text ends in.
pub open spec fn trailing_digits(s: Seq<char>) -> Seq<char>
    decreases s.len(),
{
    if s.len() == 0 || !is_digit(s.last()) {
        Seq::empty()
    } else {
        trailing_digits(s.drop_last()).push(s.last())
    }
}

/// Whether a text is white space throughout.
pub open spec fn blank(s: Seq<char>) -> bool {
    forall|i: int| 0 <= i < s.len() ==> is_white(#[trigger] s[i])
}

/// Where the first character at or after `from` that is not white stands, or
/// the length.
pub open spec fn first_mark(s: Seq<char>, from: nat) -> nat
    decreases s.len() - from,
{
    if from >= s.len() || !is_white(s[from as int]) {
        from
    } else {
        first_mark(s, from + 1)
    }
}

/// Where the line through `from` ends: the next line feed, or the length.
pub open spec fn line_end(s: Seq<char>, from: nat) -> nat
    decreases s.len() - from,
{
    if from >= s.len() || s[from as int] == '\n' {
        from
    } else {
        line_end(s, from + 1)
    }
}

/// Where `s[from..to]` ends without the white space at its tail.
pub open spec fn trimmed_end(s: Seq<char>, from: nat, to: nat) -> nat
    decreases to,
{
    if to <= from || !is_white(s[to - 1]) {
        to
    } else {
        trimmed_end(s, from, (to - 1) as nat)
    }
}

/// A text without the white space at either end.
pub open spec fn trimmed(s: Seq<char>) -> Seq<char> {
    let from = first_mark(s, 0);
    if from >= s.len() {
        Seq::empty()
    } else {
        s.subrange(from as int, trimmed_end(s, from, s.len()) as int)
    }
}

/// How many characters a label keeps.
pub const LABEL: usize = 40;

/// A one-line label for a block of text: the first line that is not blank,
/// trimmed and cut to forty characters, or "Text" where every line is.
pub open spec fn label(content: Seq<char>) -> Seq<char> {
    let from = first_mark(content, 0);
    if from >= content.len() {
        "Text"@
    } else {
        let end = trimmed_end(content, from, line_end(content, from));
        content.subrange(
            from as int,
            if end <= from + LABEL {
                end as int
            } else {
                (from + LABEL) as int
            },
        )
    }
}

/// The number in a candidate of the exact shape `"{name} N"`.
pub open spec fn numbered(name: Seq<char>, candidate: Seq<char>) -> Option<nat> {
    if candidate.len() > name.len() && candidate.take(name.len() as int) == name
        && candidate[name.len() as int] == ' ' {
        parsed(candidate.skip(name.len() as int + 1))
    } else {
        None
    }
}

/// The highest number among the candidates, zero where none has one.
pub open spec fn highest_numbered(name: Seq<char>, candidates: Seq<Seq<char>>) -> nat
    decreases candidates.len(),
{
    if candidates.len() == 0 {
        0
    } else {
        let rest = highest_numbered(name, candidates.drop_last());
        match numbered(name, candidates.last()) {
            Some(n) => if n > rest {
                n
            } else {
                rest
            },
            None => rest,
        }
    }
}

/// One more than a counter, in sixty-four bits.
pub open spec fn successor(n: nat) -> nat {
    if n >= u64::MAX {
        0
    } else {
        n + 1
    }
}

/// The name that comes after the highest one in use.
pub open spec fn next_name(name: Seq<char>, candidates: Seq<Seq<char>>) -> Seq<char> {
    name + " "@ + decimal(successor(highest_numbered(name, candidates)))
}

// Proofs about these.

proof fn lemma_mark_bounds(s: Seq<char>, from: nat)
    requires
        from <= s.len(),
    ensures
        from <= first_mark(s, from) <= s.len(),
        forall|i: int| from <= i < first_mark(s, from) ==> is_white(#[trigger] s[i]),
        first_mark(s, from) < s.len() ==> !is_white(s[first_mark(s, from) as int]),
    decreases s.len() - from,
{
    if from < s.len() && is_white(s[from as int]) {
        lemma_mark_bounds(s, from + 1);
    }
}

proof fn lemma_line_bounds(s: Seq<char>, from: nat)
    requires
        from <= s.len(),
    ensures
        from <= line_end(s, from) <= s.len(),
    decreases s.len() - from,
{
    if from < s.len() && s[from as int] != '\n' {
        lemma_line_bounds(s, from + 1);
    }
}

proof fn lemma_trim_bounds(s: Seq<char>, from: nat, to: nat)
    requires
        from <= to,
    ensures
        from <= trimmed_end(s, from, to) <= to,
    decreases to,
{
    if to > from && is_white(s[to - 1]) {
        lemma_trim_bounds(s, from, (to - 1) as nat);
    }
}

proof fn lemma_digits_grow(s: Seq<char>, k: int)
    requires
        0 <= k <= s.len(),
        all_digits(s),
    ensures
        digits_value(s.take(k)) <= digits_value(s),
    decreases s.len() - k,
{
    if k == s.len() {
        assert(s.take(k) =~= s);
    } else {
        lemma_digits_grow(s, k + 1);
        assert(s.take(k + 1).drop_last() =~= s.take(k));
    }
}

proof fn lemma_trailing(s: Seq<char>)
    ensures
        ({
            let k = s.len() - trailing_digits(s).len();
            &&& 0 <= k <= s.len()
            &&& trailing_digits(s) == s.skip(k)
            &&& all_digits(s.skip(k))
            &&& k > 0 ==> !is_digit(s[k - 1])
        }),
    decreases s.len(),
{
    if s.len() > 0 && is_digit(s.last()) {
        let d = s.drop_last();
        lemma_trailing(d);
        let k = d.len() - trailing_digits(d).len();
        assert(d.skip(k).push(s.last()) =~= s.skip(k));
        assert forall|i: int| 0 <= i < s.skip(k).len() implies is_digit(#[trigger] s.skip(k)[i]) by {
            if i < d.skip(k).len() {
                assert(is_digit(d.skip(k)[i]));
            }
        }
    } else {
        assert(s.skip(s.len() as int) =~= Seq::<char>::empty());
    }
}

/// A tail cut of its white space stops at a mark.
proof fn lemma_end_past_mark(s: Seq<char>, from: nat, to: nat)
    requires
        from < to <= s.len(),
        !is_white(s[from as int]),
    ensures
        from < trimmed_end(s, from, to) <= to,
    decreases to,
{
    if is_white(s[to - 1]) {
        lemma_end_past_mark(s, from, (to - 1) as nat);
    }
}

/// What trimming leaves of a text is not blank.
pub proof fn lemma_trimmed_is_not_blank(s: Seq<char>)
    requires
        trimmed(s).len() > 0,
    ensures
        !blank(trimmed(s)),
{
    lemma_mark_bounds(s, 0);
    let from = first_mark(s, 0);
    lemma_end_past_mark(s, from, s.len());
    assert(trimmed(s)[0] == s[from as int]);
}

/// A label is never blank, and no longer than it may be.
pub proof fn lemma_a_label_is_short(content: Seq<char>)
    ensures
        0 < label(content).len() <= LABEL,
        !blank(label(content)),
{
    reveal_strlit("Text");
    lemma_mark_bounds(content, 0);
    let from = first_mark(content, 0);
    if from < content.len() {
        lemma_line_past_mark(content, from);
        lemma_end_past_mark(content, from, line_end(content, from));
        assert(label(content)[0] == content[from as int]);
    } else {
        assert("Text"@[0] == 'T');
    }
}

/// A line through a mark reaches past it.
proof fn lemma_line_past_mark(s: Seq<char>, from: nat)
    requires
        from < s.len(),
        !is_white(s[from as int]),
    ensures
        from < line_end(s, from) <= s.len(),
{
    lemma_line_bounds(s, from + 1);
}

/// Written numbers are digits, worth what was written, the zero-less shortest
/// spelling.
pub proof fn lemma_decimal(n: nat)
    ensures
        decimal(n).len() > 0,
        all_digits(decimal(n)),
        digits_value(decimal(n)) == n,
    decreases n,
{
    if n < 10 {
        assert(decimal(n).drop_last() =~= Seq::<char>::empty());
        assert(decimal(n).last() == digit(n));
        assert(digits_value(Seq::<char>::empty()) == 0);
    } else {
        lemma_decimal(n / 10);
        assert(decimal(n).drop_last() =~= decimal(n / 10));
    }
}

/// Two numbers written alike are the same number.
pub proof fn lemma_decimal_injective(a: nat, b: nat)
    requires
        decimal(a) == decimal(b),
    ensures
        a == b,
{
    lemma_decimal(a);
    lemma_decimal(b);
}

/// A number written after a text that does not end in a digit is the run of
/// digits at its end.
pub proof fn lemma_trailing_decimal(prefix: Seq<char>, n: nat)
    requires
        prefix.len() == 0 || !is_digit(prefix.last()),
    ensures
        trailing_digits(prefix + decimal(n)) == decimal(n),
{
    lemma_decimal(n);
    lemma_trailing_append(prefix, decimal(n));
}

proof fn lemma_trailing_append(prefix: Seq<char>, digits: Seq<char>)
    requires
        prefix.len() == 0 || !is_digit(prefix.last()),
        all_digits(digits),
    ensures
        trailing_digits(prefix + digits) == digits,
    decreases digits.len(),
{
    let whole = prefix + digits;
    if digits.len() == 0 {
        assert(whole =~= prefix);
    } else {
        assert(whole.last() == digits.last());
        assert(whole.drop_last() =~= prefix + digits.drop_last());
        lemma_trailing_append(prefix, digits.drop_last());
        assert(digits.drop_last().push(digits.last()) =~= digits);
    }
}

/// An integer in decimal.
pub open spec fn signed_decimal(n: int) -> Seq<char> {
    if n < 0 {
        seq!['-'] + decimal((-n) as nat)
    } else {
        decimal(n as nat)
    }
}

/// Texts one after another, with `by` between each two.
pub open spec fn joined(parts: Seq<Seq<char>>, by: Seq<char>) -> Seq<char>
    decreases parts.len(),
{
    if parts.len() == 0 {
        Seq::empty()
    } else if parts.len() == 1 {
        parts[0]
    } else {
        joined(parts.drop_last(), by) + by + parts.last()
    }
}

/// What a list of texts says.
pub open spec fn texts(parts: Seq<String>) -> Seq<Seq<char>> {
    parts.map_values(|part: String| part@)
}

/// A letter of the alphabet in lower case; any other character as it is.
pub open spec fn lowered_char(c: char) -> char {
    if 'A' <= c <= 'Z' {
        (c as nat + 32) as char
    } else {
        c
    }
}

pub open spec fn lowered(s: Seq<char>) -> Seq<char> {
    s.map_values(|c: char| lowered_char(c))
}

// The functions.

/// An integer in decimal.
pub fn signed_text(n: i64) -> (s: String)
    ensures
        s@ == signed_decimal(n as int),
{
    if n >= 0 {
        decimal_text(n as u64)
    } else {
        let size: u64 = if n == i64::MIN {
            0x8000_0000_0000_0000
        } else {
            (-n) as u64
        };
        proof {
            reveal_strlit("-");
        }
        let mut s: String = "-".to_owned();
        s.append(decimal_text(size).as_str());
        assert("-"@ =~= seq!['-']);
        s
    }
}

/// Texts one after another, with `by` between each two.
pub fn join(parts: &Vec<String>, by: &str) -> (s: String)
    ensures
        s@ == joined(texts(parts@), by@),
{
    proof {
        reveal_strlit("");
    }
    let mut s: String = "".to_owned();
    assert(s@ =~= Seq::<char>::empty());
    let mut i: usize = 0;
    assert(texts(parts@).take(0) =~= Seq::<Seq<char>>::empty());
    while i < parts.len()
        invariant
            i <= parts.len(),
            s@ == joined(texts(parts@).take(i as int), by@),
        decreases parts.len() - i,
    {
        let ghost all = texts(parts@);
        proof {
            assert(all.take(i + 1).drop_last() =~= all.take(i as int));
            assert(all.take(i + 1).last() == parts@[i as int]@);
        }
        if i > 0 {
            s.append(by);
        }
        s.append(parts[i].as_str());
        proof {
            if i == 0 {
                assert(s@ =~= all.take(1)[0]);
            } else {
                assert(s@ =~= joined(all.take(i as int), by@) + by@ + all.take(i + 1).last());
            }
        }
        i = i + 1;
    }
    assert(texts(parts@).take(parts.len() as int) =~= texts(parts@));
    s
}

/// `String::push` puts one character at a text's end and leaves the rest.
pub assume_specification[ String::push ](s: &mut String, c: char)
    ensures
        final(s)@ == old(s)@.push(c),
;

/// The text of a run of characters.
pub fn text_from(chars: &Vec<char>) -> (s: String)
    ensures
        s@ == chars@,
{
    let mut s: String = String::new();
    let mut i: usize = 0;
    while i < chars.len()
        invariant
            i <= chars.len(),
            s@ == chars@.take(i as int),
        decreases chars.len() - i,
    {
        s.push(chars[i]);
        assert(chars@.take(i + 1) =~= chars@.take(i as int).push(chars[i as int]));
        i = i + 1;
    }
    assert(chars@.take(chars.len() as int) =~= chars@);
    s
}

/// A text in lower case, as far as the alphabet goes.
pub fn lower(s: &str) -> (r: String)
    ensures
        r@ == lowered(s@),
{
    let chars: Vec<char> = characters(s);
    let mut out: Vec<char> = Vec::new();
    let mut i: usize = 0;
    while i < chars.len()
        invariant
            i <= chars.len(),
            out@ == lowered(chars@.take(i as int)),
        decreases chars.len() - i,
    {
        let c: char = chars[i];
        if 'A' <= c && c <= 'Z' {
            out.push(((c as u8) + 32) as char);
        } else {
            out.push(c);
        }
        assert(out@ =~= lowered(chars@.take(i + 1)));
        i = i + 1;
    }
    assert(chars@.take(chars.len() as int) =~= chars@);
    text_from(&out)
}

/// The characters of a text.
pub fn characters(s: &str) -> (chars: Vec<char>)
    ensures
        chars@ == s@,
{
    let mut chars: Vec<char> = Vec::new();
    for c in iter: s.chars()
        invariant
            iter.seq() == s@,
            chars@ == s@.take(iter.index() as int),
    {
        chars.push(c);
        assert(s@.take(iter.index() as int + 1) =~= s@.take(iter.index() as int).push(c));
    }
    assert(s@.take(s@.len() as int) =~= s@);
    chars
}

/// Whether two texts are the same.
pub fn same_text(a: &str, b: &str) -> (r: bool)
    ensures
        r == (a@ == b@),
{
    a.to_owned() == b.to_owned()
}

/// Whether one text comes before another in the order of their characters.
pub fn text_precedes(a: &str, b: &str) -> (r: bool)
    ensures
        r == precedes(a@, b@),
{
    let first: Vec<char> = characters(a);
    let second: Vec<char> = characters(b);
    let mut i: usize = 0;
    while i < first.len() && i < second.len() && first[i] == second[i]
        invariant
            i <= first.len(),
            i <= second.len(),
            forall|j: int| 0 <= j < i ==> #[trigger] first@[j] == second@[j],
        decreases first.len() - i,
    {
        i = i + 1;
    }
    let r: bool = i < second.len() && (i == first.len() || first[i] < second[i]);
    proof {
        if r {
            assert(precedes_at(a@, b@, i as int));
        } else {
            if i == second.len() && i == first.len() {
                assert(first@ =~= second@);
            } else {
                assert(precedes_at(b@, a@, i as int));
            }
            lemma_one_precedes(a@, b@);
        }
    }
    r
}

fn white(c: char) -> (r: bool)
    ensures
        r == is_white(c),
{
    ('\u{9}' <= c && c <= '\u{d}') || c == ' ' || c == '\u{85}' || c == '\u{a0}' || c == '\u{1680}'
        || ('\u{2000}' <= c && c <= '\u{200a}') || c == '\u{2028}' || c == '\u{2029}' || c
        == '\u{202f}' || c == '\u{205f}' || c == '\u{3000}'
}

fn digit_text(d: u64) -> (s: &'static str)
    requires
        d < 10,
    ensures
        s@ == seq![digit(d as nat)],
{
    proof {
        reveal_strlit("0");
        reveal_strlit("1");
        reveal_strlit("2");
        reveal_strlit("3");
        reveal_strlit("4");
        reveal_strlit("5");
        reveal_strlit("6");
        reveal_strlit("7");
        reveal_strlit("8");
        reveal_strlit("9");
    }
    let s: &'static str = if d == 0 {
        "0"
    } else if d == 1 {
        "1"
    } else if d == 2 {
        "2"
    } else if d == 3 {
        "3"
    } else if d == 4 {
        "4"
    } else if d == 5 {
        "5"
    } else if d == 6 {
        "6"
    } else if d == 7 {
        "7"
    } else if d == 8 {
        "8"
    } else {
        "9"
    };
    assert(s@ =~= seq![digit(d as nat)]);
    s
}

/// `n` in decimal.
pub fn decimal_text(n: u64) -> (s: String)
    ensures
        s@ == decimal(n as nat),
    decreases n,
{
    if n < 10 {
        digit_text(n).to_owned()
    } else {
        let mut s: String = decimal_text(n / 10);
        s.append(digit_text(n % 10));
        assert(s@ =~= decimal(n as nat));
        s
    }
}

/// The number a text spells, if it spells one.
pub fn parse(s: &Vec<char>, from: usize) -> (r: Option<u64>)
    requires
        from <= s.len(),
    ensures
        match r {
            Some(n) => parsed(s@.skip(from as int)) == Some(n as nat),
            None => parsed(s@.skip(from as int)) is None,
        },
{
    let ghost digits = s@.skip(from as int);
    if from >= s.len() {
        return None;
    }
    let mut value: u64 = 0;
    let mut i: usize = from;
    proof {
        assert(digits.take(0) =~= Seq::<char>::empty());
    }
    while i < s.len()
        invariant
            from <= i <= s.len(),
            digits == s@.skip(from as int),
            value == digits_value(digits.take(i - from)),
            forall|j: int| 0 <= j < i - from ==> is_digit(#[trigger] digits[j]),
        decreases s.len() - i,
    {
        let c: char = s[i];
        assert(digits[i - from] == c);
        if !('0' <= c && c <= '9') {
            return None;
        }
        let d: u64 = (c as u32 - '0' as u32) as u64;
        proof {
            assert(digits.take(i - from + 1).drop_last() =~= digits.take(i - from));
            assert(digits_value(digits.take(i - from + 1)) == value * 10 + d);
        }
        if value > (u64::MAX - d) / 10 {
            proof {
                if all_digits(digits) {
                    lemma_digits_grow(digits, i - from + 1);
                }
            }
            return None;
        }
        value = value * 10 + d;
        i = i + 1;
    }
    assert(digits.take(digits.len() as int) =~= digits);
    Some(value)
}

/// What the run of digits at a text's end is worth, where it has one that
/// sixty-four bits hold.
pub fn trailing_number(s: &str) -> (r: Option<u64>)
    ensures
        match r {
            Some(n) => parsed(trailing_digits(s@)) == Some(n as nat),
            None => parsed(trailing_digits(s@)) is None,
        },
{
    let chars: Vec<char> = characters(s);
    let mut from: usize = chars.len();
    while from > 0 && '0' <= chars[from - 1] && chars[from - 1] <= '9'
        invariant
            from <= chars.len(),
            forall|i: int| from <= i < chars.len() ==> is_digit(#[trigger] chars[i]),
        decreases from,
    {
        from = from - 1;
    }
    proof {
        lemma_trailing(s@);
        let k = s@.len() - trailing_digits(s@).len();
        if k < from {
            assert(is_digit(s@.skip(k)[from - 1 - k]));
        }
    }
    parse(&chars, from)
}

/// Whether a text is white space throughout.
pub fn is_blank(s: &str) -> (r: bool)
    ensures
        r == blank(s@),
{
    let chars: Vec<char> = characters(s);
    let mut i: usize = 0;
    while i < chars.len()
        invariant
            i <= chars.len(),
            chars@ == s@,
            forall|j: int| 0 <= j < i ==> is_white(#[trigger] chars[j]),
        decreases chars.len() - i,
    {
        if !white(chars[i]) {
            assert(!is_white(s@[i as int]));
            return false;
        }
        i = i + 1;
    }
    true
}

fn mark(s: &Vec<char>) -> (r: usize)
    ensures
        r == first_mark(s@, 0),
        r <= s.len(),
{
    let mut i: usize = 0;
    while i < s.len() && white(s[i])
        invariant
            i <= s.len(),
            first_mark(s@, 0) == first_mark(s@, i as nat),
        decreases s.len() - i,
    {
        i = i + 1;
    }
    i
}

fn end_of_trimmed(s: &Vec<char>, from: usize, to: usize) -> (r: usize)
    requires
        from <= to <= s.len(),
    ensures
        r == trimmed_end(s@, from as nat, to as nat),
        from <= r <= to,
{
    let mut end: usize = to;
    while end > from && white(s[end - 1])
        invariant
            from <= end <= to <= s.len(),
            trimmed_end(s@, from as nat, to as nat) == trimmed_end(s@, from as nat, end as nat),
        decreases end,
    {
        end = end - 1;
    }
    end
}

/// The text without the white space at either end.
pub fn trim(s: &str) -> (r: String)
    ensures
        r@ == trimmed(s@),
{
    let chars: Vec<char> = characters(s);
    let from: usize = mark(&chars);
    if from >= chars.len() {
        return String::new();
    }
    let end: usize = end_of_trimmed(&chars, from, chars.len());
    s.substring_char(from, end).to_owned()
}

/// A text without the white space at its end.
pub open spec fn ended(s: Seq<char>) -> Seq<char> {
    s.take(trimmed_end(s, 0, s.len()) as int)
}

/// Drops the white space at the end of a text.
pub fn trim_end(s: &str) -> (r: String)
    ensures
        r@ == ended(s@),
{
    let chars: Vec<char> = characters(s);
    proof {
        lemma_trim_bounds(s@, 0, s@.len());
    }
    let end: usize = end_of_trimmed(&chars, 0, chars.len());
    s.substring_char(0, end).to_owned()
}

/// A one-line label for a block of text.
pub fn first_line(content: &str) -> (r: String)
    ensures
        r@ == label(content@),
{
    let chars: Vec<char> = characters(content);
    let from: usize = mark(&chars);
    if from >= chars.len() {
        return "Text".to_owned();
    }
    let mut stop: usize = from;
    while stop < chars.len() && chars[stop] != '\n'
        invariant
            from <= stop <= chars.len(),
            line_end(chars@, from as nat) == line_end(chars@, stop as nat),
        decreases chars.len() - stop,
    {
        stop = stop + 1;
    }
    let end: usize = end_of_trimmed(&chars, from, stop);
    let end: usize = if end - from <= LABEL {
        end
    } else {
        from + LABEL
    };
    content.substring_char(from, end).to_owned()
}

fn number_of(name: &Vec<char>, candidate: &str) -> (r: Option<u64>)
    ensures
        match r {
            Some(n) => numbered(name@, candidate@) == Some(n as nat),
            None => numbered(name@, candidate@) is None,
        },
{
    let chars: Vec<char> = characters(candidate);
    if chars.len() <= name.len() {
        return None;
    }
    let mut i: usize = 0;
    while i < name.len()
        invariant
            i <= name.len() < chars.len(),
            chars@ == candidate@,
            forall|j: int| 0 <= j < i ==> #[trigger] chars[j] == name[j],
        decreases name.len() - i,
    {
        if chars[i] != name[i] {
            assert(candidate@.take(name@.len() as int)[i as int] != name@[i as int]);
            return None;
        }
        i = i + 1;
    }
    assert(candidate@.take(name@.len() as int) =~= name@);
    if chars[i] != ' ' {
        return None;
    }
    parse(&chars, i + 1)
}

/// `"{name} N"`, one past the highest such number in use.
pub fn next_numbered(name: &str, existing: &Vec<String>) -> (r: String)
    ensures
        r@ == next_name(name@, existing@.map_values(|s: String| s@)),
{
    let ghost views = existing@.map_values(|s: String| s@);
    let wanted: Vec<char> = characters(name);
    let mut highest: u64 = 0;
    let mut i: usize = 0;
    assert(views.take(0) =~= Seq::<Seq<char>>::empty());
    while i < existing.len()
        invariant
            i <= existing.len(),
            wanted@ == name@,
            views == existing@.map_values(|s: String| s@),
            highest == highest_numbered(name@, views.take(i as int)),
        decreases existing.len() - i,
    {
        proof {
            assert(views.take(i as int + 1).drop_last() =~= views.take(i as int));
            assert(views.take(i as int + 1).last() == existing@[i as int]@);
        }
        match number_of(&wanted, existing[i].as_str()) {
            Some(n) => {
                if n > highest {
                    highest = n;
                }
            },
            None => {},
        }
        i = i + 1;
    }
    assert(views.take(views.len() as int) =~= views);
    let next: u64 = if highest == u64::MAX {
        0
    } else {
        highest + 1
    };
    let mut r: String = name.to_owned();
    r.append(" ");
    r.append(decimal_text(next).as_str());
    r
}

} // verus!
