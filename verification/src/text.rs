//! Character-level text operations.
pub mod reading;

use vstd::arithmetic::div_mod::lemma_div_decreases;
use vstd::prelude::*;
use vstd::utf8::{encode_utf8, encode_utf8_decode_utf8};

verus! {

/// What `char::from_u32` of the standard library returns: the character with
/// the given scalar value, if there is one.
pub assume_specification[ char::from_u32 ](i: u32) -> (r: Option<char>)
    ensures
        r == if i < 0xd800 || 0xe000 <= i < 0x11_0000 {
            Some(i as char)
        } else {
            None
        },
;

/// Appends one character, by `String::push` of the standard library.
#[verifier::external_body]
pub(crate) fn push_char(out: &mut String, c: char)
    ensures
        final(out)@ == old(out)@.push(c),
{
    out.push(c)
}

/// The characters of a string.
pub fn chars_of(s: &str) -> (r: Vec<char>)
    ensures
        r@ == s@,
{
    let mut out: Vec<char> = Vec::new();
    for c in it: s.chars()
        invariant
            it.seq() == s@,
            out@ == it.seq().take(it.index() as int),
    {
        out.push(c);
    }
    out
}

/// The string that holds the given characters.
pub fn string_of(chars: &Vec<char>) -> (r: String)
    ensures
        r@ == chars@,
{
    let mut out: String = String::new();
    let mut i: usize = 0;
    while i < chars.len()
        invariant
            i <= chars.len(),
            out@ == chars@.take(i as int),
        decreases chars.len() - i,
    {
        push_char(&mut out, chars[i]);
        i += 1;
        assert(chars@.take(i as int) == chars@.take(i - 1).push(chars@[i - 1]));
    }
    assert(chars@.take(i as int) == chars@);
    out
}

/// Whether two strings hold the same text.
pub fn same_text(a: &str, b: &str) -> (r: bool)
    ensures
        r == (a@ == b@),
{
    let x = a.as_bytes();
    let y = b.as_bytes();
    proof {
        encode_utf8_decode_utf8(a@);
        encode_utf8_decode_utf8(b@);
    }
    if x.len() != y.len() {
        return false;
    }
    let mut i: usize = 0;
    while i < x.len()
        invariant
            i <= x.len(),
            x@.len() == y@.len(),
            x@ == encode_utf8(a@),
            y@ == encode_utf8(b@),
            forall|j: int| 0 <= j < i ==> x@[j] == y@[j],
        decreases x.len() - i,
    {
        if x[i] != y[i] {
            return false;
        }
        i += 1;
    }
    assert(x@ =~= y@);
    true
}

/// The texts of a sequence of strings.
pub open spec fn texts(s: Seq<String>) -> Seq<Seq<char>> {
    s.map_values(|x: String| x@)
}

pub proof fn lemma_texts_push(s: Seq<String>, x: String)
    ensures
        texts(s.push(x)) == texts(s).push(x@),
{
    assert(texts(s.push(x)) =~= texts(s).push(x@));
}

// ---------------------------------------------------------------------------
// Searching
// ---------------------------------------------------------------------------

/// Whether `part` stands in `text` at `at`.
pub open spec fn found_at(text: Seq<char>, part: Seq<char>, at: int) -> bool {
    0 <= at && at + part.len() <= text.len() && text.subrange(at, at + part.len()) == part
}

/// Whether `part` occurs in `text`.
pub open spec fn occurs(text: Seq<char>, part: Seq<char>) -> bool {
    exists|at: int| found_at(text, part, at)
}

/// Whether `part` stands in `text` at `at`.
pub fn stands_here(text: &Vec<char>, part: &Vec<char>, at: usize) -> (r: bool)
    requires
        at + part@.len() <= text@.len(),
    ensures
        r == found_at(text@, part@, at as int),
{
    let mut i: usize = 0;
    while i < part.len()
        invariant
            i <= part.len(),
            at + part.len() <= text.len(),
            forall|j: int| 0 <= j < i ==> text@[at + j] == part@[j],
        decreases part.len() - i,
    {
        if text[at + i] != part[i] {
            assert(text@.subrange(at as int, at + part@.len())[i as int] == text@[at + i]);
            return false;
        }
        i += 1;
    }
    assert(text@.subrange(at as int, at + part@.len()) =~= part@);
    true
}

/// Whether `part` occurs in `text`.
pub fn contains_chars(text: &Vec<char>, part: &Vec<char>) -> (r: bool)
    ensures
        r == occurs(text@, part@),
{
    if part.len() > text.len() {
        return false;
    }
    let last: usize = text.len() - part.len();
    let mut at: usize = 0;
    while at <= last
        invariant
            at <= last + 1,
            last + part@.len() == text@.len(),
            forall|j: int| 0 <= j < at ==> !found_at(text@, part@, j),
        decreases last + 1 - at,
    {
        if stands_here(text, part, at) {
            return true;
        }
        if at == last {
            assert forall|j: int| !found_at(text@, part@, j) by {
                if 0 <= j && j + part@.len() <= text@.len() {
                    assert(j <= last);
                }
            }
            return false;
        }
        at += 1;
    }
    false
}

/// Whether `part` occurs in `text`.
pub fn contains_text(text: &str, part: &str) -> (r: bool)
    ensures
        r == occurs(text@, part@),
{
    let a = chars_of(text);
    let b = chars_of(part);
    contains_chars(&a, &b)
}

/// Whether `text` starts with `part`.
pub open spec fn starts_with(text: Seq<char>, part: Seq<char>) -> bool {
    found_at(text, part, 0)
}

/// Whether `text` ends with `part`.
pub open spec fn ends_with(text: Seq<char>, part: Seq<char>) -> bool {
    found_at(text, part, text.len() - part.len())
}

pub fn has_prefix(text: &Vec<char>, part: &str) -> (r: bool)
    ensures
        r == starts_with(text@, part@),
{
    let part = chars_of(part);
    part.len() <= text.len() && stands_here(text, &part, 0)
}

pub fn has_suffix(text: &Vec<char>, part: &str) -> (r: bool)
    ensures
        r == ends_with(text@, part@),
{
    let part = chars_of(part);
    part.len() <= text.len() && stands_here(text, &part, text.len() - part.len())
}

/// Characters `from .. to` of a text.
pub fn cut_chars(text: &Vec<char>, from: usize, to: usize) -> (r: Vec<char>)
    requires
        from <= to <= text@.len(),
    ensures
        r@ == text@.subrange(from as int, to as int),
{
    let mut out: Vec<char> = Vec::new();
    let mut i: usize = from;
    while i < to
        invariant
            from <= i <= to <= text.len(),
            out@ == text@.subrange(from as int, i as int),
        decreases to - i,
    {
        out.push(text[i]);
        i += 1;
        assert(text@.subrange(from as int, i as int) =~= text@.subrange(from as int, i - 1).push(
            text@[i - 1],
        ));
    }
    out
}

/// The empty text occurs in every text.
pub proof fn lemma_empty_occurs(text: Seq<char>)
    ensures
        occurs(text, Seq::empty()),
{
    assert(text.subrange(0, 0) =~= Seq::<char>::empty());
    assert(found_at(text, Seq::empty(), 0));
}

// ---------------------------------------------------------------------------
// Trimming and replacing
// ---------------------------------------------------------------------------

/// Whether a character is white space.
pub open spec fn is_space(c: char) -> bool {
    let v = c as u32;
    ||| 0x09 <= v <= 0x0d
    ||| v == 0x20
    ||| v == 0x85
    ||| v == 0xa0
    ||| v == 0x1680
    ||| 0x2000 <= v <= 0x200a
    ||| v == 0x2028
    ||| v == 0x2029
    ||| v == 0x202f
    ||| v == 0x205f
    ||| v == 0x3000
}

/// A text without white space at its start.
pub open spec fn trimmed_start(s: Seq<char>) -> Seq<char>
    decreases s.len(),
{
    if s.len() > 0 && is_space(s[0]) {
        trimmed_start(s.skip(1))
    } else {
        s
    }
}

/// A text without white space at its end.
pub open spec fn trimmed_end(s: Seq<char>) -> Seq<char>
    decreases s.len(),
{
    if s.len() > 0 && is_space(s.last()) {
        trimmed_end(s.drop_last())
    } else {
        s
    }
}

/// A text without white space at either end.
pub open spec fn trimmed(s: Seq<char>) -> Seq<char> {
    trimmed_end(trimmed_start(s))
}

fn is_white(c: char) -> (r: bool)
    ensures
        r == is_space(c),
{
    let v: u32 = c as u32;
    (0x09 <= v && v <= 0x0d) || v == 0x20 || v == 0x85 || v == 0xa0 || v == 0x1680 || (0x2000 <= v
        && v <= 0x200a) || v == 0x2028 || v == 0x2029 || v == 0x202f || v == 0x205f || v == 0x3000
}

/// The characters of a string without white space at either end.
pub fn trim_chars(s: &str) -> (r: Vec<char>)
    ensures
        r@ == trimmed(s@),
{
    let chars = chars_of(s);
    let mut from: usize = 0;
    assert(chars@.skip(0) =~= chars@);
    while from < chars.len() && is_white(chars[from])
        invariant
            from <= chars.len(),
            trimmed_start(chars@) == trimmed_start(chars@.skip(from as int)),
        decreases chars.len() - from,
    {
        assert(chars@.skip(from as int)[0] == chars@[from as int]);
        assert(chars@.skip(from as int).skip(1) =~= chars@.skip(from + 1));
        from += 1;
    }
    if from < chars.len() {
        assert(chars@.skip(from as int)[0] == chars@[from as int]);
    }
    assert(trimmed_start(chars@) == chars@.skip(from as int));
    let ghost kept = chars@.skip(from as int);
    let mut to: usize = chars.len();
    assert(kept =~= chars@.subrange(from as int, to as int));
    while to > from && is_white(chars[to - 1])
        invariant
            from <= to <= chars.len(),
            trimmed_end(kept) == trimmed_end(chars@.subrange(from as int, to as int)),
        decreases to,
    {
        assert(chars@.subrange(from as int, to as int).last() == chars@[to - 1]);
        assert(chars@.subrange(from as int, to as int).drop_last() =~= chars@.subrange(
            from as int,
            to - 1,
        ));
        to -= 1;
    }
    if to > from {
        assert(chars@.subrange(from as int, to as int).last() == chars@[to - 1]);
    }
    cut_chars(&chars, from, to)
}

/// A text with one character replaced by another.
pub open spec fn replaced(s: Seq<char>, from: char, to: char) -> Seq<char> {
    s.map_values(
        |c: char|
            if c == from {
                to
            } else {
                c
            },
    )
}

pub fn replace_chars(chars: &Vec<char>, from: char, to: char) -> (r: Vec<char>)
    ensures
        r@ == replaced(chars@, from, to),
{
    let mut out: Vec<char> = Vec::new();
    let mut i: usize = 0;
    while i < chars.len()
        invariant
            i <= chars.len(),
            out.len() == i,
            forall|j: int|
                0 <= j < i ==> #[trigger] out@[j] == (if chars@[j] == from {
                    to
                } else {
                    chars@[j]
                }),
        decreases chars.len() - i,
    {
        if chars[i] == from {
            out.push(to);
        } else {
            out.push(chars[i]);
        }
        i += 1;
    }
    assert(out@ =~= replaced(chars@, from, to));
    out
}

/// A string with one character replaced by another.
pub fn replace_in(s: &str, from: char, to: char) -> (r: String)
    ensures
        r@ == replaced(s@, from, to),
{
    let chars = chars_of(s);
    string_of(&replace_chars(&chars, from, to))
}

/// Appends a string.
pub fn push_text(out: &mut String, s: &str)
    ensures
        final(out)@ == old(out)@ + s@,
{
    let ghost before = out@;
    for c in it: s.chars()
        invariant
            it.seq() == s@,
            out@ == before + it.seq().take(it.index() as int),
    {
        push_char(out, c);
        assert(it.seq().take(it.index() + 1) =~= it.seq().take(it.index() as int).push(c));
        assert(out@ =~= before + it.seq().take(it.index() + 1));
    }
    assert(s@.take(s@.len() as int) =~= s@);
}

// ---------------------------------------------------------------------------
// Numbers
// ---------------------------------------------------------------------------

pub open spec fn is_digit(c: char) -> bool {
    0x30 <= c as u32 <= 0x39
}

/// Whether a text consists of decimal digits.
pub open spec fn all_digits(s: Seq<char>) -> bool {
    forall|i: int| 0 <= i < s.len() ==> is_digit(#[trigger] s[i])
}

/// The number that decimal digits stand for.
pub open spec fn decimal_value(s: Seq<char>) -> nat
    decreases s.len(),
{
    if s.len() == 0 {
        0
    } else {
        10 * decimal_value(s.drop_last()) + ((s.last() as u32 - 0x30) as nat)
    }
}

/// The 32-bit number that a text stands for: decimal digits, with at most a
/// plus sign before them.
pub open spec fn parsed_u32(s: Seq<char>) -> Option<u32> {
    let digits = if s.len() > 0 && s[0] == '+' {
        s.skip(1)
    } else {
        s
    };
    if digits.len() > 0 && all_digits(digits) && decimal_value(digits) <= u32::MAX {
        Some(decimal_value(digits) as u32)
    } else {
        None
    }
}

pub fn parse_u32(s: &Vec<char>) -> (r: Option<u32>)
    ensures
        r == parsed_u32(s@),
{
    let from: usize = if s.len() > 0 && s[0] == '+' {
        1
    } else {
        0
    };
    let ghost digits = s@.skip(from as int);
    assert(s@.skip(0) =~= s@);
    if from == s.len() {
        return None;
    }
    let mut value: u64 = 0;
    let mut over: bool = false;
    let mut i: usize = from;
    assert(digits.take(0) =~= Seq::<char>::empty());
    while i < s.len()
        invariant
            from <= i <= s.len(),
            from <= 1,
            digits == s@.skip(from as int),
            parsed_u32(s@) == if digits.len() > 0 && all_digits(digits) && decimal_value(digits)
                <= u32::MAX {
                Some(decimal_value(digits) as u32)
            } else {
                None
            },
            all_digits(digits.take(i - from)),
            value <= u32::MAX,
            over ==> decimal_value(digits.take(i - from)) > u32::MAX,
            !over ==> value == decimal_value(digits.take(i - from)),
        decreases s.len() - i,
    {
        let c: u32 = s[i] as u32;
        assert(digits[i - from] == s@[i as int]);
        if c < 0x30 || c > 0x39 {
            assert(!is_digit(digits[i - from]));
            return None;
        }
        let ghost now = digits.take(i - from + 1);
        assert(now.drop_last() =~= digits.take(i - from));
        assert(now.last() == digits[i - from]);
        assert(decimal_value(now) == 10 * decimal_value(digits.take(i - from)) + ((c - 0x30) as nat));
        let next: u64 = 10 * value + (c - 0x30) as u64;
        if next > 0xffff_ffff {
            over = true;
        }
        if !over {
            value = next;
        }
        assert forall|k: int| 0 <= k < now.len() implies is_digit(#[trigger] now[k]) by {
            if k < i - from {
                assert(digits.take(i - from)[k] == now[k]);
            }
        }
        i += 1;
    }
    assert(digits.take(i - from) =~= digits);
    if over {
        None
    } else {
        Some(value as u32)
    }
}

/// The character of a digit below sixteen.
pub open spec fn digit(d: int) -> char {
    if d < 10 {
        (0x30 + d) as char
    } else {
        (0x57 + d) as char
    }
}

/// A number in the given base, without leading zeros.
pub open spec fn number_text(n: nat, base: nat) -> Seq<char>
    decreases n,
{
    if base < 2 || n < base {
        seq![digit(n as int)]
    } else {
        proof {
            lemma_div_decreases(n as int, base as int);
        }
        number_text(n / base, base).push(digit((n % base) as int))
    }
}

/// A number in base ten.
pub open spec fn decimal(n: nat) -> Seq<char> {
    number_text(n, 10)
}

/// A number in base sixteen.
pub open spec fn hexadecimal(n: nat) -> Seq<char> {
    number_text(n, 16)
}

/// A text that is filled up with zeros at its start to the given length.
pub open spec fn zero_filled(s: Seq<char>, width: nat) -> Seq<char>
    decreases width - s.len(),
{
    if s.len() >= width {
        s
    } else {
        zero_filled(seq!['0'] + s, width)
    }
}

fn digit_char(d: u64) -> (r: char)
    requires
        d < 16,
    ensures
        r == digit(d as int),
{
    let code: u32 = if d < 10 {
        0x30 + d as u32
    } else {
        0x57 + d as u32
    };
    match char::from_u32(code) {
        Some(c) => c,
        None => '0',
    }
}

/// The digits of a number in base ten or sixteen, last digit first.
fn digits_of(n: u64, base: u64) -> (r: Vec<char>)
    requires
        base == 10 || base == 16,
    ensures
        r@.reverse() == number_text(n as nat, base as nat),
{
    let mut out: Vec<char> = Vec::new();
    let mut rest: u64 = n;
    assert(number_text(n as nat, base as nat) =~= number_text(rest as nat, base as nat)
        + out@.reverse());
    while rest >= base
        invariant
            base == 10 || base == 16,
            number_text(n as nat, base as nat) == number_text(rest as nat, base as nat)
                + out@.reverse(),
        decreases rest,
    {
        let ghost before = out@;
        let ghost whole = rest as nat;
        let d: u64 = rest % base;
        out.push(digit_char(d));
        rest = rest / base;
        assert(out@.reverse() =~= seq![digit(d as int)] + before.reverse());
        assert(number_text(whole, base as nat) == number_text(rest as nat, base as nat).push(
            digit(d as int),
        ));
        assert(number_text(rest as nat, base as nat).push(digit(d as int)) + before.reverse()
            =~= number_text(rest as nat, base as nat) + out@.reverse());
    }
    let ghost before = out@;
    out.push(digit_char(rest));
    assert(out@.reverse() =~= seq![digit(rest as int)] + before.reverse());
    out
}

/// Appends the characters of a list, last one first.
fn push_reversed(out: &mut String, chars: &Vec<char>)
    ensures
        final(out)@ == old(out)@ + chars@.reverse(),
{
    let ghost before = out@;
    let ghost all = chars@.reverse();
    let mut i: usize = chars.len();
    assert(out@ =~= before + all.take(0));
    while i > 0
        invariant
            i <= chars.len(),
            all == chars@.reverse(),
            out@ == before + all.take(chars@.len() - i),
        decreases i,
    {
        i -= 1;
        assert(all[chars@.len() - 1 - i] == chars@[i as int]);
        push_char(out, chars[i]);
        assert(all.take(chars@.len() - i) =~= all.take(chars@.len() - i - 1).push(chars@[i as int]));
        assert(out@ =~= before + all.take(chars@.len() - i));
    }
    assert(all.take(chars@.len() as int) =~= all);
}

/// Appends a number in base ten.
pub fn push_decimal(out: &mut String, n: u64)
    ensures
        final(out)@ == old(out)@ + decimal(n as nat),
{
    let digits = digits_of(n, 10);
    push_reversed(out, &digits);
}

/// Appends a number in base sixteen, filled up with zeros to `width`.
pub fn push_hex(out: &mut String, n: u64, width: usize)
    ensures
        final(out)@ == old(out)@ + zero_filled(hexadecimal(n as nat), width as nat),
{
    let mut digits = digits_of(n, 16);
    let ghost first = hexadecimal(n as nat);
    while digits.len() < width
        invariant
            zero_filled(first, width as nat) == zero_filled(digits@.reverse(), width as nat),
        decreases width - digits.len(),
    {
        let ghost before = digits@;
        digits.push('0');
        assert(digits@.reverse() =~= seq!['0'] + before.reverse());
    }
    push_reversed(out, &digits);
}

} // verus!
