//! Texts read back: what a number, a search, a cut or a replacement says of the
//! text it came from.
use vstd::arithmetic::div_mod::{lemma_div_decreases, lemma_fundamental_div_mod};
use vstd::prelude::*;

use crate::text::{
    all_digits, decimal, decimal_value, digit, ends_with, found_at, hexadecimal, is_digit, is_space,
    number_text, occurs, parsed_u32, replaced, starts_with, trimmed, trimmed_end, trimmed_start,
    zero_filled,
};

verus! {

// ---------------------------------------------------------------------------
// Numbers
// ---------------------------------------------------------------------------

/// The value of a digit of a hexadecimal number, if the character is one.
pub open spec fn value_of(c: char) -> Option<nat> {
    if '0' <= c && c <= '9' {
        Some((c as u32 - '0' as u32) as nat)
    } else if 'a' <= c && c <= 'f' {
        Some((c as u32 - 'a' as u32 + 10) as nat)
    } else {
        None
    }
}

/// The number that digits stand for in a base, highest digit first; nothing
/// where a character is no digit of that base.
pub open spec fn number_read(s: Seq<char>, base: nat) -> Option<nat>
    decreases s.len(),
{
    if s.len() == 0 {
        Some(0)
    } else {
        match (number_read(s.drop_last(), base), value_of(s.last())) {
            (Some(high), Some(low)) => if low < base {
                Some(base * high + low)
            } else {
                None
            },
            _ => None,
        }
    }
}

proof fn lemma_digit_value(d: int)
    requires
        0 <= d < 16,
    ensures
        value_of(digit(d)) == Some(d as nat),
        digit(d) == '0' <==> d == 0,
        d < 10 ==> is_digit(digit(d)) && digit(d) as u32 == 0x30 + d,
{
}

/// A number that is written in base ten or sixteen reads back as itself, and
/// starts with a zero only where it is zero.
pub proof fn lemma_number_read(n: nat, base: nat)
    requires
        base == 10 || base == 16,
    ensures
        number_read(number_text(n, base), base) == Some(n),
        number_text(n, base).len() > 0,
        number_text(n, base)[0] == '0' <==> n == 0,
    decreases n,
{
    let s = number_text(n, base);
    if n < base {
        lemma_digit_value(n as int);
        assert(s.drop_last() =~= Seq::<char>::empty());
        assert(number_read(s.drop_last(), base) == Some(0nat));
        assert(base * 0 == 0) by (nonlinear_arith);
    } else {
        lemma_div_decreases(n as int, base as int);
        lemma_number_read(n / base, base);
        lemma_fundamental_div_mod(n as int, base as int);
        lemma_digit_value((n % base) as int);
        assert(n / base > 0) by (nonlinear_arith)
            requires
                n >= base,
                base > 0,
        ;
        assert(s.drop_last() =~= number_text(n / base, base));
        assert(s[0] == number_text(n / base, base)[0]);
    }
}

/// Two numbers that are written alike are equal.
pub proof fn lemma_numbers_apart(a: nat, b: nat)
    ensures
        decimal(a) == decimal(b) ==> a == b,
        hexadecimal(a) == hexadecimal(b) ==> a == b,
{
    lemma_number_read(a, 10);
    lemma_number_read(b, 10);
    lemma_number_read(a, 16);
    lemma_number_read(b, 16);
}

proof fn lemma_zero_before(s: Seq<char>, base: nat)
    requires
        base == 10 || base == 16,
    ensures
        number_read(seq!['0'] + s, base) == number_read(s, base),
    decreases s.len(),
{
    let t = seq!['0'] + s;
    if s.len() == 0 {
        assert(t.drop_last() =~= Seq::<char>::empty());
        assert(number_read(t.drop_last(), base) == Some(0nat));
        assert(base * 0 == 0) by (nonlinear_arith);
    } else {
        assert(t.drop_last() =~= seq!['0'] + s.drop_last());
        assert(t.last() == s.last());
        lemma_zero_before(s.drop_last(), base);
    }
}

/// Filling up with zeros keeps the number and what was there at its end, and
/// gives the width asked for, unless the text is longer.
pub proof fn lemma_zero_filled(s: Seq<char>, width: nat)
    ensures
        zero_filled(s, width).len() == if s.len() < width {
            width
        } else {
            s.len()
        },
        zero_filled(s, width).skip(zero_filled(s, width).len() - s.len()) == s,
        forall|i: int|
            0 <= i < zero_filled(s, width).len() - s.len() ==> zero_filled(s, width)[i] == '0',
        number_read(zero_filled(s, width), 16) == number_read(s, 16),
    decreases width - s.len(),
{
    if s.len() < width {
        let t = seq!['0'] + s;
        lemma_zero_filled(t, width);
        lemma_zero_before(s, 16);
        let out = zero_filled(s, width);
        let n = out.len() - s.len();
        assert(out.skip(n) =~= s) by {
            assert forall|i: int| 0 <= i < s.len() implies out.skip(n)[i] == s[i] by {
                assert(out.skip(n - 1)[i + 1] == t[i + 1]);
            }
        }
        assert forall|i: int| 0 <= i < n implies out[i] == '0' by {
            if i == n - 1 {
                assert(out.skip(n - 1)[0] == t[0]);
            }
        }
    } else {
        assert(s.skip(0) =~= s);
    }
}

/// A 32-bit number that is written in base ten is parsed as itself, with or
/// without a plus sign.
pub proof fn lemma_parsed_back(n: u32)
    ensures
        parsed_u32(decimal(n as nat)) == Some(n),
        parsed_u32(seq!['+'] + decimal(n as nat)) == Some(n),
{
    lemma_decimal_value(n as nat);
    lemma_number_read(n as nat, 10);
    let s = decimal(n as nat);
    assert(is_digit(s[0]));
    assert((seq!['+'] + s).skip(1) =~= s);
}

proof fn lemma_decimal_value(n: nat)
    ensures
        all_digits(decimal(n)),
        decimal_value(decimal(n)) == n,
    decreases n,
{
    let s = decimal(n);
    if n < 10 {
        lemma_digit_value(n as int);
        assert(s.drop_last() =~= Seq::<char>::empty());
        assert(decimal_value(s.drop_last()) == 0);
    } else {
        lemma_decimal_value(n / 10);
        lemma_digit_value((n % 10) as int);
        assert(s.drop_last() =~= decimal(n / 10));
        assert forall|i: int| 0 <= i < s.len() implies is_digit(#[trigger] s[i]) by {
            if i < s.len() - 1 {
                assert(s[i] == decimal(n / 10)[i]);
            }
        }
    }
}

/// What is parsed is the number that the digits stand for; a text with anything
/// else in it, or without a digit, is not parsed.
pub proof fn lemma_parsed_digits(s: Seq<char>)
    ensures
        parsed_u32(s) matches Some(n) ==> {
            ||| number_read(s, 10) == Some(n as nat) && s.len() > 0
            ||| s.len() > 1 && s[0] == '+' && number_read(s.skip(1), 10) == Some(n as nat)
        },
        s.len() > 0 && (number_read(s, 10) matches Some(n) && n <= u32::MAX) ==> parsed_u32(s)
            is Some,
{
    let digits = if s.len() > 0 && s[0] == '+' {
        s.skip(1)
    } else {
        s
    };
    lemma_digits_read(digits);
    lemma_digits_read(s);
    if s.len() > 0 && number_read(s, 10) is Some {
        assert(is_digit(s[0]));
    }
}

proof fn lemma_decimal_digit(c: char)
    ensures
        is_digit(c) <==> value_of(c) is Some && value_of(c)->Some_0 < 10,
        is_digit(c) ==> value_of(c) == Some((c as u32 - 0x30) as nat),
{
}

proof fn lemma_digits_read(s: Seq<char>)
    ensures
        all_digits(s) <==> number_read(s, 10) is Some,
        all_digits(s) ==> number_read(s, 10) == Some(decimal_value(s)),
    decreases s.len(),
{
    if s.len() > 0 {
        let t = s.drop_last();
        lemma_digits_read(t);
        lemma_decimal_digit(s.last());
        if all_digits(s) {
            assert(is_digit(s[s.len() - 1]));
            assert forall|i: int| 0 <= i < t.len() implies is_digit(#[trigger] t[i]) by {
                assert(t[i] == s[i]);
            }
            assert(number_read(t, 10) == Some(decimal_value(t)));
            assert(number_read(s, 10) == Some(10 * decimal_value(t) + (s.last() as u32
                - 0x30) as nat));
        } else if number_read(s, 10) is Some {
            assert(is_digit(s.last()));
            assert forall|i: int| 0 <= i < s.len() implies is_digit(#[trigger] s[i]) by {
                if i < t.len() {
                    assert(t[i] == s[i]);
                }
            }
        }
    }
}

// ---------------------------------------------------------------------------
// Parts
// ---------------------------------------------------------------------------

/// A part occurs in a text exactly where the text is something, the part, and
/// something again.
pub proof fn lemma_occurs_between(text: Seq<char>, part: Seq<char>)
    ensures
        occurs(text, part) <==> exists|before: Seq<char>, after: Seq<char>|
            text == #[trigger] (before + part + after),
{
    if occurs(text, part) {
        let at = choose|at: int| found_at(text, part, at);
        let before = text.take(at);
        let after = text.skip(at + part.len());
        assert(text =~= before + part + after);
    }
    if exists|before: Seq<char>, after: Seq<char>| text == #[trigger] (before + part + after) {
        let (before, after) = choose|before: Seq<char>, after: Seq<char>|
            text == #[trigger] (before + part + after);
        lemma_part_occurs(before, part, after);
    }
}

/// Whatever stands around it, a part occurs.
pub proof fn lemma_part_occurs(before: Seq<char>, part: Seq<char>, after: Seq<char>)
    ensures
        occurs(before + part + after, part),
{
    let text = before + part + after;
    let at = before.len() as int;
    assert(text.subrange(at, at + part.len()) =~= part);
    assert(found_at(text, part, at));
}

/// A text starts with a part exactly where something can be put behind the part
/// to make the text, and likewise at its end.
pub proof fn lemma_at_either_end(text: Seq<char>, part: Seq<char>)
    ensures
        starts_with(text, part) <==> exists|after: Seq<char>| text == #[trigger] (part + after),
        ends_with(text, part) <==> exists|before: Seq<char>| text == #[trigger] (before + part),
{
    if starts_with(text, part) {
        assert(text =~= part + text.skip(part.len() as int));
    }
    if exists|after: Seq<char>| text == #[trigger] (part + after) {
        let after = choose|after: Seq<char>| text == #[trigger] (part + after);
        assert(text.subrange(0, part.len() as int) =~= part);
    }
    if ends_with(text, part) {
        assert(text =~= text.take(text.len() - part.len()) + part);
    }
    if exists|before: Seq<char>| text == #[trigger] (before + part) {
        let before = choose|before: Seq<char>| text == #[trigger] (before + part);
        assert(text.subrange(text.len() - part.len(), text.len() as int) =~= part);
    }
}

// ---------------------------------------------------------------------------
// Trimming and replacing
// ---------------------------------------------------------------------------

/// Whether a text is white space throughout.
pub open spec fn all_space(s: Seq<char>) -> bool {
    forall|i: int| 0 <= i < s.len() ==> is_space(#[trigger] s[i])
}

/// Of the characters below 128, tabs, line ends and spaces are white space, and
/// no visible character is.
pub proof fn lemma_ascii_space(c: char)
    requires
        (c as u32) < 0x80,
    ensures
        is_space(c) <==> c == ' ' || c == '\t' || c == '\n' || c == '\r' || c as u32 == 0x0b
            || c as u32 == 0x0c,
{
}

/// A trimmed text is the text without white space before and behind it, and
/// neither starts nor ends with white space.
pub proof fn lemma_trimmed(s: Seq<char>)
    ensures
        exists|before: Seq<char>, after: Seq<char>|
            all_space(before) && all_space(after) && s == #[trigger] (before + trimmed(s) + after),
        trimmed(s).len() > 0 ==> !is_space(trimmed(s)[0]) && !is_space(trimmed(s).last()),
{
    let middle = trimmed_start(s);
    lemma_trimmed_start(s);
    let before = choose|before: Seq<char>| all_space(before) && s == #[trigger] (before + middle);
    lemma_trimmed_end(middle);
    let after = choose|after: Seq<char>|
        all_space(after) && middle == #[trigger] (trimmed_end(middle) + after);
    assert(s =~= before + trimmed(s) + after);
    if trimmed(s).len() > 0 {
        assert(trimmed(s)[0] == middle[0]);
    }
}

/// A text that has no white space at its ends is not changed by trimming.
pub proof fn lemma_trimmed_same(s: Seq<char>)
    requires
        s.len() > 0 ==> !is_space(s[0]) && !is_space(s.last()),
    ensures
        trimmed(s) == s,
{
}

proof fn lemma_trimmed_start(s: Seq<char>)
    ensures
        exists|before: Seq<char>| all_space(before) && s == #[trigger] (before + trimmed_start(s)),
        trimmed_start(s).len() > 0 ==> !is_space(trimmed_start(s)[0]),
    decreases s.len(),
{
    if s.len() > 0 && is_space(s[0]) {
        let t = s.skip(1);
        lemma_trimmed_start(t);
        let before = choose|before: Seq<char>|
            all_space(before) && t == #[trigger] (before + trimmed_start(t));
        let more = seq![s[0]] + before;
        assert forall|i: int| 0 <= i < more.len() implies is_space(#[trigger] more[i]) by {
            if i > 0 {
                assert(more[i] == before[i - 1]);
            }
        }
        assert(s =~= more + trimmed_start(s)) by {
            assert(s =~= seq![s[0]] + t);
        }
    } else {
        assert(all_space(Seq::<char>::empty()));
        assert(s =~= Seq::<char>::empty() + trimmed_start(s));
    }
}

proof fn lemma_trimmed_end(s: Seq<char>)
    ensures
        exists|after: Seq<char>| all_space(after) && s == #[trigger] (trimmed_end(s) + after),
        trimmed_end(s).len() > 0 ==> !is_space(trimmed_end(s).last()) && trimmed_end(s)[0] == s[0],
    decreases s.len(),
{
    if s.len() > 0 && is_space(s.last()) {
        let t = s.drop_last();
        lemma_trimmed_end(t);
        let after = choose|after: Seq<char>|
            all_space(after) && t == #[trigger] (trimmed_end(t) + after);
        let more = after.push(s.last());
        assert forall|i: int| 0 <= i < more.len() implies is_space(#[trigger] more[i]) by {
            if i < after.len() {
                assert(more[i] == after[i]);
            }
        }
        assert(s =~= trimmed_end(s) + more) by {
            assert(s =~= t.push(s.last()));
        }
    } else {
        assert(all_space(Seq::<char>::empty()));
        assert(s =~= trimmed_end(s) + Seq::<char>::empty());
    }
}

/// Replacing changes each occurrence of one character, at its place, and no
/// other character; done twice it changes nothing more.
pub proof fn lemma_replaced(s: Seq<char>, from: char, to: char)
    ensures
        replaced(s, from, to).len() == s.len(),
        forall|i: int|
            0 <= i < s.len() && s[i] == from ==> #[trigger] replaced(s, from, to)[i] == to,
        forall|i: int|
            0 <= i < s.len() && s[i] != from ==> #[trigger] replaced(s, from, to)[i] == s[i],
        from != to ==> !replaced(s, from, to).contains(from),
        !s.contains(from) ==> replaced(s, from, to) == s,
{
    if from != to && replaced(s, from, to).contains(from) {
        let i = choose|i: int| 0 <= i < s.len() && replaced(s, from, to)[i] == from;
        assert(false);
    }
    if !s.contains(from) {
        assert(replaced(s, from, to) =~= s);
    }
}

} // verus!
