//! Modified UTF-8, the spelling of texts in a DEX file.
use vstd::prelude::*;

use crate::dex_format::{is_lead, is_trail, mutf8_text, mutf8_unit, mutf8_units, utf16_text};

verus! {

/// The UTF-16 code units of a character.
pub open spec fn char_units(c: char) -> Seq<u16> {
    let v = c as u32;
    if v <= 0xffff {
        seq![v as u16]
    } else {
        seq![
            (0xd800 + (v - 0x1_0000) / 0x400) as u16,
            (0xdc00 + (v - 0x1_0000) % 0x400) as u16,
        ]
    }
}

/// How one code unit is spelled: in one byte where it has seven bits and is not
/// zero, in two where it has eleven, and else in three.
pub open spec fn spelled_unit(u: u16) -> Seq<u8> {
    if 0 < u < 0x80 {
        seq![u as u8]
    } else if u < 0x800 {
        seq![(0xc0 + u / 0x40) as u8, (0x80 + u % 0x40) as u8]
    } else {
        seq![
            (0xe0 + u / 0x1000) as u8,
            (0x80 + (u / 0x40) % 0x40) as u8,
            (0x80 + u % 0x40) as u8,
        ]
    }
}

pub open spec fn spelled_units(units: Seq<u16>) -> Seq<u8>
    decreases units.len(),
{
    if units.len() == 0 {
        Seq::empty()
    } else {
        spelled_unit(units[0]) + spelled_units(units.skip(1))
    }
}

pub open spec fn text_units(text: Seq<char>) -> Seq<u16>
    decreases text.len(),
{
    if text.len() == 0 {
        Seq::empty()
    } else {
        char_units(text[0]) + text_units(text.skip(1))
    }
}

/// How a text is spelled in a DEX file.
pub open spec fn spelled(text: Seq<char>) -> Seq<u8> {
    spelled_units(text_units(text))
}

proof fn lemma_unit(data: Seq<u8>, at: int, u: u16)
    requires
        0 <= at,
        at + spelled_unit(u).len() <= data.len(),
        forall|i: int|
            0 <= i < spelled_unit(u).len() ==> data[at + i] == #[trigger] spelled_unit(u)[i],
    ensures
        mutf8_unit(data, at) == (u, spelled_unit(u).len() as int),
{
    let s = spelled_unit(u);
    assert(data[at] == s[0]);
    if !(0 < u < 0x80) {
        assert(data[at + 1] == s[1]);
        if u >= 0x800 {
            assert(data[at + 2] == s[2]);
        }
    }
}

proof fn lemma_units_back(data: Seq<u8>, at: int, units: Seq<u16>)
    requires
        0 <= at <= data.len(),
        data.skip(at) == spelled_units(units),
    ensures
        mutf8_units(data, at) == units,
    decreases units.len(),
{
    if units.len() == 0 {
        assert(data.skip(at).len() == 0);
        assert(mutf8_units(data, at) =~= units);
    } else {
        let s = spelled_unit(units[0]);
        let rest = spelled_units(units.skip(1));
        assert(data.skip(at) == s + rest);
        assert(data.len() - at == s.len() + rest.len());
        assert forall|i: int| 0 <= i < s.len() implies data[at + i] == #[trigger] s[i] by {
            assert(data.skip(at)[i] == data[at + i]);
            assert((s + rest)[i] == s[i]);
        }
        lemma_unit(data, at, units[0]);
        let n = s.len() as int;
        assert(data.skip(at + n) =~= rest) by {
            assert forall|i: int| 0 <= i < rest.len() implies data.skip(at + n)[i] == rest[i] by {
                assert(data.skip(at)[n + i] == (s + rest)[n + i]);
            }
        }
        lemma_units_back(data, at + n, units.skip(1));
        assert(mutf8_units(data, at) =~= seq![units[0]] + units.skip(1));
        assert(seq![units[0]] + units.skip(1) =~= units);
    }
}

proof fn lemma_char(c: char)
    ensures
        ({
            let u = char_units(c);
            &&& u.len() == 1 ==> !is_lead(u[0]) && !is_trail(u[0]) && u[0] as char == c
            &&& u.len() == 2 ==> is_lead(u[0]) && is_trail(u[1]) && (0x1_0000 + (u[0] - 0xd800)
                * 0x400 + (u[1] - 0xdc00)) as char == c
            &&& u.len() == 1 || u.len() == 2
        }),
{
    let v = c as u32;
    vstd::utf8::char_is_scalar(c);
    vstd::utf8::char_u32_cast(c, v);
    if v > 0xffff {
        let u = char_units(c);
        assert(0x1_0000 + (u[0] - 0xd800) * 0x400 + (u[1] - 0xdc00) == v);
    }
}

proof fn lemma_text_back(units: Seq<u16>, at: int, text: Seq<char>)
    requires
        0 <= at <= units.len(),
        units.skip(at) == text_units(text),
    ensures
        utf16_text(units, at) == text,
    decreases text.len(),
{
    if text.len() == 0 {
        assert(units.skip(at).len() == 0);
        assert(utf16_text(units, at) =~= text);
    } else {
        let u = char_units(text[0]);
        let rest = text_units(text.skip(1));
        lemma_char(text[0]);
        assert(units.skip(at) == u + rest);
        assert(units.len() - at == u.len() + rest.len());
        assert(units[at] == u[0]) by {
            assert(units.skip(at)[0] == units[at]);
        }
        if u.len() == 2 {
            assert(units[at + 1] == u[1]) by {
                assert(units.skip(at)[1] == units[at + 1]);
            }
        }
        let n = u.len() as int;
        assert(units.skip(at + n) =~= rest) by {
            assert forall|i: int| 0 <= i < rest.len() implies units.skip(at + n)[i] == rest[i] by {
                assert(units.skip(at)[n + i] == (u + rest)[n + i]);
            }
        }
        lemma_text_back(units, at + n, text.skip(1));
        assert(utf16_text(units, at) =~= seq![text[0]] + text.skip(1));
        assert(seq![text[0]] + text.skip(1) =~= text);
    }
}

/// Every text reads back as itself from its spelling.
pub proof fn lemma_spelled(text: Seq<char>)
    ensures
        mutf8_text(spelled(text)) == text,
{
    let units = text_units(text);
    let bytes = spelled(text);
    assert(bytes.skip(0) =~= bytes);
    lemma_units_back(bytes, 0, units);
    assert(units.skip(0) =~= units);
    lemma_text_back(units, 0, text);
}

/// A spelling has no zero byte, so that one can end it.
pub proof fn lemma_spelled_bytes(text: Seq<char>)
    ensures
        forall|i: int| 0 <= i < spelled(text).len() ==> spelled(text)[i] != 0,
{
    lemma_no_zero(text_units(text));
}

proof fn lemma_no_zero(units: Seq<u16>)
    ensures
        forall|i: int| 0 <= i < spelled_units(units).len() ==> spelled_units(units)[i] != 0,
    decreases units.len(),
{
    if units.len() > 0 {
        lemma_no_zero(units.skip(1));
        let s = spelled_unit(units[0]);
        let rest = spelled_units(units.skip(1));
        assert forall|i: int| 0 <= i < s.len() implies s[i] != 0 by {}
        let all = spelled_units(units);
        assert forall|i: int| 0 <= i < all.len() implies all[i] != 0 by {
            if i < s.len() {
                assert(all[i] == s[i]);
            } else {
                assert(all[i] == rest[i - s.len()]);
            }
        }
    }
}

/// Texts with the same spelling are the same.
pub proof fn lemma_spellings_apart(a: Seq<char>, b: Seq<char>)
    requires
        spelled(a) == spelled(b),
    ensures
        a == b,
{
    lemma_spelled(a);
    lemma_spelled(b);
}

} // verus!
