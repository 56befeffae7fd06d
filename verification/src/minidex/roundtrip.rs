//! What was written reads back as itself: texts, words and type lists.
use vstd::prelude::*;
use vstd::utf8::encode_utf8;

use crate::collections::low32;
use crate::dex_format::{
    le16, le32, list_entry_in, list_reader, mutf8_text, mutf8_unit, mutf8_units, type_list_in,
    u32_in, uleb_in, utf16_of, utf16_of_char, utf16_text, zero_from,
};
use crate::error::Error;
use crate::minidex::bytecode::unit_bytes;
use crate::minidex::emit::{le32_bytes, mutf8_of, mutf8_of_unit, string_bytes};
use crate::minidex::leb::{lemma_uleb_round_trip, stands_at, uleb_bytes};
use crate::minidex::sections::{type_list_bytes, words_bytes};
use crate::results::collect;

verus! {

// ---------------------------------------------------------------------------
// UTF-16
// ---------------------------------------------------------------------------

proof fn lemma_utf16_front(c: char, rest: Seq<char>)
    ensures
        utf16_of(seq![c] + rest) == utf16_of_char(c) + utf16_of(rest),
    decreases rest.len(),
{
    let whole = seq![c] + rest;
    if rest.len() == 0 {
        assert(whole.drop_last() =~= Seq::<char>::empty());
        assert(whole.last() == c);
        assert(utf16_of(whole.drop_last()) =~= Seq::<u16>::empty());
        assert(utf16_of(rest) =~= Seq::<u16>::empty());
        assert(utf16_of(whole) =~= utf16_of_char(c) + utf16_of(rest));
    } else {
        assert(whole.drop_last() =~= seq![c] + rest.drop_last());
        assert(whole.last() == rest.last());
        lemma_utf16_front(c, rest.drop_last());
        assert(utf16_of(whole) =~= utf16_of_char(c) + utf16_of(rest));
    }
}

proof fn lemma_utf16_shift(units: Seq<u16>, at: int, k: int)
    requires
        0 <= at,
        0 <= k <= units.len(),
    ensures
        utf16_text(units, k + at) == utf16_text(units.skip(k), at),
    decreases units.len() - k - at,
{
    let tail = units.skip(k);
    if k + at < units.len() {
        assert(tail[at] == units[k + at]);
        if at + 1 < tail.len() {
            assert(tail[at + 1] == units[k + at + 1]);
        }
        lemma_utf16_shift(units, at + 1, k);
        if k + at + 1 < units.len() {
            lemma_utf16_shift(units, at + 2, k);
        }
    }
}

/// A text that was turned into UTF-16 units reads back as itself.
pub proof fn lemma_utf16_round_trip(text: Seq<char>)
    ensures
        utf16_text(utf16_of(text), 0) == text,
    decreases text.len(),
{
    if text.len() > 0 {
        let c = text[0];
        let rest = text.skip(1);
        let head = utf16_of_char(c);
        let tail = utf16_of(rest);
        let units = utf16_of(text);
        assert(text =~= seq![c] + rest);
        lemma_utf16_front(c, rest);
        lemma_utf16_round_trip(rest);
        assert(units =~= head + tail);
        vstd::utf8::char_is_scalar(c);
        vstd::utf8::char_u32_cast(c, c as u32);
        let v = c as u32;
        if v < 0x1_0000 {
            assert(units[0] == v as u16);
            lemma_utf16_shift(units, 0, 1);
            assert(units.skip(1) =~= tail);
            assert(units[0] as char == c);
            assert(utf16_text(units, 0) =~= seq![c] + utf16_text(tail, 0));
        } else {
            assert(units[0] == (0xd800 + (v - 0x1_0000) / 0x400) as u16);
            assert(units[1] == (0xdc00 + (v - 0x1_0000) % 0x400) as u16);
            lemma_utf16_shift(units, 0, 2);
            assert(units.skip(2) =~= tail);
            assert(0x1_0000 + (units[0] - 0xd800) * 0x400 + (units[1] - 0xdc00) == v);
            assert(utf16_text(units, 0) =~= seq![c] + utf16_text(tail, 0));
        }
    }
}

// ---------------------------------------------------------------------------
// Modified UTF-8
// ---------------------------------------------------------------------------

proof fn lemma_mutf8_front(u: u16, rest: Seq<u16>)
    ensures
        mutf8_of(seq![u] + rest) == mutf8_of_unit(u) + mutf8_of(rest),
    decreases rest.len(),
{
    let whole = seq![u] + rest;
    if rest.len() == 0 {
        assert(whole.drop_last() =~= Seq::<u16>::empty());
        assert(whole.last() == u);
        assert(mutf8_of(whole.drop_last()) =~= Seq::<u8>::empty());
        assert(mutf8_of(rest) =~= Seq::<u8>::empty());
        assert(mutf8_of(whole) =~= mutf8_of_unit(u) + mutf8_of(rest));
    } else {
        assert(whole.drop_last() =~= seq![u] + rest.drop_last());
        assert(whole.last() == rest.last());
        lemma_mutf8_front(u, rest.drop_last());
        assert(mutf8_of(whole) =~= mutf8_of_unit(u) + mutf8_of(rest));
    }
}

proof fn lemma_mutf8_shift(data: Seq<u8>, at: int, k: int)
    requires
        0 <= at,
        0 <= k <= data.len(),
    ensures
        mutf8_units(data, k + at) == mutf8_units(data.skip(k), at),
    decreases data.len() - k - at,
{
    let tail = data.skip(k);
    if k + at < data.len() {
        assert(tail[at] == data[k + at]);
        if at + 1 < tail.len() {
            assert(tail[at + 1] == data[k + at + 1]);
        }
        if at + 2 < tail.len() {
            assert(tail[at + 2] == data[k + at + 2]);
        }
        let width = mutf8_unit(tail, at).1;
        assert(mutf8_unit(data, k + at) == mutf8_unit(tail, at));
        lemma_mutf8_shift(data, at + width, k);
    }
}

proof fn lemma_first_unit(u: u16, tail: Seq<u8>)
    ensures
        mutf8_unit(mutf8_of_unit(u) + tail, 0) == (u, mutf8_of_unit(u).len() as int),
        forall|i: int| 0 <= i < mutf8_of_unit(u).len() ==> #[trigger] mutf8_of_unit(u)[i] != 0,
{
    let head = mutf8_of_unit(u);
    let data = head + tail;
    assert(data[0] == head[0]);
    if u == 0 {
        assert(data[1] == head[1]);
    } else if u < 0x80 {
    } else if u < 0x800 {
        assert(data[1] == head[1]);
        assert(head[0] % 32 == u / 64);
        assert(head[1] % 64 == u % 64);
    } else {
        assert(data[1] == head[1]);
        assert(data[2] == head[2]);
        assert(head[0] % 16 == u / 4096);
        assert(head[1] % 64 == u / 64 % 64);
        assert(head[2] % 64 == u % 64);
    }
}

/// Units that were written in modified UTF-8 read back as themselves, and no
/// zero byte is among what was written.
pub proof fn lemma_mutf8_round_trip(units: Seq<u16>)
    ensures
        mutf8_units(mutf8_of(units), 0) == units,
        forall|i: int| 0 <= i < mutf8_of(units).len() ==> #[trigger] mutf8_of(units)[i] != 0,
    decreases units.len(),
{
    if units.len() > 0 {
        let u = units[0];
        let rest = units.skip(1);
        let head = mutf8_of_unit(u);
        let tail = mutf8_of(rest);
        let data = mutf8_of(units);
        assert(units =~= seq![u] + rest);
        lemma_mutf8_front(u, rest);
        lemma_mutf8_round_trip(rest);
        assert(data =~= head + tail);
        let n = head.len() as int;
        lemma_mutf8_shift(data, 0, n);
        assert(data.skip(n) =~= tail);
        lemma_first_unit(u, tail);
        assert(mutf8_units(data, 0) =~= seq![u] + mutf8_units(tail, 0));
        assert forall|i: int| 0 <= i < data.len() implies #[trigger] data[i] != 0 by {
            if i < n {
                assert(data[i] == head[i]);
            } else {
                assert(data[i] == tail[i - n]);
            }
        }
    }
}

/// A text that was written in modified UTF-8 reads back as itself.
pub proof fn lemma_text_round_trip(text: Seq<char>)
    ensures
        mutf8_text(mutf8_of(utf16_of(text))) == text,
{
    lemma_mutf8_round_trip(utf16_of(text));
    lemma_utf16_round_trip(text);
}

/// Whether a text holds neither NUL nor a character beyond the first plane.
/// Such a text has the same form in UTF-8 and in modified UTF-8.
pub open spec fn is_plain(text: Seq<char>) -> bool {
    forall|i: int| 0 <= i < text.len() ==> 0 < (#[trigger] text[i]) as u32 && text[i] as u32 <= 0xffff
}

proof fn lemma_scalar_bytes(v: u32)
    by (bit_vector)
    requires
        0 < v <= 0xffff,
    ensures
        v < 0x80 ==> (v & 0x7f) as u8 == v as u8,
        0x80 <= v < 0x800 ==> (0xc0u8 | ((v >> 6) & 0x1f) as u8) == (0xc0 + v / 64) as u8,
        0x800 <= v ==> (0xe0u8 | ((v >> 12) & 0x0f) as u8) == (0xe0 + v / 4096) as u8,
        (0x80u8 | ((v >> 6) & 0x3f) as u8) == (0x80 + v / 64 % 64) as u8,
        (0x80u8 | (v & 0x3f) as u8) == (0x80 + v % 64) as u8,
{
}

/// UTF-8 and modified UTF-8 spell a plain text with the same bytes.
pub proof fn lemma_plain_form(text: Seq<char>)
    requires
        is_plain(text),
    ensures
        encode_utf8(text) == mutf8_of(utf16_of(text)),
    decreases text.len(),
{
    if text.len() > 0 {
        let c = text[0];
        let rest = text.drop_first();
        let v = c as u32;
        assert(text =~= seq![c] + rest);
        assert forall|i: int| 0 <= i < rest.len() implies 0 < (#[trigger] rest[i]) as u32
            && rest[i] as u32 <= 0xffff by {
            assert(rest[i] == text[i + 1]);
        }
        lemma_plain_form(rest);
        lemma_utf16_front(c, rest);
        vstd::utf8::char_is_scalar(c);
        let u = v as u16;
        assert(utf16_of_char(c) =~= seq![u]);
        lemma_mutf8_front(u, utf16_of(rest));
        lemma_scalar_bytes(v);
        assert(vstd::utf8::encode_scalar(v) =~= mutf8_of_unit(u));
    } else {
        assert(encode_utf8(text) =~= mutf8_of(utf16_of(text)));
    }
}

proof fn lemma_zero_found(data: Seq<u8>, at: int, end: int)
    requires
        0 <= at <= end < data.len(),
        data[end] == 0,
        forall|i: int| at <= i < end ==> #[trigger] data[i] != 0,
    ensures
        zero_from(data, at) == Some(end),
    decreases end - at,
{
    if at < end {
        lemma_zero_found(data, at + 1, end);
    }
}

/// A string item that stands in a file reads back as its text.
pub proof fn lemma_string_round_trip(data: Seq<u8>, at: int, text: Seq<char>)
    requires
        stands_at(data, at, string_bytes(text)),
    ensures
        uleb_in(data, at) is Ok,
        zero_from(data, uleb_in(data, at)->Ok_0.1) is Some,
        mutf8_text(
            data.subrange(
                uleb_in(data, at)->Ok_0.1,
                zero_from(data, uleb_in(data, at)->Ok_0.1)->Some_0,
            ),
        ) == text,
{
    let size = low32(utf16_of(text).len() as int);
    let head = uleb_bytes(size);
    let chars = mutf8_of(utf16_of(text));
    let whole = string_bytes(text);
    assert(whole =~= head + chars + seq![0u8]);
    assert(stands_at(data, at, head)) by {
        assert forall|i: int| 0 <= i < head.len() implies data[at + i] == #[trigger] head[i] by {
            assert(whole[i] == head[i]);
        }
    }
    lemma_uleb_round_trip(data, at, size);
    let start = at + head.len();
    let end = start + chars.len();
    lemma_mutf8_round_trip(utf16_of(text));
    assert forall|i: int| start <= i < end implies #[trigger] data[i] != 0 by {
        let k = i - at;
        assert(data[at + k] == whole[k]);
        assert(whole[k] == chars[i - start]);
    }
    assert(data[end] == 0) by {
        let k = head.len() + chars.len();
        assert(data[at + k] == whole[k as int]);
    }
    lemma_zero_found(data, start, end);
    assert(data.subrange(start, end) =~= chars) by {
        assert forall|i: int| 0 <= i < chars.len() implies data.subrange(start, end)[i]
            == chars[i] by {
            let k = head.len() + i;
            assert(data[at + k] == whole[k]);
            assert(whole[k] == chars[i]);
        }
    }
    lemma_text_round_trip(text);
}

// ---------------------------------------------------------------------------
// Words
// ---------------------------------------------------------------------------

/// Words that were written read back as themselves.
pub proof fn lemma_words_round_trip(words: Seq<u32>, i: int)
    requires
        0 <= i < words.len(),
    ensures
        words_bytes(words).len() == 4 * words.len(),
        le32(words_bytes(words), 4 * i) == words[i],
        le16(words_bytes(words), 4 * i) == words[i] % 0x1_0000,
        le16(words_bytes(words), 4 * i + 2) == words[i] / 0x1_0000,
    decreases words.len(),
{
    lemma_words_size(words);
    let before = words_bytes(words.drop_last());
    let all = words_bytes(words);
    lemma_words_size(words.drop_last());
    if i == words.len() - 1 {
        let w = words[i];
        let last = le32_bytes(w);
        assert(all[4 * i] == last[0]);
        assert(all[4 * i + 1] == last[1]);
        assert(all[4 * i + 2] == last[2]);
        assert(all[4 * i + 3] == last[3]);
        lemma_word_digits(w);
    } else {
        lemma_words_round_trip(words.drop_last(), i);
        assert(words.drop_last()[i] == words[i]);
        assert(all[4 * i] == before[4 * i]);
        assert(all[4 * i + 1] == before[4 * i + 1]);
        assert(all[4 * i + 2] == before[4 * i + 2]);
        assert(all[4 * i + 3] == before[4 * i + 3]);
    }
}

#[verifier::spinoff_prover]
proof fn lemma_word_digits(w: u32)
    ensures
        w % 256 + 0x100 * (w / 0x100 % 256) + 0x1_0000 * (w / 0x1_0000 % 256) + 0x100_0000 * (w
            / 0x100_0000) == w,
        w % 256 + 0x100 * (w / 0x100 % 256) == w % 0x1_0000,
        w / 0x1_0000 % 256 + 0x100 * (w / 0x100_0000) == w / 0x1_0000,
        w / 0x100_0000 < 256,
{
}

pub proof fn lemma_words_size(words: Seq<u32>)
    ensures
        words_bytes(words).len() == 4 * words.len(),
    decreases words.len(),
{
    if words.len() > 0 {
        lemma_words_size(words.drop_last());
    }
}

/// A word that stands in a file among others reads back as itself.
pub proof fn lemma_word_read(file: Seq<u8>, at: int, words: Seq<u32>, i: int)
    requires
        stands_at(file, at, words_bytes(words)),
        0 <= i < words.len(),
    ensures
        at + 4 * i + 4 <= file.len(),
        le32(file, at + 4 * i) == words[i],
        le16(file, at + 4 * i) == words[i] % 0x1_0000,
        le16(file, at + 4 * i + 2) == words[i] / 0x1_0000,
{
    let part = words_bytes(words);
    lemma_words_round_trip(words, i);
    lemma_words_size(words);
    let k = 4 * i;
    assert(file[at + k] == part[k]);
    assert(file[at + (k + 1)] == part[k + 1]);
    assert(file[at + (k + 2)] == part[k + 2]);
    assert(file[at + (k + 3)] == part[k + 3]);
}

// ---------------------------------------------------------------------------
// Type lists
// ---------------------------------------------------------------------------

/// A type list that stands in a file reads back as itself.
pub proof fn lemma_type_list_round_trip(data: Seq<u8>, offset: u32, list: Seq<u16>, type_count: u32)
    requires
        offset != 0,
        list.len() <= u32::MAX,
        stands_at(data, offset as int, type_list_bytes(list)),
        forall|i: int| 0 <= i < list.len() ==> #[trigger] list[i] < type_count,
    ensures
        type_list_in(data, offset, type_count) == Ok::<Seq<u16>, Error>(list),
{
    let whole = type_list_bytes(list);
    let size = le32_bytes(list.len() as u32);
    let units = unit_bytes(list);
    let at = offset as int;
    assert(whole =~= size + units);
    assert(data[at + 0] == whole[0] && data[at + 1] == whole[1] && data[at + 2] == whole[2]
        && data[at + 3] == whole[3]);
    assert(whole[0] == size[0] && whole[1] == size[1] && whole[2] == size[2] && whole[3]
        == size[3]);
    lemma_word_digits(list.len() as u32);
    assert(u32_in(data, at) == Ok::<u32, Error>(list.len() as u32));
    assert(units.len() == 2 * list.len());
    let f = list_reader(data, at + 4, type_count);
    assert forall|i: int| 0 <= i < list.len() implies #[trigger] f(i) == Ok::<u16, Error>(
        list[i],
    ) by {
        let k = 4 + 2 * i;
        assert(data[at + k] == whole[k] && data[at + (k + 1)] == whole[k + 1]);
        assert(whole[k] == units[2 * i] && whole[k + 1] == units[2 * i + 1]);
        assert(units[2 * i] == (list[i] % 256) as u8);
        assert(units[2 * i + 1] == (list[i] / 256) as u8);
        assert(at + 4 + i * 2 == at + k);
        assert(list_entry_in(data, at + 4, type_count, i) == Ok::<u16, Error>(list[i]));
    }
    lemma_collect_all(f, list, list.len());
    assert(list.take(list.len() as int) =~= list);
}

/// A collection of values that are all there is those values.
pub proof fn lemma_collect_all<T>(f: spec_fn(int) -> Result<T, Error>, values: Seq<T>, n: nat)
    requires
        n <= values.len(),
        forall|i: int| 0 <= i < n ==> #[trigger] f(i) == Ok::<T, Error>(values[i]),
    ensures
        collect(f, n) == Ok::<Seq<T>, Error>(values.take(n as int)),
    decreases n,
{
    if n > 0 {
        lemma_collect_all(f, values, (n - 1) as nat);
        assert(f(n - 1) == Ok::<T, Error>(values[n - 1]));
        assert(values.take(n as int) =~= values.take(n - 1).push(values[n - 1]));
    } else {
        assert(values.take(0) =~= Seq::<T>::empty());
    }
}

} // verus!
