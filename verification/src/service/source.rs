//! Finishing touches on decompiled source text.
use vstd::prelude::*;
use vstd::utf8::{
    char_is_scalar, decode_utf8, encode_scalar, encode_utf8, encode_utf8_decode_utf8,
    encode_utf8_valid_utf8, is_char_boundary, valid_utf8,
};

use crate::text::{
    chars_of, cut_chars, found_at, has_prefix, stands_here, starts_with, string_of, trim_chars,
    trimmed,
};

verus! {

// ---------------------------------------------------------------------------
// Hidden methods
// ---------------------------------------------------------------------------

/// Whether a decompiler leaves a method out: a bridge, a synthetic accessor,
/// or the body of a lambda.
pub open spec fn hidden_method(access_flags: u32, name: Seq<char>) -> bool {
    ||| access_flags & 0x40 != 0
    ||| starts_with(name, "access$"@) && access_flags & 0x1000 != 0
    ||| starts_with(name, "$r8$lambda$"@)
}

pub fn is_hidden_method(access_flags: u32, name: &str) -> (r: bool)
    ensures
        r == hidden_method(access_flags, name@),
{
    let chars = chars_of(name);
    access_flags & 0x40 != 0 || (has_prefix(&chars, "access$") && access_flags & 0x1000 != 0)
        || has_prefix(&chars, "$r8$lambda$")
}

/// The part of a name behind its last dot.
pub open spec fn last_part(name: Seq<char>) -> Seq<char>
    decreases name.len(),
{
    if name.len() == 0 || name.last() == '.' {
        Seq::empty()
    } else {
        last_part(name.drop_last()).push(name.last())
    }
}

pub fn simple_name(class_name: &str) -> (r: String)
    ensures
        r@ == last_part(class_name@),
{
    let chars = chars_of(class_name);
    let mut from: usize = chars.len();
    assert(chars@.take(from as int) =~= chars@);
    assert(chars@.subrange(from as int, chars@.len() as int) =~= Seq::<char>::empty());
    assert(last_part(chars@) =~= last_part(chars@.take(from as int)) + chars@.subrange(
        from as int,
        chars@.len() as int,
    ));
    while from > 0 && chars[from - 1] != '.'
        invariant
            from <= chars.len(),
            last_part(chars@) == last_part(chars@.take(from as int)) + chars@.subrange(
                from as int,
                chars@.len() as int,
            ),
        decreases from,
    {
        let ghost head = chars@.take(from as int);
        assert(head.last() == chars@[from - 1]);
        assert(head.drop_last() =~= chars@.take(from - 1));
        from -= 1;
        assert(last_part(chars@.take(from as int)).push(chars@[from as int]) + chars@.subrange(
            from + 1,
            chars@.len() as int,
        ) =~= last_part(chars@.take(from as int)) + chars@.subrange(
            from as int,
            chars@.len() as int,
        ));
    }
    if from > 0 {
        assert(chars@.take(from as int).last() == chars@[from - 1]);
    }
    assert(last_part(chars@) =~= chars@.subrange(from as int, chars@.len() as int));
    string_of(&cut_chars(&chars, from, chars.len()))
}

/// The last place at or before `at` where `part` stands.
pub open spec fn found_back(text: Seq<char>, part: Seq<char>, at: int) -> Option<int>
    decreases at + 1,
{
    if at < 0 {
        None
    } else if found_at(text, part, at) {
        Some(at)
    } else {
        found_back(text, part, at - 1)
    }
}

/// Where the body of a class ends: at the last line that starts with a closing
/// brace, or at the end.
pub open spec fn body_end(source: Seq<char>) -> int {
    match found_back(source, "\n}"@, source.len() as int) {
        Some(at) => at,
        None => source.len() as int,
    }
}

/// Source text with restored methods at the end of its class.
pub open spec fn with_restored(source: Seq<char>, restored: Seq<char>) -> Seq<char> {
    if restored.len() == 0 {
        source
    } else {
        source.take(body_end(source)) + seq!['\n'] + restored + source.skip(body_end(source))
    }
}

pub fn insert_restored(source: &str, restored: &str) -> (r: String)
    ensures
        r@ == with_restored(source@, restored@),
{
    let text = chars_of(source);
    let added = chars_of(restored);
    if added.len() == 0 {
        return string_of(&text);
    }
    proof {
        reveal_strlit("\n}");
    }
    let part = chars_of("\n}");
    let mut at: usize = text.len();
    let mut place: usize = text.len();
    let mut done: bool = false;
    let ghost whole = found_back(text@, part@, text@.len() as int);
    while !done
        invariant
            at <= text.len(),
            place <= text.len(),
            part@ == "\n}"@,
            part@.len() == 2,
            text@ == source@,
            whole == found_back(text@, part@, text@.len() as int),
            !done ==> whole == found_back(text@, part@, at as int) && place == text.len(),
            done ==> place == body_end(source@),
        decreases at, (if done { 0int } else { 1int }),
    {
        if text.len() >= 2 && at <= text.len() - 2 && stands_here(&text, &part, at) {
            place = at;
            done = true;
        } else if at == 0 {
            assert(found_back(text@, part@, -1) is None);
            done = true;
        } else {
            at -= 1;
        }
    }
    let mut out = cut_chars(&text, 0, place);
    out.push('\n');
    let mut i: usize = 0;
    let ghost head = out@;
    assert(out@ =~= head + added@.take(0));
    while i < added.len()
        invariant
            i <= added.len(),
            out@ == head + added@.take(i as int),
        decreases added.len() - i,
    {
        out.push(added[i]);
        i += 1;
        assert(added@.take(i as int) =~= added@.take(i - 1).push(added@[i - 1]));
        assert(out@ =~= head + added@.take(i as int));
    }
    assert(added@.take(i as int) =~= added@);
    let tail = cut_chars(&text, place, text.len());
    let ghost middle = out@;
    let mut j: usize = 0;
    assert(out@ =~= middle + tail@.take(0));
    while j < tail.len()
        invariant
            j <= tail.len(),
            out@ == middle + tail@.take(j as int),
        decreases tail.len() - j,
    {
        out.push(tail[j]);
        j += 1;
        assert(tail@.take(j as int) =~= tail@.take(j - 1).push(tail@[j - 1]));
        assert(out@ =~= middle + tail@.take(j as int));
    }
    assert(tail@.take(j as int) =~= tail@);
    assert(out@ =~= with_restored(source@, restored@));
    string_of(&out)
}

// ---------------------------------------------------------------------------
// Encoding repair
// ---------------------------------------------------------------------------

/// The text that some bytes encode, by `String::from_utf8` of the standard
/// library, which fails exactly where they are not UTF-8.
#[verifier::external_body]
pub(crate) fn text_from_utf8(bytes: Vec<u8>) -> (r: Option<String>)
    ensures
        match r {
            Some(s) => valid_utf8(bytes@) && s@ == decode_utf8(bytes@),
            None => !valid_utf8(bytes@),
        },
{
    String::from_utf8(bytes).ok()
}

/// Whether a character may stem from a byte of a longer encoding.
pub open spec fn is_suspicious(c: char) -> bool {
    0x80 <= c as u32 <= 0xff
}

/// How many characters may stem from bytes of a longer encoding.
pub open spec fn suspicious(text: Seq<char>) -> nat
    decreases text.len(),
{
    if text.len() == 0 {
        0
    } else {
        suspicious(text.drop_last()) + (if is_suspicious(text.last()) {
            1nat
        } else {
            0nat
        })
    }
}

/// Whether every character fits a byte.
pub open spec fn fits_bytes(text: Seq<char>) -> bool {
    forall|i: int| 0 <= i < text.len() ==> #[trigger] text[i] as u32 <= 0xff
}

/// Characters as bytes.
pub open spec fn as_bytes(text: Seq<char>) -> Seq<u8> {
    text.map_values(|c: char| (c as u32) as u8)
}

/// What a text reads as when its characters are taken as the bytes of an
/// encoding, if that makes it less suspicious.
pub open spec fn decoded_once(text: Seq<char>) -> Option<Seq<char>> {
    if suspicious(text) > 0 && fits_bytes(text) && valid_utf8(as_bytes(text)) && suspicious(
        decode_utf8(as_bytes(text)),
    ) < suspicious(text) {
        Some(decode_utf8(as_bytes(text)))
    } else {
        None
    }
}

/// A text after up to two rounds of decoding.
pub open spec fn repaired(text: Seq<char>) -> Seq<char> {
    match decoded_once(text) {
        None => text,
        Some(once) => match decoded_once(once) {
            None => once,
            Some(twice) => twice,
        },
    }
}

/// A text whose encoding was read byte by byte.
pub open spec fn misread(text: Seq<char>) -> Seq<char> {
    encode_utf8(text).map_values(|b: u8| b as char)
}

/// How many characters are not ASCII.
pub open spec fn beyond_ascii(text: Seq<char>) -> nat
    decreases text.len(),
{
    if text.len() == 0 {
        0
    } else {
        beyond_ascii(text.drop_first()) + (if text[0] as u32 >= 0x80 {
            1nat
        } else {
            0nat
        })
    }
}

proof fn lemma_suspicious_joined(a: Seq<char>, b: Seq<char>)
    ensures
        suspicious(a + b) == suspicious(a) + suspicious(b),
    decreases b.len(),
{
    if b.len() == 0 {
        assert(a + b =~= a);
    } else {
        assert((a + b).drop_last() =~= a + b.drop_last());
        lemma_suspicious_joined(a, b.drop_last());
    }
}

proof fn lemma_suspicious_few(text: Seq<char>)
    ensures
        suspicious(text) <= beyond_ascii(text),
    decreases text.len(),
{
    if text.len() > 0 {
        let first = seq![text[0]];
        assert(text =~= first + text.drop_first());
        lemma_suspicious_joined(first, text.drop_first());
        assert(first.drop_last() =~= Seq::<char>::empty());
        reveal_with_fuel(suspicious, 2);
        lemma_suspicious_few(text.drop_first());
    }
}

/// All bytes of the encoding of a character beyond ASCII have the high bit.
proof fn lemma_high_bytes(v: u32)
    by (bit_vector)
    ensures
        (0xC0u8 | ((v >> 6) & 0x1F) as u8) >= 0x80,
        (0xE0u8 | ((v >> 12) & 0x0F) as u8) >= 0x80,
        (0xF0u8 | ((v >> 18) & 0x7) as u8) >= 0x80,
        (0x80u8 | (v & 0x3F) as u8) >= 0x80,
        (0x80u8 | ((v >> 6) & 0x3F) as u8) >= 0x80,
        (0x80u8 | ((v >> 12) & 0x3F) as u8) >= 0x80,
{
}

proof fn lemma_all_suspicious(chars: Seq<char>)
    requires
        forall|i: int| 0 <= i < chars.len() ==> is_suspicious(#[trigger] chars[i]),
    ensures
        suspicious(chars) == chars.len(),
    decreases chars.len(),
{
    if chars.len() > 0 {
        let rest = chars.drop_last();
        assert forall|i: int| 0 <= i < rest.len() implies is_suspicious(#[trigger] rest[i]) by {
            assert(rest[i] == chars[i]);
        }
        assert(is_suspicious(chars[chars.len() - 1]));
        lemma_all_suspicious(rest);
    }
}

/// Each character beyond ASCII was misread as at least two suspicious ones.
proof fn lemma_suspicious_many(text: Seq<char>)
    ensures
        suspicious(misread(text)) >= 2 * beyond_ascii(text),
    decreases text.len(),
{
    if text.len() > 0 {
        let v = text[0] as u32;
        let first = encode_scalar(v).map_values(|b: u8| b as char);
        let rest = text.drop_first();
        assert(misread(text) =~= first + misread(rest));
        lemma_suspicious_joined(first, misread(rest));
        lemma_suspicious_many(rest);
        if v >= 0x80 {
            char_is_scalar(text[0]);
            lemma_high_bytes(v);
            let bytes = encode_scalar(v);
            assert(bytes.len() >= 2);
            assert forall|i: int| 0 <= i < bytes.len() implies bytes[i] >= 0x80 by {}
            assert forall|i: int| 0 <= i < first.len() implies is_suspicious(
                #[trigger] first[i],
            ) by {
                assert(bytes[i] >= 0x80);
                assert(first[i] == bytes[i] as char);
            }
            lemma_all_suspicious(first);
        }
    } else {
        assert(misread(text) =~= Seq::<char>::empty());
    }
}

/// A text with a character beyond ASCII that was encoded and then read byte by
/// byte is decoded to what it was.
pub proof fn lemma_decoding_undoes_misreading(text: Seq<char>)
    requires
        beyond_ascii(text) > 0,
    ensures
        decoded_once(misread(text)) == Some(text),
{
    let wrong = misread(text);
    let bytes = encode_utf8(text);
    lemma_suspicious_many(text);
    lemma_suspicious_few(text);
    assert forall|i: int| 0 <= i < wrong.len() implies #[trigger] wrong[i] as u32 <= 0xff by {
        assert(wrong[i] == bytes[i] as char);
    }
    assert(as_bytes(wrong) =~= bytes);
    encode_utf8_valid_utf8(text);
    encode_utf8_decode_utf8(text);
}

fn count_suspicious(chars: &Vec<char>) -> (r: usize)
    ensures
        r == suspicious(chars@),
{
    let mut n: usize = 0;
    let mut i: usize = 0;
    assert(chars@.take(0) =~= Seq::<char>::empty());
    while i < chars.len()
        invariant
            i <= chars.len(),
            n <= i,
            n == suspicious(chars@.take(i as int)),
        decreases chars.len() - i,
    {
        let ghost now = chars@.take(i + 1);
        assert(now.drop_last() =~= chars@.take(i as int));
        assert(now.last() == chars@[i as int]);
        let v: u32 = chars[i] as u32;
        if 0x80 <= v && v <= 0xff {
            n += 1;
        }
        i += 1;
    }
    assert(chars@.take(i as int) =~= chars@);
    n
}

/// The characters as bytes, if each of them fits one.
fn bytes_of(chars: &Vec<char>) -> (r: Option<Vec<u8>>)
    ensures
        match r {
            Some(v) => fits_bytes(chars@) && v@ == as_bytes(chars@),
            None => !fits_bytes(chars@),
        },
{
    let mut out: Vec<u8> = Vec::new();
    let mut i: usize = 0;
    while i < chars.len()
        invariant
            i <= chars.len(),
            out.len() == i,
            forall|j: int| 0 <= j < i ==> #[trigger] chars@[j] as u32 <= 0xff,
            forall|j: int| 0 <= j < i ==> #[trigger] out@[j] == (chars@[j] as u32) as u8,
        decreases chars.len() - i,
    {
        let v: u32 = chars[i] as u32;
        if v > 0xff {
            assert(chars@[i as int] as u32 > 0xff);
            return None;
        }
        out.push(v as u8);
        i += 1;
    }
    assert(out@ =~= as_bytes(chars@));
    Some(out)
}

fn decode_once(text: &str) -> (r: Option<String>)
    ensures
        match r {
            Some(s) => decoded_once(text@) == Some(s@),
            None => decoded_once(text@) is None,
        },
{
    let chars = chars_of(text);
    let before: usize = count_suspicious(&chars);
    if before == 0 {
        return None;
    }
    let bytes = match bytes_of(&chars) {
        Some(bytes) => bytes,
        None => return None,
    };
    match text_from_utf8(bytes) {
        Some(candidate) => {
            let after: usize = count_suspicious(&chars_of(candidate.as_str()));
            if after >= before {
                None
            } else {
                Some(candidate)
            }
        },
        None => None,
    }
}

/// Undoes an encoding that was applied twice, up to two times.
pub fn repair_double_encoded_utf8(text: String) -> (r: String)
    ensures
        r@ == repaired(text@),
{
    match decode_once(text.as_str()) {
        None => text,
        Some(once) => match decode_once(once.as_str()) {
            None => once,
            Some(twice) => twice,
        },
    }
}

// ---------------------------------------------------------------------------
// Diagnostics
// ---------------------------------------------------------------------------

/// The first place at or behind `at` where a character starts.
pub open spec fn boundary_from(bytes: Seq<u8>, at: int) -> int
    decreases bytes.len() - at,
{
    if at >= bytes.len() || is_char_boundary(bytes, at) {
        at
    } else {
        boundary_from(bytes, at + 1)
    }
}

/// The bytes of the end of a text: at most `max_bytes`, from the start of a
/// character on.
pub open spec fn tail_bytes(bytes: Seq<u8>, max_bytes: nat) -> Seq<u8> {
    if bytes.len() <= max_bytes {
        bytes
    } else {
        bytes.skip(boundary_from(bytes, bytes.len() - max_bytes))
    }
}

/// The end of a text, of at most `max_bytes` bytes.
pub fn tail(text: &str, max_bytes: usize) -> (r: &str)
    ensures
        encode_utf8(r@) == tail_bytes(encode_utf8(text@), max_bytes as nat),
{
    let ghost bytes = encode_utf8(text@);
    let all = text.as_bytes();
    let size: usize = all.len();
    assert(all@ == bytes);
    if size <= max_bytes {
        return text;
    }
    let mut start: usize = size - max_bytes;
    let ghost first = start as int;
    proof {
        vstd::utf8::encode_utf8_valid_utf8(text@);
        vstd::utf8::is_char_boundary_start_end_of_seq(bytes);
    }
    while !text.is_char_boundary(start)
        invariant
            start <= size,
            size == bytes.len(),
            bytes == encode_utf8(text@),
            is_char_boundary(bytes, bytes.len() as int),
            boundary_from(bytes, first) == boundary_from(bytes, start as int),
        decreases size - start,
    {
        start += 1;
    }
    let (_, end) = text.split_at(start);
    assert(encode_utf8(end@) =~= bytes.skip(start as int));
    end
}

/// The text of a failed run that says why: the trimmed error output, or where
/// that is blank, the trimmed standard output.
pub open spec fn diagnostic(stderr: Seq<char>, stdout: Seq<char>) -> Seq<char> {
    if trimmed(stderr).len() == 0 {
        trimmed(stdout)
    } else {
        trimmed(stderr)
    }
}

pub fn pick_diagnostic(stderr: &str, stdout: &str) -> (r: String)
    ensures
        r@ == diagnostic(stderr@, stdout@),
{
    let errors = trim_chars(stderr);
    if errors.len() == 0 {
        string_of(&trim_chars(stdout))
    } else {
        string_of(&errors)
    }
}

/// A text without byte order marks at its start.
pub open spec fn unmarked(text: Seq<char>) -> Seq<char>
    decreases text.len(),
{
    if text.len() > 0 && text[0] == '\u{feff}' {
        unmarked(text.skip(1))
    } else {
        text
    }
}

pub fn without_marks(text: &str) -> (r: String)
    ensures
        r@ == unmarked(text@),
{
    let chars = chars_of(text);
    let mut from: usize = 0;
    assert(chars@.skip(0) =~= chars@);
    while from < chars.len() && chars[from] == '\u{feff}'
        invariant
            from <= chars.len(),
            unmarked(chars@) == unmarked(chars@.skip(from as int)),
        decreases chars.len() - from,
    {
        assert(chars@.skip(from as int)[0] == chars@[from as int]);
        assert(chars@.skip(from as int).skip(1) =~= chars@.skip(from + 1));
        from += 1;
    }
    if from < chars.len() {
        assert(chars@.skip(from as int)[0] == chars@[from as int]);
    }
    assert(chars@.skip(from as int) =~= chars@.subrange(from as int, chars@.len() as int));
    string_of(&cut_chars(&chars, from, chars.len()))
}

} // verus!
