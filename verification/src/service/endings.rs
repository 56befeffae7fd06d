//! What the finishing touches on source text keep and what they change.
use vstd::prelude::*;
use vstd::utf8::is_char_boundary;

use crate::service::source::{
    body_end, boundary_from, diagnostic, found_back, hidden_method, last_part, repaired, suspicious,
    tail_bytes, unmarked, with_restored,
};
use crate::text::reading::{all_space, lemma_at_either_end, lemma_trimmed};
use crate::text::{found_at, is_space, trimmed};

verus! {

/// Which methods are left out: bridges (flag 64), synthetic (flag 4096)
/// accessors by their name, and lambda bodies by theirs.
pub proof fn lemma_hidden(access_flags: u32, name: Seq<char>)
    ensures
        hidden_method(access_flags, name) <==> {
            ||| (access_flags / 64) % 2 == 1
            ||| (access_flags / 4096) % 2 == 1 && exists|rest: Seq<char>|
                name == #[trigger] ("access$"@ + rest)
            ||| exists|rest: Seq<char>| name == #[trigger] ("$r8$lambda$"@ + rest)
        },
{
    assert((access_flags & 0x40 != 0) == ((access_flags / 64) % 2 == 1)) by (bit_vector);
    assert((access_flags & 0x1000 != 0) == ((access_flags / 4096) % 2 == 1)) by (bit_vector);
    lemma_at_either_end(name, "access$"@);
    lemma_at_either_end(name, "$r8$lambda$"@);
}

/// The simple name of a class is what stands behind the last dot of its name,
/// or all of it where there is none.
pub proof fn lemma_last_part(name: Seq<char>)
    ensures
        !last_part(name).contains('.'),
        last_part(name) == name || exists|package: Seq<char>|
            name == #[trigger] (package + seq!['.'] + last_part(name)),
    decreases name.len(),
{
    if name.len() > 0 && name.last() != '.' {
        let rest = name.drop_last();
        let last = name.last();
        lemma_last_part(rest);
        let part = last_part(rest);
        assert(last_part(name) == part.push(last));
        if part.push(last).contains('.') {
            let i = choose|i: int| 0 <= i < part.len() + 1 && part.push(last)[i] == '.';
            if i < part.len() {
                assert(part[i] == '.');
            }
        }
        if part == rest {
            assert(part.push(last) =~= name);
        } else {
            let package = choose|package: Seq<char>|
                rest == #[trigger] (package + seq!['.'] + part);
            assert(name =~= rest.push(last));
            assert((package + seq!['.'] + part).push(last) =~= package + seq!['.'] + part.push(last));
        }
    } else if name.len() > 0 {
        let package = name.drop_last();
        assert(name =~= package + seq!['.'] + last_part(name));
    } else {
        assert(last_part(name) =~= name);
    }
}

/// Whether a line that starts with a closing brace begins behind `at`.
pub open spec fn brace_line(source: Seq<char>, at: int) -> bool {
    0 <= at && at + 1 < source.len() && source[at] == '\n' && source[at + 1] == '}'
}

proof fn lemma_brace_line(source: Seq<char>, at: int)
    ensures
        found_at(source, "\n}"@, at) <==> brace_line(source, at),
{
    reveal_strlit("\n}");
    if found_at(source, "\n}"@, at) {
        let part = source.subrange(at, at + 2);
        assert(part[0] == source[at] && part[1] == source[at + 1]);
    }
    if brace_line(source, at) {
        assert(source.subrange(at, at + 2) =~= "\n}"@);
    }
}

proof fn lemma_found_back(source: Seq<char>, at: int)
    ensures
        found_back(source, "\n}"@, at) matches Some(p) ==> p <= at && brace_line(source, p)
            && forall|q: int| p < q <= at ==> !brace_line(source, q),
        found_back(source, "\n}"@, at) is None ==> forall|q: int| q <= at ==> !brace_line(source, q),
    decreases at + 1,
{
    if at >= 0 {
        lemma_brace_line(source, at);
        lemma_found_back(source, at - 1);
    }
}

/// Restored methods go in before the last line that starts with a closing brace,
/// or at the end where there is none; all of the source stays, in its order.
pub proof fn lemma_restored(source: Seq<char>, restored: Seq<char>)
    ensures
        restored.len() == 0 ==> with_restored(source, restored) == source,
        restored.len() > 0 ==> exists|at: int|
            #![trigger source.take(at)]
            0 <= at <= source.len() && with_restored(source, restored) == source.take(at)
                + seq!['\n'] + restored + source.skip(at) && (brace_line(source, at) || at
                == source.len()) && forall|q: int| at < q ==> !brace_line(source, q),
        restored.len() > 0 && (exists|q: int| brace_line(source, q)) ==> body_end(source)
            < source.len(),
{
    let at = body_end(source);
    lemma_found_back(source, source.len() as int);
    if restored.len() > 0 {
        assert(source.take(at) == source.take(at));
        assert forall|q: int| at < q implies !brace_line(source, q) by {}
    }
}

/// A text of ASCII characters is left as it is.
pub proof fn lemma_ascii_kept(text: Seq<char>)
    requires
        forall|i: int| 0 <= i < text.len() ==> (#[trigger] text[i] as u32) < 0x80,
    ensures
        repaired(text) == text,
{
    lemma_none_suspicious(text);
}

proof fn lemma_none_suspicious(text: Seq<char>)
    requires
        forall|i: int| 0 <= i < text.len() ==> (#[trigger] text[i] as u32) < 0x80,
    ensures
        suspicious(text) == 0,
    decreases text.len(),
{
    if text.len() > 0 {
        let rest = text.drop_last();
        assert forall|i: int| 0 <= i < rest.len() implies (#[trigger] rest[i] as u32) < 0x80 by {
            assert(rest[i] == text[i]);
        }
        lemma_none_suspicious(rest);
        assert((text[text.len() - 1] as u32) < 0x80);
    }
}

proof fn lemma_boundary(bytes: Seq<u8>, at: int)
    requires
        0 <= at <= bytes.len(),
    ensures
        at <= boundary_from(bytes, at) <= bytes.len(),
        boundary_from(bytes, at) < bytes.len() ==> is_char_boundary(
            bytes,
            boundary_from(bytes, at),
        ),
        forall|i: int| at <= i < boundary_from(bytes, at) ==> !is_char_boundary(bytes, i),
    decreases bytes.len() - at,
{
    if at < bytes.len() && !is_char_boundary(bytes, at) {
        lemma_boundary(bytes, at + 1);
    }
}

/// The tail of a text is its end: all of it where it fits, and else the longest
/// end that fits and starts with a character.
pub proof fn lemma_tail(bytes: Seq<u8>, max_bytes: nat)
    ensures
        bytes.len() <= max_bytes ==> tail_bytes(bytes, max_bytes) == bytes,
        tail_bytes(bytes, max_bytes).len() <= max_bytes,
        tail_bytes(bytes, max_bytes) == bytes.skip(
            bytes.len() - tail_bytes(bytes, max_bytes).len(),
        ),
        forall|i: int|
            bytes.len() > max_bytes && bytes.len() - max_bytes <= i < bytes.len() - tail_bytes(
                bytes,
                max_bytes,
            ).len() ==> !is_char_boundary(bytes, i),
{
    if bytes.len() > max_bytes {
        lemma_boundary(bytes, bytes.len() - max_bytes);
    } else {
        assert(bytes.skip(0) =~= bytes);
    }
}

/// What a failed run says is its error output, and its standard output where
/// the error output is white space throughout.
pub proof fn lemma_diagnostic(stderr: Seq<char>, stdout: Seq<char>)
    ensures
        all_space(stderr) ==> diagnostic(stderr, stdout) == trimmed(stdout),
        !all_space(stderr) ==> diagnostic(stderr, stdout) == trimmed(stderr),
{
    lemma_trimmed(stderr);
    let t = trimmed(stderr);
    let (before, after) = choose|before: Seq<char>, after: Seq<char>|
        all_space(before) && all_space(after) && stderr == #[trigger] (before + t + after);
    if all_space(stderr) && t.len() > 0 {
        assert(stderr[before.len() as int] == t[0]);
        assert(is_space(stderr[before.len() as int]));
    }
    if t.len() == 0 {
        assert forall|i: int| 0 <= i < stderr.len() implies is_space(#[trigger] stderr[i]) by {
            if i < before.len() {
                assert(stderr[i] == before[i]);
            } else {
                assert(stderr[i] == after[i - before.len()]);
            }
        }
    }
}

/// Byte order marks go from the start of a text, all of them and nothing else.
pub proof fn lemma_unmarked(text: Seq<char>)
    ensures
        unmarked(text).len() <= text.len(),
        unmarked(text) == text.skip(text.len() - unmarked(text).len()),
        forall|i: int| 0 <= i < text.len() - unmarked(text).len() ==> text[i] == '\u{feff}',
        unmarked(text).len() > 0 ==> unmarked(text)[0] != '\u{feff}',
    decreases text.len(),
{
    if text.len() > 0 && text[0] == '\u{feff}' {
        let rest = text.skip(1);
        lemma_unmarked(rest);
        let n = text.len() - unmarked(text).len();
        assert(text.skip(n) =~= rest.skip(n - 1));
        assert forall|i: int| 0 <= i < n implies text[i] == '\u{feff}' by {
            if i > 0 {
                assert(rest[i - 1] == text[i]);
            }
        }
    } else {
        assert(text.skip(0) =~= text);
    }
}

} // verus!
