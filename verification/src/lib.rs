//! On-demand queries over the DEX files of an Android package.
use vstd::prelude::*;

pub mod apk;
pub mod collections;
pub mod dex;
pub mod dex_container;
pub mod dex_format;
pub mod error;
pub mod minidex;
pub mod names;
pub mod order;
pub mod render;
pub mod results;
pub mod service;
pub mod text;

use crate::error::Error;
use crate::text::{chars_of, is_space, replace_chars, replaced, string_of, trim_chars, trimmed};

verus! {

/// Whether a name is written as a descriptor, whole or in part: it starts with
/// the letter of one, and has a slash or the semicolon at its end.
pub open spec fn has_class_head(s: Seq<char>) -> bool {
    s.len() > 0 && s[0] == 'L' && (s.contains('/') || s.last() == ';')
}

/// A name with slashes in place of dots, and with `L` before it unless it is
/// written as a descriptor.
pub open spec fn with_class_head(s: Seq<char>) -> Seq<char> {
    if has_class_head(s) {
        replaced(s, '.', '/')
    } else {
        seq!['L'] + replaced(s, '.', '/')
    }
}

/// A text with `;` behind it, unless it ends so.
pub open spec fn with_class_tail(s: Seq<char>) -> Seq<char> {
    if s.len() > 0 && s.last() == ';' {
        s
    } else {
        s.push(';')
    }
}

/// Whether a text has the form of a class descriptor with a package.
pub open spec fn is_class_descriptor(s: Seq<char>) -> bool {
    s.len() > 0 && s[0] == 'L' && s.last() == ';' && s.contains('/')
}

/// The Dalvik descriptor of a class name in either notation.
pub open spec fn class_descriptor(name: Seq<char>) -> Result<Seq<char>, Error> {
    let s = trimmed(name);
    if s.len() == 0 {
        Err(Error::EmptyClassName)
    } else if is_class_descriptor(s) {
        Ok(s)
    } else {
        Ok(with_class_tail(with_class_head(s)))
    }
}

/// Converts a Java-style class name into a Dalvik descriptor. A class of the
/// default package may have a name that starts with `L`: the letter is taken
/// for that of a descriptor only beside a slash or a final semicolon.
pub fn format_class_name(name: &str) -> (r: Result<String, Error>)
    ensures
        match r {
            Ok(s) => class_descriptor(name@) == Ok::<Seq<char>, Error>(s@),
            Err(e) => class_descriptor(name@) == Err::<Seq<char>, Error>(e),
        },
{
    let chars = trim_chars(name);
    if chars.len() == 0 {
        return Err(Error::EmptyClassName);
    }
    let slash: bool = has_char(&chars, '/');
    let end: bool = chars[chars.len() - 1] == ';';
    if chars[0] == 'L' && end && slash {
        return Ok(string_of(&chars));
    }
    let mut result = replace_chars(&chars, '.', '/');
    if !(chars[0] == 'L' && (slash || end)) {
        result.insert(0, 'L');
    }
    assert(result@ =~= with_class_head(chars@));
    if result[result.len() - 1] != ';' {
        result.push(';');
    }
    Ok(string_of(&result))
}

/// Whether a character is among others.
pub(crate) fn has_char(chars: &Vec<char>, c: char) -> (r: bool)
    ensures
        r == chars@.contains(c),
{
    let mut i: usize = 0;
    while i < chars.len()
        invariant
            i <= chars.len(),
            forall|j: int| 0 <= j < i ==> chars@[j] != c,
        decreases chars.len() - i,
    {
        if chars[i] == c {
            assert(chars@[i as int] == c);
            return true;
        }
        i += 1;
    }
    false
}

/// The Java notation of a descriptor: without the letter and the semicolon of
/// a class, and with dots.
pub open spec fn java_name(descriptor: Seq<char>) -> Seq<char> {
    let inner = if descriptor.len() >= 2 && descriptor[0] == 'L' && descriptor.last() == ';' {
        descriptor.subrange(1, descriptor.len() - 1)
    } else {
        descriptor
    };
    replaced(inner, '/', '.')
}

/// Converts a Dalvik descriptor into Java notation.
pub fn descriptor_to_java(descriptor: &str) -> (r: String)
    ensures
        r@ == java_name(descriptor@),
{
    let chars = chars_of(descriptor);
    if chars.len() >= 2 && chars[0] == 'L' && chars[chars.len() - 1] == ';' {
        let mut inner: Vec<char> = Vec::new();
        let mut i: usize = 1;
        while i < chars.len() - 1
            invariant
                1 <= i <= chars.len() - 1,
                inner@ == chars@.subrange(1, i as int),
            decreases chars.len() - i,
        {
            inner.push(chars[i]);
            i += 1;
            assert(chars@.subrange(1, i as int) =~= chars@.subrange(1, i - 1).push(chars@[i - 1]));
        }
        string_of(&replace_chars(&inner, '/', '.'))
    } else {
        string_of(&replace_chars(&chars, '/', '.'))
    }
}

/// A descriptor that was made is left as it is.
pub proof fn lemma_descriptor_stays(name: Seq<char>)
    requires
        class_descriptor(name) is Ok,
    ensures
        class_descriptor(class_descriptor(name)->Ok_0) == class_descriptor(name),
{
    let s = trimmed(name);
    let d = class_descriptor(name)->Ok_0;
    assert(d.len() > 0 && d[0] == 'L' && d.last() == ';');
    assert(!is_space('L') && !is_space(';'));
    assert(trimmed(d) == d);
    if !is_class_descriptor(d) {
        assert(!is_class_descriptor(s));
        let r = replaced(s, '.', '/');
        assert forall|i: int| 0 <= i < d.len() implies #[trigger] d[i] != '.' by {
            assert forall|k: int| 0 <= k < r.len() implies #[trigger] r[k] != '.' by {
                assert(s[k] == s[k]);
            }
        }
        assert(replaced(d, '.', '/') =~= d);
    }
}

/// A class name in Java notation reads the same after it was made a
/// descriptor. Such a name has no slash and no semicolon at its end.
pub proof fn lemma_java_name_kept(name: Seq<char>)
    requires
        name.len() > 0,
        !is_space(name[0]),
        !is_space(name.last()),
        name.last() != ';',
        !name.contains('/'),
    ensures
        class_descriptor(name) is Ok,
        java_name(class_descriptor(name)->Ok_0) == name,
{
    assert(trimmed(name) == name);
    let r = replaced(name, '.', '/');
    let d = class_descriptor(name)->Ok_0;
    assert(!has_class_head(name));
    assert(r.last() != ';');
    assert(d =~= (seq!['L'] + r).push(';'));
    assert(d.subrange(1, d.len() - 1) =~= r);
    assert forall|i: int| 0 <= i < name.len() implies replaced(r, '/', '.')[i] == name[i] by {
        assert(name.contains(name[i]));
    }
    assert(replaced(r, '/', '.') =~= name);
}

} // verus!
