//! Class names in their two notations, and what leads from one to the other.
use vstd::prelude::*;

use crate::error::Error;
use crate::text::reading::{all_space, lemma_replaced, lemma_trimmed, lemma_trimmed_same};
use crate::text::{is_space, replaced, trimmed, trimmed_end, trimmed_start};
use crate::{class_descriptor, java_name};

verus! {

/// A name is refused exactly where there is nothing in it but white space.
pub proof fn lemma_refused_names(name: Seq<char>)
    ensures
        class_descriptor(name) is Err <==> all_space(name),
        class_descriptor(name) matches Err(e) ==> e == Error::EmptyClassName,
{
    lemma_trimmed(name);
    let t = trimmed(name);
    let (before, after) = choose|before: Seq<char>, after: Seq<char>|
        all_space(before) && all_space(after) && name == #[trigger] (before + t + after);
    if all_space(name) && t.len() > 0 {
        assert(name[before.len() as int] == t[0]);
        assert(is_space(name[before.len() as int]));
    }
    if t.len() == 0 {
        assert forall|i: int| 0 <= i < name.len() implies is_space(#[trigger] name[i]) by {
            if i < before.len() {
                assert(name[i] == before[i]);
            } else {
                assert(name[i] == after[i - before.len()]);
            }
        }
    }
}

/// Whether a text stands on its own: it is not empty, and neither starts nor
/// ends with white space.
pub open spec fn bare(s: Seq<char>) -> bool {
    s.len() > 0 && !is_space(s[0]) && !is_space(s.last())
}

/// A name in Java notation becomes `L`, the name with a slash for each dot, and
/// a semicolon; so does a name that is written with slashes and does not start
/// with `L`.
pub proof fn lemma_descriptor_of_name(name: Seq<char>)
    requires
        bare(name),
        name.last() != ';',
        name[0] != 'L' || !name.contains('/'),
    ensures
        class_descriptor(name) matches Ok(d) && {
            &&& d.len() == name.len() + 2
            &&& d[0] == 'L'
            &&& d.last() == ';'
            &&& forall|i: int|
                0 <= i < name.len() ==> #[trigger] d[i + 1] == (if name[i] == '.' {
                    '/'
                } else {
                    name[i]
                })
        },
{
    lemma_trimmed_same(name);
    let r = replaced(name, '.', '/');
    let d = class_descriptor(name)->Ok_0;
    lemma_replaced(name, '.', '/');
    assert(d =~= (seq!['L'] + r).push(';'));
    assert forall|i: int| 0 <= i < name.len() implies #[trigger] d[i + 1] == (if name[i] == '.' {
        '/'
    } else {
        name[i]
    }) by {
        assert(d[i + 1] == r[i]);
    }
}

/// A whole descriptor with a package stays as it is, and one that lacks only the
/// semicolon gets it.
pub proof fn lemma_descriptor_of_descriptor(name: Seq<char>)
    requires
        bare(name),
        name[0] == 'L',
        name.contains('/'),
    ensures
        name.last() == ';' ==> class_descriptor(name) == Ok::<Seq<char>, Error>(name),
        name.last() != ';' && !name.contains('.') ==> class_descriptor(name) == Ok::<
            Seq<char>,
            Error,
        >(name.push(';')),
{
    lemma_trimmed_same(name);
    lemma_replaced(name, '.', '/');
}

/// White space around a name makes no difference.
pub proof fn lemma_space_around(before: Seq<char>, name: Seq<char>, after: Seq<char>)
    requires
        all_space(before),
        all_space(after),
        bare(name),
    ensures
        class_descriptor(before + name + after) == class_descriptor(name),
{
    lemma_trimmed_same(name);
    lemma_space_before(before, name + after);
    assert(before + (name + after) =~= before + name + after);
    assert(trimmed_start(name + after) == name + after) by {
        assert((name + after)[0] == name[0]);
    }
    lemma_space_behind(name, after);
}

proof fn lemma_space_before(before: Seq<char>, rest: Seq<char>)
    requires
        all_space(before),
    ensures
        trimmed_start(before + rest) == trimmed_start(rest),
    decreases before.len(),
{
    if before.len() == 0 {
        assert(before + rest =~= rest);
    } else {
        let s = before + rest;
        assert(s[0] == before[0]);
        assert(s.skip(1) =~= before.skip(1) + rest);
        assert forall|i: int| 0 <= i < before.skip(1).len() implies is_space(
            #[trigger] before.skip(1)[i],
        ) by {
            assert(before.skip(1)[i] == before[i + 1]);
        }
        lemma_space_before(before.skip(1), rest);
    }
}

proof fn lemma_space_behind(rest: Seq<char>, after: Seq<char>)
    requires
        all_space(after),
        rest.len() > 0,
        !is_space(rest.last()),
    ensures
        trimmed_end(rest + after) == rest,
    decreases after.len(),
{
    let s = rest + after;
    if after.len() == 0 {
        assert(s =~= rest);
    } else {
        assert(s.last() == after[after.len() - 1]);
        let less = after.drop_last();
        assert(s.drop_last() =~= rest + less);
        assert forall|i: int| 0 <= i < less.len() implies is_space(#[trigger] less[i]) by {
            assert(less[i] == after[i]);
        }
        lemma_space_behind(rest, less);
    }
}

/// In Java notation a class descriptor reads without its first and its last
/// character, and with a dot for each slash; any other text only has its slashes
/// replaced.
pub proof fn lemma_java_reads(descriptor: Seq<char>)
    ensures
        descriptor.len() >= 2 && descriptor[0] == 'L' && descriptor.last() == ';' ==> {
            &&& java_name(descriptor).len() == descriptor.len() - 2
            &&& forall|i: int|
                0 <= i < descriptor.len() - 2 ==> #[trigger] java_name(descriptor)[i] == (
                if descriptor[i + 1] == '/' {
                    '.'
                } else {
                    descriptor[i + 1]
                })
        },
        !(descriptor.len() >= 2 && descriptor[0] == 'L' && descriptor.last() == ';') ==> {
            &&& java_name(descriptor).len() == descriptor.len()
            &&& forall|i: int|
                0 <= i < descriptor.len() ==> #[trigger] java_name(descriptor)[i] == (
                if descriptor[i] == '/' {
                    '.'
                } else {
                    descriptor[i]
                })
        },
{
}

} // verus!
