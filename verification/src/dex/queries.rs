//! What queries are for: which identifiers they match, and how those read.
use vstd::prelude::*;

use crate::dex::{lemma_matching_below, DexContents, MemberQuery, Query, ReferenceKind};
use crate::error::Error;
use crate::text::reading::{lemma_occurs_between, lemma_part_occurs, lemma_replaced};
use crate::text::{is_space, occurs, replaced, trimmed};
use crate::{class_descriptor, has_class_head, is_class_descriptor};

verus! {

/// Whether a text has a part: there is something before the part and something
/// behind it, either of which may be empty, that make the text.
pub open spec fn has_part(text: Seq<char>, part: Seq<char>) -> bool {
    exists|before: Seq<char>, after: Seq<char>| text == #[trigger] (before + part + after)
}

/// Whether a member with the given name in the given class is what a query asks
/// for: the name has the part asked for, and the class has it, or is it.
pub open spec fn asked_for(q: MemberQuery, class: Seq<char>, name: Seq<char>) -> bool {
    &&& q.name matches Some(part) ==> has_part(name, part@)
    &&& q.class is Some && q.fuzzy_class ==> has_part(class, q.class->Some_0@)
    &&& q.class is Some && !q.fuzzy_class ==> class == q.class->Some_0@
}

/// A string or a type matches a query exactly where the pattern is a contiguous
/// part of the string or the descriptor; a method or a field where its name and
/// the descriptor of its class are what was asked for.
pub proof fn lemma_query_matches(d: DexContents, q: Query, index: int)
    ensures
        q matches Query::String(p) ==> (d.matches_query(q, index) <==> has_part(
            d.tables.strings[index],
            p@,
        )),
        q matches Query::Type(p) ==> (d.matches_query(q, index) <==> has_part(
            d.tables.strings[d.tables.types[index] as int],
            p@,
        )),
        q matches Query::Method(m) ==> (d.matches_query(q, index) <==> asked_for(
            m,
            d.tables.strings[d.tables.types[d.tables.methods[index].class_idx as int] as int],
            d.tables.strings[d.tables.methods[index].name_idx as int],
        )),
        q matches Query::Field(m) ==> (d.matches_query(q, index) <==> asked_for(
            m,
            d.tables.strings[d.tables.types[d.tables.fields[index].class_idx as int] as int],
            d.tables.strings[d.tables.fields[index].name_idx as int],
        )),
{
    match q {
        Query::String(p) => {
            lemma_occurs_between(d.tables.strings[index], p@);
        },
        Query::Type(p) => {
            lemma_occurs_between(d.type_text(index), p@);
        },
        Query::Method(m) => {
            lemma_member(d, m, d.tables.methods[index].class_idx, d.tables.methods[index].name_idx);
        },
        Query::Field(m) => {
            lemma_member(d, m, d.tables.fields[index].class_idx, d.tables.fields[index].name_idx);
        },
    }
}

proof fn lemma_member(d: DexContents, m: MemberQuery, class_idx: u16, name_idx: u32)
    ensures
        d.member_matches(class_idx, name_idx, m) <==> asked_for(
            m,
            d.tables.strings[d.tables.types[class_idx as int] as int],
            d.tables.strings[name_idx as int],
        ),
{
    let name = d.tables.strings[name_idx as int];
    let class = d.type_text(class_idx as int);
    if m.name is Some {
        lemma_occurs_between(name, m.name->Some_0@);
    }
    if m.class is Some {
        lemma_occurs_between(class, m.class->Some_0@);
    }
}

/// A search looks at every identifier of its table and takes those that match,
/// each once and in ascending order.
pub proof fn lemma_matching(d: DexContents, q: Query)
    requires
        d.indexed(),
    ensures
        forall|x: u32| #[trigger]
            d.matching(q).contains(x) <==> d.matches_query(q, x as int) && match q {
                Query::String(_) => x < d.tables.strings.len(),
                Query::Type(_) => x < d.tables.types.len(),
                Query::Method(_) => x < d.tables.methods.len(),
                Query::Field(_) => x < d.tables.fields.len(),
            },
        forall|i: int, j: int|
            #![trigger d.matching(q)[i], d.matching(q)[j]]
            0 <= i < j < d.matching(q).len() ==> d.matching(q)[i] < d.matching(q)[j],
{
    lemma_matching_below(d, q, d.count_of(q.kind_of()));
}

/// Whether a text names a class, in Java notation or as a descriptor. White
/// space at either end is no part of a name, and a whole descriptor has no dots.
pub open spec fn names_class(name: Seq<char>) -> bool {
    &&& name.len() > 0
    &&& !is_space(name[0])
    &&& !is_space(name.last())
    &&& is_class_descriptor(name) ==> !name.contains('.')
}

/// The class that a name in Java notation stands for matches the type query
/// that is made of the name: dots become slashes in both, and the pattern is a
/// part of the descriptor.
pub proof fn lemma_named_class_matches(d: DexContents, name: Seq<char>, q: Query, index: int)
    requires
        names_class(name),
        d.tables.strings[d.tables.types[index] as int] == class_descriptor(name)->Ok_0,
        q matches Query::Type(p) && p@.len() == name.len() && forall|i: int|
            0 <= i < name.len() ==> #[trigger] p@[i] == (if name[i] == '.' {
                '/'
            } else {
                name[i]
            }),
    ensures
        d.matches_query(q, index),
{
    let p = q->Type_0@;
    let whole = class_descriptor(name)->Ok_0;
    lemma_pattern_within(name, p);
}

/// The descriptor of a class name holds the name with slashes for dots.
pub proof fn lemma_pattern_within(name: Seq<char>, p: Seq<char>)
    requires
        names_class(name),
        p.len() == name.len(),
        forall|i: int|
            0 <= i < name.len() ==> #[trigger] p[i] == (if name[i] == '.' {
                '/'
            } else {
                name[i]
            }),
    ensures
        occurs(class_descriptor(name)->Ok_0, p),
{
    let whole = class_descriptor(name)->Ok_0;
    let none = Seq::<char>::empty();
    assert(trimmed(name) == name);
    lemma_replaced(name, '.', '/');
    assert(p =~= replaced(name, '.', '/'));
    if is_class_descriptor(name) {
        assert(p =~= name);
        lemma_part_occurs(none, p, none);
        assert(none + p + none =~= whole);
    } else {
        let before = if has_class_head(name) {
            none
        } else {
            seq!['L']
        };
        let after = whole.skip((before.len() + p.len()) as int);
        assert(whole =~= before + p + after);
        lemma_part_occurs(before, p, after);
    }
}

// ---------------------------------------------------------------------------
// How identifiers read
// ---------------------------------------------------------------------------

/// The descriptors of a list of types, one behind another, from the first on.
pub open spec fn descriptors_of(d: DexContents, list: Seq<u16>) -> Seq<char>
    decreases list.len(),
{
    if list.len() == 0 {
        Seq::empty()
    } else {
        d.tables.strings[d.tables.types[list[0] as int] as int] + descriptors_of(d, list.skip(1))
    }
}

proof fn lemma_descriptors_push(d: DexContents, list: Seq<u16>, t: u16)
    ensures
        descriptors_of(d, list.push(t)) == descriptors_of(d, list)
            + d.tables.strings[d.tables.types[t as int] as int],
    decreases list.len(),
{
    let more = list.push(t);
    if list.len() == 0 {
        assert(more.skip(1) =~= Seq::<u16>::empty());
        assert(descriptors_of(d, more.skip(1)) == Seq::<char>::empty());
    } else {
        assert(more.skip(1) =~= list.skip(1).push(t));
        lemma_descriptors_push(d, list.skip(1), t);
    }
    assert(descriptors_of(d, more) =~= descriptors_of(d, list)
        + d.tables.strings[d.tables.types[t as int] as int]);
}

proof fn lemma_joined_types(d: DexContents, list: Seq<u16>, n: nat)
    requires
        n <= list.len(),
    ensures
        d.joined_types(list, n) == descriptors_of(d, list.take(n as int)),
    decreases n,
{
    if n > 0 {
        lemma_joined_types(d, list, (n - 1) as nat);
        lemma_descriptors_push(d, list.take(n - 1), list[n - 1]);
        assert(list.take(n as int) =~= list.take(n - 1).push(list[n - 1]));
    }
}

/// A method reads as its class, an arrow, its name, the types of its parameters
/// in order between brackets, and the type of its result.
pub proof fn lemma_method_reads(d: DexContents, index: int)
    requires
        0 <= index < d.tables.methods.len(),
    ensures
        ({
            let m = d.tables.methods[index];
            let p = d.tables.protos[m.proto_idx as int];
            let text = |t: int| d.tables.strings[d.tables.types[t] as int];
            match d.tables.type_list(p.parameters_off) {
                Err(e) => d.match_text(ReferenceKind::Method, index) == Err::<Seq<char>, Error>(e),
                Ok(list) => d.match_text(ReferenceKind::Method, index) == Ok::<Seq<char>, Error>(
                    text(m.class_idx as int) + seq!['-', '>']
                        + d.tables.strings[m.name_idx as int] + seq!['('] + descriptors_of(d, list)
                        + seq![')'] + text(p.return_type_idx as int),
                ),
            }
        }),
{
    reveal_strlit("->");
    reveal_strlit("(");
    reveal_strlit(")");
    let m = d.tables.methods[index];
    let p = d.tables.protos[m.proto_idx as int];
    assert("->"@ =~= seq!['-', '>']);
    assert("("@ =~= seq!['(']);
    assert(")"@ =~= seq![')']);
    match d.tables.type_list(p.parameters_off) {
        Err(_) => {},
        Ok(list) => {
            lemma_joined_types(d, list, list.len());
            assert(list.take(list.len() as int) =~= list);
        },
    }
}

/// A field reads as its class, an arrow, its name, a colon and its type; a type
/// as its descriptor; a string as itself.
pub proof fn lemma_others_read(d: DexContents, index: int)
    requires
        0 <= index,
    ensures
        index < d.tables.fields.len() ==> d.match_text(ReferenceKind::Field, index) == Ok::<
            Seq<char>,
            Error,
        >(
            d.tables.strings[d.tables.types[d.tables.fields[index].class_idx as int] as int]
                + seq!['-', '>'] + d.tables.strings[d.tables.fields[index].name_idx as int]
                + seq![':']
                + d.tables.strings[d.tables.types[d.tables.fields[index].type_idx as int] as int],
        ),
        d.match_text(ReferenceKind::Type, index) == Ok::<Seq<char>, Error>(
            d.tables.strings[d.tables.types[index] as int],
        ),
        index < d.tables.strings.len() ==> d.match_text(ReferenceKind::String, index) == Ok::<
            Seq<char>,
            Error,
        >(d.tables.strings[index]),
{
    reveal_strlit("->");
    reveal_strlit(":");
    assert("->"@ =~= seq!['-', '>']);
    assert(":"@ =~= seq![':']);
}

} // verus!
