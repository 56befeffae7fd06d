//! Annotations that were written can be read.
use vstd::prelude::*;

use crate::collections::{low32, Entries};
use crate::dex_format::u32_in;
use crate::error::Error;
use crate::minidex::again::{
    lemma_extracted_placed, lemma_four_parts, lemma_lists_back, lemma_sets_back, lemma_words_stand,
    words_stand,
};
use crate::minidex::bytecode::CodeRefs;
use crate::minidex::fidelity::{lemma_extracted_layout, sections_for};
use crate::minidex::hollow::parts_of;
use crate::minidex::metadata::{
    annotated_in, annotated_step, annotations_in, item_step, set_in, set_ref_in, set_ref_step,
    AnnotatedKind, Directory, Noted,
};
use crate::minidex::preserved::{
    extracted_def, lemma_extracted_annotation, lemma_extracted_directory, parts_for,
};
use crate::minidex::reader::DexTables;
use crate::minidex::renote::{in_places, mapped_set, moved_directory, moved_members};
use crate::minidex::reread::{list_back, set_back};
use crate::minidex::roam::{directory_stands, list_stands, members_stand};
use crate::minidex::second::lemma_parts_held;
use crate::minidex::sections::{
    annotated_members, directory_words, item_ranks, member_words, or_zero, placed_words,
};
use crate::minidex::tables::Tables;
use crate::minidex::values::{annotation_in, RefSets};
use crate::minidex::{class_of, extracted_from};
use crate::order::{lemma_sort_order, sort_order};
use crate::results::run;

verus! {

// ---------------------------------------------------------------------------
// What can be read
// ---------------------------------------------------------------------------

/// Whether the annotation item at `k` can be read, or there is none.
pub open spec fn item_opens(data: Seq<u8>, k: u32) -> bool {
    k == 0 || (k < data.len() && forall|refs: RefSets|
        (#[trigger] annotation_in(data, k + 1, refs)) is Ok)
}

/// Whether the annotation set at `k` is a list of items that can be read.
pub open spec fn set_opens_as(data: Seq<u8>, k: u32, list: Seq<u32>) -> bool {
    &&& list_stands(data, k, list)
    &&& forall|i: int| 0 <= i < list.len() ==> item_opens(data, #[trigger] list[i])
}

/// Whether the annotation set at `k` can be read, or there is none.
pub open spec fn set_opens(data: Seq<u8>, k: u32) -> bool {
    k == 0 || exists|list: Seq<u32>| #[trigger] set_opens_as(data, k, list)
}

/// Whether the list at `k` is one of sets that can be read.
pub open spec fn list_opens_as(data: Seq<u8>, k: u32, list: Seq<u32>) -> bool {
    &&& list_stands(data, k, list)
    &&& forall|i: int| 0 <= i < list.len() ==> set_opens(data, #[trigger] list[i])
}

/// Whether the list of sets at `k` can be read, or there is none.
pub open spec fn list_opens(data: Seq<u8>, k: u32) -> bool {
    k == 0 || exists|list: Seq<u32>| #[trigger] list_opens_as(data, k, list)
}

/// Whether what annotated members point at can be read.
pub open spec fn members_open(data: Seq<u8>, kind: AnnotatedKind, list: Seq<(u32, u32)>) -> bool {
    forall|i: int|
        0 <= i < list.len() ==> if kind == AnnotatedKind::Parameters {
            list_opens(data, (#[trigger] list[i]).1)
        } else {
            set_opens(data, list[i].1)
        }
}

proof fn lemma_items_open(
    data: Seq<u8>,
    k: u32,
    list: Seq<u32>,
    st: (Seq<u32>, Noted),
    i: int,
)
    requires
        set_opens_as(data, k, list),
        0 <= i,
    ensures
        run(item_step(data, k as int), st, i, list.len() as int) is Ok,
    decreases list.len() - i,
{
    if i < list.len() {
        let off = list[i];
        assert(item_opens(data, off));
        assert(u32_in(data, k + 4 + i * 4) == Ok::<u32, Error>(off));
        if off != 0 {
            assert(annotation_in(data, off + 1, st.1.refs) is Ok);
        }
        lemma_items_open(data, k, list, item_step(data, k as int)(st, i)->Ok_0, i + 1);
    }
}

proof fn lemma_set_opens(data: Seq<u8>, k: u32, s: Noted)
    requires
        set_opens(data, k),
    ensures
        set_in(data, k, s) is Ok,
{
    if k != 0 && s.sets.get(k) is None {
        let list = choose|list: Seq<u32>| #[trigger] set_opens_as(data, k, list);
        lemma_items_open(data, k, list, (Seq::<u32>::empty(), s), 0);
    }
}

proof fn lemma_sets_open(
    data: Seq<u8>,
    k: u32,
    list: Seq<u32>,
    st: (Seq<u32>, Noted),
    i: int,
)
    requires
        list_opens_as(data, k, list),
        0 <= i,
    ensures
        run(set_ref_step(data, k as int), st, i, list.len() as int) is Ok,
    decreases list.len() - i,
{
    if i < list.len() {
        assert(set_opens(data, list[i]));
        assert(u32_in(data, k + 4 + i * 4) == Ok::<u32, Error>(list[i]));
        lemma_set_opens(data, list[i], st.1);
        lemma_sets_open(data, k, list, set_ref_step(data, k as int)(st, i)->Ok_0, i + 1);
    }
}

proof fn lemma_list_opens(data: Seq<u8>, k: u32, s: Noted)
    requires
        list_opens(data, k),
    ensures
        set_ref_in(data, k, s) is Ok,
{
    if k != 0 && s.set_refs.get(k) is None {
        let list = choose|list: Seq<u32>| #[trigger] list_opens_as(data, k, list);
        lemma_sets_open(data, k, list, (Seq::<u32>::empty(), s), 0);
    }
}

proof fn lemma_members_open(
    data: Seq<u8>,
    at: int,
    kind: AnnotatedKind,
    list: Seq<(u32, u32)>,
    st: (Seq<(u32, u32)>, Noted),
    i: int,
)
    requires
        members_stand(data, at, list),
        members_open(data, kind, list),
        0 <= i,
    ensures
        run(annotated_step(data, at, kind), st, i, list.len() as int) is Ok,
    decreases list.len() - i,
{
    if i < list.len() {
        let index = list[i].0;
        let off = list[i].1;
        let noted = Noted {
            refs: if kind == AnnotatedKind::Field {
                st.1.refs.with_field(index)
            } else {
                st.1.refs.with_method(index)
            },
            ..st.1
        };
        if kind == AnnotatedKind::Parameters {
            lemma_list_opens(data, off, noted);
        } else {
            lemma_set_opens(data, off, noted);
        }
        lemma_members_open(
            data,
            at,
            kind,
            list,
            annotated_step(data, at, kind)(st, i)->Ok_0,
            i + 1,
        );
    }
}

/// A directory whose parts can be read can be read.
proof fn lemma_directory_opens(data: Seq<u8>, at: u32, d: Directory, refs: RefSets)
    requires
        directory_stands(data, at as int, d),
        set_opens(data, d.class_annotations_off),
        members_open(data, AnnotatedKind::Field, d.field_annotations),
        members_open(data, AnnotatedKind::Method, d.method_annotations),
        members_open(data, AnnotatedKind::Parameters, d.parameter_annotations),
    ensures
        annotations_in(data, at, refs) is Ok,
{
    if at != 0 {
        let s = Noted {
            sets: Entries::empty(),
            set_refs: Entries::empty(),
            items: Entries::empty(),
            refs,
        };
        let a = at + 16;
        let b = a + d.field_annotations.len() * 8;
        let c = b + d.method_annotations.len() * 8;
        let none = Seq::<(u32, u32)>::empty();
        lemma_set_opens(data, d.class_annotations_off, s);
        let t = set_in(data, d.class_annotations_off, s)->Ok_0;
        lemma_members_open(data, a, AnnotatedKind::Field, d.field_annotations, (none, t), 0);
        let (_, u) = annotated_in(
            data,
            a,
            AnnotatedKind::Field,
            d.field_annotations.len() as u32,
            t,
        )->Ok_0;
        lemma_members_open(data, b, AnnotatedKind::Method, d.method_annotations, (none, u), 0);
        let (_, v) = annotated_in(
            data,
            b,
            AnnotatedKind::Method,
            d.method_annotations.len() as u32,
            u,
        )->Ok_0;
        lemma_members_open(
            data,
            c,
            AnnotatedKind::Parameters,
            d.parameter_annotations,
            (none, v),
            0,
        );
    }
}

// ---------------------------------------------------------------------------
// What was written
// ---------------------------------------------------------------------------

/// Members that were written stand where they were written.
proof fn lemma_members_written(
    data: Seq<u8>,
    at: int,
    words: Seq<u32>,
    start: int,
    list: Seq<(u32, u32)>,
    placed: Entries<u32>,
)
    requires
        words_stand(data, at, words),
        0 <= start,
        start + 2 * list.len() <= words.len(),
        words.subrange(start, start + 2 * list.len()) == member_words(list, placed),
    ensures
        members_stand(data, at + start * 4, moved_members(list, placed)),
{
    let part = member_words(list, placed);
    let got = moved_members(list, placed);
    assert forall|i: int| 0 <= i < got.len() implies u32_in(data, at + start * 4 + i * 8) == Ok::<
        u32,
        Error,
    >((#[trigger] got[i]).0) && u32_in(data, at + start * 4 + i * 8 + 4) == Ok::<u32, Error>(
        got[i].1,
    ) by {
        let j = 2 * i;
        let k = 2 * i + 1;
        assert(part[j] == list[i].0);
        assert(part[k] == or_zero(placed, list[i].1));
        assert(words[start + j] == part[j]);
        assert(words[start + k] == part[k]);
        assert(at + (start + j) * 4 == at + start * 4 + i * 8);
        assert(at + (start + k) * 4 == at + start * 4 + i * 8 + 4);
    }
}

/// A directory that was written stands where it was written.
#[verifier::spinoff_prover]
proof fn lemma_directory_written(
    data: Seq<u8>,
    at: int,
    d: Directory,
    m: Tables,
    sets: Entries<u32>,
    lists: Entries<u32>,
)
    requires
        words_stand(data, at, directory_words(d, m, sets, lists)),
        0 <= at,
        data.len() <= u32::MAX,
    ensures
        directory_stands(data, at, moved_directory(d, m, sets, lists)),
{
    let f = annotated_members(d.field_annotations, true, m);
    let g = annotated_members(d.method_annotations, false, m);
    let k = annotated_members(d.parameter_annotations, false, m);
    let h = seq![
        or_zero(sets, d.class_annotations_off),
        low32(f.len() as int),
        low32(g.len() as int),
        low32(k.len() as int),
    ];
    let a = member_words(f, sets);
    let b = member_words(g, sets);
    let c = member_words(k, lists);
    let words = h + a + b + c;
    let p = 4 + 2 * f.len() as int;
    let q = p + 2 * g.len() as int;
    let n = words.len();
    lemma_four_parts(h, a, b, c);
    assert(u32_in(data, at + (n - 1) * 4) == Ok::<u32, Error>(words[n - 1]));
    assert(n <= u32::MAX);
    assert(u32_in(data, at + 0 * 4) == Ok::<u32, Error>(words[0]));
    assert(u32_in(data, at + 1 * 4) == Ok::<u32, Error>(words[1]));
    assert(u32_in(data, at + 2 * 4) == Ok::<u32, Error>(words[2]));
    assert(u32_in(data, at + 3 * 4) == Ok::<u32, Error>(words[3]));
    lemma_members_written(data, at, words, 4, f, sets);
    assert(at + p * 4 == at + 16 + f.len() * 8);
    lemma_members_written(data, at, words, p, g, sets);
    assert(at + q * 4 == at + 16 + f.len() * 8 + g.len() * 8);
    lemma_members_written(data, at, words, q, k, lists);
}

/// What is placed is there.
proof fn lemma_there<V>(e: Entries<V>, placed: Entries<u32>, id: u32)
    requires
        in_places(e, placed),
        or_zero(placed, id) != 0,
    ensures
        e.get(id) is Some,
        placed.get(id) == Some(or_zero(placed, id)),
{
}

#[verifier::spinoff_prover]
proof fn lemma_item_written(dex: DexTables, descriptor: Seq<char>, id: u32)
    requires
        extracted_from(dex, descriptor) is Ok,
        parts_for(dex, descriptor).annotations.directory is Some,
        in_places(
            parts_for(dex, descriptor).annotations.items,
            sections_for(dex, descriptor).annotations.items,
        ),
    ensures
        item_opens(
            extracted_from(dex, descriptor)->Ok_0.0,
            or_zero(sections_for(dex, descriptor).annotations.items, id),
        ),
{
    let bytes = extracted_from(dex, descriptor)->Ok_0.0;
    let a = parts_for(dex, descriptor).annotations;
    let placed = sections_for(dex, descriptor).annotations;
    let k = or_zero(placed.items, id);
    if k != 0 {
        lemma_there(a.items, placed.items, id);
        lemma_extracted_annotation(dex, descriptor, id, RefSets::empty());
        assert forall|refs: RefSets| (#[trigger] annotation_in(bytes, k + 1, refs)) is Ok by {
            lemma_extracted_annotation(dex, descriptor, id, refs);
        }
    }
}

/// Whether the annotations of an extracted class stand where they were placed.
spec fn stands_placed(dex: DexTables, descriptor: Seq<char>) -> bool {
    let bytes = extracted_from(dex, descriptor)->Ok_0.0;
    let m = extracted_from(dex, descriptor)->Ok_0.1;
    let a = parts_for(dex, descriptor).annotations;
    let placed = sections_for(dex, descriptor).annotations;
    &&& in_places(a.items, placed.items)
    &&& in_places(a.sets, placed.sets)
    &&& in_places(a.set_refs, placed.set_refs)
    &&& forall|id: u32| #[trigger] set_back(bytes, a, placed, m, id)
    &&& forall|id: u32| #[trigger] list_back(bytes, a, placed, id)
}

#[verifier::spinoff_prover]
proof fn lemma_stands_placed(dex: DexTables, descriptor: Seq<char>)
    requires
        extracted_from(dex, descriptor) is Ok,
        parts_for(dex, descriptor).annotations.directory is Some,
    ensures
        stands_placed(dex, descriptor),
{
    let (class, members) = class_of(dex, descriptor)->Ok_0;
    let (bytes, m) = extracted_from(dex, descriptor)->Ok_0;
    let a = parts_for(dex, descriptor).annotations;
    let placed = sections_for(dex, descriptor).annotations;
    lemma_parts_held(dex, class, members);
    assert(parts_of(dex, class, members, CodeRefs::empty())->Ok_0.0.annotations == a);
    lemma_extracted_placed(dex, descriptor);
    assert forall|id: u32| #[trigger] set_back(bytes, a, placed, m, id) by {
        lemma_sets_back(dex, descriptor, id);
    }
    assert forall|id: u32| #[trigger] list_back(bytes, a, placed, id) by {
        lemma_lists_back(dex, descriptor, id);
    }
}

proof fn lemma_set_written(dex: DexTables, descriptor: Seq<char>, id: u32)
    requires
        extracted_from(dex, descriptor) is Ok,
        parts_for(dex, descriptor).annotations.directory is Some,
        stands_placed(dex, descriptor),
    ensures
        set_opens(
            extracted_from(dex, descriptor)->Ok_0.0,
            or_zero(sections_for(dex, descriptor).annotations.sets, id),
        ),
{
    let (bytes, m) = extracted_from(dex, descriptor)->Ok_0;
    let a = parts_for(dex, descriptor).annotations;
    let placed = sections_for(dex, descriptor).annotations;
    let k = or_zero(placed.sets, id);
    if k != 0 {
        lemma_there(a.sets, placed.sets, id);
        assert(set_back(bytes, a, placed, m, id));
        let set = a.sets.get(id)->Some_0;
        let list = mapped_set(set, a.items, m, placed.items);
        let walk = sort_order(item_ranks(a.items, m, set), set.len());
        lemma_sort_order(item_ranks(a.items, m, set), set.len());
        assert forall|i: int| 0 <= i < list.len() implies item_opens(bytes, #[trigger] list[i]) by {
            lemma_item_written(dex, descriptor, set[walk[i]]);
            assert(list[i] == or_zero(placed.items, set[walk[i]]));
        }
        assert(set_opens_as(bytes, k, list));
    }
}

proof fn lemma_list_written(dex: DexTables, descriptor: Seq<char>, id: u32)
    requires
        extracted_from(dex, descriptor) is Ok,
        parts_for(dex, descriptor).annotations.directory is Some,
        stands_placed(dex, descriptor),
    ensures
        list_opens(
            extracted_from(dex, descriptor)->Ok_0.0,
            or_zero(sections_for(dex, descriptor).annotations.set_refs, id),
        ),
{
    let (bytes, m) = extracted_from(dex, descriptor)->Ok_0;
    let a = parts_for(dex, descriptor).annotations;
    let placed = sections_for(dex, descriptor).annotations;
    let k = or_zero(placed.set_refs, id);
    if k != 0 {
        lemma_there(a.set_refs, placed.set_refs, id);
        assert(list_back(bytes, a, placed, id));
        let old = a.set_refs.get(id)->Some_0;
        let list = placed_words(old, placed.sets);
        assert forall|i: int| 0 <= i < list.len() implies set_opens(bytes, #[trigger] list[i]) by {
            lemma_set_written(dex, descriptor, old[i]);
            assert(list[i] == or_zero(placed.sets, old[i]));
        }
        assert(list_opens_as(bytes, k, list));
    }
}

/// The annotations of an extracted class can be read.
#[verifier::spinoff_prover]
pub proof fn lemma_annotations_open(dex: DexTables, descriptor: Seq<char>, refs: RefSets)
    requires
        extracted_from(dex, descriptor) is Ok,
    ensures
        annotations_in(
            extracted_from(dex, descriptor)->Ok_0.0,
            extracted_def(dex, descriptor).annotations_off,
            refs,
        ) is Ok,
{
    let (bytes, m) = extracted_from(dex, descriptor)->Ok_0;
    let at = extracted_def(dex, descriptor).annotations_off;
    let a = parts_for(dex, descriptor).annotations;
    let placed = sections_for(dex, descriptor).annotations;
    lemma_extracted_directory(dex, descriptor);
    lemma_extracted_layout(dex, descriptor);
    if let Some(d) = a.directory {
        lemma_stands_placed(dex, descriptor);
        let words = directory_words(d, m, placed.sets, placed.set_refs);
        lemma_words_stand(bytes, at as int, words);
        lemma_directory_written(bytes, at as int, d, m, placed.sets, placed.set_refs);
        let new = moved_directory(d, m, placed.sets, placed.set_refs);
        lemma_set_written(dex, descriptor, d.class_annotations_off);
        let f = annotated_members(d.field_annotations, true, m);
        let g = annotated_members(d.method_annotations, false, m);
        let k = annotated_members(d.parameter_annotations, false, m);
        assert forall|i: int| 0 <= i < new.field_annotations.len() implies set_opens(
            bytes,
            (#[trigger] new.field_annotations[i]).1,
        ) by {
            lemma_set_written(dex, descriptor, f[i].1);
        }
        assert forall|i: int| 0 <= i < new.method_annotations.len() implies set_opens(
            bytes,
            (#[trigger] new.method_annotations[i]).1,
        ) by {
            lemma_set_written(dex, descriptor, g[i].1);
        }
        assert forall|i: int| 0 <= i < new.parameter_annotations.len() implies list_opens(
            bytes,
            (#[trigger] new.parameter_annotations[i]).1,
        ) by {
            lemma_list_written(dex, descriptor, k[i].1);
        }
        lemma_directory_opens(bytes, at, new, refs);
    }
}

} // verus!
