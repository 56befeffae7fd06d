//! The annotations of an extracted file stand where they were placed, and are
//! read from there.
use vstd::prelude::*;

use crate::collections::{low32, Entries};
use crate::dex_format::u32_in;
use crate::error::Error;
use crate::minidex::assemble::{code_sections_of, sections_of, Sections};
use crate::minidex::bytecode::CodeRefs;
use crate::minidex::emit::padded;
use crate::minidex::fidelity::{lemma_extracted_layout, sections_for};
use crate::minidex::hollow::{parts_of, Parts};
use crate::minidex::metadata::{ClassAnnotations, Directory};
use crate::minidex::preserved::{
    extracted_def, lemma_extracted_annotation, lemma_extracted_directory, lemma_extracted_set,
    lemma_extracted_set_list, parts_for,
};
use crate::minidex::readback::{lemma_code_section_grows, lemma_debug_grows, lemma_members_grow};
use crate::minidex::reader::{word_reader, DexTables, Members};
use crate::minidex::renote::{
    in_places, lemma_annotations_placed, mapped_item, mapped_set, moved_directory, moved_members,
    rewritten_as,
};
use crate::minidex::reread::{item_back, lemma_reread, list_back, set_back};
use crate::minidex::roam::{
    directory_stands, item_read, list_found, list_stands, listed_sets, members_stand, noted_of,
    roamed, seconds, set_found,
};
use crate::minidex::second::{lemma_extracted_present, lemma_parts_held};
use crate::minidex::sections::{
    annotated_members, annotations_section, code_section, debug_section, directory_words,
    interfaces_section, item_ranks, member_words, methods_in_order, or_zero, params_section,
    placed_words, statics_section, strings_section,
};
use crate::minidex::tables::Tables;
use crate::minidex::values::{annotation_in, Item, RefSets, Value};
use crate::minidex::{class_of, extracted_from};
use crate::order::lemma_sort_order;
use crate::results::{collect, lemma_collect_ok};

verus! {

// ---------------------------------------------------------------------------
// The directory
// ---------------------------------------------------------------------------

/// Whether words stand at `at`.
pub open spec fn words_stand(data: Seq<u8>, at: int, words: Seq<u32>) -> bool {
    forall|i: int|
        0 <= i < words.len() ==> u32_in(data, at + i * 4) == Ok::<u32, Error>(#[trigger] words[i])
}

pub proof fn lemma_words_stand(data: Seq<u8>, at: int, words: Seq<u32>)
    requires
        collect(word_reader(data, at), words.len()) == Ok::<Seq<u32>, Error>(words),
    ensures
        words_stand(data, at, words),
{
    lemma_collect_ok(word_reader(data, at), words.len());
    assert forall|i: int| 0 <= i < words.len() implies u32_in(data, at + i * 4) == Ok::<u32, Error>(
        #[trigger] words[i],
    ) by {
        assert(word_reader(data, at)(i) == Ok::<u32, Error>(words[i]));
    }
}

/// Members that were written are read back.
proof fn lemma_members_same(
    data: Seq<u8>,
    at: int,
    words: Seq<u32>,
    start: int,
    list: Seq<(u32, u32)>,
    placed: Entries<u32>,
    got: Seq<(u32, u32)>,
)
    requires
        words_stand(data, at, words),
        0 <= start,
        start + 2 * list.len() <= words.len(),
        words.subrange(start, start + 2 * list.len()) == member_words(list, placed),
        members_stand(data, at + start * 4, got),
        got.len() == list.len(),
    ensures
        got == moved_members(list, placed),
{
    let part = member_words(list, placed);
    assert forall|i: int| 0 <= i < got.len() implies got[i] == moved_members(list, placed)[i] by {
        let j = 2 * i;
        let k = 2 * i + 1;
        assert(part[j] == list[i].0);
        assert(part[k] == or_zero(placed, list[i].1));
        assert(words[start + j] == part[j]);
        assert(words[start + k] == part[k]);
        assert(at + (start + j) * 4 == at + start * 4 + i * 8);
        assert(at + (start + k) * 4 == at + start * 4 + i * 8 + 4);
        assert(u32_in(data, at + start * 4 + i * 8) == Ok::<u32, Error>(got[i].0));
    }
    assert(got =~= moved_members(list, placed));
}

pub proof fn lemma_four_parts(h: Seq<u32>, a: Seq<u32>, b: Seq<u32>, c: Seq<u32>)
    requires
        h.len() == 4,
    ensures
        ({
            let words = h + a + b + c;
            let p = 4 + a.len() as int;
            let q = p + b.len() as int;
            &&& words.len() == q + c.len()
            &&& words[0] == h[0]
            &&& words[1] == h[1]
            &&& words[2] == h[2]
            &&& words[3] == h[3]
            &&& words.subrange(4, p) == a
            &&& words.subrange(p, q) == b
            &&& words.subrange(q, q + c.len()) == c
        }),
{
    let words = h + a + b + c;
    let p = 4 + a.len() as int;
    let q = p + b.len() as int;
    assert(words.subrange(4, p) =~= a);
    assert(words.subrange(p, q) =~= b);
    assert(words.subrange(q, q + c.len()) =~= c);
}

/// The parts of a directory that was written are read back.
#[verifier::spinoff_prover]
proof fn lemma_listed_same(
    data: Seq<u8>,
    at: int,
    h: Seq<u32>,
    f: Seq<(u32, u32)>,
    g: Seq<(u32, u32)>,
    k: Seq<(u32, u32)>,
    sets: Entries<u32>,
    lists: Entries<u32>,
    got: Directory,
)
    requires
        words_stand(
            data,
            at,
            h + member_words(f, sets) + member_words(g, sets) + member_words(k, lists),
        ),
        h.len() == 4,
        h[1] == low32(f.len() as int),
        h[2] == low32(g.len() as int),
        h[3] == low32(k.len() as int),
        directory_stands(data, at, got),
        0 <= at,
        data.len() <= u32::MAX,
    ensures
        got.class_annotations_off == h[0],
        got.field_annotations == moved_members(f, sets),
        got.method_annotations == moved_members(g, sets),
        got.parameter_annotations == moved_members(k, lists),
{
    let a = member_words(f, sets);
    let b = member_words(g, sets);
    let c = member_words(k, lists);
    let words = h + a + b + c;
    let p = 4 + 2 * f.len() as int;
    let q = p + 2 * g.len() as int;
    let n = words.len();
    lemma_four_parts(h, a, b, c);
    assert(u32_in(data, at + (n - 1) * 4) == Ok::<u32, Error>(words[n - 1]));
    assert(n <= u32::MAX);
    assert(u32_in(data, at + 0 * 4) == Ok::<u32, Error>(words[0]));
    assert(u32_in(data, at + 1 * 4) == Ok::<u32, Error>(words[1]));
    assert(u32_in(data, at + 2 * 4) == Ok::<u32, Error>(words[2]));
    assert(u32_in(data, at + 3 * 4) == Ok::<u32, Error>(words[3]));
    assert(got.field_annotations.len() == f.len());
    assert(got.method_annotations.len() == g.len());
    assert(got.parameter_annotations.len() == k.len());
    lemma_members_same(data, at, words, 4, f, sets, got.field_annotations);
    assert(at + p * 4 == at + 16 + f.len() * 8);
    lemma_members_same(data, at, words, p, g, sets, got.method_annotations);
    assert(at + q * 4 == at + 16 + f.len() * 8 + g.len() * 8);
    lemma_members_same(data, at, words, q, k, lists, got.parameter_annotations);
}

/// A directory that was written is read back.
proof fn lemma_directory_same(
    data: Seq<u8>,
    at: int,
    d: Directory,
    m: Tables,
    sets: Entries<u32>,
    lists: Entries<u32>,
    got: Directory,
)
    requires
        words_stand(data, at, directory_words(d, m, sets, lists)),
        directory_stands(data, at, got),
        0 <= at,
        data.len() <= u32::MAX,
    ensures
        got == moved_directory(d, m, sets, lists),
{
    let f = annotated_members(d.field_annotations, true, m);
    let g = annotated_members(d.method_annotations, false, m);
    let k = annotated_members(d.parameter_annotations, false, m);
    let h = seq![
        or_zero(sets, d.class_annotations_off),
        low32(f.len() as int),
        low32(g.len() as int),
        low32(k.len() as int),
    ];
    lemma_listed_same(data, at, h, f, g, k, sets, lists, got);
}

// ---------------------------------------------------------------------------
// The annotations
// ---------------------------------------------------------------------------

/// A list that was written stands where it was placed.
proof fn lemma_list_written(data: Seq<u8>, k: u32, words: Seq<u32>)
    requires
        u32_in(data, k as int) == Ok::<u32, Error>(words.len() as u32),
        words.len() <= u32::MAX,
        collect(word_reader(data, k + 4), words.len()) == Ok::<Seq<u32>, Error>(words),
    ensures
        list_stands(data, k, words),
{
    lemma_words_stand(data, k + 4, words);
}

#[verifier::spinoff_prover]
pub proof fn lemma_lists_back(dex: DexTables, descriptor: Seq<char>, id: u32)
    requires
        extracted_from(dex, descriptor) is Ok,
        parts_for(dex, descriptor).annotations.directory is Some,
        roamed(
            dex.data,
            class_of(dex, descriptor)->Ok_0.0.annotations_off,
            parts_for(dex, descriptor).annotations,
        ),
    ensures
        list_back(
            extracted_from(dex, descriptor)->Ok_0.0,
            parts_for(dex, descriptor).annotations,
            sections_for(dex, descriptor).annotations,
            id,
        ),
{
    let a = parts_for(dex, descriptor).annotations;
    if let Some(list) = a.set_refs.get(id) {
        let bytes = extracted_from(dex, descriptor)->Ok_0.0;
        let placed = sections_for(dex, descriptor).annotations;
        let d = a.directory->Some_0;
        lemma_extracted_set_list(dex, descriptor, id);
        assert(list_found(dex.data, noted_of(a), seconds(d.parameter_annotations).to_set(), id));
        lemma_list_written(
            bytes,
            or_zero(placed.set_refs, id),
            placed_words(list, placed.sets),
        );
    }
}

#[verifier::spinoff_prover]
pub proof fn lemma_sets_back(dex: DexTables, descriptor: Seq<char>, id: u32)
    requires
        extracted_from(dex, descriptor) is Ok,
        parts_for(dex, descriptor).annotations.directory is Some,
        roamed(
            dex.data,
            class_of(dex, descriptor)->Ok_0.0.annotations_off,
            parts_for(dex, descriptor).annotations,
        ),
    ensures
        set_back(
            extracted_from(dex, descriptor)->Ok_0.0,
            parts_for(dex, descriptor).annotations,
            sections_for(dex, descriptor).annotations,
            extracted_from(dex, descriptor)->Ok_0.1,
            id,
        ),
{
    let a = parts_for(dex, descriptor).annotations;
    if let Some(set) = a.sets.get(id) {
        let (bytes, m) = extracted_from(dex, descriptor)->Ok_0;
        let placed = sections_for(dex, descriptor).annotations;
        let d = a.directory->Some_0;
        lemma_extracted_set(dex, descriptor, id);
        assert(set_found(dex.data, noted_of(a), listed_sets(d), id));
        lemma_sort_order(item_ranks(a.items, m, set), set.len());
        lemma_list_written(
            bytes,
            or_zero(placed.sets, id),
            mapped_set(set, a.items, m, placed.items),
        );
    }
}

#[verifier::spinoff_prover]
proof fn lemma_items_back(dex: DexTables, descriptor: Seq<char>, id: u32)
    requires
        extracted_from(dex, descriptor) is Ok,
        parts_for(dex, descriptor).annotations.directory is Some,
    ensures
        item_back(
            extracted_from(dex, descriptor)->Ok_0.0,
            parts_for(dex, descriptor).annotations,
            sections_for(dex, descriptor).annotations,
            extracted_from(dex, descriptor)->Ok_0.1,
            dex,
            id,
        ),
{
    let a = parts_for(dex, descriptor).annotations;
    let (bytes, m) = extracted_from(dex, descriptor)->Ok_0;
    let placed = sections_for(dex, descriptor).annotations;
    if let Some(item) = a.items.get(id) {
        let k = or_zero(placed.items, id);
        assert forall|got: Item| #[trigger] item_read(bytes, k, got) implies got == mapped_item(
            item,
            m,
            dex,
        ) by {
            let refs = choose|refs: RefSets|
                (#[trigger] annotation_in(bytes, k + 1, refs)) is Ok && annotation_in(
                    bytes,
                    k + 1,
                    refs,
                )->Ok_0.0 == got.annotation;
            lemma_extracted_annotation(dex, descriptor, id, refs);
        }
    }
}

/// The data before the annotations.
pub open spec fn data_before(parts: Parts, m: Tables) -> Seq<u8> {
    let base = m.data_at();
    let a = strings_section(base, m.strings, 0, Seq::empty(), Seq::empty()).0;
    let b = params_section(base, m.protos, 0, padded(a), Seq::empty()).0;
    interfaces_section(base, parts.interfaces, m, b)->Ok_0.0
}

/// Code and class data come behind the data that was there.
proof fn lemma_code_sections_grow(
    members: Members,
    parts: Parts,
    m: Tables,
    dex: DexTables,
    s: Sections,
)
    requires
        code_sections_of(members, parts, m, dex, s) is Ok,
    ensures
        s.data.len() <= code_sections_of(members, parts, m, dex, s)->Ok_0.data.len(),
        code_sections_of(members, parts, m, dex, s)->Ok_0.annotations == s.annotations,
{
    let base = m.data_at();
    let none = Entries::<u32>::empty();
    let methods = methods_in_order(members.methods(), m);
    lemma_debug_grows(base, methods, 0, parts.debug_info, m, dex, s.data, none);
    let (g, debug) = debug_section(
        base,
        methods,
        0,
        parts.debug_info,
        m,
        dex,
        s.data,
        none,
    )->Ok_0;
    lemma_code_section_grows(base, methods, 0, parts.codes, debug, g, none);
    let (h, code) = code_section(base, methods, 0, parts.codes, debug, g, none)->Ok_0;
    if members.fields().len() > 0 || members.methods().len() > 0 {
        lemma_members_grow(members, m, code, h);
    }
}

/// Static values come behind the data that was there.
proof fn lemma_statics_grow(
    base: int,
    values: Option<Seq<Value>>,
    m: Tables,
    dex: DexTables,
    data: Seq<u8>,
)
    requires
        statics_section(base, values, m, dex, data) is Ok,
    ensures
        data.len() <= statics_section(base, values, m, dex, data)->Ok_0.0.len(),
{
}

/// What is known before the code is written.
pub open spec fn before_code(parts: Parts, m: Tables, dex: DexTables) -> Sections {
    let base = m.data_at();
    let (a, string_offsets) = strings_section(base, m.strings, 0, Seq::empty(), Seq::empty());
    let (b, param_offsets) = params_section(base, m.protos, 0, padded(a), Seq::empty());
    let (c, interfaces_off) = interfaces_section(base, parts.interfaces, m, b)->Ok_0;
    let (d, annotations) = annotations_section(base, parts.annotations, m, dex, c)->Ok_0;
    let (f, static_values_off) = statics_section(base, parts.static_values, m, dex, d)->Ok_0;
    Sections {
        data: f,
        string_offsets,
        param_offsets,
        interfaces_off,
        annotations,
        static_values_off,
        debug_offsets: Entries::empty(),
        code_offsets: Entries::empty(),
        class_data_off: 0,
    }
}

/// The sections are written one behind the other.
#[verifier::spinoff_prover]
pub proof fn lemma_sections_steps(members: Members, parts: Parts, m: Tables, dex: DexTables)
    requires
        sections_of(members, parts, m, dex) is Ok,
    ensures
        ({
            let base = m.data_at();
            let c = data_before(parts, m);
            let written = annotations_section(base, parts.annotations, m, dex, c);
            let d = written->Ok_0.0;
            let s = before_code(parts, m, dex);
            &&& written is Ok
            &&& statics_section(base, parts.static_values, m, dex, d) is Ok
            &&& s.data == statics_section(base, parts.static_values, m, dex, d)->Ok_0.0
            &&& s.annotations == written->Ok_0.1
            &&& code_sections_of(members, parts, m, dex, s) == sections_of(members, parts, m, dex)
        }),
{
    reveal(sections_of);
}

/// The annotations are written behind the interfaces, within the data.
pub proof fn lemma_annotations_within(members: Members, parts: Parts, m: Tables, dex: DexTables)
    requires
        sections_of(members, parts, m, dex) is Ok,
    ensures
        ({
            let s = sections_of(members, parts, m, dex)->Ok_0;
            let written = annotations_section(
                m.data_at(),
                parts.annotations,
                m,
                dex,
                data_before(parts, m),
            );
            &&& written is Ok
            &&& written->Ok_0.0.len() <= s.data.len()
            &&& written->Ok_0.1 == s.annotations
        }),
{
    let c = data_before(parts, m);
    let d = annotations_section(m.data_at(), parts.annotations, m, dex, c)->Ok_0.0;
    lemma_sections_steps(members, parts, m, dex);
    lemma_code_sections_grow(members, parts, m, dex, before_code(parts, m, dex));
    lemma_statics_grow(m.data_at(), parts.static_values, m, dex, d);
}

/// Where the annotations of an extracted file were placed.
#[verifier::spinoff_prover]
pub proof fn lemma_extracted_placed(dex: DexTables, descriptor: Seq<char>)
    requires
        extracted_from(dex, descriptor) is Ok,
        parts_for(dex, descriptor).annotations.directory is Some,
        parts_for(dex, descriptor).annotations.items.wf(),
        parts_for(dex, descriptor).annotations.sets.wf(),
        parts_for(dex, descriptor).annotations.set_refs.wf(),
    ensures
        ({
            let a = parts_for(dex, descriptor).annotations;
            let placed = sections_for(dex, descriptor).annotations;
            &&& in_places(a.items, placed.items)
            &&& in_places(a.sets, placed.sets)
            &&& in_places(a.set_refs, placed.set_refs)
        }),
{
    let (class, members) = class_of(dex, descriptor)->Ok_0;
    let m = extracted_from(dex, descriptor)->Ok_0.1;
    let parts = parts_for(dex, descriptor);
    lemma_extracted_layout(dex, descriptor);
    lemma_annotations_within(members, parts, m, dex);
    lemma_annotations_placed(m.data_at(), parts.annotations, m, dex, data_before(parts, m));
}

/// The annotations of an extracted file are those of the source, as they were
/// placed.
#[verifier::spinoff_prover]
pub proof fn lemma_extracted_reread(dex: DexTables, descriptor: Seq<char>, b: ClassAnnotations)
    requires
        extracted_from(dex, descriptor) is Ok,
        parts_for(dex, descriptor).annotations.directory is Some,
        roamed(
            extracted_from(dex, descriptor)->Ok_0.0,
            extracted_def(dex, descriptor).annotations_off,
            b,
        ),
    ensures
        rewritten_as(
            parts_for(dex, descriptor).annotations,
            sections_for(dex, descriptor).annotations,
            b,
            extracted_from(dex, descriptor)->Ok_0.1,
            dex,
        ),
{
    let (class, members) = class_of(dex, descriptor)->Ok_0;
    let (bytes, m) = extracted_from(dex, descriptor)->Ok_0;
    let a = parts_for(dex, descriptor).annotations;
    let placed = sections_for(dex, descriptor).annotations;
    let at = extracted_def(dex, descriptor).annotations_off;
    let d = a.directory->Some_0;
    lemma_parts_held(dex, class, members);
    assert(parts_of(dex, class, members, CodeRefs::empty())->Ok_0.0.annotations == a);
    lemma_extracted_placed(dex, descriptor);
    lemma_extracted_present(dex, descriptor);
    lemma_extracted_directory(dex, descriptor);
    let words = directory_words(d, m, placed.sets, placed.set_refs);
    lemma_words_stand(bytes, at as int, words);
    lemma_extracted_layout(dex, descriptor);
    lemma_directory_same(
        bytes,
        at as int,
        d,
        m,
        placed.sets,
        placed.set_refs,
        b.directory->Some_0,
    );
    assert forall|id: u32| #[trigger] item_back(bytes, a, placed, m, dex, id) by {
        lemma_items_back(dex, descriptor, id);
    }
    assert forall|id: u32| #[trigger] set_back(bytes, a, placed, m, id) by {
        lemma_sets_back(dex, descriptor, id);
    }
    assert forall|id: u32| #[trigger] list_back(bytes, a, placed, id) by {
        lemma_lists_back(dex, descriptor, id);
    }
    lemma_reread(dex.data, class.annotations_off, a, bytes, at, b, placed, m, dex);
}

} // verus!
