//! Extracting a class from its extracted file gives that file.
use vstd::prelude::*;

use crate::collections::{lemma_rank, rank_from, Entries};
use crate::error::Error;
use crate::minidex::again::{
    before_code, data_before, lemma_annotations_within, lemma_extracted_placed,
    lemma_extracted_reread, lemma_sections_steps,
};
use crate::minidex::assemble::{
    body, built, class_words, code_sections_of, data_items, file_size, least, map_of, sections_of,
    table_items, version_of, NO_INDEX, Sections,
};
use crate::minidex::bytecode::CodeRefs;
use crate::minidex::codeback::{code_ok, placed_code};
use crate::minidex::debugback::mapped_debug;
use crate::minidex::emit::padded;
use crate::minidex::equal::{lemma_code_placed, lemma_method_code, members_again, new_tables};
use crate::minidex::fidelity::{lemma_extracted_layout, lemma_extracted_tables, sections_for};
use crate::minidex::gather::gathered;
use crate::minidex::hollow::{parts_of, statics_of, Parts};
use crate::minidex::members::new_members;
use crate::minidex::metadata::{annotations_in, debug_in, ClassAnnotations};
use crate::minidex::notes::{lemma_annotations_ok, lemma_get_at};
use crate::minidex::placement::{code_ok_at, lemma_codes_ok, lemma_relinked_codes_ok};
use crate::minidex::preserved::{
    extracted_def, lemma_extracted_debug, lemma_extracted_directory, lemma_extracted_interfaces,
    lemma_extracted_statics, parts_for,
};
use crate::minidex::reader::{ClassDef, DexTables, EncodedMethod, Members};
use crate::minidex::rebuilt::{lemma_members_twice, lemma_methods_paired, lemma_once_before};
use crate::minidex::recount::{
    codes_paired, debugs_paired, ids_apart, lemma_codes_twice, lemma_debugs_twice,
    lemma_paired_least, lemma_version_same, paired,
};
use crate::minidex::relinks::{code_settled, lemma_codes_linked, written_code};
use crate::minidex::renote::{
    all_present, lemma_annotations_again, lemma_present_all, moved_members,
};
use crate::minidex::reparts::{lemma_class_found, lemma_parts_again};
use crate::minidex::retable::lemma_extracted_mapped;
use crate::minidex::rewrite::{lemma_array_again, served, twice};
use crate::minidex::roam::roamed;
use crate::minidex::roundtrip::lemma_collect_all;
use crate::minidex::second::{
    debug_read, lemma_extracted_alike, lemma_extracted_present, lemma_parts_held,
};
use crate::minidex::sections::{
    annotated_members, annotations_section, class_data_section, code_section, debug_section,
    field_ranks, interfaces_section, member_ranks, method_rank, method_ranks, methods_in_order,
    new_member, or_zero, params_section, present_members, statics_section, strings_section,
    type_mapper, PlacedAnnotations,
};
use crate::minidex::settled::{lemma_settled, settled};
use crate::minidex::tableback::class_with;
use crate::minidex::tables::Tables;
use crate::minidex::validate::dex_fault;
use crate::minidex::valueback::lemma_array_in_ok;
use crate::minidex::values::RefSets;
use crate::minidex::wholes::{
    extracts_once, lemma_code_kept, lemma_code_owner, lemma_method_forth, lemma_picked_back,
    lemma_picked_forth, methods_once, new_method,
};
use crate::minidex::{class_of, extracted, extracted_from, linked};
use crate::order::lemma_sort_order;
use crate::results::lemma_collect_ok;

verus! {

// ---------------------------------------------------------------------------
// Debug items and code
// ---------------------------------------------------------------------------

/// The debug item of a method as it is read from the extracted file.
#[verifier::spinoff_prover]
proof fn lemma_debug_settled(dex: DexTables, descriptor: Seq<char>, new: Parts, i: int)
    requires
        extracts_once(dex, descriptor),
        methods_once(members_again(dex, descriptor)),
        parts_of(
            new_tables(dex, descriptor),
            extracted_def(dex, descriptor),
            members_again(dex, descriptor),
            CodeRefs::empty(),
        ) is Ok,
        new == parts_of(
            new_tables(dex, descriptor),
            extracted_def(dex, descriptor),
            members_again(dex, descriptor),
            CodeRefs::empty(),
        )->Ok_0.0,
        0 <= i < class_of(dex, descriptor)->Ok_0.1.methods().len(),
    ensures
        ({
            let m = extracted_from(dex, descriptor)->Ok_0.1;
            let x = class_of(dex, descriptor)->Ok_0.1.methods()[i];
            new.debug_info.get(method_rank(m, x.method_idx)) == match parts_for(
                dex,
                descriptor,
            ).debug_info.get(x.method_idx) {
                None => None,
                Some(d) => Some(mapped_debug(d, m, dex)),
            }
        }),
{
    let (bytes, m) = extracted_from(dex, descriptor)->Ok_0;
    let t = new_tables(dex, descriptor);
    let (old_class, members) = class_of(dex, descriptor)->Ok_0;
    let def = extracted_def(dex, descriptor);
    let again = members_again(dex, descriptor);
    let s = sections_for(dex, descriptor);
    let x = members.methods()[i];
    let k = lemma_method_forth(members, m, s.code_offsets, i);
    let y = again.methods()[k];
    let first = parts_of(dex, old_class, members, CodeRefs::empty())->Ok_0.0;
    lemma_extracted_layout(dex, descriptor);
    lemma_parts_held(t, def, again);
    lemma_parts_held(dex, old_class, members);
    lemma_code_placed(dex, descriptor, i);
    lemma_code_kept(dex.data, members, i);
    lemma_code_kept(bytes, again, k);
    assert(debug_read(dex.data, first.codes, first.debug_info, x.method_idx));
    assert(debug_read(bytes, new.codes, new.debug_info, y.method_idx));
    assert(first.debug_info == parts_for(dex, descriptor).debug_info);
    if x.code_off != 0 {
        lemma_method_code(dex, descriptor, i);
        let off = or_zero(s.debug_offsets, x.method_idx);
        assert(new.codes.get(y.method_idx)->Some_0.debug_info_off == off);
        lemma_extracted_debug(dex, descriptor, i, RefSets::empty());
        if off != 0 {
            let refs = choose|refs: RefSets|
                (#[trigger] debug_in(bytes, off as int, refs)) is Ok && debug_in(
                    bytes,
                    off as int,
                    refs,
                )->Ok_0.0 == new.debug_info.get(y.method_idx)->Some_0;
            lemma_extracted_debug(dex, descriptor, i, refs);
        }
    }
}

/// The code of an extracted class holds together.
proof fn lemma_code_sound(dex: DexTables, descriptor: Seq<char>, id: u32)
    requires
        extracted_from(dex, descriptor) is Ok,
    ensures
        parts_for(dex, descriptor).codes.wf(),
        parts_for(dex, descriptor).codes.get(id) matches Some(code) ==> code_ok(code),
{
    let (class, members) = class_of(dex, descriptor)->Ok_0;
    let m = extracted_from(dex, descriptor)->Ok_0.1;
    let (first, refs) = parts_of(dex, class, members, CodeRefs::empty())->Ok_0;
    lemma_codes_ok(dex.data, members.methods(), CodeRefs::empty());
    lemma_relinked_codes_ok(first.codes, refs, m, dex);
    assert(code_ok_at(parts_for(dex, descriptor).codes, id));
}

/// Whether the parts of a class are those of its extracted file, with the code
/// as it stands there.
pub open spec fn parts_settled(dex: DexTables, descriptor: Seq<char>, new: Parts) -> bool {
    let read = parts_of(
        new_tables(dex, descriptor),
        extracted_def(dex, descriptor),
        members_again(dex, descriptor),
        CodeRefs::empty(),
    );
    let members = class_of(dex, descriptor)->Ok_0.1;
    &&& read is Ok
    &&& new == Parts { codes: new.codes, ..read->Ok_0.0 }
    &&& new.codes.wf()
    &&& forall|i: int|
        0 <= i < members.methods().len() ==> code_settled(
            dex,
            descriptor,
            new.codes,
            #[trigger] members.methods()[i],
        )
    &&& forall|id: u32|
        (#[trigger] new.codes.get(id)) is Some ==> exists|i: int|
            0 <= i < members.methods().len() && (#[trigger] members.methods()[i]).code_off != 0
                && new_method(
                members.methods()[i],
                extracted_from(dex, descriptor)->Ok_0.1,
                sections_for(dex, descriptor).code_offsets,
            ).method_idx == id && new.codes.get(id) == Some(
                written_code(dex, descriptor, members.methods()[i]),
            )
}

/// Whether a class can be extracted, and lists no method twice, neither before
/// nor when it was extracted.
spec fn extracts_apart(dex: DexTables, descriptor: Seq<char>) -> bool {
    extracts_once(dex, descriptor) && methods_once(members_again(dex, descriptor))
}

/// Debug items and code go with those that they became.
#[verifier::spinoff_prover]
proof fn lemma_all_paired(dex: DexTables, descriptor: Seq<char>, n: Tables, new: Parts)
    requires
        extracts_apart(dex, descriptor),
        settled(dex, descriptor, n),
        parts_settled(dex, descriptor, new),
    ensures
        ({
            let m = extracted_from(dex, descriptor)->Ok_0.1;
            let old = parts_for(dex, descriptor);
            let s = sections_for(dex, descriptor);
            let a = methods_in_order(class_of(dex, descriptor)->Ok_0.1.methods(), m);
            let b = methods_in_order(members_again(dex, descriptor).methods(), n);
            &&& a.len() == b.len()
            &&& ids_apart(a)
            &&& ids_apart(b)
            &&& forall|i: int|
                0 <= i < a.len() ==> #[trigger] b[i] == new_method(a[i], m, s.code_offsets)
            &&& debugs_paired(a, b, old.debug_info, new.debug_info, m, dex)
            &&& codes_paired(a, b, old.codes, new.codes, s.debug_offsets)
        }),
{
    let m = extracted_from(dex, descriptor)->Ok_0.1;
    let t = new_tables(dex, descriptor);
    let c = class_of(dex, descriptor)->Ok_0.1;
    let old = parts_for(dex, descriptor);
    let s = sections_for(dex, descriptor);
    let a = methods_in_order(c.methods(), m);
    let b = methods_in_order(members_again(dex, descriptor).methods(), n);
    let read = parts_of(
        t,
        extracted_def(dex, descriptor),
        members_again(dex, descriptor),
        CodeRefs::empty(),
    )->Ok_0.0;
    lemma_extracted_mapped(dex, descriptor);
    lemma_methods_paired(c, m, s.code_offsets, dex, t, n);
    assert forall|j: int| 0 <= j < a.len() implies new.debug_info.get(b[j].method_idx)
        == match old.debug_info.get((#[trigger] a[j]).method_idx) {
        None => None,
        Some(d) => Some(mapped_debug(d, m, dex)),
    } by {
        let i = lemma_picked_back(c.methods(), method_ranks(c.methods(), m), j);
        assert(b[j] == new_method(a[j], m, s.code_offsets));
        lemma_debug_settled(dex, descriptor, read, i);
    }
    assert forall|j: int| 0 <= j < a.len() implies match old.codes.get(
        (#[trigger] a[j]).method_idx,
    ) {
        None => new.codes.get(b[j].method_idx) is None,
        Some(code) => code_ok(code) && new.codes.get(b[j].method_idx) == Some(
            placed_code(code, or_zero(s.debug_offsets, a[j].method_idx)),
        ),
    } by {
        let i = lemma_picked_back(c.methods(), method_ranks(c.methods(), m), j);
        assert(b[j] == new_method(a[j], m, s.code_offsets));
        lemma_code_placed(dex, descriptor, i);
        lemma_code_sound(dex, descriptor, a[j].method_idx);
        assert(code_settled(dex, descriptor, new.codes, c.methods()[i]));
    }
}

// ---------------------------------------------------------------------------
// Annotations
// ---------------------------------------------------------------------------

/// The members of a list that was written have an index again.
proof fn lemma_members_present(
    list: Seq<(u32, u32)>,
    is_field: bool,
    placed: Entries<u32>,
    dex: DexTables,
    m: Tables,
    t: DexTables,
    n: Tables,
)
    requires
        served(dex, m, t, n),
        all_present(list, is_field, m),
    ensures
        all_present(
            moved_members(annotated_members(list, is_field, m), placed),
            is_field,
            n,
        ),
{
    let kept = present_members(list, is_field, m, 0, Seq::empty());
    let new = moved_members(annotated_members(list, is_field, m), placed);
    lemma_present_all(list, is_field, m, 0, Seq::empty());
    assert forall|j: int| 0 <= j < new.len() implies new_member(
        n,
        is_field,
        (#[trigger] new[j]).0,
    ) is Ok by {
        let i = lemma_picked_back(kept, member_ranks(kept), j);
        assert(new[j].0 == kept[i].0);
        assert(new_member(m, is_field, list[i].0) is Ok);
        assert(kept[i] == (new_member(m, is_field, list[i].0)->Ok_0 as u32, list[i].1));
        if is_field {
            assert(m.mapped_field(list[i].0) is Ok);
        } else {
            assert(m.mapped_method(list[i].0) is Ok);
        }
    }
}

/// Whether two tables of offsets list as many, from the same offset on.
pub open spec fn places_alike(x: Entries<u32>, y: Entries<u32>) -> bool {
    x.keys.len() == y.keys.len() && least(x.values) == least(y.values)
}

/// Whether annotations were placed alike.
pub open spec fn placed_alike(x: PlacedAnnotations, y: PlacedAnnotations) -> bool {
    &&& places_alike(x.items, y.items)
    &&& places_alike(x.sets, y.sets)
    &&& places_alike(x.set_refs, y.set_refs)
    &&& x.directory == y.directory
}

/// The annotations of an extracted class are written as they stand.
#[verifier::spinoff_prover]
proof fn lemma_annotations_settled(
    dex: DexTables,
    descriptor: Seq<char>,
    n: Tables,
    b: ClassAnnotations,
)
    requires
        extracted_from(dex, descriptor) is Ok,
        settled(dex, descriptor, n),
        roamed(
            extracted_from(dex, descriptor)->Ok_0.0,
            extracted_def(dex, descriptor).annotations_off,
            b,
        ),
    ensures
        ({
            let m = extracted_from(dex, descriptor)->Ok_0.1;
            let parts = parts_for(dex, descriptor);
            let data = data_before(parts, m);
            let old = annotations_section(m.data_at(), parts.annotations, m, dex, data);
            let new = annotations_section(
                m.data_at(),
                b,
                n,
                new_tables(dex, descriptor),
                data,
            );
            &&& old is Ok
            &&& new is Ok
            &&& new->Ok_0.0 == old->Ok_0.0
            &&& placed_alike(old->Ok_0.1, new->Ok_0.1)
        }),
{
    let m = extracted_from(dex, descriptor)->Ok_0.1;
    let (class, members) = class_of(dex, descriptor)->Ok_0;
    let t = new_tables(dex, descriptor);
    let parts = parts_for(dex, descriptor);
    let a = parts.annotations;
    let data = data_before(parts, m);
    lemma_extracted_directory(dex, descriptor);
    lemma_extracted_layout(dex, descriptor);
    lemma_annotations_within(members, parts, m, dex);
    if a.directory is Some {
        let d = a.directory->Some_0;
        let placed = sections_for(dex, descriptor).annotations;
        lemma_extracted_alike(dex, descriptor);
        lemma_extracted_reread(dex, descriptor, b);
        lemma_extracted_present(dex, descriptor);
        lemma_annotations_ok(dex.data, class.annotations_off, RefSets::empty());
        lemma_extracted_placed(dex, descriptor);
        lemma_members_present(d.field_annotations, true, placed.sets, dex, m, t, n);
        lemma_members_present(d.method_annotations, false, placed.sets, dex, m, t, n);
        lemma_members_present(d.parameter_annotations, false, placed.set_refs, dex, m, t, n);
        lemma_annotations_again(m.data_at(), a, b, dex, m, t, n, data);
    }
}

// ---------------------------------------------------------------------------
// The data section
// ---------------------------------------------------------------------------

/// The data before the annotations is the same.
#[verifier::spinoff_prover]
proof fn lemma_before_settled(dex: DexTables, descriptor: Seq<char>, n: Tables, new: Parts)
    requires
        extracted_from(dex, descriptor) is Ok,
        settled(dex, descriptor, n),
        new_tables(dex, descriptor).type_list(extracted_def(dex, descriptor).interfaces_off) == Ok::<
            Seq<u16>,
            Error,
        >(new.interfaces),
    ensures
        ({
            let m = extracted_from(dex, descriptor)->Ok_0.1;
            let parts = parts_for(dex, descriptor);
            let base = m.data_at();
            let a = strings_section(base, m.strings, 0, Seq::empty(), Seq::empty()).0;
            let b = params_section(base, m.protos, 0, padded(a), Seq::empty()).0;
            &&& interfaces_section(base, parts.interfaces, m, b) is Ok
            &&& interfaces_section(base, new.interfaces, n, b) == interfaces_section(
                base,
                parts.interfaces,
                m,
                b,
            )
        }),
{
    let m = extracted_from(dex, descriptor)->Ok_0.1;
    let members = class_of(dex, descriptor)->Ok_0.1;
    let parts = parts_for(dex, descriptor);
    let old = parts.interfaces;
    let list = new.interfaces;
    let f = type_mapper(m, old);
    let g = type_mapper(n, list);
    lemma_extracted_layout(dex, descriptor);
    reveal(sections_of);
    lemma_extracted_interfaces(dex, descriptor);
    lemma_collect_ok(f, old.len());
    assert forall|i: int| 0 <= i < list.len() implies #[trigger] g(i) == Ok::<u16, Error>(
        list[i],
    ) by {
        assert(f(i) == Ok::<u16, Error>(list[i]));
        assert(m.mapped_type(old[i] as u32) is Ok);
        assert(n.mapped_type(list[i] as u32) is Ok);
    }
    lemma_collect_all(g, list, list.len());
    assert(list.take(list.len() as int) =~= list);
}

/// Whether two data sections hold the same at the same places.
pub open spec fn sections_alike(x: Sections, y: Sections) -> bool {
    &&& x.data == y.data
    &&& x.string_offsets == y.string_offsets
    &&& x.param_offsets == y.param_offsets
    &&& x.interfaces_off == y.interfaces_off
    &&& placed_alike(x.annotations, y.annotations)
    &&& x.static_values_off == y.static_values_off
    &&& places_alike(x.debug_offsets, y.debug_offsets)
    &&& places_alike(x.code_offsets, y.code_offsets)
    &&& x.class_data_off == y.class_data_off
}

/// Where everything before the code can be written, the code comes behind it.
proof fn lemma_front_written(again: Members, new: Parts, n: Tables, t: DexTables)
    requires
        ({
            let base = n.data_at();
            let a = strings_section(base, n.strings, 0, Seq::empty(), Seq::empty()).0;
            let b = params_section(base, n.protos, 0, padded(a), Seq::empty()).0;
            let c = interfaces_section(base, new.interfaces, n, b);
            let d = annotations_section(base, new.annotations, n, t, data_before(new, n));
            &&& c is Ok
            &&& d is Ok
            &&& statics_section(base, new.static_values, n, t, d->Ok_0.0) is Ok
        }),
    ensures
        sections_of(again, new, n, t) == code_sections_of(again, new, n, t, before_code(new, n, t)),
{
    reveal(sections_of);
}

/// The static values of an extracted class are written as they stand.
#[verifier::spinoff_prover]
proof fn lemma_statics_settled(
    dex: DexTables,
    descriptor: Seq<char>,
    n: Tables,
    refs: RefSets,
    data: Seq<u8>,
)
    requires
        extracted_from(dex, descriptor) is Ok,
        settled(dex, descriptor, n),
        statics_section(
            extracted_from(dex, descriptor)->Ok_0.1.data_at(),
            parts_for(dex, descriptor).static_values,
            extracted_from(dex, descriptor)->Ok_0.1,
            dex,
            data,
        ) is Ok,
    ensures
        ({
            let (bytes, m) = extracted_from(dex, descriptor)->Ok_0;
            let read = statics_of(bytes, extracted_def(dex, descriptor).static_values_off, refs);
            let t = new_tables(dex, descriptor);
            &&& read is Ok
            &&& statics_section(m.data_at(), read->Ok_0.0, n, t, data) == statics_section(
                m.data_at(),
                parts_for(dex, descriptor).static_values,
                m,
                dex,
                data,
            )
        }),
{
    let m = extracted_from(dex, descriptor)->Ok_0.1;
    let class = class_of(dex, descriptor)->Ok_0.0;
    lemma_extracted_statics(dex, descriptor, refs);
    if let Some(items) = parts_for(dex, descriptor).static_values {
        let a = annotations_in(dex.data, class.annotations_off, RefSets::empty())->Ok_0.1;
        lemma_array_in_ok(dex.data, class.static_values_off, a);
        lemma_extracted_alike(dex, descriptor);
        lemma_array_again(items, dex, m, new_tables(dex, descriptor), n);
    }
}

/// What comes before the code is the same where each section is.
#[verifier::spinoff_prover]
proof fn lemma_front_same(
    parts: Parts,
    m: Tables,
    dex: DexTables,
    new: Parts,
    n: Tables,
    t: DexTables,
)
    requires
        n.strings == m.strings,
        n.protos == m.protos,
        n.data_at() == m.data_at(),
        ({
            let base = m.data_at();
            let a = strings_section(base, m.strings, 0, Seq::empty(), Seq::empty()).0;
            let b = params_section(base, m.protos, 0, padded(a), Seq::empty()).0;
            let c = data_before(parts, m);
            let d = annotations_section(base, parts.annotations, m, dex, c);
            let e = annotations_section(base, new.annotations, n, t, c);
            &&& interfaces_section(base, parts.interfaces, m, b) is Ok
            &&& interfaces_section(base, new.interfaces, n, b) == interfaces_section(
                base,
                parts.interfaces,
                m,
                b,
            )
            &&& d is Ok
            &&& e is Ok
            &&& e->Ok_0.0 == d->Ok_0.0
            &&& placed_alike(d->Ok_0.1, e->Ok_0.1)
            &&& statics_section(base, parts.static_values, m, dex, d->Ok_0.0) is Ok
            &&& statics_section(base, new.static_values, n, t, d->Ok_0.0) == statics_section(
                base,
                parts.static_values,
                m,
                dex,
                d->Ok_0.0,
            )
        }),
    ensures
        ({
            let x = before_code(parts, m, dex);
            let y = before_code(new, n, t);
            &&& x.data == y.data
            &&& x.string_offsets == y.string_offsets
            &&& x.param_offsets == y.param_offsets
            &&& x.interfaces_off == y.interfaces_off
            &&& placed_alike(x.annotations, y.annotations)
            &&& x.static_values_off == y.static_values_off
        }),
        forall|again: Members| #[trigger]
            sections_of(again, new, n, t) == code_sections_of(
                again,
                new,
                n,
                t,
                before_code(new, n, t),
            ),
{
    assert(data_before(new, n) == data_before(parts, m));
    assert forall|again: Members| #[trigger]
        sections_of(again, new, n, t) == code_sections_of(
            again,
            new,
            n,
            t,
            before_code(new, n, t),
        ) by {
        lemma_front_written(again, new, n, t);
    }
}

/// What is known of the parts that come before the code.
#[verifier::spinoff_prover]
proof fn lemma_front_read(dex: DexTables, descriptor: Seq<char>, new: Parts) -> (refs: RefSets)
    requires
        extracted_from(dex, descriptor) is Ok,
        parts_settled(dex, descriptor, new),
    ensures
        ({
            let t = new_tables(dex, descriptor);
            let def = extracted_def(dex, descriptor);
            &&& t.type_list(def.interfaces_off) == Ok::<Seq<u16>, Error>(new.interfaces)
            &&& roamed(
                extracted_from(dex, descriptor)->Ok_0.0,
                def.annotations_off,
                new.annotations,
            )
            &&& new.static_values == statics_of(
                extracted_from(dex, descriptor)->Ok_0.0,
                def.static_values_off,
                refs,
            )->Ok_0.0
        }),
{
    let bytes = extracted_from(dex, descriptor)->Ok_0.0;
    let def = extracted_def(dex, descriptor);
    lemma_extracted_layout(dex, descriptor);
    lemma_parts_held(new_tables(dex, descriptor), def, members_again(dex, descriptor));
    annotations_in(bytes, def.annotations_off, RefSets::empty())->Ok_0.1
}

/// What comes before the code is written as it stands.
#[verifier::spinoff_prover]
proof fn lemma_front_settled(dex: DexTables, descriptor: Seq<char>, n: Tables, new: Parts)
    requires
        extracts_apart(dex, descriptor),
        settled(dex, descriptor, n),
        parts_settled(dex, descriptor, new),
    ensures
        ({
            let m = extracted_from(dex, descriptor)->Ok_0.1;
            let t = new_tables(dex, descriptor);
            let again = members_again(dex, descriptor);
            let x = before_code(parts_for(dex, descriptor), m, dex);
            let y = before_code(new, n, t);
            &&& n.data_at() == m.data_at()
            &&& x.data == y.data
            &&& x.string_offsets == y.string_offsets
            &&& x.param_offsets == y.param_offsets
            &&& x.interfaces_off == y.interfaces_off
            &&& placed_alike(x.annotations, y.annotations)
            &&& x.static_values_off == y.static_values_off
            &&& sections_of(again, new, n, t) == code_sections_of(again, new, n, t, y)
        }),
{
    let m = extracted_from(dex, descriptor)->Ok_0.1;
    let refs = lemma_front_read(dex, descriptor, new);
    lemma_front_known(dex, descriptor, n, new, refs);
    lemma_front_same(
        parts_for(dex, descriptor),
        m,
        dex,
        new,
        n,
        new_tables(dex, descriptor),
    );
}

/// What comes before the code, section by section.
#[verifier::spinoff_prover]
proof fn lemma_front_known(
    dex: DexTables,
    descriptor: Seq<char>,
    n: Tables,
    new: Parts,
    refs: RefSets,
)
    requires
        extracted_from(dex, descriptor) is Ok,
        settled(dex, descriptor, n),
        new_tables(dex, descriptor).type_list(extracted_def(dex, descriptor).interfaces_off) == Ok::<
            Seq<u16>,
            Error,
        >(new.interfaces),
        roamed(
            extracted_from(dex, descriptor)->Ok_0.0,
            extracted_def(dex, descriptor).annotations_off,
            new.annotations,
        ),
        new.static_values == statics_of(
            extracted_from(dex, descriptor)->Ok_0.0,
            extracted_def(dex, descriptor).static_values_off,
            refs,
        )->Ok_0.0,
    ensures
        ({
            let m = extracted_from(dex, descriptor)->Ok_0.1;
            let parts = parts_for(dex, descriptor);
            let t = new_tables(dex, descriptor);
            let base = m.data_at();
            let a = strings_section(base, m.strings, 0, Seq::empty(), Seq::empty()).0;
            let b = params_section(base, m.protos, 0, padded(a), Seq::empty()).0;
            let c = data_before(parts, m);
            let d = annotations_section(base, parts.annotations, m, dex, c);
            let e = annotations_section(base, new.annotations, n, t, c);
            &&& n.data_at() == base
            &&& interfaces_section(base, parts.interfaces, m, b) is Ok
            &&& interfaces_section(base, new.interfaces, n, b) == interfaces_section(
                base,
                parts.interfaces,
                m,
                b,
            )
            &&& d is Ok
            &&& e is Ok
            &&& e->Ok_0.0 == d->Ok_0.0
            &&& placed_alike(d->Ok_0.1, e->Ok_0.1)
            &&& statics_section(base, parts.static_values, m, dex, d->Ok_0.0) is Ok
            &&& statics_section(base, new.static_values, n, t, d->Ok_0.0) == statics_section(
                base,
                parts.static_values,
                m,
                dex,
                d->Ok_0.0,
            )
        }),
{
    let m = extracted_from(dex, descriptor)->Ok_0.1;
    let members = class_of(dex, descriptor)->Ok_0.1;
    let parts = parts_for(dex, descriptor);
    lemma_extracted_layout(dex, descriptor);
    lemma_sections_steps(members, parts, m, dex);
    lemma_before_settled(dex, descriptor, n, new);
    lemma_annotations_settled(dex, descriptor, n, new.annotations);
    let d = annotations_section(
        m.data_at(),
        parts.annotations,
        m,
        dex,
        data_before(parts, m),
    )->Ok_0.0;
    lemma_statics_settled(dex, descriptor, n, refs, d);
}

/// Before any method is written, no method has an offset.
proof fn lemma_none_paired(a: Seq<EncodedMethod>, b: Seq<EncodedMethod>)
    ensures
        paired(a, b, 0, Entries::<u32>::empty(), Entries::<u32>::empty()),
{
    let e = Entries::<u32>::empty();
    assert forall|id: u32| (#[trigger] e.get(id)) is None by {
        lemma_rank(e.keys, id);
    }
}

/// The code and the class data are written as they stand.
#[verifier::spinoff_prover]
proof fn lemma_sections_settled(dex: DexTables, descriptor: Seq<char>, n: Tables, new: Parts)
    requires
        extracts_apart(dex, descriptor),
        settled(dex, descriptor, n),
        parts_settled(dex, descriptor, new),
    ensures
        ({
            let s = sections_of(
                members_again(dex, descriptor),
                new,
                n,
                new_tables(dex, descriptor),
            );
            &&& s is Ok
            &&& sections_alike(sections_for(dex, descriptor), s->Ok_0)
        }),
{
    let m = extracted_from(dex, descriptor)->Ok_0.1;
    let c = class_of(dex, descriptor)->Ok_0.1;
    let t = new_tables(dex, descriptor);
    let again = members_again(dex, descriptor);
    let old = parts_for(dex, descriptor);
    let s = sections_for(dex, descriptor);
    let base = m.data_at();
    let none = Entries::<u32>::empty();
    let a = methods_in_order(c.methods(), m);
    let b = methods_in_order(again.methods(), n);
    lemma_extracted_layout(dex, descriptor);
    lemma_extracted_alike(dex, descriptor);
    lemma_sections_steps(c, old, m, dex);
    lemma_front_settled(dex, descriptor, n, new);
    lemma_all_paired(dex, descriptor, n, new);
    lemma_none_paired(a, b);
    let front = before_code(old, m, dex);
    let (g, debug) = debug_section(base, a, 0, old.debug_info, m, dex, front.data, none)->Ok_0;
    assert(debug == s.debug_offsets);
    lemma_debugs_twice(
        base,
        a,
        b,
        0,
        old.debug_info,
        new.debug_info,
        dex,
        m,
        t,
        n,
        front.data,
        none,
        none,
    );
    let debug2 = debug_section(base, b, 0, new.debug_info, n, t, front.data, none)->Ok_0.1;
    let (h, code) = code_section(base, a, 0, old.codes, debug, g, none)->Ok_0;
    assert(code == s.code_offsets);
    lemma_codes_twice(base, a, b, 0, old.codes, new.codes, debug, debug2, g, none, none);
    let code2 = code_section(base, b, 0, new.codes, debug2, g, none)->Ok_0.1;
    lemma_paired_least(a, b, debug, debug2);
    lemma_paired_least(a, b, code, code2);
    lemma_class_data_settled(dex, descriptor, n, h, code2, a, b);
}

/// The class data is written as it stands.
#[verifier::spinoff_prover]
proof fn lemma_class_data_settled(
    dex: DexTables,
    descriptor: Seq<char>,
    n: Tables,
    data: Seq<u8>,
    code2: Entries<u32>,
    a: Seq<EncodedMethod>,
    b: Seq<EncodedMethod>,
)
    requires
        extracts_apart(dex, descriptor),
        settled(dex, descriptor, n),
        a == methods_in_order(
            class_of(dex, descriptor)->Ok_0.1.methods(),
            extracted_from(dex, descriptor)->Ok_0.1,
        ),
        a.len() == b.len(),
        forall|i: int|
            0 <= i < a.len() ==> #[trigger] b[i] == new_method(
                a[i],
                extracted_from(dex, descriptor)->Ok_0.1,
                sections_for(dex, descriptor).code_offsets,
            ),
        paired(a, b, a.len() as int, sections_for(dex, descriptor).code_offsets, code2),
        class_data_section(
            extracted_from(dex, descriptor)->Ok_0.1.data_at(),
            class_of(dex, descriptor)->Ok_0.1,
            extracted_from(dex, descriptor)->Ok_0.1,
            sections_for(dex, descriptor).code_offsets,
            data,
        ) is Ok,
    ensures
        ({
            let m = extracted_from(dex, descriptor)->Ok_0.1;
            let base = m.data_at();
            class_data_section(base, members_again(dex, descriptor), n, code2, data)
                == class_data_section(
                base,
                class_of(dex, descriptor)->Ok_0.1,
                m,
                sections_for(dex, descriptor).code_offsets,
                data,
            )
        }),
{
    let m = extracted_from(dex, descriptor)->Ok_0.1;
    let c = class_of(dex, descriptor)->Ok_0.1;
    let t = new_tables(dex, descriptor);
    let code = sections_for(dex, descriptor).code_offsets;
    lemma_extracted_mapped(dex, descriptor);
    assert forall|j: int| 0 <= j < c.methods().len() implies or_zero(
        code2,
        method_rank(m, (#[trigger] c.methods()[j]).method_idx),
    ) == or_zero(code, c.methods()[j].method_idx) by {
        let i = lemma_picked_forth(c.methods(), method_ranks(c.methods(), m), j);
        assert(a[i] == c.methods()[j]);
        assert(b[i] == new_method(a[i], m, code));
        assert(code.get(a[i].method_idx) == code2.get(b[i].method_idx));
    }
    if c.fields().len() > 0 || c.methods().len() > 0 {
        lemma_members_twice(c, dex, m, t, n, code, code2, data);
    } else {
        lemma_no_members(c, m, code);
    }
}

/// A class without members has none when it was written.
proof fn lemma_no_members(c: Members, m: Tables, code: Entries<u32>)
    requires
        c.fields().len() == 0,
        c.methods().len() == 0,
    ensures
        new_members(c, m, code).fields().len() == 0,
        new_members(c, m, code).methods().len() == 0,
{
    let all = new_members(c, m, code);
    assert(c.static_fields.len() == 0 && c.instance_fields.len() == 0);
    assert(c.direct_methods.len() == 0 && c.virtual_methods.len() == 0);
    lemma_sort_order(field_ranks(c.static_fields, m), 0);
    lemma_sort_order(field_ranks(c.instance_fields, m), 0);
    lemma_sort_order(method_ranks(c.direct_methods, m), 0);
    lemma_sort_order(method_ranks(c.virtual_methods, m), 0);
}

// ---------------------------------------------------------------------------
// The file
// ---------------------------------------------------------------------------

/// Sections that are alike give the same file.
#[verifier::spinoff_prover]
proof fn lemma_bodies_same(m: Tables, n: Tables, x: Sections, y: Sections, class: Seq<u32>)
    requires
        n.strings == m.strings,
        n.types == m.types,
        n.protos == m.protos,
        n.fields == m.fields,
        n.methods == m.methods,
        sections_alike(x, y),
    ensures
        file_size(n, y) == file_size(m, x),
        body(n, y, class) == body(m, x, class),
{
    reveal(map_of);
    reveal(body);
    assert(table_items(n, y) == table_items(m, x));
    assert(data_items(table_items(n, y), y) == data_items(table_items(m, x), x));
}

/// The words of a class definition stay.
proof fn lemma_words_settled(
    class: ClassDef,
    x: Sections,
    y: Sections,
    dex: DexTables,
    m: Tables,
    t: DexTables,
    n: Tables,
)
    requires
        twice(dex, m, t, n),
        served(dex, m, t, n),
        class_words(class, x, m, dex) is Ok,
        sections_alike(x, y),
    ensures
        class_words(class_with(class_words(class, x, m, dex)->Ok_0), y, n, t) == class_words(
            class,
            x,
            m,
            dex,
        ),
{
    let words = class_words(class, x, m, dex)->Ok_0;
    let def = class_with(words);
    assert(m.mapped_type(class.class_idx) is Ok);
    assert(n.mapped_type(def.class_idx) is Ok);
    if class.superclass_idx != NO_INDEX {
        assert(m.mapped_type(class.superclass_idx) is Ok);
        assert(def.superclass_idx == m.mapped_type(class.superclass_idx)->Ok_0 as u32);
        assert(n.mapped_type(def.superclass_idx) is Ok);
    }
    if class.source_file_idx != NO_INDEX {
        assert(m.mapped_string(dex, class.source_file_idx) is Ok);
        assert(def.source_file_idx == m.mapped_string(dex, class.source_file_idx)->Ok_0);
        assert(n.mapped_string(t, def.source_file_idx) is Ok);
    }
    assert(class_words(def, y, n, t)->Ok_0 =~= words);
}

/// The code needs the version that it needed.
#[verifier::spinoff_prover]
proof fn lemma_version_settled(dex: DexTables, descriptor: Seq<char>, new: Parts)
    requires
        extracts_apart(dex, descriptor),
        parts_settled(dex, descriptor, new),
        version_of(parts_for(dex, descriptor).codes.values, 0, 35) is Ok,
    ensures
        version_of(new.codes.values, 0, 35) == version_of(
            parts_for(dex, descriptor).codes.values,
            0,
            35,
        ),
{
    let (class, c) = class_of(dex, descriptor)->Ok_0;
    let m = extracted_from(dex, descriptor)->Ok_0.1;
    let old = parts_for(dex, descriptor).codes;
    let (first, refs) = parts_of(dex, class, c, CodeRefs::empty())->Ok_0;
    let a = old.values;
    let b = new.codes.values;
    lemma_codes_ok(dex.data, c.methods(), CodeRefs::empty());
    lemma_relinked_codes_ok(first.codes, refs, m, dex);
    assert forall|p: int| 0 <= p < a.len() implies exists|q: int|
        0 <= q < b.len() && (#[trigger] b[q]).insns == (#[trigger] a[p]).insns by {
        let id = old.keys[p];
        lemma_get_at(old, p);
        assert(first.codes.get(id) is Some);
        let i = lemma_code_owner(dex.data, c, id);
        assert(code_settled(dex, descriptor, new.codes, c.methods()[i]));
        let new_id = method_rank(m, id);
        let q = rank_from(new.codes.keys, new_id, 0);
        lemma_rank(new.codes.keys, new_id);
        assert(b[q] == written_code(dex, descriptor, c.methods()[i]));
        assert(b[q].insns == a[p].insns);
    }
    assert forall|q: int| 0 <= q < b.len() implies exists|p: int|
        0 <= p < a.len() && (#[trigger] a[p]).insns == (#[trigger] b[q]).insns by {
        let id = new.codes.keys[q];
        lemma_get_at(new.codes, q);
        assert(new.codes.get(id) is Some);
        let i = choose|i: int|
            0 <= i < c.methods().len() && (#[trigger] c.methods()[i]).code_off != 0 && new_method(
                c.methods()[i],
                extracted_from(dex, descriptor)->Ok_0.1,
                sections_for(dex, descriptor).code_offsets,
            ).method_idx == id && new.codes.get(id) == Some(
                written_code(dex, descriptor, c.methods()[i]),
            );
        lemma_code_placed(dex, descriptor, i);
        let x = c.methods()[i].method_idx;
        let p = rank_from(old.keys, x, 0);
        lemma_rank(old.keys, x);
        assert(old.get(x) == Some(a[p]));
        assert(a[p].insns == b[q].insns);
    }
    lemma_version_same(a, b);
}

/// The extracted file is built again.
#[verifier::spinoff_prover]
proof fn lemma_built_settled(dex: DexTables, descriptor: Seq<char>, n: Tables, new: Parts)
    requires
        extracts_apart(dex, descriptor),
        settled(dex, descriptor, n),
        parts_settled(dex, descriptor, new),
    ensures
        built(
            extracted_def(dex, descriptor),
            members_again(dex, descriptor),
            new,
            n,
            new_tables(dex, descriptor),
        ) == Ok::<Seq<u8>, Error>(extracted_from(dex, descriptor)->Ok_0.0),
{
    let m = extracted_from(dex, descriptor)->Ok_0.1;
    let (class, members) = class_of(dex, descriptor)->Ok_0;
    let t = new_tables(dex, descriptor);
    let again = members_again(dex, descriptor);
    let s = sections_for(dex, descriptor);
    lemma_extracted_layout(dex, descriptor);
    lemma_extracted_alike(dex, descriptor);
    lemma_sections_settled(dex, descriptor, n, new);
    let s2 = sections_of(again, new, n, t)->Ok_0;
    let words = class_words(class, s, m, dex)->Ok_0;
    lemma_words_settled(class, s, s2, dex, m, t, n);
    lemma_bodies_same(m, n, s, s2, words);
    lemma_version_settled(dex, descriptor, new);
}

/// Whether an extraction gave a file that is given back when the class is
/// extracted from it. Where the file has more strings than a code unit can
/// number, a string instruction may be left without a number that fits it.
pub open spec fn given_back(first: (Seq<u8>, Tables), second: Result<(Seq<u8>, Tables), Error>) -> bool {
    match second {
        Ok((bytes, n)) => {
            let m = first.1;
            &&& bytes == first.0
            &&& n.strings == m.strings
            &&& n.types == m.types
            &&& n.protos == m.protos
            &&& n.fields == m.fields
            &&& n.methods == m.methods
        },
        Err(e) => e == Error::JumboRequired && first.1.strings.len() > 0x1_0000,
    }
}

#[verifier::spinoff_prover]
proof fn lemma_parts_settle(dex: DexTables, descriptor: Seq<char>)
    requires
        extracts_apart(dex, descriptor),
        parts_of(
            new_tables(dex, descriptor),
            extracted_def(dex, descriptor),
            members_again(dex, descriptor),
            CodeRefs::empty(),
        ) is Ok,
    ensures
        ({
            let t = new_tables(dex, descriptor);
            let linked2 = linked(
                t,
                extracted_def(dex, descriptor),
                members_again(dex, descriptor),
            );
            &&& linked2 is Ok
            &&& settled(dex, descriptor, linked2->Ok_0.0)
            &&& parts_settled(dex, descriptor, linked2->Ok_0.1)
        }),
{
    let t = new_tables(dex, descriptor);
    let def = extracted_def(dex, descriptor);
    let again = members_again(dex, descriptor);
    let (new, refs) = parts_of(t, def, again, CodeRefs::empty())->Ok_0;
    lemma_extracted_layout(dex, descriptor);
    lemma_parts_again(dex, descriptor);
    lemma_settled(dex, descriptor);
    let n = gathered(t, def, again, new, refs)->Ok_0.canonical();
    lemma_codes_linked(dex, descriptor, n, refs);
}

/// The parts of an extraction make an extraction.
proof fn lemma_extraction_of(
    t: DexTables,
    descriptor: Seq<char>,
    class: ClassDef,
    members: Members,
    bytes: Seq<u8>,
)
    requires
        class_of(t, descriptor) == Ok::<(ClassDef, Members), Error>((class, members)),
        linked(t, class, members) is Ok,
        built(
            class,
            members,
            linked(t, class, members)->Ok_0.1,
            linked(t, class, members)->Ok_0.0,
            t,
        ) == Ok::<Seq<u8>, Error>(bytes),
        dex_fault(bytes) is None,
    ensures
        extracted_from(t, descriptor) == Ok::<(Seq<u8>, Tables), Error>(
            (bytes, linked(t, class, members)->Ok_0.0),
        ),
{
}

#[verifier::spinoff_prover]
proof fn lemma_again_done(dex: DexTables, descriptor: Seq<char>)
    requires
        extracts_apart(dex, descriptor),
        parts_of(
            new_tables(dex, descriptor),
            extracted_def(dex, descriptor),
            members_again(dex, descriptor),
            CodeRefs::empty(),
        ) is Ok,
    ensures
        given_back(
            extracted_from(dex, descriptor)->Ok_0,
            extracted_from(new_tables(dex, descriptor), descriptor),
        ),
{
    let bytes = extracted_from(dex, descriptor)->Ok_0.0;
    let t = new_tables(dex, descriptor);
    let def = extracted_def(dex, descriptor);
    let again = members_again(dex, descriptor);
    lemma_class_found(dex, descriptor);
    lemma_parts_settle(dex, descriptor);
    let (n, new) = linked(t, def, again)->Ok_0;
    lemma_built_settled(dex, descriptor, n, new);
    lemma_extraction_of(t, descriptor, def, again, bytes);
}

/// Extracting a class from its extracted file gives the file back, byte for
/// byte, with the same tables, for every class that lists no method twice in its
/// extracted file. Only where the file has more than 65536 strings may the
/// numbering of its code come to a string instruction that is too short for the
/// number, which is then the error.
#[verifier::spinoff_prover]
pub proof fn lemma_extracted_again(dex: DexTables, descriptor: Seq<char>)
    requires
        extracted_from(dex, descriptor) is Ok,
        methods_once(members_again(dex, descriptor)),
    ensures
        given_back(
            extracted_from(dex, descriptor)->Ok_0,
            extracted(extracted_from(dex, descriptor)->Ok_0.0, 0, descriptor),
        ),
{
    let t = new_tables(dex, descriptor);
    let def = extracted_def(dex, descriptor);
    let again = members_again(dex, descriptor);
    lemma_extracted_tables(dex, descriptor);
    lemma_once_before(
        class_of(dex, descriptor)->Ok_0.1,
        extracted_from(dex, descriptor)->Ok_0.1,
        sections_for(dex, descriptor).code_offsets,
    );
    if parts_of(t, def, again, CodeRefs::empty()) is Ok {
        lemma_again_done(dex, descriptor);
    } else {
        lemma_class_found(dex, descriptor);
        lemma_parts_again(dex, descriptor);
    }
}

} // verus!
