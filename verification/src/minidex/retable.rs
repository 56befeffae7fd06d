//! An extracted class needs what the class needed.
use vstd::prelude::*;

use crate::collections::{low32, Entries};
use crate::error::Error;
use crate::minidex::again::{
    before_code, data_before, lemma_annotations_within, lemma_extracted_placed,
    lemma_extracted_reread, lemma_sections_steps,
};
use crate::minidex::assemble::{class_words, NO_INDEX, Sections};
use crate::minidex::bytecode::CodeRefs;
use crate::minidex::debugback::mapped_debug;
use crate::minidex::emit::{annotation_bytes, debug_bytes};
use crate::minidex::equal::{
    lemma_code_need_same, lemma_code_placed, lemma_method_code, members_again, new_tables,
};
use crate::minidex::fidelity::{lemma_extracted_layout, sections_for};
use crate::minidex::gather::{
    caught_types, class_strings, class_types, field_ids, method_ids, widened_ids,
};
use crate::minidex::holdings::{
    field_parts, lemma_total_has, lemma_within_both, method_parts, needed, needed_by_class,
    needed_by_code, needed_by_metadata, primitive_parts, string_parts, total, type_parts, Holdings,
};
use crate::minidex::hollow::{parts_of, statics_of, Parts};
use crate::minidex::leb::uleb_bytes;
use crate::minidex::members::new_members;
use crate::minidex::metadata::{annotations_in, debug_in, ClassAnnotations};
use crate::minidex::notes::{item_ok_at, items_ok, lemma_annotations_ok, lemma_get_at};
use crate::minidex::placement::lemma_class_stands;
use crate::minidex::preserved::{
    extracted_def, lemma_extracted_debug, lemma_extracted_directory, lemma_extracted_interfaces,
    lemma_extracted_statics, parts_for,
};
use crate::minidex::reader::{ClassDef, DexTables, EncodedField, EncodedMethod, Members};
use crate::minidex::renote::{
    all_present, directory_present, lemma_present_all, mapped_item, moved_members, rewritten_as,
};
use crate::minidex::rewrite::{lemma_annotation_again, lemma_array_again, lemma_debug_again, twice};
use crate::minidex::roam::{annotations_needs, firsts, items_needs, roamed};
use crate::minidex::second::{
    debug_read, debugs_needs, lemma_extracted_alike, lemma_extracted_present, lemma_parts_held,
    statics_needs,
};
use crate::minidex::sections::{
    annotated_members, debug_section, field_ranks, fields_bytes, fields_in_order, items_section,
    member_ranks, members_bytes, method_ranks, methods_bytes, methods_in_order, new_member,
    offset_of, or_zero, present_members, type_mapper, PlacedAnnotations,
};
use crate::minidex::tableback::class_with;
use crate::minidex::tables::Tables;
use crate::minidex::valueback::lemma_array_in_ok;
use crate::minidex::values::{Debugging, Item, RefSets};
use crate::minidex::wants::{alike, code_held, debug_needs, meta_held};
use crate::minidex::wholes::{
    all_catches, all_debugs, all_insns, debug_need, extracts_once, lemma_catches_held,
    lemma_code_kept, lemma_code_owner, lemma_debugs_of_methods, lemma_field_back, lemma_field_forth,
    lemma_insns_held, lemma_method_back, lemma_method_forth, lemma_picked_back, lemma_picked_forth,
    lemma_total_each, methods_once, new_method,
};
use crate::minidex::{class_of, extracted_from};
use crate::order::lemma_sort_order;
use crate::results::{collect, lemma_collect_ok};

verus! {

/// Tables without entries move nothing.
proof fn lemma_nothing_moves(dex: DexTables, t: DexTables, m: Tables)
    requires
        alike(dex, t, m),
    ensures
        twice(dex, m, t, Tables::empty()),
{
}

/// Lists of the same things, in whatever order, hold the same.
pub proof fn lemma_totals_same(a: Seq<Holdings>, b: Seq<Holdings>)
    requires
        forall|i: int| 0 <= i < a.len() ==> b.contains(#[trigger] a[i]),
        forall|i: int| 0 <= i < b.len() ==> a.contains(#[trigger] b[i]),
    ensures
        total(a) == total(b),
{
    assert forall|i: int| 0 <= i < a.len() implies (#[trigger] a[i]).within(total(b)) by {
        let j = choose|j: int| 0 <= j < b.len() && b[j] == a[i];
        lemma_total_has(b, j);
    }
    lemma_total_each(a, total(b));
    assert forall|i: int| 0 <= i < b.len() implies (#[trigger] b[i]).within(total(a)) by {
        let j = choose|j: int| 0 <= j < a.len() && a[j] == b[i];
        lemma_total_has(a, j);
    }
    lemma_total_each(b, total(a));
    lemma_within_both(total(a), total(b));
}

// ---------------------------------------------------------------------------
// Debug items
// ---------------------------------------------------------------------------

/// A debug item of a method was written.
proof fn lemma_debug_writable(
    base: int,
    methods: Seq<EncodedMethod>,
    i: int,
    debug: Entries<Debugging>,
    m: Tables,
    dex: DexTables,
    data: Seq<u8>,
    offsets: Entries<u32>,
    k: int,
) -> (done: Seq<u8>)
    requires
        0 <= i <= k < methods.len(),
        debug_section(base, methods, i, debug, m, dex, data, offsets) is Ok,
        debug.get(methods[k].method_idx) is Some,
    ensures
        debug_bytes(debug.get(methods[k].method_idx)->Some_0, m, dex, done) is Ok,
    decreases methods.len() - i,
{
    let id = methods[i].method_idx;
    if i == k {
        data
    } else {
        match debug.get(id) {
            None => lemma_debug_writable(base, methods, i + 1, debug, m, dex, data, offsets, k),
            Some(d) => lemma_debug_writable(
                base,
                methods,
                i + 1,
                debug,
                m,
                dex,
                debug_bytes(d, m, dex, data)->Ok_0,
                offsets.put(id, offset_of(base, data)),
                k,
            ),
        }
    }
}

/// What the debug item of a method needs stays.
#[verifier::spinoff_prover]
proof fn lemma_debug_needs_same(dex: DexTables, descriptor: Seq<char>, j: int)
    requires
        extracted_from(dex, descriptor) is Ok,
        0 <= j < class_of(dex, descriptor)->Ok_0.1.methods().len(),
    ensures
        ({
            let m = extracted_from(dex, descriptor)->Ok_0.1;
            let x = class_of(dex, descriptor)->Ok_0.1.methods()[j];
            parts_for(dex, descriptor).debug_info.get(x.method_idx) matches Some(d) ==> debug_needs(
                new_tables(dex, descriptor),
                mapped_debug(d, m, dex),
            ) == debug_needs(dex, d)
        }),
{
    let m = extracted_from(dex, descriptor)->Ok_0.1;
    let (class, members) = class_of(dex, descriptor)->Ok_0;
    let parts = parts_for(dex, descriptor);
    let x = members.methods()[j];
    if let Some(d) = parts.debug_info.get(x.method_idx) {
        let t = new_tables(dex, descriptor);
        lemma_extracted_alike(dex, descriptor);
        lemma_nothing_moves(dex, t, m);
        lemma_extracted_layout(dex, descriptor);
        lemma_sections_steps(members, parts, m, dex);
        let s = before_code(parts, m, dex);
        let methods = methods_in_order(members.methods(), m);
        let k = lemma_picked_forth(members.methods(), method_ranks(members.methods(), m), j);
        let done = lemma_debug_writable(
            m.data_at(),
            methods,
            0,
            parts.debug_info,
            m,
            dex,
            s.data,
            Entries::empty(),
            k,
        );
        lemma_debug_again(d, dex, m, t, Tables::empty(), done);
    }
}

/// What the debug item of a method needs stays, where the class is read again.
#[verifier::spinoff_prover]
proof fn lemma_debug_need_same(
    dex: DexTables,
    descriptor: Seq<char>,
    class: ClassDef,
    again: Members,
    j: int,
    k: int,
)
    requires
        extracts_once(dex, descriptor),
        methods_once(again),
        again == members_again(dex, descriptor),
        new_tables(dex, descriptor).data == extracted_from(dex, descriptor)->Ok_0.0,
        parts_of(new_tables(dex, descriptor), class, again, CodeRefs::empty()) is Ok,
        0 <= j < class_of(dex, descriptor)->Ok_0.1.methods().len(),
        0 <= k < again.methods().len(),
        again.methods()[k] == new_method(
            class_of(dex, descriptor)->Ok_0.1.methods()[j],
            extracted_from(dex, descriptor)->Ok_0.1,
            sections_for(dex, descriptor).code_offsets,
        ),
    ensures
        ({
            let t = new_tables(dex, descriptor);
            let parts = parts_of(t, class, again, CodeRefs::empty())->Ok_0.0;
            debug_need(t, parts.debug_info, again.methods()[k]) == debug_need(
                dex,
                parts_for(dex, descriptor).debug_info,
                class_of(dex, descriptor)->Ok_0.1.methods()[j],
            )
        }),
{
    let (bytes, m) = extracted_from(dex, descriptor)->Ok_0;
    let t = new_tables(dex, descriptor);
    let (old_class, members) = class_of(dex, descriptor)->Ok_0;
    let x = members.methods()[j];
    let y = again.methods()[k];
    let s = sections_for(dex, descriptor);
    let first = parts_of(dex, old_class, members, CodeRefs::empty())->Ok_0.0;
    let parts = parts_of(t, class, again, CodeRefs::empty())->Ok_0.0;
    lemma_parts_held(t, class, again);
    lemma_parts_held(dex, old_class, members);
    lemma_code_placed(dex, descriptor, j);
    lemma_code_kept(dex.data, members, j);
    lemma_code_kept(bytes, again, k);
    assert(debug_read(dex.data, first.codes, first.debug_info, x.method_idx));
    assert(debug_read(bytes, parts.codes, parts.debug_info, y.method_idx));
    assert(first.debug_info == parts_for(dex, descriptor).debug_info);
    if x.code_off != 0 {
        lemma_method_code(dex, descriptor, j);
        let off = or_zero(s.debug_offsets, x.method_idx);
        assert(parts.codes.get(y.method_idx)->Some_0.debug_info_off == off);
        lemma_debug_needs_same(dex, descriptor, j);
        lemma_extracted_debug(dex, descriptor, j, RefSets::empty());
        if off != 0 {
            let refs = choose|refs: RefSets|
                (#[trigger] debug_in(bytes, off as int, refs)) is Ok && debug_in(
                    bytes,
                    off as int,
                    refs,
                )->Ok_0.0 == parts.debug_info.get(y.method_idx)->Some_0;
            lemma_extracted_debug(dex, descriptor, j, refs);
        }
    }
}

// ---------------------------------------------------------------------------
// Annotations
// ---------------------------------------------------------------------------

proof fn lemma_item_writable(
    base: int,
    items: Entries<Item>,
    i: int,
    m: Tables,
    dex: DexTables,
    data: Seq<u8>,
    offsets: Entries<u32>,
    k: int,
) -> (done: Seq<u8>)
    requires
        0 <= i <= k < items.keys.len(),
        items_section(base, items, i, m, dex, data, offsets) is Ok,
    ensures
        annotation_bytes(items.values[k].annotation, m, dex, done) is Ok,
    decreases items.keys.len() - i,
{
    let start = data.push(items.values[i].visibility);
    if i == k {
        start
    } else {
        lemma_item_writable(
            base,
            items,
            i + 1,
            m,
            dex,
            annotation_bytes(items.values[i].annotation, m, dex, start)->Ok_0,
            offsets.put(items.keys[i], offset_of(base, data)),
            k,
        )
    }
}

/// What annotated members need stays.
proof fn lemma_members_needs(
    dex: DexTables,
    t: DexTables,
    m: Tables,
    list: Seq<(u32, u32)>,
    is_field: bool,
    placed: Entries<u32>,
)
    requires
        alike(dex, t, m),
        all_present(list, is_field, m),
    ensures
        ({
            let new = moved_members(annotated_members(list, is_field, m), placed);
            if is_field {
                total(field_parts(t, firsts(new))) == total(field_parts(dex, firsts(list)))
            } else {
                total(method_parts(t, firsts(new))) == total(method_parts(dex, firsts(list)))
            }
        }),
{
    let kept = present_members(list, is_field, m, 0, Seq::empty());
    lemma_present_all(list, is_field, m, 0, Seq::empty());
    let ranks = member_ranks(kept);
    let new = moved_members(annotated_members(list, is_field, m), placed);
    lemma_sort_order(ranks, kept.len());
    assert forall|i: int| 0 <= i < list.len() implies {
        let id = (#[trigger] kept[i]).0;
        if is_field {
            t.field_meaning(id as int) == dex.field_meaning(list[i].0 as int)
        } else {
            t.method_meaning(id as int) == dex.method_meaning(list[i].0 as int)
        }
    } by {
        assert(new_member(m, is_field, list[i].0) is Ok);
        assert(m.mapped_field(list[i].0) is Ok || m.mapped_method(list[i].0) is Ok);
    }
    let a = if is_field {
        field_parts(t, firsts(new))
    } else {
        method_parts(t, firsts(new))
    };
    let b = if is_field {
        field_parts(dex, firsts(list))
    } else {
        method_parts(dex, firsts(list))
    };
    assert forall|j: int| 0 <= j < a.len() implies b.contains(#[trigger] a[j]) by {
        let i = lemma_picked_back(kept, ranks, j);
        assert(new[j].0 == kept[i].0);
        assert(b[i] == a[j]);
    }
    assert forall|i: int| 0 <= i < b.len() implies a.contains(#[trigger] b[i]) by {
        let j = lemma_picked_forth(kept, ranks, i);
        assert(new[j].0 == kept[i].0);
        assert(a[j] == b[i]);
    }
    lemma_totals_same(a, b);
}

/// What annotation items need stays.
proof fn lemma_items_needs_same(
    base: int,
    old: Entries<Item>,
    new: Entries<Item>,
    dex: DexTables,
    t: DexTables,
    m: Tables,
    data: Seq<u8>,
)
    requires
        alike(dex, t, m),
        items_section(base, old, 0, m, dex, data, Entries::empty()) is Ok,
        items_ok(old),
        new.values.len() == old.values.len(),
        forall|j: int|
            0 <= j < old.keys.len() ==> #[trigger] new.values[j] == mapped_item(
                old.values[j],
                m,
                dex,
            ),
    ensures
        items_needs(t, new.values) == items_needs(dex, old.values),
{
    lemma_nothing_moves(dex, t, m);
    let x = items_needs(t, new.values);
    let y = items_needs(dex, old.values);
    assert forall|j: int| 0 <= j < y.len() implies x[j] == #[trigger] y[j] by {
        lemma_get_at(old, j);
        assert(item_ok_at(old, old.keys[j]));
        assert(new.values[j] == mapped_item(old.values[j], m, dex));
        let done = lemma_item_writable(base, old, 0, m, dex, data, Entries::empty(), j);
        lemma_annotation_again(old.values[j].annotation, dex, m, t, Tables::empty(), done);
    }
    assert(x =~= y);
}

/// What the annotations of a class need stays.
#[verifier::spinoff_prover]
proof fn lemma_annotations_needs_same(
    base: int,
    a: ClassAnnotations,
    b: ClassAnnotations,
    placed: PlacedAnnotations,
    dex: DexTables,
    t: DexTables,
    m: Tables,
    data: Seq<u8>,
)
    requires
        alike(dex, t, m),
        items_section(base, a.items, 0, m, dex, data, Entries::empty()) is Ok,
        rewritten_as(a, placed, b, m, dex),
        items_ok(a.items),
        directory_present(a.directory->Some_0, m),
        placed.items.values.len() == a.items.keys.len(),
    ensures
        annotations_needs(t, b) == annotations_needs(dex, a),
{
    let d = a.directory->Some_0;
    lemma_members_needs(dex, t, m, d.field_annotations, true, placed.sets);
    lemma_members_needs(dex, t, m, d.method_annotations, false, placed.sets);
    lemma_members_needs(dex, t, m, d.parameter_annotations, false, placed.set_refs);
    lemma_items_needs_same(base, a.items, b.items, dex, t, m, data);
}

/// What the annotations of an extracted class need is what they needed.
#[verifier::spinoff_prover]
proof fn lemma_extracted_annotations_need(
    dex: DexTables,
    descriptor: Seq<char>,
    b: ClassAnnotations,
)
    requires
        extracted_from(dex, descriptor) is Ok,
        roamed(
            extracted_from(dex, descriptor)->Ok_0.0,
            extracted_def(dex, descriptor).annotations_off,
            b,
        ),
    ensures
        annotations_needs(new_tables(dex, descriptor), b) == annotations_needs(
            dex,
            parts_for(dex, descriptor).annotations,
        ),
{
    let m = extracted_from(dex, descriptor)->Ok_0.1;
    let (class, members) = class_of(dex, descriptor)->Ok_0;
    let parts = parts_for(dex, descriptor);
    let a = parts.annotations;
    lemma_extracted_directory(dex, descriptor);
    if a.directory is Some {
        lemma_extracted_alike(dex, descriptor);
        lemma_extracted_reread(dex, descriptor, b);
        lemma_extracted_present(dex, descriptor);
        lemma_extracted_layout(dex, descriptor);
        lemma_annotations_within(members, parts, m, dex);
        lemma_annotations_ok(dex.data, class.annotations_off, RefSets::empty());
        lemma_extracted_placed(dex, descriptor);
        lemma_annotations_needs_same(
            m.data_at(),
            a,
            b,
            sections_for(dex, descriptor).annotations,
            dex,
            new_tables(dex, descriptor),
            m,
            data_before(parts, m),
        );
    }
}

/// What the static values of an extracted class need is what they needed.
#[verifier::spinoff_prover]
proof fn lemma_extracted_statics_need(dex: DexTables, descriptor: Seq<char>, refs: RefSets)
    requires
        extracted_from(dex, descriptor) is Ok,
        statics_of(
            extracted_from(dex, descriptor)->Ok_0.0,
            extracted_def(dex, descriptor).static_values_off,
            refs,
        ) is Ok,
    ensures
        statics_needs(
            new_tables(dex, descriptor),
            statics_of(
                extracted_from(dex, descriptor)->Ok_0.0,
                extracted_def(dex, descriptor).static_values_off,
                refs,
            )->Ok_0.0,
        ) == statics_needs(dex, parts_for(dex, descriptor).static_values),
{
    let m = extracted_from(dex, descriptor)->Ok_0.1;
    let (class, members) = class_of(dex, descriptor)->Ok_0;
    let parts = parts_for(dex, descriptor);
    let t = new_tables(dex, descriptor);
    lemma_extracted_statics(dex, descriptor, refs);
    if let Some(items) = parts.static_values {
        let a = annotations_in(dex.data, class.annotations_off, RefSets::empty())->Ok_0.1;
        lemma_array_in_ok(dex.data, class.static_values_off, a);
        lemma_extracted_alike(dex, descriptor);
        lemma_nothing_moves(dex, t, m);
        lemma_extracted_layout(dex, descriptor);
        lemma_sections_steps(members, parts, m, dex);
        lemma_array_again(items, dex, m, t, Tables::empty());
    }
}

// ---------------------------------------------------------------------------
// The class
// ---------------------------------------------------------------------------

proof fn lemma_fields_mapped(
    fields: Seq<EncodedField>,
    i: int,
    previous: u32,
    m: Tables,
    done: Seq<u8>,
)
    requires
        0 <= i,
        fields_bytes(fields, i, previous, m, done) is Ok,
    ensures
        forall|j: int|
            i <= j < fields.len() ==> m.mapped_field((#[trigger] fields[j]).field_idx) is Ok,
    decreases fields.len() - i,
{
    if i < fields.len() {
        let index = m.mapped_field(fields[i].field_idx)->Ok_0;
        lemma_fields_mapped(
            fields,
            i + 1,
            index as u32,
            m,
            done + uleb_bytes((index - previous) as u32) + uleb_bytes(fields[i].access_flags),
        );
    }
}

proof fn lemma_methods_mapped(
    methods: Seq<EncodedMethod>,
    i: int,
    previous: u32,
    m: Tables,
    code: Entries<u32>,
    done: Seq<u8>,
)
    requires
        0 <= i,
        methods_bytes(methods, i, previous, m, code, done) is Ok,
    ensures
        forall|j: int|
            i <= j < methods.len() ==> m.mapped_method((#[trigger] methods[j]).method_idx) is Ok,
    decreases methods.len() - i,
{
    if i < methods.len() {
        let index = m.mapped_method(methods[i].method_idx)->Ok_0;
        lemma_methods_mapped(
            methods,
            i + 1,
            index as u32,
            m,
            code,
            done + uleb_bytes((index - previous) as u32) + uleb_bytes(methods[i].access_flags)
                + uleb_bytes(or_zero(code, methods[i].method_idx)),
        );
    }
}

/// All members of a class that was written have a new index.
#[verifier::spinoff_prover]
proof fn lemma_members_mapped(c: Members, m: Tables, code: Entries<u32>, done: Seq<u8>)
    requires
        members_bytes(c, m, code, done) is Ok,
    ensures
        forall|j: int|
            0 <= j < c.fields().len() ==> m.mapped_field((#[trigger] c.fields()[j]).field_idx) is Ok,
        forall|j: int|
            0 <= j < c.methods().len() ==> m.mapped_method(
                (#[trigger] c.methods()[j]).method_idx,
            ) is Ok,
{
    let head = done + uleb_bytes(low32(c.static_fields.len() as int)) + uleb_bytes(
        low32(c.instance_fields.len() as int),
    ) + uleb_bytes(low32(c.direct_methods.len() as int)) + uleb_bytes(
        low32(c.virtual_methods.len() as int),
    );
    let w = fields_in_order(c.static_fields, m);
    let x = fields_in_order(c.instance_fields, m);
    let y = methods_in_order(c.direct_methods, m);
    let z = methods_in_order(c.virtual_methods, m);
    let a = fields_bytes(w, 0, 0, m, head)->Ok_0;
    let b = fields_bytes(x, 0, 0, m, a)->Ok_0;
    let d = methods_bytes(y, 0, 0, m, code, b)->Ok_0;
    lemma_fields_mapped(w, 0, 0, m, head);
    lemma_fields_mapped(x, 0, 0, m, a);
    lemma_methods_mapped(y, 0, 0, m, code, b);
    lemma_methods_mapped(z, 0, 0, m, code, d);
    assert forall|j: int| 0 <= j < c.fields().len() implies m.mapped_field(
        (#[trigger] c.fields()[j]).field_idx,
    ) is Ok by {
        let n = c.static_fields.len();
        if j < n {
            let k = lemma_picked_forth(c.static_fields, field_ranks(c.static_fields, m), j);
            assert(w[k] == c.fields()[j]);
        } else {
            let k = lemma_picked_forth(
                c.instance_fields,
                field_ranks(c.instance_fields, m),
                j - n,
            );
            assert(x[k] == c.fields()[j]);
        }
    }
    assert forall|j: int| 0 <= j < c.methods().len() implies m.mapped_method(
        (#[trigger] c.methods()[j]).method_idx,
    ) is Ok by {
        let n = c.direct_methods.len();
        if j < n {
            let k = lemma_picked_forth(c.direct_methods, method_ranks(c.direct_methods, m), j);
            assert(y[k] == c.methods()[j]);
        } else {
            let k = lemma_picked_forth(
                c.virtual_methods,
                method_ranks(c.virtual_methods, m),
                j - n,
            );
            assert(z[k] == c.methods()[j]);
        }
    }
}

/// What the members of a class need stays.
#[verifier::spinoff_prover]
proof fn lemma_members_need_same(
    dex: DexTables,
    t: DexTables,
    m: Tables,
    c: Members,
    code: Entries<u32>,
)
    requires
        alike(dex, t, m),
        forall|j: int|
            0 <= j < c.fields().len() ==> m.mapped_field((#[trigger] c.fields()[j]).field_idx) is Ok,
        forall|j: int|
            0 <= j < c.methods().len() ==> m.mapped_method(
                (#[trigger] c.methods()[j]).method_idx,
            ) is Ok,
    ensures
        total(field_parts(t, field_ids(new_members(c, m, code).fields()))) == total(
            field_parts(dex, field_ids(c.fields())),
        ),
        total(method_parts(t, method_ids(new_members(c, m, code).methods()))) == total(
            method_parts(dex, method_ids(c.methods())),
        ),
{
    let n = new_members(c, m, code);
    let a = field_parts(t, field_ids(n.fields()));
    let b = field_parts(dex, field_ids(c.fields()));
    assert forall|j: int| 0 <= j < a.len() implies b.contains(#[trigger] a[j]) by {
        let i = lemma_field_back(c, m, code, j);
        assert(m.mapped_field(c.fields()[i].field_idx) is Ok);
        assert(b[i] == a[j]);
    }
    assert forall|i: int| 0 <= i < b.len() implies a.contains(#[trigger] b[i]) by {
        let j = lemma_field_forth(c, m, code, i);
        assert(m.mapped_field(c.fields()[i].field_idx) is Ok);
        assert(a[j] == b[i]);
    }
    lemma_totals_same(a, b);
    let x = method_parts(t, method_ids(n.methods()));
    let y = method_parts(dex, method_ids(c.methods()));
    assert forall|j: int| 0 <= j < x.len() implies y.contains(#[trigger] x[j]) by {
        let i = lemma_method_back(c, m, code, j);
        assert(m.mapped_method(c.methods()[i].method_idx) is Ok);
        assert(y[i] == x[j]);
    }
    assert forall|i: int| 0 <= i < y.len() implies x.contains(#[trigger] y[i]) by {
        let j = lemma_method_forth(c, m, code, i);
        assert(m.mapped_method(c.methods()[i].method_idx) is Ok);
        assert(x[j] == y[i]);
    }
    lemma_totals_same(x, y);
}

/// What a class definition needs stays.
proof fn lemma_definition_needs(
    dex: DexTables,
    t: DexTables,
    m: Tables,
    class: ClassDef,
    s: Sections,
)
    requires
        alike(dex, t, m),
        class_words(class, s, m, dex) is Ok,
    ensures
        ({
            let new = class_with(class_words(class, s, m, dex)->Ok_0);
            &&& string_parts(t, class_strings(new)) == string_parts(dex, class_strings(class))
            &&& type_parts(t, class_types(new)) == type_parts(dex, class_types(class))
        }),
{
    let words = class_words(class, s, m, dex)->Ok_0;
    let new = class_with(words);
    assert(m.mapped_type(class.class_idx) is Ok);
    assert(class.superclass_idx == NO_INDEX || m.mapped_type(class.superclass_idx) is Ok);
    assert(class.source_file_idx == NO_INDEX || m.mapped_string(dex, class.source_file_idx) is Ok);
    assert(new.class_idx == words[0] && new.superclass_idx == words[2] && new.source_file_idx
        == words[4]);
    assert(string_parts(t, class_strings(new)) =~= string_parts(dex, class_strings(class)));
    assert(type_parts(t, class_types(new)) =~= type_parts(dex, class_types(class)));
}

proof fn lemma_mapped_types_needs(
    dex: DexTables,
    t: DexTables,
    m: Tables,
    old: Seq<u16>,
    new: Seq<u16>,
)
    requires
        alike(dex, t, m),
        collect(type_mapper(m, old), old.len()) == Ok::<Seq<u16>, Error>(new),
    ensures
        type_parts(t, widened_ids(new)) == type_parts(dex, widened_ids(old)),
{
    let f = type_mapper(m, old);
    let a = type_parts(t, widened_ids(new));
    let b = type_parts(dex, widened_ids(old));
    lemma_collect_ok(f, old.len());
    assert forall|i: int| 0 <= i < a.len() implies #[trigger] a[i] == b[i] by {
        assert(f(i) == Ok::<u16, Error>(new[i]));
        assert(m.mapped_type(old[i] as u32) is Ok);
    }
    assert(a =~= b);
}

/// What a class needs, part by part.
pub open spec fn whole(dex: DexTables, class: ClassDef, members: Members, parts: Parts) -> Holdings {
    total(all_insns(dex, dex.data, members.methods())).plus(total(primitive_parts())).plus(
        needed_by_class(dex, class, members, parts.interfaces),
    ).plus(annotations_needs(dex, parts.annotations)).plus(
        statics_needs(dex, parts.static_values),
    ).plus(total(all_debugs(dex, parts.debug_info, members.methods()))).plus(
        total(all_catches(dex, dex.data, members.methods())),
    )
}

/// What is needed is what the parts need.
#[verifier::spinoff_prover]
proof fn lemma_needed_whole(dex: DexTables, class: ClassDef, members: Members)
    requires
        methods_once(members),
        parts_of(dex, class, members, CodeRefs::empty()) is Ok,
    ensures
        ({
            let (parts, refs) = parts_of(dex, class, members, CodeRefs::empty())->Ok_0;
            needed(dex, class, members, parts, refs) == whole(dex, class, members, parts)
        }),
{
    let (parts, refs) = parts_of(dex, class, members, CodeRefs::empty())->Ok_0;
    let methods = members.methods();
    lemma_insns_held(dex, dex.data, methods);
    lemma_catches_held(dex, dex.data, members);
    lemma_parts_held(dex, class, members);
    assert forall|i: int| 0 <= i < parts.debug_info.keys.len() implies exists|j: int|
        0 <= j < methods.len() && (#[trigger] methods[j]).method_idx
            == #[trigger] parts.debug_info.keys[i] by {
        let id = parts.debug_info.keys[i];
        lemma_get_at(parts.debug_info, i);
        assert(debug_read(dex.data, parts.codes, parts.debug_info, id));
        let j = lemma_code_owner(dex.data, members, id);
    }
    lemma_debugs_of_methods(dex, parts.debug_info, methods);
    let primitives = total(primitive_parts());
    let code = code_held(dex, refs);
    assert(needed_by_code(dex, refs) =~= code.plus(primitives));
    let class_need = needed_by_class(dex, class, members, parts.interfaces);
    let a = annotations_needs(dex, parts.annotations);
    let b = statics_needs(dex, parts.static_values);
    let c = total(debugs_needs(dex, parts.debug_info.values));
    let d = total(type_parts(dex, caught_types(parts.codes.values)));
    assert(needed_by_metadata(dex, parts.metadata_refs) == meta_held(dex, parts.metadata_refs));
    assert(code.plus(primitives).plus(class_need).plus(a.plus(b).plus(c)).plus(d) =~= code.plus(
        primitives,
    ).plus(class_need).plus(a).plus(b).plus(c).plus(d));
}

/// What the methods need stays.
#[verifier::spinoff_prover]
proof fn lemma_methods_need_same(dex: DexTables, descriptor: Seq<char>, class: ClassDef)
    requires
        extracts_once(dex, descriptor),
        methods_once(members_again(dex, descriptor)),
        new_tables(dex, descriptor).data == extracted_from(dex, descriptor)->Ok_0.0,
        parts_of(
            new_tables(dex, descriptor),
            class,
            members_again(dex, descriptor),
            CodeRefs::empty(),
        ) is Ok,
    ensures
        ({
            let bytes = extracted_from(dex, descriptor)->Ok_0.0;
            let t = new_tables(dex, descriptor);
            let c = class_of(dex, descriptor)->Ok_0.1;
            let n = members_again(dex, descriptor);
            let debugs = parts_of(t, class, n, CodeRefs::empty())->Ok_0.0.debug_info;
            let old = parts_for(dex, descriptor).debug_info;
            &&& total(all_insns(t, bytes, n.methods())) == total(
                all_insns(dex, dex.data, c.methods()),
            )
            &&& total(all_catches(t, bytes, n.methods())) == total(
                all_catches(dex, dex.data, c.methods()),
            )
            &&& total(all_debugs(t, debugs, n.methods())) == total(
                all_debugs(dex, old, c.methods()),
            )
        }),
{
    let (bytes, m) = extracted_from(dex, descriptor)->Ok_0;
    let t = new_tables(dex, descriptor);
    let c = class_of(dex, descriptor)->Ok_0.1;
    let n = members_again(dex, descriptor);
    let code = sections_for(dex, descriptor).code_offsets;
    let debugs = parts_of(t, class, n, CodeRefs::empty())->Ok_0.0.debug_info;
    let old = parts_for(dex, descriptor).debug_info;
    let a = all_insns(t, bytes, n.methods());
    let b = all_insns(dex, dex.data, c.methods());
    let x = all_catches(t, bytes, n.methods());
    let y = all_catches(dex, dex.data, c.methods());
    let p = all_debugs(t, debugs, n.methods());
    let q = all_debugs(dex, old, c.methods());
    assert forall|j: int| 0 <= j < n.methods().len() implies b.contains(#[trigger] a[j])
        && y.contains(x[j]) && q.contains(p[j]) by {
        let i = lemma_method_back(c, m, code, j);
        lemma_code_need_same(dex, descriptor, i);
        lemma_debug_need_same(dex, descriptor, class, n, i, j);
        assert(b[i] == a[j] && y[i] == x[j] && q[i] == p[j]);
    }
    assert forall|i: int| 0 <= i < c.methods().len() implies a.contains(#[trigger] b[i])
        && x.contains(y[i]) && p.contains(q[i]) by {
        let j = lemma_method_forth(c, m, code, i);
        lemma_code_need_same(dex, descriptor, i);
        lemma_debug_need_same(dex, descriptor, class, n, i, j);
        assert(a[j] == b[i] && x[j] == y[i] && p[j] == q[i]);
    }
    assert forall|j: int| 0 <= j < x.len() implies y.contains(#[trigger] x[j]) by {
        assert(b.contains(a[j]));
    }
    assert forall|j: int| 0 <= j < p.len() implies q.contains(#[trigger] p[j]) by {
        assert(b.contains(a[j]));
    }
    assert forall|i: int| 0 <= i < y.len() implies x.contains(#[trigger] y[i]) by {
        assert(a.contains(b[i]));
    }
    assert forall|i: int| 0 <= i < q.len() implies p.contains(#[trigger] q[i]) by {
        assert(a.contains(b[i]));
    }
    lemma_totals_same(a, b);
    lemma_totals_same(x, y);
    lemma_totals_same(p, q);
}

/// All members of an extracted class have a new index.
#[verifier::spinoff_prover]
pub proof fn lemma_extracted_mapped(dex: DexTables, descriptor: Seq<char>)
    requires
        extracted_from(dex, descriptor) is Ok,
    ensures
        ({
            let m = extracted_from(dex, descriptor)->Ok_0.1;
            let c = class_of(dex, descriptor)->Ok_0.1;
            &&& forall|j: int|
                0 <= j < c.fields().len() ==> m.mapped_field(
                    (#[trigger] c.fields()[j]).field_idx,
                ) is Ok
            &&& forall|j: int|
                0 <= j < c.methods().len() ==> m.mapped_method(
                    (#[trigger] c.methods()[j]).method_idx,
                ) is Ok
        }),
{
    let m = extracted_from(dex, descriptor)->Ok_0.1;
    let members = class_of(dex, descriptor)->Ok_0.1;
    let parts = parts_for(dex, descriptor);
    let s = sections_for(dex, descriptor);
    lemma_extracted_layout(dex, descriptor);
    lemma_class_stands(members, parts, m, dex);
    if members.fields().len() > 0 || members.methods().len() > 0 {
        let done = choose|done: Seq<u8>| #[trigger]
            members_bytes(members, m, s.code_offsets, done) == Ok::<Seq<u8>, Error>(s.data)
                && s.class_data_off == m.data_at() + done.len();
        lemma_members_mapped(members, m, s.code_offsets, done);
    }
}

/// What the class itself needs stays.
#[verifier::spinoff_prover]
proof fn lemma_class_need_same(dex: DexTables, descriptor: Seq<char>, interfaces: Seq<u16>)
    requires
        extracted_from(dex, descriptor) is Ok,
        new_tables(dex, descriptor).type_list(extracted_def(dex, descriptor).interfaces_off) == Ok::<
            Seq<u16>,
            Error,
        >(interfaces),
    ensures
        ({
            let (class, members) = class_of(dex, descriptor)->Ok_0;
            needed_by_class(
                new_tables(dex, descriptor),
                extracted_def(dex, descriptor),
                members_again(dex, descriptor),
                interfaces,
            ) == needed_by_class(dex, class, members, parts_for(dex, descriptor).interfaces)
        }),
{
    let m = extracted_from(dex, descriptor)->Ok_0.1;
    let (class, members) = class_of(dex, descriptor)->Ok_0;
    let parts = parts_for(dex, descriptor);
    let t = new_tables(dex, descriptor);
    let s = sections_for(dex, descriptor);
    lemma_extracted_alike(dex, descriptor);
    lemma_extracted_layout(dex, descriptor);
    lemma_extracted_interfaces(dex, descriptor);
    lemma_definition_needs(dex, t, m, class, s);
    lemma_mapped_types_needs(dex, t, m, parts.interfaces, interfaces);
    lemma_extracted_mapped(dex, descriptor);
    lemma_members_need_same(dex, t, m, members, s.code_offsets);
}

/// What the class needs as it stands in the extracted file, where its parts can
/// be read.
#[verifier::spinoff_prover]
proof fn lemma_whole_same(dex: DexTables, descriptor: Seq<char>, new: Parts)
    requires
        extracts_once(dex, descriptor),
        methods_once(members_again(dex, descriptor)),
        new_tables(dex, descriptor).data == extracted_from(dex, descriptor)->Ok_0.0,
        parts_of(
            new_tables(dex, descriptor),
            extracted_def(dex, descriptor),
            members_again(dex, descriptor),
            CodeRefs::empty(),
        ) is Ok,
        new == parts_of(
            new_tables(dex, descriptor),
            extracted_def(dex, descriptor),
            members_again(dex, descriptor),
            CodeRefs::empty(),
        )->Ok_0.0,
        roamed(
            extracted_from(dex, descriptor)->Ok_0.0,
            extracted_def(dex, descriptor).annotations_off,
            new.annotations,
        ),
    ensures
        ({
            let (class, members) = class_of(dex, descriptor)->Ok_0;
            whole(
                new_tables(dex, descriptor),
                extracted_def(dex, descriptor),
                members_again(dex, descriptor),
                new,
            ) == whole(dex, class, members, parts_for(dex, descriptor))
        }),
{
    let t = new_tables(dex, descriptor);
    let def = extracted_def(dex, descriptor);
    lemma_methods_need_same(dex, descriptor, def);
    lemma_class_need_same(dex, descriptor, new.interfaces);
    lemma_extracted_annotations_need(dex, descriptor, new.annotations);
    let refs = annotations_in(t.data, def.annotations_off, RefSets::empty())->Ok_0.1;
    lemma_extracted_statics_need(dex, descriptor, refs);
}

/// Relinking changes nothing that the needs of a class are told from.
proof fn lemma_whole_linked(dex: DexTables, descriptor: Seq<char>)
    requires
        extracted_from(dex, descriptor) is Ok,
    ensures
        ({
            let (class, members) = class_of(dex, descriptor)->Ok_0;
            let parts = parts_of(dex, class, members, CodeRefs::empty())->Ok_0.0;
            whole(dex, class, members, parts_for(dex, descriptor)) == whole(
                dex,
                class,
                members,
                parts,
            )
        }),
{
}

/// A class needs in its extracted file what it needed.
#[verifier::spinoff_prover]
pub proof fn lemma_needed_same(dex: DexTables, descriptor: Seq<char>)
    requires
        extracts_once(dex, descriptor),
        methods_once(members_again(dex, descriptor)),
        new_tables(dex, descriptor).data == extracted_from(dex, descriptor)->Ok_0.0,
        parts_of(
            new_tables(dex, descriptor),
            extracted_def(dex, descriptor),
            members_again(dex, descriptor),
            CodeRefs::empty(),
        ) is Ok,
    ensures
        ({
            let (class, members) = class_of(dex, descriptor)->Ok_0;
            let (old, refs) = parts_of(dex, class, members, CodeRefs::empty())->Ok_0;
            let t = new_tables(dex, descriptor);
            let def = extracted_def(dex, descriptor);
            let again = members_again(dex, descriptor);
            let (new, more) = parts_of(t, def, again, CodeRefs::empty())->Ok_0;
            needed(t, def, again, new, more) == needed(dex, class, members, old, refs)
        }),
{
    let t = new_tables(dex, descriptor);
    let (class, members) = class_of(dex, descriptor)->Ok_0;
    let def = extracted_def(dex, descriptor);
    let again = members_again(dex, descriptor);
    let new = parts_of(t, def, again, CodeRefs::empty())->Ok_0.0;
    lemma_needed_whole(dex, class, members);
    lemma_needed_whole(t, def, again);
    lemma_parts_held(t, def, again);
    lemma_whole_same(dex, descriptor, new);
    lemma_whole_linked(dex, descriptor);
}

} // verus!
