//! A second extraction: what has an index in the extracted file keeps it when
//! the class is extracted again.
use vstd::prelude::*;

use crate::collections::{lemma_put_get, lemma_rank, rank_from, Entries};
use crate::dex_format::uleb_in;
use crate::minidex::assemble::built;
use crate::minidex::bytecode::CodeRefs;
use crate::minidex::canonical::{field_keys, method_keys};
use crate::minidex::fidelity::{
    lemma_extracted_layout, lemma_extracted_meanings, lemma_extracted_readable,
    lemma_extracted_tables,
};
use crate::minidex::gather::{
    caught_types, class_strings, class_types, field_adder, field_ids, method_adder, method_ids,
    type_adder, widened_ids, with_code_refs, with_fields, with_metadata_refs, with_methods,
    with_protos, with_strings, with_types,
};
use crate::minidex::holdings::{lemma_plus_chain, lemma_total_push, total, Holdings};
use crate::minidex::hollow::{debug_step, debugs_of, parts_of, statics_of};
use crate::minidex::metadata::{annotations_in, debug_in, AnnotatedKind};
use crate::minidex::notes::lemma_get_at;
use crate::minidex::placement::lemma_codes_ok;
use crate::minidex::preserved::parts_for;
use crate::minidex::reader::{ClassDef, Code, DexTables, Members};
use crate::minidex::renote::{directory_present, lemma_put_last};
use crate::minidex::rewrite::fixed;
use crate::minidex::roam::{
    annotations_needs, directory_noted, lemma_annotations_read, lemma_noted_longer, roamed,
};
use crate::minidex::sections::new_member;
use crate::minidex::sound::all_sorted;
use crate::minidex::tableback::reads_as;
use crate::minidex::tables::{lemma_position, lemma_position_unique, param_step, Tables};
use crate::minidex::unique::{lemma_proto_meanings_differ, lemma_type_names_differ};
use crate::minidex::validate::lemma_strictly_sorted;
use crate::minidex::values::{Debugging, RefSets, Value};
use crate::minidex::wants::{
    alike, debug_needs, lemma_debug_held, lemma_values_held, members_within, meta_held, refs_ascend,
    values_needs,
};
use crate::minidex::{class_of, extracted_from, linked};
use crate::order::lemma_less_irreflexive;
use crate::results::run;

verus! {

// ---------------------------------------------------------------------------
// Which members have a new index
// ---------------------------------------------------------------------------

/// Whether members that have a new index keep one.
spec fn members_kept(m: Tables, n: Tables) -> bool {
    &&& forall|k: u32| #[trigger]
        m.origin_fields.contains_key(k) ==> n.origin_fields.contains_key(k)
    &&& forall|k: u32| #[trigger]
        m.origin_methods.contains_key(k) ==> n.origin_methods.contains_key(k)
}

proof fn lemma_params_members(dex: DexTables, list: Seq<u16>, s: (Tables, Seq<u16>), i: int)
    requires
        run(param_step(dex, list), s, i, list.len() as int) is Ok,
    ensures
        members_kept(s.0, run(param_step(dex, list), s, i, list.len() as int)->Ok_0.0),
    decreases list.len() - i,
{
    if i < list.len() {
        lemma_params_members(dex, list, param_step(dex, list)(s, i)->Ok_0, i + 1);
    }
}

proof fn lemma_proto_members(m: Tables, dex: DexTables, old: u32)
    requires
        m.add_proto(dex, old) is Ok,
    ensures
        members_kept(m, m.add_proto(dex, old)->Ok_0.0),
{
    if !m.origin_protos.contains_key(old) {
        let source = dex.protos[old as int];
        let a = m.add_origin_string(dex, source.shorty_idx)->Ok_0.0;
        let b = a.add_origin_type(dex, source.return_type_idx)->Ok_0.0;
        let list = dex.type_list(source.parameters_off)->Ok_0;
        lemma_params_members(dex, list, (b, Seq::<u16>::empty()), 0);
    }
}

proof fn lemma_method_members(m: Tables, dex: DexTables, old: u32)
    requires
        m.add_method(dex, old) is Ok,
    ensures
        members_kept(m, m.add_method(dex, old)->Ok_0.0),
        m.add_method(dex, old)->Ok_0.0.origin_methods.contains_key(old),
{
    if !m.origin_methods.contains_key(old) {
        lemma_proto_members(m, dex, dex.methods[old as int].proto_idx as u32);
    }
}

proof fn lemma_types_members(m: Tables, dex: DexTables, list: Seq<u32>, i: int)
    requires
        run(type_adder(dex, list, false), m, i, list.len() as int) is Ok,
    ensures
        members_kept(m, run(type_adder(dex, list, false), m, i, list.len() as int)->Ok_0),
    decreases list.len() - i,
{
    if i < list.len() {
        lemma_types_members(type_adder(dex, list, false)(m, i)->Ok_0, dex, list, i + 1);
    }
}

proof fn lemma_fields_members(m: Tables, dex: DexTables, list: Seq<u32>, i: int)
    requires
        0 <= i,
        run(field_adder(dex, list, false), m, i, list.len() as int) is Ok,
    ensures
        ({
            let n = run(field_adder(dex, list, false), m, i, list.len() as int)->Ok_0;
            &&& members_kept(m, n)
            &&& forall|j: int|
                i <= j < list.len() ==> n.origin_fields.contains_key(#[trigger] list[j])
        }),
    decreases list.len() - i,
{
    if i < list.len() {
        let n = field_adder(dex, list, false)(m, i)->Ok_0;
        assert(members_kept(m, n) && n.origin_fields.contains_key(list[i]));
        lemma_fields_members(n, dex, list, i + 1);
    }
}

proof fn lemma_methods_members(m: Tables, dex: DexTables, list: Seq<u32>, i: int)
    requires
        0 <= i,
        run(method_adder(dex, list, false), m, i, list.len() as int) is Ok,
    ensures
        ({
            let n = run(method_adder(dex, list, false), m, i, list.len() as int)->Ok_0;
            &&& members_kept(m, n)
            &&& forall|j: int|
                i <= j < list.len() ==> n.origin_methods.contains_key(#[trigger] list[j])
        }),
    decreases list.len() - i,
{
    if i < list.len() {
        let n = method_adder(dex, list, false)(m, i)->Ok_0;
        lemma_method_members(m, dex, list[i]);
        lemma_methods_members(n, dex, list, i + 1);
    }
}

/// The members among the collected references have a new index.
proof fn lemma_metadata_members(m: Tables, dex: DexTables, refs: RefSets, caught: Seq<u32>)
    requires
        with_metadata_refs(m, dex, refs) is Ok,
        with_types(with_metadata_refs(m, dex, refs)->Ok_0, dex, caught, false) is Ok,
    ensures
        ({
            let n = with_types(
                with_metadata_refs(m, dex, refs)->Ok_0,
                dex,
                caught,
                false,
            )->Ok_0.canonical();
            &&& forall|x: u32| #[trigger]
                refs.fields.contains(x) ==> n.origin_fields.contains_key(x)
            &&& forall|x: u32| #[trigger]
                refs.methods.contains(x) ==> n.origin_methods.contains_key(x)
        }),
{
    let a = with_strings(m, dex, refs.strings)->Ok_0;
    let b = with_types(a, dex, refs.types, false)->Ok_0;
    let c = with_protos(b, dex, refs.protos, false)->Ok_0;
    let d = with_fields(c, dex, refs.fields, false)->Ok_0;
    let e = with_methods(d, dex, refs.methods, false)->Ok_0;
    lemma_fields_members(c, dex, refs.fields, 0);
    lemma_methods_members(d, dex, refs.methods, 0);
    lemma_types_members(e, dex, caught, 0);
    let f = with_types(e, dex, caught, false)->Ok_0;
    let n = f.canonical();
    assert forall|x: u32| #[trigger] refs.fields.contains(x) implies n.origin_fields.contains_key(
        x,
    ) by {
        let j = choose|j: int| 0 <= j < refs.fields.len() && refs.fields[j] == x;
        assert(d.origin_fields.contains_key(refs.fields[j]));
        assert(f.origin_fields.contains_key(x));
    }
    assert forall|x: u32| #[trigger] refs.methods.contains(x) implies n.origin_methods.contains_key(
        x,
    ) by {
        let j = choose|j: int| 0 <= j < refs.methods.len() && refs.methods[j] == x;
        assert(e.origin_methods.contains_key(refs.methods[j]));
        assert(f.origin_methods.contains_key(x));
    }
}

// ---------------------------------------------------------------------------
// What the metadata of a class needs
// ---------------------------------------------------------------------------

/// What static values need.
pub open spec fn statics_needs(dex: DexTables, values: Option<Seq<Value>>) -> Holdings {
    match values {
        None => Holdings::none(),
        Some(items) => total(values_needs(dex, items)),
    }
}

proof fn lemma_statics_held(dex: DexTables, data: Seq<u8>, offset: u32, refs: RefSets)
    requires
        refs_ascend(refs),
        statics_of(data, offset, refs) is Ok,
    ensures
        ({
            let (values, r) = statics_of(data, offset, refs)->Ok_0;
            &&& refs_ascend(r)
            &&& members_within(refs, r)
            &&& meta_held(dex, r) == meta_held(dex, refs).plus(statics_needs(dex, values))
        }),
{
    let held = meta_held(dex, refs);
    assert(held.plus(Holdings::none()) =~= held);
    if offset != 0 {
        let (count, start) = uleb_in(data, offset as int)->Ok_0;
        let none = Seq::<Value>::empty();
        assert(held.plus(total(values_needs(dex, none))) =~= held);
        lemma_values_held(dex, data, start, refs, count as int, none, held);
    }
}

/// What debug items need, each of them.
pub open spec fn debugs_needs(dex: DexTables, debugs: Seq<Debugging>) -> Seq<Holdings> {
    debugs.map_values(|d: Debugging| debug_needs(dex, d))
}

/// What the debug item of a method is, if its code has one.
pub open spec fn debug_read(
    data: Seq<u8>,
    codes: Entries<Code>,
    debugs: Entries<Debugging>,
    id: u32,
) -> bool {
    match codes.get(id) {
        None => debugs.get(id) is None,
        Some(code) => if code.debug_info_off == 0 {
            debugs.get(id) is None
        } else {
            &&& debugs.get(id) is Some
            &&& exists|refs: RefSets|
                (#[trigger] debug_in(data, code.debug_info_off as int, refs)) is Ok && debug_in(
                    data,
                    code.debug_info_off as int,
                    refs,
                )->Ok_0.0 == debugs.get(id)->Some_0
        },
    }
}

/// What holds while debug items are read.
spec fn debugs_so_far(
    dex: DexTables,
    data: Seq<u8>,
    codes: Entries<Code>,
    st: (Entries<Debugging>, RefSets),
    i: int,
    start: Holdings,
) -> bool {
    &&& st.0.wf()
    &&& refs_ascend(st.1)
    &&& meta_held(dex, st.1) == start.plus(total(debugs_needs(dex, st.0.values)))
    &&& forall|j: int| 0 <= j < st.0.keys.len() ==> codes.keys.take(i).contains(
        #[trigger] st.0.keys[j],
    )
    &&& forall|j: int|
        0 <= j < i ==> debug_read(data, codes, st.0, #[trigger] codes.keys[j])
}

proof fn lemma_debug_noted(
    dex: DexTables,
    data: Seq<u8>,
    codes: Entries<Code>,
    st: (Entries<Debugging>, RefSets),
    i: int,
    start: Holdings,
)
    requires
        codes.wf(),
        0 <= i < codes.keys.len(),
        debugs_so_far(dex, data, codes, st, i, start),
        debug_step(data, codes)(st, i) is Ok,
    ensures
        debugs_so_far(dex, data, codes, debug_step(data, codes)(st, i)->Ok_0, i + 1, start),
        members_within(st.1, debug_step(data, codes)(st, i)->Ok_0.1),
{
    let next = debug_step(data, codes)(st, i)->Ok_0;
    let key = codes.keys[i];
    let code = codes.values[i];
    lemma_get_at(codes, i);
    assert forall|j: int| 0 <= j < st.0.keys.len() implies #[trigger] st.0.keys[j] < key by {
        assert(codes.keys.take(i).contains(st.0.keys[j]));
    }
    assert(st.0.get(key) is None) by {
        lemma_rank(st.0.keys, key);
        let p = rank_from(st.0.keys, key, 0);
        if p < st.0.keys.len() && st.0.keys[p] == key {
            assert(st.0.keys[p] < key);
        }
    }
    if code.debug_info_off != 0 {
        let (d, refs) = debug_in(data, code.debug_info_off as int, st.1)->Ok_0;
        lemma_debug_held(dex, data, code.debug_info_off as int, st.1);
        lemma_put_last(st.0, key, d);
        lemma_put_get(st.0, key, d, key);
        lemma_total_push(debugs_needs(dex, st.0.values), debug_needs(dex, d));
        assert(debugs_needs(dex, next.0.values) =~= debugs_needs(dex, st.0.values).push(
            debug_needs(dex, d),
        ));
        lemma_plus_chain(start, total(debugs_needs(dex, st.0.values)), debug_needs(dex, d));
        assert forall|j: int| 0 <= j < i implies debug_read(
            data,
            codes,
            next.0,
            #[trigger] codes.keys[j],
        ) by {
            lemma_put_get(st.0, key, d, codes.keys[j]);
            assert(debug_read(data, codes, st.0, codes.keys[j]));
            assert(codes.keys[j] < key);
        }
    }
    assert(debug_read(data, codes, next.0, key));
    assert forall|j: int| 0 <= j < next.0.keys.len() implies codes.keys.take(i + 1).contains(
        #[trigger] next.0.keys[j],
    ) by {
        if j < st.0.keys.len() {
            assert(next.0.keys[j] == st.0.keys[j]);
            assert(codes.keys.take(i).contains(st.0.keys[j]));
            let k = choose|k: int| 0 <= k < i && codes.keys.take(i)[k] == st.0.keys[j];
            assert(codes.keys.take(i + 1)[k] == st.0.keys[j]);
        } else {
            assert(codes.keys.take(i + 1)[i] == key);
        }
    }
}

proof fn lemma_debugs_run(
    dex: DexTables,
    data: Seq<u8>,
    codes: Entries<Code>,
    st: (Entries<Debugging>, RefSets),
    i: int,
    start: Holdings,
)
    requires
        codes.wf(),
        0 <= i <= codes.keys.len(),
        debugs_so_far(dex, data, codes, st, i, start),
        run(debug_step(data, codes), st, i, codes.keys.len() as int) is Ok,
    ensures
        ({
            let out = run(debug_step(data, codes), st, i, codes.keys.len() as int)->Ok_0;
            &&& debugs_so_far(dex, data, codes, out, codes.keys.len() as int, start)
            &&& members_within(st.1, out.1)
        }),
    decreases codes.keys.len() - i,
{
    if i < codes.keys.len() {
        lemma_debug_noted(dex, data, codes, st, i, start);
        lemma_debugs_run(dex, data, codes, debug_step(data, codes)(st, i)->Ok_0, i + 1, start);
    }
}

/// Reading the debug items of all code reads each, and nothing else.
proof fn lemma_debugs_held(dex: DexTables, data: Seq<u8>, codes: Entries<Code>, refs: RefSets)
    requires
        codes.wf(),
        refs_ascend(refs),
        debugs_of(data, codes, refs) is Ok,
    ensures
        ({
            let (debugs, r) = debugs_of(data, codes, refs)->Ok_0;
            &&& debugs.wf()
            &&& members_within(refs, r)
            &&& meta_held(dex, r) == meta_held(dex, refs).plus(
                total(debugs_needs(dex, debugs.values)),
            )
            &&& forall|id: u32| #[trigger] debug_read(data, codes, debugs, id)
        }),
{
    let held = meta_held(dex, refs);
    let st = (Entries::<Debugging>::empty(), refs);
    let n = codes.keys.len();
    assert(held.plus(total(debugs_needs(dex, st.0.values))) =~= held);
    lemma_debugs_run(dex, data, codes, st, 0, held);
    let debugs = debugs_of(data, codes, refs)->Ok_0.0;
    assert(codes.keys.take(n as int) =~= codes.keys);
    assert forall|id: u32| #[trigger] debug_read(data, codes, debugs, id) by {
        lemma_rank(codes.keys, id);
        let p = rank_from(codes.keys, id, 0);
        if p < n && codes.keys[p] == id {
            assert(debug_read(data, codes, debugs, codes.keys[p]));
        } else {
            lemma_rank(debugs.keys, id);
            let q = rank_from(debugs.keys, id, 0);
            if q < debugs.keys.len() && debugs.keys[q] == id {
                assert(codes.keys.contains(id));
                let k = choose|k: int| 0 <= k < n && codes.keys[k] == id;
                lemma_get_at(codes, k);
            }
        }
    }
}

/// What the metadata of a class needs is what its annotations, its static
/// values and its debug items need; and annotated members are referred to.
pub proof fn lemma_parts_held(dex: DexTables, class: ClassDef, members: Members)
    requires
        parts_of(dex, class, members, CodeRefs::empty()) is Ok,
    ensures
        ({
            let parts = parts_of(dex, class, members, CodeRefs::empty())->Ok_0.0;
            &&& meta_held(dex, parts.metadata_refs) == annotations_needs(
                dex,
                parts.annotations,
            ).plus(statics_needs(dex, parts.static_values)).plus(
                total(debugs_needs(dex, parts.debug_info.values)),
            )
            &&& parts.debug_info.wf()
            &&& parts.codes.wf()
            &&& forall|id: u32| #[trigger]
                debug_read(dex.data, parts.codes, parts.debug_info, id)
            &&& parts.annotations.directory matches Some(d) ==> directory_noted(
                d,
                parts.metadata_refs,
            )
            &&& roamed(dex.data, class.annotations_off, parts.annotations)
        }),
{
    let none = RefSets::empty();
    let parts = parts_of(dex, class, members, CodeRefs::empty())->Ok_0.0;
    let (annotations, a) = annotations_in(dex.data, class.annotations_off, none)->Ok_0;
    let b = statics_of(dex.data, class.static_values_off, a)->Ok_0.1;
    let c = parts.metadata_refs;
    lemma_codes_ok(dex.data, members.methods(), CodeRefs::empty());
    lemma_annotations_read(dex.data, dex, class.annotations_off, none);
    lemma_statics_held(dex, dex.data, class.static_values_off, a);
    lemma_debugs_held(dex, dex.data, parts.codes, b);
    let x = annotations_needs(dex, annotations);
    assert(meta_held(dex, none).plus(x) =~= x);
    if let Some(d) = annotations.directory {
        lemma_noted_longer(AnnotatedKind::Field, d.field_annotations, a, b);
        lemma_noted_longer(AnnotatedKind::Field, d.field_annotations, b, c);
        lemma_noted_longer(AnnotatedKind::Method, d.method_annotations, a, b);
        lemma_noted_longer(AnnotatedKind::Method, d.method_annotations, b, c);
        lemma_noted_longer(AnnotatedKind::Parameters, d.parameter_annotations, a, b);
        lemma_noted_longer(AnnotatedKind::Parameters, d.parameter_annotations, b, c);
    }
}

/// Every annotated member has an index in the extracted file.
pub proof fn lemma_extracted_present(dex: DexTables, descriptor: Seq<char>)
    requires
        extracted_from(dex, descriptor) is Ok,
    ensures
        parts_for(dex, descriptor).annotations.directory matches Some(d) ==> directory_present(
            d,
            extracted_from(dex, descriptor)->Ok_0.1,
        ),
{
    let (class, members) = class_of(dex, descriptor)->Ok_0;
    let (parts, refs) = parts_of(dex, class, members, CodeRefs::empty())->Ok_0;
    let m = extracted_from(dex, descriptor)->Ok_0.1;
    lemma_parts_held(dex, class, members);
    if let Some(d) = parts.annotations.directory {
        let a = with_code_refs(Tables::empty(), dex, refs)->Ok_0;
        let b = with_fields(a, dex, field_ids(members.fields()), false)->Ok_0;
        let c = with_methods(b, dex, method_ids(members.methods()), false)->Ok_0;
        let e = with_strings(c, dex, class_strings(class))->Ok_0;
        let f = with_types(e, dex, class_types(class), false)->Ok_0;
        let g = with_types(f, dex, widened_ids(parts.interfaces), false)->Ok_0;
        let all = parts.metadata_refs;
        lemma_metadata_members(g, dex, all, caught_types(parts.codes.values));
        assert forall|i: int| 0 <= i < d.field_annotations.len() implies new_member(
            m,
            true,
            (#[trigger] d.field_annotations[i]).0,
        ) is Ok by {
            assert(all.fields.contains(d.field_annotations[i].0));
        }
        assert forall|i: int| 0 <= i < d.method_annotations.len() implies new_member(
            m,
            false,
            (#[trigger] d.method_annotations[i]).0,
        ) is Ok by {
            assert(all.methods.contains(d.method_annotations[i].0));
        }
        assert forall|i: int| 0 <= i < d.parameter_annotations.len() implies new_member(
            m,
            false,
            (#[trigger] d.parameter_annotations[i]).0,
        ) is Ok by {
            assert(all.methods.contains(d.parameter_annotations[i].0));
        }
    }
}

// ---------------------------------------------------------------------------
// Indices that stay
// ---------------------------------------------------------------------------

proof fn lemma_alike(dex: DexTables, t: DexTables, m: Tables)
    requires
        t.strings == m.strings,
        t.types.len() == m.types.len(),
        t.protos.len() == m.protos.len(),
        t.fields.len() == m.fields.len(),
        t.methods.len() == m.methods.len(),
        m.ok(),
        m.readable(dex),
        m.strings.len() <= u32::MAX,
        forall|k: u32| #[trigger]
            m.origin_types.contains_key(k) ==> t.name_of_type(m.origin_types[k] as int)
                == dex.name_of_type(k as int),
        forall|k: u32| #[trigger]
            m.origin_protos.contains_key(k) ==> t.proto_meaning(m.origin_protos[k] as int)
                == dex.proto_meaning(k as int),
        forall|k: u32| #[trigger]
            m.origin_fields.contains_key(k) ==> t.field_meaning(m.origin_fields[k] as int)
                == dex.field_meaning(k as int),
        forall|k: u32| #[trigger]
            m.origin_methods.contains_key(k) ==> t.method_meaning(m.origin_methods[k] as int)
                == dex.method_meaning(k as int),
    ensures
        alike(dex, t, m),
{
    assert forall|k: u32| (#[trigger] m.mapped_string(dex, k)) is Ok implies k < dex.strings.len()
        && m.mapped_string(dex, k)->Ok_0 < t.strings.len() && t.strings[m.mapped_string(
        dex,
        k,
    )->Ok_0 as int] == dex.strings[k as int] && m.mapped_string(dex, k)->Ok_0 < u32::MAX by {
        lemma_position(m.strings, dex.strings[k as int]);
    }
    assert forall|k: u32| (#[trigger] m.mapped_type(k)) is Ok implies m.origin_types.contains_key(
        k,
    ) by {}
    assert forall|k: u32| (#[trigger] m.mapped_proto(k)) is Ok implies m.origin_protos.contains_key(
        k,
    ) && dex.proto_readable(k) by {}
    assert forall|k: u32| (#[trigger] m.mapped_field(k)) is Ok implies m.origin_fields.contains_key(
        k,
    ) by {}
    assert forall|k: u32| (#[trigger] m.mapped_method(k)) is Ok implies m.origin_methods.contains_key(
        k,
    ) && dex.method_readable(k) by {}
}

/// What has an index in the extracted file stands for the same there.
#[verifier::spinoff_prover]
pub proof fn lemma_extracted_alike(dex: DexTables, descriptor: Seq<char>)
    requires
        extracted_from(dex, descriptor) is Ok,
    ensures
        ({
            let (bytes, m) = extracted_from(dex, descriptor)->Ok_0;
            alike(dex, DexTables::tables_in(bytes, 0)->Ok_0, m)
        }),
{
    let (bytes, m) = extracted_from(dex, descriptor)->Ok_0;
    let t = DexTables::tables_in(bytes, 0)->Ok_0;
    lemma_extracted_meanings(dex, descriptor);
    lemma_extracted_tables(dex, descriptor);
    let (class, members) = class_of(dex, descriptor)->Ok_0;
    let (n, parts) = linked(dex, class, members)->Ok_0;
    assert(built(class, members, parts, n, dex) is Ok);
    assert(m.strings.len() <= u32::MAX);
    lemma_extracted_layout(dex, descriptor);
    lemma_extracted_readable(dex, descriptor);
    lemma_alike(dex, t, m);
}

pub proof fn lemma_field_meanings_differ(m: Tables, i: int, j: int)
    requires
        m.ok(),
        all_sorted(m),
        0 <= i < m.fields.len(),
        0 <= j < m.fields.len(),
        m.field_meaning(m.fields[i]) == m.field_meaning(m.fields[j]),
    ensures
        i == j,
{
    let f = m.fields[i];
    let g = m.fields[j];
    assert(m.field_ok(f) && m.field_ok(g));
    lemma_type_names_differ(m, f.class_idx as int, g.class_idx as int);
    lemma_type_names_differ(m, f.type_idx as int, g.type_idx as int);
    assert(m.strings[f.name_idx as int] == m.strings[g.name_idx as int]);
    assert(f == g);
    let keys = field_keys(m.fields);
    if i < j {
        lemma_strictly_sorted(keys, i, j);
        lemma_less_irreflexive(keys[i]);
    } else if j < i {
        lemma_strictly_sorted(keys, j, i);
        lemma_less_irreflexive(keys[i]);
    }
}

pub proof fn lemma_method_meanings_differ(m: Tables, i: int, j: int)
    requires
        m.ok(),
        all_sorted(m),
        0 <= i < m.methods.len(),
        0 <= j < m.methods.len(),
        m.method_meaning(m.methods[i]) == m.method_meaning(m.methods[j]),
    ensures
        i == j,
{
    let f = m.methods[i];
    let g = m.methods[j];
    assert(m.method_ok(f) && m.method_ok(g));
    lemma_type_names_differ(m, f.class_idx as int, g.class_idx as int);
    lemma_proto_meanings_differ(m, f.proto_idx as int, g.proto_idx as int);
    assert(m.strings[f.name_idx as int] == m.strings[g.name_idx as int]);
    assert(f == g);
    let keys = method_keys(m.methods);
    if i < j {
        lemma_strictly_sorted(keys, i, j);
        lemma_less_irreflexive(keys[i]);
    } else if j < i {
        lemma_strictly_sorted(keys, j, i);
        lemma_less_irreflexive(keys[i]);
    }
}

/// What was read means what the tables mean.
pub proof fn lemma_read_means(t: DexTables, m: Tables)
    requires
        reads_as(t, m),
        m.ok(),
    ensures
        forall|i: int| #[trigger] t.name_of_type(i) == m.name_of_type(i),
        forall|i: int|
            0 <= i < m.protos.len() ==> #[trigger] t.proto_meaning(i) == m.proto_meaning(
                m.protos[i],
            ),
        forall|i: int|
            0 <= i < m.fields.len() ==> #[trigger] t.field_meaning(i) == m.field_meaning(
                m.fields[i],
            ),
        forall|i: int|
            0 <= i < m.methods.len() ==> #[trigger] t.method_meaning(i) == m.method_meaning(
                m.methods[i],
            ),
{
    assert forall|i: int| 0 <= i < m.protos.len() implies #[trigger] t.proto_meaning(i)
        == m.proto_meaning(m.protos[i]) by {
        assert(t.protos[i].shorty_idx == m.protos[i].shorty_idx);
        assert(t.names_of_types(m.protos[i].params) =~= m.names_of_types(m.protos[i].params));
    }
    assert forall|i: int| 0 <= i < m.fields.len() implies #[trigger] t.field_meaning(i)
        == m.field_meaning(m.fields[i]) by {
        assert(t.fields[i].class_idx == m.fields[i].class_idx);
    }
    assert forall|i: int| 0 <= i < m.methods.len() implies #[trigger] t.method_meaning(i)
        == m.method_meaning(m.methods[i]) by {
        assert(t.methods[i].class_idx == m.methods[i].class_idx);
        assert(m.method_ok(m.methods[i]));
    }
}

/// In a file that reads as tables, whatever gets an index in the same tables
/// keeps the index that it has.
pub proof fn lemma_fixed(t: DexTables, n: Tables)
    requires
        reads_as(t, n),
        n.ok(),
        all_sorted(n),
        n.faithful(t),
        n.readable(t),
        n.strings.len() <= u32::MAX,
    ensures
        fixed(t, n),
{
    lemma_read_means(t, n);
    assert forall|k: u32| (#[trigger] n.mapped_string(t, k)) is Ok implies n.mapped_string(
        t,
        k,
    )->Ok_0 == k by {
        lemma_position_unique(n.strings, k as int);
    }
    assert forall|k: u32| (#[trigger] n.mapped_type(k)) is Ok implies n.mapped_type(k)->Ok_0
        == k by {
        assert(n.origin_types.contains_key(k));
        lemma_type_names_differ(n, n.origin_types[k] as int, k as int);
    }
    assert forall|k: u32| (#[trigger] n.mapped_proto(k)) is Ok implies n.mapped_proto(k)->Ok_0
        == k by {
        assert(n.origin_protos.contains_key(k));
        assert(t.proto_readable(k));
        lemma_proto_meanings_differ(n, n.origin_protos[k] as int, k as int);
    }
    assert forall|k: u32| (#[trigger] n.mapped_field(k)) is Ok implies n.mapped_field(k)->Ok_0
        == k by {
        assert(n.origin_fields.contains_key(k));
        lemma_field_meanings_differ(n, n.origin_fields[k] as int, k as int);
    }
    assert forall|k: u32| (#[trigger] n.mapped_method(k)) is Ok implies n.mapped_method(k)->Ok_0
        == k by {
        assert(n.origin_methods.contains_key(k));
        assert(t.method_readable(k));
        lemma_method_meanings_differ(n, n.origin_methods[k] as int, k as int);
    }
}

} // verus!
