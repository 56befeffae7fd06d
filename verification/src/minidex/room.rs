//! Tables take in whatever they are known to have room for.
use vstd::prelude::*;

use crate::collections::{lemma_rank, rank_from, Entries};
use crate::error::Error;
use crate::minidex::bytecode::CodeRefs;
use crate::minidex::gather::{
    caught_types, class_strings, class_types, field_adder, field_ids, gathered, method_adder,
    method_ids, proto_adder, string_adder, type_adder, widened_ids, with_code_refs, with_fields,
    with_metadata_refs, with_methods, with_protos, with_strings, with_types,
};
use crate::minidex::holdings::{
    closed, counted, field_need, field_parts, holdings, lemma_hold_field, lemma_hold_method,
    lemma_hold_proto, lemma_hold_string, lemma_hold_synthetic, lemma_hold_type, lemma_plus_has,
    lemma_primitive_kept, lemma_total_has, method_need, method_parts, needed, needed_by_class,
    needed_by_code, needed_by_metadata, of_field, of_method, of_param, of_params, of_proto,
    of_string, of_synthetic, of_type, origin_names, primed, primed_at, primitive_parts, proto_need,
    proto_parts, same_members, string_need, string_parts, synthetic_names, total, type_need,
    type_parts, Holdings,
};
use crate::minidex::hollow::Parts;
use crate::minidex::meaning::{
    extends_tables, lemma_field_sound, lemma_method_sound, lemma_origin_type_sound,
    lemma_primitive_sound, lemma_proto_sound, lemma_string_sound, lemma_synthetic_sound,
};
use crate::minidex::notes::lemma_get_at;
use crate::minidex::reader::{ClassDef, DexTables, Members};
use crate::minidex::tables::{
    is_letter, lemma_position, param_step, primitive_step, primitives, Tables,
};
use crate::minidex::values::RefSets;
use crate::results::run;

verus! {

// ---------------------------------------------------------------------------
// Counting
// ---------------------------------------------------------------------------

/// Names for some things are no more than the things, and as many if no two
/// things share a name.
proof fn lemma_image<A, B>(x: Set<A>, f: spec_fn(A) -> B)
    requires
        x.finite(),
    ensures
        x.map(f).finite(),
        x.map(f).len() <= x.len(),
        (forall|a: A, b: A|
            #![trigger x.contains(a), x.contains(b)]
            x.contains(a) && x.contains(b) && f(a) == f(b) ==> a == b) ==> x.map(f).len()
            == x.len(),
    decreases x.len(),
{
    if x.len() == 0 {
        assert(x.map(f) =~= Set::empty());
    } else {
        let a = x.choose();
        let y = x.remove(a);
        lemma_image(y, f);
        assert(x.map(f) =~= y.map(f).insert(f(a))) by {
            assert forall|b: B| #[trigger] x.map(f).contains(b) implies y.map(f).insert(
                f(a),
            ).contains(b) by {
                let c = choose|c: A| #[trigger] x.contains(c) && b == f(c);
                if c != a {
                    assert(y.contains(c));
                }
            }
            assert forall|b: B| #[trigger] y.map(f).insert(f(a)).contains(b) implies x.map(
                f,
            ).contains(b) by {
                if b != f(a) {
                    let c = choose|c: A| #[trigger] y.contains(c) && b == f(c);
                    assert(x.contains(c));
                }
            }
        }
        if forall|a: A, b: A|
            #![trigger x.contains(a), x.contains(b)]
            x.contains(a) && x.contains(b) && f(a) == f(b) ==> a == b {
            assert forall|c: A, b: A|
                #![trigger y.contains(c), y.contains(b)]
                y.contains(c) && y.contains(b) && f(c) == f(b) implies c == b by {
                assert(x.contains(c) && x.contains(b));
            }
            if y.map(f).contains(f(a)) {
                let c = choose|c: A| #[trigger] y.contains(c) && f(a) == f(c);
                assert(x.contains(c) && x.contains(a));
            }
        }
    }
}

/// Texts without repetition among some texts are no more than those.
proof fn lemma_texts_fit(list: Seq<Seq<char>>, all: Set<Seq<char>>)
    requires
        list.no_duplicates(),
        all.finite(),
        forall|i: int| 0 <= i < list.len() ==> all.contains(#[trigger] list[i]),
    ensures
        list.len() <= all.len(),
{
    list.unique_seq_to_set();
    assert(list.to_set().subset_of(all));
    vstd::set_lib::lemma_len_subset(list.to_set(), all);
}

/// Numbers below a bound are no more than the bound.
proof fn lemma_numbers_fit(ids: Set<u32>, n: nat)
    requires
        ids.finite(),
        forall|k: u32| #[trigger] ids.contains(k) ==> k < n,
    ensures
        ids.len() <= n,
{
    let f = |k: u32| k as int;
    lemma_image(ids, f);
    assert forall|a: u32, b: u32|
        #![trigger ids.contains(a), ids.contains(b)]
        ids.contains(a) && ids.contains(b) && f(a) == f(b) implies a == b by {}
    let all = vstd::set_lib::set_int_range(0, n as int);
    vstd::set_lib::lemma_int_range(0, n as int);
    assert(ids.map(f).subset_of(all));
    vstd::set_lib::lemma_len_subset(ids.map(f), all);
}

/// As many numbers below a bound as the bound are all of them.
pub proof fn lemma_numbers_full(ids: Set<u32>, n: nat)
    requires
        ids.finite(),
        n <= ids.len(),
        forall|k: u32| #[trigger] ids.contains(k) ==> k < n,
    ensures
        forall|k: u32| k < n ==> #[trigger] ids.contains(k),
{
    assert forall|k: u32| k < n implies #[trigger] ids.contains(k) by {
        if !ids.contains(k) {
            lemma_numbers_fit(ids.insert(k), n);
        }
    }
}

/// The keys of entries, and the names of the types that are there by name.
proof fn lemma_synthetic_keys(m: Tables)
    requires
        m.ok(),
        m.named(),
    ensures
        m.synthetic_types.keys.to_set().map(|k: u32| m.strings[k as int]) == synthetic_names(m),
        m.synthetic_types.keys.to_set().finite(),
        m.synthetic_types.keys.to_set().len() == m.synthetic_types.keys.len(),
        forall|k: u32| #[trigger]
            m.synthetic_types.keys.to_set().contains(k) ==> k < m.strings.len(),
{
    let e = m.synthetic_types;
    let f = |k: u32| m.strings[k as int];
    assert(e.keys.no_duplicates()) by {
        assert forall|i: int, j: int| 0 <= i < e.keys.len() && 0 <= j < e.keys.len() && i != j implies e.keys[i]
            != e.keys[j] by {}
    }
    e.keys.unique_seq_to_set();
    assert forall|k: u32| (#[trigger] e.get(k)) is Some <==> e.keys.contains(k) by {
        if e.get(k) is Some {
            lemma_rank(e.keys, k);
            assert(e.keys[rank_from(e.keys, k, 0)] == k);
        }
        if e.keys.contains(k) {
            let i = choose|i: int| 0 <= i < e.keys.len() && e.keys[i] == k;
            lemma_get_at(e, i);
        }
    }
    assert forall|k: u32| #[trigger] e.keys.to_set().contains(k) implies k < m.strings.len()
        && m.name_of_type(e.get(k)->Some_0 as int) == f(k) by {
        assert(e.get(k) is Some);
        assert(m.synthetic_named(k));
        assert(m.string_ok(m.types[e.get(k)->Some_0 as int] as int));
    }
    assert forall|n: Seq<char>| #[trigger] e.keys.to_set().map(f).contains(n) implies synthetic_names(
        m,
    ).contains(n) by {
        let k = choose|k: u32| #[trigger] e.keys.to_set().contains(k) && n == f(k);
        assert(e.get(k) is Some);
    }
    assert forall|n: Seq<char>| #[trigger] synthetic_names(m).contains(n) implies e.keys.to_set().map(
        f,
    ).contains(n) by {
        let k = choose|k: u32|
            (#[trigger] e.get(k)) is Some && n == m.name_of_type(e.get(k)->Some_0 as int);
        assert(e.keys.to_set().contains(k));
    }
    assert(e.keys.to_set().map(f) =~= synthetic_names(m));
}

/// The types that are there by name have as many names.
proof fn lemma_synthetics_counted(m: Tables)
    requires
        m.ok(),
        m.named(),
    ensures
        synthetic_names(m).finite(),
        synthetic_names(m).len() == m.synthetic_types.keys.len(),
{
    let keys = m.synthetic_types.keys.to_set();
    let f = |k: u32| m.strings[k as int];
    lemma_synthetic_keys(m);
    lemma_image(keys, f);
    assert forall|a: u32, b: u32|
        #![trigger keys.contains(a), keys.contains(b)]
        keys.contains(a) && keys.contains(b) && f(a) == f(b) implies a == b by {
        assert(a < m.strings.len() && b < m.strings.len());
    }
}

/// The types that are there by their place have no more names than places.
proof fn lemma_origins_counted(m: Tables)
    requires
        counted(m),
    ensures
        origin_names(m).finite(),
        origin_names(m).len() <= m.origin_types.dom().len(),
        origin_names(m) == m.origin_types.dom().map(|k: u32| m.name_of_type(m.origin_types[k] as int)),
{
    let f = |k: u32| m.name_of_type(m.origin_types[k] as int);
    let dom = m.origin_types.dom();
    lemma_image(dom, f);
    assert forall|n: Seq<char>| #[trigger] dom.map(f).contains(n) implies origin_names(m).contains(
        n,
    ) by {
        let k = choose|k: u32| #[trigger] dom.contains(k) && n == f(k);
        assert(m.origin_types.contains_key(k));
    }
    assert forall|n: Seq<char>| #[trigger] origin_names(m).contains(n) implies dom.map(f).contains(
        n,
    ) by {
        let k = choose|k: u32| #[trigger]
            m.origin_types.contains_key(k) && n == m.name_of_type(m.origin_types[k] as int);
        assert(dom.contains(k) && n == f(k));
    }
    assert(origin_names(m) =~= dom.map(f));
}

/// Gathered tables have room for the names of their types.
pub proof fn lemma_names_fit(m: Tables)
    requires
        m.ok(),
        m.named(),
        closed(m),
    ensures
        holdings(m).origins.finite(),
        holdings(m).synthetics.finite(),
        holdings(m).origins.len() + holdings(m).synthetics.len() <= 0x1_0000,
{
    lemma_synthetics_counted(m);
    lemma_origins_counted(m);
}

// ---------------------------------------------------------------------------
// Files with room
// ---------------------------------------------------------------------------

/// Whether no two types of a file have the same name.
pub open spec fn types_differ(t: DexTables) -> bool {
    forall|i: int, j: int|
        0 <= i < t.types.len() && 0 <= j < t.types.len() && #[trigger] t.name_of_type(i)
            == #[trigger] t.name_of_type(j) ==> i == j
}

/// Whether the entries of a file point at entries that it has.
pub open spec fn entries_whole(t: DexTables) -> bool {
    &&& forall|i: int| 0 <= i < t.types.len() ==> (#[trigger] t.types[i]) < t.strings.len()
    &&& forall|i: int|
        0 <= i < t.protos.len() ==> (#[trigger] t.protos[i]).shorty_idx < t.strings.len()
            && t.protos[i].return_type_idx < t.types.len() && t.type_list(
            t.protos[i].parameters_off,
        ) is Ok && forall|j: int|
            0 <= j < t.type_list(t.protos[i].parameters_off)->Ok_0.len() ==> (
            #[trigger] t.type_list(t.protos[i].parameters_off)->Ok_0[j]) < t.types.len()
    &&& forall|i: int|
        0 <= i < t.fields.len() ==> (#[trigger] t.fields[i]).class_idx < t.types.len()
            && t.fields[i].type_idx < t.types.len() && t.fields[i].name_idx < t.strings.len()
    &&& forall|i: int|
        0 <= i < t.methods.len() ==> (#[trigger] t.methods[i]).class_idx < t.types.len()
            && t.methods[i].proto_idx < t.protos.len() && t.methods[i].name_idx < t.strings.len()
    &&& t.protos.len() <= 0x1_0000
    &&& t.fields.len() <= 0x1_0000
    &&& t.methods.len() <= 0x1_0000
}

/// Whether new tables can hold some of what a file has.
pub open spec fn roomy(t: DexTables, h: Holdings) -> bool {
    &&& types_differ(t)
    &&& entries_whole(t)
    &&& h.strings.finite()
    &&& h.strings.len() <= 0x1_0000_0000
    &&& h.origins.finite()
    &&& h.synthetics.finite()
    &&& h.origins.len() + h.synthetics.len() <= 0x1_0000
}

/// Whether tables hold no more than what there is room for.
pub open spec fn fits(m: Tables, t: DexTables, h: Holdings) -> bool {
    &&& m.sound(t)
    &&& closed(m)
    &&& holdings(m).within(h)
}

/// What is added to tables within bounds stays within them.
proof fn lemma_plus_fits(a: Holdings, b: Holdings, h: Holdings)
    requires
        a.within(h),
        b.within(h),
    ensures
        a.plus(b).within(h),
{
}

proof fn lemma_string_fits(m: Tables, t: DexTables, h: Holdings, text: Seq<char>)
    requires
        roomy(t, h),
        fits(m, t, h),
        h.strings.contains(text),
    ensures
        fits(m.add_string(text).0, t, h),
        m.add_string(text).0.strings.len() <= 0x1_0000_0000,
        m.add_string(text).1 < m.add_string(text).0.strings.len(),
        m.add_string(text).0.strings[m.add_string(text).1 as int] == text,
        extends_tables(m, m.add_string(text).0),
{
    let n = m.add_string(text).0;
    lemma_position(m.strings, text);
    assert forall|i: int| 0 <= i < m.strings.len() implies h.strings.contains(
        #[trigger] m.strings[i],
    ) by {
        assert(m.strings.to_set().contains(m.strings[i]));
    }
    lemma_texts_fit(m.strings, h.strings);
    if n.strings.len() > m.strings.len() {
        assert forall|i: int| 0 <= i < n.strings.len() implies h.strings.contains(
            #[trigger] n.strings[i],
        ) by {
            if i < m.strings.len() {
                assert(n.strings[i] == m.strings[i]);
            }
        }
        lemma_texts_fit(n.strings, h.strings);
    }
    lemma_hold_string(m, t, text);
    lemma_string_sound(m, t, text);
    lemma_plus_fits(holdings(m), of_string(text), h);
}

/// There is room for one more name.
proof fn lemma_one_more(names: Set<Seq<char>>, name: Seq<char>, all: Set<Seq<char>>)
    requires
        names.finite(),
        all.finite(),
        names.subset_of(all),
        all.contains(name),
        !names.contains(name),
    ensures
        names.len() < all.len(),
{
    vstd::set_lib::lemma_len_subset(names.insert(name), all);
}

proof fn lemma_origins_all_counted(m: Tables, t: DexTables)
    requires
        m.sound(t),
        counted(m),
        types_differ(t),
    ensures
        origin_names(m).finite(),
        origin_names(m).len() == m.origin_types.dom().len(),
{
    let f = |k: u32| m.name_of_type(m.origin_types[k] as int);
    let dom = m.origin_types.dom();
    lemma_origins_counted(m);
    lemma_image(dom, f);
    assert forall|a: u32, b: u32|
        #![trigger dom.contains(a), dom.contains(b)]
        dom.contains(a) && dom.contains(b) && f(a) == f(b) implies a == b by {
        assert(m.origin_types.contains_key(a) && m.origin_types.contains_key(b));
        assert(t.name_of_type(a as int) == t.name_of_type(b as int));
    }
}

proof fn lemma_type_fits(m: Tables, t: DexTables, h: Holdings, old: u32)
    requires
        roomy(t, h),
        fits(m, t, h),
        old < t.types.len(),
        of_type(t.name_of_type(old as int)).within(h),
    ensures
        m.add_origin_type(t, old) is Ok,
        fits(m.add_origin_type(t, old)->Ok_0.0, t, h),
        m.add_origin_type(t, old)->Ok_0.0.strings.len() <= 0x1_0000_0000,
        extends_tables(m, m.add_origin_type(t, old)->Ok_0.0),
        same_members(m, m.add_origin_type(t, old)->Ok_0.0),
        m.add_origin_type(t, old)->Ok_0.0.primitive_types == m.primitive_types,
{
    let name = t.name_of_type(old as int);
    assert(t.types[old as int] < t.strings.len());
    assert(of_type(name).strings.contains(name) && of_type(name).origins.contains(name));
    lemma_string_fits(m, t, h, name);
    if !m.origin_types.contains_key(old) {
        let a = m.add_string(name).0;
        lemma_synthetics_counted(a);
        lemma_origins_all_counted(a, t);
        assert(!origin_names(a).contains(name)) by {
            if origin_names(a).contains(name) {
                let k = choose|k: u32| #[trigger]
                    a.origin_types.contains_key(k) && name == a.name_of_type(
                        a.origin_types[k] as int,
                    );
                assert(t.name_of_type(k as int) == t.name_of_type(old as int));
            }
        }
        lemma_one_more(origin_names(a), name, h.origins);
        vstd::set_lib::lemma_len_subset(synthetic_names(a), h.synthetics);
    } else {
        lemma_position(m.strings, name);
        assert forall|i: int| 0 <= i < m.strings.len() implies h.strings.contains(
            #[trigger] m.strings[i],
        ) by {
            assert(m.strings.to_set().contains(m.strings[i]));
        }
        lemma_texts_fit(m.strings, h.strings);
    }
    lemma_hold_type(m, t, old);
    lemma_origin_type_sound(m, t, old);
    lemma_plus_fits(holdings(m), of_type(name), h);
}

proof fn lemma_synthetic_fits(m: Tables, t: DexTables, h: Holdings, text: Seq<char>)
    requires
        roomy(t, h),
        fits(m, t, h),
        of_synthetic(text).within(h),
    ensures
        m.add_synthetic_type(text) is Ok,
        fits(m.add_synthetic_type(text)->Ok_0.0, t, h),
        m.add_synthetic_type(text)->Ok_0.0.strings.len() <= 0x1_0000_0000,
        extends_tables(m, m.add_synthetic_type(text)->Ok_0.0),
        same_members(m, m.add_synthetic_type(text)->Ok_0.0),
        m.add_synthetic_type(text)->Ok_0.0.primitive_types == m.primitive_types,
{
    let (a, descriptor) = m.add_string(text);
    assert(of_synthetic(text).strings.contains(text));
    assert(of_synthetic(text).synthetics.contains(text));
    lemma_string_fits(m, t, h, text);
    if a.synthetic_types.get(descriptor) is None {
        lemma_synthetics_counted(a);
        lemma_origins_all_counted(a, t);
        assert(!synthetic_names(a).contains(text)) by {
            if synthetic_names(a).contains(text) {
                let k = choose|k: u32|
                    (#[trigger] a.synthetic_types.get(k)) is Some && text == a.name_of_type(
                        a.synthetic_types.get(k)->Some_0 as int,
                    );
                assert(a.synthetic_named(k));
                let i = a.synthetic_types.get(k)->Some_0;
                assert(a.string_ok(a.types[i as int] as int));
                assert(a.strings[k as int] == a.strings[descriptor as int]);
            }
        }
        lemma_one_more(synthetic_names(a), text, h.synthetics);
        vstd::set_lib::lemma_len_subset(origin_names(a), h.origins);
    }
    lemma_hold_synthetic(m, t, text);
    lemma_synthetic_sound(m, t, text);
    lemma_plus_fits(holdings(m), of_synthetic(text), h);
}

// ---------------------------------------------------------------------------
// Prototypes, fields and methods
// ---------------------------------------------------------------------------

proof fn lemma_strings_few(m: Tables, t: DexTables, h: Holdings)
    requires
        roomy(t, h),
        fits(m, t, h),
    ensures
        m.strings.len() <= 0x1_0000_0000,
{
    assert forall|i: int| 0 <= i < m.strings.len() implies h.strings.contains(
        #[trigger] m.strings[i],
    ) by {
        assert(m.strings.to_set().contains(m.strings[i]));
    }
    lemma_texts_fit(m.strings, h.strings);
}

proof fn lemma_param_fits(
    t: DexTables,
    h: Holdings,
    list: Seq<u16>,
    s: (Tables, Seq<u16>),
    i: int,
)
    requires
        roomy(t, h),
        fits(s.0, t, h),
        primed(s.0),
        0 <= i < list.len(),
        list[i] < t.types.len(),
        of_param(t.name_of_type(list[i] as int)).within(h),
    ensures
        param_step(t, list)(s, i) is Ok,
        fits(param_step(t, list)(s, i)->Ok_0.0, t, h),
        param_step(t, list)(s, i)->Ok_0.0.primitive_types == s.0.primitive_types,
        same_members(s.0, param_step(t, list)(s, i)->Ok_0.0),
{
    let name = t.name_of_type(list[i] as int);
    assert(t.types[list[i] as int] < t.strings.len());
    assert(t.descriptor(list[i] as int) == Ok::<Seq<char>, Error>(name));
    if !is_letter(name) {
        lemma_synthetic_fits(s.0, t, h, name);
    } else {
        assert(primed_at(s.0.primitive_types, primitives(), name[0]));
        if s.0.primitive_types.get(name[0] as u32) is None {
            lemma_type_fits(s.0, t, h, list[i] as u32);
        }
    }
}

proof fn lemma_params_fit(
    t: DexTables,
    h: Holdings,
    list: Seq<u16>,
    s: (Tables, Seq<u16>),
    i: int,
)
    requires
        roomy(t, h),
        fits(s.0, t, h),
        primed(s.0),
        0 <= i <= list.len(),
        forall|j: int|
            0 <= j < list.len() ==> (#[trigger] list[j]) < t.types.len() && of_param(
                t.name_of_type(list[j] as int),
            ).within(h),
    ensures
        run(param_step(t, list), s, i, list.len() as int) is Ok,
        fits(run(param_step(t, list), s, i, list.len() as int)->Ok_0.0, t, h),
        run(param_step(t, list), s, i, list.len() as int)->Ok_0.0.primitive_types
            == s.0.primitive_types,
        same_members(s.0, run(param_step(t, list), s, i, list.len() as int)->Ok_0.0),
    decreases list.len() - i,
{
    if i < list.len() {
        assert(list[i] < t.types.len());
        lemma_param_fits(t, h, list, s, i);
        lemma_params_fit(t, h, list, param_step(t, list)(s, i)->Ok_0, i + 1);
    }
}

/// What a prototype needs is within bounds where the prototype is.
proof fn lemma_proto_within(p: crate::minidex::meaning::ProtoMeaning, h: Holdings)
    requires
        of_proto(p).within(h),
    ensures
        h.strings.contains(p.shorty),
        of_type(p.result).within(h),
        forall|j: int| 0 <= j < p.params.len() ==> of_param(#[trigger] p.params[j]).within(h),
{
    let x = of_string(p.shorty);
    let y = of_type(p.result);
    let z = total(of_params(p.params));
    let one = Holdings { protos: set![p], ..Holdings::none() };
    lemma_plus_has(x, y);
    lemma_plus_has(x.plus(y), z);
    lemma_plus_has(x.plus(y).plus(z), one);
    assert(x.strings.contains(p.shorty));
    assert forall|j: int| 0 <= j < p.params.len() implies of_param(#[trigger] p.params[j]).within(
        h,
    ) by {
        lemma_total_has(of_params(p.params), j);
        assert(of_params(p.params)[j] == of_param(p.params[j]));
    }
}

#[verifier::spinoff_prover]
proof fn lemma_proto_fits(m: Tables, t: DexTables, h: Holdings, old: u32)
    requires
        roomy(t, h),
        fits(m, t, h),
        primed(m),
        old < t.protos.len(),
        of_proto(t.proto_meaning(old as int)).within(h),
    ensures
        m.add_proto(t, old) is Ok,
        fits(m.add_proto(t, old)->Ok_0.0, t, h),
        m.add_proto(t, old)->Ok_0.0.primitive_types == m.primitive_types,
        m.add_proto(t, old)->Ok_0.0.fields == m.fields,
        m.add_proto(t, old)->Ok_0.0.origin_fields == m.origin_fields,
        m.add_proto(t, old)->Ok_0.0.methods == m.methods,
        m.add_proto(t, old)->Ok_0.0.origin_methods == m.origin_methods,
        !m.origin_protos.contains_key(old) ==> m.add_proto(t, old)->Ok_0.1 == m.protos.len()
            && m.add_proto(t, old)->Ok_0.0.protos.len() == m.protos.len() + 1
            && m.add_proto(t, old)->Ok_0.0.origin_protos.dom() == m.origin_protos.dom().insert(old),
{
    let p = t.proto_meaning(old as int);
    if !m.origin_protos.contains_key(old) {
        let source = t.protos[old as int];
        let list = t.type_list(source.parameters_off)->Ok_0;
        lemma_proto_within(p, h);
        lemma_string_fits(m, t, h, p.shorty);
        let a = m.add_string(p.shorty).0;
        lemma_type_fits(a, t, h, source.return_type_idx);
        let b = a.add_origin_type(t, source.return_type_idx)->Ok_0.0;
        assert forall|j: int| 0 <= j < list.len() implies (#[trigger] list[j]) < t.types.len()
            && of_param(t.name_of_type(list[j] as int)).within(h) by {
            assert(p.params[j] == t.name_of_type(list[j] as int));
        }
        let start = (b, Seq::<u16>::empty());
        lemma_params_fit(t, h, list, start, 0);
        let c = run(param_step(t, list), start, 0, list.len() as int)->Ok_0.0;
        assert(c.origin_protos == m.origin_protos && c.protos == m.protos);
        lemma_numbers_fit(m.origin_protos.dom().insert(old), t.protos.len());
        lemma_strings_few(c, t, h);
    } else {
        lemma_strings_few(m, t, h);
    }
    lemma_hold_proto(m, t, old);
    lemma_proto_sound(m, t, old);
    lemma_plus_fits(holdings(m), of_proto(p), h);
}

#[verifier::spinoff_prover]
proof fn lemma_field_fits(m: Tables, t: DexTables, h: Holdings, old: u32)
    requires
        roomy(t, h),
        fits(m, t, h),
        old < t.fields.len(),
        of_field(t.field_meaning(old as int)).within(h),
    ensures
        m.add_field(t, old) is Ok,
        fits(m.add_field(t, old)->Ok_0.0, t, h),
        m.add_field(t, old)->Ok_0.0.primitive_types == m.primitive_types,
        m.add_field(t, old)->Ok_0.0.methods == m.methods,
        m.add_field(t, old)->Ok_0.0.origin_methods == m.origin_methods,
        !m.origin_fields.contains_key(old) ==> m.add_field(t, old)->Ok_0.1 == m.fields.len()
            && m.add_field(t, old)->Ok_0.0.fields.len() == m.fields.len() + 1
            && m.add_field(t, old)->Ok_0.0.origin_fields.dom() == m.origin_fields.dom().insert(old),
{
    let f = t.field_meaning(old as int);
    if !m.origin_fields.contains_key(old) {
        let source = t.fields[old as int];
        assert(t.types[source.class_idx as int] < t.strings.len());
        assert(t.types[source.type_idx as int] < t.strings.len());
        let x = of_synthetic(f.class);
        let y = of_synthetic(f.typ);
        let z = of_string(f.name);
        let one = Holdings { fields: set![f], ..Holdings::none() };
        lemma_plus_has(x, y);
        lemma_plus_has(x.plus(y), z);
        lemma_plus_has(x.plus(y).plus(z), one);
        assert(z.strings.contains(f.name));
        lemma_synthetic_fits(m, t, h, f.class);
        let a = m.add_synthetic_type(f.class)->Ok_0.0;
        lemma_synthetic_fits(a, t, h, f.typ);
        let b = a.add_synthetic_type(f.typ)->Ok_0.0;
        lemma_string_fits(b, t, h, f.name);
        let c = b.add_string(f.name).0;
        assert(c.origin_fields == m.origin_fields && c.fields == m.fields);
        lemma_numbers_fit(m.origin_fields.dom().insert(old), t.fields.len());
    } else {
        lemma_strings_few(m, t, h);
    }
    lemma_hold_field(m, t, old);
    lemma_field_sound(m, t, old);
    lemma_plus_fits(holdings(m), of_field(f), h);
}

#[verifier::spinoff_prover]
proof fn lemma_method_fits(m: Tables, t: DexTables, h: Holdings, old: u32)
    requires
        roomy(t, h),
        fits(m, t, h),
        primed(m),
        old < t.methods.len(),
        of_method(t.method_meaning(old as int)).within(h),
    ensures
        m.add_method(t, old) is Ok,
        fits(m.add_method(t, old)->Ok_0.0, t, h),
        m.add_method(t, old)->Ok_0.0.primitive_types == m.primitive_types,
        !m.origin_methods.contains_key(old) ==> m.add_method(t, old)->Ok_0.1 == m.methods.len()
            && m.add_method(t, old)->Ok_0.0.methods.len() == m.methods.len() + 1
            && m.add_method(t, old)->Ok_0.0.origin_methods.dom() == m.origin_methods.dom().insert(
            old,
        ),
{
    let x = t.method_meaning(old as int);
    if !m.origin_methods.contains_key(old) {
        let source = t.methods[old as int];
        assert(t.types[source.class_idx as int] < t.strings.len());
        let p = of_proto(x.proto);
        let y = of_synthetic(x.class);
        let z = of_string(x.name);
        let one = Holdings { methods: set![x], ..Holdings::none() };
        lemma_plus_has(p, y);
        lemma_plus_has(p.plus(y), z);
        lemma_plus_has(p.plus(y).plus(z), one);
        assert(z.strings.contains(x.name));
        lemma_proto_fits(m, t, h, source.proto_idx as u32);
        let a = m.add_proto(t, source.proto_idx as u32)->Ok_0.0;
        lemma_synthetic_fits(a, t, h, x.class);
        let b = a.add_synthetic_type(x.class)->Ok_0.0;
        lemma_string_fits(b, t, h, x.name);
        let c = b.add_string(x.name).0;
        assert(c.origin_methods == m.origin_methods && c.methods == m.methods);
        lemma_numbers_fit(m.origin_methods.dom().insert(old), t.methods.len());
    } else {
        lemma_strings_few(m, t, h);
    }
    lemma_hold_method(m, t, old);
    lemma_method_sound(m, t, old);
    lemma_plus_fits(holdings(m), of_method(x), h);
}

// ---------------------------------------------------------------------------
// Lists
// ---------------------------------------------------------------------------

/// Whether some numbers occur before position `i` of a list.
pub open spec fn met(ids: Set<u32>, list: Seq<u32>, i: int) -> bool {
    forall|k: u32| #[trigger] ids.contains(k) ==> exists|j: int| 0 <= j < i && #[trigger] list[j] == k
}

proof fn lemma_strings_fit(m: Tables, t: DexTables, h: Holdings, list: Seq<u32>, i: int)
    requires
        roomy(t, h),
        !h.lacking,
        fits(m, t, h),
        0 <= i,
        total(string_parts(t, list)).within(h),
    ensures
        run(string_adder(t, list), m, i, list.len() as int) is Ok,
        fits(run(string_adder(t, list), m, i, list.len() as int)->Ok_0, t, h),
        same_members(m, run(string_adder(t, list), m, i, list.len() as int)->Ok_0),
        run(string_adder(t, list), m, i, list.len() as int)->Ok_0.primitive_types
            == m.primitive_types,
        run(string_adder(t, list), m, i, list.len() as int)->Ok_0.types == m.types,
        run(string_adder(t, list), m, i, list.len() as int)->Ok_0.origin_types == m.origin_types,
    decreases list.len() - i,
{
    if i < list.len() {
        let parts = string_parts(t, list);
        lemma_total_has(parts, i);
        assert(parts[i] == string_need(t, list[i] as int));
        let text = t.strings[list[i] as int];
        assert(of_string(text).strings.contains(text));
        lemma_string_fits(m, t, h, text);
        lemma_strings_fit(string_adder(t, list)(m, i)->Ok_0, t, h, list, i + 1);
    }
}

proof fn lemma_types_fit(
    m: Tables,
    t: DexTables,
    h: Holdings,
    list: Seq<u32>,
    ordered: bool,
    i: int,
)
    requires
        roomy(t, h),
        !h.lacking,
        fits(m, t, h),
        0 <= i,
        total(type_parts(t, list)).within(h),
        ordered ==> list.no_duplicates() && m.types.len() == i && i <= list.len() && met(
            m.origin_types.dom(),
            list,
            i,
        ),
    ensures
        run(type_adder(t, list, ordered), m, i, list.len() as int) is Ok,
        fits(run(type_adder(t, list, ordered), m, i, list.len() as int)->Ok_0, t, h),
        same_members(m, run(type_adder(t, list, ordered), m, i, list.len() as int)->Ok_0),
        run(type_adder(t, list, ordered), m, i, list.len() as int)->Ok_0.primitive_types
            == m.primitive_types,
    decreases list.len() - i,
{
    if i < list.len() {
        let parts = type_parts(t, list);
        let old = list[i];
        lemma_total_has(parts, i);
        assert(parts[i] == type_need(t, old as int));
        assert(t.types[old as int] < t.strings.len());
        lemma_type_fits(m, t, h, old);
        if ordered {
            assert(!m.origin_types.contains_key(old)) by {
                if m.origin_types.dom().contains(old) {
                    let j = choose|j: int| 0 <= j < i && #[trigger] list[j] == old;
                    assert(list[j] == list[i]);
                }
            }
            let n = m.add_origin_type(t, old)->Ok_0.0;
            assert(n.origin_types.dom() =~= m.origin_types.dom().insert(old));
            assert forall|k: u32| #[trigger] n.origin_types.dom().contains(k) implies exists|j: int|
                0 <= j < i + 1 && #[trigger] list[j] == k by {
                if k == old {
                    assert(list[i] == k);
                } else {
                    assert(m.origin_types.dom().contains(k));
                }
            }
        }
        lemma_types_fit(type_adder(t, list, ordered)(m, i)->Ok_0, t, h, list, ordered, i + 1);
    }
}

proof fn lemma_protos_fit(
    m: Tables,
    t: DexTables,
    h: Holdings,
    list: Seq<u32>,
    ordered: bool,
    i: int,
)
    requires
        roomy(t, h),
        !h.lacking,
        fits(m, t, h),
        primed(m),
        0 <= i,
        total(proto_parts(t, list)).within(h),
        ordered ==> list.no_duplicates() && m.protos.len() == i && i <= list.len() && met(
            m.origin_protos.dom(),
            list,
            i,
        ),
    ensures
        run(proto_adder(t, list, ordered), m, i, list.len() as int) is Ok,
        fits(run(proto_adder(t, list, ordered), m, i, list.len() as int)->Ok_0, t, h),
        run(proto_adder(t, list, ordered), m, i, list.len() as int)->Ok_0.primitive_types
            == m.primitive_types,
        run(proto_adder(t, list, ordered), m, i, list.len() as int)->Ok_0.fields == m.fields,
        run(proto_adder(t, list, ordered), m, i, list.len() as int)->Ok_0.origin_fields == m.origin_fields,
        run(proto_adder(t, list, ordered), m, i, list.len() as int)->Ok_0.methods == m.methods,
        run(proto_adder(t, list, ordered), m, i, list.len() as int)->Ok_0.origin_methods == m.origin_methods,
    decreases list.len() - i,
{
    if i < list.len() {
        let parts = proto_parts(t, list);
        let old = list[i];
        lemma_total_has(parts, i);
        assert(parts[i] == proto_need(t, old as int));
        lemma_proto_fits(m, t, h, old);
        if ordered {
            assert(!m.origin_protos.contains_key(old)) by {
                if m.origin_protos.dom().contains(old) {
                    let j = choose|j: int| 0 <= j < i && #[trigger] list[j] == old;
                    assert(list[j] == list[i]);
                }
            }
            let n = m.add_proto(t, old)->Ok_0.0;
            assert forall|k: u32| #[trigger] n.origin_protos.dom().contains(k) implies exists|j: int|
                0 <= j < i + 1 && #[trigger] list[j] == k by {
                if k == old {
                    assert(list[i] == k);
                } else {
                    assert(m.origin_protos.dom().contains(k));
                }
            }
        }
        lemma_protos_fit(proto_adder(t, list, ordered)(m, i)->Ok_0, t, h, list, ordered, i + 1);
    }
}

proof fn lemma_fields_fit(
    m: Tables,
    t: DexTables,
    h: Holdings,
    list: Seq<u32>,
    ordered: bool,
    i: int,
)
    requires
        roomy(t, h),
        !h.lacking,
        fits(m, t, h),
        primed(m),
        0 <= i,
        total(field_parts(t, list)).within(h),
        ordered ==> list.no_duplicates() && m.fields.len() == i && i <= list.len() && met(
            m.origin_fields.dom(),
            list,
            i,
        ),
    ensures
        run(field_adder(t, list, ordered), m, i, list.len() as int) is Ok,
        fits(run(field_adder(t, list, ordered), m, i, list.len() as int)->Ok_0, t, h),
        run(field_adder(t, list, ordered), m, i, list.len() as int)->Ok_0.primitive_types
            == m.primitive_types,
        run(field_adder(t, list, ordered), m, i, list.len() as int)->Ok_0.methods == m.methods,
        run(field_adder(t, list, ordered), m, i, list.len() as int)->Ok_0.origin_methods == m.origin_methods,
    decreases list.len() - i,
{
    if i < list.len() {
        let parts = field_parts(t, list);
        let old = list[i];
        lemma_total_has(parts, i);
        assert(parts[i] == field_need(t, old as int));
        lemma_field_fits(m, t, h, old);
        if ordered {
            assert(!m.origin_fields.contains_key(old)) by {
                if m.origin_fields.dom().contains(old) {
                    let j = choose|j: int| 0 <= j < i && #[trigger] list[j] == old;
                    assert(list[j] == list[i]);
                }
            }
            let n = m.add_field(t, old)->Ok_0.0;
            assert forall|k: u32| #[trigger] n.origin_fields.dom().contains(k) implies exists|j: int|
                0 <= j < i + 1 && #[trigger] list[j] == k by {
                if k == old {
                    assert(list[i] == k);
                } else {
                    assert(m.origin_fields.dom().contains(k));
                }
            }
        }
        lemma_fields_fit(field_adder(t, list, ordered)(m, i)->Ok_0, t, h, list, ordered, i + 1);
    }
}

proof fn lemma_methods_fit(
    m: Tables,
    t: DexTables,
    h: Holdings,
    list: Seq<u32>,
    ordered: bool,
    i: int,
)
    requires
        roomy(t, h),
        !h.lacking,
        fits(m, t, h),
        primed(m),
        0 <= i,
        total(method_parts(t, list)).within(h),
        ordered ==> list.no_duplicates() && m.methods.len() == i && i <= list.len() && met(
            m.origin_methods.dom(),
            list,
            i,
        ),
    ensures
        run(method_adder(t, list, ordered), m, i, list.len() as int) is Ok,
        fits(run(method_adder(t, list, ordered), m, i, list.len() as int)->Ok_0, t, h),
        run(method_adder(t, list, ordered), m, i, list.len() as int)->Ok_0.primitive_types
            == m.primitive_types,
    decreases list.len() - i,
{
    if i < list.len() {
        let parts = method_parts(t, list);
        let old = list[i];
        lemma_total_has(parts, i);
        assert(parts[i] == method_need(t, old as int));
        lemma_method_fits(m, t, h, old);
        if ordered {
            assert(!m.origin_methods.contains_key(old)) by {
                if m.origin_methods.dom().contains(old) {
                    let j = choose|j: int| 0 <= j < i && #[trigger] list[j] == old;
                    assert(list[j] == list[i]);
                }
            }
            let n = m.add_method(t, old)->Ok_0.0;
            assert forall|k: u32| #[trigger] n.origin_methods.dom().contains(k) implies exists|j: int|
                0 <= j < i + 1 && #[trigger] list[j] == k by {
                if k == old {
                    assert(list[i] == k);
                } else {
                    assert(m.origin_methods.dom().contains(k));
                }
            }
        }
        lemma_methods_fit(method_adder(t, list, ordered)(m, i)->Ok_0, t, h, list, ordered, i + 1);
    }
}

proof fn lemma_primitives_fit(m: Tables, t: DexTables, h: Holdings, i: int)
    requires
        roomy(t, h),
        fits(m, t, h),
        forall|c: char| #[trigger] primed_at(m.primitive_types, primitives().take(i), c),
        0 <= i <= 9,
        total(primitive_parts()).within(h),
    ensures
        run(primitive_step(), m, i, 9) is Ok,
        fits(run(primitive_step(), m, i, 9)->Ok_0, t, h),
        primed(run(primitive_step(), m, i, 9)->Ok_0),
        same_members(m, run(primitive_step(), m, i, 9)->Ok_0),
    decreases 9 - i,
{
    if i < 9 {
        let parts = primitive_parts();
        let text = seq![primitives()[i]];
        lemma_total_has(parts, i);
        assert(parts[i] == of_synthetic(text));
        lemma_synthetic_fits(m, t, h, text);
        let b = m.add_synthetic_type(text)->Ok_0.0;
        let n = primitive_step()(m, i)->Ok_0;
        lemma_primitive_sound(m, t, i);
        lemma_primitive_kept(m, t, i);
        lemma_primitives_fit(n, t, h, i + 1);
    } else {
        assert(primitives().take(i) =~= primitives());
    }
}

/// What is needed by references is within bounds.
proof fn lemma_code_fits(t: DexTables, h: Holdings, refs: CodeRefs)
    requires
        roomy(t, h),
        !h.lacking,
        needed_by_code(t, refs).within(h),
        refs.types.no_duplicates(),
        refs.protos.no_duplicates(),
        refs.fields.no_duplicates(),
        refs.methods.no_duplicates(),
        fits(Tables::empty(), t, h),
    ensures
        with_code_refs(Tables::empty(), t, refs) is Ok,
        fits(with_code_refs(Tables::empty(), t, refs)->Ok_0, t, h),
        primed(with_code_refs(Tables::empty(), t, refs)->Ok_0),
{
    let a = total(string_parts(t, refs.strings));
    let b = total(type_parts(t, refs.types));
    let c = total(primitive_parts());
    let d = total(proto_parts(t, refs.protos));
    let e = total(field_parts(t, refs.fields));
    let f = total(method_parts(t, refs.methods));
    lemma_plus_has(a, b);
    lemma_plus_has(a.plus(b), c);
    lemma_plus_has(a.plus(b).plus(c), d);
    lemma_plus_has(a.plus(b).plus(c).plus(d), e);
    lemma_plus_has(a.plus(b).plus(c).plus(d).plus(e), f);
    let m = Tables::empty();
    lemma_strings_fit(m, t, h, refs.strings, 0);
    let p = with_strings(m, t, refs.strings)->Ok_0;
    lemma_types_fit(p, t, h, refs.types, true, 0);
    let q = with_types(p, t, refs.types, true)->Ok_0;
    assert forall|c: char| #[trigger] primed_at(q.primitive_types, primitives().take(0), c) by {
        lemma_rank(Seq::<u32>::empty(), c as u32);
        assert(q.primitive_types == Entries::<u16>::empty());
    }
    lemma_primitives_fit(q, t, h, 0);
    let r = q.fill_primitives()->Ok_0;
    lemma_protos_fit(r, t, h, refs.protos, true, 0);
    let u = with_protos(r, t, refs.protos, true)->Ok_0;
    lemma_fields_fit(u, t, h, refs.fields, true, 0);
    let v = with_fields(u, t, refs.fields, true)->Ok_0;
    lemma_methods_fit(v, t, h, refs.methods, true, 0);
}

proof fn lemma_metadata_fits(m: Tables, t: DexTables, h: Holdings, refs: RefSets)
    requires
        roomy(t, h),
        !h.lacking,
        fits(m, t, h),
        primed(m),
        needed_by_metadata(t, refs).within(h),
    ensures
        with_metadata_refs(m, t, refs) is Ok,
        fits(with_metadata_refs(m, t, refs)->Ok_0, t, h),
{
    let a = total(string_parts(t, refs.strings));
    let b = total(type_parts(t, refs.types));
    let d = total(proto_parts(t, refs.protos));
    let e = total(field_parts(t, refs.fields));
    let f = total(method_parts(t, refs.methods));
    lemma_plus_has(a, b);
    lemma_plus_has(a.plus(b), d);
    lemma_plus_has(a.plus(b).plus(d), e);
    lemma_plus_has(a.plus(b).plus(d).plus(e), f);
    lemma_strings_fit(m, t, h, refs.strings, 0);
    let p = with_strings(m, t, refs.strings)->Ok_0;
    lemma_types_fit(p, t, h, refs.types, false, 0);
    let q = with_types(p, t, refs.types, false)->Ok_0;
    lemma_protos_fit(q, t, h, refs.protos, false, 0);
    let u = with_protos(q, t, refs.protos, false)->Ok_0;
    lemma_fields_fit(u, t, h, refs.fields, false, 0);
    let v = with_fields(u, t, refs.fields, false)->Ok_0;
    lemma_methods_fit(v, t, h, refs.methods, false, 0);
}

proof fn lemma_empty_fits(t: DexTables, h: Holdings)
    ensures
        fits(Tables::empty(), t, h),
{
    let m = Tables::empty();
    let e = Entries::<u16>::empty();
    assert forall|k: u32| (#[trigger] e.get(k)) is None by {
        lemma_rank(e.keys, k);
    }
    assert forall|k: u32| #[trigger] m.synthetic_named(k) by {}
    assert forall|c: char| #[trigger] m.primitive_named(c) by {
        assert(e.get(c as u32) is None);
    }
    assert(holdings(m).within(h)) by {
        assert(holdings(m).strings =~= Set::empty());
        assert(holdings(m).origins =~= Set::empty());
        assert(holdings(m).synthetics =~= Set::empty());
    }
}

/// What a class of a file needs can be gathered where there is room for it, and
/// the file lacks nothing of it.
#[verifier::spinoff_prover]
pub proof fn lemma_gathered_fits(
    t: DexTables,
    class: ClassDef,
    members: Members,
    parts: Parts,
    refs: CodeRefs,
)
    requires
        roomy(t, needed(t, class, members, parts, refs)),
        !needed(t, class, members, parts, refs).lacking,
        refs.types.no_duplicates(),
        refs.protos.no_duplicates(),
        refs.fields.no_duplicates(),
        refs.methods.no_duplicates(),
    ensures
        gathered(t, class, members, parts, refs) is Ok,
        gathered(t, class, members, parts, refs)->Ok_0.sound(t),
        gathered(t, class, members, parts, refs)->Ok_0.strings.len() <= 0x1_0000_0000,
{
    let h = needed(t, class, members, parts, refs);
    let code = needed_by_code(t, refs);
    let whole = needed_by_class(t, class, members, parts.interfaces);
    let meta = needed_by_metadata(t, parts.metadata_refs);
    let caught = total(type_parts(t, caught_types(parts.codes.values)));
    lemma_plus_has(code, whole);
    lemma_plus_has(code.plus(whole), meta);
    lemma_plus_has(code.plus(whole).plus(meta), caught);
    let a = total(field_parts(t, field_ids(members.fields())));
    let b = total(method_parts(t, method_ids(members.methods())));
    let c = total(string_parts(t, class_strings(class)));
    let d = total(type_parts(t, class_types(class)));
    let e = total(type_parts(t, widened_ids(parts.interfaces)));
    lemma_plus_has(a, b);
    lemma_plus_has(a.plus(b), c);
    lemma_plus_has(a.plus(b).plus(c), d);
    lemma_plus_has(a.plus(b).plus(c).plus(d), e);
    lemma_empty_fits(t, h);
    lemma_code_fits(t, h, refs);
    let p = with_code_refs(Tables::empty(), t, refs)->Ok_0;
    lemma_fields_fit(p, t, h, field_ids(members.fields()), false, 0);
    let q = with_fields(p, t, field_ids(members.fields()), false)->Ok_0;
    lemma_methods_fit(q, t, h, method_ids(members.methods()), false, 0);
    let r = with_methods(q, t, method_ids(members.methods()), false)->Ok_0;
    lemma_strings_fit(r, t, h, class_strings(class), 0);
    let u = with_strings(r, t, class_strings(class))->Ok_0;
    lemma_types_fit(u, t, h, class_types(class), false, 0);
    let v = with_types(u, t, class_types(class), false)->Ok_0;
    lemma_types_fit(v, t, h, widened_ids(parts.interfaces), false, 0);
    let w = with_types(v, t, widened_ids(parts.interfaces), false)->Ok_0;
    lemma_metadata_fits(w, t, h, parts.metadata_refs);
    let x = with_metadata_refs(w, t, parts.metadata_refs)->Ok_0;
    lemma_types_fit(x, t, h, caught_types(parts.codes.values), false, 0);
    lemma_strings_few(gathered(t, class, members, parts, refs)->Ok_0, t, h);
}

} // verus!
