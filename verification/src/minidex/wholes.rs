//! What the methods of a class need, one by one.
use vstd::prelude::*;

use crate::collections::{lemma_put_get, lemma_rank, rank_from, Entries};
use crate::dex_format::units_of;
use crate::minidex::bytecode::{numbered, CodeRefs};
use crate::minidex::canonical::picked;
use crate::minidex::gather::{caught_in, caught_types};
use crate::minidex::holdings::{
    lemma_total_has, lemma_total_push, lemma_within_both, total, type_parts, Holdings,
};
use crate::minidex::hollow::{code_step, codes_of};
use crate::minidex::members::new_members;
use crate::minidex::notes::lemma_get_at;
use crate::minidex::operands::lemma_code_of_method;
use crate::minidex::placement::lemma_codes_ok;
use crate::minidex::reader::{
    code_in, Code, DexTables, EncodedField, EncodedMethod, Handler, Members,
};
use crate::minidex::second::debugs_needs;
use crate::minidex::sections::{field_rank, field_ranks, method_rank, method_ranks, or_zero};
use crate::minidex::tables::Tables;
use crate::minidex::values::Debugging;
use crate::minidex::wants::{code_held, code_needs, debug_needs, lemma_code_held};
use crate::minidex::{class_of, extracted_from};
use crate::order::{lemma_sort_order, sort_order};
use crate::results::run;

verus! {

/// Whether class data lists no method twice.
pub open spec fn methods_once(c: Members) -> bool {
    forall|i: int, j: int|
        0 <= i < j < c.methods().len() ==> (#[trigger] c.methods()[i]).method_idx != (
        #[trigger] c.methods()[j]).method_idx
}

/// Whether a class can be extracted and lists no method twice.
pub open spec fn extracts_once(dex: DexTables, descriptor: Seq<char>) -> bool {
    &&& extracted_from(dex, descriptor) is Ok
    &&& methods_once(class_of(dex, descriptor)->Ok_0.1)
}

/// A whole whose parts are within something is within it.
pub proof fn lemma_total_each(list: Seq<Holdings>, h: Holdings)
    requires
        forall|i: int| 0 <= i < list.len() ==> (#[trigger] list[i]).within(h),
    ensures
        total(list).within(h),
{
}

/// Putting lists together puts what they hold together.
pub proof fn lemma_total_add(a: Seq<Holdings>, b: Seq<Holdings>)
    ensures
        total(a + b) == total(a).plus(total(b)),
    decreases b.len(),
{
    if b.len() == 0 {
        assert(a + b =~= a);
        assert(total(a).plus(total(b)) =~= total(a));
    } else {
        let c = b.drop_last();
        let x = b.last();
        lemma_total_add(a, c);
        assert(a + b =~= (a + c).push(x));
        assert(b =~= c.push(x));
        lemma_total_push(a + c, x);
        lemma_total_push(c, x);
        assert(total(a).plus(total(c)).plus(x) =~= total(a).plus(total(c).plus(x)));
    }
}

// ---------------------------------------------------------------------------
// What a method needs
// ---------------------------------------------------------------------------

/// What the instructions of a method need.
pub open spec fn insns_need(dex: DexTables, data: Seq<u8>, x: EncodedMethod) -> Holdings {
    if x.code_off == 0 {
        Holdings::none()
    } else {
        code_needs(dex, units_of(code_in(data, x.code_off as int)->Ok_0.insns), 0)
    }
}

/// What handlers need.
pub open spec fn handlers_need(dex: DexTables, handlers: Seq<Handler>) -> Holdings {
    total(type_parts(dex, caught_in(handlers)))
}

/// What the handlers of a method need.
pub open spec fn catches_need(dex: DexTables, data: Seq<u8>, x: EncodedMethod) -> Holdings {
    if x.code_off == 0 {
        Holdings::none()
    } else {
        handlers_need(dex, code_in(data, x.code_off as int)->Ok_0.handlers)
    }
}

/// What the debug item of a method needs.
pub open spec fn debug_need(dex: DexTables, debugs: Entries<Debugging>, x: EncodedMethod) -> Holdings {
    match debugs.get(x.method_idx) {
        None => Holdings::none(),
        Some(d) => debug_needs(dex, d),
    }
}

pub open spec fn all_insns(dex: DexTables, data: Seq<u8>, methods: Seq<EncodedMethod>) -> Seq<
    Holdings,
> {
    methods.map_values(|x: EncodedMethod| insns_need(dex, data, x))
}

pub open spec fn all_catches(dex: DexTables, data: Seq<u8>, methods: Seq<EncodedMethod>) -> Seq<
    Holdings,
> {
    methods.map_values(|x: EncodedMethod| catches_need(dex, data, x))
}

pub open spec fn all_debugs(
    dex: DexTables,
    debugs: Entries<Debugging>,
    methods: Seq<EncodedMethod>,
) -> Seq<Holdings> {
    methods.map_values(|x: EncodedMethod| debug_need(dex, debugs, x))
}

proof fn lemma_insns_run(
    dex: DexTables,
    data: Seq<u8>,
    methods: Seq<EncodedMethod>,
    s: (Entries<Code>, CodeRefs),
    i: int,
)
    requires
        0 <= i <= methods.len(),
        code_held(dex, s.1) == total(all_insns(dex, data, methods.take(i))),
        run(code_step(data, methods), s, i, methods.len() as int) is Ok,
    ensures
        code_held(dex, run(code_step(data, methods), s, i, methods.len() as int)->Ok_0.1) == total(
            all_insns(dex, data, methods),
        ),
    decreases methods.len() - i,
{
    if i < methods.len() {
        let next = code_step(data, methods)(s, i)->Ok_0;
        let x = methods[i];
        let before = all_insns(dex, data, methods.take(i));
        let need = insns_need(dex, data, x);
        assert(all_insns(dex, data, methods.take(i + 1)) =~= before.push(need));
        lemma_total_push(before, need);
        if x.code_off == 0 {
            assert(total(before).plus(need) =~= total(before));
        } else {
            let units = units_of(code_in(data, x.code_off as int)->Ok_0.insns);
            lemma_code_held(dex, units, units, 0, s.1);
        }
        lemma_insns_run(dex, data, methods, next, i + 1);
    } else {
        assert(methods.take(i) =~= methods);
    }
}

/// The references of all code stand for what the instructions need.
pub proof fn lemma_insns_held(dex: DexTables, data: Seq<u8>, methods: Seq<EncodedMethod>)
    requires
        codes_of(data, methods, CodeRefs::empty()) is Ok,
    ensures
        code_held(dex, codes_of(data, methods, CodeRefs::empty())->Ok_0.1) == total(
            all_insns(dex, data, methods),
        ),
{
    let none = CodeRefs::empty();
    assert(code_held(dex, none) =~= total(all_insns(dex, data, methods.take(0))));
    lemma_insns_run(dex, data, methods, (Entries::<Code>::empty(), none), 0);
}

proof fn lemma_catches_of(dex: DexTables, codes: Seq<Code>)
    ensures
        total(type_parts(dex, caught_types(codes))) == total(
            codes.map_values(|c: Code| handlers_need(dex, c.handlers)),
        ),
    decreases codes.len(),
{
    let f = |c: Code| handlers_need(dex, c.handlers);
    if codes.len() == 0 {
        assert(total(type_parts(dex, caught_types(codes))) =~= total(codes.map_values(f)));
    } else {
        let rest = codes.drop_last();
        let c = codes.last();
        lemma_catches_of(dex, rest);
        let a = type_parts(dex, caught_types(rest));
        let b = type_parts(dex, caught_in(c.handlers));
        assert(type_parts(dex, caught_types(codes)) =~= a + b);
        lemma_total_add(a, b);
        assert(codes.map_values(f) =~= rest.map_values(f).push(f(c)));
        lemma_total_push(rest.map_values(f), f(c));
    }
}

/// Every piece of code belongs to a method.
proof fn lemma_code_origin(
    data: Seq<u8>,
    methods: Seq<EncodedMethod>,
    s: (Entries<Code>, CodeRefs),
    i: int,
    id: u32,
)
    requires
        0 <= i <= methods.len(),
        s.0.wf(),
        run(code_step(data, methods), s, i, methods.len() as int) is Ok,
        s.0.get(id) is Some ==> exists|j: int|
            0 <= j < i && (#[trigger] methods[j]).method_idx == id && methods[j].code_off != 0,
    ensures
        run(code_step(data, methods), s, i, methods.len() as int)->Ok_0.0.get(id) is Some
            ==> exists|j: int|
            0 <= j < methods.len() && (#[trigger] methods[j]).method_idx == id
                && methods[j].code_off != 0,
    decreases methods.len() - i,
{
    if i < methods.len() {
        let next = code_step(data, methods)(s, i)->Ok_0;
        if methods[i].code_off != 0 {
            let code = code_in(data, methods[i].code_off as int)->Ok_0;
            let (insns, _) = numbered(code.insns, s.1)->Ok_0;
            lemma_put_get(s.0, methods[i].method_idx, Code { insns, ..code }, id);
        }
        lemma_code_origin(data, methods, next, i + 1, id);
    }
}

/// The method that a piece of code belongs to.
pub proof fn lemma_code_owner(data: Seq<u8>, c: Members, id: u32) -> (j: int)
    requires
        codes_of(data, c.methods(), CodeRefs::empty()) is Ok,
        codes_of(data, c.methods(), CodeRefs::empty())->Ok_0.0.get(id) is Some,
    ensures
        0 <= j < c.methods().len(),
        c.methods()[j].method_idx == id,
        c.methods()[j].code_off != 0,
{
    let methods = c.methods();
    let s = (Entries::<Code>::empty(), CodeRefs::empty());
    lemma_code_origin(data, methods, s, 0, id);
    choose|j: int|
        0 <= j < methods.len() && (#[trigger] methods[j]).method_idx == id && methods[j].code_off
            != 0
}

/// The code that is kept for a method.
pub proof fn lemma_code_kept(data: Seq<u8>, c: Members, j: int)
    requires
        methods_once(c),
        0 <= j < c.methods().len(),
        codes_of(data, c.methods(), CodeRefs::empty()) is Ok,
    ensures
        ({
            let x = c.methods()[j];
            let codes = codes_of(data, c.methods(), CodeRefs::empty())->Ok_0.0;
            let code = code_in(data, x.code_off as int)->Ok_0;
            if x.code_off == 0 {
                codes.get(x.method_idx) is None
            } else {
                &&& code_in(data, x.code_off as int) is Ok
                &&& codes.get(x.method_idx) matches Some(kept)
                &&& kept == Code { insns: kept.insns, ..code }
            }
        }),
{
    let x = c.methods()[j];
    let codes = codes_of(data, c.methods(), CodeRefs::empty())->Ok_0.0;
    if x.code_off == 0 {
        if codes.get(x.method_idx) is Some {
            let k = lemma_code_owner(data, c, x.method_idx);
            assert(c.methods()[k].method_idx == c.methods()[j].method_idx);
            assert(k == j) by {
                if k < j {
                    assert(c.methods()[k].method_idx != c.methods()[j].method_idx);
                } else if j < k {
                    assert(c.methods()[j].method_idx != c.methods()[k].method_idx);
                }
            }
        }
    } else {
        let s = (Entries::<Code>::empty(), CodeRefs::empty());
        let refs = lemma_code_of_method(data, c.methods(), s, 0, j);
    }
}

/// The caught types stand for what the handlers need.
pub proof fn lemma_catches_held(dex: DexTables, data: Seq<u8>, c: Members)
    requires
        methods_once(c),
        codes_of(data, c.methods(), CodeRefs::empty()) is Ok,
    ensures
        total(
            type_parts(
                dex,
                caught_types(codes_of(data, c.methods(), CodeRefs::empty())->Ok_0.0.values),
            ),
        ) == total(all_catches(dex, data, c.methods())),
{
    let methods = c.methods();
    let codes = codes_of(data, methods, CodeRefs::empty())->Ok_0.0;
    let f = |c: Code| handlers_need(dex, c.handlers);
    let a = codes.values.map_values(f);
    let b = all_catches(dex, data, methods);
    lemma_codes_ok(data, methods, CodeRefs::empty());
    lemma_catches_of(dex, codes.values);
    assert forall|i: int| 0 <= i < a.len() implies (#[trigger] a[i]).within(total(b)) by {
        lemma_get_at(codes, i);
        let j = lemma_code_owner(data, c, codes.keys[i]);
        lemma_code_kept(data, c, j);
        assert(b[j] == a[i]);
        lemma_total_has(b, j);
    }
    lemma_total_each(a, total(b));
    assert forall|j: int| 0 <= j < b.len() implies (#[trigger] b[j]).within(total(a)) by {
        lemma_code_kept(data, c, j);
        let x = methods[j];
        if x.code_off != 0 {
            lemma_rank(codes.keys, x.method_idx);
            let p = rank_from(codes.keys, x.method_idx, 0);
            assert(a[p] == b[j]);
            lemma_total_has(a, p);
        }
    }
    lemma_total_each(b, total(a));
    lemma_within_both(total(a), total(b));
}

/// The debug items stand for what the debug items of the methods need.
pub proof fn lemma_debugs_of_methods(
    dex: DexTables,
    debugs: Entries<Debugging>,
    methods: Seq<EncodedMethod>,
)
    requires
        debugs.wf(),
        forall|i: int|
            0 <= i < debugs.keys.len() ==> exists|j: int|
                0 <= j < methods.len() && (#[trigger] methods[j]).method_idx
                    == #[trigger] debugs.keys[i],
    ensures
        total(debugs_needs(dex, debugs.values)) == total(all_debugs(dex, debugs, methods)),
{
    let a = debugs_needs(dex, debugs.values);
    let b = all_debugs(dex, debugs, methods);
    assert forall|i: int| 0 <= i < a.len() implies (#[trigger] a[i]).within(total(b)) by {
        let key = debugs.keys[i];
        let j = choose|j: int|
            0 <= j < methods.len() && (#[trigger] methods[j]).method_idx == debugs.keys[i];
        lemma_get_at(debugs, i);
        assert(b[j] == a[i]);
        lemma_total_has(b, j);
    }
    lemma_total_each(a, total(b));
    assert forall|j: int| 0 <= j < b.len() implies (#[trigger] b[j]).within(total(a)) by {
        let id = methods[j].method_idx;
        if debugs.get(id) is Some {
            lemma_rank(debugs.keys, id);
            let p = rank_from(debugs.keys, id, 0);
            assert(a[p] == b[j]);
            lemma_total_has(a, p);
        }
    }
    lemma_total_each(b, total(a));
    lemma_within_both(total(a), total(b));
}

// ---------------------------------------------------------------------------
// Members in their new order
// ---------------------------------------------------------------------------

pub open spec fn new_method(x: EncodedMethod, m: Tables, code: Entries<u32>) -> EncodedMethod {
    EncodedMethod {
        method_idx: method_rank(m, x.method_idx),
        access_flags: x.access_flags,
        code_off: or_zero(code, x.method_idx),
    }
}

pub open spec fn new_field(x: EncodedField, m: Tables) -> EncodedField {
    EncodedField { field_idx: field_rank(m, x.field_idx), access_flags: x.access_flags }
}

/// Where an item went when items were put in order.
pub proof fn lemma_picked_forth<T>(items: Seq<T>, keys: Seq<Seq<u32>>, i: int) -> (j: int)
    requires
        0 <= i < items.len(),
    ensures
        0 <= j < picked(items, sort_order(keys, items.len())).len(),
        picked(items, sort_order(keys, items.len()))[j] == items[i],
{
    let walk = sort_order(keys, items.len());
    lemma_sort_order(keys, items.len());
    assert(walk.contains(i));
    choose|j: int| 0 <= j < walk.len() && walk[j] == i
}

/// Where an item came from when items were put in order.
pub proof fn lemma_picked_back<T>(items: Seq<T>, keys: Seq<Seq<u32>>, j: int) -> (i: int)
    requires
        0 <= j < picked(items, sort_order(keys, items.len())).len(),
    ensures
        0 <= i < items.len(),
        picked(items, sort_order(keys, items.len()))[j] == items[i],
        picked(items, sort_order(keys, items.len())).len() == items.len(),
{
    let walk = sort_order(keys, items.len());
    lemma_sort_order(keys, items.len());
    walk[j]
}

pub proof fn lemma_method_forth(c: Members, m: Tables, code: Entries<u32>, i: int) -> (j: int)
    requires
        0 <= i < c.methods().len(),
    ensures
        0 <= j < new_members(c, m, code).methods().len(),
        new_members(c, m, code).methods()[j] == new_method(c.methods()[i], m, code),
{
    let a = c.direct_methods;
    let b = c.virtual_methods;
    let first = new_members(c, m, code).direct_methods;
    let all = new_members(c, m, code).methods();
    if i < a.len() {
        let j = lemma_picked_forth(a, method_ranks(a, m), i);
        assert(all[j] == first[j]);
        j
    } else {
        let j = lemma_picked_forth(b, method_ranks(b, m), i - a.len());
        assert(all[first.len() + j] == new_members(c, m, code).virtual_methods[j]);
        first.len() + j
    }
}

pub proof fn lemma_method_back(c: Members, m: Tables, code: Entries<u32>, j: int) -> (i: int)
    requires
        0 <= j < new_members(c, m, code).methods().len(),
    ensures
        0 <= i < c.methods().len(),
        new_members(c, m, code).methods()[j] == new_method(c.methods()[i], m, code),
{
    let a = c.direct_methods;
    let b = c.virtual_methods;
    let first = new_members(c, m, code).direct_methods;
    let all = new_members(c, m, code).methods();
    if j < first.len() {
        let i = lemma_picked_back(a, method_ranks(a, m), j);
        assert(all[j] == first[j]);
        assert(c.methods()[i] == a[i]);
        i
    } else {
        let i = lemma_picked_back(b, method_ranks(b, m), j - first.len());
        assert(all[j] == new_members(c, m, code).virtual_methods[j - first.len()]);
        assert(c.methods()[a.len() + i] == b[i]);
        a.len() + i
    }
}

pub proof fn lemma_field_forth(c: Members, m: Tables, code: Entries<u32>, i: int) -> (j: int)
    requires
        0 <= i < c.fields().len(),
    ensures
        0 <= j < new_members(c, m, code).fields().len(),
        new_members(c, m, code).fields()[j] == new_field(c.fields()[i], m),
{
    let a = c.static_fields;
    let b = c.instance_fields;
    let first = new_members(c, m, code).static_fields;
    let all = new_members(c, m, code).fields();
    if i < a.len() {
        let j = lemma_picked_forth(a, field_ranks(a, m), i);
        assert(all[j] == first[j]);
        j
    } else {
        let j = lemma_picked_forth(b, field_ranks(b, m), i - a.len());
        assert(all[first.len() + j] == new_members(c, m, code).instance_fields[j]);
        first.len() + j
    }
}

pub proof fn lemma_field_back(c: Members, m: Tables, code: Entries<u32>, j: int) -> (i: int)
    requires
        0 <= j < new_members(c, m, code).fields().len(),
    ensures
        0 <= i < c.fields().len(),
        new_members(c, m, code).fields()[j] == new_field(c.fields()[i], m),
{
    let a = c.static_fields;
    let b = c.instance_fields;
    let first = new_members(c, m, code).static_fields;
    let all = new_members(c, m, code).fields();
    if j < first.len() {
        let i = lemma_picked_back(a, field_ranks(a, m), j);
        assert(all[j] == first[j]);
        assert(c.fields()[i] == a[i]);
        i
    } else {
        let i = lemma_picked_back(b, field_ranks(b, m), j - first.len());
        assert(all[j] == new_members(c, m, code).instance_fields[j - first.len()]);
        assert(c.fields()[a.len() + i] == b[i]);
        a.len() + i
    }
}

} // verus!
