//! What code and metadata need, as names: the references that reading them
//! collects stand for that, and giving them new indices changes nothing of it.
use vstd::prelude::*;

use crate::collections::{ascending, lemma_with_member};
use crate::dex_format::{lemma_uleb_end, uleb_in, width_at};
use crate::minidex::bytecode::{
    numbered_at, numbered_from, opcode_at, operand_of, wide_operand, with_id, CodeRefs, Operand,
};
use crate::minidex::holdings::{
    field_need, field_parts, lemma_plus_chain, lemma_total_push, lemma_total_within,
    lemma_within_both, method_need, method_parts, proto_need, proto_parts, string_need,
    string_parts, total, type_need, type_parts, Holdings,
};
use crate::minidex::metadata::{debug_in, debug_op_in, debug_ops_in, lemma_debug_op_end, name_step};
use crate::minidex::operands::{
    lemma_numbered_step, lemma_reach, lemma_wide_operand, lemma_width_local, mapped_at, mapped_from,
    reach_of,
};
use crate::minidex::reader::DexTables;
use crate::minidex::sites::{lemma_mapped_keeps, lemma_mapped_step};
use crate::minidex::tables::Tables;
use crate::minidex::values::{
    annotation_in, elements_in, kind_of, value_in, values_in, Annotation, DebugOp, Debugging,
    IndexKind, RefSets, Value,
};
use crate::results::repeat;

verus! {

// ---------------------------------------------------------------------------
// Collected references
// ---------------------------------------------------------------------------

/// What collected references stand for.
pub open spec fn refs_held(
    dex: DexTables,
    strings: Seq<u32>,
    types: Seq<u32>,
    protos: Seq<u32>,
    fields: Seq<u32>,
    methods: Seq<u32>,
) -> Holdings {
    total(string_parts(dex, strings)).plus(total(type_parts(dex, types))).plus(
        total(proto_parts(dex, protos)),
    ).plus(total(field_parts(dex, fields))).plus(total(method_parts(dex, methods)))
}

pub open spec fn code_held(dex: DexTables, r: CodeRefs) -> Holdings {
    refs_held(dex, r.strings, r.types, r.protos, r.fields, r.methods)
}

pub open spec fn meta_held(dex: DexTables, r: RefSets) -> Holdings {
    refs_held(dex, r.strings, r.types, r.protos, r.fields, r.methods)
}

/// Whether `more` has the members of `ids` and `id`.
spec fn adds(ids: Seq<u32>, more: Seq<u32>, id: u32) -> bool {
    forall|y: u32| #[trigger] more.contains(y) <==> ids.contains(y) || y == id
}

proof fn lemma_with_id_adds(ids: Seq<u32>, id: u32)
    ensures
        adds(ids, with_id(ids, id), id),
{
    if !ids.contains(id) {
        let more = ids.push(id);
        assert forall|y: u32| #[trigger] more.contains(y) <==> ids.contains(y) || y == id by {
            if ids.contains(y) {
                let i = choose|i: int| 0 <= i < ids.len() && ids[i] == y;
                assert(more[i] == y);
            }
            assert(more[ids.len() as int] == id);
            if more.contains(y) {
                let i = choose|i: int| 0 <= i < more.len() && more[i] == y;
                if i < ids.len() {
                    assert(ids[i] == y);
                }
            }
        }
    }
}

/// One more identifier adds what it stands for.
proof fn lemma_parts_added(
    f: spec_fn(u32) -> Holdings,
    ids: Seq<u32>,
    more: Seq<u32>,
    id: u32,
)
    requires
        adds(ids, more, id),
    ensures
        total(more.map_values(f)) == total(ids.map_values(f)).plus(f(id)),
{
    let a = ids.map_values(f);
    let b = more.map_values(f);
    let c = a.push(f(id));
    assert forall|i: int| 0 <= i < b.len() implies c.contains(#[trigger] b[i]) by {
        let y = more[i];
        assert(more.contains(y));
        if ids.contains(y) {
            let k = choose|k: int| 0 <= k < ids.len() && ids[k] == y;
            assert(c[k] == b[i]);
        } else {
            assert(c[a.len() as int] == b[i]);
        }
    }
    assert forall|i: int| 0 <= i < c.len() implies b.contains(#[trigger] c[i]) by {
        let y = if i < ids.len() {
            ids[i]
        } else {
            id
        };
        if i < ids.len() {
            assert(ids.contains(y));
        }
        assert(more.contains(y));
        let k = choose|k: int| 0 <= k < more.len() && more[k] == y;
        assert(b[k] == c[i]);
    }
    lemma_total_within(b, c);
    lemma_total_within(c, b);
    lemma_within_both(total(b), total(c));
    lemma_total_push(a, f(id));
}

proof fn lemma_string_added(dex: DexTables, ids: Seq<u32>, more: Seq<u32>, id: u32)
    requires
        adds(ids, more, id),
    ensures
        total(string_parts(dex, more)) == total(string_parts(dex, ids)).plus(
            string_need(dex, id as int),
        ),
{
    let f = |k: u32| string_need(dex, k as int);
    lemma_parts_added(f, ids, more, id);
    assert(string_parts(dex, ids) =~= ids.map_values(f));
    assert(string_parts(dex, more) =~= more.map_values(f));
}

proof fn lemma_type_added(dex: DexTables, ids: Seq<u32>, more: Seq<u32>, id: u32)
    requires
        adds(ids, more, id),
    ensures
        total(type_parts(dex, more)) == total(type_parts(dex, ids)).plus(
            type_need(dex, id as int),
        ),
{
    let f = |k: u32| type_need(dex, k as int);
    lemma_parts_added(f, ids, more, id);
    assert(type_parts(dex, ids) =~= ids.map_values(f));
    assert(type_parts(dex, more) =~= more.map_values(f));
}

proof fn lemma_proto_added(dex: DexTables, ids: Seq<u32>, more: Seq<u32>, id: u32)
    requires
        adds(ids, more, id),
    ensures
        total(proto_parts(dex, more)) == total(proto_parts(dex, ids)).plus(
            proto_need(dex, id as int),
        ),
{
    let f = |k: u32| proto_need(dex, k as int);
    lemma_parts_added(f, ids, more, id);
    assert(proto_parts(dex, ids) =~= ids.map_values(f));
    assert(proto_parts(dex, more) =~= more.map_values(f));
}

proof fn lemma_field_added(dex: DexTables, ids: Seq<u32>, more: Seq<u32>, id: u32)
    requires
        adds(ids, more, id),
    ensures
        total(field_parts(dex, more)) == total(field_parts(dex, ids)).plus(
            field_need(dex, id as int),
        ),
{
    let f = |k: u32| field_need(dex, k as int);
    lemma_parts_added(f, ids, more, id);
    assert(field_parts(dex, ids) =~= ids.map_values(f));
    assert(field_parts(dex, more) =~= more.map_values(f));
}

proof fn lemma_method_added(dex: DexTables, ids: Seq<u32>, more: Seq<u32>, id: u32)
    requires
        adds(ids, more, id),
    ensures
        total(method_parts(dex, more)) == total(method_parts(dex, ids)).plus(
            method_need(dex, id as int),
        ),
{
    let f = |k: u32| method_need(dex, k as int);
    lemma_parts_added(f, ids, more, id);
    assert(method_parts(dex, ids) =~= ids.map_values(f));
    assert(method_parts(dex, more) =~= more.map_values(f));
}

// ---------------------------------------------------------------------------
// Code
// ---------------------------------------------------------------------------

/// What the operands of one instruction stand for.
pub open spec fn operand_needs(dex: DexTables, units: Seq<u16>, pc: int) -> Holdings {
    let operand = operand_of(opcode_at(units, pc));
    if operand == Operand::JumboString {
        string_need(dex, wide_operand(units, pc) as int)
    } else if operand == Operand::String {
        string_need(dex, units[pc + 1] as int)
    } else if operand == Operand::Type {
        type_need(dex, units[pc + 1] as int)
    } else if operand == Operand::Field {
        field_need(dex, units[pc + 1] as int)
    } else if operand == Operand::Proto {
        proto_need(dex, units[pc + 1] as int)
    } else if operand == Operand::Method {
        method_need(dex, units[pc + 1] as int)
    } else if operand == Operand::MethodAndProto {
        method_need(dex, units[pc + 1] as int).plus(
            proto_need(dex, units[pc + 3] as int),
        )
    } else {
        Holdings::none()
    }
}

/// What the instructions from `pc` on stand for.
pub open spec fn code_needs(dex: DexTables, units: Seq<u16>, pc: int) -> Holdings
    decreases units.len() - pc,
{
    if pc >= units.len() {
        Holdings::none()
    } else {
        match width_at(units, pc) {
            Err(_) => Holdings::none(),
            Ok(width) => if width == 0 || pc + width > units.len() {
                Holdings::none()
            } else {
                operand_needs(dex, units, pc).plus(code_needs(dex, units, pc + width))
            },
        }
    }
}

/// Numbering an instruction collects what its operands stand for.
#[verifier::spinoff_prover]
proof fn lemma_operand_held(dex: DexTables, units: Seq<u16>, pc: int, refs: CodeRefs)
    requires
        0 <= pc < units.len(),
        numbered_at(units, pc, refs) is Ok,
    ensures
        code_held(dex, numbered_at(units, pc, refs)->Ok_0.1) == code_held(dex, refs).plus(
            operand_needs(dex, units, pc),
        ),
{
    let operand = operand_of(opcode_at(units, pc));
    let more = numbered_at(units, pc, refs)->Ok_0.1;
    let all = code_held(dex, refs).plus(operand_needs(dex, units, pc));
    if operand == Operand::Nothing {
    } else if operand == Operand::JumboString {
        let id = wide_operand(units, pc);
        lemma_with_id_adds(refs.strings, id);
        lemma_string_added(dex, refs.strings, more.strings, id);
    } else {
        let id = units[pc + 1] as u32;
        if operand == Operand::String {
            lemma_with_id_adds(refs.strings, id);
            lemma_string_added(dex, refs.strings, more.strings, id);
        } else if operand == Operand::Type {
            lemma_with_id_adds(refs.types, id);
            lemma_type_added(dex, refs.types, more.types, id);
        } else if operand == Operand::Field {
            lemma_with_id_adds(refs.fields, id);
            lemma_field_added(dex, refs.fields, more.fields, id);
        } else if operand == Operand::Proto {
            lemma_with_id_adds(refs.protos, id);
            lemma_proto_added(dex, refs.protos, more.protos, id);
        } else if operand == Operand::Method {
            lemma_with_id_adds(refs.methods, id);
            lemma_method_added(dex, refs.methods, more.methods, id);
        } else {
            let proto = units[pc + 3] as u32;
            lemma_with_id_adds(refs.methods, id);
            lemma_method_added(dex, refs.methods, more.methods, id);
            lemma_with_id_adds(refs.protos, proto);
            lemma_proto_added(dex, refs.protos, more.protos, proto);
        }
    }
    assert(code_held(dex, more) =~= all);
}

/// What an instruction needs depends on nothing outside of it.
proof fn lemma_needs_local(dex: DexTables, a: Seq<u16>, b: Seq<u16>, pc: int)
    requires
        a.len() == b.len(),
        0 <= pc < a.len(),
        width_at(a, pc) is Ok,
        width_at(a, pc)->Ok_0 > 0,
        pc + width_at(a, pc)->Ok_0 <= a.len(),
        forall|k: int| pc <= k < pc + width_at(a, pc)->Ok_0 ==> #[trigger] a[k] == b[k],
    ensures
        width_at(b, pc) == width_at(a, pc),
        operand_needs(dex, a, pc) == operand_needs(dex, b, pc),
{
    lemma_reach(a, pc);
    assert(a[pc] == b[pc]);
    lemma_width_local(a, b, pc);
    let r = reach_of(a, pc);
    if r >= 2 {
        assert(a[pc + 1] == b[pc + 1]);
    }
    if r >= 3 {
        assert(a[pc + 2] == b[pc + 2]);
    }
    if r >= 4 {
        assert(a[pc + 3] == b[pc + 3]);
    }
}

/// Numbering code collects what it stands for.
pub proof fn lemma_code_held(
    dex: DexTables,
    source: Seq<u16>,
    units: Seq<u16>,
    pc: int,
    refs: CodeRefs,
)
    requires
        0 <= pc,
        source.len() == units.len(),
        forall|k: int| pc <= k < units.len() ==> #[trigger] source[k] == units[k],
        numbered_from(units, pc, refs) is Ok,
    ensures
        code_held(dex, numbered_from(units, pc, refs)->Ok_0.1) == code_held(dex, refs).plus(
            code_needs(dex, source, pc),
        ),
    decreases units.len() - pc,
{
    if pc < units.len() {
        let (changed, more) = numbered_at(units, pc, refs)->Ok_0;
        let width = width_at(changed, pc)->Ok_0;
        lemma_numbered_step(units, pc, refs);
        lemma_operand_held(dex, units, pc, refs);
        assert(changed[pc] == units[pc]);
        assert(width_at(units, pc) == width_at(changed, pc)) by {
            if units[pc] % 256 == 0 {
                assert(operand_of(opcode_at(units, pc)) == Operand::Nothing);
            }
        }
        assert forall|k: int| pc <= k < pc + width implies #[trigger] units[k] == source[k] by {
            assert(source[k] == units[k]);
        }
        lemma_needs_local(dex, units, source, pc);
        lemma_reach(units, pc);
        assert forall|k: int| pc + width <= k < units.len() implies #[trigger] source[k]
            == changed[k] by {
            assert(source[k] == units[k]);
            assert(changed[k] == units[k]);
        }
        lemma_code_held(dex, source, changed, pc + width, more);
        lemma_plus_chain(
            code_held(dex, refs),
            operand_needs(dex, units, pc),
            code_needs(dex, source, pc + width),
        );
    } else {
        assert(code_held(dex, refs).plus(Holdings::none()) =~= code_held(dex, refs));
    }
}

/// Whether new indices stand for what the old ones stand for.
pub open spec fn alike(dex: DexTables, t: DexTables, m: Tables) -> bool {
    &&& forall|k: u32|
        (#[trigger] m.mapped_string(dex, k)) is Ok ==> k < dex.strings.len() && m.mapped_string(
            dex,
            k,
        )->Ok_0 < t.strings.len() && t.strings[m.mapped_string(dex, k)->Ok_0 as int]
            == dex.strings[k as int] && m.mapped_string(dex, k)->Ok_0 < u32::MAX
    &&& forall|k: u32|
        (#[trigger] m.mapped_type(k)) is Ok ==> k < dex.types.len() && m.mapped_type(k)->Ok_0
            < t.types.len() && t.name_of_type(m.mapped_type(k)->Ok_0 as int) == dex.name_of_type(
            k as int,
        )
    &&& forall|k: u32|
        (#[trigger] m.mapped_proto(k)) is Ok ==> k < dex.protos.len() && m.mapped_proto(k)->Ok_0
            < t.protos.len() && t.proto_meaning(m.mapped_proto(k)->Ok_0 as int)
            == dex.proto_meaning(k as int)
    &&& forall|k: u32|
        (#[trigger] m.mapped_field(k)) is Ok ==> k < dex.fields.len() && m.mapped_field(k)->Ok_0
            < t.fields.len() && t.field_meaning(m.mapped_field(k)->Ok_0 as int)
            == dex.field_meaning(k as int)
    &&& forall|k: u32|
        (#[trigger] m.mapped_method(k)) is Ok ==> k < dex.methods.len() && m.mapped_method(k)->Ok_0
            < t.methods.len() && t.method_meaning(m.mapped_method(k)->Ok_0 as int)
            == dex.method_meaning(k as int)
}

/// An instruction with new indices needs what it needed.
proof fn lemma_operand_mapped(
    dex: DexTables,
    t: DexTables,
    m: Tables,
    units: Seq<u16>,
    pc: int,
)
    requires
        alike(dex, t, m),
        0 <= pc < units.len(),
        mapped_at(units, pc, m, dex) is Ok,
    ensures
        operand_needs(t, mapped_at(units, pc, m, dex)->Ok_0, pc) == operand_needs(dex, units, pc),
{
    lemma_mapped_step(units, pc, m, dex);
    let changed = mapped_at(units, pc, m, dex)->Ok_0;
    let operand = operand_of(opcode_at(units, pc));
    assert(changed[pc] == units[pc]);
    if operand == Operand::JumboString {
        let id = wide_operand(units, pc);
        lemma_wide_operand(units, pc, m.mapped_string(dex, id)->Ok_0);
    }
}

/// Code with new indices needs what it needed.
pub proof fn lemma_code_mapped(
    dex: DexTables,
    t: DexTables,
    m: Tables,
    source: Seq<u16>,
    units: Seq<u16>,
    pc: int,
)
    requires
        alike(dex, t, m),
        0 <= pc,
        source.len() == units.len(),
        forall|k: int| pc <= k < units.len() ==> #[trigger] source[k] == units[k],
        mapped_from(units, pc, m, dex) is Ok,
    ensures
        code_needs(t, mapped_from(units, pc, m, dex)->Ok_0, pc) == code_needs(dex, source, pc),
    decreases units.len() - pc,
{
    lemma_mapped_keeps(units, pc, m, dex);
    if pc < units.len() {
        let out = mapped_from(units, pc, m, dex)->Ok_0;
        let changed = mapped_at(units, pc, m, dex)->Ok_0;
        let width = width_at(changed, pc)->Ok_0;
        lemma_mapped_step(units, pc, m, dex);
        lemma_mapped_keeps(changed, pc + width, m, dex);
        lemma_operand_mapped(dex, t, m, units, pc);
        assert forall|k: int| pc <= k < pc + width implies #[trigger] changed[k] == out[k] by {}
        lemma_needs_local(t, changed, out, pc);
        assert(changed[pc] == units[pc]);
        assert(width_at(units, pc) == width_at(changed, pc)) by {
            if units[pc] % 256 == 0 {
                assert(operand_of(opcode_at(units, pc)) == Operand::Nothing);
            }
        }
        assert forall|k: int| pc <= k < pc + width implies #[trigger] units[k] == source[k] by {
            assert(source[k] == units[k]);
        }
        lemma_needs_local(dex, units, source, pc);
        lemma_reach(units, pc);
        assert forall|k: int| pc + width <= k < units.len() implies #[trigger] source[k]
            == changed[k] by {
            assert(source[k] == units[k]);
            assert(changed[k] == units[k]);
        }
        lemma_code_mapped(dex, t, m, source, changed, pc + width);
    }
}

// ---------------------------------------------------------------------------
// Encoded values
// ---------------------------------------------------------------------------

/// What an index in an encoded value stands for.
pub open spec fn index_needs(dex: DexTables, kind: IndexKind, id: u32) -> Holdings {
    match kind {
        IndexKind::Proto => proto_need(dex, id as int),
        IndexKind::String => string_need(dex, id as int),
        IndexKind::Type => type_need(dex, id as int),
        IndexKind::Field => field_need(dex, id as int),
        IndexKind::Enum => field_need(dex, id as int),
        IndexKind::Method => method_need(dex, id as int),
    }
}

/// What an encoded value stands for.
pub open spec fn value_needs(dex: DexTables, v: Value) -> Holdings
    decreases v,
{
    match v {
        Value::Indexed(kind, id) => index_needs(dex, kind, id),
        Value::Array(items) => total(values_needs(dex, items)),
        Value::Annotation(a) => annotation_needs(dex, a),
        _ => Holdings::none(),
    }
}

/// What an annotation stands for.
pub open spec fn annotation_needs(dex: DexTables, a: Annotation) -> Holdings
    decreases a,
{
    type_need(dex, a.type_idx as int).plus(total(string_parts(dex, a.names))).plus(
        total(values_needs(dex, a.values)),
    )
}

/// What some encoded values stand for, each of them.
pub open spec fn values_needs(dex: DexTables, items: Seq<Value>) -> Seq<Holdings>
    decreases items,
{
    Seq::new(
        items.len(),
        |i: int|
            if 0 <= i < items.len() {
                value_needs(dex, items[i])
            } else {
                Holdings::none()
            },
    )
}

/// Whether collected references ascend.
pub open spec fn refs_ascend(r: RefSets) -> bool {
    &&& ascending(r.strings)
    &&& ascending(r.types)
    &&& ascending(r.protos)
    &&& ascending(r.fields)
    &&& ascending(r.methods)
}

/// Whether the members among some references are among others too.
pub open spec fn members_within(a: RefSets, b: RefSets) -> bool {
    &&& forall|x: u32| #[trigger] a.fields.contains(x) ==> b.fields.contains(x)
    &&& forall|x: u32| #[trigger] a.methods.contains(x) ==> b.methods.contains(x)
}

pub proof fn lemma_with_string_held(dex: DexTables, r: RefSets, id: u32)
    requires
        refs_ascend(r),
    ensures
        refs_ascend(r.with_string(id)),
        members_within(r, r.with_string(id)),
        meta_held(dex, r.with_string(id)) == meta_held(dex, r).plus(
            string_need(dex, id as int),
        ),
{
    lemma_with_member(r.strings, id);
    lemma_string_added(dex, r.strings, r.with_string(id).strings, id);
    assert(meta_held(dex, r.with_string(id)) =~= meta_held(dex, r).plus(
        string_need(dex, id as int),
    ));
}

pub proof fn lemma_with_type_held(dex: DexTables, r: RefSets, id: u32)
    requires
        refs_ascend(r),
    ensures
        refs_ascend(r.with_type(id)),
        members_within(r, r.with_type(id)),
        meta_held(dex, r.with_type(id)) == meta_held(dex, r).plus(
            type_need(dex, id as int),
        ),
{
    lemma_with_member(r.types, id);
    lemma_type_added(dex, r.types, r.with_type(id).types, id);
    assert(meta_held(dex, r.with_type(id)) =~= meta_held(dex, r).plus(
        type_need(dex, id as int),
    ));
}

pub proof fn lemma_with_held(dex: DexTables, r: RefSets, kind: IndexKind, id: u32)
    requires
        refs_ascend(r),
    ensures
        refs_ascend(r.with(kind, id)),
        members_within(r, r.with(kind, id)),
        meta_held(dex, r.with(kind, id)) == meta_held(dex, r).plus(index_needs(dex, kind, id)),
{
    let more = r.with(kind, id);
    match kind {
        IndexKind::Proto => {
            lemma_with_member(r.protos, id);
            lemma_proto_added(dex, r.protos, more.protos, id);
        },
        IndexKind::String => {
            lemma_with_string_held(dex, r, id);
        },
        IndexKind::Type => {
            lemma_with_type_held(dex, r, id);
        },
        IndexKind::Field => {
            lemma_with_member(r.fields, id);
            lemma_field_added(dex, r.fields, more.fields, id);
        },
        IndexKind::Enum => {
            lemma_with_member(r.fields, id);
            lemma_field_added(dex, r.fields, more.fields, id);
        },
        IndexKind::Method => {
            lemma_with_member(r.methods, id);
            lemma_method_added(dex, r.methods, more.methods, id);
        },
    }
    assert(meta_held(dex, more) =~= meta_held(dex, r).plus(index_needs(dex, kind, id)));
}

/// Reading a value collects what it stands for.
proof fn lemma_value_held(dex: DexTables, data: Seq<u8>, at: int, refs: RefSets)
    requires
        refs_ascend(refs),
        value_in(data, at, refs) is Ok,
    ensures
        refs_ascend(value_in(data, at, refs)->Ok_0.2),
        members_within(refs, value_in(data, at, refs)->Ok_0.2),
        meta_held(dex, value_in(data, at, refs)->Ok_0.2) == meta_held(dex, refs).plus(
            value_needs(dex, value_in(data, at, refs)->Ok_0.0),
        ),
    decreases data.len() - at, 0int, 0int,
{
    let code = (data[at] % 32) as u8;
    let (v, _, r) = value_in(data, at, refs)->Ok_0;
    let held = meta_held(dex, refs);
    if kind_of(code) is Some {
        lemma_with_held(dex, refs, kind_of(code)->0, v->Indexed_1);
    } else if code == 0x1c {
        let (count, start) = uleb_in(data, at + 1)->Ok_0;
        let none = Seq::<Value>::empty();
        lemma_uleb_end(data, at + 1);
        assert(held.plus(total(values_needs(dex, none))) =~= held);
        lemma_values_held(dex, data, start, refs, count as int, none, held);
    } else if code == 0x1d {
        lemma_annotation_held(dex, data, at + 1, refs);
    } else {
        assert(held.plus(Holdings::none()) =~= held);
    }
}

pub proof fn lemma_values_held(
    dex: DexTables,
    data: Seq<u8>,
    at: int,
    refs: RefSets,
    count: int,
    items: Seq<Value>,
    start: Holdings,
)
    requires
        refs_ascend(refs),
        values_in(data, at, refs, count, items) is Ok,
        meta_held(dex, refs) == start.plus(total(values_needs(dex, items))),
    ensures
        refs_ascend(values_in(data, at, refs, count, items)->Ok_0.2),
        members_within(refs, values_in(data, at, refs, count, items)->Ok_0.2),
        meta_held(dex, values_in(data, at, refs, count, items)->Ok_0.2) == start.plus(
            total(values_needs(dex, values_in(data, at, refs, count, items)->Ok_0.0)),
        ),
    decreases data.len() - at, 1int, count,
{
    if count > 0 {
        let (v, next, r) = value_in(data, at, refs)->Ok_0;
        lemma_value_held(dex, data, at, refs);
        lemma_total_push(values_needs(dex, items), value_needs(dex, v));
        assert(values_needs(dex, items.push(v)) =~= values_needs(dex, items).push(
            value_needs(dex, v),
        ));
        lemma_plus_chain(start, total(values_needs(dex, items)), value_needs(dex, v));
        lemma_values_held(dex, data, next, r, count - 1, items.push(v), start);
    }
}

/// Reading an annotation collects what it stands for.
pub proof fn lemma_annotation_held(dex: DexTables, data: Seq<u8>, at: int, refs: RefSets)
    requires
        refs_ascend(refs),
        annotation_in(data, at, refs) is Ok,
    ensures
        refs_ascend(annotation_in(data, at, refs)->Ok_0.2),
        members_within(refs, annotation_in(data, at, refs)->Ok_0.2),
        meta_held(dex, annotation_in(data, at, refs)->Ok_0.2) == meta_held(dex, refs).plus(
            annotation_needs(dex, annotation_in(data, at, refs)->Ok_0.0),
        ),
    decreases data.len() - at, 2int, 0int,
{
    let (type_idx, count_at) = uleb_in(data, at)->Ok_0;
    let (count, start) = uleb_in(data, count_at)->Ok_0;
    lemma_uleb_end(data, at);
    lemma_uleb_end(data, count_at);
    lemma_with_type_held(dex, refs, type_idx);
    let more = refs.with_type(type_idx);
    let names = Seq::<u32>::empty();
    let values = Seq::<Value>::empty();
    let held = meta_held(dex, more);
    assert(held.plus(total(string_parts(dex, names))).plus(total(values_needs(dex, values)))
        =~= held);
    lemma_elements_held(dex, data, start, more, count as int, names, values, held);
    let a = annotation_in(data, at, refs)->Ok_0.0;
    let p = type_need(dex, type_idx as int);
    let q = total(string_parts(dex, a.names));
    let r = total(values_needs(dex, a.values));
    assert(meta_held(dex, refs).plus(p).plus(q).plus(r) =~= meta_held(dex, refs).plus(
        p.plus(q).plus(r),
    ));
}

proof fn lemma_elements_held(
    dex: DexTables,
    data: Seq<u8>,
    at: int,
    refs: RefSets,
    count: int,
    names: Seq<u32>,
    values: Seq<Value>,
    start: Holdings,
)
    requires
        refs_ascend(refs),
        elements_in(data, at, refs, count, names, values) is Ok,
        meta_held(dex, refs) == start.plus(total(string_parts(dex, names))).plus(
            total(values_needs(dex, values)),
        ),
    ensures
        ({
            let (n, v, _, r) = elements_in(data, at, refs, count, names, values)->Ok_0;
            &&& refs_ascend(r)
            &&& members_within(refs, r)
            &&& meta_held(dex, r) == start.plus(total(string_parts(dex, n))).plus(
                total(values_needs(dex, v)),
            )
        }),
    decreases data.len() - at, 1int, count,
{
    if count > 0 {
        let (name, value_at) = uleb_in(data, at)->Ok_0;
        lemma_uleb_end(data, at);
        let with_name = refs.with_string(name);
        let (v, next, r) = value_in(data, value_at, with_name)->Ok_0;
        lemma_with_string_held(dex, refs, name);
        lemma_value_held(dex, data, value_at, with_name);
        let text = string_need(dex, name as int);
        lemma_total_push(string_parts(dex, names), text);
        assert(string_parts(dex, names.push(name)) =~= string_parts(dex, names).push(text));
        lemma_total_push(values_needs(dex, values), value_needs(dex, v));
        assert(values_needs(dex, values.push(v)) =~= values_needs(dex, values).push(
            value_needs(dex, v),
        ));
        assert(meta_held(dex, r) =~= start.plus(total(string_parts(dex, names.push(name)))).plus(
            total(values_needs(dex, values.push(v))),
        ));
        lemma_elements_held(
            dex,
            data,
            next,
            r,
            count - 1,
            names.push(name),
            values.push(v),
            start,
        );
    }
}

// ---------------------------------------------------------------------------
// Debug items
// ---------------------------------------------------------------------------

/// What a string index stands for that is stored plus one.
pub open spec fn name_needs(dex: DexTables, value: u32) -> Holdings {
    if value == 0 {
        Holdings::none()
    } else {
        string_need(dex, value - 1)
    }
}

/// What a type index stands for that is stored plus one.
pub open spec fn kind_needs(dex: DexTables, value: u32) -> Holdings {
    if value == 0 {
        Holdings::none()
    } else {
        type_need(dex, value - 1)
    }
}

/// What a debug instruction stands for.
pub open spec fn op_needs(dex: DexTables, op: DebugOp) -> Holdings {
    match op {
        DebugOp::StartLocal(_, name, typ) => name_needs(dex, name).plus(kind_needs(dex, typ)),
        DebugOp::StartLocalExtended(_, name, typ, signature) => name_needs(dex, name).plus(
            kind_needs(dex, typ),
        ).plus(name_needs(dex, signature)),
        DebugOp::SetFile(name) => name_needs(dex, name),
        _ => Holdings::none(),
    }
}

pub open spec fn names_needs(dex: DexTables, names: Seq<u32>) -> Seq<Holdings> {
    names.map_values(|n: u32| name_needs(dex, n))
}

pub open spec fn ops_needs(dex: DexTables, ops: Seq<DebugOp>) -> Seq<Holdings> {
    ops.map_values(|op: DebugOp| op_needs(dex, op))
}

/// What a debug item stands for.
pub open spec fn debug_needs(dex: DexTables, d: Debugging) -> Holdings {
    total(names_needs(dex, d.parameter_names)).plus(total(ops_needs(dex, d.ops)))
}

proof fn lemma_name_held(dex: DexTables, r: RefSets, value: u32)
    requires
        refs_ascend(r),
    ensures
        refs_ascend(r.with_string_p1(value)),
        members_within(r, r.with_string_p1(value)),
        meta_held(dex, r.with_string_p1(value)) == meta_held(dex, r).plus(name_needs(dex, value)),
{
    if value > 0 {
        lemma_with_string_held(dex, r, (value - 1) as u32);
    } else {
        assert(meta_held(dex, r).plus(Holdings::none()) =~= meta_held(dex, r));
    }
}

proof fn lemma_kind_held(dex: DexTables, r: RefSets, value: u32)
    requires
        refs_ascend(r),
    ensures
        refs_ascend(r.with_type_p1(value)),
        members_within(r, r.with_type_p1(value)),
        meta_held(dex, r.with_type_p1(value)) == meta_held(dex, r).plus(kind_needs(dex, value)),
{
    if value > 0 {
        lemma_with_type_held(dex, r, (value - 1) as u32);
    } else {
        assert(meta_held(dex, r).plus(Holdings::none()) =~= meta_held(dex, r));
    }
}

proof fn lemma_op_held(dex: DexTables, data: Seq<u8>, at: int, refs: RefSets)
    requires
        refs_ascend(refs),
        debug_op_in(data, at, refs) is Ok,
    ensures
        refs_ascend(debug_op_in(data, at, refs)->Ok_0.2),
        members_within(refs, debug_op_in(data, at, refs)->Ok_0.2),
        meta_held(dex, debug_op_in(data, at, refs)->Ok_0.2) == meta_held(dex, refs).plus(
            op_needs(dex, debug_op_in(data, at, refs)->Ok_0.0),
        ),
{
    let (op, _, r) = debug_op_in(data, at, refs)->Ok_0;
    let held = meta_held(dex, refs);
    match op {
        DebugOp::StartLocal(_, name, typ) => {
            let a = refs.with_string_p1(name);
            lemma_name_held(dex, refs, name);
            lemma_kind_held(dex, a, typ);
            lemma_plus_chain(held, name_needs(dex, name), kind_needs(dex, typ));
        },
        DebugOp::StartLocalExtended(_, name, typ, signature) => {
            let a = refs.with_string_p1(name);
            let b = a.with_type_p1(typ);
            lemma_name_held(dex, refs, name);
            lemma_kind_held(dex, a, typ);
            lemma_name_held(dex, b, signature);
            assert(meta_held(dex, r) =~= held.plus(op_needs(dex, op)));
        },
        DebugOp::SetFile(name) => {
            lemma_name_held(dex, refs, name);
        },
        _ => {
            assert(held.plus(Holdings::none()) =~= held);
        },
    }
}

proof fn lemma_ops_held(
    dex: DexTables,
    data: Seq<u8>,
    at: int,
    refs: RefSets,
    ops: Seq<DebugOp>,
    start: Holdings,
)
    requires
        refs_ascend(refs),
        debug_ops_in(data, at, refs, ops) is Ok,
        meta_held(dex, refs) == start.plus(total(ops_needs(dex, ops))),
    ensures
        refs_ascend(debug_ops_in(data, at, refs, ops)->Ok_0.1),
        members_within(refs, debug_ops_in(data, at, refs, ops)->Ok_0.1),
        meta_held(dex, debug_ops_in(data, at, refs, ops)->Ok_0.1) == start.plus(
            total(ops_needs(dex, debug_ops_in(data, at, refs, ops)->Ok_0.0)),
        ),
    decreases data.len() - at,
{
    let (op, end, r) = debug_op_in(data, at, refs)->Ok_0;
    lemma_op_held(dex, data, at, refs);
    lemma_total_push(ops_needs(dex, ops), op_needs(dex, op));
    assert(ops_needs(dex, ops.push(op)) =~= ops_needs(dex, ops).push(op_needs(dex, op)));
    lemma_plus_chain(start, total(ops_needs(dex, ops)), op_needs(dex, op));
    if op != DebugOp::End {
        lemma_debug_op_end(data, at, refs);
        lemma_ops_held(dex, data, end, r, ops.push(op), start);
    }
}

proof fn lemma_names_held(
    dex: DexTables,
    data: Seq<u8>,
    at: int,
    refs: RefSets,
    n: nat,
    names: Seq<u32>,
    start: Holdings,
)
    requires
        refs_ascend(refs),
        repeat(name_step(data), (at, refs), n, names) is Ok,
        meta_held(dex, refs) == start.plus(total(names_needs(dex, names))),
    ensures
        ({
            let (list, (_, r)) = repeat(name_step(data), (at, refs), n, names)->Ok_0;
            &&& refs_ascend(r)
            &&& members_within(refs, r)
            &&& meta_held(dex, r) == start.plus(total(names_needs(dex, list)))
        }),
    decreases n,
{
    if n > 0 {
        let (value, (end, r)) = name_step(data)((at, refs))->Ok_0;
        lemma_name_held(dex, refs, value);
        lemma_total_push(names_needs(dex, names), name_needs(dex, value));
        assert(names_needs(dex, names.push(value)) =~= names_needs(dex, names).push(
            name_needs(dex, value),
        ));
        lemma_plus_chain(start, total(names_needs(dex, names)), name_needs(dex, value));
        lemma_names_held(dex, data, end, r, (n - 1) as nat, names.push(value), start);
    }
}

/// Reading a debug item collects what it stands for.
pub proof fn lemma_debug_held(dex: DexTables, data: Seq<u8>, offset: int, refs: RefSets)
    requires
        refs_ascend(refs),
        debug_in(data, offset, refs) is Ok,
    ensures
        refs_ascend(debug_in(data, offset, refs)->Ok_0.1),
        members_within(refs, debug_in(data, offset, refs)->Ok_0.1),
        meta_held(dex, debug_in(data, offset, refs)->Ok_0.1) == meta_held(dex, refs).plus(
            debug_needs(dex, debug_in(data, offset, refs)->Ok_0.0),
        ),
{
    let (line_start, a) = uleb_in(data, offset)->Ok_0;
    let (count, b) = uleb_in(data, a)->Ok_0;
    let none = Seq::<u32>::empty();
    let held = meta_held(dex, refs);
    let (names, (c, r)) = repeat(name_step(data), (b, refs), count as nat, none)->Ok_0;
    assert(held.plus(total(names_needs(dex, none))) =~= held);
    lemma_names_held(dex, data, b, refs, count as nat, none, held);
    let nothing = Seq::<DebugOp>::empty();
    let more = meta_held(dex, r);
    assert(more.plus(total(ops_needs(dex, nothing))) =~= more);
    lemma_ops_held(dex, data, c, r, nothing, more);
    let ops = debug_ops_in(data, c, r, nothing)->Ok_0.0;
    lemma_plus_chain(held, total(names_needs(dex, names)), total(ops_needs(dex, ops)));
}

} // verus!
