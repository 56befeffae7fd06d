//! Writing again what was written with new indices: where these stay what they
//! are, the same bytes come out.
use vstd::prelude::*;

use crate::collections::low32;
use crate::error::Error;
use crate::minidex::debugback::{mapped_debug, mapped_op, mapped_ops, mapped_p1};
use crate::minidex::emit::{
    annotation_bytes, array_bytes, debug_bytes, debug_op_bytes, debug_ops_bytes, elements_bytes,
    indexed_bytes, mapped_index, names_bytes, string_p1, then_uleb, type_p1, value_bytes,
    values_bytes,
};
use crate::minidex::holdings::string_parts;
use crate::minidex::leb::uleb_bytes;
use crate::minidex::reader::DexTables;
use crate::minidex::tables::Tables;
use crate::minidex::valueback::{
    annotation_ok, mapped_annotation, mapped_names, mapped_value, mapped_values, value_ok,
    values_ok,
};
use crate::minidex::values::{Annotation, DebugOp, Debugging, IndexKind, Value};
use crate::minidex::wants::{
    alike, annotation_needs, debug_needs, index_needs, kind_needs, name_needs, names_needs,
    op_needs, ops_needs, value_needs, values_needs,
};

verus! {

/// Whether every identifier that has a new index keeps its index.
pub open spec fn fixed(t: DexTables, m: Tables) -> bool {
    &&& forall|k: u32|
        (#[trigger] m.mapped_string(t, k)) is Ok ==> m.mapped_string(t, k)->Ok_0 == k
    &&& forall|k: u32| (#[trigger] m.mapped_type(k)) is Ok ==> m.mapped_type(k)->Ok_0 == k
    &&& forall|k: u32| (#[trigger] m.mapped_proto(k)) is Ok ==> m.mapped_proto(k)->Ok_0 == k
    &&& forall|k: u32| (#[trigger] m.mapped_field(k)) is Ok ==> m.mapped_field(k)->Ok_0 == k
    &&& forall|k: u32| (#[trigger] m.mapped_method(k)) is Ok ==> m.mapped_method(k)->Ok_0 == k
}

/// Whether what has an index in the first file has one in the second too.
pub open spec fn served(dex: DexTables, m: Tables, t: DexTables, n: Tables) -> bool {
    &&& forall|k: u32|
        (#[trigger] m.mapped_string(dex, k)) is Ok ==> n.mapped_string(
            t,
            m.mapped_string(dex, k)->Ok_0,
        ) is Ok
    &&& forall|k: u32|
        (#[trigger] m.mapped_type(k)) is Ok ==> n.mapped_type(m.mapped_type(k)->Ok_0 as u32) is Ok
    &&& forall|k: u32|
        (#[trigger] m.mapped_proto(k)) is Ok ==> n.mapped_proto(
            m.mapped_proto(k)->Ok_0 as u32,
        ) is Ok
    &&& forall|k: u32|
        (#[trigger] m.mapped_field(k)) is Ok ==> n.mapped_field(
            m.mapped_field(k)->Ok_0 as u32,
        ) is Ok
    &&& forall|k: u32|
        (#[trigger] m.mapped_method(k)) is Ok ==> n.mapped_method(
            m.mapped_method(k)->Ok_0 as u32,
        ) is Ok
}

/// A source, the file that was made of it, and the tables of a second file that
/// is made of that one.
pub open spec fn twice(dex: DexTables, m: Tables, t: DexTables, n: Tables) -> bool {
    alike(dex, t, m) && fixed(t, n)
}

// ---------------------------------------------------------------------------
// Encoded values
// ---------------------------------------------------------------------------

/// What holds of a value that is written twice.
spec fn value_again(v: Value, dex: DexTables, m: Tables, t: DexTables, n: Tables) -> bool {
    let w = mapped_value(v, m, dex);
    &&& value_needs(t, w) == value_needs(dex, v)
    &&& (served(dex, m, t, n) || value_bytes(w, n, t) is Ok) ==> value_bytes(w, n, t) == value_bytes(v, m, dex)
}

proof fn lemma_index_again(
    kind: IndexKind,
    id: u32,
    dex: DexTables,
    m: Tables,
    t: DexTables,
    n: Tables,
)
    requires
        twice(dex, m, t, n),
        mapped_index(kind, id, m, dex) is Ok,
    ensures
        ({
            let index = mapped_index(kind, id, m, dex)->Ok_0;
            &&& index_needs(t, kind, index) == index_needs(dex, kind, id)
            &&& (served(dex, m, t, n) || mapped_index(kind, index, n, t) is Ok) ==> mapped_index(
                kind,
                index,
                n,
                t,
            ) == Ok::<u32, Error>(index)
        }),
{
    let index = mapped_index(kind, id, m, dex)->Ok_0;
    match kind {
        IndexKind::Proto => {
            assert(m.mapped_proto(id) is Ok);
            assert(n.mapped_proto(index) is Ok ==> n.mapped_proto(index)->Ok_0 == index);
        },
        IndexKind::String => {
            assert(m.mapped_string(dex, id) is Ok);
            assert(n.mapped_string(t, index) is Ok ==> n.mapped_string(t, index)->Ok_0 == index);
        },
        IndexKind::Type => {
            assert(m.mapped_type(id) is Ok);
            assert(n.mapped_type(index) is Ok ==> n.mapped_type(index)->Ok_0 == index);
        },
        IndexKind::Field => {
            assert(m.mapped_field(id) is Ok);
            assert(n.mapped_field(index) is Ok ==> n.mapped_field(index)->Ok_0 == index);
        },
        IndexKind::Enum => {
            assert(m.mapped_field(id) is Ok);
            assert(n.mapped_field(index) is Ok ==> n.mapped_field(index)->Ok_0 == index);
        },
        IndexKind::Method => {
            assert(m.mapped_method(id) is Ok);
            assert(n.mapped_method(index) is Ok ==> n.mapped_method(index)->Ok_0 == index);
        },
    }
}

proof fn lemma_value_again(v: Value, dex: DexTables, m: Tables, t: DexTables, n: Tables)
    requires
        twice(dex, m, t, n),
        value_ok(v),
        value_bytes(v, m, dex) is Ok,
    ensures
        value_again(v, dex, m, t, n),
    decreases v, 0int,
{
    let w = mapped_value(v, m, dex);
    match v {
        Value::Indexed(kind, id) => {
            let index = mapped_index(kind, id, m, dex)->Ok_0;
            assert(w == Value::Indexed(kind, index));
            lemma_index_again(kind, id, dex, m, t, n);
            assert(value_bytes(v, m, dex) == indexed_bytes(kind, id, m, dex));
            assert(value_bytes(w, n, t) == indexed_bytes(kind, index, n, t));
        },
        Value::Array(items) => {
            let head = seq![0x1cu8] + uleb_bytes(low32(items.len() as int));
            lemma_values_again(items, 0, dex, m, t, n, head);
            let list = mapped_values(items, m, dex);
            assert(w->Array_0 =~= list);
            assert(values_needs(t, list) =~= values_needs(dex, items)) by {
                assert forall|i: int| 0 <= i < items.len() implies values_needs(t, list)[i]
                    == values_needs(dex, items)[i] by {
                    assert(value_again(items[i], dex, m, t, n));
                }
            }
        },
        Value::Annotation(a) => {
            lemma_annotation_again(a, dex, m, t, n, seq![0x1du8]);
        },
        _ => {},
    }
}

proof fn lemma_values_again(
    items: Seq<Value>,
    i: int,
    dex: DexTables,
    m: Tables,
    t: DexTables,
    n: Tables,
    done: Seq<u8>,
)
    requires
        twice(dex, m, t, n),
        0 <= i,
        values_ok(items),
        values_bytes(items, i, m, dex, done) is Ok,
    ensures
        forall|k: int| i <= k < items.len() ==> value_again(#[trigger] items[k], dex, m, t, n),
        (served(dex, m, t, n) || values_bytes(mapped_values(items, m, dex), i, n, t, done) is Ok) ==> values_bytes(
            mapped_values(items, m, dex),
            i,
            n,
            t,
            done,
        ) == values_bytes(items, i, m, dex, done),
    decreases items, items.len() - i,
{
    if i < items.len() {
        let bytes = value_bytes(items[i], m, dex)->Ok_0;
        lemma_value_again(items[i], dex, m, t, n);
        lemma_values_again(items, i + 1, dex, m, t, n, done + bytes);
        assert(mapped_values(items, m, dex)[i] == mapped_value(items[i], m, dex));
    }
}

/// An annotation that is written twice needs the same and gives the same bytes.
pub proof fn lemma_annotation_again(
    a: Annotation,
    dex: DexTables,
    m: Tables,
    t: DexTables,
    n: Tables,
    done: Seq<u8>,
)
    requires
        twice(dex, m, t, n),
        annotation_ok(a),
        annotation_bytes(a, m, dex, done) is Ok,
    ensures
        annotation_needs(t, mapped_annotation(a, m, dex)) == annotation_needs(dex, a),
        (served(dex, m, t, n) || annotation_bytes(mapped_annotation(a, m, dex), n, t, done) is Ok) ==> annotation_bytes(
            mapped_annotation(a, m, dex),
            n,
            t,
            done,
        ) == annotation_bytes(a, m, dex, done),
    decreases a, 0int,
{
    let b = mapped_annotation(a, m, dex);
    let index = m.mapped_type(a.type_idx)->Ok_0;
    assert(b.type_idx == index as u32);
    assert(n.mapped_type(b.type_idx) is Ok ==> n.mapped_type(b.type_idx)->Ok_0 == index);
    assert(b.values =~= mapped_values(a.values, m, dex));
    lemma_elements_again(
        a.names,
        a.values,
        0,
        dex,
        m,
        t,
        n,
        done + uleb_bytes(index as u32) + uleb_bytes(low32(a.names.len() as int)),
    );
    assert(values_needs(t, b.values) =~= values_needs(dex, a.values)) by {
        assert forall|i: int| 0 <= i < a.values.len() implies values_needs(t, b.values)[i]
            == values_needs(dex, a.values)[i] by {
            assert(value_again(a.values[i], dex, m, t, n));
        }
    }
    assert(string_parts(t, b.names) =~= string_parts(dex, a.names)) by {
        assert forall|i: int| 0 <= i < a.names.len() implies string_parts(t, b.names)[i]
            == string_parts(dex, a.names)[i] by {
            assert(m.mapped_string(dex, a.names[i]) is Ok);
        }
    }
}

proof fn lemma_elements_again(
    names: Seq<u32>,
    values: Seq<Value>,
    i: int,
    dex: DexTables,
    m: Tables,
    t: DexTables,
    n: Tables,
    done: Seq<u8>,
)
    requires
        twice(dex, m, t, n),
        0 <= i,
        names.len() == values.len(),
        values_ok(values),
        elements_bytes(names, values, i, m, dex, done) is Ok,
    ensures
        forall|k: int| i <= k < values.len() ==> value_again(#[trigger] values[k], dex, m, t, n),
        forall|k: int|
            i <= k < values.len() ==> m.mapped_string(dex, #[trigger] names[k]) is Ok,
        (served(dex, m, t, n) || elements_bytes(
            mapped_names(names, m, dex),
            mapped_values(values, m, dex),
            i,
            n,
            t,
            done,
        ) is Ok) ==> elements_bytes(
            mapped_names(names, m, dex),
            mapped_values(values, m, dex),
            i,
            n,
            t,
            done,
        ) == elements_bytes(names, values, i, m, dex, done),
    decreases values, values.len() - i,
{
    if i < values.len() {
        let name = m.mapped_string(dex, names[i])->Ok_0;
        let bytes = value_bytes(values[i], m, dex)->Ok_0;
        lemma_value_again(values[i], dex, m, t, n);
        lemma_elements_again(
            names,
            values,
            i + 1,
            dex,
            m,
            t,
            n,
            done + uleb_bytes(name) + bytes,
        );
        assert(mapped_values(values, m, dex)[i] == mapped_value(values[i], m, dex));
        assert(n.mapped_string(t, name) is Ok ==> n.mapped_string(t, name)->Ok_0 == name);
    }
}

/// A sequence of values that is written twice needs the same and gives the same
/// bytes.
pub proof fn lemma_array_again(
    items: Seq<Value>,
    dex: DexTables,
    m: Tables,
    t: DexTables,
    n: Tables,
)
    requires
        twice(dex, m, t, n),
        values_ok(items),
        array_bytes(items, m, dex) is Ok,
    ensures
        values_needs(t, mapped_values(items, m, dex)) == values_needs(dex, items),
        (served(dex, m, t, n) || array_bytes(mapped_values(items, m, dex), n, t) is Ok) ==> array_bytes(
            mapped_values(items, m, dex),
            n,
            t,
        ) == array_bytes(items, m, dex),
{
    let list = mapped_values(items, m, dex);
    lemma_values_again(items, 0, dex, m, t, n, uleb_bytes(low32(items.len() as int)));
    assert(values_needs(t, list) =~= values_needs(dex, items)) by {
        assert forall|i: int| 0 <= i < items.len() implies values_needs(t, list)[i]
            == values_needs(dex, items)[i] by {
            assert(value_again(items[i], dex, m, t, n));
        }
    }
}

// ---------------------------------------------------------------------------
// Debug items
// ---------------------------------------------------------------------------

proof fn lemma_name_again(value: u32, dex: DexTables, m: Tables, t: DexTables, n: Tables)
    requires
        twice(dex, m, t, n),
        string_p1(value, m, dex) is Ok,
    ensures
        ({
            let new = string_p1(value, m, dex)->Ok_0;
            &&& name_needs(t, new) == name_needs(dex, value)
            &&& (served(dex, m, t, n) || string_p1(new, n, t) is Ok) ==> string_p1(new, n, t) == Ok::<
                u32,
                Error,
            >(new)
        }),
{
    if value > 0 {
        let index = m.mapped_string(dex, (value - 1) as u32)->Ok_0;
        assert(m.mapped_string(dex, (value - 1) as u32) is Ok);
        assert(n.mapped_string(t, index) is Ok ==> n.mapped_string(t, index)->Ok_0 == index);
    }
}

proof fn lemma_kind_again(value: u32, dex: DexTables, m: Tables, t: DexTables, n: Tables)
    requires
        twice(dex, m, t, n),
        type_p1(value, m) is Ok,
    ensures
        ({
            let new = type_p1(value, m)->Ok_0;
            &&& kind_needs(t, new) == kind_needs(dex, value)
            &&& (served(dex, m, t, n) || type_p1(new, n) is Ok) ==> type_p1(new, n) == Ok::<u32, Error>(new)
        }),
{
    if value > 0 {
        let index = m.mapped_type((value - 1) as u32)->Ok_0;
        assert(m.mapped_type((value - 1) as u32) is Ok);
        assert(n.mapped_type(index as u32) is Ok ==> n.mapped_type(index as u32)->Ok_0 == index);
    }
}

proof fn lemma_op_again(
    op: DebugOp,
    dex: DexTables,
    m: Tables,
    t: DexTables,
    n: Tables,
    done: Seq<u8>,
)
    requires
        twice(dex, m, t, n),
        debug_op_bytes(op, m, dex, done) is Ok,
    ensures
        op_needs(t, mapped_op(op, m, dex)) == op_needs(dex, op),
        (served(dex, m, t, n) || debug_op_bytes(mapped_op(op, m, dex), n, t, done) is Ok) ==> debug_op_bytes(
            mapped_op(op, m, dex),
            n,
            t,
            done,
        ) == debug_op_bytes(op, m, dex, done),
{
    match op {
        DebugOp::StartLocal(_, name, typ) => {
            lemma_name_again(name, dex, m, t, n);
            lemma_kind_again(typ, dex, m, t, n);
        },
        DebugOp::StartLocalExtended(_, name, typ, signature) => {
            lemma_name_again(name, dex, m, t, n);
            lemma_kind_again(typ, dex, m, t, n);
            lemma_name_again(signature, dex, m, t, n);
        },
        DebugOp::SetFile(name) => {
            lemma_name_again(name, dex, m, t, n);
        },
        _ => {},
    }
}

proof fn lemma_ops_again(
    ops: Seq<DebugOp>,
    i: int,
    dex: DexTables,
    m: Tables,
    t: DexTables,
    n: Tables,
    done: Seq<u8>,
)
    requires
        twice(dex, m, t, n),
        0 <= i,
        debug_ops_bytes(ops, i, m, dex, done) is Ok,
    ensures
        forall|k: int|
            i <= k < ops.len() ==> op_needs(t, mapped_op(#[trigger] ops[k], m, dex)) == op_needs(
                dex,
                ops[k],
            ),
        (served(dex, m, t, n) || debug_ops_bytes(mapped_ops(ops, m, dex), i, n, t, done) is Ok) ==> debug_ops_bytes(
            mapped_ops(ops, m, dex),
            i,
            n,
            t,
            done,
        ) == debug_ops_bytes(ops, i, m, dex, done),
    decreases ops.len() - i,
{
    if i < ops.len() {
        lemma_op_again(ops[i], dex, m, t, n, done);
        lemma_ops_again(
            ops,
            i + 1,
            dex,
            m,
            t,
            n,
            debug_op_bytes(ops[i], m, dex, done)->Ok_0,
        );
        assert(mapped_ops(ops, m, dex)[i] == mapped_op(ops[i], m, dex));
    }
}

proof fn lemma_names_again(
    names: Seq<u32>,
    i: int,
    dex: DexTables,
    m: Tables,
    t: DexTables,
    n: Tables,
    done: Seq<u8>,
)
    requires
        twice(dex, m, t, n),
        0 <= i,
        names_bytes(names, i, m, dex, done) is Ok,
    ensures
        forall|k: int|
            i <= k < names.len() ==> name_needs(t, string_p1(#[trigger] names[k], m, dex)->Ok_0)
                == name_needs(dex, names[k]),
        (served(dex, m, t, n) || names_bytes(mapped_p1(names, m, dex), i, n, t, done) is Ok) ==> names_bytes(
            mapped_p1(names, m, dex),
            i,
            n,
            t,
            done,
        ) == names_bytes(names, i, m, dex, done),
    decreases names.len() - i,
{
    if i < names.len() {
        lemma_name_again(names[i], dex, m, t, n);
        lemma_names_again(
            names,
            i + 1,
            dex,
            m,
            t,
            n,
            then_uleb(Ok(done), string_p1(names[i], m, dex))->Ok_0,
        );
        assert(mapped_p1(names, m, dex)[i] == string_p1(names[i], m, dex)->Ok_0);
    }
}

/// A debug item that is written twice needs the same and gives the same bytes.
pub proof fn lemma_debug_again(
    d: Debugging,
    dex: DexTables,
    m: Tables,
    t: DexTables,
    n: Tables,
    done: Seq<u8>,
)
    requires
        twice(dex, m, t, n),
        debug_bytes(d, m, dex, done) is Ok,
    ensures
        debug_needs(t, mapped_debug(d, m, dex)) == debug_needs(dex, d),
        (served(dex, m, t, n) || debug_bytes(mapped_debug(d, m, dex), n, t, done) is Ok) ==> debug_bytes(
            mapped_debug(d, m, dex),
            n,
            t,
            done,
        ) == debug_bytes(d, m, dex, done),
{
    let e = mapped_debug(d, m, dex);
    let head = done + uleb_bytes(d.line_start) + uleb_bytes(
        low32(d.parameter_names.len() as int),
    );
    lemma_names_again(d.parameter_names, 0, dex, m, t, n, head);
    let middle = names_bytes(d.parameter_names, 0, m, dex, head)->Ok_0;
    lemma_ops_again(d.ops, 0, dex, m, t, n, middle);
    assert(names_needs(t, e.parameter_names) =~= names_needs(dex, d.parameter_names));
    assert(ops_needs(t, e.ops) =~= ops_needs(dex, d.ops));
}

} // verus!
