//! Debug items, read again after they were written with new indices.
use vstd::prelude::*;

use crate::collections::low32;
use crate::dex_format::uleb_in;
use crate::error::Error;
use crate::minidex::codeback::lemma_signed_read;
use crate::minidex::emit::{
    debug_bytes, debug_op_bytes, debug_ops_bytes, names_bytes, string_p1, then_uleb, type_p1,
};
use crate::minidex::leb::{stands_at, uleb_bytes};
use crate::minidex::members::lemma_number_read;
use crate::minidex::metadata::{debug_in, debug_op_in, debug_ops_in, lemma_debug_op_end, name_step};
use crate::minidex::readback::{
    begins_with, lemma_begins_chain, lemma_debug_ops_grow, lemma_names_grow,
};
use crate::minidex::reader::DexTables;
use crate::minidex::tables::Tables;
use crate::minidex::values::{DebugOp, Debugging, RefSets};
use crate::results::repeat;

verus! {

/// A debug instruction with the new index of everything that it names.
pub open spec fn mapped_op(op: DebugOp, m: Tables, dex: DexTables) -> DebugOp {
    match op {
        DebugOp::StartLocal(register, name, typ) => DebugOp::StartLocal(
            register,
            string_p1(name, m, dex)->Ok_0,
            type_p1(typ, m)->Ok_0,
        ),
        DebugOp::StartLocalExtended(register, name, typ, signature) => DebugOp::StartLocalExtended(
            register,
            string_p1(name, m, dex)->Ok_0,
            type_p1(typ, m)->Ok_0,
            string_p1(signature, m, dex)->Ok_0,
        ),
        DebugOp::SetFile(name) => DebugOp::SetFile(string_p1(name, m, dex)->Ok_0),
        other => other,
    }
}

pub open spec fn mapped_ops(ops: Seq<DebugOp>, m: Tables, dex: DexTables) -> Seq<DebugOp> {
    ops.map_values(|op: DebugOp| mapped_op(op, m, dex))
}

/// Parameter names with their new indices.
pub open spec fn mapped_p1(names: Seq<u32>, m: Tables, dex: DexTables) -> Seq<u32> {
    names.map_values(|n: u32| string_p1(n, m, dex)->Ok_0)
}

/// A debug item with the new index of everything that it names.
pub open spec fn mapped_debug(d: Debugging, m: Tables, dex: DexTables) -> Debugging {
    Debugging {
        line_start: d.line_start,
        parameter_names: mapped_p1(d.parameter_names, m, dex),
        ops: mapped_ops(d.ops, m, dex),
    }
}

/// A debug instruction as it is read: its opcode tells its form.
pub open spec fn op_ok(op: DebugOp) -> bool {
    match op {
        DebugOp::EndOrRestartLocal(opcode, _) => opcode == 5 || opcode == 6,
        DebugOp::Plain(opcode) => opcode > 6 && opcode != 9,
        _ => true,
    }
}

/// Debug instructions as they are read: the end comes last, and only there.
pub open spec fn ops_ok(ops: Seq<DebugOp>) -> bool {
    &&& ops.len() > 0
    &&& forall|i: int| 0 <= i < ops.len() ==> op_ok(#[trigger] ops[i])
    &&& forall|i: int|
        0 <= i < ops.len() ==> ((#[trigger] ops[i]) == DebugOp::End <==> i == ops.len() - 1)
}

proof fn lemma_opcode_read(file: Seq<u8>, base: int, whole: Seq<u8>, done: Seq<u8>, opcode: u8)
    requires
        stands_at(file, base, whole),
        begins_with(whole, done.push(opcode)),
    ensures
        base + done.len() < file.len(),
        file[base + done.len()] == opcode,
{
    let head = done.push(opcode);
    let k = done.len() as int;
    assert(head[k] == opcode);
    assert(whole[k] == head[k]);
    assert(file[base + k] == whole[k]);
}

proof fn lemma_local_back(
    file: Seq<u8>,
    base: int,
    whole: Seq<u8>,
    op: DebugOp,
    m: Tables,
    dex: DexTables,
    done: Seq<u8>,
    refs: RefSets,
)
    requires
        stands_at(file, base, whole),
        debug_op_bytes(op, m, dex, done) is Ok,
        begins_with(whole, debug_op_bytes(op, m, dex, done)->Ok_0),
        op is StartLocal || op is StartLocalExtended,
    ensures
        debug_op_in(file, base + done.len(), refs) is Ok,
        debug_op_in(file, base + done.len(), refs)->Ok_0.0 == mapped_op(op, m, dex),
        debug_op_in(file, base + done.len(), refs)->Ok_0.1 == base + debug_op_bytes(
            op,
            m,
            dex,
            done,
        )->Ok_0.len(),
{
    let all = debug_op_bytes(op, m, dex, done)->Ok_0;
    let (opcode, register, name, typ) = match op {
        DebugOp::StartLocal(register, name, typ) => (3u8, register, name, typ),
        DebugOp::StartLocalExtended(register, name, typ, _) => (4u8, register, name, typ),
        _ => (0u8, 0u32, 0u32, 0u32),
    };
    let a = done.push(opcode);
    let b = a + uleb_bytes(register);
    let c = b + uleb_bytes(string_p1(name, m, dex)->Ok_0);
    let d = c + uleb_bytes(type_p1(typ, m)->Ok_0);
    if let DebugOp::StartLocalExtended(_, _, _, signature) = op {
        let e = d + uleb_bytes(string_p1(signature, m, dex)->Ok_0);
        assert(all == e);
        assert(begins_with(e, d));
        lemma_begins_chain(d, e, whole);
        lemma_number_read(file, base, whole, d, string_p1(signature, m, dex)->Ok_0);
    } else {
        assert(all == d);
    }
    assert(begins_with(d, c));
    lemma_begins_chain(c, d, whole);
    assert(begins_with(c, b));
    lemma_begins_chain(b, c, whole);
    assert(begins_with(b, a));
    lemma_begins_chain(a, b, whole);
    lemma_opcode_read(file, base, whole, done, opcode);
    lemma_number_read(file, base, whole, a, register);
    lemma_number_read(file, base, whole, b, string_p1(name, m, dex)->Ok_0);
    lemma_number_read(file, base, whole, c, type_p1(typ, m)->Ok_0);
}

/// A debug instruction that was written behind `done` reads back with its new
/// indices.
proof fn lemma_op_back(
    file: Seq<u8>,
    base: int,
    whole: Seq<u8>,
    op: DebugOp,
    m: Tables,
    dex: DexTables,
    done: Seq<u8>,
    refs: RefSets,
)
    requires
        stands_at(file, base, whole),
        debug_op_bytes(op, m, dex, done) is Ok,
        begins_with(whole, debug_op_bytes(op, m, dex, done)->Ok_0),
        op_ok(op),
    ensures
        debug_op_in(file, base + done.len(), refs) is Ok,
        debug_op_in(file, base + done.len(), refs)->Ok_0.0 == mapped_op(op, m, dex),
        debug_op_in(file, base + done.len(), refs)->Ok_0.1 == base + debug_op_bytes(
            op,
            m,
            dex,
            done,
        )->Ok_0.len(),
{
    let all = debug_op_bytes(op, m, dex, done)->Ok_0;
    match op {
        DebugOp::End => {
            lemma_opcode_read(file, base, whole, done, 0);
        },
        DebugOp::AdvancePc(v) => {
            let a = done.push(1);
            assert(begins_with(all, a));
            lemma_begins_chain(a, all, whole);
            lemma_opcode_read(file, base, whole, done, 1);
            lemma_number_read(file, base, whole, a, v);
        },
        DebugOp::AdvanceLine(v) => {
            let a = done.push(2);
            assert(begins_with(all, a));
            lemma_begins_chain(a, all, whole);
            lemma_opcode_read(file, base, whole, done, 2);
            lemma_signed_read(file, base, whole, a, v);
        },
        DebugOp::EndOrRestartLocal(opcode, register) => {
            let a = done.push(opcode);
            assert(begins_with(all, a));
            lemma_begins_chain(a, all, whole);
            lemma_opcode_read(file, base, whole, done, opcode);
            lemma_number_read(file, base, whole, a, register);
        },
        DebugOp::SetFile(name) => {
            let a = done.push(9);
            assert(begins_with(all, a));
            lemma_begins_chain(a, all, whole);
            lemma_opcode_read(file, base, whole, done, 9);
            lemma_number_read(file, base, whole, a, string_p1(name, m, dex)->Ok_0);
        },
        DebugOp::Plain(opcode) => {
            lemma_opcode_read(file, base, whole, done, opcode);
        },
        _ => {
            lemma_local_back(file, base, whole, op, m, dex, done, refs);
        },
    }
}

proof fn lemma_ops_back(
    file: Seq<u8>,
    base: int,
    whole: Seq<u8>,
    ops: Seq<DebugOp>,
    i: int,
    m: Tables,
    dex: DexTables,
    done: Seq<u8>,
    refs: RefSets,
)
    requires
        stands_at(file, base, whole),
        0 <= i < ops.len(),
        debug_ops_bytes(ops, i, m, dex, done) is Ok,
        begins_with(whole, debug_ops_bytes(ops, i, m, dex, done)->Ok_0),
        ops_ok(ops),
    ensures
        debug_ops_in(file, base + done.len(), refs, mapped_ops(ops.take(i), m, dex)) is Ok,
        debug_ops_in(
            file,
            base + done.len(),
            refs,
            mapped_ops(ops.take(i), m, dex),
        )->Ok_0.0 == mapped_ops(ops, m, dex),
    decreases ops.len() - i,
{
    let op = ops[i];
    let at = base + done.len();
    let more = debug_op_bytes(op, m, dex, done)->Ok_0;
    lemma_debug_ops_grow(ops, i + 1, m, dex, more);
    lemma_begins_chain(more, debug_ops_bytes(ops, i, m, dex, done)->Ok_0, whole);
    lemma_op_back(file, base, whole, op, m, dex, done, refs);
    lemma_debug_op_end(file, at, refs);
    let next = debug_op_in(file, at, refs)->Ok_0.2;
    let item = mapped_op(op, m, dex);
    assert(mapped_ops(ops.take(i), m, dex).push(item) =~= mapped_ops(ops.take(i + 1), m, dex));
    if i == ops.len() - 1 {
        assert(op == DebugOp::End);
        assert(ops.take(i + 1) =~= ops);
    } else {
        assert(op != DebugOp::End);
        lemma_ops_back(file, base, whole, ops, i + 1, m, dex, more, next);
    }
}

proof fn lemma_names_back(
    file: Seq<u8>,
    base: int,
    whole: Seq<u8>,
    names: Seq<u32>,
    i: int,
    m: Tables,
    dex: DexTables,
    done: Seq<u8>,
    refs: RefSets,
)
    requires
        stands_at(file, base, whole),
        0 <= i <= names.len(),
        names_bytes(names, i, m, dex, done) is Ok,
        begins_with(whole, names_bytes(names, i, m, dex, done)->Ok_0),
    ensures
        ({
            let r = repeat(
                name_step(file),
                (base + done.len(), refs),
                (names.len() - i) as nat,
                mapped_p1(names.take(i), m, dex),
            );
            &&& r is Ok
            &&& r->Ok_0.0 == mapped_p1(names, m, dex)
            &&& r->Ok_0.1.0 == base + names_bytes(names, i, m, dex, done)->Ok_0.len()
        }),
    decreases names.len() - i,
{
    if i < names.len() {
        let value = string_p1(names[i], m, dex)->Ok_0;
        let more = done + uleb_bytes(value);
        assert(then_uleb(Ok(done), string_p1(names[i], m, dex)) == Ok::<Seq<u8>, Error>(more));
        lemma_names_grow(names, i + 1, m, dex, more);
        lemma_begins_chain(more, names_bytes(names, i, m, dex, done)->Ok_0, whole);
        lemma_number_read(file, base, whole, done, value);
        let next = refs.with_string_p1(value);
        assert(name_step(file)((base + done.len(), refs)) == Ok::<(u32, (int, RefSets)), Error>(
            (value, (base + more.len(), next)),
        ));
        assert(mapped_p1(names.take(i), m, dex).push(value) =~= mapped_p1(
            names.take(i + 1),
            m,
            dex,
        ));
        lemma_names_back(file, base, whole, names, i + 1, m, dex, more, next);
    } else {
        assert(names.take(i) =~= names);
    }
}

/// A debug item that was written behind `done` reads back with its new
/// indices.
#[verifier::spinoff_prover]
pub proof fn lemma_debug_back(
    file: Seq<u8>,
    base: int,
    whole: Seq<u8>,
    d: Debugging,
    m: Tables,
    dex: DexTables,
    done: Seq<u8>,
    refs: RefSets,
)
    requires
        stands_at(file, base, whole),
        whole.len() <= u32::MAX,
        debug_bytes(d, m, dex, done) is Ok,
        begins_with(whole, debug_bytes(d, m, dex, done)->Ok_0),
        ops_ok(d.ops),
    ensures
        debug_in(file, base + done.len(), refs) is Ok,
        debug_in(file, base + done.len(), refs)->Ok_0.0 == mapped_debug(d, m, dex),
{
    let n = low32(d.parameter_names.len() as int);
    let b = done + uleb_bytes(d.line_start) + uleb_bytes(n);
    let c = names_bytes(d.parameter_names, 0, m, dex, b)->Ok_0;
    lemma_debug_head(file, base, whole, d, m, dex, done);
    assert(mapped_p1(d.parameter_names.take(0), m, dex) =~= Seq::<u32>::empty());
    lemma_names_back(file, base, whole, d.parameter_names, 0, m, dex, b, refs);
    let r = repeat(
        name_step(file),
        (base + b.len(), refs),
        d.parameter_names.len(),
        Seq::<u32>::empty(),
    )->Ok_0.1.1;
    assert(mapped_ops(d.ops.take(0), m, dex) =~= Seq::<DebugOp>::empty());
    lemma_ops_back(file, base, whole, d.ops, 0, m, dex, c, r);
}

/// The line and the count of a debug item read back.
#[verifier::spinoff_prover]
proof fn lemma_debug_head(
    file: Seq<u8>,
    base: int,
    whole: Seq<u8>,
    d: Debugging,
    m: Tables,
    dex: DexTables,
    done: Seq<u8>,
)
    requires
        stands_at(file, base, whole),
        whole.len() <= u32::MAX,
        debug_bytes(d, m, dex, done) is Ok,
        begins_with(whole, debug_bytes(d, m, dex, done)->Ok_0),
    ensures
        ({
            let n = low32(d.parameter_names.len() as int);
            let at = base + done.len();
            let second = at + uleb_bytes(d.line_start).len();
            let b = done + uleb_bytes(d.line_start) + uleb_bytes(n);
            let c = names_bytes(d.parameter_names, 0, m, dex, b);
            &&& n == d.parameter_names.len()
            &&& uleb_in(file, at) == Ok::<(u32, int), Error>((d.line_start, second))
            &&& uleb_in(file, second) == Ok::<(u32, int), Error>((n, base + b.len()))
            &&& c is Ok
            &&& begins_with(whole, c->Ok_0)
        }),
{
    let n = low32(d.parameter_names.len() as int);
    let a = done + uleb_bytes(d.line_start);
    let b = a + uleb_bytes(n);
    let c = names_bytes(d.parameter_names, 0, m, dex, b)->Ok_0;
    lemma_debug_ops_grow(d.ops, 0, m, dex, c);
    lemma_begins_chain(c, debug_bytes(d, m, dex, done)->Ok_0, whole);
    lemma_names_grow(d.parameter_names, 0, m, dex, b);
    lemma_names_length(d.parameter_names, 0, m, dex, b);
    lemma_begins_chain(b, c, whole);
    assert(begins_with(b, a));
    lemma_begins_chain(a, b, whole);
    lemma_number_read(file, base, whole, done, d.line_start);
    lemma_number_read(file, base, whole, a, n);
}

proof fn lemma_names_length(names: Seq<u32>, i: int, m: Tables, dex: DexTables, done: Seq<u8>)
    requires
        0 <= i <= names.len(),
        names_bytes(names, i, m, dex, done) is Ok,
    ensures
        done.len() + names.len() - i <= names_bytes(names, i, m, dex, done)->Ok_0.len(),
    decreases names.len() - i,
{
    if i < names.len() {
        let more = done + uleb_bytes(string_p1(names[i], m, dex)->Ok_0);
        lemma_names_length(names, i + 1, m, dex, more);
    }
}

// ---------------------------------------------------------------------------
// Debug items are well formed
// ---------------------------------------------------------------------------

proof fn lemma_op_in_ok(data: Seq<u8>, at: int, refs: RefSets)
    requires
        debug_op_in(data, at, refs) is Ok,
    ensures
        op_ok(debug_op_in(data, at, refs)->Ok_0.0),
{
}

proof fn lemma_ops_in_ok(data: Seq<u8>, at: int, refs: RefSets, ops: Seq<DebugOp>)
    requires
        debug_ops_in(data, at, refs, ops) is Ok,
        forall|i: int|
            0 <= i < ops.len() ==> op_ok(#[trigger] ops[i]) && ops[i] != DebugOp::End,
    ensures
        ops_ok(debug_ops_in(data, at, refs, ops)->Ok_0.0),
    decreases data.len() - at,
{
    let (op, end, r) = debug_op_in(data, at, refs)->Ok_0;
    lemma_op_in_ok(data, at, refs);
    if op != DebugOp::End {
        lemma_debug_op_end(data, at, refs);
        lemma_ops_in_ok(data, end, r, ops.push(op));
    }
}

/// A debug item that was read is well formed.
pub proof fn lemma_debug_in_ok(data: Seq<u8>, offset: int, refs: RefSets)
    requires
        debug_in(data, offset, refs) is Ok,
    ensures
        ops_ok(debug_in(data, offset, refs)->Ok_0.0.ops),
{
    let a = uleb_in(data, offset)->Ok_0.1;
    let (count, b) = uleb_in(data, a)->Ok_0;
    let (c, r) = repeat(name_step(data), (b, refs), count as nat, Seq::<u32>::empty())->Ok_0.1;
    lemma_ops_in_ok(data, c, r, Seq::empty());
}

} // verus!
