//! Encoded values and annotations, read again after they were written with new
//! indices.
use vstd::prelude::*;

use crate::collections::low32;
use crate::dex_format::{bytes_in, lemma_uleb_end, uleb_in};
use crate::error::Error;
use crate::minidex::emit::{
    annotation_bytes, array_bytes, elements_bytes, index_bytes, index_width, le32_bytes,
    mapped_index, value_bytes, values_bytes,
};
use crate::minidex::leb::{stands_at, uleb_bytes};
use crate::minidex::members::lemma_number_read;
use crate::minidex::readback::{begins_with, lemma_begins_chain, lemma_elements_grow};
use crate::minidex::reader::DexTables;
use crate::minidex::tables::Tables;
use crate::minidex::values::{
    annotation_in, array_in, elements_in, kind_of, le_number, lemma_index_number, value_in,
    values_in, Annotation, IndexKind, RefSets, Value,
};

verus! {

/// A value with the new index of everything that it points at.
pub open spec fn mapped_value(v: Value, m: Tables, dex: DexTables) -> Value
    decreases v,
{
    match v {
        Value::Indexed(kind, id) => Value::Indexed(kind, mapped_index(kind, id, m, dex)->Ok_0),
        Value::Array(items) => Value::Array(
            Seq::new(
                items.len(),
                |i: int|
                    if 0 <= i < items.len() {
                        mapped_value(items[i], m, dex)
                    } else {
                        Value::Null
                    },
            ),
        ),
        Value::Annotation(a) => Value::Annotation(mapped_annotation(a, m, dex)),
        other => other,
    }
}

/// An annotation with the new index of everything that it points at.
pub open spec fn mapped_annotation(a: Annotation, m: Tables, dex: DexTables) -> Annotation
    decreases a,
{
    Annotation {
        type_idx: m.mapped_type(a.type_idx)->Ok_0 as u32,
        names: mapped_names(a.names, m, dex),
        values: Seq::new(
            a.values.len(),
            |i: int|
                if 0 <= i < a.values.len() {
                    mapped_value(a.values[i], m, dex)
                } else {
                    Value::Null
                },
        ),
    }
}

pub open spec fn mapped_names(names: Seq<u32>, m: Tables, dex: DexTables) -> Seq<u32> {
    names.map_values(|n: u32| m.mapped_string(dex, n)->Ok_0)
}

pub open spec fn mapped_values(items: Seq<Value>, m: Tables, dex: DexTables) -> Seq<Value> {
    items.map_values(|v: Value| mapped_value(v, m, dex))
}

/// A value as it is read: three bits of a truth value, one to eight bytes of a
/// number, and a name for each element of an annotation.
pub open spec fn value_ok(v: Value) -> bool
    decreases v,
{
    match v {
        Value::Array(items) => forall|i: int|
            0 <= i < items.len() ==> value_ok(#[trigger] items[i]),
        Value::Annotation(a) => annotation_ok(a),
        Value::Boolean(b) => b < 8,
        Value::Primitive(code, bytes) => 1 <= bytes.len() <= 8 && code < 0x20 && code != 0x16
            && kind_of(code) is None && code < 0x1c,
        _ => true,
    }
}

pub open spec fn annotation_ok(a: Annotation) -> bool
    decreases a,
{
    a.names.len() == a.values.len() && forall|i: int|
        0 <= i < a.values.len() ==> value_ok(#[trigger] a.values[i])
}

pub open spec fn values_ok(items: Seq<Value>) -> bool {
    forall|i: int| 0 <= i < items.len() ==> value_ok(#[trigger] items[i])
}

// ---------------------------------------------------------------------------
// Indices and numbers
// ---------------------------------------------------------------------------

proof fn lemma_index_back(file: Seq<u8>, at: int, kind: IndexKind, index: u32, refs: RefSets)
    requires
        stands_at(file, at, index_bytes(kind, index)),
    ensures
        value_in(file, at, refs) == Ok::<(Value, int, RefSets), Error>(
            (
                Value::Indexed(kind, index),
                at + index_bytes(kind, index).len(),
                refs.with(kind, index),
            ),
        ),
{
    let part = index_bytes(kind, index);
    let width = index_width(index);
    let digits = le32_bytes(index).take(width);
    assert(part.len() == 1 + width);
    assert(file[at + 0] == part[0]);
    let first = ((width - 1) * 32 + kind.type_code()) as u8;
    assert(part[0] == first);
    assert((first % 32) as u8 == kind.type_code());
    assert((first / 32) as u8 == width - 1);
    assert(file.subrange(at + 1, at + 1 + width) =~= digits) by {
        assert forall|i: int| 0 <= i < width implies file.subrange(at + 1, at + 1 + width)[i]
            == digits[i] by {
            assert(part[1 + i] == digits[i]);
            assert(file[at + (1 + i)] == part[1 + i]);
        }
    }
    lemma_digits(index);
    lemma_index_number(digits);
}

/// The leading bytes of an index spell it.
proof fn lemma_digits(index: u32)
    ensures
        le_number(le32_bytes(index).take(index_width(index))) == index,
{
    reveal_with_fuel(le_number, 5);
    let d = le32_bytes(index).take(index_width(index));
    assert(d[0] == index % 256);
    if d.len() >= 2 {
        assert(d.skip(1)[0] == d[1]);
    }
    if d.len() >= 3 {
        assert(d.skip(1).skip(1)[0] == d[2]);
    }
    if d.len() == 4 {
        assert(d.skip(1).skip(1).skip(1)[0] == d[3]);
    }
}

proof fn lemma_tag(size: u8, code: u8)
    by (bit_vector)
    requires
        size < 8,
        code < 32,
    ensures
        (size * 32) as u8 | code == size * 32 + code,
{
}

proof fn lemma_primitive_back(file: Seq<u8>, at: int, code: u8, bytes: Seq<u8>, refs: RefSets)
    requires
        value_ok(Value::Primitive(code, bytes)),
        stands_at(file, at, seq![((bytes.len() - 1) * 32) as u8 | code] + bytes),
    ensures
        value_in(file, at, refs) == Ok::<(Value, int, RefSets), Error>(
            (Value::Primitive(code, bytes), at + 1 + bytes.len(), refs),
        ),
{
    let size = (bytes.len() - 1) as u8;
    let tag = ((bytes.len() - 1) * 32) as u8 | code;
    let part = seq![tag] + bytes;
    lemma_tag(size, code);
    assert(tag == size * 32 + code);
    assert(file[at + 0] == part[0]);
    assert((tag % 32) as u8 == code);
    assert((tag / 32) as u8 == size);
    assert(file.subrange(at + 1, at + 1 + bytes.len()) =~= bytes) by {
        assert forall|i: int| 0 <= i < bytes.len() implies file.subrange(
            at + 1,
            at + 1 + bytes.len(),
        )[i] == bytes[i] by {
            assert(part[1 + i] == bytes[i]);
            assert(file[at + (1 + i)] == part[1 + i]);
        }
    }
}

// ---------------------------------------------------------------------------
// Values
// ---------------------------------------------------------------------------

pub proof fn lemma_values_grow(items: Seq<Value>, i: int, m: Tables, dex: DexTables, done: Seq<u8>)
    requires
        values_bytes(items, i, m, dex, done) is Ok,
    ensures
        begins_with(values_bytes(items, i, m, dex, done)->Ok_0, done),
    decreases items.len() - i,
{
    if 0 <= i < items.len() {
        let more = done + value_bytes(items[i], m, dex)->Ok_0;
        lemma_values_grow(items, i + 1, m, dex, more);
        lemma_begins_chain(done, more, values_bytes(items, i, m, dex, done)->Ok_0);
    }
}

/// A value takes at least one byte.
proof fn lemma_value_length(v: Value, m: Tables, dex: DexTables)
    requires
        value_bytes(v, m, dex) is Ok,
    ensures
        value_bytes(v, m, dex)->Ok_0.len() >= 1,
{
    match v {
        Value::Array(items) => {
            let head = seq![0x1cu8] + uleb_bytes(low32(items.len() as int));
            lemma_values_grow(items, 0, m, dex, head);
        },
        Value::Annotation(a) => {
            let index = m.mapped_type(a.type_idx)->Ok_0;
            let head = seq![0x1du8] + uleb_bytes(index as u32) + uleb_bytes(
                low32(a.names.len() as int),
            );
            lemma_elements_grow(a.names, a.values, 0, m, dex, head);
        },
        _ => {},
    }
}

proof fn lemma_values_length(items: Seq<Value>, i: int, m: Tables, dex: DexTables, done: Seq<u8>)
    requires
        0 <= i <= items.len(),
        values_bytes(items, i, m, dex, done) is Ok,
    ensures
        done.len() + items.len() - i <= values_bytes(items, i, m, dex, done)->Ok_0.len(),
    decreases items.len() - i,
{
    if i < items.len() {
        let bytes = value_bytes(items[i], m, dex)->Ok_0;
        lemma_value_length(items[i], m, dex);
        lemma_values_length(items, i + 1, m, dex, done + bytes);
    }
}

proof fn lemma_elements_length(
    names: Seq<u32>,
    values: Seq<Value>,
    i: int,
    m: Tables,
    dex: DexTables,
    done: Seq<u8>,
)
    requires
        0 <= i <= values.len(),
        elements_bytes(names, values, i, m, dex, done) is Ok,
    ensures
        done.len() + values.len() - i <= elements_bytes(
            names,
            values,
            i,
            m,
            dex,
            done,
        )->Ok_0.len(),
    decreases values.len() - i,
{
    if i < values.len() {
        let name = m.mapped_string(dex, names[i])->Ok_0;
        let bytes = value_bytes(values[i], m, dex)->Ok_0;
        lemma_value_length(values[i], m, dex);
        lemma_elements_length(names, values, i + 1, m, dex, done + uleb_bytes(name) + bytes);
    }
}

/// A part that was written behind `done` stands in the file.
proof fn lemma_part_at(file: Seq<u8>, base: int, whole: Seq<u8>, done: Seq<u8>, part: Seq<u8>)
    requires
        stands_at(file, base, whole),
        begins_with(whole, done + part),
    ensures
        stands_at(file, base + done.len(), part),
{
    let at = base + done.len();
    let head = done + part;
    assert forall|i: int| 0 <= i < part.len() implies file[at + i] == #[trigger] part[i] by {
        assert(head[done.len() + i] == part[i]);
        assert(whole[done.len() + i] == head[done.len() + i]);
        assert(file[base + (done.len() + i)] == whole[done.len() + i]);
    }
}

/// A value that was written reads back with its new indices.
#[verifier::spinoff_prover]
pub proof fn lemma_value_back(
    file: Seq<u8>,
    at: int,
    v: Value,
    m: Tables,
    dex: DexTables,
    refs: RefSets,
)
    requires
        value_bytes(v, m, dex) is Ok,
        stands_at(file, at, value_bytes(v, m, dex)->Ok_0),
        value_ok(v),
        file.len() <= u32::MAX,
    ensures
        value_in(file, at, refs) is Ok,
        value_in(file, at, refs)->Ok_0.0 == mapped_value(v, m, dex),
        value_in(file, at, refs)->Ok_0.1 == at + value_bytes(v, m, dex)->Ok_0.len(),
    decreases v, 0int,
{
    let bytes = value_bytes(v, m, dex)->Ok_0;
    lemma_value_length(v, m, dex);
    match v {
        Value::Indexed(kind, id) => {
            lemma_index_back(file, at, kind, mapped_index(kind, id, m, dex)->Ok_0, refs);
        },
        Value::Array(items) => {
            let n = low32(items.len() as int);
            let tag = seq![0x1cu8];
            let head = tag + uleb_bytes(n);
            lemma_values_grow(items, 0, m, dex, head);
            lemma_values_length(items, 0, m, dex, head);
            assert(begins_with(bytes, head));
            lemma_number_read(file, at, bytes, tag, n);
            assert(bytes[0] == head[0]);
            assert(file[at + 0] == bytes[0]);
            assert(begins_with(bytes, bytes));
            let none = Seq::<Value>::empty();
            lemma_values_back(file, at, bytes, items, 0, m, dex, head, refs, none);
            lemma_uleb_end(file, at + 1);
            let all = mapped_values(items, m, dex);
            assert(none + all.skip(0) =~= all);
            assert(mapped_value(v, m, dex)->Array_0 =~= all);
            assert((0x1cu8 % 32) as u8 == 0x1c);
        },
        Value::Annotation(a) => {
            let tag = seq![0x1du8];
            let index = m.mapped_type(a.type_idx)->Ok_0;
            let head = tag + uleb_bytes(index as u32) + uleb_bytes(low32(a.names.len() as int));
            lemma_elements_grow(a.names, a.values, 0, m, dex, head);
            assert(bytes[0] == head[0]);
            assert(file[at + 0] == bytes[0]);
            assert(begins_with(bytes, bytes));
            lemma_annotation_back(file, at, bytes, a, m, dex, tag, refs);
            assert((0x1du8 % 32) as u8 == 0x1d);
        },
        Value::Null => {
            assert(file[at + 0] == bytes[0]);
            assert((0x1eu8 % 32) as u8 == 0x1e);
        },
        Value::Boolean(b) => {
            assert(file[at + 0] == bytes[0]);
            let tag = ((b % 8) * 32 + 31) as u8;
            assert((tag % 32) as u8 == 0x1f);
            assert((tag / 32) as u8 == b);
        },
        Value::Primitive(code, digits) => {
            lemma_primitive_back(file, at, code, digits, refs);
        },
    }
}

proof fn lemma_values_back(
    file: Seq<u8>,
    base: int,
    whole: Seq<u8>,
    items: Seq<Value>,
    i: int,
    m: Tables,
    dex: DexTables,
    done: Seq<u8>,
    refs: RefSets,
    got: Seq<Value>,
)
    requires
        0 <= i <= items.len(),
        values_bytes(items, i, m, dex, done) is Ok,
        stands_at(file, base, whole),
        begins_with(whole, values_bytes(items, i, m, dex, done)->Ok_0),
        values_ok(items),
        file.len() <= u32::MAX,
    ensures
        values_in(file, base + done.len(), refs, items.len() - i, got) is Ok,
        values_in(file, base + done.len(), refs, items.len() - i, got)->Ok_0.0 == got
            + mapped_values(items, m, dex).skip(i),
        values_in(file, base + done.len(), refs, items.len() - i, got)->Ok_0.1 == base
            + values_bytes(items, i, m, dex, done)->Ok_0.len(),
    decreases items, items.len() - i,
{
    let all = mapped_values(items, m, dex);
    if i < items.len() {
        let v = items[i];
        let bytes = value_bytes(v, m, dex)->Ok_0;
        let more = done + bytes;
        let at = base + done.len();
        lemma_values_grow(items, i + 1, m, dex, more);
        lemma_begins_chain(more, values_bytes(items, i, m, dex, done)->Ok_0, whole);
        lemma_part_at(file, base, whole, done, bytes);
        lemma_value_length(v, m, dex);
        lemma_value_back(file, at, v, m, dex, refs);
        let next = value_in(file, at, refs)->Ok_0.2;
        let item = mapped_value(v, m, dex);
        lemma_values_back(
            file,
            base,
            whole,
            items,
            i + 1,
            m,
            dex,
            more,
            next,
            got.push(item),
        );
        assert(got.push(item) + all.skip(i + 1) =~= got + all.skip(i));
    } else {
        assert(got + all.skip(i) =~= got);
    }
}

/// An annotation that was written behind `done` reads back with its new
/// indices.
#[verifier::spinoff_prover]
pub proof fn lemma_annotation_back(
    file: Seq<u8>,
    base: int,
    whole: Seq<u8>,
    a: Annotation,
    m: Tables,
    dex: DexTables,
    done: Seq<u8>,
    refs: RefSets,
)
    requires
        annotation_bytes(a, m, dex, done) is Ok,
        stands_at(file, base, whole),
        begins_with(whole, annotation_bytes(a, m, dex, done)->Ok_0),
        annotation_ok(a),
        file.len() <= u32::MAX,
    ensures
        annotation_in(file, base + done.len(), refs) is Ok,
        annotation_in(file, base + done.len(), refs)->Ok_0.0 == mapped_annotation(a, m, dex),
        annotation_in(file, base + done.len(), refs)->Ok_0.1 == base + annotation_bytes(
            a,
            m,
            dex,
            done,
        )->Ok_0.len(),
    decreases a, 0int,
{
    let index = m.mapped_type(a.type_idx)->Ok_0 as u32;
    let n = low32(a.names.len() as int);
    let head = done + uleb_bytes(index) + uleb_bytes(n);
    lemma_annotation_head(file, base, whole, a, m, dex, done);
    let r = refs.with_type(index);
    let e1 = Seq::<u32>::empty();
    let e2 = Seq::<Value>::empty();
    lemma_elements_back(file, base, whole, a, 0, m, dex, head, r, e1, e2);
    let names = mapped_names(a.names, m, dex);
    let values = mapped_values(a.values, m, dex);
    assert(e1 + names.skip(0) =~= names);
    assert(e2 + values.skip(0) =~= values);
    assert(mapped_annotation(a, m, dex).values =~= values);
}

/// The type and the count of an annotation read back.
proof fn lemma_annotation_head(
    file: Seq<u8>,
    base: int,
    whole: Seq<u8>,
    a: Annotation,
    m: Tables,
    dex: DexTables,
    done: Seq<u8>,
)
    requires
        annotation_bytes(a, m, dex, done) is Ok,
        stands_at(file, base, whole),
        begins_with(whole, annotation_bytes(a, m, dex, done)->Ok_0),
        annotation_ok(a),
        file.len() <= u32::MAX,
    ensures
        ({
            let index = m.mapped_type(a.type_idx)->Ok_0 as u32;
            let n = low32(a.names.len() as int);
            let at = base + done.len();
            let second = at + uleb_bytes(index).len();
            &&& n == a.names.len()
            &&& uleb_in(file, at) == Ok::<(u32, int), Error>((index, second))
            &&& uleb_in(file, second) == Ok::<(u32, int), Error>(
                (n, second + uleb_bytes(n).len()),
            )
            &&& second <= file.len()
        }),
{
    let all = annotation_bytes(a, m, dex, done)->Ok_0;
    let index = m.mapped_type(a.type_idx)->Ok_0 as u32;
    let n = low32(a.names.len() as int);
    let h1 = done + uleb_bytes(index);
    let h2 = h1 + uleb_bytes(n);
    lemma_elements_grow(a.names, a.values, 0, m, dex, h2);
    lemma_elements_length(a.names, a.values, 0, m, dex, h2);
    lemma_begins_chain(h2, all, whole);
    assert(begins_with(h2, h1));
    lemma_begins_chain(h1, h2, whole);
    lemma_number_read(file, base, whole, done, index);
    lemma_number_read(file, base, whole, h1, n);
}

#[verifier::spinoff_prover]
proof fn lemma_elements_back(
    file: Seq<u8>,
    base: int,
    whole: Seq<u8>,
    a: Annotation,
    i: int,
    m: Tables,
    dex: DexTables,
    done: Seq<u8>,
    refs: RefSets,
    names: Seq<u32>,
    values: Seq<Value>,
)
    requires
        0 <= i <= a.values.len(),
        elements_bytes(a.names, a.values, i, m, dex, done) is Ok,
        stands_at(file, base, whole),
        begins_with(whole, elements_bytes(a.names, a.values, i, m, dex, done)->Ok_0),
        annotation_ok(a),
        file.len() <= u32::MAX,
    ensures
        ({
            let r = elements_in(file, base + done.len(), refs, a.values.len() - i, names, values);
            &&& r is Ok
            &&& r->Ok_0.0 == names + mapped_names(a.names, m, dex).skip(i)
            &&& r->Ok_0.1 == values + mapped_values(a.values, m, dex).skip(i)
            &&& r->Ok_0.2 == base + elements_bytes(a.names, a.values, i, m, dex, done)->Ok_0.len()
        }),
    decreases a.values, a.values.len() - i,
{
    let all_names = mapped_names(a.names, m, dex);
    let all_values = mapped_values(a.values, m, dex);
    if i < a.values.len() {
        let name = m.mapped_string(dex, a.names[i])->Ok_0;
        let v = a.values[i];
        let bytes = value_bytes(v, m, dex)->Ok_0;
        let named = done + uleb_bytes(name);
        let more = named + bytes;
        let at = base + done.len();
        lemma_elements_grow(a.names, a.values, i + 1, m, dex, more);
        lemma_begins_chain(
            more,
            elements_bytes(a.names, a.values, i, m, dex, done)->Ok_0,
            whole,
        );
        assert(begins_with(more, named));
        lemma_begins_chain(named, more, whole);
        lemma_number_read(file, base, whole, done, name);
        lemma_uleb_end(file, at);
        lemma_part_at(file, base, whole, named, bytes);
        lemma_value_length(v, m, dex);
        let r = refs.with_string(name);
        lemma_value_back(file, base + named.len(), v, m, dex, r);
        let next = value_in(file, base + named.len(), r)->Ok_0.2;
        let item = mapped_value(v, m, dex);
        lemma_elements_back(
            file,
            base,
            whole,
            a,
            i + 1,
            m,
            dex,
            more,
            next,
            names.push(name),
            values.push(item),
        );
        assert(names.push(name) + all_names.skip(i + 1) =~= names + all_names.skip(i));
        assert(values.push(item) + all_values.skip(i + 1) =~= values + all_values.skip(i));
    } else {
        assert(names + all_names.skip(i) =~= names);
        assert(values + all_values.skip(i) =~= values);
    }
}

// ---------------------------------------------------------------------------
// Values are well formed
// ---------------------------------------------------------------------------

proof fn lemma_value_in_ok(data: Seq<u8>, at: int, refs: RefSets)
    requires
        0 <= at,
        value_in(data, at, refs) is Ok,
    ensures
        value_ok(value_in(data, at, refs)->Ok_0.0),
    decreases data.len() - at, 0int, 0int,
{
    let code = (data[at] % 32) as u8;
    if code == 0x1c {
        lemma_uleb_end(data, at + 1);
        let (count, start) = uleb_in(data, at + 1)->Ok_0;
        lemma_values_in_ok(data, start, refs, count as int, Seq::empty());
    } else if code == 0x1d {
        lemma_annotation_in_ok(data, at + 1, refs);
    } else if kind_of(code) is None && code < 0x1c && code != 0x16 {
        let arg = (data[at] / 32) as u8;
        assert(bytes_in(data, at + 1, arg + 1)->Ok_0.len() == arg + 1);
    }
}

proof fn lemma_values_in_ok(
    data: Seq<u8>,
    at: int,
    refs: RefSets,
    count: int,
    items: Seq<Value>,
)
    requires
        0 <= at,
        values_in(data, at, refs, count, items) is Ok,
        values_ok(items),
    ensures
        values_ok(values_in(data, at, refs, count, items)->Ok_0.0),
    decreases data.len() - at, 1int, count,
{
    if count > 0 {
        let (v, next, r) = value_in(data, at, refs)->Ok_0;
        lemma_value_in_ok(data, at, refs);
        lemma_values_in_ok(data, next, r, count - 1, items.push(v));
    }
}

/// An annotation that was read is well formed.
pub proof fn lemma_annotation_in_ok(data: Seq<u8>, at: int, refs: RefSets)
    requires
        0 <= at,
        annotation_in(data, at, refs) is Ok,
    ensures
        annotation_ok(annotation_in(data, at, refs)->Ok_0.0),
    decreases data.len() - at, 2int, 0int,
{
    let (type_idx, count_at) = uleb_in(data, at)->Ok_0;
    let (count, start) = uleb_in(data, count_at)->Ok_0;
    lemma_uleb_end(data, at);
    lemma_uleb_end(data, count_at);
    lemma_elements_in_ok(
        data,
        start,
        refs.with_type(type_idx),
        count as int,
        Seq::empty(),
        Seq::empty(),
    );
}

proof fn lemma_elements_in_ok(
    data: Seq<u8>,
    at: int,
    refs: RefSets,
    count: int,
    names: Seq<u32>,
    values: Seq<Value>,
)
    requires
        0 <= at,
        elements_in(data, at, refs, count, names, values) is Ok,
        names.len() == values.len(),
        values_ok(values),
    ensures
        ({
            let r = elements_in(data, at, refs, count, names, values)->Ok_0;
            r.0.len() == r.1.len() && values_ok(r.1)
        }),
    decreases data.len() - at, 1int, count,
{
    if count > 0 {
        let (name, value_at) = uleb_in(data, at)->Ok_0;
        lemma_uleb_end(data, at);
        let r = refs.with_string(name);
        let (v, next, more) = value_in(data, value_at, r)->Ok_0;
        lemma_value_in_ok(data, value_at, r);
        lemma_elements_in_ok(data, next, more, count - 1, names.push(name), values.push(v));
    }
}

/// An encoded array that was read is well formed.
pub proof fn lemma_array_in_ok(data: Seq<u8>, offset: u32, refs: RefSets)
    requires
        array_in(data, offset, refs) is Ok,
    ensures
        values_ok(array_in(data, offset, refs)->Ok_0.0),
{
    let (count, start) = uleb_in(data, offset as int)->Ok_0;
    lemma_uleb_end(data, offset as int);
    lemma_values_in_ok(data, start, refs, count as int, Seq::empty());
}

/// An encoded array that was written reads back with its new indices.
pub proof fn lemma_array_back(
    file: Seq<u8>,
    offset: u32,
    items: Seq<Value>,
    m: Tables,
    dex: DexTables,
    refs: RefSets,
)
    requires
        array_bytes(items, m, dex) is Ok,
        stands_at(file, offset as int, array_bytes(items, m, dex)->Ok_0),
        values_ok(items),
        file.len() <= u32::MAX,
    ensures
        array_in(file, offset, refs) is Ok,
        array_in(file, offset, refs)->Ok_0.0 == mapped_values(items, m, dex),
{
    let n = low32(items.len() as int);
    let head = uleb_bytes(n);
    let all = array_bytes(items, m, dex)->Ok_0;
    let nothing = Seq::<u8>::empty();
    let none = Seq::<Value>::empty();
    lemma_values_grow(items, 0, m, dex, head);
    lemma_values_length(items, 0, m, dex, head);
    assert(nothing + head =~= head);
    lemma_number_read(file, offset as int, all, nothing, n);
    assert(begins_with(all, all));
    lemma_values_back(file, offset as int, all, items, 0, m, dex, head, refs, none);
    let mapped = mapped_values(items, m, dex);
    assert(none + mapped.skip(0) =~= mapped);
}

} // verus!
