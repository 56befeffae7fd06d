//! Writing values: fixed-width numbers, strings, encoded values and debug
//! information.
use vstd::prelude::*;

use crate::collections::{cut32, low32, views};
use crate::dex_format::{utf16_of, utf16_units};
use crate::error::Error;
use crate::minidex::leb::{sleb_bytes, uleb_bytes, write_sleb, write_uleb};
use crate::minidex::mapper::IndexMapper;
use crate::minidex::reader::DexTables;
use crate::minidex::tables::Tables;
use crate::minidex::values::{
    element_names, element_values, lemma_annotation_model, lemma_array_model, Annotation, DebugInfo,
    DebugOp, Debugging, EncodedAnnotation, EncodedValue, IndexKind, Value,
};

verus! {

// ---------------------------------------------------------------------------
// Fixed-width numbers
// ---------------------------------------------------------------------------

pub open spec fn le16_bytes(v: u16) -> Seq<u8> {
    seq![(v % 256) as u8, (v / 256) as u8]
}

pub open spec fn le32_bytes(v: u32) -> Seq<u8> {
    seq![
        (v % 256) as u8,
        (v / 0x100 % 256) as u8,
        (v / 0x1_0000 % 256) as u8,
        (v / 0x100_0000) as u8,
    ]
}

pub fn push_u16(out: &mut Vec<u8>, value: u16)
    ensures
        final(out)@ == old(out)@ + le16_bytes(value),
{
    let ghost before = out@;
    out.push((value % 256) as u8);
    out.push((value / 256) as u8);
    assert(out@ =~= before + le16_bytes(value));
}

pub fn push_u32(out: &mut Vec<u8>, value: u32)
    ensures
        final(out)@ == old(out)@ + le32_bytes(value),
{
    let ghost before = out@;
    out.push((value % 256) as u8);
    out.push((value / 0x100 % 256) as u8);
    out.push((value / 0x1_0000 % 256) as u8);
    out.push((value / 0x100_0000) as u8);
    assert(out@ =~= before + le32_bytes(value));
}

/// Zero bytes.
pub open spec fn zeros(n: int) -> Seq<u8> {
    Seq::new(n as nat, |i: int| 0u8)
}

/// A byte string padded with zeros to a multiple of four bytes.
pub open spec fn padded(s: Seq<u8>) -> Seq<u8> {
    s + zeros((4 - s.len() % 4) % 4)
}

pub fn align4(out: &mut Vec<u8>)
    ensures
        final(out)@ == padded(old(out)@),
{
    let ghost before = out@;
    let count: usize = (4 - out.len() % 4) % 4;
    let mut i: usize = 0;
    while i < count
        invariant
            i <= count,
            out@ == before + zeros(i as int),
        decreases count - i,
    {
        out.push(0);
        i += 1;
        assert(zeros(i as int) =~= zeros(i - 1).push(0u8));
        assert(out@ =~= before + zeros(i as int));
    }
}

// ---------------------------------------------------------------------------
// Strings
// ---------------------------------------------------------------------------

/// The modified UTF-8 form of one UTF-16 code unit.
pub open spec fn mutf8_of_unit(u: u16) -> Seq<u8> {
    if u == 0 {
        seq![0xc0u8, 0x80u8]
    } else if u < 0x80 {
        seq![u as u8]
    } else if u < 0x800 {
        seq![(0xc0 + u / 64) as u8, (0x80 + u % 64) as u8]
    } else {
        seq![(0xe0 + u / 4096) as u8, (0x80 + u / 64 % 64) as u8, (0x80 + u % 64) as u8]
    }
}

/// The modified UTF-8 form of UTF-16 code units.
pub open spec fn mutf8_of(units: Seq<u16>) -> Seq<u8>
    decreases units.len(),
{
    if units.len() == 0 {
        Seq::empty()
    } else {
        mutf8_of(units.drop_last()) + mutf8_of_unit(units.last())
    }
}

/// A string as a string data item: its length in UTF-16 units, its modified
/// UTF-8 form and a zero byte.
pub open spec fn string_bytes(text: Seq<char>) -> Seq<u8> {
    uleb_bytes(low32(utf16_of(text).len() as int)) + mutf8_of(utf16_of(text)) + seq![0u8]
}

pub fn write_mutf8(value: &str, out: &mut Vec<u8>)
    ensures
        final(out)@ == old(out)@ + string_bytes(value@),
{
    let ghost before = out@;
    let units = utf16_units(value);
    write_uleb(cut32(units.len()), out);
    let ghost start = out@;
    let mut i: usize = 0;
    assert(units@.take(0) =~= Seq::<u16>::empty());
    assert(start =~= start + mutf8_of(units@.take(0)));
    while i < units.len()
        invariant
            i <= units.len(),
            out@ == start + mutf8_of(units@.take(i as int)),
        decreases units.len() - i,
    {
        let unit: u16 = units[i];
        let ghost now = out@;
        let ghost done = units@.take(i as int);
        if unit == 0 {
            out.push(0xc0);
            out.push(0x80);
        } else if unit < 0x80 {
            out.push(unit as u8);
        } else if unit < 0x800 {
            out.push((0xc0 + unit / 64) as u8);
            out.push((0x80 + unit % 64) as u8);
        } else {
            out.push((0xe0 + unit / 4096) as u8);
            out.push((0x80 + unit / 64 % 64) as u8);
            out.push((0x80 + unit % 64) as u8);
        }
        assert(out@ =~= now + mutf8_of_unit(unit));
        i += 1;
        assert(units@.take(i as int).drop_last() =~= done);
        assert(out@ =~= start + mutf8_of(units@.take(i as int)));
    }
    assert(units@.take(i as int) =~= units@);
    out.push(0);
    assert(out@ =~= before + string_bytes(value@));
}

// ---------------------------------------------------------------------------
// Encoded values
// ---------------------------------------------------------------------------

/// How many bytes an index takes.
pub open spec fn index_width(index: u32) -> int {
    if index <= 0xff {
        1
    } else if index <= 0xffff {
        2
    } else if index <= 0xff_ffff {
        3
    } else {
        4
    }
}

/// An index of the given kind as an encoded value.
pub open spec fn index_bytes(kind: IndexKind, index: u32) -> Seq<u8> {
    seq![((index_width(index) - 1) * 32 + kind.type_code()) as u8] + le32_bytes(index).take(
        index_width(index),
    )
}

/// The new index of an identifier that an encoded value refers to.
pub open spec fn mapped_index(kind: IndexKind, id: u32, m: Tables, dex: DexTables) -> Result<
    u32,
    Error,
> {
    match kind {
        IndexKind::Proto => widen(m.mapped_proto(id)),
        IndexKind::String => m.mapped_string(dex, id),
        IndexKind::Type => widen(m.mapped_type(id)),
        IndexKind::Field => widen(m.mapped_field(id)),
        IndexKind::Enum => widen(m.mapped_field(id)),
        IndexKind::Method => widen(m.mapped_method(id)),
    }
}

/// A 16-bit outcome as a 32-bit one.
pub open spec fn widen(r: Result<u16, Error>) -> Result<u32, Error> {
    match r {
        Ok(v) => Ok(v as u32),
        Err(e) => Err(e),
    }
}

pub open spec fn indexed_bytes(kind: IndexKind, id: u32, m: Tables, dex: DexTables) -> Result<
    Seq<u8>,
    Error,
> {
    match mapped_index(kind, id, m, dex) {
        Err(e) => Err(e),
        Ok(index) => Ok(index_bytes(kind, index)),
    }
}

/// The bytes of an encoded value with new indices.
pub open spec fn value_bytes(v: Value, m: Tables, dex: DexTables) -> Result<Seq<u8>, Error>
    decreases v, 0int,
{
    match v {
        Value::Indexed(kind, id) => indexed_bytes(kind, id, m, dex),
        Value::Array(items) => values_bytes(
            items,
            0,
            m,
            dex,
            seq![0x1cu8] + uleb_bytes(low32(items.len() as int)),
        ),
        Value::Annotation(a) => annotation_bytes(a, m, dex, seq![0x1du8]),
        Value::Null => Ok(seq![0x1eu8]),
        Value::Boolean(b) => Ok(seq![((b % 8) * 32 + 31) as u8]),
        Value::Primitive(code, bytes) => if bytes.len() == 0 || bytes.len() > 8 {
            Err(Error::InvalidPrimitive)
        } else {
            Ok(seq![((bytes.len() - 1) * 32) as u8 | code] + bytes)
        },
    }
}

/// The bytes of the values from `i` on, behind `done`.
pub open spec fn values_bytes(items: Seq<Value>, i: int, m: Tables, dex: DexTables, done: Seq<u8>) -> Result<
    Seq<u8>,
    Error,
>
    decreases items, items.len() - i,
{
    if i < 0 || i >= items.len() {
        Ok(done)
    } else {
        match value_bytes(items[i], m, dex) {
            Err(e) => Err(e),
            Ok(bytes) => values_bytes(items, i + 1, m, dex, done + bytes),
        }
    }
}

/// The bytes of an annotation, behind `done`.
pub open spec fn annotation_bytes(a: Annotation, m: Tables, dex: DexTables, done: Seq<u8>) -> Result<
    Seq<u8>,
    Error,
>
    decreases a, 0int,
{
    match m.mapped_type(a.type_idx) {
        Err(e) => Err(e),
        Ok(index) => elements_bytes(
            a.names,
            a.values,
            0,
            m,
            dex,
            done + uleb_bytes(index as u32) + uleb_bytes(low32(a.names.len() as int)),
        ),
    }
}

/// The bytes of the annotation elements from `i` on, behind `done`.
pub open spec fn elements_bytes(
    names: Seq<u32>,
    values: Seq<Value>,
    i: int,
    m: Tables,
    dex: DexTables,
    done: Seq<u8>,
) -> Result<Seq<u8>, Error>
    decreases values, values.len() - i,
{
    if i < 0 || i >= values.len() {
        Ok(done)
    } else {
        match m.mapped_string(dex, names[i]) {
            Err(e) => Err(e),
            Ok(name) => match value_bytes(values[i], m, dex) {
                Err(e) => Err(e),
                Ok(bytes) => elements_bytes(
                    names,
                    values,
                    i + 1,
                    m,
                    dex,
                    done + uleb_bytes(name) + bytes,
                ),
            },
        }
    }
}

/// The bytes of a sequence of values with its count before it.
pub open spec fn array_bytes(items: Seq<Value>, m: Tables, dex: DexTables) -> Result<
    Seq<u8>,
    Error,
> {
    values_bytes(items, 0, m, dex, uleb_bytes(low32(items.len() as int)))
}

/// What a writer that appends to `out` says about its outcome.
pub open spec fn appended(
    outcome: Result<(), Error>,
    before: Seq<u8>,
    after: Seq<u8>,
    bytes: Result<Seq<u8>, Error>,
) -> bool {
    match outcome {
        Ok(_) => bytes is Ok && after == before + bytes->Ok_0,
        Err(e) => bytes == Err::<Seq<u8>, Error>(e),
    }
}

fn mapped_index_of(kind: IndexKind, id: u32, mapper: &IndexMapper<'_>) -> (r: Result<u32, Error>)
    ensures
        r == mapped_index(kind, id, mapper@, mapper.dex@),
{
    match kind {
        IndexKind::Proto => Ok(mapper.mapped_proto(id)? as u32),
        IndexKind::String => mapper.mapped_string(id),
        IndexKind::Type => Ok(mapper.mapped_type(id)? as u32),
        IndexKind::Field => Ok(mapper.mapped_field(id)? as u32),
        IndexKind::Enum => Ok(mapper.mapped_field(id)? as u32),
        IndexKind::Method => Ok(mapper.mapped_method(id)? as u32),
    }
}

/// Writes an index in as few bytes as it takes. An error leaves `out` as it
/// was.
pub fn write_indexed_value(kind: IndexKind, id: u32, mapper: &IndexMapper<'_>, out: &mut Vec<u8>) -> (r:
    Result<(), Error>)
    ensures
        appended(r, old(out)@, final(out)@, indexed_bytes(kind, id, mapper@, mapper.dex@)),
        r is Err ==> final(out)@ == old(out)@,
{
    let index: u32 = mapped_index_of(kind, id, mapper)?;
    let ghost before = out@;
    let width: u8 = if index <= 0xff {
        1
    } else if index <= 0xffff {
        2
    } else if index <= 0xff_ffff {
        3
    } else {
        4
    };
    out.push((width - 1) * 32 + kind.encoded_value_type());
    out.push((index % 256) as u8);
    if width > 1 {
        out.push((index / 0x100 % 256) as u8);
    }
    if width > 2 {
        out.push((index / 0x1_0000 % 256) as u8);
    }
    if width > 3 {
        out.push((index / 0x100_0000) as u8);
    }
    assert(out@ =~= before + index_bytes(kind, index));
    Ok(())
}

proof fn lemma_values_prefix(items: Seq<Value>, i: int, m: Tables, dex: DexTables, a: Seq<u8>, b: Seq<
    u8,
>)
    ensures
        match values_bytes(items, i, m, dex, a + b) {
            Ok(s) => values_bytes(items, i, m, dex, b) is Ok && s == a + values_bytes(
                items,
                i,
                m,
                dex,
                b,
            )->Ok_0,
            Err(e) => values_bytes(items, i, m, dex, b) == Err::<Seq<u8>, Error>(e),
        },
    decreases items.len() - i,
{
    if 0 <= i < items.len() {
        if let Ok(bytes) = value_bytes(items[i], m, dex) {
            assert((a + b) + bytes =~= a + (b + bytes));
            lemma_values_prefix(items, i + 1, m, dex, a, b + bytes);
        }
    }
}

proof fn lemma_elements_prefix(
    names: Seq<u32>,
    values: Seq<Value>,
    i: int,
    m: Tables,
    dex: DexTables,
    a: Seq<u8>,
    b: Seq<u8>,
)
    ensures
        match elements_bytes(names, values, i, m, dex, a + b) {
            Ok(s) => elements_bytes(names, values, i, m, dex, b) is Ok && s == a + elements_bytes(
                names,
                values,
                i,
                m,
                dex,
                b,
            )->Ok_0,
            Err(e) => elements_bytes(names, values, i, m, dex, b) == Err::<Seq<u8>, Error>(e),
        },
    decreases values.len() - i,
{
    if 0 <= i < values.len() {
        if let Ok(name) = m.mapped_string(dex, names[i]) {
            if let Ok(bytes) = value_bytes(values[i], m, dex) {
                assert((a + b) + uleb_bytes(name) + bytes =~= a + (b + uleb_bytes(name) + bytes));
                lemma_elements_prefix(
                    names,
                    values,
                    i + 1,
                    m,
                    dex,
                    a,
                    b + uleb_bytes(name) + bytes,
                );
            }
        }
    }
}

/// Writes the values of a sequence one after another. An error leaves `out`
/// where the writing stopped.
fn write_values(values: &Vec<EncodedValue>, mapper: &IndexMapper<'_>, out: &mut Vec<u8>) -> (r: Result<
    (),
    Error,
>)
    ensures
        match r {
            Ok(_) => values_bytes(views(values@), 0, mapper@, mapper.dex@, old(out)@) == Ok::<
                Seq<u8>,
                Error,
            >(final(out)@),
            Err(e) => values_bytes(views(values@), 0, mapper@, mapper.dex@, old(out)@) == Err::<
                Seq<u8>,
                Error,
            >(e),
        },
    decreases values, 0int,
{
    let ghost items = views(values@);
    let ghost before = out@;
    let mut i: usize = 0;
    while i < values.len()
        invariant
            i <= values.len(),
            items == views(values@),
            before == old(out)@,
            values_bytes(items, 0, mapper@, mapper.dex@, before) == values_bytes(
                items,
                i as int,
                mapper@,
                mapper.dex@,
                out@,
            ),
        decreases values.len() - i,
    {
        assert(items[i as int] == values@[i as int]@);
        assert(decreases_to!(values => values@[i as int]));
        write_encoded_value(&values[i], mapper, out)?;
        i += 1;
    }
    Ok(())
}

/// Writes an encoded value with new indices. An error leaves `out` where the
/// writing stopped.
pub fn write_encoded_value(value: &EncodedValue, mapper: &IndexMapper<'_>, out: &mut Vec<u8>) -> (r:
    Result<(), Error>)
    ensures
        appended(r, old(out)@, final(out)@, value_bytes(value@, mapper@, mapper.dex@)),
    decreases value, 1int,
{
    let ghost before = out@;
    match value {
        EncodedValue::Indexed(kind, id) => write_indexed_value(*kind, *id, mapper, out),
        EncodedValue::Array(values) => {
            proof {
                lemma_array_model(*values);
            }
            out.push(0x1c);
            write_uleb(cut32(values.len()), out);
            let ghost head = seq![0x1cu8] + uleb_bytes(low32(values@.len() as int));
            assert(out@ =~= before + head);
            proof {
                lemma_values_prefix(views(values@), 0, mapper@, mapper.dex@, before, head);
            }
            write_values(values, mapper, out)
        },
        EncodedValue::Annotation(annotation) => {
            out.push(0x1d);
            let ghost head = seq![0x1du8];
            assert(out@ =~= before + head);
            proof {
                lemma_annotation_prefix(annotation@, mapper@, mapper.dex@, before, head);
            }
            write_encoded_annotation(annotation, mapper, out)
        },
        EncodedValue::Null => {
            out.push(0x1e);
            assert(out@ =~= before + seq![0x1eu8]);
            Ok(())
        },
        EncodedValue::Boolean(b) => {
            out.push((*b % 8) * 32 + 31);
            assert(out@ =~= before + seq![((*b % 8) * 32 + 31) as u8]);
            Ok(())
        },
        EncodedValue::Primitive(code, bytes) => {
            if bytes.len() == 0 || bytes.len() > 8 {
                return Err(Error::InvalidPrimitive);
            }
            let head: u8 = ((bytes.len() - 1) * 32) as u8 | *code;
            out.push(head);
            out.extend_from_slice(bytes.as_slice());
            assert(out@ =~= before + (seq![head] + bytes@));
            Ok(())
        },
    }
}

proof fn lemma_annotation_prefix(a: Annotation, m: Tables, dex: DexTables, x: Seq<u8>, y: Seq<u8>)
    ensures
        match annotation_bytes(a, m, dex, x + y) {
            Ok(s) => annotation_bytes(a, m, dex, y) is Ok && s == x + annotation_bytes(
                a,
                m,
                dex,
                y,
            )->Ok_0,
            Err(e) => annotation_bytes(a, m, dex, y) == Err::<Seq<u8>, Error>(e),
        },
{
    if let Ok(index) = m.mapped_type(a.type_idx) {
        let head = uleb_bytes(index as u32);
        let count = uleb_bytes(low32(a.names.len() as int));
        assert((x + y) + head + count =~= x + (y + head + count));
        lemma_elements_prefix(a.names, a.values, 0, m, dex, x, y + head + count);
    }
}

/// Writes an annotation with new indices. An error leaves `out` where the
/// writing stopped.
pub fn write_encoded_annotation(
    annotation: &EncodedAnnotation,
    mapper: &IndexMapper<'_>,
    out: &mut Vec<u8>,
) -> (r: Result<(), Error>)
    ensures
        match r {
            Ok(_) => annotation_bytes(annotation@, mapper@, mapper.dex@, old(out)@) == Ok::<
                Seq<u8>,
                Error,
            >(final(out)@),
            Err(e) => annotation_bytes(annotation@, mapper@, mapper.dex@, old(out)@) == Err::<
                Seq<u8>,
                Error,
            >(e),
        },
    decreases annotation, 0int,
{
    proof {
        lemma_annotation_model(*annotation);
    }
    let index: u16 = mapper.mapped_type(annotation.type_idx)?;
    write_uleb(index as u32, out);
    write_uleb(cut32(annotation.elements.len()), out);
    let ghost start = out@;
    let ghost names = element_names(annotation.elements@);
    let ghost values = element_values(annotation.elements@);
    let mut i: usize = 0;
    while i < annotation.elements.len()
        invariant
            i <= annotation.elements.len(),
            names == element_names(annotation.elements@),
            values == element_values(annotation.elements@),
            start == old(out)@ + uleb_bytes(index as u32) + uleb_bytes(
                low32(annotation.elements@.len() as int),
            ),
            mapper@.mapped_type(annotation.type_idx) == Ok::<u16, Error>(index),
            annotation@ == (Annotation { type_idx: annotation.type_idx, names, values }),
            elements_bytes(names, values, 0, mapper@, mapper.dex@, start) == elements_bytes(
                names,
                values,
                i as int,
                mapper@,
                mapper.dex@,
                out@,
            ),
        decreases annotation.elements.len() - i,
    {
        assert(values[i as int] == annotation.elements@[i as int].value@);
        assert(names[i as int] == annotation.elements@[i as int].name);
        assert(decreases_to!(annotation => annotation.elements));
        assert(decreases_to!(annotation.elements => annotation.elements@));
        assert(decreases_to!(annotation.elements@ => annotation.elements@[i as int]));
        assert(decreases_to!(annotation.elements@[i as int] => annotation.elements@[i as int].value));
        let name: u32 = mapper.mapped_string(annotation.elements[i].name)?;
        write_uleb(name, out);
        write_encoded_value(&annotation.elements[i].value, mapper, out)?;
        i += 1;
    }
    Ok(())
}

/// Writes a sequence of values with its count before it. An error leaves `out`
/// where the writing stopped.
pub fn write_encoded_array(values: &Vec<EncodedValue>, mapper: &IndexMapper<'_>, out: &mut Vec<u8>) -> (r:
    Result<(), Error>)
    ensures
        appended(r, old(out)@, final(out)@, array_bytes(views(values@), mapper@, mapper.dex@)),
{
    let ghost before = out@;
    write_uleb(cut32(values.len()), out);
    proof {
        lemma_values_prefix(
            views(values@),
            0,
            mapper@,
            mapper.dex@,
            before,
            uleb_bytes(low32(values@.len() as int)),
        );
    }
    write_values(values, mapper, out)
}

// ---------------------------------------------------------------------------
// Debug information
// ---------------------------------------------------------------------------

/// The new form of a string index that is stored plus one.
pub open spec fn string_p1(value: u32, m: Tables, dex: DexTables) -> Result<u32, Error> {
    if value == 0 {
        Ok(0)
    } else {
        match m.mapped_string(dex, (value - 1) as u32) {
            Err(e) => Err(e),
            Ok(index) => Ok(low32(index + 1)),
        }
    }
}

/// The new form of a type index that is stored plus one.
pub open spec fn type_p1(value: u32, m: Tables) -> Result<u32, Error> {
    if value == 0 {
        Ok(0)
    } else {
        match m.mapped_type((value - 1) as u32) {
            Err(e) => Err(e),
            Ok(index) => Ok((index + 1) as u32),
        }
    }
}

pub fn mapped_p1_string(value: u32, mapper: &IndexMapper<'_>) -> (r: Result<u32, Error>)
    ensures
        r == string_p1(value, mapper@, mapper.dex@),
{
    if value == 0 {
        return Ok(0);
    }
    let index: u32 = mapper.mapped_string(value - 1)?;
    Ok(((index as u64 + 1) % 0x1_0000_0000) as u32)
}

pub fn mapped_p1_type(value: u32, mapper: &IndexMapper<'_>) -> (r: Result<u32, Error>)
    ensures
        r == type_p1(value, mapper@),
{
    if value == 0 {
        return Ok(0);
    }
    let index: u16 = mapper.mapped_type(value - 1)?;
    Ok(index as u32 + 1)
}

/// A number behind some bytes, if there is one.
pub open spec fn then_uleb(done: Result<Seq<u8>, Error>, value: Result<u32, Error>) -> Result<
    Seq<u8>,
    Error,
> {
    match done {
        Err(e) => Err(e),
        Ok(s) => match value {
            Err(e) => Err(e),
            Ok(v) => Ok(s + uleb_bytes(v)),
        },
    }
}

/// A debug instruction with new indices, behind `done`.
pub open spec fn debug_op_bytes(op: DebugOp, m: Tables, dex: DexTables, done: Seq<u8>) -> Result<
    Seq<u8>,
    Error,
> {
    match op {
        DebugOp::End => Ok(done.push(0)),
        DebugOp::AdvancePc(v) => Ok(done.push(1) + uleb_bytes(v)),
        DebugOp::AdvanceLine(v) => Ok(done.push(2) + sleb_bytes(v as int)),
        DebugOp::StartLocal(register, name, typ) => then_uleb(
            then_uleb(Ok(done.push(3) + uleb_bytes(register)), string_p1(name, m, dex)),
            type_p1(typ, m),
        ),
        DebugOp::StartLocalExtended(register, name, typ, signature) => then_uleb(
            then_uleb(
                then_uleb(Ok(done.push(4) + uleb_bytes(register)), string_p1(name, m, dex)),
                type_p1(typ, m),
            ),
            string_p1(signature, m, dex),
        ),
        DebugOp::EndOrRestartLocal(opcode, register) => Ok(
            done.push(opcode) + uleb_bytes(register),
        ),
        DebugOp::SetFile(name) => then_uleb(Ok(done.push(9)), string_p1(name, m, dex)),
        DebugOp::Plain(opcode) => Ok(done.push(opcode)),
    }
}

/// The debug instructions from `i` on, behind `done`.
pub open spec fn debug_ops_bytes(
    ops: Seq<DebugOp>,
    i: int,
    m: Tables,
    dex: DexTables,
    done: Seq<u8>,
) -> Result<Seq<u8>, Error>
    decreases ops.len() - i,
{
    if i >= ops.len() {
        Ok(done)
    } else {
        match debug_op_bytes(ops[i], m, dex, done) {
            Err(e) => Err(e),
            Ok(s) => debug_ops_bytes(ops, i + 1, m, dex, s),
        }
    }
}

/// The parameter names from `i` on, behind `done`.
pub open spec fn names_bytes(
    names: Seq<u32>,
    i: int,
    m: Tables,
    dex: DexTables,
    done: Seq<u8>,
) -> Result<Seq<u8>, Error>
    decreases names.len() - i,
{
    if i >= names.len() {
        Ok(done)
    } else {
        match then_uleb(Ok(done), string_p1(names[i], m, dex)) {
            Err(e) => Err(e),
            Ok(s) => names_bytes(names, i + 1, m, dex, s),
        }
    }
}

/// A debug item with new indices, behind `done`.
pub open spec fn debug_bytes(d: Debugging, m: Tables, dex: DexTables, done: Seq<u8>) -> Result<
    Seq<u8>,
    Error,
> {
    match names_bytes(
        d.parameter_names,
        0,
        m,
        dex,
        done + uleb_bytes(d.line_start) + uleb_bytes(low32(d.parameter_names.len() as int)),
    ) {
        Err(e) => Err(e),
        Ok(s) => debug_ops_bytes(d.ops, 0, m, dex, s),
    }
}

fn write_debug_op(op: DebugOp, mapper: &IndexMapper<'_>, out: &mut Vec<u8>) -> (r: Result<
    (),
    Error,
>)
    ensures
        match r {
            Ok(_) => debug_op_bytes(op, mapper@, mapper.dex@, old(out)@) == Ok::<Seq<u8>, Error>(
                final(out)@,
            ),
            Err(e) => debug_op_bytes(op, mapper@, mapper.dex@, old(out)@) == Err::<Seq<u8>, Error>(
                e,
            ),
        },
{
    match op {
        DebugOp::End => out.push(0),
        DebugOp::AdvancePc(value) => {
            out.push(1);
            write_uleb(value, out);
        },
        DebugOp::AdvanceLine(value) => {
            out.push(2);
            write_sleb(value, out);
        },
        DebugOp::StartLocal(register, name, typ) => {
            out.push(3);
            write_uleb(register, out);
            write_uleb(mapped_p1_string(name, mapper)?, out);
            write_uleb(mapped_p1_type(typ, mapper)?, out);
        },
        DebugOp::StartLocalExtended(register, name, typ, signature) => {
            out.push(4);
            write_uleb(register, out);
            write_uleb(mapped_p1_string(name, mapper)?, out);
            write_uleb(mapped_p1_type(typ, mapper)?, out);
            write_uleb(mapped_p1_string(signature, mapper)?, out);
        },
        DebugOp::EndOrRestartLocal(opcode, register) => {
            out.push(opcode);
            write_uleb(register, out);
        },
        DebugOp::SetFile(name) => {
            out.push(9);
            write_uleb(mapped_p1_string(name, mapper)?, out);
        },
        DebugOp::Plain(opcode) => out.push(opcode),
    }
    Ok(())
}

/// Writes a debug item with new indices. An error leaves `out` where the
/// writing stopped.
pub fn write_debug_info(info: &DebugInfo, mapper: &IndexMapper<'_>, out: &mut Vec<u8>) -> (r: Result<
    (),
    Error,
>)
    ensures
        match r {
            Ok(_) => debug_bytes(info@, mapper@, mapper.dex@, old(out)@) == Ok::<Seq<u8>, Error>(
                final(out)@,
            ),
            Err(e) => debug_bytes(info@, mapper@, mapper.dex@, old(out)@) == Err::<Seq<u8>, Error>(
                e,
            ),
        },
{
    write_uleb(info.line_start, out);
    write_uleb(cut32(info.parameter_names.len()), out);
    let ghost start = out@;
    let ghost dex = mapper.dex@;
    let mut i: usize = 0;
    while i < info.parameter_names.len()
        invariant
            i <= info.parameter_names.len(),
            dex == mapper.dex@,
            start == old(out)@ + uleb_bytes(info.line_start) + uleb_bytes(
                low32(info.parameter_names@.len() as int),
            ),
            names_bytes(info.parameter_names@, 0, mapper@, dex, start) == names_bytes(
                info.parameter_names@,
                i as int,
                mapper@,
                dex,
                out@,
            ),
        decreases info.parameter_names.len() - i,
    {
        let name: u32 = mapped_p1_string(info.parameter_names[i], mapper)?;
        write_uleb(name, out);
        i += 1;
    }
    let ghost named = out@;
    let mut i: usize = 0;
    while i < info.ops.len()
        invariant
            i <= info.ops.len(),
            dex == mapper.dex@,
            debug_bytes(info@, mapper@, dex, old(out)@) == debug_ops_bytes(
                info.ops@,
                i as int,
                mapper@,
                dex,
                out@,
            ),
        decreases info.ops.len() - i,
    {
        write_debug_op(info.ops[i], mapper, out)?;
        i += 1;
    }
    Ok(())
}

} // verus!
