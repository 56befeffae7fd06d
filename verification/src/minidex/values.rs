//! Encoded values, annotations and debug information.
use vstd::prelude::*;

use crate::collections::{lemma_views_empty, lemma_views_push, views, with_member, SortedSet};
use crate::dex_format::{bytes_at, bytes_in, leb_stop, lemma_uleb_end, read_uleb, uleb_in};
use crate::error::Error;

verus! {

// ---------------------------------------------------------------------------
// Data
// ---------------------------------------------------------------------------

/// The tables that an encoded value can point into.
#[derive(Debug, Clone, Copy, PartialEq, Eq, Structural)]
pub enum IndexKind {
    Proto,
    String,
    Type,
    Field,
    Enum,
    Method,
}

impl IndexKind {
    /// The value type that announces an index of this kind.
    pub open spec fn type_code(self) -> u8 {
        match self {
            IndexKind::Proto => 0x15,
            IndexKind::String => 0x17,
            IndexKind::Type => 0x18,
            IndexKind::Field => 0x19,
            IndexKind::Method => 0x1a,
            IndexKind::Enum => 0x1b,
        }
    }

    pub fn encoded_value_type(self) -> (r: u8)
        ensures
            r == self.type_code(),
    {
        match self {
            IndexKind::Proto => 0x15,
            IndexKind::String => 0x17,
            IndexKind::Type => 0x18,
            IndexKind::Field => 0x19,
            IndexKind::Method => 0x1a,
            IndexKind::Enum => 0x1b,
        }
    }
}

#[derive(Debug)]
pub enum EncodedValue {
    Indexed(IndexKind, u32),
    Array(Vec<EncodedValue>),
    Annotation(EncodedAnnotation),
    Null,
    Boolean(u8),
    Primitive(u8, Vec<u8>),
}

/// An annotation: its type, and a value under each element name.
#[derive(Debug)]
pub struct EncodedAnnotation {
    pub type_idx: u32,
    pub elements: Vec<AnnotationElement>,
}

#[derive(Debug)]
pub struct AnnotationElement {
    pub name: u32,
    pub value: EncodedValue,
}

/// The meaning of an encoded value.
pub enum Value {
    Indexed(IndexKind, u32),
    Array(Seq<Value>),
    Annotation(Annotation),
    Null,
    Boolean(u8),
    Primitive(u8, Seq<u8>),
}

/// The meaning of an encoded annotation.
#[verifier::ext_equal]
pub struct Annotation {
    pub type_idx: u32,
    pub names: Seq<u32>,
    pub values: Seq<Value>,
}

impl EncodedValue {
    pub open spec fn model(self) -> Value
        decreases self,
    {
        match self {
            EncodedValue::Indexed(kind, old) => Value::Indexed(kind, old),
            EncodedValue::Array(items) => Value::Array(
                Seq::new(
                    items@.len(),
                    |i: int|
                        if 0 <= i < items@.len() {
                            items@[i].model()
                        } else {
                            Value::Null
                        },
                ),
            ),
            EncodedValue::Annotation(annotation) => Value::Annotation(annotation.model()),
            EncodedValue::Null => Value::Null,
            EncodedValue::Boolean(b) => Value::Boolean(b),
            EncodedValue::Primitive(code, bytes) => Value::Primitive(code, bytes@),
        }
    }
}

impl EncodedAnnotation {
    pub open spec fn model(self) -> Annotation
        decreases self,
    {
        Annotation {
            type_idx: self.type_idx,
            names: element_names(self.elements@),
            values: Seq::new(
                self.elements@.len(),
                |i: int|
                    if 0 <= i < self.elements@.len() {
                        self.elements@[i].model()
                    } else {
                        Value::Null
                    },
            ),
        }
    }
}

impl AnnotationElement {
    /// The meaning of the element's value.
    pub open spec fn model(self) -> Value
        decreases self,
    {
        self.value.model()
    }
}

pub open spec fn element_names(elements: Seq<AnnotationElement>) -> Seq<u32> {
    elements.map_values(|e: AnnotationElement| e.name)
}

pub open spec fn element_values(elements: Seq<AnnotationElement>) -> Seq<Value> {
    elements.map_values(|e: AnnotationElement| e.model())
}

impl View for EncodedValue {
    type V = Value;

    open spec fn view(&self) -> Value {
        self.model()
    }
}

impl View for EncodedAnnotation {
    type V = Annotation;

    open spec fn view(&self) -> Annotation {
        self.model()
    }
}

pub proof fn lemma_array_model(items: Vec<EncodedValue>)
    ensures
        EncodedValue::Array(items)@ == Value::Array(views(items@)),
{
    let model = EncodedValue::Array(items).model();
    assert(model->Array_0 =~= views(items@));
}

pub proof fn lemma_annotation_model(a: EncodedAnnotation)
    ensures
        a@ == (Annotation {
            type_idx: a.type_idx,
            names: element_names(a.elements@),
            values: element_values(a.elements@),
        }),
{
    assert(a@.values =~= element_values(a.elements@));
}

proof fn lemma_element_push(s: Seq<AnnotationElement>, e: AnnotationElement)
    ensures
        element_names(s.push(e)) == element_names(s).push(e.name),
        element_values(s.push(e)) == element_values(s).push(e.value@),
{
    assert(element_names(s.push(e)) =~= element_names(s).push(e.name));
    assert(element_values(s.push(e)) =~= element_values(s).push(e.value@));
}

#[derive(Debug)]
pub struct AnnotationItem {
    pub visibility: u8,
    pub annotation: EncodedAnnotation,
}

/// The meaning of an annotation item.
#[verifier::ext_equal]
pub struct Item {
    pub visibility: u8,
    pub annotation: Annotation,
}

impl View for AnnotationItem {
    type V = Item;

    open spec fn view(&self) -> Item {
        Item { visibility: self.visibility, annotation: self.annotation@ }
    }
}

#[derive(Debug, Clone, Copy, PartialEq, Eq, Structural)]
pub enum DebugOp {
    End,
    AdvancePc(u32),
    AdvanceLine(i32),
    StartLocal(u32, u32, u32),
    StartLocalExtended(u32, u32, u32, u32),
    EndOrRestartLocal(u8, u32),
    SetFile(u32),
    Plain(u8),
}

#[derive(Debug)]
pub struct DebugInfo {
    pub line_start: u32,
    pub parameter_names: Vec<u32>,
    pub ops: Vec<DebugOp>,
}

/// The meaning of a debug item.
#[verifier::ext_equal]
pub struct Debugging {
    pub line_start: u32,
    pub parameter_names: Seq<u32>,
    pub ops: Seq<DebugOp>,
}

impl View for DebugInfo {
    type V = Debugging;

    open spec fn view(&self) -> Debugging {
        Debugging {
            line_start: self.line_start,
            parameter_names: self.parameter_names@,
            ops: self.ops@,
        }
    }
}

/// The identifiers that metadata refers to, each table in ascending order.
#[derive(Debug)]
pub struct MetadataRefs {
    pub strings: SortedSet,
    pub types: SortedSet,
    pub protos: SortedSet,
    pub fields: SortedSet,
    pub methods: SortedSet,
}

/// The meaning of a reference collection.
#[verifier::ext_equal]
pub struct RefSets {
    pub strings: Seq<u32>,
    pub types: Seq<u32>,
    pub protos: Seq<u32>,
    pub fields: Seq<u32>,
    pub methods: Seq<u32>,
}

impl View for MetadataRefs {
    type V = RefSets;

    open spec fn view(&self) -> RefSets {
        RefSets {
            strings: self.strings@,
            types: self.types@,
            protos: self.protos@,
            fields: self.fields@,
            methods: self.methods@,
        }
    }
}

impl RefSets {
    pub open spec fn empty() -> RefSets {
        RefSets {
            strings: Seq::empty(),
            types: Seq::empty(),
            protos: Seq::empty(),
            fields: Seq::empty(),
            methods: Seq::empty(),
        }
    }

    pub open spec fn with_string(self, index: u32) -> RefSets {
        RefSets { strings: with_member(self.strings, index), ..self }
    }

    pub open spec fn with_type(self, index: u32) -> RefSets {
        RefSets { types: with_member(self.types, index), ..self }
    }

    pub open spec fn with_field(self, index: u32) -> RefSets {
        RefSets { fields: with_member(self.fields, index), ..self }
    }

    pub open spec fn with_method(self, index: u32) -> RefSets {
        RefSets { methods: with_member(self.methods, index), ..self }
    }

    pub open spec fn with_proto(self, index: u32) -> RefSets {
        RefSets { protos: with_member(self.protos, index), ..self }
    }

    /// With what an encoded index of the given kind refers to.
    pub open spec fn with(self, kind: IndexKind, index: u32) -> RefSets {
        match kind {
            IndexKind::Proto => self.with_proto(index),
            IndexKind::String => self.with_string(index),
            IndexKind::Type => self.with_type(index),
            IndexKind::Field => self.with_field(index),
            IndexKind::Enum => self.with_field(index),
            IndexKind::Method => self.with_method(index),
        }
    }

    /// With a string whose index is stored plus one, so that zero means none.
    pub open spec fn with_string_p1(self, value: u32) -> RefSets {
        if value == 0 {
            self
        } else {
            self.with_string((value - 1) as u32)
        }
    }

    /// With a type whose index is stored plus one, so that zero means none.
    pub open spec fn with_type_p1(self, value: u32) -> RefSets {
        if value == 0 {
            self
        } else {
            self.with_type((value - 1) as u32)
        }
    }
}

impl MetadataRefs {
    pub fn new() -> (r: MetadataRefs)
        ensures
            r@ == RefSets::empty(),
    {
        MetadataRefs {
            strings: SortedSet::new(),
            types: SortedSet::new(),
            protos: SortedSet::new(),
            fields: SortedSet::new(),
            methods: SortedSet::new(),
        }
    }

    fn insert(&mut self, kind: IndexKind, index: u32)
        ensures
            final(self)@ == old(self)@.with(kind, index),
    {
        match kind {
            IndexKind::Proto => self.protos.insert(index),
            IndexKind::String => self.strings.insert(index),
            IndexKind::Type => self.types.insert(index),
            IndexKind::Field => self.fields.insert(index),
            IndexKind::Enum => self.fields.insert(index),
            IndexKind::Method => self.methods.insert(index),
        }
    }

    pub fn insert_string_p1(&mut self, value: u32)
        ensures
            final(self)@ == old(self)@.with_string_p1(value),
    {
        if value != 0 {
            self.strings.insert(value - 1);
        }
    }

    pub fn insert_type_p1(&mut self, value: u32)
        ensures
            final(self)@ == old(self)@.with_type_p1(value),
    {
        if value != 0 {
            self.types.insert(value - 1);
        }
    }
}

// ---------------------------------------------------------------------------
// Encoded values
// ---------------------------------------------------------------------------

/// The little-endian number that some bytes spell.
pub open spec fn le_number(bytes: Seq<u8>) -> int
    decreases bytes.len(),
{
    if bytes.len() == 0 {
        0
    } else {
        bytes[0] + 0x100 * le_number(bytes.skip(1))
    }
}

/// The kind of index that a value type announces.
pub open spec fn kind_of(value_type: u8) -> Option<IndexKind> {
    if value_type == 0x15 {
        Some(IndexKind::Proto)
    } else if value_type == 0x17 {
        Some(IndexKind::String)
    } else if value_type == 0x18 {
        Some(IndexKind::Type)
    } else if value_type == 0x19 {
        Some(IndexKind::Field)
    } else if value_type == 0x1a {
        Some(IndexKind::Method)
    } else if value_type == 0x1b {
        Some(IndexKind::Enum)
    } else {
        None
    }
}

/// The index that some bytes spell. A byte behind the fourth falls onto the one
/// four places before it.
pub open spec fn index_number(bytes: Seq<u8>) -> u32 {
    le_number(
        Seq::new(
            if bytes.len() < 4 {
                bytes.len()
            } else {
                4
            },
            |i: int|
                if i + 4 < bytes.len() {
                    bytes[i] | bytes[i + 4]
                } else {
                    bytes[i]
                },
        ),
    ) as u32
}

/// Up to four bytes spell their little-endian number.
pub proof fn lemma_index_number(bytes: Seq<u8>)
    requires
        bytes.len() <= 4,
    ensures
        index_number(bytes) == le_number(bytes) as u32,
{
    assert(bytes =~= Seq::new(
        if bytes.len() < 4 {
            bytes.len()
        } else {
            4
        },
        |i: int|
            if i + 4 < bytes.len() {
                bytes[i] | bytes[i + 4]
            } else {
                bytes[i]
            },
    ));
}

/// The encoded value at `at`, where it ends, and the references with those
/// that it makes.
pub open spec fn value_in(data: Seq<u8>, at: int, refs: RefSets) -> Result<
    (Value, int, RefSets),
    Error,
>
    decreases data.len() - at, 0int, 0int,
{
    if at >= data.len() {
        Err(Error::TruncatedEncodedValue)
    } else {
        let code = (data[at] % 32) as u8;
        let arg = (data[at] / 32) as u8;
        if code == 0x16 {
            Err(Error::MethodHandleValue)
        } else if kind_of(code) is Some {
            match bytes_in(data, at + 1, arg + 1) {
                Err(e) => Err(e),
                Ok(bytes) => {
                    let index = index_number(bytes);
                    let kind = kind_of(code)->0;
                    Ok((Value::Indexed(kind, index), at + 2 + arg, refs.with(kind, index)))
                },
            }
        } else if code == 0x1c {
            match uleb_in(data, at + 1) {
                Err(e) => Err(e),
                Ok((count, start)) => {
                    proof {
                        lemma_uleb_end(data, at + 1);
                    }
                    match values_in(data, start, refs, count as int, Seq::empty()) {
                        Err(e) => Err(e),
                        Ok((items, end, r)) => Ok((Value::Array(items), end, r)),
                    }
                },
            }
        } else if code == 0x1d {
            match annotation_in(data, at + 1, refs) {
                Err(e) => Err(e),
                Ok((a, end, r)) => Ok((Value::Annotation(a), end, r)),
            }
        } else if code == 0x1e {
            Ok((Value::Null, at + 1, refs))
        } else if code == 0x1f {
            Ok((Value::Boolean(arg), at + 1, refs))
        } else {
            match bytes_in(data, at + 1, arg + 1) {
                Err(e) => Err(e),
                Ok(bytes) => Ok((Value::Primitive(code, bytes), at + 2 + arg, refs)),
            }
        }
    }
}

/// `count` encoded values one after another from `at` on, behind `items`.
pub open spec fn values_in(
    data: Seq<u8>,
    at: int,
    refs: RefSets,
    count: int,
    items: Seq<Value>,
) -> Result<(Seq<Value>, int, RefSets), Error>
    decreases data.len() - at, 1int, count,
{
    if count <= 0 {
        Ok((items, at, refs))
    } else {
        match value_in(data, at, refs) {
            Err(e) => Err(e),
            Ok((v, next, r)) => if at < next <= data.len() {
                values_in(data, next, r, count - 1, items.push(v))
            } else {
                Err(Error::TruncatedEncodedValue)
            },
        }
    }
}

/// The encoded annotation at `at`.
pub open spec fn annotation_in(data: Seq<u8>, at: int, refs: RefSets) -> Result<
    (Annotation, int, RefSets),
    Error,
>
    decreases data.len() - at, 2int, 0int,
{
    match uleb_in(data, at) {
        Err(e) => Err(e),
        Ok((type_idx, count_at)) => match uleb_in(data, count_at) {
            Err(e) => Err(e),
            Ok((count, start)) => {
                proof {
                    lemma_uleb_end(data, at);
                    lemma_uleb_end(data, count_at);
                }
                match elements_in(
                    data,
                    start,
                    refs.with_type(type_idx),
                    count as int,
                    Seq::empty(),
                    Seq::empty(),
                ) {
                    Err(e) => Err(e),
                    Ok((names, values, end, r)) => Ok(
                        (Annotation { type_idx, names, values }, end, r),
                    ),
                }
            },
        },
    }
}

/// `count` annotation elements one after another from `at` on.
pub open spec fn elements_in(
    data: Seq<u8>,
    at: int,
    refs: RefSets,
    count: int,
    names: Seq<u32>,
    values: Seq<Value>,
) -> Result<(Seq<u32>, Seq<Value>, int, RefSets), Error>
    decreases data.len() - at, 1int, count,
{
    if count <= 0 {
        Ok((names, values, at, refs))
    } else {
        match uleb_in(data, at) {
            Err(e) => Err(e),
            Ok((name, value_at)) => {
                proof {
                    lemma_uleb_end(data, at);
                }
                match value_in(data, value_at, refs.with_string(name)) {
                    Err(e) => Err(e),
                    Ok((v, next, r)) => if at < next <= data.len() {
                        elements_in(data, next, r, count - 1, names.push(name), values.push(v))
                    } else {
                        Err(Error::TruncatedEncodedValue)
                    },
                }
            },
        }
    }
}

/// Where the reading of a value stops that cannot be read, and what has been
/// noted by then.
pub open spec fn value_stop(data: Seq<u8>, at: int, refs: RefSets) -> (int, RefSets)
    decreases data.len() - at, 0int, 0int,
{
    if at >= data.len() {
        (at, refs)
    } else {
        let code = (data[at] % 32) as u8;
        if code == 0x1c {
            match uleb_in(data, at + 1) {
                Err(_) => (leb_stop(data, at + 1, 5), refs),
                Ok((count, start)) => {
                    proof {
                        lemma_uleb_end(data, at + 1);
                    }
                    values_stop(data, start, refs, count as int)
                },
            }
        } else if code == 0x1d {
            annotation_stop(data, at + 1, refs)
        } else {
            (at + 1, refs)
        }
    }
}

/// Where the reading of `count` values stops that cannot all be read.
pub open spec fn values_stop(data: Seq<u8>, at: int, refs: RefSets, count: int) -> (int, RefSets)
    decreases data.len() - at, 1int, count,
{
    if count <= 0 {
        (at, refs)
    } else {
        match value_in(data, at, refs) {
            Err(_) => value_stop(data, at, refs),
            Ok((_, next, r)) => if at < next <= data.len() {
                values_stop(data, next, r, count - 1)
            } else {
                (next, r)
            },
        }
    }
}

/// Where the reading of an annotation stops that cannot be read, and what has
/// been noted by then.
pub open spec fn annotation_stop(data: Seq<u8>, at: int, refs: RefSets) -> (int, RefSets)
    decreases data.len() - at, 2int, 0int,
{
    match uleb_in(data, at) {
        Err(_) => (leb_stop(data, at, 5), refs),
        Ok((type_idx, count_at)) => match uleb_in(data, count_at) {
            Err(_) => (leb_stop(data, count_at, 5), refs.with_type(type_idx)),
            Ok((count, start)) => {
                proof {
                    lemma_uleb_end(data, at);
                    lemma_uleb_end(data, count_at);
                }
                elements_stop(data, start, refs.with_type(type_idx), count as int)
            },
        },
    }
}

/// Where the reading of `count` annotation elements stops that cannot all be
/// read.
pub open spec fn elements_stop(data: Seq<u8>, at: int, refs: RefSets, count: int) -> (int, RefSets)
    decreases data.len() - at, 1int, count,
{
    if count <= 0 {
        (at, refs)
    } else {
        match uleb_in(data, at) {
            Err(_) => (leb_stop(data, at, 5), refs),
            Ok((name, value_at)) => {
                proof {
                    lemma_uleb_end(data, at);
                }
                match value_in(data, value_at, refs.with_string(name)) {
                    Err(_) => value_stop(data, value_at, refs.with_string(name)),
                    Ok((_, next, r)) => if at < next <= data.len() {
                        elements_stop(data, next, r, count - 1)
                    } else {
                        (next, r)
                    },
                }
            },
        }
    }
}

/// Byte `i` of an index: the byte itself, and the one four places behind it.
fn index_byte(bytes: &[u8], i: usize) -> (r: u8)
    requires
        i < 4,
        bytes@.len() <= 8,
    ensures
        r == (if i + 4 < bytes@.len() {
            bytes@[i as int] | bytes@[i + 4]
        } else if i < bytes@.len() {
            bytes@[i as int]
        } else {
            0
        }),
{
    if i + 4 < bytes.len() {
        bytes[i] | bytes[i + 4]
    } else if i < bytes.len() {
        bytes[i]
    } else {
        0
    }
}

/// The index that some bytes spell.
fn index_of_bytes(bytes: &[u8]) -> (r: u32)
    requires
        1 <= bytes@.len() <= 8,
    ensures
        r == index_number(bytes@),
{
    reveal_with_fuel(le_number, 5);
    let value: u64 = index_byte(bytes, 0) as u64 + 0x100 * index_byte(bytes, 1) as u64 + 0x1_0000
        * index_byte(bytes, 2) as u64 + 0x100_0000 * index_byte(bytes, 3) as u64;
    value as u32
}

/// The kind of index that a value type announces.
fn index_kind(value_type: u8) -> (r: Option<IndexKind>)
    ensures
        r == kind_of(value_type),
{
    match value_type {
        0x15 => Some(IndexKind::Proto),
        0x17 => Some(IndexKind::String),
        0x18 => Some(IndexKind::Type),
        0x19 => Some(IndexKind::Field),
        0x1a => Some(IndexKind::Method),
        0x1b => Some(IndexKind::Enum),
        _ => None,
    }
}

/// Reads one encoded value, moves the cursor behind it and notes what it
/// refers to. An error leaves both where the reading stopped.
pub fn parse_encoded_value(data: &[u8], cursor: &mut u64, refs: &mut MetadataRefs) -> (r: Result<
    EncodedValue,
    Error,
>)
    ensures
        match r {
            Ok(v) => value_in(data@, *old(cursor) as int, old(refs)@) == Ok::<
                (Value, int, RefSets),
                Error,
            >((v@, *final(cursor) as int, final(refs)@)) && *old(cursor) < *final(cursor)
                <= data@.len(),
            Err(e) => value_in(data@, *old(cursor) as int, old(refs)@) == Err::<
                (Value, int, RefSets),
                Error,
            >(e) && (*final(cursor) as int, final(refs)@) == value_stop(
                data@,
                *old(cursor) as int,
                old(refs)@,
            ),
        },
    decreases data@.len() - *old(cursor), 0int,
{
    let len: u64 = data.len() as u64;
    let at: u64 = *cursor;
    if at >= len {
        return Err(Error::TruncatedEncodedValue);
    }
    let header: u8 = data[at as usize];
    let code: u8 = header % 32;
    let arg: u8 = header / 32;
    *cursor = at + 1;
    if code == 0x16 {
        return Err(Error::MethodHandleValue);
    }
    if let Some(kind) = index_kind(code) {
        let bytes = bytes_at(data, at + 1, arg as u64 + 1)?;
        let index: u32 = index_of_bytes(bytes);
        *cursor = at + 2 + arg as u64;
        refs.insert(kind, index);
        return Ok(EncodedValue::Indexed(kind, index));
    }
    if code == 0x1c {
        let count: u32 = read_uleb(data, cursor)?;
        let items = parse_values(data, cursor, count, refs)?;
        proof {
            lemma_array_model(items);
        }
        return Ok(EncodedValue::Array(items));
    }
    if code == 0x1d {
        let annotation = parse_encoded_annotation(data, cursor, refs)?;
        return Ok(EncodedValue::Annotation(annotation));
    }
    if code == 0x1e {
        return Ok(EncodedValue::Null);
    }
    if code == 0x1f {
        return Ok(EncodedValue::Boolean(arg));
    }
    let mut bytes: Vec<u8> = Vec::new();
    bytes.extend_from_slice(bytes_at(data, at + 1, arg as u64 + 1)?);
    assert(bytes@ =~= bytes_in(data@, at + 1, arg + 1)->Ok_0);
    *cursor = at + 2 + arg as u64;
    Ok(EncodedValue::Primitive(code, bytes))
}

/// Reads `count` encoded values.
fn parse_values(data: &[u8], cursor: &mut u64, count: u32, refs: &mut MetadataRefs) -> (r: Result<
    Vec<EncodedValue>,
    Error,
>)
    ensures
        match r {
            Ok(v) => values_in(
                data@,
                *old(cursor) as int,
                old(refs)@,
                count as int,
                Seq::empty(),
            ) == Ok::<(Seq<Value>, int, RefSets), Error>(
                (views(v@), *final(cursor) as int, final(refs)@),
            ) && *old(cursor) <= *final(cursor) && (*final(cursor) <= data@.len() || *final(cursor)
                == *old(cursor)),
            Err(e) => values_in(
                data@,
                *old(cursor) as int,
                old(refs)@,
                count as int,
                Seq::empty(),
            ) == Err::<(Seq<Value>, int, RefSets), Error>(e) && (
                *final(cursor) as int,
                final(refs)@,
            ) == values_stop(data@, *old(cursor) as int, old(refs)@, count as int),
        },
    decreases data@.len() - *old(cursor), 1int,
{
    let mut items: Vec<EncodedValue> = Vec::new();
    let mut left: u32 = count;
    let ghost start = *cursor as int;
    let ghost before = refs@;
    proof {
        lemma_views_empty::<EncodedValue>();
    }
    while left > 0
        invariant
            left <= count,
            start == *old(cursor),
            before == old(refs)@,
            start <= *cursor,
            *cursor <= data@.len() || *cursor == start,
            values_in(data@, start, before, count as int, Seq::empty()) == values_in(
                data@,
                *cursor as int,
                refs@,
                left as int,
                views(items@),
            ),
            values_stop(data@, start, before, count as int) == values_stop(
                data@,
                *cursor as int,
                refs@,
                left as int,
            ),
        decreases left,
    {
        let item = parse_encoded_value(data, cursor, refs)?;
        proof {
            lemma_views_push(items@, item);
        }
        items.push(item);
        left -= 1;
    }
    Ok(items)
}

/// Reads one encoded annotation, moves the cursor behind it and notes what it
/// refers to. An error leaves both where the reading stopped.
pub fn parse_encoded_annotation(
    data: &[u8],
    cursor: &mut u64,
    refs: &mut MetadataRefs,
) -> (r: Result<EncodedAnnotation, Error>)
    ensures
        match r {
            Ok(v) => annotation_in(data@, *old(cursor) as int, old(refs)@) == Ok::<
                (Annotation, int, RefSets),
                Error,
            >((v@, *final(cursor) as int, final(refs)@)) && *old(cursor) < *final(cursor)
                <= data@.len(),
            Err(e) => annotation_in(data@, *old(cursor) as int, old(refs)@) == Err::<
                (Annotation, int, RefSets),
                Error,
            >(e) && (*final(cursor) as int, final(refs)@) == annotation_stop(
                data@,
                *old(cursor) as int,
                old(refs)@,
            ),
        },
    decreases data@.len() - *old(cursor), 2int,
{
    let ghost start = *cursor as int;
    let ghost before = refs@;
    let type_idx: u32 = read_uleb(data, cursor)?;
    refs.types.insert(type_idx);
    let count: u32 = read_uleb(data, cursor)?;
    let ghost first = *cursor as int;
    let ghost typed = refs@;
    assert(typed == before.with_type(type_idx));
    let mut elements: Vec<AnnotationElement> = Vec::new();
    let mut left: u32 = count;
    assert(element_names(elements@) =~= Seq::<u32>::empty());
    assert(element_values(elements@) =~= Seq::<Value>::empty());
    while left > 0
        invariant
            left <= count,
            start == *old(cursor),
            before == old(refs)@,
            start < first <= *cursor,
            *cursor <= data@.len(),
            annotation_in(data@, start, before) == match elements_in(
                data@,
                *cursor as int,
                refs@,
                left as int,
                element_names(elements@),
                element_values(elements@),
            ) {
                Err(e) => Err::<(Annotation, int, RefSets), Error>(e),
                Ok((n, v, end, r)) => Ok((Annotation { type_idx, names: n, values: v }, end, r)),
            },
            annotation_stop(data@, start, before) == elements_stop(
                data@,
                *cursor as int,
                refs@,
                left as int,
            ),
        decreases left,
    {
        let name: u32 = read_uleb(data, cursor)?;
        refs.strings.insert(name);
        let value = parse_encoded_value(data, cursor, refs)?;
        let element = AnnotationElement { name, value };
        proof {
            lemma_element_push(elements@, element);
        }
        elements.push(element);
        left -= 1;
    }
    let annotation = EncodedAnnotation { type_idx, elements };
    proof {
        lemma_annotation_model(annotation);
    }
    Ok(annotation)
}

/// The encoded array at `offset`, and the references with those that it makes.
pub open spec fn array_in(data: Seq<u8>, offset: u32, refs: RefSets) -> Result<
    (Seq<Value>, RefSets),
    Error,
> {
    match uleb_in(data, offset as int) {
        Err(e) => Err(e),
        Ok((count, start)) => match values_in(data, start, refs, count as int, Seq::empty()) {
            Err(e) => Err(e),
            Ok((items, _, r)) => Ok((items, r)),
        },
    }
}

/// What has been noted where the reading of an array stops that cannot be read.
pub open spec fn array_stop(data: Seq<u8>, offset: u32, refs: RefSets) -> RefSets {
    match uleb_in(data, offset as int) {
        Err(_) => refs,
        Ok((count, start)) => values_stop(data, start, refs, count as int).1,
    }
}

/// Reads the encoded array at `offset` and notes what it refers to. An error
/// leaves the references where the reading stopped.
pub fn parse_encoded_array(data: &[u8], offset: u32, refs: &mut MetadataRefs) -> (r: Result<
    Vec<EncodedValue>,
    Error,
>)
    ensures
        match r {
            Ok(v) => array_in(data@, offset, old(refs)@) == Ok::<(Seq<Value>, RefSets), Error>(
                (views(v@), final(refs)@),
            ),
            Err(e) => array_in(data@, offset, old(refs)@) == Err::<(Seq<Value>, RefSets), Error>(
                e,
            ) && final(refs)@ == array_stop(data@, offset, old(refs)@),
        },
{
    let mut cursor: u64 = offset as u64;
    let count: u32 = read_uleb(data, &mut cursor)?;
    parse_values(data, &mut cursor, count, refs)
}

} // verus!
