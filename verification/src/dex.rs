//! Searching a DEX file: which identifiers match a query, and where the code
//! refers to them.
use std::collections::HashSet;
use std::sync::Arc;
use vstd::prelude::*;

pub mod batch;
pub mod bodies;
pub mod classes;
pub mod indexes;
pub mod instructions;
pub mod probe;
pub mod queries;
pub mod references;
pub mod scan;

use crate::dex::batch::hits;
use crate::dex_format::{
    bytes_at, bytes_in, field_reader, list_reader, method_reader, proto_reader, read_field_ids,
    read_method_ids, read_proto_ids, read_strings, read_type_list, read_types, read_uleb,
    type_list_in, type_reader, u32_at, u32_in, uleb_in, DexHeader, FieldId, MethodId, ProtoId,
};
use crate::error::Error;
use crate::minidex::reader::{lemma_tables_sized, DexTables};
use crate::results::{collect, lemma_collect_error, lemma_collect_ok, repeat, run};
use crate::text::{contains_text, decimal, occurs, push_decimal, push_text, same_text, texts};

pub use crate::dex::batch::StringBatchMatcher;
pub use crate::dex::indexes::ReferenceIndexes;
pub use crate::dex::references::{reference_index, ReferenceSite};
pub use crate::dex::probe::{class_descriptors, class_descriptors_at, dex_defines_class_at};
use crate::collections::ascending;

verus! {

broadcast use vstd::std_specs::hash::group_hash_axioms;

// ---------------------------------------------------------------------------
// Queries
// ---------------------------------------------------------------------------

#[derive(Debug, Clone, Copy, PartialEq, Eq, Structural)]
pub enum ReferenceKind {
    String,
    Type,
    Method,
    Field,
}

impl ReferenceKind {
    pub open spec fn name(self) -> Seq<char> {
        match self {
            ReferenceKind::String => "string"@,
            ReferenceKind::Type => "type"@,
            ReferenceKind::Method => "method"@,
            ReferenceKind::Field => "field"@,
        }
    }

    pub fn label(self) -> (r: &'static str)
        ensures
            r@ == self.name(),
    {
        match self {
            ReferenceKind::String => "string",
            ReferenceKind::Type => "type",
            ReferenceKind::Method => "method",
            ReferenceKind::Field => "field",
        }
    }
}

#[derive(Debug, Clone)]
pub struct MemberQuery {
    pub class: Option<String>,
    pub fuzzy_class: bool,
    pub name: Option<String>,
}

#[derive(Debug, Clone)]
pub enum Query {
    String(String),
    Type(String),
    Method(MemberQuery),
    Field(MemberQuery),
}

impl Query {
    pub open spec fn kind_of(self) -> ReferenceKind {
        match self {
            Query::String(_) => ReferenceKind::String,
            Query::Type(_) => ReferenceKind::Type,
            Query::Method(_) => ReferenceKind::Method,
            Query::Field(_) => ReferenceKind::Field,
        }
    }

    pub fn kind(&self) -> (r: ReferenceKind)
        ensures
            r == self.kind_of(),
    {
        match self {
            Query::String(_) => ReferenceKind::String,
            Query::Type(_) => ReferenceKind::Type,
            Query::Method(_) => ReferenceKind::Method,
            Query::Field(_) => ReferenceKind::Field,
        }
    }
}

// ---------------------------------------------------------------------------
// Contents
// ---------------------------------------------------------------------------

/// Where the instructions of one method stand.
#[derive(Debug, Clone, Copy, PartialEq, Eq, Structural)]
pub struct CodeSpan {
    pub method_idx: u32,
    pub insns_offset: u64,
    pub insns_size: u64,
}

/// What a search needs to know of a DEX file: its identifier tables, the types
/// of its classes, its code, and for each method the position of its last
/// code.
#[verifier::ext_equal]
pub struct DexContents {
    pub tables: DexTables,
    pub class_types: Seq<u32>,
    pub code: Seq<CodeSpan>,
    pub scan_order: Seq<u32>,
}

/// The code found so far: the spans, and for each method the position of its
/// last code.
#[verifier::ext_equal]
pub struct FoundCode {
    pub code: Seq<CodeSpan>,
    pub scan_order: Seq<u32>,
}

/// The type and the class data offset of class definition `index`.
pub open spec fn class_entry_in(data: Seq<u8>, h: DexHeader, index: int) -> Result<
    (u32, u32),
    Error,
> {
    let at = h.class_defs_off + index * 32;
    match u32_in(data, at) {
        Err(e) => Err(e),
        Ok(class_idx) => if class_idx >= h.type_ids_size {
            Err(Error::ClassBadType(index as u64))
        } else {
            match u32_in(data, at + 24) {
                Err(e) => Err(e),
                Ok(class_data) => Ok((class_idx, class_data)),
            }
        },
    }
}

pub open spec fn class_entry_reader(data: Seq<u8>, h: DexHeader) -> spec_fn(int) -> Result<
    (u32, u32),
    Error,
> {
    |i: int| class_entry_in(data, h, i)
}

/// Skips one encoded field.
pub open spec fn skip_field_step(data: Seq<u8>) -> spec_fn(int) -> Result<((), int), Error> {
    |at: int|
        match uleb_in(data, at) {
            Err(e) => Err(e),
            Ok((_, a)) => match uleb_in(data, a) {
                Err(e) => Err(e),
                Ok((_, b)) => Ok(((), b)),
            },
        }
}

/// The code of a method whose code item stands at `offset`.
pub open spec fn span_in(data: Seq<u8>, method_idx: u32, offset: u32, s: FoundCode) -> Result<
    FoundCode,
    Error,
> {
    match u32_in(data, offset + 12) {
        Err(e) => Err(e),
        Ok(size) => match bytes_in(data, offset + 16, size * 2) {
            Err(e) => Err(e),
            Ok(_) => if s.code.len() > u32::MAX {
                Err(Error::TooManyCodeItems)
            } else {
                Ok(
                    FoundCode {
                        code: s.code.push(
                            CodeSpan {
                                method_idx,
                                insns_offset: (offset + 16) as u64,
                                insns_size: size as u64,
                            },
                        ),
                        scan_order: s.scan_order.update(
                            method_idx as int,
                            s.code.len() as u32,
                        ),
                    },
                )
            },
        },
    }
}

/// Reads one encoded method: state is the cursor, the index before it, and the
/// code found so far.
pub open spec fn span_step(data: Seq<u8>, h: DexHeader) -> spec_fn(
    (int, u32, FoundCode),
    int,
) -> Result<(int, u32, FoundCode), Error> {
    |s: (int, u32, FoundCode), i: int|
        match uleb_in(data, s.0) {
            Err(e) => Err(e),
            Ok((delta, a)) => if s.1 + delta > u32::MAX {
                Err(Error::EncodedMethodOverflow)
            } else {
                match uleb_in(data, a) {
                    Err(e) => Err(e),
                    Ok((_, b)) => match uleb_in(data, b) {
                        Err(e) => Err(e),
                        Ok((code_off, c)) => {
                            let method_idx = (s.1 + delta) as u32;
                            if method_idx >= h.method_ids_size {
                                Err(Error::InvalidEncodedMethod)
                            } else if code_off == 0 {
                                Ok((c, method_idx, s.2))
                            } else {
                                match span_in(data, method_idx, code_off, s.2) {
                                    Err(e) => Err(e),
                                    Ok(more) => Ok((c, method_idx, more)),
                                }
                            }
                        },
                    },
                }
            },
        }
}

/// The code of `count` methods whose list starts at `at`.
pub open spec fn spans_in(data: Seq<u8>, h: DexHeader, at: int, count: u32, s: FoundCode) -> Result<
    (int, u32, FoundCode),
    Error,
> {
    run(span_step(data, h), (at, 0u32, s), 0, count as int)
}

/// The member lists of a class, which start at `at`.
pub open spec fn member_spans_in(
    data: Seq<u8>,
    h: DexHeader,
    at: int,
    fields: int,
    directs: u32,
    virtuals: u32,
    s: FoundCode,
) -> Result<FoundCode, Error> {
    match repeat(skip_field_step(data), at, fields as nat, Seq::<()>::empty()) {
        Err(e) => Err(e),
        Ok((_, a)) => match spans_in(data, h, a, directs, s) {
            Err(e) => Err(e),
            Ok((b, _, t)) => match spans_in(data, h, b, virtuals, t) {
                Err(e) => Err(e),
                Ok((_, _, u)) => Ok(u),
            },
        },
    }
}

/// The code of the class whose data stands at `offset`.
pub open spec fn class_spans_in(data: Seq<u8>, h: DexHeader, offset: int, s: FoundCode) -> Result<
    FoundCode,
    Error,
> {
    match uleb_in(data, offset) {
        Err(e) => Err(e),
        Ok((statics, a)) => match uleb_in(data, a) {
            Err(e) => Err(e),
            Ok((instances, b)) => match uleb_in(data, b) {
                Err(e) => Err(e),
                Ok((directs, c)) => match uleb_in(data, c) {
                    Err(e) => Err(e),
                    Ok((virtuals, d)) => if statics + instances > u32::MAX {
                        Err(Error::FieldCountOverflow)
                    } else {
                        member_spans_in(data, h, d, statics + instances, directs, virtuals, s)
                    },
                },
            },
        },
    }
}

/// Finds the code of one class.
pub open spec fn class_step(data: Seq<u8>, h: DexHeader, entries: Seq<(u32, u32)>) -> spec_fn(
    FoundCode,
    int,
) -> Result<FoundCode, Error> {
    |s: FoundCode, i: int|
        if entries[i].1 == 0 {
            Ok(s)
        } else {
            class_spans_in(data, h, entries[i].1 as int, s)
        }
}

pub open spec fn class_types_of(entries: Seq<(u32, u32)>) -> Seq<u32> {
    entries.map_values(|x: (u32, u32)| x.0)
}

/// No code for any of `n` methods.
pub open spec fn no_code(n: nat) -> FoundCode {
    FoundCode { code: Seq::empty(), scan_order: Seq::new(n, |i: int| u32::MAX) }
}

/// Whether each method with code is marked with the position of its last code.
pub open spec fn code_placed(code: Seq<CodeSpan>, scan_order: Seq<u32>) -> bool {
    forall|i: int|
        0 <= i < code.len() ==> {
            let m = (#[trigger] code[i]).method_idx;
            &&& m < scan_order.len()
            &&& i <= scan_order[m as int] < code.len()
            &&& code[scan_order[m as int] as int].method_idx == m
        }
}

impl DexContents {
    /// The contents of the DEX file whose header stands at `base`, or the
    /// first fault.
    pub open spec fn contents_in(data: Seq<u8>, base: int) -> Result<DexContents, Error> {
        match DexTables::tables_in(data, base) {
            Err(e) => Err(e),
            Ok(tables) => match collect(
                class_entry_reader(data, tables.header),
                tables.header.class_defs_size as nat,
            ) {
                Err(e) => Err(e),
                Ok(entries) => match run(
                    class_step(data, tables.header, entries),
                    no_code(tables.methods.len()),
                    0,
                    entries.len() as int,
                ) {
                    Err(e) => Err(e),
                    Ok(s) => Ok(
                        DexContents {
                            tables,
                            class_types: class_types_of(entries),
                            code: s.code,
                            scan_order: s.scan_order,
                        },
                    ),
                },
            },
        }
    }

    /// Every index points into its table, every code item has a size that fits 32
    /// bits, and each method is marked with its last code.
    pub open spec fn indexed(self) -> bool {
        &&& self.tables.sized()
        &&& forall|i: int|
            0 <= i < self.tables.types.len() ==> #[trigger] self.tables.types[i]
                < self.tables.strings.len()
        &&& forall|i: int|
            0 <= i < self.tables.protos.len() ==> (#[trigger] self.tables.protos[i]).return_type_idx
                < self.tables.types.len()
        &&& forall|i: int|
            0 <= i < self.tables.fields.len() ==> {
                let f = #[trigger] self.tables.fields[i];
                f.class_idx < self.tables.types.len() && f.type_idx < self.tables.types.len()
                    && f.name_idx < self.tables.strings.len()
            }
        &&& forall|i: int|
            0 <= i < self.tables.methods.len() ==> {
                let m = #[trigger] self.tables.methods[i];
                m.class_idx < self.tables.types.len() && m.proto_idx < self.tables.protos.len()
                    && m.name_idx < self.tables.strings.len()
            }
        &&& forall|i: int|
            0 <= i < self.class_types.len() ==> #[trigger] self.class_types[i]
                < self.tables.types.len()
        &&& self.scan_order.len() == self.tables.methods.len()
        &&& forall|i: int| 0 <= i < self.code.len() ==> (#[trigger] self.code[i]).insns_size <= u32::MAX
        &&& code_placed(self.code, self.scan_order)
    }

    /// The descriptor of a type.
    pub open spec fn type_text(self, index: int) -> Seq<char> {
        self.tables.strings[self.tables.types[index] as int]
    }
}

/// Tables that were read have indices that point into each other.
pub proof fn lemma_tables_indexed(data: Seq<u8>, base: int)
    requires
        DexTables::tables_in(data, base) is Ok,
    ensures
        ({
            let t = DexTables::tables_in(data, base)->Ok_0;
            &&& t.sized()
            &&& forall|i: int| 0 <= i < t.types.len() ==> #[trigger] t.types[i] < t.strings.len()
            &&& forall|i: int|
                0 <= i < t.protos.len() ==> (#[trigger] t.protos[i]).return_type_idx < t.types.len()
            &&& forall|i: int|
                0 <= i < t.fields.len() ==> {
                    let f = #[trigger] t.fields[i];
                    f.class_idx < t.types.len() && f.type_idx < t.types.len() && f.name_idx
                        < t.strings.len()
                }
            &&& forall|i: int|
                0 <= i < t.methods.len() ==> {
                    let m = #[trigger] t.methods[i];
                    m.class_idx < t.types.len() && m.proto_idx < t.protos.len() && m.name_idx
                        < t.strings.len()
                }
        }),
{
    let t = DexTables::tables_in(data, base)->Ok_0;
    let h = t.header;
    lemma_tables_sized(data, base);
    let types = type_reader(data, h);
    let protos = proto_reader(data, h);
    let fields = field_reader(data, h);
    let methods = method_reader(data, h);
    lemma_collect_ok(types, h.type_ids_size as nat);
    lemma_collect_ok(protos, h.proto_ids_size as nat);
    lemma_collect_ok(fields, h.field_ids_size as nat);
    lemma_collect_ok(methods, h.method_ids_size as nat);
    assert forall|i: int| 0 <= i < t.types.len() implies #[trigger] t.types[i] < t.strings.len() by {
        assert(types(i) == Ok::<u32, Error>(t.types[i]));
    }
    assert forall|i: int| 0 <= i < t.protos.len() implies (#[trigger] t.protos[i]).return_type_idx
        < t.types.len() by {
        assert(protos(i) == Ok::<ProtoId, Error>(t.protos[i]));
    }
    assert forall|i: int| 0 <= i < t.fields.len() implies {
        let f = #[trigger] t.fields[i];
        f.class_idx < t.types.len() && f.type_idx < t.types.len() && f.name_idx < t.strings.len()
    } by {
        assert(fields(i) == Ok::<FieldId, Error>(t.fields[i]));
    }
    assert forall|i: int| 0 <= i < t.methods.len() implies {
        let m = #[trigger] t.methods[i];
        m.class_idx < t.types.len() && m.proto_idx < t.protos.len() && m.name_idx < t.strings.len()
    } by {
        assert(methods(i) == Ok::<MethodId, Error>(t.methods[i]));
    }
}

/// A DEX file that can be searched.
#[derive(Debug)]
pub struct Dex {
    data: Arc<[u8]>,
    header: DexHeader,
    strings: Vec<String>,
    types: Vec<u32>,
    protos: Vec<ProtoId>,
    fields: Vec<FieldId>,
    methods: Vec<MethodId>,
    class_type_indices: Vec<u32>,
    code_items: Vec<CodeSpan>,
    method_scan_order: Vec<u32>,
}

impl View for Dex {
    type V = DexContents;

    closed spec fn view(&self) -> DexContents {
        DexContents {
            tables: DexTables {
                data: self.data@,
                header: self.header,
                strings: texts(self.strings@),
                types: self.types@,
                protos: self.protos@,
                fields: self.fields@,
                methods: self.methods@,
            },
            class_types: self.class_type_indices@,
            code: self.code_items@,
            scan_order: self.method_scan_order@,
        }
    }
}

/// The code found while a DEX file is read.
struct CodeFinder {
    code: Vec<CodeSpan>,
    scan_order: Vec<u32>,
}

impl View for CodeFinder {
    type V = FoundCode;

    closed spec fn view(&self) -> FoundCode {
        FoundCode { code: self.code@, scan_order: self.scan_order@ }
    }
}

impl CodeFinder {
    /// Every size fits 32 bits, and each method is marked with its last code.
    spec fn sound(self) -> bool {
        &&& forall|i: int|
            0 <= i < self.code@.len() ==> (#[trigger] self.code@[i]).insns_size <= u32::MAX
        &&& code_placed(self.code@, self.scan_order@)
    }

    fn add_span(&mut self, data: &[u8], method_idx: u32, offset: u32) -> (r: Result<(), Error>)
        requires
            method_idx < old(self).scan_order@.len(),
            old(self).sound(),
        ensures
            final(self).sound(),
            match r {
                Ok(_) => span_in(data@, method_idx, offset, old(self)@) == Ok::<FoundCode, Error>(
                    final(self)@,
                ) && final(self).scan_order@.len() == old(self).scan_order@.len(),
                Err(e) => span_in(data@, method_idx, offset, old(self)@) == Err::<
                    FoundCode,
                    Error,
                >(e),
            },
    {
        let insns_size: u64 = u32_at(data, offset as u64 + 12)? as u64;
        let insns_offset: u64 = offset as u64 + 16;
        let _insns = bytes_at(data, insns_offset, insns_size * 2)?;
        if self.code.len() as u64 > 0xffff_ffff {
            return Err(Error::TooManyCodeItems);
        }
        let ghost before = *self;
        self.scan_order.set(method_idx as usize, self.code.len() as u32);
        self.code.push(CodeSpan { method_idx, insns_offset, insns_size });
        proof {
            assert forall|i: int| 0 <= i < self.code@.len() implies {
                let m = (#[trigger] self.code@[i]).method_idx;
                &&& m < self.scan_order@.len()
                &&& i <= self.scan_order@[m as int] < self.code@.len()
                &&& self.code@[self.scan_order@[m as int] as int].method_idx == m
            } by {
                if i < before.code@.len() {
                    assert(before.code@[i] == self.code@[i]);
                }
            }
        }
        Ok(())
    }

    fn add_methods(&mut self, data: &[u8], h: &DexHeader, cursor: &mut u64, count: u32) -> (r: Result<
        (),
        Error,
    >)
        requires
            old(self).scan_order@.len() == h.method_ids_size,
            old(self).sound(),
        ensures
            final(self).sound(),
            match r {
                Ok(_) => spans_in(data@, *h, *old(cursor) as int, count, old(self)@) matches Ok(
                    (end, _, s),
                ) && end == *final(cursor) && s == final(self)@ && final(self).scan_order@.len()
                    == old(self).scan_order@.len(),
                Err(e) => spans_in(data@, *h, *old(cursor) as int, count, old(self)@) == Err::<
                    (int, u32, FoundCode),
                    Error,
                >(e),
            },
    {
        let ghost step = span_step(data@, *h);
        let ghost start = *cursor as int;
        let mut index: u32 = 0;
        let mut done: u32 = 0;
        while done < count
            invariant
                done <= count,
                start == *old(cursor),
                self.scan_order@.len() == h.method_ids_size,
                self.sound(),
                step == span_step(data@, *h),
                spans_in(data@, *h, start, count, old(self)@) == run(
                    step,
                    (*cursor as int, index, self@),
                    done as int,
                    count as int,
                ),
            decreases count - done,
        {
            let ghost outcome = step((*cursor as int, index, self@), done as int);
            let delta: u32 = read_uleb(data, cursor)?;
            match index.checked_add(delta) {
                Some(next) => index = next,
                None => return Err(Error::EncodedMethodOverflow),
            }
            let _access_flags: u32 = read_uleb(data, cursor)?;
            let code_off: u32 = read_uleb(data, cursor)?;
            if index >= h.method_ids_size {
                return Err(Error::InvalidEncodedMethod);
            }
            if code_off != 0 {
                self.add_span(data, index, code_off)?;
            }
            assert(outcome == Ok::<(int, u32, FoundCode), Error>(
                (*cursor as int, index, self@),
            ));
            done += 1;
        }
        Ok(())
    }

    fn parse_class_data(&mut self, data: &[u8], h: &DexHeader, offset: u32) -> (r: Result<
        (),
        Error,
    >)
        requires
            old(self).scan_order@.len() == h.method_ids_size,
            old(self).sound(),
        ensures
            final(self).sound(),
            match r {
                Ok(_) => class_spans_in(data@, *h, offset as int, old(self)@) == Ok::<
                    FoundCode,
                    Error,
                >(final(self)@) && final(self).scan_order@.len() == old(self).scan_order@.len(),
                Err(e) => class_spans_in(data@, *h, offset as int, old(self)@) == Err::<
                    FoundCode,
                    Error,
                >(e),
            },
    {
        let mut cursor: u64 = offset as u64;
        let statics: u32 = read_uleb(data, &mut cursor)?;
        let instances: u32 = read_uleb(data, &mut cursor)?;
        let directs: u32 = read_uleb(data, &mut cursor)?;
        let virtuals: u32 = read_uleb(data, &mut cursor)?;
        let fields: u32 = match statics.checked_add(instances) {
            Some(n) => n,
            None => return Err(Error::FieldCountOverflow),
        };
        skip_fields(data, &mut cursor, fields)?;
        self.add_methods(data, h, &mut cursor, directs)?;
        self.add_methods(data, h, &mut cursor, virtuals)
    }
}

fn skip_fields(data: &[u8], cursor: &mut u64, count: u32) -> (r: Result<(), Error>)
    ensures
        match r {
            Ok(_) => repeat(
                skip_field_step(data@),
                *old(cursor) as int,
                count as nat,
                Seq::<()>::empty(),
            ) matches Ok((_, end)) && end == *final(cursor),
            Err(e) => repeat(
                skip_field_step(data@),
                *old(cursor) as int,
                count as nat,
                Seq::<()>::empty(),
            ) == Err::<(Seq<()>, int), Error>(e),
        },
{
    let ghost start = *cursor as int;
    let ghost mut items = Seq::<()>::empty();
    let mut done: u32 = 0;
    while done < count
        invariant
            done <= count,
            start == *old(cursor),
            repeat(skip_field_step(data@), start, count as nat, Seq::<()>::empty()) == repeat(
                skip_field_step(data@),
                *cursor as int,
                (count - done) as nat,
                items,
            ),
        decreases count - done,
    {
        let _index: u32 = read_uleb(data, cursor)?;
        let _access_flags: u32 = read_uleb(data, cursor)?;
        proof {
            items = items.push(());
        }
        done += 1;
    }
    Ok(())
}

fn read_class_entries(data: &[u8], h: &DexHeader) -> (r: Result<Vec<(u32, u32)>, Error>)
    ensures
        match r {
            Ok(v) => collect(class_entry_reader(data@, *h), h.class_defs_size as nat) == Ok::<
                Seq<(u32, u32)>,
                Error,
            >(v@),
            Err(e) => collect(class_entry_reader(data@, *h), h.class_defs_size as nat) == Err::<
                Seq<(u32, u32)>,
                Error,
            >(e),
        },
{
    let ghost f = class_entry_reader(data@, *h);
    let mut out: Vec<(u32, u32)> = Vec::new();
    let count: u64 = h.class_defs_size as u64;
    let mut index: u64 = 0;
    while index < count
        invariant
            index <= count,
            count == h.class_defs_size,
            f == class_entry_reader(data@, *h),
            collect(f, index as nat) == Ok::<Seq<(u32, u32)>, Error>(out@),
        decreases count - index,
    {
        match read_class_entry(data, h, index) {
            Ok(v) => out.push(v),
            Err(e) => {
                proof {
                    lemma_collect_error(f, index as nat, count as nat);
                }
                return Err(e);
            },
        }
        index += 1;
    }
    Ok(out)
}

fn read_class_entry(data: &[u8], h: &DexHeader, index: u64) -> (r: Result<(u32, u32), Error>)
    requires
        index < h.class_defs_size,
    ensures
        r == class_entry_in(data@, *h, index as int),
{
    let at: u64 = h.class_defs_off as u64 + index * 32;
    let class_idx: u32 = u32_at(data, at)?;
    if class_idx >= h.type_ids_size {
        return Err(Error::ClassBadType(index));
    }
    let class_data: u32 = u32_at(data, at + 24)?;
    Ok((class_idx, class_data))
}

/// A copy of some bytes that can be shared, made by `Arc::from` of the
/// standard library.
#[verifier::external_body]
fn shared_copy(data: &[u8]) -> (r: Arc<[u8]>)
    ensures
        r@ == data@,
{
    Arc::from(data)
}

impl Dex {
    #[verifier::type_invariant]
    closed spec fn well_indexed(self) -> bool {
        self@.indexed()
    }

    /// Reads borrowed bytes into a self-contained DEX. Prefer `parse_shared`
    /// where the data is already shared.
    pub fn parse(data: &[u8]) -> (r: Result<Dex, Error>)
        ensures
            match r {
                Ok(v) => DexContents::contents_in(data@, 0) == Ok::<DexContents, Error>(v@)
                    && v@.indexed(),
                Err(e) => DexContents::contents_in(data@, 0) == Err::<DexContents, Error>(e),
            },
    {
        Dex::parse_shared(shared_copy(data))
    }

    pub fn parse_shared(data: Arc<[u8]>) -> (r: Result<Dex, Error>)
        ensures
            match r {
                Ok(v) => DexContents::contents_in(data@, 0) == Ok::<DexContents, Error>(v@)
                    && v@.indexed(),
                Err(e) => DexContents::contents_in(data@, 0) == Err::<DexContents, Error>(e),
            },
    {
        Dex::parse_shared_at(data, 0)
    }

    /// Reads the logical DEX file whose header stands at `header_offset`.
    pub fn parse_shared_at(data: Arc<[u8]>, header_offset: u64) -> (r: Result<Dex, Error>)
        ensures
            match r {
                Ok(v) => DexContents::contents_in(data@, header_offset as int) == Ok::<
                    DexContents,
                    Error,
                >(v@) && v@.indexed(),
                Err(e) => DexContents::contents_in(data@, header_offset as int) == Err::<
                    DexContents,
                    Error,
                >(e),
            },
    {
        let bytes: &[u8] = &data;
        let header = DexHeader::parse_at(bytes, header_offset)?;
        let strings = read_strings(bytes, &header)?;
        let types = read_types(bytes, &header)?;
        let protos = read_proto_ids(bytes, &header)?;
        let fields = read_field_ids(bytes, &header)?;
        let methods = read_method_ids(bytes, &header)?;
        let ghost tables = DexTables {
            data: bytes@,
            header,
            strings: texts(strings@),
            types: types@,
            protos: protos@,
            fields: fields@,
            methods: methods@,
        };
        assert(DexTables::tables_in(bytes@, header_offset as int) == Ok::<DexTables, Error>(
            tables,
        ));
        proof {
            lemma_tables_indexed(bytes@, header_offset as int);
        }
        let entries = read_class_entries(bytes, &header)?;
        let mut scan_order: Vec<u32> = Vec::new();
        scan_order.resize(methods.len(), 0xffff_ffffu32);
        let mut finder = CodeFinder { code: Vec::new(), scan_order };
        assert(finder@ =~= no_code(tables.methods.len()));
        let mut class_type_indices: Vec<u32> = Vec::new();
        let ghost step = class_step(bytes@, header, entries@);
        let mut i: usize = 0;
        while i < entries.len()
            invariant
                i <= entries.len(),
                finder.scan_order@.len() == header.method_ids_size,
                finder.sound(),
                methods@.len() == header.method_ids_size,
                tables.methods == methods@,
                tables.header == header,
                bytes@ == data@,
                class_type_indices.len() == i,
                forall|j: int| 0 <= j < i ==> #[trigger] class_type_indices@[j] == entries@[j].0,
                DexTables::tables_in(bytes@, header_offset as int) == Ok::<DexTables, Error>(
                    tables,
                ),
                collect(class_entry_reader(bytes@, header), header.class_defs_size as nat) == Ok::<
                    Seq<(u32, u32)>,
                    Error,
                >(entries@),
                step == class_step(bytes@, header, entries@),
                run(step, no_code(tables.methods.len()), 0, entries@.len() as int) == run(
                    step,
                    finder@,
                    i as int,
                    entries@.len() as int,
                ),
            decreases entries.len() - i,
        {
            let ghost outcome = step(finder@, i as int);
            class_type_indices.push(entries[i].0);
            if entries[i].1 != 0 {
                finder.parse_class_data(bytes, &header, entries[i].1)?;
            }
            assert(outcome == Ok::<FoundCode, Error>(finder@));
            i += 1;
        }
        assert(class_type_indices@ =~= class_types_of(entries@));
        proof {
            let f = class_entry_reader(bytes@, header);
            lemma_collect_ok(f, header.class_defs_size as nat);
            assert forall|i: int| 0 <= i < class_type_indices@.len() implies #[trigger] class_type_indices@[i]
                < types@.len() by {
                assert(f(i) == Ok::<(u32, u32), Error>(entries@[i]));
            }
        }
        Ok(
            Dex {
                data,
                header,
                strings,
                types,
                protos,
                fields,
                methods,
                class_type_indices,
                code_items: finder.code,
                method_scan_order: finder.scan_order,
            },
        )
    }

    fn type_descriptor(&self, type_idx: u32) -> (r: &str)
        requires
            type_idx < self@.tables.types.len(),
        ensures
            r@ == self@.type_text(type_idx as int),
    {
        proof {
            use_type_invariant(self);
        }
        let string_idx: u32 = self.types[type_idx as usize];
        assert(self@.tables.types[type_idx as int] == string_idx);
        self.strings[string_idx as usize].as_str()
    }

    /// Whether the file defines a class with the given descriptor.
    pub fn defines_class(&self, descriptor: &str) -> (r: bool)
        ensures
            r == exists|i: int|
                0 <= i < self@.class_types.len() && #[trigger] self@.type_text(
                    self@.class_types[i] as int,
                ) == descriptor@,
    {
        proof {
            use_type_invariant(self);
        }
        let mut i: usize = 0;
        while i < self.class_type_indices.len()
            invariant
                i <= self.class_type_indices.len(),
                self@.indexed(),
                forall|j: int|
                    0 <= j < i ==> #[trigger] self@.type_text(self@.class_types[j] as int)
                        != descriptor@,
            decreases self.class_type_indices.len() - i,
        {
            let class_idx: u32 = self.class_type_indices[i];
            assert(self@.class_types[i as int] == class_idx);
            if same_text(self.type_descriptor(class_idx), descriptor) {
                assert(self@.type_text(self@.class_types[i as int] as int) == descriptor@);
                return true;
            }
            i += 1;
        }
        false
    }

    pub fn class_count(&self) -> (r: usize)
        ensures
            r == self@.class_types.len(),
    {
        self.class_type_indices.len()
    }

    pub fn method_count(&self) -> (r: usize)
        ensures
            r == self@.tables.methods.len(),
    {
        self.methods.len()
    }
}

// ---------------------------------------------------------------------------
// Matching
// ---------------------------------------------------------------------------

/// Whether an optional pattern lets a text through.
pub open spec fn name_matches(pattern: Option<String>, text: Seq<char>) -> bool {
    match pattern {
        None => true,
        Some(p) => occurs(text, p@),
    }
}

/// Whether an optional class lets a descriptor through: as a part of it where
/// the match is fuzzy, and else as the whole.
pub open spec fn class_matches(class: Option<String>, fuzzy: bool, descriptor: Seq<char>) -> bool {
    match class {
        None => true,
        Some(p) => if fuzzy {
            occurs(descriptor, p@)
        } else {
            descriptor == p@
        },
    }
}

impl DexContents {
    pub open spec fn member_matches(self, class_idx: u16, name_idx: u32, q: MemberQuery) -> bool {
        name_matches(q.name, self.tables.strings[name_idx as int]) && class_matches(
            q.class,
            q.fuzzy_class,
            self.type_text(class_idx as int),
        )
    }

    /// How many identifiers of a kind there are.
    pub open spec fn count_of(self, kind: ReferenceKind) -> nat {
        match kind {
            ReferenceKind::String => self.tables.strings.len(),
            ReferenceKind::Type => self.tables.types.len(),
            ReferenceKind::Method => self.tables.methods.len(),
            ReferenceKind::Field => self.tables.fields.len(),
        }
    }

    /// Whether identifier `index` of the query's kind matches it.
    pub open spec fn matches_query(self, q: Query, index: int) -> bool {
        match q {
            Query::String(p) => occurs(self.tables.strings[index], p@),
            Query::Type(p) => occurs(self.type_text(index), p@),
            Query::Method(m) => self.member_matches(
                self.tables.methods[index].class_idx,
                self.tables.methods[index].name_idx,
                m,
            ),
            Query::Field(m) => self.member_matches(
                self.tables.fields[index].class_idx,
                self.tables.fields[index].name_idx,
                m,
            ),
        }
    }

    /// The matching identifiers below `n`, in ascending order.
    pub open spec fn matching_below(self, q: Query, n: nat) -> Seq<u32>
        decreases n,
    {
        if n == 0 {
            Seq::empty()
        } else if self.matches_query(q, n - 1) {
            self.matching_below(q, (n - 1) as nat).push((n - 1) as u32)
        } else {
            self.matching_below(q, (n - 1) as nat)
        }
    }

    /// The identifiers that match a query, in ascending order.
    pub open spec fn matching(self, q: Query) -> Seq<u32> {
        self.matching_below(q, self.count_of(q.kind_of()))
    }
}

/// The matching identifiers are exactly those that match, without repetition
/// and in ascending order.
pub proof fn lemma_matching_below(d: DexContents, q: Query, n: nat)
    requires
        n <= 0x1_0000_0000,
    ensures
        forall|x: u32| #[trigger]
            d.matching_below(q, n).contains(x) <==> x < n && d.matches_query(q, x as int),
        ascending(d.matching_below(q, n)),
        d.matching_below(q, n).len() <= n,
    decreases n,
{
    if n > 0 {
        lemma_matching_below(d, q, (n - 1) as nat);
        let before = d.matching_below(q, (n - 1) as nat);
        let now = d.matching_below(q, n);
        assert forall|x: u32| #[trigger] now.contains(x) <==> x < n && d.matches_query(
            q,
            x as int,
        ) by {
            assert(before.contains(x) <==> x < n - 1 && d.matches_query(q, x as int));
            if now.contains(x) {
                let i = choose|i: int| 0 <= i < now.len() && now[i] == x;
                if i < before.len() {
                    assert(before[i] == x);
                }
            }
            if x < n && d.matches_query(q, x as int) {
                if x == n - 1 {
                    assert(now[before.len() as int] == x);
                } else {
                    let i = choose|i: int| 0 <= i < before.len() && before[i] == x;
                    assert(now[i] == x);
                }
            }
        }
        assert forall|i: int, j: int| 0 <= i < j < now.len() implies now[i] < now[j] by {
            if j == before.len() {
                assert(before.contains(before[i]));
            }
        }
    }
}

fn text_matches(pattern: &Option<String>, text: &str) -> (r: bool)
    ensures
        r == name_matches(*pattern, text@),
{
    match pattern {
        None => true,
        Some(p) => contains_text(text, p.as_str()),
    }
}

impl Dex {
    fn member_matches(&self, class_idx: u16, name_idx: u32, query: &MemberQuery) -> (r: bool)
        requires
            class_idx < self@.tables.types.len(),
            name_idx < self@.tables.strings.len(),
        ensures
            r == self@.member_matches(class_idx, name_idx, *query),
    {
        assert(self@.tables.strings[name_idx as int] == self.strings@[name_idx as int]@);
        if !text_matches(&query.name, self.strings[name_idx as usize].as_str()) {
            return false;
        }
        match &query.class {
            None => true,
            Some(p) => {
                let descriptor = self.type_descriptor(class_idx as u32);
                if query.fuzzy_class {
                    contains_text(descriptor, p.as_str())
                } else {
                    same_text(descriptor, p.as_str())
                }
            },
        }
    }

    /// Whether identifier `index` of the query's kind matches it.
    fn matches(&self, query: &Query, index: usize) -> (r: bool)
        requires
            index < self@.count_of(query.kind_of()),
        ensures
            r == self@.matches_query(*query, index as int),
    {
        proof {
            use_type_invariant(self);
        }
        match query {
            Query::String(p) => {
                assert(self@.tables.strings[index as int] == self.strings@[index as int]@);
                contains_text(self.strings[index].as_str(), p.as_str())
            },
            Query::Type(p) => contains_text(
                self.type_descriptor(index as u32),
                p.as_str(),
            ),
            Query::Method(m) => {
                let method = self.methods[index];
                assert(self@.tables.methods[index as int] == method);
                self.member_matches(method.class_idx, method.name_idx, m)
            },
            Query::Field(m) => {
                let field = self.fields[index];
                assert(self@.tables.fields[index as int] == field);
                self.member_matches(field.class_idx, field.name_idx, m)
            },
        }
    }

    fn count(&self, kind: ReferenceKind) -> (r: usize)
        ensures
            r == self@.count_of(kind),
            r <= u32::MAX,
    {
        proof {
            use_type_invariant(self);
        }
        match kind {
            ReferenceKind::String => self.strings.len(),
            ReferenceKind::Type => self.types.len(),
            ReferenceKind::Method => self.methods.len(),
            ReferenceKind::Field => self.fields.len(),
        }
    }

    /// The identifiers that match a query, in ascending order.
    pub fn matching_indices_sorted(&self, query: &Query) -> (r: Vec<u32>)
        ensures
            r@ == self@.matching(*query),
            self@.indexed(),
    {
        proof {
            use_type_invariant(self);
        }
        let n: usize = self.count(query.kind());
        let mut out: Vec<u32> = Vec::new();
        let mut i: usize = 0;
        while i < n
            invariant
                i <= n <= u32::MAX,
                n == self@.count_of(query.kind_of()),
                out@ == self@.matching_below(*query, i as nat),
            decreases n - i,
        {
            if self.matches(query, i) {
                out.push(i as u32);
            }
            i += 1;
        }
        out
    }

    /// The identifiers that match a query.
    pub fn matching_indices(&self, query: &Query) -> (r: HashSet<u32>)
        ensures
            forall|x: u32| #[trigger]
                r@.contains(x) <==> x < self@.count_of(query.kind_of()) && self@.matches_query(
                    *query,
                    x as int,
                ),
            r@ == self@.matching(*query).to_set(),
    {
        let list = self.matching_indices_sorted(query);
        let n: usize = self.count(query.kind());
        proof {
            lemma_matching_below(self@, *query, n as nat);
        }
        let mut out: HashSet<u32> = HashSet::new();
        let mut i: usize = 0;
        while i < list.len()
            invariant
                i <= list.len(),
                out@ == list@.take(i as int).to_set(),
            decreases list.len() - i,
        {
            out.insert(list[i]);
            i += 1;
            assert(list@.take(i as int) =~= list@.take(i - 1).push(list@[i - 1]));
            assert(list@.take(i as int).to_set() =~= list@.take(i - 1).to_set().insert(
                list@[i - 1],
            )) by {
                let a = list@.take(i as int);
                let b = list@.take(i - 1);
                assert forall|x: u32| a.contains(x) <==> b.contains(x) || x == list@[i - 1] by {
                    if b.contains(x) {
                        let k = choose|k: int| 0 <= k < b.len() && b[k] == x;
                        assert(a[k] == x);
                    }
                    if x == list@[i - 1] {
                        assert(a[i - 1] == x);
                    }
                }
            }
        }
        assert(list@.take(i as int) =~= list@);
        out
    }

    /// For each pattern of a batch, the strings in which it occurs.
    pub fn matching_string_indices_batch(&self, matcher: &StringBatchMatcher) -> (r: Vec<Vec<u32>>)
        ensures
            self@.indexed(),
            r@.len() == matcher@.len(),
            forall|p: int|
                0 <= p < r@.len() ==> (#[trigger] r@[p])@ == hits(
                    self@.tables.strings,
                    matcher@[p],
                    self@.tables.strings.len(),
                ),
    {
        proof {
            use_type_invariant(self);
        }
        matcher.matching_indices(&self.strings)
    }
}

// ---------------------------------------------------------------------------
// Formatting
// ---------------------------------------------------------------------------

impl DexContents {
    /// The descriptors of types `list[0 .. n]`, one behind another.
    pub open spec fn joined_types(self, list: Seq<u16>, n: nat) -> Seq<char>
        decreases n,
    {
        if n == 0 {
            Seq::empty()
        } else {
            self.joined_types(list, (n - 1) as nat) + self.type_text(list[n - 1] as int)
        }
    }

    /// A method as `class->name(parameters)result`.
    pub open spec fn method_text(self, index: int) -> Result<Seq<char>, Error> {
        if index >= self.tables.methods.len() {
            Err(Error::InvalidMethodIndex(index as u32))
        } else {
            let m = self.tables.methods[index];
            let p = self.tables.protos[m.proto_idx as int];
            match self.tables.type_list(p.parameters_off) {
                Err(e) => Err(e),
                Ok(list) => Ok(
                    self.type_text(m.class_idx as int) + "->"@
                        + self.tables.strings[m.name_idx as int] + "("@ + self.joined_types(
                        list,
                        list.len(),
                    ) + ")"@ + self.type_text(p.return_type_idx as int),
                ),
            }
        }
    }

    /// A field as `class->name:type`.
    pub open spec fn field_text(self, index: int) -> Result<Seq<char>, Error> {
        if index >= self.tables.fields.len() {
            Err(Error::InvalidFieldIndex(index as u32))
        } else {
            let f = self.tables.fields[index];
            Ok(
                self.type_text(f.class_idx as int) + "->"@ + self.tables.strings[f.name_idx as int]
                    + ":"@ + self.type_text(f.type_idx as int),
            )
        }
    }

    /// An identifier of any kind.
    pub open spec fn match_text(self, kind: ReferenceKind, index: int) -> Result<Seq<char>, Error> {
        match kind {
            ReferenceKind::String => if index >= self.tables.strings.len() {
                Err(Error::InvalidStringIndex(index as u64))
            } else {
                Ok(self.tables.strings[index])
            },
            ReferenceKind::Type => Ok(self.type_text(index)),
            ReferenceKind::Method => self.method_text(index),
            ReferenceKind::Field => self.field_text(index),
        }
    }
}

/// A kind and a number, for an identifier that has no text.
pub open spec fn numbered_text(label: Seq<char>, index: u32) -> Seq<char> {
    label + "@"@ + decimal(index as nat)
}

fn numbered_name(label: &str, index: u32) -> (r: String)
    ensures
        r@ == numbered_text(label@, index),
{
    let mut out: String = String::new();
    push_text(&mut out, label);
    push_text(&mut out, "@");
    push_decimal(&mut out, index as u64);
    assert(out@ =~= numbered_text(label@, index));
    out
}

/// The entries of a type list are below the number of types.
proof fn lemma_type_list(data: Seq<u8>, offset: u32, type_count: u32)
    requires
        type_list_in(data, offset, type_count) is Ok,
    ensures
        forall|i: int|
            0 <= i < type_list_in(data, offset, type_count)->Ok_0.len()
                ==> #[trigger] type_list_in(data, offset, type_count)->Ok_0[i] < type_count,
{
    if offset != 0 {
        let f = list_reader(data, offset as int + 4, type_count);
        let n = u32_in(data, offset as int)->Ok_0 as nat;
        let list = type_list_in(data, offset, type_count)->Ok_0;
        lemma_collect_ok(f, n);
        assert forall|i: int| 0 <= i < list.len() implies #[trigger] list[i] < type_count by {
            assert(f(i) == Ok::<u16, Error>(list[i]));
        }
    }
}

impl Dex {
    fn build_method_descriptor(&self, index: u32) -> (r: Result<String, Error>)
        requires
            index < self@.tables.methods.len(),
        ensures
            match r {
                Ok(s) => self@.method_text(index as int) == Ok::<Seq<char>, Error>(s@),
                Err(e) => self@.method_text(index as int) == Err::<Seq<char>, Error>(e),
            },
    {
        proof {
            use_type_invariant(self);
        }
        let method = self.methods[index as usize];
        assert(self@.tables.methods[index as int] == method);
        let proto = self.protos[method.proto_idx as usize];
        assert(self@.tables.protos[method.proto_idx as int] == proto);
        let list = read_type_list(&self.data, proto.parameters_off, self.header.type_ids_size)?;
        proof {
            lemma_type_list(self@.tables.data, proto.parameters_off, self.header.type_ids_size);
        }
        let mut parameters: String = String::new();
        let mut i: usize = 0;
        while i < list.len()
            invariant
                i <= list.len(),
                forall|j: int| 0 <= j < list@.len() ==> #[trigger] list@[j] < self@.tables.types.len(),
                parameters@ == self@.joined_types(list@, i as nat),
            decreases list.len() - i,
        {
            push_text(&mut parameters, self.type_descriptor(list[i] as u32));
            i += 1;
        }
        let mut out: String = String::new();
        push_text(&mut out, self.type_descriptor(method.class_idx as u32));
        push_text(&mut out, "->");
        assert(self@.tables.strings[method.name_idx as int] == self.strings@[method.name_idx as int]@);
        push_text(&mut out, self.strings[method.name_idx as usize].as_str());
        push_text(&mut out, "(");
        push_text(&mut out, parameters.as_str());
        push_text(&mut out, ")");
        push_text(&mut out, self.type_descriptor(proto.return_type_idx));
        proof {
            let whole = self@.method_text(index as int)->Ok_0;
            assert(out@ =~= whole);
        }
        Ok(out)
    }

    pub fn try_format_method(&self, index: u32) -> (r: Result<String, Error>)
        ensures
            match r {
                Ok(s) => self@.method_text(index as int) == Ok::<Seq<char>, Error>(s@),
                Err(e) => self@.method_text(index as int) == Err::<Seq<char>, Error>(e),
            },
    {
        if index as u64 >= self.methods.len() as u64 {
            return Err(Error::InvalidMethodIndex(index));
        }
        self.build_method_descriptor(index)
    }

    /// A method as text, by its number where it cannot be read.
    pub fn format_method(&self, index: u32) -> (r: String)
        ensures
            r@ == match self@.method_text(index as int) {
                Ok(text) => text,
                Err(_) => numbered_text("method"@, index),
            },
    {
        match self.try_format_method(index) {
            Ok(text) => text,
            Err(_) => numbered_name("method", index),
        }
    }

    pub fn try_format_match(&self, kind: ReferenceKind, index: u32) -> (r: Result<String, Error>)
        requires
            kind == ReferenceKind::Type ==> index < self@.tables.types.len(),
        ensures
            match r {
                Ok(s) => self@.match_text(kind, index as int) == Ok::<Seq<char>, Error>(s@),
                Err(e) => self@.match_text(kind, index as int) == Err::<Seq<char>, Error>(e),
            },
    {
        proof {
            use_type_invariant(self);
        }
        match kind {
            ReferenceKind::String => {
                if index as u64 >= self.strings.len() as u64 {
                    return Err(Error::InvalidStringIndex(index as u64));
                }
                assert(self@.tables.strings[index as int] == self.strings@[index as int]@);
                Ok(self.strings[index as usize].clone())
            },
            ReferenceKind::Type => {
                let mut out: String = String::new();
                push_text(&mut out, self.type_descriptor(index));
                assert(out@ =~= self@.type_text(index as int));
                Ok(out)
            },
            ReferenceKind::Method => self.try_format_method(index),
            ReferenceKind::Field => {
                if index as u64 >= self.fields.len() as u64 {
                    return Err(Error::InvalidFieldIndex(index));
                }
                let field = self.fields[index as usize];
                assert(self@.tables.fields[index as int] == field);
                assert(self@.tables.strings[field.name_idx as int]
                    == self.strings@[field.name_idx as int]@);
                let mut out: String = String::new();
                push_text(&mut out, self.type_descriptor(field.class_idx as u32));
                push_text(&mut out, "->");
                push_text(&mut out, self.strings[field.name_idx as usize].as_str());
                push_text(&mut out, ":");
                push_text(&mut out, self.type_descriptor(field.type_idx as u32));
                assert(out@ =~= self@.field_text(index as int)->Ok_0);
                Ok(out)
            },
        }
    }

    /// An identifier as text, by its kind and number where it cannot be read.
    pub fn format_match(&self, kind: ReferenceKind, index: u32) -> (r: String)
        requires
            kind == ReferenceKind::Type ==> index < self@.tables.types.len(),
        ensures
            r@ == match self@.match_text(kind, index as int) {
                Ok(text) => text,
                Err(_) => numbered_text(kind.name(), index),
            },
    {
        match self.try_format_match(kind, index) {
            Ok(text) => text,
            Err(_) => numbered_name(kind.label(), index),
        }
    }
}

} // verus!
