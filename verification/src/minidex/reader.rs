//! Reading the parts of a class: its definition, members and code.
use vstd::prelude::*;

use crate::collections::{lemma_views_empty, lemma_views_push, views};
use crate::dex_format::{
    all_three, bytes_at, bytes_in, field_reader, fields_in, method_reader, methods_in, proto_reader,
    protos_in, read_field_ids, read_method_ids, read_proto_ids, read_strings, read_type_list,
    read_types, read_uleb, string_reader, strings_in, type_list_in, type_reader, types_in, u16_at,
    u16_in, u32_at, u32_in, uleb_in, DexHeader, FieldId, MethodId, ProtoId,
};
use crate::error::Error;
use crate::minidex::leb::{read_sleb, sleb_in};
use crate::results::{collect, lemma_collect_error, lemma_collect_ok, repeat};
use crate::text::{same_text, texts};

verus! {

// ---------------------------------------------------------------------------
// Data
// ---------------------------------------------------------------------------

#[derive(Debug, Clone, Copy, PartialEq, Eq, Structural)]
pub struct ClassDef {
    pub class_idx: u32,
    pub access_flags: u32,
    pub superclass_idx: u32,
    pub interfaces_off: u32,
    pub source_file_idx: u32,
    pub annotations_off: u32,
    pub class_data_off: u32,
    pub static_values_off: u32,
}

#[derive(Debug, Clone, Copy, PartialEq, Eq, Structural)]
pub struct EncodedField {
    pub field_idx: u32,
    pub access_flags: u32,
}

#[derive(Debug, Clone, Copy, PartialEq, Eq, Structural)]
pub struct EncodedMethod {
    pub method_idx: u32,
    pub access_flags: u32,
    pub code_off: u32,
}

#[derive(Debug)]
pub struct ClassData {
    pub static_fields: Vec<EncodedField>,
    pub instance_fields: Vec<EncodedField>,
    pub direct_methods: Vec<EncodedMethod>,
    pub virtual_methods: Vec<EncodedMethod>,
}

/// The members of a class.
#[verifier::ext_equal]
pub struct Members {
    pub static_fields: Seq<EncodedField>,
    pub instance_fields: Seq<EncodedField>,
    pub direct_methods: Seq<EncodedMethod>,
    pub virtual_methods: Seq<EncodedMethod>,
}

impl Members {
    /// All fields: the static ones, and then the instance fields.
    pub open spec fn fields(self) -> Seq<EncodedField> {
        self.static_fields + self.instance_fields
    }

    /// All methods: the direct ones, and then the virtual methods.
    pub open spec fn methods(self) -> Seq<EncodedMethod> {
        self.direct_methods + self.virtual_methods
    }
}

impl View for ClassData {
    type V = Members;

    open spec fn view(&self) -> Members {
        Members {
            static_fields: self.static_fields@,
            instance_fields: self.instance_fields@,
            direct_methods: self.direct_methods@,
            virtual_methods: self.virtual_methods@,
        }
    }
}

impl ClassData {
    /// The static fields, and then the instance fields.
    pub fn fields(&self) -> (r: Vec<EncodedField>)
        ensures
            r@ == self@.fields(),
    {
        let mut out: Vec<EncodedField> = Vec::new();
        out.extend_from_slice(self.static_fields.as_slice());
        out.extend_from_slice(self.instance_fields.as_slice());
        assert(out@ =~= self@.fields());
        out
    }

    /// The direct methods, and then the virtual methods.
    pub fn methods(&self) -> (r: Vec<EncodedMethod>)
        ensures
            r@ == self@.methods(),
    {
        let mut out: Vec<EncodedMethod> = Vec::new();
        out.extend_from_slice(self.direct_methods.as_slice());
        out.extend_from_slice(self.virtual_methods.as_slice());
        assert(out@ =~= self@.methods());
        out
    }
}

#[derive(Debug, Clone, Copy, PartialEq, Eq, Structural)]
pub struct TryItem {
    pub start_addr: u32,
    pub insn_count: u16,
    pub handler_off: u16,
}

#[derive(Debug)]
pub struct CatchHandler {
    pub old_offset: u16,
    pub size: i32,
    pub pairs: Vec<(u32, u32)>,
    pub catch_all_addr: Option<u32>,
}

/// A list of exception handlers: caught types with their addresses, and the
/// address for everything else.
#[verifier::ext_equal]
pub struct Handler {
    pub old_offset: u16,
    pub size: i32,
    pub pairs: Seq<(u32, u32)>,
    pub catch_all_addr: Option<u32>,
}

impl View for CatchHandler {
    type V = Handler;

    open spec fn view(&self) -> Handler {
        Handler {
            old_offset: self.old_offset,
            size: self.size,
            pairs: self.pairs@,
            catch_all_addr: self.catch_all_addr,
        }
    }
}

#[derive(Debug)]
pub struct CodeItem {
    pub registers_size: u16,
    pub ins_size: u16,
    pub outs_size: u16,
    pub tries_size: u16,
    pub debug_info_off: u32,
    pub insns: Vec<u8>,
    pub tries: Vec<TryItem>,
    pub handlers: Vec<CatchHandler>,
}

/// The code of one method.
#[verifier::ext_equal]
pub struct Code {
    pub registers_size: u16,
    pub ins_size: u16,
    pub outs_size: u16,
    pub tries_size: u16,
    pub debug_info_off: u32,
    pub insns: Seq<u8>,
    pub tries: Seq<TryItem>,
    pub handlers: Seq<Handler>,
}

impl View for CodeItem {
    type V = Code;

    open spec fn view(&self) -> Code {
        Code {
            registers_size: self.registers_size,
            ins_size: self.ins_size,
            outs_size: self.outs_size,
            tries_size: self.tries_size,
            debug_info_off: self.debug_info_off,
            insns: self.insns@,
            tries: self.tries@,
            handlers: views(self.handlers@),
        }
    }
}

/// A DEX file with its identifier tables read.
#[derive(Debug)]
pub struct DexView<'a> {
    pub data: &'a [u8],
    pub header: DexHeader,
    pub strings: Vec<String>,
    pub type_descriptor_indices: Vec<u32>,
    pub protos: Vec<ProtoId>,
    pub fields: Vec<FieldId>,
    pub methods: Vec<MethodId>,
}

/// What a DEX file says: its bytes and its identifier tables.
#[verifier::ext_equal]
pub struct DexTables {
    pub data: Seq<u8>,
    pub header: DexHeader,
    pub strings: Seq<Seq<char>>,
    pub types: Seq<u32>,
    pub protos: Seq<ProtoId>,
    pub fields: Seq<FieldId>,
    pub methods: Seq<MethodId>,
}

impl<'a> View for DexView<'a> {
    type V = DexTables;

    open spec fn view(&self) -> DexTables {
        DexTables {
            data: self.data@,
            header: self.header,
            strings: texts(self.strings@),
            types: self.type_descriptor_indices@,
            protos: self.protos@,
            fields: self.fields@,
            methods: self.methods@,
        }
    }
}

// ---------------------------------------------------------------------------
// Tables
// ---------------------------------------------------------------------------

impl DexTables {
    /// The DEX file whose header stands at `base`, or the first fault.
    pub open spec fn tables_in(data: Seq<u8>, base: int) -> Result<DexTables, Error> {
        match DexHeader::header_in(data, base) {
            Err(e) => Err(e),
            Ok(header) => match strings_in(data, header) {
                Err(e) => Err(e),
                Ok(strings) => match types_in(data, header) {
                    Err(e) => Err(e),
                    Ok(types) => match protos_in(data, header) {
                        Err(e) => Err(e),
                        Ok(protos) => match fields_in(data, header) {
                            Err(e) => Err(e),
                            Ok(fields) => match methods_in(data, header) {
                                Err(e) => Err(e),
                                Ok(methods) => Ok(
                                    DexTables {
                                        data,
                                        header,
                                        strings,
                                        types,
                                        protos,
                                        fields,
                                        methods,
                                    },
                                ),
                            },
                        },
                    },
                },
            },
        }
    }

    /// The tables have the sizes that the header gives.
    pub open spec fn sized(self) -> bool {
        &&& self.strings.len() == self.header.string_ids_size
        &&& self.types.len() == self.header.type_ids_size
        &&& self.protos.len() == self.header.proto_ids_size
        &&& self.fields.len() == self.header.field_ids_size
        &&& self.methods.len() == self.header.method_ids_size
    }

    /// The descriptor of type `index`.
    pub open spec fn descriptor(self, index: int) -> Result<Seq<char>, Error> {
        if index >= self.types.len() {
            Err(Error::InvalidTypeIndex(index as u32))
        } else if self.types[index] >= self.strings.len() {
            Err(Error::InvalidDescriptorString(self.types[index]))
        } else {
            Ok(self.strings[self.types[index] as int])
        }
    }

    /// Class definition `index`.
    pub open spec fn class_def_in(self, index: int) -> Result<ClassDef, Error> {
        let at = self.header.class_defs_off + index * 32;
        if index >= self.header.class_defs_size {
            Err(Error::InvalidClassIndex)
        } else {
            match collect(word_reader(self.data, at), 8) {
                Err(e) => Err(e),
                Ok(w) => Ok(
                    ClassDef {
                        class_idx: w[0],
                        access_flags: w[1],
                        superclass_idx: w[2],
                        interfaces_off: w[3],
                        source_file_idx: w[4],
                        annotations_off: w[5],
                        class_data_off: w[6],
                        static_values_off: w[7],
                    },
                ),
            }
        }
    }

    /// The first class definition from `index` on that defines `descriptor`.
    pub open spec fn class_from(self, descriptor: Seq<char>, index: int) -> Result<
        Option<ClassDef>,
        Error,
    >
        decreases self.header.class_defs_size - index,
    {
        if index >= self.header.class_defs_size {
            Ok(None)
        } else {
            match self.class_def_in(index) {
                Err(e) => Err(e),
                Ok(class) => match self.descriptor(class.class_idx as int) {
                    Err(e) => Err(e),
                    Ok(text) => if text == descriptor {
                        Ok(Some(class))
                    } else {
                        self.class_from(descriptor, index + 1)
                    },
                },
            }
        }
    }

    pub open spec fn type_list(self, offset: u32) -> Result<Seq<u16>, Error> {
        type_list_in(self.data, offset, self.header.type_ids_size)
    }
}

/// The 32-bit words from `at` on.
pub open spec fn word_reader(data: Seq<u8>, at: int) -> spec_fn(int) -> Result<u32, Error> {
    |i: int| u32_in(data, at + i * 4)
}

/// Tables that were read have the sizes that the header gives.
pub proof fn lemma_tables_sized(data: Seq<u8>, base: int)
    requires
        DexTables::tables_in(data, base) is Ok,
    ensures
        DexTables::tables_in(data, base)->Ok_0.sized(),
{
    let h = DexHeader::header_in(data, base)->Ok_0;
    lemma_collect_ok(string_reader(data, h), h.string_ids_size as nat);
    lemma_collect_ok(type_reader(data, h), h.type_ids_size as nat);
    lemma_collect_ok(proto_reader(data, h), h.proto_ids_size as nat);
    lemma_collect_ok(field_reader(data, h), h.field_ids_size as nat);
    lemma_collect_ok(method_reader(data, h), h.method_ids_size as nat);
}

impl<'a> DexView<'a> {
    pub fn parse(data: &'a [u8]) -> (r: Result<DexView<'a>, Error>)
        ensures
            match r {
                Ok(v) => DexTables::tables_in(data@, 0) == Ok::<DexTables, Error>(v@) && v@.sized(),
                Err(e) => DexTables::tables_in(data@, 0) == Err::<DexTables, Error>(e),
            },
    {
        DexView::parse_at(data, 0)
    }

    pub fn parse_at(data: &'a [u8], base: u64) -> (r: Result<DexView<'a>, Error>)
        ensures
            match r {
                Ok(v) => DexTables::tables_in(data@, base as int) == Ok::<DexTables, Error>(v@)
                    && v@.sized(),
                Err(e) => DexTables::tables_in(data@, base as int) == Err::<DexTables, Error>(e),
            },
    {
        let header = DexHeader::parse_at(data, base)?;
        let strings = read_strings(data, &header)?;
        let type_descriptor_indices = read_types(data, &header)?;
        let protos = read_proto_ids(data, &header)?;
        let fields = read_field_ids(data, &header)?;
        let methods = read_method_ids(data, &header)?;
        proof {
            lemma_tables_sized(data@, base as int);
        }
        Ok(DexView { data, header, strings, type_descriptor_indices, protos, fields, methods })
    }

    pub fn type_descriptor(&self, index: u32) -> (r: Result<&str, Error>)
        ensures
            match r {
                Ok(s) => self@.descriptor(index as int) == Ok::<Seq<char>, Error>(s@),
                Err(e) => self@.descriptor(index as int) == Err::<Seq<char>, Error>(e),
            },
    {
        if index as usize >= self.type_descriptor_indices.len() {
            return Err(Error::InvalidTypeIndex(index));
        }
        let string_idx: u32 = self.type_descriptor_indices[index as usize];
        if string_idx as usize >= self.strings.len() {
            return Err(Error::InvalidDescriptorString(string_idx));
        }
        Ok(self.strings[string_idx as usize].as_str())
    }

    pub fn class_def(&self, index: u64) -> (r: Result<ClassDef, Error>)
        ensures
            r == self@.class_def_in(index as int),
    {
        if index >= self.header.class_defs_size as u64 {
            return Err(Error::InvalidClassIndex);
        }
        let at: u64 = self.header.class_defs_off as u64 + index * 32;
        let ghost f = word_reader(self.data@, at as int);
        let mut words: Vec<u32> = Vec::new();
        let mut i: u64 = 0;
        while i < 8
            invariant
                i <= 8,
                at <= 0x100_0000_0000,
                f == word_reader(self.data@, at as int),
                index < self.header.class_defs_size,
                at == self.header.class_defs_off + index * 32,
                collect(f, i as nat) == Ok::<Seq<u32>, Error>(words@),
                words@.len() == i,
            decreases 8 - i,
        {
            match u32_at(self.data, at + i * 4) {
                Ok(w) => words.push(w),
                Err(e) => {
                    proof {
                        lemma_collect_error(f, i as nat, 8);
                    }
                    return Err(e);
                },
            }
            i += 1;
        }
        Ok(
            ClassDef {
                class_idx: words[0],
                access_flags: words[1],
                superclass_idx: words[2],
                interfaces_off: words[3],
                source_file_idx: words[4],
                annotations_off: words[5],
                class_data_off: words[6],
                static_values_off: words[7],
            },
        )
    }

    pub fn find_class(&self, descriptor: &str) -> (r: Result<Option<ClassDef>, Error>)
        ensures
            r == self@.class_from(descriptor@, 0),
    {
        let mut index: u64 = 0;
        let count: u64 = self.header.class_defs_size as u64;
        while index < count
            invariant
                index <= count,
                count == self.header.class_defs_size,
                self@.class_from(descriptor@, 0) == self@.class_from(descriptor@, index as int),
            decreases count - index,
        {
            let class = self.class_def(index)?;
            let text = self.type_descriptor(class.class_idx)?;
            if same_text(text, descriptor) {
                return Ok(Some(class));
            }
            index += 1;
        }
        Ok(None)
    }

    pub fn type_list(&self, offset: u32) -> (r: Result<Vec<u16>, Error>)
        ensures
            match r {
                Ok(v) => self@.type_list(offset) == Ok::<Seq<u16>, Error>(v@),
                Err(e) => self@.type_list(offset) == Err::<Seq<u16>, Error>(e),
            },
    {
        read_type_list(self.data, offset, self.header.type_ids_size)
    }

    pub fn class_data(&self, offset: u32) -> (r: Result<ClassData, Error>)
        ensures
            match r {
                Ok(v) => members_in(self.data@, offset) == Ok::<Members, Error>(v@),
                Err(e) => members_in(self.data@, offset) == Err::<Members, Error>(e),
            },
    {
        if offset == 0 {
            return Ok(
                ClassData {
                    static_fields: Vec::new(),
                    instance_fields: Vec::new(),
                    direct_methods: Vec::new(),
                    virtual_methods: Vec::new(),
                },
            );
        }
        let mut cursor: u64 = offset as u64;
        let static_count: u32 = read_uleb(self.data, &mut cursor)?;
        let instance_count: u32 = read_uleb(self.data, &mut cursor)?;
        let direct_count: u32 = read_uleb(self.data, &mut cursor)?;
        let virtual_count: u32 = read_uleb(self.data, &mut cursor)?;
        let static_fields = read_members_fields(self.data, &mut cursor, static_count)?;
        let instance_fields = read_members_fields(self.data, &mut cursor, instance_count)?;
        let direct_methods = read_members_methods(self.data, &mut cursor, direct_count)?;
        let virtual_methods = read_members_methods(self.data, &mut cursor, virtual_count)?;
        Ok(ClassData { static_fields, instance_fields, direct_methods, virtual_methods })
    }

    pub fn code_item(&self, offset: u32) -> (r: Result<CodeItem, Error>)
        ensures
            match r {
                Ok(v) => code_in(self.data@, offset as int) == Ok::<Code, Error>(v@),
                Err(e) => code_in(self.data@, offset as int) == Err::<Code, Error>(e),
            },
    {
        let data = self.data;
        let at: u64 = offset as u64;
        let registers_size: u16 = u16_at(data, at)?;
        let ins_size: u16 = u16_at(data, at + 2)?;
        let outs_size: u16 = u16_at(data, at + 4)?;
        let tries_size: u16 = u16_at(data, at + 6)?;
        let debug_info_off: u32 = u32_at(data, at + 8)?;
        let insns_size: u64 = u32_at(data, at + 12)? as u64;
        let mut insns: Vec<u8> = Vec::new();
        insns.extend_from_slice(bytes_at(data, at + 16, insns_size * 2)?);
        assert(insns@ =~= bytes_in(data@, offset + 16, insns_size * 2)->Ok_0);
        let mut tries: Vec<TryItem> = Vec::new();
        let mut handlers: Vec<CatchHandler> = Vec::new();
        proof {
            lemma_views_empty::<CatchHandler>();
        }
        if tries_size != 0 {
            let tries_off: u64 = (at + 16 + insns_size * 2 + 3) / 4 * 4;
            tries = read_tries(data, tries_off, tries_size)?;
            let base: u64 = tries_off + tries_size as u64 * 8;
            handlers = read_handlers(data, base)?;
        }
        Ok(
            CodeItem {
                registers_size,
                ins_size,
                outs_size,
                tries_size,
                debug_info_off,
                insns,
                tries,
                handlers,
            },
        )
    }
}

// ---------------------------------------------------------------------------
// Members
// ---------------------------------------------------------------------------

/// Reads one field: the difference to the index before it, and its flags.
pub open spec fn field_step(data: Seq<u8>) -> spec_fn((int, u32)) -> Result<
    (EncodedField, (int, u32)),
    Error,
> {
    |s: (int, u32)|
        match uleb_in(data, s.0) {
            Err(e) => Err(e),
            Ok((delta, flags_at)) => if s.1 + delta > u32::MAX {
                Err(Error::FieldIndexOverflow)
            } else {
                match uleb_in(data, flags_at) {
                    Err(e) => Err(e),
                    Ok((access_flags, end)) => {
                        let field_idx = (s.1 + delta) as u32;
                        Ok((EncodedField { field_idx, access_flags }, (end, field_idx)))
                    },
                }
            },
        }
}

/// Reads one method: the difference to the index before it, its flags and
/// where its code is.
pub open spec fn method_step(data: Seq<u8>) -> spec_fn((int, u32)) -> Result<
    (EncodedMethod, (int, u32)),
    Error,
> {
    |s: (int, u32)|
        match uleb_in(data, s.0) {
            Err(e) => Err(e),
            Ok((delta, flags_at)) => if s.1 + delta > u32::MAX {
                Err(Error::MethodIndexOverflow)
            } else {
                match uleb_in(data, flags_at) {
                    Err(e) => Err(e),
                    Ok((access_flags, code_at)) => match uleb_in(data, code_at) {
                        Err(e) => Err(e),
                        Ok((code_off, end)) => {
                            let method_idx = (s.1 + delta) as u32;
                            Ok(
                                (
                                    EncodedMethod { method_idx, access_flags, code_off },
                                    (end, method_idx),
                                ),
                            )
                        },
                    },
                }
            },
        }
}

pub open spec fn field_list(data: Seq<u8>, at: int, count: u32) -> Result<
    (Seq<EncodedField>, (int, u32)),
    Error,
> {
    repeat(field_step(data), (at, 0u32), count as nat, Seq::empty())
}

pub open spec fn method_list(data: Seq<u8>, at: int, count: u32) -> Result<
    (Seq<EncodedMethod>, (int, u32)),
    Error,
> {
    repeat(method_step(data), (at, 0u32), count as nat, Seq::empty())
}

/// The four lists of members whose counts have been read; they start at `at`.
pub open spec fn member_lists(
    data: Seq<u8>,
    at: int,
    statics: u32,
    instances: u32,
    directs: u32,
    virtuals: u32,
) -> Result<Members, Error> {
    match field_list(data, at, statics) {
        Err(e) => Err(e),
        Ok((static_fields, (a, _))) => match field_list(data, a, instances) {
            Err(e) => Err(e),
            Ok((instance_fields, (b, _))) => match method_list(data, b, directs) {
                Err(e) => Err(e),
                Ok((direct_methods, (c, _))) => match method_list(data, c, virtuals) {
                    Err(e) => Err(e),
                    Ok((virtual_methods, _)) => Ok(
                        Members { static_fields, instance_fields, direct_methods, virtual_methods },
                    ),
                },
            },
        },
    }
}

/// The members that the class data at `offset` lists; offset zero stands for
/// none.
pub open spec fn members_in(data: Seq<u8>, offset: u32) -> Result<Members, Error> {
    if offset == 0 {
        Ok(
            Members {
                static_fields: Seq::empty(),
                instance_fields: Seq::empty(),
                direct_methods: Seq::empty(),
                virtual_methods: Seq::empty(),
            },
        )
    } else {
        match uleb_in(data, offset as int) {
            Err(e) => Err(e),
            Ok((statics, a)) => match uleb_in(data, a) {
                Err(e) => Err(e),
                Ok((instances, b)) => match uleb_in(data, b) {
                    Err(e) => Err(e),
                    Ok((directs, c)) => match uleb_in(data, c) {
                        Err(e) => Err(e),
                        Ok((virtuals, d)) => member_lists(
                            data,
                            d,
                            statics,
                            instances,
                            directs,
                            virtuals,
                        ),
                    },
                },
            },
        }
    }
}

fn read_members_fields(data: &[u8], cursor: &mut u64, count: u32) -> (r: Result<
    Vec<EncodedField>,
    Error,
>)
    ensures
        match r {
            Ok(v) => field_list(data@, *old(cursor) as int, count) matches Ok((items, (end, _)))
                && items == v@ && end == *final(cursor),
            Err(e) => field_list(data@, *old(cursor) as int, count) == Err::<
                (Seq<EncodedField>, (int, u32)),
                Error,
            >(e),
        },
{
    let mut out: Vec<EncodedField> = Vec::new();
    let mut index: u32 = 0;
    let mut done: u32 = 0;
    let ghost start = *cursor as int;
    while done < count
        invariant
            done <= count,
            start == *old(cursor),
            field_list(data@, start, count) == repeat(
                field_step(data@),
                (*cursor as int, index),
                (count - done) as nat,
                out@,
            ),
        decreases count - done,
    {
        let delta: u32 = read_uleb(data, cursor)?;
        match index.checked_add(delta) {
            Some(next) => index = next,
            None => return Err(Error::FieldIndexOverflow),
        }
        let access_flags: u32 = read_uleb(data, cursor)?;
        out.push(EncodedField { field_idx: index, access_flags });
        done += 1;
    }
    Ok(out)
}

fn read_members_methods(data: &[u8], cursor: &mut u64, count: u32) -> (r: Result<
    Vec<EncodedMethod>,
    Error,
>)
    ensures
        match r {
            Ok(v) => method_list(data@, *old(cursor) as int, count) matches Ok((items, (end, _)))
                && items == v@ && end == *final(cursor),
            Err(e) => method_list(data@, *old(cursor) as int, count) == Err::<
                (Seq<EncodedMethod>, (int, u32)),
                Error,
            >(e),
        },
{
    let mut out: Vec<EncodedMethod> = Vec::new();
    let mut index: u32 = 0;
    let mut done: u32 = 0;
    let ghost start = *cursor as int;
    while done < count
        invariant
            done <= count,
            start == *old(cursor),
            method_list(data@, start, count) == repeat(
                method_step(data@),
                (*cursor as int, index),
                (count - done) as nat,
                out@,
            ),
        decreases count - done,
    {
        let delta: u32 = read_uleb(data, cursor)?;
        match index.checked_add(delta) {
            Some(next) => index = next,
            None => return Err(Error::MethodIndexOverflow),
        }
        let access_flags: u32 = read_uleb(data, cursor)?;
        let code_off: u32 = read_uleb(data, cursor)?;
        out.push(EncodedMethod { method_idx: index, access_flags, code_off });
        done += 1;
    }
    Ok(out)
}

// ---------------------------------------------------------------------------
// Code
// ---------------------------------------------------------------------------

/// Try item `index` of the list that starts at `at`.
pub open spec fn try_in(data: Seq<u8>, at: int, index: int) -> Result<TryItem, Error> {
    let pos = at + index * 8;
    match all_three(
        u32_in(data, pos),
        u16_in(data, pos + 4),
        u16_in(data, pos + 6),
    ) {
        Err(e) => Err(e),
        Ok((start_addr, insn_count, handler_off)) => Ok(
            TryItem { start_addr, insn_count, handler_off },
        ),
    }
}

pub open spec fn try_reader(data: Seq<u8>, at: int) -> spec_fn(int) -> Result<TryItem, Error> {
    |i: int| try_in(data, at, i)
}

/// Reads one caught type and its handler's address.
pub open spec fn pair_step(data: Seq<u8>) -> spec_fn(int) -> Result<((u32, u32), int), Error> {
    |at: int|
        match uleb_in(data, at) {
            Err(e) => Err(e),
            Ok((type_idx, a)) => match uleb_in(data, a) {
                Err(e) => Err(e),
                Ok((address, b)) => Ok(((type_idx, address), b)),
            },
        }
}

pub open spec fn magnitude(n: i32) -> nat {
    if n < 0 {
        (-n) as nat
    } else {
        n as nat
    }
}

/// Reads one handler list. A count that is not positive announces an address
/// for everything that is not caught by type.
pub open spec fn handler_step(data: Seq<u8>, base: int) -> spec_fn(int) -> Result<
    (Handler, int),
    Error,
> {
    |at: int|
        if at - base > 0xffff {
            Err(Error::HandlerOffsetTooLarge)
        } else {
            match sleb_in(data, at) {
                Err(e) => Err(e),
                Ok((size, a)) => match repeat(
                    pair_step(data),
                    a,
                    magnitude(size),
                    Seq::<(u32, u32)>::empty(),
                ) {
                    Err(e) => Err(e),
                    Ok((pairs, b)) => {
                        let old_offset = (at - base) as u16;
                        if size > 0 {
                            Ok((Handler { old_offset, size, pairs, catch_all_addr: None }, b))
                        } else {
                            match uleb_in(data, b) {
                                Err(e) => Err(e),
                                Ok((address, c)) => Ok(
                                    (
                                        Handler {
                                            old_offset,
                                            size,
                                            pairs,
                                            catch_all_addr: Some(address),
                                        },
                                        c,
                                    ),
                                ),
                            }
                        }
                    },
                },
            }
        }
}

/// The handler lists at `base`, which a count precedes.
pub open spec fn handlers_in(data: Seq<u8>, base: int) -> Result<Seq<Handler>, Error> {
    match uleb_in(data, base) {
        Err(e) => Err(e),
        Ok((count, at)) => match repeat(
            handler_step(data, base),
            at,
            count as nat,
            Seq::<Handler>::empty(),
        ) {
            Err(e) => Err(e),
            Ok((handlers, _)) => Ok(handlers),
        },
    }
}

/// The next multiple of four.
pub open spec fn aligned4(n: int) -> int {
    (n + 3) / 4 * 4
}

/// The try items and handlers of code with `tries_size` try items, which start
/// at `at`.
pub open spec fn catches_in(data: Seq<u8>, at: int, tries_size: u16) -> Result<
    (Seq<TryItem>, Seq<Handler>),
    Error,
> {
    if tries_size == 0 {
        Ok((Seq::empty(), Seq::empty()))
    } else {
        match collect(try_reader(data, at), tries_size as nat) {
            Err(e) => Err(e),
            Ok(tries) => match handlers_in(data, at + tries_size * 8) {
                Err(e) => Err(e),
                Ok(handlers) => Ok((tries, handlers)),
            },
        }
    }
}

/// The code item at `offset`.
pub open spec fn code_in(data: Seq<u8>, offset: int) -> Result<Code, Error> {
    match u16_in(data, offset) {
        Err(e) => Err(e),
        Ok(registers_size) => match u16_in(data, offset + 2) {
            Err(e) => Err(e),
            Ok(ins_size) => match u16_in(data, offset + 4) {
                Err(e) => Err(e),
                Ok(outs_size) => match u16_in(data, offset + 6) {
                    Err(e) => Err(e),
                    Ok(tries_size) => match u32_in(data, offset + 8) {
                        Err(e) => Err(e),
                        Ok(debug_info_off) => match u32_in(data, offset + 12) {
                            Err(e) => Err(e),
                            Ok(insns_size) => match bytes_in(data, offset + 16, insns_size * 2) {
                                Err(e) => Err(e),
                                Ok(insns) => match catches_in(
                                    data,
                                    aligned4(offset + 16 + insns_size * 2),
                                    tries_size,
                                ) {
                                    Err(e) => Err(e),
                                    Ok((tries, handlers)) => Ok(
                                        Code {
                                            registers_size,
                                            ins_size,
                                            outs_size,
                                            tries_size,
                                            debug_info_off,
                                            insns,
                                            tries,
                                            handlers,
                                        },
                                    ),
                                },
                            },
                        },
                    },
                },
            },
        },
    }
}

fn read_try(data: &[u8], pos: u64) -> (r: Result<TryItem, Error>)
    requires
        pos <= 0x100_0000_0000,
    ensures
        r == try_in(data@, pos as int, 0),
{
    Ok(
        TryItem {
            start_addr: u32_at(data, pos)?,
            insn_count: u16_at(data, pos + 4)?,
            handler_off: u16_at(data, pos + 6)?,
        },
    )
}

fn read_tries(data: &[u8], at: u64, count: u16) -> (r: Result<Vec<TryItem>, Error>)
    requires
        at <= 0x80_0000_0000,
    ensures
        match r {
            Ok(v) => collect(try_reader(data@, at as int), count as nat) == Ok::<
                Seq<TryItem>,
                Error,
            >(v@),
            Err(e) => collect(try_reader(data@, at as int), count as nat) == Err::<
                Seq<TryItem>,
                Error,
            >(e),
        },
{
    let mut out: Vec<TryItem> = Vec::new();
    let mut index: u64 = 0;
    let ghost f = try_reader(data@, at as int);
    while index < count as u64
        invariant
            index <= count,
            at <= 0x80_0000_0000,
            f == try_reader(data@, at as int),
            collect(f, index as nat) == Ok::<Seq<TryItem>, Error>(out@),
        decreases count - index,
    {
        match read_try(data, at + index * 8) {
            Ok(v) => out.push(v),
            Err(e) => {
                proof {
                    lemma_collect_error(f, index as nat, count as nat);
                }
                return Err(e);
            },
        }
        index += 1;
    }
    Ok(out)
}

fn read_pairs(data: &[u8], cursor: &mut u64, count: u32) -> (r: Result<Vec<(u32, u32)>, Error>)
    ensures
        match r {
            Ok(v) => repeat(
                pair_step(data@),
                *old(cursor) as int,
                count as nat,
                Seq::<(u32, u32)>::empty(),
            ) == Ok::<(Seq<(u32, u32)>, int), Error>((v@, *final(cursor) as int)) && *old(cursor)
                <= *final(cursor),
            Err(e) => repeat(
                pair_step(data@),
                *old(cursor) as int,
                count as nat,
                Seq::<(u32, u32)>::empty(),
            ) == Err::<(Seq<(u32, u32)>, int), Error>(e),
        },
{
    let mut out: Vec<(u32, u32)> = Vec::new();
    let mut done: u32 = 0;
    let ghost start = *cursor as int;
    while done < count
        invariant
            done <= count,
            start == *old(cursor),
            start <= *cursor,
            repeat(pair_step(data@), start, count as nat, Seq::<(u32, u32)>::empty()) == repeat(
                pair_step(data@),
                *cursor as int,
                (count - done) as nat,
                out@,
            ),
        decreases count - done,
    {
        let type_idx: u32 = read_uleb(data, cursor)?;
        let address: u32 = read_uleb(data, cursor)?;
        out.push((type_idx, address));
        done += 1;
    }
    Ok(out)
}

fn read_handler(data: &[u8], base: u64, cursor: &mut u64) -> (r: Result<CatchHandler, Error>)
    requires
        base <= *old(cursor),
    ensures
        match r {
            Ok(v) => handler_step(data@, base as int)(*old(cursor) as int) == Ok::<
                (Handler, int),
                Error,
            >((v@, *final(cursor) as int)) && *old(cursor) <= *final(cursor),
            Err(e) => handler_step(data@, base as int)(*old(cursor) as int) == Err::<
                (Handler, int),
                Error,
            >(e),
        },
{
    if *cursor - base > 0xffff {
        return Err(Error::HandlerOffsetTooLarge);
    }
    let old_offset: u16 = (*cursor - base) as u16;
    let size: i32 = read_sleb(data, cursor)?;
    let count: u32 = if size < 0 {
        (-(size as i64)) as u32
    } else {
        size as u32
    };
    let pairs = read_pairs(data, cursor, count)?;
    let catch_all_addr: Option<u32> = if size <= 0 {
        Some(read_uleb(data, cursor)?)
    } else {
        None
    };
    Ok(CatchHandler { old_offset, size, pairs, catch_all_addr })
}

fn read_handlers(data: &[u8], base: u64) -> (r: Result<Vec<CatchHandler>, Error>)
    ensures
        match r {
            Ok(v) => handlers_in(data@, base as int) == Ok::<Seq<Handler>, Error>(views(v@)),
            Err(e) => handlers_in(data@, base as int) == Err::<Seq<Handler>, Error>(e),
        },
{
    let mut cursor: u64 = base;
    let count: u32 = read_uleb(data, &mut cursor)?;
    let ghost start = cursor as int;
    let mut out: Vec<CatchHandler> = Vec::new();
    let mut done: u32 = 0;
    proof {
        lemma_views_empty::<CatchHandler>();
    }
    while done < count
        invariant
            done <= count,
            base <= cursor,
            uleb_in(data@, base as int) == Ok::<(u32, int), Error>((count, start)),
            repeat(handler_step(data@, base as int), start, count as nat, Seq::<Handler>::empty())
                == repeat(
                handler_step(data@, base as int),
                cursor as int,
                (count - done) as nat,
                views(out@),
            ),
        decreases count - done,
    {
        let handler = read_handler(data, base, &mut cursor)?;
        proof {
            lemma_views_push(out@, handler);
        }
        out.push(handler);
        done += 1;
    }
    Ok(out)
}

} // verus!
