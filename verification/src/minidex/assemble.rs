//! Assembling the extracted DEX file: identifier tables, data section, map,
//! header, signature and checksum.
use vstd::prelude::*;

use crate::collections::{cut32, low32, views, Entries, SortedMap};
use crate::dex_format::{instruction_width, units_of, width_at};
use crate::error::Error;
use crate::minidex::bytecode::{opcode_at, units_from};
use crate::minidex::canonical::picked;
use crate::minidex::digests::{adler32, adler32_of, sha1_digest, sha1_of};
use crate::minidex::emit::{align4, le32_bytes, padded, push_u32};
use crate::minidex::hollow::{Hollowed, Parts};
use crate::minidex::mapper::IndexMapper;
use crate::minidex::reader::{ClassData, ClassDef, Code, CodeItem, DexTables, Members};
use crate::minidex::sections::{
    annotations_section, class_data_section, code_section, debug_section, interfaces_section,
    methods_in_order, order_methods, params_section, statics_section, strings_section, words_bytes,
    write_annotations, write_class_data, write_code_items, write_debug_items, write_interfaces,
    write_params, write_statics, write_strings, write_words, AnnotationOffsets, PlacedAnnotations,
};
use crate::minidex::tables::{NewField, NewMethod, Proto, Tables};
use crate::order::{lemma_sort_order, lists, positions, sort_order, sorted_indices};

verus! {

/// The index that stands for "none".
pub const NO_INDEX: u32 = 0xffff_ffff;

// ---------------------------------------------------------------------------
// Where the tables stand
// ---------------------------------------------------------------------------

impl Tables {
    pub open spec fn types_at(self) -> int {
        0x70int + 4 * self.strings.len()
    }

    pub open spec fn protos_at(self) -> int {
        self.types_at() + 4 * self.types.len()
    }

    pub open spec fn fields_at(self) -> int {
        self.protos_at() + 12 * self.protos.len()
    }

    pub open spec fn methods_at(self) -> int {
        self.fields_at() + 8 * self.fields.len()
    }

    pub open spec fn class_at(self) -> int {
        self.methods_at() + 8 * self.methods.len()
    }

    /// Where the data section starts.
    pub open spec fn data_at(self) -> int {
        self.class_at() + 32
    }
}

/// The offset of a table; an empty table has none.
pub open spec fn table_off(count: int, at: int) -> u32 {
    if count == 0 {
        0
    } else {
        low32(at)
    }
}

/// Where each part of the data section went.
#[verifier::ext_equal]
pub struct Sections {
    pub data: Seq<u8>,
    pub string_offsets: Seq<u32>,
    pub param_offsets: Seq<u32>,
    pub interfaces_off: u32,
    pub annotations: PlacedAnnotations,
    pub static_values_off: u32,
    pub debug_offsets: Entries<u32>,
    pub code_offsets: Entries<u32>,
    pub class_data_off: u32,
}

/// The data section of a class.
#[verifier::opaque]
pub open spec fn sections_of(members: Members, parts: Parts, m: Tables, dex: DexTables) -> Result<
    Sections,
    Error,
> {
    let base = m.data_at();
    let (a, string_offsets) = strings_section(base, m.strings, 0, Seq::empty(), Seq::empty());
    let (b, param_offsets) = params_section(base, m.protos, 0, padded(a), Seq::empty());
    match interfaces_section(base, parts.interfaces, m, b) {
        Err(e) => Err(e),
        Ok((c, interfaces_off)) => match annotations_section(base, parts.annotations, m, dex, c) {
            Err(e) => Err(e),
            Ok((d, annotations)) => match statics_section(base, parts.static_values, m, dex, d) {
                Err(e) => Err(e),
                Ok((f, static_values_off)) => code_sections_of(
                    members,
                    parts,
                    m,
                    dex,
                    Sections {
                        data: f,
                        string_offsets,
                        param_offsets,
                        interfaces_off,
                        annotations,
                        static_values_off,
                        debug_offsets: Entries::empty(),
                        code_offsets: Entries::empty(),
                        class_data_off: 0,
                    },
                ),
            },
        },
    }
}

/// The data section with debug items, code and class data behind the rest.
pub open spec fn code_sections_of(
    members: Members,
    parts: Parts,
    m: Tables,
    dex: DexTables,
    s: Sections,
) -> Result<Sections, Error> {
    let base = m.data_at();
    let methods = methods_in_order(members.methods(), m);
    match debug_section(base, methods, 0, parts.debug_info, m, dex, s.data, Entries::empty()) {
        Err(e) => Err(e),
        Ok((g, debug_offsets)) => match code_section(
            base,
            methods,
            0,
            parts.codes,
            debug_offsets,
            g,
            Entries::empty(),
        ) {
            Err(e) => Err(e),
            Ok((h, code_offsets)) => match class_data_section(base, members, m, code_offsets, h) {
                Err(e) => Err(e),
                Ok((data, class_data_off)) => Ok(
                    Sections { data, debug_offsets, code_offsets, class_data_off, ..s },
                ),
            },
        },
    }
}

/// A data section with where its parts went.
#[derive(Debug)]
pub struct SectionBytes {
    pub data: Vec<u8>,
    pub string_offsets: Vec<u32>,
    pub param_offsets: Vec<u32>,
    pub interfaces_off: u32,
    pub annotations: AnnotationOffsets,
    pub static_values_off: u32,
    pub debug_offsets: SortedMap<u32>,
    pub code_offsets: SortedMap<u32>,
    pub class_data_off: u32,
}

impl View for SectionBytes {
    type V = Sections;

    open spec fn view(&self) -> Sections {
        Sections {
            data: self.data@,
            string_offsets: self.string_offsets@,
            param_offsets: self.param_offsets@,
            interfaces_off: self.interfaces_off,
            annotations: self.annotations@,
            static_values_off: self.static_values_off,
            debug_offsets: self.debug_offsets@,
            code_offsets: self.code_offsets@,
            class_data_off: self.class_data_off,
        }
    }
}

impl SectionBytes {
    pub open spec fn wf(self) -> bool {
        self.annotations.wf() && self.debug_offsets.wf() && self.code_offsets.wf()
    }
}

fn write_sections(
    base: u64,
    class_data: &ClassData,
    hollowed: &Hollowed,
    mapper: &IndexMapper<'_>,
) -> (r: Result<SectionBytes, Error>)
    requires
        hollowed.wf(),
        base == mapper@.data_at(),
    ensures
        match r {
            Ok(v) => v.wf() && sections_of(class_data@, hollowed@, mapper@, mapper.dex@) == Ok::<
                Sections,
                Error,
            >(v@) && v.string_offsets@.len() == mapper.strings@.len() && v.param_offsets@.len()
                == mapper.protos@.len(),
            Err(e) => sections_of(class_data@, hollowed@, mapper@, mapper.dex@) == Err::<
                Sections,
                Error,
            >(e),
        },
{
    reveal(sections_of);
    let mut data: Vec<u8> = Vec::new();
    let string_offsets = write_strings(base, &mapper.strings, &mut data);
    align4(&mut data);
    let param_offsets = write_params(base, &mapper.protos, &mut data);
    let interfaces_off: u32 = write_interfaces(base, &hollowed.interfaces, mapper, &mut data)?;
    let annotations = write_annotations(base, &hollowed.annotations, mapper, &mut data)?;
    let static_values_off: u32 = write_statics(base, &hollowed.static_values, mapper, &mut data)?;
    let all_methods = class_data.methods();
    let methods = order_methods(&all_methods, mapper);
    let debug_offsets = write_debug_items(
        base,
        &methods,
        &hollowed.debug_info,
        mapper,
        &mut data,
    )?;
    let code_offsets = write_code_items(base, &methods, &hollowed.codes, &debug_offsets, &mut data)?;
    let class_data_off: u32 = write_class_data(base, class_data, mapper, &code_offsets, &mut data)?;
    Ok(
        SectionBytes {
            data,
            string_offsets,
            param_offsets,
            interfaces_off,
            annotations,
            static_values_off,
            debug_offsets,
            code_offsets,
            class_data_off,
        },
    )
}

// ---------------------------------------------------------------------------
// Identifier tables
// ---------------------------------------------------------------------------

/// The words of the prototype table.
pub open spec fn proto_words(protos: Seq<Proto>, offsets: Seq<u32>) -> Seq<u32> {
    Seq::new(
        3 * protos.len(),
        |i: int|
            if i % 3 == 0 {
                protos[i / 3].shorty_idx
            } else if i % 3 == 1 {
                protos[i / 3].return_type_idx
            } else {
                offsets[i / 3]
            },
    )
}

/// Two 16-bit numbers in one word, the first in the low half.
pub open spec fn two(low: u16, high: u16) -> u32 {
    (low + 0x1_0000 * high) as u32
}

/// The words of the field table.
pub open spec fn field_words(fields: Seq<NewField>) -> Seq<u32> {
    Seq::new(
        2 * fields.len(),
        |i: int|
            if i % 2 == 0 {
                two(fields[i / 2].class_idx, fields[i / 2].type_idx)
            } else {
                fields[i / 2].name_idx
            },
    )
}

/// The words of the method table.
pub open spec fn method_words(methods: Seq<NewMethod>) -> Seq<u32> {
    Seq::new(
        2 * methods.len(),
        |i: int|
            if i % 2 == 0 {
                two(methods[i / 2].class_idx, methods[i / 2].proto_idx)
            } else {
                methods[i / 2].name_idx
            },
    )
}

/// The words of all identifier tables.
pub open spec fn id_words(m: Tables, s: Sections) -> Seq<u32> {
    s.string_offsets + m.types + proto_words(m.protos, s.param_offsets) + field_words(m.fields)
        + method_words(m.methods)
}

fn write_ids(mapper: &IndexMapper<'_>, s: &SectionBytes) -> (r: Vec<u32>)
    requires
        s.string_offsets@.len() == mapper.strings@.len(),
        s.param_offsets@.len() == mapper.protos@.len(),
        mapper@.ok(),
    ensures
        r@ == id_words(mapper@, s@),
{
    let mut words: Vec<u32> = Vec::new();
    words.extend_from_slice(s.string_offsets.as_slice());
    words.extend_from_slice(mapper.types.as_slice());
    assert(words@ =~= s.string_offsets@ + mapper.types@);
    let ghost start = words@;
    let ghost all = proto_words(mapper@.protos, s.param_offsets@);
    let mut i: usize = 0;
    assert(words@ =~= start + all.take(0));
    while i < mapper.protos.len()
        invariant
            i <= mapper.protos.len(),
            s.param_offsets@.len() == mapper.protos@.len(),
            all == proto_words(mapper@.protos, s.param_offsets@),
            words@ == start + all.take(3 * i),
        decreases mapper.protos.len() - i,
    {
        assert(mapper@.protos[i as int] == mapper.protos@[i as int]@);
        assert(all[3 * i as int] == mapper@.protos[i as int].shorty_idx);
        assert(all[3 * i + 1] == mapper@.protos[i as int].return_type_idx);
        assert(all[3 * i + 2] == s.param_offsets@[i as int]);
        words.push(mapper.protos[i].shorty_idx);
        words.push(mapper.protos[i].return_type_idx);
        words.push(s.param_offsets[i]);
        i += 1;
        assert(words@ =~= start + all.take(3 * i));
    }
    assert(all.take(3 * i) =~= all);
    let ghost start = words@;
    let ghost all = field_words(mapper@.fields);
    let mut i: usize = 0;
    assert(words@ =~= start + all.take(0));
    while i < mapper.fields.len()
        invariant
            i <= mapper.fields.len(),
            all == field_words(mapper@.fields),
            words@ == start + all.take(2 * i),
        decreases mapper.fields.len() - i,
    {
        let f = mapper.fields[i];
        assert(all[2 * i as int] == two(f.class_idx, f.type_idx));
        assert(all[2 * i + 1] == f.name_idx);
        words.push(f.class_idx as u32 + 0x1_0000 * f.type_idx as u32);
        words.push(f.name_idx);
        i += 1;
        assert(words@ =~= start + all.take(2 * i));
    }
    assert(all.take(2 * i) =~= all);
    let ghost start = words@;
    let ghost all = method_words(mapper@.methods);
    let mut i: usize = 0;
    assert(words@ =~= start + all.take(0));
    while i < mapper.methods.len()
        invariant
            i <= mapper.methods.len(),
            all == method_words(mapper@.methods),
            words@ == start + all.take(2 * i),
        decreases mapper.methods.len() - i,
    {
        let m = mapper.methods[i];
        assert(all[2 * i as int] == two(m.class_idx, m.proto_idx));
        assert(all[2 * i + 1] == m.name_idx);
        words.push(m.class_idx as u32 + 0x1_0000 * m.proto_idx as u32);
        words.push(m.name_idx);
        i += 1;
        assert(words@ =~= start + all.take(2 * i));
    }
    assert(all.take(2 * i) =~= all);
    words
}

/// The class definition.
pub open spec fn class_words(class: ClassDef, s: Sections, m: Tables, dex: DexTables) -> Result<
    Seq<u32>,
    Error,
> {
    match m.mapped_type(class.class_idx) {
        Err(e) => Err(e),
        Ok(class_idx) => match super_index(class, m) {
            Err(e) => Err(e),
            Ok(superclass_idx) => match source_index(class, m, dex) {
                Err(e) => Err(e),
                Ok(source_file_idx) => Ok(
                    seq![
                        class_idx as u32,
                        class.access_flags,
                        superclass_idx,
                        s.interfaces_off,
                        source_file_idx,
                        s.annotations.directory,
                        s.class_data_off,
                        s.static_values_off,
                    ],
                ),
            },
        },
    }
}

pub open spec fn super_index(class: ClassDef, m: Tables) -> Result<u32, Error> {
    if class.superclass_idx == NO_INDEX {
        Ok(NO_INDEX)
    } else {
        match m.mapped_type(class.superclass_idx) {
            Err(e) => Err(e),
            Ok(index) => Ok(index as u32),
        }
    }
}

pub open spec fn source_index(class: ClassDef, m: Tables, dex: DexTables) -> Result<u32, Error> {
    if class.source_file_idx == NO_INDEX {
        Ok(NO_INDEX)
    } else {
        m.mapped_string(dex, class.source_file_idx)
    }
}

fn write_class(class: ClassDef, s: &SectionBytes, mapper: &IndexMapper<'_>) -> (r: Result<
    Vec<u32>,
    Error,
>)
    ensures
        match r {
            Ok(v) => class_words(class, s@, mapper@, mapper.dex@) == Ok::<Seq<u32>, Error>(v@)
                && v@.len() == 8,
            Err(e) => class_words(class, s@, mapper@, mapper.dex@) == Err::<Seq<u32>, Error>(e),
        },
{
    let class_idx: u32 = mapper.mapped_type(class.class_idx)? as u32;
    let superclass_idx: u32 = if class.superclass_idx == NO_INDEX {
        NO_INDEX
    } else {
        mapper.mapped_type(class.superclass_idx)? as u32
    };
    let source_file_idx: u32 = if class.source_file_idx == NO_INDEX {
        NO_INDEX
    } else {
        mapper.mapped_string(class.source_file_idx)?
    };
    let mut words: Vec<u32> = Vec::new();
    words.push(class_idx);
    words.push(class.access_flags);
    words.push(superclass_idx);
    words.push(s.interfaces_off);
    words.push(source_file_idx);
    words.push(s.annotations.directory);
    words.push(s.class_data_off);
    words.push(s.static_values_off);
    assert(words@ =~= class_words(class, s@, mapper@, mapper.dex@)->Ok_0);
    Ok(words)
}

// ---------------------------------------------------------------------------
// The map
// ---------------------------------------------------------------------------

#[derive(Debug, Clone, Copy, PartialEq, Eq, Structural)]
pub struct MapItem {
    pub typ: u16,
    pub size: u32,
    pub offset: u32,
}

/// One map item, if there is anything to list.
#[verifier::opaque]
pub open spec fn listed(present: bool, typ: u16, size: int, offset: u32) -> Seq<MapItem> {
    if present {
        seq![MapItem { typ, size: low32(size), offset }]
    } else {
        Seq::empty()
    }
}

/// The offsets that are not zero.
pub open spec fn nonzero(s: Seq<u32>) -> Seq<u32>
    decreases s.len(),
{
    if s.len() == 0 {
        Seq::empty()
    } else if s.last() != 0 {
        nonzero(s.drop_last()).push(s.last())
    } else {
        nonzero(s.drop_last())
    }
}

/// The least of some numbers; zero if there are none.
pub open spec fn least(s: Seq<u32>) -> u32
    decreases s.len(),
{
    if s.len() == 0 {
        0
    } else if s.len() == 1 || s.last() < least(s.drop_last()) {
        s.last()
    } else {
        least(s.drop_last())
    }
}

/// Where the type lists stand.
pub open spec fn type_lists(s: Sections) -> Seq<u32> {
    if s.interfaces_off != 0 {
        nonzero(s.param_offsets).push(s.interfaces_off)
    } else {
        nonzero(s.param_offsets)
    }
}

/// The map items of the header and the identifier tables.
pub open spec fn table_items(m: Tables, s: Sections) -> Seq<MapItem> {
    listed(true, 0x0000, 1, 0) + listed(
        m.strings.len() > 0,
        0x0001,
        m.strings.len() as int,
        table_off(m.strings.len() as int, 0x70),
    ) + listed(
        m.strings.len() > 0,
        0x2002,
        m.strings.len() as int,
        s.string_offsets[0],
    ) + listed(
        m.types.len() > 0,
        0x0002,
        m.types.len() as int,
        table_off(m.types.len() as int, m.types_at()),
    ) + listed(
        m.protos.len() > 0,
        0x0003,
        m.protos.len() as int,
        table_off(m.protos.len() as int, m.protos_at()),
    ) + listed(
        m.fields.len() > 0,
        0x0004,
        m.fields.len() as int,
        table_off(m.fields.len() as int, m.fields_at()),
    ) + listed(
        m.methods.len() > 0,
        0x0005,
        m.methods.len() as int,
        table_off(m.methods.len() as int, m.methods_at()),
    ) + listed(true, 0x0006, 1, table_off(1, m.class_at()))
}

/// The map items of the data section, behind `done`.
pub open spec fn data_items(done: Seq<MapItem>, s: Sections) -> Seq<MapItem> {
    done + listed(
        type_lists(s).len() > 0,
        0x1001,
        type_lists(s).len() as int,
        least(type_lists(s)),
    ) + listed_places(0x1002, s.annotations.set_refs) + listed_places(0x1003, s.annotations.sets)
        + listed(s.annotations.directory != 0, 0x2006, 1, s.annotations.directory) + listed_places(
        0x2004,
        s.annotations.items,
    ) + listed(s.class_data_off != 0, 0x2000, 1, s.class_data_off) + listed_places(
        0x2001,
        s.code_offsets,
    ) + listed_places(0x2003, s.debug_offsets) + listed(
        s.static_values_off != 0,
        0x2005,
        1,
        s.static_values_off,
    )
}

/// Everything that the map lists but the map itself, table by table.
pub open spec fn map_items(m: Tables, s: Sections) -> Seq<MapItem> {
    data_items(table_items(m, s), s)
}

/// The map item for items that stand at several places.
pub open spec fn listed_places(typ: u16, places: Entries<u32>) -> Seq<MapItem> {
    listed(places.keys.len() > 0, typ, places.keys.len() as int, least(places.values))
}

pub open spec fn map_ranks(items: Seq<MapItem>) -> Seq<Seq<u32>> {
    items.map_values(|x: MapItem| seq![x.offset])
}

/// The map in the order of the offsets, with the map itself last.
#[verifier::opaque]
pub open spec fn map_of(m: Tables, s: Sections, map_off: u32) -> Seq<MapItem> {
    let items = map_items(m, s);
    picked(items, sort_order(map_ranks(items), items.len())).push(
        MapItem { typ: 0x1000, size: 1, offset: map_off },
    )
}

/// The words of the map: its length, and three words for each item.
pub open spec fn map_words(items: Seq<MapItem>) -> Seq<u32> {
    seq![low32(items.len() as int)] + Seq::new(
        3 * items.len(),
        |i: int|
            if i % 3 == 0 {
                items[i / 3].typ as u32
            } else if i % 3 == 1 {
                items[i / 3].size
            } else {
                items[i / 3].offset
            },
    )
}

/// Adds one map item, if there is anything to list.
fn list_item(items: &mut Vec<MapItem>, present: bool, typ: u16, size: usize, offset: u32)
    requires
        old(items)@.len() < 100,
    ensures
        final(items)@ == old(items)@ + listed(present, typ, size as int, offset),
        final(items)@.len() <= old(items)@.len() + 1,
{
    reveal(listed);
    let ghost before = items@;
    if present {
        items.push(MapItem { typ, size: cut32(size), offset });
    }
    assert(items@ =~= before + listed(present, typ, size as int, offset));
}

fn least_of(values: &Vec<u32>) -> (r: u32)
    ensures
        r == least(values@),
{
    let mut best: u32 = 0;
    let mut i: usize = 0;
    assert(values@.take(0) =~= Seq::<u32>::empty());
    while i < values.len()
        invariant
            i <= values.len(),
            best == least(values@.take(i as int)),
        decreases values.len() - i,
    {
        let ghost done = values@.take(i as int);
        if i == 0 || values[i] < best {
            best = values[i];
        }
        i += 1;
        assert(values@.take(i as int).drop_last() =~= done);
    }
    assert(values@.take(i as int) =~= values@);
    best
}

fn list_places(items: &mut Vec<MapItem>, typ: u16, places: &SortedMap<u32>)
    requires
        places.wf(),
        old(items)@.len() < 100,
    ensures
        final(items)@ == old(items)@ + listed_places(typ, places@),
        final(items)@.len() <= old(items)@.len() + 1,
{
    assert(views(places.values@) =~= places.values@);
    let first: u32 = least_of(&places.values);
    list_item(items, places.keys.len() > 0, typ, places.keys.len(), first);
}

fn type_list_places(s: &SectionBytes) -> (r: Vec<u32>)
    ensures
        r@ == type_lists(s@),
{
    let mut out: Vec<u32> = Vec::new();
    let ghost all = s.param_offsets@;
    let mut i: usize = 0;
    assert(all.take(0) =~= Seq::<u32>::empty());
    while i < s.param_offsets.len()
        invariant
            i <= s.param_offsets.len(),
            all == s.param_offsets@,
            out@ == nonzero(all.take(i as int)),
        decreases s.param_offsets.len() - i,
    {
        if s.param_offsets[i] != 0 {
            out.push(s.param_offsets[i]);
        }
        i += 1;
        assert(all.take(i as int).drop_last() =~= all.take(i - 1));
    }
    assert(all.take(i as int) =~= all);
    if s.interfaces_off != 0 {
        out.push(s.interfaces_off);
    }
    out
}

/// The offset of a table; an empty table has none.
fn table_offset(count: usize, at: u64) -> (r: u32)
    ensures
        r == table_off(count as int, at as int),
{
    if count == 0 {
        0
    } else {
        (at % 0x1_0000_0000) as u32
    }
}

/// Where the tables stand in the file.
#[derive(Debug, Clone, Copy)]
pub struct TablePlaces {
    pub types_at: u64,
    pub protos_at: u64,
    pub fields_at: u64,
    pub methods_at: u64,
    pub class_at: u64,
    pub data_at: u64,
}

impl TablePlaces {
    pub open spec fn places(self, m: Tables) -> bool {
        &&& self.types_at == m.types_at()
        &&& self.protos_at == m.protos_at()
        &&& self.fields_at == m.fields_at()
        &&& self.methods_at == m.methods_at()
        &&& self.class_at == m.class_at()
        &&& self.data_at == m.data_at()
    }
}

fn place_tables(mapper: &IndexMapper<'_>) -> (r: TablePlaces)
    requires
        mapper@.ok(),
        mapper@.strings.len() <= u32::MAX,
    ensures
        r.places(mapper@),
        r.data_at <= 0x8_0000_0000,
{
    assert(mapper@.strings.len() == mapper.strings@.len());
    assert(mapper@.protos.len() == mapper.protos@.len());
    let types_at: u64 = 0x70 + 4 * mapper.strings.len() as u64;
    let protos_at: u64 = types_at + 4 * mapper.types.len() as u64;
    let fields_at: u64 = protos_at + 12 * mapper.protos.len() as u64;
    let methods_at: u64 = fields_at + 8 * mapper.fields.len() as u64;
    let class_at: u64 = methods_at + 8 * mapper.methods.len() as u64;
    let data_at: u64 = class_at + 32;
    TablePlaces { types_at, protos_at, fields_at, methods_at, class_at, data_at }
}

fn list_tables(mapper: &IndexMapper<'_>, s: &SectionBytes, at: &TablePlaces) -> (r: Vec<MapItem>)
    requires
        at.places(mapper@),
        s.string_offsets@.len() == mapper.strings@.len(),
    ensures
        r@ == table_items(mapper@, s@),
        r@.len() <= 20,
{
    let mut items: Vec<MapItem> = Vec::new();
    let ghost m = mapper@;
    assert(m.strings.len() == mapper.strings@.len());
    assert(m.protos.len() == mapper.protos@.len());
    let strings: usize = mapper.strings.len();
    let types: usize = mapper.types.len();
    let protos: usize = mapper.protos.len();
    let fields: usize = mapper.fields.len();
    let methods: usize = mapper.methods.len();
    list_item(&mut items, true, 0x0000, 1, 0);
    assert(items@ =~= listed(true, 0x0000, 1, 0));
    list_item(&mut items, strings > 0, 0x0001, strings, table_offset(strings, 0x70));
    if strings > 0 {
        list_item(&mut items, true, 0x2002, strings, s.string_offsets[0]);
    } else {
        proof {
            reveal(listed);
        }
        list_item(&mut items, false, 0x2002, strings, 0);
    }
    list_item(&mut items, types > 0, 0x0002, types, table_offset(types, at.types_at));
    list_item(&mut items, protos > 0, 0x0003, protos, table_offset(protos, at.protos_at));
    list_item(&mut items, fields > 0, 0x0004, fields, table_offset(fields, at.fields_at));
    list_item(&mut items, methods > 0, 0x0005, methods, table_offset(methods, at.methods_at));
    list_item(&mut items, true, 0x0006, 1, table_offset(1, at.class_at));
    items
}

fn list_data(items: &mut Vec<MapItem>, s: &SectionBytes)
    requires
        s.wf(),
        old(items)@.len() <= 20,
    ensures
        final(items)@ == data_items(old(items)@, s@),
        final(items)@.len() <= 100,
{
    let lists = type_list_places(s);
    list_item(items, lists.len() > 0, 0x1001, lists.len(), least_of(&lists));
    list_places(items, 0x1002, &s.annotations.set_refs);
    list_places(items, 0x1003, &s.annotations.sets);
    let directory: u32 = s.annotations.directory;
    list_item(items, directory != 0, 0x2006, 1, directory);
    list_places(items, 0x2004, &s.annotations.items);
    list_item(items, s.class_data_off != 0, 0x2000, 1, s.class_data_off);
    list_places(items, 0x2001, &s.code_offsets);
    list_places(items, 0x2003, &s.debug_offsets);
    list_item(items, s.static_values_off != 0, 0x2005, 1, s.static_values_off);
}

fn sort_map(items: &Vec<MapItem>) -> (r: Vec<MapItem>)
    ensures
        r@ == picked(items@, sort_order(map_ranks(items@), items@.len())),
        r@.len() == items@.len(),
{
    let mut keys: Vec<Vec<u32>> = Vec::new();
    let mut i: usize = 0;
    while i < items.len()
        invariant
            i <= items.len(),
            keys.len() == i,
            forall|j: int| 0 <= j < i ==> #[trigger] keys@[j]@ == seq![items@[j].offset],
        decreases items.len() - i,
    {
        let mut key: Vec<u32> = Vec::new();
        key.push(items[i].offset);
        assert(key@ =~= seq![items@[i as int].offset]);
        keys.push(key);
        i += 1;
    }
    assert(lists(keys@) =~= map_ranks(items@));
    let order = sorted_indices(&keys);
    let ghost walk = positions(order@);
    proof {
        lemma_sort_order(map_ranks(items@), items@.len());
    }
    let mut out: Vec<MapItem> = Vec::new();
    let mut i: usize = 0;
    while i < order.len()
        invariant
            i <= order.len(),
            out.len() == i,
            walk == positions(order@),
            forall|j: int| 0 <= j < walk.len() ==> 0 <= #[trigger] walk[j] < items@.len(),
            forall|j: int| 0 <= j < i ==> #[trigger] out@[j] == items@[walk[j]],
        decreases order.len() - i,
    {
        assert(walk[i as int] == order@[i as int]);
        out.push(items[order[i]]);
        i += 1;
    }
    assert(out@ =~= picked(items@, walk));
    out
}

fn words_of_map(items: &Vec<MapItem>) -> (r: Vec<u32>)
    requires
        items@.len() <= 200,
    ensures
        r@ == map_words(items@),
        r@.len() == 1 + 3 * items@.len(),
{
    let mut words: Vec<u32> = Vec::new();
    words.push(cut32(items.len()));
    let ghost all = map_words(items@);
    let mut i: usize = 0;
    assert(words@ =~= all.take(1));
    while i < items.len()
        invariant
            i <= items.len() <= 200,
            all == map_words(items@),
            words@ == all.take(1 + 3 * i),
        decreases items.len() - i,
    {
        assert(all[1 + 3 * i] == items@[i as int].typ as u32);
        assert(all[2 + 3 * i] == items@[i as int].size);
        assert(all[3 + 3 * i] == items@[i as int].offset);
        words.push(items[i].typ as u32);
        words.push(items[i].size);
        words.push(items[i].offset);
        i += 1;
        assert(words@ =~= all.take(1 + 3 * i));
    }
    assert(all.take(1 + 3 * i) =~= all);
    words
}

// ---------------------------------------------------------------------------
// The version
// ---------------------------------------------------------------------------

/// The version that the instructions from `pc` on need, or `version` if that
/// is later.
pub open spec fn version_from(units: Seq<u16>, pc: int, version: u8) -> Result<u8, Error>
    decreases units.len() - pc,
{
    if pc >= units.len() {
        Ok(version)
    } else {
        let opcode = opcode_at(units, pc);
        let next: u8 = if opcode == 0xff {
            39
        } else if 0xfa <= opcode <= 0xfb && version < 38 {
            38
        } else {
            version
        };
        match width_at(units, pc) {
            Err(e) => Err(e),
            Ok(width) => if width == 0 {
                Err(Error::InvalidWidth)
            } else if pc + width >= units.len() {
                Ok(next)
            } else {
                version_from(units, pc + width, next)
            },
        }
    }
}

/// The version that the code from `i` on needs, or `version` if that is later.
pub open spec fn version_of(codes: Seq<Code>, i: int, version: u8) -> Result<u8, Error>
    decreases codes.len() - i,
{
    if i >= codes.len() {
        Ok(version)
    } else {
        match version_from(units_of(codes[i].insns), 0, version) {
            Err(e) => Err(e),
            Ok(next) => version_of(codes, i + 1, next),
        }
    }
}

fn code_version(code: &CodeItem, version: u8) -> (r: Result<u8, Error>)
    ensures
        r == version_from(units_of(code.insns@), 0, version),
{
    let units = units_from(&code.insns);
    let mut next: u8 = version;
    let mut pc: usize = 0;
    while pc < units.len()
        invariant
            units@ == units_of(code.insns@),
            version_from(units@, 0, version) == version_from(units@, pc as int, next),
        decreases units.len() - pc,
    {
        let opcode: u8 = (units[pc] % 256) as u8;
        if opcode == 0xff {
            next = 39;
        } else if 0xfa <= opcode && opcode <= 0xfb && next < 38 {
            next = 38;
        }
        let width: u64 = instruction_width(units.as_slice(), pc as u64)?;
        if width == 0 {
            return Err(Error::InvalidWidth);
        }
        if width >= (units.len() - pc) as u64 {
            return Ok(next);
        }
        pc += width as usize;
    }
    Ok(next)
}

fn needed_version(codes: &SortedMap<CodeItem>) -> (r: Result<u8, Error>)
    requires
        codes.wf(),
    ensures
        r == version_of(codes@.values, 0, 35),
{
    let ghost all = codes@.values;
    let mut version: u8 = 35;
    let mut i: usize = 0;
    while i < codes.values.len()
        invariant
            i <= codes.values.len(),
            all == codes@.values,
            version_of(all, 0, 35) == version_of(all, i as int, version),
        decreases codes.values.len() - i,
    {
        assert(all[i as int] == codes.values@[i as int]@);
        version = code_version(&codes.values[i], version)?;
        i += 1;
    }
    Ok(version)
}

/// The first eight bytes of a DEX file of the given version.
pub open spec fn magic(version: u8) -> Seq<u8> {
    seq![
        0x64u8,
        0x65u8,
        0x78u8,
        0x0au8,
        0x30u8,
        0x33u8,
        if version == 39 {
            0x39u8
        } else if version == 38 {
            0x38u8
        } else {
            0x35u8
        },
        0u8,
    ]
}

// ---------------------------------------------------------------------------
// The file
// ---------------------------------------------------------------------------

/// The header behind the signature.
pub open spec fn header_words(m: Tables, map_off: u32, file_size: u32) -> Seq<u32> {
    seq![
        file_size,
        0x70u32,
        0x1234_5678u32,
        0u32,
        0u32,
        map_off,
        low32(m.strings.len() as int),
        table_off(m.strings.len() as int, 0x70),
        low32(m.types.len() as int),
        table_off(m.types.len() as int, m.types_at()),
        low32(m.protos.len() as int),
        table_off(m.protos.len() as int, m.protos_at()),
        low32(m.fields.len() as int),
        table_off(m.fields.len() as int, m.fields_at()),
        low32(m.methods.len() as int),
        table_off(m.methods.len() as int, m.methods_at()),
        1u32,
        table_off(1, m.class_at()),
        (file_size - m.data_at()) as u32,
        low32(m.data_at()),
    ]
}

/// Where the map stands: at the next multiple of four behind the data.
pub open spec fn map_at(m: Tables, s: Sections) -> int {
    m.data_at() + padded(s.data).len()
}

/// The size of the whole file.
pub open spec fn file_size(m: Tables, s: Sections) -> int {
    map_at(m, s) + 4 * map_words(map_of(m, s, low32(map_at(m, s)))).len()
}

/// Everything behind the signature.
#[verifier::opaque]
pub open spec fn body(m: Tables, s: Sections, class: Seq<u32>) -> Seq<u8> {
    let map_off = low32(map_at(m, s));
    words_bytes(
        header_words(m, map_off, file_size(m, s) as u32) + id_words(m, s) + class,
    ) + padded(s.data) + words_bytes(map_words(map_of(m, s, map_off)))
}

/// A file with the given body: magic, checksum, signature and body.
pub open spec fn sealed(version: u8, body: Seq<u8>) -> Seq<u8> {
    let signed = sha1_digest(body)@ + body;
    magic(version) + le32_bytes(adler32(signed)) + signed
}

/// The extracted file.
pub open spec fn built(
    class: ClassDef,
    members: Members,
    parts: Parts,
    m: Tables,
    dex: DexTables,
) -> Result<Seq<u8>, Error> {
    if m.strings.len() > u32::MAX {
        Err(Error::TooLarge)
    } else {
        match sections_of(members, parts, m, dex) {
            Err(e) => Err(e),
            Ok(s) => match class_words(class, s, m, dex) {
                Err(e) => Err(e),
                Ok(words) => if file_size(m, s) > u32::MAX {
                    Err(Error::TooLarge)
                } else {
                    match version_of(parts.codes.values, 0, 35) {
                        Err(e) => Err(e),
                        Ok(version) => Ok(sealed(version, body(m, s, words))),
                    }
                },
            },
        }
    }
}

fn words_of_header(mapper: &IndexMapper<'_>, at: &TablePlaces, map_off: u32, size: u32) -> (r: Vec<
    u32,
>)
    requires
        at.places(mapper@),
        at.data_at <= size,
    ensures
        r@ == header_words(mapper@, map_off, size),
{
    let ghost m = mapper@;
    assert(m.strings.len() == mapper.strings@.len());
    assert(m.protos.len() == mapper.protos@.len());
    let strings: usize = mapper.strings.len();
    let types: usize = mapper.types.len();
    let protos: usize = mapper.protos.len();
    let fields: usize = mapper.fields.len();
    let methods: usize = mapper.methods.len();
    let mut words: Vec<u32> = Vec::new();
    words.push(size);
    words.push(0x70);
    words.push(0x1234_5678);
    words.push(0);
    words.push(0);
    words.push(map_off);
    words.push(cut32(strings));
    words.push(table_offset(strings, 0x70));
    words.push(cut32(types));
    words.push(table_offset(types, at.types_at));
    words.push(cut32(protos));
    words.push(table_offset(protos, at.protos_at));
    words.push(cut32(fields));
    words.push(table_offset(fields, at.fields_at));
    words.push(cut32(methods));
    words.push(table_offset(methods, at.methods_at));
    words.push(1);
    words.push(table_offset(1, at.class_at));
    words.push((size as u64 - at.data_at) as u32);
    words.push((at.data_at % 0x1_0000_0000) as u32);
    assert(words@ =~= header_words(m, map_off, size));
    words
}

/// Seals a body: puts magic, checksum and signature before it.
fn seal(version: u8, body: &Vec<u8>) -> (r: Vec<u8>)
    requires
        body@.len() <= u32::MAX,
    ensures
        r@ == sealed(version, body@),
{
    let mut signed: Vec<u8> = sha1_of(body.as_slice());
    signed.extend_from_slice(body.as_slice());
    assert(signed@ =~= sha1_digest(body@)@ + body@);
    let checksum: u32 = adler32_of(signed.as_slice());
    let mut file: Vec<u8> = Vec::new();
    file.push(0x64);
    file.push(0x65);
    file.push(0x78);
    file.push(0x0a);
    file.push(0x30);
    file.push(0x33);
    file.push(
        if version == 39 {
            0x39
        } else if version == 38 {
            0x38
        } else {
            0x35
        },
    );
    file.push(0);
    assert(file@ =~= magic(version));
    push_u32(&mut file, checksum);
    let ghost head = file@;
    file.extend_from_slice(signed.as_slice());
    assert(file@ =~= head + signed@);
    file
}

/// Builds the extracted file.
pub fn build_dex(
    class: ClassDef,
    class_data: &ClassData,
    hollowed: &Hollowed,
    mapper: &IndexMapper<'_>,
) -> (r: Result<Vec<u8>, Error>)
    requires
        hollowed.wf(),
        mapper@.ok(),
    ensures
        match r {
            Ok(v) => built(class, class_data@, hollowed@, mapper@, mapper.dex@) == Ok::<
                Seq<u8>,
                Error,
            >(v@),
            Err(e) => built(class, class_data@, hollowed@, mapper@, mapper.dex@) == Err::<
                Seq<u8>,
                Error,
            >(e),
        },
{
    assert(mapper@.strings.len() == mapper.strings@.len());
    if mapper.strings.len() as u64 > 0xffff_ffff {
        return Err(Error::TooLarge);
    }
    let at = place_tables(mapper);
    let sections = write_sections(at.data_at, class_data, hollowed, mapper)?;
    let ghost s = sections@;
    let ghost m = mapper@;
    let class_def = write_class(class, &sections, mapper)?;
    let mut items = list_tables(mapper, &sections, &at);
    list_data(&mut items, &sections);
    let mut map = sort_map(&items);
    if sections.data.len() as u64 > 0xffff_ffff {
        return Err(Error::TooLarge);
    }
    let mut data: Vec<u8> = Vec::new();
    data.extend_from_slice(sections.data.as_slice());
    assert(data@ =~= s.data);
    align4(&mut data);
    let map_place: u64 = at.data_at + data.len() as u64;
    let map_off: u32 = (map_place % 0x1_0000_0000) as u32;
    map.push(MapItem { typ: 0x1000, size: 1, offset: map_off });
    assert(map@ == map_of(m, s, map_off)) by {
        reveal(map_of);
    }
    let map_list = words_of_map(&map);
    let size: u64 = map_place + 4 * map_list.len() as u64;
    assert(size == file_size(m, s));
    if size > 0xffff_ffff {
        return Err(Error::TooLarge);
    }
    let version: u8 = needed_version(&hollowed.codes)?;
    let mut words = words_of_header(mapper, &at, map_off, size as u32);
    let ids = write_ids(mapper, &sections);
    let ghost head = words@;
    words.extend_from_slice(ids.as_slice());
    words.extend_from_slice(class_def.as_slice());
    assert(words@ =~= head + ids@ + class_def@);
    let mut bytes: Vec<u8> = Vec::new();
    write_words(&words, &mut bytes);
    let ghost tables = bytes@;
    assert(tables =~= words_bytes(words@));
    bytes.extend_from_slice(data.as_slice());
    assert(bytes@ =~= tables + data@);
    write_words(&map_list, &mut bytes);
    assert(bytes@ == body(m, s, class_def@)) by {
        reveal(body);
    }
    proof {
        lemma_body_len(m, s, class_def@);
    }
    Ok(seal(version, &bytes))
}

/// Four bytes for each word.
pub proof fn lemma_words_len(words: Seq<u32>)
    ensures
        words_bytes(words).len() == 4 * words.len(),
    decreases words.len(),
{
    if words.len() > 0 {
        lemma_words_len(words.drop_last());
    }
}

/// The body ends where the file ends.
proof fn lemma_body_len(m: Tables, s: Sections, class: Seq<u32>)
    requires
        class.len() == 8,
        s.string_offsets.len() == m.strings.len(),
    ensures
        body(m, s, class).len() + 0x20 == file_size(m, s),
{
    reveal(body);
    let map_off = low32(map_at(m, s));
    lemma_words_len(header_words(m, map_off, file_size(m, s) as u32) + id_words(m, s) + class);
    lemma_words_len(map_words(map_of(m, s, map_off)));
    assert(proto_words(m.protos, s.param_offsets).len() == 3 * m.protos.len());
    assert(field_words(m.fields).len() == 2 * m.fields.len());
    assert(method_words(m.methods).len() == 2 * m.methods.len());
}

} // verus!
