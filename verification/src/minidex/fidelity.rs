//! The extracted file, read again: its tables are those that were gathered, it
//! defines the one class that was asked for, and every identifier stands for
//! what it stood for in the source.
use vstd::prelude::*;

use crate::collections::Entries;
use crate::dex::probe::{class_text_reader, class_texts_in};
use crate::dex_format::{le32, string_in, string_reader, u32_in, units_of};
use crate::error::Error;
use crate::minidex::assemble::{
    body, built, class_words, file_size, sealed, sections_of, version_of, Sections,
};
use crate::minidex::bytecode::{unit_bytes, CodeRefs};
use crate::minidex::canonical::{lemma_strings_sorted, string_keys, type_keys};
use crate::minidex::codeback::{code_ok, code_written, lemma_code_back, placed_code};
use crate::minidex::digests::{adler32, sha1_digest};
use crate::minidex::emit::padded;
use crate::minidex::gather::{gathered, handler_mapper, lemma_gathered_ok, relinked};
use crate::minidex::hollow::{parts_of, Parts};
use crate::minidex::leb::stands_at;
use crate::minidex::meaning::{
    lemma_canonical_faithful, lemma_canonical_readable, lemma_gathered_faithful,
};
use crate::minidex::members::{lemma_members_back, new_members};
use crate::minidex::operands::{
    lemma_code_of_method, lemma_narrow_small, lemma_operands_mapped, mapped_from,
};
use crate::minidex::placement::{
    class_stands, code_ok_at, code_stands_at, codes_ok, lemma_class_stands, lemma_codes_ok,
    lemma_relinked_codes_ok,
};
use crate::minidex::readback::{lemma_sections_hold, sections_hold};
use crate::minidex::reader::{code_in, members_in, ClassDef, Code, DexTables, Handler, Members};
use crate::minidex::roundtrip::lemma_collect_all;
use crate::minidex::sections::{fields_in_order, members_bytes, methods_in_order, or_zero};
use crate::minidex::tableback::{
    class_with, describes, lemma_class_read, lemma_file_reads, lemma_layout, reads_as,
};
use crate::minidex::tables::Tables;
use crate::minidex::validate::{
    dex_fault, field_id_keys, method_id_keys, order_fault, proto_key_reader, seal_fault,
    strictly_sorted,
};
use crate::minidex::{class_of, extracted_from, linked};
use crate::results::{collect, lemma_collect_ok};

verus! {

/// What a sound extraction was made from.
spec fn made(
    dex: DexTables,
    class: ClassDef,
    members: Members,
    parts: Parts,
    m: Tables,
    s: Sections,
    words: Seq<u32>,
    bytes: Seq<u8>,
) -> bool {
    &&& m.ok()
    &&& m.faithful(dex)
    &&& sections_of(members, parts, m, dex) == Ok::<Sections, Error>(s)
    &&& sections_hold(m, s)
    &&& class_words(class, s, m, dex) == Ok::<Seq<u32>, Error>(words)
    &&& words.len() == 8
    &&& file_size(m, s) <= u32::MAX
    &&& version_of(parts.codes.values, 0, 35) is Ok
    &&& bytes == sealed(version_of(parts.codes.values, 0, 35)->Ok_0, body(m, s, words))
    &&& dex_fault(bytes) is None
}

#[verifier::spinoff_prover]
proof fn lemma_made(
    dex: DexTables,
    class: ClassDef,
    members: Members,
    parts: Parts,
    m: Tables,
    bytes: Seq<u8>,
)
    requires
        m.ok(),
        m.faithful(dex),
        built(class, members, parts, m, dex) == Ok::<Seq<u8>, Error>(bytes),
        dex_fault(bytes) is None,
    ensures
        made(
            dex,
            class,
            members,
            parts,
            m,
            sections_of(members, parts, m, dex)->Ok_0,
            class_words(class, sections_of(members, parts, m, dex)->Ok_0, m, dex)->Ok_0,
            bytes,
        ),
{
    let s = sections_of(members, parts, m, dex)->Ok_0;
    assert(m.data_at() + s.data.len() <= file_size(m, s));
    lemma_sections_hold(members, parts, m, dex);
}

proof fn lemma_linked_faithful(dex: DexTables, class: ClassDef, members: Members)
    requires
        linked(dex, class, members) is Ok,
        linked(dex, class, members)->Ok_0.0.strings.len() <= u32::MAX,
    ensures
        linked(dex, class, members)->Ok_0.0.ok(),
        linked(dex, class, members)->Ok_0.0.faithful(dex),
        linked(dex, class, members)->Ok_0.0.readable(dex),
{
    let (parts, refs) = parts_of(dex, class, members, CodeRefs::empty())->Ok_0;
    let g = gathered(dex, class, members, parts, refs)->Ok_0;
    lemma_gathered_ok(dex, class, members, parts, refs);
    lemma_strings_sorted(g);
    assert(g.canonical().strings.len() == g.strings_sorted().strings.len());
    lemma_gathered_faithful(dex, class, members, parts, refs);
    lemma_canonical_faithful(g, dex);
    lemma_canonical_readable(g, dex);
}

/// What the extraction of a class was made from.
#[verifier::spinoff_prover]
proof fn lemma_extraction_made(dex: DexTables, descriptor: Seq<char>)
    requires
        extracted_from(dex, descriptor) is Ok,
    ensures
        ({
            let (bytes, m) = extracted_from(dex, descriptor)->Ok_0;
            let (class, members) = class_of(dex, descriptor)->Ok_0;
            let parts = linked(dex, class, members)->Ok_0.1;
            let s = sections_of(members, parts, m, dex)->Ok_0;
            let words = class_words(class, s, m, dex)->Ok_0;
            made(dex, class, members, parts, m, s, words, bytes)
        }),
{
    let (bytes, m) = extracted_from(dex, descriptor)->Ok_0;
    let (class, members) = class_of(dex, descriptor)->Ok_0;
    let parts = linked(dex, class, members)->Ok_0.1;
    lemma_linked_faithful(dex, class, members);
    lemma_made(dex, class, members, parts, m, bytes);
}

/// How a sound extraction reads.
#[verifier::spinoff_prover]
proof fn lemma_made_reads(
    dex: DexTables,
    class: ClassDef,
    members: Members,
    parts: Parts,
    m: Tables,
    s: Sections,
    words: Seq<u32>,
    bytes: Seq<u8>,
)
    requires
        made(dex, class, members, parts, m, s, words, bytes),
    ensures
        DexTables::tables_in(bytes, 0) is Ok,
        ({
            let t = DexTables::tables_in(bytes, 0)->Ok_0;
            &&& reads_as(t, m)
            &&& describes(t.header, m)
            &&& t.data == bytes
            &&& t.class_def_in(0) == Ok::<ClassDef, Error>(class_with(words))
            &&& u32_in(bytes, t.header.class_defs_off as int) == Ok::<u32, Error>(words[0])
        }),
{
    let version = version_of(parts.codes.values, 0, 35)->Ok_0;
    lemma_file_reads(version, m, s, words);
    lemma_class_read(version, m, s, words);
}

/// The extracted file reads as the tables that were gathered for the class.
#[verifier::spinoff_prover]
pub proof fn lemma_extracted_tables(dex: DexTables, descriptor: Seq<char>)
    requires
        extracted_from(dex, descriptor) is Ok,
    ensures
        DexTables::tables_in(extracted_from(dex, descriptor)->Ok_0.0, 0) is Ok,
        reads_as(
            DexTables::tables_in(extracted_from(dex, descriptor)->Ok_0.0, 0)->Ok_0,
            extracted_from(dex, descriptor)->Ok_0.1,
        ),
{
    let (bytes, m) = extracted_from(dex, descriptor)->Ok_0;
    let (class, members) = class_of(dex, descriptor)->Ok_0;
    let parts = linked(dex, class, members)->Ok_0.1;
    let s = sections_of(members, parts, m, dex)->Ok_0;
    let words = class_words(class, s, m, dex)->Ok_0;
    lemma_extraction_made(dex, descriptor);
    lemma_made_reads(dex, class, members, parts, m, s, words, bytes);
}

/// The extracted file is valid: it names its own size, its signature and its
/// checksum, and lists its strings, types, prototypes, fields and methods in
/// strictly ascending order, none of them twice.
#[verifier::spinoff_prover]
pub proof fn lemma_extracted_canonical(dex: DexTables, descriptor: Seq<char>)
    requires
        extracted_from(dex, descriptor) is Ok,
    ensures
        ({
            let bytes = extracted_from(dex, descriptor)->Ok_0.0;
            let t = DexTables::tables_in(bytes, 0)->Ok_0;
            let protos = collect(proto_key_reader(t), t.protos.len());
            &&& dex_fault(bytes) is None
            &&& le32(bytes, 0x20) == bytes.len()
            &&& bytes.subrange(12, 32) == sha1_digest(bytes.skip(32))@
            &&& le32(bytes, 8) == adler32(bytes.skip(12))
            &&& strictly_sorted(string_keys(t.strings))
            &&& strictly_sorted(type_keys(t.types))
            &&& protos is Ok
            &&& strictly_sorted(protos->Ok_0)
            &&& strictly_sorted(field_id_keys(t.fields))
            &&& strictly_sorted(method_id_keys(t.methods))
        }),
{
    lemma_extraction_made(dex, descriptor);
    lemma_sound_canonical(extracted_from(dex, descriptor)->Ok_0.0);
}

proof fn lemma_sound_canonical(bytes: Seq<u8>)
    requires
        dex_fault(bytes) is None,
    ensures
        seal_fault(bytes) is None,
        DexTables::tables_in(bytes, 0) is Ok,
        order_fault(DexTables::tables_in(bytes, 0)->Ok_0) is None,
{
    reveal(dex_fault);
}

proof fn lemma_class_found(dex: DexTables, descriptor: Seq<char>, index: int)
    requires
        dex.class_from(descriptor, index) matches Ok(Some(_)),
    ensures
        dex.descriptor(dex.class_from(descriptor, index)->Ok_0->Some_0.class_idx as int) == Ok::<
            Seq<char>,
            Error,
        >(descriptor),
    decreases dex.header.class_defs_size - index,
{
    let class = dex.class_def_in(index)->Ok_0;
    if dex.descriptor(class.class_idx as int) != Ok::<Seq<char>, Error>(descriptor) {
        lemma_class_found(dex, descriptor, index + 1);
    }
}

/// A file with one class definition defines that class.
proof fn lemma_one_class(bytes: Seq<u8>, t: DexTables, index: u32)
    requires
        DexTables::tables_in(bytes, 0) == Ok::<DexTables, Error>(t),
        t.header.class_defs_size == 1,
        u32_in(bytes, t.header.class_defs_off as int) == Ok::<u32, Error>(index),
        index < t.types.len(),
        t.types[index as int] < t.strings.len(),
    ensures
        class_texts_in(bytes, 0) == Ok::<Seq<Seq<char>>, Error>(
            seq![t.name_of_type(index as int)],
        ),
{
    let h = t.header;
    let name = t.types[index as int] as int;
    let f = class_text_reader(bytes, h, t.types);
    lemma_collect_ok(string_reader(bytes, h), h.string_ids_size as nat);
    assert(string_reader(bytes, h)(name) == Ok::<Seq<char>, Error>(t.strings[name]));
    assert(string_in(bytes, h, name) == Ok::<Seq<char>, Error>(t.strings[name]));
    assert(f(0) == Ok::<Seq<char>, Error>(t.strings[name]));
    let texts = seq![t.strings[name]];
    lemma_collect_all(f, texts, 1);
    assert(texts.take(1) =~= texts);
}

/// The class of an extraction has the name it was asked for under.
pub proof fn lemma_class_named(dex: DexTables, descriptor: Seq<char>, m: Tables, s: Sections)
    requires
        class_of(dex, descriptor) is Ok,
        class_words(class_of(dex, descriptor)->Ok_0.0, s, m, dex) is Ok,
        m.ok(),
        m.faithful(dex),
    ensures
        ({
            let index = class_words(class_of(dex, descriptor)->Ok_0.0, s, m, dex)->Ok_0[0];
            &&& index < m.types.len()
            &&& m.types[index as int] < m.strings.len()
            &&& m.name_of_type(index as int) == descriptor
        }),
{
    let class = class_of(dex, descriptor)->Ok_0.0;
    lemma_class_found(dex, descriptor, 0);
    assert(m.origin_types.contains_key(class.class_idx));
    let index = m.origin_types[class.class_idx] as int;
    assert(m.type_ok(index));
    assert(m.string_ok(m.types[index] as int));
    assert(m.name_of_type(index) == dex.name_of_type(class.class_idx as int));
}

/// The extracted file defines exactly the class that was asked for.
#[verifier::spinoff_prover]
pub proof fn lemma_extracted_class(dex: DexTables, descriptor: Seq<char>)
    requires
        extracted_from(dex, descriptor) is Ok,
    ensures
        class_texts_in(extracted_from(dex, descriptor)->Ok_0.0, 0) == Ok::<Seq<Seq<char>>, Error>(
            seq![descriptor],
        ),
{
    let (bytes, m) = extracted_from(dex, descriptor)->Ok_0;
    let (class, members) = class_of(dex, descriptor)->Ok_0;
    let parts = linked(dex, class, members)->Ok_0.1;
    let s = sections_of(members, parts, m, dex)->Ok_0;
    let words = class_words(class, s, m, dex)->Ok_0;
    let t = DexTables::tables_in(bytes, 0)->Ok_0;
    lemma_extraction_made(dex, descriptor);
    lemma_class_named(dex, descriptor, m, s);
    lemma_made_reads(dex, class, members, parts, m, s, words, bytes);
    lemma_one_class(bytes, t, words[0]);
}

// ---------------------------------------------------------------------------
// What everything stands for
// ---------------------------------------------------------------------------

/// Tables that read as `m` give every identifier the meaning it has in `m`.
proof fn lemma_same_meanings(t: DexTables, m: Tables)
    requires
        reads_as(t, m),
        m.ok(),
    ensures
        forall|i: int|
            0 <= i < m.protos.len() ==> #[trigger] t.proto_meaning(i) == m.proto_meaning(
                m.protos[i],
            ),
        forall|i: int|
            0 <= i < m.fields.len() ==> #[trigger] t.field_meaning(i) == m.field_meaning(
                m.fields[i],
            ),
        forall|i: int|
            0 <= i < m.methods.len() ==> #[trigger] t.method_meaning(i) == m.method_meaning(
                m.methods[i],
            ),
{
    assert forall|i: int| 0 <= i < m.protos.len() implies #[trigger] t.proto_meaning(i)
        == m.proto_meaning(m.protos[i]) by {
        let p = t.protos[i];
        assert(t.type_list(p.parameters_off) == Ok::<Seq<u16>, Error>(m.protos[i].params));
        assert(t.names_of_types(m.protos[i].params) =~= m.names_of_types(m.protos[i].params));
    }
    assert forall|i: int| 0 <= i < m.fields.len() implies #[trigger] t.field_meaning(i)
        == m.field_meaning(m.fields[i]) by {
        assert(t.fields[i].class_idx == m.fields[i].class_idx);
    }
    assert forall|i: int| 0 <= i < m.methods.len() implies #[trigger] t.method_meaning(i)
        == m.method_meaning(m.methods[i]) by {
        assert(t.methods[i].class_idx == m.methods[i].class_idx);
        assert(m.method_ok(m.methods[i]));
        let k = m.methods[i].proto_idx as int;
        assert(t.proto_meaning(k) == m.proto_meaning(m.protos[k]));
    }
}

/// Every type, prototype, field and method of the source that the extracted
/// file has stands for the same names in both files.
pub proof fn lemma_extracted_meanings(dex: DexTables, descriptor: Seq<char>)
    requires
        extracted_from(dex, descriptor) is Ok,
    ensures
        ({
            let (bytes, m) = extracted_from(dex, descriptor)->Ok_0;
            let t = DexTables::tables_in(bytes, 0)->Ok_0;
            &&& forall|k: u32| #[trigger]
                m.origin_types.contains_key(k) ==> t.name_of_type(m.origin_types[k] as int)
                    == dex.name_of_type(k as int)
            &&& forall|k: u32| #[trigger]
                m.origin_protos.contains_key(k) ==> t.proto_meaning(m.origin_protos[k] as int)
                    == dex.proto_meaning(k as int)
            &&& forall|k: u32| #[trigger]
                m.origin_fields.contains_key(k) ==> t.field_meaning(m.origin_fields[k] as int)
                    == dex.field_meaning(k as int)
            &&& forall|k: u32| #[trigger]
                m.origin_methods.contains_key(k) ==> t.method_meaning(m.origin_methods[k] as int)
                    == dex.method_meaning(k as int)
        }),
{
    let (bytes, m) = extracted_from(dex, descriptor)->Ok_0;
    lemma_extracted_sound(dex, descriptor);
    lemma_same_meanings(DexTables::tables_in(bytes, 0)->Ok_0, m);
}

/// What the extracted file has of the source can be read in the source.
pub proof fn lemma_extracted_readable(dex: DexTables, descriptor: Seq<char>)
    requires
        extracted_from(dex, descriptor) is Ok,
    ensures
        extracted_from(dex, descriptor)->Ok_0.1.readable(dex),
{
    let (class, members) = class_of(dex, descriptor)->Ok_0;
    lemma_linked_faithful(dex, class, members);
}

proof fn lemma_extracted_sound(dex: DexTables, descriptor: Seq<char>)
    requires
        extracted_from(dex, descriptor) is Ok,
    ensures
        extracted_from(dex, descriptor)->Ok_0.1.ok(),
        extracted_from(dex, descriptor)->Ok_0.1.faithful(dex),
        reads_as(
            DexTables::tables_in(extracted_from(dex, descriptor)->Ok_0.0, 0)->Ok_0,
            extracted_from(dex, descriptor)->Ok_0.1,
        ),
{
    lemma_extraction_made(dex, descriptor);
    lemma_extracted_tables(dex, descriptor);
}

// ---------------------------------------------------------------------------
// Members and code
// ---------------------------------------------------------------------------

/// The data section that an extraction was made with.
pub open spec fn sections_for(dex: DexTables, descriptor: Seq<char>) -> Sections {
    let (class, members) = class_of(dex, descriptor)->Ok_0;
    let (m, parts) = linked(dex, class, members)->Ok_0;
    sections_of(members, parts, m, dex)->Ok_0
}

/// The extracted file has the class definition and the data section that were
/// written for the class.
#[verifier::spinoff_prover]
pub proof fn lemma_extracted_layout(dex: DexTables, descriptor: Seq<char>)
    requires
        extracted_from(dex, descriptor) is Ok,
    ensures
        ({
            let (bytes, m) = extracted_from(dex, descriptor)->Ok_0;
            let (class, members) = class_of(dex, descriptor)->Ok_0;
            let parts = linked(dex, class, members)->Ok_0.1;
            let t = DexTables::tables_in(bytes, 0)->Ok_0;
            let s = sections_for(dex, descriptor);
            &&& m.ok()
            &&& m.faithful(dex)
            &&& reads_as(t, m)
            &&& t.data == bytes
            &&& t.header.type_ids_size == m.types.len()
            &&& sections_of(members, parts, m, dex) == Ok::<Sections, Error>(s)
            &&& class_words(class, s, m, dex) is Ok
            &&& t.class_def_in(0) == Ok::<ClassDef, Error>(
                class_with(class_words(class, s, m, dex)->Ok_0),
            )
            &&& stands_at(bytes, m.data_at(), s.data)
            &&& bytes.len() <= u32::MAX
        }),
{
    let (bytes, m) = extracted_from(dex, descriptor)->Ok_0;
    let (class, members) = class_of(dex, descriptor)->Ok_0;
    let parts = linked(dex, class, members)->Ok_0.1;
    let s = sections_for(dex, descriptor);
    let words = class_words(class, s, m, dex)->Ok_0;
    lemma_extraction_made(dex, descriptor);
    lemma_made_reads(dex, class, members, parts, m, s, words, bytes);
    lemma_made_stands(dex, class, members, parts, m, s, words, bytes);
}

/// The class definition of the extracted file has the flags of the class, and
/// lists the same fields and methods with the same flags, by their new
/// indices.
#[verifier::spinoff_prover]
pub proof fn lemma_extracted_members(dex: DexTables, descriptor: Seq<char>)
    requires
        extracted_from(dex, descriptor) is Ok,
    ensures
        ({
            let (bytes, m) = extracted_from(dex, descriptor)->Ok_0;
            let (class, members) = class_of(dex, descriptor)->Ok_0;
            let t = DexTables::tables_in(bytes, 0)->Ok_0;
            &&& t.class_def_in(0) is Ok
            &&& t.class_def_in(0)->Ok_0.access_flags == class.access_flags
            &&& members_in(bytes, t.class_def_in(0)->Ok_0.class_data_off) == Ok::<Members, Error>(
                new_members(members, m, sections_for(dex, descriptor).code_offsets),
            )
        }),
{
    let (bytes, m) = extracted_from(dex, descriptor)->Ok_0;
    let (class, members) = class_of(dex, descriptor)->Ok_0;
    let parts = linked(dex, class, members)->Ok_0.1;
    let s = sections_for(dex, descriptor);
    let words = class_words(class, s, m, dex)->Ok_0;
    lemma_extraction_made(dex, descriptor);
    lemma_made_members(dex, class, members, parts, m, s, words, bytes);
}

#[verifier::spinoff_prover]
proof fn lemma_made_members(
    dex: DexTables,
    class: ClassDef,
    members: Members,
    parts: Parts,
    m: Tables,
    s: Sections,
    words: Seq<u32>,
    bytes: Seq<u8>,
)
    requires
        made(dex, class, members, parts, m, s, words, bytes),
    ensures
        ({
            let t = DexTables::tables_in(bytes, 0)->Ok_0;
            &&& t.class_def_in(0) is Ok
            &&& t.class_def_in(0)->Ok_0.access_flags == class.access_flags
            &&& members_in(bytes, t.class_def_in(0)->Ok_0.class_data_off) == Ok::<Members, Error>(
                new_members(members, m, s.code_offsets),
            )
        }),
{
    lemma_made_reads(dex, class, members, parts, m, s, words, bytes);
    lemma_made_stands(dex, class, members, parts, m, s, words, bytes);
    lemma_made_words(class, m, s, dex);
    lemma_class_stands(members, parts, m, dex);
    lemma_members_read(bytes, members, parts, m, s);
}

proof fn lemma_made_words(class: ClassDef, m: Tables, s: Sections, dex: DexTables)
    requires
        class_words(class, s, m, dex) is Ok,
    ensures
        class_words(class, s, m, dex)->Ok_0[1] == class.access_flags,
        class_words(class, s, m, dex)->Ok_0[6] == s.class_data_off,
{
}

/// The data section of a sound extraction stands in the file.
proof fn lemma_made_stands(
    dex: DexTables,
    class: ClassDef,
    members: Members,
    parts: Parts,
    m: Tables,
    s: Sections,
    words: Seq<u32>,
    bytes: Seq<u8>,
)
    requires
        made(dex, class, members, parts, m, s, words, bytes),
    ensures
        stands_at(bytes, m.data_at(), s.data),
        m.data_at() + s.data.len() <= bytes.len() <= u32::MAX,
{
    lemma_layout(version_of(parts.codes.values, 0, 35)->Ok_0, m, s, words);
    let all = padded(s.data);
    assert forall|i: int| 0 <= i < s.data.len() implies bytes[m.data_at() + i]
        == #[trigger] s.data[i] by {
        assert(all[i] == s.data[i]);
        assert(bytes[m.data_at() + i] == all[i]);
    }
}

proof fn lemma_members_read(bytes: Seq<u8>, c: Members, parts: Parts, m: Tables, s: Sections)
    requires
        stands_at(bytes, m.data_at(), s.data),
        m.data_at() + s.data.len() <= u32::MAX,
        class_stands(c, parts, m, s),
    ensures
        members_in(bytes, s.class_data_off) == Ok::<Members, Error>(
            new_members(c, m, s.code_offsets),
        ),
{
    if c.fields().len() == 0 && c.methods().len() == 0 {
        let new = new_members(c, m, s.code_offsets);
        lemma_order_empty(c, m);
        assert(new.static_fields =~= Seq::empty());
        assert(new.instance_fields =~= Seq::empty());
        assert(new.direct_methods =~= Seq::empty());
        assert(new.virtual_methods =~= Seq::empty());
    } else {
        let done = choose|done: Seq<u8>| #[trigger]
            members_bytes(c, m, s.code_offsets, done) == Ok::<Seq<u8>, Error>(s.data)
                && s.class_data_off == m.data_at() + done.len();
        lemma_members_back(
            bytes,
            m.data_at(),
            c,
            m,
            s.code_offsets,
            done,
            s.class_data_off,
        );
    }
}

proof fn lemma_order_empty(c: Members, m: Tables)
    requires
        c.fields().len() == 0,
        c.methods().len() == 0,
    ensures
        fields_in_order(c.static_fields, m).len() == 0,
        fields_in_order(c.instance_fields, m).len() == 0,
        methods_in_order(c.direct_methods, m).len() == 0,
        methods_in_order(c.virtual_methods, m).len() == 0,
{
}

/// The code of every method of the class that has code reads back from the
/// extracted file, at the place that the class data gives for it.
#[verifier::spinoff_prover]
pub proof fn lemma_extracted_code(dex: DexTables, descriptor: Seq<char>, id: u32)
    requires
        extracted_from(dex, descriptor) is Ok,
        ({
            let (class, members) = class_of(dex, descriptor)->Ok_0;
            let parts = linked(dex, class, members)->Ok_0.1;
            &&& parts.codes.get(id) is Some
            &&& exists|j: int|
                0 <= j < members.methods().len() && (#[trigger] members.methods()[j]).method_idx
                    == id
        }),
    ensures
        ({
            let (bytes, m) = extracted_from(dex, descriptor)->Ok_0;
            let (class, members) = class_of(dex, descriptor)->Ok_0;
            let parts = linked(dex, class, members)->Ok_0.1;
            let s = sections_for(dex, descriptor);
            code_in(bytes, or_zero(s.code_offsets, id) as int) == Ok::<Code, Error>(
                placed_code(parts.codes.get(id)->Some_0, or_zero(s.debug_offsets, id)),
            )
        }),
{
    let (bytes, m) = extracted_from(dex, descriptor)->Ok_0;
    let (class, members) = class_of(dex, descriptor)->Ok_0;
    let parts = linked(dex, class, members)->Ok_0.1;
    let s = sections_for(dex, descriptor);
    let words = class_words(class, s, m, dex)->Ok_0;
    lemma_extraction_made(dex, descriptor);
    lemma_made_stands(dex, class, members, parts, m, s, words, bytes);
    lemma_class_stands(members, parts, m, dex);
    lemma_linked_codes_ok(dex, class, members);
    let code = parts.codes.get(id)->Some_0;
    assert(code_ok_at(parts.codes, id));
    lemma_code_read(bytes, members, parts, m, s, id);
}

proof fn lemma_code_read(
    bytes: Seq<u8>,
    c: Members,
    parts: Parts,
    m: Tables,
    s: Sections,
    id: u32,
)
    requires
        stands_at(bytes, m.data_at(), s.data),
        m.data_at() + s.data.len() <= u32::MAX,
        class_stands(c, parts, m, s),
        parts.codes.get(id) is Some,
        code_ok(parts.codes.get(id)->Some_0),
        exists|j: int| 0 <= j < c.methods().len() && (#[trigger] c.methods()[j]).method_idx == id,
    ensures
        code_in(bytes, or_zero(s.code_offsets, id) as int) == Ok::<Code, Error>(
            placed_code(parts.codes.get(id)->Some_0, or_zero(s.debug_offsets, id)),
        ),
{
    let base = m.data_at();
    let code = parts.codes.get(id)->Some_0;
    let debug_off = or_zero(s.debug_offsets, id);
    let j = choose|j: int| 0 <= j < c.methods().len() && (#[trigger] c.methods()[j]).method_idx
        == id;
    assert(s.code_offsets.get(c.methods()[j].method_idx) is Some);
    assert(code_stands_at(base, s.data, s.code_offsets, parts.codes, s.debug_offsets, id));
    let offset = s.code_offsets.get(id)->Some_0;
    let done = choose|done: Seq<u8>| #[trigger]
        code_written(s.data, code, debug_off, done) && offset == base + done.len() && done.len() % 4
            == 0;
    assert(base % 4 == 0);
    lemma_code_back(bytes, base, s.data, code, debug_off, done);
}

proof fn lemma_linked_codes_ok(dex: DexTables, class: ClassDef, members: Members)
    requires
        linked(dex, class, members) is Ok,
    ensures
        codes_ok(linked(dex, class, members)->Ok_0.1.codes),
{
    let (parts, refs) = parts_of(dex, class, members, CodeRefs::empty())->Ok_0;
    let m = gathered(dex, class, members, parts, refs)->Ok_0.canonical();
    lemma_codes_ok(dex.data, members.methods(), CodeRefs::empty());
    lemma_relinked_codes_ok(parts.codes, refs, m, dex);
}

/// The code that the extracted file has for a method is the code that the
/// method had, with the new index of whatever each operand points at, and with
/// the same handlers by the new indices of what they catch. The method is the
/// last with code that the class lists under its index.
#[verifier::spinoff_prover]
pub proof fn lemma_extracted_instructions(dex: DexTables, descriptor: Seq<char>, j: int)
    requires
        extracted_from(dex, descriptor) is Ok,
        ({
            let (class, members) = class_of(dex, descriptor)->Ok_0;
            let methods = members.methods();
            &&& 0 <= j < methods.len()
            &&& methods[j].code_off != 0
            &&& forall|k: int|
                j < k < methods.len() && (#[trigger] methods[k]).code_off != 0
                    ==> methods[k].method_idx != methods[j].method_idx
        }),
    ensures
        ({
            let (bytes, m) = extracted_from(dex, descriptor)->Ok_0;
            let (class, members) = class_of(dex, descriptor)->Ok_0;
            let parts = linked(dex, class, members)->Ok_0.1;
            let method = members.methods()[j];
            let code = code_in(dex.data, method.code_off as int)->Ok_0;
            let kept = parts.codes.get(method.method_idx);
            &&& kept is Some
            &&& mapped_from(units_of(code.insns), 0, m, dex) is Ok
            &&& kept->Some_0.insns == unit_bytes(
                mapped_from(units_of(code.insns), 0, m, dex)->Ok_0,
            )
            &&& kept->Some_0.registers_size == code.registers_size
            &&& kept->Some_0.ins_size == code.ins_size
            &&& kept->Some_0.outs_size == code.outs_size
            &&& kept->Some_0.tries == code.tries
            &&& collect(handler_mapper(code.handlers, m), code.handlers.len()) == Ok::<
                Seq<Handler>,
                Error,
            >(kept->Some_0.handlers)
        }),
{
    let (bytes, m) = extracted_from(dex, descriptor)->Ok_0;
    let (class, members) = class_of(dex, descriptor)->Ok_0;
    let methods = members.methods();
    let (parts, all) = parts_of(dex, class, members, CodeRefs::empty())->Ok_0;
    let id = methods[j].method_idx;
    let code = code_in(dex.data, methods[j].code_off as int)->Ok_0;
    let start = (Entries::<Code>::empty(), CodeRefs::empty());
    let refs = lemma_code_of_method(dex.data, methods, start, 0, j);
    lemma_narrow_small(all);
    lemma_operands_mapped(code.insns, refs, all, m, dex);
    lemma_codes_ok(dex.data, methods, CodeRefs::empty());
    lemma_relinked_codes_ok(parts.codes, all, m, dex);
    let kept = linked(dex, class, members)->Ok_0.1.codes.get(id);
    let numbered_code = parts.codes.get(id)->Some_0;
    assert(relinked(numbered_code, all, m, dex) is Ok);
    assert(kept == Some(relinked(numbered_code, all, m, dex)->Ok_0));
}

} // verus!
