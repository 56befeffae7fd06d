//! The tables and the class definition of an extracted file read back as what
//! was written.
use vstd::prelude::*;

use crate::collections::low32;
use crate::dex_format::{
    field_in, field_reader, fields_in, le16, le32, method_in, method_reader, methods_in, proto_in,
    proto_reader, protos_in, string_in, string_reader, strings_in, type_in, type_list_in,
    type_reader, types_in, u32_in, DexHeader, FieldId, MethodId, ProtoId,
};
use crate::error::Error;
use crate::minidex::assemble::{
    body, field_words, file_size, header_words, id_words, magic, map_at, map_of, map_words,
    method_words, proto_words, sealed, two, Sections,
};
use crate::minidex::digests::{adler32, sha1_digest};
use crate::minidex::emit::{le32_bytes, padded, string_bytes};
use crate::minidex::leb::stands_at;
use crate::minidex::readback::{held, list_held, sections_hold};
use crate::minidex::reader::{word_reader, ClassDef, DexTables};
use crate::minidex::roundtrip::{
    lemma_collect_all, lemma_string_round_trip, lemma_type_list_round_trip, lemma_word_read,
    lemma_words_size,
};
use crate::minidex::sections::{type_list_bytes, words_bytes};
use crate::minidex::tables::{NewField, NewMethod, Tables};
use crate::results::collect;

verus! {

// ---------------------------------------------------------------------------
// Layout
// ---------------------------------------------------------------------------

/// The words between the signature and the data section.
pub open spec fn front_words(m: Tables, s: Sections, class: Seq<u32>) -> Seq<u32> {
    header_words(m, low32(map_at(m, s)), file_size(m, s) as u32) + id_words(m, s) + class
}

/// How many words the identifier tables have.
pub open spec fn id_count(m: Tables) -> nat {
    m.strings.len() + m.types.len() + 3 * m.protos.len() + 2 * m.fields.len() + 2 * m.methods.len()
}

/// The words stand behind the signature, and the data section behind them.
#[verifier::spinoff_prover]
pub proof fn lemma_layout(version: u8, m: Tables, s: Sections, class: Seq<u32>)
    requires
        class.len() == 8,
        s.string_offsets.len() == m.strings.len(),
    ensures
        front_words(m, s, class).len() == 28 + id_count(m),
        sealed(version, body(m, s, class)).len() == file_size(m, s),
        stands_at(sealed(version, body(m, s, class)), 0, magic(version)),
        stands_at(sealed(version, body(m, s, class)), 32, words_bytes(front_words(m, s, class))),
        stands_at(sealed(version, body(m, s, class)), m.data_at(), padded(s.data)),
        stands_at(
            sealed(version, body(m, s, class)),
            map_at(m, s),
            words_bytes(map_words(map_of(m, s, low32(map_at(m, s))))),
        ),
{
    reveal(body);
    let words = front_words(m, s, class);
    let front = words_bytes(words);
    let data = padded(s.data);
    let map = words_bytes(map_words(map_of(m, s, low32(map_at(m, s)))));
    let all = body(m, s, class);
    let digest = sha1_digest(all)@;
    lemma_words_size(words);
    lemma_words_size(map_words(map_of(m, s, low32(map_at(m, s)))));
    lemma_front_size(m, s, class);
    assert(all == front + data + map);
    lemma_parts_in_order(magic(version), le32_bytes(adler32(digest + all)), digest, front, data, map);
}

proof fn lemma_front_size(m: Tables, s: Sections, class: Seq<u32>)
    requires
        class.len() == 8,
        s.string_offsets.len() == m.strings.len(),
    ensures
        front_words(m, s, class).len() == 28 + id_count(m),
{
}

/// Where the parts of a file stand that are put one behind the other.
proof fn lemma_parts_in_order(
    magic: Seq<u8>,
    sum: Seq<u8>,
    digest: Seq<u8>,
    front: Seq<u8>,
    data: Seq<u8>,
    map: Seq<u8>,
)
    requires
        magic.len() == 8,
        sum.len() == 4,
        digest.len() == 20,
    ensures
        ({
            let file = magic + sum + (digest + (front + data + map));
            &&& file.len() == 32 + front.len() + data.len() + map.len()
            &&& stands_at(file, 0, magic)
            &&& stands_at(file, 32, front)
            &&& stands_at(file, (32 + front.len()) as int, data)
            &&& stands_at(file, (32 + front.len() + data.len()) as int, map)
        }),
{
    let file = magic + sum + (digest + (front + data + map));
    assert forall|i: int| 0 <= i < front.len() implies file[32 + i] == #[trigger] front[i] by {}
    let at = 32 + front.len();
    assert forall|i: int| 0 <= i < data.len() implies file[at + i] == #[trigger] data[i] by {}
    let end = at + data.len();
    assert forall|i: int| 0 <= i < map.len() implies file[end + i] == #[trigger] map[i] by {}
}

/// The header that stands in front of a file, in its words.
pub proof fn lemma_header_fields(file: Seq<u8>, words: Seq<u32>)
    requires
        stands_at(file, 32, words_bytes(words)),
        words.len() >= 20,
    ensures
        DexHeader::fields_at(file, 0) == header_of(words),
{
    lemma_word_read(file, 32, words, 6);
    lemma_word_read(file, 32, words, 7);
    lemma_word_read(file, 32, words, 8);
    lemma_word_read(file, 32, words, 9);
    lemma_word_read(file, 32, words, 10);
    lemma_word_read(file, 32, words, 11);
    lemma_word_read(file, 32, words, 12);
    lemma_word_read(file, 32, words, 13);
    lemma_word_read(file, 32, words, 14);
    lemma_word_read(file, 32, words, 15);
    lemma_word_read(file, 32, words, 16);
    lemma_word_read(file, 32, words, 17);
}

pub open spec fn header_of(words: Seq<u32>) -> DexHeader {
    DexHeader {
        string_ids_size: words[6],
        string_ids_off: words[7],
        type_ids_size: words[8],
        type_ids_off: words[9],
        proto_ids_size: words[10],
        proto_ids_off: words[11],
        field_ids_size: words[12],
        field_ids_off: words[13],
        method_ids_size: words[14],
        method_ids_off: words[15],
        class_defs_size: words[16],
        class_defs_off: words[17],
    }
}

/// Where a table starts; an empty one has offset zero.
pub open spec fn start_of(count: nat, at: int) -> int {
    if count == 0 {
        0
    } else {
        at
    }
}

/// Whether a header has the sizes and the places of the tables.
pub open spec fn describes(h: DexHeader, m: Tables) -> bool {
    &&& h.string_ids_size == m.strings.len()
    &&& h.type_ids_size == m.types.len()
    &&& h.proto_ids_size == m.protos.len()
    &&& h.field_ids_size == m.fields.len()
    &&& h.method_ids_size == m.methods.len()
    &&& h.class_defs_size == 1
    &&& h.string_ids_off == start_of(m.strings.len(), 0x70)
    &&& h.type_ids_off == start_of(m.types.len(), m.types_at())
    &&& h.proto_ids_off == start_of(m.protos.len(), m.protos_at())
    &&& h.field_ids_off == start_of(m.fields.len(), m.fields_at())
    &&& h.method_ids_off == start_of(m.methods.len(), m.methods_at())
    &&& h.class_defs_off == m.class_at()
}

#[verifier::rlimit(40)]
#[verifier::spinoff_prover]
pub proof fn lemma_header_words(m: Tables, map_off: u32, size: u32, rest: Seq<u32>)
    requires
        m.data_at() <= size,
    ensures
        describes(header_of(header_words(m, map_off, size) + rest), m),
{
    let head = header_words(m, map_off, size);
    let all = head + rest;
    assert(all[6] == head[6] && all[7] == head[7] && all[8] == head[8] && all[9] == head[9]);
    assert(all[10] == head[10] && all[11] == head[11] && all[12] == head[12]);
    assert(all[13] == head[13] && all[14] == head[14] && all[15] == head[15]);
    assert(all[16] == head[16] && all[17] == head[17]);
    lemma_low(m.strings.len() as int);
    lemma_low(m.types.len() as int);
    lemma_low(m.protos.len() as int);
    lemma_low(m.fields.len() as int);
    lemma_low(m.methods.len() as int);
    lemma_low(m.types_at());
    lemma_low(m.protos_at());
    lemma_low(m.fields_at());
    lemma_low(m.methods_at());
    lemma_low(m.class_at());
}

proof fn lemma_low(n: int)
    requires
        0 <= n <= u32::MAX,
    ensures
        low32(n) == n,
{
}

/// A part of the data section stands in the file where its offset says.
pub proof fn lemma_part_stands(file: Seq<u8>, base: int, data: Seq<u8>, offset: u32, part: Seq<u8>)
    requires
        0 <= base,
        stands_at(file, base, padded(data)),
        held(base, data, offset, part),
    ensures
        stands_at(file, offset as int, part),
{
    let all = padded(data);
    let at = offset - base;
    assert forall|i: int| 0 <= i < part.len() implies file[offset + i] == #[trigger] part[i] by {
        assert(data[at + i] == part[i]);
        assert(all[at + i] == data[at + i]);
        assert(file[base + (at + i)] == all[at + i]);
    }
}

// ---------------------------------------------------------------------------
// Tables
// ---------------------------------------------------------------------------

/// The tables that were read are the tables that were written; a prototype's
/// parameters are those at its offset.
pub open spec fn reads_as(t: DexTables, m: Tables) -> bool {
    &&& t.strings == m.strings
    &&& t.types == m.types
    &&& t.protos.len() == m.protos.len()
    &&& forall|i: int|
        0 <= i < m.protos.len() ==> {
            &&& (#[trigger] t.protos[i]).shorty_idx == m.protos[i].shorty_idx
            &&& t.protos[i].return_type_idx == m.protos[i].return_type_idx
            &&& t.type_list(t.protos[i].parameters_off) == Ok::<Seq<u16>, Error>(
                m.protos[i].params,
            )
        }
    &&& t.fields.len() == m.fields.len()
    &&& forall|i: int|
        0 <= i < m.fields.len() ==> {
            &&& (#[trigger] t.fields[i]).class_idx == m.fields[i].class_idx
            &&& t.fields[i].type_idx == m.fields[i].type_idx
            &&& t.fields[i].name_idx == m.fields[i].name_idx
        }
    &&& t.methods.len() == m.methods.len()
    &&& forall|i: int|
        0 <= i < m.methods.len() ==> {
            &&& (#[trigger] t.methods[i]).class_idx == m.methods[i].class_idx
            &&& t.methods[i].proto_idx == m.methods[i].proto_idx
            &&& t.methods[i].name_idx == m.methods[i].name_idx
        }
}

/// The words that start at `at` are those of a list.
pub open spec fn words_at(words: Seq<u32>, at: int, list: Seq<u32>) -> bool {
    &&& 0 <= at
    &&& at + list.len() <= words.len()
    &&& forall|i: int| 0 <= i < list.len() ==> words[at + i] == #[trigger] list[i]
}

/// What a list of words holds that stands in a file.
pub proof fn lemma_listed_word(file: Seq<u8>, words: Seq<u32>, at: int, list: Seq<u32>, i: int)
    requires
        stands_at(file, 32, words_bytes(words)),
        words_at(words, at, list),
        0 <= i < list.len(),
    ensures
        32 + 4 * (at + i) + 4 <= file.len(),
        le32(file, 32 + 4 * (at + i)) == list[i],
        le16(file, 32 + 4 * (at + i)) == list[i] % 0x1_0000,
        le16(file, 32 + 4 * (at + i) + 2) == list[i] / 0x1_0000,
{
    lemma_word_read(file, 32, words, at + i);
}

/// Where the lists stand among the words of the front.
pub proof fn lemma_fronts(m: Tables, s: Sections, class: Seq<u32>)
    requires
        s.string_offsets.len() == m.strings.len(),
    ensures
        words_at(front_words(m, s, class), 20, s.string_offsets),
        words_at(front_words(m, s, class), 20int + m.strings.len(), m.types),
        words_at(
            front_words(m, s, class),
            20int + m.strings.len() + m.types.len(),
            proto_words(m.protos, s.param_offsets),
        ),
        words_at(
            front_words(m, s, class),
            20int + m.strings.len() + m.types.len() + 3 * m.protos.len(),
            field_words(m.fields),
        ),
        words_at(
            front_words(m, s, class),
            20int + m.strings.len() + m.types.len() + 3 * m.protos.len() + 2 * m.fields.len(),
            method_words(m.methods),
        ),
        words_at(front_words(m, s, class), 20int + id_count(m), class),
{
    let head = header_words(m, low32(map_at(m, s)), file_size(m, s) as u32);
    let a = s.string_offsets;
    let b = m.types;
    let c = proto_words(m.protos, s.param_offsets);
    let d = field_words(m.fields);
    let e = method_words(m.methods);
    assert(head.len() == 20);
    lemma_six_lists(head, a, b, c, d, e, class);
}

proof fn lemma_six_lists(
    head: Seq<u32>,
    a: Seq<u32>,
    b: Seq<u32>,
    c: Seq<u32>,
    d: Seq<u32>,
    e: Seq<u32>,
    f: Seq<u32>,
)
    ensures
        words_at(head + (a + b + c + d + e) + f, head.len() as int, a),
        words_at(head + (a + b + c + d + e) + f, (head.len() + a.len()) as int, b),
        words_at(head + (a + b + c + d + e) + f, (head.len() + a.len() + b.len()) as int, c),
        words_at(
            head + (a + b + c + d + e) + f,
            (head.len() + a.len() + b.len() + c.len()) as int,
            d,
        ),
        words_at(
            head + (a + b + c + d + e) + f,
            (head.len() + a.len() + b.len() + c.len() + d.len()) as int,
            e,
        ),
        words_at(
            head + (a + b + c + d + e) + f,
            (head.len() + a.len() + b.len() + c.len() + d.len() + e.len()) as int,
            f,
        ),
{
}

/// Every string reads back.
proof fn lemma_strings_read(
    file: Seq<u8>,
    h: DexHeader,
    words: Seq<u32>,
    m: Tables,
    s: Sections,
)
    requires
        describes(h, m),
        stands_at(file, 32, words_bytes(words)),
        words_at(words, 20, s.string_offsets),
        stands_at(file, m.data_at(), padded(s.data)),
        sections_hold(m, s),
    ensures
        strings_in(file, h) == Ok::<Seq<Seq<char>>, Error>(m.strings),
{
    let f = string_reader(file, h);
    assert forall|i: int| 0 <= i < m.strings.len() implies #[trigger] f(i) == Ok::<
        Seq<char>,
        Error,
    >(m.strings[i]) by {
        lemma_listed_word(file, words, 20, s.string_offsets, i);
        let offset = s.string_offsets[i];
        let part = string_bytes(m.strings[i]);
        assert(held(m.data_at(), s.data, offset, part));
        lemma_part_stands(file, m.data_at(), s.data, offset, part);
        lemma_string_round_trip(file, offset as int, m.strings[i]);
        assert(string_in(file, h, i) == Ok::<Seq<char>, Error>(m.strings[i]));
    }
    lemma_collect_all(f, m.strings, m.strings.len());
    assert(m.strings.take(m.strings.len() as int) =~= m.strings);
}

/// Every type reads back.
proof fn lemma_types_read(file: Seq<u8>, h: DexHeader, words: Seq<u32>, m: Tables)
    requires
        describes(h, m),
        stands_at(file, 32, words_bytes(words)),
        words_at(words, 20int + m.strings.len(), m.types),
        m.ok(),
    ensures
        types_in(file, h) == Ok::<Seq<u32>, Error>(m.types),
{
    let f = type_reader(file, h);
    assert forall|i: int| 0 <= i < m.types.len() implies #[trigger] f(i) == Ok::<u32, Error>(
        m.types[i],
    ) by {
        lemma_listed_word(file, words, 20int + m.strings.len(), m.types, i);
        assert(m.string_ok(m.types[i] as int));
        assert(type_in(file, h, i) == Ok::<u32, Error>(m.types[i]));
    }
    lemma_collect_all(f, m.types, m.types.len());
    assert(m.types.take(m.types.len() as int) =~= m.types);
}

/// The prototypes as they are read.
pub open spec fn proto_ids(m: Tables, s: Sections) -> Seq<ProtoId> {
    Seq::new(
        m.protos.len(),
        |i: int|
            ProtoId {
                shorty_idx: m.protos[i].shorty_idx,
                return_type_idx: m.protos[i].return_type_idx,
                parameters_off: s.param_offsets[i],
            },
    )
}

/// Every prototype reads back.
#[verifier::spinoff_prover]
proof fn lemma_protos_read(
    file: Seq<u8>,
    h: DexHeader,
    words: Seq<u32>,
    m: Tables,
    s: Sections,
)
    requires
        describes(h, m),
        stands_at(file, 32, words_bytes(words)),
        words_at(
            words,
            20int + m.strings.len() + m.types.len(),
            proto_words(m.protos, s.param_offsets),
        ),
        m.ok(),
    ensures
        protos_in(file, h) == Ok::<Seq<ProtoId>, Error>(proto_ids(m, s)),
{
    let f = proto_reader(file, h);
    let ids = proto_ids(m, s);
    assert forall|i: int| 0 <= i < ids.len() implies #[trigger] f(i) == Ok::<ProtoId, Error>(
        ids[i],
    ) by {
        lemma_proto_read(file, h, words, m, s, i);
    }
    lemma_collect_all(f, ids, ids.len());
    assert(ids.take(ids.len() as int) =~= ids);
}

proof fn lemma_proto_read(
    file: Seq<u8>,
    h: DexHeader,
    words: Seq<u32>,
    m: Tables,
    s: Sections,
    i: int,
)
    requires
        describes(h, m),
        stands_at(file, 32, words_bytes(words)),
        words_at(
            words,
            20int + m.strings.len() + m.types.len(),
            proto_words(m.protos, s.param_offsets),
        ),
        m.ok(),
        0 <= i < m.protos.len(),
    ensures
        proto_in(file, h, i) == Ok::<ProtoId, Error>(proto_ids(m, s)[i]),
{
    let all = proto_words(m.protos, s.param_offsets);
    let first: int = 20int + m.strings.len() + m.types.len();
    lemma_listed_word(file, words, first, all, 3 * i);
    lemma_listed_word(file, words, first, all, 3 * i + 1);
    lemma_listed_word(file, words, first, all, 3 * i + 2);
    assert(all[3 * i] == m.protos[i].shorty_idx);
    assert(all[3 * i + 1] == m.protos[i].return_type_idx);
    assert(all[3 * i + 2] == s.param_offsets[i]);
    assert(m.protos_at() + i * 12 == 32 + 4 * (first + 3 * i));
    assert(m.proto_ok(m.protos[i]));
}

/// The parameters of a prototype read back.
proof fn lemma_params_read(file: Seq<u8>, m: Tables, s: Sections, i: int, count: u32)
    requires
        0 <= i < m.protos.len(),
        stands_at(file, m.data_at(), padded(s.data)),
        sections_hold(m, s),
        file.len() <= u32::MAX,
        m.ok(),
        count == m.types.len(),
    ensures
        type_list_in(file, s.param_offsets[i], count) == Ok::<Seq<u16>, Error>(m.protos[i].params),
{
    let offset = s.param_offsets[i];
    let list = m.protos[i].params;
    assert(list_held(m.data_at(), s.data, offset, list));
    if list.len() > 0 {
        let part = type_list_bytes(list);
        lemma_part_stands(file, m.data_at(), s.data, offset, part);
        assert(m.proto_ok(m.protos[i]));
        assert(part.len() == 4 + 2 * list.len());
        lemma_type_list_round_trip(file, offset, list, count);
    } else {
        assert(list =~= Seq::<u16>::empty());
    }
}

/// The fields as they are read.
pub open spec fn field_ids(m: Tables) -> Seq<FieldId> {
    m.fields.map_values(
        |f: NewField|
            FieldId { class_idx: f.class_idx, type_idx: f.type_idx, name_idx: f.name_idx },
    )
}

/// Every field reads back.
#[verifier::spinoff_prover]
proof fn lemma_fields_read(file: Seq<u8>, h: DexHeader, words: Seq<u32>, m: Tables)
    requires
        describes(h, m),
        stands_at(file, 32, words_bytes(words)),
        words_at(
            words,
            20int + m.strings.len() + m.types.len() + 3 * m.protos.len(),
            field_words(m.fields),
        ),
        m.ok(),
    ensures
        fields_in(file, h) == Ok::<Seq<FieldId>, Error>(field_ids(m)),
{
    let f = field_reader(file, h);
    let ids = field_ids(m);
    assert forall|i: int| 0 <= i < ids.len() implies #[trigger] f(i) == Ok::<FieldId, Error>(
        ids[i],
    ) by {
        lemma_field_read(file, h, words, m, i);
    }
    lemma_collect_all(f, ids, ids.len());
    assert(ids.take(ids.len() as int) =~= ids);
}

proof fn lemma_field_read(file: Seq<u8>, h: DexHeader, words: Seq<u32>, m: Tables, i: int)
    requires
        describes(h, m),
        stands_at(file, 32, words_bytes(words)),
        words_at(
            words,
            20int + m.strings.len() + m.types.len() + 3 * m.protos.len(),
            field_words(m.fields),
        ),
        m.ok(),
        0 <= i < m.fields.len(),
    ensures
        field_in(file, h, i) == Ok::<FieldId, Error>(field_ids(m)[i]),
{
    let all = field_words(m.fields);
    let first: int = 20int + m.strings.len() + m.types.len() + 3 * m.protos.len();
    lemma_listed_word(file, words, first, all, 2 * i);
    lemma_listed_word(file, words, first, all, 2 * i + 1);
    assert(all[2 * i] == two(m.fields[i].class_idx, m.fields[i].type_idx));
    assert(all[2 * i + 1] == m.fields[i].name_idx);
    assert(m.fields_at() + i * 8 == 32 + 4 * (first + 2 * i));
    assert(m.field_ok(m.fields[i]));
}

/// The methods as they are read.
pub open spec fn method_ids(m: Tables) -> Seq<MethodId> {
    m.methods.map_values(
        |x: NewMethod|
            MethodId { class_idx: x.class_idx, proto_idx: x.proto_idx, name_idx: x.name_idx },
    )
}

/// Every method reads back.
#[verifier::spinoff_prover]
proof fn lemma_methods_read(file: Seq<u8>, h: DexHeader, words: Seq<u32>, m: Tables)
    requires
        describes(h, m),
        stands_at(file, 32, words_bytes(words)),
        words_at(
            words,
            20int + m.strings.len() + m.types.len() + 3 * m.protos.len() + 2 * m.fields.len(),
            method_words(m.methods),
        ),
        m.ok(),
    ensures
        methods_in(file, h) == Ok::<Seq<MethodId>, Error>(method_ids(m)),
{
    let f = method_reader(file, h);
    let ids = method_ids(m);
    assert forall|i: int| 0 <= i < ids.len() implies #[trigger] f(i) == Ok::<MethodId, Error>(
        ids[i],
    ) by {
        lemma_method_read(file, h, words, m, i);
    }
    lemma_collect_all(f, ids, ids.len());
    assert(ids.take(ids.len() as int) =~= ids);
}

proof fn lemma_method_read(file: Seq<u8>, h: DexHeader, words: Seq<u32>, m: Tables, i: int)
    requires
        describes(h, m),
        stands_at(file, 32, words_bytes(words)),
        words_at(
            words,
            20int + m.strings.len() + m.types.len() + 3 * m.protos.len() + 2 * m.fields.len(),
            method_words(m.methods),
        ),
        m.ok(),
        0 <= i < m.methods.len(),
    ensures
        method_in(file, h, i) == Ok::<MethodId, Error>(method_ids(m)[i]),
{
    let all = method_words(m.methods);
    let first: int = 20int + m.strings.len() + m.types.len() + 3 * m.protos.len() + 2
        * m.fields.len();
    lemma_listed_word(file, words, first, all, 2 * i);
    lemma_listed_word(file, words, first, all, 2 * i + 1);
    assert(all[2 * i] == two(m.methods[i].class_idx, m.methods[i].proto_idx));
    assert(all[2 * i + 1] == m.methods[i].name_idx);
    assert(m.methods_at() + i * 8 == 32 + 4 * (first + 2 * i));
    assert(m.method_ok(m.methods[i]));
}

/// The header that a file was written with is what is read.
proof fn lemma_header_read(file: Seq<u8>, h: DexHeader, version: u8, m: Tables)
    requires
        stands_at(file, 0, magic(version)),
        DexHeader::fields_at(file, 0) == h,
        describes(h, m),
        0x70 <= m.data_at() <= file.len(),
    ensures
        DexHeader::header_in(file, 0) == Ok::<DexHeader, Error>(h),
{
    let start = magic(version);
    assert(file[0int + 0] == start[0] && file[0int + 1] == start[1]);
    assert(file[0int + 2] == start[2] && file[0int + 3] == start[3]);
    assert(file[0int + 7] == start[7]);
    assert(h.fault(file.len() as int) is None);
}

/// What a file that was written is read as.
pub open spec fn written_tables(file: Seq<u8>, h: DexHeader, m: Tables, s: Sections) -> DexTables {
    DexTables {
        data: file,
        header: h,
        strings: m.strings,
        types: m.types,
        protos: proto_ids(m, s),
        fields: field_ids(m),
        methods: method_ids(m),
    }
}

/// A file that was written reads as the tables it was written from.
#[verifier::spinoff_prover]
pub proof fn lemma_file_reads(version: u8, m: Tables, s: Sections, class: Seq<u32>)
    requires
        m.ok(),
        sections_hold(m, s),
        class.len() == 8,
        file_size(m, s) <= u32::MAX,
    ensures
        ({
            let file = sealed(version, body(m, s, class));
            let t = DexTables::tables_in(file, 0);
            &&& t is Ok
            &&& reads_as(t->Ok_0, m)
            &&& describes(t->Ok_0.header, m)
            &&& t->Ok_0 == written_tables(file, t->Ok_0.header, m, s)
        }),
{
    let file = sealed(version, body(m, s, class));
    let words = front_words(m, s, class);
    let h = header_of(words);
    lemma_layout(version, m, s, class);
    lemma_fronts(m, s, class);
    lemma_header_fields(file, words);
    lemma_header_words(m, low32(map_at(m, s)), file_size(m, s) as u32, id_words(m, s) + class);
    assert(words =~= header_words(m, low32(map_at(m, s)), file_size(m, s) as u32) + (id_words(m, s)
        + class));
    lemma_header_read(file, h, version, m);
    lemma_tables_read(file, h, words, m, s);
    lemma_written_reads(file, h, m, s);
}

#[verifier::spinoff_prover]
proof fn lemma_tables_read(
    file: Seq<u8>,
    h: DexHeader,
    words: Seq<u32>,
    m: Tables,
    s: Sections,
)
    requires
        DexHeader::header_in(file, 0) == Ok::<DexHeader, Error>(h),
        describes(h, m),
        stands_at(file, 32, words_bytes(words)),
        words_at(words, 20, s.string_offsets),
        words_at(words, 20int + m.strings.len(), m.types),
        words_at(
            words,
            20int + m.strings.len() + m.types.len(),
            proto_words(m.protos, s.param_offsets),
        ),
        words_at(
            words,
            20int + m.strings.len() + m.types.len() + 3 * m.protos.len(),
            field_words(m.fields),
        ),
        words_at(
            words,
            20int + m.strings.len() + m.types.len() + 3 * m.protos.len() + 2 * m.fields.len(),
            method_words(m.methods),
        ),
        stands_at(file, m.data_at(), padded(s.data)),
        sections_hold(m, s),
        m.ok(),
    ensures
        DexTables::tables_in(file, 0) == Ok::<DexTables, Error>(written_tables(file, h, m, s)),
{
    lemma_strings_read(file, h, words, m, s);
    lemma_types_read(file, h, words, m);
    lemma_protos_read(file, h, words, m, s);
    lemma_fields_read(file, h, words, m);
    lemma_methods_read(file, h, words, m);
}

proof fn lemma_written_reads(file: Seq<u8>, h: DexHeader, m: Tables, s: Sections)
    requires
        describes(h, m),
        stands_at(file, m.data_at(), padded(s.data)),
        sections_hold(m, s),
        file.len() <= u32::MAX,
        m.ok(),
    ensures
        reads_as(written_tables(file, h, m, s), m),
{
    let t = written_tables(file, h, m, s);
    assert forall|i: int| 0 <= i < m.protos.len() implies {
        &&& (#[trigger] t.protos[i]).shorty_idx == m.protos[i].shorty_idx
        &&& t.protos[i].return_type_idx == m.protos[i].return_type_idx
        &&& t.type_list(t.protos[i].parameters_off) == Ok::<Seq<u16>, Error>(m.protos[i].params)
    } by {
        lemma_params_read(file, m, s, i, h.type_ids_size);
    }
}

// ---------------------------------------------------------------------------
// The class
// ---------------------------------------------------------------------------

/// A class definition in its words.
pub open spec fn class_with(words: Seq<u32>) -> ClassDef {
    ClassDef {
        class_idx: words[0],
        access_flags: words[1],
        superclass_idx: words[2],
        interfaces_off: words[3],
        source_file_idx: words[4],
        annotations_off: words[5],
        class_data_off: words[6],
        static_values_off: words[7],
    }
}

/// The one class definition of a file that was written.
#[verifier::spinoff_prover]
pub proof fn lemma_class_read(version: u8, m: Tables, s: Sections, class: Seq<u32>)
    requires
        m.ok(),
        sections_hold(m, s),
        class.len() == 8,
        file_size(m, s) <= u32::MAX,
    ensures
        ({
            let t = DexTables::tables_in(sealed(version, body(m, s, class)), 0)->Ok_0;
            &&& t.class_def_in(0) == Ok::<ClassDef, Error>(class_with(class))
            &&& u32_in(t.data, t.header.class_defs_off as int) == Ok::<u32, Error>(class[0])
        }),
{
    let t = DexTables::tables_in(sealed(version, body(m, s, class)), 0)->Ok_0;
    let file = sealed(version, body(m, s, class));
    let words = front_words(m, s, class);
    let at: int = 20int + id_count(m);
    lemma_file_reads(version, m, s, class);
    lemma_layout(version, m, s, class);
    lemma_fronts(m, s, class);
    lemma_words_collected(file, words, at, class);
    assert(m.class_at() == 32 + 4 * at);
    lemma_class_words(t, class);
}

/// Words that stand in a file, read one by one.
pub proof fn lemma_words_collected(file: Seq<u8>, words: Seq<u32>, at: int, list: Seq<u32>)
    requires
        stands_at(file, 32, words_bytes(words)),
        words_at(words, at, list),
    ensures
        collect(word_reader(file, 32 + 4 * at), list.len()) == Ok::<Seq<u32>, Error>(list),
        list.len() > 0 ==> u32_in(file, 32 + 4 * at) == Ok::<u32, Error>(list[0]),
{
    let f = word_reader(file, 32 + 4 * at);
    assert forall|i: int| 0 <= i < list.len() implies #[trigger] f(i) == Ok::<u32, Error>(
        list[i],
    ) by {
        lemma_listed_word(file, words, at, list, i);
        assert(32 + 4 * at + i * 4 == 32 + 4 * (at + i));
    }
    lemma_collect_all(f, list, list.len());
    assert(list.take(list.len() as int) =~= list);
    if list.len() > 0 {
        assert(f(0) == Ok::<u32, Error>(list[0]));
    }
}

proof fn lemma_class_words(t: DexTables, class: Seq<u32>)
    requires
        t.header.class_defs_size == 1,
        collect(word_reader(t.data, t.header.class_defs_off as int), 8) == Ok::<Seq<u32>, Error>(
            class,
        ),
    ensures
        t.class_def_in(0) == Ok::<ClassDef, Error>(class_with(class)),
{
    assert(t.header.class_defs_off + 0 * 32 == t.header.class_defs_off as int);
}

} // verus!
