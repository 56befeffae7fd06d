//! A file that is built for a class is valid.
use vstd::prelude::*;

use crate::collections::low32;
use crate::dex_format::{le32, DexHeader};
use crate::error::Error;
use crate::minidex::assemble::{
    body, built, class_words, file_size, header_words, id_words, magic, map_at, map_of, map_words,
    sealed, sections_of, version_of, Sections,
};
use crate::minidex::bytecode::CodeRefs;
use crate::minidex::canonical::{
    field_keys, lemma_fields_merged, lemma_methods_merged, lemma_protos_merged,
    lemma_strings_sorted, lemma_types_merged, method_keys, proto_keys, string_keys, type_keys,
};
use crate::minidex::digests::{adler32, sha1_digest};
use crate::minidex::emit::{le32_bytes, padded};
use crate::minidex::gather::{gathered, lemma_gathered_ok};
use crate::minidex::hollow::{parts_of, Parts};
use crate::minidex::layout::lemma_cut_up;
use crate::minidex::leb::stands_at;
use crate::minidex::maplist::{lemma_map_charted, lemma_map_sound};
use crate::minidex::meaning::lemma_gathered_faithful;
use crate::minidex::readback::{lemma_sections_hold, sections_hold};
use crate::minidex::reader::{ClassDef, DexTables, Members};
use crate::minidex::roundtrip::{lemma_collect_all, lemma_word_read};
use crate::minidex::sections::words_bytes;
use crate::minidex::sorted::{lemma_canonical_sorted, same_types, shorties_agree};
use crate::minidex::tableback::{describes, front_words, lemma_file_reads, lemma_layout, reads_as};
use crate::minidex::tables::Tables;
use crate::minidex::validate::{
    dex_fault, field_id_keys, map_fault, method_id_keys, order_fault, place_fault, proto_key_reader,
    seal_fault, strictly_sorted, tables_fault,
};
use crate::minidex::{class_of, extracted_from, linked};

verus! {

/// A sealed file names its version, its signature and its checksum.
#[verifier::spinoff_prover]
proof fn lemma_seal_sound(version: u8, all: Seq<u8>)
    requires
        le32(sealed(version, all), 0x20) == sealed(version, all).len(),
    ensures
        seal_fault(sealed(version, all)) is None,
{
    let file = sealed(version, all);
    let digest = sha1_digest(all)@;
    let signed = digest + all;
    let sum = adler32(signed);
    let start = magic(version);
    let part = le32_bytes(sum);
    assert(digest.len() == 20 && start.len() == 8 && part.len() == 4);
    assert(file =~= start + part + digest + all);
    assert(file.subrange(0, 8) =~= start);
    assert(start =~= magic(35) || start =~= magic(38) || start =~= magic(39));
    assert(file.subrange(12, 32) =~= digest);
    assert(file.skip(32) =~= all);
    assert(file.skip(12) =~= signed);
    let one = words_bytes(seq![sum]);
    assert(one =~= part) by {
        assert(seq![sum].drop_last() =~= Seq::<u32>::empty());
        assert(words_bytes(seq![sum].drop_last()) =~= Seq::<u8>::empty());
    }
    assert(stands_at(file, 8, one)) by {
        assert forall|i: int| 0 <= i < one.len() implies file[8 + i] == #[trigger] one[i] by {}
    }
    lemma_word_read(file, 8, seq![sum], 0);
}

/// The words of the header that name the file's size, its map and its data.
proof fn lemma_header_words(m: Tables, map_off: u32, size: u32)
    ensures
        header_words(m, map_off, size).len() == 20,
        header_words(m, map_off, size)[0] == size,
        header_words(m, map_off, size)[5] == map_off,
        header_words(m, map_off, size)[18] == (size - m.data_at()) as u32,
        header_words(m, map_off, size)[19] == low32(m.data_at()),
{
}

proof fn lemma_begins(a: Seq<u32>, b: Seq<u32>, c: Seq<u32>)
    ensures
        (a + b + c).len() >= a.len(),
        forall|k: int| 0 <= k < a.len() ==> #[trigger] (a + b + c)[k] == a[k],
{
}

/// The words of a file begin with those of its header.
#[verifier::rlimit(40)]
#[verifier::spinoff_prover]
proof fn lemma_front_places(m: Tables, s: Sections, class: Seq<u32>)
    requires
        m.data_at() <= map_at(m, s) <= file_size(m, s) <= u32::MAX,
    ensures
        front_words(m, s, class).len() >= 20,
        front_words(m, s, class)[0] == file_size(m, s),
        front_words(m, s, class)[5] == map_at(m, s),
        front_words(m, s, class)[18] == file_size(m, s) - m.data_at(),
        front_words(m, s, class)[19] == m.data_at(),
{
    let size = file_size(m, s);
    let map = map_at(m, s);
    lemma_header_words(m, low32(map), size as u32);
    lemma_begins(header_words(m, low32(map), size as u32), id_words(m, s), class);
}

/// Where the map stands.
proof fn lemma_map_place(m: Tables, s: Sections)
    ensures
        0x70 <= m.data_at() <= map_at(m, s) < file_size(m, s),
        m.data_at() + s.data.len() <= map_at(m, s),
        map_at(m, s) % 4 == 0,
{
    assert(m.data_at() % 4 == 0);
    assert(padded(s.data).len() % 4 == 0);
    assert(map_words(map_of(m, s, low32(map_at(m, s)))).len() >= 1);
}

/// A file whose header names its size, its map and its data.
spec fn places_named(file: Seq<u8>, size: int, map: int, data: int) -> bool {
    &&& le32(file, 0x20) == size
    &&& le32(file, 0x34) == map
    &&& le32(file, 0x68) == size - data
    &&& le32(file, 0x6c) == data
}

proof fn lemma_header_places(file: Seq<u8>, words: Seq<u32>, size: int, map: int, data: int)
    requires
        stands_at(file, 32, words_bytes(words)),
        words.len() >= 20,
        words[0] == size,
        words[5] == map,
        words[18] == size - data,
        words[19] == data,
    ensures
        places_named(file, size, map, data),
{
    lemma_word_read(file, 32, words, 0);
    lemma_word_read(file, 32, words, 5);
    lemma_word_read(file, 32, words, 18);
    lemma_word_read(file, 32, words, 19);
}

/// The data section and the map stand where they may.
proof fn lemma_place_sound(file: Seq<u8>, map: int, data: int)
    requires
        places_named(file, file.len() as int, map, data),
        0x70 <= data <= map < file.len(),
        map % 4 == 0,
    ensures
        place_fault(file) is None,
{
}

proof fn lemma_tables_sound(h: DexHeader, m: Tables)
    requires
        describes(h, m),
    ensures
        tables_fault(h, m.data_at()) is None,
{
}

/// Tables that read as sorted ones are sorted.
#[verifier::spinoff_prover]
proof fn lemma_order_sound(t: DexTables, m: Tables)
    requires
        reads_as(t, m),
        all_sorted(m),
    ensures
        order_fault(t) is None,
{
    let f = proto_key_reader(t);
    let keys = proto_keys(m.protos);
    assert forall|i: int| 0 <= i < keys.len() implies #[trigger] f(i) == Ok::<Seq<u32>, Error>(
        keys[i],
    ) by {
        assert(t.protos[i].return_type_idx == m.protos[i].return_type_idx);
    }
    lemma_collect_all(f, keys, keys.len());
    assert(keys.take(keys.len() as int) =~= keys);
    assert(field_id_keys(t.fields) =~= field_keys(m.fields)) by {
        assert forall|i: int| 0 <= i < m.fields.len() implies field_id_keys(t.fields)[i]
            == field_keys(m.fields)[i] by {
            assert(t.fields[i].class_idx == m.fields[i].class_idx);
        }
    }
    assert(method_id_keys(t.methods) =~= method_keys(m.methods)) by {
        assert forall|i: int| 0 <= i < m.methods.len() implies method_id_keys(t.methods)[i]
            == method_keys(m.methods)[i] by {
            assert(t.methods[i].class_idx == m.methods[i].class_idx);
        }
    }
}

/// Whether all tables are strictly sorted.
pub open spec fn all_sorted(m: Tables) -> bool {
    &&& strictly_sorted(string_keys(m.strings))
    &&& strictly_sorted(type_keys(m.types))
    &&& strictly_sorted(proto_keys(m.protos))
    &&& strictly_sorted(field_keys(m.fields))
    &&& strictly_sorted(method_keys(m.methods))
}

/// A file without the five kinds of faults has none.
proof fn lemma_no_fault(file: Seq<u8>, t: DexTables)
    requires
        DexTables::tables_in(file, 0) == Ok::<DexTables, Error>(t),
        seal_fault(file) is None,
        place_fault(file) is None,
        map_fault(file) is None,
        tables_fault(t.header, le32(file, 0x6c) as int) is None,
        order_fault(t) is None,
    ensures
        dex_fault(file) is None,
{
    reveal(dex_fault);
}

/// The map of a file that is built has no fault.
#[verifier::spinoff_prover]
proof fn lemma_map_valid(
    file: Seq<u8>,
    members: Members,
    parts: Parts,
    m: Tables,
    dex: DexTables,
    s: Sections,
)
    requires
        m.ok(),
        sections_of(members, parts, m, dex) == Ok::<Sections, Error>(s),
        sections_hold(m, s),
        map_at(m, s) < file_size(m, s) <= u32::MAX,
        m.data_at() + s.data.len() <= map_at(m, s),
        le32(file, 0x34) == map_at(m, s),
        stands_at(
            file,
            map_at(m, s),
            words_bytes(map_words(map_of(m, s, low32(map_at(m, s))))),
        ),
    ensures
        map_fault(file) is None,
{
    let cuts = lemma_cut_up(members, parts, m, dex);
    lemma_map_charted(m, s, cuts, low32(map_at(m, s)));
    lemma_map_sound(file, map_of(m, s, low32(map_at(m, s))));
}

/// A file that is written from sorted tables is valid.
#[verifier::spinoff_prover]
proof fn lemma_file_sound(
    version: u8,
    members: Members,
    parts: Parts,
    m: Tables,
    dex: DexTables,
    s: Sections,
    words: Seq<u32>,
)
    requires
        m.ok(),
        sections_of(members, parts, m, dex) == Ok::<Sections, Error>(s),
        sections_hold(m, s),
        words.len() == 8,
        file_size(m, s) <= u32::MAX,
        all_sorted(m),
    ensures
        dex_fault(sealed(version, body(m, s, words))) is None,
{
    let file = sealed(version, body(m, s, words));
    lemma_map_place(m, s);
    lemma_layout(version, m, s, words);
    lemma_front_places(m, s, words);
    lemma_header_places(
        file,
        front_words(m, s, words),
        file_size(m, s),
        map_at(m, s),
        m.data_at(),
    );
    lemma_seal_sound(version, body(m, s, words));
    lemma_place_sound(file, map_at(m, s), m.data_at());
    lemma_map_valid(file, members, parts, m, dex, s);
    lemma_file_reads(version, m, s, words);
    let t = DexTables::tables_in(file, 0)->Ok_0;
    lemma_tables_sound(t.header, m);
    lemma_order_sound(t, m);
    lemma_no_fault(file, t);
}

/// What is built from sorted tables is valid.
#[verifier::spinoff_prover]
proof fn lemma_built_sound(
    class: ClassDef,
    members: Members,
    parts: Parts,
    m: Tables,
    dex: DexTables,
)
    requires
        m.ok(),
        built(class, members, parts, m, dex) is Ok,
        all_sorted(m),
    ensures
        dex_fault(built(class, members, parts, m, dex)->Ok_0) is None,
{
    let s = sections_of(members, parts, m, dex)->Ok_0;
    let words = class_words(class, s, m, dex)->Ok_0;
    lemma_map_place(m, s);
    lemma_sections_hold(members, parts, m, dex);
    lemma_file_sound(
        version_of(parts.codes.values, 0, 35)->Ok_0,
        members,
        parts,
        m,
        dex,
        s,
        words,
    );
}

/// Whether the prototypes of a source that take and return the same types have
/// the same short form, as they have where short forms are right.
pub open spec fn shorties_right(dex: DexTables) -> bool {
    forall|i: int, j: int|
        #![trigger dex.proto_meaning(i), dex.proto_meaning(j)]
        0 <= i < dex.protos.len() && 0 <= j < dex.protos.len() && dex.proto_meaning(i).result
            == dex.proto_meaning(j).result && dex.proto_meaning(i).params == dex.proto_meaning(
            j,
        ).params ==> dex.proto_meaning(i).shorty == dex.proto_meaning(j).shorty
}

/// Short forms that agree in the source agree in what is gathered from it.
proof fn lemma_shorties_agree(g: Tables, dex: DexTables)
    requires
        g.ok(),
        g.faithful(dex),
        g.owned(dex),
        shorties_right(dex),
    ensures
        shorties_agree(g),
{
    assert forall|i: int, j: int|
        #![trigger g.protos[i], g.protos[j]]
        0 <= i < g.protos.len() && 0 <= j < g.protos.len() && same_types(
            g,
            g.protos[i],
            g.protos[j],
        ) implies g.protos[i].shorty_idx == g.protos[j].shorty_idx by {
        let p = g.protos[i];
        let q = g.protos[j];
        assert(g.proto_owned(dex, i) && g.proto_owned(dex, j));
        let x = choose|k: u32|
            g.origin_protos.contains_key(k) && #[trigger] g.origin_protos[k] as int == i && k
                < dex.protos.len();
        let y = choose|k: u32|
            g.origin_protos.contains_key(k) && #[trigger] g.origin_protos[k] as int == j && k
                < dex.protos.len();
        assert(g.proto_meaning(p) == dex.proto_meaning(x as int));
        assert(g.proto_meaning(q) == dex.proto_meaning(y as int));
        assert(g.names_of_types(p.params) =~= g.names_of_types(q.params)) by {
            assert forall|k: int| 0 <= k < p.params.len() implies g.names_of_types(p.params)[k]
                == g.names_of_types(q.params)[k] by {
                assert(g.types[p.params[k] as int] == g.types[q.params[k] as int]);
            }
        }
        assert(g.proto_ok(p) && g.proto_ok(q));
        assert(g.strings[p.shorty_idx as int] == g.strings[q.shorty_idx as int]);
    }
}

/// The tables of a class are sorted where short forms agree.
proof fn lemma_linked_sorted(dex: DexTables, class: ClassDef, members: Members)
    requires
        linked(dex, class, members) is Ok,
        linked(dex, class, members)->Ok_0.0.strings.len() <= u32::MAX,
        shorties_right(dex),
    ensures
        linked(dex, class, members)->Ok_0.0.ok(),
        all_sorted(linked(dex, class, members)->Ok_0.0),
{
    let (parts, refs) = parts_of(dex, class, members, CodeRefs::empty())->Ok_0;
    let g = gathered(dex, class, members, parts, refs)->Ok_0;
    lemma_gathered_ok(dex, class, members, parts, refs);
    lemma_strings_sorted(g);
    assert(g.canonical().strings.len() == g.strings.len());
    lemma_gathered_faithful(dex, class, members, parts, refs);
    lemma_shorties_agree(g, dex);
    lemma_canonical_ok(g);
    lemma_canonical_sorted(g);
}

proof fn lemma_canonical_ok(g: Tables)
    requires
        g.ok(),
    ensures
        g.canonical().ok(),
{
    lemma_strings_sorted(g);
    lemma_types_merged(g.strings_sorted());
    lemma_protos_merged(g.strings_sorted().types_merged());
    lemma_fields_merged(g.strings_sorted().types_merged().protos_merged());
    lemma_methods_merged(g.strings_sorted().types_merged().protos_merged().fields_merged());
}

/// What is built for a class is valid, so a class that can be built is
/// extracted, where prototypes of the source that take and return the same
/// types have the same short form.
#[verifier::spinoff_prover]
pub proof fn lemma_built_extracted(dex: DexTables, descriptor: Seq<char>)
    requires
        class_of(dex, descriptor) is Ok,
        ({
            let (class, members) = class_of(dex, descriptor)->Ok_0;
            let (m, parts) = linked(dex, class, members)->Ok_0;
            &&& linked(dex, class, members) is Ok
            &&& built(class, members, parts, m, dex) is Ok
        }),
        shorties_right(dex),
    ensures
        extracted_from(dex, descriptor) is Ok,
{
    let (class, members) = class_of(dex, descriptor)->Ok_0;
    let (m, parts) = linked(dex, class, members)->Ok_0;
    lemma_linked_sorted(dex, class, members);
    lemma_built_sound(class, members, parts, m, dex);
}

} // verus!
