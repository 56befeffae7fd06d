//! What an extraction keeps of a class beside its members and its code: its
//! superclass, its source file, its interfaces, its static values, its
//! annotations and its debug items.
use vstd::prelude::*;

use crate::collections::low32;
use crate::dex_format::u32_in;
use crate::error::Error;
use crate::minidex::assemble::{class_words, NO_INDEX, Sections};
use crate::minidex::bytecode::CodeRefs;
use crate::minidex::canonical::picked;
use crate::minidex::debugback::{lemma_debug_back, mapped_debug};
use crate::minidex::emit::{annotation_bytes, array_bytes, le32_bytes};
use crate::minidex::fidelity::{lemma_extracted_layout, sections_for};
use crate::minidex::hollow::{parts_of, statics_of, Parts};
use crate::minidex::leb::stands_at;
use crate::minidex::metaback::{
    debug_stands_at, debug_written, debugs_stand, item_stands_at, item_written,
    lemma_metadata_stands, list_stands_at, lists_stand, notes_stand, set_ref_bytes, set_ref_writer,
    set_writer,
};
use crate::minidex::metadata::{annotations_in, debug_in};
use crate::minidex::notes::{
    debug_ok_at, debugs_ok, item_ok_at, items_ok, lemma_annotations_ok, lemma_debugs_ok,
};
use crate::minidex::readback::{held, lemma_annotation_grows};
use crate::minidex::reader::{word_reader, ClassDef, DexTables};
use crate::minidex::roundtrip::{
    lemma_collect_all, lemma_type_list_round_trip, lemma_word_read, lemma_words_size,
};
use crate::minidex::sections::{
    directory_words, item_ranks, or_zero, placed_words, set_bytes, type_list_bytes, type_mapper,
    words_bytes,
};
use crate::minidex::tableback::reads_as;
use crate::minidex::tables::{lemma_position, Tables};
use crate::minidex::valueback::{
    annotation_ok, lemma_annotation_back, lemma_array_back, lemma_array_in_ok, mapped_annotation,
    mapped_values, values_ok,
};
use crate::minidex::values::{annotation_in, array_in, Item, RefSets};
use crate::minidex::{class_of, extracted_from, linked};
use crate::order::{lemma_sort_order, sort_order};
use crate::results::{collect, lemma_collect_ok};

verus! {

/// The parts that an extraction was made from.
pub open spec fn parts_for(dex: DexTables, descriptor: Seq<char>) -> Parts {
    let (class, members) = class_of(dex, descriptor)->Ok_0;
    linked(dex, class, members)->Ok_0.1
}

/// The class definition of the extracted file.
pub open spec fn extracted_def(dex: DexTables, descriptor: Seq<char>) -> ClassDef {
    DexTables::tables_in(extracted_from(dex, descriptor)->Ok_0.0, 0)->Ok_0.class_def_in(0)->Ok_0
}

/// A part of the data section stands in the file where its offset says.
proof fn lemma_held_stands(file: Seq<u8>, base: int, data: Seq<u8>, offset: u32, part: Seq<u8>)
    requires
        stands_at(file, base, data),
        held(base, data, offset, part),
    ensures
        stands_at(file, offset as int, part),
{
    let at = offset - base;
    assert forall|i: int| 0 <= i < part.len() implies file[offset + i] == #[trigger] part[i] by {
        assert(data[at + i] == part[i]);
        assert(file[base + (at + i)] == data[at + i]);
    }
}

// ---------------------------------------------------------------------------
// Names of the class
// ---------------------------------------------------------------------------

/// The extracted class has the superclass and the source file that the class
/// had, or none where it had none.
#[verifier::spinoff_prover]
pub proof fn lemma_extracted_names(dex: DexTables, descriptor: Seq<char>)
    requires
        extracted_from(dex, descriptor) is Ok,
    ensures
        ({
            let class = class_of(dex, descriptor)->Ok_0.0;
            let t = DexTables::tables_in(extracted_from(dex, descriptor)->Ok_0.0, 0)->Ok_0;
            let def = extracted_def(dex, descriptor);
            &&& if class.superclass_idx == NO_INDEX {
                def.superclass_idx == NO_INDEX
            } else {
                &&& def.superclass_idx < t.types.len()
                &&& t.name_of_type(def.superclass_idx as int) == dex.name_of_type(
                    class.superclass_idx as int,
                )
            }
            &&& if class.source_file_idx == NO_INDEX {
                def.source_file_idx == NO_INDEX
            } else {
                &&& def.source_file_idx < t.strings.len()
                &&& t.strings[def.source_file_idx as int]
                    == dex.strings[class.source_file_idx as int]
            }
        }),
{
    let (bytes, m) = extracted_from(dex, descriptor)->Ok_0;
    let class = class_of(dex, descriptor)->Ok_0.0;
    let s = sections_for(dex, descriptor);
    lemma_extracted_layout(dex, descriptor);
    lemma_names_kept(class, s, m, dex);
}

proof fn lemma_names_kept(class: ClassDef, s: Sections, m: Tables, dex: DexTables)
    requires
        m.ok(),
        m.faithful(dex),
        m.strings.len() <= u32::MAX,
        class_words(class, s, m, dex) is Ok,
    ensures
        ({
            let words = class_words(class, s, m, dex)->Ok_0;
            &&& if class.superclass_idx == NO_INDEX {
                words[2] == NO_INDEX
            } else {
                &&& words[2] < m.types.len()
                &&& m.name_of_type(words[2] as int) == dex.name_of_type(
                    class.superclass_idx as int,
                )
            }
            &&& if class.source_file_idx == NO_INDEX {
                words[4] == NO_INDEX
            } else {
                &&& words[4] < m.strings.len()
                &&& m.strings[words[4] as int] == dex.strings[class.source_file_idx as int]
            }
        }),
{
    if class.superclass_idx != NO_INDEX {
        assert(m.origin_types.contains_key(class.superclass_idx));
        assert(m.type_ok(m.origin_types[class.superclass_idx] as int));
    }
    if class.source_file_idx != NO_INDEX {
        lemma_position(m.strings, dex.strings[class.source_file_idx as int]);
    }
}

// ---------------------------------------------------------------------------
// Interfaces and static values
// ---------------------------------------------------------------------------

/// The well-formed metadata of a class stands in the extracted file.
proof fn lemma_parts_ok(dex: DexTables, descriptor: Seq<char>)
    requires
        extracted_from(dex, descriptor) is Ok,
    ensures
        ({
            let parts = parts_for(dex, descriptor);
            &&& items_ok(parts.annotations.items)
            &&& parts.annotations.sets.wf()
            &&& parts.annotations.set_refs.wf()
            &&& debugs_ok(parts.debug_info)
            &&& parts.static_values matches Some(items) ==> values_ok(items)
        }),
{
    let (class, members) = class_of(dex, descriptor)->Ok_0;
    let parts = parts_of(dex, class, members, CodeRefs::empty())->Ok_0.0;
    let none = RefSets::empty();
    lemma_annotations_ok(dex.data, class.annotations_off, none);
    let a = annotations_in(dex.data, class.annotations_off, none)->Ok_0.1;
    if class.static_values_off != 0 {
        lemma_array_in_ok(dex.data, class.static_values_off, a);
    }
    let b = statics_of(dex.data, class.static_values_off, a)->Ok_0.1;
    lemma_debugs_ok(dex.data, parts.codes, b);
}

/// The class definition of an extraction points at the parts that were written.
proof fn lemma_def_offsets(dex: DexTables, descriptor: Seq<char>)
    requires
        extracted_from(dex, descriptor) is Ok,
    ensures
        ({
            let def = extracted_def(dex, descriptor);
            let s = sections_for(dex, descriptor);
            &&& def.interfaces_off == s.interfaces_off
            &&& def.annotations_off == s.annotations.directory
            &&& def.static_values_off == s.static_values_off
        }),
{
    let m = extracted_from(dex, descriptor)->Ok_0.1;
    let class = class_of(dex, descriptor)->Ok_0.0;
    let s = sections_for(dex, descriptor);
    lemma_extracted_layout(dex, descriptor);
    lemma_offset_words(class, s, m, dex);
}

proof fn lemma_offset_words(class: ClassDef, s: Sections, m: Tables, dex: DexTables)
    requires
        class_words(class, s, m, dex) is Ok,
    ensures
        class_words(class, s, m, dex)->Ok_0[3] == s.interfaces_off,
        class_words(class, s, m, dex)->Ok_0[5] == s.annotations.directory,
        class_words(class, s, m, dex)->Ok_0[7] == s.static_values_off,
{
}

/// The data section of an extraction stands in the file, and the metadata of
/// the class in the data section.
proof fn lemma_kept(dex: DexTables, descriptor: Seq<char>)
    requires
        extracted_from(dex, descriptor) is Ok,
    ensures
        ({
            let (bytes, m) = extracted_from(dex, descriptor)->Ok_0;
            let members = class_of(dex, descriptor)->Ok_0.1;
            let parts = parts_for(dex, descriptor);
            let s = sections_for(dex, descriptor);
            &&& stands_at(bytes, m.data_at(), s.data)
            &&& bytes.len() <= u32::MAX
            &&& lists_stand(parts, m, dex, s)
            &&& notes_stand(m.data_at(), parts.annotations, m, dex, s.data, s.annotations)
            &&& debugs_stand(members, parts.debug_info, m, dex, s)
        }),
{
    let m = extracted_from(dex, descriptor)->Ok_0.1;
    let members = class_of(dex, descriptor)->Ok_0.1;
    let parts = parts_for(dex, descriptor);
    lemma_extracted_layout(dex, descriptor);
    lemma_parts_ok(dex, descriptor);
    lemma_metadata_stands(members, parts, m, dex);
}

/// The extracted class has the interfaces that the class had, in the same
/// order.
#[verifier::spinoff_prover]
pub proof fn lemma_extracted_interfaces(dex: DexTables, descriptor: Seq<char>)
    requires
        extracted_from(dex, descriptor) is Ok,
    ensures
        ({
            let class = class_of(dex, descriptor)->Ok_0.0;
            let t = DexTables::tables_in(extracted_from(dex, descriptor)->Ok_0.0, 0)->Ok_0;
            let def = extracted_def(dex, descriptor);
            let old_list = dex.type_list(class.interfaces_off);
            let new_list = t.type_list(def.interfaces_off);
            &&& old_list is Ok
            &&& new_list is Ok
            &&& t.names_of_types(new_list->Ok_0) == dex.names_of_types(old_list->Ok_0)
            &&& old_list->Ok_0 == parts_for(dex, descriptor).interfaces
            &&& new_list == collect(
                type_mapper(extracted_from(dex, descriptor)->Ok_0.1, old_list->Ok_0),
                old_list->Ok_0.len(),
            )
        }),
{
    let (bytes, m) = extracted_from(dex, descriptor)->Ok_0;
    let parts = parts_for(dex, descriptor);
    let s = sections_for(dex, descriptor);
    let t = DexTables::tables_in(bytes, 0)->Ok_0;
    lemma_extracted_layout(dex, descriptor);
    lemma_kept(dex, descriptor);
    lemma_def_offsets(dex, descriptor);
    lemma_interfaces_read(t, parts, m, dex, s);
}

#[verifier::spinoff_prover]
proof fn lemma_interfaces_read(
    t: DexTables,
    parts: Parts,
    m: Tables,
    dex: DexTables,
    s: Sections,
)
    requires
        m.ok(),
        m.faithful(dex),
        reads_as(t, m),
        t.header.type_ids_size == m.types.len(),
        stands_at(t.data, m.data_at(), s.data),
        t.data.len() <= u32::MAX,
        lists_stand(parts, m, dex, s),
    ensures
        t.type_list(s.interfaces_off) is Ok,
        t.names_of_types(t.type_list(s.interfaces_off)->Ok_0) == dex.names_of_types(
            parts.interfaces,
        ),
        t.type_list(s.interfaces_off) == collect(
            type_mapper(m, parts.interfaces),
            parts.interfaces.len(),
        ),
{
    let list = parts.interfaces;
    let types = collect(type_mapper(m, list), list.len())->Ok_0;
    lemma_types_kept(list, m, dex);
    if types.len() > 0 {
        let part = type_list_bytes(types);
        lemma_held_stands(t.data, m.data_at(), s.data, s.interfaces_off, part);
        assert(part.len() == 4 + 2 * types.len());
        lemma_type_list_round_trip(t.data, s.interfaces_off, types, t.header.type_ids_size);
    } else {
        assert(types =~= Seq::<u16>::empty());
    }
    assert(t.names_of_types(types) =~= m.names_of_types(types));
}

proof fn lemma_types_kept(list: Seq<u16>, m: Tables, dex: DexTables)
    requires
        m.ok(),
        m.faithful(dex),
        collect(type_mapper(m, list), list.len()) is Ok,
    ensures
        ({
            let types = collect(type_mapper(m, list), list.len())->Ok_0;
            &&& types.len() == list.len()
            &&& forall|i: int| 0 <= i < types.len() ==> #[trigger] types[i] < m.types.len()
            &&& m.names_of_types(types) == dex.names_of_types(list)
        }),
{
    let f = type_mapper(m, list);
    let types = collect(f, list.len())->Ok_0;
    lemma_collect_ok(f, list.len());
    assert forall|i: int| 0 <= i < types.len() implies #[trigger] types[i] < m.types.len()
        && m.name_of_type(types[i] as int) == dex.name_of_type(list[i] as int) by {
        assert(f(i) == Ok::<u16, Error>(types[i]));
        assert(m.origin_types.contains_key(list[i] as u32));
        assert(m.type_ok(m.origin_types[list[i] as u32] as int));
    }
    assert(m.names_of_types(types) =~= dex.names_of_types(list));
}

/// The extracted class has the static values that the class had, by the new
/// indices of what they point at, or none where it had none.
#[verifier::spinoff_prover]
pub proof fn lemma_extracted_statics(dex: DexTables, descriptor: Seq<char>, refs: RefSets)
    requires
        extracted_from(dex, descriptor) is Ok,
    ensures
        ({
            let (bytes, m) = extracted_from(dex, descriptor)->Ok_0;
            let offset = extracted_def(dex, descriptor).static_values_off;
            match parts_for(dex, descriptor).static_values {
                None => offset == 0,
                Some(items) => {
                    &&& offset != 0
                    &&& array_in(bytes, offset, refs) is Ok
                    &&& array_in(bytes, offset, refs)->Ok_0.0 == mapped_values(items, m, dex)
                },
            }
        }),
{
    let (bytes, m) = extracted_from(dex, descriptor)->Ok_0;
    let (class, members) = class_of(dex, descriptor)->Ok_0;
    let parts = parts_for(dex, descriptor);
    let s = sections_for(dex, descriptor);
    lemma_parts_ok(dex, descriptor);
    lemma_kept(dex, descriptor);
    lemma_def_offsets(dex, descriptor);
    if let Some(items) = parts.static_values {
        let part = array_bytes(items, m, dex)->Ok_0;
        lemma_held_stands(bytes, m.data_at(), s.data, s.static_values_off, part);
        lemma_array_back(bytes, s.static_values_off, items, m, dex, refs);
    }
}

// ---------------------------------------------------------------------------
// Annotations
// ---------------------------------------------------------------------------

/// Every annotation item of the class reads back from the extracted file with
/// its visibility and the new indices of what it points at.
#[verifier::spinoff_prover]
pub proof fn lemma_extracted_annotation(
    dex: DexTables,
    descriptor: Seq<char>,
    id: u32,
    refs: RefSets,
)
    requires
        extracted_from(dex, descriptor) is Ok,
        parts_for(dex, descriptor).annotations.directory is Some,
        parts_for(dex, descriptor).annotations.items.get(id) is Some,
    ensures
        ({
            let (bytes, m) = extracted_from(dex, descriptor)->Ok_0;
            let item = parts_for(dex, descriptor).annotations.items.get(id)->Some_0;
            let placed = sections_for(dex, descriptor).annotations.items.get(id);
            &&& placed is Some
            &&& placed->Some_0 < bytes.len()
            &&& bytes[placed->Some_0 as int] == item.visibility
            &&& annotation_in(bytes, placed->Some_0 + 1, refs) is Ok
            &&& annotation_in(bytes, placed->Some_0 + 1, refs)->Ok_0.0 == mapped_annotation(
                item.annotation,
                m,
                dex,
            )
        }),
{
    let (bytes, m) = extracted_from(dex, descriptor)->Ok_0;
    let (class, members) = class_of(dex, descriptor)->Ok_0;
    let parts = parts_for(dex, descriptor);
    let s = sections_for(dex, descriptor);
    let items = parts.annotations.items;
    lemma_parts_ok(dex, descriptor);
    lemma_kept(dex, descriptor);
    assert(item_ok_at(items, id));
    assert(s.annotations.items.get(id) is Some);
    assert(item_stands_at(m.data_at(), s.data, s.annotations.items, items, m, dex, id));
    let item = items.get(id)->Some_0;
    let offset = s.annotations.items.get(id)->Some_0;
    let done = choose|done: Seq<u8>| #[trigger]
        item_written(s.data, item, m, dex, done) && offset == m.data_at() + done.len();
    lemma_item_read(bytes, m.data_at(), s.data, item, m, dex, done, refs);
}

proof fn lemma_item_read(
    file: Seq<u8>,
    base: int,
    data: Seq<u8>,
    item: Item,
    m: Tables,
    dex: DexTables,
    done: Seq<u8>,
    refs: RefSets,
)
    requires
        stands_at(file, base, data),
        item_written(data, item, m, dex, done),
        annotation_ok(item.annotation),
        file.len() <= u32::MAX,
    ensures
        base + done.len() < file.len(),
        file[base + done.len()] == item.visibility,
        annotation_in(file, base + done.len() + 1, refs) is Ok,
        annotation_in(file, base + done.len() + 1, refs)->Ok_0.0 == mapped_annotation(
            item.annotation,
            m,
            dex,
        ),
{
    reveal(item_written);
    let start = done.push(item.visibility);
    let all = annotation_bytes(item.annotation, m, dex, start)->Ok_0;
    lemma_annotation_grows(item.annotation, m, dex, start);
    lemma_annotation_back(file, base, data, item.annotation, m, dex, start, refs);
    let k = done.len() as int;
    assert(all[k] == start[k]);
    assert(data[k] == all[k]);
    assert(file[base + k] == data[k]);
}

/// Words that stand in a file, read one by one.
proof fn lemma_words_read(file: Seq<u8>, at: int, words: Seq<u32>)
    requires
        stands_at(file, at, words_bytes(words)),
    ensures
        collect(word_reader(file, at), words.len()) == Ok::<Seq<u32>, Error>(words),
{
    let f = word_reader(file, at);
    assert forall|i: int| 0 <= i < words.len() implies #[trigger] f(i) == Ok::<u32, Error>(
        words[i],
    ) by {
        lemma_word_read(file, at, words, i);
        assert(at + i * 4 == at + 4 * i);
    }
    lemma_collect_all(f, words, words.len());
    assert(words.take(words.len() as int) =~= words);
}

/// A count and as many words that stand in a file.
proof fn lemma_counted_read(file: Seq<u8>, at: int, words: Seq<u32>)
    requires
        stands_at(file, at, le32_bytes(low32(words.len() as int)) + words_bytes(words)),
        file.len() <= u32::MAX,
    ensures
        u32_in(file, at) == Ok::<u32, Error>(words.len() as u32),
        collect(word_reader(file, at + 4), words.len()) == Ok::<Seq<u32>, Error>(words),
{
    let n = low32(words.len() as int);
    let all = seq![n] + words;
    let part = le32_bytes(n) + words_bytes(words);
    lemma_words_size(words);
    assert(n == words.len());
    assert(stands_at(file, at, words_bytes(seq![n]))) by {
        let one = words_bytes(seq![n]);
        assert(seq![n].drop_last() =~= Seq::<u32>::empty());
        assert(words_bytes(seq![n].drop_last()) =~= Seq::<u8>::empty());
        assert(one =~= le32_bytes(n));
        assert forall|i: int| 0 <= i < one.len() implies file[at + i] == #[trigger] one[i] by {
            assert(part[i] == one[i]);
            assert(file[at + i] == part[i]);
        }
    }
    lemma_words_read(file, at, seq![n]);
    let f = word_reader(file, at);
    lemma_collect_ok(f, 1);
    assert(f(0) == Ok::<u32, Error>(n));
    assert(stands_at(file, at + 4, words_bytes(words))) by {
        let rest = words_bytes(words);
        assert forall|i: int| 0 <= i < rest.len() implies file[at + 4 + i] == #[trigger] rest[i] by {
            assert(part[4 + i] == rest[i]);
            assert(file[at + (4 + i)] == part[4 + i]);
        }
    }
    lemma_words_read(file, at + 4, words);
}

/// Every annotation set of the class reads back from the extracted file: it
/// lists where the same items stand, in the order of their new types.
#[verifier::spinoff_prover]
pub proof fn lemma_extracted_set(dex: DexTables, descriptor: Seq<char>, id: u32)
    requires
        extracted_from(dex, descriptor) is Ok,
        parts_for(dex, descriptor).annotations.directory is Some,
        parts_for(dex, descriptor).annotations.sets.get(id) is Some,
    ensures
        ({
            let (bytes, m) = extracted_from(dex, descriptor)->Ok_0;
            let a = parts_for(dex, descriptor).annotations;
            let placed = sections_for(dex, descriptor).annotations;
            let set = a.sets.get(id)->Some_0;
            let walk = sort_order(item_ranks(a.items, m, set), set.len());
            let offset = or_zero(placed.sets, id);
            &&& placed.sets.get(id) is Some
            &&& u32_in(bytes, offset as int) == Ok::<u32, Error>(set.len() as u32)
            &&& collect(word_reader(bytes, offset + 4), set.len()) == Ok::<Seq<u32>, Error>(
                placed_words(picked(set, walk), placed.items),
            )
        }),
{
    let (bytes, m) = extracted_from(dex, descriptor)->Ok_0;
    let (class, members) = class_of(dex, descriptor)->Ok_0;
    let parts = parts_for(dex, descriptor);
    let s = sections_for(dex, descriptor);
    let a = parts.annotations;
    let placed = s.annotations;
    lemma_parts_ok(dex, descriptor);
    lemma_kept(dex, descriptor);
    let bytes_of = set_writer(a.items, m, placed.items);
    assert(placed.sets.get(id) is Some);
    assert(list_stands_at(m.data_at(), s.data, placed.sets, a.sets, bytes_of, id));
    let set = a.sets.get(id)->Some_0;
    let offset = placed.sets.get(id)->Some_0;
    let walk = sort_order(item_ranks(a.items, m, set), set.len());
    let words = placed_words(picked(set, walk), placed.items);
    lemma_sort_order(item_ranks(a.items, m, set), set.len());
    assert(words.len() == set.len());
    lemma_held_stands(
        bytes,
        m.data_at(),
        s.data,
        offset,
        set_bytes(set, a.items, m, placed.items),
    );
    lemma_counted_read(bytes, offset as int, words);
}

/// Every list of annotation sets of the class reads back from the extracted
/// file: it lists where the same sets stand.
#[verifier::spinoff_prover]
pub proof fn lemma_extracted_set_list(dex: DexTables, descriptor: Seq<char>, id: u32)
    requires
        extracted_from(dex, descriptor) is Ok,
        parts_for(dex, descriptor).annotations.directory is Some,
        parts_for(dex, descriptor).annotations.set_refs.get(id) is Some,
    ensures
        ({
            let (bytes, m) = extracted_from(dex, descriptor)->Ok_0;
            let list = parts_for(dex, descriptor).annotations.set_refs.get(id)->Some_0;
            let placed = sections_for(dex, descriptor).annotations;
            let offset = or_zero(placed.set_refs, id);
            &&& placed.set_refs.get(id) is Some
            &&& u32_in(bytes, offset as int) == Ok::<u32, Error>(list.len() as u32)
            &&& collect(word_reader(bytes, offset + 4), list.len()) == Ok::<Seq<u32>, Error>(
                placed_words(list, placed.sets),
            )
        }),
{
    let (bytes, m) = extracted_from(dex, descriptor)->Ok_0;
    let (class, members) = class_of(dex, descriptor)->Ok_0;
    let parts = parts_for(dex, descriptor);
    let s = sections_for(dex, descriptor);
    let a = parts.annotations;
    let placed = s.annotations;
    lemma_parts_ok(dex, descriptor);
    lemma_kept(dex, descriptor);
    let bytes_of = set_ref_writer(placed.sets);
    assert(placed.set_refs.get(id) is Some);
    assert(list_stands_at(m.data_at(), s.data, placed.set_refs, a.set_refs, bytes_of, id));
    let list = a.set_refs.get(id)->Some_0;
    let offset = placed.set_refs.get(id)->Some_0;
    let words = placed_words(list, placed.sets);
    lemma_held_stands(
        bytes,
        m.data_at(),
        s.data,
        offset,
        set_ref_bytes(list, placed.sets),
    );
    lemma_counted_read(bytes, offset as int, words);
}

/// The annotation directory of the extracted class lists the sets of the class
/// and of its members where they stand, the members by their new indices; a
/// class without a directory has none.
#[verifier::spinoff_prover]
pub proof fn lemma_extracted_directory(dex: DexTables, descriptor: Seq<char>)
    requires
        extracted_from(dex, descriptor) is Ok,
    ensures
        ({
            let (bytes, m) = extracted_from(dex, descriptor)->Ok_0;
            let offset = extracted_def(dex, descriptor).annotations_off;
            let placed = sections_for(dex, descriptor).annotations;
            match parts_for(dex, descriptor).annotations.directory {
                None => offset == 0,
                Some(d) => {
                    let words = directory_words(d, m, placed.sets, placed.set_refs);
                    &&& offset != 0
                    &&& collect(word_reader(bytes, offset as int), words.len()) == Ok::<
                        Seq<u32>,
                        Error,
                    >(words)
                },
            }
        }),
{
    let (bytes, m) = extracted_from(dex, descriptor)->Ok_0;
    let (class, members) = class_of(dex, descriptor)->Ok_0;
    let parts = parts_for(dex, descriptor);
    let s = sections_for(dex, descriptor);
    lemma_parts_ok(dex, descriptor);
    lemma_kept(dex, descriptor);
    lemma_def_offsets(dex, descriptor);
    if let Some(d) = parts.annotations.directory {
        let words = directory_words(d, m, s.annotations.sets, s.annotations.set_refs);
        let offset = s.annotations.directory;
        lemma_held_stands(bytes, m.data_at(), s.data, offset, words_bytes(words));
        lemma_words_read(bytes, offset as int, words);
    }
}

// ---------------------------------------------------------------------------
// Debug items
// ---------------------------------------------------------------------------

/// The debug item of every method of the class that has one reads back from
/// the extracted file with the new indices of its names; a method that has
/// none gets offset zero.
#[verifier::spinoff_prover]
pub proof fn lemma_extracted_debug(dex: DexTables, descriptor: Seq<char>, j: int, refs: RefSets)
    requires
        extracted_from(dex, descriptor) is Ok,
        0 <= j < class_of(dex, descriptor)->Ok_0.1.methods().len(),
    ensures
        ({
            let (bytes, m) = extracted_from(dex, descriptor)->Ok_0;
            let id = class_of(dex, descriptor)->Ok_0.1.methods()[j].method_idx;
            let offset = or_zero(sections_for(dex, descriptor).debug_offsets, id);
            match parts_for(dex, descriptor).debug_info.get(id) {
                None => offset == 0,
                Some(d) => {
                    &&& offset != 0
                    &&& debug_in(bytes, offset as int, refs) is Ok
                    &&& debug_in(bytes, offset as int, refs)->Ok_0.0 == mapped_debug(d, m, dex)
                },
            }
        }),
{
    let (bytes, m) = extracted_from(dex, descriptor)->Ok_0;
    let (class, members) = class_of(dex, descriptor)->Ok_0;
    let parts = parts_for(dex, descriptor);
    let s = sections_for(dex, descriptor);
    let id = members.methods()[j].method_idx;
    let debug = parts.debug_info;
    lemma_parts_ok(dex, descriptor);
    lemma_kept(dex, descriptor);
    assert(debug_ok_at(debug, id));
    assert(debug_stands_at(m.data_at(), s.data, s.debug_offsets, debug, m, dex, id));
    if debug.get(id) is Some {
        let d = debug.get(id)->Some_0;
        assert(s.debug_offsets.get(members.methods()[j].method_idx) is Some);
        let offset = s.debug_offsets.get(id)->Some_0;
        let done = choose|done: Seq<u8>| #[trigger]
            debug_written(s.data, d, m, dex, done) && offset == m.data_at() + done.len();
        reveal(debug_written);
        lemma_debug_back(bytes, m.data_at(), s.data, d, m, dex, done, refs);
    }
}

} // verus!
