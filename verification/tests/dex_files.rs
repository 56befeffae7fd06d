use std::collections::{BTreeMap, BTreeSet, HashSet};
use std::sync::Arc;

use asc_rs::apk::{list_entry_classes, locate_class, merge_listings, parse_entry};
use asc_rs::dex::{
    class_descriptors, class_descriptors_at, dex_defines_class_at, Dex, MemberQuery, Query,
    ReferenceIndexes, ReferenceKind, StringBatchMatcher,
};
use asc_rs::dex_format::{read_strings, DexHeader};
use asc_rs::error::{Error, Table};
use asc_rs::minidex::metadata::{parse_debug_info, Annotations};
use asc_rs::minidex::reader::DexView;
use asc_rs::minidex::values::{
    parse_encoded_array, DebugOp, EncodedValue, IndexKind, MetadataRefs,
};
use asc_rs::minidex::{extract_minimal_dex, extract_minimal_dex_at, validate_minimal_dex};
use asc_rs::render::{batch_reference_lines, count_references, reference_lines, reference_text};
use asc_rs::service::{merge_batches, merge_searches, search_dex, search_dex_batch};
use sha1::{Digest, Sha1};

fn uleb(mut value: u32, out: &mut Vec<u8>) {
    while value >= 0x80 {
        out.push((value & 0x7f) as u8 | 0x80);
        value >>= 7;
    }
    out.push(value as u8);
}

fn word(value: u32, out: &mut Vec<u8>) {
    out.extend_from_slice(&value.to_le_bytes());
}

fn half(value: u16, out: &mut Vec<u8>) {
    out.extend_from_slice(&value.to_le_bytes());
}

fn align(out: &mut Vec<u8>) {
    while out.len() % 4 != 0 {
        out.push(0);
    }
}

fn put_word(data: &mut [u8], at: usize, value: u32) {
    data[at..at + 4].copy_from_slice(&value.to_le_bytes());
}

const STRINGS: [&str; 20] = [
    "<init>",
    "Hello",
    "I",
    "LMain;",
    "LOther;",
    "Ljava/lang/Exception;",
    "Ljava/lang/Object;",
    "Ljava/lang/Runnable;",
    "Ljava/lang/String;",
    "Main.java",
    "V",
    "VL",
    "World",
    "count",
    "go",
    "name",
    "run",
    "unused",
    "\u{1f600}",
    "\u{ff5e}",
];

fn string(text: &str) -> u32 {
    STRINGS.iter().position(|s| *s == text).unwrap() as u32
}

const TYPES: [&str; 8] = [
    "I",
    "LMain;",
    "LOther;",
    "Ljava/lang/Exception;",
    "Ljava/lang/Object;",
    "Ljava/lang/Runnable;",
    "Ljava/lang/String;",
    "V",
];

fn type_of(text: &str) -> u32 {
    TYPES.iter().position(|s| *s == text).unwrap() as u32
}

/// Two classes. `LMain;` has an interface, a static field with a value, a
/// constructor, and a method that names a string, a field and a method of
/// `LOther;` inside a try block.
fn sample() -> Vec<u8> {
    let string_ids = 0x70;
    let type_ids = string_ids + 4 * STRINGS.len();
    let proto_ids = type_ids + 4 * TYPES.len();
    let field_ids = proto_ids + 12 * 2;
    let method_ids = field_ids + 8 * 2;
    let class_defs = method_ids + 8 * 4;
    let data_off = class_defs + 32 * 2;
    let mut data = vec![0; data_off];

    let mut string_offsets = Vec::new();
    for text in STRINGS {
        string_offsets.push(data.len() as u32);
        uleb(text.encode_utf16().count() as u32, &mut data);
        for unit in text.encode_utf16() {
            if unit != 0 && unit < 0x80 {
                data.push(unit as u8);
            } else if unit < 0x800 {
                data.push(0xc0 | (unit >> 6) as u8);
                data.push(0x80 | (unit & 0x3f) as u8);
            } else {
                data.push(0xe0 | (unit >> 12) as u8);
                data.push(0x80 | ((unit >> 6) & 0x3f) as u8);
                data.push(0x80 | (unit & 0x3f) as u8);
            }
        }
        data.push(0);
    }

    align(&mut data);
    let parameters = data.len() as u32;
    word(1, &mut data);
    half(type_of("Ljava/lang/String;") as u16, &mut data);
    align(&mut data);
    let interfaces = data.len() as u32;
    word(1, &mut data);
    half(type_of("Ljava/lang/Runnable;") as u16, &mut data);

    let static_values = data.len() as u32;
    uleb(1, &mut data);
    data.push(0x04);
    data.push(7);

    align(&mut data);
    let init_code = data.len() as u32;
    for unit in [1u16, 1, 1, 0] {
        half(unit, &mut data);
    }
    word(0, &mut data);
    word(4, &mut data);
    for unit in [0x1070u16, 3, 0, 0x000e] {
        half(unit, &mut data);
    }

    align(&mut data);
    let run_code = data.len() as u32;
    for unit in [2u16, 1, 1, 1] {
        half(unit, &mut data);
    }
    word(0, &mut data);
    word(9, &mut data);
    for unit in [
        0x001au16,
        string("Hello") as u16,
        0x0062,
        1,
        0x1071,
        2,
        0,
        0x000e,
        0x000e,
    ] {
        half(unit, &mut data);
    }
    half(0, &mut data);
    word(0, &mut data);
    half(7, &mut data);
    half(1, &mut data);
    data.push(1);
    data.push(1);
    uleb(type_of("Ljava/lang/Exception;"), &mut data);
    uleb(8, &mut data);

    align(&mut data);
    let go_code = data.len() as u32;
    for unit in [2u16, 1, 0, 0] {
        half(unit, &mut data);
    }
    word(0, &mut data);
    word(3, &mut data);
    for unit in [0x001au16, string("World") as u16, 0x000e] {
        half(unit, &mut data);
    }

    let main_data = data.len() as u32;
    for value in [1, 0, 1, 1, 0, 9, 0, 0x1_0001, init_code, 1, 1, run_code] {
        uleb(value, &mut data);
    }
    let other_data = data.len() as u32;
    for value in [1, 0, 1, 0, 1, 9, 2, 9, go_code] {
        uleb(value, &mut data);
    }

    data[..8].copy_from_slice(b"dex\n035\0");
    let size = data.len() as u32;
    put_word(&mut data, 0x20, size);
    put_word(&mut data, 0x24, 0x70);
    put_word(&mut data, 0x28, 0x1234_5678);
    for (at, count, offset) in [
        (0x38, STRINGS.len(), string_ids),
        (0x40, TYPES.len(), type_ids),
        (0x48, 2, proto_ids),
        (0x50, 2, field_ids),
        (0x58, 4, method_ids),
        (0x60, 2, class_defs),
    ] {
        put_word(&mut data, at, count as u32);
        put_word(&mut data, at + 4, offset as u32);
    }
    for (i, offset) in string_offsets.iter().enumerate() {
        put_word(&mut data, string_ids + 4 * i, *offset);
    }
    for (i, name) in TYPES.iter().enumerate() {
        put_word(&mut data, type_ids + 4 * i, string(name));
    }
    let void = type_of("V");
    for (i, value) in [string("V"), void, 0, string("VL"), void, parameters]
        .iter()
        .enumerate()
    {
        put_word(&mut data, proto_ids + 4 * i, *value);
    }
    let main = type_of("LMain;");
    let other = type_of("LOther;");
    let object = type_of("Ljava/lang/Object;");
    for (i, value) in [
        main | type_of("I") << 16,
        string("count"),
        other | type_of("Ljava/lang/String;") << 16,
        string("name"),
    ]
    .iter()
    .enumerate()
    {
        put_word(&mut data, field_ids + 4 * i, *value);
    }
    for (i, value) in [
        main,
        string("<init>"),
        main,
        string("run"),
        other | 1 << 16,
        string("go"),
        object,
        string("<init>"),
    ]
    .iter()
    .enumerate()
    {
        put_word(&mut data, method_ids + 4 * i, *value);
    }
    let none = 0xffff_ffff;
    for (i, value) in [
        main,
        1,
        object,
        interfaces,
        string("Main.java"),
        0,
        main_data,
        static_values,
        other,
        1,
        object,
        0,
        none,
        0,
        other_data,
        0,
    ]
    .iter()
    .enumerate()
    {
        put_word(&mut data, class_defs + 4 * i, *value);
    }
    data
}

#[test]
fn lists_and_probes_classes() {
    let data = sample();
    assert_eq!(class_descriptors(&data).unwrap(), ["LMain;", "LOther;"]);
    assert_eq!(
        class_descriptors_at(&data, 0).unwrap(),
        ["LMain;", "LOther;"]
    );
    assert!(dex_defines_class_at(&data, 0, "LMain;").unwrap());
    assert!(dex_defines_class_at(&data, 0, "LOther;").unwrap());
    assert!(!dex_defines_class_at(&data, 0, "Ljava/lang/Object;").unwrap());
    assert!(!dex_defines_class_at(&data, 0, "LMissing;").unwrap());
    assert!(matches!(
        class_descriptors(&data[..0x6f]),
        Err(Error::ShortHeader)
    ));
    assert!(matches!(
        dex_defines_class_at(&data, 4, "LMain;"),
        Err(Error::BadMagic)
    ));
}

#[test]
fn reads_every_string_of_the_table() {
    let data = sample();
    let header = DexHeader::parse(&data).unwrap();
    assert_eq!(header.string_ids_size, STRINGS.len() as u32);
    assert_eq!(read_strings(&data, &header).unwrap(), STRINGS);
}

#[test]
fn formats_complete_signatures() {
    let dex = Dex::parse(&sample()).unwrap();
    assert_eq!(dex.class_count(), 2);
    assert_eq!(dex.method_count(), 4);
    assert!(dex.defines_class("LMain;"));
    assert!(!dex.defines_class("Ljava/lang/String;"));
    assert_eq!(dex.format_method(1), "LMain;->run()V");
    assert_eq!(dex.format_method(2), "LOther;->go(Ljava/lang/String;)V");
    assert_eq!(
        dex.format_match(ReferenceKind::Field, 1),
        "LOther;->name:Ljava/lang/String;"
    );
    assert_eq!(dex.format_match(ReferenceKind::String, 1), "Hello");
    assert_eq!(dex.format_match(ReferenceKind::Type, 1), "LMain;");
    assert!(matches!(
        dex.try_format_method(4),
        Err(Error::InvalidMethodIndex(4))
    ));
    assert!(dex.try_format_match(ReferenceKind::Field, 2).is_err());
}

#[test]
fn matches_targets_in_ascending_order() {
    let dex = Dex::parse(&sample()).unwrap();
    let query = Query::String("lang".to_owned());
    assert_eq!(dex.matching_indices_sorted(&query), [5, 6, 7, 8]);
    assert_eq!(
        dex.matching_indices(&query),
        HashSet::from([5, 6, 7, 8])
    );
    let init = Query::Method(MemberQuery {
        name: Some("<init>".to_owned()),
        class: None,
        fuzzy_class: false,
    });
    assert_eq!(dex.matching_indices_sorted(&init), [0, 3]);
    let exact = Query::Method(MemberQuery {
        name: Some("go".to_owned()),
        class: Some("LOther;".to_owned()),
        fuzzy_class: false,
    });
    assert_eq!(dex.matching_indices_sorted(&exact), [2]);
    let fuzzy = Query::Field(MemberQuery {
        name: None,
        class: Some("Main".to_owned()),
        fuzzy_class: true,
    });
    assert_eq!(dex.matching_indices_sorted(&fuzzy), [0]);
}

#[test]
fn scans_reference_sites_with_code_unit_offsets() {
    let dex = Dex::parse(&sample()).unwrap();
    let sites = dex
        .scan_reference_sites(ReferenceKind::Method, &HashSet::from([2, 3]))
        .unwrap();
    let found: Vec<(u32, u32, u32)> = sites
        .iter()
        .map(|s| (s.caller_index, s.target_index, s.code_unit_offset))
        .collect();
    assert_eq!(found, [(0, 3, 0), (1, 2, 4)]);
    let sorted = dex
        .scan_reference_sites_sorted(ReferenceKind::Method, &[2, 3])
        .unwrap();
    assert_eq!(sorted.len(), 2);
    let grouped = dex
        .scan_references(ReferenceKind::String, &HashSet::from([1, 12]))
        .unwrap();
    let expected: BTreeMap<u32, BTreeSet<u32>> = BTreeMap::from([
        (1, BTreeSet::from([1])),
        (2, BTreeSet::from([12])),
    ]);
    assert_eq!(grouped, expected);
    assert!(dex
        .scan_reference_sites(ReferenceKind::Type, &HashSet::from([1]))
        .unwrap()
        .is_empty());
}

#[test]
fn cached_indexes_answer_like_fresh_scans() {
    let dex = Dex::parse(&sample()).unwrap();
    let mut indexes = ReferenceIndexes::new();
    for _ in 0..2 {
        let sites = indexes.scan(&dex, ReferenceKind::Field, &[1]).unwrap();
        assert_eq!(sites.len(), 1);
        assert_eq!(sites[0].caller_index, 1);
        assert_eq!(sites[0].target_index, 1);
        assert_eq!(sites[0].code_unit_offset, 2);
        assert_eq!(
            sites,
            dex.scan_reference_sites_sorted(ReferenceKind::Field, &[1])
                .unwrap()
        );
    }
}

#[test]
fn search_keeps_signature_target_and_offset() {
    let dex = Dex::parse(&sample()).unwrap();
    let mut indexes = ReferenceIndexes::new();
    let query = Query::String("o".to_owned());
    let (summary, found) = search_dex("classes.dex", &dex, &mut indexes, &query).unwrap();
    assert_eq!(summary.dex_name, "classes.dex");
    assert_eq!(summary.classes, 2);
    assert_eq!(summary.methods, 4);
    assert_eq!(
        summary.matched_targets,
        STRINGS.iter().filter(|s| s.contains('o')).count()
    );
    assert_eq!(found.len(), 2);
    assert_eq!(found[0].dex_name, "classes.dex");
    assert_eq!(found[0].caller_index, 1);
    assert_eq!(found[0].caller_method, "LMain;->run()V");
    assert_eq!(found[0].code_unit_offset, 0);
    assert_eq!(found[0].target_index, 1);
    assert_eq!(found[0].target_symbol, "Hello");
    assert_eq!(found[1].caller_method, "LOther;->go(Ljava/lang/String;)V");
    assert_eq!(found[1].target_symbol, "World");
    let lines = reference_lines(&found);
    assert_eq!(
        lines,
        [
            "classes.dex | LMain;->run()V | matched=(Hello)",
            "classes.dex | LOther;->go(Ljava/lang/String;)V | matched=(World)",
        ]
    );
    let merged = merge_searches(vec![Ok((summary, found))]).unwrap();
    assert_eq!(merged.references.len(), 2);
    assert_eq!(merged.dexes.len(), 1);
    assert!(matches!(
        merge_searches(vec![Err(Error::Cancelled)]),
        Err(Error::Cancelled)
    ));
}

#[test]
fn batch_search_equals_separate_searches() {
    let dex = Dex::parse(&sample()).unwrap();
    let mut indexes = ReferenceIndexes::new();
    let patterns: Vec<String> = ["Hello", "o", "", "o", "nothing"]
        .iter()
        .map(|s| s.to_string())
        .collect();
    let matcher = StringBatchMatcher::new(&patterns).unwrap();
    let (summary, groups) =
        search_dex_batch("classes.dex", &dex, &mut indexes, &matcher).unwrap();
    assert_eq!(groups.len(), patterns.len());
    for (i, pattern) in patterns.iter().enumerate() {
        let query = Query::String(pattern.clone());
        let (single, found) = search_dex("classes.dex", &dex, &mut indexes, &query).unwrap();
        assert_eq!(summary.matched_targets[i], single.matched_targets);
        assert_eq!(groups[i].len(), found.len());
        for (a, b) in groups[i].iter().zip(&found) {
            assert_eq!(a.caller_index, b.caller_index);
            assert_eq!(a.caller_method, b.caller_method);
            assert_eq!(a.code_unit_offset, b.code_unit_offset);
            assert_eq!(a.target_index, b.target_index);
            assert_eq!(a.target_symbol, b.target_symbol);
        }
    }
    let merged = merge_batches(&patterns, vec![Ok((summary, groups))]).unwrap();
    assert_eq!(merged.groups.len(), 5);
    assert_eq!(merged.groups[0].pattern, "Hello");
    assert_eq!(merged.groups[0].references.len(), 1);
    assert_eq!(count_references(&merged.groups), 1 + 2 + 2 + 2);
    let lines = batch_reference_lines(&merged.groups);
    assert_eq!(
        lines[0],
        "query=\"Hello\" | classes.dex | LMain;->run()V | matched=(Hello)"
    );
}

#[test]
fn extracts_one_class_and_what_it_names() {
    let data = sample();
    let minimal = extract_minimal_dex(&data, "LMain;").unwrap();
    let bytes = &minimal.bytes;
    validate_minimal_dex(bytes).unwrap();
    assert_eq!(&bytes[..8], b"dex\n035\0");
    assert_eq!(
        u32::from_le_bytes(bytes[32..36].try_into().unwrap()) as usize,
        bytes.len()
    );
    assert_eq!(&bytes[12..32], Sha1::digest(&bytes[32..]).as_slice());
    assert_eq!(
        u32::from_le_bytes(bytes[8..12].try_into().unwrap()),
        adler2::adler32_slice(&bytes[12..])
    );
    assert_eq!(minimal.stats.input_bytes, data.len());
    assert_eq!(minimal.stats.output_bytes, bytes.len());

    assert_eq!(class_descriptors(bytes).unwrap(), ["LMain;"]);
    assert!(dex_defines_class_at(bytes, 0, "LMain;").unwrap());
    assert!(!dex_defines_class_at(bytes, 0, "LOther;").unwrap());
    let header = DexHeader::parse(bytes).unwrap();
    let strings = read_strings(bytes, &header).unwrap();
    assert!(strings.contains(&"Hello".to_owned()));
    assert!(strings.contains(&"LOther;".to_owned()));
    assert!(!strings.contains(&"World".to_owned()));
    assert!(!strings.contains(&"unused".to_owned()));
    assert_eq!(minimal.stats.strings, strings.len());

    let dex = Dex::parse(bytes).unwrap();
    let mut indexes = ReferenceIndexes::new();
    let query = Query::Method(MemberQuery {
        name: Some("go".to_owned()),
        class: None,
        fuzzy_class: false,
    });
    let (_, found) = search_dex("minimal", &dex, &mut indexes, &query).unwrap();
    assert_eq!(found.len(), 1);
    assert_eq!(found[0].caller_method, "LMain;->run()V");
    assert_eq!(found[0].target_symbol, "LOther;->go(Ljava/lang/String;)V");
    assert_eq!(found[0].code_unit_offset, 4);
    let query = Query::String("Hello".to_owned());
    let (_, found) = search_dex("minimal", &dex, &mut indexes, &query).unwrap();
    assert_eq!(found.len(), 1);
    assert_eq!(found[0].code_unit_offset, 0);
}

#[test]
fn extraction_keeps_members_code_and_handlers() {
    let data = sample();
    let source = DexView::parse(&data).unwrap();
    let class = source.find_class("LMain;").unwrap().unwrap();
    let members = source.class_data(class.class_data_off).unwrap();
    let minimal = extract_minimal_dex(&data, "LMain;").unwrap();
    let copy = DexView::parse(&minimal.bytes).unwrap();
    let new_class = copy.find_class("LMain;").unwrap().unwrap();
    let new_members = copy.class_data(new_class.class_data_off).unwrap();
    assert_eq!(new_class.access_flags, class.access_flags);
    assert_eq!(new_members.static_fields.len(), 1);
    assert_eq!(new_members.static_fields[0].access_flags, 9);
    assert_eq!(new_members.instance_fields.len(), 0);
    assert_eq!(new_members.direct_methods.len(), 1);
    assert_eq!(new_members.virtual_methods.len(), 1);
    let old = source
        .code_item(members.virtual_methods[0].code_off)
        .unwrap();
    let new = copy
        .code_item(new_members.virtual_methods[0].code_off)
        .unwrap();
    assert_eq!(new.registers_size, old.registers_size);
    assert_eq!(new.insns.len(), old.insns.len());
    assert_eq!(new.tries.len(), 1);
    assert_eq!(new.tries[0].start_addr, 0);
    assert_eq!(new.tries[0].insn_count, 7);
    assert_eq!(new.handlers.len(), 1);
    assert_eq!(new.handlers[0].old_offset, new.tries[0].handler_off);
    assert_eq!(new.handlers[0].pairs.len(), 1);
    assert_eq!(new.handlers[0].pairs[0].1, 8);
    let caught = new.handlers[0].pairs[0].0 as usize;
    let name = copy.type_descriptor_indices[caught] as usize;
    assert_eq!(copy.strings[name], "Ljava/lang/Exception;");
}

/// The sample with annotations on `LMain;`, on its field and on `run`, and with
/// a debug item for `run`.
fn annotated_sample() -> Vec<u8> {
    let mut data = sample();
    let (class_def, run_code) = {
        let view = DexView::parse(&data).unwrap();
        let class = view.find_class("LMain;").unwrap().unwrap();
        let members = view.class_data(class.class_data_off).unwrap();
        (
            view.header.class_defs_off as usize,
            members.virtual_methods[0].code_off as usize,
        )
    };
    let debug = data.len() as u32;
    for value in [
        5,
        0,
        3,
        1,
        string("count") + 1,
        type_of("I") + 1,
        0x0e,
        0,
    ] {
        uleb(value, &mut data);
    }
    let runnable = data.len() as u32;
    for value in [0, type_of("Ljava/lang/Runnable;"), 0] {
        uleb(value, &mut data);
    }
    let exception = data.len() as u32;
    for value in [
        1,
        type_of("Ljava/lang/Exception;"),
        1,
        string("name"),
        0x17,
        string("World"),
    ] {
        uleb(value, &mut data);
    }
    align(&mut data);
    let set = data.len() as u32;
    for value in [2, runnable, exception] {
        word(value, &mut data);
    }
    let list = data.len() as u32;
    for value in [2, set, 0] {
        word(value, &mut data);
    }
    let directory = data.len() as u32;
    for value in [set, 1, 1, 1, 0, set, 1, set, 1, list] {
        word(value, &mut data);
    }
    put_word(&mut data, class_def + 20, directory);
    put_word(&mut data, run_code + 8, debug);
    let size = data.len() as u32;
    put_word(&mut data, 0x20, size);
    data
}

#[test]
fn extraction_keeps_names_interfaces_and_static_values() {
    let minimal = extract_minimal_dex(&sample(), "LMain;").unwrap();
    let copy = DexView::parse(&minimal.bytes).unwrap();
    let class = copy.find_class("LMain;").unwrap().unwrap();
    assert_eq!(
        copy.type_descriptor(class.superclass_idx).unwrap(),
        "Ljava/lang/Object;"
    );
    assert_eq!(copy.strings[class.source_file_idx as usize], "Main.java");
    let interfaces = copy.type_list(class.interfaces_off).unwrap();
    assert_eq!(interfaces.len(), 1);
    assert_eq!(
        copy.type_descriptor(interfaces[0] as u32).unwrap(),
        "Ljava/lang/Runnable;"
    );
    let mut refs = MetadataRefs::new();
    let values =
        parse_encoded_array(&minimal.bytes, class.static_values_off, &mut refs).unwrap();
    assert_eq!(values.len(), 1);
    assert!(matches!(&values[0], EncodedValue::Primitive(4, bytes) if bytes == &vec![7]));
    assert_eq!(class.annotations_off, 0);

    let minimal = extract_minimal_dex(&sample(), "LOther;").unwrap();
    let copy = DexView::parse(&minimal.bytes).unwrap();
    let class = copy.find_class("LOther;").unwrap().unwrap();
    assert_eq!(class.source_file_idx, 0xffff_ffff);
    assert_eq!(class.interfaces_off, 0);
    assert_eq!(class.static_values_off, 0);
}

#[test]
fn extraction_keeps_annotations() {
    let minimal = extract_minimal_dex(&annotated_sample(), "LMain;").unwrap();
    let copy = DexView::parse(&minimal.bytes).unwrap();
    let class = copy.find_class("LMain;").unwrap().unwrap();
    let mut refs = MetadataRefs::new();
    let notes = Annotations::parse(&minimal.bytes, class.annotations_off, &mut refs).unwrap();
    assert_eq!(notes.items.keys.len(), 2);
    assert_eq!(notes.sets.values.len(), 1);
    let set = &notes.sets.values[0];
    let mut found = Vec::new();
    for offset in set {
        let at = notes.items.keys.iter().position(|k| k == offset).unwrap();
        let item = &notes.items.values[at];
        let kind = copy.type_descriptor(item.annotation.type_idx).unwrap();
        found.push((kind.to_owned(), item.visibility, item.annotation.elements.len()));
    }
    assert_eq!(
        found,
        [
            ("Ljava/lang/Exception;".to_owned(), 1, 1),
            ("Ljava/lang/Runnable;".to_owned(), 0, 0),
        ]
    );
    let at = notes.items.keys.iter().position(|k| *k == set[0]).unwrap();
    let element = &notes.items.values[at].annotation.elements[0];
    assert_eq!(copy.strings[element.name as usize], "name");
    let text = match element.value {
        EncodedValue::Indexed(IndexKind::String, index) => &copy.strings[index as usize],
        _ => panic!("no string"),
    };
    assert_eq!(text, "World");
    let directory = notes.directory.as_ref().unwrap();
    let place = notes.sets.keys[0];
    assert_eq!(directory.class_annotations_off, place);
    assert_eq!(directory.field_annotations.len(), 1);
    assert_eq!(directory.field_annotations[0].1, place);
    let field = &copy.fields[directory.field_annotations[0].0 as usize];
    assert_eq!(copy.strings[field.name_idx as usize], "count");
    assert_eq!(directory.method_annotations.len(), 1);
    assert_eq!(directory.method_annotations[0].1, place);
    let method = &copy.methods[directory.method_annotations[0].0 as usize];
    assert_eq!(copy.strings[method.name_idx as usize], "run");
    assert_eq!(directory.parameter_annotations.len(), 1);
    assert_eq!(
        directory.parameter_annotations[0].1,
        notes.set_refs.keys[0]
    );
    assert_eq!(notes.set_refs.values[0], [place, 0]);
}

#[test]
fn extraction_keeps_debug_items() {
    let minimal = extract_minimal_dex(&annotated_sample(), "LMain;").unwrap();
    let copy = DexView::parse(&minimal.bytes).unwrap();
    let class = copy.find_class("LMain;").unwrap().unwrap();
    let members = copy.class_data(class.class_data_off).unwrap();
    let init = copy.code_item(members.direct_methods[0].code_off).unwrap();
    assert_eq!(init.debug_info_off, 0);
    let run = copy.code_item(members.virtual_methods[0].code_off).unwrap();
    let mut refs = MetadataRefs::new();
    let debug = parse_debug_info(&minimal.bytes, run.debug_info_off, &mut refs).unwrap();
    assert_eq!(debug.line_start, 5);
    assert_eq!(debug.parameter_names.len(), 0);
    assert_eq!(debug.ops.len(), 3);
    let (name, kind) = match debug.ops[0] {
        DebugOp::StartLocal(1, name, kind) => (name - 1, kind - 1),
        _ => panic!("no local"),
    };
    assert_eq!(copy.strings[name as usize], "count");
    assert_eq!(copy.type_descriptor(kind).unwrap(), "I");
    assert_eq!(debug.ops[1], DebugOp::Plain(0x0e));
    assert_eq!(debug.ops[2], DebugOp::End);
}

#[test]
fn extraction_is_stable_on_its_own_output() {
    for (data, class) in [
        (sample(), "LOther;"),
        (sample(), "LMain;"),
        (annotated_sample(), "LMain;"),
    ] {
        let once = extract_minimal_dex(&data, class).unwrap();
        let twice = extract_minimal_dex_at(&once.bytes, 0, class).unwrap();
        assert_eq!(twice.bytes, once.bytes);
        assert_eq!(twice.stats.input_bytes, once.stats.output_bytes);
        assert_eq!(twice.stats.strings, once.stats.strings);
        assert_eq!(twice.stats.types, once.stats.types);
        assert_eq!(twice.stats.protos, once.stats.protos);
        assert_eq!(twice.stats.fields, once.stats.fields);
        assert_eq!(twice.stats.methods, once.stats.methods);
    }
}

#[test]
fn extraction_names_its_faults() {
    let data = sample();
    assert!(matches!(
        extract_minimal_dex(&data, "LMissing;"),
        Err(Error::ClassNotFound)
    ));
    assert!(matches!(
        extract_minimal_dex(&data[..20], "LMain;"),
        Err(Error::ShortHeader)
    ));
    assert!(matches!(
        extract_minimal_dex_at(&data, 8, "LMain;"),
        Err(Error::BadMagic)
    ));
}

#[test]
fn extraction_refuses_prototypes_with_two_short_forms() {
    let mut data = sample();
    let proto_ids = DexHeader::parse(&data).unwrap().proto_ids_off as usize;
    put_word(&mut data, proto_ids + 20, 0);
    assert!(matches!(
        extract_minimal_dex(&data, "LMain;"),
        Err(Error::NotSorted(Table::ProtoIds))
    ));
    put_word(&mut data, proto_ids + 12, string("V"));
    let bytes = extract_minimal_dex(&data, "LMain;").unwrap().bytes;
    let copy = DexView::parse(&bytes).unwrap();
    assert_eq!(copy.protos.len(), 1);
    validate_minimal_dex(&bytes).unwrap();
}

#[test]
fn validation_names_what_was_tampered_with() {
    let bytes = extract_minimal_dex(&sample(), "LMain;").unwrap().bytes;
    let mut other = bytes.clone();
    other[6] = b'7';
    assert!(matches!(
        validate_minimal_dex(&other),
        Err(Error::UnsupportedVersion)
    ));
    let mut other = bytes.clone();
    other.push(0);
    assert!(matches!(
        validate_minimal_dex(&other),
        Err(Error::FileSizeMismatch)
    ));
    let mut other = bytes.clone();
    other[20] ^= 1;
    assert!(matches!(
        validate_minimal_dex(&other),
        Err(Error::BadSignature)
    ));
    let mut other = bytes.clone();
    other[8] ^= 1;
    assert!(matches!(
        validate_minimal_dex(&other),
        Err(Error::BadChecksum)
    ));
    let mut other = bytes.clone();
    put_word(&mut other, 0x3c, 0);
    assert!(matches!(
        validate_minimal_dex(&other),
        Err(Error::TableShape(Table::StringIds))
    ));
    assert!(matches!(
        validate_minimal_dex(&bytes[..bytes.len() / 2]),
        Err(_)
    ));
}

#[test]
fn package_entries_are_parsed_listed_and_located() {
    let data: Arc<[u8]> = sample().into();
    let parsed = parse_entry("classes.dex", data.clone()).unwrap();
    assert_eq!(parsed.len(), 1);
    assert_eq!(parsed[0].name, "classes.dex");
    assert_eq!(parsed[0].dex.class_count(), 2);
    let classes = list_entry_classes("classes.dex", &data).unwrap();
    assert_eq!(classes.len(), 2);
    assert_eq!(classes[1].dex_name, "classes.dex");
    assert_eq!(classes[1].descriptor, "LOther;");
    let entry = locate_class("classes.dex", &data, "LMain;").unwrap().unwrap();
    assert_eq!(entry.name, "classes.dex");
    assert_eq!(entry.header_offset, 0);
    assert!(Arc::ptr_eq(&entry.data, &data));
    assert!(locate_class("classes.dex", &data, "LNone;")
        .unwrap()
        .is_none());
}

#[test]
fn reference_text_joins_lines() {
    let lines = vec!["a".to_owned(), "b".to_owned()];
    assert_eq!(reference_text(&lines), "a\nb\n");
    assert_eq!(reference_text(&vec!["a".to_owned()]), "a\n");
    assert_eq!(reference_text(&Vec::new()), "");
}

#[test]
fn package_listing_joins_entries_in_order() {
    let first = list_entry_classes("classes2.dex", &sample()).unwrap();
    let second = list_entry_classes("classes.dex", &sample()).unwrap();
    let merged = merge_listings(vec![Ok(first), Ok(Vec::new()), Ok(second)]).unwrap();
    let found: Vec<(&str, &str)> = merged
        .iter()
        .map(|class| (class.dex_name.as_str(), class.descriptor.as_str()))
        .collect();
    assert_eq!(
        found,
        [
            ("classes2.dex", "LMain;"),
            ("classes2.dex", "LOther;"),
            ("classes.dex", "LMain;"),
            ("classes.dex", "LOther;"),
        ]
    );
    assert!(merge_listings(Vec::new()).unwrap().is_empty());
    let listed = list_entry_classes("classes.dex", &sample());
    assert!(matches!(
        merge_listings(vec![listed, Err(Error::ShortHeader), Err(Error::BadMagic)]),
        Err(Error::ShortHeader)
    ));
}

#[test]
fn package_batch_equals_separate_searches() {
    let dex = Dex::parse(&sample()).unwrap();
    let mut indexes = ReferenceIndexes::new();
    let names = ["classes.dex", "classes2.dex"];
    let patterns: Vec<String> = ["o", "", "World", "o"].iter().map(|s| s.to_string()).collect();
    let matcher = StringBatchMatcher::new(&patterns).unwrap();
    let batches = names
        .iter()
        .map(|name| search_dex_batch(name, &dex, &mut indexes, &matcher))
        .collect();
    let batch = merge_batches(&patterns, batches).unwrap();
    assert_eq!(batch.groups.len(), patterns.len());
    assert_eq!(batch.dexes.len(), names.len());
    for (p, pattern) in patterns.iter().enumerate() {
        let query = Query::String(pattern.clone());
        let searches = names
            .iter()
            .map(|name| search_dex(name, &dex, &mut indexes, &query))
            .collect();
        let single = merge_searches(searches).unwrap();
        assert_eq!(&batch.groups[p].pattern, pattern);
        assert_eq!(
            reference_lines(&batch.groups[p].references),
            reference_lines(&single.references)
        );
        for (d, summary) in single.dexes.iter().enumerate() {
            assert_eq!(batch.dexes[d].matched_targets[p], summary.matched_targets);
        }
    }
    assert_eq!(batch.groups[0].references.len(), 4);
    assert!(matches!(
        merge_batches(&Vec::new(), Vec::new()),
        Err(Error::EmptyBatch)
    ));
    let failed = vec![Err(Error::Cancelled), Err(Error::BadMagic)];
    assert!(matches!(merge_batches(&patterns, failed), Err(Error::Cancelled)));
}

#[test]
fn scan_for_fewer_targets_drops_the_others() {
    let dex = Dex::parse(&sample()).unwrap();
    let all: Vec<u32> = (0..4).collect();
    let whole = dex
        .scan_reference_sites_sorted(ReferenceKind::Method, &all)
        .unwrap();
    for mask in 0..16u32 {
        let fewer: Vec<u32> = all.iter().copied().filter(|t| mask >> t & 1 == 1).collect();
        let expected: Vec<_> = whole
            .iter()
            .copied()
            .filter(|site| fewer.contains(&site.target_index))
            .collect();
        assert_eq!(
            dex.scan_reference_sites_sorted(ReferenceKind::Method, &fewer)
                .unwrap(),
            expected
        );
    }
    let places: Vec<(u32, u32)> = whole
        .iter()
        .map(|site| (site.caller_index, site.code_unit_offset))
        .collect();
    let mut ordered = places.clone();
    ordered.dedup();
    assert_eq!(places, ordered);
}

#[test]
fn probing_agrees_with_listing() {
    let data = sample();
    let listed = class_descriptors(&data).unwrap();
    for text in STRINGS {
        assert_eq!(
            dex_defines_class_at(&data, 0, text).unwrap(),
            listed.iter().any(|class| class == text)
        );
    }
}

fn printed_sites(dex: &Dex, kind: ReferenceKind, class: &str) -> Vec<(String, u32, String)> {
    let targets: Vec<u32> = (0..256).collect();
    let mut sites: Vec<(String, u32, String)> = dex
        .scan_reference_sites_sorted(kind, &targets)
        .unwrap()
        .iter()
        .map(|site| {
            (
                dex.format_method(site.caller_index),
                site.code_unit_offset,
                dex.format_match(kind, site.target_index),
            )
        })
        .filter(|(caller, _, _)| caller.starts_with(class))
        .collect();
    sites.sort();
    sites
}

#[test]
fn extraction_keeps_reference_sites() {
    let source = Dex::parse(&sample()).unwrap();
    let mut count = 0;
    for class in ["LMain;", "LOther;"] {
        let minimal = extract_minimal_dex(&sample(), class).unwrap();
        let extracted = Dex::parse(&minimal.bytes).unwrap();
        for kind in [
            ReferenceKind::String,
            ReferenceKind::Type,
            ReferenceKind::Field,
            ReferenceKind::Method,
        ] {
            let sites = printed_sites(&extracted, kind, "");
            assert_eq!(sites, printed_sites(&source, kind, class));
            count += sites.len();
        }
    }
    assert!(count > 4);
}
