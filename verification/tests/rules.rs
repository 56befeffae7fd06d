use std::sync::Arc;

use asc_rs::apk::{
    after_skip, check_read, find_dex, root_dexes, select_range, skip_request, sort_entries,
    worker_count, ApkClassInfo, ApkEntryInfo, ClassIndex, DexCache, DexInfo,
};
use asc_rs::apk::index::probe_order;
use asc_rs::dex::{Query, ReferenceKind, StringBatchMatcher};
use asc_rs::dex_container::{logical_dexes, DEX041_HEADER_SIZE};
use asc_rs::dex_format::{decode_mutf8, instruction_width, read_uleb, utf16_less};
use asc_rs::error::{Error, Table};
use asc_rs::minidex::bytecode::{remap_code_indices, BytecodeRefs};
use asc_rs::minidex::leb::{read_sleb, write_sleb, write_uleb};
use asc_rs::minidex::reader::CodeItem;
use asc_rs::minidex::values::{parse_encoded_value, EncodedValue, IndexKind, MetadataRefs};
use asc_rs::render::{
    classes_text, entries_text, filter_classes, filter_entries, label_lines, member_query,
    needs_line_break, render_entry_bytes, type_query, EntryEncodingArg,
};
use asc_rs::service::source::{
    insert_restored, is_hidden_method, pick_diagnostic, repair_double_encoded_utf8, simple_name,
    tail, without_marks,
};
use asc_rs::service::{
    check_cancelled, decompilation_mode_name, progress, DecompilationEngine, DecompilationMode,
    OperationStage, OperationStep,
};
use asc_rs::{descriptor_to_java, format_class_name};

fn dex_info(name: &str, compressed_size: u64) -> DexInfo {
    DexInfo {
        name: name.to_owned(),
        compressed_size,
        uncompressed_size: compressed_size * 2,
    }
}

#[test]
fn class_names_keep_their_meaning() {
    assert_eq!(format_class_name(" Main ").unwrap(), "LMain;");
    assert_eq!(format_class_name("LMain;").unwrap(), "LMain;");
    assert_eq!(format_class_name("a/b.C").unwrap(), "La/b/C;");
    assert!(matches!(
        format_class_name(" \u{3000}\t"),
        Err(Error::EmptyClassName)
    ));
    assert_eq!(descriptor_to_java("Lcom/example/Main;"), "com.example.Main");
    assert_eq!(descriptor_to_java("I"), "I");
    assert_eq!(format_class_name("Login").unwrap(), "LLogin;");
    assert_eq!(format_class_name("Lib.Main").unwrap(), "LLib/Main;");
    assert_eq!(format_class_name("L").unwrap(), "LL;");
    assert_eq!(format_class_name("Lcom/example/Main").unwrap(), "Lcom/example/Main;");
    assert_eq!(format_class_name("LMain.Inner;").unwrap(), "LMain/Inner;");
    for name in ["com.example.Main", "a", "x.y$1", "Login", "Lib.Main", "L"] {
        let descriptor = format_class_name(name).unwrap();
        assert_eq!(format_class_name(&descriptor).unwrap(), descriptor);
        assert_eq!(descriptor_to_java(&descriptor), name);
    }
}

#[test]
fn leb128_numbers_round_trip() {
    for value in [0u32, 1, 127, 128, 16_383, 16_384, 0x0fff_ffff, u32::MAX] {
        let mut out = Vec::new();
        write_uleb(value, &mut out);
        let mut cursor = 0;
        assert_eq!(read_uleb(&out, &mut cursor).unwrap(), value);
        assert_eq!(cursor, out.len() as u64);
    }
    for value in [0i32, -1, 63, 64, -64, -65, 8191, -8192, i32::MAX, i32::MIN] {
        let mut out = Vec::new();
        write_sleb(value, &mut out);
        let mut cursor = 0;
        assert_eq!(read_sleb(&out, &mut cursor).unwrap(), value);
        assert_eq!(cursor, out.len() as u64);
    }
    let mut cursor = 0;
    assert!(matches!(
        read_uleb(&[0x80], &mut cursor),
        Err(Error::TruncatedUleb(_))
    ));
    assert_eq!(cursor, 1);
    let mut cursor = 0;
    assert!(matches!(
        read_uleb(&[0x80, 0x80, 0x80, 0x80, 0x80, 1], &mut cursor),
        Err(Error::InvalidUleb)
    ));
    assert_eq!(cursor, 5);
    let mut cursor = 0;
    assert!(matches!(
        read_sleb(&[0xff], &mut cursor),
        Err(Error::TruncatedSleb(_))
    ));
    assert_eq!(cursor, 1);
}

#[test]
fn index_values_wrap_behind_the_fourth_byte() {
    let mut cursor = 0;
    let mut refs = MetadataRefs::new();
    let value = parse_encoded_value(&[0x97, 1, 0, 0, 0, 2], &mut cursor, &mut refs).unwrap();
    assert!(matches!(value, EncodedValue::Indexed(IndexKind::String, 3)));
    assert_eq!(cursor, 6);
    assert!(refs.strings.contains(3));
    let mut cursor = 0;
    let bytes = [0xf8, 0, 1, 0, 0, 4, 2, 0, 0];
    let value = parse_encoded_value(&bytes, &mut cursor, &mut refs).unwrap();
    assert!(matches!(value, EncodedValue::Indexed(IndexKind::Type, 0x304)));
    assert_eq!(cursor, 9);
    assert!(refs.types.contains(0x304));
}

#[test]
fn unreadable_values_keep_what_was_noted() {
    let mut cursor = 0;
    let mut refs = MetadataRefs::new();
    assert!(parse_encoded_value(&[0x1c, 2, 0x17, 5, 0x18], &mut cursor, &mut refs).is_err());
    assert_eq!(cursor, 5);
    assert!(refs.strings.contains(5));
    assert!(!refs.types.contains(5));
    let mut cursor = 0;
    assert!(parse_encoded_value(&[0x1d, 7, 1, 9], &mut cursor, &mut refs).is_err());
    assert_eq!(cursor, 4);
    assert!(refs.types.contains(7));
    assert!(refs.strings.contains(9));
}

fn plain_code(units: &[u16]) -> CodeItem {
    CodeItem {
        registers_size: 1,
        ins_size: 0,
        outs_size: 0,
        tries_size: 0,
        debug_info_off: 0,
        insns: units.iter().flat_map(|unit| unit.to_le_bytes()).collect(),
        tries: Vec::new(),
        handlers: Vec::new(),
    }
}

#[test]
fn operands_are_numbered_in_the_order_of_the_code() {
    let mut code = plain_code(&[0x001a, 9, 0x001b, 4, 1, 0x001a, 9, 0x000e]);
    let mut refs = BytecodeRefs::new();
    remap_code_indices(&mut code, &mut refs).unwrap();
    let numbered = plain_code(&[0x001a, 0, 0x001b, 1, 0, 0x001a, 0, 0x000e]);
    assert_eq!(code.insns, numbered.insns);
    assert_eq!(refs.strings.values, vec![9, 0x1_0004]);
}

#[test]
fn a_string_number_has_to_fit_its_operand() {
    let mut units = Vec::new();
    for id in 0..=u16::MAX {
        units.extend([0x001b, id, 1]);
    }
    units.extend([0x001a, 5]);
    let mut code = plain_code(&units);
    let before = code.insns.clone();
    let mut refs = BytecodeRefs::new();
    assert!(matches!(
        remap_code_indices(&mut code, &mut refs),
        Err(Error::JumboRequired)
    ));
    assert_eq!(code.insns, before);
    assert_eq!(refs.strings.values.len(), 65_537);
    assert_eq!(refs.strings.values[65_536], 5);
    let mut wide = plain_code(&units[..units.len() - 2]);
    remap_code_indices(&mut wide, &mut BytecodeRefs::new()).unwrap();
}

#[test]
fn text_order_follows_utf16_units() {
    assert!(utf16_less("a", "b"));
    assert!(utf16_less("a", "aa"));
    assert!(!utf16_less("a", "a"));
    assert!(utf16_less("\u{1f600}", "\u{ff5e}"));
    assert_eq!(decode_mutf8(&[0xed, 0xa0, 0xbd]), "\u{fffd}");
}

#[test]
fn widths_name_what_is_truncated() {
    assert!(matches!(
        instruction_width(&[], 0),
        Err(Error::InstructionPastCode)
    ));
    assert!(matches!(
        instruction_width(&[0x0100], 0),
        Err(Error::TruncatedPackedSwitch)
    ));
    assert!(matches!(
        instruction_width(&[0x0200], 0),
        Err(Error::TruncatedSparseSwitch)
    ));
    assert!(matches!(
        instruction_width(&[0x0300, 1, 2], 0),
        Err(Error::TruncatedFillArray)
    ));
    assert!(matches!(
        instruction_width(&[0x0400], 0),
        Err(Error::UnknownPayload(4))
    ));
    assert_eq!(instruction_width(&[0x0018, 0, 0, 0, 0], 0).unwrap(), 5);
    assert_eq!(instruction_width(&[0x0200, 3], 0).unwrap(), 14);
}

fn container_header(file_size: u32, container_size: u32, header_offset: u32) -> Vec<u8> {
    let mut data = vec![0; DEX041_HEADER_SIZE as usize];
    data[..8].copy_from_slice(b"dex\n041\0");
    data[0x20..0x24].copy_from_slice(&file_size.to_le_bytes());
    data[0x70..0x74].copy_from_slice(&container_size.to_le_bytes());
    data[0x74..0x78].copy_from_slice(&header_offset.to_le_bytes());
    data
}

#[test]
fn containers_name_their_faults() {
    let size = DEX041_HEADER_SIZE as u32;
    let single = logical_dexes("classes.dex", &container_header(size, size, 0)).unwrap();
    assert_eq!(single.len(), 1);
    assert_eq!(single[0].header_offset, 0);
    let old = logical_dexes("classes.dex", b"dex\n035\0").unwrap();
    assert_eq!(old[0].name, "classes.dex");
    assert!(matches!(
        logical_dexes("x", &container_header(1, size, 0)),
        Err(Error::LogicalFileSize {
            file_size: 1,
            offset: 0
        })
    ));
    assert!(matches!(
        logical_dexes("x", &container_header(size + 1, size, 0)),
        Err(Error::LogicalFileExceeds(0))
    ));
    assert!(matches!(
        logical_dexes("x", &container_header(size, size, 4)),
        Err(Error::ContainerOffset {
            expected: 0,
            declared: 4
        })
    ));
    assert_eq!(
        Error::ContainerSize {
            offset: 16,
            declared: 1,
            actual: 120
        }
        .message(),
        "DEX 041 header at 0x10 declares container size 1, actual 120"
    );
}

#[test]
fn root_dexes_are_found_in_order() {
    let entries = vec![
        dex_info("classes10.dex", 3),
        dex_info("assets/classes.dex", 1),
        dex_info("classes2.dex", 9),
        dex_info("classes.dex", 5),
    ];
    let roots = root_dexes(&entries).unwrap();
    let names: Vec<&str> = roots.iter().map(|d| d.name.as_str()).collect();
    assert_eq!(names, ["classes.dex", "classes2.dex", "classes10.dex"]);
    assert_eq!(find_dex(&roots, "classes2.dex").unwrap(), 1);
    assert!(matches!(
        find_dex(&roots, "classes3.dex"),
        Err(Error::NoSuchDex)
    ));
    assert!(matches!(
        root_dexes(&vec![dex_info("resources.arsc", 1)]),
        Err(Error::NoRootDex)
    ));
    assert_eq!(probe_order(&roots), [2, 0, 1]);
}

#[test]
fn class_index_remembers_places_and_skips_listed_files() {
    let mut index = ClassIndex::new();
    assert_eq!(index.location("LMain;"), None);
    index.record("LMain;", 1);
    index.record("LMain;", 0);
    assert_eq!(index.location("LMain;"), Some(1));
    index.add_dex(2, &vec!["LOther;".to_owned(), "LMain;".to_owned()]);
    assert!(index.is_indexed(2));
    assert!(!index.is_indexed(0));
    assert_eq!(index.location("LOther;"), Some(2));
    assert_eq!(index.location("LMain;"), Some(1));
    let order = vec![2, 0, 1];
    assert_eq!(index.next_probe(&order, 0), Some(1));
    assert_eq!(index.next_probe(&order, 2), Some(2));
    assert_eq!(index.next_probe(&order, 3), None);
}

#[test]
fn a_walk_over_unlisted_files_finds_every_class() {
    let classes = [vec!["LA;"], vec!["LB;", "LC;"], vec!["LC;", "LD;"]];
    let order = vec![2, 0, 1];
    let mut index = ClassIndex::new();
    index.add_dex(0, &vec!["LA;".to_owned()]);
    for (name, place) in [
        ("LA;", Some(0)),
        ("LB;", Some(1)),
        ("LC;", Some(2)),
        ("LD;", Some(2)),
        ("LE;", None),
    ] {
        let mut found = index.location(name);
        let mut from = 0;
        while found.is_none() {
            let Some(at) = index.next_probe(&order, from) else {
                break;
            };
            if classes[order[at]].contains(&name) {
                index.record(name, order[at]);
                found = index.location(name);
            }
            from = at + 1;
        }
        assert_eq!(found, place);
        assert_eq!(index.location(name), place);
    }
}

#[test]
fn cache_keeps_parsed_values_with_their_bytes() {
    let mut cache = DexCache::<u32>::new(8);
    let data: Arc<[u8]> = vec![1; 4].into();
    let parsed = cache.insert_parsed(0, data.clone(), Arc::new(7));
    assert_eq!(*parsed, 7);
    assert_eq!(*cache.insert_parsed(0, data.clone(), Arc::new(8)), 7);
    assert_eq!(cache.parsed_count(), 1);
    assert_eq!(cache.get_parsed(0).map(|p| *p), Some(7));
    assert!(cache.get_parsed(1).is_none());
    assert!(Arc::ptr_eq(&cache.get_data(0).unwrap(), &data));
    cache.insert_data(1, vec![2; 9].into());
    assert_eq!(cache.get_data(0), None);
    assert_eq!(cache.get_data(1).map(|d| d.len()), Some(9));
    assert_eq!(cache.parsed_count(), 0);
    assert_eq!(cache.bytes, 9);
    cache.clear();
    assert_eq!(cache.parsed_count(), 0);
    assert_eq!(cache.bytes, 0);
}

#[test]
fn entry_ranges_stay_within_the_entry() {
    assert_eq!(select_range(10, 3, Some(4)).unwrap(), 4);
    assert_eq!(select_range(10, 3, None).unwrap(), 7);
    assert_eq!(select_range(10, 10, None).unwrap(), 0);
    assert!(matches!(
        select_range(10, 11, None),
        Err(Error::RangeStart {
            offset: 11,
            size: 10
        })
    ));
    let error = select_range(10, 8, Some(3)).unwrap_err();
    assert!(error.message().contains("exceeds"));
    assert_eq!(skip_request(3), 3);
    assert_eq!(skip_request(1 << 20), 0x4000);
    assert_eq!(after_skip(10, 4, 20).unwrap(), 6);
    assert!(matches!(
        after_skip(10, 0, 20),
        Err(Error::EndBeforeRange(20))
    ));
    check_read(4, 4, 0).unwrap();
    assert!(matches!(
        check_read(3, 4, 1),
        Err(Error::EndWithinRange {
            selected: 4,
            offset: 1
        })
    ));
    assert_eq!(worker_count(8, 3).unwrap(), 3);
    assert_eq!(worker_count(2, 3).unwrap(), 2);
    assert_eq!(worker_count(2, 0).unwrap(), 1);
    assert!(matches!(worker_count(0, 3), Err(Error::NoWorkers)));
}

#[test]
fn listings_are_filtered_sorted_and_rendered() {
    let entries = vec![
        ApkEntryInfo {
            name: "res/".to_owned(),
            compressed_size: 0,
            uncompressed_size: 0,
            is_directory: true,
        },
        ApkEntryInfo {
            name: "assets/a.bin".to_owned(),
            compressed_size: 3,
            uncompressed_size: 12,
            is_directory: false,
        },
    ];
    let sorted = sort_entries(&entries);
    assert_eq!(sorted[0].name, "assets/a.bin");
    assert_eq!(
        entries_text(&sorted),
        "assets/a.bin | compressed=3 uncompressed=12\nres/ | compressed=0 uncompressed=0 directory"
    );
    let kept = filter_entries(&sorted, &Some("assets/".to_owned()));
    assert_eq!(kept.len(), 1);
    let classes = vec![
        ApkClassInfo {
            dex_name: "classes.dex".to_owned(),
            descriptor: "Lcom/example/Main;".to_owned(),
        },
        ApkClassInfo {
            dex_name: "classes.dex".to_owned(),
            descriptor: "LOther;".to_owned(),
        },
    ];
    let kept = filter_classes(&classes, &Some("com.example".to_owned()));
    assert_eq!(classes_text(&kept), "classes.dex | Lcom/example/Main;");
    assert_eq!(filter_classes(&classes, &None).len(), 2);
}

#[test]
fn entry_bytes_are_rendered_in_each_encoding() {
    assert_eq!(
        render_entry_bytes("h\u{e9}".as_bytes(), 0, EntryEncodingArg::Utf8).unwrap(),
        "h\u{e9}"
    );
    EntryEncodingArg::Hex.check_output(true, false).unwrap();
    EntryEncodingArg::Raw.check_output(false, true).unwrap();
    assert!(matches!(
        EntryEncodingArg::Raw.check_output(true, true),
        Err(Error::RawWithJson)
    ));
    assert!(matches!(
        EntryEncodingArg::Raw.check_output(false, false),
        Err(Error::RawWithoutOutput)
    ));
    assert_eq!(EntryEncodingArg::Utf8.label(), "utf8");
    assert!(needs_line_break("a"));
    assert!(!needs_line_break("a\n"));
}

#[test]
fn member_queries_need_a_name_or_a_class() {
    let query = member_query(None, Some("com.example.Main".to_owned()), false).unwrap();
    assert_eq!(query.class.as_deref(), Some("Lcom/example/Main;"));
    assert_eq!(query.name, None);
    let query = member_query(Some("go".to_owned()), Some("openclaw".to_owned()), true).unwrap();
    assert_eq!(query.class.as_deref(), Some("openclaw"));
    assert!(query.fuzzy_class);
    assert!(matches!(
        member_query(None, None, false),
        Err(Error::EmptyMemberQuery)
    ));
    assert_eq!(type_query("com.example.Main").kind(), ReferenceKind::Type);
    assert_eq!(Query::String("x".to_owned()).kind(), ReferenceKind::String);
    assert_eq!(ReferenceKind::String.label(), "string");
}

#[test]
fn batch_labels_are_quoted() {
    let lines = label_lines("\"a\\nb\"", &vec!["x".to_owned()]);
    assert_eq!(lines, ["query=\"a\\nb\" | x"]);
    let matcher = StringBatchMatcher::new(&["b".to_owned()]).unwrap();
    let strings = ["abc".to_owned(), "a".to_owned(), "b".to_owned()];
    assert_eq!(matcher.matching_indices(&strings), [[0, 2]]);
}

#[test]
fn source_text_is_finished() {
    assert!(is_hidden_method(0x40, "run"));
    assert!(is_hidden_method(0x1000, "access$000"));
    assert!(!is_hidden_method(0, "access$000"));
    assert!(is_hidden_method(0, "$r8$lambda$x"));
    assert!(!is_hidden_method(1, "run"));
    assert_eq!(simple_name("com.example.Main"), "Main");
    assert_eq!(simple_name("Main"), "Main");
    assert_eq!(
        insert_restored("class A {\n}\n", "  void b() {}"),
        "class A {\n  void b() {}\n}\n"
    );
    assert_eq!(insert_restored("x", "y"), "x\ny");
    assert_eq!(without_marks("\u{feff}\u{feff}a\u{feff}"), "a\u{feff}");
    assert_eq!(tail("abcdef", 3), "def");
    assert_eq!(tail("ab", 3), "ab");
    assert_eq!(tail("a\u{e9}b", 2), "b");
    assert_eq!(pick_diagnostic(" \n", " out "), "out");
    assert_eq!(pick_diagnostic(" err ", "out"), "err");
}

fn misread(text: &str) -> String {
    text.bytes().map(|b| b as char).collect()
}

#[test]
fn encoding_repair_undoes_misreading() {
    for text in ["\u{8bf7}\u{5148}", "caf\u{e9}", "a\u{1f600}b"] {
        assert_eq!(repair_double_encoded_utf8(misread(text)), text);
        assert_eq!(repair_double_encoded_utf8(misread(&misread(text))), text);
        assert_eq!(repair_double_encoded_utf8(text.to_owned()), text);
    }
    assert_eq!(repair_double_encoded_utf8("plain".to_owned()), "plain");
}

#[test]
fn engines_modes_and_progress() {
    assert_eq!(
        DecompilationEngine::Builtin.default_mode(),
        DecompilationMode::Simple
    );
    assert_eq!(
        DecompilationEngine::Jadx.default_mode(),
        DecompilationMode::Restructure
    );
    assert_eq!(DecompilationEngine::Jadx.display_name(), "JADX");
    assert_eq!(
        decompilation_mode_name(DecompilationMode::Fallback),
        "fallback"
    );
    DecompilationEngine::Jadx.check_jadx_path(true).unwrap();
    assert!(matches!(
        DecompilationEngine::Builtin.check_jadx_path(true),
        Err(Error::JadxPathWithoutJadx)
    ));
    check_cancelled(false).unwrap();
    assert_eq!(
        check_cancelled(true).unwrap_err().message(),
        "operation cancelled"
    );
    let event = progress(
        OperationStep::Visit {
            index: 2,
            name: "classes2.dex".to_owned(),
        },
        5,
    );
    assert_eq!(event.stage, OperationStage::Indexing);
    assert_eq!(event.completed, 2);
    assert_eq!(event.total, 5);
    assert_eq!(event.item.as_deref(), Some("classes2.dex"));
}

#[test]
fn messages_carry_their_numbers() {
    assert_eq!(
        Error::OutOfBounds { start: 16, end: 255 }.message(),
        "DEX range 0x10..0xff is out of bounds"
    );
    assert_eq!(
        Error::MapDuplicate(0x2000).message(),
        "map_list contains duplicate item type 0x2000"
    );
    assert_eq!(
        Error::NotSorted(Table::TypeIds).message(),
        "type_ids must be strictly sorted and unique"
    );
    assert_eq!(
        Error::CallSiteOpcode(0xfc).message(),
        "class uses call-site or method-handle opcode 0xfc, which ASC's minimal DEX format cannot represent"
    );
    assert_eq!(Error::ClassNotFound.message(), "class not found in DEX");
}
