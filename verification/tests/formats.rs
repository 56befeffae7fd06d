use asc_rs::dex::{reference_index, ReferenceKind, StringBatchMatcher};
use asc_rs::dex_container::{logical_dexes, LogicalDex, DEX041_HEADER_SIZE};
use asc_rs::dex_format::{decode_mutf8, instruction_width, instruction_width_bytes};
use asc_rs::format_class_name;
use asc_rs::minidex::values::{parse_encoded_value, EncodedValue, IndexKind, MetadataRefs};

#[test]
fn formats_class_names() {
    assert_eq!(
        format_class_name("com.example.Main").unwrap(),
        "Lcom/example/Main;"
    );
    assert_eq!(
        format_class_name("Lcom/example/Main;").unwrap(),
        "Lcom/example/Main;"
    );
}

#[test]
fn decodes_modified_utf8() {
    assert_eq!(decode_mutf8(b"hello"), "hello");
    assert_eq!(decode_mutf8(&[0xc0, 0x80]), "\0");
    assert_eq!(decode_mutf8(&[0xed, 0xa0, 0xbd, 0xed, 0xb8, 0x80]), "😀");
}

#[test]
fn understands_payload_widths() {
    for (units, expected) in [
        (vec![0x0100u16, 2, 0, 0, 0, 0, 0, 0], 8),
        (vec![0x0300, 1, 3, 0, 0, 0], 6),
    ] {
        let bytes = units
            .iter()
            .flat_map(|unit| u16::to_le_bytes(*unit))
            .collect::<Vec<_>>();
        assert_eq!(instruction_width(&units, 0).unwrap(), expected);
        assert_eq!(instruction_width_bytes(&bytes, 0).unwrap(), expected);
    }
}

#[test]
fn reads_reference_operands_directly_from_dex_bytes() {
    let jumbo = [0x001b_u16, 0x5678, 0x1234]
        .into_iter()
        .flat_map(u16::to_le_bytes)
        .collect::<Vec<_>>();
    assert_eq!(
        reference_index(ReferenceKind::String, 0x1b, &jumbo, 0),
        Some(0x1234_5678)
    );

    let invoke = [0x006e_u16, 0xabcd, 0]
        .into_iter()
        .flat_map(u16::to_le_bytes)
        .collect::<Vec<_>>();
    assert_eq!(
        reference_index(ReferenceKind::Method, 0x6e, &invoke, 0),
        Some(0xabcd)
    );
}

#[test]
fn batch_string_matcher_preserves_overlaps_duplicates_and_empty_queries() {
    let strings = ["abc", "zabcab", "other"]
        .into_iter()
        .map(str::to_owned)
        .collect::<Vec<_>>();
    let patterns = ["ab", "abc", "ab", "", "no"]
        .into_iter()
        .map(str::to_owned)
        .collect::<Vec<_>>();
    let matcher = StringBatchMatcher::new(&patterns).unwrap();

    assert_eq!(
        matcher.matching_indices(&strings),
        vec![vec![0, 1], vec![0, 1], vec![0, 1], vec![0, 1, 2], vec![]]
    );
}

fn header(file_size: u32, container_size: u32, header_offset: u32) -> Vec<u8> {
    let mut data = vec![0; DEX041_HEADER_SIZE as usize];
    data[..8].copy_from_slice(b"dex\n041\0");
    data[0x20..0x24].copy_from_slice(&file_size.to_le_bytes());
    data[0x24..0x28].copy_from_slice(&(DEX041_HEADER_SIZE as u32).to_le_bytes());
    data[0x70..0x74].copy_from_slice(&container_size.to_le_bytes());
    data[0x74..0x78].copy_from_slice(&header_offset.to_le_bytes());
    data
}

#[test]
fn enumerates_dex041_logical_files() {
    let size = (DEX041_HEADER_SIZE * 2) as u32;
    let mut data = header(DEX041_HEADER_SIZE as u32, size, 0);
    data.extend(header(
        DEX041_HEADER_SIZE as u32,
        size,
        DEX041_HEADER_SIZE as u32,
    ));
    assert_eq!(
        logical_dexes("classes.dex", &data).unwrap(),
        vec![
            LogicalDex {
                name: "classes.dex!classes1.dex".to_owned(),
                header_offset: 0,
            },
            LogicalDex {
                name: "classes.dex!classes2.dex".to_owned(),
                header_offset: DEX041_HEADER_SIZE,
            },
        ]
    );
}

#[test]
fn rejects_inconsistent_dex041_container_bounds() {
    let data = header(DEX041_HEADER_SIZE as u32, 1, 0);
    assert!(logical_dexes("classes.dex", &data)
        .unwrap_err()
        .message()
        .contains("container size"));
}

#[test]
fn keeps_enum_and_field_encoded_values_distinct() {
    let mut enum_cursor = 0;
    let mut enum_refs = MetadataRefs::new();
    let enum_value = parse_encoded_value(&[0x1b, 7], &mut enum_cursor, &mut enum_refs)
        .expect("parse enum value");
    assert!(matches!(
        enum_value,
        EncodedValue::Indexed(IndexKind::Enum, 7)
    ));
    assert_eq!(IndexKind::Enum.encoded_value_type(), 0x1b);
    assert_eq!(IndexKind::Field.encoded_value_type(), 0x19);
    assert!(enum_refs.fields.contains(7));
}

#[test]
fn rejects_unrepresentable_method_handle_values() {
    let error = parse_encoded_value(&[0x16, 0], &mut 0, &mut MetadataRefs::new()).unwrap_err();
    assert!(error.message().contains("method-handle"));
}
