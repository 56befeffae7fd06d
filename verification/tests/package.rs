use std::sync::Arc;

use asc_rs::apk::{is_root_dex, DexCache};
use asc_rs::dex::Dex;
use asc_rs::render::{render_entry_bytes, EntryEncodingArg};

#[test]
fn recognizes_root_dex_names() {
    assert!(is_root_dex("classes.dex"));
    assert!(is_root_dex("classes2.dex"));
    assert!(!is_root_dex("assets/classes.dex"));
    assert!(!is_root_dex("classesx.dex"));
}

#[test]
fn bounds_session_owned_dex_cache() {
    let mut cache = DexCache::<Dex>::new(6);
    let first: Arc<[u8]> = vec![1; 4].into();
    let second: Arc<[u8]> = vec![2; 4].into();
    cache.insert_data(0, first);
    cache.insert_data(1, second);
    assert_eq!(cache.entries.len(), 1);
    assert!(cache.entries.contains_key(&1));
    assert_eq!(cache.bytes, 4);
}

#[test]
fn dex_cache_evicts_the_least_recently_used_entry() {
    let mut cache = DexCache::<Dex>::new(6);
    cache.insert_data(0, vec![0; 3].into());
    cache.insert_data(1, vec![1; 3].into());
    assert!(cache.get_data(0).is_some());
    cache.insert_data(2, vec![2; 3].into());
    assert!(cache.entries.contains_key(&0));
    assert!(!cache.entries.contains_key(&1));
    assert!(cache.entries.contains_key(&2));
}

#[test]
fn hex_renderer_includes_absolute_offsets_and_ascii() {
    let rendered = render_entry_bytes(b"ABCDEFGHijklmnop!\0", 0x20, EntryEncodingArg::Hex)
        .expect("hex render should succeed");

    let lines = rendered.lines().collect::<Vec<_>>();
    assert_eq!(lines.len(), 2);
    assert!(lines[0].starts_with("00000020  41 42 43 44 45 46 47 48"));
    assert!(lines[0].ends_with("| ABCDEFGHijklmnop"));
    assert!(lines[1].starts_with("00000030  21 00"));
    assert!(lines[1].ends_with("| !."));
}

#[test]
fn utf8_renderer_rejects_invalid_bytes() {
    let error = render_entry_bytes(&[0xff], 0, EntryEncodingArg::Utf8)
        .expect_err("invalid UTF-8 should fail");
    assert!(error.message().contains("not valid UTF-8"));
}
