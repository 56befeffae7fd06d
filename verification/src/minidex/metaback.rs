//! Where the interfaces, the annotations, the static values and the debug items
//! of an extracted file stand.
use vstd::prelude::*;

use crate::collections::{lemma_put_get, lemma_rank, low32, rank_from, Entries};
use crate::error::Error;
use crate::minidex::assemble::{sections_of, Sections};
use crate::minidex::emit::{annotation_bytes, array_bytes, debug_bytes, le32_bytes, padded};
use crate::minidex::hollow::Parts;
use crate::minidex::metadata::ClassAnnotations;
use crate::minidex::notes::lemma_get_at;
use crate::minidex::readback::{
    begins_with, held, lemma_annotation_grows, lemma_annotations_grow, lemma_begins_chain,
    lemma_code_section_grows, lemma_debug_grows, lemma_debug_item_grows, lemma_held_longer,
    lemma_items_grow, lemma_members_grow, lemma_set_refs_grow, lemma_sets_grow, list_held,
};
use crate::minidex::reader::{DexTables, EncodedMethod, Members};
use crate::minidex::sections::{
    annotations_section, code_section, debug_section, directory_words, interfaces_section,
    items_section, method_ranks, methods_in_order, offset_of, params_section, placed_words,
    set_bytes, set_refs_section, sets_section, statics_section, strings_section, type_list_bytes,
    type_mapper, words_bytes, PlacedAnnotations,
};
use crate::minidex::tables::Tables;
use crate::minidex::values::{Debugging, Item};
use crate::order::{lemma_sort_order, sort_order};
use crate::results::{collect, lemma_collect_ok};

verus! {

// ---------------------------------------------------------------------------
// Annotation items
// ---------------------------------------------------------------------------

/// Whether data begins with an annotation item behind `done`.
#[verifier::opaque]
pub open spec fn item_written(
    data: Seq<u8>,
    item: Item,
    m: Tables,
    dex: DexTables,
    done: Seq<u8>,
) -> bool {
    &&& annotation_bytes(item.annotation, m, dex, done.push(item.visibility)) is Ok
    &&& begins_with(
        data,
        annotation_bytes(item.annotation, m, dex, done.push(item.visibility))->Ok_0,
    )
}

/// Whether an annotation item stands at an offset of the file.
pub open spec fn item_stands(
    base: int,
    data: Seq<u8>,
    offset: u32,
    item: Item,
    m: Tables,
    dex: DexTables,
) -> bool {
    exists|done: Seq<u8>| #[trigger]
        item_written(data, item, m, dex, done) && offset == base + done.len()
}

/// Whether the item under a key stands where its offset says.
pub open spec fn item_stands_at(
    base: int,
    data: Seq<u8>,
    offsets: Entries<u32>,
    items: Entries<Item>,
    m: Tables,
    dex: DexTables,
    id: u32,
) -> bool {
    offsets.get(id) matches Some(offset) ==> {
        &&& items.get(id) is Some
        &&& item_stands(base, data, offset, items.get(id)->Some_0, m, dex)
    }
}

proof fn lemma_item_longer(
    base: int,
    a: Seq<u8>,
    b: Seq<u8>,
    offsets: Entries<u32>,
    items: Entries<Item>,
    m: Tables,
    dex: DexTables,
    id: u32,
)
    requires
        item_stands_at(base, a, offsets, items, m, dex, id),
        begins_with(b, a),
    ensures
        item_stands_at(base, b, offsets, items, m, dex, id),
{
    if offsets.get(id) is Some {
        reveal(item_written);
        let offset = offsets.get(id)->Some_0;
        let item = items.get(id)->Some_0;
        let done = choose|done: Seq<u8>| #[trigger]
            item_written(a, item, m, dex, done) && offset == base + done.len();
        let all = annotation_bytes(item.annotation, m, dex, done.push(item.visibility))->Ok_0;
        lemma_begins_chain(all, a, b);
        assert(item_written(b, item, m, dex, done));
    }
}

/// Adding an item keeps the others where they are.
proof fn lemma_item_put(
    base: int,
    items: Entries<Item>,
    i: int,
    m: Tables,
    dex: DexTables,
    data: Seq<u8>,
    offsets: Entries<u32>,
    more: Seq<u8>,
)
    requires
        0 <= base,
        items.wf(),
        0 <= i < items.keys.len(),
        offsets.wf(),
        annotation_bytes(
            items.values[i].annotation,
            m,
            dex,
            data.push(items.values[i].visibility),
        ) == Ok::<Seq<u8>, Error>(more),
        base + more.len() <= u32::MAX,
        forall|k: u32| #[trigger] item_stands_at(base, data, offsets, items, m, dex, k),
    ensures
        ({
            let next = offsets.put(items.keys[i], offset_of(base, data));
            &&& next.wf()
            &&& next.get(items.keys[i]) is Some
            &&& forall|k: u32| #[trigger] item_stands_at(base, more, next, items, m, dex, k)
            &&& forall|k: u32| #[trigger] offsets.get(k) is Some ==> next.get(k) is Some
        }),
{
    let id = items.keys[i];
    let item = items.values[i];
    let offset = offset_of(base, data);
    let next = offsets.put(id, offset);
    let start = data.push(item.visibility);
    lemma_get_at(items, i);
    lemma_annotation_grows(item.annotation, m, dex, start);
    assert(begins_with(start, data));
    lemma_begins_chain(data, start, more);
    assert(item_stands(base, more, offset, item, m, dex)) by {
        reveal(item_written);
        assert(begins_with(more, more));
        assert(item_written(more, item, m, dex, data));
    }
    lemma_put_get(offsets, id, offset, id);
    assert forall|k: u32| #[trigger] item_stands_at(base, more, next, items, m, dex, k) by {
        lemma_put_get(offsets, id, offset, k);
        assert(item_stands_at(base, data, offsets, items, m, dex, k));
        lemma_item_longer(base, data, more, offsets, items, m, dex, k);
    }
    assert forall|k: u32| #[trigger] offsets.get(k) is Some implies next.get(k) is Some by {
        lemma_put_get(offsets, id, offset, k);
    }
}

#[verifier::spinoff_prover]
proof fn lemma_items_placed(
    base: int,
    items: Entries<Item>,
    i: int,
    m: Tables,
    dex: DexTables,
    data: Seq<u8>,
    offsets: Entries<u32>,
)
    requires
        0 <= base,
        items.wf(),
        0 <= i <= items.keys.len(),
        offsets.wf(),
        items_section(base, items, i, m, dex, data, offsets) is Ok,
        base + items_section(base, items, i, m, dex, data, offsets)->Ok_0.0.len() <= u32::MAX,
        forall|k: u32| #[trigger] item_stands_at(base, data, offsets, items, m, dex, k),
    ensures
        ({
            let (end, all) = items_section(base, items, i, m, dex, data, offsets)->Ok_0;
            &&& all.wf()
            &&& forall|k: u32| #[trigger] item_stands_at(base, end, all, items, m, dex, k)
            &&& forall|k: u32| #[trigger] offsets.get(k) is Some ==> all.get(k) is Some
            &&& forall|j: int|
                i <= j < items.keys.len() ==> all.get(#[trigger] items.keys[j]) is Some
        }),
    decreases items.keys.len() - i,
{
    let (end, all) = items_section(base, items, i, m, dex, data, offsets)->Ok_0;
    if i < items.keys.len() {
        let item = items.values[i];
        let more = annotation_bytes(item.annotation, m, dex, data.push(item.visibility))->Ok_0;
        let next = offsets.put(items.keys[i], offset_of(base, data));
        lemma_items_grow(base, items, i + 1, m, dex, more, next);
        lemma_item_put(base, items, i, m, dex, data, offsets, more);
        lemma_items_placed(base, items, i + 1, m, dex, more, next);
        assert(next.get(items.keys[i]) is Some);
        assert forall|k: u32| #[trigger] offsets.get(k) is Some implies all.get(k) is Some by {
            assert(next.get(k) is Some);
        }
    }
}

/// A key that leads somewhere is among the keys.
proof fn lemma_key_listed<V>(e: Entries<V>, id: u32) -> (j: int)
    requires
        e.wf(),
        e.get(id) is Some,
    ensures
        0 <= j < e.keys.len(),
        e.keys[j] == id,
        e.get(id) == Some(e.values[j]),
{
    lemma_rank(e.keys, id);
    rank_from(e.keys, id, 0)
}

// ---------------------------------------------------------------------------
// Annotation sets and lists of sets
// ---------------------------------------------------------------------------

/// The bytes of a list of annotation sets.
pub open spec fn set_ref_bytes(list: Seq<u32>, placed: Entries<u32>) -> Seq<u8> {
    le32_bytes(low32(list.len() as int)) + words_bytes(placed_words(list, placed))
}

/// Whether what `bytes` gives for the list under a key stands where its offset
/// says.
pub open spec fn list_stands_at(
    base: int,
    data: Seq<u8>,
    offsets: Entries<u32>,
    lists: Entries<Seq<u32>>,
    bytes: spec_fn(Seq<u32>) -> Seq<u8>,
    id: u32,
) -> bool {
    offsets.get(id) matches Some(offset) ==> {
        &&& lists.get(id) is Some
        &&& held(base, data, offset, bytes(lists.get(id)->Some_0))
    }
}

proof fn lemma_list_longer(
    base: int,
    a: Seq<u8>,
    b: Seq<u8>,
    offsets: Entries<u32>,
    lists: Entries<Seq<u32>>,
    bytes: spec_fn(Seq<u32>) -> Seq<u8>,
    id: u32,
)
    requires
        list_stands_at(base, a, offsets, lists, bytes, id),
        begins_with(b, a),
    ensures
        list_stands_at(base, b, offsets, lists, bytes, id),
{
    if offsets.get(id) is Some {
        let part = bytes(lists.get(id)->Some_0);
        lemma_held_longer(base, a, b, offsets.get(id)->Some_0, part);
    }
}

/// Adding a list keeps the others where they are.
proof fn lemma_list_put(
    base: int,
    lists: Entries<Seq<u32>>,
    i: int,
    bytes: spec_fn(Seq<u32>) -> Seq<u8>,
    data: Seq<u8>,
    offsets: Entries<u32>,
)
    requires
        0 <= base,
        lists.wf(),
        0 <= i < lists.keys.len(),
        offsets.wf(),
        base + data.len() + bytes(lists.values[i]).len() <= u32::MAX,
        forall|k: u32| #[trigger] list_stands_at(base, data, offsets, lists, bytes, k),
    ensures
        ({
            let next = offsets.put(lists.keys[i], offset_of(base, data));
            let more = data + bytes(lists.values[i]);
            &&& next.wf()
            &&& next.get(lists.keys[i]) is Some
            &&& forall|k: u32| #[trigger] list_stands_at(base, more, next, lists, bytes, k)
            &&& forall|k: u32| #[trigger] offsets.get(k) is Some ==> next.get(k) is Some
        }),
{
    let id = lists.keys[i];
    let part = bytes(lists.values[i]);
    let more = data + part;
    let offset = offset_of(base, data);
    let next = offsets.put(id, offset);
    lemma_get_at(lists, i);
    assert(begins_with(more, data));
    assert(held(base, more, offset, part)) by {
        assert forall|k: int| 0 <= k < part.len() implies more[data.len() + k]
            == #[trigger] part[k] by {}
    }
    lemma_put_get(offsets, id, offset, id);
    assert forall|k: u32| #[trigger] list_stands_at(base, more, next, lists, bytes, k) by {
        lemma_put_get(offsets, id, offset, k);
        assert(list_stands_at(base, data, offsets, lists, bytes, k));
        lemma_list_longer(base, data, more, offsets, lists, bytes, k);
    }
    assert forall|k: u32| #[trigger] offsets.get(k) is Some implies next.get(k) is Some by {
        lemma_put_get(offsets, id, offset, k);
    }
}

/// The bytes of an annotation set, as a function of the set.
pub open spec fn set_writer(items: Entries<Item>, m: Tables, placed: Entries<u32>) -> spec_fn(
    Seq<u32>,
) -> Seq<u8> {
    |set: Seq<u32>| set_bytes(set, items, m, placed)
}

/// The bytes of a list of annotation sets, as a function of the list.
pub open spec fn set_ref_writer(placed: Entries<u32>) -> spec_fn(Seq<u32>) -> Seq<u8> {
    |list: Seq<u32>| set_ref_bytes(list, placed)
}

#[verifier::spinoff_prover]
proof fn lemma_sets_placed(
    base: int,
    sets: Entries<Seq<u32>>,
    i: int,
    items: Entries<Item>,
    m: Tables,
    placed: Entries<u32>,
    data: Seq<u8>,
    offsets: Entries<u32>,
)
    requires
        0 <= base,
        sets.wf(),
        0 <= i <= sets.keys.len(),
        offsets.wf(),
        base + sets_section(base, sets, i, items, m, placed, data, offsets).0.len() <= u32::MAX,
        forall|k: u32| #[trigger]
            list_stands_at(base, data, offsets, sets, set_writer(items, m, placed), k),
    ensures
        ({
            let (end, all) = sets_section(base, sets, i, items, m, placed, data, offsets);
            let bytes = set_writer(items, m, placed);
            &&& all.wf()
            &&& forall|k: u32| #[trigger] list_stands_at(base, end, all, sets, bytes, k)
            &&& forall|k: u32| #[trigger] offsets.get(k) is Some ==> all.get(k) is Some
            &&& forall|j: int|
                i <= j < sets.keys.len() ==> all.get(#[trigger] sets.keys[j]) is Some
        }),
    decreases sets.keys.len() - i,
{
    let (end, all) = sets_section(base, sets, i, items, m, placed, data, offsets);
    if i < sets.keys.len() {
        let bytes = set_writer(items, m, placed);
        let more = data + set_bytes(sets.values[i], items, m, placed);
        let next = offsets.put(sets.keys[i], offset_of(base, data));
        lemma_sets_grow(base, sets, i + 1, items, m, placed, more, next);
        lemma_list_put(base, sets, i, bytes, data, offsets);
        lemma_sets_placed(base, sets, i + 1, items, m, placed, more, next);
        assert(next.get(sets.keys[i]) is Some);
        assert forall|k: u32| #[trigger] offsets.get(k) is Some implies all.get(k) is Some by {
            assert(next.get(k) is Some);
        }
    }
}

#[verifier::spinoff_prover]
proof fn lemma_set_refs_placed(
    base: int,
    set_refs: Entries<Seq<u32>>,
    i: int,
    placed: Entries<u32>,
    data: Seq<u8>,
    offsets: Entries<u32>,
)
    requires
        0 <= base,
        set_refs.wf(),
        0 <= i <= set_refs.keys.len(),
        offsets.wf(),
        base + set_refs_section(base, set_refs, i, placed, data, offsets).0.len() <= u32::MAX,
        forall|k: u32| #[trigger]
            list_stands_at(base, data, offsets, set_refs, set_ref_writer(placed), k),
    ensures
        ({
            let (end, all) = set_refs_section(base, set_refs, i, placed, data, offsets);
            let bytes = set_ref_writer(placed);
            &&& all.wf()
            &&& forall|k: u32| #[trigger] list_stands_at(base, end, all, set_refs, bytes, k)
            &&& forall|k: u32| #[trigger] offsets.get(k) is Some ==> all.get(k) is Some
            &&& forall|j: int|
                i <= j < set_refs.keys.len() ==> all.get(#[trigger] set_refs.keys[j]) is Some
        }),
    decreases set_refs.keys.len() - i,
{
    let (end, all) = set_refs_section(base, set_refs, i, placed, data, offsets);
    if i < set_refs.keys.len() {
        let bytes = set_ref_writer(placed);
        let more = data + set_ref_bytes(set_refs.values[i], placed);
        let next = offsets.put(set_refs.keys[i], offset_of(base, data));
        lemma_set_refs_grow(base, set_refs, i + 1, placed, more, next);
        lemma_list_put(base, set_refs, i, bytes, data, offsets);
        lemma_set_refs_placed(base, set_refs, i + 1, placed, more, next);
        assert(next.get(set_refs.keys[i]) is Some);
        assert forall|k: u32| #[trigger] offsets.get(k) is Some implies all.get(k) is Some by {
            assert(next.get(k) is Some);
        }
    }
}

// ---------------------------------------------------------------------------
// Debug items
// ---------------------------------------------------------------------------

/// Whether data begins with a debug item behind `done`.
#[verifier::opaque]
pub open spec fn debug_written(
    data: Seq<u8>,
    d: Debugging,
    m: Tables,
    dex: DexTables,
    done: Seq<u8>,
) -> bool {
    &&& debug_bytes(d, m, dex, done) is Ok
    &&& begins_with(data, debug_bytes(d, m, dex, done)->Ok_0)
}

/// Whether a debug item stands at an offset of the file.
pub open spec fn debug_stands(
    base: int,
    data: Seq<u8>,
    offset: u32,
    d: Debugging,
    m: Tables,
    dex: DexTables,
) -> bool {
    exists|done: Seq<u8>| #[trigger]
        debug_written(data, d, m, dex, done) && offset == base + done.len()
}

/// Whether the debug item of a method stands where its offset says.
pub open spec fn debug_stands_at(
    base: int,
    data: Seq<u8>,
    offsets: Entries<u32>,
    debug: Entries<Debugging>,
    m: Tables,
    dex: DexTables,
    id: u32,
) -> bool {
    offsets.get(id) matches Some(offset) ==> {
        &&& debug.get(id) is Some
        &&& debug_stands(base, data, offset, debug.get(id)->Some_0, m, dex)
    }
}

proof fn lemma_debug_longer(
    base: int,
    a: Seq<u8>,
    b: Seq<u8>,
    offsets: Entries<u32>,
    debug: Entries<Debugging>,
    m: Tables,
    dex: DexTables,
    id: u32,
)
    requires
        debug_stands_at(base, a, offsets, debug, m, dex, id),
        begins_with(b, a),
    ensures
        debug_stands_at(base, b, offsets, debug, m, dex, id),
{
    if offsets.get(id) is Some {
        reveal(debug_written);
        let offset = offsets.get(id)->Some_0;
        let d = debug.get(id)->Some_0;
        let done = choose|done: Seq<u8>| #[trigger]
            debug_written(a, d, m, dex, done) && offset == base + done.len();
        lemma_begins_chain(debug_bytes(d, m, dex, done)->Ok_0, a, b);
        assert(debug_written(b, d, m, dex, done));
    }
}

/// Adding the debug item of one method keeps the others where they are.
proof fn lemma_debug_put(
    base: int,
    id: u32,
    debug: Entries<Debugging>,
    m: Tables,
    dex: DexTables,
    data: Seq<u8>,
    offsets: Entries<u32>,
    more: Seq<u8>,
)
    requires
        0 <= base,
        offsets.wf(),
        debug.get(id) is Some,
        debug_bytes(debug.get(id)->Some_0, m, dex, data) == Ok::<Seq<u8>, Error>(more),
        base + more.len() <= u32::MAX,
        forall|k: u32| #[trigger] debug_stands_at(base, data, offsets, debug, m, dex, k),
    ensures
        ({
            let next = offsets.put(id, offset_of(base, data));
            &&& next.wf()
            &&& next.get(id) is Some
            &&& forall|k: u32| #[trigger] debug_stands_at(base, more, next, debug, m, dex, k)
            &&& forall|k: u32| #[trigger] offsets.get(k) is Some ==> next.get(k) is Some
        }),
{
    let d = debug.get(id)->Some_0;
    let offset = offset_of(base, data);
    let next = offsets.put(id, offset);
    lemma_debug_item_grows(d, m, dex, data);
    assert(debug_stands(base, more, offset, d, m, dex)) by {
        reveal(debug_written);
        assert(begins_with(more, more));
        assert(debug_written(more, d, m, dex, data));
    }
    lemma_put_get(offsets, id, offset, id);
    assert forall|k: u32| #[trigger] debug_stands_at(base, more, next, debug, m, dex, k) by {
        lemma_put_get(offsets, id, offset, k);
        assert(debug_stands_at(base, data, offsets, debug, m, dex, k));
        lemma_debug_longer(base, data, more, offsets, debug, m, dex, k);
    }
    assert forall|k: u32| #[trigger] offsets.get(k) is Some implies next.get(k) is Some by {
        lemma_put_get(offsets, id, offset, k);
    }
}

#[verifier::spinoff_prover]
proof fn lemma_debugs_placed(
    base: int,
    methods: Seq<EncodedMethod>,
    i: int,
    debug: Entries<Debugging>,
    m: Tables,
    dex: DexTables,
    data: Seq<u8>,
    offsets: Entries<u32>,
)
    requires
        0 <= base,
        0 <= i <= methods.len(),
        offsets.wf(),
        debug_section(base, methods, i, debug, m, dex, data, offsets) is Ok,
        base + debug_section(base, methods, i, debug, m, dex, data, offsets)->Ok_0.0.len()
            <= u32::MAX,
        forall|k: u32| #[trigger] debug_stands_at(base, data, offsets, debug, m, dex, k),
    ensures
        ({
            let (end, all) = debug_section(base, methods, i, debug, m, dex, data, offsets)->Ok_0;
            &&& forall|k: u32| #[trigger] debug_stands_at(base, end, all, debug, m, dex, k)
            &&& forall|k: u32| #[trigger] offsets.get(k) is Some ==> all.get(k) is Some
            &&& forall|j: int|
                i <= j < methods.len() && debug.get((#[trigger] methods[j]).method_idx) is Some
                    ==> all.get(methods[j].method_idx) is Some
        }),
    decreases methods.len() - i,
{
    let (end, all) = debug_section(base, methods, i, debug, m, dex, data, offsets)->Ok_0;
    if i < methods.len() {
        let id = methods[i].method_idx;
        match debug.get(id) {
            None => {
                lemma_debugs_placed(base, methods, i + 1, debug, m, dex, data, offsets);
            },
            Some(d) => {
                let more = debug_bytes(d, m, dex, data)->Ok_0;
                let next = offsets.put(id, offset_of(base, data));
                lemma_debug_grows(base, methods, i + 1, debug, m, dex, more, next);
                lemma_debug_put(base, id, debug, m, dex, data, offsets, more);
                lemma_debugs_placed(base, methods, i + 1, debug, m, dex, more, next);
                assert(next.get(id) is Some);
                assert forall|k: u32| #[trigger] offsets.get(k) is Some implies all.get(
                    k,
                ) is Some by {
                    assert(next.get(k) is Some);
                }
            },
        }
    }
}

// ---------------------------------------------------------------------------
// All of them
// ---------------------------------------------------------------------------

/// Where the interfaces and the static values stand.
pub open spec fn lists_stand(parts: Parts, m: Tables, dex: DexTables, s: Sections) -> bool {
    let types = collect(type_mapper(m, parts.interfaces), parts.interfaces.len());
    &&& types is Ok
    &&& list_held(m.data_at(), s.data, s.interfaces_off, types->Ok_0)
    &&& match parts.static_values {
        None => s.static_values_off == 0,
        Some(items) => {
            &&& array_bytes(items, m, dex) is Ok
            &&& held(m.data_at(), s.data, s.static_values_off, array_bytes(items, m, dex)->Ok_0)
        },
    }
}

/// Where the annotations stand.
pub open spec fn notes_stand(
    base: int,
    a: ClassAnnotations,
    m: Tables,
    dex: DexTables,
    data: Seq<u8>,
    placed: PlacedAnnotations,
) -> bool {
    &&& forall|k: u32| #[trigger] item_stands_at(base, data, placed.items, a.items, m, dex, k)
    &&& forall|k: u32| #[trigger]
        list_stands_at(
            base,
            data,
            placed.sets,
            a.sets,
            set_writer(a.items, m, placed.items),
            k,
        )
    &&& forall|k: u32| #[trigger]
        list_stands_at(base, data, placed.set_refs, a.set_refs, set_ref_writer(placed.sets), k)
    &&& match a.directory {
        None => placed.directory == 0,
        Some(d) => {
            &&& held(
                base,
                data,
                placed.directory,
                words_bytes(directory_words(d, m, placed.sets, placed.set_refs)),
            )
            &&& forall|k: u32| (#[trigger] a.items.get(k)) is Some ==> placed.items.get(k) is Some
            &&& forall|k: u32| (#[trigger] a.sets.get(k)) is Some ==> placed.sets.get(k) is Some
            &&& forall|k: u32|
                (#[trigger] a.set_refs.get(k)) is Some ==> placed.set_refs.get(k) is Some
        },
    }
}

/// Where the debug items stand.
pub open spec fn debugs_stand(
    c: Members,
    debug: Entries<Debugging>,
    m: Tables,
    dex: DexTables,
    s: Sections,
) -> bool {
    &&& forall|k: u32| #[trigger]
        debug_stands_at(m.data_at(), s.data, s.debug_offsets, debug, m, dex, k)
    &&& forall|j: int|
        0 <= j < c.methods().len() && debug.get((#[trigger] c.methods()[j]).method_idx) is Some
            ==> s.debug_offsets.get(c.methods()[j].method_idx) is Some
}

/// The annotations stand in the data section where their offsets say.
#[verifier::spinoff_prover]
proof fn lemma_annotations_placed(
    base: int,
    a: ClassAnnotations,
    m: Tables,
    dex: DexTables,
    data: Seq<u8>,
)
    requires
        0 <= base,
        a.items.wf(),
        a.sets.wf(),
        a.set_refs.wf(),
        annotations_section(base, a, m, dex, data) is Ok,
        base + annotations_section(base, a, m, dex, data)->Ok_0.0.len() <= u32::MAX,
    ensures
        notes_stand(
            base,
            a,
            m,
            dex,
            annotations_section(base, a, m, dex, data)->Ok_0.0,
            annotations_section(base, a, m, dex, data)->Ok_0.1,
        ),
{
    let (end, placed) = annotations_section(base, a, m, dex, data)->Ok_0;
    let e = Entries::<u32>::empty();
    if let Some(d) = a.directory {
        let (b, items) = items_section(base, a.items, 0, m, dex, data, e)->Ok_0;
        let bytes = set_writer(a.items, m, items);
        let (c, sets) = sets_section(base, a.sets, 0, a.items, m, items, padded(b), e);
        let ref_bytes = set_ref_writer(sets);
        let (f, set_refs) = set_refs_section(base, a.set_refs, 0, sets, padded(c), e);
        let head = padded(f);
        let part = words_bytes(directory_words(d, m, sets, set_refs));
        assert(end == head + part);
        lemma_sets_grow(base, a.sets, 0, a.items, m, items, padded(b), e);
        lemma_set_refs_grow(base, a.set_refs, 0, sets, padded(c), e);
        assert(begins_with(padded(b), b));
        assert(begins_with(padded(c), c));
        assert(begins_with(end, f));
        lemma_begins_chain(c, padded(c), f);
        lemma_begins_chain(c, f, end);
        lemma_begins_chain(b, padded(b), c);
        lemma_begins_chain(b, c, end);
        assert forall|k: u32| #[trigger] item_stands_at(base, data, e, a.items, m, dex, k) by {}
        lemma_items_placed(base, a.items, 0, m, dex, data, e);
        assert forall|k: u32| #[trigger] list_stands_at(base, padded(b), e, a.sets, bytes, k) by {}
        lemma_sets_placed(base, a.sets, 0, a.items, m, items, padded(b), e);
        assert forall|k: u32| #[trigger]
            list_stands_at(base, padded(c), e, a.set_refs, ref_bytes, k) by {}
        lemma_set_refs_placed(base, a.set_refs, 0, sets, padded(c), e);
        lemma_annotations_kept(base, a, m, dex, b, c, f, end, placed);
        assert(held(base, end, placed.directory, part)) by {
            assert forall|k: int| 0 <= k < part.len() implies end[head.len() + k]
                == #[trigger] part[k] by {}
        }
        assert forall|k: u32| (#[trigger] a.items.get(k)) is Some implies placed.items.get(
            k,
        ) is Some by {
            let j = lemma_key_listed(a.items, k);
            assert(items.get(a.items.keys[j]) is Some);
        }
        assert forall|k: u32| (#[trigger] a.sets.get(k)) is Some implies placed.sets.get(
            k,
        ) is Some by {
            let j = lemma_key_listed(a.sets, k);
            assert(sets.get(a.sets.keys[j]) is Some);
        }
        assert forall|k: u32| (#[trigger] a.set_refs.get(k)) is Some implies placed.set_refs.get(
            k,
        ) is Some by {
            let j = lemma_key_listed(a.set_refs, k);
            assert(set_refs.get(a.set_refs.keys[j]) is Some);
        }
    }
}

/// What stands in parts of the data section stands in all of it.
proof fn lemma_annotations_kept(
    base: int,
    a: ClassAnnotations,
    m: Tables,
    dex: DexTables,
    b: Seq<u8>,
    c: Seq<u8>,
    f: Seq<u8>,
    end: Seq<u8>,
    placed: PlacedAnnotations,
)
    requires
        begins_with(end, b),
        begins_with(end, c),
        begins_with(end, f),
        forall|k: u32| #[trigger] item_stands_at(base, b, placed.items, a.items, m, dex, k),
        forall|k: u32| #[trigger]
            list_stands_at(base, c, placed.sets, a.sets, set_writer(a.items, m, placed.items), k),
        forall|k: u32| #[trigger]
            list_stands_at(base, f, placed.set_refs, a.set_refs, set_ref_writer(placed.sets), k),
    ensures
        forall|k: u32| #[trigger] item_stands_at(base, end, placed.items, a.items, m, dex, k),
        forall|k: u32| #[trigger]
            list_stands_at(
                base,
                end,
                placed.sets,
                a.sets,
                set_writer(a.items, m, placed.items),
                k,
            ),
        forall|k: u32| #[trigger]
            list_stands_at(base, end, placed.set_refs, a.set_refs, set_ref_writer(placed.sets), k),
{
    assert forall|k: u32| #[trigger]
        item_stands_at(base, end, placed.items, a.items, m, dex, k) by {
        assert(item_stands_at(base, b, placed.items, a.items, m, dex, k));
        lemma_item_longer(base, b, end, placed.items, a.items, m, dex, k);
    }
    let bytes = set_writer(a.items, m, placed.items);
    assert forall|k: u32| #[trigger]
        list_stands_at(base, end, placed.sets, a.sets, bytes, k) by {
        assert(list_stands_at(base, c, placed.sets, a.sets, bytes, k));
        lemma_list_longer(base, c, end, placed.sets, a.sets, bytes, k);
    }
    let ref_bytes = set_ref_writer(placed.sets);
    assert forall|k: u32| #[trigger]
        list_stands_at(base, end, placed.set_refs, a.set_refs, ref_bytes, k) by {
        assert(list_stands_at(base, f, placed.set_refs, a.set_refs, ref_bytes, k));
        lemma_list_longer(base, f, end, placed.set_refs, a.set_refs, ref_bytes, k);
    }
}

/// The data section between its parts: before and behind the interfaces,
/// behind the annotations, behind the static values and behind the debug items.
#[verifier::spinoff_prover]
proof fn lemma_middle_sections(members: Members, parts: Parts, m: Tables, dex: DexTables) -> (r: (
    Seq<u8>,
    Seq<u8>,
    Seq<u8>,
    Seq<u8>,
    Seq<u8>,
))
    requires
        sections_of(members, parts, m, dex) is Ok,
    ensures
        ({
            let s = sections_of(members, parts, m, dex)->Ok_0;
            let base = m.data_at();
            let methods = methods_in_order(members.methods(), m);
            &&& interfaces_section(base, parts.interfaces, m, r.0) == Ok::<(Seq<u8>, u32), Error>(
                (r.1, s.interfaces_off),
            )
            &&& annotations_section(base, parts.annotations, m, dex, r.1) == Ok::<
                (Seq<u8>, PlacedAnnotations),
                Error,
            >((r.2, s.annotations))
            &&& statics_section(base, parts.static_values, m, dex, r.2) == Ok::<
                (Seq<u8>, u32),
                Error,
            >((r.3, s.static_values_off))
            &&& debug_section(
                base,
                methods,
                0,
                parts.debug_info,
                m,
                dex,
                r.3,
                Entries::empty(),
            ) == Ok::<(Seq<u8>, Entries<u32>), Error>((r.4, s.debug_offsets))
            &&& begins_with(s.data, r.1)
            &&& begins_with(s.data, r.2)
            &&& begins_with(s.data, r.3)
            &&& begins_with(s.data, r.4)
        }),
{
    reveal(sections_of);
    let base = m.data_at();
    let s = sections_of(members, parts, m, dex)->Ok_0;
    let none = Seq::<u32>::empty();
    let (a, string_offsets) = strings_section(base, m.strings, 0, Seq::empty(), none);
    let (b, param_offsets) = params_section(base, m.protos, 0, padded(a), none);
    let (c, interfaces_off) = interfaces_section(base, parts.interfaces, m, b)->Ok_0;
    let (d, annotations) = annotations_section(base, parts.annotations, m, dex, c)->Ok_0;
    let (f, static_values_off) = statics_section(base, parts.static_values, m, dex, d)->Ok_0;
    let methods = methods_in_order(members.methods(), m);
    let e = Entries::<u32>::empty();
    let debug = parts.debug_info;
    let (g, debug_offsets) = debug_section(base, methods, 0, debug, m, dex, f, e)->Ok_0;
    let (h, code_offsets) = code_section(base, methods, 0, parts.codes, debug_offsets, g, e)->Ok_0;
    lemma_annotations_grow(base, parts.annotations, m, dex, c);
    assert(begins_with(f, d));
    lemma_debug_grows(base, methods, 0, debug, m, dex, f, e);
    lemma_code_section_grows(base, methods, 0, parts.codes, debug_offsets, g, e);
    if !(members.fields().len() == 0 && members.methods().len() == 0) {
        lemma_members_grow(members, m, code_offsets, h);
    }
    lemma_begins_chain(g, h, s.data);
    lemma_begins_chain(f, g, s.data);
    lemma_begins_chain(d, f, s.data);
    lemma_begins_chain(c, d, s.data);
    (b, c, d, f, g)
}

/// The interfaces, the annotations, the static values and the debug items
/// stand in the data section where their offsets say.
#[verifier::spinoff_prover]
pub proof fn lemma_metadata_stands(members: Members, parts: Parts, m: Tables, dex: DexTables)
    requires
        sections_of(members, parts, m, dex) is Ok,
        m.data_at() + sections_of(members, parts, m, dex)->Ok_0.data.len() <= u32::MAX,
        parts.annotations.items.wf(),
        parts.annotations.sets.wf(),
        parts.annotations.set_refs.wf(),
    ensures
        ({
            let s = sections_of(members, parts, m, dex)->Ok_0;
            &&& lists_stand(parts, m, dex, s)
            &&& notes_stand(m.data_at(), parts.annotations, m, dex, s.data, s.annotations)
            &&& debugs_stand(members, parts.debug_info, m, dex, s)
        }),
{
    let s = sections_of(members, parts, m, dex)->Ok_0;
    let base = m.data_at();
    let (b, c, d, f, g) = lemma_middle_sections(members, parts, m, dex);
    lemma_lists_stand(parts, m, dex, s, b, c, d, f);
    lemma_annotations_placed(base, parts.annotations, m, dex, c);
    lemma_notes_longer(base, parts.annotations, m, dex, d, s.data, s.annotations);
    lemma_debugs_stand(members, parts.debug_info, m, dex, s, f, g);
}

proof fn lemma_lists_stand(
    parts: Parts,
    m: Tables,
    dex: DexTables,
    s: Sections,
    b: Seq<u8>,
    c: Seq<u8>,
    d: Seq<u8>,
    f: Seq<u8>,
)
    requires
        interfaces_section(m.data_at(), parts.interfaces, m, b) == Ok::<(Seq<u8>, u32), Error>(
            (c, s.interfaces_off),
        ),
        statics_section(m.data_at(), parts.static_values, m, dex, d) == Ok::<
            (Seq<u8>, u32),
            Error,
        >((f, s.static_values_off)),
        begins_with(s.data, c),
        begins_with(s.data, f),
        m.data_at() + s.data.len() <= u32::MAX,
    ensures
        lists_stand(parts, m, dex, s),
{
    let base = m.data_at();
    let types = collect(type_mapper(m, parts.interfaces), parts.interfaces.len());
    if parts.interfaces.len() > 0 {
        let part = type_list_bytes(types->Ok_0);
        let start = padded(b);
        assert(held(base, c, s.interfaces_off, part)) by {
            assert forall|k: int| 0 <= k < part.len() implies c[start.len() + k]
                == #[trigger] part[k] by {}
        }
        lemma_held_longer(base, c, s.data, s.interfaces_off, part);
        lemma_collect_ok(
            type_mapper(m, parts.interfaces),
            parts.interfaces.len(),
        );
    }
    if let Some(items) = parts.static_values {
        let part = array_bytes(items, m, dex)->Ok_0;
        let start = padded(d);
        assert(held(base, f, s.static_values_off, part)) by {
            assert forall|k: int| 0 <= k < part.len() implies f[start.len() + k]
                == #[trigger] part[k] by {}
        }
        lemma_held_longer(base, f, s.data, s.static_values_off, part);
    }
}

proof fn lemma_notes_longer(
    base: int,
    a: ClassAnnotations,
    m: Tables,
    dex: DexTables,
    data: Seq<u8>,
    more: Seq<u8>,
    placed: PlacedAnnotations,
)
    requires
        notes_stand(base, a, m, dex, data, placed),
        begins_with(more, data),
    ensures
        notes_stand(base, a, m, dex, more, placed),
{
    lemma_annotations_kept(base, a, m, dex, data, data, data, more, placed);
    if let Some(d) = a.directory {
        let part = words_bytes(directory_words(d, m, placed.sets, placed.set_refs));
        lemma_held_longer(base, data, more, placed.directory, part);
    }
}

proof fn lemma_debugs_stand(
    c: Members,
    debug: Entries<Debugging>,
    m: Tables,
    dex: DexTables,
    s: Sections,
    f: Seq<u8>,
    g: Seq<u8>,
)
    requires
        debug_section(
            m.data_at(),
            methods_in_order(c.methods(), m),
            0,
            debug,
            m,
            dex,
            f,
            Entries::empty(),
        ) == Ok::<(Seq<u8>, Entries<u32>), Error>((g, s.debug_offsets)),
        begins_with(s.data, g),
        m.data_at() + s.data.len() <= u32::MAX,
    ensures
        debugs_stand(c, debug, m, dex, s),
{
    let base = m.data_at();
    let e = Entries::<u32>::empty();
    let methods = methods_in_order(c.methods(), m);
    assert forall|k: u32| #[trigger] debug_stands_at(base, f, e, debug, m, dex, k) by {}
    lemma_debugs_placed(base, methods, 0, debug, m, dex, f, e);
    assert forall|k: u32| #[trigger]
        debug_stands_at(base, s.data, s.debug_offsets, debug, m, dex, k) by {
        assert(debug_stands_at(base, g, s.debug_offsets, debug, m, dex, k));
        lemma_debug_longer(base, g, s.data, s.debug_offsets, debug, m, dex, k);
    }
    let keys = method_ranks(c.methods(), m);
    let order = sort_order(keys, c.methods().len());
    lemma_sort_order(keys, c.methods().len());
    assert forall|j: int|
        0 <= j < c.methods().len() && debug.get(
            (#[trigger] c.methods()[j]).method_idx,
        ) is Some implies s.debug_offsets.get(c.methods()[j].method_idx) is Some by {
        assert(order.contains(j));
        let k = choose|k: int| 0 <= k < order.len() && order[k] == j;
        assert(methods[k] == c.methods()[j]);
    }
}

} // verus!
