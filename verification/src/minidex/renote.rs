//! Annotations written twice: what was written once is read at the offsets that
//! it got, and keeps them.
use vstd::prelude::*;

use crate::collections::{ascending, lemma_rank, low32, rank_from, Entries};
use crate::minidex::canonical::picked;
use crate::minidex::emit::{annotation_bytes, le32_bytes, padded};
use crate::minidex::metadata::{ClassAnnotations, Directory};
use crate::minidex::notes::{item_ok_at, items_ok, lemma_get_at, lemma_rank_stops};
use crate::minidex::readback::{
    lemma_annotation_grows, lemma_items_grow, lemma_set_refs_grow, lemma_sets_grow,
};
use crate::minidex::reader::DexTables;
use crate::minidex::recode::lemma_sorted_picked;
use crate::minidex::rewrite::{fixed, lemma_annotation_again, served, twice};
use crate::minidex::sections::{
    annotated_members, annotations_section, directory_words, item_rank, item_ranks, items_section,
    member_ranks, member_words, new_member, offset_of, or_zero, placed_words, present_members,
    set_bytes, set_refs_section, sets_section, words_bytes, PlacedAnnotations,
};
use crate::minidex::tables::Tables;
use crate::minidex::valueback::{annotation_ok, mapped_annotation};
use crate::minidex::values::Item;
use crate::order::{
    lemma_less_asymmetric, lemma_less_irreflexive, lemma_sort_order, lex_less, sort_order,
};

verus! {

/// Ascending sequences that hold the same are the same.
pub proof fn lemma_ascending_same(a: Seq<u32>, b: Seq<u32>)
    requires
        ascending(a),
        ascending(b),
        forall|x: u32| #[trigger] a.contains(x) <==> b.contains(x),
    ensures
        a == b,
    decreases a.len() + b.len(),
{
    if a.len() == 0 {
        if b.len() > 0 {
            assert(b.contains(b[0]));
            assert(a.contains(b[0]));
        }
        assert(a =~= b);
    } else if b.len() == 0 {
        assert(a.contains(a[0]));
    } else {
        let x = a.last();
        let y = b.last();
        assert(a.contains(x));
        assert(b.contains(y));
        assert(a.contains(y));
        let i = choose|i: int| 0 <= i < b.len() && b[i] == x;
        let j = choose|j: int| 0 <= j < a.len() && a[j] == y;
        assert(b[i] <= b[b.len() - 1]);
        assert(a[j] <= a[a.len() - 1]);
        assert(x == y);
        let c = a.drop_last();
        let d = b.drop_last();
        assert forall|z: u32| #[trigger] c.contains(z) <==> d.contains(z) by {
            if c.contains(z) {
                let k = choose|k: int| 0 <= k < c.len() && c[k] == z;
                assert(a[k] == z && z < x);
                assert(a.contains(z));
                let l = choose|l: int| 0 <= l < b.len() && b[l] == z;
                assert(d[l] == z);
            }
            if d.contains(z) {
                let k = choose|k: int| 0 <= k < d.len() && d[k] == z;
                assert(b[k] == z && z < y);
                assert(b.contains(z));
                assert(a.contains(z));
                let l = choose|l: int| 0 <= l < a.len() && a[l] == z;
                assert(c[l] == z);
            }
        }
        lemma_ascending_same(c, d);
        assert(a =~= c.push(x));
        assert(b =~= d.push(y));
    }
}

// ---------------------------------------------------------------------------
// Offsets that are given out in order
// ---------------------------------------------------------------------------

/// Whether the first keys have got offsets, one behind the other, below `top`.
pub open spec fn placing(keys: Seq<u32>, i: int, offsets: Entries<u32>, top: int) -> bool {
    &&& offsets.keys == keys.take(i)
    &&& offsets.values.len() == i
    &&& ascending(offsets.values)
    &&& forall|j: int| 0 <= j < i ==> 0 < #[trigger] offsets.values[j] < top
}

/// A key behind all others is put at the end.
pub proof fn lemma_put_last<V>(e: Entries<V>, key: u32, value: V)
    requires
        e.wf(),
        forall|j: int| 0 <= j < e.keys.len() ==> #[trigger] e.keys[j] < key,
    ensures
        e.put(key, value) == (Entries { keys: e.keys.push(key), values: e.values.push(value) }),
{
    lemma_rank_stops(e.keys, key, 0);
    lemma_rank(e.keys, key);
    let p = rank_from(e.keys, key, 0);
    if p < e.keys.len() {
        assert(e.keys[p] < key);
    }
    assert(e.keys.insert(p, key) =~= e.keys.push(key));
    assert(e.values.insert(p, value) =~= e.values.push(value));
}

proof fn lemma_placing_step(keys: Seq<u32>, i: int, offsets: Entries<u32>, v: u32, top: int)
    requires
        ascending(keys),
        0 <= i < keys.len(),
        placing(keys, i, offsets, v as int),
        0 < v < top,
    ensures
        placing(keys, i + 1, offsets.put(keys[i], v), top),
        offsets.put(keys[i], v).values == offsets.values.push(v),
{
    assert(ascending(keys.take(i)));
    lemma_put_last(offsets, keys[i], v);
    assert(keys.take(i).push(keys[i]) =~= keys.take(i + 1));
    let more = offsets.values.push(v);
    assert forall|a: int, b: int| 0 <= a < b < more.len() implies more[a] < more[b] by {
        if b == i {
            assert(offsets.values[a] < v);
        } else {
            assert(offsets.values[a] < offsets.values[b]);
        }
    }
    assert forall|j: int| 0 <= j < i + 1 implies 0 < #[trigger] more[j] < top by {
        if j < i {
            assert(offsets.values[j] < v);
        }
    }
}

/// What holds of the offsets when all keys have got theirs.
pub open spec fn all_placed(keys: Seq<u32>, before: Entries<u32>, i: int, offsets: Entries<u32>) -> bool {
    &&& offsets.keys == keys
    &&& offsets.values.len() == keys.len()
    &&& ascending(offsets.values)
    &&& forall|j: int| 0 <= j < keys.len() ==> 0 < #[trigger] offsets.values[j]
    &&& forall|j: int| 0 <= j < i ==> #[trigger] offsets.values[j] == before.values[j]
}

proof fn lemma_items_placed(
    base: int,
    items: Entries<Item>,
    i: int,
    m: Tables,
    dex: DexTables,
    data: Seq<u8>,
    offsets: Entries<u32>,
)
    requires
        0 < base,
        0 <= i <= items.keys.len(),
        ascending(items.keys),
        placing(items.keys, i, offsets, base + data.len()),
        items_section(base, items, i, m, dex, data, offsets) is Ok,
        base + items_section(base, items, i, m, dex, data, offsets)->Ok_0.0.len() <= u32::MAX,
    ensures
        all_placed(
            items.keys,
            offsets,
            i,
            items_section(base, items, i, m, dex, data, offsets)->Ok_0.1,
        ),
    decreases items.keys.len() - i,
{
    if i < items.keys.len() {
        let start = data.push(items.values[i].visibility);
        let more = annotation_bytes(items.values[i].annotation, m, dex, start)->Ok_0;
        let v = offset_of(base, data);
        let next = offsets.put(items.keys[i], v);
        lemma_annotation_grows(items.values[i].annotation, m, dex, start);
        lemma_items_grow(base, items, i + 1, m, dex, more, next);
        assert(v == base + data.len());
        lemma_placing_step(items.keys, i, offsets, v, base + more.len());
        lemma_items_placed(base, items, i + 1, m, dex, more, next);
        let out = items_section(base, items, i, m, dex, data, offsets)->Ok_0.1;
        assert forall|j: int| 0 <= j < i implies #[trigger] out.values[j] == offsets.values[j] by {
            assert(out.values[j] == next.values[j]);
        }
    } else {
        assert(items.keys.take(i) =~= items.keys);
    }
}

proof fn lemma_sets_placed(
    base: int,
    sets: Entries<Seq<u32>>,
    i: int,
    items: Entries<Item>,
    m: Tables,
    placed: Entries<u32>,
    data: Seq<u8>,
    offsets: Entries<u32>,
)
    requires
        0 < base,
        0 <= i <= sets.keys.len(),
        ascending(sets.keys),
        placing(sets.keys, i, offsets, base + data.len()),
        base + sets_section(base, sets, i, items, m, placed, data, offsets).0.len() <= u32::MAX,
    ensures
        all_placed(
            sets.keys,
            offsets,
            i,
            sets_section(base, sets, i, items, m, placed, data, offsets).1,
        ),
    decreases sets.keys.len() - i,
{
    if i < sets.keys.len() {
        let more = data + set_bytes(sets.values[i], items, m, placed);
        let v = offset_of(base, data);
        let next = offsets.put(sets.keys[i], v);
        lemma_sets_grow(base, sets, i + 1, items, m, placed, more, next);
        assert(v == base + data.len());
        assert(more.len() >= data.len() + 4);
        lemma_placing_step(sets.keys, i, offsets, v, base + more.len());
        lemma_sets_placed(base, sets, i + 1, items, m, placed, more, next);
        let out = sets_section(base, sets, i, items, m, placed, data, offsets).1;
        assert forall|j: int| 0 <= j < i implies #[trigger] out.values[j] == offsets.values[j] by {
            assert(out.values[j] == next.values[j]);
        }
    } else {
        assert(sets.keys.take(i) =~= sets.keys);
    }
}

proof fn lemma_lists_placed(
    base: int,
    lists: Entries<Seq<u32>>,
    i: int,
    placed: Entries<u32>,
    data: Seq<u8>,
    offsets: Entries<u32>,
)
    requires
        0 < base,
        0 <= i <= lists.keys.len(),
        ascending(lists.keys),
        placing(lists.keys, i, offsets, base + data.len()),
        base + set_refs_section(base, lists, i, placed, data, offsets).0.len() <= u32::MAX,
    ensures
        all_placed(
            lists.keys,
            offsets,
            i,
            set_refs_section(base, lists, i, placed, data, offsets).1,
        ),
    decreases lists.keys.len() - i,
{
    if i < lists.keys.len() {
        let more = data + (le32_bytes(low32(lists.values[i].len() as int)) + words_bytes(
            placed_words(lists.values[i], placed),
        ));
        let v = offset_of(base, data);
        let next = offsets.put(lists.keys[i], v);
        lemma_set_refs_grow(base, lists, i + 1, placed, more, next);
        assert(v == base + data.len());
        assert(more.len() >= data.len() + 4);
        lemma_placing_step(lists.keys, i, offsets, v, base + more.len());
        lemma_lists_placed(base, lists, i + 1, placed, more, next);
        let out = set_refs_section(base, lists, i, placed, data, offsets).1;
        assert forall|j: int| 0 <= j < i implies #[trigger] out.values[j] == offsets.values[j] by {
            assert(out.values[j] == next.values[j]);
        }
    } else {
        assert(lists.keys.take(i) =~= lists.keys);
    }
}

// ---------------------------------------------------------------------------
// The second time
// ---------------------------------------------------------------------------

/// The entries that lead every key to itself.
pub open spec fn selves(keys: Seq<u32>) -> Entries<u32> {
    Entries { keys, values: keys }
}

/// A key that leads to itself, and zero, stay what they are.
proof fn lemma_selves(keys: Seq<u32>, x: u32)
    requires
        ascending(keys),
        x == 0 || keys.contains(x),
    ensures
        or_zero(selves(keys), x) == x,
{
    let e = selves(keys);
    if keys.contains(x) {
        let i = choose|i: int| 0 <= i < keys.len() && keys[i] == x;
        lemma_get_at(e, i);
    } else {
        let p = rank_from(keys, x, 0);
        lemma_rank(keys, x);
        if p < keys.len() && keys[p] == x {
            assert(keys.contains(x));
        }
    }
}

proof fn lemma_selves_step(keys: Seq<u32>, i: int)
    requires
        ascending(keys),
        0 <= i < keys.len(),
    ensures
        selves(keys.take(i)).put(keys[i], keys[i]) == selves(keys.take(i + 1)),
{
    assert(ascending(keys.take(i)));
    lemma_put_last(selves(keys.take(i)), keys[i], keys[i]);
    assert(keys.take(i).push(keys[i]) =~= keys.take(i + 1));
}

/// An item with the new indices in it.
pub open spec fn mapped_item(item: Item, m: Tables, dex: DexTables) -> Item {
    Item { visibility: item.visibility, annotation: mapped_annotation(item.annotation, m, dex) }
}

/// Whether `new` holds what `old` holds, changed, under the offsets that it
/// was given.
pub open spec fn carried<V, W>(old: Entries<V>, placed: Entries<u32>, new: Entries<W>) -> bool {
    &&& old.wf()
    &&& new.wf()
    &&& placed.keys == old.keys
    &&& new.keys == placed.values
}

proof fn lemma_items_again(
    base: int,
    old: Entries<Item>,
    new: Entries<Item>,
    i: int,
    dex: DexTables,
    m: Tables,
    t: DexTables,
    n: Tables,
    data: Seq<u8>,
    offsets: Entries<u32>,
)
    requires
        0 < base,
        0 <= i <= old.keys.len(),
        twice(dex, m, t, n),
        placing(old.keys, i, offsets, base + data.len()),
        items_section(base, old, i, m, dex, data, offsets) is Ok,
        base + items_section(base, old, i, m, dex, data, offsets)->Ok_0.0.len() <= u32::MAX,
        carried(old, items_section(base, old, i, m, dex, data, offsets)->Ok_0.1, new),
        forall|j: int|
            0 <= j < old.keys.len() ==> annotation_ok((#[trigger] old.values[j]).annotation),
        forall|j: int|
            0 <= j < old.keys.len() ==> #[trigger] new.values[j] == mapped_item(
                old.values[j],
                m,
                dex,
            ),
        served(dex, m, t, n),
    ensures
        items_section(base, new, i, n, t, data, selves(new.keys.take(i))) is Ok,
        items_section(base, new, i, n, t, data, selves(new.keys.take(i)))->Ok_0 == (
            items_section(base, old, i, m, dex, data, offsets)->Ok_0.0,
            selves(new.keys),
        ),
    decreases old.keys.len() - i,
{
    lemma_items_placed(base, old, i, m, dex, data, offsets);
    if i < old.keys.len() {
        let start = data.push(old.values[i].visibility);
        let more = annotation_bytes(old.values[i].annotation, m, dex, start)->Ok_0;
        let v = offset_of(base, data);
        let next = offsets.put(old.keys[i], v);
        lemma_annotation_grows(old.values[i].annotation, m, dex, start);
        lemma_items_grow(base, old, i + 1, m, dex, more, next);
        lemma_placing_step(old.keys, i, offsets, v, base + more.len());
        lemma_items_placed(base, old, i + 1, m, dex, more, next);
        let out = items_section(base, old, i, m, dex, data, offsets)->Ok_0.1;
        assert(out.values[i] == next.values[i]);
        assert(new.keys[i] == v);
        assert(annotation_ok(old.values[i].annotation));
        assert(new.values[i] == mapped_item(old.values[i], m, dex));
        lemma_annotation_again(old.values[i].annotation, dex, m, t, n, start);
        lemma_selves_step(new.keys, i);
        lemma_items_again(base, old, new, i + 1, dex, m, t, n, more, next);
    } else {
        assert(new.keys.take(i) =~= new.keys);
    }
}

// ---------------------------------------------------------------------------
// Sets
// ---------------------------------------------------------------------------

/// What a set becomes: its items in the order of their types, where they were
/// placed.
pub open spec fn mapped_set(
    set: Seq<u32>,
    items: Entries<Item>,
    m: Tables,
    placed: Entries<u32>,
) -> Seq<u32> {
    placed_words(picked(set, sort_order(item_ranks(items, m, set), set.len())), placed)
}

/// Whether an item that is placed keeps its rank.
pub open spec fn rank_kept(
    old: Entries<Item>,
    m: Tables,
    placed: Entries<u32>,
    new: Entries<Item>,
    n: Tables,
    id: u32,
) -> bool {
    item_rank(new, n, or_zero(placed, id)) == item_rank(old, m, id)
}

proof fn lemma_set_again(
    set: Seq<u32>,
    old: Entries<Item>,
    m: Tables,
    placed: Entries<u32>,
    new: Entries<Item>,
    n: Tables,
)
    requires
        forall|id: u32| #[trigger] rank_kept(old, m, placed, new, n, id),
        ascending(new.keys),
        forall|id: u32| #[trigger] or_zero(placed, id) == 0 || new.keys.contains(or_zero(placed, id)),
    ensures
        set_bytes(mapped_set(set, old, m, placed), new, n, selves(new.keys)) == set_bytes(
            set,
            old,
            m,
            placed,
        ),
{
    let ranks = item_ranks(old, m, set);
    let walk = sort_order(ranks, set.len());
    let got = mapped_set(set, old, m, placed);
    let again = item_ranks(new, n, got);
    lemma_sort_order(ranks, set.len());
    assert forall|i: int| 0 <= i < got.len() implies #[trigger] again[i] == ranks[walk[i]] by {
        assert(rank_kept(old, m, placed, new, n, set[walk[i]]));
    }
    assert forall|i: int, j: int|
        #![trigger again[i], again[j]]
        0 <= i < j < again.len() implies !lex_less(again[j], again[i]) by {
        assert(again[i] == ranks[walk[i]]);
        assert(again[j] == ranks[walk[j]]);
        if lex_less(ranks[walk[i]], ranks[walk[j]]) {
            lemma_less_asymmetric(ranks[walk[i]], ranks[walk[j]]);
        } else {
            lemma_less_irreflexive(ranks[walk[i]]);
        }
    }
    lemma_sorted_picked(got, again);
    assert forall|i: int| 0 <= i < got.len() implies or_zero(selves(new.keys), #[trigger] got[i])
        == got[i] by {
        lemma_selves(new.keys, got[i]);
    }
    assert(placed_words(got, selves(new.keys)) =~= got);
}

proof fn lemma_sets_again(
    base: int,
    old: Entries<Seq<u32>>,
    new: Entries<Seq<u32>>,
    i: int,
    items: Entries<Item>,
    m: Tables,
    placed: Entries<u32>,
    moved: Entries<Item>,
    n: Tables,
    data: Seq<u8>,
    offsets: Entries<u32>,
)
    requires
        0 < base,
        0 <= i <= old.keys.len(),
        placing(old.keys, i, offsets, base + data.len()),
        base + sets_section(base, old, i, items, m, placed, data, offsets).0.len() <= u32::MAX,
        carried(old, sets_section(base, old, i, items, m, placed, data, offsets).1, new),
        forall|id: u32| #[trigger] rank_kept(items, m, placed, moved, n, id),
        ascending(moved.keys),
        forall|id: u32| #[trigger]
            or_zero(placed, id) == 0 || moved.keys.contains(or_zero(placed, id)),
        forall|j: int|
            0 <= j < old.keys.len() ==> #[trigger] new.values[j] == mapped_set(
                old.values[j],
                items,
                m,
                placed,
            ),
    ensures
        sets_section(
            base,
            new,
            i,
            moved,
            n,
            selves(moved.keys),
            data,
            selves(new.keys.take(i)),
        ) == (
            sets_section(base, old, i, items, m, placed, data, offsets).0,
            selves(new.keys),
        ),
    decreases old.keys.len() - i,
{
    lemma_sets_placed(base, old, i, items, m, placed, data, offsets);
    if i < old.keys.len() {
        let more = data + set_bytes(old.values[i], items, m, placed);
        let v = offset_of(base, data);
        let next = offsets.put(old.keys[i], v);
        lemma_sets_grow(base, old, i + 1, items, m, placed, more, next);
        assert(more.len() >= data.len() + 4);
        lemma_placing_step(old.keys, i, offsets, v, base + more.len());
        lemma_sets_placed(base, old, i + 1, items, m, placed, more, next);
        let out = sets_section(base, old, i, items, m, placed, data, offsets).1;
        assert(out.values[i] == next.values[i]);
        assert(new.keys[i] == v);
        assert(new.values[i] == mapped_set(old.values[i], items, m, placed));
        lemma_set_again(old.values[i], items, m, placed, moved, n);
        lemma_selves_step(new.keys, i);
        lemma_sets_again(base, old, new, i + 1, items, m, placed, moved, n, more, next);
    } else {
        assert(new.keys.take(i) =~= new.keys);
    }
}

proof fn lemma_lists_again(
    base: int,
    old: Entries<Seq<u32>>,
    new: Entries<Seq<u32>>,
    i: int,
    placed: Entries<u32>,
    moved: Seq<u32>,
    data: Seq<u8>,
    offsets: Entries<u32>,
)
    requires
        0 < base,
        0 <= i <= old.keys.len(),
        placing(old.keys, i, offsets, base + data.len()),
        base + set_refs_section(base, old, i, placed, data, offsets).0.len() <= u32::MAX,
        carried(old, set_refs_section(base, old, i, placed, data, offsets).1, new),
        ascending(moved),
        forall|id: u32| #[trigger] or_zero(placed, id) == 0 || moved.contains(or_zero(placed, id)),
        forall|j: int|
            0 <= j < old.keys.len() ==> #[trigger] new.values[j] == placed_words(
                old.values[j],
                placed,
            ),
    ensures
        set_refs_section(base, new, i, selves(moved), data, selves(new.keys.take(i))) == (
            set_refs_section(base, old, i, placed, data, offsets).0,
            selves(new.keys),
        ),
    decreases old.keys.len() - i,
{
    lemma_lists_placed(base, old, i, placed, data, offsets);
    if i < old.keys.len() {
        let words = placed_words(old.values[i], placed);
        let more = data + (le32_bytes(low32(old.values[i].len() as int)) + words_bytes(words));
        let v = offset_of(base, data);
        let next = offsets.put(old.keys[i], v);
        lemma_set_refs_grow(base, old, i + 1, placed, more, next);
        assert(more.len() >= data.len() + 4);
        lemma_placing_step(old.keys, i, offsets, v, base + more.len());
        lemma_lists_placed(base, old, i + 1, placed, more, next);
        let out = set_refs_section(base, old, i, placed, data, offsets).1;
        assert(out.values[i] == next.values[i]);
        assert(new.keys[i] == v);
        assert(new.values[i] == words);
        assert forall|k: int| 0 <= k < words.len() implies or_zero(selves(moved), #[trigger] words[k])
            == words[k] by {
            lemma_selves(moved, words[k]);
        }
        assert(placed_words(words, selves(moved)) =~= words);
        lemma_selves_step(new.keys, i);
        lemma_lists_again(base, old, new, i + 1, placed, moved, more, next);
    } else {
        assert(new.keys.take(i) =~= new.keys);
    }
}

// ---------------------------------------------------------------------------
// Directories
// ---------------------------------------------------------------------------

/// Members with what they point at where it was placed.
pub open spec fn moved_members(list: Seq<(u32, u32)>, placed: Entries<u32>) -> Seq<(u32, u32)> {
    list.map_values(|x: (u32, u32)| (x.0, or_zero(placed, x.1)))
}

/// What a directory becomes.
pub open spec fn moved_directory(
    d: Directory,
    m: Tables,
    sets: Entries<u32>,
    lists: Entries<u32>,
) -> Directory {
    Directory {
        class_annotations_off: or_zero(sets, d.class_annotations_off),
        field_annotations: moved_members(annotated_members(d.field_annotations, true, m), sets),
        method_annotations: moved_members(annotated_members(d.method_annotations, false, m), sets),
        parameter_annotations: moved_members(
            annotated_members(d.parameter_annotations, false, m),
            lists,
        ),
    }
}

/// Whether all members of a list have a new index.
pub open spec fn all_present(list: Seq<(u32, u32)>, is_field: bool, m: Tables) -> bool {
    forall|i: int| 0 <= i < list.len() ==> new_member(m, is_field, (#[trigger] list[i]).0) is Ok
}

/// Whether all members of a directory have a new index.
pub open spec fn directory_present(d: Directory, m: Tables) -> bool {
    &&& all_present(d.field_annotations, true, m)
    &&& all_present(d.method_annotations, false, m)
    &&& all_present(d.parameter_annotations, false, m)
}

/// Members that all have a new index are all kept.
pub proof fn lemma_present_all(
    list: Seq<(u32, u32)>,
    is_field: bool,
    m: Tables,
    i: int,
    kept: Seq<(u32, u32)>,
)
    requires
        0 <= i <= list.len(),
        kept.len() == i,
        all_present(list, is_field, m),
        forall|j: int|
            0 <= j < i ==> #[trigger] kept[j] == (
                new_member(m, is_field, list[j].0)->Ok_0 as u32,
                list[j].1,
            ),
    ensures
        present_members(list, is_field, m, i, kept).len() == list.len(),
        forall|j: int|
            0 <= j < list.len() ==> #[trigger] present_members(list, is_field, m, i, kept)[j] == (
                new_member(m, is_field, list[j].0)->Ok_0 as u32,
                list[j].1,
            ),
    decreases list.len() - i,
{
    if i < list.len() {
        assert(new_member(m, is_field, list[i].0) is Ok);
        let next = kept.push((new_member(m, is_field, list[i].0)->Ok_0 as u32, list[i].1));
        assert forall|j: int| 0 <= j < i + 1 implies #[trigger] next[j] == (
            new_member(m, is_field, list[j].0)->Ok_0 as u32,
            list[j].1,
        ) by {
            if j < i {
                assert(next[j] == kept[j]);
            }
        }
        lemma_present_all(list, is_field, m, i + 1, next);
    }
}

proof fn lemma_members_again(
    list: Seq<(u32, u32)>,
    is_field: bool,
    m: Tables,
    placed: Entries<u32>,
    keys: Seq<u32>,
    t: DexTables,
    n: Tables,
)
    requires
        fixed(t, n),
        ascending(keys),
        forall|id: u32| #[trigger] or_zero(placed, id) == 0 || keys.contains(or_zero(placed, id)),
        all_present(moved_members(annotated_members(list, is_field, m), placed), is_field, n),
    ensures
        ({
            let old = annotated_members(list, is_field, m);
            let new = annotated_members(moved_members(old, placed), is_field, n);
            &&& new.len() == old.len()
            &&& member_words(new, selves(keys)) == member_words(old, placed)
        }),
{
    let kept = present_members(list, is_field, m, 0, Seq::empty());
    let ranks = member_ranks(kept);
    let walk = sort_order(ranks, kept.len());
    let old = annotated_members(list, is_field, m);
    let got = moved_members(old, placed);
    lemma_sort_order(ranks, kept.len());
    lemma_present_all(got, is_field, n, 0, Seq::empty());
    let again = present_members(got, is_field, n, 0, Seq::empty());
    assert forall|j: int| 0 <= j < got.len() implies #[trigger] again[j] == got[j] by {
        let id = got[j].0;
        assert(new_member(n, is_field, id) is Ok);
        assert(n.mapped_field(id) is Ok ==> n.mapped_field(id)->Ok_0 == id);
        assert(n.mapped_method(id) is Ok ==> n.mapped_method(id)->Ok_0 == id);
    }
    assert(again =~= got);
    let more = member_ranks(got);
    assert forall|i: int| 0 <= i < got.len() implies #[trigger] more[i] == ranks[walk[i]] by {}
    assert forall|i: int, j: int|
        #![trigger more[i], more[j]]
        0 <= i < j < more.len() implies !lex_less(more[j], more[i]) by {
        assert(more[i] == ranks[walk[i]]);
        assert(more[j] == ranks[walk[j]]);
        if lex_less(ranks[walk[i]], ranks[walk[j]]) {
            lemma_less_asymmetric(ranks[walk[i]], ranks[walk[j]]);
        } else {
            lemma_less_irreflexive(ranks[walk[i]]);
        }
    }
    lemma_sorted_picked(got, more);
    let a = member_words(got, selves(keys));
    let b = member_words(old, placed);
    assert forall|i: int| 0 <= i < a.len() implies #[trigger] a[i] == b[i] by {
        assert(got[i / 2] == (old[i / 2].0, or_zero(placed, old[i / 2].1)));
        lemma_selves(keys, got[i / 2].1);
    }
    assert(a =~= b);
}

proof fn lemma_directory_again(
    d: Directory,
    m: Tables,
    sets: Entries<u32>,
    lists: Entries<u32>,
    set_keys: Seq<u32>,
    list_keys: Seq<u32>,
    t: DexTables,
    n: Tables,
)
    requires
        fixed(t, n),
        ascending(set_keys),
        ascending(list_keys),
        forall|id: u32| #[trigger] or_zero(sets, id) == 0 || set_keys.contains(or_zero(sets, id)),
        forall|id: u32| #[trigger] or_zero(lists, id) == 0 || list_keys.contains(or_zero(lists, id)),
        directory_present(moved_directory(d, m, sets, lists), n),
    ensures
        directory_words(
            moved_directory(d, m, sets, lists),
            n,
            selves(set_keys),
            selves(list_keys),
        ) == directory_words(d, m, sets, lists),
{
    lemma_members_again(d.field_annotations, true, m, sets, set_keys, t, n);
    lemma_members_again(d.method_annotations, false, m, sets, set_keys, t, n);
    lemma_members_again(d.parameter_annotations, false, m, lists, list_keys, t, n);
    lemma_selves(set_keys, or_zero(sets, d.class_annotations_off));
}

/// Whether `b` is what `a` becomes when it is written and read again.
pub open spec fn rewritten_as(
    a: ClassAnnotations,
    placed: PlacedAnnotations,
    b: ClassAnnotations,
    m: Tables,
    dex: DexTables,
) -> bool {
    &&& a.directory is Some
    &&& b.directory == Some(
        moved_directory(a.directory->Some_0, m, placed.sets, placed.set_refs),
    )
    &&& carried(a.items, placed.items, b.items)
    &&& carried(a.sets, placed.sets, b.sets)
    &&& carried(a.set_refs, placed.set_refs, b.set_refs)
    &&& forall|j: int|
        0 <= j < a.items.keys.len() ==> #[trigger] b.items.values[j] == mapped_item(
            a.items.values[j],
            m,
            dex,
        )
    &&& forall|j: int|
        0 <= j < a.sets.keys.len() ==> #[trigger] b.sets.values[j] == mapped_set(
            a.sets.values[j],
            a.items,
            m,
            placed.items,
        )
    &&& forall|j: int|
        0 <= j < a.set_refs.keys.len() ==> #[trigger] b.set_refs.values[j] == placed_words(
            a.set_refs.values[j],
            placed.sets,
        )
}

/// What is found has been placed.
proof fn lemma_placed_or_none<V>(old: Entries<V>, placed: Entries<u32>, id: u32)
    requires
        old.wf(),
        placed.keys == old.keys,
        placed.values.len() == placed.keys.len(),
    ensures
        or_zero(placed, id) == 0 || placed.values.contains(or_zero(placed, id)),
{
    lemma_rank(placed.keys, id);
    let p = rank_from(placed.keys, id, 0);
    if p < placed.keys.len() && placed.keys[p] == id {
        assert(placed.values[p] == or_zero(placed, id));
    }
}

proof fn lemma_items_mapped(
    base: int,
    items: Entries<Item>,
    i: int,
    m: Tables,
    dex: DexTables,
    data: Seq<u8>,
    offsets: Entries<u32>,
)
    requires
        0 <= i,
        items_section(base, items, i, m, dex, data, offsets) is Ok,
    ensures
        forall|j: int|
            i <= j < items.keys.len() ==> m.mapped_type(
                (#[trigger] items.values[j]).annotation.type_idx,
            ) is Ok,
    decreases items.keys.len() - i,
{
    if i < items.keys.len() {
        let start = data.push(items.values[i].visibility);
        let more = annotation_bytes(items.values[i].annotation, m, dex, start)->Ok_0;
        lemma_items_mapped(
            base,
            items,
            i + 1,
            m,
            dex,
            more,
            offsets.put(items.keys[i], offset_of(base, data)),
        );
    }
}

/// Items that are placed keep their ranks.
proof fn lemma_rank_kept(
    old: Entries<Item>,
    placed: Entries<u32>,
    new: Entries<Item>,
    dex: DexTables,
    m: Tables,
    t: DexTables,
    n: Tables,
    id: u32,
)
    requires
        fixed(t, n),
        carried(old, placed, new),
        placed.values.len() == placed.keys.len(),
        forall|j: int| 0 <= j < placed.keys.len() ==> 0 < #[trigger] placed.values[j],
        forall|j: int|
            0 <= j < old.keys.len() ==> #[trigger] new.values[j] == mapped_item(
                old.values[j],
                m,
                dex,
            ),
        forall|j: int|
            0 <= j < old.keys.len() ==> m.mapped_type(
                (#[trigger] old.values[j]).annotation.type_idx,
            ) is Ok,
        forall|j: int|
            0 <= j < new.keys.len() ==> n.mapped_type(
                (#[trigger] new.values[j]).annotation.type_idx,
            ) is Ok,
    ensures
        rank_kept(old, m, placed, new, n, id),
{
    lemma_rank(old.keys, id);
    let p = rank_from(old.keys, id, 0);
    if p < old.keys.len() && old.keys[p] == id {
        lemma_get_at(old, p);
        assert(or_zero(placed, id) == placed.values[p]);
        lemma_get_at(new, p);
        assert(new.values[p] == mapped_item(old.values[p], m, dex));
        let old_type = m.mapped_type(old.values[p].annotation.type_idx);
        assert(new.values[p].annotation.type_idx == old_type->Ok_0);
        assert(n.mapped_type(new.values[p].annotation.type_idx)->Ok_0
            == new.values[p].annotation.type_idx);
    } else {
        lemma_rank(new.keys, 0);
        let q = rank_from(new.keys, 0, 0);
        if q < new.keys.len() && new.keys[q] == 0 {
            assert(placed.values[q] == 0);
        }
    }
}

/// Whether all keys have got offsets, one behind the other.
pub open spec fn in_places<V>(e: Entries<V>, placed: Entries<u32>) -> bool {
    &&& e.wf()
    &&& placed.keys == e.keys
    &&& placed.values.len() == placed.keys.len()
    &&& ascending(placed.values)
    &&& forall|j: int| 0 <= j < placed.values.len() ==> 0 < #[trigger] placed.values[j]
}

/// Everything that is written is placed.
pub proof fn lemma_annotations_placed(
    base: int,
    a: ClassAnnotations,
    m: Tables,
    dex: DexTables,
    data: Seq<u8>,
)
    requires
        0 < base,
        a.directory is Some,
        a.items.wf(),
        a.sets.wf(),
        a.set_refs.wf(),
        annotations_section(base, a, m, dex, data) is Ok,
        base + annotations_section(base, a, m, dex, data)->Ok_0.0.len() <= u32::MAX,
    ensures
        ({
            let placed = annotations_section(base, a, m, dex, data)->Ok_0.1;
            &&& in_places(a.items, placed.items)
            &&& in_places(a.sets, placed.sets)
            &&& in_places(a.set_refs, placed.set_refs)
        }),
{
    let none = Entries::<u32>::empty();
    let (x, items) = items_section(base, a.items, 0, m, dex, data, none)->Ok_0;
    let (y, sets) = sets_section(base, a.sets, 0, a.items, m, items, padded(x), none);
    let (z, lists) = set_refs_section(base, a.set_refs, 0, sets, padded(y), none);
    lemma_sets_grow(base, a.sets, 0, a.items, m, items, padded(x), none);
    lemma_set_refs_grow(base, a.set_refs, 0, sets, padded(y), none);
    assert(x.len() <= padded(x).len() <= y.len() <= padded(y).len() <= z.len() <= padded(z).len());
    assert(a.items.keys.take(0) =~= Seq::<u32>::empty());
    assert(a.sets.keys.take(0) =~= Seq::<u32>::empty());
    assert(a.set_refs.keys.take(0) =~= Seq::<u32>::empty());
    lemma_items_placed(base, a.items, 0, m, dex, data, none);
    lemma_sets_placed(base, a.sets, 0, a.items, m, items, padded(x), none);
    lemma_lists_placed(base, a.set_refs, 0, sets, padded(y), none);
}

/// Annotations that were written and read again are written as they stand.
#[verifier::spinoff_prover]
pub proof fn lemma_annotations_again(
    base: int,
    a: ClassAnnotations,
    b: ClassAnnotations,
    dex: DexTables,
    m: Tables,
    t: DexTables,
    n: Tables,
    data: Seq<u8>,
)
    requires
        0 < base,
        twice(dex, m, t, n),
        annotations_section(base, a, m, dex, data) is Ok,
        base + annotations_section(base, a, m, dex, data)->Ok_0.0.len() <= u32::MAX,
        rewritten_as(a, annotations_section(base, a, m, dex, data)->Ok_0.1, b, m, dex),
        items_ok(a.items),
        directory_present(b.directory->Some_0, n),
        served(dex, m, t, n),
    ensures
        annotations_section(base, b, n, t, data) is Ok,
        annotations_section(base, b, n, t, data)->Ok_0 == (
            annotations_section(base, a, m, dex, data)->Ok_0.0,
            PlacedAnnotations {
                items: selves(b.items.keys),
                sets: selves(b.sets.keys),
                set_refs: selves(b.set_refs.keys),
                directory: annotations_section(base, a, m, dex, data)->Ok_0.1.directory,
            },
        ),
{
    let d = a.directory->Some_0;
    let none = Entries::<u32>::empty();
    let (x, items) = items_section(base, a.items, 0, m, dex, data, none)->Ok_0;
    let (y, sets) = sets_section(base, a.sets, 0, a.items, m, items, padded(x), none);
    let (z, lists) = set_refs_section(base, a.set_refs, 0, sets, padded(y), none);
    lemma_sets_grow(base, a.sets, 0, a.items, m, items, padded(x), none);
    lemma_set_refs_grow(base, a.set_refs, 0, sets, padded(y), none);
    assert(x.len() <= padded(x).len() <= y.len() <= padded(y).len() <= z.len() <= padded(z).len());
    assert(a.items.keys.take(0) =~= Seq::<u32>::empty());
    assert(a.sets.keys.take(0) =~= Seq::<u32>::empty());
    assert(a.set_refs.keys.take(0) =~= Seq::<u32>::empty());
    assert(b.items.keys.take(0) =~= Seq::<u32>::empty());
    assert(b.sets.keys.take(0) =~= Seq::<u32>::empty());
    assert(b.set_refs.keys.take(0) =~= Seq::<u32>::empty());
    lemma_items_placed(base, a.items, 0, m, dex, data, none);
    lemma_sets_placed(base, a.sets, 0, a.items, m, items, padded(x), none);
    lemma_lists_placed(base, a.set_refs, 0, sets, padded(y), none);
    assert forall|j: int| 0 <= j < a.items.keys.len() implies annotation_ok(
        (#[trigger] a.items.values[j]).annotation,
    ) by {
        lemma_get_at(a.items, j);
        assert(item_ok_at(a.items, a.items.keys[j]));
    }
    lemma_items_again(base, a.items, b.items, 0, dex, m, t, n, data, none);
    lemma_items_mapped(base, a.items, 0, m, dex, data, none);
    lemma_items_mapped(base, b.items, 0, n, t, data, none);
    assert forall|id: u32| #[trigger] rank_kept(a.items, m, items, b.items, n, id) by {
        lemma_rank_kept(a.items, items, b.items, dex, m, t, n, id);
    }
    assert forall|id: u32| #[trigger]
        or_zero(items, id) == 0 || b.items.keys.contains(or_zero(items, id)) by {
        lemma_placed_or_none(a.items, items, id);
    }
    assert forall|id: u32| #[trigger]
        or_zero(sets, id) == 0 || b.sets.keys.contains(or_zero(sets, id)) by {
        lemma_placed_or_none(a.sets, sets, id);
    }
    assert forall|id: u32| #[trigger]
        or_zero(lists, id) == 0 || b.set_refs.keys.contains(or_zero(lists, id)) by {
        lemma_placed_or_none(a.set_refs, lists, id);
    }
    lemma_sets_again(base, a.sets, b.sets, 0, a.items, m, items, b.items, n, padded(x), none);
    lemma_lists_again(base, a.set_refs, b.set_refs, 0, sets, b.sets.keys, padded(y), none);
    lemma_directory_again(d, m, sets, lists, b.sets.keys, b.set_refs.keys, t, n);
}

} // verus!
