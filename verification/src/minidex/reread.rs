//! Annotations that were written are read again: nothing is lost, nothing is
//! added, and everything stands where it was placed.
use vstd::prelude::*;

use crate::collections::{lemma_rank, rank_from, Entries};
use crate::dex_format::u32_in;
use crate::error::Error;
use crate::minidex::canonical::picked;
use crate::minidex::metadata::ClassAnnotations;
use crate::minidex::notes::lemma_get_at;
use crate::minidex::reader::DexTables;
use crate::minidex::renote::{
    all_present, carried, directory_present, in_places, lemma_ascending_same, lemma_present_all,
    mapped_item, mapped_set, moved_directory, moved_members, rewritten_as,
};
use crate::minidex::roam::{
    all_there, cites, item_found, item_read, list_found, list_stands, listed_sets, noted_of, roamed,
    seconds, set_found,
};
use crate::minidex::sections::{
    annotated_members, item_ranks, member_ranks, or_zero, placed_words, present_members,
    PlacedAnnotations,
};
use crate::minidex::tables::Tables;
use crate::minidex::values::Item;
use crate::order::{lemma_sort_order, sort_order};

verus! {

/// A key is found if and only if it is there.
proof fn lemma_has<V>(e: Entries<V>, k: u32)
    requires
        e.wf(),
    ensures
        e.get(k) is Some <==> e.keys.contains(k),
{
    lemma_rank(e.keys, k);
    if e.keys.contains(k) {
        let i = choose|i: int| 0 <= i < e.keys.len() && e.keys[i] == k;
        lemma_get_at(e, i);
    }
    let p = rank_from(e.keys, k, 0);
    if p < e.keys.len() && e.keys[p] == k {
        assert(e.keys.contains(k));
    }
}

/// What is in its place has an offset, and only that.
proof fn lemma_in_place<V>(e: Entries<V>, placed: Entries<u32>, id: u32)
    requires
        in_places(e, placed),
    ensures
        e.get(id) is Some <==> or_zero(placed, id) != 0,
        e.get(id) is Some ==> placed.values.contains(or_zero(placed, id)),
        e.get(id) is Some <==> placed.get(id) is Some,
{
    let p = rank_from(e.keys, id, 0);
    lemma_rank(e.keys, id);
    if p < e.keys.len() && e.keys[p] == id {
        assert(placed.values[p] == or_zero(placed, id));
    }
}

/// What stands in one place is one list.
proof fn lemma_one_list(data: Seq<u8>, k: u32, x: Seq<u32>, y: Seq<u32>)
    requires
        list_stands(data, k, x),
        list_stands(data, k, y),
    ensures
        x == y,
{
    assert(x.len() == y.len());
    assert forall|i: int| 0 <= i < x.len() implies x[i] == y[i] by {
        assert(u32_in(data, k + 4 + i * 4) == Ok::<u32, Error>(x[i]));
        assert(u32_in(data, k + 4 + i * 4) == Ok::<u32, Error>(y[i]));
    }
    assert(x =~= y);
}

/// A member that is present is among those that are written.
pub proof fn lemma_member_written(list: Seq<(u32, u32)>, is_field: bool, m: Tables, i: int) -> (j: int)
    requires
        all_present(list, is_field, m),
        0 <= i < list.len(),
    ensures
        0 <= j < annotated_members(list, is_field, m).len(),
        annotated_members(list, is_field, m)[j].1 == list[i].1,
{
    let kept = present_members(list, is_field, m, 0, Seq::empty());
    lemma_present_all(list, is_field, m, 0, Seq::empty());
    let walk = sort_order(member_ranks(kept), kept.len());
    lemma_sort_order(member_ranks(kept), kept.len());
    assert(walk.contains(i));
    let j = choose|j: int| 0 <= j < walk.len() && walk[j] == i;
    assert(annotated_members(list, is_field, m)[j] == kept[walk[j]]);
    j
}

/// What a member points at is pointed at where it was placed.
proof fn lemma_pointed_at(
    list: Seq<(u32, u32)>,
    is_field: bool,
    m: Tables,
    placed: Entries<u32>,
    id: u32,
)
    requires
        all_present(list, is_field, m),
        seconds(list).contains(id),
    ensures
        seconds(moved_members(annotated_members(list, is_field, m), placed)).contains(
            or_zero(placed, id),
        ),
{
    let i = choose|i: int| 0 <= i < seconds(list).len() && seconds(list)[i] == id;
    let j = lemma_member_written(list, is_field, m, i);
    let out = seconds(moved_members(annotated_members(list, is_field, m), placed));
    assert(out[j] == or_zero(placed, id));
}

/// What is pointed at is the place of something.
proof fn lemma_points_at(list: Seq<(u32, u32)>, placed: Entries<u32>, k: u32) -> (id: u32)
    requires
        seconds(moved_members(list, placed)).contains(k),
    ensures
        k == or_zero(placed, id),
{
    let out = seconds(moved_members(list, placed));
    let j = choose|j: int| 0 <= j < out.len() && out[j] == k;
    list[j].1
}

// ---------------------------------------------------------------------------
// What was written
// ---------------------------------------------------------------------------

pub open spec fn item_back(
    bytes: Seq<u8>,
    a: ClassAnnotations,
    placed: PlacedAnnotations,
    m: Tables,
    dex: DexTables,
    id: u32,
) -> bool {
    a.items.get(id) matches Some(item) ==> forall|got: Item| #[trigger]
        item_read(bytes, or_zero(placed.items, id), got) ==> got == mapped_item(item, m, dex)
}

pub open spec fn set_back(
    bytes: Seq<u8>,
    a: ClassAnnotations,
    placed: PlacedAnnotations,
    m: Tables,
    id: u32,
) -> bool {
    a.sets.get(id) matches Some(set) ==> list_stands(
        bytes,
        or_zero(placed.sets, id),
        mapped_set(set, a.items, m, placed.items),
    )
}

pub open spec fn list_back(
    bytes: Seq<u8>,
    a: ClassAnnotations,
    placed: PlacedAnnotations,
    id: u32,
) -> bool {
    a.set_refs.get(id) matches Some(list) ==> list_stands(
        bytes,
        or_zero(placed.set_refs, id),
        placed_words(list, placed.sets),
    )
}

/// Annotations `a` of one file, where they were placed in another, and what
/// was read there.
pub open spec fn reread(
    data: Seq<u8>,
    from: u32,
    a: ClassAnnotations,
    bytes: Seq<u8>,
    at: u32,
    b: ClassAnnotations,
    placed: PlacedAnnotations,
    m: Tables,
    dex: DexTables,
) -> bool {
    let d = a.directory->Some_0;
    &&& from != 0
    &&& at != 0
    &&& roamed(data, from, a)
    &&& roamed(bytes, at, b)
    &&& in_places(a.items, placed.items)
    &&& in_places(a.sets, placed.sets)
    &&& in_places(a.set_refs, placed.set_refs)
    &&& directory_present(d, m)
    &&& b.directory == Some(moved_directory(d, m, placed.sets, placed.set_refs))
    &&& forall|id: u32| #[trigger] item_back(bytes, a, placed, m, dex, id)
    &&& forall|id: u32| #[trigger] set_back(bytes, a, placed, m, id)
    &&& forall|id: u32| #[trigger] list_back(bytes, a, placed, id)
}

// ---------------------------------------------------------------------------
// Lists of sets
// ---------------------------------------------------------------------------

/// A list of sets is read where it was placed.
proof fn lemma_list_reread(
    data: Seq<u8>,
    from: u32,
    a: ClassAnnotations,
    bytes: Seq<u8>,
    at: u32,
    b: ClassAnnotations,
    placed: PlacedAnnotations,
    m: Tables,
    dex: DexTables,
    id: u32,
)
    requires
        reread(data, from, a, bytes, at, b, placed, m, dex),
        a.set_refs.get(id) is Some,
    ensures
        b.set_refs.get(or_zero(placed.set_refs, id)) == Some(
            placed_words(a.set_refs.get(id)->Some_0, placed.sets),
        ),
{
    let d = a.directory->Some_0;
    let e = b.directory->Some_0;
    let k = or_zero(placed.set_refs, id);
    lemma_in_place(a.set_refs, placed.set_refs, id);
    assert(list_found(data, noted_of(a), seconds(d.parameter_annotations).to_set(), id));
    lemma_pointed_at(d.parameter_annotations, false, m, placed.set_refs, id);
    let out = seconds(e.parameter_annotations);
    let j = choose|j: int| 0 <= j < out.len() && out[j] == k;
    assert(all_there(b.set_refs, out));
    assert(out[j] != 0);
    assert(b.set_refs.get(k) is Some);
    assert(list_found(bytes, noted_of(b), seconds(e.parameter_annotations).to_set(), k));
    assert(list_back(bytes, a, placed, id));
    lemma_one_list(
        bytes,
        k,
        b.set_refs.get(k)->Some_0,
        placed_words(a.set_refs.get(id)->Some_0, placed.sets),
    );
}

/// A list of sets that is read is one that was placed.
proof fn lemma_list_origin(
    data: Seq<u8>,
    from: u32,
    a: ClassAnnotations,
    bytes: Seq<u8>,
    at: u32,
    b: ClassAnnotations,
    placed: PlacedAnnotations,
    m: Tables,
    dex: DexTables,
    k: u32,
) -> (id: u32)
    requires
        reread(data, from, a, bytes, at, b, placed, m, dex),
        b.set_refs.get(k) is Some,
    ensures
        k == or_zero(placed.set_refs, id),
        a.set_refs.get(id) is Some,
{
    let d = a.directory->Some_0;
    let e = b.directory->Some_0;
    assert(list_found(bytes, noted_of(b), seconds(e.parameter_annotations).to_set(), k));
    let id = lemma_points_at(
        annotated_members(d.parameter_annotations, false, m),
        placed.set_refs,
        k,
    );
    lemma_in_place(a.set_refs, placed.set_refs, id);
    id
}

// ---------------------------------------------------------------------------
// Sets
// ---------------------------------------------------------------------------

/// A set that is listed is read where it was placed.
proof fn lemma_set_there(
    data: Seq<u8>,
    from: u32,
    a: ClassAnnotations,
    bytes: Seq<u8>,
    at: u32,
    b: ClassAnnotations,
    placed: PlacedAnnotations,
    m: Tables,
    dex: DexTables,
    id: u32,
)
    requires
        reread(data, from, a, bytes, at, b, placed, m, dex),
        a.sets.get(id) is Some,
    ensures
        b.sets.get(or_zero(placed.sets, id)) is Some,
{
    let d = a.directory->Some_0;
    let e = b.directory->Some_0;
    let k = or_zero(placed.sets, id);
    lemma_in_place(a.sets, placed.sets, id);
    assert(set_found(data, noted_of(a), listed_sets(d), id));
    if cites(a.set_refs, id) {
        let list_id = choose|list_id: u32|
            (#[trigger] a.set_refs.get(list_id)) is Some && a.set_refs.get(
                list_id,
            )->Some_0.contains(id);
        let list = a.set_refs.get(list_id)->Some_0;
        lemma_list_reread(data, from, a, bytes, at, b, placed, m, dex, list_id);
        let i = choose|i: int| 0 <= i < list.len() && list[i] == id;
        let out = placed_words(list, placed.sets);
        let l = or_zero(placed.set_refs, list_id);
        assert(out[i] == k);
        assert(list_found(bytes, noted_of(b), seconds(e.parameter_annotations).to_set(), l));
        assert(all_there(b.sets, out));
    } else if seconds(d.field_annotations).contains(id) {
        lemma_pointed_at(d.field_annotations, true, m, placed.sets, id);
        let out = seconds(e.field_annotations);
        let j = choose|j: int| 0 <= j < out.len() && out[j] == k;
        assert(out[j] != 0);
    } else if seconds(d.method_annotations).contains(id) {
        lemma_pointed_at(d.method_annotations, false, m, placed.sets, id);
        let out = seconds(e.method_annotations);
        let j = choose|j: int| 0 <= j < out.len() && out[j] == k;
        assert(out[j] != 0);
    } else {
        assert(id == d.class_annotations_off);
    }
}

proof fn lemma_set_reread(
    data: Seq<u8>,
    from: u32,
    a: ClassAnnotations,
    bytes: Seq<u8>,
    at: u32,
    b: ClassAnnotations,
    placed: PlacedAnnotations,
    m: Tables,
    dex: DexTables,
    id: u32,
)
    requires
        reread(data, from, a, bytes, at, b, placed, m, dex),
        a.sets.get(id) is Some,
    ensures
        b.sets.get(or_zero(placed.sets, id)) == Some(
            mapped_set(a.sets.get(id)->Some_0, a.items, m, placed.items),
        ),
{
    let k = or_zero(placed.sets, id);
    lemma_set_there(data, from, a, bytes, at, b, placed, m, dex, id);
    assert(set_found(bytes, noted_of(b), listed_sets(b.directory->Some_0), k));
    assert(set_back(bytes, a, placed, m, id));
    lemma_one_list(
        bytes,
        k,
        b.sets.get(k)->Some_0,
        mapped_set(a.sets.get(id)->Some_0, a.items, m, placed.items),
    );
}

proof fn lemma_set_origin(
    data: Seq<u8>,
    from: u32,
    a: ClassAnnotations,
    bytes: Seq<u8>,
    at: u32,
    b: ClassAnnotations,
    placed: PlacedAnnotations,
    m: Tables,
    dex: DexTables,
    k: u32,
) -> (id: u32)
    requires
        reread(data, from, a, bytes, at, b, placed, m, dex),
        b.sets.get(k) is Some,
    ensures
        k == or_zero(placed.sets, id),
        a.sets.get(id) is Some,
{
    let d = a.directory->Some_0;
    let e = b.directory->Some_0;
    assert(set_found(bytes, noted_of(b), listed_sets(e), k));
    let id = if cites(b.set_refs, k) {
        let l = choose|l: u32|
            (#[trigger] b.set_refs.get(l)) is Some && b.set_refs.get(l)->Some_0.contains(k);
        let list_id = lemma_list_origin(data, from, a, bytes, at, b, placed, m, dex, l);
        lemma_list_reread(data, from, a, bytes, at, b, placed, m, dex, list_id);
        let list = a.set_refs.get(list_id)->Some_0;
        let out = placed_words(list, placed.sets);
        let i = choose|i: int| 0 <= i < out.len() && out[i] == k;
        list[i]
    } else if seconds(e.field_annotations).contains(k) {
        lemma_points_at(annotated_members(d.field_annotations, true, m), placed.sets, k)
    } else if seconds(e.method_annotations).contains(k) {
        lemma_points_at(annotated_members(d.method_annotations, false, m), placed.sets, k)
    } else {
        d.class_annotations_off
    };
    lemma_in_place(a.sets, placed.sets, id);
    id
}

// ---------------------------------------------------------------------------
// Items
// ---------------------------------------------------------------------------

proof fn lemma_item_reread(
    data: Seq<u8>,
    from: u32,
    a: ClassAnnotations,
    bytes: Seq<u8>,
    at: u32,
    b: ClassAnnotations,
    placed: PlacedAnnotations,
    m: Tables,
    dex: DexTables,
    id: u32,
)
    requires
        reread(data, from, a, bytes, at, b, placed, m, dex),
        a.items.get(id) is Some,
    ensures
        b.items.get(or_zero(placed.items, id)) == Some(
            mapped_item(a.items.get(id)->Some_0, m, dex),
        ),
{
    let k = or_zero(placed.items, id);
    lemma_in_place(a.items, placed.items, id);
    assert(item_found(data, noted_of(a), Set::empty(), id));
    let set_id = choose|set_id: u32|
        (#[trigger] a.sets.get(set_id)) is Some && a.sets.get(set_id)->Some_0.contains(id);
    let set = a.sets.get(set_id)->Some_0;
    lemma_set_reread(data, from, a, bytes, at, b, placed, m, dex, set_id);
    let i = choose|i: int| 0 <= i < set.len() && set[i] == id;
    let ranks = item_ranks(a.items, m, set);
    let walk = sort_order(ranks, set.len());
    lemma_sort_order(ranks, set.len());
    assert(walk.contains(i));
    let j = choose|j: int| 0 <= j < walk.len() && walk[j] == i;
    let out = mapped_set(set, a.items, m, placed.items);
    assert(picked(set, walk)[j] == id);
    assert(out[j] == k);
    let l = or_zero(placed.sets, set_id);
    assert(set_found(bytes, noted_of(b), listed_sets(b.directory->Some_0), l));
    assert(all_there(b.items, out));
    assert(b.items.get(k) is Some);
    assert(item_found(bytes, noted_of(b), Set::empty(), k));
    assert(item_back(bytes, a, placed, m, dex, id));
}

proof fn lemma_item_origin(
    data: Seq<u8>,
    from: u32,
    a: ClassAnnotations,
    bytes: Seq<u8>,
    at: u32,
    b: ClassAnnotations,
    placed: PlacedAnnotations,
    m: Tables,
    dex: DexTables,
    k: u32,
) -> (id: u32)
    requires
        reread(data, from, a, bytes, at, b, placed, m, dex),
        b.items.get(k) is Some,
    ensures
        k == or_zero(placed.items, id),
        a.items.get(id) is Some,
{
    assert(item_found(bytes, noted_of(b), Set::empty(), k));
    let l = choose|l: u32|
        (#[trigger] b.sets.get(l)) is Some && b.sets.get(l)->Some_0.contains(k);
    let set_id = lemma_set_origin(data, from, a, bytes, at, b, placed, m, dex, l);
    lemma_set_reread(data, from, a, bytes, at, b, placed, m, dex, set_id);
    let set = a.sets.get(set_id)->Some_0;
    let walk = sort_order(item_ranks(a.items, m, set), set.len());
    let out = mapped_set(set, a.items, m, placed.items);
    let i = choose|i: int| 0 <= i < out.len() && out[i] == k;
    let id = picked(set, walk)[i];
    lemma_in_place(a.items, placed.items, id);
    id
}

// ---------------------------------------------------------------------------
// All of it
// ---------------------------------------------------------------------------

/// What is read is what was placed.
proof fn lemma_lists_carried(
    data: Seq<u8>,
    from: u32,
    a: ClassAnnotations,
    bytes: Seq<u8>,
    at: u32,
    b: ClassAnnotations,
    placed: PlacedAnnotations,
    m: Tables,
    dex: DexTables,
)
    requires
        reread(data, from, a, bytes, at, b, placed, m, dex),
    ensures
        carried(a.set_refs, placed.set_refs, b.set_refs),
        forall|j: int|
            0 <= j < a.set_refs.keys.len() ==> #[trigger] b.set_refs.values[j] == placed_words(
                a.set_refs.values[j],
                placed.sets,
            ),
{
    let p = placed.set_refs;
    assert forall|x: u32| #[trigger] b.set_refs.keys.contains(x) <==> p.values.contains(x) by {
        lemma_has(b.set_refs, x);
        if b.set_refs.keys.contains(x) {
            let id = lemma_list_origin(data, from, a, bytes, at, b, placed, m, dex, x);
            lemma_in_place(a.set_refs, p, id);
        }
        if p.values.contains(x) {
            let i = choose|i: int| 0 <= i < p.values.len() && p.values[i] == x;
            lemma_get_at(a.set_refs, i);
            lemma_get_at(p, i);
            lemma_list_reread(data, from, a, bytes, at, b, placed, m, dex, p.keys[i]);
        }
    }
    lemma_ascending_same(b.set_refs.keys, p.values);
    assert forall|j: int| 0 <= j < a.set_refs.keys.len() implies #[trigger] b.set_refs.values[j]
        == placed_words(a.set_refs.values[j], placed.sets) by {
        lemma_get_at(a.set_refs, j);
        lemma_get_at(p, j);
        lemma_get_at(b.set_refs, j);
        lemma_list_reread(data, from, a, bytes, at, b, placed, m, dex, p.keys[j]);
    }
}

proof fn lemma_sets_carried(
    data: Seq<u8>,
    from: u32,
    a: ClassAnnotations,
    bytes: Seq<u8>,
    at: u32,
    b: ClassAnnotations,
    placed: PlacedAnnotations,
    m: Tables,
    dex: DexTables,
)
    requires
        reread(data, from, a, bytes, at, b, placed, m, dex),
    ensures
        carried(a.sets, placed.sets, b.sets),
        forall|j: int|
            0 <= j < a.sets.keys.len() ==> #[trigger] b.sets.values[j] == mapped_set(
                a.sets.values[j],
                a.items,
                m,
                placed.items,
            ),
{
    let p = placed.sets;
    assert forall|x: u32| #[trigger] b.sets.keys.contains(x) <==> p.values.contains(x) by {
        lemma_has(b.sets, x);
        if b.sets.keys.contains(x) {
            let id = lemma_set_origin(data, from, a, bytes, at, b, placed, m, dex, x);
            lemma_in_place(a.sets, p, id);
        }
        if p.values.contains(x) {
            let i = choose|i: int| 0 <= i < p.values.len() && p.values[i] == x;
            lemma_get_at(a.sets, i);
            lemma_get_at(p, i);
            lemma_set_there(data, from, a, bytes, at, b, placed, m, dex, p.keys[i]);
        }
    }
    lemma_ascending_same(b.sets.keys, p.values);
    assert forall|j: int| 0 <= j < a.sets.keys.len() implies #[trigger] b.sets.values[j]
        == mapped_set(a.sets.values[j], a.items, m, placed.items) by {
        lemma_get_at(a.sets, j);
        lemma_get_at(p, j);
        lemma_get_at(b.sets, j);
        lemma_set_reread(data, from, a, bytes, at, b, placed, m, dex, p.keys[j]);
    }
}

proof fn lemma_items_carried(
    data: Seq<u8>,
    from: u32,
    a: ClassAnnotations,
    bytes: Seq<u8>,
    at: u32,
    b: ClassAnnotations,
    placed: PlacedAnnotations,
    m: Tables,
    dex: DexTables,
)
    requires
        reread(data, from, a, bytes, at, b, placed, m, dex),
    ensures
        carried(a.items, placed.items, b.items),
        forall|j: int|
            0 <= j < a.items.keys.len() ==> #[trigger] b.items.values[j] == mapped_item(
                a.items.values[j],
                m,
                dex,
            ),
{
    let p = placed.items;
    assert forall|x: u32| #[trigger] b.items.keys.contains(x) <==> p.values.contains(x) by {
        lemma_has(b.items, x);
        if b.items.keys.contains(x) {
            let id = lemma_item_origin(data, from, a, bytes, at, b, placed, m, dex, x);
            lemma_in_place(a.items, p, id);
        }
        if p.values.contains(x) {
            let i = choose|i: int| 0 <= i < p.values.len() && p.values[i] == x;
            lemma_get_at(a.items, i);
            lemma_get_at(p, i);
            lemma_item_reread(data, from, a, bytes, at, b, placed, m, dex, p.keys[i]);
        }
    }
    lemma_ascending_same(b.items.keys, p.values);
    assert forall|j: int| 0 <= j < a.items.keys.len() implies #[trigger] b.items.values[j]
        == mapped_item(a.items.values[j], m, dex) by {
        lemma_get_at(a.items, j);
        lemma_get_at(p, j);
        lemma_get_at(b.items, j);
        lemma_item_reread(data, from, a, bytes, at, b, placed, m, dex, p.keys[j]);
    }
}

/// Annotations that were written are read as they were placed.
pub proof fn lemma_reread(
    data: Seq<u8>,
    from: u32,
    a: ClassAnnotations,
    bytes: Seq<u8>,
    at: u32,
    b: ClassAnnotations,
    placed: PlacedAnnotations,
    m: Tables,
    dex: DexTables,
)
    requires
        reread(data, from, a, bytes, at, b, placed, m, dex),
    ensures
        rewritten_as(a, placed, b, m, dex),
{
    lemma_lists_carried(data, from, a, bytes, at, b, placed, m, dex);
    lemma_sets_carried(data, from, a, bytes, at, b, placed, m, dex);
    lemma_items_carried(data, from, a, bytes, at, b, placed, m, dex);
}

} // verus!
