//! What reading the annotations of a class comes upon: everything that is
//! listed, nothing else, and each as it stands in the file.
use vstd::prelude::*;

use crate::collections::{lemma_put_get, lemma_rank, lemma_with_member, rank_from, Entries};
use crate::dex_format::u32_in;
use crate::error::Error;
use crate::minidex::holdings::{
    field_parts, lemma_plus_chain, lemma_total_push, lemma_total_within, lemma_within_both,
    method_parts, total, Holdings,
};
use crate::minidex::metadata::{
    annotated_in, annotated_step, annotations_in, item_step, set_in, set_ref_in, set_ref_step,
    AnnotatedKind, ClassAnnotations, Directory, Noted,
};
use crate::minidex::reader::DexTables;
use crate::minidex::values::{annotation_in, IndexKind, Item, RefSets};
use crate::minidex::wants::{
    annotation_needs, index_needs, lemma_annotation_held, lemma_with_held, members_within,
    meta_held, refs_ascend,
};
use crate::results::run;

verus! {

// ---------------------------------------------------------------------------
// What is found
// ---------------------------------------------------------------------------

/// Whether a counted list of offsets stands at `k`.
pub open spec fn list_stands(data: Seq<u8>, k: u32, list: Seq<u32>) -> bool {
    &&& u32_in(data, k as int) == Ok::<u32, Error>(list.len() as u32)
    &&& list.len() <= u32::MAX
    &&& forall|i: int|
        0 <= i < list.len() ==> u32_in(data, k + 4 + i * 4) == Ok::<u32, Error>(#[trigger] list[i])
}

/// Whether an annotation item stands at `k`.
pub open spec fn item_read(data: Seq<u8>, k: u32, item: Item) -> bool {
    &&& k < data.len()
    &&& data[k as int] == item.visibility
    &&& exists|refs: RefSets|
        (#[trigger] annotation_in(data, k + 1, refs)) is Ok && annotation_in(
            data,
            k + 1,
            refs,
        )->Ok_0.0 == item.annotation
}

/// Whether a list cites `k`.
pub open spec fn cites(lists: Entries<Seq<u32>>, k: u32) -> bool {
    exists|id: u32|
        (#[trigger] lists.get(id)) is Some && lists.get(id)->Some_0.contains(k)
}

/// Whether everything that a list cites is there.
pub open spec fn all_there<V>(entries: Entries<V>, list: Seq<u32>) -> bool {
    forall|i: int| 0 <= i < list.len() && #[trigger] list[i] != 0 ==> entries.get(list[i]) is Some
}

/// What holds of each item that was found.
pub open spec fn item_found(data: Seq<u8>, s: Noted, more: Set<u32>, k: u32) -> bool {
    s.items.get(k) matches Some(item) ==> {
        &&& k != 0
        &&& item_read(data, k, item)
        &&& more.contains(k) || cites(s.sets, k)
    }
}

/// What holds of each set that was found.
pub open spec fn set_found(data: Seq<u8>, s: Noted, more: Set<u32>, k: u32) -> bool {
    s.sets.get(k) matches Some(list) ==> {
        &&& k != 0
        &&& list_stands(data, k, list)
        &&& all_there(s.items, list)
        &&& more.contains(k) || cites(s.set_refs, k)
    }
}

/// What holds of each list of sets that was found.
pub open spec fn list_found(data: Seq<u8>, s: Noted, more: Set<u32>, k: u32) -> bool {
    s.set_refs.get(k) matches Some(list) ==> {
        &&& k != 0
        &&& list_stands(data, k, list)
        &&& all_there(s.sets, list)
        &&& more.contains(k)
    }
}

/// What holds of all that was found, given what else is listed.
pub open spec fn found(
    data: Seq<u8>,
    s: Noted,
    items: Set<u32>,
    sets: Set<u32>,
    lists: Set<u32>,
) -> bool {
    &&& s.items.wf()
    &&& s.sets.wf()
    &&& s.set_refs.wf()
    &&& forall|k: u32| #[trigger] item_found(data, s, items, k)
    &&& forall|k: u32| #[trigger] set_found(data, s, sets, k)
    &&& forall|k: u32| #[trigger] list_found(data, s, lists, k)
}

/// Whether entries are still there.
pub open spec fn kept_in<V>(a: Entries<V>, b: Entries<V>) -> bool {
    forall|k: u32| (#[trigger] a.get(k)) is Some ==> b.get(k) == a.get(k)
}

/// Whether all that was found is still there.
pub open spec fn grown(a: Noted, b: Noted) -> bool {
    &&& kept_in(a.items, b.items)
    &&& kept_in(a.sets, b.sets)
    &&& kept_in(a.set_refs, b.set_refs)
    &&& members_within(a.refs, b.refs)
}

pub open spec fn items_needs(dex: DexTables, items: Seq<Item>) -> Seq<Holdings> {
    items.map_values(|x: Item| annotation_needs(dex, x.annotation))
}

/// Whether the references that were collected stand for what was there before
/// and for what the items need.
pub open spec fn refs_of_items(dex: DexTables, s: Noted, start: Holdings) -> bool {
    &&& refs_ascend(s.refs)
    &&& meta_held(dex, s.refs) == start.plus(total(items_needs(dex, s.items.values)))
}

proof fn lemma_inserted(list: Seq<Holdings>, p: int, h: Holdings)
    requires
        0 <= p <= list.len(),
    ensures
        total(list.insert(p, h)) == total(list).plus(h),
{
    let a = list.insert(p, h);
    let b = list.push(h);
    assert forall|i: int| 0 <= i < a.len() implies b.contains(#[trigger] a[i]) by {
        if i < p {
            assert(b[i] == a[i]);
        } else if i == p {
            assert(b[list.len() as int] == a[i]);
        } else {
            assert(b[i - 1] == a[i]);
        }
    }
    assert forall|i: int| 0 <= i < b.len() implies a.contains(#[trigger] b[i]) by {
        if i == list.len() {
            assert(a[p] == b[i]);
        } else if i < p {
            assert(a[i] == b[i]);
        } else {
            assert(a[i + 1] == b[i]);
        }
    }
    lemma_total_within(a, b);
    lemma_total_within(b, a);
    lemma_within_both(total(a), total(b));
    lemma_total_push(list, h);
}

/// A new item adds what it needs.
proof fn lemma_item_put(dex: DexTables, items: Entries<Item>, k: u32, item: Item)
    requires
        items.wf(),
        items.get(k) is None,
    ensures
        total(items_needs(dex, items.put(k, item).values)) == total(
            items_needs(dex, items.values),
        ).plus(annotation_needs(dex, item.annotation)),
{
    let p = rank_from(items.keys, k, 0);
    lemma_rank(items.keys, k);
    lemma_inserted(items_needs(dex, items.values), p, annotation_needs(dex, item.annotation));
    assert(items_needs(dex, items.put(k, item).values) =~= items_needs(dex, items.values).insert(
        p,
        annotation_needs(dex, item.annotation),
    ));
}

proof fn lemma_there_longer<V>(a: Entries<V>, b: Entries<V>, list: Seq<u32>)
    requires
        kept_in(a, b),
        all_there(a, list),
    ensures
        all_there(b, list),
{
    assert forall|i: int| 0 <= i < list.len() && #[trigger] list[i] != 0 implies b.get(
        list[i],
    ) is Some by {
        assert(a.get(list[i]) is Some);
    }
}

proof fn lemma_cites_longer(a: Entries<Seq<u32>>, b: Entries<Seq<u32>>, k: u32)
    requires
        kept_in(a, b),
        cites(a, k),
    ensures
        cites(b, k),
{
    let id = choose|id: u32|
        (#[trigger] a.get(id)) is Some && a.get(id)->Some_0.contains(k);
    assert(b.get(id) == a.get(id));
}

/// More that is listed takes nothing away.
pub proof fn lemma_found_wider(
    data: Seq<u8>,
    s: Noted,
    items: Set<u32>,
    sets: Set<u32>,
    lists: Set<u32>,
    more_items: Set<u32>,
    more_sets: Set<u32>,
    more_lists: Set<u32>,
)
    requires
        found(data, s, items, sets, lists),
        items.subset_of(more_items),
        sets.subset_of(more_sets),
        lists.subset_of(more_lists),
    ensures
        found(data, s, more_items, more_sets, more_lists),
{
    assert forall|k: u32| #[trigger] item_found(data, s, more_items, k) by {
        assert(item_found(data, s, items, k));
    }
    assert forall|k: u32| #[trigger] set_found(data, s, more_sets, k) by {
        assert(set_found(data, s, sets, k));
    }
    assert forall|k: u32| #[trigger] list_found(data, s, more_lists, k) by {
        assert(list_found(data, s, lists, k));
    }
}

// ---------------------------------------------------------------------------
// Items and sets
// ---------------------------------------------------------------------------

/// One more item is found.
proof fn lemma_item_noted(
    data: Seq<u8>,
    dex: DexTables,
    s: Noted,
    items: Set<u32>,
    sets: Set<u32>,
    lists: Set<u32>,
    start: Holdings,
    k: u32,
)
    requires
        found(data, s, items, sets, lists),
        refs_of_items(dex, s, start),
        k != 0,
        k < data.len(),
        s.items.get(k) is None,
        annotation_in(data, k + 1, s.refs) is Ok,
    ensures
        ({
            let (annotation, _, refs) = annotation_in(data, k + 1, s.refs)->Ok_0;
            let item = Item { visibility: data[k as int], annotation };
            let t = Noted { items: s.items.put(k, item), refs, ..s };
            &&& found(data, t, items.insert(k), sets, lists)
            &&& refs_of_items(dex, t, start)
            &&& grown(s, t)
            &&& t.items.get(k) is Some
        }),
{
    let (annotation, _, refs) = annotation_in(data, k + 1, s.refs)->Ok_0;
    let item = Item { visibility: data[k as int], annotation };
    let t = Noted { items: s.items.put(k, item), refs, ..s };
    lemma_put_get(s.items, k, item, k);
    assert forall|j: u32| (#[trigger] s.items.get(j)) is Some implies t.items.get(j)
        == s.items.get(j) by {
        lemma_put_get(s.items, k, item, j);
    }
    assert forall|j: u32| #[trigger] item_found(data, t, items.insert(k), j) by {
        lemma_put_get(s.items, k, item, j);
        assert(item_found(data, s, items, j));
    }
    assert forall|j: u32| #[trigger] set_found(data, t, sets, j) by {
        assert(set_found(data, s, sets, j));
        if let Some(list) = s.sets.get(j) {
            lemma_there_longer(s.items, t.items, list);
        }
    }
    assert forall|j: u32| #[trigger] list_found(data, t, lists, j) by {
        assert(list_found(data, s, lists, j));
    }
    lemma_annotation_held(dex, data, k + 1, s.refs);
    lemma_item_put(dex, s.items, k, item);
    lemma_plus_chain(
        start,
        total(items_needs(dex, s.items.values)),
        annotation_needs(dex, annotation),
    );
}

/// What holds while the items of a set are read.
spec fn set_so_far(
    data: Seq<u8>,
    dex: DexTables,
    offset: u32,
    st: (Seq<u32>, Noted),
    i: int,
    sets: Set<u32>,
    lists: Set<u32>,
    start: Holdings,
) -> bool {
    &&& found(data, st.1, st.0.to_set(), sets, lists)
    &&& refs_of_items(dex, st.1, start)
    &&& st.0.len() == i
    &&& all_there(st.1.items, st.0)
    &&& forall|j: int|
        0 <= j < i ==> u32_in(data, offset + 4 + j * 4) == Ok::<u32, Error>(#[trigger] st.0[j])
}

proof fn lemma_pushed_set(s: Seq<u32>, x: u32)
    ensures
        s.push(x).to_set() == s.to_set().insert(x),
{
    assert forall|y: u32| #[trigger] s.push(x).to_set().contains(y) <==> s.to_set().insert(
        x,
    ).contains(y) by {
        if s.contains(y) {
            let i = choose|i: int| 0 <= i < s.len() && s[i] == y;
            assert(s.push(x)[i] == y);
        }
        if y == x {
            assert(s.push(x)[s.len() as int] == y);
        }
        if s.push(x).contains(y) {
            let i = choose|i: int| 0 <= i < s.push(x).len() && s.push(x)[i] == y;
            if i < s.len() {
                assert(s[i] == y);
            }
        }
    }
    assert(s.push(x).to_set() =~= s.to_set().insert(x));
}

proof fn lemma_items_read(
    data: Seq<u8>,
    dex: DexTables,
    offset: u32,
    st: (Seq<u32>, Noted),
    i: int,
    n: int,
    sets: Set<u32>,
    lists: Set<u32>,
    start: Holdings,
)
    requires
        0 <= i <= n,
        set_so_far(data, dex, offset, st, i, sets, lists, start),
        run(item_step(data, offset as int), st, i, n) is Ok,
    ensures
        ({
            let out = run(item_step(data, offset as int), st, i, n)->Ok_0;
            &&& set_so_far(data, dex, offset, out, n, sets, lists, start)
            &&& grown(st.1, out.1)
            &&& out.1.sets == st.1.sets
            &&& out.1.set_refs == st.1.set_refs
        }),
    decreases n - i,
{
    if i < n {
        let k = u32_in(data, offset + 4 + i * 4)->Ok_0;
        let next = item_step(data, offset as int)(st, i)->Ok_0;
        lemma_pushed_set(st.0, k);
        let s = st.1;
        if k == 0 || s.items.get(k) is Some {
            lemma_found_wider(
                data,
                s,
                st.0.to_set(),
                sets,
                lists,
                next.0.to_set(),
                sets,
                lists,
            );
        } else {
            lemma_item_noted(data, dex, s, st.0.to_set(), sets, lists, start, k);
            lemma_there_longer(s.items, next.1.items, st.0);
        }
        assert(all_there(next.1.items, next.0)) by {
            assert forall|j: int| 0 <= j < next.0.len() && #[trigger] next.0[j] != 0 implies next.1.items.get(
                next.0[j],
            ) is Some by {
                if j < st.0.len() {
                    assert(next.0[j] == st.0[j]);
                }
            }
        }
        assert forall|j: int| 0 <= j < i + 1 implies u32_in(data, offset + 4 + j * 4) == Ok::<
            u32,
            Error,
        >(#[trigger] next.0[j]) by {
            if j < i {
                assert(next.0[j] == st.0[j]);
            }
        }
        lemma_items_read(data, dex, offset, next, i + 1, n, sets, lists, start);
    }
}

/// Reading a set finds it, and what it lists.
proof fn lemma_set_read(
    data: Seq<u8>,
    dex: DexTables,
    offset: u32,
    s: Noted,
    sets: Set<u32>,
    lists: Set<u32>,
    start: Holdings,
)
    requires
        found(data, s, Set::empty(), sets, lists),
        refs_of_items(dex, s, start),
        set_in(data, offset, s) is Ok,
    ensures
        ({
            let t = set_in(data, offset, s)->Ok_0;
            &&& found(data, t, Set::empty(), sets.insert(offset), lists)
            &&& refs_of_items(dex, t, start)
            &&& grown(s, t)
            &&& t.set_refs == s.set_refs
            &&& offset != 0 ==> t.sets.get(offset) is Some
        }),
{
    let none = Set::<u32>::empty();
    if offset == 0 || s.sets.get(offset) is Some {
        lemma_found_wider(data, s, none, sets, lists, none, sets.insert(offset), lists);
    } else {
        let count = u32_in(data, offset as int)->Ok_0;
        let st = (Seq::<u32>::empty(), s);
        assert(st.0.to_set() =~= none);
        lemma_items_read(data, dex, offset, st, 0, count as int, sets, lists, start);
        let (list, u) = run(item_step(data, offset as int), st, 0, count as int)->Ok_0;
        let t = Noted { sets: u.sets.put(offset, list), ..u };
        lemma_put_get(u.sets, offset, list, offset);
        assert forall|k: u32| (#[trigger] u.sets.get(k)) is Some implies t.sets.get(k)
            == u.sets.get(k) by {
            lemma_put_get(u.sets, offset, list, k);
        }
        assert forall|k: u32| #[trigger] item_found(data, t, none, k) by {
            assert(item_found(data, u, list.to_set(), k));
            if t.items.get(k) is Some {
                if list.to_set().contains(k) {
                    assert(t.sets.get(offset)->Some_0.contains(k));
                } else {
                    lemma_cites_longer(u.sets, t.sets, k);
                }
            }
        }
        assert forall|k: u32| #[trigger] set_found(data, t, sets.insert(offset), k) by {
            lemma_put_get(u.sets, offset, list, k);
            assert(set_found(data, u, sets, k));
        }
        assert forall|k: u32| #[trigger] list_found(data, t, lists, k) by {
            assert(list_found(data, u, lists, k));
            if let Some(refs) = u.set_refs.get(k) {
                lemma_there_longer(u.sets, t.sets, refs);
            }
        }
        assert(grown(s, t));
    }
}

// ---------------------------------------------------------------------------
// Lists of sets
// ---------------------------------------------------------------------------

spec fn list_so_far(
    data: Seq<u8>,
    dex: DexTables,
    offset: u32,
    st: (Seq<u32>, Noted),
    i: int,
    sets: Set<u32>,
    lists: Set<u32>,
    start: Holdings,
) -> bool {
    &&& found(data, st.1, Set::empty(), sets.union(st.0.to_set()), lists)
    &&& refs_of_items(dex, st.1, start)
    &&& st.0.len() == i
    &&& all_there(st.1.sets, st.0)
    &&& forall|j: int|
        0 <= j < i ==> u32_in(data, offset + 4 + j * 4) == Ok::<u32, Error>(#[trigger] st.0[j])
}

proof fn lemma_grown_chain(a: Noted, b: Noted, c: Noted)
    requires
        grown(a, b),
        grown(b, c),
    ensures
        grown(a, c),
{
    assert forall|k: u32| (#[trigger] a.items.get(k)) is Some implies c.items.get(k)
        == a.items.get(k) by {
        assert(b.items.get(k) == a.items.get(k));
    }
    assert forall|k: u32| (#[trigger] a.sets.get(k)) is Some implies c.sets.get(k)
        == a.sets.get(k) by {
        assert(b.sets.get(k) == a.sets.get(k));
    }
    assert forall|k: u32| (#[trigger] a.set_refs.get(k)) is Some implies c.set_refs.get(k)
        == a.set_refs.get(k) by {
        assert(b.set_refs.get(k) == a.set_refs.get(k));
    }
}

proof fn lemma_sets_read(
    data: Seq<u8>,
    dex: DexTables,
    offset: u32,
    st: (Seq<u32>, Noted),
    i: int,
    n: int,
    sets: Set<u32>,
    lists: Set<u32>,
    start: Holdings,
)
    requires
        0 <= i <= n,
        list_so_far(data, dex, offset, st, i, sets, lists, start),
        run(set_ref_step(data, offset as int), st, i, n) is Ok,
    ensures
        ({
            let out = run(set_ref_step(data, offset as int), st, i, n)->Ok_0;
            &&& list_so_far(data, dex, offset, out, n, sets, lists, start)
            &&& grown(st.1, out.1)
            &&& out.1.set_refs == st.1.set_refs
        }),
    decreases n - i,
{
    if i < n {
        let k = u32_in(data, offset + 4 + i * 4)->Ok_0;
        let next = set_ref_step(data, offset as int)(st, i)->Ok_0;
        lemma_set_read(data, dex, k, st.1, sets.union(st.0.to_set()), lists, start);
        lemma_pushed_set(st.0, k);
        assert(sets.union(st.0.to_set()).insert(k) =~= sets.union(next.0.to_set()));
        assert(all_there(next.1.sets, next.0)) by {
            lemma_there_longer(st.1.sets, next.1.sets, st.0);
            assert forall|j: int| 0 <= j < next.0.len() && #[trigger] next.0[j] != 0 implies next.1.sets.get(
                next.0[j],
            ) is Some by {
                if j < st.0.len() {
                    assert(next.0[j] == st.0[j]);
                }
            }
        }
        assert forall|j: int| 0 <= j < i + 1 implies u32_in(data, offset + 4 + j * 4) == Ok::<
            u32,
            Error,
        >(#[trigger] next.0[j]) by {
            if j < i {
                assert(next.0[j] == st.0[j]);
            }
        }
        lemma_sets_read(data, dex, offset, next, i + 1, n, sets, lists, start);
        let out = run(set_ref_step(data, offset as int), st, i, n)->Ok_0;
        lemma_grown_chain(st.1, next.1, out.1);
    }
}

/// Reading a list of sets finds it, and what it lists.
proof fn lemma_list_read(
    data: Seq<u8>,
    dex: DexTables,
    offset: u32,
    s: Noted,
    sets: Set<u32>,
    lists: Set<u32>,
    start: Holdings,
)
    requires
        found(data, s, Set::empty(), sets, lists),
        refs_of_items(dex, s, start),
        set_ref_in(data, offset, s) is Ok,
    ensures
        ({
            let t = set_ref_in(data, offset, s)->Ok_0;
            &&& found(data, t, Set::empty(), sets, lists.insert(offset))
            &&& refs_of_items(dex, t, start)
            &&& grown(s, t)
            &&& offset != 0 ==> t.set_refs.get(offset) is Some
        }),
{
    let none = Set::<u32>::empty();
    if offset == 0 || s.set_refs.get(offset) is Some {
        lemma_found_wider(data, s, none, sets, lists, none, sets, lists.insert(offset));
    } else {
        let count = u32_in(data, offset as int)->Ok_0;
        let st = (Seq::<u32>::empty(), s);
        assert(sets.union(st.0.to_set()) =~= sets);
        lemma_sets_read(data, dex, offset, st, 0, count as int, sets, lists, start);
        let (list, u) = run(set_ref_step(data, offset as int), st, 0, count as int)->Ok_0;
        let t = Noted { set_refs: u.set_refs.put(offset, list), ..u };
        lemma_put_get(u.set_refs, offset, list, offset);
        assert forall|k: u32| (#[trigger] u.set_refs.get(k)) is Some implies t.set_refs.get(k)
            == u.set_refs.get(k) by {
            lemma_put_get(u.set_refs, offset, list, k);
        }
        assert forall|k: u32| #[trigger] item_found(data, t, none, k) by {
            assert(item_found(data, u, none, k));
        }
        assert forall|k: u32| #[trigger] set_found(data, t, sets, k) by {
            assert(set_found(data, u, sets.union(list.to_set()), k));
            if t.sets.get(k) is Some && !sets.contains(k) {
                if list.to_set().contains(k) {
                    assert(t.set_refs.get(offset)->Some_0.contains(k));
                } else {
                    lemma_cites_longer(u.set_refs, t.set_refs, k);
                }
            }
        }
        assert forall|k: u32| #[trigger] list_found(data, t, lists.insert(offset), k) by {
            lemma_put_get(u.set_refs, offset, list, k);
            assert(list_found(data, u, lists, k));
        }
        assert(grown(u, t));
        lemma_grown_chain(s, u, t);
    }
}

// ---------------------------------------------------------------------------
// Members and directories
// ---------------------------------------------------------------------------

pub open spec fn firsts(list: Seq<(u32, u32)>) -> Seq<u32> {
    list.map_values(|x: (u32, u32)| x.0)
}

pub open spec fn seconds(list: Seq<(u32, u32)>) -> Seq<u32> {
    list.map_values(|x: (u32, u32)| x.1)
}

/// What annotated members need.
pub open spec fn member_needs(dex: DexTables, kind: AnnotatedKind, list: Seq<(u32, u32)>) -> Seq<
    Holdings,
> {
    if kind == AnnotatedKind::Field {
        field_parts(dex, firsts(list))
    } else {
        method_parts(dex, firsts(list))
    }
}

/// Whether a list of annotated members stands at `at`.
pub open spec fn members_stand(data: Seq<u8>, at: int, list: Seq<(u32, u32)>) -> bool {
    forall|i: int|
        0 <= i < list.len() ==> u32_in(data, at + i * 8) == Ok::<u32, Error>(
            (#[trigger] list[i]).0,
        ) && u32_in(data, at + i * 8 + 4) == Ok::<u32, Error>(list[i].1)
}

/// The sets that a list of members adds to those that are listed.
spec fn more_sets(kind: AnnotatedKind, list: Seq<(u32, u32)>, sets: Set<u32>) -> Set<u32> {
    if kind == AnnotatedKind::Parameters {
        sets
    } else {
        sets.union(seconds(list).to_set())
    }
}

/// The lists of sets that a list of members adds to those that are listed.
spec fn more_lists(kind: AnnotatedKind, list: Seq<(u32, u32)>, lists: Set<u32>) -> Set<u32> {
    if kind == AnnotatedKind::Parameters {
        lists.union(seconds(list).to_set())
    } else {
        lists
    }
}

/// Whether what a list of members points at is there.
pub open spec fn members_there(kind: AnnotatedKind, list: Seq<(u32, u32)>, s: Noted) -> bool {
    if kind == AnnotatedKind::Parameters {
        all_there(s.set_refs, seconds(list))
    } else {
        all_there(s.sets, seconds(list))
    }
}

/// Whether annotated members are among the references.
pub open spec fn members_noted(kind: AnnotatedKind, list: Seq<(u32, u32)>, refs: RefSets) -> bool {
    forall|i: int|
        0 <= i < list.len() ==> if kind == AnnotatedKind::Field {
            refs.fields.contains((#[trigger] list[i]).0)
        } else {
            refs.methods.contains(list[i].0)
        }
}

/// Members stay among references that grow.
pub proof fn lemma_noted_longer(
    kind: AnnotatedKind,
    list: Seq<(u32, u32)>,
    a: RefSets,
    b: RefSets,
)
    requires
        members_noted(kind, list, a),
        members_within(a, b),
    ensures
        members_noted(kind, list, b),
{
    assert forall|i: int| 0 <= i < list.len() implies if kind == AnnotatedKind::Field {
        b.fields.contains((#[trigger] list[i]).0)
    } else {
        b.methods.contains(list[i].0)
    } by {
        assert(a.fields.contains(list[i].0) || a.methods.contains(list[i].0));
    }
}

spec fn members_so_far(
    data: Seq<u8>,
    dex: DexTables,
    at: int,
    kind: AnnotatedKind,
    st: (Seq<(u32, u32)>, Noted),
    i: int,
    sets: Set<u32>,
    lists: Set<u32>,
    start: Holdings,
) -> bool {
    &&& found(
        data,
        st.1,
        Set::empty(),
        more_sets(kind, st.0, sets),
        more_lists(kind, st.0, lists),
    )
    &&& refs_of_items(dex, st.1, start.plus(total(member_needs(dex, kind, st.0))))
    &&& st.0.len() == i
    &&& members_there(kind, st.0, st.1)
    &&& members_noted(kind, st.0, st.1.refs)
    &&& members_stand(data, at, st.0)
}

proof fn lemma_plus_swap(a: Holdings, b: Holdings, c: Holdings)
    ensures
        a.plus(b).plus(c) == a.plus(c).plus(b),
{
    assert(a.plus(b).plus(c) =~= a.plus(c).plus(b));
}

/// Collecting a member adds what it needs.
proof fn lemma_member_noted(
    data: Seq<u8>,
    dex: DexTables,
    kind: AnnotatedKind,
    list: Seq<(u32, u32)>,
    s: Noted,
    index: u32,
    off: u32,
    sets: Set<u32>,
    lists: Set<u32>,
    start: Holdings,
)
    requires
        found(data, s, Set::empty(), sets, lists),
        refs_of_items(dex, s, start.plus(total(member_needs(dex, kind, list)))),
    ensures
        ({
            let refs = if kind == AnnotatedKind::Field {
                s.refs.with_field(index)
            } else {
                s.refs.with_method(index)
            };
            let t = Noted { refs, ..s };
            &&& found(data, t, Set::empty(), sets, lists)
            &&& refs_of_items(
                dex,
                t,
                start.plus(total(member_needs(dex, kind, list.push((index, off))))),
            )
            &&& members_within(s.refs, t.refs)
            &&& if kind == AnnotatedKind::Field {
                t.refs.fields.contains(index)
            } else {
                t.refs.methods.contains(index)
            }
        }),
{
    let refs = if kind == AnnotatedKind::Field {
        s.refs.with_field(index)
    } else {
        s.refs.with_method(index)
    };
    let t = Noted { refs, ..s };
    let items = total(items_needs(dex, s.items.values));
    let before = start.plus(total(member_needs(dex, kind, list)));
    let member = if kind == AnnotatedKind::Field {
        IndexKind::Field
    } else {
        IndexKind::Method
    };
    let more = index_needs(dex, member, index);
    lemma_with_held(dex, s.refs, member, index);
    lemma_with_member(s.refs.fields, index);
    lemma_with_member(s.refs.methods, index);
    lemma_plus_swap(before, items, more);
    lemma_plus_chain(start, total(member_needs(dex, kind, list)), more);
    lemma_total_push(member_needs(dex, kind, list), more);
    assert(member_needs(dex, kind, list.push((index, off))) =~= member_needs(dex, kind, list).push(
        more,
    ));
    assert forall|k: u32| #[trigger] item_found(data, t, Set::empty(), k) by {
        assert(item_found(data, s, Set::empty(), k));
    }
    assert forall|k: u32| #[trigger] set_found(data, t, sets, k) by {
        assert(set_found(data, s, sets, k));
    }
    assert forall|k: u32| #[trigger] list_found(data, t, lists, k) by {
        assert(list_found(data, s, lists, k));
    }
}

/// Adding a member adds what it points at.
proof fn lemma_more(
    kind: AnnotatedKind,
    list: Seq<(u32, u32)>,
    x: (u32, u32),
    sets: Set<u32>,
    lists: Set<u32>,
)
    ensures
        kind == AnnotatedKind::Parameters ==> more_sets(kind, list.push(x), sets) == more_sets(
            kind,
            list,
            sets,
        ) && more_lists(kind, list.push(x), lists) == more_lists(kind, list, lists).insert(x.1),
        kind != AnnotatedKind::Parameters ==> more_lists(kind, list.push(x), lists) == more_lists(
            kind,
            list,
            lists,
        ) && more_sets(kind, list.push(x), sets) == more_sets(kind, list, sets).insert(x.1),
{
    assert(seconds(list.push(x)) =~= seconds(list).push(x.1));
    lemma_pushed_set(seconds(list), x.1);
    assert(lists.union(seconds(list).to_set().insert(x.1)) =~= lists.union(
        seconds(list).to_set(),
    ).insert(x.1));
    assert(sets.union(seconds(list).to_set().insert(x.1)) =~= sets.union(
        seconds(list).to_set(),
    ).insert(x.1));
}

proof fn lemma_members_there_push(
    kind: AnnotatedKind,
    list: Seq<(u32, u32)>,
    x: (u32, u32),
    s: Noted,
    t: Noted,
)
    requires
        members_there(kind, list, s),
        grown(s, t),
        x.1 != 0 && kind == AnnotatedKind::Parameters ==> t.set_refs.get(x.1) is Some,
        x.1 != 0 && kind != AnnotatedKind::Parameters ==> t.sets.get(x.1) is Some,
    ensures
        members_there(kind, list.push(x), t),
{
    let offs = seconds(list);
    let more = seconds(list.push(x));
    assert(more =~= offs.push(x.1));
    if kind == AnnotatedKind::Parameters {
        lemma_there_longer(s.set_refs, t.set_refs, offs);
        assert forall|i: int| 0 <= i < more.len() && #[trigger] more[i] != 0 implies t.set_refs.get(
            more[i],
        ) is Some by {
            if i < offs.len() {
                assert(more[i] == offs[i]);
            }
        }
    } else {
        lemma_there_longer(s.sets, t.sets, offs);
        assert forall|i: int| 0 <= i < more.len() && #[trigger] more[i] != 0 implies t.sets.get(
            more[i],
        ) is Some by {
            if i < offs.len() {
                assert(more[i] == offs[i]);
            }
        }
    }
}

proof fn lemma_members_read(
    data: Seq<u8>,
    dex: DexTables,
    at: int,
    kind: AnnotatedKind,
    st: (Seq<(u32, u32)>, Noted),
    i: int,
    n: int,
    sets: Set<u32>,
    lists: Set<u32>,
    start: Holdings,
)
    requires
        0 <= i <= n,
        members_so_far(data, dex, at, kind, st, i, sets, lists, start),
        run(annotated_step(data, at, kind), st, i, n) is Ok,
    ensures
        ({
            let out = run(annotated_step(data, at, kind), st, i, n)->Ok_0;
            &&& members_so_far(data, dex, at, kind, out, n, sets, lists, start)
            &&& grown(st.1, out.1)
        }),
    decreases n - i,
{
    if i < n {
        let index = u32_in(data, at + i * 8)->Ok_0;
        let off = u32_in(data, at + i * 8 + 4)->Ok_0;
        let next = annotated_step(data, at, kind)(st, i)->Ok_0;
        let s = st.1;
        let some_sets = more_sets(kind, st.0, sets);
        let some_lists = more_lists(kind, st.0, lists);
        let refs = if kind == AnnotatedKind::Field {
            s.refs.with_field(index)
        } else {
            s.refs.with_method(index)
        };
        let t = Noted { refs, ..s };
        lemma_member_noted(data, dex, kind, st.0, s, index, off, some_sets, some_lists, start);
        let begun = start.plus(total(member_needs(dex, kind, st.0.push((index, off)))));
        if kind == AnnotatedKind::Parameters {
            lemma_list_read(data, dex, off, t, some_sets, some_lists, begun);
        } else {
            lemma_set_read(data, dex, off, t, some_sets, some_lists, begun);
        }
        lemma_more(kind, st.0, (index, off), sets, lists);
        assert(grown(s, t));
        lemma_grown_chain(s, t, next.1);
        lemma_members_there_push(kind, st.0, (index, off), s, next.1);
        lemma_noted_longer(kind, st.0, s.refs, next.1.refs);
        assert(members_noted(kind, next.0, next.1.refs)) by {
            assert(t.refs.fields.contains(index) || t.refs.methods.contains(index));
            assert forall|j: int| 0 <= j < next.0.len() implies if kind == AnnotatedKind::Field {
                next.1.refs.fields.contains((#[trigger] next.0[j]).0)
            } else {
                next.1.refs.methods.contains(next.0[j].0)
            } by {
                if j < st.0.len() {
                    assert(next.0[j] == st.0[j]);
                }
            }
        }
        assert forall|j: int| 0 <= j < next.0.len() implies u32_in(data, at + j * 8) == Ok::<
            u32,
            Error,
        >((#[trigger] next.0[j]).0) && u32_in(data, at + j * 8 + 4) == Ok::<u32, Error>(
            next.0[j].1,
        ) by {
            if j < st.0.len() {
                assert(next.0[j] == st.0[j]);
            }
        }
        lemma_members_read(data, dex, at, kind, next, i + 1, n, sets, lists, start);
        let out = run(annotated_step(data, at, kind), st, i, n)->Ok_0;
        lemma_grown_chain(st.1, next.1, out.1);
    }
}

/// Reading one list of annotated members.
proof fn lemma_annotated_read(
    data: Seq<u8>,
    dex: DexTables,
    at: int,
    kind: AnnotatedKind,
    count: u32,
    s: Noted,
    sets: Set<u32>,
    lists: Set<u32>,
    start: Holdings,
)
    requires
        found(data, s, Set::empty(), sets, lists),
        refs_of_items(dex, s, start),
        annotated_in(data, at, kind, count, s) is Ok,
    ensures
        ({
            let (list, t) = annotated_in(data, at, kind, count, s)->Ok_0;
            &&& members_so_far(data, dex, at, kind, (list, t), count as int, sets, lists, start)
            &&& grown(s, t)
        }),
{
    let st = (Seq::<(u32, u32)>::empty(), s);
    assert(seconds(st.0).to_set() =~= Set::<u32>::empty());
    assert(sets.union(Set::empty()) =~= sets);
    assert(lists.union(Set::empty()) =~= lists);
    assert(start.plus(total(member_needs(dex, kind, st.0))) =~= start);
    lemma_members_read(data, dex, at, kind, st, 0, count as int, sets, lists, start);
}

/// What the annotations of a class need.
pub open spec fn annotations_needs(dex: DexTables, a: ClassAnnotations) -> Holdings {
    match a.directory {
        None => Holdings::none(),
        Some(d) => total(field_parts(dex, firsts(d.field_annotations))).plus(
            total(method_parts(dex, firsts(d.method_annotations))),
        ).plus(total(method_parts(dex, firsts(d.parameter_annotations)))).plus(
            total(items_needs(dex, a.items.values)),
        ),
    }
}

/// Whether a directory stands at `at`.
pub open spec fn directory_stands(data: Seq<u8>, at: int, d: Directory) -> bool {
    let fields = d.field_annotations;
    let methods = d.method_annotations;
    let parameters = d.parameter_annotations;
    &&& u32_in(data, at) == Ok::<u32, Error>(d.class_annotations_off)
    &&& u32_in(data, at + 4) == Ok::<u32, Error>(fields.len() as u32)
    &&& u32_in(data, at + 8) == Ok::<u32, Error>(methods.len() as u32)
    &&& u32_in(data, at + 12) == Ok::<u32, Error>(parameters.len() as u32)
    &&& fields.len() <= u32::MAX
    &&& methods.len() <= u32::MAX
    &&& parameters.len() <= u32::MAX
    &&& members_stand(data, at + 16, fields)
    &&& members_stand(data, at + 16 + fields.len() * 8, methods)
    &&& members_stand(data, at + 16 + fields.len() * 8 + methods.len() * 8, parameters)
}

/// Whether the members of a directory are among the references.
pub open spec fn directory_noted(d: Directory, refs: RefSets) -> bool {
    &&& members_noted(AnnotatedKind::Field, d.field_annotations, refs)
    &&& members_noted(AnnotatedKind::Method, d.method_annotations, refs)
    &&& members_noted(AnnotatedKind::Parameters, d.parameter_annotations, refs)
}

/// The sets that a directory lists.
pub open spec fn listed_sets(d: Directory) -> Set<u32> {
    set![d.class_annotations_off].union(seconds(d.field_annotations).to_set()).union(
        seconds(d.method_annotations).to_set(),
    )
}

/// What was found on the way, without the references.
pub open spec fn noted_of(a: ClassAnnotations) -> Noted {
    Noted { sets: a.sets, set_refs: a.set_refs, items: a.items, refs: RefSets::empty() }
}

/// Whether annotations are what the directory at `at` leads to.
pub open spec fn roamed(data: Seq<u8>, at: u32, a: ClassAnnotations) -> bool {
    if at == 0 {
        a.directory is None
    } else {
        let d = a.directory->Some_0;
        &&& a.directory is Some
        &&& directory_stands(data, at as int, d)
        &&& found(
            data,
            noted_of(a),
            Set::empty(),
            listed_sets(d),
            seconds(d.parameter_annotations).to_set(),
        )
        &&& d.class_annotations_off != 0 ==> a.sets.get(d.class_annotations_off) is Some
        &&& all_there(a.sets, seconds(d.field_annotations))
        &&& all_there(a.sets, seconds(d.method_annotations))
        &&& all_there(a.set_refs, seconds(d.parameter_annotations))
    }
}

/// Reading the annotations of a class finds what is listed, and nothing else.
pub proof fn lemma_annotations_read(data: Seq<u8>, dex: DexTables, at: u32, refs: RefSets)
    requires
        refs_ascend(refs),
        annotations_in(data, at, refs) is Ok,
    ensures
        ({
            let (a, r) = annotations_in(data, at, refs)->Ok_0;
            &&& roamed(data, at, a)
            &&& refs_ascend(r)
            &&& meta_held(dex, r) == meta_held(dex, refs).plus(annotations_needs(dex, a))
            &&& a.directory matches Some(d) ==> directory_noted(d, r)
        }),
{
    let start = meta_held(dex, refs);
    let none = Set::<u32>::empty();
    if at == 0 {
        assert(start.plus(Holdings::none()) =~= start);
    } else {
        let (a, r) = annotations_in(data, at, refs)->Ok_0;
        let d = a.directory->Some_0;
        let s = Noted {
            sets: Entries::empty(),
            set_refs: Entries::empty(),
            items: Entries::empty(),
            refs,
        };
        lemma_nothing_found(data, dex, s, start);
        let off = u32_in(data, at as int)->Ok_0;
        let fields = u32_in(data, at + 4)->Ok_0;
        let methods = u32_in(data, at + 8)->Ok_0;
        let parameters = u32_in(data, at + 12)->Ok_0;
        lemma_set_read(data, dex, off, s, none, none, start);
        let t = set_in(data, off, s)->Ok_0;
        let sets = none.insert(off);
        lemma_annotated_read(
            data,
            dex,
            at + 16,
            AnnotatedKind::Field,
            fields,
            t,
            sets,
            none,
            start,
        );
        let (fs, u) = annotated_in(data, at + 16, AnnotatedKind::Field, fields, t)->Ok_0;
        let with_fields = start.plus(total(field_parts(dex, firsts(fs))));
        let sets2 = sets.union(seconds(fs).to_set());
        lemma_annotated_read(
            data,
            dex,
            at + 16 + fields * 8,
            AnnotatedKind::Method,
            methods,
            u,
            sets2,
            none,
            with_fields,
        );
        let (ms, v) = annotated_in(
            data,
            at + 16 + fields * 8,
            AnnotatedKind::Method,
            methods,
            u,
        )->Ok_0;
        let with_methods = with_fields.plus(total(method_parts(dex, firsts(ms))));
        let sets3 = sets2.union(seconds(ms).to_set());
        lemma_annotated_read(
            data,
            dex,
            at + 16 + fields * 8 + methods * 8,
            AnnotatedKind::Parameters,
            parameters,
            v,
            sets3,
            none,
            with_methods,
        );
        let (ps, w) = annotated_in(
            data,
            at + 16 + fields * 8 + methods * 8,
            AnnotatedKind::Parameters,
            parameters,
            v,
        )->Ok_0;
        assert(sets3 =~= listed_sets(d));
        assert(none.union(seconds(ps).to_set()) =~= seconds(ps).to_set());
        lemma_there_longer(v.sets, w.sets, seconds(ms));
        lemma_there_longer(u.sets, v.sets, seconds(fs));
        lemma_there_longer(v.sets, w.sets, seconds(fs));
        lemma_noted_longer(AnnotatedKind::Field, fs, u.refs, v.refs);
        lemma_noted_longer(AnnotatedKind::Field, fs, v.refs, w.refs);
        lemma_noted_longer(AnnotatedKind::Method, ms, v.refs, w.refs);
        lemma_noted_again(data, w, noted_of(a), listed_sets(d), seconds(ps).to_set());
        let f = total(field_parts(dex, firsts(fs)));
        let m = total(method_parts(dex, firsts(ms)));
        let p = total(method_parts(dex, firsts(ps)));
        let i = total(items_needs(dex, a.items.values));
        assert(start.plus(f).plus(m).plus(p).plus(i) =~= start.plus(f.plus(m).plus(p).plus(i)));
    }
}

proof fn lemma_nothing_found(data: Seq<u8>, dex: DexTables, s: Noted, start: Holdings)
    requires
        s.sets == Entries::<Seq<u32>>::empty(),
        s.set_refs == Entries::<Seq<u32>>::empty(),
        s.items == Entries::<Item>::empty(),
        refs_ascend(s.refs),
        meta_held(dex, s.refs) == start,
    ensures
        found(data, s, Set::empty(), Set::empty(), Set::empty()),
        refs_of_items(dex, s, start),
{
    assert(start.plus(total(items_needs(dex, s.items.values))) =~= start);
    assert forall|k: u32| #[trigger] item_found(data, s, Set::empty(), k) by {}
    assert forall|k: u32| #[trigger] set_found(data, s, Set::empty(), k) by {}
    assert forall|k: u32| #[trigger] list_found(data, s, Set::empty(), k) by {}
}

/// What is found does not depend on the references.
proof fn lemma_noted_again(data: Seq<u8>, s: Noted, t: Noted, sets: Set<u32>, lists: Set<u32>)
    requires
        found(data, s, Set::empty(), sets, lists),
        s.items == t.items,
        s.sets == t.sets,
        s.set_refs == t.set_refs,
    ensures
        found(data, t, Set::empty(), sets, lists),
{
    assert forall|k: u32| #[trigger] item_found(data, t, Set::empty(), k) by {
        assert(item_found(data, s, Set::empty(), k));
    }
    assert forall|k: u32| #[trigger] set_found(data, t, sets, k) by {
        assert(set_found(data, s, sets, k));
    }
    assert forall|k: u32| #[trigger] list_found(data, t, lists, k) by {
        assert(list_found(data, s, lists, k));
    }
}

} // verus!
