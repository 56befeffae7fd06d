//! The annotations and the debug items of a class as they are read: each of
//! them is well formed.
use vstd::prelude::*;

use crate::collections::{lemma_put_get, lemma_rank, rank_from, Entries};
use crate::dex_format::u32_in;
use crate::minidex::debugback::{lemma_debug_in_ok, ops_ok};
use crate::minidex::hollow::{debug_step, debugs_of};
use crate::minidex::metadata::{
    annotated_in, annotated_step, annotations_in, debug_in, item_step, set_in, set_ref_in,
    set_ref_step, AnnotatedKind, Noted,
};
use crate::minidex::reader::Code;
use crate::minidex::valueback::{annotation_ok, lemma_annotation_in_ok};
use crate::minidex::values::{annotation_in, Debugging, Item, RefSets};
use crate::results::run;

verus! {

/// What a key leads to is at its place.
pub proof fn lemma_get_at<V>(e: Entries<V>, i: int)
    requires
        e.wf(),
        0 <= i < e.keys.len(),
    ensures
        e.get(e.keys[i]) == Some(e.values[i]),
{
    let p = rank_from(e.keys, e.keys[i], 0);
    lemma_rank(e.keys, e.keys[i]);
    if p < i {
        assert(e.keys[p] < e.keys[i]);
        lemma_rank_stops(e.keys, e.keys[i], 0);
    } else if i < p {
        assert(e.keys[i] < e.keys[i]);
    }
}

/// The rank of a value is where nothing below it follows.
pub proof fn lemma_rank_stops(s: Seq<u32>, x: u32, i: int)
    requires
        0 <= i <= s.len(),
    ensures
        rank_from(s, x, i) < s.len() ==> s[rank_from(s, x, i)] >= x,
        rank_from(s, x, i) <= s.len(),
    decreases s.len() - i,
{
    if i < s.len() && s[i] < x {
        lemma_rank_stops(s, x, i + 1);
    }
}

/// Whether the item under a key is well formed.
pub open spec fn item_ok_at(items: Entries<Item>, id: u32) -> bool {
    items.get(id) matches Some(item) ==> annotation_ok(item.annotation)
}

/// Whether all annotation items are well formed.
pub open spec fn items_ok(items: Entries<Item>) -> bool {
    &&& items.wf()
    &&& forall|id: u32| #[trigger] item_ok_at(items, id)
}

pub open spec fn noted_ok(s: Noted) -> bool {
    items_ok(s.items) && s.sets.wf() && s.set_refs.wf()
}

proof fn lemma_items_run_ok(
    data: Seq<u8>,
    offset: int,
    s: (Seq<u32>, Noted),
    i: int,
    n: int,
)
    requires
        noted_ok(s.1),
        run(item_step(data, offset), s, i, n) is Ok,
    ensures
        noted_ok(run(item_step(data, offset), s, i, n)->Ok_0.1),
    decreases n - i,
{
    if i < n {
        let next = item_step(data, offset)(s, i)->Ok_0;
        let item_off = u32_in(data, offset + 4 + i * 4)->Ok_0;
        if !(item_off == 0 || s.1.items.get(item_off) is Some) {
            let annotation = annotation_in(data, item_off + 1, s.1.refs)->Ok_0.0;
            let item = Item { visibility: data[item_off as int], annotation };
            lemma_annotation_in_ok(data, item_off + 1, s.1.refs);
            lemma_put_get(s.1.items, item_off, item, 0);
            assert forall|id: u32| #[trigger] item_ok_at(next.1.items, id) by {
                lemma_put_get(s.1.items, item_off, item, id);
                assert(item_ok_at(s.1.items, id));
            }
        }
        lemma_items_run_ok(data, offset, next, i + 1, n);
    }
}

proof fn lemma_set_ok(data: Seq<u8>, offset: u32, s: Noted)
    requires
        noted_ok(s),
        set_in(data, offset, s) is Ok,
    ensures
        noted_ok(set_in(data, offset, s)->Ok_0),
{
    if !(offset == 0 || s.sets.get(offset) is Some) {
        let count = u32_in(data, offset as int)->Ok_0;
        let start = (Seq::<u32>::empty(), s);
        lemma_items_run_ok(data, offset as int, start, 0, count as int);
        let (offsets, t) = run(item_step(data, offset as int), start, 0, count as int)->Ok_0;
        lemma_put_get(t.sets, offset, offsets, 0);
    }
}

proof fn lemma_set_refs_run_ok(
    data: Seq<u8>,
    offset: int,
    s: (Seq<u32>, Noted),
    i: int,
    n: int,
)
    requires
        noted_ok(s.1),
        run(set_ref_step(data, offset), s, i, n) is Ok,
    ensures
        noted_ok(run(set_ref_step(data, offset), s, i, n)->Ok_0.1),
    decreases n - i,
{
    if i < n {
        let next = set_ref_step(data, offset)(s, i)->Ok_0;
        let set_off = u32_in(data, offset + 4 + i * 4)->Ok_0;
        lemma_set_ok(data, set_off, s.1);
        lemma_set_refs_run_ok(data, offset, next, i + 1, n);
    }
}

proof fn lemma_set_ref_ok(data: Seq<u8>, offset: u32, s: Noted)
    requires
        noted_ok(s),
        set_ref_in(data, offset, s) is Ok,
    ensures
        noted_ok(set_ref_in(data, offset, s)->Ok_0),
{
    if !(offset == 0 || s.set_refs.get(offset) is Some) {
        let count = u32_in(data, offset as int)->Ok_0;
        let start = (Seq::<u32>::empty(), s);
        lemma_set_refs_run_ok(data, offset as int, start, 0, count as int);
        let (offsets, t) = run(set_ref_step(data, offset as int), start, 0, count as int)->Ok_0;
        lemma_put_get(t.set_refs, offset, offsets, 0);
    }
}

proof fn lemma_annotated_run_ok(
    data: Seq<u8>,
    start: int,
    kind: AnnotatedKind,
    s: (Seq<(u32, u32)>, Noted),
    i: int,
    n: int,
)
    requires
        noted_ok(s.1),
        run(annotated_step(data, start, kind), s, i, n) is Ok,
    ensures
        noted_ok(run(annotated_step(data, start, kind), s, i, n)->Ok_0.1),
    decreases n - i,
{
    if i < n {
        let next = annotated_step(data, start, kind)(s, i)->Ok_0;
        let index = u32_in(data, start + i * 8)->Ok_0;
        let off = u32_in(data, start + i * 8 + 4)->Ok_0;
        let noted = Noted {
            refs: if kind == AnnotatedKind::Field {
                s.1.refs.with_field(index)
            } else {
                s.1.refs.with_method(index)
            },
            ..s.1
        };
        assert(noted_ok(noted));
        if kind == AnnotatedKind::Parameters {
            lemma_set_ref_ok(data, off, noted);
        } else {
            lemma_set_ok(data, off, noted);
        }
        lemma_annotated_run_ok(data, start, kind, next, i + 1, n);
    }
}

proof fn lemma_annotated_ok(
    data: Seq<u8>,
    start: int,
    kind: AnnotatedKind,
    count: u32,
    s: Noted,
)
    requires
        noted_ok(s),
        annotated_in(data, start, kind, count, s) is Ok,
    ensures
        noted_ok(annotated_in(data, start, kind, count, s)->Ok_0.1),
{
    lemma_annotated_run_ok(
        data,
        start,
        kind,
        (Seq::<(u32, u32)>::empty(), s),
        0,
        count as int,
    );
}

/// The annotations of a class that were read are well formed.
pub proof fn lemma_annotations_ok(data: Seq<u8>, offset: u32, refs: RefSets)
    requires
        annotations_in(data, offset, refs) is Ok,
    ensures
        items_ok(annotations_in(data, offset, refs)->Ok_0.0.items),
        annotations_in(data, offset, refs)->Ok_0.0.sets.wf(),
        annotations_in(data, offset, refs)->Ok_0.0.set_refs.wf(),
{
    let none = Entries::<Item>::empty();
    assert forall|id: u32| #[trigger] item_ok_at(none, id) by {}
    if offset != 0 {
        let s = Noted { sets: Entries::empty(), set_refs: Entries::empty(), items: none, refs };
        let at = offset as int;
        let class_off = u32_in(data, at)->Ok_0;
        let fields = u32_in(data, at + 4)->Ok_0;
        let methods = u32_in(data, at + 8)->Ok_0;
        let parameters = u32_in(data, at + 12)->Ok_0;
        lemma_set_ok(data, class_off, s);
        let t = set_in(data, class_off, s)->Ok_0;
        lemma_annotated_ok(data, at + 16, AnnotatedKind::Field, fields, t);
        let u = annotated_in(data, at + 16, AnnotatedKind::Field, fields, t)->Ok_0.1;
        let second = at + 16 + fields * 8;
        lemma_annotated_ok(data, second, AnnotatedKind::Method, methods, u);
        let v = annotated_in(data, second, AnnotatedKind::Method, methods, u)->Ok_0.1;
        let third = at + 16 + fields * 8 + methods * 8;
        lemma_annotated_ok(data, third, AnnotatedKind::Parameters, parameters, v);
    }
}

/// Whether the debug item under a key is well formed.
pub open spec fn debug_ok_at(debug: Entries<Debugging>, id: u32) -> bool {
    debug.get(id) matches Some(d) ==> ops_ok(d.ops)
}

/// Whether all debug items are well formed.
pub open spec fn debugs_ok(debug: Entries<Debugging>) -> bool {
    &&& debug.wf()
    &&& forall|id: u32| #[trigger] debug_ok_at(debug, id)
}

proof fn lemma_debugs_run_ok(
    data: Seq<u8>,
    codes: Entries<Code>,
    s: (Entries<Debugging>, RefSets),
    i: int,
    n: int,
)
    requires
        debugs_ok(s.0),
        run(debug_step(data, codes), s, i, n) is Ok,
    ensures
        debugs_ok(run(debug_step(data, codes), s, i, n)->Ok_0.0),
    decreases n - i,
{
    if i < n {
        let next = debug_step(data, codes)(s, i)->Ok_0;
        let offset = codes.values[i].debug_info_off;
        if offset != 0 {
            let id = codes.keys[i];
            let d = debug_in(data, offset as int, s.1)->Ok_0.0;
            lemma_debug_in_ok(data, offset as int, s.1);
            lemma_put_get(s.0, id, d, 0);
            assert forall|k: u32| #[trigger] debug_ok_at(next.0, k) by {
                lemma_put_get(s.0, id, d, k);
                assert(debug_ok_at(s.0, k));
            }
        }
        lemma_debugs_run_ok(data, codes, next, i + 1, n);
    }
}

/// The debug items of a class that were read are well formed.
pub proof fn lemma_debugs_ok(data: Seq<u8>, codes: Entries<Code>, refs: RefSets)
    requires
        debugs_of(data, codes, refs) is Ok,
    ensures
        debugs_ok(debugs_of(data, codes, refs)->Ok_0.0),
{
    let none = Entries::<Debugging>::empty();
    assert forall|k: u32| #[trigger] debug_ok_at(none, k) by {}
    lemma_debugs_run_ok(data, codes, (none, refs), 0, codes.keys.len() as int);
}

} // verus!
