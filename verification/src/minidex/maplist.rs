//! The map of an extracted file: it lists every kind of items once, in the
//! order of their places, and itself last.
use vstd::prelude::*;

use crate::collections::Entries;
use crate::dex_format::{le16, le32, u32_in};
use crate::error::Error;
use crate::minidex::assemble::{
    data_items, least, listed, listed_places, map_items, map_of, map_ranks, map_words, nonzero,
    table_items, table_off, type_lists, MapItem, Sections,
};
use crate::minidex::canonical::picked;
use crate::minidex::layout::{cut_up, kept_within, lemma_least, Cuts};
use crate::minidex::leb::stands_at;
use crate::minidex::roundtrip::{lemma_word_read, lemma_words_size};
use crate::minidex::sections::words_bytes;
use crate::minidex::tables::Tables;
use crate::minidex::validate::{map_fault, map_types_from};
use crate::order::{lemma_sort_order, less_from, lex_less, sort_order};

verus! {

/// In which turn a kind of items is added to the map.
pub open spec fn turn(typ: u16) -> int {
    if typ < 2 {
        typ as int
    } else if typ == 0x2002 {
        2
    } else if typ < 7 {
        typ + 1
    } else if typ == 0x1001 {
        8
    } else if typ == 0x1002 {
        9
    } else if typ == 0x1003 {
        10
    } else if typ == 0x2006 {
        11
    } else if typ == 0x2004 {
        12
    } else if typ == 0x2000 {
        13
    } else if typ == 0x2001 {
        14
    } else if typ == 0x2003 {
        15
    } else if typ == 0x2005 {
        16
    } else {
        17
    }
}

/// Between which places the items of a kind stand.
pub open spec fn span(typ: u16, m: Tables, cuts: Cuts) -> (int, int) {
    if typ == 0 {
        (0, 0x70)
    } else if typ == 1 {
        (0x70, m.types_at())
    } else if typ == 2 {
        (m.types_at(), m.protos_at())
    } else if typ == 3 {
        (m.protos_at(), m.fields_at())
    } else if typ == 4 {
        (m.fields_at(), m.methods_at())
    } else if typ == 5 {
        (m.methods_at(), m.class_at())
    } else if typ == 6 {
        (m.class_at(), m.data_at())
    } else if typ == 0x2002 {
        (cuts.strings, cuts.lists)
    } else if typ == 0x1001 {
        (cuts.lists, cuts.items)
    } else if typ == 0x2004 {
        (cuts.items, cuts.sets)
    } else if typ == 0x1003 {
        (cuts.sets, cuts.set_refs)
    } else if typ == 0x1002 {
        (cuts.set_refs, cuts.directory)
    } else if typ == 0x2006 {
        (cuts.directory, cuts.statics)
    } else if typ == 0x2005 {
        (cuts.statics, cuts.debug)
    } else if typ == 0x2003 {
        (cuts.debug, cuts.code)
    } else if typ == 0x2001 {
        (cuts.code, cuts.members)
    } else {
        (cuts.members, cuts.end)
    }
}

/// Whether a map item lists something, and stands where its kind stands.
pub open spec fn item_spans(item: MapItem, m: Tables, cuts: Cuts) -> bool {
    &&& item.size != 0
    &&& span(item.typ, m, cuts).0 <= item.offset < span(item.typ, m, cuts).1
}

/// Whether the kinds of the first `k` turns are listed, each at most once.
#[verifier::opaque]
pub open spec fn listing(items: Seq<MapItem>, m: Tables, cuts: Cuts, k: int) -> bool {
    &&& items.len() <= k
    &&& forall|i: int|
        0 <= i < items.len() ==> item_spans(#[trigger] items[i], m, cuts) && turn(items[i].typ) < k
    &&& forall|i: int, j: int|
        0 <= i < j < items.len() ==> turn((#[trigger] items[i]).typ) < turn(
            (#[trigger] items[j]).typ,
        )
}

/// Different kinds stand at different places.
proof fn lemma_kinds_apart(a: u16, b: u16, m: Tables, cuts: Cuts)
    requires
        turn(a) < turn(b) < 17,
        cuts.ordered(),
        cuts.strings == m.data_at(),
    ensures
        span(a, m, cuts).1 <= span(b, m, cuts).0 || span(b, m, cuts).1 <= span(a, m, cuts).0,
{
}

/// One more kind in the map.
proof fn lemma_list_more(
    items: Seq<MapItem>,
    present: bool,
    typ: u16,
    size: int,
    offset: u32,
    m: Tables,
    cuts: Cuts,
)
    requires
        listing(items, m, cuts, turn(typ)),
        present ==> 1 <= size <= u32::MAX && span(typ, m, cuts).0 <= offset < span(
            typ,
            m,
            cuts,
        ).1,
    ensures
        listing(items + listed(present, typ, size, offset), m, cuts, turn(typ) + 1),
{
    reveal(listing);
    reveal(listed);
    let all = items + listed(present, typ, size, offset);
    assert forall|i: int| 0 <= i < all.len() implies item_spans(#[trigger] all[i], m, cuts) && turn(
        all[i].typ,
    ) < turn(typ) + 1 by {
        if i < items.len() {
            assert(all[i] == items[i]);
        }
    }
    assert forall|i: int, j: int| 0 <= i < j < all.len() implies turn((#[trigger] all[i]).typ)
        < turn((#[trigger] all[j]).typ) by {
        assert(all[i] == items[i]);
        if j < items.len() {
            assert(all[j] == items[j]);
        }
    }
}

/// One more kind that stands at several places.
proof fn lemma_list_places(
    items: Seq<MapItem>,
    typ: u16,
    places: Entries<u32>,
    m: Tables,
    cuts: Cuts,
)
    requires
        listing(items, m, cuts, turn(typ)),
        kept_within(places, span(typ, m, cuts).0, span(typ, m, cuts).1),
        span(typ, m, cuts).1 <= u32::MAX,
    ensures
        listing(items + listed_places(typ, places), m, cuts, turn(typ) + 1),
{
    reveal(kept_within);
    if places.keys.len() > 0 {
        lemma_least(places.values, span(typ, m, cuts).0, span(typ, m, cuts).1);
    }
    lemma_list_more(
        items,
        places.keys.len() > 0,
        typ,
        places.keys.len() as int,
        least(places.values),
        m,
        cuts,
    );
}

proof fn lemma_nonzero_fewer(s: Seq<u32>)
    ensures
        nonzero(s).len() <= s.len(),
    decreases s.len(),
{
    if s.len() > 0 {
        lemma_nonzero_fewer(s.drop_last());
    }
}

/// The map items of the tables.
#[verifier::spinoff_prover]
proof fn lemma_table_items(m: Tables, s: Sections, cuts: Cuts)
    requires
        m.ok(),
        cut_up(m, s, cuts),
        cuts.end <= u32::MAX,
    ensures
        listing(table_items(m, s), m, cuts, 8),
{
    let none = Seq::<MapItem>::empty();
    assert(listing(none, m, cuts, 0)) by {
        reveal(listing);
    }
    let strings = m.strings.len() as int;
    let types = m.types.len() as int;
    let protos = m.protos.len() as int;
    let fields = m.fields.len() as int;
    let methods = m.methods.len() as int;
    lemma_list_more(none, true, 0x0000, 1, 0, m, cuts);
    let a = listed(true, 0x0000, 1, 0);
    assert(none + a =~= a);
    let string_ids = table_off(strings, 0x70);
    lemma_list_more(a, strings > 0, 0x0001, strings, string_ids, m, cuts);
    let b = a + listed(strings > 0, 0x0001, strings, string_ids);
    lemma_list_more(b, strings > 0, 0x2002, strings, s.string_offsets[0], m, cuts);
    let c = b + listed(strings > 0, 0x2002, strings, s.string_offsets[0]);
    let type_ids = table_off(types, m.types_at());
    lemma_list_more(c, types > 0, 0x0002, types, type_ids, m, cuts);
    let d = c + listed(types > 0, 0x0002, types, type_ids);
    let proto_ids = table_off(protos, m.protos_at());
    lemma_list_more(d, protos > 0, 0x0003, protos, proto_ids, m, cuts);
    let e = d + listed(protos > 0, 0x0003, protos, proto_ids);
    let field_ids = table_off(fields, m.fields_at());
    lemma_list_more(e, fields > 0, 0x0004, fields, field_ids, m, cuts);
    let f = e + listed(fields > 0, 0x0004, fields, field_ids);
    let method_ids = table_off(methods, m.methods_at());
    lemma_list_more(f, methods > 0, 0x0005, methods, method_ids, m, cuts);
    let g = f + listed(methods > 0, 0x0005, methods, method_ids);
    lemma_list_more(g, true, 0x0006, 1, table_off(1, m.class_at()), m, cuts);
}

/// The map items of the data section.
#[verifier::spinoff_prover]
proof fn lemma_data_items(done: Seq<MapItem>, m: Tables, s: Sections, cuts: Cuts)
    requires
        m.ok(),
        cut_up(m, s, cuts),
        cuts.end <= u32::MAX,
        s.param_offsets.len() == m.protos.len(),
        listing(done, m, cuts, 8),
    ensures
        listing(data_items(done, s), m, cuts, 17),
{
    let lists = type_lists(s);
    let placed = s.annotations;
    lemma_nonzero_fewer(s.param_offsets);
    if lists.len() > 0 {
        lemma_least(lists, cuts.lists, cuts.items);
    }
    let n = lists.len() as int;
    lemma_list_more(done, n > 0, 0x1001, n, least(lists), m, cuts);
    let a = done + listed(n > 0, 0x1001, n, least(lists));
    lemma_list_places(a, 0x1002, placed.set_refs, m, cuts);
    let b = a + listed_places(0x1002, placed.set_refs);
    lemma_list_places(b, 0x1003, placed.sets, m, cuts);
    let c = b + listed_places(0x1003, placed.sets);
    lemma_list_more(c, placed.directory != 0, 0x2006, 1, placed.directory, m, cuts);
    let d = c + listed(placed.directory != 0, 0x2006, 1, placed.directory);
    lemma_list_places(d, 0x2004, placed.items, m, cuts);
    let e = d + listed_places(0x2004, placed.items);
    lemma_list_more(e, s.class_data_off != 0, 0x2000, 1, s.class_data_off, m, cuts);
    let f = e + listed(s.class_data_off != 0, 0x2000, 1, s.class_data_off);
    lemma_list_places(f, 0x2001, s.code_offsets, m, cuts);
    let g = f + listed_places(0x2001, s.code_offsets);
    lemma_list_places(g, 0x2003, s.debug_offsets, m, cuts);
    let h = g + listed_places(0x2003, s.debug_offsets);
    lemma_list_more(h, s.static_values_off != 0, 0x2005, 1, s.static_values_off, m, cuts);
}

/// Whether a map lists something everywhere, no kind twice, and the places in
/// ascending order.
pub open spec fn charted(items: Seq<MapItem>) -> bool {
    &&& forall|i: int| 0 <= i < items.len() ==> (#[trigger] items[i]).size != 0
    &&& forall|i: int, j: int|
        0 <= i < j < items.len() ==> (#[trigger] items[i]).offset < (#[trigger] items[j]).offset
            && items[i].typ != items[j].typ
}

/// Places in order are numbers in order.
proof fn lemma_single_less(a: u32, b: u32)
    requires
        lex_less(seq![a], seq![b]),
    ensures
        a < b,
{
    reveal_with_fuel(less_from, 2);
    assert(seq![a][0] == a && seq![b][0] == b);
}

/// The map is in order, and lists the header, the class and itself.
#[verifier::spinoff_prover]
pub proof fn lemma_map_charted(m: Tables, s: Sections, cuts: Cuts, map_off: u32)
    requires
        m.ok(),
        cut_up(m, s, cuts),
        cuts.end <= u32::MAX,
        s.param_offsets.len() == m.protos.len(),
        cuts.end <= map_off,
    ensures
        charted(map_of(m, s, map_off)),
        map_of(m, s, map_off).len() <= 18,
        exists|i: int| 0 <= i < map_of(m, s, map_off).len() && #[trigger] map_of(m, s, map_off)[i].typ == 0x0000,
        exists|i: int| 0 <= i < map_of(m, s, map_off).len() && #[trigger] map_of(m, s, map_off)[i].typ == 0x0006,
        exists|i: int| 0 <= i < map_of(m, s, map_off).len() && #[trigger] map_of(m, s, map_off)[i].typ == 0x1000,
{
    let items = map_items(m, s);
    lemma_table_items(m, s, cuts);
    lemma_data_items(table_items(m, s), m, s, cuts);
    lemma_sorted_chart(items, m, cuts, map_off);
    reveal(map_of);
    reveal(listed);
    let keys = map_ranks(items);
    let order = sort_order(keys, items.len());
    let all = map_of(m, s, map_off);
    lemma_sort_order(keys, items.len());
    assert(all[items.len() as int].typ == 0x1000);
    let (x, y) = lemma_always_listed(m, s);
    assert(order.contains(x));
    let i = choose|i: int| 0 <= i < order.len() && order[i] == x;
    assert(all[i] == items[x]);
    assert(order.contains(y));
    let j = choose|j: int| 0 <= j < order.len() && order[j] == y;
    assert(all[j] == items[y]);
}

/// Where the header and the class are listed.
proof fn lemma_always_listed(m: Tables, s: Sections) -> (r: (int, int))
    ensures
        0 <= r.0 < map_items(m, s).len(),
        0 <= r.1 < map_items(m, s).len(),
        map_items(m, s)[r.0].typ == 0x0000,
        map_items(m, s)[r.1].typ == 0x0006,
{
    reveal(listed);
    let front = table_items(m, s);
    let all = map_items(m, s);
    let last = front.len() - 1;
    assert(front[0].typ == 0x0000);
    assert(front[last].typ == 0x0006);
    assert(all[0] == front[0]);
    assert(all[last] == front[last]);
    (0, last)
}

#[verifier::spinoff_prover]
proof fn lemma_sorted_chart(items: Seq<MapItem>, m: Tables, cuts: Cuts, map_off: u32)
    requires
        listing(items, m, cuts, 17),
        cuts.ordered(),
        cuts.strings == m.data_at(),
        cuts.end <= map_off,
    ensures
        charted(
            picked(items, sort_order(map_ranks(items), items.len())).push(
                MapItem { typ: 0x1000, size: 1, offset: map_off },
            ),
        ),
        items.len() <= 17,
{
    reveal(listing);
    let keys = map_ranks(items);
    let order = sort_order(keys, items.len());
    let last = MapItem { typ: 0x1000, size: 1, offset: map_off };
    let sorted = picked(items, order);
    let all = sorted.push(last);
    lemma_sort_order(keys, items.len());
    assert forall|i: int, j: int| 0 <= i < j < all.len() implies (#[trigger] all[i]).offset < (
    #[trigger] all[j]).offset && all[i].typ != all[j].typ by {
        let x = order[i];
        assert(all[i] == items[x]);
        lemma_span_below(items[x], m, cuts);
        if j < sorted.len() {
            let y = order[j];
            assert(all[j] == items[y]);
            assert(x != y);
            let (a, b) = if x < y {
                (x, y)
            } else {
                (y, x)
            };
            assert(turn(items[a].typ) < turn(items[b].typ));
            lemma_kinds_apart(items[a].typ, items[b].typ, m, cuts);
            assert(keys[x] == seq![items[x].offset] && keys[y] == seq![items[y].offset]);
            if keys[x] == keys[y] {
                assert(seq![items[x].offset][0] == seq![items[y].offset][0]);
            } else {
                lemma_single_less(items[x].offset, items[y].offset);
            }
        }
    }
    assert forall|i: int| 0 <= i < all.len() implies (#[trigger] all[i]).size != 0 by {
        if i < sorted.len() {
            assert(all[i] == items[order[i]]);
        }
    }
}

/// Everything that is listed stands before the map.
proof fn lemma_span_below(item: MapItem, m: Tables, cuts: Cuts)
    requires
        item_spans(item, m, cuts),
        turn(item.typ) < 17,
        cuts.ordered(),
        cuts.strings == m.data_at(),
    ensures
        item.offset < cuts.end,
        item.typ != 0x1000,
{
}

// ---------------------------------------------------------------------------
// Reading the map
// ---------------------------------------------------------------------------

/// The kinds that a map lists.
pub open spec fn kinds(items: Seq<MapItem>) -> Seq<u16> {
    items.map_values(|x: MapItem| x.typ)
}

/// A map item that stands in a file.
proof fn lemma_item_read(file: Seq<u8>, at: int, items: Seq<MapItem>, i: int)
    requires
        stands_at(file, at, words_bytes(map_words(items))),
        0 <= i < items.len(),
    ensures
        le16(file, at + 4 + i * 12) == items[i].typ,
        le32(file, at + 4 + i * 12 + 4) == items[i].size,
        le32(file, at + 4 + i * 12 + 8) == items[i].offset,
{
    let words = map_words(items);
    let k = 1 + 3 * i;
    assert(words[k] == items[i].typ as u32);
    assert(words[k + 1] == items[i].size);
    assert(words[k + 2] == items[i].offset);
    lemma_word_read(file, at, words, k);
    lemma_word_read(file, at, words, k + 1);
    lemma_word_read(file, at, words, k + 2);
    assert(at + 4 * k == at + 4 + i * 12);
}

proof fn lemma_walked(file: Seq<u8>, at: int, items: Seq<MapItem>, i: int)
    requires
        stands_at(file, at, words_bytes(map_words(items))),
        charted(items),
        0 <= i <= items.len(),
    ensures
        map_types_from(
            file,
            at + 4,
            i,
            items.len() as int,
            kinds(items.take(i)),
            if i == 0 {
                None
            } else {
                Some(items[i - 1].offset)
            },
        ) == Ok::<Seq<u16>, Error>(kinds(items)),
    decreases items.len() - i,
{
    if i < items.len() {
        let seen = kinds(items.take(i));
        lemma_item_read(file, at, items, i);
        assert(!seen.contains(items[i].typ)) by {
            if seen.contains(items[i].typ) {
                let j = choose|j: int| 0 <= j < seen.len() && seen[j] == items[i].typ;
                assert(items[j].typ == items[i].typ);
            }
        }
        if i > 0 {
            assert(items[i - 1].offset < items[i].offset);
        }
        assert(kinds(items.take(i + 1)) =~= seen.push(items[i].typ));
        lemma_walked(file, at, items, i + 1);
    } else {
        assert(items.take(i) =~= items);
    }
}

/// A map that stands in a file where the header says has no fault.
pub proof fn lemma_map_sound(file: Seq<u8>, items: Seq<MapItem>)
    requires
        stands_at(file, le32(file, 0x34) as int, words_bytes(map_words(items))),
        charted(items),
        items.len() <= 18,
        exists|i: int| 0 <= i < items.len() && #[trigger] items[i].typ == 0x0000,
        exists|i: int| 0 <= i < items.len() && #[trigger] items[i].typ == 0x0006,
        exists|i: int| 0 <= i < items.len() && #[trigger] items[i].typ == 0x1000,
    ensures
        map_fault(file) is None,
{
    let at = le32(file, 0x34) as int;
    let words = map_words(items);
    let all = kinds(items);
    lemma_words_size(words);
    lemma_word_read(file, at, words, 0);
    assert(u32_in(file, at) == Ok::<u32, Error>(items.len() as u32));
    assert(kinds(items.take(0)) =~= Seq::<u16>::empty());
    lemma_walked(file, at, items, 0);
    let i = choose|i: int| 0 <= i < items.len() && #[trigger] items[i].typ == 0x0000;
    assert(all[i] == 0x0000u16);
    let j = choose|j: int| 0 <= j < items.len() && #[trigger] items[j].typ == 0x0006;
    assert(all[j] == 0x0006u16);
    let k = choose|k: int| 0 <= k < items.len() && #[trigger] items[k].typ == 0x1000;
    assert(all[k] == 0x1000u16);
}

} // verus!
