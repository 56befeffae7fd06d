//! The kinds of items in the data section stand one behind the other.
use vstd::prelude::*;

use crate::collections::{lemma_rank, low32, rank_from, Entries};
use crate::error::Error;
use crate::minidex::assemble::{least, nonzero, sections_of, type_lists, Sections};
use crate::minidex::emit::{
    annotation_bytes, array_bytes, debug_bytes, names_bytes, padded, string_bytes,
};
use crate::minidex::hollow::Parts;
use crate::minidex::leb::uleb_bytes;
use crate::minidex::metaback::set_ref_bytes;
use crate::minidex::metadata::{ClassAnnotations, Directory};
use crate::minidex::readback::{
    code_head, lemma_annotation_grows, lemma_code_grows, lemma_code_section_grows,
    lemma_debug_grows, lemma_debug_ops_grow, lemma_fields_grow, lemma_items_grow,
    lemma_methods_grow, lemma_names_grow, lemma_params_bytes_grow, lemma_set_refs_grow,
    lemma_sets_grow,
};
use crate::minidex::reader::{Code, DexTables, EncodedMethod, Members};
use crate::minidex::roundtrip::lemma_words_size;
use crate::minidex::sections::{
    annotations_section, class_data_section, code_bytes, code_section, debug_section,
    directory_words, fields_bytes, fields_in_order, interfaces_section, items_section,
    members_bytes, methods_bytes, methods_in_order, offset_of, or_zero, params_section, set_bytes,
    set_refs_section, sets_section, statics_section, strings_section, type_list_bytes, words_bytes,
    PlacedAnnotations,
};
use crate::minidex::tables::{Proto, Tables};
use crate::minidex::valueback::lemma_values_grow;
use crate::minidex::values::{Debugging, Item};

verus! {

/// Whether all numbers lie between two bounds, the upper one excluded.
#[verifier::opaque]
pub open spec fn within(s: Seq<u32>, low: int, high: int) -> bool {
    forall|i: int| 0 <= i < s.len() ==> low <= #[trigger] s[i] < high
}

/// Whether places lie between two bounds, and are no more than there is room
/// for below the upper one.
#[verifier::opaque]
pub open spec fn kept_within(e: Entries<u32>, low: int, high: int) -> bool {
    &&& e.keys.len() == e.values.len()
    &&& e.keys.len() <= high
    &&& within(e.values, low, high)
}

/// Numbers within bounds, with one more put under a key.
proof fn lemma_put_within(e: Entries<u32>, key: u32, value: u32, low: int, high: int, more: int)
    requires
        kept_within(e, low, high),
        high <= value < more,
        low <= value,
    ensures
        kept_within(e.put(key, value), low, more),
{
    reveal(within);
    reveal(kept_within);
    let p = rank_from(e.keys, key, 0);
    lemma_rank(e.keys, key);
    let n = e.put(key, value).values;
    assert forall|i: int| 0 <= i < n.len() implies low <= #[trigger] n[i] < more by {
        if p < e.keys.len() && e.keys[p] == key {
            if i != p {
                assert(n[i] == e.values[i]);
            }
        } else if i < p {
            assert(n[i] == e.values[i]);
        } else if i > p {
            assert(n[i] == e.values[i - 1]);
        }
    }
}

/// The least of some numbers is one of them.
pub proof fn lemma_least(s: Seq<u32>, low: int, high: int)
    requires
        s.len() > 0,
        within(s, low, high),
    ensures
        low <= least(s) < high,
    decreases s.len(),
{
    reveal(within);
    assert(low <= s[s.len() - 1] < high);
    if s.len() > 1 {
        let rest = s.drop_last();
        assert forall|i: int| 0 <= i < rest.len() implies low <= #[trigger] rest[i] < high by {
            assert(rest[i] == s[i]);
        }
        lemma_least(rest, low, high);
    }
}

#[verifier::spinoff_prover]
proof fn lemma_items_within(
    base: int,
    items: Entries<Item>,
    i: int,
    m: Tables,
    dex: DexTables,
    data: Seq<u8>,
    offsets: Entries<u32>,
    low: int,
)
    requires
        0 <= base,
        low <= base + data.len(),
        kept_within(offsets, low, base + data.len()),
        items_section(base, items, i, m, dex, data, offsets) is Ok,
        base + items_section(base, items, i, m, dex, data, offsets)->Ok_0.0.len() <= u32::MAX,
    ensures
        ({
            let (end, all) = items_section(base, items, i, m, dex, data, offsets)->Ok_0;
            &&& data.len() <= end.len()
            &&& kept_within(all, low, base + end.len())
        }),
    decreases items.keys.len() - i,
{
    if i < items.keys.len() {
        let item = items.values[i];
        let start = data.push(item.visibility);
        let more = annotation_bytes(item.annotation, m, dex, start)->Ok_0;
        let next = offsets.put(items.keys[i], offset_of(base, data));
        lemma_annotation_grows(item.annotation, m, dex, start);
        lemma_items_grow(base, items, i + 1, m, dex, more, next);
        lemma_put_within(
            offsets,
            items.keys[i],
            offset_of(base, data),
            low,
            base + data.len(),
            base + more.len(),
        );
        lemma_items_within(base, items, i + 1, m, dex, more, next, low);
    }
}

#[verifier::spinoff_prover]
proof fn lemma_sets_within(
    base: int,
    sets: Entries<Seq<u32>>,
    i: int,
    items: Entries<Item>,
    m: Tables,
    placed: Entries<u32>,
    data: Seq<u8>,
    offsets: Entries<u32>,
    low: int,
)
    requires
        0 <= base,
        low <= base + data.len(),
        kept_within(offsets, low, base + data.len()),
        base + sets_section(base, sets, i, items, m, placed, data, offsets).0.len() <= u32::MAX,
    ensures
        ({
            let (end, all) = sets_section(base, sets, i, items, m, placed, data, offsets);
            &&& data.len() <= end.len()
            &&& kept_within(all, low, base + end.len())
        }),
    decreases sets.keys.len() - i,
{
    if i < sets.keys.len() {
        let part = set_bytes(sets.values[i], items, m, placed);
        let more = data + part;
        let next = offsets.put(sets.keys[i], offset_of(base, data));
        assert(part.len() >= 4);
        lemma_sets_grow(base, sets, i + 1, items, m, placed, more, next);
        lemma_put_within(
            offsets,
            sets.keys[i],
            offset_of(base, data),
            low,
            base + data.len(),
            base + more.len(),
        );
        lemma_sets_within(base, sets, i + 1, items, m, placed, more, next, low);
    }
}

#[verifier::spinoff_prover]
proof fn lemma_set_refs_within(
    base: int,
    set_refs: Entries<Seq<u32>>,
    i: int,
    placed: Entries<u32>,
    data: Seq<u8>,
    offsets: Entries<u32>,
    low: int,
)
    requires
        0 <= base,
        low <= base + data.len(),
        kept_within(offsets, low, base + data.len()),
        base + set_refs_section(base, set_refs, i, placed, data, offsets).0.len() <= u32::MAX,
    ensures
        ({
            let (end, all) = set_refs_section(base, set_refs, i, placed, data, offsets);
            &&& data.len() <= end.len()
            &&& kept_within(all, low, base + end.len())
        }),
    decreases set_refs.keys.len() - i,
{
    if i < set_refs.keys.len() {
        let part = set_ref_bytes(set_refs.values[i], placed);
        let more = data + part;
        let next = offsets.put(set_refs.keys[i], offset_of(base, data));
        assert(part.len() >= 4);
        lemma_set_refs_grow(base, set_refs, i + 1, placed, more, next);
        lemma_put_within(
            offsets,
            set_refs.keys[i],
            offset_of(base, data),
            low,
            base + data.len(),
            base + more.len(),
        );
        lemma_set_refs_within(base, set_refs, i + 1, placed, more, next, low);
    }
}

#[verifier::spinoff_prover]
proof fn lemma_debug_within(
    base: int,
    methods: Seq<EncodedMethod>,
    i: int,
    debug: Entries<Debugging>,
    m: Tables,
    dex: DexTables,
    data: Seq<u8>,
    offsets: Entries<u32>,
    low: int,
)
    requires
        0 <= base,
        low <= base + data.len(),
        kept_within(offsets, low, base + data.len()),
        debug_section(base, methods, i, debug, m, dex, data, offsets) is Ok,
        base + debug_section(base, methods, i, debug, m, dex, data, offsets)->Ok_0.0.len()
            <= u32::MAX,
    ensures
        ({
            let (end, all) = debug_section(base, methods, i, debug, m, dex, data, offsets)->Ok_0;
            &&& data.len() <= end.len()
            &&& kept_within(all, low, base + end.len())
        }),
    decreases methods.len() - i,
{
    if i < methods.len() {
        let id = methods[i].method_idx;
        match debug.get(id) {
            None => {
                lemma_debug_within(base, methods, i + 1, debug, m, dex, data, offsets, low);
            },
            Some(d) => {
                let more = debug_bytes(d, m, dex, data)->Ok_0;
                let next = offsets.put(id, offset_of(base, data));
                lemma_debug_longer(d, m, dex, data);
                lemma_debug_grows(
                    base,
                    methods,
                    i + 1,
                    debug,
                    m,
                    dex,
                    more,
                    next,
                );
                lemma_put_within(
                    offsets,
                    id,
                    offset_of(base, data),
                    low,
                    base + data.len(),
                    base + more.len(),
                );
                lemma_debug_within(base, methods, i + 1, debug, m, dex, more, next, low);
            },
        }
    }
}

/// A debug item is not empty.
proof fn lemma_debug_longer(d: Debugging, m: Tables, dex: DexTables, done: Seq<u8>)
    requires
        debug_bytes(d, m, dex, done) is Ok,
    ensures
        done.len() < debug_bytes(d, m, dex, done)->Ok_0.len(),
{
    let line = uleb_bytes(d.line_start);
    let head = done + line + uleb_bytes(low32(d.parameter_names.len() as int));
    let names = names_bytes(d.parameter_names, 0, m, dex, head)->Ok_0;
    lemma_names_grow(d.parameter_names, 0, m, dex, head);
    lemma_debug_ops_grow(d.ops, 0, m, dex, names);
    assert(line.len() > 0);
}

/// A code item is not empty.
proof fn lemma_code_longer(code: Code, debug_off: u32, done: Seq<u8>)
    requires
        code_bytes(code, debug_off, done) is Ok,
    ensures
        done.len() < code_bytes(code, debug_off, done)->Ok_0.len(),
{
    lemma_code_grows(code, debug_off, done);
    assert(code_head(code, debug_off).len() >= 16);
}

/// Places with that of one more code item.
proof fn lemma_code_put_within(
    base: int,
    id: u32,
    code: Code,
    debug_off: u32,
    data: Seq<u8>,
    offsets: Entries<u32>,
    low: int,
)
    requires
        0 <= base,
        low <= base + data.len(),
        kept_within(offsets, low, base + data.len()),
        code_bytes(code, debug_off, padded(data)) is Ok,
        base + code_bytes(code, debug_off, padded(data))->Ok_0.len() <= u32::MAX,
    ensures
        ({
            let more = code_bytes(code, debug_off, padded(data))->Ok_0;
            &&& data.len() <= more.len()
            &&& kept_within(
                offsets.put(id, offset_of(base, padded(data))),
                low,
                base + more.len(),
            )
        }),
{
    let start = padded(data);
    let more = code_bytes(code, debug_off, start)->Ok_0;
    lemma_code_longer(code, debug_off, start);
    lemma_put_within(
        offsets,
        id,
        offset_of(base, start),
        low,
        base + data.len(),
        base + more.len(),
    );
}

#[verifier::spinoff_prover]
proof fn lemma_code_within(
    base: int,
    methods: Seq<EncodedMethod>,
    i: int,
    codes: Entries<Code>,
    debug: Entries<u32>,
    data: Seq<u8>,
    offsets: Entries<u32>,
    low: int,
)
    requires
        0 <= base,
        low <= base + data.len(),
        kept_within(offsets, low, base + data.len()),
        code_section(base, methods, i, codes, debug, data, offsets) is Ok,
        base + code_section(base, methods, i, codes, debug, data, offsets)->Ok_0.0.len()
            <= u32::MAX,
    ensures
        ({
            let (end, all) = code_section(base, methods, i, codes, debug, data, offsets)->Ok_0;
            &&& data.len() <= end.len()
            &&& kept_within(all, low, base + end.len())
        }),
    decreases methods.len() - i,
{
    if i < methods.len() {
        let id = methods[i].method_idx;
        match codes.get(id) {
            None => {
                lemma_code_within(base, methods, i + 1, codes, debug, data, offsets, low);
            },
            Some(code) => {
                let start = padded(data);
                let debug_off = or_zero(debug, id);
                let more = code_bytes(code, debug_off, start)->Ok_0;
                let next = offsets.put(id, offset_of(base, start));
                lemma_code_section_grows(base, methods, i + 1, codes, debug, more, next);
                lemma_code_put_within(base, id, code, debug_off, data, offsets, low);
                lemma_code_within(base, methods, i + 1, codes, debug, more, next, low);
            },
        }
    }
}

#[verifier::spinoff_prover]
proof fn lemma_params_within(
    base: int,
    protos: Seq<Proto>,
    i: int,
    data: Seq<u8>,
    offsets: Seq<u32>,
    low: int,
)
    requires
        0 < base,
        low <= base + data.len(),
        within(nonzero(offsets), low, base + data.len()),
        base + params_section(base, protos, i, data, offsets).0.len() <= u32::MAX,
    ensures
        ({
            let (end, all) = params_section(base, protos, i, data, offsets);
            &&& data.len() <= end.len()
            &&& within(nonzero(all), low, base + end.len())
        }),
    decreases protos.len() - i,
{
    if i < protos.len() {
        if protos[i].params.len() == 0 {
            let next = offsets.push(0);
            assert(next.drop_last() =~= offsets);
            lemma_params_within(base, protos, i + 1, data, next, low);
        } else {
            let start = padded(data);
            let more = start + type_list_bytes(protos[i].params);
            let offset = offset_of(base, start);
            let next = offsets.push(offset);
            lemma_params_bytes_grow(base, protos, i + 1, more, next);
            assert(type_list_bytes(protos[i].params).len() >= 4);
            assert(offset == base + start.len());
            assert(next.drop_last() =~= offsets);
            let all = nonzero(next);
            assert(all =~= nonzero(offsets).push(offset));
            reveal(within);
            assert forall|k: int| 0 <= k < all.len() implies low <= #[trigger] all[k] < base
                + more.len() by {
                if k < nonzero(offsets).len() {
                    assert(all[k] == nonzero(offsets)[k]);
                }
            }
            lemma_params_within(base, protos, i + 1, more, next, low);
        }
    }
}

/// Where each kind of items starts; each kind ends where the next starts.
pub struct Cuts {
    pub strings: int,
    pub lists: int,
    pub items: int,
    pub sets: int,
    pub set_refs: int,
    pub directory: int,
    pub statics: int,
    pub debug: int,
    pub code: int,
    pub members: int,
    pub end: int,
}

impl Cuts {
    pub open spec fn ordered(self) -> bool {
        &&& self.strings <= self.lists <= self.items <= self.sets <= self.set_refs
        &&& self.set_refs <= self.directory <= self.statics <= self.debug <= self.code
        &&& self.code <= self.members <= self.end
    }
}

/// Whether the annotations stand one kind behind the other.
pub open spec fn notes_cut(placed: PlacedAnnotations, cuts: Cuts) -> bool {
    &&& kept_within(placed.items, cuts.items, cuts.sets)
    &&& kept_within(placed.sets, cuts.sets, cuts.set_refs)
    &&& kept_within(placed.set_refs, cuts.set_refs, cuts.directory)
    &&& placed.directory != 0 ==> cuts.directory <= placed.directory < cuts.statics
}

/// Whether the kinds of items stand one behind the other.
pub open spec fn cut_up(m: Tables, s: Sections, cuts: Cuts) -> bool {
    &&& cuts.ordered()
    &&& cuts.strings == m.data_at()
    &&& cuts.end == m.data_at() + s.data.len()
    &&& m.strings.len() > 0 ==> cuts.strings <= s.string_offsets[0] < cuts.lists
    &&& within(type_lists(s), cuts.lists, cuts.items)
    &&& notes_cut(s.annotations, cuts)
    &&& s.static_values_off != 0 ==> cuts.statics <= s.static_values_off < cuts.debug
    &&& kept_within(s.debug_offsets, cuts.debug, cuts.code)
    &&& kept_within(s.code_offsets, cuts.code, cuts.members)
    &&& s.class_data_off != 0 ==> cuts.members <= s.class_data_off < cuts.end
}

proof fn lemma_first_string(base: int, strings: Seq<Seq<char>>)
    requires
        0 <= base <= u32::MAX,
        strings.len() > 0,
    ensures
        strings_section(base, strings, 0, Seq::empty(), Seq::empty()).1.len() > 0,
        strings_section(base, strings, 0, Seq::empty(), Seq::empty()).1[0] == base,
        strings_section(base, strings, 0, Seq::empty(), Seq::empty()).0.len() > 0,
{
    let none = Seq::<u8>::empty();
    let first = none + string_bytes(strings[0]);
    let offsets = Seq::<u32>::empty().push(offset_of(base, none));
    assert(string_bytes(strings[0]).len() > 0);
    lemma_strings_keep(base, strings, 1, first, offsets);
}

proof fn lemma_strings_keep(
    base: int,
    strings: Seq<Seq<char>>,
    i: int,
    data: Seq<u8>,
    offsets: Seq<u32>,
)
    requires
        offsets.len() > 0,
    ensures
        strings_section(base, strings, i, data, offsets).1.len() > 0,
        strings_section(base, strings, i, data, offsets).1[0] == offsets[0],
        data.len() <= strings_section(base, strings, i, data, offsets).0.len(),
    decreases strings.len() - i,
{
    if i < strings.len() {
        let next = offsets.push(offset_of(base, data));
        assert(next[0] == offsets[0]);
        lemma_strings_keep(base, strings, i + 1, data + string_bytes(strings[i]), next);
    }
}

/// Annotation items, sets and lists of sets stand one kind behind the other.
#[verifier::spinoff_prover]
proof fn lemma_note_kinds(
    base: int,
    a: ClassAnnotations,
    m: Tables,
    dex: DexTables,
    data: Seq<u8>,
    b: Seq<u8>,
    items: Entries<u32>,
    c: Seq<u8>,
    sets: Entries<u32>,
    f: Seq<u8>,
    set_refs: Entries<u32>,
)
    requires
        0 <= base,
        items_section(base, a.items, 0, m, dex, data, Entries::empty()) == Ok::<
            (Seq<u8>, Entries<u32>),
            Error,
        >((b, items)),
        sets_section(base, a.sets, 0, a.items, m, items, padded(b), Entries::empty()) == (c, sets),
        set_refs_section(base, a.set_refs, 0, sets, padded(c), Entries::empty()) == (f, set_refs),
        base + padded(f).len() <= u32::MAX,
    ensures
        data.len() <= b.len() <= padded(b).len() <= c.len() <= padded(c).len() <= f.len(),
        kept_within(items, base + data.len(), base + padded(b).len()),
        kept_within(sets, base + padded(b).len(), base + padded(c).len()),
        kept_within(set_refs, base + padded(c).len(), base + padded(f).len()),
{
    let e = Entries::<u32>::empty();
    let second = padded(b);
    let third = padded(c);
    lemma_sets_grow(base, a.sets, 0, a.items, m, items, second, e);
    lemma_set_refs_grow(base, a.set_refs, 0, sets, third, e);
    lemma_none_within(base + data.len(), base + data.len());
    lemma_none_within(base + second.len(), base + second.len());
    lemma_none_within(base + third.len(), base + third.len());
    lemma_items_within(base, a.items, 0, m, dex, data, e, base + data.len());
    lemma_sets_within(base, a.sets, 0, a.items, m, items, second, e, base + second.len());
    lemma_set_refs_within(base, a.set_refs, 0, sets, third, e, base + third.len());
    lemma_wider(items, base + data.len(), base + b.len(), base + second.len());
    lemma_wider(sets, base + second.len(), base + c.len(), base + third.len());
    lemma_wider(set_refs, base + third.len(), base + f.len(), base + padded(f).len());
}

/// Annotations that were written stand one kind behind the other.
#[verifier::spinoff_prover]
proof fn lemma_notes_within(
    base: int,
    a: ClassAnnotations,
    d: Directory,
    m: Tables,
    dex: DexTables,
    data: Seq<u8>,
    cuts: Cuts,
) -> (r: Cuts)
    requires
        0 <= base,
        a.directory == Some(d),
        annotations_section(base, a, m, dex, data) is Ok,
        base + annotations_section(base, a, m, dex, data)->Ok_0.0.len() <= u32::MAX,
        cuts.items == base + data.len(),
    ensures
        r == (Cuts {
            sets: r.sets,
            set_refs: r.set_refs,
            directory: r.directory,
            statics: base + annotations_section(base, a, m, dex, data)->Ok_0.0.len(),
            ..cuts
        }),
        r.items <= r.sets <= r.set_refs <= r.directory <= r.statics,
        notes_cut(annotations_section(base, a, m, dex, data)->Ok_0.1, r),
{
    let (end, placed) = annotations_section(base, a, m, dex, data)->Ok_0;
    let e = Entries::<u32>::empty();
    let (b, items) = items_section(base, a.items, 0, m, dex, data, e)->Ok_0;
    let (c, sets) = sets_section(base, a.sets, 0, a.items, m, items, padded(b), e);
    let (f, set_refs) = set_refs_section(base, a.set_refs, 0, sets, padded(c), e);
    let words = directory_words(d, m, sets, set_refs);
    lemma_words_size(words);
    assert(words.len() >= 4);
    assert(end == padded(f) + words_bytes(words));
    lemma_note_kinds(base, a, m, dex, data, b, items, c, sets, f, set_refs);
    Cuts {
        sets: base + padded(b).len(),
        set_refs: base + padded(c).len(),
        directory: base + padded(f).len(),
        statics: base + end.len(),
        ..cuts
    }
}

proof fn lemma_none_within(low: int, high: int)
    requires
        0 <= high,
    ensures
        kept_within(Entries::<u32>::empty(), low, high),
        within(Seq::<u32>::empty(), low, high),
{
    reveal(within);
    reveal(kept_within);
}

proof fn lemma_wider(e: Entries<u32>, low: int, high: int, more: int)
    requires
        kept_within(e, low, high),
        high <= more,
    ensures
        kept_within(e, low, more),
{
    reveal(within);
    reveal(kept_within);
}

/// The annotations stand one kind behind the other.
proof fn lemma_annotations_within(
    base: int,
    a: ClassAnnotations,
    m: Tables,
    dex: DexTables,
    data: Seq<u8>,
    cuts: Cuts,
) -> (r: Cuts)
    requires
        0 <= base,
        annotations_section(base, a, m, dex, data) is Ok,
        base + annotations_section(base, a, m, dex, data)->Ok_0.0.len() <= u32::MAX,
        cuts.items == base + data.len(),
    ensures
        r == (Cuts {
            sets: r.sets,
            set_refs: r.set_refs,
            directory: r.directory,
            statics: base + annotations_section(base, a, m, dex, data)->Ok_0.0.len(),
            ..cuts
        }),
        r.items <= r.sets <= r.set_refs <= r.directory <= r.statics,
        notes_cut(annotations_section(base, a, m, dex, data)->Ok_0.1, r),
{
    match a.directory {
        None => {
            let at = base + data.len();
            lemma_none_within(at, at);
            Cuts { sets: at, set_refs: at, directory: at, statics: at, ..cuts }
        },
        Some(d) => lemma_notes_within(base, a, d, m, dex, data, cuts),
    }
}

/// The strings and the type lists stand before the rest.
#[verifier::spinoff_prover]
proof fn lemma_front_cut(
    parts: Parts,
    m: Tables,
    s: Sections,
    a: Seq<u8>,
    b: Seq<u8>,
    c: Seq<u8>,
)
    requires
        strings_section(m.data_at(), m.strings, 0, Seq::empty(), Seq::empty()) == (
            a,
            s.string_offsets,
        ),
        params_section(m.data_at(), m.protos, 0, padded(a), Seq::empty()) == (b, s.param_offsets),
        interfaces_section(m.data_at(), parts.interfaces, m, b) == Ok::<(Seq<u8>, u32), Error>(
            (c, s.interfaces_off),
        ),
        m.data_at() + c.len() <= u32::MAX,
    ensures
        padded(a).len() <= b.len() <= c.len(),
        m.strings.len() > 0 ==> s.string_offsets[0] == m.data_at() && padded(a).len() > 0,
        within(type_lists(s), m.data_at() + padded(a).len(), m.data_at() + c.len()),
{
    let base = m.data_at();
    let none = Seq::<u32>::empty();
    lemma_interfaces_within(base, parts, m, b);
    lemma_none_within(base + padded(a).len(), base + padded(a).len());
    assert(nonzero(none) =~= none);
    lemma_params_within(base, m.protos, 0, padded(a), none, base + padded(a).len());
    lemma_lists_within(s, base + padded(a).len(), base + b.len(), base + c.len());
    if m.strings.len() > 0 {
        lemma_first_string(base, m.strings);
    }
}

/// Class data stands behind the rest.
proof fn lemma_class_data_within(
    base: int,
    c: Members,
    m: Tables,
    code: Entries<u32>,
    data: Seq<u8>,
)
    requires
        0 < base,
        class_data_section(base, c, m, code, data) is Ok,
        base + class_data_section(base, c, m, code, data)->Ok_0.0.len() <= u32::MAX,
    ensures
        ({
            let (end, offset) = class_data_section(base, c, m, code, data)->Ok_0;
            &&& data.len() <= end.len()
            &&& offset != 0 ==> base + data.len() <= offset < base + end.len()
        }),
{
    if !(c.fields().len() == 0 && c.methods().len() == 0) {
        lemma_members_longer(c, m, code, data);
    }
}

/// The debug items and the code stand one kind behind the other.
#[verifier::spinoff_prover]
proof fn lemma_code_cut(
    base: int,
    methods: Seq<EncodedMethod>,
    parts: Parts,
    m: Tables,
    dex: DexTables,
    debug: Entries<u32>,
    code: Entries<u32>,
    f: Seq<u8>,
    g: Seq<u8>,
    h: Seq<u8>,
)
    requires
        0 <= base,
        debug_section(base, methods, 0, parts.debug_info, m, dex, f, Entries::empty()) == Ok::<
            (Seq<u8>, Entries<u32>),
            Error,
        >((g, debug)),
        code_section(base, methods, 0, parts.codes, debug, g, Entries::empty()) == Ok::<
            (Seq<u8>, Entries<u32>),
            Error,
        >((h, code)),
        base + h.len() <= u32::MAX,
    ensures
        f.len() <= g.len() <= h.len(),
        kept_within(debug, base + f.len(), base + g.len()),
        kept_within(code, base + g.len(), base + h.len()),
{
    let e = Entries::<u32>::empty();
    lemma_none_within(base + f.len(), base + f.len());
    lemma_none_within(base + g.len(), base + g.len());
    lemma_code_within(base, methods, 0, parts.codes, debug, g, e, base + g.len());
    lemma_debug_within(base, methods, 0, parts.debug_info, m, dex, f, e, base + f.len());
}

/// The kinds of items in the data section stand one behind the other.
#[verifier::spinoff_prover]
pub proof fn lemma_cut_up(members: Members, parts: Parts, m: Tables, dex: DexTables) -> (cuts: Cuts)
    requires
        sections_of(members, parts, m, dex) is Ok,
        m.data_at() + sections_of(members, parts, m, dex)->Ok_0.data.len() <= u32::MAX,
    ensures
        cut_up(m, sections_of(members, parts, m, dex)->Ok_0, cuts),
{
    let s = sections_of(members, parts, m, dex)->Ok_0;
    let (a, b, c, d, f, g, h) = lemma_seven_sections(members, parts, m, dex);
    let base = m.data_at();
    let methods = methods_in_order(members.methods(), m);
    lemma_class_data_within(base, members, m, s.code_offsets, h);
    lemma_code_cut(base, methods, parts, m, dex, s.debug_offsets, s.code_offsets, f, g, h);
    lemma_statics_within(base, parts, m, dex, d);
    let first = Cuts {
        strings: base,
        lists: base + padded(a).len(),
        items: base + c.len(),
        sets: 0,
        set_refs: 0,
        directory: 0,
        statics: 0,
        debug: base + f.len(),
        code: base + g.len(),
        members: base + h.len(),
        end: base + s.data.len(),
    };
    let cuts = lemma_annotations_within(base, parts.annotations, m, dex, c, first);
    lemma_front_cut(parts, m, s, a, b, c);
    cuts
}

/// The data section between its parts.
#[verifier::spinoff_prover]
proof fn lemma_seven_sections(members: Members, parts: Parts, m: Tables, dex: DexTables) -> (r: (
    Seq<u8>,
    Seq<u8>,
    Seq<u8>,
    Seq<u8>,
    Seq<u8>,
    Seq<u8>,
    Seq<u8>,
))
    requires
        sections_of(members, parts, m, dex) is Ok,
    ensures
        ({
            let s = sections_of(members, parts, m, dex)->Ok_0;
            let base = m.data_at();
            let methods = methods_in_order(members.methods(), m);
            let e = Entries::<u32>::empty();
            let none = Seq::<u32>::empty();
            &&& strings_section(base, m.strings, 0, Seq::empty(), none) == (r.0, s.string_offsets)
            &&& params_section(base, m.protos, 0, padded(r.0), none) == (r.1, s.param_offsets)
            &&& interfaces_section(base, parts.interfaces, m, r.1) == Ok::<(Seq<u8>, u32), Error>(
                (r.2, s.interfaces_off),
            )
            &&& annotations_section(base, parts.annotations, m, dex, r.2) == Ok::<
                (Seq<u8>, PlacedAnnotations),
                Error,
            >((r.3, s.annotations))
            &&& statics_section(base, parts.static_values, m, dex, r.3) == Ok::<
                (Seq<u8>, u32),
                Error,
            >((r.4, s.static_values_off))
            &&& debug_section(base, methods, 0, parts.debug_info, m, dex, r.4, e) == Ok::<
                (Seq<u8>, Entries<u32>),
                Error,
            >((r.5, s.debug_offsets))
            &&& code_section(base, methods, 0, parts.codes, s.debug_offsets, r.5, e) == Ok::<
                (Seq<u8>, Entries<u32>),
                Error,
            >((r.6, s.code_offsets))
            &&& class_data_section(base, members, m, s.code_offsets, r.6) == Ok::<
                (Seq<u8>, u32),
                Error,
            >((s.data, s.class_data_off))
        }),
{
    reveal(sections_of);
    let base = m.data_at();
    let none = Seq::<u32>::empty();
    let e = Entries::<u32>::empty();
    let methods = methods_in_order(members.methods(), m);
    let (a, string_offsets) = strings_section(base, m.strings, 0, Seq::empty(), none);
    let (b, param_offsets) = params_section(base, m.protos, 0, padded(a), none);
    let (c, interfaces_off) = interfaces_section(base, parts.interfaces, m, b)->Ok_0;
    let (d, annotations) = annotations_section(base, parts.annotations, m, dex, c)->Ok_0;
    let (f, static_values_off) = statics_section(base, parts.static_values, m, dex, d)->Ok_0;
    let (g, debug) = debug_section(base, methods, 0, parts.debug_info, m, dex, f, e)->Ok_0;
    let (h, code) = code_section(base, methods, 0, parts.codes, debug, g, e)->Ok_0;
    (a, b, c, d, f, g, h)
}

proof fn lemma_lists_within(s: Sections, low: int, middle: int, high: int)
    requires
        low <= middle <= high,
        within(nonzero(s.param_offsets), low, middle),
        s.interfaces_off != 0 ==> middle <= s.interfaces_off < high,
    ensures
        within(type_lists(s), low, high),
{
    reveal(within);
    let all = type_lists(s);
    let some = nonzero(s.param_offsets);
    assert forall|i: int| 0 <= i < all.len() implies low <= #[trigger] all[i] < high by {
        if i < some.len() {
            assert(all[i] == some[i]);
        }
    }
}

proof fn lemma_interfaces_within(base: int, parts: Parts, m: Tables, data: Seq<u8>)
    requires
        0 < base,
        interfaces_section(base, parts.interfaces, m, data) is Ok,
        base + interfaces_section(base, parts.interfaces, m, data)->Ok_0.0.len() <= u32::MAX,
    ensures
        ({
            let (end, offset) = interfaces_section(base, parts.interfaces, m, data)->Ok_0;
            &&& data.len() <= end.len()
            &&& offset != 0 ==> base + data.len() <= offset < base + end.len()
        }),
{
}

proof fn lemma_statics_within(base: int, parts: Parts, m: Tables, dex: DexTables, data: Seq<u8>)
    requires
        0 < base,
        statics_section(base, parts.static_values, m, dex, data) is Ok,
        base + statics_section(base, parts.static_values, m, dex, data)->Ok_0.0.len() <= u32::MAX,
    ensures
        ({
            let (end, offset) = statics_section(base, parts.static_values, m, dex, data)->Ok_0;
            &&& data.len() <= end.len()
            &&& offset != 0 ==> base + data.len() <= offset < base + end.len()
        }),
{
    if let Some(items) = parts.static_values {
        let bytes = array_bytes(items, m, dex)->Ok_0;
        let head = uleb_bytes(low32(items.len() as int));
        lemma_values_grow(items, 0, m, dex, head);
        assert(head.len() > 0);
    }
}

/// Class data is not empty.
proof fn lemma_members_longer(c: Members, m: Tables, code: Entries<u32>, done: Seq<u8>)
    requires
        members_bytes(c, m, code, done) is Ok,
    ensures
        done.len() < members_bytes(c, m, code, done)->Ok_0.len(),
{
    let first = uleb_bytes(low32(c.static_fields.len() as int));
    let head = done + first + uleb_bytes(low32(c.instance_fields.len() as int)) + uleb_bytes(
        low32(c.direct_methods.len() as int),
    ) + uleb_bytes(low32(c.virtual_methods.len() as int));
    let a = fields_bytes(fields_in_order(c.static_fields, m), 0, 0, m, head)->Ok_0;
    let b = fields_bytes(fields_in_order(c.instance_fields, m), 0, 0, m, a)->Ok_0;
    let directs = methods_in_order(c.direct_methods, m);
    let d = methods_bytes(directs, 0, 0, m, code, b)->Ok_0;
    lemma_fields_grow(fields_in_order(c.static_fields, m), 0, 0, m, head);
    lemma_fields_grow(fields_in_order(c.instance_fields, m), 0, 0, m, a);
    lemma_methods_grow(directs, 0, 0, m, code, b);
    lemma_methods_grow(methods_in_order(c.virtual_methods, m), 0, 0, m, code, d);
    assert(first.len() > 0);
}

} // verus!
