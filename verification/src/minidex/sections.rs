//! The data section of the extracted DEX file, part by part.
//!
//! Every part is appended to what stands before it. `base` is where the data
//! section starts in the file; offsets count from the start of the file.
use vstd::prelude::*;

use crate::collections::{cut32, found, low32, views, Entries, IdMap, SortedMap};
use crate::error::Error;
use crate::minidex::bytecode::unit_bytes;
use crate::minidex::canonical::picked;
use crate::minidex::emit::{
    align4, annotation_bytes, appended, array_bytes, debug_bytes, le16_bytes, le32_bytes, padded,
    push_u16, push_u32, string_bytes, write_debug_info, write_encoded_annotation,
    write_encoded_array, write_mutf8,
};
use crate::minidex::leb::{sleb_bytes, uleb_bytes, write_sleb, write_uleb};
use crate::minidex::mapper::{IndexMapper, NewProto};
use crate::minidex::metadata::{AnnotationDirectory, Annotations, ClassAnnotations, Directory};
use crate::minidex::reader::{
    CatchHandler, ClassData, Code, CodeItem, DexTables, EncodedField, EncodedMethod, Handler,
    Members, TryItem,
};
use crate::minidex::tables::{Proto, Tables};
use crate::minidex::values::{
    lemma_annotation_model, AnnotationItem, DebugInfo, Debugging, EncodedValue, Item, Value,
};
use crate::order::{
    lemma_sort_order, less_from, lex_less, lists, positions, sort_order, sorted_indices,
};
use crate::results::{collect, lemma_collect_error};
use crate::text::texts;

verus! {

/// Where the next byte of the data section stands in the file.
pub open spec fn offset_of(base: int, data: Seq<u8>) -> u32 {
    low32(base + data.len())
}

/// Where the next byte of the data section stands in the file.
pub fn offset_at(base: u64, data: &Vec<u8>) -> (r: u32)
    ensures
        r == offset_of(base as int, data@),
{
    let len: u64 = data.len() as u64;
    ((base % 0x1_0000_0000 + len % 0x1_0000_0000) % 0x1_0000_0000) as u32
}

// ---------------------------------------------------------------------------
// Strings and type lists
// ---------------------------------------------------------------------------

/// The string data items from `i` on, and where each of them stands.
pub open spec fn strings_section(
    base: int,
    strings: Seq<Seq<char>>,
    i: int,
    data: Seq<u8>,
    offsets: Seq<u32>,
) -> (Seq<u8>, Seq<u32>)
    decreases strings.len() - i,
{
    if i >= strings.len() {
        (data, offsets)
    } else {
        strings_section(
            base,
            strings,
            i + 1,
            data + string_bytes(strings[i]),
            offsets.push(offset_of(base, data)),
        )
    }
}

pub fn write_strings(base: u64, strings: &Vec<String>, out: &mut Vec<u8>) -> (r: Vec<u32>)
    ensures
        strings_section(base as int, texts(strings@), 0, old(out)@, Seq::empty()) == (
            final(out)@,
            r@,
        ),
        r@.len() == strings@.len(),
{
    let mut offsets: Vec<u32> = Vec::new();
    let ghost all = texts(strings@);
    let mut i: usize = 0;
    while i < strings.len()
        invariant
            i <= strings.len(),
            offsets.len() == i,
            all == texts(strings@),
            strings_section(base as int, all, 0, old(out)@, Seq::empty()) == strings_section(
                base as int,
                all,
                i as int,
                out@,
                offsets@,
            ),
        decreases strings.len() - i,
    {
        assert(all[i as int] == strings@[i as int]@);
        offsets.push(offset_at(base, out));
        write_mutf8(strings[i].as_str(), out);
        i += 1;
    }
    offsets
}

/// A type list: its length, and the indices.
pub open spec fn type_list_bytes(list: Seq<u16>) -> Seq<u8> {
    le32_bytes(low32(list.len() as int)) + unit_bytes(list)
}

fn write_type_list(list: &Vec<u16>, out: &mut Vec<u8>)
    ensures
        final(out)@ == old(out)@ + type_list_bytes(list@),
{
    let ghost before = out@;
    push_u32(out, cut32(list.len()));
    let ghost start = out@;
    let mut i: usize = 0;
    assert(unit_bytes(list@.take(0)) =~= Seq::<u8>::empty());
    assert(out@ =~= start + unit_bytes(list@.take(0)));
    while i < list.len()
        invariant
            i <= list.len(),
            out@ == start + unit_bytes(list@.take(i as int)),
        decreases list.len() - i,
    {
        let ghost now = out@;
        push_u16(out, list[i]);
        i += 1;
        assert(unit_bytes(list@.take(i as int)) =~= unit_bytes(list@.take(i - 1)) + le16_bytes(
            list@[i - 1],
        ));
        assert(out@ =~= start + unit_bytes(list@.take(i as int)));
    }
    assert(list@.take(i as int) =~= list@);
    assert(out@ =~= before + type_list_bytes(list@));
}

/// The parameter lists of the prototypes from `i` on, and where each of them
/// stands; an empty list has offset zero.
pub open spec fn params_section(
    base: int,
    protos: Seq<Proto>,
    i: int,
    data: Seq<u8>,
    offsets: Seq<u32>,
) -> (Seq<u8>, Seq<u32>)
    decreases protos.len() - i,
{
    if i >= protos.len() {
        (data, offsets)
    } else if protos[i].params.len() == 0 {
        params_section(base, protos, i + 1, data, offsets.push(0))
    } else {
        params_section(
            base,
            protos,
            i + 1,
            padded(data) + type_list_bytes(protos[i].params),
            offsets.push(offset_of(base, padded(data))),
        )
    }
}

pub fn write_params(base: u64, protos: &Vec<NewProto>, out: &mut Vec<u8>) -> (r: Vec<u32>)
    ensures
        params_section(base as int, views(protos@), 0, old(out)@, Seq::empty()) == (
            final(out)@,
            r@,
        ),
        r@.len() == protos@.len(),
{
    let mut offsets: Vec<u32> = Vec::new();
    let ghost all = views(protos@);
    let mut i: usize = 0;
    while i < protos.len()
        invariant
            i <= protos.len(),
            offsets.len() == i,
            all == views(protos@),
            params_section(base as int, all, 0, old(out)@, Seq::empty()) == params_section(
                base as int,
                all,
                i as int,
                out@,
                offsets@,
            ),
        decreases protos.len() - i,
    {
        assert(all[i as int] == protos@[i as int]@);
        if protos[i].params.len() == 0 {
            offsets.push(0);
        } else {
            align4(out);
            offsets.push(offset_at(base, out));
            write_type_list(&protos[i].params, out);
        }
        i += 1;
    }
    offsets
}

pub open spec fn type_mapper(m: Tables, list: Seq<u16>) -> spec_fn(int) -> Result<u16, Error> {
    |i: int| m.mapped_type(list[i] as u32)
}

/// The list of interfaces with new indices, and where it stands.
pub open spec fn interfaces_section(base: int, list: Seq<u16>, m: Tables, data: Seq<u8>) -> Result<
    (Seq<u8>, u32),
    Error,
> {
    if list.len() == 0 {
        Ok((data, 0))
    } else {
        match collect(type_mapper(m, list), list.len()) {
            Err(e) => Err(e),
            Ok(types) => Ok(
                (padded(data) + type_list_bytes(types), offset_of(base, padded(data))),
            ),
        }
    }
}

pub fn write_interfaces(base: u64, list: &Vec<u16>, mapper: &IndexMapper<'_>, out: &mut Vec<u8>) -> (r:
    Result<u32, Error>)
    ensures
        match r {
            Ok(v) => interfaces_section(base as int, list@, mapper@, old(out)@) == Ok::<
                (Seq<u8>, u32),
                Error,
            >((final(out)@, v)),
            Err(e) => interfaces_section(base as int, list@, mapper@, old(out)@) == Err::<
                (Seq<u8>, u32),
                Error,
            >(e),
        },
{
    if list.len() == 0 {
        return Ok(0);
    }
    let ghost f = type_mapper(mapper@, list@);
    let mut types: Vec<u16> = Vec::new();
    let mut i: usize = 0;
    while i < list.len()
        invariant
            i <= list.len(),
            list.len() > 0,
            *out == *old(out),
            f == type_mapper(mapper@, list@),
            collect(f, i as nat) == Ok::<Seq<u16>, Error>(types@),
        decreases list.len() - i,
    {
        match mapper.mapped_type(list[i] as u32) {
            Ok(v) => types.push(v),
            Err(e) => {
                proof {
                    lemma_collect_error(f, i as nat, list@.len());
                }
                return Err(e);
            },
        }
        i += 1;
    }
    align4(out);
    let offset: u32 = offset_at(base, out);
    write_type_list(&types, out);
    Ok(offset)
}

// ---------------------------------------------------------------------------
// Annotations
// ---------------------------------------------------------------------------

/// 32-bit words one after another.
pub open spec fn words_bytes(words: Seq<u32>) -> Seq<u8>
    decreases words.len(),
{
    if words.len() == 0 {
        Seq::empty()
    } else {
        words_bytes(words.drop_last()) + le32_bytes(words.last())
    }
}

pub fn write_words(words: &Vec<u32>, out: &mut Vec<u8>)
    ensures
        final(out)@ == old(out)@ + words_bytes(words@),
{
    let ghost before = out@;
    let mut i: usize = 0;
    assert(words@.take(0) =~= Seq::<u32>::empty());
    assert(out@ =~= before + words_bytes(words@.take(0)));
    while i < words.len()
        invariant
            i <= words.len(),
            out@ == before + words_bytes(words@.take(i as int)),
        decreases words.len() - i,
    {
        push_u32(out, words[i]);
        i += 1;
        assert(words@.take(i as int).drop_last() =~= words@.take(i - 1));
        assert(out@ =~= before + words_bytes(words@.take(i as int)));
    }
    assert(words@.take(i as int) =~= words@);
}

/// What a map holds under a key, or zero.
pub open spec fn or_zero(m: Entries<u32>, key: u32) -> u32 {
    match m.get(key) {
        Some(v) => v,
        None => 0,
    }
}

fn get_or_zero(m: &SortedMap<u32>, key: u32) -> (r: u32)
    requires
        m.wf(),
    ensures
        r == or_zero(m@, key),
{
    match m.position(key) {
        Some(p) => m.values[p],
        None => 0,
    }
}

/// The annotation items from `i` on with new indices, and where each of them
/// stands.
pub open spec fn items_section(
    base: int,
    items: Entries<Item>,
    i: int,
    m: Tables,
    dex: DexTables,
    data: Seq<u8>,
    offsets: Entries<u32>,
) -> Result<(Seq<u8>, Entries<u32>), Error>
    decreases items.keys.len() - i,
{
    if i >= items.keys.len() {
        Ok((data, offsets))
    } else {
        match annotation_bytes(
            items.values[i].annotation,
            m,
            dex,
            data.push(items.values[i].visibility),
        ) {
            Err(e) => Err(e),
            Ok(more) => items_section(
                base,
                items,
                i + 1,
                m,
                dex,
                more,
                offsets.put(items.keys[i], offset_of(base, data)),
            ),
        }
    }
}

fn write_items(
    base: u64,
    items: &SortedMap<AnnotationItem>,
    mapper: &IndexMapper<'_>,
    out: &mut Vec<u8>,
) -> (r: Result<SortedMap<u32>, Error>)
    requires
        items.wf(),
    ensures
        match r {
            Ok(v) => v.wf() && items_section(
                base as int,
                items@,
                0,
                mapper@,
                mapper.dex@,
                old(out)@,
                Entries::empty(),
            ) == Ok::<(Seq<u8>, Entries<u32>), Error>((final(out)@, v@)),
            Err(e) => items_section(
                base as int,
                items@,
                0,
                mapper@,
                mapper.dex@,
                old(out)@,
                Entries::empty(),
            ) == Err::<(Seq<u8>, Entries<u32>), Error>(e),
        },
{
    let mut offsets: SortedMap<u32> = SortedMap::new();
    let ghost all = items@;
    let ghost dex = mapper.dex@;
    let mut i: usize = 0;
    while i < items.keys.len()
        invariant
            i <= items.keys.len(),
            items.wf(),
            offsets.wf(),
            all == items@,
            dex == mapper.dex@,
            items_section(base as int, all, 0, mapper@, dex, old(out)@, Entries::empty())
                == items_section(base as int, all, i as int, mapper@, dex, out@, offsets@),
        decreases items.keys.len() - i,
    {
        assert(all.values[i as int] == items.values@[i as int]@);
        let offset: u32 = offset_at(base, out);
        out.push(items.values[i].visibility);
        write_encoded_annotation(&items.values[i].annotation, mapper, out)?;
        offsets.insert(items.keys[i], offset);
        i += 1;
    }
    Ok(offsets)
}

/// What the items of a set are ordered by: the new index of their type.
pub open spec fn item_rank(items: Entries<Item>, m: Tables, offset: u32) -> u32 {
    match items.get(offset) {
        None => 0,
        Some(item) => match m.mapped_type(item.annotation.type_idx) {
            Ok(index) => index as u32,
            Err(_) => 0,
        },
    }
}

pub open spec fn item_ranks(items: Entries<Item>, m: Tables, set: Seq<u32>) -> Seq<Seq<u32>> {
    set.map_values(|offset: u32| seq![item_rank(items, m, offset)])
}

/// The words that the given offsets lead to.
pub open spec fn placed_words(set: Seq<u32>, placed: Entries<u32>) -> Seq<u32> {
    set.map_values(|offset: u32| or_zero(placed, offset))
}

/// An annotation set: its length, and where its items stand, by type.
pub open spec fn set_bytes(set: Seq<u32>, items: Entries<Item>, m: Tables, placed: Entries<u32>) -> Seq<
    u8,
> {
    le32_bytes(low32(set.len() as int)) + words_bytes(
        placed_words(picked(set, sort_order(item_ranks(items, m, set), set.len())), placed),
    )
}

/// The annotation sets from `i` on, and where each of them stands.
pub open spec fn sets_section(
    base: int,
    sets: Entries<Seq<u32>>,
    i: int,
    items: Entries<Item>,
    m: Tables,
    placed: Entries<u32>,
    data: Seq<u8>,
    offsets: Entries<u32>,
) -> (Seq<u8>, Entries<u32>)
    decreases sets.keys.len() - i,
{
    if i >= sets.keys.len() {
        (data, offsets)
    } else {
        sets_section(
            base,
            sets,
            i + 1,
            items,
            m,
            placed,
            data + set_bytes(sets.values[i], items, m, placed),
            offsets.put(sets.keys[i], offset_of(base, data)),
        )
    }
}

fn rank_of_item(items: &SortedMap<AnnotationItem>, mapper: &IndexMapper<'_>, offset: u32) -> (r: u32)
    requires
        items.wf(),
    ensures
        r == item_rank(items@, mapper@, offset),
{
    match items.position(offset) {
        None => 0,
        Some(p) => {
            assert(items@.values[p as int] == items.values@[p as int]@);
            proof {
                lemma_annotation_model(
                    items.values@[p as int].annotation,
                );
            }
            match mapper.mapped_type(items.values[p].annotation.type_idx) {
                Ok(index) => index as u32,
                Err(_) => 0,
            }
        },
    }
}

fn write_set(
    set: &Vec<u32>,
    items: &SortedMap<AnnotationItem>,
    mapper: &IndexMapper<'_>,
    placed: &SortedMap<u32>,
    out: &mut Vec<u8>,
)
    requires
        items.wf(),
        placed.wf(),
    ensures
        final(out)@ == old(out)@ + set_bytes(set@, items@, mapper@, placed@),
{
    let ghost before = out@;
    let ghost ranks = item_ranks(items@, mapper@, set@);
    let mut keys: Vec<Vec<u32>> = Vec::new();
    let mut i: usize = 0;
    while i < set.len()
        invariant
            i <= set.len(),
            items.wf(),
            keys.len() == i,
            forall|j: int|
                0 <= j < i ==> #[trigger] keys@[j]@ == seq![item_rank(items@, mapper@, set@[j])],
        decreases set.len() - i,
    {
        let mut key: Vec<u32> = Vec::new();
        key.push(rank_of_item(items, mapper, set[i]));
        assert(key@ =~= seq![item_rank(items@, mapper@, set@[i as int])]);
        keys.push(key);
        i += 1;
    }
    assert(lists(keys@) =~= ranks);
    let order = sorted_indices(&keys);
    let ghost walk = positions(order@);
    proof {
        lemma_sort_order(ranks, set@.len());
    }
    push_u32(out, cut32(set.len()));
    let mut words: Vec<u32> = Vec::new();
    let mut i: usize = 0;
    while i < order.len()
        invariant
            i <= order.len(),
            placed.wf(),
            words.len() == i,
            walk == positions(order@),
            forall|j: int| 0 <= j < walk.len() ==> 0 <= #[trigger] walk[j] < set@.len(),
            forall|j: int| 0 <= j < i ==> #[trigger] words@[j] == or_zero(placed@, set@[walk[j]]),
        decreases order.len() - i,
    {
        assert(walk[i as int] == order@[i as int]);
        words.push(get_or_zero(placed, set[order[i]]));
        i += 1;
    }
    assert(words@ =~= placed_words(picked(set@, walk), placed@));
    write_words(&words, out);
    assert(out@ =~= before + set_bytes(set@, items@, mapper@, placed@));
}

fn write_sets(
    base: u64,
    sets: &SortedMap<Vec<u32>>,
    items: &SortedMap<AnnotationItem>,
    mapper: &IndexMapper<'_>,
    placed: &SortedMap<u32>,
    out: &mut Vec<u8>,
) -> (r: SortedMap<u32>)
    requires
        sets.wf(),
        items.wf(),
        placed.wf(),
    ensures
        r.wf(),
        sets_section(
            base as int,
            sets@,
            0,
            items@,
            mapper@,
            placed@,
            old(out)@,
            Entries::empty(),
        ) == (final(out)@, r@),
{
    let mut offsets: SortedMap<u32> = SortedMap::new();
    let ghost all = sets@;
    let mut i: usize = 0;
    while i < sets.keys.len()
        invariant
            i <= sets.keys.len(),
            sets.wf(),
            items.wf(),
            placed.wf(),
            offsets.wf(),
            all == sets@,
            sets_section(
                base as int,
                all,
                0,
                items@,
                mapper@,
                placed@,
                old(out)@,
                Entries::empty(),
            ) == sets_section(
                base as int,
                all,
                i as int,
                items@,
                mapper@,
                placed@,
                out@,
                offsets@,
            ),
        decreases sets.keys.len() - i,
    {
        assert(all.values[i as int] == sets.values@[i as int]@);
        offsets.insert(sets.keys[i], offset_at(base, out));
        write_set(&sets.values[i], items, mapper, placed, out);
        i += 1;
    }
    offsets
}

/// The lists of annotation sets from `i` on, and where each of them stands.
pub open spec fn set_refs_section(
    base: int,
    set_refs: Entries<Seq<u32>>,
    i: int,
    placed: Entries<u32>,
    data: Seq<u8>,
    offsets: Entries<u32>,
) -> (Seq<u8>, Entries<u32>)
    decreases set_refs.keys.len() - i,
{
    if i >= set_refs.keys.len() {
        (data, offsets)
    } else {
        set_refs_section(
            base,
            set_refs,
            i + 1,
            placed,
            data + (le32_bytes(low32(set_refs.values[i].len() as int)) + words_bytes(
                placed_words(set_refs.values[i], placed),
            )),
            offsets.put(set_refs.keys[i], offset_of(base, data)),
        )
    }
}

fn write_set_refs(
    base: u64,
    set_refs: &SortedMap<Vec<u32>>,
    placed: &SortedMap<u32>,
    out: &mut Vec<u8>,
) -> (r: SortedMap<u32>)
    requires
        set_refs.wf(),
        placed.wf(),
    ensures
        r.wf(),
        set_refs_section(base as int, set_refs@, 0, placed@, old(out)@, Entries::empty()) == (
            final(out)@,
            r@,
        ),
{
    let mut offsets: SortedMap<u32> = SortedMap::new();
    let ghost all = set_refs@;
    let mut i: usize = 0;
    while i < set_refs.keys.len()
        invariant
            i <= set_refs.keys.len(),
            set_refs.wf(),
            placed.wf(),
            offsets.wf(),
            all == set_refs@,
            set_refs_section(base as int, all, 0, placed@, old(out)@, Entries::empty())
                == set_refs_section(base as int, all, i as int, placed@, out@, offsets@),
        decreases set_refs.keys.len() - i,
    {
        assert(all.values[i as int] == set_refs.values@[i as int]@);
        let ghost now = out@;
        offsets.insert(set_refs.keys[i], offset_at(base, out));
        let words = words_for(&set_refs.values[i], placed);
        push_u32(out, cut32(set_refs.values[i].len()));
        write_words(&words, out);
        assert(out@ =~= now + (le32_bytes(low32(all.values[i as int].len() as int)) + words_bytes(
            placed_words(all.values[i as int], placed@),
        )));
        i += 1;
    }
    offsets
}

fn words_for(set: &Vec<u32>, placed: &SortedMap<u32>) -> (r: Vec<u32>)
    requires
        placed.wf(),
    ensures
        r@ == placed_words(set@, placed@),
{
    let mut words: Vec<u32> = Vec::new();
    let mut i: usize = 0;
    while i < set.len()
        invariant
            i <= set.len(),
            placed.wf(),
            words.len() == i,
            forall|j: int| 0 <= j < i ==> #[trigger] words@[j] == or_zero(placed@, set@[j]),
        decreases set.len() - i,
    {
        words.push(get_or_zero(placed, set[i]));
        i += 1;
    }
    assert(words@ =~= placed_words(set@, placed@));
    words
}

/// The new index of an annotated field or method, if it has one.
pub open spec fn new_member(m: Tables, is_field: bool, id: u32) -> Result<u16, Error> {
    if is_field {
        m.mapped_field(id)
    } else {
        m.mapped_method(id)
    }
}

/// The annotated members from `i` on that have new indices, behind `kept`.
pub open spec fn present_members(
    list: Seq<(u32, u32)>,
    is_field: bool,
    m: Tables,
    i: int,
    kept: Seq<(u32, u32)>,
) -> Seq<(u32, u32)>
    decreases list.len() - i,
{
    if i >= list.len() {
        kept
    } else {
        match new_member(m, is_field, list[i].0) {
            Ok(index) => present_members(
                list,
                is_field,
                m,
                i + 1,
                kept.push((index as u32, list[i].1)),
            ),
            Err(_) => present_members(list, is_field, m, i + 1, kept),
        }
    }
}

pub open spec fn member_ranks(list: Seq<(u32, u32)>) -> Seq<Seq<u32>> {
    list.map_values(|x: (u32, u32)| seq![x.0])
}

/// The annotated members with new indices, in the order of those.
pub open spec fn annotated_members(list: Seq<(u32, u32)>, is_field: bool, m: Tables) -> Seq<
    (u32, u32),
> {
    let kept = present_members(list, is_field, m, 0, Seq::empty());
    picked(kept, sort_order(member_ranks(kept), kept.len()))
}

/// The words of annotated members: an index, and where its annotations stand.
pub open spec fn member_words(list: Seq<(u32, u32)>, placed: Entries<u32>) -> Seq<u32> {
    Seq::new(
        2 * list.len(),
        |i: int|
            if i % 2 == 0 {
                list[i / 2].0
            } else {
                or_zero(placed, list[i / 2].1)
            },
    )
}

/// The words of an annotation directory.
pub open spec fn directory_words(d: Directory, m: Tables, sets: Entries<u32>, set_refs: Entries<u32>) -> Seq<
    u32,
> {
    let fields = annotated_members(d.field_annotations, true, m);
    let methods = annotated_members(d.method_annotations, false, m);
    let parameters = annotated_members(d.parameter_annotations, false, m);
    seq![
        or_zero(sets, d.class_annotations_off),
        low32(fields.len() as int),
        low32(methods.len() as int),
        low32(parameters.len() as int),
    ] + member_words(fields, sets) + member_words(methods, sets) + member_words(
        parameters,
        set_refs,
    )
}

fn sorted_members(list: &Vec<(u32, u32)>, is_field: bool, mapper: &IndexMapper<'_>) -> (r: Vec<
    (u32, u32),
>)
    ensures
        r@ == annotated_members(list@, is_field, mapper@),
{
    let mut kept: Vec<(u32, u32)> = Vec::new();
    let mut i: usize = 0;
    while i < list.len()
        invariant
            i <= list.len(),
            present_members(list@, is_field, mapper@, 0, Seq::empty()) == present_members(
                list@,
                is_field,
                mapper@,
                i as int,
                kept@,
            ),
        decreases list.len() - i,
    {
        let index: Result<u16, Error> = if is_field {
            mapper.mapped_field(list[i].0)
        } else {
            mapper.mapped_method(list[i].0)
        };
        if let Ok(v) = index {
            kept.push((v as u32, list[i].1));
        }
        i += 1;
    }
    let mut keys: Vec<Vec<u32>> = Vec::new();
    let mut i: usize = 0;
    while i < kept.len()
        invariant
            i <= kept.len(),
            keys.len() == i,
            forall|j: int| 0 <= j < i ==> #[trigger] keys@[j]@ == seq![kept@[j].0],
        decreases kept.len() - i,
    {
        let mut key: Vec<u32> = Vec::new();
        key.push(kept[i].0);
        assert(key@ =~= seq![kept@[i as int].0]);
        keys.push(key);
        i += 1;
    }
    assert(lists(keys@) =~= member_ranks(kept@));
    let order = sorted_indices(&keys);
    let ghost walk = positions(order@);
    proof {
        lemma_sort_order(member_ranks(kept@), kept@.len());
    }
    let mut out: Vec<(u32, u32)> = Vec::new();
    let mut i: usize = 0;
    while i < order.len()
        invariant
            i <= order.len(),
            out.len() == i,
            walk == positions(order@),
            forall|j: int| 0 <= j < walk.len() ==> 0 <= #[trigger] walk[j] < kept@.len(),
            forall|j: int| 0 <= j < i ==> #[trigger] out@[j] == kept@[walk[j]],
        decreases order.len() - i,
    {
        assert(walk[i as int] == order@[i as int]);
        out.push(kept[order[i]]);
        i += 1;
    }
    assert(out@ =~= picked(kept@, walk));
    out
}

fn push_member_words(list: &Vec<(u32, u32)>, placed: &SortedMap<u32>, words: &mut Vec<u32>)
    requires
        placed.wf(),
    ensures
        final(words)@ == old(words)@ + member_words(list@, placed@),
{
    let ghost before = words@;
    let ghost all = member_words(list@, placed@);
    let mut i: usize = 0;
    assert(words@ =~= before + all.take(0));
    while i < list.len()
        invariant
            i <= list.len(),
            placed.wf(),
            all == member_words(list@, placed@),
            words@ == before + all.take(2 * i),
        decreases list.len() - i,
    {
        assert(all[2 * i as int] == list@[i as int].0);
        assert(all[2 * i + 1] == or_zero(placed@, list@[i as int].1));
        words.push(list[i].0);
        words.push(get_or_zero(placed, list[i].1));
        i += 1;
        assert(words@ =~= before + all.take(2 * i));
    }
    assert(all.take(2 * i) =~= all);
}

/// Where the annotations of the class stand.
#[derive(Debug)]
pub struct AnnotationOffsets {
    pub items: SortedMap<u32>,
    pub sets: SortedMap<u32>,
    pub set_refs: SortedMap<u32>,
    pub directory: u32,
}

/// Where the annotations of the class stand.
#[verifier::ext_equal]
pub struct PlacedAnnotations {
    pub items: Entries<u32>,
    pub sets: Entries<u32>,
    pub set_refs: Entries<u32>,
    pub directory: u32,
}

impl View for AnnotationOffsets {
    type V = PlacedAnnotations;

    open spec fn view(&self) -> PlacedAnnotations {
        PlacedAnnotations {
            items: self.items@,
            sets: self.sets@,
            set_refs: self.set_refs@,
            directory: self.directory,
        }
    }
}

impl AnnotationOffsets {
    pub open spec fn wf(self) -> bool {
        self.items.wf() && self.sets.wf() && self.set_refs.wf()
    }
}

/// The annotations of the class: the items, the sets, the lists of sets and
/// the directory.
pub open spec fn annotations_section(
    base: int,
    a: ClassAnnotations,
    m: Tables,
    dex: DexTables,
    data: Seq<u8>,
) -> Result<(Seq<u8>, PlacedAnnotations), Error> {
    match a.directory {
        None => Ok(
            (
                data,
                PlacedAnnotations {
                    items: Entries::empty(),
                    sets: Entries::empty(),
                    set_refs: Entries::empty(),
                    directory: 0,
                },
            ),
        ),
        Some(d) => match items_section(base, a.items, 0, m, dex, data, Entries::empty()) {
            Err(e) => Err(e),
            Ok((with_items, items)) => {
                let (with_sets, sets) = sets_section(
                    base,
                    a.sets,
                    0,
                    a.items,
                    m,
                    items,
                    padded(with_items),
                    Entries::empty(),
                );
                let (with_refs, set_refs) = set_refs_section(
                    base,
                    a.set_refs,
                    0,
                    sets,
                    padded(with_sets),
                    Entries::empty(),
                );
                let head = padded(with_refs);
                Ok(
                    (
                        head + words_bytes(directory_words(d, m, sets, set_refs)),
                        PlacedAnnotations {
                            items,
                            sets,
                            set_refs,
                            directory: offset_of(base, head),
                        },
                    ),
                )
            },
        },
    }
}

fn write_directory(
    d: &AnnotationDirectory,
    mapper: &IndexMapper<'_>,
    sets: &SortedMap<u32>,
    set_refs: &SortedMap<u32>,
    out: &mut Vec<u8>,
)
    requires
        sets.wf(),
        set_refs.wf(),
    ensures
        final(out)@ == old(out)@ + words_bytes(directory_words(d@, mapper@, sets@, set_refs@)),
{
    let fields = sorted_members(&d.field_annotations, true, mapper);
    let methods = sorted_members(&d.method_annotations, false, mapper);
    let parameters = sorted_members(&d.parameter_annotations, false, mapper);
    let mut words: Vec<u32> = Vec::new();
    words.push(get_or_zero(sets, d.class_annotations_off));
    words.push(cut32(fields.len()));
    words.push(cut32(methods.len()));
    words.push(cut32(parameters.len()));
    push_member_words(&fields, sets, &mut words);
    push_member_words(&methods, sets, &mut words);
    push_member_words(&parameters, set_refs, &mut words);
    assert(words@ =~= directory_words(d@, mapper@, sets@, set_refs@));
    write_words(&words, out);
}

pub fn write_annotations(
    base: u64,
    annotations: &Annotations,
    mapper: &IndexMapper<'_>,
    out: &mut Vec<u8>,
) -> (r: Result<AnnotationOffsets, Error>)
    requires
        annotations.wf(),
    ensures
        match r {
            Ok(v) => v.wf() && annotations_section(
                base as int,
                annotations@,
                mapper@,
                mapper.dex@,
                old(out)@,
            ) == Ok::<(Seq<u8>, PlacedAnnotations), Error>((final(out)@, v@)),
            Err(e) => annotations_section(
                base as int,
                annotations@,
                mapper@,
                mapper.dex@,
                old(out)@,
            ) == Err::<(Seq<u8>, PlacedAnnotations), Error>(e),
        },
{
    match &annotations.directory {
        None => Ok(
            AnnotationOffsets {
                items: SortedMap::new(),
                sets: SortedMap::new(),
                set_refs: SortedMap::new(),
                directory: 0,
            },
        ),
        Some(d) => {
            let items = write_items(base, &annotations.items, mapper, out)?;
            align4(out);
            let sets = write_sets(
                base,
                &annotations.sets,
                &annotations.items,
                mapper,
                &items,
                out,
            );
            align4(out);
            let set_refs = write_set_refs(base, &annotations.set_refs, &sets, out);
            align4(out);
            let directory: u32 = offset_at(base, out);
            write_directory(d, mapper, &sets, &set_refs, out);
            Ok(AnnotationOffsets { items, sets, set_refs, directory })
        },
    }
}

// ---------------------------------------------------------------------------
// Static values and debug information
// ---------------------------------------------------------------------------

/// The static values with new indices, and where they stand.
pub open spec fn statics_section(
    base: int,
    values: Option<Seq<Value>>,
    m: Tables,
    dex: DexTables,
    data: Seq<u8>,
) -> Result<(Seq<u8>, u32), Error> {
    match values {
        None => Ok((data, 0)),
        Some(items) => match array_bytes(items, m, dex) {
            Err(e) => Err(e),
            Ok(bytes) => Ok((padded(data) + bytes, offset_of(base, padded(data)))),
        },
    }
}

/// The meaning of optional static values.
pub open spec fn static_model(values: Option<Vec<EncodedValue>>) -> Option<Seq<Value>> {
    match values {
        None => None,
        Some(v) => Some(views(v@)),
    }
}

pub fn write_statics(
    base: u64,
    values: &Option<Vec<EncodedValue>>,
    mapper: &IndexMapper<'_>,
    out: &mut Vec<u8>,
) -> (r: Result<u32, Error>)
    ensures
        match r {
            Ok(v) => statics_section(
                base as int,
                static_model(*values),
                mapper@,
                mapper.dex@,
                old(out)@,
            ) == Ok::<(Seq<u8>, u32), Error>((final(out)@, v)),
            Err(e) => statics_section(
                base as int,
                static_model(*values),
                mapper@,
                mapper.dex@,
                old(out)@,
            ) == Err::<(Seq<u8>, u32), Error>(e),
        },
{
    match values {
        None => Ok(0),
        Some(items) => {
            align4(out);
            let offset: u32 = offset_at(base, out);
            write_encoded_array(items, mapper, out)?;
            Ok(offset)
        },
    }
}

/// What methods are ordered by: their new index.
pub open spec fn method_rank(m: Tables, id: u32) -> u32 {
    match m.mapped_method(id) {
        Ok(index) => index as u32,
        Err(_) => 0,
    }
}

pub open spec fn method_ranks(methods: Seq<EncodedMethod>, m: Tables) -> Seq<Seq<u32>> {
    methods.map_values(|x: EncodedMethod| seq![method_rank(m, x.method_idx)])
}

/// Methods in the order of their new indices.
pub open spec fn methods_in_order(methods: Seq<EncodedMethod>, m: Tables) -> Seq<EncodedMethod> {
    picked(methods, sort_order(method_ranks(methods, m), methods.len()))
}

pub fn order_methods(methods: &Vec<EncodedMethod>, mapper: &IndexMapper<'_>) -> (r: Vec<
    EncodedMethod,
>)
    ensures
        r@ == methods_in_order(methods@, mapper@),
{
    let mut keys: Vec<Vec<u32>> = Vec::new();
    let mut i: usize = 0;
    while i < methods.len()
        invariant
            i <= methods.len(),
            keys.len() == i,
            forall|j: int|
                0 <= j < i ==> #[trigger] keys@[j]@ == seq![
                    method_rank(mapper@, methods@[j].method_idx),
                ],
        decreases methods.len() - i,
    {
        let rank: u32 = match mapper.mapped_method(methods[i].method_idx) {
            Ok(index) => index as u32,
            Err(_) => 0,
        };
        let mut key: Vec<u32> = Vec::new();
        key.push(rank);
        assert(key@ =~= seq![method_rank(mapper@, methods@[i as int].method_idx)]);
        keys.push(key);
        i += 1;
    }
    assert(lists(keys@) =~= method_ranks(methods@, mapper@));
    let order = sorted_indices(&keys);
    let ghost walk = positions(order@);
    proof {
        lemma_sort_order(method_ranks(methods@, mapper@), methods@.len());
    }
    let mut out: Vec<EncodedMethod> = Vec::new();
    let mut i: usize = 0;
    while i < order.len()
        invariant
            i <= order.len(),
            out.len() == i,
            walk == positions(order@),
            forall|j: int| 0 <= j < walk.len() ==> 0 <= #[trigger] walk[j] < methods@.len(),
            forall|j: int| 0 <= j < i ==> #[trigger] out@[j] == methods@[walk[j]],
        decreases order.len() - i,
    {
        assert(walk[i as int] == order@[i as int]);
        out.push(methods[order[i]]);
        i += 1;
    }
    assert(out@ =~= methods_in_order(methods@, mapper@));
    out
}

/// The debug items of the methods from `i` on, and where each of them stands.
pub open spec fn debug_section(
    base: int,
    methods: Seq<EncodedMethod>,
    i: int,
    debug: Entries<Debugging>,
    m: Tables,
    dex: DexTables,
    data: Seq<u8>,
    offsets: Entries<u32>,
) -> Result<(Seq<u8>, Entries<u32>), Error>
    decreases methods.len() - i,
{
    if i >= methods.len() {
        Ok((data, offsets))
    } else {
        let id = methods[i].method_idx;
        match debug.get(id) {
            None => debug_section(base, methods, i + 1, debug, m, dex, data, offsets),
            Some(d) => match debug_bytes(d, m, dex, data) {
                Err(e) => Err(e),
                Ok(more) => debug_section(
                    base,
                    methods,
                    i + 1,
                    debug,
                    m,
                    dex,
                    more,
                    offsets.put(id, offset_of(base, data)),
                ),
            },
        }
    }
}

pub fn write_debug_items(
    base: u64,
    methods: &Vec<EncodedMethod>,
    debug: &SortedMap<DebugInfo>,
    mapper: &IndexMapper<'_>,
    out: &mut Vec<u8>,
) -> (r: Result<SortedMap<u32>, Error>)
    requires
        debug.wf(),
    ensures
        match r {
            Ok(v) => v.wf() && debug_section(
                base as int,
                methods@,
                0,
                debug@,
                mapper@,
                mapper.dex@,
                old(out)@,
                Entries::empty(),
            ) == Ok::<(Seq<u8>, Entries<u32>), Error>((final(out)@, v@)),
            Err(e) => debug_section(
                base as int,
                methods@,
                0,
                debug@,
                mapper@,
                mapper.dex@,
                old(out)@,
                Entries::empty(),
            ) == Err::<(Seq<u8>, Entries<u32>), Error>(e),
        },
{
    let mut offsets: SortedMap<u32> = SortedMap::new();
    let ghost dex = mapper.dex@;
    let mut i: usize = 0;
    while i < methods.len()
        invariant
            i <= methods.len(),
            debug.wf(),
            offsets.wf(),
            dex == mapper.dex@,
            debug_section(
                base as int,
                methods@,
                0,
                debug@,
                mapper@,
                dex,
                old(out)@,
                Entries::empty(),
            ) == debug_section(
                base as int,
                methods@,
                i as int,
                debug@,
                mapper@,
                dex,
                out@,
                offsets@,
            ),
        decreases methods.len() - i,
    {
        let id: u32 = methods[i].method_idx;
        if let Some(p) = debug.position(id) {
            assert(debug@.values[p as int] == debug.values@[p as int]@);
            let offset: u32 = offset_at(base, out);
            write_debug_info(&debug.values[p], mapper, out)?;
            offsets.insert(id, offset);
        }
        i += 1;
    }
    Ok(offsets)
}

// ---------------------------------------------------------------------------
// Code
// ---------------------------------------------------------------------------

/// Caught types and addresses from `i` on, behind `done`.
pub open spec fn pairs_bytes(pairs: Seq<(u32, u32)>, i: int, done: Seq<u8>) -> Seq<u8>
    decreases pairs.len() - i,
{
    if i >= pairs.len() {
        done
    } else {
        pairs_bytes(pairs, i + 1, done + uleb_bytes(pairs[i].0) + uleb_bytes(pairs[i].1))
    }
}

/// A handler list, behind `done`.
pub open spec fn handler_bytes(h: Handler, done: Seq<u8>) -> Seq<u8> {
    let pairs = pairs_bytes(h.pairs, 0, done + sleb_bytes(h.size as int));
    match h.catch_all_addr {
        None => pairs,
        Some(address) => pairs + uleb_bytes(address),
    }
}

/// The handler lists from `i` on, behind `done`, and where each of them went.
/// A handler list starts within the first 65536 bytes.
pub open spec fn handlers_bytes(
    handlers: Seq<Handler>,
    i: int,
    done: Seq<u8>,
    moved: Map<u32, u16>,
) -> Result<(Seq<u8>, Map<u32, u16>), Error>
    decreases handlers.len() - i,
{
    if i >= handlers.len() {
        Ok((done, moved))
    } else if done.len() > 0xffff {
        Err(Error::HandlerListTooLarge)
    } else {
        handlers_bytes(
            handlers,
            i + 1,
            handler_bytes(handlers[i], done),
            moved.insert(handlers[i].old_offset as u32, done.len() as u16),
        )
    }
}

/// The try items from `i` on, behind `done`.
pub open spec fn tries_bytes(tries: Seq<TryItem>, i: int, moved: Map<u32, u16>, done: Seq<u8>) -> Seq<
    u8,
>
    decreases tries.len() - i,
{
    if i >= tries.len() {
        done
    } else {
        let handler = match found(moved, tries[i].handler_off as u32) {
            Some(offset) => offset,
            None => tries[i].handler_off,
        };
        tries_bytes(
            tries,
            i + 1,
            moved,
            done + le32_bytes(tries[i].start_addr) + le16_bytes(tries[i].insn_count) + le16_bytes(
                handler,
            ),
        )
    }
}

/// The code of a method with its debug item, behind `done`.
pub open spec fn code_bytes(code: Code, debug_off: u32, done: Seq<u8>) -> Result<Seq<u8>, Error> {
    let head = done + le16_bytes(code.registers_size) + le16_bytes(code.ins_size) + le16_bytes(
        code.outs_size,
    ) + le16_bytes(code.tries_size) + le32_bytes(debug_off) + le32_bytes(
        low32((code.insns.len() / 2) as int),
    ) + code.insns;
    if code.tries.len() == 0 {
        Ok(head)
    } else {
        match handlers_bytes(
            code.handlers,
            0,
            uleb_bytes(low32(code.handlers.len() as int)),
            Map::empty(),
        ) {
            Err(e) => Err(e),
            Ok((handlers, moved)) => {
                let aligned = if (code.insns.len() / 2) % 2 != 0 {
                    head + le16_bytes(0)
                } else {
                    head
                };
                Ok(tries_bytes(code.tries, 0, moved, aligned) + handlers)
            },
        }
    }
}

/// The code of the methods from `i` on, and where each of them stands.
pub open spec fn code_section(
    base: int,
    methods: Seq<EncodedMethod>,
    i: int,
    codes: Entries<Code>,
    debug: Entries<u32>,
    data: Seq<u8>,
    offsets: Entries<u32>,
) -> Result<(Seq<u8>, Entries<u32>), Error>
    decreases methods.len() - i,
{
    if i >= methods.len() {
        Ok((data, offsets))
    } else {
        let id = methods[i].method_idx;
        match codes.get(id) {
            None => code_section(base, methods, i + 1, codes, debug, data, offsets),
            Some(code) => match code_bytes(code, or_zero(debug, id), padded(data)) {
                Err(e) => Err(e),
                Ok(more) => code_section(
                    base,
                    methods,
                    i + 1,
                    codes,
                    debug,
                    more,
                    offsets.put(id, offset_of(base, padded(data))),
                ),
            },
        }
    }
}

fn write_handler(h: &CatchHandler, out: &mut Vec<u8>)
    ensures
        final(out)@ == handler_bytes(h@, old(out)@),
{
    write_sleb(h.size, out);
    let ghost start = out@;
    let mut i: usize = 0;
    while i < h.pairs.len()
        invariant
            i <= h.pairs.len(),
            pairs_bytes(h.pairs@, 0, start) == pairs_bytes(h.pairs@, i as int, out@),
        decreases h.pairs.len() - i,
    {
        write_uleb(h.pairs[i].0, out);
        write_uleb(h.pairs[i].1, out);
        i += 1;
    }
    if let Some(address) = h.catch_all_addr {
        write_uleb(address, out);
    }
}

fn write_handlers(handlers: &Vec<CatchHandler>) -> (r: Result<(Vec<u8>, IdMap), Error>)
    ensures
        match r {
            Ok((bytes, moved)) => handlers_bytes(
                views(handlers@),
                0,
                uleb_bytes(low32(handlers@.len() as int)),
                Map::empty(),
            ) == Ok::<(Seq<u8>, Map<u32, u16>), Error>((bytes@, moved@)),
            Err(e) => handlers_bytes(
                views(handlers@),
                0,
                uleb_bytes(low32(handlers@.len() as int)),
                Map::empty(),
            ) == Err::<(Seq<u8>, Map<u32, u16>), Error>(e),
        },
{
    let mut bytes: Vec<u8> = Vec::new();
    let mut moved = IdMap::new();
    write_uleb(cut32(handlers.len()), &mut bytes);
    let ghost all = views(handlers@);
    let ghost start = uleb_bytes(low32(handlers@.len() as int));
    assert(bytes@ =~= start);
    let mut i: usize = 0;
    while i < handlers.len()
        invariant
            i <= handlers.len(),
            all == views(handlers@),
            start == uleb_bytes(low32(handlers@.len() as int)),
            handlers_bytes(all, 0, start, Map::empty()) == handlers_bytes(
                all,
                i as int,
                bytes@,
                moved@,
            ),
        decreases handlers.len() - i,
    {
        assert(all[i as int] == handlers@[i as int]@);
        if bytes.len() > 0xffff {
            return Err(Error::HandlerListTooLarge);
        }
        moved.put(handlers[i].old_offset as u32, bytes.len() as u16);
        write_handler(&handlers[i], &mut bytes);
        i += 1;
    }
    Ok((bytes, moved))
}

fn write_code(code: &CodeItem, debug_off: u32, out: &mut Vec<u8>) -> (r: Result<(), Error>)
    ensures
        match r {
            Ok(_) => code_bytes(code@, debug_off, old(out)@) == Ok::<Seq<u8>, Error>(final(out)@),
            Err(e) => code_bytes(code@, debug_off, old(out)@) == Err::<Seq<u8>, Error>(e),
        },
{
    push_u16(out, code.registers_size);
    push_u16(out, code.ins_size);
    push_u16(out, code.outs_size);
    push_u16(out, code.tries_size);
    push_u32(out, debug_off);
    push_u32(out, cut32(code.insns.len() / 2));
    let ghost before = out@;
    out.extend_from_slice(code.insns.as_slice());
    assert(out@ =~= before + code.insns@);
    if code.tries.len() != 0 {
        let (handlers, moved) = write_handlers(&code.handlers)?;
        if (code.insns.len() / 2) % 2 != 0 {
            push_u16(out, 0);
        }
        let ghost start = out@;
        let mut i: usize = 0;
        while i < code.tries.len()
            invariant
                i <= code.tries.len(),
                tries_bytes(code.tries@, 0, moved@, start) == tries_bytes(
                    code.tries@,
                    i as int,
                    moved@,
                    out@,
                ),
            decreases code.tries.len() - i,
        {
            let item = code.tries[i];
            push_u32(out, item.start_addr);
            push_u16(out, item.insn_count);
            let handler: u16 = match moved.get(item.handler_off as u32) {
                Some(offset) => offset,
                None => item.handler_off,
            };
            push_u16(out, handler);
            i += 1;
        }
        let ghost tried = out@;
        out.extend_from_slice(handlers.as_slice());
        assert(out@ =~= tried + handlers@);
    }
    Ok(())
}

pub fn write_code_items(
    base: u64,
    methods: &Vec<EncodedMethod>,
    codes: &SortedMap<CodeItem>,
    debug: &SortedMap<u32>,
    out: &mut Vec<u8>,
) -> (r: Result<SortedMap<u32>, Error>)
    requires
        codes.wf(),
        debug.wf(),
    ensures
        match r {
            Ok(v) => v.wf() && code_section(
                base as int,
                methods@,
                0,
                codes@,
                debug@,
                old(out)@,
                Entries::empty(),
            ) == Ok::<(Seq<u8>, Entries<u32>), Error>((final(out)@, v@)),
            Err(e) => code_section(
                base as int,
                methods@,
                0,
                codes@,
                debug@,
                old(out)@,
                Entries::empty(),
            ) == Err::<(Seq<u8>, Entries<u32>), Error>(e),
        },
{
    let mut offsets: SortedMap<u32> = SortedMap::new();
    let mut i: usize = 0;
    while i < methods.len()
        invariant
            i <= methods.len(),
            codes.wf(),
            debug.wf(),
            offsets.wf(),
            code_section(
                base as int,
                methods@,
                0,
                codes@,
                debug@,
                old(out)@,
                Entries::empty(),
            ) == code_section(
                base as int,
                methods@,
                i as int,
                codes@,
                debug@,
                out@,
                offsets@,
            ),
        decreases methods.len() - i,
    {
        let id: u32 = methods[i].method_idx;
        if let Some(p) = codes.position(id) {
            assert(codes@.values[p as int] == codes.values@[p as int]@);
            align4(out);
            let offset: u32 = offset_at(base, out);
            let debug_off: u32 = get_or_zero(debug, id);
            write_code(&codes.values[p], debug_off, out)?;
            offsets.insert(id, offset);
        }
        i += 1;
    }
    Ok(offsets)
}

// ---------------------------------------------------------------------------
// Class data
// ---------------------------------------------------------------------------

/// What fields are ordered by: their new index.
pub open spec fn field_rank(m: Tables, id: u32) -> u32 {
    match m.mapped_field(id) {
        Ok(index) => index as u32,
        Err(_) => 0,
    }
}

pub open spec fn field_ranks(fields: Seq<EncodedField>, m: Tables) -> Seq<Seq<u32>> {
    fields.map_values(|x: EncodedField| seq![field_rank(m, x.field_idx)])
}

/// Fields in the order of their new indices.
pub open spec fn fields_in_order(fields: Seq<EncodedField>, m: Tables) -> Seq<EncodedField> {
    picked(fields, sort_order(field_ranks(fields, m), fields.len()))
}

/// The fields from `i` on: the difference to the index before, and the flags.
pub open spec fn fields_bytes(
    fields: Seq<EncodedField>,
    i: int,
    previous: u32,
    m: Tables,
    done: Seq<u8>,
) -> Result<Seq<u8>, Error>
    decreases fields.len() - i,
{
    if i >= fields.len() {
        Ok(done)
    } else {
        match m.mapped_field(fields[i].field_idx) {
            Err(e) => Err(e),
            Ok(index) => fields_bytes(
                fields,
                i + 1,
                index as u32,
                m,
                done + uleb_bytes((index - previous) as u32) + uleb_bytes(fields[i].access_flags),
            ),
        }
    }
}

/// The methods from `i` on: the difference to the index before, the flags, and
/// where the code stands.
pub open spec fn methods_bytes(
    methods: Seq<EncodedMethod>,
    i: int,
    previous: u32,
    m: Tables,
    code: Entries<u32>,
    done: Seq<u8>,
) -> Result<Seq<u8>, Error>
    decreases methods.len() - i,
{
    if i >= methods.len() {
        Ok(done)
    } else {
        match m.mapped_method(methods[i].method_idx) {
            Err(e) => Err(e),
            Ok(index) => methods_bytes(
                methods,
                i + 1,
                index as u32,
                m,
                code,
                done + uleb_bytes((index - previous) as u32) + uleb_bytes(
                    methods[i].access_flags,
                ) + uleb_bytes(or_zero(code, methods[i].method_idx)),
            ),
        }
    }
}

/// The members of the class with new indices, behind `done`.
pub open spec fn members_bytes(c: Members, m: Tables, code: Entries<u32>, done: Seq<u8>) -> Result<
    Seq<u8>,
    Error,
> {
    let head = done + uleb_bytes(low32(c.static_fields.len() as int)) + uleb_bytes(
        low32(c.instance_fields.len() as int),
    ) + uleb_bytes(low32(c.direct_methods.len() as int)) + uleb_bytes(
        low32(c.virtual_methods.len() as int),
    );
    match fields_bytes(fields_in_order(c.static_fields, m), 0, 0, m, head) {
        Err(e) => Err(e),
        Ok(a) => match fields_bytes(fields_in_order(c.instance_fields, m), 0, 0, m, a) {
            Err(e) => Err(e),
            Ok(b) => match methods_bytes(methods_in_order(c.direct_methods, m), 0, 0, m, code, b) {
                Err(e) => Err(e),
                Ok(d) => methods_bytes(methods_in_order(c.virtual_methods, m), 0, 0, m, code, d),
            },
        },
    }
}

/// The class data, and where it stands; a class without members has none.
pub open spec fn class_data_section(
    base: int,
    c: Members,
    m: Tables,
    code: Entries<u32>,
    data: Seq<u8>,
) -> Result<(Seq<u8>, u32), Error> {
    if c.fields().len() == 0 && c.methods().len() == 0 {
        Ok((data, 0))
    } else {
        match members_bytes(c, m, code, data) {
            Err(e) => Err(e),
            Ok(more) => Ok((more, offset_of(base, data))),
        }
    }
}

fn order_fields(fields: &Vec<EncodedField>, mapper: &IndexMapper<'_>) -> (r: Vec<EncodedField>)
    ensures
        r@ == fields_in_order(fields@, mapper@),
{
    let mut keys: Vec<Vec<u32>> = Vec::new();
    let mut i: usize = 0;
    while i < fields.len()
        invariant
            i <= fields.len(),
            keys.len() == i,
            forall|j: int|
                0 <= j < i ==> #[trigger] keys@[j]@ == seq![
                    field_rank(mapper@, fields@[j].field_idx),
                ],
        decreases fields.len() - i,
    {
        let rank: u32 = match mapper.mapped_field(fields[i].field_idx) {
            Ok(index) => index as u32,
            Err(_) => 0,
        };
        let mut key: Vec<u32> = Vec::new();
        key.push(rank);
        assert(key@ =~= seq![field_rank(mapper@, fields@[i as int].field_idx)]);
        keys.push(key);
        i += 1;
    }
    assert(lists(keys@) =~= field_ranks(fields@, mapper@));
    let order = sorted_indices(&keys);
    let ghost walk = positions(order@);
    proof {
        lemma_sort_order(field_ranks(fields@, mapper@), fields@.len());
    }
    let mut out: Vec<EncodedField> = Vec::new();
    let mut i: usize = 0;
    while i < order.len()
        invariant
            i <= order.len(),
            out.len() == i,
            walk == positions(order@),
            forall|j: int| 0 <= j < walk.len() ==> 0 <= #[trigger] walk[j] < fields@.len(),
            forall|j: int| 0 <= j < i ==> #[trigger] out@[j] == fields@[walk[j]],
        decreases order.len() - i,
    {
        assert(walk[i as int] == order@[i as int]);
        out.push(fields[order[i]]);
        i += 1;
    }
    assert(out@ =~= fields_in_order(fields@, mapper@));
    out
}

/// One-element keys that follow each other do not descend.
proof fn lemma_ranks_ascend(keys: Seq<Seq<u32>>, i: int, j: int)
    requires
        0 <= i <= j < keys.len(),
        forall|k: int| 0 <= k < keys.len() ==> (#[trigger] keys[k]).len() == 1,
    ensures
        keys[sort_order(keys, keys.len())[i]][0] <= keys[sort_order(keys, keys.len())[j]][0],
{
    lemma_sort_order(keys, keys.len());
    let order = sort_order(keys, keys.len());
    let a = keys[order[i]];
    let b = keys[order[j]];
    reveal_with_fuel(less_from, 2);
    assert(a.len() == 1 && b.len() == 1);
    if i < j {
        assert(lex_less(a, b) || a == b);
    }
}

fn write_fields(source: &Vec<EncodedField>, mapper: &IndexMapper<'_>, out: &mut Vec<u8>) -> (r: Result<
    (),
    Error,
>)
    ensures
        match r {
            Ok(_) => fields_bytes(fields_in_order(source@, mapper@), 0, 0, mapper@, old(out)@)
                == Ok::<Seq<u8>, Error>(final(out)@),
            Err(e) => fields_bytes(fields_in_order(source@, mapper@), 0, 0, mapper@, old(out)@)
                == Err::<Seq<u8>, Error>(e),
        },
{
    let fields = order_fields(source, mapper);
    let ghost ranks = field_ranks(source@, mapper@);
    let ghost order = sort_order(ranks, source@.len());
    proof {
        lemma_sort_order(ranks, source@.len());
    }
    let mut previous: u32 = 0;
    let mut i: usize = 0;
    while i < fields.len()
        invariant
            i <= fields.len(),
            ranks == field_ranks(source@, mapper@),
            order == sort_order(ranks, source@.len()),
            order.len() == source@.len(),
            forall|k: int| 0 <= k < order.len() ==> 0 <= #[trigger] order[k] < source@.len(),
            fields@ == picked(source@, order),
            fields@ == fields_in_order(source@, mapper@),
            previous == 0 || (i > 0 && previous == ranks[order[i - 1]][0]),
            fields_bytes(fields@, 0, 0, mapper@, old(out)@) == fields_bytes(
                fields@,
                i as int,
                previous,
                mapper@,
                out@,
            ),
        decreases fields.len() - i,
    {
        let index: u32 = mapper.mapped_field(fields[i].field_idx)? as u32;
        proof {
            assert(ranks[order[i as int]][0] == index);
            if i > 0 {
                lemma_ranks_ascend(ranks, i - 1, i as int);
            }
        }
        write_uleb(index - previous, out);
        write_uleb(fields[i].access_flags, out);
        previous = index;
        i += 1;
    }
    Ok(())
}

fn write_methods(
    source: &Vec<EncodedMethod>,
    mapper: &IndexMapper<'_>,
    code: &SortedMap<u32>,
    out: &mut Vec<u8>,
) -> (r: Result<(), Error>)
    requires
        code.wf(),
    ensures
        match r {
            Ok(_) => methods_bytes(
                methods_in_order(source@, mapper@),
                0,
                0,
                mapper@,
                code@,
                old(out)@,
            ) == Ok::<Seq<u8>, Error>(final(out)@),
            Err(e) => methods_bytes(
                methods_in_order(source@, mapper@),
                0,
                0,
                mapper@,
                code@,
                old(out)@,
            ) == Err::<Seq<u8>, Error>(e),
        },
{
    let methods = order_methods(source, mapper);
    let ghost ranks = method_ranks(source@, mapper@);
    let ghost order = sort_order(ranks, source@.len());
    proof {
        lemma_sort_order(ranks, source@.len());
    }
    let mut previous: u32 = 0;
    let mut i: usize = 0;
    while i < methods.len()
        invariant
            i <= methods.len(),
            code.wf(),
            ranks == method_ranks(source@, mapper@),
            order == sort_order(ranks, source@.len()),
            order.len() == source@.len(),
            forall|k: int| 0 <= k < order.len() ==> 0 <= #[trigger] order[k] < source@.len(),
            methods@ == picked(source@, order),
            methods@ == methods_in_order(source@, mapper@),
            previous == 0 || (i > 0 && previous == ranks[order[i - 1]][0]),
            methods_bytes(methods@, 0, 0, mapper@, code@, old(out)@) == methods_bytes(
                methods@,
                i as int,
                previous,
                mapper@,
                code@,
                out@,
            ),
        decreases methods.len() - i,
    {
        let index: u32 = mapper.mapped_method(methods[i].method_idx)? as u32;
        proof {
            assert(ranks[order[i as int]][0] == index);
            if i > 0 {
                lemma_ranks_ascend(ranks, i - 1, i as int);
            }
        }
        write_uleb(index - previous, out);
        write_uleb(methods[i].access_flags, out);
        write_uleb(get_or_zero(code, methods[i].method_idx), out);
        previous = index;
        i += 1;
    }
    Ok(())
}

pub fn write_class_data(
    base: u64,
    class_data: &ClassData,
    mapper: &IndexMapper<'_>,
    code: &SortedMap<u32>,
    out: &mut Vec<u8>,
) -> (r: Result<u32, Error>)
    requires
        code.wf(),
    ensures
        match r {
            Ok(v) => class_data_section(
                base as int,
                class_data@,
                mapper@,
                code@,
                old(out)@,
            ) == Ok::<(Seq<u8>, u32), Error>((final(out)@, v)),
            Err(e) => class_data_section(
                base as int,
                class_data@,
                mapper@,
                code@,
                old(out)@,
            ) == Err::<(Seq<u8>, u32), Error>(e),
        },
{
    if class_data.static_fields.len() == 0 && class_data.instance_fields.len() == 0
        && class_data.direct_methods.len() == 0 && class_data.virtual_methods.len() == 0 {
        return Ok(0);
    }
    let offset: u32 = offset_at(base, out);
    write_uleb(cut32(class_data.static_fields.len()), out);
    write_uleb(cut32(class_data.instance_fields.len()), out);
    write_uleb(cut32(class_data.direct_methods.len()), out);
    write_uleb(cut32(class_data.virtual_methods.len()), out);
    write_fields(&class_data.static_fields, mapper, out)?;
    write_fields(&class_data.instance_fields, mapper, out)?;
    write_methods(&class_data.direct_methods, mapper, code, out)?;
    write_methods(&class_data.virtual_methods, mapper, code, out)?;
    Ok(offset)
}

} // verus!
