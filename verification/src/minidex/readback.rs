//! An extracted file reads back as what was written into it.
use vstd::prelude::*;

use crate::collections::{found, low32, Entries};
use crate::minidex::assemble::{sections_of, Sections};
use crate::minidex::emit::{
    annotation_bytes, debug_bytes, debug_op_bytes, debug_ops_bytes, elements_bytes, le16_bytes,
    le32_bytes, names_bytes, padded, string_bytes, string_p1, then_uleb, value_bytes,
};
use crate::minidex::hollow::Parts;
use crate::minidex::leb::{stands_at, uleb_bytes};
use crate::minidex::metadata::ClassAnnotations;
use crate::minidex::reader::{Code, DexTables, EncodedField, EncodedMethod, Members, TryItem};
use crate::minidex::sections::{
    annotations_section, code_bytes, code_section, debug_section, fields_bytes, fields_in_order,
    handlers_bytes, interfaces_section, items_section, members_bytes, methods_bytes,
    methods_in_order, offset_of, or_zero, params_section, placed_words, set_bytes, set_refs_section,
    sets_section, statics_section, strings_section, tries_bytes, type_list_bytes, words_bytes,
};
use crate::minidex::tables::{Proto, Tables};
use crate::minidex::values::{Annotation, DebugOp, Debugging, Item, Value};

verus! {

// ---------------------------------------------------------------------------
// Sections only grow
// ---------------------------------------------------------------------------

/// Whether `whole` begins with `part`.
pub open spec fn begins_with(whole: Seq<u8>, part: Seq<u8>) -> bool {
    part.len() <= whole.len() && forall|i: int| 0 <= i < part.len() ==> #[trigger] whole[i]
        == part[i]
}

pub proof fn lemma_begins_chain(a: Seq<u8>, b: Seq<u8>, c: Seq<u8>)
    requires
        begins_with(b, a),
        begins_with(c, b),
    ensures
        begins_with(c, a),
{
    assert forall|i: int| 0 <= i < a.len() implies #[trigger] c[i] == a[i] by {
        assert(b[i] == a[i]);
    }
}

pub proof fn lemma_annotation_grows(a: Annotation, m: Tables, dex: DexTables, done: Seq<u8>)
    requires
        annotation_bytes(a, m, dex, done) is Ok,
    ensures
        begins_with(annotation_bytes(a, m, dex, done)->Ok_0, done),
{
    let index = m.mapped_type(a.type_idx)->Ok_0;
    let head = done + uleb_bytes(index as u32)
        + uleb_bytes(low32(a.names.len() as int));
    lemma_elements_grow(a.names, a.values, 0, m, dex, head);
    lemma_begins_chain(done, head, annotation_bytes(a, m, dex, done)->Ok_0);
}

pub proof fn lemma_elements_grow(
    names: Seq<u32>,
    values: Seq<Value>,
    i: int,
    m: Tables,
    dex: DexTables,
    done: Seq<u8>,
)
    requires
        elements_bytes(names, values, i, m, dex, done) is Ok,
    ensures
        begins_with(elements_bytes(names, values, i, m, dex, done)->Ok_0, done),
    decreases values.len() - i,
{
    if 0 <= i < values.len() {
        let name = m.mapped_string(dex, names[i])->Ok_0;
        let bytes = value_bytes(values[i], m, dex)->Ok_0;
        let more = done + uleb_bytes(name) + bytes;
        lemma_elements_grow(names, values, i + 1, m, dex, more);
        lemma_begins_chain(done, more, elements_bytes(names, values, i, m, dex, done)->Ok_0);
    }
}

pub proof fn lemma_items_grow(
    base: int,
    items: Entries<Item>,
    i: int,
    m: Tables,
    dex: DexTables,
    data: Seq<u8>,
    offsets: Entries<u32>,
)
    requires
        items_section(base, items, i, m, dex, data, offsets) is Ok,
    ensures
        begins_with(items_section(base, items, i, m, dex, data, offsets)->Ok_0.0, data),
    decreases items.keys.len() - i,
{
    if i < items.keys.len() {
        let start = data.push(items.values[i].visibility);
        let more = annotation_bytes(items.values[i].annotation, m, dex, start)->Ok_0;
        let next = offsets.put(items.keys[i], offset_of(base, data));
        lemma_annotation_grows(items.values[i].annotation, m, dex, start);
        lemma_begins_chain(data, start, more);
        lemma_items_grow(base, items, i + 1, m, dex, more, next);
        lemma_begins_chain(
            data,
            more,
            items_section(base, items, i, m, dex, data, offsets)->Ok_0.0,
        );
    }
}

pub proof fn lemma_sets_grow(
    base: int,
    sets: Entries<Seq<u32>>,
    i: int,
    items: Entries<Item>,
    m: Tables,
    placed: Entries<u32>,
    data: Seq<u8>,
    offsets: Entries<u32>,
)
    ensures
        begins_with(sets_section(base, sets, i, items, m, placed, data, offsets).0, data),
    decreases sets.keys.len() - i,
{
    if i < sets.keys.len() {
        let more = data + set_bytes(sets.values[i], items, m, placed);
        let next = offsets.put(sets.keys[i], offset_of(base, data));
        lemma_sets_grow(base, sets, i + 1, items, m, placed, more, next);
        lemma_begins_chain(
            data,
            more,
            sets_section(base, sets, i, items, m, placed, data, offsets).0,
        );
    }
}

pub proof fn lemma_set_refs_grow(
    base: int,
    set_refs: Entries<Seq<u32>>,
    i: int,
    placed: Entries<u32>,
    data: Seq<u8>,
    offsets: Entries<u32>,
)
    ensures
        begins_with(set_refs_section(base, set_refs, i, placed, data, offsets).0, data),
    decreases set_refs.keys.len() - i,
{
    if i < set_refs.keys.len() {
        let more = data + (le32_bytes(low32(set_refs.values[i].len() as int)) + words_bytes(
            placed_words(set_refs.values[i], placed),
        ));
        let next = offsets.put(set_refs.keys[i], offset_of(base, data));
        lemma_set_refs_grow(base, set_refs, i + 1, placed, more, next);
        lemma_begins_chain(
            data,
            more,
            set_refs_section(base, set_refs, i, placed, data, offsets).0,
        );
    }
}

pub proof fn lemma_annotations_grow(
    base: int,
    a: ClassAnnotations,
    m: Tables,
    dex: DexTables,
    data: Seq<u8>,
)
    requires
        annotations_section(base, a, m, dex, data) is Ok,
    ensures
        begins_with(annotations_section(base, a, m, dex, data)->Ok_0.0, data),
{
    if let Some(d) = a.directory {
        let e = Entries::<u32>::empty();
        let (with_items, items) = items_section(base, a.items, 0, m, dex, data, e)->Ok_0;
        lemma_items_grow(base, a.items, 0, m, dex, data, e);
        let s = padded(with_items);
        lemma_begins_chain(data, with_items, s);
        let (with_sets, sets) = sets_section(base, a.sets, 0, a.items, m, items, s, e);
        lemma_sets_grow(base, a.sets, 0, a.items, m, items, s, e);
        lemma_begins_chain(data, s, with_sets);
        let t = padded(with_sets);
        lemma_begins_chain(data, with_sets, t);
        let (with_refs, set_refs) = set_refs_section(base, a.set_refs, 0, sets, t, e);
        lemma_set_refs_grow(base, a.set_refs, 0, sets, t, e);
        lemma_begins_chain(data, t, with_refs);
        let head = padded(with_refs);
        lemma_begins_chain(data, with_refs, head);
        lemma_begins_chain(data, head, annotations_section(base, a, m, dex, data)->Ok_0.0);
    }
}

pub proof fn lemma_debug_ops_grow(ops: Seq<DebugOp>, i: int, m: Tables, dex: DexTables, done: Seq<u8>)
    requires
        debug_ops_bytes(ops, i, m, dex, done) is Ok,
    ensures
        begins_with(debug_ops_bytes(ops, i, m, dex, done)->Ok_0, done),
    decreases ops.len() - i,
{
    if i < ops.len() {
        let more = debug_op_bytes(ops[i], m, dex, done)->Ok_0;
        assert(begins_with(more, done));
        lemma_debug_ops_grow(ops, i + 1, m, dex, more);
        lemma_begins_chain(done, more, debug_ops_bytes(ops, i, m, dex, done)->Ok_0);
    }
}

pub proof fn lemma_names_grow(names: Seq<u32>, i: int, m: Tables, dex: DexTables, done: Seq<u8>)
    requires
        names_bytes(names, i, m, dex, done) is Ok,
    ensures
        begins_with(names_bytes(names, i, m, dex, done)->Ok_0, done),
    decreases names.len() - i,
{
    if i < names.len() {
        let more = then_uleb(
            Ok(done),
            string_p1(names[i], m, dex),
        )->Ok_0;
        lemma_names_grow(names, i + 1, m, dex, more);
        lemma_begins_chain(done, more, names_bytes(names, i, m, dex, done)->Ok_0);
    }
}

pub proof fn lemma_debug_item_grows(d: Debugging, m: Tables, dex: DexTables, done: Seq<u8>)
    requires
        debug_bytes(d, m, dex, done) is Ok,
    ensures
        begins_with(debug_bytes(d, m, dex, done)->Ok_0, done),
{
    let head = done + uleb_bytes(d.line_start) + uleb_bytes(low32(d.parameter_names.len() as int));
    let named = names_bytes(d.parameter_names, 0, m, dex, head)->Ok_0;
    lemma_names_grow(d.parameter_names, 0, m, dex, head);
    lemma_begins_chain(done, head, named);
    lemma_debug_ops_grow(d.ops, 0, m, dex, named);
    lemma_begins_chain(done, named, debug_bytes(d, m, dex, done)->Ok_0);
}

pub proof fn lemma_debug_grows(
    base: int,
    methods: Seq<EncodedMethod>,
    i: int,
    debug: Entries<Debugging>,
    m: Tables,
    dex: DexTables,
    data: Seq<u8>,
    offsets: Entries<u32>,
)
    requires
        debug_section(base, methods, i, debug, m, dex, data, offsets) is Ok,
    ensures
        begins_with(debug_section(base, methods, i, debug, m, dex, data, offsets)->Ok_0.0, data),
    decreases methods.len() - i,
{
    if i < methods.len() {
        let id = methods[i].method_idx;
        let end = debug_section(base, methods, i, debug, m, dex, data, offsets)->Ok_0.0;
        match debug.get(id) {
            None => {
                lemma_debug_grows(base, methods, i + 1, debug, m, dex, data, offsets);
            },
            Some(d) => {
                let more = debug_bytes(d, m, dex, data)->Ok_0;
                lemma_debug_item_grows(d, m, dex, data);
                let next = offsets.put(id, offset_of(base, data));
                lemma_debug_grows(base, methods, i + 1, debug, m, dex, more, next);
                lemma_begins_chain(data, more, end);
            },
        }
    }
}

pub proof fn lemma_tries_grow(tries: Seq<TryItem>, i: int, moved: Map<u32, u16>, done: Seq<u8>)
    ensures
        begins_with(tries_bytes(tries, i, moved, done), done),
    decreases tries.len() - i,
{
    if i < tries.len() {
        let handler = match found(moved, tries[i].handler_off as u32) {
            Some(offset) => offset,
            None => tries[i].handler_off,
        };
        let more = done + le32_bytes(tries[i].start_addr) + le16_bytes(tries[i].insn_count)
            + le16_bytes(handler);
        lemma_tries_grow(tries, i + 1, moved, more);
        lemma_begins_chain(done, more, tries_bytes(tries, i, moved, done));
    }
}

/// The fixed part of a code item.
pub open spec fn code_head(code: Code, debug_off: u32) -> Seq<u8> {
    le16_bytes(code.registers_size) + le16_bytes(code.ins_size) + le16_bytes(code.outs_size)
        + le16_bytes(code.tries_size) + le32_bytes(debug_off) + le32_bytes(
        low32((code.insns.len() / 2) as int),
    ) + code.insns
}

pub proof fn lemma_code_grows(code: Code, debug_off: u32, done: Seq<u8>)
    requires
        code_bytes(code, debug_off, done) is Ok,
    ensures
        begins_with(code_bytes(code, debug_off, done)->Ok_0, done + code_head(code, debug_off)),
        begins_with(code_bytes(code, debug_off, done)->Ok_0, done),
{
    let head = done + le16_bytes(code.registers_size) + le16_bytes(code.ins_size) + le16_bytes(
        code.outs_size,
    ) + le16_bytes(code.tries_size) + le32_bytes(debug_off) + le32_bytes(
        low32((code.insns.len() / 2) as int),
    ) + code.insns;
    let end = code_bytes(code, debug_off, done)->Ok_0;
    assert(head =~= done + code_head(code, debug_off));
    if code.tries.len() != 0 {
        let (handlers, moved) = handlers_bytes(
            code.handlers,
            0,
            uleb_bytes(low32(code.handlers.len() as int)),
            Map::empty(),
        )->Ok_0;
        let aligned = if (code.insns.len() / 2) % 2 != 0 {
            head + le16_bytes(0)
        } else {
            head
        };
        let tried = tries_bytes(code.tries, 0, moved, aligned);
        lemma_tries_grow(code.tries, 0, moved, aligned);
        assert(begins_with(aligned, head));
        lemma_begins_chain(head, aligned, tried);
        assert(begins_with(end, tried));
        lemma_begins_chain(head, tried, end);
    }
    assert(begins_with(head, done));
    lemma_begins_chain(done, head, end);
}

pub proof fn lemma_code_section_grows(
    base: int,
    methods: Seq<EncodedMethod>,
    i: int,
    codes: Entries<Code>,
    debug: Entries<u32>,
    data: Seq<u8>,
    offsets: Entries<u32>,
)
    requires
        code_section(base, methods, i, codes, debug, data, offsets) is Ok,
    ensures
        begins_with(code_section(base, methods, i, codes, debug, data, offsets)->Ok_0.0, data),
    decreases methods.len() - i,
{
    if i < methods.len() {
        let id = methods[i].method_idx;
        let end = code_section(base, methods, i, codes, debug, data, offsets)->Ok_0.0;
        match codes.get(id) {
            None => {
                lemma_code_section_grows(base, methods, i + 1, codes, debug, data, offsets);
            },
            Some(code) => {
                let start = padded(data);
                let more = code_bytes(code, or_zero(debug, id), start)->Ok_0;
                let next = offsets.put(id, offset_of(base, start));
                lemma_code_grows(code, or_zero(debug, id), start);
                lemma_begins_chain(data, start, more);
                lemma_code_section_grows(base, methods, i + 1, codes, debug, more, next);
                lemma_begins_chain(data, more, end);
            },
        }
    }
}

pub proof fn lemma_fields_grow(
    fields: Seq<EncodedField>,
    i: int,
    previous: u32,
    m: Tables,
    done: Seq<u8>,
)
    requires
        fields_bytes(fields, i, previous, m, done) is Ok,
    ensures
        begins_with(fields_bytes(fields, i, previous, m, done)->Ok_0, done),
    decreases fields.len() - i,
{
    if i < fields.len() {
        let index = m.mapped_field(fields[i].field_idx)->Ok_0;
        let more = done + uleb_bytes((index - previous) as u32) + uleb_bytes(
            fields[i].access_flags,
        );
        lemma_fields_grow(fields, i + 1, index as u32, m, more);
        lemma_begins_chain(done, more, fields_bytes(fields, i, previous, m, done)->Ok_0);
    }
}

pub proof fn lemma_methods_grow(
    methods: Seq<EncodedMethod>,
    i: int,
    previous: u32,
    m: Tables,
    code: Entries<u32>,
    done: Seq<u8>,
)
    requires
        methods_bytes(methods, i, previous, m, code, done) is Ok,
    ensures
        begins_with(methods_bytes(methods, i, previous, m, code, done)->Ok_0, done),
    decreases methods.len() - i,
{
    if i < methods.len() {
        let index = m.mapped_method(methods[i].method_idx)->Ok_0;
        let more = done + uleb_bytes((index - previous) as u32) + uleb_bytes(
            methods[i].access_flags,
        ) + uleb_bytes(or_zero(code, methods[i].method_idx));
        lemma_methods_grow(methods, i + 1, index as u32, m, code, more);
        lemma_begins_chain(done, more, methods_bytes(methods, i, previous, m, code, done)->Ok_0);
    }
}

pub proof fn lemma_members_grow(c: Members, m: Tables, code: Entries<u32>, done: Seq<u8>)
    requires
        members_bytes(c, m, code, done) is Ok,
    ensures
        begins_with(members_bytes(c, m, code, done)->Ok_0, done),
{
    let head = done + uleb_bytes(low32(c.static_fields.len() as int)) + uleb_bytes(
        low32(c.instance_fields.len() as int),
    ) + uleb_bytes(low32(c.direct_methods.len() as int)) + uleb_bytes(
        low32(c.virtual_methods.len() as int),
    );
    let statics = fields_in_order(c.static_fields, m);
    let instances = fields_in_order(c.instance_fields, m);
    let directs = methods_in_order(c.direct_methods, m);
    let virtuals = methods_in_order(c.virtual_methods, m);
    let a = fields_bytes(statics, 0, 0, m, head)->Ok_0;
    let b = fields_bytes(instances, 0, 0, m, a)->Ok_0;
    let d = methods_bytes(directs, 0, 0, m, code, b)->Ok_0;
    lemma_fields_grow(statics, 0, 0, m, head);
    lemma_fields_grow(instances, 0, 0, m, a);
    lemma_methods_grow(directs, 0, 0, m, code, b);
    lemma_methods_grow(virtuals, 0, 0, m, code, d);
    lemma_begins_chain(done, head, a);
    lemma_begins_chain(done, a, b);
    lemma_begins_chain(done, b, d);
    lemma_begins_chain(done, d, members_bytes(c, m, code, done)->Ok_0);
}

// ---------------------------------------------------------------------------
// Where parts stand
// ---------------------------------------------------------------------------

/// Whether a part stands in a data section that starts at `base` of the file,
/// at offset `offset` of the file.
pub open spec fn held(base: int, data: Seq<u8>, offset: u32, part: Seq<u8>) -> bool {
    base <= offset && stands_at(data, offset - base, part)
}

pub proof fn lemma_held_longer(base: int, a: Seq<u8>, b: Seq<u8>, offset: u32, part: Seq<u8>)
    requires
        held(base, a, offset, part),
        begins_with(b, a),
    ensures
        held(base, b, offset, part),
{
    let at = offset - base;
    assert forall|i: int| 0 <= i < part.len() implies b[at + i] == #[trigger] part[i] by {
        assert(a[at + i] == part[i]);
    }
}

proof fn lemma_strings_placed(
    base: int,
    strings: Seq<Seq<char>>,
    i: int,
    data: Seq<u8>,
    offsets: Seq<u32>,
)
    requires
        0 <= base,
        0 <= i <= strings.len(),
        offsets.len() == i,
        base + strings_section(base, strings, i, data, offsets).0.len() <= u32::MAX,
    ensures
        begins_with(strings_section(base, strings, i, data, offsets).0, data),
        strings_section(base, strings, i, data, offsets).1.len() == strings.len(),
        forall|j: int|
            0 <= j < i ==> #[trigger] strings_section(base, strings, i, data, offsets).1[j]
                == offsets[j],
        forall|j: int|
            i <= j < strings.len() ==> held(
                base,
                strings_section(base, strings, i, data, offsets).0,
                #[trigger] strings_section(base, strings, i, data, offsets).1[j],
                string_bytes(strings[j]),
            ),
    decreases strings.len() - i,
{
    if i < strings.len() {
        let part = string_bytes(strings[i]);
        let more = data + part;
        let next = offsets.push(offset_of(base, data));
        let (end, all) = strings_section(base, strings, i, data, offsets);
        lemma_strings_bytes_grow(base, strings, i + 1, more, next);
        lemma_strings_placed(base, strings, i + 1, more, next);
        lemma_begins_chain(data, more, end);
        assert(all[i] == next[i]);
        assert(next[i] == base + data.len());
        assert(held(base, more, next[i], part)) by {
            assert forall|k: int| 0 <= k < part.len() implies more[data.len() + k]
                == #[trigger] part[k] by {}
        }
        lemma_held_longer(base, more, end, next[i], part);
        assert forall|j: int| 0 <= j < i implies #[trigger] all[j] == offsets[j] by {
            assert(all[j] == next[j]);
        }
    }
}

proof fn lemma_strings_bytes_grow(
    base: int,
    strings: Seq<Seq<char>>,
    i: int,
    data: Seq<u8>,
    offsets: Seq<u32>,
)
    ensures
        data.len() <= strings_section(base, strings, i, data, offsets).0.len(),
    decreases strings.len() - i,
{
    if i < strings.len() {
        lemma_strings_bytes_grow(
            base,
            strings,
            i + 1,
            data + string_bytes(strings[i]),
            offsets.push(offset_of(base, data)),
        );
    }
}

pub proof fn lemma_params_bytes_grow(
    base: int,
    protos: Seq<Proto>,
    i: int,
    data: Seq<u8>,
    offsets: Seq<u32>,
)
    ensures
        data.len() <= params_section(base, protos, i, data, offsets).0.len(),
    decreases protos.len() - i,
{
    if i < protos.len() {
        if protos[i].params.len() == 0 {
            lemma_params_bytes_grow(base, protos, i + 1, data, offsets.push(0));
        } else {
            lemma_params_bytes_grow(
                base,
                protos,
                i + 1,
                padded(data) + type_list_bytes(protos[i].params),
                offsets.push(offset_of(base, padded(data))),
            );
        }
    }
}

/// Whether a parameter list stands where its offset says; an empty one has
/// offset zero.
pub open spec fn list_held(base: int, data: Seq<u8>, offset: u32, list: Seq<u16>) -> bool {
    if list.len() == 0 {
        offset == 0
    } else {
        held(base, data, offset, type_list_bytes(list))
    }
}

proof fn lemma_params_placed(
    base: int,
    protos: Seq<Proto>,
    i: int,
    data: Seq<u8>,
    offsets: Seq<u32>,
)
    requires
        0 <= base,
        0 <= i <= protos.len(),
        offsets.len() == i,
        base + params_section(base, protos, i, data, offsets).0.len() <= u32::MAX,
    ensures
        begins_with(params_section(base, protos, i, data, offsets).0, data),
        params_section(base, protos, i, data, offsets).1.len() == protos.len(),
        forall|j: int|
            0 <= j < i ==> #[trigger] params_section(base, protos, i, data, offsets).1[j]
                == offsets[j],
        forall|j: int|
            i <= j < protos.len() ==> list_held(
                base,
                params_section(base, protos, i, data, offsets).0,
                #[trigger] params_section(base, protos, i, data, offsets).1[j],
                protos[j].params,
            ),
    decreases protos.len() - i,
{
    if i < protos.len() {
        let list = protos[i].params;
        let (end, all) = params_section(base, protos, i, data, offsets);
        if list.len() == 0 {
            let next = offsets.push(0);
            lemma_params_placed(base, protos, i + 1, data, next);
            assert(all[i] == next[i]);
            assert forall|j: int| 0 <= j < i implies #[trigger] all[j] == offsets[j] by {
                assert(all[j] == next[j]);
            }
        } else {
            let start = padded(data);
            let part = type_list_bytes(list);
            let more = start + part;
            let next = offsets.push(offset_of(base, start));
            lemma_params_bytes_grow(base, protos, i + 1, more, next);
            lemma_params_placed(base, protos, i + 1, more, next);
            assert(begins_with(more, data));
            lemma_begins_chain(data, more, end);
            assert(all[i] == next[i]);
            assert(next[i] == base + start.len());
            assert(held(base, more, next[i], part)) by {
                assert forall|k: int| 0 <= k < part.len() implies more[start.len() + k]
                    == #[trigger] part[k] by {}
            }
            lemma_held_longer(base, more, end, next[i], part);
            assert forall|j: int| 0 <= j < i implies #[trigger] all[j] == offsets[j] by {
                assert(all[j] == next[j]);
            }
        }
    }
}

/// What the data section holds: every string and every parameter list where
/// its offset says.
pub open spec fn sections_hold(m: Tables, s: Sections) -> bool {
    &&& s.string_offsets.len() == m.strings.len()
    &&& s.param_offsets.len() == m.protos.len()
    &&& forall|j: int|
        0 <= j < m.strings.len() ==> held(
            m.data_at(),
            s.data,
            #[trigger] s.string_offsets[j],
            string_bytes(m.strings[j]),
        )
    &&& forall|j: int|
        0 <= j < m.protos.len() ==> list_held(
            m.data_at(),
            s.data,
            #[trigger] s.param_offsets[j],
            m.protos[j].params,
        )
}

/// Every string and every parameter list stands in the data section where its
/// offset says.
#[verifier::spinoff_prover]
pub proof fn lemma_sections_hold(members: Members, parts: Parts, m: Tables, dex: DexTables)
    requires
        sections_of(members, parts, m, dex) is Ok,
        m.data_at() + sections_of(members, parts, m, dex)->Ok_0.data.len() <= u32::MAX,
    ensures
        sections_hold(m, sections_of(members, parts, m, dex)->Ok_0),
{
    reveal(sections_of);
    let base = m.data_at();
    let s = sections_of(members, parts, m, dex)->Ok_0;
    let none = Seq::<u32>::empty();
    let (a, string_offsets) = strings_section(base, m.strings, 0, Seq::empty(), none);
    let (b, param_offsets) = params_section(base, m.protos, 0, padded(a), none);
    let (c, interfaces_off) = interfaces_section(base, parts.interfaces, m, b)->Ok_0;
    let (d, annotations) = annotations_section(base, parts.annotations, m, dex, c)->Ok_0;
    let (f, static_values_off) = statics_section(base, parts.static_values, m, dex, d)->Ok_0;
    let methods = methods_in_order(members.methods(), m);
    let e = Entries::<u32>::empty();
    let (g, debug_offsets) = debug_section(
        base,
        methods,
        0,
        parts.debug_info,
        m,
        dex,
        f,
        e,
    )->Ok_0;
    let (h, code_offsets) = code_section(base, methods, 0, parts.codes, debug_offsets, g, e)->Ok_0;
    assert(begins_with(c, b));
    lemma_annotations_grow(base, parts.annotations, m, dex, c);
    assert(begins_with(f, d));
    lemma_debug_grows(base, methods, 0, parts.debug_info, m, dex, f, e);
    lemma_code_section_grows(base, methods, 0, parts.codes, debug_offsets, g, e);
    if !(members.fields().len() == 0 && members.methods().len() == 0) {
        lemma_members_grow(members, m, code_offsets, h);
    }
    lemma_begins_chain(b, c, d);
    lemma_begins_chain(b, d, f);
    lemma_begins_chain(b, f, g);
    lemma_begins_chain(b, g, h);
    lemma_begins_chain(b, h, s.data);
    lemma_params_bytes_grow(base, m.protos, 0, padded(a), none);
    lemma_strings_placed(base, m.strings, 0, Seq::empty(), none);
    lemma_params_placed(base, m.protos, 0, padded(a), none);
    assert(begins_with(padded(a), a));
    lemma_begins_chain(a, padded(a), b);
    lemma_begins_chain(a, b, s.data);
    assert(s.string_offsets == string_offsets && s.param_offsets == param_offsets);
    assert forall|j: int| 0 <= j < m.strings.len() implies held(
        base,
        s.data,
        #[trigger] s.string_offsets[j],
        string_bytes(m.strings[j]),
    ) by {
        assert(held(base, a, string_offsets[j], string_bytes(m.strings[j])));
        lemma_held_longer(base, a, s.data, string_offsets[j], string_bytes(m.strings[j]));
    }
    assert forall|j: int| 0 <= j < m.protos.len() implies list_held(
        base,
        s.data,
        #[trigger] s.param_offsets[j],
        m.protos[j].params,
    ) by {
        let list = m.protos[j].params;
        assert(list_held(base, b, param_offsets[j], list));
        if list.len() > 0 {
            lemma_held_longer(base, b, s.data, param_offsets[j], type_list_bytes(list));
        }
    }
}

} // verus!
