//! The canonical order of the identifier tables: strings by their UTF-16
//! units, types by descriptor, prototypes by return type and parameters,
//! fields and methods by class, name and type, each without repetition, and
//! every index updated to match.
use vstd::prelude::*;

use crate::collections::{cut32, low32, views, Entries, SortedMap};
use crate::dex_format::{string_key, string_sort_key};
use crate::minidex::mapper::{IndexMapper, NewProto};
use crate::minidex::tables::{lemma_position_unique, position, NewField, NewMethod, Proto, Tables};
use crate::order::{
    lemma_merged, lemma_sort_order, less_from, lex_less, lists, merge_indices, merged, positions,
    sort_order, sorted_indices,
};
use crate::text::texts;

verus! {

// ---------------------------------------------------------------------------
// Keys
// ---------------------------------------------------------------------------

pub open spec fn string_keys(strings: Seq<Seq<char>>) -> Seq<Seq<u32>> {
    strings.map_values(|s: Seq<char>| string_key(s))
}

pub open spec fn type_keys(types: Seq<u32>) -> Seq<Seq<u32>> {
    types.map_values(|d: u32| seq![d])
}

/// Numbers widened to 32 bits.
pub open spec fn widened(s: Seq<u16>) -> Seq<u32> {
    s.map_values(|x: u16| x as u32)
}

/// Return type first, and then the parameters.
pub open spec fn proto_key(p: Proto) -> Seq<u32> {
    seq![p.return_type_idx] + widened(p.params)
}

/// Everything that a prototype says.
pub open spec fn proto_identity(p: Proto) -> Seq<u32> {
    seq![p.shorty_idx] + proto_key(p)
}

pub open spec fn proto_keys(protos: Seq<Proto>) -> Seq<Seq<u32>> {
    protos.map_values(|p: Proto| proto_key(p))
}

pub open spec fn proto_identities(protos: Seq<Proto>) -> Seq<Seq<u32>> {
    protos.map_values(|p: Proto| proto_identity(p))
}

pub open spec fn field_key(f: NewField) -> Seq<u32> {
    seq![f.class_idx as u32, f.name_idx, f.type_idx as u32]
}

pub open spec fn field_keys(fields: Seq<NewField>) -> Seq<Seq<u32>> {
    fields.map_values(|f: NewField| field_key(f))
}

pub open spec fn method_key(m: NewMethod) -> Seq<u32> {
    seq![m.class_idx as u32, m.name_idx, m.proto_idx as u32]
}

pub open spec fn method_keys(methods: Seq<NewMethod>) -> Seq<Seq<u32>> {
    methods.map_values(|m: NewMethod| method_key(m))
}

// ---------------------------------------------------------------------------
// The canonical form
// ---------------------------------------------------------------------------

/// The items that the given positions pick.
pub open spec fn picked<T>(items: Seq<T>, order: Seq<int>) -> Seq<T> {
    Seq::new(order.len(), |i: int| items[order[i]])
}

/// Where each index stands in `order`.
pub open spec fn places_in(order: Seq<int>) -> Seq<u32> {
    Seq::new(order.len(), |o: int| low32(position(order, o)))
}

pub open spec fn proto_with_strings(p: Proto, places: Seq<u32>) -> Proto {
    Proto { shorty_idx: places[p.shorty_idx as int], ..p }
}

pub open spec fn proto_with_types(p: Proto, places: Seq<u16>) -> Proto {
    Proto {
        shorty_idx: p.shorty_idx,
        return_type_idx: places[p.return_type_idx as int] as u32,
        params: Seq::new(p.params.len(), |i: int| places[p.params[i] as int]),
    }
}

pub open spec fn field_with_string(f: NewField, places: Seq<u32>) -> NewField {
    NewField { name_idx: places[f.name_idx as int], ..f }
}

pub open spec fn field_with_types(f: NewField, places: Seq<u16>) -> NewField {
    NewField {
        class_idx: places[f.class_idx as int],
        type_idx: places[f.type_idx as int],
        name_idx: f.name_idx,
    }
}

pub open spec fn method_with_string(m: NewMethod, places: Seq<u32>) -> NewMethod {
    NewMethod { name_idx: places[m.name_idx as int], ..m }
}

pub open spec fn method_with_type(m: NewMethod, places: Seq<u16>) -> NewMethod {
    NewMethod { class_idx: places[m.class_idx as int], ..m }
}

pub open spec fn method_with_proto(m: NewMethod, places: Seq<u16>) -> NewMethod {
    NewMethod { proto_idx: places[m.proto_idx as int], ..m }
}

/// A map whose values have moved.
pub open spec fn moved(m: Map<u32, u16>, places: Seq<u16>) -> Map<u32, u16> {
    m.map_values(|v: u16| places[v as int])
}

impl Tables {
    pub open spec fn string_places(self) -> Seq<u32> {
        places_in(sort_order(string_keys(self.strings), self.strings.len()))
    }

    /// With the strings in order.
    pub open spec fn strings_sorted(self) -> Tables {
        let places = self.string_places();
        Tables {
            strings: picked(
                self.strings,
                sort_order(string_keys(self.strings), self.strings.len()),
            ),
            types: Seq::new(self.types.len(), |i: int| places[self.types[i] as int]),
            protos: Seq::new(
                self.protos.len(),
                |i: int| proto_with_strings(self.protos[i], places),
            ),
            fields: Seq::new(
                self.fields.len(),
                |i: int| field_with_string(self.fields[i], places),
            ),
            methods: Seq::new(
                self.methods.len(),
                |i: int| method_with_string(self.methods[i], places),
            ),
            ..self
        }
    }

    pub open spec fn type_merge(self) -> (Seq<int>, Seq<u16>) {
        merged(type_keys(self.types), type_keys(self.types))
    }

    /// With the types in order.
    pub open spec fn types_merged(self) -> Tables {
        let (kept, places) = self.type_merge();
        let types = picked(self.types, kept);
        Tables {
            types,
            origin_types: moved(self.origin_types, places),
            synthetic_types: Entries {
                keys: types,
                values: Seq::new(types.len(), |i: int| i as u16),
            },
            primitive_types: Entries {
                keys: self.primitive_types.keys,
                values: Seq::new(
                    self.primitive_types.values.len(),
                    |i: int| places[self.primitive_types.values[i] as int],
                ),
            },
            protos: Seq::new(self.protos.len(), |i: int| proto_with_types(self.protos[i], places)),
            fields: Seq::new(self.fields.len(), |i: int| field_with_types(self.fields[i], places)),
            methods: Seq::new(
                self.methods.len(),
                |i: int| method_with_type(self.methods[i], places),
            ),
            ..self
        }
    }

    pub open spec fn proto_merge(self) -> (Seq<int>, Seq<u16>) {
        merged(proto_keys(self.protos), proto_identities(self.protos))
    }

    /// With the prototypes in order.
    pub open spec fn protos_merged(self) -> Tables {
        let (kept, places) = self.proto_merge();
        Tables {
            protos: picked(self.protos, kept),
            origin_protos: moved(self.origin_protos, places),
            methods: Seq::new(
                self.methods.len(),
                |i: int| method_with_proto(self.methods[i], places),
            ),
            ..self
        }
    }

    pub open spec fn field_merge(self) -> (Seq<int>, Seq<u16>) {
        merged(field_keys(self.fields), field_keys(self.fields))
    }

    /// With the fields in order.
    pub open spec fn fields_merged(self) -> Tables {
        let (kept, places) = self.field_merge();
        Tables {
            fields: picked(self.fields, kept),
            origin_fields: moved(self.origin_fields, places),
            ..self
        }
    }

    pub open spec fn method_merge(self) -> (Seq<int>, Seq<u16>) {
        merged(method_keys(self.methods), method_keys(self.methods))
    }

    /// With the methods in order.
    pub open spec fn methods_merged(self) -> Tables {
        let (kept, places) = self.method_merge();
        Tables {
            methods: picked(self.methods, kept),
            origin_methods: moved(self.origin_methods, places),
            ..self
        }
    }

    /// All tables in canonical order.
    pub open spec fn canonical(self) -> Tables {
        self.strings_sorted().types_merged().protos_merged().fields_merged().methods_merged()
    }
}

// ---------------------------------------------------------------------------
// Each step keeps the indices in range
// ---------------------------------------------------------------------------

pub proof fn lemma_strings_sorted(m: Tables)
    requires
        m.ok(),
    ensures
        m.strings_sorted().ok(),
        m.strings_sorted().strings.len() == m.strings.len(),
        m.string_places().len() == m.strings.len(),
        forall|d: int|
            0 <= d < m.strings.len() ==> 0 <= #[trigger] m.string_places()[d] < m.strings.len(),
        m.strings.len() <= 0x1_0000_0000 ==> forall|d: int|
            0 <= d < m.strings.len() ==> m.strings_sorted().strings[#[trigger] m.string_places()[d] as int]
                == m.strings[d],
{
    let keys = string_keys(m.strings);
    let order = sort_order(keys, m.strings.len());
    let places = m.string_places();
    let n = m.strings_sorted();
    lemma_sort_order(keys, m.strings.len());
    assert forall|d: int| 0 <= d < m.strings.len() implies 0 <= #[trigger] places[d]
        < m.strings.len() && (m.strings.len() <= 0x1_0000_0000 ==> n.strings[places[d] as int]
        == m.strings[d]) by {
        assert(order.contains(d));
        let j = choose|j: int| 0 <= j < order.len() && order[j] == d;
        lemma_position_unique(order, j);
        assert(low32(j) <= j);
    }
    assert(n.strings.no_duplicates()) by {
        assert forall|i: int, j: int|
            0 <= i < n.strings.len() && 0 <= j < n.strings.len() && i != j implies n.strings[i]
            != n.strings[j] by {
            assert(order[i] != order[j]);
        }
    }
    assert forall|i: int| 0 <= i < n.types.len() implies n.string_ok(#[trigger] n.types[i] as int) by {
        assert(m.string_ok(m.types[i] as int));
    }
    assert forall|i: int| 0 <= i < n.protos.len() implies n.proto_ok(#[trigger] n.protos[i]) by {
        assert(m.proto_ok(m.protos[i]));
    }
    assert forall|i: int| 0 <= i < n.fields.len() implies n.field_ok(#[trigger] n.fields[i]) by {
        assert(m.field_ok(m.fields[i]));
    }
    assert forall|i: int| 0 <= i < n.methods.len() implies n.method_ok(#[trigger] n.methods[i]) by {
        assert(m.method_ok(m.methods[i]));
    }
}

pub proof fn lemma_types_merged(m: Tables)
    requires
        m.ok(),
    ensures
        m.types_merged().ok(),
        m.type_merge().1.len() == m.types.len(),
        forall|i: int|
            0 <= i < m.types.len() ==> 0 <= #[trigger] m.type_merge().1[i]
                < m.types_merged().types.len(),
        forall|i: int|
            0 <= i < m.types.len() ==> m.types_merged().types[#[trigger] m.type_merge().1[i] as int]
                == m.types[i],
        forall|i: int, j: int|
            0 <= i < j < m.types_merged().types.len() ==> m.types_merged().types[i]
                < m.types_merged().types[j],
{
    let keys = type_keys(m.types);
    let (kept, places) = m.type_merge();
    let n = m.types_merged();
    lemma_merged(keys, keys);
    assert forall|i: int| 0 <= i < m.types.len() implies 0 <= #[trigger] places[i] < n.types.len()
        && n.types[places[i] as int] == m.types[i] by {
        assert(keys[kept[places[i] as int]] == keys[i]);
        assert(keys[kept[places[i] as int]][0] == m.types[kept[places[i] as int]]);
        assert(keys[i][0] == m.types[i]);
    }
    assert forall|i: int, j: int| 0 <= i < j < n.types.len() implies n.types[i] < n.types[j] by {
        let a = keys[kept[i]];
        let b = keys[kept[j]];
        assert(lex_less(a, b));
        assert(a[0] == n.types[i] && b[0] == n.types[j]);
        assert(a.len() == 1 && b.len() == 1);
        reveal_with_fuel(less_from, 2);
    }
    assert forall|i: int| 0 <= i < n.types.len() implies n.string_ok(#[trigger] n.types[i] as int) by {
        assert(m.string_ok(m.types[kept[i]] as int));
    }
    assert forall|i: int| 0 <= i < n.protos.len() implies n.proto_ok(#[trigger] n.protos[i]) by {
        assert(m.proto_ok(m.protos[i]));
    }
    assert forall|i: int| 0 <= i < n.fields.len() implies n.field_ok(#[trigger] n.fields[i]) by {
        assert(m.field_ok(m.fields[i]));
    }
    assert forall|i: int| 0 <= i < n.methods.len() implies n.method_ok(#[trigger] n.methods[i]) by {
        assert(m.method_ok(m.methods[i]));
    }
    assert forall|k: u32| #[trigger] n.origin_types.contains_key(k) implies n.type_ok(
        n.origin_types[k] as int,
    ) by {
        assert(m.origin_types.contains_key(k));
    }
    assert forall|i: int| 0 <= i < n.primitive_types.values.len() implies n.type_ok(
        #[trigger] n.primitive_types.values[i] as int,
    ) by {
        assert(m.type_ok(m.primitive_types.values[i] as int));
    }
}

pub proof fn lemma_protos_merged(m: Tables)
    requires
        m.ok(),
    ensures
        m.protos_merged().ok(),
        m.proto_merge().1.len() == m.protos.len(),
        forall|i: int|
            0 <= i < m.protos.len() ==> 0 <= #[trigger] m.proto_merge().1[i]
                < m.protos_merged().protos.len(),
        forall|i: int|
            0 <= i < m.protos.len() ==> m.protos_merged().protos[#[trigger] m.proto_merge().1[i] as int]
                == m.protos[i],
{
    let keys = proto_keys(m.protos);
    let ids = proto_identities(m.protos);
    let (kept, places) = m.proto_merge();
    let n = m.protos_merged();
    lemma_merged(keys, ids);
    assert forall|i: int| 0 <= i < m.protos.len() implies 0 <= #[trigger] places[i] < n.protos.len()
        && n.protos[places[i] as int] == m.protos[i] by {
        let k = kept[places[i] as int];
        assert(ids[k] == ids[i]);
        lemma_identity(m.protos[k], m.protos[i]);
    }
    assert forall|i: int| 0 <= i < n.protos.len() implies n.proto_ok(#[trigger] n.protos[i]) by {
        assert(m.proto_ok(m.protos[kept[i]]));
    }
    assert forall|i: int| 0 <= i < n.fields.len() implies n.field_ok(#[trigger] n.fields[i]) by {
        assert(m.field_ok(m.fields[i]));
    }
    assert forall|i: int| 0 <= i < n.methods.len() implies n.method_ok(#[trigger] n.methods[i]) by {
        assert(m.method_ok(m.methods[i]));
    }
    assert forall|k: u32| #[trigger] n.origin_protos.contains_key(k) implies n.origin_protos[k]
        < n.protos.len() by {
        assert(m.origin_protos.contains_key(k));
    }
}

/// Prototypes with equal identities are equal.
proof fn lemma_identity(a: Proto, b: Proto)
    requires
        proto_identity(a) == proto_identity(b),
    ensures
        a == b,
{
    let x = proto_identity(a);
    let y = proto_identity(b);
    assert(x[0] == a.shorty_idx && y[0] == b.shorty_idx);
    assert(x[1] == a.return_type_idx && y[1] == b.return_type_idx);
    assert(x.len() == a.params.len() + 2 && y.len() == b.params.len() + 2);
    assert forall|i: int| 0 <= i < a.params.len() implies a.params[i] == b.params[i] by {
        assert(x[i + 2] == a.params[i] as u32);
        assert(y[i + 2] == b.params[i] as u32);
    }
    assert(a.params =~= b.params);
}

pub proof fn lemma_fields_merged(m: Tables)
    requires
        m.ok(),
    ensures
        m.fields_merged().ok(),
        m.field_merge().1.len() == m.fields.len(),
        forall|i: int|
            0 <= i < m.fields.len() ==> 0 <= #[trigger] m.field_merge().1[i]
                < m.fields_merged().fields.len(),
        forall|i: int|
            0 <= i < m.fields.len() ==> m.fields_merged().fields[#[trigger] m.field_merge().1[i] as int]
                == m.fields[i],
{
    let keys = field_keys(m.fields);
    let (kept, places) = m.field_merge();
    let n = m.fields_merged();
    lemma_merged(keys, keys);
    assert forall|i: int| 0 <= i < m.fields.len() implies 0 <= #[trigger] places[i] < n.fields.len()
        && n.fields[places[i] as int] == m.fields[i] by {
        let k = kept[places[i] as int];
        assert(keys[k] == keys[i]);
        let a = field_key(m.fields[k]);
        let b = field_key(m.fields[i]);
        assert(a[0] == b[0] && a[1] == b[1] && a[2] == b[2]);
    }
    assert forall|i: int| 0 <= i < n.protos.len() implies n.proto_ok(#[trigger] n.protos[i]) by {
        assert(m.proto_ok(m.protos[i]));
    }
    assert forall|i: int| 0 <= i < n.fields.len() implies n.field_ok(#[trigger] n.fields[i]) by {
        assert(m.field_ok(m.fields[kept[i]]));
    }
    assert forall|i: int| 0 <= i < n.methods.len() implies n.method_ok(#[trigger] n.methods[i]) by {
        assert(m.method_ok(m.methods[i]));
    }
    assert forall|k: u32| #[trigger] n.origin_fields.contains_key(k) implies n.origin_fields[k]
        < n.fields.len() by {
        assert(m.origin_fields.contains_key(k));
    }
}

pub proof fn lemma_methods_merged(m: Tables)
    requires
        m.ok(),
    ensures
        m.methods_merged().ok(),
        m.method_merge().1.len() == m.methods.len(),
        forall|i: int|
            0 <= i < m.methods.len() ==> 0 <= #[trigger] m.method_merge().1[i]
                < m.methods_merged().methods.len(),
        forall|i: int|
            0 <= i < m.methods.len() ==> m.methods_merged().methods[#[trigger] m.method_merge().1[i] as int]
                == m.methods[i],
{
    let keys = method_keys(m.methods);
    let (kept, places) = m.method_merge();
    let n = m.methods_merged();
    lemma_merged(keys, keys);
    assert forall|i: int| 0 <= i < m.methods.len() implies 0 <= #[trigger] places[i]
        < n.methods.len() && n.methods[places[i] as int] == m.methods[i] by {
        let k = kept[places[i] as int];
        assert(keys[k] == keys[i]);
        let a = method_key(m.methods[k]);
        let b = method_key(m.methods[i]);
        assert(a[0] == b[0] && a[1] == b[1] && a[2] == b[2]);
    }
    assert forall|i: int| 0 <= i < n.protos.len() implies n.proto_ok(#[trigger] n.protos[i]) by {
        assert(m.proto_ok(m.protos[i]));
    }
    assert forall|i: int| 0 <= i < n.fields.len() implies n.field_ok(#[trigger] n.fields[i]) by {
        assert(m.field_ok(m.fields[i]));
    }
    assert forall|i: int| 0 <= i < n.methods.len() implies n.method_ok(#[trigger] n.methods[i]) by {
        assert(m.method_ok(m.methods[kept[i]]));
    }
    assert forall|k: u32| #[trigger] n.origin_methods.contains_key(k) implies n.origin_methods[k]
        < n.methods.len() by {
        assert(m.origin_methods.contains_key(k));
    }
}

// ---------------------------------------------------------------------------
// Computing the canonical form
// ---------------------------------------------------------------------------

/// A copy of a list of 16-bit numbers.
fn copied(v: &Vec<u16>) -> (r: Vec<u16>)
    ensures
        r@ == v@,
{
    let mut out: Vec<u16> = Vec::new();
    out.extend_from_slice(v.as_slice());
    assert(out@ =~= v@);
    out
}

/// Where each index stands in an order that lists every index once.
fn invert(order: &Vec<usize>) -> (r: Vec<u32>)
    requires
        positions(order@).no_duplicates(),
        forall|i: int|
            0 <= i < order@.len() ==> 0 <= #[trigger] positions(order@)[i] < order@.len(),
        forall|x: int| 0 <= x < order@.len() ==> #[trigger] positions(order@).contains(x),
    ensures
        r@ == places_in(positions(order@)),
{
    let ghost walk = positions(order@);
    let mut places: Vec<u32> = Vec::new();
    places.resize(order.len(), 0u32);
    let mut i: usize = 0;
    while i < order.len()
        invariant
            i <= order.len(),
            places.len() == order.len(),
            walk == positions(order@),
            walk.no_duplicates(),
            forall|i: int| 0 <= i < order@.len() ==> 0 <= #[trigger] walk[i] < order@.len(),
            forall|j: int| 0 <= j < i ==> places@[#[trigger] walk[j]] == low32(j),
        decreases order.len() - i,
    {
        assert(walk[i as int] == order@[i as int]);
        places.set(order[i], cut32(i));
        i += 1;
    }
    assert forall|o: int| 0 <= o < places@.len() implies places@[o] == #[trigger] places_in(
        walk,
    )[o] by {
        assert(walk.contains(o));
        let j = choose|j: int| 0 <= j < walk.len() && walk[j] == o;
        lemma_position_unique(walk, j);
    }
    assert(places@ =~= places_in(walk));
    places
}

impl<'a> IndexMapper<'a> {
    fn string_key_list(&self) -> (r: Vec<Vec<u32>>)
        ensures
            lists(r@) == string_keys(self@.strings),
            r@.len() == self.strings@.len(),
    {
        let mut keys: Vec<Vec<u32>> = Vec::new();
        let mut i: usize = 0;
        while i < self.strings.len()
            invariant
                i <= self.strings.len(),
                keys.len() == i,
                forall|j: int| 0 <= j < i ==> #[trigger] keys@[j]@ == string_key(self.strings@[j]@),
            decreases self.strings.len() - i,
        {
            keys.push(string_sort_key(self.strings[i].as_str()));
            i += 1;
        }
        assert(lists(keys@) =~= string_keys(self@.strings));
        keys
    }

    /// Puts the strings in order.
    fn sort_strings(&mut self)
        requires
            old(self).wf(),
            old(self)@.ok(),
        ensures
            final(self).wf(),
            final(self).dex == old(self).dex,
            final(self)@ == old(self)@.strings_sorted(),
    {
        let ghost before = self@;
        proof {
            lemma_strings_sorted(before);
        }
        let keys = self.string_key_list();
        let order = sorted_indices(&keys);
        let ghost walk = positions(order@);
        proof {
            lemma_sort_order(string_keys(before.strings), before.strings.len());
        }
        let places = invert(&order);
        assert(places@ == before.string_places());

        let mut strings: Vec<String> = Vec::new();
        let mut i: usize = 0;
        while i < order.len()
            invariant
                i <= order.len(),
                strings.len() == i,
                walk == positions(order@),
                before == self@,
                forall|i: int| 0 <= i < order@.len() ==> 0 <= #[trigger] walk[i] < self.strings@.len(),
                forall|j: int|
                    0 <= j < i ==> #[trigger] strings@[j]@ == before.strings[walk[j]],
            decreases order.len() - i,
        {
            assert(walk[i as int] == order@[i as int]);
            strings.push(self.strings[order[i]].clone());
            i += 1;
        }
        assert(texts(strings@) =~= before.strings_sorted().strings);

        let mut types: Vec<u32> = Vec::new();
        let mut i: usize = 0;
        while i < self.types.len()
            invariant
                i <= self.types.len(),
                types.len() == i,
                before == self@,
                before.ok(),
                places@ == before.string_places(),
                places@.len() == before.strings.len(),
                forall|j: int| 0 <= j < i ==> #[trigger] types@[j] == places@[before.types[j] as int],
            decreases self.types.len() - i,
        {
            assert(before.string_ok(before.types[i as int] as int));
            types.push(places[self.types[i] as usize]);
            i += 1;
        }
        assert(types@ =~= before.strings_sorted().types);

        let mut protos: Vec<NewProto> = Vec::new();
        let mut i: usize = 0;
        while i < self.protos.len()
            invariant
                i <= self.protos.len(),
                protos.len() == i,
                before == self@,
                before.ok(),
                places@ == before.string_places(),
                places@.len() == before.strings.len(),
                forall|j: int|
                    0 <= j < i ==> #[trigger] protos@[j]@ == proto_with_strings(
                        before.protos[j],
                        places@,
                    ),
            decreases self.protos.len() - i,
        {
            assert(before.protos[i as int] == self.protos@[i as int]@);
            assert(before.proto_ok(before.protos[i as int]));
            let shorty_idx: u32 = places[self.protos[i].shorty_idx as usize];
            let return_type_idx: u32 = self.protos[i].return_type_idx;
            let params = copied(&self.protos[i].params);
            protos.push(NewProto { shorty_idx, return_type_idx, params });
            i += 1;
        }
        assert(views(protos@) =~= before.strings_sorted().protos);

        let mut fields: Vec<NewField> = Vec::new();
        let mut i: usize = 0;
        while i < self.fields.len()
            invariant
                i <= self.fields.len(),
                fields.len() == i,
                before == self@,
                before.ok(),
                places@ == before.string_places(),
                places@.len() == before.strings.len(),
                forall|j: int|
                    0 <= j < i ==> #[trigger] fields@[j] == field_with_string(
                        before.fields[j],
                        places@,
                    ),
            decreases self.fields.len() - i,
        {
            assert(before.field_ok(before.fields[i as int]));
            let f = self.fields[i];
            fields.push(NewField { name_idx: places[f.name_idx as usize], ..f });
            i += 1;
        }
        assert(fields@ =~= before.strings_sorted().fields);

        let mut methods: Vec<NewMethod> = Vec::new();
        let mut i: usize = 0;
        while i < self.methods.len()
            invariant
                i <= self.methods.len(),
                methods.len() == i,
                before == self@,
                before.ok(),
                places@ == before.string_places(),
                places@.len() == before.strings.len(),
                forall|j: int|
                    0 <= j < i ==> #[trigger] methods@[j] == method_with_string(
                        before.methods[j],
                        places@,
                    ),
            decreases self.methods.len() - i,
        {
            assert(before.method_ok(before.methods[i as int]));
            let m = self.methods[i];
            methods.push(NewMethod { name_idx: places[m.name_idx as usize], ..m });
            i += 1;
        }
        assert(methods@ =~= before.strings_sorted().methods);

        self.strings = strings;
        self.types = types;
        self.protos = protos;
        self.fields = fields;
        self.methods = methods;
    }

    fn type_key_list(&self) -> (r: Vec<Vec<u32>>)
        ensures
            lists(r@) == type_keys(self@.types),
            r@.len() == self.types@.len(),
    {
        let mut keys: Vec<Vec<u32>> = Vec::new();
        let mut i: usize = 0;
        while i < self.types.len()
            invariant
                i <= self.types.len(),
                keys.len() == i,
                forall|j: int| 0 <= j < i ==> #[trigger] keys@[j]@ == seq![self.types@[j]],
            decreases self.types.len() - i,
        {
            let mut key: Vec<u32> = Vec::new();
            key.push(self.types[i]);
            assert(key@ =~= seq![self.types@[i as int]]);
            keys.push(key);
            i += 1;
        }
        assert(lists(keys@) =~= type_keys(self@.types));
        keys
    }

    /// Puts the types in order.
    fn sort_types(&mut self)
        requires
            old(self).wf(),
            old(self)@.ok(),
        ensures
            final(self).wf(),
            final(self).dex == old(self).dex,
            final(self)@ == old(self)@.types_merged(),
    {
        let ghost before = self@;
        proof {
            lemma_types_merged(before);
            lemma_merged(type_keys(before.types), type_keys(before.types));
        }
        let keys = self.type_key_list();
        let (kept, places) = merge_indices(&keys, &keys);
        let ghost walk = positions(kept@);
        assert(walk == before.type_merge().0 && places@ == before.type_merge().1);

        let mut types: Vec<u32> = Vec::new();
        let mut numbers: Vec<u16> = Vec::new();
        let mut type_list: Vec<u32> = Vec::new();
        let mut i: usize = 0;
        while i < kept.len()
            invariant
                i <= kept.len() <= 0x1_0000,
                types.len() == i,
                numbers.len() == i,
                type_list@ == types@,
                walk == positions(kept@),
                before == self@,
                walk == before.type_merge().0,
                forall|a: int| 0 <= a < walk.len() ==> 0 <= #[trigger] walk[a] < before.types.len(),
                forall|j: int| 0 <= j < i ==> #[trigger] types@[j] == before.types[walk[j]],
                forall|j: int| 0 <= j < i ==> #[trigger] numbers@[j] == j as u16,
            decreases kept.len() - i,
        {
            assert(walk[i as int] == kept@[i as int]);
            types.push(self.types[kept[i]]);
            type_list.push(self.types[kept[i]]);
            numbers.push(i as u16);
            i += 1;
        }
        let ghost after = before.types_merged();
        assert(types@ =~= after.types);
        assert(numbers@ =~= after.synthetic_types.values);

        let mut primitive_values: Vec<u16> = Vec::new();
        let mut primitive_letters: Vec<u32> = Vec::new();
        let mut i: usize = 0;
        while i < self.primitive_types.values.len()
            invariant
                i <= self.primitive_types.values.len(),
                self.wf(),
                primitive_values.len() == i,
                primitive_letters@ == self.primitive_types.keys@.take(i as int),
                before == self@,
                before.ok(),
                places@.len() == before.types.len(),
                forall|j: int|
                    0 <= j < i ==> #[trigger] primitive_values@[j]
                        == places@[before.primitive_types.values[j] as int],
            decreases self.primitive_types.values.len() - i,
        {
            assert(before.primitive_types.values[i as int] == self.primitive_types.values@[i as int]);
            assert(before.type_ok(before.primitive_types.values[i as int] as int));
            primitive_values.push(places[self.primitive_types.values[i] as usize]);
            primitive_letters.push(self.primitive_types.keys[i]);
            i += 1;
            assert(self.primitive_types.keys@.take(i as int) =~= self.primitive_types.keys@.take(
                i - 1,
            ).push(self.primitive_types.keys@[i - 1]));
        }
        assert(primitive_letters@ =~= before.primitive_types.keys);
        assert(views(primitive_values@) =~= after.primitive_types.values);

        let mut protos: Vec<NewProto> = Vec::new();
        let mut i: usize = 0;
        while i < self.protos.len()
            invariant
                i <= self.protos.len(),
                protos.len() == i,
                before == self@,
                before.ok(),
                places@.len() == before.types.len(),
                forall|j: int|
                    0 <= j < i ==> #[trigger] protos@[j]@ == proto_with_types(
                        before.protos[j],
                        places@,
                    ),
            decreases self.protos.len() - i,
        {
            assert(before.protos[i as int] == self.protos@[i as int]@);
            assert(before.proto_ok(before.protos[i as int]));
            let shorty_idx: u32 = self.protos[i].shorty_idx;
            let return_type_idx: u32 = places[self.protos[i].return_type_idx as usize] as u32;
            assert forall|p: int|
                0 <= p < self.protos@[i as int].params@.len() implies #[trigger] self.protos@[i as int].params@[p]
                < places@.len() by {
                assert(before.type_ok(before.protos[i as int].params[p] as int));
            }
            let params = moved_types(&self.protos[i].params, &places);
            let proto = NewProto { shorty_idx, return_type_idx, params };
            assert(proto@ == proto_with_types(before.protos[i as int], places@));
            protos.push(proto);
            i += 1;
        }
        assert(views(protos@) =~= after.protos);

        let mut fields: Vec<NewField> = Vec::new();
        let mut i: usize = 0;
        while i < self.fields.len()
            invariant
                i <= self.fields.len(),
                fields.len() == i,
                before == self@,
                before.ok(),
                places@.len() == before.types.len(),
                forall|j: int|
                    0 <= j < i ==> #[trigger] fields@[j] == field_with_types(
                        before.fields[j],
                        places@,
                    ),
            decreases self.fields.len() - i,
        {
            assert(before.field_ok(before.fields[i as int]));
            let f = self.fields[i];
            let class_idx: u16 = places[f.class_idx as usize];
            let type_idx: u16 = places[f.type_idx as usize];
            fields.push(NewField { class_idx, type_idx, name_idx: f.name_idx });
            i += 1;
        }
        assert(fields@ =~= after.fields);

        let mut methods: Vec<NewMethod> = Vec::new();
        let mut i: usize = 0;
        while i < self.methods.len()
            invariant
                i <= self.methods.len(),
                methods.len() == i,
                before == self@,
                before.ok(),
                places@.len() == before.types.len(),
                forall|j: int|
                    0 <= j < i ==> #[trigger] methods@[j] == method_with_type(
                        before.methods[j],
                        places@,
                    ),
            decreases self.methods.len() - i,
        {
            assert(before.method_ok(before.methods[i as int]));
            let m = self.methods[i];
            methods.push(NewMethod { class_idx: places[m.class_idx as usize], ..m });
            i += 1;
        }
        assert(methods@ =~= after.methods);

        self.origin_types.remap(&places);
        assert(self.origin_types@ =~= after.origin_types);
        self.types = types;
        self.synthetic_types = SortedMap { keys: type_list, values: numbers };
        assert(views(self.synthetic_types.values@) =~= after.synthetic_types.values);
        self.primitive_types = SortedMap { keys: primitive_letters, values: primitive_values };
        self.protos = protos;
        self.fields = fields;
        self.methods = methods;
    }

    fn proto_key_lists(&self) -> (r: (Vec<Vec<u32>>, Vec<Vec<u32>>))
        ensures
            lists(r.0@) == proto_keys(self@.protos),
            lists(r.1@) == proto_identities(self@.protos),
            r.0@.len() == self.protos@.len(),
            r.1@.len() == self.protos@.len(),
    {
        let mut keys: Vec<Vec<u32>> = Vec::new();
        let mut ids: Vec<Vec<u32>> = Vec::new();
        let mut i: usize = 0;
        while i < self.protos.len()
            invariant
                i <= self.protos.len(),
                keys.len() == i,
                ids.len() == i,
                forall|j: int| 0 <= j < i ==> #[trigger] keys@[j]@ == proto_key(self.protos@[j]@),
                forall|j: int|
                    0 <= j < i ==> #[trigger] ids@[j]@ == proto_identity(self.protos@[j]@),
            decreases self.protos.len() - i,
        {
            let mut key: Vec<u32> = Vec::new();
            let mut id: Vec<u32> = Vec::new();
            id.push(self.protos[i].shorty_idx);
            key.push(self.protos[i].return_type_idx);
            id.push(self.protos[i].return_type_idx);
            let ghost proto = self.protos@[i as int]@;
            let mut p: usize = 0;
            while p < self.protos[i].params.len()
                invariant
                    i < self.protos.len(),
                    proto == self.protos@[i as int]@,
                    p <= proto.params.len(),
                    key@ == seq![proto.return_type_idx] + widened(proto.params).take(p as int),
                    id@ == seq![proto.shorty_idx] + key@,
                decreases proto.params.len() - p,
            {
                key.push(self.protos[i].params[p] as u32);
                id.push(self.protos[i].params[p] as u32);
                p += 1;
                assert(widened(proto.params).take(p as int) =~= widened(proto.params).take(
                    p - 1,
                ).push(proto.params[p - 1] as u32));
                assert(key@ =~= seq![proto.return_type_idx] + widened(proto.params).take(p as int));
                assert(id@ =~= seq![proto.shorty_idx] + key@);
            }
            assert(widened(proto.params).take(p as int) =~= widened(proto.params));
            keys.push(key);
            ids.push(id);
            i += 1;
        }
        assert(lists(keys@) =~= proto_keys(self@.protos));
        assert(lists(ids@) =~= proto_identities(self@.protos));
        (keys, ids)
    }

    /// Puts the prototypes in order.
    fn sort_protos(&mut self)
        requires
            old(self).wf(),
            old(self)@.ok(),
        ensures
            final(self).wf(),
            final(self).dex == old(self).dex,
            final(self)@ == old(self)@.protos_merged(),
    {
        let ghost before = self@;
        let ghost after = before.protos_merged();
        proof {
            lemma_protos_merged(before);
            lemma_merged(proto_keys(before.protos), proto_identities(before.protos));
        }
        let (keys, ids) = self.proto_key_lists();
        let (kept, places) = merge_indices(&keys, &ids);
        let ghost walk = positions(kept@);
        assert(walk == before.proto_merge().0 && places@ == before.proto_merge().1);
        let mut protos: Vec<NewProto> = Vec::new();
        let mut i: usize = 0;
        while i < kept.len()
            invariant
                i <= kept.len(),
                protos.len() == i,
                walk == positions(kept@),
                before == self@,
                forall|a: int| 0 <= a < walk.len() ==> 0 <= #[trigger] walk[a] < before.protos.len(),
                forall|j: int| 0 <= j < i ==> #[trigger] protos@[j]@ == before.protos[walk[j]],
            decreases kept.len() - i,
        {
            assert(walk[i as int] == kept@[i as int]);
            let o: usize = kept[i];
            assert(before.protos[o as int] == self.protos@[o as int]@);
            let params = copied(&self.protos[o].params);
            protos.push(
                NewProto {
                    shorty_idx: self.protos[o].shorty_idx,
                    return_type_idx: self.protos[o].return_type_idx,
                    params,
                },
            );
            i += 1;
        }
        assert(views(protos@) =~= after.protos);
        let mut methods: Vec<NewMethod> = Vec::new();
        let mut i: usize = 0;
        while i < self.methods.len()
            invariant
                i <= self.methods.len(),
                methods.len() == i,
                before == self@,
                before.ok(),
                places@.len() == before.protos.len(),
                forall|j: int|
                    0 <= j < i ==> #[trigger] methods@[j] == method_with_proto(
                        before.methods[j],
                        places@,
                    ),
            decreases self.methods.len() - i,
        {
            assert(before.method_ok(before.methods[i as int]));
            let m = self.methods[i];
            methods.push(NewMethod { proto_idx: places[m.proto_idx as usize], ..m });
            i += 1;
        }
        assert(methods@ =~= after.methods);
        self.origin_protos.remap(&places);
        assert(self.origin_protos@ =~= after.origin_protos);
        self.protos = protos;
        self.methods = methods;
    }

    fn field_key_list(&self) -> (r: Vec<Vec<u32>>)
        ensures
            lists(r@) == field_keys(self@.fields),
            r@.len() == self.fields@.len(),
    {
        let mut keys: Vec<Vec<u32>> = Vec::new();
        let mut i: usize = 0;
        while i < self.fields.len()
            invariant
                i <= self.fields.len(),
                keys.len() == i,
                forall|j: int| 0 <= j < i ==> #[trigger] keys@[j]@ == field_key(self.fields@[j]),
            decreases self.fields.len() - i,
        {
            let f = self.fields[i];
            let mut key: Vec<u32> = Vec::new();
            key.push(f.class_idx as u32);
            key.push(f.name_idx);
            key.push(f.type_idx as u32);
            assert(key@ =~= field_key(f));
            keys.push(key);
            i += 1;
        }
        assert(lists(keys@) =~= field_keys(self@.fields));
        keys
    }

    /// Puts the fields in order.
    fn sort_fields(&mut self)
        requires
            old(self).wf(),
            old(self)@.ok(),
        ensures
            final(self).wf(),
            final(self).dex == old(self).dex,
            final(self)@ == old(self)@.fields_merged(),
    {
        let ghost before = self@;
        let ghost after = before.fields_merged();
        proof {
            lemma_fields_merged(before);
            lemma_merged(field_keys(before.fields), field_keys(before.fields));
        }
        let keys = self.field_key_list();
        let (kept, places) = merge_indices(&keys, &keys);
        let ghost walk = positions(kept@);
        assert(walk == before.field_merge().0 && places@ == before.field_merge().1);
        let mut fields: Vec<NewField> = Vec::new();
        let mut i: usize = 0;
        while i < kept.len()
            invariant
                i <= kept.len(),
                fields.len() == i,
                walk == positions(kept@),
                before == self@,
                forall|a: int| 0 <= a < walk.len() ==> 0 <= #[trigger] walk[a] < before.fields.len(),
                forall|j: int| 0 <= j < i ==> #[trigger] fields@[j] == before.fields[walk[j]],
            decreases kept.len() - i,
        {
            assert(walk[i as int] == kept@[i as int]);
            fields.push(self.fields[kept[i]]);
            i += 1;
        }
        assert(fields@ =~= after.fields);
        self.origin_fields.remap(&places);
        assert(self.origin_fields@ =~= after.origin_fields);
        self.fields = fields;
    }

    fn method_key_list(&self) -> (r: Vec<Vec<u32>>)
        ensures
            lists(r@) == method_keys(self@.methods),
            r@.len() == self.methods@.len(),
    {
        let mut keys: Vec<Vec<u32>> = Vec::new();
        let mut i: usize = 0;
        while i < self.methods.len()
            invariant
                i <= self.methods.len(),
                keys.len() == i,
                forall|j: int| 0 <= j < i ==> #[trigger] keys@[j]@ == method_key(self.methods@[j]),
            decreases self.methods.len() - i,
        {
            let m = self.methods[i];
            let mut key: Vec<u32> = Vec::new();
            key.push(m.class_idx as u32);
            key.push(m.name_idx);
            key.push(m.proto_idx as u32);
            assert(key@ =~= method_key(m));
            keys.push(key);
            i += 1;
        }
        assert(lists(keys@) =~= method_keys(self@.methods));
        keys
    }

    /// Puts the methods in order.
    fn sort_methods(&mut self)
        requires
            old(self).wf(),
            old(self)@.ok(),
        ensures
            final(self).wf(),
            final(self).dex == old(self).dex,
            final(self)@ == old(self)@.methods_merged(),
    {
        let ghost before = self@;
        let ghost after = before.methods_merged();
        proof {
            lemma_methods_merged(before);
            lemma_merged(method_keys(before.methods), method_keys(before.methods));
        }
        let keys = self.method_key_list();
        let (kept, places) = merge_indices(&keys, &keys);
        let ghost walk = positions(kept@);
        assert(walk == before.method_merge().0 && places@ == before.method_merge().1);
        let mut methods: Vec<NewMethod> = Vec::new();
        let mut i: usize = 0;
        while i < kept.len()
            invariant
                i <= kept.len(),
                methods.len() == i,
                walk == positions(kept@),
                before == self@,
                forall|a: int|
                    0 <= a < walk.len() ==> 0 <= #[trigger] walk[a] < before.methods.len(),
                forall|j: int| 0 <= j < i ==> #[trigger] methods@[j] == before.methods[walk[j]],
            decreases kept.len() - i,
        {
            assert(walk[i as int] == kept@[i as int]);
            methods.push(self.methods[kept[i]]);
            i += 1;
        }
        assert(methods@ =~= after.methods);
        self.origin_methods.remap(&places);
        assert(self.origin_methods@ =~= after.origin_methods);
        self.methods = methods;
    }

    /// Puts every identifier table in the canonical order that the DEX format
    /// requires and updates all cross-table and source-to-output mappings.
    pub fn canonicalize(&mut self)
        requires
            old(self).wf(),
            old(self)@.ok(),
        ensures
            final(self).wf(),
            final(self)@.ok(),
            final(self).dex == old(self).dex,
            final(self)@ == old(self)@.canonical(),
    {
        let ghost a = self@;
        self.sort_strings();
        proof {
            lemma_strings_sorted(a);
        }
        let ghost b = self@;
        self.sort_types();
        proof {
            lemma_types_merged(b);
        }
        let ghost c = self@;
        self.sort_protos();
        proof {
            lemma_protos_merged(c);
        }
        let ghost d = self@;
        self.sort_fields();
        proof {
            lemma_fields_merged(d);
        }
        let ghost e = self@;
        self.sort_methods();
        proof {
            lemma_methods_merged(e);
        }
    }
}

/// The types that a list of types moved to.
fn moved_types(list: &Vec<u16>, places: &Vec<u16>) -> (r: Vec<u16>)
    requires
        forall|i: int| 0 <= i < list@.len() ==> #[trigger] list@[i] < places@.len(),
    ensures
        r@ == Seq::new(list@.len(), |i: int| places@[list@[i] as int]),
{
    let mut out: Vec<u16> = Vec::new();
    let mut i: usize = 0;
    while i < list.len()
        invariant
            i <= list.len(),
            out.len() == i,
            forall|i: int| 0 <= i < list@.len() ==> #[trigger] list@[i] < places@.len(),
            forall|j: int| 0 <= j < i ==> #[trigger] out@[j] == places@[list@[j] as int],
        decreases list.len() - i,
    {
        assert(list@[i as int] < places@.len());
        out.push(places[list[i] as usize]);
        i += 1;
    }
    assert(out@ =~= Seq::new(list@.len(), |i: int| places@[list@[i] as int]));
    out
}

} // verus!
