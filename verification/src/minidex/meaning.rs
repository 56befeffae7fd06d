//! What identifiers mean, and that extraction keeps it: each identifier of the
//! source goes to one that stands for the same names.
use vstd::prelude::*;

use crate::collections::lemma_put_get;
use crate::minidex::bytecode::CodeRefs;
use crate::minidex::canonical::{
    lemma_fields_merged, lemma_methods_merged, lemma_protos_merged, lemma_strings_sorted,
    lemma_types_merged, proto_with_types,
};
use crate::minidex::gather::{
    caught_types, class_strings, class_types, field_adder, field_ids, gathered, method_adder,
    method_ids, proto_adder, string_adder, type_adder, widened_ids, with_code_refs, with_fields,
    with_metadata_refs, with_methods, with_protos, with_strings, with_types,
};
use crate::minidex::hollow::Parts;
use crate::minidex::reader::{ClassDef, DexTables, Members};
use crate::minidex::tables::{
    is_letter, lemma_add_field, lemma_add_method, lemma_add_origin_type, lemma_add_proto,
    lemma_add_string, lemma_add_synthetic_type, lemma_position, lemma_primitive_step,
    lemma_push_type, param_step, primitive_step, primitives, NewField, NewMethod, Proto, Tables,
};
use crate::minidex::values::RefSets;
use crate::results::run;

verus! {

// ---------------------------------------------------------------------------
// Meanings
// ---------------------------------------------------------------------------

/// What a prototype stands for.
#[verifier::ext_equal]
pub struct ProtoMeaning {
    pub shorty: Seq<char>,
    pub result: Seq<char>,
    pub params: Seq<Seq<char>>,
}

/// What a field stands for.
#[verifier::ext_equal]
pub struct FieldMeaning {
    pub class: Seq<char>,
    pub typ: Seq<char>,
    pub name: Seq<char>,
}

/// What a method stands for.
#[verifier::ext_equal]
pub struct MethodMeaning {
    pub class: Seq<char>,
    pub proto: ProtoMeaning,
    pub name: Seq<char>,
}

impl DexTables {
    pub open spec fn name_of_type(self, i: int) -> Seq<char> {
        self.strings[self.types[i] as int]
    }

    pub open spec fn names_of_types(self, list: Seq<u16>) -> Seq<Seq<char>> {
        list.map_values(|x: u16| self.name_of_type(x as int))
    }

    pub open spec fn proto_meaning(self, i: int) -> ProtoMeaning {
        let p = self.protos[i];
        ProtoMeaning {
            shorty: self.strings[p.shorty_idx as int],
            result: self.name_of_type(p.return_type_idx as int),
            params: self.names_of_types(self.type_list(p.parameters_off)->Ok_0),
        }
    }

    pub open spec fn field_meaning(self, i: int) -> FieldMeaning {
        let f = self.fields[i];
        FieldMeaning {
            class: self.name_of_type(f.class_idx as int),
            typ: self.name_of_type(f.type_idx as int),
            name: self.strings[f.name_idx as int],
        }
    }

    pub open spec fn method_meaning(self, i: int) -> MethodMeaning {
        let m = self.methods[i];
        MethodMeaning {
            class: self.name_of_type(m.class_idx as int),
            proto: self.proto_meaning(m.proto_idx as int),
            name: self.strings[m.name_idx as int],
        }
    }

    /// Whether there is a prototype `k` with a parameter list that can be read.
    pub open spec fn proto_readable(self, k: u32) -> bool {
        k < self.protos.len() && self.type_list(self.protos[k as int].parameters_off) is Ok
    }

    /// Whether there is a method `k` with a prototype that can be read.
    pub open spec fn method_readable(self, k: u32) -> bool {
        k < self.methods.len() && self.proto_readable(self.methods[k as int].proto_idx as u32)
    }
}

impl Tables {
    pub open spec fn name_of_type(self, i: int) -> Seq<char> {
        self.strings[self.types[i] as int]
    }

    pub open spec fn names_of_types(self, list: Seq<u16>) -> Seq<Seq<char>> {
        list.map_values(|x: u16| self.name_of_type(x as int))
    }

    pub open spec fn proto_meaning(self, p: Proto) -> ProtoMeaning {
        ProtoMeaning {
            shorty: self.strings[p.shorty_idx as int],
            result: self.name_of_type(p.return_type_idx as int),
            params: self.names_of_types(p.params),
        }
    }

    pub open spec fn field_meaning(self, f: NewField) -> FieldMeaning {
        FieldMeaning {
            class: self.name_of_type(f.class_idx as int),
            typ: self.name_of_type(f.type_idx as int),
            name: self.strings[f.name_idx as int],
        }
    }

    pub open spec fn method_meaning(self, m: NewMethod) -> MethodMeaning {
        MethodMeaning {
            class: self.name_of_type(m.class_idx as int),
            proto: self.proto_meaning(self.protos[m.proto_idx as int]),
            name: self.strings[m.name_idx as int],
        }
    }

    /// Every identifier of the source that has a new index stands for the same
    /// names there.
    pub open spec fn faithful(self, dex: DexTables) -> bool {
        &&& forall|k: u32| #[trigger]
            self.origin_types.contains_key(k) ==> self.name_of_type(self.origin_types[k] as int)
                == dex.name_of_type(k as int)
        &&& forall|k: u32| #[trigger]
            self.origin_protos.contains_key(k) ==> self.proto_meaning(
                self.protos[self.origin_protos[k] as int],
            ) == dex.proto_meaning(k as int)
        &&& forall|k: u32| #[trigger]
            self.origin_fields.contains_key(k) ==> self.field_meaning(
                self.fields[self.origin_fields[k] as int],
            ) == dex.field_meaning(k as int)
        &&& forall|k: u32| #[trigger]
            self.origin_methods.contains_key(k) ==> self.method_meaning(
                self.methods[self.origin_methods[k] as int],
            ) == dex.method_meaning(k as int)
    }

    /// Every identifier that has a new index can be read in the source.
    pub open spec fn readable(self, dex: DexTables) -> bool {
        &&& forall|k: u32| #[trigger] self.origin_types.contains_key(k) ==> k < dex.types.len()
        &&& forall|k: u32| #[trigger]
            self.origin_protos.contains_key(k) ==> dex.proto_readable(k)
        &&& forall|k: u32| #[trigger] self.origin_fields.contains_key(k) ==> k < dex.fields.len()
        &&& forall|k: u32| #[trigger]
            self.origin_methods.contains_key(k) ==> dex.method_readable(k)
    }

    /// A type that was added by name has the string under which it is known.
    pub open spec fn synthetic_named(self, k: u32) -> bool {
        match self.synthetic_types.get(k) {
            None => true,
            Some(i) => i < self.types.len() && self.types[i as int] == k,
        }
    }

    /// A primitive type has the letter under which it is known.
    pub open spec fn primitive_named(self, c: char) -> bool {
        match self.primitive_types.get(c as u32) {
            None => true,
            Some(i) => i < self.types.len() && self.name_of_type(i as int) == seq![c],
        }
    }

    /// Types that were added by name stand for that name.
    pub open spec fn named(self) -> bool {
        &&& forall|k: u32| #[trigger] self.synthetic_named(k)
        &&& forall|c: char| #[trigger] self.primitive_named(c)
    }

    /// Whether a prototype of the source became prototype `i`.
    pub open spec fn proto_owned(self, dex: DexTables, i: int) -> bool {
        exists|k: u32|
            self.origin_protos.contains_key(k) && #[trigger] self.origin_protos[k] as int == i && k
                < dex.protos.len()
    }

    /// Every prototype came from the source.
    pub open spec fn owned(self, dex: DexTables) -> bool {
        forall|i: int| 0 <= i < self.protos.len() ==> #[trigger] self.proto_owned(dex, i)
    }

    /// What holds of the tables while they grow.
    pub open spec fn sound(self, dex: DexTables) -> bool {
        self.ok() && self.faithful(dex) && self.readable(dex) && self.named() && self.owned(dex)
    }
}

/// Whether `n` has everything that `m` has, at the same indices.
pub open spec fn extends_tables(m: Tables, n: Tables) -> bool {
    &&& m.strings.len() <= n.strings.len()
    &&& m.types.len() <= n.types.len()
    &&& m.protos.len() <= n.protos.len()
    &&& m.fields.len() <= n.fields.len()
    &&& m.methods.len() <= n.methods.len()
    &&& forall|i: int| 0 <= i < m.strings.len() ==> #[trigger] n.strings[i] == m.strings[i]
    &&& forall|i: int| 0 <= i < m.types.len() ==> #[trigger] n.types[i] == m.types[i]
    &&& forall|i: int| 0 <= i < m.protos.len() ==> #[trigger] n.protos[i] == m.protos[i]
    &&& forall|i: int| 0 <= i < m.fields.len() ==> #[trigger] n.fields[i] == m.fields[i]
    &&& forall|i: int| 0 <= i < m.methods.len() ==> #[trigger] n.methods[i] == m.methods[i]
}

proof fn lemma_proto_kept(m: Tables, n: Tables, p: Proto)
    requires
        m.ok(),
        extends_tables(m, n),
        m.proto_ok(p),
    ensures
        n.proto_meaning(p) == m.proto_meaning(p),
{
    assert(m.string_ok(m.types[p.return_type_idx as int] as int));
    assert forall|i: int| 0 <= i < p.params.len() implies n.names_of_types(p.params)[i]
        == m.names_of_types(p.params)[i] by {
        assert(m.type_ok(p.params[i] as int));
        assert(m.string_ok(m.types[p.params[i] as int] as int));
    }
    assert(n.names_of_types(p.params) =~= m.names_of_types(p.params));
}

/// What has a meaning keeps it while the tables grow.
pub proof fn lemma_meanings_kept(m: Tables, n: Tables)
    requires
        m.ok(),
        extends_tables(m, n),
    ensures
        forall|i: int| 0 <= i < m.types.len() ==> #[trigger] n.name_of_type(i) == m.name_of_type(i),
        forall|i: int|
            0 <= i < m.protos.len() ==> n.proto_meaning(#[trigger] n.protos[i])
                == m.proto_meaning(m.protos[i]),
        forall|i: int|
            0 <= i < m.fields.len() ==> n.field_meaning(#[trigger] n.fields[i])
                == m.field_meaning(m.fields[i]),
        forall|i: int|
            0 <= i < m.methods.len() ==> n.method_meaning(#[trigger] n.methods[i])
                == m.method_meaning(m.methods[i]),
{
    assert forall|i: int| 0 <= i < m.types.len() implies #[trigger] n.name_of_type(i) == m.name_of_type(
        i,
    ) by {
        assert(m.string_ok(m.types[i] as int));
    }
    assert forall|i: int| 0 <= i < m.protos.len() implies n.proto_meaning(#[trigger] n.protos[i])
        == m.proto_meaning(m.protos[i]) by {
        assert(m.proto_ok(m.protos[i]));
        lemma_proto_kept(m, n, m.protos[i]);
    }
    assert forall|i: int| 0 <= i < m.fields.len() implies n.field_meaning(#[trigger] n.fields[i])
        == m.field_meaning(m.fields[i]) by {
        assert(m.field_ok(m.fields[i]));
    }
    assert forall|i: int| 0 <= i < m.methods.len() implies n.method_meaning(#[trigger] n.methods[i])
        == m.method_meaning(m.methods[i]) by {
        let x = m.methods[i];
        assert(m.method_ok(x));
        assert(n.protos[x.proto_idx as int] == m.protos[x.proto_idx as int]);
        assert(m.proto_ok(m.protos[x.proto_idx as int]));
        lemma_proto_kept(m, n, m.protos[x.proto_idx as int]);
    }
}

/// Tables with the same prototypes own them alike.
proof fn lemma_owned_kept(m: Tables, n: Tables, dex: DexTables)
    requires
        m.owned(dex),
        n.protos.len() == m.protos.len(),
        n.origin_protos == m.origin_protos,
    ensures
        n.owned(dex),
{
    assert forall|i: int| 0 <= i < n.protos.len() implies #[trigger] n.proto_owned(dex, i) by {
        assert(m.proto_owned(dex, i));
    }
}

/// A prototype that is added comes from the source.
proof fn lemma_owned_added(m: Tables, n: Tables, dex: DexTables, old: u32)
    requires
        m.ok(),
        m.owned(dex),
        !m.origin_protos.contains_key(old),
        old < dex.protos.len(),
        m.protos.len() <= 0xffff,
        n.protos.len() == m.protos.len() + 1,
        n.origin_protos == m.origin_protos.insert(old, m.protos.len() as u16),
    ensures
        n.owned(dex),
{
    assert forall|i: int| 0 <= i < n.protos.len() implies #[trigger] n.proto_owned(dex, i) by {
        if i < m.protos.len() {
            assert(m.proto_owned(dex, i));
            let k = choose|k: u32|
                m.origin_protos.contains_key(k) && #[trigger] m.origin_protos[k] as int == i && k
                    < dex.protos.len();
            assert(n.origin_protos.contains_key(k) && n.origin_protos[k] as int == i);
        } else {
            assert(n.origin_protos.contains_key(old) && n.origin_protos[old] as int == i);
        }
    }
}

/// Growth alone, without new origins or names, keeps the tables sound.
proof fn lemma_sound_carried(m: Tables, n: Tables, dex: DexTables)
    requires
        m.sound(dex),
        n.ok(),
        extends_tables(m, n),
        n.protos == m.protos,
        n.origin_types == m.origin_types,
        n.origin_protos == m.origin_protos,
        n.origin_fields == m.origin_fields,
        n.origin_methods == m.origin_methods,
        n.synthetic_types == m.synthetic_types,
        n.primitive_types == m.primitive_types,
    ensures
        n.sound(dex),
{
    lemma_meanings_kept(m, n);
    lemma_owned_kept(m, n, dex);
    assert forall|k: u32| #[trigger] n.origin_types.contains_key(k) implies n.name_of_type(
        n.origin_types[k] as int,
    ) == dex.name_of_type(k as int) by {
        assert(m.origin_types.contains_key(k));
    }
    assert forall|k: u32| #[trigger] n.origin_protos.contains_key(k) implies n.proto_meaning(
        n.protos[n.origin_protos[k] as int],
    ) == dex.proto_meaning(k as int) by {
        assert(m.origin_protos.contains_key(k));
        let i = m.origin_protos[k] as int;
        assert(n.proto_meaning(n.protos[i]) == m.proto_meaning(m.protos[i]));
    }
    assert forall|k: u32| #[trigger] n.origin_fields.contains_key(k) implies n.field_meaning(
        n.fields[n.origin_fields[k] as int],
    ) == dex.field_meaning(k as int) by {
        assert(m.origin_fields.contains_key(k));
        let i = m.origin_fields[k] as int;
        assert(n.field_meaning(n.fields[i]) == m.field_meaning(m.fields[i]));
    }
    assert forall|k: u32| #[trigger] n.origin_methods.contains_key(k) implies n.method_meaning(
        n.methods[n.origin_methods[k] as int],
    ) == dex.method_meaning(k as int) by {
        assert(m.origin_methods.contains_key(k));
        let i = m.origin_methods[k] as int;
        assert(n.method_meaning(n.methods[i]) == m.method_meaning(m.methods[i]));
    }
    assert forall|k: u32| #[trigger] n.synthetic_named(k) by {
        assert(m.synthetic_named(k));
    }
    assert forall|c: char| #[trigger] n.primitive_named(c) by {
        assert(m.primitive_named(c));
        if let Some(i) = m.primitive_types.get(c as u32) {
            assert(n.name_of_type(i as int) == m.name_of_type(i as int));
        }
    }
}

// ---------------------------------------------------------------------------
// Additions
// ---------------------------------------------------------------------------

/// Adding a string keeps the tables sound.
pub proof fn lemma_string_sound(m: Tables, dex: DexTables, text: Seq<char>)
    requires
        m.sound(dex),
        m.add_string(text).0.strings.len() <= 0x1_0000_0000,
    ensures
        m.add_string(text).0.sound(dex),
        extends_tables(m, m.add_string(text).0),
        m.add_string(text).1 < m.add_string(text).0.strings.len(),
        m.add_string(text).0.strings[m.add_string(text).1 as int] == text,
{
    lemma_add_string(m, text);
    lemma_position(m.strings, text);
    let n = m.add_string(text).0;
    lemma_sound_carried(m, n, dex);
}

proof fn lemma_type_pushed(m: Tables, dex: DexTables, descriptor: u32)
    requires
        m.sound(dex),
        m.string_ok(descriptor as int),
        m.push_type(descriptor) is Ok,
    ensures
        m.push_type(descriptor)->Ok_0.0.sound(dex),
        extends_tables(m, m.push_type(descriptor)->Ok_0.0),
        m.push_type(descriptor)->Ok_0.1 == m.types.len(),
        m.push_type(descriptor)->Ok_0.0.types[m.types.len() as int] == descriptor,
{
    lemma_push_type(m, descriptor);
    lemma_sound_carried(m, m.push_type(descriptor)->Ok_0.0, dex);
}

/// Adding a type of the source keeps the tables sound.
pub proof fn lemma_origin_type_sound(m: Tables, dex: DexTables, old: u32)
    requires
        m.sound(dex),
        m.add_origin_type(dex, old) is Ok,
        m.add_origin_type(dex, old)->Ok_0.0.strings.len() <= 0x1_0000_0000,
    ensures
        m.add_origin_type(dex, old)->Ok_0.0.sound(dex),
        extends_tables(m, m.add_origin_type(dex, old)->Ok_0.0),
        m.add_origin_type(dex, old)->Ok_0.1 < m.add_origin_type(dex, old)->Ok_0.0.types.len(),
        m.add_origin_type(dex, old)->Ok_0.0.name_of_type(m.add_origin_type(dex, old)->Ok_0.1 as int)
            == dex.name_of_type(old as int),
{
    lemma_add_origin_type(m, dex, old);
    if m.origin_types.contains_key(old) {
    } else {
        let text = dex.strings[dex.types[old as int] as int];
        let (a, descriptor) = m.add_string(text);
        lemma_string_sound(m, dex, text);
        lemma_type_pushed(a, dex, descriptor);
        let (b, index) = a.push_type(descriptor)->Ok_0;
        let n = m.add_origin_type(dex, old)->Ok_0.0;
        assert(n == (Tables { origin_types: b.origin_types.insert(old, index), ..b }));
        assert(n.name_of_type(index as int) == text);
        assert(n.faithful(dex)) by {
            lemma_same_faithful(b, n, dex);
            assert forall|k: u32| #[trigger] n.origin_types.contains_key(k) implies n.name_of_type(
                n.origin_types[k] as int,
            ) == dex.name_of_type(k as int) by {
                if k != old {
                    assert(b.origin_types.contains_key(k));
                }
            }
        }
        assert(n.named()) by {
            lemma_same_named(b, n);
        }
        lemma_owned_kept(b, n, dex);
    }
}

/// Tables with the same identifiers give them the same meanings.
proof fn lemma_same_faithful(m: Tables, n: Tables, dex: DexTables)
    requires
        m.faithful(dex),
        m.strings == n.strings,
        m.types == n.types,
        m.protos == n.protos,
        m.fields == n.fields,
        m.methods == n.methods,
    ensures
        forall|k: u32| #[trigger]
            m.origin_types.contains_key(k) ==> n.name_of_type(m.origin_types[k] as int)
                == dex.name_of_type(k as int),
        forall|k: u32| #[trigger]
            m.origin_protos.contains_key(k) ==> n.proto_meaning(
                n.protos[m.origin_protos[k] as int],
            ) == dex.proto_meaning(k as int),
        forall|k: u32| #[trigger]
            m.origin_fields.contains_key(k) ==> n.field_meaning(
                n.fields[m.origin_fields[k] as int],
            ) == dex.field_meaning(k as int),
        forall|k: u32| #[trigger]
            m.origin_methods.contains_key(k) ==> n.method_meaning(
                n.methods[m.origin_methods[k] as int],
            ) == dex.method_meaning(k as int),
{
    assert forall|p: Proto| n.proto_meaning(p) == #[trigger] m.proto_meaning(p) by {
        assert(n.names_of_types(p.params) =~= m.names_of_types(p.params));
    }
    assert forall|k: u32| #[trigger] m.origin_protos.contains_key(k) implies n.proto_meaning(
        n.protos[m.origin_protos[k] as int],
    ) == dex.proto_meaning(k as int) by {
        assert(m.proto_meaning(m.protos[m.origin_protos[k] as int]) == dex.proto_meaning(
            k as int,
        ));
    }
    assert forall|k: u32| #[trigger] m.origin_methods.contains_key(k) implies n.method_meaning(
        n.methods[m.origin_methods[k] as int],
    ) == dex.method_meaning(k as int) by {
        let x = m.methods[m.origin_methods[k] as int];
        assert(n.proto_meaning(n.protos[x.proto_idx as int]) == m.proto_meaning(
            m.protos[x.proto_idx as int],
        ));
    }
}

proof fn lemma_same_named(m: Tables, n: Tables)
    requires
        m.named(),
        m.strings == n.strings,
        m.types == n.types,
        m.synthetic_types == n.synthetic_types,
        m.primitive_types == n.primitive_types,
    ensures
        n.named(),
{
    assert forall|k: u32| #[trigger] n.synthetic_named(k) by {
        assert(m.synthetic_named(k));
    }
    assert forall|c: char| #[trigger] n.primitive_named(c) by {
        assert(m.primitive_named(c));
    }
}

/// Adding a type by name keeps the tables sound.
pub proof fn lemma_synthetic_sound(m: Tables, dex: DexTables, text: Seq<char>)
    requires
        m.sound(dex),
        m.add_synthetic_type(text) is Ok,
        m.add_synthetic_type(text)->Ok_0.0.strings.len() <= 0x1_0000_0000,
    ensures
        m.add_synthetic_type(text)->Ok_0.0.sound(dex),
        extends_tables(m, m.add_synthetic_type(text)->Ok_0.0),
        m.add_synthetic_type(text)->Ok_0.1 < m.add_synthetic_type(text)->Ok_0.0.types.len(),
        m.add_synthetic_type(text)->Ok_0.0.name_of_type(m.add_synthetic_type(text)->Ok_0.1 as int)
            == text,
{
    lemma_add_synthetic_type(m, text);
    let (a, descriptor) = m.add_string(text);
    assert(a.named() ==> a.synthetic_named(descriptor));
    let n = m.add_synthetic_type(text)->Ok_0.0;
    if a.synthetic_types.get(descriptor) is None {
        assert(n.strings == a.strings);
        lemma_string_sound(m, dex, text);
        lemma_type_pushed(a, dex, descriptor);
        let (b, index) = a.push_type(descriptor)->Ok_0;
        assert(n == (Tables { synthetic_types: b.synthetic_types.put(descriptor, index), ..b }));
        lemma_same_faithful(b, n, dex);
        lemma_owned_kept(b, n, dex);
        assert(n.faithful(dex));
        assert forall|k: u32| #[trigger] n.synthetic_named(k) by {
            lemma_put_get(b.synthetic_types, descriptor, index, k);
            assert(b.synthetic_named(k));
        }
        assert forall|c: char| #[trigger] n.primitive_named(c) by {
            assert(b.primitive_named(c));
        }
    } else {
        lemma_string_sound(m, dex, text);
    }
}

/// Adding one primitive type keeps the tables sound.
pub proof fn lemma_primitive_sound(m: Tables, dex: DexTables, i: int)
    requires
        m.sound(dex),
        0 <= i < 9,
        primitive_step()(m, i) is Ok,
        primitive_step()(m, i)->Ok_0.strings.len() <= 0x1_0000_0000,
    ensures
        primitive_step()(m, i)->Ok_0.sound(dex),
        extends_tables(m, primitive_step()(m, i)->Ok_0),
{
    let letter = primitives()[i];
    let text = seq![letter];
    let n = primitive_step()(m, i)->Ok_0;
    let (b, index) = m.add_synthetic_type(text)->Ok_0;
    assert(n == (Tables {
        primitive_types: b.primitive_types.put(letter as u32, index),
        ..b
    }));
    lemma_synthetic_sound(m, dex, text);
    lemma_same_faithful(b, n, dex);
    lemma_owned_kept(b, n, dex);
    lemma_primitive_step(m, i);
    assert(n.faithful(dex));
    assert forall|k: u32| #[trigger] n.synthetic_named(k) by {
        assert(b.synthetic_named(k));
    }
    assert forall|c: char| #[trigger] n.primitive_named(c) by {
        lemma_put_get(b.primitive_types, letter as u32, index, c as u32);
        assert(b.primitive_named(c));
        if c as u32 == letter as u32 {
            vstd::utf8::char_u32_cast(c, c as u32);
            vstd::utf8::char_u32_cast(letter, letter as u32);
        }
    }
}

/// Adding the primitive types keeps the tables sound.
pub proof fn lemma_primitives_sound(m: Tables, dex: DexTables, i: int)
    requires
        m.sound(dex),
        0 <= i,
        run(primitive_step(), m, i, 9) is Ok,
        run(primitive_step(), m, i, 9)->Ok_0.strings.len() <= 0x1_0000_0000,
    ensures
        run(primitive_step(), m, i, 9)->Ok_0.sound(dex),
        extends_tables(m, run(primitive_step(), m, i, 9)->Ok_0),
    decreases 9 - i,
{
    if i < 9 {
        let n = primitive_step()(m, i)->Ok_0;
        lemma_primitives_grow(n, i + 1);
        lemma_primitive_sound(m, dex, i);
        lemma_primitives_sound(n, dex, i + 1);
        lemma_extends_chain(m, n, run(primitive_step(), n, i + 1, 9)->Ok_0);
    }
}

/// Adding the primitive types takes no string away.
pub proof fn lemma_primitives_grow(m: Tables, i: int)
    requires
        run(primitive_step(), m, i, 9) is Ok,
    ensures
        m.strings.len() <= run(primitive_step(), m, i, 9)->Ok_0.strings.len(),
    decreases 9 - i,
{
    if i < 9 {
        lemma_primitives_grow(primitive_step()(m, i)->Ok_0, i + 1);
    }
}

/// Growing twice is growing.
pub proof fn lemma_extends_chain(a: Tables, b: Tables, c: Tables)
    requires
        extends_tables(a, b),
        extends_tables(b, c),
    ensures
        extends_tables(a, c),
{
    assert forall|i: int| 0 <= i < a.strings.len() implies #[trigger] c.strings[i]
        == a.strings[i] by {
        assert(b.strings[i] == a.strings[i]);
    }
    assert forall|i: int| 0 <= i < a.types.len() implies #[trigger] c.types[i] == a.types[i] by {
        assert(b.types[i] == a.types[i]);
    }
    assert forall|i: int| 0 <= i < a.protos.len() implies #[trigger] c.protos[i] == a.protos[i] by {
        assert(b.protos[i] == a.protos[i]);
    }
    assert forall|i: int| 0 <= i < a.fields.len() implies #[trigger] c.fields[i] == a.fields[i] by {
        assert(b.fields[i] == a.fields[i]);
    }
    assert forall|i: int| 0 <= i < a.methods.len() implies #[trigger] c.methods[i]
        == a.methods[i] by {
        assert(b.methods[i] == a.methods[i]);
    }
}

/// The parameters added so far stand for the types of the source list.
pub open spec fn params_named(dex: DexTables, list: Seq<u16>, s: (Tables, Seq<u16>), i: int) -> bool {
    &&& s.1.len() == i
    &&& forall|j: int|
        0 <= j < i ==> s.0.type_ok(#[trigger] s.1[j] as int) && s.0.name_of_type(s.1[j] as int)
            == dex.name_of_type(list[j] as int)
}

/// Adding parameters takes no string away.
pub proof fn lemma_params_grow(dex: DexTables, list: Seq<u16>, s: (Tables, Seq<u16>), i: int)
    requires
        run(param_step(dex, list), s, i, list.len() as int) is Ok,
    ensures
        s.0.strings.len() <= run(
            param_step(dex, list),
            s,
            i,
            list.len() as int,
        )->Ok_0.0.strings.len(),
    decreases list.len() - i,
{
    if i < list.len() {
        lemma_params_grow(dex, list, param_step(dex, list)(s, i)->Ok_0, i + 1);
    }
}

/// Adding parameters keeps the tables sound.
pub proof fn lemma_params_sound(dex: DexTables, list: Seq<u16>, s: (Tables, Seq<u16>), i: int)
    requires
        s.0.sound(dex),
        0 <= i <= list.len(),
        params_named(dex, list, s, i),
        run(param_step(dex, list), s, i, list.len() as int) is Ok,
        run(param_step(dex, list), s, i, list.len() as int)->Ok_0.0.strings.len() <= 0x1_0000_0000,
    ensures
        run(param_step(dex, list), s, i, list.len() as int)->Ok_0.0.sound(dex),
        extends_tables(s.0, run(param_step(dex, list), s, i, list.len() as int)->Ok_0.0),
        params_named(
            dex,
            list,
            run(param_step(dex, list), s, i, list.len() as int)->Ok_0,
            list.len() as int,
        ),
    decreases list.len() - i,
{
    if i < list.len() {
        let t = param_step(dex, list)(s, i)->Ok_0;
        let text = dex.descriptor(list[i] as int)->Ok_0;
        lemma_params_grow(dex, list, t, i + 1);
        if !is_letter(text) {
            lemma_synthetic_sound(s.0, dex, text);
        } else if s.0.primitive_types.get(text[0] as u32) is Some {
            assert(text =~= seq![text[0]]);
            assert(s.0.primitive_named(text[0]));
        } else {
            lemma_origin_type_sound(s.0, dex, list[i] as u32);
        }
        lemma_meanings_kept(s.0, t.0);
        assert forall|j: int| 0 <= j < i + 1 implies t.0.type_ok(#[trigger] t.1[j] as int)
            && t.0.name_of_type(t.1[j] as int) == dex.name_of_type(list[j] as int) by {
            if j < i {
                assert(t.1[j] == s.1[j]);
                assert(s.0.type_ok(s.1[j] as int));
                assert(t.0.name_of_type(s.1[j] as int) == s.0.name_of_type(s.1[j] as int));
            }
        }
        lemma_params_sound(dex, list, t, i + 1);
        lemma_extends_chain(
            s.0,
            t.0,
            run(param_step(dex, list), t, i + 1, list.len() as int)->Ok_0.0,
        );
    }
}

/// Adding the parameter types adds no prototype.
proof fn lemma_params_keep(dex: DexTables, list: Seq<u16>, s: (Tables, Seq<u16>), i: int)
    requires
        run(param_step(dex, list), s, i, list.len() as int) is Ok,
    ensures
        ({
            let n = run(param_step(dex, list), s, i, list.len() as int)->Ok_0.0;
            n.protos == s.0.protos && n.origin_protos == s.0.origin_protos
        }),
    decreases list.len() - i,
{
    if i < list.len() {
        lemma_params_keep(dex, list, param_step(dex, list)(s, i)->Ok_0, i + 1);
    }
}

/// Adding a prototype keeps the tables sound.
pub proof fn lemma_proto_sound(m: Tables, dex: DexTables, old: u32)
    requires
        m.sound(dex),
        m.add_proto(dex, old) is Ok,
        m.add_proto(dex, old)->Ok_0.0.strings.len() <= 0x1_0000_0000,
    ensures
        m.add_proto(dex, old)->Ok_0.0.sound(dex),
        extends_tables(m, m.add_proto(dex, old)->Ok_0.0),
        m.add_proto(dex, old)->Ok_0.1 < m.add_proto(dex, old)->Ok_0.0.protos.len(),
        m.add_proto(dex, old)->Ok_0.0.proto_meaning(
            m.add_proto(dex, old)->Ok_0.0.protos[m.add_proto(dex, old)->Ok_0.1 as int],
        ) == dex.proto_meaning(old as int),
{
    lemma_add_proto(m, dex, old);
    if !m.origin_protos.contains_key(old) {
        let source = dex.protos[old as int];
        let n = m.add_proto(dex, old)->Ok_0.0;
        let (a, shorty_idx) = m.add_origin_string(dex, source.shorty_idx)->Ok_0;
        let (b, return_type_idx) = a.add_origin_type(dex, source.return_type_idx)->Ok_0;
        let list = dex.type_list(source.parameters_off)->Ok_0;
        let start = (b, Seq::<u16>::empty());
        let (c, params) = run(param_step(dex, list), start, 0, list.len() as int)->Ok_0;
        let proto = Proto { shorty_idx, return_type_idx: return_type_idx as u32, params };
        assert(n.strings == c.strings);
        lemma_params_grow(dex, list, start, 0);
        lemma_string_sound(m, dex, dex.strings[source.shorty_idx as int]);
        lemma_origin_type_sound(a, dex, source.return_type_idx);
        lemma_params_sound(dex, list, start, 0);
        lemma_extends_chain(m, a, b);
        lemma_extends_chain(m, b, c);
        lemma_extends_chain(a, b, c);
        lemma_meanings_kept(b, c);
        assert(c.strings[shorty_idx as int] == dex.strings[source.shorty_idx as int]);
        assert(c.name_of_type(return_type_idx as int) == dex.name_of_type(
            source.return_type_idx as int,
        ));
        assert(c.names_of_types(params) =~= dex.names_of_types(list)) by {
            assert forall|j: int| 0 <= j < list.len() implies c.names_of_types(params)[j]
                == dex.names_of_types(list)[j] by {
                assert(c.type_ok(params[j] as int));
            }
        }
        assert(c.proto_meaning(proto) == dex.proto_meaning(old as int));
        let d = Tables { protos: c.protos.push(proto), ..c };
        let index = c.protos.len() as u16;
        assert(n == (Tables { origin_protos: d.origin_protos.insert(old, index), ..d }));
        assert(extends_tables(c, n));
        lemma_extends_chain(m, c, n);
        lemma_pushed_sound(c, n, dex);
        assert(n.names_of_types(params) =~= c.names_of_types(params));
        assert(n.protos[index as int] == proto);
        assert forall|k: u32| #[trigger] n.origin_protos.contains_key(k) implies n.proto_meaning(
            n.protos[n.origin_protos[k] as int],
        ) == dex.proto_meaning(k as int) by {
            if k != old {
                assert(c.origin_protos.contains_key(k));
            }
        }
        assert(n.faithful(dex));
        lemma_params_keep(dex, list, start, 0);
        lemma_owned_added(c, n, dex, old);
    }
}

/// What a table of `m` says is still said in `n`, whose tables are longer.
proof fn lemma_pushed_sound(m: Tables, n: Tables, dex: DexTables)
    requires
        m.sound(dex),
        n.ok(),
        extends_tables(m, n),
        n.synthetic_types == m.synthetic_types,
        n.primitive_types == m.primitive_types,
    ensures
        forall|k: u32| #[trigger]
            m.origin_types.contains_key(k) ==> n.name_of_type(m.origin_types[k] as int)
                == dex.name_of_type(k as int),
        forall|k: u32| #[trigger]
            m.origin_protos.contains_key(k) ==> n.proto_meaning(
                n.protos[m.origin_protos[k] as int],
            ) == dex.proto_meaning(k as int),
        forall|k: u32| #[trigger]
            m.origin_fields.contains_key(k) ==> n.field_meaning(
                n.fields[m.origin_fields[k] as int],
            ) == dex.field_meaning(k as int),
        forall|k: u32| #[trigger]
            m.origin_methods.contains_key(k) ==> n.method_meaning(
                n.methods[m.origin_methods[k] as int],
            ) == dex.method_meaning(k as int),
        n.named(),
{
    lemma_meanings_kept(m, n);
    assert forall|k: u32| #[trigger] m.origin_types.contains_key(k) implies n.name_of_type(
        m.origin_types[k] as int,
    ) == dex.name_of_type(k as int) by {
        assert(n.name_of_type(m.origin_types[k] as int) == m.name_of_type(m.origin_types[k] as int));
    }
    assert forall|k: u32| #[trigger] m.origin_protos.contains_key(k) implies n.proto_meaning(
        n.protos[m.origin_protos[k] as int],
    ) == dex.proto_meaning(k as int) by {
        let i = m.origin_protos[k] as int;
        assert(n.proto_meaning(n.protos[i]) == m.proto_meaning(m.protos[i]));
    }
    assert forall|k: u32| #[trigger] m.origin_fields.contains_key(k) implies n.field_meaning(
        n.fields[m.origin_fields[k] as int],
    ) == dex.field_meaning(k as int) by {
        let i = m.origin_fields[k] as int;
        assert(n.field_meaning(n.fields[i]) == m.field_meaning(m.fields[i]));
    }
    assert forall|k: u32| #[trigger] m.origin_methods.contains_key(k) implies n.method_meaning(
        n.methods[m.origin_methods[k] as int],
    ) == dex.method_meaning(k as int) by {
        let i = m.origin_methods[k] as int;
        assert(n.method_meaning(n.methods[i]) == m.method_meaning(m.methods[i]));
    }
    assert forall|k: u32| #[trigger] n.synthetic_named(k) by {
        assert(m.synthetic_named(k));
    }
    assert forall|c: char| #[trigger] n.primitive_named(c) by {
        assert(m.primitive_named(c));
        if let Some(i) = m.primitive_types.get(c as u32) {
            assert(n.name_of_type(i as int) == m.name_of_type(i as int));
        }
    }
}

/// Adding a field keeps the tables sound.
pub proof fn lemma_field_sound(m: Tables, dex: DexTables, old: u32)
    requires
        m.sound(dex),
        m.add_field(dex, old) is Ok,
        m.add_field(dex, old)->Ok_0.0.strings.len() <= 0x1_0000_0000,
    ensures
        m.add_field(dex, old)->Ok_0.0.sound(dex),
        extends_tables(m, m.add_field(dex, old)->Ok_0.0),
{
    lemma_add_field(m, dex, old);
    if !m.origin_fields.contains_key(old) {
        let source = dex.fields[old as int];
        let n = m.add_field(dex, old)->Ok_0.0;
        let class = dex.descriptor(source.class_idx as int)->Ok_0;
        let typ = dex.descriptor(source.type_idx as int)->Ok_0;
        let (a, class_idx) = m.add_synthetic_type(class)->Ok_0;
        let (b, type_idx) = a.add_synthetic_type(typ)->Ok_0;
        let (c, name_idx) = b.add_origin_string(dex, source.name_idx)->Ok_0;
        let field = NewField { class_idx, type_idx, name_idx };
        assert(n.strings == c.strings);
        lemma_synthetic_sound(m, dex, class);
        lemma_synthetic_sound(a, dex, typ);
        lemma_string_sound(b, dex, dex.strings[source.name_idx as int]);
        lemma_extends_chain(m, a, b);
        lemma_extends_chain(m, b, c);
        lemma_extends_chain(a, b, c);
        lemma_meanings_kept(a, c);
        lemma_meanings_kept(b, c);
        assert(c.name_of_type(class_idx as int) == class);
        assert(c.name_of_type(type_idx as int) == typ);
        assert(c.field_meaning(field) == dex.field_meaning(old as int));
        let index = c.fields.len() as u16;
        assert(extends_tables(c, n));
        lemma_extends_chain(m, c, n);
        lemma_pushed_sound(c, n, dex);
        assert(n.fields[index as int] == field);
        assert(n.field_meaning(field) == c.field_meaning(field));
        assert forall|k: u32| #[trigger] n.origin_fields.contains_key(k) implies n.field_meaning(
            n.fields[n.origin_fields[k] as int],
        ) == dex.field_meaning(k as int) by {
            if k != old {
                assert(c.origin_fields.contains_key(k));
            }
        }
        assert(n.faithful(dex));
        lemma_owned_kept(c, n, dex);
    }
}

/// Adding a method keeps the tables sound.
pub proof fn lemma_method_sound(m: Tables, dex: DexTables, old: u32)
    requires
        m.sound(dex),
        m.add_method(dex, old) is Ok,
        m.add_method(dex, old)->Ok_0.0.strings.len() <= 0x1_0000_0000,
    ensures
        m.add_method(dex, old)->Ok_0.0.sound(dex),
        extends_tables(m, m.add_method(dex, old)->Ok_0.0),
{
    lemma_add_method(m, dex, old);
    if !m.origin_methods.contains_key(old) {
        let source = dex.methods[old as int];
        let n = m.add_method(dex, old)->Ok_0.0;
        let (a, proto_idx) = m.add_proto(dex, source.proto_idx as u32)->Ok_0;
        let class = dex.descriptor(source.class_idx as int)->Ok_0;
        let (b, class_idx) = a.add_synthetic_type(class)->Ok_0;
        let (c, name_idx) = b.add_origin_string(dex, source.name_idx)->Ok_0;
        let method = NewMethod { class_idx, proto_idx, name_idx };
        assert(n.strings == c.strings);
        lemma_proto_sound(m, dex, source.proto_idx as u32);
        lemma_synthetic_sound(a, dex, class);
        lemma_string_sound(b, dex, dex.strings[source.name_idx as int]);
        lemma_extends_chain(m, a, b);
        lemma_extends_chain(m, b, c);
        lemma_extends_chain(a, b, c);
        lemma_meanings_kept(a, c);
        lemma_meanings_kept(b, c);
        assert(c.name_of_type(class_idx as int) == class);
        assert(c.proto_meaning(c.protos[proto_idx as int]) == a.proto_meaning(
            a.protos[proto_idx as int],
        ));
        assert(c.method_meaning(method) == dex.method_meaning(old as int));
        let index = c.methods.len() as u16;
        assert(extends_tables(c, n));
        lemma_extends_chain(m, c, n);
        lemma_pushed_sound(c, n, dex);
        assert(n.methods[index as int] == method);
        assert(n.method_meaning(method) == c.method_meaning(method)) by {
            let p = c.protos[proto_idx as int];
            assert(n.names_of_types(p.params) =~= c.names_of_types(p.params));
        }
        assert forall|k: u32| #[trigger] n.origin_methods.contains_key(k) implies n.method_meaning(
            n.methods[n.origin_methods[k] as int],
        ) == dex.method_meaning(k as int) by {
            if k != old {
                assert(c.origin_methods.contains_key(k));
            }
        }
        assert(n.faithful(dex));
        lemma_owned_kept(c, n, dex);
    }
}

// ---------------------------------------------------------------------------
// Growth
// ---------------------------------------------------------------------------

/// Adding a prototype takes no string away.
pub proof fn lemma_proto_grows(m: Tables, dex: DexTables, old: u32)
    requires
        m.add_proto(dex, old) is Ok,
    ensures
        m.strings.len() <= m.add_proto(dex, old)->Ok_0.0.strings.len(),
{
    if !m.origin_protos.contains_key(old) {
        let source = dex.protos[old as int];
        let (a, _) = m.add_origin_string(dex, source.shorty_idx)->Ok_0;
        let (b, _) = a.add_origin_type(dex, source.return_type_idx)->Ok_0;
        let list = dex.type_list(source.parameters_off)->Ok_0;
        lemma_params_grow(dex, list, (b, Seq::<u16>::empty()), 0);
    }
}

/// Adding strings keeps the tables sound.
pub proof fn lemma_strings_run(m: Tables, dex: DexTables, list: Seq<u32>, i: int)
    requires
        run(string_adder(dex, list), m, i, list.len() as int) is Ok,
    ensures
        m.strings.len() <= run(
            string_adder(dex, list),
            m,
            i,
            list.len() as int,
        )->Ok_0.strings.len(),
        m.sound(dex) && run(string_adder(dex, list), m, i, list.len() as int)->Ok_0.strings.len()
            <= 0x1_0000_0000 ==> run(
            string_adder(dex, list),
            m,
            i,
            list.len() as int,
        )->Ok_0.sound(dex),
    decreases list.len() - i,
{
    if i < list.len() {
        let n = string_adder(dex, list)(m, i)->Ok_0;
        lemma_strings_run(n, dex, list, i + 1);
        if m.sound(dex) && n.strings.len() <= 0x1_0000_0000 {
            lemma_string_sound(m, dex, dex.strings[list[i] as int]);
        }
    }
}

/// Adding types keeps the tables sound.
pub proof fn lemma_types_run(m: Tables, dex: DexTables, list: Seq<u32>, ordered: bool, i: int)
    requires
        run(type_adder(dex, list, ordered), m, i, list.len() as int) is Ok,
    ensures
        m.strings.len() <= run(
            type_adder(dex, list, ordered),
            m,
            i,
            list.len() as int,
        )->Ok_0.strings.len(),
        m.sound(dex) && run(
            type_adder(dex, list, ordered),
            m,
            i,
            list.len() as int,
        )->Ok_0.strings.len() <= 0x1_0000_0000 ==> run(
            type_adder(dex, list, ordered),
            m,
            i,
            list.len() as int,
        )->Ok_0.sound(dex),
    decreases list.len() - i,
{
    if i < list.len() {
        let n = type_adder(dex, list, ordered)(m, i)->Ok_0;
        lemma_types_run(n, dex, list, ordered, i + 1);
        if m.sound(dex) && n.strings.len() <= 0x1_0000_0000 {
            lemma_origin_type_sound(m, dex, list[i]);
        }
    }
}

/// Adding prototypes keeps the tables sound.
pub proof fn lemma_protos_run(m: Tables, dex: DexTables, list: Seq<u32>, ordered: bool, i: int)
    requires
        run(proto_adder(dex, list, ordered), m, i, list.len() as int) is Ok,
    ensures
        m.strings.len() <= run(
            proto_adder(dex, list, ordered),
            m,
            i,
            list.len() as int,
        )->Ok_0.strings.len(),
        m.sound(dex) && run(
            proto_adder(dex, list, ordered),
            m,
            i,
            list.len() as int,
        )->Ok_0.strings.len() <= 0x1_0000_0000 ==> run(
            proto_adder(dex, list, ordered),
            m,
            i,
            list.len() as int,
        )->Ok_0.sound(dex),
    decreases list.len() - i,
{
    if i < list.len() {
        let n = proto_adder(dex, list, ordered)(m, i)->Ok_0;
        lemma_protos_run(n, dex, list, ordered, i + 1);
        lemma_proto_grows(m, dex, list[i]);
        if m.sound(dex) && n.strings.len() <= 0x1_0000_0000 {
            lemma_proto_sound(m, dex, list[i]);
        }
    }
}

/// Adding fields keeps the tables sound.
pub proof fn lemma_fields_run(m: Tables, dex: DexTables, list: Seq<u32>, ordered: bool, i: int)
    requires
        run(field_adder(dex, list, ordered), m, i, list.len() as int) is Ok,
    ensures
        m.strings.len() <= run(
            field_adder(dex, list, ordered),
            m,
            i,
            list.len() as int,
        )->Ok_0.strings.len(),
        m.sound(dex) && run(
            field_adder(dex, list, ordered),
            m,
            i,
            list.len() as int,
        )->Ok_0.strings.len() <= 0x1_0000_0000 ==> run(
            field_adder(dex, list, ordered),
            m,
            i,
            list.len() as int,
        )->Ok_0.sound(dex),
    decreases list.len() - i,
{
    if i < list.len() {
        let n = field_adder(dex, list, ordered)(m, i)->Ok_0;
        lemma_fields_run(n, dex, list, ordered, i + 1);
        if m.sound(dex) && n.strings.len() <= 0x1_0000_0000 {
            lemma_field_sound(m, dex, list[i]);
        }
    }
}

/// Adding methods keeps the tables sound.
pub proof fn lemma_methods_run(m: Tables, dex: DexTables, list: Seq<u32>, ordered: bool, i: int)
    requires
        run(method_adder(dex, list, ordered), m, i, list.len() as int) is Ok,
    ensures
        m.strings.len() <= run(
            method_adder(dex, list, ordered),
            m,
            i,
            list.len() as int,
        )->Ok_0.strings.len(),
        m.sound(dex) && run(
            method_adder(dex, list, ordered),
            m,
            i,
            list.len() as int,
        )->Ok_0.strings.len() <= 0x1_0000_0000 ==> run(
            method_adder(dex, list, ordered),
            m,
            i,
            list.len() as int,
        )->Ok_0.sound(dex),
    decreases list.len() - i,
{
    if i < list.len() {
        let n = method_adder(dex, list, ordered)(m, i)->Ok_0;
        lemma_methods_run(n, dex, list, ordered, i + 1);
        if !m.origin_methods.contains_key(list[i]) {
            lemma_proto_grows(m, dex, dex.methods[list[i] as int].proto_idx as u32);
        }
        if m.sound(dex) && n.strings.len() <= 0x1_0000_0000 {
            lemma_method_sound(m, dex, list[i]);
        }
    }
}

/// Adding what code refers to keeps the tables sound.
pub proof fn lemma_code_refs_run(dex: DexTables, refs: CodeRefs)
    requires
        with_code_refs(Tables::empty(), dex, refs) is Ok,
    ensures
        with_code_refs(Tables::empty(), dex, refs)->Ok_0.strings.len() <= 0x1_0000_0000
            ==> with_code_refs(Tables::empty(), dex, refs)->Ok_0.sound(dex),
{
    let e = Tables::empty();
    let a = with_strings(e, dex, refs.strings)->Ok_0;
    let b = with_types(a, dex, refs.types, true)->Ok_0;
    let c = b.fill_primitives()->Ok_0;
    let d = with_protos(c, dex, refs.protos, true)->Ok_0;
    let f = with_fields(d, dex, refs.fields, true)->Ok_0;
    assert(e.sound(dex)) by {
        assert forall|k: u32| #[trigger] e.synthetic_named(k) by {}
        assert forall|c: char| #[trigger] e.primitive_named(c) by {}
    }
    lemma_strings_run(e, dex, refs.strings, 0);
    lemma_types_run(a, dex, refs.types, true, 0);
    lemma_primitives_grow(b, 0);
    if b.sound(dex) && c.strings.len() <= 0x1_0000_0000 {
        lemma_primitives_sound(b, dex, 0);
    }
    lemma_protos_run(c, dex, refs.protos, true, 0);
    lemma_fields_run(d, dex, refs.fields, true, 0);
    lemma_methods_run(f, dex, refs.methods, true, 0);
}

/// Adding what metadata refers to keeps the tables sound.
pub proof fn lemma_metadata_run(m: Tables, dex: DexTables, refs: RefSets)
    requires
        with_metadata_refs(m, dex, refs) is Ok,
    ensures
        m.strings.len() <= with_metadata_refs(m, dex, refs)->Ok_0.strings.len(),
        m.sound(dex) && with_metadata_refs(m, dex, refs)->Ok_0.strings.len() <= 0x1_0000_0000
            ==> with_metadata_refs(m, dex, refs)->Ok_0.sound(dex),
{
    let a = with_strings(m, dex, refs.strings)->Ok_0;
    let b = with_types(a, dex, refs.types, false)->Ok_0;
    let c = with_protos(b, dex, refs.protos, false)->Ok_0;
    let d = with_fields(c, dex, refs.fields, false)->Ok_0;
    lemma_strings_run(m, dex, refs.strings, 0);
    lemma_types_run(a, dex, refs.types, false, 0);
    lemma_protos_run(b, dex, refs.protos, false, 0);
    lemma_fields_run(c, dex, refs.fields, false, 0);
    lemma_methods_run(d, dex, refs.methods, false, 0);
}

/// Everything that was gathered for a class stands for the same names as in
/// the source.
pub proof fn lemma_gathered_faithful(
    dex: DexTables,
    class: ClassDef,
    members: Members,
    parts: Parts,
    refs: CodeRefs,
)
    requires
        gathered(dex, class, members, parts, refs) is Ok,
        gathered(dex, class, members, parts, refs)->Ok_0.strings.len() <= 0x1_0000_0000,
    ensures
        gathered(dex, class, members, parts, refs)->Ok_0.ok(),
        gathered(dex, class, members, parts, refs)->Ok_0.faithful(dex),
        gathered(dex, class, members, parts, refs)->Ok_0.readable(dex),
        gathered(dex, class, members, parts, refs)->Ok_0.owned(dex),
{
    let g = with_code_refs(Tables::empty(), dex, refs)->Ok_0;
    let h = with_fields(g, dex, field_ids(members.fields()), false)->Ok_0;
    let i = with_methods(h, dex, method_ids(members.methods()), false)->Ok_0;
    let j = with_strings(i, dex, class_strings(class))->Ok_0;
    let k = with_types(j, dex, class_types(class), false)->Ok_0;
    let l = with_types(k, dex, widened_ids(parts.interfaces), false)->Ok_0;
    let n = with_metadata_refs(l, dex, parts.metadata_refs)->Ok_0;
    lemma_code_refs_run(dex, refs);
    lemma_fields_run(g, dex, field_ids(members.fields()), false, 0);
    lemma_methods_run(h, dex, method_ids(members.methods()), false, 0);
    lemma_strings_run(i, dex, class_strings(class), 0);
    lemma_types_run(j, dex, class_types(class), false, 0);
    lemma_types_run(k, dex, widened_ids(parts.interfaces), false, 0);
    lemma_metadata_run(l, dex, parts.metadata_refs);
    lemma_types_run(n, dex, caught_types(parts.codes.values), false, 0);
}

// ---------------------------------------------------------------------------
// Canonical order
// ---------------------------------------------------------------------------

proof fn lemma_strings_sorted_faithful(m: Tables, dex: DexTables)
    requires
        m.ok(),
        m.faithful(dex),
        m.strings.len() <= 0x1_0000_0000,
    ensures
        m.strings_sorted().faithful(dex),
{
    lemma_strings_sorted(m);
    let n = m.strings_sorted();
    let places = m.string_places();
    assert forall|i: int| 0 <= i < m.types.len() implies #[trigger] n.name_of_type(i)
        == m.name_of_type(i) by {
        assert(m.string_ok(m.types[i] as int));
        assert(n.strings[places[m.types[i] as int] as int] == m.strings[m.types[i] as int]);
    }
    assert forall|i: int| 0 <= i < m.protos.len() implies n.proto_meaning(#[trigger] n.protos[i])
        == m.proto_meaning(m.protos[i]) by {
        let p = m.protos[i];
        assert(m.proto_ok(p));
        assert(n.strings[places[p.shorty_idx as int] as int] == m.strings[p.shorty_idx as int]);
        assert forall|j: int| 0 <= j < p.params.len() implies n.names_of_types(p.params)[j]
            == m.names_of_types(p.params)[j] by {
            assert(m.type_ok(p.params[j] as int));
        }
        assert(n.names_of_types(p.params) =~= m.names_of_types(p.params));
    }
    assert forall|k: u32| #[trigger] n.origin_types.contains_key(k) implies n.name_of_type(
        n.origin_types[k] as int,
    ) == dex.name_of_type(k as int) by {
        assert(m.origin_types.contains_key(k));
    }
    assert forall|k: u32| #[trigger] n.origin_protos.contains_key(k) implies n.proto_meaning(
        n.protos[n.origin_protos[k] as int],
    ) == dex.proto_meaning(k as int) by {
        assert(m.origin_protos.contains_key(k));
    }
    assert forall|k: u32| #[trigger] n.origin_fields.contains_key(k) implies n.field_meaning(
        n.fields[n.origin_fields[k] as int],
    ) == dex.field_meaning(k as int) by {
        assert(m.origin_fields.contains_key(k));
        let f = m.fields[m.origin_fields[k] as int];
        assert(m.field_ok(f));
        assert(n.strings[places[f.name_idx as int] as int] == m.strings[f.name_idx as int]);
        assert(n.name_of_type(f.class_idx as int) == m.name_of_type(f.class_idx as int));
        assert(n.name_of_type(f.type_idx as int) == m.name_of_type(f.type_idx as int));
    }
    assert forall|k: u32| #[trigger] n.origin_methods.contains_key(k) implies n.method_meaning(
        n.methods[n.origin_methods[k] as int],
    ) == dex.method_meaning(k as int) by {
        assert(m.origin_methods.contains_key(k));
        let x = m.methods[m.origin_methods[k] as int];
        assert(m.method_ok(x));
        assert(n.strings[places[x.name_idx as int] as int] == m.strings[x.name_idx as int]);
        assert(n.name_of_type(x.class_idx as int) == m.name_of_type(x.class_idx as int));
        assert(n.proto_meaning(n.protos[x.proto_idx as int]) == m.proto_meaning(
            m.protos[x.proto_idx as int],
        ));
    }
}

proof fn lemma_types_merged_faithful(m: Tables, dex: DexTables)
    requires
        m.ok(),
        m.faithful(dex),
    ensures
        m.types_merged().faithful(dex),
{
    lemma_types_merged(m);
    let n = m.types_merged();
    let places = m.type_merge().1;
    assert forall|i: int| 0 <= i < m.types.len() implies n.name_of_type(
        #[trigger] places[i] as int,
    ) == m.name_of_type(i) by {
        assert(n.types[places[i] as int] == m.types[i]);
    }
    assert forall|i: int| 0 <= i < m.protos.len() implies n.proto_meaning(#[trigger] n.protos[i])
        == m.proto_meaning(m.protos[i]) by {
        let p = m.protos[i];
        let q = n.protos[i];
        assert(q == proto_with_types(p, places));
        assert(m.proto_ok(p));
        assert(n.name_of_type(places[p.return_type_idx as int] as int) == m.name_of_type(
            p.return_type_idx as int,
        ));
        assert forall|j: int| 0 <= j < p.params.len() implies n.names_of_types(q.params)[j]
            == m.names_of_types(p.params)[j] by {
            assert(m.type_ok(p.params[j] as int));
            assert(q.params[j] == places[p.params[j] as int]);
        }
        assert(n.names_of_types(q.params) =~= m.names_of_types(p.params));
    }
    assert forall|k: u32| #[trigger] n.origin_types.contains_key(k) implies n.name_of_type(
        n.origin_types[k] as int,
    ) == dex.name_of_type(k as int) by {
        assert(m.origin_types.contains_key(k));
        assert(n.origin_types[k] == places[m.origin_types[k] as int]);
    }
    assert forall|k: u32| #[trigger] n.origin_protos.contains_key(k) implies n.proto_meaning(
        n.protos[n.origin_protos[k] as int],
    ) == dex.proto_meaning(k as int) by {
        assert(m.origin_protos.contains_key(k));
    }
    assert forall|k: u32| #[trigger] n.origin_fields.contains_key(k) implies n.field_meaning(
        n.fields[n.origin_fields[k] as int],
    ) == dex.field_meaning(k as int) by {
        assert(m.origin_fields.contains_key(k));
        let f = m.fields[m.origin_fields[k] as int];
        assert(m.field_ok(f));
        assert(n.name_of_type(places[f.class_idx as int] as int) == m.name_of_type(
            f.class_idx as int,
        ));
        assert(n.name_of_type(places[f.type_idx as int] as int) == m.name_of_type(
            f.type_idx as int,
        ));
    }
    assert forall|k: u32| #[trigger] n.origin_methods.contains_key(k) implies n.method_meaning(
        n.methods[n.origin_methods[k] as int],
    ) == dex.method_meaning(k as int) by {
        assert(m.origin_methods.contains_key(k));
        let x = m.methods[m.origin_methods[k] as int];
        assert(m.method_ok(x));
        assert(n.name_of_type(places[x.class_idx as int] as int) == m.name_of_type(
            x.class_idx as int,
        ));
        assert(n.proto_meaning(n.protos[x.proto_idx as int]) == m.proto_meaning(
            m.protos[x.proto_idx as int],
        ));
    }
}

proof fn lemma_same_strings_types(m: Tables, n: Tables)
    requires
        m.strings == n.strings,
        m.types == n.types,
    ensures
        forall|i: int| #[trigger] n.name_of_type(i) == m.name_of_type(i),
        forall|p: Proto| #[trigger] n.proto_meaning(p) == m.proto_meaning(p),
        forall|f: NewField| #[trigger] n.field_meaning(f) == m.field_meaning(f),
{
    assert forall|p: Proto| #[trigger] n.proto_meaning(p) == m.proto_meaning(p) by {
        assert(n.names_of_types(p.params) =~= m.names_of_types(p.params));
    }
}

proof fn lemma_rest_merged_faithful(m: Tables, dex: DexTables)
    requires
        m.ok(),
        m.faithful(dex),
    ensures
        m.protos_merged().fields_merged().methods_merged().faithful(dex),
{
    lemma_protos_merged(m);
    let a = m.protos_merged();
    let places = m.proto_merge().1;
    lemma_same_strings_types(m, a);
    assert forall|k: u32| #[trigger] a.origin_protos.contains_key(k) implies a.proto_meaning(
        a.protos[a.origin_protos[k] as int],
    ) == dex.proto_meaning(k as int) by {
        assert(m.origin_protos.contains_key(k));
        assert(a.protos[places[m.origin_protos[k] as int] as int]
            == m.protos[m.origin_protos[k] as int]);
    }
    assert forall|k: u32| #[trigger] a.origin_methods.contains_key(k) implies a.method_meaning(
        a.methods[a.origin_methods[k] as int],
    ) == dex.method_meaning(k as int) by {
        assert(m.origin_methods.contains_key(k));
        let x = m.methods[m.origin_methods[k] as int];
        assert(m.method_ok(x));
        assert(a.protos[places[x.proto_idx as int] as int] == m.protos[x.proto_idx as int]);
    }
    assert(a.faithful(dex)) by {
        assert forall|k: u32| #[trigger] a.origin_types.contains_key(k) implies a.name_of_type(
            a.origin_types[k] as int,
        ) == dex.name_of_type(k as int) by {
            assert(m.origin_types.contains_key(k));
        }
        assert forall|k: u32| #[trigger] a.origin_fields.contains_key(k) implies a.field_meaning(
            a.fields[a.origin_fields[k] as int],
        ) == dex.field_meaning(k as int) by {
            assert(m.origin_fields.contains_key(k));
        }
    }
    lemma_fields_merged(a);
    let b = a.fields_merged();
    let field_places = a.field_merge().1;
    lemma_same_strings_types(a, b);
    assert(b.faithful(dex)) by {
        assert forall|k: u32| #[trigger] b.origin_types.contains_key(k) implies b.name_of_type(
            b.origin_types[k] as int,
        ) == dex.name_of_type(k as int) by {
            assert(a.origin_types.contains_key(k));
        }
        assert forall|k: u32| #[trigger] b.origin_protos.contains_key(k) implies b.proto_meaning(
            b.protos[b.origin_protos[k] as int],
        ) == dex.proto_meaning(k as int) by {
            assert(a.origin_protos.contains_key(k));
        }
        assert forall|k: u32| #[trigger] b.origin_fields.contains_key(k) implies b.field_meaning(
            b.fields[b.origin_fields[k] as int],
        ) == dex.field_meaning(k as int) by {
            assert(a.origin_fields.contains_key(k));
            assert(b.fields[field_places[a.origin_fields[k] as int] as int]
                == a.fields[a.origin_fields[k] as int]);
        }
        assert forall|k: u32| #[trigger] b.origin_methods.contains_key(k) implies b.method_meaning(
            b.methods[b.origin_methods[k] as int],
        ) == dex.method_meaning(k as int) by {
            assert(a.origin_methods.contains_key(k));
        }
    }
    lemma_methods_merged(b);
    let c = b.methods_merged();
    let method_places = b.method_merge().1;
    lemma_same_strings_types(b, c);
    assert(c.faithful(dex)) by {
        assert forall|k: u32| #[trigger] c.origin_types.contains_key(k) implies c.name_of_type(
            c.origin_types[k] as int,
        ) == dex.name_of_type(k as int) by {
            assert(b.origin_types.contains_key(k));
        }
        assert forall|k: u32| #[trigger] c.origin_protos.contains_key(k) implies c.proto_meaning(
            c.protos[c.origin_protos[k] as int],
        ) == dex.proto_meaning(k as int) by {
            assert(b.origin_protos.contains_key(k));
        }
        assert forall|k: u32| #[trigger] c.origin_fields.contains_key(k) implies c.field_meaning(
            c.fields[c.origin_fields[k] as int],
        ) == dex.field_meaning(k as int) by {
            assert(b.origin_fields.contains_key(k));
        }
        assert forall|k: u32| #[trigger] c.origin_methods.contains_key(k) implies c.method_meaning(
            c.methods[c.origin_methods[k] as int],
        ) == dex.method_meaning(k as int) by {
            assert(b.origin_methods.contains_key(k));
            assert(c.methods[method_places[b.origin_methods[k] as int] as int]
                == b.methods[b.origin_methods[k] as int]);
        }
    }
}

/// Sorting and merging the tables keeps the names that every identifier stands
/// for.
pub proof fn lemma_canonical_faithful(m: Tables, dex: DexTables)
    requires
        m.ok(),
        m.faithful(dex),
        m.strings.len() <= 0x1_0000_0000,
    ensures
        m.canonical().ok(),
        m.canonical().faithful(dex),
        m.canonical().strings.len() == m.strings.len(),
{
    let a = m.strings_sorted();
    let b = a.types_merged();
    lemma_strings_sorted(m);
    lemma_strings_sorted_faithful(m, dex);
    lemma_types_merged(a);
    lemma_types_merged_faithful(a, dex);
    lemma_rest_merged_faithful(b, dex);
    lemma_protos_merged(b);
    lemma_fields_merged(b.protos_merged());
    lemma_methods_merged(b.protos_merged().fields_merged());
}

/// Sorting and merging the tables keeps what can be read in the source.
pub proof fn lemma_canonical_readable(m: Tables, dex: DexTables)
    requires
        m.readable(dex),
    ensures
        m.canonical().readable(dex),
{
    let n = m.canonical();
    assert(n.origin_types.dom() =~= m.origin_types.dom());
    assert(n.origin_protos.dom() =~= m.origin_protos.dom());
    assert(n.origin_fields.dom() =~= m.origin_fields.dom());
    assert(n.origin_methods.dom() =~= m.origin_methods.dom());
    assert forall|k: u32| #[trigger] n.origin_types.contains_key(k) implies k
        < dex.types.len() by {
        assert(m.origin_types.contains_key(k));
    }
    assert forall|k: u32| #[trigger] n.origin_protos.contains_key(k) implies dex.proto_readable(
        k,
    ) by {
        assert(m.origin_protos.contains_key(k));
    }
    assert forall|k: u32| #[trigger] n.origin_fields.contains_key(k) implies k
        < dex.fields.len() by {
        assert(m.origin_fields.contains_key(k));
    }
    assert forall|k: u32| #[trigger] n.origin_methods.contains_key(k) implies dex.method_readable(
        k,
    ) by {
        assert(m.origin_methods.contains_key(k));
    }
}

} // verus!
