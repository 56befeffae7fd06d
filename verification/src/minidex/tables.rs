//! The identifier tables of the extracted class while they grow: what each
//! addition does to them, and what always holds of them.
use vstd::prelude::*;

use crate::collections::{found, lemma_put_get, lemma_rank, low32, rank_from, Entries};
use crate::error::Error;
use crate::minidex::reader::DexTables;
use crate::results::run;

verus! {

#[derive(Debug, Clone, Copy, PartialEq, Eq, Structural)]
pub struct NewField {
    pub class_idx: u16,
    pub type_idx: u16,
    pub name_idx: u32,
}

#[derive(Debug, Clone, Copy, PartialEq, Eq, Structural)]
pub struct NewMethod {
    pub class_idx: u16,
    pub proto_idx: u16,
    pub name_idx: u32,
}

/// A prototype of the extracted class.
#[verifier::ext_equal]
pub struct Proto {
    pub shorty_idx: u32,
    pub return_type_idx: u32,
    pub params: Seq<u16>,
}

/// The identifier tables of the extracted class, and where each identifier of
/// the source went.
#[verifier::ext_equal]
pub struct Tables {
    pub strings: Seq<Seq<char>>,
    pub types: Seq<u32>,
    pub origin_types: Map<u32, u16>,
    pub synthetic_types: Entries<u16>,
    pub primitive_types: Entries<u16>,
    pub protos: Seq<Proto>,
    pub origin_protos: Map<u32, u16>,
    pub fields: Seq<NewField>,
    pub origin_fields: Map<u32, u16>,
    pub methods: Seq<NewMethod>,
    pub origin_methods: Map<u32, u16>,
}

/// The first position from `i` on that holds `x`, or the length.
pub open spec fn position_from<T>(s: Seq<T>, x: T, i: int) -> int
    decreases s.len() - i,
{
    if i >= s.len() || s[i] == x {
        i
    } else {
        position_from(s, x, i + 1)
    }
}

/// The first position that holds `x`, or the length.
pub open spec fn position<T>(s: Seq<T>, x: T) -> int {
    position_from(s, x, 0)
}

proof fn lemma_position_from<T>(s: Seq<T>, x: T, i: int)
    requires
        0 <= i <= s.len(),
    ensures
        i <= position_from(s, x, i) <= s.len(),
        position_from(s, x, i) < s.len() ==> s[position_from(s, x, i)] == x,
        forall|j: int| i <= j < position_from(s, x, i) ==> s[j] != x,
    decreases s.len() - i,
{
    if i < s.len() && s[i] != x {
        lemma_position_from(s, x, i + 1);
    }
}

/// `position` finds the first occurrence, if there is one.
pub proof fn lemma_position<T>(s: Seq<T>, x: T)
    ensures
        0 <= position(s, x) <= s.len(),
        position(s, x) < s.len() <==> s.contains(x),
        position(s, x) < s.len() ==> s[position(s, x)] == x,
        forall|j: int| 0 <= j < position(s, x) ==> s[j] != x,
{
    lemma_position_from(s, x, 0);
    if position(s, x) < s.len() {
        assert(s.contains(s[position(s, x)]));
    }
}

/// Where nothing occurs twice, `position` inverts indexing.
pub proof fn lemma_position_unique<T>(s: Seq<T>, i: int)
    requires
        0 <= i < s.len(),
        s.no_duplicates(),
    ensures
        position(s, s[i]) == i,
{
    lemma_position(s, s[i]);
    assert(s.contains(s[i]));
}

/// The nine primitive type letters, in the order in which they are added.
pub open spec fn primitives() -> Seq<char> {
    seq!['V', 'Z', 'B', 'S', 'C', 'I', 'J', 'F', 'D']
}

/// Whether a descriptor is a single ASCII letter.
pub open spec fn is_letter(descriptor: Seq<char>) -> bool {
    descriptor.len() == 1 && (descriptor[0] as u32) < 0x80
}

impl Tables {
    pub open spec fn empty() -> Tables {
        Tables {
            strings: Seq::empty(),
            types: Seq::empty(),
            origin_types: Map::empty(),
            synthetic_types: Entries::empty(),
            primitive_types: Entries::empty(),
            protos: Seq::empty(),
            origin_protos: Map::empty(),
            fields: Seq::empty(),
            origin_fields: Map::empty(),
            methods: Seq::empty(),
            origin_methods: Map::empty(),
        }
    }

    // -----------------------------------------------------------------------
    // Additions
    // -----------------------------------------------------------------------
    /// With a text in the string table, and its index.
    pub open spec fn add_string(self, text: Seq<char>) -> (Tables, u32) {
        let p = position(self.strings, text);
        if p < self.strings.len() {
            (self, low32(p))
        } else {
            (Tables { strings: self.strings.push(text), ..self }, low32(p))
        }
    }

    /// With string `old` of the source.
    pub open spec fn add_origin_string(self, dex: DexTables, old: u32) -> Result<
        (Tables, u32),
        Error,
    > {
        if old >= dex.strings.len() {
            Err(Error::InvalidStringIndex(old as u64))
        } else {
            Ok(self.add_string(dex.strings[old as int]))
        }
    }

    /// With a type whose descriptor is string `descriptor`, and its index.
    pub open spec fn push_type(self, descriptor: u32) -> Result<(Tables, u16), Error> {
        if self.types.len() > 0xffff {
            Err(Error::TooManyTypes)
        } else {
            Ok(
                (
                    Tables { types: self.types.push(descriptor), ..self },
                    self.types.len() as u16,
                ),
            )
        }
    }

    /// With type `old` of the source.
    pub open spec fn add_origin_type(self, dex: DexTables, old: u32) -> Result<
        (Tables, u16),
        Error,
    > {
        if self.origin_types.contains_key(old) {
            Ok((self, self.origin_types[old]))
        } else if old >= dex.types.len() {
            Err(Error::InvalidTypeIndex(old))
        } else {
            match self.add_origin_string(dex, dex.types[old as int]) {
                Err(e) => Err(e),
                Ok((m, descriptor)) => match m.push_type(descriptor) {
                    Err(e) => Err(e),
                    Ok((n, index)) => Ok(
                        (
                            Tables { origin_types: n.origin_types.insert(old, index), ..n },
                            index,
                        ),
                    ),
                },
            }
        }
    }

    /// With the type of the given descriptor, shared by all that ask for it so.
    pub open spec fn add_synthetic_type(self, text: Seq<char>) -> Result<(Tables, u16), Error> {
        let (m, descriptor) = self.add_string(text);
        match m.synthetic_types.get(descriptor) {
            Some(index) => Ok((m, index)),
            None => match m.push_type(descriptor) {
                Err(e) => Err(e),
                Ok((n, index)) => Ok(
                    (
                        Tables {
                            synthetic_types: n.synthetic_types.put(descriptor, index),
                            ..n
                        },
                        index,
                    ),
                ),
            },
        }
    }

    /// With the primitive types.
    pub open spec fn fill_primitives(self) -> Result<Tables, Error> {
        run(primitive_step(), self, 0, 9)
    }

    /// With prototype `old` of the source.
    pub open spec fn add_proto(self, dex: DexTables, old: u32) -> Result<(Tables, u16), Error> {
        if self.origin_protos.contains_key(old) {
            Ok((self, self.origin_protos[old]))
        } else if old >= dex.protos.len() {
            Err(Error::InvalidProtoIndex(old))
        } else {
            let source = dex.protos[old as int];
            match self.add_origin_string(dex, source.shorty_idx) {
                Err(e) => Err(e),
                Ok((a, shorty_idx)) => match a.add_origin_type(dex, source.return_type_idx) {
                    Err(e) => Err(e),
                    Ok((b, return_type_idx)) => match dex.type_list(source.parameters_off) {
                        Err(e) => Err(e),
                        Ok(list) => match run(
                            param_step(dex, list),
                            (b, Seq::<u16>::empty()),
                            0,
                            list.len() as int,
                        ) {
                            Err(e) => Err(e),
                            Ok((c, params)) => c.push_proto(
                                old,
                                Proto {
                                    shorty_idx,
                                    return_type_idx: return_type_idx as u32,
                                    params,
                                },
                            ),
                        },
                    },
                },
            }
        }
    }

    pub open spec fn push_proto(self, old: u32, proto: Proto) -> Result<(Tables, u16), Error> {
        if self.protos.len() > 0xffff {
            Err(Error::TooManyProtos)
        } else {
            let index = self.protos.len() as u16;
            Ok(
                (
                    Tables {
                        protos: self.protos.push(proto),
                        origin_protos: self.origin_protos.insert(old, index),
                        ..self
                    },
                    index,
                ),
            )
        }
    }

    /// With field `old` of the source.
    pub open spec fn add_field(self, dex: DexTables, old: u32) -> Result<(Tables, u16), Error> {
        if self.origin_fields.contains_key(old) {
            Ok((self, self.origin_fields[old]))
        } else if old >= dex.fields.len() {
            Err(Error::InvalidFieldIndex(old))
        } else {
            let source = dex.fields[old as int];
            match dex.descriptor(source.class_idx as int) {
                Err(e) => Err(e),
                Ok(class) => match dex.descriptor(source.type_idx as int) {
                    Err(e) => Err(e),
                    Ok(typ) => match self.add_synthetic_type(class) {
                        Err(e) => Err(e),
                        Ok((a, class_idx)) => match a.add_synthetic_type(typ) {
                            Err(e) => Err(e),
                            Ok((b, type_idx)) => match b.add_origin_string(dex, source.name_idx) {
                                Err(e) => Err(e),
                                Ok((c, name_idx)) => c.push_field(
                                    old,
                                    NewField { class_idx, type_idx, name_idx },
                                ),
                            },
                        },
                    },
                },
            }
        }
    }

    pub open spec fn push_field(self, old: u32, field: NewField) -> Result<(Tables, u16), Error> {
        if self.fields.len() > 0xffff {
            Err(Error::TooManyFields)
        } else {
            let index = self.fields.len() as u16;
            Ok(
                (
                    Tables {
                        fields: self.fields.push(field),
                        origin_fields: self.origin_fields.insert(old, index),
                        ..self
                    },
                    index,
                ),
            )
        }
    }

    /// With method `old` of the source.
    pub open spec fn add_method(self, dex: DexTables, old: u32) -> Result<(Tables, u16), Error> {
        if self.origin_methods.contains_key(old) {
            Ok((self, self.origin_methods[old]))
        } else if old >= dex.methods.len() {
            Err(Error::InvalidMethodIndex(old))
        } else {
            let source = dex.methods[old as int];
            match self.add_proto(dex, source.proto_idx as u32) {
                Err(e) => Err(e),
                Ok((a, proto_idx)) => match dex.descriptor(source.class_idx as int) {
                    Err(e) => Err(e),
                    Ok(class) => match a.add_synthetic_type(class) {
                        Err(e) => Err(e),
                        Ok((b, class_idx)) => match b.add_origin_string(dex, source.name_idx) {
                            Err(e) => Err(e),
                            Ok((c, name_idx)) => c.push_method(
                                old,
                                NewMethod { class_idx, proto_idx, name_idx },
                            ),
                        },
                    },
                },
            }
        }
    }

    pub open spec fn push_method(self, old: u32, method: NewMethod) -> Result<
        (Tables, u16),
        Error,
    > {
        if self.methods.len() > 0xffff {
            Err(Error::TooManyMethods)
        } else {
            let index = self.methods.len() as u16;
            Ok(
                (
                    Tables {
                        methods: self.methods.push(method),
                        origin_methods: self.origin_methods.insert(old, index),
                        ..self
                    },
                    index,
                ),
            )
        }
    }

    // -----------------------------------------------------------------------
    // Lookups
    // -----------------------------------------------------------------------
    /// Where string `old` of the source went.
    pub open spec fn mapped_string(self, dex: DexTables, old: u32) -> Result<u32, Error> {
        if old >= dex.strings.len() {
            Err(Error::InvalidStringIndex(old as u64))
        } else {
            let p = position(self.strings, dex.strings[old as int]);
            if p < self.strings.len() {
                Ok(low32(p))
            } else {
                Err(Error::StringNotPresent(old))
            }
        }
    }

    pub open spec fn mapped_type(self, old: u32) -> Result<u16, Error> {
        match found(self.origin_types, old) {
            Some(index) => Ok(index),
            None => Err(Error::TypeNotPresent(old)),
        }
    }

    pub open spec fn mapped_proto(self, old: u32) -> Result<u16, Error> {
        match found(self.origin_protos, old) {
            Some(index) => Ok(index),
            None => Err(Error::ProtoNotPresent),
        }
    }

    pub open spec fn mapped_field(self, old: u32) -> Result<u16, Error> {
        match found(self.origin_fields, old) {
            Some(index) => Ok(index),
            None => Err(Error::FieldNotPresent(old)),
        }
    }

    pub open spec fn mapped_method(self, old: u32) -> Result<u16, Error> {
        match found(self.origin_methods, old) {
            Some(index) => Ok(index),
            None => Err(Error::MethodNotPresent(old)),
        }
    }

    // -----------------------------------------------------------------------
    // What always holds
    // -----------------------------------------------------------------------
    pub open spec fn type_ok(self, index: int) -> bool {
        0 <= index < self.types.len()
    }

    pub open spec fn string_ok(self, index: int) -> bool {
        0 <= index < self.strings.len()
    }

    pub open spec fn proto_ok(self, proto: Proto) -> bool {
        &&& self.string_ok(proto.shorty_idx as int)
        &&& self.type_ok(proto.return_type_idx as int)
        &&& forall|i: int| 0 <= i < proto.params.len() ==> self.type_ok(#[trigger] proto.params[i] as int)
    }

    pub open spec fn field_ok(self, field: NewField) -> bool {
        &&& self.type_ok(field.class_idx as int)
        &&& self.type_ok(field.type_idx as int)
        &&& self.string_ok(field.name_idx as int)
    }

    pub open spec fn method_ok(self, method: NewMethod) -> bool {
        &&& self.type_ok(method.class_idx as int)
        &&& method.proto_idx < self.protos.len()
        &&& self.string_ok(method.name_idx as int)
    }

    /// No string occurs twice, every table has at most 65536 entries but the
    /// string table, and every index points into its table.
    pub open spec fn ok(self) -> bool {
        &&& self.strings.no_duplicates()
        &&& self.types.len() <= 0x1_0000
        &&& self.protos.len() <= 0x1_0000
        &&& self.fields.len() <= 0x1_0000
        &&& self.methods.len() <= 0x1_0000
        &&& forall|i: int|
            0 <= i < self.types.len() ==> self.string_ok(#[trigger] self.types[i] as int)
        &&& forall|i: int| 0 <= i < self.protos.len() ==> self.proto_ok(#[trigger] self.protos[i])
        &&& forall|i: int| 0 <= i < self.fields.len() ==> self.field_ok(#[trigger] self.fields[i])
        &&& forall|i: int|
            0 <= i < self.methods.len() ==> self.method_ok(#[trigger] self.methods[i])
        &&& forall|k: u32| #[trigger]
            self.origin_types.contains_key(k) ==> self.type_ok(self.origin_types[k] as int)
        &&& forall|k: u32| #[trigger]
            self.origin_protos.contains_key(k) ==> self.origin_protos[k] < self.protos.len()
        &&& forall|k: u32| #[trigger]
            self.origin_fields.contains_key(k) ==> self.origin_fields[k] < self.fields.len()
        &&& forall|k: u32| #[trigger]
            self.origin_methods.contains_key(k) ==> self.origin_methods[k] < self.methods.len()
        &&& self.synthetic_types.wf()
        &&& forall|i: int|
            0 <= i < self.synthetic_types.values.len() ==> self.type_ok(
                #[trigger] self.synthetic_types.values[i] as int,
            )
        &&& self.primitive_types.wf()
        &&& forall|i: int|
            0 <= i < self.primitive_types.values.len() ==> self.type_ok(
                #[trigger] self.primitive_types.values[i] as int,
            )
    }
}

/// Adds one primitive type.
pub open spec fn primitive_step() -> spec_fn(Tables, int) -> Result<Tables, Error> {
    |m: Tables, i: int|
        match m.add_synthetic_type(seq![primitives()[i]]) {
            Err(e) => Err(e),
            Ok((n, index)) => Ok(
                Tables {
                    primitive_types: n.primitive_types.put(primitives()[i] as u32, index),
                    ..n
                },
            ),
        }
}

/// Adds one parameter type of a prototype: a primitive type by its letter, a
/// letter that is none as a type of the source, and anything else by its
/// descriptor.
pub open spec fn param_step(dex: DexTables, list: Seq<u16>) -> spec_fn(
    (Tables, Seq<u16>),
    int,
) -> Result<(Tables, Seq<u16>), Error> {
    |s: (Tables, Seq<u16>), i: int|
        match dex.descriptor(list[i] as int) {
            Err(e) => Err(e),
            Ok(text) => {
                let added = if !is_letter(text) {
                    s.0.add_synthetic_type(text)
                } else if let Some(index) = s.0.primitive_types.get(text[0] as u32) {
                    Ok((s.0, index))
                } else {
                    s.0.add_origin_type(dex, list[i] as u32)
                };
                match added {
                    Err(e) => Err(e),
                    Ok((m, index)) => Ok((m, s.1.push(index))),
                }
            },
        }
}

// ---------------------------------------------------------------------------
// Every addition keeps what always holds
// ---------------------------------------------------------------------------

/// `n` has the tables of `m`, possibly with more strings and types behind
/// them.
pub open spec fn grown(m: Tables, n: Tables) -> bool {
    &&& m.strings.len() <= n.strings.len()
    &&& m.types.len() <= n.types.len()
}

pub proof fn lemma_add_string(m: Tables, text: Seq<char>)
    requires
        m.ok(),
    ensures
        m.add_string(text).0.ok(),
        m.add_string(text).0.string_ok(m.add_string(text).1 as int),
        grown(m, m.add_string(text).0),
{
    lemma_position(m.strings, text);
    let n = m.add_string(text).0;
    let p = position(m.strings, text);
    assert(low32(p) <= p);
    if p >= m.strings.len() {
        assert(!m.strings.contains(text));
        assert(n.strings.no_duplicates());
        assert forall|i: int| 0 <= i < n.protos.len() implies n.proto_ok(#[trigger] n.protos[i]) by {
            assert(m.proto_ok(m.protos[i]));
        }
        assert forall|i: int| 0 <= i < n.fields.len() implies n.field_ok(#[trigger] n.fields[i]) by {
            assert(m.field_ok(m.fields[i]));
        }
        assert forall|i: int| 0 <= i < n.methods.len() implies n.method_ok(
            #[trigger] n.methods[i],
        ) by {
            assert(m.method_ok(m.methods[i]));
        }
    }
}

pub proof fn lemma_push_type(m: Tables, descriptor: u32)
    requires
        m.ok(),
        m.string_ok(descriptor as int),
        m.push_type(descriptor) is Ok,
    ensures
        m.push_type(descriptor)->Ok_0.0.ok(),
        m.push_type(descriptor)->Ok_0.0.type_ok(m.push_type(descriptor)->Ok_0.1 as int),
        grown(m, m.push_type(descriptor)->Ok_0.0),
{
    let n = m.push_type(descriptor)->Ok_0.0;
    assert forall|i: int| 0 <= i < n.protos.len() implies n.proto_ok(#[trigger] n.protos[i]) by {
        assert(m.proto_ok(m.protos[i]));
    }
    assert forall|i: int| 0 <= i < n.fields.len() implies n.field_ok(#[trigger] n.fields[i]) by {
        assert(m.field_ok(m.fields[i]));
    }
    assert forall|i: int| 0 <= i < n.methods.len() implies n.method_ok(#[trigger] n.methods[i]) by {
        assert(m.method_ok(m.methods[i]));
    }
}

pub proof fn lemma_add_origin_type(m: Tables, dex: DexTables, old: u32)
    requires
        m.ok(),
        m.add_origin_type(dex, old) is Ok,
    ensures
        m.add_origin_type(dex, old)->Ok_0.0.ok(),
        m.add_origin_type(dex, old)->Ok_0.0.type_ok(m.add_origin_type(dex, old)->Ok_0.1 as int),
        grown(m, m.add_origin_type(dex, old)->Ok_0.0),
{
    if !m.origin_types.contains_key(old) {
        let text = dex.strings[dex.types[old as int] as int];
        let (a, descriptor) = m.add_string(text);
        lemma_add_string(m, text);
        lemma_push_type(a, descriptor);
        let (b, index) = a.push_type(descriptor)->Ok_0;
        let n = m.add_origin_type(dex, old)->Ok_0.0;
        assert(n == (Tables { origin_types: b.origin_types.insert(old, index), ..b }));
        lemma_same_tables_ok(b, n);
    }
}

/// Tables with the same identifiers have the same well-formed entries.
proof fn lemma_same_tables_ok(m: Tables, n: Tables)
    requires
        m.ok(),
        m.strings == n.strings,
        m.types == n.types,
        m.protos == n.protos,
        m.fields == n.fields,
        m.methods == n.methods,
    ensures
        forall|i: int| 0 <= i < n.types.len() ==> n.string_ok(#[trigger] n.types[i] as int),
        forall|i: int| 0 <= i < n.protos.len() ==> n.proto_ok(#[trigger] n.protos[i]),
        forall|i: int| 0 <= i < n.fields.len() ==> n.field_ok(#[trigger] n.fields[i]),
        forall|i: int| 0 <= i < n.methods.len() ==> n.method_ok(#[trigger] n.methods[i]),
{
    assert forall|i: int| 0 <= i < n.protos.len() implies n.proto_ok(#[trigger] n.protos[i]) by {
        assert(m.proto_ok(m.protos[i]));
    }
    assert forall|i: int| 0 <= i < n.fields.len() implies n.field_ok(#[trigger] n.fields[i]) by {
        assert(m.field_ok(m.fields[i]));
    }
    assert forall|i: int| 0 <= i < n.methods.len() implies n.method_ok(#[trigger] n.methods[i]) by {
        assert(m.method_ok(m.methods[i]));
    }
}

/// A put value is either new or was there.
proof fn lemma_put_values(e: Entries<u16>, key: u32, value: u16)
    requires
        e.wf(),
    ensures
        e.put(key, value).wf(),
        forall|i: int|
            0 <= i < e.put(key, value).values.len() ==> #[trigger] e.put(key, value).values[i]
                == value || e.values.contains(e.put(key, value).values[i]),
{
    lemma_put_get(e, key, value, key);
    let f = e.put(key, value);
    let p = rank_from(e.keys, key, 0);
    lemma_rank(e.keys, key);
    assert forall|i: int| 0 <= i < f.values.len() implies #[trigger] f.values[i] == value
        || e.values.contains(f.values[i]) by {
        if p < e.keys.len() && e.keys[p] == key {
            if i != p {
                assert(e.values[i] == f.values[i]);
            }
        } else if i < p {
            assert(e.values[i] == f.values[i]);
        } else if i > p {
            assert(e.values[i - 1] == f.values[i]);
        }
    }
}

pub proof fn lemma_add_synthetic_type(m: Tables, text: Seq<char>)
    requires
        m.ok(),
        m.add_synthetic_type(text) is Ok,
    ensures
        m.add_synthetic_type(text)->Ok_0.0.ok(),
        m.add_synthetic_type(text)->Ok_0.0.type_ok(m.add_synthetic_type(text)->Ok_0.1 as int),
        grown(m, m.add_synthetic_type(text)->Ok_0.0),
{
    let (a, descriptor) = m.add_string(text);
    lemma_add_string(m, text);
    lemma_rank(a.synthetic_types.keys, descriptor);
    if a.synthetic_types.get(descriptor) is None {
        lemma_push_type(a, descriptor);
        let (b, index) = a.push_type(descriptor)->Ok_0;
        let n = m.add_synthetic_type(text)->Ok_0.0;
        assert(n == (Tables { synthetic_types: b.synthetic_types.put(descriptor, index), ..b }));
        lemma_same_tables_ok(b, n);
        lemma_put_values(b.synthetic_types, descriptor, index);
    }
}

pub proof fn lemma_primitive_step(m: Tables, i: int)
    requires
        m.ok(),
        primitive_step()(m, i) is Ok,
    ensures
        primitive_step()(m, i)->Ok_0.ok(),
        grown(m, primitive_step()(m, i)->Ok_0),
{
    let text = seq![primitives()[i]];
    lemma_add_synthetic_type(m, text);
    let (b, index) = m.add_synthetic_type(text)->Ok_0;
    let n = primitive_step()(m, i)->Ok_0;
    assert(n == (Tables {
        primitive_types: b.primitive_types.put(primitives()[i] as u32, index),
        ..b
    }));
    lemma_same_tables_ok(b, n);
    lemma_put_values(b.primitive_types, primitives()[i] as u32, index);
}

proof fn lemma_primitives_from(m: Tables, i: int)
    requires
        m.ok(),
        run(primitive_step(), m, i, 9) is Ok,
    ensures
        run(primitive_step(), m, i, 9)->Ok_0.ok(),
    decreases 9 - i,
{
    if i < 9 {
        lemma_primitive_step(m, i);
        lemma_primitives_from(primitive_step()(m, i)->Ok_0, i + 1);
    }
}

pub proof fn lemma_fill_primitives(m: Tables)
    requires
        m.ok(),
        m.fill_primitives() is Ok,
    ensures
        m.fill_primitives()->Ok_0.ok(),
{
    lemma_primitives_from(m, 0);
}

/// The parameters that have been added point into the type table.
spec fn params_ok(s: (Tables, Seq<u16>)) -> bool {
    s.0.ok() && forall|i: int| 0 <= i < s.1.len() ==> s.0.type_ok(#[trigger] s.1[i] as int)
}

proof fn lemma_params_from(dex: DexTables, list: Seq<u16>, s: (Tables, Seq<u16>), i: int)
    requires
        params_ok(s),
        run(param_step(dex, list), s, i, list.len() as int) is Ok,
    ensures
        params_ok(run(param_step(dex, list), s, i, list.len() as int)->Ok_0),
        grown(s.0, run(param_step(dex, list), s, i, list.len() as int)->Ok_0.0),
    decreases list.len() - i,
{
    if i < list.len() {
        let t = param_step(dex, list)(s, i)->Ok_0;
        let text = dex.descriptor(list[i] as int)->Ok_0;
        if !is_letter(text) {
            lemma_add_synthetic_type(s.0, text);
        } else if s.0.primitive_types.get(text[0] as u32) is Some {
            lemma_rank(s.0.primitive_types.keys, text[0] as u32);
        } else {
            lemma_add_origin_type(s.0, dex, list[i] as u32);
        }
        assert forall|j: int| 0 <= j < t.1.len() implies t.0.type_ok(#[trigger] t.1[j] as int) by {
            if j < s.1.len() {
                assert(t.1[j] == s.1[j]);
            }
        }
        lemma_params_from(dex, list, t, i + 1);
    }
}

pub proof fn lemma_add_proto(m: Tables, dex: DexTables, old: u32)
    requires
        m.ok(),
        m.add_proto(dex, old) is Ok,
    ensures
        m.add_proto(dex, old)->Ok_0.0.ok(),
        m.add_proto(dex, old)->Ok_0.1 < m.add_proto(dex, old)->Ok_0.0.protos.len(),
        grown(m, m.add_proto(dex, old)->Ok_0.0),
{
    if !m.origin_protos.contains_key(old) {
        let source = dex.protos[old as int];
        lemma_add_string(m, dex.strings[source.shorty_idx as int]);
        let (a, shorty_idx) = m.add_origin_string(dex, source.shorty_idx)->Ok_0;
        lemma_add_origin_type(a, dex, source.return_type_idx);
        let (b, return_type_idx) = a.add_origin_type(dex, source.return_type_idx)->Ok_0;
        let list = dex.type_list(source.parameters_off)->Ok_0;
        let start = (b, Seq::<u16>::empty());
        lemma_params_from(dex, list, start, 0);
        let (c, params) = run(param_step(dex, list), start, 0, list.len() as int)->Ok_0;
        let proto = Proto { shorty_idx, return_type_idx: return_type_idx as u32, params };
        let n = c.push_proto(old, proto)->Ok_0.0;
        assert(c.proto_ok(proto));
        assert forall|i: int| 0 <= i < n.protos.len() implies n.proto_ok(#[trigger] n.protos[i]) by {
            if i < c.protos.len() {
                assert(c.proto_ok(c.protos[i]));
            }
        }
        assert forall|i: int| 0 <= i < n.fields.len() implies n.field_ok(#[trigger] n.fields[i]) by {
            assert(c.field_ok(c.fields[i]));
        }
        assert forall|i: int| 0 <= i < n.methods.len() implies n.method_ok(
            #[trigger] n.methods[i],
        ) by {
            assert(c.method_ok(c.methods[i]));
        }
    }
}

pub proof fn lemma_add_field(m: Tables, dex: DexTables, old: u32)
    requires
        m.ok(),
        m.add_field(dex, old) is Ok,
    ensures
        m.add_field(dex, old)->Ok_0.0.ok(),
{
    if !m.origin_fields.contains_key(old) {
        let source = dex.fields[old as int];
        let class = dex.descriptor(source.class_idx as int)->Ok_0;
        let typ = dex.descriptor(source.type_idx as int)->Ok_0;
        lemma_add_synthetic_type(m, class);
        let (a, class_idx) = m.add_synthetic_type(class)->Ok_0;
        lemma_add_synthetic_type(a, typ);
        let (b, type_idx) = a.add_synthetic_type(typ)->Ok_0;
        lemma_add_string(b, dex.strings[source.name_idx as int]);
        let (c, name_idx) = b.add_origin_string(dex, source.name_idx)->Ok_0;
        let field = NewField { class_idx, type_idx, name_idx };
        let n = c.push_field(old, field)->Ok_0.0;
        assert(c.field_ok(field));
        assert forall|i: int| 0 <= i < n.protos.len() implies n.proto_ok(#[trigger] n.protos[i]) by {
            assert(c.proto_ok(c.protos[i]));
        }
        assert forall|i: int| 0 <= i < n.fields.len() implies n.field_ok(#[trigger] n.fields[i]) by {
            if i < c.fields.len() {
                assert(c.field_ok(c.fields[i]));
            }
        }
        assert forall|i: int| 0 <= i < n.methods.len() implies n.method_ok(
            #[trigger] n.methods[i],
        ) by {
            assert(c.method_ok(c.methods[i]));
        }
    }
}

/// The prototypes of `m` are among those of `n`.
proof fn lemma_synthetic_keeps_protos(m: Tables, text: Seq<char>)
    requires
        m.add_synthetic_type(text) is Ok,
    ensures
        m.add_synthetic_type(text)->Ok_0.0.protos == m.protos,
{
}

pub proof fn lemma_add_method(m: Tables, dex: DexTables, old: u32)
    requires
        m.ok(),
        m.add_method(dex, old) is Ok,
    ensures
        m.add_method(dex, old)->Ok_0.0.ok(),
{
    if !m.origin_methods.contains_key(old) {
        let source = dex.methods[old as int];
        lemma_add_proto(m, dex, source.proto_idx as u32);
        let (a, proto_idx) = m.add_proto(dex, source.proto_idx as u32)->Ok_0;
        let class = dex.descriptor(source.class_idx as int)->Ok_0;
        lemma_add_synthetic_type(a, class);
        lemma_synthetic_keeps_protos(a, class);
        let (b, class_idx) = a.add_synthetic_type(class)->Ok_0;
        lemma_add_string(b, dex.strings[source.name_idx as int]);
        let (c, name_idx) = b.add_origin_string(dex, source.name_idx)->Ok_0;
        let method = NewMethod { class_idx, proto_idx, name_idx };
        let n = c.push_method(old, method)->Ok_0.0;
        assert(c.method_ok(method));
        assert forall|i: int| 0 <= i < n.protos.len() implies n.proto_ok(#[trigger] n.protos[i]) by {
            assert(c.proto_ok(c.protos[i]));
        }
        assert forall|i: int| 0 <= i < n.fields.len() implies n.field_ok(#[trigger] n.fields[i]) by {
            assert(c.field_ok(c.fields[i]));
        }
        assert forall|i: int| 0 <= i < n.methods.len() implies n.method_ok(
            #[trigger] n.methods[i],
        ) by {
            if i < c.methods.len() {
                assert(c.method_ok(c.methods[i]));
            }
        }
    }
}

} // verus!
