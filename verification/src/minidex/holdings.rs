//! What tables hold, as names: adding an identifier adds what it stands for,
//! with everything that it needs, and nothing else.
use vstd::prelude::*;

use crate::collections::{lemma_put_get, lemma_rank, rank_from, Entries};
use crate::minidex::bytecode::CodeRefs;
use crate::minidex::gather::{
    caught_types, class_strings, class_types, field_adder, field_ids, gathered, method_adder,
    method_ids, proto_adder, string_adder, type_adder, widened_ids, with_code_refs, with_fields,
    with_metadata_refs, with_methods, with_protos, with_strings, with_types,
};
use crate::minidex::hollow::Parts;
use crate::minidex::meaning::{
    extends_tables, lemma_code_refs_run, lemma_field_sound, lemma_fields_run, lemma_meanings_kept,
    lemma_metadata_run, lemma_method_sound, lemma_methods_run, lemma_origin_type_sound,
    lemma_params_grow, lemma_params_sound, lemma_primitive_sound, lemma_primitives_grow,
    lemma_primitives_sound, lemma_proto_sound, lemma_protos_run, lemma_string_sound,
    lemma_strings_run, lemma_synthetic_sound, lemma_types_run, params_named, FieldMeaning,
    MethodMeaning, ProtoMeaning,
};
use crate::minidex::reader::{ClassDef, DexTables, Members};
use crate::minidex::tables::{
    is_letter, lemma_position, param_step, primitive_step, primitives, Tables,
};
use crate::minidex::values::RefSets;
use crate::results::run;

verus! {

/// Strings, and the names that types, prototypes, fields and methods stand for.
/// Of the types, those are told apart that are there by their place in the
/// source and those that are there by their name. Something that a file does
/// not have may be lacking.
#[verifier::ext_equal]
pub struct Holdings {
    pub strings: Set<Seq<char>>,
    pub types: Set<Seq<char>>,
    pub protos: Set<ProtoMeaning>,
    pub fields: Set<FieldMeaning>,
    pub methods: Set<MethodMeaning>,
    pub origins: Set<Seq<char>>,
    pub synthetics: Set<Seq<char>>,
    pub lacking: bool,
}

impl Holdings {
    pub open spec fn none() -> Holdings {
        Holdings {
            strings: Set::empty(),
            types: Set::empty(),
            protos: Set::empty(),
            fields: Set::empty(),
            methods: Set::empty(),
            origins: Set::empty(),
            synthetics: Set::empty(),
            lacking: false,
        }
    }

    pub open spec fn missing() -> Holdings {
        Holdings { lacking: true, ..Holdings::none() }
    }

    /// Both together.
    pub open spec fn plus(self, other: Holdings) -> Holdings {
        Holdings {
            strings: self.strings.union(other.strings),
            types: self.types.union(other.types),
            protos: self.protos.union(other.protos),
            fields: self.fields.union(other.fields),
            methods: self.methods.union(other.methods),
            origins: self.origins.union(other.origins),
            synthetics: self.synthetics.union(other.synthetics),
            lacking: self.lacking || other.lacking,
        }
    }

    /// Whether all of this is there.
    pub open spec fn within(self, other: Holdings) -> bool {
        &&& self.strings.subset_of(other.strings)
        &&& self.types.subset_of(other.types)
        &&& self.protos.subset_of(other.protos)
        &&& self.fields.subset_of(other.fields)
        &&& self.methods.subset_of(other.methods)
        &&& self.origins.subset_of(other.origins)
        &&& self.synthetics.subset_of(other.synthetics)
        &&& self.lacking ==> other.lacking
    }

    /// The entries alone, however the types are there.
    pub open spec fn listed(self) -> Holdings {
        Holdings { origins: Set::empty(), synthetics: Set::empty(), lacking: false, ..self }
    }
}

/// A string alone.
pub open spec fn of_string(text: Seq<char>) -> Holdings {
    Holdings { strings: set![text], ..Holdings::none() }
}

/// A type, with its name, however it is there.
pub open spec fn of_name(name: Seq<char>) -> Holdings {
    Holdings { strings: set![name], types: set![name], ..Holdings::none() }
}

/// A type of the source, with its name.
pub open spec fn of_type(name: Seq<char>) -> Holdings {
    Holdings { origins: set![name], ..of_name(name) }
}

/// A type that is there by its name.
pub open spec fn of_synthetic(name: Seq<char>) -> Holdings {
    Holdings { synthetics: set![name], ..of_name(name) }
}

/// The type of a parameter: one letter that stands for no primitive type is
/// taken from the source, other names than single letters by their name.
pub open spec fn of_param(name: Seq<char>) -> Holdings {
    if !is_letter(name) {
        of_synthetic(name)
    } else if primitives().contains(name[0]) {
        of_name(name)
    } else {
        of_type(name)
    }
}

/// The types of some parameters.
pub open spec fn of_params(names: Seq<Seq<char>>) -> Seq<Holdings> {
    names.map_values(|n: Seq<char>| of_param(n))
}

/// A prototype, with its types and its short form.
pub open spec fn of_proto(p: ProtoMeaning) -> Holdings {
    of_string(p.shorty).plus(of_type(p.result)).plus(total(of_params(p.params))).plus(
        Holdings { protos: set![p], ..Holdings::none() },
    )
}

/// A field, with its types and its name.
pub open spec fn of_field(f: FieldMeaning) -> Holdings {
    of_synthetic(f.class).plus(of_synthetic(f.typ)).plus(of_string(f.name)).plus(
        Holdings { fields: set![f], ..Holdings::none() },
    )
}

/// A method, with its prototype, its class and its name.
pub open spec fn of_method(m: MethodMeaning) -> Holdings {
    of_proto(m.proto).plus(of_synthetic(m.class)).plus(of_string(m.name)).plus(
        Holdings { methods: set![m], ..Holdings::none() },
    )
}

pub open spec fn type_names(m: Tables) -> Seq<Seq<char>> {
    Seq::new(m.types.len(), |i: int| m.name_of_type(i))
}

pub open spec fn proto_meanings(m: Tables) -> Seq<ProtoMeaning> {
    Seq::new(m.protos.len(), |i: int| m.proto_meaning(m.protos[i]))
}

pub open spec fn field_meanings(m: Tables) -> Seq<FieldMeaning> {
    Seq::new(m.fields.len(), |i: int| m.field_meaning(m.fields[i]))
}

pub open spec fn method_meanings(m: Tables) -> Seq<MethodMeaning> {
    Seq::new(m.methods.len(), |i: int| m.method_meaning(m.methods[i]))
}

/// The names of the types that are there by their place in the source.
pub open spec fn origin_names(m: Tables) -> Set<Seq<char>> {
    Set::new(
        |n: Seq<char>|
            exists|k: u32| #[trigger]
                m.origin_types.contains_key(k) && n == m.name_of_type(m.origin_types[k] as int),
    )
}

/// The names of the types that are there by their name.
pub open spec fn synthetic_names(m: Tables) -> Set<Seq<char>> {
    Set::new(
        |n: Seq<char>|
            exists|k: u32|
                (#[trigger] m.synthetic_types.get(k)) is Some && n == m.name_of_type(
                    m.synthetic_types.get(k)->Some_0 as int,
                ),
    )
}

/// What tables hold.
pub open spec fn holdings(m: Tables) -> Holdings {
    Holdings {
        strings: m.strings.to_set(),
        types: type_names(m).to_set(),
        protos: proto_meanings(m).to_set(),
        fields: field_meanings(m).to_set(),
        methods: method_meanings(m).to_set(),
        origins: origin_names(m),
        synthetics: synthetic_names(m),
        lacking: false,
    }
}

/// Whether every type is there by its place in the source or by its name, and
/// every prototype, field and method by its place.
pub open spec fn counted(m: Tables) -> bool {
    &&& m.origin_types.dom().finite()
    &&& m.types.len() == m.origin_types.dom().len() + m.synthetic_types.keys.len()
    &&& m.origin_protos.dom().finite()
    &&& m.protos.len() == m.origin_protos.dom().len()
    &&& m.origin_fields.dom().finite()
    &&& m.fields.len() == m.origin_fields.dom().len()
    &&& m.origin_methods.dom().finite()
    &&& m.methods.len() == m.origin_methods.dom().len()
}

/// Whether tables hold all that their prototypes, fields and methods need, and
/// nothing is there twice.
pub open spec fn closed(m: Tables) -> bool {
    &&& counted(m)
    &&& forall|i: int|
        0 <= i < m.protos.len() ==> of_proto(m.proto_meaning(#[trigger] m.protos[i])).within(
            holdings(m),
        )
    &&& forall|i: int|
        0 <= i < m.fields.len() ==> of_field(m.field_meaning(#[trigger] m.fields[i])).within(
            holdings(m),
        )
    &&& forall|i: int|
        0 <= i < m.methods.len() ==> of_method(m.method_meaning(#[trigger] m.methods[i])).within(
            holdings(m),
        )
}

/// Whether a letter is there exactly if it is among some letters.
pub open spec fn primed_at(found: Entries<u16>, letters: Seq<char>, c: char) -> bool {
    found.get(c as u32) is Some <==> letters.contains(c)
}

/// Whether the primitive types, and no others, are there by their letters.
pub open spec fn primed(m: Tables) -> bool {
    forall|c: char| #[trigger] primed_at(m.primitive_types, primitives(), c)
}

// ---------------------------------------------------------------------------
// Sums
// ---------------------------------------------------------------------------

pub proof fn lemma_plus_within(a: Holdings, b: Holdings)
    requires
        b.within(a),
    ensures
        a.plus(b) == a,
{
    assert(a.plus(b) =~= a);
}

pub proof fn lemma_plus_chain(a: Holdings, b: Holdings, c: Holdings)
    ensures
        a.plus(b).plus(c) == a.plus(b.plus(c)),
{
    assert(a.plus(b).plus(c) =~= a.plus(b.plus(c)));
}

proof fn lemma_pushed<T>(s: Seq<T>, x: T)
    ensures
        s.push(x).to_set() == s.to_set().insert(x),
{
    assert forall|y: T| #[trigger] s.push(x).to_set().contains(y) <==> s.to_set().insert(
        x,
    ).contains(y) by {
        if s.contains(y) {
            let i = choose|i: int| 0 <= i < s.len() && s[i] == y;
            assert(s.push(x)[i] == y);
        }
        if y == x {
            assert(s.push(x)[s.len() as int] == y);
        }
        if s.push(x).contains(y) {
            let i = choose|i: int| 0 <= i < s.push(x).len() && s.push(x)[i] == y;
            if i < s.len() {
                assert(s[i] == y);
            }
        }
    }
    assert(s.push(x).to_set() =~= s.to_set().insert(x));
}

/// Tables that grow keep what they hold at the same places.
proof fn lemma_names_kept(m: Tables, n: Tables)
    requires
        m.ok(),
        extends_tables(m, n),
    ensures
        n.types.len() == m.types.len() ==> type_names(n) == type_names(m),
        n.types.len() == m.types.len() + 1 ==> type_names(n) == type_names(m).push(
            n.name_of_type(m.types.len() as int),
        ),
        n.protos.len() == m.protos.len() ==> proto_meanings(n) == proto_meanings(m),
        n.protos.len() == m.protos.len() + 1 ==> proto_meanings(n) == proto_meanings(m).push(
            n.proto_meaning(n.protos[m.protos.len() as int]),
        ),
        n.fields.len() == m.fields.len() ==> field_meanings(n) == field_meanings(m),
        n.fields.len() == m.fields.len() + 1 ==> field_meanings(n) == field_meanings(m).push(
            n.field_meaning(n.fields[m.fields.len() as int]),
        ),
        n.methods.len() == m.methods.len() ==> method_meanings(n) == method_meanings(m),
        n.methods.len() == m.methods.len() + 1 ==> method_meanings(n) == method_meanings(m).push(
            n.method_meaning(n.methods[m.methods.len() as int]),
        ),
        n.strings.len() == m.strings.len() ==> n.strings == m.strings,
        n.origin_types == m.origin_types ==> origin_names(n) == origin_names(m),
        n.synthetic_types == m.synthetic_types ==> synthetic_names(n) == synthetic_names(m),
{
    lemma_meanings_kept(m, n);
    if n.origin_types == m.origin_types {
        assert forall|k: u32| #[trigger] m.origin_types.contains_key(k) implies n.name_of_type(
            m.origin_types[k] as int,
        ) == m.name_of_type(m.origin_types[k] as int) by {
            assert(m.type_ok(m.origin_types[k] as int));
        }
        assert(origin_names(n) =~= origin_names(m));
    }
    if n.synthetic_types == m.synthetic_types {
        assert forall|k: u32| (#[trigger] m.synthetic_types.get(k)) is Some implies n.name_of_type(
            m.synthetic_types.get(k)->Some_0 as int,
        ) == m.name_of_type(m.synthetic_types.get(k)->Some_0 as int) by {
            lemma_synthetic_place(m, k);
        }
        assert(synthetic_names(n) =~= synthetic_names(m));
    }
    assert forall|i: int| 0 <= i < m.types.len() implies #[trigger] type_names(n)[i]
        == type_names(m)[i] by {
        assert(n.name_of_type(i) == m.name_of_type(i));
    }
    assert forall|i: int| 0 <= i < m.protos.len() implies #[trigger] proto_meanings(n)[i]
        == proto_meanings(m)[i] by {
        assert(n.protos[i] == m.protos[i]);
    }
    assert forall|i: int| 0 <= i < m.fields.len() implies #[trigger] field_meanings(n)[i]
        == field_meanings(m)[i] by {
        assert(n.fields[i] == m.fields[i]);
    }
    assert forall|i: int| 0 <= i < m.methods.len() implies #[trigger] method_meanings(n)[i]
        == method_meanings(m)[i] by {
        assert(n.methods[i] == m.methods[i]);
    }
    if n.types.len() == m.types.len() {
        assert(type_names(n) =~= type_names(m));
    }
    if n.types.len() == m.types.len() + 1 {
        assert(type_names(n) =~= type_names(m).push(n.name_of_type(m.types.len() as int)));
    }
    if n.protos.len() == m.protos.len() {
        assert(proto_meanings(n) =~= proto_meanings(m));
    }
    if n.protos.len() == m.protos.len() + 1 {
        assert(proto_meanings(n) =~= proto_meanings(m).push(
            n.proto_meaning(n.protos[m.protos.len() as int]),
        ));
    }
    if n.fields.len() == m.fields.len() {
        assert(field_meanings(n) =~= field_meanings(m));
    }
    if n.fields.len() == m.fields.len() + 1 {
        assert(field_meanings(n) =~= field_meanings(m).push(
            n.field_meaning(n.fields[m.fields.len() as int]),
        ));
    }
    if n.methods.len() == m.methods.len() {
        assert(method_meanings(n) =~= method_meanings(m));
    }
    if n.methods.len() == m.methods.len() + 1 {
        assert(method_meanings(n) =~= method_meanings(m).push(
            n.method_meaning(n.methods[m.methods.len() as int]),
        ));
    }
    if n.strings.len() == m.strings.len() {
        assert(n.strings =~= m.strings);
    }
}

/// What is found by name is a type.
proof fn lemma_synthetic_place(m: Tables, k: u32)
    requires
        m.ok(),
        m.synthetic_types.get(k) is Some,
    ensures
        m.type_ok(m.synthetic_types.get(k)->Some_0 as int),
{
    lemma_rank(m.synthetic_types.keys, k);
    let p = rank_from(m.synthetic_types.keys, k, 0);
    assert(m.type_ok(m.synthetic_types.values[p] as int));
}

/// Whether prototypes, fields and methods are the same.
pub open spec fn same_members(m: Tables, n: Tables) -> bool {
    &&& n.protos == m.protos
    &&& n.origin_protos == m.origin_protos
    &&& n.fields == m.fields
    &&& n.origin_fields == m.origin_fields
    &&& n.methods == m.methods
    &&& n.origin_methods == m.origin_methods
}

/// Tables that grow stay closed where what is new is held.
proof fn lemma_closed_kept(m: Tables, n: Tables)
    requires
        m.ok(),
        closed(m),
        extends_tables(m, n),
        counted(n),
        holdings(m).within(holdings(n)),
        forall|i: int|
            m.protos.len() <= i < n.protos.len() ==> of_proto(
                n.proto_meaning(#[trigger] n.protos[i]),
            ).within(holdings(n)),
        forall|i: int|
            m.fields.len() <= i < n.fields.len() ==> of_field(
                n.field_meaning(#[trigger] n.fields[i]),
            ).within(holdings(n)),
        forall|i: int|
            m.methods.len() <= i < n.methods.len() ==> of_method(
                n.method_meaning(#[trigger] n.methods[i]),
            ).within(holdings(n)),
    ensures
        closed(n),
{
    lemma_meanings_kept(m, n);
    assert forall|i: int| 0 <= i < n.protos.len() implies of_proto(
        n.proto_meaning(#[trigger] n.protos[i]),
    ).within(holdings(n)) by {
        if i < m.protos.len() {
            assert(n.protos[i] == m.protos[i]);
            lemma_within_chain(
                of_proto(m.proto_meaning(m.protos[i])),
                holdings(m),
                holdings(n),
            );
        }
    }
    assert forall|i: int| 0 <= i < n.fields.len() implies of_field(
        n.field_meaning(#[trigger] n.fields[i]),
    ).within(holdings(n)) by {
        if i < m.fields.len() {
            assert(n.fields[i] == m.fields[i]);
            lemma_within_chain(
                of_field(m.field_meaning(m.fields[i])),
                holdings(m),
                holdings(n),
            );
        }
    }
    assert forall|i: int| 0 <= i < n.methods.len() implies of_method(
        n.method_meaning(#[trigger] n.methods[i]),
    ).within(holdings(n)) by {
        if i < m.methods.len() {
            assert(n.methods[i] == m.methods[i]);
            lemma_within_chain(
                of_method(m.method_meaning(m.methods[i])),
                holdings(m),
                holdings(n),
            );
        }
    }
}

pub proof fn lemma_within_chain(a: Holdings, b: Holdings, c: Holdings)
    requires
        a.within(b),
        b.within(c),
    ensures
        a.within(c),
{
}

pub proof fn lemma_plus_has(a: Holdings, b: Holdings)
    ensures
        a.within(a.plus(b)),
        b.within(a.plus(b)),
{
}

// ---------------------------------------------------------------------------
// One addition
// ---------------------------------------------------------------------------

pub proof fn lemma_hold_string(m: Tables, dex: DexTables, text: Seq<char>)
    requires
        m.sound(dex),
        closed(m),
        m.add_string(text).0.strings.len() <= 0x1_0000_0000,
    ensures
        holdings(m.add_string(text).0) == holdings(m).plus(of_string(text)),
        closed(m.add_string(text).0),
{
    let n = m.add_string(text).0;
    lemma_string_sound(m, dex, text);
    lemma_names_kept(m, n);
    lemma_position(m.strings, text);
    if n.strings.len() == m.strings.len() {
        lemma_plus_within(holdings(m), of_string(text));
    } else {
        lemma_pushed(m.strings, text);
        assert(holdings(n) =~= holdings(m).plus(of_string(text)));
    }
    lemma_plus_has(holdings(m), of_string(text));
    lemma_closed_kept(m, n);
}

pub proof fn lemma_hold_type(m: Tables, dex: DexTables, old: u32)
    requires
        m.sound(dex),
        closed(m),
        m.add_origin_type(dex, old) is Ok,
        m.add_origin_type(dex, old)->Ok_0.0.strings.len() <= 0x1_0000_0000,
    ensures
        holdings(m.add_origin_type(dex, old)->Ok_0.0) == holdings(m).plus(
            of_type(dex.name_of_type(old as int)),
        ),
        closed(m.add_origin_type(dex, old)->Ok_0.0),
{
    let (n, index) = m.add_origin_type(dex, old)->Ok_0;
    let name = dex.name_of_type(old as int);
    lemma_origin_type_sound(m, dex, old);
    if m.origin_types.contains_key(old) {
        assert(m.type_ok(index as int));
        assert(m.string_ok(m.types[index as int] as int));
        assert(type_names(m)[index as int] == name);
        assert(origin_names(m).contains(name));
        assert(m.strings.contains(name));
        lemma_plus_within(holdings(m), of_type(name));
    } else {
        let (a, descriptor) = m.add_string(name);
        lemma_hold_string(m, dex, name);
        lemma_string_sound(m, dex, name);
        assert(n.types =~= a.types.push(descriptor));
        assert(extends_tables(a, n));
        assert(a.strings[descriptor as int] == name);
        lemma_names_kept(a, n);
        lemma_meanings_kept(a, n);
        lemma_pushed(type_names(a), name);
        assert(origin_names(n) =~= origin_names(a).insert(name)) by {
            assert forall|x: Seq<char>| #[trigger] origin_names(n).contains(x) <==> origin_names(
                a,
            ).insert(name).contains(x) by {
                if origin_names(a).contains(x) {
                    let k = choose|k: u32| #[trigger]
                        a.origin_types.contains_key(k) && x == a.name_of_type(
                            a.origin_types[k] as int,
                        );
                    assert(a.type_ok(a.origin_types[k] as int));
                    assert(n.origin_types.contains_key(k));
                    assert(n.name_of_type(n.origin_types[k] as int) == x);
                }
                if x == name {
                    assert(n.origin_types.contains_key(old));
                }
                if origin_names(n).contains(x) {
                    let k = choose|k: u32| #[trigger]
                        n.origin_types.contains_key(k) && x == n.name_of_type(
                            n.origin_types[k] as int,
                        );
                    if k != old {
                        assert(a.origin_types.contains_key(k));
                        assert(a.type_ok(a.origin_types[k] as int));
                    }
                }
            }
        }
        assert(holdings(n) =~= holdings(a).plus(of_type(name)));
        lemma_plus_chain(holdings(m), of_string(name), of_type(name));
        assert(of_string(name).plus(of_type(name)) =~= of_type(name));
    }
    lemma_plus_has(holdings(m), of_type(name));
    lemma_closed_kept(m, n);
}

pub proof fn lemma_hold_synthetic(m: Tables, dex: DexTables, text: Seq<char>)
    requires
        m.sound(dex),
        closed(m),
        m.add_synthetic_type(text) is Ok,
        m.add_synthetic_type(text)->Ok_0.0.strings.len() <= 0x1_0000_0000,
    ensures
        holdings(m.add_synthetic_type(text)->Ok_0.0) == holdings(m).plus(of_synthetic(text)),
        closed(m.add_synthetic_type(text)->Ok_0.0),
{
    let (n, index) = m.add_synthetic_type(text)->Ok_0;
    let (a, descriptor) = m.add_string(text);
    lemma_synthetic_sound(m, dex, text);
    assert(a.strings.len() <= n.strings.len());
    lemma_hold_string(m, dex, text);
    lemma_string_sound(m, dex, text);
    lemma_plus_chain(holdings(m), of_string(text), of_synthetic(text));
    assert(of_string(text).plus(of_synthetic(text)) =~= of_synthetic(text));
    if a.synthetic_types.get(descriptor) is Some {
        assert(type_names(n)[index as int] == text);
        assert(synthetic_names(n).contains(text));
        assert(n.string_ok(n.types[index as int] as int));
        assert(n.strings.contains(text));
        lemma_plus_within(holdings(n), of_synthetic(text));
    } else {
        assert(n.types =~= a.types.push(descriptor));
        assert(extends_tables(a, n));
        assert(a.strings[descriptor as int] == text);
        lemma_names_kept(a, n);
        lemma_meanings_kept(a, n);
        lemma_pushed(type_names(a), text);
        lemma_put_get(a.synthetic_types, descriptor, index, descriptor);
        lemma_rank(a.synthetic_types.keys, descriptor);
        assert(n.synthetic_types.keys.len() == a.synthetic_types.keys.len() + 1);
        assert(synthetic_names(n) =~= synthetic_names(a).insert(text)) by {
            assert forall|x: Seq<char>| #[trigger]
                synthetic_names(n).contains(x) <==> synthetic_names(a).insert(text).contains(x) by {
                if synthetic_names(a).contains(x) {
                    let k = choose|k: u32|
                        (#[trigger] a.synthetic_types.get(k)) is Some && x == a.name_of_type(
                            a.synthetic_types.get(k)->Some_0 as int,
                        );
                    lemma_put_get(a.synthetic_types, descriptor, index, k);
                    lemma_synthetic_place(a, k);
                    assert(n.synthetic_types.get(k) is Some);
                }
                if x == text {
                    assert(n.synthetic_types.get(descriptor) is Some);
                }
                if synthetic_names(n).contains(x) {
                    let k = choose|k: u32|
                        (#[trigger] n.synthetic_types.get(k)) is Some && x == n.name_of_type(
                            n.synthetic_types.get(k)->Some_0 as int,
                        );
                    lemma_put_get(a.synthetic_types, descriptor, index, k);
                    if k != descriptor {
                        assert(a.synthetic_types.get(k) is Some);
                        lemma_synthetic_place(a, k);
                    }
                }
            }
        }
        assert(holdings(n) =~= holdings(a).plus(of_synthetic(text)));
    }
    lemma_plus_has(holdings(m), of_synthetic(text));
    lemma_closed_kept(m, n);
}

pub proof fn lemma_hold_param(dex: DexTables, list: Seq<u16>, s: (Tables, Seq<u16>), i: int)
    requires
        s.0.sound(dex),
        closed(s.0),
        primed(s.0),
        0 <= i < list.len(),
        param_step(dex, list)(s, i) is Ok,
        param_step(dex, list)(s, i)->Ok_0.0.strings.len() <= 0x1_0000_0000,
    ensures
        ({
            let t = param_step(dex, list)(s, i)->Ok_0;
            let name = dex.name_of_type(list[i] as int);
            &&& holdings(t.0) == holdings(s.0).plus(of_param(name))
            &&& closed(t.0)
            &&& t.0.primitive_types == s.0.primitive_types
            &&& same_members(s.0, t.0)
            &&& t.0.sound(dex)
            &&& extends_tables(s.0, t.0)
            &&& t.0.type_ok(t.1[s.1.len() as int] as int)
            &&& t.0.name_of_type(t.1[s.1.len() as int] as int) == name
        }),
{
    let text = dex.descriptor(list[i] as int)->Ok_0;
    let name = dex.name_of_type(list[i] as int);
    let t = param_step(dex, list)(s, i)->Ok_0;
    assert(text == name);
    assert(text.len() == 1 ==> primed_at(s.0.primitive_types, primitives(), text[0]));
    if !is_letter(text) {
        lemma_synthetic_sound(s.0, dex, text);
        lemma_hold_synthetic(s.0, dex, text);
        assert(t.1[s.1.len() as int] == s.0.add_synthetic_type(text)->Ok_0.1);
    } else if s.0.primitive_types.get(text[0] as u32) is Some {
        let m = s.0;
        let p = m.primitive_types.get(text[0] as u32)->Some_0;
        assert(primitives().contains(text[0]));
        assert(text =~= seq![text[0]]);
        assert(m.primitive_named(text[0]));
        assert(m.type_ok(p as int));
        assert(m.string_ok(m.types[p as int] as int));
        assert(type_names(m)[p as int] == name);
        assert(m.strings.contains(name));
        lemma_plus_within(holdings(m), of_name(name));
        assert(t.0 == m);
        assert(t.1[s.1.len() as int] == p);
    } else {
        assert(!primitives().contains(text[0]));
        lemma_origin_type_sound(s.0, dex, list[i] as u32);
        lemma_hold_type(s.0, dex, list[i] as u32);
        assert(t.1[s.1.len() as int] == s.0.add_origin_type(dex, list[i] as u32)->Ok_0.1);
    }
}

proof fn lemma_hold_params(
    dex: DexTables,
    list: Seq<u16>,
    s: (Tables, Seq<u16>),
    i: int,
    start: Holdings,
)
    requires
        s.0.sound(dex),
        closed(s.0),
        primed(s.0),
        0 <= i <= list.len(),
        params_named(dex, list, s, i),
        run(param_step(dex, list), s, i, list.len() as int) is Ok,
        run(param_step(dex, list), s, i, list.len() as int)->Ok_0.0.strings.len() <= 0x1_0000_0000,
        holdings(s.0) == start.plus(total(of_params(dex.names_of_types(list)).take(i))),
    ensures
        ({
            let n = run(param_step(dex, list), s, i, list.len() as int)->Ok_0.0;
            &&& holdings(n) == start.plus(total(of_params(dex.names_of_types(list))))
            &&& closed(n)
            &&& n.primitive_types == s.0.primitive_types
            &&& same_members(s.0, n)
        }),
    decreases list.len() - i,
{
    let parts = of_params(dex.names_of_types(list));
    if i < list.len() {
        let t = param_step(dex, list)(s, i)->Ok_0;
        lemma_params_grow(dex, list, t, i + 1);
        lemma_hold_param(dex, list, s, i);
        lemma_meanings_kept(s.0, t.0);
        assert forall|j: int| 0 <= j < i + 1 implies t.0.type_ok(#[trigger] t.1[j] as int)
            && t.0.name_of_type(t.1[j] as int) == dex.name_of_type(list[j] as int) by {
            if j < i {
                assert(t.1[j] == s.1[j]);
                assert(s.0.type_ok(s.1[j] as int));
                assert(t.0.name_of_type(s.1[j] as int) == s.0.name_of_type(s.1[j] as int));
            }
        }
        assert(parts[i] == of_param(dex.name_of_type(list[i] as int)));
        lemma_next_part(start, parts, i);
        lemma_hold_params(dex, list, t, i + 1, start);
    } else {
        assert(parts.take(i) =~= parts);
    }
}

#[verifier::spinoff_prover]
pub proof fn lemma_hold_proto(m: Tables, dex: DexTables, old: u32)
    requires
        m.sound(dex),
        closed(m),
        primed(m),
        m.add_proto(dex, old) is Ok,
        m.add_proto(dex, old)->Ok_0.0.strings.len() <= 0x1_0000_0000,
    ensures
        holdings(m.add_proto(dex, old)->Ok_0.0) == holdings(m).plus(
            of_proto(dex.proto_meaning(old as int)),
        ),
        closed(m.add_proto(dex, old)->Ok_0.0),
        m.add_proto(dex, old)->Ok_0.0.primitive_types == m.primitive_types,
        m.add_proto(dex, old)->Ok_0.0.fields == m.fields,
        m.add_proto(dex, old)->Ok_0.0.origin_fields == m.origin_fields,
        m.add_proto(dex, old)->Ok_0.0.methods == m.methods,
        m.add_proto(dex, old)->Ok_0.0.origin_methods == m.origin_methods,
{
    let (n, index) = m.add_proto(dex, old)->Ok_0;
    let p = dex.proto_meaning(old as int);
    lemma_proto_sound(m, dex, old);
    if m.origin_protos.contains_key(old) {
        assert(m.proto_meaning(m.protos[index as int]) == p);
        assert(of_proto(m.proto_meaning(m.protos[index as int])).within(holdings(m)));
        lemma_plus_within(holdings(m), of_proto(p));
    } else {
        let source = dex.protos[old as int];
        let (a, shorty_idx) = m.add_origin_string(dex, source.shorty_idx)->Ok_0;
        let (b, return_type_idx) = a.add_origin_type(dex, source.return_type_idx)->Ok_0;
        let list = dex.type_list(source.parameters_off)->Ok_0;
        let start = (b, Seq::<u16>::empty());
        let (c, params) = run(param_step(dex, list), start, 0, list.len() as int)->Ok_0;
        assert(n.strings == c.strings);
        lemma_params_grow(dex, list, start, 0);
        lemma_string_sound(m, dex, p.shorty);
        lemma_hold_string(m, dex, p.shorty);
        lemma_origin_type_sound(a, dex, source.return_type_idx);
        lemma_hold_type(a, dex, source.return_type_idx);
        lemma_params_sound(dex, list, start, 0);
        let parts = of_params(p.params);
        assert(dex.names_of_types(list) == p.params);
        lemma_no_parts(holdings(b), parts);
        lemma_hold_params(dex, list, start, 0, holdings(b));
        assert(extends_tables(c, n));
        lemma_names_kept(c, n);
        lemma_pushed(proto_meanings(c), p);
        let one = Holdings { protos: set![p], ..Holdings::none() };
        assert(holdings(n) =~= holdings(c).plus(one));
        let x = of_string(p.shorty);
        let y = of_type(p.result);
        let z = total(parts);
        assert(holdings(m).plus(x).plus(y).plus(z).plus(one) =~= holdings(m).plus(
            x.plus(y).plus(z).plus(one),
        ));
        lemma_plus_has(holdings(m), of_proto(p));
        lemma_plus_has(holdings(c), one);
        lemma_closed_kept(c, n);
    }
}

#[verifier::spinoff_prover]
pub proof fn lemma_hold_field(m: Tables, dex: DexTables, old: u32)
    requires
        m.sound(dex),
        closed(m),
        m.add_field(dex, old) is Ok,
        m.add_field(dex, old)->Ok_0.0.strings.len() <= 0x1_0000_0000,
    ensures
        holdings(m.add_field(dex, old)->Ok_0.0) == holdings(m).plus(
            of_field(dex.field_meaning(old as int)),
        ),
        closed(m.add_field(dex, old)->Ok_0.0),
        m.add_field(dex, old)->Ok_0.0.primitive_types == m.primitive_types,
{
    let (n, index) = m.add_field(dex, old)->Ok_0;
    let f = dex.field_meaning(old as int);
    lemma_field_sound(m, dex, old);
    if m.origin_fields.contains_key(old) {
        assert(of_field(m.field_meaning(m.fields[index as int])).within(holdings(m)));
        lemma_plus_within(holdings(m), of_field(f));
    } else {
        let source = dex.fields[old as int];
        let class = dex.descriptor(source.class_idx as int)->Ok_0;
        let typ = dex.descriptor(source.type_idx as int)->Ok_0;
        let (a, class_idx) = m.add_synthetic_type(class)->Ok_0;
        let (b, type_idx) = a.add_synthetic_type(typ)->Ok_0;
        let (c, name_idx) = b.add_origin_string(dex, source.name_idx)->Ok_0;
        assert(n.strings == c.strings);
        lemma_synthetic_sound(m, dex, class);
        lemma_hold_synthetic(m, dex, class);
        lemma_synthetic_sound(a, dex, typ);
        lemma_hold_synthetic(a, dex, typ);
        lemma_string_sound(b, dex, f.name);
        lemma_hold_string(b, dex, f.name);
        assert(extends_tables(c, n));
        assert(n.origin_fields.contains_key(old) && n.origin_fields[old] == index);
        assert(n.field_meaning(n.fields[index as int]) == f);
        lemma_names_kept(c, n);
        lemma_pushed(field_meanings(c), f);
        assert(f.class == class && f.typ == typ);
        let one = Holdings { fields: set![f], ..Holdings::none() };
        let x = of_synthetic(class);
        let y = of_synthetic(typ);
        let z = of_string(f.name);
        assert(holdings(n) =~= holdings(c).plus(one));
        assert(holdings(m).plus(x).plus(y).plus(z).plus(one) =~= holdings(m).plus(
            x.plus(y).plus(z).plus(one),
        ));
        lemma_plus_has(holdings(m), of_field(f));
        lemma_plus_has(holdings(c), one);
        lemma_closed_kept(c, n);
    }
}

#[verifier::spinoff_prover]
pub proof fn lemma_hold_method(m: Tables, dex: DexTables, old: u32)
    requires
        m.sound(dex),
        closed(m),
        primed(m),
        m.add_method(dex, old) is Ok,
        m.add_method(dex, old)->Ok_0.0.strings.len() <= 0x1_0000_0000,
    ensures
        holdings(m.add_method(dex, old)->Ok_0.0) == holdings(m).plus(
            of_method(dex.method_meaning(old as int)),
        ),
        closed(m.add_method(dex, old)->Ok_0.0),
        m.add_method(dex, old)->Ok_0.0.primitive_types == m.primitive_types,
{
    let (n, index) = m.add_method(dex, old)->Ok_0;
    let x = dex.method_meaning(old as int);
    lemma_method_sound(m, dex, old);
    if m.origin_methods.contains_key(old) {
        assert(of_method(m.method_meaning(m.methods[index as int])).within(holdings(m)));
        lemma_plus_within(holdings(m), of_method(x));
    } else {
        let source = dex.methods[old as int];
        let class = dex.descriptor(source.class_idx as int)->Ok_0;
        let (a, proto_idx) = m.add_proto(dex, source.proto_idx as u32)->Ok_0;
        let (b, class_idx) = a.add_synthetic_type(class)->Ok_0;
        let (c, name_idx) = b.add_origin_string(dex, source.name_idx)->Ok_0;
        assert(n.strings == c.strings);
        lemma_proto_sound(m, dex, source.proto_idx as u32);
        lemma_hold_proto(m, dex, source.proto_idx as u32);
        lemma_synthetic_sound(a, dex, class);
        lemma_hold_synthetic(a, dex, class);
        lemma_string_sound(b, dex, x.name);
        lemma_hold_string(b, dex, x.name);
        assert(extends_tables(c, n));
        assert(n.origin_methods.contains_key(old) && n.origin_methods[old] == index);
        assert(n.method_meaning(n.methods[index as int]) == x);
        lemma_names_kept(c, n);
        lemma_pushed(method_meanings(c), x);
        assert(x.class == class);
        let one = Holdings { methods: set![x], ..Holdings::none() };
        let p = of_proto(x.proto);
        let y = of_synthetic(class);
        let z = of_string(x.name);
        assert(holdings(n) =~= holdings(c).plus(one));
        assert(holdings(m).plus(p).plus(y).plus(z).plus(one) =~= holdings(m).plus(
            p.plus(y).plus(z).plus(one),
        ));
        lemma_plus_has(holdings(m), of_method(x));
        lemma_plus_has(holdings(c), one);
        lemma_closed_kept(c, n);
    }
}

// ---------------------------------------------------------------------------
// Many additions
// ---------------------------------------------------------------------------

/// All of several holdings together.
pub open spec fn total(list: Seq<Holdings>) -> Holdings {
    Holdings {
        strings: Set::new(
            |x: Seq<char>|
                exists|i: int| 0 <= i < list.len() && (#[trigger] list[i]).strings.contains(x),
        ),
        types: Set::new(
            |x: Seq<char>|
                exists|i: int| 0 <= i < list.len() && (#[trigger] list[i]).types.contains(x),
        ),
        protos: Set::new(
            |x: ProtoMeaning|
                exists|i: int| 0 <= i < list.len() && (#[trigger] list[i]).protos.contains(x),
        ),
        fields: Set::new(
            |x: FieldMeaning|
                exists|i: int| 0 <= i < list.len() && (#[trigger] list[i]).fields.contains(x),
        ),
        methods: Set::new(
            |x: MethodMeaning|
                exists|i: int| 0 <= i < list.len() && (#[trigger] list[i]).methods.contains(x),
        ),
        origins: Set::new(
            |x: Seq<char>|
                exists|i: int| 0 <= i < list.len() && (#[trigger] list[i]).origins.contains(x),
        ),
        synthetics: Set::new(
            |x: Seq<char>|
                exists|i: int| 0 <= i < list.len() && (#[trigger] list[i]).synthetics.contains(x),
        ),
        lacking: exists|i: int| 0 <= i < list.len() && (#[trigger] list[i]).lacking,
    }
}

/// A whole holds its parts.
pub proof fn lemma_total_has(list: Seq<Holdings>, i: int)
    requires
        0 <= i < list.len(),
    ensures
        list[i].within(total(list)),
{
}

/// Holdings whose members all occur in another list are within its total.
pub proof fn lemma_total_within(a: Seq<Holdings>, b: Seq<Holdings>)
    requires
        forall|i: int| 0 <= i < a.len() ==> b.contains(#[trigger] a[i]),
    ensures
        total(a).within(total(b)),
{
    assert forall|i: int| 0 <= i < a.len() implies (#[trigger] a[i]).within(total(b)) by {
        assert(b.contains(a[i]));
        let j = choose|j: int| 0 <= j < b.len() && b[j] == a[i];
        lemma_total_has(b, j);
    }
    assert forall|x: Seq<char>| #[trigger] total(a).strings.contains(x) implies total(
        b,
    ).strings.contains(x) by {
        let i = choose|i: int| 0 <= i < a.len() && (#[trigger] a[i]).strings.contains(x);
        assert(a[i].within(total(b)));
    }
    assert forall|x: Seq<char>| #[trigger] total(a).types.contains(x) implies total(
        b,
    ).types.contains(x) by {
        let i = choose|i: int| 0 <= i < a.len() && (#[trigger] a[i]).types.contains(x);
        assert(a[i].within(total(b)));
    }
    assert forall|x: ProtoMeaning| #[trigger] total(a).protos.contains(x) implies total(
        b,
    ).protos.contains(x) by {
        let i = choose|i: int| 0 <= i < a.len() && (#[trigger] a[i]).protos.contains(x);
        assert(a[i].within(total(b)));
    }
    assert forall|x: FieldMeaning| #[trigger] total(a).fields.contains(x) implies total(
        b,
    ).fields.contains(x) by {
        let i = choose|i: int| 0 <= i < a.len() && (#[trigger] a[i]).fields.contains(x);
        assert(a[i].within(total(b)));
    }
    assert forall|x: MethodMeaning| #[trigger] total(a).methods.contains(x) implies total(
        b,
    ).methods.contains(x) by {
        let i = choose|i: int| 0 <= i < a.len() && (#[trigger] a[i]).methods.contains(x);
        assert(a[i].within(total(b)));
    }
    assert forall|x: Seq<char>| #[trigger] total(a).origins.contains(x) implies total(
        b,
    ).origins.contains(x) by {
        let i = choose|i: int| 0 <= i < a.len() && (#[trigger] a[i]).origins.contains(x);
        assert(a[i].within(total(b)));
    }
    assert forall|x: Seq<char>| #[trigger] total(a).synthetics.contains(x) implies total(
        b,
    ).synthetics.contains(x) by {
        let i = choose|i: int| 0 <= i < a.len() && (#[trigger] a[i]).synthetics.contains(x);
        assert(a[i].within(total(b)));
    }
    if total(a).lacking {
        let i = choose|i: int| 0 <= i < a.len() && (#[trigger] a[i]).lacking;
        assert(a[i].within(total(b)));
    }
}

/// Each of two that is within the other is the same.
pub proof fn lemma_within_both(a: Holdings, b: Holdings)
    requires
        a.within(b),
        b.within(a),
    ensures
        a == b,
{
    assert(a =~= b);
}

pub proof fn lemma_total_push(list: Seq<Holdings>, h: Holdings)
    ensures
        total(list.push(h)) == total(list).plus(h),
{
    let more = list.push(h);
    assert(more[list.len() as int] == h);
    lemma_total_has(more, list.len() as int);
    assert forall|i: int| 0 <= i < list.len() implies more.contains(#[trigger] list[i]) by {
        assert(more[i] == list[i]);
    }
    lemma_total_within(list, more);
    assert forall|i: int| 0 <= i < more.len() implies (#[trigger] more[i]).within(
        total(list).plus(h),
    ) by {
        if i < list.len() {
            lemma_total_has(list, i);
        }
    }
    let sum = total(list).plus(h);
    assert(total(more).strings =~= sum.strings);
    assert(total(more).types =~= sum.types);
    assert(total(more).protos =~= sum.protos);
    assert(total(more).fields =~= sum.fields);
    assert(total(more).methods =~= sum.methods);
    assert(total(more).origins =~= sum.origins);
    assert(total(more).synthetics =~= sum.synthetics);
    if sum.lacking {
        if h.lacking {
            assert(more[list.len() as int].lacking);
        } else {
            let i = choose|i: int| 0 <= i < list.len() && (#[trigger] list[i]).lacking;
            assert(more[i].lacking);
        }
    }
    assert(total(more).lacking == sum.lacking);
}

/// What a string of a file is.
pub open spec fn string_need(dex: DexTables, k: int) -> Holdings {
    if 0 <= k < dex.strings.len() {
        of_string(dex.strings[k])
    } else {
        Holdings::missing()
    }
}

/// What a type of a file is.
pub open spec fn type_need(dex: DexTables, k: int) -> Holdings {
    if 0 <= k < dex.types.len() {
        of_type(dex.name_of_type(k))
    } else {
        Holdings::missing()
    }
}

/// What a prototype of a file is.
pub open spec fn proto_need(dex: DexTables, k: int) -> Holdings {
    if 0 <= k < dex.protos.len() {
        of_proto(dex.proto_meaning(k))
    } else {
        Holdings::missing()
    }
}

/// What a field of a file is.
pub open spec fn field_need(dex: DexTables, k: int) -> Holdings {
    if 0 <= k < dex.fields.len() {
        of_field(dex.field_meaning(k))
    } else {
        Holdings::missing()
    }
}

/// What a method of a file is.
pub open spec fn method_need(dex: DexTables, k: int) -> Holdings {
    if 0 <= k < dex.methods.len() {
        of_method(dex.method_meaning(k))
    } else {
        Holdings::missing()
    }
}

/// What some strings of a file are.
pub open spec fn string_parts(dex: DexTables, list: Seq<u32>) -> Seq<Holdings> {
    list.map_values(|k: u32| string_need(dex, k as int))
}

/// What some types of a file are.
pub open spec fn type_parts(dex: DexTables, list: Seq<u32>) -> Seq<Holdings> {
    list.map_values(|k: u32| type_need(dex, k as int))
}

/// What some prototypes of a file are.
pub open spec fn proto_parts(dex: DexTables, list: Seq<u32>) -> Seq<Holdings> {
    list.map_values(|k: u32| proto_need(dex, k as int))
}

/// What some fields of a file are.
pub open spec fn field_parts(dex: DexTables, list: Seq<u32>) -> Seq<Holdings> {
    list.map_values(|k: u32| field_need(dex, k as int))
}

/// What some methods of a file are.
pub open spec fn method_parts(dex: DexTables, list: Seq<u32>) -> Seq<Holdings> {
    list.map_values(|k: u32| method_need(dex, k as int))
}

/// One more holding behind the first `i` of a list.
proof fn lemma_next_part(start: Holdings, parts: Seq<Holdings>, i: int)
    requires
        0 <= i < parts.len(),
    ensures
        start.plus(total(parts.take(i))).plus(parts[i]) == start.plus(total(parts.take(i + 1))),
{
    lemma_total_push(parts.take(i), parts[i]);
    assert(parts.take(i + 1) =~= parts.take(i).push(parts[i]));
    lemma_plus_chain(start, total(parts.take(i)), parts[i]);
}

proof fn lemma_no_parts(start: Holdings, parts: Seq<Holdings>)
    ensures
        start.plus(total(parts.take(0))) == start,
{
    assert(start.plus(total(parts.take(0))) =~= start);
}

proof fn lemma_hold_strings(
    m: Tables,
    dex: DexTables,
    list: Seq<u32>,
    i: int,
    start: Holdings,
)
    requires
        m.sound(dex),
        closed(m),
        0 <= i <= list.len(),
        run(string_adder(dex, list), m, i, list.len() as int) is Ok,
        run(string_adder(dex, list), m, i, list.len() as int)->Ok_0.strings.len()
            <= 0x1_0000_0000,
        holdings(m) == start.plus(total(string_parts(dex, list).take(i))),
    ensures
        holdings(run(string_adder(dex, list), m, i, list.len() as int)->Ok_0) == start.plus(
            total(string_parts(dex, list)),
        ),
        closed(run(string_adder(dex, list), m, i, list.len() as int)->Ok_0),
        run(string_adder(dex, list), m, i, list.len() as int)->Ok_0.primitive_types == m.primitive_types,
    decreases list.len() - i,
{
    let parts = string_parts(dex, list);
    if i < list.len() {
        let n = string_adder(dex, list)(m, i)->Ok_0;
        lemma_strings_run(n, dex, list, i + 1);
        lemma_string_sound(m, dex, dex.strings[list[i] as int]);
        lemma_hold_string(m, dex, dex.strings[list[i] as int]);
        lemma_next_part(start, parts, i);
        lemma_hold_strings(n, dex, list, i + 1, start);
    } else {
        assert(parts.take(i) =~= parts);
    }
}

proof fn lemma_hold_types(
    m: Tables,
    dex: DexTables,
    list: Seq<u32>,
    ordered: bool,
    i: int,
    start: Holdings,
)
    requires
        m.sound(dex),
        closed(m),
        0 <= i <= list.len(),
        run(type_adder(dex, list, ordered), m, i, list.len() as int) is Ok,
        run(type_adder(dex, list, ordered), m, i, list.len() as int)->Ok_0.strings.len()
            <= 0x1_0000_0000,
        holdings(m) == start.plus(total(type_parts(dex, list).take(i))),
    ensures
        holdings(run(type_adder(dex, list, ordered), m, i, list.len() as int)->Ok_0) == start.plus(
            total(type_parts(dex, list)),
        ),
        closed(run(type_adder(dex, list, ordered), m, i, list.len() as int)->Ok_0),
        run(type_adder(dex, list, ordered), m, i, list.len() as int)->Ok_0.primitive_types == m.primitive_types,
    decreases list.len() - i,
{
    let parts = type_parts(dex, list);
    if i < list.len() {
        let n = type_adder(dex, list, ordered)(m, i)->Ok_0;
        lemma_types_run(n, dex, list, ordered, i + 1);
        lemma_origin_type_sound(m, dex, list[i]);
        lemma_hold_type(m, dex, list[i]);
        lemma_next_part(start, parts, i);
        lemma_hold_types(n, dex, list, ordered, i + 1, start);
    } else {
        assert(parts.take(i) =~= parts);
    }
}

proof fn lemma_hold_protos(
    m: Tables,
    dex: DexTables,
    list: Seq<u32>,
    ordered: bool,
    i: int,
    start: Holdings,
)
    requires
        m.sound(dex),
        closed(m),
        primed(m),
        0 <= i <= list.len(),
        run(proto_adder(dex, list, ordered), m, i, list.len() as int) is Ok,
        run(proto_adder(dex, list, ordered), m, i, list.len() as int)->Ok_0.strings.len()
            <= 0x1_0000_0000,
        holdings(m) == start.plus(total(proto_parts(dex, list).take(i))),
    ensures
        holdings(run(proto_adder(dex, list, ordered), m, i, list.len() as int)->Ok_0) == start.plus(
            total(proto_parts(dex, list)),
        ),
        closed(run(proto_adder(dex, list, ordered), m, i, list.len() as int)->Ok_0),
        run(proto_adder(dex, list, ordered), m, i, list.len() as int)->Ok_0.primitive_types == m.primitive_types,
    decreases list.len() - i,
{
    let parts = proto_parts(dex, list);
    if i < list.len() {
        let n = proto_adder(dex, list, ordered)(m, i)->Ok_0;
        lemma_protos_run(n, dex, list, ordered, i + 1);
        lemma_proto_sound(m, dex, list[i]);
        lemma_hold_proto(m, dex, list[i]);
        lemma_next_part(start, parts, i);
        lemma_hold_protos(n, dex, list, ordered, i + 1, start);
    } else {
        assert(parts.take(i) =~= parts);
    }
}

proof fn lemma_hold_fields(
    m: Tables,
    dex: DexTables,
    list: Seq<u32>,
    ordered: bool,
    i: int,
    start: Holdings,
)
    requires
        m.sound(dex),
        closed(m),
        primed(m),
        0 <= i <= list.len(),
        run(field_adder(dex, list, ordered), m, i, list.len() as int) is Ok,
        run(field_adder(dex, list, ordered), m, i, list.len() as int)->Ok_0.strings.len()
            <= 0x1_0000_0000,
        holdings(m) == start.plus(total(field_parts(dex, list).take(i))),
    ensures
        holdings(run(field_adder(dex, list, ordered), m, i, list.len() as int)->Ok_0) == start.plus(
            total(field_parts(dex, list)),
        ),
        closed(run(field_adder(dex, list, ordered), m, i, list.len() as int)->Ok_0),
        run(field_adder(dex, list, ordered), m, i, list.len() as int)->Ok_0.primitive_types == m.primitive_types,
    decreases list.len() - i,
{
    let parts = field_parts(dex, list);
    if i < list.len() {
        let n = field_adder(dex, list, ordered)(m, i)->Ok_0;
        lemma_fields_run(n, dex, list, ordered, i + 1);
        lemma_field_sound(m, dex, list[i]);
        lemma_hold_field(m, dex, list[i]);
        lemma_next_part(start, parts, i);
        lemma_hold_fields(n, dex, list, ordered, i + 1, start);
    } else {
        assert(parts.take(i) =~= parts);
    }
}

proof fn lemma_hold_methods(
    m: Tables,
    dex: DexTables,
    list: Seq<u32>,
    ordered: bool,
    i: int,
    start: Holdings,
)
    requires
        m.sound(dex),
        closed(m),
        primed(m),
        0 <= i <= list.len(),
        run(method_adder(dex, list, ordered), m, i, list.len() as int) is Ok,
        run(method_adder(dex, list, ordered), m, i, list.len() as int)->Ok_0.strings.len()
            <= 0x1_0000_0000,
        holdings(m) == start.plus(total(method_parts(dex, list).take(i))),
    ensures
        holdings(run(method_adder(dex, list, ordered), m, i, list.len() as int)->Ok_0) == start.plus(
            total(method_parts(dex, list)),
        ),
        closed(run(method_adder(dex, list, ordered), m, i, list.len() as int)->Ok_0),
        run(method_adder(dex, list, ordered), m, i, list.len() as int)->Ok_0.primitive_types == m.primitive_types,
    decreases list.len() - i,
{
    let parts = method_parts(dex, list);
    if i < list.len() {
        let n = method_adder(dex, list, ordered)(m, i)->Ok_0;
        lemma_methods_run(n, dex, list, ordered, i + 1);
        lemma_method_sound(m, dex, list[i]);
        lemma_hold_method(m, dex, list[i]);
        lemma_next_part(start, parts, i);
        lemma_hold_methods(n, dex, list, ordered, i + 1, start);
    } else {
        assert(parts.take(i) =~= parts);
    }
}

/// What the primitive types are.
pub open spec fn primitive_parts() -> Seq<Holdings> {
    primitives().map_values(|c: char| of_synthetic(seq![c]))
}

proof fn lemma_letter_numbers(a: char, b: char)
    ensures
        a as u32 == b as u32 <==> a == b,
{
}

/// One primitive type more.
pub proof fn lemma_primitive_kept(m: Tables, dex: DexTables, i: int)
    requires
        m.sound(dex),
        closed(m),
        forall|c: char| #[trigger] primed_at(m.primitive_types, primitives().take(i), c),
        0 <= i < 9,
        primitive_step()(m, i) is Ok,
        primitive_step()(m, i)->Ok_0.strings.len() <= 0x1_0000_0000,
    ensures
        ({
            let n = primitive_step()(m, i)->Ok_0;
            &&& holdings(n) == holdings(m).plus(of_synthetic(seq![primitives()[i]]))
            &&& closed(n)
            &&& same_members(m, n)
            &&& forall|c: char| #[trigger]
                primed_at(n.primitive_types, primitives().take(i + 1), c)
        }),
{
    let text = seq![primitives()[i]];
    let n = primitive_step()(m, i)->Ok_0;
    let b = m.add_synthetic_type(text)->Ok_0.0;
    lemma_hold_synthetic(m, dex, text);
    assert(holdings(n) =~= holdings(b)) by {
        lemma_synthetic_sound(m, dex, text);
        lemma_names_kept(b, n);
    }
    lemma_synthetic_sound(m, dex, text);
    lemma_closed_kept(b, n);
    assert forall|c: char| #[trigger]
        primed_at(n.primitive_types, primitives().take(i + 1), c) by {
        let more = primitives().take(i + 1);
        let key = primitives()[i] as u32;
        let index = m.add_synthetic_type(text)->Ok_0.1;
        lemma_put_get(b.primitive_types, key, index, c as u32);
        lemma_letter_numbers(primitives()[i], c);
        if primitives().take(i).contains(c) {
            let k = choose|k: int| 0 <= k < i && primitives().take(i)[k] == c;
            assert(more[k] == c);
        }
        if c == primitives()[i] {
            assert(more[i] == c);
        }
        if more.contains(c) {
            let k = choose|k: int| 0 <= k < i + 1 && more[k] == c;
            if k < i {
                assert(primitives().take(i)[k] == c);
            }
        }
        assert(primed_at(m.primitive_types, primitives().take(i), c));
    }
}

proof fn lemma_hold_primitives(m: Tables, dex: DexTables, i: int, start: Holdings)
    requires
        m.sound(dex),
        closed(m),
        forall|c: char| #[trigger] primed_at(m.primitive_types, primitives().take(i), c),
        0 <= i <= 9,
        run(primitive_step(), m, i, 9) is Ok,
        run(primitive_step(), m, i, 9)->Ok_0.strings.len() <= 0x1_0000_0000,
        holdings(m) == start.plus(total(primitive_parts().take(i))),
    ensures
        holdings(run(primitive_step(), m, i, 9)->Ok_0) == start.plus(total(primitive_parts())),
        closed(run(primitive_step(), m, i, 9)->Ok_0),
        primed(run(primitive_step(), m, i, 9)->Ok_0),
    decreases 9 - i,
{
    let parts = primitive_parts();
    if i < 9 {
        let text = seq![primitives()[i]];
        let n = primitive_step()(m, i)->Ok_0;
        let b = m.add_synthetic_type(text)->Ok_0.0;
        lemma_primitives_grow(n, i + 1);
        lemma_hold_synthetic(m, dex, text);
        lemma_primitive_kept(m, dex, i);
        lemma_next_part(start, parts, i);
        lemma_primitive_sound(m, dex, i);
        lemma_hold_primitives(n, dex, i + 1, start);
    } else {
        assert(parts.take(i) =~= parts);
        assert(primitives().take(i) =~= primitives());
    }
}

// ---------------------------------------------------------------------------
// A class
// ---------------------------------------------------------------------------

/// What code refers to, and the primitive types.
pub open spec fn needed_by_code(dex: DexTables, refs: CodeRefs) -> Holdings {
    total(string_parts(dex, refs.strings)).plus(total(type_parts(dex, refs.types))).plus(
        total(primitive_parts()),
    ).plus(total(proto_parts(dex, refs.protos))).plus(total(field_parts(dex, refs.fields))).plus(
        total(method_parts(dex, refs.methods)),
    )
}

/// What metadata refers to.
pub open spec fn needed_by_metadata(dex: DexTables, refs: RefSets) -> Holdings {
    total(string_parts(dex, refs.strings)).plus(total(type_parts(dex, refs.types))).plus(
        total(proto_parts(dex, refs.protos)),
    ).plus(total(field_parts(dex, refs.fields))).plus(total(method_parts(dex, refs.methods)))
}

/// What a class definition and its members name.
pub open spec fn needed_by_class(
    dex: DexTables,
    class: ClassDef,
    members: Members,
    interfaces: Seq<u16>,
) -> Holdings {
    total(field_parts(dex, field_ids(members.fields()))).plus(
        total(method_parts(dex, method_ids(members.methods()))),
    ).plus(total(string_parts(dex, class_strings(class)))).plus(
        total(type_parts(dex, class_types(class))),
    ).plus(total(type_parts(dex, widened_ids(interfaces))))
}

/// What a class needs: what its code, its definition, its members, its metadata
/// and its handlers refer to, with everything that these need.
pub open spec fn needed(
    dex: DexTables,
    class: ClassDef,
    members: Members,
    parts: Parts,
    refs: CodeRefs,
) -> Holdings {
    needed_by_code(dex, refs).plus(needed_by_class(dex, class, members, parts.interfaces)).plus(
        needed_by_metadata(dex, parts.metadata_refs),
    ).plus(total(type_parts(dex, caught_types(parts.codes.values))))
}

#[verifier::spinoff_prover]
proof fn lemma_code_held(dex: DexTables, refs: CodeRefs)
    requires
        with_code_refs(Tables::empty(), dex, refs) is Ok,
        with_code_refs(Tables::empty(), dex, refs)->Ok_0.strings.len() <= 0x1_0000_0000,
    ensures
        with_code_refs(Tables::empty(), dex, refs)->Ok_0.sound(dex),
        closed(with_code_refs(Tables::empty(), dex, refs)->Ok_0),
        primed(with_code_refs(Tables::empty(), dex, refs)->Ok_0),
        holdings(with_code_refs(Tables::empty(), dex, refs)->Ok_0) == needed_by_code(dex, refs),
{
    let e = Tables::empty();
    let a = with_strings(e, dex, refs.strings)->Ok_0;
    let b = with_types(a, dex, refs.types, true)->Ok_0;
    let c = b.fill_primitives()->Ok_0;
    let d = with_protos(c, dex, refs.protos, true)->Ok_0;
    let f = with_fields(d, dex, refs.fields, true)->Ok_0;
    assert(e.sound(dex)) by {
        assert forall|k: u32| #[trigger] e.synthetic_named(k) by {}
        assert forall|c: char| #[trigger] e.primitive_named(c) by {}
    }
    assert(holdings(e) =~= Holdings::none());
    lemma_code_refs_run(dex, refs);
    lemma_methods_run(f, dex, refs.methods, true, 0);
    lemma_fields_run(d, dex, refs.fields, true, 0);
    lemma_protos_run(c, dex, refs.protos, true, 0);
    lemma_primitives_grow(b, 0);
    lemma_types_run(a, dex, refs.types, true, 0);
    lemma_strings_run(e, dex, refs.strings, 0);
    lemma_primitives_sound(b, dex, 0);
    lemma_no_parts(holdings(e), string_parts(dex, refs.strings));
    lemma_hold_strings(e, dex, refs.strings, 0, holdings(e));
    lemma_no_parts(holdings(a), type_parts(dex, refs.types));
    lemma_hold_types(a, dex, refs.types, true, 0, holdings(a));
    lemma_no_parts(holdings(b), primitive_parts());
    assert forall|c: char| #[trigger] primed_at(b.primitive_types, primitives().take(0), c) by {
        assert(b.primitive_types == e.primitive_types);
    }
    lemma_hold_primitives(b, dex, 0, holdings(b));
    lemma_no_parts(holdings(c), proto_parts(dex, refs.protos));
    lemma_hold_protos(c, dex, refs.protos, true, 0, holdings(c));
    lemma_no_parts(holdings(d), field_parts(dex, refs.fields));
    lemma_hold_fields(d, dex, refs.fields, true, 0, holdings(d));
    lemma_no_parts(holdings(f), method_parts(dex, refs.methods));
    lemma_hold_methods(f, dex, refs.methods, true, 0, holdings(f));
    assert(Holdings::none().plus(total(string_parts(dex, refs.strings))) =~= total(
        string_parts(dex, refs.strings),
    ));
}

#[verifier::spinoff_prover]
proof fn lemma_metadata_held(m: Tables, dex: DexTables, refs: RefSets)
    requires
        m.sound(dex),
        closed(m),
        primed(m),
        with_metadata_refs(m, dex, refs) is Ok,
        with_metadata_refs(m, dex, refs)->Ok_0.strings.len() <= 0x1_0000_0000,
    ensures
        with_metadata_refs(m, dex, refs)->Ok_0.sound(dex),
        closed(with_metadata_refs(m, dex, refs)->Ok_0),
        holdings(with_metadata_refs(m, dex, refs)->Ok_0) == holdings(m).plus(
            needed_by_metadata(dex, refs),
        ),
{
    let a = with_strings(m, dex, refs.strings)->Ok_0;
    let b = with_types(a, dex, refs.types, false)->Ok_0;
    let c = with_protos(b, dex, refs.protos, false)->Ok_0;
    let d = with_fields(c, dex, refs.fields, false)->Ok_0;
    lemma_metadata_run(m, dex, refs);
    lemma_methods_run(d, dex, refs.methods, false, 0);
    lemma_fields_run(c, dex, refs.fields, false, 0);
    lemma_protos_run(b, dex, refs.protos, false, 0);
    lemma_types_run(a, dex, refs.types, false, 0);
    lemma_strings_run(m, dex, refs.strings, 0);
    let p = string_parts(dex, refs.strings);
    let q = type_parts(dex, refs.types);
    let r = proto_parts(dex, refs.protos);
    let s = field_parts(dex, refs.fields);
    let t = method_parts(dex, refs.methods);
    lemma_no_parts(holdings(m), p);
    lemma_hold_strings(m, dex, refs.strings, 0, holdings(m));
    lemma_no_parts(holdings(a), q);
    lemma_hold_types(a, dex, refs.types, false, 0, holdings(a));
    lemma_no_parts(holdings(b), r);
    lemma_hold_protos(b, dex, refs.protos, false, 0, holdings(b));
    lemma_no_parts(holdings(c), s);
    lemma_hold_fields(c, dex, refs.fields, false, 0, holdings(c));
    lemma_no_parts(holdings(d), t);
    lemma_hold_methods(d, dex, refs.methods, false, 0, holdings(d));
    assert(holdings(m).plus(total(p)).plus(total(q)).plus(total(r)).plus(total(s)).plus(total(t))
        =~= holdings(m).plus(needed_by_metadata(dex, refs)));
}

/// The tables that are gathered for a class hold what the class needs, and
/// nothing else.
#[verifier::spinoff_prover]
pub proof fn lemma_gathered_holdings(
    dex: DexTables,
    class: ClassDef,
    members: Members,
    parts: Parts,
    refs: CodeRefs,
)
    requires
        gathered(dex, class, members, parts, refs) is Ok,
        gathered(dex, class, members, parts, refs)->Ok_0.strings.len() <= 0x1_0000_0000,
    ensures
        holdings(gathered(dex, class, members, parts, refs)->Ok_0) == needed(
            dex,
            class,
            members,
            parts,
            refs,
        ),
        closed(gathered(dex, class, members, parts, refs)->Ok_0),
        gathered(dex, class, members, parts, refs)->Ok_0.sound(dex),
{
    let fields = field_ids(members.fields());
    let methods = method_ids(members.methods());
    let caught = caught_types(parts.codes.values);
    let g = with_code_refs(Tables::empty(), dex, refs)->Ok_0;
    let h = with_fields(g, dex, fields, false)->Ok_0;
    let i = with_methods(h, dex, methods, false)->Ok_0;
    let j = with_strings(i, dex, class_strings(class))->Ok_0;
    let k = with_types(j, dex, class_types(class), false)->Ok_0;
    let l = with_types(k, dex, widened_ids(parts.interfaces), false)->Ok_0;
    let n = with_metadata_refs(l, dex, parts.metadata_refs)->Ok_0;
    lemma_types_run(n, dex, caught, false, 0);
    lemma_metadata_run(l, dex, parts.metadata_refs);
    lemma_types_run(k, dex, widened_ids(parts.interfaces), false, 0);
    lemma_types_run(j, dex, class_types(class), false, 0);
    lemma_strings_run(i, dex, class_strings(class), 0);
    lemma_methods_run(h, dex, methods, false, 0);
    lemma_fields_run(g, dex, fields, false, 0);
    lemma_code_held(dex, refs);
    let p = field_parts(dex, fields);
    let q = method_parts(dex, methods);
    let r = string_parts(dex, class_strings(class));
    let s = type_parts(dex, class_types(class));
    let t = type_parts(dex, widened_ids(parts.interfaces));
    let u = type_parts(dex, caught);
    lemma_no_parts(holdings(g), p);
    lemma_hold_fields(g, dex, fields, false, 0, holdings(g));
    lemma_no_parts(holdings(h), q);
    lemma_hold_methods(h, dex, methods, false, 0, holdings(h));
    lemma_no_parts(holdings(i), r);
    lemma_hold_strings(i, dex, class_strings(class), 0, holdings(i));
    lemma_no_parts(holdings(j), s);
    lemma_hold_types(j, dex, class_types(class), false, 0, holdings(j));
    lemma_no_parts(holdings(k), t);
    lemma_hold_types(k, dex, widened_ids(parts.interfaces), false, 0, holdings(k));
    lemma_metadata_held(l, dex, parts.metadata_refs);
    lemma_no_parts(holdings(n), u);
    lemma_hold_types(n, dex, caught, false, 0, holdings(n));
    assert(holdings(l) =~= needed_by_code(dex, refs).plus(
        needed_by_class(dex, class, members, parts.interfaces),
    ));
}

} // verus!
