//! Canonical tables are in order: every table is sorted, and lists nothing
//! twice.
use vstd::prelude::*;

use crate::dex_format::{string_key, utf16_of};
use crate::minidex::canonical::{
    field_keys, lemma_fields_merged, lemma_methods_merged, lemma_protos_merged,
    lemma_strings_sorted, lemma_types_merged, method_keys, proto_identities, proto_keys,
    string_keys, type_keys,
};
use crate::minidex::roundtrip::lemma_utf16_round_trip;
use crate::minidex::tables::{Proto, Tables};
use crate::minidex::validate::{steps_up, strictly_sorted};
use crate::order::{
    keys_ascend, keys_identify, lemma_merged, lemma_sort_order, less_from, sort_order,
};

verus! {

/// Whether two prototypes take and return types with the same descriptors.
pub open spec fn same_types(m: Tables, a: Proto, b: Proto) -> bool {
    &&& m.types[a.return_type_idx as int] == m.types[b.return_type_idx as int]
    &&& a.params.len() == b.params.len()
    &&& forall|i: int|
        0 <= i < a.params.len() ==> m.types[#[trigger] a.params[i] as int]
            == m.types[b.params[i] as int]
}

/// Whether prototypes that take and return the same types have the same short
/// form, as it is in a file whose short forms are right.
pub open spec fn shorties_agree(m: Tables) -> bool {
    forall|i: int, j: int|
        #![trigger m.protos[i], m.protos[j]]
        0 <= i < m.protos.len() && 0 <= j < m.protos.len() && same_types(
            m,
            m.protos[i],
            m.protos[j],
        ) ==> m.protos[i].shorty_idx == m.protos[j].shorty_idx
}

/// Texts with the same UTF-16 units are equal.
proof fn lemma_key_spells(a: Seq<char>, b: Seq<char>)
    requires
        string_key(a) == string_key(b),
    ensures
        a == b,
{
    let x = utf16_of(a);
    let y = utf16_of(b);
    assert(x =~= y) by {
        assert(string_key(a).len() == x.len() && string_key(b).len() == y.len());
        assert forall|i: int| 0 <= i < x.len() implies x[i] == y[i] by {
            assert(string_key(a)[i] == x[i] as u32);
            assert(string_key(b)[i] == y[i] as u32);
        }
    }
    lemma_utf16_round_trip(a);
    lemma_utf16_round_trip(b);
}

proof fn lemma_strings_ascend(m: Tables)
    requires
        m.ok(),
    ensures
        strictly_sorted(string_keys(m.strings_sorted().strings)),
{
    let keys = string_keys(m.strings);
    let order = sort_order(keys, m.strings.len());
    let sorted = m.strings_sorted().strings;
    let all = string_keys(sorted);
    lemma_sort_order(keys, m.strings.len());
    assert forall|i: int| 0 <= i < all.len() - 1 implies #[trigger] steps_up(all, i) by {
        let a = order[i];
        let b = order[i + 1];
        assert(all[i] == keys[a] && all[i + 1] == keys[b]);
        if keys[a] == keys[b] {
            lemma_key_spells(m.strings[a], m.strings[b]);
            assert(a != b);
        }
    }
}

proof fn lemma_types_ascend(types: Seq<u32>)
    requires
        forall|i: int, j: int| 0 <= i < j < types.len() ==> types[i] < types[j],
    ensures
        strictly_sorted(type_keys(types)),
{
    let all = type_keys(types);
    assert forall|i: int| 0 <= i < all.len() - 1 implies #[trigger] steps_up(all, i) by {
        assert(types[i] < types[i + 1]);
        assert(all[i][0] == types[i] && all[i + 1][0] == types[i + 1]);
        reveal_with_fuel(less_from, 2);
    }
}

/// What is kept of keys that ascend is strictly sorted.
proof fn lemma_kept_ascend(keys: Seq<Seq<u32>>, kept: Seq<int>, all: Seq<Seq<u32>>)
    requires
        keys_ascend(keys, kept),
        all.len() == kept.len(),
        forall|i: int| 0 <= i < kept.len() ==> #[trigger] all[i] == keys[kept[i]],
    ensures
        strictly_sorted(all),
{
    assert forall|i: int| 0 <= i < all.len() - 1 implies #[trigger] steps_up(all, i) by {
        assert(all[i] == keys[kept[i]]);
        assert(all[i + 1] == keys[kept[i + 1]]);
    }
}

/// Where short forms agree, prototypes with equal keys are equal.
proof fn lemma_protos_identified(m: Tables)
    requires
        m.ok(),
        shorties_agree(m),
        m.strings.len() <= 0x1_0000_0000,
    ensures
        keys_identify(
            proto_keys(m.strings_sorted().types_merged().protos),
            proto_identities(m.strings_sorted().types_merged().protos),
        ),
{
    let a = m.strings_sorted();
    let b = a.types_merged();
    let keys = proto_keys(b.protos);
    let ids = proto_identities(b.protos);
    lemma_strings_sorted(m);
    lemma_types_merged(a);
    assert forall|i: int, j: int|
        #![trigger keys[i], keys[j]]
        0 <= i < keys.len() && 0 <= j < keys.len() && keys[i] == keys[j] implies ids[i]
        == ids[j] by {
        lemma_same_types(m, i, j);
        assert(m.protos[i].shorty_idx == m.protos[j].shorty_idx);
        assert(ids[i] == seq![b.protos[i].shorty_idx] + keys[i]);
        assert(ids[j] == seq![b.protos[j].shorty_idx] + keys[j]);
    }
}

/// Prototypes with equal keys take and return the same types.
proof fn lemma_same_types(m: Tables, i: int, j: int)
    requires
        m.ok(),
        m.strings.len() <= 0x1_0000_0000,
        0 <= i < m.protos.len(),
        0 <= j < m.protos.len(),
        proto_keys(m.strings_sorted().types_merged().protos)[i] == proto_keys(
            m.strings_sorted().types_merged().protos,
        )[j],
    ensures
        same_types(m, m.protos[i], m.protos[j]),
{
    let a = m.strings_sorted();
    let b = a.types_merged();
    let p = m.protos[i];
    let q = m.protos[j];
    let x = proto_keys(b.protos)[i];
    let y = proto_keys(b.protos)[j];
    lemma_strings_sorted(m);
    lemma_types_merged(a);
    assert(m.proto_ok(p) && m.proto_ok(q));
    assert(x.len() == 1 + p.params.len());
    assert(y.len() == 1 + q.params.len());
    let places = a.type_merge().1;
    assert(x[0] == places[p.return_type_idx as int] as u32);
    assert(y[0] == places[q.return_type_idx as int] as u32);
    lemma_same_place(m, p.return_type_idx as int, q.return_type_idx as int);
    assert forall|k: int| 0 <= k < p.params.len() implies m.types[#[trigger] p.params[k] as int]
        == m.types[q.params[k] as int] by {
        assert(x[k + 1] == places[p.params[k] as int] as u32);
        assert(y[k + 1] == places[q.params[k] as int] as u32);
        assert(m.type_ok(p.params[k] as int) && m.type_ok(q.params[k] as int));
        lemma_same_place(m, p.params[k] as int, q.params[k] as int);
    }
}

/// Types that go to the same place have the same descriptor.
proof fn lemma_same_place(m: Tables, i: int, j: int)
    requires
        m.ok(),
        m.strings.len() <= 0x1_0000_0000,
        0 <= i < m.types.len(),
        0 <= j < m.types.len(),
        m.strings_sorted().type_merge().1[i] == m.strings_sorted().type_merge().1[j],
    ensures
        m.types[i] == m.types[j],
{
    let a = m.strings_sorted();
    lemma_strings_sorted(m);
    lemma_types_merged(a);
    let places = a.type_merge().1;
    assert(a.types_merged().types[places[i] as int] == a.types[i]);
    assert(a.types_merged().types[places[j] as int] == a.types[j]);
    let s = m.string_places();
    let d = m.types[i] as int;
    let e = m.types[j] as int;
    assert(m.string_ok(d) && m.string_ok(e));
    assert(a.types[i] == s[d] && a.types[j] == s[e]);
    assert(a.strings[s[d] as int] == m.strings[d]);
    assert(a.strings[s[e] as int] == m.strings[e]);
}

/// Canonical tables are strictly sorted: the strings by their UTF-16 units, the
/// types by descriptor, the fields and the methods by class, name and type; and
/// the prototypes by return type and parameters where their short forms agree.
#[verifier::spinoff_prover]
pub proof fn lemma_canonical_sorted(m: Tables)
    requires
        m.ok(),
        m.strings.len() <= 0x1_0000_0000,
    ensures
        strictly_sorted(string_keys(m.canonical().strings)),
        strictly_sorted(type_keys(m.canonical().types)),
        shorties_agree(m) ==> strictly_sorted(proto_keys(m.canonical().protos)),
        strictly_sorted(field_keys(m.canonical().fields)),
        strictly_sorted(method_keys(m.canonical().methods)),
{
    let a = m.strings_sorted();
    let b = a.types_merged();
    let c = b.protos_merged();
    let d = c.fields_merged();
    lemma_strings_sorted(m);
    lemma_types_merged(a);
    lemma_protos_merged(b);
    lemma_fields_merged(c);
    lemma_methods_merged(d);
    lemma_strings_ascend(m);
    lemma_types_ascend(b.types);
    lemma_merged(proto_keys(b.protos), proto_identities(b.protos));
    if shorties_agree(m) {
        lemma_protos_identified(m);
        lemma_kept_ascend(proto_keys(b.protos), b.proto_merge().0, proto_keys(c.protos));
    }
    let fields = field_keys(c.fields);
    lemma_merged(fields, fields);
    lemma_kept_ascend(fields, c.field_merge().0, field_keys(d.fields));
    let methods = method_keys(d.methods);
    lemma_merged(methods, methods);
    lemma_kept_ascend(methods, d.method_merge().0, method_keys(d.methods_merged().methods));
}

} // verus!
