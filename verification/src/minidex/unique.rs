//! The extracted file holds what its class needs and nothing else, and sorted
//! tables that hold the same are the same.
use vstd::prelude::*;

use crate::dex_format::string_key;
use crate::error::Error;
use crate::minidex::bytecode::CodeRefs;
use crate::minidex::canonical::{
    field_key, field_keys, lemma_fields_merged, lemma_methods_merged, lemma_protos_merged,
    lemma_strings_sorted, lemma_types_merged, method_key, method_keys, proto_identities, proto_key,
    proto_keys, proto_with_types, string_keys, type_keys,
};
use crate::minidex::fidelity::{lemma_extracted_canonical, lemma_extracted_tables};
use crate::minidex::gather::{gathered, lemma_gathered_ok};
use crate::minidex::holdings::{
    field_meanings, holdings, lemma_gathered_holdings, method_meanings, needed, proto_meanings,
    type_names,
};
use crate::minidex::hollow::parts_of;
use crate::minidex::reader::DexTables;
use crate::minidex::sound::all_sorted;
use crate::minidex::tableback::reads_as;
use crate::minidex::tables::{NewField, NewMethod, Proto, Tables};
use crate::minidex::validate::{
    field_id_keys, lemma_strictly_sorted, method_id_keys, proto_key_reader, strictly_sorted,
};
use crate::minidex::{class_of, extracted_from};
use crate::order::{
    lemma_less_asymmetric, lemma_less_irreflexive, lemma_merged, lemma_sort_order, lex_less,
    sort_order,
};
use crate::results::{collect, lemma_collect_ok};

verus! {

// ---------------------------------------------------------------------------
// Sorting and merging
// ---------------------------------------------------------------------------

proof fn lemma_same_members<T>(a: Seq<T>, b: Seq<T>)
    requires
        forall|i: int| 0 <= i < a.len() ==> b.contains(#[trigger] a[i]),
        forall|i: int| 0 <= i < b.len() ==> a.contains(#[trigger] b[i]),
    ensures
        a.to_set() == b.to_set(),
{
    assert forall|x: T| #[trigger] a.to_set().contains(x) <==> b.to_set().contains(x) by {
        if a.contains(x) {
            let i = choose|i: int| 0 <= i < a.len() && a[i] == x;
            assert(b.contains(a[i]));
        }
        if b.contains(x) {
            let i = choose|i: int| 0 <= i < b.len() && b[i] == x;
            assert(a.contains(b[i]));
        }
    }
    assert(a.to_set() =~= b.to_set());
}

proof fn lemma_sorted_holds(m: Tables)
    requires
        m.ok(),
        m.strings.len() <= 0x1_0000_0000,
    ensures
        holdings(m.strings_sorted()).listed() == holdings(m).listed(),
{
    lemma_strings_sorted(m);
    let n = m.strings_sorted();
    let places = m.string_places();
    let order = sort_order(string_keys(m.strings), m.strings.len());
    lemma_sort_order(string_keys(m.strings), m.strings.len());
    assert forall|i: int| 0 <= i < m.strings.len() implies n.strings.contains(
        #[trigger] m.strings[i],
    ) by {
        assert(n.strings[places[i] as int] == m.strings[i]);
    }
    assert forall|i: int| 0 <= i < n.strings.len() implies m.strings.contains(
        #[trigger] n.strings[i],
    ) by {
        assert(n.strings[i] == m.strings[order[i]]);
    }
    lemma_same_members(m.strings, n.strings);
    assert forall|i: int| 0 <= i < m.types.len() implies #[trigger] n.name_of_type(i)
        == m.name_of_type(i) by {
        assert(m.string_ok(m.types[i] as int));
        assert(n.strings[places[m.types[i] as int] as int] == m.strings[m.types[i] as int]);
    }
    assert forall|i: int| 0 <= i < m.protos.len() implies n.proto_meaning(#[trigger] n.protos[i])
        == m.proto_meaning(m.protos[i]) by {
        let p = m.protos[i];
        assert(m.proto_ok(p));
        assert(n.strings[places[p.shorty_idx as int] as int] == m.strings[p.shorty_idx as int]);
        assert forall|j: int| 0 <= j < p.params.len() implies n.names_of_types(p.params)[j]
            == m.names_of_types(p.params)[j] by {
            assert(m.type_ok(p.params[j] as int));
        }
        assert(n.names_of_types(p.params) =~= m.names_of_types(p.params));
    }
    assert forall|i: int| 0 <= i < m.fields.len() implies n.field_meaning(#[trigger] n.fields[i])
        == m.field_meaning(m.fields[i]) by {
        let f = m.fields[i];
        assert(m.field_ok(f));
        assert(n.strings[places[f.name_idx as int] as int] == m.strings[f.name_idx as int]);
        assert(n.name_of_type(f.class_idx as int) == m.name_of_type(f.class_idx as int));
        assert(n.name_of_type(f.type_idx as int) == m.name_of_type(f.type_idx as int));
    }
    assert forall|i: int| 0 <= i < m.methods.len() implies n.method_meaning(
        #[trigger] n.methods[i],
    ) == m.method_meaning(m.methods[i]) by {
        let x = m.methods[i];
        assert(m.method_ok(x));
        assert(n.strings[places[x.name_idx as int] as int] == m.strings[x.name_idx as int]);
        assert(n.name_of_type(x.class_idx as int) == m.name_of_type(x.class_idx as int));
        assert(n.proto_meaning(n.protos[x.proto_idx as int]) == m.proto_meaning(
            m.protos[x.proto_idx as int],
        ));
    }
    assert(type_names(n) =~= type_names(m));
    assert(proto_meanings(n) =~= proto_meanings(m));
    assert(field_meanings(n) =~= field_meanings(m));
    assert(method_meanings(n) =~= method_meanings(m));
}

proof fn lemma_types_merged_holds(m: Tables)
    requires
        m.ok(),
    ensures
        holdings(m.types_merged()).listed() == holdings(m).listed(),
{
    lemma_types_merged(m);
    let n = m.types_merged();
    let (kept, places) = m.type_merge();
    lemma_merged(type_keys(m.types), type_keys(m.types));
    assert forall|i: int| 0 <= i < m.types.len() implies n.name_of_type(
        #[trigger] places[i] as int,
    ) == m.name_of_type(i) by {
        assert(n.types[places[i] as int] == m.types[i]);
    }
    assert forall|i: int| 0 <= i < type_names(m).len() implies type_names(n).contains(
        #[trigger] type_names(m)[i],
    ) by {
        assert(n.name_of_type(places[i] as int) == m.name_of_type(i));
        assert(type_names(n)[places[i] as int] == type_names(m)[i]);
    }
    assert forall|i: int| 0 <= i < type_names(n).len() implies type_names(m).contains(
        #[trigger] type_names(n)[i],
    ) by {
        assert(n.types[i] == m.types[kept[i]]);
        assert(type_names(m)[kept[i]] == type_names(n)[i]);
    }
    lemma_same_members(type_names(m), type_names(n));
    assert forall|i: int| 0 <= i < m.protos.len() implies n.proto_meaning(#[trigger] n.protos[i])
        == m.proto_meaning(m.protos[i]) by {
        let p = m.protos[i];
        let q = n.protos[i];
        assert(q == proto_with_types(p, places));
        assert(m.proto_ok(p));
        assert(n.name_of_type(places[p.return_type_idx as int] as int) == m.name_of_type(
            p.return_type_idx as int,
        ));
        assert forall|j: int| 0 <= j < p.params.len() implies n.names_of_types(q.params)[j]
            == m.names_of_types(p.params)[j] by {
            assert(m.type_ok(p.params[j] as int));
            assert(q.params[j] == places[p.params[j] as int]);
        }
        assert(n.names_of_types(q.params) =~= m.names_of_types(p.params));
    }
    assert forall|i: int| 0 <= i < m.fields.len() implies n.field_meaning(#[trigger] n.fields[i])
        == m.field_meaning(m.fields[i]) by {
        let f = m.fields[i];
        assert(m.field_ok(f));
        assert(n.name_of_type(places[f.class_idx as int] as int) == m.name_of_type(
            f.class_idx as int,
        ));
        assert(n.name_of_type(places[f.type_idx as int] as int) == m.name_of_type(
            f.type_idx as int,
        ));
    }
    assert forall|i: int| 0 <= i < m.methods.len() implies n.method_meaning(
        #[trigger] n.methods[i],
    ) == m.method_meaning(m.methods[i]) by {
        let x = m.methods[i];
        assert(m.method_ok(x));
        assert(n.name_of_type(places[x.class_idx as int] as int) == m.name_of_type(
            x.class_idx as int,
        ));
        assert(n.proto_meaning(n.protos[x.proto_idx as int]) == m.proto_meaning(
            m.protos[x.proto_idx as int],
        ));
    }
    assert(proto_meanings(n) =~= proto_meanings(m));
    assert(field_meanings(n) =~= field_meanings(m));
    assert(method_meanings(n) =~= method_meanings(m));
}

/// Tables with the same strings and types name alike.
proof fn lemma_names_alike(m: Tables, n: Tables)
    requires
        m.strings == n.strings,
        m.types == n.types,
    ensures
        type_names(n) == type_names(m),
        forall|p: Proto| #[trigger] n.proto_meaning(p) == m.proto_meaning(p),
        forall|f: NewField| #[trigger] n.field_meaning(f) == m.field_meaning(f),
{
    assert(type_names(n) =~= type_names(m));
    assert forall|p: Proto| #[trigger] n.proto_meaning(p) == m.proto_meaning(p) by {
        assert(n.names_of_types(p.params) =~= m.names_of_types(p.params));
    }
}

proof fn lemma_protos_merged_holds(m: Tables)
    requires
        m.ok(),
    ensures
        holdings(m.protos_merged()).listed() == holdings(m).listed(),
{
    lemma_protos_merged(m);
    let n = m.protos_merged();
    let (kept, places) = m.proto_merge();
    lemma_proto_merge_kept(m);
    lemma_names_alike(m, n);
    let a = proto_meanings(m);
    let b = proto_meanings(n);
    assert forall|i: int| 0 <= i < a.len() implies b.contains(#[trigger] a[i]) by {
        assert(n.protos[places[i] as int] == m.protos[i]);
        assert(b[places[i] as int] == a[i]);
    }
    assert forall|i: int| 0 <= i < b.len() implies a.contains(#[trigger] b[i]) by {
        assert(n.protos[i] == m.protos[kept[i]]);
        assert(a[kept[i]] == b[i]);
    }
    lemma_same_members(a, b);
    assert forall|i: int| 0 <= i < m.methods.len() implies n.method_meaning(
        #[trigger] n.methods[i],
    ) == m.method_meaning(m.methods[i]) by {
        let x = m.methods[i];
        assert(m.method_ok(x));
        assert(n.protos[places[x.proto_idx as int] as int] == m.protos[x.proto_idx as int]);
    }
    assert(field_meanings(n) =~= field_meanings(m));
    assert(method_meanings(n) =~= method_meanings(m));
}

proof fn lemma_proto_merge_kept(m: Tables)
    requires
        m.ok(),
    ensures
        forall|i: int|
            0 <= i < m.proto_merge().0.len() ==> 0 <= #[trigger] m.proto_merge().0[i]
                < m.protos.len(),
{
    lemma_merged(
        proto_keys(m.protos),
        proto_identities(m.protos),
    );
}

proof fn lemma_fields_merged_holds(m: Tables)
    requires
        m.ok(),
    ensures
        holdings(m.fields_merged()).listed() == holdings(m).listed(),
{
    lemma_fields_merged(m);
    let n = m.fields_merged();
    let (kept, places) = m.field_merge();
    lemma_merged(field_keys(m.fields), field_keys(m.fields));
    lemma_names_alike(m, n);
    let a = field_meanings(m);
    let b = field_meanings(n);
    assert forall|i: int| 0 <= i < a.len() implies b.contains(#[trigger] a[i]) by {
        assert(n.fields[places[i] as int] == m.fields[i]);
        assert(b[places[i] as int] == a[i]);
    }
    assert forall|i: int| 0 <= i < b.len() implies a.contains(#[trigger] b[i]) by {
        assert(n.fields[i] == m.fields[kept[i]]);
        assert(a[kept[i]] == b[i]);
    }
    lemma_same_members(a, b);
    assert(proto_meanings(n) =~= proto_meanings(m));
    assert forall|i: int| 0 <= i < m.methods.len() implies n.method_meaning(
        #[trigger] n.methods[i],
    ) == m.method_meaning(m.methods[i]) by {
        let p = m.protos[m.methods[i].proto_idx as int];
        assert(n.proto_meaning(p) == m.proto_meaning(p));
    }
    assert(method_meanings(n) =~= method_meanings(m));
}

proof fn lemma_methods_merged_holds(m: Tables)
    requires
        m.ok(),
    ensures
        holdings(m.methods_merged()).listed() == holdings(m).listed(),
{
    lemma_methods_merged(m);
    let n = m.methods_merged();
    let (kept, places) = m.method_merge();
    lemma_merged(method_keys(m.methods), method_keys(m.methods));
    lemma_names_alike(m, n);
    let a = method_meanings(m);
    let b = method_meanings(n);
    assert forall|x: NewMethod| #[trigger] n.method_meaning(x) == m.method_meaning(x) by {
        let p = m.protos[x.proto_idx as int];
        assert(n.proto_meaning(p) == m.proto_meaning(p));
    }
    assert forall|i: int| 0 <= i < a.len() implies b.contains(#[trigger] a[i]) by {
        assert(n.methods[places[i] as int] == m.methods[i]);
        assert(b[places[i] as int] == a[i]);
    }
    assert forall|i: int| 0 <= i < b.len() implies a.contains(#[trigger] b[i]) by {
        assert(n.methods[i] == m.methods[kept[i]]);
        assert(a[kept[i]] == b[i]);
    }
    lemma_same_members(a, b);
    assert(proto_meanings(n) =~= proto_meanings(m));
    assert(field_meanings(n) =~= field_meanings(m));
}

/// Sorting and merging tables changes nothing of what they hold.
pub proof fn lemma_canonical_holds(m: Tables)
    requires
        m.ok(),
        m.strings.len() <= 0x1_0000_0000,
    ensures
        holdings(m.canonical()).listed() == holdings(m).listed(),
{
    let a = m.strings_sorted();
    let b = a.types_merged();
    let c = b.protos_merged();
    let d = c.fields_merged();
    lemma_strings_sorted(m);
    lemma_types_merged(a);
    lemma_protos_merged(b);
    lemma_fields_merged(c);
    lemma_sorted_holds(m);
    lemma_types_merged_holds(a);
    lemma_protos_merged_holds(b);
    lemma_fields_merged_holds(c);
    lemma_methods_merged_holds(d);
}

/// The extracted file holds what its class needs, and nothing else.
pub proof fn lemma_extracted_minimal(dex: DexTables, descriptor: Seq<char>)
    requires
        extracted_from(dex, descriptor) is Ok,
    ensures
        ({
            let m = extracted_from(dex, descriptor)->Ok_0.1;
            let (class, members) = class_of(dex, descriptor)->Ok_0;
            let (parts, refs) = parts_of(dex, class, members, CodeRefs::empty())->Ok_0;
            holdings(m).listed() == needed(dex, class, members, parts, refs).listed()
        }),
{
    let m = extracted_from(dex, descriptor)->Ok_0.1;
    let (class, members) = class_of(dex, descriptor)->Ok_0;
    let (parts, refs) = parts_of(dex, class, members, CodeRefs::empty())->Ok_0;
    let g = gathered(dex, class, members, parts, refs)->Ok_0;
    lemma_gathered_ok(dex, class, members, parts, refs);
    lemma_strings_sorted(g);
    assert(g.canonical().strings.len() == g.strings_sorted().strings.len());
    lemma_gathered_holdings(dex, class, members, parts, refs);
    lemma_canonical_holds(g);
}

// ---------------------------------------------------------------------------
// One way to sort
// ---------------------------------------------------------------------------

/// Whether items ascend by their keys.
pub open spec fn ascends<T>(key: spec_fn(T) -> Seq<u32>, items: Seq<T>) -> bool {
    forall|i: int, j: int|
        #![trigger items[i], items[j]]
        0 <= i < j < items.len() ==> lex_less(key(items[i]), key(items[j]))
}

proof fn lemma_prefix_unique<T>(
    key: spec_fn(T) -> Seq<u32>,
    a: Seq<T>,
    b: Seq<T>,
    n: int,
)
    requires
        ascends(key, a),
        ascends(key, b),
        a.to_set() == b.to_set(),
        0 <= n <= a.len(),
        n <= b.len(),
    ensures
        a.take(n) == b.take(n),
    decreases n,
{
    if n > 0 {
        let i = n - 1;
        lemma_prefix_unique(key, a, b, i);
        assert forall|k: int| 0 <= k < i implies a[k] == b[k] by {
            assert(a.take(i)[k] == b.take(i)[k]);
        }
        assert(a.to_set().contains(a[i]));
        assert(b.to_set().contains(b[i]));
        let j = choose|j: int| 0 <= j < b.len() && b[j] == a[i];
        let k = choose|k: int| 0 <= k < a.len() && a[k] == b[i];
        if j < i {
            assert(a[j] == a[i]);
            lemma_less_irreflexive(key(a[i]));
        }
        if k < i {
            assert(b[k] == b[i]);
            lemma_less_irreflexive(key(b[i]));
        }
        if j > i && k > i {
            lemma_less_asymmetric(key(b[i]), key(b[j]));
        }
        assert(a[i] == b[i]);
        assert(a.take(n) =~= b.take(n));
    }
}

/// Items that ascend by their keys are one list, if they are one set.
pub proof fn lemma_ascending_unique<T>(key: spec_fn(T) -> Seq<u32>, a: Seq<T>, b: Seq<T>)
    requires
        ascends(key, a),
        ascends(key, b),
        a.to_set() == b.to_set(),
    ensures
        a == b,
{
    let n = if a.len() <= b.len() {
        a.len() as int
    } else {
        b.len() as int
    };
    lemma_prefix_unique(key, a, b, n);
    assert forall|k: int| 0 <= k < n implies a[k] == b[k] by {
        assert(a.take(n)[k] == b.take(n)[k]);
    }
    if a.len() < b.len() {
        let x = b[n];
        assert(b.to_set().contains(x));
        let j = choose|j: int| 0 <= j < a.len() && a[j] == x;
        assert(b[j] == x);
        lemma_less_irreflexive(key(x));
    }
    if b.len() < a.len() {
        let x = a[n];
        assert(a.to_set().contains(x));
        let j = choose|j: int| 0 <= j < b.len() && b[j] == x;
        assert(a[j] == x);
        lemma_less_irreflexive(key(x));
    }
    assert(a =~= b);
}

proof fn lemma_strings_unique(a: Seq<Seq<char>>, b: Seq<Seq<char>>)
    requires
        strictly_sorted(string_keys(a)),
        strictly_sorted(string_keys(b)),
        a.to_set() == b.to_set(),
    ensures
        a == b,
{
    let key = |s: Seq<char>| string_key(s);
    assert forall|i: int, j: int|
        #![trigger a[i], a[j]]
        0 <= i < j < a.len() implies lex_less(key(a[i]), key(a[j])) by {
        lemma_strictly_sorted(string_keys(a), i, j);
    }
    assert forall|i: int, j: int|
        #![trigger b[i], b[j]]
        0 <= i < j < b.len() implies lex_less(key(b[i]), key(b[j])) by {
        lemma_strictly_sorted(string_keys(b), i, j);
    }
    lemma_ascending_unique(key, a, b);
}

proof fn lemma_types_unique(x: Tables, y: Tables)
    requires
        x.ok(),
        y.ok(),
        x.strings == y.strings,
        strictly_sorted(type_keys(x.types)),
        strictly_sorted(type_keys(y.types)),
        type_names(x).to_set() == type_names(y).to_set(),
    ensures
        x.types == y.types,
{
    let key = |d: u32| seq![d];
    let a = x.types;
    let b = y.types;
    assert forall|i: int, j: int|
        #![trigger a[i], a[j]]
        0 <= i < j < a.len() implies lex_less(key(a[i]), key(a[j])) by {
        lemma_strictly_sorted(type_keys(a), i, j);
    }
    assert forall|i: int, j: int|
        #![trigger b[i], b[j]]
        0 <= i < j < b.len() implies lex_less(key(b[i]), key(b[j])) by {
        lemma_strictly_sorted(type_keys(b), i, j);
    }
    lemma_types_covered(x, y);
    lemma_types_covered(y, x);
    lemma_same_members(a, b);
    lemma_ascending_unique(key, a, b);
}

proof fn lemma_types_covered(x: Tables, y: Tables)
    requires
        x.ok(),
        y.ok(),
        x.strings == y.strings,
        type_names(x).to_set() == type_names(y).to_set(),
    ensures
        forall|i: int| 0 <= i < x.types.len() ==> y.types.contains(#[trigger] x.types[i]),
{
    assert forall|i: int| 0 <= i < x.types.len() implies y.types.contains(
        #[trigger] x.types[i],
    ) by {
        assert(type_names(x)[i] == x.name_of_type(i));
        assert(type_names(x).to_set().contains(x.name_of_type(i)));
        assert(type_names(y).contains(x.name_of_type(i)));
        let j = choose|j: int| 0 <= j < type_names(y).len() && type_names(y)[j] == x.name_of_type(
            i,
        );
        assert(x.string_ok(x.types[i] as int));
        assert(y.string_ok(y.types[j] as int));
        assert(y.types[j] == x.types[i]);
    }
}

/// In sorted tables no two types have one name.
pub proof fn lemma_type_names_differ(m: Tables, i: int, j: int)
    requires
        m.ok(),
        strictly_sorted(type_keys(m.types)),
        0 <= i < m.types.len(),
        0 <= j < m.types.len(),
        m.name_of_type(i) == m.name_of_type(j),
    ensures
        i == j,
{
    assert(m.string_ok(m.types[i] as int) && m.string_ok(m.types[j] as int));
    assert(m.types[i] == m.types[j]);
    let keys = type_keys(m.types);
    if i < j {
        lemma_strictly_sorted(keys, i, j);
        lemma_less_irreflexive(keys[i]);
    } else if j < i {
        lemma_strictly_sorted(keys, j, i);
        lemma_less_irreflexive(keys[i]);
    }
}

/// Prototypes of sorted tables that mean the same are the same.
proof fn lemma_proto_by_meaning(m: Tables, p: Proto, q: Proto)
    requires
        m.ok(),
        strictly_sorted(type_keys(m.types)),
        m.proto_ok(p),
        m.proto_ok(q),
        m.proto_meaning(p) == m.proto_meaning(q),
        p.return_type_idx <= 0xffff,
    ensures
        p == q,
{
    let a = m.proto_meaning(p);
    let b = m.proto_meaning(q);
    assert(m.strings[p.shorty_idx as int] == m.strings[q.shorty_idx as int]);
    lemma_type_names_differ(m, p.return_type_idx as int, q.return_type_idx as int);
    assert(a.params.len() == p.params.len() && b.params.len() == q.params.len());
    assert forall|k: int| 0 <= k < p.params.len() implies p.params[k] == q.params[k] by {
        assert(a.params[k] == m.name_of_type(p.params[k] as int));
        assert(b.params[k] == m.name_of_type(q.params[k] as int));
        assert(m.type_ok(p.params[k] as int) && m.type_ok(q.params[k] as int));
        lemma_type_names_differ(m, p.params[k] as int, q.params[k] as int);
    }
    assert(p.params =~= q.params);
}

proof fn lemma_protos_covered(x: Tables, y: Tables)
    requires
        x.ok(),
        y.ok(),
        x.strings == y.strings,
        x.types == y.types,
        strictly_sorted(type_keys(x.types)),
        proto_meanings(x).to_set() == proto_meanings(y).to_set(),
    ensures
        forall|i: int| 0 <= i < x.protos.len() ==> y.protos.contains(#[trigger] x.protos[i]),
{
    lemma_names_alike(x, y);
    assert forall|i: int| 0 <= i < x.protos.len() implies y.protos.contains(
        #[trigger] x.protos[i],
    ) by {
        let p = x.protos[i];
        let a = proto_meanings(x)[i];
        assert(proto_meanings(x).to_set().contains(a));
        assert(proto_meanings(y).contains(a));
        let j = choose|j: int| 0 <= j < proto_meanings(y).len() && proto_meanings(y)[j] == a;
        let q = y.protos[j];
        assert(x.proto_ok(p));
        assert(y.proto_ok(q));
        assert(x.proto_ok(q)) by {
            assert forall|k: int| 0 <= k < q.params.len() implies x.type_ok(
                #[trigger] q.params[k] as int,
            ) by {
                assert(y.type_ok(q.params[k] as int));
            }
        }
        assert(y.proto_meaning(q) == x.proto_meaning(q));
        lemma_proto_by_meaning(x, p, q);
        assert(y.protos[j] == p);
    }
}

proof fn lemma_protos_unique(x: Tables, y: Tables)
    requires
        x.ok(),
        y.ok(),
        x.strings == y.strings,
        x.types == y.types,
        strictly_sorted(type_keys(x.types)),
        strictly_sorted(proto_keys(x.protos)),
        strictly_sorted(proto_keys(y.protos)),
        proto_meanings(x).to_set() == proto_meanings(y).to_set(),
    ensures
        x.protos == y.protos,
{
    let key = |p: Proto| proto_key(p);
    let a = x.protos;
    let b = y.protos;
    assert forall|i: int, j: int|
        #![trigger a[i], a[j]]
        0 <= i < j < a.len() implies lex_less(key(a[i]), key(a[j])) by {
        lemma_strictly_sorted(proto_keys(a), i, j);
    }
    assert forall|i: int, j: int|
        #![trigger b[i], b[j]]
        0 <= i < j < b.len() implies lex_less(key(b[i]), key(b[j])) by {
        lemma_strictly_sorted(proto_keys(b), i, j);
    }
    lemma_protos_covered(x, y);
    lemma_protos_covered(y, x);
    lemma_same_members(a, b);
    lemma_ascending_unique(key, a, b);
}

proof fn lemma_fields_covered(x: Tables, y: Tables)
    requires
        x.ok(),
        y.ok(),
        x.strings == y.strings,
        x.types == y.types,
        strictly_sorted(type_keys(x.types)),
        field_meanings(x).to_set() == field_meanings(y).to_set(),
    ensures
        forall|i: int| 0 <= i < x.fields.len() ==> y.fields.contains(#[trigger] x.fields[i]),
{
    assert forall|i: int| 0 <= i < x.fields.len() implies y.fields.contains(
        #[trigger] x.fields[i],
    ) by {
        let f = x.fields[i];
        let a = field_meanings(x)[i];
        assert(field_meanings(x).to_set().contains(a));
        assert(field_meanings(y).contains(a));
        let j = choose|j: int| 0 <= j < field_meanings(y).len() && field_meanings(y)[j] == a;
        let g = y.fields[j];
        assert(x.field_ok(f));
        assert(y.field_ok(g));
        assert(x.name_of_type(g.class_idx as int) == y.name_of_type(g.class_idx as int));
        assert(x.name_of_type(g.type_idx as int) == y.name_of_type(g.type_idx as int));
        lemma_type_names_differ(x, f.class_idx as int, g.class_idx as int);
        lemma_type_names_differ(x, f.type_idx as int, g.type_idx as int);
        assert(x.strings[f.name_idx as int] == x.strings[g.name_idx as int]);
        assert(f == g);
    }
}

proof fn lemma_fields_unique(x: Tables, y: Tables)
    requires
        x.ok(),
        y.ok(),
        x.strings == y.strings,
        x.types == y.types,
        strictly_sorted(type_keys(x.types)),
        strictly_sorted(field_keys(x.fields)),
        strictly_sorted(field_keys(y.fields)),
        field_meanings(x).to_set() == field_meanings(y).to_set(),
    ensures
        x.fields == y.fields,
{
    let key = |f: NewField| field_key(f);
    let a = x.fields;
    let b = y.fields;
    assert forall|i: int, j: int|
        #![trigger a[i], a[j]]
        0 <= i < j < a.len() implies lex_less(key(a[i]), key(a[j])) by {
        lemma_strictly_sorted(field_keys(a), i, j);
    }
    assert forall|i: int, j: int|
        #![trigger b[i], b[j]]
        0 <= i < j < b.len() implies lex_less(key(b[i]), key(b[j])) by {
        lemma_strictly_sorted(field_keys(b), i, j);
    }
    lemma_fields_covered(x, y);
    lemma_fields_covered(y, x);
    lemma_same_members(a, b);
    lemma_ascending_unique(key, a, b);
}

/// In sorted tables no two prototypes mean the same.
pub proof fn lemma_proto_meanings_differ(m: Tables, i: int, j: int)
    requires
        m.ok(),
        all_sorted(m),
        0 <= i < m.protos.len(),
        0 <= j < m.protos.len(),
        m.proto_meaning(m.protos[i]) == m.proto_meaning(m.protos[j]),
    ensures
        i == j,
{
    assert(m.proto_ok(m.protos[i]) && m.proto_ok(m.protos[j]));
    lemma_proto_by_meaning(m, m.protos[i], m.protos[j]);
    let keys = proto_keys(m.protos);
    if i < j {
        lemma_strictly_sorted(keys, i, j);
        lemma_less_irreflexive(keys[i]);
    } else if j < i {
        lemma_strictly_sorted(keys, j, i);
        lemma_less_irreflexive(keys[i]);
    }
}

proof fn lemma_methods_covered(x: Tables, y: Tables)
    requires
        x.ok(),
        y.ok(),
        x.strings == y.strings,
        x.types == y.types,
        x.protos == y.protos,
        all_sorted(x),
        method_meanings(x).to_set() == method_meanings(y).to_set(),
    ensures
        forall|i: int| 0 <= i < x.methods.len() ==> y.methods.contains(#[trigger] x.methods[i]),
{
    lemma_names_alike(x, y);
    assert forall|i: int| 0 <= i < x.methods.len() implies y.methods.contains(
        #[trigger] x.methods[i],
    ) by {
        let f = x.methods[i];
        let a = method_meanings(x)[i];
        assert(method_meanings(x).to_set().contains(a));
        assert(method_meanings(y).contains(a));
        let j = choose|j: int| 0 <= j < method_meanings(y).len() && method_meanings(y)[j] == a;
        let g = y.methods[j];
        assert(x.method_ok(f));
        assert(y.method_ok(g));
        assert(x.name_of_type(g.class_idx as int) == y.name_of_type(g.class_idx as int));
        lemma_type_names_differ(x, f.class_idx as int, g.class_idx as int);
        let p = x.protos[g.proto_idx as int];
        assert(y.proto_meaning(p) == x.proto_meaning(p));
        lemma_proto_meanings_differ(x, f.proto_idx as int, g.proto_idx as int);
        assert(x.strings[f.name_idx as int] == x.strings[g.name_idx as int]);
        assert(f == g);
    }
}

proof fn lemma_methods_unique(x: Tables, y: Tables)
    requires
        x.ok(),
        y.ok(),
        x.strings == y.strings,
        x.types == y.types,
        x.protos == y.protos,
        all_sorted(x),
        all_sorted(y),
        method_meanings(x).to_set() == method_meanings(y).to_set(),
    ensures
        x.methods == y.methods,
{
    let key = |f: NewMethod| method_key(f);
    let a = x.methods;
    let b = y.methods;
    assert forall|i: int, j: int|
        #![trigger a[i], a[j]]
        0 <= i < j < a.len() implies lex_less(key(a[i]), key(a[j])) by {
        lemma_strictly_sorted(method_keys(a), i, j);
    }
    assert forall|i: int, j: int|
        #![trigger b[i], b[j]]
        0 <= i < j < b.len() implies lex_less(key(b[i]), key(b[j])) by {
        lemma_strictly_sorted(method_keys(b), i, j);
    }
    lemma_methods_covered(x, y);
    lemma_methods_covered(y, x);
    lemma_same_members(a, b);
    lemma_ascending_unique(key, a, b);
}

/// Sorted tables that hold the same are the same.
pub proof fn lemma_tables_unique(x: Tables, y: Tables)
    requires
        x.ok(),
        y.ok(),
        all_sorted(x),
        all_sorted(y),
        holdings(x).listed() == holdings(y).listed(),
    ensures
        x.strings == y.strings,
        x.types == y.types,
        x.protos == y.protos,
        x.fields == y.fields,
        x.methods == y.methods,
{
    lemma_strings_unique(x.strings, y.strings);
    lemma_types_unique(x, y);
    lemma_protos_unique(x, y);
    lemma_fields_unique(x, y);
    lemma_methods_unique(x, y);
}

/// Tables that read as sorted ones were sorted.
#[verifier::spinoff_prover]
proof fn lemma_read_sorted(t: DexTables, m: Tables)
    requires
        reads_as(t, m),
        strictly_sorted(string_keys(t.strings)),
        strictly_sorted(type_keys(t.types)),
        collect(proto_key_reader(t), t.protos.len()) is Ok,
        strictly_sorted(collect(proto_key_reader(t), t.protos.len())->Ok_0),
        strictly_sorted(field_id_keys(t.fields)),
        strictly_sorted(method_id_keys(t.methods)),
    ensures
        all_sorted(m),
{
    let f = proto_key_reader(t);
    lemma_collect_ok(f, t.protos.len());
    let keys = collect(f, t.protos.len())->Ok_0;
    assert(keys =~= proto_keys(m.protos)) by {
        assert forall|i: int| 0 <= i < keys.len() implies keys[i] == proto_keys(m.protos)[i] by {
            assert(f(i) == Ok::<Seq<u32>, Error>(keys[i]));
            assert(t.protos[i].return_type_idx == m.protos[i].return_type_idx);
        }
    }
    assert(field_id_keys(t.fields) =~= field_keys(m.fields)) by {
        assert forall|i: int| 0 <= i < m.fields.len() implies field_id_keys(t.fields)[i]
            == field_keys(m.fields)[i] by {
            assert(t.fields[i].class_idx == m.fields[i].class_idx);
        }
    }
    assert(method_id_keys(t.methods) =~= method_keys(m.methods)) by {
        assert forall|i: int| 0 <= i < m.methods.len() implies method_id_keys(t.methods)[i]
            == method_keys(m.methods)[i] by {
            assert(t.methods[i].class_idx == m.methods[i].class_idx);
        }
    }
}

/// The tables of an extracted file are sorted.
#[verifier::spinoff_prover]
pub proof fn lemma_extracted_sorted(dex: DexTables, descriptor: Seq<char>)
    requires
        extracted_from(dex, descriptor) is Ok,
    ensures
        all_sorted(extracted_from(dex, descriptor)->Ok_0.1),
{
    let (bytes, m) = extracted_from(dex, descriptor)->Ok_0;
    lemma_extracted_canonical(dex, descriptor);
    lemma_extracted_tables(dex, descriptor);
    lemma_read_sorted(DexTables::tables_in(bytes, 0)->Ok_0, m);
}

} // verus!
