//! The tables of a class that is extracted from its extracted file are those of
//! that file.
use vstd::prelude::*;

use crate::minidex::bytecode::CodeRefs;
use crate::minidex::canonical::{lemma_strings_sorted, proto_keys};
use crate::minidex::equal::{members_again, new_tables};
use crate::minidex::fidelity::{lemma_extracted_layout, lemma_extracted_tables};
use crate::minidex::gather::{gathered, lemma_gathered_ok};
use crate::minidex::holdings::{
    counted, field_meanings, holdings, lemma_gathered_holdings, method_meanings, needed,
    origin_names, proto_meanings,
};
use crate::minidex::hollow::parts_of;
use crate::minidex::meaning::{lemma_canonical_faithful, lemma_canonical_readable};
use crate::minidex::preserved::extracted_def;
use crate::minidex::reader::DexTables;
use crate::minidex::retable::lemma_needed_same;
use crate::minidex::rewrite::{fixed, served};
use crate::minidex::room::{
    entries_whole, lemma_gathered_fits, lemma_names_fit, lemma_numbers_full, types_differ,
};
use crate::minidex::second::{
    lemma_extracted_alike, lemma_field_meanings_differ, lemma_fixed, lemma_method_meanings_differ,
    lemma_read_means,
};
use crate::minidex::sorted::{lemma_canonical_sorted, same_types, shorties_agree};
use crate::minidex::sound::all_sorted;
use crate::minidex::tableback::reads_as;
use crate::minidex::tables::{lemma_position, Tables};
use crate::minidex::unique::{
    lemma_canonical_holds, lemma_extracted_minimal, lemma_extracted_sorted,
    lemma_proto_meanings_differ, lemma_tables_unique, lemma_type_names_differ,
};
use crate::minidex::validate::lemma_strictly_sorted;
use crate::minidex::wants::alike;
use crate::minidex::wholes::{extracts_once, methods_once};
use crate::minidex::{class_of, extracted_from};
use crate::order::lemma_less_irreflexive;

verus! {

/// A file with sorted tables is whole, and its types differ.
proof fn lemma_read_whole(t: DexTables, m: Tables)
    requires
        reads_as(t, m),
        m.ok(),
        all_sorted(m),
    ensures
        types_differ(t),
        entries_whole(t),
{
    lemma_read_means(t, m);
    assert forall|i: int, j: int|
        0 <= i < t.types.len() && 0 <= j < t.types.len() && #[trigger] t.name_of_type(i)
            == #[trigger] t.name_of_type(j) implies i == j by {
        lemma_type_names_differ(m, i, j);
    }
    assert forall|i: int| 0 <= i < t.types.len() implies (#[trigger] t.types[i])
        < t.strings.len() by {
        assert(m.string_ok(m.types[i] as int));
    }
    assert forall|i: int| 0 <= i < t.protos.len() implies (#[trigger] t.protos[i]).shorty_idx
        < t.strings.len() && t.protos[i].return_type_idx < t.types.len() && t.type_list(
        t.protos[i].parameters_off,
    ) is Ok && (forall|j: int|
        0 <= j < t.type_list(t.protos[i].parameters_off)->Ok_0.len() ==> (#[trigger] t.type_list(
            t.protos[i].parameters_off,
        )->Ok_0[j]) < t.types.len()) by {
        assert(m.proto_ok(m.protos[i]));
    }
    assert forall|i: int| 0 <= i < t.fields.len() implies (#[trigger] t.fields[i]).class_idx
        < t.types.len() && t.fields[i].type_idx < t.types.len() && t.fields[i].name_idx
        < t.strings.len() by {
        assert(m.field_ok(m.fields[i]));
    }
    assert forall|i: int| 0 <= i < t.methods.len() implies (#[trigger] t.methods[i]).class_idx
        < t.types.len() && t.methods[i].proto_idx < t.protos.len() && t.methods[i].name_idx
        < t.strings.len() by {
        assert(m.method_ok(m.methods[i]));
    }
}

/// What a class that was extracted needs, and the tables that it was gathered
/// in.
#[verifier::spinoff_prover]
proof fn lemma_needed_known(dex: DexTables, descriptor: Seq<char>) -> (g: Tables)
    requires
        extracted_from(dex, descriptor) is Ok,
    ensures
        ({
            let m = extracted_from(dex, descriptor)->Ok_0.1;
            let (class, members) = class_of(dex, descriptor)->Ok_0;
            let (parts, refs) = parts_of(dex, class, members, CodeRefs::empty())->Ok_0;
            let h = needed(dex, class, members, parts, refs);
            &&& h == holdings(g)
            &&& g.sound(dex)
            &&& m == g.canonical()
            &&& !h.lacking
            &&& h.strings.finite()
            &&& h.strings.len() <= 0x1_0000_0000
            &&& h.origins.finite()
            &&& h.synthetics.finite()
            &&& h.origins.len() + h.synthetics.len() <= 0x1_0000
        }),
{
    let (class, members) = class_of(dex, descriptor)->Ok_0;
    let (parts, refs) = parts_of(dex, class, members, CodeRefs::empty())->Ok_0;
    let g = gathered(dex, class, members, parts, refs)->Ok_0;
    lemma_gathered_ok(dex, class, members, parts, refs);
    lemma_strings_sorted(g);
    assert(g.canonical().strings.len() == g.strings_sorted().strings.len());
    lemma_gathered_holdings(dex, class, members, parts, refs);
    lemma_names_fit(g);
    g.strings.unique_seq_to_set();
    g
}

/// Prototypes of a file with sorted tables that take and return the same types
/// are the same.
proof fn lemma_protos_told(m: Tables, i: int, j: int)
    requires
        m.ok(),
        all_sorted(m),
        0 <= i < m.protos.len(),
        0 <= j < m.protos.len(),
        m.proto_meaning(m.protos[i]).result == m.proto_meaning(m.protos[j]).result,
        m.proto_meaning(m.protos[i]).params == m.proto_meaning(m.protos[j]).params,
    ensures
        i == j,
{
    let p = m.protos[i];
    let q = m.protos[j];
    let a = m.proto_meaning(p);
    let b = m.proto_meaning(q);
    assert(m.proto_ok(p) && m.proto_ok(q));
    lemma_type_names_differ(m, p.return_type_idx as int, q.return_type_idx as int);
    assert(a.params.len() == p.params.len() && b.params.len() == q.params.len());
    assert forall|k: int| 0 <= k < p.params.len() implies p.params[k] == q.params[k] by {
        assert(a.params[k] == m.name_of_type(p.params[k] as int));
        assert(b.params[k] == m.name_of_type(q.params[k] as int));
        assert(m.type_ok(p.params[k] as int) && m.type_ok(q.params[k] as int));
        lemma_type_names_differ(m, p.params[k] as int, q.params[k] as int);
    }
    assert(p.params =~= q.params);
    let keys = proto_keys(m.protos);
    assert(keys[i] =~= keys[j]);
    if i < j {
        lemma_strictly_sorted(keys, i, j);
        lemma_less_irreflexive(keys[i]);
    } else if j < i {
        lemma_strictly_sorted(keys, j, i);
        lemma_less_irreflexive(keys[i]);
    }
}

/// Tables that are gathered from a file with sorted tables have agreeing short
/// forms.
#[verifier::spinoff_prover]
proof fn lemma_shorties_settled(t: DexTables, m: Tables, g: Tables)
    requires
        reads_as(t, m),
        m.ok(),
        all_sorted(m),
        g.sound(t),
    ensures
        shorties_agree(g),
{
    lemma_read_means(t, m);
    assert forall|i: int, j: int|
        #![trigger g.protos[i], g.protos[j]]
        0 <= i < g.protos.len() && 0 <= j < g.protos.len() && same_types(
            g,
            g.protos[i],
            g.protos[j],
        ) implies g.protos[i].shorty_idx == g.protos[j].shorty_idx by {
        let p = g.protos[i];
        let q = g.protos[j];
        assert(g.proto_ok(p) && g.proto_ok(q));
        assert(g.proto_owned(t, i) && g.proto_owned(t, j));
        let k = choose|k: u32|
            g.origin_protos.contains_key(k) && #[trigger] g.origin_protos[k] as int == i && k
                < t.protos.len();
        let l = choose|l: u32|
            g.origin_protos.contains_key(l) && #[trigger] g.origin_protos[l] as int == j && l
                < t.protos.len();
        let a = g.proto_meaning(p);
        let b = g.proto_meaning(q);
        assert(a == t.proto_meaning(k as int) && b == t.proto_meaning(l as int));
        assert(a.params =~= b.params) by {
            assert forall|x: int| 0 <= x < a.params.len() implies a.params[x] == b.params[x] by {
                assert(g.types[p.params[x] as int] == g.types[q.params[x] as int]);
            }
        }
        lemma_protos_told(m, k as int, l as int);
        assert(g.strings[p.shorty_idx as int] == g.strings[q.shorty_idx as int]);
    }
}

/// Where prototypes, fields and methods without repetition come from as many
/// places as there are, they come from all places.
#[verifier::spinoff_prover]
proof fn lemma_all_places(t: DexTables, m: Tables, g: Tables)
    requires
        reads_as(t, m),
        m.ok(),
        all_sorted(m),
        g.sound(t),
        counted(g),
        holdings(g).listed() == holdings(m).listed(),
    ensures
        forall|k: u32| k < t.protos.len() ==> #[trigger] g.origin_protos.contains_key(k),
        forall|k: u32| k < t.fields.len() ==> #[trigger] g.origin_fields.contains_key(k),
        forall|k: u32| k < t.methods.len() ==> #[trigger] g.origin_methods.contains_key(k),
{
    let a = proto_meanings(m);
    assert forall|i: int, j: int| 0 <= i < a.len() && 0 <= j < a.len() && i != j implies a[i]
        != a[j] by {
        if a[i] == a[j] {
            lemma_proto_meanings_differ(m, i, j);
        }
    }
    a.unique_seq_to_set();
    proto_meanings(g).lemma_cardinality_of_set();
    let b = field_meanings(m);
    assert forall|i: int, j: int| 0 <= i < b.len() && 0 <= j < b.len() && i != j implies b[i]
        != b[j] by {
        if b[i] == b[j] {
            lemma_field_meanings_differ(m, i, j);
        }
    }
    b.unique_seq_to_set();
    field_meanings(g).lemma_cardinality_of_set();
    let c = method_meanings(m);
    assert forall|i: int, j: int| 0 <= i < c.len() && 0 <= j < c.len() && i != j implies c[i]
        != c[j] by {
        if c[i] == c[j] {
            lemma_method_meanings_differ(m, i, j);
        }
    }
    c.unique_seq_to_set();
    method_meanings(g).lemma_cardinality_of_set();
    assert(holdings(g).protos == holdings(m).protos && holdings(g).fields == holdings(m).fields
        && holdings(g).methods == holdings(m).methods) by {
        assert(holdings(g).listed().protos == holdings(m).listed().protos);
        assert(holdings(g).listed().fields == holdings(m).listed().fields);
        assert(holdings(g).listed().methods == holdings(m).listed().methods);
    }
    assert forall|k: u32| #[trigger] g.origin_protos.dom().contains(k) implies k
        < t.protos.len() by {
        assert(g.origin_protos.contains_key(k));
        assert(t.proto_readable(k));
    }
    assert forall|k: u32| #[trigger] g.origin_fields.dom().contains(k) implies k
        < t.fields.len() by {
        assert(g.origin_fields.contains_key(k));
    }
    assert forall|k: u32| #[trigger] g.origin_methods.dom().contains(k) implies k
        < t.methods.len() by {
        assert(g.origin_methods.contains_key(k));
        assert(t.method_readable(k));
    }
    lemma_numbers_full(g.origin_protos.dom(), t.protos.len());
    lemma_numbers_full(g.origin_fields.dom(), t.fields.len());
    lemma_numbers_full(g.origin_methods.dom(), t.methods.len());
    assert forall|k: u32| k < t.protos.len() implies #[trigger] g.origin_protos.contains_key(k) by {
        assert(g.origin_protos.dom().contains(k));
    }
    assert forall|k: u32| k < t.fields.len() implies #[trigger] g.origin_fields.contains_key(k) by {
        assert(g.origin_fields.dom().contains(k));
    }
    assert forall|k: u32| k < t.methods.len() implies #[trigger] g.origin_methods.contains_key(
        k,
    ) by {
        assert(g.origin_methods.dom().contains(k));
    }
}

/// What has an index in the first file has one in the second.
#[verifier::spinoff_prover]
proof fn lemma_served(dex: DexTables, t: DexTables, m: Tables, first: Tables, g: Tables)
    requires
        alike(dex, t, m),
        reads_as(t, m),
        m.ok(),
        all_sorted(m),
        m == first.canonical(),
        first.sound(dex),
        g.sound(t),
        counted(g),
        holdings(g) == holdings(first),
        holdings(g).listed() == holdings(m).listed(),
        g.canonical().strings == m.strings,
    ensures
        served(dex, m, t, g.canonical()),
{
    let n = g.canonical();
    lemma_read_whole(t, m);
    lemma_all_places(t, m, g);
    assert(n.origin_types.dom() =~= g.origin_types.dom());
    assert(n.origin_protos.dom() =~= g.origin_protos.dom());
    assert(n.origin_fields.dom() =~= g.origin_fields.dom());
    assert(n.origin_methods.dom() =~= g.origin_methods.dom());
    assert(m.origin_types.dom() =~= first.origin_types.dom());
    assert forall|k: u32| (#[trigger] m.mapped_string(dex, k)) is Ok implies n.mapped_string(
        t,
        m.mapped_string(dex, k)->Ok_0,
    ) is Ok by {
        let i = m.mapped_string(dex, k)->Ok_0;
        assert(n.strings.contains(t.strings[i as int])) by {
            assert(n.strings[i as int] == t.strings[i as int]);
        }
        lemma_position(n.strings, t.strings[i as int]);
    }
    assert forall|k: u32| (#[trigger] m.mapped_type(k)) is Ok implies n.mapped_type(
        m.mapped_type(k)->Ok_0 as u32,
    ) is Ok by {
        let i = m.mapped_type(k)->Ok_0;
        let name = dex.name_of_type(k as int);
        assert(m.origin_types.dom().contains(k));
        assert(first.origin_types.contains_key(k));
        assert(origin_names(first).contains(name));
        assert(origin_names(g).contains(name)) by {
            assert(holdings(g).origins == holdings(first).origins);
        }
        let l = choose|l: u32| #[trigger]
            g.origin_types.contains_key(l) && name == g.name_of_type(g.origin_types[l] as int);
        assert(t.name_of_type(l as int) == t.name_of_type(i as int));
        assert(l == i as u32);
        assert(n.origin_types.dom().contains(i as u32));
    }
    assert forall|k: u32| (#[trigger] m.mapped_proto(k)) is Ok implies n.mapped_proto(
        m.mapped_proto(k)->Ok_0 as u32,
    ) is Ok by {
        let i = m.mapped_proto(k)->Ok_0 as u32;
        assert(g.origin_protos.contains_key(i));
        assert(n.origin_protos.dom().contains(i));
    }
    assert forall|k: u32| (#[trigger] m.mapped_field(k)) is Ok implies n.mapped_field(
        m.mapped_field(k)->Ok_0 as u32,
    ) is Ok by {
        let i = m.mapped_field(k)->Ok_0 as u32;
        assert(g.origin_fields.contains_key(i));
        assert(n.origin_fields.dom().contains(i));
    }
    assert forall|k: u32| (#[trigger] m.mapped_method(k)) is Ok implies n.mapped_method(
        m.mapped_method(k)->Ok_0 as u32,
    ) is Ok by {
        let i = m.mapped_method(k)->Ok_0 as u32;
        assert(g.origin_methods.contains_key(i));
        assert(n.origin_methods.dom().contains(i));
    }
}

/// Whether tables are those of the extracted file, and everything in it keeps
/// its index.
pub open spec fn settled(dex: DexTables, descriptor: Seq<char>, n: Tables) -> bool {
    let m = extracted_from(dex, descriptor)->Ok_0.1;
    let t = new_tables(dex, descriptor);
    &&& n.strings == m.strings
    &&& n.types == m.types
    &&& n.protos == m.protos
    &&& n.fields == m.fields
    &&& n.methods == m.methods
    &&& n.ok()
    &&& n.faithful(t)
    &&& n.readable(t)
    &&& fixed(t, n)
    &&& served(dex, m, t, n)
}

/// The tables that a class needs can be gathered from its extracted file, and
/// are those of the file.
#[verifier::spinoff_prover]
pub proof fn lemma_settled(dex: DexTables, descriptor: Seq<char>)
    requires
        extracts_once(dex, descriptor),
        methods_once(members_again(dex, descriptor)),
        new_tables(dex, descriptor).data == extracted_from(dex, descriptor)->Ok_0.0,
        parts_of(
            new_tables(dex, descriptor),
            extracted_def(dex, descriptor),
            members_again(dex, descriptor),
            CodeRefs::empty(),
        ) is Ok,
        ({
            let refs = parts_of(
                new_tables(dex, descriptor),
                extracted_def(dex, descriptor),
                members_again(dex, descriptor),
                CodeRefs::empty(),
            )->Ok_0.1;
            &&& refs.types.no_duplicates()
            &&& refs.protos.no_duplicates()
            &&& refs.fields.no_duplicates()
            &&& refs.methods.no_duplicates()
        }),
    ensures
        ({
            let t = new_tables(dex, descriptor);
            let def = extracted_def(dex, descriptor);
            let again = members_again(dex, descriptor);
            let (new, refs) = parts_of(t, def, again, CodeRefs::empty())->Ok_0;
            let g = gathered(t, def, again, new, refs);
            &&& g is Ok
            &&& settled(dex, descriptor, g->Ok_0.canonical())
        }),
{
    let m = extracted_from(dex, descriptor)->Ok_0.1;
    let t = new_tables(dex, descriptor);
    let def = extracted_def(dex, descriptor);
    let again = members_again(dex, descriptor);
    let (new, refs) = parts_of(t, def, again, CodeRefs::empty())->Ok_0;
    let first = lemma_needed_known(dex, descriptor);
    lemma_needed_same(dex, descriptor);
    lemma_extracted_sorted(dex, descriptor);
    lemma_extracted_layout(dex, descriptor);
    lemma_extracted_tables(dex, descriptor);
    lemma_read_whole(t, m);
    lemma_gathered_fits(t, def, again, new, refs);
    lemma_gathered_holdings(t, def, again, new, refs);
    let g = gathered(t, def, again, new, refs)->Ok_0;
    let n = g.canonical();
    lemma_canonical_faithful(g, t);
    lemma_canonical_readable(g, t);
    lemma_canonical_holds(g);
    lemma_extracted_minimal(dex, descriptor);
    lemma_shorties_settled(t, m, g);
    lemma_canonical_sorted(g);
    lemma_tables_unique(n, m);
    assert(reads_as(t, n));
    lemma_fixed(t, n);
    lemma_extracted_alike(dex, descriptor);
    lemma_served(dex, t, m, first, g);
}

} // verus!
