//! A class that is extracted from its extracted file is written as it stands.
use vstd::prelude::*;

use crate::collections::{low32, Entries};
use crate::minidex::leb::uleb_bytes;
use crate::minidex::members::{new_fields, new_members, new_methods};
use crate::minidex::reader::{DexTables, EncodedField, EncodedMethod, Members};
use crate::minidex::recode::lemma_sorted_picked;
use crate::minidex::recount::ids_apart;
use crate::minidex::rewrite::{fixed, served};
use crate::minidex::sections::{
    field_rank, field_ranks, fields_bytes, fields_in_order, members_bytes, method_rank,
    method_ranks, methods_bytes, methods_in_order, or_zero,
};
use crate::minidex::tables::Tables;
use crate::minidex::unique::{ascends, lemma_ascending_unique};
use crate::minidex::wholes::{
    lemma_method_back, lemma_method_forth, lemma_picked_back, lemma_picked_forth, methods_once,
    new_method,
};
use crate::order::{lemma_sort_order, less_from, lex_less, sort_order};

verus! {

// ---------------------------------------------------------------------------
// Members in order
// ---------------------------------------------------------------------------

/// One-word keys are ordered as their words.
proof fn lemma_one_word(a: u32, b: u32)
    ensures
        lex_less(seq![a], seq![b]) <==> a < b,
{
    reveal_with_fuel(less_from, 2);
}

/// Whether every method of a list has an index, and a different one.
spec fn ranks_apart(methods: Seq<EncodedMethod>, m: Tables) -> bool {
    forall|i: int, j: int|
        0 <= i < j < methods.len() ==> method_rank(m, (#[trigger] methods[i]).method_idx)
            != method_rank(m, (#[trigger] methods[j]).method_idx)
}

/// Methods whose indices differ ascend when they are put in order.
proof fn lemma_in_order(methods: Seq<EncodedMethod>, m: Tables)
    requires
        ranks_apart(methods, m),
    ensures
        ({
            let list = methods_in_order(methods, m);
            &&& list.len() == methods.len()
            &&& forall|i: int, j: int|
                0 <= i < j < list.len() ==> method_rank(m, (#[trigger] list[i]).method_idx)
                    < method_rank(m, (#[trigger] list[j]).method_idx)
        }),
{
    let keys = method_ranks(methods, m);
    let walk = sort_order(keys, methods.len());
    let list = methods_in_order(methods, m);
    lemma_sort_order(keys, methods.len());
    assert forall|i: int, j: int| 0 <= i < j < list.len() implies method_rank(
        m,
        (#[trigger] list[i]).method_idx,
    ) < method_rank(m, (#[trigger] list[j]).method_idx) by {
        let p = walk[i];
        let q = walk[j];
        assert(list[i] == methods[p] && list[j] == methods[q]);
        let x = method_rank(m, methods[p].method_idx);
        let y = method_rank(m, methods[q].method_idx);
        assert(keys[p] == seq![x] && keys[q] == seq![y]);
        assert(p != q);
        if p < q {
            assert(method_rank(m, methods[p].method_idx) != method_rank(m, methods[q].method_idx));
        } else {
            assert(method_rank(m, methods[q].method_idx) != method_rank(m, methods[p].method_idx));
        }
        lemma_one_word(x, y);
        assert(seq![x][0] == x && seq![y][0] == y);
    }
}

/// Where a method went among those of a list that were put in order.
proof fn lemma_place_in_order(methods: Seq<EncodedMethod>, m: Tables, i: int) -> (j: int)
    requires
        0 <= i < methods.len(),
    ensures
        0 <= j < methods.len(),
        sort_order(method_ranks(methods, m), methods.len())[j] == i,
        methods_in_order(methods, m)[j] == methods[i],
{
    let walk = sort_order(method_ranks(methods, m), methods.len());
    lemma_sort_order(method_ranks(methods, m), methods.len());
    assert(walk.contains(i));
    choose|j: int| 0 <= j < walk.len() && walk[j] == i
}

/// Where a method of a class went.
proof fn lemma_method_place(c: Members, m: Tables, code: Entries<u32>, i: int) -> (j: int)
    requires
        0 <= i < c.methods().len(),
    ensures
        0 <= j < new_members(c, m, code).methods().len(),
        new_members(c, m, code).methods()[j] == new_method(c.methods()[i], m, code),
        ({
            let a = c.direct_methods;
            let b = c.virtual_methods;
            if i < a.len() {
                &&& j < a.len()
                &&& sort_order(method_ranks(a, m), a.len())[j] == i
            } else {
                &&& a.len() <= j
                &&& sort_order(method_ranks(b, m), b.len())[j - a.len()] == i - a.len()
            }
        }),
{
    let a = c.direct_methods;
    let b = c.virtual_methods;
    let all = new_members(c, m, code).methods();
    lemma_sort_order(method_ranks(a, m), a.len());
    lemma_sort_order(method_ranks(b, m), b.len());
    if i < a.len() {
        let j = lemma_place_in_order(a, m, i);
        assert(all[j] == new_members(c, m, code).direct_methods[j]);
        j
    } else {
        let j = lemma_place_in_order(b, m, i - a.len());
        assert(all[a.len() + j] == new_members(c, m, code).virtual_methods[j]);
        a.len() + j
    }
}

/// Where a class lists no method twice when it was written, its methods have
/// different indices.
proof fn lemma_ranks_apart(c: Members, m: Tables, code: Entries<u32>)
    requires
        methods_once(new_members(c, m, code)),
    ensures
        ranks_apart(c.methods(), m),
{
    let all = new_members(c, m, code).methods();
    assert forall|p: int, q: int| 0 <= p < q < c.methods().len() implies method_rank(
        m,
        (#[trigger] c.methods()[p]).method_idx,
    ) != method_rank(m, (#[trigger] c.methods()[q]).method_idx) by {
        let i = lemma_method_place(c, m, code, p);
        let j = lemma_method_place(c, m, code, q);
        assert(i != j);
        if i < j {
            assert(all[i].method_idx != all[j].method_idx);
        } else {
            assert(all[j].method_idx != all[i].method_idx);
        }
    }
}

/// A class that lists no method twice when it was written lists none twice.
pub proof fn lemma_once_before(c: Members, m: Tables, code: Entries<u32>)
    requires
        methods_once(new_members(c, m, code)),
    ensures
        methods_once(c),
{
    lemma_ranks_apart(c, m, code);
    assert forall|i: int, j: int| 0 <= i < j < c.methods().len() implies (
    #[trigger] c.methods()[i]).method_idx != (#[trigger] c.methods()[j]).method_idx by {
        assert(method_rank(m, c.methods()[i].method_idx) != method_rank(
            m,
            c.methods()[j].method_idx,
        ));
    }
}

/// The methods of a class and of the written class, both in order, go together.
#[verifier::spinoff_prover]
pub proof fn lemma_methods_paired(
    c: Members,
    m: Tables,
    code: Entries<u32>,
    dex: DexTables,
    t: DexTables,
    n: Tables,
)
    requires
        methods_once(c),
        methods_once(new_members(c, m, code)),
        fixed(t, n),
        served(dex, m, t, n),
        forall|j: int|
            0 <= j < c.methods().len() ==> m.mapped_method(
                (#[trigger] c.methods()[j]).method_idx,
            ) is Ok,
    ensures
        ({
            let a = methods_in_order(c.methods(), m);
            let b = methods_in_order(new_members(c, m, code).methods(), n);
            &&& a.len() == b.len()
            &&& ids_apart(a)
            &&& ids_apart(b)
            &&& forall|i: int| 0 <= i < a.len() ==> #[trigger] b[i] == new_method(a[i], m, code)
        }),
{
    let old = c.methods();
    let new = new_members(c, m, code).methods();
    let a = methods_in_order(old, m);
    let b = methods_in_order(new, n);
    let f = |x: EncodedMethod| new_method(x, m, code);
    let mapped = a.map_values(f);
    let key = |x: EncodedMethod| seq![x.method_idx];
    lemma_ranks_apart(c, m, code);
    lemma_in_order(old, m);
    assert forall|j: int| 0 <= j < new.len() implies method_rank(
        n,
        (#[trigger] new[j]).method_idx,
    ) == new[j].method_idx by {
        let i = lemma_method_back(c, m, code, j);
        assert(m.mapped_method(old[i].method_idx) is Ok);
        assert(n.mapped_method(new[j].method_idx) is Ok);
    }
    lemma_in_order(new, n);
    assert forall|i: int| 0 <= i < b.len() implies method_rank(n, (#[trigger] b[i]).method_idx)
        == b[i].method_idx by {
        let j = lemma_picked_back(new, method_ranks(new, n), i);
        assert(method_rank(n, new[j].method_idx) == new[j].method_idx);
    }
    assert(ascends(key, mapped)) by {
        assert forall|i: int, j: int|
            #![trigger mapped[i], mapped[j]]
            0 <= i < j < mapped.len() implies lex_less(key(mapped[i]), key(mapped[j])) by {
            assert(method_rank(m, a[i].method_idx) < method_rank(m, a[j].method_idx));
            lemma_one_word(mapped[i].method_idx, mapped[j].method_idx);
        }
    }
    assert(ascends(key, b)) by {
        assert forall|i: int, j: int|
            #![trigger b[i], b[j]]
            0 <= i < j < b.len() implies lex_less(key(b[i]), key(b[j])) by {
            assert(method_rank(n, b[i].method_idx) < method_rank(n, b[j].method_idx));
            lemma_one_word(b[i].method_idx, b[j].method_idx);
        }
    }
    assert(mapped.to_set() =~= b.to_set()) by {
        assert forall|y: EncodedMethod| #[trigger] mapped.to_set().contains(y) implies b.to_set().contains(
            y,
        ) by {
            let i = choose|i: int| 0 <= i < mapped.len() && mapped[i] == y;
            let p = lemma_picked_back(old, method_ranks(old, m), i);
            let j = lemma_method_forth(c, m, code, p);
            let k = lemma_picked_forth(new, method_ranks(new, n), j);
            assert(b[k] == y);
        }
        assert forall|y: EncodedMethod| #[trigger] b.to_set().contains(y) implies mapped.to_set().contains(
            y,
        ) by {
            let k = choose|k: int| 0 <= k < b.len() && b[k] == y;
            let j = lemma_picked_back(new, method_ranks(new, n), k);
            let p = lemma_method_back(c, m, code, j);
            let i = lemma_picked_forth(old, method_ranks(old, m), p);
            assert(mapped[i] == y);
        }
    }
    lemma_ascending_unique(key, mapped, b);
    assert forall|i: int, j: int| 0 <= i < j < a.len() implies (#[trigger] a[i]).method_idx != (
    #[trigger] a[j]).method_idx by {
        assert(method_rank(m, a[i].method_idx) < method_rank(m, a[j].method_idx));
    }
    assert forall|i: int, j: int| 0 <= i < j < b.len() implies (#[trigger] b[i]).method_idx != (
    #[trigger] b[j]).method_idx by {
        assert(method_rank(n, b[i].method_idx) < method_rank(n, b[j].method_idx));
    }
    assert forall|i: int| 0 <= i < a.len() implies #[trigger] b[i] == new_method(a[i], m, code) by {
        assert(b[i] == mapped[i]);
    }
}

// ---------------------------------------------------------------------------
// Class data
// ---------------------------------------------------------------------------

/// Fields that were put in order stay in order.
proof fn lemma_fields_stay(fields: Seq<EncodedField>, m: Tables, n: Tables)
    requires
        forall|j: int|
            0 <= j < fields.len() ==> field_rank(n, field_rank(m, (#[trigger] fields[j]).field_idx))
                == field_rank(m, fields[j].field_idx),
    ensures
        ({
            let new = new_fields(fields_in_order(fields, m), m);
            &&& new.len() == fields.len()
            &&& fields_in_order(new, n) == new
        }),
{
    let keys = field_ranks(fields, m);
    let walk = sort_order(keys, fields.len());
    let new = new_fields(fields_in_order(fields, m), m);
    let again = field_ranks(new, n);
    lemma_sort_order(keys, fields.len());
    assert forall|i: int| 0 <= i < new.len() implies #[trigger] again[i] == keys[walk[i]] by {
        assert(field_rank(n, field_rank(m, fields[walk[i]].field_idx)) == field_rank(
            m,
            fields[walk[i]].field_idx,
        ));
        assert(again[i] =~= keys[walk[i]]);
    }
    assert forall|i: int, j: int|
        #![trigger again[i], again[j]]
        0 <= i < j < again.len() implies !lex_less(again[j], again[i]) by {
        let x = field_rank(m, fields[walk[i]].field_idx);
        let y = field_rank(m, fields[walk[j]].field_idx);
        assert(again[i] == seq![x] && again[j] == seq![y]);
        assert(keys[walk[i]] == seq![x] && keys[walk[j]] == seq![y]);
        lemma_one_word(x, y);
        lemma_one_word(y, x);
        assert(seq![x][0] == x && seq![y][0] == y);
    }
    lemma_sorted_picked(new, again);
}

/// Methods that were put in order stay in order.
proof fn lemma_methods_stay(methods: Seq<EncodedMethod>, m: Tables, code: Entries<u32>, n: Tables)
    requires
        forall|j: int|
            0 <= j < methods.len() ==> method_rank(
                n,
                method_rank(m, (#[trigger] methods[j]).method_idx),
            ) == method_rank(m, methods[j].method_idx),
    ensures
        ({
            let new = new_methods(methods_in_order(methods, m), m, code);
            &&& new.len() == methods.len()
            &&& methods_in_order(new, n) == new
        }),
{
    let keys = method_ranks(methods, m);
    let walk = sort_order(keys, methods.len());
    let new = new_methods(methods_in_order(methods, m), m, code);
    let again = method_ranks(new, n);
    lemma_sort_order(keys, methods.len());
    assert forall|i: int| 0 <= i < new.len() implies #[trigger] again[i] == keys[walk[i]] by {
        assert(method_rank(n, method_rank(m, methods[walk[i]].method_idx)) == method_rank(
            m,
            methods[walk[i]].method_idx,
        ));
        assert(again[i] =~= keys[walk[i]]);
    }
    assert forall|i: int, j: int|
        #![trigger again[i], again[j]]
        0 <= i < j < again.len() implies !lex_less(again[j], again[i]) by {
        let x = method_rank(m, methods[walk[i]].method_idx);
        let y = method_rank(m, methods[walk[j]].method_idx);
        assert(again[i] == seq![x] && again[j] == seq![y]);
        assert(keys[walk[i]] == seq![x] && keys[walk[j]] == seq![y]);
        lemma_one_word(x, y);
        lemma_one_word(y, x);
        assert(seq![x][0] == x && seq![y][0] == y);
    }
    lemma_sorted_picked(new, again);
}

/// Fields are written the same twice.
proof fn lemma_fields_twice(
    fields: Seq<EncodedField>,
    i: int,
    previous: u32,
    dex: DexTables,
    m: Tables,
    t: DexTables,
    n: Tables,
    done: Seq<u8>,
)
    requires
        0 <= i,
        fixed(t, n),
        served(dex, m, t, n),
        fields_bytes(fields, i, previous, m, done) is Ok,
    ensures
        fields_bytes(new_fields(fields, m), i, previous, n, done) == fields_bytes(
            fields,
            i,
            previous,
            m,
            done,
        ),
    decreases fields.len() - i,
{
    if i < fields.len() {
        let index = m.mapped_field(fields[i].field_idx)->Ok_0;
        assert(m.mapped_field(fields[i].field_idx) is Ok);
        assert(new_fields(fields, m)[i].field_idx == index as u32);
        assert(n.mapped_field(index as u32) is Ok);
        lemma_fields_twice(
            fields,
            i + 1,
            index as u32,
            dex,
            m,
            t,
            n,
            done + uleb_bytes((index - previous) as u32) + uleb_bytes(fields[i].access_flags),
        );
    }
}

/// Methods are written the same twice, where their code stands at the same
/// places.
proof fn lemma_methods_twice(
    methods: Seq<EncodedMethod>,
    i: int,
    previous: u32,
    dex: DexTables,
    m: Tables,
    t: DexTables,
    n: Tables,
    code: Entries<u32>,
    again: Entries<u32>,
    done: Seq<u8>,
)
    requires
        0 <= i,
        fixed(t, n),
        served(dex, m, t, n),
        methods_bytes(methods, i, previous, m, code, done) is Ok,
        forall|j: int|
            0 <= j < methods.len() ==> or_zero(
                again,
                method_rank(m, (#[trigger] methods[j]).method_idx),
            ) == or_zero(code, methods[j].method_idx),
    ensures
        methods_bytes(new_methods(methods, m, code), i, previous, n, again, done) == methods_bytes(
            methods,
            i,
            previous,
            m,
            code,
            done,
        ),
    decreases methods.len() - i,
{
    if i < methods.len() {
        let index = m.mapped_method(methods[i].method_idx)->Ok_0;
        assert(m.mapped_method(methods[i].method_idx) is Ok);
        assert(new_methods(methods, m, code)[i].method_idx == index as u32);
        assert(n.mapped_method(index as u32) is Ok);
        lemma_methods_twice(
            methods,
            i + 1,
            index as u32,
            dex,
            m,
            t,
            n,
            code,
            again,
            done + uleb_bytes((index - previous) as u32) + uleb_bytes(methods[i].access_flags)
                + uleb_bytes(or_zero(code, methods[i].method_idx)),
        );
    }
}

/// Class data is written the same twice.
#[verifier::spinoff_prover]
pub proof fn lemma_members_twice(
    c: Members,
    dex: DexTables,
    m: Tables,
    t: DexTables,
    n: Tables,
    code: Entries<u32>,
    again: Entries<u32>,
    done: Seq<u8>,
)
    requires
        fixed(t, n),
        served(dex, m, t, n),
        members_bytes(c, m, code, done) is Ok,
        forall|j: int|
            0 <= j < c.fields().len() ==> m.mapped_field((#[trigger] c.fields()[j]).field_idx) is Ok,
        forall|j: int|
            0 <= j < c.methods().len() ==> m.mapped_method(
                (#[trigger] c.methods()[j]).method_idx,
            ) is Ok,
        forall|j: int|
            0 <= j < c.methods().len() ==> or_zero(
                again,
                method_rank(m, (#[trigger] c.methods()[j]).method_idx),
            ) == or_zero(code, c.methods()[j].method_idx),
    ensures
        members_bytes(new_members(c, m, code), n, again, done) == members_bytes(c, m, code, done),
        new_members(c, m, code).fields().len() == c.fields().len(),
        new_members(c, m, code).methods().len() == c.methods().len(),
{
    let head = done + uleb_bytes(low32(c.static_fields.len() as int)) + uleb_bytes(
        low32(c.instance_fields.len() as int),
    ) + uleb_bytes(low32(c.direct_methods.len() as int)) + uleb_bytes(
        low32(c.virtual_methods.len() as int),
    );
    let w = fields_in_order(c.static_fields, m);
    let x = fields_in_order(c.instance_fields, m);
    let y = methods_in_order(c.direct_methods, m);
    let z = methods_in_order(c.virtual_methods, m);
    let a = fields_bytes(w, 0, 0, m, head)->Ok_0;
    let b = fields_bytes(x, 0, 0, m, a)->Ok_0;
    let d = methods_bytes(y, 0, 0, m, code, b)->Ok_0;
    assert forall|j: int| 0 <= j < c.static_fields.len() implies field_rank(
        n,
        field_rank(m, (#[trigger] c.static_fields[j]).field_idx),
    ) == field_rank(m, c.static_fields[j].field_idx) by {
        assert(c.fields()[j] == c.static_fields[j]);
        assert(m.mapped_field(c.static_fields[j].field_idx) is Ok);
    }
    assert forall|j: int| 0 <= j < c.instance_fields.len() implies field_rank(
        n,
        field_rank(m, (#[trigger] c.instance_fields[j]).field_idx),
    ) == field_rank(m, c.instance_fields[j].field_idx) by {
        assert(c.fields()[c.static_fields.len() + j] == c.instance_fields[j]);
        assert(m.mapped_field(c.instance_fields[j].field_idx) is Ok);
    }
    assert forall|j: int| 0 <= j < c.direct_methods.len() implies method_rank(
        n,
        method_rank(m, (#[trigger] c.direct_methods[j]).method_idx),
    ) == method_rank(m, c.direct_methods[j].method_idx) by {
        assert(c.methods()[j] == c.direct_methods[j]);
        assert(m.mapped_method(c.direct_methods[j].method_idx) is Ok);
    }
    assert forall|j: int| 0 <= j < c.virtual_methods.len() implies method_rank(
        n,
        method_rank(m, (#[trigger] c.virtual_methods[j]).method_idx),
    ) == method_rank(m, c.virtual_methods[j].method_idx) by {
        assert(c.methods()[c.direct_methods.len() + j] == c.virtual_methods[j]);
        assert(m.mapped_method(c.virtual_methods[j].method_idx) is Ok);
    }
    lemma_fields_stay(c.static_fields, m, n);
    lemma_fields_stay(c.instance_fields, m, n);
    lemma_methods_stay(c.direct_methods, m, code, n);
    lemma_methods_stay(c.virtual_methods, m, code, n);
    lemma_fields_twice(w, 0, 0, dex, m, t, n, head);
    lemma_fields_twice(x, 0, 0, dex, m, t, n, a);
    assert forall|j: int| 0 <= j < y.len() implies or_zero(
        again,
        method_rank(m, (#[trigger] y[j]).method_idx),
    ) == or_zero(code, y[j].method_idx) by {
        let i = lemma_picked_back(c.direct_methods, method_ranks(c.direct_methods, m), j);
        assert(c.methods()[i] == y[j]);
    }
    assert forall|j: int| 0 <= j < z.len() implies or_zero(
        again,
        method_rank(m, (#[trigger] z[j]).method_idx),
    ) == or_zero(code, z[j].method_idx) by {
        let i = lemma_picked_back(c.virtual_methods, method_ranks(c.virtual_methods, m), j);
        assert(c.methods()[c.direct_methods.len() + i] == z[j]);
    }
    lemma_methods_twice(y, 0, 0, dex, m, t, n, code, again, b);
    lemma_methods_twice(z, 0, 0, dex, m, t, n, code, again, d);
}

} // verus!
