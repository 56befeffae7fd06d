//! The class data of the extracted file, read again.
use vstd::prelude::*;

use crate::collections::{low32, Entries};
use crate::dex_format::uleb_in;
use crate::error::Error;
use crate::minidex::leb::{lemma_uleb_round_trip, stands_at, uleb_bytes};
use crate::minidex::readback::{
    begins_with, lemma_begins_chain, lemma_fields_grow, lemma_methods_grow,
};
use crate::minidex::reader::{
    field_list, field_step, member_lists, members_in, method_list, method_step, EncodedField,
    EncodedMethod, Members,
};
use crate::minidex::sections::{
    field_rank, field_ranks, fields_bytes, fields_in_order, members_bytes, method_rank,
    method_ranks, methods_bytes, methods_in_order, or_zero,
};
use crate::minidex::tables::Tables;
use crate::order::{lemma_sort_order, less_from, lex_less, sort_order};
use crate::results::repeat;

verus! {

/// Fields with their new indices.
pub open spec fn new_fields(fields: Seq<EncodedField>, m: Tables) -> Seq<EncodedField> {
    fields.map_values(
        |f: EncodedField|
            EncodedField {
                field_idx: field_rank(m, f.field_idx),
                access_flags: f.access_flags,
            },
    )
}

/// Methods with their new indices and the new places of their code.
pub open spec fn new_methods(methods: Seq<EncodedMethod>, m: Tables, code: Entries<u32>) -> Seq<
    EncodedMethod,
> {
    methods.map_values(
        |x: EncodedMethod|
            EncodedMethod {
                method_idx: method_rank(m, x.method_idx),
                access_flags: x.access_flags,
                code_off: or_zero(code, x.method_idx),
            },
    )
}

/// The members of a class as the extracted file lists them: in the order of
/// their new indices.
pub open spec fn new_members(c: Members, m: Tables, code: Entries<u32>) -> Members {
    Members {
        static_fields: new_fields(fields_in_order(c.static_fields, m), m),
        instance_fields: new_fields(fields_in_order(c.instance_fields, m), m),
        direct_methods: new_methods(methods_in_order(c.direct_methods, m), m, code),
        virtual_methods: new_methods(methods_in_order(c.virtual_methods, m), m, code),
    }
}

/// A number that was written inside a longer text reads back.
pub proof fn lemma_number_read(file: Seq<u8>, base: int, whole: Seq<u8>, done: Seq<u8>, v: u32)
    requires
        stands_at(file, base, whole),
        begins_with(whole, done + uleb_bytes(v)),
    ensures
        uleb_in(file, base + done.len()) == Ok::<(u32, int), Error>(
            (v, base + done.len() + uleb_bytes(v).len()),
        ),
{
    let part = uleb_bytes(v);
    let at = base + done.len();
    let head = done + part;
    assert forall|i: int| 0 <= i < part.len() implies file[at + i] == #[trigger] part[i] by {
        let k = done.len() + i;
        assert(head[k] == part[i]);
        assert(whole[k] == head[k]);
        assert(file[base + k] == whole[k]);
    }
    lemma_uleb_round_trip(file, at, v);
}

/// Whether the new indices of some fields ascend from `i` on, and start at
/// `previous` or behind it.
spec fn fields_ascend(fields: Seq<EncodedField>, i: int, previous: u32, m: Tables) -> bool {
    &&& forall|j: int, k: int|
        i <= j <= k < fields.len() ==> field_rank(m, (#[trigger] fields[j]).field_idx)
            <= field_rank(m, (#[trigger] fields[k]).field_idx)
    &&& i < fields.len() ==> previous <= field_rank(m, fields[i].field_idx)
}

proof fn lemma_fields_back(
    file: Seq<u8>,
    base: int,
    whole: Seq<u8>,
    fields: Seq<EncodedField>,
    i: int,
    previous: u32,
    m: Tables,
    done: Seq<u8>,
)
    requires
        stands_at(file, base, whole),
        fields_bytes(fields, i, previous, m, done) is Ok,
        begins_with(whole, fields_bytes(fields, i, previous, m, done)->Ok_0),
        0 <= i <= fields.len(),
        fields_ascend(fields, i, previous, m),
    ensures
        repeat(
            field_step(file),
            (base + done.len(), previous),
            (fields.len() - i) as nat,
            new_fields(fields.take(i), m),
        ) matches Ok((items, (end, _))) && items == new_fields(fields, m) && end == base
            + fields_bytes(fields, i, previous, m, done)->Ok_0.len(),
    decreases fields.len() - i,
{
    if i < fields.len() {
        let f = fields[i];
        let index = m.mapped_field(f.field_idx)->Ok_0;
        let delta = (index - previous) as u32;
        let a = done + uleb_bytes(delta);
        let b = a + uleb_bytes(f.access_flags);
        let all = fields_bytes(fields, i, previous, m, done)->Ok_0;
        assert(field_rank(m, f.field_idx) == index as u32);
        lemma_fields_grow(fields, i + 1, index as u32, m, b);
        lemma_begins_chain(b, all, whole);
        assert(begins_with(b, a));
        lemma_begins_chain(a, b, whole);
        lemma_number_read(file, base, whole, done, delta);
        lemma_number_read(file, base, whole, a, f.access_flags);
        let item = EncodedField { field_idx: index as u32, access_flags: f.access_flags };
        assert(field_step(file)((base + done.len(), previous)) == Ok::<
            (EncodedField, (int, u32)),
            Error,
        >((item, (base + b.len(), index as u32))));
        assert(new_fields(fields.take(i), m).push(item) =~= new_fields(fields.take(i + 1), m));
        lemma_fields_back(file, base, whole, fields, i + 1, index as u32, m, b);
    } else {
        assert(fields.take(i) =~= fields);
    }
}

spec fn methods_ascend(methods: Seq<EncodedMethod>, i: int, previous: u32, m: Tables) -> bool {
    &&& forall|j: int, k: int|
        i <= j <= k < methods.len() ==> method_rank(m, (#[trigger] methods[j]).method_idx)
            <= method_rank(m, (#[trigger] methods[k]).method_idx)
    &&& i < methods.len() ==> previous <= method_rank(m, methods[i].method_idx)
}

proof fn lemma_methods_back(
    file: Seq<u8>,
    base: int,
    whole: Seq<u8>,
    methods: Seq<EncodedMethod>,
    i: int,
    previous: u32,
    m: Tables,
    code: Entries<u32>,
    done: Seq<u8>,
)
    requires
        stands_at(file, base, whole),
        methods_bytes(methods, i, previous, m, code, done) is Ok,
        begins_with(whole, methods_bytes(methods, i, previous, m, code, done)->Ok_0),
        0 <= i <= methods.len(),
        methods_ascend(methods, i, previous, m),
    ensures
        repeat(
            method_step(file),
            (base + done.len(), previous),
            (methods.len() - i) as nat,
            new_methods(methods.take(i), m, code),
        ) matches Ok((items, (end, _))) && items == new_methods(methods, m, code) && end == base
            + methods_bytes(methods, i, previous, m, code, done)->Ok_0.len(),
    decreases methods.len() - i,
{
    if i < methods.len() {
        let x = methods[i];
        let index = m.mapped_method(x.method_idx)->Ok_0;
        let delta = (index - previous) as u32;
        let place = or_zero(code, x.method_idx);
        let a = done + uleb_bytes(delta);
        let b = a + uleb_bytes(x.access_flags);
        let c = b + uleb_bytes(place);
        let all = methods_bytes(methods, i, previous, m, code, done)->Ok_0;
        assert(method_rank(m, x.method_idx) == index as u32);
        lemma_methods_grow(methods, i + 1, index as u32, m, code, c);
        lemma_begins_chain(c, all, whole);
        assert(begins_with(c, b));
        lemma_begins_chain(b, c, whole);
        assert(begins_with(b, a));
        lemma_begins_chain(a, b, whole);
        lemma_number_read(file, base, whole, done, delta);
        lemma_number_read(file, base, whole, a, x.access_flags);
        lemma_number_read(file, base, whole, b, place);
        let item = EncodedMethod {
            method_idx: index as u32,
            access_flags: x.access_flags,
            code_off: place,
        };
        assert(method_step(file)((base + done.len(), previous)) == Ok::<
            (EncodedMethod, (int, u32)),
            Error,
        >((item, (base + c.len(), index as u32))));
        assert(new_methods(methods.take(i), m, code).push(item) =~= new_methods(
            methods.take(i + 1),
            m,
            code,
        ));
        lemma_methods_back(file, base, whole, methods, i + 1, index as u32, m, code, c);
    } else {
        assert(methods.take(i) =~= methods);
    }
}

proof fn lemma_ordered_fields(fields: Seq<EncodedField>, m: Tables)
    ensures
        fields_in_order(fields, m).len() == fields.len(),
        fields_ascend(fields_in_order(fields, m), 0, 0, m),
{
    let keys = field_ranks(fields, m);
    let order = sort_order(keys, fields.len());
    let sorted = fields_in_order(fields, m);
    lemma_sort_order(keys, fields.len());
    assert forall|j: int, k: int| 0 <= j <= k < sorted.len() implies field_rank(
        m,
        (#[trigger] sorted[j]).field_idx,
    ) <= field_rank(m, (#[trigger] sorted[k]).field_idx) by {
        if j < k {
            reveal_with_fuel(less_from, 3);
            let a = keys[order[j]];
            let b = keys[order[k]];
            assert(lex_less(a, b) || a == b);
            assert(a[0] <= b[0]);
        }
    }
}

proof fn lemma_ordered_methods(methods: Seq<EncodedMethod>, m: Tables)
    ensures
        methods_in_order(methods, m).len() == methods.len(),
        methods_ascend(methods_in_order(methods, m), 0, 0, m),
{
    let keys = method_ranks(methods, m);
    let order = sort_order(keys, methods.len());
    let sorted = methods_in_order(methods, m);
    lemma_sort_order(keys, methods.len());
    assert forall|j: int, k: int| 0 <= j <= k < sorted.len() implies method_rank(
        m,
        (#[trigger] sorted[j]).method_idx,
    ) <= method_rank(m, (#[trigger] sorted[k]).method_idx) by {
        if j < k {
            reveal_with_fuel(less_from, 3);
            let a = keys[order[j]];
            let b = keys[order[k]];
            assert(lex_less(a, b) || a == b);
            assert(a[0] <= b[0]);
        }
    }
}

/// Every field takes at least two bytes.
proof fn lemma_fields_length(
    fields: Seq<EncodedField>,
    i: int,
    previous: u32,
    m: Tables,
    done: Seq<u8>,
)
    requires
        fields_bytes(fields, i, previous, m, done) is Ok,
        0 <= i <= fields.len(),
    ensures
        done.len() + fields.len() - i <= fields_bytes(fields, i, previous, m, done)->Ok_0.len(),
    decreases fields.len() - i,
{
    if i < fields.len() {
        let index = m.mapped_field(fields[i].field_idx)->Ok_0;
        let more = done + uleb_bytes((index - previous) as u32) + uleb_bytes(
            fields[i].access_flags,
        );
        lemma_fields_length(fields, i + 1, index as u32, m, more);
    }
}

proof fn lemma_methods_length(
    methods: Seq<EncodedMethod>,
    i: int,
    previous: u32,
    m: Tables,
    code: Entries<u32>,
    done: Seq<u8>,
)
    requires
        methods_bytes(methods, i, previous, m, code, done) is Ok,
        0 <= i <= methods.len(),
    ensures
        done.len() + methods.len() - i <= methods_bytes(
            methods,
            i,
            previous,
            m,
            code,
            done,
        )->Ok_0.len(),
    decreases methods.len() - i,
{
    if i < methods.len() {
        let index = m.mapped_method(methods[i].method_idx)->Ok_0;
        let more = done + uleb_bytes((index - previous) as u32) + uleb_bytes(
            methods[i].access_flags,
        ) + uleb_bytes(or_zero(code, methods[i].method_idx));
        lemma_methods_length(methods, i + 1, index as u32, m, code, more);
    }
}

proof fn lemma_field_list_back(
    file: Seq<u8>,
    base: int,
    whole: Seq<u8>,
    fields: Seq<EncodedField>,
    m: Tables,
    done: Seq<u8>,
)
    requires
        stands_at(file, base, whole),
        whole.len() <= u32::MAX,
        fields_bytes(fields_in_order(fields, m), 0, 0, m, done) is Ok,
        begins_with(whole, fields_bytes(fields_in_order(fields, m), 0, 0, m, done)->Ok_0),
    ensures
        field_list(file, base + done.len(), low32(fields.len() as int)) matches Ok((items, (end, _)))
            && items == new_fields(fields_in_order(fields, m), m) && end == base + fields_bytes(
            fields_in_order(fields, m),
            0,
            0,
            m,
            done,
        )->Ok_0.len(),
        begins_with(whole, done),
{
    let sorted = fields_in_order(fields, m);
    let all = fields_bytes(sorted, 0, 0, m, done)->Ok_0;
    lemma_ordered_fields(fields, m);
    lemma_fields_length(sorted, 0, 0, m, done);
    lemma_fields_grow(sorted, 0, 0, m, done);
    lemma_begins_chain(done, all, whole);
    assert(new_fields(sorted.take(0), m) =~= Seq::<EncodedField>::empty());
    lemma_fields_back(file, base, whole, sorted, 0, 0, m, done);
}

proof fn lemma_method_list_back(
    file: Seq<u8>,
    base: int,
    whole: Seq<u8>,
    methods: Seq<EncodedMethod>,
    m: Tables,
    code: Entries<u32>,
    done: Seq<u8>,
)
    requires
        stands_at(file, base, whole),
        whole.len() <= u32::MAX,
        methods_bytes(methods_in_order(methods, m), 0, 0, m, code, done) is Ok,
        begins_with(whole, methods_bytes(methods_in_order(methods, m), 0, 0, m, code, done)->Ok_0),
    ensures
        method_list(file, base + done.len(), low32(methods.len() as int)) matches Ok(
            (items, (end, _)),
        ) && items == new_methods(methods_in_order(methods, m), m, code) && end == base
            + methods_bytes(methods_in_order(methods, m), 0, 0, m, code, done)->Ok_0.len(),
        begins_with(whole, done),
{
    let sorted = methods_in_order(methods, m);
    let all = methods_bytes(sorted, 0, 0, m, code, done)->Ok_0;
    lemma_ordered_methods(methods, m);
    lemma_methods_length(sorted, 0, 0, m, code, done);
    lemma_methods_grow(sorted, 0, 0, m, code, done);
    lemma_begins_chain(done, all, whole);
    assert(new_methods(sorted.take(0), m, code) =~= Seq::<EncodedMethod>::empty());
    lemma_methods_back(file, base, whole, sorted, 0, 0, m, code, done);
}

proof fn lemma_counts_back(
    file: Seq<u8>,
    base: int,
    whole: Seq<u8>,
    done: Seq<u8>,
    n1: u32,
    n2: u32,
    n3: u32,
    n4: u32,
)
    requires
        stands_at(file, base, whole),
        begins_with(
            whole,
            done + uleb_bytes(n1) + uleb_bytes(n2) + uleb_bytes(n3) + uleb_bytes(n4),
        ),
    ensures
        ({
            let a = base + done.len();
            let b = a + uleb_bytes(n1).len();
            let c = b + uleb_bytes(n2).len();
            let d = c + uleb_bytes(n3).len();
            &&& uleb_in(file, a) == Ok::<(u32, int), Error>((n1, b))
            &&& uleb_in(file, b) == Ok::<(u32, int), Error>((n2, c))
            &&& uleb_in(file, c) == Ok::<(u32, int), Error>((n3, d))
            &&& uleb_in(file, d) == Ok::<(u32, int), Error>((n4, d + uleb_bytes(n4).len()))
        }),
{
    let h1 = done + uleb_bytes(n1);
    let h2 = h1 + uleb_bytes(n2);
    let h3 = h2 + uleb_bytes(n3);
    let h4 = h3 + uleb_bytes(n4);
    assert(begins_with(h4, h3));
    lemma_begins_chain(h3, h4, whole);
    assert(begins_with(h3, h2));
    lemma_begins_chain(h2, h3, whole);
    assert(begins_with(h2, h1));
    lemma_begins_chain(h1, h2, whole);
    lemma_number_read(file, base, whole, done, n1);
    lemma_number_read(file, base, whole, h1, n2);
    lemma_number_read(file, base, whole, h2, n3);
    lemma_number_read(file, base, whole, h3, n4);
}

/// The class data that was written behind `done` reads back as the members
/// with their new indices.
#[verifier::spinoff_prover]
pub proof fn lemma_members_back(
    file: Seq<u8>,
    base: int,
    c: Members,
    m: Tables,
    code: Entries<u32>,
    done: Seq<u8>,
    offset: u32,
)
    requires
        members_bytes(c, m, code, done) is Ok,
        stands_at(file, base, members_bytes(c, m, code, done)->Ok_0),
        members_bytes(c, m, code, done)->Ok_0.len() <= u32::MAX,
        offset == base + done.len(),
        offset != 0,
    ensures
        members_in(file, offset) == Ok::<Members, Error>(new_members(c, m, code)),
{
    let whole = members_bytes(c, m, code, done)->Ok_0;
    let n1 = low32(c.static_fields.len() as int);
    let n2 = low32(c.instance_fields.len() as int);
    let n3 = low32(c.direct_methods.len() as int);
    let n4 = low32(c.virtual_methods.len() as int);
    let head = done + uleb_bytes(n1) + uleb_bytes(n2) + uleb_bytes(n3) + uleb_bytes(n4);
    let p1 = fields_bytes(fields_in_order(c.static_fields, m), 0, 0, m, head)->Ok_0;
    let p2 = fields_bytes(fields_in_order(c.instance_fields, m), 0, 0, m, p1)->Ok_0;
    let p3 = methods_bytes(methods_in_order(c.direct_methods, m), 0, 0, m, code, p2)->Ok_0;
    assert(begins_with(whole, whole));
    lemma_method_list_back(file, base, whole, c.virtual_methods, m, code, p3);
    lemma_method_list_back(file, base, whole, c.direct_methods, m, code, p2);
    lemma_field_list_back(file, base, whole, c.instance_fields, m, p1);
    lemma_field_list_back(file, base, whole, c.static_fields, m, head);
    lemma_counts_back(file, base, whole, done, n1, n2, n3, n4);
    assert(member_lists(file, base + head.len(), n1, n2, n3, n4) == Ok::<Members, Error>(
        new_members(c, m, code),
    ));
}

} // verus!
