//! Which code a search looks at.
use vstd::prelude::*;

use crate::dex::{
    class_entry_in, class_entry_reader, class_spans_in, class_step, no_code, skip_field_step,
    span_in, span_step, CodeSpan, DexContents, FoundCode,
};
use crate::dex_format::fields::word;
use crate::dex_format::{bytes_in, uleb_in, DexHeader};
use crate::error::Error;
use crate::minidex::reader::{
    code_in, field_step, member_lists, members_in, method_step, DexTables, EncodedField,
    EncodedMethod, Members,
};
use crate::results::{collect, lemma_collect_ok, repeat, run};

verus! {

/// Where the instructions of a method stand whose code item is at `offset`: four
/// bytes before the sixteenth is their count, and behind them they start.
pub open spec fn body_at(data: Seq<u8>, method_idx: u32, offset: u32) -> CodeSpan {
    CodeSpan {
        method_idx,
        insns_offset: (offset + 16) as u64,
        insns_size: word(data, offset + 12) as u64,
    }
}

/// The bodies of methods, in order; a method without code has none.
pub open spec fn bodies_of(data: Seq<u8>, methods: Seq<EncodedMethod>) -> Seq<CodeSpan>
    decreases methods.len(),
{
    if methods.len() == 0 {
        Seq::empty()
    } else if methods[0].code_off == 0 {
        bodies_of(data, methods.skip(1))
    } else {
        seq![body_at(data, methods[0].method_idx, methods[0].code_off)] + bodies_of(
            data,
            methods.skip(1),
        )
    }
}

proof fn lemma_repeat_longer<S, T>(
    f: spec_fn(S) -> Result<(T, S), Error>,
    s: S,
    n: nat,
    items: Seq<T>,
)
    requires
        repeat(f, s, n, items) is Ok,
    ensures
        repeat(f, s, n, items)->Ok_0.0.len() == items.len() + n,
        forall|i: int| 0 <= i < items.len() ==> repeat(f, s, n, items)->Ok_0.0[i] == items[i],
    decreases n,
{
    if n > 0 {
        let (item, next) = f(s)->Ok_0;
        lemma_repeat_longer(f, next, (n - 1) as nat, items.push(item));
        let list = repeat(f, s, n, items)->Ok_0.0;
        assert forall|i: int| 0 <= i < items.len() implies list[i] == items[i] by {
            assert(list[i] == items.push(item)[i]);
        }
    }
}

proof fn lemma_methods_walked(
    data: Seq<u8>,
    h: DexHeader,
    at: int,
    previous: u32,
    i: int,
    n: int,
    items: Seq<EncodedMethod>,
    s: FoundCode,
)
    requires
        i <= n,
        repeat(method_step(data), (at, previous), (n - i) as nat, items) is Ok,
        run(span_step(data, h), (at, previous, s), i, n) is Ok,
    ensures
        ({
            let read = repeat(method_step(data), (at, previous), (n - i) as nat, items)->Ok_0;
            let found = run(span_step(data, h), (at, previous, s), i, n)->Ok_0;
            &&& found.0 == read.1.0
            &&& found.2.code == s.code + bodies_of(data, read.0.skip(items.len() as int))
        }),
    decreases n - i,
{
    let read = repeat(method_step(data), (at, previous), (n - i) as nat, items)->Ok_0;
    let found = run(span_step(data, h), (at, previous, s), i, n)->Ok_0;
    lemma_repeat_longer(method_step(data), (at, previous), (n - i) as nat, items);
    let tail = read.0.skip(items.len() as int);
    if i == n {
        assert(tail =~= Seq::<EncodedMethod>::empty());
        assert(s.code + bodies_of(data, tail) =~= s.code);
    } else {
        let (item, next) = method_step(data)((at, previous))->Ok_0;
        let step = span_step(data, h)((at, previous, s), i)->Ok_0;
        assert(repeat(method_step(data), next, (n - i - 1) as nat, items.push(item))
            == repeat(method_step(data), (at, previous), (n - i) as nat, items));
        assert(step.0 == next.0 && step.1 == next.1);
        lemma_methods_walked(data, h, step.0, step.1, i + 1, n, items.push(item), step.2);
        lemma_repeat_longer(method_step(data), next, (n - i - 1) as nat, items.push(item));
        assert(read.0[items.len() as int] == items.push(item)[items.len() as int]);
        assert(tail[0] == item);
        assert(tail.skip(1) =~= read.0.skip(items.push(item).len() as int));
        if item.code_off == 0 {
            assert(step.2 == s);
        } else {
            assert(span_in(data, item.method_idx, item.code_off, s) is Ok);
            assert(step.2.code == s.code.push(body_at(data, item.method_idx, item.code_off)));
            assert(found.2.code =~= s.code + bodies_of(data, tail));
        }
    }
}

proof fn lemma_fields_skipped(
    data: Seq<u8>,
    at: int,
    previous: u32,
    n: nat,
    rest: nat,
    items: Seq<EncodedField>,
    marks: Seq<()>,
) -> (more: Seq<()>)
    requires
        repeat(field_step(data), (at, previous), n, items) is Ok,
    ensures
        repeat(skip_field_step(data), at, n + rest, marks) == repeat(
            skip_field_step(data),
            repeat(field_step(data), (at, previous), n, items)->Ok_0.1.0,
            rest,
            more,
        ),
    decreases n,
{
    if n == 0 {
        marks
    } else {
        let (item, next) = field_step(data)((at, previous))->Ok_0;
        let ((), end) = skip_field_step(data)(at)->Ok_0;
        assert(end == next.0);
        lemma_fields_skipped(
            data,
            next.0,
            next.1,
            (n - 1) as nat,
            rest,
            items.push(item),
            marks.push(()),
        )
    }
}

/// A search looks at the code of a class as extraction reads its members: at
/// the code of its direct methods, and at that of its virtual methods.
pub proof fn lemma_class_bodies(data: Seq<u8>, h: DexHeader, offset: u32, s: FoundCode)
    requires
        offset != 0,
        members_in(data, offset) is Ok,
        class_spans_in(data, h, offset as int, s) is Ok,
    ensures
        class_spans_in(data, h, offset as int, s)->Ok_0.code == s.code + bodies_of(
            data,
            members_in(data, offset)->Ok_0.direct_methods,
        ) + bodies_of(data, members_in(data, offset)->Ok_0.virtual_methods),
{
    let (statics, a) = uleb_in(data, offset as int)->Ok_0;
    let (instances, b) = uleb_in(data, a)->Ok_0;
    let (directs, c) = uleb_in(data, b)->Ok_0;
    let (virtuals, d) = uleb_in(data, c)->Ok_0;
    let none = Seq::<EncodedField>::empty();
    let none_yet = Seq::<EncodedMethod>::empty();
    assert(members_in(data, offset) == member_lists(data, d, statics, instances, directs, virtuals));
    let first = repeat(field_step(data), (d, 0u32), statics as nat, none)->Ok_0;
    let second = repeat(field_step(data), (first.1.0, 0u32), instances as nat, none)->Ok_0;
    let more = lemma_fields_skipped(
        data,
        d,
        0,
        statics as nat,
        instances as nat,
        none,
        Seq::<()>::empty(),
    );
    let most = lemma_fields_skipped(data, first.1.0, 0, instances as nat, 0, none, more);
    assert(statics as nat + instances as nat == (statics + instances) as nat);
    assert(repeat(
        skip_field_step(data),
        d,
        (statics + instances) as nat,
        Seq::<()>::empty(),
    )->Ok_0.1 == second.1.0);
    let third = repeat(method_step(data), (second.1.0, 0u32), directs as nat, none_yet)->Ok_0;
    let found = run(span_step(data, h), (second.1.0, 0u32, s), 0, directs as int)->Ok_0;
    lemma_methods_walked(data, h, second.1.0, 0, 0, directs as int, none_yet, s);
    assert(third.0.skip(0) =~= third.0);
    let fourth = repeat(method_step(data), (third.1.0, 0u32), virtuals as nat, none_yet)->Ok_0;
    lemma_methods_walked(data, h, third.1.0, 0, 0, virtuals as int, none_yet, found.2);
    assert(fourth.0.skip(0) =~= fourth.0);
}

proof fn lemma_body_listed(data: Seq<u8>, methods: Seq<EncodedMethod>, j: int)
    requires
        0 <= j < methods.len(),
        methods[j].code_off != 0,
    ensures
        bodies_of(data, methods).contains(
            body_at(data, methods[j].method_idx, methods[j].code_off),
        ),
    decreases methods.len(),
{
    let x = body_at(data, methods[j].method_idx, methods[j].code_off);
    let rest = methods.skip(1);
    let all = bodies_of(data, methods);
    if j == 0 {
        assert(all[0] == x);
    } else {
        assert(rest[j - 1] == methods[j]);
        lemma_body_listed(data, rest, j - 1);
        let k = choose|k: int|
            0 <= k < bodies_of(data, rest).len() && bodies_of(data, rest)[k] == x;
        if methods[0].code_off == 0 {
            assert(all[k] == x);
        } else {
            assert(all[k + 1] == x);
        }
    }
}

proof fn lemma_methods_add(
    data: Seq<u8>,
    h: DexHeader,
    s: (int, u32, FoundCode),
    i: int,
    n: int,
    x: CodeSpan,
)
    requires
        run(span_step(data, h), s, i, n) is Ok,
        s.2.code.contains(x),
    ensures
        run(span_step(data, h), s, i, n)->Ok_0.2.code.contains(x),
    decreases n - i,
{
    if i < n {
        let next = span_step(data, h)(s, i)->Ok_0;
        let k = choose|k: int| 0 <= k < s.2.code.len() && s.2.code[k] == x;
        assert(next.2.code[k] == x);
        lemma_methods_add(data, h, next, i + 1, n, x);
    }
}

proof fn lemma_class_adds(data: Seq<u8>, h: DexHeader, offset: int, s: FoundCode, x: CodeSpan)
    requires
        class_spans_in(data, h, offset, s) is Ok,
        s.code.contains(x),
    ensures
        class_spans_in(data, h, offset, s)->Ok_0.code.contains(x),
{
    let (statics, a) = uleb_in(data, offset)->Ok_0;
    let (instances, b) = uleb_in(data, a)->Ok_0;
    let (directs, c) = uleb_in(data, b)->Ok_0;
    let (virtuals, d) = uleb_in(data, c)->Ok_0;
    let at = repeat(
        skip_field_step(data),
        d,
        (statics + instances) as nat,
        Seq::<()>::empty(),
    )->Ok_0.1;
    let first = run(span_step(data, h), (at, 0u32, s), 0, directs as int)->Ok_0;
    lemma_methods_add(data, h, (at, 0u32, s), 0, directs as int, x);
    lemma_methods_add(data, h, (first.0, 0u32, first.2), 0, virtuals as int, x);
}

proof fn lemma_classes_add(
    data: Seq<u8>,
    h: DexHeader,
    entries: Seq<(u32, u32)>,
    i: int,
    s: FoundCode,
    x: CodeSpan,
)
    requires
        0 <= i <= entries.len(),
        run(class_step(data, h, entries), s, i, entries.len() as int) is Ok,
        s.code.contains(x),
    ensures
        run(class_step(data, h, entries), s, i, entries.len() as int)->Ok_0.code.contains(x),
    decreases entries.len() - i,
{
    if i < entries.len() {
        let next = class_step(data, h, entries)(s, i)->Ok_0;
        if entries[i].1 != 0 {
            lemma_class_adds(data, h, entries[i].1 as int, s, x);
        }
        lemma_classes_add(data, h, entries, i + 1, next, x);
    }
}

proof fn lemma_class_listed(
    data: Seq<u8>,
    h: DexHeader,
    entries: Seq<(u32, u32)>,
    i: int,
    s: FoundCode,
    k: int,
    x: CodeSpan,
)
    requires
        0 <= i <= k < entries.len(),
        run(class_step(data, h, entries), s, i, entries.len() as int) is Ok,
        entries[k].1 != 0,
        members_in(data, entries[k].1) is Ok,
        bodies_of(data, members_in(data, entries[k].1)->Ok_0.direct_methods).contains(x)
            || bodies_of(data, members_in(data, entries[k].1)->Ok_0.virtual_methods).contains(x),
    ensures
        run(class_step(data, h, entries), s, i, entries.len() as int)->Ok_0.code.contains(x),
    decreases entries.len() - i,
{
    let next = class_step(data, h, entries)(s, i)->Ok_0;
    if i < k {
        lemma_class_listed(data, h, entries, i + 1, next, k, x);
    } else {
        let members = members_in(data, entries[k].1)->Ok_0;
        lemma_class_bodies(data, h, entries[k].1, s);
        let directs = bodies_of(data, members.direct_methods);
        let virtuals = bodies_of(data, members.virtual_methods);
        assert(next.code == s.code + directs + virtuals);
        if directs.contains(x) {
            let j = choose|j: int| 0 <= j < directs.len() && directs[j] == x;
            assert(next.code[s.code.len() + j] == x);
        } else {
            let j = choose|j: int| 0 <= j < virtuals.len() && virtuals[j] == x;
            assert(next.code[s.code.len() + directs.len() + j] == x);
        }
        lemma_classes_add(data, h, entries, i + 1, next, x);
    }
}

/// No code is left out of a search: every method that a class of the file lists
/// with code, direct or virtual, has its body among those that are scanned.
pub proof fn lemma_code_complete(
    data: Seq<u8>,
    base: int,
    class: int,
    members: Members,
    m: EncodedMethod,
)
    requires
        DexContents::contents_in(data, base) is Ok,
        0 <= class < DexContents::contents_in(data, base)->Ok_0.tables.header.class_defs_size,
        members_in(
            data,
            word(
                data,
                DexContents::contents_in(data, base)->Ok_0.tables.header.class_defs_off + 32 * class
                    + 24,
            ) as u32,
        ) == Ok::<Members, Error>(members),
        members.direct_methods.contains(m) || members.virtual_methods.contains(m),
        m.code_off != 0,
    ensures
        DexContents::contents_in(data, base)->Ok_0.code.contains(
            body_at(data, m.method_idx, m.code_off),
        ),
{
    let tables = DexTables::tables_in(data, base)->Ok_0;
    let h = tables.header;
    let entries = collect(class_entry_reader(data, h), h.class_defs_size as nat)->Ok_0;
    lemma_collect_ok(class_entry_reader(data, h), h.class_defs_size as nat);
    assert(class_entry_reader(data, h)(class) == class_entry_in(data, h, class));
    assert(entries[class].1 == word(data, h.class_defs_off + 32 * class + 24));
    let x = body_at(data, m.method_idx, m.code_off);
    if members.direct_methods.contains(m) {
        let j = choose|j: int|
            0 <= j < members.direct_methods.len() && members.direct_methods[j] == m;
        lemma_body_listed(data, members.direct_methods, j);
    } else {
        let j = choose|j: int|
            0 <= j < members.virtual_methods.len() && members.virtual_methods[j] == m;
        lemma_body_listed(data, members.virtual_methods, j);
    }
    lemma_class_listed(data, h, entries, 0, no_code(tables.methods.len()), class, x);
}

/// The bytes that a search scans for a method are the instructions that
/// extraction reads from its code item.
pub proof fn lemma_same_instructions(data: Seq<u8>, method_idx: u32, offset: u32)
    requires
        code_in(data, offset as int) is Ok,
    ensures
        ({
            let body = body_at(data, method_idx, offset);
            bytes_in(data, body.insns_offset as int, 2 * body.insns_size) == Ok::<Seq<u8>, Error>(
                code_in(data, offset as int)->Ok_0.insns,
            )
        }),
{
}

} // verus!
