//! The code that a search finds in class data is the code of the methods that
//! the class data lists.
use vstd::prelude::*;

use crate::dex::{
    class_entry_reader, class_spans_in, class_step, no_code, skip_field_step, span_step, spans_in,
    CodeSpan, DexContents, FoundCode,
};
use crate::dex_format::{bytes_in, u32_in, uleb_in, DexHeader};
use crate::error::Error;
use crate::minidex::reader::{
    code_in, field_list, field_step, members_in, method_list, method_step, word_reader, ClassDef,
    DexTables, EncodedField, EncodedMethod,
};
use crate::results::{collect, lemma_collect_ok, repeat, run};

verus! {

/// The code of a method, as a search knows it.
pub open spec fn span_of(data: Seq<u8>, x: EncodedMethod) -> CodeSpan {
    CodeSpan {
        method_idx: x.method_idx,
        insns_offset: (x.code_off + 16) as u64,
        insns_size: u32_in(data, x.code_off + 12)->Ok_0 as u64,
    }
}

/// The code of those of the first `n` methods that have any.
pub open spec fn spans_of(data: Seq<u8>, methods: Seq<EncodedMethod>, n: nat) -> Seq<CodeSpan>
    decreases n,
{
    if n == 0 {
        Seq::empty()
    } else if methods[n - 1].code_off == 0 {
        spans_of(data, methods, (n - 1) as nat)
    } else {
        spans_of(data, methods, (n - 1) as nat).push(span_of(data, methods[n - 1]))
    }
}

/// Whether a search can read a method: there is one with its index, and its
/// code is in the file.
pub open spec fn method_fits(data: Seq<u8>, h: DexHeader, x: EncodedMethod) -> bool {
    &&& x.method_idx < h.method_ids_size
    &&& x.code_off != 0 ==> {
        &&& u32_in(data, x.code_off + 12) is Ok
        &&& bytes_in(data, x.code_off + 16, u32_in(data, x.code_off + 12)->Ok_0 * 2) is Ok
    }
}

/// A code item has its instructions where a search looks for them.
pub proof fn lemma_code_span(data: Seq<u8>, offset: int)
    requires
        code_in(data, offset) is Ok,
    ensures
        u32_in(data, offset + 12) is Ok,
        bytes_in(data, offset + 16, u32_in(data, offset + 12)->Ok_0 * 2) == Ok::<Seq<u8>, Error>(
            code_in(data, offset)->Ok_0.insns,
        ),
{
}

// ---------------------------------------------------------------------------
// Method lists
// ---------------------------------------------------------------------------

proof fn lemma_repeat_items<S, T>(
    f: spec_fn(S) -> Result<(T, S), Error>,
    s: S,
    n: nat,
    items: Seq<T>,
)
    requires
        repeat(f, s, n, items) is Ok,
    ensures
        repeat(f, s, n, items)->Ok_0.0.len() == items.len() + n,
        forall|i: int|
            0 <= i < items.len() ==> #[trigger] repeat(f, s, n, items)->Ok_0.0[i] == items[i],
    decreases n,
{
    if n > 0 {
        let (item, next) = f(s)->Ok_0;
        lemma_repeat_items(f, next, (n - 1) as nat, items.push(item));
        assert forall|i: int| 0 <= i < items.len() implies #[trigger] repeat(
            f,
            s,
            n,
            items,
        )->Ok_0.0[i] == items[i] by {
            assert(items.push(item)[i] == items[i]);
        }
    }
}

proof fn lemma_spans_same(data: Seq<u8>, a: Seq<EncodedMethod>, b: Seq<EncodedMethod>, n: nat)
    requires
        n <= a.len(),
        n <= b.len(),
        forall|i: int| 0 <= i < n ==> #[trigger] a[i] == b[i],
    ensures
        spans_of(data, a, n) == spans_of(data, b, n),
    decreases n,
{
    if n > 0 {
        lemma_spans_same(data, a, b, (n - 1) as nat);
        assert(a[n - 1] == b[n - 1]);
    }
}

pub proof fn lemma_spans_add(
    data: Seq<u8>,
    a: Seq<EncodedMethod>,
    b: Seq<EncodedMethod>,
    n: nat,
)
    requires
        n <= b.len(),
    ensures
        spans_of(data, a + b, a.len() + n) == spans_of(data, a, a.len()) + spans_of(data, b, n),
    decreases n,
{
    if n == 0 {
        lemma_spans_same(data, a, a + b, a.len());
        assert(spans_of(data, a, a.len()) + spans_of(data, b, 0) =~= spans_of(data, a, a.len()));
    } else {
        lemma_spans_add(data, a, b, (n - 1) as nat);
        assert((a + b)[a.len() + n - 1] == b[n - 1]);
        assert(spans_of(data, a + b, a.len() + n) =~= spans_of(data, a, a.len()) + spans_of(
            data,
            b,
            n,
        ));
    }
}

proof fn lemma_spans_grow(data: Seq<u8>, methods: Seq<EncodedMethod>, n: nat, k: nat)
    requires
        n <= k <= methods.len(),
    ensures
        spans_of(data, methods, n).len() <= spans_of(data, methods, k).len(),
    decreases k - n,
{
    if n < k {
        lemma_spans_grow(data, methods, n, (k - 1) as nat);
    }
}

/// A search that gets through a method list finds the code of its methods.
proof fn lemma_methods_searched(
    data: Seq<u8>,
    h: DexHeader,
    base: Seq<CodeSpan>,
    at: int,
    previous: u32,
    s: FoundCode,
    items: Seq<EncodedMethod>,
    i: int,
    n: int,
)
    requires
        0 <= i <= n,
        repeat(method_step(data), (at, previous), (n - i) as nat, items) is Ok,
        run(span_step(data, h), (at, previous, s), i, n) is Ok,
        s.code == base + spans_of(data, items, items.len()),
    ensures
        ({
            let (list, (end, _)) = repeat(
                method_step(data),
                (at, previous),
                (n - i) as nat,
                items,
            )->Ok_0;
            let (stop, _, found) = run(span_step(data, h), (at, previous, s), i, n)->Ok_0;
            end == stop && found.code == base + spans_of(data, list, list.len())
        }),
    decreases n - i,
{
    if i < n {
        let (x, (a, b)) = method_step(data)((at, previous))->Ok_0;
        let (c, d, more) = span_step(data, h)((at, previous, s), i)->Ok_0;
        let next = items.push(x);
        lemma_spans_same(data, items, next, items.len());
        assert(next[items.len() as int] == x);
        assert(a == c && b == d);
        assert(more.code =~= base + spans_of(data, next, next.len()));
        lemma_methods_searched(data, h, base, a, b, more, next, i + 1, n);
    }
}

/// A search gets through a method list whose methods it can read.
proof fn lemma_methods_found(
    data: Seq<u8>,
    h: DexHeader,
    base: Seq<CodeSpan>,
    at: int,
    previous: u32,
    s: FoundCode,
    items: Seq<EncodedMethod>,
    i: int,
    n: int,
)
    requires
        0 <= i <= n,
        repeat(method_step(data), (at, previous), (n - i) as nat, items) is Ok,
        s.code == base + spans_of(data, items, items.len()),
        ({
            let list = repeat(method_step(data), (at, previous), (n - i) as nat, items)->Ok_0.0;
            &&& forall|k: int| 0 <= k < list.len() ==> method_fits(data, h, #[trigger] list[k])
            &&& base.len() + spans_of(data, list, list.len()).len() <= 0x1_0000_0000
        }),
    ensures
        run(span_step(data, h), (at, previous, s), i, n) is Ok,
    decreases n - i,
{
    if i < n {
        let list = repeat(method_step(data), (at, previous), (n - i) as nat, items)->Ok_0.0;
        let (x, (a, b)) = method_step(data)((at, previous))->Ok_0;
        let next = items.push(x);
        lemma_repeat_items(method_step(data), (a, b), (n - i - 1) as nat, next);
        assert(list[items.len() as int] == next[items.len() as int]);
        assert(method_fits(data, h, x));
        lemma_spans_same(data, items, next, items.len());
        assert forall|k: int| 0 <= k < next.len() implies #[trigger] next[k] == list[k] by {
            assert(list[k] == next[k]);
        }
        lemma_spans_same(data, next, list, next.len());
        lemma_spans_grow(data, list, next.len(), list.len());
        assert(next[items.len() as int] == x);
        let step = span_step(data, h)((at, previous, s), i);
        assert(step is Ok);
        let more = step->Ok_0.2;
        assert(more.code =~= base + spans_of(data, next, next.len()));
        lemma_methods_found(data, h, base, a, b, more, next, i + 1, n);
    }
}

// ---------------------------------------------------------------------------
// Class data
// ---------------------------------------------------------------------------

/// Skipping fields gets behind those that a field list reads.
proof fn lemma_fields_skipped(
    data: Seq<u8>,
    at: int,
    previous: u32,
    n: nat,
    items: Seq<EncodedField>,
    skipped: Seq<()>,
    more: nat,
) -> (rest: Seq<()>)
    requires
        repeat(field_step(data), (at, previous), n, items) is Ok,
    ensures
        repeat(skip_field_step(data), at, n + more, skipped) == repeat(
            skip_field_step(data),
            repeat(field_step(data), (at, previous), n, items)->Ok_0.1.0,
            more,
            rest,
        ),
    decreases n,
{
    if n == 0 {
        skipped
    } else {
        let (x, (a, b)) = field_step(data)((at, previous))->Ok_0;
        assert(skip_field_step(data)(at) == Ok::<((), int), Error>(((), a)));
        lemma_fields_skipped(data, a, b, (n - 1) as nat, items.push(x), skipped.push(()), more)
    }
}

/// Where the methods start in class data, and how many fields stand before.
proof fn lemma_fields_before(data: Seq<u8>, at: int, statics: u32, instances: u32)
    requires
        field_list(data, at, statics) is Ok,
        field_list(data, field_list(data, at, statics)->Ok_0.1.0, instances) is Ok,
    ensures
        repeat(
            skip_field_step(data),
            at,
            (statics + instances) as nat,
            Seq::<()>::empty(),
        ) matches Ok((_, end)) && end == field_list(
            data,
            field_list(data, at, statics)->Ok_0.1.0,
            instances,
        )->Ok_0.1.0,
        field_list(data, at, statics)->Ok_0.0.len() == statics,
        field_list(data, field_list(data, at, statics)->Ok_0.1.0, instances)->Ok_0.0.len()
            == instances,
{
    let none = Seq::<EncodedField>::empty();
    let middle = field_list(data, at, statics)->Ok_0.1.0;
    let first = lemma_fields_skipped(
        data,
        at,
        0,
        statics as nat,
        none,
        Seq::empty(),
        instances as nat,
    );
    let second = lemma_fields_skipped(data, middle, 0, instances as nat, none, first, 0);
    lemma_repeat_items(field_step(data), (at, 0u32), statics as nat, none);
    lemma_repeat_items(field_step(data), (middle, 0u32), instances as nat, none);
}

/// A search that gets through class data finds the code of the methods that it
/// lists.
pub proof fn lemma_class_searched(data: Seq<u8>, h: DexHeader, offset: u32, s: FoundCode)
    requires
        offset != 0,
        members_in(data, offset) is Ok,
        class_spans_in(data, h, offset as int, s) is Ok,
    ensures
        ({
            let c = members_in(data, offset)->Ok_0;
            &&& class_spans_in(data, h, offset as int, s)->Ok_0.code == s.code + spans_of(
                data,
                c.methods(),
                c.methods().len(),
            )
            &&& c.fields().len() <= u32::MAX
        }),
{
    let (statics, a) = uleb_in(data, offset as int)->Ok_0;
    let (instances, b) = uleb_in(data, a)->Ok_0;
    let (directs, c) = uleb_in(data, b)->Ok_0;
    let (virtuals, at) = uleb_in(data, c)->Ok_0;
    lemma_fields_before(data, at, statics, instances);
    let p = field_list(data, field_list(data, at, statics)->Ok_0.1.0, instances)->Ok_0.1.0;
    let none = Seq::<EncodedMethod>::empty();
    let (first, (q, _)) = method_list(data, p, directs)->Ok_0;
    let (second, _) = method_list(data, q, virtuals)->Ok_0;
    let t = spans_in(data, h, p, directs, s)->Ok_0.2;
    assert(s.code =~= s.code + spans_of(data, none, 0));
    lemma_methods_searched(data, h, s.code, p, 0, s, none, 0, directs as int);
    assert(t.code =~= t.code + spans_of(data, none, 0));
    lemma_methods_searched(data, h, t.code, q, 0, t, none, 0, virtuals as int);
    lemma_spans_add(data, first, second, second.len());
    let u = class_spans_in(data, h, offset as int, s)->Ok_0;
    assert(u.code =~= s.code + spans_of(data, first + second, first.len() + second.len()));
}

/// A search gets through class data whose methods it can read.
pub proof fn lemma_class_found(data: Seq<u8>, h: DexHeader, offset: u32, s: FoundCode)
    requires
        offset != 0,
        members_in(data, offset) is Ok,
        ({
            let c = members_in(data, offset)->Ok_0;
            let list = c.methods();
            &&& c.fields().len() <= u32::MAX
            &&& forall|k: int| 0 <= k < list.len() ==> method_fits(data, h, #[trigger] list[k])
            &&& s.code.len() + spans_of(data, list, list.len()).len() <= 0x1_0000_0000
        }),
    ensures
        class_spans_in(data, h, offset as int, s) is Ok,
{
    let (statics, a) = uleb_in(data, offset as int)->Ok_0;
    let (instances, b) = uleb_in(data, a)->Ok_0;
    let (directs, c) = uleb_in(data, b)->Ok_0;
    let (virtuals, at) = uleb_in(data, c)->Ok_0;
    lemma_fields_before(data, at, statics, instances);
    let p = field_list(data, field_list(data, at, statics)->Ok_0.1.0, instances)->Ok_0.1.0;
    let none = Seq::<EncodedMethod>::empty();
    let (first, (q, _)) = method_list(data, p, directs)->Ok_0;
    let (second, _) = method_list(data, q, virtuals)->Ok_0;
    let list = members_in(data, offset)->Ok_0.methods();
    assert(list =~= first + second);
    lemma_spans_add(data, first, second, second.len());
    assert forall|k: int| 0 <= k < first.len() implies method_fits(
        data,
        h,
        #[trigger] first[k],
    ) by {
        assert(list[k] == first[k]);
    }
    assert forall|k: int| 0 <= k < second.len() implies method_fits(
        data,
        h,
        #[trigger] second[k],
    ) by {
        assert(list[first.len() + k] == second[k]);
    }
    assert(s.code =~= s.code + spans_of(data, none, 0));
    lemma_methods_found(data, h, s.code, p, 0, s, none, 0, directs as int);
    lemma_methods_searched(data, h, s.code, p, 0, s, none, 0, directs as int);
    let t = spans_in(data, h, p, directs, s)->Ok_0.2;
    assert(t.code =~= t.code + spans_of(data, none, 0));
    lemma_methods_found(data, h, t.code, q, 0, t, none, 0, virtuals as int);
    lemma_methods_searched(data, h, t.code, q, 0, t, none, 0, virtuals as int);
}

// ---------------------------------------------------------------------------
// All classes
// ---------------------------------------------------------------------------

/// Whether spans stand in a list at `at`.
pub open spec fn spans_stand(code: Seq<CodeSpan>, at: int, spans: Seq<CodeSpan>) -> bool {
    &&& 0 <= at
    &&& at + spans.len() <= code.len()
    &&& forall|k: int| 0 <= k < spans.len() ==> code[at + k] == #[trigger] spans[k]
}

proof fn lemma_stand_longer(
    a: Seq<CodeSpan>,
    b: Seq<CodeSpan>,
    at: int,
    spans: Seq<CodeSpan>,
)
    requires
        spans_stand(a, at, spans),
        spans_stand(b, 0, a),
    ensures
        spans_stand(b, at, spans),
{
    assert forall|k: int| 0 <= k < spans.len() implies b[at + k] == #[trigger] spans[k] by {
        assert(a[at + k] == spans[k]);
        assert(b[0 + (at + k)] == a[at + k]);
    }
}

proof fn lemma_methods_add(
    data: Seq<u8>,
    h: DexHeader,
    s: (int, u32, FoundCode),
    i: int,
    n: int,
)
    requires
        run(span_step(data, h), s, i, n) is Ok,
    ensures
        spans_stand(run(span_step(data, h), s, i, n)->Ok_0.2.code, 0, s.2.code),
    decreases n - i,
{
    if i < n {
        let next = span_step(data, h)(s, i)->Ok_0;
        assert(spans_stand(next.2.code, 0, s.2.code));
        lemma_methods_add(data, h, next, i + 1, n);
        lemma_stand_longer(next.2.code, run(span_step(data, h), s, i, n)->Ok_0.2.code, 0, s.2.code);
    }
}

proof fn lemma_class_adds(data: Seq<u8>, h: DexHeader, offset: int, s: FoundCode)
    requires
        class_spans_in(data, h, offset, s) is Ok,
    ensures
        spans_stand(class_spans_in(data, h, offset, s)->Ok_0.code, 0, s.code),
{
    let (statics, a) = uleb_in(data, offset)->Ok_0;
    let (instances, b) = uleb_in(data, a)->Ok_0;
    let (directs, c) = uleb_in(data, b)->Ok_0;
    let (virtuals, at) = uleb_in(data, c)->Ok_0;
    let p = repeat(
        skip_field_step(data),
        at,
        (statics + instances) as nat,
        Seq::<()>::empty(),
    )->Ok_0.1;
    let (q, _, t) = spans_in(data, h, p, directs, s)->Ok_0;
    let u = spans_in(data, h, q, virtuals, t)->Ok_0.2;
    lemma_methods_add(data, h, (p, 0u32, s), 0, directs as int);
    lemma_methods_add(data, h, (q, 0u32, t), 0, virtuals as int);
    lemma_stand_longer(t.code, u.code, 0, s.code);
}

proof fn lemma_classes_add(
    data: Seq<u8>,
    h: DexHeader,
    entries: Seq<(u32, u32)>,
    s: FoundCode,
    i: int,
)
    requires
        0 <= i <= entries.len(),
        run(class_step(data, h, entries), s, i, entries.len() as int) is Ok,
    ensures
        spans_stand(
            run(class_step(data, h, entries), s, i, entries.len() as int)->Ok_0.code,
            0,
            s.code,
        ),
    decreases entries.len() - i,
{
    if i < entries.len() {
        let next = class_step(data, h, entries)(s, i)->Ok_0;
        if entries[i].1 != 0 {
            lemma_class_adds(data, h, entries[i].1 as int, s);
        }
        assert(spans_stand(next.code, 0, s.code));
        lemma_classes_add(data, h, entries, next, i + 1);
        lemma_stand_longer(
            next.code,
            run(class_step(data, h, entries), s, i, entries.len() as int)->Ok_0.code,
            0,
            s.code,
        );
    }
}

/// The code of one class stands together among the code of all.
proof fn lemma_class_among(
    data: Seq<u8>,
    h: DexHeader,
    entries: Seq<(u32, u32)>,
    s: FoundCode,
    i: int,
    which: int,
) -> (at: int)
    requires
        0 <= i <= which < entries.len(),
        run(class_step(data, h, entries), s, i, entries.len() as int) is Ok,
        members_in(data, entries[which].1) is Ok,
    ensures
        ({
            let c = members_in(data, entries[which].1)->Ok_0;
            &&& spans_stand(
                run(class_step(data, h, entries), s, i, entries.len() as int)->Ok_0.code,
                at,
                spans_of(data, c.methods(), c.methods().len()),
            )
            &&& c.fields().len() <= u32::MAX
        }),
    decreases which - i,
{
    let next = class_step(data, h, entries)(s, i)->Ok_0;
    let c = members_in(data, entries[which].1)->Ok_0;
    let spans = spans_of(data, c.methods(), c.methods().len());
    if i < which {
        lemma_class_among(data, h, entries, next, i + 1, which)
    } else {
        let offset = entries[which].1;
        if offset != 0 {
            lemma_class_searched(data, h, offset, s);
        } else {
            assert(c.methods().len() == 0);
            assert(next.code =~= s.code + spans);
        }
        assert(spans_stand(next.code, s.code.len() as int, spans));
        lemma_classes_add(data, h, entries, next, i + 1);
        lemma_stand_longer(
            next.code,
            run(class_step(data, h, entries), s, i, entries.len() as int)->Ok_0.code,
            s.code.len() as int,
            spans,
        );
        s.code.len() as int
    }
}

/// The definition that a class was found in.
proof fn lemma_class_at(dex: DexTables, descriptor: Seq<char>, index: int) -> (which: int)
    requires
        0 <= index,
        dex.class_from(descriptor, index) matches Ok(Some(_)),
    ensures
        index <= which < dex.header.class_defs_size,
        dex.class_def_in(which) == Ok::<ClassDef, Error>(
            dex.class_from(descriptor, index)->Ok_0->Some_0,
        ),
    decreases dex.header.class_defs_size - index,
{
    let class = dex.class_def_in(index)->Ok_0;
    if dex.descriptor(class.class_idx as int)->Ok_0 == descriptor {
        index
    } else {
        lemma_class_at(dex, descriptor, index + 1)
    }
}

/// A search knows of a class definition what an extraction knows of it.
proof fn lemma_entry_of(dex: DexTables, which: int)
    requires
        0 <= which < dex.header.class_defs_size,
        dex.class_def_in(which) is Ok,
        class_entry_reader(dex.data, dex.header)(which) is Ok,
    ensures
        class_entry_reader(dex.data, dex.header)(which)->Ok_0 == (
            dex.class_def_in(which)->Ok_0.class_idx,
            dex.class_def_in(which)->Ok_0.class_data_off,
        ),
{
    let at = dex.header.class_defs_off + which * 32;
    let f = word_reader(dex.data, at);
    lemma_collect_ok(f, 8);
    let w = collect(f, 8)->Ok_0;
    assert(f(0) == Ok::<u32, Error>(w[0]));
    assert(f(6) == Ok::<u32, Error>(w[6]));
}

/// The code of a class stands together in what a search knows of the file.
pub proof fn lemma_class_in_contents(
    data: Seq<u8>,
    base: int,
    descriptor: Seq<char>,
) -> (at: int)
    requires
        DexContents::contents_in(data, base) is Ok,
        ({
            let dex = DexContents::contents_in(data, base)->Ok_0.tables;
            &&& dex.data == data
            &&& dex.class_from(descriptor, 0) matches Ok(Some(_))
            &&& members_in(data, dex.class_from(descriptor, 0)->Ok_0->Some_0.class_data_off) is Ok
        }),
    ensures
        ({
            let d = DexContents::contents_in(data, base)->Ok_0;
            let c = members_in(
                data,
                d.tables.class_from(descriptor, 0)->Ok_0->Some_0.class_data_off,
            )->Ok_0;
            &&& spans_stand(d.code, at, spans_of(data, c.methods(), c.methods().len()))
            &&& c.fields().len() <= u32::MAX
        }),
{
    let d = DexContents::contents_in(data, base)->Ok_0;
    let h = d.tables.header;
    let f = class_entry_reader(data, h);
    let entries = collect(f, h.class_defs_size as nat)->Ok_0;
    let which = lemma_class_at(d.tables, descriptor, 0);
    lemma_collect_ok(f, h.class_defs_size as nat);
    assert(f(which) == Ok::<(u32, u32), Error>(entries[which]));
    lemma_entry_of(d.tables, which);
    lemma_class_among(data, h, entries, no_code(d.tables.methods.len()), 0, which)
}

} // verus!
