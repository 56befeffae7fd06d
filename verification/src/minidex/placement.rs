//! Where the code and the class data of an extracted file stand, and that they
//! read back.
use vstd::prelude::*;

use crate::collections::{lemma_put_get, lemma_rank, rank_from, Entries};
use crate::dex_format::{bytes_in, u16_in, u32_in, uleb_in};
use crate::error::Error;
use crate::minidex::assemble::{sections_of, Sections};
use crate::minidex::bytecode::{numbered, CodeRefs};
use crate::minidex::codeback::{code_ok, code_written, handler_ok};
use crate::minidex::emit::padded;
use crate::minidex::gather::{handler_mapper, pair_mapper, relinked, relinked_codes, relinker};
use crate::minidex::hollow::{code_step, codes_of, Parts};
use crate::minidex::leb::sleb_in;
use crate::minidex::readback::{
    begins_with, lemma_begins_chain, lemma_code_grows, lemma_code_section_grows, lemma_members_grow,
};
use crate::minidex::reader::{
    aligned4, catches_in, code_in, handler_step, magnitude, pair_step, try_reader, Code, DexTables,
    EncodedMethod, Handler, Members,
};
use crate::minidex::sections::{
    annotations_section, class_data_section, code_bytes, code_section, debug_section,
    interfaces_section, members_bytes, method_ranks, methods_in_order, offset_of, or_zero,
    params_section, statics_section, strings_section,
};
use crate::minidex::tables::Tables;
use crate::order::{lemma_sort_order, sort_order};
use crate::results::{lemma_collect_ok, repeat, run};

verus! {

// ---------------------------------------------------------------------------
// Code is well formed
// ---------------------------------------------------------------------------

proof fn lemma_repeat_length<S, T>(
    f: spec_fn(S) -> Result<(T, S), Error>,
    s: S,
    n: nat,
    items: Seq<T>,
)
    requires
        repeat(f, s, n, items) is Ok,
    ensures
        repeat(f, s, n, items)->Ok_0.0.len() == items.len() + n,
    decreases n,
{
    if n > 0 {
        let (item, next) = f(s)->Ok_0;
        lemma_repeat_length(f, next, (n - 1) as nat, items.push(item));
    }
}

proof fn lemma_handlers_ok(data: Seq<u8>, base: int, at: int, n: nat, items: Seq<Handler>)
    requires
        repeat(handler_step(data, base), at, n, items) is Ok,
        forall|j: int| 0 <= j < items.len() ==> handler_ok(#[trigger] items[j]),
    ensures
        forall|j: int|
            0 <= j < repeat(handler_step(data, base), at, n, items)->Ok_0.0.len() ==> handler_ok(
                #[trigger] repeat(handler_step(data, base), at, n, items)->Ok_0.0[j],
            ),
    decreases n,
{
    if n > 0 {
        let (item, next) = handler_step(data, base)(at)->Ok_0;
        let a = sleb_in(data, at)->Ok_0.1;
        lemma_repeat_length(
            pair_step(data),
            a,
            magnitude(item.size),
            Seq::<(u32, u32)>::empty(),
        );
        assert(handler_ok(item));
        lemma_handlers_ok(data, base, next, (n - 1) as nat, items.push(item));
    }
}

proof fn lemma_catches_ok(data: Seq<u8>, at: int, n: u16)
    requires
        catches_in(data, at, n) is Ok,
    ensures
        catches_in(data, at, n)->Ok_0.0.len() == n,
        n == 0 ==> catches_in(data, at, n)->Ok_0.1.len() == 0,
        forall|j: int|
            0 <= j < catches_in(data, at, n)->Ok_0.1.len() ==> handler_ok(
                #[trigger] catches_in(data, at, n)->Ok_0.1[j],
            ),
{
    if n > 0 {
        lemma_collect_ok(try_reader(data, at), n as nat);
        let base = at + n * 8;
        let (count, first) = uleb_in(data, base)->Ok_0;
        lemma_handlers_ok(data, base, first, count as nat, Seq::empty());
    }
}

/// Code that was read is well formed.
pub proof fn lemma_code_in_ok(data: Seq<u8>, offset: int)
    requires
        0 <= offset,
        code_in(data, offset) is Ok,
    ensures
        code_ok(code_in(data, offset)->Ok_0),
{
    let n = u16_in(data, offset + 6)->Ok_0;
    let size = u32_in(data, offset + 12)->Ok_0;
    let at = aligned4(offset + 16 + size * 2);
    lemma_catches_ok(data, at, n);
    assert(bytes_in(data, offset + 16, size * 2)->Ok_0.len() == size * 2);
}

proof fn lemma_numbered_even(insns: Seq<u8>, refs: CodeRefs)
    requires
        numbered(insns, refs) is Ok,
    ensures
        numbered(insns, refs)->Ok_0.0.len() % 2 == 0,
{
}

/// Whether all code under some keys is well formed.
pub open spec fn codes_ok(codes: Entries<Code>) -> bool {
    &&& codes.wf()
    &&& forall|id: u32| #[trigger] code_ok_at(codes, id)
}

pub open spec fn code_ok_at(codes: Entries<Code>, id: u32) -> bool {
    codes.get(id) matches Some(code) ==> code_ok(code)
}

proof fn lemma_codes_run_ok(
    data: Seq<u8>,
    methods: Seq<EncodedMethod>,
    s: (Entries<Code>, CodeRefs),
    i: int,
)
    requires
        codes_ok(s.0),
        run(code_step(data, methods), s, i, methods.len() as int) is Ok,
        0 <= i,
    ensures
        codes_ok(run(code_step(data, methods), s, i, methods.len() as int)->Ok_0.0),
    decreases methods.len() - i,
{
    if i < methods.len() {
        let next = code_step(data, methods)(s, i)->Ok_0;
        if methods[i].code_off != 0 {
            let code = code_in(data, methods[i].code_off as int)->Ok_0;
            lemma_code_in_ok(data, methods[i].code_off as int);
            lemma_numbered_even(code.insns, s.1);
            let insns = numbered(code.insns, s.1)->Ok_0.0;
            let kept = Code { insns, ..code };
            assert(code_ok(kept));
            assert forall|id: u32| #[trigger] code_ok_at(next.0, id) by {
                lemma_put_get(s.0, methods[i].method_idx, kept, id);
                assert(code_ok_at(s.0, id));
            }
            lemma_put_get(s.0, methods[i].method_idx, kept, 0);
        }
        lemma_codes_run_ok(data, methods, next, i + 1);
    }
}

/// The code of a class is well formed.
pub proof fn lemma_codes_ok(data: Seq<u8>, methods: Seq<EncodedMethod>, refs: CodeRefs)
    requires
        codes_of(data, methods, refs) is Ok,
    ensures
        codes_ok(codes_of(data, methods, refs)->Ok_0.0),
{
    let e = Entries::<Code>::empty();
    assert forall|id: u32| #[trigger] code_ok_at(e, id) by {}
    lemma_codes_run_ok(data, methods, (e, refs), 0);
}

proof fn lemma_relinked_ok(code: Code, refs: CodeRefs, m: Tables, dex: DexTables)
    requires
        code_ok(code),
        relinked(code, refs, m, dex) is Ok,
    ensures
        code_ok(relinked(code, refs, m, dex)->Ok_0),
{
    let new = relinked(code, refs, m, dex)->Ok_0;
    let f = handler_mapper(code.handlers, m);
    lemma_collect_ok(f, code.handlers.len());
    assert forall|j: int| 0 <= j < new.handlers.len() implies handler_ok(
        #[trigger] new.handlers[j],
    ) by {
        assert(f(j) == Ok::<Handler, Error>(new.handlers[j]));
        let h = code.handlers[j];
        assert(handler_ok(h));
        lemma_collect_ok(pair_mapper(h.pairs, m), h.pairs.len());
    }
}

/// Code stays well formed when it gets new indices.
pub proof fn lemma_relinked_codes_ok(
    codes: Entries<Code>,
    refs: CodeRefs,
    m: Tables,
    dex: DexTables,
)
    requires
        codes_ok(codes),
        relinked_codes(codes, refs, m, dex) is Ok,
    ensures
        codes_ok(relinked_codes(codes, refs, m, dex)->Ok_0),
        forall|id: u32|
            (#[trigger] relinked_codes(codes, refs, m, dex)->Ok_0.get(id)) == match codes.get(id) {
                None => None,
                Some(code) => Some(relinked(code, refs, m, dex)->Ok_0),
            },
        forall|id: u32|
            (#[trigger] codes.get(id)) matches Some(code) ==> relinked(code, refs, m, dex) is Ok,
{
    let new = relinked_codes(codes, refs, m, dex)->Ok_0;
    let f = relinker(codes.values, refs, m, dex);
    lemma_collect_ok(f, codes.values.len());
    assert forall|p: int| 0 <= p < codes.values.len() implies #[trigger] new.values[p] == relinked(
        codes.values[p],
        refs,
        m,
        dex,
    )->Ok_0 && relinked(codes.values[p], refs, m, dex) is Ok by {
        assert(f(p) == Ok::<Code, Error>(new.values[p]));
    }
    assert forall|id: u32| #[trigger] code_ok_at(new, id) by {
        assert(code_ok_at(codes, id));
        if codes.get(id) is Some {
            let p = rank_from(codes.keys, id, 0);
            lemma_get_within(codes, id);
            assert(new.values[p] == relinked(codes.values[p], refs, m, dex)->Ok_0);
            lemma_relinked_ok(codes.values[p], refs, m, dex);
        }
    }
    assert forall|id: u32| (#[trigger] new.get(id)) == match codes.get(id) {
        None => None,
        Some(code) => Some(relinked(code, refs, m, dex)->Ok_0),
    } by {
        lemma_get_within(codes, id);
    }
    assert forall|id: u32|
        (#[trigger] codes.get(id)) is Some implies relinked(
        codes.get(id)->Some_0,
        refs,
        m,
        dex,
    ) is Ok by {
        lemma_get_within(codes, id);
        let p = rank_from(codes.keys, id, 0);
        assert(new.values[p] == relinked(codes.values[p], refs, m, dex)->Ok_0);
    }
}

proof fn lemma_get_within(codes: Entries<Code>, id: u32)
    requires
        codes.wf(),
    ensures
        0 <= rank_from(codes.keys, id, 0) <= codes.keys.len(),
{
    lemma_rank(codes.keys, id);
}

// ---------------------------------------------------------------------------
// Where code stands
// ---------------------------------------------------------------------------

/// Whether a code item stands in a data section that starts at `base` of the
/// file, at offset `offset` of the file.
pub open spec fn code_stands(base: int, data: Seq<u8>, offset: u32, code: Code, debug_off: u32) -> bool {
    exists|done: Seq<u8>| #[trigger]
        code_written(data, code, debug_off, done) && offset == base + done.len() && done.len() % 4
            == 0
}

/// Whether the code of method `id` stands where its offset says.
pub open spec fn code_stands_at(
    base: int,
    data: Seq<u8>,
    offsets: Entries<u32>,
    codes: Entries<Code>,
    debug: Entries<u32>,
    id: u32,
) -> bool {
    offsets.get(id) matches Some(offset) ==> {
        &&& codes.get(id) is Some
        &&& code_stands(base, data, offset, codes.get(id)->Some_0, or_zero(debug, id))
    }
}

proof fn lemma_stands_longer(
    base: int,
    a: Seq<u8>,
    b: Seq<u8>,
    offset: u32,
    code: Code,
    debug_off: u32,
)
    requires
        code_stands(base, a, offset, code, debug_off),
        begins_with(b, a),
    ensures
        code_stands(base, b, offset, code, debug_off),
{
    reveal(code_written);
    let done = choose|done: Seq<u8>| #[trigger]
        code_written(a, code, debug_off, done) && offset == base + done.len() && done.len() % 4
            == 0;
    lemma_begins_chain(code_bytes(code, debug_off, done)->Ok_0, a, b);
    assert(code_written(b, code, debug_off, done));
}

/// Adding the code of one method keeps the code of the others where it is.
proof fn lemma_code_put(
    base: int,
    id: u32,
    codes: Entries<Code>,
    debug: Entries<u32>,
    data: Seq<u8>,
    offsets: Entries<u32>,
    more: Seq<u8>,
)
    requires
        0 <= base,
        offsets.wf(),
        codes.get(id) is Some,
        code_bytes(codes.get(id)->Some_0, or_zero(debug, id), padded(data)) == Ok::<
            Seq<u8>,
            Error,
        >(more),
        base + more.len() <= u32::MAX,
        forall|k: u32| #[trigger] code_stands_at(base, data, offsets, codes, debug, k),
    ensures
        ({
            let next = offsets.put(id, offset_of(base, padded(data)));
            &&& next.wf()
            &&& next.get(id) is Some
            &&& forall|k: u32| #[trigger] code_stands_at(base, more, next, codes, debug, k)
            &&& forall|k: u32| #[trigger] offsets.get(k) is Some ==> next.get(k) is Some
        }),
{
    let code = codes.get(id)->Some_0;
    let start = padded(data);
    let debug_off = or_zero(debug, id);
    let offset = offset_of(base, start);
    let next = offsets.put(id, offset);
    lemma_code_grows(code, debug_off, start);
    assert(begins_with(start, data));
    lemma_begins_chain(data, start, more);
    assert(code_stands(base, more, offset, code, debug_off)) by {
        reveal(code_written);
        assert(begins_with(more, more));
        assert(code_written(more, code, debug_off, start));
    }
    lemma_put_get(offsets, id, offset, id);
    assert forall|k: u32| #[trigger] code_stands_at(base, more, next, codes, debug, k) by {
        lemma_put_get(offsets, id, offset, k);
        if k != id && offsets.get(k) is Some {
            assert(code_stands_at(base, data, offsets, codes, debug, k));
            lemma_stands_longer(
                base,
                data,
                more,
                offsets.get(k)->Some_0,
                codes.get(k)->Some_0,
                or_zero(debug, k),
            );
        }
    }
    assert forall|k: u32| #[trigger] offsets.get(k) is Some implies next.get(k) is Some by {
        lemma_put_get(offsets, id, offset, k);
    }
}

#[verifier::spinoff_prover]
proof fn lemma_codes_placed(
    base: int,
    methods: Seq<EncodedMethod>,
    i: int,
    codes: Entries<Code>,
    debug: Entries<u32>,
    data: Seq<u8>,
    offsets: Entries<u32>,
)
    requires
        0 <= base,
        0 <= i <= methods.len(),
        offsets.wf(),
        code_section(base, methods, i, codes, debug, data, offsets) is Ok,
        base + code_section(base, methods, i, codes, debug, data, offsets)->Ok_0.0.len()
            <= u32::MAX,
        forall|id: u32| #[trigger] code_stands_at(base, data, offsets, codes, debug, id),
    ensures
        ({
            let (end, all) = code_section(base, methods, i, codes, debug, data, offsets)->Ok_0;
            &&& forall|id: u32| #[trigger] code_stands_at(base, end, all, codes, debug, id)
            &&& forall|id: u32| #[trigger] offsets.get(id) is Some ==> all.get(id) is Some
            &&& forall|j: int|
                i <= j < methods.len() && codes.get((#[trigger] methods[j]).method_idx) is Some
                    ==> all.get(methods[j].method_idx) is Some
        }),
    decreases methods.len() - i,
{
    let (end, all) = code_section(base, methods, i, codes, debug, data, offsets)->Ok_0;
    if i < methods.len() {
        let id = methods[i].method_idx;
        match codes.get(id) {
            None => {
                lemma_codes_placed(base, methods, i + 1, codes, debug, data, offsets);
            },
            Some(code) => {
                let start = padded(data);
                let more = code_bytes(code, or_zero(debug, id), start)->Ok_0;
                let next = offsets.put(id, offset_of(base, start));
                lemma_code_section_grows(base, methods, i + 1, codes, debug, more, next);
                lemma_code_put(base, id, codes, debug, data, offsets, more);
                lemma_codes_placed(base, methods, i + 1, codes, debug, more, next);
                assert(next.get(id) is Some);
                assert forall|k: u32| #[trigger] offsets.get(k) is Some implies all.get(
                    k,
                ) is Some by {
                    assert(next.get(k) is Some);
                }
            },
        }
    }
}

/// Where the code and the class data of a class stand in the data section.
pub open spec fn class_stands(c: Members, parts: Parts, m: Tables, s: Sections) -> bool {
    &&& forall|id: u32| #[trigger]
        code_stands_at(m.data_at(), s.data, s.code_offsets, parts.codes, s.debug_offsets, id)
    &&& forall|j: int|
        0 <= j < c.methods().len() && parts.codes.get((#[trigger] c.methods()[j]).method_idx) is Some
            ==> s.code_offsets.get(c.methods()[j].method_idx) is Some
    &&& if c.fields().len() == 0 && c.methods().len() == 0 {
        s.class_data_off == 0
    } else {
        members_stand(c, m, s)
    }
}

/// Whether the class data is the last thing in the data section.
pub open spec fn members_stand(c: Members, m: Tables, s: Sections) -> bool {
    exists|done: Seq<u8>| #[trigger]
        members_bytes(c, m, s.code_offsets, done) == Ok::<Seq<u8>, Error>(s.data)
            && s.class_data_off == m.data_at() + done.len()
}

/// The code and the class data of a class stand in the data section where
/// their offsets say.
#[verifier::spinoff_prover]
pub proof fn lemma_class_stands(c: Members, parts: Parts, m: Tables, dex: DexTables)
    requires
        sections_of(c, parts, m, dex) is Ok,
        m.data_at() + sections_of(c, parts, m, dex)->Ok_0.data.len() <= u32::MAX,
    ensures
        class_stands(c, parts, m, sections_of(c, parts, m, dex)->Ok_0),
{
    let s = sections_of(c, parts, m, dex)->Ok_0;
    let base = m.data_at();
    let methods = methods_in_order(c.methods(), m);
    let none = Entries::<u32>::empty();
    let g = lemma_last_sections(c, parts, m, dex);
    let (h, offsets) = code_section(
        base,
        methods,
        0,
        parts.codes,
        s.debug_offsets,
        g,
        none,
    )->Ok_0;
    let empty = c.fields().len() == 0 && c.methods().len() == 0;
    if empty {
        assert(s.data == h);
    } else {
        lemma_members_grow(c, m, offsets, h);
        assert(members_bytes(c, m, s.code_offsets, h) == Ok::<Seq<u8>, Error>(s.data));
    }
    assert(begins_with(s.data, h));
    assert forall|id: u32| #[trigger]
        code_stands_at(base, g, none, parts.codes, s.debug_offsets, id) by {}
    lemma_codes_placed(base, methods, 0, parts.codes, s.debug_offsets, g, none);
    assert forall|id: u32| #[trigger]
        code_stands_at(base, s.data, s.code_offsets, parts.codes, s.debug_offsets, id) by {
        assert(code_stands_at(base, h, offsets, parts.codes, s.debug_offsets, id));
        if offsets.get(id) is Some {
            lemma_stands_longer(
                base,
                h,
                s.data,
                offsets.get(id)->Some_0,
                parts.codes.get(id)->Some_0,
                or_zero(s.debug_offsets, id),
            );
        }
    }
    let keys = method_ranks(c.methods(), m);
    let order = sort_order(keys, c.methods().len());
    lemma_sort_order(keys, c.methods().len());
    assert forall|j: int|
        0 <= j < c.methods().len() && parts.codes.get(
            (#[trigger] c.methods()[j]).method_idx,
        ) is Some implies s.code_offsets.get(c.methods()[j].method_idx) is Some by {
        assert(order.contains(j));
        let k = choose|k: int| 0 <= k < order.len() && order[k] == j;
        assert(methods[k] == c.methods()[j]);
    }
}

/// The data section before the code was added to it.
#[verifier::spinoff_prover]
proof fn lemma_last_sections(c: Members, parts: Parts, m: Tables, dex: DexTables) -> (g: Seq<u8>)
    requires
        sections_of(c, parts, m, dex) is Ok,
    ensures
        ({
            let s = sections_of(c, parts, m, dex)->Ok_0;
            let code = code_section(
                m.data_at(),
                methods_in_order(c.methods(), m),
                0,
                parts.codes,
                s.debug_offsets,
                g,
                Entries::empty(),
            );
            &&& code is Ok
            &&& code->Ok_0.1 == s.code_offsets
            &&& class_data_section(m.data_at(), c, m, s.code_offsets, code->Ok_0.0) == Ok::<
                (Seq<u8>, u32),
                Error,
            >((s.data, s.class_data_off))
        }),
{
    reveal(sections_of);
    let base = m.data_at();
    let none = Seq::<u32>::empty();
    let (a, string_offsets) = strings_section(base, m.strings, 0, Seq::empty(), none);
    let (b, param_offsets) = params_section(base, m.protos, 0, padded(a), none);
    let (d, interfaces_off) = interfaces_section(base, parts.interfaces, m, b)->Ok_0;
    let (e, annotations) = annotations_section(base, parts.annotations, m, dex, d)->Ok_0;
    let (f, static_values_off) = statics_section(base, parts.static_values, m, dex, e)->Ok_0;
    debug_section(
        base,
        methods_in_order(c.methods(), m),
        0,
        parts.debug_info,
        m,
        dex,
        f,
        Entries::empty(),
    )->Ok_0.0
}

} // verus!
