//! The code of an extracted class gets the operands that it has.
use vstd::prelude::*;

use crate::collections::{low32, Entries};
use crate::dex_format::units_of;
use crate::error::Error;
use crate::minidex::bytecode::CodeRefs;
use crate::minidex::codeback::placed_code;
use crate::minidex::equal::{
    lemma_code_placed, lemma_method_code, lemma_moved_pairs, members_again, new_tables,
};
use crate::minidex::fidelity::sections_for;
use crate::minidex::gather::{handler_mapper, pair_mapper, relinked, relinked_codes, relinker};
use crate::minidex::hollow::codes_of;
use crate::minidex::leb::uleb_bytes;
use crate::minidex::notes::lemma_get_at;
use crate::minidex::operands::{
    lemma_code_of_method, lemma_narrow_small, lemma_operands_mapped, mapped_from, refs_narrow,
};
use crate::minidex::placement::{lemma_codes_ok, lemma_relinked_codes_ok};
use crate::minidex::preserved::parts_for;
use crate::minidex::reader::{code_in, Code, DexTables, EncodedMethod, Handler};
use crate::minidex::rerun::lemma_written_again;
use crate::minidex::rewrite::{fixed, served};
use crate::minidex::roundtrip::lemma_collect_all;
use crate::minidex::second::lemma_extracted_alike;
use crate::minidex::sections::or_zero;
use crate::minidex::settled::settled;
use crate::minidex::tables::Tables;
use crate::minidex::wholes::{
    extracts_once, lemma_code_kept, lemma_code_owner, lemma_method_back, lemma_method_forth,
    methods_once, new_method,
};
use crate::minidex::{class_of, extracted_from};
use crate::results::{collect, lemma_collect_ok};

verus! {

/// Handlers whose types keep their indices stay as they are.
proof fn lemma_handlers_stay(handlers: Seq<Handler>, n: Tables)
    requires
        forall|i: int, k: int|
            0 <= i < handlers.len() && 0 <= k < handlers[i].pairs.len() ==> n.mapped_type(
                (#[trigger] handlers[i].pairs[k]).0,
            ) == Ok::<u16, Error>(handlers[i].pairs[k].0 as u16) && handlers[i].pairs[k].0 <= 0xffff,
    ensures
        collect(handler_mapper(handlers, n), handlers.len()) == Ok::<Seq<Handler>, Error>(handlers),
{
    let f = handler_mapper(handlers, n);
    assert forall|i: int| 0 <= i < handlers.len() implies #[trigger] f(i) == Ok::<Handler, Error>(
        handlers[i],
    ) by {
        let pairs = handlers[i].pairs;
        let g = pair_mapper(pairs, n);
        assert forall|k: int| 0 <= k < pairs.len() implies #[trigger] g(k) == Ok::<
            (u32, u32),
            Error,
        >(pairs[k]) by {
            assert(n.mapped_type(handlers[i].pairs[k].0) is Ok);
        }
        lemma_collect_all(g, pairs, pairs.len());
        assert(pairs.take(pairs.len() as int) =~= pairs);
    }
    lemma_collect_all(f, handlers, handlers.len());
    assert(handlers.take(handlers.len() as int) =~= handlers);
}

/// Handlers that were written keep their types.
proof fn lemma_handlers_again(
    dex: DexTables,
    t: DexTables,
    m: Tables,
    n: Tables,
    old: Seq<Handler>,
    kept: Code,
    debug_off: u32,
)
    requires
        fixed(t, n),
        served(dex, m, t, n),
        collect(handler_mapper(old, m), old.len()) == Ok::<Seq<Handler>, Error>(kept.handlers),
    ensures
        ({
            let new = placed_code(kept, debug_off).handlers;
            collect(handler_mapper(new, n), new.len()) == Ok::<Seq<Handler>, Error>(new)
        }),
{
    let f = handler_mapper(old, m);
    let new = placed_code(kept, debug_off).handlers;
    lemma_collect_ok(f, old.len());
    lemma_moved_pairs(kept.handlers, 0, uleb_bytes(low32(kept.handlers.len() as int)));
    assert forall|i: int, k: int|
        0 <= i < new.len() && 0 <= k < new[i].pairs.len() implies n.mapped_type(
        (#[trigger] new[i].pairs[k]).0,
    ) == Ok::<u16, Error>(new[i].pairs[k].0 as u16) && new[i].pairs[k].0 <= 0xffff by {
        assert(new[i].pairs == kept.handlers[0 + i].pairs);
        assert(f(i) == Ok::<Handler, Error>(kept.handlers[i]));
        let g = pair_mapper(old[i].pairs, m);
        lemma_collect_ok(g, old[i].pairs.len());
        assert(g(k) == Ok::<(u32, u32), Error>(new[i].pairs[k]));
        assert(m.mapped_type(old[i].pairs[k].0) is Ok);
        assert(n.mapped_type(new[i].pairs[k].0) is Ok);
    }
    lemma_handlers_stay(new, n);
}

/// The code of a method as it stands in the extracted file.
pub open spec fn written_code(dex: DexTables, descriptor: Seq<char>, x: EncodedMethod) -> Code {
    placed_code(
        parts_for(dex, descriptor).codes.get(x.method_idx)->Some_0,
        or_zero(sections_for(dex, descriptor).debug_offsets, x.method_idx),
    )
}

/// The code of a method gets the operands that it has.
#[verifier::spinoff_prover]
proof fn lemma_code_linked(
    dex: DexTables,
    descriptor: Seq<char>,
    n: Tables,
    refs: CodeRefs,
    i: int,
    j: int,
)
    requires
        extracts_once(dex, descriptor),
        methods_once(members_again(dex, descriptor)),
        settled(dex, descriptor, n),
        codes_of(
            extracted_from(dex, descriptor)->Ok_0.0,
            members_again(dex, descriptor).methods(),
            CodeRefs::empty(),
        ) is Ok,
        refs == codes_of(
            extracted_from(dex, descriptor)->Ok_0.0,
            members_again(dex, descriptor).methods(),
            CodeRefs::empty(),
        )->Ok_0.1,
        refs_narrow(refs),
        0 <= i < class_of(dex, descriptor)->Ok_0.1.methods().len(),
        0 <= j < members_again(dex, descriptor).methods().len(),
        members_again(dex, descriptor).methods()[j] == new_method(
            class_of(dex, descriptor)->Ok_0.1.methods()[i],
            extracted_from(dex, descriptor)->Ok_0.1,
            sections_for(dex, descriptor).code_offsets,
        ),
        class_of(dex, descriptor)->Ok_0.1.methods()[i].code_off != 0,
    ensures
        ({
            let x = class_of(dex, descriptor)->Ok_0.1.methods()[i];
            let y = members_again(dex, descriptor).methods()[j];
            let codes = codes_of(
                extracted_from(dex, descriptor)->Ok_0.0,
                members_again(dex, descriptor).methods(),
                CodeRefs::empty(),
            )->Ok_0.0;
            &&& codes.get(y.method_idx) is Some
            &&& relinked(
                codes.get(y.method_idx)->Some_0,
                refs,
                n,
                new_tables(dex, descriptor),
            ) == Ok::<Code, Error>(written_code(dex, descriptor, x))
        }),
{
    let (bytes, m) = extracted_from(dex, descriptor)->Ok_0;
    let members = class_of(dex, descriptor)->Ok_0.1;
    let again = members_again(dex, descriptor);
    let t = new_tables(dex, descriptor);
    let s = sections_for(dex, descriptor);
    let x = members.methods()[i];
    let y = again.methods()[j];
    lemma_code_placed(dex, descriptor, i);
    lemma_method_code(dex, descriptor, i);
    lemma_extracted_alike(dex, descriptor);
    let kept = parts_for(dex, descriptor).codes.get(x.method_idx)->Some_0;
    let old = code_in(dex.data, x.code_off as int)->Ok_0;
    let units = units_of(old.insns);
    let out = mapped_from(units, 0, m, dex)->Ok_0;
    let code = written_code(dex, descriptor, x);
    assert forall|k: int|
        j < k < again.methods().len() && (#[trigger] again.methods()[k]).code_off
            != 0 implies again.methods()[k].method_idx != again.methods()[j].method_idx by {}
    let start = (Entries::<Code>::empty(), CodeRefs::empty());
    let before = lemma_code_of_method(bytes, again.methods(), start, 0, j);
    lemma_narrow_small(refs);
    lemma_operands_mapped(code.insns, before, refs, n, t);
    lemma_written_again(units, out, 0, dex, t, m, n);
    lemma_handlers_again(
        dex,
        t,
        m,
        n,
        old.handlers,
        kept,
        or_zero(s.debug_offsets, x.method_idx),
    );
}

/// Whether code is that of the extracted file.
pub open spec fn code_settled(
    dex: DexTables,
    descriptor: Seq<char>,
    codes: Entries<Code>,
    x: EncodedMethod,
) -> bool {
    let id = new_method(
        x,
        extracted_from(dex, descriptor)->Ok_0.1,
        sections_for(dex, descriptor).code_offsets,
    ).method_idx;
    if x.code_off == 0 {
        codes.get(id) is None
    } else {
        codes.get(id) == Some(written_code(dex, descriptor, x))
    }
}

/// The code of an extracted class can be linked, and stays as it stands.
#[verifier::spinoff_prover]
pub proof fn lemma_codes_linked(dex: DexTables, descriptor: Seq<char>, n: Tables, refs: CodeRefs)
    requires
        extracts_once(dex, descriptor),
        methods_once(members_again(dex, descriptor)),
        settled(dex, descriptor, n),
        codes_of(
            extracted_from(dex, descriptor)->Ok_0.0,
            members_again(dex, descriptor).methods(),
            CodeRefs::empty(),
        ) is Ok,
        refs == codes_of(
            extracted_from(dex, descriptor)->Ok_0.0,
            members_again(dex, descriptor).methods(),
            CodeRefs::empty(),
        )->Ok_0.1,
        refs_narrow(refs),
    ensures
        ({
            let members = class_of(dex, descriptor)->Ok_0.1;
            let codes = codes_of(
                extracted_from(dex, descriptor)->Ok_0.0,
                members_again(dex, descriptor).methods(),
                CodeRefs::empty(),
            )->Ok_0.0;
            let new = relinked_codes(codes, refs, n, new_tables(dex, descriptor));
            &&& new is Ok
            &&& new->Ok_0.wf()
            &&& forall|i: int|
                0 <= i < members.methods().len() ==> code_settled(
                    dex,
                    descriptor,
                    new->Ok_0,
                    #[trigger] members.methods()[i],
                )
            &&& forall|id: u32|
                (#[trigger] new->Ok_0.get(id)) is Some ==> exists|i: int|
                    0 <= i < members.methods().len() && (#[trigger] members.methods()[i]).code_off
                        != 0 && new_method(
                        members.methods()[i],
                        extracted_from(dex, descriptor)->Ok_0.1,
                        sections_for(dex, descriptor).code_offsets,
                    ).method_idx == id && new->Ok_0.get(id) == Some(
                        written_code(dex, descriptor, members.methods()[i]),
                    )
        }),
{
    let (bytes, m) = extracted_from(dex, descriptor)->Ok_0;
    let members = class_of(dex, descriptor)->Ok_0.1;
    let again = members_again(dex, descriptor);
    let t = new_tables(dex, descriptor);
    let s = sections_for(dex, descriptor);
    let codes = codes_of(bytes, again.methods(), CodeRefs::empty())->Ok_0.0;
    let f = relinker(codes.values, refs, n, t);
    lemma_codes_ok(bytes, again.methods(), CodeRefs::empty());
    let values = Seq::new(codes.values.len(), |p: int| f(p)->Ok_0);
    assert forall|p: int| 0 <= p < codes.values.len() implies #[trigger] f(p) == Ok::<Code, Error>(
        values[p],
    ) by {
        lemma_get_at(codes, p);
        let j = lemma_code_owner(bytes, again, codes.keys[p]);
        let i = lemma_method_back(members, m, s.code_offsets, j);
        lemma_code_placed(dex, descriptor, i);
        lemma_code_linked(dex, descriptor, n, refs, i, j);
    }
    lemma_collect_all(f, values, values.len());
    assert(values.take(values.len() as int) =~= values);
    lemma_relinked_codes_ok(codes, refs, n, t);
    let new = relinked_codes(codes, refs, n, t)->Ok_0;
    assert forall|i: int| 0 <= i < members.methods().len() implies code_settled(
        dex,
        descriptor,
        new,
        #[trigger] members.methods()[i],
    ) by {
        let j = lemma_method_forth(members, m, s.code_offsets, i);
        lemma_code_placed(dex, descriptor, i);
        if members.methods()[i].code_off != 0 {
            lemma_code_linked(dex, descriptor, n, refs, i, j);
            assert(codes.get(again.methods()[j].method_idx) is Some);
        } else {
            lemma_code_kept(bytes, again, j);
        }
    }
    assert forall|id: u32| (#[trigger] new.get(id)) is Some implies exists|i: int|
        0 <= i < members.methods().len() && (#[trigger] members.methods()[i]).code_off != 0
            && new_method(members.methods()[i], m, s.code_offsets).method_idx == id && new.get(id)
            == Some(written_code(dex, descriptor, members.methods()[i])) by {
        assert(codes.get(id) is Some);
        let j = lemma_code_owner(bytes, again, id);
        let i = lemma_method_back(members, m, s.code_offsets, j);
        lemma_code_placed(dex, descriptor, i);
        lemma_code_linked(dex, descriptor, n, refs, i, j);
        assert(members.methods()[i].code_off != 0);
    }
}

} // verus!
