//! The methods of an extracted class need in the new file what they need in the
//! source.
use vstd::prelude::*;

use crate::collections::low32;
use crate::dex::probe::class_text_reader;
use crate::dex_format::units_of;
use crate::error::Error;
use crate::minidex::bytecode::{lemma_unit_bytes_round_trip, unit_bytes, CodeRefs};
use crate::minidex::codeback::{moved_handlers, placed_code};
use crate::minidex::fidelity::{
    lemma_extracted_class, lemma_extracted_code, lemma_extracted_instructions,
    lemma_extracted_layout, lemma_extracted_tables, sections_for,
};
use crate::minidex::gather::{caught_by, caught_in, handler_mapper, pair_mapper};
use crate::minidex::holdings::type_parts;
use crate::minidex::hollow::parts_of;
use crate::minidex::leb::uleb_bytes;
use crate::minidex::members::new_members;
use crate::minidex::operands::mapped_from;
use crate::minidex::placement::{
    code_stands_at, lemma_class_stands, lemma_codes_ok, lemma_relinked_codes_ok,
};
use crate::minidex::preserved::parts_for;
use crate::minidex::reader::{code_in, Code, DexTables, Handler, Members};
use crate::minidex::second::lemma_extracted_alike;
use crate::minidex::sections::{handler_bytes, or_zero};
use crate::minidex::tables::Tables;
use crate::minidex::wants::{alike, lemma_code_mapped};
use crate::minidex::wholes::{
    catches_need, extracts_once, handlers_need, insns_need, lemma_code_kept, new_method,
};
use crate::minidex::{class_of, extracted_from, linked};
use crate::results::{collect, lemma_collect_ok};

verus! {

/// The tables of the extracted file.
pub open spec fn new_tables(dex: DexTables, descriptor: Seq<char>) -> DexTables {
    DexTables::tables_in(extracted_from(dex, descriptor)->Ok_0.0, 0)->Ok_0
}

/// The members of the class in the extracted file.
pub open spec fn members_again(dex: DexTables, descriptor: Seq<char>) -> Members {
    new_members(
        class_of(dex, descriptor)->Ok_0.1,
        extracted_from(dex, descriptor)->Ok_0.1,
        sections_for(dex, descriptor).code_offsets,
    )
}

/// Whether code was written for the methods that have code, and for no others.
#[verifier::spinoff_prover]
pub proof fn lemma_code_placed(dex: DexTables, descriptor: Seq<char>, j: int)
    requires
        extracts_once(dex, descriptor),
        0 <= j < class_of(dex, descriptor)->Ok_0.1.methods().len(),
    ensures
        ({
            let x = class_of(dex, descriptor)->Ok_0.1.methods()[j];
            let s = sections_for(dex, descriptor);
            let codes = parts_for(dex, descriptor).codes;
            &&& (or_zero(s.code_offsets, x.method_idx) != 0) == (x.code_off != 0)
            &&& codes.get(x.method_idx) is Some <==> x.code_off != 0
            &&& s.code_offsets.get(x.method_idx) is Some <==> x.code_off != 0
        }),
{
    let (class, members) = class_of(dex, descriptor)->Ok_0;
    let (m, parts) = linked(dex, class, members)->Ok_0;
    let s = sections_for(dex, descriptor);
    let x = members.methods()[j];
    let id = x.method_idx;
    lemma_extracted_layout(dex, descriptor);
    lemma_class_stands(members, parts, m, dex);
    let (first, refs) = parts_of(dex, class, members, CodeRefs::empty())->Ok_0;
    lemma_code_kept(dex.data, members, j);
    lemma_codes_ok(dex.data, members.methods(), CodeRefs::empty());
    lemma_relinked_codes_ok(first.codes, refs, m, dex);
    assert(parts.codes.get(id) is Some <==> first.codes.get(id) is Some);
    assert(code_stands_at(m.data_at(), s.data, s.code_offsets, parts.codes, s.debug_offsets, id));
}

/// Handlers with new type indices catch the same.
proof fn lemma_pairs_mapped(
    dex: DexTables,
    t: DexTables,
    m: Tables,
    old: Seq<(u32, u32)>,
    new: Seq<(u32, u32)>,
)
    requires
        alike(dex, t, m),
        collect(pair_mapper(old, m), old.len()) == Ok::<Seq<(u32, u32)>, Error>(new),
    ensures
        type_parts(t, caught_by(new)) == type_parts(dex, caught_by(old)),
{
    let f = pair_mapper(old, m);
    lemma_collect_ok(f, old.len());
    let a = type_parts(t, caught_by(new));
    let b = type_parts(dex, caught_by(old));
    assert forall|i: int| 0 <= i < a.len() implies #[trigger] a[i] == b[i] by {
        assert(f(i) == Ok::<(u32, u32), Error>(new[i]));
        assert(m.mapped_type(old[i].0) is Ok);
    }
    assert(a =~= b);
}

proof fn lemma_handlers_mapped(
    dex: DexTables,
    t: DexTables,
    m: Tables,
    old: Seq<Handler>,
    new: Seq<Handler>,
    n: int,
)
    requires
        alike(dex, t, m),
        0 <= n <= old.len(),
        new.len() == old.len(),
        forall|i: int|
            0 <= i < old.len() ==> collect(
                pair_mapper(old[i].pairs, m),
                old[i].pairs.len(),
            ) == Ok::<Seq<(u32, u32)>, Error>((#[trigger] new[i]).pairs),
    ensures
        type_parts(t, caught_in(new.take(n))) == type_parts(dex, caught_in(old.take(n))),
    decreases n,
{
    if n > 0 {
        lemma_handlers_mapped(dex, t, m, old, new, n - 1);
        assert(new.take(n).drop_last() =~= new.take(n - 1));
        assert(old.take(n).drop_last() =~= old.take(n - 1));
        let i = n - 1;
        lemma_pairs_mapped(dex, t, m, old[i].pairs, new[i].pairs);
        assert(type_parts(t, caught_in(new.take(n))) =~= type_parts(t, caught_in(new.take(n - 1)))
            + type_parts(t, caught_by(new[i].pairs)));
        assert(type_parts(dex, caught_in(old.take(n))) =~= type_parts(
            dex,
            caught_in(old.take(n - 1)),
        ) + type_parts(dex, caught_by(old[i].pairs)));
    } else {
        assert(type_parts(t, caught_in(new.take(n))) =~= type_parts(dex, caught_in(old.take(n))));
    }
}

/// Handlers that are moved keep their pairs.
pub proof fn lemma_moved_pairs(handlers: Seq<Handler>, i: int, done: Seq<u8>)
    requires
        0 <= i <= handlers.len(),
    ensures
        moved_handlers(handlers, i, done).len() == handlers.len() - i,
        forall|k: int|
            0 <= k < handlers.len() - i ==> (#[trigger] moved_handlers(handlers, i, done)[k]).pairs
                == handlers[i + k].pairs,
    decreases handlers.len() - i,
{
    if i < handlers.len() {
        let rest = moved_handlers(handlers, i + 1, handler_bytes(handlers[i], done));
        lemma_moved_pairs(handlers, i + 1, handler_bytes(handlers[i], done));
        let all = moved_handlers(handlers, i, done);
        assert forall|k: int| 0 <= k < handlers.len() - i implies (#[trigger] all[k]).pairs
            == handlers[i + k].pairs by {
            if k > 0 {
                assert(all[k] == rest[k - 1]);
            }
        }
    }
}

/// What the handlers of code need stays when it is written and read.
proof fn lemma_catches_same(
    dex: DexTables,
    t: DexTables,
    m: Tables,
    old: Seq<Handler>,
    kept: Code,
    debug_off: u32,
)
    requires
        alike(dex, t, m),
        collect(handler_mapper(old, m), old.len()) == Ok::<Seq<Handler>, Error>(kept.handlers),
    ensures
        handlers_need(t, placed_code(kept, debug_off).handlers) == handlers_need(dex, old),
{
    let f = handler_mapper(old, m);
    let new = placed_code(kept, debug_off).handlers;
    lemma_collect_ok(f, old.len());
    lemma_moved_pairs(
        kept.handlers,
        0,
        uleb_bytes(low32(kept.handlers.len() as int)),
    );
    assert forall|i: int| 0 <= i < old.len() implies collect(
        pair_mapper(old[i].pairs, m),
        old[i].pairs.len(),
    ) == Ok::<Seq<(u32, u32)>, Error>((#[trigger] new[i]).pairs) by {
        assert(f(i) == Ok::<Handler, Error>(kept.handlers[i]));
        assert(new[i].pairs == kept.handlers[0 + i].pairs);
    }
    lemma_handlers_mapped(dex, t, m, old, new, old.len() as int);
    assert(new.take(old.len() as int) =~= new);
    assert(old.take(old.len() as int) =~= old);
}

/// The code of a method as it stands in the extracted file.
#[verifier::spinoff_prover]
pub proof fn lemma_method_code(dex: DexTables, descriptor: Seq<char>, j: int)
    requires
        extracts_once(dex, descriptor),
        0 <= j < class_of(dex, descriptor)->Ok_0.1.methods().len(),
        class_of(dex, descriptor)->Ok_0.1.methods()[j].code_off != 0,
    ensures
        ({
            let (bytes, m) = extracted_from(dex, descriptor)->Ok_0;
            let x = class_of(dex, descriptor)->Ok_0.1.methods()[j];
            let s = sections_for(dex, descriptor);
            let kept = parts_for(dex, descriptor).codes.get(x.method_idx);
            let code = code_in(dex.data, x.code_off as int)->Ok_0;
            let units = units_of(code.insns);
            &&& kept is Some
            &&& code_in(bytes, or_zero(s.code_offsets, x.method_idx) as int) == Ok::<Code, Error>(
                placed_code(kept->Some_0, or_zero(s.debug_offsets, x.method_idx)),
            )
            &&& mapped_from(units, 0, m, dex) is Ok
            &&& units_of(kept->Some_0.insns) == mapped_from(units, 0, m, dex)->Ok_0
            &&& kept->Some_0.insns == unit_bytes(mapped_from(units, 0, m, dex)->Ok_0)
            &&& collect(handler_mapper(code.handlers, m), code.handlers.len()) == Ok::<
                Seq<Handler>,
                Error,
            >(kept->Some_0.handlers)
        }),
{
    let m = extracted_from(dex, descriptor)->Ok_0.1;
    let members = class_of(dex, descriptor)->Ok_0.1;
    let x = members.methods()[j];
    let code = code_in(dex.data, x.code_off as int)->Ok_0;
    assert forall|k: int|
        j < k < members.methods().len() && (#[trigger] members.methods()[k]).code_off
            != 0 implies members.methods()[k].method_idx != members.methods()[j].method_idx by {}
    lemma_extracted_instructions(dex, descriptor, j);
    lemma_extracted_code(dex, descriptor, x.method_idx);
    lemma_unit_bytes_round_trip(mapped_from(units_of(code.insns), 0, m, dex)->Ok_0);
}

/// What the code of a method needs stays.
#[verifier::spinoff_prover]
pub proof fn lemma_code_need_same(dex: DexTables, descriptor: Seq<char>, j: int)
    requires
        extracts_once(dex, descriptor),
        0 <= j < class_of(dex, descriptor)->Ok_0.1.methods().len(),
    ensures
        ({
            let (bytes, m) = extracted_from(dex, descriptor)->Ok_0;
            let t = new_tables(dex, descriptor);
            let x = class_of(dex, descriptor)->Ok_0.1.methods()[j];
            let y = new_method(x, m, sections_for(dex, descriptor).code_offsets);
            &&& insns_need(t, bytes, y) == insns_need(dex, dex.data, x)
            &&& catches_need(t, bytes, y) == catches_need(dex, dex.data, x)
        }),
{
    let (bytes, m) = extracted_from(dex, descriptor)->Ok_0;
    let t = new_tables(dex, descriptor);
    let x = class_of(dex, descriptor)->Ok_0.1.methods()[j];
    let s = sections_for(dex, descriptor);
    lemma_code_placed(dex, descriptor, j);
    if x.code_off != 0 {
        lemma_method_code(dex, descriptor, j);
        lemma_extracted_alike(dex, descriptor);
        let kept = parts_for(dex, descriptor).codes.get(x.method_idx)->Some_0;
        let code = code_in(dex.data, x.code_off as int)->Ok_0;
        let units = units_of(code.insns);
        lemma_code_mapped(dex, t, m, units, units, 0);
        lemma_catches_same(
            dex,
            t,
            m,
            code.handlers,
            kept,
            or_zero(s.debug_offsets, x.method_idx),
        );
    }
}

/// An extracted file has one class.
#[verifier::spinoff_prover]
pub proof fn lemma_one_class(dex: DexTables, descriptor: Seq<char>)
    requires
        extracted_from(dex, descriptor) is Ok,
    ensures
        new_tables(dex, descriptor).header.class_defs_size == 1,
{
    let bytes = extracted_from(dex, descriptor)->Ok_0.0;
    let t = new_tables(dex, descriptor);
    lemma_extracted_class(dex, descriptor);
    lemma_extracted_tables(dex, descriptor);
    let f = class_text_reader(bytes, t.header, t.types);
    lemma_collect_ok(f, t.header.class_defs_size as nat);
}

} // verus!
