//! Code that was written with new indices can be numbered, and keeps its
//! operands when these get their indices again.
use vstd::prelude::*;

use crate::collections::Entries;
use crate::dex_format::{units_of, width_at};
use crate::error::Error;
use crate::minidex::bytecode::{
    number_of, numbered, numbered_at, numbered_from, opcode_at, operand_of, wide_operand, with_id,
    CodeRefs, Operand,
};
use crate::minidex::hollow::code_step;
use crate::minidex::operands::{
    lemma_ids_length, lemma_numbered_narrow, lemma_numbered_step, lemma_reach, lemma_wide_operand,
    lemma_width_local, mapped_at, mapped_from, reach_of, refs_narrow,
};
use crate::minidex::reader::{code_in, Code, DexTables, EncodedMethod};
use crate::minidex::recode::lemma_mapped_at_same;
use crate::minidex::rewrite::{fixed, served};
use crate::minidex::sites::{lemma_mapped_keeps, lemma_mapped_step};
use crate::minidex::tables::{lemma_position, Tables};
use crate::minidex::wants::alike;
use crate::results::run;

verus! {

/// Whether the operands of the instruction at `pc` are there, and its string is
/// among so many.
pub open spec fn operand_whole(units: Seq<u16>, pc: int, strings: nat) -> bool {
    let operand = operand_of(opcode_at(units, pc));
    if operand == Operand::Nothing {
        true
    } else if operand == Operand::CallSite {
        false
    } else if operand == Operand::JumboString {
        pc + 2 < units.len() && wide_operand(units, pc) < strings
    } else {
        &&& pc + 1 < units.len()
        &&& operand == Operand::String ==> units[pc + 1] < strings
        &&& operand == Operand::MethodAndProto ==> pc + 3 < units.len()
    }
}

/// Whether the instructions from `pc` on are whole.
pub open spec fn runs(units: Seq<u16>, pc: int, strings: nat) -> bool
    decreases units.len() - pc,
{
    pc >= units.len() || {
        &&& operand_whole(units, pc, strings)
        &&& width_at(units, pc) is Ok
        &&& width_at(units, pc)->Ok_0 > 0
        &&& pc + width_at(units, pc)->Ok_0 <= units.len()
        &&& width_at(units, pc)->Ok_0 > 0 && pc + width_at(units, pc)->Ok_0 <= units.len() ==> runs(
            units,
            pc + width_at(units, pc)->Ok_0,
            strings,
        )
    }
}

/// One instruction that was written, in the whole that was written.
proof fn lemma_written_step(
    units: Seq<u16>,
    out: Seq<u16>,
    pc: int,
    dex: DexTables,
    t: DexTables,
    m: Tables,
)
    requires
        alike(dex, t, m),
        0 <= pc < units.len(),
        mapped_from(units, pc, m, dex) == Ok::<Seq<u16>, Error>(out),
    ensures
        ({
            let changed = mapped_at(units, pc, m, dex)->Ok_0;
            let width = width_at(changed, pc)->Ok_0;
            &&& out.len() == units.len()
            &&& mapped_at(units, pc, m, dex) is Ok
            &&& changed[pc] == units[pc]
            &&& width_at(out, pc) == width_at(changed, pc)
            &&& width_at(changed, pc) is Ok
            &&& width > 0
            &&& pc + width <= units.len()
            &&& mapped_from(changed, pc + width, m, dex) == Ok::<Seq<u16>, Error>(out)
            &&& reach_of(units, pc) <= width
            &&& forall|k: int| 0 <= k < pc + width ==> #[trigger] out[k] == changed[k]
        }),
{
    let changed = mapped_at(units, pc, m, dex)->Ok_0;
    let width = width_at(changed, pc)->Ok_0;
    lemma_mapped_step(units, pc, m, dex);
    lemma_mapped_keeps(changed, pc + width, m, dex);
    assert(changed[pc] == units[pc]);
    assert forall|k: int| pc <= k < pc + width && k < changed.len() implies #[trigger] changed[k]
        == out[k] by {
        assert(out[k] == changed[k]);
    }
    assert(out[pc] == changed[pc]);
    lemma_width_local(changed, out, pc);
    lemma_reach(changed, pc);
}

/// What was written is whole.
#[verifier::spinoff_prover]
pub proof fn lemma_written_runs(
    units: Seq<u16>,
    out: Seq<u16>,
    pc: int,
    dex: DexTables,
    t: DexTables,
    m: Tables,
)
    requires
        alike(dex, t, m),
        0 <= pc,
        mapped_from(units, pc, m, dex) == Ok::<Seq<u16>, Error>(out),
    ensures
        out.len() == units.len(),
        runs(out, pc, t.strings.len()),
    decreases units.len() - pc,
{
    if pc < units.len() {
        let changed = mapped_at(units, pc, m, dex)->Ok_0;
        let width = width_at(changed, pc)->Ok_0;
        lemma_written_step(units, out, pc, dex, t, m);
        lemma_mapped_step(units, pc, m, dex);
        assert(out[pc] == changed[pc]);
        let operand = operand_of(opcode_at(units, pc));
        if operand == Operand::JumboString {
            assert(out[pc + 1] == changed[pc + 1]);
            assert(out[pc + 2] == changed[pc + 2]);
            lemma_wide_operand(units, pc, m.mapped_string(dex, wide_operand(units, pc))->Ok_0);
        } else if operand == Operand::String {
            assert(out[pc + 1] == changed[pc + 1]);
            assert(m.mapped_string(dex, units[pc + 1] as u32) is Ok);
        }
        lemma_written_runs(changed, out, pc + width, dex, t, m);
    }
}

/// The instruction that was written keeps its operands.
#[verifier::spinoff_prover]
proof fn lemma_written_stays(
    units: Seq<u16>,
    out: Seq<u16>,
    pc: int,
    dex: DexTables,
    t: DexTables,
    m: Tables,
    n: Tables,
)
    requires
        alike(dex, t, m),
        fixed(t, n),
        served(dex, m, t, n),
        0 <= pc < units.len(),
        mapped_from(units, pc, m, dex) == Ok::<Seq<u16>, Error>(out),
    ensures
        mapped_at(out, pc, n, t) == Ok::<Seq<u16>, Error>(out),
{
    let changed = mapped_at(units, pc, m, dex)->Ok_0;
    let operand = operand_of(opcode_at(units, pc));
    lemma_written_step(units, out, pc, dex, t, m);
    lemma_mapped_step(units, pc, m, dex);
    assert(out[pc] == changed[pc]);
    if operand == Operand::Nothing {
    } else if operand == Operand::JumboString {
        let id = wide_operand(units, pc);
        let index = m.mapped_string(dex, id)->Ok_0;
        assert(out[pc + 1] == changed[pc + 1]);
        assert(out[pc + 2] == changed[pc + 2]);
        lemma_wide_operand(units, pc, index);
        assert(wide_operand(out, pc) == index);
        assert(n.mapped_string(t, index) is Ok);
    } else {
        let id = units[pc + 1] as u32;
        assert(out[pc + 1] == changed[pc + 1]);
        if operand == Operand::String {
            assert(m.mapped_string(dex, id) is Ok);
            assert(n.mapped_string(t, out[pc + 1] as u32) is Ok);
            assert(n.mapped_string(t, out[pc + 1] as u32)->Ok_0 == out[pc + 1]);
        } else if operand == Operand::MethodAndProto {
            assert(out[pc + 3] == changed[pc + 3]);
            assert(m.mapped_method(id) is Ok);
            assert(m.mapped_proto(units[pc + 3] as u32) is Ok);
            assert(n.mapped_method(out[pc + 1] as u32) is Ok);
            assert(n.mapped_proto(out[pc + 3] as u32) is Ok);
        } else if operand == Operand::Type {
            assert(m.mapped_type(id) is Ok);
            assert(n.mapped_type(out[pc + 1] as u32) is Ok);
        } else if operand == Operand::Field {
            assert(m.mapped_field(id) is Ok);
            assert(n.mapped_field(out[pc + 1] as u32) is Ok);
        } else if operand == Operand::Method {
            assert(m.mapped_method(id) is Ok);
            assert(n.mapped_method(out[pc + 1] as u32) is Ok);
        } else {
            assert(m.mapped_proto(id) is Ok);
            assert(n.mapped_proto(out[pc + 1] as u32) is Ok);
        }
    }
    lemma_mapped_at_same(out, pc, t, n);
}

/// What was written keeps its operands when these get their indices again.
pub proof fn lemma_written_again(
    units: Seq<u16>,
    out: Seq<u16>,
    pc: int,
    dex: DexTables,
    t: DexTables,
    m: Tables,
    n: Tables,
)
    requires
        alike(dex, t, m),
        fixed(t, n),
        served(dex, m, t, n),
        0 <= pc,
        mapped_from(units, pc, m, dex) == Ok::<Seq<u16>, Error>(out),
    ensures
        mapped_from(out, pc, n, t) == Ok::<Seq<u16>, Error>(out),
    decreases units.len() - pc,
{
    if pc < units.len() {
        let changed = mapped_at(units, pc, m, dex)->Ok_0;
        let width = width_at(changed, pc)->Ok_0;
        lemma_written_step(units, out, pc, dex, t, m);
        lemma_written_stays(units, out, pc, dex, t, m, n);
        lemma_written_again(changed, out, pc + width, dex, t, m, n);
    }
}

// ---------------------------------------------------------------------------
// Numbering
// ---------------------------------------------------------------------------

/// Whether identifiers are below a bound.
pub open spec fn ids_below(ids: Seq<u32>, bound: nat) -> bool {
    forall|i: int| 0 <= i < ids.len() ==> #[trigger] ids[i] < bound
}

/// The number of an identifier is below the bound of the identifiers.
proof fn lemma_number_below(ids: Seq<u32>, id: u32, bound: nat)
    requires
        ids.no_duplicates(),
        ids_below(ids, bound),
        id < bound,
        bound <= u32::MAX,
    ensures
        number_of(ids, id) < bound,
        ids_below(with_id(ids, id), bound),
{
    let more = with_id(ids, id);
    if !ids.contains(id) {
        assert(more[ids.len() as int] == id);
    }
    assert(more.contains(id));
    lemma_position(more, id);
    lemma_ids_length(more, bound as int);
}

/// Whole instructions can be numbered, unless a string number is too large
/// for its operand, for which there have to be many strings.
#[verifier::spinoff_prover]
proof fn lemma_runs_numbered(
    out: Seq<u16>,
    units: Seq<u16>,
    pc: int,
    strings: nat,
    refs: CodeRefs,
)
    requires
        0 <= pc,
        runs(out, pc, strings),
        units.len() == out.len(),
        forall|k: int| pc <= k < out.len() ==> #[trigger] units[k] == out[k],
        refs_narrow(refs),
        ids_below(refs.strings, strings),
        strings <= u32::MAX,
    ensures
        match numbered_from(units, pc, refs) {
            Ok((_, more)) => ids_below(more.strings, strings),
            Err(e) => e == Error::JumboRequired && strings > 0x1_0000,
        },
    decreases out.len() - pc,
{
    if pc < out.len() {
        let width = width_at(out, pc)->Ok_0;
        assert(units[pc] == out[pc]);
        assert forall|k: int| pc <= k < pc + width && k < out.len() implies #[trigger] out[k]
            == units[k] by {
            assert(units[k] == out[k]);
        }
        lemma_width_local(out, units, pc);
        lemma_reach(out, pc);
        let operand = operand_of(opcode_at(units, pc));
        if operand == Operand::JumboString {
            assert(units[pc + 1] == out[pc + 1]);
            assert(units[pc + 2] == out[pc + 2]);
            lemma_number_below(refs.strings, wide_operand(units, pc), strings);
        } else if operand == Operand::String {
            assert(units[pc + 1] == out[pc + 1]);
            lemma_number_below(refs.strings, units[pc + 1] as u32, strings);
        }
        if numbered_at(units, pc, refs) is Ok {
            let (changed, more) = numbered_at(units, pc, refs)->Ok_0;
            lemma_numbered_step(units, pc, refs);
            if out[pc] % 256 == 0 {
                assert(operand == Operand::Nothing);
            }
            lemma_width_local(out, changed, pc);
            lemma_step_narrow(units, pc, refs);
            lemma_runs_numbered(out, changed, pc + width, strings, more);
        }
    }
}

/// Numbering one instruction keeps the references narrow.
proof fn lemma_step_narrow(units: Seq<u16>, pc: int, refs: CodeRefs)
    requires
        0 <= pc,
        numbered_at(units, pc, refs) is Ok,
        refs_narrow(refs),
    ensures
        refs_narrow(numbered_at(units, pc, refs)->Ok_0.1),
{
    let more = numbered_at(units, pc, refs)->Ok_0.1;
    assert(more.strings.no_duplicates());
    assert(more.types.no_duplicates());
    assert(more.fields.no_duplicates());
    assert(more.methods.no_duplicates());
    assert(more.protos.no_duplicates());
}

/// Whether the code of a method can be read and is whole.
pub open spec fn method_runs(data: Seq<u8>, x: EncodedMethod, strings: nat) -> bool {
    x.code_off != 0 ==> {
        let code = code_in(data, x.code_off as int);
        &&& code is Ok
        &&& code->Ok_0.insns.len() % 2 == 0
        &&& runs(units_of(code->Ok_0.insns), 0, strings)
    }
}

/// The code of methods whose code is whole can be numbered, unless a string
/// number is too large for its operand.
pub proof fn lemma_codes_numbered(
    data: Seq<u8>,
    methods: Seq<EncodedMethod>,
    strings: nat,
    s: (Entries<Code>, CodeRefs),
    i: int,
)
    requires
        0 <= i,
        forall|j: int|
            0 <= j < methods.len() ==> method_runs(data, #[trigger] methods[j], strings),
        refs_narrow(s.1),
        ids_below(s.1.strings, strings),
        strings <= u32::MAX,
    ensures
        match run(code_step(data, methods), s, i, methods.len() as int) {
            Ok((_, refs)) => refs_narrow(refs),
            Err(e) => e == Error::JumboRequired && strings > 0x1_0000,
        },
    decreases methods.len() - i,
{
    if i < methods.len() {
        assert(method_runs(data, methods[i], strings));
        if methods[i].code_off == 0 {
            lemma_codes_numbered(data, methods, strings, s, i + 1);
        } else {
            let code = code_in(data, methods[i].code_off as int)->Ok_0;
            let units = units_of(code.insns);
            lemma_runs_numbered(units, units, 0, strings, s.1);
            if numbered(code.insns, s.1) is Ok {
                lemma_numbered_narrow(units, 0, s.1);
                lemma_codes_numbered(
                    data,
                    methods,
                    strings,
                    code_step(data, methods)(s, i)->Ok_0,
                    i + 1,
                );
            }
        }
    }
}

} // verus!
