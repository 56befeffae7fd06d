//! What happens to the operands of instructions: numbering them and then
//! replacing the numbers by new indices is the same as replacing each operand
//! by its new index.
use vstd::prelude::*;

use crate::collections::{lemma_put_get, Entries};
use crate::dex_format::{units_of, width_at};
use crate::error::Error;
use crate::minidex::bytecode::{
    final_field, final_method, final_proto, final_string, final_type, lemma_unit_bytes_round_trip,
    number_of, numbered, numbered_at, numbered_from, opcode_at, operand_of, rewritten, rewritten_at,
    rewritten_from, unit_bytes, wide_operand, with_id, with_wide_operand, CodeRefs, Operand,
};
use crate::minidex::hollow::code_step;
use crate::minidex::reader::{code_in, Code, DexTables, EncodedMethod};
use crate::minidex::tables::{lemma_position, position, Tables};
use crate::results::run;

verus! {

/// The instruction at `pc` with the new indices of what its operands point at.
pub open spec fn mapped_at(units: Seq<u16>, pc: int, m: Tables, dex: DexTables) -> Result<
    Seq<u16>,
    Error,
> {
    let operand = operand_of(opcode_at(units, pc));
    if operand == Operand::Nothing {
        Ok(units)
    } else if operand == Operand::CallSite {
        Err(Error::CallSiteOpcode(opcode_at(units, pc)))
    } else if operand == Operand::JumboString {
        if pc + 2 >= units.len() {
            Err(Error::TruncatedJumbo)
        } else {
            match m.mapped_string(dex, wide_operand(units, pc)) {
                Err(e) => Err(e),
                Ok(index) => Ok(with_wide_operand(units, pc, index)),
            }
        }
    } else if pc + 1 >= units.len() {
        Err(Error::TruncatedIndexed)
    } else {
        let id = units[pc + 1] as u32;
        if operand == Operand::String {
            match m.mapped_string(dex, id) {
                Err(e) => Err(e),
                Ok(index) => if index > 0xffff {
                    Err(Error::JumboRequired)
                } else {
                    Ok(units.update(pc + 1, index as u16))
                },
            }
        } else if operand == Operand::MethodAndProto {
            match m.mapped_method(id) {
                Err(e) => Err(e),
                Ok(method) => if pc + 3 >= units.len() {
                    Err(Error::TruncatedPolymorphic)
                } else {
                    match m.mapped_proto(units[pc + 3] as u32) {
                        Err(e) => Err(e),
                        Ok(proto) => Ok(units.update(pc + 1, method).update(pc + 3, proto)),
                    }
                },
            }
        } else {
            let found = if operand == Operand::Type {
                m.mapped_type(id)
            } else if operand == Operand::Field {
                m.mapped_field(id)
            } else if operand == Operand::Method {
                m.mapped_method(id)
            } else {
                m.mapped_proto(id)
            };
            match found {
                Err(e) => Err(e),
                Ok(index) => Ok(units.update(pc + 1, index)),
            }
        }
    }
}

/// The instructions from `pc` on with the new indices of what their operands
/// point at.
pub open spec fn mapped_from(units: Seq<u16>, pc: int, m: Tables, dex: DexTables) -> Result<
    Seq<u16>,
    Error,
>
    decreases units.len() - pc,
{
    if pc >= units.len() {
        Ok(units)
    } else {
        match mapped_at(units, pc, m, dex) {
            Err(e) => Err(e),
            Ok(changed) => match width_at(changed, pc) {
                Err(e) => Err(e),
                Ok(width) => if width == 0 || pc + width > units.len() || changed.len()
                    != units.len() {
                    Err(Error::InvalidWidth)
                } else {
                    mapped_from(changed, pc + width, m, dex)
                },
            },
        }
    }
}

/// Whether `a` is the beginning of `b`.
pub open spec fn starts(a: Seq<u32>, b: Seq<u32>) -> bool {
    a.len() <= b.len() && forall|i: int| 0 <= i < a.len() ==> #[trigger] b[i] == a[i]
}

/// Whether `b` has the numbers that `a` has given out.
pub open spec fn refs_grow(a: CodeRefs, b: CodeRefs) -> bool {
    &&& starts(a.strings, b.strings)
    &&& starts(a.types, b.types)
    &&& starts(a.fields, b.fields)
    &&& starts(a.methods, b.methods)
    &&& starts(a.protos, b.protos)
}

/// Whether every number fits into a code unit, or two of them for a string.
pub open spec fn refs_small(r: CodeRefs) -> bool {
    &&& r.strings.len() <= 0x1_0000_0000
    &&& r.types.len() <= 0x1_0000
    &&& r.fields.len() <= 0x1_0000
    &&& r.methods.len() <= 0x1_0000
    &&& r.protos.len() <= 0x1_0000
}

proof fn lemma_starts_chain(a: Seq<u32>, b: Seq<u32>, c: Seq<u32>)
    requires
        starts(a, b),
        starts(b, c),
    ensures
        starts(a, c),
{
    assert forall|i: int| 0 <= i < a.len() implies #[trigger] c[i] == a[i] by {
        assert(b[i] == a[i]);
    }
}

pub proof fn lemma_grow_chain(a: CodeRefs, b: CodeRefs, c: CodeRefs)
    requires
        refs_grow(a, b),
        refs_grow(b, c),
    ensures
        refs_grow(a, c),
{
    lemma_starts_chain(a.strings, b.strings, c.strings);
    lemma_starts_chain(a.types, b.types, c.types);
    lemma_starts_chain(a.fields, b.fields, c.fields);
    lemma_starts_chain(a.methods, b.methods, c.methods);
    lemma_starts_chain(a.protos, b.protos, c.protos);
}

/// A number that was given out stands for its identifier, also among more
/// identifiers.
proof fn lemma_number(ids: Seq<u32>, id: u32, all: Seq<u32>)
    requires
        starts(with_id(ids, id), all),
        all.len() <= 0x1_0000_0000,
    ensures
        number_of(ids, id) < all.len(),
        all[number_of(ids, id) as int] == id,
        starts(ids, with_id(ids, id)),
{
    let with = with_id(ids, id);
    if !ids.contains(id) {
        assert(with[ids.len() as int] == id);
    }
    assert(with.contains(id));
    lemma_position(with, id);
    let p = position(with, id);
    assert(all[p] == with[p]);
}

proof fn lemma_with_starts(ids: Seq<u32>, id: u32)
    ensures
        starts(ids, with_id(ids, id)),
{
}

/// How many units the operands of an instruction reach.
pub open spec fn reach_of(units: Seq<u16>, pc: int) -> int {
    let operand = operand_of(opcode_at(units, pc));
    if operand == Operand::Nothing {
        1
    } else if operand == Operand::JumboString {
        3
    } else if operand == Operand::MethodAndProto {
        4
    } else {
        2
    }
}

/// An instruction is at least as wide as its operands reach.
pub proof fn lemma_reach(units: Seq<u16>, pc: int)
    requires
        0 <= pc < units.len(),
        width_at(units, pc) is Ok,
        width_at(units, pc)->Ok_0 > 0,
    ensures
        reach_of(units, pc) <= width_at(units, pc)->Ok_0,
        operand_of(opcode_at(units, pc)) != Operand::Nothing ==> units[pc] % 256 != 0,
{
}

/// Numbering an instruction changes only its operands.
pub proof fn lemma_numbered_step(units: Seq<u16>, pc: int, refs: CodeRefs)
    requires
        0 <= pc < units.len(),
        numbered_at(units, pc, refs) is Ok,
    ensures
        ({
            let (changed, more) = numbered_at(units, pc, refs)->Ok_0;
            &&& changed.len() == units.len()
            &&& changed[pc] == units[pc]
            &&& forall|k: int|
                0 <= k < units.len() && (k <= pc || pc + reach_of(units, pc) <= k)
                    ==> #[trigger] changed[k] == units[k]
            &&& operand_of(opcode_at(units, pc)) == Operand::Nothing ==> changed == units
            &&& refs_grow(refs, more)
        }),
{
    let operand = operand_of(opcode_at(units, pc));
    if operand == Operand::JumboString {
        lemma_with_starts(refs.strings, wide_operand(units, pc));
    } else if operand != Operand::Nothing {
        let id = units[pc + 1] as u32;
        lemma_with_starts(refs.strings, id);
        lemma_with_starts(refs.types, id);
        lemma_with_starts(refs.fields, id);
        lemma_with_starts(refs.methods, id);
        lemma_with_starts(refs.protos, id);
        if operand == Operand::MethodAndProto {
            lemma_with_starts(refs.protos, units[pc + 3] as u32);
        }
    }
}

/// Numbering an instruction depends on nothing before it.
proof fn lemma_numbered_local(a: Seq<u16>, b: Seq<u16>, pc: int, refs: CodeRefs)
    requires
        a.len() == b.len(),
        0 <= pc < a.len(),
        forall|k: int| pc <= k < a.len() ==> #[trigger] a[k] == b[k],
        numbered_at(a, pc, refs) is Ok,
    ensures
        numbered_at(b, pc, refs) is Ok,
        numbered_at(b, pc, refs)->Ok_0.1 == numbered_at(a, pc, refs)->Ok_0.1,
        forall|k: int|
            pc <= k < a.len() ==> #[trigger] numbered_at(b, pc, refs)->Ok_0.0[k] == numbered_at(
                a,
                pc,
                refs,
            )->Ok_0.0[k],
{
    assert(a[pc] == b[pc]);
    if pc + 1 < a.len() {
        assert(a[pc + 1] == b[pc + 1]);
    }
    if pc + 2 < a.len() {
        assert(a[pc + 2] == b[pc + 2]);
    }
    if pc + 3 < a.len() {
        assert(a[pc + 3] == b[pc + 3]);
    }
    lemma_numbered_step(a, pc, refs);
}

/// The width of an instruction depends on nothing outside of it.
pub proof fn lemma_width_local(a: Seq<u16>, b: Seq<u16>, pc: int)
    requires
        a.len() == b.len(),
        0 <= pc < a.len(),
        a[pc] == b[pc],
        width_at(a, pc) is Ok,
        a[pc] % 256 != 0 || forall|k: int|
            pc <= k < pc + width_at(a, pc)->Ok_0 && k < a.len() ==> #[trigger] a[k] == b[k],
    ensures
        width_at(b, pc) == width_at(a, pc),
{
    if a[pc] % 256 == 0 {
        if pc + 1 < a.len() && width_at(a, pc)->Ok_0 > 1 {
            assert(a[pc + 1] == b[pc + 1]);
        }
        if a[pc] == 0x300 {
            assert(width_at(a, pc)->Ok_0 >= 4) by {
                let size = a[pc + 2] + 0x1_0000 * a[pc + 3];
                lemma_fill_width(a[pc + 1] as int, size);
            }
            assert(a[pc + 2] == b[pc + 2]);
            assert(a[pc + 3] == b[pc + 3]);
        }
    }
}

proof fn lemma_fill_width(unit: int, size: int)
    requires
        0 <= unit <= 0xffff,
        0 <= size <= 0xffff_ffff,
    ensures
        4 <= 4 + (unit * size + 1) / 2 <= u64::MAX,
{
    assert(0 <= unit * size <= 0xffff * 0xffff_ffff) by (nonlinear_arith)
        requires
            0 <= unit <= 0xffff,
            0 <= size <= 0xffff_ffff,
    ;
}

/// Numbering from `pc` on changes nothing before it and only adds references.
pub proof fn lemma_numbered_from(units: Seq<u16>, pc: int, refs: CodeRefs)
    requires
        0 <= pc,
        numbered_from(units, pc, refs) is Ok,
    ensures
        numbered_from(units, pc, refs)->Ok_0.0.len() == units.len(),
        forall|k: int|
            0 <= k < pc && k < units.len() ==> #[trigger] numbered_from(units, pc, refs)->Ok_0.0[k]
                == units[k],
        refs_grow(refs, numbered_from(units, pc, refs)->Ok_0.1),
    decreases units.len() - pc,
{
    if pc < units.len() {
        let (changed, more) = numbered_at(units, pc, refs)->Ok_0;
        let next = pc + width_at(changed, pc)->Ok_0;
        lemma_numbered_step(units, pc, refs);
        lemma_numbered_from(changed, next, more);
        lemma_grow_chain(refs, more, numbered_from(units, pc, refs)->Ok_0.1);
        assert forall|k: int| 0 <= k < pc implies #[trigger] numbered_from(
            units,
            pc,
            refs,
        )->Ok_0.0[k] == units[k] by {
            assert(changed[k] == units[k]);
        }
    }
}

/// Numbering from `pc` on depends on nothing before it.
proof fn lemma_numbered_from_local(a: Seq<u16>, b: Seq<u16>, pc: int, refs: CodeRefs)
    requires
        a.len() == b.len(),
        0 <= pc,
        forall|k: int| pc <= k < a.len() ==> #[trigger] a[k] == b[k],
        numbered_from(a, pc, refs) is Ok,
    ensures
        numbered_from(b, pc, refs) is Ok,
        numbered_from(b, pc, refs)->Ok_0.1 == numbered_from(a, pc, refs)->Ok_0.1,
        forall|k: int|
            pc <= k < a.len() ==> #[trigger] numbered_from(b, pc, refs)->Ok_0.0[k]
                == numbered_from(a, pc, refs)->Ok_0.0[k],
    decreases a.len() - pc,
{
    if pc < a.len() {
        let (c, more) = numbered_at(a, pc, refs)->Ok_0;
        lemma_numbered_step(a, pc, refs);
        lemma_numbered_local(a, b, pc, refs);
        lemma_numbered_step(b, pc, refs);
        let d = numbered_at(b, pc, refs)->Ok_0.0;
        assert forall|k: int| pc <= k < c.len() implies #[trigger] c[k] == d[k] by {
            assert(numbered_at(b, pc, refs)->Ok_0.0[k] == numbered_at(a, pc, refs)->Ok_0.0[k]);
        }
        assert(c[pc] == d[pc]);
        lemma_width_local(c, d, pc);
        let next = pc + width_at(c, pc)->Ok_0;
        lemma_numbered_from_local(c, d, next, more);
        lemma_numbered_from(c, next, more);
        lemma_numbered_from(d, next, more);
        assert forall|k: int| pc <= k < a.len() implies #[trigger] numbered_from(
            b,
            pc,
            refs,
        )->Ok_0.0[k] == numbered_from(a, pc, refs)->Ok_0.0[k] by {
            assert(c[k] == d[k]);
            if k < next {
                assert(numbered_from(c, next, more)->Ok_0.0[k] == c[k]);
                assert(numbered_from(d, next, more)->Ok_0.0[k] == d[k]);
            } else {
                assert(numbered_from(d, next, more)->Ok_0.0[k] == numbered_from(
                    c,
                    next,
                    more,
                )->Ok_0.0[k]);
            }
        }
    }
}

/// What replacing the numbers of one instruction does, beside what replacing
/// its operands does.
spec fn same_step(
    outcome: Result<Seq<u16>, Error>,
    direct: Result<Seq<u16>, Error>,
    numbered: Seq<u16>,
    units: Seq<u16>,
    pc: int,
) -> bool {
    match direct {
        Err(e) => outcome == Err::<Seq<u16>, Error>(e),
        Ok(mapped) => {
            &&& outcome is Ok
            &&& outcome->Ok_0.len() == numbered.len()
            &&& mapped.len() == units.len()
            &&& forall|k: int|
                pc <= k < pc + reach_of(units, pc) && k < units.len()
                    ==> #[trigger] outcome->Ok_0[k] == mapped[k]
            &&& forall|k: int|
                0 <= k < units.len() && !(pc < k < pc + reach_of(units, pc))
                    ==> #[trigger] outcome->Ok_0[k] == numbered[k]
            &&& forall|k: int|
                0 <= k < units.len() && !(pc < k < pc + reach_of(units, pc))
                    ==> #[trigger] mapped[k] == units[k]
        },
    }
}

proof fn lemma_jumbo_step(
    units: Seq<u16>,
    done: Seq<u16>,
    pc: int,
    refs: CodeRefs,
    all: CodeRefs,
    m: Tables,
    dex: DexTables,
)
    requires
        0 <= pc,
        pc + 2 < units.len(),
        done.len() == units.len(),
        operand_of(opcode_at(units, pc)) == Operand::JumboString,
        done[pc] == units[pc],
        wide_operand(done, pc) == number_of(refs.strings, wide_operand(units, pc)),
        starts(with_id(refs.strings, wide_operand(units, pc)), all.strings),
        all.strings.len() <= 0x1_0000_0000,
    ensures
        same_step(
            rewritten_at(done, pc, all, m, dex),
            mapped_at(units, pc, m, dex),
            done,
            units,
            pc,
        ),
{
    let id = wide_operand(units, pc);
    lemma_number(refs.strings, id, all.strings);
    assert(final_string(all, m, dex, wide_operand(done, pc)) == m.mapped_string(dex, id));
}

/// A wide operand that was written reads back as itself.
pub proof fn lemma_wide_operand(units: Seq<u16>, pc: int, index: u32)
    requires
        0 <= pc,
        pc + 2 < units.len(),
    ensures
        wide_operand(with_wide_operand(units, pc, index), pc) == index,
{
    assert(index % 0x1_0000 + 0x1_0000 * (index / 0x1_0000) == index);
}

proof fn lemma_narrow_step(
    units: Seq<u16>,
    done: Seq<u16>,
    pc: int,
    refs: CodeRefs,
    all: CodeRefs,
    m: Tables,
    dex: DexTables,
)
    requires
        0 <= pc < units.len(),
        done.len() == units.len(),
        numbered_at(units, pc, refs) is Ok,
        refs_grow(numbered_at(units, pc, refs)->Ok_0.1, all),
        refs_small(all),
        operand_of(opcode_at(units, pc)) != Operand::Nothing,
        operand_of(opcode_at(units, pc)) != Operand::JumboString,
        done[pc] == units[pc],
        done[pc + 1] == numbered_at(units, pc, refs)->Ok_0.0[pc + 1],
        operand_of(opcode_at(units, pc)) == Operand::MethodAndProto ==> done[pc + 2]
            == units[pc + 2] && done[pc + 3] == numbered_at(units, pc, refs)->Ok_0.0[pc + 3],
    ensures
        same_step(
            rewritten_at(done, pc, all, m, dex),
            mapped_at(units, pc, m, dex),
            done,
            units,
            pc,
        ),
{
    let operand = operand_of(opcode_at(units, pc));
    let id = units[pc + 1] as u32;
    let number = done[pc + 1] as u32;
    if operand == Operand::String {
        lemma_number(refs.strings, id, all.strings);
        assert(number == number_of(refs.strings, id));
        assert(final_string(all, m, dex, number) == m.mapped_string(dex, id));
    } else if operand == Operand::Type {
        lemma_number(refs.types, id, all.types);
        assert(number == number_of(refs.types, id));
        assert(final_type(all, m, number) == m.mapped_type(id));
    } else if operand == Operand::Field {
        lemma_number(refs.fields, id, all.fields);
        assert(number == number_of(refs.fields, id));
        assert(final_field(all, m, number) == m.mapped_field(id));
    } else if operand == Operand::Proto {
        lemma_number(refs.protos, id, all.protos);
        assert(number == number_of(refs.protos, id));
        assert(final_proto(all, m, number) == m.mapped_proto(id));
    } else {
        lemma_number(refs.methods, id, all.methods);
        assert(number == number_of(refs.methods, id));
        assert(final_method(all, m, number) == m.mapped_method(id));
        if operand == Operand::MethodAndProto {
            let proto = units[pc + 3] as u32;
            lemma_number(refs.protos, proto, all.protos);
            assert(done[pc + 3] as u32 == number_of(refs.protos, proto));
            assert(final_proto(all, m, done[pc + 3] as u32) == m.mapped_proto(proto));
        }
    }
}

/// Replacing the numbers of one instruction by new indices does what replacing
/// its operands does.
proof fn lemma_rewritten_step(
    units: Seq<u16>,
    done: Seq<u16>,
    pc: int,
    refs: CodeRefs,
    all: CodeRefs,
    m: Tables,
    dex: DexTables,
)
    requires
        0 <= pc < units.len(),
        done.len() == units.len(),
        numbered_at(units, pc, refs) is Ok,
        refs_grow(numbered_at(units, pc, refs)->Ok_0.1, all),
        refs_small(all),
        forall|k: int|
            pc <= k < pc + reach_of(units, pc) && k < units.len() ==> #[trigger] done[k]
                == numbered_at(units, pc, refs)->Ok_0.0[k],
    ensures
        same_step(
            rewritten_at(done, pc, all, m, dex),
            mapped_at(units, pc, m, dex),
            done,
            units,
            pc,
        ),
{
    let operand = operand_of(opcode_at(units, pc));
    let changed = numbered_at(units, pc, refs)->Ok_0.0;
    lemma_numbered_step(units, pc, refs);
    assert(done[pc] == changed[pc]);
    if operand == Operand::JumboString {
        let id = wide_operand(units, pc);
        assert(done[pc + 1] == changed[pc + 1]);
        assert(done[pc + 2] == changed[pc + 2]);
        lemma_wide_operand(units, pc, number_of(refs.strings, id));
        lemma_jumbo_step(units, done, pc, refs, all, m, dex);
    } else if operand != Operand::Nothing {
        assert(done[pc + 1] == changed[pc + 1]);
        if operand == Operand::MethodAndProto {
            assert(done[pc + 2] == changed[pc + 2]);
            assert(done[pc + 3] == changed[pc + 3]);
        }
        lemma_narrow_step(units, done, pc, refs, all, m, dex);
    }
}

/// Replacing the numbers from `pc` on by new indices does what replacing the
/// operands does.
proof fn lemma_rewritten_from(
    units: Seq<u16>,
    pc: int,
    refs: CodeRefs,
    all: CodeRefs,
    m: Tables,
    dex: DexTables,
)
    requires
        0 <= pc,
        numbered_from(units, pc, refs) is Ok,
        refs_grow(numbered_from(units, pc, refs)->Ok_0.1, all),
        refs_small(all),
    ensures
        rewritten_from(numbered_from(units, pc, refs)->Ok_0.0, pc, all, m, dex) == mapped_from(
            units,
            pc,
            m,
            dex,
        ),
    decreases units.len() - pc,
{
    if pc < units.len() {
        let (changed, more) = numbered_at(units, pc, refs)->Ok_0;
        let (done, last) = numbered_from(units, pc, refs)->Ok_0;
        let width = width_at(changed, pc)->Ok_0;
        let next = pc + width;
        lemma_numbered_step(units, pc, refs);
        lemma_reach(changed, pc);
        lemma_numbered_from(changed, next, more);
        lemma_grow_chain(more, last, all);
        assert forall|k: int|
            pc <= k < pc + reach_of(units, pc) && k < units.len() implies #[trigger] done[k]
            == changed[k] by {
            assert(numbered_from(changed, next, more)->Ok_0.0[k] == changed[k]);
        }
        lemma_rewritten_step(units, done, pc, refs, all, m, dex);
        if mapped_at(units, pc, m, dex) is Ok {
            let mapped = mapped_at(units, pc, m, dex)->Ok_0;
            let written = rewritten_at(done, pc, all, m, dex)->Ok_0;
            lemma_next_step(units, changed, done, mapped, written, pc, width);
            lemma_numbered_from_local(changed, mapped, next, more);
            lemma_numbered_from(mapped, next, more);
            assert(written =~= numbered_from(mapped, next, more)->Ok_0.0) by {
                assert forall|k: int| 0 <= k < units.len() implies written[k] == numbered_from(
                    mapped,
                    next,
                    more,
                )->Ok_0.0[k] by {
                    if k < next {
                        assert(numbered_from(mapped, next, more)->Ok_0.0[k] == mapped[k]);
                        assert(numbered_from(changed, next, more)->Ok_0.0[k] == changed[k]);
                        assert(written[k] == mapped[k]);
                    } else {
                        assert(numbered_from(mapped, next, more)->Ok_0.0[k] == numbered_from(
                            changed,
                            next,
                            more,
                        )->Ok_0.0[k]);
                        assert(written[k] == done[k]);
                    }
                }
            }
            lemma_rewritten_from(mapped, next, more, all, m, dex);
        }
    }
}

/// Where two walks over the same instructions stand after one of them.
proof fn lemma_next_step(
    units: Seq<u16>,
    changed: Seq<u16>,
    done: Seq<u16>,
    mapped: Seq<u16>,
    written: Seq<u16>,
    pc: int,
    width: u64,
)
    requires
        0 <= pc < units.len(),
        changed.len() == units.len(),
        done.len() == units.len(),
        width_at(changed, pc) == Ok::<u64, Error>(width),
        width > 0,
        pc + width <= units.len(),
        reach_of(units, pc) <= width,
        changed[pc] == units[pc],
        operand_of(opcode_at(units, pc)) == Operand::Nothing ==> changed == units,
        forall|k: int|
            0 <= k < units.len() && (k <= pc || pc + reach_of(units, pc) <= k)
                ==> #[trigger] changed[k] == units[k],
        forall|k: int| 0 <= k < pc + width ==> #[trigger] done[k] == changed[k],
        same_step(
            Ok::<Seq<u16>, Error>(written),
            Ok::<Seq<u16>, Error>(mapped),
            done,
            units,
            pc,
        ),
        operand_of(opcode_at(changed, pc)) != Operand::Nothing ==> changed[pc] % 256 != 0,
    ensures
        width_at(mapped, pc) == Ok::<u64, Error>(width),
        width_at(written, pc) == Ok::<u64, Error>(width),
        forall|k: int| pc + width <= k < units.len() ==> #[trigger] changed[k] == mapped[k],
        forall|k: int| 0 <= k < pc + width ==> #[trigger] written[k] == mapped[k],
        forall|k: int| pc + width <= k < units.len() ==> #[trigger] written[k] == done[k],
{
    let outcome = Ok::<Seq<u16>, Error>(written);
    assert forall|k: int| pc + width <= k < units.len() implies #[trigger] changed[k]
        == mapped[k] by {
        assert(mapped[k] == units[k]);
    }
    assert forall|k: int| 0 <= k < pc + width implies #[trigger] written[k] == mapped[k] by {
        if pc <= k < pc + reach_of(units, pc) {
            assert(outcome->Ok_0[k] == mapped[k]);
        } else {
            assert(outcome->Ok_0[k] == done[k]);
            assert(mapped[k] == units[k]);
            assert(done[k] == changed[k]);
        }
    }
    assert forall|k: int| pc + width <= k < units.len() implies #[trigger] written[k]
        == done[k] by {
        assert(outcome->Ok_0[k] == done[k]);
    }
    assert(outcome->Ok_0[pc] == done[pc]);
    assert(written[pc] == changed[pc]);
    if operand_of(opcode_at(units, pc)) == Operand::Nothing {
        assert forall|k: int| pc <= k < pc + width && k < changed.len() implies #[trigger] changed[k]
            == written[k] by {
            assert(outcome->Ok_0[k] == done[k]);
        }
        assert forall|k: int| pc <= k < pc + width && k < changed.len() implies #[trigger] changed[k]
            == mapped[k] by {
            assert(mapped[k] == units[k]);
        }
    }
    lemma_width_local(changed, written, pc);
    lemma_width_local(changed, mapped, pc);
}

/// The instructions of a method get the new index of whatever each operand
/// points at, and change in nothing else.
pub proof fn lemma_operands_mapped(
    insns: Seq<u8>,
    refs: CodeRefs,
    all: CodeRefs,
    m: Tables,
    dex: DexTables,
)
    requires
        numbered(insns, refs) is Ok,
        refs_grow(numbered(insns, refs)->Ok_0.1, all),
        refs_small(all),
    ensures
        rewritten(numbered(insns, refs)->Ok_0.0, all, m, dex) == match mapped_from(
            units_of(insns),
            0,
            m,
            dex,
        ) {
            Err(e) => Err(e),
            Ok(units) => Ok(unit_bytes(units)),
        },
{
    let units = numbered_from(units_of(insns), 0, refs)->Ok_0.0;
    lemma_unit_bytes_round_trip(units);
    lemma_rewritten_from(units_of(insns), 0, refs, all, m, dex);
}

// ---------------------------------------------------------------------------
// All methods of a class
// ---------------------------------------------------------------------------

/// Whether no identifier occurs twice, and all of them fit into a code unit.
pub open spec fn narrow_ids(ids: Seq<u32>) -> bool {
    ids.no_duplicates() && forall|i: int| 0 <= i < ids.len() ==> #[trigger] ids[i] <= 0xffff
}

/// Whether no identifier occurs twice, and those other than strings fit into a
/// code unit: no instruction has more room for them.
pub open spec fn refs_narrow(r: CodeRefs) -> bool {
    &&& r.strings.no_duplicates()
    &&& narrow_ids(r.types)
    &&& narrow_ids(r.fields)
    &&& narrow_ids(r.methods)
    &&& narrow_ids(r.protos)
}

/// Identifiers below a bound that do not repeat are no more than the bound.
pub proof fn lemma_ids_length(ids: Seq<u32>, bound: int)
    requires
        ids.no_duplicates(),
        0 <= bound,
        forall|i: int| 0 <= i < ids.len() ==> #[trigger] ids[i] < bound,
    ensures
        ids.len() <= bound,
{
    let numbers = ids.map_values(|x: u32| x as int);
    assert(numbers.no_duplicates());
    vstd::seq_lib::seq_to_set_is_finite(numbers);
    numbers.unique_seq_to_set();
    vstd::set_lib::lemma_int_range(0, bound);
    let range = vstd::set_lib::set_int_range(0, bound);
    assert(numbers.to_set().subset_of(range)) by {
        assert forall|x: int| numbers.to_set().contains(x) implies range.contains(x) by {
            let i = choose|i: int| 0 <= i < numbers.len() && numbers[i] == x;
            assert(ids[i] < bound);
        }
    }
    vstd::set_lib::lemma_len_subset(numbers.to_set(), range);
}

proof fn lemma_with_narrow(ids: Seq<u32>, id: u32)
    requires
        narrow_ids(ids),
        id <= 0xffff,
    ensures
        narrow_ids(with_id(ids, id)),
{
}

pub proof fn lemma_numbered_narrow(units: Seq<u16>, pc: int, refs: CodeRefs)
    requires
        0 <= pc,
        numbered_from(units, pc, refs) is Ok,
        refs_narrow(refs),
    ensures
        refs_narrow(numbered_from(units, pc, refs)->Ok_0.1),
    decreases units.len() - pc,
{
    if pc < units.len() {
        let (changed, more) = numbered_at(units, pc, refs)->Ok_0;
        let operand = operand_of(opcode_at(units, pc));
        if operand != Operand::Nothing && operand != Operand::JumboString {
            let id = units[pc + 1] as u32;
            lemma_with_narrow(refs.types, id);
            lemma_with_narrow(refs.fields, id);
            lemma_with_narrow(refs.methods, id);
            lemma_with_narrow(refs.protos, id);
            if operand == Operand::MethodAndProto {
                lemma_with_narrow(refs.protos, units[pc + 3] as u32);
            }
        }
        assert(more.strings.no_duplicates());
        lemma_numbered_narrow(changed, pc + width_at(changed, pc)->Ok_0, more);
    }
}

/// Reading the code of the methods from `i` on only adds references, and
/// leaves the code of other methods alone.
pub proof fn lemma_codes_run(
    data: Seq<u8>,
    methods: Seq<EncodedMethod>,
    s: (Entries<Code>, CodeRefs),
    i: int,
    id: u32,
)
    requires
        0 <= i,
        s.0.wf(),
        refs_narrow(s.1),
        run(code_step(data, methods), s, i, methods.len() as int) is Ok,
        forall|k: int|
            i <= k < methods.len() && (#[trigger] methods[k]).code_off != 0
                ==> methods[k].method_idx != id,
    ensures
        ({
            let (codes, all) = run(code_step(data, methods), s, i, methods.len() as int)->Ok_0;
            &&& codes.get(id) == s.0.get(id)
            &&& refs_grow(s.1, all)
            &&& refs_narrow(all)
        }),
    decreases methods.len() - i,
{
    if i < methods.len() {
        let next = code_step(data, methods)(s, i)->Ok_0;
        if methods[i].code_off != 0 {
            let code = code_in(data, methods[i].code_off as int)->Ok_0;
            let (insns, refs) = numbered(code.insns, s.1)->Ok_0;
            lemma_numbered_from(units_of(code.insns), 0, s.1);
            lemma_numbered_narrow(units_of(code.insns), 0, s.1);
            lemma_put_get(s.0, methods[i].method_idx, Code { insns, ..code }, id);
        }
        lemma_codes_run(data, methods, next, i + 1, id);
        lemma_grow_chain(
            s.1,
            next.1,
            run(code_step(data, methods), s, i, methods.len() as int)->Ok_0.1,
        );
    }
}

/// The code that is kept for the last method `j` with its index: the code it
/// had, with its operands numbered. The result is the references before it.
pub proof fn lemma_code_of_method(
    data: Seq<u8>,
    methods: Seq<EncodedMethod>,
    s: (Entries<Code>, CodeRefs),
    i: int,
    j: int,
) -> (refs: CodeRefs)
    requires
        0 <= i <= j < methods.len(),
        s.0.wf(),
        refs_narrow(s.1),
        run(code_step(data, methods), s, i, methods.len() as int) is Ok,
        methods[j].code_off != 0,
        forall|k: int|
            j < k < methods.len() && (#[trigger] methods[k]).code_off != 0
                ==> methods[k].method_idx != methods[j].method_idx,
    ensures
        ({
            let (codes, all) = run(code_step(data, methods), s, i, methods.len() as int)->Ok_0;
            let code = code_in(data, methods[j].code_off as int)->Ok_0;
            &&& code_in(data, methods[j].code_off as int) is Ok
            &&& numbered(code.insns, refs) is Ok
            &&& refs_grow(numbered(code.insns, refs)->Ok_0.1, all)
            &&& refs_narrow(all)
            &&& codes.get(methods[j].method_idx) == Some(
                (Code { insns: numbered(code.insns, refs)->Ok_0.0, ..code }),
            )
        }),
    decreases methods.len() - i,
{
    let next = code_step(data, methods)(s, i)->Ok_0;
    if methods[i].code_off != 0 {
        let code = code_in(data, methods[i].code_off as int)->Ok_0;
        let insns = numbered(code.insns, s.1)->Ok_0.0;
        lemma_numbered_from(units_of(code.insns), 0, s.1);
        lemma_numbered_narrow(units_of(code.insns), 0, s.1);
        lemma_put_get(
            s.0,
            methods[i].method_idx,
            Code { insns, ..code },
            methods[j].method_idx,
        );
    }
    if i == j {
        lemma_codes_run(data, methods, next, i + 1, methods[j].method_idx);
        s.1
    } else {
        lemma_code_of_method(data, methods, next, i + 1, j)
    }
}

/// References that fit into the operands have numbers that fit.
pub proof fn lemma_narrow_small(r: CodeRefs)
    requires
        refs_narrow(r),
    ensures
        refs_small(r),
{
    lemma_ids_length(r.strings, 0x1_0000_0000);
    lemma_ids_length(r.types, 0x1_0000);
    lemma_ids_length(r.fields, 0x1_0000);
    lemma_ids_length(r.methods, 0x1_0000);
    lemma_ids_length(r.protos, 0x1_0000);
}

} // verus!
