//! Which instructions a search for references finds.
use vstd::prelude::*;

use crate::dex::references::{reference_at, sites_from, span_sites, span_sites_step, ReferenceSite};
use crate::dex::{DexContents, ReferenceKind};
use crate::dex_format::formats::format_of;
use crate::dex_format::{bytes_in, units_of, width_at};
use crate::minidex::bytecode::{noted_at, opcode_at, CodeRefs};
use crate::results::run;

verus! {

/// Which opcodes refer to what. Fields: the reads `iget` (0x52 on) and `sget`
/// (0x60 on) and the writes `iput` (0x59 on) and `sput` (0x67 on), fourteen of
/// either. Methods: the five kinds of `invoke`, with and without `/range`, and
/// `invoke-polymorphic`. Types: `const-class`, `check-cast`, `instance-of`,
/// `new-instance`, `new-array` and both forms of `filled-new-array`. Strings:
/// `const-string`, and `const-string/jumbo` with two units. No other opcode
/// refers to anything.
pub proof fn lemma_reference_opcodes(opcode: u8, units: Seq<u16>, pc: int)
    requires
        0 <= pc < units.len(),
    ensures
        (0x52 <= opcode <= 0x6d) && pc + 1 < units.len() ==> reference_at(
            ReferenceKind::Field,
            opcode,
            units,
            pc,
        ) == Some(units[pc + 1] as u32),
        !((0x52 <= opcode <= 0x6d) && pc + 1 < units.len()) ==> reference_at(
            ReferenceKind::Field,
            opcode,
            units,
            pc,
        ) is None,
        (0x6e <= opcode <= 0x72 || 0x74 <= opcode <= 0x78 || 0xfa <= opcode <= 0xfb) && pc + 1
            < units.len() ==> reference_at(ReferenceKind::Method, opcode, units, pc) == Some(
            units[pc + 1] as u32,
        ),
        !((0x6e <= opcode <= 0x72 || 0x74 <= opcode <= 0x78 || 0xfa <= opcode <= 0xfb) && pc + 1
            < units.len()) ==> reference_at(ReferenceKind::Method, opcode, units, pc) is None,
        (opcode == 0x1c || opcode == 0x1f || opcode == 0x20 || 0x22 <= opcode <= 0x25) && pc + 1
            < units.len() ==> reference_at(ReferenceKind::Type, opcode, units, pc) == Some(
            units[pc + 1] as u32,
        ),
        !((opcode == 0x1c || opcode == 0x1f || opcode == 0x20 || 0x22 <= opcode <= 0x25) && pc + 1
            < units.len()) ==> reference_at(ReferenceKind::Type, opcode, units, pc) is None,
        opcode == 0x1a && pc + 1 < units.len() ==> reference_at(
            ReferenceKind::String,
            opcode,
            units,
            pc,
        ) == Some(units[pc + 1] as u32),
        opcode == 0x1b && pc + 2 < units.len() ==> (reference_at(
            ReferenceKind::String,
            opcode,
            units,
            pc,
        ) matches Some(t) && t % 0x1_0000 == units[pc + 1] && t / 0x1_0000 == units[pc + 2]),
        !(opcode == 0x1a && pc + 1 < units.len() || opcode == 0x1b && pc + 2 < units.len())
            ==> reference_at(ReferenceKind::String, opcode, units, pc) is None,
{
}

/// An instruction has room for the reference that it makes: its format ends in
/// a constant of a table, and the units of the constant are part of it.
pub proof fn lemma_reference_within(kind: ReferenceKind, opcode: u8, units: Seq<u16>, pc: int)
    requires
        reference_at(kind, opcode, units, pc) is Some,
    ensures
        ({
            let format = format_of(opcode);
            ||| format is Format21c
            ||| format is Format22c
            ||| format is Format31c
            ||| format is Format35c
            ||| format is Format3rc
            ||| format is Format45cc
            ||| format is Format4rcc
        }),
        pc + 2 <= units.len(),
        format_of(opcode) is Format31c ==> pc + 3 <= units.len(),
{
}

/// Extraction and search agree on every instruction: what extraction gathers
/// of strings, types, fields and methods is what a search of that kind finds,
/// reads and writes alike.
pub proof fn lemma_gathered_is_found(units: Seq<u16>, pc: int, refs: CodeRefs, t: u32)
    requires
        0 <= pc < units.len(),
    ensures
        noted_at(units, pc, refs).fields.contains(t) <==> refs.fields.contains(t) || reference_at(
            ReferenceKind::Field,
            opcode_at(units, pc),
            units,
            pc,
        ) == Some(t),
        noted_at(units, pc, refs).methods.contains(t) <==> refs.methods.contains(t)
            || reference_at(ReferenceKind::Method, opcode_at(units, pc), units, pc) == Some(t),
        noted_at(units, pc, refs).types.contains(t) <==> refs.types.contains(t) || reference_at(
            ReferenceKind::Type,
            opcode_at(units, pc),
            units,
            pc,
        ) == Some(t),
        noted_at(units, pc, refs).strings.contains(t) <==> refs.strings.contains(t)
            || reference_at(ReferenceKind::String, opcode_at(units, pc), units, pc) == Some(t),
{
    broadcast use vstd::seq_lib::group_seq_properties;

}

// ---------------------------------------------------------------------------
// All instructions of the code
// ---------------------------------------------------------------------------

/// Whether an instruction starts at `pc` in code that is walked from `from` on.
pub open spec fn starts_at(units: Seq<u16>, from: int, pc: int) -> bool
    decreases units.len() - from,
{
    if from >= units.len() {
        false
    } else if from == pc {
        true
    } else {
        match width_at(units, from) {
            Ok(width) => width > 0 && from + width <= units.len() && starts_at(
                units,
                from + width,
                pc,
            ),
            Err(_) => false,
        }
    }
}

proof fn lemma_starts_later(units: Seq<u16>, from: int, pc: int)
    requires
        starts_at(units, from, pc),
    ensures
        from <= pc < units.len(),
    decreases units.len() - from,
{
    if from != pc {
        let width = width_at(units, from)->Ok_0;
        lemma_starts_later(units, from + width, pc);
    }
}

/// Whether the instruction at `pc` makes a site of the given kind.
pub open spec fn makes_site(
    kind: ReferenceKind,
    caller: u32,
    units: Seq<u16>,
    from: int,
    x: ReferenceSite,
) -> bool {
    &&& x.caller_index == caller
    &&& starts_at(units, from, x.code_unit_offset as int)
    &&& reference_at(
        kind,
        opcode_at(units, x.code_unit_offset as int),
        units,
        x.code_unit_offset as int,
    ) == Some(x.target_index)
}

/// The sites of a code item are its instructions that refer to something of the
/// kind: every one of them, and nothing else.
pub proof fn lemma_sites_complete(
    kind: ReferenceKind,
    caller: u32,
    units: Seq<u16>,
    pc: int,
    sites: Seq<ReferenceSite>,
    x: ReferenceSite,
)
    requires
        0 <= pc,
        units.len() <= u32::MAX,
        sites_from(kind, caller, units, pc, sites) is Ok,
    ensures
        sites_from(kind, caller, units, pc, sites)->Ok_0.contains(x) <==> sites.contains(x)
            || makes_site(kind, caller, units, pc, x),
    decreases units.len() - pc,
{
    if pc < units.len() {
        let width = width_at(units, pc)->Ok_0;
        let found = reference_at(kind, opcode_at(units, pc), units, pc);
        let more = match found {
            Some(target) => sites.push(
                ReferenceSite {
                    caller_index: caller,
                    target_index: target,
                    code_unit_offset: pc as u32,
                },
            ),
            None => sites,
        };
        lemma_sites_complete(kind, caller, units, pc + width, more, x);
        if makes_site(kind, caller, units, pc + width, x) {
            lemma_starts_later(units, pc + width, x.code_unit_offset as int);
        }
        if found is Some {
            let site = ReferenceSite {
                caller_index: caller,
                target_index: found->Some_0,
                code_unit_offset: pc as u32,
            };
            assert(more.contains(x) <==> sites.contains(x) || x == site) by {
                broadcast use vstd::seq_lib::group_seq_properties;

            }
        }
    }
}

/// Whether `x` is an instruction of code item `i` that refers to something of
/// the given kind.
pub open spec fn site_in(d: DexContents, kind: ReferenceKind, i: int, x: ReferenceSite) -> bool {
    let span = d.code[i];
    makes_site(
        kind,
        span.method_idx,
        units_of(bytes_in(d.tables.data, span.insns_offset as int, span.insns_size * 2)->Ok_0),
        0,
        x,
    )
}

proof fn lemma_sites_from_span(
    d: DexContents,
    kind: ReferenceKind,
    n: int,
    sites: Seq<ReferenceSite>,
    x: ReferenceSite,
)
    requires
        0 <= n <= d.code.len(),
        d.indexed(),
        run(span_sites_step(kind, d.tables.data, d.code), sites, n, d.code.len() as int) is Ok,
    ensures
        run(
            span_sites_step(kind, d.tables.data, d.code),
            sites,
            n,
            d.code.len() as int,
        )->Ok_0.contains(x) <==> sites.contains(x) || exists|i: int|
            n <= i < d.code.len() && #[trigger] site_in(d, kind, i, x),
    decreases d.code.len() - n,
{
    if n < d.code.len() {
        let span = d.code[n];
        let step = span_sites_step(kind, d.tables.data, d.code);
        let bytes = bytes_in(d.tables.data, span.insns_offset as int, span.insns_size * 2)->Ok_0;
        assert(step(sites, n) == span_sites(kind, d.tables.data, span, sites));
        assert(bytes.len() == span.insns_size * 2);
        assert(units_of(bytes).len() == span.insns_size);
        lemma_sites_complete(kind, span.method_idx, units_of(bytes), 0, sites, x);
        lemma_sites_from_span(d, kind, n + 1, step(sites, n)->Ok_0, x);
        if exists|i: int| n <= i < d.code.len() && #[trigger] site_in(d, kind, i, x) {
            let i = choose|i: int| n <= i < d.code.len() && #[trigger] site_in(d, kind, i, x);
            if i == n {
                assert(site_in(d, kind, n, x));
            }
        }
        if exists|i: int| n + 1 <= i < d.code.len() && #[trigger] site_in(d, kind, i, x) {
            let i = choose|i: int| n + 1 <= i < d.code.len() && #[trigger] site_in(d, kind, i, x);
            assert(n <= i < d.code.len() && site_in(d, kind, i, x));
        }
        if makes_site(kind, span.method_idx, units_of(bytes), 0, x) {
            assert(site_in(d, kind, n, x));
        }
    }
}

/// The sites of a DEX file are the instructions of all its code items that
/// refer to something of the kind.
pub proof fn lemma_all_sites(d: DexContents, kind: ReferenceKind, x: ReferenceSite)
    requires
        d.indexed(),
        d.all_sites(kind) is Ok,
    ensures
        d.all_sites(kind)->Ok_0.contains(x) <==> exists|i: int|
            0 <= i < d.code.len() && #[trigger] site_in(d, kind, i, x),
{
    lemma_sites_from_span(d, kind, 0, Seq::empty(), x);
}

} // verus!
