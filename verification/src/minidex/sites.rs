//! The reference sites of an extracted file: the same, as texts, that the code
//! of the class has in its source.
use vstd::prelude::*;

use vstd::seq_lib::lemma_multiset_commutative;

use crate::collections::{low32, Entries};
use crate::dex::probe::{class_text_reader, class_texts_in};
use crate::dex::references::{
    lemma_picked_members, reference_at, sites_from, span_sites, span_sites_step, ReferenceSite,
};
use crate::dex::{
    class_entry_reader, class_spans_in, class_step, no_code, numbered_text, CodeSpan, DexContents,
    FoundCode, ReferenceKind,
};
use crate::dex_format::{bytes_in, u32_in, units_of, width_at};
use crate::error::Error;
use crate::minidex::bytecode::{
    lemma_unit_bytes_round_trip, opcode_at, operand_of, wide_operand, CodeRefs, Operand,
};
use crate::minidex::canonical::picked;
use crate::minidex::fidelity::{
    lemma_extracted_class, lemma_extracted_code, lemma_extracted_instructions,
    lemma_extracted_layout, lemma_extracted_members, lemma_extracted_readable,
    lemma_extracted_tables, sections_for,
};
use crate::minidex::gather::gathered;
use crate::minidex::hollow::{codes_of, parts_of};
use crate::minidex::leb::uleb_bytes;
use crate::minidex::meaning::MethodMeaning;
use crate::minidex::members::{new_members, new_methods};
use crate::minidex::operands::{
    lemma_code_of_method, lemma_codes_run, lemma_reach, lemma_wide_operand, lemma_width_local,
    mapped_at, mapped_from, reach_of,
};
use crate::minidex::placement::{
    code_stands_at, lemma_class_stands, lemma_codes_ok, lemma_relinked_codes_ok,
};
use crate::minidex::reader::{
    code_in, lemma_tables_sized, members_in, word_reader, ClassDef, Code, DexTables, EncodedMethod,
    Members,
};
use crate::minidex::sections::{
    field_ranks, fields_bytes, fields_in_order, members_bytes, method_rank, method_ranks,
    methods_bytes, methods_in_order, or_zero,
};
use crate::minidex::spans::{
    lemma_class_found, lemma_class_in_contents, lemma_class_searched, lemma_code_span,
    lemma_spans_add, method_fits, span_of, spans_of, spans_stand,
};
use crate::minidex::tableback::reads_as;
use crate::minidex::tables::{lemma_position, Tables};
use crate::minidex::{class_of, extracted_from, linked};
use crate::order::{lemma_place_from, lemma_sort_order, place_from, sort_order};
use crate::results::{collect, lemma_collect_ok, run};

verus! {

// ---------------------------------------------------------------------------
// Texts
// ---------------------------------------------------------------------------

/// A method as it is printed: its text, or its number where it has none.
pub open spec fn shown_method(d: DexContents, index: u32) -> Seq<char> {
    match d.method_text(index as int) {
        Ok(text) => text,
        Err(_) => numbered_text("method"@, index),
    }
}

/// An identifier as it is printed: its text, or its number where it has none.
pub open spec fn shown_match(d: DexContents, kind: ReferenceKind, index: u32) -> Seq<char> {
    match d.match_text(kind, index as int) {
        Ok(text) => text,
        Err(_) => numbered_text(kind.name(), index),
    }
}

/// A reference site as it is printed.
#[verifier::ext_equal]
pub struct SiteText {
    pub caller: Seq<char>,
    pub code_unit_offset: u32,
    pub target: Seq<char>,
}

pub open spec fn site_text(d: DexContents, kind: ReferenceKind, site: ReferenceSite) -> SiteText {
    SiteText {
        caller: shown_method(d, site.caller_index),
        code_unit_offset: site.code_unit_offset,
        target: shown_match(d, kind, site.target_index),
    }
}

pub open spec fn site_texts(d: DexContents, kind: ReferenceKind, sites: Seq<ReferenceSite>) -> Seq<
    SiteText,
> {
    sites.map_values(|s: ReferenceSite| site_text(d, kind, s))
}

/// Names one behind the other.
spec fn joined_names(names: Seq<Seq<char>>, n: nat) -> Seq<char>
    decreases n,
{
    if n == 0 {
        Seq::empty()
    } else {
        joined_names(names, (n - 1) as nat) + names[n - 1]
    }
}

/// The text of a method that stands for something.
spec fn meaning_text(m: MethodMeaning) -> Seq<char> {
    m.class + "->"@ + m.name + "("@ + joined_names(m.proto.params, m.proto.params.len()) + ")"@
        + m.proto.result
}

proof fn lemma_joined(d: DexContents, list: Seq<u16>, n: nat)
    requires
        n <= list.len(),
    ensures
        d.joined_types(list, n) == joined_names(d.tables.names_of_types(list), n),
    decreases n,
{
    if n > 0 {
        lemma_joined(d, list, (n - 1) as nat);
    }
}

proof fn lemma_method_meaning_text(d: DexContents, k: u32)
    requires
        d.tables.method_readable(k),
    ensures
        d.method_text(k as int) == Ok::<Seq<char>, Error>(
            meaning_text(d.tables.method_meaning(k as int)),
        ),
{
    let m = d.tables.methods[k as int];
    let p = d.tables.protos[m.proto_idx as int];
    let list = d.tables.type_list(p.parameters_off)->Ok_0;
    lemma_joined(d, list, list.len());
}

/// What two DEX files have to do with each other, of which one holds what was
/// gathered from the other.
pub open spec fn gathered_in(d: DexContents, e: DexContents, m: Tables) -> bool {
    &&& m.ok()
    &&& m.faithful(d.tables)
    &&& m.readable(d.tables)
    &&& reads_as(e.tables, m)
    &&& m.strings.len() <= u32::MAX
}

/// A method that was gathered has the same text in both files.
proof fn lemma_method_shown(d: DexContents, e: DexContents, m: Tables, k: u32)
    requires
        gathered_in(d, e, m),
        m.origin_methods.contains_key(k),
    ensures
        shown_method(e, m.origin_methods[k] as u32) == shown_method(d, k),
        shown_match(e, ReferenceKind::Method, m.origin_methods[k] as u32) == shown_match(
            d,
            ReferenceKind::Method,
            k,
        ),
{
    let t = e.tables;
    let i = m.origin_methods[k];
    assert(m.method_ok(m.methods[i as int]));
    let p = t.methods[i as int].proto_idx as int;
    assert(t.protos[p].return_type_idx == m.protos[p].return_type_idx);
    assert(t.type_list(t.protos[p].parameters_off) == Ok::<Seq<u16>, Error>(m.protos[p].params));
    assert(t.names_of_types(m.protos[p].params) =~= m.names_of_types(m.protos[p].params));
    assert(t.method_readable(i as u32));
    assert(t.method_meaning(i as int) == m.method_meaning(m.methods[i as int]));
    lemma_method_meaning_text(d, k);
    lemma_method_meaning_text(e, i as u32);
}

proof fn lemma_field_shown(d: DexContents, e: DexContents, m: Tables, k: u32)
    requires
        gathered_in(d, e, m),
        m.origin_fields.contains_key(k),
    ensures
        shown_match(e, ReferenceKind::Field, m.origin_fields[k] as u32) == shown_match(
            d,
            ReferenceKind::Field,
            k,
        ),
{
    let i = m.origin_fields[k] as int;
    assert(e.tables.fields[i].class_idx == m.fields[i].class_idx);
    assert(m.field_meaning(m.fields[i]) == d.tables.field_meaning(k as int));
    assert(e.tables.field_meaning(i) == d.tables.field_meaning(k as int));
}

proof fn lemma_type_shown(d: DexContents, e: DexContents, m: Tables, k: u32)
    requires
        gathered_in(d, e, m),
        m.origin_types.contains_key(k),
    ensures
        shown_match(e, ReferenceKind::Type, m.origin_types[k] as u32) == shown_match(
            d,
            ReferenceKind::Type,
            k,
        ),
{
    assert(m.name_of_type(m.origin_types[k] as int) == d.tables.name_of_type(k as int));
}

proof fn lemma_string_shown(d: DexContents, e: DexContents, m: Tables, k: u32)
    requires
        gathered_in(d, e, m),
        m.mapped_string(d.tables, k) is Ok,
    ensures
        shown_match(e, ReferenceKind::String, m.mapped_string(d.tables, k)->Ok_0) == shown_match(
            d,
            ReferenceKind::String,
            k,
        ),
{
    lemma_position(m.strings, d.tables.strings[k as int]);
}

// ---------------------------------------------------------------------------
// One method
// ---------------------------------------------------------------------------

/// Giving an instruction new indices changes only its operands.
pub proof fn lemma_mapped_step(units: Seq<u16>, pc: int, m: Tables, dex: DexTables)
    requires
        0 <= pc < units.len(),
        mapped_at(units, pc, m, dex) is Ok,
    ensures
        ({
            let changed = mapped_at(units, pc, m, dex)->Ok_0;
            &&& changed.len() == units.len()
            &&& forall|k: int|
                0 <= k < units.len() && (k <= pc || pc + reach_of(units, pc) <= k)
                    ==> #[trigger] changed[k] == units[k]
            &&& operand_of(opcode_at(units, pc)) == Operand::Nothing ==> changed == units
        }),
{
}

/// New indices from `pc` on leave what is before.
pub proof fn lemma_mapped_keeps(units: Seq<u16>, pc: int, m: Tables, dex: DexTables)
    requires
        0 <= pc,
        mapped_from(units, pc, m, dex) is Ok,
    ensures
        mapped_from(units, pc, m, dex)->Ok_0.len() == units.len(),
        forall|k: int|
            0 <= k < pc && k < units.len() ==> #[trigger] mapped_from(units, pc, m, dex)->Ok_0[k]
                == units[k],
    decreases units.len() - pc,
{
    if pc < units.len() {
        let changed = mapped_at(units, pc, m, dex)->Ok_0;
        lemma_mapped_step(units, pc, m, dex);
        lemma_mapped_keeps(changed, pc + width_at(changed, pc)->Ok_0, m, dex);
        assert forall|k: int| 0 <= k < pc && k < units.len() implies #[trigger] mapped_from(
            units,
            pc,
            m,
            dex,
        )->Ok_0[k] == units[k] by {
            assert(changed[k] == units[k]);
        }
    }
}

/// One instruction refers to the same thing before and after, if to anything.
proof fn lemma_reference_mapped(
    d: DexContents,
    e: DexContents,
    m: Tables,
    kind: ReferenceKind,
    units: Seq<u16>,
    changed: Seq<u16>,
    pc: int,
)
    requires
        gathered_in(d, e, m),
        0 <= pc < units.len(),
        mapped_at(units, pc, m, d.tables) == Ok::<Seq<u16>, Error>(changed),
    ensures
        opcode_at(changed, pc) == opcode_at(units, pc),
        reference_at(kind, opcode_at(units, pc), units, pc) is Some <==> reference_at(
            kind,
            opcode_at(changed, pc),
            changed,
            pc,
        ) is Some,
        reference_at(kind, opcode_at(units, pc), units, pc) matches Some(a) ==> shown_match(
            e,
            kind,
            reference_at(kind, opcode_at(changed, pc), changed, pc)->Some_0,
        ) == shown_match(d, kind, a),
{
    lemma_mapped_step(units, pc, m, d.tables);
    let operand = operand_of(opcode_at(units, pc));
    assert(changed[pc] == units[pc]);
    if operand == Operand::JumboString {
        let id = wide_operand(units, pc);
        lemma_string_shown(d, e, m, id);
        lemma_wide_operand(units, pc, m.mapped_string(d.tables, id)->Ok_0);
    } else if operand != Operand::Nothing {
        let id = units[pc + 1] as u32;
        if operand == Operand::String {
            lemma_string_shown(d, e, m, id);
        } else if operand == Operand::Type {
            lemma_type_shown(d, e, m, id);
        } else if operand == Operand::Field {
            lemma_field_shown(d, e, m, id);
        } else if operand == Operand::Method || operand == Operand::MethodAndProto {
            lemma_method_shown(d, e, m, id);
        }
    }
}

/// What an instruction refers to depends on nothing outside of it.
proof fn lemma_reference_local(kind: ReferenceKind, a: Seq<u16>, b: Seq<u16>, pc: int)
    requires
        a.len() == b.len(),
        0 <= pc < a.len(),
        width_at(a, pc) is Ok,
        width_at(a, pc)->Ok_0 > 0,
        forall|k: int|
            pc <= k < pc + width_at(a, pc)->Ok_0 && k < a.len() ==> #[trigger] a[k] == b[k],
    ensures
        width_at(b, pc) == width_at(a, pc),
        opcode_at(b, pc) == opcode_at(a, pc),
        reference_at(kind, opcode_at(b, pc), b, pc) == reference_at(
            kind,
            opcode_at(a, pc),
            a,
            pc,
        ),
{
    lemma_reach(a, pc);
    lemma_width_local(a, b, pc);
    assert(a[pc] == b[pc]);
    if operand_of(opcode_at(a, pc)) != Operand::Nothing {
        if pc + 1 < a.len() {
            assert(a[pc + 1] == b[pc + 1]);
        }
        if operand_of(opcode_at(a, pc)) == Operand::JumboString && pc + 2 < a.len() {
            assert(a[pc + 2] == b[pc + 2]);
        }
    }
}

/// The code of a method has the same sites, as texts, with new indices.
proof fn lemma_sites_mapped(
    d: DexContents,
    e: DexContents,
    m: Tables,
    kind: ReferenceKind,
    caller: u32,
    source: Seq<u16>,
    units: Seq<u16>,
    pc: int,
    a: Seq<ReferenceSite>,
    b: Seq<ReferenceSite>,
)
    requires
        gathered_in(d, e, m),
        m.origin_methods.contains_key(caller),
        0 <= pc,
        source.len() == units.len(),
        forall|k: int| pc <= k < units.len() ==> #[trigger] source[k] == units[k],
        mapped_from(units, pc, m, d.tables) is Ok,
        site_texts(d, kind, a) == site_texts(e, kind, b),
    ensures
        ({
            let new = m.origin_methods[caller] as u32;
            let out = mapped_from(units, pc, m, d.tables)->Ok_0;
            &&& sites_from(kind, caller, source, pc, a) is Ok
            &&& sites_from(kind, new, out, pc, b) is Ok
            &&& site_texts(d, kind, sites_from(kind, caller, source, pc, a)->Ok_0) == site_texts(
                e,
                kind,
                sites_from(kind, new, out, pc, b)->Ok_0,
            )
        }),
    decreases units.len() - pc,
{
    let new = m.origin_methods[caller] as u32;
    let out = mapped_from(units, pc, m, d.tables)->Ok_0;
    lemma_mapped_keeps(units, pc, m, d.tables);
    if pc < units.len() {
        let changed = mapped_at(units, pc, m, d.tables)->Ok_0;
        let width = width_at(changed, pc)->Ok_0;
        lemma_mapped_step(units, pc, m, d.tables);
        lemma_mapped_keeps(changed, pc + width, m, d.tables);
        lemma_reference_mapped(d, e, m, kind, units, changed, pc);
        assert forall|k: int| pc <= k < pc + width && k < changed.len() implies #[trigger] changed[k]
            == out[k] by {}
        lemma_reference_local(kind, changed, out, pc);
        assert(changed[pc] == units[pc]);
        assert(width_at(units, pc) == width_at(changed, pc)) by {
            if units[pc] % 256 == 0 {
                assert(operand_of(opcode_at(units, pc)) == Operand::Nothing);
            }
        }
        assert forall|k: int| pc <= k < pc + width && k < units.len() implies #[trigger] units[k]
            == source[k] by {
            assert(source[k] == units[k]);
        }
        lemma_reference_local(kind, units, source, pc);
        lemma_reach(units, pc);
        assert forall|k: int| pc + width <= k < units.len() implies #[trigger] source[k]
            == changed[k] by {
            assert(source[k] == units[k]);
            assert(changed[k] == units[k]);
        }
        lemma_method_shown(d, e, m, caller);
        match reference_at(kind, opcode_at(source, pc), source, pc) {
            Some(x) => {
                let y = reference_at(kind, opcode_at(out, pc), out, pc)->Some_0;
                let s = ReferenceSite {
                    caller_index: caller,
                    target_index: x,
                    code_unit_offset: pc as u32,
                };
                let t = ReferenceSite {
                    caller_index: new,
                    target_index: y,
                    code_unit_offset: pc as u32,
                };
                assert(site_text(d, kind, s) == site_text(e, kind, t));
                assert(site_texts(d, kind, a.push(s)) =~= site_texts(d, kind, a).push(
                    site_text(d, kind, s),
                ));
                assert(site_texts(e, kind, b.push(t)) =~= site_texts(e, kind, b).push(
                    site_text(e, kind, t),
                ));
                lemma_sites_mapped(
                    d,
                    e,
                    m,
                    kind,
                    caller,
                    source,
                    changed,
                    pc + width,
                    a.push(s),
                    b.push(t),
                );
            },
            None => {
                lemma_sites_mapped(d, e, m, kind, caller, source, changed, pc + width, a, b);
            },
        }
    }
}

// ---------------------------------------------------------------------------
// All methods
// ---------------------------------------------------------------------------

/// The sites of one code item.
spec fn found(kind: ReferenceKind, data: Seq<u8>, span: CodeSpan) -> Seq<ReferenceSite> {
    span_sites(kind, data, span, Seq::empty())->Ok_0
}

/// The sites of the first `n` code items.
spec fn found_all(kind: ReferenceKind, data: Seq<u8>, spans: Seq<CodeSpan>, n: nat) -> Seq<
    ReferenceSite,
>
    decreases n,
{
    if n == 0 {
        Seq::empty()
    } else {
        found_all(kind, data, spans, (n - 1) as nat) + found(kind, data, spans[n - 1])
    }
}

/// Sites are added behind those that are there.
proof fn lemma_sites_behind(
    kind: ReferenceKind,
    caller: u32,
    units: Seq<u16>,
    pc: int,
    a: Seq<ReferenceSite>,
    b: Seq<ReferenceSite>,
)
    requires
        0 <= pc,
    ensures
        sites_from(kind, caller, units, pc, a + b) == match sites_from(
            kind,
            caller,
            units,
            pc,
            b,
        ) {
            Err(e) => Err::<Seq<ReferenceSite>, Error>(e),
            Ok(x) => Ok(a + x),
        },
    decreases units.len() - pc,
{
    if pc < units.len() {
        if let Ok(width) = width_at(units, pc) {
            if width > 0 && pc + width <= units.len() {
                match reference_at(kind, opcode_at(units, pc), units, pc) {
                    Some(target) => {
                        let s = ReferenceSite {
                            caller_index: caller,
                            target_index: target,
                            code_unit_offset: pc as u32,
                        };
                        assert((a + b).push(s) =~= a + b.push(s));
                        lemma_sites_behind(kind, caller, units, pc + width, a, b.push(s));
                    },
                    None => {
                        lemma_sites_behind(kind, caller, units, pc + width, a, b);
                    },
                }
            }
        }
    }
}

proof fn lemma_span_behind(
    kind: ReferenceKind,
    data: Seq<u8>,
    span: CodeSpan,
    a: Seq<ReferenceSite>,
)
    ensures
        span_sites(kind, data, span, a) == match span_sites(kind, data, span, Seq::empty()) {
            Err(e) => Err::<Seq<ReferenceSite>, Error>(e),
            Ok(x) => Ok(a + x),
        },
{
    let none = Seq::<ReferenceSite>::empty();
    assert(a + none =~= a);
    if let Ok(bytes) = bytes_in(data, span.insns_offset as int, span.insns_size * 2) {
        lemma_sites_behind(kind, span.method_idx, units_of(bytes), 0, a, none);
    }
}

/// All sites are those of the code items one behind the other.
proof fn lemma_run_found(kind: ReferenceKind, data: Seq<u8>, code: Seq<CodeSpan>, i: int)
    requires
        0 <= i <= code.len(),
        run(
            span_sites_step(kind, data, code),
            found_all(kind, data, code, i as nat),
            i,
            code.len() as int,
        ) is Ok,
    ensures
        run(
            span_sites_step(kind, data, code),
            found_all(kind, data, code, i as nat),
            i,
            code.len() as int,
        )->Ok_0 == found_all(kind, data, code, code.len()),
        forall|k: int|
            i <= k < code.len() ==> span_sites(
                kind,
                data,
                #[trigger] code[k],
                Seq::empty(),
            ) is Ok,
    decreases code.len() - i,
{
    if i < code.len() {
        lemma_span_behind(kind, data, code[i], found_all(kind, data, code, i as nat));
        assert(span_sites_step(kind, data, code)(found_all(kind, data, code, i as nat), i)
            == Ok::<Seq<ReferenceSite>, Error>(found_all(kind, data, code, (i + 1) as nat)));
        lemma_run_found(kind, data, code, i + 1);
    }
}

/// Code items that can each be read can all be read.
proof fn lemma_run_reads(kind: ReferenceKind, data: Seq<u8>, code: Seq<CodeSpan>, i: int)
    requires
        0 <= i <= code.len(),
        forall|k: int|
            0 <= k < code.len() ==> span_sites(
                kind,
                data,
                #[trigger] code[k],
                Seq::empty(),
            ) is Ok,
    ensures
        run(
            span_sites_step(kind, data, code),
            found_all(kind, data, code, i as nat),
            i,
            code.len() as int,
        ) is Ok,
    decreases code.len() - i,
{
    if i < code.len() {
        lemma_span_behind(kind, data, code[i], found_all(kind, data, code, i as nat));
        assert(span_sites(kind, data, code[i], Seq::empty()) is Ok);
        assert(span_sites_step(kind, data, code)(found_all(kind, data, code, i as nat), i)
            == Ok::<Seq<ReferenceSite>, Error>(found_all(kind, data, code, (i + 1) as nat)));
        lemma_run_reads(kind, data, code, i + 1);
    }
}

// ---------------------------------------------------------------------------
// The sites of some callers
// ---------------------------------------------------------------------------

/// Those of the first `n` sites that are in the code of the given methods.
pub open spec fn of_callers(sites: Seq<ReferenceSite>, callers: Set<u32>, n: nat) -> Seq<
    ReferenceSite,
>
    decreases n,
{
    if n == 0 {
        Seq::empty()
    } else if callers.contains(sites[n - 1].caller_index) {
        of_callers(sites, callers, (n - 1) as nat).push(sites[n - 1])
    } else {
        of_callers(sites, callers, (n - 1) as nat)
    }
}

proof fn lemma_callers_same(
    a: Seq<ReferenceSite>,
    b: Seq<ReferenceSite>,
    callers: Set<u32>,
    n: nat,
)
    requires
        n <= a.len(),
        n <= b.len(),
        forall|i: int| 0 <= i < n ==> #[trigger] a[i] == b[i],
    ensures
        of_callers(a, callers, n) == of_callers(b, callers, n),
    decreases n,
{
    if n > 0 {
        lemma_callers_same(a, b, callers, (n - 1) as nat);
        assert(a[n - 1] == b[n - 1]);
    }
}

proof fn lemma_callers_add(
    a: Seq<ReferenceSite>,
    b: Seq<ReferenceSite>,
    callers: Set<u32>,
    n: nat,
)
    requires
        n <= b.len(),
    ensures
        of_callers(a + b, callers, a.len() + n) == of_callers(a, callers, a.len()) + of_callers(
            b,
            callers,
            n,
        ),
    decreases n,
{
    let front = of_callers(a, callers, a.len());
    if n == 0 {
        lemma_callers_same(a, a + b, callers, a.len());
        assert(front + of_callers(b, callers, 0) =~= front);
    } else {
        lemma_callers_add(a, b, callers, (n - 1) as nat);
        assert((a + b)[a.len() + n - 1] == b[n - 1]);
        assert(of_callers(a + b, callers, a.len() + n) =~= front + of_callers(b, callers, n));
    }
}

/// The sites of one caller are kept or left out together.
proof fn lemma_one_caller(sites: Seq<ReferenceSite>, callers: Set<u32>, caller: u32, n: nat)
    requires
        n <= sites.len(),
        forall|i: int| 0 <= i < n ==> (#[trigger] sites[i]).caller_index == caller,
    ensures
        of_callers(sites, callers, n) == if callers.contains(caller) {
            sites.take(n as int)
        } else {
            Seq::empty()
        },
    decreases n,
{
    if n > 0 {
        lemma_one_caller(sites, callers, caller, (n - 1) as nat);
        assert(sites[n - 1].caller_index == caller);
        assert(sites.take(n as int) =~= sites.take(n - 1).push(sites[n - 1]));
    } else {
        assert(sites.take(0) =~= Seq::empty());
    }
}

proof fn lemma_found_caller(
    kind: ReferenceKind,
    caller: u32,
    units: Seq<u16>,
    pc: int,
    sites: Seq<ReferenceSite>,
)
    requires
        0 <= pc,
        forall|i: int| 0 <= i < sites.len() ==> (#[trigger] sites[i]).caller_index == caller,
        sites_from(kind, caller, units, pc, sites) is Ok,
    ensures
        ({
            let out = sites_from(kind, caller, units, pc, sites)->Ok_0;
            forall|i: int| 0 <= i < out.len() ==> (#[trigger] out[i]).caller_index == caller
        }),
    decreases units.len() - pc,
{
    if pc < units.len() {
        let width = width_at(units, pc)->Ok_0;
        match reference_at(kind, opcode_at(units, pc), units, pc) {
            Some(target) => {
                let s = ReferenceSite {
                    caller_index: caller,
                    target_index: target,
                    code_unit_offset: pc as u32,
                };
                lemma_found_caller(kind, caller, units, pc + width, sites.push(s));
            },
            None => {
                lemma_found_caller(kind, caller, units, pc + width, sites);
            },
        }
    }
}

/// How many of the first `n` pieces of code belong to some methods.
pub open spec fn coded_count(code: Seq<CodeSpan>, methods: Set<u32>, n: nat) -> nat
    decreases n,
{
    if n == 0 {
        0
    } else if methods.contains(code[n - 1].method_idx) {
        coded_count(code, methods, (n - 1) as nat) + 1
    } else {
        coded_count(code, methods, (n - 1) as nat)
    }
}

/// A piece of code outside of a stretch counts beside the stretch.
proof fn lemma_counted_outside(
    code: Seq<CodeSpan>,
    methods: Set<u32>,
    at: int,
    len: int,
    k: int,
    n: nat,
)
    requires
        n <= code.len(),
        0 <= at,
        0 <= len,
        at + len <= code.len(),
        0 <= k < code.len(),
        k < at || at + len <= k,
        methods.contains(code[k].method_idx),
        forall|i: int| at <= i < at + len ==> methods.contains((#[trigger] code[i]).method_idx),
    ensures
        coded_count(code, methods, n) >= (if n <= at {
            0int
        } else if n <= at + len {
            n - at
        } else {
            len
        }) + (if k < n {
            1int
        } else {
            0int
        }),
    decreases n,
{
    if n > 0 {
        lemma_counted_outside(code, methods, at, len, k, (n - 1) as nat);
        if at < n <= at + len {
            assert(methods.contains(code[n - 1].method_idx));
        }
    }
}

/// Of all sites, those of the methods whose code stands together are found
/// there.
proof fn lemma_callers_found(
    kind: ReferenceKind,
    data: Seq<u8>,
    code: Seq<CodeSpan>,
    at: int,
    spans: Seq<CodeSpan>,
    callers: Set<u32>,
    n: nat,
)
    requires
        spans_stand(code, at, spans),
        coded_count(code, callers, code.len()) == spans.len(),
        n <= code.len(),
        forall|k: int| 0 <= k < spans.len() ==> callers.contains((#[trigger] spans[k]).method_idx),
        forall|k: int|
            0 <= k < code.len() ==> span_sites(
                kind,
                data,
                #[trigger] code[k],
                Seq::empty(),
            ) is Ok,
    ensures
        ({
            let all = found_all(kind, data, code, n);
            of_callers(all, callers, all.len()) == found_all(
                kind,
                data,
                spans,
                if n <= at {
                    0
                } else if n - at <= spans.len() {
                    (n - at) as nat
                } else {
                    spans.len()
                },
            )
        }),
    decreases n,
{
    if n > 0 {
        let before = found_all(kind, data, code, (n - 1) as nat);
        let span = code[n - 1];
        let here = found(kind, data, span);
        lemma_callers_found(kind, data, code, at, spans, callers, (n - 1) as nat);
        lemma_callers_add(before, here, callers, here.len());
        assert(span_sites(kind, data, span, Seq::empty()) is Ok);
        let bytes = bytes_in(data, span.insns_offset as int, span.insns_size * 2)->Ok_0;
        lemma_found_caller(kind, span.method_idx, units_of(bytes), 0, Seq::empty());
        lemma_one_caller(here, callers, span.method_idx, here.len());
        assert(here.take(here.len() as int) =~= here);
        let k = n - 1 - at;
        if 0 <= k < spans.len() {
            assert(code[at + k] == spans[k]);
        } else {
            if callers.contains(span.method_idx) {
                assert forall|i: int| at <= i < at + spans.len() implies callers.contains(
                    (#[trigger] code[i]).method_idx,
                ) by {
                    assert(code[at + (i - at)] == spans[i - at]);
                }
                lemma_counted_outside(
                    code,
                    callers,
                    at,
                    spans.len() as int,
                    n - 1,
                    code.len(),
                );
                assert(false);
            }
            assert(before + here =~= before + here);
            let kept = of_callers(before, callers, before.len());
            assert(kept + Seq::<ReferenceSite>::empty() =~= kept);
        }
    }
}

// ---------------------------------------------------------------------------
// Texts of many methods
// ---------------------------------------------------------------------------

/// The sites of a method, as texts.
spec fn method_sites(d: DexContents, kind: ReferenceKind, data: Seq<u8>, x: EncodedMethod) -> Seq<
    SiteText,
> {
    if x.code_off == 0 {
        Seq::empty()
    } else {
        site_texts(d, kind, found(kind, data, span_of(data, x)))
    }
}

spec fn sites_by_method(d: DexContents, kind: ReferenceKind, data: Seq<u8>) -> spec_fn(
    EncodedMethod,
) -> Seq<SiteText> {
    |x: EncodedMethod| method_sites(d, kind, data, x)
}

/// What `g` gives for the first `n` methods, one behind the other.
spec fn strung(
    g: spec_fn(EncodedMethod) -> Seq<SiteText>,
    methods: Seq<EncodedMethod>,
    n: nat,
) -> Seq<SiteText>
    decreases n,
{
    if n == 0 {
        Seq::empty()
    } else {
        strung(g, methods, (n - 1) as nat) + g(methods[n - 1])
    }
}

proof fn lemma_found_same(
    kind: ReferenceKind,
    data: Seq<u8>,
    a: Seq<CodeSpan>,
    b: Seq<CodeSpan>,
    n: nat,
)
    requires
        n <= a.len(),
        n <= b.len(),
        forall|i: int| 0 <= i < n ==> #[trigger] a[i] == b[i],
    ensures
        found_all(kind, data, a, n) == found_all(kind, data, b, n),
    decreases n,
{
    if n > 0 {
        lemma_found_same(kind, data, a, b, (n - 1) as nat);
        assert(a[n - 1] == b[n - 1]);
    }
}

/// The sites of the code of methods, as texts, are those of the methods.
proof fn lemma_spans_strung(
    d: DexContents,
    kind: ReferenceKind,
    data: Seq<u8>,
    methods: Seq<EncodedMethod>,
    n: nat,
)
    requires
        n <= methods.len(),
    ensures
        ({
            let spans = spans_of(data, methods, n);
            site_texts(d, kind, found_all(kind, data, spans, spans.len())) == strung(
                sites_by_method(d, kind, data),
                methods,
                n,
            )
        }),
    decreases n,
{
    let g = sites_by_method(d, kind, data);
    let spans = spans_of(data, methods, n);
    if n == 0 {
        assert(site_texts(d, kind, found_all(kind, data, spans, 0)) =~= Seq::empty());
    } else {
        let x = methods[n - 1];
        let before = spans_of(data, methods, (n - 1) as nat);
        lemma_spans_strung(d, kind, data, methods, (n - 1) as nat);
        let front = found_all(kind, data, before, before.len());
        if x.code_off == 0 {
            assert(strung(g, methods, n) =~= strung(g, methods, (n - 1) as nat));
        } else {
            lemma_found_same(kind, data, before, spans, before.len());
            assert(spans[before.len() as int] == span_of(data, x));
            let here = found(kind, data, span_of(data, x));
            assert(found_all(kind, data, spans, spans.len()) == front + here);
            assert(site_texts(d, kind, front + here) =~= site_texts(d, kind, front) + site_texts(
                d,
                kind,
                here,
            ));
        }
    }
}

proof fn lemma_strung_same(
    f: spec_fn(EncodedMethod) -> Seq<SiteText>,
    g: spec_fn(EncodedMethod) -> Seq<SiteText>,
    a: Seq<EncodedMethod>,
    b: Seq<EncodedMethod>,
    n: nat,
)
    requires
        n <= a.len(),
        n <= b.len(),
        forall|i: int| 0 <= i < n ==> f(#[trigger] a[i]) == g(b[i]),
    ensures
        strung(f, a, n) == strung(g, b, n),
    decreases n,
{
    if n > 0 {
        lemma_strung_same(f, g, a, b, (n - 1) as nat);
        assert(f(a[n - 1]) == g(b[n - 1]));
    }
}

proof fn lemma_strung_add(
    g: spec_fn(EncodedMethod) -> Seq<SiteText>,
    a: Seq<EncodedMethod>,
    b: Seq<EncodedMethod>,
    n: nat,
)
    requires
        n <= b.len(),
    ensures
        strung(g, a + b, a.len() + n) == strung(g, a, a.len()) + strung(g, b, n),
    decreases n,
{
    let front = strung(g, a, a.len());
    if n == 0 {
        assert forall|i: int| 0 <= i < a.len() implies g(#[trigger] a[i]) == g((a + b)[i]) by {}
        lemma_strung_same(g, g, a, a + b, a.len());
        assert(front + strung(g, b, 0) =~= front);
    } else {
        lemma_strung_add(g, a, b, (n - 1) as nat);
        assert((a + b)[a.len() + n - 1] == b[n - 1]);
        assert(strung(g, a + b, a.len() + n) =~= front + strung(g, b, n));
    }
}

/// One more method adds what it gives, wherever it stands.
proof fn lemma_strung_insert(
    g: spec_fn(EncodedMethod) -> Seq<SiteText>,
    s: Seq<EncodedMethod>,
    p: int,
    x: EncodedMethod,
)
    requires
        0 <= p <= s.len(),
    ensures
        strung(g, s.insert(p, x), s.len() + 1).to_multiset() == strung(
            g,
            s,
            s.len(),
        ).to_multiset().add(g(x).to_multiset()),
{
    let low = s.take(p);
    let high = s.skip(p);
    let one = seq![x];
    let u = strung(g, low, low.len());
    let v = strung(g, high, high.len());
    assert(s =~= low + high);
    assert(s.insert(p, x) =~= (low + one) + high);
    lemma_strung_add(g, low, high, high.len());
    lemma_strung_add(g, low, one, 1);
    lemma_strung_add(g, low + one, high, high.len());
    assert(strung(g, one, 1) =~= g(x)) by {
        reveal_with_fuel(strung, 2);
    }
    lemma_multiset_commutative(u, v);
    lemma_multiset_commutative(u, g(x));
    lemma_multiset_commutative(u + g(x), v);
    assert(u.to_multiset().add(g(x).to_multiset()).add(v.to_multiset())
        =~= u.to_multiset().add(v.to_multiset()).add(g(x).to_multiset()));
}

/// Sorting methods changes nothing of what they give altogether.
proof fn lemma_strung_sorted(
    g: spec_fn(EncodedMethod) -> Seq<SiteText>,
    methods: Seq<EncodedMethod>,
    keys: Seq<Seq<u32>>,
    n: nat,
)
    requires
        n <= methods.len(),
    ensures
        strung(g, picked(methods, sort_order(keys, n)), n).to_multiset() == strung(
            g,
            methods,
            n,
        ).to_multiset(),
    decreases n,
{
    if n > 0 {
        let rest = sort_order(keys, (n - 1) as nat);
        let p = place_from(keys, rest, keys[n - 1], 0);
        let x = methods[n - 1];
        lemma_strung_sorted(g, methods, keys, (n - 1) as nat);
        lemma_sort_order(keys, (n - 1) as nat);
        lemma_place_from(keys, rest, keys[n - 1], 0);
        assert(picked(methods, sort_order(keys, n)) =~= picked(methods, rest).insert(p, x));
        lemma_strung_insert(g, picked(methods, rest), p, x);
        lemma_multiset_commutative(strung(g, methods, (n - 1) as nat), g(x));
    }
}

// ---------------------------------------------------------------------------
// The extracted file
// ---------------------------------------------------------------------------

/// Whether class data that lists a method more than once gives it the same code
/// each time.
pub open spec fn codes_agree(c: Members) -> bool {
    forall|i: int, j: int|
        0 <= i < j < c.methods().len() && (#[trigger] c.methods()[i]).method_idx == (
        #[trigger] c.methods()[j]).method_idx ==> c.methods()[i].code_off
            == c.methods()[j].code_off
}

/// The methods that have code in the class data of a class.
pub open spec fn coded_in(c: Members) -> Set<u32> {
    Set::new(
        |id: u32|
            exists|j: int|
                0 <= j < c.methods().len() && (#[trigger] c.methods()[j]).method_idx == id
                    && c.methods()[j].code_off != 0,
    )
}

/// Whether a file has code for the methods that have code in a class nowhere but
/// in that class.
pub open spec fn coded_here(d: DexContents, c: Members) -> bool {
    coded_count(d.code, coded_in(c), d.code.len()) == spans_of(
        d.tables.data,
        c.methods(),
        c.methods().len(),
    ).len()
}

/// Whether a class can be extracted, and agrees with itself on the code of each
/// method.
pub open spec fn extracts_agreed(dex: DexTables, descriptor: Seq<char>) -> bool {
    &&& extracted_from(dex, descriptor) is Ok
    &&& codes_agree(class_of(dex, descriptor)->Ok_0.1)
}

/// The last entry with code for a method that has code.
proof fn lemma_last_entry(c: Members, j: int) -> (k: int)
    requires
        codes_agree(c),
        0 <= j < c.methods().len(),
        c.methods()[j].code_off != 0,
    ensures
        j <= k < c.methods().len(),
        c.methods()[k].method_idx == c.methods()[j].method_idx,
        c.methods()[k].code_off == c.methods()[j].code_off,
        forall|l: int|
            k < l < c.methods().len() && (#[trigger] c.methods()[l]).code_off != 0
                ==> c.methods()[l].method_idx != c.methods()[k].method_idx,
    decreases c.methods().len() - j,
{
    if exists|l: int|
        j < l < c.methods().len() && (#[trigger] c.methods()[l]).code_off != 0
            && c.methods()[l].method_idx == c.methods()[j].method_idx {
        let l = choose|l: int|
            j < l < c.methods().len() && (#[trigger] c.methods()[l]).code_off != 0
                && c.methods()[l].method_idx == c.methods()[j].method_idx;
        lemma_last_entry(c, l)
    } else {
        j
    }
}

/// A method as the extracted file lists it.
spec fn new_method(x: EncodedMethod, m: Tables, code: Entries<u32>) -> EncodedMethod {
    EncodedMethod {
        method_idx: method_rank(m, x.method_idx),
        access_flags: x.access_flags,
        code_off: or_zero(code, x.method_idx),
    }
}

proof fn lemma_listed_mapped(
    methods: Seq<EncodedMethod>,
    i: int,
    previous: u32,
    m: Tables,
    code: Entries<u32>,
    done: Seq<u8>,
)
    requires
        0 <= i,
        methods_bytes(methods, i, previous, m, code, done) is Ok,
    ensures
        forall|k: int|
            i <= k < methods.len() ==> m.mapped_method((#[trigger] methods[k]).method_idx) is Ok,
    decreases methods.len() - i,
{
    if i < methods.len() {
        let index = m.mapped_method(methods[i].method_idx)->Ok_0;
        lemma_listed_mapped(
            methods,
            i + 1,
            index as u32,
            m,
            code,
            done + uleb_bytes((index - previous) as u32) + uleb_bytes(methods[i].access_flags)
                + uleb_bytes(or_zero(code, methods[i].method_idx)),
        );
    }
}

/// Every method that was sorted into the class data has a new index.
proof fn lemma_sorted_mapped(methods: Seq<EncodedMethod>, m: Tables)
    requires
        ({
            let order = methods_in_order(methods, m);
            forall|k: int|
                0 <= k < order.len() ==> m.mapped_method((#[trigger] order[k]).method_idx) is Ok
        }),
    ensures
        forall|k: int|
            0 <= k < methods.len() ==> m.mapped_method((#[trigger] methods[k]).method_idx) is Ok,
{
    let order = methods_in_order(methods, m);
    lemma_picked_members(methods, method_ranks(methods, m));
    assert forall|k: int| 0 <= k < methods.len() implies m.mapped_method(
        (#[trigger] methods[k]).method_idx,
    ) is Ok by {
        assert(methods.contains(methods[k]));
        assert(order.contains(methods[k]));
        let i = choose|i: int| 0 <= i < order.len() && order[i] == methods[k];
        assert(m.mapped_method(order[i].method_idx) is Ok);
    }
}

proof fn lemma_members_mapped(c: Members, m: Tables, code: Entries<u32>, done: Seq<u8>)
    requires
        members_bytes(c, m, code, done) is Ok,
    ensures
        forall|k: int|
            0 <= k < c.methods().len() ==> m.mapped_method(
                (#[trigger] c.methods()[k]).method_idx,
            ) is Ok,
{
    let head = done + uleb_bytes(low32(c.static_fields.len() as int)) + uleb_bytes(
        low32(c.instance_fields.len() as int),
    ) + uleb_bytes(low32(c.direct_methods.len() as int)) + uleb_bytes(
        low32(c.virtual_methods.len() as int),
    );
    let p1 = fields_bytes(fields_in_order(c.static_fields, m), 0, 0, m, head)->Ok_0;
    let p2 = fields_bytes(fields_in_order(c.instance_fields, m), 0, 0, m, p1)->Ok_0;
    let p3 = methods_bytes(methods_in_order(c.direct_methods, m), 0, 0, m, code, p2)->Ok_0;
    lemma_listed_mapped(methods_in_order(c.direct_methods, m), 0, 0, m, code, p2);
    lemma_listed_mapped(methods_in_order(c.virtual_methods, m), 0, 0, m, code, p3);
    lemma_sorted_mapped(c.direct_methods, m);
    lemma_sorted_mapped(c.virtual_methods, m);
    assert forall|k: int| 0 <= k < c.methods().len() implies m.mapped_method(
        (#[trigger] c.methods()[k]).method_idx,
    ) is Ok by {
        if k < c.direct_methods.len() {
            assert(c.methods()[k] == c.direct_methods[k]);
        } else {
            assert(c.methods()[k] == c.virtual_methods[k - c.direct_methods.len()]);
        }
    }
}

/// Every method of an extracted class has a new index.
#[verifier::spinoff_prover]
proof fn lemma_method_mapped(dex: DexTables, descriptor: Seq<char>, j: int)
    requires
        extracted_from(dex, descriptor) is Ok,
        0 <= j < class_of(dex, descriptor)->Ok_0.1.methods().len(),
    ensures
        extracted_from(dex, descriptor)->Ok_0.1.mapped_method(
            class_of(dex, descriptor)->Ok_0.1.methods()[j].method_idx,
        ) is Ok,
{
    let (bytes, m) = extracted_from(dex, descriptor)->Ok_0;
    let (class, members) = class_of(dex, descriptor)->Ok_0;
    let parts = linked(dex, class, members)->Ok_0.1;
    let s = sections_for(dex, descriptor);
    lemma_extracted_layout(dex, descriptor);
    lemma_class_stands(members, parts, m, dex);
    let done = choose|done: Seq<u8>| #[trigger]
        members_bytes(members, m, s.code_offsets, done) == Ok::<Seq<u8>, Error>(s.data)
            && s.class_data_off == m.data_at() + done.len();
    lemma_members_mapped(members, m, s.code_offsets, done);
}

/// Nothing is kept as the code of a method without code.
proof fn lemma_no_code(data: Seq<u8>, c: Members, j: int)
    requires
        codes_of(data, c.methods(), CodeRefs::empty()) is Ok,
        codes_agree(c),
        0 <= j < c.methods().len(),
        c.methods()[j].code_off == 0,
    ensures
        codes_of(data, c.methods(), CodeRefs::empty())->Ok_0.0.get(c.methods()[j].method_idx) is None,
{
    let methods = c.methods();
    let id = methods[j].method_idx;
    let start = (Entries::<Code>::empty(), CodeRefs::empty());
    assert forall|k: int|
        0 <= k < methods.len() && (#[trigger] methods[k]).code_off != 0 implies methods[k].method_idx
        != id by {
        if k < j {
            assert(c.methods()[k].method_idx == c.methods()[j].method_idx ==> methods[k].code_off
                == methods[j].code_off);
        } else if j < k {
            assert(c.methods()[j].method_idx == c.methods()[k].method_idx ==> methods[k].code_off
                == methods[j].code_off);
        }
    }
    lemma_codes_run(data, methods, start, 0, id);
}

/// A method without code has no code after linking either.
#[verifier::spinoff_prover]
proof fn lemma_uncoded(dex: DexTables, class: ClassDef, members: Members, j: int)
    requires
        linked(dex, class, members) is Ok,
        codes_agree(members),
        0 <= j < members.methods().len(),
        members.methods()[j].code_off == 0,
    ensures
        linked(dex, class, members)->Ok_0.1.codes.get(members.methods()[j].method_idx) is None,
{
    let (hollow, refs) = parts_of(dex, class, members, CodeRefs::empty())->Ok_0;
    let m = gathered(dex, class, members, hollow, refs)->Ok_0.canonical();
    lemma_no_code(dex.data, members, j);
    lemma_codes_ok(dex.data, members.methods(), CodeRefs::empty());
    lemma_relinked_codes_ok(hollow.codes, refs, m, dex);
}

/// Every method of an extracted class has a new index, and code in the new file
/// exactly where it had code.
#[verifier::spinoff_prover]
proof fn lemma_method_placed(dex: DexTables, descriptor: Seq<char>, j: int)
    requires
        extracts_agreed(dex, descriptor),
        0 <= j < class_of(dex, descriptor)->Ok_0.1.methods().len(),
    ensures
        ({
            let m = extracted_from(dex, descriptor)->Ok_0.1;
            let (class, members) = class_of(dex, descriptor)->Ok_0;
            let parts = linked(dex, class, members)->Ok_0.1;
            let x = members.methods()[j];
            let offsets = sections_for(dex, descriptor).code_offsets;
            &&& m.mapped_method(x.method_idx) is Ok
            &&& x.code_off != 0 <==> or_zero(offsets, x.method_idx) != 0
            &&& x.code_off != 0 ==> parts.codes.get(x.method_idx) is Some
        }),
{
    let m = extracted_from(dex, descriptor)->Ok_0.1;
    let (class, members) = class_of(dex, descriptor)->Ok_0;
    let parts = linked(dex, class, members)->Ok_0.1;
    let s = sections_for(dex, descriptor);
    let methods = members.methods();
    let x = methods[j];
    let id = x.method_idx;
    lemma_method_mapped(dex, descriptor, j);
    lemma_extracted_layout(dex, descriptor);
    lemma_class_stands(members, parts, m, dex);
    assert(code_stands_at(m.data_at(), s.data, s.code_offsets, parts.codes, s.debug_offsets, id));
    if x.code_off != 0 {
        let last = lemma_last_entry(members, j);
        lemma_extracted_instructions(dex, descriptor, last);
        assert(s.code_offsets.get(methods[last].method_idx) is Some);
    } else {
        lemma_uncoded(dex, class, members, j);
    }
}

/// A method of an extracted class has the same sites in the new file.
#[verifier::spinoff_prover]
proof fn lemma_method_sites(
    d: DexContents,
    e: DexContents,
    descriptor: Seq<char>,
    kind: ReferenceKind,
    j: int,
)
    requires
        extracts_agreed(d.tables, descriptor),
        0 <= j < class_of(d.tables, descriptor)->Ok_0.1.methods().len(),
        ({
            let (bytes, m) = extracted_from(d.tables, descriptor)->Ok_0;
            gathered_in(d, e, m) && e.tables.data == bytes
        }),
    ensures
        ({
            let (bytes, m) = extracted_from(d.tables, descriptor)->Ok_0;
            let x = class_of(d.tables, descriptor)->Ok_0.1.methods()[j];
            let y = new_method(x, m, sections_for(d.tables, descriptor).code_offsets);
            &&& y.method_idx < m.methods.len()
            &&& x.code_off != 0 <==> y.code_off != 0
            &&& method_sites(e, kind, bytes, y) == method_sites(d, kind, d.tables.data, x)
            &&& y.code_off != 0 ==> {
                &&& u32_in(bytes, y.code_off + 12) is Ok
                &&& bytes_in(bytes, y.code_off + 16, u32_in(bytes, y.code_off + 12)->Ok_0 * 2) is Ok
                &&& span_sites(kind, bytes, span_of(bytes, y), Seq::empty()) is Ok
            }
        }),
{
    let dex = d.tables;
    let (bytes, m) = extracted_from(dex, descriptor)->Ok_0;
    let (class, members) = class_of(dex, descriptor)->Ok_0;
    let parts = linked(dex, class, members)->Ok_0.1;
    let s = sections_for(dex, descriptor);
    let x = members.methods()[j];
    let y = new_method(x, m, s.code_offsets);
    lemma_method_placed(dex, descriptor, j);
    let index = m.mapped_method(x.method_idx)->Ok_0;
    assert(m.origin_methods.contains_key(x.method_idx));
    assert(m.origin_methods[x.method_idx] == index);
    if x.code_off != 0 {
        let last = lemma_last_entry(members, j);
        lemma_extracted_instructions(dex, descriptor, last);
        lemma_extracted_code(dex, descriptor, x.method_idx);
        let code = code_in(dex.data, x.code_off as int)->Ok_0;
        let kept = parts.codes.get(x.method_idx)->Some_0;
        let units = units_of(code.insns);
        let out = mapped_from(units, 0, m, dex)->Ok_0;
        lemma_method_code(dex, descriptor, j);
        lemma_code_span(dex.data, x.code_off as int);
        lemma_code_span(bytes, y.code_off as int);
        lemma_unit_bytes_round_trip(out);
        let none = Seq::<ReferenceSite>::empty();
        assert(site_texts(d, kind, none) =~= site_texts(e, kind, none));
        lemma_sites_mapped(d, e, m, kind, x.method_idx, units, units, 0, none, none);
        assert(code_in(bytes, y.code_off as int)->Ok_0.insns == kept.insns);
        assert(span_sites(kind, bytes, span_of(bytes, y), none) == sites_from(
            kind,
            index as u32,
            out,
            0,
            none,
        ));
        assert(span_sites(kind, dex.data, span_of(dex.data, x), none) == sites_from(
            kind,
            x.method_idx,
            units,
            0,
            none,
        ));
    }
}

/// The code of a method that is extracted can be read in the source.
proof fn lemma_method_code(dex: DexTables, descriptor: Seq<char>, j: int)
    requires
        extracts_agreed(dex, descriptor),
        0 <= j < class_of(dex, descriptor)->Ok_0.1.methods().len(),
        class_of(dex, descriptor)->Ok_0.1.methods()[j].code_off != 0,
    ensures
        code_in(
            dex.data,
            class_of(dex, descriptor)->Ok_0.1.methods()[j].code_off as int,
        ) is Ok,
{
    let (class, members) = class_of(dex, descriptor)->Ok_0;
    let methods = members.methods();
    let start = (Entries::<Code>::empty(), CodeRefs::empty());
    assert(parts_of(dex, class, members, CodeRefs::empty()) is Ok);
    let last = lemma_last_entry(members, j);
    let refs = lemma_code_of_method(dex.data, methods, start, 0, last);
}

/// The methods of the extracted class, as the class had them, in the order in
/// which the new file lists them.
spec fn in_new_order(c: Members, m: Tables) -> Seq<EncodedMethod> {
    methods_in_order(c.direct_methods, m) + methods_in_order(c.virtual_methods, m)
}

/// The new order lists the methods of the class, each by its new index.
proof fn lemma_new_order(c: Members, m: Tables, code: Entries<u32>)
    ensures
        in_new_order(c, m).len() == c.methods().len(),
        new_members(c, m, code).methods().len() == c.methods().len(),
        forall|i: int|
            0 <= i < c.methods().len() ==> #[trigger] new_members(c, m, code).methods()[i]
                == new_method(in_new_order(c, m)[i], m, code),
        forall|i: int|
            0 <= i < c.methods().len() ==> c.methods().contains(#[trigger] in_new_order(c, m)[i]),
{
    let first = methods_in_order(c.direct_methods, m);
    let second = methods_in_order(c.virtual_methods, m);
    lemma_picked_members(c.direct_methods, method_ranks(c.direct_methods, m));
    lemma_picked_members(c.virtual_methods, method_ranks(c.virtual_methods, m));
    let order = in_new_order(c, m);
    let new = new_members(c, m, code).methods();
    assert forall|i: int| 0 <= i < c.methods().len() implies #[trigger] new[i] == new_method(
        order[i],
        m,
        code,
    ) by {
        if i < first.len() {
            assert(new[i] == new_methods(first, m, code)[i]);
        } else {
            assert(new[i] == new_methods(second, m, code)[i - first.len()]);
        }
    }
    assert forall|i: int| 0 <= i < c.methods().len() implies c.methods().contains(
        #[trigger] order[i],
    ) by {
        if i < first.len() {
            assert(first.contains(first[i]));
            assert(c.direct_methods.contains(first[i]));
            let k = choose|k: int|
                0 <= k < c.direct_methods.len() && c.direct_methods[k] == first[i];
            assert(c.methods()[k] == order[i]);
        } else {
            let p = i - first.len();
            assert(second.contains(second[p]));
            assert(c.virtual_methods.contains(second[p]));
            let k = choose|k: int|
                0 <= k < c.virtual_methods.len() && c.virtual_methods[k] == second[p];
            assert(c.methods()[c.direct_methods.len() + k] == order[i]);
        }
    }
}

/// The sorted methods give altogether what the methods give.
proof fn lemma_order_strung(
    g: spec_fn(EncodedMethod) -> Seq<SiteText>,
    c: Members,
    m: Tables,
)
    ensures
        strung(g, in_new_order(c, m), in_new_order(c, m).len()).to_multiset() == strung(
            g,
            c.methods(),
            c.methods().len(),
        ).to_multiset(),
{
    let first = methods_in_order(c.direct_methods, m);
    let second = methods_in_order(c.virtual_methods, m);
    lemma_picked_members(c.direct_methods, method_ranks(c.direct_methods, m));
    lemma_picked_members(c.virtual_methods, method_ranks(c.virtual_methods, m));
    lemma_strung_sorted(
        g,
        c.direct_methods,
        method_ranks(c.direct_methods, m),
        c.direct_methods.len(),
    );
    lemma_strung_sorted(
        g,
        c.virtual_methods,
        method_ranks(c.virtual_methods, m),
        c.virtual_methods.len(),
    );
    lemma_strung_add(g, first, second, second.len());
    lemma_strung_add(g, c.direct_methods, c.virtual_methods, c.virtual_methods.len());
    lemma_multiset_commutative(strung(g, first, first.len()), strung(g, second, second.len()));
    lemma_multiset_commutative(
        strung(g, c.direct_methods, c.direct_methods.len()),
        strung(g, c.virtual_methods, c.virtual_methods.len()),
    );
}

/// Methods with code in both of two lists, place by place, give as many spans.
proof fn lemma_spans_count(
    a: Seq<u8>,
    b: Seq<u8>,
    x: Seq<EncodedMethod>,
    y: Seq<EncodedMethod>,
    n: nat,
)
    requires
        n <= x.len(),
        n <= y.len(),
        forall|i: int| 0 <= i < n ==> ((#[trigger] x[i]).code_off != 0 <==> y[i].code_off != 0),
    ensures
        spans_of(a, x, n).len() == spans_of(b, y, n).len(),
    decreases n,
{
    if n > 0 {
        lemma_spans_count(a, b, x, y, (n - 1) as nat);
        assert(x[n - 1].code_off != 0 <==> y[n - 1].code_off != 0);
    }
}

/// Where the tables of the extracted file come from, and its one class.
proof fn lemma_new_file(d: DexContents, descriptor: Seq<char>)
    requires
        extracts_agreed(d.tables, descriptor),
    ensures
        ({
            let (bytes, m) = extracted_from(d.tables, descriptor)->Ok_0;
            let members = class_of(d.tables, descriptor)->Ok_0.1;
            let t = DexTables::tables_in(bytes, 0)->Ok_0;
            let offset = t.class_def_in(0)->Ok_0.class_data_off;
            &&& DexTables::tables_in(bytes, 0) is Ok
            &&& t.sized()
            &&& t.data == bytes
            &&& m.ok()
            &&& m.faithful(d.tables)
            &&& m.readable(d.tables)
            &&& reads_as(t, m)
            &&& t.header.class_defs_size == 1
            &&& class_entry_reader(bytes, t.header)(0) == Ok::<(u32, u32), Error>(
                (t.class_def_in(0)->Ok_0.class_idx, offset),
            )
            &&& members_in(bytes, offset) == Ok::<Members, Error>(
                new_members(members, m, sections_for(d.tables, descriptor).code_offsets),
            )
        }),
{
    let (bytes, m) = extracted_from(d.tables, descriptor)->Ok_0;
    lemma_extracted_layout(d.tables, descriptor);
    lemma_extracted_readable(d.tables, descriptor);
    lemma_extracted_members(d.tables, descriptor);
    lemma_extracted_tables(d.tables, descriptor);
    lemma_extracted_class(d.tables, descriptor);
    lemma_tables_sized(bytes, 0);
    let t = DexTables::tables_in(bytes, 0)->Ok_0;
    let f = class_text_reader(bytes, t.header, t.types);
    lemma_collect_ok(f, t.header.class_defs_size as nat);
    assert(f(0) == Ok::<Seq<char>, Error>(descriptor)) by {
        assert(class_texts_in(bytes, 0)->Ok_0[0] == descriptor);
    }
    let w = word_reader(bytes, t.header.class_defs_off as int);
    lemma_collect_ok(w, 8);
    let words = collect(w, 8)->Ok_0;
    assert(w(0) == Ok::<u32, Error>(words[0]));
    assert(w(6) == Ok::<u32, Error>(words[6]));
}

/// A search reads the extracted file and finds in it the code of the class.
#[verifier::spinoff_prover]
proof fn lemma_new_code(d: DexContents, descriptor: Seq<char>, kind: ReferenceKind)
    requires
        extracts_agreed(d.tables, descriptor),
        ({
            let members = class_of(d.tables, descriptor)->Ok_0.1;
            &&& members.fields().len() <= u32::MAX
            &&& spans_of(d.tables.data, members.methods(), members.methods().len()).len()
                <= 0x1_0000_0000
        }),
    ensures
        ({
            let (bytes, m) = extracted_from(d.tables, descriptor)->Ok_0;
            let members = class_of(d.tables, descriptor)->Ok_0.1;
            let e = DexContents::contents_in(bytes, 0)->Ok_0;
            let new = new_members(
                members,
                m,
                sections_for(d.tables, descriptor).code_offsets,
            ).methods();
            &&& DexContents::contents_in(bytes, 0) is Ok
            &&& gathered_in(d, e, m)
            &&& e.tables.data == bytes
            &&& e.code == spans_of(bytes, new, new.len())
        }),
{
    let (bytes, m) = extracted_from(d.tables, descriptor)->Ok_0;
    let members = class_of(d.tables, descriptor)->Ok_0.1;
    let t = DexTables::tables_in(bytes, 0)->Ok_0;
    let offsets = sections_for(d.tables, descriptor).code_offsets;
    let new = new_members(members, m, offsets);
    lemma_new_file(d, descriptor);
    let offset = t.class_def_in(0)->Ok_0.class_data_off;
    let h = t.header;
    let f = class_entry_reader(bytes, h);
    let entries = collect(f, 1)->Ok_0;
    assert(collect(f, 0) == Ok::<Seq<(u32, u32)>, Error>(Seq::empty()));
    assert(collect(f, 1) is Ok);
    lemma_collect_ok(f, 1);
    assert(f(0) == Ok::<(u32, u32), Error>(entries[0]));
    let none = no_code(t.methods.len());
    let shell = DexContents {
        tables: t,
        class_types: Seq::empty(),
        code: Seq::empty(),
        scan_order: Seq::empty(),
    };
    let order = in_new_order(members, m);
    let list = new.methods();
    lemma_new_order(members, m, offsets);
    assert forall|i: int| 0 <= i < list.len() implies method_fits(bytes, h, #[trigger] list[i])
        && (list[i].code_off != 0 <==> order[i].code_off != 0) by {
        assert(members.methods().contains(order[i]));
        let j = choose|j: int|
            0 <= j < members.methods().len() && members.methods()[j] == order[i];
        assert(list[i] == new_method(members.methods()[j], m, offsets));
        lemma_method_sites(d, shell, descriptor, kind, j);
    }
    lemma_order_count(d.tables.data, members, m);
    lemma_spans_count(bytes, d.tables.data, list, order, list.len());
    let step = class_step(bytes, h, entries);
    if offset == 0 {
        assert(step(none, 0) == Ok::<FoundCode, Error>(none));
        assert(none.code =~= spans_of(bytes, list, list.len()));
    } else {
        lemma_fields_count(members, m, offsets);
        lemma_class_found(bytes, h, offset, none);
        lemma_class_searched(bytes, h, offset, none);
        assert(step(none, 0) == class_spans_in(bytes, h, offset as int, none));
        assert(none.code + spans_of(bytes, list, list.len()) =~= spans_of(bytes, list, list.len()));
    }
    reveal_with_fuel(run, 2);
    assert(run(step, none, 0, 1) == step(none, 0));
}

proof fn lemma_fields_count(c: Members, m: Tables, code: Entries<u32>)
    ensures
        new_members(c, m, code).fields().len() == c.fields().len(),
{
    lemma_sort_order(field_ranks(c.static_fields, m), c.static_fields.len());
    lemma_sort_order(field_ranks(c.instance_fields, m), c.instance_fields.len());
}

/// Sorting methods changes nothing of how many have code.
proof fn lemma_order_count(data: Seq<u8>, c: Members, m: Tables)
    ensures
        spans_of(data, in_new_order(c, m), in_new_order(c, m).len()).len() == spans_of(
            data,
            c.methods(),
            c.methods().len(),
        ).len(),
{
    let first = methods_in_order(c.direct_methods, m);
    let second = methods_in_order(c.virtual_methods, m);
    lemma_sorted_count(
        data,
        c.direct_methods,
        method_ranks(c.direct_methods, m),
        c.direct_methods.len(),
    );
    lemma_sorted_count(
        data,
        c.virtual_methods,
        method_ranks(c.virtual_methods, m),
        c.virtual_methods.len(),
    );
    lemma_picked_members(c.direct_methods, method_ranks(c.direct_methods, m));
    lemma_picked_members(c.virtual_methods, method_ranks(c.virtual_methods, m));
    lemma_spans_add(data, first, second, second.len());
    lemma_spans_add(data, c.direct_methods, c.virtual_methods, c.virtual_methods.len());
}

proof fn lemma_sorted_count(
    data: Seq<u8>,
    methods: Seq<EncodedMethod>,
    keys: Seq<Seq<u32>>,
    n: nat,
)
    requires
        n <= methods.len(),
    ensures
        spans_of(data, picked(methods, sort_order(keys, n)), n).len() == spans_of(
            data,
            methods,
            n,
        ).len(),
    decreases n,
{
    if n > 0 {
        let rest = sort_order(keys, (n - 1) as nat);
        let p = place_from(keys, rest, keys[n - 1], 0);
        let x = methods[n - 1];
        let s = picked(methods, rest);
        lemma_sorted_count(data, methods, keys, (n - 1) as nat);
        lemma_sort_order(keys, (n - 1) as nat);
        lemma_place_from(keys, rest, keys[n - 1], 0);
        assert(picked(methods, sort_order(keys, n)) =~= s.insert(p, x));
        let low = s.take(p);
        let high = s.skip(p);
        let one = seq![x];
        assert(s =~= low + high);
        assert(s.insert(p, x) =~= (low + one) + high);
        lemma_spans_add(data, low, high, high.len());
        lemma_spans_add(data, low, one, 1);
        lemma_spans_add(data, low + one, high, high.len());
        assert(spans_of(data, one, 1).len() == if x.code_off == 0 {
            0int
        } else {
            1int
        }) by {
            reveal_with_fuel(spans_of, 2);
        }
    }
}

/// The code of methods is that of those that have any.
proof fn lemma_spans_members(data: Seq<u8>, methods: Seq<EncodedMethod>, n: nat)
    requires
        n <= methods.len(),
    ensures
        forall|k: int|
            0 <= k < spans_of(data, methods, n).len() ==> exists|j: int|
                0 <= j < n && methods[j].code_off != 0 && #[trigger] spans_of(data, methods, n)[k]
                    == span_of(data, #[trigger] methods[j]),
        forall|j: int|
            0 <= j < n && (#[trigger] methods[j]).code_off != 0 ==> spans_of(
                data,
                methods,
                n,
            ).contains(span_of(data, methods[j])),
    decreases n,
{
    if n > 0 {
        let before = spans_of(data, methods, (n - 1) as nat);
        let now = spans_of(data, methods, n);
        lemma_spans_members(data, methods, (n - 1) as nat);
        assert forall|k: int| 0 <= k < now.len() implies exists|j: int|
            0 <= j < n && methods[j].code_off != 0 && #[trigger] now[k] == span_of(
                data,
                #[trigger] methods[j],
            ) by {
            if k < before.len() {
                let j = choose|j: int|
                    0 <= j < n - 1 && methods[j].code_off != 0 && before[k] == span_of(
                        data,
                        #[trigger] methods[j],
                    );
                assert(now[k] == span_of(data, methods[j]));
            } else {
                assert(now[k] == span_of(data, methods[n - 1]));
            }
        }
        assert forall|j: int| 0 <= j < n && (#[trigger] methods[j]).code_off != 0 implies now.contains(
            span_of(data, methods[j]),
        ) by {
            if j < n - 1 {
                assert(before.contains(span_of(data, methods[j])));
                let k = choose|k: int|
                    0 <= k < before.len() && before[k] == span_of(data, methods[j]);
                assert(now[k] == span_of(data, methods[j]));
            } else {
                assert(now[before.len() as int] == span_of(data, methods[j]));
            }
        }
    }
}

/// Of all sites of the source, those of a class are those of its methods.
#[verifier::spinoff_prover]
proof fn lemma_source_sites(data: Seq<u8>, base: int, descriptor: Seq<char>, kind: ReferenceKind)
    requires
        DexContents::contents_in(data, base) is Ok,
        ({
            let d = DexContents::contents_in(data, base)->Ok_0;
            &&& class_of(d.tables, descriptor) is Ok
            &&& coded_here(d, class_of(d.tables, descriptor)->Ok_0.1)
            &&& d.all_sites(kind) is Ok
        }),
    ensures
        ({
            let d = DexContents::contents_in(data, base)->Ok_0;
            let c = class_of(d.tables, descriptor)->Ok_0.1;
            let all = d.all_sites(kind)->Ok_0;
            &&& d.tables.data == data
            &&& site_texts(d, kind, of_callers(all, coded_in(c), all.len())) == strung(
                sites_by_method(d, kind, data),
                c.methods(),
                c.methods().len(),
            )
            &&& c.fields().len() <= u32::MAX
            &&& spans_of(data, c.methods(), c.methods().len()).len() <= d.code.len()
        }),
{
    let d = DexContents::contents_in(data, base)->Ok_0;
    let c = class_of(d.tables, descriptor)->Ok_0.1;
    let methods = c.methods();
    let spans = spans_of(data, methods, methods.len());
    let callers = coded_in(c);
    let all = d.all_sites(kind)->Ok_0;
    let at = lemma_class_in_contents(data, base, descriptor);
    assert(found_all(kind, data, d.code, 0) =~= Seq::empty());
    lemma_run_found(kind, data, d.code, 0);
    lemma_spans_members(data, methods, methods.len());
    assert forall|k: int| 0 <= k < spans.len() implies callers.contains(
        (#[trigger] spans[k]).method_idx,
    ) by {
        let j = choose|j: int|
            0 <= j < methods.len() && methods[j].code_off != 0 && spans[k] == span_of(
                data,
                #[trigger] methods[j],
            );
        assert(methods[j].method_idx == spans[k].method_idx);
    }
    lemma_callers_found(kind, data, d.code, at, spans, callers, d.code.len());
    lemma_spans_strung(d, kind, data, methods, methods.len());
}

/// The sites of the extracted file are those of its methods.
#[verifier::spinoff_prover]
proof fn lemma_new_sites(
    d: DexContents,
    e: DexContents,
    descriptor: Seq<char>,
    kind: ReferenceKind,
)
    requires
        extracts_agreed(d.tables, descriptor),
        ({
            let (bytes, m) = extracted_from(d.tables, descriptor)->Ok_0;
            let members = class_of(d.tables, descriptor)->Ok_0.1;
            let new = new_members(
                members,
                m,
                sections_for(d.tables, descriptor).code_offsets,
            ).methods();
            &&& gathered_in(d, e, m)
            &&& e.tables.data == bytes
            &&& e.code == spans_of(bytes, new, new.len())
        }),
    ensures
        e.all_sites(kind) is Ok,
        ({
            let c = class_of(d.tables, descriptor)->Ok_0.1;
            site_texts(e, kind, e.all_sites(kind)->Ok_0).to_multiset() == strung(
                sites_by_method(d, kind, d.tables.data),
                c.methods(),
                c.methods().len(),
            ).to_multiset()
        }),
{
    let (bytes, m) = extracted_from(d.tables, descriptor)->Ok_0;
    let c = class_of(d.tables, descriptor)->Ok_0.1;
    let offsets = sections_for(d.tables, descriptor).code_offsets;
    let new = new_members(c, m, offsets).methods();
    let order = in_new_order(c, m);
    let f = sites_by_method(e, kind, bytes);
    let g = sites_by_method(d, kind, d.tables.data);
    lemma_new_order(c, m, offsets);
    assert forall|i: int| 0 <= i < new.len() implies f(#[trigger] new[i]) == g(order[i]) && (
    new[i].code_off != 0 ==> span_sites(kind, bytes, span_of(bytes, new[i]), Seq::empty()) is Ok) by {
        assert(c.methods().contains(order[i]));
        let j = choose|j: int| 0 <= j < c.methods().len() && c.methods()[j] == order[i];
        assert(new[i] == new_method(c.methods()[j], m, offsets));
        lemma_method_sites(d, e, descriptor, kind, j);
    }
    lemma_spans_members(bytes, new, new.len());
    assert forall|k: int| 0 <= k < e.code.len() implies span_sites(
        kind,
        bytes,
        #[trigger] e.code[k],
        Seq::empty(),
    ) is Ok by {
        let spans = spans_of(bytes, new, new.len());
        let j = choose|j: int|
            0 <= j < new.len() && new[j].code_off != 0 && spans[k] == span_of(
                bytes,
                #[trigger] new[j],
            );
        assert(f(new[j]) == g(order[j]));
    }
    assert(found_all(kind, bytes, e.code, 0) =~= Seq::empty());
    lemma_run_reads(kind, bytes, e.code, 0);
    lemma_run_found(kind, bytes, e.code, 0);
    lemma_spans_strung(e, kind, bytes, new, new.len());
    lemma_strung_same(f, g, new, order, new.len());
    lemma_order_strung(g, c, m);
}

/// The extracted file has the reference sites that the code of the class has in
/// its source: by caller, offset and target, each as it is printed, they are
/// the same, as often. A method that the class lists more than once has the
/// same code each time, and no other class has code for a method of this one.
pub proof fn lemma_extracted_sites(
    data: Seq<u8>,
    base: int,
    descriptor: Seq<char>,
    kind: ReferenceKind,
)
    requires
        DexContents::contents_in(data, base) is Ok,
        ({
            let d = DexContents::contents_in(data, base)->Ok_0;
            &&& d.indexed()
            &&& extracts_agreed(d.tables, descriptor)
            &&& coded_here(d, class_of(d.tables, descriptor)->Ok_0.1)
            &&& d.all_sites(kind) is Ok
        }),
    ensures
        ({
            let d = DexContents::contents_in(data, base)->Ok_0;
            let bytes = extracted_from(d.tables, descriptor)->Ok_0.0;
            let e = DexContents::contents_in(bytes, 0)->Ok_0;
            let c = class_of(d.tables, descriptor)->Ok_0.1;
            let all = d.all_sites(kind)->Ok_0;
            &&& DexContents::contents_in(bytes, 0) is Ok
            &&& e.all_sites(kind) is Ok
            &&& site_texts(e, kind, e.all_sites(kind)->Ok_0).to_multiset() == site_texts(
                d,
                kind,
                of_callers(all, coded_in(c), all.len()),
            ).to_multiset()
        }),
{
    let d = DexContents::contents_in(data, base)->Ok_0;
    let bytes = extracted_from(d.tables, descriptor)->Ok_0.0;
    lemma_source_sites(data, base, descriptor, kind);
    if d.code.len() > 0 {
        let last = d.code[d.code.len() - 1];
        assert(d.code.len() - 1 <= d.scan_order[last.method_idx as int]);
    }
    lemma_new_code(d, descriptor, kind);
    lemma_new_sites(d, DexContents::contents_in(bytes, 0)->Ok_0, descriptor, kind);
}

} // verus!
