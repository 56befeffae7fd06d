//! The parts of an extracted class can be read.
use vstd::prelude::*;

use crate::collections::Entries;
use crate::dex_format::units_of;
use crate::error::Error;
use crate::minidex::assemble::class_words;
use crate::minidex::bytecode::CodeRefs;
use crate::minidex::equal::{
    lemma_code_placed, lemma_method_code, lemma_one_class, members_again, new_tables,
};
use crate::minidex::fidelity::{
    lemma_class_named, lemma_extracted_layout, lemma_extracted_members, lemma_extracted_tables,
    sections_for,
};
use crate::minidex::hollow::{codes_of, debug_step, debugs_of, parts_of, statics_of};
use crate::minidex::metadata::{annotations_in, debug_in};
use crate::minidex::notes::lemma_get_at;
use crate::minidex::operands::{mapped_from, refs_narrow};
use crate::minidex::placement::lemma_codes_ok;
use crate::minidex::preserved::{
    extracted_def, lemma_extracted_debug, lemma_extracted_interfaces, lemma_extracted_statics,
};
use crate::minidex::reader::{code_in, ClassDef, Code, DexTables, Members};
use crate::minidex::reopen::lemma_annotations_open;
use crate::minidex::rerun::{lemma_codes_numbered, lemma_written_runs, method_runs};
use crate::minidex::second::lemma_extracted_alike;
use crate::minidex::sections::or_zero;
use crate::minidex::tableback::class_with;
use crate::minidex::values::{Debugging, RefSets};
use crate::minidex::wholes::{
    extracts_once, lemma_code_kept, lemma_code_owner, lemma_method_back, methods_once,
};
use crate::minidex::{class_of, extracted_from};
use crate::results::run;

verus! {

/// The class of an extracted file is found.
#[verifier::spinoff_prover]
pub proof fn lemma_class_found(dex: DexTables, descriptor: Seq<char>)
    requires
        extracted_from(dex, descriptor) is Ok,
    ensures
        class_of(new_tables(dex, descriptor), descriptor) == Ok::<(ClassDef, Members), Error>(
            (extracted_def(dex, descriptor), members_again(dex, descriptor)),
        ),
        new_tables(dex, descriptor).data == extracted_from(dex, descriptor)->Ok_0.0,
{
    let m = extracted_from(dex, descriptor)->Ok_0.1;
    let (class, members) = class_of(dex, descriptor)->Ok_0;
    let t = new_tables(dex, descriptor);
    let s = sections_for(dex, descriptor);
    lemma_one_class(dex, descriptor);
    lemma_extracted_members(dex, descriptor);
    lemma_extracted_layout(dex, descriptor);
    lemma_class_named(dex, descriptor, m, s);
    let words = class_words(class, s, m, dex)->Ok_0;
    let def = class_with(words);
    assert(def.class_idx == words[0]);
    assert(m.mapped_type(class.class_idx) is Ok);
    assert(m.origin_types.contains_key(class.class_idx));
    assert(m.type_ok(def.class_idx as int));
    assert(m.string_ok(m.types[def.class_idx as int] as int));
    assert(t.descriptor(def.class_idx as int) == Ok::<Seq<char>, Error>(descriptor));
}

/// The code of a method of an extracted class is whole.
#[verifier::spinoff_prover]
proof fn lemma_method_runs(dex: DexTables, descriptor: Seq<char>, j: int)
    requires
        extracts_once(dex, descriptor),
        0 <= j < members_again(dex, descriptor).methods().len(),
    ensures
        method_runs(
            extracted_from(dex, descriptor)->Ok_0.0,
            members_again(dex, descriptor).methods()[j],
            new_tables(dex, descriptor).strings.len(),
        ),
{
    let (bytes, m) = extracted_from(dex, descriptor)->Ok_0;
    let members = class_of(dex, descriptor)->Ok_0.1;
    let s = sections_for(dex, descriptor);
    let t = new_tables(dex, descriptor);
    let i = lemma_method_back(members, m, s.code_offsets, j);
    let x = members.methods()[i];
    let y = members_again(dex, descriptor).methods()[j];
    lemma_code_placed(dex, descriptor, i);
    if x.code_off != 0 {
        lemma_method_code(dex, descriptor, i);
        lemma_extracted_alike(dex, descriptor);
        let units = units_of(code_in(dex.data, x.code_off as int)->Ok_0.insns);
        let out = mapped_from(units, 0, m, dex)->Ok_0;
        lemma_written_runs(units, out, 0, dex, t, m);
    }
}

/// The code of an extracted class can be numbered, unless a string number is
/// too large for its operand, for which the file has to have many strings.
#[verifier::spinoff_prover]
proof fn lemma_codes_again(dex: DexTables, descriptor: Seq<char>)
    requires
        extracts_once(dex, descriptor),
    ensures
        match codes_of(
            extracted_from(dex, descriptor)->Ok_0.0,
            members_again(dex, descriptor).methods(),
            CodeRefs::empty(),
        ) {
            Ok((_, refs)) => refs_narrow(refs),
            Err(e) => e == Error::JumboRequired && new_tables(dex, descriptor).strings.len()
                > 0x1_0000,
        },
        new_tables(dex, descriptor).strings == extracted_from(dex, descriptor)->Ok_0.1.strings,
{
    let (bytes, m) = extracted_from(dex, descriptor)->Ok_0;
    let methods = members_again(dex, descriptor).methods();
    let t = new_tables(dex, descriptor);
    lemma_extracted_layout(dex, descriptor);
    lemma_extracted_alike(dex, descriptor);
    lemma_extracted_tables(dex, descriptor);
    assert(m.strings.len() <= u32::MAX);
    assert forall|j: int| 0 <= j < methods.len() implies method_runs(
        bytes,
        #[trigger] methods[j],
        t.strings.len(),
    ) by {
        lemma_method_runs(dex, descriptor, j);
    }
    lemma_codes_numbered(
        bytes,
        methods,
        t.strings.len(),
        (Entries::<Code>::empty(), CodeRefs::empty()),
        0,
    );
}

/// Whether the debug item of a piece of code can be read, if it has one.
spec fn debug_opens(data: Seq<u8>, off: u32) -> bool {
    off == 0 || forall|refs: RefSets| (#[trigger] debug_in(data, off as int, refs)) is Ok
}

proof fn lemma_debugs_open(
    data: Seq<u8>,
    codes: Entries<Code>,
    s: (Entries<Debugging>, RefSets),
    i: int,
)
    requires
        0 <= i,
        codes.wf(),
        forall|j: int|
            0 <= j < codes.keys.len() ==> debug_opens(
                data,
                (#[trigger] codes.values[j]).debug_info_off,
            ),
    ensures
        run(debug_step(data, codes), s, i, codes.keys.len() as int) is Ok,
    decreases codes.keys.len() - i,
{
    if i < codes.keys.len() {
        let off = codes.values[i].debug_info_off;
        assert(debug_opens(data, off));
        if off != 0 {
            assert(debug_in(data, off as int, s.1) is Ok);
        }
        lemma_debugs_open(data, codes, debug_step(data, codes)(s, i)->Ok_0, i + 1);
    }
}

/// The debug items of an extracted class can be read.
#[verifier::spinoff_prover]
proof fn lemma_debugs_again(dex: DexTables, descriptor: Seq<char>, refs: RefSets)
    requires
        extracts_once(dex, descriptor),
        methods_once(members_again(dex, descriptor)),
        codes_of(
            extracted_from(dex, descriptor)->Ok_0.0,
            members_again(dex, descriptor).methods(),
            CodeRefs::empty(),
        ) is Ok,
    ensures
        debugs_of(
            extracted_from(dex, descriptor)->Ok_0.0,
            codes_of(
                extracted_from(dex, descriptor)->Ok_0.0,
                members_again(dex, descriptor).methods(),
                CodeRefs::empty(),
            )->Ok_0.0,
            refs,
        ) is Ok,
{
    let (bytes, m) = extracted_from(dex, descriptor)->Ok_0;
    let members = class_of(dex, descriptor)->Ok_0.1;
    let again = members_again(dex, descriptor);
    let s = sections_for(dex, descriptor);
    let codes = codes_of(bytes, again.methods(), CodeRefs::empty())->Ok_0.0;
    lemma_codes_ok(bytes, again.methods(), CodeRefs::empty());
    assert forall|p: int| 0 <= p < codes.keys.len() implies debug_opens(
        bytes,
        (#[trigger] codes.values[p]).debug_info_off,
    ) by {
        lemma_get_at(codes, p);
        let j = lemma_code_owner(bytes, again, codes.keys[p]);
        lemma_code_kept(bytes, again, j);
        let i = lemma_method_back(members, m, s.code_offsets, j);
        lemma_code_placed(dex, descriptor, i);
        lemma_method_code(dex, descriptor, i);
        let off = or_zero(s.debug_offsets, members.methods()[i].method_idx);
        assert(codes.values[p].debug_info_off == off);
        lemma_extracted_debug(dex, descriptor, i, RefSets::empty());
        if off != 0 {
            assert forall|r: RefSets| (#[trigger] debug_in(bytes, off as int, r)) is Ok by {
                lemma_extracted_debug(dex, descriptor, i, r);
            }
        }
    }
    lemma_debugs_open(bytes, codes, (Entries::<Debugging>::empty(), refs), 0);
}

/// The parts of an extracted class can be read, unless a string number is too
/// large for its operand, for which the file has to have many strings.
#[verifier::spinoff_prover]
pub proof fn lemma_parts_again(dex: DexTables, descriptor: Seq<char>)
    requires
        extracts_once(dex, descriptor),
        methods_once(members_again(dex, descriptor)),
    ensures
        match parts_of(
            new_tables(dex, descriptor),
            extracted_def(dex, descriptor),
            members_again(dex, descriptor),
            CodeRefs::empty(),
        ) {
            Ok((_, refs)) => refs_narrow(refs),
            Err(e) => e == Error::JumboRequired && extracted_from(
                dex,
                descriptor,
            )->Ok_0.1.strings.len() > 0x1_0000,
        },
{
    let bytes = extracted_from(dex, descriptor)->Ok_0.0;
    let def = extracted_def(dex, descriptor);
    let t = new_tables(dex, descriptor);
    let again = members_again(dex, descriptor);
    lemma_extracted_layout(dex, descriptor);
    assert(t.data == bytes);
    lemma_extracted_interfaces(dex, descriptor);
    lemma_codes_again(dex, descriptor);
    lemma_annotations_open(dex, descriptor, RefSets::empty());
    let a = annotations_in(bytes, def.annotations_off, RefSets::empty())->Ok_0.1;
    lemma_extracted_statics(dex, descriptor, a);
    assert(statics_of(bytes, def.static_values_off, a) is Ok);
    let b = statics_of(bytes, def.static_values_off, a)->Ok_0.1;
    if codes_of(bytes, again.methods(), CodeRefs::empty()) is Ok {
        lemma_debugs_again(dex, descriptor, b);
    }
}

} // verus!
