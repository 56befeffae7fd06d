//! The operands of instructions: collecting what they refer to, and rewriting
//! them.
use std::collections::HashMap;
use vstd::prelude::*;

use crate::collections::{cut16, cut32, low16, low32};
use crate::dex_format::{instruction_width, le16, units_of, width_at};
use crate::error::Error;
use crate::minidex::mapper::IndexMapper;
use crate::minidex::reader::{Code, CodeItem, DexTables};
use crate::minidex::tables::{lemma_position, lemma_position_unique, position, Tables};

verus! {

broadcast use vstd::std_specs::hash::group_hash_axioms;

// ---------------------------------------------------------------------------
// Numbered references
// ---------------------------------------------------------------------------

/// Identifiers in the order in which they were first met, each with its
/// number.
#[derive(Debug)]
pub struct OrderedIds {
    pub values: Vec<u32>,
    pub reverse: HashMap<u32, u32>,
}

impl View for OrderedIds {
    type V = Seq<u32>;

    open spec fn view(&self) -> Seq<u32> {
        self.values@
    }
}

/// The identifiers with `id` among them.
pub open spec fn with_id(ids: Seq<u32>, id: u32) -> Seq<u32> {
    if ids.contains(id) {
        ids
    } else {
        ids.push(id)
    }
}

/// The number of `id` among the identifiers that have met it.
pub open spec fn number_of(ids: Seq<u32>, id: u32) -> u32 {
    low32(position(with_id(ids, id), id))
}

impl OrderedIds {
    /// No identifier occurs twice, and the reverse map gives each its number.
    pub open spec fn wf(self) -> bool {
        &&& self.values@.no_duplicates()
        &&& forall|k: u32| #[trigger]
            self.reverse@.contains_key(k) <==> self.values@.contains(k)
        &&& forall|k: u32| #[trigger]
            self.reverse@.contains_key(k) ==> self.reverse@[k] == low32(position(self.values@, k))
    }

    pub fn new() -> (r: OrderedIds)
        ensures
            r.wf(),
            r@ == Seq::<u32>::empty(),
    {
        OrderedIds { values: Vec::new(), reverse: HashMap::new() }
    }

    pub fn insert(&mut self, id: u32) -> (r: u32)
        requires
            old(self).wf(),
        ensures
            final(self).wf(),
            final(self)@ == with_id(old(self)@, id),
            r == number_of(old(self)@, id),
    {
        if let Some(number) = self.reverse.get(&id) {
            return *number;
        }
        let number: u32 = cut32(self.values.len());
        let ghost before = self.values@;
        let ghost reverse = self.reverse@;
        self.values.push(id);
        self.reverse.insert(id, number);
        proof {
            let n = before.len() as int;
            assert(!reverse.contains_key(id));
            assert(!before.contains(id));
            assert(self.values@.no_duplicates());
            assert(self.values@[n] == id);
            lemma_position_unique(self.values@, n);
            assert forall|k: u32| #[trigger] self.reverse@.contains_key(k)
                <==> self.values@.contains(k) by {
                if before.contains(k) {
                    let i = choose|i: int| 0 <= i < before.len() && before[i] == k;
                    assert(self.values@[i] == k);
                }
                if self.values@.contains(k) && k != id {
                    let i = choose|i: int| 0 <= i < self.values@.len() && self.values@[i] == k;
                    assert(before[i] == k);
                }
                assert(reverse.contains_key(k) <==> before.contains(k));
            }
            assert forall|k: u32| #[trigger] self.reverse@.contains_key(k) implies self.reverse@[k]
                == low32(position(self.values@, k)) by {
                if k != id {
                    assert(reverse.contains_key(k));
                    lemma_position(before, k);
                    let i = position(before, k);
                    assert(self.values@[i] == k);
                    lemma_position_unique(self.values@, i);
                }
            }
        }
        number
    }
}

/// The references that the instructions of a class make, each table in the
/// order in which they were first met.
#[derive(Debug)]
pub struct BytecodeRefs {
    pub strings: OrderedIds,
    pub types: OrderedIds,
    pub protos: OrderedIds,
    pub fields: OrderedIds,
    pub methods: OrderedIds,
}

/// The meaning of the references of a class.
#[verifier::ext_equal]
pub struct CodeRefs {
    pub strings: Seq<u32>,
    pub types: Seq<u32>,
    pub protos: Seq<u32>,
    pub fields: Seq<u32>,
    pub methods: Seq<u32>,
}

impl View for BytecodeRefs {
    type V = CodeRefs;

    open spec fn view(&self) -> CodeRefs {
        CodeRefs {
            strings: self.strings@,
            types: self.types@,
            protos: self.protos@,
            fields: self.fields@,
            methods: self.methods@,
        }
    }
}

impl CodeRefs {
    pub open spec fn empty() -> CodeRefs {
        CodeRefs {
            strings: Seq::empty(),
            types: Seq::empty(),
            protos: Seq::empty(),
            fields: Seq::empty(),
            methods: Seq::empty(),
        }
    }
}

impl BytecodeRefs {
    pub open spec fn wf(self) -> bool {
        &&& self.strings.wf()
        &&& self.types.wf()
        &&& self.protos.wf()
        &&& self.fields.wf()
        &&& self.methods.wf()
    }

    pub fn new() -> (r: BytecodeRefs)
        ensures
            r.wf(),
            r@ == CodeRefs::empty(),
    {
        BytecodeRefs {
            strings: OrderedIds::new(),
            types: OrderedIds::new(),
            protos: OrderedIds::new(),
            fields: OrderedIds::new(),
            methods: OrderedIds::new(),
        }
    }
}

// ---------------------------------------------------------------------------
// What an opcode refers to
// ---------------------------------------------------------------------------

/// Which tables the operands of an instruction point into.
#[derive(Debug, Clone, Copy, PartialEq, Eq, Structural)]
pub enum Operand {
    Nothing,
    String,
    JumboString,
    Type,
    Field,
    Method,
    MethodAndProto,
    Proto,
    CallSite,
}

/// What the operands of `opcode` point at.
pub open spec fn operand_of(opcode: u8) -> Operand {
    if opcode == 0x1a {
        Operand::String
    } else if opcode == 0x1b {
        Operand::JumboString
    } else if opcode == 0x1c || opcode == 0x1f || opcode == 0x20 || 0x22 <= opcode <= 0x25 {
        Operand::Type
    } else if 0x52 <= opcode <= 0x6d {
        Operand::Field
    } else if 0x6e <= opcode <= 0x72 || 0x74 <= opcode <= 0x78 {
        Operand::Method
    } else if 0xfa <= opcode <= 0xfb {
        Operand::MethodAndProto
    } else if opcode == 0xff {
        Operand::Proto
    } else if 0xfc <= opcode <= 0xfe {
        Operand::CallSite
    } else {
        Operand::Nothing
    }
}

pub fn operand_kind(opcode: u8) -> (r: Operand)
    ensures
        r == operand_of(opcode),
{
    match opcode {
        0x1a => Operand::String,
        0x1b => Operand::JumboString,
        0x1c | 0x1f | 0x20 | 0x22..=0x25 => Operand::Type,
        0x52..=0x6d => Operand::Field,
        0x6e..=0x72 | 0x74..=0x78 => Operand::Method,
        0xfa..=0xfb => Operand::MethodAndProto,
        0xff => Operand::Proto,
        0xfc..=0xfe => Operand::CallSite,
        _ => Operand::Nothing,
    }
}

pub open spec fn opcode_at(units: Seq<u16>, pc: int) -> u8 {
    (units[pc] % 256) as u8
}

/// The 32-bit operand of a jumbo string instruction.
pub open spec fn wide_operand(units: Seq<u16>, pc: int) -> u32 {
    (units[pc + 1] + 0x1_0000 * units[pc + 2]) as u32
}

/// The units with a 32-bit operand behind `pc`.
pub open spec fn with_wide_operand(units: Seq<u16>, pc: int, index: u32) -> Seq<u16> {
    units.update(pc + 1, low16(index as int)).update(pc + 2, (index / 0x1_0000) as u16)
}

// ---------------------------------------------------------------------------
// Bytes and units
// ---------------------------------------------------------------------------

/// The little-endian bytes of code units.
pub open spec fn unit_bytes(units: Seq<u16>) -> Seq<u8> {
    Seq::new(
        2 * units.len(),
        |i: int|
            if i % 2 == 0 {
                (units[i / 2] % 256) as u8
            } else {
                (units[i / 2] / 256) as u8
            },
    )
}

/// Units that were written as bytes read back as themselves.
pub proof fn lemma_unit_bytes_round_trip(units: Seq<u16>)
    ensures
        units_of(unit_bytes(units)) == units,
{
    let bytes = unit_bytes(units);
    assert forall|i: int| 0 <= i < units.len() implies units_of(bytes)[i] == units[i] by {
        assert(bytes[2 * i] == (units[i] % 256) as u8);
        assert(bytes[2 * i + 1] == (units[i] / 256) as u8);
    }
    assert(units_of(bytes) =~= units);
}

/// The code units of a byte string.
pub fn units_from(bytes: &Vec<u8>) -> (r: Vec<u16>)
    ensures
        r@ == units_of(bytes@),
{
    let mut out: Vec<u16> = Vec::new();
    let count: usize = bytes.len() / 2;
    let mut i: usize = 0;
    while i < count
        invariant
            i <= count,
            count == bytes.len() / 2,
            out.len() == i,
            forall|j: int| 0 <= j < i ==> #[trigger] out@[j] == le16(bytes@, 2 * j),
        decreases count - i,
    {
        out.push(bytes[2 * i] as u16 + 0x100 * bytes[2 * i + 1] as u16);
        i += 1;
    }
    assert(out@ =~= units_of(bytes@));
    out
}

/// The bytes of code units.
pub fn bytes_from(units: &Vec<u16>) -> (r: Vec<u8>)
    ensures
        r@ == unit_bytes(units@),
{
    let mut out: Vec<u8> = Vec::new();
    let mut i: usize = 0;
    while i < units.len()
        invariant
            i <= units.len(),
            out@.len() == 2 * i,
            forall|j: int|
                0 <= j < 2 * i ==> #[trigger] out@[j] == (if j % 2 == 0 {
                    (units@[j / 2] % 256) as u8
                } else {
                    (units@[j / 2] / 256) as u8
                }),
        decreases units.len() - i,
    {
        out.push((units[i] % 256) as u8);
        out.push((units[i] / 256) as u8);
        i += 1;
    }
    assert(out@ =~= unit_bytes(units@));
    out
}

// ---------------------------------------------------------------------------
// Collecting references
// ---------------------------------------------------------------------------

/// The instruction at `pc` with its operands replaced by the numbers of what
/// they refer to, and the references with those. The number of a string has to
/// fit the operand.
pub open spec fn numbered_at(units: Seq<u16>, pc: int, refs: CodeRefs) -> Result<
    (Seq<u16>, CodeRefs),
    Error,
> {
    let operand = operand_of(opcode_at(units, pc));
    if operand == Operand::Nothing {
        Ok((units, refs))
    } else if operand == Operand::CallSite {
        Err(Error::CallSiteOpcode(opcode_at(units, pc)))
    } else if operand == Operand::JumboString {
        if pc + 2 >= units.len() {
            Err(Error::TruncatedJumbo)
        } else {
            let id = wide_operand(units, pc);
            Ok(
                (
                    with_wide_operand(units, pc, number_of(refs.strings, id)),
                    CodeRefs { strings: with_id(refs.strings, id), ..refs },
                ),
            )
        }
    } else if pc + 1 >= units.len() {
        Err(Error::TruncatedIndexed)
    } else {
        let id = units[pc + 1] as u32;
        if operand == Operand::String {
            if number_of(refs.strings, id) > 0xffff {
                Err(Error::JumboRequired)
            } else {
                Ok(
                    (
                        units.update(pc + 1, number_of(refs.strings, id) as u16),
                        CodeRefs { strings: with_id(refs.strings, id), ..refs },
                    ),
                )
            }
        } else if operand == Operand::Type {
            Ok(
                (
                    units.update(pc + 1, low16(number_of(refs.types, id) as int)),
                    CodeRefs { types: with_id(refs.types, id), ..refs },
                ),
            )
        } else if operand == Operand::Field {
            Ok(
                (
                    units.update(pc + 1, low16(number_of(refs.fields, id) as int)),
                    CodeRefs { fields: with_id(refs.fields, id), ..refs },
                ),
            )
        } else if operand == Operand::Proto {
            Ok(
                (
                    units.update(pc + 1, low16(number_of(refs.protos, id) as int)),
                    CodeRefs { protos: with_id(refs.protos, id), ..refs },
                ),
            )
        } else if operand == Operand::Method {
            Ok(
                (
                    units.update(pc + 1, low16(number_of(refs.methods, id) as int)),
                    CodeRefs { methods: with_id(refs.methods, id), ..refs },
                ),
            )
        } else if pc + 3 >= units.len() {
            Err(Error::TruncatedPolymorphic)
        } else {
            let proto = units[pc + 3] as u32;
            Ok(
                (
                    units.update(pc + 1, low16(number_of(refs.methods, id) as int)).update(
                        pc + 3,
                        low16(number_of(refs.protos, proto) as int),
                    ),
                    CodeRefs {
                        methods: with_id(refs.methods, id),
                        protos: with_id(refs.protos, proto),
                        ..refs
                    },
                ),
            )
        }
    }
}

/// The instructions from `pc` on with their operands numbered.
pub open spec fn numbered_from(units: Seq<u16>, pc: int, refs: CodeRefs) -> Result<
    (Seq<u16>, CodeRefs),
    Error,
>
    decreases units.len() - pc,
{
    if pc >= units.len() {
        Ok((units, refs))
    } else {
        match numbered_at(units, pc, refs) {
            Err(e) => Err(e),
            Ok((changed, more)) => match width_at(changed, pc) {
                Err(e) => Err(e),
                Ok(width) => if width == 0 || pc + width > units.len() || changed.len()
                    != units.len() {
                    Err(Error::InvalidWidth)
                } else {
                    numbered_from(changed, pc + width, more)
                },
            },
        }
    }
}

/// Instruction bytes with their operands numbered.
pub open spec fn numbered(insns: Seq<u8>, refs: CodeRefs) -> Result<(Seq<u8>, CodeRefs), Error> {
    if insns.len() % 2 != 0 {
        Err(Error::OddInstructionBytes)
    } else {
        match numbered_from(units_of(insns), 0, refs) {
            Err(e) => Err(e),
            Ok((units, more)) => Ok((unit_bytes(units), more)),
        }
    }
}

/// The references with those of the instruction at `pc`, as far as its operands
/// are there.
pub open spec fn noted_at(units: Seq<u16>, pc: int, refs: CodeRefs) -> CodeRefs {
    let operand = operand_of(opcode_at(units, pc));
    let id = units[pc + 1] as u32;
    if operand == Operand::Nothing || operand == Operand::CallSite || pc + 1 >= units.len() {
        refs
    } else if operand == Operand::JumboString {
        if pc + 2 >= units.len() {
            refs
        } else {
            CodeRefs { strings: with_id(refs.strings, wide_operand(units, pc)), ..refs }
        }
    } else if operand == Operand::String {
        CodeRefs { strings: with_id(refs.strings, id), ..refs }
    } else if operand == Operand::Type {
        CodeRefs { types: with_id(refs.types, id), ..refs }
    } else if operand == Operand::Field {
        CodeRefs { fields: with_id(refs.fields, id), ..refs }
    } else if operand == Operand::Proto {
        CodeRefs { protos: with_id(refs.protos, id), ..refs }
    } else if operand == Operand::Method || pc + 3 >= units.len() {
        CodeRefs { methods: with_id(refs.methods, id), ..refs }
    } else {
        CodeRefs {
            methods: with_id(refs.methods, id),
            protos: with_id(refs.protos, units[pc + 3] as u32),
            ..refs
        }
    }
}

/// The references with those of the instructions from `pc` on, up to and with
/// the first one that cannot be numbered.
pub open spec fn noted_from(units: Seq<u16>, pc: int, refs: CodeRefs) -> CodeRefs
    decreases units.len() - pc,
{
    if pc >= units.len() {
        refs
    } else {
        let more = noted_at(units, pc, refs);
        match numbered_at(units, pc, refs) {
            Err(_) => more,
            Ok((changed, _)) => match width_at(changed, pc) {
                Err(_) => more,
                Ok(width) => if width == 0 || pc + width > units.len() || changed.len()
                    != units.len() {
                    more
                } else {
                    noted_from(changed, pc + width, more)
                },
            },
        }
    }
}

/// The references with those of some instruction bytes, up to where they can be
/// numbered.
pub open spec fn noted(insns: Seq<u8>, refs: CodeRefs) -> CodeRefs {
    if insns.len() % 2 != 0 {
        refs
    } else {
        noted_from(units_of(insns), 0, refs)
    }
}

/// Numbers the operands of the instruction at `pc`.
fn number_at(units: &mut Vec<u16>, pc: usize, refs: &mut BytecodeRefs) -> (r: Result<(), Error>)
    requires
        pc < old(units)@.len(),
        old(refs).wf(),
    ensures
        match r {
            Ok(_) => numbered_at(old(units)@, pc as int, old(refs)@) == Ok::<
                (Seq<u16>, CodeRefs),
                Error,
            >((final(units)@, final(refs)@)) && final(units)@.len() == old(units)@.len(),
            Err(e) => numbered_at(old(units)@, pc as int, old(refs)@) == Err::<
                (Seq<u16>, CodeRefs),
                Error,
            >(e),
        },
        final(refs).wf(),
        final(refs)@ == noted_at(old(units)@, pc as int, old(refs)@),
{
    let opcode: u8 = (units[pc] % 256) as u8;
    let operand = operand_kind(opcode);
    let left: usize = units.len() - pc;
    match operand {
        Operand::Nothing => Ok(()),
        Operand::CallSite => Err(Error::CallSiteOpcode(opcode)),
        Operand::JumboString => {
            if left <= 2 {
                return Err(Error::TruncatedJumbo);
            }
            let id: u32 = units[pc + 1] as u32 + 0x1_0000 * units[pc + 2] as u32;
            let number: u32 = refs.strings.insert(id);
            units.set(pc + 1, cut16(number));
            units.set(pc + 2, (number / 0x1_0000) as u16);
            Ok(())
        },
        Operand::MethodAndProto => {
            if left <= 1 {
                return Err(Error::TruncatedIndexed);
            }
            let number: u32 = refs.methods.insert(units[pc + 1] as u32);
            units.set(pc + 1, cut16(number));
            if left <= 3 {
                return Err(Error::TruncatedPolymorphic);
            }
            let proto: u32 = refs.protos.insert(units[pc + 3] as u32);
            units.set(pc + 3, cut16(proto));
            Ok(())
        },
        _ => {
            if left <= 1 {
                return Err(Error::TruncatedIndexed);
            }
            let id: u32 = units[pc + 1] as u32;
            let number: u32 = match operand {
                Operand::String => refs.strings.insert(id),
                Operand::Type => refs.types.insert(id),
                Operand::Field => refs.fields.insert(id),
                Operand::Method => refs.methods.insert(id),
                _ => refs.protos.insert(id),
            };
            if operand == Operand::String && number > 0xffff {
                return Err(Error::JumboRequired);
            }
            units.set(pc + 1, cut16(number));
            Ok(())
        },
    }
}

/// Replaces every operand that refers to an identifier by the number of that
/// identifier among the references, and notes the references. An error leaves
/// the code as it is, and the references as they were noted up to there.
pub fn remap_code_indices(code: &mut CodeItem, refs: &mut BytecodeRefs) -> (r: Result<(), Error>)
    requires
        old(refs).wf(),
    ensures
        match r {
            Ok(_) => numbered(old(code).insns@, old(refs)@) == Ok::<
                (Seq<u8>, CodeRefs),
                Error,
            >((final(code).insns@, final(refs)@)) && final(code)@ == (Code {
                insns: final(code).insns@,
                ..old(code)@
            }),
            Err(e) => numbered(old(code).insns@, old(refs)@) == Err::<(Seq<u8>, CodeRefs), Error>(
                e,
            ) && final(code)@ == old(code)@,
        },
        final(refs).wf(),
        final(refs)@ == noted(old(code).insns@, old(refs)@),
{
    let mut units = units_from(&code.insns);
    if code.insns.len() % 2 != 0 {
        return Err(Error::OddInstructionBytes);
    }
    let ghost first = units@;
    let ghost before = refs@;
    let mut pc: usize = 0;
    while pc < units.len()
        invariant
            pc <= units.len(),
            refs.wf(),
            before == old(refs)@,
            *code == *old(code),
            code.insns@.len() % 2 == 0,
            first == units_of(code.insns@),
            numbered_from(first, 0, before) == numbered_from(units@, pc as int, refs@),
            noted_from(first, 0, before) == noted_from(units@, pc as int, refs@),
        decreases units.len() - pc,
    {
        number_at(&mut units, pc, refs)?;
        let width: u64 = instruction_width(units.as_slice(), pc as u64)?;
        if width == 0 || width > (units.len() - pc) as u64 {
            return Err(Error::InvalidWidth);
        }
        pc += width as usize;
    }
    code.insns = bytes_from(&units);
    Ok(())
}

// ---------------------------------------------------------------------------
// Rewriting operands
// ---------------------------------------------------------------------------

/// The identifier that a number stands for.
pub open spec fn id_of(ids: Seq<u32>, number: u32, fault: Error) -> Result<u32, Error> {
    if number < ids.len() {
        Ok(ids[number as int])
    } else {
        Err(fault)
    }
}

/// The new index of the string with the given number.
pub open spec fn final_string(refs: CodeRefs, m: Tables, dex: DexTables, number: u32) -> Result<
    u32,
    Error,
> {
    match id_of(refs.strings, number, Error::BadTemporaryString) {
        Err(e) => Err(e),
        Ok(id) => m.mapped_string(dex, id),
    }
}

pub open spec fn final_type(refs: CodeRefs, m: Tables, number: u32) -> Result<u16, Error> {
    match id_of(refs.types, number, Error::BadTemporaryType) {
        Err(e) => Err(e),
        Ok(id) => m.mapped_type(id),
    }
}

pub open spec fn final_field(refs: CodeRefs, m: Tables, number: u32) -> Result<u16, Error> {
    match id_of(refs.fields, number, Error::BadTemporaryField) {
        Err(e) => Err(e),
        Ok(id) => m.mapped_field(id),
    }
}

pub open spec fn final_method(refs: CodeRefs, m: Tables, number: u32) -> Result<u16, Error> {
    match id_of(refs.methods, number, Error::BadTemporaryMethod) {
        Err(e) => Err(e),
        Ok(id) => m.mapped_method(id),
    }
}

pub open spec fn final_proto(refs: CodeRefs, m: Tables, number: u32) -> Result<u16, Error> {
    match id_of(refs.protos, number, Error::BadTemporaryProto) {
        Err(e) => Err(e),
        Ok(id) => m.mapped_proto(id),
    }
}

/// The instruction at `pc` with the numbers in its operands replaced by new
/// indices.
pub open spec fn rewritten_at(
    units: Seq<u16>,
    pc: int,
    refs: CodeRefs,
    m: Tables,
    dex: DexTables,
) -> Result<Seq<u16>, Error> {
    let operand = operand_of(opcode_at(units, pc));
    if operand == Operand::Nothing || operand == Operand::CallSite {
        Ok(units)
    } else if operand == Operand::JumboString {
        if pc + 2 >= units.len() {
            Err(Error::TruncatedJumbo)
        } else {
            match final_string(refs, m, dex, wide_operand(units, pc)) {
                Err(e) => Err(e),
                Ok(index) => Ok(with_wide_operand(units, pc, index)),
            }
        }
    } else if pc + 1 >= units.len() {
        Err(Error::TruncatedIndexed)
    } else {
        let number = units[pc + 1] as u32;
        if operand == Operand::String {
            match final_string(refs, m, dex, number) {
                Err(e) => Err(e),
                Ok(index) => if index > 0xffff {
                    Err(Error::JumboRequired)
                } else {
                    Ok(units.update(pc + 1, index as u16))
                },
            }
        } else if operand == Operand::MethodAndProto {
            match final_method(refs, m, number) {
                Err(e) => Err(e),
                Ok(method) => if pc + 3 >= units.len() {
                    Err(Error::TruncatedPolymorphic)
                } else {
                    match final_proto(refs, m, units[pc + 3] as u32) {
                        Err(e) => Err(e),
                        Ok(proto) => Ok(units.update(pc + 1, method).update(pc + 3, proto)),
                    }
                },
            }
        } else {
            let found = if operand == Operand::Type {
                final_type(refs, m, number)
            } else if operand == Operand::Field {
                final_field(refs, m, number)
            } else if operand == Operand::Method {
                final_method(refs, m, number)
            } else {
                final_proto(refs, m, number)
            };
            match found {
                Err(e) => Err(e),
                Ok(index) => Ok(units.update(pc + 1, index)),
            }
        }
    }
}

/// The instructions from `pc` on with new indices in their operands.
pub open spec fn rewritten_from(
    units: Seq<u16>,
    pc: int,
    refs: CodeRefs,
    m: Tables,
    dex: DexTables,
) -> Result<Seq<u16>, Error>
    decreases units.len() - pc,
{
    if pc >= units.len() {
        Ok(units)
    } else {
        match rewritten_at(units, pc, refs, m, dex) {
            Err(e) => Err(e),
            Ok(changed) => match width_at(changed, pc) {
                Err(e) => Err(e),
                Ok(width) => if width == 0 || changed.len() != units.len() {
                    Err(Error::InvalidWidth)
                } else if pc + width >= units.len() {
                    Ok(changed)
                } else {
                    rewritten_from(changed, pc + width, refs, m, dex)
                },
            },
        }
    }
}

/// Instruction bytes with new indices in their operands.
pub open spec fn rewritten(insns: Seq<u8>, refs: CodeRefs, m: Tables, dex: DexTables) -> Result<
    Seq<u8>,
    Error,
> {
    match rewritten_from(units_of(insns), 0, refs, m, dex) {
        Err(e) => Err(e),
        Ok(units) => Ok(unit_bytes(units)),
    }
}

/// The identifier that a number stands for.
fn id_for(ids: &OrderedIds, number: u32, fault: Error) -> (r: Result<u32, Error>)
    ensures
        r == id_of(ids@, number, fault),
{
    if (number as usize) < ids.values.len() {
        Ok(ids.values[number as usize])
    } else {
        Err(fault)
    }
}

/// Rewrites the operands of the instruction at `pc`.
fn rewrite_at(units: &mut Vec<u16>, pc: usize, refs: &BytecodeRefs, mapper: &IndexMapper<'_>) -> (r:
    Result<(), Error>)
    requires
        pc < old(units)@.len(),
    ensures
        match r {
            Ok(_) => rewritten_at(old(units)@, pc as int, refs@, mapper@, mapper.dex@) == Ok::<
                Seq<u16>,
                Error,
            >(final(units)@) && final(units)@.len() == old(units)@.len(),
            Err(e) => rewritten_at(old(units)@, pc as int, refs@, mapper@, mapper.dex@) == Err::<
                Seq<u16>,
                Error,
            >(e),
        },
{
    let opcode: u8 = (units[pc] % 256) as u8;
    let operand = operand_kind(opcode);
    let left: usize = units.len() - pc;
    match operand {
        Operand::Nothing => Ok(()),
        Operand::CallSite => Ok(()),
        Operand::JumboString => {
            if left <= 2 {
                return Err(Error::TruncatedJumbo);
            }
            let number: u32 = units[pc + 1] as u32 + 0x1_0000 * units[pc + 2] as u32;
            let id: u32 = id_for(&refs.strings, number, Error::BadTemporaryString)?;
            let index: u32 = mapper.mapped_string(id)?;
            units.set(pc + 1, cut16(index));
            units.set(pc + 2, (index / 0x1_0000) as u16);
            Ok(())
        },
        Operand::String => {
            if left <= 1 {
                return Err(Error::TruncatedIndexed);
            }
            let number: u32 = units[pc + 1] as u32;
            let id: u32 = id_for(&refs.strings, number, Error::BadTemporaryString)?;
            let index: u32 = mapper.mapped_string(id)?;
            if index > 0xffff {
                return Err(Error::JumboRequired);
            }
            units.set(pc + 1, index as u16);
            Ok(())
        },
        Operand::MethodAndProto => {
            if left <= 1 {
                return Err(Error::TruncatedIndexed);
            }
            let number: u32 = units[pc + 1] as u32;
            let id: u32 = id_for(&refs.methods, number, Error::BadTemporaryMethod)?;
            let method: u16 = mapper.mapped_method(id)?;
            units.set(pc + 1, method);
            if left <= 3 {
                return Err(Error::TruncatedPolymorphic);
            }
            let second: u32 = units[pc + 3] as u32;
            let proto_id: u32 = id_for(&refs.protos, second, Error::BadTemporaryProto)?;
            let proto: u16 = mapper.mapped_proto(proto_id)?;
            units.set(pc + 3, proto);
            Ok(())
        },
        _ => {
            if left <= 1 {
                return Err(Error::TruncatedIndexed);
            }
            let number: u32 = units[pc + 1] as u32;
            let index: u16 = match operand {
                Operand::Type => {
                    let id: u32 = id_for(&refs.types, number, Error::BadTemporaryType)?;
                    mapper.mapped_type(id)?
                },
                Operand::Field => {
                    let id: u32 = id_for(&refs.fields, number, Error::BadTemporaryField)?;
                    mapper.mapped_field(id)?
                },
                Operand::Method => {
                    let id: u32 = id_for(&refs.methods, number, Error::BadTemporaryMethod)?;
                    mapper.mapped_method(id)?
                },
                _ => {
                    let id: u32 = id_for(&refs.protos, number, Error::BadTemporaryProto)?;
                    mapper.mapped_proto(id)?
                },
            };
            units.set(pc + 1, index);
            Ok(())
        },
    }
}

/// Replaces the number in every operand by the index of the identifier in the
/// new tables.
pub fn normalize_code_indices(code: &mut CodeItem, refs: &BytecodeRefs, mapper: &IndexMapper<'_>) -> (r:
    Result<(), Error>)
    ensures
        match r {
            Ok(_) => rewritten(old(code).insns@, refs@, mapper@, mapper.dex@) == Ok::<
                Seq<u8>,
                Error,
            >(final(code).insns@) && final(code)@ == (Code {
                insns: final(code).insns@,
                ..old(code)@
            }),
            Err(e) => rewritten(old(code).insns@, refs@, mapper@, mapper.dex@) == Err::<
                Seq<u8>,
                Error,
            >(e) && final(code)@ == old(code)@,
        },
{
    let mut units = units_from(&code.insns);
    let ghost first = units@;
    let mut pc: usize = 0;
    while pc < units.len()
        invariant
            *code == *old(code),
            first == units_of(code.insns@),
            rewritten_from(first, 0, refs@, mapper@, mapper.dex@) == rewritten_from(
                units@,
                pc as int,
                refs@,
                mapper@,
                mapper.dex@,
            ),
        decreases units.len() - pc,
    {
        rewrite_at(&mut units, pc, refs, mapper)?;
        let width: u64 = instruction_width(units.as_slice(), pc as u64)?;
        if width == 0 {
            return Err(Error::InvalidWidth);
        }
        if width >= (units.len() - pc) as u64 {
            pc = units.len();
        } else {
            pc += width as usize;
        }
    }
    code.insns = bytes_from(&units);
    Ok(())
}

} // verus!
