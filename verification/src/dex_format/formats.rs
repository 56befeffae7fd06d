//! The instruction formats of the Dalvik bytecode, and what they say of the
//! widths of instructions.
use vstd::prelude::*;

use crate::dex_format::{opcode_width, width_at};
use crate::error::Error;

verus! {

/// An instruction format. Its name gives the number of code units, the number
/// of registers, and the kind of what else the instruction holds.
pub enum Format {
    Format10x,
    Format12x,
    Format11n,
    Format11x,
    Format10t,
    Format20t,
    Format22x,
    Format21t,
    Format21s,
    Format21h,
    Format21c,
    Format23x,
    Format22b,
    Format22t,
    Format22s,
    Format22c,
    Format30t,
    Format32x,
    Format31i,
    Format31t,
    Format31c,
    Format35c,
    Format3rc,
    Format45cc,
    Format4rcc,
    Format51l,
}

impl Format {
    /// The code units of an instruction of this format.
    pub open spec fn units(self) -> int {
        match self {
            Format::Format10x => 1,
            Format::Format12x => 1,
            Format::Format11n => 1,
            Format::Format11x => 1,
            Format::Format10t => 1,
            Format::Format20t => 2,
            Format::Format22x => 2,
            Format::Format21t => 2,
            Format::Format21s => 2,
            Format::Format21h => 2,
            Format::Format21c => 2,
            Format::Format23x => 2,
            Format::Format22b => 2,
            Format::Format22t => 2,
            Format::Format22s => 2,
            Format::Format22c => 2,
            Format::Format30t => 3,
            Format::Format32x => 3,
            Format::Format31i => 3,
            Format::Format31t => 3,
            Format::Format31c => 3,
            Format::Format35c => 3,
            Format::Format3rc => 3,
            Format::Format45cc => 4,
            Format::Format4rcc => 4,
            Format::Format51l => 5,
        }
    }
}

/// The format of each opcode. An opcode without a meaning takes one unit, as
/// `nop` does.
pub open spec fn format_of(opcode: u8) -> Format {
    if opcode == 0x00 {
        // nop
        Format::Format10x
    } else if opcode == 0x01 || opcode == 0x04 || opcode == 0x07 {
        // move, move/from16, move/16, and those for wide values and objects
        Format::Format12x
    } else if opcode == 0x02 || opcode == 0x05 || opcode == 0x08 {
        Format::Format22x
    } else if opcode == 0x03 || opcode == 0x06 || opcode == 0x09 {
        Format::Format32x
    } else if 0x0a <= opcode <= 0x0d {
        // move-result, move-result-wide, move-result-object, move-exception
        Format::Format11x
    } else if opcode == 0x0e {
        // return-void
        Format::Format10x
    } else if opcode == 0x0f || opcode == 0x10 || opcode == 0x11 {
        // return, return-wide, return-object
        Format::Format11x
    } else if opcode == 0x12 {
        // const/4, const/16, const, const/high16
        Format::Format11n
    } else if opcode == 0x13 {
        Format::Format21s
    } else if opcode == 0x14 {
        Format::Format31i
    } else if opcode == 0x15 {
        Format::Format21h
    } else if opcode == 0x16 {
        // const-wide/16, const-wide/32, const-wide, const-wide/high16
        Format::Format21s
    } else if opcode == 0x17 {
        Format::Format31i
    } else if opcode == 0x18 {
        Format::Format51l
    } else if opcode == 0x19 {
        Format::Format21h
    } else if opcode == 0x1a {
        // const-string, const-string/jumbo, const-class
        Format::Format21c
    } else if opcode == 0x1b {
        Format::Format31c
    } else if opcode == 0x1c {
        Format::Format21c
    } else if opcode == 0x1d || opcode == 0x1e {
        // monitor-enter, monitor-exit
        Format::Format11x
    } else if opcode == 0x1f {
        // check-cast, instance-of, array-length, new-instance, new-array
        Format::Format21c
    } else if opcode == 0x20 {
        Format::Format22c
    } else if opcode == 0x21 {
        Format::Format12x
    } else if opcode == 0x22 {
        Format::Format21c
    } else if opcode == 0x23 {
        Format::Format22c
    } else if opcode == 0x24 {
        // filled-new-array, filled-new-array/range, fill-array-data
        Format::Format35c
    } else if opcode == 0x25 {
        Format::Format3rc
    } else if opcode == 0x26 {
        Format::Format31t
    } else if opcode == 0x27 {
        // throw
        Format::Format11x
    } else if opcode == 0x28 {
        // goto, goto/16, goto/32
        Format::Format10t
    } else if opcode == 0x29 {
        Format::Format20t
    } else if opcode == 0x2a {
        Format::Format30t
    } else if opcode == 0x2b || opcode == 0x2c {
        // packed-switch, sparse-switch
        Format::Format31t
    } else if 0x2d <= opcode <= 0x31 {
        // cmpl-float to cmp-long
        Format::Format23x
    } else if 0x32 <= opcode <= 0x37 {
        // if-eq, if-ne, if-lt, if-ge, if-gt, if-le
        Format::Format22t
    } else if 0x38 <= opcode <= 0x3d {
        // if-eqz, if-nez, if-ltz, if-gez, if-gtz, if-lez
        Format::Format21t
    } else if 0x44 <= opcode <= 0x51 {
        // aget and aput
        Format::Format23x
    } else if 0x52 <= opcode <= 0x5f {
        // iget and iput
        Format::Format22c
    } else if 0x60 <= opcode <= 0x6d {
        // sget and sput
        Format::Format21c
    } else if 0x6e <= opcode <= 0x72 {
        // invoke-virtual, -super, -direct, -static, -interface
        Format::Format35c
    } else if 0x74 <= opcode <= 0x78 {
        // the same with /range
        Format::Format3rc
    } else if 0x7b <= opcode <= 0x8f {
        // neg-int to int-to-short
        Format::Format12x
    } else if 0x90 <= opcode <= 0xaf {
        // add-int to rem-double
        Format::Format23x
    } else if 0xb0 <= opcode <= 0xcf {
        // the same with /2addr
        Format::Format12x
    } else if 0xd0 <= opcode <= 0xd7 {
        // add-int/lit16 to xor-int/lit16
        Format::Format22s
    } else if 0xd8 <= opcode <= 0xe2 {
        // add-int/lit8 to ushr-int/lit8
        Format::Format22b
    } else if opcode == 0xfa {
        // invoke-polymorphic, invoke-polymorphic/range
        Format::Format45cc
    } else if opcode == 0xfb {
        Format::Format4rcc
    } else if opcode == 0xfc {
        // invoke-custom, invoke-custom/range
        Format::Format35c
    } else if opcode == 0xfd {
        Format::Format3rc
    } else if opcode == 0xfe || opcode == 0xff {
        // const-method-handle, const-method-type
        Format::Format21c
    } else {
        // unused
        Format::Format10x
    }
}

/// An instruction takes the code units of its format.
pub proof fn lemma_width_of_format(opcode: u8)
    ensures
        opcode_width(opcode) == format_of(opcode).units(),
{
}

/// Walking over code moves on by the units of the format: what stands at `pc`,
/// unless it is a `nop` or a payload, takes as many units as the format of the
/// low byte has.
pub proof fn lemma_step_of_format(units: Seq<u16>, pc: int)
    requires
        0 <= pc < units.len(),
        units[pc] % 256 != 0,
    ensures
        width_at(units, pc) == Ok::<u64, Error>(
            format_of((units[pc] % 256) as u8).units() as u64,
        ),
{
    lemma_width_of_format((units[pc] % 256) as u8);
}

/// The conditional branches take two units, the unconditional ones as many as
/// their offset needs, and the switches three.
pub proof fn lemma_branch_widths(opcode: u8)
    ensures
        0x32 <= opcode <= 0x3d ==> opcode_width(opcode) == 2,
        0x28 <= opcode <= 0x2a ==> opcode_width(opcode) == opcode - 0x27,
        0x2b <= opcode <= 0x2c ==> opcode_width(opcode) == 3,
{
}

/// A payload takes the bytes of what it holds: a packed switch has its mark, a
/// count, a first key and a target for each case; a sparse switch its mark, a
/// count, and a key and a target for each case; array data its mark, the size
/// of an element, a count, and the elements, filled up to a whole unit.
pub proof fn lemma_payload_widths(units: Seq<u16>, pc: int)
    requires
        0 <= pc < units.len(),
    ensures
        units[pc] == 0 ==> width_at(units, pc) == Ok::<u64, Error>(1),
        units[pc] == 0x100 && pc + 1 < units.len() ==> (width_at(units, pc) matches Ok(n) && 2 * n
            == 2 + 2 + 4 + 4 * units[pc + 1]),
        units[pc] == 0x200 && pc + 1 < units.len() ==> (width_at(units, pc) matches Ok(n) && 2 * n
            == 2 + 2 + 4 * units[pc + 1] + 4 * units[pc + 1]),
        units[pc] == 0x300 && pc + 3 < units.len() ==> (width_at(units, pc) matches Ok(n) && {
            let bytes = units[pc + 1] * (units[pc + 2] + 0x1_0000 * units[pc + 3]);
            2 + 2 + 4 + bytes <= 2 * n <= 2 + 2 + 4 + bytes + 1
        }),
        units[pc] == 0x100 && pc + 1 >= units.len() ==> width_at(units, pc) == Err::<u64, Error>(
            Error::TruncatedPackedSwitch,
        ),
        units[pc] == 0x200 && pc + 1 >= units.len() ==> width_at(units, pc) == Err::<u64, Error>(
            Error::TruncatedSparseSwitch,
        ),
        units[pc] == 0x300 && pc + 3 >= units.len() ==> width_at(units, pc) == Err::<u64, Error>(
            Error::TruncatedFillArray,
        ),
        units[pc] % 256 == 0 && units[pc] > 0x300 ==> width_at(units, pc) is Err,
{
    if units[pc] == 0x300 && pc + 3 < units.len() {
        let size = units[pc + 2] + 0x1_0000 * units[pc + 3];
        let width = units[pc + 1] as int;
        assert(0 <= width * size <= 0xffff * 0xffff_ffff) by (nonlinear_arith)
            requires
                0 <= width <= 0xffff,
                0 <= size <= 0xffff_ffff,
        ;
    }
}

} // verus!
