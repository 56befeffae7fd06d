//! The parts of the DEX format that searching and rebuilding share.
pub mod fields;
pub mod formats;
pub mod spelling;

use vstd::prelude::*;
use vstd::slice::slice_subrange;

use crate::error::{Error, Table};
use crate::order::{lex_less, list_less};
use crate::results::{collect, lemma_collect_error};
use crate::text::{lemma_texts_push, push_char, texts};

verus! {

/// The table locations of a DEX header.
#[derive(Debug, Clone, Copy, PartialEq, Eq, Structural)]
pub struct DexHeader {
    pub string_ids_size: u32,
    pub string_ids_off: u32,
    pub type_ids_size: u32,
    pub type_ids_off: u32,
    pub proto_ids_size: u32,
    pub proto_ids_off: u32,
    pub field_ids_size: u32,
    pub field_ids_off: u32,
    pub method_ids_size: u32,
    pub method_ids_off: u32,
    pub class_defs_size: u32,
    pub class_defs_off: u32,
}

#[derive(Debug, Clone, Copy, PartialEq, Eq, Structural)]
pub struct ProtoId {
    pub shorty_idx: u32,
    pub return_type_idx: u32,
    pub parameters_off: u32,
}

#[derive(Debug, Clone, Copy, PartialEq, Eq, Structural)]
pub struct FieldId {
    pub class_idx: u16,
    pub type_idx: u16,
    pub name_idx: u32,
}

#[derive(Debug, Clone, Copy, PartialEq, Eq, Structural)]
pub struct MethodId {
    pub class_idx: u16,
    pub proto_idx: u16,
    pub name_idx: u32,
}

// ---------------------------------------------------------------------------
// Fixed-width little-endian values
// ---------------------------------------------------------------------------

/// The little-endian 16-bit value that starts at `i`.
pub open spec fn le16(s: Seq<u8>, i: int) -> u16 {
    (s[i] + 0x100 * s[i + 1]) as u16
}

/// The little-endian 32-bit value that starts at `i`.
pub open spec fn le32(s: Seq<u8>, i: int) -> u32 {
    (s[i] + 0x100 * s[i + 1] + 0x1_0000 * s[i + 2] + 0x100_0000 * s[i + 3]) as u32
}

/// Where a range of `size` bytes at `offset` ends, as far as 64 bits can say.
pub open spec fn range_end(offset: int, size: int) -> u64 {
    if offset + size <= u64::MAX {
        (offset + size) as u64
    } else {
        u64::MAX
    }
}

pub open spec fn out_of_bounds(offset: int, size: int) -> Error {
    Error::OutOfBounds { start: offset as u64, end: range_end(offset, size) }
}

/// The bytes `offset .. offset + size`, or the error that names the range.
pub open spec fn bytes_in(data: Seq<u8>, offset: int, size: int) -> Result<Seq<u8>, Error> {
    if offset + size <= data.len() {
        Ok(data.subrange(offset, offset + size))
    } else {
        Err(out_of_bounds(offset, size))
    }
}

pub open spec fn u16_in(data: Seq<u8>, offset: int) -> Result<u16, Error> {
    if offset + 2 <= data.len() {
        Ok(le16(data, offset))
    } else {
        Err(out_of_bounds(offset, 2))
    }
}

pub open spec fn u32_in(data: Seq<u8>, offset: int) -> Result<u32, Error> {
    if offset + 4 <= data.len() {
        Ok(le32(data, offset))
    } else {
        Err(out_of_bounds(offset, 4))
    }
}

/// The error for a range that does not lie in the file.
fn range_error(offset: u64, size: u64) -> (e: Error)
    ensures
        e == out_of_bounds(offset as int, size as int),
{
    Error::OutOfBounds { start: offset, end: offset.saturating_add(size) }
}

pub fn bytes_at(data: &[u8], offset: u64, size: u64) -> (r: Result<&[u8], Error>)
    ensures
        match r {
            Ok(b) => bytes_in(data@, offset as int, size as int) == Ok::<Seq<u8>, Error>(b@),
            Err(e) => bytes_in(data@, offset as int, size as int) == Err::<Seq<u8>, Error>(e),
        },
{
    let len: u64 = data.len() as u64;
    if offset <= len && size <= len - offset {
        Ok(slice_subrange(data, offset as usize, (offset + size) as usize))
    } else {
        Err(range_error(offset, size))
    }
}

pub fn u16_at(data: &[u8], offset: u64) -> (r: Result<u16, Error>)
    ensures
        r == u16_in(data@, offset as int),
{
    let len: u64 = data.len() as u64;
    if offset <= len && 2 <= len - offset {
        let i: usize = offset as usize;
        Ok(data[i] as u16 + 0x100 * data[i + 1] as u16)
    } else {
        Err(range_error(offset, 2))
    }
}

pub fn u32_at(data: &[u8], offset: u64) -> (r: Result<u32, Error>)
    ensures
        r == u32_in(data@, offset as int),
{
    let len: u64 = data.len() as u64;
    if offset <= len && 4 <= len - offset {
        let i: usize = offset as usize;
        Ok(
            data[i] as u32 + 0x100 * data[i + 1] as u32 + 0x1_0000 * data[i + 2] as u32
                + 0x100_0000 * data[i + 3] as u32,
        )
    } else {
        Err(range_error(offset, 4))
    }
}

// ---------------------------------------------------------------------------
// Header
// ---------------------------------------------------------------------------

/// What is wrong with one table location, if anything: its count and offset
/// are zero together, and the table lies in the file.
pub open spec fn table_fault(len: int, table: Table, size: u32, off: u32, width: int) -> Option<
    Error,
> {
    if (size == 0) != (off == 0) {
        Some(Error::TableShape(table))
    } else if size != 0 && off + size * width > len {
        Some(out_of_bounds(off as int, size * width))
    } else {
        None
    }
}

/// The first of two faults.
pub open spec fn earlier(a: Option<Error>, b: Option<Error>) -> Option<Error> {
    if a is Some {
        a
    } else {
        b
    }
}

impl DexHeader {
    /// The first fault among the six table locations.
    pub open spec fn fault(self, len: int) -> Option<Error> {
        earlier(
            table_fault(len, Table::StringIds, self.string_ids_size, self.string_ids_off, 4),
            earlier(
                table_fault(len, Table::TypeIds, self.type_ids_size, self.type_ids_off, 4),
                earlier(
                    table_fault(len, Table::ProtoIds, self.proto_ids_size, self.proto_ids_off, 12),
                    earlier(
                        table_fault(
                            len,
                            Table::FieldIds,
                            self.field_ids_size,
                            self.field_ids_off,
                            8,
                        ),
                        earlier(
                            table_fault(
                                len,
                                Table::MethodIds,
                                self.method_ids_size,
                                self.method_ids_off,
                                8,
                            ),
                            table_fault(
                                len,
                                Table::ClassDefs,
                                self.class_defs_size,
                                self.class_defs_off,
                                32,
                            ),
                        ),
                    ),
                ),
            ),
        )
    }

    /// The header fields that stand at `base`, unchecked.
    pub open spec fn fields_at(data: Seq<u8>, base: int) -> DexHeader {
        DexHeader {
            string_ids_size: le32(data, base + 0x38),
            string_ids_off: le32(data, base + 0x3c),
            type_ids_size: le32(data, base + 0x40),
            type_ids_off: le32(data, base + 0x44),
            proto_ids_size: le32(data, base + 0x48),
            proto_ids_off: le32(data, base + 0x4c),
            field_ids_size: le32(data, base + 0x50),
            field_ids_off: le32(data, base + 0x54),
            method_ids_size: le32(data, base + 0x58),
            method_ids_off: le32(data, base + 0x5c),
            class_defs_size: le32(data, base + 0x60),
            class_defs_off: le32(data, base + 0x64),
        }
    }

    /// `dex\n`, three version digits of any kind, and a zero byte.
    pub open spec fn has_magic(data: Seq<u8>, base: int) -> bool {
        &&& data[base] == 0x64
        &&& data[base + 1] == 0x65
        &&& data[base + 2] == 0x78
        &&& data[base + 3] == 0x0a
        &&& data[base + 7] == 0
    }

    /// The header that starts at `base`. Its table offsets count from the
    /// start of the whole buffer.
    pub open spec fn header_in(data: Seq<u8>, base: int) -> Result<DexHeader, Error> {
        if data.len() < base + 0x70 {
            Err(Error::ShortHeader)
        } else if !Self::has_magic(data, base) {
            Err(Error::BadMagic)
        } else {
            let header = Self::fields_at(data, base);
            match header.fault(data.len() as int) {
                Some(e) => Err(e),
                None => Ok(header),
            }
        }
    }

    pub fn parse(data: &[u8]) -> (r: Result<DexHeader, Error>)
        ensures
            r == Self::header_in(data@, 0),
    {
        Self::parse_at(data, 0)
    }

    /// Reads the header of one logical DEX inside a larger buffer.
    pub fn parse_at(data: &[u8], base: u64) -> (r: Result<DexHeader, Error>)
        ensures
            r == Self::header_in(data@, base as int),
    {
        let len: u64 = data.len() as u64;
        if len < 0x70 || len - 0x70 < base {
            return Err(Error::ShortHeader);
        }
        let b: usize = base as usize;
        if !(data[b] == 0x64 && data[b + 1] == 0x65 && data[b + 2] == 0x78 && data[b + 3] == 0x0a
            && data[b + 7] == 0) {
            return Err(Error::BadMagic);
        }
        let header = DexHeader {
            string_ids_size: u32_at(data, base + 0x38)?,
            string_ids_off: u32_at(data, base + 0x3c)?,
            type_ids_size: u32_at(data, base + 0x40)?,
            type_ids_off: u32_at(data, base + 0x44)?,
            proto_ids_size: u32_at(data, base + 0x48)?,
            proto_ids_off: u32_at(data, base + 0x4c)?,
            field_ids_size: u32_at(data, base + 0x50)?,
            field_ids_off: u32_at(data, base + 0x54)?,
            method_ids_size: u32_at(data, base + 0x58)?,
            method_ids_off: u32_at(data, base + 0x5c)?,
            class_defs_size: u32_at(data, base + 0x60)?,
            class_defs_off: u32_at(data, base + 0x64)?,
        };
        check_table(len, Table::StringIds, header.string_ids_size, header.string_ids_off, 4)?;
        check_table(len, Table::TypeIds, header.type_ids_size, header.type_ids_off, 4)?;
        check_table(len, Table::ProtoIds, header.proto_ids_size, header.proto_ids_off, 12)?;
        check_table(len, Table::FieldIds, header.field_ids_size, header.field_ids_off, 8)?;
        check_table(len, Table::MethodIds, header.method_ids_size, header.method_ids_off, 8)?;
        check_table(len, Table::ClassDefs, header.class_defs_size, header.class_defs_off, 32)?;
        Ok(header)
    }
}

fn check_table(len: u64, table: Table, size: u32, off: u32, width: u64) -> (r: Result<(), Error>)
    requires
        width <= 32,
    ensures
        match r {
            Ok(_) => table_fault(len as int, table, size, off, width as int) is None,
            Err(e) => table_fault(len as int, table, size, off, width as int) == Some(e),
        },
{
    if (size == 0) != (off == 0) {
        return Err(Error::TableShape(table));
    }
    if size != 0 {
        assert(size * width <= 0xffff_ffff * 32) by (nonlinear_arith)
            requires
                size <= 0xffff_ffff,
                width <= 32,
        ;
        let bytes: u64 = size as u64 * width;
        if off as u64 + bytes > len {
            return Err(range_error(off as u64, bytes));
        }
    }
    Ok(())
}

// ---------------------------------------------------------------------------
// ULEB128
// ---------------------------------------------------------------------------

/// The value of an unsigned LEB128 number in base 128, low digit first:
/// digit `k` of the number starting at `cursor` counts `scale` times.
/// At most five digits are read, and the value wraps at 32 bits.
pub open spec fn uleb_digits(data: Seq<u8>, cursor: int, value: int, scale: int, left: nat) -> Result<
    (u32, int),
    Error,
>
    decreases left,
{
    if left == 0 {
        Err(Error::InvalidUleb)
    } else if cursor >= data.len() {
        Err(Error::TruncatedUleb(cursor as u64))
    } else {
        let next = value + (data[cursor] % 128) * scale;
        if data[cursor] < 128 {
            Ok(((next % 0x1_0000_0000) as u32, cursor + 1))
        } else {
            uleb_digits(data, cursor + 1, next, scale * 128, (left - 1) as nat)
        }
    }
}

/// The unsigned LEB128 number at `cursor`, and where it ends.
pub open spec fn uleb_in(data: Seq<u8>, cursor: int) -> Result<(u32, int), Error> {
    uleb_digits(data, cursor, 0, 1, 5)
}

proof fn lemma_uleb_digits_end(data: Seq<u8>, at: int, value: int, scale: int, left: nat)
    requires
        uleb_digits(data, at, value, scale, left) is Ok,
    ensures
        at < uleb_digits(data, at, value, scale, left)->Ok_0.1 <= data.len(),
    decreases left,
{
    if data[at] >= 128 {
        lemma_uleb_digits_end(
            data,
            at + 1,
            value + (data[at] % 128) * scale,
            scale * 128,
            (left - 1) as nat,
        );
    }
}

/// A number ends behind its start and inside the data.
pub proof fn lemma_uleb_end(data: Seq<u8>, at: int)
    requires
        uleb_in(data, at) is Ok,
    ensures
        at < uleb_in(data, at)->Ok_0.1 <= data.len(),
{
    lemma_uleb_digits_end(data, at, 0, 1, 5);
}

/// Where the reading of a LEB128 number stops that starts at `cursor` and has at
/// most `left` digits: behind its last digit, at the end of the data, or behind
/// the last digit that is looked at.
pub open spec fn leb_stop(data: Seq<u8>, cursor: int, left: nat) -> int
    decreases left,
{
    if left == 0 || cursor >= data.len() {
        cursor
    } else if data[cursor] < 128 {
        cursor + 1
    } else {
        leb_stop(data, cursor + 1, (left - 1) as nat)
    }
}

/// Reads an unsigned LEB128 number and moves the cursor over the digits that it
/// looks at, also where they are no number.
pub fn read_uleb(data: &[u8], cursor: &mut u64) -> (r: Result<u32, Error>)
    ensures
        match r {
            Ok(v) => uleb_in(data@, *old(cursor) as int) == Ok::<(u32, int), Error>(
                (v, *final(cursor) as int),
            ) && *old(cursor) < *final(cursor) <= data@.len(),
            Err(e) => uleb_in(data@, *old(cursor) as int) == Err::<(u32, int), Error>(e),
        },
        *final(cursor) == leb_stop(data@, *old(cursor) as int, 5),
{
    let start: u64 = *cursor;
    let len: u64 = data.len() as u64;
    let mut at: u64 = start;
    let mut value: u64 = 0;
    let mut scale: u64 = 1;
    let mut left: u64 = 5;
    while left > 0
        invariant
            left <= 5,
            len == data@.len(),
            start <= at,
            at <= len || at == start,
            value < scale,
            scale == (if left == 5 {
                1int
            } else if left == 4 {
                0x80
            } else if left == 3 {
                0x4000
            } else if left == 2 {
                0x20_0000
            } else if left == 1 {
                0x1000_0000
            } else {
                0x8_0000_0000
            }),
            uleb_in(data@, start as int) == uleb_digits(
                data@,
                at as int,
                value as int,
                scale as int,
                left as nat,
            ),
            *cursor == at,
            leb_stop(data@, start as int, 5) == leb_stop(data@, at as int, left as nat),
            start == *old(cursor),
        decreases left,
    {
        if at >= len {
            return Err(Error::TruncatedUleb(at));
        }
        let byte: u8 = data[at as usize];
        assert(0 <= (byte % 128) * scale <= 127 * scale) by (nonlinear_arith)
            requires
                byte % 128 <= 127,
                0 <= byte % 128,
                0 <= scale,
        ;
        value = value + (byte % 128) as u64 * scale;
        at = at + 1;
        *cursor = at;
        if byte < 128 {
            return Ok((value % 0x1_0000_0000) as u32);
        }
        scale = scale * 128;
        left = left - 1;
    }
    Err(Error::InvalidUleb)
}

// ---------------------------------------------------------------------------
// Modified UTF-8
// ---------------------------------------------------------------------------

/// The UTF-16 code unit that starts at `at`, and how many bytes it takes.
/// A byte that starts no complete sequence stands for the replacement unit.
pub open spec fn mutf8_unit(data: Seq<u8>, at: int) -> (u16, int) {
    let b0 = data[at];
    if b0 < 0x80 {
        (b0 as u16, 1)
    } else if 0xc0 <= b0 < 0xe0 && at + 1 < data.len() {
        (((b0 % 32) * 64 + data[at + 1] % 64) as u16, 2)
    } else if 0xe0 <= b0 < 0xf0 && at + 2 < data.len() {
        (((b0 % 16) * 4096 + (data[at + 1] % 64) * 64 + data[at + 2] % 64) as u16, 3)
    } else {
        (0xfffd, 1)
    }
}

/// The UTF-16 code units that the bytes from `at` on encode.
pub open spec fn mutf8_units(data: Seq<u8>, at: int) -> Seq<u16>
    decreases data.len() - at,
{
    if at < 0 || at >= data.len() {
        Seq::empty()
    } else {
        let (unit, width) = mutf8_unit(data, at);
        seq![unit] + mutf8_units(data, at + width)
    }
}

pub open spec fn is_lead(unit: u16) -> bool {
    0xd800 <= unit < 0xdc00
}

pub open spec fn is_trail(unit: u16) -> bool {
    0xdc00 <= unit < 0xe000
}

/// The text that UTF-16 code units from `at` on spell. Surrogates that do not
/// pair up read as U+FFFD.
pub open spec fn utf16_text(units: Seq<u16>, at: int) -> Seq<char>
    decreases units.len() - at,
{
    if at < 0 || at >= units.len() {
        Seq::empty()
    } else if is_lead(units[at]) && at + 1 < units.len() && is_trail(units[at + 1]) {
        seq![
            (0x1_0000 + (units[at] - 0xd800) * 0x400 + (units[at + 1] - 0xdc00)) as char,
        ] + utf16_text(units, at + 2)
    } else if is_lead(units[at]) || is_trail(units[at]) {
        seq![0xfffd as char] + utf16_text(units, at + 1)
    } else {
        seq![units[at] as char] + utf16_text(units, at + 1)
    }
}

/// The UTF-16 code units of one character.
pub open spec fn utf16_of_char(c: char) -> Seq<u16> {
    let v = c as u32;
    if v < 0x1_0000 {
        seq![v as u16]
    } else {
        seq![
            (0xd800 + (v - 0x1_0000) / 0x400) as u16,
            (0xdc00 + (v - 0x1_0000) % 0x400) as u16,
        ]
    }
}

/// The UTF-16 code units of a text.
pub open spec fn utf16_of(text: Seq<char>) -> Seq<u16>
    decreases text.len(),
{
    if text.len() == 0 {
        Seq::empty()
    } else {
        utf16_of(text.drop_last()) + utf16_of_char(text.last())
    }
}

/// The text that a modified UTF-8 byte string spells.
pub open spec fn mutf8_text(data: Seq<u8>) -> Seq<char> {
    utf16_text(mutf8_units(data, 0), 0)
}

pub fn decode_mutf8(data: &[u8]) -> (r: String)
    ensures
        r@ == mutf8_text(data@),
{
    let mut units: Vec<u16> = Vec::new();
    let mut at: usize = 0;
    while at < data.len()
        invariant
            at <= data.len(),
            mutf8_units(data@, 0) == units@ + mutf8_units(data@, at as int),
        decreases data.len() - at,
    {
        let b0: u8 = data[at];
        let ghost before = units@;
        let ghost rest = mutf8_units(data@, at as int);
        let ghost start = at as int;
        if b0 < 0x80 {
            units.push(b0 as u16);
            at += 1;
        } else if 0xc0 <= b0 && b0 < 0xe0 && data.len() - at > 1 {
            units.push((b0 % 32) as u16 * 64 + (data[at + 1] % 64) as u16);
            at += 2;
        } else if 0xe0 <= b0 && b0 < 0xf0 && data.len() - at > 2 {
            units.push(
                (b0 % 16) as u16 * 4096 + (data[at + 1] % 64) as u16 * 64 + (data[at + 2]
                    % 64) as u16,
            );
            at += 3;
        } else {
            units.push(0xfffd);
            at += 1;
        }
        proof {
            let (unit, width) = mutf8_unit(data@, start);
            assert(at == start + width);
            assert(rest == seq![unit] + mutf8_units(data@, start + width));
            assert(units@ == before.push(unit));
            assert(before + rest =~= units@ + mutf8_units(data@, at as int));
        }
    }
    assert(units@ + mutf8_units(data@, at as int) =~= units@);
    text_from_utf16(&units)
}

/// The text of UTF-16 code units, with U+FFFD for each unpaired surrogate.
fn text_from_utf16(units: &Vec<u16>) -> (r: String)
    ensures
        r@ == utf16_text(units@, 0),
{
    let mut out: String = String::new();
    let mut at: usize = 0;
    while at < units.len()
        invariant
            at <= units.len(),
            utf16_text(units@, 0) == out@ + utf16_text(units@, at as int),
        decreases units.len() - at,
    {
        let unit: u16 = units[at];
        let ghost before = out@;
        let ghost rest = utf16_text(units@, at as int);
        let mut scalar: u32 = 0xfffd;
        let mut width: usize = 1;
        if 0xd800 <= unit && unit < 0xdc00 {
            if units.len() - at > 1 && 0xdc00 <= units[at + 1] && units[at + 1] < 0xe000 {
                scalar = 0x1_0000 + (unit as u32 - 0xd800) * 0x400 + (units[at + 1] as u32
                    - 0xdc00);
                width = 2;
            }
        } else if unit < 0xd800 || unit >= 0xe000 {
            scalar = unit as u32;
        }
        if let Some(c) = char::from_u32(scalar) {
            push_char(&mut out, c);
            at += width;
            assert(rest == seq![c] + utf16_text(units@, at as int));
            assert(before + rest =~= out@ + utf16_text(units@, at as int));
        } else {
            assert(false);
        }
    }
    assert(out@ + utf16_text(units@, at as int) =~= out@);
    out
}

/// The UTF-16 code units of a string.
pub fn utf16_units(s: &str) -> (r: Vec<u16>)
    ensures
        r@ == utf16_of(s@),
{
    let mut out: Vec<u16> = Vec::new();
    for c in it: s.chars()
        invariant
            it.seq() == s@,
            out@ == utf16_of(it.seq().take(it.index() as int)),
    {
        let ghost done = it.seq().take(it.index() as int);
        proof {
            assert(it.seq().take(it.index() + 1).drop_last() =~= done);
        }
        let v: u32 = c as u32;
        let ghost before = out@;
        if v < 0x1_0000 {
            out.push(v as u16);
        } else {
            out.push((0xd800 + (v - 0x1_0000) / 0x400) as u16);
            out.push((0xdc00 + (v - 0x1_0000) % 0x400) as u16);
        }
        assert(out@ =~= before + utf16_of_char(c));
    }
    assert(s@.take(s@.len() as int) =~= s@);
    out
}

/// The key by which DEX string tables are ordered: the UTF-16 code units.
pub open spec fn string_key(text: Seq<char>) -> Seq<u32> {
    utf16_of(text).map_values(|u: u16| u as u32)
}

pub fn string_sort_key(s: &str) -> (r: Vec<u32>)
    ensures
        r@ == string_key(s@),
{
    let units = utf16_units(s);
    let mut out: Vec<u32> = Vec::new();
    let mut i: usize = 0;
    while i < units.len()
        invariant
            i <= units.len(),
            out@ == units@.take(i as int).map_values(|u: u16| u as u32),
        decreases units.len() - i,
    {
        out.push(units[i] as u32);
        i += 1;
        assert(units@.take(i as int).map_values(|u: u16| u as u32) =~= units@.take(
            i - 1,
        ).map_values(|u: u16| u as u32).push(units@[i - 1] as u32));
    }
    assert(units@.take(i as int) =~= units@);
    out
}

/// Whether one text comes before another in the order of their UTF-16 code
/// units.
pub fn utf16_less(left: &str, right: &str) -> (r: bool)
    ensures
        r == lex_less(string_key(left@), string_key(right@)),
{
    let a = string_sort_key(left);
    let b = string_sort_key(right);
    list_less(&a, &b)
}

// ---------------------------------------------------------------------------
// Strings
// ---------------------------------------------------------------------------

/// Where the first zero byte at or behind `at` stands.
pub open spec fn zero_from(data: Seq<u8>, at: int) -> Option<int>
    decreases data.len() - at,
{
    if at < 0 || at >= data.len() {
        None
    } else if data[at] == 0 {
        Some(at)
    } else {
        zero_from(data, at + 1)
    }
}

/// The text of string `index`.
pub open spec fn string_in(data: Seq<u8>, h: DexHeader, index: int) -> Result<Seq<char>, Error> {
    if index >= h.string_ids_size {
        Err(Error::InvalidStringIndex(index as u64))
    } else {
        match u32_in(data, h.string_ids_off + index * 4) {
            Err(e) => Err(e),
            Ok(start) => match uleb_in(data, start as int) {
                Err(e) => Err(e),
                Ok((_, text)) => match zero_from(data, text) {
                    None => Err(Error::UnterminatedString(index as u64)),
                    Some(end) => Ok(mutf8_text(data.subrange(text, end))),
                },
            },
        }
    }
}

pub open spec fn string_reader(data: Seq<u8>, h: DexHeader) -> spec_fn(int) -> Result<
    Seq<char>,
    Error,
> {
    |i: int| string_in(data, h, i)
}

/// The texts of the string table, or the first error in it.
pub open spec fn strings_in(data: Seq<u8>, h: DexHeader) -> Result<Seq<Seq<char>>, Error> {
    collect(string_reader(data, h), h.string_ids_size as nat)
}

/// Finds the first zero byte at or behind `at`.
pub fn find_zero(data: &[u8], at: u64) -> (r: Option<u64>)
    ensures
        match r {
            Some(p) => zero_from(data@, at as int) == Some(p as int) && at <= p < data@.len(),
            None => zero_from(data@, at as int) is None,
        },
{
    let len: u64 = data.len() as u64;
    let mut p: u64 = at;
    while p < len
        invariant
            len == data@.len(),
            at <= p,
            zero_from(data@, at as int) == zero_from(data@, p as int),
        decreases len - p,
    {
        if data[p as usize] == 0 {
            return Some(p);
        }
        p += 1;
    }
    None
}

pub fn read_string(data: &[u8], header: &DexHeader, index: u64) -> (r: Result<String, Error>)
    ensures
        match r {
            Ok(s) => string_in(data@, *header, index as int) == Ok::<Seq<char>, Error>(s@),
            Err(e) => string_in(data@, *header, index as int) == Err::<Seq<char>, Error>(e),
        },
{
    if index >= header.string_ids_size as u64 {
        return Err(Error::InvalidStringIndex(index));
    }
    let mut cursor: u64 = u32_at(data, header.string_ids_off as u64 + index * 4)? as u64;
    let _utf16_size: u32 = read_uleb(data, &mut cursor)?;
    match find_zero(data, cursor) {
        Some(end) => {
            let size: usize = data.len();
            assert(end < size);
            let text = slice_subrange(data, cursor as usize, end as usize);
            Ok(decode_mutf8(text))
        },
        None => Err(Error::UnterminatedString(index)),
    }
}

pub fn read_strings(data: &[u8], header: &DexHeader) -> (r: Result<Vec<String>, Error>)
    ensures
        match r {
            Ok(v) => strings_in(data@, *header) == Ok::<Seq<Seq<char>>, Error>(texts(v@)),
            Err(e) => strings_in(data@, *header) == Err::<Seq<Seq<char>>, Error>(e),
        },
{
    let mut out: Vec<String> = Vec::new();
    let mut index: u64 = 0;
    let count: u64 = header.string_ids_size as u64;
    let ghost f = string_reader(data@, *header);
    assert(texts(out@) =~= Seq::<Seq<char>>::empty());
    while index < count
        invariant
            index <= count,
            count == header.string_ids_size,
            f == string_reader(data@, *header),
            collect(f, index as nat) == Ok::<Seq<Seq<char>>, Error>(texts(out@)),
        decreases count - index,
    {
        match read_string(data, header, index) {
            Ok(s) => {
                proof {
                    lemma_texts_push(out@, s);
                }
                out.push(s);
            },
            Err(e) => {
                proof {
                    lemma_collect_error(f, index as nat, count as nat);
                }
                return Err(e);
            },
        }
        index += 1;
    }
    Ok(out)
}

// ---------------------------------------------------------------------------
// Identifier tables
// ---------------------------------------------------------------------------

/// The descriptor string index of type `index`.
pub open spec fn type_in(data: Seq<u8>, h: DexHeader, index: int) -> Result<u32, Error> {
    match u32_in(data, h.type_ids_off + index * 4) {
        Err(e) => Err(e),
        Ok(s) => if s >= h.string_ids_size {
            Err(Error::TypeBadString(index as u64))
        } else {
            Ok(s)
        },
    }
}

pub open spec fn type_reader(data: Seq<u8>, h: DexHeader) -> spec_fn(int) -> Result<u32, Error> {
    |i: int| type_in(data, h, i)
}

pub open spec fn types_in(data: Seq<u8>, h: DexHeader) -> Result<Seq<u32>, Error> {
    collect(type_reader(data, h), h.type_ids_size as nat)
}

/// The first error among three results, or the three values.
pub open spec fn all_three<A, B, C>(
    a: Result<A, Error>,
    b: Result<B, Error>,
    c: Result<C, Error>,
) -> Result<(A, B, C), Error> {
    match a {
        Err(e) => Err(e),
        Ok(x) => match b {
            Err(e) => Err(e),
            Ok(y) => match c {
                Err(e) => Err(e),
                Ok(z) => Ok((x, y, z)),
            },
        },
    }
}

/// The prototype `index`. Its parameter list is not read.
pub open spec fn proto_in(data: Seq<u8>, h: DexHeader, index: int) -> Result<ProtoId, Error> {
    let at = h.proto_ids_off + index * 12;
    match all_three(u32_in(data, at), u32_in(data, at + 4), u32_in(data, at + 8)) {
        Err(e) => Err(e),
        Ok((shorty_idx, return_type_idx, parameters_off)) => if shorty_idx >= h.string_ids_size
            || return_type_idx >= h.type_ids_size {
            Err(Error::ProtoBadIndex(index as u64))
        } else {
            Ok(ProtoId { shorty_idx, return_type_idx, parameters_off })
        },
    }
}

pub open spec fn proto_reader(data: Seq<u8>, h: DexHeader) -> spec_fn(int) -> Result<
    ProtoId,
    Error,
> {
    |i: int| proto_in(data, h, i)
}

pub open spec fn protos_in(data: Seq<u8>, h: DexHeader) -> Result<Seq<ProtoId>, Error> {
    collect(proto_reader(data, h), h.proto_ids_size as nat)
}

pub open spec fn field_in(data: Seq<u8>, h: DexHeader, index: int) -> Result<FieldId, Error> {
    let at = h.field_ids_off + index * 8;
    match all_three(u16_in(data, at), u16_in(data, at + 2), u32_in(data, at + 4)) {
        Err(e) => Err(e),
        Ok((class_idx, type_idx, name_idx)) => if class_idx >= h.type_ids_size || type_idx
            >= h.type_ids_size || name_idx >= h.string_ids_size {
            Err(Error::FieldBadIndex(index as u64))
        } else {
            Ok(FieldId { class_idx, type_idx, name_idx })
        },
    }
}

pub open spec fn field_reader(data: Seq<u8>, h: DexHeader) -> spec_fn(int) -> Result<
    FieldId,
    Error,
> {
    |i: int| field_in(data, h, i)
}

pub open spec fn fields_in(data: Seq<u8>, h: DexHeader) -> Result<Seq<FieldId>, Error> {
    collect(field_reader(data, h), h.field_ids_size as nat)
}

pub open spec fn method_in(data: Seq<u8>, h: DexHeader, index: int) -> Result<MethodId, Error> {
    let at = h.method_ids_off + index * 8;
    match all_three(u16_in(data, at), u16_in(data, at + 2), u32_in(data, at + 4)) {
        Err(e) => Err(e),
        Ok((class_idx, proto_idx, name_idx)) => if class_idx >= h.type_ids_size || proto_idx
            >= h.proto_ids_size || name_idx >= h.string_ids_size {
            Err(Error::MethodBadIndex(index as u64))
        } else {
            Ok(MethodId { class_idx, proto_idx, name_idx })
        },
    }
}

pub open spec fn method_reader(data: Seq<u8>, h: DexHeader) -> spec_fn(int) -> Result<
    MethodId,
    Error,
> {
    |i: int| method_in(data, h, i)
}

pub open spec fn methods_in(data: Seq<u8>, h: DexHeader) -> Result<Seq<MethodId>, Error> {
    collect(method_reader(data, h), h.method_ids_size as nat)
}

fn read_type(data: &[u8], header: &DexHeader, index: u64) -> (r: Result<u32, Error>)
    requires
        index < header.type_ids_size,
    ensures
        r == type_in(data@, *header, index as int),
{
    let string_idx: u32 = u32_at(data, header.type_ids_off as u64 + index * 4)?;
    if string_idx >= header.string_ids_size {
        return Err(Error::TypeBadString(index));
    }
    Ok(string_idx)
}

pub fn read_types(data: &[u8], header: &DexHeader) -> (r: Result<Vec<u32>, Error>)
    ensures
        match r {
            Ok(v) => types_in(data@, *header) == Ok::<Seq<u32>, Error>(v@),
            Err(e) => types_in(data@, *header) == Err::<Seq<u32>, Error>(e),
        },
{
    let mut out: Vec<u32> = Vec::new();
    let mut index: u64 = 0;
    let count: u64 = header.type_ids_size as u64;
    let ghost f = type_reader(data@, *header);
    while index < count
        invariant
            index <= count,
            count == header.type_ids_size,
            f == type_reader(data@, *header),
            collect(f, index as nat) == Ok::<Seq<u32>, Error>(out@),
        decreases count - index,
    {
        match read_type(data, header, index) {
            Ok(v) => out.push(v),
            Err(e) => {
                proof {
                    lemma_collect_error(f, index as nat, count as nat);
                }
                return Err(e);
            },
        }
        index += 1;
    }
    Ok(out)
}

fn read_proto(data: &[u8], header: &DexHeader, index: u64) -> (r: Result<ProtoId, Error>)
    requires
        index < header.proto_ids_size,
    ensures
        r == proto_in(data@, *header, index as int),
{
    let at: u64 = header.proto_ids_off as u64 + index * 12;
    let proto = ProtoId {
        shorty_idx: u32_at(data, at)?,
        return_type_idx: u32_at(data, at + 4)?,
        parameters_off: u32_at(data, at + 8)?,
    };
    if proto.shorty_idx >= header.string_ids_size || proto.return_type_idx
        >= header.type_ids_size {
        return Err(Error::ProtoBadIndex(index));
    }
    Ok(proto)
}

pub fn read_proto_ids(data: &[u8], header: &DexHeader) -> (r: Result<Vec<ProtoId>, Error>)
    ensures
        match r {
            Ok(v) => protos_in(data@, *header) == Ok::<Seq<ProtoId>, Error>(v@),
            Err(e) => protos_in(data@, *header) == Err::<Seq<ProtoId>, Error>(e),
        },
{
    let mut out: Vec<ProtoId> = Vec::new();
    let mut index: u64 = 0;
    let count: u64 = header.proto_ids_size as u64;
    let ghost f = proto_reader(data@, *header);
    while index < count
        invariant
            index <= count,
            count == header.proto_ids_size,
            f == proto_reader(data@, *header),
            collect(f, index as nat) == Ok::<Seq<ProtoId>, Error>(out@),
        decreases count - index,
    {
        match read_proto(data, header, index) {
            Ok(v) => out.push(v),
            Err(e) => {
                proof {
                    lemma_collect_error(f, index as nat, count as nat);
                }
                return Err(e);
            },
        }
        index += 1;
    }
    Ok(out)
}

fn read_field(data: &[u8], header: &DexHeader, index: u64) -> (r: Result<FieldId, Error>)
    requires
        index < header.field_ids_size,
    ensures
        r == field_in(data@, *header, index as int),
{
    let at: u64 = header.field_ids_off as u64 + index * 8;
    let field = FieldId {
        class_idx: u16_at(data, at)?,
        type_idx: u16_at(data, at + 2)?,
        name_idx: u32_at(data, at + 4)?,
    };
    if field.class_idx as u32 >= header.type_ids_size || field.type_idx as u32
        >= header.type_ids_size || field.name_idx >= header.string_ids_size {
        return Err(Error::FieldBadIndex(index));
    }
    Ok(field)
}

pub fn read_field_ids(data: &[u8], header: &DexHeader) -> (r: Result<Vec<FieldId>, Error>)
    ensures
        match r {
            Ok(v) => fields_in(data@, *header) == Ok::<Seq<FieldId>, Error>(v@),
            Err(e) => fields_in(data@, *header) == Err::<Seq<FieldId>, Error>(e),
        },
{
    let mut out: Vec<FieldId> = Vec::new();
    let mut index: u64 = 0;
    let count: u64 = header.field_ids_size as u64;
    let ghost f = field_reader(data@, *header);
    while index < count
        invariant
            index <= count,
            count == header.field_ids_size,
            f == field_reader(data@, *header),
            collect(f, index as nat) == Ok::<Seq<FieldId>, Error>(out@),
        decreases count - index,
    {
        match read_field(data, header, index) {
            Ok(v) => out.push(v),
            Err(e) => {
                proof {
                    lemma_collect_error(f, index as nat, count as nat);
                }
                return Err(e);
            },
        }
        index += 1;
    }
    Ok(out)
}

fn read_method(data: &[u8], header: &DexHeader, index: u64) -> (r: Result<MethodId, Error>)
    requires
        index < header.method_ids_size,
    ensures
        r == method_in(data@, *header, index as int),
{
    let at: u64 = header.method_ids_off as u64 + index * 8;
    let method = MethodId {
        class_idx: u16_at(data, at)?,
        proto_idx: u16_at(data, at + 2)?,
        name_idx: u32_at(data, at + 4)?,
    };
    if method.class_idx as u32 >= header.type_ids_size || method.proto_idx as u32
        >= header.proto_ids_size || method.name_idx >= header.string_ids_size {
        return Err(Error::MethodBadIndex(index));
    }
    Ok(method)
}

pub fn read_method_ids(data: &[u8], header: &DexHeader) -> (r: Result<Vec<MethodId>, Error>)
    ensures
        match r {
            Ok(v) => methods_in(data@, *header) == Ok::<Seq<MethodId>, Error>(v@),
            Err(e) => methods_in(data@, *header) == Err::<Seq<MethodId>, Error>(e),
        },
{
    let mut out: Vec<MethodId> = Vec::new();
    let mut index: u64 = 0;
    let count: u64 = header.method_ids_size as u64;
    let ghost f = method_reader(data@, *header);
    while index < count
        invariant
            index <= count,
            count == header.method_ids_size,
            f == method_reader(data@, *header),
            collect(f, index as nat) == Ok::<Seq<MethodId>, Error>(out@),
        decreases count - index,
    {
        match read_method(data, header, index) {
            Ok(v) => out.push(v),
            Err(e) => {
                proof {
                    lemma_collect_error(f, index as nat, count as nat);
                }
                return Err(e);
            },
        }
        index += 1;
    }
    Ok(out)
}

// ---------------------------------------------------------------------------
// Type lists
// ---------------------------------------------------------------------------

/// Entry `index` of the type list whose entries start at `start`.
pub open spec fn list_entry_in(data: Seq<u8>, start: int, type_count: u32, index: int) -> Result<
    u16,
    Error,
> {
    match u16_in(data, start + index * 2) {
        Err(e) => Err(e),
        Ok(t) => if t >= type_count {
            Err(Error::TypeListBadIndex)
        } else {
            Ok(t)
        },
    }
}

pub open spec fn list_reader(data: Seq<u8>, start: int, type_count: u32) -> spec_fn(int) -> Result<
    u16,
    Error,
> {
    |i: int| list_entry_in(data, start, type_count, i)
}

/// The type list at `offset`; offset zero stands for the empty list.
pub open spec fn type_list_in(data: Seq<u8>, offset: u32, type_count: u32) -> Result<
    Seq<u16>,
    Error,
> {
    if offset == 0 {
        Ok(Seq::empty())
    } else {
        match u32_in(data, offset as int) {
            Err(e) => Err(e),
            Ok(size) => match bytes_in(data, offset + 4, size * 2) {
                Err(e) => Err(e),
                Ok(_) => collect(list_reader(data, offset + 4, type_count), size as nat),
            },
        }
    }
}

pub fn read_type_list(data: &[u8], offset: u32, type_count: u32) -> (r: Result<Vec<u16>, Error>)
    ensures
        match r {
            Ok(v) => type_list_in(data@, offset, type_count) == Ok::<Seq<u16>, Error>(v@),
            Err(e) => type_list_in(data@, offset, type_count) == Err::<Seq<u16>, Error>(e),
        },
{
    let mut out: Vec<u16> = Vec::new();
    if offset == 0 {
        return Ok(out);
    }
    let size: u64 = u32_at(data, offset as u64)? as u64;
    let start: u64 = offset as u64 + 4;
    let _entries = bytes_at(data, start, size * 2)?;
    let mut index: u64 = 0;
    let ghost f = list_reader(data@, offset + 4, type_count);
    while index < size
        invariant
            index <= size <= u32::MAX,
            start == offset + 4,
            offset != 0,
            u32_in(data@, offset as int) == Ok::<u32, Error>(size as u32),
            bytes_in(data@, offset + 4, size * 2) is Ok,
            f == list_reader(data@, offset + 4, type_count),
            collect(f, index as nat) == Ok::<Seq<u16>, Error>(out@),
        decreases size - index,
    {
        let ghost outcome = list_entry_in(data@, offset + 4, type_count, index as int);
        assert(f(index as int) == outcome);
        match u16_at(data, start + index * 2) {
            Ok(type_idx) => {
                if type_idx as u32 >= type_count {
                    proof {
                        lemma_collect_error(f, index as nat, size as nat);
                    }
                    return Err(Error::TypeListBadIndex);
                }
                out.push(type_idx);
            },
            Err(e) => {
                proof {
                    lemma_collect_error(f, index as nat, size as nat);
                }
                return Err(e);
            },
        }
        index += 1;
    }
    Ok(out)
}

// ---------------------------------------------------------------------------
// Instruction widths
// ---------------------------------------------------------------------------

/// The width in code units of an instruction that is no payload.
pub open spec fn opcode_width(opcode: u8) -> u64 {
    if opcode == 0x18 {
        5
    } else if 0xfa <= opcode <= 0xfb {
        4
    } else if opcode == 0x03 || opcode == 0x06 || opcode == 0x09 || opcode == 0x14 || opcode
        == 0x17 || opcode == 0x1b || 0x24 <= opcode <= 0x26 || 0x2a <= opcode <= 0x2c || 0x6e
        <= opcode <= 0x72 || 0x74 <= opcode <= 0x78 || 0xfc <= opcode <= 0xfd {
        3
    } else if opcode == 0x02 || opcode == 0x05 || opcode == 0x08 || opcode == 0x13 || 0x15
        <= opcode <= 0x16 || 0x19 <= opcode <= 0x1a || opcode == 0x1c || 0x1f <= opcode <= 0x20
        || 0x22 <= opcode <= 0x23 || opcode == 0x29 || 0x2d <= opcode <= 0x3d || 0x44 <= opcode
        <= 0x6d || 0x90 <= opcode <= 0xaf || 0xd0 <= opcode <= 0xe2 || 0xfe <= opcode <= 0xff {
        2
    } else {
        1
    }
}

/// The width in code units of the instruction or payload at `pc`.
pub open spec fn width_at(units: Seq<u16>, pc: int) -> Result<u64, Error> {
    if pc >= units.len() {
        Err(Error::InstructionPastCode)
    } else if units[pc] % 256 != 0 {
        Ok(opcode_width((units[pc] % 256) as u8))
    } else if units[pc] == 0 {
        Ok(1)
    } else if units[pc] == 0x100 {
        if pc + 1 >= units.len() {
            Err(Error::TruncatedPackedSwitch)
        } else {
            Ok((4 + units[pc + 1] * 2) as u64)
        }
    } else if units[pc] == 0x200 {
        if pc + 1 >= units.len() {
            Err(Error::TruncatedSparseSwitch)
        } else {
            Ok((2 + units[pc + 1] * 4) as u64)
        }
    } else if units[pc] == 0x300 {
        if pc + 3 >= units.len() {
            Err(Error::TruncatedFillArray)
        } else {
            let size = units[pc + 2] + 0x1_0000 * units[pc + 3];
            Ok((4 + (units[pc + 1] * size + 1) / 2) as u64)
        }
    } else {
        Err(Error::UnknownPayload((units[pc] / 256) as u8))
    }
}

fn width_of_opcode(opcode: u8) -> (r: u64)
    ensures
        r == opcode_width(opcode),
{
    match opcode {
        0x18 => 5,
        0xfa..=0xfb => 4,
        0x03 | 0x06 | 0x09 | 0x14 | 0x17 | 0x1b | 0x24..=0x26 | 0x2a..=0x2c | 0x6e..=0x72
        | 0x74..=0x78 | 0xfc..=0xfd => 3,
        0x02 | 0x05 | 0x08 | 0x13 | 0x15..=0x16 | 0x19..=0x1a | 0x1c | 0x1f..=0x20
        | 0x22..=0x23 | 0x29 | 0x2d..=0x3d | 0x44..=0x6d | 0x90..=0xaf | 0xd0..=0xe2
        | 0xfe..=0xff => 2,
        _ => 1,
    }
}

/// Decides a width from the unit at `pc` and the three units behind it, as
/// far as there are any.
fn width_from(
    unit: u16,
    first: Option<u16>,
    second: Option<u16>,
    third: Option<u16>,
    Ghost(units): Ghost<Seq<u16>>,
    Ghost(pc): Ghost<int>,
) -> (r: Result<u64, Error>)
    requires
        0 <= pc < units.len(),
        unit == units[pc],
        first == if pc + 1 < units.len() {
            Some(units[pc + 1])
        } else {
            None
        },
        second == if pc + 2 < units.len() {
            Some(units[pc + 2])
        } else {
            None
        },
        third == if pc + 3 < units.len() {
            Some(units[pc + 3])
        } else {
            None
        },
    ensures
        r == width_at(units, pc),
{
    let opcode: u8 = (unit % 256) as u8;
    if opcode != 0 {
        return Ok(width_of_opcode(opcode));
    }
    let ident: u8 = (unit / 256) as u8;
    if ident == 0 {
        return Ok(1);
    }
    if ident == 1 {
        return match first {
            Some(size) => Ok(4 + size as u64 * 2),
            None => Err(Error::TruncatedPackedSwitch),
        };
    }
    if ident == 2 {
        return match first {
            Some(size) => Ok(2 + size as u64 * 4),
            None => Err(Error::TruncatedSparseSwitch),
        };
    }
    if ident == 3 {
        if let (Some(width), Some(low), Some(high)) = (first, second, third) {
            let size: u64 = low as u64 + 0x1_0000 * high as u64;
            assert(width * size <= 0xffff * 0xffff_ffff) by (nonlinear_arith)
                requires
                    width <= 0xffff,
                    size <= 0xffff_ffff,
            ;
            return Ok(4 + (width as u64 * size + 1) / 2);
        }
        return Err(Error::TruncatedFillArray);
    }
    Err(Error::UnknownPayload(ident))
}

/// The unit at `index`, if there is one.
fn unit_at(units: &[u16], index: u64) -> (r: Option<u16>)
    ensures
        r == if index < units@.len() {
            Some(units@[index as int])
        } else {
            None
        },
{
    if index < units.len() as u64 {
        Some(units[index as usize])
    } else {
        None
    }
}

/// The width in code units of the instruction at `pc`.
pub fn instruction_width(units: &[u16], pc: u64) -> (r: Result<u64, Error>)
    ensures
        r == width_at(units@, pc as int),
{
    if pc >= units.len() as u64 {
        return Err(Error::InstructionPastCode);
    }
    let first = unit_at(units, pc.saturating_add(1));
    let second = unit_at(units, pc.saturating_add(2));
    let third = unit_at(units, pc.saturating_add(3));
    width_from(units[pc as usize], first, second, third, Ghost(units@), Ghost(pc as int))
}

/// The little-endian code units of a byte string; a last odd byte is left out.
pub open spec fn units_of(bytes: Seq<u8>) -> Seq<u16> {
    Seq::new(bytes.len() / 2, |i: int| le16(bytes, 2 * i))
}

/// The unit that starts at byte `2 * index`, if there is one.
pub fn unit_in_bytes(bytes: &[u8], index: u64) -> (r: Option<u16>)
    ensures
        r == if index < units_of(bytes@).len() {
            Some(units_of(bytes@)[index as int])
        } else {
            None
        },
{
    if index < bytes.len() as u64 / 2 {
        let at: usize = index as usize * 2;
        Some(bytes[at] as u16 + 0x100 * bytes[at + 1] as u16)
    } else {
        None
    }
}

/// The width in code units of the instruction at `pc`, read straight from the
/// bytes of a code item.
pub fn instruction_width_bytes(bytes: &[u8], pc: u64) -> (r: Result<u64, Error>)
    ensures
        r == width_at(units_of(bytes@), pc as int),
{
    if pc >= bytes.len() as u64 {
        return Err(Error::InstructionPastCode);
    }
    let first = unit_in_bytes(bytes, pc.saturating_add(1));
    let second = unit_in_bytes(bytes, pc.saturating_add(2));
    let third = unit_in_bytes(bytes, pc.saturating_add(3));
    match unit_in_bytes(bytes, pc) {
        Some(unit) => width_from(
            unit,
            first,
            second,
            third,
            Ghost(units_of(bytes@)),
            Ghost(pc as int),
        ),
        None => Err(Error::InstructionPastCode),
    }
}

} // verus!
