//! Where the parts of a DEX file stand, byte by byte.
use vstd::prelude::*;

use crate::dex_format::spelling::{lemma_spelled, lemma_spelled_bytes, spelled};
use crate::dex_format::{
    bytes_in, field_in, list_entry_in, list_reader, method_in, proto_in, string_in, type_in,
    type_list_in, u16_in, u32_in, uleb_in, units_of, zero_from, DexHeader,
};
use crate::error::Error;
use crate::results::lemma_collect_ok;

verus! {

/// The number in two bytes, low byte first.
pub open spec fn half(data: Seq<u8>, at: int) -> int {
    data[at] + 256 * data[at + 1]
}

/// The number in four bytes, low byte first.
pub open spec fn word(data: Seq<u8>, at: int) -> int {
    data[at] + 256 * (data[at + 1] + 256 * (data[at + 2] + 256 * data[at + 3]))
}

/// A number is read from its bytes where they are all there, and only there.
pub proof fn lemma_numbers_read(data: Seq<u8>, at: int)
    requires
        0 <= at,
    ensures
        u16_in(data, at) is Ok <==> at + 2 <= data.len(),
        u16_in(data, at) matches Ok(v) ==> v == half(data, at),
        u32_in(data, at) is Ok <==> at + 4 <= data.len(),
        u32_in(data, at) matches Ok(v) ==> v == word(data, at),
{
}

/// Code units are pairs of bytes, low byte first; a last odd byte is no unit.
pub proof fn lemma_units_read(bytes: Seq<u8>)
    ensures
        2 * units_of(bytes).len() <= bytes.len() <= 2 * units_of(bytes).len() + 1,
        forall|i: int|
            0 <= i < units_of(bytes).len() ==> #[trigger] units_of(bytes)[i] == half(bytes, 2 * i),
{
}

/// A part of a file is the bytes that stand there.
pub proof fn lemma_bytes_read(data: Seq<u8>, at: int, size: int)
    requires
        0 <= at,
        0 <= size,
    ensures
        bytes_in(data, at, size) is Ok <==> at + size <= data.len(),
        bytes_in(data, at, size) matches Ok(part) ==> part.len() == size && forall|i: int|
            0 <= i < size ==> #[trigger] part[i] == data[at + i],
{
}

/// Whether a table of items with the given width lies in a file, or is not there
/// at all.
pub open spec fn table_fits(len: int, size: int, off: int, width: int) -> bool {
    if size == 0 {
        off == 0
    } else {
        0 < off && off + width * size <= len
    }
}

/// A header is accepted exactly where its marks are right and its tables lie in
/// the file, and it gives each table the count and the place that stand in it.
pub proof fn lemma_header_read(data: Seq<u8>, base: int)
    requires
        0 <= base,
    ensures
        DexHeader::header_in(data, base) is Ok <==> {
            &&& base + 112 <= data.len()
            &&& data.subrange(base, base + 4) == seq![0x64u8, 0x65u8, 0x78u8, 0x0au8]
            &&& data[base + 7] == 0
            &&& table_fits(data.len() as int, word(data, base + 56), word(data, base + 60), 4)
            &&& table_fits(data.len() as int, word(data, base + 64), word(data, base + 68), 4)
            &&& table_fits(data.len() as int, word(data, base + 72), word(data, base + 76), 12)
            &&& table_fits(data.len() as int, word(data, base + 80), word(data, base + 84), 8)
            &&& table_fits(data.len() as int, word(data, base + 88), word(data, base + 92), 8)
            &&& table_fits(data.len() as int, word(data, base + 96), word(data, base + 100), 32)
        },
        DexHeader::header_in(data, base) matches Ok(h) ==> {
            &&& h.string_ids_size == word(data, base + 56)
            &&& h.string_ids_off == word(data, base + 60)
            &&& h.type_ids_size == word(data, base + 64)
            &&& h.type_ids_off == word(data, base + 68)
            &&& h.proto_ids_size == word(data, base + 72)
            &&& h.proto_ids_off == word(data, base + 76)
            &&& h.field_ids_size == word(data, base + 80)
            &&& h.field_ids_off == word(data, base + 84)
            &&& h.method_ids_size == word(data, base + 88)
            &&& h.method_ids_off == word(data, base + 92)
            &&& h.class_defs_size == word(data, base + 96)
            &&& h.class_defs_off == word(data, base + 100)
        },
{
    if base + 112 <= data.len() {
        let mark = data.subrange(base, base + 4);
        assert(mark[0] == data[base] && mark[1] == data[base + 1] && mark[2] == data[base + 2]
            && mark[3] == data[base + 3]);
        if DexHeader::has_magic(data, base) {
            assert(mark =~= seq![0x64u8, 0x65u8, 0x78u8, 0x0au8]);
        }
    }
}

/// A type is the word that its table holds, if that names a string.
pub proof fn lemma_type_read(data: Seq<u8>, h: DexHeader, index: int)
    requires
        0 <= index,
    ensures
        ({
            let at = h.type_ids_off + 4 * index;
            &&& type_in(data, h, index) is Ok <==> at + 4 <= data.len() && word(data, at)
                < h.string_ids_size
            &&& type_in(data, h, index) matches Ok(s) ==> s == word(data, at)
        }),
{
}

/// A prototype is three words: short form, result, and where its parameters
/// stand.
pub proof fn lemma_proto_read(data: Seq<u8>, h: DexHeader, index: int)
    requires
        0 <= index,
    ensures
        ({
            let at = h.proto_ids_off + 12 * index;
            &&& proto_in(data, h, index) is Ok <==> at + 12 <= data.len() && word(data, at)
                < h.string_ids_size && word(data, at + 4) < h.type_ids_size
            &&& proto_in(data, h, index) matches Ok(p) ==> p.shorty_idx == word(data, at)
                && p.return_type_idx == word(data, at + 4) && p.parameters_off == word(
                data,
                at + 8,
            )
        }),
{
}

/// A field is its class and its type in two bytes each, and its name in four; a
/// method has its prototype in place of the type.
pub proof fn lemma_members_read(data: Seq<u8>, h: DexHeader, index: int)
    requires
        0 <= index,
    ensures
        ({
            let at = h.field_ids_off + 8 * index;
            &&& field_in(data, h, index) is Ok <==> at + 8 <= data.len() && half(data, at)
                < h.type_ids_size && half(data, at + 2) < h.type_ids_size && word(data, at + 4)
                < h.string_ids_size
            &&& field_in(data, h, index) matches Ok(f) ==> f.class_idx == half(data, at)
                && f.type_idx == half(data, at + 2) && f.name_idx == word(data, at + 4)
        }),
        ({
            let at = h.method_ids_off + 8 * index;
            &&& method_in(data, h, index) is Ok <==> at + 8 <= data.len() && half(data, at)
                < h.type_ids_size && half(data, at + 2) < h.proto_ids_size && word(data, at + 4)
                < h.string_ids_size
            &&& method_in(data, h, index) matches Ok(m) ==> m.class_idx == half(data, at)
                && m.proto_idx == half(data, at + 2) && m.name_idx == word(data, at + 4)
        }),
{
}

/// A type list is a count and as many types of two bytes each; no place stands
/// for no types.
pub proof fn lemma_type_list_read(data: Seq<u8>, offset: u32, type_count: u32)
    ensures
        offset == 0 ==> type_list_in(data, offset, type_count) == Ok::<Seq<u16>, Error>(
            Seq::empty(),
        ),
        offset != 0 ==> (type_list_in(data, offset, type_count) matches Ok(list) ==> {
            &&& list.len() == word(data, offset as int)
            &&& offset + 4 + 2 * list.len() <= data.len()
            &&& forall|i: int|
                0 <= i < list.len() ==> #[trigger] list[i] == half(data, offset + 4 + 2 * i)
                    && list[i] < type_count
        }),
{
    if offset != 0 && type_list_in(data, offset, type_count) is Ok {
        let size = u32_in(data, offset as int)->Ok_0;
        let f = list_reader(data, offset + 4, type_count);
        let list = type_list_in(data, offset, type_count)->Ok_0;
        lemma_collect_ok(f, size as nat);
        assert forall|i: int| 0 <= i < list.len() implies #[trigger] list[i] == half(
            data,
            offset + 4 + 2 * i,
        ) && list[i] < type_count by {
            assert(f(i) == list_entry_in(data, offset + 4, type_count, i));
        }
    }
}

proof fn lemma_zero_found(data: Seq<u8>, at: int, end: int)
    requires
        0 <= at <= end < data.len(),
        data[end] == 0,
        forall|i: int| at <= i < end ==> data[i] != 0,
    ensures
        zero_from(data, at) == Some(end),
    decreases end - at,
{
    if at < end {
        lemma_zero_found(data, at + 1, end);
    }
}

/// A string is the text whose spelling stands behind its length at the place
/// that the string table gives, up to a zero byte.
pub proof fn lemma_string_read(
    data: Seq<u8>,
    h: DexHeader,
    index: int,
    text: Seq<char>,
    length: u32,
    at: int,
)
    requires
        0 <= index < h.string_ids_size,
        h.string_ids_off + 4 * index + 4 <= data.len(),
        uleb_in(data, word(data, h.string_ids_off + 4 * index)) == Ok::<(u32, int), Error>(
            (length, at),
        ),
        0 <= at,
        at + spelled(text).len() < data.len(),
        data.subrange(at, at + spelled(text).len()) == spelled(text),
        data[at + spelled(text).len() as int] == 0,
    ensures
        string_in(data, h, index) == Ok::<Seq<char>, Error>(text),
{
    let bytes = spelled(text);
    lemma_spelled_bytes(text);
    lemma_spelled(text);
    assert forall|i: int| at <= i < at + bytes.len() implies data[i] != 0 by {
        assert(data.subrange(at, at + bytes.len())[i - at] == bytes[i - at]);
    }
    lemma_zero_found(data, at, at + bytes.len());
}

} // verus!
