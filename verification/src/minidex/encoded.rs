//! How encoded values read, byte by byte.
use vstd::prelude::*;

use crate::collections::{ascending, lemma_with_member};
use crate::dex_format::fields::{half, word};
use crate::dex_format::bytes_in;
use crate::error::Error;
use crate::minidex::values::{index_number, kind_of, le_number, value_in, IndexKind, RefSets, Value};

verus! {

/// The number in up to four bytes, low byte first.
pub open spec fn short_number(data: Seq<u8>, at: int, size: int) -> int {
    if size == 1 {
        data[at] as int
    } else if size == 2 {
        half(data, at)
    } else if size == 3 {
        half(data, at) + 0x1_0000 * data[at + 2]
    } else {
        word(data, at)
    }
}

proof fn lemma_index_read(data: Seq<u8>, at: int, size: int)
    requires
        0 <= at,
        1 <= size <= 4,
        at + size <= data.len(),
    ensures
        index_number(bytes_in(data, at, size)->Ok_0) == short_number(data, at, size),
{
    let bytes = bytes_in(data, at, size)->Ok_0;
    let list = Seq::new(
        if bytes.len() < 4 {
            bytes.len()
        } else {
            4
        },
        |i: int|
            if i + 4 < bytes.len() {
                bytes[i] | bytes[i + 4]
            } else {
                bytes[i]
            },
    );
    assert(list =~= bytes);
    reveal_with_fuel(le_number, 5);
    assert(bytes[0] == data[at]);
    assert(bytes.skip(1).len() == size - 1);
    if size >= 2 {
        assert(bytes.skip(1)[0] == data[at + 1]);
        assert(bytes.skip(1).skip(1) =~= bytes.skip(2));
    }
    if size >= 3 {
        assert(bytes.skip(2)[0] == data[at + 2]);
        assert(bytes.skip(2).skip(1) =~= bytes.skip(3));
    }
    if size >= 4 {
        assert(bytes.skip(3)[0] == data[at + 3]);
        assert(bytes.skip(3).skip(1) =~= Seq::<u8>::empty());
    }
}

/// The low five bits of the first byte say what a value is, and the high three
/// how many bytes follow, less one. An index is a number in those bytes; `null`
/// and truth values have none; method handles are refused.
pub proof fn lemma_value_read(data: Seq<u8>, at: int, refs: RefSets)
    requires
        0 <= at < data.len(),
    ensures
        ({
            let code = data[at] % 32;
            let size = data[at] / 32 + 1;
            let read = value_in(data, at, refs);
            &&& code == 0x16 ==> read == Err::<(Value, int, RefSets), Error>(
                Error::MethodHandleValue,
            )
            &&& code == 0x1e ==> read == Ok::<(Value, int, RefSets), Error>(
                (Value::Null, at + 1, refs),
            )
            &&& code == 0x1f ==> read == Ok::<(Value, int, RefSets), Error>(
                (Value::Boolean((size - 1) as u8), at + 1, refs),
            )
            &&& (code < 0x15 || code == 0x1f || code == 0x1e || code >= 0x17) && code != 0x1c
                && code != 0x1d && at + 1 + size <= data.len() ==> read is Ok
            &&& code < 0x15 && at + 1 + size <= data.len() ==> (read matches Ok((v, end, r)) && v
                == Value::Primitive(code as u8, data.subrange(at + 1, at + 1 + size)) && end == at
                + 1 + size && r == refs)
        }),
{
}

/// What an index in a value is an index of, by the type of the value, and which
/// number it is.
pub proof fn lemma_indexed_value(data: Seq<u8>, at: int, refs: RefSets, kind: IndexKind)
    requires
        0 <= at < data.len(),
        ascending(refs.strings),
        ascending(refs.types),
        ascending(refs.protos),
        ascending(refs.fields),
        ascending(refs.methods),
        data[at] / 32 < 4,
        at + 2 + data[at] / 32 <= data.len(),
        data[at] % 32 == match kind {
            IndexKind::Proto => 0x15int,
            IndexKind::String => 0x17int,
            IndexKind::Type => 0x18int,
            IndexKind::Field => 0x19int,
            IndexKind::Method => 0x1aint,
            IndexKind::Enum => 0x1bint,
        },
    ensures
        ({
            let size = data[at] / 32 + 1;
            let index = short_number(data, at + 1, size) as u32;
            value_in(data, at, refs) matches Ok((v, end, r)) && {
                &&& v == Value::Indexed(kind, index)
                &&& end == at + 1 + size
                &&& match kind {
                    IndexKind::Proto => r.protos.contains(index),
                    IndexKind::String => r.strings.contains(index),
                    IndexKind::Type => r.types.contains(index),
                    IndexKind::Field => r.fields.contains(index),
                    IndexKind::Method => r.methods.contains(index),
                    IndexKind::Enum => r.fields.contains(index),
                }
            }
        }),
{
    let size = data[at] / 32 + 1;
    lemma_index_read(data, at + 1, size);
    let index = index_number(bytes_in(data, at + 1, size)->Ok_0);
    assert(kind_of((data[at] % 32) as u8) == Some(kind));
    lemma_with_member(refs.protos, index);
    lemma_with_member(refs.strings, index);
    lemma_with_member(refs.types, index);
    lemma_with_member(refs.fields, index);
    lemma_with_member(refs.methods, index);
}

} // verus!
