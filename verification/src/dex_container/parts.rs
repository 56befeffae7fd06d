//! What makes up a container of several DEX files.
use vstd::prelude::*;

use crate::dex_container::{
    container_fault, logical_in, logical_name, magic_at, offsets_from, Logical,
};
use crate::dex_format::fields::word;
use crate::error::Error;
use crate::text::decimal;

verus! {

/// Whether a logical file starts at `at`: the mark of the format, a size that
/// holds a header and stays in the container, and the size and the place that
/// the header gives of the container.
pub open spec fn file_at(data: Seq<u8>, at: int) -> bool {
    &&& 0 <= at
    &&& at + 120 <= data.len()
    &&& data.subrange(at, at + 8) == seq![0x64u8, 0x65u8, 0x78u8, 0x0au8, 0x30u8, 0x34u8, 0x31u8, 0u8]
    &&& 112 <= word(data, at + 32)
    &&& at + word(data, at + 32) <= data.len()
    &&& word(data, at + 112) == data.len()
    &&& word(data, at + 116) == at
}

/// A header has no fault exactly where a logical file starts there.
pub proof fn lemma_no_fault(data: Seq<u8>, at: int)
    requires
        0 <= at,
        magic_at(data, at),
    ensures
        container_fault(data, at) is None <==> file_at(data, at),
{
}

/// Each offset that is found is behind those found before, and a logical file
/// starts there.
pub proof fn lemma_files_found(data: Seq<u8>, offset: int, offsets: Seq<u64>)
    requires
        0 <= offset <= data.len() <= u64::MAX,
        offsets_from(data, offset, offsets) is Ok,
        forall|i: int| 0 <= i < offsets.len() ==> file_at(data, #[trigger] offsets[i] as int),
    ensures
        offsets_from(data, offset, offsets)->Ok_0.len() >= offsets.len(),
        forall|i: int|
            0 <= i < offsets_from(data, offset, offsets)->Ok_0.len() ==> file_at(
                data,
                #[trigger] offsets_from(data, offset, offsets)->Ok_0[i] as int,
            ),
    decreases data.len() - offset,
{
    if magic_at(data, offset) {
        lemma_no_fault(data, offset);
        let more = offsets.push(offset as u64);
        assert forall|i: int| 0 <= i < more.len() implies file_at(data, #[trigger] more[i] as int) by {
            if i < offsets.len() {
                assert(more[i] == offsets[i]);
            }
        }
        lemma_files_found(data, offset + word(data, offset + 32), more);
    }
}

/// Data without the mark of a container is one file under its own name. A
/// container has at least one file, each of them starts where its header says,
/// and several are told apart by a number behind the name, from one on.
pub proof fn lemma_logical_files(name: Seq<char>, data: Seq<u8>)
    requires
        data.len() <= u64::MAX,
    ensures
        !(data.len() >= 8 && data.subrange(0, 8) == seq![
            0x64u8,
            0x65u8,
            0x78u8,
            0x0au8,
            0x30u8,
            0x34u8,
            0x31u8,
            0u8,
        ]) ==> logical_in(name, data) == Ok::<Seq<Logical>, Error>(
            seq![Logical { name, header_offset: 0 }],
        ),
        logical_in(name, data) matches Ok(list) ==> {
            &&& list.len() > 0
            &&& list.len() == 1 ==> list[0].name == name && list[0].header_offset == 0
            &&& list.len() > 1 ==> forall|i: int|
                0 <= i < list.len() ==> (#[trigger] list[i]).name == name + "!classes"@ + decimal(
                    (i + 1) as nat,
                ) + ".dex"@ && file_at(data, list[i].header_offset as int)
        },
{
    if magic_at(data, 0) && logical_in(name, data) is Ok {
        let offsets = offsets_from(data, 0, Seq::empty())->Ok_0;
        lemma_files_found(data, 0, Seq::empty());
        assert(offsets.len() > 0) by {
            lemma_no_fault(data, 0);
            lemma_more_offsets(data, word(data, 32), seq![0u64]);
            assert(Seq::<u64>::empty().push(0u64) =~= seq![0u64]);
        }
        let list = logical_in(name, data)->Ok_0;
        if list.len() > 1 {
            assert forall|i: int| 0 <= i < list.len() implies (#[trigger] list[i]).name == name
                + "!classes"@ + decimal((i + 1) as nat) + ".dex"@ && file_at(
                data,
                list[i].header_offset as int,
            ) by {
                assert(list[i].header_offset == offsets[i]);
                assert(list[i].name == logical_name(name, i));
            }
        }
    }
}

proof fn lemma_more_offsets(data: Seq<u8>, offset: int, offsets: Seq<u64>)
    requires
        offsets_from(data, offset, offsets) is Ok,
    ensures
        offsets_from(data, offset, offsets)->Ok_0.len() >= offsets.len(),
    decreases data.len() - offset,
{
    if magic_at(data, offset) {
        let size = crate::dex_format::u32_in(data, offset + 0x20)->Ok_0;
        lemma_more_offsets(data, offset + size, offsets.push(offset as u64));
    }
}

} // verus!
