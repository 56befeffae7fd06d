//! Physical DEX containers that hold several logical DEX files.
pub mod parts;

use vstd::prelude::*;

use crate::collections::{lemma_views_empty, lemma_views_push, views};
use crate::dex_format::{u32_at, u32_in};
use crate::error::Error;
use crate::text::{decimal, push_decimal, push_text};

verus! {

/// The smallest size of a logical file.
pub const DEX_HEADER_MIN_SIZE: u64 = 0x70;

/// The size of a header that names its container.
pub const DEX041_HEADER_SIZE: u64 = 0x78;

/// One DEX file within a container.
#[derive(Debug, Clone, PartialEq, Eq)]
pub struct LogicalDex {
    pub name: String,
    pub header_offset: u64,
}

/// What a logical DEX file is known by.
#[verifier::ext_equal]
pub struct Logical {
    pub name: Seq<char>,
    pub header_offset: u64,
}

impl View for LogicalDex {
    type V = Logical;

    open spec fn view(&self) -> Logical {
        Logical { name: self.name@, header_offset: self.header_offset }
    }
}

/// The first bytes of a container.
pub open spec fn container_magic() -> Seq<u8> {
    seq![0x64u8, 0x65, 0x78, 0x0a, 0x30, 0x34, 0x31, 0x00]
}

pub open spec fn magic_at(data: Seq<u8>, at: int) -> bool {
    at + 8 <= data.len() && data.subrange(at, at + 8) == container_magic()
}

/// The fault of the header at `offset`, if it has one.
pub open spec fn container_fault(data: Seq<u8>, offset: int) -> Option<Error> {
    if offset + DEX041_HEADER_SIZE > data.len() {
        Some(Error::TruncatedContainerHeader(offset as u64))
    } else {
        let size = u32_in(data, offset + 0x20)->Ok_0;
        let container = u32_in(data, offset + 0x70)->Ok_0;
        let declared = u32_in(data, offset + 0x74)->Ok_0;
        if size < DEX_HEADER_MIN_SIZE {
            Some(Error::LogicalFileSize { file_size: size, offset: offset as u64 })
        } else if offset + size > data.len() {
            Some(Error::LogicalFileExceeds(offset as u64))
        } else if container != data.len() {
            Some(
                Error::ContainerSize {
                    offset: offset as u64,
                    declared: container,
                    actual: data.len() as u64,
                },
            )
        } else if declared != offset {
            Some(Error::ContainerOffset { expected: offset as u64, declared })
        } else {
            None
        }
    }
}

/// The header offsets behind those found so far, from `offset` on.
pub open spec fn offsets_from(data: Seq<u8>, offset: int, offsets: Seq<u64>) -> Result<
    Seq<u64>,
    Error,
>
    decreases data.len() - offset,
{
    if !magic_at(data, offset) {
        if offset == data.len() {
            Ok(offsets)
        } else {
            Err(Error::ContainerNotCovered)
        }
    } else {
        match container_fault(data, offset) {
            Some(e) => Err(e),
            None => {
                let size = u32_in(data, offset + 0x20)->Ok_0;
                if size == 0 {
                    Err(Error::ContainerNotCovered)
                } else {
                    offsets_from(data, offset + size, offsets.push(offset as u64))
                }
            },
        }
    }
}

/// The name of logical file `index` of the container `name`.
pub open spec fn logical_name(name: Seq<char>, index: int) -> Seq<char> {
    name + "!classes"@ + decimal((index + 1) as nat) + ".dex"@
}

/// The logical DEX files of `data`, which has the given name. Only a container
/// of several files renames them.
pub open spec fn logical_in(name: Seq<char>, data: Seq<u8>) -> Result<Seq<Logical>, Error> {
    let whole = seq![Logical { name, header_offset: 0 }];
    if !magic_at(data, 0) {
        Ok(whole)
    } else {
        match offsets_from(data, 0, Seq::empty()) {
            Err(e) => Err(e),
            Ok(offsets) => if offsets.len() == 1 {
                Ok(whole)
            } else {
                Ok(
                    Seq::new(
                        offsets.len(),
                        |i: int|
                            Logical { name: logical_name(name, i), header_offset: offsets[i] },
                    ),
                )
            },
        }
    }
}

fn has_magic(data: &[u8], at: u64) -> (r: bool)
    requires
        at <= data@.len(),
    ensures
        r == magic_at(data@, at as int),
{
    let size: u64 = data.len() as u64;
    if size - at < 8 {
        return false;
    }
    let i: usize = at as usize;
    let ghost part = data@.subrange(at as int, at + 8);
    let r = data[i] == 0x64 && data[i + 1] == 0x65 && data[i + 2] == 0x78 && data[i + 3] == 0x0a
        && data[i + 4] == 0x30 && data[i + 5] == 0x34 && data[i + 6] == 0x31 && data[i + 7] == 0;
    proof {
        assert(forall|k: int| 0 <= k < 8 ==> #[trigger] part[k] == data@[at + k]);
        if r {
            assert(part =~= container_magic());
        } else if part == container_magic() {
            assert(part[0] == 0x64 && part[1] == 0x65 && part[2] == 0x78 && part[3] == 0x0a);
            assert(part[4] == 0x30 && part[5] == 0x34 && part[6] == 0x31 && part[7] == 0);
        }
    }
    r
}

/// The size of the logical file whose header stands at `offset`.
fn check_header(data: &[u8], offset: u64) -> (r: Result<u32, Error>)
    requires
        offset <= data@.len(),
    ensures
        match r {
            Ok(size) => container_fault(data@, offset as int) is None && u32_in(
                data@,
                offset + 0x20,
            ) == Ok::<u32, Error>(size) && size >= DEX_HEADER_MIN_SIZE && offset + size
                <= data@.len(),
            Err(e) => container_fault(data@, offset as int) == Some(e),
        },
{
    let len: u64 = data.len() as u64;
    if len - offset < DEX041_HEADER_SIZE {
        return Err(Error::TruncatedContainerHeader(offset));
    }
    let size: u32 = u32_at(data, offset + 0x20)?;
    if (size as u64) < DEX_HEADER_MIN_SIZE {
        return Err(Error::LogicalFileSize { file_size: size, offset });
    }
    if size as u64 > len - offset {
        return Err(Error::LogicalFileExceeds(offset));
    }
    let container: u32 = u32_at(data, offset + 0x70)?;
    let declared: u32 = u32_at(data, offset + 0x74)?;
    if container as u64 != len {
        return Err(Error::ContainerSize { offset, declared: container, actual: len });
    }
    if declared as u64 != offset {
        return Err(Error::ContainerOffset { expected: offset, declared });
    }
    Ok(size)
}

fn read_offsets(data: &[u8]) -> (r: Result<Vec<u64>, Error>)
    ensures
        match r {
            Ok(v) => offsets_from(data@, 0, Seq::empty()) == Ok::<Seq<u64>, Error>(v@),
            Err(e) => offsets_from(data@, 0, Seq::empty()) == Err::<Seq<u64>, Error>(e),
        },
{
    let len: u64 = data.len() as u64;
    let mut offsets: Vec<u64> = Vec::new();
    let mut offset: u64 = 0;
    while has_magic(data, offset)
        invariant
            len == data@.len(),
            offset <= len,
            offsets_from(data@, 0, Seq::empty()) == offsets_from(
                data@,
                offset as int,
                offsets@,
            ),
        decreases len - offset,
    {
        let size: u32 = check_header(data, offset)?;
        offsets.push(offset);
        offset += size as u64;
    }
    if offset != len {
        return Err(Error::ContainerNotCovered);
    }
    Ok(offsets)
}

/// Lists the logical DEX files of a physical one. Their offsets address the
/// whole buffer.
pub fn logical_dexes(name: &str, data: &[u8]) -> (r: Result<Vec<LogicalDex>, Error>)
    ensures
        match r {
            Ok(v) => logical_in(name@, data@) == Ok::<Seq<Logical>, Error>(views(v@)),
            Err(e) => logical_in(name@, data@) == Err::<Seq<Logical>, Error>(e),
        },
{
    if !has_magic(data, 0) {
        return Ok(one_file(name));
    }
    let offsets = read_offsets(data)?;
    if offsets.len() == 1 {
        return Ok(one_file(name));
    }
    let mut out: Vec<LogicalDex> = Vec::new();
    let mut i: usize = 0;
    while i < offsets.len()
        invariant
            i <= offsets.len(),
            out.len() == i,
            forall|j: int|
                0 <= j < i ==> (#[trigger] out@[j])@ == (Logical {
                    name: logical_name(name@, j),
                    header_offset: offsets@[j],
                }),
        decreases offsets.len() - i,
    {
        let mut label: String = String::new();
        push_text(&mut label, name);
        push_text(&mut label, "!classes");
        push_decimal(&mut label, i as u64 + 1);
        push_text(&mut label, ".dex");
        assert(label@ =~= logical_name(name@, i as int));
        out.push(LogicalDex { name: label, header_offset: offsets[i] });
        i += 1;
    }
    assert(views(out@) =~= logical_in(name@, data@)->Ok_0);
    Ok(out)
}

fn one_file(name: &str) -> (r: Vec<LogicalDex>)
    ensures
        views(r@) == seq![Logical { name: name@, header_offset: 0 }],
{
    let mut out: Vec<LogicalDex> = Vec::new();
    let file = LogicalDex { name: name.to_owned(), header_offset: 0 };
    proof {
        lemma_views_empty::<LogicalDex>();
        lemma_views_push(out@, file);
    }
    out.push(file);
    assert(views(out@) =~= seq![Logical { name: name@, header_offset: 0 }]);
    out
}

// ---------------------------------------------------------------------------
// Laws
// ---------------------------------------------------------------------------

/// The size that the header at `offset` gives its logical file.
pub open spec fn logical_size(data: Seq<u8>, offset: int) -> int {
    u32_in(data, offset + 0x20)->Ok_0 as int
}

/// Whether files that start at the given offsets follow each other without a
/// gap and end at `end`.
pub open spec fn tiles(data: Seq<u8>, offsets: Seq<u64>, end: int) -> bool {
    &&& forall|i: int|
        0 <= i < offsets.len() ==> (#[trigger] offsets[i]) + logical_size(data, offsets[i] as int)
            == (if i + 1 < offsets.len() {
            offsets[i + 1] as int
        } else {
            end
        })
    &&& offsets.len() > 0 ==> offsets[0] == 0
    &&& offsets.len() == 0 ==> end == 0
}

proof fn lemma_offsets_tile(data: Seq<u8>, offset: int, offsets: Seq<u64>)
    requires
        data.len() <= u64::MAX,
        0 <= offset <= data.len(),
        tiles(data, offsets, offset),
        offsets_from(data, offset, offsets) is Ok,
    ensures
        tiles(data, offsets_from(data, offset, offsets)->Ok_0, data.len() as int),
    decreases data.len() - offset,
{
    if magic_at(data, offset) {
        let size = logical_size(data, offset);
        let more = offsets.push(offset as u64);
        assert forall|i: int| 0 <= i < more.len() implies (#[trigger] more[i]) + logical_size(
            data,
            more[i] as int,
        ) == (if i + 1 < more.len() {
            more[i + 1] as int
        } else {
            offset + size
        }) by {
            if i < offsets.len() {
                assert(more[i] == offsets[i]);
                assert(offsets[i] + logical_size(data, offsets[i] as int) == (if i + 1
                    < offsets.len() {
                    offsets[i + 1] as int
                } else {
                    offset
                }));
            }
        }
        lemma_offsets_tile(data, offset + size, more);
    }
}

/// The logical files of a container follow each other without a gap and cover
/// all of it.
pub proof fn lemma_logical_files_cover(data: Seq<u8>)
    requires
        data.len() <= u64::MAX,
        offsets_from(data, 0, Seq::empty()) is Ok,
    ensures
        tiles(data, offsets_from(data, 0, Seq::empty())->Ok_0, data.len() as int),
{
    lemma_offsets_tile(data, 0, Seq::empty());
}

} // verus!
