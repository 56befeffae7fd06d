//! What an Android package holds, and which parts of it are kept in memory.
use std::sync::Arc;
use vstd::prelude::*;

pub mod cache;
pub mod index;
pub mod listing;
pub mod recency;

use crate::collections::views;
use crate::dex::probe::{class_texts_in, defines_class_in};
use crate::dex::{class_descriptors_at, dex_defines_class_at, Dex, DexContents};
use crate::dex_container::{logical_dexes, logical_in, Logical};
use crate::error::Error;
use crate::minidex::canonical::picked;
use crate::order::{lemma_sort_order, lists, positions, sort_order, sorted_indices};
use crate::results::{collect, lemma_collect_error};
use crate::text::{
    all_digits, chars_of, cut_chars, ends_with, has_prefix, has_suffix, is_digit, parse_u32,
    parsed_u32, same_text, starts_with, texts,
};
use crate::has_char;

pub use crate::apk::cache::{CachedDex, DexCache};
pub use crate::apk::index::ClassIndex;

verus! {

/// One DEX file with its bytes. The bytes may hold other DEX files too: this
/// one has its header at `header_offset`.
#[derive(Debug, Clone)]
pub struct DexEntry {
    pub name: String,
    pub data: Arc<[u8]>,
    pub header_offset: u64,
}

/// One DEX file that was read.
#[derive(Debug, Clone)]
pub struct ParsedDexEntry {
    pub name: String,
    pub dex: Arc<Dex>,
}

/// A DEX entry of a package.
#[derive(Debug, Clone)]
pub struct DexInfo {
    pub name: String,
    pub compressed_size: u64,
    pub uncompressed_size: u64,
}

/// What is known of a DEX entry.
#[verifier::ext_equal]
pub struct DexMeta {
    pub name: Seq<char>,
    pub compressed_size: u64,
    pub uncompressed_size: u64,
}

impl View for DexInfo {
    type V = DexMeta;

    open spec fn view(&self) -> DexMeta {
        DexMeta {
            name: self.name@,
            compressed_size: self.compressed_size,
            uncompressed_size: self.uncompressed_size,
        }
    }
}

/// An entry of a package.
#[derive(Debug, Clone, PartialEq, Eq)]
pub struct ApkEntryInfo {
    pub name: String,
    pub compressed_size: u64,
    pub uncompressed_size: u64,
    pub is_directory: bool,
}

/// What is known of an entry.
#[verifier::ext_equal]
pub struct EntryMeta {
    pub name: Seq<char>,
    pub compressed_size: u64,
    pub uncompressed_size: u64,
    pub is_directory: bool,
}

impl View for ApkEntryInfo {
    type V = EntryMeta;

    open spec fn view(&self) -> EntryMeta {
        EntryMeta {
            name: self.name@,
            compressed_size: self.compressed_size,
            uncompressed_size: self.uncompressed_size,
            is_directory: self.is_directory,
        }
    }
}

/// A class and the DEX file that defines it.
#[derive(Debug, Clone, PartialEq, Eq)]
pub struct ApkClassInfo {
    pub dex_name: String,
    pub descriptor: String,
}

/// The two names of a class listing.
#[verifier::ext_equal]
pub struct ClassPlace {
    pub dex_name: Seq<char>,
    pub descriptor: Seq<char>,
}

impl View for ApkClassInfo {
    type V = ClassPlace;

    open spec fn view(&self) -> ClassPlace {
        ClassPlace { dex_name: self.dex_name@, descriptor: self.descriptor@ }
    }
}

// ---------------------------------------------------------------------------
// Names
// ---------------------------------------------------------------------------

/// Whether an entry is one of the DEX files at the root of a package:
/// `classes.dex`, or `classes` and a number.
pub open spec fn is_root_name(name: Seq<char>) -> bool {
    let stem = name.take(name.len() - 4);
    &&& !name.contains('/')
    &&& !name.contains('\\')
    &&& ends_with(name, ".dex"@)
    &&& starts_with(stem, "classes"@)
    &&& all_digits(stem.skip(7))
}

fn is_digits(chars: &Vec<char>) -> (r: bool)
    ensures
        r == all_digits(chars@),
{
    let mut i: usize = 0;
    while i < chars.len()
        invariant
            i <= chars.len(),
            forall|j: int| 0 <= j < i ==> is_digit(#[trigger] chars@[j]),
        decreases chars.len() - i,
    {
        let c: u32 = chars[i] as u32;
        if c < 0x30 || c > 0x39 {
            assert(!is_digit(chars@[i as int]));
            return false;
        }
        i += 1;
    }
    true
}

pub fn is_root_dex(name: &str) -> (r: bool)
    ensures
        r == is_root_name(name@),
{
    proof {
        reveal_strlit(".dex");
        reveal_strlit("classes");
    }
    let chars = chars_of(name);
    if has_char(&chars, '/') || has_char(&chars, '\\') || !has_suffix(&chars, ".dex") {
        return false;
    }
    let stem = cut_chars(&chars, 0, chars.len() - 4);
    assert(stem@ =~= name@.take(name@.len() - 4));
    if !has_prefix(&stem, "classes") {
        return false;
    }
    let number = cut_chars(&stem, 7, stem.len());
    assert(number@ =~= stem@.skip(7));
    is_digits(&number)
}

/// A name without its `.dex`.
pub open spec fn stem_of(name: Seq<char>) -> Seq<char> {
    if ends_with(name, ".dex"@) {
        name.take(name.len() - 4)
    } else {
        name
    }
}

/// The place of a DEX entry among others: the number in its name, one where
/// there is none, and the largest number where it cannot be read.
pub open spec fn ordinal(name: Seq<char>) -> u32 {
    let stem = stem_of(name);
    if !starts_with(stem, "classes"@) || stem.len() == 7 {
        1
    } else {
        match parsed_u32(stem.skip(7)) {
            Some(n) => n,
            None => u32::MAX,
        }
    }
}

pub fn dex_ordinal(name: &str) -> (r: u32)
    ensures
        r == ordinal(name@),
{
    proof {
        reveal_strlit(".dex");
        reveal_strlit("classes");
    }
    let chars = chars_of(name);
    let mut to: usize = chars.len();
    if has_suffix(&chars, ".dex") {
        to = chars.len() - 4;
    }
    let stem = cut_chars(&chars, 0, to);
    assert(stem@ =~= stem_of(name@));
    if !has_prefix(&stem, "classes") || stem.len() == 7 {
        return 1;
    }
    let number = cut_chars(&stem, 7, stem.len());
    assert(number@ =~= stem@.skip(7));
    match parse_u32(&number) {
        Some(n) => n,
        None => 0xffff_ffff,
    }
}

// ---------------------------------------------------------------------------
// Listings
// ---------------------------------------------------------------------------

/// The entries among the first `n` that are root DEX files.
pub open spec fn root_entries(entries: Seq<DexMeta>, n: nat) -> Seq<DexMeta>
    decreases n,
{
    if n == 0 {
        Seq::empty()
    } else if is_root_name(entries[n - 1].name) {
        root_entries(entries, (n - 1) as nat).push(entries[n - 1])
    } else {
        root_entries(entries, (n - 1) as nat)
    }
}

pub open spec fn ordinal_keys(entries: Seq<DexMeta>) -> Seq<Seq<u32>> {
    entries.map_values(|e: DexMeta| seq![ordinal(e.name)])
}

/// The root DEX files of a package in the order of their numbers; files with
/// equal numbers keep the order in which the package lists them.
pub open spec fn dex_listing(entries: Seq<DexMeta>) -> Result<Seq<DexMeta>, Error> {
    let roots = root_entries(entries, entries.len());
    if roots.len() == 0 {
        Err(Error::NoRootDex)
    } else {
        Ok(picked(roots, sort_order(ordinal_keys(roots), roots.len())))
    }
}

fn copy_info(info: &DexInfo) -> (r: DexInfo)
    ensures
        r@ == info@,
{
    DexInfo {
        name: info.name.clone(),
        compressed_size: info.compressed_size,
        uncompressed_size: info.uncompressed_size,
    }
}

/// Picks the root DEX files out of all entries of a package.
pub fn root_dexes(entries: &Vec<DexInfo>) -> (r: Result<Vec<DexInfo>, Error>)
    ensures
        match r {
            Ok(v) => dex_listing(views(entries@)) == Ok::<Seq<DexMeta>, Error>(views(v@)),
            Err(e) => dex_listing(views(entries@)) == Err::<Seq<DexMeta>, Error>(e),
        },
{
    let ghost all = views(entries@);
    let mut roots: Vec<DexInfo> = Vec::new();
    let mut i: usize = 0;
    assert(views(roots@) =~= Seq::<DexMeta>::empty());
    while i < entries.len()
        invariant
            i <= entries.len(),
            all == views(entries@),
            views(roots@) == root_entries(all, i as nat),
        decreases entries.len() - i,
    {
        let ghost before = roots@;
        assert(all[i as int] == entries@[i as int]@);
        if is_root_dex(entries[i].name.as_str()) {
            roots.push(copy_info(&entries[i]));
            assert(views(roots@) =~= views(before).push(all[i as int]));
        }
        i += 1;
    }
    if roots.len() == 0 {
        return Err(Error::NoRootDex);
    }
    let mut keys: Vec<Vec<u32>> = Vec::new();
    let mut j: usize = 0;
    while j < roots.len()
        invariant
            j <= roots.len(),
            keys.len() == j,
            forall|k: int|
                0 <= k < j ==> (#[trigger] keys@[k])@ == seq![ordinal(views(roots@)[k].name)],
        decreases roots.len() - j,
    {
        let mut key: Vec<u32> = Vec::new();
        key.push(dex_ordinal(roots[j].name.as_str()));
        assert(key@ =~= seq![ordinal(views(roots@)[j as int].name)]);
        keys.push(key);
        j += 1;
    }
    assert(lists(keys@) =~= ordinal_keys(views(roots@)));
    let order = sorted_indices(&keys);
    proof {
        lemma_sort_order(lists(keys@), keys@.len());
    }
    let ghost walk = positions(order@);
    let mut out: Vec<DexInfo> = Vec::new();
    let mut t: usize = 0;
    while t < order.len()
        invariant
            t <= order.len(),
            walk == positions(order@),
            walk.len() == roots@.len(),
            forall|k: int| 0 <= k < walk.len() ==> 0 <= #[trigger] walk[k] < roots@.len(),
            out.len() == t,
            forall|k: int| 0 <= k < t ==> (#[trigger] out@[k])@ == roots@[walk[k]]@,
        decreases order.len() - t,
    {
        assert(walk[t as int] == order@[t as int]);
        out.push(copy_info(&roots[order[t]]));
        t += 1;
    }
    assert(views(out@) =~= picked(views(roots@), walk));
    Ok(out)
}

/// The position of the DEX entry with the given name.
pub open spec fn dex_position(entries: Seq<DexMeta>, name: Seq<char>, i: int) -> Option<int>
    decreases entries.len() - i,
{
    if i >= entries.len() {
        None
    } else if entries[i].name == name {
        Some(i)
    } else {
        dex_position(entries, name, i + 1)
    }
}

pub fn find_dex(dexes: &Vec<DexInfo>, name: &str) -> (r: Result<usize, Error>)
    ensures
        match r {
            Ok(i) => dex_position(views(dexes@), name@, 0) == Some(i as int) && i < dexes@.len(),
            Err(e) => e == Error::NoSuchDex && dex_position(views(dexes@), name@, 0) is None,
        },
{
    let mut i: usize = 0;
    while i < dexes.len()
        invariant
            i <= dexes.len(),
            dex_position(views(dexes@), name@, 0) == dex_position(views(dexes@), name@, i as int),
        decreases dexes.len() - i,
    {
        assert(views(dexes@)[i as int].name == dexes@[i as int].name@);
        if same_text(dexes[i].name.as_str(), name) {
            return Ok(i);
        }
        i += 1;
    }
    Err(Error::NoSuchDex)
}

/// A name as a sort key: its scalar values.
pub open spec fn name_key(name: Seq<char>) -> Seq<u32> {
    name.map_values(|c: char| c as u32)
}

pub open spec fn name_keys(entries: Seq<EntryMeta>) -> Seq<Seq<u32>> {
    entries.map_values(|e: EntryMeta| name_key(e.name))
}

/// Entries in the order of their names.
pub open spec fn by_name(entries: Seq<EntryMeta>) -> Seq<EntryMeta> {
    picked(entries, sort_order(name_keys(entries), entries.len()))
}

pub fn name_sort_key(name: &str) -> (r: Vec<u32>)
    ensures
        r@ == name_key(name@),
{
    let mut out: Vec<u32> = Vec::new();
    for c in it: name.chars()
        invariant
            it.seq() == name@,
            out@.len() == it.index(),
            forall|j: int| 0 <= j < out@.len() ==> #[trigger] out@[j] == it.seq()[j] as u32,
    {
        out.push(c as u32);
    }
    assert(out@ =~= name_key(name@));
    out
}

/// Puts the entries of a package into the order of their names.
pub fn sort_entries(entries: &Vec<ApkEntryInfo>) -> (r: Vec<ApkEntryInfo>)
    ensures
        views(r@) == by_name(views(entries@)),
{
    let mut keys: Vec<Vec<u32>> = Vec::new();
    let mut j: usize = 0;
    while j < entries.len()
        invariant
            j <= entries.len(),
            keys.len() == j,
            forall|k: int| 0 <= k < j ==> (#[trigger] keys@[k])@ == name_key(entries@[k].name@),
        decreases entries.len() - j,
    {
        keys.push(name_sort_key(entries[j].name.as_str()));
        j += 1;
    }
    assert(lists(keys@) =~= name_keys(views(entries@)));
    let order = sorted_indices(&keys);
    proof {
        lemma_sort_order(lists(keys@), keys@.len());
    }
    let ghost walk = positions(order@);
    let mut out: Vec<ApkEntryInfo> = Vec::new();
    let mut t: usize = 0;
    while t < order.len()
        invariant
            t <= order.len(),
            walk == positions(order@),
            walk.len() == entries@.len(),
            forall|k: int| 0 <= k < walk.len() ==> 0 <= #[trigger] walk[k] < entries@.len(),
            out.len() == t,
            forall|k: int| 0 <= k < t ==> (#[trigger] out@[k])@ == entries@[walk[k]]@,
        decreases order.len() - t,
    {
        assert(walk[t as int] == order@[t as int]);
        let entry = &entries[order[t]];
        out.push(
            ApkEntryInfo {
                name: entry.name.clone(),
                compressed_size: entry.compressed_size,
                uncompressed_size: entry.uncompressed_size,
                is_directory: entry.is_directory,
            },
        );
        t += 1;
    }
    assert(views(out@) =~= by_name(views(entries@)));
    out
}

// ---------------------------------------------------------------------------
// Sizes
// ---------------------------------------------------------------------------

/// How many workers serve a package: as many as asked for, but no more than it
/// has DEX entries.
pub open spec fn workers_for(threads: usize, dexes: usize) -> Result<usize, Error> {
    let enough = if dexes == 0 {
        1
    } else {
        dexes
    };
    if threads == 0 {
        Err(Error::NoWorkers)
    } else if threads < enough {
        Ok(threads)
    } else {
        Ok(enough)
    }
}

pub fn worker_count(threads: usize, dexes: usize) -> (r: Result<usize, Error>)
    ensures
        r == workers_for(threads, dexes),
{
    if threads == 0 {
        return Err(Error::NoWorkers);
    }
    let enough: usize = if dexes == 0 {
        1
    } else {
        dexes
    };
    if threads < enough {
        Ok(threads)
    } else {
        Ok(enough)
    }
}

/// How many bytes a range selects from an entry of the given size.
pub open spec fn range_of(entry_size: u64, offset: u64, length: Option<u64>) -> Result<u64, Error> {
    if offset > entry_size {
        Err(Error::RangeStart { offset, size: entry_size })
    } else {
        let available = (entry_size - offset) as u64;
        let selected = match length {
            Some(n) => n,
            None => available,
        };
        if selected > available {
            Err(Error::RangeLength { selected, available, offset })
        } else {
            Ok(selected)
        }
    }
}

pub fn select_range(entry_size: u64, offset: u64, length: Option<u64>) -> (r: Result<u64, Error>)
    ensures
        r == range_of(entry_size, offset, length),
{
    if offset > entry_size {
        return Err(Error::RangeStart { offset, size: entry_size });
    }
    let available: u64 = entry_size - offset;
    let selected: u64 = match length {
        Some(n) => n,
        None => available,
    };
    if selected > available {
        return Err(Error::RangeLength { selected, available, offset });
    }
    Ok(selected)
}

/// A range that is accepted lies within the entry, and its length is the one
/// asked for, or else all that is left.
pub proof fn lemma_range_within(entry_size: u64, offset: u64, length: Option<u64>)
    requires
        range_of(entry_size, offset, length) is Ok,
    ensures
        offset + range_of(entry_size, offset, length)->Ok_0 <= entry_size,
        length matches Some(n) ==> range_of(entry_size, offset, length)->Ok_0 == n,
        length is None ==> offset + range_of(entry_size, offset, length)->Ok_0 == entry_size,
{
}

/// The size of the blocks in which bytes before a range are skipped.
pub const SKIP_BLOCK: u64 = 0x4000;

/// How many bytes to ask for while `remaining` are still to be skipped.
pub fn skip_request(remaining: u64) -> (r: usize)
    ensures
        r == if remaining < SKIP_BLOCK {
            remaining
        } else {
            SKIP_BLOCK
        },
{
    if remaining < SKIP_BLOCK {
        remaining as usize
    } else {
        0x4000
    }
}

/// What is still to be skipped after a read gave `read` bytes. A read that
/// gives nothing ends the entry too early.
pub fn after_skip(remaining: u64, read: usize, offset: u64) -> (r: Result<u64, Error>)
    requires
        read <= remaining,
    ensures
        r == if read == 0 {
            Err::<u64, Error>(Error::EndBeforeRange(offset))
        } else {
            Ok::<u64, Error>((remaining - read) as u64)
        },
{
    if read == 0 {
        return Err(Error::EndBeforeRange(offset));
    }
    Ok(remaining - read as u64)
}

/// Whether as many bytes came as were selected.
pub fn check_read(read: usize, selected: u64, offset: u64) -> (r: Result<(), Error>)
    ensures
        r == if read == selected {
            Ok::<(), Error>(())
        } else {
            Err::<(), Error>(Error::EndWithinRange { selected, offset })
        },
{
    if read as u64 == selected {
        Ok(())
    } else {
        Err(Error::EndWithinRange { selected, offset })
    }
}

// ---------------------------------------------------------------------------
// Logical files of one entry
// ---------------------------------------------------------------------------

/// Another handle to shared bytes, made by `Arc::clone` of the standard
/// library.
#[verifier::external_body]
pub(crate) fn share<T: ?Sized>(x: &Arc<T>) -> (r: Arc<T>)
    ensures
        r == *x,
{
    Arc::clone(x)
}

pub open spec fn contents_reader(data: Seq<u8>, list: Seq<Logical>) -> spec_fn(int) -> Result<
    DexContents,
    Error,
> {
    |i: int| DexContents::contents_in(data, list[i].header_offset as int)
}

/// The contents of every logical DEX file of an entry.
pub open spec fn entry_contents(name: Seq<char>, data: Seq<u8>) -> Result<
    (Seq<Logical>, Seq<DexContents>),
    Error,
> {
    match logical_in(name, data) {
        Err(e) => Err(e),
        Ok(list) => match collect(contents_reader(data, list), list.len()) {
            Err(e) => Err(e),
            Ok(contents) => Ok((list, contents)),
        },
    }
}

/// Reads every logical DEX file of an entry.
pub fn parse_entry(name: &str, data: Arc<[u8]>) -> (r: Result<Vec<ParsedDexEntry>, Error>)
    ensures
        match r {
            Ok(v) => entry_contents(name@, data@) matches Ok((list, contents)) && v@.len()
                == list.len() && v@.len() == contents.len() && (forall|i: int|
                0 <= i < v@.len() ==> (#[trigger] v@[i]).name@ == list[i].name && v@[i].dex@
                    == contents[i]),
            Err(e) => entry_contents(name@, data@) == Err::<(Seq<Logical>, Seq<DexContents>), Error>(
                e,
            ),
        },
{
    let files = logical_dexes(name, &data)?;
    let ghost list = views(files@);
    let ghost f = contents_reader(data@, list);
    let ghost mut contents = Seq::<DexContents>::empty();
    let mut out: Vec<ParsedDexEntry> = Vec::new();
    let mut i: usize = 0;
    while i < files.len()
        invariant
            i <= files.len(),
            list == views(files@),
            logical_in(name@, data@) == Ok::<Seq<Logical>, Error>(list),
            f == contents_reader(data@, list),
            collect(f, i as nat) == Ok::<Seq<DexContents>, Error>(contents),
            out.len() == i,
            contents.len() == i,
            forall|j: int|
                0 <= j < i ==> (#[trigger] out@[j]).name@ == list[j].name && out@[j].dex@
                    == contents[j],
        decreases files.len() - i,
    {
        assert(list[i as int] == files@[i as int]@);
        match Dex::parse_shared_at(share(&data), files[i].header_offset) {
            Ok(dex) => {
                proof {
                    contents = contents.push(dex@);
                }
                out.push(ParsedDexEntry { name: files[i].name.clone(), dex: Arc::new(dex) });
            },
            Err(e) => {
                proof {
                    lemma_collect_error(f, i as nat, list.len());
                }
                return Err(e);
            },
        }
        i += 1;
    }
    Ok(out)
}

/// The first of the logical files from `i` on that defines a class.
pub open spec fn locate_from(data: Seq<u8>, list: Seq<Logical>, descriptor: Seq<char>, i: int) -> Result<
    Option<Logical>,
    Error,
>
    decreases list.len() - i,
{
    if i >= list.len() {
        Ok(None)
    } else {
        match defines_class_in(data, list[i].header_offset as int, descriptor) {
            Err(e) => Err(e),
            Ok(true) => Ok(Some(list[i])),
            Ok(false) => locate_from(data, list, descriptor, i + 1),
        }
    }
}

/// The logical file of an entry that defines a class.
pub open spec fn class_place(name: Seq<char>, data: Seq<u8>, descriptor: Seq<char>) -> Result<
    Option<Logical>,
    Error,
> {
    match logical_in(name, data) {
        Err(e) => Err(e),
        Ok(list) => locate_from(data, list, descriptor, 0),
    }
}

/// Looks for the logical DEX file of an entry that defines a class.
pub fn locate_class(name: &str, data: &Arc<[u8]>, descriptor: &str) -> (r: Result<
    Option<DexEntry>,
    Error,
>)
    ensures
        match r {
            Ok(Some(entry)) => entry.data == *data && class_place(name@, data@, descriptor@)
                == Ok::<Option<Logical>, Error>(
                Some(Logical { name: entry.name@, header_offset: entry.header_offset }),
            ),
            Ok(None) => class_place(name@, data@, descriptor@) == Ok::<Option<Logical>, Error>(
                None,
            ),
            Err(e) => class_place(name@, data@, descriptor@) == Err::<Option<Logical>, Error>(e),
        },
{
    let files = logical_dexes(name, data)?;
    let ghost list = views(files@);
    let mut i: usize = 0;
    while i < files.len()
        invariant
            i <= files.len(),
            list == views(files@),
            class_place(name@, data@, descriptor@) == locate_from(
                data@,
                list,
                descriptor@,
                i as int,
            ),
        decreases files.len() - i,
    {
        assert(list[i as int] == files@[i as int]@);
        if dex_defines_class_at(data, files[i].header_offset, descriptor)? {
            return Ok(
                Some(
                    DexEntry {
                        name: files[i].name.clone(),
                        data: share(data),
                        header_offset: files[i].header_offset,
                    },
                ),
            );
        }
        i += 1;
    }
    Ok(None)
}

/// Classes with the DEX file that defines them.
pub open spec fn placed(dex_name: Seq<char>, classes: Seq<Seq<char>>) -> Seq<ClassPlace> {
    classes.map_values(|c: Seq<char>| ClassPlace { dex_name, descriptor: c })
}

/// The classes behind those found so far, in logical files from `i` on.
pub open spec fn classes_from(
    data: Seq<u8>,
    list: Seq<Logical>,
    i: int,
    classes: Seq<ClassPlace>,
) -> Result<Seq<ClassPlace>, Error>
    decreases list.len() - i,
{
    if i >= list.len() {
        Ok(classes)
    } else {
        match class_texts_in(data, list[i].header_offset as int) {
            Err(e) => Err(e),
            Ok(found) => classes_from(data, list, i + 1, classes + placed(list[i].name, found)),
        }
    }
}

/// The classes of an entry, in the order of its logical files and of their
/// class tables.
pub open spec fn entry_classes(name: Seq<char>, data: Seq<u8>) -> Result<Seq<ClassPlace>, Error> {
    match logical_in(name, data) {
        Err(e) => Err(e),
        Ok(list) => classes_from(data, list, 0, Seq::empty()),
    }
}

/// Lists the classes of an entry.
pub fn list_entry_classes(name: &str, data: &[u8]) -> (r: Result<Vec<ApkClassInfo>, Error>)
    ensures
        match r {
            Ok(v) => entry_classes(name@, data@) == Ok::<Seq<ClassPlace>, Error>(views(v@)),
            Err(e) => entry_classes(name@, data@) == Err::<Seq<ClassPlace>, Error>(e),
        },
{
    let files = logical_dexes(name, data)?;
    let ghost list = views(files@);
    let mut out: Vec<ApkClassInfo> = Vec::new();
    let mut i: usize = 0;
    assert(views(out@) =~= Seq::<ClassPlace>::empty());
    while i < files.len()
        invariant
            i <= files.len(),
            list == views(files@),
            entry_classes(name@, data@) == classes_from(data@, list, i as int, views(out@)),
        decreases files.len() - i,
    {
        assert(list[i as int] == files@[i as int]@);
        let found = class_descriptors_at(data, files[i].header_offset)?;
        add_classes(files[i].name.as_str(), &found, &mut out);
        i += 1;
    }
    Ok(out)
}

fn add_classes(dex_name: &str, found: &Vec<String>, out: &mut Vec<ApkClassInfo>)
    ensures
        views(final(out)@) == views(old(out)@) + placed(dex_name@, texts(found@)),
{
    let ghost before = views(out@);
    let ghost added = placed(dex_name@, texts(found@));
    let mut i: usize = 0;
    assert(views(out@) =~= before + added.take(0));
    while i < found.len()
        invariant
            i <= found.len(),
            added == placed(dex_name@, texts(found@)),
            views(out@) == before + added.take(i as int),
        decreases found.len() - i,
    {
        let ghost earlier = out@;
        out.push(ApkClassInfo { dex_name: dex_name.to_owned(), descriptor: found[i].clone() });
        proof {
            assert(views(out@) =~= views(earlier).push(added[i as int]));
            assert(added.take(i + 1) =~= added.take(i as int).push(added[i as int]));
            assert(views(out@) =~= before + added.take(i + 1));
        }
        i += 1;
    }
    assert(added.take(i as int) =~= added);
}

/// The classes that one entry lists, or its fault.
pub type EntryClasses = Result<Vec<ApkClassInfo>, Error>;

/// The classes behind those listed so far, in the entries from `i` on, or the
/// first fault.
pub open spec fn listings_from(batches: Seq<EntryClasses>, i: int, classes: Seq<ClassPlace>) -> Result<
    Seq<ClassPlace>,
    Error,
>
    decreases batches.len() - i,
{
    if i >= batches.len() {
        Ok(classes)
    } else {
        match batches[i] {
            Err(e) => Err(e),
            Ok(listed) => listings_from(batches, i + 1, classes + views(listed@)),
        }
    }
}

/// Puts the classes of all entries together, in the order of the entries.
pub fn merge_listings(batches: Vec<EntryClasses>) -> (r: Result<Vec<ApkClassInfo>, Error>)
    ensures
        match r {
            Ok(v) => {
                &&& listings_from(batches@, 0, Seq::empty()) == Ok::<Seq<ClassPlace>, Error>(
                    views(v@),
                )
                &&& forall|i: int| 0 <= i < batches@.len() ==> (#[trigger] batches@[i]) is Ok
            },
            Err(e) => listings_from(batches@, 0, Seq::empty()) == Err::<Seq<ClassPlace>, Error>(e),
        },
{
    let ghost all = batches@;
    let mut rest = batches;
    let mut classes: Vec<ApkClassInfo> = Vec::new();
    let ghost mut i: int = 0;
    assert(views(classes@) =~= Seq::<ClassPlace>::empty());
    assert(rest@ =~= all.skip(0));
    while rest.len() > 0
        invariant
            0 <= i <= all.len(),
            rest@ == all.skip(i),
            all == batches@,
            forall|k: int| 0 <= k < i ==> (#[trigger] all[k]) is Ok,
            listings_from(all, 0, Seq::empty()) == listings_from(all, i, views(classes@)),
        decreases rest.len(),
    {
        let ghost before = classes@;
        assert(all.skip(i)[0] == all[i]);
        let batch = rest.remove(0);
        assert(rest@ =~= all.skip(i + 1));
        let mut listed = batch?;
        let ghost added = listed@;
        classes.append(&mut listed);
        proof {
            assert(classes@ == before + added);
            assert(views(classes@) =~= views(before) + views(added));
            i = i + 1;
        }
    }
    Ok(classes)
}

/// An entry of a package: its name and its bytes.
pub struct NamedBytes {
    pub name: Seq<char>,
    pub data: Seq<u8>,
}

/// The classes of the first `n` entries of a package, in the order of the
/// entries.
pub open spec fn package_classes(entries: Seq<NamedBytes>, n: nat) -> Seq<ClassPlace>
    decreases n,
{
    if n == 0 {
        Seq::empty()
    } else {
        let last = entries[n - 1];
        package_classes(entries, (n - 1) as nat) + entry_classes(last.name, last.data)->Ok_0
    }
}

/// Whether a listing is what `list_entry_classes` gives for an entry.
pub open spec fn lists_entry(outcome: EntryClasses, entry: NamedBytes) -> bool {
    match outcome {
        Ok(v) => entry_classes(entry.name, entry.data) == Ok::<Seq<ClassPlace>, Error>(views(v@)),
        Err(e) => entry_classes(entry.name, entry.data) == Err::<Seq<ClassPlace>, Error>(e),
    }
}

/// The listing of a package is that of its entries one behind the other:
/// nothing is sorted, dropped or merged. It fails exactly where an entry cannot
/// be listed, with the fault of the first such entry.
pub proof fn lemma_package_listing(batches: Seq<EntryClasses>, entries: Seq<NamedBytes>)
    requires
        batches.len() == entries.len(),
        forall|i: int| 0 <= i < entries.len() ==> lists_entry(#[trigger] batches[i], entries[i]),
    ensures
        (forall|i: int|
            0 <= i < entries.len() ==> entry_classes(
                (#[trigger] entries[i]).name,
                entries[i].data,
            ) is Ok) ==> listings_from(batches, 0, Seq::empty()) == Ok::<Seq<ClassPlace>, Error>(
            package_classes(entries, entries.len()),
        ),
        forall|i: int|
            0 <= i < entries.len() && (forall|k: int|
                0 <= k < i ==> entry_classes((#[trigger] entries[k]).name, entries[k].data) is Ok)
                && entry_classes((#[trigger] entries[i]).name, entries[i].data) is Err
                ==> listings_from(batches, 0, Seq::empty()) == Err::<Seq<ClassPlace>, Error>(
                entry_classes(entries[i].name, entries[i].data)->Err_0,
            ),
{
    if forall|i: int|
        0 <= i < entries.len() ==> entry_classes(
            (#[trigger] entries[i]).name,
            entries[i].data,
        ) is Ok {
        lemma_listed_so_far(batches, entries, entries.len());
    }
    assert forall|i: int|
        0 <= i < entries.len() && (forall|k: int|
            0 <= k < i ==> entry_classes((#[trigger] entries[k]).name, entries[k].data) is Ok)
            && entry_classes((#[trigger] entries[i]).name, entries[i].data) is Err implies listings_from(
        batches,
        0,
        Seq::empty(),
    ) == Err::<Seq<ClassPlace>, Error>(entry_classes(entries[i].name, entries[i].data)->Err_0) by {
        lemma_listed_so_far(batches, entries, i as nat);
        assert(lists_entry(batches[i], entries[i]));
    }
}

proof fn lemma_listed_so_far(batches: Seq<EntryClasses>, entries: Seq<NamedBytes>, n: nat)
    requires
        batches.len() == entries.len(),
        n <= entries.len(),
        forall|i: int| 0 <= i < entries.len() ==> lists_entry(#[trigger] batches[i], entries[i]),
        forall|k: int|
            0 <= k < n ==> entry_classes((#[trigger] entries[k]).name, entries[k].data) is Ok,
    ensures
        listings_from(batches, 0, Seq::empty()) == listings_from(
            batches,
            n as int,
            package_classes(entries, n),
        ),
    decreases n,
{
    if n > 0 {
        lemma_listed_so_far(batches, entries, (n - 1) as nat);
        assert(lists_entry(batches[n - 1], entries[n - 1]));
        assert(entry_classes(entries[n - 1].name, entries[n - 1].data) is Ok);
    }
}

} // verus!
