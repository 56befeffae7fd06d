//! Text output: listings, hex dumps and reference lines.
pub mod callers;
pub mod lists;
pub mod rows;

use vstd::prelude::*;
use vstd::utf8::{decode_utf8, valid_utf8};

use crate::apk::{ApkClassInfo, ApkEntryInfo, ClassPlace, EntryMeta};
use crate::collections::views;
use crate::dex::queries::{lemma_named_class_matches, names_class};
use crate::dex::{DexContents, MemberQuery, Query};
use crate::error::Error;
use crate::minidex::canonical::picked;
use crate::order::{
    lemma_sort_order, less_from, lex_less, lists, positions, sort_order, sorted_indices,
};
use crate::render::callers::{lemma_lines_by_caller, lists_callers, CallerTargets};
use crate::service::source::text_from_utf8;
use crate::service::{Location, ReferenceLocation, StringReferenceGroup};
use crate::text::{
    chars_of, contains_text, decimal, hexadecimal, occurs, push_char, push_decimal, push_hex,
    push_text, replace_in, replaced, same_text, texts, zero_filled,
};
use crate::{class_descriptor, format_class_name};

verus! {

// ---------------------------------------------------------------------------
// Bytes
// ---------------------------------------------------------------------------

/// How the bytes of an entry are shown.
#[derive(Debug, Clone, Copy, PartialEq, Eq, Structural)]
pub enum EntryEncodingArg {
    Utf8,
    Hex,
    Raw,
}

impl EntryEncodingArg {
    pub open spec fn title(self) -> Seq<char> {
        match self {
            EntryEncodingArg::Utf8 => "utf8"@,
            EntryEncodingArg::Hex => "hex"@,
            EntryEncodingArg::Raw => "raw"@,
        }
    }

    pub fn label(self) -> (r: &'static str)
        ensures
            r@ == self.title(),
    {
        match self {
            EntryEncodingArg::Utf8 => "utf8",
            EntryEncodingArg::Hex => "hex",
            EntryEncodingArg::Raw => "raw",
        }
    }

    /// Refuses raw bytes where they cannot go: into structured output, or onto
    /// a terminal.
    pub fn check_output(self, json: bool, to_file: bool) -> (r: Result<(), Error>)
        ensures
            r == if self != EntryEncodingArg::Raw {
                Ok::<(), Error>(())
            } else if json {
                Err::<(), Error>(Error::RawWithJson)
            } else if !to_file {
                Err::<(), Error>(Error::RawWithoutOutput)
            } else {
                Ok::<(), Error>(())
            },
    {
        if self == EntryEncodingArg::Raw {
            if json {
                return Err(Error::RawWithJson);
            }
            if !to_file {
                return Err(Error::RawWithoutOutput);
            }
        }
        Ok(())
    }
}

/// The sixteen columns of a row, up to column `n`.
pub open spec fn columns(row: Seq<u8>, n: nat) -> Seq<char>
    decreases n,
{
    if n == 0 {
        Seq::empty()
    } else {
        let column = n - 1;
        columns(row, (n - 1) as nat) + (if column < row.len() {
            zero_filled(hexadecimal(row[column] as nat), 2) + " "@
        } else {
            "   "@
        }) + (if column == 7 {
            " "@
        } else {
            Seq::empty()
        })
    }
}

/// A byte as a character, where it is a visible one or a space, and else a dot.
pub open spec fn shown(byte: u8) -> char {
    if 0x20 <= byte <= 0x7e {
        byte as char
    } else {
        '.'
    }
}

pub open spec fn shown_row(row: Seq<u8>) -> Seq<char> {
    row.map_values(|b: u8| shown(b))
}

/// One row of a hex dump.
pub open spec fn row_text(address: u64, row: Seq<u8>) -> Seq<char> {
    zero_filled(hexadecimal(address as nat), 8) + "  "@ + columns(row, 16) + " | "@ + shown_row(row)
}

/// Row `index` of some bytes.
pub open spec fn row_of(data: Seq<u8>, index: int) -> Seq<u8> {
    data.subrange(
        index * 16,
        if index * 16 + 16 <= data.len() {
            index * 16 + 16
        } else {
            data.len() as int
        },
    )
}

/// The address of row `index`; addresses stop at the largest number.
pub open spec fn row_address(base: u64, index: int) -> u64 {
    if base + index * 16 > u64::MAX {
        u64::MAX
    } else {
        (base + index * 16) as u64
    }
}

/// The first `n` rows of a hex dump.
pub open spec fn dump(data: Seq<u8>, base: u64, n: nat) -> Seq<char>
    decreases n,
{
    if n == 0 {
        Seq::empty()
    } else {
        let row = row_text(row_address(base, n - 1), row_of(data, n - 1));
        if n == 1 {
            row
        } else {
            dump(data, base, (n - 1) as nat) + "\n"@ + row
        }
    }
}

/// How many rows some bytes fill.
pub open spec fn row_count(len: int) -> nat {
    ((len + 15) / 16) as nat
}

/// Bytes as text.
pub open spec fn rendered(data: Seq<u8>, base: u64, encoding: EntryEncodingArg) -> Result<
    Seq<char>,
    Error,
> {
    match encoding {
        EntryEncodingArg::Hex => Ok(dump(data, base, row_count(data.len() as int))),
        _ => if valid_utf8(data) {
            Ok(decode_utf8(data))
        } else {
            Err(Error::NotUtf8)
        },
    }
}

fn shown_char(byte: u8) -> (r: char)
    ensures
        r == shown(byte),
{
    if 0x20 <= byte && byte <= 0x7e {
        match char::from_u32(byte as u32) {
            Some(c) => c,
            None => '.',
        }
    } else {
        '.'
    }
}

fn push_columns(out: &mut String, row: &[u8])
    ensures
        final(out)@ == old(out)@ + columns(row@, 16),
{
    let ghost before = out@;
    let mut column: usize = 0;
    assert(out@ =~= before + columns(row@, 0));
    while column < 16
        invariant
            column <= 16,
            out@ == before + columns(row@, column as nat),
        decreases 16 - column,
    {
        let ghost line = out@;
        if column < row.len() {
            push_hex(out, row[column] as u64, 2);
            push_text(out, " ");
        } else {
            push_text(out, "   ");
        }
        if column == 7 {
            push_text(out, " ");
        }
        assert(out@ =~= before + columns(row@, column as nat + 1));
        column += 1;
    }
}

fn push_row(out: &mut String, address: u64, row: &[u8])
    ensures
        final(out)@ == old(out)@ + row_text(address, row@),
{
    let ghost before = out@;
    push_hex(out, address, 8);
    push_text(out, "  ");
    push_columns(out, row);
    push_text(out, " | ");
    let ghost line = out@;
    let ghost all = shown_row(row@);
    let mut i: usize = 0;
    assert(out@ =~= line + all.take(0));
    while i < row.len()
        invariant
            i <= row.len(),
            all == shown_row(row@),
            out@ == line + all.take(i as int),
        decreases row.len() - i,
    {
        push_char(out, shown_char(row[i]));
        i += 1;
        assert(all.take(i as int) =~= all.take(i - 1).push(all[i - 1]));
        assert(out@ =~= line + all.take(i as int));
    }
    assert(all.take(i as int) =~= all);
    assert(out@ =~= before + row_text(address, row@));
}

fn hex_dump(data: &[u8], base_offset: u64) -> (r: String)
    ensures
        r@ == dump(data@, base_offset, row_count(data@.len() as int)),
{
    let len: usize = data.len();
    let mut out: String = String::new();
    let mut from: usize = 0;
    let ghost mut index: nat = 0;
    while from < len
        invariant
            len == data@.len(),
            from == index * 16 || (from == len && index == row_count(len as int)),
            from <= len,
            index <= row_count(len as int),
            from < len ==> from == index * 16,
            from == len ==> index == row_count(len as int),
            out@ == dump(data@, base_offset, index),
        decreases len - from,
    {
        let ghost before = out@;
        if from > 0 {
            push_text(&mut out, "\n");
        }
        let to: usize = if len - from >= 16 {
            from + 16
        } else {
            len
        };
        let address: u64 = base_offset.saturating_add(from as u64);
        let row = vstd::slice::slice_subrange(data, from, to);
        assert(row@ =~= row_of(data@, index as int));
        assert(address == row_address(base_offset, index as int));
        push_row(&mut out, address, row);
        proof {
            if index == 0 {
                assert(out@ =~= dump(data@, base_offset, 1));
            } else {
                assert(out@ =~= dump(data@, base_offset, index + 1));
            }
            index = index + 1;
        }
        from = to;
    }
    out
}

/// Shows the bytes of an entry, whose first one stands at `base_offset`.
pub fn render_entry_bytes(data: &[u8], base_offset: u64, encoding: EntryEncodingArg) -> (r: Result<
    String,
    Error,
>)
    requires
        encoding != EntryEncodingArg::Raw,
    ensures
        match r {
            Ok(s) => rendered(data@, base_offset, encoding) == Ok::<Seq<char>, Error>(s@),
            Err(e) => rendered(data@, base_offset, encoding) == Err::<Seq<char>, Error>(e),
        },
{
    match encoding {
        EntryEncodingArg::Hex => Ok(hex_dump(data, base_offset)),
        _ => {
            let mut bytes: Vec<u8> = Vec::new();
            bytes.extend_from_slice(data);
            assert(bytes@ =~= data@);
            match text_from_utf8(bytes) {
                Some(text) => Ok(text),
                None => Err(Error::NotUtf8),
            }
        },
    }
}

// ---------------------------------------------------------------------------
// Lines
// ---------------------------------------------------------------------------

/// Lines with a separator between them.
pub open spec fn joined(lines: Seq<Seq<char>>, separator: Seq<char>, n: nat) -> Seq<char>
    decreases n,
{
    if n == 0 {
        Seq::empty()
    } else if n == 1 {
        lines[0]
    } else {
        joined(lines, separator, (n - 1) as nat) + separator + lines[n - 1]
    }
}

pub fn join(lines: &Vec<String>, separator: &str) -> (r: String)
    ensures
        r@ == joined(texts(lines@), separator@, lines@.len()),
{
    let mut out: String = String::new();
    let mut i: usize = 0;
    while i < lines.len()
        invariant
            i <= lines.len(),
            out@ == joined(texts(lines@), separator@, i as nat),
        decreases lines.len() - i,
    {
        assert(texts(lines@)[i as int] == lines@[i as int]@);
        if i > 0 {
            push_text(&mut out, separator);
        }
        push_text(&mut out, lines[i].as_str());
        assert(out@ =~= joined(texts(lines@), separator@, i as nat + 1));
        i += 1;
    }
    out
}

/// Lines as the text of a reference listing: each ends with a line break.
pub open spec fn listing(lines: Seq<Seq<char>>) -> Seq<char> {
    if lines.len() == 0 {
        Seq::empty()
    } else {
        joined(lines, "\n"@, lines.len()) + "\n"@
    }
}

pub fn reference_text(lines: &Vec<String>) -> (r: String)
    ensures
        r@ == listing(texts(lines@)),
{
    if lines.len() == 0 {
        let out: String = String::new();
        assert(out@ =~= listing(texts(lines@)));
        return out;
    }
    let mut out = join(lines, "\n");
    push_text(&mut out, "\n");
    out
}

/// Whether printed text needs a line break behind it.
pub fn needs_line_break(text: &str) -> (r: bool)
    ensures
        r == (text@.len() > 0 && text@.last() != '\n'),
{
    let chars = chars_of(text);
    chars.len() > 0 && chars[chars.len() - 1] != '\n'
}

// ---------------------------------------------------------------------------
// Entries and classes
// ---------------------------------------------------------------------------

/// Whether a name passes an optional filter.
pub open spec fn passes(filter: Option<Seq<char>>, name: Seq<char>) -> bool {
    match filter {
        None => true,
        Some(part) => occurs(name, part),
    }
}

/// The text of an optional string.
pub open spec fn optional_text(s: Option<String>) -> Option<Seq<char>> {
    match s {
        Some(t) => Some(t@),
        None => None,
    }
}

/// An entry as a line.
pub open spec fn entry_line(entry: EntryMeta) -> Seq<char> {
    entry.name + " | compressed="@ + decimal(entry.compressed_size as nat) + " uncompressed="@
        + decimal(entry.uncompressed_size as nat) + (if entry.is_directory {
        " directory"@
    } else {
        Seq::empty()
    })
}

/// The entries among the first `n` whose names pass a filter.
pub open spec fn passing_entries(entries: Seq<EntryMeta>, filter: Option<Seq<char>>, n: nat) -> Seq<
    EntryMeta,
>
    decreases n,
{
    if n == 0 {
        Seq::empty()
    } else if passes(filter, entries[n - 1].name) {
        passing_entries(entries, filter, (n - 1) as nat).push(entries[n - 1])
    } else {
        passing_entries(entries, filter, (n - 1) as nat)
    }
}

fn passes_filter(filter: &Option<String>, name: &str) -> (r: bool)
    ensures
        r == passes(optional_text(*filter), name@),
{
    match filter {
        None => true,
        Some(part) => contains_text(name, part.as_str()),
    }
}

/// Keeps the entries whose names contain a text.
pub fn filter_entries(entries: &Vec<ApkEntryInfo>, filter: &Option<String>) -> (r: Vec<
    ApkEntryInfo,
>)
    ensures
        views(r@) == passing_entries(views(entries@), optional_text(*filter), entries@.len()),
{
    let ghost all = views(entries@);
    let ghost wanted = optional_text(*filter);
    let mut out: Vec<ApkEntryInfo> = Vec::new();
    let mut i: usize = 0;
    assert(views(out@) =~= Seq::<EntryMeta>::empty());
    while i < entries.len()
        invariant
            i <= entries.len(),
            all == views(entries@),
            wanted == optional_text(*filter),
            views(out@) == passing_entries(all, wanted, i as nat),
        decreases entries.len() - i,
    {
        let entry = &entries[i];
        let ghost before = out@;
        assert(all[i as int] == entry@);
        if passes_filter(filter, entry.name.as_str()) {
            out.push(
                ApkEntryInfo {
                    name: entry.name.clone(),
                    compressed_size: entry.compressed_size,
                    uncompressed_size: entry.uncompressed_size,
                    is_directory: entry.is_directory,
                },
            );
            assert(views(out@) =~= views(before).push(all[i as int]));
        }
        i += 1;
    }
    out
}

pub open spec fn entry_lines(entries: Seq<EntryMeta>) -> Seq<Seq<char>> {
    entries.map_values(|e: EntryMeta| entry_line(e))
}

/// Entries as text, one line for each.
pub fn entries_text(entries: &Vec<ApkEntryInfo>) -> (r: String)
    ensures
        r@ == joined(entry_lines(views(entries@)), "\n"@, entries@.len()),
{
    let mut lines: Vec<String> = Vec::new();
    let mut i: usize = 0;
    while i < entries.len()
        invariant
            i <= entries.len(),
            lines.len() == i,
            forall|j: int| 0 <= j < i ==> (#[trigger] lines@[j])@ == entry_line(entries@[j]@),
        decreases entries.len() - i,
    {
        let entry = &entries[i];
        let mut line: String = String::new();
        push_text(&mut line, entry.name.as_str());
        push_text(&mut line, " | compressed=");
        push_decimal(&mut line, entry.compressed_size);
        push_text(&mut line, " uncompressed=");
        push_decimal(&mut line, entry.uncompressed_size);
        if entry.is_directory {
            push_text(&mut line, " directory");
        }
        assert(line@ =~= entry_line(entries@[i as int]@));
        lines.push(line);
        i += 1;
    }
    assert(texts(lines@) =~= entry_lines(views(entries@)));
    join(&lines, "\n")
}

/// A class as a line.
pub open spec fn class_line(class: ClassPlace) -> Seq<char> {
    class.dex_name + " | "@ + class.descriptor
}

/// The classes among the first `n` whose descriptors pass a filter.
pub open spec fn passing_classes(
    classes: Seq<ClassPlace>,
    filter: Option<Seq<char>>,
    n: nat,
) -> Seq<ClassPlace>
    decreases n,
{
    if n == 0 {
        Seq::empty()
    } else if passes(filter, classes[n - 1].descriptor) {
        passing_classes(classes, filter, (n - 1) as nat).push(classes[n - 1])
    } else {
        passing_classes(classes, filter, (n - 1) as nat)
    }
}

/// A class filter in descriptor notation: dots become slashes.
pub open spec fn class_filter(filter: Option<String>) -> Option<Seq<char>> {
    match filter {
        Some(part) => Some(replaced(part@, '.', '/')),
        None => None,
    }
}

/// Keeps the classes whose descriptors contain a text, in either notation.
pub fn filter_classes(classes: &Vec<ApkClassInfo>, filter: &Option<String>) -> (r: Vec<
    ApkClassInfo,
>)
    ensures
        views(r@) == passing_classes(views(classes@), class_filter(*filter), classes@.len()),
{
    let normalized: Option<String> = match filter {
        Some(part) => Some(replace_in(part.as_str(), '.', '/')),
        None => None,
    };
    let ghost all = views(classes@);
    let ghost wanted = class_filter(*filter);
    assert(optional_text(normalized) == wanted);
    let mut out: Vec<ApkClassInfo> = Vec::new();
    let mut i: usize = 0;
    assert(views(out@) =~= Seq::<ClassPlace>::empty());
    while i < classes.len()
        invariant
            i <= classes.len(),
            all == views(classes@),
            optional_text(normalized) == wanted,
            views(out@) == passing_classes(all, wanted, i as nat),
        decreases classes.len() - i,
    {
        let class = &classes[i];
        let ghost before = out@;
        assert(all[i as int] == class@);
        if passes_filter(&normalized, class.descriptor.as_str()) {
            out.push(
                ApkClassInfo {
                    dex_name: class.dex_name.clone(),
                    descriptor: class.descriptor.clone(),
                },
            );
            assert(views(out@) =~= views(before).push(all[i as int]));
        }
        i += 1;
    }
    out
}

pub open spec fn class_lines(classes: Seq<ClassPlace>) -> Seq<Seq<char>> {
    classes.map_values(|c: ClassPlace| class_line(c))
}

/// Classes as text, one line for each.
pub fn classes_text(classes: &Vec<ApkClassInfo>) -> (r: String)
    ensures
        r@ == joined(class_lines(views(classes@)), "\n"@, classes@.len()),
{
    let mut lines: Vec<String> = Vec::new();
    let mut i: usize = 0;
    while i < classes.len()
        invariant
            i <= classes.len(),
            lines.len() == i,
            forall|j: int| 0 <= j < i ==> (#[trigger] lines@[j])@ == class_line(classes@[j]@),
        decreases classes.len() - i,
    {
        let mut line: String = String::new();
        push_text(&mut line, classes[i].dex_name.as_str());
        push_text(&mut line, " | ");
        push_text(&mut line, classes[i].descriptor.as_str());
        assert(line@ =~= class_line(classes@[i as int]@));
        lines.push(line);
        i += 1;
    }
    assert(texts(lines@) =~= class_lines(views(classes@)));
    join(&lines, "\n")
}

// ---------------------------------------------------------------------------
// References
// ---------------------------------------------------------------------------

/// A text as part of a longer sort key: no text is the start of another.
pub open spec fn tagged(text: Seq<char>) -> Seq<u32> {
    text.map_values(|c: char| (c as u32 + 1) as u32).push(0)
}

/// References order by DEX file, caller number, caller and target.
pub open spec fn reference_key(l: Location) -> Seq<u32> {
    tagged(l.dex_name) + seq![l.caller_index] + tagged(l.caller_method) + tagged(l.target_symbol)
}

pub open spec fn reference_keys(references: Seq<Location>) -> Seq<Seq<u32>> {
    references.map_values(|l: Location| reference_key(l))
}

/// References in their order.
pub open spec fn sorted_references(references: Seq<Location>) -> Seq<Location> {
    picked(references, sort_order(reference_keys(references), references.len()))
}

pub open spec fn same_caller(a: Location, b: Location) -> bool {
    a.dex_name == b.dex_name && a.caller_index == b.caller_index && a.caller_method
        == b.caller_method
}

/// The lines of the first `n` sorted references, each still without its end:
/// a caller has one line, which names each of its targets once.
pub open spec fn open_lines(sorted: Seq<Location>, n: nat) -> Seq<Seq<char>>
    decreases n,
{
    if n == 0 {
        Seq::empty()
    } else {
        let lines = open_lines(sorted, (n - 1) as nat);
        let l = sorted[n - 1];
        if n > 1 && same_caller(sorted[n - 2], l) {
            if sorted[n - 2].target_symbol == l.target_symbol {
                lines
            } else {
                lines.drop_last().push(lines.last() + "; "@ + l.target_symbol)
            }
        } else {
            lines.push(l.dex_name + " | "@ + l.caller_method + " | matched=("@ + l.target_symbol)
        }
    }
}

/// References as lines, one for each caller.
pub open spec fn lines_of(references: Seq<Location>) -> Seq<Seq<char>> {
    open_lines(sorted_references(references), references.len()).map_values(
        |line: Seq<char>| line + ")"@,
    )
}

fn push_tagged(key: &mut Vec<u32>, text: &str)
    ensures
        final(key)@ == old(key)@ + tagged(text@),
{
    let ghost before = key@;
    for c in it: text.chars()
        invariant
            it.seq() == text@,
            key@.len() == before.len() + it.index(),
            key@.take(before.len() as int) == before,
            forall|j: int|
                0 <= j < it.index() ==> #[trigger] key@[before.len() + j] == (it.seq()[j] as u32
                    + 1) as u32,
    {
        let v: u32 = c as u32;
        let ghost now = key@;
        proof {
            vstd::utf8::char_is_scalar(c);
        }
        key.push(v + 1);
        assert(key@.take(before.len() as int) =~= now.take(before.len() as int));
    }
    key.push(0);
    assert(key@ =~= before + tagged(text@)) by {
        let t = tagged(text@);
        assert forall|i: int| 0 <= i < key@.len() implies key@[i] == (before + t)[i] by {
            if i < before.len() {
                assert(key@.take(before.len() as int)[i] == key@[i]);
            } else if i < before.len() + text@.len() {
                assert(key@[before.len() + (i - before.len())] == (text@[i - before.len()] as u32
                    + 1) as u32);
            }
        }
    }
}

fn sort_references(references: &[ReferenceLocation]) -> (r: Vec<usize>)
    ensures
        positions(r@) == sort_order(reference_keys(views(references@)), references@.len()),
{
    let mut keys: Vec<Vec<u32>> = Vec::new();
    let mut i: usize = 0;
    while i < references.len()
        invariant
            i <= references.len(),
            keys.len() == i,
            forall|j: int| 0 <= j < i ==> (#[trigger] keys@[j])@ == reference_key(references@[j]@),
        decreases references.len() - i,
    {
        let l = &references[i];
        let mut key: Vec<u32> = Vec::new();
        push_tagged(&mut key, l.dex_name.as_str());
        key.push(l.caller_index);
        push_tagged(&mut key, l.caller_method.as_str());
        push_tagged(&mut key, l.target_symbol.as_str());
        assert(key@ =~= reference_key(references@[i as int]@));
        keys.push(key);
        i += 1;
    }
    assert(lists(keys@) =~= reference_keys(views(references@)));
    sorted_indices(&keys)
}

/// Groups references by caller: one line for each, with its targets.
pub fn reference_lines(references: &[ReferenceLocation]) -> (r: Vec<String>)
    ensures
        texts(r@) == lines_of(views(references@)),
        exists|callers: Seq<CallerTargets>|
            lists_callers(views(references@), texts(r@), callers),
{
    proof {
        lemma_lines_by_caller(views(references@));
    }
    let order = sort_references(references);
    let ghost all = views(references@);
    let ghost sorted = sorted_references(all);
    let ghost walk = positions(order@);
    proof {
        lemma_sort_order(reference_keys(all), all.len());
    }
    let mut lines: Vec<String> = Vec::new();
    let mut i: usize = 0;
    assert(texts(lines@) =~= open_lines(sorted, 0));
    while i < order.len()
        invariant
            i <= order.len(),
            all == views(references@),
            walk == positions(order@),
            walk.len() == all.len(),
            walk == sort_order(reference_keys(all), all.len()),
            sorted == sorted_references(all),
            forall|j: int| 0 <= j < walk.len() ==> 0 <= #[trigger] walk[j] < all.len(),
            texts(lines@) == open_lines(sorted, i as nat),
            i > 0 ==> lines@.len() > 0,
        decreases order.len() - i,
    {
        let ghost before = lines@;
        assert(walk[i as int] == order@[i as int]);
        let l = &references[order[i]];
        assert(sorted[i as int] == l@);
        let mut same: bool = false;
        let mut repeated: bool = false;
        if i > 0 {
            assert(walk[i - 1] == order@[i - 1]);
            let last = &references[order[i - 1]];
            assert(sorted[i - 1] == last@);
            same = same_text(last.dex_name.as_str(), l.dex_name.as_str()) && last.caller_index
                == l.caller_index && same_text(
                last.caller_method.as_str(),
                l.caller_method.as_str(),
            );
            repeated = same_text(last.target_symbol.as_str(), l.target_symbol.as_str());
        }
        if !same {
            let mut line: String = String::new();
            push_text(&mut line, l.dex_name.as_str());
            push_text(&mut line, " | ");
            push_text(&mut line, l.caller_method.as_str());
            push_text(&mut line, " | matched=(");
            push_text(&mut line, l.target_symbol.as_str());
            assert(line@ =~= l@.dex_name + " | "@ + l@.caller_method + " | matched=("@
                + l@.target_symbol);
            lines.push(line);
            assert(texts(lines@) =~= open_lines(sorted, i as nat + 1));
        } else if !repeated {
            match lines.pop() {
                Some(mut line) => {
                    let ghost start = line@;
                    assert(texts(before).last() == start);
                    assert(texts(lines@) =~= texts(before).drop_last());
                    push_text(&mut line, "; ");
                    push_text(&mut line, l.target_symbol.as_str());
                    assert(line@ =~= start + "; "@ + l@.target_symbol);
                    let ghost shorter = lines@;
                    lines.push(line);
                    assert(texts(lines@) =~= texts(shorter).push(line@));
                },
                None => {},
            }
        }
        i += 1;
    }
    let mut out: Vec<String> = Vec::new();
    let mut k: usize = 0;
    while k < lines.len()
        invariant
            k <= lines.len(),
            out.len() == k,
            forall|j: int| 0 <= j < k ==> (#[trigger] out@[j])@ == texts(lines@)[j] + ")"@,
        decreases lines.len() - k,
    {
        let mut line: String = lines[k].clone();
        push_text(&mut line, ")");
        out.push(line);
        k += 1;
    }
    assert(texts(out@) =~= lines_of(all));
    out
}

// ---------------------------------------------------------------------------
// Batches
// ---------------------------------------------------------------------------

/// A text in quotes, with escapes, as the standard library shows it.
pub uninterp spec fn quoted_text(text: Seq<char>) -> Seq<char>;

/// Quotes a text, by the `Debug` form of `str` of the standard library. Which
/// characters it escapes is left to that library.
#[verifier::external_body]
fn quote(text: &str) -> (r: String)
    ensures
        r@ == quoted_text(text@),
{
    format!("{:?}", text)
}

/// A line of a batch: the quoted pattern before it.
pub open spec fn batch_line(quoted: Seq<char>, line: Seq<char>) -> Seq<char> {
    "query="@ + quoted + " | "@ + line
}

/// Lines behind a quoted pattern.
pub open spec fn batch_lines_of(quoted: Seq<char>, lines: Seq<Seq<char>>) -> Seq<Seq<char>> {
    lines.map_values(|line: Seq<char>| batch_line(quoted, line))
}

/// Puts a quoted pattern before each line.
pub fn label_lines(quoted: &str, lines: &Vec<String>) -> (r: Vec<String>)
    ensures
        texts(r@) == batch_lines_of(quoted@, texts(lines@)),
{
    let mut out: Vec<String> = Vec::new();
    let mut i: usize = 0;
    while i < lines.len()
        invariant
            i <= lines.len(),
            out.len() == i,
            forall|j: int|
                0 <= j < i ==> (#[trigger] out@[j])@ == batch_line(quoted@, texts(lines@)[j]),
        decreases lines.len() - i,
    {
        let mut line: String = String::new();
        push_text(&mut line, "query=");
        push_text(&mut line, quoted);
        push_text(&mut line, " | ");
        push_text(&mut line, lines[i].as_str());
        assert(line@ =~= batch_line(quoted@, texts(lines@)[i as int]));
        out.push(line);
        i += 1;
    }
    assert(texts(out@) =~= batch_lines_of(quoted@, texts(lines@)));
    out
}

/// The lines of the first `n` groups.
pub open spec fn group_lines(groups: Seq<StringReferenceGroup>, n: nat) -> Seq<Seq<char>>
    decreases n,
{
    if n == 0 {
        Seq::empty()
    } else {
        let g = groups[n - 1];
        group_lines(groups, (n - 1) as nat) + batch_lines_of(
            quoted_text(g.pattern@),
            lines_of(views(g.references@)),
        )
    }
}

/// The groups of a batch as lines.
pub fn batch_reference_lines(groups: &Vec<StringReferenceGroup>) -> (r: Vec<String>)
    ensures
        texts(r@) == group_lines(groups@, groups@.len()),
{
    let mut out: Vec<String> = Vec::new();
    let mut i: usize = 0;
    assert(texts(out@) =~= Seq::<Seq<char>>::empty());
    while i < groups.len()
        invariant
            i <= groups.len(),
            texts(out@) == group_lines(groups@, i as nat),
        decreases groups.len() - i,
    {
        let quoted = quote(groups[i].pattern.as_str());
        let lines = reference_lines(&groups[i].references);
        let mut labelled = label_lines(quoted.as_str(), &lines);
        let ghost before = out@;
        let ghost added = labelled@;
        out.append(&mut labelled);
        assert(texts(out@) =~= texts(before) + texts(added));
        i += 1;
    }
    out
}

/// How many references the first `n` groups hold.
pub open spec fn reference_count(groups: Seq<StringReferenceGroup>, n: nat) -> nat
    decreases n,
{
    if n == 0 {
        0
    } else {
        reference_count(groups, (n - 1) as nat) + groups[n - 1].references@.len()
    }
}

/// Counts the references of all groups.
pub fn count_references(groups: &Vec<StringReferenceGroup>) -> (r: usize)
    requires
        reference_count(groups@, groups@.len()) <= usize::MAX,
    ensures
        r == reference_count(groups@, groups@.len()),
{
    let mut n: usize = 0;
    let mut i: usize = 0;
    while i < groups.len()
        invariant
            i <= groups.len(),
            reference_count(groups@, groups@.len()) <= usize::MAX,
            n == reference_count(groups@, i as nat),
        decreases groups.len() - i,
    {
        proof {
            lemma_count_grows(groups@, i as nat + 1, groups@.len());
        }
        n += groups[i].references.len();
        i += 1;
    }
    n
}

proof fn lemma_count_grows(groups: Seq<StringReferenceGroup>, i: nat, n: nat)
    requires
        i <= n <= groups.len(),
    ensures
        reference_count(groups, i) <= reference_count(groups, n),
    decreases n - i,
{
    if i < n {
        lemma_count_grows(groups, i, (n - 1) as nat);
    }
}

// ---------------------------------------------------------------------------
// Queries
// ---------------------------------------------------------------------------

/// Whether an optional text is missing or empty.
pub open spec fn is_blank(s: Option<String>) -> bool {
    match s {
        Some(t) => t@.len() == 0,
        None => true,
    }
}

/// The class that a member query asks for.
pub open spec fn queried_class(class_name: Option<String>, fuzzy: bool) -> Result<
    Option<Seq<char>>,
    Error,
> {
    match class_name {
        None => Ok(None),
        Some(value) => if fuzzy {
            Ok(Some(replaced(value@, '.', '/')))
        } else {
            match class_descriptor(value@) {
                Err(e) => Err(e),
                Ok(d) => Ok(Some(d)),
            }
        },
    }
}

fn blank(s: &Option<String>) -> (r: bool)
    ensures
        r == is_blank(*s),
{
    match s {
        Some(t) => t.as_str().is_empty(),
        None => true,
    }
}

/// Makes a member query out of an optional name and an optional class, of which
/// at least one is needed.
pub fn member_query(name: Option<String>, class_name: Option<String>, fuzzy_class: bool) -> (r:
    Result<MemberQuery, Error>)
    ensures
        match r {
            Ok(q) => {
                &&& !(is_blank(name) && is_blank(class_name))
                &&& queried_class(class_name, fuzzy_class) == Ok::<Option<Seq<char>>, Error>(
                    optional_text(q.class),
                )
                &&& q.fuzzy_class == fuzzy_class
                &&& q.name == (if is_blank(name) {
                    None
                } else {
                    name
                })
            },
            Err(e) => if is_blank(name) && is_blank(class_name) {
                e == Error::EmptyMemberQuery
            } else {
                queried_class(class_name, fuzzy_class) == Err::<Option<Seq<char>>, Error>(e)
            },
        },
{
    if blank(&name) && blank(&class_name) {
        return Err(Error::EmptyMemberQuery);
    }
    let class: Option<String> = match class_name {
        Some(value) => {
            if fuzzy_class {
                Some(replace_in(value.as_str(), '.', '/'))
            } else {
                Some(format_class_name(value.as_str())?)
            }
        },
        None => None,
    };
    let kept: Option<String> = if blank(&name) {
        None
    } else {
        name
    };
    Ok(MemberQuery { class, fuzzy_class, name: kept })
}

/// Makes a type query; dots become slashes.
pub fn type_query(value: &str) -> (r: Query)
    ensures
        r matches Query::Type(s) && s@ == replaced(value@, '.', '/'),
        forall|d: DexContents, i: int|
            names_class(value@) && d.tables.strings[d.tables.types[i] as int] == class_descriptor(
                value@,
            )->Ok_0 ==> #[trigger] d.matches_query(r, i),
{
    let r = Query::Type(replace_in(value, '.', '/'));
    proof {
        assert forall|d: DexContents, i: int|
            names_class(value@) && d.tables.strings[d.tables.types[i] as int] == class_descriptor(
                value@,
            )->Ok_0 implies #[trigger] d.matches_query(r, i) by {
            lemma_named_class_matches(d, value@, r, i);
        }
    }
    r
}

// ---------------------------------------------------------------------------
// Laws
// ---------------------------------------------------------------------------

/// A text as a sort key of its own: its scalar values.
pub open spec fn scalars(text: Seq<char>) -> Seq<u32> {
    text.map_values(|c: char| c as u32)
}

proof fn lemma_tagged_from(a: Seq<char>, b: Seq<char>, x: Seq<u32>, y: Seq<u32>, i: int)
    requires
        0 <= i <= a.len(),
        i <= b.len(),
        forall|j: int| 0 <= j < i ==> a[j] == b[j],
    ensures
        less_from(tagged(a) + x, tagged(b) + y, i) == (less_from(scalars(a), scalars(b), i) || (a
            == b && lex_less(x, y))),
    decreases a.len() - i,
{
    let s = tagged(a) + x;
    let t = tagged(b) + y;
    if i < a.len() {
        vstd::utf8::char_is_scalar(a[i]);
    }
    if i < b.len() {
        vstd::utf8::char_is_scalar(b[i]);
    }
    if i < a.len() && i < b.len() {
        assert(s[i] == (a[i] as u32 + 1) as u32 && t[i] == (b[i] as u32 + 1) as u32);
        assert(scalars(a)[i] == a[i] as u32 && scalars(b)[i] == b[i] as u32);
        if a[i] == b[i] {
            lemma_tagged_from(a, b, x, y, i + 1);
        } else {
            vstd::utf8::char_u32_cast(a[i], a[i] as u32);
            vstd::utf8::char_u32_cast(b[i], b[i] as u32);
            assert(a != b);
        }
    } else if i == a.len() && i == b.len() {
        assert(a =~= b);
        assert(s[i] == 0 && t[i] == 0);
        lemma_less_shift(s, t, x, y, i + 1);
    } else if i == a.len() {
        assert(s[i] == 0 && t[i] == (b[i] as u32 + 1) as u32);
        assert(a.len() != b.len());
    } else {
        assert(t[i] == 0 && s[i] == (a[i] as u32 + 1) as u32);
        assert(a.len() != b.len());
    }
}

proof fn lemma_less_shift(s: Seq<u32>, t: Seq<u32>, x: Seq<u32>, y: Seq<u32>, n: int)
    requires
        n >= 0,
        s.len() == n + x.len(),
        t.len() == n + y.len(),
        forall|j: int| 0 <= j < x.len() ==> s[n + j] == x[j],
        forall|j: int| 0 <= j < y.len() ==> t[n + j] == y[j],
    ensures
        less_from(s, t, n) == lex_less(x, y),
{
    lemma_less_shift_from(s, t, x, y, n, 0);
}

proof fn lemma_less_shift_from(s: Seq<u32>, t: Seq<u32>, x: Seq<u32>, y: Seq<u32>, n: int, k: int)
    requires
        n >= 0,
        0 <= k,
        k <= x.len(),
        s.len() == n + x.len(),
        t.len() == n + y.len(),
        forall|j: int| 0 <= j < x.len() ==> s[n + j] == x[j],
        forall|j: int| 0 <= j < y.len() ==> t[n + j] == y[j],
    ensures
        less_from(s, t, n + k) == less_from(x, y, k),
    decreases x.len() - k,
{
    if k < x.len() && k < y.len() {
        assert(s[n + k] == x[k] && t[n + k] == y[k]);
        if x[k] == y[k] {
            lemma_less_shift_from(s, t, x, y, n, k + 1);
        }
    }
}

/// Keys that start with tagged texts compare those texts first, and what
/// follows only where the texts are equal.
pub proof fn lemma_tagged_order(a: Seq<char>, b: Seq<char>, x: Seq<u32>, y: Seq<u32>)
    ensures
        lex_less(tagged(a) + x, tagged(b) + y) == (lex_less(scalars(a), scalars(b)) || (a == b
            && lex_less(x, y))),
{
    lemma_tagged_from(a, b, x, y, 0);
}

} // verus!
