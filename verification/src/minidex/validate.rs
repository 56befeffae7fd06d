//! The structural invariants that Android runtimes and DEX tooling rely on.
use vstd::prelude::*;
use vstd::slice::slice_subrange;

use crate::dex_format::{
    bytes_at, bytes_in, le16, le32, string_key, string_sort_key, u16_at, u32_at, u32_in, DexHeader,
    FieldId, MethodId,
};
use crate::error::{Error, Table};
use crate::minidex::assemble::magic;
use crate::minidex::canonical::{string_keys, type_keys, widened};
use crate::minidex::digests::{adler32, adler32_of, sha1_digest, sha1_of};
use crate::minidex::reader::{DexTables, DexView};
use crate::order::{lemma_less_transitive, lex_less, list_less, lists};
use crate::results::{collect, lemma_collect_error};

verus! {

// ---------------------------------------------------------------------------
// What a valid file is
// ---------------------------------------------------------------------------

/// Whether key `i` comes before the key behind it.
pub open spec fn steps_up(keys: Seq<Seq<u32>>, i: int) -> bool {
    lex_less(keys[i], keys[i + 1])
}

/// Whether keys are strictly ascending.
pub open spec fn strictly_sorted(keys: Seq<Seq<u32>>) -> bool {
    forall|i: int| 0 <= i < keys.len() - 1 ==> #[trigger] steps_up(keys, i)
}

/// In strictly ascending keys, each comes before every later one.
pub proof fn lemma_strictly_sorted(keys: Seq<Seq<u32>>, i: int, j: int)
    requires
        strictly_sorted(keys),
        0 <= i < j < keys.len(),
    ensures
        lex_less(keys[i], keys[j]),
    decreases j - i,
{
    assert(steps_up(keys, j - 1));
    if i < j - 1 {
        lemma_strictly_sorted(keys, i, j - 1);
        lemma_less_transitive(keys[i], keys[j - 1], keys[j]);
    }
}

/// The first eight bytes name a version that extracted files have.
pub open spec fn known_version(data: Seq<u8>) -> bool {
    let head = data.subrange(0, 8);
    head == magic(35) || head == magic(38) || head == magic(39)
}

/// What is wrong with the size, the signature or the checksum, if anything.
pub open spec fn seal_fault(data: Seq<u8>) -> Option<Error> {
    if !known_version(data) {
        Some(Error::UnsupportedVersion)
    } else if le32(data, 0x20) != data.len() {
        Some(Error::FileSizeMismatch)
    } else if data.subrange(12, 32) != sha1_digest(data.skip(32))@ {
        Some(Error::BadSignature)
    } else if le32(data, 8) != adler32(data.skip(12)) {
        Some(Error::BadChecksum)
    } else {
        None
    }
}

/// What is wrong with the location of the data section or of the map, if
/// anything.
pub open spec fn place_fault(data: Seq<u8>) -> Option<Error> {
    let data_size = le32(data, 0x68);
    let data_off = le32(data, 0x6c);
    let map_off = le32(data, 0x34);
    if data_off < 0x70 || data_off > data.len() {
        Some(Error::BadDataOff)
    } else if data_off + data_size != data.len() {
        Some(Error::DataNotTail)
    } else if map_off < data_off || map_off >= data.len() || map_off % 4 != 0 {
        Some(Error::BadMapOffset)
    } else {
        None
    }
}

/// Walks the map items `i .. count`, which start at `at`: none is empty, no
/// type occurs twice, and the offsets ascend. The outcome is the types.
pub open spec fn map_types_from(
    data: Seq<u8>,
    at: int,
    i: int,
    count: int,
    seen: Seq<u16>,
    previous: Option<u32>,
) -> Result<Seq<u16>, Error>
    decreases count - i,
{
    if i >= count {
        Ok(seen)
    } else {
        let item = at + i * 12;
        let typ = le16(data, item);
        let size = le32(data, item + 4);
        let offset = le32(data, item + 8);
        if size == 0 {
            Err(Error::MapZero(i as u64))
        } else if seen.contains(typ) {
            Err(Error::MapDuplicate(typ))
        } else if previous is Some && previous->0 >= offset {
            Err(Error::MapOrder)
        } else {
            map_types_from(data, at, i + 1, count, seen.push(typ), Some(offset))
        }
    }
}

/// What is wrong with the map, if anything.
pub open spec fn map_fault(data: Seq<u8>) -> Option<Error> {
    let map_off = le32(data, 0x34) as int;
    match u32_in(data, map_off) {
        Err(e) => Some(e),
        Ok(count) => match bytes_in(data, map_off + 4, count * 12) {
            Err(e) => Some(e),
            Ok(_) => match map_types_from(data, map_off + 4, 0, count as int, Seq::empty(), None) {
                Err(e) => Some(e),
                Ok(types) => if types.contains(0x0000) && types.contains(0x0006) && types.contains(
                    0x1000,
                ) {
                    None
                } else {
                    Some(Error::MapMissing)
                },
            },
        },
    }
}

/// What is wrong with the place of one table, if anything: it ends before the
/// data section.
pub open spec fn overlap(table: Table, count: u32, offset: u32, width: int, data_off: int) -> Option<
    Error,
> {
    if count != 0 && offset + count * width > data_off {
        Some(Error::TableOverlaps(table))
    } else {
        None
    }
}

/// The first table that reaches into the data section.
pub open spec fn tables_fault(h: DexHeader, data_off: int) -> Option<Error> {
    let strings = overlap(Table::StringIds, h.string_ids_size, h.string_ids_off, 4, data_off);
    let types = overlap(Table::TypeIds, h.type_ids_size, h.type_ids_off, 4, data_off);
    let protos = overlap(Table::ProtoIds, h.proto_ids_size, h.proto_ids_off, 12, data_off);
    let fields = overlap(Table::FieldIds, h.field_ids_size, h.field_ids_off, 8, data_off);
    let methods = overlap(Table::MethodIds, h.method_ids_size, h.method_ids_off, 8, data_off);
    let classes = overlap(Table::ClassDefs, h.class_defs_size, h.class_defs_off, 32, data_off);
    if strings is Some {
        strings
    } else if types is Some {
        types
    } else if protos is Some {
        protos
    } else if fields is Some {
        fields
    } else if methods is Some {
        methods
    } else {
        classes
    }
}

/// What prototype `i` is ordered by: its return type and its parameters.
pub open spec fn proto_key_reader(dex: DexTables) -> spec_fn(int) -> Result<Seq<u32>, Error> {
    |i: int|
        match dex.type_list(dex.protos[i].parameters_off) {
            Err(e) => Err(e),
            Ok(params) => Ok(seq![dex.protos[i].return_type_idx] + widened(params)),
        }
}

pub open spec fn field_id_keys(fields: Seq<FieldId>) -> Seq<Seq<u32>> {
    fields.map_values(|f: FieldId| seq![f.class_idx as u32, f.name_idx, f.type_idx as u32])
}

pub open spec fn method_id_keys(methods: Seq<MethodId>) -> Seq<Seq<u32>> {
    methods.map_values(|m: MethodId| seq![m.class_idx as u32, m.name_idx, m.proto_idx as u32])
}

/// What is wrong with the order of the identifiers, if anything.
pub open spec fn order_fault(dex: DexTables) -> Option<Error> {
    if !strictly_sorted(string_keys(dex.strings)) {
        Some(Error::NotSorted(Table::StringIds))
    } else if !strictly_sorted(type_keys(dex.types)) {
        Some(Error::NotSorted(Table::TypeIds))
    } else {
        match collect(proto_key_reader(dex), dex.protos.len()) {
            Err(e) => Some(e),
            Ok(keys) => if !strictly_sorted(keys) {
                Some(Error::NotSorted(Table::ProtoIds))
            } else if !strictly_sorted(field_id_keys(dex.fields)) {
                Some(Error::NotSorted(Table::FieldIds))
            } else if !strictly_sorted(method_id_keys(dex.methods)) {
                Some(Error::NotSorted(Table::MethodIds))
            } else {
                None
            },
        }
    }
}

/// What is wrong with an extracted file, if anything.
#[verifier::opaque]
pub open spec fn dex_fault(data: Seq<u8>) -> Option<Error> {
    match DexHeader::header_in(data, 0) {
        Err(e) => Some(e),
        Ok(header) => {
            if seal_fault(data) is Some {
                seal_fault(data)
            } else if place_fault(data) is Some {
                place_fault(data)
            } else if map_fault(data) is Some {
                map_fault(data)
            } else if tables_fault(header, le32(data, 0x6c) as int) is Some {
                tables_fault(header, le32(data, 0x6c) as int)
            } else {
                match DexTables::tables_in(data, 0) {
                    Err(e) => Some(e),
                    Ok(dex) => order_fault(dex),
                }
            }
        },
    }
}

// ---------------------------------------------------------------------------
// Checking
// ---------------------------------------------------------------------------

/// What a check says about its outcome.
pub open spec fn checked(outcome: Result<(), Error>, fault: Option<Error>) -> bool {
    match outcome {
        Ok(_) => fault is None,
        Err(e) => fault == Some(e),
    }
}

fn check_version(data: &[u8]) -> (r: bool)
    requires
        data@.len() >= 0x70,
    ensures
        r == known_version(data@),
{
    let head = slice_subrange(data, 0, 8);
    let r: bool = head[0] == 0x64 && head[1] == 0x65 && head[2] == 0x78 && head[3] == 0x0a
        && head[4] == 0x30 && head[5] == 0x33 && (head[6] == 0x35 || head[6] == 0x38 || head[6]
        == 0x39) && head[7] == 0;
    proof {
        if r {
            if head@[6] == 0x35 {
                assert(head@ =~= magic(35));
            } else if head@[6] == 0x38 {
                assert(head@ =~= magic(38));
            } else {
                assert(head@ =~= magic(39));
            }
        }
    }
    r
}

/// Whether two byte strings are equal.
fn same_bytes(a: &[u8], b: &[u8]) -> (r: bool)
    ensures
        r == (a@ == b@),
{
    if a.len() != b.len() {
        return false;
    }
    let mut i: usize = 0;
    while i < a.len()
        invariant
            i <= a.len(),
            a@.len() == b@.len(),
            forall|j: int| 0 <= j < i ==> a@[j] == b@[j],
        decreases a.len() - i,
    {
        if a[i] != b[i] {
            return false;
        }
        i += 1;
    }
    assert(a@ =~= b@);
    true
}

fn check_seal(data: &[u8]) -> (r: Result<(), Error>)
    requires
        data@.len() >= 0x70,
    ensures
        checked(r, seal_fault(data@)),
{
    if !check_version(data) {
        return Err(Error::UnsupportedVersion);
    }
    let size: u32 = u32_at(data, 0x20)?;
    if size as u64 != data.len() as u64 {
        return Err(Error::FileSizeMismatch);
    }
    let body = slice_subrange(data, 32, data.len());
    assert(body@ =~= data@.skip(32));
    let signature = sha1_of(body);
    let stated = slice_subrange(data, 12, 32);
    if !same_bytes(stated, signature.as_slice()) {
        return Err(Error::BadSignature);
    }
    let signed = slice_subrange(data, 12, data.len());
    assert(signed@ =~= data@.skip(12));
    if u32_at(data, 8)? != adler32_of(signed) {
        return Err(Error::BadChecksum);
    }
    Ok(())
}

fn check_places(data: &[u8]) -> (r: Result<(), Error>)
    requires
        data@.len() >= 0x70,
    ensures
        checked(r, place_fault(data@)),
{
    let len: u64 = data.len() as u64;
    let data_size: u64 = u32_at(data, 0x68)? as u64;
    let data_off: u64 = u32_at(data, 0x6c)? as u64;
    if data_off < 0x70 || data_off > len {
        return Err(Error::BadDataOff);
    }
    if data_off + data_size != len {
        return Err(Error::DataNotTail);
    }
    let map_off: u64 = u32_at(data, 0x34)? as u64;
    if map_off < data_off || map_off >= len || map_off % 4 != 0 {
        return Err(Error::BadMapOffset);
    }
    Ok(())
}

/// Whether a type is among those seen.
fn has_type(seen: &Vec<u16>, typ: u16) -> (r: bool)
    ensures
        r == seen@.contains(typ),
{
    let mut i: usize = 0;
    while i < seen.len()
        invariant
            i <= seen.len(),
            forall|j: int| 0 <= j < i ==> seen@[j] != typ,
        decreases seen.len() - i,
    {
        if seen[i] == typ {
            assert(seen@[i as int] == typ);
            return true;
        }
        i += 1;
    }
    false
}

fn check_map(data: &[u8]) -> (r: Result<(), Error>)
    requires
        data@.len() >= 0x70,
    ensures
        checked(r, map_fault(data@)),
{
    let map_off: u64 = u32_at(data, 0x34)? as u64;
    let count: u64 = u32_at(data, map_off)? as u64;
    let at: u64 = map_off + 4;
    let _items = bytes_at(data, at, count * 12)?;
    let mut seen: Vec<u16> = Vec::new();
    let mut previous: Option<u32> = None;
    let mut i: u64 = 0;
    while i < count
        invariant
            i <= count <= u32::MAX,
            at == map_off + 4,
            map_off == le32(data@, 0x34),
            data@.len() >= 0x70,
            u32_in(data@, map_off as int) == Ok::<u32, Error>(count as u32),
            at + count * 12 <= data@.len(),
            map_types_from(data@, at as int, 0, count as int, Seq::empty(), None) == map_types_from(
                data@,
                at as int,
                i as int,
                count as int,
                seen@,
                previous,
            ),
        decreases count - i,
    {
        let item: u64 = at + i * 12;
        let typ: u16 = u16_at(data, item)?;
        let size: u32 = u32_at(data, item + 4)?;
        let offset: u32 = u32_at(data, item + 8)?;
        if size == 0 {
            return Err(Error::MapZero(i));
        }
        if has_type(&seen, typ) {
            return Err(Error::MapDuplicate(typ));
        }
        if let Some(before) = previous {
            if before >= offset {
                return Err(Error::MapOrder);
            }
        }
        seen.push(typ);
        previous = Some(offset);
        i += 1;
    }
    if has_type(&seen, 0x0000) && has_type(&seen, 0x0006) && has_type(&seen, 0x1000) {
        Ok(())
    } else {
        Err(Error::MapMissing)
    }
}

fn check_overlap(table: Table, count: u32, offset: u32, width: u64, data_off: u64) -> (r: Result<
    (),
    Error,
>)
    requires
        width <= 32,
    ensures
        checked(r, overlap(table, count, offset, width as int, data_off as int)),
{
    if count != 0 {
        assert(count * width <= 0xffff_ffff * 32) by (nonlinear_arith)
            requires
                count <= 0xffff_ffff,
                width <= 32,
        ;
        if offset as u64 + count as u64 * width > data_off {
            return Err(Error::TableOverlaps(table));
        }
    }
    Ok(())
}

fn check_tables(h: &DexHeader, data_off: u64) -> (r: Result<(), Error>)
    ensures
        checked(r, tables_fault(*h, data_off as int)),
{
    check_overlap(Table::StringIds, h.string_ids_size, h.string_ids_off, 4, data_off)?;
    check_overlap(Table::TypeIds, h.type_ids_size, h.type_ids_off, 4, data_off)?;
    check_overlap(Table::ProtoIds, h.proto_ids_size, h.proto_ids_off, 12, data_off)?;
    check_overlap(Table::FieldIds, h.field_ids_size, h.field_ids_off, 8, data_off)?;
    check_overlap(Table::MethodIds, h.method_ids_size, h.method_ids_off, 8, data_off)?;
    check_overlap(Table::ClassDefs, h.class_defs_size, h.class_defs_off, 32, data_off)
}

/// Whether keys are strictly ascending.
fn is_strictly_sorted(keys: &Vec<Vec<u32>>) -> (r: bool)
    ensures
        r == strictly_sorted(lists(keys@)),
{
    let ghost all = lists(keys@);
    let mut i: usize = 1;
    while i < keys.len()
        invariant
            1 <= i,
            i <= keys.len() || i == 1,
            all == lists(keys@),
            forall|j: int| 0 <= j < i - 1 ==> #[trigger] steps_up(all, j),
        decreases keys.len() - i,
    {
        if !list_less(&keys[i - 1], &keys[i]) {
            assert(!steps_up(all, i - 1));
            return false;
        }
        assert(steps_up(all, i - 1));
        i += 1;
    }
    true
}

fn strings_sorted(dex: &DexView<'_>) -> (r: bool)
    ensures
        r == strictly_sorted(string_keys(dex@.strings)),
{
    let mut keys: Vec<Vec<u32>> = Vec::new();
    let mut i: usize = 0;
    while i < dex.strings.len()
        invariant
            i <= dex.strings.len(),
            keys.len() == i,
            forall|j: int| 0 <= j < i ==> #[trigger] keys@[j]@ == string_key(dex.strings@[j]@),
        decreases dex.strings.len() - i,
    {
        keys.push(string_sort_key(dex.strings[i].as_str()));
        i += 1;
    }
    assert(lists(keys@) =~= string_keys(dex@.strings));
    is_strictly_sorted(&keys)
}

fn types_sorted(dex: &DexView<'_>) -> (r: bool)
    ensures
        r == strictly_sorted(type_keys(dex@.types)),
{
    let mut keys: Vec<Vec<u32>> = Vec::new();
    let mut i: usize = 0;
    while i < dex.type_descriptor_indices.len()
        invariant
            i <= dex.type_descriptor_indices.len(),
            keys.len() == i,
            forall|j: int| 0 <= j < i ==> #[trigger] keys@[j]@ == seq![dex@.types[j]],
        decreases dex.type_descriptor_indices.len() - i,
    {
        let mut key: Vec<u32> = Vec::new();
        key.push(dex.type_descriptor_indices[i]);
        assert(key@ =~= seq![dex@.types[i as int]]);
        keys.push(key);
        i += 1;
    }
    assert(lists(keys@) =~= type_keys(dex@.types));
    is_strictly_sorted(&keys)
}

/// Return type first, and then the parameters.
fn key_of_proto(return_type_idx: u32, params: &Vec<u16>) -> (r: Vec<u32>)
    ensures
        r@ == seq![return_type_idx] + widened(params@),
{
    let mut key: Vec<u32> = Vec::new();
    key.push(return_type_idx);
    let ghost all = widened(params@);
    let mut i: usize = 0;
    assert(key@ =~= seq![return_type_idx] + all.take(0));
    while i < params.len()
        invariant
            i <= params.len(),
            all == widened(params@),
            key@ == seq![return_type_idx] + all.take(i as int),
        decreases params.len() - i,
    {
        key.push(params[i] as u32);
        i += 1;
        assert(all.take(i as int) =~= all.take(i - 1).push(params@[i - 1] as u32));
        assert(key@ =~= seq![return_type_idx] + all.take(i as int));
    }
    assert(all.take(i as int) =~= all);
    key
}

fn proto_id_keys(dex: &DexView<'_>) -> (r: Result<Vec<Vec<u32>>, Error>)
    ensures
        match r {
            Ok(v) => collect(proto_key_reader(dex@), dex@.protos.len()) == Ok::<
                Seq<Seq<u32>>,
                Error,
            >(lists(v@)),
            Err(e) => collect(proto_key_reader(dex@), dex@.protos.len()) == Err::<
                Seq<Seq<u32>>,
                Error,
            >(e),
        },
{
    let ghost f = proto_key_reader(dex@);
    let mut keys: Vec<Vec<u32>> = Vec::new();
    let mut i: usize = 0;
    assert(lists(keys@) =~= Seq::<Seq<u32>>::empty());
    while i < dex.protos.len()
        invariant
            i <= dex.protos.len(),
            f == proto_key_reader(dex@),
            collect(f, i as nat) == Ok::<Seq<Seq<u32>>, Error>(lists(keys@)),
        decreases dex.protos.len() - i,
    {
        let proto = dex.protos[i];
        match dex.type_list(proto.parameters_off) {
            Ok(params) => {
                let key = key_of_proto(proto.return_type_idx, &params);
                assert(lists(keys@.push(key)) =~= lists(keys@).push(key@));
                keys.push(key);
            },
            Err(e) => {
                proof {
                    lemma_collect_error(f, i as nat, dex@.protos.len());
                }
                return Err(e);
            },
        }
        i += 1;
    }
    Ok(keys)
}

fn fields_sorted(dex: &DexView<'_>) -> (r: bool)
    ensures
        r == strictly_sorted(field_id_keys(dex@.fields)),
{
    let mut keys: Vec<Vec<u32>> = Vec::new();
    let mut i: usize = 0;
    while i < dex.fields.len()
        invariant
            i <= dex.fields.len(),
            keys.len() == i,
            forall|j: int|
                0 <= j < i ==> #[trigger] keys@[j]@ == seq![
                    dex@.fields[j].class_idx as u32,
                    dex@.fields[j].name_idx,
                    dex@.fields[j].type_idx as u32,
                ],
        decreases dex.fields.len() - i,
    {
        let f = dex.fields[i];
        let mut key: Vec<u32> = Vec::new();
        key.push(f.class_idx as u32);
        key.push(f.name_idx);
        key.push(f.type_idx as u32);
        assert(key@ =~= seq![f.class_idx as u32, f.name_idx, f.type_idx as u32]);
        keys.push(key);
        i += 1;
    }
    assert(lists(keys@) =~= field_id_keys(dex@.fields));
    is_strictly_sorted(&keys)
}

fn methods_sorted(dex: &DexView<'_>) -> (r: bool)
    ensures
        r == strictly_sorted(method_id_keys(dex@.methods)),
{
    let mut keys: Vec<Vec<u32>> = Vec::new();
    let mut i: usize = 0;
    while i < dex.methods.len()
        invariant
            i <= dex.methods.len(),
            keys.len() == i,
            forall|j: int|
                0 <= j < i ==> #[trigger] keys@[j]@ == seq![
                    dex@.methods[j].class_idx as u32,
                    dex@.methods[j].name_idx,
                    dex@.methods[j].proto_idx as u32,
                ],
        decreases dex.methods.len() - i,
    {
        let m = dex.methods[i];
        let mut key: Vec<u32> = Vec::new();
        key.push(m.class_idx as u32);
        key.push(m.name_idx);
        key.push(m.proto_idx as u32);
        assert(key@ =~= seq![m.class_idx as u32, m.name_idx, m.proto_idx as u32]);
        keys.push(key);
        i += 1;
    }
    assert(lists(keys@) =~= method_id_keys(dex@.methods));
    is_strictly_sorted(&keys)
}

fn check_order(dex: &DexView<'_>) -> (r: Result<(), Error>)
    ensures
        checked(r, order_fault(dex@)),
{
    if !strings_sorted(dex) {
        return Err(Error::NotSorted(Table::StringIds));
    }
    if !types_sorted(dex) {
        return Err(Error::NotSorted(Table::TypeIds));
    }
    let keys = proto_id_keys(dex)?;
    if !is_strictly_sorted(&keys) {
        return Err(Error::NotSorted(Table::ProtoIds));
    }
    if !fields_sorted(dex) {
        return Err(Error::NotSorted(Table::FieldIds));
    }
    if !methods_sorted(dex) {
        return Err(Error::NotSorted(Table::MethodIds));
    }
    Ok(())
}

/// Checks the structural invariants of an extracted file: version, size,
/// signature, checksum, section layout, map, and the order of every identifier
/// table. This is stricter than reading, because every byte of an extracted
/// file is under control.
pub fn validate_minimal_dex(data: &[u8]) -> (r: Result<(), Error>)
    ensures
        checked(r, dex_fault(data@)),
{
    reveal(dex_fault);
    let header = DexHeader::parse(data)?;
    check_seal(data)?;
    check_places(data)?;
    check_map(data)?;
    let data_off: u32 = u32_at(data, 0x6c)?;
    check_tables(&header, data_off as u64)?;
    let dex = DexView::parse(data)?;
    check_order(&dex)
}

} // verus!
