//! Finding classes without reading a whole DEX file.
use vstd::prelude::*;
use vstd::slice::slice_subrange;

use crate::dex_format::{
    find_zero, mutf8_text, read_string, read_types, read_uleb, string_in, type_reader, types_in,
    u32_at, u32_in, uleb_in, utf16_of, zero_from, DexHeader,
};
use crate::error::Error;
use crate::minidex::emit::mutf8_of;
use crate::minidex::roundtrip::{is_plain, lemma_plain_form, lemma_text_round_trip};
use crate::order::{
    lemma_less_asymmetric, lemma_less_irreflexive, lemma_less_total, lex_less, list_less,
};
use crate::results::{collect, lemma_collect_error, lemma_collect_ok};
use crate::text::{lemma_texts_push, texts};
use vstd::utf8::encode_utf8;

verus! {

// ---------------------------------------------------------------------------
// Every class
// ---------------------------------------------------------------------------

/// The descriptor of class definition `index`.
pub open spec fn class_text_in(data: Seq<u8>, h: DexHeader, types: Seq<u32>, index: int) -> Result<
    Seq<char>,
    Error,
> {
    match u32_in(data, h.class_defs_off + index * 32) {
        Err(e) => Err(e),
        Ok(class_idx) => if class_idx >= types.len() {
            Err(Error::ClassBadType(index as u64))
        } else {
            string_in(data, h, types[class_idx as int] as int)
        },
    }
}

pub open spec fn class_text_reader(data: Seq<u8>, h: DexHeader, types: Seq<u32>) -> spec_fn(
    int,
) -> Result<Seq<char>, Error> {
    |i: int| class_text_in(data, h, types, i)
}

/// The descriptors of the classes that the DEX file at `base` defines.
pub open spec fn class_texts_in(data: Seq<u8>, base: int) -> Result<Seq<Seq<char>>, Error> {
    match DexHeader::header_in(data, base) {
        Err(e) => Err(e),
        Ok(h) => match types_in(data, h) {
            Err(e) => Err(e),
            Ok(types) => collect(class_text_reader(data, h, types), h.class_defs_size as nat),
        },
    }
}

/// Reads only the tables that are needed to list class definitions.
pub fn class_descriptors(data: &[u8]) -> (r: Result<Vec<String>, Error>)
    ensures
        match r {
            Ok(v) => class_texts_in(data@, 0) == Ok::<Seq<Seq<char>>, Error>(texts(v@)),
            Err(e) => class_texts_in(data@, 0) == Err::<Seq<Seq<char>>, Error>(e),
        },
{
    class_descriptors_at(data, 0)
}

/// Lists the classes of the logical DEX file whose header stands at
/// `header_offset`.
pub fn class_descriptors_at(data: &[u8], header_offset: u64) -> (r: Result<Vec<String>, Error>)
    ensures
        match r {
            Ok(v) => class_texts_in(data@, header_offset as int) == Ok::<Seq<Seq<char>>, Error>(
                texts(v@),
            ),
            Err(e) => class_texts_in(data@, header_offset as int) == Err::<Seq<Seq<char>>, Error>(
                e,
            ),
        },
{
    let header = DexHeader::parse_at(data, header_offset)?;
    let types = read_types(data, &header)?;
    let ghost f = class_text_reader(data@, header, types@);
    let count: u64 = header.class_defs_size as u64;
    let mut out: Vec<String> = Vec::new();
    let mut index: u64 = 0;
    assert(texts(out@) =~= Seq::<Seq<char>>::empty());
    while index < count
        invariant
            index <= count,
            count == header.class_defs_size,
            f == class_text_reader(data@, header, types@),
            collect(f, index as nat) == Ok::<Seq<Seq<char>>, Error>(texts(out@)),
            class_texts_in(data@, header_offset as int) == collect(f, count as nat),
        decreases count - index,
    {
        match class_text(data, &header, &types, index) {
            Ok(s) => {
                proof {
                    lemma_texts_push(out@, s);
                }
                out.push(s);
            },
            Err(e) => {
                proof {
                    lemma_collect_error(f, index as nat, count as nat);
                }
                return Err(e);
            },
        }
        index += 1;
    }
    Ok(out)
}

fn class_text(data: &[u8], header: &DexHeader, types: &Vec<u32>, index: u64) -> (r: Result<
    String,
    Error,
>)
    requires
        index < header.class_defs_size,
    ensures
        match r {
            Ok(s) => class_text_in(data@, *header, types@, index as int) == Ok::<Seq<char>, Error>(
                s@,
            ),
            Err(e) => class_text_in(data@, *header, types@, index as int) == Err::<
                Seq<char>,
                Error,
            >(e),
        },
{
    let class_idx: u32 = u32_at(data, header.class_defs_off as u64 + index * 32)?;
    if class_idx as u64 >= types.len() as u64 {
        return Err(Error::ClassBadType(index));
    }
    read_string(data, header, types[class_idx as usize] as u64)
}

// ---------------------------------------------------------------------------
// One class
// ---------------------------------------------------------------------------

/// The encoded bytes of the descriptor of type `index`.
pub open spec fn type_bytes_in(data: Seq<u8>, h: DexHeader, index: int) -> Result<Seq<u8>, Error> {
    match u32_in(data, h.type_ids_off + index * 4) {
        Err(e) => Err(e),
        Ok(string_idx) => if string_idx >= h.string_ids_size {
            Err(Error::TypeBadString(index as u64))
        } else {
            match u32_in(data, h.string_ids_off + string_idx * 4) {
                Err(e) => Err(e),
                Ok(start) => match uleb_in(data, start as int) {
                    Err(e) => Err(e),
                    Ok((_, text)) => match zero_from(data, text) {
                        None => Err(Error::UnterminatedString(string_idx as u64)),
                        Some(end) => Ok(data.subrange(text, end)),
                    },
                },
            }
        },
    }
}

/// Bytes as numbers, for comparison.
pub open spec fn widened(bytes: Seq<u8>) -> Seq<u32> {
    bytes.map_values(|b: u8| b as u32)
}

/// Searches types `left .. right` for one whose encoded descriptor is
/// `target`, by halving.
pub open spec fn probe_types(
    data: Seq<u8>,
    h: DexHeader,
    target: Seq<u8>,
    left: int,
    right: int,
) -> Result<Option<u32>, Error>
    decreases right - left,
{
    if left >= right {
        Ok(None)
    } else {
        let middle = left + (right - left) / 2;
        match type_bytes_in(data, h, middle) {
            Err(e) => Err(e),
            Ok(bytes) => if lex_less(widened(bytes), widened(target)) {
                probe_types(data, h, target, middle + 1, right)
            } else if lex_less(widened(target), widened(bytes)) {
                probe_types(data, h, target, left, middle)
            } else {
                Ok(Some(middle as u32))
            },
        }
    }
}

/// Whether a class definition from `index` on has the given type.
pub open spec fn class_has_type(data: Seq<u8>, h: DexHeader, type_idx: u32, index: int) -> Result<
    bool,
    Error,
>
    decreases h.class_defs_size - index,
{
    if index >= h.class_defs_size {
        Ok(false)
    } else {
        match u32_in(data, h.class_defs_off + index * 32) {
            Err(e) => Err(e),
            Ok(class_idx) => if class_idx == type_idx {
                Ok(true)
            } else {
                class_has_type(data, h, type_idx, index + 1)
            },
        }
    }
}

/// Whether the DEX file at `base` defines `target`, as far as halving its type
/// table tells.
pub open spec fn defines_class_in(data: Seq<u8>, base: int, target: Seq<char>) -> Result<
    bool,
    Error,
> {
    match DexHeader::header_in(data, base) {
        Err(e) => Err(e),
        Ok(h) => if h.string_ids_size == 0 || h.type_ids_size == 0 {
            Ok(false)
        } else {
            match probe_types(data, h, encode_utf8(target), 0, h.type_ids_size as int) {
                Err(e) => Err(e),
                Ok(None) => Ok(false),
                Ok(Some(type_idx)) => class_has_type(data, h, type_idx, 0),
            }
        },
    }
}

fn widen(bytes: &[u8]) -> (r: Vec<u32>)
    ensures
        r@ == widened(bytes@),
{
    let mut out: Vec<u32> = Vec::new();
    let mut i: usize = 0;
    while i < bytes.len()
        invariant
            i <= bytes.len(),
            out.len() == i,
            forall|j: int| 0 <= j < i ==> #[trigger] out@[j] == bytes@[j] as u32,
        decreases bytes.len() - i,
    {
        out.push(bytes[i] as u32);
        i += 1;
    }
    assert(out@ =~= widened(bytes@));
    out
}

fn type_bytes(data: &[u8], header: &DexHeader, index: u64) -> (r: Result<Vec<u32>, Error>)
    requires
        index < header.type_ids_size,
    ensures
        match r {
            Ok(v) => type_bytes_in(data@, *header, index as int) matches Ok(bytes) && v@ == widened(
                bytes,
            ),
            Err(e) => type_bytes_in(data@, *header, index as int) == Err::<Seq<u8>, Error>(e),
        },
{
    let string_idx: u32 = u32_at(data, header.type_ids_off as u64 + index * 4)?;
    if string_idx >= header.string_ids_size {
        return Err(Error::TypeBadString(index));
    }
    let mut at: u64 = u32_at(data, header.string_ids_off as u64 + string_idx as u64 * 4)? as u64;
    let _utf16_size: u32 = read_uleb(data, &mut at)?;
    match find_zero(data, at) {
        Some(end) => {
            let size: usize = data.len();
            assert(end < size);
            Ok(widen(slice_subrange(data, at as usize, end as usize)))
        },
        None => Err(Error::UnterminatedString(string_idx as u64)),
    }
}

/// Probes the sorted type table and only if needed the class definitions,
/// without reading anything else.
pub fn dex_defines_class_at(data: &[u8], header_offset: u64, target: &str) -> (r: Result<
    bool,
    Error,
>)
    ensures
        r == defines_class_in(data@, header_offset as int, target@),
{
    let header = DexHeader::parse_at(data, header_offset)?;
    if header.string_ids_size == 0 || header.type_ids_size == 0 {
        return Ok(false);
    }
    let ghost bytes = encode_utf8(target@);
    let goal = widen(target.as_bytes());
    let mut left: u64 = 0;
    let mut right: u64 = header.type_ids_size as u64;
    let ghost whole = probe_types(data@, header, bytes, 0, header.type_ids_size as int);
    let mut found: Option<u32> = None;
    while left < right
        invariant_except_break
            left <= right <= header.type_ids_size,
            bytes == encode_utf8(target@),
            goal@ == widened(bytes),
            found is None,
            DexHeader::header_in(data@, header_offset as int) == Ok::<DexHeader, Error>(header),
            header.string_ids_size != 0 && header.type_ids_size != 0,
            whole == probe_types(data@, header, bytes, 0, header.type_ids_size as int),
            whole == probe_types(data@, header, bytes, left as int, right as int),
        ensures
            whole == Ok::<Option<u32>, Error>(found),
        decreases right - left,
    {
        let middle: u64 = left + (right - left) / 2;
        let key = type_bytes(data, &header, middle)?;
        if list_less(&key, &goal) {
            left = middle + 1;
        } else if list_less(&goal, &key) {
            right = middle;
        } else {
            found = Some(middle as u32);
            break;
        }
    }
    match found {
        None => Ok(false),
        Some(type_idx) => has_class_with(data, &header, type_idx),
    }
}

fn has_class_with(data: &[u8], header: &DexHeader, type_idx: u32) -> (r: Result<bool, Error>)
    ensures
        r == class_has_type(data@, *header, type_idx, 0),
{
    let count: u64 = header.class_defs_size as u64;
    let mut index: u64 = 0;
    while index < count
        invariant
            index <= count,
            count == header.class_defs_size,
            class_has_type(data@, *header, type_idx, 0) == class_has_type(
                data@,
                *header,
                type_idx,
                index as int,
            ),
        decreases count - index,
    {
        if u32_at(data, header.class_defs_off as u64 + index * 32)? == type_idx {
            return Ok(true);
        }
        index += 1;
    }
    Ok(false)
}

// ---------------------------------------------------------------------------
// Laws
// ---------------------------------------------------------------------------

/// Whether types `left .. right` can be read and ascend strictly by their
/// encoded descriptors.
pub open spec fn types_sorted(data: Seq<u8>, h: DexHeader, left: int, right: int) -> bool {
    &&& forall|i: int| left <= i < right ==> (#[trigger] type_bytes_in(data, h, i)) is Ok
    &&& forall|i: int, j: int|
        #![trigger type_bytes_in(data, h, i), type_bytes_in(data, h, j)]
        left <= i < j < right ==> lex_less(
            widened(type_bytes_in(data, h, i)->Ok_0),
            widened(type_bytes_in(data, h, j)->Ok_0),
        )
}

/// In a sorted type table, halving finds the type with the given encoded
/// descriptor wherever there is one.
pub proof fn lemma_probe_finds(data: Seq<u8>, h: DexHeader, target: Seq<u8>, left: int, right: int)
    requires
        0 <= left <= right <= h.type_ids_size,
        types_sorted(data, h, left, right),
    ensures
        probe_types(data, h, target, left, right) is Ok,
        match probe_types(data, h, target, left, right)->Ok_0 {
            Some(i) => left <= i < right && type_bytes_in(data, h, i as int) == Ok::<
                Seq<u8>,
                Error,
            >(target),
            None => forall|i: int|
                left <= i < right ==> (#[trigger] type_bytes_in(data, h, i)) != Ok::<
                    Seq<u8>,
                    Error,
                >(target),
        },
    decreases right - left,
{
    if left < right {
        let middle = left + (right - left) / 2;
        let bytes = type_bytes_in(data, h, middle)->Ok_0;
        let a = widened(bytes);
        let t = widened(target);
        assert(type_bytes_in(data, h, middle) is Ok);
        if lex_less(a, t) {
            lemma_probe_finds(data, h, target, middle + 1, right);
            assert forall|i: int| left <= i <= middle implies (#[trigger] type_bytes_in(
                data,
                h,
                i,
            )) != Ok::<Seq<u8>, Error>(target) by {
                if type_bytes_in(data, h, i) == Ok::<Seq<u8>, Error>(target) {
                    if i < middle {
                        lemma_less_asymmetric(t, a);
                    } else {
                        lemma_less_irreflexive(t);
                    }
                }
            }
        } else if lex_less(t, a) {
            lemma_probe_finds(data, h, target, left, middle);
            assert forall|i: int| middle <= i < right implies (#[trigger] type_bytes_in(
                data,
                h,
                i,
            )) != Ok::<Seq<u8>, Error>(target) by {
                if type_bytes_in(data, h, i) == Ok::<Seq<u8>, Error>(target) {
                    if i > middle {
                        lemma_less_asymmetric(a, t);
                    } else {
                        lemma_less_irreflexive(t);
                    }
                }
            }
        } else {
            lemma_less_total(a, t);
            lemma_widened_equal(bytes, target);
        }
    }
}

proof fn lemma_widened_equal(a: Seq<u8>, b: Seq<u8>)
    requires
        widened(a) == widened(b),
    ensures
        a == b,
{
    assert(widened(a).len() == a.len() && widened(b).len() == b.len());
    assert forall|i: int| 0 <= i < a.len() implies a[i] == b[i] by {
        assert(widened(a)[i] == a[i] as u32);
        assert(widened(b)[i] == b[i] as u32);
    }
    assert(a =~= b);
}

/// Whether each type of the table has its descriptor in the modified UTF-8
/// form that a writer gives it.
pub open spec fn types_canonical(data: Seq<u8>, h: DexHeader) -> bool {
    forall|i: int|
        0 <= i < h.type_ids_size && (#[trigger] type_bytes_in(data, h, i)) is Ok
            ==> type_bytes_in(data, h, i)->Ok_0 == mutf8_of(
            utf16_of(mutf8_text(type_bytes_in(data, h, i)->Ok_0)),
        )
}

/// Probing for a class agrees with listing them all: in a sorted type table it
/// tells of every plain descriptor whether it is in the list.
pub proof fn lemma_probe_agrees(data: Seq<u8>, base: int, target: Seq<char>)
    requires
        DexHeader::header_in(data, base) is Ok,
        ({
            let h = DexHeader::header_in(data, base)->Ok_0;
            types_sorted(data, h, 0, h.type_ids_size as int) && types_canonical(data, h)
        }),
        class_texts_in(data, base) is Ok,
        is_plain(target),
    ensures
        defines_class_in(data, base, target) == Ok::<bool, Error>(
            class_texts_in(data, base)->Ok_0.contains(target),
        ),
{
    let h = DexHeader::header_in(data, base)->Ok_0;
    let list = class_texts_in(data, base)->Ok_0;
    lemma_classes_listed(data, base);
    if list.contains(target) {
        let c = choose|c: int| 0 <= c < list.len() && list[c] == target;
        assert(class_listed(data, h, list, c));
        assert(u32_in(data, h.class_defs_off + c * 32)->Ok_0 < h.type_ids_size);
    }
    if h.string_ids_size > 0 && h.type_ids_size > 0 {
        let bytes = encode_utf8(target);
        lemma_plain_form(target);
        lemma_text_round_trip(target);
        lemma_probe_finds(data, h, bytes, 0, h.type_ids_size as int);
        match probe_types(data, h, bytes, 0, h.type_ids_size as int)->Ok_0 {
            None => {
                lemma_not_listed(data, h, list, target);
            },
            Some(type_idx) => {
                lemma_listed_by_type(data, h, list, target, type_idx);
                lemma_class_found(data, h, list, type_idx, 0);
            },
        }
    } else if h.type_ids_size > 0 {
        assert(type_bytes_in(data, h, 0) is Ok);
    }
}

/// Each listed class has a type of the table, and its text there.
proof fn lemma_classes_listed(data: Seq<u8>, base: int)
    requires
        DexHeader::header_in(data, base) is Ok,
        ({
            let h = DexHeader::header_in(data, base)->Ok_0;
            types_sorted(data, h, 0, h.type_ids_size as int)
        }),
        class_texts_in(data, base) is Ok,
    ensures
        ({
            let h = DexHeader::header_in(data, base)->Ok_0;
            let list = class_texts_in(data, base)->Ok_0;
            list.len() == h.class_defs_size && forall|c: int|
                0 <= c < h.class_defs_size ==> class_listed(data, h, list, c)
        }),
{
    let h = DexHeader::header_in(data, base)->Ok_0;
    let types = types_in(data, h)->Ok_0;
    let f = class_text_reader(data, h, types);
    let n = h.class_defs_size as nat;
    let list = class_texts_in(data, base)->Ok_0;
    lemma_collect_ok(type_reader(data, h), h.type_ids_size as nat);
    lemma_collect_ok(f, n);
    assert forall|c: int| 0 <= c < n implies class_listed(data, h, list, c) by {
        assert(f(c) == Ok::<Seq<char>, Error>(list[c]));
        let class_idx = u32_in(data, h.class_defs_off + c * 32)->Ok_0;
        assert(type_reader(data, h)(class_idx as int) == Ok::<u32, Error>(types[class_idx as int]));
        assert(type_bytes_in(data, h, class_idx as int) is Ok);
    }
}

/// A text that no type has is not the text of a class.
proof fn lemma_not_listed(data: Seq<u8>, h: DexHeader, list: Seq<Seq<char>>, target: Seq<char>)
    requires
        list.len() == h.class_defs_size,
        forall|c: int| 0 <= c < h.class_defs_size ==> class_listed(data, h, list, c),
        types_canonical(data, h),
        forall|i: int|
            0 <= i < h.type_ids_size ==> (#[trigger] type_bytes_in(data, h, i)) != Ok::<
                Seq<u8>,
                Error,
            >(mutf8_of(utf16_of(target))),
    ensures
        !list.contains(target),
{
    if list.contains(target) {
        let c = choose|c: int| 0 <= c < list.len() && list[c] == target;
        assert(class_listed(data, h, list, c));
    }
}

/// A class has the text of a type exactly where it has that type.
proof fn lemma_listed_by_type(
    data: Seq<u8>,
    h: DexHeader,
    list: Seq<Seq<char>>,
    target: Seq<char>,
    type_idx: u32,
)
    requires
        list.len() == h.class_defs_size,
        forall|c: int| 0 <= c < h.class_defs_size ==> class_listed(data, h, list, c),
        types_sorted(data, h, 0, h.type_ids_size as int),
        types_canonical(data, h),
        type_idx < h.type_ids_size,
        type_bytes_in(data, h, type_idx as int) == Ok::<Seq<u8>, Error>(
            mutf8_of(utf16_of(target)),
        ),
        mutf8_text(mutf8_of(utf16_of(target))) == target,
    ensures
        list.contains(target) == exists|c: int| class_of_type(data, h, type_idx, 0, c),
{
    let bytes = mutf8_of(utf16_of(target));
    if list.contains(target) {
        let c = choose|c: int| 0 <= c < list.len() && list[c] == target;
        assert(class_listed(data, h, list, c));
        let t = u32_in(data, h.class_defs_off + c * 32)->Ok_0;
        lemma_less_irreflexive(widened(bytes));
        assert(type_bytes_in(data, h, t as int) == Ok::<Seq<u8>, Error>(bytes));
        assert(t == type_idx);
        assert(class_of_type(data, h, type_idx, 0, c));
    }
    if exists|c: int| class_of_type(data, h, type_idx, 0, c) {
        let c = choose|c: int| class_of_type(data, h, type_idx, 0, c);
        assert(class_listed(data, h, list, c));
        assert(list[c] == target);
    }
}

/// Whether class definition `c` names a type whose descriptor is listed for it.
spec fn class_listed(data: Seq<u8>, h: DexHeader, list: Seq<Seq<char>>, c: int) -> bool {
    let at = u32_in(data, h.class_defs_off + c * 32);
    &&& at is Ok
    &&& at->Ok_0 < h.type_ids_size
    &&& type_bytes_in(data, h, at->Ok_0 as int) is Ok
    &&& list[c] == mutf8_text(type_bytes_in(data, h, at->Ok_0 as int)->Ok_0)
}

/// Whether class definition `c`, at or behind `index`, has the given type.
spec fn class_of_type(data: Seq<u8>, h: DexHeader, type_idx: u32, index: int, c: int) -> bool {
    &&& index <= c < h.class_defs_size
    &&& u32_in(data, h.class_defs_off + c * 32) == Ok::<u32, Error>(type_idx)
}

proof fn lemma_class_found(
    data: Seq<u8>,
    h: DexHeader,
    list: Seq<Seq<char>>,
    type_idx: u32,
    index: int,
)
    requires
        0 <= index,
        forall|c: int| 0 <= c < h.class_defs_size ==> class_listed(data, h, list, c),
    ensures
        class_has_type(data, h, type_idx, index) == Ok::<bool, Error>(
            exists|c: int| class_of_type(data, h, type_idx, index, c),
        ),
    decreases h.class_defs_size - index,
{
    if index < h.class_defs_size {
        assert(class_listed(data, h, list, index));
        lemma_class_found(data, h, list, type_idx, index + 1);
        if u32_in(data, h.class_defs_off + index * 32) == Ok::<u32, Error>(type_idx) {
            assert(class_of_type(data, h, type_idx, index, index));
        } else {
            assert forall|c: int| class_of_type(data, h, type_idx, index, c) implies class_of_type(
                data,
                h,
                type_idx,
                index + 1,
                c,
            ) by {}
            let next = index + 1;
            if exists|c: int| class_of_type(data, h, type_idx, next, c) {
                let c = choose|c: int| class_of_type(data, h, type_idx, next, c);
                assert(class_of_type(data, h, type_idx, index, c));
            }
        }
    }
}

} // verus!
