//! What holds of every file that validation accepts.
use vstd::prelude::*;

use crate::dex_format::fields::{half, word};
use crate::dex_format::spelling::{char_units, text_units};
use crate::dex_format::{string_key, utf16_of, DexHeader};
use crate::error::Error;
use crate::minidex::assemble::magic;
use crate::minidex::canonical::{string_keys, type_keys, widened};
use crate::minidex::digests::{adler32, sha1_digest};
use crate::minidex::fidelity::lemma_extracted_tables;
use crate::minidex::reader::{code_in, word_reader, ClassDef, DexTables};
use crate::minidex::validate::{
    dex_fault, field_id_keys, lemma_strictly_sorted, map_fault, map_types_from, method_id_keys,
    order_fault, place_fault, proto_key_reader, seal_fault, strictly_sorted, tables_fault,
};
use crate::minidex::{extracted, extracted_from, stats_of};
use crate::order::{lemma_lex_order, less_from, lex_less};
use crate::results::{collect, lemma_collect_ok};

verus! {

/// An accepted file has a header, starts with one of three versions, and names
/// its own size, its signature and its checksum.
pub proof fn lemma_accepted_seal(data: Seq<u8>)
    requires
        dex_fault(data) is None,
    ensures
        DexHeader::header_in(data, 0) is Ok,
        data.len() >= 112,
        data.subrange(0, 6) == seq![0x64u8, 0x65u8, 0x78u8, 0x0au8, 0x30u8, 0x33u8],
        data[6] == 0x35 || data[6] == 0x38 || data[6] == 0x39,
        data[7] == 0,
        word(data, 32) == data.len(),
        data.subrange(12, 32) == sha1_digest(data.skip(32))@,
        word(data, 8) == adler32(data.skip(12)),
{
    lemma_sealed(data);
    lemma_version_read(data);
}

proof fn lemma_sealed(data: Seq<u8>)
    requires
        dex_fault(data) is None,
    ensures
        DexHeader::header_in(data, 0) is Ok,
        data.len() >= 112,
        seal_fault(data) is None,
{
    reveal(dex_fault);
}

proof fn lemma_version_read(data: Seq<u8>)
    requires
        data.len() >= 112,
        seal_fault(data) is None,
    ensures
        data.subrange(0, 6) == seq![0x64u8, 0x65u8, 0x78u8, 0x0au8, 0x30u8, 0x33u8],
        data[6] == 0x35 || data[6] == 0x38 || data[6] == 0x39,
        data[7] == 0,
{
    let head = data.subrange(0, 8);
    let version = if head == magic(35) {
        35u8
    } else if head == magic(38) {
        38u8
    } else {
        39u8
    };
    assert(head == magic(version));
    assert forall|i: int| 0 <= i < 8 implies data[i] == #[trigger] magic(version)[i] by {
        assert(head[i] == data[i]);
    }
    assert(data[6] == magic(version)[6] && data[7] == magic(version)[7]);
    let front = data.subrange(0, 6);
    assert(front[0] == magic(version)[0] && front[1] == magic(version)[1] && front[2] == magic(
        version,
    )[2] && front[3] == magic(version)[3] && front[4] == magic(version)[4] && front[5] == magic(
        version,
    )[5]);
    assert(front =~= seq![0x64u8, 0x65u8, 0x78u8, 0x0au8, 0x30u8, 0x33u8]);
}

/// The data section of an accepted file is its end, the map lies in it at a
/// multiple of four, and every table ends before it.
pub proof fn lemma_accepted_places(data: Seq<u8>)
    requires
        dex_fault(data) is None,
    ensures
        112 <= word(data, 108) <= data.len(),
        word(data, 108) + word(data, 104) == data.len(),
        word(data, 108) <= word(data, 52) < data.len(),
        word(data, 52) % 4 == 0,
        word(data, 56) > 0 ==> word(data, 60) + 4 * word(data, 56) <= word(data, 108),
        word(data, 64) > 0 ==> word(data, 68) + 4 * word(data, 64) <= word(data, 108),
        word(data, 72) > 0 ==> word(data, 76) + 12 * word(data, 72) <= word(data, 108),
        word(data, 80) > 0 ==> word(data, 84) + 8 * word(data, 80) <= word(data, 108),
        word(data, 88) > 0 ==> word(data, 92) + 8 * word(data, 88) <= word(data, 108),
        word(data, 96) > 0 ==> word(data, 100) + 32 * word(data, 96) <= word(data, 108),
{
    reveal(dex_fault);
    let h = DexHeader::header_in(data, 0)->Ok_0;
    assert(place_fault(data) is None);
    assert(tables_fault(h, crate::dex_format::le32(data, 0x6c) as int) is None);
}

proof fn lemma_map_walked(
    data: Seq<u8>,
    at: int,
    i: int,
    count: int,
    seen: Seq<u16>,
    previous: Option<u32>,
)
    requires
        0 <= i <= count,
        map_types_from(data, at, i, count, seen, previous) is Ok,
        seen.len() == i,
        forall|k: int| 0 <= k < i ==> #[trigger] seen[k] == half(data, at + 12 * k),
        forall|k: int| 0 <= k < i ==> word(data, #[trigger] (at + 12 * k) + 4) != 0,
        forall|k: int, l: int|
            #![trigger seen[k], seen[l]]
            0 <= k < l < i ==> seen[k] != seen[l] && word(data, at + 12 * k + 8) < word(
                data,
                at + 12 * l + 8,
            ),
        previous == if i == 0 {
            None
        } else {
            Some(word(data, at + 12 * (i - 1) + 8) as u32)
        },
    ensures
        ({
            let types = map_types_from(data, at, i, count, seen, previous)->Ok_0;
            &&& types.len() == count
            &&& forall|k: int| 0 <= k < count ==> #[trigger] types[k] == half(data, at + 12 * k)
            &&& forall|k: int| 0 <= k < count ==> word(data, #[trigger] (at + 12 * k) + 4) != 0
            &&& forall|k: int, l: int|
                #![trigger types[k], types[l]]
                0 <= k < l < count ==> types[k] != types[l] && word(data, at + 12 * k + 8) < word(
                    data,
                    at + 12 * l + 8,
                )
        }),
    decreases count - i,
{
    if i < count {
        let item = at + i * 12;
        assert(item == at + 12 * i);
        let typ = crate::dex_format::le16(data, item);
        let offset = crate::dex_format::le32(data, item + 8);
        let more = seen.push(typ);
        assert(word(data, at + 12 * i + 8) == offset);
        assert forall|k: int, l: int| #![trigger more[k], more[l]] 0 <= k < l < i + 1 implies more[k]
            != more[l] && word(data, at + 12 * k + 8) < word(data, at + 12 * l + 8) by {
            if l == i {
                assert(seen.contains(seen[k]));
                assert(more[k] == seen[k]);
                if k < i - 1 {
                    assert(seen[k] != seen[i - 1]);
                }
            } else {
                assert(more[k] == seen[k] && more[l] == seen[l]);
            }
        }
        lemma_map_walked(data, at, i + 1, count, more, Some(offset));
    }
}

/// The map of an accepted file lists no empty section and none twice, its
/// sections ascend, and the header, the class definitions and the map itself
/// are among them.
pub proof fn lemma_accepted_map(data: Seq<u8>)
    requires
        dex_fault(data) is None,
    ensures
        ({
            let count = word(data, word(data, 52));
            let at = word(data, 52) + 4;
            &&& at + 12 * count <= data.len()
            &&& forall|i: int| 0 <= i < count ==> word(data, #[trigger] (at + 12 * i) + 4) != 0
            &&& forall|i: int, j: int|
                #![trigger half(data, at + 12 * i), half(data, at + 12 * j)]
                0 <= i < j < count ==> half(data, at + 12 * i) != half(data, at + 12 * j) && word(
                    data,
                    at + 12 * i + 8,
                ) < word(data, at + 12 * j + 8)
            &&& exists|i: int| 0 <= i < count && #[trigger] half(data, at + 12 * i) == 0
            &&& exists|i: int| 0 <= i < count && #[trigger] half(data, at + 12 * i) == 6
            &&& exists|i: int| 0 <= i < count && #[trigger] half(data, at + 12 * i) == 0x1000
        }),
{
    lemma_accepted_places(data);
    reveal(dex_fault);
    assert(map_fault(data) is None);
    let count = word(data, word(data, 52));
    let at = word(data, 52) + 4;
    let types = map_types_from(data, at, 0, count, Seq::empty(), None)->Ok_0;
    lemma_map_walked(data, at, 0, count, Seq::empty(), None);
    assert forall|i: int, j: int|
        #![trigger half(data, at + 12 * i), half(data, at + 12 * j)]
        0 <= i < j < count implies half(data, at + 12 * i) != half(data, at + 12 * j) && word(
        data,
        at + 12 * i + 8,
    ) < word(data, at + 12 * j + 8) by {
        assert(types[i] != types[j]);
    }
    let a = choose|a: int| 0 <= a < types.len() && types[a] == 0;
    let b = choose|b: int| 0 <= b < types.len() && types[b] == 6;
    let c = choose|c: int| 0 <= c < types.len() && types[c] == 0x1000;
    assert(half(data, at + 12 * a) == 0);
    assert(half(data, at + 12 * b) == 6);
    assert(half(data, at + 12 * c) == 0x1000);
}

/// Whether some code units come before others: at the first in which they
/// differ they have the smaller one, or they end there.
pub open spec fn units_before(a: Seq<u16>, b: Seq<u16>) -> bool {
    exists|k: int|
        #![trigger a.take(k)]
        0 <= k <= a.len() && k < b.len() && a.take(k) == b.take(k) && (k == a.len() || a[k] < b[k])
}

proof fn lemma_units_push(text: Seq<char>, c: char)
    ensures
        text_units(text.push(c)) == text_units(text) + char_units(c),
    decreases text.len(),
{
    let more = text.push(c);
    if text.len() == 0 {
        assert(more.skip(1) =~= Seq::<char>::empty());
        assert(text_units(more.skip(1)) == Seq::<u16>::empty());
    } else {
        assert(more.skip(1) =~= text.skip(1).push(c));
        lemma_units_push(text.skip(1), c);
    }
    assert(text_units(more) =~= text_units(text) + char_units(c));
}

proof fn lemma_same_units(text: Seq<char>)
    ensures
        utf16_of(text) == text_units(text),
    decreases text.len(),
{
    if text.len() > 0 {
        lemma_same_units(text.drop_last());
        lemma_units_push(text.drop_last(), text.last());
        assert(text.drop_last().push(text.last()) =~= text);
    }
}

proof fn lemma_widened_before(a: Seq<u16>, b: Seq<u16>)
    requires
        lex_less(widened(a), widened(b)),
    ensures
        units_before(a, b),
{
    let x = widened(a);
    let y = widened(b);
    lemma_lex_order(x, y);
    let k = choose|k: int|
        #![trigger x.take(k)]
        0 <= k <= x.len() && k < y.len() && x.take(k) == y.take(k) && (k == x.len() || x[k] < y[k]);
    assert forall|i: int| 0 <= i < k implies a[i] == b[i] by {
        assert(x.take(k)[i] == y.take(k)[i]);
    }
    assert(a.take(k) =~= b.take(k));
}

proof fn lemma_three(a: Seq<u32>, b: Seq<u32>)
    requires
        a.len() == 3,
        b.len() == 3,
        lex_less(a, b),
    ensures
        a[0] < b[0] || a[0] == b[0] && (a[1] < b[1] || a[1] == b[1] && a[2] < b[2]),
{
    reveal_with_fuel(less_from, 4);
}

/// The strings of an accepted file ascend by their UTF-16 units, and its types
/// by their strings.
pub proof fn lemma_accepted_order(data: Seq<u8>, t: DexTables, i: int, j: int)
    requires
        dex_fault(data) is None,
        DexTables::tables_in(data, 0) == Ok::<DexTables, Error>(t),
        0 <= i < j,
    ensures
        j < t.strings.len() ==> units_before(text_units(t.strings[i]), text_units(t.strings[j])),
        j < t.types.len() ==> t.types[i] < t.types[j],
{
    lemma_ordered(data);
    if j < t.strings.len() {
        lemma_strings_ascend(t, i, j);
    }
    if j < t.types.len() {
        lemma_types_ascend(t, i, j);
    }
}

/// Whether the first of three numbers decide, and the next where they are equal.
pub open spec fn three_before(a: (u32, u32, u32), b: (u32, u32, u32)) -> bool {
    a.0 < b.0 || a.0 == b.0 && (a.1 < b.1 || a.1 == b.1 && a.2 < b.2)
}

/// The fields of an accepted file ascend by class, name and type, and its
/// methods by class, name and prototype.
pub proof fn lemma_accepted_members(data: Seq<u8>, t: DexTables, i: int, j: int)
    requires
        dex_fault(data) is None,
        DexTables::tables_in(data, 0) == Ok::<DexTables, Error>(t),
        0 <= i < j,
    ensures
        j < t.fields.len() ==> three_before(
            (t.fields[i].class_idx as u32, t.fields[i].name_idx, t.fields[i].type_idx as u32),
            (t.fields[j].class_idx as u32, t.fields[j].name_idx, t.fields[j].type_idx as u32),
        ),
        j < t.methods.len() ==> three_before(
            (t.methods[i].class_idx as u32, t.methods[i].name_idx, t.methods[i].proto_idx as u32),
            (t.methods[j].class_idx as u32, t.methods[j].name_idx, t.methods[j].proto_idx as u32),
        ),
{
    lemma_ordered(data);
    if j < t.fields.len() {
        let keys = field_id_keys(t.fields);
        lemma_strictly_sorted(keys, i, j);
        lemma_three(keys[i], keys[j]);
    }
    if j < t.methods.len() {
        let keys = method_id_keys(t.methods);
        lemma_strictly_sorted(keys, i, j);
        lemma_three(keys[i], keys[j]);
    }
}

proof fn lemma_ordered(data: Seq<u8>)
    requires
        dex_fault(data) is None,
    ensures
        DexTables::tables_in(data, 0) is Ok,
        ({
            let t = DexTables::tables_in(data, 0)->Ok_0;
            &&& strictly_sorted(string_keys(t.strings))
            &&& strictly_sorted(type_keys(t.types))
            &&& strictly_sorted(field_id_keys(t.fields))
            &&& strictly_sorted(method_id_keys(t.methods))
        }),
{
    reveal(dex_fault);
    assert(order_fault(DexTables::tables_in(data, 0)->Ok_0) is None);
}

proof fn lemma_strings_ascend(t: DexTables, i: int, j: int)
    requires
        strictly_sorted(string_keys(t.strings)),
        0 <= i < j < t.strings.len(),
    ensures
        units_before(text_units(t.strings[i]), text_units(t.strings[j])),
{
    let keys = string_keys(t.strings);
    lemma_strictly_sorted(keys, i, j);
    let a = t.strings[i];
    let b = t.strings[j];
    assert(keys[i] == string_key(a) && keys[j] == string_key(b));
    lemma_same_units(a);
    lemma_same_units(b);
    assert(string_key(a) =~= widened(text_units(a)));
    assert(string_key(b) =~= widened(text_units(b)));
    lemma_widened_before(text_units(a), text_units(b));
}

proof fn lemma_types_ascend(t: DexTables, i: int, j: int)
    requires
        strictly_sorted(type_keys(t.types)),
        0 <= i < j < t.types.len(),
    ensures
        t.types[i] < t.types[j],
{
    let keys = type_keys(t.types);
    lemma_strictly_sorted(keys, i, j);
    reveal_with_fuel(less_from, 2);
    assert(keys[i][0] == t.types[i] && keys[j][0] == t.types[j]);
}

/// The prototypes of an accepted file ascend by result, and then by their
/// parameters.
pub proof fn lemma_accepted_protos(data: Seq<u8>, t: DexTables, i: int, j: int)
    requires
        dex_fault(data) is None,
        DexTables::tables_in(data, 0) == Ok::<DexTables, Error>(t),
        0 <= i < j < t.protos.len(),
    ensures
        ({
            let a = t.protos[i];
            let b = t.protos[j];
            ||| a.return_type_idx < b.return_type_idx
            ||| a.return_type_idx == b.return_type_idx && units_before(
                t.type_list(a.parameters_off)->Ok_0,
                t.type_list(b.parameters_off)->Ok_0,
            )
        }),
{
    reveal(dex_fault);
    assert(order_fault(t) is None);
    let f = proto_key_reader(t);
    let keys = collect(f, t.protos.len())->Ok_0;
    lemma_collect_ok(f, t.protos.len());
    lemma_strictly_sorted(keys, i, j);
    let a = t.protos[i];
    let b = t.protos[j];
    let x = t.type_list(a.parameters_off)->Ok_0;
    let y = t.type_list(b.parameters_off)->Ok_0;
    assert(f(i) == Ok::<Seq<u32>, Error>(keys[i]));
    assert(f(j) == Ok::<Seq<u32>, Error>(keys[j]));
    assert(keys[i] == seq![a.return_type_idx] + widened(x));
    assert(keys[j] == seq![b.return_type_idx] + widened(y));
    assert(keys[i][0] == a.return_type_idx && keys[j][0] == b.return_type_idx);
    if a.return_type_idx == b.return_type_idx {
        lemma_after_first(keys[i], keys[j], widened(x), widened(y));
        lemma_widened_before(x, y);
    }
}

proof fn lemma_after_first(s: Seq<u32>, t: Seq<u32>, x: Seq<u32>, y: Seq<u32>)
    requires
        s.len() == x.len() + 1,
        t.len() == y.len() + 1,
        s[0] == t[0],
        forall|k: int| 0 <= k < x.len() ==> s[k + 1] == #[trigger] x[k],
        forall|k: int| 0 <= k < y.len() ==> t[k + 1] == #[trigger] y[k],
        lex_less(s, t),
    ensures
        lex_less(x, y),
{
    lemma_lex_order(s, t);
    let k = choose|k: int|
        #![trigger s.take(k)]
        0 <= k <= s.len() && k < t.len() && s.take(k) == t.take(k) && (k == s.len() || s[k] < t[k]);
    assert(k > 0);
    assert forall|i: int| 0 <= i < k - 1 implies x[i] == y[i] by {
        assert(s.take(k)[i + 1] == t.take(k)[i + 1]);
        assert(s[i + 1] == x[i] && t[i + 1] == y[i]);
    }
    assert(x.take(k - 1) =~= y.take(k - 1));
    if k < s.len() {
        assert(s[k] == x[k - 1]);
    }
    assert(t[k] == y[k - 1]);
    lemma_lex_order(x, y);
}

// ---------------------------------------------------------------------------
// Items
// ---------------------------------------------------------------------------

/// A class definition is eight words.
pub proof fn lemma_class_def_read(t: DexTables, index: int)
    requires
        0 <= index,
        t.class_def_in(index) is Ok,
    ensures
        index < t.header.class_defs_size,
        ({
            let at = t.header.class_defs_off + 32 * index;
            let class = t.class_def_in(index)->Ok_0;
            &&& class.class_idx == word(t.data, at)
            &&& class.access_flags == word(t.data, at + 4)
            &&& class.superclass_idx == word(t.data, at + 8)
            &&& class.interfaces_off == word(t.data, at + 12)
            &&& class.source_file_idx == word(t.data, at + 16)
            &&& class.annotations_off == word(t.data, at + 20)
            &&& class.class_data_off == word(t.data, at + 24)
            &&& class.static_values_off == word(t.data, at + 28)
        }),
{
    let at = t.header.class_defs_off + index * 32;
    let f = word_reader(t.data, at);
    lemma_collect_ok(f, 8);
    let w = collect(f, 8)->Ok_0;
    assert forall|i: int| 0 <= i < 8 implies w[i] == word(t.data, at + 4 * i) by {
        assert(f(i) == Ok::<u32, Error>(w[i]));
    }
    assert(w[0] == word(t.data, at + 4 * 0) && w[1] == word(t.data, at + 4 * 1) && w[2] == word(
        t.data,
        at + 4 * 2,
    ) && w[3] == word(t.data, at + 4 * 3) && w[4] == word(t.data, at + 4 * 4) && w[5] == word(
        t.data,
        at + 4 * 5,
    ) && w[6] == word(t.data, at + 4 * 6) && w[7] == word(t.data, at + 4 * 7));
}

/// The class that is found is the first with the descriptor; where none is
/// found, no class has it.
pub proof fn lemma_class_search(t: DexTables, descriptor: Seq<char>, from: int)
    requires
        0 <= from,
        t.class_from(descriptor, from) is Ok,
    ensures
        t.class_from(descriptor, from)->Ok_0 is None ==> forall|i: int|
            from <= i < t.header.class_defs_size ==> t.descriptor(
                (#[trigger] t.class_def_in(i))->Ok_0.class_idx as int,
            )->Ok_0 != descriptor,
        t.class_from(descriptor, from)->Ok_0 matches Some(class) ==> exists|p: int|
            from <= p < t.header.class_defs_size && #[trigger] t.class_def_in(p) == Ok::<
                ClassDef,
                Error,
            >(class) && t.descriptor(class.class_idx as int) == Ok::<Seq<char>, Error>(descriptor),
    decreases t.header.class_defs_size - from,
{
    if from < t.header.class_defs_size {
        let class = t.class_def_in(from)->Ok_0;
        let text = t.descriptor(class.class_idx as int)->Ok_0;
        if text != descriptor {
            lemma_class_search(t, descriptor, from + 1);
        } else {
            assert(t.class_def_in(from) == Ok::<ClassDef, Error>(class));
        }
    }
}

/// A code item starts with four halves and two words, and its instructions
/// stand behind them.
pub proof fn lemma_code_read(data: Seq<u8>, offset: int)
    requires
        0 <= offset,
        code_in(data, offset) is Ok,
    ensures
        ({
            let code = code_in(data, offset)->Ok_0;
            &&& code.registers_size == half(data, offset)
            &&& code.ins_size == half(data, offset + 2)
            &&& code.outs_size == half(data, offset + 4)
            &&& code.tries_size == half(data, offset + 6)
            &&& code.debug_info_off == word(data, offset + 8)
            &&& code.insns.len() == 2 * word(data, offset + 12)
            &&& forall|i: int|
                0 <= i < code.insns.len() ==> #[trigger] code.insns[i] == data[offset + 16 + i]
            &&& code.tries.len() == code.tries_size
        }),
{
    let code = code_in(data, offset)->Ok_0;
    let at = crate::minidex::reader::aligned4(offset + 16 + word(data, offset + 12) * 2);
    if code.tries_size > 0 {
        lemma_collect_ok(crate::minidex::reader::try_reader(data, at), code.tries_size as nat);
    }
}

/// The counts that an extraction reports are those of the file that it made.
pub proof fn lemma_stats_true(data: Seq<u8>, base: int, descriptor: Seq<char>)
    requires
        extracted(data, base, descriptor) is Ok,
        extracted(data, base, descriptor)->Ok_0.0.len() <= usize::MAX,
        data.len() <= usize::MAX,
    ensures
        ({
            let (bytes, m) = extracted(data, base, descriptor)->Ok_0;
            let stats = stats_of(data.len() as int, bytes.len() as int, m);
            let t = DexTables::tables_in(bytes, 0)->Ok_0;
            &&& stats.input_bytes == data.len()
            &&& stats.output_bytes == bytes.len()
            &&& stats.strings == t.strings.len()
            &&& stats.types == t.types.len()
            &&& stats.protos == t.protos.len()
            &&& stats.fields == t.fields.len()
            &&& stats.methods == t.methods.len()
        }),
{
    let dex = DexTables::tables_in(data, base)->Ok_0;
    lemma_extracted_tables(dex, descriptor);
    let bytes = extracted_from(dex, descriptor)->Ok_0.0;
    crate::minidex::reader::lemma_tables_sized(bytes, 0);
}

} // verus!
