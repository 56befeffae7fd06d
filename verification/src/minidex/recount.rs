//! What does not depend on the order of things: the least offset, the version
//! that code needs, and the offsets of methods that are written one by one.
use vstd::prelude::*;

use crate::collections::{lemma_put_get, lemma_rank, rank_from, Entries};
use crate::dex_format::{units_of, width_at};
use crate::error::Error;
use crate::minidex::assemble::{least, version_from, version_of};
use crate::minidex::bytecode::opcode_at;
use crate::minidex::codeback::{code_ok, placed_code};
use crate::minidex::debugback::mapped_debug;
use crate::minidex::emit::{debug_bytes, padded};
use crate::minidex::notes::lemma_get_at;
use crate::minidex::reader::{Code, DexTables, EncodedMethod};
use crate::minidex::recode::lemma_code_again;
use crate::minidex::rewrite::{lemma_debug_again, served, twice};
use crate::minidex::sections::{code_bytes, code_section, debug_section, offset_of, or_zero};
use crate::minidex::tables::Tables;
use crate::minidex::values::Debugging;

verus! {

// ---------------------------------------------------------------------------
// The least offset
// ---------------------------------------------------------------------------

proof fn lemma_least(s: Seq<u32>)
    ensures
        s.len() == 0 ==> least(s) == 0,
        s.len() > 0 ==> s.contains(least(s)),
        forall|i: int| 0 <= i < s.len() ==> least(s) <= #[trigger] s[i],
    decreases s.len(),
{
    if s.len() > 0 {
        let rest = s.drop_last();
        lemma_least(rest);
        assert(s[s.len() - 1] == s.last());
        assert forall|i: int| 0 <= i < s.len() implies least(s) <= #[trigger] s[i] by {
            if i < s.len() - 1 {
                assert(rest[i] == s[i]);
            }
        }
        if rest.len() > 0 {
            let j = choose|j: int| 0 <= j < rest.len() && rest[j] == least(rest);
            assert(s[j] == least(rest));
        }
    }
}

/// The same numbers have the same least number.
proof fn lemma_least_same(a: Seq<u32>, b: Seq<u32>)
    requires
        forall|i: int| 0 <= i < a.len() ==> b.contains(#[trigger] a[i]),
        forall|i: int| 0 <= i < b.len() ==> a.contains(#[trigger] b[i]),
    ensures
        least(a) == least(b),
{
    lemma_least(a);
    lemma_least(b);
    if a.len() > 0 {
        let i = choose|i: int| 0 <= i < a.len() && a[i] == least(a);
        assert(b.contains(a[i]));
        let j = choose|j: int| 0 <= j < b.len() && b[j] == least(b);
        assert(a.contains(b[j]));
        let k = choose|k: int| 0 <= k < b.len() && b[k] == a[i];
        let l = choose|l: int| 0 <= l < a.len() && a[l] == b[j];
        assert(least(b) <= b[k]);
        assert(least(a) <= a[l]);
    } else if b.len() > 0 {
        assert(a.contains(b[0]));
    }
}

// ---------------------------------------------------------------------------
// The version
// ---------------------------------------------------------------------------

pub open spec fn later(a: u8, b: u8) -> u8 {
    if a < b {
        b
    } else {
        a
    }
}

proof fn lemma_version_from(units: Seq<u16>, pc: int, version: u8)
    requires
        0 <= pc,
        35 <= version <= 39,
        version != 36,
        version != 37,
    ensures
        version_from(units, pc, version) is Ok <==> version_from(units, pc, 35) is Ok,
        version_from(units, pc, version) is Ok ==> version_from(units, pc, version)->Ok_0 == later(
            version,
            version_from(units, pc, 35)->Ok_0,
        ),
        version_from(units, pc, 35) is Ok ==> {
            let v = version_from(units, pc, 35)->Ok_0;
            v == 35 || v == 38 || v == 39
        },
        version_from(units, pc, version) is Err ==> version_from(units, pc, version)
            == version_from(units, pc, 35),
    decreases units.len() - pc,
{
    if pc < units.len() {
        let opcode = opcode_at(units, pc);
        let a: u8 = if opcode == 0xff {
            39
        } else if 0xfa <= opcode <= 0xfb && version < 38 {
            38
        } else {
            version
        };
        let b: u8 = if opcode == 0xff {
            39
        } else if 0xfa <= opcode <= 0xfb {
            38
        } else {
            35
        };
        if width_at(units, pc) is Ok && width_at(units, pc)->Ok_0 > 0 {
            let next = pc + width_at(units, pc)->Ok_0;
            if next < units.len() {
                lemma_version_from(units, next, a);
                lemma_version_from(units, next, b);
            }
        }
    }
}

/// What a piece of code needs.
pub open spec fn version_need(code: Code) -> Result<u8, Error> {
    version_from(units_of(code.insns), 0, 35)
}

/// Whether a version is what some code needs, and no later than that.
pub open spec fn latest(codes: Seq<Code>, i: int, start: u8, version: u8) -> bool {
    &&& start <= version
    &&& forall|j: int|
        i <= j < codes.len() ==> version_need(#[trigger] codes[j]) is Ok && version_need(
            codes[j],
        )->Ok_0 <= version
    &&& version == start || exists|j: int|
        i <= j < codes.len() && version_need(#[trigger] codes[j]) is Ok && version_need(
            codes[j],
        )->Ok_0 == version
}

proof fn lemma_version_of(codes: Seq<Code>, i: int, version: u8)
    requires
        0 <= i,
        version == 35 || version == 38 || version == 39,
    ensures
        version_of(codes, i, version) is Ok <==> forall|j: int|
            i <= j < codes.len() ==> version_need(#[trigger] codes[j]) is Ok,
        version_of(codes, i, version) is Ok ==> latest(
            codes,
            i,
            version,
            version_of(codes, i, version)->Ok_0,
        ),
    decreases codes.len() - i,
{
    if i < codes.len() {
        let units = units_of(codes[i].insns);
        lemma_version_from(units, 0, version);
        if version_from(units, 0, version) is Ok {
            let next = version_from(units, 0, version)->Ok_0;
            lemma_version_of(codes, i + 1, next);
            if version_of(codes, i + 1, next) is Ok {
                let out = version_of(codes, i + 1, next)->Ok_0;
                assert forall|j: int| i <= j < codes.len() implies version_need(
                    #[trigger] codes[j],
                ) is Ok && version_need(codes[j])->Ok_0 <= out by {
                    if j == i {
                        assert(next <= out);
                    }
                }
                if out != version {
                    if out == next {
                        assert(version_need(codes[i])->Ok_0 == out);
                    }
                }
            } else {
                if forall|j: int|
                    i <= j < codes.len() ==> version_need(#[trigger] codes[j]) is Ok {
                    assert forall|j: int| i + 1 <= j < codes.len() implies version_need(
                        #[trigger] codes[j],
                    ) is Ok by {}
                }
            }
        } else {
            assert(version_need(codes[i]) is Err);
        }
    }
}

/// The same instructions need the same version, in whatever order.
pub proof fn lemma_version_same(a: Seq<Code>, b: Seq<Code>)
    requires
        version_of(a, 0, 35) is Ok,
        forall|i: int|
            0 <= i < a.len() ==> exists|j: int|
                0 <= j < b.len() && (#[trigger] b[j]).insns == (#[trigger] a[i]).insns,
        forall|j: int|
            0 <= j < b.len() ==> exists|i: int|
                0 <= i < a.len() && (#[trigger] a[i]).insns == (#[trigger] b[j]).insns,
    ensures
        version_of(b, 0, 35) == version_of(a, 0, 35),
{
    lemma_version_of(a, 0, 35);
    lemma_version_of(b, 0, 35);
    let v = version_of(a, 0, 35)->Ok_0;
    assert forall|j: int| 0 <= j < b.len() implies version_need(#[trigger] b[j]) is Ok
        && version_need(b[j])->Ok_0 <= v by {
        let i = choose|i: int| 0 <= i < a.len() && (#[trigger] a[i]).insns == b[j].insns;
        assert(version_need(a[i]) == version_need(b[j]));
    }
    let w = version_of(b, 0, 35)->Ok_0;
    if v != 35 {
        let i = choose|i: int|
            0 <= i < a.len() && version_need(#[trigger] a[i]) is Ok && version_need(a[i])->Ok_0
                == v;
        let j = choose|j: int| 0 <= j < b.len() && (#[trigger] b[j]).insns == a[i].insns;
        assert(version_need(b[j]) == version_need(a[i]));
    }
    if w != 35 {
        let j = choose|j: int|
            0 <= j < b.len() && version_need(#[trigger] b[j]) is Ok && version_need(b[j])->Ok_0
                == w;
        assert(version_need(b[j])->Ok_0 <= v);
    }
}

// ---------------------------------------------------------------------------
// Offsets, method by method
// ---------------------------------------------------------------------------

/// Whether the identifiers of some methods differ.
pub open spec fn ids_apart(methods: Seq<EncodedMethod>) -> bool {
    forall|i: int, j: int|
        0 <= i < j < methods.len() ==> (#[trigger] methods[i]).method_idx != (
        #[trigger] methods[j]).method_idx
}

/// Whether an identifier is that of one of the first `i` methods.
pub open spec fn id_met(methods: Seq<EncodedMethod>, i: int, id: u32) -> bool {
    exists|j: int| 0 <= j < i && (#[trigger] methods[j]).method_idx == id
}

/// Whether the first `i` methods of two lists have the same offsets, and no
/// others have any.
pub open spec fn paired(
    a: Seq<EncodedMethod>,
    b: Seq<EncodedMethod>,
    i: int,
    x: Entries<u32>,
    y: Entries<u32>,
) -> bool {
    &&& x.wf()
    &&& y.wf()
    &&& x.keys.len() == y.keys.len()
    &&& forall|j: int|
        0 <= j < i ==> x.get((#[trigger] a[j]).method_idx) == y.get(b[j].method_idx)
    &&& forall|id: u32| (#[trigger] x.get(id)) is Some ==> id_met(a, i, id)
    &&& forall|id: u32| (#[trigger] y.get(id)) is Some ==> id_met(b, i, id)
}

/// A method that has no offset.
proof fn lemma_paired_skip(
    a: Seq<EncodedMethod>,
    b: Seq<EncodedMethod>,
    i: int,
    x: Entries<u32>,
    y: Entries<u32>,
)
    requires
        0 <= i < a.len(),
        a.len() == b.len(),
        ids_apart(a),
        ids_apart(b),
        paired(a, b, i, x, y),
    ensures
        paired(a, b, i + 1, x, y),
        x.get(a[i].method_idx) is None,
        y.get(b[i].method_idx) is None,
{
    lemma_not_met(a, i);
    lemma_not_met(b, i);
    assert forall|id: u32| (#[trigger] x.get(id)) is Some implies id_met(a, i + 1, id) by {
        lemma_met_longer(a, i, id);
    }
    assert forall|id: u32| (#[trigger] y.get(id)) is Some implies id_met(b, i + 1, id) by {
        lemma_met_longer(b, i, id);
    }
}

proof fn lemma_not_met(a: Seq<EncodedMethod>, i: int)
    requires
        0 <= i < a.len(),
        ids_apart(a),
    ensures
        !id_met(a, i, a[i].method_idx),
{
    if id_met(a, i, a[i].method_idx) {
        let j = choose|j: int| 0 <= j < i && (#[trigger] a[j]).method_idx == a[i].method_idx;
        assert(a[j].method_idx != a[i].method_idx);
    }
}

proof fn lemma_met_longer(a: Seq<EncodedMethod>, i: int, id: u32)
    requires
        0 <= i < a.len(),
        id_met(a, i, id) || id == a[i].method_idx,
    ensures
        id_met(a, i + 1, id),
{
    if id == a[i].method_idx {
        assert(a[i].method_idx == id);
    } else {
        let j = choose|j: int| 0 <= j < i && (#[trigger] a[j]).method_idx == id;
        assert(0 <= j < i + 1 && a[j].method_idx == id);
    }
}

/// Putting under a key that is not there adds one key.
proof fn lemma_put_new(e: Entries<u32>, key: u32, v: u32)
    requires
        e.wf(),
        e.get(key) is None,
    ensures
        e.put(key, v).keys.len() == e.keys.len() + 1,
{
    lemma_rank(e.keys, key);
}

/// A method that gets an offset.
proof fn lemma_paired_put(
    a: Seq<EncodedMethod>,
    b: Seq<EncodedMethod>,
    i: int,
    x: Entries<u32>,
    y: Entries<u32>,
    v: u32,
)
    requires
        0 <= i < a.len(),
        a.len() == b.len(),
        ids_apart(a),
        ids_apart(b),
        paired(a, b, i, x, y),
    ensures
        paired(a, b, i + 1, x.put(a[i].method_idx, v), y.put(b[i].method_idx, v)),
{
    let p = a[i].method_idx;
    let q = b[i].method_idx;
    let more = x.put(p, v);
    let next = y.put(q, v);
    lemma_paired_skip(a, b, i, x, y);
    lemma_put_new(x, p, v);
    lemma_put_new(y, q, v);
    lemma_put_get(x, p, v, p);
    lemma_put_get(y, q, v, q);
    assert forall|j: int| 0 <= j < i + 1 implies more.get((#[trigger] a[j]).method_idx) == next.get(
        b[j].method_idx,
    ) by {
        lemma_put_get(x, p, v, a[j].method_idx);
        lemma_put_get(y, q, v, b[j].method_idx);
        if j < i {
            assert(a[j].method_idx != a[i].method_idx);
            assert(b[j].method_idx != b[i].method_idx);
        }
    }
    assert forall|id: u32| (#[trigger] more.get(id)) is Some implies id_met(a, i + 1, id) by {
        lemma_put_get(x, p, v, id);
        if id == p {
            lemma_met_longer(a, i, id);
        } else {
            assert(x.get(id) is Some);
        }
    }
    assert forall|id: u32| (#[trigger] next.get(id)) is Some implies id_met(b, i + 1, id) by {
        lemma_put_get(y, q, v, id);
        if id == q {
            lemma_met_longer(b, i, id);
        } else {
            assert(y.get(id) is Some);
        }
    }
}

/// Offsets that belong to the same methods have the same least offset.
pub proof fn lemma_paired_least(
    a: Seq<EncodedMethod>,
    b: Seq<EncodedMethod>,
    x: Entries<u32>,
    y: Entries<u32>,
)
    requires
        a.len() == b.len(),
        paired(a, b, a.len() as int, x, y),
    ensures
        least(x.values) == least(y.values),
{
    assert forall|p: int| 0 <= p < x.values.len() implies y.values.contains(
        #[trigger] x.values[p],
    ) by {
        lemma_get_at(x, p);
        assert(id_met(a, a.len() as int, x.keys[p]));
        let j = choose|j: int|
            0 <= j < a.len() && (#[trigger] a[j]).method_idx == x.keys[p];
        assert(x.get(a[j].method_idx) == y.get(b[j].method_idx));
        let q = rank_from(y.keys, b[j].method_idx, 0);
        lemma_rank(y.keys, b[j].method_idx);
        assert(y.values[q] == x.values[p]);
    }
    assert forall|p: int| 0 <= p < y.values.len() implies x.values.contains(
        #[trigger] y.values[p],
    ) by {
        lemma_get_at(y, p);
        assert(id_met(b, a.len() as int, y.keys[p]));
        let j = choose|j: int|
            0 <= j < a.len() && (#[trigger] b[j]).method_idx == y.keys[p];
        assert(x.get(a[j].method_idx) == y.get(b[j].method_idx));
        let q = rank_from(x.keys, a[j].method_idx, 0);
        lemma_rank(x.keys, a[j].method_idx);
        assert(x.values[q] == y.values[p]);
    }
    lemma_least_same(x.values, y.values);
}

/// Whether debug items go with those that they became.
pub open spec fn debugs_paired(
    a: Seq<EncodedMethod>,
    b: Seq<EncodedMethod>,
    old: Entries<Debugging>,
    new: Entries<Debugging>,
    m: Tables,
    dex: DexTables,
) -> bool {
    forall|j: int|
        0 <= j < a.len() ==> new.get(b[j].method_idx) == match old.get(
            (#[trigger] a[j]).method_idx,
        ) {
            None => None,
            Some(d) => Some(mapped_debug(d, m, dex)),
        }
}

/// Debug items are written the same twice.
#[verifier::spinoff_prover]
pub proof fn lemma_debugs_twice(
    base: int,
    a: Seq<EncodedMethod>,
    b: Seq<EncodedMethod>,
    i: int,
    old: Entries<Debugging>,
    new: Entries<Debugging>,
    dex: DexTables,
    m: Tables,
    t: DexTables,
    n: Tables,
    data: Seq<u8>,
    x: Entries<u32>,
    y: Entries<u32>,
)
    requires
        0 <= i <= a.len(),
        a.len() == b.len(),
        ids_apart(a),
        ids_apart(b),
        paired(a, b, i, x, y),
        debugs_paired(a, b, old, new, m, dex),
        twice(dex, m, t, n),
        served(dex, m, t, n),
        debug_section(base, a, i, old, m, dex, data, x) is Ok,
    ensures
        ({
            let (out, offsets) = debug_section(base, a, i, old, m, dex, data, x)->Ok_0;
            let again = debug_section(base, b, i, new, n, t, data, y);
            &&& again is Ok
            &&& again->Ok_0.0 == out
            &&& paired(a, b, a.len() as int, offsets, again->Ok_0.1)
        }),
    decreases a.len() - i,
{
    if i < a.len() {
        let id = a[i].method_idx;
        match old.get(id) {
            None => {
                assert(new.get(b[i].method_idx) is None);
                lemma_paired_skip(a, b, i, x, y);
                lemma_debugs_twice(base, a, b, i + 1, old, new, dex, m, t, n, data, x, y);
            },
            Some(d) => {
                assert(new.get(b[i].method_idx) == Some(mapped_debug(d, m, dex)));
                lemma_debug_again(d, dex, m, t, n, data);
                let more = debug_bytes(d, m, dex, data)->Ok_0;
                let v = offset_of(base, data);
                lemma_paired_put(a, b, i, x, y, v);
                lemma_debugs_twice(
                    base,
                    a,
                    b,
                    i + 1,
                    old,
                    new,
                    dex,
                    m,
                    t,
                    n,
                    more,
                    x.put(id, v),
                    y.put(b[i].method_idx, v),
                );
            },
        }
    }
}

/// Whether pieces of code go with those that they became.
pub open spec fn codes_paired(
    a: Seq<EncodedMethod>,
    b: Seq<EncodedMethod>,
    old: Entries<Code>,
    new: Entries<Code>,
    debug: Entries<u32>,
) -> bool {
    forall|j: int|
        0 <= j < a.len() ==> match old.get((#[trigger] a[j]).method_idx) {
            None => new.get(b[j].method_idx) is None,
            Some(code) => code_ok(code) && new.get(b[j].method_idx) == Some(
                placed_code(code, or_zero(debug, a[j].method_idx)),
            ),
        }
}

/// Code is written the same twice.
#[verifier::spinoff_prover]
pub proof fn lemma_codes_twice(
    base: int,
    a: Seq<EncodedMethod>,
    b: Seq<EncodedMethod>,
    i: int,
    old: Entries<Code>,
    new: Entries<Code>,
    first: Entries<u32>,
    second: Entries<u32>,
    data: Seq<u8>,
    x: Entries<u32>,
    y: Entries<u32>,
)
    requires
        0 <= i <= a.len(),
        a.len() == b.len(),
        ids_apart(a),
        ids_apart(b),
        paired(a, b, i, x, y),
        paired(a, b, a.len() as int, first, second),
        codes_paired(a, b, old, new, first),
        code_section(base, a, i, old, first, data, x) is Ok,
    ensures
        ({
            let (out, offsets) = code_section(base, a, i, old, first, data, x)->Ok_0;
            let again = code_section(base, b, i, new, second, data, y);
            &&& again is Ok
            &&& again->Ok_0.0 == out
            &&& paired(a, b, a.len() as int, offsets, again->Ok_0.1)
        }),
    decreases a.len() - i,
{
    if i < a.len() {
        let id = a[i].method_idx;
        match old.get(id) {
            None => {
                assert(new.get(b[i].method_idx) is None);
                lemma_paired_skip(a, b, i, x, y);
                lemma_codes_twice(base, a, b, i + 1, old, new, first, second, data, x, y);
            },
            Some(code) => {
                let off = or_zero(first, id);
                assert(first.get(a[i].method_idx) == second.get(b[i].method_idx));
                assert(or_zero(second, b[i].method_idx) == off);
                lemma_code_again(code, placed_code(code, off), off, padded(data));
                let more = code_bytes(code, off, padded(data))->Ok_0;
                let v = offset_of(base, padded(data));
                lemma_paired_put(a, b, i, x, y, v);
                lemma_codes_twice(
                    base,
                    a,
                    b,
                    i + 1,
                    old,
                    new,
                    first,
                    second,
                    more,
                    x.put(id, v),
                    y.put(b[i].method_idx, v),
                );
            },
        }
    }
}

} // verus!
