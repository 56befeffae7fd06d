//! Variable-length numbers: signed LEB128, and the writing of both kinds.
use vstd::prelude::*;

use crate::dex_format::{leb_stop, uleb_digits, uleb_in};
use crate::error::Error;

verus! {

// ---------------------------------------------------------------------------
// Reading signed numbers
// ---------------------------------------------------------------------------

/// A number cut to 32 bits and read as a signed one.
pub open spec fn signed32(n: int) -> i32 {
    let w = n % 0x1_0000_0000;
    if w >= 0x8000_0000 {
        (w - 0x1_0000_0000) as i32
    } else {
        w as i32
    }
}

/// The value of a signed LEB128 number in base 128, low digit first. The last
/// digit carries the sign unless the digits fill 32 bits.
pub open spec fn sleb_digits(data: Seq<u8>, cursor: int, value: int, scale: int, left: nat) -> Result<
    (i32, int),
    Error,
>
    decreases left,
{
    if left == 0 {
        Err(Error::InvalidSleb)
    } else if cursor >= data.len() {
        Err(Error::TruncatedSleb(cursor as u64))
    } else {
        let next = value + (data[cursor] % 128) * scale;
        if data[cursor] >= 128 {
            sleb_digits(data, cursor + 1, next, scale * 128, (left - 1) as nat)
        } else if left > 1 && data[cursor] >= 64 {
            Ok(((next - scale * 128) as i32, cursor + 1))
        } else {
            Ok((signed32(next), cursor + 1))
        }
    }
}

/// The signed LEB128 number at `cursor`, and where it ends.
pub open spec fn sleb_in(data: Seq<u8>, cursor: int) -> Result<(i32, int), Error> {
    sleb_digits(data, cursor, 0, 1, 5)
}

proof fn lemma_sleb_digits_end(data: Seq<u8>, at: int, value: int, scale: int, left: nat)
    requires
        sleb_digits(data, at, value, scale, left) is Ok,
    ensures
        at < sleb_digits(data, at, value, scale, left)->Ok_0.1 <= data.len(),
    decreases left,
{
    if data[at] >= 128 {
        lemma_sleb_digits_end(
            data,
            at + 1,
            value + (data[at] % 128) * scale,
            scale * 128,
            (left - 1) as nat,
        );
    }
}

/// A number ends behind its start and inside the data.
pub proof fn lemma_sleb_end(data: Seq<u8>, at: int)
    requires
        sleb_in(data, at) is Ok,
    ensures
        at < sleb_in(data, at)->Ok_0.1 <= data.len(),
{
    lemma_sleb_digits_end(data, at, 0, 1, 5);
}

/// Reads a signed LEB128 number and moves the cursor over the digits that it
/// looks at, also where they are no number.
pub fn read_sleb(data: &[u8], cursor: &mut u64) -> (r: Result<i32, Error>)
    ensures
        match r {
            Ok(v) => sleb_in(data@, *old(cursor) as int) == Ok::<(i32, int), Error>(
                (v, *final(cursor) as int),
            ) && *old(cursor) < *final(cursor) <= data@.len(),
            Err(e) => sleb_in(data@, *old(cursor) as int) == Err::<(i32, int), Error>(e),
        },
        *final(cursor) == leb_stop(data@, *old(cursor) as int, 5),
{
    let start: u64 = *cursor;
    let len: u64 = data.len() as u64;
    let mut at: u64 = start;
    let mut value: i64 = 0;
    let mut scale: i64 = 1;
    let mut left: u64 = 5;
    while left > 0
        invariant
            left <= 5,
            len == data@.len(),
            start <= at,
            at <= len || at == start,
            0 <= value < scale,
            scale == (if left == 5 {
                1int
            } else if left == 4 {
                0x80
            } else if left == 3 {
                0x4000
            } else if left == 2 {
                0x20_0000
            } else if left == 1 {
                0x1000_0000
            } else {
                0x8_0000_0000
            }),
            sleb_in(data@, start as int) == sleb_digits(
                data@,
                at as int,
                value as int,
                scale as int,
                left as nat,
            ),
            *cursor == at,
            leb_stop(data@, start as int, 5) == leb_stop(data@, at as int, left as nat),
            start == *old(cursor),
        decreases left,
    {
        if at >= len {
            return Err(Error::TruncatedSleb(at));
        }
        let byte: u8 = data[at as usize];
        assert(0 <= (byte % 128) * scale <= 127 * scale) by (nonlinear_arith)
            requires
                byte % 128 <= 127,
                0 <= byte % 128,
                0 <= scale,
        ;
        value = value + (byte % 128) as i64 * scale;
        at = at + 1;
        *cursor = at;
        if byte < 128 {
            if left > 1 && byte >= 64 {
                return Ok((value - scale * 128) as i32);
            }
            let low: i64 = (value as u64 % 0x1_0000_0000) as i64;
            if low >= 0x8000_0000 {
                return Ok((low - 0x1_0000_0000) as i32);
            }
            return Ok(low as i32);
        }
        scale = scale * 128;
        left = left - 1;
    }
    Err(Error::InvalidSleb)
}

// ---------------------------------------------------------------------------
// Writing
// ---------------------------------------------------------------------------

/// The shortest unsigned LEB128 form of a number.
pub open spec fn uleb_bytes(v: u32) -> Seq<u8>
    decreases v,
{
    if v < 128 {
        seq![v as u8]
    } else {
        seq![(v % 128 + 128) as u8] + uleb_bytes(v / 128)
    }
}

/// The shortest signed LEB128 form of a number.
pub open spec fn sleb_bytes(v: int) -> Seq<u8>
    decreases
            if v < 0 {
                -v
            } else {
                v
            },
{
    let low = v % 128;
    if -64 <= v < 64 {
        seq![low as u8]
    } else {
        seq![(low + 128) as u8] + sleb_bytes(v / 128)
    }
}

pub fn write_uleb(value: u32, out: &mut Vec<u8>)
    ensures
        final(out)@ == old(out)@ + uleb_bytes(value),
{
    let ghost start = out@;
    let mut rest: u32 = value;
    while rest >= 128
        invariant
            start + uleb_bytes(value) == out@ + uleb_bytes(rest),
        decreases rest,
    {
        let ghost before = out@;
        out.push((rest % 128 + 128) as u8);
        rest = rest / 128;
        assert(out@ + uleb_bytes(rest) =~= before + (seq![out@.last()] + uleb_bytes(rest)));
    }
    out.push(rest as u8);
    assert(out@ =~= start + uleb_bytes(value));
}

pub fn write_sleb(value: i32, out: &mut Vec<u8>)
    ensures
        final(out)@ == old(out)@ + sleb_bytes(value as int),
{
    let ghost start = out@;
    let mut rest: i64 = value as i64;
    while rest < -64 || rest >= 64
        invariant
            -0x8000_0000 <= rest <= 0x7fff_ffff,
            start + sleb_bytes(value as int) == out@ + sleb_bytes(rest as int),
        decreases
                if rest < 0 {
                    -rest
                } else {
                    rest as int
                },
    {
        let ghost before = out@;
        let ghost whole = rest as int;
        let lifted: u64 = (rest + 0x80_0000_0000) as u64;
        assert(lifted % 128 == whole % 128);
        assert(lifted / 128 - 0x1_0000_0000 == whole / 128);
        out.push((lifted % 128 + 128) as u8);
        rest = (lifted / 128) as i64 - 0x1_0000_0000;
        assert(out@ + sleb_bytes(rest as int) =~= before + (seq![out@.last()] + sleb_bytes(
            rest as int,
        )));
    }
    let lifted: u64 = (rest + 0x80_0000_0000) as u64;
    assert(lifted % 128 == (rest as int) % 128);
    out.push((lifted % 128) as u8);
    assert(out@ =~= start + sleb_bytes(value as int));
}

// ---------------------------------------------------------------------------
// What is written reads back
// ---------------------------------------------------------------------------

/// How many values `left` digits can tell apart.
spec fn reach(left: nat) -> int
    decreases left,
{
    if left == 0 {
        1
    } else {
        128 * reach((left - 1) as nat)
    }
}

/// Whether `part` stands in `data` at `at`.
pub open spec fn stands_at(data: Seq<u8>, at: int, part: Seq<u8>) -> bool {
    &&& 0 <= at
    &&& at + part.len() <= data.len()
    &&& forall|i: int| 0 <= i < part.len() ==> data[at + i] == #[trigger] part[i]
}

proof fn lemma_uleb_digits(data: Seq<u8>, at: int, value: int, scale: int, left: nat, v: u32)
    requires
        stands_at(data, at, uleb_bytes(v)),
        v < reach(left),
        left > 0,
        0 <= value,
        0 <= scale,
        value + v * scale <= u32::MAX,
    ensures
        uleb_digits(data, at, value, scale, left) == Ok::<(u32, int), Error>(
            ((value + v * scale) as u32, at + uleb_bytes(v).len()),
        ),
    decreases v,
{
    assert(data[at + 0] == uleb_bytes(v)[0]);
    if v < 128 {
        assert(uleb_bytes(v).len() == 1);
    } else {
        let low = (v % 128 + 128) as u8;
        let tail = uleb_bytes(v / 128);
        assert(uleb_bytes(v) == seq![low] + tail);
        assert(stands_at(data, at + 1, tail)) by {
            assert forall|i: int| 0 <= i < tail.len() implies data[at + 1 + i] == #[trigger] tail[i] by {
                assert(data[at + (i + 1)] == uleb_bytes(v)[i + 1]);
            }
        }
        assert(low % 128 == v % 128);
        let next = value + (v % 128) * scale;
        assert(next + (v / 128) * (scale * 128) == value + v * scale) by (nonlinear_arith)
            requires
                next == value + (v % 128) * scale,
                v == 128 * (v / 128) + v % 128,
        ;
        assert(next >= 0 && scale * 128 >= 0) by (nonlinear_arith)
            requires
                next == value + (v % 128) * scale,
                value >= 0,
                scale >= 0,
                v % 128 >= 0,
        ;
        assert(v / 128 < reach((left - 1) as nat));
        assert(left > 1);
        lemma_uleb_digits(data, at + 1, next, scale * 128, (left - 1) as nat, v / 128);
    }
}

/// An unsigned number that was written reads back as itself, and the reading
/// ends where the writing ended.
pub proof fn lemma_uleb_round_trip(data: Seq<u8>, at: int, v: u32)
    requires
        stands_at(data, at, uleb_bytes(v)),
    ensures
        uleb_in(data, at) == Ok::<(u32, int), Error>((v, at + uleb_bytes(v).len())),
{
    reveal_with_fuel(reach, 6);
    lemma_uleb_digits(data, at, 0, 1, 5, v);
}

proof fn lemma_sleb_digits(data: Seq<u8>, at: int, value: int, scale: int, left: nat, v: int)
    requires
        stands_at(data, at, sleb_bytes(v)),
        -64 * reach((left - 1) as nat) <= v < 64 * reach((left - 1) as nat),
        0 < left <= 5,
        scale * reach(left) == reach(5),
        0 <= value < scale,
        -0x8000_0000 <= value + v * scale <= 0x7fff_ffff,
    ensures
        sleb_digits(data, at, value, scale, left) == Ok::<(i32, int), Error>(
            ((value + v * scale) as i32, at + sleb_bytes(v).len()),
        ),
    decreases left,
{
    reveal_with_fuel(reach, 6);
    assert(data[at + 0] == sleb_bytes(v)[0]);
    let total = value + v * scale;
    let low = v % 128;
    let next = value + low * scale;
    assert(total == next + (v / 128) * (scale * 128)) by (nonlinear_arith)
        requires
            total == value + v * scale,
            next == value + low * scale,
            v == 128 * (v / 128) + low,
    ;
    if -64 <= v < 64 {
        assert(sleb_bytes(v).len() == 1);
        if v < 0 {
            assert(v / 128 == -1);
            assert((v / 128) * (scale * 128) == -(scale * 128)) by (nonlinear_arith)
                requires
                    v / 128 == -1,
            ;
            assert(total == next - scale * 128);
            if left == 1 {
                assert(scale == 0x1000_0000);
                assert(signed32(next) == total);
            }
        } else {
            assert(v / 128 == 0);
            assert((v / 128) * (scale * 128) == 0) by (nonlinear_arith)
                requires
                    v / 128 == 0,
            ;
            assert(total == next);
            assert(next >= 0) by (nonlinear_arith)
                requires
                    next == value + low * scale,
                    value >= 0,
                    low >= 0,
                    scale > 0,
            ;
        }
    } else {
        let tail = sleb_bytes(v / 128);
        assert(sleb_bytes(v) == seq![(low + 128) as u8] + tail);
        assert(stands_at(data, at + 1, tail)) by {
            assert forall|i: int| 0 <= i < tail.len() implies data[at + 1 + i] == #[trigger] tail[i] by {
                assert(data[at + (i + 1)] == sleb_bytes(v)[i + 1]);
            }
        }
        assert(((low + 128) as u8) % 128 == low);
        assert(left > 1);
        assert(0 <= next < scale * 128) by (nonlinear_arith)
            requires
                next == value + low * scale,
                0 <= value < scale,
                0 <= low <= 127,
        ;
        assert((scale * 128) * reach((left - 1) as nat) == scale * reach(left)) by (nonlinear_arith)
            requires
                reach(left) == 128 * reach((left - 1) as nat),
        ;
        lemma_sleb_digits(data, at + 1, next, scale * 128, (left - 1) as nat, v / 128);
    }
}

/// A signed number that was written reads back as itself, and the reading
/// ends where the writing ended.
pub proof fn lemma_sleb_round_trip(data: Seq<u8>, at: int, v: i32)
    requires
        stands_at(data, at, sleb_bytes(v as int)),
    ensures
        sleb_in(data, at) == Ok::<(i32, int), Error>((v, at + sleb_bytes(v as int).len())),
{
    reveal_with_fuel(reach, 6);
    lemma_sleb_digits(data, at, 0, 1, 5, v as int);
}

} // verus!
