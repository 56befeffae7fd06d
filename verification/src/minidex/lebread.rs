//! What variable-length numbers are, digit by digit.
use vstd::prelude::*;

use crate::dex_format::{uleb_digits, uleb_in};
use crate::error::Error;
use crate::minidex::leb::{sleb_digits, sleb_in};

verus! {

/// Whether a number of `n` digits stands at `at`: all but the last byte have
/// the high bit.
pub open spec fn digits_stand(data: Seq<u8>, at: int, n: int) -> bool {
    &&& 0 <= at
    &&& at + n <= data.len()
    &&& forall|i: int| at <= i < at + n - 1 ==> #[trigger] data[i] >= 128
    &&& data[at + n - 1] < 128
}

/// The digits of a number in base 128, the first one the lowest.
pub open spec fn digits_value(data: Seq<u8>, at: int, n: int) -> int {
    let a = data[at] % 128;
    let b = 128 * (data[at + 1] % 128);
    let c = 0x4000 * (data[at + 2] % 128);
    let d = 0x20_0000 * (data[at + 3] % 128);
    let e = 0x1000_0000 * (data[at + 4] % 128);
    if n == 1 {
        a as int
    } else if n == 2 {
        a + b
    } else if n == 3 {
        a + b + c
    } else if n == 4 {
        a + b + c + d
    } else {
        a + b + c + d + e
    }
}

/// An unsigned number of up to four digits is their value; of five digits, as
/// much of it as fits 32 bits.
pub proof fn lemma_unsigned_digits(data: Seq<u8>, at: int, n: int)
    requires
        1 <= n <= 5,
        digits_stand(data, at, n),
    ensures
        uleb_in(data, at) == Ok::<(u32, int), Error>(
            ((digits_value(data, at, n) % 0x1_0000_0000) as u32, at + n),
        ),
        n <= 4 ==> uleb_in(data, at)->Ok_0.0 == digits_value(data, at, n),
{
    reveal_with_fuel(uleb_digits, 6);
    assert(n > 1 ==> data[at] >= 128);
    assert(n > 2 ==> data[at + 1] >= 128);
    assert(n > 3 ==> data[at + 2] >= 128);
    assert(n > 4 ==> data[at + 3] >= 128);
}

/// A signed number of up to four digits is negative where the last digit is in
/// the upper half of its range; it counts from the end of the range.
pub proof fn lemma_signed_digits(data: Seq<u8>, at: int, n: int)
    requires
        1 <= n <= 4,
        digits_stand(data, at, n),
    ensures
        sleb_in(data, at) matches Ok((v, end)) && end == at + n && v == digits_value(data, at, n)
            - (if data[at + n - 1] < 64 {
            0int
        } else if n == 1 {
            128int
        } else if n == 2 {
            0x4000int
        } else if n == 3 {
            0x20_0000int
        } else {
            0x1000_0000int
        }),
{
    let a = (data[at] % 128) as int;
    let b = a + 128 * (data[at + 1] % 128);
    let c = b + 0x4000 * (data[at + 2] % 128);
    if n > 1 {
        assert(data[at] >= 128);
        lemma_signed_step(data, at, 0, 1, 5, a);
    }
    if n > 2 {
        assert(data[at + 1] >= 128);
        lemma_signed_step(data, at + 1, a, 128, 4, b);
    }
    if n > 3 {
        assert(data[at + 2] >= 128);
        lemma_signed_step(data, at + 2, b, 0x4000, 3, c);
    }
    if n == 1 {
        lemma_signed_end(data, at, 0, 1, 5, a);
    } else if n == 2 {
        lemma_signed_end(data, at + 1, a, 128, 4, b);
    } else if n == 3 {
        lemma_signed_end(data, at + 2, b, 0x4000, 3, c);
    } else {
        lemma_signed_end(data, at + 3, c, 0x20_0000, 2, c + 0x20_0000 * (data[at + 3] % 128));
    }
}

proof fn lemma_signed_step(data: Seq<u8>, at: int, value: int, scale: int, left: nat, next: int)
    requires
        left > 0,
        at < data.len(),
        data[at] >= 128,
        next == value + (data[at] % 128) * scale,
    ensures
        sleb_digits(data, at, value, scale, left) == sleb_digits(
            data,
            at + 1,
            next,
            scale * 128,
            (left - 1) as nat,
        ),
{
}

proof fn lemma_signed_end(data: Seq<u8>, at: int, value: int, scale: int, left: nat, next: int)
    requires
        left > 1,
        at < data.len(),
        data[at] < 128,
        next == value + (data[at] % 128) * scale,
        0 <= next < 0x1000_0000,
        0 <= scale * 128 <= 0x1000_0000,
    ensures
        sleb_digits(data, at, value, scale, left) matches Ok((v, end)) && end == at + 1 && v == next
            - (if data[at] < 64 {
            0int
        } else {
            scale * 128
        }),
{
}

/// A number of more than five digits is refused, and so is one that the data
/// ends in.
pub proof fn lemma_refused_digits(data: Seq<u8>, at: int)
    requires
        0 <= at <= data.len(),
    ensures
        at + 5 <= data.len() && (forall|i: int| at <= i < at + 5 ==> #[trigger] data[i] >= 128)
            ==> uleb_in(data, at) is Err && sleb_in(data, at) is Err,
        data.len() < at + 5 && (forall|i: int| at <= i < data.len() ==> #[trigger] data[i] >= 128)
            ==> uleb_in(data, at) is Err && sleb_in(data, at) is Err,
{
    reveal_with_fuel(uleb_digits, 6);
    reveal_with_fuel(sleb_digits, 6);
}

} // verus!
