//! The code items of the extracted file, read again.
use vstd::prelude::*;

use crate::collections::{found, low32};
use crate::dex_format::{bytes_in, le16, le32, u16_in, u32_in};
use crate::error::Error;
use crate::minidex::emit::{le16_bytes, le32_bytes};
use crate::minidex::leb::{lemma_sleb_round_trip, sleb_bytes, sleb_in, stands_at, uleb_bytes};
use crate::minidex::members::lemma_number_read;
use crate::minidex::readback::{
    begins_with, code_head, lemma_begins_chain, lemma_code_grows, lemma_tries_grow,
};
use crate::minidex::reader::{
    aligned4, catches_in, code_in, handler_step, handlers_in, magnitude, pair_step, try_in,
    try_reader, Code, Handler, TryItem,
};
use crate::minidex::roundtrip::lemma_collect_all;
use crate::minidex::sections::{code_bytes, handler_bytes, handlers_bytes, pairs_bytes, tries_bytes};
use crate::results::{collect, repeat};

verus! {

// ---------------------------------------------------------------------------
// Handlers
// ---------------------------------------------------------------------------

proof fn lemma_pairs_grow(pairs: Seq<(u32, u32)>, i: int, done: Seq<u8>)
    ensures
        begins_with(pairs_bytes(pairs, i, done), done),
    decreases pairs.len() - i,
{
    if i < pairs.len() {
        let more = done + uleb_bytes(pairs[i].0) + uleb_bytes(pairs[i].1);
        lemma_pairs_grow(pairs, i + 1, more);
        lemma_begins_chain(done, more, pairs_bytes(pairs, i, done));
    }
}

proof fn lemma_pairs_back(
    file: Seq<u8>,
    base: int,
    whole: Seq<u8>,
    pairs: Seq<(u32, u32)>,
    i: int,
    done: Seq<u8>,
)
    requires
        stands_at(file, base, whole),
        begins_with(whole, pairs_bytes(pairs, i, done)),
        0 <= i <= pairs.len(),
    ensures
        repeat(pair_step(file), base + done.len(), (pairs.len() - i) as nat, pairs.take(i)) == Ok::<
            (Seq<(u32, u32)>, int),
            Error,
        >((pairs, base + pairs_bytes(pairs, i, done).len())),
    decreases pairs.len() - i,
{
    if i < pairs.len() {
        let a = done + uleb_bytes(pairs[i].0);
        let b = a + uleb_bytes(pairs[i].1);
        lemma_pairs_grow(pairs, i + 1, b);
        lemma_begins_chain(b, pairs_bytes(pairs, i, done), whole);
        assert(begins_with(b, a));
        lemma_begins_chain(a, b, whole);
        lemma_number_read(file, base, whole, done, pairs[i].0);
        lemma_number_read(file, base, whole, a, pairs[i].1);
        assert(pair_step(file)(base + done.len()) == Ok::<((u32, u32), int), Error>(
            (pairs[i], base + b.len()),
        ));
        assert(pairs.take(i).push(pairs[i]) =~= pairs.take(i + 1));
        lemma_pairs_back(file, base, whole, pairs, i + 1, b);
    } else {
        assert(pairs.take(i) =~= pairs);
    }
}

/// A handler list as it is read: as many pairs as its count says, and an
/// address for everything else if the count is not positive.
pub open spec fn handler_ok(h: Handler) -> bool {
    &&& h.pairs.len() == magnitude(h.size)
    &&& (h.catch_all_addr is Some) == (h.size <= 0)
}

pub proof fn lemma_signed_read(file: Seq<u8>, base: int, whole: Seq<u8>, done: Seq<u8>, v: i32)
    requires
        stands_at(file, base, whole),
        begins_with(whole, done + sleb_bytes(v as int)),
    ensures
        sleb_in(file, base + done.len()) == Ok::<(i32, int), Error>(
            (v, base + done.len() + sleb_bytes(v as int).len()),
        ),
{
    let part = sleb_bytes(v as int);
    let at = base + done.len();
    let head = done + part;
    assert forall|i: int| 0 <= i < part.len() implies file[at + i] == #[trigger] part[i] by {
        let k = done.len() + i;
        assert(head[k] == part[i]);
        assert(whole[k] == head[k]);
        assert(file[base + k] == whole[k]);
    }
    lemma_sleb_round_trip(file, at, v);
}

proof fn lemma_handler_grows(h: Handler, done: Seq<u8>)
    ensures
        begins_with(handler_bytes(h, done), done + sleb_bytes(h.size as int)),
        begins_with(handler_bytes(h, done), done),
        begins_with(
            handler_bytes(h, done),
            pairs_bytes(h.pairs, 0, done + sleb_bytes(h.size as int)),
        ),
{
    let a = done + sleb_bytes(h.size as int);
    let b = pairs_bytes(h.pairs, 0, a);
    lemma_pairs_grow(h.pairs, 0, a);
    lemma_begins_chain(a, b, handler_bytes(h, done));
    assert(begins_with(a, done));
    lemma_begins_chain(done, a, handler_bytes(h, done));
}

/// A handler list that was written reads back, at its new offset.
proof fn lemma_handler_back(file: Seq<u8>, base: int, whole: Seq<u8>, h: Handler, done: Seq<u8>)
    requires
        stands_at(file, base, whole),
        begins_with(whole, handler_bytes(h, done)),
        done.len() <= 0xffff,
        handler_ok(h),
    ensures
        handler_step(file, base)(base + done.len()) == Ok::<(Handler, int), Error>(
            (moved_handler(h, done.len() as int), base + handler_bytes(h, done).len()),
        ),
{
    let a = done + sleb_bytes(h.size as int);
    let b = pairs_bytes(h.pairs, 0, a);
    let all = handler_bytes(h, done);
    lemma_handler_grows(h, done);
    lemma_begins_chain(a, all, whole);
    lemma_begins_chain(b, all, whole);
    lemma_signed_read(file, base, whole, done, h.size);
    assert(h.pairs.take(0) =~= Seq::<(u32, u32)>::empty());
    lemma_pairs_back(file, base, whole, h.pairs, 0, a);
    if h.catch_all_addr is Some {
        lemma_number_read(file, base, whole, b, h.catch_all_addr->Some_0);
    }
}

/// A handler list at another offset.
pub open spec fn moved_handler(h: Handler, offset: int) -> Handler {
    Handler { old_offset: offset as u16, ..h }
}

/// The handler lists from `i` on at their new offsets.
pub open spec fn moved_handlers(handlers: Seq<Handler>, i: int, done: Seq<u8>) -> Seq<Handler>
    decreases handlers.len() - i,
{
    if i >= handlers.len() {
        Seq::empty()
    } else {
        seq![moved_handler(handlers[i], done.len() as int)] + moved_handlers(
            handlers,
            i + 1,
            handler_bytes(handlers[i], done),
        )
    }
}

proof fn lemma_handlers_grow(handlers: Seq<Handler>, i: int, done: Seq<u8>, moved: Map<u32, u16>)
    requires
        handlers_bytes(handlers, i, done, moved) is Ok,
        0 <= i <= handlers.len(),
    ensures
        begins_with(handlers_bytes(handlers, i, done, moved)->Ok_0.0, done),
        done.len() + handlers.len() - i <= handlers_bytes(handlers, i, done, moved)->Ok_0.0.len(),
    decreases handlers.len() - i,
{
    if i < handlers.len() {
        let more = handler_bytes(handlers[i], done);
        let next = moved.insert(handlers[i].old_offset as u32, done.len() as u16);
        lemma_handler_grows(handlers[i], done);
        assert(sleb_bytes(handlers[i].size as int).len() >= 1);
        lemma_handlers_grow(handlers, i + 1, more, next);
        lemma_begins_chain(done, more, handlers_bytes(handlers, i, done, moved)->Ok_0.0);
    }
}

proof fn lemma_handlers_back(
    file: Seq<u8>,
    base: int,
    whole: Seq<u8>,
    handlers: Seq<Handler>,
    i: int,
    done: Seq<u8>,
    moved: Map<u32, u16>,
    items: Seq<Handler>,
)
    requires
        stands_at(file, base, whole),
        handlers_bytes(handlers, i, done, moved) is Ok,
        begins_with(whole, handlers_bytes(handlers, i, done, moved)->Ok_0.0),
        0 <= i <= handlers.len(),
        forall|j: int| 0 <= j < handlers.len() ==> handler_ok(#[trigger] handlers[j]),
    ensures
        repeat(
            handler_step(file, base),
            base + done.len(),
            (handlers.len() - i) as nat,
            items,
        ) matches Ok((all, _)) && all == items + moved_handlers(handlers, i, done),
    decreases handlers.len() - i,
{
    if i < handlers.len() {
        let h = handlers[i];
        let more = handler_bytes(h, done);
        let next = moved.insert(h.old_offset as u32, done.len() as u16);
        let all = handlers_bytes(handlers, i, done, moved)->Ok_0.0;
        lemma_handlers_grow(handlers, i + 1, more, next);
        lemma_begins_chain(more, all, whole);
        lemma_handler_back(file, base, whole, h, done);
        let item = moved_handler(h, done.len() as int);
        lemma_handlers_back(file, base, whole, handlers, i + 1, more, next, items.push(item));
        assert(items.push(item) + moved_handlers(handlers, i + 1, more) =~= items
            + moved_handlers(handlers, i, done));
    } else {
        assert(items + moved_handlers(handlers, i, done) =~= items);
    }
}

// ---------------------------------------------------------------------------
// Try items
// ---------------------------------------------------------------------------

/// A try item with the new offset of its handler list.
pub open spec fn moved_try(t: TryItem, moved: Map<u32, u16>) -> TryItem {
    TryItem {
        handler_off: match found(moved, t.handler_off as u32) {
            Some(offset) => offset,
            None => t.handler_off,
        },
        ..t
    }
}

pub open spec fn moved_tries(tries: Seq<TryItem>, moved: Map<u32, u16>) -> Seq<TryItem> {
    tries.map_values(|t: TryItem| moved_try(t, moved))
}

/// The eight bytes of a try item.
spec fn try_bytes(t: TryItem) -> Seq<u8> {
    le32_bytes(t.start_addr) + le16_bytes(t.insn_count) + le16_bytes(t.handler_off)
}

proof fn lemma_try_back(file: Seq<u8>, at: int, t: TryItem)
    requires
        stands_at(file, at, try_bytes(t)),
    ensures
        try_in(file, at, 0) == Ok::<TryItem, Error>(t),
{
    let part = try_bytes(t);
    assert(part.len() == 8);
    assert(file[at + 0] == part[0] && file[at + 1] == part[1] && file[at + 2] == part[2]);
    assert(file[at + 3] == part[3] && file[at + 4] == part[4] && file[at + 5] == part[5]);
    assert(file[at + 6] == part[6] && file[at + 7] == part[7]);
    let w = t.start_addr;
    assert(w % 256 + 0x100 * (w / 0x100 % 256) + 0x1_0000 * (w / 0x1_0000 % 256) + 0x100_0000 * (w
        / 0x100_0000) == w);
    assert(le32(file, at) == w);
    assert(le16(file, at + 4) == t.insn_count);
    assert(le16(file, at + 6) == t.handler_off);
    assert(at + 0 * 8 == at);
}

/// The try items from `i` on read back, at their places.
proof fn lemma_tries_back(
    file: Seq<u8>,
    base: int,
    whole: Seq<u8>,
    tries: Seq<TryItem>,
    i: int,
    moved: Map<u32, u16>,
    done: Seq<u8>,
    at: int,
)
    requires
        stands_at(file, base, whole),
        begins_with(whole, tries_bytes(tries, i, moved, done)),
        0 <= i <= tries.len(),
        at + 8 * i == base + done.len(),
    ensures
        forall|j: int|
            i <= j < tries.len() ==> #[trigger] try_in(file, at, j) == Ok::<TryItem, Error>(
                moved_try(tries[j], moved),
            ),
        tries_bytes(tries, i, moved, done).len() == done.len() + 8 * (tries.len() - i),
    decreases tries.len() - i,
{
    if i < tries.len() {
        let t = moved_try(tries[i], moved);
        let part = try_bytes(t);
        let more = done + le32_bytes(t.start_addr) + le16_bytes(t.insn_count) + le16_bytes(
            t.handler_off,
        );
        assert(more =~= done + part);
        lemma_tries_grow(tries, i + 1, moved, more);
        lemma_begins_chain(more, tries_bytes(tries, i, moved, done), whole);
        let here = base + done.len();
        assert forall|k: int| 0 <= k < part.len() implies file[here + k] == #[trigger] part[k] by {
            assert(more[done.len() + k] == part[k]);
            assert(whole[done.len() + k] == more[done.len() + k]);
            assert(file[base + (done.len() + k)] == whole[done.len() + k]);
        }
        lemma_try_back(file, here, t);
        assert(at + i * 8 == here);
        assert(try_in(file, at, i) == try_in(file, here, 0));
        lemma_tries_back(file, base, whole, tries, i + 1, moved, more, at);
    }
}

// ---------------------------------------------------------------------------
// Code items
// ---------------------------------------------------------------------------

/// Code as it is read: whole instruction units, as many try items as it says,
/// and handlers only where there are try items.
pub open spec fn code_ok(code: Code) -> bool {
    &&& code.insns.len() % 2 == 0
    &&& code.tries.len() == code.tries_size
    &&& code.tries.len() == 0 ==> code.handlers.len() == 0
    &&& forall|j: int| 0 <= j < code.handlers.len() ==> handler_ok(#[trigger] code.handlers[j])
}

/// The handler lists of some code, and where each of them went.
pub open spec fn written_handlers(code: Code) -> Result<(Seq<u8>, Map<u32, u16>), Error> {
    handlers_bytes(
        code.handlers,
        0,
        uleb_bytes(low32(code.handlers.len() as int)),
        Map::empty(),
    )
}

/// Code with a new debug item and its handler lists at their new offsets.
pub open spec fn placed_code(code: Code, debug_off: u32) -> Code {
    Code {
        debug_info_off: debug_off,
        tries: moved_tries(code.tries, written_handlers(code)->Ok_0.1),
        handlers: moved_handlers(
            code.handlers,
            0,
            uleb_bytes(low32(code.handlers.len() as int)),
        ),
        ..code
    }
}

proof fn lemma_halves(file: Seq<u8>, at: int, part: Seq<u8>, k: int, v: u16)
    requires
        stands_at(file, at, part),
        0 <= k,
        k + 2 <= part.len(),
        part[k] == v % 256,
        part[k + 1] == v / 256,
    ensures
        u16_in(file, at + k) == Ok::<u16, Error>(v),
{
    assert(file[at + k] == part[k]);
    assert(file[at + (k + 1)] == part[k + 1]);
}

proof fn lemma_quarters(file: Seq<u8>, at: int, part: Seq<u8>, k: int, v: u32)
    requires
        stands_at(file, at, part),
        0 <= k,
        k + 4 <= part.len(),
        part[k] == v % 256,
        part[k + 1] == v / 0x100 % 256,
        part[k + 2] == v / 0x1_0000 % 256,
        part[k + 3] == v / 0x100_0000,
    ensures
        u32_in(file, at + k) == Ok::<u32, Error>(v),
{
    assert(file[at + k] == part[k]);
    assert(file[at + (k + 1)] == part[k + 1]);
    assert(file[at + (k + 2)] == part[k + 2]);
    assert(file[at + (k + 3)] == part[k + 3]);
    assert(v % 256 + 0x100 * (v / 0x100 % 256) + 0x1_0000 * (v / 0x1_0000 % 256) + 0x100_0000 * (v
        / 0x100_0000) == v);
}

/// The fixed part and the instructions of a code item read back.
proof fn lemma_front_back(file: Seq<u8>, at: int, code: Code, debug_off: u32)
    requires
        stands_at(file, at, code_head(code, debug_off)),
        code.insns.len() % 2 == 0,
        code.insns.len() / 2 <= u32::MAX,
    ensures
        u16_in(file, at) == Ok::<u16, Error>(code.registers_size),
        u16_in(file, at + 2) == Ok::<u16, Error>(code.ins_size),
        u16_in(file, at + 4) == Ok::<u16, Error>(code.outs_size),
        u16_in(file, at + 6) == Ok::<u16, Error>(code.tries_size),
        u32_in(file, at + 8) == Ok::<u32, Error>(debug_off),
        u32_in(file, at + 12) == Ok::<u32, Error>((code.insns.len() / 2) as u32),
        bytes_in(file, at + 16, code.insns.len() as int) == Ok::<Seq<u8>, Error>(code.insns),
{
    let units = (code.insns.len() / 2) as u32;
    assert(low32((code.insns.len() / 2) as int) == units);
    let head = le16_bytes(code.registers_size) + le16_bytes(code.ins_size) + le16_bytes(
        code.outs_size,
    ) + le16_bytes(code.tries_size) + le32_bytes(debug_off) + le32_bytes(units);
    let part = code_head(code, debug_off);
    assert(head.len() == 16);
    assert(part =~= head + code.insns);
    assert forall|i: int| 0 <= i < 16 implies part[i] == #[trigger] head[i] by {}
    assert(part[0] == head[0] && part[1] == head[1]);
    assert(part[2] == head[2] && part[3] == head[3]);
    assert(part[4] == head[4] && part[5] == head[5]);
    assert(part[6] == head[6] && part[7] == head[7]);
    assert(part[8] == head[8] && part[9] == head[9] && part[10] == head[10] && part[11]
        == head[11]);
    assert(part[12] == head[12] && part[13] == head[13] && part[14] == head[14] && part[15]
        == head[15]);
    lemma_halves(file, at, part, 0, code.registers_size);
    lemma_halves(file, at, part, 2, code.ins_size);
    lemma_halves(file, at, part, 4, code.outs_size);
    lemma_halves(file, at, part, 6, code.tries_size);
    lemma_quarters(file, at, part, 8, debug_off);
    lemma_quarters(file, at, part, 12, units);
    assert(file.subrange(at + 16, at + 16 + code.insns.len()) =~= code.insns) by {
        assert forall|i: int| 0 <= i < code.insns.len() implies file.subrange(
            at + 16,
            at + 16 + code.insns.len(),
        )[i] == code.insns[i] by {
            assert(part[16 + i] == code.insns[i]);
            assert(file[at + (16 + i)] == part[16 + i]);
        }
    }
}

/// Try items that were written behind `done` read back.
proof fn lemma_try_list_back(
    file: Seq<u8>,
    base: int,
    whole: Seq<u8>,
    tries: Seq<TryItem>,
    moved: Map<u32, u16>,
    done: Seq<u8>,
)
    requires
        stands_at(file, base, whole),
        begins_with(whole, tries_bytes(tries, 0, moved, done)),
    ensures
        collect(try_reader(file, base + done.len()), tries.len()) == Ok::<Seq<TryItem>, Error>(
            moved_tries(tries, moved),
        ),
        tries_bytes(tries, 0, moved, done).len() == done.len() + 8 * tries.len(),
{
    let at = base + done.len();
    lemma_tries_back(file, base, whole, tries, 0, moved, done, at);
    let f = try_reader(file, at);
    let items = moved_tries(tries, moved);
    assert forall|i: int| 0 <= i < items.len() implies #[trigger] f(i) == Ok::<TryItem, Error>(
        items[i],
    ) by {
        assert(try_in(file, at, i) == Ok::<TryItem, Error>(moved_try(tries[i], moved)));
    }
    lemma_collect_all(f, items, items.len());
    assert(items.take(items.len() as int) =~= items);
}

/// Handler lists that were written read back, at their new offsets.
proof fn lemma_handler_lists_back(
    file: Seq<u8>,
    start: int,
    handlers: Seq<Handler>,
    bytes: Seq<u8>,
    moved: Map<u32, u16>,
)
    requires
        handlers_bytes(handlers, 0, uleb_bytes(low32(handlers.len() as int)), Map::empty()) == Ok::<
            (Seq<u8>, Map<u32, u16>),
            Error,
        >((bytes, moved)),
        stands_at(file, start, bytes),
        bytes.len() <= u32::MAX,
        forall|j: int| 0 <= j < handlers.len() ==> handler_ok(#[trigger] handlers[j]),
    ensures
        handlers_in(file, start) == Ok::<Seq<Handler>, Error>(
            moved_handlers(handlers, 0, uleb_bytes(low32(handlers.len() as int))),
        ),
{
    let n = low32(handlers.len() as int);
    let count = uleb_bytes(n);
    let nothing = Seq::<u8>::empty();
    let none = Seq::<Handler>::empty();
    lemma_handlers_grow(handlers, 0, count, Map::empty());
    assert(nothing + count =~= count);
    lemma_number_read(file, start, bytes, nothing, n);
    assert(begins_with(bytes, bytes));
    lemma_handlers_back(file, start, bytes, handlers, 0, count, Map::empty(), none);
    assert(none + moved_handlers(handlers, 0, count) =~= moved_handlers(handlers, 0, count));
    assert(n == handlers.len());
}

/// The try items and the handlers of a code item read back.
#[verifier::spinoff_prover]
proof fn lemma_catches_back(
    file: Seq<u8>,
    base: int,
    code: Code,
    debug_off: u32,
    aligned: Seq<u8>,
)
    requires
        code_ok(code),
        code.tries.len() > 0,
        written_handlers(code) is Ok,
        written_handlers(code)->Ok_0.0.len() <= u32::MAX,
        stands_at(
            file,
            base,
            tries_bytes(code.tries, 0, written_handlers(code)->Ok_0.1, aligned)
                + written_handlers(code)->Ok_0.0,
        ),
    ensures
        catches_placed(file, base + aligned.len(), placed_code(code, debug_off)),
{
    reveal(catches_placed);
    let (handlers, moved) = written_handlers(code)->Ok_0;
    let tried = tries_bytes(code.tries, 0, moved, aligned);
    let whole = tried + handlers;
    let at = base + aligned.len();
    assert(begins_with(whole, tried));
    lemma_try_list_back(file, base, whole, code.tries, moved, aligned);
    let start = base + tried.len();
    assert(stands_at(file, start, handlers)) by {
        assert forall|i: int| 0 <= i < handlers.len() implies file[start + i]
            == #[trigger] handlers[i] by {
            assert(whole[tried.len() + i] == handlers[i]);
            assert(file[base + (tried.len() + i)] == whole[tried.len() + i]);
        }
    }
    lemma_handler_lists_back(file, start, code.handlers, handlers, moved);
    assert(start == at + code.tries_size * 8);
}

/// Whether a code item was written behind `done` in `whole`.
#[verifier::opaque]
pub open spec fn code_written(whole: Seq<u8>, code: Code, debug_off: u32, done: Seq<u8>) -> bool {
    &&& code_bytes(code, debug_off, done) is Ok
    &&& begins_with(whole, code_bytes(code, debug_off, done)->Ok_0)
}

proof fn lemma_code_front(
    file: Seq<u8>,
    base: int,
    whole: Seq<u8>,
    code: Code,
    debug_off: u32,
    done: Seq<u8>,
)
    requires
        stands_at(file, base, whole),
        code_written(whole, code, debug_off, done),
    ensures
        stands_at(file, base + done.len(), code_head(code, debug_off)),
        code_head(code, debug_off).len() == 16 + code.insns.len(),
        done.len() + 16 + code.insns.len() <= whole.len(),
{
    reveal(code_written);
    let all = code_bytes(code, debug_off, done)->Ok_0;
    let part = code_head(code, debug_off);
    let head = done + part;
    let at = base + done.len();
    lemma_code_grows(code, debug_off, done);
    lemma_begins_chain(head, all, whole);
    assert forall|i: int| 0 <= i < part.len() implies file[at + i] == #[trigger] part[i] by {
        assert(head[done.len() + i] == part[i]);
        assert(whole[done.len() + i] == head[done.len() + i]);
        assert(file[base + (done.len() + i)] == whole[done.len() + i]);
    }
}

/// Where the try items and the handlers of a code item stand.
proof fn lemma_written_catches(
    file: Seq<u8>,
    base: int,
    whole: Seq<u8>,
    code: Code,
    debug_off: u32,
    done: Seq<u8>,
)
    requires
        stands_at(file, base, whole),
        whole.len() <= u32::MAX,
        code_written(whole, code, debug_off, done),
        code.tries.len() > 0,
    ensures
        written_handlers(code) is Ok,
        stands_at(
            file,
            base,
            tries_bytes(
                code.tries,
                0,
                written_handlers(code)->Ok_0.1,
                front_aligned(code, debug_off, done),
            ) + written_handlers(code)->Ok_0.0,
        ),
        written_handlers(code)->Ok_0.0.len() <= u32::MAX,
        front_aligned(code, debug_off, done).len() == done.len() + 16 + code.insns.len() + if (
        code.insns.len() / 2) % 2 != 0 {
            2int
        } else {
            0
        },
{
    reveal(code_written);
    lemma_code_shape(code, debug_off, done);
    lemma_prefix_stands(file, base, whole, code_bytes(code, debug_off, done)->Ok_0);
}

proof fn lemma_prefix_stands(file: Seq<u8>, base: int, whole: Seq<u8>, part: Seq<u8>)
    requires
        stands_at(file, base, whole),
        begins_with(whole, part),
    ensures
        stands_at(file, base, part),
{
    assert forall|i: int| 0 <= i < part.len() implies file[base + i] == #[trigger] part[i] by {
        assert(whole[i] == part[i]);
        assert(file[base + i] == whole[i]);
    }
}

/// A code item up to its try items, behind `done`.
#[verifier::opaque]
spec fn front_aligned(code: Code, debug_off: u32, done: Seq<u8>) -> Seq<u8> {
    let head = done + le16_bytes(code.registers_size) + le16_bytes(code.ins_size) + le16_bytes(
        code.outs_size,
    ) + le16_bytes(code.tries_size) + le32_bytes(debug_off) + le32_bytes(
        low32((code.insns.len() / 2) as int),
    ) + code.insns;
    if (code.insns.len() / 2) % 2 != 0 {
        head + le16_bytes(0)
    } else {
        head
    }
}

proof fn lemma_code_shape(code: Code, debug_off: u32, done: Seq<u8>)
    requires
        code_bytes(code, debug_off, done) is Ok,
        code.tries.len() > 0,
    ensures
        written_handlers(code) is Ok,
        code_bytes(code, debug_off, done)->Ok_0 == tries_bytes(
            code.tries,
            0,
            written_handlers(code)->Ok_0.1,
            front_aligned(code, debug_off, done),
        ) + written_handlers(code)->Ok_0.0,
        front_aligned(code, debug_off, done).len() == done.len() + 16 + code.insns.len() + if (
        code.insns.len() / 2) % 2 != 0 {
            2int
        } else {
            0
        },
{
    reveal(front_aligned);
}

proof fn lemma_aligned(at: int, n: int)
    requires
        at % 4 == 0,
        n % 2 == 0,
        0 <= n,
    ensures
        aligned4(at + n) == at + n + if (n / 2) % 2 != 0 {
            2int
        } else {
            0
        },
{
}

#[verifier::spinoff_prover]
proof fn lemma_code_catches(
    file: Seq<u8>,
    base: int,
    whole: Seq<u8>,
    code: Code,
    debug_off: u32,
    done: Seq<u8>,
)
    requires
        stands_at(file, base, whole),
        whole.len() <= u32::MAX,
        code_written(whole, code, debug_off, done),
        code_ok(code),
        base % 4 == 0,
        done.len() % 4 == 0,
    ensures
        catches_placed(
            file,
            aligned4(base + done.len() + 16 + code.insns.len()),
            placed_code(code, debug_off),
        ),
{
    if code.tries.len() == 0 {
        reveal(catches_placed);
        let placed = placed_code(code, debug_off);
        assert(placed.tries =~= Seq::<TryItem>::empty());
        assert(placed.handlers =~= Seq::<Handler>::empty());
    } else {
        let aligned = front_aligned(code, debug_off, done);
        lemma_written_catches(file, base, whole, code, debug_off, done);
        lemma_catches_back(file, base, code, debug_off, aligned);
        lemma_aligned(base + done.len() + 16, code.insns.len() as int);
        assert(base + aligned.len() == aligned4(base + done.len() + 16 + code.insns.len()));
    }
}

/// Whether the try items and the handlers that start at `at` are those of
/// `placed`.
#[verifier::opaque]
spec fn catches_placed(file: Seq<u8>, at: int, placed: Code) -> bool {
    catches_in(file, at, placed.tries_size) == Ok::<(Seq<TryItem>, Seq<Handler>), Error>(
        (placed.tries, placed.handlers),
    )
}

/// A code item that was written behind `done` reads back as the code with its
/// handler lists at their new offsets.
#[verifier::spinoff_prover]
pub proof fn lemma_code_back(
    file: Seq<u8>,
    base: int,
    whole: Seq<u8>,
    code: Code,
    debug_off: u32,
    done: Seq<u8>,
)
    requires
        stands_at(file, base, whole),
        whole.len() <= u32::MAX,
        code_written(whole, code, debug_off, done),
        code_ok(code),
        base % 4 == 0,
        done.len() % 4 == 0,
    ensures
        code_in(file, base + done.len()) == Ok::<Code, Error>(placed_code(code, debug_off)),
{
    let at = base + done.len();
    let placed = placed_code(code, debug_off);
    lemma_code_front(file, base, whole, code, debug_off, done);
    lemma_code_catches(file, base, whole, code, debug_off, done);
    lemma_code_composed(file, at, code, debug_off, placed);
}

#[verifier::spinoff_prover]
proof fn lemma_code_composed(file: Seq<u8>, at: int, code: Code, debug_off: u32, placed: Code)
    requires
        stands_at(file, at, code_head(code, debug_off)),
        code.insns.len() % 2 == 0,
        code.insns.len() / 2 <= u32::MAX,
        catches_placed(file, aligned4(at + 16 + code.insns.len()), placed),
        placed == (Code {
            debug_info_off: debug_off,
            tries: placed.tries,
            handlers: placed.handlers,
            ..code
        }),
    ensures
        code_in(file, at) == Ok::<Code, Error>(placed),
{
    reveal(catches_placed);
    lemma_front_back(file, at, code, debug_off);
    let units = (code.insns.len() / 2) as u32;
    assert(units * 2 == code.insns.len());
    assert(at + 16 + units * 2 == at + 16 + code.insns.len());
}

} // verus!
