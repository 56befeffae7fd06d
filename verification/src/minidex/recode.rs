//! Writing again what is in order already: sorting changes nothing, and code
//! whose operands stay what they are comes out the same.
use vstd::prelude::*;

use crate::collections::{found, low32};
use crate::dex_format::width_at;
use crate::minidex::bytecode::{opcode_at, operand_of, wide_operand, with_wide_operand, Operand};
use crate::minidex::canonical::picked;
use crate::minidex::codeback::{
    code_ok, moved_handler, moved_handlers, moved_tries, moved_try, placed_code, written_handlers,
};
use crate::minidex::emit::{le16_bytes, le32_bytes};
use crate::minidex::leb::uleb_bytes;
use crate::minidex::operands::{mapped_at, mapped_from};
use crate::minidex::reader::{Code, DexTables, Handler, TryItem};
use crate::minidex::rewrite::fixed;
use crate::minidex::sections::{code_bytes, handler_bytes, handlers_bytes, tries_bytes};
use crate::minidex::tables::Tables;
use crate::order::{lemma_place_from, lex_less, place_from, sort_order};

verus! {

/// What is in order stays in order.
pub proof fn lemma_sorted_stays(keys: Seq<Seq<u32>>, n: nat)
    requires
        n <= keys.len(),
        forall|i: int, j: int|
            #![trigger keys[i], keys[j]]
            0 <= i < j < n ==> !lex_less(keys[j], keys[i]),
    ensures
        sort_order(keys, n) == Seq::new(n, |i: int| i),
    decreases n,
{
    if n > 0 {
        let rest = sort_order(keys, (n - 1) as nat);
        let key = keys[n - 1];
        lemma_sorted_stays(keys, (n - 1) as nat);
        let p = place_from(keys, rest, key, 0);
        lemma_place_from(keys, rest, key, 0);
        if p < rest.len() {
            assert(rest[p] == p);
            assert(!lex_less(keys[n - 1], keys[p]));
        }
        assert(rest.insert(p, n - 1) =~= Seq::new(n, |i: int| i));
    }
    assert(sort_order(keys, n) =~= Seq::new(n, |i: int| i));
}

/// Picking everything in order picks the whole.
pub proof fn lemma_sorted_picked<T>(items: Seq<T>, keys: Seq<Seq<u32>>)
    requires
        keys.len() == items.len(),
        forall|i: int, j: int|
            #![trigger keys[i], keys[j]]
            0 <= i < j < keys.len() ==> !lex_less(keys[j], keys[i]),
    ensures
        picked(items, sort_order(keys, items.len())) == items,
{
    lemma_sorted_stays(keys, items.len());
    assert(picked(items, sort_order(keys, items.len())) =~= items);
}

// ---------------------------------------------------------------------------
// Instructions
// ---------------------------------------------------------------------------

pub proof fn lemma_mapped_at_same(units: Seq<u16>, pc: int, t: DexTables, n: Tables)
    requires
        fixed(t, n),
        0 <= pc,
        mapped_at(units, pc, n, t) is Ok,
    ensures
        mapped_at(units, pc, n, t)->Ok_0 == units,
{
    let operand = operand_of(opcode_at(units, pc));
    if operand == Operand::Nothing {
    } else if operand == Operand::JumboString {
        let wide = wide_operand(units, pc);
        assert(n.mapped_string(t, wide)->Ok_0 == wide);
        assert(with_wide_operand(units, pc, wide) =~= units);
    } else {
        let id = units[pc + 1] as u32;
        if operand == Operand::String {
            assert(n.mapped_string(t, id)->Ok_0 == id);
            assert(units.update(pc + 1, id as u16) =~= units);
        } else if operand == Operand::MethodAndProto {
            assert(n.mapped_method(id)->Ok_0 == id);
            assert(n.mapped_proto(units[pc + 3] as u32)->Ok_0 == units[pc + 3]);
            assert(units.update(pc + 1, units[pc + 1]).update(pc + 3, units[pc + 3]) =~= units);
        } else {
            assert(n.mapped_type(id) is Ok ==> n.mapped_type(id)->Ok_0 == id);
            assert(n.mapped_field(id) is Ok ==> n.mapped_field(id)->Ok_0 == id);
            assert(n.mapped_method(id) is Ok ==> n.mapped_method(id)->Ok_0 == id);
            assert(n.mapped_proto(id) is Ok ==> n.mapped_proto(id)->Ok_0 == id);
            assert(units.update(pc + 1, units[pc + 1]) =~= units);
        }
    }
}

/// Instructions whose operands keep their indices stay as they are.
pub proof fn lemma_mapped_same(units: Seq<u16>, pc: int, t: DexTables, n: Tables)
    requires
        fixed(t, n),
        0 <= pc,
        mapped_from(units, pc, n, t) is Ok,
    ensures
        mapped_from(units, pc, n, t)->Ok_0 == units,
    decreases units.len() - pc,
{
    if pc < units.len() {
        lemma_mapped_at_same(units, pc, t, n);
        let width = width_at(units, pc)->Ok_0;
        lemma_mapped_same(units, pc + width, t, n);
    }
}

// ---------------------------------------------------------------------------
// Handlers
// ---------------------------------------------------------------------------

/// Whether every offset stays what it is.
spec fn stays(moved: Map<u32, u16>) -> bool {
    forall|k: u32| (#[trigger] found(moved, k)) matches Some(v) ==> v == k
}

proof fn lemma_moved_length(handlers: Seq<Handler>, i: int, done: Seq<u8>)
    requires
        0 <= i <= handlers.len(),
    ensures
        moved_handlers(handlers, i, done).len() == handlers.len() - i,
    decreases handlers.len() - i,
{
    if i < handlers.len() {
        lemma_moved_length(handlers, i + 1, handler_bytes(handlers[i], done));
    }
}

proof fn lemma_handlers_again(
    handlers: Seq<Handler>,
    new: Seq<Handler>,
    i: int,
    done: Seq<u8>,
    moved: Map<u32, u16>,
    again: Map<u32, u16>,
)
    requires
        0 <= i <= handlers.len(),
        new.len() == handlers.len(),
        new.skip(i) == moved_handlers(handlers, i, done),
        handlers_bytes(handlers, i, done, moved) is Ok,
        stays(again),
    ensures
        handlers_bytes(new, i, done, again) is Ok,
        handlers_bytes(new, i, done, again)->Ok_0.0 == handlers_bytes(
            handlers,
            i,
            done,
            moved,
        )->Ok_0.0,
        stays(handlers_bytes(new, i, done, again)->Ok_0.1),
    decreases handlers.len() - i,
{
    if i < handlers.len() {
        let h = moved_handler(handlers[i], done.len() as int);
        let more = handler_bytes(handlers[i], done);
        let rest = moved_handlers(handlers, i + 1, more);
        assert(new.skip(i)[0] == new[i]);
        assert((seq![h] + rest)[0] == h);
        assert(new[i] == h);
        assert(handler_bytes(h, done) == more);
        assert(new.skip(i + 1) =~= rest) by {
            lemma_moved_length(handlers, i + 1, more);
            assert forall|k: int| 0 <= k < rest.len() implies #[trigger] new.skip(i + 1)[k]
                == rest[k] by {
                assert(new.skip(i)[k + 1] == new[i + 1 + k]);
                assert((seq![h] + rest)[k + 1] == rest[k]);
            }
        }
        let next = again.insert(h.old_offset as u32, done.len() as u16);
        assert(stays(next)) by {
            assert forall|k: u32| (#[trigger] found(next, k)) is Some implies found(
                next,
                k,
            )->Some_0 == k by {
                assert(found(again, k) is Some ==> found(again, k)->Some_0 == k);
            }
        }
        lemma_handlers_again(
            handlers,
            new,
            i + 1,
            more,
            moved.insert(handlers[i].old_offset as u32, done.len() as u16),
            next,
        );
    }
}

proof fn lemma_tries_again(
    tries: Seq<TryItem>,
    i: int,
    moved: Map<u32, u16>,
    again: Map<u32, u16>,
    done: Seq<u8>,
)
    requires
        0 <= i <= tries.len(),
        stays(again),
    ensures
        tries_bytes(moved_tries(tries, moved), i, again, done) == tries_bytes(
            tries,
            i,
            moved,
            done,
        ),
    decreases tries.len() - i,
{
    if i < tries.len() {
        let t = moved_try(tries[i], moved);
        assert(moved_tries(tries, moved)[i] == t);
        assert(found(again, t.handler_off as u32) is Some ==> found(
            again,
            t.handler_off as u32,
        )->Some_0 == t.handler_off);
        lemma_tries_again(
            tries,
            i + 1,
            moved,
            again,
            done + le32_bytes(t.start_addr) + le16_bytes(t.insn_count) + le16_bytes(t.handler_off),
        );
    }
}

/// Code that was read back is written as it stands.
pub proof fn lemma_code_again(code: Code, new: Code, debug_off: u32, done: Seq<u8>)
    requires
        code_ok(code),
        code_bytes(code, debug_off, done) is Ok,
        new.insns == code.insns,
        new.registers_size == code.registers_size,
        new.ins_size == code.ins_size,
        new.outs_size == code.outs_size,
        new.tries_size == code.tries_size,
        new.tries == placed_code(code, debug_off).tries,
        new.handlers == placed_code(code, debug_off).handlers,
    ensures
        code_bytes(new, debug_off, done) == code_bytes(code, debug_off, done),
{
    if code.tries.len() > 0 {
        let start = uleb_bytes(low32(code.handlers.len() as int));
        lemma_moved_length(code.handlers, 0, start);
        assert(new.handlers.skip(0) =~= new.handlers);
        lemma_handlers_again(code.handlers, new.handlers, 0, start, Map::empty(), Map::empty());
        let (_, moved) = written_handlers(code)->Ok_0;
        let (_, again) = written_handlers(new)->Ok_0;
        let head = done + le16_bytes(code.registers_size) + le16_bytes(code.ins_size) + le16_bytes(
            code.outs_size,
        ) + le16_bytes(code.tries_size) + le32_bytes(debug_off) + le32_bytes(
            low32((code.insns.len() / 2) as int),
        ) + code.insns;
        lemma_tries_again(code.tries, 0, moved, again, head);
        lemma_tries_again(code.tries, 0, moved, again, head + le16_bytes(0));
    }
}

} // verus!
