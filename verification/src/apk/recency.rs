//! Which entries of a package stay in memory.
use std::sync::Arc;
use vstd::prelude::*;

use crate::apk::cache::{touched, without, CacheState, CachedDex};
use crate::collections::kept::{keeps, lemma_keeps_nothing, lemma_keeps_push};

verus! {

proof fn lemma_without_kept(order: Seq<usize>, index: usize)
    ensures
        keeps(order, without(order, index), |x: usize| x != index),
    decreases order.len(),
{
    let test = |x: usize| x != index;
    if order.len() == 0 {
        lemma_keeps_nothing(test);
        assert(order =~= Seq::<usize>::empty());
    } else {
        let rest = order.drop_last();
        lemma_without_kept(rest, index);
        lemma_keeps_push(rest, without(rest, index), test, order.last());
        assert(rest.push(order.last()) =~= order);
    }
}

/// The entry used last is last in the order of use, and all others keep their
/// order.
pub proof fn lemma_used_last(order: Seq<usize>, index: usize)
    ensures
        touched(order, index).len() > 0,
        touched(order, index).last() == index,
        keeps(order, touched(order, index).drop_last(), |x: usize| x != index),
{
    lemma_without_kept(order, index);
    assert(touched(order, index).drop_last() =~= without(order, index));
}

/// Using an entry changes the order of use and nothing else.
pub proof fn lemma_use_keeps<P>(s: CacheState<P>, index: usize)
    ensures
        s.touch(index).entries == s.entries,
        s.touch(index).bytes == s.bytes,
        s.touch(index).max_bytes == s.max_bytes,
        s.touch(index).order.last() == index,
        keeps(s.order, s.touch(index).order.drop_last(), |x: usize| x != index),
{
    lemma_used_last(s.order, index);
}

/// Within the bound nothing is evicted.
pub proof fn lemma_evicts_nothing<P>(s: CacheState<P>)
    requires
        s.bytes <= s.max_bytes,
    ensures
        s.evicted() == s,
{
}

/// No entry is evicted without need: before the last one left, what was there
/// was over the bound, and that one was not used for longest.
pub proof fn lemma_evicts_no_more<P>(s: CacheState<P>)
    requires
        s.evicted().order.len() < s.order.len(),
    ensures
        exists|t: CacheState<P>| #[trigger]
            t.without_oldest() == s.evicted() && t.bytes > t.max_bytes && t.entries.len() > 1
                && t.order == s.order.skip(s.order.len() - s.evicted().order.len() - 1),
    decreases s.order.len(),
{
    let next = s.without_oldest();
    if next.evicted() == next {
        assert(s.order.skip(0) =~= s.order);
        assert(s.without_oldest() == s.evicted());
    } else {
        assert(next.evicted().order.len() < next.order.len()) by {
            lemma_evicted_shorter(next);
        }
        lemma_evicts_no_more(next);
        let t = choose|t: CacheState<P>| #[trigger]
            t.without_oldest() == next.evicted() && t.bytes > t.max_bytes && t.entries.len() > 1
                && t.order == next.order.skip(next.order.len() - next.evicted().order.len() - 1);
        let n = s.order.len() - s.evicted().order.len() - 1;
        assert(s.order.skip(n) =~= next.order.skip(n - 1));
        assert(t.without_oldest() == s.evicted());
    }
}

proof fn lemma_evicted_shorter<P>(s: CacheState<P>)
    ensures
        s.evicted().order.len() <= s.order.len(),
        s.evicted() != s ==> s.evicted().order.len() < s.order.len(),
    decreases s.order.len(),
{
    if s.bytes > s.max_bytes && s.entries.len() > 1 && s.order.len() > 0 {
        lemma_evicted_shorter(s.without_oldest());
    }
}

/// What leaves is the entry at the front of the order, with its bytes; the
/// others stay as they are.
pub proof fn lemma_oldest_leaves<P>(s: CacheState<P>)
    requires
        s.wf(),
        s.order.len() > 0,
    ensures
        !s.without_oldest().entries.contains_key(s.order[0]),
        forall|x: usize|
            x != s.order[0] && s.entries.contains_key(x) ==> (#[trigger] s.without_oldest().entries.contains_key(
                x,
            )) && s.without_oldest().entries[x] == s.entries[x],
        s.without_oldest().order == s.order.skip(1),
        s.bytes >= s.entries[s.order[0]].data@.len() ==> s.without_oldest().bytes == s.bytes
            - s.entries[s.order[0]].data@.len(),
{
    assert(s.order.contains(s.order[0]));
}

/// What was read of an entry is kept with it: the first reading stays, and a
/// reading comes in where there was none.
pub proof fn lemma_reading_kept<P>(s: CacheState<P>, index: usize, data: Arc<[u8]>, parsed: Arc<P>)
    requires
        s.put(index, data).entries.contains_key(index),
    ensures
        s.put(index, data).entries[index].parsed matches Some(p) ==> s.put_parsed(
            index,
            data,
            parsed,
        ).entries[index].parsed == Some(p),
        s.put(index, data).entries[index].parsed is None ==> s.put_parsed(
            index,
            data,
            parsed,
        ).entries[index].parsed == Some(parsed),
        s.put_parsed(index, data, parsed).entries[index].data == s.put(
            index,
            data,
        ).entries[index].data,
        forall|x: usize|
            x != index ==> (#[trigger] s.put_parsed(index, data, parsed).entries.contains_key(x)
                <==> s.put(index, data).entries.contains_key(x)),
        forall|x: usize|
            x != index && s.put(index, data).entries.contains_key(x) ==> #[trigger] s.put_parsed(
                index,
                data,
                parsed,
            ).entries[x] == s.put(index, data).entries[x],
        s.put_parsed(index, data, parsed).order == s.put(index, data).order,
        s.put_parsed(index, data, parsed).bytes == s.put(index, data).bytes,
{
}

/// New data comes in without a reading, and as the entry used last.
pub proof fn lemma_new_data<P>(s: CacheState<P>, index: usize, data: Arc<[u8]>)
    requires
        s.wf(),
        !s.entries.contains_key(index),
    ensures
        s.put(index, data).entries[index] == (CachedDex::<P> { data, parsed: None }),
        s.put(index, data).order.last() == index,
        s.bytes + data@.len() <= s.max_bytes ==> s.put(index, data).bytes == s.bytes + data@.len(),
{
    lemma_used_last(s.order, index);
    let grown = CacheState::<P> {
        entries: s.entries.insert(index, CachedDex { data, parsed: None }),
        order: touched(s.order, index),
        bytes: if s.bytes + data@.len() > usize::MAX {
            usize::MAX
        } else {
            (s.bytes + data@.len()) as usize
        },
        max_bytes: s.max_bytes,
    };
    assert(grown.wf()) by {
        crate::apk::cache::lemma_put(s, index, data);
        crate::apk::cache::lemma_touched_wf(s.order, grown.entries, index);
    }
    crate::apk::cache::lemma_evicted(grown);
    let end = grown.evicted();
    assert(end.entries.contains_key(index));
    assert(end.order.contains(index));
    assert(end.order.len() > 0);
    assert(end.order == grown.order.skip(grown.order.len() - end.order.len()));
    assert(end.order.last() == grown.order.last());
}

/// How many entries were read: of each more entry in the order of use, one if it
/// was read.
pub proof fn lemma_parsed_count<P>(s: CacheState<P>, n: nat)
    ensures
        s.parsed_among(0) == 0,
        s.parsed_among(n + 1) - s.parsed_among(n) == (if s.entries[s.order[n as int]].parsed is Some {
            1int
        } else {
            0int
        }),
{
}

} // verus!
