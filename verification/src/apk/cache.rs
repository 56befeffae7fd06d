//! A bounded store of decompressed DEX data that forgets what was not used for
//! longest.
use std::collections::HashMap;
use std::sync::Arc;
use vstd::prelude::*;

use crate::apk::share;

verus! {

broadcast use vstd::std_specs::hash::group_hash_axioms;

/// The bytes of one DEX entry, and what was read from them.
#[derive(Debug)]
pub struct CachedDex<P> {
    pub data: Arc<[u8]>,
    pub parsed: Option<Arc<P>>,
}

/// The DEX entries in memory. `lru_order` lists them, the one used last at its
/// end.
#[derive(Debug)]
pub struct DexCache<P> {
    pub entries: HashMap<usize, CachedDex<P>>,
    pub lru_order: Vec<usize>,
    pub bytes: usize,
    pub max_bytes: usize,
}

/// What a cache holds.
#[verifier::ext_equal]
#[verifier::reject_recursive_types(P)]
pub struct CacheState<P> {
    pub entries: Map<usize, CachedDex<P>>,
    pub order: Seq<usize>,
    pub bytes: usize,
    pub max_bytes: usize,
}

impl<P> View for DexCache<P> {
    type V = CacheState<P>;

    open spec fn view(&self) -> CacheState<P> {
        CacheState {
            entries: self.entries@,
            order: self.lru_order@,
            bytes: self.bytes,
            max_bytes: self.max_bytes,
        }
    }
}

// ---------------------------------------------------------------------------
// Order of use
// ---------------------------------------------------------------------------

/// A list without one number.
pub open spec fn without(order: Seq<usize>, index: usize) -> Seq<usize>
    decreases order.len(),
{
    if order.len() == 0 {
        Seq::empty()
    } else if order.last() == index {
        without(order.drop_last(), index)
    } else {
        without(order.drop_last(), index).push(order.last())
    }
}

/// A list with one number moved to its end.
pub open spec fn touched(order: Seq<usize>, index: usize) -> Seq<usize> {
    without(order, index).push(index)
}

proof fn lemma_without(order: Seq<usize>, index: usize)
    ensures
        forall|x: usize| #[trigger]
            without(order, index).contains(x) <==> order.contains(x) && x != index,
        order.no_duplicates() ==> without(order, index).no_duplicates(),
    decreases order.len(),
{
    if order.len() > 0 {
        let rest = order.drop_last();
        let last = order.last();
        lemma_without(rest, index);
        let kept = without(rest, index);
        let now = without(order, index);
        assert forall|x: usize| #[trigger] now.contains(x) <==> order.contains(x) && x != index by {
            assert(kept.contains(x) <==> rest.contains(x) && x != index);
            if now.contains(x) {
                let i = choose|i: int| 0 <= i < now.len() && now[i] == x;
                if i < kept.len() {
                    assert(kept[i] == x);
                    let j = choose|j: int| 0 <= j < rest.len() && rest[j] == x;
                    assert(order[j] == x);
                } else {
                    assert(order[order.len() - 1] == x);
                }
            }
            if order.contains(x) && x != index {
                let j = choose|j: int| 0 <= j < order.len() && order[j] == x;
                if j < rest.len() {
                    assert(rest[j] == x);
                    let i = choose|i: int| 0 <= i < kept.len() && kept[i] == x;
                    assert(now[i] == x);
                } else {
                    assert(now[kept.len() as int] == x);
                }
            }
        }
        if order.no_duplicates() {
            assert(rest.no_duplicates());
            if last != index {
                assert(!kept.contains(last)) by {
                    if rest.contains(last) {
                        let j = choose|j: int| 0 <= j < rest.len() && rest[j] == last;
                        assert(order[j] == order[order.len() - 1]);
                    }
                }
                assert forall|i: int, j: int|
                    0 <= i < j < now.len() implies now[i] != now[j] by {
                    if j == kept.len() {
                        assert(kept.contains(kept[i]));
                    }
                }
            }
        }
    }
}

impl<P> CacheState<P> {
    /// The order lists every entry once, and nothing else.
    pub open spec fn wf(self) -> bool {
        &&& self.order.no_duplicates()
        &&& self.entries.dom().finite()
        &&& forall|x: usize| #[trigger]
            self.order.contains(x) <==> self.entries.contains_key(x)
    }

    /// The same entries in another order.
    pub open spec fn ordered(self, order: Seq<usize>) -> CacheState<P> {
        CacheState { order, ..self }
    }

    pub open spec fn touch(self, index: usize) -> CacheState<P> {
        CacheState { order: touched(self.order, index), ..self }
    }

    /// The state without the entry that was not used for longest.
    pub open spec fn without_oldest(self) -> CacheState<P> {
        let oldest = self.order[0];
        CacheState {
            entries: self.entries.remove(oldest),
            order: self.order.skip(1),
            bytes: if !self.entries.contains_key(oldest) {
                self.bytes
            } else if self.bytes < self.entries[oldest].data@.len() {
                0
            } else {
                (self.bytes - self.entries[oldest].data@.len()) as usize
            },
            max_bytes: self.max_bytes,
        }
    }

    /// The state after oldest entries left, until the bound is kept or one
    /// entry remains.
    pub open spec fn evicted(self) -> CacheState<P>
        decreases self.order.len(),
    {
        if self.bytes > self.max_bytes && self.entries.len() > 1 && self.order.len() > 0 {
            self.without_oldest().evicted()
        } else {
            self
        }
    }

    /// The state after data came in for an entry. An entry that has data keeps
    /// it.
    pub open spec fn put(self, index: usize, data: Arc<[u8]>) -> CacheState<P> {
        if self.entries.contains_key(index) {
            self.touch(index)
        } else {
            CacheState {
                entries: self.entries.insert(index, CachedDex { data, parsed: None }),
                order: touched(self.order, index),
                bytes: if self.bytes + data@.len() > usize::MAX {
                    usize::MAX
                } else {
                    (self.bytes + data@.len()) as usize
                },
                max_bytes: self.max_bytes,
            }.evicted()
        }
    }

    /// The state after an entry was read, unless it had been.
    pub open spec fn put_parsed(self, index: usize, data: Arc<[u8]>, parsed: Arc<P>) -> CacheState<
        P,
    > {
        let state = self.put(index, data);
        let entry = state.entries[index];
        if entry.parsed is Some {
            state
        } else {
            CacheState {
                entries: state.entries.insert(
                    index,
                    CachedDex { data: entry.data, parsed: Some(parsed) },
                ),
                ..state
            }
        }
    }

    /// How many of the first `n` entries in the order of use were read.
    pub open spec fn parsed_among(self, n: nat) -> nat
        decreases n,
    {
        if n == 0 {
            0
        } else if self.entries[self.order[n - 1]].parsed is Some {
            self.parsed_among((n - 1) as nat) + 1
        } else {
            self.parsed_among((n - 1) as nat)
        }
    }

    /// The sizes of the first `n` entries in the order of use.
    pub open spec fn size_of(self, n: nat) -> nat
        decreases n,
    {
        if n == 0 {
            0
        } else {
            self.size_of((n - 1) as nat) + self.entries[self.order[n - 1]].data@.len()
        }
    }

    /// Whether the count of bytes is the size of all entries.
    pub open spec fn accounted(self) -> bool {
        self.bytes == self.size_of(self.order.len())
    }
}

// ---------------------------------------------------------------------------
// Laws
// ---------------------------------------------------------------------------

proof fn lemma_touch_wf<P>(s: CacheState<P>, index: usize)
    requires
        s.wf(),
        s.entries.contains_key(index),
    ensures
        s.touch(index).wf(),
{
    lemma_touched_wf(s.order, s.entries, index);
}

pub(crate) proof fn lemma_touched_wf<P>(order: Seq<usize>, entries: Map<usize, CachedDex<P>>, index: usize)
    requires
        order.no_duplicates(),
        forall|x: usize| #[trigger]
            order.contains(x) ==> entries.contains_key(x),
        forall|x: usize|
            #[trigger] entries.contains_key(x) ==> order.contains(x) || x == index,
        entries.contains_key(index),
    ensures
        touched(order, index).no_duplicates(),
        forall|x: usize| #[trigger]
            touched(order, index).contains(x) <==> entries.contains_key(x),
{
    let kept = without(order, index);
    let now = touched(order, index);
    lemma_without(order, index);
    assert(!kept.contains(index));
    assert forall|i: int, j: int| 0 <= i < j < now.len() implies now[i] != now[j] by {
        if j == kept.len() {
            assert(kept.contains(kept[i]));
        }
    }
    assert forall|x: usize| #[trigger] now.contains(x) <==> entries.contains_key(x) by {
        assert(kept.contains(x) <==> order.contains(x) && x != index);
        if now.contains(x) {
            let i = choose|i: int| 0 <= i < now.len() && now[i] == x;
            if i < kept.len() {
                assert(kept[i] == x);
            }
        }
        if entries.contains_key(x) {
            if x == index {
                assert(now[kept.len() as int] == x);
            } else {
                assert(kept.contains(x));
                let i = choose|i: int| 0 <= i < kept.len() && kept[i] == x;
                assert(now[i] == x);
            }
        }
    }
}

proof fn lemma_without_oldest_wf<P>(s: CacheState<P>)
    requires
        s.wf(),
        s.order.len() > 0,
    ensures
        s.without_oldest().wf(),
        s.without_oldest().entries.len() + 1 == s.entries.len(),
{
    let oldest = s.order[0];
    let now = s.without_oldest();
    assert(s.order.contains(oldest));
    assert forall|x: usize| #[trigger] now.order.contains(x) <==> now.entries.contains_key(x) by {
        assert(s.order.contains(x) <==> s.entries.contains_key(x));
        if now.order.contains(x) {
            let i = choose|i: int| 0 <= i < now.order.len() && now.order[i] == x;
            assert(s.order[i + 1] == x);
        }
        if now.entries.contains_key(x) {
            let i = choose|i: int| 0 <= i < s.order.len() && s.order[i] == x;
            assert(i > 0);
            assert(now.order[i - 1] == x);
        }
    }
    assert(now.order.no_duplicates());
    assert(now.entries.dom() =~= s.entries.dom().remove(oldest));
}

/// Evicting keeps the order sound, ends within the bound or with one entry,
/// takes away only entries that were used before all that stay, and leaves
/// what stays as it was. The entry used last always stays.
pub proof fn lemma_evicted<P>(s: CacheState<P>)
    requires
        s.wf(),
    ensures
        s.evicted().wf(),
        s.evicted().bytes <= s.max_bytes || s.evicted().entries.len() <= 1,
        s.evicted().max_bytes == s.max_bytes,
        s.evicted().order.len() <= s.order.len(),
        s.evicted().order == s.order.skip(s.order.len() - s.evicted().order.len()),
        s.order.len() > 0 ==> s.evicted().entries.contains_key(s.order.last()),
        forall|x: usize| #[trigger]
            s.evicted().entries.contains_key(x) ==> s.entries.contains_key(x)
                && s.evicted().entries[x] == s.entries[x],
    decreases s.order.len(),
{
    if s.bytes > s.max_bytes && s.entries.len() > 1 && s.order.len() > 0 {
        let next = s.without_oldest();
        lemma_without_oldest_wf(s);
        lemma_evicted(next);
        let end = s.evicted();
        if s.order.len() == 1 {
            assert(next.entries.dom().len() == 0) by {
                assert(next.order.len() == 0);
                assert forall|x: usize| !next.entries.dom().contains(x) by {
                    assert(!next.order.contains(x));
                    assert(next.entries.contains_key(x) <==> next.order.contains(x));
                }
                assert(next.entries.dom() =~= Set::<usize>::empty());
            }
        }
        assert(next.order.last() == s.order.last());
        assert(end.order =~= s.order.skip(s.order.len() - end.order.len()));
    } else {
        assert(s.order =~= s.order.skip(0));
        if s.order.len() > 0 {
            assert(s.order.contains(s.order.last()));
        } else {
            assert forall|x: usize| !s.entries.dom().contains(x) by {
                assert(!s.order.contains(x));
                assert(s.entries.contains_key(x) <==> s.order.contains(x));
            }
            assert(s.entries.dom() =~= Set::<usize>::empty());
        }
    }
}

/// After data came in, the bound is kept or one entry remains, and the entry
/// that the data came in for is there.
pub proof fn lemma_put<P>(s: CacheState<P>, index: usize, data: Arc<[u8]>)
    requires
        s.wf(),
    ensures
        s.put(index, data).wf(),
        s.put(index, data).entries.contains_key(index),
        !s.entries.contains_key(index) ==> s.put(index, data).bytes <= s.max_bytes || s.put(
            index,
            data,
        ).entries.len() <= 1,
        s.put(index, data).entries[index].data == (if s.entries.contains_key(index) {
            s.entries[index].data
        } else {
            data
        }),
{
    if s.entries.contains_key(index) {
        lemma_touch_wf(s, index);
    } else {
        let entry = CachedDex { data, parsed: None };
        let entries = s.entries.insert(index, entry);
        lemma_touched_wf(s.order, entries, index);
        let grown = CacheState {
            entries,
            order: touched(s.order, index),
            bytes: if s.bytes + data@.len() > usize::MAX {
                usize::MAX
            } else {
                (s.bytes + data@.len()) as usize
            },
            max_bytes: s.max_bytes,
        };
        assert(grown.wf());
        lemma_evicted(grown);
    }
}

proof fn lemma_size_frame<P>(a: CacheState<P>, b: CacheState<P>, n: nat)
    requires
        n <= a.order.len(),
        n <= b.order.len(),
        forall|i: int|
            0 <= i < n ==> a.entries[#[trigger] a.order[i]].data@.len()
                == b.entries[b.order[i]].data@.len(),
    ensures
        a.size_of(n) == b.size_of(n),
    decreases n,
{
    if n > 0 {
        lemma_size_frame(a, b, (n - 1) as nat);
        assert(a.entries[a.order[n - 1]].data@.len() == b.entries[b.order[n - 1]].data@.len());
    }
}

proof fn lemma_size_skip<P>(s: CacheState<P>, n: nat)
    requires
        s.wf(),
        0 < n <= s.order.len(),
    ensures
        s.size_of(n) == s.entries[s.order[0]].data@.len() + s.without_oldest().size_of(
            (n - 1) as nat,
        ),
    decreases n,
{
    let next = s.without_oldest();
    if n > 1 {
        lemma_size_skip(s, (n - 1) as nat);
        assert(next.order[n - 2] == s.order[n - 1]);
        assert(s.order[n - 1] != s.order[0]);
    } else {
        assert(s.size_of(0) == 0);
        assert(next.size_of(0) == 0);
    }
}

/// Evicting keeps the count of bytes right.
pub proof fn lemma_evicted_accounts<P>(s: CacheState<P>)
    requires
        s.wf(),
        s.accounted(),
    ensures
        s.evicted().accounted(),
    decreases s.order.len(),
{
    if s.bytes > s.max_bytes && s.entries.len() > 1 && s.order.len() > 0 {
        lemma_without_oldest_wf(s);
        lemma_size_skip(s, s.order.len());
        assert(s.order.contains(s.order[0]));
        lemma_evicted_accounts(s.without_oldest());
    }
}

proof fn lemma_size_without<P>(s: CacheState<P>, order: Seq<usize>, index: usize, rest: Seq<usize>)
    requires
        order.no_duplicates(),
        rest == without(order, index),
    ensures
        s.ordered(order).size_of(order.len()) == s.ordered(rest).size_of(
            rest.len(),
        ) + (if order.contains(index) {
            s.entries[index].data@.len()
        } else {
            0
        }),
    decreases order.len(),
{
    if order.len() > 0 {
        let shorter = order.drop_last();
        let kept = without(shorter, index);
        let whole = s.ordered(order);
        let part = s.ordered(shorter);
        assert(shorter.no_duplicates());
        lemma_size_without(s, shorter, index, kept);
        lemma_size_frame(whole, part, shorter.len());
        assert(order.contains(index) <==> shorter.contains(index) || order.last() == index) by {
            if shorter.contains(index) {
                let i = choose|i: int| 0 <= i < shorter.len() && shorter[i] == index;
                assert(order[i] == index);
            }
            if order.last() == index {
                assert(order[order.len() - 1] == index);
            }
            if order.contains(index) && order.last() != index {
                let i = choose|i: int| 0 <= i < order.len() && order[i] == index;
                assert(shorter[i] == index);
            }
        }
        if order.last() == index {
            assert(!shorter.contains(index)) by {
                if shorter.contains(index) {
                    let i = choose|i: int| 0 <= i < shorter.len() && shorter[i] == index;
                    assert(order[i] == order[order.len() - 1]);
                }
            }
        } else {
            let a = s.ordered(rest);
            let b = s.ordered(kept);
            lemma_size_frame(a, b, kept.len());
        }
    } else {
        assert(!order.contains(index));
    }
}

/// Putting data keeps the count of bytes right, as long as the sum of all sizes
/// is a number that the machine can hold.
pub proof fn lemma_put_accounts<P>(s: CacheState<P>, index: usize, data: Arc<[u8]>)
    requires
        s.wf(),
        s.accounted(),
        s.bytes + data@.len() <= usize::MAX,
    ensures
        s.put(index, data).accounted(),
{
    let rest = without(s.order, index);
    lemma_size_without(s, s.order, index, rest);
    assert(s.ordered(s.order) =~= s);
    let now = touched(s.order, index);
    if s.entries.contains_key(index) {
        let a = s.touch(index);
        let b = s.ordered(rest);
        lemma_size_frame(a, b, rest.len());
        assert(s.order.contains(index));
        assert(a.order[rest.len() as int] == index);
    } else {
        assert(!s.order.contains(index));
        let entry = CachedDex { data, parsed: None };
        let grown = CacheState {
            entries: s.entries.insert(index, entry),
            order: now,
            bytes: (s.bytes + data@.len()) as usize,
            max_bytes: s.max_bytes,
        };
        let b = s.ordered(rest);
        lemma_without(s.order, index);
        assert forall|i: int| 0 <= i < rest.len() implies grown.entries[#[trigger] grown.order[i]].data@.len()
            == b.entries[b.order[i]].data@.len() by {
            assert(rest.contains(rest[i]));
        }
        lemma_size_frame(grown, b, rest.len());
        assert(grown.order[rest.len() as int] == index);
        lemma_touched_wf(s.order, grown.entries, index);
        lemma_evicted_accounts(grown);
    }
}

// ---------------------------------------------------------------------------
// The cache
// ---------------------------------------------------------------------------

impl<P> DexCache<P> {
    pub fn new(max_bytes: usize) -> (r: DexCache<P>)
        ensures
            r@ == (CacheState::<P> {
                entries: Map::empty(),
                order: Seq::empty(),
                bytes: 0,
                max_bytes,
            }),
            r@.wf(),
            r@.accounted(),
    {
        DexCache { entries: HashMap::new(), lru_order: Vec::new(), bytes: 0, max_bytes }
    }

    /// Makes an entry the one used last.
    pub fn touch(&mut self, index: usize)
        ensures
            final(self)@ == old(self)@.touch(index),
    {
        let ghost before = self.lru_order@;
        let mut kept: Vec<usize> = Vec::new();
        let mut i: usize = 0;
        assert(before.take(0) =~= Seq::<usize>::empty());
        while i < self.lru_order.len()
            invariant
                i <= self.lru_order.len(),
                before == self.lru_order@,
                self@ == old(self)@,
                kept@ == without(before.take(i as int), index),
            decreases self.lru_order.len() - i,
        {
            let ghost now = before.take(i + 1);
            assert(now.drop_last() =~= before.take(i as int));
            assert(now.last() == before[i as int]);
            if self.lru_order[i] != index {
                kept.push(self.lru_order[i]);
            }
            i += 1;
        }
        assert(before.take(i as int) =~= before);
        kept.push(index);
        self.lru_order = kept;
    }

    /// The bytes of an entry, which is then the one used last.
    pub fn get_data(&mut self, index: usize) -> (r: Option<Arc<[u8]>>)
        requires
            old(self)@.wf(),
        ensures
            match r {
                Some(data) => old(self)@.entries.contains_key(index) && data
                    == old(self)@.entries[index].data && final(self)@ == old(self)@.touch(index),
                None => !old(self)@.entries.contains_key(index) && final(self)@ == old(self)@,
            },
            final(self)@.wf(),
    {
        let found: Option<Arc<[u8]>> = match self.entries.get(&index) {
            Some(entry) => Some(share(&entry.data)),
            None => None,
        };
        if found.is_some() {
            proof {
                lemma_touch_wf(self@, index);
            }
            self.touch(index);
        }
        found
    }

    /// What was read of an entry, which is then the one used last.
    pub fn get_parsed(&mut self, index: usize) -> (r: Option<Arc<P>>)
        requires
            old(self)@.wf(),
        ensures
            match r {
                Some(parsed) => old(self)@.entries.contains_key(index)
                    && old(self)@.entries[index].parsed == Some(parsed) && final(self)@
                    == old(self)@.touch(index),
                None => (old(self)@.entries.contains_key(index) ==> old(
                    self,
                )@.entries[index].parsed is None) && final(self)@ == old(self)@,
            },
            final(self)@.wf(),
    {
        let found: Option<Arc<P>> = match self.entries.get(&index) {
            Some(entry) => match &entry.parsed {
                Some(parsed) => Some(share(parsed)),
                None => None,
            },
            None => None,
        };
        if found.is_some() {
            proof {
                lemma_touch_wf(self@, index);
            }
            self.touch(index);
        }
        found
    }

    /// Takes in the bytes of an entry, unless it has some, and gives back those
    /// that are kept. Entries that were not used for longest leave until the
    /// bound is kept; the new one stays, whatever its size.
    pub fn insert_data(&mut self, index: usize, data: Arc<[u8]>) -> (r: Arc<[u8]>)
        requires
            old(self)@.wf(),
        ensures
            final(self)@ == old(self)@.put(index, data),
            final(self)@.wf(),
            r == final(self)@.entries[index].data,
            final(self)@.entries.contains_key(index),
    {
        proof {
            lemma_put(self@, index, data);
        }
        let existing: Option<Arc<[u8]>> = match self.entries.get(&index) {
            Some(entry) => Some(share(&entry.data)),
            None => None,
        };
        match existing {
            Some(existing) => {
                self.touch(index);
                return existing;
            },
            None => {},
        }
        let ghost before = self@;
        let size: usize = data.len();
        self.bytes = self.bytes.saturating_add(size);
        self.touch(index);
        self.entries.insert(index, CachedDex { data: share(&data), parsed: None });
        proof {
            lemma_touched_wf(before.order, self@.entries, index);
            assert(self@.wf());
            assert(before.put(index, data) == self@.evicted());
        }
        while self.bytes > self.max_bytes && self.entries.len() > 1 && self.lru_order.len() > 0
            invariant
                self@.wf(),
                before.put(index, data) == self@.evicted(),
            decreases self.lru_order.len(),
        {
            proof {
                lemma_without_oldest_wf(self@);
            }
            let ghost full = self@;
            let oldest: usize = self.lru_order.remove(0);
            assert(self.lru_order@ =~= full.order.skip(1));
            match self.entries.remove(&oldest) {
                Some(removed) => {
                    let freed: usize = removed.data.len();
                    self.bytes = self.bytes.saturating_sub(freed);
                },
                None => {},
            }
            assert(self@ =~= full.without_oldest());
        }
        data
    }

    /// Keeps what was read of an entry, unless something is kept, and gives
    /// back what is.
    pub fn insert_parsed(&mut self, index: usize, data: Arc<[u8]>, parsed: Arc<P>) -> (r: Arc<P>)
        requires
            old(self)@.wf(),
        ensures
            final(self)@ == old(self)@.put_parsed(index, data, parsed),
            final(self)@.wf(),
            final(self)@.entries[index].parsed == Some(r),
    {
        self.insert_data(index, data);
        let ghost state = self@;
        match self.entries.remove(&index) {
            Some(entry) => {
                let kept: Arc<P> = match &entry.parsed {
                    Some(existing) => share(existing),
                    None => parsed,
                };
                let result = share(&kept);
                self.entries.insert(index, CachedDex { data: entry.data, parsed: Some(kept) });
                proof {
                    assert(self@.entries =~= state.put_entries(index, entry.data, kept));
                }
                result
            },
            None => parsed,
        }
    }

    /// How many entries were read.
    pub fn parsed_count(&self) -> (r: usize)
        requires
            self@.wf(),
        ensures
            r == self@.parsed_among(self@.order.len()),
    {
        let mut count: usize = 0;
        let mut i: usize = 0;
        while i < self.lru_order.len()
            invariant
                i <= self.lru_order.len(),
                count <= i,
                self@.wf(),
                count == self@.parsed_among(i as nat),
            decreases self.lru_order.len() - i,
        {
            assert(self@.order.contains(self@.order[i as int]));
            match self.entries.get(&self.lru_order[i]) {
                Some(entry) => {
                    if entry.parsed.is_some() {
                        count += 1;
                    }
                },
                None => {},
            }
            i += 1;
        }
        count
    }

    /// Forgets every entry and keeps the bound.
    pub fn clear(&mut self)
        ensures
            final(self)@ == (CacheState::<P> {
                entries: Map::empty(),
                order: Seq::empty(),
                bytes: 0,
                max_bytes: old(self)@.max_bytes,
            }),
            final(self)@.wf(),
    {
        let max_bytes: usize = self.max_bytes;
        *self = DexCache::new(max_bytes);
    }
}

impl<P> CacheState<P> {
    spec fn put_entries(self, index: usize, data: Arc<[u8]>, parsed: Arc<P>) -> Map<
        usize,
        CachedDex<P>,
    > {
        self.entries.insert(index, CachedDex { data, parsed: Some(parsed) })
    }
}

} // verus!
