//! Small collections with integer keys, and views of vectors of viewed items.
pub mod kept;

use vstd::prelude::*;

verus! {

// ---------------------------------------------------------------------------
// Sequences of views
// ---------------------------------------------------------------------------

/// The views of the items of a sequence.
pub open spec fn views<T: View>(s: Seq<T>) -> Seq<T::V> {
    s.map_values(|x: T| x@)
}

pub proof fn lemma_views_push<T: View>(s: Seq<T>, x: T)
    ensures
        views(s.push(x)) == views(s).push(x@),
{
    assert(views(s.push(x)) =~= views(s).push(x@));
}

pub proof fn lemma_views_empty<T: View>()
    ensures
        views(Seq::<T>::empty()) == Seq::<T::V>::empty(),
{
    assert(views(Seq::<T>::empty()) =~= Seq::<T::V>::empty());
}

// ---------------------------------------------------------------------------
// Numbers cut to a width
// ---------------------------------------------------------------------------

/// The low 32 bits of a natural number.
pub open spec fn low32(n: int) -> u32 {
    (n % 0x1_0000_0000) as u32
}

/// The low 16 bits of a natural number.
pub open spec fn low16(n: int) -> u16 {
    (n % 0x1_0000) as u16
}

pub fn cut32(n: usize) -> (r: u32)
    ensures
        r == low32(n as int),
{
    (n as u64 % 0x1_0000_0000) as u32
}

pub fn cut16(n: u32) -> (r: u16)
    ensures
        r == low16(n as int),
{
    (n % 0x1_0000) as u16
}

// ---------------------------------------------------------------------------
// Sets of numbers in ascending order
// ---------------------------------------------------------------------------

/// The first position from `i` on that holds at least `x`.
pub open spec fn rank_from(s: Seq<u32>, x: u32, i: int) -> int
    decreases s.len() - i,
{
    if i >= s.len() || s[i] >= x {
        i
    } else {
        rank_from(s, x, i + 1)
    }
}

/// The ascending sequence `s` with `x` in its place.
pub open spec fn with_member(s: Seq<u32>, x: u32) -> Seq<u32> {
    let p = rank_from(s, x, 0);
    if p < s.len() && s[p] == x {
        s
    } else {
        s.insert(p, x)
    }
}

/// Whether a sequence is strictly ascending.
pub open spec fn ascending(s: Seq<u32>) -> bool {
    forall|i: int, j: int| 0 <= i < j < s.len() ==> s[i] < s[j]
}

proof fn lemma_rank_from(s: Seq<u32>, x: u32, i: int)
    requires
        0 <= i <= s.len(),
    ensures
        i <= rank_from(s, x, i) <= s.len(),
        forall|j: int| i <= j < rank_from(s, x, i) ==> s[j] < x,
        rank_from(s, x, i) < s.len() ==> s[rank_from(s, x, i)] >= x,
    decreases s.len() - i,
{
    if i < s.len() && s[i] < x {
        lemma_rank_from(s, x, i + 1);
    }
}

/// The rank of a number: smaller ones stand before it, and it stands no
/// further back than the end.
pub proof fn lemma_rank(s: Seq<u32>, x: u32)
    ensures
        0 <= rank_from(s, x, 0) <= s.len(),
        forall|j: int| 0 <= j < rank_from(s, x, 0) ==> s[j] < x,
{
    lemma_rank_from(s, x, 0);
}

/// Adding a member keeps the order, keeps what was there, and adds nothing
/// else.
pub proof fn lemma_with_member(s: Seq<u32>, x: u32)
    requires
        ascending(s),
    ensures
        ascending(with_member(s, x)),
        forall|y: u32| #[trigger] with_member(s, x).contains(y) <==> s.contains(y) || y == x,
{
    lemma_rank_from(s, x, 0);
    let p = rank_from(s, x, 0);
    let t = with_member(s, x);
    assert forall|y: u32| #[trigger] t.contains(y) <==> s.contains(y) || y == x by {
        if s.contains(y) {
            let i = choose|i: int| 0 <= i < s.len() && s[i] == y;
            if t == s || i < p {
                assert(t[i] == y);
            } else {
                assert(t[i + 1] == y);
            }
        }
        if y == x {
            assert(t[p] == x);
        }
        if t.contains(y) && y != x {
            let i = choose|i: int| 0 <= i < t.len() && t[i] == y;
            if t == s || i < p {
                assert(s[i] == y);
            } else {
                assert(s[i - 1] == y);
            }
        }
    }
}

/// The first position that holds at least `x`.
fn rank_of(keys: &Vec<u32>, x: u32) -> (p: usize)
    ensures
        p == rank_from(keys@, x, 0),
        p <= keys@.len(),
{
    let mut p: usize = 0;
    while p < keys.len() && keys[p] < x
        invariant
            p <= keys.len(),
            rank_from(keys@, x, 0) == rank_from(keys@, x, p as int),
        decreases keys.len() - p,
    {
        p += 1;
    }
    p
}

/// A set of numbers, listed in ascending order.
#[derive(Debug)]
pub struct SortedSet {
    pub members: Vec<u32>,
}

impl View for SortedSet {
    type V = Seq<u32>;

    open spec fn view(&self) -> Seq<u32> {
        self.members@
    }
}

impl SortedSet {
    pub fn new() -> (r: SortedSet)
        ensures
            r@ == Seq::<u32>::empty(),
    {
        SortedSet { members: Vec::new() }
    }

    pub fn insert(&mut self, x: u32)
        ensures
            final(self)@ == with_member(old(self)@, x),
    {
        let p: usize = rank_of(&self.members, x);
        if p < self.members.len() && self.members[p] == x {
            return;
        }
        self.members.insert(p, x);
    }

    pub fn contains(&self, x: u32) -> (r: bool)
        ensures
            r == self@.contains(x),
    {
        let mut i: usize = 0;
        while i < self.members.len()
            invariant
                i <= self.members.len(),
                forall|j: int| 0 <= j < i ==> self@[j] != x,
            decreases self.members.len() - i,
        {
            if self.members[i] == x {
                assert(self@[i as int] == x);
                return true;
            }
            i += 1;
        }
        false
    }
}

// ---------------------------------------------------------------------------
// Maps from numbers, in ascending order of their keys
// ---------------------------------------------------------------------------

/// The entries of an ordered map: ascending keys, and a value for each.
#[verifier::ext_equal]
pub struct Entries<V> {
    pub keys: Seq<u32>,
    pub values: Seq<V>,
}

impl<V> Entries<V> {
    pub open spec fn empty() -> Entries<V> {
        Entries { keys: Seq::empty(), values: Seq::empty() }
    }

    /// The entries with `value` under `key`, whatever was there before.
    pub open spec fn put(self, key: u32, value: V) -> Entries<V> {
        let p = rank_from(self.keys, key, 0);
        if p < self.keys.len() && self.keys[p] == key {
            Entries { keys: self.keys, values: self.values.update(p, value) }
        } else {
            Entries { keys: self.keys.insert(p, key), values: self.values.insert(p, value) }
        }
    }

    /// The value under `key`.
    pub open spec fn get(self, key: u32) -> Option<V> {
        let p = rank_from(self.keys, key, 0);
        if p < self.keys.len() && self.keys[p] == key {
            Some(self.values[p])
        } else {
            None
        }
    }

    /// As many values as keys, and the keys in ascending order.
    pub open spec fn wf(self) -> bool {
        self.keys.len() == self.values.len() && ascending(self.keys)
    }
}

/// A key that was put is found with its value; other keys are as before.
pub proof fn lemma_put_get<V>(m: Entries<V>, key: u32, value: V, other: u32)
    requires
        m.wf(),
    ensures
        m.put(key, value).wf(),
        m.put(key, value).get(other) == if other == key {
            Some(value)
        } else {
            m.get(other)
        },
{
    lemma_with_member(m.keys, key);
    lemma_rank_from(m.keys, key, 0);
    lemma_rank_from(m.keys, other, 0);
    let n = m.put(key, value);
    lemma_rank_from(n.keys, other, 0);
    let p = rank_from(m.keys, key, 0);
    let q = rank_from(m.keys, other, 0);
    let t = rank_from(n.keys, other, 0);
    assert(n.keys == with_member(m.keys, key));
    if p < m.keys.len() && m.keys[p] == key {
        assert(n.keys == m.keys);
    } else if other == key {
        assert(t == p) by {
            if t < p {
                assert(n.keys[t] == m.keys[t]);
            }
            if t > p {
                assert(n.keys[p] == key);
            }
        }
    } else {
        if q < p || (q == p && other < key) {
            assert(t == q) by {
                if t < q {
                    assert(n.keys[t] == m.keys[t]);
                }
                if t > q {
                    assert(n.keys[q] >= other);
                }
            }
        } else {
            assert(t == q + 1) by {
                if t < q + 1 {
                    if t < p {
                        assert(n.keys[t] == m.keys[t]);
                    } else if t > p {
                        assert(n.keys[t] == m.keys[t - 1]);
                    }
                }
                if t > q + 1 {
                    assert(n.keys[q + 1] == m.keys[q]);
                }
            }
        }
    }
}

/// A map from numbers that lists its entries in ascending order of their keys.
#[derive(Debug)]
pub struct SortedMap<V> {
    pub keys: Vec<u32>,
    pub values: Vec<V>,
}

impl<V: View> View for SortedMap<V> {
    type V = Entries<V::V>;

    open spec fn view(&self) -> Entries<V::V> {
        Entries { keys: self.keys@, values: views(self.values@) }
    }
}

impl<V: View> SortedMap<V> {
    /// As many values as keys.
    pub open spec fn wf(self) -> bool {
        self.keys@.len() == self.values@.len()
    }

    pub fn new() -> (r: SortedMap<V>)
        ensures
            r.wf(),
            r@ == Entries::<V::V>::empty(),
    {
        proof {
            lemma_views_empty::<V>();
        }
        SortedMap { keys: Vec::new(), values: Vec::new() }
    }

    pub fn insert(&mut self, key: u32, value: V)
        requires
            old(self).wf(),
        ensures
            final(self).wf(),
            final(self)@ == old(self)@.put(key, value@),
    {
        let p: usize = rank_of(&self.keys, key);
        let ghost before = self.values@;
        if p < self.keys.len() && self.keys[p] == key {
            self.values.set(p, value);
            assert(views(self.values@) =~= views(before).update(p as int, value@));
        } else {
            self.keys.insert(p, key);
            self.values.insert(p, value);
            assert(views(self.values@) =~= views(before).insert(p as int, value@));
        }
    }

    /// Where `key` stands, if it has an entry.
    pub fn position(&self, key: u32) -> (r: Option<usize>)
        requires
            self.wf(),
        ensures
            match r {
                Some(p) => p < self.keys@.len() && self.keys@[p as int] == key && self@.get(key)
                    == Some(self@.values[p as int]),
                None => self@.get(key) is None,
            },
    {
        let p: usize = rank_of(&self.keys, key);
        if p < self.keys.len() && self.keys[p] == key {
            Some(p)
        } else {
            None
        }
    }

    pub fn contains_key(&self, key: u32) -> (r: bool)
        requires
            self.wf(),
        ensures
            r == (self@.get(key) is Some),
    {
        self.position(key).is_some()
    }
}

// ---------------------------------------------------------------------------
// Maps from small numbers to 16-bit numbers
// ---------------------------------------------------------------------------

/// A map from numbers to 16-bit numbers, with one slot for each number up to
/// the largest key.
#[derive(Debug)]
pub struct IdMap {
    pub slots: Vec<Option<u16>>,
}

impl View for IdMap {
    type V = Map<u32, u16>;

    open spec fn view(&self) -> Map<u32, u16> {
        Map::new(
            |k: u32| k < self.slots@.len() && self.slots@[k as int] is Some,
            |k: u32| self.slots@[k as int]->0,
        )
    }
}

/// What a map holds under a key.
pub open spec fn found<V>(m: Map<u32, V>, key: u32) -> Option<V> {
    if m.contains_key(key) {
        Some(m[key])
    } else {
        None
    }
}

impl IdMap {
    pub fn new() -> (r: IdMap)
        ensures
            r@ == Map::<u32, u16>::empty(),
    {
        let r = IdMap { slots: Vec::new() };
        assert(r@ =~= Map::<u32, u16>::empty());
        r
    }

    pub fn get(&self, key: u32) -> (r: Option<u16>)
        ensures
            r == found(self@, key),
    {
        if (key as usize) < self.slots.len() {
            self.slots[key as usize]
        } else {
            None
        }
    }

    pub fn put(&mut self, key: u32, value: u16)
        requires
            key < u32::MAX,
        ensures
            final(self)@ == old(self)@.insert(key, value),
    {
        let ghost before = self@;
        let at: usize = key as usize;
        if at >= self.slots.len() {
            self.slots.resize(at + 1, None);
        }
        self.slots.set(at, Some(value));
        assert(self@ =~= before.insert(key, value));
    }

    /// Replaces each value by the entry of `table` that it points at.
    pub fn remap(&mut self, table: &Vec<u16>)
        requires
            forall|k: u32| #[trigger] old(self)@.contains_key(k) ==> old(self)@[k] < table@.len(),
        ensures
            final(self)@ == old(self)@.map_values(|v: u16| table@[v as int]),
    {
        let ghost before = self@;
        let ghost slots = self.slots@;
        let mut i: usize = 0;
        while i < self.slots.len()
            invariant
                i <= self.slots.len(),
                self.slots@.len() == slots.len(),
                slots == old(self).slots@,
                forall|k: u32| #[trigger]
                    old(self)@.contains_key(k) ==> old(self)@[k] < table@.len(),
                forall|j: int| i <= j < slots.len() ==> self.slots@[j] == slots[j],
                forall|j: int|
                    0 <= j < i && j <= u32::MAX ==> #[trigger] self.slots@[j] == match slots[j] {
                        Some(v) => Some(table@[v as int]),
                        None => None,
                    },
            decreases self.slots.len() - i,
        {
            if let Some(v) = self.slots[i] {
                proof {
                    assert(slots[i as int] == Some(v));
                    if i <= u32::MAX {
                        assert(old(self)@.contains_key(i as u32));
                    }
                }
                if (v as usize) < table.len() {
                    self.slots.set(i, Some(table[v as usize]));
                }
            }
            i += 1;
        }
        assert(self@ =~= before.map_values(|v: u16| table@[v as int]));
    }
}

} // verus!
