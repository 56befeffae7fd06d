//! Lexicographic order and stable sorting.
use vstd::prelude::*;

verus! {

/// Whether `a` comes before `b` in lexicographic order, from position `i` on.
pub open spec fn less_from(a: Seq<u32>, b: Seq<u32>, i: int) -> bool
    decreases a.len() - i,
{
    if i >= b.len() {
        false
    } else if i >= a.len() {
        true
    } else if a[i] != b[i] {
        a[i] < b[i]
    } else {
        less_from(a, b, i + 1)
    }
}

/// Whether `a` comes before `b` in lexicographic order.
pub open spec fn lex_less(a: Seq<u32>, b: Seq<u32>) -> bool {
    less_from(a, b, 0)
}

proof fn lemma_less_transitive_from(a: Seq<u32>, b: Seq<u32>, c: Seq<u32>, i: int)
    requires
        less_from(a, b, i),
        less_from(b, c, i),
    ensures
        less_from(a, c, i),
    decreases a.len() - i,
{
    if i < a.len() && i < b.len() && i < c.len() && a[i] == b[i] && b[i] == c[i] {
        lemma_less_transitive_from(a, b, c, i + 1);
    }
}

proof fn lemma_less_asymmetric_from(a: Seq<u32>, b: Seq<u32>, i: int)
    requires
        less_from(a, b, i),
    ensures
        !less_from(b, a, i),
    decreases a.len() - i,
{
    if i < a.len() && i < b.len() && a[i] == b[i] {
        lemma_less_asymmetric_from(a, b, i + 1);
    }
}

proof fn lemma_less_total_from(a: Seq<u32>, b: Seq<u32>, i: int)
    requires
        0 <= i <= a.len(),
        i <= b.len(),
        !less_from(a, b, i),
        !less_from(b, a, i),
    ensures
        a.len() == b.len(),
        forall|j: int| i <= j < a.len() ==> a[j] == b[j],
    decreases a.len() - i,
{
    if i < a.len() && i < b.len() {
        lemma_less_total_from(a, b, i + 1);
    }
}

/// Lexicographic order is transitive.
pub proof fn lemma_less_transitive(a: Seq<u32>, b: Seq<u32>, c: Seq<u32>)
    requires
        lex_less(a, b),
        lex_less(b, c),
    ensures
        lex_less(a, c),
{
    lemma_less_transitive_from(a, b, c, 0);
}

/// Nothing comes both before and after another sequence.
pub proof fn lemma_less_asymmetric(a: Seq<u32>, b: Seq<u32>)
    requires
        lex_less(a, b),
    ensures
        !lex_less(b, a),
{
    lemma_less_asymmetric_from(a, b, 0);
}

/// Two sequences of which neither comes first are equal.
pub proof fn lemma_less_total(a: Seq<u32>, b: Seq<u32>)
    requires
        !lex_less(a, b),
        !lex_less(b, a),
    ensures
        a == b,
{
    lemma_less_total_from(a, b, 0);
    assert(a =~= b);
}

/// A sequence comes before another where, behind a common start, it ends or
/// goes on with a smaller number.
pub proof fn lemma_lex_order(a: Seq<u32>, b: Seq<u32>)
    ensures
        lex_less(a, b) <==> exists|k: int|
            #![trigger a.take(k)]
            0 <= k <= a.len() && k < b.len() && a.take(k) == b.take(k) && (k == a.len() || a[k]
                < b[k]),
{
    lemma_lex_order_from(a, b, 0);
    if lex_less(a, b) {
        let k = choose|k: int| #[trigger] ends_below(a, b, k) && 0 <= k;
        assert(a.take(k) =~= b.take(k));
    }
    if exists|k: int|
        #![trigger a.take(k)]
        0 <= k <= a.len() && k < b.len() && a.take(k) == b.take(k) && (k == a.len() || a[k]
            < b[k]) {
        let k = choose|k: int|
            #![trigger a.take(k)]
            0 <= k <= a.len() && k < b.len() && a.take(k) == b.take(k) && (k == a.len() || a[k]
                < b[k]);
        assert forall|j: int| 0 <= j < k implies a[j] == b[j] by {
            assert(a.take(k)[j] == b.take(k)[j]);
        }
        assert(ends_below(a, b, k));
    }
}

/// Whether two sequences agree before `k`, and the first ends there or has the
/// smaller number.
spec fn ends_below(a: Seq<u32>, b: Seq<u32>, k: int) -> bool {
    &&& k <= a.len()
    &&& k < b.len()
    &&& forall|j: int| 0 <= j < k ==> a[j] == b[j]
    &&& k == a.len() || a[k] < b[k]
}

proof fn lemma_lex_order_from(a: Seq<u32>, b: Seq<u32>, i: int)
    requires
        0 <= i <= a.len(),
        i <= b.len(),
        forall|j: int| 0 <= j < i ==> a[j] == b[j],
    ensures
        less_from(a, b, i) <==> exists|k: int| #[trigger] ends_below(a, b, k) && i <= k,
    decreases a.len() - i,
{
    if i < b.len() && i < a.len() && a[i] == b[i] {
        lemma_lex_order_from(a, b, i + 1);
        if exists|k: int| #[trigger] ends_below(a, b, k) && i <= k {
            let k = choose|k: int| #[trigger] ends_below(a, b, k) && i <= k;
            assert(ends_below(a, b, k) && i + 1 <= k);
        }
    } else if less_from(a, b, i) {
        assert(ends_below(a, b, i));
    }
}

/// Compares two number lists lexicographically.
pub fn list_less(a: &Vec<u32>, b: &Vec<u32>) -> (r: bool)
    ensures
        r == lex_less(a@, b@),
{
    let mut i: usize = 0;
    loop
        invariant
            i <= a.len(),
            i <= b.len(),
            lex_less(a@, b@) == less_from(a@, b@, i as int),
        decreases a.len() - i,
    {
        if i >= b.len() {
            return false;
        }
        if i >= a.len() {
            return true;
        }
        if a[i] != b[i] {
            return a[i] < b[i];
        }
        i += 1;
    }
}

// ---------------------------------------------------------------------------
// Stable sorting
// ---------------------------------------------------------------------------

/// The first position from `p` on whose key comes behind `key`.
pub open spec fn place_from(
    keys: Seq<Seq<u32>>,
    order: Seq<int>,
    key: Seq<u32>,
    p: int,
) -> int
    decreases order.len() - p,
{
    if p >= order.len() || lex_less(key, keys[order[p]]) {
        p
    } else {
        place_from(keys, order, key, p + 1)
    }
}

/// The indices `0 .. n` in the order of their keys; equal keys keep the order
/// of their indices.
pub open spec fn sort_order(keys: Seq<Seq<u32>>, n: nat) -> Seq<int>
    decreases n,
{
    if n == 0 {
        Seq::empty()
    } else {
        let rest = sort_order(keys, (n - 1) as nat);
        rest.insert(place_from(keys, rest, keys[n - 1], 0), n - 1)
    }
}

/// Before the place of a key no key comes behind it; the key there does.
pub proof fn lemma_place_from(keys: Seq<Seq<u32>>, order: Seq<int>, key: Seq<u32>, p: int)
    requires
        0 <= p <= order.len(),
    ensures
        p <= place_from(keys, order, key, p) <= order.len(),
        forall|q: int|
            p <= q < place_from(keys, order, key, p) ==> !lex_less(key, keys[#[trigger] order[q]]),
        place_from(keys, order, key, p) < order.len() ==> lex_less(
            key,
            keys[order[place_from(keys, order, key, p)]],
        ),
    decreases order.len() - p,
{
    if p < order.len() && !lex_less(key, keys[order[p]]) {
        lemma_place_from(keys, order, key, p + 1);
    }
}

/// Whether `order` lists indices by key, and by index where keys are equal.
pub open spec fn is_sorted_order(keys: Seq<Seq<u32>>, order: Seq<int>) -> bool {
    forall|i: int, j: int|
        #![trigger order[i], order[j]]
        0 <= i < j < order.len() ==> lex_less(keys[order[i]], keys[order[j]]) || (keys[order[i]]
            == keys[order[j]] && order[i] < order[j])
}

/// `sort_order` lists each index once, in the order of the keys, with ties in
/// the order of the indices.
pub proof fn lemma_sort_order(keys: Seq<Seq<u32>>, n: nat)
    ensures
        sort_order(keys, n).len() == n,
        forall|i: int| 0 <= i < n ==> 0 <= #[trigger] sort_order(keys, n)[i] < n,
        forall|x: int| 0 <= x < n ==> #[trigger] sort_order(keys, n).contains(x),
        sort_order(keys, n).no_duplicates(),
        is_sorted_order(keys, sort_order(keys, n)),
    decreases n,
{
    if n > 0 {
        let rest = sort_order(keys, (n - 1) as nat);
        let key = keys[n - 1];
        let p = place_from(keys, rest, key, 0);
        let order = sort_order(keys, n);
        lemma_sort_order(keys, (n - 1) as nat);
        lemma_place_from(keys, rest, key, 0);
        assert(order == rest.insert(p, n - 1));
        assert forall|x: int| 0 <= x < n implies #[trigger] order.contains(x) by {
            if x == n - 1 {
                assert(order[p] == x);
            } else {
                assert(rest.contains(x));
                let i = choose|i: int| 0 <= i < rest.len() && rest[i] == x;
                if i < p {
                    assert(order[i] == x);
                } else {
                    assert(order[i + 1] == x);
                }
            }
        }
        assert forall|i: int, j: int|
            #![trigger order[i], order[j]]
            0 <= i < j < order.len() implies lex_less(keys[order[i]], keys[order[j]]) || (
        keys[order[i]] == keys[order[j]] && order[i] < order[j]) by {
            let i0 = if i < p {
                i
            } else {
                i - 1
            };
            let j0 = if j < p {
                j
            } else {
                j - 1
            };
            if i == p {
                assert(order[j] == rest[j0]);
                assert(lex_less(key, keys[rest[p]]));
                if j0 > p {
                    assert(lex_less(keys[rest[p]], keys[rest[j0]]) || keys[rest[p]]
                        == keys[rest[j0]]);
                    if lex_less(keys[rest[p]], keys[rest[j0]]) {
                        lemma_less_transitive(key, keys[rest[p]], keys[rest[j0]]);
                    }
                }
            } else if j == p {
                assert(order[i] == rest[i0]);
                assert(!lex_less(key, keys[rest[i0]]));
                if !lex_less(keys[rest[i0]], key) {
                    lemma_less_total(keys[rest[i0]], key);
                }
            } else {
                assert(order[i] == rest[i0] && order[j] == rest[j0]);
            }
        }
    }
}

/// The number lists of a sequence of vectors.
pub open spec fn lists(keys: Seq<Vec<u32>>) -> Seq<Seq<u32>> {
    keys.map_values(|k: Vec<u32>| k@)
}

/// Positions as mathematical integers.
pub open spec fn positions(order: Seq<usize>) -> Seq<int> {
    order.map_values(|x: usize| x as int)
}

/// Sorts the indices of `keys` by key; equal keys keep their order.
pub fn sorted_indices(keys: &Vec<Vec<u32>>) -> (order: Vec<usize>)
    ensures
        positions(order@) == sort_order(lists(keys@), keys@.len()),
{
    let mut order: Vec<usize> = Vec::new();
    let mut n: usize = 0;
    let ghost all = lists(keys@);
    assert(positions(order@) =~= Seq::<int>::empty());
    while n < keys.len()
        invariant
            n <= keys.len(),
            all == lists(keys@),
            positions(order@) == sort_order(all, n as nat),
            order.len() == n,
        decreases keys.len() - n,
    {
        proof {
            lemma_sort_order(all, n as nat);
            lemma_place_from(all, positions(order@), all[n as int], 0);
        }
        let ghost p = place_from(all, positions(order@), all[n as int], 0);
        let mut low: usize = 0;
        let mut high: usize = order.len();
        while low < high
            invariant
                low <= p <= high <= order.len(),
                n < keys.len(),
                all == lists(keys@),
                order.len() == n,
                positions(order@) == sort_order(all, n as nat),
                is_sorted_order(all, positions(order@)),
                forall|i: int| 0 <= i < n ==> 0 <= #[trigger] positions(order@)[i] < n,
                forall|q: int|
                    0 <= q < p ==> !lex_less(all[n as int], all[#[trigger] positions(order@)[q]]),
                p < n ==> lex_less(all[n as int], all[positions(order@)[p]]),
            decreases high - low,
        {
            let middle: usize = low + (high - low) / 2;
            assert(positions(order@)[middle as int] == order@[middle as int]);
            if list_less(&keys[n], &keys[order[middle]]) {
                high = middle;
            } else {
                proof {
                    if p <= middle {
                        let a = all[positions(order@)[p]];
                        let b = all[positions(order@)[middle as int]];
                        if p < middle && lex_less(a, b) {
                            lemma_less_transitive(all[n as int], a, b);
                        }
                    }
                }
                low = middle + 1;
            }
        }
        let ghost old_order = order@;
        order.insert(low, n);
        proof {
            assert(positions(order@) =~= positions(old_order).insert(p, n as int));
        }
        n += 1;
    }
    order
}

// ---------------------------------------------------------------------------
// Merging equal neighbours
// ---------------------------------------------------------------------------

/// Walks `order` from `i` on: an index whose identity equals that of the last
/// kept one is merged into it, any other is kept. The second sequence says for
/// each index where it went.
pub open spec fn keep_from(
    ids: Seq<Seq<u32>>,
    order: Seq<int>,
    i: int,
    kept: Seq<int>,
    places: Seq<u16>,
) -> (Seq<int>, Seq<u16>)
    decreases order.len() - i,
{
    if i >= order.len() {
        (kept, places)
    } else {
        let o = order[i];
        let next = if kept.len() > 0 && ids[kept.last()] == ids[o] {
            kept
        } else {
            kept.push(o)
        };
        keep_from(ids, order, i + 1, next, places.update(o, (next.len() - 1) as u16))
    }
}

/// The indices of `keys` in the order of the keys with equal neighbours
/// merged, and where each index went.
pub open spec fn merged(keys: Seq<Seq<u32>>, ids: Seq<Seq<u32>>) -> (Seq<int>, Seq<u16>) {
    keep_from(
        ids,
        sort_order(keys, keys.len()),
        0,
        Seq::empty(),
        Seq::new(keys.len(), |i: int| 0u16),
    )
}

/// The kept indices keep the order of the keys.
pub open spec fn keys_in_order(keys: Seq<Seq<u32>>, kept: Seq<int>) -> bool {
    forall|a: int, b: int|
        #![trigger kept[a], kept[b]]
        0 <= a < b < kept.len() ==> !lex_less(keys[kept[b]], keys[kept[a]])
}

/// The kept indices have strictly ascending keys.
pub open spec fn keys_ascend(keys: Seq<Seq<u32>>, kept: Seq<int>) -> bool {
    forall|a: int, b: int|
        #![trigger kept[a], kept[b]]
        0 <= a < b < kept.len() ==> lex_less(keys[kept[a]], keys[kept[b]])
}

/// Whether indices with equal keys have equal identities.
pub open spec fn keys_identify(keys: Seq<Seq<u32>>, ids: Seq<Seq<u32>>) -> bool {
    forall|a: int, b: int|
        #![trigger keys[a], keys[b]]
        0 <= a < keys.len() && 0 <= b < keys.len() && keys[a] == keys[b] ==> ids[a] == ids[b]
}

/// What holds of the walk before step `i`.
spec fn keeping(
    keys: Seq<Seq<u32>>,
    ids: Seq<Seq<u32>>,
    order: Seq<int>,
    i: int,
    kept: Seq<int>,
    places: Seq<u16>,
) -> bool {
    &&& 0 <= i <= order.len()
    &&& kept.len() <= i
    &&& (i > 0 ==> kept.len() > 0 && ids[kept.last()] == ids[order[i - 1]])
    &&& places.len() == order.len()
    &&& forall|a: int| 0 <= a < kept.len() ==> 0 <= #[trigger] kept[a] < order.len()
    &&& forall|a: int|
        0 <= a < kept.len() ==> exists|j: int| 0 <= j < i && order[j] == #[trigger] kept[a]
    &&& forall|j: int|
        0 <= j < i ==> 0 <= places[#[trigger] order[j]] < kept.len()
            && ids[kept[places[order[j]] as int]] == ids[order[j]]
    &&& keys_in_order(keys, kept)
    &&& keys_identify(keys, ids) ==> keys_ascend(keys, kept)
}

proof fn lemma_keep_from(
    keys: Seq<Seq<u32>>,
    ids: Seq<Seq<u32>>,
    order: Seq<int>,
    i: int,
    kept: Seq<int>,
    places: Seq<u16>,
)
    requires
        order == sort_order(keys, keys.len()),
        keys.len() <= 0x1_0000,
        keeping(keys, ids, order, i, kept, places),
    ensures
        keeping(
            keys,
            ids,
            order,
            order.len() as int,
            keep_from(ids, order, i, kept, places).0,
            keep_from(ids, order, i, kept, places).1,
        ),
    decreases order.len() - i,
{
    lemma_sort_order(keys, keys.len());
    if i < order.len() {
        let o = order[i];
        let same = kept.len() > 0 && ids[kept.last()] == ids[o];
        let next = if same {
            kept
        } else {
            kept.push(o)
        };
        let moved = places.update(o, (next.len() - 1) as u16);
        assert(0 <= o < order.len());
        assert forall|a: int| 0 <= a < next.len() implies exists|j: int|
            0 <= j < i + 1 && order[j] == #[trigger] next[a] by {
            if a < kept.len() {
                let j = choose|j: int| 0 <= j < i && order[j] == kept[a];
                assert(order[j] == next[a]);
            } else {
                assert(order[i] == next[a]);
            }
        }
        assert forall|j: int| 0 <= j < i + 1 implies 0 <= moved[#[trigger] order[j]] < next.len()
            && ids[next[moved[order[j]] as int]] == ids[order[j]] by {
            if j < i {
                assert(order[j] != order[i]);
                assert(moved[order[j]] == places[order[j]]);
            }
        }
        assert forall|a: int, b: int|
            #![trigger next[a], next[b]]
            0 <= a < b < next.len() implies !lex_less(keys[next[b]], keys[next[a]]) by {
            if b == kept.len() {
                let j = choose|j: int| 0 <= j < i && order[j] == kept[a];
                assert(order[j] == next[a]);
                if lex_less(keys[order[j]], keys[order[i]]) {
                    lemma_less_asymmetric(keys[order[j]], keys[order[i]]);
                } else {
                    lemma_less_irreflexive(keys[order[i]]);
                }
            } else {
                assert(kept[a] == next[a] && kept[b] == next[b]);
            }
        }
        if keys_identify(keys, ids) {
            assert forall|a: int, b: int|
                #![trigger next[a], next[b]]
                0 <= a < b < next.len() implies lex_less(keys[next[a]], keys[next[b]]) by {
                if b == kept.len() {
                    let last = kept.last();
                    let j = choose|j: int| 0 <= j < i && order[j] == kept[kept.len() - 1];
                    assert(order[j] == last);
                    assert(keys[last] != keys[o]);
                    assert(lex_less(keys[order[j]], keys[order[i]]));
                    if a < kept.len() - 1 {
                        assert(lex_less(keys[kept[a]], keys[kept[kept.len() - 1]]));
                        lemma_less_transitive(keys[kept[a]], keys[last], keys[o]);
                    }
                } else {
                    assert(kept[a] == next[a] && kept[b] == next[b]);
                }
            }
        }
        lemma_keep_from(keys, ids, order, i + 1, next, moved);
    }
}

/// Nothing comes before itself.
pub proof fn lemma_less_irreflexive(a: Seq<u32>)
    ensures
        !lex_less(a, a),
{
    if lex_less(a, a) {
        lemma_less_asymmetric(a, a);
    }
}

/// Merging loses nothing: every index goes to a kept one with the same
/// identity. What is kept stands in the order of the keys, strictly so where
/// equal keys mean equal identities.
pub proof fn lemma_merged(keys: Seq<Seq<u32>>, ids: Seq<Seq<u32>>)
    requires
        keys.len() <= 0x1_0000,
    ensures
        merged(keys, ids).0.len() <= keys.len(),
        merged(keys, ids).1.len() == keys.len(),
        forall|a: int|
            0 <= a < merged(keys, ids).0.len() ==> 0 <= #[trigger] merged(keys, ids).0[a]
                < keys.len(),
        forall|o: int|
            0 <= o < keys.len() ==> 0 <= #[trigger] merged(keys, ids).1[o] < merged(
                keys,
                ids,
            ).0.len(),
        forall|o: int|
            0 <= o < keys.len() ==> ids[merged(keys, ids).0[#[trigger] merged(keys, ids).1[o] as int]]
                == ids[o],
        keys_in_order(keys, merged(keys, ids).0),
        keys_identify(keys, ids) ==> keys_ascend(keys, merged(keys, ids).0),
{
    let order = sort_order(keys, keys.len());
    let (kept, places) = merged(keys, ids);
    lemma_sort_order(keys, keys.len());
    lemma_keep_from(
        keys,
        ids,
        order,
        0,
        Seq::empty(),
        Seq::new(keys.len(), |i: int| 0u16),
    );
    assert forall|o: int| 0 <= o < keys.len() implies 0 <= #[trigger] places[o] < kept.len()
        && ids[kept[places[o] as int]] == ids[o] by {
        assert(order.contains(o));
        let j = choose|j: int| 0 <= j < order.len() && order[j] == o;
        assert(places[order[j]] < kept.len());
    }
}

/// Merges the indices of `keys` as `merged` says.
pub fn merge_indices(keys: &Vec<Vec<u32>>, ids: &Vec<Vec<u32>>) -> (r: (Vec<usize>, Vec<u16>))
    requires
        keys@.len() == ids@.len(),
        keys@.len() <= 0x1_0000,
    ensures
        positions(r.0@) == merged(lists(keys@), lists(ids@)).0,
        r.1@ == merged(lists(keys@), lists(ids@)).1,
        r.0@.len() <= keys@.len(),
        r.1@.len() == keys@.len(),
{
    let ghost all = lists(keys@);
    let ghost named = lists(ids@);
    let order = sorted_indices(keys);
    let ghost walk = positions(order@);
    proof {
        lemma_sort_order(all, keys@.len());
        lemma_merged(all, named);
    }
    let mut kept: Vec<usize> = Vec::new();
    let mut places: Vec<u16> = Vec::new();
    places.resize(keys.len(), 0u16);
    assert(places@ =~= Seq::new(all.len(), |i: int| 0u16));
    assert(positions(kept@) =~= Seq::<int>::empty());
    let mut i: usize = 0;
    while i < order.len()
        invariant
            i <= order.len(),
            kept.len() <= i,
            order.len() == keys.len(),
            keys.len() == ids.len(),
            keys.len() <= 0x1_0000,
            places.len() == keys.len(),
            all == lists(keys@),
            named == lists(ids@),
            walk == positions(order@),
            forall|j: int| 0 <= j < walk.len() ==> 0 <= #[trigger] walk[j] < keys.len(),
            forall|a: int| 0 <= a < kept@.len() ==> #[trigger] kept@[a] < keys.len(),
            merged(all, named) == keep_from(
                named,
                walk,
                i as int,
                positions(kept@),
                places@,
            ),
        decreases order.len() - i,
    {
        let o: usize = order[i];
        assert(walk[i as int] == o);
        let mut same: bool = false;
        if kept.len() > 0 {
            let last: usize = kept[kept.len() - 1];
            assert(positions(kept@).last() == last);
            same = same_list(&ids[last], &ids[o]);
        }
        let ghost before = kept@;
        if !same {
            kept.push(o);
            assert(positions(kept@) =~= positions(before).push(o as int));
        }
        let place: u16 = (kept.len() - 1) as u16;
        places.set(o, place);
        i += 1;
    }
    (kept, places)
}

/// Whether two number lists are equal.
pub fn same_list(a: &Vec<u32>, b: &Vec<u32>) -> (r: bool)
    ensures
        r == (a@ == b@),
{
    if a.len() != b.len() {
        return false;
    }
    let mut i: usize = 0;
    while i < a.len()
        invariant
            i <= a.len(),
            a@.len() == b@.len(),
            forall|j: int| 0 <= j < i ==> a@[j] == b@[j],
        decreases a.len() - i,
    {
        if a[i] != b[i] {
            return false;
        }
        i += 1;
    }
    assert(a@ =~= b@);
    true
}

} // verus!
