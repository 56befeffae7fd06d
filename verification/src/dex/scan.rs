//! What scans have to do with each other and with the order of the code.
use vstd::prelude::*;

use crate::dex::references::{
    in_scan_order, index_keys, lemma_picked_members, lemma_wanted_members, reference_at, scan_key,
    scan_keys, sites_from, span_sites, span_sites_step, wanted, ReferenceSite,
};
use crate::dex::{CodeSpan, DexContents, ReferenceKind};
use crate::dex_format::{bytes_in, units_of, width_at};
use crate::error::Error;
use crate::minidex::bytecode::opcode_at;
use crate::minidex::canonical::picked;
use crate::order::{
    lemma_less_asymmetric, lemma_less_irreflexive, lemma_less_transitive, lemma_place_from,
    lemma_sort_order, less_from, lex_less, place_from, sort_order,
};
use crate::results::run;

verus! {

/// The sites with a wanted target.
pub open spec fn kept(sites: Seq<ReferenceSite>, targets: Set<u32>) -> Seq<ReferenceSite> {
    wanted(sites, targets, sites.len())
}

// ---------------------------------------------------------------------------
// Keeping some sites
// ---------------------------------------------------------------------------

proof fn lemma_wanted_same(a: Seq<ReferenceSite>, b: Seq<ReferenceSite>, targets: Set<u32>, n: nat)
    requires
        n <= a.len(),
        n <= b.len(),
        forall|i: int| 0 <= i < n ==> #[trigger] a[i] == b[i],
    ensures
        wanted(a, targets, n) == wanted(b, targets, n),
    decreases n,
{
    if n > 0 {
        lemma_wanted_same(a, b, targets, (n - 1) as nat);
        assert(a[n - 1] == b[n - 1]);
    }
}

proof fn lemma_kept_push(s: Seq<ReferenceSite>, x: ReferenceSite, targets: Set<u32>)
    ensures
        kept(s.push(x), targets) == if targets.contains(x.target_index) {
            kept(s, targets).push(x)
        } else {
            kept(s, targets)
        },
{
    lemma_wanted_same(s, s.push(x), targets, s.len());
    assert(s.push(x)[s.len() as int] == x);
}

proof fn lemma_kept_add(a: Seq<ReferenceSite>, b: Seq<ReferenceSite>, targets: Set<u32>)
    ensures
        kept(a + b, targets) == kept(a, targets) + kept(b, targets),
    decreases b.len(),
{
    if b.len() == 0 {
        assert(a + b =~= a);
        assert(kept(b, targets) =~= Seq::empty());
        assert(kept(a, targets) + kept(b, targets) =~= kept(a, targets));
    } else {
        let front = b.drop_last();
        let x = b.last();
        lemma_kept_add(a, front, targets);
        assert(a + b =~= (a + front).push(x));
        assert(b =~= front.push(x));
        lemma_kept_push(a + front, x, targets);
        lemma_kept_push(front, x, targets);
        assert(kept(a + b, targets) =~= kept(a, targets) + kept(b, targets));
    }
}

/// Of what a larger set keeps, a smaller set keeps what it keeps of all.
proof fn lemma_kept_twice(s: Seq<ReferenceSite>, fewer: Set<u32>, more: Set<u32>, n: nat)
    requires
        fewer.subset_of(more),
        n <= s.len(),
    ensures
        kept(wanted(s, more, n), fewer) == wanted(s, fewer, n),
    decreases n,
{
    if n > 0 {
        lemma_kept_twice(s, fewer, more, (n - 1) as nat);
        lemma_kept_push(wanted(s, more, (n - 1) as nat), s[n - 1], fewer);
    }
}

proof fn lemma_kept_members(s: Seq<ReferenceSite>, targets: Set<u32>)
    ensures
        forall|x: ReferenceSite| #[trigger]
            kept(s, targets).contains(x) <==> s.contains(x) && targets.contains(x.target_index),
{
    lemma_wanted_members(s, targets, s.len());
    assert(s.take(s.len() as int) =~= s);
}

// ---------------------------------------------------------------------------
// Sorting and keeping
// ---------------------------------------------------------------------------

proof fn lemma_place_same(
    a: Seq<Seq<u32>>,
    b: Seq<Seq<u32>>,
    order: Seq<int>,
    key: Seq<u32>,
    p: int,
)
    requires
        0 <= p,
        forall|q: int| 0 <= q < order.len() ==> a[#[trigger] order[q]] == b[order[q]],
    ensures
        place_from(a, order, key, p) == place_from(b, order, key, p),
    decreases order.len() - p,
{
    if p < order.len() {
        assert(a[order[p]] == b[order[p]]);
        lemma_place_same(a, b, order, key, p + 1);
    }
}

/// The order of the first keys depends on them alone.
proof fn lemma_order_same(a: Seq<Seq<u32>>, b: Seq<Seq<u32>>, n: nat)
    requires
        forall|i: int| 0 <= i < n ==> #[trigger] a[i] == b[i],
    ensures
        sort_order(a, n) == sort_order(b, n),
    decreases n,
{
    if n > 0 {
        let rest = sort_order(a, (n - 1) as nat);
        lemma_order_same(a, b, (n - 1) as nat);
        lemma_sort_order(a, (n - 1) as nat);
        assert forall|q: int| 0 <= q < rest.len() implies a[#[trigger] rest[q]] == b[rest[q]] by {
            assert(0 <= rest[q] < n - 1);
        }
        assert(a[n - 1] == b[n - 1]);
        lemma_place_same(a, b, rest, a[n - 1], 0);
    }
}

/// Whether `p` parts sites into those that do not come behind a key and those
/// that do.
spec fn parts(scan: Seq<u32>, sites: Seq<ReferenceSite>, key: Seq<u32>, p: int) -> bool {
    &&& 0 <= p <= sites.len()
    &&& forall|q: int| 0 <= q < p ==> !lex_less(key, scan_key(scan, #[trigger] sites[q]))
    &&& forall|q: int| p <= q < sites.len() ==> lex_less(key, scan_key(scan, #[trigger] sites[q]))
}

/// One more site is put into its place among those in order.
proof fn lemma_insert(scan: Seq<u32>, s: Seq<ReferenceSite>, x: ReferenceSite) -> (p: int)
    ensures
        parts(scan, in_scan_order(scan, s), scan_key(scan, x), p),
        in_scan_order(scan, s.push(x)) == in_scan_order(scan, s).insert(p, x),
{
    let all = s.push(x);
    let n = s.len();
    let keys = scan_keys(scan, all);
    let before = scan_keys(scan, s);
    let key = scan_key(scan, x);
    assert forall|i: int| 0 <= i < n implies #[trigger] keys[i] == before[i] by {
        assert(all[i] == s[i]);
    }
    lemma_order_same(keys, before, n);
    lemma_sort_order(before, n);
    let order = sort_order(before, n);
    let sorted = in_scan_order(scan, s);
    assert(keys[n as int] == key) by {
        assert(all[n as int] == x);
    }
    let p = place_from(keys, order, key, 0);
    lemma_place_from(keys, order, key, 0);
    assert forall|q: int| 0 <= q < sorted.len() implies keys[#[trigger] order[q]] == scan_key(
        scan,
        sorted[q],
    ) by {
        assert(0 <= order[q] < n);
        assert(keys[order[q]] == before[order[q]]);
    }
    assert forall|q: int| 0 <= q < p implies !lex_less(
        key,
        scan_key(scan, #[trigger] sorted[q]),
    ) by {
        assert(!lex_less(key, keys[order[q]]));
    }
    assert forall|q: int| p <= q < sorted.len() implies lex_less(
        key,
        scan_key(scan, #[trigger] sorted[q]),
    ) by {
        assert(lex_less(key, keys[order[p]]));
        assert(keys[order[p]] == before[order[p]]);
        assert(keys[order[q]] == before[order[q]]);
        if q > p {
            if lex_less(before[order[p]], before[order[q]]) {
                lemma_less_transitive(key, before[order[p]], before[order[q]]);
            }
        }
    }
    assert(sort_order(keys, n + 1) == order.insert(p, n as int));
    let out = in_scan_order(scan, all);
    let expected = sorted.insert(p, x);
    assert(out.len() == expected.len());
    assert forall|i: int| 0 <= i < out.len() implies out[i] == expected[i] by {
        let at = order.insert(p, n as int);
        assert(out[i] == all[at[i]]);
        if i < p {
            assert(at[i] == order[i]);
        } else if i == p {
            assert(at[i] == n);
        } else {
            assert(at[i] == order[i - 1]);
        }
    }
    assert(out =~= expected);
    p
}

/// What is kept of sites in order is in order what is kept of the sites.
proof fn lemma_kept_in_order(scan: Seq<u32>, s: Seq<ReferenceSite>, targets: Set<u32>)
    ensures
        kept(in_scan_order(scan, s), targets) == in_scan_order(scan, kept(s, targets)),
    decreases s.len(),
{
    if s.len() == 0 {
        assert(in_scan_order(scan, s) =~= Seq::<ReferenceSite>::empty());
        assert(kept(s, targets) =~= Seq::<ReferenceSite>::empty());
        assert(in_scan_order(scan, kept(s, targets)) =~= Seq::<ReferenceSite>::empty());
        assert(kept(in_scan_order(scan, s), targets) =~= Seq::<ReferenceSite>::empty());
    } else {
        let front = s.drop_last();
        let x = s.last();
        assert(s =~= front.push(x));
        lemma_kept_in_order(scan, front, targets);
        let sorted = in_scan_order(scan, front);
        let p = lemma_insert(scan, front, x);
        let low = sorted.take(p);
        let high = sorted.skip(p);
        assert(sorted =~= low + high);
        lemma_kept_add(low, high, targets);
        lemma_kept_push(front, x, targets);
        lemma_kept_push(low, x, targets);
        lemma_kept_add(low.push(x), high, targets);
        assert(sorted.insert(p, x) =~= low.push(x) + high);
        let left = kept(low, targets);
        let right = kept(high, targets);
        if targets.contains(x.target_index) {
            let key = scan_key(scan, x);
            let among = kept(sorted, targets);
            let q = lemma_insert(scan, kept(front, targets), x);
            lemma_kept_members(low, targets);
            lemma_kept_members(high, targets);
            assert(among =~= left + right);
            if q < left.len() {
                let y = among[q];
                assert(left[q] == y);
                assert(left.contains(y));
                assert(low.contains(y));
                let i = choose|i: int| 0 <= i < low.len() && low[i] == y;
                assert(sorted[i] == y);
                assert(false);
            }
            if q > left.len() {
                let y = among[left.len() as int];
                assert(right[0] == y);
                assert(right.contains(y));
                assert(high.contains(y));
                let i = choose|i: int| 0 <= i < high.len() && high[i] == y;
                assert(sorted[p + i] == y);
                assert(false);
            }
            assert(among.insert(q, x) =~= left.push(x) + right);
        }
    }
}

/// A scan for fewer targets is the scan for more of them with the other sites
/// left out, in the same order.
pub proof fn lemma_scan_fewer(
    d: DexContents,
    kind: ReferenceKind,
    fewer: Set<u32>,
    more: Set<u32>,
)
    requires
        fewer.subset_of(more),
        d.sites_of(kind, more) is Ok,
    ensures
        d.sites_of(kind, fewer) == Ok::<Seq<ReferenceSite>, Error>(
            kept(d.sites_of(kind, more)->Ok_0, fewer),
        ),
{
    let found = d.sites_of(kind, more)->Ok_0;
    if fewer == Set::<u32>::empty() {
        lemma_kept_members(found, fewer);
        if kept(found, fewer).len() > 0 {
            assert(kept(found, fewer).contains(kept(found, fewer)[0]));
        }
        assert(kept(found, fewer) =~= Seq::<ReferenceSite>::empty());
    } else {
        if more == Set::<u32>::empty() {
            assert(fewer =~= Set::<u32>::empty());
        }
        let index = d.index_of(kind)->Ok_0;
        lemma_kept_twice(index, fewer, more, index.len());
        lemma_kept_in_order(d.scan_order, kept(index, more), fewer);
    }
}

/// A scan for nothing finds nothing and does not fail, whatever the code is.
pub proof fn lemma_scan_nothing(d: DexContents, kind: ReferenceKind)
    ensures
        d.sites_of(kind, Set::empty()) == Ok::<Seq<ReferenceSite>, Error>(Seq::empty()),
{
}

// ---------------------------------------------------------------------------
// The order of the code
// ---------------------------------------------------------------------------

/// Whether no method has code twice.
pub open spec fn code_once(code: Seq<CodeSpan>) -> bool {
    forall|i: int, j: int|
        0 <= i < j < code.len() ==> (#[trigger] code[i]).method_idx != (
        #[trigger] code[j]).method_idx
}

/// Whether a site comes before another by its caller's code or by its offset.
spec fn earlier(scan: Seq<u32>, a: ReferenceSite, b: ReferenceSite) -> bool {
    let x = scan_key(scan, a);
    let y = scan_key(scan, b);
    x[0] < y[0] || x[0] == y[0] && x[1] < y[1]
}

/// Whether each site comes before those behind it by its caller's code or by
/// its offset.
spec fn spaced(scan: Seq<u32>, sites: Seq<ReferenceSite>) -> bool {
    forall|i: int, j: int|
        #![trigger sites[i], sites[j]]
        0 <= i < j < sites.len() ==> earlier(scan, sites[i], sites[j])
}

proof fn lemma_spaced_strict(scan: Seq<u32>, sites: Seq<ReferenceSite>)
    requires
        spaced(scan, sites),
    ensures
        strict(scan, sites),
{
    assert forall|i: int, j: int|
        #![trigger sites[i], sites[j]]
        0 <= i < j < sites.len() implies lex_less(
        scan_key(scan, sites[i]),
        scan_key(scan, sites[j]),
    ) by {
        assert(earlier(scan, sites[i], sites[j]));
        lemma_keys(scan_key(scan, sites[i]), scan_key(scan, sites[j]));
    }
}

proof fn lemma_kept_spaced(scan: Seq<u32>, sites: Seq<ReferenceSite>, targets: Set<u32>, n: nat)
    requires
        spaced(scan, sites),
        n <= sites.len(),
    ensures
        spaced(scan, wanted(sites, targets, n)),
    decreases n,
{
    if n > 0 {
        let before = wanted(sites, targets, (n - 1) as nat);
        let now = wanted(sites, targets, n);
        lemma_kept_spaced(scan, sites, targets, (n - 1) as nat);
        lemma_wanted_members(sites, targets, (n - 1) as nat);
        assert forall|i: int, j: int|
            #![trigger now[i], now[j]]
            0 <= i < j < now.len() implies earlier(scan, now[i], now[j]) by {
            assert(now[i] == before[i]);
            if j < before.len() {
                assert(now[j] == before[j]);
            } else {
                assert(before.contains(before[i]));
                let head = sites.take(n - 1);
                assert(head.contains(before[i]));
                let k = choose|k: int| 0 <= k < head.len() && head[k] == before[i];
                assert(sites[k] == now[i] && sites[n - 1] == now[j]);
            }
        }
    }
}

/// Whether sites stand strictly in scan order.
spec fn strict(scan: Seq<u32>, sites: Seq<ReferenceSite>) -> bool {
    forall|i: int, j: int|
        #![trigger sites[i], sites[j]]
        0 <= i < j < sites.len() ==> lex_less(scan_key(scan, sites[i]), scan_key(scan, sites[j]))
}

/// Whether a site belongs to one of the first `n` code items, or to the next
/// before offset `pc`.
spec fn behind(d: DexContents, n: int, pc: int, site: ReferenceSite) -> bool {
    let place = d.scan_order[site.caller_index as int];
    &&& site.caller_index < d.scan_order.len()
    &&& place < d.code.len()
    &&& d.code[place as int].method_idx == site.caller_index
    &&& place < n || place == n && site.code_unit_offset < pc
}

spec fn all_behind(d: DexContents, n: int, pc: int, sites: Seq<ReferenceSite>) -> bool {
    forall|i: int| 0 <= i < sites.len() ==> behind(d, n, pc, #[trigger] sites[i])
}

proof fn lemma_keys(a: Seq<u32>, b: Seq<u32>)
    requires
        a.len() == 3,
        b.len() == 3,
    ensures
        lex_less(a, b) <==> a[0] < b[0] || a[0] == b[0] && (a[1] < b[1] || a[1] == b[1] && a[2]
            < b[2]),
{
    reveal_with_fuel(less_from, 4);
}

proof fn lemma_sites_spaced(
    d: DexContents,
    kind: ReferenceKind,
    n: int,
    units: Seq<u16>,
    pc: int,
    sites: Seq<ReferenceSite>,
)
    requires
        d.indexed(),
        code_once(d.code),
        0 <= n < d.code.len(),
        0 <= pc,
        units.len() <= u32::MAX,
        spaced(d.scan_order, sites),
        all_behind(d, n, pc, sites),
        sites_from(kind, d.code[n].method_idx, units, pc, sites) is Ok,
    ensures
        ({
            let out = sites_from(kind, d.code[n].method_idx, units, pc, sites)->Ok_0;
            spaced(d.scan_order, out) && all_behind(d, n + 1, 0, out)
        }),
    decreases units.len() - pc,
{
    let caller = d.code[n].method_idx;
    let place = d.scan_order[caller as int];
    assert(d.code[place as int].method_idx == caller && n <= place);
    assert(place == n);
    if pc >= units.len() {
        assert forall|i: int| 0 <= i < sites.len() implies behind(
            d,
            n + 1,
            0,
            #[trigger] sites[i],
        ) by {
            assert(behind(d, n, pc, sites[i]));
        }
    } else {
        let width = width_at(units, pc)->Ok_0;
        match reference_at(kind, opcode_at(units, pc), units, pc) {
            Some(target) => {
                let site = ReferenceSite {
                    caller_index: caller,
                    target_index: target,
                    code_unit_offset: pc as u32,
                };
                let more = sites.push(site);
                assert forall|i: int| 0 <= i < more.len() implies behind(
                    d,
                    n,
                    pc + width,
                    #[trigger] more[i],
                ) by {
                    if i < sites.len() {
                        assert(behind(d, n, pc, sites[i]));
                    }
                }
                assert forall|i: int, j: int|
                    #![trigger more[i], more[j]]
                    0 <= i < j < more.len() implies earlier(d.scan_order, more[i], more[j]) by {
                    if j == sites.len() {
                        assert(behind(d, n, pc, sites[i]));
                    } else {
                        assert(more[i] == sites[i] && more[j] == sites[j]);
                    }
                }
                lemma_sites_spaced(d, kind, n, units, pc + width, more);
            },
            None => {
                assert forall|i: int| 0 <= i < sites.len() implies behind(
                    d,
                    n,
                    pc + width,
                    #[trigger] sites[i],
                ) by {
                    assert(behind(d, n, pc, sites[i]));
                }
                lemma_sites_spaced(d, kind, n, units, pc + width, sites);
            },
        }
    }
}

proof fn lemma_spans_spaced(
    d: DexContents,
    kind: ReferenceKind,
    n: int,
    sites: Seq<ReferenceSite>,
)
    requires
        d.indexed(),
        code_once(d.code),
        0 <= n <= d.code.len(),
        spaced(d.scan_order, sites),
        all_behind(d, n, 0, sites),
        run(
            span_sites_step(kind, d.tables.data, d.code),
            sites,
            n,
            d.code.len() as int,
        ) is Ok,
    ensures
        ({
            let out = run(
                span_sites_step(kind, d.tables.data, d.code),
                sites,
                n,
                d.code.len() as int,
            )->Ok_0;
            spaced(d.scan_order, out) && all_behind(d, d.code.len() as int, 0, out)
        }),
    decreases d.code.len() - n,
{
    if n < d.code.len() {
        let span = d.code[n];
        let step = span_sites_step(kind, d.tables.data, d.code);
        let bytes = bytes_in(d.tables.data, span.insns_offset as int, span.insns_size * 2)->Ok_0;
        assert(step(sites, n) == span_sites(kind, d.tables.data, span, sites));
        assert(bytes.len() == span.insns_size * 2);
        assert(units_of(bytes).len() == span.insns_size);
        lemma_sites_spaced(d, kind, n, units_of(bytes), 0, sites);
        lemma_spans_spaced(d, kind, n + 1, step(sites, n)->Ok_0);
    }
}

/// Two lists in strict order with the same members are the same.
proof fn lemma_strict_unique(
    scan: Seq<u32>,
    a: Seq<ReferenceSite>,
    b: Seq<ReferenceSite>,
    n: int,
)
    requires
        strict(scan, a),
        strict(scan, b),
        a.len() == b.len(),
        forall|x: ReferenceSite| #[trigger] a.contains(x) <==> b.contains(x),
        0 <= n <= a.len(),
    ensures
        a.take(n) == b.take(n),
    decreases n,
{
    if n > 0 {
        let i = n - 1;
        lemma_strict_unique(scan, a, b, i);
        assert forall|k: int| 0 <= k < i implies a[k] == b[k] by {
            assert(a.take(i)[k] == b.take(i)[k]);
        }
        assert(a.contains(a[i]));
        assert(b.contains(b[i]));
        assert(a.contains(b[i]));
        let j = choose|j: int| 0 <= j < b.len() && b[j] == a[i];
        let k = choose|k: int| 0 <= k < a.len() && a[k] == b[i];
        if j < i {
            assert(a[j] == a[i]);
            lemma_less_irreflexive(scan_key(scan, a[i]));
        }
        if k < i {
            assert(b[k] == b[i]);
            lemma_less_irreflexive(scan_key(scan, b[i]));
        }
        if j > i && k > i {
            lemma_less_asymmetric(scan_key(scan, b[i]), scan_key(scan, b[j]));
        }
        assert(a[i] == b[i]);
        assert(a.take(n) =~= b.take(n));
    }
}

/// Picking strictly ordered sites by any permutation and sorting them again
/// gives them back.
proof fn lemma_sorted_again(scan: Seq<u32>, all: Seq<ReferenceSite>, keys: Seq<Seq<u32>>)
    requires
        strict(scan, all),
        keys.len() == all.len(),
    ensures
        in_scan_order(scan, picked(all, sort_order(keys, all.len()))) == all,
{
    let order = sort_order(keys, all.len());
    let mixed = picked(all, order);
    let sorted = in_scan_order(scan, mixed);
    let scans = scan_keys(scan, mixed);
    let walk = sort_order(scans, mixed.len());
    lemma_sort_order(keys, all.len());
    lemma_sort_order(scans, mixed.len());
    lemma_picked_members(all, keys);
    lemma_picked_members(mixed, scans);
    assert forall|i: int, j: int|
        #![trigger sorted[i], sorted[j]]
        0 <= i < j < sorted.len() implies lex_less(
        scan_key(scan, sorted[i]),
        scan_key(scan, sorted[j]),
    ) by {
        let u = walk[i];
        let v = walk[j];
        assert(u != v);
        let a = order[u];
        let b = order[v];
        assert(a != b);
        assert(sorted[i] == all[a] && sorted[j] == all[b]);
        assert(scans[u] == scan_key(scan, all[a]) && scans[v] == scan_key(scan, all[b]));
        if a < b {
            assert(lex_less(scan_key(scan, all[a]), scan_key(scan, all[b])));
        } else {
            assert(lex_less(scan_key(scan, all[b]), scan_key(scan, all[a])));
            if lex_less(scans[u], scans[v]) {
                lemma_less_asymmetric(scans[u], scans[v]);
            } else {
                lemma_less_irreflexive(scans[u]);
            }
        }
    }
    assert forall|x: ReferenceSite| #[trigger] sorted.contains(x) <==> all.contains(x) by {
        assert(sorted.contains(x) <==> mixed.contains(x));
        assert(mixed.contains(x) <==> all.contains(x));
    }
    lemma_strict_unique(scan, sorted, all, all.len() as int);
    assert(sorted.take(all.len() as int) =~= sorted);
    assert(all.take(all.len() as int) =~= all);
}

/// Where no method has code twice, a scan lists the sites of the code in the
/// order of the code, those with another target left out. So the sites of one
/// caller stand side by side, by ascending offsets.
pub proof fn lemma_scan_in_code_order(d: DexContents, kind: ReferenceKind, targets: Set<u32>)
    requires
        d.indexed(),
        code_once(d.code),
        d.all_sites(kind) is Ok,
    ensures
        d.sites_of(kind, targets) == Ok::<Seq<ReferenceSite>, Error>(
            kept(d.all_sites(kind)->Ok_0, targets),
        ),
        ({
            let found = kept(d.all_sites(kind)->Ok_0, targets);
            forall|i: int, j: int|
                0 <= i < j < found.len() && (#[trigger] found[i]).caller_index == (
                #[trigger] found[j]).caller_index ==> {
                    &&& found[i].code_unit_offset < found[j].code_unit_offset
                    &&& forall|k: int|
                        i < k < j ==> (#[trigger] found[k]).caller_index == found[i].caller_index
                }
        }),
{
    let all = d.all_sites(kind)->Ok_0;
    lemma_spans_spaced(d, kind, 0, Seq::empty());
    lemma_spaced_strict(d.scan_order, all);
    assert(all_behind(d, d.code.len() as int, 0, all));
    let found = kept(all, targets);
    lemma_kept_members(all, targets);
    if targets == Set::<u32>::empty() {
        if found.len() > 0 {
            assert(found.contains(found[0]));
        }
        assert(found =~= Seq::<ReferenceSite>::empty());
    } else {
        lemma_sorted_again(d.scan_order, all, index_keys(all));
        let index = d.index_of(kind)->Ok_0;
        lemma_kept_in_order(d.scan_order, index, targets);
    }
    assert forall|i: int| 0 <= i < found.len() implies behind(
        d,
        d.code.len() as int,
        0,
        #[trigger] found[i],
    ) by {
        assert(found.contains(found[i]));
        let x = found[i];
        let k = choose|k: int| 0 <= k < all.len() && all[k] == x;
        assert(behind(d, d.code.len() as int, 0, all[k]));
    }
    lemma_kept_spaced(d.scan_order, all, targets, all.len());
    assert forall|i: int, j: int|
        0 <= i < j < found.len() && (#[trigger] found[i]).caller_index == (
        #[trigger] found[j]).caller_index implies {
        &&& found[i].code_unit_offset < found[j].code_unit_offset
        &&& forall|k: int| i < k < j ==> (#[trigger] found[k]).caller_index == found[i].caller_index
    } by {
        lemma_side_by_side(d, found, i, j);
    }
}

proof fn lemma_side_by_side(d: DexContents, found: Seq<ReferenceSite>, i: int, j: int)
    requires
        spaced(d.scan_order, found),
        all_behind(d, d.code.len() as int, 0, found),
        0 <= i < j < found.len(),
        found[i].caller_index == found[j].caller_index,
    ensures
        found[i].code_unit_offset < found[j].code_unit_offset,
        forall|k: int| i < k < j ==> (#[trigger] found[k]).caller_index == found[i].caller_index,
{
    assert(behind(d, d.code.len() as int, 0, found[i]));
    assert forall|k: int| i < k < j implies (#[trigger] found[k]).caller_index
        == found[i].caller_index by {
        assert(behind(d, d.code.len() as int, 0, found[k]));
    }
}

} // verus!
