//! What the lines of a reference listing say of the references they come from.
use vstd::prelude::*;

use crate::dex::references::lemma_picked_members;
use crate::order::{
    lemma_less_asymmetric, lemma_less_total, lemma_less_transitive, lemma_lex_order,
    lemma_sort_order, lex_less, sort_order,
};
use crate::render::{
    joined, lemma_less_shift, lemma_tagged_order, lines_of, open_lines, reference_key,
    reference_keys, same_caller, scalars, sorted_references, tagged,
};
use crate::service::Location;

verus! {

/// A caller with the symbols that it refers to.
pub struct CallerTargets {
    pub dex_name: Seq<char>,
    pub caller_index: u32,
    pub caller_method: Seq<char>,
    pub targets: Seq<Seq<char>>,
}

/// Texts with a separator between them, taken apart from the front.
pub open spec fn separated(parts: Seq<Seq<char>>, separator: Seq<char>) -> Seq<char>
    decreases parts.len(),
{
    if parts.len() == 0 {
        Seq::empty()
    } else if parts.len() == 1 {
        parts[0]
    } else {
        parts[0] + separator + separated(parts.skip(1), separator)
    }
}

/// Whether `a` comes before `b` as texts do: at the first character in which
/// they differ it has the smaller one, or it ends where `b` goes on.
pub open spec fn text_before(a: Seq<char>, b: Seq<char>) -> bool {
    exists|k: int|
        #![trigger a.take(k)]
        0 <= k <= a.len() && k < b.len() && a.take(k) == b.take(k) && (k == a.len() || (a[k] as u32)
            < (b[k] as u32))
}

impl CallerTargets {
    /// Whether a reference stands in the code of this caller.
    pub open spec fn calls(self, l: Location) -> bool {
        &&& l.dex_name == self.dex_name
        &&& l.caller_index == self.caller_index
        &&& l.caller_method == self.caller_method
    }

    /// Callers order by DEX file, number and text.
    pub open spec fn before(self, other: CallerTargets) -> bool {
        ||| text_before(self.dex_name, other.dex_name)
        ||| self.dex_name == other.dex_name && self.caller_index < other.caller_index
        ||| self.dex_name == other.dex_name && self.caller_index == other.caller_index
            && text_before(self.caller_method, other.caller_method)
    }

    pub open spec fn line(self) -> Seq<char> {
        self.dex_name + " | "@ + self.caller_method + " | matched=("@ + separated(
            self.targets,
            "; "@,
        ) + ")"@
    }
}

/// Whether the caller of a reference is listed, and the symbol of the reference
/// among its symbols.
pub open spec fn listed_for(callers: Seq<CallerTargets>, l: Location) -> bool {
    exists|i: int|
        0 <= i < callers.len() && #[trigger] callers[i].calls(l) && callers[i].targets.contains(
            l.target_symbol,
        )
}

/// Whether a caller has a reference to a symbol.
pub open spec fn comes_from(
    references: Seq<Location>,
    caller: CallerTargets,
    symbol: Seq<char>,
) -> bool {
    exists|r: int|
        0 <= r < references.len() && caller.calls(#[trigger] references[r])
            && references[r].target_symbol == symbol
}

/// Whether `lines` lists references by caller: each caller has one line, callers
/// ascend, and a caller's line names the symbols of all its references, each
/// once and in ascending order, and no other.
pub open spec fn lists_callers(
    references: Seq<Location>,
    lines: Seq<Seq<char>>,
    callers: Seq<CallerTargets>,
) -> bool {
    &&& lines.len() == callers.len()
    &&& forall|i: int| 0 <= i < lines.len() ==> #[trigger] lines[i] == callers[i].line()
    &&& forall|i: int, j: int|
        #![trigger callers[i], callers[j]]
        0 <= i < j < callers.len() ==> callers[i].before(callers[j])
    &&& forall|i: int, j: int, k: int|
        #![trigger callers[i].targets[j], callers[i].targets[k]]
        0 <= i < callers.len() && 0 <= j < k < callers[i].targets.len() ==> text_before(
            callers[i].targets[j],
            callers[i].targets[k],
        )
    &&& forall|r: int| 0 <= r < references.len() ==> listed_for(callers, #[trigger] references[r])
    &&& forall|i: int, j: int|
        0 <= i < callers.len() && 0 <= j < callers[i].targets.len() ==> comes_from(
            references,
            callers[i],
            #[trigger] callers[i].targets[j],
        )
    &&& forall|i: int| 0 <= i < callers.len() ==> (#[trigger] callers[i]).targets.len() > 0
}

// ---------------------------------------------------------------------------
// Separators
// ---------------------------------------------------------------------------

proof fn lemma_joined_frame(a: Seq<Seq<char>>, b: Seq<Seq<char>>, separator: Seq<char>, n: nat)
    requires
        n <= a.len(),
        n <= b.len(),
        forall|i: int| 0 <= i < n ==> a[i] == b[i],
    ensures
        joined(a, separator, n) == joined(b, separator, n),
    decreases n,
{
    if n > 1 {
        lemma_joined_frame(a, b, separator, (n - 1) as nat);
    }
}

proof fn lemma_separated_push(parts: Seq<Seq<char>>, separator: Seq<char>, part: Seq<char>)
    requires
        parts.len() > 0,
    ensures
        separated(parts.push(part), separator) == separated(parts, separator) + separator + part,
    decreases parts.len(),
{
    let more = parts.push(part);
    if parts.len() == 1 {
        assert(more.skip(1) =~= seq![part]);
        assert(separated(more.skip(1), separator) == part);
    } else {
        assert(more.skip(1) =~= parts.skip(1).push(part));
        lemma_separated_push(parts.skip(1), separator, part);
    }
    assert(separated(more, separator) =~= separated(parts, separator) + separator + part);
}

/// Joined lines are the first line, and behind each separator the next: nothing
/// is lost, added or moved.
pub proof fn lemma_joined(lines: Seq<Seq<char>>, separator: Seq<char>)
    ensures
        joined(lines, separator, lines.len()) == separated(lines, separator),
    decreases lines.len(),
{
    if lines.len() > 1 {
        let rest = lines.drop_last();
        lemma_joined(rest, separator);
        lemma_joined_frame(lines, rest, separator, rest.len());
        lemma_separated_push(rest, separator, lines.last());
        assert(rest.push(lines.last()) =~= lines);
    }
}

// ---------------------------------------------------------------------------
// Order
// ---------------------------------------------------------------------------

/// Texts order by their scalar values.
pub proof fn lemma_text_before(a: Seq<char>, b: Seq<char>)
    requires
        lex_less(scalars(a), scalars(b)),
    ensures
        text_before(a, b),
{
    let x = scalars(a);
    let y = scalars(b);
    lemma_lex_order(x, y);
    let k = choose|k: int|
        #![trigger x.take(k)]
        0 <= k <= x.len() && k < y.len() && x.take(k) == y.take(k) && (k == x.len() || x[k] < y[k]);
    assert forall|i: int| 0 <= i < k implies a[i] == b[i] by {
        assert(x.take(k)[i] == y.take(k)[i]);
        vstd::utf8::char_u32_cast(a[i], a[i] as u32);
        vstd::utf8::char_u32_cast(b[i], b[i] as u32);
    }
    assert(a.take(k) =~= b.take(k));
}

/// Texts with the same scalar values are the same.
pub proof fn lemma_scalars_same(a: Seq<char>, b: Seq<char>)
    requires
        scalars(a) == scalars(b),
    ensures
        a == b,
{
    assert(a.len() == scalars(a).len() && b.len() == scalars(b).len());
    assert forall|i: int| 0 <= i < a.len() implies a[i] == b[i] by {
        assert(scalars(a)[i] == a[i] as u32 && scalars(b)[i] == b[i] as u32);
        vstd::utf8::char_u32_cast(a[i], a[i] as u32);
        vstd::utf8::char_u32_cast(b[i], b[i] as u32);
    }
    assert(a =~= b);
}

/// The order of callers, on sort keys.
spec fn caller_less(a: Location, b: Location) -> bool {
    ||| lex_less(scalars(a.dex_name), scalars(b.dex_name))
    ||| a.dex_name == b.dex_name && a.caller_index < b.caller_index
    ||| a.dex_name == b.dex_name && a.caller_index == b.caller_index && lex_less(
        scalars(a.caller_method),
        scalars(b.caller_method),
    )
}

proof fn lemma_key_order(a: Location, b: Location)
    ensures
        lex_less(reference_key(a), reference_key(b)) == (caller_less(a, b) || same_caller(a, b)
            && lex_less(scalars(a.target_symbol), scalars(b.target_symbol))),
{
    let none = Seq::<u32>::empty();
    let at = tagged(a.target_symbol) + none;
    let bt = tagged(b.target_symbol) + none;
    let am = tagged(a.caller_method) + at;
    let bm = tagged(b.caller_method) + bt;
    let ai = seq![a.caller_index] + am;
    let bi = seq![b.caller_index] + bm;
    assert(reference_key(a) =~= tagged(a.dex_name) + ai);
    assert(reference_key(b) =~= tagged(b.dex_name) + bi);
    lemma_tagged_order(a.dex_name, b.dex_name, ai, bi);
    lemma_tagged_order(a.caller_method, b.caller_method, at, bt);
    lemma_tagged_order(a.target_symbol, b.target_symbol, none, none);
    assert(!lex_less(none, none));
    if a.caller_index == b.caller_index {
        lemma_less_shift(ai, bi, am, bm, 1);
    }
    assert(lex_less(ai, bi) == (a.caller_index < b.caller_index || a.caller_index == b.caller_index
        && lex_less(am, bm))) by {
        assert(ai[0] == a.caller_index && bi[0] == b.caller_index);
    }
}

proof fn lemma_caller_transitive(a: Location, b: Location, c: Location)
    requires
        caller_less(a, b),
        caller_less(b, c),
    ensures
        caller_less(a, c),
{
    if lex_less(scalars(a.dex_name), scalars(b.dex_name)) && lex_less(
        scalars(b.dex_name),
        scalars(c.dex_name),
    ) {
        lemma_less_transitive(scalars(a.dex_name), scalars(b.dex_name), scalars(c.dex_name));
    }
    if lex_less(scalars(a.caller_method), scalars(b.caller_method)) && lex_less(
        scalars(b.caller_method),
        scalars(c.caller_method),
    ) {
        lemma_less_transitive(
            scalars(a.caller_method),
            scalars(b.caller_method),
            scalars(c.caller_method),
        );
    }
}

/// Of two references with keys in order, the callers are in order, or the
/// caller is the same and the symbols are in order or the same.
proof fn lemma_neighbours(a: Location, b: Location)
    requires
        lex_less(reference_key(a), reference_key(b)) || reference_key(a) == reference_key(b),
    ensures
        caller_less(a, b) || same_caller(a, b) && (a.target_symbol == b.target_symbol || lex_less(
            scalars(a.target_symbol),
            scalars(b.target_symbol),
        )),
{
    lemma_key_order(a, b);
    lemma_key_order(b, a);
    if reference_key(a) == reference_key(b) {
        if lex_less(reference_key(a), reference_key(b)) {
            lemma_less_asymmetric(reference_key(a), reference_key(b));
        }
        lemma_less_total(scalars(a.dex_name), scalars(b.dex_name));
        lemma_scalars_same(a.dex_name, b.dex_name);
        lemma_less_total(scalars(a.caller_method), scalars(b.caller_method));
        lemma_scalars_same(a.caller_method, b.caller_method);
        lemma_less_total(scalars(a.target_symbol), scalars(b.target_symbol));
        lemma_scalars_same(a.target_symbol, b.target_symbol);
    }
}

// ---------------------------------------------------------------------------
// Grouping
// ---------------------------------------------------------------------------

/// A run of sorted references with one caller: one of them, and its symbols.
struct Run {
    first: Location,
    targets: Seq<Seq<char>>,
}

spec fn runs_of(sorted: Seq<Location>, n: nat) -> Seq<Run>
    decreases n,
{
    if n == 0 {
        Seq::empty()
    } else {
        let runs = runs_of(sorted, (n - 1) as nat);
        let l = sorted[n - 1];
        if n > 1 && same_caller(sorted[n - 2], l) {
            if sorted[n - 2].target_symbol == l.target_symbol {
                runs
            } else {
                runs.drop_last().push(
                    Run { first: runs.last().first, targets: runs.last().targets.push(l.target_symbol) },
                )
            }
        } else {
            runs.push(Run { first: l, targets: seq![l.target_symbol] })
        }
    }
}

spec fn open_line(run: Run) -> Seq<char> {
    run.first.dex_name + " | "@ + run.first.caller_method + " | matched=("@ + separated(
        run.targets,
        "; "@,
    )
}

spec fn in_order(sorted: Seq<Location>) -> bool {
    forall|i: int, j: int|
        #![trigger sorted[i], sorted[j]]
        0 <= i < j < sorted.len() ==> lex_less(reference_key(sorted[i]), reference_key(sorted[j]))
            || reference_key(sorted[i]) == reference_key(sorted[j])
}

/// What holds of the runs of the first `n` sorted references.
spec fn runs_good(sorted: Seq<Location>, n: nat, runs: Seq<Run>) -> bool {
    &&& n > 0 ==> runs.len() > 0
    &&& n > 0 ==> same_caller(runs.last().first, sorted[n - 1])
    &&& n > 0 ==> runs.last().targets.last() == sorted[n - 1].target_symbol
    &&& forall|i: int| 0 <= i < runs.len() ==> (#[trigger] runs[i]).targets.len() > 0
    &&& forall|i: int, j: int|
        #![trigger runs[i], runs[j]]
        0 <= i < j < runs.len() ==> caller_less(runs[i].first, runs[j].first)
}

spec fn targets_ascend(targets: Seq<Seq<char>>) -> bool {
    forall|j: int, k: int|
        #![trigger targets[j], targets[k]]
        0 <= j < k < targets.len() ==> lex_less(scalars(targets[j]), scalars(targets[k]))
}

proof fn lemma_runs(sorted: Seq<Location>, n: nat)
    requires
        n <= sorted.len(),
        in_order(sorted),
    ensures
        runs_good(sorted, n, runs_of(sorted, n)),
        open_lines(sorted, n) == runs_of(sorted, n).map_values(|r: Run| open_line(r)),
    decreases n,
{
    let runs = runs_of(sorted, n);
    if n == 0 {
        assert(open_lines(sorted, n) =~= runs.map_values(|r: Run| open_line(r)));
    } else {
        let m = (n - 1) as nat;
        lemma_runs(sorted, m);
        let before = runs_of(sorted, m);
        let l = sorted[n - 1];
        if n > 1 {
            assert(lex_less(reference_key(sorted[n - 2]), reference_key(sorted[n - 1]))
                || reference_key(sorted[n - 2]) == reference_key(sorted[n - 1]));
            lemma_neighbours(sorted[n - 2], l);
        }
        if n > 1 && same_caller(sorted[n - 2], l) {
            if sorted[n - 2].target_symbol != l.target_symbol {
                let last = before.last();
                lemma_separated_push(last.targets, "; "@, l.target_symbol);
                let longer = Run { first: last.first, targets: last.targets.push(l.target_symbol) };
                assert(open_line(longer) =~= open_line(last) + "; "@ + l.target_symbol);
                assert(open_lines(sorted, n) =~= runs.map_values(|r: Run| open_line(r)));
                assert forall|i: int, j: int|
                    #![trigger runs[i], runs[j]]
                    0 <= i < j < runs.len() implies caller_less(runs[i].first, runs[j].first) by {
                    assert(runs[i].first == before[i].first && runs[j].first == before[j].first);
                }
            }
        } else {
            let new = Run { first: l, targets: seq![l.target_symbol] };
            assert(separated(new.targets, "; "@) == l.target_symbol);
            assert(open_lines(sorted, n) =~= runs.map_values(|r: Run| open_line(r)));
            assert forall|i: int, j: int|
                #![trigger runs[i], runs[j]]
                0 <= i < j < runs.len() implies caller_less(runs[i].first, runs[j].first) by {
                if j == before.len() {
                    let last = before.last().first;
                    assert(caller_less(last, l)) by {
                        assert(caller_less(sorted[n - 2], l));
                    }
                    if i < before.len() - 1 {
                        assert(caller_less(before[i].first, before[before.len() - 1].first));
                        lemma_caller_transitive(before[i].first, last, l);
                    }
                } else {
                    assert(runs[i] == before[i] && runs[j] == before[j]);
                }
            }
        }
    }
}

proof fn lemma_run_targets(sorted: Seq<Location>, n: nat, i: int)
    requires
        n <= sorted.len(),
        in_order(sorted),
        0 <= i < runs_of(sorted, n).len(),
    ensures
        targets_ascend(runs_of(sorted, n)[i].targets),
    decreases n,
{
    if n > 0 {
        let m = (n - 1) as nat;
        let before = runs_of(sorted, m);
        let runs = runs_of(sorted, n);
        let l = sorted[n - 1];
        lemma_runs(sorted, m);
        if i < before.len() {
            lemma_run_targets(sorted, m, i);
        }
        if n > 1 && same_caller(sorted[n - 2], l) {
            if sorted[n - 2].target_symbol != l.target_symbol && i == before.len() - 1 {
                assert(lex_less(reference_key(sorted[n - 2]), reference_key(sorted[n - 1]))
                    || reference_key(sorted[n - 2]) == reference_key(sorted[n - 1]));
                lemma_neighbours(sorted[n - 2], l);
                if caller_less(sorted[n - 2], l) {
                    lemma_not_before_itself(sorted[n - 2], l);
                }
                let old = before.last().targets;
                let now = runs[i].targets;
                assert(now == old.push(l.target_symbol));
                assert(lex_less(scalars(old.last()), scalars(l.target_symbol)));
                assert forall|j: int, k: int|
                    #![trigger now[j], now[k]]
                    0 <= j < k < now.len() implies lex_less(scalars(now[j]), scalars(now[k])) by {
                    if k == old.len() {
                        if j < old.len() - 1 {
                            assert(lex_less(scalars(old[j]), scalars(old[old.len() - 1])));
                            lemma_less_transitive(
                                scalars(old[j]),
                                scalars(old.last()),
                                scalars(l.target_symbol),
                            );
                        }
                    } else {
                        assert(now[j] == old[j] && now[k] == old[k]);
                    }
                }
            }
        }
    }
}

proof fn lemma_not_before_itself(a: Location, b: Location)
    requires
        same_caller(a, b),
    ensures
        !caller_less(a, b),
{
    if lex_less(scalars(a.dex_name), scalars(b.dex_name)) {
        lemma_less_asymmetric(scalars(a.dex_name), scalars(b.dex_name));
    }
    if lex_less(scalars(a.caller_method), scalars(b.caller_method)) {
        lemma_less_asymmetric(scalars(a.caller_method), scalars(b.caller_method));
    }
}

/// Each of the first `n` references is in a run, with its symbol.
proof fn lemma_in_run(sorted: Seq<Location>, n: nat, r: int) -> (i: int)
    requires
        n <= sorted.len(),
        in_order(sorted),
        0 <= r < n,
    ensures
        0 <= i < runs_of(sorted, n).len(),
        same_caller(runs_of(sorted, n)[i].first, sorted[r]),
        runs_of(sorted, n)[i].targets.contains(sorted[r].target_symbol),
    decreases n,
{
    let runs = runs_of(sorted, n);
    lemma_runs(sorted, n);
    if r == n - 1 {
        let i = runs.len() - 1;
        let targets = runs[i].targets;
        assert(targets[targets.len() - 1] == sorted[r].target_symbol);
        i
    } else {
        let m = (n - 1) as nat;
        let before = runs_of(sorted, m);
        let i = lemma_in_run(sorted, m, r);
        let j = choose|j: int|
            0 <= j < before[i].targets.len() && before[i].targets[j] == sorted[r].target_symbol;
        lemma_runs(sorted, m);
        assert(runs[i].targets[j] == before[i].targets[j]);
        i
    }
}

/// Each symbol of a run is that of one of its references.
proof fn lemma_from_run(sorted: Seq<Location>, n: nat, i: int, j: int) -> (r: int)
    requires
        n <= sorted.len(),
        in_order(sorted),
        0 <= i < runs_of(sorted, n).len(),
        0 <= j < runs_of(sorted, n)[i].targets.len(),
    ensures
        0 <= r < n,
        same_caller(runs_of(sorted, n)[i].first, sorted[r]),
        sorted[r].target_symbol == runs_of(sorted, n)[i].targets[j],
    decreases n,
{
    let m = (n - 1) as nat;
    let before = runs_of(sorted, m);
    let runs = runs_of(sorted, n);
    lemma_runs(sorted, m);
    lemma_runs(sorted, n);
    if i < before.len() && j < before[i].targets.len() {
        let r = lemma_from_run(sorted, m, i, j);
        assert(runs[i].first == before[i].first);
        assert(runs[i].targets[j] == before[i].targets[j]);
        r
    } else {
        n - 1
    }
}

// ---------------------------------------------------------------------------
// Laws
// ---------------------------------------------------------------------------

spec fn callers_of(runs: Seq<Run>) -> Seq<CallerTargets> {
    runs.map_values(
        |r: Run|
            CallerTargets {
                dex_name: r.first.dex_name,
                caller_index: r.first.caller_index,
                caller_method: r.first.caller_method,
                targets: r.targets,
            },
    )
}

/// A reference listing has one line for each caller, in the order of the
/// callers, and the line names exactly the symbols of that caller's references,
/// in ascending order.
pub proof fn lemma_lines_by_caller(references: Seq<Location>)
    ensures
        exists|callers: Seq<CallerTargets>|
            lists_callers(references, lines_of(references), callers),
{
    let n = references.len();
    let keys = reference_keys(references);
    let order = sort_order(keys, n);
    let sorted = sorted_references(references);
    lemma_sort_order(keys, n);
    assert(in_order(sorted)) by {
        assert forall|i: int, j: int|
            #![trigger sorted[i], sorted[j]]
            0 <= i < j < sorted.len() implies lex_less(
            reference_key(sorted[i]),
            reference_key(sorted[j]),
        ) || reference_key(sorted[i]) == reference_key(sorted[j]) by {
            assert(keys[order[i]] == reference_key(sorted[i]));
            assert(keys[order[j]] == reference_key(sorted[j]));
        }
    }
    lemma_runs(sorted, n);
    let runs = runs_of(sorted, n);
    let callers = callers_of(runs);
    let lines = lines_of(references);
    assert forall|i: int| 0 <= i < lines.len() implies #[trigger] lines[i] == callers[i].line() by {
        assert(lines[i] == open_lines(sorted, n)[i] + ")"@);
        assert(open_lines(sorted, n)[i] == open_line(runs[i]));
        assert(callers[i].targets == runs[i].targets);
    }
    assert forall|i: int, j: int|
        #![trigger callers[i], callers[j]]
        0 <= i < j < callers.len() implies callers[i].before(callers[j]) by {
        let a = runs[i].first;
        let b = runs[j].first;
        assert(caller_less(a, b));
        if lex_less(scalars(a.dex_name), scalars(b.dex_name)) {
            lemma_text_before(a.dex_name, b.dex_name);
        } else if a.caller_index == b.caller_index {
            lemma_text_before(a.caller_method, b.caller_method);
        }
    }
    assert forall|i: int, j: int, k: int|
        #![trigger callers[i].targets[j], callers[i].targets[k]]
        0 <= i < callers.len() && 0 <= j < k < callers[i].targets.len() implies text_before(
        callers[i].targets[j],
        callers[i].targets[k],
    ) by {
        lemma_run_targets(sorted, n, i);
        let targets = runs[i].targets;
        assert(callers[i].targets == targets);
        assert(lex_less(scalars(targets[j]), scalars(targets[k])));
        lemma_text_before(targets[j], targets[k]);
    }
    lemma_picked_members(references, keys);
    assert forall|r: int| 0 <= r < references.len() implies listed_for(
        callers,
        #[trigger] references[r],
    ) by {
        assert(references.contains(references[r]));
        assert(sorted.contains(references[r]));
        let s = choose|s: int| 0 <= s < sorted.len() && sorted[s] == references[r];
        let i = lemma_in_run(sorted, n, s);
        assert(callers[i].calls(references[r]));
        assert(callers[i].targets.contains(references[r].target_symbol));
    }
    assert forall|i: int, j: int|
        0 <= i < callers.len() && 0 <= j < callers[i].targets.len() implies comes_from(
        references,
        callers[i],
        #[trigger] callers[i].targets[j],
    ) by {
        let s = lemma_from_run(sorted, n, i, j);
        assert(sorted[s] == references[order[s]]);
        assert(callers[i].calls(references[order[s]]));
    }
    assert forall|i: int| 0 <= i < callers.len() implies (#[trigger] callers[i]).targets.len()
        > 0 by {
        assert(runs[i].targets.len() > 0);
    }
    assert(lists_callers(references, lines, callers));
}

} // verus!
