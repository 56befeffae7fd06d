//! Looking for many patterns in many strings at once.
use aho_corasick::{AhoCorasick, AhoCorasickBuilder, BuildError, MatchKind};
use vstd::prelude::*;

use crate::collections::{cut32, low32};
use crate::dex::{DexContents, Query};
use crate::error::Error;
use crate::text::{lemma_empty_occurs, occurs, same_text, texts};

verus! {

// ---------------------------------------------------------------------------
// The automaton
// ---------------------------------------------------------------------------

/// The automaton of the `aho_corasick` crate.
#[verifier::external_type_specification]
#[verifier::external_body]
pub struct ExAhoCorasick(AhoCorasick);

/// Why the `aho_corasick` crate built no automaton.
#[verifier::external_type_specification]
#[verifier::external_body]
pub struct ExBuildError(BuildError);

/// The patterns that an automaton was built from.
pub uninterp spec fn automaton_patterns(automaton: AhoCorasick) -> Seq<Seq<char>>;

/// Whether an automaton was built with `MatchKind::Standard`, and otherwise
/// with what the builder starts from: it matches unanchored and by case.
pub uninterp spec fn automaton_standard(automaton: AhoCorasick) -> bool;

/// Whether `AhoCorasickBuilder::build` builds an automaton for the given
/// patterns with `MatchKind::Standard`.
pub uninterp spec fn automaton_fits(patterns: Seq<Seq<char>>) -> bool;

/// How many characters some patterns have, and one more for each of them.
pub open spec fn patterns_size(patterns: Seq<Seq<char>>) -> nat
    decreases patterns.len(),
{
    if patterns.len() == 0 {
        0
    } else {
        patterns_size(patterns.drop_last()) + patterns.last().len() + 1
    }
}

/// Builds an automaton with `MatchKind::Standard`, by
/// `AhoCorasickBuilder::build`. It holds the given patterns under their
/// positions. Whether the build succeeds depends on the patterns alone: it
/// fails only where a pattern, or the number of patterns, states, transitions
/// or matches, exceeds the largest identifier, which is above two thousand
/// million. Patterns of at most 4096 characters stay far below: they have at
/// most 16384 bytes, so as many states beside four fixed ones, at most 256
/// transitions for each, and for each at most twice as many matches as there
/// are patterns.
#[verifier::external_body]
fn build_automaton(patterns: &Vec<String>) -> (r: Result<AhoCorasick, BuildError>)
    ensures
        r is Ok == automaton_fits(texts(patterns@)),
        patterns_size(texts(patterns@)) <= 0x1000 ==> r is Ok,
        r matches Ok(a) ==> automaton_patterns(a) == texts(patterns@) && automaton_standard(a),
{
    AhoCorasickBuilder::new().match_kind(MatchKind::Standard).build(patterns)
}

/// The patterns that occur in a text, by `AhoCorasick::find_overlapping_iter`:
/// one entry for every place at which a pattern stands, so a pattern is listed
/// if and only if it occurs. A pattern stands in the UTF-8 bytes of a text
/// exactly where its characters stand in the text.
#[verifier::external_body]
fn patterns_in(automaton: &AhoCorasick, text: &String) -> (r: Vec<usize>)
    requires
        automaton_standard(*automaton),
    ensures
        forall|i: int|
            0 <= i < r@.len() ==> (#[trigger] r@[i]) < automaton_patterns(*automaton).len()
                && occurs(text@, automaton_patterns(*automaton)[r@[i] as int]),
        forall|p: int|
            0 <= p < automaton_patterns(*automaton).len() && occurs(
                text@,
                #[trigger] automaton_patterns(*automaton)[p],
            ) ==> exists|i: int| 0 <= i < r@.len() && #[trigger] r@[i] == p,
{
    automaton.find_overlapping_iter(text.as_str()).map(|m| m.pattern().as_usize()).collect()
}

// ---------------------------------------------------------------------------
// Results
// ---------------------------------------------------------------------------

/// The positions below `n` of the strings in which a pattern occurs.
pub open spec fn hits(strings: Seq<Seq<char>>, pattern: Seq<char>, n: nat) -> Seq<u32>
    decreases n,
{
    if n == 0 {
        Seq::empty()
    } else if occurs(strings[n - 1], pattern) {
        hits(strings, pattern, (n - 1) as nat).push(low32(n - 1))
    } else {
        hits(strings, pattern, (n - 1) as nat)
    }
}

/// A batch finds for each pattern what a search for that pattern alone finds.
pub proof fn lemma_batch_is_single(d: DexContents, pattern: String, n: nat)
    requires
        n <= 0x1_0000_0000,
    ensures
        hits(d.tables.strings, pattern@, n) == d.matching_below(Query::String(pattern), n),
    decreases n,
{
    if n > 0 {
        lemma_batch_is_single(d, pattern, (n - 1) as nat);
    }
}

// ---------------------------------------------------------------------------
// Grouping
// ---------------------------------------------------------------------------

/// Whether `list` holds, each once, exactly the positions below `n` at which
/// `queries` has `pattern`.
pub open spec fn lists_pattern(
    list: Seq<usize>,
    queries: Seq<Seq<char>>,
    pattern: Seq<char>,
    n: nat,
) -> bool {
    &&& list.no_duplicates()
    &&& forall|i: int| 0 <= i < list.len() ==> (#[trigger] list[i]) < n
    &&& forall|q: int|
        0 <= q < n ==> (#[trigger] queries[q] == pattern <==> exists|i: int|
            0 <= i < list.len() && #[trigger] list[i] == q)
}

/// Whether patterns are grouped: each pattern that is not empty stands once in
/// `unique`, next to the positions at which it is asked for.
pub open spec fn groups_patterns(
    unique: Seq<Seq<char>>,
    groups: Seq<Vec<usize>>,
    empty: Seq<usize>,
    queries: Seq<Seq<char>>,
    n: nat,
) -> bool {
    &&& unique.len() == groups.len()
    &&& unique.no_duplicates()
    &&& lists_pattern(empty, queries, Seq::empty(), n)
    &&& forall|u: int| 0 <= u < unique.len() ==> (#[trigger] unique[u]).len() > 0
    &&& forall|u: int|
        0 <= u < unique.len() ==> lists_pattern(
            (#[trigger] groups[u])@,
            queries,
            unique[u],
            n,
        )
    &&& forall|u: int| 0 <= u < groups.len() ==> (#[trigger] groups[u])@.len() > 0
    &&& forall|q: int|
        0 <= q < n && (#[trigger] queries[q]).len() > 0 ==> unique.contains(queries[q])
}

/// The distinct patterns among the first `n` that have text, in the order in
/// which they are first met.
pub open spec fn distinct(queries: Seq<Seq<char>>, n: nat) -> Seq<Seq<char>>
    decreases n,
{
    if n == 0 {
        Seq::empty()
    } else {
        let rest = distinct(queries, (n - 1) as nat);
        let query = queries[n - 1];
        if query.len() == 0 || rest.contains(query) {
            rest
        } else {
            rest.push(query)
        }
    }
}

/// Whether a batch can be prepared: no pattern has text, or an automaton can be
/// built for those that have.
pub open spec fn batch_fits(queries: Seq<Seq<char>>) -> bool {
    let unique = distinct(queries, queries.len());
    unique.len() == 0 || automaton_fits(unique)
}

/// The distinct patterns of a batch, and who asked for each.
pub struct PatternGroups {
    pub unique: Vec<String>,
    pub groups: Vec<Vec<usize>>,
    pub empty: Vec<usize>,
}

impl PatternGroups {
    /// Whether these are the groups of `queries`.
    pub open spec fn of(self, queries: Seq<Seq<char>>) -> bool {
        groups_patterns(texts(self.unique@), self.groups@, self.empty@, queries, queries.len())
    }

    /// Groups the patterns of a batch.
    pub fn new(patterns: &[String]) -> (r: PatternGroups)
        ensures
            r.of(texts(patterns@)),
            texts(r.unique@) == distinct(texts(patterns@), patterns@.len()),
    {
        let ghost queries = texts(patterns@);
        let mut unique: Vec<String> = Vec::new();
        let mut groups: Vec<Vec<usize>> = Vec::new();
        let mut empty: Vec<usize> = Vec::new();
        let mut n: usize = 0;
        while n < patterns.len()
            invariant
                n <= patterns.len(),
                queries == texts(patterns@),
                groups_patterns(texts(unique@), groups@, empty@, queries, n as nat),
                texts(unique@) == distinct(queries, n as nat),
            decreases patterns.len() - n,
        {
            let pattern = &patterns[n];
            assert(queries[n as int] == pattern@);
            let ghost known = texts(unique@);
            let ghost before = groups@;
            let ghost blank = empty@;
            if is_empty_text(pattern) {
                empty.push(n);
                proof {
                    assert(queries[n as int] =~= Seq::<char>::empty());
                    lemma_pushed(blank, queries, Seq::empty(), n);
                    assert forall|u: int| 0 <= u < known.len() implies lists_pattern((#[trigger] groups@[u])@, queries, known[u], n as nat + 1) by {
                        lemma_passed_over(groups@[u]@, queries, known[u], n as nat);
                    }
                }
            } else {
                proof {
                    lemma_passed_over(blank, queries, Seq::empty(), n as nat);
                }
                match position_of(&unique, pattern) {
                    Some(u) => {
                        assert(known.contains(known[u as int]));
                        let mut group: Vec<usize> = Vec::new();
                        std::mem::swap(&mut group, &mut groups[u]);
                        let ghost list = group@;
                        group.push(n);
                        std::mem::swap(&mut group, &mut groups[u]);
                        proof {
                            assert(known[u as int] == pattern@);
                            assert(list == before[u as int]@);
                            assert(groups@[u as int]@ == list.push(n));
                            lemma_pushed(list, queries, known[u as int], n);
                            assert forall|v: int| 0 <= v < known.len() implies lists_pattern(
                                (#[trigger] groups@[v])@,
                                queries,
                                known[v],
                                n as nat + 1,
                            ) by {
                                if v != u {
                                    assert(groups@[v] == before[v]);
                                    assert(known[v] != known[u as int]);
                                    lemma_passed_over(before[v]@, queries, known[v], n as nat);
                                }
                            }
                        }
                    },
                    None => {
                        let mut group: Vec<usize> = Vec::new();
                        group.push(n);
                        let copy = pattern.clone();
                        unique.push(copy);
                        groups.push(group);
                        proof {
                            let now = texts(unique@);
                            assert(now =~= known.push(pattern@));
                            assert(lists_pattern(group@, queries, pattern@, n as nat + 1)) by {
                                assert(group@ =~= Seq::<usize>::empty().push(n));
                                assert forall|q: int| 0 <= q < n implies queries[q] != pattern@ by {
                                    if queries[q] == pattern@ {
                                        assert(known.contains(queries[q]));
                                    }
                                }
                                assert(group@[0] == n);
                            }
                            assert forall|v: int| 0 <= v < now.len() implies lists_pattern(
                                (#[trigger] groups@[v])@,
                                queries,
                                now[v],
                                n as nat + 1,
                            ) by {
                                if v < known.len() {
                                    assert(groups@[v] == before[v]);
                                    assert(known.contains(known[v]));
                                    lemma_passed_over(before[v]@, queries, known[v], n as nat);
                                }
                            }
                            assert forall|q: int|
                                0 <= q < n + 1 && (#[trigger] queries[q]).len()
                                    > 0 implies now.contains(queries[q]) by {
                                if q < n {
                                    let i = choose|i: int|
                                        0 <= i < known.len() && known[i] == queries[q];
                                    assert(now[i] == queries[q]);
                                } else {
                                    assert(now[known.len() as int] == queries[q]);
                                }
                            }
                        }
                    },
                }
            }
            proof {
                assert(lists_pattern(empty@, queries, Seq::empty(), n as nat + 1));
                assert forall|q: int|
                    0 <= q < n + 1 && (#[trigger] queries[q]).len() > 0 implies texts(
                    unique@,
                ).contains(queries[q]) by {
                    if q < n {
                        assert(known.contains(queries[q]));
                    }
                }
                assert(texts(unique@).no_duplicates());
                assert forall|u: int| 0 <= u < groups@.len() implies (#[trigger] groups@[u])@.len()
                    > 0 by {
                    if u < before.len() {
                        assert(before[u]@.len() > 0);
                    }
                }
            }
            n += 1;
        }
        PatternGroups { unique, groups, empty }
    }
}

fn is_empty_text(s: &String) -> (r: bool)
    ensures
        r == (s@.len() == 0),
{
    let r = same_text(s.as_str(), "");
    proof {
        reveal_strlit("");
        if s@.len() == 0 {
            assert(s@ =~= ""@);
        }
    }
    r
}

/// Where a text stands among others.
fn position_of(unique: &Vec<String>, pattern: &String) -> (r: Option<usize>)
    ensures
        match r {
            Some(u) => u < unique@.len() && texts(unique@)[u as int] == pattern@,
            None => !texts(unique@).contains(pattern@),
        },
{
    let mut u: usize = 0;
    while u < unique.len()
        invariant
            u <= unique.len(),
            forall|v: int| 0 <= v < u ==> texts(unique@)[v] != pattern@,
        decreases unique.len() - u,
    {
        if same_text(unique[u].as_str(), pattern.as_str()) {
            return Some(u);
        }
        u += 1;
    }
    None
}

/// A position that asks for something else changes no list.
proof fn lemma_passed_over(
    list: Seq<usize>,
    queries: Seq<Seq<char>>,
    pattern: Seq<char>,
    n: nat,
)
    requires
        lists_pattern(list, queries, pattern, n),
        queries[n as int] != pattern,
    ensures
        lists_pattern(list, queries, pattern, n + 1),
{
    assert forall|q: int| 0 <= q < n + 1 implies (#[trigger] queries[q] == pattern <==> exists|
        i: int,
    |
        0 <= i < list.len() && #[trigger] list[i] == q) by {
        if q == n {
            assert(forall|i: int| 0 <= i < list.len() ==> #[trigger] list[i] != n);
        }
    }
}

/// A position that asks for the pattern joins its list.
proof fn lemma_pushed(list: Seq<usize>, queries: Seq<Seq<char>>, pattern: Seq<char>, n: usize)
    requires
        lists_pattern(list, queries, pattern, n as nat),
        queries[n as int] == pattern,
    ensures
        lists_pattern(list.push(n), queries, pattern, n as nat + 1),
{
    let longer = list.push(n);
    assert forall|q: int| 0 <= q < n + 1 implies (#[trigger] queries[q] == pattern <==> exists|
        i: int,
    |
        0 <= i < longer.len() && #[trigger] longer[i] == q) by {
        if q == n {
            assert(longer[list.len() as int] == n);
        } else if queries[q] == pattern {
            let i = choose|i: int| 0 <= i < list.len() && #[trigger] list[i] == q;
            assert(longer[i] == q);
        } else {
            assert forall|i: int| 0 <= i < longer.len() implies #[trigger] longer[i] != q by {
                if i < list.len() {
                    assert(list[i] == longer[i]);
                }
            }
        }
    }
}

// ---------------------------------------------------------------------------
// Matching
// ---------------------------------------------------------------------------

/// Reusable multi-pattern matcher for one batch of string queries.
///
/// Duplicate and empty queries are kept as distinct result groups even though
/// only unique, non-empty patterns are added to the automaton.
pub struct StringBatchMatcher {
    automaton: Option<AhoCorasick>,
    unique_to_queries: Vec<Vec<usize>>,
    empty_queries: Vec<usize>,
    query_count: usize,
    queries: Ghost<Seq<Seq<char>>>,
}

impl View for StringBatchMatcher {
    type V = Seq<Seq<char>>;

    /// The patterns of the batch.
    closed spec fn view(&self) -> Seq<Seq<char>> {
        self.queries@
    }
}

/// The patterns of an automaton that may be missing.
pub open spec fn patterns_of(automaton: Option<AhoCorasick>) -> Seq<Seq<char>> {
    match automaton {
        Some(a) => automaton_patterns(a),
        None => Seq::empty(),
    }
}

/// Whether one of the first `k` matches stands for query `q`.
spec fn matched(unique: Seq<Seq<char>>, ids: Seq<usize>, k: int, query: Seq<char>) -> bool {
    exists|j: int| 0 <= j < k && unique[(#[trigger] ids[j]) as int] == query
}

/// The hits before string `i`, and string `i` itself where it was found.
spec fn result_so_far(strings: Seq<Seq<char>>, query: Seq<char>, i: nat, found: bool) -> Seq<u32> {
    if found {
        hits(strings, query, i).push(low32(i as int))
    } else {
        hits(strings, query, i)
    }
}

impl StringBatchMatcher {
    #[verifier::type_invariant]
    closed spec fn wf(self) -> bool {
        &&& self.query_count == self.queries@.len()
        &&& groups_patterns(
            patterns_of(self.automaton),
            self.unique_to_queries@,
            self.empty_queries@,
            self.queries@,
            self.queries@.len(),
        )
        &&& self.automaton matches Some(a) ==> automaton_standard(a)
    }

    /// Prepares a batch. It fails exactly where a pattern has text and no
    /// automaton can be built for the distinct patterns that have, and never
    /// where those are short.
    pub fn new(patterns: &[String]) -> (r: Result<StringBatchMatcher, Error>)
        ensures
            r is Ok <==> batch_fits(texts(patterns@)),
            patterns_size(distinct(texts(patterns@), patterns@.len())) <= 0x1000 ==> r is Ok,
            match r {
                Ok(m) => m@ == texts(patterns@),
                Err(e) => e == Error::MatcherTooLarge,
            },
    {
        let groups = PatternGroups::new(patterns);
        if groups.unique.len() == 0 {
            assert(texts(groups.unique@) =~= patterns_of(None));
            return Ok(
                StringBatchMatcher {
                    automaton: None,
                    unique_to_queries: groups.groups,
                    empty_queries: groups.empty,
                    query_count: patterns.len(),
                    queries: Ghost(texts(patterns@)),
                },
            );
        }
        match build_automaton(&groups.unique) {
            Ok(automaton) => Ok(
                StringBatchMatcher {
                    automaton: Some(automaton),
                    unique_to_queries: groups.groups,
                    empty_queries: groups.empty,
                    query_count: patterns.len(),
                    queries: Ghost(texts(patterns@)),
                },
            ),
            Err(_) => Err(Error::MatcherTooLarge),
        }
    }

    /// For each pattern of the batch, the strings in which it occurs.
    pub fn matching_indices(&self, strings: &[String]) -> (r: Vec<Vec<u32>>)
        ensures
            r@.len() == self@.len(),
            forall|q: int|
                0 <= q < r@.len() ==> (#[trigger] r@[q])@ == hits(
                    texts(strings@),
                    self@[q],
                    strings@.len(),
                ),
    {
        proof {
            use_type_invariant(self);
        }
        let ghost all = texts(strings@);
        let mut results: Vec<Vec<u32>> = Vec::new();
        let mut made: usize = 0;
        while made < self.query_count
            invariant
                made <= self.query_count,
                results.len() == made,
                forall|q: int| 0 <= q < made ==> (#[trigger] results@[q])@ == Seq::<u32>::empty(),
            decreases self.query_count - made,
        {
            results.push(Vec::new());
            made += 1;
        }
        let mut i: usize = 0;
        while i < strings.len()
            invariant
                i <= strings.len(),
                all == texts(strings@),
                self.wf(),
                results@.len() == self@.len(),
                forall|q: int|
                    0 <= q < results@.len() ==> (#[trigger] results@[q])@ == hits(
                        all,
                        self@[q],
                        i as nat,
                    ),
            decreases strings.len() - i,
        {
            assert(all[i as int] == strings@[i as int]@);
            self.add_empty(i, &mut results, Ghost(all));
            match &self.automaton {
                Some(automaton) => {
                    let ids = patterns_in(automaton, &strings[i]);
                    self.add_matches(i, &ids, &mut results, Ghost(all));
                },
                None => {
                    proof {
                        assert forall|q: int| 0 <= q < self@.len() implies (
                        #[trigger] self@[q]).len() == 0 by {
                            if self@[q].len() > 0 {
                                assert(patterns_of(self.automaton).contains(self@[q]));
                            }
                        }
                        lemma_empty_occurs(all[i as int]);
                        assert forall|q: int| 0 <= q < results@.len() implies (
                        #[trigger] results@[q])@ == hits(all, self@[q], i as nat + 1) by {
                            assert(self@[q] =~= Seq::<char>::empty());
                        }
                    }
                },
            }
            i += 1;
        }
        results
    }

    /// Adds string `i` to the result of every empty query.
    fn add_empty(&self, i: usize, results: &mut Vec<Vec<u32>>, Ghost(all): Ghost<Seq<Seq<char>>>)
        requires
            self.wf(),
            old(results)@.len() == self@.len(),
            forall|q: int|
                0 <= q < self@.len() ==> (#[trigger] old(results)@[q])@ == hits(
                    all,
                    self@[q],
                    i as nat,
                ),
        ensures
            final(results)@.len() == self@.len(),
            forall|q: int|
                0 <= q < self@.len() ==> (#[trigger] final(results)@[q])@ == result_so_far(
                    all,
                    self@[q],
                    i as nat,
                    self@[q].len() == 0,
                ),
    {
        let list = &self.empty_queries;
        let mut t: usize = 0;
        while t < list.len()
            invariant
                t <= list.len(),
                self.wf(),
                list@ == self.empty_queries@,
                results@.len() == self@.len(),
                forall|q: int|
                    0 <= q < self@.len() ==> (#[trigger] results@[q])@ == result_so_far(
                        all,
                        self@[q],
                        i as nat,
                        exists|x: int| 0 <= x < t && #[trigger] list@[x] == q,
                    ),
            decreases list.len() - t,
        {
            let query: usize = list[t];
            let ghost before = results@;
            push_index(results, query, cut32(i));
            proof {
                lemma_pushed_query(before, results@, list@, t as int, all, self@, i as nat);
            }
            t += 1;
        }
        proof {
            assert forall|q: int| 0 <= q < self@.len() implies (#[trigger] results@[q])@
                == result_so_far(all, self@[q], i as nat, self@[q].len() == 0) by {
                assert(self@[q].len() == 0 ==> self@[q] =~= Seq::<char>::empty());
                assert(self@[q] == Seq::<char>::empty() <==> exists|x: int|
                    0 <= x < list@.len() && #[trigger] list@[x] == q);
            }
        }
    }

    /// Adds string `i` to the result of every query whose pattern was matched.
    fn add_matches(
        &self,
        i: usize,
        ids: &Vec<usize>,
        results: &mut Vec<Vec<u32>>,
        Ghost(all): Ghost<Seq<Seq<char>>>,
    )
        requires
            self.wf(),
            0 <= i < all.len(),
            old(results)@.len() == self@.len(),
            forall|q: int|
                0 <= q < self@.len() ==> (#[trigger] old(results)@[q])@ == result_so_far(
                    all,
                    self@[q],
                    i as nat,
                    self@[q].len() == 0,
                ),
            forall|k: int|
                0 <= k < ids@.len() ==> (#[trigger] ids@[k]) < patterns_of(self.automaton).len()
                    && occurs(all[i as int], patterns_of(self.automaton)[ids@[k] as int]),
            forall|p: int|
                0 <= p < patterns_of(self.automaton).len() && occurs(
                    all[i as int],
                    #[trigger] patterns_of(self.automaton)[p],
                ) ==> exists|k: int| 0 <= k < ids@.len() && #[trigger] ids@[k] == p,
        ensures
            final(results)@.len() == self@.len(),
            forall|q: int|
                0 <= q < self@.len() ==> (#[trigger] final(results)@[q])@ == hits(
                    all,
                    self@[q],
                    i as nat + 1,
                ),
    {
        let ghost unique = patterns_of(self.automaton);
        let mut seen: Vec<bool> = Vec::new();
        seen.resize(self.unique_to_queries.len(), false);
        let mut k: usize = 0;
        while k < ids.len()
            invariant
                k <= ids.len(),
                self.wf(),
                unique == patterns_of(self.automaton),
                seen.len() == self.unique_to_queries.len(),
                results@.len() == self@.len(),
                forall|j: int| 0 <= j < ids@.len() ==> (#[trigger] ids@[j]) < unique.len(),
                forall|u: int|
                    0 <= u < unique.len() ==> (#[trigger] seen@[u] <==> matched(
                        unique,
                        ids@,
                        k as int,
                        unique[u],
                    )),
                forall|q: int|
                    0 <= q < self@.len() ==> (#[trigger] results@[q])@ == result_so_far(
                        all,
                        self@[q],
                        i as nat,
                        self@[q].len() == 0 || matched(unique, ids@, k as int, self@[q]),
                    ),
            decreases ids.len() - k,
        {
            let u: usize = ids[k];
            let ghost before = results@;
            let ghost seen_before = seen@;
            assert(ids@[k as int] < unique.len());
            assert(self.unique_to_queries@.len() == unique.len());
            proof {
                assert forall|x: Seq<char>| matched(unique, ids@, k + 1, x) <==> matched(
                    unique,
                    ids@,
                    k as int,
                    x,
                ) || x == unique[u as int] by {
                    assert(unique[ids@[k as int] as int] == unique[u as int]);
                    if matched(unique, ids@, k as int, x) {
                        let j = choose|j: int| 0 <= j < k && unique[(#[trigger] ids@[j]) as int] == x;
                        assert(unique[ids@[j] as int] == x);
                    }
                }
            }
            if !seen[u] {
                seen.set(u, true);
                self.add_group(i, u, results, Ghost(all), Ghost(ids@), Ghost(k as int));
            }
            proof {
                assert forall|v: int| 0 <= v < unique.len() implies (#[trigger] seen@[v] <==> matched(
                    unique,
                    ids@,
                    k + 1,
                    unique[v],
                )) by {
                    if v != u {
                        assert(seen@[v] == seen_before[v]);
                        assert(unique[v] != unique[u as int]);
                    }
                }
            }
            k += 1;
        }
        proof {
            lemma_empty_occurs(all[i as int]);
            assert forall|q: int| 0 <= q < self@.len() implies (#[trigger] results@[q])@ == hits(
                all,
                self@[q],
                i as nat + 1,
            ) by {
                if self@[q].len() == 0 {
                    assert(self@[q] =~= Seq::<char>::empty());
                } else {
                    assert(unique.contains(self@[q]));
                    let p = choose|p: int| 0 <= p < unique.len() && unique[p] == self@[q];
                    if occurs(all[i as int], self@[q]) {
                        assert(occurs(all[i as int], unique[p]));
                        let j = choose|j: int| 0 <= j < ids@.len() && #[trigger] ids@[j] == p;
                        assert(unique[ids@[j] as int] == self@[q]);
                        assert(matched(unique, ids@, k as int, self@[q]));
                    }
                    if matched(unique, ids@, k as int, self@[q]) {
                        let j = choose|j: int|
                            0 <= j < k && unique[(#[trigger] ids@[j]) as int] == self@[q];
                        assert(occurs(all[i as int], unique[ids@[j] as int]));
                    }
                }
            }
        }
    }

    /// Adds string `i` to the result of every query of group `u`.
    fn add_group(
        &self,
        i: usize,
        u: usize,
        results: &mut Vec<Vec<u32>>,
        Ghost(all): Ghost<Seq<Seq<char>>>,
        Ghost(ids): Ghost<Seq<usize>>,
        Ghost(k): Ghost<int>,
    )
        requires
            self.wf(),
            u < patterns_of(self.automaton).len(),
            old(results)@.len() == self@.len(),
            !matched(patterns_of(self.automaton), ids, k, patterns_of(self.automaton)[u as int]),
            forall|q: int|
                0 <= q < self@.len() ==> (#[trigger] old(results)@[q])@ == result_so_far(
                    all,
                    self@[q],
                    i as nat,
                    self@[q].len() == 0 || matched(
                        patterns_of(self.automaton),
                        ids,
                        k,
                        self@[q],
                    ),
                ),
        ensures
            final(results)@.len() == self@.len(),
            forall|q: int|
                0 <= q < self@.len() ==> (#[trigger] final(results)@[q])@ == result_so_far(
                    all,
                    self@[q],
                    i as nat,
                    self@[q].len() == 0 || matched(patterns_of(self.automaton), ids, k, self@[q])
                        || self@[q] == patterns_of(self.automaton)[u as int],
                ),
    {
        let ghost unique = patterns_of(self.automaton);
        let list = &self.unique_to_queries[u];
        let ghost base = results@;
        assert(unique[u as int].len() > 0 && lists_pattern(
            self.unique_to_queries@[u as int]@,
            self@,
            unique[u as int],
            self@.len(),
        ));
        let mut t: usize = 0;
        while t < list.len()
            invariant
                t <= list.len(),
                results@.len() == self@.len(),
                base.len() == self@.len(),
                lists_pattern(list@, self@, unique[u as int], self@.len()),
                forall|q: int|
                    0 <= q < self@.len() ==> (#[trigger] results@[q])@ == (if exists|x: int|
                        0 <= x < t && #[trigger] list@[x] == q {
                        base[q]@.push(low32(i as int))
                    } else {
                        base[q]@
                    }),
            decreases list.len() - t,
        {
            let query: usize = list[t];
            let ghost before = results@;
            push_index(results, query, cut32(i));
            proof {
                assert forall|q: int| 0 <= q < self@.len() implies (#[trigger] results@[q])@ == (
                if exists|x: int| 0 <= x < t + 1 && #[trigger] list@[x] == q {
                    base[q]@.push(low32(i as int))
                } else {
                    base[q]@
                }) by {
                    if q == query {
                        assert(list@[t as int] == q);
                        assert(forall|x: int| 0 <= x < t ==> #[trigger] list@[x] != q);
                        assert(before[q]@ == base[q]@);
                    } else {
                        assert(results@[q] == before[q]);
                        assert((exists|x: int| 0 <= x < t + 1 && #[trigger] list@[x] == q) <==> (
                        exists|x: int| 0 <= x < t && #[trigger] list@[x] == q)) by {
                            if exists|x: int| 0 <= x < t + 1 && #[trigger] list@[x] == q {
                                let x = choose|x: int| 0 <= x < t + 1 && #[trigger] list@[x] == q;
                                assert(x < t);
                                assert(list@[x] == q);
                            }
                        }
                    }
                }
            }
            t += 1;
        }
        proof {
            assert forall|q: int| 0 <= q < self@.len() implies (#[trigger] results@[q])@
                == result_so_far(
                all,
                self@[q],
                i as nat,
                self@[q].len() == 0 || matched(unique, ids, k, self@[q]) || self@[q]
                    == unique[u as int],
            ) by {
                assert(self@[q] == unique[u as int] <==> exists|x: int|
                    0 <= x < list@.len() && #[trigger] list@[x] == q);
            }
        }
    }
}

/// Appends a number to one of several lists.
fn push_index(results: &mut Vec<Vec<u32>>, at: usize, x: u32)
    requires
        at < old(results)@.len(),
    ensures
        final(results)@.len() == old(results)@.len(),
        final(results)@[at as int]@ == old(results)@[at as int]@.push(x),
        forall|q: int|
            0 <= q < old(results)@.len() && q != at ==> #[trigger] final(results)@[q] == old(
                results,
            )@[q],
{
    let mut list: Vec<u32> = Vec::new();
    std::mem::swap(&mut list, &mut results[at]);
    list.push(x);
    std::mem::swap(&mut list, &mut results[at]);
}

proof fn lemma_pushed_query(
    before: Seq<Vec<u32>>,
    after: Seq<Vec<u32>>,
    list: Seq<usize>,
    t: int,
    all: Seq<Seq<char>>,
    queries: Seq<Seq<char>>,
    i: nat,
)
    requires
        0 <= t < list.len(),
        list.no_duplicates(),
        before.len() == queries.len(),
        after.len() == queries.len(),
        list[t] < queries.len(),
        after[list[t] as int]@ == before[list[t] as int]@.push(low32(i as int)),
        forall|q: int| 0 <= q < queries.len() && q != list[t] ==> #[trigger] after[q] == before[q],
        forall|q: int|
            0 <= q < queries.len() ==> (#[trigger] before[q])@ == result_so_far(
                all,
                queries[q],
                i,
                exists|x: int| 0 <= x < t && #[trigger] list[x] == q,
            ),
    ensures
        forall|q: int|
            0 <= q < queries.len() ==> (#[trigger] after[q])@ == result_so_far(
                all,
                queries[q],
                i,
                exists|x: int| 0 <= x < t + 1 && #[trigger] list[x] == q,
            ),
{
    assert forall|q: int| 0 <= q < queries.len() implies (#[trigger] after[q])@ == result_so_far(
        all,
        queries[q],
        i,
        exists|x: int| 0 <= x < t + 1 && #[trigger] list[x] == q,
    ) by {
        if q == list[t] {
            assert(forall|x: int| 0 <= x < t ==> #[trigger] list[x] != q);
            assert(before[q]@ == hits(all, queries[q], i));
            assert(list[t] == q);
        } else {
            assert(after[q] == before[q]);
            if exists|x: int| 0 <= x < t + 1 && #[trigger] list[x] == q {
                let x = choose|x: int| 0 <= x < t + 1 && #[trigger] list[x] == q;
                assert(x < t);
                assert(list[x] == q);
            }
        }
    }
}

} // verus!
