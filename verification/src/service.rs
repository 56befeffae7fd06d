//! Reusable high-level operations for command-line and graphical frontends.
use vstd::prelude::*;

pub mod endings;
pub mod finding;
pub mod source;

use crate::collections::{ascending, views};
use crate::dex::batch::{hits, lemma_batch_is_single};
use crate::dex::indexes::ReferenceIndexes;
use crate::dex::references::{lemma_scan, ReferenceSite};
use crate::dex::{lemma_matching_below, Dex, DexContents, Query, ReferenceKind, StringBatchMatcher};
use crate::error::Error;
use crate::results::{collect, lemma_collect_error, lemma_collect_ok};
use crate::text::texts;

verus! {

// ---------------------------------------------------------------------------
// Progress and cancellation
// ---------------------------------------------------------------------------

#[derive(Debug, Clone, Copy, PartialEq, Eq, Structural)]
pub enum OperationStage {
    Loading,
    Indexing,
    Extracting,
    Decompiling,
    Searching,
    Manifest,
}

#[derive(Debug, Clone)]
pub struct ProgressEvent {
    pub stage: OperationStage,
    pub completed: usize,
    pub total: usize,
    pub item: Option<String>,
}

/// Frontends can implement this trait to receive progress and cancel work at
/// stable service boundaries. Callbacks may arrive from worker threads.
pub trait OperationObserver: Sync {
    fn is_cancelled(&self) -> bool {
        false
    }

    fn on_progress(&self, _event: &ProgressEvent) {
    }
}

/// An observer that neither cancels nor listens.
pub struct NoopObserver;

impl OperationObserver for NoopObserver {

}

/// Ends an operation that was cancelled.
pub fn check_cancelled(cancelled: bool) -> (r: Result<(), Error>)
    ensures
        r == if cancelled {
            Err::<(), Error>(Error::Cancelled)
        } else {
            Ok::<(), Error>(())
        },
{
    if cancelled {
        return Err(Error::Cancelled);
    }
    Ok(())
}

/// The points at which an operation reports.
#[derive(Debug, Clone, PartialEq, Eq)]
pub enum OperationStep {
    /// The search for a class starts.
    Locate { descriptor: String },
    /// A DEX entry is searched for a class.
    Visit { index: usize, name: String },
    /// A class is extracted from a DEX file.
    Extract { dex_name: String },
    /// A class is decompiled.
    Decompile { descriptor: String },
    /// A class was decompiled.
    Decompiled { descriptor: String },
    /// The DEX files are loaded.
    Load,
    /// The DEX files were loaded.
    Loaded,
    /// Some DEX files were searched for references, the named one last.
    Searched { completed: usize, dex_name: String },
    /// The manifest is decoded.
    Manifest,
    /// The manifest was decoded.
    ManifestDone,
}

/// What an event says.
#[verifier::ext_equal]
pub struct Progress {
    pub stage: OperationStage,
    pub completed: usize,
    pub total: usize,
    pub item: Option<Seq<char>>,
}

impl View for ProgressEvent {
    type V = Progress;

    open spec fn view(&self) -> Progress {
        Progress {
            stage: self.stage,
            completed: self.completed,
            total: self.total,
            item: match self.item {
                Some(s) => Some(s@),
                None => None,
            },
        }
    }
}

/// The event of a step in a package with `dexes` DEX entries.
pub open spec fn event_of(step: OperationStep, dexes: usize) -> Progress {
    match step {
        OperationStep::Locate { descriptor } => Progress {
            stage: OperationStage::Indexing,
            completed: 0,
            total: dexes,
            item: Some(descriptor@),
        },
        OperationStep::Visit { index, name } => Progress {
            stage: OperationStage::Indexing,
            completed: index,
            total: dexes,
            item: Some(name@),
        },
        OperationStep::Extract { dex_name } => Progress {
            stage: OperationStage::Extracting,
            completed: 0,
            total: 1,
            item: Some(dex_name@),
        },
        OperationStep::Decompile { descriptor } => Progress {
            stage: OperationStage::Decompiling,
            completed: 0,
            total: 1,
            item: Some(descriptor@),
        },
        OperationStep::Decompiled { descriptor } => Progress {
            stage: OperationStage::Decompiling,
            completed: 1,
            total: 1,
            item: Some(descriptor@),
        },
        OperationStep::Load => Progress {
            stage: OperationStage::Loading,
            completed: 0,
            total: dexes,
            item: None,
        },
        OperationStep::Loaded => Progress {
            stage: OperationStage::Loading,
            completed: dexes,
            total: dexes,
            item: None,
        },
        OperationStep::Searched { completed, dex_name } => Progress {
            stage: OperationStage::Searching,
            completed,
            total: dexes,
            item: Some(dex_name@),
        },
        OperationStep::Manifest => Progress {
            stage: OperationStage::Manifest,
            completed: 0,
            total: 1,
            item: Some("AndroidManifest.xml"@),
        },
        OperationStep::ManifestDone => Progress {
            stage: OperationStage::Manifest,
            completed: 1,
            total: 1,
            item: Some("AndroidManifest.xml"@),
        },
    }
}

fn event(stage: OperationStage, completed: usize, total: usize, item: Option<String>) -> (r:
    ProgressEvent)
    ensures
        r@ == (Progress {
            stage,
            completed,
            total,
            item: match item {
                Some(s) => Some(s@),
                None => None,
            },
        }),
{
    ProgressEvent { stage, completed, total, item }
}

pub fn progress(step: OperationStep, dexes: usize) -> (r: ProgressEvent)
    ensures
        r@ == event_of(step, dexes),
{
    match step {
        OperationStep::Locate { descriptor } => event(
            OperationStage::Indexing,
            0,
            dexes,
            Some(descriptor),
        ),
        OperationStep::Visit { index, name } => event(
            OperationStage::Indexing,
            index,
            dexes,
            Some(name),
        ),
        OperationStep::Extract { dex_name } => event(
            OperationStage::Extracting,
            0,
            1,
            Some(dex_name),
        ),
        OperationStep::Decompile { descriptor } => event(
            OperationStage::Decompiling,
            0,
            1,
            Some(descriptor),
        ),
        OperationStep::Decompiled { descriptor } => event(
            OperationStage::Decompiling,
            1,
            1,
            Some(descriptor),
        ),
        OperationStep::Load => event(OperationStage::Loading, 0, dexes, None),
        OperationStep::Loaded => event(OperationStage::Loading, dexes, dexes, None),
        OperationStep::Searched { completed, dex_name } => event(
            OperationStage::Searching,
            completed,
            dexes,
            Some(dex_name),
        ),
        OperationStep::Manifest => event(
            OperationStage::Manifest,
            0,
            1,
            Some("AndroidManifest.xml".to_owned()),
        ),
        OperationStep::ManifestDone => event(
            OperationStage::Manifest,
            1,
            1,
            Some("AndroidManifest.xml".to_owned()),
        ),
    }
}

// ---------------------------------------------------------------------------
// References
// ---------------------------------------------------------------------------

#[derive(Debug, Clone, PartialEq, Eq)]
pub struct ReferenceLocation {
    pub dex_name: String,
    pub caller_index: u32,
    pub caller_method: String,
    pub code_unit_offset: u32,
    pub target_index: u32,
    pub target_symbol: String,
}

/// One reference, with its texts.
#[verifier::ext_equal]
pub struct Location {
    pub dex_name: Seq<char>,
    pub caller_index: u32,
    pub caller_method: Seq<char>,
    pub code_unit_offset: u32,
    pub target_index: u32,
    pub target_symbol: Seq<char>,
}

impl View for ReferenceLocation {
    type V = Location;

    open spec fn view(&self) -> Location {
        Location {
            dex_name: self.dex_name@,
            caller_index: self.caller_index,
            caller_method: self.caller_method@,
            code_unit_offset: self.code_unit_offset,
            target_index: self.target_index,
            target_symbol: self.target_symbol@,
        }
    }
}

#[derive(Debug, Clone)]
pub struct DexSearchSummary {
    pub dex_name: String,
    pub classes: usize,
    pub methods: usize,
    pub matched_targets: usize,
}

#[derive(Debug, Clone)]
pub struct StringReferenceGroup {
    pub pattern: String,
    pub references: Vec<ReferenceLocation>,
}

#[derive(Debug, Clone)]
pub struct BatchDexSearchSummary {
    pub dex_name: String,
    pub classes: usize,
    pub methods: usize,
    /// Number of matching string-table entries for each input pattern.
    pub matched_targets: Vec<usize>,
}

/// A site with the texts of its caller and its target.
pub open spec fn location_of(
    d: DexContents,
    name: Seq<char>,
    kind: ReferenceKind,
    site: ReferenceSite,
) -> Result<Location, Error> {
    match d.method_text(site.caller_index as int) {
        Err(e) => Err(e),
        Ok(caller_method) => match d.match_text(kind, site.target_index as int) {
            Err(e) => Err(e),
            Ok(target_symbol) => Ok(
                Location {
                    dex_name: name,
                    caller_index: site.caller_index,
                    caller_method,
                    code_unit_offset: site.code_unit_offset,
                    target_index: site.target_index,
                    target_symbol,
                },
            ),
        },
    }
}

pub open spec fn location_reader(
    d: DexContents,
    name: Seq<char>,
    kind: ReferenceKind,
    sites: Seq<ReferenceSite>,
) -> spec_fn(int) -> Result<Location, Error> {
    |i: int| location_of(d, name, kind, sites[i])
}

/// The references of a DEX file to the given targets.
pub open spec fn references_to(
    d: DexContents,
    name: Seq<char>,
    kind: ReferenceKind,
    targets: Set<u32>,
) -> Result<Seq<Location>, Error> {
    match d.sites_of(kind, targets) {
        Err(e) => Err(e),
        Ok(sites) => collect(location_reader(d, name, kind, sites), sites.len()),
    }
}

/// The references of a DEX file that match a query.
pub open spec fn found_in(d: DexContents, name: Seq<char>, query: Query) -> Result<
    Seq<Location>,
    Error,
> {
    references_to(d, name, query.kind_of(), d.matching(query).to_set())
}

/// The targets of sites that were scanned for are among those asked for.
proof fn lemma_targets_asked(d: DexContents, kind: ReferenceKind, targets: Set<u32>)
    requires
        d.sites_of(kind, targets) is Ok,
    ensures
        forall|i: int|
            0 <= i < d.sites_of(kind, targets)->Ok_0.len() ==> targets.contains(
                (#[trigger] d.sites_of(kind, targets)->Ok_0[i]).target_index,
            ),
{
    if targets != Set::<u32>::empty() {
        lemma_scan(d, kind, targets);
        let sites = d.sites_of(kind, targets)->Ok_0;
        assert forall|i: int| 0 <= i < sites.len() implies targets.contains(
            (#[trigger] sites[i]).target_index,
        ) by {
            assert(sites.contains(sites[i]));
        }
    }
}

fn locate(name: &str, dex: &Dex, kind: ReferenceKind, site: ReferenceSite) -> (r: Result<
    ReferenceLocation,
    Error,
>)
    requires
        kind == ReferenceKind::Type ==> site.target_index < dex@.tables.types.len(),
    ensures
        match r {
            Ok(l) => location_of(dex@, name@, kind, site) == Ok::<Location, Error>(l@),
            Err(e) => location_of(dex@, name@, kind, site) == Err::<Location, Error>(e),
        },
{
    let caller_method = dex.try_format_method(site.caller_index)?;
    let target_symbol = dex.try_format_match(kind, site.target_index)?;
    Ok(
        ReferenceLocation {
            dex_name: name.to_owned(),
            caller_index: site.caller_index,
            caller_method,
            code_unit_offset: site.code_unit_offset,
            target_index: site.target_index,
            target_symbol,
        },
    )
}

/// Finds the references of a DEX file to the given targets, which ascend.
fn find_targets(
    name: &str,
    dex: &Dex,
    indexes: &mut ReferenceIndexes,
    kind: ReferenceKind,
    targets: &Vec<u32>,
) -> (r: Result<Vec<ReferenceLocation>, Error>)
    requires
        old(indexes).of(dex@),
        ascending(targets@),
        kind == ReferenceKind::Type ==> forall|i: int|
            0 <= i < targets@.len() ==> #[trigger] targets@[i] < dex@.tables.types.len(),
    ensures
        final(indexes).of(dex@),
        match r {
            Ok(v) => references_to(dex@, name@, kind, targets@.to_set()) == Ok::<
                Seq<Location>,
                Error,
            >(views(v@)),
            Err(e) => references_to(dex@, name@, kind, targets@.to_set()) == Err::<
                Seq<Location>,
                Error,
            >(e),
        },
{
    let sites = indexes.scan(dex, kind, targets)?;
    proof {
        lemma_targets_asked(dex@, kind, targets@.to_set());
    }
    let ghost f = location_reader(dex@, name@, kind, sites@);
    let mut out: Vec<ReferenceLocation> = Vec::new();
    let mut i: usize = 0;
    assert(views(out@) =~= Seq::<Location>::empty());
    while i < sites.len()
        invariant
            i <= sites.len(),
            f == location_reader(dex@, name@, kind, sites@),
            dex@.sites_of(kind, targets@.to_set()) == Ok::<Seq<ReferenceSite>, Error>(sites@),
            indexes.of(dex@),
            kind == ReferenceKind::Type ==> forall|k: int|
                0 <= k < targets@.len() ==> #[trigger] targets@[k] < dex@.tables.types.len(),
            forall|k: int|
                0 <= k < sites@.len() ==> targets@.to_set().contains(
                    (#[trigger] sites@[k]).target_index,
                ),
            collect(f, i as nat) == Ok::<Seq<Location>, Error>(views(out@)),
        decreases sites.len() - i,
    {
        let ghost before = out@;
        proof {
            let t = sites@[i as int].target_index;
            assert(targets@.to_set().contains(t));
            let k = choose|k: int| 0 <= k < targets@.len() && targets@[k] == t;
            assert(targets@[k] == t);
        }
        match locate(name, dex, kind, sites[i]) {
            Ok(l) => {
                out.push(l);
                assert(views(out@) =~= views(before).push(l@));
            },
            Err(e) => {
                proof {
                    lemma_collect_error(f, i as nat, sites@.len());
                }
                return Err(e);
            },
        }
        i += 1;
    }
    Ok(out)
}

/// Searches one DEX file.
pub fn search_dex(name: &str, dex: &Dex, indexes: &mut ReferenceIndexes, query: &Query) -> (r:
    Result<(DexSearchSummary, Vec<ReferenceLocation>), Error>)
    requires
        old(indexes).of(dex@),
    ensures
        final(indexes).of(dex@),
        match r {
            Ok((summary, references)) => {
                &&& found_in(dex@, name@, *query) == Ok::<Seq<Location>, Error>(views(references@))
                &&& summary.dex_name@ == name@
                &&& summary.classes == dex@.class_types.len()
                &&& summary.methods == dex@.tables.methods.len()
                &&& summary.matched_targets == dex@.matching(*query).len()
            },
            Err(e) => found_in(dex@, name@, *query) == Err::<Seq<Location>, Error>(e),
        },
{
    let matched = dex.matching_indices_sorted(query);
    proof {
        let n = dex@.count_of(query.kind_of());
        lemma_matching_below(dex@, *query, n);
        assert forall|i: int| 0 <= i < matched@.len() implies #[trigger] matched@[i] < n by {
            assert(matched@.contains(matched@[i]));
        }
    }
    let references = find_targets(name, dex, indexes, query.kind(), &matched)?;
    let summary = DexSearchSummary {
        dex_name: name.to_owned(),
        classes: dex.class_count(),
        methods: dex.method_count(),
        matched_targets: matched.len(),
    };
    Ok((summary, references))
}

pub open spec fn group_reader(d: DexContents, name: Seq<char>, patterns: Seq<Seq<char>>) -> spec_fn(
    int,
) -> Result<Seq<Location>, Error> {
    |p: int|
        references_to(
            d,
            name,
            ReferenceKind::String,
            hits(d.tables.strings, patterns[p], d.tables.strings.len()).to_set(),
        )
}

/// For each of several patterns, the references of a DEX file to the strings
/// in which it occurs.
pub open spec fn batch_found_in(d: DexContents, name: Seq<char>, patterns: Seq<Seq<char>>) -> Result<
    Seq<Seq<Location>>,
    Error,
> {
    collect(group_reader(d, name, patterns), patterns.len())
}

/// The references of several groups.
pub open spec fn group_views(groups: Seq<Vec<ReferenceLocation>>) -> Seq<Seq<Location>> {
    groups.map_values(|g: Vec<ReferenceLocation>| views(g@))
}

/// Searches one DEX file for several string patterns.
pub fn search_dex_batch(
    name: &str,
    dex: &Dex,
    indexes: &mut ReferenceIndexes,
    matcher: &StringBatchMatcher,
) -> (r: Result<(BatchDexSearchSummary, Vec<Vec<ReferenceLocation>>), Error>)
    requires
        old(indexes).of(dex@),
    ensures
        final(indexes).of(dex@),
        match r {
            Ok((summary, groups)) => {
                &&& batch_found_in(dex@, name@, matcher@) == Ok::<Seq<Seq<Location>>, Error>(
                    group_views(groups@),
                )
                &&& summary.dex_name@ == name@
                &&& summary.classes == dex@.class_types.len()
                &&& summary.methods == dex@.tables.methods.len()
                &&& summary.matched_targets@.len() == matcher@.len()
                &&& forall|p: int|
                    0 <= p < matcher@.len() ==> #[trigger] summary.matched_targets@[p] == hits(
                        dex@.tables.strings,
                        matcher@[p],
                        dex@.tables.strings.len(),
                    ).len()
            },
            Err(e) => batch_found_in(dex@, name@, matcher@) == Err::<Seq<Seq<Location>>, Error>(e),
        },
{
    let matched = dex.matching_string_indices_batch(matcher);
    let ghost strings = dex@.tables.strings;
    let ghost f = group_reader(dex@, name@, matcher@);
    let mut groups: Vec<Vec<ReferenceLocation>> = Vec::new();
    let mut counts: Vec<usize> = Vec::new();
    let mut p: usize = 0;
    assert(group_views(groups@) =~= Seq::<Seq<Location>>::empty());
    while p < matched.len()
        invariant
            p <= matched.len(),
            indexes.of(dex@),
            dex@.indexed(),
            strings == dex@.tables.strings,
            f == group_reader(dex@, name@, matcher@),
            matched@.len() == matcher@.len(),
            forall|q: int|
                0 <= q < matched@.len() ==> (#[trigger] matched@[q])@ == hits(
                    strings,
                    matcher@[q],
                    strings.len(),
                ),
            counts@.len() == p,
            forall|q: int| 0 <= q < p ==> #[trigger] counts@[q] == matched@[q]@.len(),
            collect(f, p as nat) == Ok::<Seq<Seq<Location>>, Error>(group_views(groups@)),
        decreases matched.len() - p,
    {
        let ghost before = groups@;
        proof {
            lemma_hits_ascend(dex@, matcher@[p as int]);
        }
        match find_targets(name, dex, indexes, ReferenceKind::String, &matched[p]) {
            Ok(references) => {
                groups.push(references);
                assert(group_views(groups@) =~= group_views(before).push(views(references@)));
            },
            Err(e) => {
                proof {
                    lemma_collect_error(f, p as nat, matcher@.len());
                }
                return Err(e);
            },
        }
        counts.push(matched[p].len());
        p += 1;
    }
    let summary = BatchDexSearchSummary {
        dex_name: name.to_owned(),
        classes: dex.class_count(),
        methods: dex.method_count(),
        matched_targets: counts,
    };
    Ok((summary, groups))
}

/// The strings in which a pattern occurs are listed in ascending order.
proof fn lemma_hits_ascend(d: DexContents, pattern: Seq<char>)
    requires
        d.indexed(),
    ensures
        ascending(hits(d.tables.strings, pattern, d.tables.strings.len())),
{
    lemma_hits_ascend_below(d.tables.strings, pattern, d.tables.strings.len());
}

proof fn lemma_hits_ascend_below(strings: Seq<Seq<char>>, pattern: Seq<char>, n: nat)
    requires
        n <= 0x1_0000_0000,
    ensures
        ascending(hits(strings, pattern, n)),
        forall|i: int| 0 <= i < hits(strings, pattern, n).len() ==> #[trigger] hits(
            strings,
            pattern,
            n,
        )[i] < n,
    decreases n,
{
    if n > 0 {
        lemma_hits_ascend_below(strings, pattern, (n - 1) as nat);
        let before = hits(strings, pattern, (n - 1) as nat);
        let now = hits(strings, pattern, n);
        assert forall|i: int| 0 <= i < now.len() implies #[trigger] now[i] < n by {
            if i < before.len() {
                assert(before[i] < n - 1);
            }
        }
        assert forall|i: int, j: int| 0 <= i < j < now.len() implies now[i] < now[j] by {
            assert(before[i] < n - 1);
        }
    }
}

/// A batch finds in a DEX file, for each of its patterns, exactly what a search
/// for that pattern alone finds there.
pub proof fn lemma_batch_equals_single(
    d: DexContents,
    name: Seq<char>,
    patterns: Seq<String>,
    p: int,
)
    requires
        d.indexed(),
        0 <= p < patterns.len(),
    ensures
        group_reader(d, name, texts(patterns))(p) == found_in(
            d,
            name,
            Query::String(patterns[p]),
        ),
        hits(d.tables.strings, patterns[p]@, d.tables.strings.len()) == d.matching(
            Query::String(patterns[p]),
        ),
{
    lemma_batch_is_single(d, patterns[p], d.tables.strings.len());
    assert(texts(patterns)[p] == patterns[p]@);
}

// ---------------------------------------------------------------------------
// Merging
// ---------------------------------------------------------------------------

/// The outcome of searching one DEX file.
pub type DexSearch = Result<(DexSearchSummary, Vec<ReferenceLocation>), Error>;

/// The outcome of searching one DEX file for several patterns.
pub type DexBatch = Result<(BatchDexSearchSummary, Vec<Vec<ReferenceLocation>>), Error>;

/// What was found in a package: the references in the order of its DEX files,
/// and a summary of each of them.
#[derive(Debug)]
pub struct ReferenceSearchResult {
    pub references: Vec<ReferenceLocation>,
    pub dexes: Vec<DexSearchSummary>,
}

/// What was found in a package for each of several patterns.
#[derive(Debug)]
pub struct BatchReferenceSearchResult {
    pub groups: Vec<StringReferenceGroup>,
    pub dexes: Vec<BatchDexSearchSummary>,
}

/// The references behind those found so far, or the first fault.
pub open spec fn merged_from(batches: Seq<DexSearch>, i: int, found: Seq<Location>) -> Result<
    Seq<Location>,
    Error,
>
    decreases batches.len() - i,
{
    if i >= batches.len() {
        Ok(found)
    } else {
        match batches[i] {
            Err(e) => Err(e),
            Ok((_, references)) => merged_from(batches, i + 1, found + views(references@)),
        }
    }
}

/// Puts the outcomes of all DEX files together.
pub fn merge_searches(batches: Vec<DexSearch>) -> (r: Result<ReferenceSearchResult, Error>)
    ensures
        match r {
            Ok(s) => {
                &&& merged_from(batches@, 0, Seq::empty()) == Ok::<Seq<Location>, Error>(
                    views(s.references@),
                )
                &&& s.dexes@.len() == batches@.len()
                &&& forall|i: int| 0 <= i < batches@.len() ==> (#[trigger] batches@[i]) is Ok
                &&& forall|i: int|
                    0 <= i < batches@.len() ==> #[trigger] s.dexes@[i] == batches@[i]->Ok_0.0
            },
            Err(e) => merged_from(batches@, 0, Seq::empty()) == Err::<Seq<Location>, Error>(e),
        },
{
    let ghost all = batches@;
    let mut rest = batches;
    let mut references: Vec<ReferenceLocation> = Vec::new();
    let mut dexes: Vec<DexSearchSummary> = Vec::new();
    let ghost mut i: int = 0;
    assert(views(references@) =~= Seq::<Location>::empty());
    assert(rest@ =~= all.skip(0));
    while rest.len() > 0
        invariant
            0 <= i <= all.len(),
            rest@ == all.skip(i),
            dexes@.len() == i,
            all == batches@,
            forall|k: int| 0 <= k < i ==> (#[trigger] all[k]) is Ok,
            forall|k: int| 0 <= k < i ==> #[trigger] dexes@[k] == all[k]->Ok_0.0,
            merged_from(all, 0, Seq::empty()) == merged_from(all, i, views(references@)),
        decreases rest.len(),
    {
        let ghost before = references@;
        assert(all.skip(i)[0] == all[i]);
        let batch = rest.remove(0);
        assert(rest@ =~= all.skip(i + 1));
        let (summary, mut found) = batch?;
        let ghost added = found@;
        dexes.push(summary);
        references.append(&mut found);
        proof {
            assert(references@ == before + added);
            assert(views(references@) =~= views(before) + views(added));
            i = i + 1;
        }
    }
    Ok(ReferenceSearchResult { references, dexes })
}

/// The references of group `g` behind those found so far.
pub open spec fn group_from(batches: Seq<DexBatch>, g: int, i: int, found: Seq<Location>) -> Seq<
    Location,
>
    decreases batches.len() - i,
{
    if i >= batches.len() {
        found
    } else {
        let groups = batches[i]->Ok_0.1@;
        group_from(
            batches,
            g,
            i + 1,
            if g < groups.len() {
                found + views(groups[g]@)
            } else {
                found
            },
        )
    }
}

/// The first fault among outcomes from `i` on.
pub open spec fn first_fault(batches: Seq<DexBatch>, i: int) -> Option<Error>
    decreases batches.len() - i,
{
    if i >= batches.len() {
        None
    } else if let Err(e) = batches[i] {
        Some(e)
    } else {
        first_fault(batches, i + 1)
    }
}

/// Puts the outcomes of all DEX files together, pattern by pattern. A batch
/// needs at least one pattern.
pub fn merge_batches(patterns: &[String], batches: Vec<DexBatch>) -> (r: Result<
    BatchReferenceSearchResult,
    Error,
>)
    ensures
        match r {
            Ok(s) => {
                &&& patterns@.len() > 0
                &&& first_fault(batches@, 0) is None
                &&& s.groups@.len() == patterns@.len()
                &&& forall|g: int|
                    0 <= g < s.groups@.len() ==> (#[trigger] s.groups@[g]).pattern@ == patterns@[g]@
                        && views(s.groups@[g].references@) == group_from(
                        batches@,
                        g,
                        0,
                        Seq::empty(),
                    )
                &&& s.dexes@.len() == batches@.len()
                &&& forall|i: int|
                    0 <= i < batches@.len() ==> #[trigger] s.dexes@[i] == batches@[i]->Ok_0.0
            },
            Err(e) => if patterns@.len() == 0 {
                e == Error::EmptyBatch
            } else {
                first_fault(batches@, 0) == Some(e)
            },
        },
{
    if patterns.len() == 0 {
        return Err(Error::EmptyBatch);
    }
    let ghost all = batches@;
    let mut rest = batches;
    let mut groups: Vec<StringReferenceGroup> = Vec::new();
    let mut made: usize = 0;
    while made < patterns.len()
        invariant
            made <= patterns.len(),
            groups.len() == made,
            forall|g: int|
                0 <= g < made ==> (#[trigger] groups@[g]).pattern@ == patterns@[g]@
                    && groups@[g].references@.len() == 0,
        decreases patterns.len() - made,
    {
        groups.push(
            StringReferenceGroup { pattern: patterns[made].clone(), references: Vec::new() },
        );
        made += 1;
    }
    let mut dexes: Vec<BatchDexSearchSummary> = Vec::new();
    let ghost mut i: int = 0;
    assert(rest@ =~= all.skip(0));
    proof {
        assert forall|g: int| 0 <= g < groups@.len() implies group_from(all, g, 0, Seq::empty())
            == group_from(all, g, 0, views((#[trigger] groups@[g]).references@)) by {
            assert(views(groups@[g].references@) =~= Seq::<Location>::empty());
        }
    }
    while rest.len() > 0
        invariant
            0 <= i <= all.len(),
            all == batches@,
            rest@ == all.skip(i),
            groups@.len() == patterns@.len(),
            patterns@.len() > 0,
            first_fault(all, 0) == first_fault(all, i),
            dexes@.len() == i,
            forall|k: int| 0 <= k < i ==> #[trigger] dexes@[k] == all[k]->Ok_0.0,
            forall|g: int|
                0 <= g < groups@.len() ==> (#[trigger] groups@[g]).pattern@ == patterns@[g]@
                    && group_from(all, g, 0, Seq::empty()) == group_from(
                    all,
                    g,
                    i,
                    views(groups@[g].references@),
                ),
        decreases rest.len(),
    {
        assert(all.skip(i)[0] == all[i]);
        let batch = rest.remove(0);
        assert(rest@ =~= all.skip(i + 1));
        let (summary, found) = batch?;
        dexes.push(summary);
        let ghost before = groups@;
        append_groups(&mut groups, found);
        proof {
            assert forall|g: int| 0 <= g < groups@.len() implies (#[trigger] groups@[g]).pattern@
                == patterns@[g]@ && group_from(all, g, 0, Seq::empty()) == group_from(
                all,
                g,
                i + 1,
                views(groups@[g].references@),
            ) by {
                assert(before[g].pattern@ == patterns@[g]@);
            }
            i = i + 1;
        }
    }
    Ok(BatchReferenceSearchResult { groups, dexes })
}

/// Appends to each group the references found for it.
fn append_groups(groups: &mut Vec<StringReferenceGroup>, found: Vec<Vec<ReferenceLocation>>)
    ensures
        final(groups)@.len() == old(groups)@.len(),
        forall|g: int|
            0 <= g < old(groups)@.len() ==> (#[trigger] final(groups)@[g]).pattern == old(
                groups,
            )@[g].pattern && views(final(groups)@[g].references@) == (if g < found@.len() {
                views(old(groups)@[g].references@) + views(found@[g]@)
            } else {
                views(old(groups)@[g].references@)
            }),
{
    let ghost all = found@;
    let ghost before = groups@;
    let mut rest = found;
    let mut g: usize = 0;
    assert(rest@ =~= all.skip(0));
    while g < groups.len() && rest.len() > 0
        invariant
            g <= groups.len(),
            g <= all.len(),
            rest@ == all.skip(g as int),
            before == old(groups)@,
            groups@.len() == before.len(),
            forall|k: int|
                0 <= k < g ==> (#[trigger] groups@[k]).pattern == before[k].pattern && views(
                    groups@[k].references@,
                ) == views(before[k].references@) + views(all[k]@),
            forall|k: int| g <= k < before.len() ==> #[trigger] groups@[k] == before[k],
        decreases rest.len(),
    {
        assert(all.skip(g as int)[0] == all[g as int]);
        let mut more = rest.remove(0);
        assert(rest@ =~= all.skip(g + 1));
        let ghost added = more@;
        let mut group = StringReferenceGroup { pattern: String::new(), references: Vec::new() };
        std::mem::swap(&mut group, &mut groups[g]);
        let ghost known = group.references@;
        group.references.append(&mut more);
        std::mem::swap(&mut group, &mut groups[g]);
        proof {
            assert(views(groups@[g as int].references@) =~= views(known) + views(added));
        }
        g += 1;
    }
}

// ---------------------------------------------------------------------------
// A whole package
// ---------------------------------------------------------------------------

/// A DEX file under its name.
pub struct NamedDex {
    pub name: Seq<char>,
    pub dex: DexContents,
}

/// What a search finds in the DEX files from `i` on, behind what was found so
/// far, or the first fault.
pub open spec fn package_found(
    files: Seq<NamedDex>,
    query: Query,
    i: int,
    found: Seq<Location>,
) -> Result<Seq<Location>, Error>
    decreases files.len() - i,
{
    if i >= files.len() {
        Ok(found)
    } else {
        match found_in(files[i].dex, files[i].name, query) {
            Err(e) => Err(e),
            Ok(references) => package_found(files, query, i + 1, found + references),
        }
    }
}

/// Whether an outcome is what `search_dex` gives for a file.
pub open spec fn searched(outcome: DexSearch, file: NamedDex, query: Query) -> bool {
    match outcome {
        Ok((summary, references)) => {
            &&& found_in(file.dex, file.name, query) == Ok::<Seq<Location>, Error>(
                views(references@),
            )
            &&& summary.matched_targets == file.dex.matching(query).len()
        },
        Err(e) => found_in(file.dex, file.name, query) == Err::<Seq<Location>, Error>(e),
    }
}

/// Whether an outcome is what `search_dex_batch` gives for a file.
pub open spec fn batch_searched(
    outcome: DexBatch,
    file: NamedDex,
    patterns: Seq<Seq<char>>,
) -> bool {
    match outcome {
        Ok((summary, groups)) => {
            &&& batch_found_in(file.dex, file.name, patterns) == Ok::<Seq<Seq<Location>>, Error>(
                group_views(groups@),
            )
            &&& summary.matched_targets@.len() == patterns.len()
            &&& forall|p: int|
                0 <= p < patterns.len() ==> #[trigger] summary.matched_targets@[p] == hits(
                    file.dex.tables.strings,
                    patterns[p],
                    file.dex.tables.strings.len(),
                ).len()
        },
        Err(e) => batch_found_in(file.dex, file.name, patterns) == Err::<
            Seq<Seq<Location>>,
            Error,
        >(e),
    }
}

/// Merging the outcomes of all files gives what the search finds in the
/// package.
pub proof fn lemma_package_searched(
    outcomes: Seq<DexSearch>,
    files: Seq<NamedDex>,
    query: Query,
    i: int,
    found: Seq<Location>,
)
    requires
        outcomes.len() == files.len(),
        forall|k: int| 0 <= k < files.len() ==> searched(#[trigger] outcomes[k], files[k], query),
        0 <= i <= files.len(),
    ensures
        merged_from(outcomes, i, found) == package_found(files, query, i, found),
    decreases files.len() - i,
{
    if i < files.len() {
        assert(searched(outcomes[i], files[i], query));
        if let Ok((_, references)) = outcomes[i] {
            lemma_package_searched(outcomes, files, query, i + 1, found + views(references@));
        }
    }
}

/// A file in which every pattern can be searched for on its own can be searched
/// for all of them at once, and gives the same references and counts.
proof fn lemma_file_batch(outcome: DexBatch, file: NamedDex, patterns: Seq<String>)
    requires
        file.dex.indexed(),
        batch_searched(outcome, file, texts(patterns)),
        forall|p: int|
            0 <= p < patterns.len() ==> found_in(
                file.dex,
                file.name,
                Query::String(#[trigger] patterns[p]),
            ) is Ok,
    ensures
        outcome is Ok,
        outcome->Ok_0.1@.len() == patterns.len(),
        forall|p: int|
            0 <= p < patterns.len() ==> found_in(
                file.dex,
                file.name,
                Query::String(#[trigger] patterns[p]),
            ) == Ok::<Seq<Location>, Error>(views(outcome->Ok_0.1@[p]@)),
        forall|p: int|
            0 <= p < patterns.len() ==> outcome->Ok_0.0.matched_targets@[p] == file.dex.matching(
                Query::String(#[trigger] patterns[p]),
            ).len(),
{
    let f = group_reader(file.dex, file.name, texts(patterns));
    assert forall|p: int| 0 <= p < patterns.len() implies #[trigger] f(p) == found_in(
        file.dex,
        file.name,
        Query::String(patterns[p]),
    ) by {
        lemma_batch_equals_single(file.dex, file.name, patterns, p);
    }
    assert forall|p: int| 0 <= p < patterns.len() implies (#[trigger] f(p)) is Ok by {
        assert(found_in(file.dex, file.name, Query::String(patterns[p])) is Ok);
    }
    lemma_all_collected(f, patterns.len());
    lemma_collect_ok(f, patterns.len());
    let groups = outcome->Ok_0.1@;
    assert(group_views(groups).len() == patterns.len());
    assert forall|p: int| 0 <= p < patterns.len() implies found_in(
        file.dex,
        file.name,
        Query::String(#[trigger] patterns[p]),
    ) == Ok::<Seq<Location>, Error>(views(groups[p]@)) by {
        assert(f(p) == Ok::<Seq<Location>, Error>(group_views(groups)[p]));
    }
    assert forall|p: int| 0 <= p < patterns.len() implies outcome->Ok_0.0.matched_targets@[p]
        == file.dex.matching(Query::String(#[trigger] patterns[p])).len() by {
        lemma_batch_equals_single(file.dex, file.name, patterns, p);
        assert(texts(patterns)[p] == patterns[p]@);
    }
}

/// What is collected without a fault is collected.
proof fn lemma_all_collected<T>(f: spec_fn(int) -> Result<T, Error>, n: nat)
    requires
        forall|i: int| 0 <= i < n ==> (#[trigger] f(i)) is Ok,
    ensures
        collect(f, n) is Ok,
    decreases n,
{
    if n > 0 {
        lemma_all_collected(f, (n - 1) as nat);
        assert(f(n - 1) is Ok);
    }
}

/// Where a search for each pattern alone finds something without a fault, the
/// batch has no fault, and each of its groups holds what the search for its
/// pattern finds in the package, repeated and empty patterns included.
pub proof fn lemma_package_batch(
    outcomes: Seq<DexBatch>,
    files: Seq<NamedDex>,
    patterns: Seq<String>,
)
    requires
        outcomes.len() == files.len(),
        forall|k: int|
            0 <= k < files.len() ==> batch_searched(
                #[trigger] outcomes[k],
                files[k],
                texts(patterns),
            ),
        forall|k: int| 0 <= k < files.len() ==> (#[trigger] files[k]).dex.indexed(),
        patterns.len() > 0,
        forall|p: int|
            0 <= p < patterns.len() ==> package_found(
                files,
                Query::String(#[trigger] patterns[p]),
                0,
                Seq::empty(),
            ) is Ok,
    ensures
        first_fault(outcomes, 0) is None,
        forall|p: int|
            0 <= p < patterns.len() ==> package_found(
                files,
                Query::String(#[trigger] patterns[p]),
                0,
                Seq::empty(),
            ) == Ok::<Seq<Location>, Error>(group_from(outcomes, p, 0, Seq::empty())),
        forall|k: int, p: int|
            0 <= k < files.len() && 0 <= p < patterns.len() ==> (
            #[trigger] outcomes[k])->Ok_0.0.matched_targets@[p] == files[k].dex.matching(
                Query::String(#[trigger] patterns[p]),
            ).len(),
{
    assert forall|k: int| 0 <= k < files.len() implies file_batched(
        #[trigger] outcomes[k],
        files[k],
        patterns,
    ) by {
        assert(batch_searched(outcomes[k], files[k], texts(patterns)));
        assert forall|p: int| 0 <= p < patterns.len() implies found_in(
            files[k].dex,
            files[k].name,
            Query::String(#[trigger] patterns[p]),
        ) is Ok by {
            lemma_each_file_ok(files, Query::String(patterns[p]), 0, Seq::empty(), k);
        }
        lemma_file_batch(outcomes[k], files[k], patterns);
    }
    lemma_no_fault_from(outcomes, files, patterns, 0);
    assert forall|p: int| 0 <= p < patterns.len() implies package_found(
        files,
        Query::String(#[trigger] patterns[p]),
        0,
        Seq::empty(),
    ) == Ok::<Seq<Location>, Error>(group_from(outcomes, p, 0, Seq::empty())) by {
        lemma_group_found(outcomes, files, patterns, p, 0, Seq::empty());
    }
    assert forall|k: int, p: int| 0 <= k < files.len() && 0 <= p < patterns.len() implies (
    #[trigger] outcomes[k])->Ok_0.0.matched_targets@[p] == files[k].dex.matching(
        Query::String(#[trigger] patterns[p]),
    ).len() by {
        assert(file_batched(outcomes[k], files[k], patterns));
    }
}

/// Whether a batch gave for a file what separate searches give.
spec fn file_batched(outcome: DexBatch, file: NamedDex, patterns: Seq<String>) -> bool {
    &&& outcome is Ok
    &&& outcome->Ok_0.1@.len() == patterns.len()
    &&& forall|p: int|
        0 <= p < patterns.len() ==> found_in(
            file.dex,
            file.name,
            Query::String(#[trigger] patterns[p]),
        ) == Ok::<Seq<Location>, Error>(views(outcome->Ok_0.1@[p]@))
    &&& forall|p: int|
        0 <= p < patterns.len() ==> outcome->Ok_0.0.matched_targets@[p] == file.dex.matching(
            Query::String(#[trigger] patterns[p]),
        ).len()
}

proof fn lemma_each_file_ok(
    files: Seq<NamedDex>,
    query: Query,
    i: int,
    found: Seq<Location>,
    k: int,
)
    requires
        package_found(files, query, i, found) is Ok,
        0 <= i <= k < files.len(),
    ensures
        found_in(files[k].dex, files[k].name, query) is Ok,
    decreases files.len() - i,
{
    let references = found_in(files[i].dex, files[i].name, query)->Ok_0;
    if i < k {
        lemma_each_file_ok(files, query, i + 1, found + references, k);
    }
}

proof fn lemma_no_fault_from(
    outcomes: Seq<DexBatch>,
    files: Seq<NamedDex>,
    patterns: Seq<String>,
    i: int,
)
    requires
        outcomes.len() == files.len(),
        0 <= i <= files.len(),
        forall|k: int|
            0 <= k < files.len() ==> file_batched(#[trigger] outcomes[k], files[k], patterns),
    ensures
        first_fault(outcomes, i) is None,
    decreases files.len() - i,
{
    if i < files.len() {
        assert(file_batched(outcomes[i], files[i], patterns));
        lemma_no_fault_from(outcomes, files, patterns, i + 1);
    }
}

proof fn lemma_group_found(
    outcomes: Seq<DexBatch>,
    files: Seq<NamedDex>,
    patterns: Seq<String>,
    p: int,
    i: int,
    found: Seq<Location>,
)
    requires
        outcomes.len() == files.len(),
        0 <= i <= files.len(),
        0 <= p < patterns.len(),
        forall|k: int|
            0 <= k < files.len() ==> file_batched(#[trigger] outcomes[k], files[k], patterns),
    ensures
        package_found(files, Query::String(patterns[p]), i, found) == Ok::<Seq<Location>, Error>(
            group_from(outcomes, p, i, found),
        ),
    decreases files.len() - i,
{
    if i < files.len() {
        assert(file_batched(outcomes[i], files[i], patterns));
        let added = views(outcomes[i]->Ok_0.1@[p]@);
        lemma_group_found(outcomes, files, patterns, p, i + 1, found + added);
    }
}

/// The engines that turn a class into source text.
#[derive(Debug, Clone, Copy, PartialEq, Eq, Structural)]
pub enum DecompilationEngine {
    /// The in-process backend.
    Builtin,
    /// The external JADX command-line backend.
    Jadx,
}

impl Default for DecompilationEngine {
    fn default() -> (r: DecompilationEngine)
        ensures
            r == DecompilationEngine::Builtin,
    {
        DecompilationEngine::Builtin
    }
}

impl DecompilationEngine {
    pub open spec fn title(self) -> Seq<char> {
        match self {
            DecompilationEngine::Builtin => "built-in Rust"@,
            DecompilationEngine::Jadx => "JADX"@,
        }
    }

    pub fn display_name(self) -> (r: &'static str)
        ensures
            r@ == self.title(),
    {
        match self {
            DecompilationEngine::Builtin => "built-in Rust",
            DecompilationEngine::Jadx => "JADX",
        }
    }

    pub open spec fn key(self) -> Seq<char> {
        match self {
            DecompilationEngine::Builtin => "builtin"@,
            DecompilationEngine::Jadx => "jadx"@,
        }
    }

    /// The name of the engine in structured output.
    pub fn label(self) -> (r: &'static str)
        ensures
            r@ == self.key(),
    {
        match self {
            DecompilationEngine::Builtin => "builtin",
            DecompilationEngine::Jadx => "jadx",
        }
    }

    /// The mode in which an engine works when none is asked for.
    pub fn default_mode(self) -> (r: DecompilationMode)
        ensures
            r == match self {
                DecompilationEngine::Builtin => DecompilationMode::Simple,
                DecompilationEngine::Jadx => DecompilationMode::Restructure,
            },
    {
        match self {
            DecompilationEngine::Builtin => DecompilationMode::Simple,
            DecompilationEngine::Jadx => DecompilationMode::Restructure,
        }
    }

    /// Refuses a JADX path for an engine that does not use one.
    pub fn check_jadx_path(self, given: bool) -> (r: Result<(), Error>)
        ensures
            r == if self == DecompilationEngine::Builtin && given {
                Err::<(), Error>(Error::JadxPathWithoutJadx)
            } else {
                Ok::<(), Error>(())
            },
    {
        if self == DecompilationEngine::Builtin && given {
            return Err(Error::JadxPathWithoutJadx);
        }
        Ok(())
    }
}

/// How source text is built from instructions.
#[derive(Debug, Clone, Copy, PartialEq, Eq, Structural)]
pub enum DecompilationMode {
    Restructure,
    Simple,
    Fallback,
}

impl DecompilationMode {
    pub open spec fn title(self) -> Seq<char> {
        match self {
            DecompilationMode::Restructure => "restructure"@,
            DecompilationMode::Simple => "simple"@,
            DecompilationMode::Fallback => "fallback"@,
        }
    }
}

pub fn decompilation_mode_name(mode: DecompilationMode) -> (r: &'static str)
    ensures
        r@ == mode.title(),
{
    match mode {
        DecompilationMode::Restructure => "restructure",
        DecompilationMode::Simple => "simple",
        DecompilationMode::Fallback => "fallback",
    }
}

} // verus!
