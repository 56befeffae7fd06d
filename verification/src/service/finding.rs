//! What a search for references finds.
use vstd::prelude::*;

use crate::collections::views;
use crate::dex::instructions::{lemma_all_sites, site_in};
use crate::dex::references::{lemma_scan, ReferenceSite};
use crate::dex::{DexContents, Query, ReferenceKind};
use crate::error::Error;
use crate::results::lemma_collect_ok;
use crate::service::{
    event_of, found_in, group_from, location_of, location_reader, merged_from, package_found,
    references_to, DexBatch, DexSearch, Location, NamedDex, OperationStage, OperationStep,
};

verus! {

/// Whether a location tells of a site: where it is, and the texts of its caller
/// and its target.
pub open spec fn tells_of(
    d: DexContents,
    name: Seq<char>,
    kind: ReferenceKind,
    site: ReferenceSite,
    l: Location,
) -> bool {
    &&& l.dex_name == name
    &&& l.caller_index == site.caller_index
    &&& l.code_unit_offset == site.code_unit_offset
    &&& l.target_index == site.target_index
    &&& d.match_text(ReferenceKind::Method, site.caller_index as int) == Ok::<Seq<char>, Error>(
        l.caller_method,
    )
    &&& d.match_text(kind, site.target_index as int) == Ok::<Seq<char>, Error>(l.target_symbol)
}

/// Each site is told of by one location, in the order of the sites.
pub proof fn lemma_locations(
    d: DexContents,
    name: Seq<char>,
    kind: ReferenceKind,
    targets: Set<u32>,
)
    requires
        references_to(d, name, kind, targets) is Ok,
    ensures
        d.sites_of(kind, targets) is Ok,
        references_to(d, name, kind, targets)->Ok_0.len() == d.sites_of(kind, targets)->Ok_0.len(),
        forall|i: int|
            0 <= i < d.sites_of(kind, targets)->Ok_0.len() ==> tells_of(
                d,
                name,
                kind,
                d.sites_of(kind, targets)->Ok_0[i],
                #[trigger] references_to(d, name, kind, targets)->Ok_0[i],
            ),
{
    let sites = d.sites_of(kind, targets)->Ok_0;
    let list = references_to(d, name, kind, targets)->Ok_0;
    let f = location_reader(d, name, kind, sites);
    lemma_collect_ok(f, sites.len());
    assert forall|i: int| 0 <= i < sites.len() implies tells_of(
        d,
        name,
        kind,
        sites[i],
        #[trigger] list[i],
    ) by {
        assert(f(i) == location_of(d, name, kind, sites[i]));
    }
}

/// Whether an instruction of a file refers to an identifier that matches a
/// query.
pub open spec fn is_hit(d: DexContents, query: Query, x: ReferenceSite) -> bool {
    &&& d.matching(query).contains(x.target_index)
    &&& exists|i: int| 0 <= i < d.code.len() && #[trigger] site_in(d, query.kind_of(), i, x)
}

/// A search tells of every instruction that refers to a matching identifier,
/// and of nothing else.
pub proof fn lemma_search_complete(d: DexContents, name: Seq<char>, query: Query, x: ReferenceSite)
    requires
        d.indexed(),
        d.all_sites(query.kind_of()) is Ok,
        found_in(d, name, query) is Ok,
    ensures
        is_hit(d, query, x) <==> exists|i: int|
            0 <= i < found_in(d, name, query)->Ok_0.len() && tells_of(
                d,
                name,
                query.kind_of(),
                x,
                #[trigger] found_in(d, name, query)->Ok_0[i],
            ),
{
    let kind = query.kind_of();
    let targets = d.matching(query).to_set();
    let sites = d.sites_of(kind, targets)->Ok_0;
    let list = found_in(d, name, query)->Ok_0;
    lemma_locations(d, name, kind, targets);
    lemma_scan(d, kind, targets);
    lemma_all_sites(d, kind, x);
    assert(targets.contains(x.target_index) <==> d.matching(query).contains(x.target_index));
    assert(sites.contains(x) <==> d.all_sites(kind)->Ok_0.contains(x) && targets.contains(
        x.target_index,
    ));
    if sites.contains(x) {
        let i = choose|i: int| 0 <= i < sites.len() && sites[i] == x;
        assert(tells_of(d, name, kind, x, list[i]));
    }
    if exists|i: int| 0 <= i < list.len() && tells_of(d, name, kind, x, #[trigger] list[i]) {
        let i = choose|i: int| 0 <= i < list.len() && tells_of(d, name, kind, x, #[trigger] list[i]);
        assert(tells_of(d, name, kind, sites[i], list[i]));
        assert(sites[i] == x);
    }
}

/// Lists one behind another, from the first on.
pub open spec fn in_a_row(lists: Seq<Seq<Location>>) -> Seq<Location>
    decreases lists.len(),
{
    if lists.len() == 0 {
        Seq::empty()
    } else {
        lists[0] + in_a_row(lists.skip(1))
    }
}

/// What a package gives is what its files give, file by file.
pub proof fn lemma_package_in_a_row(
    files: Seq<NamedDex>,
    query: Query,
    i: int,
    found: Seq<Location>,
    lists: Seq<Seq<Location>>,
)
    requires
        0 <= i <= files.len(),
        lists.len() == files.len() - i,
        forall|k: int|
            0 <= k < lists.len() ==> found_in(files[i + k].dex, files[i + k].name, query) == Ok::<
                Seq<Location>,
                Error,
            >(#[trigger] lists[k]),
    ensures
        package_found(files, query, i, found) == Ok::<Seq<Location>, Error>(
            found + in_a_row(lists),
        ),
    decreases lists.len(),
{
    if lists.len() == 0 {
        assert(found + in_a_row(lists) =~= found);
    } else {
        let rest = lists.skip(1);
        assert(found_in(files[i + 0].dex, files[i + 0].name, query) == Ok::<Seq<Location>, Error>(
            lists[0],
        ));
        assert forall|k: int| 0 <= k < rest.len() implies found_in(
            files[i + 1 + k].dex,
            files[i + 1 + k].name,
            query,
        ) == Ok::<Seq<Location>, Error>(#[trigger] rest[k]) by {
            assert(rest[k] == lists[k + 1]);
            assert(files[i + (k + 1)] == files[i + 1 + k]);
        }
        lemma_package_in_a_row(files, query, i + 1, found + lists[0], rest);
        assert(found + lists[0] + in_a_row(rest) =~= found + in_a_row(lists));
    }
}

/// Whether an outcome has the given references.
pub open spec fn gives(outcome: DexSearch, list: Seq<Location>) -> bool {
    outcome matches Ok(found) && views(found.1@) == list
}

/// Whether an outcome has the given references for a group.
pub open spec fn gives_group(outcome: DexBatch, g: int, list: Seq<Location>) -> bool {
    outcome matches Ok(found) && 0 <= g < found.1@.len() && views(found.1@[g]@) == list
}

/// Merged outcomes are their references, outcome by outcome.
pub proof fn lemma_merged_in_a_row(
    batches: Seq<DexSearch>,
    i: int,
    found: Seq<Location>,
    lists: Seq<Seq<Location>>,
)
    requires
        0 <= i <= batches.len(),
        lists.len() == batches.len() - i,
        forall|k: int|
            0 <= k < lists.len() ==> gives(batches[i + k], #[trigger] lists[k]),
    ensures
        merged_from(batches, i, found) == Ok::<Seq<Location>, Error>(found + in_a_row(lists)),
    decreases lists.len(),
{
    if lists.len() == 0 {
        assert(found + in_a_row(lists) =~= found);
    } else {
        let rest = lists.skip(1);
        assert(gives(batches[i + 0], lists[0]));
        assert forall|k: int| 0 <= k < rest.len() implies gives(
            batches[i + 1 + k],
            #[trigger] rest[k],
        ) by {
            assert(rest[k] == lists[k + 1]);
            assert(batches[i + (k + 1)] == batches[i + 1 + k]);
        }
        lemma_merged_in_a_row(batches, i + 1, found + lists[0], rest);
        assert(found + lists[0] + in_a_row(rest) =~= found + in_a_row(lists));
    }
}

/// A fault in any outcome is a fault of the whole, and the first one is told.
pub proof fn lemma_merged_fault(batches: Seq<DexSearch>, i: int, found: Seq<Location>, k: int)
    requires
        0 <= i <= k < batches.len(),
        forall|j: int| i <= j < k ==> (#[trigger] batches[j]) is Ok,
        batches[k] is Err,
    ensures
        merged_from(batches, i, found) == Err::<Seq<Location>, Error>(batches[k]->Err_0),
    decreases k - i,
{
    if i < k {
        lemma_merged_fault(batches, i + 1, found + views(batches[i]->Ok_0.1@), k);
    }
}

/// The references of a group are those that each outcome has for it, outcome by
/// outcome.
pub proof fn lemma_group_in_a_row(
    batches: Seq<DexBatch>,
    g: int,
    i: int,
    found: Seq<Location>,
    lists: Seq<Seq<Location>>,
)
    requires
        0 <= g,
        0 <= i <= batches.len(),
        lists.len() == batches.len() - i,
        forall|k: int|
            0 <= k < lists.len() ==> gives_group(batches[i + k], g, #[trigger] lists[k]),
    ensures
        group_from(batches, g, i, found) == found + in_a_row(lists),
    decreases lists.len(),
{
    if lists.len() == 0 {
        assert(found + in_a_row(lists) =~= found);
    } else {
        let rest = lists.skip(1);
        assert(gives_group(batches[i + 0], g, lists[0]));
        assert forall|k: int| 0 <= k < rest.len() implies gives_group(
            batches[i + 1 + k],
            g,
            #[trigger] rest[k],
        ) by {
            assert(rest[k] == lists[k + 1]);
            assert(batches[i + (k + 1)] == batches[i + 1 + k]);
        }
        lemma_group_in_a_row(batches, g, i + 1, found + lists[0], rest);
        assert(found + lists[0] + in_a_row(rest) =~= found + in_a_row(lists));
    }
}

/// Progress starts at nothing and ends at the whole: the steps that begin a
/// piece of work tell of nothing done, and those that end it of all; both name
/// the same stage, the same whole and the same item. The work on a package
/// counts its DEX entries, and that on one class or the manifest counts one.
pub proof fn lemma_progress(dexes: usize, text: String, index: usize)
    ensures
        ({
            let begin = event_of(OperationStep::Load, dexes);
            let end = event_of(OperationStep::Loaded, dexes);
            &&& begin.stage == OperationStage::Loading && end.stage == OperationStage::Loading
            &&& begin.completed == 0 && begin.total == dexes
            &&& end.completed == dexes && end.total == dexes
            &&& begin.item is None && end.item is None
        }),
        ({
            let begin = event_of(OperationStep::Decompile { descriptor: text }, dexes);
            let end = event_of(OperationStep::Decompiled { descriptor: text }, dexes);
            &&& begin.stage == OperationStage::Decompiling
            &&& end.stage == OperationStage::Decompiling
            &&& begin.completed == 0 && begin.total == 1
            &&& end.completed == 1 && end.total == 1
            &&& begin.item == Some(text@) && end.item == Some(text@)
        }),
        ({
            let begin = event_of(OperationStep::Manifest, dexes);
            let end = event_of(OperationStep::ManifestDone, dexes);
            &&& begin.stage == OperationStage::Manifest && end.stage == OperationStage::Manifest
            &&& begin.completed == 0 && begin.total == 1
            &&& end.completed == 1 && end.total == 1
            &&& begin.item == Some("AndroidManifest.xml"@) && end.item == begin.item
        }),
        ({
            let begin = event_of(OperationStep::Locate { descriptor: text }, dexes);
            let visit = event_of(OperationStep::Visit { index, name: text }, dexes);
            &&& begin.stage == OperationStage::Indexing && visit.stage == OperationStage::Indexing
            &&& begin.completed == 0 && begin.total == dexes && begin.item == Some(text@)
            &&& visit.completed == index && visit.total == dexes && visit.item == Some(text@)
        }),
        ({
            let step = event_of(OperationStep::Extract { dex_name: text }, dexes);
            &&& step.stage == OperationStage::Extracting
            &&& step.completed == 0 && step.total == 1 && step.item == Some(text@)
        }),
        ({
            let step = event_of(OperationStep::Searched { completed: index, dex_name: text }, dexes);
            &&& step.stage == OperationStage::Searching
            &&& step.completed == index && step.total == dexes && step.item == Some(text@)
        }),
{
}

} // verus!
