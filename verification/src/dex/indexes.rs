//! Reference indexes that are built once and then reused.
use vstd::prelude::*;

use crate::collections::ascending;
use crate::dex::references::ReferenceSite;
use crate::dex::{Dex, DexContents, ReferenceKind};
use crate::error::Error;

verus! {

/// The outcome of building the index of a kind.
pub type BuiltIndex = Result<Vec<ReferenceSite>, Error>;

/// The reference indexes of one DEX file, as far as they were needed.
#[derive(Debug)]
pub struct ReferenceIndexes {
    slots: Vec<Option<BuiltIndex>>,
}

pub open spec fn slot_of(kind: ReferenceKind) -> int {
    match kind {
        ReferenceKind::String => 0,
        ReferenceKind::Type => 1,
        ReferenceKind::Method => 2,
        ReferenceKind::Field => 3,
    }
}

impl ReferenceKind {
    pub fn slot(self) -> (r: usize)
        ensures
            r == slot_of(self),
            r < 4,
    {
        match self {
            ReferenceKind::String => 0,
            ReferenceKind::Type => 1,
            ReferenceKind::Method => 2,
            ReferenceKind::Field => 3,
        }
    }
}

/// Whether a slot holds what building the index gives, or nothing.
pub open spec fn slot_right(slot: Option<BuiltIndex>, d: DexContents, kind: ReferenceKind) -> bool {
    match slot {
        None => true,
        Some(Ok(index)) => d.index_of(kind) == Ok::<Seq<ReferenceSite>, Error>(index@),
        Some(Err(e)) => d.index_of(kind) == Err::<Seq<ReferenceSite>, Error>(e),
    }
}

impl ReferenceIndexes {
    /// Whether every index in store is the one of the given contents.
    pub closed spec fn of(self, d: DexContents) -> bool {
        &&& self.slots@.len() == 4
        &&& forall|kind: ReferenceKind| #[trigger]
            slot_right(self.slots@[slot_of(kind)], d, kind)
    }

    /// No index, which is right for any contents.
    pub fn new() -> (r: ReferenceIndexes)
        ensures
            forall|d: DexContents| #[trigger] r.of(d),
    {
        let mut slots: Vec<Option<BuiltIndex>> = Vec::new();
        slots.push(None);
        slots.push(None);
        slots.push(None);
        slots.push(None);
        ReferenceIndexes { slots }
    }

    /// Builds the index of a kind, unless it is there.
    fn fill(&mut self, dex: &Dex, kind: ReferenceKind)
        requires
            old(self).of(dex@),
        ensures
            final(self).of(dex@),
            final(self).slots@[slot_of(kind)] is Some,
    {
        let slot: usize = kind.slot();
        if self.slots[slot].is_some() {
            return ;
        }
        let ghost before = self.slots@;
        let built = dex.build_reference_index(kind);
        self.slots.set(slot, Some(built));
        proof {
            assert forall|other: ReferenceKind| #[trigger]
                slot_right(self.slots@[slot_of(other)], dex@, other) by {
                if slot_of(other) == slot_of(kind) {
                    assert(other == kind);
                } else {
                    assert(slot_right(before[slot_of(other)], dex@, other));
                }
            }
        }
    }

    /// Finds the sites that refer to the given targets, which ascend. Without
    /// targets no index is built.
    pub fn scan(&mut self, dex: &Dex, kind: ReferenceKind, targets: &[u32]) -> (r: BuiltIndex)
        requires
            old(self).of(dex@),
            ascending(targets@),
        ensures
            final(self).of(dex@),
            match r {
                Ok(v) => dex@.sites_of(kind, targets@.to_set()) == Ok::<
                    Seq<ReferenceSite>,
                    Error,
                >(v@),
                Err(e) => dex@.sites_of(kind, targets@.to_set()) == Err::<
                    Seq<ReferenceSite>,
                    Error,
                >(e),
            },
    {
        if targets.len() == 0 {
            assert(targets@.to_set() =~= Set::<u32>::empty());
            return Ok(Vec::new());
        }
        assert(targets@.to_set().contains(targets@[0]));
        self.fill(dex, kind);
        assert(slot_right(self.slots@[slot_of(kind)], dex@, kind));
        match &self.slots[kind.slot()] {
            Some(Ok(index)) => Ok(dex.select_sites(index, targets)),
            Some(Err(e)) => Err(*e),
            None => Ok(Vec::new()),
        }
    }
}

} // verus!
