//! Where the code of a DEX file refers to its identifiers.
use std::collections::{BTreeMap, BTreeSet, HashSet};
use vstd::prelude::*;

use crate::collections::ascending;
use crate::dex::{CodeSpan, Dex, DexContents, ReferenceKind};
use crate::dex_format::{
    bytes_at, bytes_in, instruction_width_bytes, unit_in_bytes, units_of, width_at,
};
use crate::error::Error;
use crate::minidex::bytecode::{opcode_at, operand_kind, operand_of, wide_operand, Operand};
use crate::minidex::canonical::picked;
use crate::order::{lemma_sort_order, lex_less, lists, positions, sort_order, sorted_indices};
use crate::results::run;

verus! {

broadcast use {vstd::std_specs::hash::group_hash_axioms, vstd::std_specs::btree::group_btree_axioms};

/// One instruction that refers to an identifier.
#[derive(Debug, Clone, Copy, PartialEq, Eq, Structural)]
pub struct ReferenceSite {
    pub caller_index: u32,
    pub target_index: u32,
    /// Offset from the beginning of the caller's instruction stream, measured
    /// in 16-bit DEX code units.
    pub code_unit_offset: u32,
}

// ---------------------------------------------------------------------------
// One instruction
// ---------------------------------------------------------------------------

/// The unit behind `pc`, if there is one.
pub open spec fn short_at(units: Seq<u16>, pc: int) -> Option<u32> {
    if pc + 1 < units.len() {
        Some(units[pc + 1] as u32)
    } else {
        None
    }
}

/// The identifier of the given kind that an instruction with `opcode` at `pc`
/// refers to.
pub open spec fn reference_at(kind: ReferenceKind, opcode: u8, units: Seq<u16>, pc: int) -> Option<
    u32,
> {
    match (kind, operand_of(opcode)) {
        (ReferenceKind::String, Operand::String) => short_at(units, pc),
        (ReferenceKind::String, Operand::JumboString) => if pc + 2 < units.len() {
            Some(wide_operand(units, pc))
        } else {
            None
        },
        (ReferenceKind::Type, Operand::Type) => short_at(units, pc),
        (ReferenceKind::Field, Operand::Field) => short_at(units, pc),
        (ReferenceKind::Method, Operand::Method) => short_at(units, pc),
        (ReferenceKind::Method, Operand::MethodAndProto) => short_at(units, pc),
        _ => None,
    }
}

/// The two bytes behind those of the unit at `pc`, low byte first.
pub open spec fn unit_behind(bytes: Seq<u8>, pc: int) -> Option<u32> {
    if 2 * pc + 3 < bytes.len() {
        Some((bytes[2 * pc + 2] + 0x100 * bytes[2 * pc + 3]) as u32)
    } else {
        None
    }
}

fn short_operand(bytes: &[u8], pc: u64) -> (r: Option<u32>)
    ensures
        r == short_at(units_of(bytes@), pc as int),
{
    match unit_in_bytes(bytes, pc.saturating_add(1)) {
        Some(unit) => {
            let size: usize = bytes.len();
            assert(pc < size);
            Some(unit as u32)
        },
        None => {
            let size: usize = bytes.len();
            assert(units_of(bytes@).len() <= size);
            None
        },
    }
}

/// The identifier that the instruction at `pc` refers to, read straight from
/// the bytes of a code item.
pub fn reference_index(kind: ReferenceKind, opcode: u8, bytes: &[u8], pc: u64) -> (r: Option<u32>)
    ensures
        r == reference_at(kind, opcode, units_of(bytes@), pc as int),
        kind == ReferenceKind::Field ==> r == if 0x52 <= opcode <= 0x6d {
            unit_behind(bytes@, pc as int)
        } else {
            None
        },
        kind == ReferenceKind::Method ==> r == if 0x6e <= opcode <= 0x72 || 0x74 <= opcode <= 0x78
            || 0xfa <= opcode <= 0xfb {
            unit_behind(bytes@, pc as int)
        } else {
            None
        },
        kind == ReferenceKind::Type ==> r == if opcode == 0x1c || opcode == 0x1f || opcode == 0x20
            || 0x22 <= opcode <= 0x25 {
            unit_behind(bytes@, pc as int)
        } else {
            None
        },
        kind == ReferenceKind::String && opcode != 0x1b ==> r == if opcode == 0x1a {
            unit_behind(bytes@, pc as int)
        } else {
            None
        },
{
    let size: usize = bytes.len();
    assert(units_of(bytes@).len() <= size);
    match (kind, operand_kind(opcode)) {
        (ReferenceKind::String, Operand::String) => short_operand(bytes, pc),
        (ReferenceKind::String, Operand::JumboString) => {
            let low = unit_in_bytes(bytes, pc.saturating_add(1));
            let high = unit_in_bytes(bytes, pc.saturating_add(2));
            match (low, high) {
                (Some(a), Some(b)) => Some(a as u32 + 0x1_0000 * b as u32),
                _ => None,
            }
        },
        (ReferenceKind::Type, Operand::Type) => short_operand(bytes, pc),
        (ReferenceKind::Field, Operand::Field) => short_operand(bytes, pc),
        (ReferenceKind::Method, Operand::Method) => short_operand(bytes, pc),
        (ReferenceKind::Method, Operand::MethodAndProto) => short_operand(bytes, pc),
        _ => None,
    }
}

// ---------------------------------------------------------------------------
// All instructions
// ---------------------------------------------------------------------------

/// The sites behind those found so far, from `pc` on to the end of the code.
pub open spec fn sites_from(
    kind: ReferenceKind,
    caller: u32,
    units: Seq<u16>,
    pc: int,
    sites: Seq<ReferenceSite>,
) -> Result<Seq<ReferenceSite>, Error>
    decreases units.len() - pc,
{
    if pc >= units.len() {
        Ok(sites)
    } else {
        let more = match reference_at(kind, opcode_at(units, pc), units, pc) {
            Some(target) => sites.push(
                ReferenceSite {
                    caller_index: caller,
                    target_index: target,
                    code_unit_offset: pc as u32,
                },
            ),
            None => sites,
        };
        match width_at(units, pc) {
            Err(e) => Err(e),
            Ok(width) => if width == 0 || pc + width > units.len() {
                Err(Error::InvalidWidthAt(pc as u64))
            } else {
                sites_from(kind, caller, units, pc + width, more)
            },
        }
    }
}

/// Adds the sites of one code item.
pub open spec fn span_sites(
    kind: ReferenceKind,
    data: Seq<u8>,
    span: CodeSpan,
    sites: Seq<ReferenceSite>,
) -> Result<Seq<ReferenceSite>, Error> {
    match bytes_in(data, span.insns_offset as int, span.insns_size * 2) {
        Err(e) => Err(e),
        Ok(bytes) => sites_from(kind, span.method_idx, units_of(bytes), 0, sites),
    }
}

pub open spec fn span_sites_step(
    kind: ReferenceKind,
    data: Seq<u8>,
    code: Seq<CodeSpan>,
) -> spec_fn(Seq<ReferenceSite>, int) -> Result<Seq<ReferenceSite>, Error> {
    |sites: Seq<ReferenceSite>, i: int| span_sites(kind, data, code[i], sites)
}

/// Sites order by target, caller and offset.
pub open spec fn index_key(site: ReferenceSite) -> Seq<u32> {
    seq![site.target_index, site.caller_index, site.code_unit_offset]
}

pub open spec fn index_keys(sites: Seq<ReferenceSite>) -> Seq<Seq<u32>> {
    sites.map_values(|s: ReferenceSite| index_key(s))
}

/// The sites whose target is among the first `n`'s wanted ones.
pub open spec fn wanted(sites: Seq<ReferenceSite>, targets: Set<u32>, n: nat) -> Seq<ReferenceSite>
    decreases n,
{
    if n == 0 {
        Seq::empty()
    } else if targets.contains(sites[n - 1].target_index) {
        wanted(sites, targets, (n - 1) as nat).push(sites[n - 1])
    } else {
        wanted(sites, targets, (n - 1) as nat)
    }
}

/// A position in the scan: that of the caller's code, the offset in it, and
/// the target.
pub open spec fn scan_key(scan_order: Seq<u32>, site: ReferenceSite) -> Seq<u32> {
    let place = if site.caller_index < scan_order.len() {
        scan_order[site.caller_index as int]
    } else {
        u32::MAX
    };
    seq![place, site.code_unit_offset, site.target_index]
}

pub open spec fn scan_keys(scan_order: Seq<u32>, sites: Seq<ReferenceSite>) -> Seq<Seq<u32>> {
    sites.map_values(|s: ReferenceSite| scan_key(scan_order, s))
}

/// Sites in the order in which the code is scanned.
pub open spec fn in_scan_order(scan_order: Seq<u32>, sites: Seq<ReferenceSite>) -> Seq<
    ReferenceSite,
> {
    picked(sites, sort_order(scan_keys(scan_order, sites), sites.len()))
}

impl DexContents {
    /// Every site of a kind in the order of the code, or the first fault.
    pub open spec fn all_sites(self, kind: ReferenceKind) -> Result<Seq<ReferenceSite>, Error> {
        run(
            span_sites_step(kind, self.tables.data, self.code),
            Seq::empty(),
            0,
            self.code.len() as int,
        )
    }

    /// Every site of a kind, by target, caller and offset.
    pub open spec fn index_of(self, kind: ReferenceKind) -> Result<Seq<ReferenceSite>, Error> {
        match self.all_sites(kind) {
            Err(e) => Err(e),
            Ok(sites) => Ok(picked(sites, sort_order(index_keys(sites), sites.len()))),
        }
    }

    /// The sites of an index that refer to the given targets, in scan order.
    pub open spec fn chosen(self, index: Seq<ReferenceSite>, targets: Set<u32>) -> Seq<
        ReferenceSite,
    > {
        in_scan_order(self.scan_order, wanted(index, targets, index.len()))
    }

    /// The sites that refer to the given targets, in scan order. Without
    /// targets the code is not read at all.
    pub open spec fn sites_of(self, kind: ReferenceKind, targets: Set<u32>) -> Result<
        Seq<ReferenceSite>,
        Error,
    > {
        if targets == Set::<u32>::empty() {
            Ok(Seq::empty())
        } else {
            match self.index_of(kind) {
                Err(e) => Err(e),
                Ok(index) => Ok(self.chosen(index, targets)),
            }
        }
    }
}

// ---------------------------------------------------------------------------
// Scanning
// ---------------------------------------------------------------------------

/// Sorts sites by keys.
fn sort_sites(sites: &Vec<ReferenceSite>, keys: &Vec<Vec<u32>>) -> (r: Vec<ReferenceSite>)
    requires
        sites@.len() == keys@.len(),
    ensures
        r@ == picked(sites@, sort_order(lists(keys@), sites@.len())),
{
    let order = sorted_indices(keys);
    proof {
        lemma_sort_order(lists(keys@), keys@.len());
    }
    let ghost walk = positions(order@);
    let mut out: Vec<ReferenceSite> = Vec::new();
    let mut i: usize = 0;
    while i < order.len()
        invariant
            i <= order.len(),
            walk == positions(order@),
            walk.len() == sites@.len(),
            forall|j: int| 0 <= j < walk.len() ==> 0 <= #[trigger] walk[j] < sites@.len(),
            out.len() == i,
            forall|j: int| 0 <= j < i ==> #[trigger] out@[j] == sites@[walk[j]],
        decreases order.len() - i,
    {
        assert(walk[i as int] == order@[i as int]);
        out.push(sites[order[i]]);
        i += 1;
    }
    assert(out@ =~= picked(sites@, sort_order(lists(keys@), sites@.len())));
    out
}

/// Adds the sites of one code item to those found so far.
fn add_sites(
    kind: ReferenceKind,
    data: &[u8],
    span: CodeSpan,
    sites: &mut Vec<ReferenceSite>,
) -> (r: Result<(), Error>)
    requires
        span.insns_size <= u32::MAX,
    ensures
        match r {
            Ok(_) => span_sites(kind, data@, span, old(sites)@) == Ok::<
                Seq<ReferenceSite>,
                Error,
            >(final(sites)@),
            Err(e) => span_sites(kind, data@, span, old(sites)@) == Err::<
                Seq<ReferenceSite>,
                Error,
            >(e),
        },
{
    let ghost before = sites@;
    let bytes = bytes_at(data, span.insns_offset, span.insns_size * 2)?;
    let ghost units = units_of(bytes@);
    let mut pc: u64 = 0;
    while pc < span.insns_size
        invariant
            pc <= span.insns_size,
            span.insns_size <= u32::MAX,
            units == units_of(bytes@),
            units.len() == span.insns_size,
            before == old(sites)@,
            span_sites(kind, data@, span, before) == sites_from(
                kind,
                span.method_idx,
                units,
                pc as int,
                sites@,
            ),
        decreases span.insns_size - pc,
    {
        let unit: u16 = match unit_in_bytes(bytes, pc) {
            Some(unit) => unit,
            None => 0,
        };
        let opcode: u8 = (unit % 256) as u8;
        match reference_index(kind, opcode, bytes, pc) {
            Some(target) => sites.push(
                ReferenceSite {
                    caller_index: span.method_idx,
                    target_index: target,
                    code_unit_offset: pc as u32,
                },
            ),
            None => {},
        }
        let width: u64 = instruction_width_bytes(bytes, pc)?;
        if width == 0 || width > span.insns_size - pc {
            return Err(Error::InvalidWidthAt(pc));
        }
        pc += width;
    }
    Ok(())
}

/// Whether an ascending list holds a number.
fn holds(list: &[u32], x: u32) -> (r: bool)
    requires
        ascending(list@),
    ensures
        r == list@.contains(x),
{
    let mut low: usize = 0;
    let mut high: usize = list.len();
    while low < high
        invariant
            low <= high <= list.len(),
            ascending(list@),
            forall|i: int| 0 <= i < low ==> #[trigger] list@[i] < x,
            forall|i: int| high <= i < list@.len() ==> x < #[trigger] list@[i],
        decreases high - low,
    {
        let middle: usize = low + (high - low) / 2;
        if list[middle] == x {
            assert(list@[middle as int] == x);
            return true;
        }
        if list[middle] < x {
            low = middle + 1;
        } else {
            high = middle;
        }
    }
    false
}

impl Dex {
    /// Finds every site of a kind, by target, caller and offset.
    pub fn build_reference_index(&self, kind: ReferenceKind) -> (r: Result<
        Vec<ReferenceSite>,
        Error,
    >)
        ensures
            match r {
                Ok(v) => self@.index_of(kind) == Ok::<Seq<ReferenceSite>, Error>(v@),
                Err(e) => self@.index_of(kind) == Err::<Seq<ReferenceSite>, Error>(e),
            },
    {
        proof {
            use_type_invariant(self);
        }
        let ghost step = span_sites_step(kind, self@.tables.data, self@.code);
        let mut sites: Vec<ReferenceSite> = Vec::new();
        let mut i: usize = 0;
        while i < self.code_items.len()
            invariant
                i <= self.code_items.len(),
                step == span_sites_step(kind, self@.tables.data, self@.code),
                self@.indexed(),
                self@.all_sites(kind) == run(
                    step,
                    sites@,
                    i as int,
                    self@.code.len() as int,
                ),
            decreases self.code_items.len() - i,
        {
            let ghost outcome = step(sites@, i as int);
            assert(self@.code[i as int] == self.code_items@[i as int]);
            add_sites(kind, &self.data, self.code_items[i], &mut sites)?;
            assert(outcome == Ok::<Seq<ReferenceSite>, Error>(sites@));
            i += 1;
        }
        let mut keys: Vec<Vec<u32>> = Vec::new();
        let mut j: usize = 0;
        while j < sites.len()
            invariant
                j <= sites.len(),
                keys.len() == j,
                forall|k: int| 0 <= k < j ==> (#[trigger] keys@[k])@ == index_key(sites@[k]),
            decreases sites.len() - j,
        {
            let site = sites[j];
            let mut key: Vec<u32> = Vec::new();
            key.push(site.target_index);
            key.push(site.caller_index);
            key.push(site.code_unit_offset);
            assert(key@ =~= index_key(sites@[j as int]));
            keys.push(key);
            j += 1;
        }
        assert(lists(keys@) =~= index_keys(sites@));
        Ok(sort_sites(&sites, &keys))
    }

    /// Puts sites into scan order.
    fn order_sites(&self, sites: &Vec<ReferenceSite>) -> (r: Vec<ReferenceSite>)
        ensures
            r@ == in_scan_order(self@.scan_order, sites@),
    {
        let mut keys: Vec<Vec<u32>> = Vec::new();
        let mut j: usize = 0;
        while j < sites.len()
            invariant
                j <= sites.len(),
                keys.len() == j,
                forall|k: int|
                    0 <= k < j ==> (#[trigger] keys@[k])@ == scan_key(
                        self@.scan_order,
                        sites@[k],
                    ),
            decreases sites.len() - j,
        {
            let site = sites[j];
            let orders: usize = self.method_scan_order.len();
            let place: u32 = if (site.caller_index as u64) < orders as u64 {
                self.method_scan_order[site.caller_index as usize]
            } else {
                0xffff_ffff
            };
            let mut key: Vec<u32> = Vec::new();
            key.push(place);
            key.push(site.code_unit_offset);
            key.push(site.target_index);
            assert(key@ =~= scan_key(self@.scan_order, sites@[j as int]));
            keys.push(key);
            j += 1;
        }
        assert(lists(keys@) =~= scan_keys(self@.scan_order, sites@));
        sort_sites(sites, &keys)
    }

    /// The sites of an index that refer to the given targets, in scan order.
    pub fn select_sites(&self, index: &Vec<ReferenceSite>, targets: &[u32]) -> (r: Vec<
        ReferenceSite,
    >)
        requires
            ascending(targets@),
        ensures
            r@ == self@.chosen(index@, targets@.to_set()),
    {
        let ghost set = targets@.to_set();
        let mut kept: Vec<ReferenceSite> = Vec::new();
        let mut i: usize = 0;
        while i < index.len()
            invariant
                i <= index.len(),
                ascending(targets@),
                set == targets@.to_set(),
                kept@ == wanted(index@, set, i as nat),
            decreases index.len() - i,
        {
            if holds(targets, index[i].target_index) {
                kept.push(index[i]);
            }
            i += 1;
        }
        self.order_sites(&kept)
    }

    /// Finds the sites that refer to the given targets, which ascend.
    pub fn scan_reference_sites_sorted(&self, kind: ReferenceKind, targets: &[u32]) -> (r: Result<
        Vec<ReferenceSite>,
        Error,
    >)
        requires
            ascending(targets@),
        ensures
            match r {
                Ok(v) => self@.sites_of(kind, targets@.to_set()) == Ok::<
                    Seq<ReferenceSite>,
                    Error,
                >(v@),
                Err(e) => self@.sites_of(kind, targets@.to_set()) == Err::<
                    Seq<ReferenceSite>,
                    Error,
                >(e),
            },
    {
        if targets.len() == 0 {
            assert(targets@.to_set() =~= Set::<u32>::empty());
            return Ok(Vec::new());
        }
        assert(targets@.to_set().contains(targets@[0]));
        let index = self.build_reference_index(kind)?;
        Ok(self.select_sites(&index, targets))
    }

    /// Finds the sites that refer to the given targets.
    pub fn scan_reference_sites(&self, kind: ReferenceKind, targets: &HashSet<u32>) -> (r: Result<
        Vec<ReferenceSite>,
        Error,
    >)
        ensures
            match r {
                Ok(v) => self@.sites_of(kind, targets@) == Ok::<Seq<ReferenceSite>, Error>(v@),
                Err(e) => self@.sites_of(kind, targets@) == Err::<Seq<ReferenceSite>, Error>(e),
            },
    {
        if targets.is_empty() {
            assert(targets@ =~= Set::<u32>::empty());
            return Ok(Vec::new());
        }
        let index = self.build_reference_index(kind)?;
        let mut kept: Vec<ReferenceSite> = Vec::new();
        let mut i: usize = 0;
        while i < index.len()
            invariant
                i <= index.len(),
                kept@ == wanted(index@, targets@, i as nat),
            decreases index.len() - i,
        {
            if targets.contains(&index[i].target_index) {
                kept.push(index[i]);
            }
            i += 1;
        }
        Ok(self.order_sites(&kept))
    }

    /// Groups the sites that refer to the given targets: for each caller, the
    /// targets that it refers to.
    pub fn scan_references(&self, kind: ReferenceKind, targets: &HashSet<u32>) -> (r: Result<
        BTreeMap<u32, BTreeSet<u32>>,
        Error,
    >)
        ensures
            match r {
                Ok(m) => self@.sites_of(kind, targets@) matches Ok(sites) && grouped(
                    m@,
                    sites,
                    sites.len(),
                ),
                Err(e) => self@.sites_of(kind, targets@) == Err::<Seq<ReferenceSite>, Error>(e),
            },
    {
        let sites = self.scan_reference_sites(kind, targets)?;
        let mut groups: BTreeMap<u32, BTreeSet<u32>> = BTreeMap::new();
        let mut i: usize = 0;
        while i < sites.len()
            invariant
                i <= sites.len(),
                grouped(groups@, sites@, i as nat),
            decreases sites.len() - i,
        {
            let site = sites[i];
            let ghost before = groups@;
            let mut members: BTreeSet<u32> = match groups.remove(&site.caller_index) {
                Some(members) => members,
                None => BTreeSet::new(),
            };
            let ghost known = members@;
            members.insert(site.target_index);
            groups.insert(site.caller_index, members);
            proof {
                lemma_grouped_step(before, groups@, known, sites@, i as nat);
            }
            i += 1;
        }
        Ok(groups)
    }
}

/// Whether one of the first `n` sites has the given caller and target.
pub open spec fn refers(sites: Seq<ReferenceSite>, n: nat, caller: u32, target: u32) -> bool {
    exists|i: int|
        0 <= i < n && (#[trigger] sites[i]).caller_index == caller && sites[i].target_index
            == target
}

/// Whether a map holds, for each caller of the first `n` sites and no other,
/// exactly the targets that it refers to.
pub open spec fn grouped(m: Map<u32, BTreeSet<u32>>, sites: Seq<ReferenceSite>, n: nat) -> bool {
    &&& forall|caller: u32| #[trigger]
        m.contains_key(caller) <==> exists|i: int|
            0 <= i < n && (#[trigger] sites[i]).caller_index == caller
    &&& forall|caller: u32, target: u32|
        m.contains_key(caller) ==> (#[trigger] m[caller]@.contains(target) <==> refers(
            sites,
            n,
            caller,
            target,
        ))
}

proof fn lemma_grouped_step(
    before: Map<u32, BTreeSet<u32>>,
    after: Map<u32, BTreeSet<u32>>,
    known: Set<u32>,
    sites: Seq<ReferenceSite>,
    n: nat,
)
    requires
        n < sites.len(),
        grouped(before, sites, n),
        ({
            let site = sites[n as int];
            &&& known == (if before.contains_key(site.caller_index) {
                before[site.caller_index]@
            } else {
                Set::<u32>::empty()
            })
            &&& after.contains_key(site.caller_index)
            &&& after[site.caller_index]@ == known.insert(site.target_index)
            &&& forall|c: u32|
                c != site.caller_index ==> (#[trigger] after.contains_key(c)
                    <==> before.contains_key(c)) && after[c] == before[c]
        }),
    ensures
        grouped(after, sites, n + 1),
{
    let site = sites[n as int];
    assert forall|caller: u32| #[trigger] after.contains_key(caller) <==> exists|i: int|
        0 <= i < n + 1 && (#[trigger] sites[i]).caller_index == caller by {
        if caller == site.caller_index {
            assert(sites[n as int].caller_index == caller);
        } else if after.contains_key(caller) {
            assert(before.contains_key(caller));
            let i = choose|i: int| 0 <= i < n && (#[trigger] sites[i]).caller_index == caller;
            assert(sites[i].caller_index == caller);
        } else {
            assert(!before.contains_key(caller));
        }
    }
    assert forall|caller: u32, target: u32| after.contains_key(caller) implies (
    #[trigger] after[caller]@.contains(target) <==> refers(sites, n + 1, caller, target)) by {
        if caller == site.caller_index {
            if target == site.target_index {
                assert(sites[n as int].target_index == target);
            } else {
                if before.contains_key(caller) {
                    assert(before[caller]@.contains(target) <==> refers(sites, n, caller, target));
                }
                if refers(sites, n + 1, caller, target) {
                    let i = choose|i: int|
                        0 <= i < n + 1 && (#[trigger] sites[i]).caller_index == caller
                            && sites[i].target_index == target;
                    assert(i < n);
                    assert(before.contains_key(caller));
                    assert(refers(sites, n, caller, target));
                }
                if refers(sites, n, caller, target) {
                    let i = choose|i: int|
                        0 <= i < n && (#[trigger] sites[i]).caller_index == caller
                            && sites[i].target_index == target;
                    assert(refers(sites, n + 1, caller, target));
                }
            }
        } else {
            assert(before.contains_key(caller));
            assert(before[caller]@.contains(target) <==> refers(sites, n, caller, target));
            if refers(sites, n + 1, caller, target) {
                let i = choose|i: int|
                    0 <= i < n + 1 && (#[trigger] sites[i]).caller_index == caller
                        && sites[i].target_index == target;
                assert(i < n);
            }
        }
    }
}

// ---------------------------------------------------------------------------
// Laws
// ---------------------------------------------------------------------------

/// Picking by a sort order keeps every item and adds none.
pub proof fn lemma_picked_members<T>(items: Seq<T>, keys: Seq<Seq<u32>>)
    requires
        keys.len() == items.len(),
    ensures
        picked(items, sort_order(keys, items.len())).len() == items.len(),
        forall|x: T| #[trigger]
            picked(items, sort_order(keys, items.len())).contains(x) <==> items.contains(x),
{
    let order = sort_order(keys, items.len());
    let out = picked(items, order);
    lemma_sort_order(keys, items.len());
    assert forall|x: T| #[trigger] out.contains(x) <==> items.contains(x) by {
        if out.contains(x) {
            let i = choose|i: int| 0 <= i < out.len() && out[i] == x;
            assert(items[order[i]] == x);
        }
        if items.contains(x) {
            let i = choose|i: int| 0 <= i < items.len() && items[i] == x;
            assert(order.contains(i));
            let j = choose|j: int| 0 <= j < order.len() && order[j] == i;
            assert(out[j] == x);
        }
    }
}

/// What is wanted of the first `n` sites are those with a wanted target.
pub proof fn lemma_wanted_members(sites: Seq<ReferenceSite>, targets: Set<u32>, n: nat)
    requires
        n <= sites.len(),
    ensures
        forall|x: ReferenceSite| #[trigger]
            wanted(sites, targets, n).contains(x) <==> sites.take(n as int).contains(x)
                && targets.contains(x.target_index),
    decreases n,
{
    if n > 0 {
        lemma_wanted_members(sites, targets, (n - 1) as nat);
        let before = wanted(sites, targets, (n - 1) as nat);
        let now = wanted(sites, targets, n);
        assert forall|x: ReferenceSite| #[trigger] now.contains(x) <==> sites.take(
            n as int,
        ).contains(x) && targets.contains(x.target_index) by {
            let head = sites.take(n - 1);
            let all = sites.take(n as int);
            assert(before.contains(x) <==> head.contains(x) && targets.contains(x.target_index));
            if now.contains(x) {
                let i = choose|i: int| 0 <= i < now.len() && now[i] == x;
                if i < before.len() {
                    assert(before[i] == x);
                    let j = choose|j: int| 0 <= j < head.len() && head[j] == x;
                    assert(all[j] == x);
                } else {
                    assert(all[n - 1] == x);
                }
            }
            if all.contains(x) && targets.contains(x.target_index) {
                let j = choose|j: int| 0 <= j < all.len() && all[j] == x;
                if j < n - 1 {
                    assert(head[j] == x);
                    let i = choose|i: int| 0 <= i < before.len() && before[i] == x;
                    assert(now[i] == x);
                } else {
                    assert(now[before.len() as int] == x);
                }
            }
        }
    }
}

/// A scan finds exactly the sites of the code whose target is wanted, and it
/// lists them in the order of their callers' code, offsets and targets.
pub proof fn lemma_scan(d: DexContents, kind: ReferenceKind, targets: Set<u32>)
    requires
        d.all_sites(kind) is Ok,
    ensures
        d.sites_of(kind, targets) is Ok,
        forall|x: ReferenceSite| #[trigger]
            d.sites_of(kind, targets)->Ok_0.contains(x) <==> d.all_sites(kind)->Ok_0.contains(x)
                && targets.contains(x.target_index),
        forall|i: int, j: int|
            #![trigger d.sites_of(kind, targets)->Ok_0[i], d.sites_of(kind, targets)->Ok_0[j]]
            0 <= i < j < d.sites_of(kind, targets)->Ok_0.len() ==> {
                let a = scan_key(d.scan_order, d.sites_of(kind, targets)->Ok_0[i]);
                let b = scan_key(d.scan_order, d.sites_of(kind, targets)->Ok_0[j]);
                lex_less(a, b) || a == b
            },
{
    let all = d.all_sites(kind)->Ok_0;
    if targets != Set::<u32>::empty() {
        let index = d.index_of(kind)->Ok_0;
        let kept = wanted(index, targets, index.len());
        let found = d.sites_of(kind, targets)->Ok_0;
        lemma_picked_members(all, index_keys(all));
        lemma_wanted_members(index, targets, index.len());
        assert(index.take(index.len() as int) =~= index);
        lemma_picked_members(kept, scan_keys(d.scan_order, kept));
        assert forall|x: ReferenceSite| #[trigger] found.contains(x) <==> all.contains(x)
            && targets.contains(x.target_index) by {
            assert(found.contains(x) <==> kept.contains(x));
            assert(kept.contains(x) <==> index.contains(x) && targets.contains(x.target_index));
            assert(index.contains(x) <==> all.contains(x));
        }
        let keys = scan_keys(d.scan_order, kept);
        let order = sort_order(keys, kept.len());
        lemma_sort_order(keys, kept.len());
        assert forall|i: int, j: int|
            #![trigger found[i], found[j]]
            0 <= i < j < found.len() implies {
            let a = scan_key(d.scan_order, found[i]);
            let b = scan_key(d.scan_order, found[j]);
            lex_less(a, b) || a == b
        } by {
            assert(found[i] == kept[order[i]]);
            assert(found[j] == kept[order[j]]);
            assert(lex_less(keys[order[i]], keys[order[j]]) || keys[order[i]] == keys[order[j]]);
        }
    } else {
        assert forall|x: ReferenceSite| !(#[trigger] d.sites_of(kind, targets)->Ok_0.contains(x)) by {
        }
    }
}

} // verus!
