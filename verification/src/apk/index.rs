//! Where classes were found, and in which order DEX files are probed.
use std::collections::HashSet;
use vstd::hash_map::StringHashMap;
use vstd::prelude::*;

use crate::apk::{DexInfo, DexMeta};
use crate::collections::views;
use crate::order::{
    lemma_sort_order, less_from, lex_less, lists, positions, sort_order, sorted_indices,
};
use crate::text::texts;

verus! {

broadcast use vstd::std_specs::hash::group_hash_axioms;

/// Which DEX entry defines each class that is known, and which entries have
/// been listed in full.
pub struct ClassIndex {
    by_descriptor: StringHashMap<usize>,
    indexed_dexes: HashSet<usize>,
}

/// The known classes and the listed entries.
#[verifier::ext_equal]
pub struct KnownClasses {
    pub places: Map<Seq<char>, usize>,
    pub listed: Set<usize>,
}

impl View for ClassIndex {
    type V = KnownClasses;

    closed spec fn view(&self) -> KnownClasses {
        KnownClasses { places: self.by_descriptor@, listed: self.indexed_dexes@ }
    }
}

/// A place for a class that has none yet.
pub open spec fn with_place(
    places: Map<Seq<char>, usize>,
    descriptor: Seq<char>,
    dex: usize,
) -> Map<Seq<char>, usize> {
    if places.contains_key(descriptor) {
        places
    } else {
        places.insert(descriptor, dex)
    }
}

/// Places for the first `n` of several classes.
pub open spec fn with_places(
    places: Map<Seq<char>, usize>,
    descriptors: Seq<Seq<char>>,
    dex: usize,
    n: nat,
) -> Map<Seq<char>, usize>
    decreases n,
{
    if n == 0 {
        places
    } else {
        with_place(
            with_places(places, descriptors, dex, (n - 1) as nat),
            descriptors[n - 1],
            dex,
        )
    }
}

/// A class that has a place keeps it.
pub proof fn lemma_first_place_wins(
    places: Map<Seq<char>, usize>,
    descriptors: Seq<Seq<char>>,
    dex: usize,
    n: nat,
    descriptor: Seq<char>,
)
    requires
        places.contains_key(descriptor),
    ensures
        with_places(places, descriptors, dex, n).contains_key(descriptor),
        with_places(places, descriptors, dex, n)[descriptor] == places[descriptor],
    decreases n,
{
    if n > 0 {
        lemma_first_place_wins(places, descriptors, dex, (n - 1) as nat, descriptor);
    }
}

/// After an entry was listed, each of its classes has a place: this entry, or
/// the one that had it before.
pub proof fn lemma_listed_classes_known(
    places: Map<Seq<char>, usize>,
    descriptors: Seq<Seq<char>>,
    dex: usize,
    n: nat,
    i: int,
)
    requires
        0 <= i < n <= descriptors.len(),
    ensures
        with_places(places, descriptors, dex, n).contains_key(descriptors[i]),
        with_places(places, descriptors, dex, n)[descriptors[i]] == (if places.contains_key(
            descriptors[i],
        ) {
            places[descriptors[i]]
        } else {
            dex
        }),
    decreases n,
{
    let d = descriptors[i];
    if places.contains_key(d) {
        lemma_first_place_wins(places, descriptors, dex, n, d);
    } else {
        lemma_only_new_place(places, descriptors, dex, n, d);
        if i < n - 1 {
            lemma_listed_classes_known(places, descriptors, dex, (n - 1) as nat, i);
        }
    }
}

proof fn lemma_only_new_place(
    places: Map<Seq<char>, usize>,
    descriptors: Seq<Seq<char>>,
    dex: usize,
    n: nat,
    descriptor: Seq<char>,
)
    requires
        !places.contains_key(descriptor),
    ensures
        with_places(places, descriptors, dex, n).contains_key(descriptor) ==> with_places(
            places,
            descriptors,
            dex,
            n,
        )[descriptor] == dex,
    decreases n,
{
    if n > 0 {
        lemma_only_new_place(places, descriptors, dex, (n - 1) as nat, descriptor);
    }
}

impl ClassIndex {
    pub fn new() -> (r: ClassIndex)
        ensures
            r@ == (KnownClasses { places: Map::empty(), listed: Set::empty() }),
    {
        ClassIndex { by_descriptor: StringHashMap::new(), indexed_dexes: HashSet::new() }
    }

    /// The entry that is known to define a class.
    pub fn location(&self, descriptor: &str) -> (r: Option<usize>)
        ensures
            r == if self@.places.contains_key(descriptor@) {
                Some(self@.places[descriptor@])
            } else {
                None
            },
    {
        match self.by_descriptor.get(descriptor) {
            Some(dex) => Some(*dex),
            None => None,
        }
    }

    /// Whether an entry has been listed in full.
    pub fn is_indexed(&self, dex: usize) -> (r: bool)
        ensures
            r == self@.listed.contains(dex),
    {
        self.indexed_dexes.contains(&dex)
    }

    /// Remembers where a class was found, unless it has a place already.
    pub fn record(&mut self, descriptor: &str, dex: usize)
        ensures
            final(self)@ == (KnownClasses {
                places: with_place(old(self)@.places, descriptor@, dex),
                listed: old(self)@.listed,
            }),
    {
        if !self.by_descriptor.contains_key(descriptor) {
            self.by_descriptor.insert(descriptor.to_owned(), dex);
        }
    }

    /// Remembers every class of an entry.
    pub fn add_dex(&mut self, dex: usize, descriptors: &Vec<String>)
        ensures
            final(self)@ == (KnownClasses {
                places: with_places(
                    old(self)@.places,
                    texts(descriptors@),
                    dex,
                    descriptors@.len(),
                ),
                listed: old(self)@.listed.insert(dex),
            }),
    {
        let ghost before = self@;
        let mut i: usize = 0;
        while i < descriptors.len()
            invariant
                i <= descriptors.len(),
                before == old(self)@,
                self@ == (KnownClasses {
                    places: with_places(before.places, texts(descriptors@), dex, i as nat),
                    listed: before.listed,
                }),
            decreases descriptors.len() - i,
        {
            assert(texts(descriptors@)[i as int] == descriptors@[i as int]@);
            self.record(descriptors[i].as_str(), dex);
            i += 1;
        }
        self.indexed_dexes.insert(dex);
    }
}

/// The first place from `i` on in `order` whose entry is not listed yet.
pub open spec fn next_from(order: Seq<usize>, listed: Set<usize>, i: int) -> Option<int>
    decreases order.len() - i,
{
    if i >= order.len() {
        None
    } else if !listed.contains(order[i]) {
        Some(i)
    } else {
        next_from(order, listed, i + 1)
    }
}

impl ClassIndex {
    /// The next place in `order`, from `from` on, whose entry has to be
    /// probed: one that was listed in full is known not to define the class.
    pub fn next_probe(&self, order: &Vec<usize>, from: usize) -> (r: Option<usize>)
        ensures
            match r {
                Some(i) => next_from(order@, self@.listed, from as int) == Some(i as int) && from
                    <= i < order@.len(),
                None => next_from(order@, self@.listed, from as int) is None,
            },
    {
        let mut i: usize = from;
        while i < order.len()
            invariant
                from <= i,
                next_from(order@, self@.listed, from as int) == next_from(
                    order@,
                    self@.listed,
                    i as int,
                ),
            decreases order.len() - i,
        {
            if !self.is_indexed(order[i]) {
                return Some(i);
            }
            i += 1;
        }
        None
    }
}

// ---------------------------------------------------------------------------
// Looking a class up
// ---------------------------------------------------------------------------

/// What a walk over the places from `i` on finds: at each place that
/// `next_from` gives, the entry is probed, and the first that defines the class
/// is taken.
pub open spec fn found_from(
    order: Seq<usize>,
    listed: Set<usize>,
    defines: Set<usize>,
    i: int,
) -> Option<usize>
    decreases order.len() - i,
{
    match next_from(order, listed, i) {
        None => None,
        Some(p) => if p < i || p >= order.len() {
            None
        } else if defines.contains(order[p]) {
            Some(order[p])
        } else {
            found_from(order, listed, defines, p + 1)
        },
    }
}

proof fn lemma_next_from(order: Seq<usize>, listed: Set<usize>, i: int)
    requires
        0 <= i,
    ensures
        match next_from(order, listed, i) {
            Some(p) => i <= p < order.len() && !listed.contains(order[p]) && forall|k: int|
                i <= k < p ==> listed.contains(#[trigger] order[k]),
            None => forall|k: int| i <= k < order.len() ==> listed.contains(#[trigger] order[k]),
        },
    decreases order.len() - i,
{
    if i < order.len() && listed.contains(order[i]) {
        lemma_next_from(order, listed, i + 1);
    }
}

/// A walk finds an entry that defines the class, the first in order that has
/// not been listed; it finds nothing only where there is none.
pub proof fn lemma_walk_complete(
    order: Seq<usize>,
    listed: Set<usize>,
    defines: Set<usize>,
    i: int,
)
    requires
        0 <= i,
    ensures
        match found_from(order, listed, defines, i) {
            Some(dex) => defines.contains(dex) && !listed.contains(dex) && exists|p: int|
                i <= p < order.len() && #[trigger] order[p] == dex && forall|k: int|
                    i <= k < p && defines.contains(#[trigger] order[k]) ==> listed.contains(
                        order[k],
                    ),
            None => forall|k: int|
                i <= k < order.len() && defines.contains(#[trigger] order[k]) ==> listed.contains(
                    order[k],
                ),
        },
    decreases order.len() - i,
{
    lemma_next_from(order, listed, i);
    if let Some(p) = next_from(order, listed, i) {
        if !defines.contains(order[p]) {
            lemma_walk_complete(order, listed, defines, p + 1);
        } else {
            assert(order[p] == order[p]);
        }
    }
}

/// What is known is true of the classes of a package: every known place
/// defines its class, and every class of a listed entry is known.
pub open spec fn true_of(known: KnownClasses, classes: Map<usize, Set<Seq<char>>>) -> bool {
    &&& forall|c: Seq<char>| #[trigger]
        known.places.contains_key(c) ==> classes.contains_key(known.places[c])
            && classes[known.places[c]].contains(c)
    &&& forall|dex: usize, c: Seq<char>|
        known.listed.contains(dex) && classes.contains_key(dex) && #[trigger] classes[dex].contains(
            c,
        ) ==> known.places.contains_key(c)
}

/// Nothing is known at first, which is true of every package.
pub proof fn lemma_nothing_known(classes: Map<usize, Set<Seq<char>>>)
    ensures
        true_of(KnownClasses { places: Map::empty(), listed: Set::empty() }, classes),
{
}

/// Remembering an entry for a class that it defines keeps what is known true.
pub proof fn lemma_recorded_true(
    known: KnownClasses,
    classes: Map<usize, Set<Seq<char>>>,
    descriptor: Seq<char>,
    dex: usize,
)
    requires
        true_of(known, classes),
        classes.contains_key(dex),
        classes[dex].contains(descriptor),
    ensures
        true_of(
            KnownClasses {
                places: with_place(known.places, descriptor, dex),
                listed: known.listed,
            },
            classes,
        ),
{
}

/// Listing an entry in full keeps what is known true.
pub proof fn lemma_listed_true(
    known: KnownClasses,
    classes: Map<usize, Set<Seq<char>>>,
    descriptors: Seq<Seq<char>>,
    dex: usize,
)
    requires
        true_of(known, classes),
        classes.contains_key(dex),
        forall|c: Seq<char>| #[trigger] classes[dex].contains(c) <==> descriptors.contains(c),
    ensures
        true_of(
            KnownClasses {
                places: with_places(known.places, descriptors, dex, descriptors.len()),
                listed: known.listed.insert(dex),
            },
            classes,
        ),
{
    let n = descriptors.len();
    let places = with_places(known.places, descriptors, dex, n);
    lemma_places_true(known, classes, descriptors, dex, n);
    assert forall|d: usize, c: Seq<char>|
        known.listed.insert(dex).contains(d) && classes.contains_key(d)
            && #[trigger] classes[d].contains(c) implies places.contains_key(c) by {
        if d == dex {
            let i = choose|i: int| 0 <= i < n && descriptors[i] == c;
            lemma_listed_classes_known(known.places, descriptors, dex, n, i);
        } else {
            lemma_first_place_wins(known.places, descriptors, dex, n, c);
        }
    }
}

proof fn lemma_places_true(
    known: KnownClasses,
    classes: Map<usize, Set<Seq<char>>>,
    descriptors: Seq<Seq<char>>,
    dex: usize,
    n: nat,
)
    requires
        true_of(known, classes),
        classes.contains_key(dex),
        forall|c: Seq<char>| #[trigger] classes[dex].contains(c) <==> descriptors.contains(c),
        n <= descriptors.len(),
    ensures
        forall|c: Seq<char>| #[trigger]
            with_places(known.places, descriptors, dex, n).contains_key(c) ==> classes.contains_key(
                with_places(known.places, descriptors, dex, n)[c],
            ) && classes[with_places(known.places, descriptors, dex, n)[c]].contains(c),
    decreases n,
{
    if n > 0 {
        lemma_places_true(known, classes, descriptors, dex, (n - 1) as nat);
        assert(descriptors.contains(descriptors[n - 1]));
        assert(classes[dex].contains(descriptors[n - 1]));
        let before = with_places(known.places, descriptors, dex, (n - 1) as nat);
        let places = with_places(known.places, descriptors, dex, n);
        assert forall|c: Seq<char>| #[trigger] places.contains_key(c) implies classes.contains_key(
            places[c],
        ) && classes[places[c]].contains(c) by {
            if c != descriptors[n - 1] || before.contains_key(c) {
                assert(before.contains_key(c));
                assert(places[c] == before[c]);
            }
        }
    }
}

/// A class that is not known and that no probed entry defines is defined by no
/// entry at all.
pub proof fn lemma_missing_nowhere(
    known: KnownClasses,
    classes: Map<usize, Set<Seq<char>>>,
    order: Seq<usize>,
    descriptor: Seq<char>,
    defines: Set<usize>,
)
    requires
        true_of(known, classes),
        !known.places.contains_key(descriptor),
        forall|dex: usize| #[trigger]
            defines.contains(dex) <==> classes.contains_key(dex) && classes[dex].contains(
                descriptor,
            ),
        forall|dex: usize| #[trigger] classes.contains_key(dex) ==> order.contains(dex),
        found_from(order, known.listed, defines, 0) is None,
    ensures
        forall|dex: usize| #[trigger]
            classes.contains_key(dex) ==> !classes[dex].contains(descriptor),
{
    lemma_walk_complete(order, known.listed, defines, 0);
    assert forall|dex: usize| #[trigger] classes.contains_key(dex) implies !classes[dex].contains(
        descriptor,
    ) by {
        if classes[dex].contains(descriptor) {
            assert(defines.contains(dex));
            let k = choose|k: int| 0 <= k < order.len() && order[k] == dex;
            assert(defines.contains(order[k]));
            assert(known.listed.contains(dex));
        }
    }
}

// ---------------------------------------------------------------------------
// Probing order
// ---------------------------------------------------------------------------

/// A size as a sort key.
pub open spec fn size_key(size: u64) -> Seq<u32> {
    seq![(size / 0x1_0000_0000) as u32, (size % 0x1_0000_0000) as u32]
}

pub open spec fn size_keys(dexes: Seq<DexMeta>) -> Seq<Seq<u32>> {
    dexes.map_values(|d: DexMeta| size_key(d.compressed_size))
}

/// The entries in the order in which they are probed for a class: small ones
/// first, and equal ones as they are listed.
pub fn probe_order(dexes: &Vec<DexInfo>) -> (r: Vec<usize>)
    ensures
        positions(r@) == sort_order(size_keys(views(dexes@)), dexes@.len()),
{
    let mut keys: Vec<Vec<u32>> = Vec::new();
    let mut j: usize = 0;
    while j < dexes.len()
        invariant
            j <= dexes.len(),
            keys.len() == j,
            forall|k: int|
                0 <= k < j ==> (#[trigger] keys@[k])@ == size_key(dexes@[k].compressed_size),
        decreases dexes.len() - j,
    {
        let size: u64 = dexes[j].compressed_size;
        let mut key: Vec<u32> = Vec::new();
        key.push((size / 0x1_0000_0000) as u32);
        key.push((size % 0x1_0000_0000) as u32);
        assert(key@ =~= size_key(size));
        keys.push(key);
        j += 1;
    }
    assert(lists(keys@) =~= size_keys(views(dexes@)));
    sorted_indices(&keys)
}

/// Entries are probed by ascending compressed size, each of them once.
pub proof fn lemma_probe_order(dexes: Seq<DexMeta>)
    ensures
        sort_order(size_keys(dexes), dexes.len()).len() == dexes.len(),
        sort_order(size_keys(dexes), dexes.len()).no_duplicates(),
        forall|i: int, j: int|
            #![trigger sort_order(size_keys(dexes), dexes.len())[i], sort_order(size_keys(dexes), dexes.len())[j]]
            0 <= i < j < dexes.len() ==> dexes[sort_order(
                size_keys(dexes),
                dexes.len(),
            )[i]].compressed_size <= dexes[sort_order(
                size_keys(dexes),
                dexes.len(),
            )[j]].compressed_size,
{
    let keys = size_keys(dexes);
    let order = sort_order(keys, dexes.len());
    lemma_sort_order(keys, dexes.len());
    assert forall|i: int, j: int|
        #![trigger order[i], order[j]]
        0 <= i < j < dexes.len() implies dexes[order[i]].compressed_size
        <= dexes[order[j]].compressed_size by {
        let a = dexes[order[i]].compressed_size;
        let b = dexes[order[j]].compressed_size;
        assert(keys[order[i]] == size_key(a) && keys[order[j]] == size_key(b));
        assert(size_key(a)[0] == a / 0x1_0000_0000 && size_key(a)[1] == a % 0x1_0000_0000);
        assert(size_key(b)[0] == b / 0x1_0000_0000 && size_key(b)[1] == b % 0x1_0000_0000);
        if lex_less(size_key(a), size_key(b)) {
            reveal_with_fuel(less_from, 3);
        }
    }
}

} // verus!
