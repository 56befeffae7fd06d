//! What the listings of a package are for.
use vstd::prelude::*;

use crate::apk::{
    by_name, class_place, classes_from, dex_listing, dex_position, entry_classes, is_root_name,
    locate_from, name_key, name_keys, ordinal, ordinal_keys, placed, range_of, root_entries,
    stem_of, workers_for, ClassPlace, DexMeta, EntryMeta,
};
use crate::collections::kept::{
    keeps, lemma_keeps_nothing, lemma_keeps_push, lemma_kept_members, moved_by,
};
use crate::dex::probe::{class_texts_in, defines_class_in};
use crate::dex_container::{logical_in, Logical};
use crate::error::Error;
use crate::order::{lemma_sort_order, less_from, lex_less, sort_order};
use crate::render::callers::{lemma_text_before, text_before};
use crate::render::scalars;
use crate::text::reading::{lemma_number_read, lemma_parsed_back};
use crate::text::{all_digits, decimal, ends_with, is_digit, starts_with};

verus! {

// ---------------------------------------------------------------------------
// Names of DEX entries
// ---------------------------------------------------------------------------

/// The name of a DEX entry with the given digits in it.
pub open spec fn dex_name(digits: Seq<char>) -> Seq<char> {
    seq!['c', 'l', 'a', 's', 's', 'e', 's'] + digits + seq!['.', 'd', 'e', 'x']
}

/// Whether every character is a decimal digit.
pub open spec fn only_digits(s: Seq<char>) -> bool {
    forall|i: int| 0 <= i < s.len() ==> '0' <= #[trigger] s[i] && s[i] <= '9'
}

proof fn lemma_digit_range(c: char)
    ensures
        is_digit(c) <==> '0' <= c && c <= '9',
{
}

proof fn lemma_only_digits(s: Seq<char>)
    ensures
        only_digits(s) <==> all_digits(s),
{
    if only_digits(s) {
        assert forall|i: int| 0 <= i < s.len() implies is_digit(#[trigger] s[i]) by {
            lemma_digit_range(s[i]);
        }
    }
    if all_digits(s) {
        assert forall|i: int| 0 <= i < s.len() implies '0' <= #[trigger] s[i] && s[i] <= '9' by {
            lemma_digit_range(s[i]);
        }
    }
}

proof fn lemma_name_parts(digits: Seq<char>)
    ensures
        ({
            let name = dex_name(digits);
            &&& ends_with(name, ".dex"@)
            &&& name.take(name.len() - 4) == "classes"@ + digits
            &&& starts_with("classes"@ + digits, "classes"@)
            &&& ("classes"@ + digits).skip(7) == digits
            &&& stem_of(name) == "classes"@ + digits
        }),
{
    reveal_strlit(".dex");
    reveal_strlit("classes");
    let name = dex_name(digits);
    assert("classes"@ =~= seq!['c', 'l', 'a', 's', 's', 'e', 's']);
    assert(".dex"@ =~= seq!['.', 'd', 'e', 'x']);
    assert(name.subrange(name.len() - 4, name.len() as int) =~= ".dex"@);
    assert(name.take(name.len() - 4) =~= "classes"@ + digits);
    assert(("classes"@ + digits).subrange(0, 7) =~= "classes"@);
    assert(("classes"@ + digits).skip(7) =~= digits);
}

/// The DEX files at the root of a package are `classes.dex` and those with
/// decimal digits behind `classes`, and no other entry is one.
pub proof fn lemma_root_names(name: Seq<char>)
    ensures
        is_root_name(name) <==> exists|digits: Seq<char>|
            only_digits(digits) && name == #[trigger] dex_name(digits),
{
    reveal_strlit(".dex");
    reveal_strlit("classes");
    if is_root_name(name) {
        let stem = name.take(name.len() - 4);
        let digits = stem.skip(7);
        lemma_only_digits(digits);
        assert("classes"@ =~= seq!['c', 'l', 'a', 's', 's', 'e', 's']);
        assert(".dex"@ =~= seq!['.', 'd', 'e', 'x']);
        assert(stem =~= "classes"@ + digits) by {
            assert(stem.subrange(0, 7) == "classes"@);
            assert forall|i: int| 0 <= i < 7 implies stem[i] == "classes"@[i] by {
                assert(stem.subrange(0, 7)[i] == stem[i]);
            }
        }
        assert(name =~= stem + ".dex"@) by {
            assert(name.subrange(name.len() - 4, name.len() as int) == ".dex"@);
            assert forall|i: int| 0 <= i < 4 implies name[name.len() - 4 + i] == ".dex"@[i] by {
                assert(name.subrange(name.len() - 4, name.len() as int)[i] == name[name.len() - 4
                    + i]);
            }
        }
        assert(name =~= dex_name(digits));
    }
    if exists|digits: Seq<char>| only_digits(digits) && name == #[trigger] dex_name(digits) {
        let digits = choose|digits: Seq<char>|
            only_digits(digits) && name == #[trigger] dex_name(digits);
        lemma_name_parts(digits);
        lemma_only_digits(digits);
        assert forall|i: int| 0 <= i < name.len() implies name[i] != '/' && name[i] != '\\' by {
            if 7 <= i < 7 + digits.len() {
                assert(name[i] == digits[i - 7]);
            } else if i < 7 {
                assert(name[i] == seq!['c', 'l', 'a', 's', 's', 'e', 's'][i]);
            } else {
                assert(name[i] == seq!['.', 'd', 'e', 'x'][i - 7 - digits.len()]);
            }
        }
    }
}

/// The first DEX entry has no number and counts as one; any other has the place
/// that its number says.
pub proof fn lemma_ordinals(n: u32)
    ensures
        ordinal(dex_name(Seq::empty())) == 1,
        ordinal(dex_name(decimal(n as nat))) == n,
{
    reveal_strlit("classes");
    let none = Seq::<char>::empty();
    lemma_name_parts(none);
    assert("classes"@ + none =~= "classes"@);
    lemma_name_parts(decimal(n as nat));
    lemma_parsed_back(n);
    lemma_number_read(n as nat, 10);
}

// ---------------------------------------------------------------------------
// Listings
// ---------------------------------------------------------------------------

proof fn lemma_roots_kept(entries: Seq<DexMeta>, n: nat)
    requires
        n <= entries.len(),
    ensures
        keeps(
            entries.take(n as int),
            root_entries(entries, n),
            |e: DexMeta| is_root_name(e.name),
        ),
    decreases n,
{
    let test = |e: DexMeta| is_root_name(e.name);
    if n == 0 {
        lemma_keeps_nothing(test);
        assert(entries.take(0) =~= Seq::<DexMeta>::empty());
    } else {
        lemma_roots_kept(entries, (n - 1) as nat);
        lemma_keeps_push(
            entries.take(n - 1),
            root_entries(entries, (n - 1) as nat),
            test,
            entries[n - 1],
        );
        assert(entries.take(n as int) =~= entries.take(n - 1).push(entries[n - 1]));
    }
}

/// Whether `list` holds `roots` by ascending number, with those of equal number
/// in the order in which they stood.
pub open spec fn listed_by_number(roots: Seq<DexMeta>, list: Seq<DexMeta>, at: Seq<int>) -> bool {
    &&& moved_by(roots, list, at)
    &&& forall|i: int, j: int|
        #![trigger at[i], at[j]]
        0 <= i < j < at.len() ==> ordinal(list[i].name) < ordinal(list[j].name) || (ordinal(
            list[i].name,
        ) == ordinal(list[j].name) && at[i] < at[j])
}

/// A package is listed with its root DEX files, all of them and nothing else,
/// by ascending number; without any there is nothing to work on.
pub proof fn lemma_root_listing(entries: Seq<DexMeta>)
    ensures
        dex_listing(entries) is Err <==> forall|i: int|
            0 <= i < entries.len() ==> !is_root_name((#[trigger] entries[i]).name),
        dex_listing(entries) matches Err(e) ==> e == Error::NoRootDex,
        dex_listing(entries) matches Ok(list) ==> exists|roots: Seq<DexMeta>, at: Seq<int>|
            keeps(entries, roots, |e: DexMeta| is_root_name(e.name))
                && #[trigger] listed_by_number(roots, list, at),
{
    let n = entries.len();
    let roots = root_entries(entries, n);
    let test = |e: DexMeta| is_root_name(e.name);
    lemma_roots_kept(entries, n);
    assert(entries.take(n as int) =~= entries);
    lemma_kept_members(entries, roots, test);
    if roots.len() == 0 {
        assert forall|i: int| 0 <= i < entries.len() implies !is_root_name(
            (#[trigger] entries[i]).name,
        ) by {
            if test(entries[i]) {
                assert(entries.contains(entries[i]));
                assert(roots.contains(entries[i]));
            }
        }
    } else {
        assert(roots.contains(roots[0]));
        let k = choose|k: int| 0 <= k < entries.len() && entries[k] == roots[0];
        assert(test(entries[k]));
        let keys = ordinal_keys(roots);
        let at = sort_order(keys, roots.len());
        let list = dex_listing(entries)->Ok_0;
        lemma_sort_order(keys, roots.len());
        assert forall|i: int, j: int| #![trigger at[i], at[j]] 0 <= i < j < at.len() implies ordinal(
            list[i].name,
        ) < ordinal(list[j].name) || (ordinal(list[i].name) == ordinal(list[j].name) && at[i]
            < at[j]) by {
            let x = keys[at[i]];
            let y = keys[at[j]];
            assert(x == seq![ordinal(list[i].name)]);
            assert(y == seq![ordinal(list[j].name)]);
            reveal_with_fuel(less_from, 2);
            assert(x[0] == ordinal(list[i].name) && y[0] == ordinal(list[j].name));
        }
        assert(moved_by(roots, list, at));
        assert(listed_by_number(roots, list, at));
    }
}

/// The entries of a package are listed by name: each once, and none before one
/// whose name comes first.
pub proof fn lemma_entries_by_name(entries: Seq<EntryMeta>)
    ensures
        exists|at: Seq<int>| #[trigger] moved_by(entries, by_name(entries), at),
        forall|i: int, j: int|
            #![trigger by_name(entries)[i], by_name(entries)[j]]
            0 <= i < j < entries.len() ==> by_name(entries)[i].name == by_name(entries)[j].name
                || text_before(by_name(entries)[i].name, by_name(entries)[j].name),
{
    let keys = name_keys(entries);
    let at = sort_order(keys, entries.len());
    let list = by_name(entries);
    lemma_sort_order(keys, entries.len());
    assert(moved_by(entries, list, at));
    assert forall|i: int, j: int|
        #![trigger list[i], list[j]]
        0 <= i < j < entries.len() implies list[i].name == list[j].name || text_before(
        list[i].name,
        list[j].name,
    ) by {
        let a = list[i].name;
        let b = list[j].name;
        assert(keys[at[i]] == name_key(a) && keys[at[j]] == name_key(b));
        assert(name_key(a) =~= scalars(a) && name_key(b) =~= scalars(b));
        if lex_less(scalars(a), scalars(b)) {
            lemma_text_before(a, b);
        } else {
            crate::render::callers::lemma_scalars_same(a, b);
        }
    }
}

/// The position of an entry is that of the first with its name; there is none
/// where no entry has the name.
pub proof fn lemma_dex_position(entries: Seq<DexMeta>, name: Seq<char>, from: int)
    requires
        0 <= from <= entries.len(),
    ensures
        dex_position(entries, name, from) matches Some(p) ==> from <= p < entries.len()
            && entries[p].name == name && forall|i: int|
            from <= i < p ==> (#[trigger] entries[i]).name != name,
        dex_position(entries, name, from) is None ==> forall|i: int|
            from <= i < entries.len() ==> (#[trigger] entries[i]).name != name,
    decreases entries.len() - from,
{
    if from < entries.len() && entries[from].name != name {
        lemma_dex_position(entries, name, from + 1);
    }
}

// ---------------------------------------------------------------------------
// Workers and ranges
// ---------------------------------------------------------------------------

/// There is at least one worker, no more than asked for, and no more than there
/// are entries to work on; fewer only for one of these reasons.
pub proof fn lemma_workers(threads: usize, dexes: usize)
    ensures
        workers_for(threads, dexes) is Err <==> threads == 0,
        workers_for(threads, dexes) matches Err(e) ==> e == Error::NoWorkers,
        workers_for(threads, dexes) matches Ok(n) ==> 1 <= n <= threads && (n <= dexes || n == 1)
            && (n == threads || n == dexes || dexes == 0),
{
}

/// A range is refused exactly where it starts behind the entry, or ends there.
pub proof fn lemma_range_refused(entry_size: u64, offset: u64, length: Option<u64>)
    ensures
        range_of(entry_size, offset, length) is Ok <==> offset <= entry_size && (length matches Some(
            n,
        ) ==> offset + n <= entry_size),
        offset > entry_size ==> range_of(entry_size, offset, length) == Err::<u64, Error>(
            Error::RangeStart { offset, size: entry_size },
        ),
        offset <= entry_size && (length matches Some(n) && offset + n > entry_size) ==> range_of(
            entry_size,
            offset,
            length,
        ) == Err::<u64, Error>(
            Error::RangeLength {
                selected: length->Some_0,
                available: (entry_size - offset) as u64,
                offset,
            },
        ),
{
}

// ---------------------------------------------------------------------------
// Classes
// ---------------------------------------------------------------------------

/// Whether a logical file is known to define a class, or not to.
pub open spec fn defines(data: Seq<u8>, file: Logical, descriptor: Seq<char>, answer: bool) -> bool {
    defines_class_in(data, file.header_offset as int, descriptor) == Ok::<bool, Error>(answer)
}

/// Whether none of the files `from .. to` defines a class.
pub open spec fn none_defines(
    data: Seq<u8>,
    list: Seq<Logical>,
    descriptor: Seq<char>,
    from: int,
    to: int,
) -> bool {
    forall|i: int| from <= i < to ==> defines(data, #[trigger] list[i], descriptor, false)
}

proof fn lemma_located_from(data: Seq<u8>, list: Seq<Logical>, descriptor: Seq<char>, from: int) -> (p:
    int)
    requires
        0 <= from <= list.len(),
        locate_from(data, list, descriptor, from) is Ok,
    ensures
        from <= p <= list.len(),
        none_defines(data, list, descriptor, from, p),
        p < list.len() ==> defines(data, list[p], descriptor, true) && locate_from(
            data,
            list,
            descriptor,
            from,
        ) == Ok::<Option<Logical>, Error>(Some(list[p])),
        p == list.len() ==> locate_from(data, list, descriptor, from) == Ok::<
            Option<Logical>,
            Error,
        >(None),
    decreases list.len() - from,
{
    if from >= list.len() {
        from
    } else if defines(data, list[from], descriptor, true) {
        from
    } else {
        assert(defines(data, list[from], descriptor, false));
        lemma_located_from(data, list, descriptor, from + 1)
    }
}

/// The logical file that is found defines the class, and none before it does.
/// Where none is found, no file of the entry defines it.
pub proof fn lemma_located(name: Seq<char>, data: Seq<u8>, descriptor: Seq<char>)
    requires
        class_place(name, data, descriptor) is Ok,
    ensures
        logical_in(name, data) is Ok,
        class_place(name, data, descriptor)->Ok_0 is None ==> none_defines(
            data,
            logical_in(name, data)->Ok_0,
            descriptor,
            0,
            logical_in(name, data)->Ok_0.len() as int,
        ),
        class_place(name, data, descriptor)->Ok_0 is Some ==> exists|p: int|
            0 <= p < logical_in(name, data)->Ok_0.len() && #[trigger] logical_in(
                name,
                data,
            )->Ok_0[p] == class_place(name, data, descriptor)->Ok_0->Some_0 && defines(
                data,
                logical_in(name, data)->Ok_0[p],
                descriptor,
                true,
            ) && none_defines(data, logical_in(name, data)->Ok_0, descriptor, 0, p),
{
    let list = logical_in(name, data)->Ok_0;
    let p = lemma_located_from(data, list, descriptor, 0);
    if p < list.len() {
        assert(list[p] == class_place(name, data, descriptor)->Ok_0->Some_0);
    }
}

/// Whether a class is one of a logical file.
pub open spec fn class_in(data: Seq<u8>, file: Logical, c: ClassPlace) -> bool {
    &&& c.dex_name == file.name
    &&& class_texts_in(data, file.header_offset as int) matches Ok(classes) && classes.contains(
        c.descriptor,
    )
}

proof fn lemma_classes_from(
    data: Seq<u8>,
    list: Seq<Logical>,
    from: int,
    classes: Seq<ClassPlace>,
    c: ClassPlace,
)
    requires
        0 <= from <= list.len(),
        classes_from(data, list, from, classes) is Ok,
    ensures
        classes_from(data, list, from, classes)->Ok_0.contains(c) <==> classes.contains(c)
            || exists|i: int| from <= i < list.len() && #[trigger] class_in(data, list[i], c),
    decreases list.len() - from,
{
    if from < list.len() {
        let found = class_texts_in(data, list[from].header_offset as int)->Ok_0;
        let here = placed(list[from].name, found);
        lemma_classes_from(data, list, from + 1, classes + here, c);
        assert((classes + here).contains(c) <==> classes.contains(c) || class_in(
            data,
            list[from],
            c,
        )) by {
            if here.contains(c) {
                let k = choose|k: int| 0 <= k < here.len() && here[k] == c;
                assert(found[k] == c.descriptor);
                assert((classes + here)[classes.len() + k] == c);
            }
            if class_in(data, list[from], c) {
                let k = choose|k: int| 0 <= k < found.len() && found[k] == c.descriptor;
                assert(here[k] == c);
                assert((classes + here)[classes.len() + k] == c);
            }
            if classes.contains(c) {
                let k = choose|k: int| 0 <= k < classes.len() && classes[k] == c;
                assert((classes + here)[k] == c);
            }
            if (classes + here).contains(c) {
                let k = choose|k: int| 0 <= k < (classes + here).len() && (classes + here)[k] == c;
                if k >= classes.len() {
                    assert(here[k - classes.len()] == c);
                } else {
                    assert(classes[k] == c);
                }
            }
        }
        if exists|i: int| from <= i < list.len() && #[trigger] class_in(data, list[i], c) {
            let i = choose|i: int| from <= i < list.len() && #[trigger] class_in(data, list[i], c);
            if i > from {
                assert(from + 1 <= i < list.len() && class_in(data, list[i], c));
            }
        }
        if class_in(data, list[from], c) {
            assert(from <= from < list.len() && class_in(data, list[from], c));
        }
    }
}

/// The classes of an entry are those of all its logical files, each with the
/// name of the file that defines it.
pub proof fn lemma_entry_classes(name: Seq<char>, data: Seq<u8>, c: ClassPlace)
    requires
        entry_classes(name, data) is Ok,
    ensures
        logical_in(name, data) matches Ok(list) && (entry_classes(name, data)->Ok_0.contains(c)
            <==> exists|i: int| 0 <= i < list.len() && #[trigger] class_in(data, list[i], c)),
{
    let list = logical_in(name, data)->Ok_0;
    lemma_classes_from(data, list, 0, Seq::empty(), c);
}

} // verus!
