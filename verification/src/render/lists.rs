//! What listings show of what they list.
use vstd::prelude::*;

use crate::apk::{ClassPlace, EntryMeta};
use crate::collections::kept::{keeps, lemma_keeps_nothing, lemma_keeps_push};
use crate::collections::views;
use crate::dex::queries::has_part;
use crate::render::callers::{lemma_joined, separated};
use crate::render::{
    batch_line, batch_lines_of, class_filter, class_lines, entry_lines, group_lines, joined,
    lines_of, listing, passes, passing_classes, passing_entries, quoted_text, reference_count,
};
use crate::service::StringReferenceGroup;
use crate::text::reading::lemma_occurs_between;
use crate::text::decimal;

verus! {

/// Whether a name is wanted: it has the part asked for, if any is.
pub open spec fn wanted_name(filter: Option<Seq<char>>, name: Seq<char>) -> bool {
    filter matches Some(part) ==> has_part(name, part)
}

proof fn lemma_passes(filter: Option<Seq<char>>, name: Seq<char>)
    ensures
        passes(filter, name) <==> wanted_name(filter, name),
{
    if filter is Some {
        lemma_occurs_between(name, filter->Some_0);
    }
}

proof fn lemma_entries_kept(entries: Seq<EntryMeta>, filter: Option<Seq<char>>, n: nat)
    requires
        n <= entries.len(),
    ensures
        keeps(
            entries.take(n as int),
            passing_entries(entries, filter, n),
            |e: EntryMeta| wanted_name(filter, e.name),
        ),
    decreases n,
{
    let test = |e: EntryMeta| wanted_name(filter, e.name);
    if n == 0 {
        lemma_keeps_nothing(test);
        assert(entries.take(0) =~= Seq::<EntryMeta>::empty());
    } else {
        let last = entries[n - 1];
        lemma_entries_kept(entries, filter, (n - 1) as nat);
        lemma_keeps_push(
            entries.take(n - 1),
            passing_entries(entries, filter, (n - 1) as nat),
            test,
            last,
        );
        lemma_passes(filter, last.name);
        assert(entries.take(n as int) =~= entries.take(n - 1).push(last));
    }
}

/// Filtered entries are those with the text asked for in their names, all of
/// them and in their order.
pub proof fn lemma_entries_filtered(entries: Seq<EntryMeta>, filter: Option<Seq<char>>)
    ensures
        keeps(
            entries,
            passing_entries(entries, filter, entries.len()),
            |e: EntryMeta| wanted_name(filter, e.name),
        ),
{
    lemma_entries_kept(entries, filter, entries.len());
    assert(entries.take(entries.len() as int) =~= entries);
}

proof fn lemma_classes_kept(classes: Seq<ClassPlace>, filter: Option<Seq<char>>, n: nat)
    requires
        n <= classes.len(),
    ensures
        keeps(
            classes.take(n as int),
            passing_classes(classes, filter, n),
            |c: ClassPlace| wanted_name(filter, c.descriptor),
        ),
    decreases n,
{
    let test = |c: ClassPlace| wanted_name(filter, c.descriptor);
    if n == 0 {
        lemma_keeps_nothing(test);
        assert(classes.take(0) =~= Seq::<ClassPlace>::empty());
    } else {
        let last = classes[n - 1];
        lemma_classes_kept(classes, filter, (n - 1) as nat);
        lemma_keeps_push(
            classes.take(n - 1),
            passing_classes(classes, filter, (n - 1) as nat),
            test,
            last,
        );
        lemma_passes(filter, last.descriptor);
        assert(classes.take(n as int) =~= classes.take(n - 1).push(last));
    }
}

/// Filtered classes are those with the text asked for in their descriptors, all
/// of them and in their order. The text may be written with dots, which stand
/// for slashes.
pub proof fn lemma_classes_filtered(classes: Seq<ClassPlace>, part: String, p: Seq<char>)
    requires
        p.len() == part@.len(),
        forall|i: int|
            0 <= i < p.len() ==> #[trigger] p[i] == (if part@[i] == '.' {
                '/'
            } else {
                part@[i]
            }),
    ensures
        keeps(
            classes,
            passing_classes(classes, class_filter(Some(part)), classes.len()),
            |c: ClassPlace| wanted_name(Some(p), c.descriptor),
        ),
{
    let wanted = class_filter(Some(part));
    assert(wanted->Some_0 =~= p);
    lemma_classes_kept(classes, wanted, classes.len());
    assert(classes.take(classes.len() as int) =~= classes);
}

/// Without a filter every entry and every class is listed.
pub proof fn lemma_unfiltered(classes: Seq<ClassPlace>, entries: Seq<EntryMeta>)
    ensures
        passing_classes(classes, class_filter(None), classes.len()) == classes,
        passing_entries(entries, None, entries.len()) == entries,
{
    lemma_all_pass(classes, classes.len());
    assert(classes.take(classes.len() as int) =~= classes);
    lemma_all_entries_pass(entries, entries.len());
    assert(entries.take(entries.len() as int) =~= entries);
}

proof fn lemma_all_entries_pass(entries: Seq<EntryMeta>, n: nat)
    requires
        n <= entries.len(),
    ensures
        passing_entries(entries, None, n) == entries.take(n as int),
    decreases n,
{
    if n > 0 {
        lemma_all_entries_pass(entries, (n - 1) as nat);
        assert(entries.take(n as int) =~= entries.take(n - 1).push(entries[n - 1]));
    } else {
        assert(entries.take(0) =~= Seq::<EntryMeta>::empty());
    }
}

proof fn lemma_all_pass(classes: Seq<ClassPlace>, n: nat)
    requires
        n <= classes.len(),
    ensures
        passing_classes(classes, None, n) == classes.take(n as int),
    decreases n,
{
    if n > 0 {
        lemma_all_pass(classes, (n - 1) as nat);
        assert(classes.take(n as int) =~= classes.take(n - 1).push(classes[n - 1]));
    } else {
        assert(classes.take(0) =~= Seq::<ClassPlace>::empty());
    }
}

/// A listing of entries has a line for each: its name, its sizes, and whether it
/// is a directory.
pub proof fn lemma_entries_shown(entries: Seq<EntryMeta>)
    ensures
        joined(entry_lines(entries), "\n"@, entries.len()) == separated(entry_lines(entries), "\n"@),
        entry_lines(entries).len() == entries.len(),
        forall|i: int|
            0 <= i < entries.len() ==> #[trigger] entry_lines(entries)[i] == entries[i].name
                + " | compressed="@ + decimal(entries[i].compressed_size as nat)
                + " uncompressed="@ + decimal(entries[i].uncompressed_size as nat) + (
            if entries[i].is_directory {
                " directory"@
            } else {
                Seq::<char>::empty()
            }),
{
    lemma_joined(entry_lines(entries), "\n"@);
}

/// A listing of classes has a line for each: the DEX file and the descriptor.
pub proof fn lemma_classes_shown(classes: Seq<ClassPlace>)
    ensures
        joined(class_lines(classes), "\n"@, classes.len()) == separated(class_lines(classes), "\n"@),
        class_lines(classes).len() == classes.len(),
        forall|i: int|
            0 <= i < classes.len() ==> #[trigger] class_lines(classes)[i] == classes[i].dex_name
                + seq![' ', '|', ' '] + classes[i].descriptor,
{
    reveal_strlit(" | ");
    lemma_joined(class_lines(classes), "\n"@);
    assert(" | "@ =~= seq![' ', '|', ' ']);
}

/// Lines one behind another, each with a line break behind it.
pub open spec fn ended(lines: Seq<Seq<char>>) -> Seq<char>
    decreases lines.len(),
{
    if lines.len() == 0 {
        Seq::empty()
    } else {
        lines[0] + seq!['\n'] + ended(lines.skip(1))
    }
}

proof fn lemma_ended(lines: Seq<Seq<char>>)
    requires
        lines.len() > 0,
    ensures
        ended(lines) == separated(lines, seq!['\n']) + seq!['\n'],
    decreases lines.len(),
{
    if lines.len() > 1 {
        lemma_ended(lines.skip(1));
        assert(ended(lines) =~= separated(lines, seq!['\n']) + seq!['\n']);
    } else {
        assert(lines.skip(1) =~= Seq::<Seq<char>>::empty());
        assert(ended(lines.skip(1)) == Seq::<char>::empty());
        assert(ended(lines) =~= lines[0] + seq!['\n']);
    }
}

/// The text of a reference listing is its lines, and each ends with a line
/// break; no lines make no text.
pub proof fn lemma_listing(lines: Seq<Seq<char>>)
    ensures
        listing(lines) == ended(lines),
{
    reveal_strlit("\n");
    assert("\n"@ =~= seq!['\n']);
    if lines.len() > 0 {
        lemma_joined(lines, "\n"@);
        lemma_ended(lines);
    }
}

/// The lines of a batch, group by group: each line of a group's references
/// stands behind the quoted pattern of the group.
pub open spec fn labelled_lines(groups: Seq<StringReferenceGroup>) -> Seq<Seq<char>>
    decreases groups.len(),
{
    if groups.len() == 0 {
        Seq::empty()
    } else {
        let quoted = quoted_text(groups[0].pattern@);
        Seq::new(
            lines_of(views(groups[0].references@)).len(),
            |i: int|
                "query="@ + quoted + seq![' ', '|', ' '] + lines_of(
                    views(groups[0].references@),
                )[i],
        ) + labelled_lines(groups.skip(1))
    }
}

proof fn lemma_labelled_push(groups: Seq<StringReferenceGroup>, g: StringReferenceGroup)
    ensures
        labelled_lines(groups.push(g)) == labelled_lines(groups) + batch_lines_of(
            quoted_text(g.pattern@),
            lines_of(views(g.references@)),
        ),
    decreases groups.len(),
{
    let more = groups.push(g);
    if groups.len() == 0 {
        reveal_strlit(" | ");
        assert(" | "@ =~= seq![' ', '|', ' ']);
        assert(more.skip(1) =~= Seq::<StringReferenceGroup>::empty());
        assert(labelled_lines(more.skip(1)) == Seq::<Seq<char>>::empty());
        let shown = batch_lines_of(quoted_text(g.pattern@), lines_of(views(g.references@)));
        assert(labelled_lines(more) =~= labelled_lines(groups) + shown) by {
            assert forall|i: int| 0 <= i < shown.len() implies #[trigger] labelled_lines(more)[i]
                == shown[i] by {
                assert(shown[i] == batch_line(
                    quoted_text(g.pattern@),
                    lines_of(views(g.references@))[i],
                ));
            }
        }
    } else {
        assert(more.skip(1) =~= groups.skip(1).push(g));
        lemma_labelled_push(groups.skip(1), g);
        assert(more[0] == groups[0]);
        assert(labelled_lines(more) =~= labelled_lines(groups) + batch_lines_of(
            quoted_text(g.pattern@),
            lines_of(views(g.references@)),
        ));
    }
}

/// The lines of a batch are those of its groups, in order, each with its
/// pattern before it.
pub proof fn lemma_batch_lines(groups: Seq<StringReferenceGroup>, n: nat)
    requires
        n <= groups.len(),
    ensures
        group_lines(groups, n) == labelled_lines(groups.take(n as int)),
    decreases n,
{
    if n > 0 {
        lemma_batch_lines(groups, (n - 1) as nat);
        lemma_labelled_push(groups.take(n - 1), groups[n - 1]);
        assert(groups.take(n as int) =~= groups.take(n - 1).push(groups[n - 1]));
    } else {
        assert(group_lines(groups, n) =~= labelled_lines(groups.take(0)));
    }
}

/// The count of references grows, group by group, by what the group holds.
pub proof fn lemma_reference_count(groups: Seq<StringReferenceGroup>, n: nat)
    requires
        n < groups.len(),
    ensures
        reference_count(groups, 0) == 0,
        reference_count(groups, n + 1) - reference_count(groups, n) == groups[n as int].references@.len(),
{
}

} // verus!
