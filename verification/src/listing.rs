//! Listing a directory: classify every entry, drop the hidden ones, sort.

use vstd::prelude::*;
use vstd::string::StrSliceExecFns;
use crate::error::{LSError, LSErrorKind, LSErrorView};
use crate::file::{record_of, to_file, views, File, FileView, RawEntry, RawEntryView};
use crate::sort::{
    lemma_sorted_by_name,
    lemma_sorted_canonical,
    lemma_sorted_members,
    names_ascend,
    names_distinct,
    same_records,
    sort_by_name,
    sorted_by_name,
};

verus! {

/// Raw entries as plain values.
pub open spec fn entry_views(entries: Seq<RawEntry>) -> Seq<RawEntryView> {
    Seq::new(entries.len(), |i: int| entries[i]@)
}

/// The error of the first entry, in the order given, that stands for no
/// record; `None` when every entry stands for one.
pub open spec fn first_failure(entries: Seq<RawEntryView>) -> Option<LSErrorView>
    decreases entries.len(),
{
    if entries.len() == 0 {
        None
    } else {
        match first_failure(entries.drop_last()) {
            Some(error) => Some(error),
            None => match record_of(entries.last()) {
                Err(error) => Some(error),
                Ok(_) => None,
            },
        }
    }
}

/// The records that the entries stand for, in the order given. It is meant
/// for entries that all stand for a record.
pub open spec fn records(entries: Seq<RawEntryView>) -> Seq<FileView> {
    Seq::new(entries.len(), |i: int| record_of(entries[i])->Ok_0)
}

/// A name is hidden when it starts with a dot.
pub open spec fn is_hidden(name: Seq<char>) -> bool {
    name.len() > 0 && name[0] == '.'
}

/// Whether a listing shows `file`: hidden names only on request.
pub open spec fn is_shown(file: FileView, show_all: bool) -> bool {
    show_all || !is_hidden(file.name)
}

/// `is_shown` as a predicate on records.
pub open spec fn shown(show_all: bool) -> spec_fn(FileView) -> bool {
    |file: FileView| is_shown(file, show_all)
}

/// The records that a listing shows, in the order given.
pub open spec fn visible(files: Seq<FileView>, show_all: bool) -> Seq<FileView> {
    files.filter(shown(show_all))
}

/// What a listing of `entries` holds: the records of the entries, without
/// the hidden ones unless they were asked for; in ascending order of name if
/// asked, else in the order in which the entries came.
pub open spec fn listing(entries: Seq<RawEntryView>, show_all: bool, sort_lex: bool) -> Seq<
    FileView,
> {
    let kept = visible(records(entries), show_all);
    if sort_lex {
        sorted_by_name(kept)
    } else {
        kept
    }
}

/// The first failure is the error of an entry before which every entry
/// stands for a record; there is none exactly when all entries do.
pub proof fn lemma_first_failure(entries: Seq<RawEntryView>)
    ensures
        match first_failure(entries) {
            Some(error) => exists|i: int|
                0 <= i < entries.len() && record_of(#[trigger] entries[i]) == Err::<
                    FileView,
                    LSErrorView,
                >(error) && forall|k: int| 0 <= k < i ==> record_of(#[trigger] entries[k]) is Ok,
            None => forall|i: int| 0 <= i < entries.len() ==> record_of(#[trigger] entries[i]) is Ok,
        },
        first_failure(entries) is Some <==> exists|i: int|
            0 <= i < entries.len() && record_of(#[trigger] entries[i]) is Err,
    decreases entries.len(),
{
    if entries.len() > 0 {
        let front = entries.drop_last();
        lemma_first_failure(front);
        match first_failure(front) {
            Some(error) => {
                let i = choose|i: int|
                    0 <= i < front.len() && record_of(#[trigger] front[i]) == Err::<
                        FileView,
                        LSErrorView,
                    >(error) && forall|k: int| 0 <= k < i ==> record_of(#[trigger] front[k]) is Ok;
                assert(front[i] == entries[i]);
                assert forall|k: int| 0 <= k < i implies record_of(#[trigger] entries[k]) is Ok by {
                    assert(front[k] == entries[k]);
                }
            },
            None => {
                assert forall|k: int| 0 <= k < entries.len() - 1 implies record_of(
                    #[trigger] entries[k],
                ) is Ok by {
                    assert(front[k] == entries[k]);
                }
                if record_of(entries.last()) is Err {
                    let i = entries.len() - 1;
                    assert(record_of(entries[i]) == Err::<FileView, LSErrorView>(
                        record_of(entries.last())->Err_0,
                    ));
                }
            },
        }
    }
}

/// A failure among the first `upto` entries is the failure of the whole
/// listing.
pub proof fn lemma_first_failure_extends(entries: Seq<RawEntryView>, upto: int)
    requires
        0 <= upto <= entries.len(),
        first_failure(entries.take(upto)) is Some,
    ensures
        first_failure(entries) == first_failure(entries.take(upto)),
    decreases entries.len() - upto,
{
    if upto < entries.len() {
        assert(entries.take(upto + 1).drop_last() =~= entries.take(upto));
        lemma_first_failure_extends(entries, upto + 1);
    } else {
        assert(entries.take(upto) =~= entries);
    }
}

/// A listing that was not asked for hidden names holds none; every record it
/// holds is a visible record of the entries.
pub proof fn lemma_listing_hides(entries: Seq<RawEntryView>, sort_lex: bool)
    ensures
        forall|i: int|
            0 <= i < listing(entries, false, sort_lex).len() ==> !is_hidden(
                (#[trigger] listing(entries, false, sort_lex)[i]).name,
            ),
{
    let kept = visible(records(entries), false);
    let out = listing(entries, false, sort_lex);
    assert forall|i: int| 0 <= i < out.len() implies !is_hidden((#[trigger] out[i]).name) by {
        lemma_visible_members(records(entries), false, out[i]);
        assert(out.contains(out[i]));
        if sort_lex {
            lemma_sorted_members(kept, out[i]);
        }
    }
}

/// A listing that was asked for hidden names holds the record of every
/// entry, each as often as it occurs; unsorted, it is the records as they
/// came.
pub proof fn lemma_listing_shows_all(entries: Seq<RawEntryView>, sort_lex: bool)
    ensures
        listing(entries, true, sort_lex).to_multiset() == records(entries).to_multiset(),
        listing(entries, true, sort_lex).len() == entries.len(),
        !sort_lex ==> listing(entries, true, sort_lex) == records(entries),
{
    lemma_visible_all(records(entries));
    lemma_sorted_by_name(records(entries));
}

/// A listing in sorted order has its names ascending, and holds the same
/// records as the unsorted listing of the same entries.
pub proof fn lemma_listing_sorted(entries: Seq<RawEntryView>, show_all: bool)
    ensures
        names_ascend(listing(entries, show_all, true)),
        listing(entries, show_all, true).to_multiset() == listing(
            entries,
            show_all,
            false,
        ).to_multiset(),
{
    lemma_sorted_by_name(visible(records(entries), show_all));
}

/// A record is among the visible ones exactly when it is among the records
/// and is shown.
pub proof fn lemma_visible_members(files: Seq<FileView>, show_all: bool, file: FileView)
    ensures
        visible(files, show_all).contains(file) <==> files.contains(file) && is_shown(
            file,
            show_all,
        ),
    decreases files.len(),
{
    reveal(Seq::filter);
    if files.len() > 0 {
        let front = files.drop_last();
        lemma_visible_members(front, show_all, file);
        let kept = visible(front, show_all);
        if files.contains(file) {
            let i = choose|i: int| 0 <= i < files.len() && files[i] == file;
            if i < files.len() - 1 {
                assert(front[i] == file);
            }
        }
        if front.contains(file) {
            let i = choose|i: int| 0 <= i < front.len() && front[i] == file;
            assert(files[i] == file);
        }
        if is_shown(files.last(), show_all) {
            assert(visible(files, show_all) == kept.push(files.last()));
            assert(kept.push(files.last()).last() == files.last());
            if kept.contains(file) {
                let i = choose|i: int| 0 <= i < kept.len() && kept[i] == file;
                assert(kept.push(files.last())[i] == file);
            }
            if kept.push(files.last()).contains(file) {
                let i = choose|i: int|
                    0 <= i < kept.push(files.last()).len() && kept.push(files.last())[i] == file;
                if i < kept.len() {
                    assert(kept[i] == file);
                } else {
                    assert(files[files.len() - 1] == file);
                }
            }
        } else {
            assert(visible(files, show_all) == kept);
        }
        assert(files[files.len() - 1] == files.last());
    }
}

/// When hidden names are asked for, every record is visible.
pub proof fn lemma_visible_all(files: Seq<FileView>)
    ensures
        visible(files, true) == files,
    decreases files.len(),
{
    reveal(Seq::filter);
    if files.len() > 0 {
        lemma_visible_all(files.drop_last());
        assert(files.drop_last().push(files.last()) =~= files);
    }
}

/// Whether no two entries have the same name, as holds of the entries of
/// one directory.
pub open spec fn entry_names_distinct(entries: Seq<RawEntryView>) -> bool {
    forall|i: int, j: int|
        0 <= i < j < entries.len() ==> (#[trigger] entries[i]).name != (#[trigger] entries[j]).name
}

/// Whether two enumerations hold the same entries, in whatever order.
pub open spec fn same_entries(a: Seq<RawEntryView>, b: Seq<RawEntryView>) -> bool {
    forall|entry: RawEntryView| a.contains(entry) <==> b.contains(entry)
}

/// Dropping hidden records from records with distinct names leaves the names
/// distinct.
pub proof fn lemma_visible_names_distinct(files: Seq<FileView>, show_all: bool)
    requires
        names_distinct(files),
    ensures
        names_distinct(visible(files, show_all)),
    decreases files.len(),
{
    reveal(Seq::filter);
    if files.len() > 0 {
        let front = files.drop_last();
        let last = files.last();
        assert(names_distinct(front)) by {
            assert forall|i: int, j: int| 0 <= i < j < front.len() implies (
            #[trigger] front[i]).name != (#[trigger] front[j]).name by {
                assert(front[i] == files[i] && front[j] == files[j]);
            }
        }
        lemma_visible_names_distinct(front, show_all);
        let kept = visible(front, show_all);
        if is_shown(last, show_all) {
            let out = kept.push(last);
            assert(visible(files, show_all) == out);
            assert forall|i: int, j: int| 0 <= i < j < out.len() implies (#[trigger] out[i]).name
                != (#[trigger] out[j]).name by {
                if j == kept.len() {
                    assert(out[i] == kept[i]);
                    assert(kept.contains(kept[i]));
                    lemma_visible_members(front, show_all, kept[i]);
                    let k = choose|k: int| 0 <= k < front.len() && front[k] == kept[i];
                    assert(files[k] == kept[i]);
                    assert(files[k].name != files[files.len() - 1].name);
                } else {
                    assert(out[i] == kept[i] && out[j] == kept[j]);
                }
            }
        } else {
            assert(visible(files, show_all) == kept);
        }
    }
}

/// A sorted listing depends on the entries alone, not on the order in which
/// they were enumerated: two enumerations of the same entries, no name twice,
/// give the same sorted listing, and if one can be listed so can the other.
pub proof fn lemma_sorted_listing_canonical(
    a: Seq<RawEntryView>,
    b: Seq<RawEntryView>,
    show_all: bool,
)
    requires
        entry_names_distinct(a),
        entry_names_distinct(b),
        same_entries(a, b),
        first_failure(a) is None,
    ensures
        first_failure(b) is None,
        listing(a, show_all, true) == listing(b, show_all, true),
{
    lemma_first_failure(a);
    lemma_first_failure(b);
    assert forall|j: int| 0 <= j < b.len() implies record_of(#[trigger] b[j]) is Ok by {
        assert(b.contains(b[j]));
        assert(a.contains(b[j]));
        let i = choose|i: int| 0 <= i < a.len() && a[i] == b[j];
        assert(record_of(a[i]) is Ok);
    }
    let ra = records(a);
    let rb = records(b);
    assert(names_distinct(ra)) by {
        assert forall|i: int, j: int| 0 <= i < j < ra.len() implies (#[trigger] ra[i]).name != (
        #[trigger] ra[j]).name by {
            assert(record_of(a[i]) is Ok && record_of(a[j]) is Ok);
            assert(ra[i].name == a[i].name && ra[j].name == a[j].name);
        }
    }
    assert(names_distinct(rb)) by {
        assert forall|i: int, j: int| 0 <= i < j < rb.len() implies (#[trigger] rb[i]).name != (
        #[trigger] rb[j]).name by {
            assert(record_of(b[i]) is Ok && record_of(b[j]) is Ok);
            assert(rb[i].name == b[i].name && rb[j].name == b[j].name);
        }
    }
    let va = visible(ra, show_all);
    let vb = visible(rb, show_all);
    lemma_visible_names_distinct(ra, show_all);
    lemma_visible_names_distinct(rb, show_all);
    assert(same_records(va, vb)) by {
        assert forall|file: FileView| va.contains(file) <==> vb.contains(file) by {
            lemma_visible_members(ra, show_all, file);
            lemma_visible_members(rb, show_all, file);
            if ra.contains(file) {
                let i = choose|i: int| 0 <= i < ra.len() && ra[i] == file;
                assert(a.contains(a[i]));
                assert(b.contains(a[i]));
                let j = choose|j: int| 0 <= j < b.len() && b[j] == a[i];
                assert(rb[j] == file);
            }
            if rb.contains(file) {
                let j = choose|j: int| 0 <= j < rb.len() && rb[j] == file;
                assert(b.contains(b[j]));
                assert(a.contains(b[j]));
                let i = choose|i: int| 0 <= i < a.len() && a[i] == b[j];
                assert(ra[i] == file);
            }
        }
    }
    lemma_sorted_canonical(va, vb);
}

/// Whether `name` starts with a dot.
pub fn is_hidden_name(name: &str) -> (hidden: bool)
    ensures
        hidden == is_hidden(name@),
{
    !name.is_empty() && name.get_char(0) == '.'
}

/// Lists a directory from the outcome of enumerating it.
///
/// `entries` is `None` when `path` could not be enumerated; the listing then
/// fails with `DirectoryUnreadable` and the path as its message. Otherwise
/// every entry is classified, hidden or not, and the first that cannot be
/// fails the whole listing with its own error: no partial list is returned.
/// Only then are hidden names dropped, unless `show_all` is set, and the rest
/// sorted by name if `sort_lex` is set.
pub fn get_files(
    path: String,
    entries: Option<Vec<RawEntry>>,
    show_all: bool,
    sort_lex: bool,
) -> (result: Result<Vec<File>, LSError>)
    requires
        entries matches Some(list) ==> forall|i: int|
            0 <= i < list.len() ==> (#[trigger] list[i]).wf(),
    ensures
        match result {
            Ok(files) => {
                &&& entries is Some
                &&& first_failure(entry_views(entries->0@)) is None
                &&& views(files@) == listing(entry_views(entries->0@), show_all, sort_lex)
                &&& forall|i: int| 0 <= i < files.len() ==> (#[trigger] files[i]).wf()
                &&& !show_all ==> forall|i: int|
                    0 <= i < files.len() ==> !is_hidden((#[trigger] files[i]).name@)
                &&& show_all ==> views(files@).to_multiset() == records(
                    entry_views(entries->0@),
                ).to_multiset()
                &&& sort_lex ==> names_ascend(views(files@))
            },
            Err(error) => match entries {
                None => error@ == (LSErrorView {
                    kind: LSErrorKind::DirectoryUnreadable,
                    message: path@,
                }),
                Some(list) => first_failure(entry_views(list@)) == Some(error@),
            },
        },
{
    let list = match entries {
        Some(list) => list,
        None => {
            return Err(LSError { kind: LSErrorKind::DirectoryUnreadable, message: path });
        },
    };
    let ghost raw = entry_views(list@);
    let mut files: Vec<File> = Vec::new();
    proof {
        reveal(Seq::filter);
        assert(raw.take(0) =~= Seq::<RawEntryView>::empty());
        assert(records(raw.take(0)) =~= Seq::<FileView>::empty());
        assert(views(files@) =~= visible(records(raw.take(0)), show_all));
    }
    for entry in it: list
        invariant
            entries == Some(list),
            it.seq() == list@,
            raw == entry_views(list@),
            forall|i: int| 0 <= i < list.len() ==> (#[trigger] list[i]).wf(),
            first_failure(raw.take(it.index() as int)) is None,
            views(files@) == visible(records(raw.take(it.index() as int)), show_all),
            forall|i: int| 0 <= i < files.len() ==> (#[trigger] files[i]).wf(),
    {
        let ghost at = it.index() as int;
        let ghost seen = raw.take(at);
        let ghost next = raw.take(at + 1);
        proof {
            assert(entry == list@[at]);
            assert(next.drop_last() =~= seen);
            assert(next.last() == entry@);
        }
        match to_file(entry) {
            Err(error) => {
                proof {
                    lemma_first_failure_extends(raw, at + 1);
                }
                return Err(error);
            },
            Ok(file) => {
                proof {
                    assert(records(next) =~= records(seen).push(file@));
                    records(seen).lemma_filter_push(file@, shown(show_all));
                }
                if show_all || !is_hidden_name(file.name.as_str()) {
                    let ghost kept = views(files@);
                    files.push(file);
                    assert(views(files@) =~= kept.push(file@));
                }
            },
        }
    }
    proof {
        assert(raw.take(list.len() as int) =~= raw);
        if !show_all {
            lemma_listing_hides(raw, sort_lex);
        } else {
            lemma_listing_shows_all(raw, sort_lex);
        }
    }
    if sort_lex {
        let ghost kept = files@;
        files = sort_by_name(files);
        proof {
            assert forall|i: int| 0 <= i < files.len() implies (#[trigger] files[i]).wf() by {
                let file = views(files@)[i];
                assert(views(files@).contains(file));
                lemma_sorted_members(views(kept), file);
                let k = choose|k: int| 0 <= k < views(kept).len() && views(kept)[k] == file;
                assert(kept[k].wf());
            }
        }
    }
    proof {
        assert forall|i: int| 0 <= i < files.len() && !show_all implies !is_hidden(
            (#[trigger] files[i]).name@,
        ) by {
            assert(views(files@)[i] == files[i]@);
        }
    }
    Ok(files)
}

} // verus!
