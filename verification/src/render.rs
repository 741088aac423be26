//! The text of a listing.
//!
//! A short listing is the entries' names on one line. A long listing has one
//! line per entry with six columns: permissions, owner, group, size, time of
//! last modification in seconds since the epoch, and name; the columns are
//! aligned over all lines.

use vstd::prelude::*;
use vstd::string::StringExecFns;
use crate::color::{paint, painted, Color};
use crate::file::{views, File, FileView, Kind};
use crate::helper::{aligned, pad_strings, table};
use crate::identity::{database, resolve_in, resolved};
use crate::permission::{permission_chars, to_unix_permission};
use crate::text::{decimal, decimal_string, join, text_of, texts};

verus! {

/// The colour in which an entry of the given kind is named.
pub open spec fn kind_color(kind: Kind) -> Color {
    match kind {
        Kind::File => Color::Normal,
        Kind::Dir => Color::BlueFgBold,
        Kind::Link => Color::CyanFgBold,
        Kind::Char => Color::YellowFgBold,
        Kind::Socket => Color::PurpleFg,
        Kind::Fifo => Color::Normal,
        Kind::Block => Color::Normal,
    }
}

/// The name of an entry as a listing shows it.
pub open spec fn shown_name(file: FileView) -> Seq<char> {
    painted(file.name, kind_color(file.kind))
}

/// The names of the entries as a listing shows them.
pub open spec fn shown_names(files: Seq<FileView>) -> Seq<Seq<char>> {
    Seq::new(files.len(), |i: int| shown_name(files[i]))
}

/// The text of a short listing: the shown names with one space between
/// them, and a line end.
pub open spec fn short_text(files: Seq<FileView>) -> Seq<char> {
    join(shown_names(files), ' ').push('\n')
}

/// The six columns of an entry in a long listing. `users` and `groups` are
/// the texts of the two account databases, `None` for one that could not be
/// read.
pub open spec fn long_row(
    file: FileView,
    users: Option<Seq<char>>,
    groups: Option<Seq<char>>,
) -> Seq<Seq<char>> {
    seq![
        permission_chars(file.mode),
        resolved(users, file.uid),
        resolved(groups, file.gid),
        decimal(file.size as nat),
        decimal(file.modified as nat),
        shown_name(file),
    ]
}

/// The rows of a long listing before they are aligned.
pub open spec fn long_rows(
    files: Seq<FileView>,
    users: Option<Seq<char>>,
    groups: Option<Seq<char>>,
) -> Seq<Seq<Seq<char>>> {
    Seq::new(files.len(), |i: int| long_row(files[i], users, groups))
}

/// Rows as text: each row's cells with one space between them, and a line
/// end after each row.
pub open spec fn rows_text(rows: Seq<Seq<Seq<char>>>) -> Seq<char>
    decreases rows.len(),
{
    if rows.len() == 0 {
        Seq::empty()
    } else {
        rows_text(rows.drop_last()) + join(rows.last(), ' ').push('\n')
    }
}

/// The text of a long listing.
pub open spec fn long_text(
    files: Seq<FileView>,
    users: Option<Seq<char>>,
    groups: Option<Seq<char>>,
) -> Seq<char> {
    rows_text(aligned(long_rows(files, users, groups)))
}

/// The name of `file` in the colour of its kind.
pub fn to_file_name(file: &File) -> (name: String)
    ensures
        name@ == shown_name(file@),
{
    match file.kind {
        Kind::File => paint(file.name.clone(), Color::Normal),
        Kind::Dir => paint(file.name.clone(), Color::BlueFgBold),
        Kind::Link => paint(file.name.clone(), Color::CyanFgBold),
        Kind::Char => paint(file.name.clone(), Color::YellowFgBold),
        Kind::Socket => paint(file.name.clone(), Color::PurpleFg),
        _ => paint(file.name.clone(), Color::Normal),
    }
}

/// Appends `cells` to `out` with one space between them.
fn push_joined(out: &mut String, cells: &Vec<String>)
    ensures
        final(out)@ == old(out)@ + join(texts(cells@), ' '),
{
    let ghost start = out@;
    let ghost all = texts(cells@);
    let mut i: usize = 0;
    proof {
        reveal_strlit(" ");
        assert(" "@ =~= seq![' ']);
        assert(all.take(0) =~= Seq::<Seq<char>>::empty());
        assert(start + join(all.take(0), ' ') =~= start);
    }
    while i < cells.len()
        invariant
            i <= cells.len(),
            " "@ == seq![' '],
            all == texts(cells@),
            start == old(out)@,
            out@ == start + join(all.take(i as int), ' '),
        decreases cells.len() - i,
    {
        let ghost seen = all.take(i as int);
        let ghost next = all.take(i + 1);
        proof {
            assert(next.drop_last() =~= seen);
            assert(next.last() == cells@[i as int]@);
            assert(next.len() == i + 1);
        }
        if i > 0 {
            out.append(" ");
        }
        out.append(cells[i].as_str());
        proof {
            if i == 0 {
                assert(next[0] == cells@[0]@);
                assert(join(seen, ' ') =~= Seq::<char>::empty());
                assert(out@ =~= start + join(next, ' '));
            } else {
                assert(out@ =~= start + (join(seen, ' ').push(' ') + cells@[i as int]@));
            }
        }
        i += 1;
    }
    proof {
        assert(all.take(cells.len() as int) =~= all);
    }
}

/// Appends a line end to `out`.
fn push_line_end(out: &mut String)
    ensures
        final(out)@ == old(out)@.push('\n'),
{
    proof {
        reveal_strlit("\n");
        assert("\n"@ =~= seq!['\n']);
    }
    out.append("\n");
    assert(out@ =~= old(out)@.push('\n'));
}

/// The text of a short listing of `files`: their names, each in the colour
/// of its kind, with one space between them, and a line end.
pub fn display_short(files: &Vec<File>) -> (text: String)
    ensures
        text@ == short_text(views(files@)),
{
    let mut names: Vec<String> = Vec::new();
    let mut i: usize = 0;
    while i < files.len()
        invariant
            i <= files.len(),
            names.len() == i,
            forall|k: int| 0 <= k < i ==> (#[trigger] names@[k])@ == shown_name(files@[k]@),
        decreases files.len() - i,
    {
        names.push(to_file_name(&files[i]));
        i += 1;
    }
    let mut text = String::new();
    push_joined(&mut text, &names);
    push_line_end(&mut text);
    proof {
        assert(texts(names@) =~= shown_names(views(files@)));
        assert(text@ =~= short_text(views(files@)));
    }
    text
}

/// The text of a long listing of `files`: one line per entry, with its
/// permissions, owner, group, size, modification time and name, the columns
/// aligned and one space between them. `users` and `groups` are the texts of
/// the account databases; one that could not be read is `None`, and every
/// name looked up in it shows as a placeholder.
pub fn display_long(files: &Vec<File>, users: Option<&str>, groups: Option<&str>) -> (text: String)
    ensures
        text@ == long_text(views(files@), text_of(users), text_of(groups)),
{
    let ghost records = views(files@);
    let ghost plain = long_rows(records, text_of(users), text_of(groups));
    let user_names = database(users);
    let group_names = database(groups);
    let mut rows: Vec<Vec<String>> = Vec::new();
    let mut i: usize = 0;
    while i < files.len()
        invariant
            i <= files.len(),
            rows.len() == i,
            records == views(files@),
            plain == long_rows(records, text_of(users), text_of(groups)),
            match users {
                Some(text) => user_names is Some && user_names->0@ == text@,
                None => user_names is None,
            },
            match groups {
                Some(text) => group_names is Some && group_names->0@ == text@,
                None => group_names is None,
            },
            forall|k: int| 0 <= k < i ==> texts((#[trigger] rows@[k])@) == plain[k],
        decreases files.len() - i,
    {
        let file = &files[i];
        let mut row: Vec<String> = Vec::new();
        row.push(to_unix_permission(file.mode));
        row.push(resolve_in(&user_names, file.uid));
        row.push(resolve_in(&group_names, file.gid));
        row.push(decimal_string(file.size));
        row.push(decimal_string(file.modified));
        row.push(to_file_name(file));
        proof {
            assert(records[i as int] == file@);
            assert(texts(row@) =~= plain[i as int]);
        }
        rows.push(row);
        i += 1;
    }
    proof {
        assert(table(rows@) =~= plain) by {
            assert forall|k: int| 0 <= k < rows.len() implies table(rows@)[k] == plain[k] by {
                assert(table(rows@)[k] =~= texts(rows@[k]@));
            }
        }
    }
    let padded = pad_strings(rows);
    let ghost shaped = table(padded@);
    let mut text = String::new();
    let mut k: usize = 0;
    proof {
        assert(shaped.take(0) =~= Seq::<Seq<Seq<char>>>::empty());
    }
    while k < padded.len()
        invariant
            k <= padded.len(),
            shaped == table(padded@),
            text@ == rows_text(shaped.take(k as int)),
        decreases padded.len() - k,
    {
        proof {
            assert(shaped.take(k + 1).drop_last() =~= shaped.take(k as int));
            assert(shaped.take(k + 1).last() =~= texts(padded@[k as int]@));
        }
        push_joined(&mut text, &padded[k]);
        push_line_end(&mut text);
        proof {
            assert(text@ =~= rows_text(shaped.take(k + 1)));
        }
        k += 1;
    }
    proof {
        assert(shaped.take(padded.len() as int) =~= shaped);
    }
    text
}

} // verus!
