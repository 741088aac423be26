use dirlist::{
    display_long, display_short, paint, to_file_name, Color, File, Kind, LSError, LSErrorKind,
};

fn file(name: &str, kind: Kind) -> File {
    File {
        name: name.to_string(),
        kind,
        size: 0,
        ino: 1,
        uid: 0,
        gid: 0,
        mode: 0o644,
        atime: 0,
        modified: 0,
    }
}

const USERS: &str = "root:x:0:0:root:/root:/bin/sh\nalice:x:1000:1000::/home/alice:/bin/sh\n";
const GROUPS: &str = "root:x:0:\nstaff:x:50:\n";

#[test]
fn normal_text_is_not_wrapped() {
    assert_eq!(paint("plain".to_string(), Color::Normal), "plain");
    assert_eq!(paint(String::new(), Color::Normal), "");
}

#[test]
fn each_colour_has_its_escape_sequence() {
    assert_eq!(paint("t".to_string(), Color::BlackFg), "\x1B[0;30mt\x1B[0m");
    assert_eq!(paint("t".to_string(), Color::RedFg), "\x1B[0;31mt\x1B[0m");
    assert_eq!(paint("t".to_string(), Color::GreenFg), "\x1B[0;32mt\x1B[0m");
    assert_eq!(paint("t".to_string(), Color::YellowFgBold), "\x1B[1;33mt\x1B[0m");
    assert_eq!(paint("t".to_string(), Color::BlueFgBold), "\x1B[1;34mt\x1B[0m");
    assert_eq!(paint("t".to_string(), Color::PurpleFg), "\x1B[0;35mt\x1B[0m");
    assert_eq!(paint("t".to_string(), Color::CyanFgBold), "\x1B[1;36mt\x1B[0m");
}

#[test]
fn empty_text_in_colour_is_the_two_sequences() {
    assert_eq!(paint(String::new(), Color::RedFg), "\x1B[0;31m\x1B[0m");
}

#[test]
fn names_are_coloured_by_kind() {
    assert_eq!(to_file_name(&file("f", Kind::File)), "f");
    assert_eq!(to_file_name(&file("d", Kind::Dir)), "\x1B[1;34md\x1B[0m");
    assert_eq!(to_file_name(&file("l", Kind::Link)), "\x1B[1;36ml\x1B[0m");
    assert_eq!(to_file_name(&file("c", Kind::Char)), "\x1B[1;33mc\x1B[0m");
    assert_eq!(to_file_name(&file("s", Kind::Socket)), "\x1B[0;35ms\x1B[0m");
    assert_eq!(to_file_name(&file("p", Kind::Fifo)), "p");
    assert_eq!(to_file_name(&file("b", Kind::Block)), "b");
}

#[test]
fn short_listing_of_nothing_is_an_empty_line() {
    assert_eq!(display_short(&Vec::new()), "\n");
}

#[test]
fn short_listing_of_one_name() {
    assert_eq!(display_short(&vec![file("only", Kind::File)]), "only\n");
}

#[test]
fn short_listing_separates_names_by_a_space() {
    let files = vec![file("a", Kind::File), file("dir", Kind::Dir), file("z", Kind::Fifo)];
    assert_eq!(display_short(&files), "a \x1B[1;34mdir\x1B[0m z\n");
}

#[test]
fn long_listing_of_nothing_is_empty() {
    assert_eq!(display_long(&Vec::new(), Some(USERS), Some(GROUPS)), "");
}

#[test]
fn long_listing_has_six_aligned_columns() {
    let files = vec![
        File {
            name: "notes.txt".to_string(),
            kind: Kind::File,
            size: 5,
            ino: 10,
            uid: 1000,
            gid: 50,
            mode: 0o644,
            atime: 0,
            modified: 1_700_000_000,
        },
        File {
            name: "bin".to_string(),
            kind: Kind::Dir,
            size: 4096,
            ino: 11,
            uid: 0,
            gid: 0,
            mode: 0o755,
            atime: 0,
            modified: 99,
        },
    ];
    let text = display_long(&files, Some(USERS), Some(GROUPS));
    assert_eq!(
        text,
        "rw-r--r-- alice staff    5 1700000000 notes.txt\n\
         rwxr-xr-x  root  root 4096         99 \x1B[1;34mbin\x1B[0m\n"
    );
}

#[test]
fn long_listing_with_unreadable_databases_shows_the_placeholder() {
    let files = vec![File {
        name: "x".to_string(),
        kind: Kind::File,
        size: 0,
        ino: 1,
        uid: 1000,
        gid: 50,
        mode: 0o4711,
        atime: 0,
        modified: 0,
    }];
    assert_eq!(display_long(&files, None, None), "rws--x--x ???? ???? 0 0 x\n");
    assert_eq!(display_long(&files, Some(USERS), None), "rws--x--x alice ???? 0 0 x\n");
    assert_eq!(display_long(&files, None, Some(GROUPS)), "rws--x--x ???? staff 0 0 x\n");
}

#[test]
fn long_listing_with_unknown_ids_shows_empty_names() {
    let files = vec![File {
        name: "x".to_string(),
        kind: Kind::File,
        size: 18_446_744_073_709_551_615,
        ino: 1,
        uid: 77,
        gid: 78,
        mode: 0,
        atime: 0,
        modified: 10,
    }];
    assert_eq!(
        display_long(&files, Some(USERS), Some(GROUPS)),
        "---------   18446744073709551615 10 x\n"
    );
}

#[test]
fn errors_read_as_kind_and_message() {
    let cases = [
        (LSErrorKind::InvalidArguments, "invalid arguments: what"),
        (LSErrorKind::PermissionDenied, "permission denied: what"),
        (LSErrorKind::DirectoryUnreadable, "directory unreadable: what"),
        (LSErrorKind::UnknownFileType, "unknown file type: what"),
        (LSErrorKind::MetadataUnavailable, "metadata unavailable: what"),
    ];
    for (kind, line) in cases {
        let error = LSError { kind, message: "what".to_string() };
        assert_eq!(error.to_string(), line);
    }
}
