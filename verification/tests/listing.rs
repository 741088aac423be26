use dirlist::{
    get_files, to_file, EntryMetadata, EntryType, File, Kind, LSErrorKind, RawEntry,
};

fn no_type() -> EntryType {
    EntryType {
        is_dir: false,
        is_file: false,
        is_symlink: false,
        is_block_device: false,
        is_char_device: false,
        is_fifo: false,
        is_socket: false,
    }
}

fn regular() -> EntryType {
    EntryType { is_file: true, ..no_type() }
}

fn directory() -> EntryType {
    EntryType { is_dir: true, ..no_type() }
}

fn metadata(size: u64) -> EntryMetadata {
    EntryMetadata {
        size,
        ino: 77,
        uid: 1000,
        gid: 100,
        mode: 0o644,
        atime: 1_600_000_000,
        modified: 1_700_000_000,
    }
}

fn entry(name: &str, file_type: EntryType) -> RawEntry {
    RawEntry { name: name.to_string(), file_type: Some(file_type), metadata: Some(metadata(1)) }
}

fn names(files: &[File]) -> Vec<String> {
    files.iter().map(|file| file.name.clone()).collect()
}

fn sample() -> Vec<RawEntry> {
    vec![
        entry("zeta", regular()),
        entry(".hidden", regular()),
        entry("alpha", directory()),
        entry("Beta", regular()),
        entry(".config", directory()),
        entry("gamma.txt", regular()),
    ]
}

#[test]
fn record_carries_the_metadata() {
    let raw = RawEntry {
        name: "report.pdf".to_string(),
        file_type: Some(regular()),
        metadata: Some(EntryMetadata {
            size: 123_456,
            ino: 42,
            uid: 501,
            gid: 20,
            mode: 0o100640,
            atime: -5,
            modified: 1_650_000_000,
        }),
    };
    let file = to_file(raw).unwrap();
    assert_eq!(file.name, "report.pdf");
    assert_eq!(file.kind, Kind::File);
    assert_eq!(file.size, 123_456);
    assert_eq!(file.ino, 42);
    assert_eq!(file.uid, 501);
    assert_eq!(file.gid, 20);
    assert_eq!(file.mode, 0o100640);
    assert_eq!(file.atime, -5);
    assert_eq!(file.modified, 1_650_000_000);
}

#[test]
fn each_kind_is_told_from_its_own_answer() {
    let cases = [
        (EntryType { is_dir: true, ..no_type() }, Kind::Dir),
        (EntryType { is_file: true, ..no_type() }, Kind::File),
        (EntryType { is_symlink: true, ..no_type() }, Kind::Link),
        (EntryType { is_block_device: true, ..no_type() }, Kind::Block),
        (EntryType { is_char_device: true, ..no_type() }, Kind::Char),
        (EntryType { is_fifo: true, ..no_type() }, Kind::Fifo),
        (EntryType { is_socket: true, ..no_type() }, Kind::Socket),
    ];
    for (file_type, kind) in cases {
        assert_eq!(to_file(entry("x", file_type)).unwrap().kind, kind);
    }
}

#[test]
fn the_first_answer_in_priority_order_wins() {
    let all = EntryType {
        is_dir: true,
        is_file: true,
        is_symlink: true,
        is_block_device: true,
        is_char_device: true,
        is_fifo: true,
        is_socket: true,
    };
    assert_eq!(to_file(entry("x", all)).unwrap().kind, Kind::Dir);
    let without_dir = EntryType { is_dir: false, ..all };
    assert_eq!(to_file(entry("x", without_dir)).unwrap().kind, Kind::File);
    let without_file = EntryType { is_file: false, ..without_dir };
    assert_eq!(to_file(entry("x", without_file)).unwrap().kind, Kind::Link);
    let without_link = EntryType { is_symlink: false, ..without_file };
    assert_eq!(to_file(entry("x", without_link)).unwrap().kind, Kind::Block);
    let without_block = EntryType { is_block_device: false, ..without_link };
    assert_eq!(to_file(entry("x", without_block)).unwrap().kind, Kind::Char);
    let without_char = EntryType { is_char_device: false, ..without_block };
    assert_eq!(to_file(entry("x", without_char)).unwrap().kind, Kind::Fifo);
    let without_fifo = EntryType { is_fifo: false, ..without_char };
    assert_eq!(to_file(entry("x", without_fifo)).unwrap().kind, Kind::Socket);
}

#[test]
fn unknown_type_is_an_error_not_a_guess() {
    let error = to_file(entry("odd", no_type())).unwrap_err();
    assert_eq!(error.kind, LSErrorKind::UnknownFileType);
    assert_eq!(error.message, "odd");
}

#[test]
fn unreadable_type_is_metadata_unavailable() {
    let raw = RawEntry { name: "gone".to_string(), file_type: None, metadata: Some(metadata(1)) };
    let error = to_file(raw).unwrap_err();
    assert_eq!(error.kind, LSErrorKind::MetadataUnavailable);
    assert_eq!(error.message, "gone");
}

#[test]
fn unreadable_metadata_is_metadata_unavailable() {
    let raw = RawEntry { name: "locked".to_string(), file_type: Some(regular()), metadata: None };
    let error = to_file(raw).unwrap_err();
    assert_eq!(error.kind, LSErrorKind::MetadataUnavailable);
    assert_eq!(error.message, "locked");
}

#[test]
fn unknown_type_is_reported_before_missing_metadata() {
    let raw = RawEntry { name: "both".to_string(), file_type: Some(no_type()), metadata: None };
    assert_eq!(to_file(raw).unwrap_err().kind, LSErrorKind::UnknownFileType);
}

#[test]
fn hidden_entries_are_left_out_by_default() {
    let files = get_files(".".to_string(), Some(sample()), false, false).unwrap();
    assert_eq!(names(&files), ["zeta", "alpha", "Beta", "gamma.txt"]);
    assert!(files.iter().all(|file| !file.name.starts_with('.')));
}

#[test]
fn hidden_entries_are_listed_on_request() {
    let files = get_files(".".to_string(), Some(sample()), true, false).unwrap();
    assert_eq!(names(&files), ["zeta", ".hidden", "alpha", "Beta", ".config", "gamma.txt"]);
}

#[test]
fn unsorted_listing_keeps_the_order_given() {
    let files = get_files(".".to_string(), Some(sample()), false, false).unwrap();
    assert_eq!(names(&files), ["zeta", "alpha", "Beta", "gamma.txt"]);
}

#[test]
fn sorted_listing_is_in_byte_order() {
    let files = get_files(".".to_string(), Some(sample()), true, true).unwrap();
    // '.' (0x2e) < 'B' (0x42) < 'a' (0x61)
    assert_eq!(names(&files), [".config", ".hidden", "Beta", "alpha", "gamma.txt", "zeta"]);
    for pair in files.windows(2) {
        assert!(pair[0].name.as_bytes() <= pair[1].name.as_bytes());
    }
}

#[test]
fn sorted_listing_without_hidden_entries() {
    let files = get_files(".".to_string(), Some(sample()), false, true).unwrap();
    assert_eq!(names(&files), ["Beta", "alpha", "gamma.txt", "zeta"]);
}

#[test]
fn sorting_twice_gives_the_same_order() {
    let first = get_files(".".to_string(), Some(sample()), true, true).unwrap();
    let second = get_files(".".to_string(), Some(sample()), true, true).unwrap();
    assert_eq!(names(&first), names(&second));
}

#[test]
fn sorted_order_does_not_depend_on_the_order_given() {
    let mut reversed = sample();
    reversed.reverse();
    let first = get_files(".".to_string(), Some(sample()), true, true).unwrap();
    let second = get_files(".".to_string(), Some(reversed), true, true).unwrap();
    assert_eq!(names(&first), names(&second));
}

#[test]
fn a_prefix_sorts_before_a_longer_name() {
    let entries =
        vec![entry("ab", regular()), entry("a", regular()), entry("abc", regular()), entry("aa", regular())];
    let files = get_files(".".to_string(), Some(entries), false, true).unwrap();
    assert_eq!(names(&files), ["a", "aa", "ab", "abc"]);
}

#[test]
fn names_beyond_ascii_sort_by_their_bytes() {
    let entries = vec![entry("é", regular()), entry("z", regular()), entry("e", regular()), entry("~", regular())];
    let files = get_files(".".to_string(), Some(entries), false, true).unwrap();
    assert_eq!(names(&files), ["e", "z", "~", "é"]);
}

#[test]
fn records_keep_their_own_metadata_when_sorted() {
    let mut b = entry("b", regular());
    b.metadata = Some(metadata(22));
    let mut a = entry("a", directory());
    a.metadata = Some(metadata(11));
    let files = get_files(".".to_string(), Some(vec![b, a]), false, true).unwrap();
    assert_eq!(files[0].name, "a");
    assert_eq!(files[0].size, 11);
    assert_eq!(files[0].kind, Kind::Dir);
    assert_eq!(files[1].name, "b");
    assert_eq!(files[1].size, 22);
    assert_eq!(files[1].kind, Kind::File);
}

#[test]
fn records_of_one_name_keep_their_order_when_sorted() {
    let mut first = entry("same", regular());
    first.metadata = Some(metadata(1));
    let mut second = entry("same", regular());
    second.metadata = Some(metadata(2));
    let mut third = entry("same", regular());
    third.metadata = Some(metadata(3));
    let files =
        get_files(".".to_string(), Some(vec![first, entry("zz", regular()), second, entry("aa", regular()), third]), false, true)
            .unwrap();
    assert_eq!(names(&files), ["aa", "same", "same", "same", "zz"]);
    assert_eq!(files[1].size, 1);
    assert_eq!(files[2].size, 2);
    assert_eq!(files[3].size, 3);
}

#[test]
fn empty_directory_lists_nothing() {
    let files = get_files(".".to_string(), Some(Vec::new()), true, true).unwrap();
    assert!(files.is_empty());
}

#[test]
fn directory_of_hidden_entries_only() {
    let entries = vec![entry(".a", regular()), entry(".b", regular())];
    let files = get_files(".".to_string(), Some(entries), false, true).unwrap();
    assert!(files.is_empty());
}

#[test]
fn a_dot_inside_a_name_does_not_hide_it() {
    let entries = vec![entry("a.b", regular()), entry("c.", regular()), entry(".", directory())];
    let files = get_files(".".to_string(), Some(entries), false, false).unwrap();
    assert_eq!(names(&files), ["a.b", "c."]);
}

#[test]
fn unreadable_directory_fails_the_listing() {
    let error = get_files("/no/such/place".to_string(), None, false, true).unwrap_err();
    assert_eq!(error.kind, LSErrorKind::DirectoryUnreadable);
    assert_eq!(error.message, "/no/such/place");
}

#[test]
fn unknown_type_fails_the_whole_listing() {
    let entries = vec![entry("fine", regular()), entry("odd", no_type()), entry("also-fine", regular())];
    let result = get_files(".".to_string(), Some(entries), true, true);
    let error = result.unwrap_err();
    assert_eq!(error.kind, LSErrorKind::UnknownFileType);
    assert_eq!(error.message, "odd");
}

#[test]
fn missing_metadata_fails_the_whole_listing() {
    let mut broken = entry("broken", regular());
    broken.metadata = None;
    let entries = vec![entry("fine", regular()), broken];
    let error = get_files(".".to_string(), Some(entries), false, false).unwrap_err();
    assert_eq!(error.kind, LSErrorKind::MetadataUnavailable);
    assert_eq!(error.message, "broken");
}

#[test]
fn error_in_a_hidden_entry_surfaces_though_hidden_entries_are_left_out() {
    let entries = vec![entry("fine", regular()), entry(".odd", no_type())];
    let error = get_files(".".to_string(), Some(entries), false, true).unwrap_err();
    assert_eq!(error.kind, LSErrorKind::UnknownFileType);
    assert_eq!(error.message, ".odd");
}

#[test]
fn the_first_failing_entry_gives_the_error() {
    let mut broken = entry("broken", regular());
    broken.metadata = None;
    let entries = vec![entry("fine", regular()), broken, entry("odd", no_type())];
    let error = get_files(".".to_string(), Some(entries), true, false).unwrap_err();
    assert_eq!(error.kind, LSErrorKind::MetadataUnavailable);
    assert_eq!(error.message, "broken");
}

#[test]
fn many_entries_sort_like_a_stable_sort_by_bytes() {
    // names from a small alphabet, so that many occur more than once
    let mut state: u32 = 12345;
    let mut entries = Vec::new();
    for size in 0..2000u64 {
        let mut name = String::new();
        for _ in 0..3 {
            state = state.wrapping_mul(1_103_515_245).wrapping_add(12_345);
            name.push((b'a' + ((state >> 16) % 5) as u8) as char);
        }
        let mut one = entry(&name, regular());
        one.metadata = Some(metadata(size));
        entries.push(one);
    }
    let mut expected: Vec<(String, u64)> = entries
        .iter()
        .map(|one| (one.name.clone(), one.metadata.as_ref().unwrap().size))
        .collect();
    expected.sort_by(|a, b| a.0.as_bytes().cmp(b.0.as_bytes()));
    let files = get_files(".".to_string(), Some(entries), true, true).unwrap();
    let got: Vec<(String, u64)> = files.iter().map(|file| (file.name.clone(), file.size)).collect();
    assert_eq!(got, expected);
}

#[test]
fn one_and_two_entries_sort() {
    let files = get_files(".".to_string(), Some(vec![entry("only", regular())]), false, true).unwrap();
    assert_eq!(names(&files), ["only"]);
    let files =
        get_files(".".to_string(), Some(vec![entry("b", regular()), entry("a", regular())]), false, true).unwrap();
    assert_eq!(names(&files), ["a", "b"]);
    let files =
        get_files(".".to_string(), Some(vec![entry("a", regular()), entry("b", regular())]), false, true).unwrap();
    assert_eq!(names(&files), ["a", "b"]);
}
