use dirlist::{resolve_group, resolve_user};

const PASSWD: &str = "root:x:0:0:root:/root:/bin/bash\n\
daemon:x:1:1:daemon:/usr/sbin:/usr/sbin/nologin\n\
alice:x:1000:1000:Alice,,,:/home/alice:/bin/bash\n\
nobody:x:65534:65534:nobody:/nonexistent:/usr/sbin/nologin\n";

const GROUP: &str = "root:x:0:\nstaff:x:50:alice,bob\nusers:x:100:\n";

#[test]
fn unreadable_database_gives_the_placeholder() {
    assert_eq!(resolve_user(0, None), "????");
    assert_eq!(resolve_user(1000, None), "????");
    assert_eq!(resolve_group(0, None), "????");
    assert_eq!(resolve_group(u32::MAX, None), "????");
}

#[test]
fn known_user() {
    assert_eq!(resolve_user(0, Some(PASSWD)), "root");
    assert_eq!(resolve_user(1, Some(PASSWD)), "daemon");
    assert_eq!(resolve_user(1000, Some(PASSWD)), "alice");
    assert_eq!(resolve_user(65534, Some(PASSWD)), "nobody");
}

#[test]
fn known_group() {
    assert_eq!(resolve_group(0, Some(GROUP)), "root");
    assert_eq!(resolve_group(50, Some(GROUP)), "staff");
    assert_eq!(resolve_group(100, Some(GROUP)), "users");
}

#[test]
fn unknown_id_gives_the_empty_name() {
    assert_eq!(resolve_user(4242, Some(PASSWD)), "");
    assert_eq!(resolve_group(4242, Some(GROUP)), "");
}

#[test]
fn empty_database_gives_the_empty_name() {
    assert_eq!(resolve_user(0, Some("")), "");
}

#[test]
fn first_matching_record_wins() {
    let text = "first:x:7:7::/:/bin/sh\nsecond:x:7:7::/:/bin/sh\n";
    assert_eq!(resolve_user(7, Some(text)), "first");
}

#[test]
fn the_id_is_the_third_field_only() {
    // 5 stands in the fourth field of the first record, in the third of the second.
    let text = "wrong:x:4:5::/:/bin/sh\nright:x:5:4::/:/bin/sh\n";
    assert_eq!(resolve_user(5, Some(text)), "right");
    assert_eq!(resolve_user(4, Some(text)), "wrong");
}

#[test]
fn records_with_fewer_than_three_fields_are_passed_over() {
    assert_eq!(resolve_user(3, Some("short:3\nname:x:3\n")), "name");
    assert_eq!(resolve_user(3, Some("short:3\n")), "");
    assert_eq!(resolve_user(3, Some("3\n")), "");
}

#[test]
fn three_fields_are_enough() {
    assert_eq!(resolve_group(9, Some("tiny:x:9")), "tiny");
}

#[test]
fn last_line_needs_no_line_end() {
    assert_eq!(resolve_user(2, Some("a:x:1:\nb:x:2:")), "b");
}

#[test]
fn id_field_that_is_no_number_is_passed_over() {
    let text = "bad:x:abc:\nworse:x::\nneg:x:-1:\nspace:x: 8:\nhex:x:0x8:\ngood:x:8:\n";
    assert_eq!(resolve_user(8, Some(text)), "good");
    assert_eq!(resolve_user(0, Some(text)), "");
    assert_eq!(resolve_user(1, Some(text)), "");
}

#[test]
fn id_field_may_have_a_plus_sign_and_leading_zeros() {
    assert_eq!(resolve_user(12, Some("plus:x:+12:\n")), "plus");
    assert_eq!(resolve_user(12, Some("zeros:x:00012:\n")), "zeros");
    assert_eq!(resolve_user(12, Some("both:x:+0012:\n")), "both");
    assert_eq!(resolve_user(12, Some("twice:x:++12:\n")), "");
    assert_eq!(resolve_user(0, Some("sign:x:+:\n")), "");
}

#[test]
fn id_field_beyond_32_bits_is_passed_over() {
    assert_eq!(resolve_user(u32::MAX, Some("max:x:4294967295:\n")), "max");
    assert_eq!(resolve_user(0, Some("over:x:4294967296:\n")), "");
    assert_eq!(resolve_user(u32::MAX, Some("over:x:4294967296:\n")), "");
    assert_eq!(resolve_user(1, Some("huge:x:99999999999999999999999999:\nok:x:1:\n")), "ok");
}

#[test]
fn name_may_be_empty_or_not_ascii() {
    assert_eq!(resolve_user(6, Some(":x:6:\n")), "");
    assert_eq!(resolve_user(6, Some("zoë:x:6:\n")), "zoë");
}

#[test]
fn user_and_group_lookups_read_their_text_alike() {
    for id in [0u32, 1, 50, 100, 1000, 65534, 7] {
        assert_eq!(resolve_user(id, Some(PASSWD)), resolve_group(id, Some(PASSWD)));
        assert_eq!(resolve_user(id, Some(GROUP)), resolve_group(id, Some(GROUP)));
    }
}
