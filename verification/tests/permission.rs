use dirlist::to_unix_permission;

#[test]
fn plain_directory_mode() {
    assert_eq!(to_unix_permission(0o755), "rwxr-xr-x");
}

#[test]
fn plain_file_mode() {
    assert_eq!(to_unix_permission(0o644), "rw-r--r--");
}

#[test]
fn no_bits_set() {
    assert_eq!(to_unix_permission(0), "---------");
}

#[test]
fn all_permission_bits_set() {
    assert_eq!(to_unix_permission(0o777), "rwxrwxrwx");
}

#[test]
fn each_single_bit() {
    assert_eq!(to_unix_permission(0o400), "r--------");
    assert_eq!(to_unix_permission(0o200), "-w-------");
    assert_eq!(to_unix_permission(0o100), "--x------");
    assert_eq!(to_unix_permission(0o040), "---r-----");
    assert_eq!(to_unix_permission(0o020), "----w----");
    assert_eq!(to_unix_permission(0o010), "-----x---");
    assert_eq!(to_unix_permission(0o004), "------r--");
    assert_eq!(to_unix_permission(0o002), "-------w-");
    assert_eq!(to_unix_permission(0o001), "--------x");
}

#[test]
fn setuid_over_execute_is_lower_case() {
    assert_eq!(to_unix_permission(0o4755), "rwsr-xr-x");
}

#[test]
fn setuid_without_execute_is_upper_case() {
    assert_eq!(to_unix_permission(0o4644), "rwSr--r--");
}

#[test]
fn setgid_over_execute_is_lower_case() {
    assert_eq!(to_unix_permission(0o2755), "rwxr-sr-x");
}

#[test]
fn setgid_without_execute_is_upper_case() {
    assert_eq!(to_unix_permission(0o2745), "rwxr-Sr-x");
}

#[test]
fn sticky_over_execute_is_lower_case() {
    assert_eq!(to_unix_permission(0o1777), "rwxrwxrwt");
}

#[test]
fn sticky_without_execute_is_upper_case() {
    assert_eq!(to_unix_permission(0o1776), "rwxrwxrwT");
}

#[test]
fn all_special_bits_alone() {
    assert_eq!(to_unix_permission(0o7000), "--S--S--T");
}

#[test]
fn all_twelve_bits() {
    assert_eq!(to_unix_permission(0o7777), "rwsrwsrwt");
}

#[test]
fn file_type_bits_are_ignored() {
    assert_eq!(to_unix_permission(0o100644), "rw-r--r--");
    assert_eq!(to_unix_permission(0o040755), "rwxr-xr-x");
    assert_eq!(to_unix_permission(0xFFFF_F000), "---------");
    assert_eq!(to_unix_permission(u32::MAX), "rwsrwsrwt");
}

#[test]
fn every_mode_gives_nine_characters_of_the_alphabet() {
    for mode in 0u32..0o10000 {
        let text = to_unix_permission(mode);
        assert_eq!(text.chars().count(), 9, "mode {:o}", mode);
        assert_eq!(text.len(), 9, "mode {:o}", mode);
        assert!(text.chars().all(|c| "rwxsStT-".contains(c)), "mode {:o}", mode);
    }
}

#[test]
fn without_special_bits_each_position_follows_its_bit() {
    let masks: [(u32, char); 9] = [
        (0o400, 'r'),
        (0o200, 'w'),
        (0o100, 'x'),
        (0o040, 'r'),
        (0o020, 'w'),
        (0o010, 'x'),
        (0o004, 'r'),
        (0o002, 'w'),
        (0o001, 'x'),
    ];
    for mode in 0u32..0o1000 {
        let text: Vec<char> = to_unix_permission(mode).chars().collect();
        for (position, (mask, letter)) in masks.iter().enumerate() {
            let expected = if mode & mask != 0 { *letter } else { '-' };
            assert_eq!(text[position], expected, "mode {:o}, position {}", mode, position);
        }
    }
}

#[test]
fn high_bits_never_change_the_text() {
    for mode in 0u32..0o10000 {
        assert_eq!(to_unix_permission(mode | 0xABCD_0000), to_unix_permission(mode));
    }
}
