use dirlist::{parse, usage, Invocation, _parse};

fn words(list: &[&str]) -> Vec<String> {
    list.iter().map(|word| word.to_string()).collect()
}

#[test]
fn no_words_after_the_command_gives_the_defaults() {
    let mut args = words(&["ls"]);
    let options = _parse(&mut args).unwrap();
    assert_eq!(options.path, ".");
    assert!(!options.show_long);
    assert!(!options.show_all);
    assert!(!options.show_help);
    assert!(options.sort_lex);
    assert!(args.is_empty());
}

#[test]
fn a_single_operand_is_the_path() {
    let mut args = words(&["ls", "/tmp"]);
    let options = _parse(&mut args).unwrap();
    assert_eq!(options.path, "/tmp");
    assert!(args.is_empty());
}

#[test]
fn short_flags() {
    let mut args = words(&["ls", "-l", "-a", "-h", "-s"]);
    let options = _parse(&mut args).unwrap();
    assert!(options.show_long);
    assert!(options.show_all);
    assert!(options.show_help);
    assert!(options.sort_lex);
    assert_eq!(options.path, ".");
}

#[test]
fn long_flags() {
    let mut args = words(&["ls", "--long", "--all", "--help", "--sort"]);
    let options = _parse(&mut args).unwrap();
    assert!(options.show_long);
    assert!(options.show_all);
    assert!(options.show_help);
    assert!(options.sort_lex);
}

#[test]
fn each_flag_sets_its_own_switch_only() {
    let options = _parse(&mut words(&["ls", "-l"])).unwrap();
    assert!(options.show_long && !options.show_all && !options.show_help);
    let options = _parse(&mut words(&["ls", "--all"])).unwrap();
    assert!(!options.show_long && options.show_all && !options.show_help);
    let options = _parse(&mut words(&["ls", "-h"])).unwrap();
    assert!(!options.show_long && !options.show_all && options.show_help);
    let options = _parse(&mut words(&["ls", "--sort"])).unwrap();
    assert!(!options.show_long && !options.show_all && !options.show_help && options.sort_lex);
}

#[test]
fn flags_and_path_in_any_order() {
    let options = _parse(&mut words(&["ls", "-l", "src", "-a"])).unwrap();
    assert_eq!(options.path, "src");
    assert!(options.show_long && options.show_all);
    let options = _parse(&mut words(&["ls", "src", "--long"])).unwrap();
    assert_eq!(options.path, "src");
    assert!(options.show_long && !options.show_all);
}

#[test]
fn the_command_name_is_never_read_as_a_flag() {
    let options = _parse(&mut words(&["-l"])).unwrap();
    assert!(!options.show_long);
    assert_eq!(options.path, ".");
    let options = _parse(&mut words(&["some-dir", "-a"])).unwrap();
    assert_eq!(options.path, ".");
    assert!(options.show_all);
}

#[test]
fn a_second_operand_is_refused() {
    let mut args = words(&["ls", "one", "two"]);
    let error = _parse(&mut args).unwrap_err();
    // words are read from the last one backwards: "two" is taken as the
    // path, and "one" is the word that cannot be placed
    assert_eq!(error.message(), "one");
    assert_eq!(error.to_string(), "bad argument: one");
    assert!(args.is_empty());
}

#[test]
fn reading_stops_at_the_refused_word() {
    let mut args = words(&["ls", "-l", "first", "-a", "second", "-h", "third"]);
    let error = _parse(&mut args).unwrap_err();
    assert_eq!(error.message(), "second");
    assert_eq!(args, words(&["-l", "first", "-a"]));
}

#[test]
fn unknown_flags_are_operands() {
    let options = _parse(&mut words(&["ls", "-x"])).unwrap();
    assert_eq!(options.path, "-x");
    let error = _parse(&mut words(&["ls", "--color", "dir"])).unwrap_err();
    assert_eq!(error.message(), "--color");
    let options = _parse(&mut words(&["ls", "-la"])).unwrap();
    assert_eq!(options.path, "-la");
    assert!(!options.show_long && !options.show_all);
}

#[test]
fn an_empty_word_is_an_operand() {
    let options = _parse(&mut words(&["ls", ""])).unwrap();
    assert_eq!(options.path, "");
}

#[test]
fn repeated_flags_are_accepted() {
    let options = _parse(&mut words(&["ls", "-l", "--long", "-l"])).unwrap();
    assert!(options.show_long);
}

#[test]
fn usage_names_every_flag() {
    let text = usage();
    for flag in ["-l", "--long", "-a", "--all", "-s", "--sort", "-h", "--help"] {
        assert!(text.contains(flag), "{}", flag);
    }
    assert!(text.contains("Usage: ls [OPTION]... [PATH]"));
}

#[test]
fn a_plain_line_is_run() {
    let mut args = words(&["ls", "-a", "/etc"]);
    match parse(&mut args) {
        Invocation::Run(options) => {
            assert_eq!(options.path, "/etc");
            assert!(options.show_all);
            assert!(!options.show_long);
            assert!(!options.show_help);
            assert!(options.sort_lex);
        }
        other => panic!("{:?}", other),
    }
    assert!(args.is_empty());
}

#[test]
fn a_line_with_the_help_flag_asks_for_the_usage_text() {
    assert!(matches!(parse(&mut words(&["ls", "-h"])), Invocation::Help));
    assert!(matches!(parse(&mut words(&["ls", "--help", "-l", "dir"])), Invocation::Help));
}

#[test]
fn a_line_with_two_paths_is_rejected_even_with_the_help_flag() {
    let mut args = words(&["ls", "-h", "one", "two"]);
    match parse(&mut args) {
        Invocation::Reject(error) => {
            assert_eq!(error.message(), "one");
            assert_eq!(error.to_string(), "bad argument: one");
        }
        other => panic!("{:?}", other),
    }
    assert_eq!(args, words(&["-h"]));
}
