//! Command-line words to listing options.
//!
//! The first word is the command's own name and is dropped. Of the others,
//! eight are flags; any other word is an operand and names the directory to
//! list. The words are read from the last one backwards, and a second operand
//! is refused.

use vstd::prelude::*;
use vstd::string::StringExecFns;
use crate::text::{str_eq, texts};

verus! {

/// A word that the parser could not place. Its view is the offending word.
#[derive(Debug)]
pub struct ParserError {
    message: String,
}

impl View for ParserError {
    type V = Seq<char>;

    closed spec fn view(&self) -> Seq<char> {
        self.message@
    }
}

impl ParserError {
    /// The word that was refused.
    pub fn message(&self) -> (word: &str)
        ensures
            word@ == self@,
    {
        self.message.as_str()
    }

    /// The error as a line of text for the user.
    pub fn to_string(&self) -> (line: String)
        ensures
            line@ == "bad argument: "@ + self@,
    {
        String::from_str("bad argument: ").concat(self.message.as_str())
    }
}

/// What the command line asked for.
#[derive(Debug)]
pub struct CommandOptions {
    /// The directory to list.
    pub path: String,
    /// Long format: one aligned row of metadata per entry.
    pub show_long: bool,
    /// Entries whose name starts with a dot are listed too.
    pub show_all: bool,
    /// Entries are ordered by name.
    pub sort_lex: bool,
    /// The usage text was asked for.
    pub show_help: bool,
}

/// Options as plain values.
pub struct CommandOptionsView {
    pub path: Seq<char>,
    pub show_long: bool,
    pub show_all: bool,
    pub sort_lex: bool,
    pub show_help: bool,
}

impl View for CommandOptions {
    type V = CommandOptionsView;

    open spec fn view(&self) -> CommandOptionsView {
        CommandOptionsView {
            path: self.path@,
            show_long: self.show_long,
            show_all: self.show_all,
            sort_lex: self.sort_lex,
            show_help: self.show_help,
        }
    }
}

/// What is to be done after the command line was read.
#[derive(Debug)]
pub enum Invocation {
    /// List with these options.
    Run(CommandOptions),
    /// Show the usage text and end successfully.
    Help,
    /// Report the error, show the usage text and end with a failure.
    Reject(ParserError),
}

/// Whether `word` is one of the eight flags.
pub open spec fn is_flag(word: Seq<char>) -> bool {
    ||| word == "-l"@
    ||| word == "--long"@
    ||| word == "-a"@
    ||| word == "--all"@
    ||| word == "-s"@
    ||| word == "--sort"@
    ||| word == "-h"@
    ||| word == "--help"@
}

/// The position of the last operand among `words[1..end]`, or 0 where there
/// is none. Position 0 holds the command's name and is never an operand.
pub open spec fn last_operand(words: Seq<Seq<char>>, end: int) -> int
    decreases end,
{
    if end <= 1 {
        0
    } else if !is_flag(words[end - 1]) {
        end - 1
    } else {
        last_operand(words, end - 1)
    }
}

/// Whether one of `words[from..]` is the flag in its short or its long form.
pub open spec fn mentions(
    words: Seq<Seq<char>>,
    from: int,
    short: Seq<char>,
    long: Seq<char>,
) -> bool {
    exists|i: int| from <= i < words.len() && (#[trigger] words[i] == short || words[i] == long)
}

/// The usage text.
pub fn usage() -> (text: &'static str)
    ensures
        text@ == USAGE@,
{
    USAGE
}

/// The text that `usage` returns.
pub const USAGE: &'static str = "
Usage: ls [OPTION]... [PATH]

Lists the entries of a directory.

Arguments:
-l --long (false)   use long listing format
-a --all  (false)   do not ignore entries starting with \".\"
-s --sort (true)    sort names lexicographically
-h --help           display this help dialog
";

/// What a command line means. `words[0]` is the command's name.
///
/// With at most one operand it is `Ok`: the path is the operand, or `.`
/// without one; each switch is on exactly when one of its two spellings
/// occurs after the command's name; names are always sorted. With two or more
/// operands it is `Err` with the last operand but one, the word at which
/// reading from the back comes upon a second path.
pub open spec fn parsed(words: Seq<Seq<char>>) -> Result<CommandOptionsView, Seq<char>> {
    let last = last_operand(words, words.len() as int);
    let extra = last_operand(words, last);
    if extra > 0 {
        Err(words[extra])
    } else {
        Ok(
            CommandOptionsView {
                path: if last > 0 {
                    words[last]
                } else {
                    "."@
                },
                show_long: mentions(words, 1, "-l"@, "--long"@),
                show_all: mentions(words, 1, "-a"@, "--all"@),
                sort_lex: true,
                show_help: mentions(words, 1, "-h"@, "--help"@),
            },
        )
    }
}

/// How many of the words after the command's name are left unread: none
/// when the line was accepted, else those in front of the refused word.
pub open spec fn unread(words: Seq<Seq<char>>) -> int {
    let extra = last_operand(words, last_operand(words, words.len() as int));
    if extra > 0 {
        extra - 1
    } else {
        0
    }
}

/// Reads the command line, from the last word backwards.
///
/// The result is what `parsed` says of the words. On success all words are
/// consumed; on failure the words in front of the refused one are left in
/// `args`.
pub fn _parse(args: &mut Vec<String>) -> (result: Result<CommandOptions, ParserError>)
    requires
        old(args).len() > 0,
    ensures
        match result {
            Ok(options) => parsed(texts(old(args)@)) == Ok::<CommandOptionsView, Seq<char>>(
                options@,
            ),
            Err(error) => parsed(texts(old(args)@)) == Err::<CommandOptionsView, Seq<char>>(
                error@,
            ),
        },
        final(args)@ == old(args)@.subrange(1, 1 + unread(texts(old(args)@))),
{
    let ghost given = args@;
    let ghost w = texts(given);
    let ghost count = given.len() as int;
    let ghost last = last_operand(w, count);
    proof {
        lemma_last_operand_bounds(w, count);
        lemma_last_operand_bounds(w, last);
    }
    let mut path: Option<String> = None;
    let mut show_long = false;
    let mut show_all = false;
    let mut show_help = false;
    let mut sort_lex = true;
    // the command's name
    args.remove(0);
    assert(args@ =~= given.subrange(1, count));
    while args.len() > 0
        invariant
            given == old(args)@,
            w == texts(given),
            count == given.len(),
            last == last_operand(w, count),
            0 <= last < count,
            args.len() + 1 <= count,
            args@ == given.subrange(1, args.len() + 1),
            match path {
                None => last == last_operand(w, args.len() + 1),
                Some(word) => {
                    &&& args.len() + 1 <= last
                    &&& word@ == w[last]
                    &&& last_operand(w, last) == last_operand(w, args.len() + 1)
                },
            },
            show_long == mentions(w, args.len() + 1, "-l"@, "--long"@),
            show_all == mentions(w, args.len() + 1, "-a"@, "--all"@),
            show_help == mentions(w, args.len() + 1, "-h"@, "--help"@),
            sort_lex,
        decreases args.len(),
    {
        let ghost end = args.len() + 1;
        let ghost at = end - 1;
        let next = args.pop().unwrap();
        assert(next@ == w[at]);
        assert(args@ =~= given.subrange(1, at));
        let is_long = str_eq(next.as_str(), "-l") || str_eq(next.as_str(), "--long");
        let is_all = str_eq(next.as_str(), "-a") || str_eq(next.as_str(), "--all");
        let is_sort = str_eq(next.as_str(), "-s") || str_eq(next.as_str(), "--sort");
        let is_help = str_eq(next.as_str(), "-h") || str_eq(next.as_str(), "--help");
        proof {
            lemma_mentions_step(w, at, "-l"@, "--long"@);
            lemma_mentions_step(w, at, "-a"@, "--all"@);
            lemma_mentions_step(w, at, "-h"@, "--help"@);
        }
        if is_long {
            show_long = true;
        }
        if is_all {
            show_all = true;
        }
        if is_sort {
            sort_lex = true;
        }
        if is_help {
            show_help = true;
        }
        if !(is_long || is_all || is_sort || is_help) {
            assert(!is_flag(w[at]));
            assert(last_operand(w, at + 1) == at);
            match path {
                Some(_) => {
                    return Err(ParserError { message: next });
                },
                None => {
                    path = Some(next);
                },
            }
        } else {
            assert(is_flag(w[at]));
            assert(last_operand(w, at + 1) == last_operand(w, at));
        }
    }
    proof {
        assert(args@ =~= given.subrange(1, 1));
    }
    let path = match path {
        Some(word) => word,
        None => String::from_str("."),
    };
    Ok(CommandOptions { path, show_long, show_all, sort_lex, show_help })
}

/// The last operand before `end` lies before `end`; where the result is not
/// 0, it is the position of an operand.
pub proof fn lemma_last_operand_bounds(words: Seq<Seq<char>>, end: int)
    ensures
        0 <= last_operand(words, end),
        end >= 1 ==> last_operand(words, end) < end,
        last_operand(words, end) > 0 ==> !is_flag(words[last_operand(words, end)]),
    decreases end,
{
    if end > 1 && is_flag(words[end - 1]) {
        lemma_last_operand_bounds(words, end - 1);
    }
}

/// A switch is mentioned from `at` on when it is mentioned at `at` or after it.
proof fn lemma_mentions_step(words: Seq<Seq<char>>, at: int, short: Seq<char>, long: Seq<char>)
    requires
        0 <= at < words.len(),
    ensures
        mentions(words, at, short, long) == (words[at] == short || words[at] == long || mentions(
            words,
            at + 1,
            short,
            long,
        )),
{
    if mentions(words, at, short, long) {
        let i = choose|i: int|
            at <= i < words.len() && (#[trigger] words[i] == short || words[i] == long);
        if i != at {
            assert(at + 1 <= i < words.len() && (words[i] == short || words[i] == long));
        }
    }
    if mentions(words, at + 1, short, long) {
        let i = choose|i: int|
            at + 1 <= i < words.len() && (#[trigger] words[i] == short || words[i] == long);
        assert(at <= i < words.len() && (words[i] == short || words[i] == long));
    }
}

/// Reads the command line and says what is to be done: list, show the
/// usage text because help was asked for, or reject the line.
pub fn parse(args: &mut Vec<String>) -> (outcome: Invocation)
    requires
        old(args).len() > 0,
    ensures
        match outcome {
            Invocation::Run(options) => parsed(texts(old(args)@)) == Ok::<
                CommandOptionsView,
                Seq<char>,
            >(options@) && !options.show_help,
            Invocation::Help => parsed(texts(old(args)@)) is Ok && parsed(
                texts(old(args)@),
            )->Ok_0.show_help,
            Invocation::Reject(error) => parsed(texts(old(args)@)) == Err::<
                CommandOptionsView,
                Seq<char>,
            >(error@),
        },
        final(args)@ == old(args)@.subrange(1, 1 + unread(texts(old(args)@))),
{
    match _parse(args) {
        Ok(options) => {
            if options.show_help {
                Invocation::Help
            } else {
                Invocation::Run(options)
            }
        },
        Err(error) => Invocation::Reject(error),
    }
}

} // verus!
