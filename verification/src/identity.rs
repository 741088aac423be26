//! Names for numeric user and group ids.
//!
//! The account databases are text: one record per line, the fields of a
//! record parted by colons, the name in the first field and the numeric id in
//! the third. An id resolves to the name of the first record that carries it.

use vstd::prelude::*;
use vstd::string::{StrSliceExecFns, StringExecFns};
use crate::text::{
    decimal,
    digit_char,
    lemma_split_positions,
    piece_at,
    piece_start,
    piece_views,
    split,
    split_chars,
    text_of,
    to_chars,
};

verus! {

/// What an id resolves to when the database could not be read.
pub const UNREADABLE: &'static str = "????";

/// Whether `c` is one of the ten decimal digits.
pub open spec fn is_digit(c: char) -> bool {
    '0' as u32 <= c as u32 <= '9' as u32
}

/// Whether `text` holds decimal digits only.
pub open spec fn all_digits(text: Seq<char>) -> bool {
    forall|i: int| 0 <= i < text.len() ==> is_digit(#[trigger] text[i])
}

/// The number that the digits of `text` stand for in base ten.
pub open spec fn decimal_value(text: Seq<char>) -> nat
    decreases text.len(),
{
    if text.len() == 0 {
        0
    } else {
        decimal_value(text.drop_last()) * 10 + (text.last() as u32 - '0' as u32) as nat
    }
}

/// The digits of an id field: the field itself, without one leading plus
/// sign if it has one.
pub open spec fn id_digits(field: Seq<char>) -> Seq<char> {
    if field.len() > 0 && field[0] == '+' {
        field.drop_first()
    } else {
        field
    }
}

/// The id that a field holds: the field is one or more decimal digits, with
/// at most one plus sign in front, and stands for a number that fits in 32
/// bits. Any other field holds no id.
pub open spec fn parse_id(field: Seq<char>) -> Option<u32> {
    let digits = id_digits(field);
    if digits.len() > 0 && all_digits(digits) && decimal_value(digits) <= u32::MAX {
        Some(decimal_value(digits) as u32)
    } else {
        None
    }
}

/// The name that a line gives to `id`: the line has at least three fields,
/// the third holds `id`, and the name is the first field.
pub open spec fn record_name(line: Seq<char>, id: u32) -> Option<Seq<char>> {
    let fields = split(line, ':');
    if fields.len() > 2 && parse_id(fields[2]) == Some(id) {
        Some(fields[0])
    } else {
        None
    }
}

/// The name of the first of `lines` that gives one to `id`, and the empty
/// name where no line does.
pub open spec fn lookup(lines: Seq<Seq<char>>, id: u32) -> Seq<char>
    decreases lines.len(),
{
    if lines.len() == 0 {
        Seq::empty()
    } else {
        match record_name(lines[0], id) {
            Some(name) => name,
            None => lookup(lines.drop_first(), id),
        }
    }
}

/// What `id` resolves to: a fixed placeholder where the database could not be
/// read (`None`), else the name found in its text, which is empty where the
/// text has no record for `id`.
pub open spec fn resolved(source: Option<Seq<char>>, id: u32) -> Seq<char> {
    match source {
        None => UNREADABLE@,
        Some(text) => lookup(split(text, '\n'), id),
    }
}

/// A lookup gives the name of a line before which no line names the id, or
/// the empty name when no line names it.
pub proof fn lemma_lookup(lines: Seq<Seq<char>>, id: u32)
    ensures
        (exists|i: int|
            0 <= i < lines.len() && record_name(#[trigger] lines[i], id) == Some(lookup(lines, id))
                && forall|k: int| 0 <= k < i ==> record_name(#[trigger] lines[k], id) is None) || (
        lookup(lines, id) == Seq::<char>::empty() && forall|i: int|
            0 <= i < lines.len() ==> record_name(#[trigger] lines[i], id) is None),
    decreases lines.len(),
{
    if lines.len() > 0 {
        match record_name(lines[0], id) {
            Some(name) => {
                assert(record_name(lines[0], id) == Some(lookup(lines, id)));
            },
            None => {
                let rest = lines.drop_first();
                lemma_lookup(rest, id);
                if exists|i: int|
                    0 <= i < rest.len() && record_name(#[trigger] rest[i], id) == Some(
                        lookup(rest, id),
                    ) && forall|k: int| 0 <= k < i ==> record_name(#[trigger] rest[k], id) is None {
                    let i = choose|i: int|
                        0 <= i < rest.len() && record_name(#[trigger] rest[i], id) == Some(
                            lookup(rest, id),
                        ) && forall|k: int|
                            0 <= k < i ==> record_name(#[trigger] rest[k], id) is None;
                    assert(lines[i + 1] == rest[i]);
                    assert forall|k: int| 0 <= k < i + 1 implies record_name(
                        #[trigger] lines[k],
                        id,
                    ) is None by {
                        if k > 0 {
                            assert(lines[k] == rest[k - 1]);
                        }
                    }
                } else {
                    assert forall|i: int| 0 <= i < lines.len() implies record_name(
                        #[trigger] lines[i],
                        id,
                    ) is None by {
                        if i > 0 {
                            assert(lines[i] == rest[i - 1]);
                        }
                    }
                }
            },
        }
    }
}

/// A number below 2^32 written in base ten is an id field that holds it.
pub proof fn lemma_parse_id_of_decimal(id: u32)
    ensures
        parse_id(decimal(id as nat)) == Some(id),
{
    lemma_decimal_digits(id as nat);
}

/// A number written in base ten is one or more digits that stand for it.
pub proof fn lemma_decimal_digits(n: nat)
    ensures
        decimal(n).len() > 0,
        all_digits(decimal(n)),
        decimal_value(decimal(n)) == n,
        id_digits(decimal(n)) == decimal(n),
    decreases n,
{
    if n < 10 {
        assert(decimal(n).drop_last() =~= Seq::<char>::empty());
        assert(decimal_value(decimal(n).drop_last()) == 0);
        assert(decimal(n).last() == digit_char(n));
    } else {
        lemma_decimal_digits(n / 10);
        let front = decimal(n / 10);
        let text = decimal(n);
        assert(text.drop_last() =~= front);
        assert(text.last() == digit_char(n % 10));
        assert forall|i: int| 0 <= i < text.len() implies is_digit(#[trigger] text[i]) by {
            if i < front.len() {
                assert(text[i] == front[i]);
            }
        }
        assert(text[0] == front[0]);
    }
    assert(is_digit(decimal(n)[0]));
}

/// More digits never make a smaller number.
pub proof fn lemma_decimal_value_grows(text: Seq<char>, upto: int)
    requires
        0 <= upto <= text.len(),
        all_digits(text),
    ensures
        decimal_value(text.take(upto)) <= decimal_value(text),
    decreases text.len() - upto,
{
    if upto < text.len() {
        let longer = text.take(upto + 1);
        assert(longer.drop_last() =~= text.take(upto));
        assert(is_digit(text[upto]));
        assert(longer.last() == text[upto]);
        lemma_decimal_value_grows(text, upto + 1);
    } else {
        assert(text.take(upto) =~= text);
    }
}

/// Reads the id that a field holds.
pub fn parse_id_field(field: &Vec<char>) -> (id: Option<u32>)
    ensures
        id == parse_id(field@),
{
    let start: usize = if field.len() > 0 && field[0] == '+' {
        1
    } else {
        0
    };
    let ghost digits = id_digits(field@);
    proof {
        assert(digits =~= field@.skip(start as int));
    }
    if start == field.len() {
        return None;
    }
    let mut value: u64 = 0;
    let mut i: usize = start;
    proof {
        assert(digits.take(0) =~= Seq::<char>::empty());
    }
    while i < field.len()
        invariant
            start <= i <= field.len(),
            digits == id_digits(field@),
            digits == field@.skip(start as int),
            digits.len() > 0,
            all_digits(digits.take(i - start)),
            value == decimal_value(digits.take(i - start)),
            value <= u32::MAX,
        decreases field.len() - i,
    {
        let c = field[i];
        let ghost seen = digits.take(i - start);
        let ghost next = digits.take(i - start + 1);
        proof {
            assert(next.drop_last() =~= seen);
            assert(next.last() == c);
        }
        let code = c as u32;
        if code < '0' as u32 || code > '9' as u32 {
            proof {
                assert(digits[i - start] == c);
                assert(!is_digit(digits[i - start]));
            }
            return None;
        }
        let digit = (code - '0' as u32) as u64;
        value = value * 10 + digit;
        proof {
            assert forall|k: int| 0 <= k < next.len() implies is_digit(#[trigger] next[k]) by {
                if k < seen.len() {
                    assert(next[k] == seen[k]);
                }
            }
        }
        if value > u32::MAX as u64 {
            proof {
                if all_digits(digits) {
                    lemma_decimal_value_grows(digits, i - start + 1);
                }
            }
            return None;
        }
        i += 1;
    }
    proof {
        assert(digits.take(digits.len() as int) =~= digits);
    }
    Some(value as u32)
}

/// The text of an account database with its lines cut out, for looking up
/// one id after another. Its view is the text.
pub struct Database<'a> {
    text: &'a str,
    lines: Vec<Vec<char>>,
}

impl<'a> View for Database<'a> {
    type V = Seq<char>;

    closed spec fn view(&self) -> Seq<char> {
        self.text@
    }
}

impl<'a> Database<'a> {
    /// The lines are those of the text.
    #[verifier::type_invariant]
    spec fn lines_match(self) -> bool {
        &&& piece_views(self.lines@) == split(self.text@, '\n')
        &&& self.text@.len() <= usize::MAX
    }

    /// Takes in the text of a database.
    pub fn read(text: &'a str) -> (database: Self)
        ensures
            database@ == text@,
    {
        let chars = to_chars(text);
        let lines = split_chars(&chars, '\n');
        assert(text@.len() == chars.len());
        Database { text, lines }
    }

    /// The name that the first line to name `id` gives it, and the empty
    /// string where no line does.
    pub fn name_of(&self, id: u32) -> (name: String)
        ensures
            name@ == lookup(split(self@, '\n'), id),
    {
        proof {
            use_type_invariant(self);
        }
        let ghost all = piece_views(self.lines@);
        let mut i: usize = 0;
        // where line `i` starts in the text
        let mut start: usize = 0;
        proof {
            assert(all.skip(0) =~= all);
            lemma_split_positions(self.text@, '\n');
        }
        while i < self.lines.len()
            invariant
                i <= self.lines.len(),
                all == piece_views(self.lines@),
                all == split(self.text@, '\n'),
                self.text@.len() <= usize::MAX,
                forall|k: int| 0 <= k < all.len() ==> #[trigger] piece_at(self.text@, all, k),
                i < self.lines.len() ==> start == piece_start(all, i as int),
                lookup(all, id) == lookup(all.skip(i as int), id),
            decreases self.lines.len() - i,
        {
            let line = &self.lines[i];
            let fields = split_chars(line, ':');
            proof {
                assert(all[i as int] == line@);
                assert(all.skip(i as int)[0] == line@);
                assert(all.skip(i as int).drop_first() =~= all.skip(i + 1));
                assert(piece_views(fields@).len() == fields.len());
                assert(piece_at(self.text@, all, i as int));
            }
            if fields.len() > 2 {
                assert(piece_views(fields@)[2] == fields@[2]@);
                assert(piece_views(fields@)[0] == fields@[0]@);
                match parse_id_field(&fields[2]) {
                    Some(found) => {
                        if found == id {
                            proof {
                                lemma_split_positions(line@, ':');
                                assert(piece_at(line@, piece_views(fields@), 0));
                            }
                            let length = fields[0].len();
                            let name = self.text.substring_char(start, start + length);
                            assert(name@ =~= fields@[0]@);
                            return String::from_str(name);
                        }
                    },
                    None => {},
                }
            }
            if i + 1 < self.lines.len() {
                proof {
                    assert(piece_at(self.text@, all, i + 1));
                }
                start = start + line.len() + 1;
            }
            i += 1;
        }
        String::new()
    }
}

/// The database for a text, and `None` for a database that could not be
/// read.
pub fn database(source: Option<&str>) -> (opened: Option<Database<'_>>)
    ensures
        match source {
            Some(text) => opened is Some && opened->0@ == text@,
            None => opened is None,
        },
{
    match source {
        Some(text) => Some(Database::read(text)),
        None => None,
    }
}

/// The name for `id` in a database: a fixed placeholder where there is no
/// database to look in.
pub fn resolve_in(opened: &Option<Database<'_>>, id: u32) -> (name: String)
    ensures
        name@ == resolved(
            match opened {
                Some(database) => Some(database@),
                None => None,
            },
            id,
        ),
{
    match opened {
        Some(database) => database.name_of(id),
        None => String::from_str(UNREADABLE),
    }
}

/// The name that the database text `source` has for `id`.
///
/// Without a readable database (`None`) the result is the placeholder
/// `????`. Otherwise it is the first field of the first line that has at
/// least three colon-separated fields and holds `id` in the third, and the
/// empty string where there is no such line. It never fails.
pub fn resolve_id(id: u32, source: Option<&str>) -> (name: String)
    ensures
        name@ == resolved(text_of(source), id),
        source is None ==> name@ == UNREADABLE@,
{
    let opened = database(source);
    resolve_in(&opened, id)
}

/// The user name for `id`, from the text of the user database.
pub fn resolve_user(id: u32, source: Option<&str>) -> (name: String)
    ensures
        name@ == resolved(text_of(source), id),
        source is None ==> name@ == UNREADABLE@,
{
    resolve_id(id, source)
}

/// The group name for `id`, from the text of the group database.
pub fn resolve_group(id: u32, source: Option<&str>) -> (name: String)
    ensures
        name@ == resolved(text_of(source), id),
        source is None ==> name@ == UNREADABLE@,
{
    resolve_id(id, source)
}

} // verus!
