//! Symbolic notation for permission bits.
//!
//! A mode is rendered as nine characters: a read, a write and an execute
//! position for the owner, then for the group, then for everyone else. The
//! execute position also carries the class's special bit (set-user-id,
//! set-group-id, sticky).

use vstd::prelude::*;
use vstd::string::StringExecFns;

verus! {

/// Read permission, owner.
pub const S_IRUSR: u32 = 0o0400;

/// Write permission, owner.
pub const S_IWUSR: u32 = 0o0200;

/// Execute permission, owner.
pub const S_IXUSR: u32 = 0o0100;

/// Set-user-id on execution.
pub const S_ISUID: u32 = 0o4000;

/// Read permission, group.
pub const S_IRGRP: u32 = 0o0040;

/// Write permission, group.
pub const S_IWGRP: u32 = 0o0020;

/// Execute permission, group.
pub const S_IXGRP: u32 = 0o0010;

/// Set-group-id on execution.
pub const S_ISGID: u32 = 0o2000;

/// Read permission, others.
pub const S_IROTH: u32 = 0o0004;

/// Write permission, others.
pub const S_IWOTH: u32 = 0o0002;

/// Execute permission, others.
pub const S_IXOTH: u32 = 0o0001;

/// Sticky bit.
pub const S_ISVTX: u32 = 0o1000;

/// The three special bits together.
pub const SPECIAL_BITS: u32 = 0o7000;

/// The twelve bits that the notation looks at.
pub const MODE_BITS: u32 = 0o7777;

/// Whether `mode` has the bit `mask` set.
pub open spec fn has_bit(mode: u32, mask: u32) -> bool {
    mode & mask != 0
}

/// The character of a read or write position: `letter` when the bit is set,
/// a dash when it is not.
pub open spec fn flag_char(mode: u32, mask: u32, letter: char) -> char {
    if has_bit(mode, mask) {
        letter
    } else {
        '-'
    }
}

/// The character of an execute position. `special` is the special bit of the
/// class and `marker` its lower-case letter; `capital` is shown when the
/// special bit is set without the execute bit.
pub open spec fn execute_char(
    mode: u32,
    execute: u32,
    special: u32,
    marker: char,
    capital: char,
) -> char {
    if has_bit(mode, special) {
        if has_bit(mode, execute) {
            marker
        } else {
            capital
        }
    } else if has_bit(mode, execute) {
        'x'
    } else {
        '-'
    }
}

/// The nine characters that stand for `mode`.
pub open spec fn permission_chars(mode: u32) -> Seq<char> {
    seq![
        flag_char(mode, S_IRUSR, 'r'),
        flag_char(mode, S_IWUSR, 'w'),
        execute_char(mode, S_IXUSR, S_ISUID, 's', 'S'),
        flag_char(mode, S_IRGRP, 'r'),
        flag_char(mode, S_IWGRP, 'w'),
        execute_char(mode, S_IXGRP, S_ISGID, 's', 'S'),
        flag_char(mode, S_IROTH, 'r'),
        flag_char(mode, S_IWOTH, 'w'),
        execute_char(mode, S_IXOTH, S_ISVTX, 't', 'T'),
    ]
}

/// The nine characters of a mode read bit by bit, with no regard to the
/// special bits: each position shows its letter or a dash.
pub open spec fn plain_chars(mode: u32) -> Seq<char> {
    seq![
        flag_char(mode, S_IRUSR, 'r'),
        flag_char(mode, S_IWUSR, 'w'),
        flag_char(mode, S_IXUSR, 'x'),
        flag_char(mode, S_IRGRP, 'r'),
        flag_char(mode, S_IWGRP, 'w'),
        flag_char(mode, S_IXGRP, 'x'),
        flag_char(mode, S_IROTH, 'r'),
        flag_char(mode, S_IWOTH, 'w'),
        flag_char(mode, S_IXOTH, 'x'),
    ]
}

/// The characters that can occur in the notation.
pub open spec fn is_permission_char(c: char) -> bool {
    c == 'r' || c == 'w' || c == 'x' || c == 's' || c == 'S' || c == 't' || c == 'T' || c == '-'
}

/// The notation has nine positions, and every position holds a character of
/// the notation's alphabet.
pub proof fn lemma_permission_alphabet(mode: u32)
    ensures
        permission_chars(mode).len() == 9,
        forall|i: int| 0 <= i < 9 ==> is_permission_char(#[trigger] permission_chars(mode)[i]),
{
}

/// A mode without special bits has none of the three.
proof fn lemma_no_special_bits(mode: u32)
    by (bit_vector)
    requires
        mode & SPECIAL_BITS == 0,
    ensures
        mode & S_ISUID == 0,
        mode & S_ISGID == 0,
        mode & S_ISVTX == 0,
{
}

/// With none of the special bits set, every position shows exactly whether
/// its own bit is set.
pub proof fn lemma_permission_without_special_bits(mode: u32)
    requires
        mode & SPECIAL_BITS == 0,
    ensures
        permission_chars(mode) == plain_chars(mode),
{
    lemma_no_special_bits(mode);
    assert(permission_chars(mode) =~= plain_chars(mode));
}

/// Masking a mode to its low twelve bits keeps each of the twelve.
proof fn lemma_low_bits(mode: u32)
    by (bit_vector)
    ensures
        (mode & MODE_BITS) & S_IRUSR == mode & S_IRUSR,
        (mode & MODE_BITS) & S_IWUSR == mode & S_IWUSR,
        (mode & MODE_BITS) & S_IXUSR == mode & S_IXUSR,
        (mode & MODE_BITS) & S_ISUID == mode & S_ISUID,
        (mode & MODE_BITS) & S_IRGRP == mode & S_IRGRP,
        (mode & MODE_BITS) & S_IWGRP == mode & S_IWGRP,
        (mode & MODE_BITS) & S_IXGRP == mode & S_IXGRP,
        (mode & MODE_BITS) & S_ISGID == mode & S_ISGID,
        (mode & MODE_BITS) & S_IROTH == mode & S_IROTH,
        (mode & MODE_BITS) & S_IWOTH == mode & S_IWOTH,
        (mode & MODE_BITS) & S_IXOTH == mode & S_IXOTH,
        (mode & MODE_BITS) & S_ISVTX == mode & S_ISVTX,
{
}

/// Bits above the low twelve never change the notation.
pub proof fn lemma_permission_ignores_high_bits(mode: u32)
    ensures
        permission_chars(mode & MODE_BITS) == permission_chars(mode),
{
    lemma_low_bits(mode);
    assert(permission_chars(mode & MODE_BITS) =~= permission_chars(mode));
}

/// One read or write position as text. `letter` is the position's letter.
fn flag(mode: u32, mask: u32, letter: &'static str, Ghost(ch): Ghost<char>) -> (text: &'static str)
    requires
        letter@ == seq![ch],
    ensures
        text@ == seq![flag_char(mode, mask, ch)],
{
    if (mode & mask) != 0 {
        letter
    } else {
        proof {
            reveal_strlit("-");
            assert("-"@ =~= seq!['-']);
        }
        "-"
    }
}

/// One execute position as text, together with its class's special bit.
/// `marker` and `capital` are the special bit's two letters.
fn execute_flag(
    mode: u32,
    execute: u32,
    special: u32,
    marker: &'static str,
    capital: &'static str,
    Ghost(small): Ghost<char>,
    Ghost(large): Ghost<char>,
) -> (text: &'static str)
    requires
        marker@ == seq![small],
        capital@ == seq![large],
    ensures
        text@ == seq![execute_char(mode, execute, special, small, large)],
{
    proof {
        reveal_strlit("x");
        reveal_strlit("-");
        assert("x"@ =~= seq!['x']);
        assert("-"@ =~= seq!['-']);
    }
    if (mode & special) != 0 {
        if (mode & execute) != 0 {
            marker
        } else {
            capital
        }
    } else if (mode & execute) != 0 {
        "x"
    } else {
        "-"
    }
}

/// Renders `mode` in symbolic notation: owner, group, others, each as read,
/// write and execute. A special bit shows in its class's execute position, in
/// lower case over a set execute bit and in upper case over a clear one.
pub fn to_unix_permission(mode: u32) -> (result: String)
    ensures
        result@ == permission_chars(mode),
        result@.len() == 9,
        forall|i: int| 0 <= i < 9 ==> is_permission_char(#[trigger] result@[i]),
        mode & SPECIAL_BITS == 0 ==> result@ == plain_chars(mode),
{
    proof {
        reveal_strlit("r");
        reveal_strlit("w");
        reveal_strlit("s");
        reveal_strlit("S");
        reveal_strlit("t");
        reveal_strlit("T");
        assert("r"@ =~= seq!['r']);
        assert("w"@ =~= seq!['w']);
        assert("s"@ =~= seq!['s']);
        assert("S"@ =~= seq!['S']);
        assert("t"@ =~= seq!['t']);
        assert("T"@ =~= seq!['T']);
    }
    let mut result = String::new();
    // owner
    result.append(flag(mode, S_IRUSR, "r", Ghost('r')));
    result.append(flag(mode, S_IWUSR, "w", Ghost('w')));
    result.append(execute_flag(mode, S_IXUSR, S_ISUID, "s", "S", Ghost('s'), Ghost('S')));
    // group
    result.append(flag(mode, S_IRGRP, "r", Ghost('r')));
    result.append(flag(mode, S_IWGRP, "w", Ghost('w')));
    result.append(execute_flag(mode, S_IXGRP, S_ISGID, "s", "S", Ghost('s'), Ghost('S')));
    // others
    result.append(flag(mode, S_IROTH, "r", Ghost('r')));
    result.append(flag(mode, S_IWOTH, "w", Ghost('w')));
    result.append(execute_flag(mode, S_IXOTH, S_ISVTX, "t", "T", Ghost('t'), Ghost('T')));
    proof {
        assert(result@ =~= permission_chars(mode));
        lemma_permission_alphabet(mode);
        if mode & SPECIAL_BITS == 0 {
            lemma_permission_without_special_bits(mode);
        }
    }
    result
}

} // verus!
