//! String primitives shared by the rest of the crate.
//!
//! A string is seen as its sequence of characters. Where a width or an order
//! is wanted, it is taken over the string's UTF-8 bytes.

use vstd::prelude::*;
use vstd::string::StringExecFns;
use vstd::utf8::*;

verus! {

/// The texts of strings.
pub open spec fn texts(strings: Seq<String>) -> Seq<Seq<char>> {
    Seq::new(strings.len(), |i: int| strings[i]@)
}

/// The text of a string that may be missing.
pub open spec fn text_of(source: Option<&str>) -> Option<Seq<char>> {
    match source {
        Some(text) => Some(text@),
        None => None,
    }
}

/// The number of bytes that `chars` takes up in UTF-8.
pub open spec fn utf8_len(chars: Seq<char>) -> nat {
    encode_utf8(chars).len()
}

/// `count` copies of `ch`.
pub open spec fn repeated(ch: char, count: nat) -> Seq<char> {
    Seq::new(count, |i: int| ch)
}

/// The bytes of a concatenation are the bytes of its parts, in order.
pub proof fn lemma_encode_concat(a: Seq<char>, b: Seq<char>)
    ensures
        encode_utf8(a + b) == encode_utf8(a) + encode_utf8(b),
    decreases a.len(),
{
    if a.len() == 0 {
        assert(a + b =~= b);
        assert(encode_utf8(a) + encode_utf8(b) =~= encode_utf8(b));
    } else {
        assert((a + b).drop_first() =~= a.drop_first() + b);
        lemma_encode_concat(a.drop_first(), b);
        assert(encode_utf8(a + b) =~= encode_utf8(a) + encode_utf8(b));
    }
}

/// Two texts with the same bytes are the same text.
pub proof fn lemma_encode_injective(a: Seq<char>, b: Seq<char>)
    requires
        encode_utf8(a) == encode_utf8(b),
    ensures
        a == b,
{
    encode_utf8_decode_utf8(a);
    encode_utf8_decode_utf8(b);
}

/// An ASCII character takes one byte.
pub proof fn lemma_ascii_char_len(ch: char)
    requires
        (ch as u32) < 128,
    ensures
        encode_utf8(seq![ch]) == seq![(ch as u32) as u8],
        utf8_len(seq![ch]) == 1,
{
    let scalar = ch as u32;
    assert(has_width_1_encoding(scalar));
    assert(leading_byte_width_1(scalar) == scalar as u8) by (bit_vector)
        requires
            scalar < 128,
    ;
    assert(seq![ch].drop_first() =~= Seq::<char>::empty());
    assert(encode_utf8(seq![ch].drop_first()) =~= Seq::<u8>::empty());
    assert(encode_utf8(seq![ch]) =~= seq![scalar as u8]);
}

/// A run of one ASCII character takes as many bytes as it has characters.
pub proof fn lemma_repeated_ascii_len(ch: char, count: nat)
    requires
        (ch as u32) < 128,
    ensures
        utf8_len(repeated(ch, count)) == count,
    decreases count,
{
    if count == 0 {
        assert(repeated(ch, count) =~= Seq::<char>::empty());
    } else {
        let shorter = (count - 1) as nat;
        assert(repeated(ch, count) =~= seq![ch] + repeated(ch, shorter));
        lemma_encode_concat(seq![ch], repeated(ch, shorter));
        lemma_ascii_char_len(ch);
        lemma_repeated_ascii_len(ch, shorter);
    }
}

/// The length of `s` in bytes.
pub fn byte_len(s: &str) -> (n: usize)
    ensures
        n == utf8_len(s@),
{
    s.as_bytes().len()
}

/// Whether two strings hold the same text.
pub fn str_eq(a: &str, b: &str) -> (same: bool)
    ensures
        same == (a@ == b@),
{
    let x = a.as_bytes();
    let y = b.as_bytes();
    if x.len() != y.len() {
        return false;
    }
    let mut i: usize = 0;
    while i < x.len()
        invariant
            i <= x.len(),
            x.len() == y.len(),
            x@ == encode_utf8(a@),
            y@ == encode_utf8(b@),
            forall|k: int| 0 <= k < i ==> x@[k] == y@[k],
        decreases x.len() - i,
    {
        if x[i] != y[i] {
            return false;
        }
        i += 1;
    }
    proof {
        assert(x@ =~= y@);
        lemma_encode_injective(a@, b@);
    }
    true
}

/// The characters of `s`, one by one.
pub fn to_chars(s: &str) -> (chars: Vec<char>)
    ensures
        chars@ == s@,
{
    let mut chars: Vec<char> = Vec::new();
    for c in it: s.chars()
        invariant
            it.seq() == s@,
            chars@ == it.seq().take(it.index() as int),
    {
        chars.push(c);
        assert(it.seq().take(it.index() + 1) =~= it.seq().take(it.index() as int).push(c));
    }
    assert(chars@ =~= s@);
    chars
}

/// The pieces of `text` between the occurrences of `sep`. There is always at
/// least one piece; a text that ends in `sep` has an empty last piece.
pub open spec fn split(text: Seq<char>, sep: char) -> Seq<Seq<char>>
    decreases text.len(),
{
    if text.len() == 0 {
        seq![Seq::empty()]
    } else {
        let front = split(text.drop_last(), sep);
        if text.last() == sep {
            front.push(Seq::empty())
        } else {
            front.drop_last().push(front.last().push(text.last()))
        }
    }
}

/// `pieces` put together again with `sep` between them.
pub open spec fn join(pieces: Seq<Seq<char>>, sep: char) -> Seq<char>
    decreases pieces.len(),
{
    if pieces.len() == 0 {
        Seq::empty()
    } else if pieces.len() == 1 {
        pieces[0]
    } else {
        join(pieces.drop_last(), sep).push(sep) + pieces.last()
    }
}

/// Splitting loses nothing and finds every separator: there is at least one
/// piece, no piece holds the separator, and the pieces joined by the
/// separator are the text.
pub proof fn lemma_split(text: Seq<char>, sep: char)
    ensures
        split(text, sep).len() >= 1,
        forall|i: int, k: int|
            0 <= i < split(text, sep).len() && 0 <= k < split(text, sep)[i].len() ==> (
            #[trigger] split(text, sep)[i][k]) != sep,
        join(split(text, sep), sep) == text,
    decreases text.len(),
{
    if text.len() == 0 {
        assert(join(split(text, sep), sep) =~= text);
    } else {
        let front = split(text.drop_last(), sep);
        lemma_split(text.drop_last(), sep);
        let out = split(text, sep);
        if text.last() == sep {
            assert(out.drop_last() =~= front);
            assert(join(out, sep) =~= text.drop_last().push(sep));
            assert(text.drop_last().push(sep) =~= text);
        } else {
            let grown = front.last().push(text.last());
            assert(out.last() == grown);
            if front.len() == 1 {
                assert(join(front, sep) == front[0]);
                assert(join(out, sep) =~= text.drop_last().push(text.last()));
            } else {
                assert(out.drop_last() =~= front.drop_last());
                assert(join(out, sep) =~= join(front.drop_last(), sep).push(sep) + grown);
                assert(join(front, sep) == join(front.drop_last(), sep).push(sep) + front.last());
                assert(join(out, sep) =~= join(front, sep).push(text.last()));
            }
            assert(text.drop_last().push(text.last()) =~= text);
            assert forall|i: int, k: int|
                0 <= i < out.len() && 0 <= k < out[i].len() implies (#[trigger] out[i][k])
                != sep by {
                if i < out.len() - 1 {
                    assert(out[i] == front[i]);
                    assert(front[i][k] != sep);
                } else if k < front.last().len() {
                    assert(out[i][k] == front[front.len() - 1][k]);
                }
            }
        }
    }
}

/// Where piece `i` starts in the text that `pieces` were cut from: behind
/// the pieces before it and one separator for each of them.
pub open spec fn piece_start(pieces: Seq<Seq<char>>, i: int) -> int
    decreases i,
{
    if i <= 0 {
        0
    } else {
        piece_start(pieces, i - 1) + pieces[i - 1].len() + 1
    }
}

/// Whether piece `i` of `pieces` stands in `text` at its start position.
pub open spec fn piece_at(text: Seq<char>, pieces: Seq<Seq<char>>, i: int) -> bool {
    let start = piece_start(pieces, i);
    &&& 0 <= start
    &&& start + pieces[i].len() <= text.len()
    &&& pieces[i] == text.subrange(start, start + pieces[i].len())
}

/// Sequences of pieces that agree on their first `i` pieces agree on where
/// piece `i` starts.
proof fn lemma_piece_start_same(p: Seq<Seq<char>>, q: Seq<Seq<char>>, i: int)
    requires
        0 <= i <= p.len(),
        i <= q.len(),
        forall|k: int| 0 <= k < i ==> p[k] == q[k],
    ensures
        piece_start(p, i) == piece_start(q, i),
    decreases i,
{
    if i > 0 {
        lemma_piece_start_same(p, q, i - 1);
    }
}

/// Every piece of a split text stands in the text at its start position, and
/// the last piece ends where the text ends.
pub proof fn lemma_split_positions(text: Seq<char>, sep: char)
    ensures
        forall|i: int|
            0 <= i < split(text, sep).len() ==> #[trigger] piece_at(text, split(text, sep), i),
        piece_start(split(text, sep), split(text, sep).len() - 1) + split(text, sep).last().len()
            == text.len(),
    decreases text.len(),
{
    let pieces = split(text, sep);
    if text.len() == 0 {
        assert(pieces[0] =~= text.subrange(0, 0));
    } else {
        let front = text.drop_last();
        let before = split(front, sep);
        lemma_split_positions(front, sep);
        lemma_split(front, sep);
        let top = before.len() - 1;
        assert forall|i: int| 0 <= i < pieces.len() implies #[trigger] piece_at(
            text,
            pieces,
            i,
        ) by {
            if i < top || (i == top && text.last() == sep) {
                assert(pieces[i] == before[i]);
                lemma_piece_start_same(pieces, before, i);
                assert(piece_at(front, before, i));
                let start = piece_start(before, i);
                assert(text.subrange(start, start + before[i].len()) =~= front.subrange(
                    start,
                    start + before[i].len(),
                ));
            } else if i == top {
                lemma_piece_start_same(pieces, before, i);
                assert(piece_at(front, before, i));
                let start = piece_start(before, i);
                assert(pieces[i] == before[i].push(text.last()));
                assert(text.subrange(start, text.len() as int) =~= front.subrange(
                    start,
                    front.len() as int,
                ).push(text.last()));
            } else {
                lemma_piece_start_same(pieces, before, top);
                assert(pieces[top] == before[top]);
                assert(piece_start(pieces, i) == text.len());
                assert(pieces[i] =~= text.subrange(text.len() as int, text.len() as int));
            }
        }
        if text.last() == sep {
            lemma_piece_start_same(pieces, before, top);
            assert(pieces[top] == before[top]);
        } else {
            lemma_piece_start_same(pieces, before, top);
        }
    }
}

/// The texts of pieces held in vectors.
pub open spec fn piece_views(pieces: Seq<Vec<char>>) -> Seq<Seq<char>> {
    Seq::new(pieces.len(), |i: int| pieces[i]@)
}

/// Splits `chars` at every `sep`.
pub fn split_chars(chars: &Vec<char>, sep: char) -> (pieces: Vec<Vec<char>>)
    ensures
        piece_views(pieces@) == split(chars@, sep),
{
    let mut pieces: Vec<Vec<char>> = Vec::new();
    let mut current: Vec<char> = Vec::new();
    let mut i: usize = 0;
    proof {
        assert(piece_views(pieces@).push(current@) =~= split(chars@.take(0), sep));
    }
    while i < chars.len()
        invariant
            i <= chars.len(),
            piece_views(pieces@).push(current@) == split(chars@.take(i as int), sep),
        decreases chars.len() - i,
    {
        let ghost done = piece_views(pieces@);
        let ghost piece = current@;
        let ghost seen = chars@.take(i as int);
        let ghost next = chars@.take(i + 1);
        proof {
            assert(next.drop_last() =~= seen);
            assert(next.last() == chars@[i as int]);
            assert(done.push(piece).drop_last() =~= done);
        }
        let c = chars[i];
        if c == sep {
            pieces.push(current);
            current = Vec::new();
            assert(piece_views(pieces@) =~= done.push(piece));
        } else {
            current.push(c);
        }
        i += 1;
    }
    proof {
        assert(chars@.take(chars.len() as int) =~= chars@);
    }
    let ghost done = piece_views(pieces@);
    let ghost piece = current@;
    pieces.push(current);
    assert(piece_views(pieces@) =~= done.push(piece));
    pieces
}

/// The character for a digit below ten.
pub open spec fn digit_char(digit: nat) -> char {
    if digit == 0 {
        '0'
    } else if digit == 1 {
        '1'
    } else if digit == 2 {
        '2'
    } else if digit == 3 {
        '3'
    } else if digit == 4 {
        '4'
    } else if digit == 5 {
        '5'
    } else if digit == 6 {
        '6'
    } else if digit == 7 {
        '7'
    } else if digit == 8 {
        '8'
    } else {
        '9'
    }
}

/// `n` written in base ten, without leading zeros.
pub open spec fn decimal(n: nat) -> Seq<char>
    decreases n,
{
    if n < 10 {
        seq![digit_char(n)]
    } else {
        decimal(n / 10).push(digit_char(n % 10))
    }
}

/// The numeral for a digit below ten.
fn digit(d: u64) -> (numeral: &'static str)
    requires
        d < 10,
    ensures
        numeral@ == seq![digit_char(d as nat)],
{
    proof {
        reveal_strlit("0");
        reveal_strlit("1");
        reveal_strlit("2");
        reveal_strlit("3");
        reveal_strlit("4");
        reveal_strlit("5");
        reveal_strlit("6");
        reveal_strlit("7");
        reveal_strlit("8");
        reveal_strlit("9");
    }
    let numeral = if d == 0 {
        "0"
    } else if d == 1 {
        "1"
    } else if d == 2 {
        "2"
    } else if d == 3 {
        "3"
    } else if d == 4 {
        "4"
    } else if d == 5 {
        "5"
    } else if d == 6 {
        "6"
    } else if d == 7 {
        "7"
    } else if d == 8 {
        "8"
    } else {
        "9"
    };
    assert(numeral@ =~= seq![digit_char(d as nat)]);
    numeral
}

/// Appends `n` in base ten to `out`.
fn push_decimal(out: &mut String, n: u64)
    ensures
        final(out)@ == old(out)@ + decimal(n as nat),
    decreases n,
{
    if n >= 10 {
        push_decimal(out, n / 10);
    }
    out.append(digit(n % 10));
    assert(out@ =~= old(out)@ + decimal(n as nat));
}

/// `n` written in base ten.
pub fn decimal_string(n: u64) -> (s: String)
    ensures
        s@ == decimal(n as nat),
{
    let mut s = String::new();
    push_decimal(&mut s, n);
    assert(s@ =~= decimal(n as nat));
    s
}

} // verus!
