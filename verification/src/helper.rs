//! Column alignment for rows of text.
//!
//! A table is a sequence of rows, a row a sequence of cells, and rows need not
//! have the same number of cells. The width of a column is the greatest
//! length, in bytes, of the cells that stand in it. Aligning pads every cell
//! on the left with spaces up to its column's width, except the last cell of
//! each row, which is left as it is.

use vstd::prelude::*;
use vstd::string::StringExecFns;
use crate::text::{
    byte_len,
    lemma_encode_concat,
    lemma_repeated_ascii_len,
    repeated,
    texts,
    utf8_len,
};

verus! {

/// A table as plain values: the text of each cell.
pub open spec fn table(rows: Seq<Vec<String>>) -> Seq<Seq<Seq<char>>> {
    Seq::new(rows.len(), |i: int| texts(rows[i]@))
}

/// The width of column `j`: the greatest byte length of a cell in column `j`
/// over the rows that reach it, and 0 where no row does.
pub open spec fn column_width(t: Seq<Seq<Seq<char>>>, j: int) -> nat
    decreases t.len(),
{
    if t.len() == 0 {
        0
    } else {
        let above = column_width(t.drop_last(), j);
        let row = t.last();
        if 0 <= j < row.len() && utf8_len(row[j]) > above {
            utf8_len(row[j])
        } else {
            above
        }
    }
}

/// `cell` with spaces in front, as many as it is short of `width` bytes.
pub open spec fn padded(cell: Seq<char>, width: nat) -> Seq<char> {
    repeated(' ', (width - utf8_len(cell)) as nat) + cell
}

/// The cell at row `i`, column `j` after aligning: the last cell of a row
/// stays as it is, any other is padded to its column's width.
pub open spec fn aligned_cell(t: Seq<Seq<Seq<char>>>, i: int, j: int) -> Seq<char> {
    if j == t[i].len() - 1 {
        t[i][j]
    } else {
        padded(t[i][j], column_width(t, j))
    }
}

/// The table after aligning. It has the shape of `t`.
pub open spec fn aligned(t: Seq<Seq<Seq<char>>>) -> Seq<Seq<Seq<char>>> {
    Seq::new(t.len(), |i: int| Seq::new(t[i].len(), |j: int| aligned_cell(t, i, j)))
}

/// No cell is wider than its column.
pub proof fn lemma_column_width_bounds(t: Seq<Seq<Seq<char>>>, i: int, j: int)
    requires
        0 <= i < t.len(),
        0 <= j < t[i].len(),
    ensures
        utf8_len(t[i][j]) <= column_width(t, j),
    decreases t.len(),
{
    if i < t.len() - 1 {
        lemma_column_width_bounds(t.drop_last(), i, j);
    }
}

/// A column that some row reaches is exactly as wide as one of its cells.
pub proof fn lemma_column_width_attained(t: Seq<Seq<Seq<char>>>, j: int) -> (i: int)
    requires
        exists|r: int| 0 <= r < t.len() && 0 <= j < (#[trigger] t[r]).len(),
    ensures
        0 <= i < t.len(),
        0 <= j < t[i].len(),
        utf8_len(t[i][j]) == column_width(t, j),
    decreases t.len(),
{
    let row = t.last();
    let above = column_width(t.drop_last(), j);
    if 0 <= j < row.len() && utf8_len(row[j]) >= above {
        t.len() - 1
    } else {
        let r = choose|r: int| 0 <= r < t.len() && 0 <= j < (#[trigger] t[r]).len();
        if r == t.len() - 1 {
            // the last row reaches the column but is narrower than a row above
            assert(above > 0);
            if forall|k: int| 0 <= k < t.drop_last().len() ==> !(0 <= j < (#[trigger] t.drop_last()[k]).len()) {
                lemma_column_width_unreached(t.drop_last(), j);
            }
        } else {
            assert(0 <= j < t.drop_last()[r].len());
        }
        lemma_column_width_attained(t.drop_last(), j)
    }
}

/// A column that no row reaches has width 0.
pub proof fn lemma_column_width_unreached(t: Seq<Seq<Seq<char>>>, j: int)
    requires
        forall|r: int| 0 <= r < t.len() ==> !(0 <= j < (#[trigger] t[r]).len()),
    ensures
        column_width(t, j) == 0,
    decreases t.len(),
{
    if t.len() > 0 {
        assert forall|r: int| 0 <= r < t.drop_last().len() implies !(0 <= j < (
        #[trigger] t.drop_last()[r]).len()) by {
            assert(t.drop_last()[r] == t[r]);
        }
        lemma_column_width_unreached(t.drop_last(), j);
    }
}

/// A cell that is not wider than `width` takes exactly `width` bytes once
/// padded.
pub proof fn lemma_padded_len(cell: Seq<char>, width: nat)
    requires
        utf8_len(cell) <= width,
    ensures
        utf8_len(padded(cell, width)) == width,
{
    let gap = (width - utf8_len(cell)) as nat;
    lemma_encode_concat(repeated(' ', gap), cell);
    lemma_repeated_ascii_len(' ', gap);
}

/// Aligning keeps the shape of the table, leaves the last cell of every row
/// as it was, and gives every other cell the width of its column, with the
/// cell's own text at the end.
pub proof fn lemma_aligned_shape(t: Seq<Seq<Seq<char>>>)
    ensures
        aligned(t).len() == t.len(),
        forall|i: int| 0 <= i < t.len() ==> (#[trigger] aligned(t)[i]).len() == t[i].len(),
        forall|i: int|
            0 <= i < t.len() && t[i].len() > 0 ==> (#[trigger] aligned(t)[i]).last() == t[i].last(),
        forall|i: int, j: int|
            0 <= i < t.len() && 0 <= j < t[i].len() - 1 ==> utf8_len(#[trigger] aligned(t)[i][j])
                == column_width(t, j),
{
    assert forall|i: int, j: int| 0 <= i < t.len() && 0 <= j < t[i].len() - 1 implies utf8_len(
        #[trigger] aligned(t)[i][j],
    ) == column_width(t, j) by {
        lemma_column_width_bounds(t, i, j);
        lemma_padded_len(t[i][j], column_width(t, j));
    }
}

/// A bound that every cell of column `j` keeps and that one of them reaches
/// is the width of the column.
pub proof fn lemma_column_width_is_greatest(t: Seq<Seq<Seq<char>>>, j: int, width: nat, i: int)
    requires
        0 <= i < t.len(),
        0 <= j < t[i].len(),
        utf8_len(t[i][j]) == width,
        forall|r: int| 0 <= r < t.len() && 0 <= j < t[r].len() ==> utf8_len(#[trigger] t[r][j]) <= width,
    ensures
        column_width(t, j) == width,
{
    lemma_column_width_bounds(t, i, j);
    let r = lemma_column_width_attained(t, j);
    assert(utf8_len(t[r][j]) <= width);
}

/// Aligning an aligned table changes nothing.
pub proof fn lemma_aligned_idempotent(t: Seq<Seq<Seq<char>>>)
    ensures
        aligned(aligned(t)) == aligned(t),
{
    let once = aligned(t);
    let twice = aligned(once);
    lemma_aligned_shape(t);
    assert forall|i: int, j: int| 0 <= i < t.len() && 0 <= j < t[i].len() implies twice[i][j]
        == once[i][j] by {
        if j != t[i].len() - 1 {
            let width = column_width(t, j);
            let top = lemma_column_width_attained(t, j);
            assert(utf8_len(once[top][j]) == width) by {
                if j == t[top].len() - 1 {
                    assert(once[top][j] == t[top][j]);
                }
            }
            assert forall|r: int| 0 <= r < once.len() && 0 <= j < once[r].len() implies utf8_len(
                #[trigger] once[r][j],
            ) <= width by {
                lemma_column_width_bounds(t, r, j);
                if j == t[r].len() - 1 {
                    assert(once[r][j] == t[r][j]);
                }
            }
            lemma_column_width_is_greatest(once, j, width, top);
            assert(utf8_len(once[i][j]) == width);
            assert(repeated(' ', 0) + once[i][j] =~= once[i][j]);
        }
    }
    assert forall|i: int| 0 <= i < t.len() implies twice[i] == once[i] by {
        assert(twice[i] =~= once[i]);
    }
    assert(twice =~= once);
}

/// A table of one row comes back unchanged.
pub proof fn lemma_aligned_single_row(t: Seq<Seq<Seq<char>>>)
    requires
        t.len() == 1,
    ensures
        aligned(t) == t,
{
    assert(t.drop_last().len() == 0);
    assert forall|j: int| 0 <= j < t[0].len() implies aligned(t)[0][j] == t[0][j] by {
        assert(column_width(t.drop_last(), j) == 0);
        assert(column_width(t, j) == utf8_len(t[0][j]));
        assert(repeated(' ', 0) + t[0][j] =~= t[0][j]);
    }
    assert(aligned(t)[0] =~= t[0]);
    assert(aligned(t) =~= t);
}

/// The greatest byte length in each column, for as many columns as the
/// longest row has.
fn column_widths(rows: &Vec<Vec<String>>) -> (maximums: Vec<usize>)
    ensures
        forall|i: int| 0 <= i < rows.len() ==> (#[trigger] rows@[i])@.len() <= maximums.len(),
        forall|j: int|
            0 <= j < maximums.len() ==> #[trigger] maximums@[j] == column_width(table(rows@), j),
{
    let ghost t = table(rows@);
    let mut maximums: Vec<usize> = Vec::new();
    let mut i: usize = 0;
    proof {
        assert(t.take(0).len() == 0);
    }
    while i < rows.len()
        invariant
            t == table(rows@),
            i <= rows.len(),
            forall|r: int| 0 <= r < i ==> (#[trigger] rows@[r])@.len() <= maximums.len(),
            forall|j: int|
                0 <= j < maximums.len() ==> #[trigger] maximums@[j] == column_width(
                    t.take(i as int),
                    j,
                ),
        decreases rows.len() - i,
    {
        let row = &rows[i];
        let ghost above = t.take(i as int);
        let ghost here = t.take(i + 1);
        proof {
            assert(here.drop_last() =~= above);
            assert(here.last() == t[i as int]);
            assert(t[i as int].len() == row@.len());
        }
        let mut j: usize = 0;
        while j < row.len()
            invariant
                t == table(rows@),
                i < rows.len(),
                row == &rows@[i as int],
                above == t.take(i as int),
                here == t.take(i + 1),
                here.drop_last() == above,
                here.last() == t[i as int],
                t[i as int].len() == row@.len(),
                j <= row.len(),
                j <= maximums.len(),
                forall|r: int| 0 <= r < i ==> (#[trigger] rows@[r])@.len() <= maximums.len(),
                forall|c: int|
                    0 <= c < maximums.len() ==> #[trigger] maximums@[c] == (if c < j {
                        column_width(here, c)
                    } else {
                        column_width(above, c)
                    }),
            decreases row.len() - j,
        {
            let length = byte_len(row[j].as_str());
            assert(t[i as int][j as int] == row@[j as int]@);
            if j < maximums.len() {
                if length > maximums[j] {
                    maximums[j] = length;
                }
            } else {
                proof {
                    assert forall|r: int| 0 <= r < above.len() implies !(0 <= j < (
                    #[trigger] above[r]).len()) by {
                        assert(above[r] == t[r]);
                        assert(t[r].len() == rows@[r]@.len());
                    }
                    lemma_column_width_unreached(above, j as int);
                }
                maximums.push(length);
            }
            j += 1;
        }
        i += 1;
    }
    proof {
        assert(t.take(rows.len() as int) =~= t);
    }
    maximums
}

/// `cell` with spaces in front up to `width` bytes.
fn pad_cell(cell: &String, width: usize) -> (out: String)
    requires
        utf8_len(cell@) <= width,
    ensures
        out@ == padded(cell@, width as nat),
{
    let gap = width - byte_len(cell.as_str());
    let mut out = String::new();
    let mut k: usize = 0;
    proof {
        reveal_strlit(" ");
        assert(" "@ =~= seq![' ']);
    }
    while k < gap
        invariant
            k <= gap,
            " "@ == seq![' '],
            out@ == repeated(' ', k as nat),
        decreases gap - k,
    {
        out.append(" ");
        k += 1;
        assert(out@ =~= repeated(' ', k as nat));
    }
    out.append(cell.as_str());
    out
}

/// Aligns a table for display.
///
/// Every cell but the last of its row is padded on the left with spaces to
/// the greatest byte length found in its column; the last cell of each row is
/// returned as it is. Rows keep their number of cells, and a row takes no part
/// in columns that it does not reach.
pub fn pad_strings(rows: Vec<Vec<String>>) -> (result: Vec<Vec<String>>)
    ensures
        table(result@) == aligned(table(rows@)),
        result.len() == rows.len(),
        forall|i: int| 0 <= i < rows.len() ==> (#[trigger] result@[i])@.len() == rows@[i]@.len(),
        forall|i: int|
            0 <= i < rows.len() && rows@[i]@.len() > 0 ==> (#[trigger] result@[i])@.last()@
                == rows@[i]@.last()@,
        forall|i: int, j: int|
            0 <= i < rows.len() && 0 <= j < rows@[i]@.len() - 1 ==> utf8_len(
                #[trigger] result@[i]@[j]@,
            ) == column_width(table(rows@), j),
{
    let ghost t = table(rows@);
    let maximums = column_widths(&rows);
    let mut result: Vec<Vec<String>> = Vec::new();
    let mut i: usize = 0;
    while i < rows.len()
        invariant
            t == table(rows@),
            i <= rows.len(),
            result.len() == i,
            forall|r: int| 0 <= r < rows.len() ==> (#[trigger] rows@[r])@.len() <= maximums.len(),
            forall|j: int|
                0 <= j < maximums.len() ==> #[trigger] maximums@[j] == column_width(t, j),
            forall|r: int|
                0 <= r < i ==> (#[trigger] result@[r])@.len() == t[r].len() && forall|j: int|
                    0 <= j < t[r].len() ==> (#[trigger] result@[r]@[j])@ == aligned_cell(t, r, j),
        decreases rows.len() - i,
    {
        let row = &rows[i];
        let mut cells: Vec<String> = Vec::new();
        let mut j: usize = 0;
        assert(t[i as int].len() == row@.len());
        while j < row.len()
            invariant
                t == table(rows@),
                i < rows.len(),
                row == &rows@[i as int],
                t[i as int].len() == row@.len(),
                row@.len() <= maximums.len(),
                j <= row.len(),
                cells.len() == j,
                forall|c: int|
                    0 <= c < maximums.len() ==> #[trigger] maximums@[c] == column_width(t, c),
                forall|c: int| 0 <= c < j ==> (#[trigger] cells@[c])@ == aligned_cell(t, i as int, c),
            decreases row.len() - j,
        {
            assert(t[i as int][j as int] == row@[j as int]@);
            if j + 1 == row.len() {
                cells.push(row[j].clone());
            } else {
                proof {
                    lemma_column_width_bounds(t, i as int, j as int);
                }
                cells.push(pad_cell(&row[j], maximums[j]));
            }
            j += 1;
        }
        result.push(cells);
        i += 1;
    }
    proof {
        let out = table(result@);
        assert(out.len() == aligned(t).len());
        assert forall|r: int| 0 <= r < out.len() implies out[r] == aligned(t)[r] by {
            assert(out[r] =~= aligned(t)[r]);
        }
        assert(out =~= aligned(t));
        lemma_aligned_shape(t);
        assert forall|r: int| 0 <= r < rows.len() && rows@[r]@.len() > 0 implies (
        #[trigger] result@[r])@.last()@ == rows@[r]@.last()@ by {
            assert(out[r].last() == result@[r]@.last()@);
            assert(t[r].last() == rows@[r]@.last()@);
        }
        assert forall|r: int, j: int|
            0 <= r < rows.len() && 0 <= j < rows@[r]@.len() - 1 implies utf8_len(
            #[trigger] result@[r]@[j]@,
        ) == column_width(t, j) by {
            assert(out[r][j] == result@[r]@[j]@);
            assert(aligned(t)[r][j] == out[r][j]);
        }
    }
    result
}

} // verus!
