//! Laying a table out in columns, for printing.
//!
//! The functions work on cells that are printed already, one text for each
//! value, and leave the writing to the caller. A line reads
//! `| cell | cell |`, and each cell is filled up with spaces to the width of
//! its column.
use vstd::prelude::*;
use vstd::string::{StrSliceExecFns, StringExecFns};
use vstd::utf8::encode_utf8;
use crate::strings::texts_of;

verus! {

/// Number of bytes in a text.
pub open spec fn byte_len(text: Seq<char>) -> nat {
    encode_utf8(text).len()
}

/// The width of column `c`: the bytes of its name, or of its longest cell
/// in `rows`, whichever is more. A row that is too short has no cell there.
pub open spec fn column_width(name: Seq<char>, rows: Seq<Seq<Seq<char>>>, c: int) -> nat
    decreases rows.len(),
{
    if rows.len() == 0 {
        byte_len(name)
    } else {
        let above = column_width(name, rows.drop_last(), c);
        let row = rows.last();
        if 0 <= c < row.len() && byte_len(row[c]) > above {
            byte_len(row[c])
        } else {
            above
        }
    }
}

/// `n` spaces.
pub open spec fn spaces(n: nat) -> Seq<char> {
    Seq::new(n, |i: int| ' ')
}

/// The cell, filled up with spaces to `width` characters; a cell that is
/// longer stays as it is.
pub open spec fn padded(cell: Seq<char>, width: nat) -> Seq<char> {
    if cell.len() < width {
        cell + spaces((width - cell.len()) as nat)
    } else {
        cell
    }
}

/// The width at `i`; 0 where `widths` has none.
pub open spec fn width_at(widths: Seq<usize>, i: int) -> nat {
    if 0 <= i < widths.len() {
        widths[i] as nat
    } else {
        0
    }
}

/// The cells of a line, each behind a bar and a space, and filled up.
pub open spec fn cells_text(cells: Seq<Seq<char>>, widths: Seq<usize>) -> Seq<char>
    decreases cells.len(),
{
    if cells.len() == 0 {
        Seq::empty()
    } else {
        cells_text(cells.drop_last(), widths) + seq!['|', ' '] + padded(
            cells.last(),
            width_at(widths, cells.len() - 1),
        ) + seq![' ']
    }
}

/// A line: its cells, and a closing bar.
pub open spec fn row_text(cells: Seq<Seq<char>>, widths: Seq<usize>) -> Seq<char> {
    cells_text(cells, widths) + seq!['|']
}

/// The texts in `row`.
pub open spec fn cell_texts(row: Seq<String>) -> Seq<Seq<char>> {
    row.map_values(|cell: String| cell@)
}

/// The widths of the columns: for each name, the bytes of the name or of
/// the longest cell under it, whichever is more.
pub fn column_widths(names: &Vec<String>, rows: &Vec<Vec<String>>) -> (widths: Vec<usize>)
    ensures
        widths@.len() == names@.len(),
        forall|c: int|
            0 <= c < names@.len() ==> (#[trigger] widths@[c]) == column_width(
                names@[c]@,
                texts_of(rows@),
                c,
            ),
{
    let mut widths: Vec<usize> = Vec::new();
    let mut c: usize = 0;
    let ghost texts = texts_of(rows@);
    while c < names.len()
        invariant
            c <= names@.len(),
            texts == texts_of(rows@),
            widths@.len() == c,
            forall|k: int|
                0 <= k < c ==> (#[trigger] widths@[k]) == column_width(names@[k]@, texts, k),
        decreases names@.len() - c,
    {
        let mut width: usize = names[c].as_str().as_bytes().len();
        let mut r: usize = 0;
        proof {
            assert(texts.take(0) =~= Seq::empty());
        }
        while r < rows.len()
            invariant
                r <= rows@.len(),
                c < names@.len(),
                texts == texts_of(rows@),
                width == column_width(names@[c as int]@, texts.take(r as int), c as int),
            decreases rows@.len() - r,
        {
            proof {
                assert(texts.take(r + 1).drop_last() =~= texts.take(r as int));
                assert(texts.take(r + 1).last() == cell_texts(rows@[r as int]@));
            }
            if c < rows[r].len() {
                let len = rows[r][c].as_str().as_bytes().len();
                if len > width {
                    width = len;
                }
            }
            r = r + 1;
        }
        proof {
            assert(texts.take(r as int) =~= texts);
        }
        widths.push(width);
        c = c + 1;
    }
    widths
}

/// Lays out one line: `| cell | cell |`, each cell filled up with spaces to
/// the width of its column. Where `widths` has no entry for a cell, the
/// cell stays as it is.
pub fn format_row(cells: &Vec<String>, widths: &Vec<usize>) -> (line: String)
    ensures
        line@ == row_text(cell_texts(cells@), widths@),
{
    let mut line = String::new();
    let ghost texts = cell_texts(cells@);
    let mut i: usize = 0;
    proof {
        reveal_strlit("| ");
        reveal_strlit(" ");
        reveal_strlit("|");
        assert(texts.take(0) =~= Seq::empty());
    }
    while i < cells.len()
        invariant
            i <= cells@.len(),
            texts == cell_texts(cells@),
            line@ == cells_text(texts.take(i as int), widths@),
            "| "@ == seq!['|', ' '],
            " "@ == seq![' '],
        decreases cells@.len() - i,
    {
        let cell = cells[i].as_str();
        let width: usize = if i < widths.len() {
            widths[i]
        } else {
            0
        };
        let len = cell.unicode_len();
        line.append("| ");
        line.append(cell);
        let mut n: usize = len;
        while n < width
            invariant
                len <= n,
                len == cell@.len(),
                len < width ==> n <= width,
                len >= width ==> n == len,
                line@ == cells_text(texts.take(i as int), widths@) + seq!['|', ' '] + cell@
                    + spaces((n - len) as nat),
                " "@ == seq![' '],
            decreases width - n,
        {
            line.append(" ");
            n = n + 1;
            assert(spaces((n - 1 - len) as nat) + seq![' '] =~= spaces((n - len) as nat));
            assert(line@ =~= cells_text(texts.take(i as int), widths@) + seq!['|', ' '] + cell@
                + spaces((n - len) as nat));
        }
        line.append(" ");
        proof {
            assert(texts.take(i + 1).drop_last() =~= texts.take(i as int));
            assert(texts.take(i + 1).last() == cell@);
            assert(width == width_at(widths@, i as int));
            assert(cell@ + spaces(0) =~= cell@);
            assert(line@ =~= cells_text(texts.take(i + 1), widths@));
        }
        i = i + 1;
    }
    line.append("|");
    proof {
        assert(texts.take(i as int) =~= texts);
        assert("|"@ =~= seq!['|']);
    }
    line
}

} // verus!
