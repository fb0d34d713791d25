//! The maze text format at the specification level: how a character
//! sequence decomposes into rows. Each source line is one maze row;
//! spaces and carriage returns are structural and contribute no tile;
//! blank lines at either end of the text are ignored.

use vstd::prelude::*;

verus! {

/// Whitespace that is stripped from a row: it contributes no tile.
pub open spec fn is_sep(ch: char) -> bool {
    ch == ' ' || ch == '\r'
}

/// The rows of a text: the text split at `'\n'`, each piece stripped of
/// separator characters. A text always has at least one row; a trailing
/// `'\n'` produces a final empty row.
pub open spec fn rows_raw(text: Seq<char>) -> Seq<Seq<char>>
    decreases text.len(),
{
    if text.len() == 0 {
        seq![Seq::<char>::empty()]
    } else if text[0] == '\n' {
        seq![Seq::<char>::empty()] + rows_raw(text.drop_first())
    } else if is_sep(text[0]) {
        rows_raw(text.drop_first())
    } else {
        let rest = rows_raw(text.drop_first());
        seq![seq![text[0]] + rest[0]] + rest.drop_first()
    }
}

/// Splitting always yields at least one row.
pub proof fn lemma_rows_raw_nonempty(text: Seq<char>)
    ensures
        rows_raw(text).len() >= 1,
    decreases text.len(),
{
    if text.len() != 0 {
        lemma_rows_raw_nonempty(text.drop_first());
    }
}

/// Leading blank rows are dropped.
pub open spec fn trim_leading(rows: Seq<Seq<char>>) -> Seq<Seq<char>>
    decreases rows.len(),
{
    if rows.len() > 0 && rows[0].len() == 0 {
        trim_leading(rows.drop_first())
    } else {
        rows
    }
}

/// Trailing blank rows are dropped.
pub open spec fn trim_trailing(rows: Seq<Seq<char>>) -> Seq<Seq<char>>
    decreases rows.len(),
{
    if rows.len() > 0 && rows.last().len() == 0 {
        trim_trailing(rows.drop_last())
    } else {
        rows
    }
}

/// The maze rows of a text: split, stripped, and with blank rows at
/// either end removed, exactly as a surrounding trim of the source
/// text would remove them.
pub open spec fn rows_of(text: Seq<char>) -> Seq<Seq<char>> {
    trim_trailing(trim_leading(rows_raw(text)))
}

/// A well-formed maze encoding: at least one row, no empty rows, all
/// rows of one width, and every character a tile character.
pub open spec fn rows_ok(rows: Seq<Seq<char>>) -> bool {
    &&& rows.len() > 0
    &&& rows[0].len() > 0
    &&& forall|y: int| 0 <= y < rows.len() ==> (#[trigger] rows[y]).len() == rows[0].len()
    &&& forall|y: int, x: int|
        0 <= y < rows.len() && 0 <= x < rows[y].len() ==> crate::maze::is_tile_char(
            #[trigger] rows[y][x],
        )
}

/// If the first `k` rows are blank and row `k`, where present, is not,
/// then trimming the leading blanks keeps exactly the rows from `k` on.
pub proof fn lemma_trim_leading_skip(rows: Seq<Seq<char>>, k: int)
    requires
        0 <= k <= rows.len(),
        forall|i: int| 0 <= i < k ==> (#[trigger] rows[i]).len() == 0,
        k < rows.len() ==> rows[k].len() != 0,
    ensures
        trim_leading(rows) == rows.skip(k),
    decreases k,
{
    if k == 0 {
        assert(rows.skip(0) =~= rows);
    } else {
        assert(rows[0].len() == 0);
        lemma_trim_leading_skip(rows.drop_first(), k - 1);
        assert(rows.drop_first().skip(k - 1) =~= rows.skip(k));
    }
}

/// If the rows from `k` on are blank and row `k - 1`, where present, is
/// not, then trimming the trailing blanks keeps exactly the first `k` rows.
pub proof fn lemma_trim_trailing_take(rows: Seq<Seq<char>>, k: int)
    requires
        0 <= k <= rows.len(),
        forall|i: int| k <= i < rows.len() ==> (#[trigger] rows[i]).len() == 0,
        k > 0 ==> rows[k - 1].len() != 0,
    ensures
        trim_trailing(rows) == rows.take(k),
    decreases rows.len(),
{
    if k == rows.len() {
        assert(rows.take(k) =~= rows);
    } else {
        assert(rows.last().len() == 0);
        lemma_trim_trailing_take(rows.drop_last(), k);
        assert(rows.drop_last() =~= rows.take(rows.len() - 1));
        assert(rows.take(rows.len() - 1).take(k) =~= rows.take(k));
    }
}

/// Prepending a row of plain characters (no separators, no newline) to a
/// text extends the text's first row and leaves the others unchanged.
pub proof fn lemma_rows_raw_prepend_row(row: Seq<char>, rest: Seq<char>)
    requires
        forall|i: int| 0 <= i < row.len() ==> !is_sep(#[trigger] row[i]) && row[i] != '\n',
    ensures
        rows_raw(row + rest) == seq![row + rows_raw(rest)[0]] + rows_raw(rest).drop_first(),
    decreases row.len(),
{
    lemma_rows_raw_nonempty(rest);
    if row.len() == 0 {
        assert(row + rest =~= rest);
        assert(seq![row + rows_raw(rest)[0]] + rows_raw(rest).drop_first() =~= rows_raw(rest));
    } else {
        let tail = row.drop_first();
        lemma_rows_raw_prepend_row(tail, rest);
        assert((row + rest).drop_first() =~= tail + rest);
        assert((row + rest)[0] == row[0]);
        let inner = rows_raw(tail + rest);
        assert(rows_raw(row + rest) == seq![seq![row[0]] + inner[0]] + inner.drop_first());
        assert(inner[0] == tail + rows_raw(rest)[0]);
        assert(inner.drop_first() =~= rows_raw(rest).drop_first());
        assert(seq![row[0]] + (tail + rows_raw(rest)[0]) =~= row + rows_raw(rest)[0]);
        assert(seq![seq![row[0]] + inner[0]] + inner.drop_first() =~= seq![row + rows_raw(
            rest,
        )[0]] + rows_raw(rest).drop_first());
    }
}

} // verus!
