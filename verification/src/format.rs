//! The grid text format, stated mathematically.
//!
//! A grid is written as rows separated by newlines. Each row is cut into
//! grapheme clusters; a cluster that is the single character `.` is a
//! blocked square, any other single character is an open square holding
//! that character. All rows must have as many clusters as the first.

use crate::grid::{shape_fits, Square};
use crate::puzzle::{lemma_slot_in_grid, model_of, PuzzleError, PuzzleModel};
use crate::text::{graphemes_of, split_lines, total_len};
use vstd::prelude::*;

verus! {

/// The square that a character stands for.
pub open spec fn square_of(c: char) -> Square {
    if c == '.' {
        None
    } else {
        Some(c)
    }
}

/// What is wrong with a row, if anything, given the number of clusters a row
/// must have. Reading the row from the left, a cluster that is not a single
/// character within the first `ncols` is met first; then a cluster beyond
/// `ncols`; then the end of a row that is too short.
pub open spec fn row_error(row: Seq<Seq<char>>, ncols: int) -> Option<PuzzleError> {
    if exists|j: int| 0 <= j < row.len() && j < ncols && (#[trigger] row[j]).len() != 1 {
        Some(PuzzleError::MultiCodepointGrapheme)
    } else if row.len() > ncols {
        Some(PuzzleError::RowTooLong)
    } else if row.len() < ncols {
        Some(PuzzleError::RowTooShort)
    } else {
        None
    }
}

/// The error of the first of the first `n` rows that has one.
pub open spec fn first_error(rows: Seq<Seq<Seq<char>>>, ncols: int, n: int) -> Option<PuzzleError>
    decreases n,
{
    if n <= 0 {
        None
    } else {
        match first_error(rows, ncols, n - 1) {
            Some(e) => Some(e),
            None => row_error(rows[n - 1], ncols),
        }
    }
}

/// The number of clusters every row must have: that of the first row.
pub open spec fn columns_of(rows: Seq<Seq<Seq<char>>>) -> int {
    if rows.len() == 0 {
        0
    } else {
        rows[0].len() as int
    }
}

/// The squares that rows of single-character clusters stand for.
pub open spec fn grid_of(rows: Seq<Seq<Seq<char>>>) -> Seq<Seq<Square>> {
    Seq::new(rows.len(), |r: int| Seq::new(rows[r].len(), |c: int| square_of(rows[r][c][0])))
}

/// The puzzle that rows of clusters describe, or the first error met.
pub open spec fn parse_clusters(rows: Seq<Seq<Seq<char>>>) -> Result<PuzzleModel, PuzzleError> {
    match first_error(rows, columns_of(rows), rows.len() as int) {
        Some(e) => Err(e),
        None => Ok(model_of(grid_of(rows))),
    }
}

/// The rows of a text, each cut into its grapheme clusters.
pub open spec fn clusters_of(text: Seq<char>) -> Seq<Seq<Seq<char>>> {
    Seq::new(split_lines(text).len(), |r: int| graphemes_of(split_lines(text)[r]))
}

/// The puzzle that a text describes, or the first error met.
pub open spec fn parse_text(text: Seq<char>) -> Result<PuzzleModel, PuzzleError> {
    parse_clusters(clusters_of(text))
}

/// Where the first `n` rows have no error, none of them has.
pub proof fn lemma_no_error(rows: Seq<Seq<Seq<char>>>, ncols: int, n: int, r: int)
    requires
        first_error(rows, ncols, n) is None,
        0 <= r < n,
    ensures
        row_error(rows[r], ncols) is None,
        rows[r].len() == ncols,
        forall|c: int| 0 <= c < ncols ==> (#[trigger] rows[r][c]).len() == 1,
    decreases n,
{
    if r < n - 1 {
        lemma_no_error(rows, ncols, n - 1, r);
    }
}

/// The error of a row before which no row has one is the error of the whole.
pub proof fn lemma_error_at(rows: Seq<Seq<Seq<char>>>, ncols: int, n: int, r: int)
    requires
        0 <= r < n,
        first_error(rows, ncols, r) is None,
        row_error(rows[r], ncols) is Some,
    ensures
        first_error(rows, ncols, n) == row_error(rows[r], ncols),
    decreases n,
{
    if r < n - 1 {
        lemma_error_at(rows, ncols, n - 1, r);
    }
}

/// Where the first `n` rows have an error, it is the error of some row
/// before which no row has one.
pub proof fn lemma_first_error(rows: Seq<Seq<Seq<char>>>, ncols: int, n: int) -> (r: int)
    requires
        first_error(rows, ncols, n) is Some,
    ensures
        0 <= r < n,
        row_error(rows[r], ncols) == first_error(rows, ncols, n),
        first_error(rows, ncols, r) is None,
    decreases n,
{
    if first_error(rows, ncols, n - 1) is Some {
        lemma_first_error(rows, ncols, n - 1)
    } else {
        n - 1
    }
}

/// A grid that parses is rectangular: every row of the text has as many
/// grapheme clusters as the first, and every row of the grid as many squares.
pub proof fn lemma_parsed_is_rectangular(rows: Seq<Seq<Seq<char>>>, r: int)
    requires
        parse_clusters(rows) is Ok,
        0 <= r < rows.len(),
    ensures
        rows[r].len() == rows[0].len(),
        parse_clusters(rows)->Ok_0.cells.len() == rows.len(),
        parse_clusters(rows)->Ok_0.cells[r].len() == rows[0].len(),
{
    lemma_no_error(rows, columns_of(rows), rows.len() as int, r);
}

/// Clusters of one character each, put end to end, give those characters:
/// as many as there are clusters, each cluster's character at its place.
pub proof fn lemma_flatten_singles(clusters: Seq<Seq<char>>)
    requires
        forall|c: int| 0 <= c < clusters.len() ==> (#[trigger] clusters[c]).len() == 1,
    ensures
        clusters.flatten().len() == clusters.len(),
        forall|c: int| 0 <= c < clusters.len() ==> clusters.flatten()[c] == (#[trigger] clusters[c])[0],
    decreases clusters.len(),
{
    if clusters.len() > 0 {
        let rest = clusters.drop_first();
        assert forall|c: int| 0 <= c < rest.len() implies (#[trigger] rest[c]).len() == 1 by {
            assert(rest[c] == clusters[c + 1]);
        }
        lemma_flatten_singles(rest);
        assert forall|c: int| 0 <= c < clusters.len() implies clusters.flatten()[c] == (
        #[trigger] clusters[c])[0] by {
            if c > 0 {
                assert(rest[c - 1] == clusters[c]);
                assert(clusters.flatten()[c] == rest.flatten()[c - 1]);
            }
        }
    }
}

/// What is read from a slot of a parsed puzzle is what the text holds there:
/// the letters of an across-slot are the characters of its row of the text
/// from the slot's start to its end, and the letters of a down-slot are the
/// characters of its column of the text. `lines` are the rows of the text.
pub proof fn lemma_slot_reads_source(lines: Seq<Seq<char>>, rows: Seq<Seq<Seq<char>>>, i: int)
    requires
        rows.len() == lines.len(),
        forall|r: int| 0 <= r < rows.len() ==> (#[trigger] rows[r]).flatten() == lines[r],
        parse_clusters(rows) is Ok,
        shape_fits(rows.len() as int, columns_of(rows)),
        0 <= i < parse_clusters(rows)->Ok_0.nslots(),
    ensures
        ({
            let puzzle = parse_clusters(rows)->Ok_0;
            &&& puzzle.wf()
            &&& i < puzzle.acrosses.len() ==> puzzle.text(i) == lines[puzzle.acrosses[i].k as int].subrange(
                puzzle.acrosses[i].start as int,
                puzzle.acrosses[i].stop as int,
            )
            &&& i >= puzzle.acrosses.len() ==> {
                let at = puzzle.downs[i - puzzle.acrosses.len()];
                puzzle.text(i) == Seq::new(
                    (at.stop - at.start) as nat,
                    |j: int| lines[at.start + j][at.k as int],
                )
            }
        }),
{
    let puzzle = parse_clusters(rows)->Ok_0;
    let ncols = columns_of(rows);
    let n = rows.len() as int;
    assert forall|r: int| 0 <= r < n implies (#[trigger] puzzle.cells[r]).len() == ncols by {
        lemma_no_error(rows, ncols, n, r);
    }
    if n > 0 {
        lemma_no_error(rows, ncols, n, 0);
    }
    assert(puzzle.wf());
    lemma_slot_in_grid(puzzle, i);
    assert forall|r: int, c: int| 0 <= r < n && 0 <= c < ncols implies puzzle.cells[r][c]
        == square_of(#[trigger] lines[r][c]) by {
        lemma_no_error(rows, ncols, n, r);
        lemma_flatten_singles(rows[r]);
    }
    if i < puzzle.acrosses.len() {
        let at = puzzle.acrosses[i];
        let wanted = lines[at.k as int].subrange(at.start as int, at.stop as int);
        lemma_no_error(rows, ncols, n, at.k as int);
        lemma_flatten_singles(rows[at.k as int]);
        assert forall|j: int| 0 <= j < wanted.len() implies puzzle.text(i)[j] == wanted[j] by {
            assert(puzzle.squares(i)[j] is Some);
            assert(puzzle.cells[at.k as int][at.start + j] == square_of(lines[at.k as int][at.start + j]));
        }
        assert(puzzle.text(i) =~= wanted);
    } else {
        let at = puzzle.downs[i - puzzle.acrosses.len()];
        let wanted = Seq::new((at.stop - at.start) as nat, |j: int| lines[at.start + j][at.k as int]);
        assert forall|j: int| 0 <= j < wanted.len() implies puzzle.text(i)[j] == wanted[j] by {
            assert(puzzle.squares(i)[j] is Some);
            lemma_no_error(rows, ncols, n, at.start + j);
            lemma_flatten_singles(rows[at.start + j]);
            assert(puzzle.cells[at.start + j][at.k as int] == square_of(lines[at.start + j][at.k as int]));
        }
        assert(puzzle.text(i) =~= wanted);
    }
}

/// Where every one of the first `n` lines has `ncols` characters, they have
/// `n * ncols` characters together.
proof fn lemma_total_len(lines: Seq<Seq<char>>, ncols: int, n: int)
    requires
        0 <= n <= lines.len(),
        forall|r: int| 0 <= r < n ==> (#[trigger] lines[r]).len() == ncols,
    ensures
        total_len(lines.take(n)) == n * ncols,
    decreases n,
{
    if n > 0 {
        lemma_total_len(lines, ncols, n - 1);
        assert(lines.take(n).drop_last() =~= lines.take(n - 1));
        assert(n * ncols == (n - 1) * ncols + ncols) by (nonlinear_arith);
    } else {
        assert(n * ncols == 0) by (nonlinear_arith)
            requires
                n == 0,
        ;
    }
}

/// A text that parses has a grid no larger than the text: the rows and
/// columns of a text shorter than `isize::MAX` fit in an array.
pub proof fn lemma_text_fits(text: Seq<char>, rows: Seq<Seq<Seq<char>>>)
    requires
        text.len() < isize::MAX,
        rows.len() == split_lines(text).len(),
        forall|r: int| 0 <= r < rows.len() ==> (#[trigger] rows[r]).flatten() == split_lines(text)[r],
        parse_clusters(rows) is Ok,
    ensures
        shape_fits(rows.len() as int, columns_of(rows)),
{
    let lines = split_lines(text);
    let ncols = columns_of(rows);
    let n = rows.len() as int;
    crate::text::lemma_split_lines_len(text);
    assert forall|r: int| 0 <= r < n implies (#[trigger] lines[r]).len() == ncols by {
        lemma_no_error(rows, ncols, n, r);
        lemma_flatten_singles(rows[r]);
    }
    lemma_total_len(lines, ncols, n);
    assert(lines.take(n) =~= lines);
    assert(n * ncols >= ncols) by (nonlinear_arith)
        requires
            n >= 1,
            ncols >= 0,
    ;
}

} // verus!
