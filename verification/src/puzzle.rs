//! The crossword puzzle: a grid of squares together with its slots.

use crate::format::{clusters_of, columns_of, first_error, grid_of, lemma_error_at, lemma_no_error, lemma_text_fits, parse_clusters, parse_text, row_error, square_of};
use crate::grid::{grid_cells, grid_clone, grid_column, grid_from_elem, grid_nrows, grid_row, grid_set, lane_cells, lane_get, lane_len, lane_slice, shape_fits, Grid, Lane, Square};
use crate::slots::{across_slots, column_of, down_slots, identify_slots, lemma_across_slots_are_maximal_runs, lemma_across_slots_count, lemma_across_slots_same, lemma_down_slots_are_maximal_runs, lemma_down_slots_count, lemma_down_slots_same, maximal_run, open_at, rectangular, width, SlotCoords};
use crate::text::{chars_of, cluster_rows_of, graphemes, graphemes_of, lines_of, split_lines, string_push, views_of};
use vstd::prelude::*;
use vstd::string::{StrSliceExecFns, StringExecFns};

verus! {

/// Why a puzzle could not be built, read or changed.
#[derive(Clone, Copy, Debug, PartialEq, Eq, Structural)]
pub enum PuzzleError {
    /// A row has fewer grapheme clusters than the first row.
    RowTooShort,
    /// A row has more grapheme clusters than the first row.
    RowTooLong,
    /// A grapheme cluster is not a single character.
    MultiCodepointGrapheme,
    /// A slot index is not below the number of slots.
    IndexOutOfRange,
    /// A value does not have as many characters as the slot it is meant for.
    LengthMismatch,
}

impl PuzzleError {
    /// A sentence that says what went wrong.
    pub fn message(&self) -> (text: &'static str)
        ensures
            text@ == match *self {
                PuzzleError::RowTooShort => "a row has too few characters"@,
                PuzzleError::RowTooLong => "a row has too many characters"@,
                PuzzleError::MultiCodepointGrapheme => "crossword puzzle can't contain a grapheme cluster composed of more than 1 unicode character"@,
                PuzzleError::IndexOutOfRange => "The index is too large!"@,
                PuzzleError::LengthMismatch => "value doesn't have the correct length"@,
            },
    {
        match self {
            PuzzleError::RowTooShort => "a row has too few characters",
            PuzzleError::RowTooLong => "a row has too many characters",
            PuzzleError::MultiCodepointGrapheme => "crossword puzzle can't contain a grapheme cluster composed of more than 1 unicode character",
            PuzzleError::IndexOutOfRange => "The index is too large!",
            PuzzleError::LengthMismatch => "value doesn't have the correct length",
        }
    }
}

/// The mathematical content of a puzzle: its squares row by row, and its
/// slots in the order in which they are numbered.
pub struct PuzzleModel {
    pub cells: Seq<Seq<Square>>,
    pub acrosses: Seq<SlotCoords>,
    pub downs: Seq<SlotCoords>,
}

/// The letters on a run of open squares.
pub open spec fn letters_of(squares: Seq<Square>) -> Seq<char> {
    Seq::new(squares.len(), |j: int| squares[j]->0)
}

/// The character a square is shown as: its letter, or `.` when blocked.
pub open spec fn square_char(square: Square) -> char {
    match square {
        Some(letter) => letter,
        None => '.',
    }
}

/// One line of the picture of a puzzle: the indent, the squares, a newline.
pub open spec fn rendered_squares(indent: Seq<char>, squares: Seq<Square>) -> Seq<char> {
    indent + Seq::new(squares.len(), |j: int| square_char(squares[j])) + seq!['\n']
}

/// The lines for the first `n` rows of a grid.
pub open spec fn rendered_rows(cells: Seq<Seq<Square>>, n: int) -> Seq<char>
    decreases n,
{
    if n <= 0 {
        Seq::empty()
    } else {
        rendered_rows(cells, n - 1) + rendered_squares("  "@, cells[n - 1])
    }
}

/// The puzzle that a grid of squares gives rise to.
pub open spec fn model_of(cells: Seq<Seq<Square>>) -> PuzzleModel {
    PuzzleModel {
        cells,
        acrosses: across_slots(cells),
        downs: down_slots(cells, width(cells)),
    }
}

impl PuzzleModel {
    /// The grid is rectangular and within the size an array can have, and the
    /// slots are exactly the slots of the grid.
    pub open spec fn wf(self) -> bool {
        &&& rectangular(self.cells, width(self.cells))
        &&& shape_fits(self.cells.len() as int, width(self.cells))
        &&& self.acrosses == across_slots(self.cells)
        &&& self.downs == down_slots(self.cells, width(self.cells))
    }

    /// The total number of slots.
    pub open spec fn nslots(self) -> nat {
        self.acrosses.len() + self.downs.len()
    }

    /// The squares of slot `i`: across-slots come first, then down-slots.
    pub open spec fn squares(self, i: int) -> Seq<Square> {
        if i < self.acrosses.len() {
            let at = self.acrosses[i];
            self.cells[at.k as int].subrange(at.start as int, at.stop as int)
        } else {
            let at = self.downs[i - self.acrosses.len()];
            column_of(self.cells, at.k as int).subrange(at.start as int, at.stop as int)
        }
    }

    /// The letters of slot `i`.
    pub open spec fn text(self, i: int) -> Seq<char> {
        letters_of(self.squares(i))
    }

    /// Whether the square in row `r` and column `c` belongs to slot `i`, and
    /// if so at which position of the slot.
    pub open spec fn position_in(self, i: int, r: int, c: int) -> Option<int> {
        if i < self.acrosses.len() {
            let at = self.acrosses[i];
            if r == at.k && at.start <= c < at.stop {
                Some(c - at.start)
            } else {
                None
            }
        } else {
            let at = self.downs[i - self.acrosses.len()];
            if c == at.k && at.start <= r < at.stop {
                Some(r - at.start)
            } else {
                None
            }
        }
    }

    /// The lines for the slots `from..to`.
    pub open spec fn rendered_slots(self, from: int, to: int) -> Seq<char>
        decreases to - from,
    {
        if to <= from {
            Seq::empty()
        } else {
            self.rendered_slots(from, to - 1) + rendered_squares(" ->"@, self.squares(to - 1))
        }
    }

    /// The picture of the puzzle: the grid, then the across-slots, then the
    /// down-slots.
    pub open spec fn rendered(self) -> Seq<char> {
        "Grid{\n"@ + rendered_rows(self.cells, self.cells.len() as int) + "\n"@ + "ACROSSES:\n"@
            + self.rendered_slots(0, self.acrosses.len() as int) + "\n"@ + "DOWNS:\n"@
            + self.rendered_slots(self.acrosses.len() as int, self.nslots() as int) + "}"@
    }

    /// The squares of the puzzle after the first `n` characters of `value`
    /// have been written into slot `i`.
    pub open spec fn filled_upto(self, i: int, value: Seq<char>, n: int) -> Seq<Seq<Square>> {
        Seq::new(
            self.cells.len(),
            |r: int|
                Seq::new(
                    self.cells[r].len(),
                    |c: int|
                        match self.position_in(i, r, c) {
                            Some(j) => if j < n {
                                Some(value[j])
                            } else {
                                self.cells[r][c]
                            },
                            None => self.cells[r][c],
                        },
                ),
        )
    }

    /// The puzzle with the squares of slot `i` overwritten by the characters
    /// of `value`, in order. All other squares and the slots stay as they
    /// are.
    pub open spec fn filled(self, i: int, value: Seq<char>) -> PuzzleModel {
        PuzzleModel {
            cells: Seq::new(
                self.cells.len(),
                |r: int|
                    Seq::new(
                        self.cells[r].len(),
                        |c: int|
                            match self.position_in(i, r, c) {
                                Some(j) => Some(value[j]),
                                None => self.cells[r][c],
                            },
                    ),
            ),
            acrosses: self.acrosses,
            downs: self.downs,
        }
    }
}

/// A read-only view of one slot of a puzzle. Every square under it is open.
pub struct Slot<'a> {
    lane: Lane<'a>,
}

impl<'a> View for Slot<'a> {
    type V = Seq<char>;

    /// The letters of the slot, in order.
    closed spec fn view(&self) -> Seq<char> {
        letters_of(lane_cells(self.lane))
    }
}

impl<'a> Slot<'a> {
    #[verifier::type_invariant]
    spec fn all_open(self) -> bool {
        forall|j: int| 0 <= j < lane_cells(self.lane).len() ==> (#[trigger] lane_cells(self.lane)[j]) is Some
    }

    /// The number of squares in the slot.
    pub fn len(&self) -> (n: usize)
        ensures
            n == self@.len(),
    {
        lane_len(&self.lane)
    }

    /// Whether the slot has no squares.
    pub fn is_empty(&self) -> (empty: bool)
        ensures
            empty == (self@.len() == 0),
    {
        lane_len(&self.lane) == 0
    }

    /// The letter at position `i` of the slot.
    pub fn index(&self, i: usize) -> (letter: char)
        requires
            i < self@.len(),
        ensures
            letter == self@[i as int],
    {
        proof {
            use_type_invariant(self);
        }
        match lane_get(&self.lane, i) {
            Some(letter) => letter,
            None => vstd::pervasive::unreached(),
        }
    }

    /// The letters of the slot as a string.
    pub fn to_string(&self) -> (text: String)
        ensures
            text@ == self@,
    {
        proof {
            use_type_invariant(self);
        }
        let n = lane_len(&self.lane);
        let mut text = String::new();
        let mut i: usize = 0;
        while i < n
            invariant
                n == self@.len(),
                i <= n,
                text@ == self@.take(i as int),
            decreases n - i,
        {
            let letter = self.index(i);
            string_push(&mut text, letter);
            proof {
                assert(self@.take(i as int + 1) =~= self@.take(i as int).push(letter));
            }
            i += 1;
        }
        proof {
            assert(self@.take(n as int) =~= self@);
        }
        text
    }
}

/// The squares of a slot of a well-formed puzzle lie inside the grid and are
/// all open; the slot is not empty.
pub proof fn lemma_slot_in_grid(m: PuzzleModel, i: int)
    requires
        m.wf(),
        0 <= i < m.nslots(),
    ensures
        i < m.acrosses.len() ==> {
            &&& m.acrosses[i].k < m.cells.len()
            &&& m.acrosses[i].start < m.acrosses[i].stop <= width(m.cells)
            &&& maximal_run(
                m.cells[m.acrosses[i].k as int],
                m.acrosses[i].start as int,
                m.acrosses[i].stop as int,
            )
        },
        i >= m.acrosses.len() ==> {
            let at = m.downs[i - m.acrosses.len()];
            &&& at.k < width(m.cells)
            &&& at.start < at.stop <= m.cells.len()
            &&& maximal_run(column_of(m.cells, at.k as int), at.start as int, at.stop as int)
        },
        m.squares(i).len() > 0,
        forall|j: int| 0 <= j < m.squares(i).len() ==> (#[trigger] m.squares(i)[j]) is Some,
{
    let ncols = width(m.cells);
    if i < m.acrosses.len() {
        lemma_across_slots_are_maximal_runs(m.cells, ncols, i);
        let at = m.acrosses[i];
        assert forall|j: int| 0 <= j < m.squares(i).len() implies (#[trigger] m.squares(i)[j]) is Some by {
            assert(open_at(m.cells[at.k as int], at.start + j));
        }
    } else {
        lemma_down_slots_are_maximal_runs(m.cells, ncols, i - m.acrosses.len());
        let at = m.downs[i - m.acrosses.len()];
        assert forall|j: int| 0 <= j < m.squares(i).len() implies (#[trigger] m.squares(i)[j]) is Some by {
            assert(open_at(column_of(m.cells, at.k as int), at.start + j));
        }
    }
}

/// Filling a slot keeps the puzzle well formed: the grid keeps its shape, and
/// since only open squares are written, the slots stay what they were.
pub proof fn lemma_filled_wf(m: PuzzleModel, i: int, value: Seq<char>)
    requires
        m.wf(),
        0 <= i < m.nslots(),
    ensures
        m.filled(i, value).wf(),
        m.filled(i, value).acrosses == m.acrosses,
        m.filled(i, value).downs == m.downs,
{
    let cells = m.cells;
    let after = m.filled(i, value).cells;
    lemma_slot_in_grid(m, i);
    assert forall|r: int, c: int| 0 <= r < cells.len() implies open_at(cells[r], c) == open_at(
        after[r],
        c,
    ) by {
        if 0 <= c < cells[r].len() {
            if m.position_in(i, r, c) is Some {
                if i < m.acrosses.len() {
                    assert(open_at(cells[m.acrosses[i].k as int], c));
                } else {
                    assert(open_at(column_of(cells, m.downs[i - m.acrosses.len()].k as int), r));
                }
            }
        }
    }
    assert(width(after) == width(cells));
    lemma_across_slots_same(cells, after, cells.len() as int);
    lemma_down_slots_same(cells, after, width(cells));
}

/// What was written into a slot is read back from it: after slot `i` is
/// filled with a value of the slot's length, the letters of slot `i` are that
/// value.
pub proof fn lemma_filled_reads_back(m: PuzzleModel, i: int, value: Seq<char>)
    requires
        m.wf(),
        0 <= i < m.nslots(),
        value.len() == m.squares(i).len(),
    ensures
        m.filled(i, value).text(i) == value,
{
    lemma_slot_in_grid(m, i);
    assert(m.filled(i, value).text(i) =~= value);
}

/// The grid while it is being filled in from `rows`: the squares before row
/// `r`, and those of row `r` before column `c`, are set; the rest are still
/// blocked.
spec fn grid_upto(rows: Seq<Seq<Seq<char>>>, ncols: int, r: int, c: int) -> Seq<Seq<Square>> {
    Seq::new(
        rows.len(),
        |i: int|
            Seq::new(
                ncols as nat,
                |j: int|
                    if i < r || (i == r && j < c) {
                        square_of(rows[i][j][0])
                    } else {
                        None
                    },
            ),
    )
}

/// A crossword puzzle: a rectangular grid of squares and the slots found in
/// it. Slots are numbered across-slots first, then down-slots.
pub struct Puzzle {
    grid: Grid,
    downs: Vec<SlotCoords>,
    acrosses: Vec<SlotCoords>,
}

impl View for Puzzle {
    type V = PuzzleModel;

    closed spec fn view(&self) -> PuzzleModel {
        PuzzleModel { cells: grid_cells(self.grid), acrosses: self.acrosses@, downs: self.downs@ }
    }
}

impl Puzzle {
    #[verifier::type_invariant]
    spec fn inv(self) -> bool {
        self@.wf()
    }

    /// Builds a puzzle from the rows of a grid, each row given as its
    /// grapheme clusters. The first row decides how many clusters a row must
    /// have. Rows are checked from the top, each from the left, and the first
    /// fault found is the error returned; no puzzle is built unless every row
    /// is sound. A grid that is sound must fit in an array.
    pub fn from_clusters(rows: &Vec<Vec<Vec<char>>>) -> (parsed: Result<Puzzle, PuzzleError>)
        requires
            parse_clusters(cluster_rows_of(rows@)) is Ok ==> shape_fits(
                rows@.len() as int,
                columns_of(cluster_rows_of(rows@)),
            ),
        ensures
            match parsed {
                Ok(puzzle) => parse_clusters(cluster_rows_of(rows@)) == Ok::<PuzzleModel, PuzzleError>(
                    puzzle@,
                ),
                Err(e) => parse_clusters(cluster_rows_of(rows@)) == Err::<PuzzleModel, PuzzleError>(e),
            },
            parsed is Ok ==> parsed->Ok_0@.wf(),
    {
        let ghost clusters = cluster_rows_of(rows@);
        let nrows = rows.len();
        let ncols = if nrows > 0 {
            rows[0].len()
        } else {
            0
        };
        let mut r: usize = 0;
        while r < nrows
            invariant
                nrows == rows@.len(),
                clusters == cluster_rows_of(rows@),
                ncols == columns_of(clusters),
                r <= nrows,
                first_error(clusters, ncols as int, r as int) is None,
            decreases nrows - r,
        {
            let row = &rows[r];
            let mut c: usize = 0;
            while c < row.len()
                invariant
                    nrows == rows@.len(),
                    row@ == rows@[r as int]@,
                    clusters == cluster_rows_of(rows@),
                    ncols == columns_of(clusters),
                    r < nrows,
                    first_error(clusters, ncols as int, r as int) is None,
                    c <= row@.len(),
                    c <= ncols,
                    forall|j: int| 0 <= j < c ==> (#[trigger] clusters[r as int][j]).len() == 1,
                decreases row@.len() - c,
            {
                if c == ncols {
                    proof {
                        assert(row_error(clusters[r as int], ncols as int) == Some(
                            PuzzleError::RowTooLong,
                        ));
                        lemma_error_at(clusters, ncols as int, nrows as int, r as int);
                    }
                    return Err(PuzzleError::RowTooLong);
                }
                if row[c].len() != 1 {
                    proof {
                        assert(clusters[r as int][c as int].len() != 1);
                        lemma_error_at(clusters, ncols as int, nrows as int, r as int);
                    }
                    return Err(PuzzleError::MultiCodepointGrapheme);
                }
                c += 1;
            }
            if c != ncols {
                proof {
                    assert(row_error(clusters[r as int], ncols as int) == Some(
                        PuzzleError::RowTooShort,
                    ));
                    lemma_error_at(clusters, ncols as int, nrows as int, r as int);
                }
                return Err(PuzzleError::RowTooShort);
            }
            r += 1;
        }
        let mut grid = grid_from_elem(nrows, ncols, None);
        proof {
            let start = grid_upto(clusters, ncols as int, 0, 0);
            assert forall|i: int| 0 <= i < start.len() implies grid_cells(grid)[i] =~= start[i] by {}
            assert(grid_cells(grid) =~= start);
        }
        let mut r: usize = 0;
        while r < nrows
            invariant
                nrows == rows@.len(),
                clusters == cluster_rows_of(rows@),
                ncols == columns_of(clusters),
                first_error(clusters, ncols as int, nrows as int) is None,
                r <= nrows,
                grid_cells(grid) == grid_upto(clusters, ncols as int, r as int, 0),
            decreases nrows - r,
        {
            proof {
                lemma_no_error(clusters, ncols as int, nrows as int, r as int);
            }
            let row = &rows[r];
            let mut c: usize = 0;
            while c < ncols
                invariant
                    nrows == rows@.len(),
                    clusters == cluster_rows_of(rows@),
                    row@ == rows@[r as int]@,
                    r < nrows,
                    c <= ncols,
                    clusters[r as int].len() == ncols,
                    forall|j: int| 0 <= j < ncols ==> (#[trigger] clusters[r as int][j]).len() == 1,
                    grid_cells(grid) == grid_upto(clusters, ncols as int, r as int, c as int),
                decreases ncols - c,
            {
                proof {
                    assert(clusters[r as int][c as int].len() == 1);
                }
                let letter = row[c][0];
                let square = if letter == '.' {
                    None
                } else {
                    Some(letter)
                };
                grid_set(&mut grid, r, c, square);
                proof {
                    let after = grid_upto(clusters, ncols as int, r as int, c as int + 1);
                    assert forall|i: int| 0 <= i < after.len() implies grid_cells(grid)[i] =~= after[i] by {}
                    assert(grid_cells(grid) =~= after);
                }
                c += 1;
            }
            proof {
                let here = grid_upto(clusters, ncols as int, r as int, ncols as int);
                let next = grid_upto(clusters, ncols as int, r as int + 1, 0);
                assert forall|i: int| 0 <= i < here.len() implies here[i] =~= next[i] by {}
                assert(here =~= next);
            }
            r += 1;
        }
        proof {
            let built = grid_upto(clusters, ncols as int, nrows as int, 0);
            let wanted = grid_of(clusters);
            assert forall|i: int| 0 <= i < built.len() implies built[i] =~= wanted[i] by {
                lemma_no_error(clusters, ncols as int, nrows as int, i);
            }
            assert(built =~= wanted);
            assert(rectangular(wanted, width(wanted))) by {
                assert forall|i: int| 0 <= i < wanted.len() implies (#[trigger] wanted[i]).len()
                    == width(wanted) by {
                    lemma_no_error(clusters, ncols as int, nrows as int, i);
                    lemma_no_error(clusters, ncols as int, nrows as int, 0);
                }
            }
            if nrows > 0 {
                lemma_no_error(clusters, ncols as int, nrows as int, 0);
            }
            assert(width(wanted) == ncols);
        }
        let (acrosses, downs) = identify_slots(&grid);
        Ok(Puzzle { grid, downs, acrosses })
    }

    /// Reads a puzzle from text: rows separated by newlines, `.` for a
    /// blocked square, any other single character for an open square holding
    /// it. Fails with `RowTooShort` or `RowTooLong` when a row has not as
    /// many grapheme clusters as the first row, and with
    /// `MultiCodepointGrapheme` when a cluster is more than one character;
    /// of several faults, the first in reading order is reported.
    pub fn parse(s: &str) -> (parsed: Result<Puzzle, PuzzleError>)
        requires
            s@.len() < isize::MAX,
        ensures
            match parsed {
                Ok(puzzle) => parse_text(s@) == Ok::<PuzzleModel, PuzzleError>(puzzle@),
                Err(e) => parse_text(s@) == Err::<PuzzleModel, PuzzleError>(e),
            },
            parsed is Ok ==> parsed->Ok_0@.wf(),
    {
        let text = chars_of(s);
        let lines = lines_of(&text);
        let mut rows: Vec<Vec<Vec<char>>> = Vec::new();
        let mut r: usize = 0;
        while r < lines.len()
            invariant
                text@ == s@,
                views_of(lines@) == split_lines(text@),
                r <= lines@.len(),
                rows@.len() == r,
                forall|i: int|
                    0 <= i < r ==> views_of(#[trigger] rows@[i]@) == graphemes_of(lines@[i]@),
                forall|i: int| 0 <= i < r ==> views_of(#[trigger] rows@[i]@).flatten() == lines@[i]@,
            decreases lines@.len() - r,
        {
            let clusters = graphemes(&lines[r]);
            rows.push(clusters);
            r += 1;
        }
        proof {
            let split = split_lines(s@);
            assert(split.len() == lines@.len());
            assert forall|i: int| 0 <= i < split.len() implies split[i] == lines@[i]@ by {
                assert(views_of(lines@)[i] == lines@[i]@);
            }
            assert(cluster_rows_of(rows@) =~= clusters_of(s@));
            if parse_clusters(cluster_rows_of(rows@)) is Ok {
                lemma_text_fits(s@, cluster_rows_of(rows@));
            }
        }
        Puzzle::from_clusters(&rows)
    }

    /// Reads a puzzle from text of any length: `None` for a text of
    /// `isize::MAX` characters or more, which no array could hold a grid for,
    /// and else what [`Puzzle::parse`] gives.
    pub fn try_parse(s: &str) -> (parsed: Option<Result<Puzzle, PuzzleError>>)
        ensures
            parsed is None <==> s@.len() >= isize::MAX,
            match parsed {
                Some(Ok(puzzle)) => parse_text(s@) == Ok::<PuzzleModel, PuzzleError>(puzzle@)
                    && puzzle@.wf(),
                Some(Err(e)) => parse_text(s@) == Err::<PuzzleModel, PuzzleError>(e),
                None => true,
            },
    {
        if s.unicode_len() < isize::MAX as usize {
            Some(Puzzle::parse(s))
        } else {
            None
        }
    }

    /// Reads a puzzle from text, as [`Puzzle::parse`] does.
    pub fn from_str(s: &str) -> (parsed: Result<Puzzle, PuzzleError>)
        requires
            s@.len() < isize::MAX,
        ensures
            match parsed {
                Ok(puzzle) => parse_text(s@) == Ok::<PuzzleModel, PuzzleError>(puzzle@),
                Err(e) => parse_text(s@) == Err::<PuzzleModel, PuzzleError>(e),
            },
            parsed is Ok ==> parsed->Ok_0@.wf(),
    {
        Puzzle::parse(s)
    }

    /// The number of across-slots.
    pub fn nacross(&self) -> (n: usize)
        ensures
            n == self@.acrosses.len(),
            self@.wf(),
    {
        proof {
            use_type_invariant(self);
        }
        self.acrosses.len()
    }

    /// The number of down-slots.
    pub fn ndown(&self) -> (n: usize)
        ensures
            n == self@.downs.len(),
            self@.wf(),
    {
        proof {
            use_type_invariant(self);
        }
        self.downs.len()
    }

    /// The total number of slots.
    pub fn nslots(&self) -> (n: usize)
        ensures
            n == self@.nslots(),
            self@.wf(),
    {
        proof {
            use_type_invariant(self);
            lemma_slot_count_fits(self@);
        }
        self.acrosses.len() + self.downs.len()
    }

    /// A read-only view of slot `i`, or `IndexOutOfRange` when there is no
    /// such slot.
    pub fn access(&self, i: usize) -> (slot: Result<Slot<'_>, PuzzleError>)
        ensures
            self@.wf(),
            i < self@.nslots() ==> slot is Ok && slot->Ok_0@ == self@.text(i as int),
            i >= self@.nslots() ==> slot is Err && slot->Err_0 == PuzzleError::IndexOutOfRange,
    {
        proof {
            use_type_invariant(self);
            if i < self@.nslots() {
                lemma_slot_in_grid(self@, i as int);
            }
        }
        let nacross = self.acrosses.len();
        if i < nacross {
            let at = self.acrosses[i];
            let row = grid_row(&self.grid, at.k);
            let lane = lane_slice(row, at.start, at.stop);
            Ok(Slot { lane })
        } else if i - nacross < self.downs.len() {
            let at = self.downs[i - nacross];
            let column = grid_column(&self.grid, at.k);
            let lane = lane_slice(column, at.start, at.stop);
            Ok(Slot { lane })
        } else {
            Err(PuzzleError::IndexOutOfRange)
        }
    }

    /// A picture of the puzzle as text: the grid row by row, with `.` for a
    /// blocked square, then the letters of each across-slot and of each
    /// down-slot.
    pub fn render(&self) -> (text: String)
        ensures
            text@ == self@.rendered(),
    {
        proof {
            use_type_invariant(self);
            lemma_slot_count_fits(self@);
        }
        let ghost model = self@;
        let mut text = String::new();
        text.append("Grid{\n");
        let ghost head = text@;
        let nrows = grid_nrows(&self.grid);
        let mut r: usize = 0;
        while r < nrows
            invariant
                model == self@,
                nrows == model.cells.len(),
                r <= nrows,
                text@ == head + rendered_rows(model.cells, r as int),
            decreases nrows - r,
        {
            let lane = grid_row(&self.grid, r);
            push_squares(&mut text, "  ", &lane);
            proof {
                assert(text@ =~= head + rendered_rows(model.cells, r as int + 1));
            }
            r += 1;
        }
        text.append("\n");
        text.append("ACROSSES:\n");
        let nacross = self.acrosses.len();
        let nslots = nacross + self.downs.len();
        let ghost head = text@;
        let mut i: usize = 0;
        while i < nacross
            invariant
                model == self@,
                model.wf(),
                nacross == model.acrosses.len(),
                i <= nacross,
                text@ == head + model.rendered_slots(0, i as int),
            decreases nacross - i,
        {
            proof {
                lemma_slot_in_grid(model, i as int);
            }
            let at = self.acrosses[i];
            let lane = lane_slice(grid_row(&self.grid, at.k), at.start, at.stop);
            push_squares(&mut text, " ->", &lane);
            proof {
                assert(text@ =~= head + model.rendered_slots(0, i as int + 1));
            }
            i += 1;
        }
        text.append("\n");
        text.append("DOWNS:\n");
        let ghost head = text@;
        while i < nslots
            invariant
                model == self@,
                model.wf(),
                nacross == model.acrosses.len(),
                nslots == model.nslots(),
                nacross <= i <= nslots,
                text@ == head + model.rendered_slots(nacross as int, i as int),
            decreases nslots - i,
        {
            proof {
                lemma_slot_in_grid(model, i as int);
            }
            let at = self.downs[i - nacross];
            let lane = lane_slice(grid_column(&self.grid, at.k), at.start, at.stop);
            push_squares(&mut text, " ->", &lane);
            proof {
                assert(text@ =~= head + model.rendered_slots(nacross as int, i as int + 1));
            }
            i += 1;
        }
        text.append("}");
        proof {
            assert(text@ =~= model.rendered());
        }
        text
    }

    /// A copy of the puzzle in which the squares of slot `i` hold the
    /// characters of `value`, in order. The puzzle itself is left as it is.
    /// Fails with `IndexOutOfRange` when there is no slot `i`, and with
    /// `LengthMismatch` when `value` has not as many characters as the slot
    /// has squares.
    pub fn with_filled_slot(&self, i: usize, value: &str) -> (filled: Result<Puzzle, PuzzleError>)
        ensures
            self@.wf(),
            i >= self@.nslots() ==> filled is Err && filled->Err_0 == PuzzleError::IndexOutOfRange,
            i < self@.nslots() && value@.len() != self@.squares(i as int).len() ==> filled is Err
                && filled->Err_0 == PuzzleError::LengthMismatch,
            i < self@.nslots() && value@.len() == self@.squares(i as int).len() ==> filled is Ok
                && filled->Ok_0@ == self@.filled(i as int, value@),
    {
        proof {
            use_type_invariant(self);
            if i < self@.nslots() {
                lemma_slot_in_grid(self@, i as int);
                lemma_filled_wf(self@, i as int, value@);
            }
        }
        let nacross = self.acrosses.len();
        let across = i < nacross;
        let at = if across {
            self.acrosses[i]
        } else if i - nacross < self.downs.len() {
            self.downs[i - nacross]
        } else {
            return Err(PuzzleError::IndexOutOfRange);
        };
        let letters = chars_of(value);
        if letters.len() != at.stop - at.start {
            return Err(PuzzleError::LengthMismatch);
        }
        let mut grid = grid_clone(&self.grid);
        let ghost model = self@;
        let mut j: usize = 0;
        proof {
            let start = model.filled_upto(i as int, letters@, 0);
            assert forall|r: int| 0 <= r < start.len() implies start[r] =~= model.cells[r] by {}
            assert(start =~= model.cells);
        }
        while j < letters.len()
            invariant
                model.wf(),
                i < model.nslots(),
                across == (i < model.acrosses.len()),
                at == if across {
                    model.acrosses[i as int]
                } else {
                    model.downs[i - model.acrosses.len()]
                },
                at.start <= at.stop,
                across ==> at.k < model.cells.len() && at.stop <= width(model.cells),
                !across ==> at.k < width(model.cells) && at.stop <= model.cells.len(),
                letters@.len() == at.stop - at.start,
                j <= letters@.len(),
                grid_cells(grid) == model.filled_upto(i as int, letters@, j as int),
            decreases letters.len() - j,
        {
            let ghost before = grid_cells(grid);
            if across {
                grid_set(&mut grid, at.k, at.start + j, Some(letters[j]));
            } else {
                grid_set(&mut grid, at.start + j, at.k, Some(letters[j]));
            }
            proof {
                let after = model.filled_upto(i as int, letters@, j as int + 1);
                assert(grid_cells(grid).len() == after.len());
                assert forall|r: int| 0 <= r < after.len() implies grid_cells(grid)[r] =~= after[r] by {
                    assert(model.cells[r].len() == width(model.cells));
                }
                assert(grid_cells(grid) =~= after);
            }
            j += 1;
        }
        proof {
            assert(model.filled_upto(i as int, letters@, letters@.len() as int) =~= model.filled(
                i as int,
                letters@,
            ).cells) by {
                let a = model.filled_upto(i as int, letters@, letters@.len() as int);
                let b = model.filled(i as int, letters@).cells;
                assert forall|r: int| 0 <= r < a.len() implies a[r] =~= b[r] by {}
            }
        }
        let acrosses = copy_slots(&self.acrosses);
        let downs = copy_slots(&self.downs);
        Ok(Puzzle { grid, downs, acrosses })
    }
}

/// Appends one line of the picture of a puzzle to `text`.
fn push_squares(text: &mut String, indent: &str, lane: &Lane)
    ensures
        final(text)@ == old(text)@ + rendered_squares(indent@, lane_cells(*lane)),
{
    let ghost start = text@;
    let ghost squares = lane_cells(*lane);
    let ghost shown = Seq::new(squares.len(), |j: int| square_char(squares[j]));
    text.append(indent);
    let n = lane_len(lane);
    let mut j: usize = 0;
    while j < n
        invariant
            squares == lane_cells(*lane),
            shown == Seq::new(squares.len(), |j: int| square_char(squares[j])),
            n == squares.len(),
            j <= n,
            text@ == start + indent@ + shown.take(j as int),
        decreases n - j,
    {
        let c = match lane_get(lane, j) {
            Some(letter) => letter,
            None => '.',
        };
        string_push(text, c);
        proof {
            assert(shown.take(j as int + 1) =~= shown.take(j as int).push(c));
            assert(text@ =~= start + indent@ + shown.take(j as int + 1));
        }
        j += 1;
    }
    string_push(text, '\n');
    proof {
        assert(shown.take(n as int) =~= shown);
        assert(text@ =~= start + rendered_squares(indent@, squares));
    }
}

/// A copy of a list of slots.
fn copy_slots(slots: &Vec<SlotCoords>) -> (copy: Vec<SlotCoords>)
    ensures
        copy@ == slots@,
{
    let mut copy: Vec<SlotCoords> = Vec::new();
    let mut i: usize = 0;
    while i < slots.len()
        invariant
            i <= slots.len(),
            copy@ == slots@.take(i as int),
        decreases slots.len() - i,
    {
        copy.push(slots[i]);
        proof {
            assert(slots@.take(i as int + 1) =~= slots@.take(i as int).push(slots@[i as int]));
        }
        i += 1;
    }
    proof {
        assert(slots@.take(slots.len() as int) =~= slots@);
    }
    copy
}

/// The number of slots of a well-formed puzzle fits in a `usize`.
proof fn lemma_slot_count_fits(m: PuzzleModel)
    requires
        m.wf(),
    ensures
        m.nslots() <= usize::MAX,
{
    lemma_across_slots_count(m.cells, width(m.cells), m.cells.len() as int);
    lemma_down_slots_count(m.cells, width(m.cells));
    assert(width(m.cells) * m.cells.len() == m.cells.len() * width(m.cells)) by (nonlinear_arith);
}

} // verus!
