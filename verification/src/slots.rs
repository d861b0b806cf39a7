//! Slot extraction: the maximal runs of open squares along the rows and
//! columns of a grid, and the proof that the scan finds exactly those.

use crate::grid::{grid_cells, grid_column, grid_ncols, grid_nrows, grid_row, lane_cells, lane_get, lane_len, Grid, Lane, Square};
use vstd::prelude::*;

verus! {

/// Where a slot lies: on row or column `k`, covering the positions
/// `start..stop` along it.
#[derive(Clone, Copy, Debug, PartialEq, Eq, Structural)]
pub struct SlotCoords {
    pub start: usize,
    pub stop: usize,
    pub k: usize,
}

/// Every row of `cells` has `ncols` squares.
pub open spec fn rectangular(cells: Seq<Seq<Square>>, ncols: int) -> bool {
    forall|r: int| 0 <= r < cells.len() ==> (#[trigger] cells[r]).len() == ncols
}

/// The number of squares in each row of a grid (zero for a grid without
/// rows).
pub open spec fn width(cells: Seq<Seq<Square>>) -> int {
    if cells.len() == 0 {
        0
    } else {
        cells[0].len() as int
    }
}

/// Column `c` of `cells`, top to bottom.
pub open spec fn column_of(cells: Seq<Seq<Square>>, c: int) -> Seq<Square> {
    Seq::new(cells.len(), |r: int| cells[r][c])
}

/// Position `i` of `lane` is open.
pub open spec fn open_at(lane: Seq<Square>, i: int) -> bool {
    0 <= i < lane.len() && lane[i] is Some
}

/// A run of open squares begins at position `i`: the square is open and the
/// one before it, if any, is not.
pub open spec fn run_starts_at(lane: Seq<Square>, i: int) -> bool {
    open_at(lane, i) && !open_at(lane, i - 1)
}

/// The first position at or after `i` that is not open (the length of the
/// lane if there is none).
pub open spec fn run_end(lane: Seq<Square>, i: int) -> int
    decreases lane.len() - i,
{
    if open_at(lane, i) {
        run_end(lane, i + 1)
    } else {
        i
    }
}

/// `start..stop` is a maximal run of open squares of `lane`: it is not empty,
/// all its squares are open, and it is bounded on each side by a blocked
/// square or by the end of the lane.
pub open spec fn maximal_run(lane: Seq<Square>, start: int, stop: int) -> bool {
    &&& 0 <= start < stop <= lane.len()
    &&& forall|i: int| start <= i < stop ==> open_at(lane, i)
    &&& !open_at(lane, start - 1)
    &&& !open_at(lane, stop)
}

/// The slots of `lane` that begin before position `n`, in order. `k` is the
/// row or column the lane is.
pub open spec fn lane_slots_upto(lane: Seq<Square>, k: usize, n: int) -> Seq<SlotCoords>
    decreases n,
{
    if n <= 0 {
        Seq::empty()
    } else if run_starts_at(lane, n - 1) {
        lane_slots_upto(lane, k, n - 1).push(
            SlotCoords { start: (n - 1) as usize, stop: run_end(lane, n - 1) as usize, k },
        )
    } else {
        lane_slots_upto(lane, k, n - 1)
    }
}

/// All slots of `lane`, in order.
pub open spec fn lane_slots(lane: Seq<Square>, k: usize) -> Seq<SlotCoords> {
    lane_slots_upto(lane, k, lane.len() as int)
}

/// The across-slots of the first `n` rows: row 0 first, left to right within
/// a row.
pub open spec fn across_slots_upto(cells: Seq<Seq<Square>>, n: int) -> Seq<SlotCoords>
    decreases n,
{
    if n <= 0 {
        Seq::empty()
    } else {
        across_slots_upto(cells, n - 1) + lane_slots(cells[n - 1], (n - 1) as usize)
    }
}

/// The down-slots of the first `n` columns: column 0 first, top to bottom
/// within a column.
pub open spec fn down_slots_upto(cells: Seq<Seq<Square>>, n: int) -> Seq<SlotCoords>
    decreases n,
{
    if n <= 0 {
        Seq::empty()
    } else {
        down_slots_upto(cells, n - 1) + lane_slots(column_of(cells, n - 1), (n - 1) as usize)
    }
}

/// The across-slots of a grid.
pub open spec fn across_slots(cells: Seq<Seq<Square>>) -> Seq<SlotCoords> {
    across_slots_upto(cells, cells.len() as int)
}

/// The down-slots of a grid whose rows have `ncols` squares.
pub open spec fn down_slots(cells: Seq<Seq<Square>>, ncols: int) -> Seq<SlotCoords> {
    down_slots_upto(cells, ncols)
}

/// The end of a run lies within the lane, at or after the position asked
/// about; every square from there to the end is open and the end itself is
/// not.
pub proof fn lemma_run_end(lane: Seq<Square>, i: int)
    requires
        0 <= i <= lane.len(),
    ensures
        i <= run_end(lane, i) <= lane.len(),
        forall|j: int| i <= j < run_end(lane, i) ==> open_at(lane, j),
        !open_at(lane, run_end(lane, i)),
        open_at(lane, i) ==> i < run_end(lane, i),
    decreases lane.len() - i,
{
    if open_at(lane, i) {
        lemma_run_end(lane, i + 1);
    }
}

/// Where no run begins between `a` and `b`, the slots that begin before `b`
/// are those that begin before `a`.
proof fn lemma_no_starts_between(lane: Seq<Square>, k: usize, a: int, b: int)
    requires
        0 <= a <= b,
        forall|i: int| a <= i < b ==> !run_starts_at(lane, i),
    ensures
        lane_slots_upto(lane, k, b) == lane_slots_upto(lane, k, a),
    decreases b - a,
{
    if a < b {
        lemma_no_starts_between(lane, k, a, b - 1);
    }
}

/// Every slot found in a lane is a maximal run of open squares of that lane,
/// and carries the lane's number. In particular no slot is empty.
pub proof fn lemma_lane_slots_are_maximal_runs(lane: Seq<Square>, k: usize, n: int, i: int)
    requires
        lane.len() <= usize::MAX,
        0 <= n <= lane.len(),
        0 <= i < lane_slots_upto(lane, k, n).len(),
    ensures
        lane_slots_upto(lane, k, n)[i].k == k,
        lane_slots_upto(lane, k, n)[i].start < lane_slots_upto(lane, k, n)[i].stop,
        lane_slots_upto(lane, k, n)[i].start < n,
        maximal_run(
            lane,
            lane_slots_upto(lane, k, n)[i].start as int,
            lane_slots_upto(lane, k, n)[i].stop as int,
        ),
    decreases n,
{
    if n > 0 {
        if run_starts_at(lane, n - 1) && i == lane_slots_upto(lane, k, n - 1).len() {
            lemma_run_end(lane, n - 1);
        } else {
            lemma_lane_slots_are_maximal_runs(lane, k, n - 1, i);
        }
    }
}

/// A lane has at most as many slots beginning before `n` as it has positions
/// before `n`.
pub proof fn lemma_lane_slots_count(lane: Seq<Square>, k: usize, n: int)
    requires
        0 <= n,
    ensures
        lane_slots_upto(lane, k, n).len() <= n,
    decreases n,
{
    if n > 0 {
        lemma_lane_slots_count(lane, k, n - 1);
    }
}

/// Every across-slot found in the first `n` rows is a maximal run of open
/// squares of the row it names.
proof fn lemma_across_upto_are_maximal_runs(cells: Seq<Seq<Square>>, n: int, i: int)
    requires
        cells.len() <= usize::MAX,
        forall|r: int| 0 <= r < cells.len() ==> (#[trigger] cells[r]).len() <= usize::MAX,
        0 <= n <= cells.len(),
        0 <= i < across_slots_upto(cells, n).len(),
    ensures
        across_slots_upto(cells, n)[i].k < n,
        across_slots_upto(cells, n)[i].start < across_slots_upto(cells, n)[i].stop,
        maximal_run(
            cells[across_slots_upto(cells, n)[i].k as int],
            across_slots_upto(cells, n)[i].start as int,
            across_slots_upto(cells, n)[i].stop as int,
        ),
    decreases n,
{
    if n > 0 {
        let earlier = across_slots_upto(cells, n - 1);
        if i < earlier.len() {
            lemma_across_upto_are_maximal_runs(cells, n - 1, i);
        } else {
            let lane = cells[n - 1];
            lemma_lane_slots_are_maximal_runs(lane, (n - 1) as usize, lane.len() as int, i - earlier.len());
        }
    }
}

/// Every down-slot found in the first `n` columns is a maximal run of open
/// squares of the column it names.
proof fn lemma_down_upto_are_maximal_runs(cells: Seq<Seq<Square>>, n: int, i: int)
    requires
        cells.len() <= usize::MAX,
        0 <= n <= usize::MAX,
        0 <= i < down_slots_upto(cells, n).len(),
    ensures
        down_slots_upto(cells, n)[i].k < n,
        down_slots_upto(cells, n)[i].start < down_slots_upto(cells, n)[i].stop,
        maximal_run(
            column_of(cells, down_slots_upto(cells, n)[i].k as int),
            down_slots_upto(cells, n)[i].start as int,
            down_slots_upto(cells, n)[i].stop as int,
        ),
    decreases n,
{
    if n > 0 {
        let earlier = down_slots_upto(cells, n - 1);
        if i < earlier.len() {
            lemma_down_upto_are_maximal_runs(cells, n - 1, i);
        } else {
            let lane = column_of(cells, n - 1);
            lemma_lane_slots_are_maximal_runs(lane, (n - 1) as usize, lane.len() as int, i - earlier.len());
        }
    }
}

/// Every across-slot of a grid is a maximal run of open squares of the row
/// it names: it is not empty, all its squares are open, and the squares just
/// before and just after it are blocked or outside the grid.
pub proof fn lemma_across_slots_are_maximal_runs(cells: Seq<Seq<Square>>, ncols: int, i: int)
    requires
        rectangular(cells, ncols),
        cells.len() <= usize::MAX,
        ncols <= usize::MAX,
        0 <= i < across_slots(cells).len(),
    ensures
        across_slots(cells)[i].k < cells.len(),
        across_slots(cells)[i].start < across_slots(cells)[i].stop <= ncols,
        maximal_run(
            cells[across_slots(cells)[i].k as int],
            across_slots(cells)[i].start as int,
            across_slots(cells)[i].stop as int,
        ),
{
    lemma_across_upto_are_maximal_runs(cells, cells.len() as int, i);
}

/// Every down-slot of a grid is a maximal run of open squares of the column
/// it names: it is not empty, all its squares are open, and the squares just
/// above and just below it are blocked or outside the grid.
pub proof fn lemma_down_slots_are_maximal_runs(cells: Seq<Seq<Square>>, ncols: int, i: int)
    requires
        rectangular(cells, ncols),
        cells.len() <= usize::MAX,
        0 <= ncols <= usize::MAX,
        0 <= i < down_slots(cells, ncols).len(),
    ensures
        down_slots(cells, ncols)[i].k < ncols,
        down_slots(cells, ncols)[i].start < down_slots(cells, ncols)[i].stop <= cells.len(),
        maximal_run(
            column_of(cells, down_slots(cells, ncols)[i].k as int),
            down_slots(cells, ncols)[i].start as int,
            down_slots(cells, ncols)[i].stop as int,
        ),
{
    lemma_down_upto_are_maximal_runs(cells, ncols, i);
}

/// The slots of a lane come in order and do not touch: each ends before the
/// next begins.
pub proof fn lemma_lane_slots_ordered(lane: Seq<Square>, k: usize, n: int, i: int, j: int)
    requires
        lane.len() <= usize::MAX,
        0 <= n <= lane.len(),
        0 <= i < j < lane_slots_upto(lane, k, n).len(),
    ensures
        lane_slots_upto(lane, k, n)[i].stop < lane_slots_upto(lane, k, n)[j].start,
    decreases n,
{
    if n > 0 {
        let earlier = lane_slots_upto(lane, k, n - 1);
        if run_starts_at(lane, n - 1) && j == earlier.len() {
            lemma_lane_slots_are_maximal_runs(lane, k, n - 1, i);
            if earlier[i].stop > n - 2 {
                assert(open_at(lane, n - 2));
            }
        } else {
            lemma_lane_slots_ordered(lane, k, n - 1, i, j);
        }
    }
}

/// The position at which the run of open squares through `p` begins.
pub open spec fn run_start(lane: Seq<Square>, p: int) -> int
    decreases p,
{
    if open_at(lane, p) && open_at(lane, p - 1) {
        run_start(lane, p - 1)
    } else {
        p
    }
}

/// The run through an open square begins at or before it, and ends after it.
proof fn lemma_run_start(lane: Seq<Square>, p: int)
    requires
        open_at(lane, p),
    ensures
        0 <= run_start(lane, p) <= p,
        run_starts_at(lane, run_start(lane, p)),
        run_end(lane, run_start(lane, p)) == run_end(lane, p),
        p < run_end(lane, p),
    decreases p,
{
    lemma_run_end(lane, p);
    if open_at(lane, p - 1) {
        lemma_run_start(lane, p - 1);
    }
}

/// The slots that begin before `m` are the first of the slots that begin
/// before `n`, for `m <= n`.
proof fn lemma_lane_slots_prefix(lane: Seq<Square>, k: usize, m: int, n: int)
    requires
        0 <= m <= n,
    ensures
        lane_slots_upto(lane, k, m).len() <= lane_slots_upto(lane, k, n).len(),
        lane_slots_upto(lane, k, n).take(lane_slots_upto(lane, k, m).len() as int)
            == lane_slots_upto(lane, k, m),
    decreases n - m,
{
    let short = lane_slots_upto(lane, k, m);
    if m < n {
        lemma_lane_slots_prefix(lane, k, m, n - 1);
        assert(lane_slots_upto(lane, k, n).take(short.len() as int) =~= lane_slots_upto(
            lane,
            k,
            n - 1,
        ).take(short.len() as int));
    } else {
        assert(short.take(short.len() as int) =~= short);
    }
}

/// Every open square of a lane lies in one of the lane's slots; the index of
/// that slot is returned.
pub proof fn lemma_lane_slots_cover(lane: Seq<Square>, k: usize, p: int) -> (i: int)
    requires
        lane.len() <= usize::MAX,
        open_at(lane, p),
    ensures
        0 <= i < lane_slots(lane, k).len(),
        lane_slots(lane, k)[i].start <= p < lane_slots(lane, k)[i].stop,
{
    let s = run_start(lane, p);
    lemma_run_start(lane, p);
    lemma_run_end(lane, s);
    let i = lane_slots_upto(lane, k, s).len() as int;
    let upto = lane_slots_upto(lane, k, s + 1);
    assert(upto[i] == SlotCoords { start: s as usize, stop: run_end(lane, s) as usize, k });
    lemma_lane_slots_prefix(lane, k, s + 1, lane.len() as int);
    assert(lane_slots(lane, k).take(upto.len() as int)[i] == upto[i]);
    i
}

/// The across-slots of the first `m` rows are the first of the across-slots
/// of the first `n` rows, for `m <= n`.
proof fn lemma_across_slots_prefix(cells: Seq<Seq<Square>>, m: int, n: int)
    requires
        0 <= m <= n,
    ensures
        across_slots_upto(cells, m).len() <= across_slots_upto(cells, n).len(),
        across_slots_upto(cells, n).take(across_slots_upto(cells, m).len() as int)
            == across_slots_upto(cells, m),
    decreases n - m,
{
    let short = across_slots_upto(cells, m);
    if m < n {
        lemma_across_slots_prefix(cells, m, n - 1);
        assert(across_slots_upto(cells, n).take(short.len() as int) =~= across_slots_upto(
            cells,
            n - 1,
        ).take(short.len() as int));
    } else {
        assert(short.take(short.len() as int) =~= short);
    }
}

/// The down-slots of the first `m` columns are the first of the down-slots
/// of the first `n` columns, for `m <= n`.
proof fn lemma_down_slots_prefix(cells: Seq<Seq<Square>>, m: int, n: int)
    requires
        0 <= m <= n,
    ensures
        down_slots_upto(cells, m).len() <= down_slots_upto(cells, n).len(),
        down_slots_upto(cells, n).take(down_slots_upto(cells, m).len() as int) == down_slots_upto(
            cells,
            m,
        ),
    decreases n - m,
{
    let short = down_slots_upto(cells, m);
    if m < n {
        lemma_down_slots_prefix(cells, m, n - 1);
        assert(down_slots_upto(cells, n).take(short.len() as int) =~= down_slots_upto(
            cells,
            n - 1,
        ).take(short.len() as int));
    } else {
        assert(short.take(short.len() as int) =~= short);
    }
}

/// Every open square of a grid lies in an across-slot of its row; the index
/// of that slot is returned.
pub proof fn lemma_across_slots_cover(cells: Seq<Seq<Square>>, r: int, c: int) -> (i: int)
    requires
        cells.len() <= usize::MAX,
        0 <= r < cells.len(),
        cells[r].len() <= usize::MAX,
        open_at(cells[r], c),
    ensures
        0 <= i < across_slots(cells).len(),
        across_slots(cells)[i].k == r,
        across_slots(cells)[i].start <= c < across_slots(cells)[i].stop,
{
    let before = across_slots_upto(cells, r);
    let within = lemma_lane_slots_cover(cells[r], r as usize, c);
    lemma_lane_slots_are_maximal_runs(cells[r], r as usize, cells[r].len() as int, within);
    let i = before.len() + within;
    let upto = across_slots_upto(cells, r + 1);
    assert(upto[i] == lane_slots(cells[r], r as usize)[within]);
    lemma_across_slots_prefix(cells, r + 1, cells.len() as int);
    assert(across_slots(cells).take(upto.len() as int)[i] == upto[i]);
    i
}

/// Every open square of a grid lies in a down-slot of its column; the index
/// of that slot is returned.
pub proof fn lemma_down_slots_cover(cells: Seq<Seq<Square>>, ncols: int, r: int, c: int) -> (i: int)
    requires
        rectangular(cells, ncols),
        cells.len() <= usize::MAX,
        ncols <= usize::MAX,
        0 <= r < cells.len(),
        open_at(cells[r], c),
    ensures
        0 <= i < down_slots(cells, ncols).len(),
        down_slots(cells, ncols)[i].k == c,
        down_slots(cells, ncols)[i].start <= r < down_slots(cells, ncols)[i].stop,
{
    let lane = column_of(cells, c);
    let before = down_slots_upto(cells, c);
    let within = lemma_lane_slots_cover(lane, c as usize, r);
    lemma_lane_slots_are_maximal_runs(lane, c as usize, lane.len() as int, within);
    let i = before.len() + within;
    let upto = down_slots_upto(cells, c + 1);
    assert(upto[i] == lane_slots(lane, c as usize)[within]);
    lemma_down_slots_prefix(cells, c + 1, ncols);
    assert(down_slots(cells, ncols).take(upto.len() as int)[i] == upto[i]);
    i
}

/// Where a slot of the first `n` lanes lies among them: the lane it belongs
/// to and its place among that lane's slots.
proof fn lemma_across_slot_place(cells: Seq<Seq<Square>>, n: int, i: int) -> (place: (int, int))
    requires
        0 <= n <= cells.len(),
        0 <= i < across_slots_upto(cells, n).len(),
    ensures
        0 <= place.0 < n,
        0 <= place.1 < lane_slots(cells[place.0], place.0 as usize).len(),
        i == across_slots_upto(cells, place.0).len() + place.1,
        across_slots_upto(cells, n)[i] == lane_slots(cells[place.0], place.0 as usize)[place.1],
    decreases n,
{
    let earlier = across_slots_upto(cells, n - 1);
    if i < earlier.len() {
        lemma_across_slot_place(cells, n - 1, i)
    } else {
        (n - 1, i - earlier.len())
    }
}

/// The across-slots are listed row by row, and within a row from left to
/// right: of two slots, the earlier lies in a row further up, or in the same
/// row and ends before the later begins.
pub proof fn lemma_across_slots_ordered(cells: Seq<Seq<Square>>, i: int, j: int)
    requires
        cells.len() <= usize::MAX,
        forall|r: int| 0 <= r < cells.len() ==> (#[trigger] cells[r]).len() <= usize::MAX,
        0 <= i < j < across_slots(cells).len(),
    ensures
        across_slots(cells)[i].k < across_slots(cells)[j].k || (across_slots(cells)[i].k
            == across_slots(cells)[j].k && across_slots(cells)[i].stop < across_slots(
            cells,
        )[j].start),
{
    let n = cells.len() as int;
    let a = lemma_across_slot_place(cells, n, i);
    let b = lemma_across_slot_place(cells, n, j);
    lemma_lane_slots_are_maximal_runs(cells[a.0], a.0 as usize, cells[a.0].len() as int, a.1);
    lemma_lane_slots_are_maximal_runs(cells[b.0], b.0 as usize, cells[b.0].len() as int, b.1);
    if a.0 == b.0 {
        lemma_lane_slots_ordered(cells[a.0], a.0 as usize, cells[a.0].len() as int, a.1, b.1);
    } else if a.0 > b.0 {
        lemma_across_slots_prefix(cells, b.0 + 1, a.0);
    }
}

/// Where a slot of the first `n` columns lies among them: the column it
/// belongs to and its place among that column's slots.
proof fn lemma_down_slot_place(cells: Seq<Seq<Square>>, n: int, i: int) -> (place: (int, int))
    requires
        0 <= n,
        0 <= i < down_slots_upto(cells, n).len(),
    ensures
        0 <= place.0 < n,
        0 <= place.1 < lane_slots(column_of(cells, place.0), place.0 as usize).len(),
        i == down_slots_upto(cells, place.0).len() + place.1,
        down_slots_upto(cells, n)[i] == lane_slots(column_of(cells, place.0), place.0 as usize)[place.1],
    decreases n,
{
    let earlier = down_slots_upto(cells, n - 1);
    if i < earlier.len() {
        lemma_down_slot_place(cells, n - 1, i)
    } else {
        (n - 1, i - earlier.len())
    }
}

/// The down-slots are listed column by column, and within a column from top
/// to bottom: of two slots, the earlier lies in a column further left, or in
/// the same column and ends before the later begins.
pub proof fn lemma_down_slots_ordered(cells: Seq<Seq<Square>>, ncols: int, i: int, j: int)
    requires
        cells.len() <= usize::MAX,
        0 <= ncols <= usize::MAX,
        0 <= i < j < down_slots(cells, ncols).len(),
    ensures
        down_slots(cells, ncols)[i].k < down_slots(cells, ncols)[j].k || (down_slots(cells, ncols)[i].k
            == down_slots(cells, ncols)[j].k && down_slots(cells, ncols)[i].stop < down_slots(
            cells,
            ncols,
        )[j].start),
{
    let a = lemma_down_slot_place(cells, ncols, i);
    let b = lemma_down_slot_place(cells, ncols, j);
    let la = column_of(cells, a.0);
    let lb = column_of(cells, b.0);
    lemma_lane_slots_are_maximal_runs(la, a.0 as usize, la.len() as int, a.1);
    lemma_lane_slots_are_maximal_runs(lb, b.0 as usize, lb.len() as int, b.1);
    if a.0 == b.0 {
        lemma_lane_slots_ordered(la, a.0 as usize, la.len() as int, a.1, b.1);
    } else if a.0 > b.0 {
        lemma_down_slots_prefix(cells, b.0 + 1, a.0);
    }
}

/// Two lanes that are open at the same positions have the same run ends.
proof fn lemma_run_end_same(a: Seq<Square>, b: Seq<Square>, i: int)
    requires
        a.len() == b.len(),
        forall|j: int| open_at(a, j) == open_at(b, j),
        0 <= i,
    ensures
        run_end(a, i) == run_end(b, i),
    decreases a.len() - i,
{
    if open_at(a, i) {
        lemma_run_end_same(a, b, i + 1);
    }
}

/// The slots of a lane depend only on which of its squares are open, not on
/// the letters they hold.
pub proof fn lemma_lane_slots_same(a: Seq<Square>, b: Seq<Square>, k: usize, n: int)
    requires
        a.len() == b.len(),
        forall|j: int| open_at(a, j) == open_at(b, j),
    ensures
        lane_slots_upto(a, k, n) == lane_slots_upto(b, k, n),
    decreases n,
{
    if n > 0 {
        lemma_lane_slots_same(a, b, k, n - 1);
        lemma_run_end_same(a, b, n - 1);
    }
}

/// Two grids of the same shape that are open at the same squares have the
/// same across-slots.
pub proof fn lemma_across_slots_same(a: Seq<Seq<Square>>, b: Seq<Seq<Square>>, n: int)
    requires
        a.len() == b.len(),
        n <= a.len(),
        forall|r: int| 0 <= r < a.len() ==> (#[trigger] a[r]).len() == b[r].len(),
        forall|r: int, c: int| 0 <= r < a.len() ==> open_at(a[r], c) == open_at(b[r], c),
    ensures
        across_slots_upto(a, n) == across_slots_upto(b, n),
    decreases n,
{
    if n > 0 {
        lemma_across_slots_same(a, b, n - 1);
        lemma_lane_slots_same(a[n - 1], b[n - 1], (n - 1) as usize, a[n - 1].len() as int);
    }
}

/// Two grids of the same shape that are open at the same squares have the
/// same down-slots.
pub proof fn lemma_down_slots_same(a: Seq<Seq<Square>>, b: Seq<Seq<Square>>, n: int)
    requires
        a.len() == b.len(),
        forall|r: int| 0 <= r < a.len() ==> (#[trigger] a[r]).len() == b[r].len(),
        forall|r: int, c: int| 0 <= r < a.len() ==> open_at(a[r], c) == open_at(b[r], c),
        0 < a.len() ==> n <= a[0].len(),
        rectangular(a, width(a)),
    ensures
        down_slots_upto(a, n) == down_slots_upto(b, n),
    decreases n,
{
    if n > 0 {
        lemma_down_slots_same(a, b, n - 1);
        let la = column_of(a, n - 1);
        let lb = column_of(b, n - 1);
        assert forall|j: int| open_at(la, j) == open_at(lb, j) by {
            if 0 <= j < a.len() {
                assert(open_at(a[j], n - 1) == open_at(b[j], n - 1));
                assert(a[j].len() == width(a));
                assert(b[j].len() == a[j].len());
            }
        }
        lemma_lane_slots_same(la, lb, (n - 1) as usize, la.len() as int);
    }
}

/// A grid with `nrows` rows of `ncols` squares has at most `nrows * ncols`
/// across-slots among its first `n` rows.
pub proof fn lemma_across_slots_count(cells: Seq<Seq<Square>>, ncols: int, n: int)
    requires
        rectangular(cells, ncols),
        0 <= n <= cells.len(),
    ensures
        across_slots_upto(cells, n).len() <= n * ncols,
    decreases n,
{
    if n > 0 {
        lemma_across_slots_count(cells, ncols, n - 1);
        lemma_lane_slots_count(cells[n - 1], (n - 1) as usize, cells[n - 1].len() as int);
        assert(n * ncols == (n - 1) * ncols + ncols) by (nonlinear_arith);
    } else {
        assert(n * ncols == 0) by (nonlinear_arith)
            requires
                n == 0,
        ;
    }
}

/// A grid with `nrows` rows has at most `n * nrows` down-slots among its
/// first `n` columns.
pub proof fn lemma_down_slots_count(cells: Seq<Seq<Square>>, n: int)
    requires
        0 <= n,
    ensures
        down_slots_upto(cells, n).len() <= n * cells.len(),
    decreases n,
{
    if n > 0 {
        lemma_down_slots_count(cells, n - 1);
        lemma_lane_slots_count(column_of(cells, n - 1), (n - 1) as usize, cells.len() as int);
        assert(n * cells.len() == (n - 1) * cells.len() + cells.len()) by (nonlinear_arith);
    } else {
        assert(n * cells.len() == 0) by (nonlinear_arith)
            requires
                n == 0,
        ;
    }
}

/// Scans one lane for its slots and appends them to `slots`.
fn scan_lane(lane: &Lane, k: usize, slots: &mut Vec<SlotCoords>)
    ensures
        final(slots)@ == old(slots)@ + lane_slots(lane_cells(*lane), k),
{
    let n = lane_len(lane);
    let ghost cells = lane_cells(*lane);
    let ghost before = slots@;
    let mut stop: usize = 0;
    while stop < n
        invariant
            n == cells.len(),
            cells == lane_cells(*lane),
            stop <= n,
            !open_at(cells, stop as int - 1) || stop == n,
            slots@ == before + lane_slots_upto(cells, k, stop as int),
        decreases n - stop,
    {
        let mut start: usize = stop;
        while start < n && lane_get(lane, start).is_none()
            invariant
                n == cells.len(),
                cells == lane_cells(*lane),
                stop <= start <= n,
                forall|i: int| stop <= i < start ==> !open_at(cells, i),
            decreases n - start,
        {
            start += 1;
        }
        proof {
            lemma_no_starts_between(cells, k, stop as int, start as int);
        }
        stop = start;
        while stop < n && lane_get(lane, stop).is_some()
            invariant
                n == cells.len(),
                cells == lane_cells(*lane),
                start <= stop <= n,
                forall|i: int| start <= i < stop ==> open_at(cells, i),
                run_end(cells, start as int) == run_end(cells, stop as int),
            decreases n - stop,
        {
            stop += 1;
        }
        if start != stop {
            slots.push(SlotCoords { start, stop, k });
            proof {
                assert(run_starts_at(cells, start as int));
                assert(run_end(cells, start as int) == stop);
                assert forall|i: int| start + 1 <= i < stop implies !run_starts_at(cells, i) by {
                    assert(open_at(cells, i - 1));
                }
                lemma_no_starts_between(cells, k, start as int + 1, stop as int);
            }
        }
        if stop < n {
            proof {
                assert(!run_starts_at(cells, stop as int));
                lemma_no_starts_between(cells, k, stop as int, stop as int + 1);
            }
            stop += 1;
        }
    }
}

/// Finds the slots of a grid: the across-slots row by row, and the
/// down-slots column by column.
pub(crate) fn identify_slots(grid: &Grid) -> (slots: (Vec<SlotCoords>, Vec<SlotCoords>))
    ensures
        slots.0@ == across_slots(grid_cells(*grid)),
        grid_cells(*grid).len() > 0 ==> slots.1@ == down_slots(
            grid_cells(*grid),
            grid_cells(*grid)[0].len() as int,
        ),
        grid_cells(*grid).len() == 0 ==> slots.1@ == Seq::<SlotCoords>::empty(),
{
    let nrows = grid_nrows(grid);
    let ncols = grid_ncols(grid);
    let ghost cells = grid_cells(*grid);
    let mut downs: Vec<SlotCoords> = Vec::new();
    let mut acrosses: Vec<SlotCoords> = Vec::new();
    if nrows > 0 {
        let mut k: usize = 0;
        while k < ncols
            invariant
                cells == grid_cells(*grid),
                cells.len() > 0,
                ncols == cells[0].len(),
                k <= ncols,
                downs@ == down_slots_upto(cells, k as int),
            decreases ncols - k,
        {
            let lane = grid_column(grid, k);
            scan_lane(&lane, k, &mut downs);
            k += 1;
        }
    }
    let mut k: usize = 0;
    while k < nrows
        invariant
            cells == grid_cells(*grid),
            nrows == cells.len(),
            k <= nrows,
            acrosses@ == across_slots_upto(cells, k as int),
        decreases nrows - k,
    {
        let lane = grid_row(grid, k);
        scan_lane(&lane, k, &mut acrosses);
        k += 1;
    }
    (acrosses, downs)
}

} // verus!
