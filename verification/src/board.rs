use vstd::prelude::*;

use crate::direction::Direction;
use crate::lines::{
    board_after_merge, board_after_slide, board_full, board_potential, compacted, count_occupied,
    line_cell_index, line_seq, merge_once, merge_pass, merge_prefix, no_gap, occupied_values,
    pressed_line, spec_press, stable_pair, total_value, lemma_all_empty_board,
    lemma_board_potential_nonneg, lemma_count_occupied_fill, lemma_merge_effect,
    lemma_no_gap_is_compacted, lemma_pair_le_total, lemma_press_from_lines, lemma_slide_effect,
    lemma_total_value_nonneg, lemma_total_value_update,
};
use crate::rng::random_below;

verus! {

/// Number of columns of the grid.
pub const BOARD_WIDTH: usize = 4;

/// Number of rows of the grid.
pub const BOARD_HEIGHT: usize = 4;

/// Number of cells of the grid.
pub const NUM_CELLS: usize = BOARD_WIDTH * BOARD_HEIGHT;

/// The bound on the total of all occupied values under which pressing is
/// proved free of overflow: no merge can double a value past `usize`. Any
/// game on the fixed 4x4 grid stays many orders of magnitude below it.
pub const TOTAL_VALUE_CAP: usize = 0x4000_0000;

/// A position `(column, row)` within the fixed grid.
#[derive(Debug, PartialEq, Eq, Structural, Copy, Clone)]
pub struct BoardCoordinate(pub usize, pub usize);

/// What one cell holds: nothing, or a positive tile value.
#[derive(Debug, PartialEq, Eq, Structural, Copy, Clone)]
pub enum CellContents {
    Empty,
    Occupied(usize),
}

impl CellContents {
    /// The occupied value. Callers must check emptiness first: reading the
    /// value of an empty cell is a contract violation.
    pub fn unwrap(&self) -> (value: usize)
        requires
            self is Occupied,
        ensures
            *self == CellContents::Occupied(value),
    {
        match self {
            CellContents::Empty => vstd::pervasive::unreached(),
            CellContents::Occupied(value) => *value,
        }
    }
}

/// One grid position together with its contents. The coordinate is fixed at
/// creation; only the contents change.
#[derive(Debug, PartialEq, Eq, Structural, Clone)]
pub struct Cell {
    pub coords: BoardCoordinate,
    pub contents: CellContents,
}

impl Cell {
    /// A fresh empty cell tagged with its position.
    fn with_coords(coords: BoardCoordinate) -> (cell: Cell)
        ensures
            cell.coords == coords,
            cell.contents is Empty,
    {
        Cell { coords, contents: CellContents::Empty }
    }

    /// Whether the cell holds nothing.
    pub fn is_empty(&self) -> (empty: bool)
        ensures
            empty == (self.contents is Empty),
    {
        matches!(self.contents, CellContents::Empty)
    }
}

/// The coordinate that belongs at linear index `index`: the grid is laid
/// out column-major, `index == row + column * BOARD_HEIGHT`.
pub open spec fn coord_of_index(index: int) -> BoardCoordinate {
    BoardCoordinate((index / BOARD_HEIGHT as int) as usize, (index % BOARD_HEIGHT as int) as usize)
}

/// The linear index of the cell at `(column, row)`.
pub open spec fn index_of_coord(column: int, row: int) -> int {
    row + column * BOARD_HEIGHT as int
}

/// The board index of position `pos` of scan line `line` for a press in
/// `direction`.
fn line_index(direction: Direction, line: usize, pos: usize) -> (index: usize)
    requires
        line < 4,
        pos < 4,
    ensures
        index as int == line_cell_index(direction, line as int, pos as int),
        index < NUM_CELLS,
{
    match direction {
        Direction::Left => line + pos * 4,
        Direction::Right => line + (3 - pos) * 4,
        Direction::Up => pos + line * 4,
        Direction::Down => (3 - pos) + line * 4,
    }
}

/// The error a spawn reports when no empty cell is left to spawn into.
#[derive(Debug, PartialEq, Eq, Structural, Copy, Clone)]
pub struct NoEmptyCellError;

/// The relation between a board and the same board after one spawned
/// tile: one previously empty cell now holds 2 or 4, and every other cell
/// is untouched.
pub open spec fn spawned(pre: Seq<CellContents>, post: Seq<CellContents>) -> bool {
    exists|i: int|
        0 <= i < pre.len() && pre[i] is Empty && ((#[trigger] post[i]) == CellContents::Occupied(2)
            || post[i] == CellContents::Occupied(4)) && post == pre.update(i, post[i])
}

/// The fixed 4x4 grid: exactly `NUM_CELLS` cells, addressable by linear
/// index, each permanently tagged with the coordinate that index denotes.
#[derive(Debug, Clone)]
pub struct Board {
    pub cells: Vec<Cell>,
}

impl Board {
    /// The contents of every cell, by linear index. All contracts of the
    /// board speak over this sequence.
    pub open spec fn contents(&self) -> Seq<CellContents> {
        Seq::new(self.cells@.len(), |i: int| self.cells@[i].contents)
    }

    /// Well-formedness: the grid holds exactly `NUM_CELLS` cells and every
    /// cell carries the coordinate of its own index.
    pub open spec fn wf(&self) -> bool {
        &&& self.cells@.len() == NUM_CELLS
        &&& forall|i: int|
            0 <= i < NUM_CELLS ==> (#[trigger] self.cells@[i].coords) == coord_of_index(i)
    }

    /// A board of `NUM_CELLS` empty cells.
    pub fn new() -> (board: Board)
        ensures
            board.wf(),
            forall|i: int| 0 <= i < NUM_CELLS ==> board.contents()[i] is Empty,
    {
        let mut cells: Vec<Cell> = Vec::new();
        for col_idx in 0..BOARD_WIDTH
            invariant
                cells@.len() == col_idx * BOARD_HEIGHT,
                forall|k: int|
                    0 <= k < cells@.len() ==> (#[trigger] cells@[k]).coords == coord_of_index(k)
                        && cells@[k].contents is Empty,
        {
            for row_idx in 0..BOARD_HEIGHT
                invariant
                    col_idx < BOARD_WIDTH,
                    cells@.len() == col_idx * BOARD_HEIGHT + row_idx,
                    forall|k: int|
                        0 <= k < cells@.len() ==> (#[trigger] cells@[k]).coords == coord_of_index(
                            k,
                        ) && cells@[k].contents is Empty,
            {
                cells.push(Cell::with_coords(BoardCoordinate(col_idx, row_idx)));
            }
        }
        Board { cells }
    }

    /// The linear index of the cell at `(column, row)`.
    pub fn index_of(column: usize, row: usize) -> (index: usize)
        requires
            column < BOARD_WIDTH,
            row < BOARD_HEIGHT,
        ensures
            index as int == index_of_coord(column as int, row as int),
            index < NUM_CELLS,
    {
        row + column * BOARD_HEIGHT
    }

    /// The cell indexes grouped into rows: entry `r` lists the indexes of
    /// the four cells whose row is `r`, by ascending column. Rendering
    /// reads the board row by row through this grouping.
    pub fn cell_indexes_by_row(&self) -> (groups: Vec<Vec<usize>>)
        ensures
            groups@.len() == BOARD_HEIGHT,
            forall|r: int|
                0 <= r < BOARD_HEIGHT ==> (#[trigger] groups@[r])@.len() == BOARD_WIDTH,
            forall|r: int, c: int|
                0 <= r < BOARD_HEIGHT && 0 <= c < BOARD_WIDTH ==> (#[trigger] groups@[r]@[c])
                    as int == index_of_coord(c, r),
    {
        let mut groups: Vec<Vec<usize>> = Vec::new();
        for row_idx in 0..BOARD_HEIGHT
            invariant
                groups@.len() == row_idx,
                forall|r: int| 0 <= r < row_idx ==> (#[trigger] groups@[r])@.len() == BOARD_WIDTH,
                forall|r: int, c: int|
                    0 <= r < row_idx && 0 <= c < BOARD_WIDTH ==> (#[trigger] groups@[r]@[c])
                        as int == index_of_coord(c, r),
        {
            let mut indexes_in_row: Vec<usize> = Vec::new();
            for col_idx in 0..BOARD_WIDTH
                invariant
                    row_idx < BOARD_HEIGHT,
                    indexes_in_row@.len() == col_idx,
                    forall|c: int|
                        0 <= c < col_idx ==> (#[trigger] indexes_in_row@[c]) as int
                            == index_of_coord(c, row_idx as int),
            {
                indexes_in_row.push(Self::index_of(col_idx, row_idx));
            }
            groups.push(indexes_in_row);
        }
        groups
    }

    /// The cell indexes grouped into columns: entry `c` lists the indexes
    /// of the four cells whose column is `c`, by ascending row.
    pub fn cell_indexes_by_col(&self) -> (groups: Vec<Vec<usize>>)
        ensures
            groups@.len() == BOARD_WIDTH,
            forall|c: int| 0 <= c < BOARD_WIDTH ==> (#[trigger] groups@[c])@.len() == BOARD_HEIGHT,
            forall|c: int, r: int|
                0 <= c < BOARD_WIDTH && 0 <= r < BOARD_HEIGHT ==> (#[trigger] groups@[c]@[r])
                    as int == index_of_coord(c, r),
    {
        let mut groups: Vec<Vec<usize>> = Vec::new();
        for col_idx in 0..BOARD_WIDTH
            invariant
                groups@.len() == col_idx,
                forall|c: int| 0 <= c < col_idx ==> (#[trigger] groups@[c])@.len() == BOARD_HEIGHT,
                forall|c: int, r: int|
                    0 <= c < col_idx && 0 <= r < BOARD_HEIGHT ==> (#[trigger] groups@[c]@[r])
                        as int == index_of_coord(c, r),
        {
            let mut indexes_in_col: Vec<usize> = Vec::new();
            for row_idx in 0..BOARD_HEIGHT
                invariant
                    col_idx < BOARD_WIDTH,
                    indexes_in_col@.len() == row_idx,
                    forall|r: int|
                        0 <= r < row_idx ==> (#[trigger] indexes_in_col@[r]) as int
                            == index_of_coord(col_idx as int, r),
            {
                indexes_in_col.push(Self::index_of(col_idx, row_idx));
            }
            groups.push(indexes_in_col);
        }
        groups
    }

    /// The contents of the cell at `index`.
    pub fn contents_at(&self, index: usize) -> (contents: CellContents)
        requires
            index < self.contents().len(),
        ensures
            contents == self.contents()[index as int],
    {
        self.cells[index].contents
    }

    /// Whether the cell at `index` is empty.
    pub fn is_empty_at(&self, index: usize) -> (empty: bool)
        requires
            index < self.contents().len(),
        ensures
            empty == (self.contents()[index as int] is Empty),
    {
        self.cells[index].is_empty()
    }

    /// The occupied value of the cell at `index`. Callers must check
    /// emptiness first; reading an empty cell is a contract violation.
    pub fn value_at(&self, index: usize) -> (value: usize)
        requires
            index < self.contents().len(),
            self.contents()[index as int] is Occupied,
        ensures
            self.contents()[index as int] == CellContents::Occupied(value),
    {
        self.cells[index].contents.unwrap()
    }

    /// Replace the contents of the cell at `index`, leaving its coordinate
    /// and every other cell untouched.
    pub fn set_at(&mut self, index: usize, contents: CellContents)
        requires
            index < old(self).contents().len(),
        ensures
            old(self).wf() ==> final(self).wf(),
            final(self).contents() =~= old(self).contents().update(index as int, contents),
    {
        let coords = self.cells[index].coords;
        self.cells[index] = Cell { coords, contents };
        proof {
            assert(forall|i: int|
                0 <= i < self.cells@.len() ==> (#[trigger] self.cells@[i]).coords == old(
                    self,
                ).cells@[i].coords);
        }
    }

    /// Empty the cell at `index`.
    pub fn clear_at(&mut self, index: usize)
        requires
            index < old(self).contents().len(),
        ensures
            old(self).wf() ==> final(self).wf(),
            final(self).contents() =~= old(self).contents().update(
                index as int,
                CellContents::Empty,
            ),
    {
        self.set_at(index, CellContents::Empty);
    }

    /// Move the contents of one cell into another, emptying the source.
    fn move_cell_into_cell(&mut self, source_cell_idx: usize, dest_cell_idx: usize)
        requires
            source_cell_idx < old(self).contents().len(),
            dest_cell_idx < old(self).contents().len(),
            source_cell_idx != dest_cell_idx,
        ensures
            old(self).wf() ==> final(self).wf(),
            final(self).contents() =~= old(self).contents().update(
                dest_cell_idx as int,
                old(self).contents()[source_cell_idx as int],
            ).update(source_cell_idx as int, CellContents::Empty),
    {
        let moved = self.cells[source_cell_idx].contents;
        self.set_at(dest_cell_idx, moved);
        self.set_at(source_cell_idx, CellContents::Empty);
    }

    /// The sliding phase of a press: scan adjacent line pairs, move every
    /// tile whose neighbouring cell toward the pressed edge is empty, and
    /// repeat the full scan until one complete pass changes nothing, so
    /// tiles travel as many steps as they can. Nothing merges here: each
    /// scan line ends as its own compacted form.
    fn push_cells_to_close_empty_gaps_with_perpendicular_rows(&mut self, direction: Direction)
        requires
            old(self).wf(),
        ensures
            final(self).wf(),
            forall|l: int|
                0 <= l < 4 ==> #[trigger] line_seq(final(self).contents(), direction, l)
                    =~= compacted(line_seq(old(self).contents(), direction, l)),
            total_value(final(self).contents()) == total_value(old(self).contents()),
    {
        loop
            invariant_except_break
                self.wf(),
                forall|l: int|
                    0 <= l < 4 ==> #[trigger] occupied_values(line_seq(self.contents(), direction, l))
                        == occupied_values(line_seq(old(self).contents(), direction, l)),
                total_value(self.contents()) == total_value(old(self).contents()),
            ensures
                self.wf(),
                forall|l: int|
                    0 <= l < 4 ==> #[trigger] occupied_values(line_seq(self.contents(), direction, l))
                        == occupied_values(line_seq(old(self).contents(), direction, l)),
                total_value(self.contents()) == total_value(old(self).contents()),
                forall|l: int, p: int|
                    0 <= l < 4 && 0 <= p < 3 ==> #[trigger] stable_pair(
                        self.contents(),
                        direction,
                        l,
                        p,
                    ),
            decreases board_potential(self.contents(), direction),
        {
            proof {
                lemma_board_potential_nonneg(self.contents(), direction);
            }
            let ghost pass_start = self.contents();
            let mut did_modify = false;
            let mut pair: usize = 0;
            while pair < 3
                invariant
                    pair <= 3,
                    self.wf(),
                    forall|l: int|
                        0 <= l < 4 ==> #[trigger] occupied_values(
                            line_seq(self.contents(), direction, l),
                        ) == occupied_values(line_seq(old(self).contents(), direction, l)),
                    total_value(self.contents()) == total_value(old(self).contents()),
                    did_modify ==> board_potential(self.contents(), direction) < board_potential(
                        pass_start,
                        direction,
                    ),
                    !did_modify ==> self.contents() == pass_start,
                    !did_modify ==> forall|ll: int, pp: int|
                        0 <= ll < 4 && 0 <= pp < pair ==> #[trigger] stable_pair(
                            pass_start,
                            direction,
                            ll,
                            pp,
                        ),
                decreases 3 - pair,
            {
                let mut line: usize = 0;
                while line < 4
                    invariant
                        pair < 3,
                        line <= 4,
                        self.wf(),
                        forall|l: int|
                            0 <= l < 4 ==> #[trigger] occupied_values(
                                line_seq(self.contents(), direction, l),
                            ) == occupied_values(line_seq(old(self).contents(), direction, l)),
                        total_value(self.contents()) == total_value(old(self).contents()),
                        did_modify ==> board_potential(self.contents(), direction)
                            < board_potential(pass_start, direction),
                        !did_modify ==> self.contents() == pass_start,
                        !did_modify ==> forall|ll: int, pp: int|
                            0 <= ll < 4 && 0 <= pp < pair ==> #[trigger] stable_pair(
                                pass_start,
                                direction,
                                ll,
                                pp,
                            ),
                        !did_modify ==> forall|ll: int|
                            0 <= ll < line ==> #[trigger] stable_pair(
                                pass_start,
                                direction,
                                ll,
                                pair as int,
                            ),
                    decreases 4 - line,
                {
                    let dest_cell_idx = line_index(direction, line, pair);
                    let source_cell_idx = line_index(direction, line, pair + 1);
                    if !self.is_empty_at(source_cell_idx) && self.is_empty_at(dest_cell_idx) {
                        let ghost before = self.contents();
                        proof {
                            lemma_slide_effect(before, direction, line as int, pair as int);
                        }
                        self.move_cell_into_cell(source_cell_idx, dest_cell_idx);
                        proof {
                            assert(self.contents() =~= board_after_slide(
                                before,
                                direction,
                                line as int,
                                pair as int,
                            ));
                            assert forall|l2: int| 0 <= l2 < 4 implies #[trigger] occupied_values(
                                line_seq(self.contents(), direction, l2),
                            ) == occupied_values(line_seq(old(self).contents(), direction, l2)) by {
                                if l2 != line as int {
                                    assert(line_seq(self.contents(), direction, l2) =~= line_seq(
                                        before,
                                        direction,
                                        l2,
                                    ));
                                }
                            }
                        }
                        did_modify = true;
                    } else {
                        proof {
                            if !did_modify {
                                assert(stable_pair(pass_start, direction, line as int, pair as int));
                            }
                        }
                    }
                    line = line + 1;
                }
                pair = pair + 1;
            }
            proof {
                lemma_board_potential_nonneg(self.contents(), direction);
            }
            if !did_modify {
                break;
            }
        }
        proof {
            assert forall|l: int| 0 <= l < 4 implies #[trigger] line_seq(
                self.contents(),
                direction,
                l,
            ) =~= compacted(line_seq(old(self).contents(), direction, l)) by {
                let u = line_seq(self.contents(), direction, l);
                assert forall|i: int| 0 <= i < u.len() - 1 implies !((#[trigger] u[i]) is Empty
                    && u[i + 1] is Occupied) by {
                    assert(stable_pair(self.contents(), direction, l, i));
                }
                assert(no_gap(u));
                lemma_no_gap_is_compacted(u);
                assert(compacted(line_seq(old(self).contents(), direction, l)) =~= compacted(u));
            }
        }
    }

    /// The merge phase of a press: one single scan over adjacent line
    /// pairs, in the same order as the sliding phase. Where both cells of
    /// a pair hold the same value, the cell nearer the pressed edge takes
    /// double that value and the other empties. Each position is visited
    /// only once per press, so a tile produced by a merge never merges
    /// again in the same press.
    fn merge_contiguous_cells_in_direction(&mut self, direction: Direction)
        requires
            old(self).wf(),
            total_value(old(self).contents()) <= TOTAL_VALUE_CAP,
        ensures
            final(self).wf(),
            forall|l: int|
                0 <= l < 4 ==> #[trigger] line_seq(final(self).contents(), direction, l)
                    =~= merge_pass(line_seq(old(self).contents(), direction, l)),
            total_value(final(self).contents()) == total_value(old(self).contents()),
    {
        let mut pair: usize = 0;
        while pair < 3
            invariant
                pair <= 3,
                self.wf(),
                total_value(self.contents()) == total_value(old(self).contents()),
                total_value(old(self).contents()) <= TOTAL_VALUE_CAP,
                forall|l: int|
                    0 <= l < 4 ==> #[trigger] line_seq(self.contents(), direction, l)
                        =~= merge_prefix(line_seq(old(self).contents(), direction, l), pair as int),
            decreases 3 - pair,
        {
            let mut line: usize = 0;
            while line < 4
                invariant
                    pair < 3,
                    line <= 4,
                    self.wf(),
                    total_value(self.contents()) == total_value(old(self).contents()),
                    total_value(old(self).contents()) <= TOTAL_VALUE_CAP,
                    forall|l: int|
                        0 <= l < line ==> #[trigger] line_seq(self.contents(), direction, l)
                            =~= merge_prefix(
                            line_seq(old(self).contents(), direction, l),
                            pair as int + 1,
                        ),
                    forall|l: int|
                        line <= l < 4 ==> #[trigger] line_seq(self.contents(), direction, l)
                            =~= merge_prefix(
                            line_seq(old(self).contents(), direction, l),
                            pair as int,
                        ),
                decreases 4 - line,
            {
                let dest_cell_idx = line_index(direction, line, pair);
                let source_cell_idx = line_index(direction, line, pair + 1);
                let ghost u = line_seq(self.contents(), direction, line as int);
                proof {
                    assert(u[pair as int] == self.contents()[dest_cell_idx as int]);
                    assert(u[pair as int + 1] == self.contents()[source_cell_idx as int]);
                }
                if !self.is_empty_at(dest_cell_idx) && !self.is_empty_at(source_cell_idx) {
                    let dest_value = self.value_at(dest_cell_idx);
                    let source_value = self.value_at(source_cell_idx);
                    if dest_value == source_value {
                        let ghost before = self.contents();
                        proof {
                            lemma_pair_le_total(
                                before,
                                dest_cell_idx as int,
                                source_cell_idx as int,
                            );
                            lemma_merge_effect(before, direction, line as int, pair as int);
                        }
                        let doubled = dest_value * 2;
                        self.set_at(dest_cell_idx, CellContents::Occupied(doubled));
                        self.clear_at(source_cell_idx);
                        proof {
                            assert(self.contents() =~= board_after_merge(
                                before,
                                direction,
                                line as int,
                                pair as int,
                            ));
                            assert(line_seq(self.contents(), direction, line as int) =~= merge_once(
                                u,
                                pair as int,
                            ));
                            assert forall|l: int| 0 <= l < 4 && l != line as int implies
                                #[trigger] line_seq(self.contents(), direction, l) =~= line_seq(
                                before,
                                direction,
                                l,
                            ) by {}
                        }
                    } else {
                        proof {
                            assert(merge_once(u, pair as int) == u);
                        }
                    }
                } else {
                    proof {
                        assert(merge_once(u, pair as int) == u);
                    }
                }
                line = line + 1;
            }
            pair = pair + 1;
        }
        proof {
            assert forall|l: int| 0 <= l < 4 implies #[trigger] line_seq(
                self.contents(),
                direction,
                l,
            ) =~= merge_pass(line_seq(old(self).contents(), direction, l)) by {
                assert(line_seq(old(self).contents(), direction, l).len() == 4);
            }
        }
    }

    /// One full move in `direction`: slide every tile as far as it can
    /// toward that edge, merge equal adjacent pairs once, then slide again
    /// to close the gaps the merges left. The phases are strictly
    /// sequential. A press conserves the total of all occupied values: a
    /// merge doubles one cell while emptying an equal one.
    pub fn press(&mut self, direction: Direction)
        requires
            old(self).wf(),
            total_value(old(self).contents()) <= TOTAL_VALUE_CAP,
        ensures
            final(self).wf(),
            final(self).contents() =~= spec_press(old(self).contents(), direction),
            forall|l: int|
                0 <= l < 4 ==> #[trigger] line_seq(final(self).contents(), direction, l)
                    == pressed_line(line_seq(old(self).contents(), direction, l)),
            total_value(final(self).contents()) == total_value(old(self).contents()),
    {
        self.push_cells_to_close_empty_gaps_with_perpendicular_rows(direction);
        self.merge_contiguous_cells_in_direction(direction);
        self.push_cells_to_close_empty_gaps_with_perpendicular_rows(direction);
        proof {
            assert forall|l: int| 0 <= l < 4 implies #[trigger] line_seq(
                self.contents(),
                direction,
                l,
            ) == pressed_line(line_seq(old(self).contents(), direction, l)) by {}
            lemma_press_from_lines(old(self).contents(), self.contents(), direction);
        }
    }

    /// Spawn a new tile: choose uniformly at random among the empty
    /// cells, choose the value 2 or 4 at random, and occupy the chosen
    /// cell. Callers must first make sure an empty cell exists; spawning
    /// onto a full board is a contract violation.
    pub fn spawn_tile_in_random_location(&mut self)
        requires
            old(self).wf(),
            !board_full(old(self).contents()),
        ensures
            final(self).wf(),
            spawned(old(self).contents(), final(self).contents()),
            count_occupied(final(self).contents()) == count_occupied(old(self).contents()) + 1,
            total_value(old(self).contents()) + 2 <= total_value(final(self).contents()),
            total_value(final(self).contents()) <= total_value(old(self).contents()) + 4,
    {
        let mut free_cells: Vec<usize> = Vec::new();
        let mut i: usize = 0;
        while i < NUM_CELLS
            invariant
                i <= NUM_CELLS,
                self == old(self),
                self.wf(),
                forall|k: int|
                    0 <= k < free_cells@.len() ==> (#[trigger] free_cells@[k]) < NUM_CELLS
                        && self.contents()[free_cells@[k] as int] is Empty,
                forall|j: int|
                    0 <= j < i && self.contents()[j] is Empty ==> free_cells@.contains(j as usize),
            decreases NUM_CELLS - i,
        {
            if self.is_empty_at(i) {
                let ghost seen = free_cells@;
                free_cells.push(i);
                proof {
                    assert(free_cells@[free_cells@.len() - 1] == i);
                    assert forall|j: int|
                        0 <= j < i + 1 && self.contents()[j] is Empty implies free_cells@.contains(
                        j as usize,
                    ) by {
                        if j < i {
                            let k = choose|k: int| 0 <= k < seen.len() && seen[k] == j as usize;
                            assert(free_cells@[k] == j as usize);
                        } else {
                            assert(free_cells@[free_cells@.len() - 1] == j as usize);
                        }
                    }
                }
            }
            i = i + 1;
        }
        proof {
            assert(exists|j: int|
                0 <= j < NUM_CELLS && !((#[trigger] self.contents()[j]) is Occupied));
            let j = choose|j: int| 0 <= j < NUM_CELLS && !((#[trigger] self.contents()[j])
                is Occupied);
            assert(free_cells@.contains(j as usize));
            assert(free_cells@.len() > 0);
        }
        let chosen_slot = random_below(free_cells.len());
        let chosen_cell_idx = free_cells[chosen_slot];
        let coin = random_below(2);
        let value: usize = if coin == 0 {
            2
        } else {
            4
        };
        let ghost pre = self.contents();
        self.set_at(chosen_cell_idx, CellContents::Occupied(value));
        proof {
            assert(pre[chosen_cell_idx as int] is Empty);
            lemma_count_occupied_fill(pre, chosen_cell_idx as int, value);
            lemma_total_value_update(pre, chosen_cell_idx as int, CellContents::Occupied(value));
            assert(self.contents()[chosen_cell_idx as int] == CellContents::Occupied(value));
            assert(spawned(pre, self.contents()));
        }
    }

    /// Spawn a tile if the board has room: reports `NoEmptyCellError`,
    /// changing nothing, exactly when every cell is occupied.
    pub fn spawn_tile(&mut self) -> (result: Result<(), NoEmptyCellError>)
        requires
            old(self).wf(),
        ensures
            final(self).wf(),
            board_full(old(self).contents()) ==> result is Err && *final(self) == *old(self),
            !board_full(old(self).contents()) ==> result is Ok && spawned(
                old(self).contents(),
                final(self).contents(),
            ) && count_occupied(final(self).contents()) == count_occupied(old(self).contents())
                + 1,
    {
        if self.is_full() {
            Err(NoEmptyCellError)
        } else {
            self.spawn_tile_in_random_location();
            Ok(())
        }
    }

    /// Begin a session: clear the board, then spawn the two starting
    /// tiles.
    pub fn start_game(&mut self)
        requires
            old(self).wf(),
        ensures
            final(self).wf(),
            count_occupied(final(self).contents()) == 2,
            total_value(final(self).contents()) <= 8,
            forall|i: int|
                0 <= i < NUM_CELLS ==> ((#[trigger] final(self).contents()[i]) is Empty
                    || final(self).contents()[i] == CellContents::Occupied(2)
                    || final(self).contents()[i] == CellContents::Occupied(4)),
    {
        self.empty();
        let ghost cleared = self.contents();
        proof {
            lemma_all_empty_board(cleared);
            assert(!(cleared[0] is Occupied));
        }
        self.spawn_tile_in_random_location();
        let ghost once = self.contents();
        proof {
            let i1 = choose|i: int|
                0 <= i < cleared.len() && cleared[i] is Empty && ((#[trigger] once[i])
                    == CellContents::Occupied(2) || once[i] == CellContents::Occupied(4)) && once
                    == cleared.update(i, once[i]);
            let other: int = if i1 == 0 {
                1
            } else {
                0
            };
            assert(once[other] == cleared[other]);
            assert(!(once[other] is Occupied));
        }
        self.spawn_tile_in_random_location();
        proof {
            let twice = self.contents();
            let i1 = choose|i: int|
                0 <= i < cleared.len() && cleared[i] is Empty && ((#[trigger] once[i])
                    == CellContents::Occupied(2) || once[i] == CellContents::Occupied(4)) && once
                    == cleared.update(i, once[i]);
            let i2 = choose|i: int|
                0 <= i < once.len() && once[i] is Empty && ((#[trigger] twice[i])
                    == CellContents::Occupied(2) || twice[i] == CellContents::Occupied(4)) && twice
                    == once.update(i, twice[i]);
            assert forall|i: int| 0 <= i < NUM_CELLS implies ((#[trigger] twice[i]) is Empty
                || twice[i] == CellContents::Occupied(2) || twice[i] == CellContents::Occupied(
                4,
            )) by {
                if i != i2 {
                    assert(twice[i] == once[i]);
                    if i != i1 {
                        assert(once[i] == cleared[i]);
                    }
                }
            }
        }
    }

    /// One full player turn, as a host loop runs it: press, then check
    /// fullness. A full board ends the round: it is reported as game
    /// over, emptied, and reseeded with the two starting tiles of the
    /// next round; otherwise the one new tile of the next turn spawns.
    pub fn take_turn(&mut self, direction: Direction) -> (game_over: bool)
        requires
            old(self).wf(),
            total_value(old(self).contents()) + 4 <= TOTAL_VALUE_CAP,
        ensures
            final(self).wf(),
            game_over == board_full(spec_press(old(self).contents(), direction)),
            game_over ==> count_occupied(final(self).contents()) == 2 && total_value(
                final(self).contents(),
            ) <= 8,
            !game_over ==> spawned(
                spec_press(old(self).contents(), direction),
                final(self).contents(),
            ) && count_occupied(final(self).contents()) == count_occupied(
                spec_press(old(self).contents(), direction),
            ) + 1 && total_value(final(self).contents()) <= total_value(old(self).contents()) + 4,
    {
        proof {
            lemma_total_value_nonneg(old(self).contents());
        }
        self.press(direction);
        if self.is_full() {
            self.start_game();
            true
        } else {
            self.spawn_tile_in_random_location();
            false
        }
    }

    /// Whether no cell is empty.
    pub fn is_full(&self) -> (full: bool)
        ensures
            full == board_full(self.contents()),
    {
        let cell_count = self.cells.len();
        for i in 0..cell_count
            invariant
                cell_count == self.contents().len(),
                forall|j: int| 0 <= j < i ==> self.contents()[j] is Occupied,
        {
            if self.cells[i].is_empty() {
                proof {
                    assert(!(self.contents()[i as int] is Occupied));
                }
                return false;
            }
        }
        true
    }

    /// Set every cell to empty; the reset used after a full board ends the
    /// game.
    pub fn empty(&mut self)
        requires
            old(self).wf(),
        ensures
            final(self).wf(),
            final(self).contents() =~= Seq::new(NUM_CELLS as nat, |i: int| CellContents::Empty),
    {
        let mut i: usize = 0;
        while i < NUM_CELLS
            invariant
                i <= NUM_CELLS,
                self.wf(),
                forall|j: int| 0 <= j < i ==> self.contents()[j] is Empty,
            decreases NUM_CELLS - i,
        {
            self.set_at(i, CellContents::Empty);
            i = i + 1;
        }
    }
}

} // verus!
