use vstd::prelude::*;

use crate::board::index_of_coord;
use crate::board::CellContents;
use crate::direction::Direction;

verus! {

/// The values of the occupied cells of a line, in order, with the empty
/// cells left out.
pub open spec fn occupied_values(s: Seq<CellContents>) -> Seq<usize>
    decreases s.len(),
{
    if s.len() == 0 {
        Seq::empty()
    } else {
        match s[0] {
            CellContents::Occupied(value) => seq![value] + occupied_values(s.drop_first()),
            CellContents::Empty => occupied_values(s.drop_first()),
        }
    }
}

/// How many cells of a line are occupied.
pub open spec fn count_occupied(s: Seq<CellContents>) -> int {
    occupied_values(s).len() as int
}

/// The value a cell contributes to a total: its occupied value, or zero
/// for an empty cell.
pub open spec fn cell_value(c: CellContents) -> int {
    match c {
        CellContents::Occupied(value) => value as int,
        CellContents::Empty => 0,
    }
}

/// The total of the occupied values of a line (or of a whole board read as
/// one sequence of cells).
pub open spec fn total_value(s: Seq<CellContents>) -> int
    decreases s.len(),
{
    if s.len() == 0 {
        0
    } else {
        cell_value(s[0]) + total_value(s.drop_first())
    }
}

/// `values` written from the start of a line of length `n`, every later
/// cell empty.
pub open spec fn padded(values: Seq<usize>, n: nat) -> Seq<CellContents> {
    Seq::new(
        n,
        |i: int|
            if i < values.len() {
                CellContents::Occupied(values[i])
            } else {
                CellContents::Empty
            },
    )
}

/// A line fully slid toward the press edge: the occupied values first, in
/// their original relative order, then only empty cells.
pub open spec fn compacted(s: Seq<CellContents>) -> Seq<CellContents> {
    padded(occupied_values(s), s.len())
}

/// One merge step at position `i` of a line: if the cells at `i` and `i + 1`
/// both hold the same value, the cell at `i` takes double that value and
/// the cell at `i + 1` is emptied; otherwise nothing changes.
pub open spec fn merge_once(s: Seq<CellContents>, i: int) -> Seq<CellContents> {
    if 0 <= i && i + 1 < s.len() {
        match (s[i], s[i + 1]) {
            (CellContents::Occupied(dest_value), CellContents::Occupied(source_value)) => {
                if dest_value == source_value {
                    s.update(i, CellContents::Occupied((2 * dest_value) as usize)).update(
                        i + 1,
                        CellContents::Empty,
                    )
                } else {
                    s
                }
            },
            _ => s,
        }
    } else {
        s
    }
}

/// The merge steps at positions `0, 1, ..., k - 1` of a line, applied in
/// that order. Each position is visited exactly once, so a value produced
/// by a merge never merges again in the same pass.
pub open spec fn merge_prefix(s: Seq<CellContents>, k: int) -> Seq<CellContents>
    decreases k,
{
    if k <= 0 {
        s
    } else {
        merge_once(merge_prefix(s, k - 1), k - 1)
    }
}

/// A single merge pass over a whole line.
pub open spec fn merge_pass(s: Seq<CellContents>) -> Seq<CellContents> {
    merge_prefix(s, s.len() - 1)
}

/// What one press leaves of a line, read from the press edge outward:
/// slide, merge once, slide again.
pub open spec fn pressed_line(s: Seq<CellContents>) -> Seq<CellContents> {
    compacted(merge_pass(compacted(s)))
}

/// The board index of position `pos` of scan line `line` for a press in
/// `direction`. For a horizontal press the scan lines are the four rows and
/// `pos` counts columns from the pressed edge; for a vertical press they
/// are the four columns and `pos` counts rows from the pressed edge.
pub open spec fn line_cell_index(direction: Direction, line: int, pos: int) -> int {
    match direction {
        Direction::Left => index_of_coord(pos, line),
        Direction::Right => index_of_coord(3 - pos, line),
        Direction::Up => index_of_coord(line, pos),
        Direction::Down => index_of_coord(line, 3 - pos),
    }
}

/// Scan line `line` of a whole board `s`, read from the pressed edge
/// outward.
pub open spec fn line_seq(s: Seq<CellContents>, direction: Direction, line: int) -> Seq<
    CellContents,
> {
    Seq::new(4, |pos: int| s[line_cell_index(direction, line, pos)])
}

/// No tile of the line could still slide: nowhere does an empty cell sit
/// nearer the pressed edge than an occupied neighbour.
pub open spec fn no_gap(s: Seq<CellContents>) -> bool {
    forall|i: int|
        0 <= i < s.len() - 1 ==> !((#[trigger] s[i]) is Empty && s[i + 1] is Occupied)
}

/// No adjacent pair of the line holds two equal values, so a merge pass
/// would change nothing.
pub open spec fn no_adjacent_equal(s: Seq<CellContents>) -> bool {
    forall|i: int|
        0 <= i < s.len() - 1 ==> !((#[trigger] s[i]) is Occupied && s[i + 1] is Occupied
            && cell_value(s[i]) == cell_value(s[i + 1]))
}

/// How far the occupied cells of a line sit from the pressed edge, summed;
/// each slide step lowers it by one, which bounds the compaction loop.
pub open spec fn line_potential(s: Seq<CellContents>) -> int
    decreases s.len(),
{
    if s.len() == 0 {
        0
    } else {
        line_potential(s.drop_last()) + if s.last() is Occupied {
            s.len() - 1
        } else {
            0
        }
    }
}

pub proof fn lemma_occupied_values_len(s: Seq<CellContents>)
    ensures
        occupied_values(s).len() <= s.len(),
    decreases s.len(),
{
    if s.len() > 0 {
        lemma_occupied_values_len(s.drop_first());
    }
}

pub proof fn lemma_total_value_nonneg(s: Seq<CellContents>)
    ensures
        total_value(s) >= 0,
    decreases s.len(),
{
    if s.len() > 0 {
        lemma_total_value_nonneg(s.drop_first());
    }
}

/// Replacing one cell changes the total by exactly the difference of the
/// two cell values.
pub proof fn lemma_total_value_update(s: Seq<CellContents>, i: int, c: CellContents)
    requires
        0 <= i < s.len(),
    ensures
        total_value(s.update(i, c)) == total_value(s) - cell_value(s[i]) + cell_value(c),
    decreases i,
{
    let t = s.update(i, c);
    if i == 0 {
        assert(t.drop_first() =~= s.drop_first());
    } else {
        assert(t.drop_first() =~= s.drop_first().update(i - 1, c));
        lemma_total_value_update(s.drop_first(), i - 1, c);
    }
}

proof fn lemma_cell_value_le_total(s: Seq<CellContents>, i: int)
    requires
        0 <= i < s.len(),
    ensures
        cell_value(s[i]) <= total_value(s),
    decreases i,
{
    if i == 0 {
        lemma_total_value_nonneg(s.drop_first());
    } else {
        lemma_cell_value_le_total(s.drop_first(), i - 1);
        assert(cell_value(s[0]) >= 0);
    }
}

proof fn lemma_pair_le_total_ordered(s: Seq<CellContents>, i: int, j: int)
    requires
        0 <= i < j < s.len(),
    ensures
        cell_value(s[i]) + cell_value(s[j]) <= total_value(s),
    decreases i,
{
    if i == 0 {
        lemma_cell_value_le_total(s.drop_first(), j - 1);
    } else {
        lemma_pair_le_total_ordered(s.drop_first(), i - 1, j - 1);
        assert(cell_value(s[0]) >= 0);
    }
}

/// Two distinct occupied cells together never hold more than the whole
/// total.
pub proof fn lemma_pair_le_total(s: Seq<CellContents>, i: int, j: int)
    requires
        0 <= i < s.len(),
        0 <= j < s.len(),
        i != j,
    ensures
        cell_value(s[i]) + cell_value(s[j]) <= total_value(s),
{
    if i < j {
        lemma_pair_le_total_ordered(s, i, j);
    } else {
        lemma_pair_le_total_ordered(s, j, i);
    }
}

/// Sliding one tile one step toward the pressed edge (an occupied cell
/// moving into the empty cell just before it) keeps the occupied values of
/// the line, in order.
pub proof fn lemma_occupied_values_slide(s: Seq<CellContents>, i: int)
    requires
        0 <= i,
        i + 1 < s.len(),
        s[i] is Empty,
        s[i + 1] is Occupied,
    ensures
        occupied_values(s.update(i, s[i + 1]).update(i + 1, CellContents::Empty))
            == occupied_values(s),
    decreases i,
{
    let t = s.update(i, s[i + 1]).update(i + 1, CellContents::Empty);
    if i == 0 {
        let u = s.drop_first();
        let v = s[1]->Occupied_0;
        assert(s[1] == CellContents::Occupied(v));
        assert(t[0] == s[1]);
        assert(t.drop_first() =~= u.update(0, CellContents::Empty));
        assert(u.update(0, CellContents::Empty).drop_first() =~= u.drop_first());
        assert(u[0] == s[1]);
        assert(occupied_values(t) == seq![v] + occupied_values(t.drop_first()));
        assert(occupied_values(u.update(0, CellContents::Empty)) == occupied_values(
            u.drop_first(),
        ));
        assert(occupied_values(u) == seq![v] + occupied_values(u.drop_first()));
        assert(occupied_values(s) == occupied_values(u));
    } else {
        assert(t[0] == s[0]);
        assert(t.drop_first() =~= s.drop_first().update(i - 1, s.drop_first()[i]).update(
            i,
            CellContents::Empty,
        ));
        lemma_occupied_values_slide(s.drop_first(), i - 1);
    }
}

proof fn lemma_all_empty(s: Seq<CellContents>)
    requires
        no_gap(s),
        s.len() > 0,
        s[0] is Empty,
    ensures
        forall|i: int| 0 <= i < s.len() ==> (#[trigger] s[i]) is Empty,
    decreases s.len(),
{
    if s.len() > 1 {
        assert(!(s[0] is Empty && s[1] is Occupied));
        let u = s.drop_first();
        assert forall|k: int| 0 <= k < u.len() - 1 implies !((#[trigger] u[k]) is Empty && u[k
            + 1] is Occupied) by {
            assert(u[k] == s[k + 1]);
            assert(u[k + 1] == s[k + 2]);
            assert(!(s[k + 1] is Empty && s[k + 2] is Occupied));
        }
        lemma_all_empty(u);
        assert forall|i: int| 0 <= i < s.len() implies (#[trigger] s[i]) is Empty by {
            if i > 0 {
                assert(u[i - 1] is Empty);
            }
        }
    }
}

proof fn lemma_occupied_values_all_empty(s: Seq<CellContents>)
    requires
        forall|i: int| 0 <= i < s.len() ==> (#[trigger] s[i]) is Empty,
    ensures
        occupied_values(s) =~= Seq::empty(),
    decreases s.len(),
{
    if s.len() > 0 {
        lemma_occupied_values_all_empty(s.drop_first());
    }
}

/// A line in which no tile could still slide is exactly its own compacted
/// form: the occupied cells already sit contiguously at the pressed edge.
pub proof fn lemma_no_gap_is_compacted(s: Seq<CellContents>)
    requires
        no_gap(s),
    ensures
        compacted(s) =~= s,
    decreases s.len(),
{
    if s.len() == 0 {
    } else if s[0] is Empty {
        lemma_all_empty(s);
        lemma_occupied_values_all_empty(s);
    } else {
        let u = s.drop_first();
        assert forall|k: int| 0 <= k < u.len() - 1 implies !((#[trigger] u[k]) is Empty && u[k
            + 1] is Occupied) by {
            assert(u[k] == s[k + 1]);
            assert(u[k + 1] == s[k + 2]);
            assert(!(s[k + 1] is Empty && s[k + 2] is Occupied));
        }
        lemma_no_gap_is_compacted(u);
        lemma_occupied_values_len(u);
        assert forall|j: int| 0 <= j < s.len() implies compacted(s)[j] == s[j] by {
            if j > 0 {
                assert(compacted(u)[j - 1] == u[j - 1]);
                assert(occupied_values(s) == seq![s[0]->Occupied_0] + occupied_values(u));
            }
        }
    }
}

proof fn lemma_occupied_values_of_padded(values: Seq<usize>, n: nat)
    requires
        values.len() <= n,
    ensures
        occupied_values(padded(values, n)) =~= values,
    decreases n,
{
    if n > 0 {
        let p = padded(values, n);
        if values.len() == 0 {
            assert(p.drop_first() =~= padded(values, (n - 1) as nat));
            lemma_occupied_values_of_padded(values, (n - 1) as nat);
        } else {
            assert(p[0] == CellContents::Occupied(values[0]));
            assert(p.drop_first() =~= padded(values.drop_first(), (n - 1) as nat));
            lemma_occupied_values_of_padded(values.drop_first(), (n - 1) as nat);
            assert(occupied_values(p) =~= seq![values[0]] + values.drop_first());
            assert(seq![values[0]] + values.drop_first() =~= values);
        }
    }
}

/// Compacting keeps the occupied values of a line, in order.
pub proof fn lemma_occupied_values_of_compacted(s: Seq<CellContents>)
    ensures
        occupied_values(compacted(s)) =~= occupied_values(s),
{
    lemma_occupied_values_len(s);
    lemma_occupied_values_of_padded(occupied_values(s), s.len());
}

/// Compaction is at a fixed point after one full round: compacting a
/// compacted line changes nothing, so repeating the sliding phase until it
/// is stable always ends in the same, fully determined line.
pub proof fn lemma_compacted_idempotent(s: Seq<CellContents>)
    ensures
        compacted(compacted(s)) =~= compacted(s),
{
    lemma_occupied_values_of_compacted(s);
}

/// Compacting a line does not change its total value.
pub proof fn lemma_total_value_of_compacted(s: Seq<CellContents>)
    ensures
        total_value(compacted(s)) == total_value(s),
{
    lemma_occupied_values_of_compacted(s);
    lemma_total_value_from_occupied(compacted(s));
    lemma_total_value_from_occupied(s);
}

/// The total of a line is the sum of its occupied values.
proof fn lemma_total_value_from_occupied(s: Seq<CellContents>)
    ensures
        total_value(s) == value_sum(occupied_values(s)),
    decreases s.len(),
{
    if s.len() > 0 {
        lemma_total_value_from_occupied(s.drop_first());
        if s[0] is Occupied {
            assert(occupied_values(s) == seq![s[0]->Occupied_0] + occupied_values(
                s.drop_first(),
            ));
            lemma_value_sum_cons(s[0]->Occupied_0, occupied_values(s.drop_first()));
        }
    }
}

/// The sum of a sequence of values.
pub open spec fn value_sum(values: Seq<usize>) -> int
    decreases values.len(),
{
    if values.len() == 0 {
        0
    } else {
        values[0] + value_sum(values.drop_first())
    }
}

proof fn lemma_value_sum_cons(v: usize, values: Seq<usize>)
    ensures
        value_sum(seq![v] + values) == v + value_sum(values),
{
    assert((seq![v] + values).drop_first() =~= values);
}

/// A merge step never changes the total: the destination doubles while an
/// equal source empties.
pub proof fn lemma_merge_once_total(s: Seq<CellContents>, i: int)
    requires
        total_value(s) <= usize::MAX,
    ensures
        total_value(merge_once(s, i)) == total_value(s),
{
    if 0 <= i && i + 1 < s.len() {
        match (s[i], s[i + 1]) {
            (CellContents::Occupied(dest_value), CellContents::Occupied(source_value)) => {
                if dest_value == source_value {
                    lemma_pair_le_total(s, i, i + 1);
                    let doubled = CellContents::Occupied((2 * dest_value) as usize);
                    let t = s.update(i, doubled);
                    lemma_total_value_update(s, i, doubled);
                    lemma_total_value_update(t, i + 1, CellContents::Empty);
                }
            },
            _ => {},
        }
    }
}

/// A full merge pass never changes the total of a line.
pub proof fn lemma_merge_prefix_total(s: Seq<CellContents>, k: int)
    requires
        total_value(s) <= usize::MAX,
    ensures
        total_value(merge_prefix(s, k)) == total_value(s),
    decreases k,
{
    if k > 0 {
        lemma_merge_prefix_total(s, k - 1);
        lemma_merge_once_total(merge_prefix(s, k - 1), k - 1);
    }
}

/// Where no adjacent pair holds equal values, a merge pass changes
/// nothing.
pub proof fn lemma_merge_prefix_noop(s: Seq<CellContents>, k: int)
    requires
        no_adjacent_equal(s),
    ensures
        merge_prefix(s, k) == s,
    decreases k,
{
    if k > 0 {
        lemma_merge_prefix_noop(s, k - 1);
    }
}

/// Pressing is idempotent on a settled line: one already compacted, with
/// no equal neighbours, comes out of a whole press unchanged.
pub proof fn lemma_pressed_line_noop(s: Seq<CellContents>)
    requires
        compacted(s) == s,
        no_adjacent_equal(s),
    ensures
        pressed_line(s) == s,
{
    lemma_merge_prefix_noop(s, s.len() - 1);
}

/// Replacing one cell changes the potential by the difference of what the
/// old and new contents contribute at that position.
proof fn lemma_line_potential_update(s: Seq<CellContents>, i: int, c: CellContents)
    requires
        0 <= i < s.len(),
    ensures
        line_potential(s.update(i, c)) == line_potential(s) - (if s[i] is Occupied {
            i
        } else {
            0
        }) + (if c is Occupied {
            i
        } else {
            0
        }),
    decreases s.len(),
{
    let t = s.update(i, c);
    if i == s.len() - 1 {
        assert(t.drop_last() =~= s.drop_last());
        assert(t.last() == c);
    } else {
        assert(t.drop_last() =~= s.drop_last().update(i, c));
        assert(t.last() == s.last());
        lemma_line_potential_update(s.drop_last(), i, c);
    }
}

pub proof fn lemma_line_potential_nonneg(s: Seq<CellContents>)
    ensures
        line_potential(s) >= 0,
    decreases s.len(),
{
    if s.len() > 0 {
        lemma_line_potential_nonneg(s.drop_last());
    }
}

/// The positions `p` and `p + 1` of scan line `l` hold no tile that could
/// still slide: not an empty destination right before an occupied source.
pub open spec fn stable_pair(s: Seq<CellContents>, direction: Direction, l: int, p: int) -> bool {
    !(s[line_cell_index(direction, l, p)] is Empty && s[line_cell_index(direction, l, p + 1)]
        is Occupied)
}

/// How far all tiles of the board sit from the pressed edge, summed over
/// the four scan lines.
pub open spec fn board_potential(s: Seq<CellContents>, direction: Direction) -> int {
    line_potential(line_seq(s, direction, 0)) + line_potential(line_seq(s, direction, 1))
        + line_potential(line_seq(s, direction, 2)) + line_potential(line_seq(s, direction, 3))
}

pub proof fn lemma_board_potential_nonneg(s: Seq<CellContents>, direction: Direction)
    ensures
        board_potential(s, direction) >= 0,
{
    lemma_line_potential_nonneg(line_seq(s, direction, 0));
    lemma_line_potential_nonneg(line_seq(s, direction, 1));
    lemma_line_potential_nonneg(line_seq(s, direction, 2));
    lemma_line_potential_nonneg(line_seq(s, direction, 3));
}

/// The board after one slide step at positions `p`, `p + 1` of scan line
/// `l`: the source tile moves one step toward the pressed edge.
pub open spec fn board_after_slide(
    s: Seq<CellContents>,
    direction: Direction,
    l: int,
    p: int,
) -> Seq<CellContents> {
    let dest = line_cell_index(direction, l, p);
    let src = line_cell_index(direction, l, p + 1);
    s.update(dest, s[src]).update(src, CellContents::Empty)
}

pub proof fn lemma_line_cell_index_range(direction: Direction, line: int, pos: int)
    requires
        0 <= line < 4,
        0 <= pos < 4,
    ensures
        0 <= line_cell_index(direction, line, pos) < 16,
{
}

/// Distinct (line, position) pairs of one direction denote distinct board
/// indexes.
pub proof fn lemma_line_cell_index_distinct(
    direction: Direction,
    l1: int,
    p1: int,
    l2: int,
    p2: int,
)
    requires
        0 <= l1 < 4,
        0 <= p1 < 4,
        0 <= l2 < 4,
        0 <= p2 < 4,
        l1 != l2 || p1 != p2,
    ensures
        line_cell_index(direction, l1, p1) != line_cell_index(direction, l2, p2),
{
}

/// What one slide step does to the whole board: the slid line keeps its
/// occupied values, every other line is untouched, the total is unchanged
/// and the potential drops by one.
pub proof fn lemma_slide_effect(s: Seq<CellContents>, direction: Direction, l: int, p: int)
    requires
        s.len() == 16,
        0 <= l < 4,
        0 <= p < 3,
        s[line_cell_index(direction, l, p)] is Empty,
        s[line_cell_index(direction, l, p + 1)] is Occupied,
    ensures
        forall|l2: int|
            0 <= l2 < 4 && l2 != l ==> #[trigger] line_seq(
                board_after_slide(s, direction, l, p),
                direction,
                l2,
            ) =~= line_seq(s, direction, l2),
        line_seq(board_after_slide(s, direction, l, p), direction, l) =~= line_seq(
            s,
            direction,
            l,
        ).update(p, line_seq(s, direction, l)[p + 1]).update(p + 1, CellContents::Empty),
        occupied_values(line_seq(board_after_slide(s, direction, l, p), direction, l))
            == occupied_values(line_seq(s, direction, l)),
        total_value(board_after_slide(s, direction, l, p)) == total_value(s),
        board_potential(board_after_slide(s, direction, l, p), direction) == board_potential(
            s,
            direction,
        ) - 1,
{
    let dest = line_cell_index(direction, l, p);
    let src = line_cell_index(direction, l, p + 1);
    let t = board_after_slide(s, direction, l, p);
    let u = line_seq(s, direction, l);
    lemma_line_cell_index_range(direction, l, p);
    lemma_line_cell_index_range(direction, l, p + 1);
    lemma_line_cell_index_distinct(direction, l, p, l, p + 1);
    assert forall|l2: int, q: int| 0 <= l2 < 4 && l2 != l && 0 <= q < 4 implies s[line_cell_index(
        direction,
        l2,
        q,
    )] == t[line_cell_index(direction, l2, q)] by {
        lemma_line_cell_index_distinct(direction, l2, q, l, p);
        lemma_line_cell_index_distinct(direction, l2, q, l, p + 1);
        lemma_line_cell_index_range(direction, l2, q);
    }
    assert forall|l2: int| 0 <= l2 < 4 && l2 != l implies #[trigger] line_seq(t, direction, l2)
        =~= line_seq(s, direction, l2) by {
        assert(forall|q: int|
            0 <= q < 4 ==> #[trigger] line_seq(t, direction, l2)[q] == line_seq(s, direction, l2)[q]);
    }
    assert forall|q: int| 0 <= q < 4 && q != p && q != p + 1 implies t[line_cell_index(
        direction,
        l,
        q,
    )] == s[line_cell_index(direction, l, q)] by {
        lemma_line_cell_index_distinct(direction, l, q, l, p);
        lemma_line_cell_index_distinct(direction, l, q, l, p + 1);
        lemma_line_cell_index_range(direction, l, q);
    }
    assert(line_seq(t, direction, l) =~= u.update(p, u[p + 1]).update(p + 1, CellContents::Empty));
    lemma_occupied_values_slide(u, p);
    lemma_total_value_update(s, dest, s[src]);
    lemma_total_value_update(s.update(dest, s[src]), src, CellContents::Empty);
    lemma_line_potential_slide(u, p);
    lemma_line_potential_update(u, p, u[p + 1]);
}

/// The board after one merge step at positions `p`, `p + 1` of scan line
/// `l`: the destination doubles and the source empties.
pub open spec fn board_after_merge(
    s: Seq<CellContents>,
    direction: Direction,
    l: int,
    p: int,
) -> Seq<CellContents> {
    let dest = line_cell_index(direction, l, p);
    let src = line_cell_index(direction, l, p + 1);
    s.update(dest, CellContents::Occupied((2 * s[dest]->Occupied_0) as usize)).update(
        src,
        CellContents::Empty,
    )
}

/// What one merge step does to the whole board: the merged line takes one
/// `merge_once` step, every other line is untouched, and the total is
/// unchanged.
pub proof fn lemma_merge_effect(s: Seq<CellContents>, direction: Direction, l: int, p: int)
    requires
        s.len() == 16,
        0 <= l < 4,
        0 <= p < 3,
        s[line_cell_index(direction, l, p)] is Occupied,
        s[line_cell_index(direction, l, p + 1)] is Occupied,
        s[line_cell_index(direction, l, p)]->Occupied_0 == s[line_cell_index(
            direction,
            l,
            p + 1,
        )]->Occupied_0,
        total_value(s) <= usize::MAX,
    ensures
        forall|l2: int|
            0 <= l2 < 4 && l2 != l ==> #[trigger] line_seq(
                board_after_merge(s, direction, l, p),
                direction,
                l2,
            ) =~= line_seq(s, direction, l2),
        line_seq(board_after_merge(s, direction, l, p), direction, l) =~= merge_once(
            line_seq(s, direction, l),
            p,
        ),
        total_value(board_after_merge(s, direction, l, p)) == total_value(s),
{
    let dest = line_cell_index(direction, l, p);
    let src = line_cell_index(direction, l, p + 1);
    let t = board_after_merge(s, direction, l, p);
    let u = line_seq(s, direction, l);
    let v = s[dest]->Occupied_0;
    lemma_line_cell_index_range(direction, l, p);
    lemma_line_cell_index_range(direction, l, p + 1);
    lemma_line_cell_index_distinct(direction, l, p, l, p + 1);
    lemma_pair_le_total(s, dest, src);
    assert forall|l2: int, q: int| 0 <= l2 < 4 && l2 != l && 0 <= q < 4 implies s[line_cell_index(
        direction,
        l2,
        q,
    )] == t[line_cell_index(direction, l2, q)] by {
        lemma_line_cell_index_distinct(direction, l2, q, l, p);
        lemma_line_cell_index_distinct(direction, l2, q, l, p + 1);
        lemma_line_cell_index_range(direction, l2, q);
    }
    assert forall|l2: int| 0 <= l2 < 4 && l2 != l implies #[trigger] line_seq(t, direction, l2)
        =~= line_seq(s, direction, l2) by {
        assert(forall|q: int|
            0 <= q < 4 ==> #[trigger] line_seq(t, direction, l2)[q] == line_seq(s, direction, l2)[q]);
    }
    assert forall|q: int| 0 <= q < 4 && q != p && q != p + 1 implies t[line_cell_index(
        direction,
        l,
        q,
    )] == s[line_cell_index(direction, l, q)] by {
        lemma_line_cell_index_distinct(direction, l, q, l, p);
        lemma_line_cell_index_distinct(direction, l, q, l, p + 1);
        lemma_line_cell_index_range(direction, l, q);
    }
    assert(u[p] == s[dest]);
    assert(u[p + 1] == s[src]);
    assert(line_seq(t, direction, l) =~= u.update(
        p,
        CellContents::Occupied((2 * v) as usize),
    ).update(p + 1, CellContents::Empty));
    lemma_total_value_update(s, dest, CellContents::Occupied((2 * v) as usize));
    lemma_total_value_update(
        s.update(dest, CellContents::Occupied((2 * v) as usize)),
        src,
        CellContents::Empty,
    );
}

/// Which scan line the board index `i` belongs to for a press in
/// `direction`.
pub open spec fn line_of_index(direction: Direction, i: int) -> int {
    match direction {
        Direction::Left => i % 4,
        Direction::Right => i % 4,
        Direction::Up => i / 4,
        Direction::Down => i / 4,
    }
}

/// Which position along its scan line the board index `i` holds for a
/// press in `direction`.
pub open spec fn pos_of_index(direction: Direction, i: int) -> int {
    match direction {
        Direction::Left => i / 4,
        Direction::Right => 3 - i / 4,
        Direction::Up => i % 4,
        Direction::Down => 3 - i % 4,
    }
}

pub proof fn lemma_index_roundtrip(direction: Direction, i: int)
    requires
        0 <= i < 16,
    ensures
        0 <= line_of_index(direction, i) < 4,
        0 <= pos_of_index(direction, i) < 4,
        line_cell_index(direction, line_of_index(direction, i), pos_of_index(direction, i)) == i,
{
}

/// The whole board after one press in `direction`: every scan line,
/// read from the pressed edge, becomes its pressed form.
pub open spec fn spec_press(s: Seq<CellContents>, direction: Direction) -> Seq<CellContents> {
    Seq::new(
        16,
        |i: int|
            pressed_line(line_seq(s, direction, line_of_index(direction, i)))[pos_of_index(
                direction,
                i,
            )],
    )
}

/// A board whose every scan line is the pressed form of the corresponding
/// line of `s` is exactly `spec_press(s, direction)`.
pub proof fn lemma_press_from_lines(s: Seq<CellContents>, t: Seq<CellContents>, direction: Direction)
    requires
        s.len() == 16,
        t.len() == 16,
        forall|l: int|
            0 <= l < 4 ==> #[trigger] line_seq(t, direction, l) == pressed_line(
                line_seq(s, direction, l),
            ),
    ensures
        t =~= spec_press(s, direction),
{
    assert forall|i: int| 0 <= i < 16 implies t[i] == spec_press(s, direction)[i] by {
        lemma_index_roundtrip(direction, i);
        let l = line_of_index(direction, i);
        let p = pos_of_index(direction, i);
        assert(line_seq(t, direction, l)[p] == t[i]);
    }
}

/// Whether every cell of the board is occupied.
pub open spec fn board_full(s: Seq<CellContents>) -> bool {
    forall|i: int| 0 <= i < s.len() ==> (#[trigger] s[i]) is Occupied
}

/// Occupying an empty cell raises the occupied count by exactly one.
pub proof fn lemma_count_occupied_fill(s: Seq<CellContents>, i: int, value: usize)
    requires
        0 <= i < s.len(),
        s[i] is Empty,
    ensures
        count_occupied(s.update(i, CellContents::Occupied(value))) == count_occupied(s) + 1,
    decreases i,
{
    let t = s.update(i, CellContents::Occupied(value));
    if i == 0 {
        assert(t.drop_first() =~= s.drop_first());
    } else {
        assert(t.drop_first() =~= s.drop_first().update(i - 1, CellContents::Occupied(value)));
        lemma_count_occupied_fill(s.drop_first(), i - 1, value);
    }
}

/// A board of nothing but empty cells has no occupied values and no total.
pub proof fn lemma_all_empty_board(s: Seq<CellContents>)
    requires
        forall|i: int| 0 <= i < s.len() ==> (#[trigger] s[i]) is Empty,
    ensures
        count_occupied(s) == 0,
        total_value(s) == 0,
    decreases s.len(),
{
    if s.len() > 0 {
        lemma_all_empty_board(s.drop_first());
    }
}

/// Pressing a settled board again is a no-op: where every scan line is
/// already compacted and no two neighbours along a line hold equal
/// values, a second press in the same direction changes nothing.
pub proof fn lemma_press_noop_when_settled(s: Seq<CellContents>, direction: Direction)
    requires
        s.len() == 16,
        forall|l: int|
            0 <= l < 4 ==> #[trigger] compacted(line_seq(s, direction, l)) == line_seq(
                s,
                direction,
                l,
            ),
        forall|l: int| 0 <= l < 4 ==> #[trigger] no_adjacent_equal(line_seq(s, direction, l)),
    ensures
        spec_press(s, direction) == s,
{
    assert forall|l: int| 0 <= l < 4 implies #[trigger] line_seq(s, direction, l) == pressed_line(
        line_seq(s, direction, l),
    ) by {
        lemma_pressed_line_noop(line_seq(s, direction, l));
    }
    lemma_press_from_lines(s, s, direction);
}

/// One slide step lowers the potential of its line by exactly one.
pub proof fn lemma_line_potential_slide(s: Seq<CellContents>, i: int)
    requires
        0 <= i,
        i + 1 < s.len(),
        s[i] is Empty,
        s[i + 1] is Occupied,
    ensures
        line_potential(s.update(i, s[i + 1]).update(i + 1, CellContents::Empty))
            == line_potential(s) - 1,
{
    let t = s.update(i, s[i + 1]);
    lemma_line_potential_update(s, i, s[i + 1]);
    lemma_line_potential_update(t, i + 1, CellContents::Empty);
}

} // verus!
