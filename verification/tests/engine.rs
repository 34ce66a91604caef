use tile2048::board::{Board, CellContents, NoEmptyCellError, NUM_CELLS};
use tile2048::direction::Direction;

fn set_row(board: &mut Board, row: usize, values: [Option<usize>; 4]) {
    for col in 0..4 {
        let idx = Board::index_of(col, row);
        match values[col] {
            Some(v) => board.set_at(idx, CellContents::Occupied(v)),
            None => board.set_at(idx, CellContents::Empty),
        }
    }
}

fn set_col(board: &mut Board, col: usize, values: [Option<usize>; 4]) {
    for row in 0..4 {
        let idx = Board::index_of(col, row);
        match values[row] {
            Some(v) => board.set_at(idx, CellContents::Occupied(v)),
            None => board.set_at(idx, CellContents::Empty),
        }
    }
}

fn row_values(board: &Board, row: usize) -> [Option<usize>; 4] {
    let mut out = [None; 4];
    for col in 0..4 {
        out[col] = match board.contents_at(Board::index_of(col, row)) {
            CellContents::Empty => None,
            CellContents::Occupied(v) => Some(v),
        };
    }
    out
}

fn col_values(board: &Board, col: usize) -> [Option<usize>; 4] {
    let mut out = [None; 4];
    for row in 0..4 {
        out[row] = match board.contents_at(Board::index_of(col, row)) {
            CellContents::Empty => None,
            CellContents::Occupied(v) => Some(v),
        };
    }
    out
}

fn occupied_count(board: &Board) -> usize {
    let mut count = 0;
    for idx in 0..NUM_CELLS {
        if !board.is_empty_at(idx) {
            count += 1;
        }
    }
    count
}

fn total(board: &Board) -> usize {
    let mut sum = 0;
    for idx in 0..NUM_CELLS {
        if !board.is_empty_at(idx) {
            sum += board.value_at(idx);
        }
    }
    sum
}

fn snapshot(board: &Board) -> Vec<Option<usize>> {
    let mut out = Vec::new();
    for idx in 0..NUM_CELLS {
        out.push(match board.contents_at(idx) {
            CellContents::Empty => None,
            CellContents::Occupied(v) => Some(v),
        });
    }
    out
}

#[test]
fn new_board_is_empty() {
    let board = Board::new();
    assert_eq!(occupied_count(&board), 0);
    assert!(!board.is_full());
    for idx in 0..NUM_CELLS {
        assert!(board.is_empty_at(idx));
    }
}

#[test]
fn value_round_trip() {
    let mut board = Board::new();
    let idx = Board::index_of(2, 1);
    board.set_at(idx, CellContents::Occupied(8));
    assert!(!board.is_empty_at(idx));
    assert_eq!(board.value_at(idx), 8);
    board.clear_at(idx);
    assert!(board.is_empty_at(idx));
}

#[test]
fn merge_single_pass_three_equal() {
    // A line of three equal values merges exactly one adjacent pair.
    let mut board = Board::new();
    set_row(&mut board, 0, [Some(2), Some(2), Some(2), None]);
    board.press(Direction::Left);
    assert_eq!(row_values(&board, 0), [Some(4), Some(2), None, None]);
}

#[test]
fn merge_single_pass_four_equal() {
    let mut board = Board::new();
    set_row(&mut board, 2, [Some(2), Some(2), Some(2), Some(2)]);
    board.press(Direction::Left);
    assert_eq!(row_values(&board, 2), [Some(4), Some(4), None, None]);
}

#[test]
fn press_left_compact_merge_compact() {
    // [2, 2, 4, _] pressed Left: merge the 2s, then close the gap.
    let mut board = Board::new();
    set_row(&mut board, 1, [Some(2), Some(2), Some(4), None]);
    board.press(Direction::Left);
    assert_eq!(row_values(&board, 1), [Some(4), Some(4), None, None]);
}

#[test]
fn press_right_compact_merge_compact() {
    // [_, 2, _, 2] pressed Right compacts to [_, _, 2, 2], merges to 4.
    let mut board = Board::new();
    set_row(&mut board, 3, [None, Some(2), None, Some(2)]);
    board.press(Direction::Right);
    assert_eq!(row_values(&board, 3), [None, None, None, Some(4)]);
}

#[test]
fn press_no_remerge_of_merged_tile() {
    // "16 16 16 4" becomes "32 16 4 _": the fresh 32 does not grab the
    // remaining 16, and the 16 does not pair with the 4.
    let mut board = Board::new();
    set_row(&mut board, 0, [Some(16), Some(16), Some(16), Some(4)]);
    board.press(Direction::Left);
    assert_eq!(row_values(&board, 0), [Some(32), Some(16), Some(4), None]);
}

#[test]
fn compaction_keeps_relative_order() {
    let mut board = Board::new();
    set_row(&mut board, 0, [None, Some(2), None, Some(4)]);
    set_row(&mut board, 3, [Some(8), None, None, Some(2)]);
    board.press(Direction::Left);
    assert_eq!(row_values(&board, 0), [Some(2), Some(4), None, None]);
    assert_eq!(row_values(&board, 3), [Some(8), Some(2), None, None]);
}

#[test]
fn press_up_merges_column() {
    let mut board = Board::new();
    set_col(&mut board, 1, [None, Some(2), Some(2), None]);
    board.press(Direction::Up);
    assert_eq!(col_values(&board, 1), [Some(4), None, None, None]);
}

#[test]
fn press_down_merges_column() {
    let mut board = Board::new();
    set_col(&mut board, 2, [Some(4), None, Some(4), Some(8)]);
    board.press(Direction::Down);
    assert_eq!(col_values(&board, 2), [None, None, Some(8), Some(8)]);
}

#[test]
fn press_conserves_total_value() {
    let mut board = Board::new();
    set_row(&mut board, 0, [Some(2), Some(2), Some(4), Some(8)]);
    set_row(&mut board, 1, [None, Some(4), Some(4), None]);
    set_row(&mut board, 2, [Some(16), None, None, Some(16)]);
    let before = total(&board);
    board.press(Direction::Left);
    assert_eq!(total(&board), before);
    board.press(Direction::Down);
    assert_eq!(total(&board), before);
    board.press(Direction::Right);
    assert_eq!(total(&board), before);
    board.press(Direction::Up);
    assert_eq!(total(&board), before);
}

#[test]
fn press_without_merges_conserves_total_value() {
    let mut board = Board::new();
    set_row(&mut board, 0, [None, Some(2), Some(4), None]);
    set_row(&mut board, 2, [Some(8), None, Some(2), None]);
    let before = total(&board);
    board.press(Direction::Right);
    assert_eq!(total(&board), before);
    assert_eq!(row_values(&board, 0), [None, None, Some(2), Some(4)]);
    assert_eq!(row_values(&board, 2), [None, None, Some(8), Some(2)]);
}

#[test]
fn second_press_same_direction_is_noop() {
    // After one press the board is compacted; with no equal neighbours
    // left, pressing the same way again changes nothing.
    let mut board = Board::new();
    set_row(&mut board, 0, [None, Some(2), Some(4), None]);
    set_row(&mut board, 1, [Some(8), None, None, Some(2)]);
    board.press(Direction::Left);
    let first = snapshot(&board);
    board.press(Direction::Left);
    assert_eq!(snapshot(&board), first);
}

#[test]
fn is_full_detects_every_cell_occupied() {
    let mut board = Board::new();
    for idx in 0..NUM_CELLS {
        assert!(!board.is_full());
        board.set_at(idx, CellContents::Occupied(2));
    }
    assert!(board.is_full());
    board.clear_at(5);
    assert!(!board.is_full());
}

#[test]
fn empty_resets_every_cell() {
    let mut board = Board::new();
    for idx in 0..NUM_CELLS {
        board.set_at(idx, CellContents::Occupied(4));
    }
    board.empty();
    assert_eq!(occupied_count(&board), 0);
    assert!(!board.is_full());
}

#[test]
fn spawn_adds_exactly_one_tile_of_two_or_four() {
    let mut board = Board::new();
    board.set_at(0, CellContents::Occupied(8));
    assert_eq!(board.spawn_tile(), Ok(()));
    assert_eq!(occupied_count(&board), 2);
    let mut spawned_value = None;
    for idx in 1..NUM_CELLS {
        if !board.is_empty_at(idx) {
            spawned_value = Some(board.value_at(idx));
        }
    }
    assert!(spawned_value == Some(2) || spawned_value == Some(4));
    assert_eq!(board.value_at(0), 8);
}

#[test]
fn spawn_on_full_board_is_an_error() {
    let mut board = Board::new();
    for idx in 0..NUM_CELLS {
        board.set_at(idx, CellContents::Occupied(2));
    }
    let before = snapshot(&board);
    assert_eq!(board.spawn_tile(), Err(NoEmptyCellError));
    assert_eq!(snapshot(&board), before);
}

#[test]
fn spawn_reaches_every_cell_and_both_values() {
    // Uniform choice over empty cells: over many spawns onto a fresh
    // board every cell is hit and both values appear.
    let mut seen_cell = [false; 16];
    let mut seen_two = false;
    let mut seen_four = false;
    for _ in 0..1600 {
        let mut board = Board::new();
        board.spawn_tile_in_random_location();
        for idx in 0..NUM_CELLS {
            match board.contents_at(idx) {
                CellContents::Empty => {}
                CellContents::Occupied(v) => {
                    seen_cell[idx] = true;
                    if v == 2 {
                        seen_two = true;
                    }
                    if v == 4 {
                        seen_four = true;
                    }
                }
            }
        }
    }
    assert!(seen_cell.iter().all(|&s| s));
    assert!(seen_two && seen_four);
}

#[test]
fn start_game_seeds_two_tiles() {
    let mut board = Board::new();
    set_row(&mut board, 0, [Some(2), Some(4), Some(8), Some(16)]);
    board.start_game();
    assert_eq!(occupied_count(&board), 2);
    for idx in 0..NUM_CELLS {
        match board.contents_at(idx) {
            CellContents::Empty => {}
            CellContents::Occupied(v) => assert!(v == 2 || v == 4),
        }
    }
}

#[test]
fn full_board_after_press_resets_and_reseeds() {
    // Sixteen distinct values: the press moves and merges nothing, the
    // board stays full, and the turn ends the round: empty, then spawn
    // twice, leaving exactly two occupied cells.
    let mut board = Board::new();
    let mut value = 2;
    for idx in 0..NUM_CELLS {
        board.set_at(idx, CellContents::Occupied(value));
        value *= 2;
    }
    let game_over = board.take_turn(Direction::Left);
    assert!(game_over);
    assert_eq!(occupied_count(&board), 2);
    for idx in 0..NUM_CELLS {
        match board.contents_at(idx) {
            CellContents::Empty => {}
            CellContents::Occupied(v) => assert!(v == 2 || v == 4),
        }
    }
}

#[test]
fn turn_on_open_board_spawns_one_tile() {
    let mut board = Board::new();
    set_row(&mut board, 0, [Some(2), None, None, None]);
    let game_over = board.take_turn(Direction::Left);
    assert!(!game_over);
    assert_eq!(occupied_count(&board), 2);
}

#[test]
fn index_groups_match_the_layout() {
    let board = Board::new();
    let by_row = board.cell_indexes_by_row();
    let by_col = board.cell_indexes_by_col();
    assert_eq!(by_row.len(), 4);
    assert_eq!(by_col.len(), 4);
    for r in 0..4 {
        for c in 0..4 {
            assert_eq!(by_row[r][c], r + c * 4);
            assert_eq!(by_col[c][r], r + c * 4);
            assert_eq!(Board::index_of(c, r), r + c * 4);
        }
    }
}
