use sudoku::Board;
use sudoku::topology::neighbors_of;

const ALL: u16 = 0x1ff;

fn mask_of(d: u8) -> u16 {
    1u16 << (d - 1)
}

/// A canonical complete Sudoku grid: cell (r, c) holds
/// `(r * 3 + r / 3 + c) % 9 + 1`.
fn full_grid() -> Vec<u8> {
    let mut g: Vec<u8> = Vec::new();
    for r in 0..9usize {
        for c in 0..9usize {
            g.push(((r * 3 + r / 3 + c) % 9 + 1) as u8);
        }
    }
    g
}

/// Reads the solved digit of each cell; panics if a cell is not a singleton.
fn digits_of(b: &Board) -> Vec<u8> {
    let mut out: Vec<u8> = Vec::new();
    for &m in b.tiles().iter() {
        assert!(m != 0 && m & (m - 1) == 0, "cell is not solved");
        let mut d: u8 = 0;
        let mut v = m;
        while v != 1 {
            v >>= 1;
            d += 1;
        }
        out.push(d + 1);
    }
    out
}

/// Asserts that a solved board is a complete valid Sudoku: every row,
/// column, and 3x3 box holds each digit 1..=9 exactly once.
fn assert_complete(b: &Board) {
    let d = digits_of(b);
    for unit in 0..9usize {
        let mut row = [0usize; 10];
        let mut col = [0usize; 10];
        let mut boxx = [0usize; 10];
        for t in 0..9usize {
            row[d[unit * 9 + t] as usize] += 1;
            col[d[t * 9 + unit] as usize] += 1;
            let r = (unit / 3) * 3 + t / 3;
            let c = (unit % 3) * 3 + t % 3;
            boxx[d[r * 9 + c] as usize] += 1;
        }
        for digit in 1..10usize {
            assert_eq!(row[digit], 1, "row {} digit {}", unit, digit);
            assert_eq!(col[digit], 1, "col {} digit {}", unit, digit);
            assert_eq!(boxx[digit], 1, "box {} digit {}", unit, digit);
        }
    }
}

#[test]
fn new_board_has_all_candidates() {
    let b = Board::new();
    assert_eq!(b.tiles().len(), 81);
    for &m in b.tiles().iter() {
        assert_eq!(m, ALL);
    }
}

#[test]
fn from_tiles_pins_clue_cells() {
    let mut clues = vec![0u8; 81];
    clues[0] = 5;
    clues[40] = 1;
    clues[80] = 9;
    let b = Board::from_tiles(clues);
    assert_eq!(b.tiles()[0], mask_of(5));
    assert_eq!(b.tiles()[40], mask_of(1));
    assert_eq!(b.tiles()[80], mask_of(9));
}

#[test]
fn assignment_eliminates_candidate_from_peers() {
    let mut b = Board::new();
    assert!(b.set(0, 5));
    // row, column, and box peers of cell 0 lose digit 5
    assert_eq!(b.tiles()[1], ALL & !mask_of(5));
    assert_eq!(b.tiles()[8], ALL & !mask_of(5));
    assert_eq!(b.tiles()[9], ALL & !mask_of(5));
    assert_eq!(b.tiles()[72], ALL & !mask_of(5));
    assert_eq!(b.tiles()[10], ALL & !mask_of(5));
    // a cell sharing nothing with cell 0 is untouched
    assert_eq!(b.tiles()[40], ALL);
}

#[test]
fn cascade_solves_naked_single() {
    let mut b = Board::new();
    for c in 0..8u8 {
        assert!(b.set(c as usize, c + 1));
    }
    // the last cell of the row is forced to 9 by propagation alone
    assert_eq!(b.tiles()[8], mask_of(9));
}

#[test]
fn round_trip_known_puzzle() {
    let solution = full_grid();
    let mut puzzle = solution.clone();
    // blank one cell per row, all in distinct columns: each blank is the
    // only one in its row and column, so the solution is unique
    for (r, c) in [(0, 0), (1, 4), (2, 8), (3, 1), (4, 5), (5, 7), (6, 2), (7, 6), (8, 3)] {
        puzzle[r * 9 + c] = 0;
    }
    let mut b = Board::from_tiles(puzzle);
    assert!(b.solve());
    assert_eq!(digits_of(&b), solution);
    assert_complete(&b);
}

#[test]
fn solve_already_complete_grid() {
    let solution = full_grid();
    let mut b = Board::from_tiles(solution.clone());
    assert!(b.solve());
    assert_eq!(digits_of(&b), solution);
}

#[test]
fn empty_board_is_solvable() {
    let mut b = Board::new();
    assert!(b.solve());
    assert_complete(&b);
}

#[test]
fn duplicate_digit_in_row_is_unsolvable() {
    // the clue 1 appears at both (0,0) and (0,1); all other clues are taken
    // from a valid grid (rows 1..=6 in full, rows 7 and 8 left blank), so
    // the duplicated digit is the only flaw: with the clues as given it
    // leaves a single column in which both remaining rows would have to
    // place their digit 1
    let grid = full_grid();
    let mut clues = vec![0u8; 81];
    clues[0] = 1;
    clues[1] = 1;
    for c in 2..9usize {
        clues[c] = grid[c];
    }
    for r in 1..7usize {
        for c in 0..9usize {
            clues[r * 9 + c] = grid[r * 9 + c];
        }
    }
    let mut b = Board::from_tiles(clues);
    assert!(!b.solve());
}

#[test]
fn direct_contradiction_fails_assignment() {
    let mut b = Board::new();
    assert!(b.set(0, 1));
    assert!(!b.set(1, 1));
}

#[test]
fn reassigning_held_digit_changes_nothing() {
    let mut clues = vec![0u8; 81];
    clues[10] = 7;
    clues[30] = 2;
    let mut b = Board::from_tiles(clues);
    let before: Vec<u16> = b.tiles().clone();
    assert!(b.set(10, 7));
    assert_eq!(b.tiles(), &before);
}

#[test]
fn masks_only_shrink_under_assignment() {
    let mut clues = vec![0u8; 81];
    clues[0] = 3;
    clues[20] = 8;
    let mut b = Board::from_tiles(clues);
    let before: Vec<u16> = b.tiles().clone();
    // digit 1 is still a candidate of cell 40 here
    assert!(before[40] & mask_of(1) != 0);
    assert!(b.set(40, 1));
    for i in 0..81usize {
        let after = b.tiles()[i];
        assert_eq!(after & before[i], after, "cell {} gained candidates", i);
    }
}

#[test]
fn set_mask_writes_singleton() {
    let mut b = Board::new();
    assert!(b.set_mask(40, mask_of(4)));
    assert_eq!(b.tiles()[40], mask_of(4));
    assert_eq!(b.tiles()[39], ALL & !mask_of(4));
}

#[test]
fn set_neighbors_mask_spreads_elimination() {
    let mut b = Board::new();
    assert!(b.set_mask(0, mask_of(6)));
    // propagating again from the solved cell changes nothing
    assert!(b.set_neighbors_mask(0, mask_of(6)));
    assert_eq!(b.tiles()[1], ALL & !mask_of(6));
}

#[test]
fn render_shows_solved_grid() {
    let b = Board::from_tiles(full_grid());
    let text = b.render();
    let lines: Vec<&str> = text.lines().collect();
    assert_eq!(lines.len(), 12);
    assert_eq!(lines[0], "------------------------------");
    assert_eq!(lines[1], "| 1 2 3 | 4 5 6 | 7 8 9 ");
    assert_eq!(lines[2], "| 4 5 6 | 7 8 9 | 1 2 3 ");
    assert_eq!(lines[5], "| 2 3 4 | 5 6 7 | 8 9 1 ");
}

#[test]
fn render_pads_undetermined_cells() {
    let mut b = Board::new();
    assert!(b.set(0, 5));
    let text = b.render();
    let lines: Vec<&str> = text.lines().collect();
    assert_eq!(lines.len(), 12);
    // peers of cell 0 lost digit 5; unrelated cells still show all nine
    // candidates, and every cell is right-aligned to width nine
    let solved = "        5 ";
    let peer = " 12346789 ";
    let full = "123456789 ";
    let row0 = format!(
        "| {}{}{}| {}{}{}| {}{}{}",
        solved, peer, peer, peer, peer, peer, peer, peer, peer
    );
    let row4 = format!(
        "| {}{}{}| {}{}{}| {}{}{}",
        peer, full, full, full, full, full, full, full, full
    );
    assert_eq!(lines[1], row0);
    assert_eq!(lines[6], row4);
}

#[test]
fn neighbor_list_matches_topology() {
    let n0 = neighbors_of(0);
    assert_eq!(n0.len(), 20);
    let mut sorted = n0.clone();
    sorted.sort();
    let expected: Vec<usize> = vec![
        1, 2, 3, 4, 5, 6, 7, 8, 9, 10, 11, 18, 19, 20, 27, 36, 45, 54, 63, 72,
    ];
    assert_eq!(sorted, expected);
    let n40 = neighbors_of(40);
    assert_eq!(n40.len(), 20);
    assert!(n40.contains(&39));
    assert!(n40.contains(&4));
    assert!(n40.contains(&30));
    assert!(!n40.contains(&40));
    assert!(!n40.contains(&0));
}
