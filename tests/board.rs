use su::board::{Board, Coord, InputError, Move};

fn mv(row: i8, col: i8, val: i8) -> Move {
    match Move::new(row, col, val) {
        Ok(m) => m,
        Err(e) => panic!("bad move {:?}", e),
    }
}

fn at(row: i8, col: i8) -> Coord {
    match Coord::new(row, col) {
        Ok(c) => c,
        Err(e) => panic!("bad coord {:?}", e),
    }
}

fn diagonal() -> [[i8; 9]; 9] {
    [
        [1, 0, 0, 0, 0, 0, 0, 0, 0],
        [0, 2, 0, 0, 0, 0, 0, 0, 0],
        [0, 0, 3, 0, 0, 0, 0, 0, 0],
        [0, 0, 0, 4, 0, 0, 0, 0, 0],
        [0, 0, 0, 0, 5, 0, 0, 0, 0],
        [0, 0, 0, 0, 0, 6, 0, 0, 0],
        [0, 0, 0, 0, 0, 0, 7, 0, 0],
        [0, 0, 0, 0, 0, 0, 0, 8, 0],
        [0, 0, 0, 0, 0, 0, 0, 0, 9],
    ]
}

fn snapshot(board: &Board) -> Vec<i8> {
    let mut out = Vec::new();
    for r in 0..9 {
        for c in 0..9 {
            out.push(board.get_val(at(r, c)));
            out.push(board.count_legal_values_at(at(r, c)));
        }
    }
    out
}

#[test]
fn test_valid_board() {
    let valid_raw_board: [[i8; 9]; 9] = [
        [1, 0, 0, 0, 0, 0, 0, 0, 0],
        [0, 2, 0, 0, 0, 0, 0, 0, 0],
        [0, 0, 3, 0, 0, 0, 0, 0, 0],
        [0, 0, 0, 4, 0, 0, 0, 0, 0],
        [0, 0, 0, 0, 5, 0, 0, 0, 0],
        [0, 0, 0, 0, 0, 6, 0, 0, 0],
        [0, 0, 0, 0, 0, 0, 7, 0, 0],
        [0, 0, 0, 0, 0, 0, 0, 8, 0],
        [0, 0, 0, 0, 0, 0, 0, 0, 9],
    ];
    let board = Board::new_from_array(valid_raw_board);
    assert!(board.is_ok());
}

#[test]
fn empty_board_allows_everything() {
    let board = Board::new();
    for r in 0..9 {
        for c in 0..9 {
            assert_eq!(board.get_val(at(r, c)), 0);
            assert_eq!(board.count_legal_values_at(at(r, c)), 9);
        }
    }
    assert_eq!(board.list_legal_moves().len(), 729);
}

#[test]
fn placement_blocks_row_column_and_square() {
    let mut board = Board::new();
    assert!(board.put_if_legal(mv(0, 0, 5)));
    assert_eq!(board.get_val(at(0, 0)), 5);
    assert!(!board.is_move_legal(mv(0, 1, 5)));
    assert!(!board.is_move_legal(mv(1, 0, 5)));
    // (1, 1) lies in square 0 together with (0, 0)
    assert!(!board.is_move_legal(mv(1, 1, 5)));
    assert!(!board.is_move_legal(mv(2, 2, 5)));
    assert!(board.is_move_legal(mv(1, 3, 5)));
    assert!(board.is_move_legal(mv(4, 4, 5)));
    assert!(board.is_move_legal(mv(0, 1, 4)));
}

#[test]
fn diagonal_grid_is_kept() {
    let board = Board::new_from_array(diagonal()).unwrap();
    for r in 0..9i8 {
        for c in 0..9i8 {
            let expected = if r == c { r + 1 } else { 0 };
            assert_eq!(board.get_val(at(r, c)), expected);
        }
    }
    // row 0 holds 1, column 1 holds 2, square 0 holds 1, 2 and 3
    assert_eq!(board.count_legal_values_at(at(0, 1)), 6);
    // row 0 holds 1, column 8 holds 9, square 2 holds nothing
    assert_eq!(board.count_legal_values_at(at(0, 8)), 7);
    // (4, 4) holds 5; square 4 holds 4, 5 and 6
    assert_eq!(board.count_legal_values_at(at(4, 4)), 6);
}

#[test]
fn duplicate_in_row_keeps_first() {
    let mut grid = [[0i8; 9]; 9];
    grid[3][1] = 7;
    grid[3][6] = 7;
    let board = Board::new_from_array(grid).unwrap();
    assert_eq!(board.get_val(at(3, 1)), 7);
    assert_eq!(board.get_val(at(3, 6)), 0);
}

#[test]
fn duplicate_in_square_keeps_first() {
    let mut grid = [[0i8; 9]; 9];
    grid[6][6] = 2;
    grid[8][8] = 2;
    grid[8][7] = 3;
    let board = Board::new_from_array(grid).unwrap();
    assert_eq!(board.get_val(at(6, 6)), 2);
    assert_eq!(board.get_val(at(8, 8)), 0);
    assert_eq!(board.get_val(at(8, 7)), 3);
}

#[test]
fn out_of_range_grid_value_is_refused() {
    let mut grid = diagonal();
    grid[5][2] = 12;
    assert!(matches!(Board::new_from_array(grid), Err(InputError::ValueOutOfRange)));
    grid[5][2] = -1;
    assert!(matches!(Board::new_from_array(grid), Err(InputError::ValueOutOfRange)));
}

#[test]
fn out_of_range_move_is_refused() {
    assert!(matches!(Move::new(9, 0, 1), Err(InputError::CoordOutOfRange)));
    assert!(matches!(Move::new(0, -1, 1), Err(InputError::CoordOutOfRange)));
    assert!(matches!(Move::new(9, 0, 10), Err(InputError::CoordOutOfRange)));
    assert!(matches!(Move::new(0, 0, 10), Err(InputError::ValueOutOfRange)));
    assert!(matches!(Move::new(0, 0, -3), Err(InputError::ValueOutOfRange)));
    assert!(matches!(Coord::new(3, 9), Err(InputError::CoordOutOfRange)));
    assert!(matches!(Move::new_from_coord_and_value(at(2, 2), 11), Err(InputError::ValueOutOfRange)));
    let m = mv(8, 0, 0);
    assert_eq!(m.to_value(), 0);
    assert_eq!(m.to_coord().to_row(), 8);
    assert_eq!(m.to_coord().to_col(), 0);
}

#[test]
fn square_index() {
    assert_eq!(at(0, 0).to_square(), 0);
    assert_eq!(at(2, 2).to_square(), 0);
    assert_eq!(at(4, 7).to_square(), 5);
    assert_eq!(at(8, 3).to_square(), 7);
    assert_eq!(at(8, 8).to_square(), 8);
}

#[test]
fn same_value_again_changes_nothing() {
    let mut board = Board::new_from_array(diagonal()).unwrap();
    let before = snapshot(&board);
    assert!(!board.is_move_legal(mv(4, 4, 5)));
    assert!(!board.put_if_legal(mv(4, 4, 5)));
    assert_eq!(snapshot(&board), before);
    assert!(board.put_if_legal(mv(4, 3, 0)));
    assert_eq!(snapshot(&board), before);
}

#[test]
fn clear_then_restore() {
    let mut board = Board::new_from_array(diagonal()).unwrap();
    let before = snapshot(&board);
    assert!(board.put_if_legal(mv(4, 4, 0)));
    assert_eq!(board.get_val(at(4, 4)), 0);
    assert!(board.is_move_legal(mv(4, 0, 5)));
    assert_ne!(snapshot(&board), before);
    assert!(board.put_if_legal(mv(4, 4, 5)));
    assert_eq!(snapshot(&board), before);
}

#[test]
fn overwrite_frees_old_digit() {
    let mut board = Board::new();
    assert!(board.put_if_legal(mv(0, 0, 5)));
    assert!(!board.is_move_legal(mv(0, 8, 5)));
    assert!(board.put_if_legal(mv(0, 0, 3)));
    assert_eq!(board.get_val(at(0, 0)), 3);
    assert!(board.is_move_legal(mv(0, 8, 5)));
    assert!(board.is_move_legal(mv(8, 0, 5)));
    assert!(board.is_move_legal(mv(1, 1, 5)));
    assert!(!board.is_move_legal(mv(0, 8, 3)));
}

#[test]
fn duplicates_are_never_legal() {
    let board = Board::new_from_array(diagonal()).unwrap();
    assert!(!board.is_move_legal(mv(3, 0, 4)));
    assert!(!board.is_move_legal(mv(0, 3, 4)));
    assert!(!board.is_move_legal(mv(5, 4, 4)));
    assert!(board.is_move_legal(mv(6, 0, 4)));
    assert!(board.is_move_legal(mv(6, 0, 0)));
}

#[test]
fn count_matches_list() {
    let board = Board::new_from_array(diagonal()).unwrap();
    for r in 0..9 {
        for c in 0..9 {
            let listed = board.list_legal_moves_at(at(r, c));
            assert_eq!(board.count_legal_values_at(at(r, c)) as usize, listed.len());
        }
    }
    let listed = board.list_legal_moves_at(at(0, 1));
    let digits: Vec<i8> = listed.iter().map(|m| m.to_value()).collect();
    assert_eq!(digits, vec![4, 5, 6, 7, 8, 9]);
    for m in listed.iter() {
        assert_eq!(m.to_coord().to_row(), 0);
        assert_eq!(m.to_coord().to_col(), 1);
    }
}

#[test]
fn all_moves_in_row_major_order() {
    let board = Board::new_from_array(diagonal()).unwrap();
    let all = board.list_legal_moves();
    let mut total: usize = 0;
    for r in 0..9 {
        for c in 0..9 {
            total += board.count_legal_values_at(at(r, c)) as usize;
        }
    }
    assert_eq!(all.len(), total);
    let first = &all[0];
    assert_eq!(first.to_coord().to_row(), 0);
    assert_eq!(first.to_coord().to_col(), 0);
    let last = &all[all.len() - 1];
    assert_eq!(last.to_coord().to_row(), 8);
    assert_eq!(last.to_coord().to_col(), 8);
    let mut prev: i32 = -1;
    for m in all.iter() {
        let key = (m.to_coord().to_row() as i32) * 100 + (m.to_coord().to_col() as i32) * 10 + m.to_value() as i32;
        assert!(key > prev);
        prev = key;
    }
}
