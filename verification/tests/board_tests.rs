use neatlight::game::Board;

#[test]
fn test_board_new_is_square_of_zeros() {
    let board = Board::new(9);
    assert_eq!(board.board.len(), 3);
    for row in &board.board {
        assert_eq!(row.len(), 3);
        for col in row {
            assert_eq!(*col, 0);
        }
    }
    assert_eq!(board.last_chosen, (0, 0));
}

#[test]
fn test_board_new_drops_partial_row() {
    let board = Board::new(10);
    assert_eq!(board.board.len(), 3);
    for row in &board.board {
        assert_eq!(row.len(), 3);
    }
}

#[test]
fn test_update_tile_toggles() {
    let mut board = Board::new(9);
    assert!(board.update_tile(4));
    assert_eq!(board.board[1][1], 1);
    assert!(!board.update_tile(4));
    assert_eq!(board.board[1][1], 0);
}

#[test]
fn test_check_finish_counts() {
    let mut board = Board::new(4);
    let (done, total) = board.check_finish();
    assert!(!done);
    assert_eq!(total, 0);
    board.update_tile(0);
    board.update_tile(3);
    let (done, total) = board.check_finish();
    assert!(!done);
    assert_eq!(total, 2);
    board.update_tile(1);
    board.update_tile(2);
    let (done, total) = board.check_finish();
    assert!(done);
    assert_eq!(total, 4);
}
