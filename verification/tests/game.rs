use shapeshifter::game::Game;
use shapeshifter::model::board::Board;
use shapeshifter::model::piece::Piece;

fn make_game() -> Game {
    let board = Board::new_solved(3, 3, 2);
    let p1 = Piece::from_grid(&[&[true]]);
    let p2 = Piece::from_grid(&[&[true]]);
    Game::new(board, vec![p1, p2])
}

#[test]
fn test_initial_state() {
    let game = make_game();
    assert_eq!(game.next_index(), 0);
    assert_eq!(game.remaining(), 2);
    assert!(!game.all_placed());
    assert!(!game.is_solved());
    assert!(game.next_piece().is_some());
}

#[test]
fn test_place_next() {
    let mut game = make_game();
    game.place_next(0, 0);
    assert_eq!(game.next_index(), 1);
    assert_eq!(game.remaining(), 1);
    assert_eq!(game.board().get(0, 0), 1);
}

#[test]
fn test_undo_last() {
    let mut game = make_game();
    game.place_next(0, 0);
    assert_eq!(game.board().get(0, 0), 1);
    game.undo_last(0, 0);
    assert_eq!(game.next_index(), 0);
    assert_eq!(game.remaining(), 2);
    assert_eq!(game.board().get(0, 0), 0);
}

#[test]
fn test_place_all_and_solve() {
    let mut game = make_game();
    game.place_next(0, 0);
    game.place_next(0, 0);
    assert!(game.all_placed());
    assert!(game.is_solved());
}

#[test]
fn test_place_all_unsolved() {
    let mut game = make_game();
    game.place_next(0, 0);
    game.place_next(1, 1);
    assert!(game.all_placed());
    assert!(!game.is_solved());
}

#[test]
fn test_next_piece_exhausted() {
    let mut game = make_game();
    game.place_next(0, 0);
    game.place_next(0, 0);
    assert!(game.next_piece().is_none());
}

#[test]
fn test_multi_cell_piece() {
    let board = Board::new_solved(3, 3, 2);
    let piece = Piece::from_grid(&[&[true, true], &[true, false]]);
    let mut game = Game::new(board, vec![piece, piece]);
    game.place_next(0, 0);
    assert_eq!(game.board().get(0, 0), 1);
    assert_eq!(game.board().get(0, 1), 1);
    assert_eq!(game.board().get(1, 0), 1);
    assert_eq!(game.board().get(1, 1), 0);
    game.undo_last(0, 0);
    assert_eq!(game.board().get(0, 0), 0);
    assert_eq!(game.board().get(0, 1), 0);
    assert_eq!(game.board().get(1, 0), 0);
}

#[test]
fn game_place_then_undo_restores_board() {
    let grid: &[&[u8]] = &[&[2, 1, 0], &[0, 1, 2], &[1, 1, 1]];
    let board = Board::from_grid(grid, 3);
    let piece = Piece::from_grid(&[&[true, true, true], &[false, true, false]]);
    let mut game = Game::new(board, vec![piece]);
    game.place_next(1, 0);
    assert_eq!(game.board().get(1, 0), 2);
    assert_eq!(game.board().get(1, 1), 0);
    assert_eq!(game.board().get(2, 1), 0);
    game.undo_last(1, 0);
    assert_eq!(*game.board(), board);
    assert_eq!(game.next_index(), 0);
    assert_eq!(game.pieces().len(), 1);
}

#[test]
fn game_board_mut_edits_the_board() {
    let mut game = make_game();
    game.board_mut().apply_piece(shapeshifter::model::bitboard::Bitboard::from_bit(16));
    assert_eq!(game.board().get(1, 1), 1);
    assert_eq!(game.next_index(), 0);
}
