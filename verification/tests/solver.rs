use shapeshifter::game::Game;
use shapeshifter::model::board::Board;
use shapeshifter::model::piece::Piece;
use shapeshifter::solver::solve;

fn verify_solution(game: &Game, solution: &[(usize, usize)]) {
    let mut board = *game.board();
    for (piece_index, &(row, column)) in solution.iter().enumerate() {
        let mask = game.pieces()[piece_index].placed_at(row, column);
        board.apply_piece(mask);
    }
    assert!(board.is_solved(), "solution did not solve the board");
}

#[test]
fn trivial_solve() {
    let grid: &[&[u8]] = &[&[1, 0, 0], &[0, 0, 0], &[0, 0, 0]];
    let board = Board::from_grid(grid, 2);
    let piece = Piece::from_grid(&[&[true]]);
    let game = Game::new(board, vec![piece]);
    let solution = solve(&game, false, false).solution.unwrap();
    assert_eq!(solution.len(), 1);
    assert_eq!(solution[0], (0, 0));
    verify_solution(&game, &solution);
}

#[test]
fn two_pieces() {
    let grid: &[&[u8]] = &[&[1, 1, 0], &[0, 0, 0], &[0, 0, 0]];
    let board = Board::from_grid(grid, 2);
    let piece = Piece::from_grid(&[&[true]]);
    let game = Game::new(board, vec![piece, piece]);
    let solution = solve(&game, false, false).solution.unwrap();
    assert_eq!(solution.len(), 2);
    verify_solution(&game, &solution);
}

#[test]
fn no_solution() {
    let grid: &[&[u8]] = &[&[1, 1, 1], &[1, 1, 1], &[1, 1, 1]];
    let board = Board::from_grid(grid, 3);
    let piece = Piece::from_grid(&[&[true]]);
    let game = Game::new(board, vec![piece]);
    assert!(solve(&game, false, false).solution.is_none());
}

#[test]
fn solves_single_cell_suffix() {
    let grid: &[&[u8]] = &[&[1, 1, 1], &[1, 1, 1], &[1, 1, 1]];
    let board = Board::from_grid(grid, 2);
    let piece = Piece::from_grid(&[&[true]]);
    let game = Game::new(board, vec![piece; 9]);
    let solution = solve(&game, false, false).solution.unwrap();
    assert_eq!(solution.len(), 9);
    verify_solution(&game, &solution);
}

#[test]
fn solves_single_cell_suffix_with_modulus_three() {
    let grid: &[&[u8]] = &[&[1, 2, 0], &[0, 0, 0], &[0, 0, 0]];
    let board = Board::from_grid(grid, 3);
    let piece = Piece::from_grid(&[&[true]]);
    let game = Game::new(board, vec![piece; 3]);
    let solution = solve(&game, false, false).solution.unwrap();
    assert_eq!(solution.len(), 3);
    verify_solution(&game, &solution);
}

#[test]
fn rejects_insufficient_single_cell_suffix() {
    let grid: &[&[u8]] = &[&[1, 1, 0], &[0, 0, 0], &[0, 0, 0]];
    let board = Board::from_grid(grid, 2);
    let piece = Piece::from_grid(&[&[true]]);
    let game = Game::new(board, vec![piece]);
    assert!(solve(&game, false, false).solution.is_none());
}

#[test]
fn solves_multi_cell_then_single_cell_piece() {
    let grid: &[&[u8]] = &[&[1, 1, 1], &[1, 0, 0], &[0, 0, 0]];
    let board = Board::from_grid(grid, 2);
    let l_shape = Piece::from_grid(&[&[true, true], &[true, false]]);
    let single_cell = Piece::from_grid(&[&[true]]);
    let game = Game::new(board, vec![l_shape, single_cell]);
    let solution = solve(&game, false, false).solution.unwrap();
    assert_eq!(solution.len(), 2);
    verify_solution(&game, &solution);
}

#[test]
fn rejects_insufficient_piece_cells() {
    let grid: &[&[u8]] = &[&[1, 1, 1], &[1, 1, 1], &[1, 1, 1]];
    let board = Board::from_grid(grid, 2);
    assert_eq!(board.total_deficit(), 9);
    let piece = Piece::from_grid(&[&[true]]);
    let game = Game::new(board, vec![piece]);
    assert!(solve(&game, false, false).solution.is_none());
}

#[test]
fn solution_maps_to_original_order() {
    let grid: &[&[u8]] = &[&[1, 1, 0], &[1, 0, 0], &[0, 0, 0]];
    let board = Board::from_grid(grid, 2);
    let single_cell = Piece::from_grid(&[&[true]]);
    let domino = Piece::from_grid(&[&[true, true]]);
    let game = Game::new(board, vec![single_cell, domino]);
    let solution = solve(&game, false, false).solution.unwrap();
    assert_eq!(solution.len(), 2);
    verify_solution(&game, &solution);
}

#[test]
fn rejects_piece_with_unavoidable_extra_cells() {
    let grid: &[&[u8]] = &[&[0, 0, 0], &[0, 0, 0], &[0, 0, 1]];
    let board = Board::from_grid(grid, 2);
    let piece = Piece::from_grid(&[&[true], &[true], &[true]]);
    let game = Game::new(board, vec![piece]);
    assert!(solve(&game, false, false).solution.is_none());
}

#[test]
fn exhaustive_search_keeps_the_first_solution() {
    let grid: &[&[u8]] = &[&[1, 1, 0], &[1, 1, 0], &[0, 0, 0]];
    let board = Board::from_grid(grid, 2);
    let piece = Piece::from_grid(&[&[true, true]]);
    let game = Game::new(board, vec![piece, piece]);
    let first = solve(&game, false, false).solution.unwrap();
    let exhaustive = solve(&game, false, true);
    assert!(exhaustive.nodes_visited >= 2);
    let solution = exhaustive.solution.unwrap();
    assert_eq!(solution, first);
    verify_solution(&game, &solution);
}

#[test]
fn solves_with_modulus_four_and_five() {
    for modulus in [4u8, 5u8] {
        let grid: &[&[u8]] = &[&[2, 1, 0], &[1, 1, 0], &[0, 0, 0]];
        let board = Board::from_grid(grid, modulus);
        let square = Piece::from_grid(&[&[true, true], &[true, true]]);
        let single = Piece::from_grid(&[&[true]]);
        let game = Game::new(board, vec![square, single]);
        let solution = solve(&game, false, false).solution.unwrap();
        verify_solution(&game, &solution);
        assert_eq!(solution[1], (0, 0));
    }
}


#[test]
fn solvable_games_bring_the_deficit_in_whole_turns() {
    // A solved game's pieces hold its deficit and whole turns of M besides.
    let grid: &[&[u8]] = &[&[2, 1, 0], &[1, 2, 0], &[0, 0, 0]];
    let board = Board::from_grid(grid, 3);
    let square = Piece::from_grid(&[&[true, true], &[true, true]]);
    let unit = Piece::from_grid(&[&[true]]);
    let bar = Piece::from_grid(&[&[true, true, true]]);
    let game = Game::new(board, vec![square, unit, unit, bar, bar, bar]);
    let solution = solve(&game, false, false).solution.expect("solvable");
    verify_solution(&game, &solution);
    let cells: u32 = game.pieces().iter().map(|p| p.cell_count()).sum();
    let deficit = game.board().total_deficit();
    assert_eq!(cells, 15);
    assert_eq!(deficit, 6);
    assert!(cells >= deficit);
    assert_eq!((cells - deficit) % 3, 0);
}
