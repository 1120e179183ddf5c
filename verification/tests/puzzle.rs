use shapeshifter::puzzle::PuzzleJson;
use shapeshifter::solver::solve;

#[test]
fn puzzle_builds_its_game() {
    let puzzle = PuzzleJson {
        level: 3,
        m: 3,
        rows: 3,
        columns: 4,
        board: vec![vec![0, 1, 2, 0], vec![2, 1, 0, 0], vec![1, 0, 2, 1]],
        pieces: vec![vec![vec![true, false], vec![true, true]], vec![vec![true]]],
        icons: Vec::new(),
    };
    let game = puzzle.to_game();
    assert_eq!(game.board().height(), 3);
    assert_eq!(game.board().width(), 4);
    assert_eq!(game.board().m(), 3);
    assert_eq!(game.board().get(0, 2), 2);
    assert_eq!(game.board().get(2, 3), 1);
    assert_eq!(game.pieces().len(), 2);
    assert_eq!(game.pieces()[0].height(), 2);
    assert_eq!(game.pieces()[0].cell_count(), 3);
    assert!(!game.pieces()[0].shape().get_bit(1));
    assert!(game.pieces()[0].shape().get_bit(16));
    assert_eq!(game.next_index(), 0);
}

#[test]
fn puzzle_game_is_solved_when_solvable() {
    let puzzle = PuzzleJson {
        level: 1,
        m: 2,
        rows: 3,
        columns: 3,
        board: vec![vec![1, 1, 0], vec![0, 0, 0], vec![0, 0, 0]],
        pieces: vec![vec![vec![true, true]]],
        icons: vec!["domino".to_string()],
    };
    let game = puzzle.to_game();
    let solution = solve(&game, false, false).solution.unwrap();
    assert_eq!(solution, vec![(0, 0)]);
}
