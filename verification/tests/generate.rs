use rand::rngs::SmallRng;
use rand::SeedableRng;
use shapeshifter::generate::{catalog_entry, generate_for_level, generate_game, is_known_shape, random_piece, SHAPE_COUNT};
use shapeshifter::level::LevelSpec;
use shapeshifter::model::piece::Piece;
use shapeshifter::solver::solve;

fn seeded_rng() -> SmallRng {
    SmallRng::seed_from_u64(42)
}

fn catalog_piece(index: usize) -> Piece {
    let (_h, _w, rows, _r, _c) = catalog_entry(index);
    let refs: Vec<&[bool]> = rows.iter().map(|r| r.as_slice()).collect();
    Piece::from_grid(&refs)
}

fn spec(level: u32, shifts: u8, rows: u8, columns: u8, shapes: u8) -> LevelSpec {
    LevelSpec { level, shifts, rows, columns, shapes }
}

#[test]
fn test_shape_catalog_valid() {
    // Every catalog entry should produce a valid piece.
    for i in 0..SHAPE_COUNT {
        let (h, w, rows, _r, _c) = catalog_entry(i);
        let flat: Vec<bool> = rows.concat();
        assert_eq!(flat.len(), h as usize * w as usize, "catalog[{i}]: grid size mismatch");
        assert!(h >= 1 && h <= 5, "catalog[{i}]: bad height {h}");
        assert!(w >= 1 && w <= 5, "catalog[{i}]: bad width {w}");
        let grid: Vec<Vec<bool>> = flat.chunks(w as usize).map(|r| r.to_vec()).collect();
        let refs: Vec<&[bool]> = grid.iter().map(|r| r.as_slice()).collect();
        let piece = Piece::from_grid(&refs);
        assert!(piece.cell_count() >= 1, "catalog[{i}]: empty piece");
    }
}

#[test]
fn catalog_shapes_are_known_and_distinct() {
    for i in 0..SHAPE_COUNT {
        let piece = catalog_piece(i);
        assert!(is_known_shape(&piece));
        for j in 0..i {
            assert_ne!(catalog_piece(j), piece, "catalog[{j}] and catalog[{i}] coincide");
        }
    }
}

#[test]
fn catalog_first_and_last_entries() {
    let (h, w, rows, r, c) = catalog_entry(0);
    assert_eq!((h, w), (1, 1));
    assert_eq!(rows, vec![vec![true]]);
    assert_eq!((r, c), (0, 0));
    let (h, w, rows, r, c) = catalog_entry(SHAPE_COUNT - 1);
    assert_eq!((h, w), (5, 5));
    assert_eq!(rows[0], vec![true, true, false, false, false]);
    assert!(rows[r][c]);
    assert_eq!(catalog_piece(SHAPE_COUNT - 1).cell_count(), 14);
}

#[test]
fn unknown_shapes_are_rejected() {
    let line4 = Piece::from_grid(&[&[true, true, true, true]]);
    assert!(!is_known_shape(&line4));
    let full3 = Piece::from_grid(&[&[true, true, true], &[true, true, true], &[true, true, true]]);
    assert!(!is_known_shape(&full3));
    let unit = Piece::from_grid(&[&[true]]);
    assert!(is_known_shape(&unit));
}

#[test]
fn generated_game_matches_spec() {
    let mut rng = seeded_rng();
    let level = spec(1, 2, 3, 3, 2);
    let game = generate_game(&level, &mut rng);
    assert_eq!(game.board().height(), 3);
    assert_eq!(game.board().width(), 3);
    assert_eq!(game.board().m(), 2);
    assert_eq!(game.pieces().len(), 2);
    assert_eq!(game.next_index(), 0);
    for piece in game.pieces() {
        assert!(is_known_shape(piece));
        assert!(piece.height() <= 3 && piece.width() <= 3);
    }
}

#[test]
fn generated_large_game_matches_spec() {
    let mut rng = seeded_rng();
    let level = spec(100, 5, 14, 14, 36);
    let game = generate_game(&level, &mut rng);
    assert_eq!(game.board().height(), 14);
    assert_eq!(game.board().width(), 14);
    assert_eq!(game.board().m(), 5);
    assert_eq!(game.pieces().len(), 36);
    for piece in game.pieces() {
        assert!(is_known_shape(piece));
    }
}

#[test]
fn generated_games_are_solved_by_the_solver() {
    let mut rng = SmallRng::seed_from_u64(123);
    for (m, rows, columns, shapes) in [(2u8, 3u8, 3u8, 2u8), (3, 4, 4, 3), (4, 5, 5, 4), (5, 4, 6, 3)] {
        for _ in 0..2 {
            let game = generate_game(&spec(0, m, rows, columns, shapes), &mut rng);
            let solution = solve(&game, false, false).solution.expect("generated game has a solution");
            let mut board = *game.board();
            for (k, &(row, column)) in solution.iter().enumerate() {
                board.apply_piece(game.pieces()[k].placed_at(row, column));
            }
            assert!(board.is_solved());
        }
    }
}

#[test]
fn test_generated_game_has_solution() {
    let mut rng = seeded_rng();
    let level = spec(10, 3, 5, 5, 5);
    let mut nontrivial = 0;
    for _ in 0..20 {
        let game = generate_game(&level, &mut rng);
        if !game.board().is_solved() {
            nontrivial += 1;
        }
    }
    assert!(nontrivial > 15, "too many trivially solved games");
}

#[test]
fn generate_for_level_finds_the_level() {
    let levels = vec![spec(1, 2, 3, 3, 2), spec(2, 3, 4, 4, 3)];
    let mut rng = seeded_rng();
    let game = generate_for_level(&levels, 2, &mut rng).unwrap();
    assert_eq!(game.board().m(), 3);
    assert_eq!(game.board().height(), 4);
    assert_eq!(game.pieces().len(), 3);
    assert!(generate_for_level(&levels, 0, &mut rng).is_none());
    assert!(generate_for_level(&levels, 3, &mut rng).is_none());
}

#[test]
fn test_random_piece_bounds() {
    let mut rng = seeded_rng();
    for _ in 0..100 {
        let piece = random_piece(&mut rng, 5, 5);
        assert!(piece.height() <= 5);
        assert!(piece.width() <= 5);
        assert!(piece.cell_count() >= 1);
    }
}

#[test]
fn test_random_piece_respects_max() {
    let mut rng = seeded_rng();
    for _ in 0..100 {
        let piece = random_piece(&mut rng, 3, 3);
        assert!(piece.height() <= 3);
        assert!(piece.width() <= 3);
    }
}

#[test]
fn test_small_board_filters_large_pieces() {
    // A 3x3 board should never get pieces larger than 3x3.
    let mut rng = seeded_rng();
    for _ in 0..200 {
        let piece = random_piece(&mut rng, 3, 3);
        assert!(piece.height() <= 3);
        assert!(piece.width() <= 3);
    }
    // A 2x2 board should only get pieces that fit in 2x2.
    for _ in 0..200 {
        let piece = random_piece(&mut rng, 2, 2);
        assert!(piece.height() <= 2);
        assert!(piece.width() <= 2);
    }
}

#[test]
fn random_pieces_are_catalog_shapes() {
    let mut rng = SmallRng::seed_from_u64(7);
    for _ in 0..50 {
        let piece = random_piece(&mut rng, 4, 2);
        assert!(is_known_shape(&piece));
        assert!(piece.height() <= 4 && piece.width() <= 2);
    }
}
