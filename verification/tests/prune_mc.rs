use shapeshifter::model::bitboard::Bitboard;
use shapeshifter::model::board::Board;
use shapeshifter::model::piece::Piece;
use shapeshifter::solver::prune::jaggedness::JaggednessPrune;
use shapeshifter::solver::prune::mc::{precompute_mc, McLevel, McPrune};
use shapeshifter::solver::pruning::monte_carlo::HitCounter;

fn level(hits: Vec<u8>, deficit: Vec<u32>, jagg: Vec<u32>, rev_deficit: Vec<u32>, rev_jagg: Vec<u32>) -> McLevel {
    McLevel {
        max_hits_at_depth: hits,
        max_deficit_at_depth: deficit,
        max_jagg_at_depth: jagg,
        rev_max_deficit: rev_deficit,
        rev_max_jagg: rev_jagg,
    }
}

#[test]
fn mc_levels_for_a_piece_without_placements() {
    let board = Board::new_solved(3, 3, 3);
    let placements: Vec<Vec<(usize, usize, Bitboard)>> = vec![Vec::new(), Vec::new()];
    let levels = precompute_mc(&board, &placements, 3);
    assert_eq!(levels.len(), 1);
    assert_eq!(levels[0].max_hits_at_depth, vec![0, 0, 0]);
    assert_eq!(levels[0].max_deficit_at_depth, vec![u32::MAX; 3]);
    assert_eq!(levels[0].max_jagg_at_depth, vec![u32::MAX; 3]);
    assert_eq!(levels[0].rev_max_deficit, vec![u32::MAX; 3]);
    assert_eq!(levels[0].rev_max_jagg, vec![u32::MAX; 3]);
}

#[test]
fn mc_levels_have_an_entry_per_depth_and_an_open_last_level() {
    let board = Board::from_grid(&[&[1, 1, 0], &[0, 1, 0], &[0, 0, 0]], 2);
    let pieces = [Piece::from_grid(&[&[true, true]]), Piece::from_grid(&[&[true]])];
    let placements = vec![pieces[0].placements(3, 3), pieces[1].placements(3, 3)];
    let levels = precompute_mc(&board, &placements, 2);
    assert!(!levels.is_empty());
    for l in &levels {
        assert_eq!(l.max_hits_at_depth.len(), 3);
        assert_eq!(l.max_deficit_at_depth.len(), 3);
        assert_eq!(l.max_jagg_at_depth.len(), 3);
        assert_eq!(l.rev_max_deficit.len(), 3);
        assert_eq!(l.rev_max_jagg.len(), 3);
        // Every forward sample starts from the board itself.
        assert!(l.max_deficit_at_depth[0] >= board.total_deficit());
    }
    let last = levels.last().unwrap();
    assert!(last.max_jagg_at_depth.iter().all(|&j| j == u32::MAX));
    assert!(last.rev_max_deficit.iter().all(|&d| d == u32::MAX));
    // Final hit thresholds grow strictly from level to level.
    for pair in levels.windows(2) {
        assert!(pair[0].max_hits_at_depth[2] < pair[1].max_hits_at_depth[2]);
    }
}

#[test]
fn mc_hit_threshold_reads_the_level_in_use() {
    let open = vec![u32::MAX; 2];
    let prune = McPrune {
        levels: vec![
            level(vec![0, 2], open.clone(), open.clone(), open.clone(), open.clone()),
            level(vec![0, 3], open.clone(), open.clone(), open.clone(), open.clone()),
        ],
        level_idx: 0,
        n_pieces: 1,
    };
    let mut hits = HitCounter::new();
    hits.apply_piece(Bitboard::from_bit(4));
    hits.apply_piece(Bitboard::from_bit(4));
    // Two hits reach the threshold of 2: false prunes the placement.
    assert!(!prune.exceeds_hit_threshold(&hits, 1));
    // A threshold of 0 checks nothing.
    assert!(prune.exceeds_hit_threshold(&hits, 0));
    let wider = McPrune { level_idx: 1, ..prune };
    assert!(wider.exceeds_hit_threshold(&hits, 1));
}

#[test]
fn mc_try_prune_checks_deficit_bounds() {
    let board = Board::from_grid(&[&[1, 0, 0], &[0, 0, 0], &[0, 0, 0]], 2);
    let pieces = [Piece::from_grid(&[&[true]])];
    let jagg = JaggednessPrune::precompute(&pieces, &[0], 3, 3);
    let open = vec![u32::MAX; 2];
    let allowing = McPrune {
        levels: vec![level(vec![0, 0], open.clone(), open.clone(), open.clone(), open.clone())],
        level_idx: 0,
        n_pieces: 1,
    };
    assert!(allowing.try_prune::<2>(&board, 0, &jagg, 2));
    // A forward deficit bound of 0 at depth 0 rejects a board with deficit 1.
    let forward = McPrune {
        levels: vec![level(vec![0, 0], vec![0, u32::MAX], open.clone(), open.clone(), open.clone())],
        level_idx: 0,
        n_pieces: 1,
    };
    assert!(!forward.try_prune::<2>(&board, 0, &jagg, 2));
    // The reverse bound is read by pieces still to place: one here.
    let reverse = McPrune {
        levels: vec![level(vec![0, 0], open.clone(), open.clone(), vec![u32::MAX, 0], open.clone())],
        level_idx: 0,
        n_pieces: 1,
    };
    assert!(!reverse.try_prune::<2>(&board, 0, &jagg, 2));
    // A jaggedness bound of 0 rejects a board with one raised cell.
    let jagged = McPrune {
        levels: vec![level(vec![0, 0], open.clone(), vec![0, u32::MAX], open.clone(), open.clone())],
        level_idx: 0,
        n_pieces: 1,
    };
    assert!(!jagged.try_prune::<2>(&board, 0, &jagg, 2));
}
