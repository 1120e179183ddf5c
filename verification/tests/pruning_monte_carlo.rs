use shapeshifter::model::board::Board;
use shapeshifter::model::piece::Piece;
use shapeshifter::solver::pruning::jaggedness::JaggednessBound;
use shapeshifter::model::bitboard::Bitboard;
use shapeshifter::solver::pruning::monte_carlo::{levels_from_buckets, HitCounter, MonteCarloBounds};

#[test]
fn sampled_levels_allow_the_start_of_a_solvable_game() {
    let board = Board::from_grid(&[&[1, 1, 0], &[0, 1, 0], &[0, 0, 0]], 2);
    let pieces = [Piece::from_grid(&[&[true, true]]), Piece::from_grid(&[&[true]])];
    let placements = vec![pieces[0].placements(3, 3), pieces[1].placements(3, 3)];
    let jaggedness = JaggednessBound::precompute(&pieces, &[0, 1], 3, 3);
    let mut bounds = MonteCarloBounds::precompute(&board, &placements, 2);
    let levels = bounds.level_count();
    assert!(levels >= 1);
    // The widest level is selected first; it never rejects the starting board,
    // whose deficit and jaggedness every forward sample starts from.
    assert!(bounds.allows_state::<2>(&board, 0, &jaggedness));
    for level in 0..levels {
        bounds.select_level(level);
        assert!(bounds.allows_state::<2>(&board, 0, &jaggedness));
    }
}

#[test]
fn unsampleable_pieces_leave_one_unbounded_level() {
    let board = Board::new_solved(3, 3, 3);
    // A piece with no placement at all.
    let placements: Vec<Vec<(usize, usize, Bitboard)>> = vec![Vec::new()];
    let pieces = [Piece::from_grid(&[&[true]])];
    let jaggedness = JaggednessBound::precompute(&pieces, &[0], 3, 3);
    let bounds = MonteCarloBounds::precompute(&board, &placements, 3);
    assert_eq!(bounds.level_count(), 1);
    assert!(bounds.allows_state::<3>(&board, 0, &jaggedness));
}

#[test]
fn hit_counter_counts_modulo_32() {
    let mut hits = HitCounter::new();
    assert!(!hits.any_cell_gte(1));
    assert!(!hits.any_cell_gte(0));
    let cell = Bitboard::from_bit(17);
    for _ in 0..3 {
        hits.apply_piece(cell);
    }
    assert!(hits.any_cell_gte(1));
    assert!(hits.any_cell_gte(3));
    assert!(!hits.any_cell_gte(4));
    for _ in 0..28 {
        hits.apply_piece(cell);
    }
    // 31 hits: the largest count the planes hold.
    assert!(hits.any_cell_gte(31));
    assert!(!hits.any_cell_gte(32));
    assert!(!hits.any_cell_gte(200));
    hits.apply_piece(cell);
    // The 32nd hit wraps the count to 0.
    assert!(!hits.any_cell_gte(1));
    let mut both = HitCounter::new();
    both.apply_piece(Bitboard::from_bit(3));
    both.apply_piece(Bitboard::from_bit(4));
    assert!(both.any_cell_gte(1));
    assert!(!both.any_cell_gte(2));
}

#[test]
fn levels_have_strictly_increasing_final_hit_thresholds() {
    // Trials fall in buckets 2, 5 and 9; at the last depth a bucket's peak
    // hit count is its index.
    let mut counts = vec![0u32; 32];
    counts[2] = 50_000;
    counts[5] = 30_000;
    counts[9] = 20_000;
    let mut hits = vec![0u32; 64];
    for b in 0..32 {
        hits[32 + b] = b as u32;
    }
    let zeros = vec![0u32; 64];
    let reverse = vec![7u32; 2];
    let levels = levels_from_buckets(&counts, &hits, &zeros, &zeros, &reverse, &reverse, 1);
    let finals: Vec<u8> = levels.iter().map(|l| *l.max_hits_at_depth.last().unwrap()).collect();
    // 50th, 75th and 90th percentiles; the 95th repeats the 90th, and the
    // widest level takes its place.
    assert_eq!(finals, vec![3, 6, 10]);
    assert!(finals.windows(2).all(|w| w[0] < w[1]));
    assert_eq!(*levels[2].max_jaggedness_at_depth.last().unwrap(), u32::MAX);
}
