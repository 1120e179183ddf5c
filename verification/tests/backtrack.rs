use shapeshifter::model::bitboard::Bitboard;
use shapeshifter::model::board::Board;
use shapeshifter::model::piece::Piece;
use shapeshifter::solver::anchor::{rank_low_zero_hit_placements, AnchorPlacementData};
use shapeshifter::solver::backtrack::{rank_placements, MAX_PLACEMENTS};

fn placement_keys(board: &Board, modulus: u8, mask: Bitboard) -> (u32, u32) {
    let zero_count = (mask & board.plane(0)).count_ones();
    let mut deficit = 0u32;
    for cell_deficit in 1..modulus {
        deficit += cell_deficit as u32 * (mask & board.plane(cell_deficit)).count_ones();
    }
    (zero_count, deficit)
}

#[test]
fn keeps_everything_when_budget_is_generous() {
    let grid: &[&[u8]] = &[&[1, 1, 0], &[0, 1, 0], &[0, 0, 1]];
    let board = Board::from_grid(grid, 2);
    let placements = Piece::from_grid(&[&[true, true]]).placements(3, 3);

    let mut ranked = [0u8; MAX_PLACEMENTS];
    let ranked_count = rank_placements(&board, 2, &placements, u32::MAX, &mut ranked);
    assert_eq!(ranked_count, placements.len());

    let mut seen: Vec<u8> = ranked[..ranked_count].to_vec();
    seen.sort();
    seen.dedup();
    assert_eq!(
        seen.len(),
        placements.len(),
        "every placement emitted exactly once"
    );
}

#[test]
fn emits_budget_prefix_in_sorted_order() {
    let grid: &[&[u8]] = &[&[1, 1, 0], &[0, 1, 0], &[0, 0, 1]];
    let board = Board::from_grid(grid, 2);
    let placements = Piece::from_grid(&[&[true, true]]).placements(3, 3);

    for budget in 0..=2u32 {
        let mut ranked = [0u8; MAX_PLACEMENTS];
        let ranked_count = rank_placements(&board, 2, &placements, budget, &mut ranked);

        let expected = placements
            .iter()
            .filter(|&&(_, _, mask)| placement_keys(&board, 2, mask).0 <= budget)
            .count();
        assert_eq!(ranked_count, expected, "budget {budget}");

        let mut previous_key = (0u32, u32::MAX);
        for &placement_index in &ranked[..ranked_count] {
            let key = placement_keys(&board, 2, placements[placement_index as usize].2);
            assert!(
                key.0 <= budget,
                "budget {budget}: over-budget placement emitted"
            );
            assert!(
                key.0 > previous_key.0 || (key.0 == previous_key.0 && key.1 <= previous_key.1),
                "budget {budget}: order violated at {key:?} after {previous_key:?}"
            );
            previous_key = key;
        }
    }
}

#[test]
fn zero_budget_on_a_solved_board_keeps_nothing() {
    let board = Board::new_solved(3, 3, 3);
    let placements = Piece::from_grid(&[&[true]]).placements(3, 3);
    let mut ranked = [0u8; MAX_PLACEMENTS];
    assert_eq!(rank_placements(&board, 3, &placements, 0, &mut ranked), 0);
}

#[test]
fn ranks_by_zero_hits_then_covered_deficit_then_index() {
    let grid: &[&[u8]] = &[&[2, 1, 0], &[0, 2, 0], &[0, 0, 0]];
    let board = Board::from_grid(grid, 3);
    let placements = Piece::from_grid(&[&[true]]).placements(3, 3);
    let mut ranked = [0u8; MAX_PLACEMENTS];
    let ranked_count = rank_placements(&board, 3, &placements, 1, &mut ranked);
    assert_eq!(ranked_count, 9);
    assert_eq!(&ranked[..ranked_count], &[0, 4, 1, 2, 3, 5, 6, 7, 8]);
}

#[test]
fn low_budget_anchor_rank_matches_generic_rank() {
    let pieces = [
        Piece::from_grid(&[&[false, true, false], &[true, true, true], &[false, true, false]]),
        Piece::from_grid(&[&[true, true, true, true, true]]),
        Piece::from_grid(&[&[true, true], &[true, false]]),
        Piece::from_grid(&[&[true], &[true]]),
    ];
    let mut random_state = 0x243f_6a88_85a3_08d3u64;
    for modulus in 2..=5u8 {
        for _ in 0..1_000 {
            let mut grid = [[0u8; 5]; 5];
            for row in &mut grid {
                for cell in row {
                    random_state = random_state
                        .wrapping_mul(6_364_136_223_846_793_005)
                        .wrapping_add(1_442_695_040_888_963_407);
                    *cell = (random_state % u64::from(modulus)) as u8;
                }
            }
            let rows = grid.iter().map(|row| row.as_slice()).collect::<Vec<_>>();
            let board = Board::from_grid(&rows, modulus);

            for piece in &pieces {
                let placements = piece.placements(5, 5);
                let anchors = AnchorPlacementData::precompute(&placements);
                for budget in 0..=2 {
                    let mut expected = [0u8; MAX_PLACEMENTS];
                    let expected_count = rank_placements(&board, modulus, &placements, budget, &mut expected);
                    let mut actual = [0u8; MAX_PLACEMENTS];
                    let actual_count =
                        rank_low_zero_hit_placements(&board, modulus, &placements, &anchors, budget, &mut actual);
                    assert_eq!(
                        &actual[..actual_count],
                        &expected[..expected_count],
                        "mismatch for M={modulus}, budget={budget}, piece={piece:?}"
                    );
                }
            }
        }
    }
}
