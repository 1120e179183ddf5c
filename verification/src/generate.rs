//! Puzzle generation: the catalog of the game's piece shapes and random
//! games built backwards from a solved board.

use vstd::prelude::*;
use rand::rngs::SmallRng;
use crate::random::random_below;
use crate::game::{Game, covers, placement_fits, lemma_placement_in_board};
use crate::level::{LevelSpec, get_level};
use crate::model::board::{Board, undone_value};
use crate::model::piece::{Piece, in_box};
use crate::solver::backtrack::{hits, is_solution, placements_fit, lemma_mod_sub_residue};

verus! {

/// Number of shapes in the catalog.
pub const SHAPE_COUNT: usize = 75;

/// Shape `index` of the catalog: height, width and cells row by row.
pub open spec fn catalog_spec(index: usize) -> (u8, u8, Seq<Seq<bool>>) {
    match index {
        0usize => (1, 1, seq![seq![true]]),
        1usize => (1, 2, seq![seq![true, true]]),
        2usize => (2, 1, seq![seq![true], seq![true]]),
        3usize => (1, 3, seq![seq![true, true, true]]),
        4usize => (2, 2, seq![seq![false, true], seq![true, true]]),
        5usize => (2, 2, seq![seq![true, false], seq![true, true]]),
        6usize => (2, 2, seq![seq![true, true], seq![false, true]]),
        7usize => (2, 2, seq![seq![true, true], seq![true, false]]),
        8usize => (3, 1, seq![seq![true], seq![true], seq![true]]),
        9usize => (2, 2, seq![seq![true, true], seq![true, true]]),
        10usize => (2, 3, seq![seq![false, true, false], seq![true, true, true]]),
        11usize => (2, 3, seq![seq![true, true, false], seq![false, true, true]]),
        12usize => (2, 3, seq![seq![true, true, true], seq![false, true, false]]),
        13usize => (3, 2, seq![seq![false, true], seq![true, true], seq![false, true]]),
        14usize => (3, 2, seq![seq![true, false], seq![true, true], seq![false, true]]),
        15usize => (3, 2, seq![seq![true, false], seq![true, true], seq![true, false]]),
        16usize => (3, 2, seq![seq![true, true], seq![true, false], seq![true, false]]),
        17usize => (2, 3, seq![seq![false, true, true], seq![true, true, true]]),
        18usize => (2, 3, seq![seq![true, false, true], seq![true, true, true]]),
        19usize => (2, 3, seq![seq![true, true, true], seq![true, false, true]]),
        20usize => (3, 2, seq![seq![true, true], seq![false, true], seq![true, true]]),
        21usize => (3, 3, seq![seq![false, false, true], seq![false, false, true], seq![true, true, true]]),
        22usize => (3, 3, seq![seq![false, false, true], seq![false, true, true], seq![true, true, false]]),
        23usize => (3, 3, seq![seq![false, false, true], seq![true, true, true], seq![true, false, false]]),
        24usize => (3, 3, seq![seq![false, true, false], seq![true, true, true], seq![false, true, false]]),
        25usize => (3, 3, seq![seq![false, true, true], seq![false, true, false], seq![true, true, false]]),
        26usize => (3, 3, seq![seq![true, false, false], seq![true, true, false], seq![false, true, true]]),
        27usize => (3, 3, seq![seq![true, false, false], seq![true, true, true], seq![false, false, true]]),
        28usize => (3, 3, seq![seq![true, false, false], seq![true, true, true], seq![true, false, false]]),
        29usize => (3, 3, seq![seq![true, true, false], seq![false, true, false], seq![false, true, true]]),
        30usize => (3, 3, seq![seq![true, true, false], seq![false, true, true], seq![false, false, true]]),
        31usize => (3, 3, seq![seq![true, true, true], seq![true, false, false], seq![true, false, false]]),
        32usize => (3, 2, seq![seq![true, true], seq![true, true], seq![true, true]]),
        33usize => (3, 3, seq![seq![false, false, true], seq![false, true, true], seq![true, true, true]]),
        34usize => (3, 3, seq![seq![false, true, false], seq![true, true, true], seq![true, false, true]]),
        35usize => (3, 3, seq![seq![false, true, true], seq![false, true, false], seq![true, true, true]]),
        36usize => (3, 3, seq![seq![false, true, true], seq![false, true, true], seq![true, true, false]]),
        37usize => (3, 3, seq![seq![true, false, true], seq![true, true, true], seq![false, true, false]]),
        38usize => (3, 3, seq![seq![true, true, false], seq![false, true, true], seq![true, true, false]]),
        39usize => (3, 3, seq![seq![true, true, false], seq![true, true, false], seq![false, true, true]]),
        40usize => (3, 4, seq![seq![true, true, true, true], seq![true, false, false, false], seq![true, false, false, false]]),
        41usize => (4, 3, seq![seq![false, true, false], seq![true, true, false], seq![false, true, true], seq![false, true, false]]),
        42usize => (3, 3, seq![seq![true, false, true], seq![true, false, true], seq![true, true, true]]),
        43usize => (3, 3, seq![seq![true, false, true], seq![true, true, true], seq![true, false, true]]),
        44usize => (3, 3, seq![seq![true, true, true], seq![false, true, false], seq![true, true, true]]),
        45usize => (3, 4, seq![seq![false, true, false, false], seq![true, true, false, true], seq![false, true, true, true]]),
        46usize => (3, 4, seq![seq![false, true, true, false], seq![true, true, false, false], seq![false, true, true, true]]),
        47usize => (3, 4, seq![seq![false, true, true, true], seq![false, false, true, false], seq![true, true, true, false]]),
        48usize => (3, 4, seq![seq![true, true, true, false], seq![true, false, true, false], seq![false, false, true, true]]),
        49usize => (4, 3, seq![seq![true, true, false], seq![true, false, false], seq![true, true, true], seq![false, false, true]]),
        50usize => (3, 3, seq![seq![true, true, true], seq![true, false, true], seq![true, true, true]]),
        51usize => (3, 4, seq![seq![true, true, true, false], seq![true, false, true, true], seq![true, true, false, false]]),
        52usize => (4, 3, seq![seq![false, true, false], seq![true, true, true], seq![true, false, true], seq![true, false, true]]),
        53usize => (4, 3, seq![seq![false, true, true], seq![true, true, false], seq![false, true, true], seq![false, true, true]]),
        54usize => (4, 4, seq![seq![false, true, false, true], seq![true, true, true, true], seq![false, false, true, false], seq![false, false, true, false]]),
        55usize => (3, 4, seq![seq![true, false, false, true], seq![true, false, true, true], seq![true, true, true, true]]),
        56usize => (3, 4, seq![seq![true, true, false, true], seq![true, false, true, true], seq![true, true, true, false]]),
        57usize => (3, 4, seq![seq![true, true, true, false], seq![true, false, false, true], seq![true, true, true, true]]),
        58usize => (4, 4, seq![seq![false, true, true, true], seq![true, true, false, true], seq![false, true, false, false], seq![false, true, true, false]]),
        59usize => (4, 4, seq![seq![true, true, false, false], seq![true, false, false, false], seq![true, false, true, false], seq![true, true, true, true]]),
        60usize => (4, 4, seq![seq![true, true, true, false], seq![false, false, true, true], seq![true, true, true, false], seq![false, true, false, false]]),
        61usize => (4, 5, seq![seq![true, true, false, false, false], seq![false, true, true, true, false], seq![false, false, true, false, false], seq![false, false, true, true, true]]),
        62usize => (4, 4, seq![seq![false, true, false, true], seq![true, true, false, true], seq![false, true, true, true], seq![true, true, false, false]]),
        63usize => (4, 4, seq![seq![true, false, false, true], seq![true, false, true, true], seq![true, false, true, false], seq![true, true, true, false]]),
        64usize => (4, 4, seq![seq![true, true, false, true], seq![true, false, false, true], seq![true, true, true, true], seq![false, false, true, false]]),
        65usize => (4, 5, seq![seq![false, true, false, true, false], seq![true, true, true, true, true], seq![false, false, true, false, true], seq![false, false, true, false, false]]),
        66usize => (5, 4, seq![seq![false, true, false, false], seq![false, true, true, true], seq![false, false, true, false], seq![true, true, true, false], seq![true, false, true, false]]),
        67usize => (4, 4, seq![seq![true, true, false, true], seq![false, true, true, true], seq![true, true, true, false], seq![true, false, true, false]]),
        68usize => (4, 4, seq![seq![true, true, true, true], seq![true, false, true, true], seq![false, true, true, false], seq![false, false, true, true]]),
        69usize => (4, 5, seq![seq![false, true, false, false, false], seq![false, true, true, true, true], seq![true, true, false, true, false], seq![false, true, false, true, true]]),
        70usize => (5, 4, seq![seq![false, false, false, true], seq![true, false, true, true], seq![true, false, true, false], seq![true, true, true, false], seq![true, false, true, false]]),
        71usize => (5, 4, seq![seq![false, true, true, true], seq![true, true, true, true], seq![false, false, true, false], seq![false, true, true, false], seq![false, false, true, true]]),
        72usize => (4, 5, seq![seq![true, true, false, true, true], seq![false, true, true, false, true], seq![false, false, true, true, true], seq![true, true, true, false, false]]),
        73usize => (5, 5, seq![seq![true, true, false, false, false], seq![false, true, false, false, true], seq![false, true, false, true, true], seq![true, true, true, false, true], seq![false, false, true, true, true]]),
        _ => (5, 5, seq![seq![true, true, false, false, false], seq![false, true, true, false, true], seq![false, false, true, false, true], seq![true, false, true, true, true], seq![true, true, true, false, false]]),
    }
}

/// The rows of a shape, one after another in a single list.
pub open spec fn flatten(rows: Seq<Seq<bool>>) -> Seq<bool>
    decreases rows.len(),
{
    if rows.len() == 0 {
        Seq::empty()
    } else {
        flatten(rows.drop_last()) + rows.last()
    }
}
#[verifier::spinoff_prover]
proof fn lemma_catalog_part_0()
    ensures
        catalog_spec(0usize).0 == 1 && catalog_spec(0usize).1 == 1 && flatten(catalog_spec(0usize).2) == seq![true],
        catalog_spec(1usize).0 == 1 && catalog_spec(1usize).1 == 2 && flatten(catalog_spec(1usize).2) == seq![true, true],
        catalog_spec(2usize).0 == 2 && catalog_spec(2usize).1 == 1 && flatten(catalog_spec(2usize).2) == seq![true, true],
        catalog_spec(3usize).0 == 1 && catalog_spec(3usize).1 == 3 && flatten(catalog_spec(3usize).2) == seq![true, true, true],
        catalog_spec(4usize).0 == 2 && catalog_spec(4usize).1 == 2 && flatten(catalog_spec(4usize).2) == seq![false, true, true, true],
{
    reveal_with_fuel(flatten, 6);
    assert(flatten(catalog_spec(0usize).2) =~= seq![true]);
    assert(flatten(catalog_spec(1usize).2) =~= seq![true, true]);
    assert(flatten(catalog_spec(2usize).2) =~= seq![true, true]);
    assert(flatten(catalog_spec(3usize).2) =~= seq![true, true, true]);
    assert(flatten(catalog_spec(4usize).2) =~= seq![false, true, true, true]);
}

#[verifier::spinoff_prover]
proof fn lemma_catalog_part_1()
    ensures
        catalog_spec(5usize).0 == 2 && catalog_spec(5usize).1 == 2 && flatten(catalog_spec(5usize).2) == seq![true, false, true, true],
        catalog_spec(6usize).0 == 2 && catalog_spec(6usize).1 == 2 && flatten(catalog_spec(6usize).2) == seq![true, true, false, true],
        catalog_spec(7usize).0 == 2 && catalog_spec(7usize).1 == 2 && flatten(catalog_spec(7usize).2) == seq![true, true, true, false],
        catalog_spec(8usize).0 == 3 && catalog_spec(8usize).1 == 1 && flatten(catalog_spec(8usize).2) == seq![true, true, true],
        catalog_spec(9usize).0 == 2 && catalog_spec(9usize).1 == 2 && flatten(catalog_spec(9usize).2) == seq![true, true, true, true],
{
    reveal_with_fuel(flatten, 6);
    assert(flatten(catalog_spec(5usize).2) =~= seq![true, false, true, true]);
    assert(flatten(catalog_spec(6usize).2) =~= seq![true, true, false, true]);
    assert(flatten(catalog_spec(7usize).2) =~= seq![true, true, true, false]);
    assert(flatten(catalog_spec(8usize).2) =~= seq![true, true, true]);
    assert(flatten(catalog_spec(9usize).2) =~= seq![true, true, true, true]);
}

#[verifier::spinoff_prover]
proof fn lemma_catalog_part_2()
    ensures
        catalog_spec(10usize).0 == 2 && catalog_spec(10usize).1 == 3 && flatten(catalog_spec(10usize).2) == seq![false, true, false, true, true, true],
        catalog_spec(11usize).0 == 2 && catalog_spec(11usize).1 == 3 && flatten(catalog_spec(11usize).2) == seq![true, true, false, false, true, true],
        catalog_spec(12usize).0 == 2 && catalog_spec(12usize).1 == 3 && flatten(catalog_spec(12usize).2) == seq![true, true, true, false, true, false],
        catalog_spec(13usize).0 == 3 && catalog_spec(13usize).1 == 2 && flatten(catalog_spec(13usize).2) == seq![false, true, true, true, false, true],
        catalog_spec(14usize).0 == 3 && catalog_spec(14usize).1 == 2 && flatten(catalog_spec(14usize).2) == seq![true, false, true, true, false, true],
{
    reveal_with_fuel(flatten, 6);
    assert(flatten(catalog_spec(10usize).2) =~= seq![false, true, false, true, true, true]);
    assert(flatten(catalog_spec(11usize).2) =~= seq![true, true, false, false, true, true]);
    assert(flatten(catalog_spec(12usize).2) =~= seq![true, true, true, false, true, false]);
    assert(flatten(catalog_spec(13usize).2) =~= seq![false, true, true, true, false, true]);
    assert(flatten(catalog_spec(14usize).2) =~= seq![true, false, true, true, false, true]);
}

#[verifier::spinoff_prover]
proof fn lemma_catalog_part_3()
    ensures
        catalog_spec(15usize).0 == 3 && catalog_spec(15usize).1 == 2 && flatten(catalog_spec(15usize).2) == seq![true, false, true, true, true, false],
        catalog_spec(16usize).0 == 3 && catalog_spec(16usize).1 == 2 && flatten(catalog_spec(16usize).2) == seq![true, true, true, false, true, false],
        catalog_spec(17usize).0 == 2 && catalog_spec(17usize).1 == 3 && flatten(catalog_spec(17usize).2) == seq![false, true, true, true, true, true],
        catalog_spec(18usize).0 == 2 && catalog_spec(18usize).1 == 3 && flatten(catalog_spec(18usize).2) == seq![true, false, true, true, true, true],
        catalog_spec(19usize).0 == 2 && catalog_spec(19usize).1 == 3 && flatten(catalog_spec(19usize).2) == seq![true, true, true, true, false, true],
{
    reveal_with_fuel(flatten, 6);
    assert(flatten(catalog_spec(15usize).2) =~= seq![true, false, true, true, true, false]);
    assert(flatten(catalog_spec(16usize).2) =~= seq![true, true, true, false, true, false]);
    assert(flatten(catalog_spec(17usize).2) =~= seq![false, true, true, true, true, true]);
    assert(flatten(catalog_spec(18usize).2) =~= seq![true, false, true, true, true, true]);
    assert(flatten(catalog_spec(19usize).2) =~= seq![true, true, true, true, false, true]);
}

#[verifier::spinoff_prover]
proof fn lemma_catalog_part_4()
    ensures
        catalog_spec(20usize).0 == 3 && catalog_spec(20usize).1 == 2 && flatten(catalog_spec(20usize).2) == seq![true, true, false, true, true, true],
        catalog_spec(21usize).0 == 3 && catalog_spec(21usize).1 == 3 && flatten(catalog_spec(21usize).2) == seq![false, false, true, false, false, true, true, true, true],
        catalog_spec(22usize).0 == 3 && catalog_spec(22usize).1 == 3 && flatten(catalog_spec(22usize).2) == seq![false, false, true, false, true, true, true, true, false],
        catalog_spec(23usize).0 == 3 && catalog_spec(23usize).1 == 3 && flatten(catalog_spec(23usize).2) == seq![false, false, true, true, true, true, true, false, false],
        catalog_spec(24usize).0 == 3 && catalog_spec(24usize).1 == 3 && flatten(catalog_spec(24usize).2) == seq![false, true, false, true, true, true, false, true, false],
{
    reveal_with_fuel(flatten, 6);
    assert(flatten(catalog_spec(20usize).2) =~= seq![true, true, false, true, true, true]);
    assert(flatten(catalog_spec(21usize).2) =~= seq![false, false, true, false, false, true, true, true, true]);
    assert(flatten(catalog_spec(22usize).2) =~= seq![false, false, true, false, true, true, true, true, false]);
    assert(flatten(catalog_spec(23usize).2) =~= seq![false, false, true, true, true, true, true, false, false]);
    assert(flatten(catalog_spec(24usize).2) =~= seq![false, true, false, true, true, true, false, true, false]);
}

#[verifier::spinoff_prover]
proof fn lemma_catalog_part_5()
    ensures
        catalog_spec(25usize).0 == 3 && catalog_spec(25usize).1 == 3 && flatten(catalog_spec(25usize).2) == seq![false, true, true, false, true, false, true, true, false],
        catalog_spec(26usize).0 == 3 && catalog_spec(26usize).1 == 3 && flatten(catalog_spec(26usize).2) == seq![true, false, false, true, true, false, false, true, true],
        catalog_spec(27usize).0 == 3 && catalog_spec(27usize).1 == 3 && flatten(catalog_spec(27usize).2) == seq![true, false, false, true, true, true, false, false, true],
        catalog_spec(28usize).0 == 3 && catalog_spec(28usize).1 == 3 && flatten(catalog_spec(28usize).2) == seq![true, false, false, true, true, true, true, false, false],
        catalog_spec(29usize).0 == 3 && catalog_spec(29usize).1 == 3 && flatten(catalog_spec(29usize).2) == seq![true, true, false, false, true, false, false, true, true],
{
    reveal_with_fuel(flatten, 6);
    assert(flatten(catalog_spec(25usize).2) =~= seq![false, true, true, false, true, false, true, true, false]);
    assert(flatten(catalog_spec(26usize).2) =~= seq![true, false, false, true, true, false, false, true, true]);
    assert(flatten(catalog_spec(27usize).2) =~= seq![true, false, false, true, true, true, false, false, true]);
    assert(flatten(catalog_spec(28usize).2) =~= seq![true, false, false, true, true, true, true, false, false]);
    assert(flatten(catalog_spec(29usize).2) =~= seq![true, true, false, false, true, false, false, true, true]);
}

#[verifier::spinoff_prover]
proof fn lemma_catalog_part_6()
    ensures
        catalog_spec(30usize).0 == 3 && catalog_spec(30usize).1 == 3 && flatten(catalog_spec(30usize).2) == seq![true, true, false, false, true, true, false, false, true],
        catalog_spec(31usize).0 == 3 && catalog_spec(31usize).1 == 3 && flatten(catalog_spec(31usize).2) == seq![true, true, true, true, false, false, true, false, false],
        catalog_spec(32usize).0 == 3 && catalog_spec(32usize).1 == 2 && flatten(catalog_spec(32usize).2) == seq![true, true, true, true, true, true],
        catalog_spec(33usize).0 == 3 && catalog_spec(33usize).1 == 3 && flatten(catalog_spec(33usize).2) == seq![false, false, true, false, true, true, true, true, true],
        catalog_spec(34usize).0 == 3 && catalog_spec(34usize).1 == 3 && flatten(catalog_spec(34usize).2) == seq![false, true, false, true, true, true, true, false, true],
{
    reveal_with_fuel(flatten, 6);
    assert(flatten(catalog_spec(30usize).2) =~= seq![true, true, false, false, true, true, false, false, true]);
    assert(flatten(catalog_spec(31usize).2) =~= seq![true, true, true, true, false, false, true, false, false]);
    assert(flatten(catalog_spec(32usize).2) =~= seq![true, true, true, true, true, true]);
    assert(flatten(catalog_spec(33usize).2) =~= seq![false, false, true, false, true, true, true, true, true]);
    assert(flatten(catalog_spec(34usize).2) =~= seq![false, true, false, true, true, true, true, false, true]);
}

#[verifier::spinoff_prover]
proof fn lemma_catalog_part_7()
    ensures
        catalog_spec(35usize).0 == 3 && catalog_spec(35usize).1 == 3 && flatten(catalog_spec(35usize).2) == seq![false, true, true, false, true, false, true, true, true],
        catalog_spec(36usize).0 == 3 && catalog_spec(36usize).1 == 3 && flatten(catalog_spec(36usize).2) == seq![false, true, true, false, true, true, true, true, false],
        catalog_spec(37usize).0 == 3 && catalog_spec(37usize).1 == 3 && flatten(catalog_spec(37usize).2) == seq![true, false, true, true, true, true, false, true, false],
        catalog_spec(38usize).0 == 3 && catalog_spec(38usize).1 == 3 && flatten(catalog_spec(38usize).2) == seq![true, true, false, false, true, true, true, true, false],
        catalog_spec(39usize).0 == 3 && catalog_spec(39usize).1 == 3 && flatten(catalog_spec(39usize).2) == seq![true, true, false, true, true, false, false, true, true],
{
    reveal_with_fuel(flatten, 6);
    assert(flatten(catalog_spec(35usize).2) =~= seq![false, true, true, false, true, false, true, true, true]);
    assert(flatten(catalog_spec(36usize).2) =~= seq![false, true, true, false, true, true, true, true, false]);
    assert(flatten(catalog_spec(37usize).2) =~= seq![true, false, true, true, true, true, false, true, false]);
    assert(flatten(catalog_spec(38usize).2) =~= seq![true, true, false, false, true, true, true, true, false]);
    assert(flatten(catalog_spec(39usize).2) =~= seq![true, true, false, true, true, false, false, true, true]);
}

#[verifier::spinoff_prover]
proof fn lemma_catalog_part_8()
    ensures
        catalog_spec(40usize).0 == 3 && catalog_spec(40usize).1 == 4 && flatten(catalog_spec(40usize).2) == seq![true, true, true, true, true, false, false, false, true, false, false, false],
        catalog_spec(41usize).0 == 4 && catalog_spec(41usize).1 == 3 && flatten(catalog_spec(41usize).2) == seq![false, true, false, true, true, false, false, true, true, false, true, false],
        catalog_spec(42usize).0 == 3 && catalog_spec(42usize).1 == 3 && flatten(catalog_spec(42usize).2) == seq![true, false, true, true, false, true, true, true, true],
        catalog_spec(43usize).0 == 3 && catalog_spec(43usize).1 == 3 && flatten(catalog_spec(43usize).2) == seq![true, false, true, true, true, true, true, false, true],
        catalog_spec(44usize).0 == 3 && catalog_spec(44usize).1 == 3 && flatten(catalog_spec(44usize).2) == seq![true, true, true, false, true, false, true, true, true],
{
    reveal_with_fuel(flatten, 6);
    assert(flatten(catalog_spec(40usize).2) =~= seq![true, true, true, true, true, false, false, false, true, false, false, false]);
    assert(flatten(catalog_spec(41usize).2) =~= seq![false, true, false, true, true, false, false, true, true, false, true, false]);
    assert(flatten(catalog_spec(42usize).2) =~= seq![true, false, true, true, false, true, true, true, true]);
    assert(flatten(catalog_spec(43usize).2) =~= seq![true, false, true, true, true, true, true, false, true]);
    assert(flatten(catalog_spec(44usize).2) =~= seq![true, true, true, false, true, false, true, true, true]);
}

#[verifier::spinoff_prover]
proof fn lemma_catalog_part_9()
    ensures
        catalog_spec(45usize).0 == 3 && catalog_spec(45usize).1 == 4 && flatten(catalog_spec(45usize).2) == seq![false, true, false, false, true, true, false, true, false, true, true, true],
        catalog_spec(46usize).0 == 3 && catalog_spec(46usize).1 == 4 && flatten(catalog_spec(46usize).2) == seq![false, true, true, false, true, true, false, false, false, true, true, true],
        catalog_spec(47usize).0 == 3 && catalog_spec(47usize).1 == 4 && flatten(catalog_spec(47usize).2) == seq![false, true, true, true, false, false, true, false, true, true, true, false],
        catalog_spec(48usize).0 == 3 && catalog_spec(48usize).1 == 4 && flatten(catalog_spec(48usize).2) == seq![true, true, true, false, true, false, true, false, false, false, true, true],
        catalog_spec(49usize).0 == 4 && catalog_spec(49usize).1 == 3 && flatten(catalog_spec(49usize).2) == seq![true, true, false, true, false, false, true, true, true, false, false, true],
{
    reveal_with_fuel(flatten, 6);
    assert(flatten(catalog_spec(45usize).2) =~= seq![false, true, false, false, true, true, false, true, false, true, true, true]);
    assert(flatten(catalog_spec(46usize).2) =~= seq![false, true, true, false, true, true, false, false, false, true, true, true]);
    assert(flatten(catalog_spec(47usize).2) =~= seq![false, true, true, true, false, false, true, false, true, true, true, false]);
    assert(flatten(catalog_spec(48usize).2) =~= seq![true, true, true, false, true, false, true, false, false, false, true, true]);
    assert(flatten(catalog_spec(49usize).2) =~= seq![true, true, false, true, false, false, true, true, true, false, false, true]);
}

#[verifier::spinoff_prover]
proof fn lemma_catalog_part_10()
    ensures
        catalog_spec(50usize).0 == 3 && catalog_spec(50usize).1 == 3 && flatten(catalog_spec(50usize).2) == seq![true, true, true, true, false, true, true, true, true],
        catalog_spec(51usize).0 == 3 && catalog_spec(51usize).1 == 4 && flatten(catalog_spec(51usize).2) == seq![true, true, true, false, true, false, true, true, true, true, false, false],
        catalog_spec(52usize).0 == 4 && catalog_spec(52usize).1 == 3 && flatten(catalog_spec(52usize).2) == seq![false, true, false, true, true, true, true, false, true, true, false, true],
        catalog_spec(53usize).0 == 4 && catalog_spec(53usize).1 == 3 && flatten(catalog_spec(53usize).2) == seq![false, true, true, true, true, false, false, true, true, false, true, true],
        catalog_spec(54usize).0 == 4 && catalog_spec(54usize).1 == 4 && flatten(catalog_spec(54usize).2) == seq![false, true, false, true, true, true, true, true, false, false, true, false, false, false, true, false],
{
    reveal_with_fuel(flatten, 6);
    assert(flatten(catalog_spec(50usize).2) =~= seq![true, true, true, true, false, true, true, true, true]);
    assert(flatten(catalog_spec(51usize).2) =~= seq![true, true, true, false, true, false, true, true, true, true, false, false]);
    assert(flatten(catalog_spec(52usize).2) =~= seq![false, true, false, true, true, true, true, false, true, true, false, true]);
    assert(flatten(catalog_spec(53usize).2) =~= seq![false, true, true, true, true, false, false, true, true, false, true, true]);
    assert(flatten(catalog_spec(54usize).2) =~= seq![false, true, false, true, true, true, true, true, false, false, true, false, false, false, true, false]);
}

#[verifier::spinoff_prover]
proof fn lemma_catalog_part_11()
    ensures
        catalog_spec(55usize).0 == 3 && catalog_spec(55usize).1 == 4 && flatten(catalog_spec(55usize).2) == seq![true, false, false, true, true, false, true, true, true, true, true, true],
        catalog_spec(56usize).0 == 3 && catalog_spec(56usize).1 == 4 && flatten(catalog_spec(56usize).2) == seq![true, true, false, true, true, false, true, true, true, true, true, false],
        catalog_spec(57usize).0 == 3 && catalog_spec(57usize).1 == 4 && flatten(catalog_spec(57usize).2) == seq![true, true, true, false, true, false, false, true, true, true, true, true],
        catalog_spec(58usize).0 == 4 && catalog_spec(58usize).1 == 4 && flatten(catalog_spec(58usize).2) == seq![false, true, true, true, true, true, false, true, false, true, false, false, false, true, true, false],
        catalog_spec(59usize).0 == 4 && catalog_spec(59usize).1 == 4 && flatten(catalog_spec(59usize).2) == seq![true, true, false, false, true, false, false, false, true, false, true, false, true, true, true, true],
{
    reveal_with_fuel(flatten, 6);
    assert(flatten(catalog_spec(55usize).2) =~= seq![true, false, false, true, true, false, true, true, true, true, true, true]);
    assert(flatten(catalog_spec(56usize).2) =~= seq![true, true, false, true, true, false, true, true, true, true, true, false]);
    assert(flatten(catalog_spec(57usize).2) =~= seq![true, true, true, false, true, false, false, true, true, true, true, true]);
    assert(flatten(catalog_spec(58usize).2) =~= seq![false, true, true, true, true, true, false, true, false, true, false, false, false, true, true, false]);
    assert(flatten(catalog_spec(59usize).2) =~= seq![true, true, false, false, true, false, false, false, true, false, true, false, true, true, true, true]);
}

#[verifier::spinoff_prover]
proof fn lemma_catalog_part_12()
    ensures
        catalog_spec(60usize).0 == 4 && catalog_spec(60usize).1 == 4 && flatten(catalog_spec(60usize).2) == seq![true, true, true, false, false, false, true, true, true, true, true, false, false, true, false, false],
        catalog_spec(61usize).0 == 4 && catalog_spec(61usize).1 == 5 && flatten(catalog_spec(61usize).2) == seq![true, true, false, false, false, false, true, true, true, false, false, false, true, false, false, false, false, true, true, true],
        catalog_spec(62usize).0 == 4 && catalog_spec(62usize).1 == 4 && flatten(catalog_spec(62usize).2) == seq![false, true, false, true, true, true, false, true, false, true, true, true, true, true, false, false],
        catalog_spec(63usize).0 == 4 && catalog_spec(63usize).1 == 4 && flatten(catalog_spec(63usize).2) == seq![true, false, false, true, true, false, true, true, true, false, true, false, true, true, true, false],
        catalog_spec(64usize).0 == 4 && catalog_spec(64usize).1 == 4 && flatten(catalog_spec(64usize).2) == seq![true, true, false, true, true, false, false, true, true, true, true, true, false, false, true, false],
{
    reveal_with_fuel(flatten, 6);
    assert(flatten(catalog_spec(60usize).2) =~= seq![true, true, true, false, false, false, true, true, true, true, true, false, false, true, false, false]);
    assert(flatten(catalog_spec(61usize).2) =~= seq![true, true, false, false, false, false, true, true, true, false, false, false, true, false, false, false, false, true, true, true]);
    assert(flatten(catalog_spec(62usize).2) =~= seq![false, true, false, true, true, true, false, true, false, true, true, true, true, true, false, false]);
    assert(flatten(catalog_spec(63usize).2) =~= seq![true, false, false, true, true, false, true, true, true, false, true, false, true, true, true, false]);
    assert(flatten(catalog_spec(64usize).2) =~= seq![true, true, false, true, true, false, false, true, true, true, true, true, false, false, true, false]);
}

#[verifier::spinoff_prover]
proof fn lemma_catalog_part_13()
    ensures
        catalog_spec(65usize).0 == 4 && catalog_spec(65usize).1 == 5 && flatten(catalog_spec(65usize).2) == seq![false, true, false, true, false, true, true, true, true, true, false, false, true, false, true, false, false, true, false, false],
        catalog_spec(66usize).0 == 5 && catalog_spec(66usize).1 == 4 && flatten(catalog_spec(66usize).2) == seq![false, true, false, false, false, true, true, true, false, false, true, false, true, true, true, false, true, false, true, false],
        catalog_spec(67usize).0 == 4 && catalog_spec(67usize).1 == 4 && flatten(catalog_spec(67usize).2) == seq![true, true, false, true, false, true, true, true, true, true, true, false, true, false, true, false],
        catalog_spec(68usize).0 == 4 && catalog_spec(68usize).1 == 4 && flatten(catalog_spec(68usize).2) == seq![true, true, true, true, true, false, true, true, false, true, true, false, false, false, true, true],
        catalog_spec(69usize).0 == 4 && catalog_spec(69usize).1 == 5 && flatten(catalog_spec(69usize).2) == seq![false, true, false, false, false, false, true, true, true, true, true, true, false, true, false, false, true, false, true, true],
{
    reveal_with_fuel(flatten, 6);
    assert(flatten(catalog_spec(65usize).2) =~= seq![false, true, false, true, false, true, true, true, true, true, false, false, true, false, true, false, false, true, false, false]);
    assert(flatten(catalog_spec(66usize).2) =~= seq![false, true, false, false, false, true, true, true, false, false, true, false, true, true, true, false, true, false, true, false]);
    assert(flatten(catalog_spec(67usize).2) =~= seq![true, true, false, true, false, true, true, true, true, true, true, false, true, false, true, false]);
    assert(flatten(catalog_spec(68usize).2) =~= seq![true, true, true, true, true, false, true, true, false, true, true, false, false, false, true, true]);
    assert(flatten(catalog_spec(69usize).2) =~= seq![false, true, false, false, false, false, true, true, true, true, true, true, false, true, false, false, true, false, true, true]);
}

#[verifier::spinoff_prover]
proof fn lemma_catalog_part_14()
    ensures
        catalog_spec(70usize).0 == 5 && catalog_spec(70usize).1 == 4 && flatten(catalog_spec(70usize).2) == seq![false, false, false, true, true, false, true, true, true, false, true, false, true, true, true, false, true, false, true, false],
        catalog_spec(71usize).0 == 5 && catalog_spec(71usize).1 == 4 && flatten(catalog_spec(71usize).2) == seq![false, true, true, true, true, true, true, true, false, false, true, false, false, true, true, false, false, false, true, true],
        catalog_spec(72usize).0 == 4 && catalog_spec(72usize).1 == 5 && flatten(catalog_spec(72usize).2) == seq![true, true, false, true, true, false, true, true, false, true, false, false, true, true, true, true, true, true, false, false],
        catalog_spec(73usize).0 == 5 && catalog_spec(73usize).1 == 5 && flatten(catalog_spec(73usize).2) == seq![true, true, false, false, false, false, true, false, false, true, false, true, false, true, true, true, true, true, false, true, false, false, true, true, true],
        catalog_spec(74usize).0 == 5 && catalog_spec(74usize).1 == 5 && flatten(catalog_spec(74usize).2) == seq![true, true, false, false, false, false, true, true, false, true, false, false, true, false, true, true, false, true, true, true, true, true, true, false, false],
{
    reveal_with_fuel(flatten, 6);
    assert(flatten(catalog_spec(70usize).2) =~= seq![false, false, false, true, true, false, true, true, true, false, true, false, true, true, true, false, true, false, true, false]);
    assert(flatten(catalog_spec(71usize).2) =~= seq![false, true, true, true, true, true, true, true, false, false, true, false, false, true, true, false, false, false, true, true]);
    assert(flatten(catalog_spec(72usize).2) =~= seq![true, true, false, true, true, false, true, true, false, true, false, false, true, true, true, true, true, true, false, false]);
    assert(flatten(catalog_spec(73usize).2) =~= seq![true, true, false, false, false, false, true, false, false, true, false, true, false, true, true, true, true, true, false, true, false, false, true, true, true]);
    assert(flatten(catalog_spec(74usize).2) =~= seq![true, true, false, false, false, false, true, true, false, true, false, false, true, false, true, true, false, true, true, true, true, true, true, false, false]);
}

/// The catalog is the game's table of 75 shapes: entry `k` has the height,
/// width and cells (row by row, as one list) of the game's shape `k`.
#[verifier::spinoff_prover]
#[verifier::rlimit(100)]
pub proof fn lemma_catalog_is_game_table()
    ensures
        catalog_spec(0usize).0 == 1 && catalog_spec(0usize).1 == 1 && flatten(catalog_spec(0usize).2) == seq![true],
        catalog_spec(1usize).0 == 1 && catalog_spec(1usize).1 == 2 && flatten(catalog_spec(1usize).2) == seq![true, true],
        catalog_spec(2usize).0 == 2 && catalog_spec(2usize).1 == 1 && flatten(catalog_spec(2usize).2) == seq![true, true],
        catalog_spec(3usize).0 == 1 && catalog_spec(3usize).1 == 3 && flatten(catalog_spec(3usize).2) == seq![true, true, true],
        catalog_spec(4usize).0 == 2 && catalog_spec(4usize).1 == 2 && flatten(catalog_spec(4usize).2) == seq![false, true, true, true],
        catalog_spec(5usize).0 == 2 && catalog_spec(5usize).1 == 2 && flatten(catalog_spec(5usize).2) == seq![true, false, true, true],
        catalog_spec(6usize).0 == 2 && catalog_spec(6usize).1 == 2 && flatten(catalog_spec(6usize).2) == seq![true, true, false, true],
        catalog_spec(7usize).0 == 2 && catalog_spec(7usize).1 == 2 && flatten(catalog_spec(7usize).2) == seq![true, true, true, false],
        catalog_spec(8usize).0 == 3 && catalog_spec(8usize).1 == 1 && flatten(catalog_spec(8usize).2) == seq![true, true, true],
        catalog_spec(9usize).0 == 2 && catalog_spec(9usize).1 == 2 && flatten(catalog_spec(9usize).2) == seq![true, true, true, true],
        catalog_spec(10usize).0 == 2 && catalog_spec(10usize).1 == 3 && flatten(catalog_spec(10usize).2) == seq![false, true, false, true, true, true],
        catalog_spec(11usize).0 == 2 && catalog_spec(11usize).1 == 3 && flatten(catalog_spec(11usize).2) == seq![true, true, false, false, true, true],
        catalog_spec(12usize).0 == 2 && catalog_spec(12usize).1 == 3 && flatten(catalog_spec(12usize).2) == seq![true, true, true, false, true, false],
        catalog_spec(13usize).0 == 3 && catalog_spec(13usize).1 == 2 && flatten(catalog_spec(13usize).2) == seq![false, true, true, true, false, true],
        catalog_spec(14usize).0 == 3 && catalog_spec(14usize).1 == 2 && flatten(catalog_spec(14usize).2) == seq![true, false, true, true, false, true],
        catalog_spec(15usize).0 == 3 && catalog_spec(15usize).1 == 2 && flatten(catalog_spec(15usize).2) == seq![true, false, true, true, true, false],
        catalog_spec(16usize).0 == 3 && catalog_spec(16usize).1 == 2 && flatten(catalog_spec(16usize).2) == seq![true, true, true, false, true, false],
        catalog_spec(17usize).0 == 2 && catalog_spec(17usize).1 == 3 && flatten(catalog_spec(17usize).2) == seq![false, true, true, true, true, true],
        catalog_spec(18usize).0 == 2 && catalog_spec(18usize).1 == 3 && flatten(catalog_spec(18usize).2) == seq![true, false, true, true, true, true],
        catalog_spec(19usize).0 == 2 && catalog_spec(19usize).1 == 3 && flatten(catalog_spec(19usize).2) == seq![true, true, true, true, false, true],
        catalog_spec(20usize).0 == 3 && catalog_spec(20usize).1 == 2 && flatten(catalog_spec(20usize).2) == seq![true, true, false, true, true, true],
        catalog_spec(21usize).0 == 3 && catalog_spec(21usize).1 == 3 && flatten(catalog_spec(21usize).2) == seq![false, false, true, false, false, true, true, true, true],
        catalog_spec(22usize).0 == 3 && catalog_spec(22usize).1 == 3 && flatten(catalog_spec(22usize).2) == seq![false, false, true, false, true, true, true, true, false],
        catalog_spec(23usize).0 == 3 && catalog_spec(23usize).1 == 3 && flatten(catalog_spec(23usize).2) == seq![false, false, true, true, true, true, true, false, false],
        catalog_spec(24usize).0 == 3 && catalog_spec(24usize).1 == 3 && flatten(catalog_spec(24usize).2) == seq![false, true, false, true, true, true, false, true, false],
        catalog_spec(25usize).0 == 3 && catalog_spec(25usize).1 == 3 && flatten(catalog_spec(25usize).2) == seq![false, true, true, false, true, false, true, true, false],
        catalog_spec(26usize).0 == 3 && catalog_spec(26usize).1 == 3 && flatten(catalog_spec(26usize).2) == seq![true, false, false, true, true, false, false, true, true],
        catalog_spec(27usize).0 == 3 && catalog_spec(27usize).1 == 3 && flatten(catalog_spec(27usize).2) == seq![true, false, false, true, true, true, false, false, true],
        catalog_spec(28usize).0 == 3 && catalog_spec(28usize).1 == 3 && flatten(catalog_spec(28usize).2) == seq![true, false, false, true, true, true, true, false, false],
        catalog_spec(29usize).0 == 3 && catalog_spec(29usize).1 == 3 && flatten(catalog_spec(29usize).2) == seq![true, true, false, false, true, false, false, true, true],
        catalog_spec(30usize).0 == 3 && catalog_spec(30usize).1 == 3 && flatten(catalog_spec(30usize).2) == seq![true, true, false, false, true, true, false, false, true],
        catalog_spec(31usize).0 == 3 && catalog_spec(31usize).1 == 3 && flatten(catalog_spec(31usize).2) == seq![true, true, true, true, false, false, true, false, false],
        catalog_spec(32usize).0 == 3 && catalog_spec(32usize).1 == 2 && flatten(catalog_spec(32usize).2) == seq![true, true, true, true, true, true],
        catalog_spec(33usize).0 == 3 && catalog_spec(33usize).1 == 3 && flatten(catalog_spec(33usize).2) == seq![false, false, true, false, true, true, true, true, true],
        catalog_spec(34usize).0 == 3 && catalog_spec(34usize).1 == 3 && flatten(catalog_spec(34usize).2) == seq![false, true, false, true, true, true, true, false, true],
        catalog_spec(35usize).0 == 3 && catalog_spec(35usize).1 == 3 && flatten(catalog_spec(35usize).2) == seq![false, true, true, false, true, false, true, true, true],
        catalog_spec(36usize).0 == 3 && catalog_spec(36usize).1 == 3 && flatten(catalog_spec(36usize).2) == seq![false, true, true, false, true, true, true, true, false],
        catalog_spec(37usize).0 == 3 && catalog_spec(37usize).1 == 3 && flatten(catalog_spec(37usize).2) == seq![true, false, true, true, true, true, false, true, false],
        catalog_spec(38usize).0 == 3 && catalog_spec(38usize).1 == 3 && flatten(catalog_spec(38usize).2) == seq![true, true, false, false, true, true, true, true, false],
        catalog_spec(39usize).0 == 3 && catalog_spec(39usize).1 == 3 && flatten(catalog_spec(39usize).2) == seq![true, true, false, true, true, false, false, true, true],
        catalog_spec(40usize).0 == 3 && catalog_spec(40usize).1 == 4 && flatten(catalog_spec(40usize).2) == seq![true, true, true, true, true, false, false, false, true, false, false, false],
        catalog_spec(41usize).0 == 4 && catalog_spec(41usize).1 == 3 && flatten(catalog_spec(41usize).2) == seq![false, true, false, true, true, false, false, true, true, false, true, false],
        catalog_spec(42usize).0 == 3 && catalog_spec(42usize).1 == 3 && flatten(catalog_spec(42usize).2) == seq![true, false, true, true, false, true, true, true, true],
        catalog_spec(43usize).0 == 3 && catalog_spec(43usize).1 == 3 && flatten(catalog_spec(43usize).2) == seq![true, false, true, true, true, true, true, false, true],
        catalog_spec(44usize).0 == 3 && catalog_spec(44usize).1 == 3 && flatten(catalog_spec(44usize).2) == seq![true, true, true, false, true, false, true, true, true],
        catalog_spec(45usize).0 == 3 && catalog_spec(45usize).1 == 4 && flatten(catalog_spec(45usize).2) == seq![false, true, false, false, true, true, false, true, false, true, true, true],
        catalog_spec(46usize).0 == 3 && catalog_spec(46usize).1 == 4 && flatten(catalog_spec(46usize).2) == seq![false, true, true, false, true, true, false, false, false, true, true, true],
        catalog_spec(47usize).0 == 3 && catalog_spec(47usize).1 == 4 && flatten(catalog_spec(47usize).2) == seq![false, true, true, true, false, false, true, false, true, true, true, false],
        catalog_spec(48usize).0 == 3 && catalog_spec(48usize).1 == 4 && flatten(catalog_spec(48usize).2) == seq![true, true, true, false, true, false, true, false, false, false, true, true],
        catalog_spec(49usize).0 == 4 && catalog_spec(49usize).1 == 3 && flatten(catalog_spec(49usize).2) == seq![true, true, false, true, false, false, true, true, true, false, false, true],
        catalog_spec(50usize).0 == 3 && catalog_spec(50usize).1 == 3 && flatten(catalog_spec(50usize).2) == seq![true, true, true, true, false, true, true, true, true],
        catalog_spec(51usize).0 == 3 && catalog_spec(51usize).1 == 4 && flatten(catalog_spec(51usize).2) == seq![true, true, true, false, true, false, true, true, true, true, false, false],
        catalog_spec(52usize).0 == 4 && catalog_spec(52usize).1 == 3 && flatten(catalog_spec(52usize).2) == seq![false, true, false, true, true, true, true, false, true, true, false, true],
        catalog_spec(53usize).0 == 4 && catalog_spec(53usize).1 == 3 && flatten(catalog_spec(53usize).2) == seq![false, true, true, true, true, false, false, true, true, false, true, true],
        catalog_spec(54usize).0 == 4 && catalog_spec(54usize).1 == 4 && flatten(catalog_spec(54usize).2) == seq![false, true, false, true, true, true, true, true, false, false, true, false, false, false, true, false],
        catalog_spec(55usize).0 == 3 && catalog_spec(55usize).1 == 4 && flatten(catalog_spec(55usize).2) == seq![true, false, false, true, true, false, true, true, true, true, true, true],
        catalog_spec(56usize).0 == 3 && catalog_spec(56usize).1 == 4 && flatten(catalog_spec(56usize).2) == seq![true, true, false, true, true, false, true, true, true, true, true, false],
        catalog_spec(57usize).0 == 3 && catalog_spec(57usize).1 == 4 && flatten(catalog_spec(57usize).2) == seq![true, true, true, false, true, false, false, true, true, true, true, true],
        catalog_spec(58usize).0 == 4 && catalog_spec(58usize).1 == 4 && flatten(catalog_spec(58usize).2) == seq![false, true, true, true, true, true, false, true, false, true, false, false, false, true, true, false],
        catalog_spec(59usize).0 == 4 && catalog_spec(59usize).1 == 4 && flatten(catalog_spec(59usize).2) == seq![true, true, false, false, true, false, false, false, true, false, true, false, true, true, true, true],
        catalog_spec(60usize).0 == 4 && catalog_spec(60usize).1 == 4 && flatten(catalog_spec(60usize).2) == seq![true, true, true, false, false, false, true, true, true, true, true, false, false, true, false, false],
        catalog_spec(61usize).0 == 4 && catalog_spec(61usize).1 == 5 && flatten(catalog_spec(61usize).2) == seq![true, true, false, false, false, false, true, true, true, false, false, false, true, false, false, false, false, true, true, true],
        catalog_spec(62usize).0 == 4 && catalog_spec(62usize).1 == 4 && flatten(catalog_spec(62usize).2) == seq![false, true, false, true, true, true, false, true, false, true, true, true, true, true, false, false],
        catalog_spec(63usize).0 == 4 && catalog_spec(63usize).1 == 4 && flatten(catalog_spec(63usize).2) == seq![true, false, false, true, true, false, true, true, true, false, true, false, true, true, true, false],
        catalog_spec(64usize).0 == 4 && catalog_spec(64usize).1 == 4 && flatten(catalog_spec(64usize).2) == seq![true, true, false, true, true, false, false, true, true, true, true, true, false, false, true, false],
        catalog_spec(65usize).0 == 4 && catalog_spec(65usize).1 == 5 && flatten(catalog_spec(65usize).2) == seq![false, true, false, true, false, true, true, true, true, true, false, false, true, false, true, false, false, true, false, false],
        catalog_spec(66usize).0 == 5 && catalog_spec(66usize).1 == 4 && flatten(catalog_spec(66usize).2) == seq![false, true, false, false, false, true, true, true, false, false, true, false, true, true, true, false, true, false, true, false],
        catalog_spec(67usize).0 == 4 && catalog_spec(67usize).1 == 4 && flatten(catalog_spec(67usize).2) == seq![true, true, false, true, false, true, true, true, true, true, true, false, true, false, true, false],
        catalog_spec(68usize).0 == 4 && catalog_spec(68usize).1 == 4 && flatten(catalog_spec(68usize).2) == seq![true, true, true, true, true, false, true, true, false, true, true, false, false, false, true, true],
        catalog_spec(69usize).0 == 4 && catalog_spec(69usize).1 == 5 && flatten(catalog_spec(69usize).2) == seq![false, true, false, false, false, false, true, true, true, true, true, true, false, true, false, false, true, false, true, true],
        catalog_spec(70usize).0 == 5 && catalog_spec(70usize).1 == 4 && flatten(catalog_spec(70usize).2) == seq![false, false, false, true, true, false, true, true, true, false, true, false, true, true, true, false, true, false, true, false],
        catalog_spec(71usize).0 == 5 && catalog_spec(71usize).1 == 4 && flatten(catalog_spec(71usize).2) == seq![false, true, true, true, true, true, true, true, false, false, true, false, false, true, true, false, false, false, true, true],
        catalog_spec(72usize).0 == 4 && catalog_spec(72usize).1 == 5 && flatten(catalog_spec(72usize).2) == seq![true, true, false, true, true, false, true, true, false, true, false, false, true, true, true, true, true, true, false, false],
        catalog_spec(73usize).0 == 5 && catalog_spec(73usize).1 == 5 && flatten(catalog_spec(73usize).2) == seq![true, true, false, false, false, false, true, false, false, true, false, true, false, true, true, true, true, true, false, true, false, false, true, true, true],
        catalog_spec(74usize).0 == 5 && catalog_spec(74usize).1 == 5 && flatten(catalog_spec(74usize).2) == seq![true, true, false, false, false, false, true, true, false, true, false, false, true, false, true, true, false, true, true, true, true, true, true, false, false],
{
    lemma_catalog_part_0();
    lemma_catalog_part_1();
    lemma_catalog_part_2();
    lemma_catalog_part_3();
    lemma_catalog_part_4();
    lemma_catalog_part_5();
    lemma_catalog_part_6();
    lemma_catalog_part_7();
    lemma_catalog_part_8();
    lemma_catalog_part_9();
    lemma_catalog_part_10();
    lemma_catalog_part_11();
    lemma_catalog_part_12();
    lemma_catalog_part_13();
    lemma_catalog_part_14();
}

/// `piece` is the catalog shape `entry`: the same box, and its cells are the
/// entry's filled cells.
pub open spec fn is_shape(piece: Piece, entry: (u8, u8, Seq<Seq<bool>>)) -> bool {
    &&& piece.rows() == entry.0
    &&& piece.cols() == entry.1
    &&& forall|i: int|
        0 <= i < 256 ==> #[trigger] piece.cells().bit(i) == (in_box(entry.0 as int, entry.1 as int, i)
            && entry.2[i / 15][i % 15])
}

/// Shape `index` of the catalog of the game's piece shapes: height, width,
/// the cells row by row, and the row and column of one filled cell.
#[verifier::rlimit(100)]
pub fn catalog_entry(index: usize) -> (r: (u8, u8, Vec<Vec<bool>>, usize, usize))
    requires
        index < SHAPE_COUNT,
    ensures
        r.0 == catalog_spec(index).0,
        r.1 == catalog_spec(index).1,
        r.2@.len() == catalog_spec(index).2.len(),
        forall|k: int| 0 <= k < r.2@.len() ==> (#[trigger] r.2@[k])@ == catalog_spec(index).2[k],
        1 <= r.0 <= 5,
        1 <= r.1 <= 5,
        r.2@.len() == r.0,
        forall|k: int| 0 <= k < r.2@.len() ==> (#[trigger] r.2@[k])@.len() == r.1,
        r.3 < r.0,
        r.4 < r.1,
        r.2@[r.3 as int]@[r.4 as int],
{
    match index {
        0 => (1, 1, vec![vec![true]], 0, 0),
        1 => (1, 2, vec![vec![true, true]], 0, 0),
        2 => (2, 1, vec![vec![true], vec![true]], 0, 0),
        3 => (1, 3, vec![vec![true, true, true]], 0, 0),
        4 => (2, 2, vec![vec![false, true], vec![true, true]], 0, 1),
        5 => (2, 2, vec![vec![true, false], vec![true, true]], 0, 0),
        6 => (2, 2, vec![vec![true, true], vec![false, true]], 0, 0),
        7 => (2, 2, vec![vec![true, true], vec![true, false]], 0, 0),
        8 => (3, 1, vec![vec![true], vec![true], vec![true]], 0, 0),
        9 => (2, 2, vec![vec![true, true], vec![true, true]], 0, 0),
        10 => (2, 3, vec![vec![false, true, false], vec![true, true, true]], 0, 1),
        11 => (2, 3, vec![vec![true, true, false], vec![false, true, true]], 0, 0),
        12 => (2, 3, vec![vec![true, true, true], vec![false, true, false]], 0, 0),
        13 => (3, 2, vec![vec![false, true], vec![true, true], vec![false, true]], 0, 1),
        14 => (3, 2, vec![vec![true, false], vec![true, true], vec![false, true]], 0, 0),
        15 => (3, 2, vec![vec![true, false], vec![true, true], vec![true, false]], 0, 0),
        16 => (3, 2, vec![vec![true, true], vec![true, false], vec![true, false]], 0, 0),
        17 => (2, 3, vec![vec![false, true, true], vec![true, true, true]], 0, 1),
        18 => (2, 3, vec![vec![true, false, true], vec![true, true, true]], 0, 0),
        19 => (2, 3, vec![vec![true, true, true], vec![true, false, true]], 0, 0),
        20 => (3, 2, vec![vec![true, true], vec![false, true], vec![true, true]], 0, 0),
        21 => (3, 3, vec![vec![false, false, true], vec![false, false, true], vec![true, true, true]], 0, 2),
        22 => (3, 3, vec![vec![false, false, true], vec![false, true, true], vec![true, true, false]], 0, 2),
        23 => (3, 3, vec![vec![false, false, true], vec![true, true, true], vec![true, false, false]], 0, 2),
        24 => (3, 3, vec![vec![false, true, false], vec![true, true, true], vec![false, true, false]], 0, 1),
        25 => (3, 3, vec![vec![false, true, true], vec![false, true, false], vec![true, true, false]], 0, 1),
        26 => (3, 3, vec![vec![true, false, false], vec![true, true, false], vec![false, true, true]], 0, 0),
        27 => (3, 3, vec![vec![true, false, false], vec![true, true, true], vec![false, false, true]], 0, 0),
        28 => (3, 3, vec![vec![true, false, false], vec![true, true, true], vec![true, false, false]], 0, 0),
        29 => (3, 3, vec![vec![true, true, false], vec![false, true, false], vec![false, true, true]], 0, 0),
        30 => (3, 3, vec![vec![true, true, false], vec![false, true, true], vec![false, false, true]], 0, 0),
        31 => (3, 3, vec![vec![true, true, true], vec![true, false, false], vec![true, false, false]], 0, 0),
        32 => (3, 2, vec![vec![true, true], vec![true, true], vec![true, true]], 0, 0),
        33 => (3, 3, vec![vec![false, false, true], vec![false, true, true], vec![true, true, true]], 0, 2),
        34 => (3, 3, vec![vec![false, true, false], vec![true, true, true], vec![true, false, true]], 0, 1),
        35 => (3, 3, vec![vec![false, true, true], vec![false, true, false], vec![true, true, true]], 0, 1),
        36 => (3, 3, vec![vec![false, true, true], vec![false, true, true], vec![true, true, false]], 0, 1),
        37 => (3, 3, vec![vec![true, false, true], vec![true, true, true], vec![false, true, false]], 0, 0),
        38 => (3, 3, vec![vec![true, true, false], vec![false, true, true], vec![true, true, false]], 0, 0),
        39 => (3, 3, vec![vec![true, true, false], vec![true, true, false], vec![false, true, true]], 0, 0),
        40 => (3, 4, vec![vec![true, true, true, true], vec![true, false, false, false], vec![true, false, false, false]], 0, 0),
        41 => (4, 3, vec![vec![false, true, false], vec![true, true, false], vec![false, true, true], vec![false, true, false]], 0, 1),
        42 => (3, 3, vec![vec![true, false, true], vec![true, false, true], vec![true, true, true]], 0, 0),
        43 => (3, 3, vec![vec![true, false, true], vec![true, true, true], vec![true, false, true]], 0, 0),
        44 => (3, 3, vec![vec![true, true, true], vec![false, true, false], vec![true, true, true]], 0, 0),
        45 => (3, 4, vec![vec![false, true, false, false], vec![true, true, false, true], vec![false, true, true, true]], 0, 1),
        46 => (3, 4, vec![vec![false, true, true, false], vec![true, true, false, false], vec![false, true, true, true]], 0, 1),
        47 => (3, 4, vec![vec![false, true, true, true], vec![false, false, true, false], vec![true, true, true, false]], 0, 1),
        48 => (3, 4, vec![vec![true, true, true, false], vec![true, false, true, false], vec![false, false, true, true]], 0, 0),
        49 => (4, 3, vec![vec![true, true, false], vec![true, false, false], vec![true, true, true], vec![false, false, true]], 0, 0),
        50 => (3, 3, vec![vec![true, true, true], vec![true, false, true], vec![true, true, true]], 0, 0),
        51 => (3, 4, vec![vec![true, true, true, false], vec![true, false, true, true], vec![true, true, false, false]], 0, 0),
        52 => (4, 3, vec![vec![false, true, false], vec![true, true, true], vec![true, false, true], vec![true, false, true]], 0, 1),
        53 => (4, 3, vec![vec![false, true, true], vec![true, true, false], vec![false, true, true], vec![false, true, true]], 0, 1),
        54 => (4, 4, vec![vec![false, true, false, true], vec![true, true, true, true], vec![false, false, true, false], vec![false, false, true, false]], 0, 1),
        55 => (3, 4, vec![vec![true, false, false, true], vec![true, false, true, true], vec![true, true, true, true]], 0, 0),
        56 => (3, 4, vec![vec![true, true, false, true], vec![true, false, true, true], vec![true, true, true, false]], 0, 0),
        57 => (3, 4, vec![vec![true, true, true, false], vec![true, false, false, true], vec![true, true, true, true]], 0, 0),
        58 => (4, 4, vec![vec![false, true, true, true], vec![true, true, false, true], vec![false, true, false, false], vec![false, true, true, false]], 0, 1),
        59 => (4, 4, vec![vec![true, true, false, false], vec![true, false, false, false], vec![true, false, true, false], vec![true, true, true, true]], 0, 0),
        60 => (4, 4, vec![vec![true, true, true, false], vec![false, false, true, true], vec![true, true, true, false], vec![false, true, false, false]], 0, 0),
        61 => (4, 5, vec![vec![true, true, false, false, false], vec![false, true, true, true, false], vec![false, false, true, false, false], vec![false, false, true, true, true]], 0, 0),
        62 => (4, 4, vec![vec![false, true, false, true], vec![true, true, false, true], vec![false, true, true, true], vec![true, true, false, false]], 0, 1),
        63 => (4, 4, vec![vec![true, false, false, true], vec![true, false, true, true], vec![true, false, true, false], vec![true, true, true, false]], 0, 0),
        64 => (4, 4, vec![vec![true, true, false, true], vec![true, false, false, true], vec![true, true, true, true], vec![false, false, true, false]], 0, 0),
        65 => (4, 5, vec![vec![false, true, false, true, false], vec![true, true, true, true, true], vec![false, false, true, false, true], vec![false, false, true, false, false]], 0, 1),
        66 => (5, 4, vec![vec![false, true, false, false], vec![false, true, true, true], vec![false, false, true, false], vec![true, true, true, false], vec![true, false, true, false]], 0, 1),
        67 => (4, 4, vec![vec![true, true, false, true], vec![false, true, true, true], vec![true, true, true, false], vec![true, false, true, false]], 0, 0),
        68 => (4, 4, vec![vec![true, true, true, true], vec![true, false, true, true], vec![false, true, true, false], vec![false, false, true, true]], 0, 0),
        69 => (4, 5, vec![vec![false, true, false, false, false], vec![false, true, true, true, true], vec![true, true, false, true, false], vec![false, true, false, true, true]], 0, 1),
        70 => (5, 4, vec![vec![false, false, false, true], vec![true, false, true, true], vec![true, false, true, false], vec![true, true, true, false], vec![true, false, true, false]], 0, 3),
        71 => (5, 4, vec![vec![false, true, true, true], vec![true, true, true, true], vec![false, false, true, false], vec![false, true, true, false], vec![false, false, true, true]], 0, 1),
        72 => (4, 5, vec![vec![true, true, false, true, true], vec![false, true, true, false, true], vec![false, false, true, true, true], vec![true, true, true, false, false]], 0, 0),
        73 => (5, 5, vec![vec![true, true, false, false, false], vec![false, true, false, false, true], vec![false, true, false, true, true], vec![true, true, true, false, true], vec![false, false, true, true, true]], 0, 0),
        _ => (5, 5, vec![vec![true, true, false, false, false], vec![false, true, true, false, true], vec![false, false, true, false, true], vec![true, false, true, true, true], vec![true, true, true, false, false]], 0, 0),
    }
}

/// Build a piece from a catalog entry's rows.
fn piece_from_catalog(h: u8, w: u8, rows: &Vec<Vec<bool>>, fr: usize, fc: usize) -> (r: Piece)
    requires
        1 <= h <= 5,
        1 <= w <= 5,
        rows@.len() == h,
        forall|k: int| 0 <= k < rows@.len() ==> (#[trigger] rows@[k])@.len() == w,
        fr < h,
        fc < w,
        rows@[fr as int]@[fc as int],
    ensures
        r.wf(),
        r.rows() == h,
        r.cols() == w,
        forall|i: int|
            0 <= i < 256 ==> #[trigger] r.cells().bit(i) == (in_box(h as int, w as int, i)
                && rows@[i / 15]@[i % 15]),
{
    let mut refs: Vec<&[bool]> = Vec::new();
    let mut k: usize = 0;
    while k < rows.len()
        invariant
            k <= rows@.len(),
            refs@.len() == k,
            forall|j: int| 0 <= j < k ==> (#[trigger] refs@[j])@ == rows@[j]@,
        decreases rows@.len() - k,
    {
        refs.push(rows[k].as_slice());
        k = k + 1;
    }
    assert(refs@[fr as int]@[fc as int]);
    let r = Piece::from_grid(refs.as_slice());
    assert forall|i: int| 0 <= i < 256 implies #[trigger] r.cells().bit(i) == (in_box(h as int, w as int, i)
        && rows@[i / 15]@[i % 15]) by {
        if in_box(h as int, w as int, i) {
            assert(refs@[i / 15]@ == rows@[i / 15]@);
        }
    }
    r
}

/// Catalog shape `index` as a piece.
fn catalog_piece(index: usize) -> (r: Piece)
    requires
        index < SHAPE_COUNT,
    ensures
        r.wf(),
        is_shape(r, catalog_spec(index)),
{
    let (h, w, rows, fr, fc) = catalog_entry(index);
    let r = piece_from_catalog(h, w, &rows, fr, fc);
    assert forall|i: int| 0 <= i < 256 implies #[trigger] r.cells().bit(i) == (in_box(
        catalog_spec(index).0 as int,
        catalog_spec(index).1 as int,
        i,
    ) && catalog_spec(index).2[i / 15][i % 15]) by {
        if in_box(h as int, w as int, i) {
            assert(rows@[i / 15]@ == catalog_spec(index).2[i / 15]);
        }
    }
    r
}

/// Two pieces of the same catalog shape are equal.
proof fn lemma_shape_unique(a: Piece, b: Piece, entry: (u8, u8, Seq<Seq<bool>>))
    requires
        is_shape(a, entry),
        is_shape(b, entry),
    ensures
        a == b,
{
    assert forall|i: int| 0 <= i < 256 implies #[trigger] a.cells().bit(i) == b.cells().bit(i) by {
        assert(a.cells().bit(i) == (in_box(entry.0 as int, entry.1 as int, i) && entry.2[i / 15][i % 15]));
        assert(b.cells().bit(i) == (in_box(entry.0 as int, entry.1 as int, i) && entry.2[i / 15][i % 15]));
    }
    Piece::lemma_same_shape(a, b);
}

/// Whether `piece` is one of the game's catalog shapes.
pub fn is_known_shape(piece: &Piece) -> (r: bool)
    ensures
        r == is_catalog_shape(*piece),
{
    let mut k: usize = 0;
    while k < SHAPE_COUNT
        invariant
            k <= SHAPE_COUNT,
            forall|j: usize| j < k ==> !#[trigger] is_shape(*piece, catalog_spec(j)),
        decreases SHAPE_COUNT - k,
    {
        let candidate = catalog_piece(k);
        if *piece == candidate {
            return true;
        }
        proof {
            if is_shape(*piece, catalog_spec(k)) {
                lemma_shape_unique(*piece, candidate, catalog_spec(k));
            }
        }
        k = k + 1;
    }
    false
}

/// The catalog indices below `k` of the shapes that fit in a `max_h` by
/// `max_w` box, in increasing order.
pub open spec fn fitting_list(max_h: int, max_w: int, k: int) -> Seq<usize>
    decreases k,
{
    if k <= 0 {
        Seq::empty()
    } else {
        let before = fitting_list(max_h, max_w, k - 1);
        let e = catalog_spec((k - 1) as usize);
        if e.0 <= max_h && e.1 <= max_w {
            before.push((k - 1) as usize)
        } else {
            before
        }
    }
}

/// The catalog shapes that fit in a `max_h` by `max_w` box.
pub open spec fn fitting(max_h: int, max_w: int) -> Seq<usize> {
    fitting_list(max_h, max_w, SHAPE_COUNT as int)
}

/// Entries of a fitting list are catalog indices below `k` that fit.
proof fn lemma_fitting_entries(max_h: int, max_w: int, k: int)
    requires
        0 <= k <= SHAPE_COUNT,
    ensures
        forall|j: int|
            0 <= j < fitting_list(max_h, max_w, k).len() ==> #[trigger] fitting_list(max_h, max_w, k)[j] < k
                && catalog_spec(fitting_list(max_h, max_w, k)[j]).0 <= max_h && catalog_spec(
                fitting_list(max_h, max_w, k)[j],
            ).1 <= max_w,
    decreases k,
{
    if k > 0 {
        lemma_fitting_entries(max_h, max_w, k - 1);
        let before = fitting_list(max_h, max_w, k - 1);
        let now = fitting_list(max_h, max_w, k);
        assert forall|j: int| 0 <= j < now.len() implies #[trigger] now[j] < k && catalog_spec(now[j]).0 <= max_h
            && catalog_spec(now[j]).1 <= max_w by {
            if j < before.len() {
                assert(now[j] == before[j]);
            }
        }
    }
}

/// The catalog indices of the shapes that fit in a `max_h` by `max_w` box,
/// in increasing order.
pub fn fitting_shapes(max_h: u8, max_w: u8) -> (r: Vec<usize>)
    ensures
        r@ == fitting(max_h as int, max_w as int),
{
    let mut candidates: Vec<usize> = Vec::new();
    let mut k: usize = 0;
    while k < SHAPE_COUNT
        invariant
            k <= SHAPE_COUNT,
            candidates@ == fitting_list(max_h as int, max_w as int, k as int),
        decreases SHAPE_COUNT - k,
    {
        let (h, w, _rows, _fr, _fc) = catalog_entry(k);
        if h <= max_h && w <= max_w {
            candidates.push(k);
        }
        k = k + 1;
    }
    candidates
}

/// With a box of at least one cell, the one-cell shape fits.
proof fn lemma_fitting_nonempty(max_h: int, max_w: int)
    requires
        max_h >= 1,
        max_w >= 1,
    ensures
        fitting(max_h, max_w).len() > 0,
{
    lemma_fitting_grows(max_h, max_w, 1, SHAPE_COUNT as int);
}

proof fn lemma_fitting_grows(max_h: int, max_w: int, a: int, b: int)
    requires
        0 <= a <= b,
    ensures
        fitting_list(max_h, max_w, a).len() <= fitting_list(max_h, max_w, b).len(),
    decreases b,
{
    if b > a {
        lemma_fitting_grows(max_h, max_w, a, b - 1);
    }
}

/// The shape that draw `draw` picks among those fitting in a `max_h` by
/// `max_w` box: the `draw`-th of them in catalog order.
pub fn fitting_piece(max_h: u8, max_w: u8, draw: usize) -> (r: Piece)
    requires
        draw < fitting(max_h as int, max_w as int).len(),
    ensures
        r.wf(),
        is_shape(r, catalog_spec(fitting(max_h as int, max_w as int)[draw as int])),
        r.rows() <= max_h,
        r.cols() <= max_w,
{
    let candidates = fitting_shapes(max_h, max_w);
    proof {
        lemma_fitting_entries(max_h as int, max_w as int, SHAPE_COUNT as int);
    }
    let index = candidates[draw];
    catalog_piece(index)
}

/// A catalog shape, chosen at random among those that fit in a `max_h` by
/// `max_w` box: the shape `fitting_piece` gives for some draw below their
/// number.
pub fn random_piece(rng: &mut SmallRng, max_h: u8, max_w: u8) -> (r: Piece)
    requires
        max_h >= 1,
        max_w >= 1,
    ensures
        r.wf(),
        r.rows() <= max_h,
        r.cols() <= max_w,
        is_catalog_shape(r),
        exists|draw: int|
            0 <= draw < fitting(max_h as int, max_w as int).len() && #[trigger] is_shape(
                r,
                catalog_spec(fitting(max_h as int, max_w as int)[draw]),
            ),
{
    let count = fitting_shapes(max_h, max_w).len();
    proof {
        lemma_fitting_nonempty(max_h as int, max_w as int);
        lemma_fitting_entries(max_h as int, max_w as int, SHAPE_COUNT as int);
    }
    let pick = random_below(rng, count);
    let r = fitting_piece(max_h, max_w, pick);
    proof {
        let index = fitting(max_h as int, max_w as int)[pick as int];
        assert(index < SHAPE_COUNT);
        assert(is_shape(r, catalog_spec(index)));
    }
    r
}

/// Removing a piece from a cell at residue `h % m` leaves residue `(h + 1) % m`
/// where the piece covers the cell.
proof fn lemma_undone_residue(h: int, m: int, hit: bool)
    requires
        m >= 2,
    ensures
        undone_value(h % m, m, hit) == (h + if hit { 1int } else { 0int }) % m,
{
    if hit {
        vstd::arithmetic::div_mod::lemma_fundamental_div_mod(h, m);
        vstd::arithmetic::div_mod::lemma_mod_bound(h, m);
        let q = h / m;
        if h % m == m - 1 {
            assert(h + 1 == m * (q + 1)) by (nonlinear_arith)
                requires
                    h == m * q + h % m,
                    h % m == m - 1,
            ;
            vstd::arithmetic::div_mod::lemma_mod_multiples_basic(q + 1, m);
        } else {
            assert(h + 1 == m * q + (h % m + 1)) by (nonlinear_arith)
                requires
                    h == m * q + h % m,
            ;
            vstd::arithmetic::div_mod::lemma_mod_multiples_vanish(q, h % m + 1, m);
            vstd::arithmetic::div_mod::lemma_small_mod((h % m + 1) as nat, m as nat);
        }
    }
}

/// The piece is one of the catalog's shapes.
pub open spec fn is_catalog_shape(piece: Piece) -> bool {
    exists|j: usize| j < SHAPE_COUNT && #[trigger] is_shape(piece, catalog_spec(j))
}

/// Every piece is a catalog shape.
pub open spec fn all_catalog_shapes(pieces: Seq<Piece>) -> bool {
    forall|k: int| 0 <= k < pieces.len() ==> #[trigger] is_catalog_shape(pieces[k])
}

/// Adding one more piece and placement leaves the hits of earlier placements unchanged.
proof fn lemma_hits_extend(
    pieces: Seq<Piece>,
    sol: Seq<(usize, usize)>,
    p: Piece,
    s: (usize, usize),
    n: int,
    i: int,
)
    requires
        0 <= n <= pieces.len(),
        n <= sol.len(),
    ensures
        hits(pieces.push(p), sol.push(s), n, i) == hits(pieces, sol, n, i),
    decreases n,
{
    if n > 0 {
        lemma_hits_extend(pieces, sol, p, s, n - 1, i);
        assert(pieces.push(p)[n - 1] == pieces[n - 1]);
        assert(sol.push(s)[n - 1] == sol[n - 1]);
    }
}

/// Draws that `build_game` accepts for `spec`: each picks a fitting shape
/// and a row and column where it lies on the board.
pub open spec fn draws_valid(spec: LevelSpec, draws: Seq<(usize, usize, usize)>) -> bool {
    let f = fitting(spec.rows as int, spec.columns as int);
    forall|k: int|
        0 <= k < draws.len() ==> {
            let d = #[trigger] draws[k];
            &&& d.0 < f.len()
            &&& d.1 + catalog_spec(f[d.0 as int]).0 <= spec.rows
            &&& d.2 + catalog_spec(f[d.0 as int]).1 <= spec.columns
        }
}

/// The row and column of each draw.
pub open spec fn drawn_placements(draws: Seq<(usize, usize, usize)>) -> Seq<(usize, usize)> {
    draws.map_values(|d: (usize, usize, usize)| (d.1, d.2))
}

/// `g` is the game `draws` build for `spec`: its board has the level's size
/// and modulus, piece `k` is the fitting shape draw `k` picks, and every cell
/// holds, mod M, the number of pieces covering it at their drawn places, as
/// removing them one by one from the solved board leaves it.
pub open spec fn built_from(spec: LevelSpec, draws: Seq<(usize, usize, usize)>, g: Game) -> bool {
    &&& g.wf()
    &&& g.next_spec() == 0
    &&& g.board_spec().modulus() == spec.shifts
    &&& g.board_spec().rows() == spec.rows
    &&& g.board_spec().cols() == spec.columns
    &&& g.pieces_spec().len() == draws.len()
    &&& forall|k: int|
        0 <= k < draws.len() ==> #[trigger] is_shape(
            g.pieces_spec()[k],
            catalog_spec(fitting(spec.rows as int, spec.columns as int)[draws[k].0 as int]),
        )
    &&& forall|i: int|
        0 <= i < 256 ==> #[trigger] g.board_spec().cell(i) == hits(
            g.pieces_spec(),
            drawn_placements(draws),
            draws.len() as int,
            i,
        ) % (spec.shifts as int)
}

/// The game that `draws` build for `spec`, backwards: starting from a
/// solved board, draw `k` picks the piece `fitting_piece` gives for its
/// first value and removes it from the board at the row and column of its
/// other two, so that placing the pieces back where they were solves it.
pub fn build_game(spec: &LevelSpec, draws: &Vec<(usize, usize, usize)>) -> (r: Game)
    requires
        spec.is_playable(),
        draws@.len() == spec.shapes,
        draws_valid(*spec, draws@),
    ensures
        built_from(*spec, draws@, r),
        r.wf(),
        r.next_spec() == 0,
        r.board_spec().modulus() == spec.shifts,
        r.board_spec().rows() == spec.rows,
        r.board_spec().cols() == spec.columns,
        r.pieces_spec().len() == spec.shapes,
        all_catalog_shapes(r.pieces_spec()),
        forall|k: int|
            0 <= k < r.pieces_spec().len() ==> #[trigger] r.pieces_spec()[k].rows() <= spec.rows
                && r.pieces_spec()[k].cols() <= spec.columns,
        exists|sol: Seq<(usize, usize)>| #[trigger] is_solution(r.board_spec(), r.pieces_spec(), sol),
{
    let m = spec.shifts;
    let h = spec.rows;
    let w = spec.columns;
    let n = spec.shapes as usize;
    let mut board = Board::new_solved(h, w, m);
    let mut pieces: Vec<Piece> = Vec::new();
    let mut placements: Vec<(usize, usize)> = Vec::new();
    let mut k: usize = 0;
    assert forall|i: int| 0 <= i < 256 implies #[trigger] board.cell(i) == hits(pieces@, placements@, 0, i) % (m as int) by {
        assert(0int % (m as int) == 0);
    }
    while k < n
        invariant
            2 <= m <= 5,
            3 <= h <= 14,
            3 <= w <= 14,
            k <= n,
            board.wf(),
            board.modulus() == m,
            board.rows() == h,
            board.cols() == w,
            pieces@.len() == k,
            placements@.len() == k,
            forall|j: int|
                0 <= j < k ==> (#[trigger] pieces@[j]).wf() && pieces@[j].rows() <= h && pieces@[j].cols() <= w,
            all_catalog_shapes(pieces@),
            placements_fit(board, pieces@, placements@, k as int),
            forall|i: int| 0 <= i < 256 ==> #[trigger] board.cell(i) == hits(pieces@, placements@, k as int, i) % (m as int),
            n == draws@.len(),
            h == spec.rows,
            w == spec.columns,
            draws_valid(*spec, draws@),
            forall|j: int|
                0 <= j < k ==> #[trigger] is_shape(
                    pieces@[j],
                    catalog_spec(fitting(h as int, w as int)[draws@[j].0 as int]),
                ),
            forall|j: int| 0 <= j < k ==> #[trigger] placements@[j] == (draws@[j].1, draws@[j].2),
        decreases n - k,
    {
        let (shape, row, col) = draws[k];
        let piece = fitting_piece(h, w, shape);
        proof {
            lemma_fitting_entries(h as int, w as int, SHAPE_COUNT as int);
            let index = fitting(h as int, w as int)[shape as int];
            assert(index < SHAPE_COUNT);
            assert(is_catalog_shape(piece));
        }
        let mask = piece.placed_at(row, col);
        let ghost before = board;
        let ghost old_pieces = pieces@;
        let ghost old_placements = placements@;
        proof {
            lemma_placement_in_board(board, piece, row as int, col as int, mask);
        }
        board.undo_piece(mask);
        pieces.push(piece);
        placements.push((row, col));
        proof {
            assert forall|i: int| 0 <= i < 256 implies #[trigger] board.cell(i) == hits(
                pieces@,
                placements@,
                k + 1,
                i,
            ) % (m as int) by {
                lemma_hits_extend(old_pieces, old_placements, piece, (row, col), k as int, i);
                let hit = covers(piece, row as int, col as int, i);
                assert(mask.bit(i) == hit);
                assert(pieces@[k as int] == piece);
                assert(placements@[k as int] == (row, col));
                lemma_undone_residue(hits(old_pieces, old_placements, k as int, i), m as int, hit);
            }
            assert forall|j: int| 0 <= j < k + 1 implies #[trigger] placement_fits(
                board,
                pieces@[j],
                placements@[j].0 as int,
                placements@[j].1 as int,
            ) by {
                if j < k {
                    assert(placement_fits(before, old_pieces[j], old_placements[j].0 as int, old_placements[j].1 as int));
                }
            }
            assert forall|j: int| 0 <= j < k + 1 implies (#[trigger] pieces@[j]).wf() && pieces@[j].rows() <= h
                && pieces@[j].cols() <= w && is_catalog_shape(pieces@[j]) by {
                if j < k {
                    assert(old_pieces[j] == pieces@[j]);
                    assert(is_catalog_shape(old_pieces[j]));
                }
            }
            assert forall|j: int| 0 <= j < k + 1 implies #[trigger] is_shape(
                pieces@[j],
                catalog_spec(fitting(h as int, w as int)[draws@[j].0 as int]),
            ) by {
                if j < k {
                    assert(old_pieces[j] == pieces@[j]);
                }
            }
            assert forall|j: int| 0 <= j < k + 1 implies #[trigger] placements@[j] == (draws@[j].1, draws@[j].2) by {
                if j < k {
                    assert(old_placements[j] == placements@[j]);
                }
            }
        }
        k = k + 1;
    }
    proof {
        assert forall|i: int| 0 <= i < 256 && board.valid(i) implies (board.cell(i) - #[trigger] hits(
            pieces@,
            placements@,
            placements@.len() as int,
            i,
        )) % board.modulus() == 0 by {
            let t = hits(pieces@, placements@, k as int, i);
            assert(board.cell(i) == t % (m as int));
            lemma_mod_sub_residue(t, t, m as int);
            assert(0int % (m as int) == 0);
        }
        assert(is_solution(board, pieces@, placements@));
        assert(placements@ =~= drawn_placements(draws@));
    }
    Game::new(board, pieces)
}

/// A random game for `spec`: the game `build_game` builds from random draws
/// of a fitting shape, then a row and a column where it lies, per piece.
pub fn generate_game(spec: &LevelSpec, rng: &mut SmallRng) -> (r: Game)
    requires
        spec.is_playable(),
    ensures
        r.wf(),
        r.next_spec() == 0,
        r.board_spec().modulus() == spec.shifts,
        r.board_spec().rows() == spec.rows,
        r.board_spec().cols() == spec.columns,
        r.pieces_spec().len() == spec.shapes,
        all_catalog_shapes(r.pieces_spec()),
        forall|k: int|
            0 <= k < r.pieces_spec().len() ==> #[trigger] r.pieces_spec()[k].rows() <= spec.rows
                && r.pieces_spec()[k].cols() <= spec.columns,
        exists|sol: Seq<(usize, usize)>| #[trigger] is_solution(r.board_spec(), r.pieces_spec(), sol),
        exists|draws: Seq<(usize, usize, usize)>| draws_valid(*spec, draws) && #[trigger] built_from(*spec, draws, r),
{
    let h = spec.rows;
    let w = spec.columns;
    let n = spec.shapes as usize;
    let count = fitting_shapes(h, w).len();
    proof {
        lemma_fitting_nonempty(h as int, w as int);
    }
    let mut draws: Vec<(usize, usize, usize)> = Vec::new();
    let mut k: usize = 0;
    while k < n
        invariant
            3 <= h <= 14,
            3 <= w <= 14,
            h == spec.rows,
            w == spec.columns,
            count == fitting(h as int, w as int).len(),
            count > 0,
            k <= n,
            draws@.len() == k,
            draws_valid(*spec, draws@),
        decreases n - k,
    {
        let shape = random_below(rng, count);
        let piece = fitting_piece(h, w, shape);
        let max_row = h - piece.height();
        let max_col = w - piece.width();
        let row = random_below(rng, max_row as usize + 1);
        let col = random_below(rng, max_col as usize + 1);
        let ghost before = draws@;
        draws.push((shape, row, col));
        proof {
            assert forall|j: int| 0 <= j < draws@.len() implies {
                let d = #[trigger] draws@[j];
                &&& d.0 < fitting(h as int, w as int).len()
                &&& d.1 + catalog_spec(fitting(h as int, w as int)[d.0 as int]).0 <= h
                &&& d.2 + catalog_spec(fitting(h as int, w as int)[d.0 as int]).1 <= w
            } by {
                if j < k {
                    assert(draws@[j] == before[j]);
                }
            }
        }
        k = k + 1;
    }
    build_game(spec, &draws)
}

/// A random game for level `level` of `levels`, or `None` if no
/// specification there has that level number.
pub fn generate_for_level(levels: &[LevelSpec], level: u32, rng: &mut SmallRng) -> (r: Option<Game>)
    requires
        forall|k: int| 0 <= k < levels@.len() && (#[trigger] levels@[k]).level == level ==> levels@[k].is_playable(),
    ensures
        r is None <==> forall|k: int| 0 <= k < levels@.len() ==> #[trigger] levels@[k].level != level,
        r matches Some(game) ==> exists|k: int|
            0 <= k < levels@.len() && #[trigger] levels@[k].level == level && {
                let spec = levels@[k];
                &&& game.wf()
                &&& game.board_spec().modulus() == spec.shifts
                &&& game.board_spec().rows() == spec.rows
                &&& game.board_spec().cols() == spec.columns
                &&& game.pieces_spec().len() == spec.shapes
                &&& exists|sol: Seq<(usize, usize)>| #[trigger] is_solution(game.board_spec(), game.pieces_spec(), sol)
            },
{
    match get_level(levels, level) {
        Some(spec) => Some(generate_game(&spec, rng)),
        None => None,
    }
}

} // verus!
