//! A puzzle as written in puzzle files: the board's digits and the pieces'
//! cell grids.

use vstd::prelude::*;
use crate::game::Game;
use crate::model::board::Board;
use crate::model::piece::{Piece, in_box};

verus! {

/// A puzzle: its level, modulus, dimensions, the board's digits row by row,
/// and each piece's cells row by row.
pub struct PuzzleJson {
    pub level: u32,
    pub m: u8,
    pub rows: u8,
    pub columns: u8,
    pub board: Vec<Vec<u8>>,
    pub pieces: Vec<Vec<Vec<bool>>>,
    pub icons: Vec<String>,
}

/// A board grid the game can hold: 3 to 14 rows of 3 to 14 digits each, all
/// rows of one length, every digit below `m`, and `m` from 2 to 5.
pub open spec fn board_grid_ok(grid: Seq<Vec<u8>>, m: u8) -> bool {
    &&& 3 <= grid.len() <= 14
    &&& 3 <= grid[0]@.len() <= 14
    &&& 2 <= m <= 5
    &&& forall|row: int| 0 <= row < grid.len() ==> (#[trigger] grid[row])@.len() == grid[0]@.len()
    &&& forall|row: int, col: int|
        0 <= row < grid.len() && 0 <= col < grid[row]@.len() ==> #[trigger] grid[row]@[col] < m
}

/// A piece grid: 1 to 5 rows of 1 to 5 cells each, all rows of one length,
/// and at least one filled cell.
pub open spec fn piece_grid_ok(grid: Seq<Vec<bool>>) -> bool {
    &&& 1 <= grid.len() <= 5
    &&& 1 <= grid[0]@.len() <= 5
    &&& forall|row: int| 0 <= row < grid.len() ==> (#[trigger] grid[row])@.len() == grid[0]@.len()
    &&& exists|row: int, col: int| 0 <= row < grid.len() && 0 <= col < grid[0]@.len() && #[trigger] grid[row]@[col]
}

/// `piece` has the box and the filled cells of `grid`.
pub open spec fn piece_matches(piece: Piece, grid: Seq<Vec<bool>>) -> bool {
    &&& piece.wf()
    &&& piece.rows() == grid.len()
    &&& piece.cols() == grid[0]@.len()
    &&& forall|i: int|
        0 <= i < 256 ==> #[trigger] piece.cells().bit(i) == (in_box(piece.rows(), piece.cols(), i)
            && grid[i / 15]@[i % 15])
}

/// The piece of a cell grid.
fn piece_of(grid: &Vec<Vec<bool>>) -> (r: Piece)
    requires
        piece_grid_ok(grid@),
    ensures
        piece_matches(r, grid@),
{
    let mut rows: Vec<&[bool]> = Vec::new();
    let mut k: usize = 0;
    while k < grid.len()
        invariant
            k <= grid@.len(),
            rows@.len() == k,
            forall|j: int| 0 <= j < k ==> (#[trigger] rows@[j])@ == grid@[j]@,
        decreases grid@.len() - k,
    {
        rows.push(grid[k].as_slice());
        k = k + 1;
    }
    proof {
        let (row, col) = choose|row: int, col: int|
            0 <= row < grid@.len() && 0 <= col < grid@[0]@.len() && #[trigger] grid@[row]@[col];
        assert(rows@[row]@[col]);
        assert forall|j: int| 0 <= j < rows@.len() implies #[trigger] rows@[j]@.len() == rows@[0]@.len() by {
            assert(rows@[j]@ == grid@[j]@);
            assert(rows@[0]@ == grid@[0]@);
        }
    }
    let r = Piece::from_grid(rows.as_slice());
    proof {
        assert forall|i: int| 0 <= i < 256 implies #[trigger] r.cells().bit(i) == (in_box(r.rows(), r.cols(), i)
            && grid@[i / 15]@[i % 15]) by {
            if in_box(r.rows(), r.cols(), i) {
                assert(rows@[i / 15]@ == grid@[i / 15]@);
            }
        }
    }
    r
}

impl PuzzleJson {
    /// The game of this puzzle: its board and pieces, with no piece placed.
    /// The `rows` and `columns` fields are not consulted; the grids give the
    /// dimensions.
    pub fn to_game(&self) -> (r: Game)
        requires
            board_grid_ok(self.board@, self.m),
            self.pieces@.len() >= 1,
            forall|k: int| 0 <= k < self.pieces@.len() ==> piece_grid_ok(#[trigger] self.pieces@[k]@),
        ensures
            r.wf(),
            r.next_spec() == 0,
            r.board_spec().modulus() == self.m,
            r.board_spec().rows() == self.board@.len(),
            r.board_spec().cols() == self.board@[0]@.len(),
            forall|row: int, col: int|
                0 <= row < self.board@.len() && 0 <= col < self.board@[0]@.len() ==> #[trigger] r.board_spec().value(
                    row,
                    col,
                ) == self.board@[row]@[col],
            r.pieces_spec().len() == self.pieces@.len(),
            forall|k: int| 0 <= k < self.pieces@.len() ==> piece_matches(#[trigger] r.pieces_spec()[k], self.pieces@[k]@),
    {
        let mut grid: Vec<&[u8]> = Vec::new();
        let mut k: usize = 0;
        while k < self.board.len()
            invariant
                k <= self.board@.len(),
                grid@.len() == k,
                forall|j: int| 0 <= j < k ==> (#[trigger] grid@[j])@ == self.board@[j]@,
            decreases self.board@.len() - k,
        {
            grid.push(self.board[k].as_slice());
            k = k + 1;
        }
        proof {
            assert forall|j: int| 0 <= j < grid@.len() implies #[trigger] grid@[j]@.len() == grid@[0]@.len() by {
                assert(grid@[j]@ == self.board@[j]@);
                assert(grid@[0]@ == self.board@[0]@);
            }
            assert forall|row: int, col: int|
                0 <= row < grid@.len() && 0 <= col < grid@[row]@.len() implies #[trigger] grid@[row]@[col] < self.m by {
                assert(grid@[row]@ == self.board@[row]@);
            }
        }
        let board = Board::from_grid(grid.as_slice(), self.m);
        proof {
            assert forall|row: int, col: int|
                0 <= row < self.board@.len() && 0 <= col < self.board@[0]@.len() implies #[trigger] board.value(row, col)
                    == self.board@[row]@[col] by {
                assert(grid@[row]@ == self.board@[row]@);
                assert(board.value(row, col) == grid@[row]@[col]);
            }
        }
        let mut pieces: Vec<Piece> = Vec::new();
        let mut k: usize = 0;
        while k < self.pieces.len()
            invariant
                k <= self.pieces@.len(),
                forall|j: int| 0 <= j < self.pieces@.len() ==> piece_grid_ok(#[trigger] self.pieces@[j]@),
                pieces@.len() == k,
                forall|j: int| 0 <= j < k ==> piece_matches(#[trigger] pieces@[j], self.pieces@[j]@),
            decreases self.pieces@.len() - k,
        {
            let piece = piece_of(&self.pieces[k]);
            pieces.push(piece);
            k = k + 1;
        }
        Game::new(board, pieces)
    }
}

} // verus!
