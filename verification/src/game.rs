//! A game: a board and the pieces to place on it, in order.

use vstd::prelude::*;
use crate::bits;
use crate::model::bitboard::Bitboard;
use crate::model::board::{Board, applied_value, undone_value, lemma_undo_after_apply};
use crate::model::piece::{Piece, shifted};

verus! {

/// Whether a piece placed with its anchor at (row, col) covers bitboard index `i`.
pub open spec fn covers(p: Piece, row: int, col: int, i: int) -> bool {
    i >= 15 * row + col && p.cells().bit(i - (15 * row + col))
}

/// The piece placed at (row, col) lies within the board.
pub open spec fn placement_fits(b: Board, p: Piece, row: int, col: int) -> bool {
    0 <= row && 0 <= col && row + p.rows() <= b.rows() && col + p.cols() <= b.cols()
}

/// A placed piece that lies within the board covers only board cells.
pub proof fn lemma_placement_in_board(b: Board, p: Piece, row: int, col: int, mask: Bitboard)
    requires
        b.wf(),
        p.wf(),
        placement_fits(b, p, row, col),
        shifted(mask, p.cells(), 15 * row + col),
    ensures
        b.fits(mask),
        forall|i: int| 0 <= i < 256 ==> #[trigger] mask.bit(i) == covers(p, row, col, i),
{
    b.lemma_wf();
    p.lemma_wf();
    assert forall|i: int| 0 <= i < 256 && #[trigger] mask.bit(i) implies b.valid(i) by {
        let j = i - (15 * row + col);
        assert(p.cells().bit(j));
        bits::lemma_stride_split(j);
        let pr = j / 15;
        let pc = j % 15;
        bits::lemma_stride_index(row + pr, col + pc);
        assert(i == 15 * (row + pr) + (col + pc));
    }
}

#[derive(Clone, Debug)]
pub struct Game {
    board: Board,
    pieces: Vec<Piece>,
    next: usize,
}

impl Game {
    /// The current board.
    pub closed spec fn board_spec(self) -> Board {
        self.board
    }

    /// The pieces, in placement order.
    pub closed spec fn pieces_spec(self) -> Seq<Piece> {
        self.pieces@
    }

    /// Index of the next piece to place.
    pub closed spec fn next_spec(self) -> int {
        self.next as int
    }

    /// Well-formedness: a well-formed board, at least one piece, every piece
    /// well-formed, and the next index within the piece list.
    pub open spec fn wf(self) -> bool {
        &&& self.board_spec().wf()
        &&& self.pieces_spec().len() > 0
        &&& forall|k: int| 0 <= k < self.pieces_spec().len() ==> #[trigger] self.pieces_spec()[k].wf()
        &&& 0 <= self.next_spec() <= self.pieces_spec().len()
    }

    pub fn new(board: Board, pieces: Vec<Piece>) -> (r: Self)
        requires
            board.wf(),
            pieces@.len() > 0,
            forall|k: int| 0 <= k < pieces@.len() ==> #[trigger] pieces@[k].wf(),
        ensures
            r.wf(),
            r.board_spec() == board,
            r.pieces_spec() == pieces@,
            r.next_spec() == 0,
    {
        Self { board, pieces, next: 0 }
    }

    pub fn board(&self) -> (r: &Board)
        ensures
            *r == self.board_spec(),
    {
        &self.board
    }

    pub fn board_mut(&mut self) -> (r: &mut Board)
        ensures
            *r == old(self).board_spec(),
            final(self).board_spec() == *final(r),
            final(self).pieces_spec() == old(self).pieces_spec(),
            final(self).next_spec() == old(self).next_spec(),
    {
        &mut self.board
    }

    pub fn pieces(&self) -> (r: &[Piece])
        ensures
            r@ == self.pieces_spec(),
    {
        self.pieces.as_slice()
    }

    pub fn next_index(&self) -> (r: usize)
        ensures
            r == self.next_spec(),
    {
        self.next
    }

    pub fn next_piece(&self) -> (r: Option<&Piece>)
        ensures
            self.next_spec() < self.pieces_spec().len() ==> r == Some(
                &self.pieces_spec()[self.next_spec()],
            ),
            self.next_spec() >= self.pieces_spec().len() ==> r is None,
    {
        if self.next < self.pieces.len() {
            Some(&self.pieces[self.next])
        } else {
            None
        }
    }

    pub fn remaining(&self) -> (r: usize)
        requires
            self.wf(),
        ensures
            r == self.pieces_spec().len() - self.next_spec(),
    {
        self.pieces.len() - self.next
    }

    pub fn all_placed(&self) -> (r: bool)
        ensures
            r == (self.next_spec() >= self.pieces_spec().len()),
    {
        self.next >= self.pieces.len()
    }

    pub fn is_solved(&self) -> (r: bool)
        requires
            self.wf(),
        ensures
            r == (self.next_spec() >= self.pieces_spec().len() && self.board_spec().deficit() == 0),
    {
        self.all_placed() && self.board.is_solved()
    }

    /// Place the next piece with its anchor at (row, col).
    pub fn place_next(&mut self, row: usize, col: usize)
        requires
            old(self).wf(),
            old(self).next_spec() < old(self).pieces_spec().len(),
            placement_fits(
                old(self).board_spec(),
                old(self).pieces_spec()[old(self).next_spec()],
                row as int,
                col as int,
            ),
        ensures
            final(self).wf(),
            final(self).pieces_spec() == old(self).pieces_spec(),
            final(self).next_spec() == old(self).next_spec() + 1,
            Board::is_applied_where(
                old(self).board_spec(),
                |i: int| covers(old(self).pieces_spec()[old(self).next_spec()], row as int, col as int, i),
                final(self).board_spec(),
            ),
    {
        let piece = self.pieces[self.next];
        let len = self.pieces.len();
        assert(self.next < len);
        let next = self.next + 1;
        proof {
            self.board.lemma_wf();
            piece.lemma_wf();
        }
        let mask = piece.placed_at(row, col);
        proof {
            lemma_placement_in_board(self.board, piece, row as int, col as int, mask);
        }
        self.board.apply_piece(mask);
        self.next = next;
    }

    /// Remove the last placed piece, which was placed with its anchor at (row, col).
    pub fn undo_last(&mut self, row: usize, col: usize)
        requires
            old(self).wf(),
            old(self).next_spec() > 0,
            placement_fits(
                old(self).board_spec(),
                old(self).pieces_spec()[old(self).next_spec() - 1],
                row as int,
                col as int,
            ),
        ensures
            final(self).wf(),
            final(self).pieces_spec() == old(self).pieces_spec(),
            final(self).next_spec() == old(self).next_spec() - 1,
            Board::is_undone_where(
                old(self).board_spec(),
                |i: int| covers(old(self).pieces_spec()[old(self).next_spec() - 1], row as int, col as int, i),
                final(self).board_spec(),
            ),
    {
        self.next = self.next - 1;
        let piece = self.pieces[self.next];
        proof {
            self.board.lemma_wf();
            piece.lemma_wf();
        }
        let mask = piece.placed_at(row, col);
        proof {
            lemma_placement_in_board(self.board, piece, row as int, col as int, mask);
        }
        self.board.undo_piece(mask);
    }
}

/// Removing the last placed piece from where it was placed restores the game:
/// the same pieces, the same next index and the same board.
pub proof fn lemma_undo_restores_game(g0: Game, g1: Game, g2: Game, row: int, col: int)
    requires
        g0.wf(),
        g1.wf(),
        g2.wf(),
        g0.next_spec() < g0.pieces_spec().len(),
        g1.pieces_spec() == g0.pieces_spec(),
        g1.next_spec() == g0.next_spec() + 1,
        Board::is_applied_where(
            g0.board_spec(),
            |i: int| covers(g0.pieces_spec()[g0.next_spec()], row, col, i),
            g1.board_spec(),
        ),
        g2.pieces_spec() == g1.pieces_spec(),
        g2.next_spec() == g1.next_spec() - 1,
        Board::is_undone_where(
            g1.board_spec(),
            |i: int| covers(g1.pieces_spec()[g1.next_spec() - 1], row, col, i),
            g2.board_spec(),
        ),
    ensures
        g2.pieces_spec() == g0.pieces_spec(),
        g2.next_spec() == g0.next_spec(),
        g2.board_spec().same_cells(g0.board_spec()),
        g2.board_spec().deficit() == g0.board_spec().deficit(),
        g2.board_spec() == g0.board_spec(),
{
    let b0 = g0.board_spec();
    let b1 = g1.board_spec();
    let b2 = g2.board_spec();
    let p = g0.pieces_spec()[g0.next_spec()];
    b0.lemma_wf();
    b2.lemma_wf();
    assert forall|i: int| 0 <= i < 256 implies #[trigger] b2.cell(i) == b0.cell(i) by {
        assert(b1.cell(i) == applied_value(b0.cell(i), b0.modulus(), covers(p, row, col, i)));
        assert(b2.cell(i) == undone_value(b1.cell(i), b1.modulus(), covers(p, row, col, i)));
        if b0.valid(i) {
            lemma_undo_after_apply(b0.cell(i), b0.modulus(), covers(p, row, col, i));
        } else {
            b1.lemma_wf();
        }
    }
    Board::lemma_cells_deficit(b2, b0);
    Board::lemma_board_ext(b2, b0);
}

} // verus!
