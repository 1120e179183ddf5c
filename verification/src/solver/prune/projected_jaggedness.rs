//! Jaggedness pruning on the row and column projections of the board.
//!
//! Summing cell values modulo M along every row (or column) maps the game to
//! a one-dimensional game, so a solution of the board gives a solution of
//! both projected games. Only M = 2 is used: a projection then fits in a
//! `u16`, a projected piece is applied by exclusive or, and the variation of
//! a projection is the number of bit changes along it, counting the zero
//! padding below it.

use vstd::prelude::*;
use crate::model::board::Board;
use crate::bits;
use crate::game::placement_fits;
use crate::model::board::applied_value;
use crate::model::bitboard::Bitboard;
use crate::model::piece::{Piece, in_box, shifted};

verus! {

/// Bit `j` of a 16-bit value.
pub open spec fn bit16(x: u16, j: int) -> bool {
    (x >> (j as u16)) & 1u16 == 1u16
}

/// Bit `j` of an 8-bit value.
pub open spec fn bit8(x: u8, j: int) -> bool {
    (x >> (j as u8)) & 1u8 == 1u8
}

/// Bit `j` of `x` differs from the bit below it (zero below bit 0).
pub open spec fn changes_at(x: u16, j: int) -> bool {
    bit16(x, j) != (j > 0 && bit16(x, j - 1))
}

/// Number of positions below `n` where a bit of `x` differs from the one below.
pub open spec fn changes_upto(x: u16, n: int) -> nat
    decreases n,
{
    if n <= 0 {
        0
    } else {
        changes_upto(x, n - 1) + if changes_at(x, n - 1) {
            1nat
        } else {
            0nat
        }
    }
}

/// The variation of a projection: its bit changes over its 16 positions.
pub open spec fn variation(x: u16) -> nat {
    changes_upto(x, 16)
}

proof fn lemma_change_bits(x: u16, j: u16)
    by (bit_vector)
    requires
        1 <= j < 16,
    ensures
        (((x ^ (x << 1u16)) >> j) & 1u16 == 1u16) == (((x >> j) & 1u16 == 1u16) != ((x >> ((j - 1) as u16))
            & 1u16 == 1u16)),
{
}

proof fn lemma_change_bit0(x: u16)
    by (bit_vector)
    ensures
        ((x ^ (x << 1u16)) & 1u16 == 1u16) == (x & 1u16 == 1u16),
{
}

proof fn lemma_shift0(x: u16)
    by (bit_vector)
    ensures
        x >> 0u16 == x,
{
}

/// Number of bit changes of `bits`, counting the zero padding below bit 0.
pub fn binary_variation(bits: u16) -> (r: u32)
    ensures
        r == variation(bits),
        r <= 16,
{
    let changes = bits ^ (bits << 1u16);
    let mut count: u32 = 0;
    let mut j: u16 = 0;
    while j < 16
        invariant
            j <= 16,
            changes == bits ^ (bits << 1u16),
            count == changes_upto(bits, j as int),
            count <= j,
        decreases 16 - j,
    {
        proof {
            if j == 0 {
                lemma_change_bit0(bits);
                lemma_shift0(changes);
                lemma_shift0(bits);
            } else {
                lemma_change_bits(bits, j);
            }
            assert(((changes >> j) & 1 == 1) == changes_at(bits, j as int));
        }
        if (changes >> j) & 1 == 1 {
            count = count + 1;
        }
        j = j + 1;
    }
    count
}

/// Number of cells of `p` in row `r` among its first `c` columns.
pub open spec fn row_cells(p: Piece, r: int, c: int) -> nat
    decreases c,
{
    if c <= 0 {
        0
    } else {
        row_cells(p, r, c - 1) + if p.cells().bit(15 * r + c - 1) {
            1nat
        } else {
            0nat
        }
    }
}

/// Number of cells of `p` in column `c` among its first `r` rows.
pub open spec fn col_cells(p: Piece, c: int, r: int) -> nat
    decreases r,
{
    if r <= 0 {
        0
    } else {
        col_cells(p, c, r - 1) + if p.cells().bit(15 * (r - 1) + c) {
            1nat
        } else {
            0nat
        }
    }
}

/// The parities of a piece's rows (or columns), one bit each.
#[derive(Clone, Copy, Debug, Default)]
pub struct ProjectedProfile {
    pub parity_mask: u8,
}

proof fn lemma_flip8(x: u8, r: u8, j: u8)
    by (bit_vector)
    requires
        r < 8,
        j < 8,
    ensures
        (((x ^ (1u8 << r)) >> j) & 1u8 == 1u8) == (((x >> j) & 1u8 == 1u8) != (j == r)),
{
}

proof fn lemma_zero8(j: u8)
    by (bit_vector)
    ensures
        (0u8 >> j) & 1u8 != 1u8,
{
}

/// The row and column parity profiles of a piece: bit `r` of the first is
/// set when row `r` holds an odd number of cells, bit `c` of the second
/// when column `c` does.
pub fn profiles(piece: &Piece) -> (r: (ProjectedProfile, ProjectedProfile))
    requires
        piece.wf(),
    ensures
        forall|j: int|
            0 <= j < 8 ==> #[trigger] bit8(r.0.parity_mask, j) == (j < piece.rows() && row_cells(*piece, j, piece.cols())
                % 2 == 1),
        forall|j: int|
            0 <= j < 8 ==> #[trigger] bit8(r.1.parity_mask, j) == (j < piece.cols() && col_cells(*piece, j, piece.rows())
                % 2 == 1),
{
    proof {
        piece.lemma_wf();
    }
    let height = piece.height() as usize;
    let width = piece.width() as usize;
    let shape = piece.shape();
    let mut rows: u8 = 0;
    let mut cols: u8 = 0;
    proof {
        assert forall|j: u8| j < 8 implies !bit8(0u8, j as int) by {
            lemma_zero8(j);
        }
    }
    let mut r: usize = 0;
    while r < height
        invariant
            piece.wf(),
            height == piece.rows(),
            width == piece.cols(),
            1 <= height <= 5,
            1 <= width <= 5,
            shape == piece.cells(),
            r <= height,
            forall|j: int| 0 <= j < 8 ==> #[trigger] bit8(rows, j) == (j < r && row_cells(*piece, j, width as int) % 2 == 1),
            forall|j: int| 0 <= j < 8 ==> #[trigger] bit8(cols, j) == (j < width && col_cells(*piece, j, r as int) % 2 == 1),
        decreases height - r,
    {
        let mut c: usize = 0;
        while c < width
            invariant
                piece.wf(),
                height == piece.rows(),
                width == piece.cols(),
                1 <= height <= 5,
                1 <= width <= 5,
                shape == piece.cells(),
                r < height,
                c <= width,
                forall|j: int|
                    0 <= j < 8 ==> #[trigger] bit8(rows, j) == if j < r {
                        row_cells(*piece, j, width as int) % 2 == 1
                    } else if j == r {
                        row_cells(*piece, j, c as int) % 2 == 1
                    } else {
                        false
                    },
                forall|j: int|
                    0 <= j < 8 ==> #[trigger] bit8(cols, j) == (j < width && col_cells(*piece, j, if j < c {
                        r + 1
                    } else {
                        r as int
                    }) % 2 == 1),
            decreases width - c,
        {
            if shape.get_bit((r * 15 + c) as u32) {
                let ghost old_rows = rows;
                let ghost old_cols = cols;
                rows = rows ^ (1u8 << (r as u8));
                cols = cols ^ (1u8 << (c as u8));
                proof {
                    assert forall|j: int| 0 <= j < 8 implies #[trigger] bit8(rows, j) == (bit8(old_rows, j) != (j == r)) by {
                        lemma_flip8(old_rows, r as u8, j as u8);
                    }
                    assert forall|j: int| 0 <= j < 8 implies #[trigger] bit8(cols, j) == (bit8(old_cols, j) != (j == c)) by {
                        lemma_flip8(old_cols, c as u8, j as u8);
                    }
                }
            }
            c = c + 1;
        }
        r = r + 1;
    }
    (ProjectedProfile { parity_mask: rows }, ProjectedProfile { parity_mask: cols })
}


/// `mask` holds the row parities of `p`.
pub open spec fn is_row_profile(mask: u8, p: Piece) -> bool {
    forall|j: int| 0 <= j < 8 ==> #[trigger] bit8(mask, j) == (j < p.rows() && row_cells(p, j, p.cols()) % 2 == 1)
}

/// `mask` holds the column parities of `p`.
pub open spec fn is_col_profile(mask: u8, p: Piece) -> bool {
    forall|j: int| 0 <= j < 8 ==> #[trigger] bit8(mask, j) == (j < p.cols() && col_cells(p, j, p.rows()) % 2 == 1)
}

/// Sum of the values of row `r` of `b` over its first `c` columns.
pub open spec fn row_sum(b: Board, r: int, c: int) -> int
    decreases c,
{
    if c <= 0 {
        0
    } else {
        row_sum(b, r, c - 1) + b.value(r, c - 1)
    }
}

/// Sum of the values of column `c` of `b` over its first `r` rows.
pub open spec fn col_sum(b: Board, c: int, r: int) -> int
    decreases r,
{
    if r <= 0 {
        0
    } else {
        col_sum(b, c, r - 1) + b.value(r - 1, c)
    }
}

/// The row and column projections of a board with M = 2: bit `r` of `rows`
/// is the parity of row `r`, bit `c` of `cols` that of column `c`.
#[derive(Clone, Copy, Debug, Default, PartialEq, Eq)]
pub struct ProjectedState {
    pub rows: u16,
    pub cols: u16,
}

proof fn lemma_flip16(x: u16, v: u16, r: u16, j: u16)
    by (bit_vector)
    requires
        v <= 1,
        r < 16,
        j < 16,
    ensures
        (((x ^ (v << r)) >> j) & 1u16 == 1u16) == (((x >> j) & 1u16 == 1u16) != (v == 1 && j == r)),
{
}

proof fn lemma_zero16(j: u16)
    by (bit_vector)
    ensures
        (0u16 >> j) & 1u16 != 1u16,
{
}

impl ProjectedState {
    /// The projections of `board`; both zero unless its modulus is 2.
    pub fn from_board(board: &Board) -> (r: Self)
        requires
            board.wf(),
        ensures
            board.modulus() != 2 ==> r.rows == 0 && r.cols == 0,
            board.modulus() == 2 ==> forall|j: int|
                0 <= j < 16 ==> #[trigger] bit16(r.rows, j) == (j < board.rows() && row_sum(*board, j, board.cols()) % 2 == 1),
            board.modulus() == 2 ==> forall|j: int|
                0 <= j < 16 ==> #[trigger] bit16(r.cols, j) == (j < board.cols() && col_sum(*board, j, board.rows()) % 2 == 1),
    {
        proof {
            board.lemma_wf();
        }
        let m = board.m();
        if m != 2 {
            return ProjectedState { rows: 0, cols: 0 };
        }
        let height = board.height() as usize;
        let width = board.width() as usize;
        let mut rows: u16 = 0;
        let mut cols: u16 = 0;
        proof {
            assert forall|j: int| 0 <= j < 16 implies !bit16(0u16, j) by {
                lemma_zero16(j as u16);
            }
        }
        let mut r: usize = 0;
        while r < height
            invariant
                board.wf(),
                board.modulus() == 2,
                height == board.rows(),
                width == board.cols(),
                3 <= height <= 14,
                3 <= width <= 14,
                r <= height,
                forall|j: int| 0 <= j < 16 ==> #[trigger] bit16(rows, j) == (j < r && row_sum(*board, j, width as int) % 2 == 1),
                forall|j: int| 0 <= j < 16 ==> #[trigger] bit16(cols, j) == (j < width && col_sum(*board, j, r as int) % 2 == 1),
            decreases height - r,
        {
            let mut c: usize = 0;
            while c < width
                invariant
                    board.wf(),
                    board.modulus() == 2,
                    height == board.rows(),
                    width == board.cols(),
                    3 <= height <= 14,
                    3 <= width <= 14,
                    r < height,
                    c <= width,
                    forall|j: int|
                        0 <= j < 16 ==> #[trigger] bit16(rows, j) == if j < r {
                            row_sum(*board, j, width as int) % 2 == 1
                        } else if j == r {
                            row_sum(*board, j, c as int) % 2 == 1
                        } else {
                            false
                        },
                    forall|j: int|
                        0 <= j < 16 ==> #[trigger] bit16(cols, j) == (j < width && col_sum(*board, j, if j < c {
                            r + 1
                        } else {
                            r as int
                        }) % 2 == 1),
                decreases width - c,
            {
                let value = board.get(r, c);
                let ghost old_rows = rows;
                let ghost old_cols = cols;
                rows = rows ^ ((value as u16) << (r as u16));
                cols = cols ^ ((value as u16) << (c as u16));
                proof {
                    assert forall|j: int| 0 <= j < 16 implies #[trigger] bit16(rows, j) == (bit16(old_rows, j) != (value == 1
                        && j == r)) by {
                        lemma_flip16(old_rows, value as u16, r as u16, j as u16);
                    }
                    assert forall|j: int| 0 <= j < 16 implies #[trigger] bit16(cols, j) == (bit16(old_cols, j) != (value == 1
                        && j == c)) by {
                        lemma_flip16(old_cols, value as u16, c as u16, j as u16);
                    }
                }
                c = c + 1;
            }
            r = r + 1;
        }
        ProjectedState { rows, cols }
    }

    /// Apply the projections of piece `piece_idx` placed at (`row`, `col`):
    /// its row profile moved up by `row` flips the row projection, its
    /// column profile moved up by `col` the column one. Nothing changes
    /// unless the modulus is 2.
    pub fn apply_piece(&mut self, prune: &ProjectedJaggednessPrune, piece_idx: usize, row: usize, col: usize)
        requires
            prune.modulus() == 2 ==> piece_idx < prune.row_masks().len() && piece_idx < prune.col_masks().len(),
            row < 16,
            col < 16,
        ensures
            prune.modulus() != 2 ==> *final(self) == *old(self),
            prune.modulus() == 2 ==> final(self).rows == old(self).rows ^ ((prune.row_masks()[piece_idx as int] as u16)
                << (row as u16)),
            prune.modulus() == 2 ==> final(self).cols == old(self).cols ^ ((prune.col_masks()[piece_idx as int] as u16)
                << (col as u16)),
    {
        if prune.m != 2 {
            return;
        }
        self.rows = self.rows ^ ((prune.row_profiles[piece_idx].parity_mask as u16) << (row as u16));
        self.cols = self.cols ^ ((prune.col_profiles[piece_idx].parity_mask as u16) << (col as u16));
    }
}

/// Sum of the variations of the masks `ms[i..]`.
pub open spec fn suffix_variation(ms: Seq<u8>, i: int) -> int
    decreases ms.len() - i,
{
    if i < 0 || i >= ms.len() {
        0
    } else {
        variation(ms[i] as u16) + suffix_variation(ms, i + 1)
    }
}

/// `first` is the first index of `rem[0..=n]` below `bound`, or `n` if none is.
pub open spec fn first_below(rem: Seq<u32>, bound: int, n: int, first: int) -> bool {
    &&& 0 <= first <= n
    &&& forall|i: int| 0 <= i < first ==> #[trigger] rem[i] >= bound
    &&& rem[first] < bound || (first == n && forall|i: int| 0 <= i <= n ==> #[trigger] rem[i] >= bound)
}

/// Projected jaggedness bounds, by solver depth: the variation the
/// remaining pieces can still remove from each projection.
pub struct ProjectedJaggednessPrune {
    row_profiles: Vec<ProjectedProfile>,
    col_profiles: Vec<ProjectedProfile>,
    remaining_row: Vec<u32>,
    remaining_col: Vec<u32>,
    first_row_useful: usize,
    first_col_useful: usize,
    m: u8,
}

impl ProjectedJaggednessPrune {
    /// The row profiles of the pieces in solver order.
    pub closed spec fn row_masks(self) -> Seq<u8> {
        self.row_profiles@.map_values(|p: ProjectedProfile| p.parity_mask)
    }

    /// The column profiles of the pieces in solver order.
    pub closed spec fn col_masks(self) -> Seq<u8> {
        self.col_profiles@.map_values(|p: ProjectedProfile| p.parity_mask)
    }

    /// Row variation the pieces from each depth on can remove.
    pub closed spec fn remaining_rows(self) -> Seq<u32> {
        self.remaining_row@
    }

    /// Column variation the pieces from each depth on can remove.
    pub closed spec fn remaining_cols(self) -> Seq<u32> {
        self.remaining_col@
    }

    /// First depth from which the row bound can prune.
    pub closed spec fn first_row(self) -> int {
        self.first_row_useful as int
    }

    /// First depth from which the column bound can prune.
    pub closed spec fn first_col(self) -> int {
        self.first_col_useful as int
    }

    /// The modulus the bounds were built for.
    pub closed spec fn modulus(self) -> int {
        self.m as int
    }

    /// Build the bounds for `pieces` taken in `order` on a `height` by
    /// `width` board with modulus `m`; only M = 2 has profiles and bounds.
    pub fn precompute(pieces: &[Piece], order: &[usize], height: u8, width: u8, m: u8) -> (r: Self)
        requires
            order@.len() < 65536,
            forall|i: int| 0 <= i < order@.len() ==> #[trigger] order@[i] < pieces@.len(),
            forall|p: int| 0 <= p < pieces@.len() ==> #[trigger] pieces@[p].wf(),
        ensures
            r.modulus() == m,
            m == 2 ==> r.row_masks().len() == order@.len() && r.col_masks().len() == order@.len(),
            m != 2 ==> r.row_masks().len() == 0 && r.col_masks().len() == 0,
            forall|i: int|
                0 <= i < r.row_masks().len() ==> is_row_profile(#[trigger] r.row_masks()[i], pieces@[order@[i] as int]),
            forall|i: int|
                0 <= i < r.col_masks().len() ==> is_col_profile(#[trigger] r.col_masks()[i], pieces@[order@[i] as int]),
            r.remaining_rows().len() == order@.len() + 1,
            r.remaining_cols().len() == order@.len() + 1,
            forall|i: int|
                0 <= i <= order@.len() ==> #[trigger] r.remaining_rows()[i] == suffix_variation(r.row_masks(), i),
            forall|i: int|
                0 <= i <= order@.len() ==> #[trigger] r.remaining_cols()[i] == suffix_variation(r.col_masks(), i),
            first_below(r.remaining_rows(), height + height % 2, order@.len() as int, r.first_row()),
            first_below(r.remaining_cols(), width + width % 2, order@.len() as int, r.first_col()),
    {
        let n = order.len();
        let mut row_profiles: Vec<ProjectedProfile> = Vec::new();
        let mut col_profiles: Vec<ProjectedProfile> = Vec::new();
        if m == 2 {
            let mut i: usize = 0;
            while i < n
                invariant
                    n == order@.len(),
                    forall|k: int| 0 <= k < order@.len() ==> #[trigger] order@[k] < pieces@.len(),
                    forall|p: int| 0 <= p < pieces@.len() ==> #[trigger] pieces@[p].wf(),
                    i <= n,
                    row_profiles@.len() == i,
                    col_profiles@.len() == i,
                    forall|k: int| 0 <= k < i ==> is_row_profile((#[trigger] row_profiles@[k]).parity_mask, pieces@[order@[k] as int]),
                    forall|k: int| 0 <= k < i ==> is_col_profile((#[trigger] col_profiles@[k]).parity_mask, pieces@[order@[k] as int]),
                decreases n - i,
            {
                let piece_idx = order[i];
                let (rows, cols) = profiles(&pieces[piece_idx]);
                row_profiles.push(rows);
                col_profiles.push(cols);
                i = i + 1;
            }
        }
        let ghost rm = row_profiles@.map_values(|p: ProjectedProfile| p.parity_mask);
        let ghost cm = col_profiles@.map_values(|p: ProjectedProfile| p.parity_mask);
        let count = row_profiles.len();
        let mut remaining_row: Vec<u32> = Vec::new();
        let mut remaining_col: Vec<u32> = Vec::new();
        let mut k: usize = 0;
        while k <= n
            invariant
                n < 65536,
                k <= n + 1,
                remaining_row@.len() == k,
                remaining_col@.len() == k,
                forall|i: int| 0 <= i < k ==> #[trigger] remaining_row@[i] == 0,
                forall|i: int| 0 <= i < k ==> #[trigger] remaining_col@[i] == 0,
            decreases n + 1 - k,
        {
            remaining_row.push(0);
            remaining_col.push(0);
            k = k + 1;
        }
        let mut i: usize = count;
        while i > 0
            invariant
                n == order@.len(),
                n < 65536,
                count == rm.len(),
                count == cm.len(),
                count == 0 || count == n,
                rm == row_profiles@.map_values(|p: ProjectedProfile| p.parity_mask),
                cm == col_profiles@.map_values(|p: ProjectedProfile| p.parity_mask),
                row_profiles@.len() == count,
                col_profiles@.len() == count,
                i <= count,
                remaining_row@.len() == n + 1,
                remaining_col@.len() == n + 1,
                forall|j: int| i <= j <= n ==> #[trigger] remaining_row@[j] == suffix_variation(rm, j),
                forall|j: int| i <= j <= n ==> #[trigger] remaining_col@[j] == suffix_variation(cm, j),
                forall|j: int| 0 <= j < i ==> #[trigger] remaining_row@[j] == 0,
                forall|j: int| 0 <= j < i ==> #[trigger] remaining_col@[j] == 0,
                forall|j: int| i <= j <= n ==> suffix_variation(rm, j) <= 16 * (n - j),
                forall|j: int| i <= j <= n ==> suffix_variation(cm, j) <= 16 * (n - j),
            decreases i,
        {
            i = i - 1;
            let row_step = binary_variation(row_profiles[i].parity_mask as u16);
            let col_step = binary_variation(col_profiles[i].parity_mask as u16);
            let row_next = remaining_row[i + 1];
            let col_next = remaining_col[i + 1];
            remaining_row.set(i, row_next + row_step);
            remaining_col.set(i, col_next + col_step);
        }
        proof {
            assert forall|j: int| 0 <= j <= n implies #[trigger] remaining_row@[j] == suffix_variation(rm, j) by {
                if count == 0 {
                    assert(suffix_variation(rm, j) == 0);
                }
            }
            assert forall|j: int| 0 <= j <= n implies #[trigger] remaining_col@[j] == suffix_variation(cm, j) by {
                if count == 0 {
                    assert(suffix_variation(cm, j) == 0);
                }
            }
        }
        proof {
            assert((height as u32 & 1) <= 1) by (bit_vector);
            assert((width as u32 & 1) <= 1) by (bit_vector);
        }
        let max_row_variation = height as u32 + (height as u32 & 1);
        let max_col_variation = width as u32 + (width as u32 & 1);
        let first_row_useful = first_index_below(&remaining_row, max_row_variation, n);
        let first_col_useful = first_index_below(&remaining_col, max_col_variation, n);
        proof {
            assert((height as u32 & 1) == height % 2) by (bit_vector);
            assert((width as u32 & 1) == width % 2) by (bit_vector);
        }
        ProjectedJaggednessPrune {
            row_profiles,
            col_profiles,
            remaining_row,
            remaining_col,
            first_row_useful,
            first_col_useful,
            m,
        }
    }

    /// False when the projections show more variation than the remaining
    /// pieces can remove, from the depths where the bounds can prune; always
    /// true unless the modulus is 2.
    pub fn try_prune(&self, state: &ProjectedState, piece_idx: usize) -> (r: bool)
        requires
            piece_idx < self.remaining_rows().len(),
            piece_idx < self.remaining_cols().len(),
        ensures
            r == (self.modulus() != 2 || ((piece_idx < self.first_row() || variation(state.rows)
                <= self.remaining_rows()[piece_idx as int]) && (piece_idx < self.first_col() || variation(state.cols)
                <= self.remaining_cols()[piece_idx as int]))),
    {
        if self.m != 2 {
            return true;
        }
        if piece_idx >= self.first_row_useful {
            let row = binary_variation(state.rows);
            if row > self.remaining_row[piece_idx] {
                return false;
            }
        }
        piece_idx < self.first_col_useful || binary_variation(state.cols) <= self.remaining_col[piece_idx]
    }
}

/// The first index of `rem[0..=n]` holding a value below `bound`, or `n`.
fn first_index_below(rem: &Vec<u32>, bound: u32, n: usize) -> (r: usize)
    requires
        rem@.len() == n + 1,
        n < 65536,
    ensures
        first_below(rem@, bound as int, n as int, r as int),
{
    let mut i: usize = 0;
    while i <= n
        invariant
            rem@.len() == n + 1,
            n < 65536,
            i <= n + 1,
            forall|j: int| 0 <= j < i ==> #[trigger] rem@[j] >= bound,
        decreases n + 1 - i,
    {
        if rem[i] < bound {
            return i;
        }
        i = i + 1;
    }
    n
}


/// Cells of `mask` in row `j` among the first `c` columns.
pub open spec fn mask_row_hits(mask: Bitboard, j: int, c: int) -> nat
    decreases c,
{
    if c <= 0 {
        0
    } else {
        mask_row_hits(mask, j, c - 1) + if mask.bit(15 * j + c - 1) {
            1nat
        } else {
            0nat
        }
    }
}

/// Cells of `mask` in column `c` among the first `r` rows.
pub open spec fn mask_col_hits(mask: Bitboard, c: int, r: int) -> nat
    decreases r,
{
    if r <= 0 {
        0
    } else {
        mask_col_hits(mask, c, r - 1) + if mask.bit(15 * (r - 1) + c) {
            1nat
        } else {
            0nat
        }
    }
}

/// `x` held between 0 and `w`.
pub open spec fn clamp(x: int, w: int) -> int {
    if x < 0 {
        0
    } else if x > w {
        w
    } else {
        x
    }
}

/// A piece placed at (`row`, `col`) on a board of at most 14 columns covers
/// the board cell (`r`, `c`) exactly when that cell lies in the piece's box
/// and the piece has a cell there.
proof fn lemma_mask_point(p: Piece, row: int, col: int, mask: Bitboard, width: int, r: int, c: int)
    requires
        p.wf(),
        0 <= row,
        0 <= col,
        col + p.cols() <= width <= 14,
        shifted(mask, p.cells(), 15 * row + col),
        0 <= r < 15,
        0 <= c < width,
    ensures
        mask.bit(15 * r + c) == (row <= r < row + p.rows() && col <= c < col + p.cols() && p.cells().bit(
            15 * (r - row) + (c - col),
        )),
{
    p.lemma_wf();
    let i = 15 * r + c;
    let k = i - (15 * row + col);
    if 0 <= i < 256 && mask.bit(i) {
        assert(p.cells().bit(k));
        assert(in_box(p.rows(), p.cols(), k));
        if c >= col {
            bits::lemma_stride_index(r - row, c - col);
            assert(k == 15 * (r - row) + (c - col));
        } else {
            bits::lemma_stride_index(r - row - 1, 15 + c - col);
            assert(k == 15 * (r - row - 1) + (15 + c - col));
        }
    }
    if row <= r < row + p.rows() && col <= c < col + p.cols() && p.cells().bit(15 * (r - row) + (c - col)) {
        assert(k == 15 * (r - row) + (c - col));
        assert(0 <= k < 256);
        assert(i < 256);
    }
}

/// The cells a placed piece covers in a board row are its cells in the
/// matching row of its box.
proof fn lemma_row_hits(p: Piece, row: int, col: int, mask: Bitboard, width: int, j: int, c: int)
    requires
        p.wf(),
        0 <= row,
        0 <= col,
        col + p.cols() <= width <= 14,
        shifted(mask, p.cells(), 15 * row + col),
        0 <= j < 15,
        0 <= c <= width,
    ensures
        mask_row_hits(mask, j, c) == if row <= j < row + p.rows() {
            row_cells(p, j - row, clamp(c - col, p.cols() as int))
        } else {
            0
        },
    decreases c,
{
    if c > 0 {
        lemma_row_hits(p, row, col, mask, width, j, c - 1);
        lemma_mask_point(p, row, col, mask, width, j, c - 1);
    }
}

/// The cells a placed piece covers in a board column are its cells in the
/// matching column of its box.
proof fn lemma_col_hits(p: Piece, row: int, col: int, mask: Bitboard, width: int, height: int, j: int, r: int)
    requires
        p.wf(),
        0 <= row,
        0 <= col,
        col + p.cols() <= width <= 14,
        row + p.rows() <= height <= 14,
        shifted(mask, p.cells(), 15 * row + col),
        0 <= j < width,
        0 <= r <= height,
    ensures
        mask_col_hits(mask, j, r) == if col <= j < col + p.cols() {
            col_cells(p, j - col, clamp(r - row, p.rows() as int))
        } else {
            0
        },
    decreases r,
{
    if r > 0 {
        lemma_col_hits(p, row, col, mask, width, height, j, r - 1);
        lemma_mask_point(p, row, col, mask, width, r - 1, j);
    }
}

/// With modulus 2, a row sum changes by the covered cells, mod 2.
proof fn lemma_row_sum_parity(b: Board, mask: Bitboard, after: Board, j: int, c: int)
    requires
        b.wf(),
        b.modulus() == 2,
        Board::is_applied(b, mask, after),
        0 <= j < b.rows(),
        0 <= c <= b.cols(),
    ensures
        (row_sum(after, j, c) - row_sum(b, j, c) - mask_row_hits(mask, j, c)) % 2 == 0,
    decreases c,
{
    b.lemma_wf();
    if c > 0 {
        lemma_row_sum_parity(b, mask, after, j, c - 1);
        let i = 15 * j + c - 1;
        bits::lemma_stride_index(j, c - 1);
        assert(b.valid(i));
        assert(after.cell(i) == applied_value(b.cell(i), 2, mask.bit(i)));
    }
}

/// With modulus 2, a column sum changes by the covered cells, mod 2.
proof fn lemma_col_sum_parity(b: Board, mask: Bitboard, after: Board, j: int, r: int)
    requires
        b.wf(),
        b.modulus() == 2,
        Board::is_applied(b, mask, after),
        0 <= j < b.cols(),
        0 <= r <= b.rows(),
    ensures
        (col_sum(after, j, r) - col_sum(b, j, r) - mask_col_hits(mask, j, r)) % 2 == 0,
    decreases r,
{
    b.lemma_wf();
    if r > 0 {
        lemma_col_sum_parity(b, mask, after, j, r - 1);
        let i = 15 * (r - 1) + j;
        bits::lemma_stride_index(r - 1, j);
        assert(b.valid(i));
        assert(after.cell(i) == applied_value(b.cell(i), 2, mask.bit(i)));
    }
}

proof fn lemma_shifted_bit16(m: u8, r: u16, j: u16)
    by (bit_vector)
    requires
        r < 16,
        j < 16,
    ensures
        ((((m as u16) << r) >> j) & 1u16 == 1u16) == (r <= j && j - r < 8 && ((m >> ((j - r) as u8)) & 1u8 == 1u8)),
{
}

/// One row of `lemma_projection_follows_board`.
proof fn lemma_row_follows(b: Board, p: Piece, row: int, col: int, mask: Bitboard, after: Board, row_mask: u8, j: int)
    requires
        b.wf(),
        b.modulus() == 2,
        p.wf(),
        placement_fits(b, p, row, col),
        shifted(mask, p.cells(), 15 * row + col),
        Board::is_applied(b, mask, after),
        is_row_profile(row_mask, p),
        0 <= j < 16,
    ensures
        (j < after.rows() && row_sum(after, j, after.cols()) % 2 == 1) == ((j < b.rows() && row_sum(b, j, b.cols()) % 2
            == 1) != bit16(((row_mask as u16) << (row as u16)), j)),
{
    b.lemma_wf();
    p.lemma_wf();
    lemma_shifted_bit16(row_mask, row as u16, j as u16);
    if row <= j && j - row < 8 {
        assert(bit8(row_mask, j - row) == (j - row < p.rows() && row_cells(p, j - row, p.cols()) % 2 == 1));
    }
    if j < b.rows() {
        lemma_row_sum_parity(b, mask, after, j, b.cols());
        lemma_row_hits(p, row, col, mask, b.cols(), j, b.cols());
    }
}

/// One column of `lemma_projection_follows_board`.
proof fn lemma_col_follows(b: Board, p: Piece, row: int, col: int, mask: Bitboard, after: Board, col_mask: u8, j: int)
    requires
        b.wf(),
        b.modulus() == 2,
        p.wf(),
        placement_fits(b, p, row, col),
        shifted(mask, p.cells(), 15 * row + col),
        Board::is_applied(b, mask, after),
        is_col_profile(col_mask, p),
        0 <= j < 16,
    ensures
        (j < after.cols() && col_sum(after, j, after.rows()) % 2 == 1) == ((j < b.cols() && col_sum(b, j, b.rows()) % 2
            == 1) != bit16(((col_mask as u16) << (col as u16)), j)),
{
    b.lemma_wf();
    p.lemma_wf();
    lemma_shifted_bit16(col_mask, col as u16, j as u16);
    if col <= j && j - col < 8 {
        assert(bit8(col_mask, j - col) == (j - col < p.cols() && col_cells(p, j - col, p.rows()) % 2 == 1));
    }
    if j < b.cols() {
        lemma_col_sum_parity(b, mask, after, j, b.rows());
        lemma_col_hits(p, row, col, mask, b.cols(), b.rows(), j, b.rows());
    }
}

/// The projections follow the board: placing a piece on a board with
/// modulus 2 flips the parity of each row by the piece's row parity moved to
/// the piece's row, and that of each column by its column parity moved to
/// the piece's column. So the projections of the board after the move are
/// the projections before it with the piece's profiles applied, as
/// `ProjectedState::apply_piece` applies them.
pub proof fn lemma_projection_follows_board(
    b: Board,
    p: Piece,
    row: int,
    col: int,
    mask: Bitboard,
    after: Board,
    row_mask: u8,
    col_mask: u8,
)
    requires
        b.wf(),
        b.modulus() == 2,
        p.wf(),
        placement_fits(b, p, row, col),
        shifted(mask, p.cells(), 15 * row + col),
        Board::is_applied(b, mask, after),
        is_row_profile(row_mask, p),
        is_col_profile(col_mask, p),
    ensures
        forall|j: int|
            0 <= j < 16 ==> (j < after.rows() && row_sum(after, j, after.cols()) % 2 == 1) == ((j < b.rows()
                && row_sum(b, j, b.cols()) % 2 == 1) != #[trigger] bit16(((row_mask as u16) << (row as u16)), j)),
        forall|j: int|
            0 <= j < 16 ==> (j < after.cols() && col_sum(after, j, after.rows()) % 2 == 1) == ((j < b.cols()
                && col_sum(b, j, b.rows()) % 2 == 1) != #[trigger] bit16(((col_mask as u16) << (col as u16)), j)),
{
    assert forall|j: int| 0 <= j < 16 implies (j < after.rows() && row_sum(after, j, after.cols()) % 2 == 1) == ((j
        < b.rows() && row_sum(b, j, b.cols()) % 2 == 1) != #[trigger] bit16(((row_mask as u16) << (row as u16)), j)) by {
        lemma_row_follows(b, p, row, col, mask, after, row_mask, j);
    }
    assert forall|j: int| 0 <= j < 16 implies (j < after.cols() && col_sum(after, j, after.rows()) % 2 == 1) == ((j
        < b.cols() && col_sum(b, j, b.rows()) % 2 == 1) != #[trigger] bit16(((col_mask as u16) << (col as u16)), j)) by {
        lemma_col_follows(b, p, row, col, mask, after, col_mask, j);
    }
}

} // verus!
