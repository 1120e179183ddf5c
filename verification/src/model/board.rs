//! The board state represented as M bitboards, one per digit value.

use vstd::prelude::*;
use vstd::string::StringExecFns;
use crate::bits;
use crate::model::bitboard::Bitboard;
use crate::text::{decimal, append_decimal};

verus! {

/// Maximum value of M (number of digit states per cell).
pub const MAX_M: usize = 5;

/// The board state represented as M bitboards, one per digit value.
/// `planes[d]` has bit (r, c) set iff cell (r, c) has value `d`.
/// The planes are mutually exclusive — each cell appears in exactly one plane.
#[derive(Clone, Copy, PartialEq, Eq, Debug)]
pub struct Board {
    /// One bitboard per digit value 0..M.
    planes: [Bitboard; 5],
    /// Number of digit states. Cells hold values in [0, M).
    m: u8,
    /// Board height.
    height: u8,
    /// Board width.
    width: u8,
    /// Total deficit: sum of per-cell decrements still needed to solve.
    total_deficit: u32,
}

/// The first line of a board's text: `Board(HxW, m=M)`.
pub open spec fn board_header(b: Board) -> Seq<char> {
    "Board("@ + decimal(b.rows()) + "x"@ + decimal(b.cols()) + ", m="@ + decimal(b.modulus()) + ")\n"@
}

/// The first `c` values of row `r`, separated by spaces.
pub open spec fn row_text(b: Board, r: int, c: int) -> Seq<char>
    decreases c,
{
    if c <= 0 {
        Seq::empty()
    } else {
        row_text(b, r, c - 1) + (if c - 1 > 0 {
            " "@
        } else {
            Seq::empty()
        }) + decimal(b.value(r, c - 1))
    }
}

/// The first `k` rows, one per line.
pub open spec fn rows_text(b: Board, k: int) -> Seq<char>
    decreases k,
{
    if k <= 0 {
        Seq::empty()
    } else {
        rows_text(b, k - 1) + row_text(b, k - 1, b.cols()) + "\n"@
    }
}

/// The board as text.
pub open spec fn board_text(b: Board) -> Seq<char> {
    board_header(b) + rows_text(b, b.rows())
}

/// Whether bitboard index `i` is a cell of a `h` by `w` board.
pub open spec fn in_board(h: int, w: int, i: int) -> bool {
    0 <= i < 256 && i / 15 < h && i % 15 < w
}

/// The value a cell at `c` takes when a piece covering it (`hit`) is placed.
pub open spec fn applied_value(c: int, m: int, hit: bool) -> int {
    if hit {
        if c == 0 {
            m - 1
        } else {
            c - 1
        }
    } else {
        c
    }
}

/// The value a cell at `c` takes when a piece covering it (`hit`) is removed.
pub open spec fn undone_value(c: int, m: int, hit: bool) -> int {
    if hit {
        if c == m - 1 {
            0
        } else {
            c + 1
        }
    } else {
        c
    }
}

/// Value after `k` placements of the same piece.
pub open spec fn applied_times(c: int, m: int, hit: bool, k: nat) -> int
    decreases k,
{
    if k == 0 {
        c
    } else {
        applied_value(applied_times(c, m, hit, (k - 1) as nat), m, hit)
    }
}

spec fn one(b: bool) -> int {
    if b {
        1
    } else {
        0
    }
}

impl Board {
    /// Number of digit states.
    pub closed spec fn modulus(self) -> int {
        self.m as int
    }

    /// Number of rows.
    pub closed spec fn rows(self) -> int {
        self.height as int
    }

    /// Number of columns.
    pub closed spec fn cols(self) -> int {
        self.width as int
    }

    /// Whether bitboard index `i` is a cell of this board.
    pub open spec fn valid(self, i: int) -> bool {
        in_board(self.rows(), self.cols(), i)
    }

    /// The value (deficit) of the cell at bitboard index `i`; 0 off the board.
    pub closed spec fn cell(self, i: int) -> int {
        if self.planes[1].bit(i) {
            1
        } else if self.planes[2].bit(i) {
            2
        } else if self.planes[3].bit(i) {
            3
        } else if self.planes[4].bit(i) {
            4
        } else {
            0
        }
    }

    /// The value of the cell at row `r`, column `c`.
    pub open spec fn value(self, r: int, c: int) -> int {
        self.cell(15 * r + c)
    }

    /// Sum of cell values at indices below `n`.
    pub open spec fn deficit_upto(self, n: int) -> int
        decreases n,
    {
        if n <= 0 {
            0
        } else {
            self.deficit_upto(n - 1) + self.cell(n - 1)
        }
    }

    /// Total deficit: sum of all cell values.
    pub open spec fn deficit(self) -> int {
        self.deficit_upto(256)
    }

    /// Number of board cells at indices below `n` holding `d`.
    pub open spec fn value_count(self, d: int, n: int) -> nat
        decreases n,
    {
        if n <= 0 {
            0
        } else {
            self.value_count(d, n - 1) + if self.valid(n - 1) && self.cell(n - 1) == d {
                1nat
            } else {
                0nat
            }
        }
    }

    /// Sum over the values `e` below `d` of `e` times the number of cells at
    /// indices below `n` holding `e`.
    pub open spec fn weighted_count(self, d: int, n: int) -> int
        decreases d,
    {
        if d <= 0 {
            0
        } else {
            self.weighted_count(d - 1, n) + (d - 1) * self.value_count(d - 1, n)
        }
    }

    /// One more index adds its value to every weighted count that covers it.
    proof fn lemma_weighted_step(self, d: int, n: int)
        requires
            0 <= d,
            n > 0,
        ensures
            self.weighted_count(d, n) == self.weighted_count(d, n - 1) + if self.valid(n - 1) && self.cell(n - 1)
                < d {
                self.cell(n - 1)
            } else {
                0
            },
        decreases d,
    {
        if d > 0 {
            self.lemma_weighted_step(d - 1, n);
            if self.valid(n - 1) && self.cell(n - 1) == d - 1 {
                assert((d - 1) * self.value_count(d - 1, n) == (d - 1) * self.value_count(d - 1, n - 1) + (d - 1))
                    by (nonlinear_arith)
                    requires
                        self.value_count(d - 1, n) == self.value_count(d - 1, n - 1) + 1,
                ;
            }
        }
    }

    /// The deficit is the sum over the values `d` of `d` times the number of
    /// cells holding `d`: what the planes of the values count.
    pub proof fn lemma_deficit_by_values(self)
        requires
            self.wf(),
        ensures
            self.deficit() == self.weighted_count(self.modulus(), 256),
    {
        self.lemma_wf();
        self.lemma_deficit_by_values_upto(256);
    }

    proof fn lemma_deficit_by_values_upto(self, n: int)
        requires
            self.wf(),
            0 <= n <= 256,
        ensures
            self.deficit_upto(n) == self.weighted_count(self.modulus(), n),
        decreases n,
    {
        self.lemma_wf();
        if n > 0 {
            self.lemma_deficit_by_values_upto(n - 1);
            self.lemma_weighted_step(self.modulus(), n);
            if !self.valid(n - 1) {
                assert(self.cell(n - 1) == 0);
            } else {
                assert(self.cell(n - 1) < self.modulus());
            }
        } else {
            self.lemma_weighted_empty(self.modulus());
        }
    }

    proof fn lemma_weighted_empty(self, d: int)
        requires
            0 <= d,
        ensures
            self.weighted_count(d, 0) == 0,
        decreases d,
    {
        if d > 0 {
            self.lemma_weighted_empty(d - 1);
            assert(self.value_count(d - 1, 0) == 0);
            assert((d - 1) * self.value_count(d - 1, 0) == 0) by (nonlinear_arith)
                requires
                    self.value_count(d - 1, 0) == 0,
            ;
        }
    }

    spec fn hits(self, i: int) -> int {
        one(self.planes[0].bit(i)) + one(self.planes[1].bit(i)) + one(self.planes[2].bit(i)) + one(
            self.planes[3].bit(i),
        ) + one(self.planes[4].bit(i))
    }

    spec fn planes_wf(self) -> bool {
        &&& 2 <= self.m <= 5
        &&& 3 <= self.height <= 14
        &&& 3 <= self.width <= 14
        &&& forall|d: int, i: int|
            0 <= d < 5 && 0 <= i < 256 && #[trigger] self.planes[d].bit(i) ==> self.valid(i) && d
                < self.m
        &&& forall|i: int| #[trigger] self.valid(i) ==> self.hits(i) == 1
    }

    /// Well-formedness: each board cell lies in exactly one plane below M, no
    /// plane holds a bit off the board, and the cached deficit is the sum of
    /// all cell values.
    pub closed spec fn wf(self) -> bool {
        &&& self.planes_wf()
        &&& self.total_deficit == self.deficit()
    }

    /// The cells and dimensions of two boards agree.
    pub open spec fn same_cells(self, other: Board) -> bool {
        &&& self.modulus() == other.modulus()
        &&& self.rows() == other.rows()
        &&& self.cols() == other.cols()
        &&& forall|i: int| 0 <= i < 256 ==> #[trigger] self.cell(i) == other.cell(i)
    }

    /// `after` is `before` with a piece covering the indices where `hit` holds placed.
    pub open spec fn is_applied_where(before: Board, hit: spec_fn(int) -> bool, after: Board) -> bool {
        &&& after.modulus() == before.modulus()
        &&& after.rows() == before.rows()
        &&& after.cols() == before.cols()
        &&& forall|i: int|
            0 <= i < 256 ==> #[trigger] after.cell(i) == applied_value(
                before.cell(i),
                before.modulus(),
                hit(i),
            )
    }

    /// `after` is `before` with a piece covering the indices where `hit` holds removed.
    pub open spec fn is_undone_where(before: Board, hit: spec_fn(int) -> bool, after: Board) -> bool {
        &&& after.modulus() == before.modulus()
        &&& after.rows() == before.rows()
        &&& after.cols() == before.cols()
        &&& forall|i: int|
            0 <= i < 256 ==> #[trigger] after.cell(i) == undone_value(
                before.cell(i),
                before.modulus(),
                hit(i),
            )
    }

    /// `after` is `before` with a piece covering `mask` placed.
    pub open spec fn is_applied(before: Board, mask: Bitboard, after: Board) -> bool {
        Board::is_applied_where(before, |i: int| mask.bit(i), after)
    }

    /// `after` is `before` with a piece covering `mask` removed.
    pub open spec fn is_undone(before: Board, mask: Bitboard, after: Board) -> bool {
        Board::is_undone_where(before, |i: int| mask.bit(i), after)
    }

    /// Two well-formed boards with the same modulus, dimensions and cells
    /// are the same board.
    pub proof fn lemma_board_ext(a: Board, b: Board)
        requires
            a.wf(),
            b.wf(),
            a.same_cells(b),
        ensures
            a == b,
    {
        assert forall|d: int| 0 <= d < 5 implies a.planes[d] == b.planes[d] by {
            assert forall|i: int| 0 <= i < 256 implies #[trigger] a.planes[d].bit(i) == b.planes[d].bit(i) by {
                if a.valid(i) {
                    a.lemma_plane_bit(i);
                    b.lemma_plane_bit(i);
                } else {
                    assert(!a.planes[d].bit(i));
                    assert(!b.planes[d].bit(i));
                }
            }
            Bitboard::lemma_bits_ext(a.planes[d], b.planes[d]);
        }
        assert(a.planes =~= b.planes);
        Self::lemma_deficit_congruent(a, b, 256);
    }

    /// Boards with the same cells have the same deficit.
    pub proof fn lemma_cells_deficit(a: Board, b: Board)
        requires
            forall|i: int| 0 <= i < 256 ==> #[trigger] a.cell(i) == b.cell(i),
        ensures
            a.deficit() == b.deficit(),
    {
        Self::lemma_deficit_congruent(a, b, 256);
    }

    /// The mask covers only cells of this board.
    pub open spec fn fits(self, mask: Bitboard) -> bool {
        forall|i: int| 0 <= i < 256 && #[trigger] mask.bit(i) ==> self.valid(i)
    }

    /// The plane of value `d` counts the cells holding `d`.
    proof fn lemma_plane_count(self, d: int, n: int)
        requires
            self.wf(),
            0 <= d < 5,
            0 <= n <= 256,
        ensures
            bits::count_upto(self.planes[d]@, n) == self.value_count(d, n),
        decreases n,
    {
        if n > 0 {
            self.lemma_plane_count(d, n - 1);
            if self.valid(n - 1) {
                self.lemma_plane_bit(n - 1);
            }
        }
    }

    /// Facts every well-formed board satisfies.
    pub proof fn lemma_wf(self)
        requires
            self.wf(),
        ensures
            2 <= self.modulus() <= 5,
            3 <= self.rows() <= 14,
            3 <= self.cols() <= 14,
            forall|i: int| #[trigger] self.valid(i) ==> 0 <= self.cell(i) < self.modulus(),
            forall|i: int| 0 <= i < 256 && !self.valid(i) ==> #[trigger] self.cell(i) == 0,
            self.deficit() >= 0,
    {
        assert forall|i: int| #[trigger] self.valid(i) implies 0 <= self.cell(i) < self.modulus() by {
            self.lemma_plane_bit(i);
        }
        assert forall|i: int| 0 <= i < 256 && !self.valid(i) implies #[trigger] self.cell(i) == 0 by {
            assert(!self.planes[1].bit(i));
            assert(!self.planes[2].bit(i));
            assert(!self.planes[3].bit(i));
            assert(!self.planes[4].bit(i));
        }
        self.lemma_deficit_nonneg(256);
    }

    proof fn lemma_deficit_nonneg(self, n: int)
        ensures
            self.deficit_upto(n) >= 0,
        decreases n,
    {
        if n > 0 {
            self.lemma_deficit_nonneg(n - 1);
        }
    }

    /// On a board cell, plane `d` holds the cell exactly when its value is `d`.
    proof fn lemma_plane_bit(self, i: int)
        requires
            self.planes_wf(),
            self.valid(i),
        ensures
            forall|d: int| 0 <= d < 5 ==> #[trigger] self.planes[d].bit(i) == (self.cell(i) == d),
            0 <= self.cell(i) < self.m,
    {
        assert(self.hits(i) == 1);
        assert forall|d: int| 0 <= d < 5 implies #[trigger] self.planes[d].bit(i) == (self.cell(i)
            == d) by {
            if self.planes[d].bit(i) {
                assert(d < self.m);
            }
        }
        if self.cell(i) == 0 {
            assert(self.planes[0].bit(i));
        }
        let c = self.cell(i);
        assert(self.planes[c].bit(i));
    }

    /// Boards with the same planes and dimensions have the same cells.
    proof fn lemma_same_planes(a: Board, b: Board)
        requires
            a.planes == b.planes,
            a.m == b.m,
            a.height == b.height,
            a.width == b.width,
        ensures
            a.planes_wf() == b.planes_wf(),
            forall|i: int| #[trigger] a.cell(i) == b.cell(i),
            a.deficit() == b.deficit(),
    {
        assert forall|i: int| #[trigger] a.cell(i) == b.cell(i) by {}
        assert forall|i: int| #[trigger] a.hits(i) == b.hits(i) by {}
        assert forall|i: int| #[trigger] a.valid(i) == b.valid(i) by {}
        if a.planes_wf() {
            assert forall|i: int| #[trigger] b.valid(i) implies b.hits(i) == 1 by {
                assert(a.valid(i));
            }
        }
        if b.planes_wf() {
            assert forall|i: int| #[trigger] a.valid(i) implies a.hits(i) == 1 by {
                assert(b.valid(i));
            }
        }
        Self::lemma_deficit_congruent(a, b, 256);
    }

    /// The deficit is at most 4 per index.
    proof fn lemma_deficit_bound(self)
        requires
            self.wf(),
        ensures
            self.deficit() <= 1024,
    {
        self.lemma_deficit_upto_bound(256);
    }

    proof fn lemma_deficit_upto_bound(self, n: int)
        requires
            0 <= n,
        ensures
            self.deficit_upto(n) <= 4 * n,
        decreases n,
    {
        if n > 0 {
            self.lemma_deficit_upto_bound(n - 1);
        }
    }

    /// The deficit is unchanged when all cells agree.
    proof fn lemma_deficit_congruent(a: Board, b: Board, n: int)
        requires
            forall|i: int| 0 <= i < n ==> #[trigger] a.cell(i) == b.cell(i),
        ensures
            a.deficit_upto(n) == b.deficit_upto(n),
        decreases n,
    {
        if n > 0 {
            Self::lemma_deficit_congruent(a, b, n - 1);
        }
    }

    /// A board whose deficit is zero has every cell at zero, and conversely.
    proof fn lemma_deficit_zero(self, n: int)
        requires
            self.planes_wf(),
            0 <= n <= 256,
        ensures
            (self.deficit_upto(n) == 0) == (forall|i: int| 0 <= i < n ==> #[trigger] self.cell(i)
                == 0),
        decreases n,
    {
        if n > 0 {
            self.lemma_deficit_zero(n - 1);
            self.lemma_deficit_nonneg(n - 1);
            assert(self.cell(n - 1) >= 0);
            if self.deficit_upto(n) == 0 {
                assert forall|i: int| 0 <= i < n implies #[trigger] self.cell(i) == 0 by {
                    if i < n - 1 {
                        assert(self.cell(i) == 0);
                    }
                }
            } else {
                if self.cell(n - 1) == 0 {
                    let j = choose|j: int| 0 <= j < n - 1 && #[trigger] self.cell(j) != 0;
                    assert(self.cell(j) != 0);
                }
            }
        }
    }

    /// The deficit below `n` as a weighted sum of plane counts.
    proof fn lemma_deficit_counts(self, n: int)
        requires
            self.planes_wf(),
            0 <= n <= 256,
        ensures
            self.deficit_upto(n) == bits::count_upto(self.planes[1]@, n) + 2 * bits::count_upto(
                self.planes[2]@,
                n,
            ) + 3 * bits::count_upto(self.planes[3]@, n) + 4 * bits::count_upto(
                self.planes[4]@,
                n,
            ),
        decreases n,
    {
        if n > 0 {
            self.lemma_deficit_counts(n - 1);
            let i = n - 1;
            if self.valid(i) {
                self.lemma_plane_bit(i);
            } else {
                assert(!self.planes[1].bit(i));
                assert(!self.planes[2].bit(i));
                assert(!self.planes[3].bit(i));
                assert(!self.planes[4].bit(i));
            }
        }
    }

    /// The deficit change of one placement, counted position by position.
    proof fn lemma_apply_deficit(old: Board, new: Board, mask: Bitboard, zh: Bitboard, n: int)
        requires
            old.planes_wf(),
            old.fits(mask),
            0 <= n <= 256,
            forall|i: int| 0 <= i < 256 ==> #[trigger] zh.bit(i) == (old.planes[0].bit(i) && mask.bit(i)),
            forall|i: int|
                0 <= i < 256 ==> #[trigger] new.cell(i) == applied_value(
                    old.cell(i),
                    old.m as int,
                    mask.bit(i),
                ),
        ensures
            new.deficit_upto(n) + bits::count_upto(mask@, n) == old.deficit_upto(n) + old.m
                * bits::count_upto(zh@, n),
        decreases n,
    {
        if n > 0 {
            Self::lemma_apply_deficit(old, new, mask, zh, n - 1);
            let i = n - 1;
            let m = old.m as int;
            let cz = bits::count_upto(zh@, n - 1);
            assert(bits::count_upto(zh@, n) == cz + one(zh.bit(i)));
            assert(bits::count_upto(mask@, n) == bits::count_upto(mask@, n - 1) + one(mask.bit(i)));
            assert(new.deficit_upto(n) == new.deficit_upto(n - 1) + new.cell(i));
            assert(old.deficit_upto(n) == old.deficit_upto(n - 1) + old.cell(i));
            if mask.bit(i) {
                assert(old.valid(i));
                old.lemma_plane_bit(i);
                if old.cell(i) == 0 {
                    assert(zh.bit(i));
                    assert(new.cell(i) == m - 1);
                } else {
                    assert(!zh.bit(i));
                    assert(new.cell(i) == old.cell(i) - 1);
                }
            } else {
                assert(!zh.bit(i));
                assert(new.cell(i) == old.cell(i));
            }
            assert(old.m * bits::count_upto(zh@, n) == old.m * bits::count_upto(zh@, n - 1) + if zh.bit(
                i,
            ) {
                m
            } else {
                0
            }) by (nonlinear_arith)
                requires
                    bits::count_upto(zh@, n) == bits::count_upto(zh@, n - 1) + one(zh.bit(i)),
                    m == old.m,
            ;
        } else {
            assert(old.m * bits::count_upto(zh@, n) == 0) by (nonlinear_arith)
                requires
                    bits::count_upto(zh@, n) == 0,
            ;
        }
    }

    /// The planes after one placement of `mask` describe the placed board.
    proof fn lemma_rotate(old: Board, new: Board, mask: Bitboard)
        requires
            old.planes_wf(),
            old.fits(mask),
            new.m == old.m,
            new.height == old.height,
            new.width == old.width,
            forall|d: int, i: int|
                0 <= d < 5 && 0 <= i < 256 ==> #[trigger] new.planes[d].bit(i) == if d < old.m {
                    (old.planes[d].bit(i) && !mask.bit(i)) || (old.planes[if d + 1 < old.m {
                        d + 1
                    } else {
                        0
                    }].bit(i) && mask.bit(i))
                } else {
                    old.planes[d].bit(i)
                },
        ensures
            new.planes_wf(),
            Board::is_applied(old, mask, new),
    {
        assert forall|d: int, i: int|
            0 <= d < 5 && 0 <= i < 256 && #[trigger] new.planes[d].bit(i) implies new.valid(i) && d
            < new.m by {
            if d < old.m {
                let e = if d + 1 < old.m {
                    d + 1
                } else {
                    0
                };
                assert(old.planes[d].bit(i) || old.planes[e].bit(i));
            }
        }
        assert forall|i: int| #[trigger] new.valid(i) implies new.hits(i) == 1 && new.cell(i)
            == applied_value(old.cell(i), old.m as int, mask.bit(i)) by {
            assert(old.valid(i));
            old.lemma_plane_bit(i);
            let c = old.cell(i);
            let t = applied_value(c, old.m as int, mask.bit(i));
            assert forall|d: int| 0 <= d < 5 implies #[trigger] new.planes[d].bit(i) == (t == d) by {
                if d < old.m {
                    let e = if d + 1 < old.m {
                        d + 1
                    } else {
                        0
                    };
                    assert(old.planes[e].bit(i) == (c == e));
                    assert(old.planes[d].bit(i) == (c == d));
                }
            }
            assert(new.planes[0].bit(i) == (t == 0));
            assert(new.planes[1].bit(i) == (t == 1));
            assert(new.planes[2].bit(i) == (t == 2));
            assert(new.planes[3].bit(i) == (t == 3));
            assert(new.planes[4].bit(i) == (t == 4));
        }
        assert forall|i: int| 0 <= i < 256 implies #[trigger] new.cell(i) == applied_value(
            old.cell(i),
            old.m as int,
            mask.bit(i),
        ) by {
            if !new.valid(i) {
                assert(!mask.bit(i));
                assert(!old.planes[1].bit(i));
                assert(!old.planes[2].bit(i));
                assert(!old.planes[3].bit(i));
                assert(!old.planes[4].bit(i));
                assert(!new.planes[1].bit(i));
                assert(!new.planes[2].bit(i));
                assert(!new.planes[3].bit(i));
                assert(!new.planes[4].bit(i));
            }
        }
    }

    /// Create a board from a 2D array of cell values.
    pub fn from_grid(grid: &[&[u8]], m: u8) -> (r: Self)
        requires
            3 <= grid@.len() <= 14,
            3 <= grid@[0]@.len() <= 14,
            2 <= m <= 5,
            forall|row: int| 0 <= row < grid@.len() ==> #[trigger] grid@[row]@.len() == grid@[0]@.len(),
            forall|row: int, col: int|
                0 <= row < grid@.len() && 0 <= col < grid@[row]@.len() ==> #[trigger] grid@[row]@[col]
                    < m,
        ensures
            r.wf(),
            r.modulus() == m,
            r.rows() == grid@.len(),
            r.cols() == grid@[0]@.len(),
            forall|row: int, col: int|
                0 <= row < grid@.len() && 0 <= col < grid@[0]@.len() ==> #[trigger] r.value(row, col)
                    == grid@[row]@[col],
    {
        let height = grid.len();
        let width = grid[0].len();
        let ghost h = height as int;
        let ghost w = width as int;
        let mut planes = [Bitboard::zero(), Bitboard::zero(), Bitboard::zero(), Bitboard::zero(), Bitboard::zero()];
        let mut r: usize = 0;
        while r < height
            invariant
                0 <= r <= height,
                h == height,
                w == width,
                height == grid@.len(),
                width == grid@[0]@.len(),
                3 <= height <= 14,
                3 <= width <= 14,
                2 <= m <= 5,
                forall|row: int| 0 <= row < grid@.len() ==> #[trigger] grid@[row]@.len() == width,
                forall|row: int, col: int|
                    0 <= row < grid@.len() && 0 <= col < grid@[row]@.len() ==> #[trigger] grid@[row]@[col]
                        < m,
                forall|d: int, i: int|
                    0 <= d < 5 && 0 <= i < 256 ==> #[trigger] planes[d].bit(i) == (in_board(h, w, i)
                        && i / 15 < r && grid@[i / 15]@[i % 15] == d),
            decreases height - r,
        {
            let row = grid[r];
            let mut c: usize = 0;
            while c < width
                invariant
                    0 <= c <= width,
                    0 <= r < height,
                    h == height,
                    w == width,
                    row@ == grid@[r as int]@,
                    height == grid@.len(),
                    width == grid@[0]@.len(),
                    3 <= height <= 14,
                    3 <= width <= 14,
                    2 <= m <= 5,
                    forall|rr: int| 0 <= rr < grid@.len() ==> #[trigger] grid@[rr]@.len() == width,
                    forall|rr: int, col: int|
                        0 <= rr < grid@.len() && 0 <= col < grid@[rr]@.len() ==> #[trigger] grid@[rr]@[col]
                            < m,
                    forall|d: int, i: int|
                        0 <= d < 5 && 0 <= i < 256 ==> #[trigger] planes[d].bit(i) == (in_board(
                            h,
                            w,
                            i,
                        ) && (i / 15 < r || (i / 15 == r && i % 15 < c)) && grid@[i / 15]@[i % 15]
                            == d),
                decreases width - c,
            {
                let val = row[c];
                let index = (r * 15 + c) as u32;
                proof {
                    bits::lemma_stride_index(r as int, c as int);
                }
                let ghost before = planes;
                let mut p = planes[val as usize];
                p.set_bit(index);
                planes[val as usize] = p;
                proof {
                    assert forall|d: int, i: int|
                        0 <= d < 5 && 0 <= i < 256 implies #[trigger] planes[d].bit(i) == (in_board(
                        h,
                        w,
                        i,
                    ) && (i / 15 < r || (i / 15 == r && i % 15 < c + 1)) && grid@[i / 15]@[i % 15]
                        == d) by {
                        bits::lemma_stride_split(i);
                        assert(before[d].bit(i) == (in_board(h, w, i) && (i / 15 < r || (i / 15 == r
                            && i % 15 < c)) && grid@[i / 15]@[i % 15] == d));
                        if i == index {
                            assert(i / 15 == r && i % 15 == c);
                        } else {
                            if i / 15 == r && i % 15 == c {
                                assert(i == 15 * (i / 15) + i % 15);
                            }
                        }
                    }
                }
                c = c + 1;
            }
            r = r + 1;
            proof {
                assert forall|d: int, i: int|
                    0 <= d < 5 && 0 <= i < 256 implies #[trigger] planes[d].bit(i) == (in_board(
                    h,
                    w,
                    i,
                ) && i / 15 < r && grid@[i / 15]@[i % 15] == d) by {
                    assert(planes[d].bit(i) == (in_board(h, w, i) && (i / 15 < r - 1 || (i / 15
                        == r - 1 && i % 15 < width)) && grid@[i / 15]@[i % 15] == d));
                }
            }
        }
        let ghost pre = Board { planes, m, height: height as u8, width: width as u8, total_deficit: 0 };
        proof {
            assert forall|d: int, i: int|
                0 <= d < 5 && 0 <= i < 256 && #[trigger] pre.planes[d].bit(i) implies pre.valid(i)
                && d < pre.m by {
                bits::lemma_stride_split(i);
            }
            assert forall|i: int| #[trigger] pre.valid(i) implies pre.hits(i) == 1 by {
                bits::lemma_stride_split(i);
                let v = grid@[i / 15]@[i % 15] as int;
                assert(pre.planes[0].bit(i) == (v == 0));
                assert(pre.planes[1].bit(i) == (v == 1));
                assert(pre.planes[2].bit(i) == (v == 2));
                assert(pre.planes[3].bit(i) == (v == 3));
                assert(pre.planes[4].bit(i) == (v == 4));
            }
            assert(pre.planes_wf());
        }
        let mut total_deficit: u32 = 0;
        let mut d: usize = 1;
        while d < m as usize
            invariant
                1 <= d <= m,
                2 <= m <= 5,
                pre.planes == planes,
                pre.planes_wf(),
                pre.m == m,
                total_deficit == Self::weighted(planes, d as int),
                total_deficit <= 1280 * d,
            decreases m - d,
        {
            let cnt = planes[d].count_ones();
            assert(d * cnt <= 256 * d) by (nonlinear_arith)
                requires
                    cnt <= 256,
                    d <= 5,
            ;
            total_deficit = total_deficit + (d as u32) * cnt;
            d = d + 1;
        }
        let b = Self { planes, m, height: height as u8, width: width as u8, total_deficit };
        proof {
            Self::lemma_same_planes(b, pre);
            pre.lemma_deficit_counts(256);
            Self::lemma_weighted_full(planes, m as int);
            assert forall|row: int, col: int|
                0 <= row < grid@.len() && 0 <= col < grid@[0]@.len() implies #[trigger] b.value(row, col)
                == grid@[row]@[col] by {
                bits::lemma_stride_index(row, col);
                let i = 15 * row + col;
                assert(b.valid(i));
                b.lemma_plane_bit(i);
                let v = grid@[row]@[col] as int;
                assert(b.planes[v].bit(i));
            }
        }
        b
    }

    /// Sum over planes `1..k` of plane index times plane count.
    spec fn weighted(planes: [Bitboard; 5], k: int) -> int
        decreases k,
    {
        if k <= 1 {
            0
        } else {
            Self::weighted(planes, k - 1) + (k - 1) * bits::count(planes[k - 1]@)
        }
    }

    proof fn lemma_weighted_full(planes: [Bitboard; 5], m: int)
        requires
            2 <= m <= 5,
            forall|d: int, i: int| m <= d < 5 && 0 <= i < 256 ==> !#[trigger] planes[d].bit(i),
        ensures
            Self::weighted(planes, m) == bits::count(planes[1]@) + 2 * bits::count(planes[2]@) + 3
                * bits::count(planes[3]@) + 4 * bits::count(planes[4]@),
    {
        assert forall|d: int| m <= d < 5 implies bits::count(#[trigger] planes[d]@) == 0 by {
            bits::lemma_count_upto_empty(planes[d]@, 256);
        }
        let c1 = bits::count(planes[1]@);
        let c2 = bits::count(planes[2]@);
        let c3 = bits::count(planes[3]@);
        let c4 = bits::count(planes[4]@);
        assert(Self::weighted(planes, 1) == 0);
        assert(Self::weighted(planes, 2) == c1);
        assert(Self::weighted(planes, 3) == c1 + 2 * c2);
        assert(Self::weighted(planes, 4) == c1 + 2 * c2 + 3 * c3);
        assert(Self::weighted(planes, 5) == c1 + 2 * c2 + 3 * c3 + 4 * c4);
        if m <= 4 {
            assert(c4 == 0);
        }
        if m <= 3 {
            assert(c3 == 0);
        }
        if m <= 2 {
            assert(c2 == 0);
        }
    }

    /// Create a board where all cells are 0.
    pub fn new_solved(height: u8, width: u8, m: u8) -> (r: Self)
        requires
            3 <= height <= 14,
            3 <= width <= 14,
            2 <= m <= 5,
        ensures
            r.wf(),
            r.modulus() == m,
            r.rows() == height,
            r.cols() == width,
            forall|i: int| 0 <= i < 256 ==> #[trigger] r.cell(i) == 0,
            r.deficit() == 0,
    {
        let ghost h = height as int;
        let ghost w = width as int;
        let mut mask = Bitboard::zero();
        let mut r: usize = 0;
        while r < height as usize
            invariant
                0 <= r <= height,
                h == height,
                w == width,
                3 <= height <= 14,
                3 <= width <= 14,
                forall|i: int|
                    0 <= i < 256 ==> #[trigger] mask.bit(i) == (in_board(h, w, i) && i / 15 < r),
            decreases height - r,
        {
            let mut c: usize = 0;
            while c < width as usize
                invariant
                    0 <= c <= width,
                    0 <= r < height,
                    h == height,
                    w == width,
                    3 <= height <= 14,
                    3 <= width <= 14,
                    forall|i: int|
                        0 <= i < 256 ==> #[trigger] mask.bit(i) == (in_board(h, w, i) && (i / 15 < r
                            || (i / 15 == r && i % 15 < c))),
                decreases width - c,
            {
                proof {
                    bits::lemma_stride_index(r as int, c as int);
                }
                let ghost before = mask;
                let index = (r * 15 + c) as u32;
                let ghost idx: int = 15 * r + c;
                assert(index == idx);
                mask.set_bit(index);
                proof {
                    assert forall|i: int| 0 <= i < 256 implies #[trigger] mask.bit(i) == (in_board(
                        h,
                        w,
                        i,
                    ) && (i / 15 < r || (i / 15 == r && i % 15 < c + 1))) by {
                        bits::lemma_stride_split(i);
                        assert(before.bit(i) == (in_board(h, w, i) && (i / 15 < r || (i / 15 == r
                            && i % 15 < c))));
                        if i == idx {
                            assert(i / 15 == r && i % 15 == c);
                        } else if i / 15 == r && i % 15 == c {
                            assert(i == idx);
                        }
                    }
                }
                c = c + 1;
            }
            r = r + 1;
        }
        let z = Bitboard::zero();
        let planes = [mask, z, z, z, z];
        let b = Self { planes, m, height, width, total_deficit: 0 };
        proof {
            assert forall|i: int| 0 <= i < 256 implies #[trigger] b.cell(i) == 0 by {
                assert(!b.planes[1].bit(i));
                assert(!b.planes[2].bit(i));
                assert(!b.planes[3].bit(i));
                assert(!b.planes[4].bit(i));
            }
            assert forall|i: int| #[trigger] b.valid(i) implies b.hits(i) == 1 by {
                assert(b.planes[0].bit(i));
            }
            b.lemma_deficit_zero(256);
        }
        b
    }

    pub fn m(&self) -> (r: u8)
        requires
            self.wf(),
        ensures
            r == self.modulus(),
    {
        self.m
    }

    pub fn height(&self) -> (r: u8)
        requires
            self.wf(),
        ensures
            r == self.rows(),
    {
        self.height
    }

    pub fn width(&self) -> (r: u8)
        requires
            self.wf(),
        ensures
            r == self.cols(),
    {
        self.width
    }

    /// Get the value at cell (row, col).
    pub fn get(&self, row: usize, col: usize) -> (r: u8)
        requires
            self.wf(),
            row < self.rows(),
            col < self.cols(),
        ensures
            r == self.value(row as int, col as int),
            r < self.modulus(),
    {
        let index = (row * 15 + col) as u32;
        proof {
            bits::lemma_stride_index(row as int, col as int);
            assert(self.valid(index as int));
            self.lemma_plane_bit(index as int);
        }
        let mut d: usize = 0;
        while d < self.m as usize
            invariant
                self.wf(),
                self.valid(index as int),
                index == 15 * row + col,
                0 <= d <= self.m,
                d <= self.cell(index as int),
                forall|e: int|
                    0 <= e < 5 ==> #[trigger] self.planes[e].bit(index as int) == (self.cell(
                        index as int,
                    ) == e),
                0 <= self.cell(index as int) < self.m,
            decreases self.m - d,
        {
            if self.planes[d].get_bit(index) {
                return d as u8;
            }
            d = d + 1;
        }
        0
    }

    /// Get the bitboard plane for digit `d`: the board cells whose value is `d`.
    pub fn plane(&self, d: u8) -> (r: Bitboard)
        requires
            self.wf(),
            d < 5,
        ensures
            forall|i: int| 0 <= i < 256 ==> #[trigger] r.bit(i) == (self.valid(i) && self.cell(i) == d),
            r.count() == self.value_count(d as int, 256),
    {
        proof {
            self.lemma_plane_count(d as int, 256);
        }
        proof {
            assert forall|i: int| 0 <= i < 256 implies #[trigger] self.planes[d as int].bit(i) == (
            self.valid(i) && self.cell(i) == d) by {
                if self.valid(i) {
                    self.lemma_plane_bit(i);
                }
            }
        }
        self.planes[d as usize]
    }

    /// Returns true if every cell is 0 (the board is solved).
    pub fn is_solved(&self) -> (r: bool)
        requires
            self.wf(),
        ensures
            r == (self.deficit() == 0),
            r == (forall|i: int| 0 <= i < 256 ==> #[trigger] self.cell(i) == 0),
    {
        proof {
            self.lemma_deficit_zero(256);
        }
        self.total_deficit == 0
    }

    /// Apply a piece placement: decrement the deficit of each covered cell by 1 (mod M).
    /// A cell at deficit 0 wraps to M-1 (overshoot penalty).
    #[verifier::rlimit(40)]
    pub fn apply_piece(&mut self, piece_mask: Bitboard)
        requires
            old(self).wf(),
            old(self).fits(piece_mask),
        ensures
            final(self).wf(),
            Board::is_applied(*old(self), piece_mask, *final(self)),
    {
        let ghost old_board = *self;
        proof {
            bits::lemma_count_upto_bound(piece_mask@, 256);
        }
        if self.m == 2 {
            let p0 = self.planes[0].xor(&piece_mask);
            let p1 = self.planes[1].xor(&piece_mask);
            let total = p1.count_ones();
            let new_board = Board {
                planes: [p0, p1, self.planes[2], self.planes[3], self.planes[4]],
                m: self.m,
                height: self.height,
                width: self.width,
                total_deficit: total,
            };
            proof {
                assert forall|d: int, i: int|
                    0 <= d < 5 && 0 <= i < 256 implies #[trigger] new_board.planes[d].bit(i) == if d
                    < old_board.m {
                    (old_board.planes[d].bit(i) && !piece_mask.bit(i)) || (old_board.planes[if d + 1
                        < old_board.m {
                        d + 1
                    } else {
                        0
                    }].bit(i) && piece_mask.bit(i))
                } else {
                    old_board.planes[d].bit(i)
                } by {
                    if piece_mask.bit(i) {
                        old_board.lemma_plane_bit(i);
                    }
                }
                Self::lemma_rotate(old_board, new_board, piece_mask);
                new_board.lemma_deficit_counts(256);
                assert(bits::count(new_board.planes[2]@) == 0) by {
                    bits::lemma_count_upto_empty(new_board.planes[2]@, 256);
                }
                assert(bits::count(new_board.planes[3]@) == 0) by {
                    bits::lemma_count_upto_empty(new_board.planes[3]@, 256);
                }
                assert(bits::count(new_board.planes[4]@) == 0) by {
                    bits::lemma_count_upto_empty(new_board.planes[4]@, 256);
                }
            }
            *self = new_board;
            return;
        }
        proof {
            old_board.lemma_deficit_bound();
        }
        let m = self.m as u32;
        let zeros = self.planes[0].and(&piece_mask);
        let zeros_hit = zeros.count_ones();
        let mask_count = piece_mask.count_ones();
        let ghost target = Board {
            planes: self.planes,
            m: self.m,
            height: self.height,
            width: self.width,
            total_deficit: 0,
        };
        let keep_mask = piece_mask.not();
        let bottom = self.planes[0].and(&piece_mask);
        let mut planes = self.planes;
        let mu = m as usize;
        let mut i: usize = 0;
        while i < mu - 1
            invariant
                3 <= mu <= 5,
                mu == old_board.m,
                0 <= i <= mu - 1,
                forall|k: int| 0 <= k < 256 ==> #[trigger] keep_mask.bit(k) == !piece_mask.bit(k),
                forall|d: int, k: int|
                    0 <= d < 5 && 0 <= k < 256 ==> #[trigger] planes[d].bit(k) == if d < i {
                        (old_board.planes[d].bit(k) && !piece_mask.bit(k)) || (old_board.planes[d
                            + 1].bit(k) && piece_mask.bit(k))
                    } else {
                        old_board.planes[d].bit(k)
                    },
            decreases mu - 1 - i,
        {
            let moving = planes[i + 1].and(&piece_mask);
            let kept = planes[i].and(&keep_mask);
            planes[i] = kept.or(&moving);
            i = i + 1;
        }
        let kept = planes[mu - 1].and(&keep_mask);
        planes[mu - 1] = kept.or(&bottom);
        let ghost placed = Board {
            planes,
            m: self.m,
            height: self.height,
            width: self.width,
            total_deficit: 0,
        };
        proof {
            Self::lemma_rotate(old_board, placed, piece_mask);
            Self::lemma_apply_deficit(old_board, placed, piece_mask, zeros, 256);
            assert(m * zeros_hit == old_board.m * bits::count(zeros@)) by (nonlinear_arith)
                requires
                    m == old_board.m,
                    zeros_hit == bits::count(zeros@),
            ;
            placed.lemma_deficit_nonneg(256);
            assert(old_board.total_deficit + m * zeros_hit <= 1024 + 5 * 256) by (nonlinear_arith)
                requires
                    zeros_hit <= 256,
                    m <= 5,
                    old_board.total_deficit <= 1024,
            ;
        }
        let total = self.total_deficit + m * zeros_hit - mask_count;
        *self = Board {
            planes,
            m: self.m,
            height: self.height,
            width: self.width,
            total_deficit: total,
        };
        proof {
            Self::lemma_same_planes(*self, placed);
        }
    }

    /// Undo a piece placement: restore the deficit of each covered cell (reverse of apply_piece).
    /// Equivalent to applying the piece M-1 more times (since M applications is the identity).
    pub fn undo_piece(&mut self, piece_mask: Bitboard)
        requires
            old(self).wf(),
            old(self).fits(piece_mask),
        ensures
            final(self).wf(),
            Board::is_undone(*old(self), piece_mask, *final(self)),
    {
        let ghost old_board = *self;
        proof {
            old_board.lemma_wf();
        }
        if self.m == 2 {
            self.apply_piece(piece_mask);
            return;
        }
        let mut k: u8 = 1;
        while k < self.m
            invariant
                self.wf(),
                self.fits(piece_mask),
                1 <= k <= old_board.modulus(),
                self.modulus() == old_board.modulus(),
                self.rows() == old_board.rows(),
                self.cols() == old_board.cols(),
                2 <= old_board.modulus() <= 5,
                forall|i: int| #[trigger] old_board.valid(i) ==> 0 <= old_board.cell(i) < old_board.modulus(),
                forall|i: int| 0 <= i < 256 && !old_board.valid(i) ==> #[trigger] old_board.cell(i) == 0,
                forall|i: int|
                    0 <= i < 256 ==> #[trigger] self.cell(i) == applied_times(
                        old_board.cell(i),
                        old_board.modulus(),
                        piece_mask.bit(i),
                        (k - 1) as nat,
                    ),
            decreases old_board.modulus() - k,
        {
            let ghost before = *self;
            self.apply_piece(piece_mask);
            proof {
                assert forall|i: int| 0 <= i < 256 implies #[trigger] self.cell(i) == applied_times(
                    old_board.cell(i),
                    old_board.modulus(),
                    piece_mask.bit(i),
                    k as nat,
                ) by {
                    assert(before.cell(i) == applied_times(
                        old_board.cell(i),
                        old_board.modulus(),
                        piece_mask.bit(i),
                        (k - 1) as nat,
                    ));
                }
            }
            k = k + 1;
        }
        proof {
            assert forall|i: int| 0 <= i < 256 implies #[trigger] self.cell(i) == undone_value(
                old_board.cell(i),
                old_board.modulus(),
                piece_mask.bit(i),
            ) by {
                let c = old_board.cell(i);
                let m = old_board.modulus();
                if piece_mask.bit(i) {
                    assert(old_board.valid(i));
                    lemma_applied_times_hit(c, m, (m - 1) as nat);
                } else {
                    lemma_applied_times_miss(c, m, (m - 1) as nat);
                }
            }
        }
    }

    /// Total deficit: sum of per-cell hits still needed to reach all-zero (cached, O(1)).
    pub fn total_deficit(&self) -> (r: u32)
        requires
            self.wf(),
        ensures
            r == self.deficit(),
    {
        self.total_deficit
    }

    /// The board as text: a `Board(HxW, m=M)` line, then each row's values
    /// separated by spaces, one row per line.
    pub fn debug_string(&self) -> (r: String)
        requires
            self.wf(),
        ensures
            r@ == board_text(*self),
    {
        proof {
            self.lemma_wf();
        }
        let mut s = String::new();
        s.append("Board(");
        append_decimal(&mut s, self.height);
        s.append("x");
        append_decimal(&mut s, self.width);
        s.append(", m=");
        append_decimal(&mut s, self.m);
        s.append(")\n");
        let ghost header = s@;
        let mut r: usize = 0;
        while r < self.height as usize
            invariant
                self.wf(),
                r <= self.rows(),
                header == board_header(*self),
                s@ == header + rows_text(*self, r as int),
            decreases self.rows() - r,
        {
            let mut c: usize = 0;
            while c < self.width as usize
                invariant
                    self.wf(),
                    r < self.rows(),
                    c <= self.cols(),
                    header == board_header(*self),
                    s@ == header + rows_text(*self, r as int) + row_text(*self, r as int, c as int),
                decreases self.cols() - c,
            {
                let ghost before = s@;
                if c > 0 {
                    s.append(" ");
                }
                let value = self.get(r, c);
                append_decimal(&mut s, value);
                proof {
                    assert(s@ =~= header + rows_text(*self, r as int) + row_text(*self, r as int, c + 1));
                }
                c = c + 1;
            }
            s.append("\n");
            proof {
                assert(s@ =~= header + rows_text(*self, r + 1));
            }
            r = r + 1;
        }
        s
    }

    /// Bitboard mask of all valid cells on this board.
    pub fn valid_mask(&self) -> (r: Bitboard)
        requires
            self.wf(),
        ensures
            forall|i: int| 0 <= i < 256 ==> #[trigger] r.bit(i) == self.valid(i),
    {
        let mut mask = Bitboard::zero();
        let mut d: usize = 0;
        while d < self.m as usize
            invariant
                self.wf(),
                0 <= d <= self.m,
                forall|i: int|
                    0 <= i < 256 ==> #[trigger] mask.bit(i) == (self.valid(i) && self.cell(i) < d),
            decreases self.m - d,
        {
            let ghost before = mask;
            mask = mask.or(&self.planes[d]);
            proof {
                assert forall|i: int| 0 <= i < 256 implies #[trigger] mask.bit(i) == (self.valid(i)
                    && self.cell(i) < d + 1) by {
                    if self.valid(i) {
                        self.lemma_plane_bit(i);
                    } else {
                        assert(!self.planes[d as int].bit(i));
                    }
                    assert(before.bit(i) == (self.valid(i) && self.cell(i) < d));
                }
            }
            d = d + 1;
        }
        proof {
            assert forall|i: int| 0 <= i < 256 implies #[trigger] mask.bit(i) == self.valid(i) by {
                if self.valid(i) {
                    self.lemma_plane_bit(i);
                }
            }
        }
        mask
    }
}

proof fn lemma_applied_times_miss(c: int, m: int, k: nat)
    ensures
        applied_times(c, m, false, k) == c,
    decreases k,
{
    if k > 0 {
        lemma_applied_times_miss(c, m, (k - 1) as nat);
    }
}

proof fn lemma_applied_times_hit(c: int, m: int, k: nat)
    requires
        0 <= c < m,
        k < m,
    ensures
        applied_times(c, m, true, k) == if c >= k {
            c - k
        } else {
            c - k + m
        },
    decreases k,
{
    if k > 0 {
        lemma_applied_times_hit(c, m, (k - 1) as nat);
    }
}

/// Placing a piece and then removing it gives back every cell value.
pub proof fn lemma_undo_after_apply(c: int, m: int, hit: bool)
    requires
        0 <= c < m,
    ensures
        undone_value(applied_value(c, m, hit), m, hit) == c,
        applied_value(undone_value(c, m, hit), m, hit) == c,
{
}

/// Placing the same piece M times gives back every cell value.
pub proof fn lemma_apply_m_times(c: int, m: int, hit: bool)
    requires
        0 <= c < m,
    ensures
        applied_times(c, m, hit, m as nat) == c,
{
    if hit {
        lemma_applied_times_hit(c, m, (m - 1) as nat);
    } else {
        lemma_applied_times_miss(c, m, m as nat);
    }
}

/// Removing a placed piece restores the board: its dimensions, every cell
/// and the deficit.
pub proof fn lemma_board_undo_restores(b0: Board, mask: Bitboard, b1: Board, b2: Board)
    requires
        b0.wf(),
        b1.wf(),
        b2.wf(),
        Board::is_applied(b0, mask, b1),
        Board::is_undone(b1, mask, b2),
    ensures
        b2.same_cells(b0),
        b2.deficit() == b0.deficit(),
        b2 == b0,
{
    b0.lemma_wf();
    b2.lemma_wf();
    assert forall|i: int| 0 <= i < 256 implies #[trigger] b2.cell(i) == b0.cell(i) by {
        if b0.valid(i) {
            lemma_undo_after_apply(b0.cell(i), b0.modulus(), mask.bit(i));
        }
    }
    Board::lemma_deficit_congruent(b2, b0, 256);
    Board::lemma_board_ext(b2, b0);
}

/// Placing a piece back where it was removed restores the board.
pub proof fn lemma_board_apply_restores(b0: Board, mask: Bitboard, b1: Board, b2: Board)
    requires
        b0.wf(),
        b1.wf(),
        b2.wf(),
        Board::is_undone(b0, mask, b1),
        Board::is_applied(b1, mask, b2),
    ensures
        b2 == b0,
{
    b0.lemma_wf();
    b2.lemma_wf();
    assert forall|i: int| 0 <= i < 256 implies #[trigger] b2.cell(i) == b0.cell(i) by {
        if b0.valid(i) {
            lemma_undo_after_apply(b0.cell(i), b0.modulus(), mask.bit(i));
        }
    }
    Board::lemma_board_ext(b2, b0);
}

} // verus!
