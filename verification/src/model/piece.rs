//! A puzzle piece defined by its filled cells, anchored at (0, 0).

use vstd::prelude::*;
use vstd::string::StringExecFns;
use crate::text::{decimal, append_decimal};
use crate::bits;
use crate::model::bitboard::Bitboard;

verus! {

/// A puzzle piece defined by its filled cells, anchored at (0, 0).
/// The shape is stored as a Bitboard using the 15-column stride layout.
#[derive(Clone, Copy, PartialEq, Eq, Hash, Structural, Debug)]
pub struct Piece {
    /// Bitboard with bits set at the piece's filled cells, anchored at (0, 0).
    shape: Bitboard,
    /// Height of the piece's bounding box.
    height: u8,
    /// Width of the piece's bounding box.
    width: u8,
}

/// Whether bitboard index `i` lies in the `h` by `w` box anchored at (0, 0).
pub open spec fn in_box(h: int, w: int, i: int) -> bool {
    0 <= i < 256 && i / 15 < h && i % 15 < w
}

/// `r` holds the bits of `s` moved up by `off` (lost beyond 255).
pub open spec fn shifted(r: Bitboard, s: Bitboard, off: int) -> bool {
    forall|i: int| 0 <= i < 256 ==> #[trigger] r.bit(i) == (i >= off && s.bit(i - off))
}

/// The first line of a piece's text: `Piece(HxW)`.
pub open spec fn piece_header(p: Piece) -> Seq<char> {
    "Piece("@ + decimal(p.rows()) + "x"@ + decimal(p.cols()) + ")\n"@
}

/// The first `c` cells of row `r` of the piece: `#` filled, `.` empty.
pub open spec fn piece_row_text(p: Piece, r: int, c: int) -> Seq<char>
    decreases c,
{
    if c <= 0 {
        Seq::empty()
    } else {
        piece_row_text(p, r, c - 1) + if p.cells().bit(15 * r + c - 1) {
            "#"@
        } else {
            "."@
        }
    }
}

/// The first `k` rows of the piece, one per line.
pub open spec fn piece_rows_text(p: Piece, k: int) -> Seq<char>
    decreases k,
{
    if k <= 0 {
        Seq::empty()
    } else {
        piece_rows_text(p, k - 1) + piece_row_text(p, k - 1, p.cols()) + "\n"@
    }
}

/// The piece as text.
pub open spec fn piece_text(p: Piece) -> Seq<char> {
    piece_header(p) + piece_rows_text(p, p.rows())
}

impl Piece {
    /// The filled cells.
    pub closed spec fn cells(self) -> Bitboard {
        self.shape
    }

    /// Height of the bounding box.
    pub closed spec fn rows(self) -> int {
        self.height as int
    }

    /// Width of the bounding box.
    pub closed spec fn cols(self) -> int {
        self.width as int
    }

    /// Well-formedness: the bounding box is between 1x1 and 5x5, the shape
    /// lies within it and has at least one filled cell.
    pub closed spec fn wf(self) -> bool {
        &&& 1 <= self.height <= 5
        &&& 1 <= self.width <= 5
        &&& forall|i: int| 0 <= i < 256 && #[trigger] self.shape.bit(i) ==> in_box(
            self.height as int,
            self.width as int,
            i,
        )
        &&& exists|i: int| 0 <= i < 256 && #[trigger] self.shape.bit(i)
    }

    /// Facts every well-formed piece satisfies.
    pub proof fn lemma_wf(self)
        requires
            self.wf(),
        ensures
            1 <= self.rows() <= 5,
            1 <= self.cols() <= 5,
            forall|i: int| 0 <= i < 256 && #[trigger] self.cells().bit(i) ==> in_box(
                self.rows(),
                self.cols(),
                i,
            ),
            exists|i: int| 0 <= i < 256 && #[trigger] self.cells().bit(i),
    {
        let i = choose|i: int| 0 <= i < 256 && #[trigger] self.shape.bit(i);
        assert(self.cells().bit(i));
    }

    /// Pieces with the same box and the same cells are equal.
    pub proof fn lemma_same_shape(a: Piece, b: Piece)
        requires
            a.rows() == b.rows(),
            a.cols() == b.cols(),
            forall|i: int| 0 <= i < 256 ==> #[trigger] a.cells().bit(i) == b.cells().bit(i),
        ensures
            a == b,
    {
        assert forall|i: int| 0 <= i < 256 implies #[trigger] a.shape.bit(i) == b.shape.bit(i) by {
            assert(a.cells().bit(i) == b.cells().bit(i));
        }
        Bitboard::lemma_bits_ext(a.shape, b.shape);
    }

    /// Create a piece from a 2D grid of booleans (true = filled).
    pub fn from_grid(grid: &[&[bool]]) -> (r: Self)
        requires
            1 <= grid@.len() <= 5,
            1 <= grid@[0]@.len() <= 5,
            forall|row: int| 0 <= row < grid@.len() ==> #[trigger] grid@[row]@.len() == grid@[0]@.len(),
            exists|row: int, col: int|
                0 <= row < grid@.len() && 0 <= col < grid@[0]@.len() && #[trigger] grid@[row]@[col],
        ensures
            r.wf(),
            r.rows() == grid@.len(),
            r.cols() == grid@[0]@.len(),
            forall|i: int|
                0 <= i < 256 ==> #[trigger] r.cells().bit(i) == (in_box(r.rows(), r.cols(), i)
                    && grid@[i / 15]@[i % 15]),
    {
        let height = grid.len();
        let width = grid[0].len();
        let ghost h = height as int;
        let ghost w = width as int;
        let mut shape = Bitboard::zero();
        let mut r: usize = 0;
        while r < height
            invariant
                0 <= r <= height,
                h == height,
                w == width,
                height == grid@.len(),
                width == grid@[0]@.len(),
                1 <= height <= 5,
                1 <= width <= 5,
                forall|row: int| 0 <= row < grid@.len() ==> #[trigger] grid@[row]@.len() == width,
                forall|i: int|
                    0 <= i < 256 ==> #[trigger] shape.bit(i) == (in_box(h, w, i) && i / 15 < r
                        && grid@[i / 15]@[i % 15]),
            decreases height - r,
        {
            let row = grid[r];
            let mut c: usize = 0;
            while c < width
                invariant
                    0 <= c <= width,
                    0 <= r < height,
                    h == height,
                    w == width,
                    row@ == grid@[r as int]@,
                    height == grid@.len(),
                    width == grid@[0]@.len(),
                    1 <= height <= 5,
                    1 <= width <= 5,
                    forall|rr: int| 0 <= rr < grid@.len() ==> #[trigger] grid@[rr]@.len() == width,
                    forall|i: int|
                        0 <= i < 256 ==> #[trigger] shape.bit(i) == (in_box(h, w, i) && (i / 15 < r
                            || (i / 15 == r && i % 15 < c)) && grid@[i / 15]@[i % 15]),
                decreases width - c,
            {
                let ghost before = shape;
                let ghost idx: int = 15 * r + c;
                proof {
                    bits::lemma_stride_index(r as int, c as int);
                }
                if row[c] {
                    let index = (r * 15 + c) as u32;
                    shape.set_bit(index);
                }
                proof {
                    assert forall|i: int| 0 <= i < 256 implies #[trigger] shape.bit(i) == (in_box(
                        h,
                        w,
                        i,
                    ) && (i / 15 < r || (i / 15 == r && i % 15 < c + 1)) && grid@[i / 15]@[i % 15]) by {
                        bits::lemma_stride_split(i);
                        assert(before.bit(i) == (in_box(h, w, i) && (i / 15 < r || (i / 15 == r && i
                            % 15 < c)) && grid@[i / 15]@[i % 15]));
                        if i == idx {
                            assert(i / 15 == r && i % 15 == c);
                        } else if i / 15 == r && i % 15 == c {
                            assert(i == idx);
                        }
                    }
                }
                c = c + 1;
            }
            r = r + 1;
        }
        let p = Self { shape, height: height as u8, width: width as u8 };
        proof {
            let (row, col) = choose|row: int, col: int|
                0 <= row < grid@.len() && 0 <= col < grid@[0]@.len() && #[trigger] grid@[row]@[col];
            bits::lemma_stride_index(row, col);
            assert(p.shape.bit(15 * row + col));
        }
        p
    }

    pub fn shape(&self) -> (r: Bitboard)
        ensures
            r == self.cells(),
    {
        self.shape
    }

    pub fn height(&self) -> (r: u8)
        ensures
            r == self.rows(),
    {
        self.height
    }

    pub fn width(&self) -> (r: u8)
        ensures
            r == self.cols(),
    {
        self.width
    }

    /// Number of filled cells in the piece.
    pub fn cell_count(&self) -> (r: u32)
        ensures
            r == self.cells().count(),
            r <= 256,
    {
        self.shape.count_ones_const()
    }

    /// Perimeter of the piece: count of edges between filled and unfilled cells.
    pub fn perimeter(&self) -> (r: u32)
        ensures
            r == self.h_perimeter_spec() + self.v_perimeter_spec(),
    {
        self.h_perimeter() + self.v_perimeter()
    }

    /// Horizontal boundary edges: two per filled cell, less two per pair of
    /// horizontally adjacent filled cells.
    pub open spec fn h_perimeter_spec(self) -> int {
        2 * self.cells().count() - 2 * self.cells().pair_count(1)
    }

    /// Vertical boundary edges: two per filled cell, less two per pair of
    /// vertically adjacent filled cells.
    pub open spec fn v_perimeter_spec(self) -> int {
        2 * self.cells().count() - 2 * self.cells().pair_count(15)
    }

    /// Horizontal perimeter: boundary edges between horizontally adjacent cells.
    pub fn h_perimeter(&self) -> (r: u32)
        ensures
            r == self.h_perimeter_spec(),
            r <= 512,
    {
        let s = self.shape;
        let pairs = s.and(&s.shr_1());
        proof {
            Bitboard::lemma_pairs(s, pairs, 1);
        }
        let h_internal = pairs.count_ones();
        let total = s.count_ones();
        total * 2 - h_internal * 2
    }

    /// Vertical perimeter: boundary edges between vertically adjacent cells.
    pub fn v_perimeter(&self) -> (r: u32)
        ensures
            r == self.v_perimeter_spec(),
            r <= 512,
    {
        let s = self.shape;
        let pairs = s.and(&s.shr_stride());
        proof {
            Bitboard::lemma_pairs(s, pairs, 15);
        }
        let v_internal = pairs.count_ones();
        let total = s.count_ones();
        total * 2 - v_internal * 2
    }

    /// The piece as text: a `Piece(HxW)` line, then each row of its box
    /// with `#` for a filled cell and `.` for an empty one, one row per line.
    pub fn debug_string(&self) -> (r: String)
        requires
            self.wf(),
        ensures
            r@ == piece_text(*self),
    {
        let mut s = String::new();
        s.append("Piece(");
        append_decimal(&mut s, self.height);
        s.append("x");
        append_decimal(&mut s, self.width);
        s.append(")\n");
        let ghost header = s@;
        let mut r: usize = 0;
        while r < self.height as usize
            invariant
                self.wf(),
                r <= self.rows(),
                header == piece_header(*self),
                s@ == header + piece_rows_text(*self, r as int),
            decreases self.rows() - r,
        {
            let mut c: usize = 0;
            while c < self.width as usize
                invariant
                    self.wf(),
                    r < self.rows(),
                    c <= self.cols(),
                    header == piece_header(*self),
                    s@ == header + piece_rows_text(*self, r as int) + piece_row_text(*self, r as int, c as int),
                decreases self.cols() - c,
            {
                if self.shape.get_bit((r * 15 + c) as u32) {
                    s.append("#");
                } else {
                    s.append(".");
                }
                proof {
                    assert(s@ =~= header + piece_rows_text(*self, r as int) + piece_row_text(*self, r as int, c + 1));
                }
                c = c + 1;
            }
            s.append("\n");
            proof {
                assert(s@ =~= header + piece_rows_text(*self, r + 1));
            }
            r = r + 1;
        }
        s
    }

    /// Return the piece's shape shifted to board position (row, col).
    pub fn placed_at(&self, row: usize, col: usize) -> (r: Bitboard)
        requires
            row * 15 + col <= u32::MAX,
        ensures
            shifted(r, self.cells(), 15 * row + col),
    {
        let offset = (row * 15 + col) as u32;
        self.shape.shl(offset)
    }

    /// All valid placement positions on a board of the given dimensions, in
    /// row-major order: (row, col, shifted_shape) for each position.
    pub fn placements(&self, board_height: u8, board_width: u8) -> (r: Vec<(usize, usize, Bitboard)>)
        requires
            self.wf(),
            board_height >= self.rows(),
            board_width >= self.cols(),
        ensures
            r@.len() == (board_height - self.rows() + 1) * (board_width - self.cols() + 1),
            forall|k: int|
                0 <= k < r@.len() ==> {
                    let (row, col, mask) = #[trigger] r@[k];
                    &&& row <= board_height - self.rows()
                    &&& col <= board_width - self.cols()
                    &&& row * (board_width - self.cols() + 1) + col == k
                    &&& shifted(mask, self.cells(), 15 * row + col)
                },
    {
        let max_row = board_height as usize - self.height as usize;
        let max_col = board_width as usize - self.width as usize;
        let ghost ncol = max_col + 1;
        let mut result: Vec<(usize, usize, Bitboard)> = Vec::new();
        let mut row_start = self.shape;
        let mut r: usize = 0;
        while r <= max_row
            invariant
                max_row == board_height - self.rows(),
                max_col == board_width - self.cols(),
                ncol == max_col + 1,
                max_row <= 255,
                max_col <= 255,
                0 <= r <= max_row + 1,
                result@.len() == r * ncol,
                r <= max_row ==> shifted(row_start, self.shape, 15 * r),
                forall|k: int|
                    0 <= k < result@.len() ==> {
                        let (row, col, mask) = #[trigger] result@[k];
                        &&& row <= max_row
                        &&& col <= max_col
                        &&& row * ncol + col == k
                        &&& shifted(mask, self.shape, 15 * row + col)
                    },
            decreases max_row + 1 - r,
        {
            let mut mask = row_start;
            let mut c: usize = 0;
            while c <= max_col
                invariant
                    max_row == board_height - self.rows(),
                    max_col == board_width - self.cols(),
                    ncol == max_col + 1,
                    max_row <= 255,
                    max_col <= 255,
                    0 <= r <= max_row,
                    0 <= c <= max_col + 1,
                    result@.len() == r * ncol + c,
                    c <= max_col ==> shifted(mask, self.shape, 15 * r + c),
                    forall|k: int|
                        0 <= k < result@.len() ==> {
                            let (row, col, mask) = #[trigger] result@[k];
                            &&& row <= max_row
                            &&& col <= max_col
                            &&& row * ncol + col == k
                            &&& shifted(mask, self.shape, 15 * row + col)
                        },
                decreases max_col + 1 - c,
            {
                result.push((r, c, mask));
                if c < max_col {
                    let next = mask.shl_1();
                    proof {
                        assert forall|i: int| 0 <= i < 256 implies #[trigger] next.bit(i) == (i >= 15
                            * r + c + 1 && self.shape.bit(i - (15 * r + c + 1))) by {
                            if i >= 1 {
                                assert(mask.bit(i - 1) == (i - 1 >= 15 * r + c && self.shape.bit(
                                    i - 1 - (15 * r + c),
                                )));
                            }
                        }
                    }
                    mask = next;
                }
                c = c + 1;
            }
            assert(r * ncol + ncol == (r + 1) * ncol) by (nonlinear_arith);
            if r < max_row {
                let next = row_start.shl_stride();
                proof {
                    assert forall|i: int| 0 <= i < 256 implies #[trigger] next.bit(i) == (i >= 15 * (r
                        + 1) && self.shape.bit(i - 15 * (r + 1))) by {
                        if i >= 15 {
                            assert(row_start.bit(i - 15) == (i - 15 >= 15 * r && self.shape.bit(
                                i - 15 - 15 * r,
                            )));
                        }
                    }
                }
                row_start = next;
            }
            r = r + 1;
        }
        result
    }
}

} // verus!
