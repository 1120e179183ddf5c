//! A puzzle piece over the public-limb bitboard, with the line-thickness
//! measures used by line-based pruning.

use vstd::prelude::*;
use vstd::string::StringExecFns;
use crate::text::{decimal, append_decimal};
use crate::bits;
use crate::bitboard::Bitboard;
use crate::model::piece::in_box;

verus! {

/// A puzzle piece defined by its filled cells, anchored at (0, 0).
/// The shape is stored as a Bitboard using the 15-column stride layout.
#[derive(Clone, Copy, PartialEq, Eq, Hash, Debug)]
pub struct Piece {
    /// Bitboard with bits set at the piece's filled cells, anchored at (0, 0).
    shape: Bitboard,
    /// Height of the piece's bounding box.
    height: u8,
    /// Width of the piece's bounding box.
    width: u8,
}

/// `r` holds the bits of `s` moved up by `off` (lost beyond 255).
pub open spec fn shifted(r: Bitboard, s: Bitboard, off: int) -> bool {
    forall|i: int| 0 <= i < 256 ==> #[trigger] r.bit(i) == (i >= off && s.bit(i - off))
}

/// Whether the cell at (r, c) of shape `s` is filled.
pub open spec fn filled(s: Bitboard, r: int, c: int) -> bool {
    0 <= r && 0 <= c < 15 && s.bit(15 * r + c)
}

/// Filled cells of row `r` among columns `0..n`.
pub open spec fn row_count(s: Bitboard, r: int, n: int) -> int
    decreases n,
{
    if n <= 0 {
        0
    } else {
        row_count(s, r, n - 1) + if filled(s, r, n - 1) {
            1int
        } else {
            0int
        }
    }
}

/// Filled cells of column `c` among rows `0..n`.
pub open spec fn col_count(s: Bitboard, c: int, n: int) -> int
    decreases n,
{
    if n <= 0 {
        0
    } else {
        col_count(s, c, n - 1) + if filled(s, n - 1, c) {
            1int
        } else {
            0int
        }
    }
}

/// Filled cells `(r, c)` with `r < rows`, `c < cols` whose key is `k`,
/// counted row by row.
pub open spec fn keyed_count(
    s: Bitboard,
    key: spec_fn(int, int) -> int,
    k: int,
    rows: int,
    cols: int,
) -> int
    decreases rows,
{
    if rows <= 0 {
        0
    } else {
        keyed_count(s, key, k, rows - 1, cols) + keyed_row_count(s, key, k, rows - 1, cols)
    }
}

/// Filled cells `(r, c)` with `c < cols` in row `r` whose key is `k`.
pub open spec fn keyed_row_count(s: Bitboard, key: spec_fn(int, int) -> int, k: int, r: int, cols: int) -> int
    decreases cols,
{
    if cols <= 0 {
        0
    } else {
        keyed_row_count(s, key, k, r, cols - 1) + if filled(s, r, cols - 1) && key(r, cols - 1) == k {
            1int
        } else {
            0int
        }
    }
}

/// Main-diagonal key of a cell, offset so it is never negative.
pub open spec fn diag_key() -> spec_fn(int, int) -> int {
    |r: int, c: int| r - c + 4
}

/// Anti-diagonal key of a cell.
pub open spec fn antidiag_key() -> spec_fn(int, int) -> int {
    |r: int, c: int| r + c
}

/// Right-leaning zig-zag band key of a cell for a placement whose anchor has
/// row parity `rp` and column parity `cp`: the band `(c + cp) / 2` for
/// eligible cells (`r % 2 ^ c % 2 == rp ^ cp`), and an out-of-range key
/// otherwise.
pub open spec fn zigzag_key(rp: int, cp: int) -> spec_fn(int, int) -> int {
    |r: int, c: int|
        if (r % 2 != c % 2) == (rp != cp) {
            (c + cp) / 2
        } else {
            -1
        }
}

/// The key of cell (r, c) for the key kind `kind`: 0 for main diagonals,
/// 1 for anti-diagonals, and `2 + 2 * rp + cp` for the zig-zag bands of an
/// anchor with row parity `rp` and column parity `cp`.
pub open spec fn key_value(kind: u8, r: int, c: int) -> int {
    if kind == 0 {
        (diag_key())(r, c)
    } else if kind == 1 {
        (antidiag_key())(r, c)
    } else {
        (zigzag_key((kind - 2) / 2, (kind - 2) % 2))(r, c)
    }
}

/// The key of cell (r, c) for the key kind `kind`, or 9 for a cell off every band.
fn key_of(kind: u8, r: usize, c: usize) -> (k: usize)
    requires
        kind <= 5,
        r < 5,
        c < 5,
    ensures
        key_value(kind, r as int, c as int) >= 0 ==> k == key_value(kind, r as int, c as int),
        key_value(kind, r as int, c as int) < 0 ==> k == 9,
        k <= 9,
{
    if kind == 0 {
        r + 4 - c
    } else if kind == 1 {
        r + c
    } else {
        let row_parity = ((kind - 2) / 2) as usize;
        let column_parity = ((kind - 2) % 2) as usize;
        if ((r % 2) != (c % 2)) == (row_parity != column_parity) {
            (c + column_parity) / 2
        } else {
            9
        }
    }
}

/// The largest entry of `counts`.
fn max_entry(counts: &Vec<u32>) -> (m: u32)
    requires
        counts@.len() >= 1,
    ensures
        forall|k: int| 0 <= k < counts@.len() ==> #[trigger] counts@[k] <= m,
        exists|k: int| 0 <= k < counts@.len() && #[trigger] counts@[k] == m,
{
    let mut max = counts[0];
    let mut k: usize = 1;
    while k < counts.len()
        invariant
            1 <= k <= counts@.len(),
            forall|j: int| 0 <= j < k ==> #[trigger] counts@[j] <= max,
            exists|j: int| 0 <= j < k && #[trigger] counts@[j] == max,
        decreases counts@.len() - k,
    {
        if counts[k] > max {
            max = counts[k];
        }
        k = k + 1;
    }
    max
}

/// `m` is the largest of `f(0..n)`.
pub open spec fn is_max_of(f: spec_fn(int) -> int, n: int, m: int) -> bool {
    &&& forall|k: int| 0 <= k < n ==> #[trigger] f(k) <= m
    &&& exists|k: int| 0 <= k < n && #[trigger] f(k) == m
}

/// The first line of a piece's text: `Piece(HxW)`.
pub open spec fn piece_header(p: Piece) -> Seq<char> {
    "Piece("@ + decimal(p.rows()) + "x"@ + decimal(p.cols()) + ")\n"@
}

/// The first `c` cells of row `r` of the piece: `#` filled, `.` empty.
pub open spec fn piece_row_text(p: Piece, r: int, c: int) -> Seq<char>
    decreases c,
{
    if c <= 0 {
        Seq::empty()
    } else {
        piece_row_text(p, r, c - 1) + if p.cells().bit(15 * r + c - 1) {
            "#"@
        } else {
            "."@
        }
    }
}

/// The first `k` rows of the piece, one per line.
pub open spec fn piece_rows_text(p: Piece, k: int) -> Seq<char>
    decreases k,
{
    if k <= 0 {
        Seq::empty()
    } else {
        piece_rows_text(p, k - 1) + piece_row_text(p, k - 1, p.cols()) + "\n"@
    }
}

/// The piece as text.
pub open spec fn piece_text(p: Piece) -> Seq<char> {
    piece_header(p) + piece_rows_text(p, p.rows())
}

impl Piece {
    /// The filled cells.
    pub closed spec fn cells(self) -> Bitboard {
        self.shape
    }

    /// Height of the bounding box.
    pub closed spec fn rows(self) -> int {
        self.height as int
    }

    /// Width of the bounding box.
    pub closed spec fn cols(self) -> int {
        self.width as int
    }

    /// Well-formedness: the bounding box is between 1x1 and 5x5, the shape
    /// lies within it and has at least one filled cell.
    pub closed spec fn wf(self) -> bool {
        &&& 1 <= self.height <= 5
        &&& 1 <= self.width <= 5
        &&& forall|i: int| 0 <= i < 256 && #[trigger] self.shape.bit(i) ==> in_box(
            self.height as int,
            self.width as int,
            i,
        )
        &&& exists|i: int| 0 <= i < 256 && #[trigger] self.shape.bit(i)
    }

    /// Facts every well-formed piece satisfies.
    pub proof fn lemma_wf(self)
        requires
            self.wf(),
        ensures
            1 <= self.rows() <= 5,
            1 <= self.cols() <= 5,
            forall|i: int| 0 <= i < 256 && #[trigger] self.cells().bit(i) ==> in_box(
                self.rows(),
                self.cols(),
                i,
            ),
    {
    }

    /// Create a piece from a 2D grid of booleans (true = filled).
    pub fn from_grid(grid: &[&[bool]]) -> (r: Self)
        requires
            1 <= grid@.len() <= 5,
            1 <= grid@[0]@.len() <= 5,
            forall|row: int| 0 <= row < grid@.len() ==> #[trigger] grid@[row]@.len() == grid@[0]@.len(),
            exists|row: int, col: int|
                0 <= row < grid@.len() && 0 <= col < grid@[0]@.len() && #[trigger] grid@[row]@[col],
        ensures
            r.wf(),
            r.rows() == grid@.len(),
            r.cols() == grid@[0]@.len(),
            forall|i: int|
                0 <= i < 256 ==> #[trigger] r.cells().bit(i) == (in_box(r.rows(), r.cols(), i)
                    && grid@[i / 15]@[i % 15]),
    {
        let height = grid.len();
        let width = grid[0].len();
        let ghost h = height as int;
        let ghost w = width as int;
        let mut shape = Bitboard::zero();
        let mut r: usize = 0;
        while r < height
            invariant
                0 <= r <= height,
                h == height,
                w == width,
                height == grid@.len(),
                width == grid@[0]@.len(),
                1 <= height <= 5,
                1 <= width <= 5,
                forall|row: int| 0 <= row < grid@.len() ==> #[trigger] grid@[row]@.len() == width,
                forall|i: int|
                    0 <= i < 256 ==> #[trigger] shape.bit(i) == (in_box(h, w, i) && i / 15 < r
                        && grid@[i / 15]@[i % 15]),
            decreases height - r,
        {
            let row = grid[r];
            let mut c: usize = 0;
            while c < width
                invariant
                    0 <= c <= width,
                    0 <= r < height,
                    h == height,
                    w == width,
                    row@ == grid@[r as int]@,
                    height == grid@.len(),
                    width == grid@[0]@.len(),
                    1 <= height <= 5,
                    1 <= width <= 5,
                    forall|rr: int| 0 <= rr < grid@.len() ==> #[trigger] grid@[rr]@.len() == width,
                    forall|i: int|
                        0 <= i < 256 ==> #[trigger] shape.bit(i) == (in_box(h, w, i) && (i / 15 < r
                            || (i / 15 == r && i % 15 < c)) && grid@[i / 15]@[i % 15]),
                decreases width - c,
            {
                let ghost before = shape;
                let ghost idx: int = 15 * r + c;
                proof {
                    bits::lemma_stride_index(r as int, c as int);
                }
                if row[c] {
                    shape.set_bit((r * 15 + c) as u32);
                }
                proof {
                    assert forall|i: int| 0 <= i < 256 implies #[trigger] shape.bit(i) == (in_box(
                        h,
                        w,
                        i,
                    ) && (i / 15 < r || (i / 15 == r && i % 15 < c + 1)) && grid@[i / 15]@[i % 15]) by {
                        bits::lemma_stride_split(i);
                        assert(before.bit(i) == (in_box(h, w, i) && (i / 15 < r || (i / 15 == r && i
                            % 15 < c)) && grid@[i / 15]@[i % 15]));
                        if i == idx {
                            assert(i / 15 == r && i % 15 == c);
                        } else if i / 15 == r && i % 15 == c {
                            assert(i == idx);
                        }
                    }
                }
                c = c + 1;
            }
            r = r + 1;
        }
        let p = Self { shape, height: height as u8, width: width as u8 };
        proof {
            let (row, col) = choose|row: int, col: int|
                0 <= row < grid@.len() && 0 <= col < grid@[0]@.len() && #[trigger] grid@[row]@[col];
            bits::lemma_stride_index(row, col);
            assert(p.shape.bit(15 * row + col));
        }
        p
    }

    pub fn shape(&self) -> (r: Bitboard)
        ensures
            r == self.cells(),
    {
        self.shape
    }

    pub fn height(&self) -> (r: u8)
        ensures
            r == self.rows(),
    {
        self.height
    }

    pub fn width(&self) -> (r: u8)
        ensures
            r == self.cols(),
    {
        self.width
    }

    /// Number of filled cells in the piece.
    pub fn cell_count(&self) -> (r: u32)
        ensures
            r == self.cells().count(),
            r <= 256,
    {
        self.shape.count_ones()
    }

    /// Filled cells in row `r` of the piece.
    pub(crate) fn row_filled(&self, r: usize) -> (count: u32)
        requires
            self.wf(),
            r < self.rows(),
        ensures
            count == row_count(self.cells(), r as int, self.cols()),
            count <= 5,
    {
        let mut count: u32 = 0;
        let mut c: usize = 0;
        while c < self.width as usize
            invariant
                self.wf(),
                r < self.rows(),
                c <= self.cols(),
                count == row_count(self.cells(), r as int, c as int),
                count <= c,
            decreases self.cols() - c,
        {
            if self.shape.get_bit((r * 15 + c) as u32) {
                count = count + 1;
            }
            c = c + 1;
        }
        count
    }

    /// Filled cells in column `c` of the piece.
    pub(crate) fn col_filled(&self, c: usize) -> (count: u32)
        requires
            self.wf(),
            c < self.cols(),
        ensures
            count == col_count(self.cells(), c as int, self.rows()),
            count <= 5,
    {
        let mut count: u32 = 0;
        let mut r: usize = 0;
        while r < self.height as usize
            invariant
                self.wf(),
                c < self.cols(),
                r <= self.rows(),
                count == col_count(self.cells(), c as int, r as int),
                count <= r,
            decreases self.rows() - r,
        {
            if self.shape.get_bit((r * 15 + c) as u32) {
                count = count + 1;
            }
            r = r + 1;
        }
        count
    }

    /// Max filled cells in any single row of the piece.
    pub fn max_row_thickness(&self) -> (m: u32)
        requires
            self.wf(),
        ensures
            is_max_of(|r: int| row_count(self.cells(), r, self.cols()), self.rows(), m as int),
            m <= 25,
    {
        let ghost f = |r: int| row_count(self.cells(), r, self.cols());
        let mut max: u32 = 0;
        let mut r: usize = 0;
        while r < self.height as usize
            invariant
                self.wf(),
                f == (|r: int| row_count(self.cells(), r, self.cols())),
                r <= self.rows(),
                max <= 5,
                r == 0 ==> max == 0,
                forall|k: int| 0 <= k < r ==> #[trigger] f(k) <= max,
                r > 0 ==> exists|k: int| 0 <= k < r && #[trigger] f(k) == max,
            decreases self.rows() - r,
        {
            let count = self.row_filled(r);
            assert(f(r as int) == count);
            if count > max {
                max = count;
            }
            proof {
                if r == 0 {
                    assert(f(0) == max);
                }
            }
            r = r + 1;
        }
        max
    }

    /// Max filled cells in any single column of the piece.
    pub fn max_col_thickness(&self) -> (m: u32)
        requires
            self.wf(),
        ensures
            is_max_of(|c: int| col_count(self.cells(), c, self.rows()), self.cols(), m as int),
            m <= 25,
    {
        let ghost f = |c: int| col_count(self.cells(), c, self.rows());
        let mut max: u32 = 0;
        let mut c: usize = 0;
        while c < self.width as usize
            invariant
                self.wf(),
                f == (|c: int| col_count(self.cells(), c, self.rows())),
                c <= self.cols(),
                max <= 5,
                c == 0 ==> max == 0,
                forall|k: int| 0 <= k < c ==> #[trigger] f(k) <= max,
                c > 0 ==> exists|k: int| 0 <= k < c && #[trigger] f(k) == max,
            decreases self.cols() - c,
        {
            let count = self.col_filled(c);
            assert(f(c as int) == count);
            if count > max {
                max = count;
            }
            proof {
                if c == 0 {
                    assert(f(0) == max);
                }
            }
            c = c + 1;
        }
        max
    }

    /// Filled cells of the piece grouped by `key`, for the keys `0..n`,
    /// where `key_of(r, c)` computes the key (or `n` and above for none).
    fn keyed_counts(&self, n: usize, Ghost(key): Ghost<spec_fn(int, int) -> int>, kind: u8) -> (counts: Vec<u32>)
        requires
            self.wf(),
            1 <= n <= 9,
            kind <= 5,
            forall|r: int, c: int|
                0 <= r < 5 && 0 <= c < 5 ==> #[trigger] key(r, c) == key_value(kind, r, c),
        ensures
            counts@.len() == n,
            forall|d: int| 0 <= d < n ==> #[trigger] counts@[d] == keyed_count(self.cells(), key, d, self.rows(), self.cols()),
            forall|d: int| 0 <= d < n ==> #[trigger] counts@[d] <= 25,
    {
        let mut counts: Vec<u32> = Vec::new();
        while counts.len() < n
            invariant
                counts@.len() <= n,
                forall|d: int| 0 <= d < counts@.len() ==> #[trigger] counts@[d] == 0,
            decreases n - counts@.len(),
        {
            counts.push(0);
        }
        let mut r: usize = 0;
        while r < self.height as usize
            invariant
                self.wf(),
                1 <= n <= 9,
                kind <= 5,
                forall|r: int, c: int| 0 <= r < 5 && 0 <= c < 5 ==> #[trigger] key(r, c) == key_value(kind, r, c),
                r <= self.rows(),
                counts@.len() == n,
                forall|d: int| 0 <= d < n ==> #[trigger] counts@[d] == keyed_count(self.cells(), key, d, r as int, self.cols()),
                forall|d: int| 0 <= d < n ==> #[trigger] counts@[d] <= 5 * r,
            decreases self.rows() - r,
        {
            let mut c: usize = 0;
            while c < self.width as usize
                invariant
                    self.wf(),
                    1 <= n <= 9,
                    kind <= 5,
                    forall|r: int, c: int| 0 <= r < 5 && 0 <= c < 5 ==> #[trigger] key(r, c) == key_value(kind, r, c),
                    r < self.rows(),
                    c <= self.cols(),
                    counts@.len() == n,
                    forall|d: int|
                        0 <= d < n ==> #[trigger] counts@[d] == keyed_count(self.cells(), key, d, r as int, self.cols())
                            + keyed_row_count(self.cells(), key, d, r as int, c as int),
                    forall|d: int| 0 <= d < n ==> #[trigger] counts@[d] <= 5 * r + c,
                decreases self.cols() - c,
            {
                if self.shape.get_bit((r * 15 + c) as u32) {
                    let k = key_of(kind, r, c);
                    if k < n {
                        counts.set(k, counts[k] + 1);
                    }
                }
                c = c + 1;
            }
            r = r + 1;
        }
        counts
    }

    /// Max filled cells on any single main diagonal (d = row - col) within the piece.
    pub fn max_diag_thickness(&self) -> (m: u32)
        requires
            self.wf(),
        ensures
            is_max_of(|d: int| keyed_count(self.cells(), diag_key(), d, self.rows(), self.cols()), 9, m as int),
            m <= 25,
    {
        let counts = self.keyed_counts(9, Ghost(diag_key()), 0);
        let m = max_entry(&counts);
        proof {
            let f = |d: int| keyed_count(self.cells(), diag_key(), d, self.rows(), self.cols());
            assert forall|d: int| 0 <= d < 9 implies #[trigger] f(d) <= m by {
                assert(f(d) == counts@[d]);
            }
            let k = choose|k: int| 0 <= k < counts@.len() && #[trigger] counts@[k] == m;
            assert(f(k) == m);
            assert(is_max_of(f, 9, m as int));
        }
        m
    }

    /// Max filled cells on any single anti-diagonal (d = row + col) within the piece.
    pub fn max_antidiag_thickness(&self) -> (m: u32)
        requires
            self.wf(),
        ensures
            is_max_of(|d: int| keyed_count(self.cells(), antidiag_key(), d, self.rows(), self.cols()), 9, m as int),
            m <= 25,
    {
        let counts = self.keyed_counts(9, Ghost(antidiag_key()), 1);
        let m = max_entry(&counts);
        proof {
            let f = |d: int| keyed_count(self.cells(), antidiag_key(), d, self.rows(), self.cols());
            assert forall|d: int| 0 <= d < 9 implies #[trigger] f(d) <= m by {
                assert(f(d) == counts@[d]);
            }
            let k = choose|k: int| 0 <= k < counts@.len() && #[trigger] counts@[k] == m;
            assert(f(k) == m);
            assert(is_max_of(f, 9, m as int));
        }
        m
    }

    /// Max filled cells on any single right-leaning zig-zag band, over the
    /// four parities of a placement's anchor: band `t % 3` for anchor row
    /// parity `t / 6` and column parity `t / 3 % 2`.
    pub fn max_zigzag_r_thickness(&self) -> (m: u32)
        requires
            self.wf(),
        ensures
            is_max_of(
                |t: int| keyed_count(self.cells(), zigzag_key(t / 6, t / 3 % 2), t % 3, self.rows(), self.cols()),
                12,
                m as int,
            ),
            m <= 25,
    {
        let ghost f = |t: int| keyed_count(self.cells(), zigzag_key(t / 6, t / 3 % 2), t % 3, self.rows(), self.cols());
        let mut max: u32 = 0;
        let mut t: usize = 0;
        while t < 4
            invariant
                self.wf(),
                t <= 4,
                max <= 25,
                f == (|t: int| keyed_count(self.cells(), zigzag_key(t / 6, t / 3 % 2), t % 3, self.rows(), self.cols())),
                t == 0 ==> max == 0,
                forall|k: int| 0 <= k < 3 * t ==> #[trigger] f(k) <= max,
                t > 0 ==> exists|k: int| 0 <= k < 3 * t && #[trigger] f(k) == max,
            decreases 4 - t,
        {
            let row_parity = t / 2;
            let column_parity = t % 2;
            let ghost key = zigzag_key(row_parity as int, column_parity as int);
            let band_counts = self.keyed_counts(3, Ghost(key), (2 + t) as u8);
            let mut b: usize = 0;
            while b < 3
                invariant
                    self.wf(),
                    t < 4,
                    max <= 25,
                    forall|d: int| 0 <= d < 3 ==> #[trigger] band_counts@[d] <= 25,
                    f == (|t: int| keyed_count(self.cells(), zigzag_key(t / 6, t / 3 % 2), t % 3, self.rows(), self.cols())),
                    key == zigzag_key(t as int / 2, t as int % 2),
                    band_counts@.len() == 3,
                    forall|d: int| 0 <= d < 3 ==> #[trigger] band_counts@[d] == keyed_count(self.cells(), key, d, self.rows(), self.cols()),
                    b <= 3,
                    t == 0 && b == 0 ==> max == 0,
                    forall|k: int| 0 <= k < 3 * t + b ==> #[trigger] f(k) <= max,
                    3 * t + b > 0 ==> exists|k: int| 0 <= k < 3 * t + b && #[trigger] f(k) == max,
                decreases 3 - b,
            {
                proof {
                    let k = 3 * t + b;
                    assert(k / 6 == t as int / 2 && k / 3 % 2 == t as int % 2 && k % 3 == b);
                    assert(f(k as int) == band_counts@[b as int]);
                }
                if band_counts[b] > max {
                    max = band_counts[b];
                }
                proof {
                    if t == 0 && b == 0 {
                        assert(f(0) == max);
                    }
                }
                b = b + 1;
            }
            t = t + 1;
        }
        max
    }

    /// Max filled cells on any single left-leaning zig-zag band: the
    /// opposite eligibility parity, which the four anchor parities of the
    /// right-leaning count already cover.
    pub fn max_zigzag_l_thickness(&self) -> (m: u32)
        requires
            self.wf(),
        ensures
            is_max_of(
                |t: int| keyed_count(self.cells(), zigzag_key(t / 6, t / 3 % 2), t % 3, self.rows(), self.cols()),
                12,
                m as int,
            ),
            m <= 25,
    {
        self.max_zigzag_r_thickness()
    }

    /// The diagonal span of this piece: how many consecutive diagonals it
    /// covers, height + width - 1.
    pub fn diag_span(&self) -> (r: u8)
        requires
            self.wf(),
        ensures
            r == self.rows() + self.cols() - 1,
    {
        self.height + self.width - 1
    }

    /// Zig-zag span: a piece of width W spans at most floor(W/2) + 1 zig-zag bands.
    pub fn zigzag_span(&self) -> (r: u8)
        requires
            self.wf(),
        ensures
            r == self.cols() / 2 + 1,
    {
        self.width / 2 + 1
    }

    /// Perimeter of the piece: four edges per filled cell, less two per pair
    /// of horizontally or vertically adjacent filled cells.
    pub fn perimeter(&self) -> (r: u32)
        ensures
            r == 4 * self.cells().count() - 2 * (bits::pair_count_upto(self.cells().limbs, 1, 256)
                + bits::pair_count_upto(self.cells().limbs, 15, 256)),
    {
        let s = self.shape;
        let h_pairs = s.and(&s.shr(1));
        let v_pairs = s.and(&s.shr(15));
        proof {
            bits::lemma_pair_count(s.limbs, h_pairs.limbs, 1, 256);
            bits::lemma_pair_count(s.limbs, v_pairs.limbs, 15, 256);
        }
        let h_internal = h_pairs.count_ones();
        let v_internal = v_pairs.count_ones();
        s.count_ones() * 4 - (h_internal + v_internal) * 2
    }

    /// The piece as text: a `Piece(HxW)` line, then each row of its box
    /// with `#` for a filled cell and `.` for an empty one, one row per line.
    pub fn debug_string(&self) -> (r: String)
        requires
            self.wf(),
        ensures
            r@ == piece_text(*self),
    {
        let mut s = String::new();
        s.append("Piece(");
        append_decimal(&mut s, self.height);
        s.append("x");
        append_decimal(&mut s, self.width);
        s.append(")\n");
        let ghost header = s@;
        let mut r: usize = 0;
        while r < self.height as usize
            invariant
                self.wf(),
                r <= self.rows(),
                header == piece_header(*self),
                s@ == header + piece_rows_text(*self, r as int),
            decreases self.rows() - r,
        {
            let mut c: usize = 0;
            while c < self.width as usize
                invariant
                    self.wf(),
                    r < self.rows(),
                    c <= self.cols(),
                    header == piece_header(*self),
                    s@ == header + piece_rows_text(*self, r as int) + piece_row_text(*self, r as int, c as int),
                decreases self.cols() - c,
            {
                if self.shape.get_bit((r * 15 + c) as u32) {
                    s.append("#");
                } else {
                    s.append(".");
                }
                proof {
                    assert(s@ =~= header + piece_rows_text(*self, r as int) + piece_row_text(*self, r as int, c + 1));
                }
                c = c + 1;
            }
            s.append("\n");
            proof {
                assert(s@ =~= header + piece_rows_text(*self, r + 1));
            }
            r = r + 1;
        }
        s
    }

    /// Return the piece's shape shifted to board position (row, col).
    pub fn placed_at(&self, row: usize, col: usize) -> (r: Bitboard)
        requires
            row * 15 + col <= u32::MAX,
        ensures
            shifted(r, self.cells(), 15 * row + col),
    {
        let offset = (row * 15 + col) as u32;
        self.shape.shl(offset)
    }

    /// All valid placement positions on a board of the given dimensions, in
    /// row-major order: (row, col, shifted_shape) for each position.
    pub fn placements(&self, board_height: u8, board_width: u8) -> (r: Vec<(usize, usize, Bitboard)>)
        requires
            self.wf(),
            board_height >= self.rows(),
            board_width >= self.cols(),
        ensures
            r@.len() == (board_height - self.rows() + 1) * (board_width - self.cols() + 1),
            forall|k: int|
                0 <= k < r@.len() ==> {
                    let (row, col, mask) = #[trigger] r@[k];
                    &&& row <= board_height - self.rows()
                    &&& col <= board_width - self.cols()
                    &&& row * (board_width - self.cols() + 1) + col == k
                    &&& shifted(mask, self.cells(), 15 * row + col)
                },
    {
        let max_row = board_height as usize - self.height as usize;
        let max_col = board_width as usize - self.width as usize;
        let ghost ncol = max_col + 1;
        let mut result: Vec<(usize, usize, Bitboard)> = Vec::new();
        let mut r: usize = 0;
        while r <= max_row
            invariant
                max_row == board_height - self.rows(),
                max_col == board_width - self.cols(),
                ncol == max_col + 1,
                max_row <= 255,
                max_col <= 255,
                0 <= r <= max_row + 1,
                result@.len() == r * ncol,
                forall|k: int|
                    0 <= k < result@.len() ==> {
                        let (row, col, mask) = #[trigger] result@[k];
                        &&& row <= max_row
                        &&& col <= max_col
                        &&& row * ncol + col == k
                        &&& shifted(mask, self.shape, 15 * row + col)
                    },
            decreases max_row + 1 - r,
        {
            let mut c: usize = 0;
            while c <= max_col
                invariant
                    max_row == board_height - self.rows(),
                    max_col == board_width - self.cols(),
                    ncol == max_col + 1,
                    max_row <= 255,
                    max_col <= 255,
                    0 <= r <= max_row,
                    0 <= c <= max_col + 1,
                    result@.len() == r * ncol + c,
                    forall|k: int|
                        0 <= k < result@.len() ==> {
                            let (row, col, mask) = #[trigger] result@[k];
                            &&& row <= max_row
                            &&& col <= max_col
                            &&& row * ncol + col == k
                            &&& shifted(mask, self.shape, 15 * row + col)
                        },
                decreases max_col + 1 - c,
            {
                result.push((r, c, self.placed_at(r, c)));
                c = c + 1;
            }
            assert(r * ncol + ncol == (r + 1) * ncol) by (nonlinear_arith);
            r = r + 1;
        }
        result
    }
}

} // verus!
