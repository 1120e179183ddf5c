//! Line-family deficit pruning (rows, columns, diagonals, zig-zags).
//!
//! For each family of parallel lines (all rows, say), the deficit on each
//! line is a weight; pieces placed later can only cover lines within their
//! span of each other, so an independent-set dynamic program over the
//! weights bounds the deficit that any one piece's lines must carry. Rows
//! and columns also get per-line budgets when M >= 3.

use vstd::prelude::*;
use crate::bits;
use crate::model::bitboard::Bitboard;
use crate::model::board::Board;
use crate::piece::{Piece, row_count, col_count, keyed_count, diag_key, antidiag_key, zigzag_key, is_max_of};
use crate::solver::backtrack::{covered_deficit, covered_count};

verus! {

/// Line families: rows, columns, diagonals, anti-diagonals, right- and
/// left-leaning zig-zag bands.
pub const FAMILY_COUNT: usize = 6;

/// Most pieces the tables hold.
pub const MAX_PIECES: usize = 37;

/// The line of family `kind` through the cell at (row, col) of a board
/// `w` wide, or -1 where the family has none.
pub open spec fn line_through(kind: int, row: int, col: int, w: int) -> int {
    if kind == 0 {
        row
    } else if kind == 1 {
        col
    } else if kind == 2 {
        row - col + w - 1
    } else if kind == 3 {
        row + col
    } else if kind == 4 {
        if row % 2 == col % 2 {
            col / 2
        } else {
            -1
        }
    } else {
        if row % 2 != col % 2 {
            col / 2
        } else {
            -1
        }
    }
}

/// Whether bitboard index `i` is a cell of an `h` by `w` board on line `l`
/// of family `kind`.
pub open spec fn on_line(kind: int, h: int, w: int, l: int, i: int) -> bool {
    &&& 0 <= i < 256
    &&& i / 15 < h
    &&& i % 15 < w
    &&& 0 <= l
    &&& line_through(kind, i / 15, i % 15, w) == l
}

/// Number of lines of family `kind` on an `h` by `w` board.
pub open spec fn line_count(kind: int, h: int, w: int) -> int {
    if kind == 0 {
        h
    } else if kind == 1 {
        w
    } else if kind <= 3 {
        h + w - 1
    } else {
        (w + 1) / 2
    }
}

/// The most cells of piece `p` on one line of family `kind`, as a spec of
/// the piece's thickness functions.
pub open spec fn thickness_is(kind: int, p: Piece, t: int) -> bool {
    if kind == 0 {
        is_max_of(|r: int| row_count(p.cells(), r, p.cols()), p.rows(), t)
    } else if kind == 1 {
        is_max_of(|c: int| col_count(p.cells(), c, p.rows()), p.cols(), t)
    } else if kind == 2 {
        is_max_of(|d: int| keyed_count(p.cells(), diag_key(), d, p.rows(), p.cols()), 9, t)
    } else if kind == 3 {
        is_max_of(|d: int| keyed_count(p.cells(), antidiag_key(), d, p.rows(), p.cols()), 9, t)
    } else {
        is_max_of(
            |t: int| keyed_count(p.cells(), zigzag_key(t / 6, t / 3 % 2), t % 3, p.rows(), p.cols()),
            12,
            t,
        )
    }
}

/// How many consecutive lines of family `kind` piece `p` can reach.
pub open spec fn span_of(kind: int, p: Piece) -> int {
    if kind == 0 {
        p.rows()
    } else if kind == 1 {
        p.cols()
    } else if kind <= 3 {
        p.rows() + p.cols() - 1
    } else {
        p.cols() / 2 + 1
    }
}

/// Largest of `f(lo..=hi)`, or 0 for an empty range (all values are counts).
pub open spec fn max_over(f: spec_fn(int) -> int, lo: int, hi: int) -> int
    decreases hi - lo + 1,
{
    if hi < lo {
        0
    } else {
        let rest = max_over(f, lo, hi - 1);
        if f(hi) > rest {
            f(hi)
        } else {
            rest
        }
    }
}

/// The cells of piece `p` on its row or column `k` (rows for kind 0).
pub open spec fn line_thickness(kind: int, p: Piece, k: int) -> int {
    if kind == 0 {
        row_count(p.cells(), k, p.cols())
    } else {
        col_count(p.cells(), k, p.rows())
    }
}

/// The most cells of piece `p` that can land on board line `l` of a family
/// of `lines` lines (rows for kind 0, columns for kind 1): over the piece's
/// own lines `k` with `l - k` a valid anchor line.
pub open spec fn line_budget(kind: int, p: Piece, lines: int, l: int) -> int {
    let extent = if kind == 0 {
        p.rows()
    } else {
        p.cols()
    };
    let lo = if l + extent > lines {
        l + extent - lines
    } else {
        0
    };
    let hi = if l < extent - 1 {
        l
    } else {
        extent - 1
    };
    max_over(|k: int| line_thickness(kind, p, k), lo, hi)
}

/// Best total weight of lines chosen among `0..=i`, no two closer than `gap`.
pub open spec fn gap_dp(weights: Seq<int>, gap: int, i: int) -> int
    decreases i + 1,
{
    if i < 0 {
        0
    } else {
        let take = weights[i] + if gap >= 1 && i >= gap {
            gap_dp(weights, gap, i - gap)
        } else {
            0
        };
        let skip = if i > 0 {
            gap_dp(weights, gap, i - 1)
        } else {
            0
        };
        if take > skip {
            take
        } else {
            skip
        }
    }
}

/// A family of parallel lines for the deficit bound.
pub struct LineFamily {
    masks: Vec<Bitboard>,
    num_lines: usize,
    remaining_budget: Vec<u32>,
    suffix_max_span: Vec<u8>,
    has_per_line_budget: bool,
    per_line_budget: Vec<Vec<u32>>,
}

impl LineFamily {
    /// The line masks.
    pub closed spec fn masks_spec(self) -> Seq<Bitboard> {
        self.masks@
    }

    /// Number of lines.
    pub closed spec fn num_lines_spec(self) -> int {
        self.num_lines as int
    }

    /// Sum of the thicknesses of pieces `i..`.
    pub closed spec fn remaining_spec(self) -> Seq<u32> {
        self.remaining_budget@
    }

    /// Largest span of pieces `i..`.
    pub closed spec fn span_spec(self) -> Seq<u8> {
        self.suffix_max_span@
    }

    /// Whether the per-line budgets are checked.
    pub closed spec fn has_per_line_spec(self) -> bool {
        self.has_per_line_budget
    }

    /// Per-line budgets, by piece index and line.
    pub closed spec fn per_line_spec(self) -> Seq<Seq<u32>> {
        self.per_line_budget@.map_values(|v: Vec<u32>| v@)
    }

    /// The tables are sized for `n` pieces.
    pub closed spec fn sized(self, n: int) -> bool {
        &&& self.masks@.len() == self.num_lines
        &&& self.num_lines <= 27
        &&& self.remaining_budget@.len() == n + 1
        &&& self.suffix_max_span@.len() == n + 1
        &&& self.per_line_budget@.len() == n + 1
        &&& forall|i: int| 0 <= i <= n ==> (#[trigger] self.per_line_budget@[i])@.len() == self.num_lines
        &&& forall|i: int| 0 <= i <= n ==> #[trigger] self.remaining_budget@[i] <= 25 * (n - i)
        &&& forall|i: int, l: int|
            0 <= i <= n && 0 <= l < self.num_lines ==> #[trigger] self.per_line_budget@[i]@[l] <= 5 * (n - i)
    }
}

/// The family's tables reach at least to piece index `p`.
pub open spec fn sized_for(f: LineFamily, p: int) -> bool {
    exists|n: int| #[trigger] f.sized(n) && p <= n
}

/// The deficit on the cells of `mask`.
fn line_weight(board: &Board, mask: Bitboard, modulus: u8) -> (r: u32)
    requires
        board.wf(),
        modulus == board.modulus(),
    ensures
        r == covered_deficit(*board, mask, modulus as int),
        r <= 4096,
{
    proof {
        board.lemma_wf();
    }
    let mut weight: u32 = 0;
    let mut deficit: u8 = 1;
    while deficit < modulus
        invariant
            board.wf(),
            2 <= modulus <= 5,
            modulus == board.modulus(),
            1 <= deficit <= modulus,
            weight == covered_deficit(*board, mask, deficit as int),
            weight <= 1024 * (deficit - 1),
        decreases modulus - deficit,
    {
        let c = covered_count(board, mask, deficit);
        proof {
            assert(deficit * c <= 1024) by (nonlinear_arith)
                requires
                    c <= 256,
                    deficit <= 4,
            ;
        }
        weight = weight + deficit as u32 * c;
        deficit = deficit + 1;
    }
    weight
}

/// The weights of the family's lines on `b`.
pub open spec fn weights_of(b: Board, masks: Seq<Bitboard>) -> Seq<int> {
    Seq::new(masks.len(), |l: int| covered_deficit(b, masks[l], b.modulus()))
}

/// Whether the family allows board `b` with pieces `p..` to place: no line
/// carries more deficit than its per-line budget (when checked), and the
/// best set of lines spaced by the pieces' largest span carries no more than
/// the pieces' thickness allows.
pub open spec fn family_allows(f: LineFamily, b: Board, p: int) -> bool {
    let n = f.num_lines_spec();
    let weights = weights_of(b, f.masks_spec());
    let gap = f.span_spec()[p] as int;
    n == 0 || ((f.has_per_line_spec() ==> forall|l: int|
        0 <= l < n ==> weights[l] <= #[trigger] f.per_line_spec()[p][l]) && (gap == 0 || gap_dp(weights, gap, n - 1)
        <= f.remaining_spec()[p]))
}

/// Check a line family. Returns false if the board cannot be finished.
fn check_line_family(board: &Board, family: &LineFamily, piece_idx: usize, m: u8) -> (r: bool)
    requires
        board.wf(),
        m == board.modulus(),
        exists|n: int| #[trigger] family.sized(n) && piece_idx <= n,
    ensures
        r == family_allows(*family, *board, piece_idx as int),
{
    let ghost pieces = choose|n: int| #[trigger] family.sized(n) && piece_idx <= n;
    let ghost ws = weights_of(*board, family.masks@);
    let gap = family.suffix_max_span[piece_idx] as usize;
    let n = family.num_lines;
    if n == 0 {
        return true;
    }
    let mut weights: Vec<u32> = Vec::new();
    let mut i: usize = 0;
    while i < n
        invariant
            board.wf(),
            m == board.modulus(),
            family.sized(pieces),
            piece_idx <= pieces,
            n == family.num_lines,
            ws == weights_of(*board, family.masks@),
            i <= n,
            weights@.len() == i,
            forall|l: int| 0 <= l < i ==> #[trigger] weights@[l] == ws[l],
            forall|l: int| 0 <= l < i ==> #[trigger] weights@[l] <= 4096,
            family.has_per_line_budget ==> forall|l: int|
                0 <= l < i ==> ws[l] <= #[trigger] family.per_line_budget@[piece_idx as int]@[l],
        decreases n - i,
    {
        let w = line_weight(board, family.masks[i], m);
        weights.push(w);
        if family.has_per_line_budget && family.per_line_budget[piece_idx][i] < w {
            proof {
                assert(family.per_line_spec()[piece_idx as int] == family.per_line_budget@[piece_idx as int]@);
            }
            return false;
        }
        i = i + 1;
    }
    proof {
        assert(family.has_per_line_spec() ==> forall|l: int|
            0 <= l < n ==> ws[l] <= #[trigger] family.per_line_spec()[piece_idx as int][l]) by {
            assert(family.per_line_spec()[piece_idx as int] == family.per_line_budget@[piece_idx as int]@);
        }
    }
    if gap > 0 {
        let mut dp: Vec<u32> = Vec::new();
        let mut k: usize = 0;
        while k < n
            invariant
                n == weights@.len(),
                1 <= gap,
                forall|l: int| 0 <= l < n ==> #[trigger] weights@[l] == ws[l],
                forall|l: int| 0 <= l < n ==> #[trigger] weights@[l] <= 4096,
                n <= 27,
                k <= n,
                dp@.len() == k,
                forall|l: int| 0 <= l < k ==> #[trigger] dp@[l] == gap_dp(ws, gap as int, l),
                forall|l: int| 0 <= l < k ==> #[trigger] dp@[l] <= 4096 * (l + 1),
            decreases n - k,
        {
            let take = weights[k] + if k >= gap {
                dp[k - gap]
            } else {
                0
            };
            let skip = if k > 0 {
                dp[k - 1]
            } else {
                0
            };
            let best = if take > skip {
                take
            } else {
                skip
            };
            dp.push(best);
            k = k + 1;
        }
        if family.remaining_budget[piece_idx] < dp[n - 1] {
            return false;
        }
    }
    true
}

/// The family was built for family `kind` of an `h` by `w` board with
/// modulus `m` and pieces `sp` in solver order.
pub open spec fn family_built(f: LineFamily, kind: int, h: int, w: int, m: int, sp: Seq<Piece>) -> bool {
    let n = sp.len() as int;
    let lines = line_count(kind, h, w);
    &&& f.sized(n)
    &&& f.num_lines_spec() == lines
    &&& forall|l: int, i: int| 0 <= l < lines && 0 <= i < 256 ==> #[trigger] f.masks_spec()[l].bit(i) == on_line(kind, h, w, l, i)
    &&& f.remaining_spec()[n] == 0
    &&& forall|i: int| 0 <= i < n ==> thickness_is(kind, #[trigger] sp[i], f.remaining_spec()[i] - f.remaining_spec()[i + 1])
    &&& f.span_spec()[n] == 0
    &&& forall|i: int|
        0 <= i < n ==> #[trigger] f.span_spec()[i] == if span_of(kind, sp[i]) > f.span_spec()[i + 1] {
            span_of(kind, sp[i])
        } else {
            f.span_spec()[i + 1] as int
        }
    &&& f.has_per_line_spec() == (kind <= 1 && m >= 3)
    &&& f.has_per_line_spec() ==> forall|l: int| 0 <= l < lines ==> #[trigger] f.per_line_spec()[n][l] == 0
    &&& f.has_per_line_spec() ==> forall|i: int, l: int|
        0 <= i < n && 0 <= l < lines ==> #[trigger] f.per_line_spec()[i][l] == f.per_line_spec()[i + 1][l] + line_budget(
            kind,
            sp[i],
            lines,
            l,
        )
}

/// The line of family `kind` through cell (r, c) of a board `w` wide, if any.
fn line_of(kind: usize, r: usize, c: usize, w: usize) -> (l: Option<usize>)
    requires
        kind < FAMILY_COUNT,
        r < 14,
        c < w <= 14,
    ensures
        l matches Some(x) ==> x == line_through(kind as int, r as int, c as int, w as int),
        l is None ==> line_through(kind as int, r as int, c as int, w as int) < 0,
{
    if kind == 0 {
        Some(r)
    } else if kind == 1 {
        Some(c)
    } else if kind == 2 {
        Some(r + w - 1 - c)
    } else if kind == 3 {
        Some(r + c)
    } else if kind == 4 {
        if r % 2 == c % 2 {
            Some(c / 2)
        } else {
            None
        }
    } else {
        if r % 2 != c % 2 {
            Some(c / 2)
        } else {
            None
        }
    }
}

/// The masks of the lines of family `kind` on an `h` by `w` board.
fn family_masks(kind: usize, h: usize, w: usize) -> (masks: Vec<Bitboard>)
    requires
        kind < FAMILY_COUNT,
        1 <= h <= 14,
        1 <= w <= 14,
    ensures
        masks@.len() == line_count(kind as int, h as int, w as int),
        forall|l: int, i: int|
            0 <= l < masks@.len() && 0 <= i < 256 ==> #[trigger] masks@[l].bit(i) == on_line(
                kind as int,
                h as int,
                w as int,
                l,
                i,
            ),
{
    let lines = if kind == 0 {
        h
    } else if kind == 1 {
        w
    } else if kind <= 3 {
        h + w - 1
    } else {
        (w + 1) / 2
    };
    let mut masks: Vec<Bitboard> = Vec::new();
    while masks.len() < lines
        invariant
            masks@.len() <= lines,
            forall|l: int, i: int| 0 <= l < masks@.len() && 0 <= i < 256 ==> !#[trigger] masks@[l].bit(i),
        decreases lines - masks@.len(),
    {
        masks.push(Bitboard::zero());
    }
    let mut r: usize = 0;
    while r < h
        invariant
            kind < FAMILY_COUNT,
            1 <= h <= 14,
            1 <= w <= 14,
            lines == line_count(kind as int, h as int, w as int),
            masks@.len() == lines,
            r <= h,
            forall|l: int, i: int|
                0 <= l < lines && 0 <= i < 256 ==> #[trigger] masks@[l].bit(i) == (on_line(
                    kind as int,
                    h as int,
                    w as int,
                    l,
                    i,
                ) && i / 15 < r),
        decreases h - r,
    {
        let mut c: usize = 0;
        while c < w
            invariant
                kind < FAMILY_COUNT,
                1 <= h <= 14,
                1 <= w <= 14,
                lines == line_count(kind as int, h as int, w as int),
                masks@.len() == lines,
                r < h,
                c <= w,
                forall|l: int, i: int|
                    0 <= l < lines && 0 <= i < 256 ==> #[trigger] masks@[l].bit(i) == (on_line(
                        kind as int,
                        h as int,
                        w as int,
                        l,
                        i,
                    ) && (i / 15 < r || (i / 15 == r && i % 15 < c))),
            decreases w - c,
        {
            let cell = r * 15 + c;
            proof {
                bits::lemma_stride_index(r as int, c as int);
            }
            match line_of(kind, r, c, w) {
                Some(l) => {
                    proof {
                        assert(on_line(kind as int, h as int, w as int, l as int, cell as int));
                        assert(0 <= l < lines);
                    }
                    let ghost before = masks@;
                    let mut mask = masks[l];
                    mask.set_bit(cell as u32);
                    masks.set(l, mask);
                    proof {
                        assert forall|x: int, i: int| 0 <= x < lines && 0 <= i < 256 implies #[trigger] masks@[x].bit(i) == (
                        on_line(kind as int, h as int, w as int, x, i) && (i / 15 < r || (i / 15 == r && i % 15 < c + 1))) by {
                            bits::lemma_stride_split(i);
                            if i == cell {
                                if x != l {
                                    assert(before[x].bit(i) == (on_line(kind as int, h as int, w as int, x, i) && (i / 15 < r
                                        || (i / 15 == r && i % 15 < c))));
                                    assert(!on_line(kind as int, h as int, w as int, x, i));
                                }
                            } else {
                                assert(before[x].bit(i) == (on_line(kind as int, h as int, w as int, x, i) && (i / 15 < r
                                    || (i / 15 == r && i % 15 < c))));
                            }
                        }
                    }
                },
                None => {
                    proof {
                        assert forall|x: int, i: int| 0 <= x < lines && 0 <= i < 256 implies #[trigger] masks@[x].bit(i) == (
                        on_line(kind as int, h as int, w as int, x, i) && (i / 15 < r || (i / 15 == r && i % 15 < c + 1))) by {
                            bits::lemma_stride_split(i);
                            if i == cell {
                                assert(!on_line(kind as int, h as int, w as int, x, i));
                            }
                        }
                    }
                },
            }
            c = c + 1;
        }
        proof {
            assert forall|x: int, i: int| 0 <= x < lines && 0 <= i < 256 implies #[trigger] masks@[x].bit(i) == (on_line(
                kind as int,
                h as int,
                w as int,
                x,
                i,
            ) && i / 15 < r + 1) by {
                bits::lemma_stride_split(i);
            }
        }
        r = r + 1;
    }
    proof {
        assert forall|x: int, i: int| 0 <= x < lines && 0 <= i < 256 implies #[trigger] masks@[x].bit(i) == on_line(
            kind as int,
            h as int,
            w as int,
            x,
            i,
        ) by {
            bits::lemma_stride_split(i);
        }
    }
    masks
}

/// The most cells of `piece` on one line of family `kind`.
fn thickness(kind: usize, piece: &Piece) -> (t: u32)
    requires
        kind < FAMILY_COUNT,
        piece.wf(),
    ensures
        thickness_is(kind as int, *piece, t as int),
        t <= 25,
{
    if kind == 0 {
        piece.max_row_thickness()
    } else if kind == 1 {
        piece.max_col_thickness()
    } else if kind == 2 {
        piece.max_diag_thickness()
    } else if kind == 3 {
        piece.max_antidiag_thickness()
    } else if kind == 4 {
        piece.max_zigzag_r_thickness()
    } else {
        piece.max_zigzag_l_thickness()
    }
}

/// How many consecutive lines of family `kind` `piece` can reach.
fn span(kind: usize, piece: &Piece) -> (s: u8)
    requires
        kind < FAMILY_COUNT,
        piece.wf(),
    ensures
        s == span_of(kind as int, *piece),
        s <= 9,
{
    proof {
        piece.lemma_wf();
    }
    if kind == 0 {
        piece.height()
    } else if kind == 1 {
        piece.width()
    } else if kind <= 3 {
        piece.diag_span()
    } else {
        piece.zigzag_span()
    }
}

/// The most cells of `piece` that can land on board line `l` of a family
/// of `lines` rows (kind 0) or columns (kind 1).
fn line_budget_of(kind: usize, piece: &Piece, lines: usize, l: usize) -> (b: u32)
    requires
        kind <= 1,
        piece.wf(),
        l < lines <= 14,
    ensures
        b == line_budget(kind as int, *piece, lines as int, l as int),
        b <= 5,
{
    proof {
        piece.lemma_wf();
    }
    let extent = if kind == 0 {
        piece.height() as usize
    } else {
        piece.width() as usize
    };
    let lo = if l + extent > lines {
        l + extent - lines
    } else {
        0
    };
    let hi = if l < extent - 1 {
        l
    } else {
        extent - 1
    };
    let ghost f = |k: int| line_thickness(kind as int, *piece, k);
    let mut max: u32 = 0;
    let mut k = lo;
    while k <= hi
        invariant
            kind <= 1,
            piece.wf(),
            extent == if kind == 0 {
                piece.rows()
            } else {
                piece.cols()
            },
            1 <= extent <= 5,
            hi < extent,
            lo <= k,
            k <= hi + 1 || k == lo,
            f == (|k: int| line_thickness(kind as int, *piece, k)),
            max == max_over(f, lo as int, k - 1),
            max <= 5,
        decreases hi + 1 - k,
    {
        let t = if kind == 0 {
            piece.row_filled(k)
        } else {
            piece.col_filled(k)
        };
        assert(f(k as int) == t);
        if t > max {
            max = t;
        }
        k = k + 1;
    }
    max
}

/// The family `kind` of an `h` by `w` board with modulus `m`, for the
/// pieces in the order `order`.
fn build_family(kind: usize, pieces: &[Piece], order: &[usize], h: usize, w: usize, m: u8) -> (f: LineFamily)
    requires
        kind < FAMILY_COUNT,
        1 <= h <= 14,
        1 <= w <= 14,
        pieces@.len() < MAX_PIECES,
        order@.len() >= pieces@.len(),
        forall|i: int| 0 <= i < pieces@.len() ==> #[trigger] order@[i] < pieces@.len(),
        forall|i: int| 0 <= i < pieces@.len() ==> #[trigger] pieces@[i].wf(),
    ensures
        family_built(
            f,
            kind as int,
            h as int,
            w as int,
            m as int,
            Seq::new(pieces@.len(), |i: int| pieces@[order@[i] as int]),
        ),
{
    let ghost sp = Seq::new(pieces@.len(), |i: int| pieces@[order@[i] as int]);
    let n = pieces.len();
    let masks = family_masks(kind, h, w);
    let lines = masks.len();
    let has_per_line_budget = kind <= 1 && m >= 3;
    let mut remaining_budget: Vec<u32> = Vec::new();
    let mut suffix_max_span: Vec<u8> = Vec::new();
    let mut per_line_budget: Vec<Vec<u32>> = Vec::new();
    let mut i: usize = 0;
    while i <= n
        invariant
            n < MAX_PIECES,
            lines <= 27,
            i <= n + 1,
            remaining_budget@.len() == i,
            suffix_max_span@.len() == i,
            per_line_budget@.len() == i,
            forall|x: int| 0 <= x < i ==> #[trigger] remaining_budget@[x] == 0,
            forall|x: int| 0 <= x < i ==> #[trigger] suffix_max_span@[x] == 0,
            forall|x: int| 0 <= x < i ==> (#[trigger] per_line_budget@[x])@.len() == lines,
            forall|x: int, l: int| 0 <= x < i && 0 <= l < lines ==> #[trigger] per_line_budget@[x]@[l] == 0,
        decreases n + 1 - i,
    {
        remaining_budget.push(0);
        suffix_max_span.push(0);
        let mut zeros: Vec<u32> = Vec::new();
        while zeros.len() < lines
            invariant
                zeros@.len() <= lines,
                forall|l: int| 0 <= l < zeros@.len() ==> #[trigger] zeros@[l] == 0,
            decreases lines - zeros@.len(),
        {
            zeros.push(0);
        }
        per_line_budget.push(zeros);
        i = i + 1;
    }
    let mut i = n;
    while i > 0
        invariant
            kind < FAMILY_COUNT,
            1 <= h <= 14,
            1 <= w <= 14,
            n == pieces@.len(),
            n < MAX_PIECES,
            sp == Seq::new(pieces@.len(), |i: int| pieces@[order@[i] as int]),
            order@.len() >= pieces@.len(),
            forall|x: int| 0 <= x < pieces@.len() ==> #[trigger] order@[x] < pieces@.len(),
            forall|x: int| 0 <= x < pieces@.len() ==> #[trigger] pieces@[x].wf(),
            lines == line_count(kind as int, h as int, w as int),
            lines <= 27,
            has_per_line_budget == (kind <= 1 && m >= 3),
            i <= n,
            remaining_budget@.len() == n + 1,
            suffix_max_span@.len() == n + 1,
            per_line_budget@.len() == n + 1,
            forall|x: int| 0 <= x <= n ==> (#[trigger] per_line_budget@[x])@.len() == lines,
            remaining_budget@[n as int] == 0,
            suffix_max_span@[n as int] == 0,
            forall|x: int| 0 <= x <= n ==> #[trigger] remaining_budget@[x] <= 25 * (n - x),
            forall|x: int, l: int| 0 <= x <= n && 0 <= l < lines ==> #[trigger] per_line_budget@[x]@[l] <= 5 * (n - x),
            forall|l: int| 0 <= l < lines ==> #[trigger] per_line_budget@[n as int]@[l] == 0,
            forall|x: int|
                i <= x < n ==> thickness_is(kind as int, #[trigger] sp[x], remaining_budget@[x] - remaining_budget@[x + 1]),
            forall|x: int|
                i <= x < n ==> #[trigger] suffix_max_span@[x] == if span_of(kind as int, sp[x]) > suffix_max_span@[x + 1] {
                    span_of(kind as int, sp[x])
                } else {
                    suffix_max_span@[x + 1] as int
                },
            forall|x: int| 0 <= x <= n ==> #[trigger] suffix_max_span@[x] <= 9,
            has_per_line_budget ==> forall|x: int, l: int|
                i <= x < n && 0 <= l < lines ==> #[trigger] per_line_budget@[x]@[l] == per_line_budget@[x + 1]@[l]
                    + line_budget(kind as int, sp[x], lines as int, l),
        decreases i,
    {
        i = i - 1;
        let piece = &pieces[order[i]];
        assert(*piece == sp[i as int]);
        let t = thickness(kind, piece);
        remaining_budget.set(i, remaining_budget[i + 1] + t);
        let s = span(kind, piece);
        let next_span = suffix_max_span[i + 1];
        suffix_max_span.set(i, if s > next_span { s } else { next_span });
        if has_per_line_budget {
            let mut row: Vec<u32> = Vec::new();
            let next = &per_line_budget[i + 1];
            let mut l: usize = 0;
            while l < lines
                invariant
                    kind <= 1,
                    piece.wf(),
                    lines == line_count(kind as int, h as int, w as int),
                    1 <= h <= 14,
                    1 <= w <= 14,
                    next@.len() == lines,
                    forall|x: int| 0 <= x < lines ==> #[trigger] next@[x] <= 5 * (n - (i + 1)),
                    n < MAX_PIECES,
                    i < n,
                    l <= lines,
                    row@.len() == l,
                    forall|x: int|
                        0 <= x < l ==> #[trigger] row@[x] == next@[x] + line_budget(kind as int, *piece, lines as int, x),
                    forall|x: int| 0 <= x < l ==> #[trigger] row@[x] <= 5 * (n - i),
                decreases lines - l,
            {
                let b = line_budget_of(kind, piece, lines, l);
                row.push(next[l] + b);
                l = l + 1;
            }
            per_line_budget.set(i, row);
        }
    }
    let f = LineFamily {
        masks,
        num_lines: lines,
        remaining_budget,
        suffix_max_span,
        has_per_line_budget,
        per_line_budget,
    };
    proof {
        assert(f.per_line_spec() == f.per_line_budget@.map_values(|v: Vec<u32>| v@));
        assert forall|x: int, l: int| 0 <= x <= n && 0 <= l < lines implies #[trigger] f.per_line_spec()[x][l]
            == f.per_line_budget@[x]@[l] by {}
    }
    f
}

/// The six line families: rows, columns, diagonals, anti-diagonals,
/// right- and left-leaning zig-zag bands.
pub struct LineFamilyPrune {
    families: Vec<LineFamily>,
}

impl LineFamilyPrune {
    /// The families, in the order rows, columns, diagonals, anti-diagonals,
    /// right- and left-leaning zig-zags.
    pub closed spec fn families_spec(self) -> Seq<LineFamily> {
        self.families@
    }

    /// Build all six line families for an `h` by `w` board with modulus
    /// `m` and the pieces in the order `order`.
    pub fn precompute(pieces: &[Piece], order: &[usize], h: u8, w: u8, m: u8) -> (r: Self)
        requires
            1 <= h <= 14,
            1 <= w <= 14,
            pieces@.len() < MAX_PIECES,
            order@.len() >= pieces@.len(),
            forall|i: int| 0 <= i < pieces@.len() ==> #[trigger] order@[i] < pieces@.len(),
            forall|i: int| 0 <= i < pieces@.len() ==> #[trigger] pieces@[i].wf(),
        ensures
            r.families_spec().len() == FAMILY_COUNT,
            forall|k: int|
                0 <= k < FAMILY_COUNT ==> family_built(
                    #[trigger] r.families_spec()[k],
                    k,
                    h as int,
                    w as int,
                    m as int,
                    Seq::new(pieces@.len(), |i: int| pieces@[order@[i] as int]),
                ),
    {
        let mut families: Vec<LineFamily> = Vec::new();
        let mut kind: usize = 0;
        while kind < FAMILY_COUNT
            invariant
                1 <= h <= 14,
                1 <= w <= 14,
                pieces@.len() < MAX_PIECES,
                order@.len() >= pieces@.len(),
                forall|i: int| 0 <= i < pieces@.len() ==> #[trigger] order@[i] < pieces@.len(),
                forall|i: int| 0 <= i < pieces@.len() ==> #[trigger] pieces@[i].wf(),
                kind <= FAMILY_COUNT,
                families@.len() == kind,
                forall|k: int|
                    0 <= k < kind ==> family_built(
                        #[trigger] families@[k],
                        k,
                        h as int,
                        w as int,
                        m as int,
                        Seq::new(pieces@.len(), |i: int| pieces@[order@[i] as int]),
                    ),
            decreases FAMILY_COUNT - kind,
        {
            let family = build_family(kind, pieces, order, h as usize, w as usize, m);
            families.push(family);
            kind = kind + 1;
        }
        LineFamilyPrune { families }
    }

    /// Number of lines of family `family`.
    pub fn num_lines(&self, family: usize) -> (r: usize)
        requires
            family < self.families_spec().len(),
        ensures
            r == self.families_spec()[family as int].num_lines_spec(),
    {
        self.families[family].num_lines
    }

    /// Whether family `family` checks per-line budgets.
    pub fn has_per_line_budget(&self, family: usize) -> (r: bool)
        requires
            family < self.families_spec().len(),
        ensures
            r == self.families_spec()[family as int].has_per_line_spec(),
    {
        self.families[family].has_per_line_budget
    }

    /// Check families `from..to`.
    fn check_range(&self, board: &Board, piece_idx: usize, m: u8, from: usize, to: usize) -> (r: bool)
        requires
            board.wf(),
            m == board.modulus(),
            from <= to <= self.families_spec().len(),
            forall|k: int| from <= k < to ==> #[trigger] sized_for(self.families_spec()[k], piece_idx as int),
        ensures
            r == forall|k: int| from <= k < to ==> family_allows(#[trigger] self.families_spec()[k], *board, piece_idx as int),
    {
        let mut k = from;
        while k < to
            invariant
                board.wf(),
                m == board.modulus(),
                from <= k <= to <= self.families_spec().len(),
                forall|x: int| from <= x < to ==> #[trigger] sized_for(self.families_spec()[x], piece_idx as int),
                forall|x: int| from <= x < k ==> family_allows(#[trigger] self.families_spec()[x], *board, piece_idx as int),
            decreases to - k,
        {
            let family = &self.families[k];
            assert(*family == self.families_spec()[k as int]);
            assert(sized_for(self.families_spec()[k as int], piece_idx as int));
            if !check_line_family(board, family, piece_idx, m) {
                return false;
            }
            k = k + 1;
        }
        true
    }

    /// Check the row and column families. Returns false to prune.
    pub fn try_prune_rowcol(&self, board: &Board, piece_idx: usize, m: u8) -> (r: bool)
        requires
            board.wf(),
            m == board.modulus(),
            self.families_spec().len() == FAMILY_COUNT,
            forall|k: int| 0 <= k < FAMILY_COUNT ==> #[trigger] sized_for(self.families_spec()[k], piece_idx as int),
        ensures
            r == forall|k: int| 0 <= k < 2 ==> family_allows(#[trigger] self.families_spec()[k], *board, piece_idx as int),
    {
        self.check_range(board, piece_idx, m, 0, 2)
    }

    /// Check the diagonal and zig-zag families. Returns false to prune.
    pub fn try_prune_diagonal(&self, board: &Board, piece_idx: usize, m: u8) -> (r: bool)
        requires
            board.wf(),
            m == board.modulus(),
            self.families_spec().len() == FAMILY_COUNT,
            forall|k: int| 0 <= k < FAMILY_COUNT ==> #[trigger] sized_for(self.families_spec()[k], piece_idx as int),
        ensures
            r == forall|k: int| 2 <= k < FAMILY_COUNT ==> family_allows(#[trigger] self.families_spec()[k], *board, piece_idx as int),
    {
        self.check_range(board, piece_idx, m, 2, FAMILY_COUNT)
    }
}

} // verus!
