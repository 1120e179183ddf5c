//! Reachability bounds for checkerboard, row, column, and diagonal partitions.
//!
//! The deficit in each partition must be achievable by the remaining pieces.
//! A suffix dynamic program records the reachable totals.

use vstd::prelude::*;
use crate::bits;
use crate::model::bitboard::Bitboard;
use crate::model::board::{Board, in_board};
use crate::model::piece::{Piece, in_box};
use crate::solver::backtrack::{count_where, lemma_count_where_ext, lemma_count_bits, lemma_count_where_bound, lemma_count_where_implies, covered_deficit, hits_at, covered_with};
use crate::solver::pruning::total_deficit::suffix_cells;
use crate::solver::finish::{
    cells_from, chosen_hits, finishes, landed, landed_sum, places, value_below, lemma_covered_deficit_value, lemma_hits_off_board,
    lemma_landed_total, lemma_placed_cells, lemma_region_landed, lemma_region_turns, lemma_value_halves,
};
use crate::game::covers;

verus! {

/// Which cells a partition holds: a class of cells by row, column or
/// diagonal, modulo two or three.
#[derive(Clone, Copy, PartialEq, Eq, Structural, Debug)]
pub enum PartitionKind {
    /// Cells whose row plus column is even.
    Checker,
    /// Cells in even rows.
    EvenRows,
    /// Cells in even columns.
    EvenColumns,
    /// Cells whose row is the residue modulo three.
    RowsModThree(u8),
    /// Cells whose column is the residue modulo three.
    ColumnsModThree(u8),
    /// Cells whose row plus column is the residue modulo three.
    Diagonals(u8),
    /// Cells whose row plus twice the column is the residue modulo three.
    SkewDiagonals(u8),
}

/// Whether board cell (row, column) lies in the partition.
pub open spec fn board_cell_in(kind: PartitionKind, row: int, column: int) -> bool {
    match kind {
        PartitionKind::Checker => (row + column) % 2 == 0,
        PartitionKind::EvenRows => row % 2 == 0,
        PartitionKind::EvenColumns => column % 2 == 0,
        PartitionKind::RowsModThree(r) => row % 3 == r,
        PartitionKind::ColumnsModThree(r) => column % 3 == r,
        PartitionKind::Diagonals(r) => (row + column) % 3 == r,
        PartitionKind::SkewDiagonals(r) => (row + 2 * column) % 3 == r,
    }
}

/// Whether piece cell (row, column) lies in the partition when the piece is
/// placed with the partition's phase shifted by `offset`.
pub open spec fn piece_cell_in(kind: PartitionKind, row: int, column: int, offset: int) -> bool {
    match kind {
        PartitionKind::Checker => (row + column + offset) % 2 == 0,
        PartitionKind::EvenRows => (row + offset) % 2 == 0,
        PartitionKind::EvenColumns => (column + offset) % 2 == 0,
        PartitionKind::RowsModThree(r) => (row + offset) % 3 == r,
        PartitionKind::ColumnsModThree(r) => (column + offset) % 3 == r,
        PartitionKind::Diagonals(r) => (row + column + offset) % 3 == r,
        PartitionKind::SkewDiagonals(r) => (row + 2 * column + offset) % 3 == r,
    }
}

/// Number of phases of a partition: its modulus.
pub open spec fn offset_count_of(kind: PartitionKind) -> int {
    match kind {
        PartitionKind::Checker | PartitionKind::EvenRows | PartitionKind::EvenColumns => 2,
        _ => 3,
    }
}

/// Cells of piece `p` in the partition at phase `offset`.
pub open spec fn piece_part_cells(kind: PartitionKind, p: Piece, offset: int) -> spec_fn(int) -> bool {
    |i: int| p.cells().bit(i) && piece_cell_in(kind, i / 15, i % 15, offset)
}

/// How many cells of piece `p` the partition takes at phase `offset`.
pub open spec fn part_count(kind: PartitionKind, p: Piece, offset: int) -> int {
    count_where(piece_part_cells(kind, p, offset), 256) as int
}

/// The most cells of `p` the partition can take, over its phases.
pub open spec fn max_part(kind: PartitionKind, p: Piece) -> int {
    let a = part_count(kind, p, 0);
    let b = part_count(kind, p, 1);
    let ab = if a >= b {
        a
    } else {
        b
    };
    if offset_count_of(kind) == 3 && part_count(kind, p, 2) > ab {
        part_count(kind, p, 2)
    } else {
        ab
    }
}

/// The fewest cells of `p` the partition can take, over its phases.
pub open spec fn min_part(kind: PartitionKind, p: Piece) -> int {
    let a = part_count(kind, p, 0);
    let b = part_count(kind, p, 1);
    let ab = if a <= b {
        a
    } else {
        b
    };
    if offset_count_of(kind) == 3 && part_count(kind, p, 2) < ab {
        part_count(kind, p, 2)
    } else {
        ab
    }
}

/// Sum of the largest partition shares of the pieces from `d` on.
pub open spec fn suffix_max_of(kind: PartitionKind, sp: Seq<Piece>, d: int) -> int
    decreases sp.len() - d,
{
    if d < 0 || d >= sp.len() {
        0
    } else {
        suffix_max_of(kind, sp, d + 1) + max_part(kind, sp[d])
    }
}

/// Sum of the smallest partition shares of the pieces from `d` on.
pub open spec fn suffix_min_of(kind: PartitionKind, sp: Seq<Piece>, d: int) -> int
    decreases sp.len() - d,
{
    if d < 0 || d >= sp.len() {
        0
    } else {
        suffix_min_of(kind, sp, d + 1) + min_part(kind, sp[d])
    }
}

/// The pieces from `d` on can put exactly `t` cells into the partition
/// (totals at or beyond `limit` are not tracked).
pub open spec fn reachable(kind: PartitionKind, sp: Seq<Piece>, d: int, t: int, limit: int) -> bool
    decreases sp.len() - d,
{
    if d < 0 || d >= sp.len() {
        t == 0 && 0 <= t < limit
    } else {
        &&& 0 <= t < limit
        &&& {
            ||| t >= part_count(kind, sp[d], 0) && reachable(kind, sp, d + 1, t - part_count(kind, sp[d], 0), limit)
            ||| t >= part_count(kind, sp[d], 1) && reachable(kind, sp, d + 1, t - part_count(kind, sp[d], 1), limit)
            ||| offset_count_of(kind) == 3 && t >= part_count(kind, sp[d], 2) && reachable(
                kind,
                sp,
                d + 1,
                t - part_count(kind, sp[d], 2),
                limit,
            )
        }
    }
}

fn contains_board_cell(kind: PartitionKind, row: usize, column: usize) -> (r: bool)
    requires
        row < 20,
        column < 20,
    ensures
        r == board_cell_in(kind, row as int, column as int),
{
    match kind {
        PartitionKind::Checker => (row + column) % 2 == 0,
        PartitionKind::EvenRows => row % 2 == 0,
        PartitionKind::EvenColumns => column % 2 == 0,
        PartitionKind::RowsModThree(r) => row % 3 == r as usize,
        PartitionKind::ColumnsModThree(r) => column % 3 == r as usize,
        PartitionKind::Diagonals(r) => (row + column) % 3 == r as usize,
        PartitionKind::SkewDiagonals(r) => (row + 2 * column) % 3 == r as usize,
    }
}

fn contains_piece_cell(kind: PartitionKind, row: usize, column: usize, offset: usize) -> (r: bool)
    requires
        row < 20,
        column < 20,
        offset < 3,
    ensures
        r == piece_cell_in(kind, row as int, column as int, offset as int),
{
    match kind {
        PartitionKind::Checker => (row + column + offset) % 2 == 0,
        PartitionKind::EvenRows => (row + offset) % 2 == 0,
        PartitionKind::EvenColumns => (column + offset) % 2 == 0,
        PartitionKind::RowsModThree(r) => (row + offset) % 3 == r as usize,
        PartitionKind::ColumnsModThree(r) => (column + offset) % 3 == r as usize,
        PartitionKind::Diagonals(r) => (row + column + offset) % 3 == r as usize,
        PartitionKind::SkewDiagonals(r) => (row + 2 * column + offset) % 3 == r as usize,
    }
}

fn offset_count(kind: PartitionKind) -> (r: usize)
    ensures
        r == offset_count_of(kind),
{
    match kind {
        PartitionKind::Checker | PartitionKind::EvenRows | PartitionKind::EvenColumns => 2,
        _ => 3,
    }
}

/// Cells of `piece` the partition takes at phase `offset`.
fn piece_part_count(kind: PartitionKind, piece: &Piece, offset: usize) -> (r: u32)
    requires
        offset < 3,
    ensures
        r == part_count(kind, *piece, offset as int),
        r <= 256,
{
    let shape = piece.shape();
    let mut count: u32 = 0;
    let mut i: usize = 0;
    while i < 256
        invariant
            0 <= i <= 256,
            offset < 3,
            shape == piece.cells(),
            count == count_where(piece_part_cells(kind, *piece, offset as int), i as int),
            count <= i,
        decreases 256 - i,
    {
        if shape.get_bit(i as u32) && contains_piece_cell(kind, i / 15, i % 15, offset) {
            count = count + 1;
        }
        i = i + 1;
    }
    count
}

/// One partition: its board cells and, per search depth, the extreme and
/// the reachable cell totals the remaining pieces can put into it.
pub struct Partition {
    kind: Ghost<PartitionKind>,
    mask: Bitboard,
    suffix_max: Vec<u32>,
    suffix_min: Vec<u32>,
    suffix_reachable: Vec<Vec<bool>>,
}

/// A partition's tables describe `kind` for pieces `sp` on an `h` by `w` board.
pub closed spec fn partition_wf(p: Partition, sp: Seq<Piece>, h: int, w: int) -> bool {
    let kind = p.kind@;
    let n = sp.len() as int;
    let limit = suffix_max_of(kind, sp, 0) + 1;
    &&& sp.len() <= 4096
    &&& forall|i: int| 0 <= i < 256 ==> #[trigger] p.mask.bit(i) == (in_board(h, w, i) && board_cell_in(kind, i / 15, i % 15))
    &&& p.suffix_max@.len() == n + 1
    &&& p.suffix_min@.len() == n + 1
    &&& p.suffix_reachable@.len() == n + 1
    &&& forall|d: int| 0 <= d <= n ==> #[trigger] p.suffix_max@[d] == suffix_max_of(kind, sp, d)
    &&& forall|d: int| 0 <= d <= n ==> #[trigger] p.suffix_min@[d] == suffix_min_of(kind, sp, d)
    &&& forall|d: int| 0 <= d <= n ==> (#[trigger] p.suffix_reachable@[d])@.len() == limit
    &&& forall|d: int, t: int|
        0 <= d <= n && 0 <= t < limit ==> #[trigger] p.suffix_reachable@[d]@[t] == reachable(kind, sp, d, t, limit)
}

/// The row built from the next row holds the reachable totals at depth `d`.
proof fn lemma_row_step(
    kind: PartitionKind,
    sp: Seq<Piece>,
    d: int,
    limit: int,
    counts: Seq<u32>,
    next_row: Seq<bool>,
    current: Seq<bool>,
)
    requires
        0 <= d < sp.len(),
        counts.len() == offset_count_of(kind),
        forall|o: int| 0 <= o < counts.len() ==> #[trigger] counts[o] == part_count(kind, sp[d], o),
        next_row.len() == limit,
        current.len() == limit,
        forall|x: int| 0 <= x < limit ==> #[trigger] next_row[x] == reachable(kind, sp, d + 1, x, limit),
        forall|y: int|
            0 <= y < limit ==> #[trigger] current[y] == exists|o: int|
                0 <= o < counts.len() && y >= counts[o] && y - counts[o] < limit && #[trigger] next_row[y - counts[o]],
    ensures
        forall|y: int| 0 <= y < limit ==> #[trigger] current[y] == reachable(kind, sp, d, y, limit),
{
    assert forall|y: int| 0 <= y < limit implies #[trigger] current[y] == reachable(kind, sp, d, y, limit) by {
        if current[y] {
            let o = choose|o: int|
                0 <= o < counts.len() && y >= counts[o] && y - counts[o] < limit && #[trigger] next_row[y - counts[o]];
            assert(reachable(kind, sp, d + 1, y - part_count(kind, sp[d], o), limit));
        }
        if reachable(kind, sp, d, y, limit) {
            let c0 = part_count(kind, sp[d], 0);
            let c1 = part_count(kind, sp[d], 1);
            let c2 = part_count(kind, sp[d], 2);
            assert(counts[0] == c0 && counts[1] == c1);
            if y >= c0 && reachable(kind, sp, d + 1, y - c0, limit) {
                assert(next_row[y - counts[0]]);
            } else if y >= c1 && reachable(kind, sp, d + 1, y - c1, limit) {
                assert(next_row[y - counts[1]]);
            } else {
                assert(counts[2] == c2);
                assert(next_row[y - counts[2]]);
            }
        }
    }
}

/// Build the tables of one partition for pieces `pieces[piece_order[..]]`.
fn build_partition(
    kind: PartitionKind,
    pieces: &[Piece],
    piece_order: &[usize],
    height: u8,
    width: u8,
    Ghost(sp): Ghost<Seq<Piece>>,
) -> (r: Partition)
    requires
        sp.len() == pieces@.len(),
        piece_order@.len() >= pieces@.len(),
        forall|d: int| 0 <= d < sp.len() ==> #[trigger] piece_order@[d] < pieces@.len(),
        forall|d: int| 0 <= d < sp.len() ==> #[trigger] sp[d] == pieces@[piece_order@[d] as int],
        pieces@.len() <= 4096,
        width <= 15,
        15 * height + width <= 271,
    ensures
        partition_wf(r, sp, height as int, width as int),
        r.kind@ == kind,
{
    let board_height = height as usize;
    let board_width = width as usize;
    let piece_count = pieces.len();
    let mut mask = Bitboard::zero();
    let mut row: usize = 0;
    while row < board_height
        invariant
            board_height == height,
            board_width == width,
            width <= 15,
            15 * height + width <= 271,
            0 <= row <= board_height,
            forall|i: int|
                0 <= i < 256 ==> #[trigger] mask.bit(i) == (in_board(height as int, width as int, i) && i / 15 < row
                    && board_cell_in(kind, i / 15, i % 15)),
        decreases board_height - row,
    {
        let mut column: usize = 0;
        while column < board_width
            invariant
                board_height == height,
                board_width == width,
                width <= 15,
                15 * height + width <= 271,
                0 <= row < board_height,
                0 <= column <= board_width,
                forall|i: int|
                    0 <= i < 256 ==> #[trigger] mask.bit(i) == (in_board(height as int, width as int, i) && (i / 15
                        < row || (i / 15 == row && i % 15 < column)) && board_cell_in(kind, i / 15, i % 15)),
            decreases board_width - column,
        {
            let ghost idx: int = 15 * row + column;
            proof {
                bits::lemma_stride_index(row as int, column as int);
            }
            if contains_board_cell(kind, row, column) {
                let ghost before = mask;
                mask.set_bit((row * 15 + column) as u32);
                proof {
                    assert forall|i: int| 0 <= i < 256 implies #[trigger] mask.bit(i) == (in_board(height as int, width as int, i)
                        && (i / 15 < row || (i / 15 == row && i % 15 < column + 1)) && board_cell_in(kind, i / 15, i % 15)) by {
                        bits::lemma_stride_split(i);
                        if i == idx {
                            assert(i / 15 == row && i % 15 == column);
                        } else if i / 15 == row && i % 15 == column {
                            assert(i == idx);
                        }
                    }
                }
            } else {
                proof {
                    assert forall|i: int| 0 <= i < 256 implies #[trigger] mask.bit(i) == (in_board(height as int, width as int, i)
                        && (i / 15 < row || (i / 15 == row && i % 15 < column + 1)) && board_cell_in(kind, i / 15, i % 15)) by {
                        bits::lemma_stride_split(i);
                        if i / 15 == row && i % 15 == column {
                            assert(i == idx);
                        }
                    }
                }
            }
            column = column + 1;
        }
        row = row + 1;
    }
    let offsets = offset_count(kind);
    let mut maxima: Vec<u32> = Vec::new();
    let mut minima: Vec<u32> = Vec::new();
    let mut partition_cell_counts: Vec<Vec<u32>> = Vec::new();
    let mut d: usize = 0;
    while d < piece_count
        invariant
            piece_count == pieces@.len(),
            sp.len() == piece_count,
            piece_order@.len() >= piece_count,
            forall|e: int| 0 <= e < sp.len() ==> #[trigger] piece_order@[e] < pieces@.len(),
            forall|e: int| 0 <= e < sp.len() ==> #[trigger] sp[e] == pieces@[piece_order@[e] as int],
            offsets == offset_count_of(kind),
            0 <= d <= piece_count,
            partition_cell_counts@.len() == d,
            maxima@.len() == d,
            minima@.len() == d,
            forall|e: int| 0 <= e < d ==> (#[trigger] partition_cell_counts@[e])@.len() == offsets,
            forall|e: int, o: int|
                0 <= e < d && 0 <= o < offsets ==> #[trigger] partition_cell_counts@[e]@[o] == part_count(kind, sp[e], o),
            forall|e: int| 0 <= e < d ==> #[trigger] maxima@[e] == max_part(kind, sp[e]),
            forall|e: int| 0 <= e < d ==> #[trigger] minima@[e] == min_part(kind, sp[e]),
            forall|e: int| 0 <= e < d ==> #[trigger] maxima@[e] <= 256,
            forall|e: int, o: int| 0 <= e < d && 0 <= o < offsets ==> #[trigger] partition_cell_counts@[e]@[o] <= 256,
        decreases piece_count - d,
    {
        let piece = &pieces[piece_order[d]];
        let mut counts: Vec<u32> = Vec::new();
        let mut offset: usize = 0;
        while offset < offsets
            invariant
                offsets == offset_count_of(kind),
                2 <= offsets <= 3,
                0 <= offset <= offsets,
                counts@.len() == offset,
                forall|o: int| 0 <= o < offset ==> #[trigger] counts@[o] == part_count(kind, *piece, o),
                forall|o: int| 0 <= o < offset ==> #[trigger] counts@[o] <= 256,
            decreases offsets - offset,
        {
            let c = piece_part_count(kind, piece, offset);
            counts.push(c);
            offset = offset + 1;
        }
        let mut largest = counts[0];
        let mut smallest = counts[0];
        if counts[1] > largest {
            largest = counts[1];
        }
        if counts[1] < smallest {
            smallest = counts[1];
        }
        if offsets == 3 {
            if counts[2] > largest {
                largest = counts[2];
            }
            if counts[2] < smallest {
                smallest = counts[2];
            }
        }
        proof {
            assert(*piece == sp[d as int]);
        }
        maxima.push(largest);
        minima.push(smallest);
        partition_cell_counts.push(counts);
        d = d + 1;
    }
    let mut suffix_max: Vec<u32> = Vec::new();
    let mut suffix_min: Vec<u32> = Vec::new();
    let mut k: usize = 0;
    while k <= piece_count
        invariant
            0 <= k <= piece_count + 1,
            piece_count <= 4096,
            suffix_max@.len() == k,
            suffix_min@.len() == k,
            forall|j: int| 0 <= j < k ==> #[trigger] suffix_max@[j] == 0,
            forall|j: int| 0 <= j < k ==> #[trigger] suffix_min@[j] == 0,
        decreases piece_count + 1 - k,
    {
        suffix_max.push(0);
        suffix_min.push(0);
        k = k + 1;
    }
    let mut piece_index = piece_count;
    while piece_index > 0
        invariant
            piece_count == sp.len(),
            piece_count <= 4096,
            0 <= piece_index <= piece_count,
            maxima@.len() == piece_count,
            minima@.len() == piece_count,
            forall|e: int| 0 <= e < piece_count ==> #[trigger] maxima@[e] == max_part(kind, sp[e]),
            forall|e: int| 0 <= e < piece_count ==> #[trigger] minima@[e] == min_part(kind, sp[e]),
            forall|e: int| 0 <= e < piece_count ==> #[trigger] maxima@[e] <= 256,
            suffix_max@.len() == piece_count + 1,
            suffix_min@.len() == piece_count + 1,
            forall|e: int| piece_index <= e <= piece_count ==> #[trigger] suffix_max@[e] == suffix_max_of(kind, sp, e),
            forall|e: int| piece_index <= e <= piece_count ==> #[trigger] suffix_min@[e] == suffix_min_of(kind, sp, e),
            forall|e: int| piece_index <= e <= piece_count ==> suffix_max@[e] <= 256 * (piece_count - e),
            forall|e: int| piece_index <= e <= piece_count ==> suffix_min@[e] <= suffix_max@[e],
        decreases piece_index,
    {
        let next = piece_index;
        piece_index = piece_index - 1;
        proof {
            assert(256 * (piece_count - next) + 256 == 256 * (piece_count - piece_index)) by (nonlinear_arith)
                requires
                    next == piece_index + 1,
            ;
            assert(256 * (piece_count - piece_index) <= 256 * 4096) by (nonlinear_arith)
                requires
                    piece_count <= 4096,
                    piece_index <= piece_count,
            ;
            assert(minima@[piece_index as int] <= maxima@[piece_index as int]);
        }
        let above_max = suffix_max[next];
        let above_min = suffix_min[next];
        suffix_max.set(piece_index, above_max + maxima[piece_index]);
        suffix_min.set(piece_index, above_min + minima[piece_index]);
    }
    proof {
        assert(suffix_max@[0] <= 256 * (piece_count - 0));
        assert(256 * piece_count <= 256 * 4096) by (nonlinear_arith)
            requires
                piece_count <= 4096,
        ;
    }
    let reachable_count = suffix_max[0] as usize + 1;
    let ghost limit = reachable_count as int;
    let mut rows_rev: Vec<Vec<bool>> = Vec::new();
    let mut last: Vec<bool> = Vec::new();
    let mut t: usize = 0;
    while t < reachable_count
        invariant
            0 <= t <= reachable_count,
            last@.len() == t,
            forall|x: int| 0 <= x < t ==> #[trigger] last@[x] == (x == 0),
        decreases reachable_count - t,
    {
        last.push(t == 0);
        t = t + 1;
    }
    proof {
        assert forall|x: int| 0 <= x < limit implies #[trigger] last@[x] == reachable(kind, sp, piece_count as int, x, limit) by {}
    }
    rows_rev.push(last);
    let mut piece_index = piece_count;
    while piece_index > 0
        invariant
            piece_count == sp.len(),
            0 <= piece_index <= piece_count,
            reachable_count == limit,
            1 <= limit <= 256 * 4096 + 1,
            partition_cell_counts@.len() == piece_count,
            offsets == offset_count_of(kind),
            2 <= offsets <= 3,
            forall|e: int| 0 <= e < piece_count ==> (#[trigger] partition_cell_counts@[e])@.len() == offsets,
            forall|e: int, o: int|
                0 <= e < piece_count && 0 <= o < offsets ==> #[trigger] partition_cell_counts@[e]@[o] == part_count(kind, sp[e], o),
            forall|e: int, o: int|
                0 <= e < piece_count && 0 <= o < offsets ==> #[trigger] partition_cell_counts@[e]@[o] <= 256,
            rows_rev@.len() == piece_count - piece_index + 1,
            forall|j: int| 0 <= j < rows_rev@.len() ==> (#[trigger] rows_rev@[j])@.len() == limit,
            forall|j: int, x: int|
                0 <= j < rows_rev@.len() && 0 <= x < limit ==> #[trigger] rows_rev@[j]@[x] == reachable(
                    kind,
                    sp,
                    piece_count - j,
                    x,
                    limit,
                ),
        decreases piece_index,
    {
        piece_index = piece_index - 1;
        let next_row = &rows_rev[rows_rev.len() - 1];
        let counts = &partition_cell_counts[piece_index];
        let ghost d = piece_index as int;
        let mut current: Vec<bool> = Vec::new();
        let mut x: usize = 0;
        while x < reachable_count
            invariant
                0 <= x <= reachable_count,
                current@.len() == x,
                forall|y: int| 0 <= y < x ==> #[trigger] current@[y] == false,
            decreases reachable_count - x,
        {
            current.push(false);
            x = x + 1;
        }
        let mut reachable_total: usize = 0;
        while reachable_total < reachable_count
            invariant
                0 <= reachable_total <= reachable_count,
                reachable_count == limit,
                limit <= 256 * 4096 + 1,
                current@.len() == limit,
                next_row@.len() == limit,
                counts@.len() == offsets,
                2 <= offsets <= 3,
                forall|o: int| 0 <= o < offsets ==> #[trigger] counts@[o] <= 256,
                forall|y: int|
                    0 <= y < limit ==> #[trigger] current@[y] == exists|o: int|
                        0 <= o < offsets && y >= counts@[o] && y - counts@[o] < reachable_total && #[trigger] next_row@[y
                            - counts@[o]],
                reachable_total == limit ==> forall|y: int|
                    0 <= y < limit ==> #[trigger] current@[y] == exists|o: int|
                        0 <= o < offsets && y >= counts@[o] && y - counts@[o] < limit && #[trigger] next_row@[y
                            - counts@[o]],
            decreases reachable_count - reachable_total,
        {
            if next_row[reachable_total] {
                let ghost before = current@;
                let mut o: usize = 0;
                while o < counts.len()
                    invariant
                        0 <= o <= offsets,
                        counts@.len() == offsets,
                        reachable_total < reachable_count,
                        reachable_count == limit,
                        limit <= 256 * 4096 + 1,
                        current@.len() == limit,
                        next_row@.len() == limit,
                        next_row@[reachable_total as int],
                        forall|q: int| 0 <= q < offsets ==> #[trigger] counts@[q] <= 256,
                        forall|y: int|
                            0 <= y < limit ==> #[trigger] current@[y] == (before[y] || exists|q: int|
                                0 <= q < o && y == reachable_total + counts@[q]),
                    decreases offsets - o,
                {
                    let new_total = reachable_total + counts[o] as usize;
                    if new_total < reachable_count {
                        current.set(new_total, true);
                    }
                    o = o + 1;
                }
                proof {
                    assert forall|y: int| 0 <= y < limit implies #[trigger] current@[y] == exists|q: int|
                        0 <= q < offsets && y >= counts@[q] && y - counts@[q] < reachable_total + 1
                            && #[trigger] next_row@[y - counts@[q]] by {
                        if current@[y] && !before[y] {
                            let q = choose|q: int| 0 <= q < offsets && y == reachable_total + counts@[q];
                            assert(next_row@[y - counts@[q]]);
                        }
                        if !before[y] {
                            if exists|q: int|
                                0 <= q < offsets && y >= counts@[q] && y - counts@[q] < reachable_total + 1
                                    && #[trigger] next_row@[y - counts@[q]] {
                                let q = choose|q: int|
                                    0 <= q < offsets && y >= counts@[q] && y - counts@[q] < reachable_total + 1
                                        && #[trigger] next_row@[y - counts@[q]];
                                assert(y == reachable_total + counts@[q]);
                            }
                        }
                    }
                }
            } else {
                proof {
                    assert forall|y: int| 0 <= y < limit implies #[trigger] current@[y] == exists|o: int|
                        0 <= o < offsets && y >= counts@[o] && y - counts@[o] < reachable_total + 1
                            && #[trigger] next_row@[y - counts@[o]] by {
                        if exists|o: int|
                            0 <= o < offsets && y >= counts@[o] && y - counts@[o] < reachable_total + 1
                                && #[trigger] next_row@[y - counts@[o]] {
                            let o = choose|o: int|
                                0 <= o < offsets && y >= counts@[o] && y - counts@[o] < reachable_total + 1
                                    && #[trigger] next_row@[y - counts@[o]];
                            assert(y - counts@[o] != reachable_total);
                        }
                    }
                }
            }
            reachable_total = reachable_total + 1;
        }
        proof {
            let j = rows_rev@.len() as int;
            assert(piece_count - (j - 1) == d + 1);
            assert forall|o: int| 0 <= o < offsets implies #[trigger] counts@[o] == part_count(kind, sp[d], o) by {
                assert(partition_cell_counts@[d]@[o] == part_count(kind, sp[d], o));
            }
            assert forall|x: int| 0 <= x < limit implies #[trigger] next_row@[x] == reachable(kind, sp, d + 1, x, limit) by {
                assert(rows_rev@[j - 1]@[x] == reachable(kind, sp, piece_count - (j - 1), x, limit));
            }
            lemma_row_step(kind, sp, d, limit, counts@, next_row@, current@);
        }
        rows_rev.push(current);
    }
    let mut suffix_reachable: Vec<Vec<bool>> = Vec::new();
    while rows_rev.len() > 0
        invariant
            piece_count == sp.len(),
            suffix_reachable@.len() + rows_rev@.len() == piece_count + 1,
            forall|j: int| 0 <= j < rows_rev@.len() ==> (#[trigger] rows_rev@[j])@.len() == limit,
            forall|j: int, x: int|
                0 <= j < rows_rev@.len() && 0 <= x < limit ==> #[trigger] rows_rev@[j]@[x] == reachable(
                    kind,
                    sp,
                    piece_count - j,
                    x,
                    limit,
                ),
            forall|e: int| 0 <= e < suffix_reachable@.len() ==> (#[trigger] suffix_reachable@[e])@.len() == limit,
            forall|e: int, x: int|
                0 <= e < suffix_reachable@.len() && 0 <= x < limit ==> #[trigger] suffix_reachable@[e]@[x] == reachable(
                    kind,
                    sp,
                    e,
                    x,
                    limit,
                ),
        decreases rows_rev@.len(),
    {
        let row = rows_rev.pop().unwrap();
        proof {
            assert(piece_count - rows_rev@.len() == suffix_reachable@.len());
        }
        suffix_reachable.push(row);
    }
    proof {
        assert(limit == suffix_max_of(kind, sp, 0) + 1);
    }
    Partition { kind: Ghost(kind), mask, suffix_max, suffix_min, suffix_reachable }
}

/// Some total among `target`, `target + m`, `target + 2m`, ... below the
/// row's length is reachable.
pub open spec fn hits_residue(row: Seq<bool>, target: int, m: int) -> bool
    decreases row.len() - target,
{
    if m <= 0 || target < 0 || target >= row.len() {
        false
    } else if row[target] {
        true
    } else if target + m >= row.len() {
        false
    } else {
        hits_residue(row, target + m, m)
    }
}

/// The partitions used for an `h` by `w` board: the three modulo-two
/// partitions, then the modulo-three row, column and diagonal ones the board
/// is large enough for.
pub open spec fn kinds_for(h: int, w: int) -> Seq<PartitionKind> {
    let base = seq![PartitionKind::Checker, PartitionKind::EvenRows, PartitionKind::EvenColumns];
    let rows = if h >= 6 {
        seq![PartitionKind::RowsModThree(0), PartitionKind::RowsModThree(1), PartitionKind::RowsModThree(2)]
    } else {
        Seq::empty()
    };
    let columns = if w >= 6 {
        seq![PartitionKind::ColumnsModThree(0), PartitionKind::ColumnsModThree(1), PartitionKind::ColumnsModThree(2)]
    } else {
        Seq::empty()
    };
    let diagonals = if h >= 4 && w >= 4 {
        seq![
            PartitionKind::Diagonals(0),
            PartitionKind::Diagonals(1),
            PartitionKind::Diagonals(2),
            PartitionKind::SkewDiagonals(0),
            PartitionKind::SkewDiagonals(1),
            PartitionKind::SkewDiagonals(2),
        ]
    } else {
        Seq::empty()
    };
    base + rows + columns + diagonals
}

pub struct PartitionReachability {
    partitions: Vec<Partition>,
}

impl PartitionReachability {
    /// The kinds of the partitions, in order.
    pub closed spec fn kinds(self) -> Seq<PartitionKind> {
        Seq::new(self.partitions@.len(), |k: int| self.partitions@[k].kind@)
    }

    /// Every partition's tables describe pieces `sp` on an `h` by `w` board.
    pub closed spec fn wf(self, sp: Seq<Piece>, h: int, w: int) -> bool {
        forall|k: int| 0 <= k < self.partitions@.len() ==> #[trigger] partition_wf(self.partitions@[k], sp, h, w)
    }

    /// Partition `k` lets the search go on: its deficit is within what the
    /// remaining pieces can put into it, the rest of the deficit within what
    /// they can put outside it, and some reachable total matches its deficit
    /// modulo `m`.
    pub closed spec fn partition_allows(self, k: int, board: Board, piece_index: int, m: int, remaining_cells: int) -> bool {
        let p = self.partitions@[k];
        let partition_deficit = covered_deficit(board, p.mask, m);
        &&& p.suffix_max@[piece_index] >= partition_deficit
        &&& remaining_cells - p.suffix_min@[piece_index] >= board.deficit() - partition_deficit
        &&& hits_residue(p.suffix_reachable@[piece_index]@, partition_deficit, m)
    }

    /// The smallest share partition `k` takes of the pieces from `d` on.
    pub closed spec fn suffix_min_at(self, k: int, d: int) -> int {
        self.partitions@[k].suffix_min@[d] as int
    }

    /// Number of partitions.
    pub closed spec fn len(self) -> int {
        self.partitions@.len() as int
    }

    /// The checkerboard, row, column and diagonal partitions for the pieces
    /// in solver order.
    pub fn precompute(pieces: &[Piece], piece_order: &[usize], height: u8, width: u8) -> (r: Self)
        requires
            piece_order@.len() >= pieces@.len(),
            forall|d: int| 0 <= d < pieces@.len() ==> #[trigger] piece_order@[d] < pieces@.len(),
            pieces@.len() <= 4096,
            width <= 15,
            15 * height + width <= 271,
        ensures
            r.wf(
                Seq::new(pieces@.len(), |d: int| pieces@[piece_order@[d] as int]),
                height as int,
                width as int,
            ),
            r.kinds() == kinds_for(height as int, width as int),
    {
        let ghost sp = Seq::new(pieces@.len(), |d: int| pieces@[piece_order@[d] as int]);
        let mut kinds: Vec<PartitionKind> = Vec::new();
        kinds.push(PartitionKind::Checker);
        kinds.push(PartitionKind::EvenRows);
        kinds.push(PartitionKind::EvenColumns);
        if height >= 6 {
            kinds.push(PartitionKind::RowsModThree(0));
            kinds.push(PartitionKind::RowsModThree(1));
            kinds.push(PartitionKind::RowsModThree(2));
        }
        if width >= 6 {
            kinds.push(PartitionKind::ColumnsModThree(0));
            kinds.push(PartitionKind::ColumnsModThree(1));
            kinds.push(PartitionKind::ColumnsModThree(2));
        }
        if height >= 4 && width >= 4 {
            kinds.push(PartitionKind::Diagonals(0));
            kinds.push(PartitionKind::Diagonals(1));
            kinds.push(PartitionKind::Diagonals(2));
            kinds.push(PartitionKind::SkewDiagonals(0));
            kinds.push(PartitionKind::SkewDiagonals(1));
            kinds.push(PartitionKind::SkewDiagonals(2));
        }
        proof {
            assert(kinds@ =~= kinds_for(height as int, width as int));
        }
        let mut partitions: Vec<Partition> = Vec::new();
        let mut k: usize = 0;
        while k < kinds.len()
            invariant
                0 <= k <= kinds@.len(),
                partitions@.len() == k,
                sp == Seq::new(pieces@.len(), |d: int| pieces@[piece_order@[d] as int]),
                piece_order@.len() >= pieces@.len(),
                forall|d: int| 0 <= d < pieces@.len() ==> #[trigger] piece_order@[d] < pieces@.len(),
                pieces@.len() <= 4096,
                width <= 15,
                15 * height + width <= 271,
                forall|j: int| 0 <= j < k ==> #[trigger] partition_wf(partitions@[j], sp, height as int, width as int),
                forall|j: int| 0 <= j < k ==> #[trigger] partitions@[j].kind@ == kinds@[j],
            decreases kinds@.len() - k,
        {
            let partition = build_partition(kinds[k], pieces, piece_order, height, width, Ghost(sp));
            partitions.push(partition);
            k = k + 1;
        }
        let r = PartitionReachability { partitions };
        proof {
            assert(r.kinds() =~= kinds@);
        }
        r
    }

    /// Number of partitions.
    pub fn partition_count(&self) -> (r: usize)
        ensures
            r == self.len(),
    {
        self.partitions.len()
    }

    /// Whether every partition lets the search go on.
    pub fn allows(&self, board: &Board, piece_index: usize, modulus: u8, remaining_cells: u32) -> (r: bool)
        requires
            board.wf(),
            modulus == board.modulus(),
            exists|sp: Seq<Piece>, h: int, w: int| #[trigger] self.wf(sp, h, w) && piece_index <= sp.len(),
            forall|k: int| 0 <= k < self.len() ==> remaining_cells >= #[trigger] self.suffix_min_at(k, piece_index as int),
        ensures
            r == forall|k: int|
                0 <= k < self.len() ==> #[trigger] self.partition_allows(
                    k,
                    *board,
                    piece_index as int,
                    modulus as int,
                    remaining_cells as int,
                ),
    {
        proof {
            board.lemma_wf();
        }
        let ghost (sp, h, w) = choose|sp: Seq<Piece>, h: int, w: int| #[trigger] self.wf(sp, h, w) && piece_index <= sp.len();
        let modulus_u32 = modulus as u32;
        let total_deficit = board.total_deficit();
        let mut k: usize = 0;
        while k < self.partitions.len()
            invariant
                board.wf(),
                modulus == board.modulus(),
                2 <= modulus <= 5,
                modulus_u32 == modulus,
                total_deficit == board.deficit(),
                self.wf(sp, h, w),
                piece_index <= sp.len(),
                forall|j: int| 0 <= j < self.len() ==> remaining_cells >= #[trigger] self.suffix_min_at(j, piece_index as int),
                0 <= k <= self.partitions@.len(),
                forall|j: int|
                    0 <= j < k ==> #[trigger] self.partition_allows(
                        j,
                        *board,
                        piece_index as int,
                        modulus as int,
                        remaining_cells as int,
                    ),
            decreases self.partitions@.len() - k,
        {
            let partition = &self.partitions[k];
            proof {
                assert(partition_wf(*partition, sp, h, w));
            }
            let mut partition_deficit: u32 = 0;
            let mut deficit: u8 = 1;
            while deficit < modulus
                invariant
                    board.wf(),
                    2 <= modulus <= 5,
                    modulus == board.modulus(),
                    1 <= deficit <= modulus,
                    partition_deficit == covered_deficit(*board, partition.mask, deficit as int),
                    partition_deficit <= 256 * (deficit - 1) * deficit / 2,
                decreases modulus - deficit,
            {
                let hit = board.plane(deficit).and(&partition.mask);
                proof {
                    assert forall|i: int| 0 <= i < 256 implies #[trigger] hit.bit(i) == (covered_with(*board, partition.mask, deficit as int))(i) by {}
                    lemma_count_bits(hit, covered_with(*board, partition.mask, deficit as int), 256);
                    bits::lemma_count_upto_bound(hit@, 256);
                }
                let count = hit.count_ones();
                proof {
                    assert(deficit * count <= 256 * deficit) by (nonlinear_arith)
                        requires
                            count <= 256,
                    ;
                    assert(256 * (deficit - 1) * deficit / 2 + 256 * deficit == 256 * deficit * (deficit + 1) / 2)
                        by (nonlinear_arith)
                        requires
                            1 <= deficit <= 5,
                    ;
                    assert(256 * deficit * (deficit + 1) / 2 <= 256 * 4 * 5 / 2) by (nonlinear_arith)
                        requires
                            1 <= deficit <= 4,
                    ;
                }
                partition_deficit = partition_deficit + deficit as u32 * count;
                deficit = deficit + 1;
            }
            proof {
                lemma_covered_deficit_le(*board, partition.mask, modulus as int);
                assert(self.suffix_min_at(k as int, piece_index as int) == partition.suffix_min@[piece_index as int]);
            }
            if partition.suffix_max[piece_index] < partition_deficit {
                proof {
                    assert(!self.partition_allows(k as int, *board, piece_index as int, modulus as int, remaining_cells as int));
                }
                return false;
            }
            let complement_deficit = total_deficit - partition_deficit;
            let max_complement_coverage = remaining_cells - partition.suffix_min[piece_index];
            if max_complement_coverage < complement_deficit {
                proof {
                    assert(!self.partition_allows(k as int, *board, piece_index as int, modulus as int, remaining_cells as int));
                }
                return false;
            }
            let reachable_row = &partition.suffix_reachable[piece_index];
            let mut target = partition_deficit;
            proof {
                assert(reachable_row@.len() == suffix_max_of(partition.kind@, sp, 0) + 1);
                lemma_suffix_max_bound(partition.kind@, sp, 0);
            }
            while (target as usize) < reachable_row.len()
                invariant
                    2 <= modulus_u32 <= 5,
                    modulus_u32 == modulus,
                    reachable_row@.len() <= 256 * 4096 + 1,
                    target >= partition_deficit,
                    hits_residue(reachable_row@, partition_deficit as int, modulus as int) == hits_residue(
                        reachable_row@,
                        target as int,
                        modulus as int,
                    ),
                ensures
                    target >= partition_deficit,
                    hits_residue(reachable_row@, partition_deficit as int, modulus as int) == hits_residue(
                        reachable_row@,
                        target as int,
                        modulus as int,
                    ),
                    (target as usize) < reachable_row@.len() ==> reachable_row@[target as int],
                decreases reachable_row@.len() + modulus_u32 - target,
            {
                if reachable_row[target as usize] {
                    break;
                }
                target = target + modulus_u32;
            }
            if (target as usize) >= reachable_row.len() {
                proof {
                    assert(!self.partition_allows(k as int, *board, piece_index as int, modulus as int, remaining_cells as int));
                }
                return false;
            }
            proof {
                assert(self.partition_allows(k as int, *board, piece_index as int, modulus as int, remaining_cells as int));
            }
            k = k + 1;
        }
        true
    }
}

/// The largest share total is at most 256 cells per piece.
proof fn lemma_suffix_max_bound(kind: PartitionKind, sp: Seq<Piece>, d: int)
    requires
        0 <= d <= sp.len(),
        sp.len() <= 4096,
    ensures
        0 <= suffix_max_of(kind, sp, d) <= 256 * (sp.len() - d),
    decreases sp.len() - d,
{
    if d < sp.len() {
        lemma_suffix_max_bound(kind, sp, d + 1);
        lemma_count_where_bound(piece_part_cells(kind, sp[d], 0), 256);
        lemma_count_where_bound(piece_part_cells(kind, sp[d], 1), 256);
        lemma_count_where_bound(piece_part_cells(kind, sp[d], 2), 256);
        assert(256 * (sp.len() - (d + 1)) + 256 == 256 * (sp.len() - d)) by (nonlinear_arith);
    }
}

/// A piece's smallest share of a partition is at most its cell count.
proof fn lemma_min_part_le(kind: PartitionKind, p: Piece)
    ensures
        min_part(kind, p) <= p.cells().count(),
{
    let all = |i: int| p.cells().bit(i);
    lemma_count_where_implies(piece_part_cells(kind, p, 0), all, 256);
    lemma_count_bits(p.cells(), all, 256);
}

/// The smallest shares of the remaining pieces add up to at most their cells.
proof fn lemma_suffix_min_le(kind: PartitionKind, pieces: Seq<Piece>, order: Seq<usize>, sp: Seq<Piece>, d: int)
    requires
        0 <= d <= sp.len(),
        order.len() == sp.len(),
        forall|e: int| 0 <= e < sp.len() ==> #[trigger] sp[e] == pieces[order[e] as int],
    ensures
        suffix_min_of(kind, sp, d) <= suffix_cells(pieces, order, d),
    decreases sp.len() - d,
{
    if d < sp.len() {
        lemma_suffix_min_le(kind, pieces, order, sp, d + 1);
        lemma_min_part_le(kind, sp[d]);
    }
}

impl PartitionReachability {
    /// Each partition's smallest share of the remaining pieces is at most
    /// their cell count.
    pub proof fn lemma_suffix_min_at_most_cells(
        self,
        pieces: Seq<Piece>,
        order: Seq<usize>,
        h: int,
        w: int,
        k: int,
        d: int,
    )
        requires
            self.wf(Seq::new(pieces.len(), |e: int| pieces[order[e] as int]), h, w),
            order.len() == pieces.len(),
            0 <= k < self.len(),
            0 <= d <= pieces.len(),
        ensures
            self.suffix_min_at(k, d) <= suffix_cells(pieces, order, d),
    {
        let sp = Seq::new(pieces.len(), |e: int| pieces[order[e] as int]);
        assert(partition_wf(self.partitions@[k], sp, h, w));
        lemma_suffix_min_le(self.partitions@[k].kind@, pieces, order, sp, d);
    }
}

/// The deficit under a mask is at most the board's deficit.
pub proof fn lemma_covered_deficit_le(b: Board, mask: Bitboard, m: int)
    requires
        b.wf(),
        m == b.modulus(),
    ensures
        0 <= covered_deficit(b, mask, m) <= b.deficit(),
{
    b.lemma_wf();
    lemma_covered_deficit_upto(b, mask, m, 256);
}

/// Weighted counts of covered cells up to index `n`, by value below `v`.
spec fn covered_upto(b: Board, mask: Bitboard, v: int, n: int) -> int
    decreases v,
{
    if v <= 1 {
        0
    } else {
        covered_upto(b, mask, v - 1, n) + (v - 1) * count_where(covered_with(b, mask, v - 1), n)
    }
}

/// Masked sum of the cell values below index `n`.
spec fn masked_sum(b: Board, mask: Bitboard, n: int) -> int
    decreases n,
{
    if n <= 0 {
        0
    } else {
        masked_sum(b, mask, n - 1) + if mask.bit(n - 1) && b.valid(n - 1) {
            b.cell(n - 1)
        } else {
            0
        }
    }
}

proof fn lemma_covered_upto_step(b: Board, mask: Bitboard, v: int, n: int)
    requires
        n >= 1,
    ensures
        covered_upto(b, mask, v, n) == covered_upto(b, mask, v, n - 1) + if mask.bit(n - 1) && b.valid(n - 1)
            && 1 <= b.cell(n - 1) < v {
            b.cell(n - 1)
        } else {
            0
        },
    decreases v,
{
    if v > 1 {
        lemma_covered_upto_step(b, mask, v - 1, n);
        assert((v - 1) * count_where(covered_with(b, mask, v - 1), n) == (v - 1) * count_where(
            covered_with(b, mask, v - 1),
            n - 1,
        ) + (v - 1) * (if (covered_with(b, mask, v - 1))(n - 1) {
            1int
        } else {
            0int
        })) by (nonlinear_arith)
            requires
                count_where(covered_with(b, mask, v - 1), n) == count_where(covered_with(b, mask, v - 1), n - 1)
                    + if (covered_with(b, mask, v - 1))(n - 1) {
                    1int
                } else {
                    0int
                },
        ;
    }
}

proof fn lemma_covered_deficit_upto(b: Board, mask: Bitboard, m: int, n: int)
    requires
        b.wf(),
        m == b.modulus(),
        0 <= n <= 256,
    ensures
        covered_upto(b, mask, m, n) == masked_sum(b, mask, n),
        0 <= masked_sum(b, mask, n) <= b.deficit_upto(n),
        covered_deficit(b, mask, m) == covered_upto(b, mask, m, 256),
    decreases n,
{
    b.lemma_wf();
    lemma_covered_deficit_is_upto(b, mask, m);
    if n > 0 {
        lemma_covered_deficit_upto(b, mask, m, n - 1);
        lemma_covered_upto_step(b, mask, m, n);
        if b.valid(n - 1) {
            assert(0 <= b.cell(n - 1) < m);
        } else {
            assert(b.cell(n - 1) == 0);
        }
    } else {
        lemma_covered_upto_zero(b, mask, m);
    }
}

proof fn lemma_covered_upto_zero(b: Board, mask: Bitboard, v: int)
    ensures
        covered_upto(b, mask, v, 0) == 0,
    decreases v,
{
    if v > 1 {
        lemma_covered_upto_zero(b, mask, v - 1);
        assert(count_where(covered_with(b, mask, v - 1), 0) == 0);
    }
}

proof fn lemma_covered_deficit_is_upto(b: Board, mask: Bitboard, v: int)
    ensures
        covered_deficit(b, mask, v) == covered_upto(b, mask, v, 256),
    decreases v,
{
    if v > 1 {
        lemma_covered_deficit_is_upto(b, mask, v - 1);
    }
}

/// The phase at which a piece anchored at (row, col) meets the partition.
pub open spec fn phase_of(kind: PartitionKind, row: int, col: int) -> int {
    match kind {
        PartitionKind::Checker => (row + col) % 2,
        PartitionKind::EvenRows => row % 2,
        PartitionKind::EvenColumns => col % 2,
        PartitionKind::RowsModThree(_) => row % 3,
        PartitionKind::ColumnsModThree(_) => col % 3,
        PartitionKind::Diagonals(_) => (row + col) % 3,
        PartitionKind::SkewDiagonals(_) => (row + 2 * col) % 3,
    }
}

/// `(x + y) % m` depends on `y` only modulo `m`.
proof fn lemma_mod_shift(x: int, y: int, m: int)
    requires
        0 < m,
    ensures
        (x + y) % m == (x + y % m) % m,
{
    vstd::arithmetic::div_mod::lemma_add_mod_noop(x, y, m);
    vstd::arithmetic::div_mod::lemma_add_mod_noop(x, y % m, m);
    vstd::arithmetic::div_mod::lemma_mod_twice(y, m);
}

/// Board cell (row + a, col + b) lies in the partition exactly when piece
/// cell (a, b) does at the anchor's phase.
proof fn lemma_phase(kind: PartitionKind, row: int, col: int, a: int, b: int)
    ensures
        board_cell_in(kind, row + a, col + b) == piece_cell_in(kind, a, b, phase_of(kind, row, col)),
        0 <= phase_of(kind, row, col) < offset_count_of(kind),
{
    match kind {
        PartitionKind::Checker => {
            lemma_mod_shift(a + b, row + col, 2);
            assert(row + a + col + b == a + b + (row + col));
        },
        PartitionKind::EvenRows => {
            lemma_mod_shift(a, row, 2);
        },
        PartitionKind::EvenColumns => {
            lemma_mod_shift(b, col, 2);
        },
        PartitionKind::RowsModThree(_) => {
            lemma_mod_shift(a, row, 3);
        },
        PartitionKind::ColumnsModThree(_) => {
            lemma_mod_shift(b, col, 3);
        },
        PartitionKind::Diagonals(_) => {
            lemma_mod_shift(a + b, row + col, 3);
            assert(row + a + col + b == a + b + (row + col));
        },
        PartitionKind::SkewDiagonals(_) => {
            lemma_mod_shift(a + 2 * b, row + 2 * col, 3);
            assert(row + a + 2 * (col + b) == a + 2 * b + (row + 2 * col));
        },
    }
}

/// Counting a predicate moved up by `s` counts the predicate below `k - s`.
pub proof fn lemma_count_shift(q: spec_fn(int) -> bool, s: int, k: int)
    requires
        0 <= s,
        0 <= k,
    ensures
        count_where(|i: int| i >= s && q(i - s), k) == count_where(q, k - s),
    decreases k,
{
    if k > 0 {
        lemma_count_shift(q, s, k - 1);
    }
}

/// A count stops growing where the predicate no longer holds.
pub proof fn lemma_count_flat(q: spec_fn(int) -> bool, n: int, k: int)
    requires
        0 <= n <= k,
        forall|j: int| n <= j < k ==> !#[trigger] q(j),
    ensures
        count_where(q, k) == count_where(q, n),
    decreases k - n,
{
    if k > n {
        lemma_count_flat(q, n, k - 1);
    }
}

/// A placement of piece `p` lands in the partition as many cells as the
/// piece has in it at the anchor's phase.
proof fn lemma_landed_part(kind: PartitionKind, b: Board, p: Piece, pl: (usize, usize, Bitboard), mask: Bitboard)
    requires
        b.wf(),
        p.wf(),
        places(b, p, pl),
        forall|i: int| 0 <= i < 256 ==> #[trigger] mask.bit(i) == (in_board(b.rows(), b.cols(), i) && board_cell_in(kind, i / 15, i % 15)),
    ensures
        landed(pl.2, mask) == part_count(kind, p, phase_of(kind, pl.0 as int, pl.1 as int)),
{
    b.lemma_wf();
    p.lemma_wf();
    lemma_placed_cells(b, p, pl);
    let row = pl.0 as int;
    let col = pl.1 as int;
    let off = 15 * row + col;
    let ph = phase_of(kind, row, col);
    let q = piece_part_cells(kind, p, ph);
    assert forall|j: int| 0 <= j < 256 && #[trigger] p.cells().bit(j) implies j + off < 256 && (j + off) / 15 == row + j / 15
        && (j + off) % 15 == col + j % 15 && b.valid(j + off) by {
        assert(in_box(p.rows(), p.cols(), j));
        bits::lemma_stride_split(j);
        bits::lemma_stride_index(row + j / 15, col + j % 15);
    }
    let f = |i: int| pl.2.bit(i) && mask.bit(i);
    let g = |i: int| i >= off && q(i - off);
    assert forall|i: int| 0 <= i < 256 implies #[trigger] f(i) == g(i) by {
        assert(pl.2.bit(i) == covers(p, row, col, i));
        if i >= off && p.cells().bit(i - off) {
            let j = i - off;
            assert(0 <= j < 256);
            assert(i / 15 == row + j / 15 && i % 15 == col + j % 15);
            lemma_phase(kind, row, col, j / 15, j % 15);
        }
    }
    lemma_count_where_ext(f, g, 256);
    lemma_count_shift(q, off, 256);
    assert(0 <= off < 256) by {
        let j = choose|j: int| 0 <= j < 256 && #[trigger] p.cells().bit(j);
        assert(j + off < 256);
    }
    assert forall|j: int| 256 - off <= j < 256 implies !#[trigger] q(j) by {
        if q(j) {
            assert(p.cells().bit(j));
        }
    }
    lemma_count_flat(q, 256 - off, 256);
}

/// Summed values are never negative.
proof fn lemma_value_below_nonneg(b: Board, region: Bitboard, v: int, n: int)
    requires
        b.wf(),
    ensures
        value_below(b, region, v, n) >= 0,
    decreases n,
{
    b.lemma_wf();
    if n > 0 {
        lemma_value_below_nonneg(b, region, v, n - 1);
        if region.bit(n - 1) && b.valid(n - 1) && b.cell(n - 1) < v {
            assert(b.cell(n - 1) >= 0);
        }
    }
}

/// A piece's share at any phase lies between its fewest and most.
proof fn lemma_part_between(kind: PartitionKind, p: Piece, o: int)
    requires
        0 <= o < offset_count_of(kind),
    ensures
        min_part(kind, p) <= part_count(kind, p, o) <= max_part(kind, p),
        0 <= min_part(kind, p),
{
}

/// The cells the chosen placements of pieces `d..` land in the partition
/// lie between the suffix sums of the fewest and the most, and below any
/// larger limit they are a reachable total.
proof fn lemma_landed_reachable(
    kind: PartitionKind,
    b: Board,
    sp: Seq<Piece>,
    pm: Seq<Seq<(usize, usize, Bitboard)>>,
    c: Seq<int>,
    d: int,
    mask: Bitboard,
    limit: int,
)
    requires
        b.wf(),
        0 <= d <= pm.len(),
        pm.len() == sp.len(),
        forall|k: int| 0 <= k < sp.len() ==> #[trigger] sp[k].wf(),
        forall|k: int| d <= k < pm.len() ==> #[trigger] places(b, sp[k], pm[k][c[k]]),
        forall|i: int| 0 <= i < 256 ==> #[trigger] mask.bit(i) == (in_board(b.rows(), b.cols(), i) && board_cell_in(kind, i / 15, i % 15)),
        suffix_max_of(kind, sp, d) < limit,
    ensures
        suffix_min_of(kind, sp, d) <= landed_sum(pm, c, d, mask) <= suffix_max_of(kind, sp, d),
        0 <= suffix_min_of(kind, sp, d),
        reachable(kind, sp, d, landed_sum(pm, c, d, mask), limit),
    decreases pm.len() - d,
{
    if d < pm.len() {
        let pl = pm[d][c[d]];
        assert(places(b, sp[d], pl));
        lemma_landed_part(kind, b, sp[d], pl, mask);
        let o = phase_of(kind, pl.0 as int, pl.1 as int);
        lemma_phase(kind, pl.0 as int, pl.1 as int, 0, 0);
        lemma_part_between(kind, sp[d], o);
        lemma_landed_reachable(kind, b, sp, pm, c, d + 1, mask, limit);
        let t = landed_sum(pm, c, d, mask);
        let rest = landed_sum(pm, c, d + 1, mask);
        assert(t == rest + part_count(kind, sp[d], o));
        assert(t >= part_count(kind, sp[d], o) && reachable(kind, sp, d + 1, t - part_count(kind, sp[d], o), limit));
        if o == 0 {
        } else if o == 1 {
        } else {
            assert(offset_count_of(kind) == 3);
        }
    }
}

/// The largest shares from position 0 on add up to at least those from `d` on.
proof fn lemma_suffix_max_mono(kind: PartitionKind, sp: Seq<Piece>, d: int)
    requires
        0 <= d <= sp.len(),
    ensures
        suffix_max_of(kind, sp, d) <= suffix_max_of(kind, sp, 0),
    decreases d,
{
    if d > 0 {
        lemma_suffix_max_mono(kind, sp, d - 1);
        lemma_part_between(kind, sp[d - 1], 0);
    }
}

/// A reachable total `t` at or above `target`, a whole number of M steps
/// away, is found by stepping from `target`.
proof fn lemma_hits_residue_from(row: Seq<bool>, target: int, t: int, m: int)
    requires
        0 < m,
        0 <= target <= t < row.len(),
        row[t],
        (t - target) % m == 0,
    ensures
        hits_residue(row, target, m),
    decreases row.len() - target,
{
    if !row[target] {
        assert(t != target);
        assert(t >= target + m) by {
            vstd::arithmetic::div_mod::lemma_fundamental_div_mod(t - target, m);
            let q = (t - target) / m;
            assert(t - target == m * q);
            if q <= 0 {
                assert(m * q <= 0) by (nonlinear_arith)
                    requires
                        0 < m,
                        q <= 0,
                ;
            } else {
                assert(m * q >= m) by (nonlinear_arith)
                    requires
                        0 < m,
                        q >= 1,
                ;
            }
        }
        vstd::arithmetic::div_mod::lemma_sub_mod_noop(t - target, m, m);
        vstd::arithmetic::div_mod::lemma_mod_self_0(m);
        vstd::arithmetic::div_mod::lemma_small_mod(0, m as nat);
        assert((t - (target + m)) % m == 0) by {
            assert(t - (target + m) == (t - target) - m);
            vstd::arithmetic::div_mod::lemma_mod_sub_multiples_vanish(t - target, m);
        }
        lemma_hits_residue_from(row, target + m, t, m);
    }
}

impl PartitionReachability {
    /// A board that the remaining pieces can finish passes every partition.
    /// Where the chosen placements of pieces `d..` (each a piece of `sp`
    /// moved to its anchor within the board) leave every cell at zero, each
    /// partition's deficit is within the most the pieces can put into it,
    /// the rest of the deficit within what their cells can put outside it,
    /// and some total they can put into it meets the deficit modulo M: the
    /// total they do put there.
    pub proof fn lemma_allows_finishable(
        self,
        sp: Seq<Piece>,
        b: Board,
        pm: Seq<Seq<(usize, usize, Bitboard)>>,
        d: int,
        c: Seq<int>,
    )
        requires
            self.wf(sp, b.rows(), b.cols()),
            b.wf(),
            pm.len() == sp.len(),
            forall|k: int| 0 <= k < sp.len() ==> #[trigger] sp[k].wf(),
            finishes(b, pm, c, d),
            forall|k: int| d <= k < pm.len() ==> #[trigger] places(b, sp[k], pm[k][c[k]]),
        ensures
            forall|k: int|
                0 <= k < self.len() ==> #[trigger] self.partition_allows(k, b, d, b.modulus(), cells_from(sp, d)),
    {
        b.lemma_wf();
        let m = b.modulus();
        assert forall|k: int, j: int|
            d <= k < pm.len() && 0 <= j < 256 && #[trigger] pm[k][c[k]].2.bit(j) implies b.valid(j) by {
            assert(places(b, sp[k], pm[k][c[k]]));
            lemma_placed_cells(b, sp[k], pm[k][c[k]]);
        }
        assert forall|k: int| 0 <= k < self.len() implies #[trigger] self.partition_allows(
            k,
            b,
            d,
            m,
            cells_from(sp, d),
        ) by {
            let p = self.partitions@[k];
            assert(partition_wf(p, sp, b.rows(), b.cols()));
            let kind = p.kind@;
            let mask = p.mask;
            let out = mask.complement();
            let limit = suffix_max_of(kind, sp, 0) + 1;
            assert forall|i: int| 0 <= i < 256 && #[trigger] out.bit(i) implies b.valid(i) || chosen_hits(
                pm,
                c,
                d,
                i,
            ) == 0 by {
                if !b.valid(i) {
                    lemma_hits_off_board(b, pm, c, d, i);
                }
            }
            lemma_region_turns(b, pm, c, d, mask, 256);
            lemma_region_turns(b, pm, c, d, out, 256);
            lemma_region_landed(pm, c, d, mask);
            lemma_region_landed(pm, c, d, out);
            lemma_covered_deficit_value(b, mask, m);
            lemma_value_halves(b, mask, 256);
            lemma_landed_total(b, sp, pm, c, d, mask);
            lemma_suffix_max_mono(kind, sp, d);
            lemma_landed_reachable(kind, b, sp, pm, c, d, mask, limit);
            let t = landed_sum(pm, c, d, mask);
            let pd = covered_deficit(b, mask, m);
            assert(t >= pd && (t - pd) % m == 0);
            assert(p.suffix_reachable@[d]@.len() == limit);
            assert(t < limit);
            assert(0 <= pd) by {
                lemma_value_below_nonneg(b, mask, m, 256);
            }
            assert(p.suffix_reachable@[d]@[t] == reachable(kind, sp, d, t, limit));
            lemma_hits_residue_from(p.suffix_reachable@[d]@, pd, t, m);
        }
    }
}

} // verus!
