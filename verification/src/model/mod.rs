//! The board model: 256-bit bitboards, digit-plane boards, pieces and
//! per-cell coverage counters.

pub mod bitboard;
pub mod board;
pub mod coverage;
pub mod piece;

use vstd::prelude::*;

verus! {

/// Bitboard row stride. Boards up to 14 columns wide fit in 15×14 = 210 bits
/// within a 256-bit bitboard. Cell (r, c) maps to bit r*STRIDE+c.
pub const STRIDE: usize = 15;

} // verus!
