//! Level specifications: the modulus, board size and piece count of each level.

use vstd::prelude::*;

verus! {

/// A level specification.
#[derive(Clone, Copy, PartialEq, Eq, Structural, Debug)]
pub struct LevelSpec {
    pub level: u32,
    /// M: the modulus (called "shifts" in the game).
    pub shifts: u8,
    pub rows: u8,
    pub columns: u8,
    /// Number of pieces (called "shapes" in the game).
    pub shapes: u8,
}

impl LevelSpec {
    /// The specification describes a board the game can hold: M from 2 to 5,
    /// 3 to 14 rows and columns, and at least one piece.
    pub open spec fn is_playable(self) -> bool {
        &&& 2 <= self.shifts <= 5
        &&& 3 <= self.rows <= 14
        &&& 3 <= self.columns <= 14
        &&& self.shapes >= 1
    }
}

/// The first specification in `levels` for level `level`, if any.
pub fn get_level(levels: &[LevelSpec], level: u32) -> (r: Option<LevelSpec>)
    ensures
        r matches Some(spec) ==> spec.level == level && exists|k: int|
            0 <= k < levels@.len() && levels@[k] == spec && forall|j: int| 0 <= j < k ==> #[trigger] levels@[j].level
                != level,
        r is None ==> forall|k: int| 0 <= k < levels@.len() ==> #[trigger] levels@[k].level != level,
{
    let mut k: usize = 0;
    while k < levels.len()
        invariant
            0 <= k <= levels@.len(),
            forall|j: int| 0 <= j < k ==> #[trigger] levels@[j].level != level,
        decreases levels@.len() - k,
    {
        if levels[k].level == level {
            return Some(levels[k]);
        }
        k = k + 1;
    }
    None
}

} // verus!
