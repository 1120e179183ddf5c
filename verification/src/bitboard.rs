//! A 256-bit bitboard with public limbs.
//! Bit index `i` lives in limb `i / 64`, bit position `i % 64`.

use vstd::prelude::*;
use crate::bits;
use vstd::std_specs::ops::{
    BitAndSpecImpl, BitOrSpecImpl, BitXorSpecImpl, NotSpecImpl, ShlSpecImpl, ShrSpecImpl,
};

verus! {

/// A 256-bit bitboard stored as four u64 limbs in little-endian order.
#[derive(Clone, Copy, PartialEq, Eq, Hash, Default, Debug)]
pub struct Bitboard {
    pub limbs: [u64; 4],
}

impl Bitboard {
    /// Whether bit `i` is set.
    #[verifier::inline]
    pub open spec fn bit(&self, i: int) -> bool {
        bits::bit(self.limbs, i)
    }

    /// Number of set bits.
    #[verifier::inline]
    pub open spec fn count(&self) -> nat {
        bits::count(self.limbs)
    }

    /// `r` holds the bits of `a` moved up by `n`.
    pub open spec fn is_shifted_left(r: Bitboard, a: Bitboard, n: u32) -> bool {
        forall|i: int| 0 <= i < 256 ==> #[trigger] r.bit(i) == (i >= n && a.bit(i - n))
    }

    /// `r` holds the bits of `a` moved down by `n`.
    pub open spec fn is_shifted_right(r: Bitboard, a: Bitboard, n: u32) -> bool {
        forall|i: int| 0 <= i < 256 ==> #[trigger] r.bit(i) == a.bit(i + n)
    }

    /// The bitboard whose bits are those of `self` moved up by `n`.
    pub open spec fn shifted_left(self, n: u32) -> Bitboard {
        choose|r: Bitboard| #[trigger] Bitboard::is_shifted_left(r, self, n)
    }

    /// The bitboard whose bits are those of `self` moved down by `n`.
    pub open spec fn shifted_right(self, n: u32) -> Bitboard {
        choose|r: Bitboard| #[trigger] Bitboard::is_shifted_right(r, self, n)
    }

    /// Bitboards are determined by their bits.
    pub proof fn lemma_bits_ext(a: Bitboard, b: Bitboard)
        requires
            forall|i: int| 0 <= i < 256 ==> #[trigger] a.bit(i) == b.bit(i),
        ensures
            a == b,
    {
        bits::lemma_ext(a.limbs, b.limbs);
    }

    pub fn new(limbs: [u64; 4]) -> (r: Self)
        ensures
            r.limbs == limbs,
    {
        Self { limbs }
    }

    /// The empty bitboard.
    pub fn zero() -> (r: Self)
        ensures
            r.limbs == bits::zero(),
            forall|i: int| 0 <= i < 256 ==> !#[trigger] r.bit(i),
            r.count() == 0,
    {
        proof {
            bits::lemma_zero();
        }
        let r = Self { limbs: [0u64, 0u64, 0u64, 0u64] };
        assert(r.limbs =~= bits::zero());
        r
    }

    /// Create a bitboard with a single bit set.
    pub fn from_bit(index: u32) -> (r: Self)
        requires
            index < 256,
        ensures
            forall|i: int| 0 <= i < 256 ==> #[trigger] r.bit(i) == (i == index),
            r.count() == 1,
    {
        Self { limbs: bits::single(index) }
    }

    /// Check if a specific bit is set.
    pub fn get_bit(&self, index: u32) -> (r: bool)
        requires
            index < 256,
        ensures
            r == self.bit(index as int),
    {
        bits::get(&self.limbs, index)
    }

    /// Set a specific bit.
    pub fn set_bit(&mut self, index: u32)
        requires
            index < 256,
        ensures
            forall|i: int|
                0 <= i < 256 ==> #[trigger] final(self).bit(i) == (old(self).bit(i) || i == index),
    {
        self.limbs = bits::set(&self.limbs, index);
    }

    /// Clear a specific bit.
    pub fn clear_bit(&mut self, index: u32)
        requires
            index < 256,
        ensures
            forall|i: int|
                0 <= i < 256 ==> #[trigger] final(self).bit(i) == (old(self).bit(i) && i != index),
    {
        self.limbs = bits::clear(&self.limbs, index);
    }

    /// Returns true if all bits are zero.
    pub fn is_zero(&self) -> (r: bool)
        ensures
            r == (forall|i: int| 0 <= i < 256 ==> !#[trigger] self.bit(i)),
            r == (self.limbs == bits::zero()),
    {
        bits::is_zero(&self.limbs)
    }

    /// Return the index of the lowest set bit, or 256 if none.
    pub fn lowest_set_bit(&self) -> (r: u32)
        ensures
            r <= 256,
            r < 256 ==> self.bit(r as int),
            forall|i: int| 0 <= i < r ==> !#[trigger] self.bit(i),
    {
        bits::lowest(&self.limbs)
    }

    /// Count the number of set bits.
    pub fn count_ones(&self) -> (r: u32)
        ensures
            r == self.count(),
            r <= 256,
    {
        bits::popcount(&self.limbs)
    }

    /// Shift left by `n` bits. Bits shifted beyond 256 are lost.
    pub fn shl(&self, n: u32) -> (r: Self)
        ensures
            forall|i: int| 0 <= i < 256 ==> #[trigger] r.bit(i) == (i >= n && self.bit(i - n)),
    {
        Self { limbs: bits::shl(&self.limbs, n) }
    }

    /// Shift right by `n` bits. Bits shifted below 0 are lost.
    pub fn shr(&self, n: u32) -> (r: Self)
        ensures
            forall|i: int| 0 <= i < 256 ==> #[trigger] r.bit(i) == self.bit(i + n),
    {
        Self { limbs: bits::shr(&self.limbs, n) }
    }

    /// Bitwise AND.
    pub fn and(&self, other: &Bitboard) -> (r: Self)
        ensures
            r.limbs == [self.limbs[0] & other.limbs[0], self.limbs[1] & other.limbs[1], self.limbs[2]
                & other.limbs[2], self.limbs[3] & other.limbs[3]],
            forall|i: int| 0 <= i < 256 ==> #[trigger] r.bit(i) == (self.bit(i) && other.bit(i)),
    {
        Self { limbs: bits::and(&self.limbs, &other.limbs) }
    }

    /// Bitwise OR.
    pub fn or(&self, other: &Bitboard) -> (r: Self)
        ensures
            r.limbs == [self.limbs[0] | other.limbs[0], self.limbs[1] | other.limbs[1], self.limbs[2]
                | other.limbs[2], self.limbs[3] | other.limbs[3]],
            forall|i: int| 0 <= i < 256 ==> #[trigger] r.bit(i) == (self.bit(i) || other.bit(i)),
    {
        Self { limbs: bits::or(&self.limbs, &other.limbs) }
    }

    /// Bitwise XOR.
    pub fn xor(&self, other: &Bitboard) -> (r: Self)
        ensures
            r.limbs == [self.limbs[0] ^ other.limbs[0], self.limbs[1] ^ other.limbs[1], self.limbs[2]
                ^ other.limbs[2], self.limbs[3] ^ other.limbs[3]],
            forall|i: int| 0 <= i < 256 ==> #[trigger] r.bit(i) == (self.bit(i) != other.bit(i)),
    {
        Self { limbs: bits::xor(&self.limbs, &other.limbs) }
    }

    /// Bitwise NOT (inverts all 256 bits).
    pub fn not(&self) -> (r: Self)
        ensures
            r.limbs == [!self.limbs[0], !self.limbs[1], !self.limbs[2], !self.limbs[3]],
            forall|i: int| 0 <= i < 256 ==> #[trigger] r.bit(i) == !self.bit(i),
    {
        Self { limbs: bits::not(&self.limbs) }
    }
}

impl BitAndSpecImpl for Bitboard {
    open spec fn obeys_bitand_spec() -> bool {
        true
    }

    open spec fn bitand_req(self, rhs: Bitboard) -> bool {
        true
    }

    open spec fn bitand_spec(self, rhs: Bitboard) -> Bitboard {
        Bitboard {
            limbs: [self.limbs[0] & rhs.limbs[0], self.limbs[1] & rhs.limbs[1], self.limbs[2]
                & rhs.limbs[2], self.limbs[3] & rhs.limbs[3]],
        }
    }
}

impl std::ops::BitAnd for Bitboard {
    type Output = Self;

    fn bitand(self, rhs: Self) -> (r: Self)
        ensures
            forall|i: int| 0 <= i < 256 ==> #[trigger] r.bit(i) == (self.bit(i) && rhs.bit(i)),
    {
        self.and(&rhs)
    }
}

impl BitOrSpecImpl for Bitboard {
    open spec fn obeys_bitor_spec() -> bool {
        true
    }

    open spec fn bitor_req(self, rhs: Bitboard) -> bool {
        true
    }

    open spec fn bitor_spec(self, rhs: Bitboard) -> Bitboard {
        Bitboard {
            limbs: [self.limbs[0] | rhs.limbs[0], self.limbs[1] | rhs.limbs[1], self.limbs[2]
                | rhs.limbs[2], self.limbs[3] | rhs.limbs[3]],
        }
    }
}

impl std::ops::BitOr for Bitboard {
    type Output = Self;

    fn bitor(self, rhs: Self) -> (r: Self)
        ensures
            forall|i: int| 0 <= i < 256 ==> #[trigger] r.bit(i) == (self.bit(i) || rhs.bit(i)),
    {
        self.or(&rhs)
    }
}

impl BitXorSpecImpl for Bitboard {
    open spec fn obeys_bitxor_spec() -> bool {
        true
    }

    open spec fn bitxor_req(self, rhs: Bitboard) -> bool {
        true
    }

    open spec fn bitxor_spec(self, rhs: Bitboard) -> Bitboard {
        Bitboard {
            limbs: [self.limbs[0] ^ rhs.limbs[0], self.limbs[1] ^ rhs.limbs[1], self.limbs[2]
                ^ rhs.limbs[2], self.limbs[3] ^ rhs.limbs[3]],
        }
    }
}

impl std::ops::BitXor for Bitboard {
    type Output = Self;

    fn bitxor(self, rhs: Self) -> (r: Self)
        ensures
            forall|i: int| 0 <= i < 256 ==> #[trigger] r.bit(i) == (self.bit(i) != rhs.bit(i)),
    {
        self.xor(&rhs)
    }
}

impl NotSpecImpl for Bitboard {
    open spec fn obeys_not_spec() -> bool {
        true
    }

    open spec fn not_req(self) -> bool {
        true
    }

    open spec fn not_spec(self) -> Bitboard {
        Bitboard { limbs: [!self.limbs[0], !self.limbs[1], !self.limbs[2], !self.limbs[3]] }
    }
}

impl std::ops::Not for Bitboard {
    type Output = Self;

    fn not(self) -> (r: Self)
        ensures
            forall|i: int| 0 <= i < 256 ==> #[trigger] r.bit(i) == !self.bit(i),
    {
        Bitboard::not(&self)
    }
}

impl ShlSpecImpl<u32> for Bitboard {
    open spec fn obeys_shl_spec() -> bool {
        true
    }

    open spec fn shl_req(self, n: u32) -> bool {
        true
    }

    open spec fn shl_spec(self, n: u32) -> Bitboard {
        self.shifted_left(n)
    }
}

impl std::ops::Shl<u32> for Bitboard {
    type Output = Self;

    fn shl(self, n: u32) -> (r: Self)
        ensures
            forall|i: int| 0 <= i < 256 ==> #[trigger] r.bit(i) == (i >= n && self.bit(i - n)),
    {
        let r = Bitboard::shl(&self, n);
        proof {
            assert(Bitboard::is_shifted_left(r, self, n));
            let c = self.shifted_left(n);
            assert(Bitboard::is_shifted_left(c, self, n));
            Bitboard::lemma_bits_ext(r, c);
        }
        r
    }
}

impl ShrSpecImpl<u32> for Bitboard {
    open spec fn obeys_shr_spec() -> bool {
        true
    }

    open spec fn shr_req(self, n: u32) -> bool {
        true
    }

    open spec fn shr_spec(self, n: u32) -> Bitboard {
        self.shifted_right(n)
    }
}

impl std::ops::Shr<u32> for Bitboard {
    type Output = Self;

    fn shr(self, n: u32) -> (r: Self)
        ensures
            forall|i: int| 0 <= i < 256 ==> #[trigger] r.bit(i) == self.bit(i + n),
    {
        let r = Bitboard::shr(&self, n);
        proof {
            assert(Bitboard::is_shifted_right(r, self, n));
            let c = self.shifted_right(n);
            assert(Bitboard::is_shifted_right(c, self, n));
            Bitboard::lemma_bits_ext(r, c);
        }
        r
    }
}

impl std::ops::BitAndAssign for Bitboard {
    fn bitand_assign(&mut self, rhs: Self)
        ensures
            forall|i: int|
                0 <= i < 256 ==> #[trigger] final(self).bit(i) == (old(self).bit(i) && rhs.bit(i)),
    {
        *self = self.and(&rhs);
    }
}

impl std::ops::BitOrAssign for Bitboard {
    fn bitor_assign(&mut self, rhs: Self)
        ensures
            forall|i: int|
                0 <= i < 256 ==> #[trigger] final(self).bit(i) == (old(self).bit(i) || rhs.bit(i)),
    {
        *self = self.or(&rhs);
    }
}

impl std::ops::BitXorAssign for Bitboard {
    fn bitxor_assign(&mut self, rhs: Self)
        ensures
            forall|i: int|
                0 <= i < 256 ==> #[trigger] final(self).bit(i) == (old(self).bit(i) != rhs.bit(i)),
    {
        *self = self.xor(&rhs);
    }
}

} // verus!
