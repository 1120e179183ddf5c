//! A 256-bit bitboard. Bit index `i` lives in limb `i / 64`, bit position `i % 64`.

use vstd::prelude::*;
use crate::bits;
use vstd::std_specs::ops::{
    BitAndSpecImpl, BitOrSpecImpl, BitXorSpecImpl, NotSpecImpl, ShlSpecImpl, ShrSpecImpl,
};

verus! {

/// A 256-bit set of cell indices, stored as four little-endian `u64` limbs.
#[derive(Clone, Copy, PartialEq, Eq, Hash, Structural, Debug)]
pub struct Bitboard {
    l0: u64,
    l1: u64,
    l2: u64,
    l3: u64,
}

impl View for Bitboard {
    type V = [u64; 4];

    closed spec fn view(&self) -> [u64; 4] {
        [self.l0, self.l1, self.l2, self.l3]
    }
}

impl Bitboard {
    /// The bitboard with the given limbs.
    pub closed spec fn from_limbs(a: [u64; 4]) -> Bitboard {
        Bitboard { l0: a[0], l1: a[1], l2: a[2], l3: a[3] }
    }

    /// The bitboard whose bits are those of `self` moved up by `n`.
    pub open spec fn shifted_left(self, n: u32) -> Bitboard {
        choose|r: Bitboard| #[trigger] Bitboard::is_shifted_left(r, self, n)
    }

    /// `r` holds the bits of `a` moved up by `n`.
    pub open spec fn is_shifted_left(r: Bitboard, a: Bitboard, n: u32) -> bool {
        forall|i: int| 0 <= i < 256 ==> #[trigger] r.bit(i) == (i >= n && a.bit(i - n))
    }

    /// `r` holds the bits of `a` moved down by `n`.
    pub open spec fn is_shifted_right(r: Bitboard, a: Bitboard, n: u32) -> bool {
        forall|i: int| 0 <= i < 256 ==> #[trigger] r.bit(i) == a.bit(i + n)
    }

    /// The bitboard whose bits are those of `self` moved down by `n`.
    pub open spec fn shifted_right(self, n: u32) -> Bitboard {
        choose|r: Bitboard| #[trigger] Bitboard::is_shifted_right(r, self, n)
    }

    pub proof fn lemma_from_limbs(a: [u64; 4])
        ensures
            Bitboard::from_limbs(a)@ == a,
    {
        assert(Bitboard::from_limbs(a)@ =~= a);
    }

    /// The bitboard holding exactly the indices `self` does not.
    pub open spec fn complement(self) -> Bitboard {
        Bitboard::from_limbs([!self@[0], !self@[1], !self@[2], !self@[3]])
    }

    /// The complement's bits are the negated bits, on the 256 indices.
    pub proof fn lemma_complement(self)
        ensures
            forall|i: int| 0 <= i < 256 ==> #[trigger] self.complement().bit(i) == !self.bit(i),
    {
        let a = self@;
        Bitboard::lemma_from_limbs([!a[0], !a[1], !a[2], !a[3]]);
        assert forall|i: int| 0 <= i < 256 implies #[trigger] self.complement().bit(i) == !self.bit(i) by {
            bits::lemma_index_bounds(i);
            bits::lemma_limb_bit_ops(a[i / 64], a[i / 64], i % 64);
        }
    }

    fn of(a: [u64; 4]) -> (r: Self)
        ensures
            r@ == a,
    {
        let r = Self { l0: a[0], l1: a[1], l2: a[2], l3: a[3] };
        assert(r@ =~= a);
        r
    }

    fn arr(&self) -> (r: [u64; 4])
        ensures
            r == self@,
    {
        [self.l0, self.l1, self.l2, self.l3]
    }
}

impl Bitboard {
    /// Whether bit `i` is set.
    #[verifier::inline]
    pub open spec fn bit(&self, i: int) -> bool {
        bits::bit(self@, i)
    }

    /// Number of set bits.
    #[verifier::inline]
    pub open spec fn count(&self) -> nat {
        bits::count(self@)
    }

    /// Number of indices `i` with both bit `i` and bit `i + d` set.
    pub open spec fn pair_count(self, d: int) -> nat {
        bits::pair_count_upto(self@, d, 256)
    }

    /// A bitboard marking the set bits whose `d`-th successor is also set
    /// counts the adjacent pairs.
    pub proof fn lemma_pairs(s: Bitboard, p: Bitboard, d: int)
        requires
            forall|i: int| 0 <= i < 256 ==> #[trigger] p.bit(i) == (s.bit(i) && s.bit(i + d)),
        ensures
            p.count() == s.pair_count(d),
            p.count() <= s.count(),
    {
        bits::lemma_pair_count(s@, p@, d, 256);
    }

    /// Bitboards are determined by their limbs.
    pub proof fn lemma_view_injective(a: Bitboard, b: Bitboard)
        requires
            a@ == b@,
        ensures
            a == b,
    {
    }

    /// Bitboards are determined by their bits.
    pub proof fn lemma_bits_ext(a: Bitboard, b: Bitboard)
        requires
            forall|i: int| 0 <= i < 256 ==> #[trigger] a.bit(i) == b.bit(i),
        ensures
            a == b,
    {
        bits::lemma_ext(a@, b@);
    }

    /// The empty bitboard.
    pub fn zero() -> (r: Self)
        ensures
            r@ == bits::zero(),
            forall|i: int| 0 <= i < 256 ==> !#[trigger] r.bit(i),
            r.count() == 0,
    {
        proof {
            bits::lemma_zero();
        }
        Self::of([0u64, 0u64, 0u64, 0u64])
    }

    pub fn new(limbs: [u64; 4]) -> (r: Self)
        ensures
            r@ == limbs,
    {
        Self::of(limbs)
    }

    /// Access the underlying limbs.
    pub fn limbs(&self) -> (r: [u64; 4])
        ensures
            r == self@,
    {
        self.arr()
    }

    /// Create a bitboard with a single bit set.
    pub fn from_bit(index: u32) -> (r: Self)
        requires
            index < 256,
        ensures
            forall|i: int| 0 <= i < 256 ==> #[trigger] r.bit(i) == (i == index),
            r.count() == 1,
    {
        Self::of(bits::single(index))
    }

    /// Check if a specific bit is set.
    pub fn get_bit(&self, index: u32) -> (r: bool)
        requires
            index < 256,
        ensures
            r == self.bit(index as int),
    {
        bits::get(&self.arr(), index)
    }

    /// Set a specific bit.
    pub fn set_bit(&mut self, index: u32)
        requires
            index < 256,
        ensures
            forall|i: int|
                0 <= i < 256 ==> #[trigger] final(self).bit(i) == (old(self).bit(i) || i == index),
    {
        *self = Self::of(bits::set(&self.arr(), index));
    }

    /// Clear a specific bit.
    pub fn clear_bit(&mut self, index: u32)
        requires
            index < 256,
        ensures
            forall|i: int|
                0 <= i < 256 ==> #[trigger] final(self).bit(i) == (old(self).bit(i) && i != index),
    {
        *self = Self::of(bits::clear(&self.arr(), index));
    }

    /// Returns true if all bits are zero.
    pub fn is_zero(&self) -> (r: bool)
        ensures
            r == (forall|i: int| 0 <= i < 256 ==> !#[trigger] self.bit(i)),
            r == (self@ == bits::zero()),
    {
        bits::is_zero(&self.arr())
    }

    /// Return the index of the lowest set bit, or 256 if none.
    pub fn lowest_set_bit(&self) -> (r: u32)
        ensures
            r <= 256,
            r < 256 ==> self.bit(r as int),
            forall|i: int| 0 <= i < r ==> !#[trigger] self.bit(i),
    {
        bits::lowest(&self.arr())
    }

    /// Count the number of set bits across all 256 bits.
    pub fn count_ones(&self) -> (r: u32)
        ensures
            r == self.count(),
            r <= 256,
    {
        bits::popcount(&self.arr())
    }

    /// Count the number of set bits, limb by limb.
    pub fn count_ones_const(&self) -> (r: u32)
        ensures
            r == self.count(),
            r <= 256,
    {
        proof {
            bits::lemma_count_by_limbs(self@);
            bits::lemma_count_upto_bound(self@, 256);
        }
        bits::limb_popcount(self.l0) + bits::limb_popcount(self.l1) + bits::limb_popcount(self.l2)
            + bits::limb_popcount(self.l3)
    }

    /// Shift right by 1 bit (one cell horizontally).
    pub fn shr_1(&self) -> (r: Self)
        ensures
            forall|i: int| 0 <= i < 256 ==> #[trigger] r.bit(i) == self.bit(i + 1),
    {
        Self::of(bits::shr(&self.arr(), 1))
    }

    /// Shift left by 1 bit (one cell horizontally).
    pub fn shl_1(&self) -> (r: Self)
        ensures
            forall|i: int| 0 <= i < 256 ==> #[trigger] r.bit(i) == (i >= 1 && self.bit(i - 1)),
    {
        Self::of(bits::shl(&self.arr(), 1))
    }

    /// Shift right by STRIDE bits (one cell vertically).
    pub fn shr_stride(&self) -> (r: Self)
        ensures
            forall|i: int| 0 <= i < 256 ==> #[trigger] r.bit(i) == self.bit(i + 15),
    {
        Self::of(bits::shr(&self.arr(), 15))
    }

    /// Shift left by STRIDE bits (one cell vertically).
    pub fn shl_stride(&self) -> (r: Self)
        ensures
            forall|i: int| 0 <= i < 256 ==> #[trigger] r.bit(i) == (i >= 15 && self.bit(i - 15)),
    {
        Self::of(bits::shl(&self.arr(), 15))
    }

    /// Shift left by `n` bits. Bits shifted beyond 256 are lost.
    pub fn shl(&self, n: u32) -> (r: Self)
        ensures
            forall|i: int| 0 <= i < 256 ==> #[trigger] r.bit(i) == (i >= n && self.bit(i - n)),
    {
        Self::of(bits::shl(&self.arr(), n))
    }

    /// Shift right by `n` bits. Bits shifted below 0 are lost.
    pub fn shr(&self, n: u32) -> (r: Self)
        ensures
            forall|i: int| 0 <= i < 256 ==> #[trigger] r.bit(i) == self.bit(i + n),
    {
        Self::of(bits::shr(&self.arr(), n))
    }

    /// Bitwise AND.
    pub fn and(&self, other: &Bitboard) -> (r: Self)
        ensures
            r@ == [self@[0] & other@[0], self@[1] & other@[1], self@[2] & other@[2], self@[3]
                & other@[3]],
            forall|i: int| 0 <= i < 256 ==> #[trigger] r.bit(i) == (self.bit(i) && other.bit(i)),
    {
        Self::of(bits::and(&self.arr(), &other.arr()))
    }

    /// Bitwise OR.
    pub fn or(&self, other: &Bitboard) -> (r: Self)
        ensures
            r@ == [self@[0] | other@[0], self@[1] | other@[1], self@[2] | other@[2], self@[3]
                | other@[3]],
            forall|i: int| 0 <= i < 256 ==> #[trigger] r.bit(i) == (self.bit(i) || other.bit(i)),
    {
        Self::of(bits::or(&self.arr(), &other.arr()))
    }

    /// Bitwise XOR.
    pub fn xor(&self, other: &Bitboard) -> (r: Self)
        ensures
            r@ == [self@[0] ^ other@[0], self@[1] ^ other@[1], self@[2] ^ other@[2], self@[3]
                ^ other@[3]],
            forall|i: int| 0 <= i < 256 ==> #[trigger] r.bit(i) == (self.bit(i) != other.bit(i)),
    {
        Self::of(bits::xor(&self.arr(), &other.arr()))
    }

    /// Bitwise NOT (inverts all 256 bits).
    pub fn not(&self) -> (r: Self)
        ensures
            r@ == [!self@[0], !self@[1], !self@[2], !self@[3]],
            forall|i: int| 0 <= i < 256 ==> #[trigger] r.bit(i) == !self.bit(i),
    {
        Self::of(bits::not(&self.arr()))
    }
}

impl Default for Bitboard {
    fn default() -> (r: Self)
        ensures
            r@ == bits::zero(),
    {
        Bitboard::zero()
    }
}

impl BitAndSpecImpl for Bitboard {
    open spec fn obeys_bitand_spec() -> bool {
        true
    }

    open spec fn bitand_req(self, rhs: Bitboard) -> bool {
        true
    }

    open spec fn bitand_spec(self, rhs: Bitboard) -> Bitboard {
        Bitboard::from_limbs(
            [self@[0] & rhs@[0], self@[1] & rhs@[1], self@[2] & rhs@[2], self@[3] & rhs@[3]],
        )
    }
}

impl std::ops::BitAnd for Bitboard {
    type Output = Self;

    fn bitand(self, rhs: Self) -> (r: Self)
        ensures
            forall|i: int| 0 <= i < 256 ==> #[trigger] r.bit(i) == (self.bit(i) && rhs.bit(i)),
    {
        let r = self.and(&rhs);
        proof {
            Bitboard::lemma_from_limbs(r@);
        }
        r
    }
}

impl BitOrSpecImpl for Bitboard {
    open spec fn obeys_bitor_spec() -> bool {
        true
    }

    open spec fn bitor_req(self, rhs: Bitboard) -> bool {
        true
    }

    open spec fn bitor_spec(self, rhs: Bitboard) -> Bitboard {
        Bitboard::from_limbs(
            [self@[0] | rhs@[0], self@[1] | rhs@[1], self@[2] | rhs@[2], self@[3] | rhs@[3]],
        )
    }
}

impl std::ops::BitOr for Bitboard {
    type Output = Self;

    fn bitor(self, rhs: Self) -> (r: Self)
        ensures
            forall|i: int| 0 <= i < 256 ==> #[trigger] r.bit(i) == (self.bit(i) || rhs.bit(i)),
    {
        let r = self.or(&rhs);
        proof {
            Bitboard::lemma_from_limbs(r@);
        }
        r
    }
}

impl BitXorSpecImpl for Bitboard {
    open spec fn obeys_bitxor_spec() -> bool {
        true
    }

    open spec fn bitxor_req(self, rhs: Bitboard) -> bool {
        true
    }

    open spec fn bitxor_spec(self, rhs: Bitboard) -> Bitboard {
        Bitboard::from_limbs(
            [self@[0] ^ rhs@[0], self@[1] ^ rhs@[1], self@[2] ^ rhs@[2], self@[3] ^ rhs@[3]],
        )
    }
}

impl std::ops::BitXor for Bitboard {
    type Output = Self;

    fn bitxor(self, rhs: Self) -> (r: Self)
        ensures
            forall|i: int| 0 <= i < 256 ==> #[trigger] r.bit(i) == (self.bit(i) != rhs.bit(i)),
    {
        let r = self.xor(&rhs);
        proof {
            Bitboard::lemma_from_limbs(r@);
        }
        r
    }
}

impl NotSpecImpl for Bitboard {
    open spec fn obeys_not_spec() -> bool {
        true
    }

    open spec fn not_req(self) -> bool {
        true
    }

    open spec fn not_spec(self) -> Bitboard {
        Bitboard::from_limbs([!self@[0], !self@[1], !self@[2], !self@[3]])
    }
}

impl std::ops::Not for Bitboard {
    type Output = Self;

    fn not(self) -> (r: Self)
        ensures
            forall|i: int| 0 <= i < 256 ==> #[trigger] r.bit(i) == !self.bit(i),
    {
        let r = Bitboard::not(&self);
        proof {
            Bitboard::lemma_from_limbs(r@);
        }
        r
    }
}

impl ShlSpecImpl<u32> for Bitboard {
    open spec fn obeys_shl_spec() -> bool {
        true
    }

    open spec fn shl_req(self, n: u32) -> bool {
        true
    }

    open spec fn shl_spec(self, n: u32) -> Bitboard {
        self.shifted_left(n)
    }
}

impl std::ops::Shl<u32> for Bitboard {
    type Output = Self;

    fn shl(self, n: u32) -> (r: Self)
        ensures
            forall|i: int| 0 <= i < 256 ==> #[trigger] r.bit(i) == (i >= n && self.bit(i - n)),
    {
        let r = Bitboard::shl(&self, n);
        proof {
            assert(Bitboard::is_shifted_left(r, self, n));
            let c = self.shifted_left(n);
            assert(Bitboard::is_shifted_left(c, self, n));
            Bitboard::lemma_bits_ext(r, c);
        }
        r
    }
}

impl ShrSpecImpl<u32> for Bitboard {
    open spec fn obeys_shr_spec() -> bool {
        true
    }

    open spec fn shr_req(self, n: u32) -> bool {
        true
    }

    open spec fn shr_spec(self, n: u32) -> Bitboard {
        self.shifted_right(n)
    }
}

impl std::ops::Shr<u32> for Bitboard {
    type Output = Self;

    fn shr(self, n: u32) -> (r: Self)
        ensures
            forall|i: int| 0 <= i < 256 ==> #[trigger] r.bit(i) == self.bit(i + n),
    {
        let r = Bitboard::shr(&self, n);
        proof {
            assert(Bitboard::is_shifted_right(r, self, n));
            let c = self.shifted_right(n);
            assert(Bitboard::is_shifted_right(c, self, n));
            Bitboard::lemma_bits_ext(r, c);
        }
        r
    }
}

impl std::ops::BitAndAssign for Bitboard {
    fn bitand_assign(&mut self, rhs: Self)
        ensures
            forall|i: int|
                0 <= i < 256 ==> #[trigger] final(self).bit(i) == (old(self).bit(i) && rhs.bit(i)),
    {
        *self = self.and(&rhs);
    }
}

impl std::ops::BitOrAssign for Bitboard {
    fn bitor_assign(&mut self, rhs: Self)
        ensures
            forall|i: int|
                0 <= i < 256 ==> #[trigger] final(self).bit(i) == (old(self).bit(i) || rhs.bit(i)),
    {
        *self = self.or(&rhs);
    }
}

impl std::ops::BitXorAssign for Bitboard {
    fn bitxor_assign(&mut self, rhs: Self)
        ensures
            forall|i: int|
                0 <= i < 256 ==> #[trigger] final(self).bit(i) == (old(self).bit(i) != rhs.bit(i)),
    {
        *self = self.xor(&rhs);
    }
}

} // verus!
