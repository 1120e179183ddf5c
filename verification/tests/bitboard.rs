use shapeshifter::bitboard::Bitboard as LimbBoard;
use shapeshifter::model::bitboard::Bitboard;

#[test]
fn bitboard_test_zero() {
    let b = Bitboard::zero();
    assert!(b.is_zero());
    assert_eq!(b.count_ones(), 0);

    let b = LimbBoard::zero();
    assert!(b.is_zero());
    assert_eq!(b.count_ones(), 0);
}

#[test]
fn bitboard_test_from_bit() {
    let b = Bitboard::from_bit(0);
    assert!(b.get_bit(0));
    assert!(!b.get_bit(1));
    assert_eq!(b.count_ones(), 1);
    let b = Bitboard::from_bit(63);
    assert!(b.get_bit(63));
    assert_eq!(b.limbs()[0], 1u64 << 63);
    let b = Bitboard::from_bit(64);
    assert!(b.get_bit(64));
    assert_eq!(b.limbs()[1], 1);
    let b = Bitboard::from_bit(255);
    assert!(b.get_bit(255));
    assert_eq!(b.limbs()[3], 1u64 << 63);

    let b = LimbBoard::from_bit(0);
    assert!(b.get_bit(0));
    assert!(!b.get_bit(1));
    assert_eq!(b.count_ones(), 1);
    let b = LimbBoard::from_bit(63);
    assert!(b.get_bit(63));
    assert_eq!(b.limbs[0], 1u64 << 63);
    let b = LimbBoard::from_bit(64);
    assert!(b.get_bit(64));
    assert_eq!(b.limbs[1], 1);
    let b = LimbBoard::from_bit(255);
    assert!(b.get_bit(255));
    assert_eq!(b.limbs[3], 1u64 << 63);
}

#[test]
fn bitboard_test_set_clear_bit() {
    let mut b = Bitboard::zero();
    b.set_bit(100);
    assert!(b.get_bit(100));
    assert_eq!(b.count_ones(), 1);
    b.clear_bit(100);
    assert!(!b.get_bit(100));
    assert!(b.is_zero());

    let mut b = LimbBoard::zero();
    b.set_bit(100);
    assert!(b.get_bit(100));
    assert_eq!(b.count_ones(), 1);
    b.clear_bit(100);
    assert!(!b.get_bit(100));
    assert!(b.is_zero());
}

#[test]
fn bitboard_test_count_ones() {
    let mut b = Bitboard::zero();
    b.set_bit(0);
    b.set_bit(64);
    b.set_bit(128);
    b.set_bit(192);
    assert_eq!(b.count_ones(), 4);
    assert_eq!(b.count_ones_const(), 4);

    let mut b = LimbBoard::zero();
    b.set_bit(0);
    b.set_bit(64);
    b.set_bit(128);
    b.set_bit(192);
    assert_eq!(b.count_ones(), 4);
}

#[test]
fn bitboard_test_bitwise_ops() {
    let a = Bitboard::from_bit(10);
    let b = Bitboard::from_bit(20);
    let c = a | b;
    assert!(c.get_bit(10));
    assert!(c.get_bit(20));
    assert_eq!(c.count_ones(), 2);
    let d = c & a;
    assert!(d.get_bit(10));
    assert!(!d.get_bit(20));
    let e = a ^ a;
    assert!(e.is_zero());

    let a = LimbBoard::from_bit(10);
    let b = LimbBoard::from_bit(20);
    let c = a | b;
    assert!(c.get_bit(10));
    assert!(c.get_bit(20));
    assert_eq!(c.count_ones(), 2);
    let d = c & a;
    assert!(d.get_bit(10));
    assert!(!d.get_bit(20));
    let e = a ^ a;
    assert!(e.is_zero());
}

#[test]
fn bitboard_test_not() {
    let a = Bitboard::zero();
    let b = !a;
    assert_eq!(b.limbs(), [u64::MAX; 4]);
    let c = !b;
    assert!(c.is_zero());

    let a = LimbBoard::zero();
    let b = !a;
    assert_eq!(b.limbs, [u64::MAX; 4]);
    let c = !b;
    assert!(c.is_zero());
}

#[test]
fn bitboard_test_shl_small() {
    let a = Bitboard::from_bit(0);
    let b = a << 10;
    assert!(b.get_bit(10));
    assert_eq!(b.count_ones(), 1);

    let a = LimbBoard::from_bit(0);
    let b = a << 10;
    assert!(b.get_bit(10));
    assert_eq!(b.count_ones(), 1);
}

#[test]
fn bitboard_test_shl_cross_limb() {
    let a = Bitboard::from_bit(60);
    let b = a << 10;
    assert!(b.get_bit(70));
    assert_eq!(b.count_ones(), 1);

    let a = LimbBoard::from_bit(60);
    let b = a << 10;
    assert!(b.get_bit(70));
    assert_eq!(b.count_ones(), 1);
}

#[test]
fn bitboard_test_shl_full_limb() {
    let a = Bitboard::from_bit(0);
    let b = a << 64;
    assert!(b.get_bit(64));
    assert_eq!(b.count_ones(), 1);

    let a = LimbBoard::from_bit(0);
    let b = a << 64;
    assert!(b.get_bit(64));
    assert_eq!(b.count_ones(), 1);
}

#[test]
fn bitboard_test_shl_overflow() {
    let a = Bitboard::from_bit(200);
    let b = a << 100;
    assert!(b.is_zero());

    let a = LimbBoard::from_bit(200);
    let b = a << 100;
    assert!(b.is_zero());
}

#[test]
fn bitboard_test_shl_256() {
    let a = Bitboard::from_bit(0);
    let b = a << 256;
    assert!(b.is_zero());

    let a = LimbBoard::from_bit(0);
    let b = a << 256;
    assert!(b.is_zero());
}

#[test]
fn bitboard_test_shr_small() {
    let a = Bitboard::from_bit(10);
    let b = a >> 5;
    assert!(b.get_bit(5));
    assert_eq!(b.count_ones(), 1);

    let a = LimbBoard::from_bit(10);
    let b = a >> 5;
    assert!(b.get_bit(5));
    assert_eq!(b.count_ones(), 1);
}

#[test]
fn bitboard_test_shr_cross_limb() {
    let a = Bitboard::from_bit(70);
    let b = a >> 10;
    assert!(b.get_bit(60));
    assert_eq!(b.count_ones(), 1);

    let a = LimbBoard::from_bit(70);
    let b = a >> 10;
    assert!(b.get_bit(60));
    assert_eq!(b.count_ones(), 1);
}

#[test]
fn bitboard_test_shr_full_limb() {
    let a = Bitboard::from_bit(64);
    let b = a >> 64;
    assert!(b.get_bit(0));
    assert_eq!(b.count_ones(), 1);

    let a = LimbBoard::from_bit(64);
    let b = a >> 64;
    assert!(b.get_bit(0));
    assert_eq!(b.count_ones(), 1);
}

#[test]
fn bitboard_test_shr_underflow() {
    let a = Bitboard::from_bit(10);
    let b = a >> 20;
    assert!(b.is_zero());

    let a = LimbBoard::from_bit(10);
    let b = a >> 20;
    assert!(b.is_zero());
}

#[test]
fn bitboard_test_shl_multiple_bits() {
    let mut a = Bitboard::zero();
    a.set_bit(0);
    a.set_bit(1);
    a.set_bit(15);
    let b = a << 30;
    assert!(b.get_bit(30));
    assert!(b.get_bit(31));
    assert!(b.get_bit(45));
    assert_eq!(b.count_ones(), 3);

    let mut a = LimbBoard::zero();
    a.set_bit(0);
    a.set_bit(1);
    a.set_bit(15);
    let b = a << 30;
    assert!(b.get_bit(30));
    assert!(b.get_bit(31));
    assert!(b.get_bit(45));
    assert_eq!(b.count_ones(), 3);
}

#[test]
fn bitboard_test_assign_ops() {
    let mut a = Bitboard::from_bit(5);
    a |= Bitboard::from_bit(10);
    assert_eq!(a.count_ones(), 2);
    a &= Bitboard::from_bit(5);
    assert_eq!(a.count_ones(), 1);
    assert!(a.get_bit(5));
    a ^= Bitboard::from_bit(5);
    assert!(a.is_zero());

    let mut a = LimbBoard::from_bit(5);
    a |= LimbBoard::from_bit(10);
    assert_eq!(a.count_ones(), 2);
    a &= LimbBoard::from_bit(5);
    assert_eq!(a.count_ones(), 1);
    assert!(a.get_bit(5));
    a ^= LimbBoard::from_bit(5);
    assert!(a.is_zero());
}

#[test]
fn bitboard_test_equality() {
    let a = Bitboard::from_bit(42);
    let b = Bitboard::from_bit(42);
    let c = Bitboard::from_bit(43);
    assert_eq!(a, b);
    assert_ne!(a, c);

    let a = LimbBoard::from_bit(42);
    let b = LimbBoard::from_bit(42);
    let c = LimbBoard::from_bit(43);
    assert_eq!(a, b);
    assert_ne!(a, c);
}

#[test]
fn bitboard_test_board_index_convention() {
    let row = 3;
    let col = 7;
    let index = row * 15 + col;
    let b = Bitboard::from_bit(index);
    assert!(b.get_bit(index));
    assert_eq!(index, 52);

    let b = LimbBoard::from_bit(index);
    assert!(b.get_bit(index));
}

#[test]
fn bitboard_test_max_board_index() {
    let index = 13 * 15 + 13;
    assert_eq!(index, 208);
    let b = Bitboard::from_bit(index);
    assert!(b.get_bit(index));
    assert_eq!(b.count_ones(), 1);

    let b = LimbBoard::from_bit(index);
    assert!(b.get_bit(index));
    assert_eq!(b.count_ones(), 1);
}

#[test]
fn bitboard_test_shl_preserves_pattern() {
    let mut piece = Bitboard::zero();
    piece.set_bit(0);
    piece.set_bit(1);
    piece.set_bit(15);
    piece.set_bit(16);
    let offset = 2 * 15 + 3;
    let placed = piece << offset;
    assert!(placed.get_bit(2 * 15 + 3));
    assert!(placed.get_bit(2 * 15 + 4));
    assert!(placed.get_bit(3 * 15 + 3));
    assert!(placed.get_bit(3 * 15 + 4));
    assert_eq!(placed.count_ones(), 4);

    let mut piece = LimbBoard::zero();
    piece.set_bit(0);
    piece.set_bit(1);
    piece.set_bit(15);
    piece.set_bit(16);
    let placed = piece << offset;
    assert!(placed.get_bit(2 * 15 + 3));
    assert!(placed.get_bit(2 * 15 + 4));
    assert!(placed.get_bit(3 * 15 + 3));
    assert!(placed.get_bit(3 * 15 + 4));
    assert_eq!(placed.count_ones(), 4);
}

#[test]
fn bitboard_lowest_set_bit_per_limb() {
    assert_eq!(Bitboard::zero().lowest_set_bit(), 256);
    assert_eq!(Bitboard::from_bit(3).lowest_set_bit(), 3);
    assert_eq!(Bitboard::from_bit(130).lowest_set_bit(), 130);
    let b = Bitboard::from_bit(200) | Bitboard::from_bit(70);
    assert_eq!(b.lowest_set_bit(), 70);
    assert_eq!(LimbBoard::zero().lowest_set_bit(), 256);
    assert_eq!(LimbBoard::from_bit(255).lowest_set_bit(), 255);
}

#[test]
fn bitboard_unit_shifts_move_one_cell() {
    let b = Bitboard::from_bit(63);
    assert!(b.shl_1().get_bit(64));
    assert!(b.shr_1().get_bit(62));
    assert!(b.shl_stride().get_bit(78));
    assert!(b.shr_stride().get_bit(48));
    assert!(Bitboard::from_bit(10).shr_stride().is_zero());
    assert!(Bitboard::from_bit(255).shl_1().is_zero());
}

#[test]
fn bitboard_limbs_round_trip() {
    let limbs = [1u64, 2, 3, u64::MAX];
    assert_eq!(Bitboard::new(limbs).limbs(), limbs);
    assert_eq!(LimbBoard::new(limbs).limbs, limbs);
    assert_eq!(Bitboard::new(limbs).count_ones(), 1 + 1 + 2 + 64);
}
