use packed_vec::bitvec::BitVec;
use packed_vec::bitvec::{BITS, SHIFT_WIDTH};

#[test]
fn test_idx_to_pos() {
    assert_eq!(BitVec::idx_to_pos(0), 0);
    assert_eq!(BitVec::idx_to_pos(63), 0);
    assert_eq!(BitVec::idx_to_pos(64), 1);
}

#[test]
fn test_push() {
    let mut bv = BitVec::with_capacity(10);
    bv.push_true();
    bv.push_false();
    bv.push_true();
    assert_eq!(bv.get(0), true);
    assert_eq!(bv.get(1), false);
    assert_eq!(bv.get(2), true);
}

#[test]
fn test_across_edge() {
    let mut x = BitVec::with_capacity(0);
    for j in 0..2 {
        for i in 0..64 {
            x.push((i + j) % 2 == 0);
        }
    }
    for j in 0..2 {
        for i in 0..64 {
            assert_eq!(x.get(i + j * 64), (i + j) % 2 == 0);
        }
    }
}

#[test]
fn word_constants() {
    assert_eq!(BITS, 64);
    assert_eq!(SHIFT_WIDTH, 6);
    assert_eq!(1usize << SHIFT_WIDTH, BITS);
}

#[test]
fn idx_to_pos_at_later_boundaries() {
    assert_eq!(BitVec::idx_to_pos(127), 1);
    assert_eq!(BitVec::idx_to_pos(128), 2);
    assert_eq!(BitVec::idx_to_pos(6400), 100);
    assert_eq!(BitVec::idx_to_pos(usize::MAX), usize::MAX / 64);
}

#[test]
fn get_mask_is_one_bit() {
    assert_eq!(BitVec::get_mask(0), 1);
    assert_eq!(BitVec::get_mask(1), 2);
    assert_eq!(BitVec::get_mask(5), 32);
    assert_eq!(BitVec::get_mask(63), 0x8000_0000_0000_0000);
    assert_eq!(BitVec::get_mask(64), 1);
    assert_eq!(BitVec::get_mask(65), 2);
    assert_eq!(BitVec::get_mask(127), 0x8000_0000_0000_0000);
    assert_eq!(BitVec::get_mask(usize::MAX), 0x8000_0000_0000_0000);
}

#[test]
fn get_mask_has_one_bit_for_every_position() {
    for i in 0..256usize {
        let mask: u64 = BitVec::get_mask(i);
        assert_eq!(mask.count_ones(), 1);
        assert_eq!(mask.trailing_zeros() as usize, i % 64);
    }
}

fn pattern(i: usize) -> bool {
    i % 3 == 0 || i % 7 == 2
}

#[test]
fn each_push_reads_back_at_once() {
    let mut bv = BitVec::with_capacity(0);
    for i in 0..300usize {
        bv.push(pattern(i));
        assert_eq!(bv.get(i), pattern(i));
    }
}

#[test]
fn a_push_leaves_earlier_elements() {
    let mut bv = BitVec::with_capacity(0);
    for i in 0..200usize {
        bv.push(pattern(i));
        for k in 0..=i {
            assert_eq!(bv.get(k), pattern(k));
        }
    }
}

#[test]
fn pattern_survives_two_word_boundaries() {
    let mut bv = BitVec::with_capacity(4);
    for i in 0..200usize {
        bv.push(pattern(i));
    }
    for i in 0..200usize {
        assert_eq!(bv.get(i), pattern(i));
    }
    assert_eq!(bv.get(63), true);
    assert_eq!(bv.get(64), false);
    assert_eq!(bv.get(65), true);
    assert_eq!(bv.get(127), false);
    assert_eq!(bv.get(128), true);
    assert_eq!(bv.get(129), true);
}

#[test]
fn all_true_then_all_false() {
    let mut bv = BitVec::with_capacity(0);
    for _ in 0..130 {
        bv.push_true();
    }
    for _ in 0..130 {
        bv.push_false();
    }
    for i in 0..130usize {
        assert!(bv.get(i));
    }
    for i in 130..260usize {
        assert!(!bv.get(i));
    }
}

#[test]
fn push_false_sets_nothing_beside_a_set_bit() {
    let mut bv = BitVec::with_capacity(0);
    for _ in 0..63 {
        bv.push_true();
    }
    bv.push_false();
    bv.push_false();
    bv.push_true();
    assert_eq!(bv.get(62), true);
    assert_eq!(bv.get(63), false);
    assert_eq!(bv.get(64), false);
    assert_eq!(bv.get(65), true);
}

#[test]
fn capacity_hint_changes_nothing() {
    for cap in [0usize, 1, 63, 64, 65, 1000] {
        let mut bv = BitVec::with_capacity(cap);
        for i in 0..150usize {
            bv.push(pattern(i));
        }
        for i in 0..150usize {
            assert_eq!(bv.get(i), pattern(i));
        }
    }
}

#[test]
fn push_agrees_with_push_true_and_push_false() {
    let mut a = BitVec::with_capacity(0);
    let mut b = BitVec::with_capacity(0);
    for i in 0..140usize {
        a.push(pattern(i));
        if pattern(i) {
            b.push_true();
        } else {
            b.push_false();
        }
    }
    for i in 0..140usize {
        assert_eq!(a.get(i), b.get(i));
    }
}

#[test]
fn len_counts_pushes() {
    let mut bv = BitVec::with_capacity(100);
    assert_eq!(bv.len(), 0);
    for i in 0..130usize {
        bv.push(pattern(i));
        assert_eq!(bv.len(), i + 1);
    }
    bv.push_true();
    bv.push_false();
    assert_eq!(bv.len(), 132);
}
