use qsv_core::layout::{
    extract_bit, flip_bit, gather_bits, insert_zero_bit, insert_zero_bits, qubit_mask,
    scatter_bits,
};

#[test]
fn insert_zero_bit_examples() {
    // Insert at bit 0: every bit shifts up, bit 0 becomes 0 → result is even, = 2*i.
    for i in 0..32usize {
        assert_eq!(insert_zero_bit(i, 0), i << 1);
    }
    // Insert at bit 2 into 0b1011 (=11): low 2 bits (0b11) stay, high bits (0b10) move up
    // → 0b1_0_011 = 0b10011 = 19.
    assert_eq!(insert_zero_bit(0b1011, 2), 0b10011);
    // The inserted position must read back as 0.
    for i in 0..64usize {
        for b in 0..6u32 {
            assert_eq!(extract_bit(insert_zero_bit(i, b), b), 0);
        }
    }
}

#[test]
fn pair_indices_differ_in_one_bit() {
    // For each i, a0/a1 must differ only in `bit` and be ordered a0 < a1.
    for bit in 0..5u32 {
        for i in 0..16usize {
            let a0 = insert_zero_bit(i, bit);
            let a1 = flip_bit(a0, bit);
            assert_eq!(a1, a0 + (1 << bit));
            assert_eq!(a0 ^ a1, 1 << bit);
        }
    }
}

#[test]
fn gather_scatter_roundtrip() {
    let qs = [0u32, 2, 5];
    for sub in 0..8usize {
        let full = scatter_bits(sub, &qs);
        assert_eq!(gather_bits(full, &qs), sub);
    }
    // gather picks exactly the named bits: index 0b100101, qs=[0,2,5] → bits {1,1,1}=0b111
    assert_eq!(gather_bits(0b100101, &qs), 0b111);
}

#[test]
fn insert_zero_bits_tiles_the_space() {
    // For N=4, a 2-qubit gate on positions {1,3}: the 2^(4-2)=4 base anchors, each
    // combined with the 2^2 sub-indices, must cover all 16 indices exactly once.
    let targets = [1u32, 3];
    let mut seen = [false; 16];
    for o in 0..4usize {
        let base = insert_zero_bits(o, &targets);
        assert_eq!(extract_bit(base, 1), 0);
        assert_eq!(extract_bit(base, 3), 0);
        for s in 0..4usize {
            let full = base | scatter_bits(s, &targets);
            assert!(!seen[full], "index {full} visited twice");
            seen[full] = true;
        }
    }
    assert!(seen.iter().all(|&b| b), "not all indices covered");
}

#[test]
fn insert_zero_bit_keeps_low_bits_and_shifts_high_bits() {
    // 0b1101_0110 with a gap at bit 4: low nibble 0110 stays, 1101 moves up one place.
    assert_eq!(insert_zero_bit(0b1101_0110, 4), 0b1_1010_0110);
    // Inserting above every set bit changes nothing.
    assert_eq!(insert_zero_bit(0b111, 10), 0b111);
}

#[test]
fn flip_and_extract_bit_values() {
    assert_eq!(flip_bit(0b1010, 1), 0b1000);
    assert_eq!(flip_bit(0b1010, 0), 0b1011);
    assert_eq!(extract_bit(0b1010, 3), 1);
    assert_eq!(extract_bit(0b1010, 2), 0);
}

#[test]
fn scatter_follows_qubit_order() {
    // Bit j of the sub-index goes to position qs[j], in the given (unsorted) order.
    assert_eq!(scatter_bits(0b01, &[4, 1]), 0b10000);
    assert_eq!(scatter_bits(0b10, &[4, 1]), 0b00010);
    assert_eq!(gather_bits(0b10010, &[4, 1]), 0b11);
    assert_eq!(gather_bits(0b10010, &[]), 0);
}

#[test]
fn insert_zero_bits_inserts_smallest_first() {
    // positions {0, 2}: index 0b11 → bits land at positions 1 and 3.
    assert_eq!(insert_zero_bits(0b11, &[0, 2]), 0b1010);
    assert_eq!(insert_zero_bits(0b101, &[]), 0b101);
}

#[test]
fn qubit_mask_sets_named_bits() {
    assert_eq!(qubit_mask(&[0, 3, 63]), 0b1001 | (1u64 << 63));
    assert_eq!(qubit_mask(&[]), 0);
}

#[test]
fn flip_bit_is_an_involution() {
    for i in [0usize, 1, 5, 0b1011_0110, usize::MAX] {
        for b in [0u32, 1, 3, 17, usize::BITS - 1] {
            assert_eq!(flip_bit(flip_bit(i, b), b), i);
        }
    }
}

#[test]
fn insert_zero_bits_keeps_order() {
    for q in 0..5u32 {
        let mut prev = None;
        for i in 0..64usize {
            let r = insert_zero_bit(i, q);
            if let Some(p) = prev {
                assert!(p < r);
            }
            prev = Some(r);
        }
    }
    let sorted = [1u32, 3, 4];
    let mut prev = None;
    for i in 0..32usize {
        let r = insert_zero_bits(i, &sorted);
        if let Some(p) = prev {
            assert!(p < r);
        }
        prev = Some(r);
    }
}

#[test]
fn scatter_of_gather_is_the_masked_index() {
    let qs = [5u32, 0, 3];
    let mask = qubit_mask(&qs) as usize;
    for i in 0..256usize {
        assert_eq!(scatter_bits(gather_bits(i, &qs), &qs), i & mask);
    }
}

#[test]
fn scatter_gather_round_trip_at_full_width() {
    // Every bit position of the word, in reverse order: gather reverses the word's bits.
    let qs: Vec<u32> = (0..usize::BITS).rev().collect();
    for &index in &[0usize, 1, 0b1011, usize::MAX, usize::MAX - 5, 1usize << (usize::BITS - 1)] {
        let g = gather_bits(index, &qs);
        assert_eq!(g, index.reverse_bits());
        assert_eq!(scatter_bits(g, &qs), index);
    }
}
