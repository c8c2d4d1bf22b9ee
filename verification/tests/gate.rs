use qsv_core::gate::{controlled_1q, swap, DenseGate};

fn x_gate() -> DenseGate<f64> {
    DenseGate::new(1, vec![0.0, 1.0, 1.0, 0.0])
}

#[test]
fn cx_permutes_basis_correctly() {
    // Internal index = bit_c + 2*bit_t. CX flips target iff control==1:
    // 0(c0t0)->0, 1(c1t0)->3(c1t1), 2(c0t1)->2, 3(c1t1)->1(c1t0).
    let g = controlled_1q(&x_gate(), 0.0, 1.0);
    let expect = [0usize, 3, 2, 1];
    for (col, &exp_row) in expect.iter().enumerate() {
        for row in 0..4 {
            let want = if row == exp_row { 1.0 } else { 0.0 };
            assert_eq!(g.at(row, col), want, "row {row} col {col}");
        }
    }
}

#[test]
fn controlled_gate_keeps_control_zero_block_identity() {
    // u = [[a, b], [c, d]] lands on the odd rows/columns; the even block is the identity.
    let u = DenseGate::new(1, vec![2, 3, 5, 7]);
    let g = controlled_1q(&u, 0, 1);
    assert_eq!(g.n_qubits(), 2);
    assert_eq!(g.dim(), 4);
    let expect = [[1, 0, 0, 0], [0, 2, 0, 3], [0, 0, 1, 0], [0, 5, 0, 7]];
    for r in 0..4 {
        for c in 0..4 {
            assert_eq!(g.at(r, c), expect[r][c]);
        }
    }
}

#[test]
fn swap_exchanges_the_middle_states() {
    let g = swap(0u8, 1u8);
    let expect = [[1, 0, 0, 0], [0, 0, 1, 0], [0, 1, 0, 0], [0, 0, 0, 1]];
    for r in 0..4 {
        for c in 0..4 {
            assert_eq!(g.at(r, c), expect[r][c]);
        }
    }
    assert_eq!(g.row_major().len(), 16);
}

#[test]
fn dense_gate_is_row_major() {
    let g = DenseGate::new(1, vec!['a', 'b', 'c', 'd']);
    assert_eq!(g.at(0, 1), 'b');
    assert_eq!(g.at(1, 0), 'c');
    assert_eq!(g.row_major(), &['a', 'b', 'c', 'd']);
}

#[test]
fn diagonal_means_zero_off_the_diagonal() {
    let is_zero = |e: i32| e == 0;
    assert!(DenseGate::new(1, vec![5, 0, 0, -3]).is_diagonal(&is_zero));
    assert!(!DenseGate::new(1, vec![5, 0, 1, -3]).is_diagonal(&is_zero));
    assert!(!controlled_1q(&DenseGate::new(1, vec![0, 1, 1, 0]), 0, 1).is_diagonal(&is_zero));
    assert!(controlled_1q(&DenseGate::new(1, vec![1, 0, 0, -1]), 0, 1).is_diagonal(&is_zero));
    assert!(!swap(0, 1).is_diagonal(&is_zero));
    // Zero on the diagonal is still diagonal.
    assert!(DenseGate::new(1, vec![0, 0, 0, 0]).is_diagonal(&is_zero));
}
