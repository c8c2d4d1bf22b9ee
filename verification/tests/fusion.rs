use qsv_core::circuit::Circuit;
use qsv_core::compose::build_fused;
use qsv_core::fusion::{fuse, gather_local, local_positions, plan_fusion, set_local, try_fuse, FusionConfig};
use qsv_core::gate::DenseGate;

fn g1() -> DenseGate<i64> {
    DenseGate::new(1, vec![0; 4])
}

fn g2() -> DenseGate<i64> {
    DenseGate::new(2, vec![0; 16])
}

fn fma(acc: i64, e: i64, x: i64) -> i64 {
    acc + e * x
}

fn is_zero(e: i64) -> bool {
    e == 0
}

/// Fuse an integer circuit (exact arithmetic).
fn fuse_int(c: &Circuit<i64>, cfg: &FusionConfig) -> Circuit<i64> {
    fuse(c, cfg, 0, 1, &fma, &is_zero)
}

/// The qubit structure of the n-qubit QFT: H(j), controlled phases on (k, j), final swaps.
fn qft_shape(n: u32) -> Circuit<i64> {
    let mut c = Circuit::new(n);
    for j in 0..n {
        c.push(g1(), &[j]);
        for k in (j + 1)..n {
            c.push(g2(), &[k, j]);
        }
    }
    for j in 0..(n / 2) {
        c.push(g2(), &[j, n - 1 - j]);
    }
    c
}

#[test]
fn fusion_reduces_gate_count_on_qft() {
    let c = qft_shape(6);
    let fused = fuse_int(&c, &FusionConfig::default());
    assert!(
        fused.ops().len() < c.ops().len(),
        "fusion should reduce passes: {} -> {}",
        c.ops().len(),
        fused.ops().len()
    );
    assert_eq!(plan_fusion(&c, &FusionConfig::default()).len(), fused.ops().len());
}

#[test]
fn single_gate_groups_pass_through() {
    // A circuit of gates on disjoint, far-apart qubits with max=1 fuses nothing.
    let mut c = Circuit::<i64>::new(4);
    c.push(g1(), &[0]).push(g1(), &[2]);
    let fused = fuse_int(&c, &FusionConfig { max_qubits: 1 });
    assert_eq!(fused.ops().len(), 2);
}

#[test]
fn greedy_plan_groups_consecutive_gates() {
    // ops on [0], [1], [0,1], [2], [3,4], [0] with a cap of 2 qubits.
    let mut c = Circuit::<i64>::new(5);
    c.push(g1(), &[0])
        .push(g1(), &[1])
        .push(g2(), &[0, 1])
        .push(g1(), &[2])
        .push(g2(), &[4, 3])
        .push(g1(), &[0]);
    let plan = plan_fusion(&c, &FusionConfig { max_qubits: 2 });
    let got: Vec<(usize, usize, Vec<u32>)> =
        plan.iter().map(|g| (g.start, g.count, g.qubits.clone())).collect();
    assert_eq!(
        got,
        vec![
            (0, 3, vec![0, 1]),
            (3, 1, vec![2]),
            (4, 1, vec![4, 3]),
            (5, 1, vec![0]),
        ]
    );
}

#[test]
fn wide_gate_stands_alone_and_cap_zero_means_one() {
    let mut c = Circuit::<i64>::new(3);
    c.push(g1(), &[0]).push(g1(), &[0]).push(g2(), &[1, 2]).push(g1(), &[2]);
    let plan = plan_fusion(&c, &FusionConfig { max_qubits: 0 });
    let got: Vec<(usize, usize, Vec<u32>)> =
        plan.iter().map(|g| (g.start, g.count, g.qubits.clone())).collect();
    assert_eq!(got, vec![(0, 2, vec![0]), (2, 1, vec![1, 2]), (3, 1, vec![2])]);
    let empty = Circuit::<i64>::new(3);
    assert!(plan_fusion(&empty, &FusionConfig::default()).is_empty());
}

#[test]
fn default_fusion_cap_is_four() {
    assert_eq!(FusionConfig::default().max_qubits, 4);
}

#[test]
fn local_index_helpers() {
    // bits 1 and 3 of 0b1010 are both set.
    assert_eq!(gather_local(0b1010, &[1, 3]), 0b11);
    assert_eq!(gather_local(0b1010, &[3, 0]), 0b01);
    // set bit 3 from sub bit 1, clear bit 1 from sub bit 0; other bits kept.
    assert_eq!(set_local(0b1_0110, &[1, 3], 0b10), 0b1_1100);
    for sub in 0..4usize {
        assert_eq!(gather_local(set_local(0b101, &[4, 1], sub), &[4, 1]), sub);
    }
    assert_eq!(local_positions(&[5, 2], &[2, 5, 7]), vec![1, 0]);
}

/// `a · b` for row-major `d × d` matrices.
fn matmul(a: &[i64], b: &[i64], d: usize) -> Vec<i64> {
    let mut out = vec![0; d * d];
    for r in 0..d {
        for c in 0..d {
            out[r * d + c] = (0..d).map(|k| a[r * d + k] * b[k * d + c]).sum();
        }
    }
    out
}

#[test]
fn fused_matrix_is_the_product_of_embedded_gates() {
    // A on qubit 0, then B on qubit 1, then C on (1, 0): one group on qubits [0, 1].
    let a = [1i64, 2, 3, 4];
    let b = [5i64, 6, 7, 8];
    let cm: Vec<i64> = (1..=16).collect();
    let mut c = Circuit::<i64>::new(2);
    c.push(DenseGate::new(1, a.to_vec()), &[0])
        .push(DenseGate::new(1, b.to_vec()), &[1])
        .push(DenseGate::new(2, cm.clone()), &[1, 0]);
    let fused = fuse_int(&c, &FusionConfig { max_qubits: 2 });
    assert_eq!(fused.ops().len(), 1);
    assert_eq!(fused.ops()[0].qubits(), &[0, 1]);
    // Embedded matrices in the group's index (bit 0 = qubit 0, bit 1 = qubit 1).
    let mut ea = vec![0i64; 16];
    let mut eb = vec![0i64; 16];
    let mut ec = vec![0i64; 16];
    for r in 0..4usize {
        for col in 0..4usize {
            if r >> 1 == col >> 1 {
                ea[r * 4 + col] = a[(r & 1) * 2 + (col & 1)];
            }
            if r & 1 == col & 1 {
                eb[r * 4 + col] = b[(r >> 1) * 2 + (col >> 1)];
            }
            // C lists qubit 1 first: its index bit 0 is group bit 1.
            let swap = |i: usize| ((i & 1) << 1) | (i >> 1);
            ec[r * 4 + col] = cm[swap(r) * 4 + swap(col)];
        }
    }
    let want = matmul(&ec, &matmul(&eb, &ea, 4), 4);
    assert_eq!(fused.ops()[0].gate().row_major(), want.as_slice());
}

#[test]
fn single_members_are_copied_unchanged() {
    let mut c = Circuit::<i64>::new(3);
    c.push(DenseGate::new(1, vec![1, 2, 3, 4]), &[0])
        .push(DenseGate::new(2, (0..16).collect()), &[2, 1]);
    let fused = fuse_int(&c, &FusionConfig { max_qubits: 1 });
    assert_eq!(fused.ops().len(), 2);
    assert_eq!(fused.n_qubits(), 3);
    for k in 0..2 {
        assert_eq!(fused.ops()[k].qubits(), c.ops()[k].qubits());
        assert_eq!(fused.ops()[k].gate().row_major(), c.ops()[k].gate().row_major());
    }
}

#[test]
fn build_fused_of_nothing_is_the_identity() {
    let c = Circuit::<i64>::new(2);
    let g = build_fused(&[3, 5], c.ops(), 0, 0, 0, 1, &fma, &is_zero);
    assert_eq!(g.n_qubits(), 2);
    let want: Vec<i64> = (0..16).map(|k| if k / 4 == k % 4 { 1 } else { 0 }).collect();
    assert_eq!(g.row_major(), want.as_slice());
}

#[test]
fn wide_cap_fuses_when_groups_stay_small() {
    let cfg = FusionConfig { max_qubits: 40 };
    let empty = Circuit::<i64>::new(40);
    let fused = try_fuse(&empty, &cfg, 0, 1, &fma, &is_zero).expect("nothing to merge");
    assert_eq!(fused.ops().len(), 0);
    assert_eq!(fused.n_qubits(), 40);
    // Two gates on qubits 0 and 39 merge into a 2-qubit gate.
    let mut c = Circuit::<i64>::new(40);
    c.push(DenseGate::new(1, vec![1, 2, 3, 4]), &[39]).push(DenseGate::new(1, vec![5, 6, 7, 8]), &[0]);
    let fused = try_fuse(&c, &cfg, 0, 1, &fma, &is_zero).expect("small group");
    assert_eq!(fused.ops().len(), 1);
    assert_eq!(fused.ops()[0].qubits(), &[0, 39]);
}

#[test]
fn too_wide_merged_group_is_refused() {
    let width = (usize::BITS / 2) as u32;
    let mut c = Circuit::<i64>::new(width + 2);
    for q in 0..width {
        c.push(g1(), &[q]);
    }
    let cfg = FusionConfig { max_qubits: width + 2 };
    assert!(try_fuse(&c, &cfg, 0, 1, &fma, &is_zero).is_none());
    // The plan itself is one merged group on all of them.
    let plan = plan_fusion(&c, &cfg);
    assert_eq!(plan.len(), 1);
    assert_eq!(plan[0].qubits.len(), width as usize);
}

#[test]
fn local_helpers_round_trip() {
    let local = [4usize, 1, 6];
    for x in [0usize, 0b101_0101, 0b111_1111, 0b1000_0010] {
        // Setting the sub-index an index has gives it back.
        assert_eq!(set_local(x, &local, gather_local(x, &local)), x);
        // Any sub-index reads back modulo 2^len.
        for sub in [0usize, 5, 7, 8, 13, 255] {
            assert_eq!(gather_local(set_local(x, &local, sub), &local), sub % 8);
        }
    }
}

#[test]
fn gather_after_set_at_full_width() {
    let local: Vec<usize> = (0..usize::BITS as usize).rev().collect();
    for &sub in &[0usize, 7, 0xdead_beef, usize::MAX] {
        let x = set_local(0x1234, &local, sub);
        assert_eq!(x, sub.reverse_bits());
        assert_eq!(gather_local(x, &local), sub);
    }
}
