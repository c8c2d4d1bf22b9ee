use qsv_core::backend::bitshift::BitShiftBackend;
use qsv_core::backend::cpu::{diag_chunk, mq_block_outputs, one_qubit_block, store_block, CpuBackend};
use qsv_core::layout::{insert_zero_bits, sorted_positions};
use rayon::iter::{IndexedParallelIterator, IntoParallelIterator, ParallelIterator};
use rayon::slice::ParallelSliceMut;
use qsv_core::backend::reference::RefBackend;
use qsv_core::backend::reshape::ReshapeBackend;
use qsv_core::backend::simd::SimdBackend;
use qsv_core::circuit::Circuit;
use qsv_core::circuits::SplitMix64;
use qsv_core::fusion::FusionConfig;
use qsv_core::gate::{controlled_1q, swap, DenseGate};
use qsv_core::state::StateVector;

// ---- complex numbers as (re, im) pairs, and the standard gates over them ----

type C = (f64, f64);
const ZERO: C = (0.0, 0.0);
const ONE: C = (1.0, 0.0);

fn cmul(a: C, b: C) -> C {
    (a.0 * b.0 - a.1 * b.1, a.0 * b.1 + a.1 * b.0)
}

fn gate1(e: [C; 4]) -> DenseGate<C> {
    DenseGate::new(1, e.to_vec())
}

fn h() -> DenseGate<C> {
    let s = std::f64::consts::FRAC_1_SQRT_2;
    gate1([(s, 0.0), (s, 0.0), (s, 0.0), (-s, 0.0)])
}
fn x() -> DenseGate<C> {
    gate1([ZERO, ONE, ONE, ZERO])
}
fn y() -> DenseGate<C> {
    gate1([ZERO, (0.0, -1.0), (0.0, 1.0), ZERO])
}
fn z() -> DenseGate<C> {
    gate1([ONE, ZERO, ZERO, (-1.0, 0.0)])
}
fn s_gate() -> DenseGate<C> {
    gate1([ONE, ZERO, ZERO, (0.0, 1.0)])
}
fn t_gate() -> DenseGate<C> {
    let r = std::f64::consts::FRAC_1_SQRT_2;
    gate1([ONE, ZERO, ZERO, (r, r)])
}
fn sx() -> DenseGate<C> {
    gate1([(0.5, 0.5), (0.5, -0.5), (0.5, -0.5), (0.5, 0.5)])
}
fn rx(theta: f64) -> DenseGate<C> {
    let (s, co) = (theta * 0.5).sin_cos();
    gate1([(co, 0.0), (0.0, -s), (0.0, -s), (co, 0.0)])
}
fn ry(theta: f64) -> DenseGate<C> {
    let (s, co) = (theta * 0.5).sin_cos();
    gate1([(co, 0.0), (-s, 0.0), (s, 0.0), (co, 0.0)])
}
fn rz(theta: f64) -> DenseGate<C> {
    let (s, co) = (theta * 0.5).sin_cos();
    gate1([(co, -s), ZERO, ZERO, (co, s)])
}
fn phase(lambda: f64) -> DenseGate<C> {
    let (s, co) = lambda.sin_cos();
    gate1([ONE, ZERO, ZERO, (co, s)])
}
fn cx() -> DenseGate<C> {
    controlled_1q(&x(), ZERO, ONE)
}
fn cz() -> DenseGate<C> {
    controlled_1q(&z(), ZERO, ONE)
}
fn cphase(lambda: f64) -> DenseGate<C> {
    controlled_1q(&phase(lambda), ZERO, ONE)
}
fn rzz(theta: f64) -> DenseGate<C> {
    let mut data = vec![ZERO; 16];
    for idx in 0..4usize {
        let parity = (idx & 1) ^ ((idx >> 1) & 1);
        let zz = if parity == 0 { 1.0 } else { -1.0 };
        let (s, co) = (-0.5 * theta * zz).sin_cos();
        data[idx * 4 + idx] = (co, s);
    }
    DenseGate::new(2, data)
}

/// Toffoli (CCX) on `qs = [c0, c1, t]`: swaps internal indices 3 and 7.
fn ccx_gate() -> DenseGate<C> {
    let mut data = vec![ZERO; 64];
    for i in 0..8usize {
        let target = match i {
            3 => 7,
            7 => 3,
            other => other,
        };
        data[i * 8 + target] = ONE;
    }
    DenseGate::new(3, data)
}

// ---- circuits ----

fn ghz(n: u32) -> Circuit<C> {
    qsv_core::circuits::ghz(n, &h(), &cx())
}

fn qft(n: u32) -> Circuit<C> {
    let cphase = |k: u32| cphase(std::f64::consts::PI / ((1u64 << k) as f64));
    qsv_core::circuits::qft(n, &h(), &cphase, &swap(ZERO, ONE))
}

fn random_circuit(n_qubits: u32, n_gates: usize, seed: u64) -> Circuit<C> {
    let angle = |draw: u64| ((draw >> 11) as f64 / ((1u64 << 53) as f64)) * std::f64::consts::TAU;
    let one_qubit = |kind: u64, draw: u64| match kind {
        0 => h(),
        1 => x(),
        2 => y(),
        3 => z(),
        4 => s_gate(),
        5 => t_gate(),
        6 => sx(),
        7 => rx(angle(draw)),
        8 => ry(angle(draw)),
        9 => rz(angle(draw)),
        _ => phase(angle(draw)),
    };
    let two_qubit = |kind: u64, draw: u64| match kind {
        0 => cx(),
        1 => cz(),
        2 => swap(ZERO, ONE),
        _ => rzz(angle(draw)),
    };
    qsv_core::circuits::random_circuit(n_qubits, n_gates, seed, &one_qubit, &two_qubit)
}

// ---- running a circuit: the kernels move amplitudes, these closures do the arithmetic ----

fn row_of(g: &DenseGate<C>) -> impl Fn(usize, &[f64], &[f64]) -> (f64, f64) + '_ {
    move |r: usize, cre: &[f64], cim: &[f64]| {
        let mut acc = ZERO;
        for c in 0..cre.len() {
            let p = cmul(g.at(r, c), (cre[c], cim[c]));
            acc = (acc.0 + p.0, acc.1 + p.1);
        }
        acc
    }
}

fn is_diagonal(g: &DenseGate<C>) -> bool {
    g.is_diagonal(&|e: C| e == ZERO)
}

#[derive(Clone, Copy)]
enum Engine {
    Reference,
    Reshape,
    BitShift,
    Cpu,
    /// The CPU kernels driven across rayon's pool, block by block (as the runner does).
    CpuThreaded,
}

/// Apply one gate with the CPU kernels split across rayon's pool.
fn apply_threaded(s: &mut StateVector<f64>, g: &DenseGate<C>, qs: &[u32]) {
    let row = row_of(g);
    let dim = s.dim();
    if is_diagonal(g) {
        let diag = |sub: usize, re: f64, im: f64| cmul(g.at(sub, sub), (re, im));
        let chunk = 1usize << 10;
        let (re, im) = s.parts_mut();
        re.par_chunks_mut(chunk)
            .zip(im.par_chunks_mut(chunk))
            .enumerate()
            .for_each(|(c, (rc, ic))| diag_chunk(c * chunk, rc, ic, &diag, qs));
    } else if qs.len() == 1 {
        let half = 1usize << qs[0];
        let (re, im) = s.parts_mut();
        re.par_chunks_mut(half << 1)
            .zip(im.par_chunks_mut(half << 1))
            .for_each(|(rb, ib)| one_qubit_block(rb, ib, 0, half, &row));
    } else {
        let n = s.n_qubits();
        let m = qs.len();
        let sorted = sorted_positions(qs);
        let outs: Vec<(Vec<f64>, Vec<f64>)> = {
            let (re, im) = (s.re(), s.im());
            (0..(dim >> m))
                .into_par_iter()
                .map(|o| mq_block_outputs(re, im, &row, qs, insert_zero_bits(o, &sorted), 1 << m, n))
                .collect()
        };
        let (re, im) = s.parts_mut();
        for (o, (ore, oim)) in outs.iter().enumerate() {
            store_block(re, im, qs, insert_zero_bits(o, &sorted), ore, oim, n);
        }
    }
}

fn run(engine: Engine, c: &Circuit<C>) -> StateVector<f64> {
    let mut s = StateVector::basis(c.n_qubits(), 0, 0.0, 1.0);
    for op in c.ops() {
        let g = op.gate();
        let qs = op.qubits();
        let row = row_of(g);
        match engine {
            Engine::Reference => RefBackend.apply(&mut s, &row, qs),
            Engine::Reshape => ReshapeBackend.apply(&mut s, &row, qs),
            Engine::BitShift => BitShiftBackend.apply(&mut s, &row, qs),
            Engine::CpuThreaded => apply_threaded(&mut s, g, qs),
            Engine::Cpu => {
                let diag = |sub: usize, re: f64, im: f64| cmul(g.at(sub, sub), (re, im));
                let is_zero = |e: C| e == ZERO;
                CpuBackend::serial().apply(&mut s, g, &row, &diag, &is_zero, qs);
            }
        }
    }
    s
}

fn amp(s: &StateVector<f64>, i: usize) -> C {
    s.amplitude(i)
}

fn norm_sqr(s: &StateVector<f64>) -> f64 {
    s.re().iter().zip(s.im()).map(|(r, i)| r * r + i * i).sum()
}

fn max_abs_diff(a: &StateVector<f64>, b: &StateVector<f64>) -> f64 {
    assert_eq!(a.dim(), b.dim());
    (0..a.dim())
        .map(|i| {
            let (x, y) = (amp(a, i), amp(b, i));
            ((x.0 - y.0).powi(2) + (x.1 - y.1).powi(2)).sqrt()
        })
        .fold(0.0, f64::max)
}

const TOL: f64 = 1e-12;
const DIFF_TOL: f64 = 1e-9;

fn close(a: C, re: f64, im: f64) -> bool {
    (a.0 - re).abs() < TOL && (a.1 - im).abs() < TOL
}

// ---- oracle scenarios ----

#[test]
fn bell_state() {
    // H(0); CX(0,1)  ->  (|00> + |11>)/√2
    let mut c = Circuit::<C>::new(2);
    c.push(h(), &[0]).push(cx(), &[0, 1]);
    let s = run(Engine::Reference, &c);
    let a = std::f64::consts::FRAC_1_SQRT_2;
    assert!(close(amp(&s, 0b00), a, 0.0));
    assert!(close(amp(&s, 0b01), 0.0, 0.0));
    assert!(close(amp(&s, 0b10), 0.0, 0.0));
    assert!(close(amp(&s, 0b11), a, 0.0));
    assert!((norm_sqr(&s) - 1.0).abs() < TOL);
}

#[test]
fn ghz_three_qubits() {
    // H(0); CX(0,1); CX(0,2)  ->  (|000> + |111>)/√2
    let mut c = Circuit::<C>::new(3);
    c.push(h(), &[0]).push(cx(), &[0, 1]).push(cx(), &[0, 2]);
    let s = run(Engine::Reference, &c);
    let a = std::f64::consts::FRAC_1_SQRT_2;
    assert!(close(amp(&s, 0b000), a, 0.0));
    assert!(close(amp(&s, 0b111), a, 0.0));
    for i in 1..7 {
        assert!(close(amp(&s, i), 0.0, 0.0), "amplitude {i} should vanish");
    }
}

#[test]
fn x_is_self_inverse_on_register() {
    // X(2) twice returns the original basis state on a 4-qubit register.
    let mut c = Circuit::<C>::new(4);
    c.push(x(), &[2]).push(x(), &[2]);
    let s = run(Engine::Reference, &c);
    assert!(close(amp(&s, 0), 1.0, 0.0));
    assert!((norm_sqr(&s) - 1.0).abs() < TOL);
}

#[test]
fn controlled_gate_leaves_control_zero_subspace_untouched() {
    // Start in |0...0>: control qubit 0 is |0>, so CX(0,1) must be a no-op.
    let mut c = Circuit::<C>::new(2);
    c.push(cx(), &[0, 1]);
    let s = run(Engine::Reference, &c);
    assert!(close(amp(&s, 0), 1.0, 0.0));
}

#[test]
fn single_qubit_rotation_matches_hand_calc() {
    // RX(π) on |0> = -i|1>.
    let mut c = Circuit::<C>::new(1);
    c.push(rx(std::f64::consts::PI), &[0]);
    let s = run(Engine::Reference, &c);
    assert!(close(amp(&s, 0), 0.0, 0.0));
    assert!(close(amp(&s, 1), 0.0, -1.0));
}

#[test]
fn norm_preserved_through_mixed_circuit() {
    let mut c = Circuit::<C>::new(4);
    c.push(h(), &[0])
        .push(rx(0.4), &[1])
        .push(ry(1.1), &[2])
        .push(cx(), &[0, 1])
        .push(cz(), &[1, 2])
        .push(rzz(0.7), &[2, 3])
        .push(swap(ZERO, ONE), &[0, 3])
        .push(t_gate(), &[2]);
    let s = run(Engine::Reference, &c);
    assert!((norm_sqr(&s) - 1.0).abs() < 1e-10, "norm = {}", norm_sqr(&s));
}

// ---- differential checks: every kernel reproduces the oracle ----

#[test]
fn reshape_and_bitshift_match_oracle_on_random_circuits() {
    for seed in 0..200u64 {
        let n = 3 + (seed % 6) as u32; // 3..=8 qubits
        let depth = 20 + (seed % 40) as usize;
        let c = random_circuit(n, depth, seed);

        let oracle = run(Engine::Reference, &c);
        let reshape = run(Engine::Reshape, &c);
        let bitshift = run(Engine::BitShift, &c);
        let cpu = run(Engine::Cpu, &c);

        assert!(
            max_abs_diff(&oracle, &reshape) < DIFF_TOL,
            "ReshapeBackend diverged from oracle (seed {seed}, n {n})"
        );
        assert!(
            max_abs_diff(&oracle, &bitshift) < DIFF_TOL,
            "BitShiftBackend diverged from oracle (seed {seed}, n {n})"
        );
        assert!(
            max_abs_diff(&oracle, &cpu) < DIFF_TOL,
            "CpuBackend::serial diverged from oracle (seed {seed}, n {n})"
        );
        assert!((norm_sqr(&bitshift) - 1.0).abs() < 1e-8);
    }
}

#[test]
fn bitshift_matches_oracle_at_ten_qubits() {
    for seed in 0..15u64 {
        let c = random_circuit(10, 80, 9000 + seed);
        let oracle = run(Engine::Reference, &c);
        let bitshift = run(Engine::BitShift, &c);
        assert!(max_abs_diff(&oracle, &bitshift) < DIFF_TOL, "seed {seed}");
    }
}

#[test]
fn cpu_threaded_matches_oracle_above_threshold() {
    for seed in 0..6u64 {
        let c = random_circuit(14, 60, 4242 + seed);
        let oracle = run(Engine::Reference, &c);
        let cpu_par = run(Engine::CpuThreaded, &c);
        let cpu = run(Engine::Cpu, &c);
        assert!(max_abs_diff(&oracle, &cpu_par) < DIFF_TOL, "threaded seed {seed}");
        assert!(max_abs_diff(&oracle, &cpu) < DIFF_TOL, "serial seed {seed}");
    }
}

#[test]
fn qft_produces_uniform_superposition_from_zero() {
    for &n in &[1u32, 2, 3, 5, 8] {
        let s = run(Engine::BitShift, &qft(n));
        let expect_prob = 1.0 / ((1usize << n) as f64);
        for i in 0..s.dim() {
            let a = amp(&s, i);
            assert!(
                (a.0 * a.0 + a.1 * a.1 - expect_prob).abs() < 1e-12,
                "QFT({n}) amplitude {i} not uniform"
            );
        }
    }
}

#[test]
fn qft_matches_oracle() {
    for &n in &[2u32, 3, 5, 8] {
        let c = qft(n);
        let oracle = run(Engine::Reference, &c);
        let bitshift = run(Engine::BitShift, &c);
        let reshape = run(Engine::Reshape, &c);
        let cpu = run(Engine::Cpu, &c);
        assert!(max_abs_diff(&oracle, &bitshift) < DIFF_TOL, "qft bitshift n {n}");
        assert!(max_abs_diff(&oracle, &reshape) < DIFF_TOL, "qft reshape n {n}");
        assert!(max_abs_diff(&oracle, &cpu) < DIFF_TOL, "qft cpu n {n}");
    }
}

#[test]
fn ghz_is_correct_on_bitshift() {
    let s = run(Engine::BitShift, &ghz(6));
    let a = std::f64::consts::FRAC_1_SQRT_2;
    assert!((amp(&s, 0).0 - a).abs() < 1e-12);
    assert!((amp(&s, s.dim() - 1).0 - a).abs() < 1e-12);
    for i in 1..(s.dim() - 1) {
        let v = amp(&s, i);
        assert!(v.0 * v.0 + v.1 * v.1 < 1e-24, "amplitude {i}");
    }
}

#[test]
fn three_qubit_gate_matches_oracle() {
    for (seed, qs) in [
        (1u64, [0u32, 1, 2]),
        (2, [2, 0, 4]),
        (3, [4, 3, 1]),
        (4, [5, 2, 0]),
    ] {
        let mut c = random_circuit(6, 40, seed);
        c.push(ccx_gate(), &qs);
        c.push(h(), &[0]).push(rx(0.9), &[3]);
        c.push(ccx_gate(), &[1, 4, 5]);

        let oracle = run(Engine::Reference, &c);
        let bitshift = run(Engine::BitShift, &c);
        let reshape = run(Engine::Reshape, &c);
        let cpu = run(Engine::Cpu, &c);
        let cpu_par = run(Engine::CpuThreaded, &c);
        assert!(max_abs_diff(&oracle, &cpu_par) < DIFF_TOL, "ccx threaded seed {seed}");
        assert!(max_abs_diff(&oracle, &bitshift) < DIFF_TOL, "ccx bitshift seed {seed}");
        assert!(max_abs_diff(&oracle, &reshape) < DIFF_TOL, "ccx reshape seed {seed}");
        assert!(max_abs_diff(&oracle, &cpu) < DIFF_TOL, "ccx cpu seed {seed}");
    }
}

// ---- kernel shapes on integer "amplitudes" ----

#[test]
fn pair_kernel_hands_each_pair_to_the_rows() {
    // Row r of the closure returns the column's r-th entry plus 100·r: a permutation-like
    // gate that records which pair each output came from.
    let row = |r: usize, cre: &[i64], cim: &[i64]| (cre[r] * 10 + r as i64, cim[r]);
    let mut s = StateVector::<i64>::zeros(3, 0);
    {
        let (re, _) = s.parts_mut();
        for (i, v) in re.iter_mut().enumerate() {
            *v = i as i64;
        }
    }
    BitShiftBackend::apply_1q(&mut s, &row, 1);
    // index j: row = bit 1 of j; column = (j with bit 1 clear, j with bit 1 set).
    let got: Vec<i64> = s.re().to_vec();
    assert_eq!(got, vec![0, 10, 21, 31, 40, 50, 61, 71]);
}

#[test]
fn diagonal_kernel_uses_sub_index() {
    let mut s = StateVector::<i64>::zeros(3, 1);
    let diag = |sub: usize, re: i64, im: i64| (re * (sub as i64 + 2), im);
    CpuBackend::parallel().apply_diagonal(&mut s, &diag, &[2, 0]);
    // sub-index = bit2 + 2·bit0.
    let got: Vec<i64> = s.re().to_vec();
    assert_eq!(got, vec![2, 4, 2, 4, 3, 5, 3, 5]);
}

#[test]
fn block_kernels_agree_on_integers() {
    // An integer "gate" that sums its column with row-dependent weights.
    let row = |r: usize, cre: &[i64], cim: &[i64]| {
        let mut a = 0i64;
        let mut b = 0i64;
        for (c, (x, y)) in cre.iter().zip(cim).enumerate() {
            a += (r as i64 + 1) * (c as i64 + 2) * x;
            b += (c as i64 + 1) * y - r as i64;
        }
        (a, b)
    };
    let init = || {
        let mut s = StateVector::<i64>::zeros(5, 0);
        let (re, im) = s.parts_mut();
        for i in 0..32 {
            re[i] = (i * i) as i64 % 7;
            im[i] = i as i64 - 9;
        }
        s
    };
    for qs in [vec![3u32, 1], vec![0, 4, 2], vec![2]] {
        let mut a = init();
        let mut b = init();
        let mut c = init();
        let mut d = init();
        RefBackend.apply(&mut a, &row, &qs);
        BitShiftBackend.apply(&mut b, &row, &qs);
        ReshapeBackend.apply(&mut c, &row, &qs);
        if qs.len() == 1 {
            CpuBackend::serial().apply_1q(&mut d, &row, qs[0]);
        } else {
            CpuBackend::serial().apply_mq(&mut d, &row, &qs);
        }
        assert_eq!(a.re(), b.re());
        assert_eq!(a.im(), b.im());
        assert_eq!(a.re(), c.re());
        assert_eq!(a.im(), c.im());
        assert_eq!(a.re(), d.re());
        assert_eq!(a.im(), d.im());
    }
}

#[test]
fn backend_flags() {
    assert!(CpuBackend::parallel().threaded());
    assert!(!CpuBackend::serial().threaded());
    assert!(CpuBackend::default().threaded());
    assert!(!SimdBackend::serial().inner().threaded());
    assert!(SimdBackend::default().inner().threaded());
}

// ---- generators and diagonal expectations ----

#[test]
fn generators_have_expected_shape() {
    assert_eq!(ghz(5).ops().len(), 5); // H + 4 CX
    assert_eq!(qft(4).n_qubits(), 4);
    assert_eq!(random_circuit(4, 30, 7).ops().len(), 30);
}

/// `Σ_i p_i · (-1)^popcount(i & mask)`, the sign decided by the library.
fn expectation_z(probs: &[f64], mask: usize) -> f64 {
    probs
        .iter()
        .enumerate()
        .map(|(i, &p)| if qsv_core::sample::even_parity(i, mask) { p } else { -p })
        .sum()
}

fn probabilities(s: &StateVector<f64>) -> Vec<f64> {
    s.re().iter().zip(s.im()).map(|(r, i)| r * r + i * i).collect()
}

#[test]
fn expectation_z_on_ghz() {
    let state = run(Engine::Cpu, &ghz(5));
    let p = probabilities(&state);
    // GHZ = (|0…0⟩+|1…1⟩)/√2: ⟨Z-string⟩ = +1 for even weight and 0 for odd weight.
    assert!(expectation_z(&p, 0b00001).abs() < 1e-9);
    assert!((expectation_z(&p, 0b00011) - 1.0).abs() < 1e-9);
    assert!((expectation_z(&p, 0b01111) - 1.0).abs() < 1e-9);
    assert!(expectation_z(&p, 0b11111).abs() < 1e-9);
}

#[test]
fn x_is_self_inverse_matrix() {
    // (X·X) = I, checked as matrix product.
    let g = x();
    for i in 0..2 {
        for j in 0..2 {
            let mut acc = ZERO;
            for k in 0..2 {
                let p = cmul(g.at(i, k), g.at(k, j));
                acc = (acc.0 + p.0, acc.1 + p.1);
            }
            let want = if i == j { 1.0 } else { 0.0 };
            assert!(acc.0 == want && acc.1 == 0.0);
        }
    }
}

#[test]
fn rz_is_diagonal_unit_modulus() {
    let g = rz(0.7);
    assert_eq!(g.at(0, 1), ZERO);
    assert_eq!(g.at(1, 0), ZERO);
    let n = |c: C| c.0 * c.0 + c.1 * c.1;
    assert!((n(g.at(0, 0)) - 1.0).abs() < 1e-12);
    assert!((n(g.at(1, 1)) - 1.0).abs() < 1e-12);
}

#[test]
fn fused_circuit_matches_unfused_state() {
    let fma = |acc: C, e: C, x: C| {
        let p = cmul(e, x);
        (acc.0 + p.0, acc.1 + p.1)
    };
    let is_zero = |e: C| e == ZERO;
    for seed in 0..4u64 {
        let c = random_circuit(6, 80, seed);
        for cap in 1..=4u32 {
            let fused = qsv_core::fusion::fuse(&c, &FusionConfig { max_qubits: cap }, ZERO, ONE, &fma, &is_zero);
            assert!(fused.ops().len() <= c.ops().len());
            let a = run(Engine::Reference, &c);
            let b = run(Engine::Reference, &fused);
            assert!(max_abs_diff(&a, &b) < DIFF_TOL, "seed {seed} cap {cap}");
        }
    }
    let q = qft(6);
    let fused = qsv_core::fusion::fuse(&q, &FusionConfig::default(), ZERO, ONE, &fma, &is_zero);
    assert!(fused.ops().len() < q.ops().len());
    assert!(max_abs_diff(&run(Engine::Cpu, &q), &run(Engine::BitShift, &fused)) < DIFF_TOL);
}

// ---- sampling through the library's alias table ----

fn sample(probs: &[f64], shots: usize, rng: &mut SplitMix64) -> Vec<usize> {
    let n = probs.len();
    let total: f64 = probs.iter().sum();
    let scale = if total > 0.0 { n as f64 / total } else { 0.0 };
    let scaled: Vec<f64> = probs.iter().map(|w| w * scale).collect();
    let table = qsv_core::sample::AliasTable::build(scaled, 1.0, &|p: f64| p < 1.0, &|l: f64, s: f64| (l + s) - 1.0);
    let unit = |rng: &mut SplitMix64| (rng.next_u64() >> 11) as f64 / ((1u64 << 53) as f64);
    (0..shots)
        .map(|_| {
            let i = ((unit(rng) * n as f64) as usize).min(n - 1);
            let accept = unit(rng) < table.prob(i);
            table.resolve(i, accept)
        })
        .collect()
}

#[test]
fn sample_ghz_yields_only_all_zero_or_all_one() {
    let state = run(Engine::Cpu, &ghz(6));
    let mut rng = SplitMix64::new(42);
    let shots = 50_000;
    let outcomes = sample(&probabilities(&state), shots, &mut rng);
    let (all0, all1) = (0usize, 0b111111usize);
    let mut c0 = 0;
    for o in &outcomes {
        assert!(*o == all0 || *o == all1, "GHZ produced forbidden outcome {o:#08b}");
        if *o == all0 {
            c0 += 1;
        }
    }
    let f0 = c0 as f64 / shots as f64;
    assert!((f0 - 0.5).abs() < 0.02, "GHZ |0…0⟩ fraction {f0} not ≈ 0.5");
}

#[test]
fn sample_histogram_matches_probabilities() {
    let state = run(Engine::Cpu, &qft(6)); // uniform superposition from |0…0⟩
    let probs = probabilities(&state);
    let mut rng = SplitMix64::new(7);
    let shots = 400_000;
    let mut counts = vec![0usize; probs.len()];
    for o in sample(&probs, shots, &mut rng) {
        counts[o] += 1;
    }
    for (i, &p) in probs.iter().enumerate() {
        let f = counts[i] as f64 / shots as f64;
        assert!((f - p).abs() < 0.01, "outcome {i}: sampled {f} vs prob {p}");
    }
}

#[test]
fn cpu_dispatch_picks_the_diagonal_pass() {
    // A diagonal gate goes through `diag` alone: a row closure that would give garbage is unused.
    let mut s = StateVector::<f64>::basis(3, 0b101, 0.0, 1.0);
    let g = rz(0.4);
    let bad_row = |_r: usize, _a: &[f64], _b: &[f64]| (f64::NAN, f64::NAN);
    let diag = |sub: usize, re: f64, im: f64| cmul(g.at(sub, sub), (re, im));
    let is_zero = |e: C| e == ZERO;
    CpuBackend::serial().apply(&mut s, &g, &bad_row, &diag, &is_zero, &[2]);
    let want = cmul(g.at(1, 1), (1.0, 0.0));
    assert_eq!(s.amplitude(0b101), want);
    // A non-diagonal gate goes through the rows.
    let mut t = StateVector::<f64>::basis(3, 0b101, 0.0, 1.0);
    let x = x();
    let bad_diag = |_s: usize, _re: f64, _im: f64| (f64::NAN, f64::NAN);
    CpuBackend::serial().apply(&mut t, &x, &row_of(&x), &bad_diag, &is_zero, &[1]);
    assert_eq!(t.amplitude(0b111), (1.0, 0.0));
    assert_eq!(t.amplitude(0b101), (0.0, 0.0));
}
