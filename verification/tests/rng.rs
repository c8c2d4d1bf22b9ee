use qsv_core::circuits::{random_circuit, SplitMix64};
use qsv_core::gate::DenseGate;

#[test]
fn splitmix_reference_outputs() {
    // Seed 0: the published first output of SplitMix64.
    let mut r = SplitMix64::new(0);
    assert_eq!(r.next_u64(), 0xE220_A839_7B1D_CDAF);
    // Seed 1234567: the first outputs of the reference implementation.
    let mut r = SplitMix64::new(1234567);
    assert_eq!(r.next_u64(), 6457827717110365317);
    assert_eq!(r.next_u64(), 3203168211198807973);
    assert_eq!(r.next_u64(), 9817491932198370423);
}

#[test]
fn splitmix_same_seed_same_stream() {
    let mut a = SplitMix64::new(42);
    let mut b = SplitMix64::new(42);
    for _ in 0..100 {
        assert_eq!(a.next_u64(), b.next_u64());
    }
    // A clone continues the same stream.
    let mut c = a.clone();
    assert_eq!(a.next_u64(), c.next_u64());
}

#[test]
fn splitmix_below_is_next_mod_n() {
    let mut a = SplitMix64::new(7);
    let mut b = SplitMix64::new(7);
    for n in 1..200u64 {
        let x = a.below(n);
        assert!(x < n);
        assert_eq!(x, b.next_u64() % n);
    }
    let mut c = SplitMix64::new(9);
    for _ in 0..50 {
        assert_eq!(c.below(1), 0);
    }
}

#[test]
fn rng_is_deterministic() {
    let mut a = SplitMix64::new(42);
    let mut b = SplitMix64::new(42);
    for _ in 0..100 {
        assert_eq!(a.next_u64(), b.next_u64());
    }
    // A unit draw is the top 53 bits of a draw, scaled into [0, 1).
    let mut r = SplitMix64::new(1);
    for _ in 0..1000 {
        let u = (r.next_u64() >> 11) as f64 / ((1u64 << 53) as f64);
        assert!((0.0..1.0).contains(&u));
    }
}

#[test]
fn random_circuit_draws_follow_the_stream() {
    // Gates labelled by their kind and angle draw, so the draws can be read back.
    let one = |kind: u64, draw: u64| DenseGate::new(1, vec![(kind, draw); 4]);
    let two = |kind: u64, draw: u64| DenseGate::new(2, vec![(100 + kind, draw); 16]);
    let c = random_circuit(5, 200, 99, &one, &two);
    assert_eq!(c.n_qubits(), 5);
    assert_eq!(c.ops().len(), 200);
    // Replay the stream by hand.
    let mut r = SplitMix64::new(99);
    for op in c.ops() {
        let q = r.below(5) as u32;
        let kind = r.below(15);
        let (label, qs) = if kind <= 10 {
            let draw = if kind >= 7 { r.next_u64() } else { 0 };
            ((kind, draw), vec![q])
        } else {
            let mut q2 = r.below(5) as u32;
            while q2 == q {
                q2 = r.below(5) as u32;
            }
            let kind2 = r.below(4);
            let draw = if kind2 == 3 { r.next_u64() } else { 0 };
            ((100 + kind2, draw), vec![q, q2])
        };
        assert_eq!(op.qubits(), qs.as_slice());
        assert_eq!(op.gate().at(0, 0), label);
    }
    // Same seed, same circuit.
    let again = random_circuit(5, 200, 99, &one, &two);
    for (a, b) in c.ops().iter().zip(again.ops()) {
        assert_eq!(a.qubits(), b.qubits());
        assert_eq!(a.gate().row_major(), b.gate().row_major());
    }
}

#[test]
fn ghz_and_qft_layouts() {
    let h = DenseGate::new(1, vec!['h'; 4]);
    let cx = DenseGate::new(2, vec!['x'; 16]);
    let swap = DenseGate::new(2, vec!['s'; 16]);
    let g = qsv_core::circuits::ghz(4, &h, &cx);
    let got: Vec<(char, Vec<u32>)> = g.ops().iter().map(|op| (op.gate().at(0, 0), op.qubits().to_vec())).collect();
    assert_eq!(got, vec![('h', vec![0]), ('x', vec![0, 1]), ('x', vec![0, 2]), ('x', vec![0, 3])]);
    // Phase gates labelled by k (as a digit).
    let cphase = |k: u32| DenseGate::new(2, vec![char::from_digit(k, 10).unwrap(); 16]);
    let q = qsv_core::circuits::qft(3, &h, &cphase, &swap);
    let got: Vec<(char, Vec<u32>)> = q.ops().iter().map(|op| (op.gate().at(0, 0), op.qubits().to_vec())).collect();
    assert_eq!(
        got,
        vec![
            ('h', vec![0]),
            ('1', vec![1, 0]),
            ('2', vec![2, 0]),
            ('h', vec![1]),
            ('1', vec![2, 1]),
            ('h', vec![2]),
            ('s', vec![0, 2]),
        ]
    );
    assert_eq!(q.n_qubits(), 3);
}
