use qsv_core::sample::even_parity;

/// `Σ_i p_i · (-1)^popcount(i & mask)`, the sign decided by the library.
fn expectation_z(probs: &[f64], mask: usize) -> f64 {
    probs.iter().enumerate().map(|(i, &p)| if even_parity(i, mask) { p } else { -p }).sum()
}

#[test]
fn expectation_z_basic() {
    // |00⟩: all Z expectations = +1.
    let p00 = [1.0f64, 0.0, 0.0, 0.0];
    assert!((expectation_z(&p00, 0b01) - 1.0).abs() < 1e-12);
    assert!((expectation_z(&p00, 0b11) - 1.0).abs() < 1e-12);
    // GHZ on 2 qubits: (|00⟩+|11⟩)/√2 → p = [0.5,0,0,0.5]. ⟨Z0⟩=0, ⟨Z0 Z1⟩=+1.
    let ghz = [0.5f64, 0.0, 0.0, 0.5];
    assert!(expectation_z(&ghz, 0b01).abs() < 1e-12);
    assert!((expectation_z(&ghz, 0b11) - 1.0).abs() < 1e-12);
}

#[test]
fn parity_counts_the_masked_ones() {
    assert!(even_parity(0, usize::MAX));
    assert!(even_parity(0b1011, 0));
    assert!(!even_parity(0b1011, 0b0001));
    assert!(even_parity(0b1011, 0b0011));
    assert!(!even_parity(0b1011, 0b1011));
    assert!(even_parity(0b1011, 0b1111_0100));
    assert!(!even_parity(usize::MAX, 1 << (usize::BITS - 1)));
    assert!(even_parity(usize::MAX, usize::MAX));
}

// ---- alias sampling: the table's buckets from the library, the draws in floating point ----

use qsv_core::circuits::SplitMix64;
use qsv_core::sample::AliasTable;

fn unit(rng: &mut SplitMix64) -> f64 {
    (rng.next_u64() >> 11) as f64 / ((1u64 << 53) as f64)
}

fn alias_table(weights: &[f64]) -> AliasTable<f64> {
    let n = weights.len();
    let total: f64 = weights.iter().sum();
    let scale = if total > 0.0 { n as f64 / total } else { 0.0 };
    let scaled: Vec<f64> = weights.iter().map(|w| w * scale).collect();
    AliasTable::build(scaled, 1.0, &|p: f64| p < 1.0, &|l: f64, s: f64| (l + s) - 1.0)
}

fn alias_sample(weights: &[f64], shots: usize, rng: &mut SplitMix64) -> Vec<usize> {
    let table = alias_table(weights);
    let n = table.len();
    (0..shots)
        .map(|_| {
            let i = ((unit(rng) * n as f64) as usize).min(n - 1);
            let accept = unit(rng) < table.prob(i);
            table.resolve(i, accept)
        })
        .collect()
}

#[test]
fn alias_histogram_matches_distribution() {
    // Distribution [0.1, 0.6, 0.0, 0.3].
    let w = [0.1f64, 0.6, 0.0, 0.3];
    let mut rng = SplitMix64::new(0xDEAD_BEEF);
    let shots = 400_000;
    let samples = alias_sample(&w, shots, &mut rng);
    let mut counts = [0usize; 4];
    for s in samples {
        counts[s] += 1;
    }
    assert_eq!(counts[2], 0, "zero-prob outcome must never appear");
    for (k, &p) in w.iter().enumerate() {
        let freq = counts[k] as f64 / shots as f64;
        assert!((freq - p).abs() < 0.01, "outcome {k}: freq {freq} vs p {p}");
    }
}

#[test]
fn alias_table_buckets() {
    // Scaled weights [0.4, 2.4, 0.0, 1.2]: buckets 0 and 2 are filled from the over-full ones.
    let t = alias_table(&[0.1, 0.6, 0.0, 0.3]);
    assert_eq!(t.len(), 4);
    assert!(!t.is_empty());
    // Vose, last in first out: 2 takes from 3, 3 (now 0.2) moves to small, 3 takes from 1,
    // 1 (now 1.6) stays large, 0 takes from 1, 1 (now 1.0) is left over.
    assert_eq!(t.resolve(2, false), 3);
    assert_eq!(t.resolve(3, false), 1);
    assert_eq!(t.resolve(0, false), 1);
    assert_eq!(t.prob(1), 1.0);
    assert_eq!(t.prob(2), 0.0);
    assert!((t.prob(0) - 0.4).abs() < 1e-12);
    for b in 0..4 {
        assert_eq!(t.resolve(b, true), b);
    }
}
