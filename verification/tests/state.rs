use qsv_core::state::StateVector;

#[test]
fn zeros_has_two_to_the_n_zero_amplitudes() {
    let s = StateVector::<i64>::zeros(3, 0);
    assert_eq!(s.n_qubits(), 3);
    assert_eq!(s.dim(), 8);
    assert!(s.re().iter().all(|&x| x == 0));
    assert!(s.im().iter().all(|&x| x == 0));
}

#[test]
fn basis_state_is_normalized_one_hot() {
    let s = StateVector::<f64>::basis(3, 5, 0.0, 1.0);
    assert_eq!(s.dim(), 8);
    assert_eq!(s.amplitude(5), (1.0, 0.0));
    for i in 0..8 {
        if i != 5 {
            assert_eq!(s.amplitude(i), (0.0, 0.0));
        }
    }
    let norm: f64 = s.re().iter().zip(s.im()).map(|(r, i)| r * r + i * i).sum();
    assert_eq!(norm, 1.0);
    let probs: Vec<f64> = s.re().iter().zip(s.im()).map(|(r, i)| r * r + i * i).collect();
    assert_eq!(probs.iter().filter(|&&p| p > 0.0).count(), 1);
}

#[test]
fn set_and_parts_mut_write_in_place() {
    let mut s = StateVector::<f64>::zeros(1, 0.0);
    s.set(0, 3.0, 0.0);
    s.set(1, 0.0, 4.0);
    assert_eq!(s.amplitude(0), (3.0, 0.0));
    assert_eq!(s.amplitude(1), (0.0, 4.0));
    {
        let (re, im) = s.parts_mut();
        re[1] = 2.0;
        im[0] = -1.0;
    }
    assert_eq!(s.amplitude(0), (3.0, -1.0));
    assert_eq!(s.amplitude(1), (2.0, 4.0));
    assert_eq!(s.n_qubits(), 1);
}
