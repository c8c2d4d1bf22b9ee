use qsv_core::circuit::{Circuit, OpError};
use qsv_core::gate::DenseGate;

fn one_qubit(tag: u8) -> DenseGate<u8> {
    DenseGate::new(1, vec![tag; 4])
}

fn two_qubit(tag: u8) -> DenseGate<u8> {
    DenseGate::new(2, vec![tag; 16])
}

#[test]
fn check_op_reports_arity_first() {
    let c = Circuit::<u8>::new(3);
    assert_eq!(
        c.check_op(&two_qubit(0), &[7]),
        Err(OpError::ArityMismatch { gate: 2, listed: 1 })
    );
}

#[test]
fn check_op_reports_first_out_of_range_qubit() {
    let c = Circuit::<u8>::new(3);
    assert_eq!(
        c.check_op(&two_qubit(0), &[5, 9]),
        Err(OpError::QubitOutOfRange { qubit: 5, n_qubits: 3 })
    );
    assert_eq!(
        c.check_op(&one_qubit(0), &[3]),
        Err(OpError::QubitOutOfRange { qubit: 3, n_qubits: 3 })
    );
}

#[test]
fn check_op_reports_repeated_qubit() {
    let c = Circuit::<u8>::new(3);
    assert_eq!(
        c.check_op(&two_qubit(0), &[1, 1]),
        Err(OpError::RepeatedQubit { qubit: 1 })
    );
    assert_eq!(c.check_op(&two_qubit(0), &[2, 1]), Ok(()));
}

#[test]
fn push_appends_in_order() {
    let mut c = Circuit::<u8>::new(3);
    c.push(one_qubit(1), &[0]).push(two_qubit(2), &[2, 0]);
    assert_eq!(c.n_qubits(), 3);
    let ops = c.ops();
    assert_eq!(ops.len(), 2);
    assert_eq!(ops[0].qubits(), &[0]);
    assert_eq!(ops[0].gate().at(0, 0), 1);
    assert_eq!(ops[1].qubits(), &[2, 0]);
    assert_eq!(ops[1].gate().n_qubits(), 2);
}
