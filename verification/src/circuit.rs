//! Circuit representation: an ordered list of gate applications on a fixed register.
//!
//! A [`Circuit`] is backend-agnostic; fusion is a `Circuit -> Circuit` transform planned in
//! [`crate::fusion`].
use crate::backend::valid_targets;
use crate::gate::DenseGate;
use crate::layout::distinct;
use vstd::prelude::*;

verus! {

/// One gate application: a gate matrix and the (ordered) qubits it acts on.
#[derive(Clone, Debug)]
pub struct GateOp<T> {
    gate: DenseGate<T>,
    qubits: Vec<u32>,
}

impl<T> GateOp<T> {
    /// The matrix applied.
    pub closed spec fn gate_spec(&self) -> DenseGate<T> {
        self.gate
    }

    /// The qubits, in gate order.
    pub closed spec fn qubits_spec(&self) -> Seq<u32> {
        self.qubits@
    }

    /// The matrix is well formed, acts on as many qubits as are listed, and they are distinct
    /// qubits of an `n`-qubit register.
    pub open spec fn valid_for(&self, n: u32) -> bool {
        &&& self.gate_spec().wf()
        &&& self.qubits_spec().len() == self.gate_spec().arity()
        &&& valid_targets(self.qubits_spec(), n)
    }

    /// The matrix applied.
    pub fn gate(&self) -> (g: &DenseGate<T>)
        ensures
            *g == self.gate_spec(),
    {
        &self.gate
    }

    /// The qubits, in gate order.
    pub fn qubits(&self) -> (q: &[u32])
        ensures
            q@ == self.qubits_spec(),
    {
        self.qubits.as_slice()
    }
}

/// Why a gate cannot be appended to a circuit.
#[derive(Clone, Copy, Debug, PartialEq, Eq)]
pub enum OpError {
    /// A gate acting on `gate` qubits, yet but `listed` were given.
    ArityMismatch { gate: u32, listed: usize },
    /// `qubit` is not a qubit of the `n_qubits`-qubit register.
    QubitOutOfRange { qubit: u32, n_qubits: u32 },
    /// `qubit` is listed twice.
    RepeatedQubit { qubit: u32 },
}

/// The first index of `qs` holding a qubit at or above `n`, if any.
pub open spec fn first_out_of_range(qs: Seq<u32>, n: u32, k: int) -> bool {
    &&& 0 <= k < qs.len()
    &&& qs[k] >= n
    &&& forall|i: int| 0 <= i < k ==> qs[i] < n
}

/// `qs[k]` occurs again later, and no earlier entry does.
pub open spec fn first_repeated(qs: Seq<u32>, k: int) -> bool {
    &&& 0 <= k < qs.len()
    &&& exists|j: int| k < j < qs.len() && qs[j] == qs[k]
    &&& forall|i: int, j: int| 0 <= i < k && i < j < qs.len() ==> qs[i] != qs[j]
}

/// A quantum circuit over `n_qubits` qubits.
#[derive(Clone, Debug)]
pub struct Circuit<T> {
    n_qubits: u32,
    ops: Vec<GateOp<T>>,
}

impl<T> Circuit<T> {
    /// Register size.
    pub closed spec fn n(&self) -> u32 {
        self.n_qubits
    }

    /// Operations, in order.
    pub closed spec fn ops_seq(&self) -> Seq<GateOp<T>> {
        self.ops@
    }

    /// Every operation is valid for the register.
    pub open spec fn wf(&self) -> bool {
        forall|k: int| 0 <= k < self.ops_seq().len() ==> #[trigger] self.ops_seq()[k].valid_for(self.n())
    }
}

impl<T: Copy> Circuit<T> {
    /// An empty circuit on `n_qubits` qubits.
    pub fn new(n_qubits: u32) -> (c: Self)
        ensures
            c.wf(),
            c.n() == n_qubits,
            c.ops_seq() == Seq::<GateOp<T>>::empty(),
    {
        Self { n_qubits, ops: Vec::new() }
    }

    /// Register size.
    pub fn n_qubits(&self) -> (n: u32)
        ensures
            n == self.n(),
    {
        self.n_qubits
    }

    /// Operations, in order.
    pub fn ops(&self) -> (o: &[GateOp<T>])
        ensures
            o@ == self.ops_seq(),
    {
        self.ops.as_slice()
    }

    /// Whether `g` on `qubits` may be appended: a gate's arity must match the qubit count,
    /// every qubit must be in range, and no qubit may repeat — checked in that order, and the
    /// first violation found is reported.
    pub fn check_op(&self, g: &DenseGate<T>, qubits: &[u32]) -> (r: Result<(), OpError>)
        ensures
            r is Ok <==> qubits@.len() == g.arity() && valid_targets(qubits@, self.n()),
            qubits@.len() != g.arity() ==> r == Err::<(), OpError>(
                (OpError::ArityMismatch { gate: g.arity(), listed: qubits@.len() as usize }),
            ),
            forall|k: int|
                qubits@.len() == g.arity() && first_out_of_range(qubits@, self.n(), k) ==> r == Err::<
                    (),
                    OpError,
                >((OpError::QubitOutOfRange { qubit: qubits@[k], n_qubits: self.n() })),
            forall|k: int|
                qubits@.len() == g.arity() && crate::layout::all_below(qubits@, self.n() as nat)
                    && first_repeated(qubits@, k) ==> r == Err::<(), OpError>(
                    (OpError::RepeatedQubit { qubit: qubits@[k] }),
                ),
            (qubits@.len() == g.arity() && crate::layout::all_below(qubits@, self.n() as nat)
                && !distinct(qubits@)) ==> r matches Err(OpError::RepeatedQubit { .. }),
    {
        if g.n_qubits() as usize != qubits.len() {
            return Err(OpError::ArityMismatch { gate: g.n_qubits(), listed: qubits.len() });
        }
        let mut k: usize = 0;
        while k < qubits.len()
            invariant
                qubits@.len() == g.arity(),
                k <= qubits@.len(),
                forall|i: int| 0 <= i < k ==> qubits@[i] < self.n(),
            decreases qubits@.len() - k,
        {
            if qubits[k] >= self.n_qubits {
                assert(first_out_of_range(qubits@, self.n(), k as int));
                return Err(OpError::QubitOutOfRange { qubit: qubits[k], n_qubits: self.n_qubits });
            }
            k = k + 1;
        }
        let mut i: usize = 0;
        while i < qubits.len()
            invariant
                qubits@.len() == g.arity(),
                crate::layout::all_below(qubits@, self.n() as nat),
                i <= qubits@.len(),
                forall|a: int, b: int| 0 <= a < i && a < b < qubits@.len() ==> qubits@[a] != qubits@[b],
            decreases qubits@.len() - i,
        {
            let mut j: usize = i + 1;
            while j < qubits.len()
                invariant
                    qubits@.len() == g.arity(),
                    crate::layout::all_below(qubits@, self.n() as nat),
                    i < qubits@.len(),
                    i + 1 <= j <= qubits@.len(),
                    forall|a: int, b: int| 0 <= a < i && a < b < qubits@.len() ==> qubits@[a] != qubits@[b],
                    forall|b: int| i < b < j ==> qubits@[i as int] != qubits@[b],
                decreases qubits@.len() - j,
            {
                if qubits[i] == qubits[j] {
                    assert(first_repeated(qubits@, i as int));
                    return Err(OpError::RepeatedQubit { qubit: qubits[i] });
                }
                j = j + 1;
            }
            i = i + 1;
        }
        assert(distinct(qubits@)) by {
            assert forall|a: int, b: int| 0 <= a < qubits@.len() && 0 <= b < qubits@.len() && a != b
                implies qubits@[a] != qubits@[b] by {
                if a > b {
                    assert(qubits@[b] != qubits@[a]);
                }
            }
        }
        Ok(())
    }

    /// Append `g` acting on `qubits` (which [`check_op`](Self::check_op) accepts).
    pub fn push(&mut self, g: DenseGate<T>, qubits: &[u32]) -> (r: &mut Self)
        requires
            old(self).wf(),
            g.wf(),
            qubits@.len() == g.arity(),
            valid_targets(qubits@, old(self).n()),
        ensures
            r.wf(),
            r.n() == old(self).n(),
            r.ops_seq().len() == old(self).ops_seq().len() + 1,
            r.ops_seq().drop_last() == old(self).ops_seq(),
            r.ops_seq().last().gate_spec() == g,
            r.ops_seq().last().qubits_spec() == qubits@,
            *final(self) == *final(r),
    {
        let op = GateOp { gate: g, qubits: vstd::slice::slice_to_vec(qubits) };
        self.ops.push(op);
        assert(self.ops@.drop_last() =~= old(self).ops@);
        assert forall|k: int| 0 <= k < self.ops_seq().len() implies #[trigger] self.ops_seq()[k].valid_for(
            self.n(),
        ) by {
            if k < old(self).ops_seq().len() {
                assert(self.ops_seq()[k] == old(self).ops_seq()[k]);
            }
        }
        self
    }
}

} // verus!
