//! The statevector itself — Structure-of-Arrays storage.
//!
//! `re[]` and `im[]` are separate arrays (not interleaved pairs), so a kernel reads like-typed
//! components side by side. All amplitude updates are in place. The component type `T` is
//! whatever scalar the caller simulates with; this module only moves components around.
use vstd::prelude::*;

verus! {

/// A pure-state register of `n_qubits` qubits: `2^n` amplitudes, real and imaginary parts
/// stored in two arrays.
#[derive(Clone, Debug)]
pub struct StateVector<T> {
    re: Vec<T>,
    im: Vec<T>,
    n_qubits: u32,
}

impl<T> StateVector<T> {
    /// Real parts, index by index.
    pub closed spec fn re_seq(&self) -> Seq<T> {
        self.re@
    }

    /// Imaginary parts, index by index.
    pub closed spec fn im_seq(&self) -> Seq<T> {
        self.im@
    }

    /// Number of qubits.
    pub closed spec fn qubits(&self) -> u32 {
        self.n_qubits
    }

    /// `2^n` amplitudes in each component array, with `2^n` representable.
    pub open spec fn wf(&self) -> bool {
        &&& self.qubits() < usize::BITS
        &&& self.re_seq().len() == (1usize << self.qubits()) as nat
        &&& self.im_seq().len() == (1usize << self.qubits()) as nat
    }
}

impl<T: Copy> StateVector<T> {
    /// All-`zero` buffer (not a valid normalized state on its own).
    pub fn zeros(n_qubits: u32, zero: T) -> (s: Self)
        requires
            n_qubits < usize::BITS,
        ensures
            s.wf(),
            s.qubits() == n_qubits,
            forall|i: int| 0 <= i < s.re_seq().len() ==> s.re_seq()[i] == zero && s.im_seq()[i] == zero,
    {
        let dim: usize = 1usize << n_qubits;
        let mut re: Vec<T> = Vec::with_capacity(dim);
        let mut im: Vec<T> = Vec::with_capacity(dim);
        let mut i: usize = 0;
        while i < dim
            invariant
                i <= dim,
                re@.len() == i,
                im@.len() == i,
                forall|k: int| 0 <= k < i ==> re@[k] == zero && im@[k] == zero,
            decreases dim - i,
        {
            re.push(zero);
            im.push(zero);
            i = i + 1;
        }
        StateVector { re, im, n_qubits }
    }

    /// Computational basis state `|index⟩`: `one` at `index`, `zero` elsewhere.
    pub fn basis(n_qubits: u32, index: usize, zero: T, one: T) -> (s: Self)
        requires
            n_qubits < usize::BITS,
            index < (1usize << n_qubits),
        ensures
            s.wf(),
            s.qubits() == n_qubits,
            forall|i: int| 0 <= i < s.re_seq().len() ==> s.im_seq()[i] == zero
                && s.re_seq()[i] == (if i == index { one } else { zero }),
    {
        let mut s = Self::zeros(n_qubits, zero);
        s.re.set(index, one);
        s
    }

    /// Number of qubits.
    pub fn n_qubits(&self) -> (n: u32)
        ensures
            n == self.qubits(),
    {
        self.n_qubits
    }

    /// Number of amplitudes, `2^n`.
    pub fn dim(&self) -> (d: usize)
        ensures
            d == self.re_seq().len(),
    {
        self.re.len()
    }

    /// Amplitude `i` as a `(re, im)` pair.
    pub fn amplitude(&self, i: usize) -> (a: (T, T))
        requires
            self.wf(),
            i < self.re_seq().len(),
        ensures
            a == (self.re_seq()[i as int], self.im_seq()[i as int]),
    {
        (self.re[i], self.im[i])
    }

    /// Overwrite amplitude `i`.
    pub fn set(&mut self, i: usize, re: T, im: T)
        requires
            old(self).wf(),
            i < old(self).re_seq().len(),
        ensures
            final(self).wf(),
            final(self).qubits() == old(self).qubits(),
            final(self).re_seq() == old(self).re_seq().update(i as int, re),
            final(self).im_seq() == old(self).im_seq().update(i as int, im),
    {
        self.re.set(i, re);
        self.im.set(i, im);
    }

    /// The real parts.
    pub fn re(&self) -> (r: &[T])
        ensures
            r@ == self.re_seq(),
    {
        self.re.as_slice()
    }

    /// The imaginary parts.
    pub fn im(&self) -> (r: &[T])
        ensures
            r@ == self.im_seq(),
    {
        self.im.as_slice()
    }

    /// Mutable split borrow of the two component arrays — the kernel entry point.
    pub fn parts_mut(&mut self) -> (parts: (&mut [T], &mut [T]))
        ensures
            parts.0@ == old(self).re_seq(),
            parts.1@ == old(self).im_seq(),
            final(self).qubits() == old(self).qubits(),
            final(self).re_seq() == final(parts.0)@,
            final(self).im_seq() == final(parts.1)@,
    {
        (self.re.as_mut_slice(), self.im.as_mut_slice())
    }
}

} // verus!
