//! Gate matrices and the index structure of the standard controlled and swap gates.
//!
//! A gate acts on an ordered list of qubits `qs`. Bit `j` (LSB = 0) of a gate's row/column
//! index corresponds to qubit `qs[j]`. Controlled gates put the control first: on
//! `qs = [c, t]` the internal index is `bit_c + 2·bit_t`. Entries are of whatever scalar type
//! the caller uses; this module only places them.
use vstd::prelude::*;

verus! {

/// A dense `2^n_qubits × 2^n_qubits` matrix, stored row-major.
#[derive(Clone, Debug)]
pub struct DenseGate<T> {
    data: Vec<T>,
    n_qubits: u32,
}

/// Side length of the matrix of an `n`-qubit gate.
pub open spec fn gate_dim(n: u32) -> nat {
    (1usize << n) as nat
}

impl<T> DenseGate<T> {
    /// The entries, row-major.
    pub closed spec fn entries(&self) -> Seq<T> {
        self.data@
    }

    /// Number of qubits a gate acts on.
    pub closed spec fn arity(&self) -> u32 {
        self.n_qubits
    }

    /// Entry `(row, col)`.
    pub open spec fn entry(&self, row: int, col: int) -> T {
        self.entries()[row * gate_dim(self.arity()) + col]
    }

    /// `dim × dim` entries with `dim = 2^n` and `dim²` representable.
    pub open spec fn wf(&self) -> bool {
        &&& 2 * self.arity() < usize::BITS
        &&& self.entries().len() == gate_dim(self.arity()) * gate_dim(self.arity())
    }
}

pub proof fn lemma_dim_sq(n: u32)
    requires
        2 * n < usize::BITS,
    ensures
        (1usize << n) * (1usize << n) <= usize::MAX,
        (1usize << n) * (1usize << n) == (1usize << (2 * n)),
        (1usize << n) >= 1,
{
    let nn = n as usize;
    let n2 = (2 * n) as usize;
    assert((1usize << nn) * (1usize << nn) == (1usize << n2) && (1usize << nn) >= 1) by (bit_vector)
        requires n2 == 2 * nn, n2 < usize::BITS;
}

/// Row-major position of `(row, col)` in a `dim × dim` matrix.
pub proof fn lemma_entry_index(row: int, col: int, dim: int)
    requires
        0 <= row < dim,
        0 <= col < dim,
    ensures
        0 <= row * dim + col < dim * dim,
{
    vstd::arithmetic::mul::lemma_mul_inequality(row, dim - 1, dim);
    vstd::arithmetic::mul::lemma_mul_is_distributive_sub_other_way(dim, dim, 1);
    vstd::arithmetic::mul::lemma_mul_nonnegative(row, dim);
}

impl<T: Copy> DenseGate<T> {
    /// Build from a row-major `dim × dim` matrix (`dim = 2^n_qubits`).
    pub fn new(n_qubits: u32, data: Vec<T>) -> (g: Self)
        requires
            2 * n_qubits < usize::BITS,
            data@.len() == gate_dim(n_qubits) * gate_dim(n_qubits),
        ensures
            g.wf(),
            g.arity() == n_qubits,
            g.entries() == data@,
    {
        Self { data, n_qubits }
    }

    /// Number of qubits a gate acts on.
    pub fn n_qubits(&self) -> (n: u32)
        ensures
            n == self.arity(),
    {
        self.n_qubits
    }

    /// Side length of the matrix, `2^n`.
    pub fn dim(&self) -> (d: usize)
        requires
            self.wf(),
        ensures
            d == gate_dim(self.arity()),
    {
        1usize << self.n_qubits
    }

    /// Entry `(row, col)`.
    pub fn at(&self, row: usize, col: usize) -> (e: T)
        requires
            self.wf(),
            row < gate_dim(self.arity()),
            col < gate_dim(self.arity()),
        ensures
            e == self.entry(row as int, col as int),
    {
        let d = self.dim();
        proof {
            lemma_dim_sq(self.n_qubits);
            lemma_entry_index(row as int, col as int, d as int);
        }
        self.data[row * d + col]
    }

    /// Whether every off-diagonal entry is zero, as `is_zero` tells.
    pub fn is_diagonal<Z: Fn(T) -> bool>(&self, is_zero: &Z) -> (b: bool)
        requires
            self.wf(),
            forall|e: T| #[trigger] is_zero.requires((e,)),
        ensures
            b ==> forall|r: int, c: int|
                0 <= r < gate_dim(self.arity()) && 0 <= c < gate_dim(self.arity()) && r != c
                    ==> call_ensures(*is_zero, (#[trigger] self.entry(r, c),), true),
            !b ==> exists|r: int, c: int|
                0 <= r < gate_dim(self.arity()) && 0 <= c < gate_dim(self.arity()) && r != c
                    && call_ensures(*is_zero, (#[trigger] self.entry(r, c),), false),
    {
        let d = self.dim();
        let mut r: usize = 0;
        while r < d
            invariant
                self.wf(),
                d == gate_dim(self.arity()),
                r <= d,
                forall|e: T| #[trigger] is_zero.requires((e,)),
                forall|i: int, c: int|
                    0 <= i < r && 0 <= c < d && i != c ==> call_ensures(*is_zero, (#[trigger] self.entry(i, c),), true),
            decreases d - r,
        {
            let mut c: usize = 0;
            while c < d
                invariant
                    self.wf(),
                    d == gate_dim(self.arity()),
                    r < d,
                    c <= d,
                    forall|e: T| #[trigger] is_zero.requires((e,)),
                    forall|i: int, k: int|
                        0 <= i < r && 0 <= k < d && i != k ==> call_ensures(*is_zero, (#[trigger] self.entry(i, k),), true),
                    forall|k: int| 0 <= k < c && r != k ==> call_ensures(*is_zero, (#[trigger] self.entry(r as int, k),), true),
                decreases d - c,
            {
                if r != c {
                    let e = self.at(r, c);
                    if !is_zero(e) {
                        return false;
                    }
                }
                c = c + 1;
            }
            r = r + 1;
        }
        true
    }

    /// A copy: same arity, same entries.
    pub fn duplicate(&self) -> (g: Self)
        ensures
            g.arity() == self.arity(),
            g.entries() == self.entries(),
    {
        Self { data: vstd::slice::slice_to_vec(self.data.as_slice()), n_qubits: self.n_qubits }
    }

    /// All entries, row-major.
    pub fn row_major(&self) -> (s: &[T])
        ensures
            s@ == self.entries(),
    {
        self.data.as_slice()
    }
}

/// `n` copies of `x`.
fn filled<T: Copy>(x: T, n: usize) -> (v: Vec<T>)
    ensures
        v@.len() == n,
        forall|i: int| 0 <= i < n ==> v@[i] == x,
{
    let mut v: Vec<T> = Vec::with_capacity(n);
    let mut i: usize = 0;
    while i < n
        invariant
            i <= n,
            v@.len() == i,
            forall|k: int| 0 <= k < i ==> v@[k] == x,
        decreases n - i,
    {
        v.push(x);
        i = i + 1;
    }
    v
}

/// The controlled form of a 1-qubit `u` on `qs = [control, target]`: identity on the
/// control-0 subspace (even internal indices), `u` on the target in the control-1 subspace
/// (odd internal indices), `zero` between the two.
pub open spec fn controlled_entry<T>(u: DenseGate<T>, zero: T, one: T, row: int, col: int) -> T {
    if row % 2 == 0 && col % 2 == 0 {
        if row == col {
            one
        } else {
            zero
        }
    } else if row % 2 == 1 && col % 2 == 1 {
        u.entry(row / 2, col / 2)
    } else {
        zero
    }
}

/// Wrap a 1-qubit gate `u` as a 2-qubit controlled gate (`qs = [control, target]`).
pub fn controlled_1q<T: Copy>(u: &DenseGate<T>, zero: T, one: T) -> (g: DenseGate<T>)
    requires
        u.wf(),
        u.arity() == 1,
    ensures
        g.wf(),
        g.arity() == 2,
        forall|row: int, col: int| 0 <= row < 4 && 0 <= col < 4 ==>
            #[trigger] g.entry(row, col) == controlled_entry(*u, zero, one, row, col),
{
    proof {
        crate::layout::lemma_pow_facts(2, 0);
    }
    let mut data = filled(zero, 16);
    // control == 0  (even internal indices 0, 2): identity on the target
    data.set(0, one);
    data.set(2 * 4 + 2, one);
    // control == 1  (odd internal indices 1, 3): apply u to the target
    let mut t_out: usize = 0;
    while t_out < 2
        invariant
            u.wf(),
            u.arity() == 1,
            gate_dim(1) == 2,
            t_out <= 2,
            data@.len() == 16,
            data@[0] == one,
            data@[10] == one,
            forall|i: int| 0 <= i < 16 && i != 0 && i != 10 && !(i % 8 == 5 || i % 8 == 7) ==> data@[i]
                == zero,
            forall|i: int| 0 <= i < 16 && (i % 8 == 5 || i % 8 == 7) && i / 8 >= t_out ==> data@[i]
                == zero,
            forall|i: int| 0 <= i < 16 && (i % 8 == 5 || i % 8 == 7) && i / 8 < t_out ==> data@[i]
                == u.entry(i / 8, (i % 8 - 5) / 2),
        decreases 2 - t_out,
    {
        let mut t_in: usize = 0;
        while t_in < 2
            invariant
                u.wf(),
                u.arity() == 1,
                gate_dim(1) == 2,
                t_out < 2,
                t_in <= 2,
                data@.len() == 16,
                data@[0] == one,
                data@[10] == one,
                forall|i: int| 0 <= i < 16 && i != 0 && i != 10 && !(i % 8 == 5 || i % 8 == 7) ==> data@[i]
                    == zero,
                forall|i: int| 0 <= i < 16 && (i % 8 == 5 || i % 8 == 7) && (i / 8 > t_out || (i / 8
                    == t_out && (i % 8 - 5) / 2 >= t_in)) ==> data@[i] == zero,
                forall|i: int| 0 <= i < 16 && (i % 8 == 5 || i % 8 == 7) && (i / 8 < t_out || (i / 8
                    == t_out && (i % 8 - 5) / 2 < t_in)) ==> data@[i] == u.entry(i / 8, (i % 8 - 5) / 2),
            decreases 2 - t_in,
        {
            let row = 1 + 2 * t_out;
            let col = 1 + 2 * t_in;
            let e = u.at(t_out, t_in);
            data.set(row * 4 + col, e);
            t_in = t_in + 1;
        }
        t_out = t_out + 1;
    }
    assert(usize::BITS == 32 || usize::BITS == 64);
    assert(2 * 2u32 < usize::BITS);
    assert(gate_dim(2) == 4);
    let g = DenseGate::new(2, data);
    assert forall|row: int, col: int| 0 <= row < 4 && 0 <= col < 4 implies #[trigger] g.entry(row, col)
        == controlled_entry(*u, zero, one, row, col) by {
        assert(gate_dim(2) == 4);
        let i = row * 4 + col;
        assert(i % 8 == (row % 2) * 4 + col && i / 8 == row / 2) by (nonlinear_arith)
            requires i == row * 4 + col, 0 <= row < 4, 0 <= col < 4;
    }
    g
}

/// SWAP on `qs = [a, b]`: `one` at `(0,0)`, `(1,2)`, `(2,1)`, `(3,3)`, `zero` elsewhere.
pub fn swap<T: Copy>(zero: T, one: T) -> (g: DenseGate<T>)
    ensures
        g.wf(),
        g.arity() == 2,
        forall|row: int, col: int| 0 <= row < 4 && 0 <= col < 4 ==>
            #[trigger] g.entry(row, col) == (if (row == 0 && col == 0) || (row == 1 && col == 2)
                || (row == 2 && col == 1) || (row == 3 && col == 3) {
                one
            } else {
                zero
            }),
{
    proof {
        crate::layout::lemma_pow_facts(2, 0);
    }
    let mut data = filled(zero, 16);
    // Nonzeros at (row,col) = (0,0),(1,2),(2,1),(3,3) → flat indices 0,6,9,15.
    data.set(0, one);
    data.set(6, one);
    data.set(9, one);
    data.set(15, one);
    assert(usize::BITS == 32 || usize::BITS == 64);
    assert(2 * 2u32 < usize::BITS);
    assert(gate_dim(2) == 4);
    let g = DenseGate::new(2, data);
    assert forall|row: int, col: int| 0 <= row < 4 && 0 <= col < 4 implies #[trigger] g.entry(row, col)
        == (if (row == 0 && col == 0) || (row == 1 && col == 2) || (row == 2 && col == 1) || (row == 3
            && col == 3) {
        one
    } else {
        zero
    }) by {
        assert(gate_dim(2) == 4);
    }
    g
}

} // verus!
