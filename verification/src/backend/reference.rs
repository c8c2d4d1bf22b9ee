//! `RefBackend` — the naive correctness oracle.
//!
//! Deliberately simple: for every output amplitude it gathers a gate's sub-index from the
//! involved qubits and hands the row closure the matching column of inputs (gather/scatter),
//! rather than using the pair/block iteration of the optimized kernels.
use crate::backend::{column, gate_applied, lemma_column_index, row_callable,
    row_output, valid_targets};
use crate::layout::{all_below, clear_bits, distinct, gather_bits, gather_spec, has_pos,
    lemma_mask_bits, mask_spec, scatter_bits};
use crate::state::StateVector;
use vstd::prelude::*;

verus! {

/// Naive dense-apply reference simulator.
#[derive(Clone, Copy, Debug, Default)]
pub struct RefBackend;

/// OR of `1 << q` over `qs`, accumulated as a sum (the positions are distinct).
pub fn position_mask(qs: &[u32], n: u32) -> (m: usize)
    requires
        n < usize::BITS,
        valid_targets(qs@, n),
    ensures
        m == mask_spec(qs@),
{
    let mut m: usize = 0;
    let mut k: usize = 0;
    while k < qs.len()
        invariant
            k <= qs@.len(),
            n < usize::BITS,
            valid_targets(qs@, n),
            m == mask_spec(qs@.take(k as int)),
        decreases qs@.len() - k,
    {
        let q = qs[k];
        let ghost t = qs@.take(k as int);
        assert(qs@.take((k + 1) as int).drop_last() =~= t);
        assert(all_below(t, usize::BITS as nat));
        proof {
            lemma_mask_bits(t, q as usize);
            if has_pos(t, q as usize) {
                let i = choose|i: int| 0 <= i < t.len() && t[i] as usize == q as usize;
                assert(qs@[i] == qs@[k as int]);
            }
            let qq = q as usize;
            assert(m + (1usize << qq) == (m | (1usize << qq)))
                by (bit_vector)
                requires (m >> qq) & 1usize != 1usize, qq < usize::BITS;
        }
        m = m + (1usize << q);
        k = k + 1;
    }
    assert(qs@.take(k as int) =~= qs@);
    m
}

impl RefBackend {
    /// Apply a gate, given by the rows `row` computes, to the ordered `qubits`: for every output
    /// amplitude `r`, sum its matrix row against the inputs that share `r`'s other bits.
    pub fn apply<T: Copy, F: Fn(usize, &[T], &[T]) -> (T, T)>(
        &self,
        state: &mut StateVector<T>,
        row: &F,
        qubits: &[u32],
    )
        requires
            old(state).wf(),
            valid_targets(qubits@, old(state).qubits()),
            row_callable(*row),
        ensures
            final(state).wf(),
            final(state).qubits() == old(state).qubits(),
            gate_applied(
                old(state).re_seq(),
                old(state).im_seq(),
                final(state).re_seq(),
                final(state).im_seq(),
                qubits@,
                *row,
            ),
    {
        let ghost old_re = state.re_seq();
        let ghost old_im = state.im_seq();
        let n = state.n_qubits();
        let dim: usize = 1usize << n;
        proof {
            crate::layout::lemma_distinct_len(qubits@, n as usize);
        }
        proof {
            crate::layout::lemma_pow_facts(n as usize, 0);
        }
        let qmask = position_mask(qubits, n);
        let nonmask = !qmask & (dim - 1);
        let gdim: usize = 1usize << qubits.len();
        let re_in = state.re();
        let im_in = state.im();
        let mut out_re: Vec<T> = Vec::with_capacity(dim);
        let mut out_im: Vec<T> = Vec::with_capacity(dim);
        let mut r: usize = 0;
        while r < dim
            invariant
                n < usize::BITS,
                dim == (1usize << n),
                qubits@.len() <= n,
                gdim == (1usize << qubits@.len()),
                valid_targets(qubits@, n),
                qmask == mask_spec(qubits@),
                nonmask == !qmask & ((dim - 1) as usize),
                re_in@ == old_re,
                im_in@ == old_im,
                old_re.len() == dim,
                old_im.len() == dim,
                row_callable(*row),
                r <= dim,
                out_re@.len() == r,
                out_im@.len() == r,
                forall|j: int| 0 <= j < r ==> #[trigger] row_output(
                    *row,
                    gather_spec(j as usize, qubits@),
                    column(old_re, j as usize, qubits@),
                    column(old_im, j as usize, qubits@),
                    (out_re@[j], out_im@[j]),
                ),
            decreases dim - r,
        {
            let r_fixed = r & nonmask;
            proof {
                let rr = r;
                assert(rr & (!qmask & ((dim - 1) as usize)) == rr & !qmask) by (bit_vector)
                    requires rr < dim, dim == (1usize << n), n < usize::BITS;
            }
            assert(r_fixed == clear_bits(r, qubits@));
            let gr = gather_bits(r, qubits);
            let mut col_re: Vec<T> = Vec::with_capacity(gdim);
            let mut col_im: Vec<T> = Vec::with_capacity(gdim);
            let mut gc: usize = 0;
            while gc < gdim
                invariant
                    n < usize::BITS,
                    dim == (1usize << n),
                    r < dim,
                    valid_targets(qubits@, n),
                    qubits@.len() <= n,
                    gdim == (1usize << qubits@.len()),
                    r_fixed == clear_bits(r, qubits@),
                    re_in@ == old_re,
                    im_in@ == old_im,
                    old_re.len() == dim,
                    old_im.len() == dim,
                    gc <= gdim,
                    col_re@ == column(old_re, r, qubits@).take(gc as int),
                    col_im@ == column(old_im, r, qubits@).take(gc as int),
                decreases gdim - gc,
            {
                let col = r_fixed | scatter_bits(gc, qubits);
                proof {
                    lemma_column_index(r, gc, qubits@, n as usize);
                }
                col_re.push(re_in[col]);
                col_im.push(im_in[col]);
                assert(col_re@ =~= column(old_re, r, qubits@).take((gc + 1) as int));
                assert(col_im@ =~= column(old_im, r, qubits@).take((gc + 1) as int));
                gc = gc + 1;
            }
            assert(col_re@ =~= column(old_re, r, qubits@));
            assert(col_im@ =~= column(old_im, r, qubits@));
            let out = row(gr, col_re.as_slice(), col_im.as_slice());
            out_re.push(out.0);
            out_im.push(out.1);
            assert(row_output(
                *row,
                gather_spec(r, qubits@),
                column(old_re, r, qubits@),
                column(old_im, r, qubits@),
                (out_re@[r as int], out_im@[r as int]),
            ));
            r = r + 1;
        }
        let (re, im) = state.parts_mut();
        let mut i: usize = 0;
        while i < dim
            invariant
                dim == out_re@.len(),
                dim == out_im@.len(),
                re@.len() == dim,
                im@.len() == dim,
                i <= dim,
                forall|k: int| 0 <= k < i ==> re@[k] == out_re@[k] && im@[k] == out_im@[k],
            decreases dim - i,
        {
            re[i] = out_re[i];
            im[i] = out_im[i];
            i = i + 1;
        }
        assert(re@ =~= out_re@);
        assert(im@ =~= out_im@);
    }
}

} // verus!
