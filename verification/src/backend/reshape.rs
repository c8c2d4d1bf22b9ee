//! `ReshapeBackend`: block-structured, out-of-place gate application.
//!
//! For an m-qubit gate, the `2^N` amplitudes are conceptually reshaped so the target qubits
//! form one axis; the kernel iterates the `2^(N-m)` outer blocks and, for each, applies the
//! gate's rows to the block's `2^m` inputs, writing into a separate output buffer that is
//! copied back at the end.
use crate::backend::bitshift::lemma_anchor;
use crate::backend::{column, gate_applied, row_callable, row_output, valid_targets};
use crate::layout::{
    block_layout, block_of, clear_bits, gather_spec, has_pos, insert_zero_bits,
    lemma_block_cover, lemma_compose, lemma_decompose, lemma_distinct_len, scatter_bits,
    sorted_positions,
};
use crate::state::StateVector;
use vstd::prelude::*;

verus! {

/// Out-of-place, block-structured simulator.
#[derive(Clone, Copy, Debug, Default)]
pub struct ReshapeBackend;

/// Largest gate arity the reshape kernel accepts.
pub const MAX_RESHAPE_QUBITS: usize = 8;

/// Output amplitude `j` is done when its block is below `o`, or it is block `o`'s row below `r`.
pub open spec fn reshape_done<T, F: Fn(usize, &[T], &[T]) -> (T, T)>(
    old_re: Seq<T>,
    old_im: Seq<T>,
    out_re: Seq<T>,
    out_im: Seq<T>,
    qs: Seq<u32>,
    sorted: Seq<u32>,
    f: F,
    o: usize,
    r: usize,
    j: int,
) -> bool {
    (block_of(j as usize, qs, sorted) < o || (block_of(j as usize, qs, sorted) == o
        && gather_spec(j as usize, qs) < r)) ==> row_output(
        f,
        gather_spec(j as usize, qs),
        column(old_re, j as usize, qs),
        column(old_im, j as usize, qs),
        (out_re[j], out_im[j]),
    )
}

impl ReshapeBackend {
    /// Apply a gate, given by the rows `row` computes, to `qubits`, block by block into an output
    /// buffer, then copy the buffer back.
    pub fn apply<T: Copy, F: Fn(usize, &[T], &[T]) -> (T, T)>(
        &self,
        state: &mut StateVector<T>,
        row: &F,
        qubits: &[u32],
    )
        requires
            old(state).wf(),
            valid_targets(qubits@, old(state).qubits()),
            qubits@.len() <= MAX_RESHAPE_QUBITS,
            row_callable(*row),
        ensures
            final(state).wf(),
            final(state).qubits() == old(state).qubits(),
            gate_applied(
                old(state).re_seq(),
                old(state).im_seq(),
                final(state).re_seq(),
                final(state).im_seq(),
                qubits@,
                *row,
            ),
    {
        let ghost old_re = state.re_seq();
        let ghost old_im = state.im_seq();
        let ghost qs = qubits@;
        let n = state.n_qubits();
        proof {
            lemma_distinct_len(qs, n as usize);
        }
        let m = qubits.len();
        let sub: usize = 1usize << m;
        let dim = state.dim();
        let sorted = sorted_positions(qubits);
        let ghost ss = sorted@;
        assert(block_layout(qs, ss, n as usize)) by {
            assert forall|k: int| 0 <= k < ss.len() implies (ss[k] as nat) < n as nat by {
                assert(has_pos(ss, ss[k] as usize));
                assert(has_pos(qs, ss[k] as usize));
            }
        }
        let blocks = dim >> m;
        assert(blocks == (1usize << ((n - m) as usize))) by {
            crate::layout::lemma_pow_facts(n as usize, m);
        }
        let re_in = state.re();
        let im_in = state.im();
        let mut out_re = vstd::slice::slice_to_vec(re_in);
        let mut out_im = vstd::slice::slice_to_vec(im_in);
        let mut o: usize = 0;
        while o < blocks
            invariant
                n < usize::BITS,
                block_layout(qs, ss, n as usize),
                qs == qubits@,
                ss == sorted@,
                m == qs.len(),
                m <= n,
                sub == (1usize << m),
                blocks == (1usize << ((n - m) as usize)),
                dim == (1usize << n),
                re_in@ == old_re,
                im_in@ == old_im,
                old_re.len() == dim,
                old_im.len() == dim,
                out_re@.len() == dim,
                out_im@.len() == dim,
                row_callable(*row),
                o <= blocks,
                forall|j: int| 0 <= j < dim ==> #[trigger] reshape_done(
                    old_re,
                    old_im,
                    out_re@,
                    out_im@,
                    qs,
                    ss,
                    *row,
                    o,
                    0,
                    j,
                ),
            decreases blocks - o,
        {
            let base = insert_zero_bits(o, sorted.as_slice());
            proof {
                crate::layout::lemma_pow_facts(n as usize, 0);
                lemma_anchor(o, qs, ss, n as usize, 0);
            }
            let mut col_re: Vec<T> = Vec::with_capacity(sub);
            let mut col_im: Vec<T> = Vec::with_capacity(sub);
            let mut cc: usize = 0;
            while cc < sub
                invariant
                    n < usize::BITS,
                    valid_targets(qs, n),
                    qs == qubits@,
                    m == qs.len(),
                    m <= n,
                    sub == (1usize << m),
                    base < (1usize << n),
                    clear_bits(base, qs) == base,
                    re_in@ == old_re,
                    im_in@ == old_im,
                    old_re.len() == (1usize << n),
                    old_im.len() == (1usize << n),
                    cc <= sub,
                    col_re@ == column(old_re, base, qs).take(cc as int),
                    col_im@ == column(old_im, base, qs).take(cc as int),
                decreases sub - cc,
            {
                let col = base | scatter_bits(cc, qubits);
                proof {
                    lemma_compose(base, cc, qs, n as usize);
                }
                col_re.push(re_in[col]);
                col_im.push(im_in[col]);
                assert(col_re@ =~= column(old_re, base, qs).take((cc + 1) as int));
                assert(col_im@ =~= column(old_im, base, qs).take((cc + 1) as int));
                cc = cc + 1;
            }
            assert(col_re@ =~= column(old_re, base, qs));
            assert(col_im@ =~= column(old_im, base, qs));
            let mut r: usize = 0;
            while r < sub
                invariant
                    n < usize::BITS,
                    block_layout(qs, ss, n as usize),
                    valid_targets(qs, n),
                    qs == qubits@,
                    ss == sorted@,
                    m == qs.len(),
                    m <= n,
                    sub == (1usize << m),
                    o < blocks,
                    blocks == (1usize << ((n - m) as usize)),
                    dim == (1usize << n),
                    base == crate::layout::insert_zero_bits_spec(o, ss),
                    base < dim,
                    clear_bits(base, qs) == base,
                    col_re@ == column(old_re, base, qs),
                    col_im@ == column(old_im, base, qs),
                    old_re.len() == dim,
                    old_im.len() == dim,
                    out_re@.len() == dim,
                    out_im@.len() == dim,
                    row_callable(*row),
                    r <= sub,
                    forall|j: int| 0 <= j < dim ==> #[trigger] reshape_done(
                        old_re,
                        old_im,
                        out_re@,
                        out_im@,
                        qs,
                        ss,
                        *row,
                        o,
                        r,
                        j,
                    ),
                decreases sub - r,
            {
                let y = row(r, col_re.as_slice(), col_im.as_slice());
                let idx = base | scatter_bits(r, qubits);
                proof {
                    lemma_compose(base, r, qs, n as usize);
                    lemma_anchor(o, qs, ss, n as usize, idx);
                }
                let ghost pre_re = out_re@;
                let ghost pre_im = out_im@;
                out_re.set(idx, y.0);
                out_im.set(idx, y.1);
                assert forall|j: int| 0 <= j < dim implies #[trigger] reshape_done(
                    old_re,
                    old_im,
                    out_re@,
                    out_im@,
                    qs,
                    ss,
                    *row,
                    o,
                    (r + 1) as usize,
                    j,
                ) by {
                    assert(reshape_done(old_re, old_im, pre_re, pre_im, qs, ss, *row, o, r, j));
                    lemma_anchor(o, qs, ss, n as usize, j as usize);
                    if j == idx as int {
                        assert(column(old_re, j as usize, qs) == column(old_re, base, qs));
                        assert(column(old_im, j as usize, qs) == column(old_im, base, qs));
                    } else if block_of(j as usize, qs, ss) == o && gather_spec(j as usize, qs) == r {
                        lemma_decompose(j as usize, qs);
                    }
                }
                r = r + 1;
            }
            assert forall|j: int| 0 <= j < dim implies #[trigger] reshape_done(
                old_re,
                old_im,
                out_re@,
                out_im@,
                qs,
                ss,
                *row,
                (o + 1) as usize,
                0,
                j,
            ) by {
                assert(reshape_done(old_re, old_im, out_re@, out_im@, qs, ss, *row, o, sub, j));
                crate::backend::cpu::lemma_gather_bound(j as usize, qs, n as usize);
            }
            o = o + 1;
        }
        let (re, im) = state.parts_mut();
        let mut i: usize = 0;
        while i < dim
            invariant
                dim == out_re@.len(),
                dim == out_im@.len(),
                re@.len() == dim,
                im@.len() == dim,
                i <= dim,
                forall|k: int| 0 <= k < i ==> re@[k] == out_re@[k] && im@[k] == out_im@[k],
            decreases dim - i,
        {
            re[i] = out_re[i];
            im[i] = out_im[i];
            i = i + 1;
        }
        assert(re@ =~= out_re@);
        assert(im@ =~= out_im@);
        assert forall|j: int| 0 <= j < old_re.len() implies #[trigger] row_output(
            *row,
            gather_spec(j as usize, qs),
            column(old_re, j as usize, qs),
            column(old_im, j as usize, qs),
            (re@[j], im@[j]),
        ) by {
            lemma_block_cover(j as usize, qs, ss, n as usize);
            assert(reshape_done(old_re, old_im, out_re@, out_im@, qs, ss, *row, o, 0, j));
        }
    }
}

} // verus!
