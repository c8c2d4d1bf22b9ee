//! `BitShiftBackend`: the in-place pair-iteration kernel.
//!
//! For a 1-qubit gate it iterates the `2^(N-1)` amplitude pairs directly via
//! [`insert_zero_bit`], updating each pair in place — no per-gate allocation. For an m-qubit
//! gate it iterates the `2^(N-m)` blocks anchored by [`insert_zero_bits`], gathering the block's
//! `2^m` amplitudes, applying the rows, and writing back in place.
use crate::backend::cpu::{mq_block, block_progress, MAX_SUB};
use crate::backend::{column, gate_applied, row_callable, row_output, valid_targets};
use crate::layout::{
    block_of, block_index, block_layout, clear_bits, gather_spec, insert_zero_bit,
    insert_zero_bit_spec, insert_zero_bits, insert_zero_bits_spec, lemma_below_widen,
    lemma_block_cover, lemma_block_index, lemma_distinct_len,
    lemma_scatter_zero, lemma_single_position, remove_bit_spec, scatter_spec, sorted_positions,
    lemma_remove_insert_bits,
};
use crate::state::StateVector;
use vstd::prelude::*;

verus! {

/// In-place kernel simulator.
#[derive(Clone, Copy, Debug, Default)]
pub struct BitShiftBackend;

/// Facts about the two indices of pair `i` on bit `q` of an `n`-bit space.
pub proof fn lemma_pair_indices(i: usize, q: u32, n: u32)
    requires
        q < n,
        n < usize::BITS,
        i < ((1usize << n) >> 1usize),
    ensures
        ({
            let a0 = insert_zero_bit_spec(i, q);
            let a1 = a0 | (1usize << q);
            &&& a0 < (1usize << n)
            &&& a1 < (1usize << n)
            &&& a0 != a1
            &&& remove_bit_spec(a0, q) == i
            &&& remove_bit_spec(a1, q) == i
            &&& gather_spec(a0, seq![q]) == 0
            &&& gather_spec(a1, seq![q]) == 1
            &&& clear_bits(a0, seq![q]) == a0
            &&& clear_bits(a1, seq![q]) == a0
            &&& scatter_spec(0, seq![q]) == 0
            &&& scatter_spec(1, seq![q]) == (1usize << q)
            &&& a0 | 0usize == a0
        }),
        (1usize << seq![q].len()) == 2,
{
    let a0 = insert_zero_bit_spec(i, q);
    let a1 = a0 | (1usize << q);
    let qq = q as usize;
    let nn = n as usize;
    let q1 = (q + 1) as usize;
    lemma_single_position(a0, 0, q);
    lemma_single_position(a1, 1, q);
    let low = ((1usize << qq) - 1usize) as usize;
    assert(a0 == ((((i >> qq) << qq) << 1usize) | (i & low)));
    assert(a0 < (1usize << nn) && (a0 >> qq) & 1usize == 0usize && (((a0 >> q1) << qq) | (a0 & low))
        == i) by (bit_vector)
        requires qq < nn, nn < usize::BITS, q1 == qq + 1, low == ((1usize << qq) - 1usize) as usize,
            i < ((1usize << nn) >> 1usize), a0 == ((((i >> qq) << qq) << 1usize) | (i & low));
    assert(a1 < (1usize << nn) && a0 != a1 && (a1 >> qq) & 1usize == 1usize && (((a1 >> q1) << qq)
        | (a1 & low)) == (((a0 >> q1) << qq) | (a0 & low)) && a0 & !(1usize << qq) == a0 && a1
        & !(1usize << qq) == a0 && (0usize & 1usize) << qq == 0usize && (1usize & 1usize) << qq == (
    1usize << qq) && a0 | 0usize == a0 && (1usize << 1usize) == 2usize) by (bit_vector)
        requires qq < nn, nn < usize::BITS, q1 == qq + 1, low == ((1usize << qq) - 1usize) as usize,
            a0 < (1usize << nn), (a0 >> qq) & 1usize == 0usize, a1 == a0 | (1usize << qq);
}

/// Every index `j` in range belongs to a pair below `2^(n-1)`, and it is one of that pair's
/// two indices.
pub proof fn lemma_pair_of(j: usize, q: u32, n: u32)
    requires
        q < n,
        n < usize::BITS,
        j < (1usize << n),
    ensures
        remove_bit_spec(j, q) < ((1usize << n) >> 1usize),
        ({
            let a0 = insert_zero_bit_spec(remove_bit_spec(j, q), q);
            j == a0 || j == a0 | (1usize << q)
        }),
{
    let qq = q as usize;
    let nn = n as usize;
    let q1 = (q + 1) as usize;
    let low = ((1usize << qq) - 1usize) as usize;
    let i = (((j >> q1) << qq) | (j & low)) as usize;
    assert(i == remove_bit_spec(j, q));
    let a0 = insert_zero_bit_spec(i, q);
    assert(a0 == ((((i >> qq) << qq) << 1usize) | (i & low)));
    assert(i < ((1usize << nn) >> 1usize) && a0 == j & !(1usize << qq) && (j == a0 || j == a0 | (
    1usize << qq))) by (bit_vector)
        requires qq < nn, nn < usize::BITS, q1 == qq + 1, low == ((1usize << qq) - 1usize) as usize,
            j < (1usize << nn), i == (((j >> q1) << qq) | (j & low)),
            a0 == ((((i >> qq) << qq) << 1usize) | (i & low));
}

impl BitShiftBackend {
    /// In-place 1-qubit kernel: pair `(a0, a1)` differs only in bit `q`; both rows of the
    /// gate are computed from the pair and written back.
    pub fn apply_1q<T: Copy, F: Fn(usize, &[T], &[T]) -> (T, T)>(
        state: &mut StateVector<T>,
        row: &F,
        q: u32,
    )
        requires
            old(state).wf(),
            q < old(state).qubits(),
            row_callable(*row),
        ensures
            final(state).wf(),
            final(state).qubits() == old(state).qubits(),
            gate_applied(
                old(state).re_seq(),
                old(state).im_seq(),
                final(state).re_seq(),
                final(state).im_seq(),
                seq![q],
                *row,
            ),
    {
        let ghost old_re = state.re_seq();
        let ghost old_im = state.im_seq();
        let ghost qs = seq![q];
        let n = state.n_qubits();
        let pairs = state.dim() >> 1;
        let (re, im) = state.parts_mut();
        assert(re@.len() >= 2) by {
            let d = re@.len() as usize;
            crate::layout::lemma_pow_facts(n as usize, 0);
        }
        let mut buf_re: Vec<T> = Vec::with_capacity(2);
        let mut buf_im: Vec<T> = Vec::with_capacity(2);
        buf_re.push(re[0]);
        buf_re.push(re[0]);
        buf_im.push(im[0]);
        buf_im.push(im[0]);
        let mut i: usize = 0;
        while i < pairs
            invariant
                q < n,
                n < usize::BITS,
                qs == seq![q],
                old_re.len() == (1usize << n),
                old_im.len() == (1usize << n),
                re@.len() == old_re.len(),
                im@.len() == old_im.len(),
                pairs == ((1usize << n) >> 1usize),
                buf_re@.len() == 2,
                buf_im@.len() == 2,
                row_callable(*row),
                i <= pairs,
                forall|j: int| 0 <= j < old_re.len() ==> #[trigger] pair_progress(
                    old_re,
                    old_im,
                    re@,
                    im@,
                    q,
                    *row,
                    i,
                    j,
                ),
            decreases pairs - i,
        {
            let a0 = insert_zero_bit(i, q);
            let a1 = a0 | (1usize << q);
            proof {
                lemma_pair_indices(i, q, n);
            }
            buf_re.set(0, re[a0]);
            buf_re.set(1, re[a1]);
            buf_im.set(0, im[a0]);
            buf_im.set(1, im[a1]);
            let ghost pre_re = re@;
            let ghost pre_im = im@;
            proof {
                assert(pair_progress(old_re, old_im, pre_re, pre_im, q, *row, i, a0 as int));
                assert(pair_progress(old_re, old_im, pre_re, pre_im, q, *row, i, a1 as int));
                assert(buf_re@ =~= column(old_re, a0, qs));
                assert(buf_im@ =~= column(old_im, a0, qs));
                assert(column(old_re, a1, qs) =~= column(old_re, a0, qs));
                assert(column(old_im, a1, qs) =~= column(old_im, a0, qs));
            }
            let y0 = row(0, buf_re.as_slice(), buf_im.as_slice());
            let y1 = row(1, buf_re.as_slice(), buf_im.as_slice());
            re[a0] = y0.0;
            im[a0] = y0.1;
            re[a1] = y1.0;
            im[a1] = y1.1;
            assert forall|j: int| 0 <= j < old_re.len() implies #[trigger] pair_progress(
                old_re,
                old_im,
                re@,
                im@,
                q,
                *row,
                (i + 1) as usize,
                j,
            ) by {
                lemma_pair_of(j as usize, q, n);
                assert(pair_progress(old_re, old_im, pre_re, pre_im, q, *row, i, j));
            }
            i = i + 1;
        }
        assert forall|j: int| 0 <= j < old_re.len() implies #[trigger] row_output(
            *row,
            gather_spec(j as usize, qs),
            column(old_re, j as usize, qs),
            column(old_im, j as usize, qs),
            (re@[j], im@[j]),
        ) by {
            lemma_pair_of(j as usize, q, n);
            assert(pair_progress(old_re, old_im, re@, im@, q, *row, i, j));
        }
    }

    /// General in-place m-qubit kernel: for each of the `2^(N-m)` blocks, gather its `2^m`
    /// amplitudes, apply every row, and write back (read-all then write-all).
    pub fn apply_mq<T: Copy, F: Fn(usize, &[T], &[T]) -> (T, T)>(
        state: &mut StateVector<T>,
        row: &F,
        qubits: &[u32],
    )
        requires
            old(state).wf(),
            valid_targets(qubits@, old(state).qubits()),
            (1usize << qubits@.len()) <= MAX_SUB,
            row_callable(*row),
        ensures
            final(state).wf(),
            final(state).qubits() == old(state).qubits(),
            gate_applied(
                old(state).re_seq(),
                old(state).im_seq(),
                final(state).re_seq(),
                final(state).im_seq(),
                qubits@,
                *row,
            ),
    {
        let ghost old_re = state.re_seq();
        let ghost old_im = state.im_seq();
        let ghost qs = qubits@;
        let n = state.n_qubits();
        proof {
            lemma_distinct_len(qs, n as usize);
        }
        let m = qubits.len();
        let sub: usize = 1usize << m;
        let sorted = sorted_positions(qubits);
        let ghost ss = sorted@;
        assert(block_layout(qs, ss, n as usize)) by {
            assert forall|k: int| 0 <= k < ss.len() implies (ss[k] as nat) < n as nat by {
                assert(crate::layout::has_pos(ss, ss[k] as usize));
                assert(crate::layout::has_pos(qs, ss[k] as usize));
            }
        }
        let dim = state.dim();
        let blocks = dim >> m;
        assert(blocks == (1usize << ((n - m) as usize))) by {
            crate::layout::lemma_pow_facts(n as usize, m);
        }
        let (re, im) = state.parts_mut();
        let mut o: usize = 0;
        while o < blocks
            invariant
                n < usize::BITS,
                block_layout(qs, ss, n as usize),
                qs == qubits@,
                ss == sorted@,
                m == qs.len(),
                sub == (1usize << m),
                valid_targets(qs, n),
                blocks == (1usize << ((n - m) as usize)),
                old_re.len() == (1usize << n),
                old_im.len() == (1usize << n),
                re@.len() == old_re.len(),
                im@.len() == old_im.len(),
                row_callable(*row),
                o <= blocks,
                forall|j: int| 0 <= j < old_re.len() ==> #[trigger] blocks_progress(
                    old_re,
                    old_im,
                    re@,
                    im@,
                    qs,
                    ss,
                    *row,
                    o,
                    j,
                ),
            decreases blocks - o,
        {
            let base = insert_zero_bits(o, sorted.as_slice());
            proof {
                crate::layout::lemma_pow_facts(n as usize, 0);
                lemma_anchor(o, qs, ss, n as usize, 0);
            }
            let ghost pre_re = re@;
            let ghost pre_im = im@;
            mq_block(re, im, row, qubits, base, sub, n);
            assert forall|j: int| 0 <= j < old_re.len() implies #[trigger] blocks_progress(
                old_re,
                old_im,
                re@,
                im@,
                qs,
                ss,
                *row,
                (o + 1) as usize,
                j,
            ) by {
                lemma_anchor(o, qs, ss, n as usize, j as usize);
                assert(blocks_progress(old_re, old_im, pre_re, pre_im, qs, ss, *row, o, j));
                assert(block_progress(pre_re, pre_im, re@, im@, qs, base, *row, sub, j));
                if block_of(j as usize, qs, ss) == o {
                    lemma_block_cover(j as usize, qs, ss, n as usize);
                    crate::backend::cpu::lemma_gather_bound(j as usize, qs, n as usize);
                    assert forall|c: int| 0 <= c < sub implies
                        #[trigger] (clear_bits(j as usize, qs) | scatter_spec(c as usize, qs)) < (1usize << n)
                        && pre_re[(clear_bits(j as usize, qs) | scatter_spec(c as usize, qs)) as int]
                            == old_re[(clear_bits(j as usize, qs) | scatter_spec(c as usize, qs)) as int]
                        && pre_im[(clear_bits(j as usize, qs) | scatter_spec(c as usize, qs)) as int]
                            == old_im[(clear_bits(j as usize, qs) | scatter_spec(c as usize, qs)) as int] by {
                        let x = (base | scatter_spec(c as usize, qs)) as usize;
                        crate::layout::lemma_compose(base, c as usize, qs, n as usize);
                        lemma_anchor(o, qs, ss, n as usize, x);
                        assert(blocks_progress(old_re, old_im, pre_re, pre_im, qs, ss, *row, o, x as int));
                    }
                    assert(column(pre_re, j as usize, qs) =~= column(old_re, j as usize, qs));
                    assert(column(pre_im, j as usize, qs) =~= column(old_im, j as usize, qs));
                }
            }
            o = o + 1;
        }
        assert forall|j: int| 0 <= j < old_re.len() implies #[trigger] row_output(
            *row,
            gather_spec(j as usize, qs),
            column(old_re, j as usize, qs),
            column(old_im, j as usize, qs),
            (re@[j], im@[j]),
        ) by {
            lemma_block_cover(j as usize, qs, ss, n as usize);
            assert(blocks_progress(old_re, old_im, re@, im@, qs, ss, *row, o, j));
        }
    }

    /// Apply a gate to `qubits`: the pair kernel for one qubit, the block kernel otherwise.
    pub fn apply<T: Copy, F: Fn(usize, &[T], &[T]) -> (T, T)>(
        &self,
        state: &mut StateVector<T>,
        row: &F,
        qubits: &[u32],
    )
        requires
            old(state).wf(),
            valid_targets(qubits@, old(state).qubits()),
            qubits@.len() == 1 || (1usize << qubits@.len()) <= MAX_SUB,
            row_callable(*row),
        ensures
            final(state).wf(),
            final(state).qubits() == old(state).qubits(),
            gate_applied(
                old(state).re_seq(),
                old(state).im_seq(),
                final(state).re_seq(),
                final(state).im_seq(),
                qubits@,
                *row,
            ),
    {
        if qubits.len() == 1 {
            assert(qubits@ =~= seq![qubits@[0]]);
            Self::apply_1q(state, row, qubits[0]);
        } else {
            Self::apply_mq(state, row, qubits);
        }
    }
}

/// Amplitude `j` of a multi-qubit pass over blocks: done (its block is below `o`), or as before.
pub open spec fn blocks_progress<T, F: Fn(usize, &[T], &[T]) -> (T, T)>(
    old_re: Seq<T>,
    old_im: Seq<T>,
    re: Seq<T>,
    im: Seq<T>,
    qs: Seq<u32>,
    sorted: Seq<u32>,
    f: F,
    o: usize,
    j: int,
) -> bool {
    if block_of(j as usize, qs, sorted) < o {
        row_output(
            f,
            gather_spec(j as usize, qs),
            column(old_re, j as usize, qs),
            column(old_im, j as usize, qs),
            (re[j], im[j]),
        )
    } else {
        re[j] == old_re[j] && im[j] == old_im[j]
    }
}

/// The anchor of block `o` is in range, zero on every gate position, and the indices whose
/// cleared word equals it are exactly those of block `o`.
pub proof fn lemma_anchor(o: usize, qs: Seq<u32>, sorted: Seq<u32>, n: usize, j: usize)
    requires
        block_layout(qs, sorted, n),
        o < (1usize << ((n - qs.len()) as usize)),
        j < (1usize << n),
    ensures
        insert_zero_bits_spec(o, sorted) < (1usize << n),
        clear_bits(insert_zero_bits_spec(o, sorted), qs) == insert_zero_bits_spec(o, sorted),
        (clear_bits(j, qs) == insert_zero_bits_spec(o, sorted)) == (block_of(j, qs, sorted) == o),
{
    let base = insert_zero_bits_spec(o, sorted);
    crate::layout::lemma_distinct_len(qs, n);
    let m = qs.len() as usize;
    crate::layout::lemma_pow_facts(n, m);
    lemma_block_index(o, 0, qs, sorted, n);
    lemma_below_widen(qs, n as nat, usize::BITS as nat);
    lemma_scatter_zero(qs);
    crate::layout::lemma_bit_facts(base, 0, 0, 0);
    assert(block_index(o, 0, qs, sorted) == base);
    lemma_block_cover(j, qs, sorted, n);
    lemma_below_widen(sorted, n as nat, (usize::BITS - 1) as nat);
    if clear_bits(j, qs) == base {
        lemma_remove_insert_bits(o, sorted, (n - qs.len()) as usize);
    }
}

/// Amplitude `j` of a 1-qubit pass: done (its pair index is below `i`), or as before.
pub open spec fn pair_progress<T, F: Fn(usize, &[T], &[T]) -> (T, T)>(
    old_re: Seq<T>,
    old_im: Seq<T>,
    re: Seq<T>,
    im: Seq<T>,
    q: u32,
    f: F,
    i: usize,
    j: int,
) -> bool {
    if remove_bit_spec(j as usize, q) < i {
        row_output(
            f,
            gather_spec(j as usize, seq![q]),
            column(old_re, j as usize, seq![q]),
            column(old_im, j as usize, seq![q]),
            (re[j], im[j]),
        )
    } else {
        re[j] == old_re[j] && im[j] == old_im[j]
    }
}

} // verus!
