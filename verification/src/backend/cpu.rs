//! `CpuBackend`: the optimized CPU backend's kernels.
//!
//! A 1-qubit gate on qubit `q` is applied by walking the state in blocks of `2^(q+1)`, pairing
//! each block's lower half with its upper half in a sequential stride-1 walk (cache- and
//! prefetcher-friendly, and the shape threading splits on). A diagonal gate is one sequential
//! pass. A multi-qubit gate works block by block: gather the block's `2^m` amplitudes, apply
//! every row, scatter back.
use crate::backend::{column, gate_applied, row_callable, row_output, valid_targets};
use crate::backend::bitshift::BitShiftBackend;
use crate::gate::{gate_dim, DenseGate};
use crate::state::StateVector;
use crate::layout::{
    all_below, clear_bits, distinct, gather_spec, lemma_below_widen, lemma_clear_bits,
    lemma_compose, lemma_decompose, lemma_distinct_len, lemma_fits, lemma_gather_bits,
    lemma_single_position, gather_bits, scatter_bits, scatter_spec,
};
use vstd::prelude::*;

verus! {

/// Largest gate arity the block kernel is used for (`2^6` amplitudes per block).
pub const MAX_SUB: usize = 64;

/// Amplitude `j` of a multi-qubit block pass: done (rows below `r` of block `base`), or as before.
pub open spec fn block_progress<T, F: Fn(usize, &[T], &[T]) -> (T, T)>(
    old_re: Seq<T>,
    old_im: Seq<T>,
    re: Seq<T>,
    im: Seq<T>,
    qs: Seq<u32>,
    base: usize,
    f: F,
    r: usize,
    j: int,
) -> bool {
    if clear_bits(j as usize, qs) == base && gather_spec(j as usize, qs) < r {
        row_output(
            f,
            gather_spec(j as usize, qs),
            column(old_re, j as usize, qs),
            column(old_im, j as usize, qs),
            (re[j], im[j]),
        )
    } else {
        re[j] == old_re[j] && im[j] == old_im[j]
    }
}

/// The sub-index of an index below `2^n` on `m` distinct positions is below `2^m`.
pub proof fn lemma_gather_bound(j: usize, qs: Seq<u32>, n: usize)
    requires
        distinct(qs),
        all_below(qs, n as nat),
        n < usize::BITS,
    ensures
        gather_spec(j, qs) < (1usize << qs.len()),
{
    lemma_distinct_len(qs, n);
    lemma_below_widen(qs, n as nat, usize::BITS as nat);
    assert forall|p: usize| qs.len() <= p < usize::BITS implies !crate::layout::bit(gather_spec(j, qs), p) by {
        lemma_gather_bits(j, qs, p);
    }
    lemma_fits(gather_spec(j, qs), qs.len() as usize);
}

/// The results of one block of a multi-qubit gate, without writing them: gather the `2^m`
/// amplitudes `base | scatter(s)` and apply every row to them. Reads only, so blocks can be
/// computed side by side. The register has `n` qubits.
pub fn mq_block_outputs<T: Copy, F: Fn(usize, &[T], &[T]) -> (T, T)>(
    re: &[T],
    im: &[T],
    row: &F,
    qubits: &[u32],
    base: usize,
    sub: usize,
    n: u32,
) -> (out: (Vec<T>, Vec<T>))
    requires
        n < usize::BITS,
        re@.len() == (1usize << n),
        im@.len() == (1usize << n),
        valid_targets(qubits@, n),
        sub == (1usize << qubits@.len()),
        base < (1usize << n),
        clear_bits(base, qubits@) == base,
        row_callable(*row),
    ensures
        out.0@.len() == sub,
        out.1@.len() == sub,
        forall|r: int| 0 <= r < sub ==> #[trigger] row_output(
            *row,
            r as usize,
            column(re@, base, qubits@),
            column(im@, base, qubits@),
            (out.0@[r], out.1@[r]),
        ),
{
    let ghost qs = qubits@;
    proof {
        lemma_distinct_len(qs, n as usize);
        lemma_below_widen(qs, n as nat, usize::BITS as nat);
    }
    let mut buf_re: Vec<T> = Vec::with_capacity(sub);
    let mut buf_im: Vec<T> = Vec::with_capacity(sub);
    let mut s: usize = 0;
    while s < sub
        invariant
            n < usize::BITS,
            re@.len() == (1usize << n),
            im@.len() == (1usize << n),
            valid_targets(qs, n),
            qs.len() <= n,
            qs == qubits@,
            sub == (1usize << qs.len()),
            base < (1usize << n),
            clear_bits(base, qs) == base,
            s <= sub,
            buf_re@ == column(re@, base, qs).take(s as int),
            buf_im@ == column(im@, base, qs).take(s as int),
        decreases sub - s,
    {
        let idx = base | scatter_bits(s, qubits);
        proof {
            lemma_compose(base, s, qs, n as usize);
        }
        buf_re.push(re[idx]);
        buf_im.push(im[idx]);
        assert(buf_re@ =~= column(re@, base, qs).take((s + 1) as int));
        assert(buf_im@ =~= column(im@, base, qs).take((s + 1) as int));
        s = s + 1;
    }
    assert(buf_re@ =~= column(re@, base, qs));
    assert(buf_im@ =~= column(im@, base, qs));
    let mut out_re: Vec<T> = Vec::with_capacity(sub);
    let mut out_im: Vec<T> = Vec::with_capacity(sub);
    let mut r: usize = 0;
    while r < sub
        invariant
            buf_re@ == column(re@, base, qs),
            buf_im@ == column(im@, base, qs),
            row_callable(*row),
            r <= sub,
            out_re@.len() == r,
            out_im@.len() == r,
            forall|k: int| 0 <= k < r ==> #[trigger] row_output(
                *row,
                k as usize,
                column(re@, base, qs),
                column(im@, base, qs),
                (out_re@[k], out_im@[k]),
            ),
        decreases sub - r,
    {
        let out = row(r, buf_re.as_slice(), buf_im.as_slice());
        out_re.push(out.0);
        out_im.push(out.1);
        assert forall|k: int| 0 <= k < r + 1 implies #[trigger] row_output(
            *row,
            k as usize,
            column(re@, base, qs),
            column(im@, base, qs),
            (out_re@[k], out_im@[k]),
        ) by {
            if k == r as int {
                assert(row_output(*row, r, buf_re@, buf_im@, out));
            }
        }
        r = r + 1;
    }
    (out_re, out_im)
}

/// Write one block's results back in place: amplitude `base | scatter(r)` gets result `r`. The
/// register has `n` qubits.
pub fn store_block<T: Copy>(
    re: &mut [T],
    im: &mut [T],
    qubits: &[u32],
    base: usize,
    out_re: &[T],
    out_im: &[T],
    n: u32,
)
    requires
        n < usize::BITS,
        old(re)@.len() == (1usize << n),
        old(im)@.len() == (1usize << n),
        valid_targets(qubits@, n),
        out_re@.len() == (1usize << qubits@.len()),
        out_im@.len() == (1usize << qubits@.len()),
        base < (1usize << n),
        clear_bits(base, qubits@) == base,
    ensures
        final(re)@.len() == old(re)@.len(),
        final(im)@.len() == old(im)@.len(),
        forall|j: int| 0 <= j < old(re)@.len() ==> #[trigger] final(re)@[j] == if clear_bits(j as usize, qubits@)
            == base {
            out_re@[gather_spec(j as usize, qubits@) as int]
        } else {
            old(re)@[j]
        },
        forall|j: int| 0 <= j < old(im)@.len() ==> #[trigger] final(im)@[j] == if clear_bits(j as usize, qubits@)
            == base {
            out_im@[gather_spec(j as usize, qubits@) as int]
        } else {
            old(im)@[j]
        },
{
    let ghost old_re = re@;
    let ghost old_im = im@;
    let ghost qs = qubits@;
    proof {
        lemma_distinct_len(qs, n as usize);
        lemma_below_widen(qs, n as nat, usize::BITS as nat);
    }
    let sub = out_re.len();
    let mut r: usize = 0;
    while r < sub
        invariant
            n < usize::BITS,
            old_re.len() == (1usize << n),
            old_im.len() == (1usize << n),
            re@.len() == old_re.len(),
            im@.len() == old_im.len(),
            valid_targets(qs, n),
            qs.len() <= n,
            qs == qubits@,
            sub == (1usize << qs.len()),
            out_re@.len() == sub,
            out_im@.len() == sub,
            base < (1usize << n),
            clear_bits(base, qs) == base,
            r <= sub,
            forall|j: int| 0 <= j < old_re.len() ==> #[trigger] re@[j] == if clear_bits(j as usize, qs) == base
                && gather_spec(j as usize, qs) < r {
                out_re@[gather_spec(j as usize, qs) as int]
            } else {
                old_re[j]
            },
            forall|j: int| 0 <= j < old_im.len() ==> #[trigger] im@[j] == if clear_bits(j as usize, qs) == base
                && gather_spec(j as usize, qs) < r {
                out_im@[gather_spec(j as usize, qs) as int]
            } else {
                old_im[j]
            },
        decreases sub - r,
    {
        let idx = base | scatter_bits(r, qubits);
        proof {
            lemma_compose(base, r, qs, n as usize);
            lemma_clear_bits(idx, qs, n as usize);
        }
        let ghost pre_re = re@;
        let ghost pre_im = im@;
        re[idx] = out_re[r];
        im[idx] = out_im[r];
        assert forall|j: int| 0 <= j < old_re.len() implies #[trigger] re@[j] == if clear_bits(j as usize, qs)
            == base && gather_spec(j as usize, qs) < r + 1 {
            out_re@[gather_spec(j as usize, qs) as int]
        } else {
            old_re[j]
        } by {
            assert(pre_re[j] == re@[j] || j == idx as int);
            if j != idx as int {
                if clear_bits(j as usize, qs) == base && gather_spec(j as usize, qs) == r {
                    lemma_decompose(j as usize, qs);
                }
            }
        }
        assert forall|j: int| 0 <= j < old_im.len() implies #[trigger] im@[j] == if clear_bits(j as usize, qs)
            == base && gather_spec(j as usize, qs) < r + 1 {
            out_im@[gather_spec(j as usize, qs) as int]
        } else {
            old_im[j]
        } by {
            assert(pre_im[j] == im@[j] || j == idx as int);
            if j != idx as int {
                if clear_bits(j as usize, qs) == base && gather_spec(j as usize, qs) == r {
                    lemma_decompose(j as usize, qs);
                }
            }
        }
        r = r + 1;
    }
    assert forall|j: int| 0 <= j < old_re.len() && clear_bits(j as usize, qs) == base implies #[trigger] gather_spec(
        j as usize,
        qs,
    ) < sub by {
        lemma_gather_bound(j as usize, qs, n as usize);
    }
}

/// One block of a multi-qubit gate: gather the `2^m` amplitudes `base | scatter(s)`, apply every
/// row to them, and scatter the results back in place.
pub fn mq_block<T: Copy, F: Fn(usize, &[T], &[T]) -> (T, T)>(
    re: &mut [T],
    im: &mut [T],
    row: &F,
    qubits: &[u32],
    base: usize,
    sub: usize,
    n: u32,
)
    requires
        n < usize::BITS,
        old(re)@.len() == (1usize << n),
        old(im)@.len() == (1usize << n),
        valid_targets(qubits@, n),
        sub == (1usize << qubits@.len()),
        base < (1usize << n),
        clear_bits(base, qubits@) == base,
        row_callable(*row),
    ensures
        final(re)@.len() == old(re)@.len(),
        final(im)@.len() == old(im)@.len(),
        forall|j: int| 0 <= j < old(re)@.len() ==> #[trigger] block_progress(
            old(re)@,
            old(im)@,
            final(re)@,
            final(im)@,
            qubits@,
            base,
            *row,
            sub,
            j,
        ),
{
    let ghost old_re = re@;
    let ghost old_im = im@;
    let ghost qs = qubits@;
    let (out_re, out_im) = mq_block_outputs(re, im, row, qubits, base, sub, n);
    store_block(re, im, qubits, base, out_re.as_slice(), out_im.as_slice(), n);
    assert forall|j: int| 0 <= j < old_re.len() implies #[trigger] block_progress(
        old_re,
        old_im,
        re@,
        im@,
        qs,
        base,
        *row,
        sub,
        j,
    ) by {
        if clear_bits(j as usize, qs) == base {
            lemma_gather_bound(j as usize, qs, n as usize);
            let r = gather_spec(j as usize, qs) as int;
            assert(0 <= r < sub);
            assert(row_output(*row, r as usize, column(old_re, base, qs), column(old_im, base, qs), (out_re@[r], out_im@[r])));
            assert(column(old_re, j as usize, qs) == column(old_re, base, qs));
            assert(column(old_im, j as usize, qs) == column(old_im, base, qs));
        }
    }
}


/// Optimized CPU backend; `parallel` asks the caller's thread pool to split disjoint blocks.
#[derive(Clone, Copy, Debug)]
pub struct CpuBackend {
    parallel: bool,
}

impl CpuBackend {
    /// Whether this backend splits work across threads.
    pub closed spec fn is_parallel(&self) -> bool {
        self.parallel
    }

    /// Single-threaded.
    pub fn serial() -> (b: Self)
        ensures
            !b.is_parallel(),
    {
        Self { parallel: false }
    }

    /// Multithreaded above the size threshold; serial below it.
    pub fn parallel() -> (b: Self)
        ensures
            b.is_parallel(),
    {
        Self { parallel: true }
    }

    /// Whether this backend splits work across threads.
    pub fn threaded(&self) -> (p: bool)
        ensures
            p == self.is_parallel(),
    {
        self.parallel
    }
}

impl Default for CpuBackend {
    fn default() -> (b: Self)
        ensures
            b.is_parallel(),
    {
        Self::parallel()
    }
}

/// One pair of a nested block: the two-entry column `(x[lo + t], x[lo + t + half])`.
pub open spec fn pair_column<T>(v: Seq<T>, a: int, b: int) -> Seq<T> {
    seq![v[a], v[b]]
}

/// Apply a 1-qubit gate's two rows to the pairs `(lo + t, lo + t + half)`, `t < half`, in a
/// sequential stride-1 walk: the lower index gets row 0, the upper row 1.
#[verifier::spinoff_prover]
pub fn one_qubit_block<T: Copy, F: Fn(usize, &[T], &[T]) -> (T, T)>(
    re: &mut [T],
    im: &mut [T],
    lo: usize,
    half: usize,
    row: &F,
)
    requires
        lo + 2 * half <= old(re)@.len(),
        old(im)@.len() == old(re)@.len(),
        row_callable(*row),
    ensures
        final(re)@.len() == old(re)@.len(),
        final(im)@.len() == old(im)@.len(),
        forall|t: int| 0 <= t < half ==> {
            &&& #[trigger] row_output(
                *row,
                0,
                pair_column(old(re)@, lo + t, lo + t + half),
                pair_column(old(im)@, lo + t, lo + t + half),
                (final(re)@[lo + t], final(im)@[lo + t]),
            )
            &&& row_output(
                *row,
                1,
                pair_column(old(re)@, lo + t, lo + t + half),
                pair_column(old(im)@, lo + t, lo + t + half),
                (final(re)@[lo + t + half], final(im)@[lo + t + half]),
            )
        },
        forall|j: int| 0 <= j < old(re)@.len() && !(lo <= j < lo + 2 * half) ==>
            #[trigger] final(re)@[j] == old(re)@[j] && final(im)@[j] == old(im)@[j],
{
    let ghost old_re = re@;
    let ghost old_im = im@;
    let mut buf_re: Vec<T> = Vec::with_capacity(2);
    let mut buf_im: Vec<T> = Vec::with_capacity(2);
    let len = re.len();
    if half == 0 {
        return;
    }
    buf_re.push(re[lo]);
    buf_re.push(re[lo]);
    buf_im.push(im[lo]);
    buf_im.push(im[lo]);
    let mut t: usize = 0;
    while t < half
        invariant
            lo + 2 * half <= len,
            len == old_re.len(),
            old_im.len() == old_re.len(),
            re@.len() == old_re.len(),
            im@.len() == old_im.len(),
            buf_re@.len() == 2,
            buf_im@.len() == 2,
            row_callable(*row),
            t <= half,
            forall|u: int| 0 <= u < t ==> {
                &&& #[trigger] row_output(
                    *row,
                    0,
                    pair_column(old_re, lo + u, lo + u + half),
                    pair_column(old_im, lo + u, lo + u + half),
                    (re@[lo + u], im@[lo + u]),
                )
                &&& row_output(
                    *row,
                    1,
                    pair_column(old_re, lo + u, lo + u + half),
                    pair_column(old_im, lo + u, lo + u + half),
                    (re@[lo + u + half], im@[lo + u + half]),
                )
            },
            forall|j: int| 0 <= j < old_re.len() && !(lo <= j < lo + t) && !(lo + half <= j < lo + half + t) ==>
                #[trigger] re@[j] == old_re[j] && im@[j] == old_im[j],
        decreases half - t,
    {
        let a0 = lo + t;
        let a1 = a0 + half;
        buf_re.set(0, re[a0]);
        buf_re.set(1, re[a1]);
        buf_im.set(0, im[a0]);
        buf_im.set(1, im[a1]);
        assert(buf_re@ =~= pair_column(old_re, a0 as int, a1 as int));
        assert(buf_im@ =~= pair_column(old_im, a0 as int, a1 as int));
        let sr = buf_re.as_slice();
        let si = buf_im.as_slice();
        let y0 = row(0, sr, si);
        let y1 = row(1, sr, si);
        let ghost prev_re = re@;
        let ghost prev_im = im@;
        re[a0] = y0.0;
        im[a0] = y0.1;
        re[a1] = y1.0;
        im[a1] = y1.1;
        assert forall|j: int|
            0 <= j < old_re.len() && !(lo <= j < lo + t + 1) && !(lo + half <= j < lo + half + t + 1)
            implies #[trigger] re@[j] == old_re[j] && im@[j] == old_im[j] by {
            assert(j != a0 && j != a1);
            assert(re@[j] == prev_re[j] && im@[j] == prev_im[j]);
        }
        assert forall|u: int| 0 <= u < t + 1 implies {
            &&& #[trigger] row_output(
                *row,
                0,
                pair_column(old_re, lo + u, lo + u + half),
                pair_column(old_im, lo + u, lo + u + half),
                (re@[lo + u], im@[lo + u]),
            )
            &&& row_output(
                *row,
                1,
                pair_column(old_re, lo + u, lo + u + half),
                pair_column(old_im, lo + u, lo + u + half),
                (re@[lo + u + half], im@[lo + u + half]),
            )
        } by {
            let cre = pair_column(old_re, lo + u, lo + u + half);
            let cim = pair_column(old_im, lo + u, lo + u + half);
            if u < t {
                assert(row_output(*row, 0, cre, cim, (prev_re[lo + u], prev_im[lo + u])));
                assert(row_output(*row, 1, cre, cim, (prev_re[lo + u + half], prev_im[lo + u + half])));
                assert(re@[lo + u] == prev_re[lo + u] && im@[lo + u] == prev_im[lo + u]);
                assert(re@[lo + u + half] == prev_re[lo + u + half]);
                assert(im@[lo + u + half] == prev_im[lo + u + half]);
            } else {
                assert(sr@ == cre && si@ == cim);
                assert(call_ensures(*row, (0usize, sr, si), y0));
                assert(call_ensures(*row, (1usize, sr, si), y1));
                assert(re@[lo + u] == y0.0 && im@[lo + u] == y0.1);
                assert(re@[lo + u + half] == y1.0 && im@[lo + u + half] == y1.1);
            }
        }
        t = t + 1;
    }
}

/// One contiguous chunk of a diagonal gate: amplitude `o` of the chunk (global index
/// `base + o`) is multiplied by the diagonal entry of its sub-index on `qubits`.
pub fn diag_chunk<T: Copy, D: Fn(usize, T, T) -> (T, T)>(
    base: usize,
    re_c: &mut [T],
    im_c: &mut [T],
    diag: &D,
    qubits: &[u32],
)
    requires
        base + old(re_c)@.len() <= usize::MAX,
        old(im_c)@.len() == old(re_c)@.len(),
        qubits@.len() <= usize::BITS,
        all_below(qubits@, usize::BITS as nat),
        forall|s: usize, x: T, y: T| #[trigger] diag.requires((s, x, y)),
    ensures
        final(re_c)@.len() == old(re_c)@.len(),
        final(im_c)@.len() == old(im_c)@.len(),
        forall|o: int| 0 <= o < old(re_c)@.len() ==> #[trigger] call_ensures(
            *diag,
            (gather_spec((base + o) as usize, qubits@), old(re_c)@[o], old(im_c)@[o]),
            (final(re_c)@[o], final(im_c)@[o]),
        ),
{
    let ghost old_re = re_c@;
    let ghost old_im = im_c@;
    let len = re_c.len();
    let mut o: usize = 0;
    while o < len
        invariant
            len == old_re.len(),
            base + len <= usize::MAX,
            old_im.len() == old_re.len(),
            re_c@.len() == len,
            im_c@.len() == len,
            qubits@.len() <= usize::BITS,
            all_below(qubits@, usize::BITS as nat),
            forall|s: usize, x: T, y: T| #[trigger] diag.requires((s, x, y)),
            o <= len,
            forall|k: int| 0 <= k < o ==> #[trigger] call_ensures(
                *diag,
                (gather_spec((base + k) as usize, qubits@), old_re[k], old_im[k]),
                (re_c@[k], im_c@[k]),
            ),
            forall|k: int| o <= k < len ==> re_c@[k] == old_re[k] && im_c@[k] == old_im[k],
        decreases len - o,
    {
        let s = gather_bits(base + o, qubits);
        let y = diag(s, re_c[o], im_c[o]);
        re_c[o] = y.0;
        im_c[o] = y.1;
        o = o + 1;
    }
}

/// `(new_re, new_im)` is `(old_re, old_im)` with every amplitude `j` mapped by the diagonal
/// closure `f` at the sub-index of `j` on `qs`.
pub open spec fn diag_applied<T, D: Fn(usize, T, T) -> (T, T)>(
    old_re: Seq<T>,
    old_im: Seq<T>,
    new_re: Seq<T>,
    new_im: Seq<T>,
    qs: Seq<u32>,
    f: D,
) -> bool {
    &&& old_im.len() == old_re.len()
    &&& new_re.len() == old_re.len()
    &&& new_im.len() == old_im.len()
    &&& forall|j: int| 0 <= j < old_re.len() ==> #[trigger] call_ensures(
        f,
        (gather_spec(j as usize, qs), old_re[j], old_im[j]),
        (new_re[j], new_im[j]),
    )
}

/// Every off-diagonal entry of `g` is zero, as `is_zero` answers.
pub open spec fn is_diagonal_as<T, Z: Fn(T) -> bool>(g: DenseGate<T>, is_zero: Z) -> bool {
    forall|r: int, c: int|
        0 <= r < gate_dim(g.arity()) && 0 <= c < gate_dim(g.arity()) && r != c ==> call_ensures(
            is_zero,
            (#[trigger] g.entry(r, c),),
            true,
        )
}

/// Some off-diagonal entry of `g` is not zero, as `is_zero` answers.
pub open spec fn has_off_diagonal_as<T, Z: Fn(T) -> bool>(g: DenseGate<T>, is_zero: Z) -> bool {
    exists|r: int, c: int|
        0 <= r < gate_dim(g.arity()) && 0 <= c < gate_dim(g.arity()) && r != c && call_ensures(
            is_zero,
            (#[trigger] g.entry(r, c),),
            false,
        )
}

impl CpuBackend {
    /// Diagonal gate: one sequential pass, each amplitude scaled by its diagonal entry.
    pub fn apply_diagonal<T: Copy, D: Fn(usize, T, T) -> (T, T)>(
        &self,
        state: &mut StateVector<T>,
        diag: &D,
        qubits: &[u32],
    )
        requires
            old(state).wf(),
            valid_targets(qubits@, old(state).qubits()),
            forall|s: usize, x: T, y: T| #[trigger] diag.requires((s, x, y)),
        ensures
            final(state).wf(),
            final(state).qubits() == old(state).qubits(),
            diag_applied(
                old(state).re_seq(),
                old(state).im_seq(),
                final(state).re_seq(),
                final(state).im_seq(),
                qubits@,
                *diag,
            ),
    {
        let ghost old_re = state.re_seq();
        let ghost old_im = state.im_seq();
        proof {
            lemma_distinct_len(qubits@, state.qubits() as usize);
            lemma_below_widen(qubits@, state.qubits() as nat, usize::BITS as nat);
        }
        let (re, im) = state.parts_mut();
        diag_chunk(0, re, im, diag, qubits);
        assert forall|j: int| 0 <= j < old_re.len() implies #[trigger] call_ensures(
            *diag,
            (gather_spec(j as usize, qubits@), old_re[j], old_im[j]),
            (re@[j], im@[j]),
        ) by {
            assert((0 + j) as usize == j as usize);
        }
    }

    /// Nested-block 1-qubit kernel: blocks of `2^(q+1)` amplitudes, lower half paired with
    /// upper half.
    pub fn apply_1q<T: Copy, F: Fn(usize, &[T], &[T]) -> (T, T)>(
        &self,
        state: &mut StateVector<T>,
        row: &F,
        q: u32,
    )
        requires
            old(state).wf(),
            q < old(state).qubits(),
            row_callable(*row),
        ensures
            final(state).wf(),
            final(state).qubits() == old(state).qubits(),
            gate_applied(
                old(state).re_seq(),
                old(state).im_seq(),
                final(state).re_seq(),
                final(state).im_seq(),
                seq![q],
                *row,
            ),
    {
        let ghost old_re = state.re_seq();
        let ghost old_im = state.im_seq();
        let ghost qs = seq![q];
        let n = state.n_qubits();
        let half: usize = 1usize << q;
        let block: usize = half << 1;
        let dim = state.dim();
        let nblocks = dim >> (q + 1);
        let ghost nn = n as usize;
        let ghost qq = q as usize;
        proof {
            let q1 = (qq + 1) as usize;
            assert(block == (1usize << q1) && block == 2 * half) by (bit_vector)
                requires qq < nn, nn < usize::BITS, half == 1usize << qq, block == half << 1usize,
                    q1 == qq + 1;
        }
        let (re, im) = state.parts_mut();
        let mut blk: usize = 0;
        while blk < nblocks
            invariant
                q < n,
                n < usize::BITS,
                nn == n as usize,
                qq == q as usize,
                qs == seq![q],
                half == (1usize << qq),
                block == 2 * half,
                block == (1usize << ((qq + 1) as usize)),
                dim == (1usize << nn),
                nblocks == dim >> ((qq + 1) as usize),
                old_re.len() == dim,
                old_im.len() == dim,
                re@.len() == dim,
                im@.len() == dim,
                row_callable(*row),
                blk <= nblocks,
                forall|j: int| 0 <= j < dim ==> #[trigger] nested_progress(
                    old_re,
                    old_im,
                    re@,
                    im@,
                    q,
                    *row,
                    blk,
                    j,
                ),
            decreases nblocks - blk,
        {
            proof {
                let q1 = (qq + 1) as usize;
                assert(blk * block + block <= dim) by (bit_vector)
                    requires block == (1usize << q1), q1 <= nn, nn < usize::BITS,
                        dim == (1usize << nn), blk < (dim >> q1);
            }
            let lo = blk * block;
            let ghost pre_re = re@;
            let ghost pre_im = im@;
            one_qubit_block(re, im, lo, half, row);
            assert forall|j: int| 0 <= j < dim implies #[trigger] nested_progress(
                old_re,
                old_im,
                re@,
                im@,
                q,
                *row,
                (blk + 1) as usize,
                j,
            ) by {
                assert(nested_progress(old_re, old_im, pre_re, pre_im, q, *row, blk, j));
                lemma_nested_index(j as usize, blk, lo, q, n);
                if (j as usize) >> ((qq + 1) as usize) == blk {
                    let t = (j as usize) & ((half - 1) as usize);
                    let a0 = lo + t;
                    let a1 = lo + t + half;
                    assert(nested_progress(old_re, old_im, pre_re, pre_im, q, *row, blk, a0 as int));
                    assert(nested_progress(old_re, old_im, pre_re, pre_im, q, *row, blk, a1 as int));
                    lemma_nested_index(a0 as usize, blk, lo, q, n);
                    lemma_nested_index(a1 as usize, blk, lo, q, n);
                    assert(row_output(
                        *row,
                        0,
                        pair_column(pre_re, lo + t, lo + t + half),
                        pair_column(pre_im, lo + t, lo + t + half),
                        (re@[lo + t], im@[lo + t]),
                    ));
                    assert(pair_column(pre_re, lo + t, lo + t + half) =~= column(old_re, j as usize, qs));
                    assert(pair_column(pre_im, lo + t, lo + t + half) =~= column(old_im, j as usize, qs));
                }
            }
            blk = blk + 1;
        }
        assert forall|j: int| 0 <= j < old_re.len() implies #[trigger] row_output(
            *row,
            gather_spec(j as usize, qs),
            column(old_re, j as usize, qs),
            column(old_im, j as usize, qs),
            (re@[j], im@[j]),
        ) by {
            lemma_nested_index(j as usize, 0, 0, q, n);
            assert(nested_progress(old_re, old_im, re@, im@, q, *row, blk, j));
        }
    }

    /// Multi-qubit gate: the serial block walk of [`BitShiftBackend::apply_mq`], one
    /// [`mq_block`] per block.
    pub fn apply_mq<T: Copy, F: Fn(usize, &[T], &[T]) -> (T, T)>(
        &self,
        state: &mut StateVector<T>,
        row: &F,
        qubits: &[u32],
    )
        requires
            old(state).wf(),
            valid_targets(qubits@, old(state).qubits()),
            (1usize << qubits@.len()) <= MAX_SUB,
            row_callable(*row),
        ensures
            final(state).wf(),
            final(state).qubits() == old(state).qubits(),
            gate_applied(
                old(state).re_seq(),
                old(state).im_seq(),
                final(state).re_seq(),
                final(state).im_seq(),
                qubits@,
                *row,
            ),
    {
        BitShiftBackend::apply_mq(state, row, qubits);
    }

    /// Apply a gate: a diagonal gate (every off-diagonal entry zero, as `is_zero` tells) in one
    /// sequential pass with `diag`, a one-qubit gate with the nested-block kernel, any other with
    /// the block kernel, both with `row`. `row(r, xs_re, xs_im)` is row `r` of the matrix applied
    /// to a column; `diag(s, x_re, x_im)` is diagonal entry `s` times an amplitude.
    pub fn apply<
        T: Copy,
        E: Copy,
        F: Fn(usize, &[T], &[T]) -> (T, T),
        D: Fn(usize, T, T) -> (T, T),
        Z: Fn(E) -> bool,
    >(
        &self,
        state: &mut StateVector<T>,
        gate: &DenseGate<E>,
        row: &F,
        diag: &D,
        is_zero: &Z,
        qubits: &[u32],
    )
        requires
            old(state).wf(),
            gate.wf(),
            qubits@.len() == gate.arity(),
            valid_targets(qubits@, old(state).qubits()),
            (1usize << qubits@.len()) <= MAX_SUB,
            row_callable(*row),
            forall|s: usize, x: T, y: T| #[trigger] diag.requires((s, x, y)),
            forall|e: E| #[trigger] is_zero.requires((e,)),
        ensures
            final(state).wf(),
            final(state).qubits() == old(state).qubits(),
            is_diagonal_as(*gate, *is_zero) && diag_applied(
                old(state).re_seq(),
                old(state).im_seq(),
                final(state).re_seq(),
                final(state).im_seq(),
                qubits@,
                *diag,
            ) || has_off_diagonal_as(*gate, *is_zero) && gate_applied(
                old(state).re_seq(),
                old(state).im_seq(),
                final(state).re_seq(),
                final(state).im_seq(),
                qubits@,
                *row,
            ),
    {
        if gate.is_diagonal(is_zero) {
            self.apply_diagonal(state, diag, qubits);
        } else if qubits.len() == 1 {
            assert(qubits@ == seq![qubits@[0]]);
            self.apply_1q(state, row, qubits[0]);
        } else {
            self.apply_mq(state, row, qubits);
        }
    }
}

/// Amplitude `j` of a nested-block pass: done (its block `j >> (q+1)` is below `blk`), or as
/// before.
pub open spec fn nested_progress<T, F: Fn(usize, &[T], &[T]) -> (T, T)>(
    old_re: Seq<T>,
    old_im: Seq<T>,
    re: Seq<T>,
    im: Seq<T>,
    q: u32,
    f: F,
    blk: usize,
    j: int,
) -> bool {
    if (j as usize) >> ((q + 1) as usize) < blk {
        row_output(
            f,
            gather_spec(j as usize, seq![q]),
            column(old_re, j as usize, seq![q]),
            column(old_im, j as usize, seq![q]),
            (re[j], im[j]),
        )
    } else {
        re[j] == old_re[j] && im[j] == old_im[j]
    }
}

/// Index `j` in nested block `blk` (starting at `lo = blk · 2^(q+1)`) is `lo + t` or
/// `lo + t + 2^q` with `t` its low `q` bits; its column on `q` is that pair.
pub proof fn lemma_nested_index(j: usize, blk: usize, lo: usize, q: u32, n: u32)
    requires
        q < n,
        n < usize::BITS,
        j < (1usize << n),
        lo == blk * (1usize << ((q + 1) as usize)),
        blk < ((1usize << n) >> ((q + 1) as usize)) || (blk == 0 && lo == 0),
    ensures
        (j >> ((q + 1) as usize)) < ((1usize << n) >> ((q + 1) as usize)),
        (j >> ((q + 1) as usize)) < blk ==> j < lo,
        (j >> ((q + 1) as usize)) > blk ==> j >= lo + 2 * (1usize << q),
        (j >> ((q + 1) as usize)) == blk ==> {
            let t = j & (((1usize << q) - 1) as usize);
            let half = 1usize << q;
            &&& t < half
            &&& lo + t + half < (1usize << n)
            &&& (j == lo + t || j == lo + t + half)
            &&& ((lo + t) as usize) >> ((q + 1) as usize) == blk
            &&& ((lo + t + half) as usize) >> ((q + 1) as usize) == blk
            &&& gather_spec(j, seq![q]) == (if j == lo + t { 0usize } else { 1usize })
            &&& clear_bits(j, seq![q]) == lo + t
            &&& scatter_spec(0, seq![q]) == 0
            &&& scatter_spec(1, seq![q]) == half
            &&& ((lo + t) as usize | 0usize) == lo + t
            &&& ((lo + t) as usize | half) == lo + t + half
            &&& (1usize << seq![q].len()) == 2
        },
{
    let qq = q as usize;
    let nn = n as usize;
    let q1 = (q + 1) as usize;
    let half = 1usize << qq;
    let low = ((1usize << qq) - 1) as usize;
    lemma_single_position(j, 0, q);
    lemma_single_position(j, 1, q);
    assert(lo == blk << q1) by (bit_vector)
        requires lo == blk * (1usize << q1), q1 < usize::BITS, nn < usize::BITS, q1 <= nn,
            blk < ((1usize << nn) >> q1) || (blk == 0 && lo == 0);
    assert((j >> q1) < ((1usize << nn) >> q1) && ((j >> q1) < blk ==> j < lo) && ((j >> q1) > blk
        ==> j >= lo + 2 * half)) by (bit_vector)
        requires j < (1usize << nn), q1 <= nn, nn < usize::BITS, q1 == qq + 1, half == 1usize << qq,
            lo == blk << q1, blk < ((1usize << nn) >> q1) || (blk == 0 && lo == 0);
    if (j >> q1) == blk {
        let t = j & low;
        assert({
            &&& t < half
            &&& lo + t + half < (1usize << nn)
            &&& (j == lo + t || j == lo + t + half)
            &&& ((lo + t) as usize) >> q1 == blk
            &&& ((lo + t + half) as usize) >> q1 == blk
            &&& (j >> qq) & 1usize == (if j == lo + t { 0usize } else { 1usize })
            &&& j & !(1usize << qq) == lo + t
            &&& ((lo + t) as usize | 0usize) == lo + t
            &&& ((lo + t) as usize | half) == lo + t + half
        }) by (bit_vector)
            requires j < (1usize << nn), q1 <= nn, nn < usize::BITS, q1 == qq + 1,
                half == 1usize << qq, low == ((1usize << qq) - 1) as usize, t == j & low,
                lo == blk << q1, (j >> q1) == blk;
        assert((0usize & 1usize) << qq == 0usize && (1usize & 1usize) << qq == half
            && (1usize << 1usize) == 2usize) by (bit_vector)
            requires qq < usize::BITS, half == 1usize << qq;
    }
}

} // verus!
