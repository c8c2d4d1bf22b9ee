//! Gate-application kernels and what they compute.
//!
//! A gate on the ordered qubits `qs` acts on each block of `2^m` amplitudes that agree on all
//! other bits. Output amplitude `j` is row `gather(j, qs)` of a gate applied to that block's
//! column of inputs. The kernels here move amplitudes; the arithmetic of one row is a closure
//! supplied by the caller (`row(r, column_re, column_im)`), so every kernel — whatever its
//! iteration order — is specified by the same predicate [`gate_applied`].
pub mod bitshift;
pub mod cpu;
pub mod reference;
pub mod reshape;
pub mod simd;

use crate::layout::{
    all_below, bit, clear_bits, distinct, gather_spec, lemma_bit_and, lemma_bit_or, lemma_fits,
    lemma_distinct_len, lemma_scatter_bits, mask_spec, scatter_spec,
};
use vstd::prelude::*;

verus! {

/// The inputs of output amplitude `j`: the values at `clear_bits(j, qs) | scatter(c, qs)`,
/// for `c` in `0..2^m`.
pub open spec fn column<T>(v: Seq<T>, j: usize, qs: Seq<u32>) -> Seq<T> {
    Seq::new(
        (1usize << qs.len()) as nat,
        |c: int| v[(clear_bits(j, qs) | scatter_spec(c as usize, qs)) as int],
    )
}

/// `out` is a possible result of the row closure `f` on row `r` and the given column.
pub open spec fn row_output<T, F: Fn(usize, &[T], &[T]) -> (T, T)>(
    f: F,
    r: usize,
    cre: Seq<T>,
    cim: Seq<T>,
    out: (T, T),
) -> bool {
    exists|a: &[T], b: &[T]| a@ == cre && b@ == cim && #[trigger] call_ensures(f, (r, a, b), out)
}

/// The row closure may be called on any arguments.
pub open spec fn row_callable<T, F: Fn(usize, &[T], &[T]) -> (T, T)>(f: F) -> bool {
    forall|r: usize, a: &[T], b: &[T]| #[trigger] f.requires((r, a, b))
}

/// `(new_re, new_im)` is the state `(old_re, old_im)` after applying a gate given by the row
/// closure `f` to qubits `qs`: every output amplitude `j` is row `gather(j, qs)` of `f` on
/// the column of `j`.
pub open spec fn gate_applied<T, F: Fn(usize, &[T], &[T]) -> (T, T)>(
    old_re: Seq<T>,
    old_im: Seq<T>,
    new_re: Seq<T>,
    new_im: Seq<T>,
    qs: Seq<u32>,
    f: F,
) -> bool {
    &&& old_im.len() == old_re.len()
    &&& new_re.len() == old_re.len()
    &&& new_im.len() == old_im.len()
    &&& forall|j: int|
        0 <= j < old_re.len() ==> #[trigger] row_output(
            f,
            gather_spec(j as usize, qs),
            column(old_re, j as usize, qs),
            column(old_im, j as usize, qs),
            (new_re[j], new_im[j]),
        )
}

/// The qubits a gate may act on in an `n`-qubit register: distinct, each below `n`.
pub open spec fn valid_targets(qs: Seq<u32>, n: u32) -> bool {
    &&& distinct(qs)
    &&& all_below(qs, n as nat)
}

/// Every column index of an in-range output lies in range.
pub proof fn lemma_column_index(j: usize, c: usize, qs: Seq<u32>, n: usize)
    requires
        n < usize::BITS,
        distinct(qs),
        all_below(qs, n as nat),
        j < (1usize << n),
    ensures
        (clear_bits(j, qs) | scatter_spec(c, qs)) < (1usize << n),
{
    lemma_distinct_len(qs, n);
    let x = clear_bits(j, qs) | scatter_spec(c, qs);
    lemma_fits(j, n);
    assert forall|p: usize| n <= p < usize::BITS implies !bit(x, p) by {
        lemma_bit_or(clear_bits(j, qs), scatter_spec(c, qs), p);
        lemma_bit_and(j, !mask_spec(qs), p);
        lemma_scatter_bits(c, qs, p);
        if bit(scatter_spec(c, qs), p) {
            let i = choose|i: int| 0 <= i < qs.len() && qs[i] as usize == p && #[trigger] bit(c, i as usize);
        }
    }
    lemma_fits(x, n);
}

/// Two results of the same gate from the same state agree when the row closure is a function:
/// whichever kernel computed them, they are equal amplitude for amplitude.
pub proof fn lemma_gate_applied_unique<T, F: Fn(usize, &[T], &[T]) -> (T, T)>(
    old_re: Seq<T>,
    old_im: Seq<T>,
    re1: Seq<T>,
    im1: Seq<T>,
    re2: Seq<T>,
    im2: Seq<T>,
    qs: Seq<u32>,
    f: F,
)
    requires
        gate_applied(old_re, old_im, re1, im1, qs, f),
        gate_applied(old_re, old_im, re2, im2, qs, f),
        forall|r: usize, a: &[T], b: &[T], o1: (T, T), o2: (T, T)|
            call_ensures(f, (r, a, b), o1) && call_ensures(f, (r, a, b), o2) ==> o1 == o2,
    ensures
        re1 == re2,
        im1 == im2,
{
    assert forall|j: int| 0 <= j < old_re.len() implies re1[j] == re2[j] && im1[j] == im2[j] by {
        let r = gather_spec(j as usize, qs);
        let cre = column(old_re, j as usize, qs);
        let cim = column(old_im, j as usize, qs);
        assert(row_output(f, r, cre, cim, (re1[j], im1[j])));
        assert(row_output(f, r, cre, cim, (re2[j], im2[j])));
        let (a1, b1) = choose|a: &[T], b: &[T]| a@ == cre && b@ == cim && #[trigger] call_ensures(f, (r, a, b), (re1[j], im1[j]));
        let (a2, b2) = choose|a: &[T], b: &[T]| a@ == cre && b@ == cim && #[trigger] call_ensures(f, (r, a, b), (re2[j], im2[j]));
        vstd::slice::axiom_slice_ext_equal(a1, a2);
        vstd::slice::axiom_slice_ext_equal(b1, b2);
        assert(a1 == a2);
        assert(b1 == b2);
    }
    assert(re1 =~= re2);
    assert(im1 =~= im2);
}

} // verus!
