//! Composition of consecutive gates into one matrix on a group of qubits.
//!
//! A member gate acts on some of the group's qubits; embedded in the group's space it acts as
//! the identity on the others. Composing the members in order multiplies these embedded
//! matrices onto the identity, `M ← E(g)·M`. Entries are of the caller's scalar type: `fma`
//! computes `acc + e·x`, and coefficients that `is_zero` reports as zero are skipped.
use crate::backend::cpu::lemma_gather_bound;
use crate::circuit::GateOp;
use crate::fusion::{
    gather_local, lemma_set_local_bits, local_ok, local_positions, positions, set_local,
    set_local_spec,
};
use crate::gate::{gate_dim, lemma_dim_sq, lemma_entry_index, DenseGate};
use crate::layout::{all_below, bit, distinct, gather_spec, lemma_fits};
use vstd::prelude::*;

verus! {

/// Entry `(r, c)` of a row-major matrix of side `dim`.
pub open spec fn mat_entry<T>(m: Seq<T>, dim: nat, r: int, c: int) -> T {
    m[r * dim + c]
}

/// `m` is the `dim × dim` identity with entries `zero` and `one`.
pub open spec fn is_identity<T>(m: Seq<T>, dim: nat, zero: T, one: T) -> bool {
    &&& m.len() == dim * dim
    &&& forall|r: int, c: int|
        0 <= r < dim && 0 <= c < dim ==> #[trigger] mat_entry(m, dim, r, c) == if r == c {
            one
        } else {
            zero
        }
}

/// Step `k` of an accumulation: `acc[k + 1]` is `acc[k]` when `is_zero` reports the
/// coefficient `es[k]` as zero, and a result of `fma(acc[k], es[k], xs[k])` otherwise.
pub open spec fn acc_step<T, M: Fn(T, T, T) -> T, Z: Fn(T) -> bool>(
    fma: M,
    is_zero: Z,
    es: Seq<T>,
    xs: Seq<T>,
    acc: Seq<T>,
    k: int,
) -> bool {
    ||| call_ensures(is_zero, (es[k],), true) && acc[k + 1] == acc[k]
    ||| call_ensures(is_zero, (es[k],), false) && call_ensures(fma, (acc[k], es[k], xs[k]), acc[k + 1])
}

/// `acc` is the run of partial sums of `Σ_k es[k]·xs[k]`, starting from `zero`.
pub open spec fn acc_chain<T, M: Fn(T, T, T) -> T, Z: Fn(T) -> bool>(
    fma: M,
    is_zero: Z,
    zero: T,
    es: Seq<T>,
    xs: Seq<T>,
    acc: Seq<T>,
) -> bool {
    &&& acc.len() == es.len() + 1
    &&& acc[0] == zero
    &&& forall|k: int| 0 <= k < es.len() ==> #[trigger] acc_step(fma, is_zero, es, xs, acc, k)
}

/// `out` is a result of accumulating `Σ_k es[k]·xs[k]` from `zero`, in order of `k`, skipping
/// the coefficients reported as zero.
pub open spec fn accumulates<T, M: Fn(T, T, T) -> T, Z: Fn(T) -> bool>(
    fma: M,
    is_zero: Z,
    zero: T,
    es: Seq<T>,
    xs: Seq<T>,
    out: T,
) -> bool {
    exists|acc: Seq<T>| #[trigger] acc_chain(fma, is_zero, zero, es, xs, acc) && acc.last() == out
}

/// The coefficients of output row `r`: row `gather(r, local)` of `g`.
pub open spec fn row_coeffs<T>(g: DenseGate<T>, r: usize, local: Seq<usize>) -> Seq<T> {
    Seq::new(
        gate_dim(g.arity()),
        |k: int| g.entry(gather_spec(r, positions(local)) as int, k),
    )
}

/// The inputs of output entry `(r, c)`: column `c` of `a` at the rows `set_local(r, local, k)`.
pub open spec fn col_inputs<T>(a: Seq<T>, dim: nat, r: usize, c: int, local: Seq<usize>, n: nat) -> Seq<T> {
    Seq::new(n, |k: int| mat_entry(a, dim, set_local_spec(r, local, k as usize) as int, c))
}

/// Entry `(r, c)` of `b` is row `r` of `g` embedded at `local` times column `c` of `a`.
pub open spec fn embed_entry<T, M: Fn(T, T, T) -> T, Z: Fn(T) -> bool>(
    fma: M,
    is_zero: Z,
    zero: T,
    a: Seq<T>,
    dim: nat,
    g: DenseGate<T>,
    local: Seq<usize>,
    b: Seq<T>,
    r: int,
    c: int,
) -> bool {
    accumulates(
        fma,
        is_zero,
        zero,
        row_coeffs(g, r as usize, local),
        col_inputs(a, dim, r as usize, c, local, gate_dim(g.arity())),
        mat_entry(b, dim, r, c),
    )
}

/// `b = E(g)·a`, where `E(g)` is `g` acting on the positions `local` of a `dim`-sided space and
/// as the identity on the other positions.
pub open spec fn embed_step<T, M: Fn(T, T, T) -> T, Z: Fn(T) -> bool>(
    fma: M,
    is_zero: Z,
    zero: T,
    a: Seq<T>,
    dim: nat,
    g: DenseGate<T>,
    local: Seq<usize>,
    b: Seq<T>,
) -> bool {
    &&& b.len() == dim * dim
    &&& forall|r: int, c: int|
        0 <= r < dim && 0 <= c < dim ==> #[trigger] embed_entry(fma, is_zero, zero, a, dim, g, local, b, r, c)
}

/// The position within `q` of each qubit of `qs`.
pub open spec fn local_of(q: Seq<u32>, qs: Seq<u32>) -> Seq<usize> {
    Seq::new(qs.len(), |j: int| (choose|i: int| 0 <= i < q.len() && q[i] == qs[j]) as usize)
}

/// Link `t` of a composition: `mats[t + 1]` is member `t` embedded, times `mats[t]`.
pub open spec fn compose_link<T, M: Fn(T, T, T) -> T, Z: Fn(T) -> bool>(
    fma: M,
    is_zero: Z,
    zero: T,
    q: Seq<u32>,
    members: Seq<GateOp<T>>,
    mats: Seq<Seq<T>>,
    t: int,
) -> bool {
    embed_step(
        fma,
        is_zero,
        zero,
        mats[t],
        gate_dim(q.len() as u32),
        members[t].gate_spec(),
        local_of(q, members[t].qubits_spec()),
        mats[t + 1],
    )
}

/// `mats` runs the composition of `members` over the group qubits `q`: it starts at the
/// identity, and each member multiplies the previous matrix.
pub open spec fn compose_chain<T, M: Fn(T, T, T) -> T, Z: Fn(T) -> bool>(
    fma: M,
    is_zero: Z,
    zero: T,
    one: T,
    q: Seq<u32>,
    members: Seq<GateOp<T>>,
    mats: Seq<Seq<T>>,
) -> bool {
    &&& mats.len() == members.len() + 1
    &&& is_identity(mats[0], gate_dim(q.len() as u32), zero, one)
    &&& forall|t: int| 0 <= t < members.len() ==> #[trigger] compose_link(fma, is_zero, zero, q, members, mats, t)
}

/// `result` is the product of `members`' embedded matrices, the first member applied first.
pub open spec fn group_composed<T, M: Fn(T, T, T) -> T, Z: Fn(T) -> bool>(
    fma: M,
    is_zero: Z,
    zero: T,
    one: T,
    q: Seq<u32>,
    members: Seq<GateOp<T>>,
    result: Seq<T>,
) -> bool {
    exists|mats: Seq<Seq<T>>| #[trigger] compose_chain(fma, is_zero, zero, one, q, members, mats) && mats.last() == result
}

/// A member gate can be embedded in the group `q`: a well-formed matrix on as many distinct
/// qubits as it lists, all of them in `q`.
pub open spec fn member_fits<T>(q: Seq<u32>, op: GateOp<T>) -> bool {
    &&& op.gate_spec().wf()
    &&& op.qubits_spec().len() == op.gate_spec().arity()
    &&& distinct(op.qubits_spec())
    &&& forall|j: int| 0 <= j < op.qubits_spec().len() ==> q.contains(#[trigger] op.qubits_spec()[j])
}

/// The closures may be called on any arguments.
pub open spec fn scalar_ops_callable<T, M: Fn(T, T, T) -> T, Z: Fn(T) -> bool>(fma: M, is_zero: Z) -> bool {
    &&& forall|a: T, e: T, x: T| #[trigger] fma.requires((a, e, x))
    &&& forall|e: T| #[trigger] is_zero.requires((e,))
}

/// Flat positions of earlier rows come first.
proof fn lemma_flat_before(i: int, c: int, r: int, dim: int)
    by (nonlinear_arith)
    requires
        0 <= i < r,
        0 <= c < dim,
    ensures
        i * dim + c < r * dim,
{
}

/// The next row starts right after this one.
proof fn lemma_next_row(r: int, dim: int)
    by (nonlinear_arith)
    ensures
        r * dim + dim == (r + 1) * dim,
{
}

/// The `dim × dim` identity with entries `zero` and `one`.
fn identity<T: Copy>(dim: usize, zero: T, one: T) -> (m: Vec<T>)
    requires
        dim * dim <= usize::MAX,
    ensures
        is_identity(m@, dim as nat, zero, one),
{
    let mut m: Vec<T> = Vec::with_capacity(dim * dim);
    let mut r: usize = 0;
    while r < dim
        invariant
            r <= dim,
            dim * dim <= usize::MAX,
            m@.len() == r * dim,
            forall|i: int, c: int|
                0 <= i < r && 0 <= c < dim ==> #[trigger] mat_entry(m@, dim as nat, i, c) == if i == c {
                    one
                } else {
                    zero
                },
        decreases dim - r,
    {
        let mut c: usize = 0;
        while c < dim
            invariant
                r < dim,
                c <= dim,
                dim * dim <= usize::MAX,
                m@.len() == r * dim + c,
                forall|i: int, k: int|
                    0 <= i < r && 0 <= k < dim ==> #[trigger] mat_entry(m@, dim as nat, i, k) == if i == k {
                        one
                    } else {
                        zero
                    },
                forall|k: int|
                    0 <= k < c ==> #[trigger] mat_entry(m@, dim as nat, r as int, k) == if r == k {
                        one
                    } else {
                        zero
                    },
            decreases dim - c,
        {
            proof {
                lemma_entry_index(r as int, c as int, dim as int);
            }
            let ghost before = m@;
            m.push(if r == c { one } else { zero });
            proof {
                assert forall|i: int, k: int| 0 <= i < r && 0 <= k < dim implies #[trigger] mat_entry(
                    m@,
                    dim as nat,
                    i,
                    k,
                ) == mat_entry(before, dim as nat, i, k) by {
                    lemma_flat_before(i, k, r as int, dim as int);
                    lemma_entry_index(i, k, dim as int);
                }
                assert forall|k: int| 0 <= k <= c implies #[trigger] mat_entry(m@, dim as nat, r as int, k)
                    == if r == k { one } else { zero } by {
                    if k < c {
                        assert(mat_entry(m@, dim as nat, r as int, k) == mat_entry(before, dim as nat, r as int, k));
                    }
                }
            }
            c = c + 1;
        }
        proof {
            lemma_next_row(r as int, dim as int);
        }
        r = r + 1;
    }
    m
}

/// Replacing positions below `m` of an index below `2^m` keeps it below `2^m`.
proof fn lemma_set_local_bound(x: usize, local: Seq<usize>, sub: usize, m: usize)
    requires
        local_ok(local),
        distinct(positions(local)),
        m < usize::BITS,
        x < (1usize << m),
        forall|j: int| 0 <= j < local.len() ==> local[j] < m,
    ensures
        set_local_spec(x, local, sub) < (1usize << m),
{
    lemma_fits(x, m);
    let y = set_local_spec(x, local, sub);
    assert forall|p: usize| m <= p < usize::BITS implies !bit(y, p) by {
        lemma_set_local_bits(x, local, sub, p);
    }
    lemma_fits(y, m);
}

/// The positions `local` of a group of `m` qubits, as the layout helpers see them.
pub open spec fn local_in(local: Seq<usize>, m: usize) -> bool {
    &&& local_ok(local)
    &&& distinct(positions(local))
    &&& forall|j: int| 0 <= j < local.len() ==> local[j] < m
}

/// Entry `(r, c)` of `E(g)·a`: row `r` of the embedded gate against column `c` of `a`.
fn entry_sum<T: Copy, M: Fn(T, T, T) -> T, Z: Fn(T) -> bool>(
    g: &DenseGate<T>,
    a: &Vec<T>,
    m: usize,
    dim: usize,
    r: usize,
    c: usize,
    local: &Vec<usize>,
    zero: T,
    fma: &M,
    is_zero: &Z,
) -> (out: T)
    requires
        2 * m < usize::BITS,
        dim == (1usize << m),
        a@.len() == dim * dim,
        g.wf(),
        local@.len() == g.arity(),
        local_in(local@, m),
        r < dim,
        c < dim,
        scalar_ops_callable(*fma, *is_zero),
    ensures
        accumulates(
            *fma,
            *is_zero,
            zero,
            row_coeffs(*g, r, local@),
            col_inputs(a@, dim as nat, r, c as int, local@, gate_dim(g.arity())),
            out,
        ),
{
    let ghost es = row_coeffs(*g, r, local@);
    let ghost xs = col_inputs(a@, dim as nat, r, c as int, local@, gate_dim(g.arity()));
    proof {
        lemma_dim_sq(m as u32);
        assert(all_below(positions(local@), m as nat));
        lemma_gather_bound(r, positions(local@), m);
    }
    let rsub = gather_local(r, local.as_slice());
    let nsub = g.dim();
    let mut acc = zero;
    let ghost mut chain: Seq<T> = seq![zero];
    let mut k: usize = 0;
    while k < nsub
        invariant
            2 * m < usize::BITS,
            dim == (1usize << m),
            dim * dim <= usize::MAX,
            a@.len() == dim * dim,
            g.wf(),
            local@.len() == g.arity(),
            local_in(local@, m),
            r < dim,
            c < dim,
            scalar_ops_callable(*fma, *is_zero),
            rsub == gather_spec(r, positions(local@)),
            rsub < nsub,
            nsub == gate_dim(g.arity()),
            es == row_coeffs(*g, r, local@),
            xs == col_inputs(a@, dim as nat, r, c as int, local@, gate_dim(g.arity())),
            k <= nsub,
            chain.len() == k + 1,
            chain[0] == zero,
            chain.last() == acc,
            forall|j: int| 0 <= j < k ==> #[trigger] acc_step(*fma, *is_zero, es, xs, chain, j),
        decreases nsub - k,
    {
        let e = g.at(rsub, k);
        let skip = is_zero(e);
        let ghost prev = chain;
        if !skip {
            let kk = set_local(r, local.as_slice(), k);
            proof {
                lemma_set_local_bound(r, local@, k, m);
                lemma_entry_index(kk as int, c as int, dim as int);
            }
            let x = a[kk * dim + c];
            acc = fma(acc, e, x);
        }
        proof {
            chain = chain.push(acc);
            assert forall|j: int| 0 <= j <= k implies #[trigger] acc_step(*fma, *is_zero, es, xs, chain, j) by {
                if j < k {
                    assert(acc_step(*fma, *is_zero, es, xs, prev, j));
                    assert(chain[j] == prev[j] && chain[j + 1] == prev[j + 1]);
                }
            }
        }
        k = k + 1;
    }
    assert(acc_chain(*fma, *is_zero, zero, es, xs, chain));
    acc
}

/// `E(g)·a`: `g` embedded at positions `local` of the group, times `a`.
fn embed_apply<T: Copy, M: Fn(T, T, T) -> T, Z: Fn(T) -> bool>(
    a: &Vec<T>,
    m: usize,
    dim: usize,
    g: &DenseGate<T>,
    local: &Vec<usize>,
    zero: T,
    fma: &M,
    is_zero: &Z,
) -> (b: Vec<T>)
    requires
        2 * m < usize::BITS,
        dim == (1usize << m),
        a@.len() == dim * dim,
        g.wf(),
        local@.len() == g.arity(),
        local_in(local@, m),
        scalar_ops_callable(*fma, *is_zero),
    ensures
        embed_step(*fma, *is_zero, zero, a@, dim as nat, *g, local@, b@),
{
    proof {
        lemma_dim_sq(m as u32);
    }
    let mut b: Vec<T> = Vec::with_capacity(dim * dim);
    let mut r: usize = 0;
    while r < dim
        invariant
            2 * m < usize::BITS,
            dim == (1usize << m),
            dim * dim <= usize::MAX,
            a@.len() == dim * dim,
            g.wf(),
            local@.len() == g.arity(),
            local_in(local@, m),
            scalar_ops_callable(*fma, *is_zero),
            r <= dim,
            b@.len() == r * dim,
            forall|i: int, k: int|
                0 <= i < r && 0 <= k < dim ==> #[trigger] embed_entry(*fma, *is_zero, zero, a@, dim as nat, *g, local@, b@, i, k),
        decreases dim - r,
    {
        let mut c: usize = 0;
        while c < dim
            invariant
                2 * m < usize::BITS,
                dim == (1usize << m),
                dim * dim <= usize::MAX,
                a@.len() == dim * dim,
                g.wf(),
                local@.len() == g.arity(),
                local_in(local@, m),
                scalar_ops_callable(*fma, *is_zero),
                r < dim,
                c <= dim,
                b@.len() == r * dim + c,
                forall|i: int, k: int|
                    0 <= i < r && 0 <= k < dim ==> #[trigger] embed_entry(*fma, *is_zero, zero, a@, dim as nat, *g, local@, b@, i, k),
                forall|k: int|
                    0 <= k < c ==> #[trigger] embed_entry(*fma, *is_zero, zero, a@, dim as nat, *g, local@, b@, r as int, k),
            decreases dim - c,
        {
            proof {
                lemma_entry_index(r as int, c as int, dim as int);
            }
            let x = entry_sum(g, a, m, dim, r, c, local, zero, fma, is_zero);
            let ghost before = b@;
            b.push(x);
            proof {
                assert forall|i: int, k: int| 0 <= i < r && 0 <= k < dim implies #[trigger] embed_entry(
                    *fma,
                    *is_zero,
                    zero,
                    a@,
                    dim as nat,
                    *g,
                    local@,
                    b@,
                    i,
                    k,
                ) by {
                    lemma_flat_before(i, k, r as int, dim as int);
                    lemma_entry_index(i, k, dim as int);
                    assert(embed_entry(*fma, *is_zero, zero, a@, dim as nat, *g, local@, before, i, k));
                    assert(mat_entry(b@, dim as nat, i, k) == mat_entry(before, dim as nat, i, k));
                }
                assert forall|k: int| 0 <= k <= c implies #[trigger] embed_entry(
                    *fma,
                    *is_zero,
                    zero,
                    a@,
                    dim as nat,
                    *g,
                    local@,
                    b@,
                    r as int,
                    k,
                ) by {
                    if k < c {
                        assert(embed_entry(*fma, *is_zero, zero, a@, dim as nat, *g, local@, before, r as int, k));
                        assert(mat_entry(b@, dim as nat, r as int, k) == mat_entry(before, dim as nat, r as int, k));
                    } else {
                        assert(mat_entry(b@, dim as nat, r as int, k) == x);
                    }
                }
            }
            c = c + 1;
        }
        proof {
            lemma_next_row(r as int, dim as int);
        }
        r = r + 1;
    }
    b
}

/// The positions `local_positions` finds for a member's qubits are its positions in the group.
proof fn lemma_member_local(q: Seq<u32>, qs: Seq<u32>, local: Seq<usize>, m: usize)
    requires
        distinct(q),
        distinct(qs),
        q.len() == m,
        2 * m < usize::BITS,
        local.len() == qs.len(),
        forall|j: int| 0 <= j < qs.len() ==> #[trigger] local[j] < q.len() && q[local[j] as int] == qs[j],
    ensures
        local_in(local, m),
        local == local_of(q, qs),
{
    assert(distinct(positions(local))) by {
        assert forall|a: int, b: int| 0 <= a < local.len() && 0 <= b < local.len() && a != b implies positions(
            local,
        )[a] != positions(local)[b] by {
            assert(local[a] < q.len() && local[b] < q.len());
            if positions(local)[a] == positions(local)[b] {
                assert(local[a] == local[b]);
                assert(qs[a] == qs[b]);
            }
        }
    }
    assert(all_below(positions(local), m as nat));
    crate::layout::lemma_distinct_len(positions(local), m);
    assert forall|j: int| 0 <= j < qs.len() implies local_of(q, qs)[j] == local[j] by {
        assert(local[j] < q.len() && q[local[j] as int] == qs[j]);
        let i = choose|i: int| 0 <= i < q.len() && q[i] == qs[j];
        assert(0 <= i < q.len() && q[i] == qs[j]);
        if i != local[j] as int {
            assert(q[i] != q[local[j] as int]);
        }
    }
    assert(local =~= local_of(q, qs));
}

/// Compose the operations `start .. start + count` of `ops`, applied in that order, into one
/// dense gate over the group qubits `q` (bit `j` of its index is qubit `q[j]`).
pub fn build_fused<T: Copy, M: Fn(T, T, T) -> T, Z: Fn(T) -> bool>(
    q: &[u32],
    ops: &[GateOp<T>],
    start: usize,
    count: usize,
    zero: T,
    one: T,
    fma: &M,
    is_zero: &Z,
) -> (g: DenseGate<T>)
    requires
        distinct(q@),
        2 * q@.len() < usize::BITS,
        start + count <= ops@.len(),
        forall|t: int| start <= t < start + count ==> member_fits(q@, #[trigger] ops@[t]),
        scalar_ops_callable(*fma, *is_zero),
    ensures
        g.wf(),
        g.arity() == q@.len(),
        group_composed(
            *fma,
            *is_zero,
            zero,
            one,
            q@,
            ops@.subrange(start as int, start + count),
            g.entries(),
        ),
{
    let m: usize = q.len();
    proof {
        lemma_dim_sq(m as u32);
    }
    let dim: usize = 1usize << m;
    assert(dim as nat == gate_dim(q@.len() as u32));
    let mut mat = identity(dim, zero, one);
    let ghost members = ops@.subrange(start as int, start + count);
    let ghost mut mats: Seq<Seq<T>> = seq![mat@];
    let total = ops.len();
    let mut t: usize = 0;
    while t < count
        invariant
            distinct(q@),
            m == q@.len(),
            2 * m < usize::BITS,
            dim == (1usize << m),
            dim as nat == gate_dim(q@.len() as u32),
            dim * dim <= usize::MAX,
            start + count <= ops@.len(),
            total == ops@.len(),
            forall|t: int| start <= t < start + count ==> member_fits(q@, #[trigger] ops@[t]),
            scalar_ops_callable(*fma, *is_zero),
            members == ops@.subrange(start as int, start + count),
            t <= count,
            mat@.len() == dim * dim,
            mats.len() == t + 1,
            is_identity(mats[0], dim as nat, zero, one),
            mats.last() == mat@,
            forall|s: int| 0 <= s < t ==> #[trigger] compose_link(*fma, *is_zero, zero, q@, members, mats, s),
        decreases count - t,
    {
        let op = &ops[start + t];
        assert(member_fits(q@, ops@[start + t]));
        assert(members[t as int] == *op);
        let local = local_positions(op.qubits(), q);
        proof {
            lemma_member_local(q@, op.qubits_spec(), local@, m);
        }
        let next = embed_apply(&mat, m, dim, op.gate(), &local, zero, fma, is_zero);
        let ghost prev = mats;
        proof {
            mats = mats.push(next@);
            assert forall|s: int| 0 <= s <= t implies #[trigger] compose_link(
                *fma,
                *is_zero,
                zero,
                q@,
                members,
                mats,
                s,
            ) by {
                if s < t {
                    assert(compose_link(*fma, *is_zero, zero, q@, members, prev, s));
                    assert(mats[s] == prev[s] && mats[s + 1] == prev[s + 1]);
                }
            }
        }
        mat = next;
        t = t + 1;
    }
    assert(compose_chain(*fma, *is_zero, zero, one, q@, members, mats));
    DenseGate::new(m as u32, mat)
}

} // verus!
