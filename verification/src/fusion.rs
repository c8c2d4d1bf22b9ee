//! Gate fusion planning: merge consecutive gates into composite gates on few qubits.
//!
//! Each gate is one streaming pass over the `2^N` state, so merging `k` consecutive gates that
//! together span at most `max_qubits` qubits turns `k` passes into one. The algorithm is the
//! standard greedy one: walk gates in order, grow a group by absorbing the next gate while the
//! group's qubit set stays within `max_qubits`, then emit the group. A gate wider than the cap
//! is emitted on its own. This module decides the groups and provides the index helpers for
//! composing a group's matrix; the matrix products themselves are scalar arithmetic done by
//! the caller.
use crate::circuit::{Circuit, GateOp};
use crate::compose::{build_fused, group_composed, member_fits, scalar_ops_callable};
use crate::layout::{
    all_below, bit, distinct, gather_spec, has_pos, lemma_bit_and, lemma_bit_not, lemma_bit_or,
    lemma_bit_shr, lemma_bit_single, lemma_bits_ext, lemma_fits, lemma_gather_bits,
    sorted_positions, strictly_ascending,
};
use vstd::prelude::*;

verus! {

/// Positions given as `usize`, seen as the `u32` positions the layout helpers use.
pub open spec fn positions(local: Seq<usize>) -> Seq<u32> {
    local.map_values(|p: usize| p as u32)
}

/// Every position is a valid bit position.
pub open spec fn local_ok(local: Seq<usize>) -> bool {
    &&& local.len() <= usize::BITS
    &&& forall|k: int| 0 <= k < local.len() ==> local[k] < usize::BITS
}

/// Bits of `index` at positions `local`, packed into a sub-index (bit `j` ← `local[j]`).
pub fn gather_local(index: usize, local: &[usize]) -> (s: usize)
    requires
        local_ok(local@),
    ensures
        s == gather_spec(index, positions(local@)),
{
    let mut s: usize = 0;
    let mut j: usize = 0;
    while j < local.len()
        invariant
            j <= local@.len(),
            local_ok(local@),
            s == gather_spec(index, positions(local@.take(j as int))),
        decreases local@.len() - j,
    {
        let p = local[j];
        assert(positions(local@.take((j + 1) as int)).drop_last() =~= positions(local@.take(j as int)));
        assert(positions(local@.take((j + 1) as int)).last() as usize == p);
        s = s | (((index >> p) & 1) << j);
        j = j + 1;
    }
    assert(local@.take(j as int) =~= local@);
    s
}

/// `x` with the bits at positions `local` replaced by the bits of `sub` (bit `j` of `sub` goes to
/// position `local[j]`), in order.
pub open spec fn set_local_spec(x: usize, local: Seq<usize>, sub: usize) -> usize
    decreases local.len(),
{
    if local.len() == 0 {
        x
    } else {
        let y = set_local_spec(x, local.drop_last(), sub);
        let p = local.last();
        (y & !(1usize << p)) | (((sub >> ((local.len() - 1) as usize)) & 1usize) << p)
    }
}

/// `index` with the bits at positions `local` replaced by the bits of `sub`.
pub fn set_local(index: usize, local: &[usize], sub: usize) -> (x: usize)
    requires
        local_ok(local@),
    ensures
        x == set_local_spec(index, local@, sub),
{
    let mut x = index;
    let mut j: usize = 0;
    while j < local.len()
        invariant
            j <= local@.len(),
            local_ok(local@),
            x == set_local_spec(index, local@.take(j as int), sub),
        decreases local@.len() - j,
    {
        let p = local[j];
        let b = (sub >> j) & 1;
        assert(local@.take((j + 1) as int).drop_last() =~= local@.take(j as int));
        x = (x & !(1usize << p)) | (b << p);
        j = j + 1;
    }
    assert(local@.take(j as int) =~= local@);
    x
}

/// Bits of `set_local_spec` for distinct positions: position `local[j]` holds bit `j` of `sub`,
/// every other position holds the bit of `x`.
pub proof fn lemma_set_local_bits(x: usize, local: Seq<usize>, sub: usize, p: usize)
    requires
        local_ok(local),
        distinct(positions(local)),
        p < usize::BITS,
    ensures
        forall|j: int| 0 <= j < local.len() && local[j] == p ==> bit(set_local_spec(x, local, sub), p)
            == #[trigger] bit(sub, j as usize),
        (forall|j: int| 0 <= j < local.len() ==> local[j] != p) ==> bit(set_local_spec(x, local, sub), p)
            == bit(x, p),
    decreases local.len(),
{
    if local.len() > 0 {
        let l1 = local.drop_last();
        let y = set_local_spec(x, l1, sub);
        let q = local.last();
        let k = (local.len() - 1) as usize;
        assert(distinct(positions(l1))) by {
            assert forall|a: int, b: int| 0 <= a < l1.len() && 0 <= b < l1.len() && a != b
                implies positions(l1)[a] != positions(l1)[b] by {
                assert(positions(l1)[a] == positions(local)[a]);
                assert(positions(l1)[b] == positions(local)[b]);
            }
        }
        lemma_set_local_bits(x, l1, sub, p);
        let r = set_local_spec(x, local, sub);
        assert(bit(r, p) == (if p == q { bit(sub >> k, 0) } else { bit(y, p) })) by {
            lemma_bit_or(y & !(1usize << q), ((sub >> k) & 1usize) << q, p);
            lemma_bit_and(y, !(1usize << q), p);
            lemma_bit_not(1usize << q, p);
            lemma_bit_single(sub >> k, q, p);
            crate::layout::lemma_bit_facts(0, 0, q, p);
        }
        lemma_bit_shr(sub, k);
        assert forall|j: int| 0 <= j < local.len() && local[j] == p implies bit(r, p) == #[trigger] bit(
            sub,
            j as usize,
        ) by {
            if j < k {
                assert(l1[j] == local[j]);
                assert(positions(local)[j] != positions(local)[k as int]);
            }
        }
        if forall|j: int| 0 <= j < local.len() ==> local[j] != p {
            assert forall|j: int| 0 <= j < l1.len() implies l1[j] != p by {
                assert(l1[j] == local[j]);
            }
            assert(local[k as int] != p);
        }
    }
}

/// Setting a sub-index and gathering it back gives the sub-index; bits outside `local` are kept.
pub proof fn lemma_gather_set_local(x: usize, local: Seq<usize>, sub: usize, p: usize)
    requires
        local_ok(local),
        distinct(positions(local)),
        local.len() < usize::BITS ==> sub < (1usize << local.len()),
        p < usize::BITS,
    ensures
        gather_spec(set_local_spec(x, local, sub), positions(local)) == sub,
        (forall|j: int| 0 <= j < local.len() ==> local[j] != p) ==> bit(set_local_spec(x, local, sub), p)
            == bit(x, p),
{
    let y = set_local_spec(x, local, sub);
    let ps = positions(local);
    lemma_set_local_bits(x, local, sub, p);
    assert(all_below(ps, usize::BITS as nat));
    if local.len() < usize::BITS {
        lemma_fits(sub, local.len() as usize);
    }
    let g = gather_spec(y, ps);
    assert forall|j: usize| j < usize::BITS implies bit(g, j) == bit(sub, j) by {
        lemma_gather_bits(y, ps, j);
        if j < local.len() {
            lemma_set_local_bits(x, local, sub, local[j as int]);
            assert(bit(sub, (j as int) as usize) == bit(sub, j));
        }
    }
    lemma_bits_ext(g, sub);
}

/// Bits of `sub mod 2^k`: those of `sub` below `k`.
proof fn lemma_mod_pow_bits(sub: usize, k: usize, j: usize)
    requires
        k < usize::BITS,
        j < usize::BITS,
    ensures
        bit(sub % (1usize << k), j) == (j < k && bit(sub, j)),
{
    vstd::bits::lemma_usize_pow2_no_overflow(k as nat);
    vstd::bits::lemma_usize_shl_is_mul(1, k);
    vstd::bits::lemma_usize_low_bits_mask_is_mod(sub, k as nat);
    assert(vstd::bits::low_bits_mask(k as nat) as usize == crate::layout::low_mask(k));
    assert(bit(sub & crate::layout::low_mask(k), j) == (j < k && bit(sub, j))) by (bit_vector)
        requires k < usize::BITS, j < usize::BITS;
}

/// Setting any sub-index and gathering it back gives the sub-index modulo `2^len` (the whole
/// sub-index when `len` is the word size): only its low `len` bits are placed.
pub proof fn lemma_gather_set_local_any(x: usize, local: Seq<usize>, sub: usize)
    requires
        local_ok(local),
        distinct(positions(local)),
    ensures
        gather_spec(set_local_spec(x, local, sub), positions(local)) == if local.len() < usize::BITS {
            sub % (1usize << local.len())
        } else {
            sub
        },
{
    let y = set_local_spec(x, local, sub);
    let ps = positions(local);
    let g = gather_spec(y, ps);
    let k = local.len() as usize;
    assert(all_below(ps, usize::BITS as nat));
    if k < usize::BITS {
        assert forall|j: usize| j < usize::BITS implies bit(g, j) == bit(sub % (1usize << k), j) by {
            lemma_gather_bits(y, ps, j);
            lemma_mod_pow_bits(sub, k, j);
            if j < local.len() {
                lemma_set_local_bits(x, local, sub, local[j as int]);
                assert(bit(sub, (j as int) as usize) == bit(sub, j));
            }
        }
        lemma_bits_ext(g, sub % (1usize << k));
    } else {
        assert forall|j: usize| j < usize::BITS implies bit(g, j) == bit(sub, j) by {
            lemma_gather_bits(y, ps, j);
            lemma_set_local_bits(x, local, sub, local[j as int]);
            assert(bit(sub, (j as int) as usize) == bit(sub, j));
        }
        lemma_bits_ext(g, sub);
    }
}

/// Setting the sub-index an index already has at `local` gives the index back.
pub proof fn lemma_set_gather_local(x: usize, local: Seq<usize>)
    requires
        local_ok(local),
        distinct(positions(local)),
    ensures
        set_local_spec(x, local, gather_spec(x, positions(local))) == x,
{
    let ps = positions(local);
    let g = gather_spec(x, ps);
    let y = set_local_spec(x, local, g);
    assert(all_below(ps, usize::BITS as nat));
    assert forall|p: usize| p < usize::BITS implies bit(y, p) == bit(x, p) by {
        lemma_set_local_bits(x, local, g, p);
        if exists|j: int| 0 <= j < local.len() && local[j] == p {
            let j = choose|j: int| 0 <= j < local.len() && local[j] == p;
            lemma_gather_bits(x, ps, j as usize);
            assert(ps[j] as usize == p);
            assert(bit(y, p) == bit(g, j as usize));
        }
    }
    lemma_bits_ext(y, x);
}

/// For each qubit of `qs`, its position within the sorted group qubits `q`.
pub fn local_positions(qs: &[u32], q: &[u32]) -> (local: Vec<usize>)
    requires
        forall|j: int| 0 <= j < qs@.len() ==> q@.contains(#[trigger] qs@[j]),
    ensures
        local@.len() == qs@.len(),
        forall|j: int| 0 <= j < qs@.len() ==> #[trigger] local@[j] < q@.len() && q@[local@[j] as int]
            == qs@[j],
        forall|j: int| 0 <= j < qs@.len() ==> forall|i: int|
            0 <= i < local@[j] ==> q@[i] != #[trigger] qs@[j],
{
    let mut local: Vec<usize> = Vec::with_capacity(qs.len());
    let mut j: usize = 0;
    while j < qs.len()
        invariant
            j <= qs@.len(),
            local@.len() == j,
            forall|k: int| 0 <= k < qs@.len() ==> q@.contains(#[trigger] qs@[k]),
            forall|k: int| 0 <= k < j ==> #[trigger] local@[k] < q@.len() && q@[local@[k] as int]
                == qs@[k],
            forall|k: int| 0 <= k < j ==> forall|i: int| 0 <= i < local@[k] ==> q@[i] != #[trigger] qs@[k],
        decreases qs@.len() - j,
    {
        let x = qs[j];
        assert(q@.contains(qs@[j as int]));
        let mut i: usize = 0;
        while i < q.len() && q[i] != x
            invariant
                i <= q@.len(),
                q@.contains(x),
                forall|k: int| 0 <= k < i ==> q@[k] != x,
            decreases q@.len() - i,
        {
            i = i + 1;
        }
        assert(i < q@.len());
        local.push(i);
        j = j + 1;
    }
    local
}


/// Tuning for fusion.
#[derive(Clone, Copy, Debug)]
pub struct FusionConfig {
    /// Maximum number of qubits in a fused gate (cap on the `2^m` matrix dimension).
    pub max_qubits: u32,
}

impl Default for FusionConfig {
    /// 4 keeps the fused matrix at 16×16 — a good bandwidth/compute balance.
    fn default() -> (c: Self)
        ensures
            c.max_qubits == 4,
    {
        Self { max_qubits: 4 }
    }
}

/// The effective cap: `max_qubits`, at least 1.
pub open spec fn effective_max(cfg: FusionConfig) -> nat {
    if cfg.max_qubits == 0 {
        1
    } else {
        cfg.max_qubits as nat
    }
}

/// One emitted gate of a fusion plan: the operations `start .. start + count` of the input
/// circuit, applied as one gate on `qubits` (for a single operation, its own qubit list; for a
/// merged group, the group's qubits in ascending order).
#[derive(Clone, Debug)]
pub struct FusionGroup {
    pub start: usize,
    pub count: usize,
    pub qubits: Vec<u32>,
}

/// The qubit list of every operation of `c`, in order.
pub open spec fn qubit_lists<T>(c: Circuit<T>) -> Seq<Seq<u32>> {
    Seq::new(c.ops_seq().len(), |k: int| c.ops_seq()[k].qubits_spec())
}

/// The qubits touched by operations `s .. e`.
pub open spec fn union_set(ls: Seq<Seq<u32>>, s: int, e: int) -> Set<u32>
    decreases e - s,
{
    if e <= s {
        Set::empty()
    } else {
        union_set(ls, s, e - 1).union(ls[e - 1].to_set())
    }
}

/// Operation `next` could join the group that starts at operation `s` and ends just before
/// `next`: both are within the cap and so is their combined qubit set.
pub open spec fn mergeable(ls: Seq<Seq<u32>>, max: nat, s: int, next: int) -> bool {
    &&& ls[s].len() <= max
    &&& ls[next].len() <= max
    &&& union_set(ls, s, next + 1).len() <= max
}

/// A group of a plan for the operations' qubit lists `ls` and cap `max`.
pub open spec fn valid_group(ls: Seq<Seq<u32>>, max: nat, start: int, count: int, qubits: Seq<u32>) -> bool {
    &&& count >= 1
    &&& 0 <= start
    &&& start + count <= ls.len()
    &&& count == 1 ==> qubits == ls[start]
    &&& count >= 2 ==> {
        &&& strictly_ascending(qubits)
        &&& qubits.to_set() == union_set(ls, start, start + count)
        &&& qubits.len() <= max
        &&& mergeable(ls, max, start, start + count - 1)
    }
}

/// `groups` is the greedy fusion plan of the operations `ls` under cap `max`: the groups cover
/// the operations in order, each is a valid group, and none could absorb the next group's first
/// operation.
pub open spec fn is_fusion_plan(ls: Seq<Seq<u32>>, max: nat, groups: Seq<(int, int, Seq<u32>)>) -> bool {
    &&& (groups.len() == 0 <==> ls.len() == 0)
    &&& groups.len() > 0 ==> groups[0].0 == 0 && groups.last().0 + groups.last().1 == ls.len()
    &&& forall|k: int| 0 <= k < groups.len() ==> #[trigger] valid_group(
        ls,
        max,
        groups[k].0,
        groups[k].1,
        groups[k].2,
    )
    &&& forall|k: int| 0 <= k < groups.len() - 1 ==> #[trigger] groups[k + 1].0 == groups[k].0 + groups[k].1
    &&& forall|k: int| 0 <= k < groups.len() - 1 ==> !mergeable(ls, max, #[trigger] groups[k].0, groups[k + 1].0)
}

/// The union of operations `s .. e` is finite.
proof fn lemma_union_finite(ls: Seq<Seq<u32>>, s: int, e: int)
    ensures
        union_set(ls, s, e).finite(),
    decreases e - s,
{
    broadcast use vstd::set::group_set_axioms;

    if e > s {
        lemma_union_finite(ls, s, e - 1);
        vstd::seq_lib::seq_to_set_is_finite(ls[e - 1]);
    }
}

/// The union grows with the range.
proof fn lemma_union_mono(ls: Seq<Seq<u32>>, s: int, k: int, e: int)
    requires
        k <= e,
    ensures
        union_set(ls, s, k).subset_of(union_set(ls, s, e)),
    decreases e - k,
{
    if k < e {
        lemma_union_mono(ls, s, k, e - 1);
        if e > s {
            assert(union_set(ls, s, e) == union_set(ls, s, e - 1).union(ls[e - 1].to_set()));
        }
    }
}

/// A group that could absorb operation `e` could also absorb any operation `k` before it.
proof fn lemma_mergeable_prefix(ls: Seq<Seq<u32>>, max: nat, s: int, k: int, e: int)
    requires
        mergeable(ls, max, s, e),
        0 <= s < k <= e < ls.len(),
        ls[k].no_duplicates(),
    ensures
        mergeable(ls, max, s, k),
{
    lemma_union_mono(ls, s, k + 1, e + 1);
    lemma_union_finite(ls, s, e + 1);
    vstd::set_lib::lemma_len_subset(union_set(ls, s, k + 1), union_set(ls, s, e + 1));
    ls[k].unique_seq_to_set();
    assert(union_set(ls, s, k + 1) == union_set(ls, s, k).union(ls[k].to_set()));
    vstd::set_lib::lemma_len_subset(ls[k].to_set(), union_set(ls, s, k + 1));
}

/// Two ascending lists of the same qubits are the same list.
proof fn lemma_ascending_unique(a: Seq<u32>, b: Seq<u32>)
    requires
        strictly_ascending(a),
        strictly_ascending(b),
        a.to_set() == b.to_set(),
    ensures
        a == b,
    decreases a.len(),
{
    if a.len() == 0 {
        if b.len() > 0 {
            assert(b.to_set().contains(b[0]));
        }
        assert(a =~= b);
    } else if b.len() == 0 {
        assert(a.to_set().contains(a[0]));
    } else {
        assert(a.to_set().contains(a[0]));
        assert(b.to_set().contains(b[0]));
        let i = choose|i: int| 0 <= i < b.len() && b[i] == a[0];
        let j = choose|j: int| 0 <= j < a.len() && a[j] == b[0];
        if i > 0 {
            assert(b[0] < b[i]);
        }
        if j > 0 {
            assert(a[0] < a[j]);
        }
        assert(a[0] == b[0]);
        let a1 = a.drop_first();
        let b1 = b.drop_first();
        assert(a1.to_set() =~= b1.to_set()) by {
            assert forall|x: u32| a1.to_set().contains(x) <==> b1.to_set().contains(x) by {
                if a1.to_set().contains(x) {
                    let p = choose|p: int| 0 <= p < a1.len() && a1[p] == x;
                    assert(a[p + 1] == x && a[0] < a[p + 1]);
                    assert(a.to_set().contains(x));
                    let q = choose|q: int| 0 <= q < b.len() && b[q] == x;
                    assert(q != 0);
                    assert(b1[q - 1] == x);
                }
                if b1.to_set().contains(x) {
                    let p = choose|p: int| 0 <= p < b1.len() && b1[p] == x;
                    assert(b[p + 1] == x && b[0] < b[p + 1]);
                    assert(b.to_set().contains(x));
                    let q = choose|q: int| 0 <= q < a.len() && a[q] == x;
                    assert(q != 0);
                    assert(a1[q - 1] == x);
                }
            }
        }
        lemma_ascending_unique(a1, b1);
        assert(a =~= b) by {
            assert forall|k: int| 0 <= k < a.len() implies a[k] == b[k] by {
                if k > 0 {
                    assert(a[k] == a1[k - 1] && b[k] == b1[k - 1]);
                }
            }
        }
    }
}

/// Two fusion plans of the same operations agree on their first `k` groups.
proof fn lemma_plans_agree(
    ls: Seq<Seq<u32>>,
    max: nat,
    p1: Seq<(int, int, Seq<u32>)>,
    p2: Seq<(int, int, Seq<u32>)>,
    k: int,
)
    requires
        forall|t: int| 0 <= t < ls.len() ==> #[trigger] ls[t].no_duplicates(),
        is_fusion_plan(ls, max, p1),
        is_fusion_plan(ls, max, p2),
        0 <= k <= p1.len(),
        k <= p2.len(),
    ensures
        forall|j: int| 0 <= j < k ==> p1[j] == p2[j],
    decreases k,
{
    if k > 0 {
        lemma_plans_agree(ls, max, p1, p2, k - 1);
        let j = k - 1;
        if j > 0 {
            assert(p1[j].0 == p1[j - 1].0 + p1[j - 1].1);
            assert(p2[j].0 == p2[j - 1].0 + p2[j - 1].1);
        }
        let s = p1[j].0;
        assert(p2[j].0 == s);
        assert(valid_group(ls, max, p1[j].0, p1[j].1, p1[j].2));
        assert(valid_group(ls, max, p2[j].0, p2[j].1, p2[j].2));
        let (c1, c2) = (p1[j].1, p2[j].1);
        if c1 < c2 {
            assert(j + 1 < p1.len());
            assert(p1[j + 1].0 == p1[j].0 + p1[j].1);
            assert(!mergeable(ls, max, p1[j].0, p1[j + 1].0));
            lemma_mergeable_prefix(ls, max, s, s + c1, s + c2 - 1);
        }
        if c2 < c1 {
            assert(j + 1 < p2.len());
            assert(p2[j + 1].0 == p2[j].0 + p2[j].1);
            assert(!mergeable(ls, max, p2[j].0, p2[j + 1].0));
            lemma_mergeable_prefix(ls, max, s, s + c2, s + c1 - 1);
        }
        assert(c1 == c2);
        if c1 >= 2 {
            lemma_ascending_unique(p1[j].2, p2[j].2);
        }
        assert(p1[j] == p2[j]);
    }
}

/// The greedy plan is determined by the operations and the cap: any two fusion plans of the same
/// operations (each listing distinct qubits) under the same cap are the same plan.
pub proof fn lemma_fusion_plan_unique(
    ls: Seq<Seq<u32>>,
    max: nat,
    p1: Seq<(int, int, Seq<u32>)>,
    p2: Seq<(int, int, Seq<u32>)>,
)
    requires
        forall|t: int| 0 <= t < ls.len() ==> #[trigger] ls[t].no_duplicates(),
        is_fusion_plan(ls, max, p1),
        is_fusion_plan(ls, max, p2),
    ensures
        p1 == p2,
{
    if p1.len() <= p2.len() {
        lemma_plans_agree(ls, max, p1, p2, p1.len() as int);
        if p1.len() < p2.len() {
            let j = p1.len() as int;
            if j > 0 {
                assert(p1[j - 1] == p2[j - 1]);
                assert(p2[j].0 == p2[j - 1].0 + p2[j - 1].1);
                assert(valid_group(ls, max, p2[j].0, p2[j].1, p2[j].2));
            }
        }
    } else {
        lemma_plans_agree(ls, max, p1, p2, p2.len() as int);
        let j = p2.len() as int;
        if j > 0 {
            assert(p1[j - 1] == p2[j - 1]);
            assert(p1[j].0 == p1[j - 1].0 + p1[j - 1].1);
            assert(valid_group(ls, max, p1[j].0, p1[j].1, p1[j].2));
        }
    }
    assert(p1 =~= p2);
}

/// A group as `(start, count, qubits)`.
pub open spec fn group_view(g: FusionGroup) -> (int, int, Seq<u32>) {
    (g.start as int, g.count as int, g.qubits@)
}


/// `group` extended by the qubits of `qs` it does not hold yet, in order.
fn union_with(group: &Vec<u32>, qs: &[u32]) -> (u: Vec<u32>)
    requires
        group@.no_duplicates(),
        distinct(qs@),
    ensures
        u@.no_duplicates(),
        u@.to_set() == group@.to_set().union(qs@.to_set()),
{
    let mut u: Vec<u32> = group.clone();
    assert(u@ == group@) by {
        assert forall|k: int| 0 <= k < group@.len() implies u@[k] == group@[k] by {
        }
    }
    let mut j: usize = 0;
    while j < qs.len()
        invariant
            j <= qs@.len(),
            distinct(qs@),
            u@.no_duplicates(),
            u@.to_set() == group@.to_set().union(qs@.take(j as int).to_set()),
        decreases qs@.len() - j,
    {
        let x = qs[j];
        let mut found = false;
        let mut k: usize = 0;
        while k < u.len()
            invariant
                k <= u@.len(),
                found <==> exists|i: int| 0 <= i < k && u@[i] == x,
            decreases u@.len() - k,
        {
            if u[k] == x {
                found = true;
            }
            k = k + 1;
        }
        let ghost before = u@;
        if !found {
            u.push(x);
            assert(u@.no_duplicates()) by {
                assert forall|a: int, b: int| 0 <= a < u@.len() && 0 <= b < u@.len() && a != b
                    implies u@[a] != u@[b] by {
                    if a < before.len() && b < before.len() {
                    } else if a == before.len() {
                        assert(u@[b] == before[b]);
                    } else {
                        assert(u@[a] == before[a]);
                    }
                }
            }
        } else {
            proof {
                let i = choose|i: int| 0 <= i < k && u@[i] == x;
                assert(before.to_set().contains(x));
            }
        }
        assert(qs@.take((j + 1) as int) =~= qs@.take(j as int).push(x));
        assert(u@.to_set() =~= group@.to_set().union(qs@.take((j + 1) as int).to_set())) by {
            assert forall|y: u32| u@.to_set().contains(y) <==> group@.to_set().union(
                qs@.take((j + 1) as int).to_set(),
            ).contains(y) by {
                if u@.to_set().contains(y) {
                    let i = choose|i: int| 0 <= i < u@.len() && u@[i] == y;
                    if i < before.len() {
                        assert(before.to_set().contains(y));
                    } else {
                        assert(qs@.take((j + 1) as int)[j as int] == y);
                    }
                }
                if qs@.take((j + 1) as int).to_set().contains(y) {
                    let tk = qs@.take((j + 1) as int);
                    let i = choose|i: int| 0 <= i < tk.len() && tk[i] == y;
                    if i < j {
                        assert(qs@.take(j as int)[i] == y);
                        assert(before.to_set().contains(y));
                        let t = choose|t: int| 0 <= t < before.len() && before[t] == y;
                        assert(u@[t] == y);
                    } else if !found {
                        assert(u@[before.len() as int] == y);
                    } else {
                        let t = choose|t: int| 0 <= t < k && u@[t] == x;
                        assert(u@[t] == y);
                    }
                }
                if group@.to_set().contains(y) {
                    assert(before.to_set().contains(y));
                    let t = choose|t: int| 0 <= t < before.len() && before[t] == y;
                    assert(u@[t] == y);
                }
            }
        }
        j = j + 1;
    }
    assert(qs@.take(j as int) =~= qs@);
    u
}


/// `groups` is a greedy plan of the operations before `end`.
pub open spec fn plan_prefix(ls: Seq<Seq<u32>>, max: nat, groups: Seq<(int, int, Seq<u32>)>, end: int) -> bool {
    &&& groups.len() == 0 ==> end == 0
    &&& groups.len() > 0 ==> groups[0].0 == 0 && groups.last().0 + groups.last().1 == end
    &&& forall|k: int| 0 <= k < groups.len() ==> #[trigger] valid_group(
        ls,
        max,
        groups[k].0,
        groups[k].1,
        groups[k].2,
    )
    &&& forall|k: int| 0 <= k < groups.len() - 1 ==> #[trigger] groups[k + 1].0 == groups[k].0 + groups[k].1
    &&& forall|k: int| 0 <= k < groups.len() - 1 ==> !mergeable(ls, max, #[trigger] groups[k].0, groups[k + 1].0)
}

/// The open group `s .. e` with qubit list `gq` (no repeats, covering exactly the group's
/// qubits, within the cap; every member within the cap; a single member keeps its own list).
pub open spec fn open_group(ls: Seq<Seq<u32>>, max: nat, s: int, e: int, gq: Seq<u32>) -> bool {
    &&& 0 <= s < e <= ls.len()
    &&& gq.no_duplicates()
    &&& gq.to_set() == union_set(ls, s, e)
    &&& gq.len() <= max
    &&& forall|k: int| s <= k < e ==> #[trigger] ls[k].len() <= max
    &&& e - s == 1 ==> gq == ls[s]
}

/// The views of a list of groups.
pub open spec fn views(groups: Seq<FusionGroup>) -> Seq<(int, int, Seq<u32>)> {
    groups.map_values(|g: FusionGroup| group_view(g))
}

/// A repeat-free list has as many elements as its set.
proof fn lemma_set_len(s: Seq<u32>)
    requires
        s.no_duplicates(),
    ensures
        s.to_set().len() == s.len(),
{
    s.unique_seq_to_set();
}

/// Emit the open group `start .. start + count` (if any): a single operation keeps its own
/// qubit list; a merged group gets its qubits in ascending order.
fn flush<T: Copy>(
    groups: &mut Vec<FusionGroup>,
    ops: &[crate::circuit::GateOp<T>],
    start: usize,
    count: usize,
    gq: &Vec<u32>,
    Ghost(ls): Ghost<Seq<Seq<u32>>>,
    Ghost(max): Ghost<nat>,
)
    requires
        ls.len() == ops@.len(),
        forall|k: int| 0 <= k < ops@.len() ==> #[trigger] ops@[k].qubits_spec() == ls[k],
        count >= 1 ==> open_group(ls, max, start as int, start + count, gq@),
    ensures
        count == 0 ==> final(groups)@ == old(groups)@,
        count >= 1 ==> views(final(groups)@) == views(old(groups)@).push((start as int, count as int, views(final(groups)@).last().2)),
        count >= 1 ==> valid_group(ls, max, start as int, count as int, views(final(groups)@).last().2),
{
    if count == 0 {
        return;
    }
    let qubits: Vec<u32>;
    if count == 1 {
        qubits = vstd::slice::slice_to_vec(ops[start].qubits());
    } else {
        proof {
            lemma_set_len(gq@);
            assert(distinct(gq@)) by {
                assert forall|a: int, b: int| 0 <= a < gq@.len() && 0 <= b < gq@.len() && a != b
                    implies gq@[a] != gq@[b] by {
                }
            }
        }
        qubits = sorted_positions(gq.as_slice());
        proof {
            assert(qubits@.to_set() =~= gq@.to_set()) by {
                assert forall|x: u32| qubits@.to_set().contains(x) <==> gq@.to_set().contains(x) by {
                    if qubits@.to_set().contains(x) {
                        let i = choose|i: int| 0 <= i < qubits@.len() && qubits@[i] == x;
                        assert(has_pos(qubits@, x as usize));
                        assert(has_pos(gq@, x as usize));
                        let j = choose|j: int| 0 <= j < gq@.len() && gq@[j] as usize == x as usize;
                        assert(gq@[j] == x);
                    }
                    if gq@.to_set().contains(x) {
                        let i = choose|i: int| 0 <= i < gq@.len() && gq@[i] == x;
                        assert(has_pos(gq@, x as usize));
                        assert(has_pos(qubits@, x as usize));
                        let j = choose|j: int| 0 <= j < qubits@.len() && qubits@[j] as usize == x as usize;
                        assert(qubits@[j] == x);
                    }
                }
            }
            assert(union_set(ls, start as int, start + count) == union_set(ls, start as int, start + count - 1 + 1));
        }
    }
    let ghost old_views = views(groups@);
    groups.push(FusionGroup { start, count, qubits });
    assert(views(groups@) =~= old_views.push((start as int, count as int, qubits@)));
}

/// Appending a valid group that the previous group could not absorb extends a plan prefix.
proof fn lemma_plan_push(ls: Seq<Seq<u32>>, max: nat, before: Seq<(int, int, Seq<u32>)>, g: (int, int, Seq<u32>))
    requires
        plan_prefix(ls, max, before, g.0),
        valid_group(ls, max, g.0, g.1, g.2),
        before.len() > 0 ==> !mergeable(ls, max, before.last().0, g.0),
    ensures
        plan_prefix(ls, max, before.push(g), g.0 + g.1),
{
    let gs = before.push(g);
    assert forall|k: int| 0 <= k < gs.len() implies #[trigger] valid_group(ls, max, gs[k].0, gs[k].1, gs[k].2) by {
        if k < before.len() {
            assert(gs[k] == before[k]);
        }
    }
    assert forall|k: int| 0 <= k < gs.len() - 1 implies #[trigger] gs[k + 1].0 == gs[k].0 + gs[k].1 by {
        if k + 1 < before.len() {
            assert(gs[k] == before[k] && gs[k + 1] == before[k + 1]);
        }
    }
    assert forall|k: int| 0 <= k < gs.len() - 1 implies !mergeable(ls, max, #[trigger] gs[k].0, gs[k + 1].0) by {
        if k + 1 < before.len() {
            assert(gs[k] == before[k] && gs[k + 1] == before[k + 1]);
        }
    }
}

/// The greedy fusion plan of `circuit` under `cfg`: walk the operations in order, grow a group
/// while its qubit set stays within the cap, emit a wider operation on its own.
pub fn plan_fusion<T: Copy>(circuit: &Circuit<T>, cfg: &FusionConfig) -> (groups: Vec<FusionGroup>)
    requires
        circuit.wf(),
    ensures
        is_fusion_plan(qubit_lists(*circuit), effective_max(*cfg), views(groups@)),
        groups@.len() <= circuit.ops_seq().len(),
{
    let max: u32 = if cfg.max_qubits == 0 {
        1
    } else {
        cfg.max_qubits
    };
    let ops = circuit.ops();
    let ghost ls = qubit_lists(*circuit);
    let ghost mx = effective_max(*cfg);
    assert(mx == max as nat);
    let mut groups: Vec<FusionGroup> = Vec::new();
    let mut group_qubits: Vec<u32> = Vec::new();
    let mut group_start: usize = 0;
    let mut group_len: usize = 0;
    let mut i: usize = 0;
    while i < ops.len()
        invariant
            circuit.wf(),
            ops@ == circuit.ops_seq(),
            ls == qubit_lists(*circuit),
            ls.len() == ops@.len(),
            mx == max as nat,
            i <= ops@.len(),
            group_start + group_len == i,
            plan_prefix(ls, mx, views(groups@), group_start as int),
            groups@.len() <= group_start,
            group_len >= 1 ==> open_group(ls, mx, group_start as int, i as int, group_qubits@),
            groups@.len() > 0 ==> (ls[views(groups@).last().0].len() > mx || (group_len >= 1
                && !mergeable(ls, mx, views(groups@).last().0, group_start as int))),
        decreases ops@.len() - i,
    {
        let qs = ops[i].qubits();
        assert(qs@ == ls[i as int]);
        assert(ops@[i as int].valid_for(circuit.n()));
        if qs.len() > max as usize {
            let ghost before = views(groups@);
            flush(&mut groups, ops, group_start, group_len, &group_qubits, Ghost(ls), Ghost(mx));
            let ghost mid = views(groups@);
            groups.push(FusionGroup { start: i, count: 1, qubits: vstd::slice::slice_to_vec(qs) });
            proof {
                if group_len >= 1 {
                    lemma_plan_push(ls, mx, before, mid.last());
                    assert(mid =~= before.push(mid.last()));
                }
                assert(valid_group(ls, mx, i as int, 1, qs@));
                lemma_plan_push(ls, mx, mid, (i as int, 1int, qs@));
                assert(views(groups@) =~= mid.push((i as int, 1int, qs@)));
            }
            group_qubits = Vec::new();
            group_start = i + 1;
            group_len = 0;
        } else if group_len == 0 {
            group_qubits = vstd::slice::slice_to_vec(qs);
            proof {
                assert(union_set(ls, i as int, i + 1) =~= union_set(ls, i as int, i as int).union(ls[i as int].to_set()));
                assert(union_set(ls, i as int, i as int) =~= Set::<u32>::empty());
                assert(union_set(ls, i as int, i + 1) =~= ls[i as int].to_set());
                assert(group_qubits@.no_duplicates()) by {
                    assert(distinct(qs@));
                }
            }
            group_start = i;
            group_len = 1;
        } else {
            let union = union_with(&group_qubits, qs);
            proof {
                assert(union_set(ls, group_start as int, i + 1) == union_set(ls, group_start as int, i as int).union(ls[i as int].to_set()));
                lemma_set_len(union@);
            }
            if union.len() <= max as usize {
                group_qubits = union;
                group_len = group_len + 1;
            } else {
                let ghost before = views(groups@);
                proof {
                    assert(!mergeable(ls, mx, group_start as int, i as int));
                }
                flush(&mut groups, ops, group_start, group_len, &group_qubits, Ghost(ls), Ghost(mx));
                proof {
                    lemma_plan_push(ls, mx, before, views(groups@).last());
                    assert(views(groups@) =~= before.push(views(groups@).last()));
                }
                group_qubits = vstd::slice::slice_to_vec(qs);
                proof {
                    assert(union_set(ls, i as int, i + 1) =~= union_set(ls, i as int, i as int).union(ls[i as int].to_set()));
                    assert(union_set(ls, i as int, i as int) =~= Set::<u32>::empty());
                    assert(union_set(ls, i as int, i + 1) =~= ls[i as int].to_set());
                    assert(group_qubits@.no_duplicates()) by {
                        assert(distinct(qs@));
                    }
                }
                group_start = i;
                group_len = 1;
            }
        }
        i = i + 1;
    }
    let ghost before = views(groups@);
    flush(&mut groups, ops, group_start, group_len, &group_qubits, Ghost(ls), Ghost(mx));
    proof {
        if group_len >= 1 {
            lemma_plan_push(ls, mx, before, views(groups@).last());
            assert(views(groups@) =~= before.push(views(groups@).last()));
        }
    }
    groups
}

/// Every merged group of `plan` has an addressable matrix: `2^m × 2^m` entries for `m` qubits
/// fit in a `usize` index.
pub open spec fn merged_groups_addressable(plan: Seq<(int, int, Seq<u32>)>) -> bool {
    forall|k: int| 0 <= k < plan.len() && #[trigger] plan[k].1 >= 2 ==> 2 * plan[k].2.len() < usize::BITS
}

/// The emitted operation `op` carries out the group `grp` of circuit `c`: a single operation is
/// copied unchanged; a merged group becomes the composition of its members on the group's
/// qubits.
pub open spec fn fused_op<T, M: Fn(T, T, T) -> T, Z: Fn(T) -> bool>(
    c: Circuit<T>,
    grp: (int, int, Seq<u32>),
    op: GateOp<T>,
    fma: M,
    is_zero: Z,
    zero: T,
    one: T,
) -> bool {
    &&& op.qubits_spec() == grp.2
    &&& grp.1 == 1 ==> {
        &&& op.gate_spec().arity() == c.ops_seq()[grp.0].gate_spec().arity()
        &&& op.gate_spec().entries() == c.ops_seq()[grp.0].gate_spec().entries()
    }
    &&& grp.1 >= 2 ==> {
        &&& op.gate_spec().arity() == grp.2.len()
        &&& group_composed(
            fma,
            is_zero,
            zero,
            one,
            grp.2,
            c.ops_seq().subrange(grp.0, grp.0 + grp.1),
            op.gate_spec().entries(),
        )
    }
}

/// `ops` is the fused form of `c` under cap `max`: one operation per group of the greedy plan.
pub open spec fn fused_ops<T, M: Fn(T, T, T) -> T, Z: Fn(T) -> bool>(
    c: Circuit<T>,
    max: nat,
    ops: Seq<GateOp<T>>,
    fma: M,
    is_zero: Z,
    zero: T,
    one: T,
) -> bool {
    exists|plan: Seq<(int, int, Seq<u32>)>| #[trigger] is_fusion_plan(qubit_lists(c), max, plan) && {
        &&& plan.len() == ops.len()
        &&& forall|k: int| 0 <= k < ops.len() ==> #[trigger] fused_op(c, plan[k], ops[k], fma, is_zero, zero, one)
    }
}

/// A qubit of the union of operations `s .. e` is a qubit of one of them.
proof fn lemma_union_member(ls: Seq<Seq<u32>>, s: int, e: int, x: u32)
    requires
        union_set(ls, s, e).contains(x),
    ensures
        exists|k: int| s <= k < e && #[trigger] ls[k].contains(x),
    decreases e - s,
{
    if e > s {
        if ls[e - 1].to_set().contains(x) {
            assert(ls[e - 1].contains(x));
        } else {
            lemma_union_member(ls, s, e - 1, x);
        }
    }
}

/// The union of operations `s .. e` holds every qubit of each of them.
proof fn lemma_union_covers(ls: Seq<Seq<u32>>, s: int, e: int, t: int, x: u32)
    requires
        s <= t < e,
        ls[t].contains(x),
    ensures
        union_set(ls, s, e).contains(x),
    decreases e - s,
{
    if t == e - 1 {
        assert(ls[t].to_set().contains(x));
    } else {
        lemma_union_covers(ls, s, e - 1, t, x);
    }
}

/// Fuse a circuit's gates greedily into composite gates of at most `max_qubits` qubits (see
/// [`plan_fusion`]): a single operation is kept, a merged group becomes the composition of its
/// members ([`build_fused`]). `fma(acc, e, x)` computes `acc + e·x` and `is_zero` tells which
/// matrix entries to skip. The matrix of every merged group must be addressable (see
/// [`merged_groups_addressable`]; [`plan_fusion`] shows the groups beforehand).
pub fn fuse<T: Copy, M: Fn(T, T, T) -> T, Z: Fn(T) -> bool>(
    circuit: &Circuit<T>,
    cfg: &FusionConfig,
    zero: T,
    one: T,
    fma: &M,
    is_zero: &Z,
) -> (out: Circuit<T>)
    requires
        circuit.wf(),
        forall|plan: Seq<(int, int, Seq<u32>)>| #[trigger] is_fusion_plan(
            qubit_lists(*circuit),
            effective_max(*cfg),
            plan,
        ) ==> merged_groups_addressable(plan),
        scalar_ops_callable(*fma, *is_zero),
    ensures
        out.wf(),
        out.n() == circuit.n(),
        out.ops_seq().len() <= circuit.ops_seq().len(),
        fused_ops(*circuit, effective_max(*cfg), out.ops_seq(), *fma, *is_zero, zero, one),
{
    let groups = plan_fusion(circuit, cfg);
    assert(merged_groups_addressable(views(groups@)));
    let ops = circuit.ops();
    let ghost ls = qubit_lists(*circuit);
    let ghost mx = effective_max(*cfg);
    let ghost n = circuit.n();
    let mut out: Circuit<T> = Circuit::new(circuit.n_qubits());
    let mut k: usize = 0;
    while k < groups.len()
        invariant
            circuit.wf(),
            ops@ == circuit.ops_seq(),
            ls == qubit_lists(*circuit),
            mx == effective_max(*cfg),
            n == circuit.n(),
            merged_groups_addressable(views(groups@)),
            scalar_ops_callable(*fma, *is_zero),
            is_fusion_plan(ls, mx, views(groups@)),
            k <= groups@.len(),
            groups@.len() <= circuit.ops_seq().len(),
            out.wf(),
            out.n() == n,
            out.ops_seq().len() == k,
            forall|j: int| 0 <= j < k ==> #[trigger] fused_op(
                *circuit,
                views(groups@)[j],
                out.ops_seq()[j],
                *fma,
                *is_zero,
                zero,
                one,
            ),
        decreases groups@.len() - k,
    {
        let grp = &groups[k];
        let ghost gv = views(groups@)[k as int];
        assert(gv == (grp.start as int, grp.count as int, grp.qubits@));
        assert(valid_group(ls, mx, gv.0, gv.1, gv.2));
        let ghost before = out.ops_seq();
        if grp.count == 1 {
            let op = &ops[grp.start];
            assert(op.valid_for(n));
            let g = op.gate().duplicate();
            out.push(g, op.qubits());
        } else {
            let q = grp.qubits.as_slice();
            proof {
                let (s, e) = (gv.0, gv.0 + gv.1);
                assert forall|i: int| 0 <= i < q@.len() implies (q@[i] as nat) < (n as nat) by {
                    assert(q@.to_set().contains(q@[i]));
                    lemma_union_member(ls, s, e, q@[i]);
                    let t = choose|t: int| s <= t < e && #[trigger] ls[t].contains(q@[i]);
                    assert(ops@[t].valid_for(n));
                    let j = choose|j: int| 0 <= j < ls[t].len() && ls[t][j] == q@[i];
                    assert(ls[t][j] == ops@[t].qubits_spec()[j]);
                }
                assert(crate::layout::all_below(q@, n as nat));
                assert(distinct(q@)) by {
                    assert forall|a: int, b: int| 0 <= a < q@.len() && 0 <= b < q@.len() && a != b
                        implies q@[a] != q@[b] by {
                        if a < b {
                            assert(q@[a] < q@[b]);
                        } else {
                            assert(q@[b] < q@[a]);
                        }
                    }
                }
                assert(views(groups@)[k as int].1 >= 2);
                assert(2 * q@.len() < usize::BITS);
                assert forall|t: int| s <= t < e implies member_fits(q@, #[trigger] ops@[t]) by {
                    assert(ops@[t].valid_for(n));
                    assert forall|j: int| 0 <= j < ops@[t].qubits_spec().len() implies q@.contains(
                        #[trigger] ops@[t].qubits_spec()[j],
                    ) by {
                        let x = ops@[t].qubits_spec()[j];
                        assert(ls[t][j] == x);
                        lemma_union_covers(ls, s, e, t, x);
                        assert(q@.to_set().contains(x));
                    }
                }
            }
            let g = build_fused(q, ops, grp.start, grp.count, zero, one, fma, is_zero);
            out.push(g, q);
        }
        proof {
            assert forall|j: int| 0 <= j <= k implies #[trigger] fused_op(
                *circuit,
                views(groups@)[j],
                out.ops_seq()[j],
                *fma,
                *is_zero,
                zero,
                one,
            ) by {
                if j < k {
                    assert(out.ops_seq()[j] == before[j]);
                }
            }
        }
        k = k + 1;
    }
    assert(is_fusion_plan(qubit_lists(*circuit), effective_max(*cfg), views(groups@)));
    out
}

/// [`fuse`], checked: `None` when a merged group of the greedy plan would be too wide for its
/// matrix to be addressed, the fused circuit otherwise.
pub fn try_fuse<T: Copy, M: Fn(T, T, T) -> T, Z: Fn(T) -> bool>(
    circuit: &Circuit<T>,
    cfg: &FusionConfig,
    zero: T,
    one: T,
    fma: &M,
    is_zero: &Z,
) -> (r: Option<Circuit<T>>)
    requires
        circuit.wf(),
        scalar_ops_callable(*fma, *is_zero),
    ensures
        r is None <==> exists|plan: Seq<(int, int, Seq<u32>)>| #[trigger] is_fusion_plan(
            qubit_lists(*circuit),
            effective_max(*cfg),
            plan,
        ) && !merged_groups_addressable(plan),
        r matches Some(out) ==> {
            &&& out.wf()
            &&& out.n() == circuit.n()
            &&& out.ops_seq().len() <= circuit.ops_seq().len()
            &&& fused_ops(*circuit, effective_max(*cfg), out.ops_seq(), *fma, *is_zero, zero, one)
        },
{
    let groups = plan_fusion(circuit, cfg);
    let ghost ls = qubit_lists(*circuit);
    let ghost mx = effective_max(*cfg);
    let ghost plan = views(groups@);
    let half: usize = (usize::BITS / 2) as usize;
    let mut k: usize = 0;
    while k < groups.len()
        invariant
            plan == views(groups@),
            ls == qubit_lists(*circuit),
            mx == effective_max(*cfg),
            is_fusion_plan(ls, mx, plan),
            half as nat * 2 == usize::BITS,
            k <= groups@.len(),
            forall|j: int| 0 <= j < k && #[trigger] plan[j].1 >= 2 ==> 2 * plan[j].2.len() < usize::BITS,
        decreases groups@.len() - k,
    {
        assert(plan[k as int] == (groups@[k as int].start as int, groups@[k as int].count as int, groups@[k as int].qubits@));
        if groups[k].count >= 2 && groups[k].qubits.len() >= half {
            proof {
                assert(plan[k as int].1 >= 2);
                assert(!merged_groups_addressable(plan));
                assert(is_fusion_plan(ls, mx, plan));
            }
            return None;
        }
        k = k + 1;
    }
    proof {
        assert(merged_groups_addressable(plan));
        assert forall|t: int| 0 <= t < ls.len() implies #[trigger] ls[t].no_duplicates() by {
            assert(circuit.ops_seq()[t].valid_for(circuit.n()));
        }
        assert forall|p: Seq<(int, int, Seq<u32>)>| #[trigger] is_fusion_plan(ls, mx, p) implies merged_groups_addressable(p) by {
            lemma_fusion_plan_unique(ls, mx, p, plan);
        }
        if exists|p: Seq<(int, int, Seq<u32>)>| #[trigger] is_fusion_plan(ls, mx, p) && !merged_groups_addressable(p) {
            let p = choose|p: Seq<(int, int, Seq<u32>)>| #[trigger] is_fusion_plan(ls, mx, p) && !merged_groups_addressable(p);
            assert(merged_groups_addressable(p));
        }
    }
    Some(fuse(circuit, cfg, zero, one, fma, is_zero))
}

} // verus!
