//! Integer side of measurement: the alias table's bucket structure, and the sign a basis state
//! contributes to a Pauli-Z expectation.
//!
//! Vose's alias method samples a discrete distribution in `O(1)` per shot: bucket `i` is drawn
//! uniformly, kept with probability `prob[i]`, and otherwise replaced by `alias[i]`. Building it
//! moves the excess of the over-full buckets into the under-full ones. The scalar arithmetic
//! (comparisons with one, the transfer of excess) is the caller's; this module keeps the
//! worklists and the indices.
use vstd::prelude::*;

verus! {

/// Number of `1` bits of `x`.
pub open spec fn popcount(x: usize) -> nat
    decreases x,
{
    if x == 0 {
        0
    } else {
        (x % 2) as nat + popcount(x / 2)
    }
}

/// Whether basis state `index` contributes `+p` (rather than `-p`) to `⟨Z_mask⟩`: the qubits set
/// in `mask` hold an even number of ones in `index`.
pub fn even_parity(index: usize, mask: usize) -> (b: bool)
    ensures
        b == (popcount(index & mask) % 2 == 0),
{
    let mut x: usize = index & mask;
    let mut even = true;
    while x != 0
        invariant
            (popcount(index & mask) % 2 == 0) == (even == (popcount(x) % 2 == 0)),
        decreases x,
    {
        assert((x & 1usize) == x % 2 && (x >> 1usize) == x / 2) by (bit_vector);
        if x & 1 == 1 {
            even = !even;
        }
        x = x >> 1;
    }
    even
}

/// `f` answers the same for the same argument.
pub open spec fn bool_function<T, B: Fn(T) -> bool>(f: B) -> bool {
    forall|x: T, b1: bool, b2: bool| call_ensures(f, (x,), b1) && call_ensures(f, (x,), b2) ==> b1 == b2
}

/// Bucket `i` was left over when the worklists ran out: always kept.
pub open spec fn leftover<T>(probs: Seq<T>, aliases: Seq<usize>, one: T, i: int) -> bool {
    probs[i] == one && aliases[i] == 0
}

/// Bucket `i` is left over or aliases a bucket whose scaled weight was not below one.
pub open spec fn bucket_ok<T, B: Fn(T) -> bool>(
    probs: Seq<T>,
    aliases: Seq<usize>,
    scaled: Seq<T>,
    one: T,
    below_one: B,
    i: int,
) -> bool {
    &&& 0 <= aliases[i] < scaled.len()
    &&& leftover(probs, aliases, one, i) || call_ensures(below_one, (scaled[aliases[i] as int],), false)
}

/// Facts every alias table built by Vose's method from the weights `scaled` has: one bucket per
/// weight; every alias is a bucket that started over-full, unless the bucket is a leftover that
/// is always kept; and a bucket that started under-full keeps its own weight as its acceptance
/// probability (or is a leftover).
pub open spec fn alias_bucket_facts<T, B: Fn(T) -> bool>(
    probs: Seq<T>,
    aliases: Seq<usize>,
    scaled: Seq<T>,
    one: T,
    below_one: B,
) -> bool {
    &&& probs.len() == scaled.len()
    &&& aliases.len() == scaled.len()
    &&& forall|i: int| 0 <= i < scaled.len() ==> #[trigger] bucket_ok(probs, aliases, scaled, one, below_one, i)
    &&& bool_function(below_one) ==> forall|i: int|
        0 <= i < scaled.len() && call_ensures(below_one, (scaled[i],), true) ==> #[trigger] probs[i] == scaled[i]
            || leftover(probs, aliases, one, i)
}

/// The buckets classified under-full by `bs`, in increasing order.
pub open spec fn small_of(bs: Seq<bool>) -> Seq<usize>
    decreases bs.len(),
{
    if bs.len() == 0 {
        Seq::empty()
    } else if bs.last() {
        small_of(bs.drop_last()).push((bs.len() - 1) as usize)
    } else {
        small_of(bs.drop_last())
    }
}

/// The buckets classified over-full by `bs`, in increasing order.
pub open spec fn large_of(bs: Seq<bool>) -> Seq<usize>
    decreases bs.len(),
{
    if bs.len() == 0 {
        Seq::empty()
    } else if !bs.last() {
        large_of(bs.drop_last()).push((bs.len() - 1) as usize)
    } else {
        large_of(bs.drop_last())
    }
}

/// `bs[i]` is what `below_one` answered for weight `i`.
pub open spec fn classified<T, B: Fn(T) -> bool>(scaled: Seq<T>, below_one: B, bs: Seq<bool>) -> bool {
    &&& bs.len() == scaled.len()
    &&& forall|i: int| 0 <= i < scaled.len() ==> call_ensures(below_one, (#[trigger] scaled[i],), bs[i])
}

/// A state of Vose's construction: `(weights, probabilities, aliases, small, large)`, the
/// current weight of each bucket, the table so far, and the two worklists of bucket indices.
/// The start state holds the weights, probability `one` and alias `0` everywhere, and the
/// under-full buckets (`below_one`) in `small`, the others in `large`, in increasing order.
pub open spec fn vose_start<T, B: Fn(T) -> bool>(
    scaled: Seq<T>,
    one: T,
    below_one: B,
    st: (Seq<T>, Seq<T>, Seq<usize>, Seq<usize>, Seq<usize>),
) -> bool {
    exists|bs: Seq<bool>| #[trigger] classified(scaled, below_one, bs) && st == (
        scaled,
        Seq::new(scaled.len(), |i: int| one),
        Seq::new(scaled.len(), |i: int| 0usize),
        small_of(bs),
        large_of(bs),
    )
}

/// One pairing step from `a` to `b`: pop the last under-full bucket `s` and the last over-full
/// bucket `l`; `s` keeps its weight as its probability and gets alias `l`; `l`'s weight becomes
/// `transfer(w_l, w_s)`, and `l` goes back on `small` or `large` as `below_one` says of it.
pub open spec fn vose_step<T, B: Fn(T) -> bool, X: Fn(T, T) -> T>(
    below_one: B,
    transfer: X,
    a: (Seq<T>, Seq<T>, Seq<usize>, Seq<usize>, Seq<usize>),
    b: (Seq<T>, Seq<T>, Seq<usize>, Seq<usize>, Seq<usize>),
) -> bool {
    &&& a.3.len() > 0
    &&& a.4.len() > 0
    &&& {
        let s = a.3.last() as int;
        let l = a.4.last() as int;
        let v = b.0[l];
        &&& b.0 == a.0.update(l, v)
        &&& b.1 == a.1.update(s, a.0[s])
        &&& b.2 == a.2.update(s, l as usize)
        &&& call_ensures(transfer, (a.0[l], a.0[s]), v)
        &&& {
            ||| call_ensures(below_one, (v,), true) && b.3 == a.3.drop_last().push(l as usize) && b.4
                == a.4.drop_last()
            ||| call_ensures(below_one, (v,), false) && b.3 == a.3.drop_last() && b.4 == a.4.drop_last().push(
                l as usize,
            )
        }
    }
}

/// Step `k` of a run of states.
pub open spec fn vose_step_at<T, B: Fn(T) -> bool, X: Fn(T, T) -> T>(
    below_one: B,
    transfer: X,
    sts: Seq<(Seq<T>, Seq<T>, Seq<usize>, Seq<usize>, Seq<usize>)>,
    k: int,
) -> bool {
    vose_step(below_one, transfer, sts[k], sts[k + 1])
}

/// `sts` is a complete run of Vose's construction: the start state, pairing steps, and a last
/// state where a worklist is empty.
pub open spec fn vose_run<T, B: Fn(T) -> bool, X: Fn(T, T) -> T>(
    scaled: Seq<T>,
    one: T,
    below_one: B,
    transfer: X,
    sts: Seq<(Seq<T>, Seq<T>, Seq<usize>, Seq<usize>, Seq<usize>)>,
) -> bool {
    &&& sts.len() >= 1
    &&& vose_start(scaled, one, below_one, sts[0])
    &&& forall|k: int| 0 <= k < sts.len() - 1 ==> #[trigger] vose_step_at(below_one, transfer, sts, k)
    &&& sts.last().3.len() == 0 || sts.last().4.len() == 0
}

/// `p` with probability `one` at every bucket listed in `q`.
pub open spec fn settled<T>(p: Seq<T>, q: Seq<usize>, one: T) -> Seq<T> {
    Seq::new(p.len(), |i: int| if q.contains(i as usize) { one } else { p[i] })
}

/// `(probs, aliases)` is the alias table Vose's method builds from the weights `scaled`: the
/// aliases and probabilities at the end of a complete run, with the buckets still queued (the
/// left-overs, `large` then `small`) set to probability `one`.
pub open spec fn vose_table<T, B: Fn(T) -> bool, X: Fn(T, T) -> T>(
    probs: Seq<T>,
    aliases: Seq<usize>,
    scaled: Seq<T>,
    one: T,
    below_one: B,
    transfer: X,
) -> bool {
    exists|sts: Seq<(Seq<T>, Seq<T>, Seq<usize>, Seq<usize>, Seq<usize>)>| #[trigger] vose_run(
        scaled,
        one,
        below_one,
        transfer,
        sts,
    ) && aliases == sts.last().2 && probs == settled(settled(sts.last().1, sts.last().4, one), sts.last().3, one)
}

/// The facts every Vose table has, from the state at the end of the pairing: buckets never
/// filled (the queued ones among them) have probability `one` and alias `0`; filled ones alias a
/// bucket that started over-full; under-full ones keep their weight.
#[verifier::spinoff_prover]
proof fn lemma_final_buckets<T, B: Fn(T) -> bool>(
    init: Seq<T>,
    one: T,
    below_one: B,
    probs: Seq<T>,
    alias: Seq<usize>,
    cur: Seq<T>,
    small: Seq<usize>,
    large: Seq<usize>,
    fin: Set<int>,
)
    requires
        init.len() <= usize::MAX,
        probs.len() == init.len(),
        alias.len() == init.len(),
        cur.len() == init.len(),
        forall|k: int| 0 <= k < small.len() ==> #[trigger] small[k] < init.len() && !fin.contains(small[k] as int),
        forall|k: int| 0 <= k < large.len() ==> #[trigger] large[k] < init.len() && !fin.contains(large[k] as int),
        forall|j: int| 0 <= j < init.len() && !fin.contains(j) ==> #[trigger] probs[j] == one && alias[j] == 0,
        forall|j: int| 0 <= j < init.len() && fin.contains(j) ==> #[trigger] alias[j] < init.len() && call_ensures(
            below_one,
            (init[alias[j] as int],),
            false,
        ),
        forall|j: int|
            bool_function(below_one) && 0 <= j < init.len() && call_ensures(below_one, (init[j],), true)
                ==> #[trigger] cur[j] == init[j] && (fin.contains(j) ==> probs[j] == init[j]),
    ensures
        alias_bucket_facts(settled(settled(probs, large, one), small, one), alias, init, one, below_one),
{
    let fp = settled(settled(probs, large, one), small, one);
    let n = init.len();
    assert forall|i: int| 0 <= i < n && (small.contains(i as usize) || large.contains(i as usize)) implies !fin.contains(
        i,
    ) by {
        if small.contains(i as usize) {
            let w = choose|w: int| 0 <= w < small.len() && small[w] == i as usize;
            assert(!fin.contains(small[w] as int));
        } else {
            let w = choose|w: int| 0 <= w < large.len() && large[w] == i as usize;
            assert(!fin.contains(large[w] as int));
        }
    }
    assert forall|i: int| 0 <= i < n implies #[trigger] bucket_ok(fp, alias, init, one, below_one, i) by {
        if !fin.contains(i) {
            assert(probs[i] == one && alias[i] == 0);
        } else {
            assert(alias[i] < n);
        }
    }
    if bool_function(below_one) {
        assert forall|i: int| 0 <= i < n && call_ensures(below_one, (init[i],), true) implies #[trigger] fp[i]
            == init[i] || leftover(fp, alias, one, i) by {
            if !fin.contains(i) {
                assert(probs[i] == one && alias[i] == 0);
            } else {
                assert(cur[i] == init[i]);
            }
        }
    }
}

/// A Vose alias table over `n > 0` outcomes.
pub struct AliasTable<T> {
    prob: Vec<T>,
    alias: Vec<usize>,
}

impl<T> AliasTable<T> {
    /// Acceptance probability of each bucket.
    pub closed spec fn probs(&self) -> Seq<T> {
        self.prob@
    }

    /// Replacement outcome of each bucket.
    pub closed spec fn aliases(&self) -> Seq<usize> {
        self.alias@
    }

    /// At least one bucket; every bucket has a probability and an alias among the buckets.
    pub open spec fn wf(&self) -> bool {
        &&& self.probs().len() > 0
        &&& self.aliases().len() == self.probs().len()
        &&& forall|i: int| 0 <= i < self.aliases().len() ==> #[trigger] self.aliases()[i] < self.aliases().len()
    }
}

impl<T: Copy> AliasTable<T> {
    /// Vose's construction from the weights `scaled` (each weight times `n / total`, so that
    /// they average one). `below_one(w)` compares a weight with one; `transfer(l, s)` is what is
    /// left of an over-full bucket `l` after it fills the under-full bucket `s`, `(l + s) - 1`.
    /// Under-full buckets are filled from over-full ones, last in first out; a bucket still
    /// waiting when either worklist runs out keeps probability `one`.
    pub fn build<B: Fn(T) -> bool, X: Fn(T, T) -> T>(
        scaled: Vec<T>,
        one: T,
        below_one: &B,
        transfer: &X,
    ) -> (table: Self)
        requires
            scaled@.len() > 0,
            forall|x: T| #[trigger] below_one.requires((x,)),
            forall|a: T, b: T| #[trigger] transfer.requires((a, b)),
        ensures
            table.wf(),
            vose_table(table.probs(), table.aliases(), scaled@, one, *below_one, *transfer),
            alias_bucket_facts(table.probs(), table.aliases(), scaled@, one, *below_one),
    {
        let n = scaled.len();
        let ghost init = scaled@;
        let mut cur = scaled;
        let mut prob: Vec<T> = Vec::with_capacity(n);
        let mut alias: Vec<usize> = Vec::with_capacity(n);
        let mut small: Vec<usize> = Vec::new();
        let mut large: Vec<usize> = Vec::new();
        let ghost mut bs: Seq<bool> = Seq::empty();
        let mut i: usize = 0;
        while i < n
            invariant
                n == init.len(),
                cur@ == init,
                i <= n,
                prob@.len() == i,
                alias@.len() == i,
                forall|j: int| 0 <= j < i ==> #[trigger] prob@[j] == one && alias@[j] == 0,
                bs.len() == i,
                forall|j: int| 0 <= j < i ==> call_ensures(*below_one, (#[trigger] init[j],), bs[j]),
                small@ == small_of(bs),
                large@ == large_of(bs),
                small@.no_duplicates(),
                large@.no_duplicates(),
                forall|a: int, b: int| 0 <= a < small@.len() && 0 <= b < large@.len() ==> small@[a] != large@[b],
                forall|k: int| 0 <= k < small@.len() ==> #[trigger] small@[k] < i,
                forall|k: int| 0 <= k < large@.len() ==> #[trigger] large@[k] < i && call_ensures(
                    *below_one,
                    (init[large@[k] as int],),
                    false,
                ),
                forall|x: T| #[trigger] below_one.requires((x,)),
            decreases n - i,
        {
            let b = below_one(cur[i]);
            if b {
                small.push(i);
            } else {
                large.push(i);
            }
            proof {
                let bs0 = bs;
                bs = bs.push(b);
                assert(bs.drop_last() =~= bs0);
                assert(small_of(bs) == small@);
                assert(large_of(bs) == large@);
            }
            let ghost p0 = prob@;
            let ghost a0 = alias@;
            prob.push(one);
            alias.push(0);
            assert forall|j: int| 0 <= j < i + 1 implies #[trigger] prob@[j] == one && alias@[j] == 0 by {
                if j < i {
                    assert(prob@[j] == p0[j] && alias@[j] == a0[j]);
                }
            }
            i = i + 1;
        }
        let ghost start = (cur@, prob@, alias@, small@, large@);
        proof {
            assert(prob@ =~= Seq::new(n as nat, |j: int| one));
            assert forall|j: int| 0 <= j < n implies alias@[j] == 0usize by {
                assert(prob@[j] == one);
            }
            assert(alias@ =~= Seq::new(n as nat, |j: int| 0usize));
            assert(classified(init, *below_one, bs));
            assert(vose_start(init, one, *below_one, start));
        }
        let ghost mut sts = seq![start];
        let ghost mut fin: Set<int> = Set::empty();
        while small.len() > 0 && large.len() > 0
            invariant
                n == init.len(),
                cur@.len() == n,
                prob@.len() == n,
                alias@.len() == n,
                sts.len() >= 1,
                vose_start(init, one, *below_one, sts[0]),
                forall|k: int| 0 <= k < sts.len() - 1 ==> #[trigger] vose_step_at(*below_one, *transfer, sts, k),
                sts.last() == (cur@, prob@, alias@, small@, large@),
                small@.no_duplicates(),
                large@.no_duplicates(),
                forall|a: int, b: int| 0 <= a < small@.len() && 0 <= b < large@.len() ==> small@[a] != large@[b],
                forall|k: int| 0 <= k < small@.len() ==> #[trigger] small@[k] < n && !fin.contains(small@[k] as int),
                forall|k: int| 0 <= k < large@.len() ==> #[trigger] large@[k] < n && !fin.contains(large@[k] as int)
                    && call_ensures(*below_one, (init[large@[k] as int],), false),
                forall|j: int| 0 <= j < n && !fin.contains(j) ==> #[trigger] prob@[j] == one && alias@[j] == 0,
                forall|j: int| 0 <= j < n && fin.contains(j) ==> #[trigger] alias@[j] < n && call_ensures(
                    *below_one,
                    (init[alias@[j] as int],),
                    false,
                ),
                forall|j: int|
                    bool_function(*below_one) && 0 <= j < n && call_ensures(*below_one, (init[j],), true)
                        ==> #[trigger] cur@[j] == init[j] && (fin.contains(j) ==> prob@[j] == init[j]),
                forall|x: T| #[trigger] below_one.requires((x,)),
                forall|a: T, b: T| #[trigger] transfer.requires((a, b)),
            decreases small@.len() + large@.len(),
        {
            let ghost before = sts.last();
            let ghost small0 = small@;
            let ghost large0 = large@;
            let ghost cur0 = cur@;
            let ghost prob0 = prob@;
            let ghost alias0 = alias@;
            let s = small.pop().unwrap();
            let l = large.pop().unwrap();
            assert(s == small0[small0.len() - 1]);
            assert(l == large0[large0.len() - 1]);
            assert(call_ensures(*below_one, (init[l as int],), false));
            assert(s != l);
            prob.set(s, cur[s]);
            alias.set(s, l);
            let left = transfer(cur[l], cur[s]);
            cur.set(l, left);
            let b = below_one(cur[l]);
            if b {
                small.push(l);
            } else {
                large.push(l);
            }
            let ghost fin0 = fin;
            proof {
                fin = fin.insert(s as int);
                let after = (cur@, prob@, alias@, small@, large@);
                assert(cur@ == cur0.update(l as int, left));
                assert(after.0[l as int] == left);
                assert(vose_step(*below_one, *transfer, before, after));
                let sts0 = sts;
                sts = sts.push(after);
                assert forall|k: int| 0 <= k < sts.len() - 1 implies #[trigger] vose_step_at(
                    *below_one,
                    *transfer,
                    sts,
                    k,
                ) by {
                    if k < sts0.len() - 1 {
                        assert(vose_step_at(*below_one, *transfer, sts0, k));
                        assert(sts[k] == sts0[k] && sts[k + 1] == sts0[k + 1]);
                    } else {
                        assert(sts[k] == before && sts[k + 1] == after);
                    }
                }
                assert(small0.drop_last() =~= small0.subrange(0, small0.len() - 1));
                assert(large0.drop_last() =~= large0.subrange(0, large0.len() - 1));
                assert forall|k: int| 0 <= k < small@.len() implies #[trigger] small@[k] < n && !fin.contains(
                    small@[k] as int,
                ) by {
                    if k < small0.len() - 1 {
                        assert(small@[k] == small0[k]);
                        assert(small0[k] != small0[small0.len() - 1]);
                    } else {
                        assert(small@[k] == l);
                    }
                }
                assert forall|k: int| 0 <= k < large@.len() implies #[trigger] large@[k] < n && !fin.contains(
                    large@[k] as int,
                ) && call_ensures(*below_one, (init[large@[k] as int],), false) by {
                    if k < large0.len() - 1 {
                        assert(large@[k] == large0[k]);
                        assert(large0[k] != small0[small0.len() - 1]);
                    } else {
                        assert(large@[k] == l);
                    }
                }
                assert(small@.no_duplicates()) by {
                    assert forall|a: int, c: int| 0 <= a < small@.len() && 0 <= c < small@.len() && a != c
                        implies small@[a] != small@[c] by {
                        if a < small0.len() - 1 && c < small0.len() - 1 {
                            assert(small@[a] == small0[a] && small@[c] == small0[c]);
                        } else if a < small0.len() - 1 {
                            assert(small@[a] == small0[a] && small@[c] == l);
                            assert(small0[a] != large0[large0.len() - 1]);
                        } else {
                            assert(small@[c] == small0[c] && small@[a] == l);
                            assert(small0[c] != large0[large0.len() - 1]);
                        }
                    }
                }
                assert(large@.no_duplicates()) by {
                    assert forall|a: int, c: int| 0 <= a < large@.len() && 0 <= c < large@.len() && a != c
                        implies large@[a] != large@[c] by {
                        if a < large0.len() - 1 && c < large0.len() - 1 {
                            assert(large@[a] == large0[a] && large@[c] == large0[c]);
                        } else if a < large0.len() - 1 {
                            assert(large@[a] == large0[a] && large@[c] == l);
                        } else {
                            assert(large@[c] == large0[c] && large@[a] == l);
                        }
                    }
                }
                assert forall|a: int, c: int| 0 <= a < small@.len() && 0 <= c < large@.len() implies small@[a]
                    != large@[c] by {
                    if b {
                        assert(large@[c] == large0[c]);
                        if a < small0.len() - 1 {
                            assert(small@[a] == small0[a]);
                        } else {
                            assert(large0[c] != large0[large0.len() - 1]);
                        }
                    } else {
                        assert(small@[a] == small0[a]);
                        if c < large0.len() - 1 {
                            assert(large@[c] == large0[c]);
                        } else {
                            assert(small0[a] != large0[large0.len() - 1]);
                        }
                    }
                }
                assert forall|j: int| 0 <= j < n && !fin.contains(j) implies #[trigger] prob@[j] == one && alias@[j]
                    == 0 by {
                    assert(prob@[j] == prob0[j] && alias@[j] == alias0[j]);
                }
                assert forall|j: int| 0 <= j < n && fin.contains(j) implies #[trigger] alias@[j] < n && call_ensures(
                    *below_one,
                    (init[alias@[j] as int],),
                    false,
                ) by {
                    if j != s as int {
                        assert(alias@[j] == alias0[j]);
                    }
                }
                assert forall|j: int| bool_function(*below_one) && 0 <= j < n && call_ensures(*below_one, (init[j],), true)
                    implies #[trigger] cur@[j] == init[j] && (fin.contains(j) ==> prob@[j] == init[j]) by {
                    if j == l as int {
                        assert(call_ensures(*below_one, (init[j],), false));
                    }
                    assert(cur@[j] == cur0[j]);
                    assert(cur0[j] == init[j]);
                    if fin.contains(j) {
                        if j == s as int {
                            assert(prob@[j] == cur0[j]);
                        } else {
                            assert(prob@[j] == prob0[j]);
                            assert(fin0.contains(j));
                        }
                    }
                }
            }
        }
        let ghost run_probs = prob@;
        let ghost final_probs = settled(settled(run_probs, large@, one), small@, one);
        proof {
            assert(vose_run(init, one, *below_one, *transfer, sts));
            lemma_final_buckets(init, one, *below_one, run_probs, alias@, cur@, small@, large@, fin);
        }
        // Buckets still queued when a worklist runs out are always kept.
        let mut k: usize = 0;
        while k < large.len()
            invariant
                n == init.len(),
                alias@.len() == n,
                vose_run(init, one, *below_one, *transfer, sts),
                sts.last().1 == run_probs,
                sts.last().2 == alias@,
                sts.last().3 == small@,
                sts.last().4 == large@,
                final_probs == settled(settled(run_probs, large@, one), small@, one),
                alias_bucket_facts(final_probs, alias@, init, one, *below_one),
                prob@.len() == n,
                k <= large@.len(),
                forall|t: int| 0 <= t < large@.len() ==> #[trigger] large@[t] < n,
                prob@ == settled(run_probs, large@.take(k as int), one),
            decreases large@.len() - k,
        {
            let ghost p0 = prob@;
            let q = large[k];
            prob.set(q, one);
            proof {
                assert(prob@ =~= settled(run_probs, large@.take(k + 1), one)) by {
                    assert forall|j: int| 0 <= j < n implies prob@[j] == settled(run_probs, large@.take(k + 1), one)[j] by {
                        let t1 = large@.take(k + 1);
                        let t0 = large@.take(k as int);
                        if t1.contains(j as usize) {
                            let w = choose|w: int| 0 <= w < t1.len() && t1[w] == j as usize;
                            if w < k {
                                assert(t0[w] == j as usize);
                            }
                        }
                        if t0.contains(j as usize) {
                            let w = choose|w: int| 0 <= w < t0.len() && t0[w] == j as usize;
                            assert(t1[w] == j as usize);
                        }
                        if j == q as int {
                            assert(t1[k as int] == q);
                        }
                    }
                }
            }
            k = k + 1;
        }
        assert(large@.take(large@.len() as int) =~= large@);
        let ghost settled_large = prob@;
        let mut k: usize = 0;
        while k < small.len()
            invariant
                n == init.len(),
                alias@.len() == n,
                vose_run(init, one, *below_one, *transfer, sts),
                sts.last().1 == run_probs,
                sts.last().2 == alias@,
                sts.last().3 == small@,
                sts.last().4 == large@,
                final_probs == settled(settled(run_probs, large@, one), small@, one),
                alias_bucket_facts(final_probs, alias@, init, one, *below_one),
                prob@.len() == n,
                k <= small@.len(),
                forall|t: int| 0 <= t < small@.len() ==> #[trigger] small@[t] < n,
                prob@ == settled(settled_large, small@.take(k as int), one),
            decreases small@.len() - k,
        {
            let q = small[k];
            prob.set(q, one);
            proof {
                assert(prob@ =~= settled(settled_large, small@.take(k + 1), one)) by {
                    assert forall|j: int| 0 <= j < n implies prob@[j] == settled(settled_large, small@.take(k + 1), one)[j] by {
                        let t1 = small@.take(k + 1);
                        let t0 = small@.take(k as int);
                        if t1.contains(j as usize) {
                            let w = choose|w: int| 0 <= w < t1.len() && t1[w] == j as usize;
                            if w < k {
                                assert(t0[w] == j as usize);
                            }
                        }
                        if t0.contains(j as usize) {
                            let w = choose|w: int| 0 <= w < t0.len() && t0[w] == j as usize;
                            assert(t1[w] == j as usize);
                        }
                        if j == q as int {
                            assert(t1[k as int] == q);
                        }
                    }
                }
            }
            k = k + 1;
        }
        assert(small@.take(small@.len() as int) =~= small@);
        let table = AliasTable { prob, alias };
        proof {
            assert(table.probs() == final_probs);
            assert forall|i: int| 0 <= i < table.aliases().len() implies #[trigger] table.aliases()[i] < table.aliases().len() by {
                assert(bucket_ok(final_probs, alias@, init, one, *below_one, i));
            }
        }
        table
    }

    /// Number of buckets (outcomes).
    pub fn len(&self) -> (n: usize)
        ensures
            n == self.probs().len(),
    {
        self.prob.len()
    }

    /// Whether there are no buckets (never, for a built table).
    pub fn is_empty(&self) -> (b: bool)
        ensures
            b == (self.probs().len() == 0),
    {
        self.prob.len() == 0
    }

    /// Acceptance probability of bucket `i`.
    pub fn prob(&self, i: usize) -> (p: T)
        requires
            i < self.probs().len(),
        ensures
            p == self.probs()[i as int],
    {
        self.prob[i]
    }

    /// The outcome of drawing bucket `bucket`: the bucket itself when its acceptance test passed,
    /// its alias otherwise.
    pub fn resolve(&self, bucket: usize, accept: bool) -> (r: usize)
        requires
            self.wf(),
            bucket < self.probs().len(),
        ensures
            r == if accept { bucket } else { self.aliases()[bucket as int] },
            r < self.probs().len(),
    {
        if accept {
            bucket
        } else {
            self.alias[bucket]
        }
    }
}

/// An outcome whose scaled weight is below one is reached only through its own bucket, or
/// through a left-over bucket, whose acceptance probability is one.
pub proof fn lemma_under_full_outcome_source<T, B: Fn(T) -> bool>(
    table: AliasTable<T>,
    scaled: Seq<T>,
    one: T,
    below_one: B,
    z: int,
    bucket: int,
    accept: bool,
)
    requires
        alias_bucket_facts(table.probs(), table.aliases(), scaled, one, below_one),
        bool_function(below_one),
        0 <= z < scaled.len(),
        call_ensures(below_one, (scaled[z],), true),
        0 <= bucket < scaled.len(),
        (if accept { bucket } else { table.aliases()[bucket] as int }) == z,
    ensures
        bucket == z || table.probs()[bucket] == one,
{
    if !accept && bucket != z {
        assert(bucket_ok(table.probs(), table.aliases(), scaled, one, below_one, bucket));
        if !leftover(table.probs(), table.aliases(), one, bucket) {
            assert(call_ensures(below_one, (scaled[z],), false));
        }
    }
}

/// Sum of the measure `m` over the weights `w`.
pub open spec fn weight_sum<T>(w: Seq<T>, m: spec_fn(T) -> int) -> int
    decreases w.len(),
{
    if w.len() == 0 {
        0
    } else {
        weight_sum(w.drop_last(), m) + m(w.last())
    }
}

/// The mass that buckets `0 .. k` hand to outcome `z` through their aliases: a bucket `i`
/// whose alias is `z` gives `z` the part it does not keep, `m(one) - m(probs[i])`.
pub open spec fn alias_credit<T>(
    probs: Seq<T>,
    aliases: Seq<usize>,
    one: T,
    m: spec_fn(T) -> int,
    z: int,
    k: nat,
) -> int
    decreases k,
{
    if k == 0 {
        0
    } else {
        alias_credit(probs, aliases, one, m, z, (k - 1) as nat) + if aliases[k - 1] as int == z {
            m(one) - m(probs[k - 1])
        } else {
            0
        }
    }
}

/// Total excess over one, under `m`, of the weights `w` at the buckets listed in `q`.
spec fn queued_excess<T>(q: Seq<usize>, w: Seq<T>, one: T, m: spec_fn(T) -> int) -> int
    decreases q.len(),
{
    if q.len() == 0 {
        0
    } else {
        queued_excess(q.drop_last(), w, one, m) + (m(w[q.last() as int]) - m(one))
    }
}

/// Bucket `z` is still on a worklist in the construction state `st`.
spec fn queued<T>(st: (Seq<T>, Seq<T>, Seq<usize>, Seq<usize>, Seq<usize>), z: int) -> bool {
    st.3.contains(z as usize) || st.4.contains(z as usize)
}

/// What holds of every state of the construction, measured by `m`: the worklists are
/// disjoint, duplicate-free, and sorted by weight; a queued bucket still has probability `one`,
/// a finished bucket keeps its weight; each bucket's weight plus what it has been handed
/// through aliases is its starting weight; and the queued weights average one.
spec fn mass_inv<T>(
    scaled: Seq<T>,
    one: T,
    m: spec_fn(T) -> int,
    st: (Seq<T>, Seq<T>, Seq<usize>, Seq<usize>, Seq<usize>),
) -> bool {
    let n = scaled.len();
    &&& st.0.len() == n
    &&& st.1.len() == n
    &&& st.2.len() == n
    &&& st.3.no_duplicates()
    &&& st.4.no_duplicates()
    &&& forall|i: int, k: int| 0 <= i < st.3.len() && 0 <= k < st.4.len() ==> st.3[i] != st.4[k]
    &&& forall|k: int| 0 <= k < st.3.len() ==> #[trigger] st.3[k] < n && m(st.0[st.3[k] as int]) < m(one)
    &&& forall|k: int| 0 <= k < st.4.len() ==> #[trigger] st.4[k] < n && m(st.0[st.4[k] as int]) >= m(one)
    &&& forall|z: int| 0 <= z < n ==> if #[trigger] queued(st, z) {
        st.1[z] == one
    } else {
        st.1[z] == st.0[z] && m(st.0[z]) < m(one)
    }
    &&& forall|z: int|
        0 <= z < n ==> m(st.0[z]) + #[trigger] alias_credit(st.1, st.2, one, m, z, n) == m(scaled[z])
    &&& (forall|z: int| 0 <= z < n ==> m(#[trigger] scaled[z]) >= 0) ==> forall|z: int|
        0 <= z < n ==> m(#[trigger] st.0[z]) >= 0
    &&& queued_excess(st.3, st.0, one, m) + queued_excess(st.4, st.0, one, m) == 0
}

proof fn lemma_excess_push<T>(q: Seq<usize>, w: Seq<T>, one: T, m: spec_fn(T) -> int, x: usize)
    ensures
        queued_excess(q.push(x), w, one, m) == queued_excess(q, w, one, m) + (m(w[x as int]) - m(one)),
{
    assert(q.push(x).drop_last() =~= q);
}

proof fn lemma_excess_frame<T>(q: Seq<usize>, w: Seq<T>, one: T, m: spec_fn(T) -> int, l: int, v: T)
    requires
        0 <= l < w.len(),
        !q.contains(l as usize),
        forall|k: int| 0 <= k < q.len() ==> #[trigger] q[k] < w.len(),
    ensures
        queued_excess(q, w.update(l, v), one, m) == queued_excess(q, w, one, m),
    decreases q.len(),
{
    if q.len() > 0 {
        let d = q.drop_last();
        assert forall|k: int| 0 <= k < d.len() implies #[trigger] d[k] < w.len() by {
            assert(d[k] == q[k]);
        }
        if d.contains(l as usize) {
            let k = choose|k: int| 0 <= k < d.len() && d[k] == l as usize;
            assert(q[k] == l as usize);
        }
        lemma_excess_frame(d, w, one, m, l, v);
        assert(q[q.len() - 1] != l as usize);
    }
}

proof fn lemma_excess_nonneg<T>(q: Seq<usize>, w: Seq<T>, one: T, m: spec_fn(T) -> int)
    requires
        forall|k: int| 0 <= k < q.len() ==> m(w[#[trigger] q[k] as int]) >= m(one),
    ensures
        queued_excess(q, w, one, m) >= 0,
        queued_excess(q, w, one, m) == 0 ==> forall|k: int| 0 <= k < q.len() ==> m(w[#[trigger] q[k] as int]) == m(one),
    decreases q.len(),
{
    if q.len() > 0 {
        let d = q.drop_last();
        assert forall|k: int| 0 <= k < d.len() implies m(w[#[trigger] d[k] as int]) >= m(one) by {
            assert(d[k] == q[k]);
        }
        lemma_excess_nonneg(d, w, one, m);
        assert(m(w[q[q.len() - 1] as int]) >= m(one));
        if queued_excess(q, w, one, m) == 0 {
            assert forall|k: int| 0 <= k < q.len() implies m(w[#[trigger] q[k] as int]) == m(one) by {
                if k < q.len() - 1 {
                    assert(d[k] == q[k]);
                }
            }
        }
    }
}

proof fn lemma_excess_negative<T>(q: Seq<usize>, w: Seq<T>, one: T, m: spec_fn(T) -> int)
    requires
        forall|k: int| 0 <= k < q.len() ==> m(w[#[trigger] q[k] as int]) < m(one),
    ensures
        queued_excess(q, w, one, m) <= 0,
        q.len() > 0 ==> queued_excess(q, w, one, m) < 0,
    decreases q.len(),
{
    if q.len() > 0 {
        let d = q.drop_last();
        assert forall|k: int| 0 <= k < d.len() implies m(w[#[trigger] d[k] as int]) < m(one) by {
            assert(d[k] == q[k]);
        }
        lemma_excess_negative(d, w, one, m);
        assert(m(w[q[q.len() - 1] as int]) < m(one));
    }
}

/// The worklists of the start state: every bucket below `bs.len()` is on exactly one, in
/// increasing order, and their excess is that of the first `bs.len()` weights.
proof fn lemma_start_lists<T>(bs: Seq<bool>, w: Seq<T>, one: T, m: spec_fn(T) -> int)
    requires
        bs.len() <= w.len(),
        w.len() <= usize::MAX,
    ensures
        forall|k: int| 0 <= k < small_of(bs).len() ==> #[trigger] small_of(bs)[k] < bs.len() && bs[small_of(bs)[k] as int],
        forall|k: int| 0 <= k < large_of(bs).len() ==> #[trigger] large_of(bs)[k] < bs.len() && !bs[large_of(bs)[k] as int],
        small_of(bs).no_duplicates(),
        large_of(bs).no_duplicates(),
        forall|z: usize| z < bs.len() ==> #[trigger] small_of(bs).contains(z) || large_of(bs).contains(z),
        queued_excess(small_of(bs), w, one, m) + queued_excess(large_of(bs), w, one, m) == weight_sum(
            w.take(bs.len() as int),
            m,
        ) - bs.len() * m(one),
    decreases bs.len(),
{
    if bs.len() == 0 {
        assert(w.take(0) =~= Seq::<T>::empty());
    } else {
        let d = bs.drop_last();
        let last = (bs.len() - 1) as usize;
        assert(last as int == bs.len() - 1);
        lemma_start_lists(d, w, one, m);
        let sd = small_of(d);
        let ld = large_of(d);
        assert(w.take(bs.len() as int).drop_last() =~= w.take(d.len() as int));
        assert(w.take(bs.len() as int).last() == w[last as int]);
        assert(weight_sum(w.take(bs.len() as int), m) == weight_sum(w.take(d.len() as int), m) + m(w[last as int]));
        assert(bs.len() * m(one) == d.len() * m(one) + m(one)) by (nonlinear_arith)
            requires
                bs.len() == d.len() + 1,
        ;
        assert forall|k: int| 0 <= k < sd.len() implies bs[#[trigger] sd[k] as int] == d[sd[k] as int] by {}
        assert forall|k: int| 0 <= k < ld.len() implies bs[#[trigger] ld[k] as int] == d[ld[k] as int] by {}
        if bs.last() {
            assert(small_of(bs) == sd.push(last));
            assert(large_of(bs) == ld);
            lemma_excess_push(sd, w, one, m, last);
            assert forall|z: usize| z < bs.len() implies #[trigger] small_of(bs).contains(z) || large_of(
                bs,
            ).contains(z) by {
                if z < d.len() {
                    if sd.contains(z) {
                        let k = choose|k: int| 0 <= k < sd.len() && sd[k] == z;
                        assert(small_of(bs)[k] == z);
                    }
                } else {
                    assert(small_of(bs)[sd.len() as int] == z);
                }
            }
            assert forall|k: int| 0 <= k < small_of(bs).len() implies #[trigger] small_of(bs)[k] < bs.len()
                && bs[small_of(bs)[k] as int] by {
                if k < sd.len() {
                    assert(small_of(bs)[k] == sd[k]);
                    assert(sd[k] < d.len() && d[sd[k] as int]);
                    assert(bs[sd[k] as int] == d[sd[k] as int]);
                } else {
                    assert(small_of(bs)[k] == last);
                    assert(bs[last as int]);
                }
            }
            assert(small_of(bs).no_duplicates()) by {
                assert forall|a: int, c: int| 0 <= a < small_of(bs).len() && 0 <= c < small_of(bs).len() && a != c
                    implies small_of(bs)[a] != small_of(bs)[c] by {
                    if a < sd.len() && c < sd.len() {
                        assert(small_of(bs)[a] == sd[a] && small_of(bs)[c] == sd[c]);
                    } else if a < sd.len() {
                        assert(small_of(bs)[a] == sd[a]);
                    } else if c < sd.len() {
                        assert(small_of(bs)[c] == sd[c]);
                    }
                }
            }
        } else {
            assert(large_of(bs) == ld.push(last));
            assert(small_of(bs) == sd);
            lemma_excess_push(ld, w, one, m, last);
            assert forall|z: usize| z < bs.len() implies #[trigger] small_of(bs).contains(z) || large_of(
                bs,
            ).contains(z) by {
                if z < d.len() {
                    if ld.contains(z) {
                        let k = choose|k: int| 0 <= k < ld.len() && ld[k] == z;
                        assert(large_of(bs)[k] == z);
                    }
                } else {
                    assert(large_of(bs)[ld.len() as int] == z);
                }
            }
            assert forall|k: int| 0 <= k < large_of(bs).len() implies #[trigger] large_of(bs)[k] < bs.len()
                && !bs[large_of(bs)[k] as int] by {
                if k < ld.len() {
                    assert(large_of(bs)[k] == ld[k]);
                    assert(ld[k] < d.len() && !d[ld[k] as int]);
                    assert(bs[ld[k] as int] == d[ld[k] as int]);
                } else {
                    assert(large_of(bs)[k] == last);
                    assert(!bs[last as int]);
                }
            }
            assert(large_of(bs).no_duplicates()) by {
                assert forall|a: int, c: int| 0 <= a < large_of(bs).len() && 0 <= c < large_of(bs).len() && a != c
                    implies large_of(bs)[a] != large_of(bs)[c] by {
                    if a < ld.len() && c < ld.len() {
                        assert(large_of(bs)[a] == ld[a] && large_of(bs)[c] == ld[c]);
                    } else if a < ld.len() {
                        assert(large_of(bs)[a] == ld[a]);
                    } else if c < ld.len() {
                        assert(large_of(bs)[c] == ld[c]);
                    }
                }
            }
        }
    }
}

/// Buckets that all keep probability `one` hand nothing on.
proof fn lemma_credit_zero<T>(probs: Seq<T>, aliases: Seq<usize>, one: T, m: spec_fn(T) -> int, z: int, k: nat)
    requires
        k <= probs.len(),
        forall|i: int| 0 <= i < k ==> #[trigger] probs[i] == one,
    ensures
        alias_credit(probs, aliases, one, m, z, k) == 0,
    decreases k,
{
    if k > 0 {
        lemma_credit_zero(probs, aliases, one, m, z, (k - 1) as nat);
        assert(probs[k - 1] == one);
    }
}

/// Changing bucket `s`'s probability and alias changes only its own contribution.
proof fn lemma_credit_update<T>(
    probs: Seq<T>,
    aliases: Seq<usize>,
    one: T,
    m: spec_fn(T) -> int,
    z: int,
    k: nat,
    s: int,
    x: T,
    y: usize,
)
    requires
        0 <= s < k <= probs.len(),
        k <= aliases.len(),
    ensures
        alias_credit(probs.update(s, x), aliases.update(s, y), one, m, z, k) == alias_credit(probs, aliases, one, m, z, k)
            - (if aliases[s] as int == z { m(one) - m(probs[s]) } else { 0 }) + (if y as int == z {
            m(one) - m(x)
        } else {
            0
        }),
    decreases k,
{
    let p2 = probs.update(s, x);
    let a2 = aliases.update(s, y);
    if s < k - 1 {
        lemma_credit_update(probs, aliases, one, m, z, (k - 1) as nat, s, x, y);
        assert(p2[k - 1] == probs[k - 1] && a2[k - 1] == aliases[k - 1]);
    } else {
        assert forall|i: int| 0 <= i < k - 1 implies #[trigger] p2[i] == probs[i] && a2[i] == aliases[i] by {}
        lemma_credit_frame(probs, aliases, p2, a2, one, m, z, (k - 1) as nat);
    }
}

/// The credit over buckets `0 .. k` depends only on those buckets.
proof fn lemma_credit_frame<T>(
    p1: Seq<T>,
    a1: Seq<usize>,
    p2: Seq<T>,
    a2: Seq<usize>,
    one: T,
    m: spec_fn(T) -> int,
    z: int,
    k: nat,
)
    requires
        forall|i: int| 0 <= i < k ==> #[trigger] p2[i] == p1[i] && a2[i] == a1[i],
    ensures
        alias_credit(p2, a2, one, m, z, k) == alias_credit(p1, a1, one, m, z, k),
    decreases k,
{
    if k > 0 {
        assert(p2[k - 1] == p1[k - 1] && a2[k - 1] == a1[k - 1]);
        lemma_credit_frame(p1, a1, p2, a2, one, m, z, (k - 1) as nat);
    }
}

/// The start state of the construction satisfies the mass invariant.
proof fn lemma_mass_start<T, B: Fn(T) -> bool>(
    scaled: Seq<T>,
    one: T,
    below_one: B,
    m: spec_fn(T) -> int,
    st: (Seq<T>, Seq<T>, Seq<usize>, Seq<usize>, Seq<usize>),
)
    requires
        scaled.len() <= usize::MAX,
        vose_start(scaled, one, below_one, st),
        forall|x: T, b: bool| #[trigger] call_ensures(below_one, (x,), b) ==> b == (m(x) < m(one)),
        weight_sum(scaled, m) == scaled.len() * m(one),
    ensures
        mass_inv(scaled, one, m, st),
{
    let n = scaled.len();
    let bs = choose|bs: Seq<bool>| #[trigger] classified(scaled, below_one, bs) && st == (
        scaled,
        Seq::new(scaled.len(), |i: int| one),
        Seq::new(scaled.len(), |i: int| 0usize),
        small_of(bs),
        large_of(bs),
    );
    lemma_start_lists(bs, scaled, one, m);
    assert(scaled.take(n as int) =~= scaled);
    assert forall|k: int| 0 <= k < st.3.len() implies #[trigger] st.3[k] < n && m(st.0[st.3[k] as int]) < m(one) by {
        let z = st.3[k] as int;
        assert(call_ensures(below_one, (scaled[z],), bs[z]));
    }
    assert forall|k: int| 0 <= k < st.4.len() implies #[trigger] st.4[k] < n && m(st.0[st.4[k] as int]) >= m(one) by {
        let z = st.4[k] as int;
        assert(call_ensures(below_one, (scaled[z],), bs[z]));
    }
    assert forall|i: int, k: int| 0 <= i < st.3.len() && 0 <= k < st.4.len() implies st.3[i] != st.4[k] by {
        assert(bs[st.3[i] as int]);
        assert(!bs[st.4[k] as int]);
    }
    assert forall|z: int| 0 <= z < n implies if #[trigger] queued(st, z) {
        st.1[z] == one
    } else {
        st.1[z] == st.0[z]
    } by {
        assert(small_of(bs).contains(z as usize) || large_of(bs).contains(z as usize));
    }
    assert forall|z: int| 0 <= z < n implies m(st.0[z]) + #[trigger] alias_credit(st.1, st.2, one, m, z, n) == m(
        scaled[z],
    ) by {
        lemma_credit_zero(st.1, st.2, one, m, z, n);
    }
}

/// One pairing step keeps the mass invariant, when `below_one` compares with one under `m` and
/// `transfer` moves exactly the filled bucket's deficit.
proof fn lemma_mass_step<T, B: Fn(T) -> bool, X: Fn(T, T) -> T>(
    scaled: Seq<T>,
    one: T,
    below_one: B,
    transfer: X,
    m: spec_fn(T) -> int,
    a: (Seq<T>, Seq<T>, Seq<usize>, Seq<usize>, Seq<usize>),
    b: (Seq<T>, Seq<T>, Seq<usize>, Seq<usize>, Seq<usize>),
)
    requires
        scaled.len() <= usize::MAX,
        mass_inv(scaled, one, m, a),
        vose_step(below_one, transfer, a, b),
        forall|x: T, c: bool| #[trigger] call_ensures(below_one, (x,), c) ==> c == (m(x) < m(one)),
        forall|x: T, y: T, v: T| #[trigger] call_ensures(transfer, (x, y), v) ==> m(v) == m(x) + m(y) - m(one),
    ensures
        mass_inv(scaled, one, m, b),
{
    let n = scaled.len();
    let s = a.3.last() as int;
    let l = a.4.last() as int;
    let v = b.0[l];
    let sd = a.3.drop_last();
    let ld = a.4.drop_last();
    assert(a.3[a.3.len() - 1] == s as usize);
    assert(a.4[a.4.len() - 1] == l as usize);
    assert(s != l);
    assert(0 <= s < n && 0 <= l < n);
    assert(m(v) == m(a.0[l]) + m(a.0[s]) - m(one));
    let below = m(v) < m(one);
    assert(call_ensures(below_one, (v,), true) ==> below);
    assert(call_ensures(below_one, (v,), false) ==> !below);
    // The popped lists.
    assert forall|k: int| 0 <= k < sd.len() implies #[trigger] sd[k] != s as usize && sd[k] != l as usize && sd[k]
        == a.3[k] by {
        assert(a.3[k] != a.4[a.4.len() - 1]);
    }
    assert forall|k: int| 0 <= k < ld.len() implies #[trigger] ld[k] != s as usize && ld[k] != l as usize && ld[k]
        == a.4[k] by {
        assert(a.3[a.3.len() - 1] != a.4[k]);
    }
    assert(!sd.contains(l as usize) && !ld.contains(l as usize) && !sd.contains(s as usize) && !ld.contains(
        s as usize,
    )) by {
        if sd.contains(l as usize) {
            let k = choose|k: int| 0 <= k < sd.len() && sd[k] == l as usize;
            assert(sd[k] != l as usize);
        }
        if ld.contains(l as usize) {
            let k = choose|k: int| 0 <= k < ld.len() && ld[k] == l as usize;
            assert(ld[k] != l as usize);
        }
        if sd.contains(s as usize) {
            let k = choose|k: int| 0 <= k < sd.len() && sd[k] == s as usize;
            assert(sd[k] != s as usize);
        }
        if ld.contains(s as usize) {
            let k = choose|k: int| 0 <= k < ld.len() && ld[k] == s as usize;
            assert(ld[k] != s as usize);
        }
    }
    assert(b.3 == sd.push(l as usize) && b.4 == ld || b.3 == sd && b.4 == ld.push(l as usize));
    assert(below ==> b.3 == sd.push(l as usize) && b.4 == ld);
    assert(!below ==> b.3 == sd && b.4 == ld.push(l as usize));
    // Which buckets are queued after the step.
    assert forall|z: int| 0 <= z < n implies #[trigger] queued(b, z) == (queued(a, z) && z != s) by {
        let zu = z as usize;
        if queued(b, z) {
            if b.3.contains(zu) {
                let k = choose|k: int| 0 <= k < b.3.len() && b.3[k] == zu;
                if k < sd.len() {
                    assert(a.3[k] == zu);
                } else {
                    assert(a.4[a.4.len() - 1] == zu);
                }
            } else {
                let k = choose|k: int| 0 <= k < b.4.len() && b.4[k] == zu;
                if k < ld.len() {
                    assert(a.4[k] == zu);
                } else {
                    assert(a.4[a.4.len() - 1] == zu);
                }
            }
        }
        if queued(a, z) && z != s {
            if z == l {
                if below {
                    assert(b.3[sd.len() as int] == zu);
                } else {
                    assert(b.4[ld.len() as int] == zu);
                }
            } else if a.3.contains(zu) {
                let k = choose|k: int| 0 <= k < a.3.len() && a.3[k] == zu;
                assert(k < sd.len());
                assert(b.3[k] == zu);
            } else {
                let k = choose|k: int| 0 <= k < a.4.len() && a.4[k] == zu;
                assert(k < ld.len());
                assert(b.4[k] == zu);
            }
        }
    }
    assert(queued(a, s)) by {
        assert(a.3[a.3.len() - 1] == s as usize);
    }
    assert(queued(a, l)) by {
        assert(a.4[a.4.len() - 1] == l as usize);
    }
    // Lists: no duplicates, disjoint, bounds and weights.
    assert forall|k: int| 0 <= k < b.3.len() implies #[trigger] b.3[k] < n && m(b.0[b.3[k] as int]) < m(one) by {
        if k < sd.len() {
            assert(b.3[k] == a.3[k]);
            assert(a.3[k] < n && m(a.0[a.3[k] as int]) < m(one));
        } else {
            assert(b.3[k] == l as usize);
        }
    }
    assert forall|k: int| 0 <= k < b.4.len() implies #[trigger] b.4[k] < n && m(b.0[b.4[k] as int]) >= m(one) by {
        if k < ld.len() {
            assert(b.4[k] == a.4[k]);
            assert(a.4[k] < n && m(a.0[a.4[k] as int]) >= m(one));
        } else {
            assert(b.4[k] == l as usize);
        }
    }
    assert(b.3.no_duplicates()) by {
        assert forall|i: int, k: int| 0 <= i < b.3.len() && 0 <= k < b.3.len() && i != k implies b.3[i] != b.3[k] by {
            if i < sd.len() && k < sd.len() {
                assert(a.3[i] != a.3[k]);
            } else if i < sd.len() {
                assert(sd[i] != l as usize);
            } else if k < sd.len() {
                assert(sd[k] != l as usize);
            }
        }
    }
    assert(b.4.no_duplicates()) by {
        assert forall|i: int, k: int| 0 <= i < b.4.len() && 0 <= k < b.4.len() && i != k implies b.4[i] != b.4[k] by {
            if i < ld.len() && k < ld.len() {
                assert(a.4[i] != a.4[k]);
            } else if i < ld.len() {
                assert(ld[i] != l as usize);
            } else if k < ld.len() {
                assert(ld[k] != l as usize);
            }
        }
    }
    assert forall|i: int, k: int| 0 <= i < b.3.len() && 0 <= k < b.4.len() implies b.3[i] != b.4[k] by {
        if i < sd.len() && k < ld.len() {
            assert(a.3[i] != a.4[k]);
        } else if i < sd.len() {
            assert(sd[i] != l as usize);
        } else {
            assert(ld[k] != l as usize);
        }
    }
    // Probabilities of queued and finished buckets.
    assert forall|z: int| 0 <= z < n implies if #[trigger] queued(b, z) {
        b.1[z] == one
    } else {
        b.1[z] == b.0[z]
    } by {
        assert(queued(a, z) == if queued(a, z) { true } else { false });
        if z == s {
            assert(b.1[z] == a.0[s] && b.0[z] == a.0[z]);
            assert(a.3[a.3.len() - 1] < n && m(a.0[a.3[a.3.len() - 1] as int]) < m(one));
        } else if queued(a, z) {
            assert(b.1[z] == a.1[z]);
        } else {
            assert(z != l);
            assert(b.1[z] == a.1[z] && b.0[z] == a.0[z]);
        }
    }
    // The mass of every bucket.
    assert(a.1[s] == one);
    assert forall|z: int| 0 <= z < n implies m(b.0[z]) + #[trigger] alias_credit(b.1, b.2, one, m, z, n) == m(
        scaled[z],
    ) by {
        lemma_credit_update(a.1, a.2, one, m, z, n, s, a.0[s], l as usize);
        assert(alias_credit(a.1, a.2, one, m, z, n) + m(a.0[z]) == m(scaled[z]));
    }
    // Weights stay non-negative.
    if forall|z: int| 0 <= z < n ==> m(#[trigger] scaled[z]) >= 0 {
        assert forall|z: int| 0 <= z < n implies m(#[trigger] b.0[z]) >= 0 by {
            assert(m(a.0[z]) >= 0);
            assert(m(a.0[s]) >= 0);
            assert(a.4[a.4.len() - 1] < n && m(a.0[a.4[a.4.len() - 1] as int]) >= m(one));
        }
    }
    // The queued excess.
    assert forall|k: int| 0 <= k < sd.len() implies #[trigger] sd[k] < a.0.len() by {}
    assert forall|k: int| 0 <= k < ld.len() implies #[trigger] ld[k] < a.0.len() by {}
    lemma_excess_frame(sd, a.0, one, m, l, v);
    lemma_excess_frame(ld, a.0, one, m, l, v);
    assert(b.0 == a.0.update(l, v));
    assert(queued_excess(a.3, a.0, one, m) == queued_excess(sd, a.0, one, m) + (m(a.0[s]) - m(one)));
    assert(queued_excess(a.4, a.0, one, m) == queued_excess(ld, a.0, one, m) + (m(a.0[l]) - m(one)));
    if below {
        lemma_excess_push(sd, b.0, one, m, l as usize);
    } else {
        lemma_excess_push(ld, b.0, one, m, l as usize);
    }
}

/// Every state of a run of the construction satisfies the mass invariant.
proof fn lemma_mass_run<T, B: Fn(T) -> bool, X: Fn(T, T) -> T>(
    scaled: Seq<T>,
    one: T,
    below_one: B,
    transfer: X,
    m: spec_fn(T) -> int,
    sts: Seq<(Seq<T>, Seq<T>, Seq<usize>, Seq<usize>, Seq<usize>)>,
    k: int,
)
    requires
        scaled.len() <= usize::MAX,
        vose_run(scaled, one, below_one, transfer, sts),
        0 <= k < sts.len(),
        forall|x: T, c: bool| #[trigger] call_ensures(below_one, (x,), c) ==> c == (m(x) < m(one)),
        forall|x: T, y: T, v: T| #[trigger] call_ensures(transfer, (x, y), v) ==> m(v) == m(x) + m(y) - m(one),
        weight_sum(scaled, m) == scaled.len() * m(one),
    ensures
        mass_inv(scaled, one, m, sts[k]),
    decreases k,
{
    if k == 0 {
        lemma_mass_start(scaled, one, below_one, m, sts[0]);
    } else {
        lemma_mass_run(scaled, one, below_one, transfer, m, sts, k - 1);
        assert(vose_step_at(below_one, transfer, sts, k - 1));
        lemma_mass_step(scaled, one, below_one, transfer, m, sts[k - 1], sts[k]);
    }
}

/// The alias table conserves each outcome's mass. Measure the weights with any `m` under
/// which `below_one` compares with `one` and `transfer(l, s)` is `l + s - one` exactly (as
/// real numbers, or fixed-point integers); when the scaled weights average one, then for every
/// outcome `z`, what its own bucket keeps plus what the buckets aliasing `z` hand on is
/// `z`'s scaled weight. Drawing a bucket uniformly and accepting it with its probability
/// therefore yields `z` with probability `scaled[z] / (n · one)`, its share of the weights.
/// When no weight is negative, every acceptance probability lies between zero and `one`.
pub proof fn lemma_alias_mass_conserved<T, B: Fn(T) -> bool, X: Fn(T, T) -> T>(
    probs: Seq<T>,
    aliases: Seq<usize>,
    scaled: Seq<T>,
    one: T,
    below_one: B,
    transfer: X,
    m: spec_fn(T) -> int,
)
    requires
        scaled.len() <= usize::MAX,
        vose_table(probs, aliases, scaled, one, below_one, transfer),
        forall|x: T, c: bool| #[trigger] call_ensures(below_one, (x,), c) ==> c == (m(x) < m(one)),
        forall|x: T, y: T, v: T| #[trigger] call_ensures(transfer, (x, y), v) ==> m(v) == m(x) + m(y) - m(one),
        weight_sum(scaled, m) == scaled.len() * m(one),
    ensures
        forall|z: int| 0 <= z < scaled.len() ==> m(probs[z]) + #[trigger] alias_credit(
            probs,
            aliases,
            one,
            m,
            z,
            scaled.len(),
        ) == m(scaled[z]),
        (forall|z: int| 0 <= z < scaled.len() ==> m(#[trigger] scaled[z]) >= 0) ==> forall|z: int|
            0 <= z < scaled.len() ==> 0 <= m(#[trigger] probs[z]) <= m(one),
{
    let n = scaled.len();
    let sts = choose|sts: Seq<(Seq<T>, Seq<T>, Seq<usize>, Seq<usize>, Seq<usize>)>| #[trigger] vose_run(
        scaled,
        one,
        below_one,
        transfer,
        sts,
    ) && aliases == sts.last().2 && probs == settled(settled(sts.last().1, sts.last().4, one), sts.last().3, one);
    let st = sts.last();
    lemma_mass_run(scaled, one, below_one, transfer, m, sts, sts.len() - 1);
    assert(mass_inv(scaled, one, m, st));
    // Queued buckets all hold exactly one.
    if st.3.len() == 0 {
        assert forall|k: int| 0 <= k < st.4.len() implies m(st.0[#[trigger] st.4[k] as int]) >= m(one) by {}
        lemma_excess_nonneg(st.4, st.0, one, m);
    } else {
        assert forall|k: int| 0 <= k < st.3.len() implies m(st.0[#[trigger] st.3[k] as int]) < m(one) by {}
        lemma_excess_negative(st.3, st.0, one, m);
        assert forall|k: int| 0 <= k < st.4.len() implies m(st.0[#[trigger] st.4[k] as int]) >= m(one) by {}
        lemma_excess_nonneg(st.4, st.0, one, m);
        assert(false);
    }
    assert(st.3.len() == 0);
    assert forall|z: int| 0 <= z < n && queued(st, z) implies m(st.0[z]) == m(one) by {
        let k = choose|k: int| 0 <= k < st.4.len() && st.4[k] == z as usize;
        assert(m(st.0[st.4[k] as int]) == m(one));
    }
    // The table's probabilities are those of the last state.
    assert(probs =~= st.1) by {
        assert forall|i: int| 0 <= i < n implies probs[i] == st.1[i] by {
            if queued(st, i) {
                assert(st.1[i] == one);
            }
        }
    }
    assert forall|z: int| 0 <= z < n implies m(probs[z]) + #[trigger] alias_credit(probs, aliases, one, m, z, n) == m(
        scaled[z],
    ) by {
        assert(m(st.0[z]) + alias_credit(st.1, st.2, one, m, z, n) == m(scaled[z]));
        if queued(st, z) {
            assert(st.1[z] == one);
        } else {
            assert(st.1[z] == st.0[z]);
        }
    }
    if forall|z: int| 0 <= z < n ==> m(#[trigger] scaled[z]) >= 0 {
        assert forall|z: int| 0 <= z < n implies 0 <= m(#[trigger] probs[z]) <= m(one) by {
            assert(m(st.0[z]) >= 0);
            if queued(st, z) {
                assert(st.1[z] == one);
                assert(m(st.0[z]) == m(one));
            } else {
                assert(st.1[z] == st.0[z]);
            }
        }
    }
}

} // verus!
