//! Bit-index arithmetic for addressing amplitudes.
use vstd::prelude::*;

verus! {

/// Bit `p` of `x` (for `p < usize::BITS`).
pub open spec fn bit(x: usize, p: usize) -> bool {
    (x >> p) & 1usize == 1usize
}

/// Mask with the low `b` bits set.
pub open spec fn low_mask(b: usize) -> usize {
    ((1usize << b) - 1usize) as usize
}

/// `i` with a zero bit opened at position `b`: bits below `b` stay, bits at and above `b`
/// move up by one.
pub open spec fn insert_zero_bit_spec(i: usize, b: u32) -> usize {
    ((((i >> b) << b) << 1usize) | (i & low_mask(b as usize))) as usize
}

pub proof fn lemma_insert_zero_bit_bits(i: usize, b: u32, p: usize)
    requires
        b < usize::BITS,
        p < usize::BITS,
    ensures
        bit(insert_zero_bit_spec(i, b), p) == (if p < b { bit(i, p) } else if p == b { false } else {
            bit(i, (p - 1) as usize)
        }),
{
    let bb = b as usize;
    assert(bit(insert_zero_bit_spec(i, b), p) == (if p < bb { bit(i, p) } else if p == bb { false } else {
            bit(i, (p - 1) as usize)
        })) by (bit_vector)
        requires bb < usize::BITS, p < usize::BITS, bb == b;
}

/// Insert a `0` bit at position `bit`, shifting higher bits up by one.
pub fn insert_zero_bit(index: usize, bit: u32) -> (r: usize)
    requires
        bit < usize::BITS,
    ensures
        r == insert_zero_bit_spec(index, bit),
{
    let left = (index >> bit) << bit;
    proof {
        let bb = bit as usize;
        assert(((index >> bb) << bb) <= index && (index - ((index >> bb) << bb)) as usize == (index
            & low_mask(bb))) by (bit_vector)
            requires bb < usize::BITS;
    }
    let right = index - left;
    (left << 1) | right
}


/// Two words with the same bits are equal.
pub proof fn lemma_bits_ext(x: usize, y: usize)
    requires
        forall|p: usize| p < usize::BITS ==> bit(x, p) == bit(y, p),
    ensures
        x == y,
{
    lemma_bits_ext_from(x, y, 0);
    assert(x >> 0usize == x && y >> 0usize == y) by (bit_vector);
}

proof fn lemma_bits_ext_from(x: usize, y: usize, k: usize)
    requires
        k <= usize::BITS,
        forall|p: usize| k <= p < usize::BITS ==> bit(x, p) == bit(y, p),
    ensures
        x >> k == y >> k,
    decreases usize::BITS - k,
{
    if k == usize::BITS {
        assert(x >> k == 0usize && y >> k == 0usize) by (bit_vector) requires k == usize::BITS;
    } else {
        lemma_bits_ext_from(x, y, (k + 1) as usize);
        let k1 = (k + 1) as usize;
        assert(bit(x, k) == bit(y, k));
        assert(x >> k == y >> k) by (bit_vector)
            requires k < usize::BITS, k1 == k + 1, x >> k1 == y >> k1,
                ((x >> k) & 1usize == 1usize) == ((y >> k) & 1usize == 1usize);
    }
}

/// `x < 2^k` exactly when no bit at or above `k` is set.
pub proof fn lemma_fits(x: usize, k: usize)
    requires
        k < usize::BITS,
    ensures
        x < (1usize << k) <==> (forall|p: usize| k <= p < usize::BITS ==> !bit(x, p)),
{
    if x < (1usize << k) {
        assert forall|p: usize| k <= p < usize::BITS implies !bit(x, p) by {
            assert(!bit(x, p)) by (bit_vector)
                requires x < (1usize << k), k <= p, p < usize::BITS;
        }
    }
    if forall|p: usize| k <= p < usize::BITS ==> !bit(x, p) {
        let y = x & low_mask(k);
        assert forall|p: usize| p < usize::BITS implies bit(x, p) == bit(y, p) by {
            assert(if p < k { bit(x, p) == bit(y, p) } else { !bit(y, p) }) by (bit_vector)
                requires y == x & low_mask(k), p < usize::BITS, k < usize::BITS;
        }
        lemma_bits_ext(x, y);
        assert(y < (1usize << k)) by (bit_vector)
            requires y == x & low_mask(k), k < usize::BITS;
    }
}


/// `x` with bit `b` taken out: bits below `b` stay, bits above `b` move down by one.
pub open spec fn remove_bit_spec(x: usize, b: u32) -> usize {
    (((x >> ((b + 1) as usize)) << (b as usize)) | (x & low_mask(b as usize))) as usize
}

/// Removing the bit that was just inserted gives the index back (when the top bit is free).
pub proof fn lemma_remove_insert(i: usize, b: u32)
    requires
        b + 1 < usize::BITS,
        i < (1usize << ((usize::BITS - 1) as usize)),
    ensures
        remove_bit_spec(insert_zero_bit_spec(i, b), b) == i,
{
    let bb = b as usize;
    let b1 = (b + 1) as usize;
    let top = (usize::BITS - 1) as usize;
    assert(((((((((i >> bb) << bb) << 1usize) | (i & low_mask(bb))) as usize) >> b1) << bb)
        | ((((((i >> bb) << bb) << 1usize) | (i & low_mask(bb))) as usize) & low_mask(bb))) == i)
        by (bit_vector)
        requires b1 == bb + 1, b1 < usize::BITS, top == usize::BITS - 1, i < (1usize << top);
}

/// Inserting a zero bit where `x` already has a zero bit undoes the removal.
pub proof fn lemma_insert_remove(x: usize, b: u32)
    requires
        b + 1 < usize::BITS,
        !bit(x, b as usize),
    ensures
        insert_zero_bit_spec(remove_bit_spec(x, b), b) == x,
{
    let bb = b as usize;
    let b1 = (b + 1) as usize;
    let r = remove_bit_spec(x, b);
    assert(r == (((x >> b1) << bb) | (x & low_mask(bb))));
    assert((((((r >> bb) << bb) << 1usize) | (r & low_mask(bb))) as usize) == x) by (bit_vector)
        requires r == (((x >> b1) << bb) | (x & low_mask(bb))), b1 == bb + 1, b1 < usize::BITS,
            (x >> bb) & 1usize != 1usize;
}

/// Opening a bit grows the bound by one power of two.
pub proof fn lemma_insert_bound(i: usize, b: u32, k: usize)
    requires
        b < usize::BITS,
        k + 1 < usize::BITS,
        i < (1usize << k),
    ensures
        insert_zero_bit_spec(i, b) < (1usize << ((k + 1) as usize)),
{
    let bb = b as usize;
    let k1 = (k + 1) as usize;
    assert((((((i >> bb) << bb) << 1usize) | (i & low_mask(bb))) as usize) < (1usize << k1))
        by (bit_vector)
        requires bb < usize::BITS, k1 == k + 1, k1 < usize::BITS, i < (1usize << k);
}

/// Taking out a bit below `k` shrinks the bound by one power of two.
pub proof fn lemma_remove_bound(x: usize, b: u32, k: usize)
    requires
        b < k,
        k < usize::BITS,
        x < (1usize << k),
    ensures
        remove_bit_spec(x, b) < (1usize << ((k - 1) as usize)),
{
    let bb = b as usize;
    let b1 = (b + 1) as usize;
    let k0 = (k - 1) as usize;
    assert((((x >> b1) << bb) | (x & low_mask(bb))) < (1usize << k0)) by (bit_vector)
        requires bb < k, b1 == bb + 1, k < usize::BITS, k0 + 1 == k, x < (1usize << k);
}

/// Bits of `remove_bit_spec`: the ones below `b` are unchanged.
pub proof fn lemma_remove_bit_low(x: usize, b: u32, p: usize)
    requires
        b + 1 < usize::BITS,
        p < b,
    ensures
        bit(remove_bit_spec(x, b), p) == bit(x, p),
{
    let bb = b as usize;
    let b1 = (b + 1) as usize;
    assert(bit((((x >> b1) << bb) | (x & low_mask(bb))) as usize, p) == bit(x, p)) by (bit_vector)
        requires b1 == bb + 1, b1 < usize::BITS, p < bb;
}

/// Toggle `bit` of `index` (the partner index on one qubit).
pub fn flip_bit(index: usize, bit: u32) -> (r: usize)
    requires
        bit < usize::BITS,
    ensures
        r == index ^ (1usize << bit),
        forall|p: usize| #![trigger self::bit(r, p)] p < usize::BITS ==>
            self::bit(r, p) == (if p == bit { !self::bit(index, p) } else { self::bit(index, p) }),
{
    let r = index ^ (1usize << bit);
    assert forall|p: usize| #![trigger self::bit(r, p)] p < usize::BITS implies
        self::bit(r, p) == (if p == bit { !self::bit(index, p) } else { self::bit(index, p) }) by {
        let bb = bit as usize;
        assert(self::bit(r, p) == (if p == bb { !self::bit(index, p) } else { self::bit(index, p) }))
            by (bit_vector)
            requires r == index ^ (1usize << bb), bb < usize::BITS, p < usize::BITS;
    }
    r
}

/// Flipping the same bit twice gives the index back.
pub proof fn lemma_flip_bit_involution(index: usize, b: u32)
    requires
        b < usize::BITS,
    ensures
        (index ^ (1usize << b)) ^ (1usize << b) == index,
{
    let bb = b as usize;
    assert((index ^ (1usize << bb)) ^ (1usize << bb) == index) by (bit_vector)
        requires bb < usize::BITS;
}

/// The value (0 or 1) of `bit` in `index`.
pub fn extract_bit(index: usize, bit: u32) -> (r: usize)
    requires
        bit < usize::BITS,
    ensures
        r == (if self::bit(index, bit as usize) { 1usize } else { 0usize }),
{
    let bb = bit as usize;
    assert((index >> bb) & 1usize == 0usize || (index >> bb) & 1usize == 1usize) by (bit_vector);
    (index >> bit) & 1
}


/// Every position of `s` is a valid bit position strictly below `n`.
pub open spec fn all_below(s: Seq<u32>, n: nat) -> bool {
    forall|k: int| 0 <= k < s.len() ==> (s[k] as nat) < n
}

/// Positions of `s` strictly increase.
pub open spec fn strictly_ascending(s: Seq<u32>) -> bool {
    forall|i: int, j: int| 0 <= i < j < s.len() ==> s[i] < s[j]
}

/// No position of `s` occurs twice.
pub open spec fn distinct(s: Seq<u32>) -> bool {
    forall|i: int, j: int| 0 <= i < s.len() && 0 <= j < s.len() && i != j ==> s[i] != s[j]
}

/// `p` is one of the positions in `s`.
pub open spec fn has_pos(s: Seq<u32>, p: usize) -> bool {
    exists|k: int| 0 <= k < s.len() && s[k] as usize == p
}

/// Zero bits opened at each position of `s` in turn, smallest first.
pub open spec fn insert_zero_bits_spec(i: usize, s: Seq<u32>) -> usize
    decreases s.len(),
{
    if s.len() == 0 {
        i
    } else {
        insert_zero_bit_spec(insert_zero_bits_spec(i, s.drop_last()), s.last())
    }
}

/// The inverse of [`insert_zero_bits_spec`]: the bits at the positions of `s` taken out,
/// largest first.
pub open spec fn remove_bits_spec(x: usize, s: Seq<u32>) -> usize
    decreases s.len(),
{
    if s.len() == 0 {
        x
    } else {
        remove_bits_spec(remove_bit_spec(x, s.last()), s.drop_last())
    }
}

/// Bit `j` of the result is bit `qs[j]` of `x`.
pub open spec fn gather_spec(x: usize, qs: Seq<u32>) -> usize
    decreases qs.len(),
{
    if qs.len() == 0 {
        0usize
    } else {
        gather_spec(x, qs.drop_last()) | (((x >> (qs.last() as usize)) & 1usize) << ((qs.len()
            - 1) as usize))
    }
}

/// Bit `qs[j]` of the result is bit `j` of `sub`; all other bits are zero.
pub open spec fn scatter_spec(sub: usize, qs: Seq<u32>) -> usize
    decreases qs.len(),
{
    if qs.len() == 0 {
        0usize
    } else {
        scatter_spec(sub, qs.drop_last()) | (((sub >> ((qs.len() - 1) as usize)) & 1usize) << (
        qs.last() as usize))
    }
}

/// The word with exactly the bits at the positions of `qs` set.
pub open spec fn mask_spec(qs: Seq<u32>) -> usize
    decreases qs.len(),
{
    if qs.len() == 0 {
        0usize
    } else {
        mask_spec(qs.drop_last()) | (1usize << (qs.last() as usize))
    }
}

/// Bit algebra: how `|`, `&`, `!`, shifts, single bits and zero act on bit `p`.
pub proof fn lemma_bit_facts(a: usize, b: usize, q: usize, p: usize)
    by (bit_vector)
    requires
        q < usize::BITS,
        p < usize::BITS,
    ensures
        bit(a | b, p) == (bit(a, p) || bit(b, p)),
        bit(a & b, p) == (bit(a, p) && bit(b, p)),
        bit(!a, p) == !bit(a, p),
        bit((a & 1usize) << q, p) == (p == q && bit(a, 0usize)),
        bit(a >> q, 0usize) == bit(a, q),
        bit(1usize << q, p) == (p == q),
        !bit(0usize, p),
        a | 0usize == a,
{
}

pub proof fn lemma_bit_or(a: usize, b: usize, p: usize)
    requires
        p < usize::BITS,
    ensures
        bit(a | b, p) == (bit(a, p) || bit(b, p)),
{
    lemma_bit_facts(a, b, 0, p);
}

pub proof fn lemma_bit_and(a: usize, b: usize, p: usize)
    requires
        p < usize::BITS,
    ensures
        bit(a & b, p) == (bit(a, p) && bit(b, p)),
{
    lemma_bit_facts(a, b, 0, p);
}

pub proof fn lemma_bit_not(a: usize, p: usize)
    requires
        p < usize::BITS,
    ensures
        bit(!a, p) == !bit(a, p),
{
    lemma_bit_facts(a, 0, 0, p);
}

pub proof fn lemma_bit_single(v: usize, q: usize, p: usize)
    requires
        q < usize::BITS,
        p < usize::BITS,
    ensures
        bit((v & 1usize) << q, p) == (p == q && bit(v, 0)),
{
    lemma_bit_facts(v, 0, q, p);
}

pub proof fn lemma_bit_shr(x: usize, q: usize)
    requires
        q < usize::BITS,
    ensures
        bit(x >> q, 0) == bit(x, q),
{
    lemma_bit_facts(x, 0, q, 0);
}

/// Bits of a gathered word: bit `j` is bit `qs[j]` of `x`, and there are no others.
pub proof fn lemma_gather_bits(x: usize, qs: Seq<u32>, j: usize)
    requires
        all_below(qs, usize::BITS as nat),
        qs.len() <= usize::BITS,
        j < usize::BITS,
    ensures
        bit(gather_spec(x, qs), j) == (j < qs.len() && bit(x, qs[j as int] as usize)),
    decreases qs.len(),
{
    if qs.len() > 0 {
        let n1 = (qs.len() - 1) as usize;
        let q = qs.last() as usize;
        lemma_gather_bits(x, qs.drop_last(), j);
        lemma_bit_or(gather_spec(x, qs.drop_last()), ((x >> q) & 1usize) << n1, j);
        lemma_bit_single(x >> q, n1, j);
        lemma_bit_shr(x, q);
        if j < n1 {
            assert(qs.drop_last()[j as int] == qs[j as int]);
        }
    } else {
        lemma_bit_zero(j);
    }
}

/// Bits of a scattered word: bit `p` is set exactly when `p == qs[j]` for a set bit `j` of `sub`.
pub proof fn lemma_scatter_bits(sub: usize, qs: Seq<u32>, p: usize)
    requires
        all_below(qs, usize::BITS as nat),
        qs.len() <= usize::BITS,
        p < usize::BITS,
    ensures
        bit(scatter_spec(sub, qs), p) == (exists|j: int|
            0 <= j < qs.len() && qs[j] as usize == p && #[trigger] bit(sub, j as usize)),
    decreases qs.len(),
{
    if qs.len() > 0 {
        let n1 = (qs.len() - 1) as usize;
        let q = qs.last() as usize;
        let qs1 = qs.drop_last();
        lemma_scatter_bits(sub, qs1, p);
        lemma_bit_or(scatter_spec(sub, qs1), ((sub >> n1) & 1usize) << q, p);
        lemma_bit_single(sub >> n1, q, p);
        lemma_bit_shr(sub, n1);
        if bit(scatter_spec(sub, qs), p) {
            if bit(scatter_spec(sub, qs1), p) {
                let j = choose|j: int| 0 <= j < qs1.len() && qs1[j] as usize == p && #[trigger] bit(sub, j as usize);
                assert(qs[j] == qs1[j]);
            } else {
                assert(qs[n1 as int] as usize == p && bit(sub, n1));
            }
        }
        if exists|j: int| 0 <= j < qs.len() && qs[j] as usize == p && #[trigger] bit(sub, j as usize) {
            let j = choose|j: int| 0 <= j < qs.len() && qs[j] as usize == p && #[trigger] bit(sub, j as usize);
            if j < n1 {
                assert(qs1[j] == qs[j]);
            }
        }
    } else {
        lemma_bit_zero(p);
    }
}

/// Bits of a mask: bit `p` is set exactly when `p` is one of the positions.
pub proof fn lemma_mask_bits(qs: Seq<u32>, p: usize)
    requires
        all_below(qs, usize::BITS as nat),
        p < usize::BITS,
    ensures
        bit(mask_spec(qs), p) == has_pos(qs, p),
    decreases qs.len(),
{
    if qs.len() > 0 {
        let q = qs.last() as usize;
        let qs1 = qs.drop_last();
        lemma_mask_bits(qs1, p);
        lemma_bit_or(mask_spec(qs1), 1usize << q, p);
        lemma_bit_facts(0, 0, q, p);
        if has_pos(qs1, p) {
            let k = choose|k: int| 0 <= k < qs1.len() && qs1[k] as usize == p;
            assert(qs[k] == qs1[k]);
        }
        if has_pos(qs, p) {
            let k = choose|k: int| 0 <= k < qs.len() && qs[k] as usize == p;
            if k < qs1.len() {
                assert(qs1[k] == qs[k]);
            }
        }
    } else {
        lemma_bit_zero(p);
    }
}

pub proof fn lemma_bit_zero(p: usize)
    requires
        p < usize::BITS,
    ensures
        !bit(0usize, p),
{
    lemma_bit_facts(0, 0, 0, p);
}


/// Powers of two as shifts.
pub proof fn lemma_pow_facts(n: usize, m: usize)
    by (bit_vector)
    requires
        m <= n,
        n < usize::BITS,
    ensures
        0usize < (1usize << n),
        0usize < (1usize << m),
        (1usize << n) >> m == (1usize << ((n - m) as usize)),
        (1usize << m) <= (1usize << n),
        n > 0 ==> (1usize << n) >= 2usize,
        (1usize << 1usize) == 2usize,
        (1usize << 2usize) == 4usize,
{
}

pub proof fn lemma_pow_mono(k: usize, j: usize)
    requires
        k <= j,
        j < usize::BITS,
    ensures
        (1usize << k) <= (1usize << j),
{
    lemma_pow_facts(j, k);
}

/// The inserted positions read back as zero.
pub proof fn lemma_insert_zero_bits_zero_at(o: usize, s: Seq<u32>, k: int)
    requires
        strictly_ascending(s),
        all_below(s, usize::BITS as nat),
        0 <= k < s.len(),
    ensures
        !bit(insert_zero_bits_spec(o, s), s[k] as usize),
    decreases s.len(),
{
    let s1 = s.drop_last();
    let y = insert_zero_bits_spec(o, s1);
    let l = s.last();
    lemma_insert_zero_bit_bits(y, l, s[k] as usize);
    if k < s.len() - 1 {
        assert(s1[k] == s[k]);
        lemma_insert_zero_bits_zero_at(o, s1, k);
    }
}

/// Each inserted position doubles the range.
pub proof fn lemma_insert_zero_bits_bound(o: usize, s: Seq<u32>, a: usize)
    requires
        all_below(s, usize::BITS as nat),
        a + s.len() < usize::BITS,
        o < (1usize << a),
    ensures
        insert_zero_bits_spec(o, s) < (1usize << ((a + s.len()) as usize)),
    decreases s.len(),
{
    if s.len() > 0 {
        let s1 = s.drop_last();
        lemma_insert_zero_bits_bound(o, s1, a);
        lemma_insert_bound(insert_zero_bits_spec(o, s1), s.last(), (a + s1.len()) as usize);
    }
}

/// Opening a zero bit keeps the order of indices: `i < j` gives `insert(i) < insert(j)` (for
/// indices below `2^k` that keep their top bit).
pub proof fn lemma_insert_zero_bit_monotone(i: usize, j: usize, b: u32, k: usize)
    requires
        b < usize::BITS,
        k + 1 < usize::BITS,
        i < j,
        j < (1usize << k),
    ensures
        insert_zero_bit_spec(i, b) < insert_zero_bit_spec(j, b),
{
    let bb = b as usize;
    assert(((((i >> bb) << bb) << 1usize) | (i & low_mask(bb))) < ((((j >> bb) << bb) << 1usize) | (j
        & low_mask(bb)))) by (bit_vector)
        requires bb < usize::BITS, k + 1 < usize::BITS, i < j, j < (1usize << k);
}

/// Opening zero bits at the positions of `s` keeps the order of indices: the anchors of
/// consecutive blocks increase.
pub proof fn lemma_insert_zero_bits_monotone(i: usize, j: usize, s: Seq<u32>, a: usize)
    requires
        all_below(s, usize::BITS as nat),
        a + s.len() < usize::BITS,
        i < j,
        j < (1usize << a),
    ensures
        insert_zero_bits_spec(i, s) < insert_zero_bits_spec(j, s),
    decreases s.len(),
{
    if s.len() > 0 {
        let s1 = s.drop_last();
        let k = (a + s1.len()) as usize;
        lemma_insert_zero_bits_monotone(i, j, s1, a);
        lemma_insert_zero_bits_bound(j, s1, a);
        lemma_insert_zero_bit_monotone(insert_zero_bits_spec(i, s1), insert_zero_bits_spec(j, s1), s.last(), k);
    }
}

/// Removing the inserted positions recovers the anchor's index.
pub proof fn lemma_remove_insert_bits(o: usize, s: Seq<u32>, a: usize)
    requires
        all_below(s, (usize::BITS - 1) as nat),
        a + s.len() < usize::BITS,
        o < (1usize << a),
    ensures
        remove_bits_spec(insert_zero_bits_spec(o, s), s) == o,
    decreases s.len(),
{
    if s.len() > 0 {
        let s1 = s.drop_last();
        let y = insert_zero_bits_spec(o, s1);
        lemma_insert_zero_bits_bound(o, s1, a);
        lemma_pow_mono((a + s1.len()) as usize, (usize::BITS - 1) as usize);
        lemma_remove_insert(y, s.last());
        lemma_remove_insert_bits(o, s1, a);
    }
}

/// Removing bits at positions that hold zero, then inserting them again, is the identity.
pub proof fn lemma_insert_remove_bits(x: usize, s: Seq<u32>)
    requires
        strictly_ascending(s),
        all_below(s, (usize::BITS - 1) as nat),
        forall|k: int| 0 <= k < s.len() ==> !bit(x, #[trigger] s[k] as usize),
    ensures
        insert_zero_bits_spec(remove_bits_spec(x, s), s) == x,
    decreases s.len(),
{
    if s.len() > 0 {
        let s1 = s.drop_last();
        let l = s.last();
        let x1 = remove_bit_spec(x, l);
        assert forall|k: int| 0 <= k < s1.len() implies !bit(x1, #[trigger] s1[k] as usize) by {
            assert(s1[k] == s[k]);
            assert(!bit(x, s[k] as usize));
            lemma_remove_bit_low(x, l, s1[k] as usize);
        }
        lemma_insert_remove_bits(x1, s1);
        assert(!bit(x, s[s.len() - 1] as usize));
        lemma_insert_remove(x, l);
    }
}

/// Removing positions below `n` maps `[0, 2^n)` into `[0, 2^(n - |s|))`.
pub proof fn lemma_remove_bits_bound(x: usize, s: Seq<u32>, n: usize)
    requires
        strictly_ascending(s),
        all_below(s, n as nat),
        n < usize::BITS,
        x < (1usize << n),
    ensures
        s.len() <= n,
        remove_bits_spec(x, s) < (1usize << ((n - s.len()) as usize)),
    decreases s.len(),
{
    if s.len() > 0 {
        let s1 = s.drop_last();
        let l = s.last();
        lemma_remove_bound(x, l, n);
        assert forall|k: int| 0 <= k < s1.len() implies (s1[k] as nat) < ((n - 1) as usize) as nat by {
            assert(s1[k] == s[k]);
            assert(s[k] < s[s.len() - 1]);
        }
        lemma_remove_bits_bound(remove_bit_spec(x, l), s1, (n - 1) as usize);
    }
}


/// Gathering the positions a sub-index was scattered to gives the sub-index back.
pub proof fn lemma_gather_scatter(sub: usize, qs: Seq<u32>)
    requires
        distinct(qs),
        all_below(qs, usize::BITS as nat),
        qs.len() <= usize::BITS,
        qs.len() < usize::BITS ==> sub < (1usize << qs.len()),
    ensures
        gather_spec(scatter_spec(sub, qs), qs) == sub,
{
    let g = gather_spec(scatter_spec(sub, qs), qs);
    if qs.len() < usize::BITS {
        lemma_fits(sub, qs.len() as usize);
    }
    assert forall|j: usize| j < usize::BITS implies bit(g, j) == bit(sub, j) by {
        lemma_gather_bits(scatter_spec(sub, qs), qs, j);
        if j < qs.len() {
            lemma_scatter_bits(sub, qs, qs[j as int] as usize);
            if bit(sub, j) {
                assert(bit(sub, (j as int) as usize));
            }
            if bit(scatter_spec(sub, qs), qs[j as int] as usize) {
                let i = choose|i: int|
                    0 <= i < qs.len() && qs[i] as usize == qs[j as int] as usize && #[trigger] bit(sub, i as usize);
                assert(i == j as int);
            }
        }
    }
    lemma_bits_ext(g, sub);
}

/// The hypotheses under which `sorted` anchors the blocks of a gate on `qs` in an `n`-bit space:
/// `qs` are distinct positions below `n`, and `sorted` holds the same positions ascending.
pub open spec fn block_layout(qs: Seq<u32>, sorted: Seq<u32>, n: usize) -> bool {
    &&& n < usize::BITS
    &&& distinct(qs)
    &&& all_below(qs, n as nat)
    &&& strictly_ascending(sorted)
    &&& all_below(sorted, n as nat)
    &&& sorted.len() == qs.len()
    &&& forall|p: usize| #[trigger] has_pos(qs, p) == has_pos(sorted, p)
}

/// The amplitude index at row `r` of block `o`.
pub open spec fn block_index(o: usize, r: usize, qs: Seq<u32>, sorted: Seq<u32>) -> usize {
    insert_zero_bits_spec(o, sorted) | scatter_spec(r, qs)
}

/// `x` with the bits at the positions of `qs` cleared.
pub open spec fn clear_bits(x: usize, qs: Seq<u32>) -> usize {
    x & !mask_spec(qs)
}

/// The block of index `j`: its bits outside `qs`, packed.
pub open spec fn block_of(j: usize, qs: Seq<u32>, sorted: Seq<u32>) -> usize {
    remove_bits_spec(clear_bits(j, qs), sorted)
}

pub proof fn lemma_below_widen(s: Seq<u32>, n: nat, m: nat)
    requires
        all_below(s, n),
        n <= m,
    ensures
        all_below(s, m),
{
}

/// Row `r` of block `o` lies in range, has sub-index `r` on `qs`, and belongs to block `o`.
pub proof fn lemma_block_index(o: usize, r: usize, qs: Seq<u32>, sorted: Seq<u32>, n: usize)
    requires
        block_layout(qs, sorted, n),
        o < (1usize << ((n - qs.len()) as usize)),
        r < (1usize << qs.len()),
    ensures
        qs.len() <= n,
        block_index(o, r, qs, sorted) < (1usize << n),
        gather_spec(block_index(o, r, qs, sorted), qs) == r,
        clear_bits(block_index(o, r, qs, sorted), qs) == insert_zero_bits_spec(o, sorted),
        block_of(block_index(o, r, qs, sorted), qs, sorted) == o,
{
    let m = qs.len();
    lemma_sorted_len(sorted, n);
    let base = insert_zero_bits_spec(o, sorted);
    let sc = scatter_spec(r, qs);
    let idx = base | sc;
    lemma_below_widen(qs, n as nat, usize::BITS as nat);
    lemma_below_widen(sorted, n as nat, usize::BITS as nat);
    lemma_below_widen(sorted, n as nat, (usize::BITS - 1) as nat);
    lemma_insert_zero_bits_bound(o, sorted, (n - m) as usize);
    lemma_fits(base, n);
    lemma_fits(r, m as usize);
    assert forall|p: usize| p < usize::BITS implies bit(idx, p) == (if has_pos(qs, p) {
        bit(sc, p)
    } else {
        bit(base, p)
    }) by {
        lemma_bit_or(base, sc, p);
        lemma_scatter_bits(r, qs, p);
        if has_pos(qs, p) {
            assert(has_pos(sorted, p));
            let k = choose|k: int| 0 <= k < sorted.len() && sorted[k] as usize == p;
            lemma_insert_zero_bits_zero_at(o, sorted, k);
        } else {
            if bit(sc, p) {
                let j = choose|j: int| 0 <= j < qs.len() && qs[j] as usize == p && #[trigger] bit(r, j as usize);
                assert(has_pos(qs, p));
            }
        }
    }
    // range
    assert forall|p: usize| n <= p < usize::BITS implies !bit(idx, p) by {
        if has_pos(qs, p) {
            let k = choose|k: int| 0 <= k < qs.len() && qs[k] as usize == p;
        } else {
            lemma_scatter_bits(r, qs, p);
        }
    }
    lemma_fits(idx, n);
    // sub-index
    let g = gather_spec(idx, qs);
    assert forall|j: usize| j < usize::BITS implies bit(g, j) == bit(r, j) by {
        lemma_gather_bits(idx, qs, j);
        if j < m {
            let p = qs[j as int] as usize;
            assert(has_pos(qs, p));
            lemma_scatter_bits(r, qs, p);
            lemma_bit_or(base, sc, p);
            if bit(r, j) {
                assert(bit(r, (j as int) as usize));
            }
            if bit(sc, p) {
                let i = choose|i: int| 0 <= i < qs.len() && qs[i] as usize == p && #[trigger] bit(r, i as usize);
                assert(i == j as int);
            }
        }
    }
    lemma_bits_ext(g, r);
    // cleared bits
    let c = clear_bits(idx, qs);
    assert forall|p: usize| p < usize::BITS implies bit(c, p) == bit(base, p) by {
        lemma_bit_and(idx, !mask_spec(qs), p);
        lemma_bit_not(mask_spec(qs), p);
        lemma_mask_bits(qs, p);
        if has_pos(qs, p) {
            assert(has_pos(sorted, p));
            let k = choose|k: int| 0 <= k < sorted.len() && sorted[k] as usize == p;
            lemma_insert_zero_bits_zero_at(o, sorted, k);
        }
    }
    lemma_bits_ext(c, base);
    lemma_remove_insert_bits(o, sorted, (n - m) as usize);
}

/// Ascending positions below `n` number at most `n`.
pub proof fn lemma_sorted_len(s: Seq<u32>, n: usize)
    requires
        strictly_ascending(s),
        all_below(s, n as nat),
    ensures
        s.len() <= n,
    decreases s.len(),
{
    if s.len() > 0 {
        let s1 = s.drop_last();
        assert forall|k: int| 0 <= k < s1.len() implies (s1[k] as nat) < (s.last() as nat) by {
            assert(s1[k] == s[k]);
        }
        lemma_sorted_len(s1, s.last() as usize);
    }
}

/// Every index in range is row `gather(j)` of block `block_of(j)`.
pub proof fn lemma_block_cover(j: usize, qs: Seq<u32>, sorted: Seq<u32>, n: usize)
    requires
        block_layout(qs, sorted, n),
        j < (1usize << n),
    ensures
        qs.len() <= n,
        block_of(j, qs, sorted) < (1usize << ((n - qs.len()) as usize)),
        gather_spec(j, qs) < (1usize << qs.len()),
        block_index(block_of(j, qs, sorted), gather_spec(j, qs), qs, sorted) == j,
        insert_zero_bits_spec(block_of(j, qs, sorted), sorted) == clear_bits(j, qs),
{
    let m = qs.len();
    lemma_sorted_len(sorted, n);
    lemma_below_widen(qs, n as nat, usize::BITS as nat);
    lemma_below_widen(sorted, n as nat, usize::BITS as nat);
    lemma_below_widen(sorted, n as nat, (usize::BITS - 1) as nat);
    let c = clear_bits(j, qs);
    let r = gather_spec(j, qs);
    assert forall|p: usize| p < usize::BITS implies bit(c, p) == (bit(j, p) && !has_pos(qs, p)) by {
        lemma_bit_and(j, !mask_spec(qs), p);
        lemma_bit_not(mask_spec(qs), p);
        lemma_mask_bits(qs, p);
    }
    lemma_fits(j, n);
    lemma_fits(c, n);
    assert forall|k: int| 0 <= k < sorted.len() implies !bit(c, #[trigger] sorted[k] as usize) by {
        assert(has_pos(sorted, sorted[k] as usize));
        assert(has_pos(qs, sorted[k] as usize));
    }
    lemma_remove_bits_bound(c, sorted, n);
    lemma_insert_remove_bits(c, sorted);
    assert forall|p: usize| m <= p < usize::BITS implies !bit(r, p) by {
        lemma_gather_bits(j, qs, p);
    }
    lemma_fits(r, m as usize);
    let sc = scatter_spec(r, qs);
    let idx = c | sc;
    assert forall|p: usize| p < usize::BITS implies bit(idx, p) == bit(j, p) by {
        lemma_bit_or(c, sc, p);
        lemma_scatter_bits(r, qs, p);
        if has_pos(qs, p) {
            let k = choose|k: int| 0 <= k < qs.len() && qs[k] as usize == p;
            lemma_gather_bits(j, qs, k as usize);
            assert(bit(r, k as usize) == bit(j, p));
            if bit(sc, p) {
                let i = choose|i: int| 0 <= i < qs.len() && qs[i] as usize == p && #[trigger] bit(r, i as usize);
                assert(i == k);
            }
        } else {
            if bit(sc, p) {
                let i = choose|i: int| 0 <= i < qs.len() && qs[i] as usize == p && #[trigger] bit(r, i as usize);
                assert(has_pos(qs, p));
            }
        }
    }
    lemma_bits_ext(idx, j);
}


/// Gather the bits of `index` at positions `qs` into a compact sub-index:
/// bit `j` of the result is bit `qs[j]` of `index`.
pub fn gather_bits(index: usize, qs: &[u32]) -> (g: usize)
    requires
        qs@.len() <= usize::BITS,
        all_below(qs@, usize::BITS as nat),
    ensures
        g == gather_spec(index, qs@),
{
    let mut g: usize = 0;
    let mut j: usize = 0;
    while j < qs.len()
        invariant
            j <= qs@.len(),
            qs@.len() <= usize::BITS,
            all_below(qs@, usize::BITS as nat),
            g == gather_spec(index, qs@.take(j as int)),
        decreases qs@.len() - j,
    {
        let q = qs[j];
        assert(qs@.take((j + 1) as int).drop_last() =~= qs@.take(j as int));
        g = g | (((index >> q) & 1) << j);
        j = j + 1;
    }
    assert(qs@.take(j as int) =~= qs@);
    g
}

/// Scatter a compact sub-index back to positions `qs`: bit `j` of `sub` becomes bit `qs[j]`
/// of the result, and all other bits are zero.
pub fn scatter_bits(sub: usize, qs: &[u32]) -> (x: usize)
    requires
        qs@.len() <= usize::BITS,
        all_below(qs@, usize::BITS as nat),
    ensures
        x == scatter_spec(sub, qs@),
{
    let mut x: usize = 0;
    let mut j: usize = 0;
    while j < qs.len()
        invariant
            j <= qs@.len(),
            qs@.len() <= usize::BITS,
            all_below(qs@, usize::BITS as nat),
            x == scatter_spec(sub, qs@.take(j as int)),
        decreases qs@.len() - j,
    {
        let q = qs[j];
        assert(qs@.take((j + 1) as int).drop_last() =~= qs@.take(j as int));
        x = x | (((sub >> j) & 1) << q);
        j = j + 1;
    }
    assert(qs@.take(j as int) =~= qs@);
    x
}

/// Insert a `0` bit at every position of `sorted_bits` (strictly ascending), smallest first.
///
/// As `index` ranges over `0..2^(N-m)`, the result ranges over exactly the indices below `2^N`
/// whose `sorted_bits` positions are all zero (see [`lemma_insert_zero_bits_tiles`]).
pub fn insert_zero_bits(index: usize, sorted_bits: &[u32]) -> (r: usize)
    requires
        strictly_ascending(sorted_bits@),
        all_below(sorted_bits@, usize::BITS as nat),
    ensures
        r == insert_zero_bits_spec(index, sorted_bits@),
{
    let mut x = index;
    let mut k: usize = 0;
    while k < sorted_bits.len()
        invariant
            k <= sorted_bits@.len(),
            all_below(sorted_bits@, usize::BITS as nat),
            x == insert_zero_bits_spec(index, sorted_bits@.take(k as int)),
        decreases sorted_bits@.len() - k,
    {
        let b = sorted_bits[k];
        assert(sorted_bits@.take((k + 1) as int).drop_last() =~= sorted_bits@.take(k as int));
        x = insert_zero_bit(x, b);
        k = k + 1;
    }
    assert(sorted_bits@.take(k as int) =~= sorted_bits@);
    x
}

/// The 64-bit word with exactly the bits at the positions of `qs` set.
pub open spec fn qubit_mask_spec(qs: Seq<u32>) -> u64
    decreases qs.len(),
{
    if qs.len() == 0 {
        0u64
    } else {
        qubit_mask_spec(qs.drop_last()) | (1u64 << (qs.last() as u64))
    }
}

/// OR of `1 << q` over `qs` — a gate-qubit bit-mask.
pub fn qubit_mask(qs: &[u32]) -> (m: u64)
    requires
        all_below(qs@, 64),
    ensures
        m == qubit_mask_spec(qs@),
        forall|p: u64| #![trigger (m >> p) & 1u64] p < 64 ==>
            (((m >> p) & 1u64 == 1u64) <==> has_pos(qs@, p as usize)),
{
    let mut m: u64 = 0;
    let mut j: usize = 0;
    assert forall|p: u64| #![trigger (m >> p) & 1u64] p < 64 implies
        (((m >> p) & 1u64 == 1u64) <==> has_pos(qs@.take(0), p as usize)) by {
        assert((0u64 >> p) & 1u64 == 0u64) by (bit_vector);
    }
    while j < qs.len()
        invariant
            j <= qs@.len(),
            all_below(qs@, 64),
            m == qubit_mask_spec(qs@.take(j as int)),
            forall|p: u64| #![trigger (m >> p) & 1u64] p < 64 ==>
                (((m >> p) & 1u64 == 1u64) <==> has_pos(qs@.take(j as int), p as usize)),
        decreases qs@.len() - j,
    {
        let q = qs[j];
        let ghost old_m = m;
        assert(qs@.take((j + 1) as int).drop_last() =~= qs@.take(j as int));
        m = m | (1u64 << q);
        assert forall|p: u64| #![trigger (m >> p) & 1u64] p < 64 implies
            (((m >> p) & 1u64 == 1u64) <==> has_pos(qs@.take((j + 1) as int), p as usize)) by {
            let qq = q as u64;
            assert(((m >> p) & 1u64 == 1u64) == (((old_m >> p) & 1u64 == 1u64) || p == qq))
                by (bit_vector)
                requires m == old_m | (1u64 << qq), qq < 64, p < 64;
            let t = qs@.take((j + 1) as int);
            if has_pos(t, p as usize) {
                let k = choose|k: int| 0 <= k < t.len() && t[k] as usize == p as usize;
                if k < j {
                    assert(qs@.take(j as int)[k] == t[k]);
                }
            }
            if has_pos(qs@.take(j as int), p as usize) {
                let k = choose|k: int| 0 <= k < j && qs@.take(j as int)[k] as usize == p as usize;
                assert(t[k] == qs@.take(j as int)[k]);
            }
            if p == qq {
                assert(t[j as int] == q);
            }
        }
        j = j + 1;
    }
    assert(qs@.take(j as int) =~= qs@);
    m
}


/// Pair enumeration for a 1-qubit gate on bit `q` of an `n`-bit index space: for
/// `i < 2^(n-1)`, `a0 = insert_zero_bit(i, q)` is in range with bit `q` clear, its partner
/// `a1 = a0 | 2^q` differs from it in exactly bit `q`, and every index with bit `q` clear is
/// `a0` for exactly one `i` (namely `remove_bit_spec(a0, q)`).
pub proof fn lemma_pairs_tile(i: usize, q: u32, n: usize, j: usize)
    requires
        q < n,
        n < usize::BITS,
        i < (1usize << ((n - 1) as usize)),
        j < (1usize << n),
        !bit(j, q as usize),
    ensures
        insert_zero_bit_spec(i, q) < (1usize << n),
        !bit(insert_zero_bit_spec(i, q), q as usize),
        insert_zero_bit_spec(i, q) | (1usize << q) == insert_zero_bit_spec(i, q) + (1usize << q),
        insert_zero_bit_spec(i, q) ^ (insert_zero_bit_spec(i, q) | (1usize << q)) == (1usize << q),
        insert_zero_bit_spec(i, q) | (1usize << q) < (1usize << n),
        remove_bit_spec(insert_zero_bit_spec(i, q), q) == i,
        remove_bit_spec(j, q) < (1usize << ((n - 1) as usize)),
        insert_zero_bit_spec(remove_bit_spec(j, q), q) == j,
{
    let a0 = insert_zero_bit_spec(i, q);
    let qq = q as usize;
    lemma_insert_bound(i, q, (n - 1) as usize);
    lemma_insert_zero_bit_bits(i, q, qq);
    assert(a0 | (1usize << qq) == a0 + (1usize << qq) && a0 ^ (a0 | (1usize << qq)) == (1usize << qq)
        && a0 | (1usize << qq) < (1usize << n)) by (bit_vector)
        requires (a0 >> qq) & 1usize != 1usize, a0 < (1usize << n), qq < n, n < usize::BITS;
    lemma_pow_mono((n - 1) as usize, (usize::BITS - 1) as usize);
    lemma_remove_insert(i, q);
    lemma_remove_bound(j, q, n);
    lemma_insert_remove(j, q);
}

/// The block anchors tile the index space: for strictly ascending positions `s` below `n`,
/// `insert_zero_bits(o, s)` for `o < 2^(n-m)` lands in `[0, 2^n)` with all `s` positions zero,
/// distinct anchors come from distinct `o`, and every index in range whose `s` positions are
/// zero is the anchor of exactly the `o` obtained by removing those positions.
pub proof fn lemma_insert_zero_bits_tiles(s: Seq<u32>, n: usize, o1: usize, o2: usize, x: usize)
    requires
        strictly_ascending(s),
        all_below(s, n as nat),
        n < usize::BITS,
        o1 < (1usize << ((n - s.len()) as usize)),
        o2 < (1usize << ((n - s.len()) as usize)),
        x < (1usize << n),
        forall|k: int| 0 <= k < s.len() ==> !bit(x, #[trigger] s[k] as usize),
    ensures
        s.len() <= n,
        insert_zero_bits_spec(o1, s) < (1usize << n),
        forall|k: int| 0 <= k < s.len() ==> !bit(insert_zero_bits_spec(o1, s), #[trigger] s[k] as usize),
        insert_zero_bits_spec(o1, s) == insert_zero_bits_spec(o2, s) ==> o1 == o2,
        remove_bits_spec(x, s) < (1usize << ((n - s.len()) as usize)),
        insert_zero_bits_spec(remove_bits_spec(x, s), s) == x,
{
    lemma_sorted_len(s, n);
    lemma_below_widen(s, n as nat, usize::BITS as nat);
    lemma_below_widen(s, n as nat, (usize::BITS - 1) as nat);
    lemma_insert_zero_bits_bound(o1, s, (n - s.len()) as usize);
    assert forall|k: int| 0 <= k < s.len() implies !bit(insert_zero_bits_spec(o1, s), #[trigger] s[k] as usize) by {
        lemma_insert_zero_bits_zero_at(o1, s, k);
    }
    lemma_remove_insert_bits(o1, s, (n - s.len()) as usize);
    lemma_remove_insert_bits(o2, s, (n - s.len()) as usize);
    lemma_remove_bits_bound(x, s, n);
    lemma_insert_remove_bits(x, s);
}


/// The positions of `qs` in ascending order (the anchor order for [`insert_zero_bits`]).
pub fn sorted_positions(qs: &[u32]) -> (s: Vec<u32>)
    requires
        distinct(qs@),
    ensures
        s@.len() == qs@.len(),
        strictly_ascending(s@),
        forall|p: usize| #[trigger] has_pos(qs@, p) == has_pos(s@, p),
{
    let mut s: Vec<u32> = Vec::with_capacity(qs.len());
    let mut k: usize = 0;
    while k < qs.len()
        invariant
            k <= qs@.len(),
            distinct(qs@),
            s@.len() == k,
            strictly_ascending(s@),
            forall|p: usize| #[trigger] has_pos(qs@.take(k as int), p) == has_pos(s@, p),
        decreases qs@.len() - k,
    {
        let x = qs[k];
        let mut pos: usize = 0;
        while pos < s.len() && s[pos] < x
            invariant
                pos <= s@.len(),
                forall|i: int| 0 <= i < pos ==> s@[i] < x,
            decreases s@.len() - pos,
        {
            pos = pos + 1;
        }
        let ghost old_s = s@;
        // x is new: it differs from every earlier position
        assert forall|i: int| 0 <= i < old_s.len() implies old_s[i] != x by {
            assert(has_pos(old_s, old_s[i] as usize));
            assert(has_pos(qs@.take(k as int), old_s[i] as usize));
            let j = choose|j: int| 0 <= j < k && qs@.take(k as int)[j] as usize == old_s[i] as usize;
            assert(qs@[j] != qs@[k as int]);
        }
        s.insert(pos, x);
        assert(strictly_ascending(s@)) by {
            assert forall|i: int, j: int| 0 <= i < j < s@.len() implies s@[i] < s@[j] by {
                if i < pos && j < pos {
                    assert(s@[i] == old_s[i] && s@[j] == old_s[j]);
                } else if i < pos && j == pos {
                } else if i < pos {
                    assert(s@[i] == old_s[i] && s@[j] == old_s[j - 1]);
                } else if i == pos {
                    assert(s@[j] == old_s[j - 1]);
                    if pos < old_s.len() {
                        assert(old_s[pos as int] >= x);
                        assert(old_s[pos as int] != x);
                        assert(j - 1 >= pos);
                        if j - 1 > pos {
                            assert(old_s[pos as int] < old_s[j - 1]);
                        }
                    }
                } else {
                    assert(s@[i] == old_s[i - 1] && s@[j] == old_s[j - 1]);
                }
            }
        }
        assert forall|p: usize| #[trigger] has_pos(qs@.take((k + 1) as int), p) == has_pos(s@, p) by {
            let t = qs@.take(k as int);
            let t1 = qs@.take((k + 1) as int);
            if has_pos(t1, p) {
                let j = choose|j: int| 0 <= j < t1.len() && t1[j] as usize == p;
                if j < k {
                    assert(t[j] == t1[j]);
                    assert(has_pos(t, p));
                    assert(has_pos(old_s, p));
                    let i = choose|i: int| 0 <= i < old_s.len() && old_s[i] as usize == p;
                    if i < pos {
                        assert(s@[i] == old_s[i]);
                    } else {
                        assert(s@[i + 1] == old_s[i]);
                    }
                } else {
                    assert(s@[pos as int] == x);
                }
            }
            if has_pos(s@, p) {
                let i = choose|i: int| 0 <= i < s@.len() && s@[i] as usize == p;
                if i == pos {
                    assert(t1[k as int] == x);
                } else {
                    let i0 = if i < pos { i } else { i - 1 };
                    assert(old_s[i0] == s@[i]);
                    assert(has_pos(old_s, p));
                    assert(has_pos(t, p));
                    let j = choose|j: int| 0 <= j < t.len() && t[j] as usize == p;
                    assert(t1[j] == t[j]);
                }
            }
        }
        k = k + 1;
    }
    assert(qs@.take(k as int) =~= qs@);
    s
}


/// Every word splits into its bits outside `qs` and its scattered sub-index on `qs`.
pub proof fn lemma_decompose(j: usize, qs: Seq<u32>)
    requires
        distinct(qs),
        all_below(qs, usize::BITS as nat),
        qs.len() <= usize::BITS,
    ensures
        j == clear_bits(j, qs) | scatter_spec(gather_spec(j, qs), qs),
{
    let c = clear_bits(j, qs);
    let r = gather_spec(j, qs);
    let sc = scatter_spec(r, qs);
    let x = c | sc;
    assert forall|p: usize| p < usize::BITS implies bit(x, p) == bit(j, p) by {
        lemma_bit_or(c, sc, p);
        lemma_bit_and(j, !mask_spec(qs), p);
        lemma_bit_not(mask_spec(qs), p);
        lemma_mask_bits(qs, p);
        lemma_scatter_bits(r, qs, p);
        if has_pos(qs, p) {
            let k = choose|k: int| 0 <= k < qs.len() && qs[k] as usize == p;
            lemma_gather_bits(j, qs, k as usize);
            if bit(j, p) {
                assert(bit(r, (k as int) as usize));
            }
            if bit(sc, p) {
                let i = choose|i: int| 0 <= i < qs.len() && qs[i] as usize == p && #[trigger] bit(r, i as usize);
                assert(i == k);
            }
        } else {
            if bit(sc, p) {
                let i = choose|i: int| 0 <= i < qs.len() && qs[i] as usize == p && #[trigger] bit(r, i as usize);
                assert(has_pos(qs, p));
            }
        }
    }
    lemma_bits_ext(x, j);
}

/// Scattering a gathered sub-index puts back exactly the bits of the index on `qs`:
/// `scatter(gather(j, qs), qs) == j & mask(qs)`.
pub proof fn lemma_scatter_gather(j: usize, qs: Seq<u32>)
    requires
        distinct(qs),
        all_below(qs, usize::BITS as nat),
        qs.len() <= usize::BITS,
    ensures
        scatter_spec(gather_spec(j, qs), qs) == j & mask_spec(qs),
{
    let r = gather_spec(j, qs);
    let sc = scatter_spec(r, qs);
    let x = j & mask_spec(qs);
    assert forall|p: usize| p < usize::BITS implies bit(sc, p) == bit(x, p) by {
        lemma_bit_and(j, mask_spec(qs), p);
        lemma_mask_bits(qs, p);
        lemma_scatter_bits(r, qs, p);
        if has_pos(qs, p) {
            let k = choose|k: int| 0 <= k < qs.len() && qs[k] as usize == p;
            lemma_gather_bits(j, qs, k as usize);
            if bit(j, p) {
                assert(bit(r, (k as int) as usize));
            }
            if bit(sc, p) {
                let i = choose|i: int| 0 <= i < qs.len() && qs[i] as usize == p && #[trigger] bit(r, i as usize);
                assert(i == k);
            }
        } else {
            if bit(sc, p) {
                let i = choose|i: int| 0 <= i < qs.len() && qs[i] as usize == p && #[trigger] bit(r, i as usize);
                assert(has_pos(qs, p));
            }
        }
    }
    lemma_bits_ext(sc, x);
}

/// A word that is zero on `qs`, combined with a scattered sub-index, has that sub-index on `qs`
/// and the word itself outside `qs`; it stays below `2^n` when both parts do.
pub proof fn lemma_compose(base: usize, r: usize, qs: Seq<u32>, n: usize)
    requires
        distinct(qs),
        all_below(qs, n as nat),
        n < usize::BITS,
        clear_bits(base, qs) == base,
        base < (1usize << n),
        r < (1usize << qs.len()),
    ensures
        gather_spec(base | scatter_spec(r, qs), qs) == r,
        clear_bits(base | scatter_spec(r, qs), qs) == base,
        (base | scatter_spec(r, qs)) < (1usize << n),
{
    lemma_distinct_len(qs, n);
    lemma_below_widen(qs, n as nat, usize::BITS as nat);
    let sc = scatter_spec(r, qs);
    let x = base | sc;
    lemma_fits(r, qs.len() as usize);
    lemma_fits(base, n);
    assert forall|p: usize| p < usize::BITS && has_pos(qs, p) implies !bit(base, p) by {
        lemma_bit_and(base, !mask_spec(qs), p);
        lemma_bit_not(mask_spec(qs), p);
        lemma_mask_bits(qs, p);
    }
    // sub-index
    let g = gather_spec(x, qs);
    assert forall|j: usize| j < usize::BITS implies bit(g, j) == bit(r, j) by {
        lemma_gather_bits(x, qs, j);
        if j < qs.len() {
            let p = qs[j as int] as usize;
            assert(has_pos(qs, p));
            lemma_bit_or(base, sc, p);
            lemma_scatter_bits(r, qs, p);
            if bit(r, j) {
                assert(bit(r, (j as int) as usize));
            }
            if bit(sc, p) {
                let i = choose|i: int| 0 <= i < qs.len() && qs[i] as usize == p && #[trigger] bit(r, i as usize);
                assert(i == j as int);
            }
        }
    }
    lemma_bits_ext(g, r);
    // outside bits
    let c = clear_bits(x, qs);
    assert forall|p: usize| p < usize::BITS implies bit(c, p) == bit(base, p) by {
        lemma_bit_and(x, !mask_spec(qs), p);
        lemma_bit_not(mask_spec(qs), p);
        lemma_mask_bits(qs, p);
        lemma_bit_or(base, sc, p);
        lemma_scatter_bits(r, qs, p);
        if !has_pos(qs, p) && bit(sc, p) {
            let i = choose|i: int| 0 <= i < qs.len() && qs[i] as usize == p && #[trigger] bit(r, i as usize);
            assert(has_pos(qs, p));
        }
    }
    lemma_bits_ext(c, base);
    // range
    assert forall|p: usize| n <= p < usize::BITS implies !bit(x, p) by {
        lemma_bit_or(base, sc, p);
        lemma_scatter_bits(r, qs, p);
        if bit(sc, p) {
            let i = choose|i: int| 0 <= i < qs.len() && qs[i] as usize == p && #[trigger] bit(r, i as usize);
        }
    }
    lemma_fits(x, n);
}

/// Distinct positions below `n` number at most `n`.
pub proof fn lemma_distinct_len(qs: Seq<u32>, n: usize)
    requires
        distinct(qs),
        all_below(qs, n as nat),
    ensures
        qs.len() <= n,
{
    let s = qs.map_values(|q: u32| q as int).to_set();
    let full = Set::new(|i: int| 0 <= i < n);
    assert(full =~= vstd::set_lib::set_int_range(0, n as int));
    vstd::set_lib::lemma_int_range(0, n as int);
    assert(s.subset_of(full));
    vstd::set_lib::lemma_len_subset(s, full);
    qs.map_values(|q: u32| q as int).unique_seq_to_set();
}

/// The positions not in `qs` of an index below `2^n` form a word below `2^n` that is zero on `qs`.
pub proof fn lemma_clear_bits(j: usize, qs: Seq<u32>, n: usize)
    requires
        all_below(qs, usize::BITS as nat),
        n < usize::BITS,
        j < (1usize << n),
    ensures
        clear_bits(clear_bits(j, qs), qs) == clear_bits(j, qs),
        clear_bits(j, qs) < (1usize << n),
        clear_bits(j, qs) <= j,
{
    let c = clear_bits(j, qs);
    let mk = mask_spec(qs);
    assert((j & !mk) & !mk == j & !mk && j & !mk <= j) by (bit_vector);
}


/// The gather, scatter, mask and cleared word for a single position `q`.
pub proof fn lemma_single_position(j: usize, c: usize, q: u32)
    requires
        q < usize::BITS,
    ensures
        gather_spec(j, seq![q]) == (j >> (q as usize)) & 1usize,
        scatter_spec(c, seq![q]) == (c & 1usize) << (q as usize),
        mask_spec(seq![q]) == 1usize << (q as usize),
        clear_bits(j, seq![q]) == j & !(1usize << (q as usize)),
{
    let s = seq![q];
    assert(s.drop_last() =~= Seq::<u32>::empty());
    assert(s.last() == q);
    let qq = q as usize;
    assert(gather_spec(j, s.drop_last()) == 0usize);
    assert(scatter_spec(c, s.drop_last()) == 0usize);
    assert(mask_spec(s.drop_last()) == 0usize);
    assert(((s.len() - 1) as usize) == 0usize);
    assert(gather_spec(j, s) == (0usize | (((j >> qq) & 1usize) << 0usize)));
    assert(scatter_spec(c, s) == (0usize | (((c >> 0usize) & 1usize) << qq)));
    assert(mask_spec(s) == (0usize | (1usize << qq)));
    assert((0usize | (((j >> qq) & 1usize) << 0usize)) == (j >> qq) & 1usize
        && (0usize | (((c >> 0usize) & 1usize) << qq)) == (c & 1usize) << qq
        && (0usize | (1usize << qq)) == 1usize << qq) by (bit_vector);
}

/// A zero word scattered anywhere stays zero.
pub proof fn lemma_scatter_zero(qs: Seq<u32>)
    requires
        all_below(qs, usize::BITS as nat),
    ensures
        scatter_spec(0, qs) == 0,
    decreases qs.len(),
{
    if qs.len() > 0 {
        lemma_scatter_zero(qs.drop_last());
        let q = qs.last() as usize;
        let k = (qs.len() - 1) as usize;
        assert((0usize | (((0usize >> k) & 1usize) << q)) == 0usize) by (bit_vector);
    }
}

} // verus!
