//! A tiny deterministic random number generator, and the reproducible random circuits built
//! from it.
use crate::circuit::{Circuit, GateOp};
use crate::gate::DenseGate;
use vstd::prelude::*;

verus! {

/// The SplitMix64 state increment (the 64-bit golden-ratio constant).
pub const GOLDEN_GAMMA: u64 = 0x9E37_79B9_7F4A_7C15;

/// First multiplier of the SplitMix64 output mix.
pub const MIX_MUL_1: u64 = 0xBF58_476D_1CE4_E5B9;

/// Second multiplier of the SplitMix64 output mix.
pub const MIX_MUL_2: u64 = 0x94D0_49BB_1331_11EB;

/// `2^64`, the modulus of `u64` wrapping arithmetic.
pub open spec fn word() -> nat {
    0x1_0000_0000_0000_0000
}

/// The state after one step: `state + γ (mod 2^64)`.
pub open spec fn splitmix_advance(state: u64) -> u64 {
    ((state as nat + GOLDEN_GAMMA as nat) % word()) as u64
}

/// The SplitMix64 output function applied to an (already advanced) state.
pub open spec fn splitmix_mix(z: u64) -> u64 {
    let z1 = (((z ^ (z >> 30u64)) as nat * MIX_MUL_1 as nat) % word()) as u64;
    let z2 = (((z1 ^ (z1 >> 27u64)) as nat * MIX_MUL_2 as nat) % word()) as u64;
    z2 ^ (z2 >> 31u64)
}

/// The state of a generator seeded with `seed` after `k` draws.
pub open spec fn splitmix_state_after(seed: u64, k: nat) -> u64
    decreases k,
{
    if k == 0 {
        seed
    } else {
        splitmix_advance(splitmix_state_after(seed, (k - 1) as nat))
    }
}

/// [SplitMix64](https://prng.di.unimi.it/splitmix64.c) — a small, fast, well-distributed
/// PRNG. Deterministic given a seed; used to build reproducible random circuits.
#[derive(Clone, Debug)]
pub struct SplitMix64 {
    state: u64,
}

impl View for SplitMix64 {
    type V = u64;

    closed spec fn view(&self) -> u64 {
        self.state
    }
}

impl SplitMix64 {
    /// A generator whose state is `seed`.
    pub fn new(seed: u64) -> (r: Self)
        ensures
            r@ == seed,
    {
        Self { state: seed }
    }

    /// Advance the state by `γ` and return the mixed new state.
    pub fn next_u64(&mut self) -> (r: u64)
        ensures
            final(self)@ == splitmix_advance(old(self)@),
            r == splitmix_mix(final(self)@),
    {
        self.state = self.state.wrapping_add(GOLDEN_GAMMA);
        let mut z = self.state;
        z = (z ^ (z >> 30)).wrapping_mul(MIX_MUL_1);
        z = (z ^ (z >> 27)).wrapping_mul(MIX_MUL_2);
        z ^ (z >> 31)
    }

    /// Next draw reduced modulo `n` (`n > 0`): an integer in `0..n`.
    pub fn below(&mut self, n: u64) -> (r: u64)
        requires
            n > 0,
        ensures
            final(self)@ == splitmix_advance(old(self)@),
            r == splitmix_mix(final(self)@) % n,
            r < n,
    {
        self.next_u64() % n
    }
}

/// Same seed, same stream: after `k` draws a generator seeded with `seed` is in state
/// `seed + k·γ (mod 2^64)`, so its next output is `mix(seed + (k+1)·γ)` whatever else happened.
pub proof fn lemma_splitmix_state_closed_form(seed: u64, k: nat)
    ensures
        splitmix_state_after(seed, k) as nat == (seed as nat + k * GOLDEN_GAMMA as nat) % word(),
    decreases k,
{
    if k == 0 {
        vstd::arithmetic::div_mod::lemma_small_mod(seed as nat, word());
    } else {
        let k1 = (k - 1) as nat;
        lemma_splitmix_state_closed_form(seed, k1);
        let a = seed as nat + k1 * GOLDEN_GAMMA as nat;
        vstd::arithmetic::div_mod::lemma_add_mod_noop(a as int, GOLDEN_GAMMA as int, word() as int);
        vstd::arithmetic::div_mod::lemma_mod_twice(GOLDEN_GAMMA as int, word() as int);
        vstd::arithmetic::div_mod::lemma_small_mod(GOLDEN_GAMMA as nat, word());
        vstd::arithmetic::mul::lemma_mul_is_distributive_add_other_way(GOLDEN_GAMMA as int, k1 as int, 1);
    }
}

/// The inverse of `x ↦ x ^ (x >> k)` for `k ≥ 22`: `y ^ (y >> k) ^ (y >> 2k)`.
pub open spec fn unshift_xor(y: u64, k: u64) -> u64 {
    y ^ (y >> k) ^ (y >> (2 * k))
}

/// The SplitMix64 output function run backwards: the state whose mix is `y`.
pub open spec fn splitmix_unmix(y: u64) -> u64 {
    let a = unshift_xor(y, 31);
    let b = ((a as nat * 0x319642b2d24d8ec3nat) % word()) as u64;
    let c = unshift_xor(b, 27);
    let d = ((c as nat * 0x96de1b173f119089nat) % word()) as u64;
    unshift_xor(d, 30)
}

/// Every output is the mix of some state: `mix(unmix(y)) == y`.
pub proof fn lemma_mix_unmix(y: u64)
    ensures
        splitmix_mix(splitmix_unmix(y)) == y,
{
    let a = unshift_xor(y, 31);
    let b = ((a as nat * 0x319642b2d24d8ec3nat) % word()) as u64;
    let c = unshift_xor(b, 27);
    let d = ((c as nat * 0x96de1b173f119089nat) % word()) as u64;
    let z = unshift_xor(d, 30);
    assert(a ^ (a >> 31u64) == y) by (bit_vector)
        requires a == y ^ (y >> 31u64) ^ (y >> 62u64);
    assert(((b as nat * MIX_MUL_2 as nat) % word()) as u64 == a) by (bit_vector)
        requires b == ((a as nat * 0x319642b2d24d8ec3nat) % 0x1_0000_0000_0000_0000nat) as u64;
    assert(c ^ (c >> 27u64) == b) by (bit_vector)
        requires c == b ^ (b >> 27u64) ^ (b >> 54u64);
    assert(((d as nat * MIX_MUL_1 as nat) % word()) as u64 == c) by (bit_vector)
        requires d == ((c as nat * 0x96de1b173f119089nat) % 0x1_0000_0000_0000_0000nat) as u64;
    assert(z ^ (z >> 30u64) == d) by (bit_vector)
        requires z == d ^ (d >> 30u64) ^ (d >> 60u64);
}

/// The multiplicative inverse of `γ` modulo `2^64`.
pub open spec fn gamma_inv() -> nat {
    0xf1de83e19937733d
}

/// How many draws take state `x` to state `z`: `(z - x)·γ⁻¹ (mod 2^64)`.
pub open spec fn steps_to(x: u64, z: u64) -> u64 {
    ((((z - x) as u64) as nat * gamma_inv()) % word()) as u64
}

/// A state that is not yet `z` reaches it one draw sooner after a draw.
pub proof fn lemma_steps_to(x: u64, z: u64)
    requires
        x != z,
    ensures
        steps_to(x, z) >= 1,
        steps_to(splitmix_advance(x), z) == steps_to(x, z) - 1,
{
    let a = splitmix_advance(x);
    let w = (z - x) as u64;
    let w1 = (z - a) as u64;
    let d0 = steps_to(x, z);
    let d1 = steps_to(a, z);
    assert(w1 == (w - 0x9E37_79B9_7F4A_7C15u64) as u64 && w != 0) by (bit_vector)
        requires
            x != z,
            a == ((x as nat + 0x9E37_79B9_7F4A_7C15nat) % 0x1_0000_0000_0000_0000nat) as u64,
            w == (z - x) as u64,
            w1 == (z - a) as u64;
    assert(d0 != 0) by (bit_vector)
        requires
            w != 0,
            d0 == ((w as nat * 0xf1de83e19937733dnat) % 0x1_0000_0000_0000_0000nat) as u64;
    assert(d1 == d0 - 1) by (bit_vector)
        requires
            d0 != 0,
            w1 == (w - 0x9E37_79B9_7F4A_7C15u64) as u64,
            d0 == ((w as nat * 0xf1de83e19937733dnat) % 0x1_0000_0000_0000_0000nat) as u64,
            d1 == ((w1 as nat * 0xf1de83e19937733dnat) % 0x1_0000_0000_0000_0000nat) as u64;
}

/// The value the redrawing of a second qubit is sure to reach: `(q + 1) mod n`, a qubit other
/// than `q`.
pub open spec fn retry_target(n: u64, q: u64) -> u64 {
    ((q + 1) % (n as int)) as u64
}

/// For `n ≥ 2` and `q < n`, the target is another qubit below `n`.
pub proof fn lemma_retry_target(n: u64, q: u64)
    requires
        n >= 2,
        q < n,
    ensures
        retry_target(n, q) < n,
        retry_target(n, q) != q,
        retry_target(n, q) % n == retry_target(n, q),
{
    if q + 1 < n {
        vstd::arithmetic::div_mod::lemma_small_mod((q + 1) as nat, n as nat);
    } else {
        vstd::arithmetic::div_mod::lemma_mod_self_0(n as int);
    }
    vstd::arithmetic::div_mod::lemma_small_mod(retry_target(n, q) as nat, n as nat);
}

/// A state whose draw is `q` is not the state whose mix is the target, so one more draw brings
/// the generator one step closer to it.
pub proof fn lemma_retry_progress(x: u64, n: u64, q: u64)
    requires
        n >= 2,
        q < n,
        splitmix_mix(x) % n == q,
    ensures
        steps_to(splitmix_advance(x), splitmix_unmix(retry_target(n, q))) < steps_to(
            x,
            splitmix_unmix(retry_target(n, q)),
        ),
{
    let t = retry_target(n, q);
    lemma_retry_target(n, q);
    lemma_mix_unmix(t);
    if x == splitmix_unmix(t) {
        assert(splitmix_mix(x) % n == t);
    }
    lemma_steps_to(x, splitmix_unmix(t));
}

/// Drawing below `n` from state `s` until the value differs from `q`: the value and the state
/// after it. For `n ≥ 2` and `q < n` this ends: the mix is onto and the states run through all
/// of `u64`, so the state whose mix is the target is reached.
pub open spec fn retry_draw(s: u64, n: u64, q: u64) -> (u64, u64)
    decreases steps_to(splitmix_advance(s), splitmix_unmix(retry_target(n, q))),
{
    let s1 = splitmix_advance(s);
    let v = splitmix_mix(s1) % n;
    if n < 2 || q >= n || v != q {
        (s1, v)
    } else {
        proof {
            lemma_retry_progress(s1, n, q);
        }
        retry_draw(s1, n, q)
    }
}

/// The random choices behind one gate of a random circuit.
#[derive(Clone, Copy, Debug)]
pub struct GateDraw {
    /// The (first) qubit.
    pub q: u32,
    /// Kind, `0..15`: `0..=10` one-qubit gates, the others two-qubit gates.
    pub kind: u64,
    /// The second qubit of a two-qubit gate (`0` otherwise).
    pub q2: u32,
    /// The two-qubit kind, `0..4` (`0` for one-qubit gates).
    pub kind2: u64,
    /// The raw draw behind an angle, for the angled kinds (`0` otherwise).
    pub angle: u64,
}

/// One gate's draws from state `s` on `n` qubits, and the state after them: a qubit and a kind;
/// then for kinds `7..=10` an angle; for kinds `11..15` a second qubit (redrawn while it equals
/// the first), a two-qubit kind, and for two-qubit kind `3` an angle.
#[verifier::opaque]
pub open spec fn gate_draw(s: u64, n: u64) -> (u64, GateDraw) {
    let s1 = splitmix_advance(s);
    let q = splitmix_mix(s1) % n;
    let s2 = splitmix_advance(s1);
    let kind = splitmix_mix(s2) % 15;
    if kind <= 10 {
        if 7 <= kind {
            let s3 = splitmix_advance(s2);
            (s3, GateDraw { q: q as u32, kind, q2: 0, kind2: 0, angle: splitmix_mix(s3) })
        } else {
            (s2, GateDraw { q: q as u32, kind, q2: 0, kind2: 0, angle: 0 })
        }
    } else {
        let (s3, q2) = retry_draw(s2, n, q);
        let s4 = splitmix_advance(s3);
        let kind2 = splitmix_mix(s4) % 4;
        if kind2 == 3 {
            let s5 = splitmix_advance(s4);
            (s5, GateDraw { q: q as u32, kind, q2: q2 as u32, kind2, angle: splitmix_mix(s5) })
        } else {
            (s4, GateDraw { q: q as u32, kind, q2: q2 as u32, kind2, angle: 0 })
        }
    }
}

/// The draws of the first `k` gates of a random circuit on `n` qubits seeded with `seed`, and
/// the generator's state after them.
pub open spec fn circuit_draws(seed: u64, n: u64, k: nat) -> (u64, Seq<GateDraw>)
    decreases k,
{
    if k == 0 {
        (seed, Seq::empty())
    } else {
        let prev = circuit_draws(seed, n, (k - 1) as nat);
        let next = gate_draw(prev.0, n);
        (next.0, prev.1.push(next.1))
    }
}

/// One draw record per gate.
pub proof fn lemma_circuit_draws_len(seed: u64, n: u64, k: nat)
    ensures
        circuit_draws(seed, n, k).1.len() == k,
    decreases k,
{
    if k > 0 {
        lemma_circuit_draws_len(seed, n, (k - 1) as nat);
    }
}

/// `op` is what draw `d` asks for: a one-qubit gate on `d.q` built by `one_qubit`
/// from the kind and the angle draw, or a two-qubit gate on `(d.q, d.q2)` built by `two_qubit`.
pub open spec fn op_from_draw<T, G1: Fn(u64, u64) -> DenseGate<T>, G2: Fn(u64, u64) -> DenseGate<T>>(
    op: GateOp<T>,
    d: GateDraw,
    one_qubit: G1,
    two_qubit: G2,
) -> bool {
    if d.kind <= 10 {
        &&& op.qubits_spec() == seq![d.q]
        &&& call_ensures(one_qubit, (d.kind, d.angle), op.gate_spec())
    } else {
        &&& op.qubits_spec() == seq![d.q, d.q2]
        &&& call_ensures(two_qubit, (d.kind2, d.angle), op.gate_spec())
    }
}

/// Draw below `n` until the value differs from `q` (see [`retry_draw`]).
fn draw_other(rng: &mut SplitMix64, n: u64, q: u64) -> (q2: u64)
    requires
        n >= 2,
        q < n,
    ensures
        (final(rng)@, q2) == retry_draw(old(rng)@, n, q),
        q2 < n,
        q2 != q,
{
    let ghost s = rng@;
    let ghost t = retry_target(n, q);
    proof {
        lemma_retry_target(n, q);
    }
    let mut q2 = rng.below(n);
    while q2 == q
        invariant
            n >= 2,
            q < n,
            t == retry_target(n, q),
            q2 < n,
            q2 == splitmix_mix(rng@) % n,
            q2 != q ==> retry_draw(s, n, q) == (rng@, q2),
            q2 == q ==> retry_draw(s, n, q) == retry_draw(rng@, n, q),
        decreases steps_to(rng@, splitmix_unmix(t)),
    {
        proof {
            lemma_retry_progress(rng@, n, q);
        }
        q2 = rng.below(n);
    }
    q2
}

/// Draw one gate of a random circuit on `n` qubits and append it to `c`.
fn push_random_gate<T: Copy, G1: Fn(u64, u64) -> DenseGate<T>, G2: Fn(u64, u64) -> DenseGate<T>>(
    c: &mut Circuit<T>,
    rng: &mut SplitMix64,
    n: u64,
    one_qubit: &G1,
    two_qubit: &G2,
)
    requires
        old(c).wf(),
        old(c).n() as u64 == n,
        n >= 2,
        forall|k: u64, a: u64| #[trigger] one_qubit.requires((k, a)),
        forall|k: u64, a: u64| #[trigger] two_qubit.requires((k, a)),
        forall|k: u64, a: u64, g: DenseGate<T>| #[trigger] call_ensures(*one_qubit, (k, a), g) ==> g.wf()
            && g.arity() == 1,
        forall|k: u64, a: u64, g: DenseGate<T>| #[trigger] call_ensures(*two_qubit, (k, a), g) ==> g.wf()
            && g.arity() == 2,
    ensures
        final(c).wf(),
        final(c).n() == old(c).n(),
        final(c).ops_seq().len() == old(c).ops_seq().len() + 1,
        final(c).ops_seq().drop_last() == old(c).ops_seq(),
        final(rng)@ == gate_draw(old(rng)@, n).0,
        op_from_draw(final(c).ops_seq().last(), gate_draw(old(rng)@, n).1, *one_qubit, *two_qubit),
{
    reveal(gate_draw);
    let q = rng.below(n);
    let kind = rng.below(15);
    if kind <= 10 {
        let angle = if kind >= 7 {
            rng.next_u64()
        } else {
            0
        };
        let g = one_qubit(kind, angle);
        let mut qs: Vec<u32> = Vec::new();
        qs.push(q as u32);
        assert(qs@ == seq![q as u32]);
        c.push(g, qs.as_slice());
    } else {
        let q2 = draw_other(rng, n, q);
        let kind2 = rng.below(4);
        let angle = if kind2 == 3 {
            rng.next_u64()
        } else {
            0
        };
        let g = two_qubit(kind2, angle);
        let mut qs: Vec<u32> = Vec::new();
        qs.push(q as u32);
        qs.push(q2 as u32);
        assert(qs@ == seq![q as u32, q2 as u32]);
        c.push(g, qs.as_slice());
    }
}

/// A reproducible random circuit of `n_gates` gates over `n_qubits ≥ 2` qubits, mixing one- and
/// two-qubit gates with random qubits and angles (see [`gate_draw`]). `one_qubit(kind,
/// angle_draw)` and `two_qubit(kind2, angle_draw)` build the matrices.
pub fn random_circuit<T: Copy, G1: Fn(u64, u64) -> DenseGate<T>, G2: Fn(u64, u64) -> DenseGate<T>>(
    n_qubits: u32,
    n_gates: usize,
    seed: u64,
    one_qubit: &G1,
    two_qubit: &G2,
) -> (c: Circuit<T>)
    requires
        n_qubits >= 2,
        forall|k: u64, a: u64| #[trigger] one_qubit.requires((k, a)),
        forall|k: u64, a: u64| #[trigger] two_qubit.requires((k, a)),
        forall|k: u64, a: u64, g: DenseGate<T>| #[trigger] call_ensures(*one_qubit, (k, a), g) ==> g.wf()
            && g.arity() == 1,
        forall|k: u64, a: u64, g: DenseGate<T>| #[trigger] call_ensures(*two_qubit, (k, a), g) ==> g.wf()
            && g.arity() == 2,
    ensures
        c.wf(),
        c.n() == n_qubits,
        c.ops_seq().len() == n_gates,
        forall|k: int| 0 <= k < n_gates ==> #[trigger] op_from_draw(
            c.ops_seq()[k],
            circuit_draws(seed, n_qubits as u64, n_gates as nat).1[k],
            *one_qubit,
            *two_qubit,
        ),
{
    let n: u64 = n_qubits as u64;
    let mut rng = SplitMix64::new(seed);
    let mut c: Circuit<T> = Circuit::new(n_qubits);
    let mut i: usize = 0;
    while i < n_gates
        invariant
            n == n_qubits as u64,
            n >= 2,
            forall|k: u64, a: u64| #[trigger] one_qubit.requires((k, a)),
            forall|k: u64, a: u64| #[trigger] two_qubit.requires((k, a)),
            forall|k: u64, a: u64, g: DenseGate<T>| #[trigger] call_ensures(*one_qubit, (k, a), g) ==> g.wf()
                && g.arity() == 1,
            forall|k: u64, a: u64, g: DenseGate<T>| #[trigger] call_ensures(*two_qubit, (k, a), g) ==> g.wf()
                && g.arity() == 2,
            i <= n_gates,
            c.wf(),
            c.n() == n_qubits,
            c.ops_seq().len() == i,
            rng@ == circuit_draws(seed, n, i as nat).0,
            forall|k: int| 0 <= k < i ==> #[trigger] op_from_draw(
                c.ops_seq()[k],
                circuit_draws(seed, n, i as nat).1[k],
                *one_qubit,
                *two_qubit,
            ),
        decreases n_gates - i,
    {
        let ghost before = c.ops_seq();
        let ghost draws = circuit_draws(seed, n, i as nat).1;
        proof {
            lemma_circuit_draws_len(seed, n, i as nat);
        }
        let ghost next = gate_draw(rng@, n);
        push_random_gate(&mut c, &mut rng, n, one_qubit, two_qubit);
        proof {
            let now = circuit_draws(seed, n, (i + 1) as nat).1;
            assert(now == draws.push(next.1));
            assert forall|k: int| 0 <= k < i + 1 implies #[trigger] op_from_draw(
                c.ops_seq()[k],
                now[k],
                *one_qubit,
                *two_qubit,
            ) by {
                if k < i {
                    assert(c.ops_seq()[k] == before[k]);
                    assert(now[k] == draws[k]);
                } else {
                    assert(c.ops_seq()[k] == c.ops_seq().last());
                    assert(now[k] == next.1);
                }
            }
        }
        i = i + 1;
    }
    c
}

/// Same seed, same circuit: two random circuits of the same size, gate count and seed, built by
/// the same deterministic gate constructors, apply the same gates to the same qubits.
pub proof fn lemma_random_circuit_reproducible<T, G1: Fn(u64, u64) -> DenseGate<T>, G2: Fn(u64, u64) -> DenseGate<T>>(
    c1: Circuit<T>,
    c2: Circuit<T>,
    n_qubits: u32,
    n_gates: nat,
    seed: u64,
    one_qubit: G1,
    two_qubit: G2,
)
    requires
        c1.ops_seq().len() == n_gates,
        c2.ops_seq().len() == n_gates,
        forall|k: int| 0 <= k < n_gates ==> #[trigger] op_from_draw(
            c1.ops_seq()[k],
            circuit_draws(seed, n_qubits as u64, n_gates).1[k],
            one_qubit,
            two_qubit,
        ),
        forall|k: int| 0 <= k < n_gates ==> #[trigger] op_from_draw(
            c2.ops_seq()[k],
            circuit_draws(seed, n_qubits as u64, n_gates).1[k],
            one_qubit,
            two_qubit,
        ),
        forall|k: u64, a: u64, g1: DenseGate<T>, g2: DenseGate<T>|
            call_ensures(one_qubit, (k, a), g1) && call_ensures(one_qubit, (k, a), g2) ==> g1 == g2,
        forall|k: u64, a: u64, g1: DenseGate<T>, g2: DenseGate<T>|
            call_ensures(two_qubit, (k, a), g1) && call_ensures(two_qubit, (k, a), g2) ==> g1 == g2,
    ensures
        forall|k: int| #![trigger c1.ops_seq()[k], c2.ops_seq()[k]]
            0 <= k < n_gates ==> c1.ops_seq()[k].gate_spec() == c2.ops_seq()[k].gate_spec()
                && c1.ops_seq()[k].qubits_spec() == c2.ops_seq()[k].qubits_spec(),
{
    lemma_circuit_draws_len(seed, n_qubits as u64, n_gates);
    assert forall|k: int| #![trigger c1.ops_seq()[k], c2.ops_seq()[k]]
        0 <= k < n_gates implies c1.ops_seq()[k].gate_spec() == c2.ops_seq()[k].gate_spec()
            && c1.ops_seq()[k].qubits_spec() == c2.ops_seq()[k].qubits_spec() by {
        let d = circuit_draws(seed, n_qubits as u64, n_gates).1[k];
        assert(op_from_draw(c1.ops_seq()[k], d, one_qubit, two_qubit));
        assert(op_from_draw(c2.ops_seq()[k], d, one_qubit, two_qubit));
        if d.kind <= 10 {
            assert(call_ensures(one_qubit, (d.kind, d.angle), c1.ops_seq()[k].gate_spec()));
            assert(call_ensures(one_qubit, (d.kind, d.angle), c2.ops_seq()[k].gate_spec()));
        } else {
            assert(call_ensures(two_qubit, (d.kind2, d.angle), c1.ops_seq()[k].gate_spec()));
            assert(call_ensures(two_qubit, (d.kind2, d.angle), c2.ops_seq()[k].gate_spec()));
        }
    }
}

/// `op` applies a copy of `g` to `qubits`.
pub open spec fn op_is<T>(op: GateOp<T>, qubits: Seq<u32>, g: DenseGate<T>) -> bool {
    &&& op.qubits_spec() == qubits
    &&& op.gate_spec().arity() == g.arity()
    &&& op.gate_spec().entries() == g.entries()
}

/// GHZ state preparation on `n ≥ 1` qubits: `h` on qubit 0, then `cx` on `(0, q)` for
/// `q = 1..n`.
pub fn ghz<T: Copy>(n: u32, h: &DenseGate<T>, cx: &DenseGate<T>) -> (c: Circuit<T>)
    requires
        n >= 1,
        h.wf(),
        h.arity() == 1,
        cx.wf(),
        cx.arity() == 2,
    ensures
        c.wf(),
        c.n() == n,
        c.ops_seq().len() == n,
        op_is(c.ops_seq()[0], seq![0u32], *h),
        forall|q: int| #![trigger c.ops_seq()[q]] 1 <= q < n ==> op_is(c.ops_seq()[q], seq![0u32, q as u32], *cx),
{
    let mut c: Circuit<T> = Circuit::new(n);
    let mut qs: Vec<u32> = Vec::new();
    qs.push(0);
    assert(qs@ == seq![0u32]);
    c.push(h.duplicate(), qs.as_slice());
    let mut q: u32 = 1;
    while q < n
        invariant
            1 <= q <= n,
            h.wf(),
            cx.wf(),
            cx.arity() == 2,
            c.wf(),
            c.n() == n,
            c.ops_seq().len() == q,
            op_is(c.ops_seq()[0], seq![0u32], *h),
            forall|k: int| #![trigger c.ops_seq()[k]] 1 <= k < q ==> op_is(c.ops_seq()[k], seq![0u32, k as u32], *cx),
        decreases n - q,
    {
        let ghost before = c.ops_seq();
        let mut pair: Vec<u32> = Vec::new();
        pair.push(0);
        pair.push(q);
        assert(pair@ == seq![0u32, q]);
        c.push(cx.duplicate(), pair.as_slice());
        assert forall|k: int| #![trigger c.ops_seq()[k]] 1 <= k < q + 1 implies op_is(c.ops_seq()[k], seq![0u32, k as u32], *cx) by {
            if k < q {
                assert(c.ops_seq()[k] == before[k]);
            }
        }
        assert(c.ops_seq()[0] == before[0]);
        q = q + 1;
    }
    c
}

/// One step of the quantum Fourier transform circuit.
#[derive(Clone, Copy, Debug)]
pub enum QftStep {
    /// A Hadamard on a qubit.
    Hadamard(u32),
    /// The controlled phase `π / 2^k` on `(control, target)`: `Phase(k, control, target)`.
    Phase(u32, u32, u32),
    /// A swap of two qubits.
    Swap(u32, u32),
}

/// Layer `j` of the QFT on `n` qubits: a Hadamard on `j`, then the controlled phases
/// `π / 2^(k - j)` on `(k, j)` for `k = j + 1 .. n`.
pub open spec fn qft_layer(n: u32, j: u32) -> Seq<QftStep> {
    seq![QftStep::Hadamard(j)] + Seq::new(
        (n - j - 1) as nat,
        |t: int| QftStep::Phase((t + 1) as u32, (j + t + 1) as u32, j),
    )
}

/// Layers `0 .. j` of the QFT on `n` qubits.
pub open spec fn qft_layers(n: u32, j: nat) -> Seq<QftStep>
    decreases j,
{
    if j == 0 {
        Seq::empty()
    } else {
        qft_layers(n, (j - 1) as nat) + qft_layer(n, (j - 1) as u32)
    }
}

/// The closing bit-reversal: swaps of `(j, n - 1 - j)` for `j < n / 2`.
pub open spec fn qft_swaps(n: u32) -> Seq<QftStep> {
    Seq::new((n / 2) as nat, |j: int| QftStep::Swap(j as u32, (n - 1 - j) as u32))
}

/// The QFT on `n` qubits, step by step: its `n` layers, then the swaps.
pub open spec fn qft_steps(n: u32) -> Seq<QftStep> {
    qft_layers(n, n as nat) + qft_swaps(n)
}

/// `op` carries out `step`: a copy of `h` or `swap`, or a result of `cphase(k)`.
pub open spec fn op_does<T, P: Fn(u32) -> DenseGate<T>>(
    op: GateOp<T>,
    step: QftStep,
    h: DenseGate<T>,
    cphase: P,
    swap: DenseGate<T>,
) -> bool {
    match step {
        QftStep::Hadamard(q) => op_is(op, seq![q], h),
        QftStep::Phase(k, a, b) => op.qubits_spec() == seq![a, b] && call_ensures(cphase, (k,), op.gate_spec()),
        QftStep::Swap(a, b) => op_is(op, seq![a, b], swap),
    }
}

/// Index of the first step of layer `j` in the QFT on `n` qubits: the layers before it hold
/// `n + (n - 1) + … + (n - j + 1)` steps.
pub open spec fn qft_layer_start(n: nat, j: nat) -> int {
    j * (2 * n + 1 - j) / 2
}

/// Layers `0 .. j` hold `j (2n + 1 - j) / 2` steps.
proof fn lemma_qft_layers_len(n: u32, j: nat)
    requires
        j <= n,
    ensures
        2 * qft_layers(n, j).len() == j * (2 * n + 1 - j),
    decreases j,
{
    if j > 0 {
        lemma_qft_layers_len(n, (j - 1) as nat);
        let jj = j as int;
        let nn = n as int;
        let jm = (j - 1) as nat;
        assert(jm as int == jj - 1);
        assert(2 * qft_layers(n, jm).len() == (jj - 1) * (2 * nn + 1 - (jj - 1)));
        assert((jj - 1) * (2 * nn + 1 - (jj - 1)) + 2 * (nn - (jj - 1)) == jj * (2 * nn + 1 - jj))
            by (nonlinear_arith);
        assert(qft_layer(n, (j - 1) as u32).len() == nn - (jj - 1));
        assert(qft_layers(n, j).len() == qft_layers(n, (j - 1) as nat).len() + qft_layer(n, (j - 1) as u32).len());
        assert(2 * qft_layers(n, j).len() == jj * (2 * nn + 1 - jj));
    } else {
        assert(qft_layers(n, j).len() == 0);
        assert(0 * (2 * (n as int) + 1) == 0);
    }
}

/// Adding layers keeps the earlier steps in place.
proof fn lemma_qft_layers_prefix(n: u32, j: nat, k: nat, i: int)
    requires
        j <= k <= n,
        0 <= i < qft_layers(n, j).len(),
    ensures
        i < qft_layers(n, k).len(),
        qft_layers(n, k)[i] == qft_layers(n, j)[i],
    decreases k,
{
    if k > j {
        lemma_qft_layers_prefix(n, j, (k - 1) as nat, i);
    }
}

/// The start of layer `j` is `qft_layer_start(n, j)`, which is the number of steps before it.
proof fn lemma_qft_layer_start(n: u32, j: nat)
    requires
        j <= n,
    ensures
        qft_layers(n, j).len() == qft_layer_start(n as nat, j),
{
    lemma_qft_layers_len(n, j);
}

/// The QFT circuit on `n` qubits step by step, in closed form: layer `j < n` begins at step
/// `qft_layer_start(n, j)` with a Hadamard on `j`, followed by the controlled phases
/// `π / 2^t` on `(j + t, j)` for `t = 1 .. n - j`; after the `n (n + 1) / 2` layer steps come
/// exactly `⌊n / 2⌋` steps, the bit-reversal swaps of `(j, n - 1 - j)` for `j < n / 2`; and no
/// layer step is a swap.
pub proof fn lemma_qft_structure(n: u32)
    ensures
        qft_layer_start(n as nat, n as nat) == n * (n + 1) / 2,
        qft_steps(n).len() == n * (n + 1) / 2 + n / 2,
        forall|j: int| #![trigger qft_layer_start(n as nat, j as nat)]
            0 <= j < n ==> 0 <= qft_layer_start(n as nat, j as nat) && qft_layer_start(n as nat, j as nat) + (n - j)
                <= n * (n + 1) / 2,
        forall|j: int| #![trigger qft_layer_start(n as nat, j as nat)]
            0 <= j < n ==> qft_steps(n)[qft_layer_start(n as nat, j as nat)] == QftStep::Hadamard(j as u32),
        forall|j: int, t: int| #![trigger qft_steps(n)[qft_layer_start(n as nat, j as nat) + t]]
            0 <= j < n && 1 <= t < n - j ==> qft_steps(n)[qft_layer_start(n as nat, j as nat) + t]
                == QftStep::Phase(t as u32, (j + t) as u32, j as u32),
        forall|i: int| #![trigger qft_steps(n)[i]]
            0 <= i < n * (n + 1) / 2 ==> !(qft_steps(n)[i] is Swap),
        forall|i: int| #![trigger qft_steps(n)[i]]
            n * (n + 1) / 2 <= i < qft_steps(n).len() ==> qft_steps(n)[i] == QftStep::Swap(
                (i - n * (n + 1) / 2) as u32,
                (n - 1 - (i - n * (n + 1) / 2)) as u32,
            ),
{
    let nn = n as int;
    lemma_qft_layer_start(n, n as nat);
    assert(nn * (2 * nn + 1 - nn) == nn * (nn + 1)) by (nonlinear_arith);
    let all = qft_layers(n, n as nat);
    let tot = n * (n + 1) / 2;
    assert(all.len() == tot);
    assert forall|j: int, t: int| 0 <= j < n && 0 <= t < n - j implies #[trigger] qft_steps(n)[
        qft_layer_start(n as nat, j as nat) + t] == qft_layer(n, j as u32)[t] by {
        lemma_qft_layer_start(n, j as nat);
        assert(qft_layers(n, (j + 1) as nat) == qft_layers(n, j as nat) + qft_layer(n, j as u32));
        let i = qft_layer_start(n as nat, j as nat) + t;
        lemma_qft_layers_prefix(n, (j + 1) as nat, n as nat, i);
    }
    assert forall|j: int| 0 <= j < n implies 0 <= #[trigger] qft_layer_start(n as nat, j as nat)
        && qft_layer_start(n as nat, j as nat) + (n - j) <= tot by {
        lemma_qft_layer_start(n, j as nat);
        assert(qft_layers(n, (j + 1) as nat) == qft_layers(n, j as nat) + qft_layer(n, j as u32));
        let last = qft_layers(n, (j + 1) as nat).len() - 1;
        lemma_qft_layers_prefix(n, (j + 1) as nat, n as nat, last);
    }
    assert forall|j: int| 0 <= j < n implies #[trigger] qft_steps(n)[qft_layer_start(n as nat, j as nat)]
        == QftStep::Hadamard(j as u32) by {
        assert(qft_steps(n)[qft_layer_start(n as nat, j as nat) + 0] == qft_layer(n, j as u32)[0]);
    }
    assert forall|j: int, t: int| 0 <= j < n && 1 <= t < n - j implies #[trigger] qft_steps(n)[qft_layer_start(
        n as nat,
        j as nat,
    ) + t] == QftStep::Phase(t as u32, (j + t) as u32, j as u32) by {
        assert(qft_steps(n)[qft_layer_start(n as nat, j as nat) + t] == qft_layer(n, j as u32)[t]);
    }
    assert forall|i: int| 0 <= i < tot implies !(#[trigger] qft_steps(n)[i] is Swap) by {
        lemma_qft_layers_no_swap(n, n as nat, i);
    }
}

/// No layer step is a swap.
proof fn lemma_qft_layers_no_swap(n: u32, j: nat, i: int)
    requires
        j <= n,
        0 <= i < qft_layers(n, j).len(),
    ensures
        !(qft_layers(n, j)[i] is Swap),
    decreases j,
{
    let prev = qft_layers(n, (j - 1) as nat);
    if i < prev.len() {
        lemma_qft_layers_no_swap(n, (j - 1) as nat, i);
    }
}

/// The quantum Fourier transform on `n` qubits (see [`qft_steps`]). Applied to `|0…0⟩` it
/// produces the uniform superposition. `cphase(k)` builds the controlled phase `π / 2^k`.
pub fn qft<T: Copy, P: Fn(u32) -> DenseGate<T>>(
    n: u32,
    h: &DenseGate<T>,
    cphase: &P,
    swap: &DenseGate<T>,
) -> (c: Circuit<T>)
    requires
        h.wf(),
        h.arity() == 1,
        swap.wf(),
        swap.arity() == 2,
        forall|k: u32| #[trigger] cphase.requires((k,)),
        forall|k: u32, g: DenseGate<T>| #[trigger] call_ensures(*cphase, (k,), g) ==> g.wf() && g.arity() == 2,
    ensures
        c.wf(),
        c.n() == n,
        c.ops_seq().len() == qft_steps(n).len(),
        forall|i: int| #![trigger c.ops_seq()[i]]
            0 <= i < c.ops_seq().len() ==> op_does(c.ops_seq()[i], qft_steps(n)[i], *h, *cphase, *swap),
        c.ops_seq().len() == n * (n + 1) / 2 + n / 2,
        forall|j: int| #![trigger c.ops_seq()[qft_layer_start(n as nat, j as nat)]]
            0 <= j < n ==> op_is(c.ops_seq()[qft_layer_start(n as nat, j as nat)], seq![j as u32], *h),
        forall|j: int, t: int| #![trigger c.ops_seq()[qft_layer_start(n as nat, j as nat) + t]]
            0 <= j < n && 1 <= t < n - j ==> {
                let op = c.ops_seq()[qft_layer_start(n as nat, j as nat) + t];
                &&& op.qubits_spec() == seq![(j + t) as u32, j as u32]
                &&& call_ensures(*cphase, (t as u32,), op.gate_spec())
            },
        forall|i: int| #![trigger c.ops_seq()[i]]
            n * (n + 1) / 2 <= i < c.ops_seq().len() ==> op_is(
                c.ops_seq()[i],
                seq![(i - n * (n + 1) / 2) as u32, (n - 1 - (i - n * (n + 1) / 2)) as u32],
                *swap,
            ),
{
    let mut c: Circuit<T> = Circuit::new(n);
    let ghost mut target: Seq<QftStep> = Seq::empty();
    let mut j: u32 = 0;
    while j < n
        invariant
            j <= n,
            h.wf(),
            h.arity() == 1,
            forall|k: u32| #[trigger] cphase.requires((k,)),
            forall|k: u32, g: DenseGate<T>| #[trigger] call_ensures(*cphase, (k,), g) ==> g.wf() && g.arity() == 2,
            c.wf(),
            c.n() == n,
            target == qft_layers(n, j as nat),
            c.ops_seq().len() == target.len(),
            forall|i: int| #![trigger c.ops_seq()[i]]
                0 <= i < target.len() ==> op_does(c.ops_seq()[i], target[i], *h, *cphase, *swap),
        decreases n - j,
    {
        let ghost layers = target;
        let ghost before = c.ops_seq();
        let mut one: Vec<u32> = Vec::new();
        one.push(j);
        assert(one@ == seq![j]);
        c.push(h.duplicate(), one.as_slice());
        proof {
            target = target.push(QftStep::Hadamard(j));
            assert forall|i: int| #![trigger c.ops_seq()[i]] 0 <= i < target.len() implies op_does(
                c.ops_seq()[i],
                target[i],
                *h,
                *cphase,
                *swap,
            ) by {
                if i < before.len() {
                    assert(c.ops_seq()[i] == before[i]);
                }
            }
            assert(target =~= layers + qft_layer(n, j).take(1));
        }
        let mut k: u32 = j + 1;
        while k < n
            invariant
                j < n,
                j < k <= n,
                forall|k: u32| #[trigger] cphase.requires((k,)),
                forall|k: u32, g: DenseGate<T>| #[trigger] call_ensures(*cphase, (k,), g) ==> g.wf() && g.arity()
                    == 2,
                c.wf(),
                c.n() == n,
                layers == qft_layers(n, j as nat),
                target == layers + qft_layer(n, j).take((k - j) as int),
                c.ops_seq().len() == target.len(),
                forall|i: int| #![trigger c.ops_seq()[i]]
                    0 <= i < target.len() ==> op_does(c.ops_seq()[i], target[i], *h, *cphase, *swap),
            decreases n - k,
        {
            let ghost prev = c.ops_seq();
            let g = cphase(k - j);
            let mut pair: Vec<u32> = Vec::new();
            pair.push(k);
            pair.push(j);
            assert(pair@ == seq![k, j]);
            c.push(g, pair.as_slice());
            proof {
                let step = QftStep::Phase((k - j) as u32, k, j);
                assert(qft_layer(n, j)[(k - j) as int] == step);
                assert(layers + qft_layer(n, j).take((k - j + 1) as int) =~= target.push(step));
                target = target.push(step);
                assert forall|i: int| #![trigger c.ops_seq()[i]] 0 <= i < target.len() implies op_does(
                    c.ops_seq()[i],
                    target[i],
                    *h,
                    *cphase,
                    *swap,
                ) by {
                    if i < prev.len() {
                        assert(c.ops_seq()[i] == prev[i]);
                    }
                }
            }
            k = k + 1;
        }
        proof {
            assert(qft_layer(n, j).take((n - j) as int) =~= qft_layer(n, j));
            assert(qft_layers(n, (j + 1) as nat) == layers + qft_layer(n, j));
        }
        j = j + 1;
    }
    let ghost layers = target;
    let mut s: u32 = 0;
    while s < n / 2
        invariant
            s <= n / 2,
            swap.wf(),
            swap.arity() == 2,
            c.wf(),
            c.n() == n,
            layers == qft_layers(n, n as nat),
            target == layers + qft_swaps(n).take(s as int),
            c.ops_seq().len() == target.len(),
            forall|i: int| #![trigger c.ops_seq()[i]]
                0 <= i < target.len() ==> op_does(c.ops_seq()[i], target[i], *h, *cphase, *swap),
        decreases n / 2 - s,
    {
        let ghost prev = c.ops_seq();
        let mut pair: Vec<u32> = Vec::new();
        pair.push(s);
        pair.push(n - 1 - s);
        assert(pair@ == seq![s, (n - 1 - s) as u32]);
        c.push(swap.duplicate(), pair.as_slice());
        proof {
            let step = QftStep::Swap(s, (n - 1 - s) as u32);
            assert(qft_swaps(n)[s as int] == step);
            assert(layers + qft_swaps(n).take((s + 1) as int) =~= target.push(step));
            target = target.push(step);
            assert forall|i: int| #![trigger c.ops_seq()[i]] 0 <= i < target.len() implies op_does(
                c.ops_seq()[i],
                target[i],
                *h,
                *cphase,
                *swap,
            ) by {
                if i < prev.len() {
                    assert(c.ops_seq()[i] == prev[i]);
                }
            }
        }
        s = s + 1;
    }
    assert(qft_swaps(n).take((n / 2) as int) =~= qft_swaps(n));
    assert(target == qft_steps(n));
    proof {
        lemma_qft_structure(n);
        assert forall|j: int| 0 <= j < n implies op_is(
            #[trigger] c.ops_seq()[qft_layer_start(n as nat, j as nat)],
            seq![j as u32],
            *h,
        ) by {
            assert(0 <= qft_layer_start(n as nat, j as nat) < c.ops_seq().len());
            assert(qft_steps(n)[qft_layer_start(n as nat, j as nat)] == QftStep::Hadamard(j as u32));
        }
        assert forall|j: int, t: int| 0 <= j < n && 1 <= t < n - j implies {
            let op = #[trigger] c.ops_seq()[qft_layer_start(n as nat, j as nat) + t];
            &&& op.qubits_spec() == seq![(j + t) as u32, j as u32]
            &&& call_ensures(*cphase, (t as u32,), op.gate_spec())
        } by {
            assert(qft_layer_start(n as nat, j as nat) + (n - j) <= n * (n + 1) / 2);
            assert(0 <= qft_layer_start(n as nat, j as nat) + t < c.ops_seq().len());
            assert(qft_steps(n)[qft_layer_start(n as nat, j as nat) + t] == QftStep::Phase(
                t as u32,
                (j + t) as u32,
                j as u32,
            ));
        }
    }
    c
}

} // verus!
