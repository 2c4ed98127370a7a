//! Deterministic PRNG (splitmix64). Integer-only so every platform deals the
//! identical daily gauntlet from a seed.

use vstd::arithmetic::div_mod::lemma_fundamental_div_mod_converse;
use vstd::prelude::*;
use vstd::string::StringSliceAdditionalSpecFns;
use vstd::wrapping::u64_specs;

verus! {

/// The splitmix64 increment (the golden-ratio constant).
pub const GAMMA: u64 = 0x9E37_79B9_7F4A_7C15;

/// The multiplicative inverse of `GAMMA` modulo 2^64.
pub const GAMMA_INV: u64 = 0xF1DE_83E1_9937_733D;

/// FNV-1a offset basis and prime.
pub const FNV_OFFSET: u64 = 0xCBF2_9CE4_8422_2325;

pub const FNV_PRIME: u64 = 0x0000_0100_0000_01B3;

/// The state after one step.
pub open spec fn advance(s: u64) -> u64 {
    u64_specs::wrapping_add(s, GAMMA)
}

/// The splitmix64 output function.
pub open spec fn mix_of(z: u64) -> u64 {
    let a = u64_specs::wrapping_mul(z ^ (z >> 30u64), 0xBF58_476D_1CE4_E5B9u64);
    let b = u64_specs::wrapping_mul(a ^ (a >> 27u64), 0x94D0_49BB_1331_11EBu64);
    b ^ (b >> 31u64)
}

/// The rejection threshold: the largest multiple of `n` that fits in a u64.
pub open spec fn zone_of(n: u64) -> u64 {
    (u64::MAX - u64::MAX % n) as u64
}

pub open spec fn modulus() -> int {
    0x1_0000_0000_0000_0000
}

/// How many increments take state `s` to the state 0.
pub open spec fn steps_to_zero(s: u64) -> nat {
    (((modulus() - s) * GAMMA_INV) % modulus()) as nat
}

/// The loop measure of the rejection sampler: increments until the state 0,
/// whose output is 0 and is always accepted.
pub open spec fn rejection_measure(s: u64) -> nat {
    if s == 0 {
        modulus() as nat
    } else {
        steps_to_zero(s)
    }
}

pub proof fn lemma_gamma_inverse()
    ensures
        GAMMA as int * GAMMA_INV as int == 1 + 10771413168148108919int * modulus(),
{
}

pub proof fn lemma_mix_zero()
    ensures
        mix_of(0) == 0,
{
    assert(0u64 ^ (0u64 >> 30u64) == 0) by (bit_vector);
    assert(0u64 ^ (0u64 >> 27u64) == 0) by (bit_vector);
    assert(0u64 ^ (0u64 >> 31u64) == 0) by (bit_vector);
}

pub proof fn lemma_steps_zero(s: u64)
    requires
        steps_to_zero(s) == 0,
    ensures
        s == 0,
{
    let m = modulus();
    let t = (m - s) * GAMMA_INV;
    assert(t >= 0) by (nonlinear_arith)
        requires
            m - s >= 0,
            GAMMA_INV >= 0,
            t == (m - s) * GAMMA_INV,
    ;
    let q = t / m;
    vstd::arithmetic::div_mod::lemma_fundamental_div_mod(t, m);
    assert(t == q * m) by (nonlinear_arith)
        requires
            t == m * (t / m) + t % m,
            t % m == 0,
            q == t / m,
    ;
    lemma_gamma_inverse();
    // (m - s) = (m - s) * (G * GI - K * m) = t * G - (m - s) * K * m
    assert(m - s == m * (q * GAMMA - (m - s) * 10771413168148108919int)) by (nonlinear_arith)
        requires
            t == (m - s) * GAMMA_INV,
            t == q * m,
            GAMMA as int * GAMMA_INV as int == 1 + 10771413168148108919int * m,
    ;
    let c = q * GAMMA - (m - s) * 10771413168148108919int;
    assert(c == 1) by (nonlinear_arith)
        requires
            m - s == m * c,
            0 < m - s <= m,
            m > 0,
    ;
}

pub proof fn lemma_steps_advance(s: u64)
    requires
        steps_to_zero(s) >= 1,
    ensures
        steps_to_zero(advance(s)) + 1 == steps_to_zero(s),
{
    let m = modulus();
    let s2 = advance(s);
    let c: int = if s + GAMMA > u64::MAX {
        1
    } else {
        0
    };
    assert(s2 == s + GAMMA - c * m);
    let a = (m - s) * GAMMA_INV;
    assert(a >= 0) by (nonlinear_arith)
        requires
            m - s >= 0,
            a == (m - s) * GAMMA_INV,
    ;
    let qa = a / m;
    let ra = a % m;
    vstd::arithmetic::div_mod::lemma_fundamental_div_mod(a, m);
    lemma_gamma_inverse();
    let b = (m - s2) * GAMMA_INV;
    assert(b == m * (qa - 10771413168148108919int + c * GAMMA_INV) + (ra - 1)) by (nonlinear_arith)
        requires
            b == (m - s2) * GAMMA_INV,
            s2 == s + GAMMA - c * m,
            a == (m - s) * GAMMA_INV,
            a == m * qa + ra,
            GAMMA as int * GAMMA_INV as int == 1 + 10771413168148108919int * m,
    ;
    lemma_fundamental_div_mod_converse(
        b,
        m,
        qa - 10771413168148108919int + c * GAMMA_INV,
        ra - 1,
    );
}

/// The rejection measure drops by one on every step that does not reach 0.
pub proof fn lemma_measure_advance(s: u64)
    requires
        advance(s) != 0,
    ensures
        rejection_measure(advance(s)) < rejection_measure(s),
{
    if s == 0 {
        assert(advance(0) == GAMMA);
        if steps_to_zero(GAMMA) == 0 {
            lemma_steps_zero(GAMMA);
        }
    } else {
        if steps_to_zero(s) == 0 {
            lemma_steps_zero(s);
        }
        lemma_steps_advance(s);
        if steps_to_zero(advance(s)) == 0 {
            lemma_steps_zero(advance(s));
        }
    }
}

/// Rejection sampling in `0..n`: the value and the state after it.
pub open spec fn below_of(s: u64, n: u64) -> (u64, u64)
    decreases rejection_measure(s),
{
    let s1 = advance(s);
    let v = mix_of(s1);
    if n == 0 || v < zone_of(n) {
        (if n == 0 { 0 } else { (v % n) as u64 }, s1)
    } else {
        proof {
            lemma_mix_zero();
            lemma_measure_advance(s);
        }
        below_of(s1, n)
    }
}

/// The sampled value is in range.
pub proof fn lemma_below_of_range(s: u64, n: u64)
    requires
        n > 0,
    ensures
        below_of(s, n).0 < n,
    decreases rejection_measure(s),
{
    let s1 = advance(s);
    let v = mix_of(s1);
    if !(v < zone_of(n)) {
        lemma_mix_zero();
        lemma_measure_advance(s);
        lemma_below_of_range(s1, n);
    }
}

/// Uniform choice of a slot, as the weighted pick walks the weights.
pub open spec fn weighted_index(ws: Seq<u64>, roll: int) -> nat
    decreases ws.len(),
{
    if ws.len() == 0 {
        0
    } else if roll < ws[0] {
        0
    } else {
        1 + weighted_index(ws.drop_first(), roll - ws[0])
    }
}

/// Sum of a weight list.
pub open spec fn sum_of(ws: Seq<u64>) -> nat
    decreases ws.len(),
{
    if ws.len() == 0 {
        0
    } else {
        sum_of(ws.drop_last()) + ws.last() as nat
    }
}

pub open spec fn swap_of<T>(s: Seq<T>, i: int, j: int) -> Seq<T> {
    s.update(i, s[j]).update(j, s[i])
}

/// The Fisher–Yates passes from index `i` down to 1.
pub open spec fn shuffle_from<T>(state: u64, s: Seq<T>, i: nat) -> (Seq<T>, u64)
    decreases i,
{
    if i == 0 {
        (s, state)
    } else {
        let (j, st) = below_of(state, (i + 1) as u64);
        shuffle_from(st, swap_of(s, i as int, j as int), (i - 1) as nat)
    }
}

pub open spec fn shuffle_of<T>(state: u64, s: Seq<T>) -> (Seq<T>, u64) {
    if s.len() <= 1 {
        (s, state)
    } else {
        shuffle_from(state, s, (s.len() - 1) as nat)
    }
}

/// FNV-1a over a byte string.
pub open spec fn fnv_of(b: Seq<u8>) -> u64
    decreases b.len(),
{
    if b.len() == 0 {
        FNV_OFFSET
    } else {
        u64_specs::wrapping_mul(fnv_of(b.drop_last()) ^ (b.last() as u64), FNV_PRIME)
    }
}

#[derive(Clone, Debug)]
pub struct Rng {
    state: u64,
}

impl View for Rng {
    type V = u64;

    /// The generator is its 64-bit state.
    closed spec fn view(&self) -> u64 {
        self.state
    }
}

impl Rng {
    pub fn new(seed: u64) -> (r: Rng)
        ensures
            r@ == seed,
    {
        Rng { state: seed }
    }

    pub fn next_u64(&mut self) -> (v: u64)
        ensures
            final(self)@ == advance(old(self)@),
            v == mix_of(final(self)@),
    {
        self.state = self.state.wrapping_add(0x9E37_79B9_7F4A_7C15);
        let mut z = self.state;
        z = (z ^ (z >> 30)).wrapping_mul(0xBF58_476D_1CE4_E5B9);
        z = (z ^ (z >> 27)).wrapping_mul(0x94D0_49BB_1331_11EB);
        z ^ (z >> 31)
    }

    /// Uniform in `0..n` (n > 0), via rejection to avoid modulo bias.
    pub fn below(&mut self, n: u64) -> (v: u64)
        requires
            n > 0,
        ensures
            (v, final(self)@) == below_of(old(self)@, n),
            v < n,
    {
        let zone = u64::MAX - u64::MAX % n;
        loop
            invariant
                n > 0,
                zone == zone_of(n),
                below_of(self@, n) == below_of(old(self)@, n),
            decreases rejection_measure(self@),
        {
            let ghost before = self@;
            let v = self.next_u64();
            if v < zone {
                return v % n;
            }
            proof {
                lemma_mix_zero();
                lemma_measure_advance(before);
            }
        }
    }

    pub fn chance(&mut self, permille: u64) -> (b: bool)
        ensures
            b == (below_of(old(self)@, 1000).0 < permille),
            final(self)@ == below_of(old(self)@, 1000).1,
    {
        self.below(1000) < permille
    }

    pub fn pick<'a, T>(&mut self, items: &'a [T]) -> (r: &'a T)
        requires
            items@.len() > 0,
        ensures
            below_of(old(self)@, items@.len() as u64).0 < items@.len(),
            *r == items@[below_of(old(self)@, items@.len() as u64).0 as int],
            final(self)@ == below_of(old(self)@, items@.len() as u64).1,
    {
        let i = self.below(items.len() as u64);
        &items[i as usize]
    }

    /// Weighted pick; weights need not be normalized.
    pub fn pick_weighted(&mut self, weights: &[u64]) -> (i: usize)
        requires
            0 < sum_of(weights@) <= u64::MAX,
        ensures
            ({
                let (roll, st) = below_of(old(self)@, sum_of(weights@) as u64);
                &&& i == weighted_index(weights@, roll as int)
                &&& i < weights@.len()
                &&& final(self)@ == st
            }),
    {
        let mut total: u64 = 0;
        let mut k: usize = 0;
        while k < weights.len()
            invariant
                k <= weights@.len(),
                total == sum_of(weights@.take(k as int)),
                sum_of(weights@) <= u64::MAX,
            decreases weights.len() - k,
        {
            proof {
                assert(weights@.take(k + 1).drop_last() =~= weights@.take(k as int));
                lemma_sum_prefix_le(weights@, k + 1);
            }
            total = total + weights[k];
            k = k + 1;
        }
        assert(weights@.take(k as int) =~= weights@);
        let mut roll = self.below(total);
        let ghost roll0 = roll;
        assert(weights@.skip(0) =~= weights@);
        let mut i: usize = 0;
        while i < weights.len()
            invariant
                i <= weights@.len(),
                total == sum_of(weights@),
                (roll0, self@) == below_of(old(self)@, total),
                roll < sum_of(weights@.skip(i as int)),
                weighted_index(weights@, roll0 as int) == i + weighted_index(
                    weights@.skip(i as int),
                    roll as int,
                ),
            decreases weights.len() - i,
        {
            proof {
                lemma_sum_first(weights@.skip(i as int));
                assert(weights@.skip(i as int).drop_first() =~= weights@.skip(i + 1));
            }
            assert(weights@.skip(i as int)[0] == weights@[i as int]);
            if roll < weights[i] {
                return i;
            }
            roll = roll - weights[i];
            i = i + 1;
        }
        proof {
            assert(weights@.skip(i as int) =~= Seq::<u64>::empty());
        }
        i
    }

    pub fn shuffle<T>(&mut self, items: &mut [T])
        ensures
            (final(items)@, final(self)@) == shuffle_of(old(self)@, old(items)@),
    {
        let n = items.len();
        if n <= 1 {
            return ;
        }
        let mut i: usize = n - 1;
        while i >= 1
            invariant
                items@.len() == n,
                1 <= n,
                i < n,
                shuffle_of(old(self)@, old(items)@) == shuffle_from(self@, items@, i as nat),
            decreases i,
        {
            let j = self.below(i as u64 + 1);
            swap_items(items, i, j as usize);
            i = i - 1;
        }
    }
}

/// `<[T]>::swap`: exchanges two elements.
#[verifier::external_body]
fn swap_items<T>(items: &mut [T], i: usize, j: usize)
    requires
        i < old(items)@.len(),
        j < old(items)@.len(),
    ensures
        final(items)@ == swap_of(old(items)@, i as int, j as int),
{
    items.swap(i, j);
}

proof fn lemma_sum_prefix_le(ws: Seq<u64>, k: int)
    requires
        0 <= k <= ws.len(),
    ensures
        sum_of(ws.take(k)) <= sum_of(ws),
    decreases ws.len(),
{
    if k < ws.len() {
        assert(ws.drop_last().take(k) =~= ws.take(k));
        lemma_sum_prefix_le(ws.drop_last(), k);
    } else {
        assert(ws.take(k) =~= ws);
    }
}

proof fn lemma_sum_first(ws: Seq<u64>)
    requires
        ws.len() > 0,
    ensures
        sum_of(ws) == ws[0] + sum_of(ws.drop_first()),
    decreases ws.len(),
{
    if ws.len() > 1 {
        lemma_sum_first(ws.drop_last());
        assert(ws.drop_last().drop_first() =~= ws.drop_first().drop_last());
    } else {
        assert(ws.drop_first() =~= Seq::<u64>::empty());
        assert(ws.drop_last() =~= Seq::<u64>::empty());
    }
}

/// A weighted pick never lands on a slot of weight zero: any roll below the
/// total falls in a slot of the list with a positive weight.
pub proof fn lemma_weighted_pick_positive(ws: Seq<u64>, roll: int)
    requires
        0 <= roll < sum_of(ws),
    ensures
        weighted_index(ws, roll) < ws.len(),
        ws[weighted_index(ws, roll) as int] > 0,
    decreases ws.len(),
{
    lemma_sum_first(ws);
    if roll >= ws[0] {
        lemma_weighted_pick_positive(ws.drop_first(), roll - ws[0]);
        let i = weighted_index(ws.drop_first(), roll - ws[0]);
        assert(ws.drop_first()[i as int] == ws[i + 1int]);
    }
}

/// A weighted pick lands in the slot whose span of the running total holds
/// the roll: the weights before it sum to at most the roll, and with it to
/// more.
pub proof fn lemma_weighted_pick_span(ws: Seq<u64>, roll: int)
    requires
        0 <= roll < sum_of(ws),
    ensures
        sum_of(ws.take(weighted_index(ws, roll) as int)) <= roll < sum_of(
            ws.take(weighted_index(ws, roll) + 1int),
        ),
    decreases ws.len(),
{
    lemma_sum_first(ws);
    let i = weighted_index(ws, roll);
    assert(ws.take(0) =~= Seq::<u64>::empty());
    lemma_sum_first(ws.take(1));
    assert(ws.take(1).drop_first() =~= Seq::<u64>::empty());
    if roll >= ws[0] {
        let rest = ws.drop_first();
        lemma_weighted_pick_span(rest, roll - ws[0]);
        let j = weighted_index(rest, roll - ws[0]);
        assert(i == j + 1);
        lemma_weighted_pick_positive(rest, roll - ws[0]);
        lemma_sum_first(ws.take(i as int));
        lemma_sum_first(ws.take(i + 1int));
        assert(ws.take(i as int).drop_first() =~= rest.take(j as int));
        assert(ws.take(i + 1int).drop_first() =~= rest.take(j + 1int));
    }
}

/// Swapping two slots keeps what a sequence holds.
proof fn lemma_swap_multiset<T>(s: Seq<T>, i: int, j: int)
    requires
        0 <= i < s.len(),
        0 <= j < s.len(),
    ensures
        swap_of(s, i, j).to_multiset() == s.to_multiset(),
        swap_of(s, i, j).len() == s.len(),
{
    broadcast use vstd::seq_lib::to_multiset_update;
    broadcast use vstd::multiset::group_multiset_axioms;

    let s1 = s.update(i, s[j]);
    assert(s1[j] == s[j]);
    assert(s.to_multiset().count(s[i]) > 0) by {
        broadcast use vstd::seq_lib::to_multiset_contains;

        assert(s.contains(s[i]));
    }
    assert(s.to_multiset().insert(s[j]).remove(s[i]).insert(s[i]).remove(s[j]) =~= s.to_multiset());
}

proof fn lemma_shuffle_from_multiset<T>(state: u64, s: Seq<T>, i: nat)
    requires
        i < s.len() <= u64::MAX,
    ensures
        shuffle_from(state, s, i).0.to_multiset() == s.to_multiset(),
        shuffle_from(state, s, i).0.len() == s.len(),
    decreases i,
{
    if i > 0 {
        let (j, st) = below_of(state, (i + 1) as u64);
        lemma_below_of_range(state, (i + 1) as u64);
        lemma_swap_multiset(s, i as int, j as int);
        lemma_shuffle_from_multiset(st, swap_of(s, i as int, j as int), (i - 1) as nat);
    }
}

/// A shuffle is a permutation: it holds what it was given, each item as
/// often as before.
pub proof fn lemma_shuffle_permutes<T>(state: u64, s: Seq<T>)
    requires
        s.len() <= u64::MAX,
    ensures
        shuffle_of(state, s).0.len() == s.len(),
        shuffle_of(state, s).0.to_multiset() == s.to_multiset(),
{
    if s.len() > 1 {
        lemma_shuffle_from_multiset(state, s, (s.len() - 1) as nat);
    }
}

/// FNV-1a, used to turn share codes and dates into seeds.
pub fn hash_str(s: &str) -> (h: u64)
    ensures
        h == fnv_of(s.spec_bytes()),
{
    let bytes = s.as_bytes();
    let mut h: u64 = 0xCBF2_9CE4_8422_2325;
    let mut i: usize = 0;
    while i < bytes.len()
        invariant
            i <= bytes@.len(),
            bytes@ == s.spec_bytes(),
            h == fnv_of(bytes@.take(i as int)),
        decreases bytes.len() - i,
    {
        assert(bytes@.take(i + 1).drop_last() =~= bytes@.take(i as int));
        h ^= bytes[i] as u64;
        h = h.wrapping_mul(0x0000_0100_0000_01B3);
        i = i + 1;
    }
    assert(bytes@.take(i as int) =~= bytes@);
    h
}

} // verus!
