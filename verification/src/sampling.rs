//! A fixed random sample of indices, independent of the randomness of training.

use std::collections::BTreeSet;

use vstd::prelude::*;

use crate::shuffle::{splitmix_output, splitmix_step, SplitMix64};

verus! {

/// Two to the power of 64.
pub open spec fn word_count() -> int {
    0x1_0000_0000_0000_0000
}

/// The generator state after `t` draws from `seed`.
pub open spec fn state_after(seed: u64, t: nat) -> u64
    decreases t,
{
    if t == 0 {
        seed
    } else {
        splitmix_step(state_after(seed, (t - 1) as nat))
    }
}

/// Draws below this are thrown away, so that every remainder is equally likely.
pub open spec fn rejection_threshold(n: int) -> int {
    (word_count() - n) % n
}

/// The indices picked by the first `t` draws.
pub open spec fn picked(n: int, seed: u64, t: nat) -> Set<u32>
    decreases t,
{
    if t == 0 {
        Set::empty()
    } else {
        let before = picked(n, seed, (t - 1) as nat);
        let z = splitmix_output(state_after(seed, t));
        if z >= rejection_threshold(n) {
            before.insert((z as int % n) as u32)
        } else {
            before
        }
    }
}

/// How many indices are asked for: no more than there are.
pub open spec fn sample_size(n: int, count: int) -> int {
    if count < n {
        count
    } else {
        n
    }
}

/// Whether `t` draws are just enough for the sample.
pub open spec fn draws_suffice(n: int, count: int, seed: u64, t: nat) -> bool {
    &&& picked(n, seed, t).len() == sample_size(n, count)
    &&& t > 0 ==> picked(n, seed, (t - 1) as nat).len() < sample_size(n, count)
}

proof fn lemma_mul_inverse(z: u64, c: u64, inv: u64)
    requires
        (c as int * inv as int) % word_count() == 1,
    ensures
        vstd::wrapping::u64_specs::wrapping_mul(
            vstd::wrapping::u64_specs::wrapping_mul(z, inv),
            c,
        ) == z,
{
    let m = word_count();
    let p = vstd::wrapping::u64_specs::wrapping_mul(z, inv);
    assert(p as int == (z as int * inv as int) % m);
    let q = vstd::wrapping::u64_specs::wrapping_mul(p, c);
    assert(q as int == (p as int * c as int) % m);
    vstd::arithmetic::div_mod::lemma_mul_mod_noop_left(z as int * inv as int, c as int, m);
    assert(z as int * inv as int * c as int == z as int * (c as int * inv as int))
        by (nonlinear_arith);
    vstd::arithmetic::div_mod::lemma_mul_mod_noop_right(z as int, c as int * inv as int, m);
    vstd::arithmetic::div_mod::lemma_small_mod(z as nat, m as nat);
}

/// Every word is drawn from some state.
proof fn lemma_output_onto(z: u64) -> (state: u64)
    ensures
        splitmix_output(state) == z,
{
    let b = z ^ (z >> 31u64) ^ (z >> 62u64);
    assert((z ^ (z >> 31u64) ^ (z >> 62u64)) ^ ((z ^ (z >> 31u64) ^ (z >> 62u64)) >> 31u64) == z)
        by (bit_vector);
    let y = vstd::wrapping::u64_specs::wrapping_mul(b, 0x3196_42b2_d24d_8ec3u64);
    assert((0x94d0_49bb_1331_11ebu64 as int * 0x3196_42b2_d24d_8ec3u64 as int) % word_count() == 1);
    lemma_mul_inverse(b, 0x94d0_49bb_1331_11ebu64, 0x3196_42b2_d24d_8ec3u64);
    let a = y ^ (y >> 27u64) ^ (y >> 54u64);
    assert((y ^ (y >> 27u64) ^ (y >> 54u64)) ^ ((y ^ (y >> 27u64) ^ (y >> 54u64)) >> 27u64) == y)
        by (bit_vector);
    let x = vstd::wrapping::u64_specs::wrapping_mul(a, 0x96de_1b17_3f11_9089u64);
    assert((0xbf58_476d_1ce4_e5b9u64 as int * 0x96de_1b17_3f11_9089u64 as int) % word_count() == 1);
    lemma_mul_inverse(a, 0xbf58_476d_1ce4_e5b9u64, 0x96de_1b17_3f11_9089u64);
    let state = x ^ (x >> 30u64) ^ (x >> 60u64);
    assert((x ^ (x >> 30u64) ^ (x >> 60u64)) ^ ((x ^ (x >> 30u64) ^ (x >> 60u64)) >> 30u64) == x)
        by (bit_vector);
    state
}

/// The state after `t` draws in closed form.
proof fn lemma_state_after(seed: u64, t: nat)
    ensures
        state_after(seed, t) as int == (seed as int + t * 0x9e37_79b9_7f4a_7c15int) % word_count(),
    decreases t,
{
    let m = word_count();
    let g = 0x9e37_79b9_7f4a_7c15int;
    if t == 0 {
        vstd::arithmetic::div_mod::lemma_small_mod(seed as nat, m as nat);
    } else {
        let s = (t - 1) as nat;
        lemma_state_after(seed, s);
        let before = state_after(seed, s);
        assert(splitmix_step(before) as int == (before as int + g) % m) by {
            if before as int + g < m {
                vstd::arithmetic::div_mod::lemma_small_mod((before as int + g) as nat, m as nat);
            } else {
                vstd::arithmetic::div_mod::lemma_fundamental_div_mod_converse(
                    before as int + g,
                    m,
                    1,
                    before as int + g - m,
                );
            }
        }
        vstd::arithmetic::div_mod::lemma_add_mod_noop(seed as int + s * g, g, m);
        vstd::arithmetic::div_mod::lemma_small_mod(g as nat, m as nat);
        assert(seed as int + s * g + g == seed as int + t * g) by (nonlinear_arith)
            requires
                t == s + 1,
        ;
    }
}

/// Every state is reached within one round of the generator.
proof fn lemma_state_reached(seed: u64, state: u64) -> (t: nat)
    ensures
        1 <= t <= word_count(),
        state_after(seed, t) == state,
{
    let m = word_count();
    let g = 0x9e37_79b9_7f4a_7c15int;
    let inv = 0xf1de_83e1_9937_733dint;
    let d = (state as int - seed as int) * inv;
    let k = d % m;
    vstd::arithmetic::div_mod::lemma_mod_bound(d, m);
    let t = if k == 0 {
        m
    } else {
        k
    };
    lemma_state_after(seed, t as nat);
    // t * g is state - seed, up to whole rounds.
    assert((g * inv) % m == 1);
    assert((t * g) % m == (k * g) % m) by {
        if k == 0 {
            vstd::arithmetic::div_mod::lemma_mod_multiples_basic(g, m);
            vstd::arithmetic::mul::lemma_mul_is_commutative(g, m);
            assert(0 * g == 0);
            vstd::arithmetic::div_mod::lemma_small_mod(0, m as nat);
        }
    }
    vstd::arithmetic::div_mod::lemma_mul_mod_noop_left(d, g, m);
    let e = state as int - seed as int;
    assert(d * g == e * (g * inv)) by (nonlinear_arith)
        requires
            d == e * inv,
    ;
    vstd::arithmetic::div_mod::lemma_mul_mod_noop_right(e, g * inv, m);
    assert((t * g) % m == e % m);
    vstd::arithmetic::div_mod::lemma_add_mod_noop(seed as int, t * g, m);
    vstd::arithmetic::div_mod::lemma_add_mod_noop(seed as int, e, m);
    vstd::arithmetic::div_mod::lemma_small_mod(state as nat, m as nat);
    t as nat
}

/// What a draw picks stays picked.
proof fn lemma_picked(n: int, seed: u64, k: nat, t: nat)
    requires
        0 < n <= u32::MAX,
        1 <= k <= t,
        splitmix_output(state_after(seed, k)) >= rejection_threshold(n),
    ensures
        picked(n, seed, t).contains((splitmix_output(state_after(seed, k)) as int % n) as u32),
    decreases t,
{
    if k < t {
        lemma_picked(n, seed, k, (t - 1) as nat);
    }
}

/// Only indices below `n` are picked, and there are finitely many.
proof fn lemma_picked_below(n: int, seed: u64, t: nat)
    requires
        0 < n <= u32::MAX,
    ensures
        picked(n, seed, t).finite(),
        forall|i: u32| picked(n, seed, t).contains(i) ==> i < n,
    decreases t,
{
    if t > 0 {
        lemma_picked_below(n, seed, (t - 1) as nat);
    }
}

/// The numbers below `n`.
spec fn numbers_below(n: nat) -> Set<u32>
    decreases n,
{
    if n == 0 {
        Set::empty()
    } else {
        numbers_below((n - 1) as nat).insert((n - 1) as u32)
    }
}

proof fn lemma_numbers_below(n: nat)
    requires
        n <= u32::MAX,
    ensures
        numbers_below(n).finite(),
        numbers_below(n).len() == n,
        forall|i: u32| numbers_below(n).contains(i) <==> i < n,
    decreases n,
{
    if n > 0 {
        lemma_numbers_below((n - 1) as nat);
    }
}

/// A whole round of the generator picks every index.
proof fn lemma_round_picks_all(n: int, seed: u64, t: nat)
    requires
        0 < n <= u32::MAX,
        t >= word_count(),
    ensures
        picked(n, seed, t).len() == n,
{
    let m = word_count();
    lemma_picked_below(n, seed, t);
    lemma_numbers_below(n as nat);
    assert forall|i: u32| numbers_below(n as nat).contains(i) implies picked(n, seed, t).contains(
        i,
    ) by {
        let lo = m - n;
        let r = (i as int - lo) % n;
        vstd::arithmetic::div_mod::lemma_mod_bound(i as int - lo, n);
        let z = lo + r;
        // z is in the last stretch of n words and leaves the remainder i.
        vstd::arithmetic::div_mod::lemma_add_mod_noop_right(lo, i as int - lo, n);
        vstd::arithmetic::div_mod::lemma_small_mod(i as nat, n as nat);
        assert(z % n == i);
        vstd::arithmetic::div_mod::lemma_mod_bound(m - n, n);
        let state = lemma_output_onto(z as u64);
        let k = lemma_state_reached(seed, state);
        lemma_picked(n, seed, k, t);
    }
    assert(picked(n, seed, t) =~= numbers_below(n as nat));
}

/// A strictly increasing list.
pub open spec fn increasing(s: Seq<u32>) -> bool {
    forall|i: int, j: int| 0 <= i < j < s.len() ==> #[trigger] s[i] < #[trigger] s[j]
}

/// References to numbers are ordered as the numbers are.
proof fn lemma_order_of_references()
    ensures
        forall|s: Seq<&u32>| #[trigger]
            vstd::std_specs::btree::increasing_seq(s) ==> increasing(s.unref()),
{
    broadcast use vstd::std_specs::btree::group_btree_axioms;
    broadcast use vstd::laws_cmp::group_laws_cmp;

    reveal(vstd::laws_eq::obeys_eq_spec_properties);
    reveal(vstd::laws_cmp::obeys_partial_cmp_spec_properties);
    reveal(vstd::laws_cmp::obeys_cmp_partial_ord);
    reveal(vstd::laws_cmp::obeys_cmp_ord);
    assert(vstd::laws_cmp::obeys_cmp::<u32>());
    assert(vstd::laws_cmp::obeys_cmp::<&u32>());
    assert forall|s: Seq<&u32>| #[trigger]
        vstd::std_specs::btree::increasing_seq(s) implies increasing(s.unref()) by {
        let list = s.unref();
        assert forall|i: int, j: int| 0 <= i < j < list.len() implies #[trigger] list[i]
            < #[trigger] list[j] by {
            assert(vstd::std_specs::cmp::OrdSpec::cmp_spec(&s[i], &s[j]) is Less);
        }
    }
}

/// Puts an index into a set.
fn put(set: &mut BTreeSet<u32>, x: u32)
    ensures
        final(set)@ == old(set)@.insert(x),
{
    broadcast use vstd::laws_cmp::group_laws_cmp;

    set.insert(x);
}

/// How many indices a set has.
fn size_of_set(set: &BTreeSet<u32>) -> (r: usize)
    ensures
        r == set@.len(),
{
    broadcast use vstd::std_specs::btree::group_btree_axioms;
    broadcast use vstd::laws_cmp::group_laws_cmp;

    set.len()
}

/// The entries of a set, in increasing order.
fn listed(set: &BTreeSet<u32>) -> (r: Vec<u32>)
    ensures
        increasing(r@),
        r@.to_set() == set@,
{
    broadcast use vstd::std_specs::btree::group_btree_axioms;
    broadcast use vstd::laws_cmp::group_laws_cmp;

    let mut out: Vec<u32> = Vec::new();
    proof {
        lemma_order_of_references();
    }
    for x in it: set.iter()
        invariant
            increasing(it.seq().unref()),
            it.seq().unref().to_set() == set@,
            out@.len() == it.index(),
            forall|j: int| 0 <= j < out@.len() ==> out@[j] == *it.seq()[j],
            out@.len() == it.seq().len() ==> out@ == it.seq().unref(),
    {
        out.push(*x);
        assert(out@.len() == it.seq().len() ==> out@ =~= it.seq().unref());
    }
    out
}

/// An increasing list has as many entries as its set.
proof fn lemma_increasing_len(s: Seq<u32>)
    requires
        increasing(s),
    ensures
        s.to_set().finite(),
        s.to_set().len() == s.len(),
        s.no_duplicates(),
{
    assert(s.no_duplicates()) by {
        assert forall|i: int, j: int| 0 <= i < s.len() && 0 <= j < s.len() && i != j implies s[i]
            != s[j] by {
            if i < j {
                assert(s[i] < s[j]);
            } else {
                assert(s[j] < s[i]);
            }
        }
    }
    s.unique_seq_to_set();
}

/// A sample of `count` different indices below `n`, or of all of them where there are fewer, in
/// increasing order. It is a function of the seed: the draws that fall on an index already picked
/// change nothing, and those below the threshold are thrown away.
pub fn sample_indices(n: u32, count: usize, seed: u64) -> (r: Vec<u32>)
    requires
        n > 0,
    ensures
        increasing(r@),
        r@.len() == sample_size(n as int, count as int),
        forall|i: int| 0 <= i < r@.len() ==> #[trigger] r@[i] < n,
        exists|t: nat|
            #[trigger] draws_suffice(n as int, count as int, seed, t) && r@.to_set() == picked(
                n as int,
                seed,
                t,
            ),
{
    let mut rng = SplitMix64(seed);
    let bound: u64 = n as u64;
    let threshold: u64 = (u64::MAX - (bound - 1)) % bound;
    let target: usize = if count < n as usize {
        count
    } else {
        n as usize
    };
    let mut selected: BTreeSet<u32> = BTreeSet::new();
    let ghost mut t: nat = 0;
    proof {
        assert(selected@ =~= picked(n as int, seed, 0));
        assert(picked(n as int, seed, 0).len() == 0);
    }
    while size_of_set(&selected) < target
        invariant
            n > 0,
            bound == n,
            threshold == rejection_threshold(n as int),
            target == sample_size(n as int, count as int),
            rng.0 == state_after(seed, t),
            selected@ == picked(n as int, seed, t),
            selected@.len() <= target,
            t > 0 ==> picked(n as int, seed, (t - 1) as nat).len() < target,
        decreases word_count() - t,
    {
        proof {
            lemma_picked_below(n as int, seed, t);
            if t >= word_count() {
                lemma_round_picks_all(n as int, seed, t);
            }
        }
        let z: u64 = rng.next();
        proof {
            t = t + 1;
            assert(state_after(seed, t) == splitmix_step(state_after(seed, (t - 1) as nat)));
        }
        if z >= threshold {
            put(&mut selected, (z % bound) as u32);
        }
    }
    let r = listed(&selected);
    proof {
        lemma_increasing_len(r@);
        lemma_picked_below(n as int, seed, t);
        assert forall|i: int| 0 <= i < r@.len() implies #[trigger] r@[i] < n by {
            assert(r@.contains(r@[i]));
            assert(r@.to_set().contains(r@[i]));
        }
        assert(draws_suffice(n as int, count as int, seed, t));
    }
    r
}

/// The sample is a function of its arguments: two samples that the same draws suffice for are the
/// same list.
pub proof fn sample_is_determined(
    n: int,
    count: int,
    seed: u64,
    a: Seq<u32>,
    b: Seq<u32>,
    s: nat,
    t: nat,
)
    requires
        0 < n <= u32::MAX,
        increasing(a),
        increasing(b),
        draws_suffice(n, count, seed, s),
        draws_suffice(n, count, seed, t),
        a.to_set() == picked(n, seed, s),
        b.to_set() == picked(n, seed, t),
    ensures
        a == b,
{
    if s < t {
        lemma_picked_grows(n, seed, s, (t - 1) as nat);
    } else if t < s {
        lemma_picked_grows(n, seed, t, (s - 1) as nat);
    }
    lemma_same_set(a, b);
}

proof fn lemma_picked_grows(n: int, seed: u64, s: nat, t: nat)
    requires
        0 < n <= u32::MAX,
        s <= t,
    ensures
        picked(n, seed, s).len() <= picked(n, seed, t).len(),
    decreases t - s,
{
    if s < t {
        lemma_picked_grows(n, seed, s, (t - 1) as nat);
        lemma_picked_below(n, seed, (t - 1) as nat);
    }
}

proof fn lemma_same_set(a: Seq<u32>, b: Seq<u32>)
    requires
        increasing(a),
        increasing(b),
        a.to_set() == b.to_set(),
    ensures
        a == b,
    decreases a.len(),
{
    lemma_increasing_len(a);
    lemma_increasing_len(b);
    if a.len() > 0 {
        let x = a.last();
        let y = b.last();
        assert(a.to_set().contains(x));
        assert(b.to_set().contains(y));
        assert(b.contains(x) && a.contains(y));
        let j = choose|j: int| 0 <= j < b.len() && b[j] == x;
        let i = choose|i: int| 0 <= i < a.len() && a[i] == y;
        if j < b.len() - 1 {
            assert(b[j] < b[b.len() - 1]);
        }
        if i < a.len() - 1 {
            assert(a[i] < a[a.len() - 1]);
        }
        assert(x == y);
        let ra = a.drop_last();
        let rb = b.drop_last();
        assert forall|v: u32| #[trigger] ra.to_set().contains(v) <==> rb.to_set().contains(v) by {
            if ra.contains(v) {
                let k = choose|k: int| 0 <= k < ra.len() && ra[k] == v;
                assert(a[k] == v && a[k] < a[a.len() - 1]);
                assert(a.to_set().contains(v));
                assert(b.contains(v));
                let l = choose|l: int| 0 <= l < b.len() && b[l] == v;
                assert(rb[l] == v);
            }
            if rb.contains(v) {
                let k = choose|k: int| 0 <= k < rb.len() && rb[k] == v;
                assert(b[k] == v && b[k] < b[b.len() - 1]);
                assert(b.to_set().contains(v));
                assert(a.contains(v));
                let l = choose|l: int| 0 <= l < a.len() && a[l] == v;
                assert(ra[l] == v);
            }
        }
        assert(ra.to_set() =~= rb.to_set());
        lemma_same_set(ra, rb);
        assert(a =~= b) by {
            assert(a =~= ra.push(x));
            assert(b =~= rb.push(y));
        }
    } else {
        assert(a =~= b);
    }
}

/// Which numbers are picked: those that some accepted draw among the first `t` leaves over when
/// divided by `n`. A draw is accepted unless it is among the few smallest, and the accepted values
/// are a whole multiple of `n`, so that no number is favoured.
pub proof fn numbers_are_picked_without_favour(n: int, seed: u64, t: nat, k: u32)
    requires
        0 < n <= u32::MAX,
    ensures
        0 <= rejection_threshold(n) < n,
        (0x1_0000_0000_0000_0000 - rejection_threshold(n)) % n == 0,
        picked(n, seed, t).contains(k) <==> exists|j: nat|
            1 <= j <= t && #[trigger] splitmix_output(crate::shuffle::state_after(seed, j))
                >= rejection_threshold(n) && splitmix_output(
                crate::shuffle::state_after(seed, j),
            ) as int % n == k,
{
    lemma_threshold(n);
    lemma_picked_by(n, seed, t, k);
}

proof fn lemma_threshold(n: int)
    requires
        0 < n <= u32::MAX,
    ensures
        0 <= rejection_threshold(n) < n,
        (word_count() - rejection_threshold(n)) % n == 0,
{
    let m = word_count();
    let r = (m - n) % n;
    vstd::arithmetic::div_mod::lemma_mod_bound(m - n, n);
    vstd::arithmetic::div_mod::lemma_fundamental_div_mod(m - n, n);
    let q = (m - n) / n;
    assert(m - r == n * (q + 1)) by (nonlinear_arith)
        requires
            m - n == n * q + r,
    ;
    vstd::arithmetic::div_mod::lemma_mod_multiples_basic(q + 1, n);
    vstd::arithmetic::mul::lemma_mul_is_commutative(n, q + 1);
}

proof fn lemma_same_states(seed: u64, t: nat)
    ensures
        state_after(seed, t) == crate::shuffle::state_after(seed, t),
    decreases t,
{
    if t > 0 {
        lemma_same_states(seed, (t - 1) as nat);
    }
}

proof fn lemma_picked_by(n: int, seed: u64, t: nat, k: u32)
    requires
        0 < n <= u32::MAX,
    ensures
        picked(n, seed, t).contains(k) <==> exists|j: nat|
            1 <= j <= t && #[trigger] splitmix_output(crate::shuffle::state_after(seed, j))
                >= rejection_threshold(n) && splitmix_output(
                crate::shuffle::state_after(seed, j),
            ) as int % n == k,
    decreases t,
{
    if t > 0 {
        lemma_picked_by(n, seed, (t - 1) as nat, k);
        lemma_same_states(seed, t);
        let z = splitmix_output(crate::shuffle::state_after(seed, t));
        vstd::arithmetic::div_mod::lemma_mod_bound(z as int, n);
        if picked(n, seed, t).contains(k) && !picked(n, seed, (t - 1) as nat).contains(k) {
            assert(z >= rejection_threshold(n) && z as int % n == k);
        }
    }
}

/// A sample has as many numbers as are asked for, where there are as many.
pub proof fn samples_are_as_large_as_can_be(n: int, count: int)
    ensures
        sample_size(n, count) <= n,
        sample_size(n, count) <= count,
        sample_size(n, count) == n || sample_size(n, count) == count,
{
}

} // verus!
