//! Deterministic reordering of record windows.

use vstd::prelude::*;
use vstd::string::*;

use crate::text::{decimal, push_decimal};

verus! {

/// Bytes of one packed position record.
pub const PSV_RECORD_BYTES: u64 = 40;

/// Bytes of one mebibyte.
pub const MIB_BYTES: usize = 1048576;

/// Small deterministic generator behind the shuffle indices. Its sequence is fixed here, so the
/// order of the training data does not hang on the version of any generator elsewhere.
#[derive(Clone, Copy, Debug, PartialEq, Eq, Structural)]
pub struct SplitMix64(pub u64);

/// The state after one draw from `state`.
pub open spec fn splitmix_step(state: u64) -> u64 {
    vstd::wrapping::u64_specs::wrapping_add(state, 0x9e37_79b9_7f4a_7c15u64)
}

/// The value drawn when the state becomes `state`.
pub open spec fn splitmix_output(state: u64) -> u64 {
    let a = vstd::wrapping::u64_specs::wrapping_mul(
        state ^ (state >> 30u64),
        0xbf58_476d_1ce4_e5b9u64,
    );
    let b = vstd::wrapping::u64_specs::wrapping_mul(a ^ (a >> 27u64), 0x94d0_49bb_1331_11ebu64);
    b ^ (b >> 31u64)
}

impl SplitMix64 {
    /// Draws the next value.
    pub fn next(&mut self) -> (value: u64)
        ensures
            final(self).0 == splitmix_step(old(self).0),
            value == splitmix_output(splitmix_step(old(self).0)),
    {
        self.0 = self.0.wrapping_add(0x9e37_79b9_7f4a_7c15);
        let z: u64 = self.0;
        let a: u64 = (z ^ (z >> 30u64)).wrapping_mul(0xbf58_476d_1ce4_e5b9);
        let b: u64 = (a ^ (a >> 27u64)).wrapping_mul(0x94d0_49bb_1331_11eb);
        b ^ (b >> 31u64)
    }
}

/// `s` with the elements at `i` and `j` exchanged.
pub open spec fn swapped<T>(s: Seq<T>, i: int, j: int) -> Seq<T> {
    s.update(i, s[j]).update(j, s[i])
}

/// The Fisher-Yates order of `s`, drawing for the positions `i`, `i - 1`, .. 1 in turn.
pub open spec fn fisher_yates<T>(s: Seq<T>, state: u64, i: nat) -> Seq<T>
    decreases i,
{
    if i == 0 {
        s
    } else {
        let next = splitmix_step(state);
        fisher_yates(
            swapped(s, i as int, splitmix_output(next) as int % (i as int + 1)),
            next,
            (i - 1) as nat,
        )
    }
}

/// The generator state from which window `window` of epoch `epoch` is shuffled.
pub open spec fn shuffle_state(seed: u64, epoch: u64, window: u64) -> u64 {
    seed ^ vstd::wrapping::u64_specs::wrapping_mul(epoch, 0xd6e8_feb8_6659_fd93u64)
        ^ vstd::wrapping::u64_specs::wrapping_mul(window, 0xa5a3_56e4_e27f_886du64)
}

/// The shuffled order of one window: a function of the records, the seed, the epoch and the
/// window number.
pub open spec fn shuffled<T>(s: Seq<T>, seed: u64, epoch: u64, window: u64) -> Seq<T> {
    if s.len() == 0 {
        s
    } else {
        fisher_yates(s, shuffle_state(seed, epoch, window), (s.len() - 1) as nat)
    }
}

/// Reorders one window of records in place.
pub fn shuffle_window<T: Copy>(values: &mut Vec<T>, seed: u64, epoch: u64, window: u64)
    ensures
        final(values)@ == shuffled(old(values)@, seed, epoch, window),
{
    let mut rng = SplitMix64(
        seed ^ epoch.wrapping_mul(0xd6e8_feb8_6659_fd93)
            ^ window.wrapping_mul(0xa5a3_56e4_e27f_886d),
    );
    let n: usize = values.len();
    if n == 0 {
        return;
    }
    let mut i: usize = n - 1;
    while i > 0
        invariant
            values@.len() == n,
            i < values@.len(),
            fisher_yates(values@, rng.0, i as nat) == shuffled(old(values)@, seed, epoch, window),
        decreases i,
    {
        let draw: u64 = rng.next();
        let j: usize = (draw % (i as u64 + 1)) as usize;
        let a = values[i];
        let b = values[j];
        let ghost before = values@;
        values[i] = b;
        values[j] = a;
        proof {
            assert(values@ =~= swapped(before, i as int, j as int));
        }
        i -= 1;
    }
}

/// Why no shuffle window could be laid out.
#[derive(Clone, Copy, Debug, PartialEq, Eq, Structural)]
pub enum ShuffleWindowError {
    /// The buffer size in bytes does not fit the machine word.
    SizeOverflow,
    /// The buffer is smaller than one batch of raw records.
    SmallerThanBatch { buffer_mib: usize, batch_bytes: usize },
}

impl ShuffleWindowError {
    /// The text of the error.
    pub open spec fn text(self) -> Seq<char> {
        match self {
            ShuffleWindowError::SizeOverflow => "teacher shuffle buffer size overflow"@,
            ShuffleWindowError::SmallerThanBatch { buffer_mib, batch_bytes } => {
                "teacher shuffle buffer ("@ + decimal(buffer_mib as nat)
                    + " MiB) is smaller than one raw batch ("@ + decimal(batch_bytes as nat)
                    + " bytes)"@
            },
        }
    }

    /// The text of the error.
    pub fn message(&self) -> (r: String)
        ensures
            r@ == self.text(),
    {
        match *self {
            ShuffleWindowError::SizeOverflow => "teacher shuffle buffer size overflow".to_owned(),
            ShuffleWindowError::SmallerThanBatch { buffer_mib, batch_bytes } => {
                let mut out = "teacher shuffle buffer (".to_owned();
                push_decimal(&mut out, buffer_mib as u64);
                out.append(" MiB) is smaller than one raw batch (");
                push_decimal(&mut out, batch_bytes as u64);
                out.append(" bytes)");
                out
            },
        }
    }
}

/// The records of one window of a buffer of `buffer_mib` mebibytes: as many as fit, rounded down
/// to whole batches. `None` switches the windows off.
pub fn shuffle_window_records(buffer_mib: usize, batch_size: usize) -> (r: Result<
    Option<usize>,
    ShuffleWindowError,
>)
    requires
        buffer_mib != 0 ==> 0 < batch_size && batch_size * PSV_RECORD_BYTES <= usize::MAX,
    ensures
        ({
            let records = buffer_mib * MIB_BYTES / PSV_RECORD_BYTES as int;
            r == if buffer_mib == 0 {
                Ok::<Option<usize>, ShuffleWindowError>(None)
            } else if buffer_mib * MIB_BYTES > usize::MAX {
                Err(ShuffleWindowError::SizeOverflow)
            } else if records < batch_size {
                Err(
                    ShuffleWindowError::SmallerThanBatch {
                        buffer_mib,
                        batch_bytes: (batch_size * PSV_RECORD_BYTES) as usize,
                    },
                )
            } else {
                Ok(Some((records - records % (batch_size as int)) as usize))
            }
        }),
        // Whole batches that fit into the buffer, and one more batch would not fit.
        r matches Ok(Some(n)) ==> n > 0 && n as int % batch_size as int == 0 && n * 40 <= buffer_mib
            * 1048576 < (n + batch_size) * 40,
        r is Err ==> buffer_mib * 1048576 > usize::MAX || buffer_mib * 1048576 < batch_size * 40,
        r == Ok::<Option<usize>, ShuffleWindowError>(None) <==> buffer_mib == 0,
{
    if buffer_mib == 0 {
        return Ok(None);
    }
    let bytes: usize = match buffer_mib.checked_mul(MIB_BYTES) {
        Some(bytes) => bytes,
        None => {
            return Err(ShuffleWindowError::SizeOverflow);
        },
    };
    let records: usize = bytes / PSV_RECORD_BYTES as usize;
    proof {
        vstd::arithmetic::div_mod::lemma_fundamental_div_mod(records as int, batch_size as int);
        vstd::arithmetic::mul::lemma_mul_is_commutative(
            batch_size as int,
            records as int / batch_size as int,
        );
        vstd::arithmetic::div_mod::lemma_mod_bound(records as int, batch_size as int);
    }
    let aligned: usize = records / batch_size * batch_size;
    proof {
        vstd::arithmetic::div_mod::lemma_mod_multiples_basic(
            records as int / batch_size as int,
            batch_size as int,
        );
        assert(records * 40 <= bytes < (records + 1) * 40);
    }
    if aligned == 0 {
        return Err(
            ShuffleWindowError::SmallerThanBatch {
                buffer_mib,
                batch_bytes: batch_size * PSV_RECORD_BYTES as usize,
            },
        );
    }
    assert(records >= batch_size) by {
        if records < batch_size {
            vstd::arithmetic::div_mod::lemma_small_mod(records as nat, batch_size as nat);
        }
    }
    assert(records as int == buffer_mib * MIB_BYTES / PSV_RECORD_BYTES as int);
    Ok(Some(aligned))
}

/// Exchanging two elements keeps the elements.
proof fn lemma_swapped_multiset<T>(s: Seq<T>, i: int, j: int)
    requires
        0 <= i < s.len(),
        0 <= j < s.len(),
    ensures
        swapped(s, i, j).to_multiset() == s.to_multiset(),
{
    broadcast use vstd::seq_lib::group_to_multiset_ensures;

    vstd::seq_lib::to_multiset_update(s, i, s[j]);
    let t = s.update(i, s[j]);
    vstd::seq_lib::to_multiset_update(t, j, s[i]);
    let m = s.to_multiset();
    assert(s.contains(s[i]));
    assert(m.count(s[i]) > 0);
    assert(t[j] == s[j]);
    assert(swapped(s, i, j).to_multiset() =~= m);
}

proof fn lemma_fisher_yates_multiset<T>(s: Seq<T>, state: u64, i: nat)
    requires
        i < s.len(),
    ensures
        fisher_yates(s, state, i).to_multiset() == s.to_multiset(),
        fisher_yates(s, state, i).len() == s.len(),
    decreases i,
{
    if i > 0 {
        let next = splitmix_step(state);
        let j = splitmix_output(next) as int % (i as int + 1);
        lemma_swapped_multiset(s, i as int, j);
        lemma_fisher_yates_multiset(swapped(s, i as int, j), next, (i - 1) as nat);
    }
}

/// Shuffling a window only reorders it: every record stays, as often as it was there.
pub proof fn shuffling_is_a_permutation<T>(s: Seq<T>, seed: u64, epoch: u64, window: u64)
    ensures
        shuffled(s, seed, epoch, window).to_multiset() == s.to_multiset(),
        shuffled(s, seed, epoch, window).len() == s.len(),
{
    if s.len() > 0 {
        lemma_fisher_yates_multiset(s, shuffle_state(seed, epoch, window), (s.len() - 1) as nat);
    }
}

/// Multiplying by a number and then by its inverse modulo 2^64 changes nothing.
proof fn lemma_times_inverse(x: u64, factor: u64, inverse: u64)
    requires
        (factor as int * inverse as int) % 0x1_0000_0000_0000_0000 == 1,
    ensures
        vstd::wrapping::u64_specs::wrapping_mul(
            vstd::wrapping::u64_specs::wrapping_mul(x, factor),
            inverse,
        ) == x,
{
    let m: int = 0x1_0000_0000_0000_0000;
    let (a, c, i) = (x as int, factor as int, inverse as int);
    vstd::arithmetic::div_mod::lemma_mul_mod_noop_left(a * c, i, m);
    vstd::arithmetic::mul::lemma_mul_is_associative(a, c, i);
    vstd::arithmetic::div_mod::lemma_mul_mod_noop_right(a, c * i, m);
    vstd::arithmetic::div_mod::lemma_small_mod(x as nat, m as nat);
}

/// The state that a drawn value comes from.
pub open spec fn state_of_output(value: u64) -> u64 {
    let b = value ^ (value >> 31u64) ^ (value >> 62u64);
    let p = vstd::wrapping::u64_specs::wrapping_mul(b, 0x3196_42b2_d24d_8ec3u64);
    let a = p ^ (p >> 27u64) ^ (p >> 54u64);
    let q = vstd::wrapping::u64_specs::wrapping_mul(a, 0x96de_1b17_3f11_9089u64);
    q ^ (q >> 30u64) ^ (q >> 60u64)
}

/// The mixing of a state into a drawn value can be undone, so different states give different
/// values.
pub proof fn mixing_can_be_undone(state: u64)
    ensures
        state_of_output(splitmix_output(state)) == state,
{
    let x = state ^ (state >> 30u64);
    let a = vstd::wrapping::u64_specs::wrapping_mul(x, 0xbf58_476d_1ce4_e5b9u64);
    let y = a ^ (a >> 27u64);
    let b = vstd::wrapping::u64_specs::wrapping_mul(y, 0x94d0_49bb_1331_11ebu64);
    let v = b ^ (b >> 31u64);
    assert((b ^ (b >> 31u64)) ^ ((b ^ (b >> 31u64)) >> 31u64) ^ ((b ^ (b >> 31u64)) >> 62u64) == b)
        by (bit_vector);
    assert((a ^ (a >> 27u64)) ^ ((a ^ (a >> 27u64)) >> 27u64) ^ ((a ^ (a >> 27u64)) >> 54u64) == a)
        by (bit_vector);
    assert((state ^ (state >> 30u64)) ^ ((state ^ (state >> 30u64)) >> 30u64) ^ ((state ^ (state
        >> 30u64)) >> 60u64) == state) by (bit_vector);
    lemma_times_inverse(y, 0x94d0_49bb_1331_11ebu64, 0x3196_42b2_d24d_8ec3u64);
    lemma_times_inverse(x, 0xbf58_476d_1ce4_e5b9u64, 0x96de_1b17_3f11_9089u64);
}

/// The state after `n` draws.
pub open spec fn state_after(state: u64, n: nat) -> u64
    decreases n,
{
    if n == 0 {
        state
    } else {
        splitmix_step(state_after(state, (n - 1) as nat))
    }
}

/// The draws of a generator are those of a counter that goes on by one odd number; its first 2^64
/// values are all different.
pub proof fn draws_do_not_repeat(state: u64, j: nat, k: nat)
    requires
        j < k < 0x1_0000_0000_0000_0000,
    ensures
        state_after(state, k) == (state + k * 0x9e37_79b9_7f4a_7c15) % 0x1_0000_0000_0000_0000,
        splitmix_output(state_after(state, j)) != splitmix_output(state_after(state, k)),
{
    lemma_counter(state, j);
    lemma_counter(state, k);
    lemma_counts_differ(state as int, j as int, k as int);
    mixing_can_be_undone(state_after(state, j));
    mixing_can_be_undone(state_after(state, k));
}

/// Steps of one odd number come back to a value only after 2^64 of them.
proof fn lemma_counts_differ(start: int, j: int, k: int)
    requires
        0 <= j < k < 0x1_0000_0000_0000_0000,
    ensures
        (start + j * 0x9e37_79b9_7f4a_7c15) % 0x1_0000_0000_0000_0000 != (start + k
            * 0x9e37_79b9_7f4a_7c15) % 0x1_0000_0000_0000_0000,
{
    let m: int = 0x1_0000_0000_0000_0000;
    let g: int = 0x9e37_79b9_7f4a_7c15;
    let (x, y) = (start + j * g, start + k * g);
    let d = k - j;
    if x % m == y % m {
        vstd::arithmetic::div_mod::lemma_mod_equivalence(y, x, m);
        assert(y - x == d * g) by (nonlinear_arith)
            requires
                x == start + j * g,
                y == start + k * g,
                d == k - j,
        ;
        // Times the inverse of the odd number, the difference of the counts would be zero.
        lemma_inverse_of_step(d);
    }
}

proof fn lemma_inverse_of_step(d: int)
    requires
        0 < d < 0x1_0000_0000_0000_0000,
    ensures
        (d * 0x9e37_79b9_7f4a_7c15) % 0x1_0000_0000_0000_0000 != 0,
{
    lemma_times_inverse(d as u64, 0x9e37_79b9_7f4a_7c15u64, 0xf1de_83e1_9937_733du64);
    assert(vstd::wrapping::u64_specs::wrapping_mul(0, 0xf1de_83e1_9937_733du64) == 0);
}

proof fn lemma_counter(state: u64, n: nat)
    ensures
        state_after(state, n) == (state + n * 0x9e37_79b9_7f4a_7c15) % 0x1_0000_0000_0000_0000,
    decreases n,
{
    let m: int = 0x1_0000_0000_0000_0000;
    let g: int = 0x9e37_79b9_7f4a_7c15;
    if n > 0 {
        lemma_counter(state, (n - 1) as nat);
        let x = state + (n - 1) * g;
        vstd::arithmetic::div_mod::lemma_add_mod_noop(x, g, m);
        assert(x + g == state + n * g) by (nonlinear_arith)
            requires
                x == state + (n - 1) * g,
        ;
        let before = state_after(state, (n - 1) as nat) as int;
        assert(before == x % m);
        assert(splitmix_step(before as u64) == (before + g) % m);
    } else {
        assert(0 * g == 0);
    }
}

/// The seed, the epoch and the window each decide the start of a shuffle: with the other two
/// fixed, no two of them start from one state. The three act independently, and each can be read
/// back from the state.
pub proof fn every_window_starts_elsewhere(
    seed: u64,
    other_seed: u64,
    epoch: u64,
    other_epoch: u64,
    window: u64,
    other_window: u64,
)
    ensures
        seed != other_seed ==> shuffle_state(seed, epoch, window) != shuffle_state(
            other_seed,
            epoch,
            window,
        ),
        epoch != other_epoch ==> shuffle_state(seed, epoch, window) != shuffle_state(
            seed,
            other_epoch,
            window,
        ),
        window != other_window ==> shuffle_state(seed, epoch, window) != shuffle_state(
            seed,
            epoch,
            other_window,
        ),
        shuffle_state(seed, 0, 0) == seed,
        vstd::wrapping::u64_specs::wrapping_mul(
            shuffle_state(0, epoch, 0),
            0xcfee_444d_8b59_a89bu64,
        ) == epoch,
        vstd::wrapping::u64_specs::wrapping_mul(
            shuffle_state(0, 0, window),
            0xd88c_243c_3a09_c165u64,
        ) == window,
        shuffle_state(seed, epoch, window) == seed ^ shuffle_state(0, epoch, 0) ^ shuffle_state(
            0,
            0,
            window,
        ),
{
    lemma_state_parts(seed, epoch, window);
    lemma_state_parts(other_seed, epoch, window);
    lemma_state_parts(seed, other_epoch, window);
    lemma_state_parts(seed, epoch, other_window);
    let (e, w) = (shuffle_state(0, epoch, 0), shuffle_state(0, 0, window));
    let (f, v) = (shuffle_state(0, other_epoch, 0), shuffle_state(0, 0, other_window));
    assert(seed ^ e ^ w == other_seed ^ e ^ w ==> seed == other_seed) by (bit_vector);
    assert(seed ^ e ^ w == seed ^ f ^ w ==> e == f) by (bit_vector);
    assert(seed ^ e ^ w == seed ^ e ^ v ==> w == v) by (bit_vector);
    assert(seed ^ 0 ^ 0 == seed) by (bit_vector);
    lemma_state_parts(seed, 0, 0);
    assert(vstd::wrapping::u64_specs::wrapping_mul(0, 0xd6e8_feb8_6659_fd93u64) == 0);
    assert(vstd::wrapping::u64_specs::wrapping_mul(0, 0xa5a3_56e4_e27f_886du64) == 0);
}

proof fn lemma_state_parts(seed: u64, epoch: u64, window: u64)
    ensures
        shuffle_state(0, epoch, 0) == vstd::wrapping::u64_specs::wrapping_mul(
            epoch,
            0xd6e8_feb8_6659_fd93u64,
        ),
        shuffle_state(0, 0, window) == vstd::wrapping::u64_specs::wrapping_mul(
            window,
            0xa5a3_56e4_e27f_886du64,
        ),
        shuffle_state(seed, epoch, window) == seed ^ shuffle_state(0, epoch, 0) ^ shuffle_state(
            0,
            0,
            window,
        ),
        vstd::wrapping::u64_specs::wrapping_mul(
            shuffle_state(0, epoch, 0),
            0xcfee_444d_8b59_a89bu64,
        ) == epoch,
        vstd::wrapping::u64_specs::wrapping_mul(
            shuffle_state(0, 0, window),
            0xd88c_243c_3a09_c165u64,
        ) == window,
{
    let e = vstd::wrapping::u64_specs::wrapping_mul(epoch, 0xd6e8_feb8_6659_fd93u64);
    let w = vstd::wrapping::u64_specs::wrapping_mul(window, 0xa5a3_56e4_e27f_886du64);
    assert(vstd::wrapping::u64_specs::wrapping_mul(0, 0xd6e8_feb8_6659_fd93u64) == 0);
    assert(vstd::wrapping::u64_specs::wrapping_mul(0, 0xa5a3_56e4_e27f_886du64) == 0);
    assert(0u64 ^ e ^ 0 == e && 0u64 ^ 0 ^ w == w) by (bit_vector);
    lemma_times_inverse(epoch, 0xd6e8_feb8_6659_fd93u64, 0xcfee_444d_8b59_a89bu64);
    lemma_times_inverse(window, 0xa5a3_56e4_e27f_886du64, 0xd88c_243c_3a09_c165u64);
}

/// A shuffled window put back: the exchanges of the places 1, 2, .. `i` in turn, by the draws in
/// reverse, the last draw first.
pub open spec fn put_back<T>(r: Seq<T>, state: u64, i: nat) -> Seq<T>
    decreases i,
{
    if i == 0 {
        r
    } else {
        let j = splitmix_output(state_after(state, 1)) as int % (i as int + 1);
        let before = put_back(r, state_after(state, 1), (i - 1) as nat);
        before.update(i as int, before[j]).update(j, before[i as int])
    }
}

proof fn lemma_put_back<T>(s: Seq<T>, state: u64, i: nat)
    requires
        i < s.len(),
    ensures
        put_back(fisher_yates(s, state, i), state, i) == s,
        fisher_yates(s, state, i).len() == s.len(),
        forall|k: int| i < k < s.len() ==> #[trigger] fisher_yates(s, state, i)[k] == s[k],
        i > 0 ==> fisher_yates(s, state, i)[i as int] == s[splitmix_output(state_after(state, 1))
            as int % (i as int + 1)],
    decreases i,
{
    if i > 0 {
        let next = splitmix_step(state);
        assert(state_after(state, 0) == state);
        assert(state_after(state, 1) == next);
        let j = splitmix_output(next) as int % (i as int + 1);
        let t = swapped(s, i as int, j);
        lemma_put_back(t, next, (i - 1) as nat);
        let r = fisher_yates(s, state, i);
        assert(r == fisher_yates(t, next, (i - 1) as nat));
        assert(put_back(r, next, (i - 1) as nat) == t);
        assert(put_back(r, state, i) =~= s);
    }
}

/// Shuffling can be undone, record by record, from the seed, the epoch and the window. The first
/// draw picks what comes last.
pub proof fn shuffling_can_be_undone<T>(s: Seq<T>, seed: u64, epoch: u64, window: u64)
    requires
        s.len() > 0,
    ensures
        ({
            let r = shuffled(s, seed, epoch, window);
            let state = shuffle_state(seed, epoch, window);
            &&& r.len() == s.len()
            &&& put_back(r, state, (s.len() - 1) as nat) == s
            &&& r.last() == s[splitmix_output(state_after(state, 1)) as int % s.len() as int]
        }),
{
    lemma_put_back(s, shuffle_state(seed, epoch, window), (s.len() - 1) as nat);
    if s.len() == 1 {
        assert(splitmix_output(state_after(shuffle_state(seed, epoch, window), 1)) as int % 1 == 0);
    }
}

} // verus!
