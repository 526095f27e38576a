//! Sizes of kernel launches and their buffers.

use vstd::prelude::*;

verus! {

/// Threads of one block.
pub const BLOCK_DIM: u32 = 256;

/// Positions that a game is expected to have when buffers are first sized.
pub const INITIAL_POSITIONS_PER_GAME: usize = 256;

/// The low 32 bits of a number.
pub open spec fn low_word(n: int) -> int {
    n % 0x1_0000_0000
}

/// The quotient rounded up.
pub open spec fn rounded_up(n: int, d: int) -> int {
    (n + d - 1) / d
}

fn truncated(n: usize) -> (r: u32)
    ensures
        r == low_word(n as int),
{
    (n as u64 % 0x1_0000_0000) as u32
}

fn div_ceil(n: u32, d: u32) -> (r: u32)
    requires
        d > 0,
    ensures
        r == rounded_up(n as int, d as int),
{
    proof {
        let m = n as int;
        let e = d as int;
        if m >= 1 {
            assert((m - 1) / e <= m - 1) by (nonlinear_arith)
                requires
                    m >= 1,
                    e >= 1,
            ;
        }
        if m == 0 {
            vstd::arithmetic::div_mod::lemma_basic_div(e - 1, e);
        } else {
            assert((m + e - 1) / e == (m - 1) / e + 1) by (nonlinear_arith)
                requires
                    e >= 1,
            ;
        }
    }
    if n == 0 {
        0
    } else {
        (n - 1) / d + 1
    }
}

/// The blocks for `n` threads, as the three dimensions of a launch. Only the low 32 bits of `n`
/// count.
pub fn grid_dim_1d(n: usize) -> (r: (u32, u32, u32))
    ensures
        r.0 == rounded_up(low_word(n as int), 256),
        r.1 == 1,
        r.2 == 1,
{
    (div_ceil(truncated(n), BLOCK_DIM), 1, 1)
}

/// The blocks of `block` threads for `n` threads, of which there is at least one.
pub fn grid_dim_1d_of(n: usize, block: u32) -> (r: (u32, u32, u32))
    requires
        block > 0,
        rounded_up(n as int, block as int) <= u32::MAX,
    ensures
        r.0 == rounded_up(
            if n >= 1 {
                n as int
            } else {
                1
            },
            block as int,
        ),
        r.1 == 1,
        r.2 == 1,
{
    let threads: u64 = if n >= 1 {
        n as u64
    } else {
        1
    };
    let blocks: u64 = (threads - 1) / (block as u64) + 1;
    proof {
        let b = block as int;
        assert((threads + b - 1) / b == (threads - 1) / b + 1) by (nonlinear_arith)
            requires
                b > 0,
        ;
        if n == 0 {
            vstd::arithmetic::div_mod::lemma_basic_div(0, b);
        }
    }
    (blocks as u32, 1, 1)
}

/// A launch of `n` threads in blocks of `block` covers every thread, with less than a block to
/// spare.
pub proof fn blocks_cover_the_threads(n: int, block: int)
    requires
        n >= 0,
        block > 0,
    ensures
        n <= rounded_up(n, block) * block < n + block,
{
    vstd::arithmetic::div_mod::lemma_fundamental_div_mod(n + block - 1, block);
    vstd::arithmetic::div_mod::lemma_mod_bound(n + block - 1, block);
    let q = rounded_up(n, block);
    assert(block * q == q * block) by (nonlinear_arith);
}

/// Why buffers could not be sized.
#[derive(Clone, Copy, Debug, PartialEq, Eq, Structural)]
pub enum CapacityError {
    Input,
    Index,
}

impl CapacityError {
    /// The text of the error.
    pub open spec fn text(self) -> Seq<char> {
        match self {
            CapacityError::Input => "input buffer capacity overflow"@,
            CapacityError::Index => "index buffer capacity overflow"@,
        }
    }

    /// The text of the error.
    pub fn message(&self) -> (r: &'static str)
        ensures
            r@ == self.text(),
    {
        match self {
            CapacityError::Input => "input buffer capacity overflow",
            CapacityError::Index => "index buffer capacity overflow",
        }
    }
}

/// The room for positions and for features that buffers are first given, with room for
/// `max_inds_per_pos` features of each position.
pub fn initial_capacity(games_per_step: usize, max_inds_per_pos: usize) -> (r: Result<
    (usize, usize),
    CapacityError,
>)
    ensures
        ({
            let positions = if games_per_step >= 1 {
                games_per_step * 256
            } else {
                1
            };
            r == if games_per_step * 256 > usize::MAX {
                Err::<(usize, usize), CapacityError>(CapacityError::Input)
            } else if positions * max_inds_per_pos > usize::MAX {
                Err(CapacityError::Index)
            } else {
                Ok((positions as usize, (positions * max_inds_per_pos) as usize))
            }
        }),
{
    let product: usize = match games_per_step.checked_mul(INITIAL_POSITIONS_PER_GAME) {
        Some(n) => n,
        None => {
            return Err(CapacityError::Input);
        },
    };
    let positions: usize = if product >= 1 {
        product
    } else {
        1
    };
    match positions.checked_mul(max_inds_per_pos) {
        Some(n) => Ok((positions, n)),
        None => Err(CapacityError::Index),
    }
}

/// Two to the power of `k`.
pub open spec fn power_of_two(k: nat) -> int
    decreases k,
{
    if k == 0 {
        1
    } else {
        2 * power_of_two((k - 1) as nat)
    }
}

/// Whether `p` is the smallest power of two that is at least `n`.
pub open spec fn is_next_power(p: int, n: int) -> bool {
    &&& exists|k: nat| p == #[trigger] power_of_two(k)
    &&& n <= p
    &&& p > 1 ==> p < 2 * n
}

/// The smallest power of two that is at least `n`, where the machine word holds it.
fn next_power_of_two(n: usize) -> (r: Option<usize>)
    ensures
        match r {
            Some(p) => is_next_power(p as int, n as int),
            None => forall|p: int| is_next_power(p, n as int) ==> p > usize::MAX,
        },
{
    let mut p: usize = 1;
    let ghost mut k: nat = 0;
    while p < n
        invariant
            p == power_of_two(k),
            p > 1 ==> p < 2 * n,
            p >= 1,
        decreases 2 * n - p,
    {
        if p > usize::MAX / 2 {
            proof {
                assert forall|q: int| is_next_power(q, n as int) implies q > usize::MAX by {
                    let j = choose|j: nat| q == power_of_two(j);
                    if j <= k {
                        lemma_power_grows(j, k);
                    } else {
                        lemma_power_grows(k + 1, j);
                    }
                }
            }
            return None;
        }
        p = 2 * p;
        proof {
            k = k + 1;
        }
    }
    Some(p)
}

proof fn lemma_power_grows(j: nat, k: nat)
    requires
        j <= k,
    ensures
        1 <= power_of_two(j) <= power_of_two(k),
    decreases k,
{
    if k == 0 {
    } else if j < k {
        lemma_power_grows(j, (k - 1) as nat);
    } else {
        lemma_power_grows((k - 1) as nat, (k - 1) as nat);
    }
}

/// The capacities of buffers that have to hold `n_pos` positions: `None` where `capacity` is
/// enough, else the next power of two with the room for its features.
pub fn grown_capacity(n_pos: usize, capacity: usize, max_inds_per_pos: usize) -> (r: Result<
    Option<(usize, usize)>,
    CapacityError,
>)
    ensures
        n_pos <= capacity ==> r == Ok::<Option<(usize, usize)>, CapacityError>(None),
        n_pos > capacity ==> match r {
            Ok(Some((positions, features))) => is_next_power(positions as int, n_pos as int)
                && features == positions * max_inds_per_pos,
            Ok(None) => false,
            Err(CapacityError::Input) => forall|p: int|
                is_next_power(p, n_pos as int) ==> p > usize::MAX,
            Err(CapacityError::Index) => exists|p: int|
                is_next_power(p, n_pos as int) && p <= usize::MAX && p * max_inds_per_pos > usize::MAX,
        },
{
    if n_pos <= capacity {
        return Ok(None);
    }
    let positions: usize = match next_power_of_two(n_pos) {
        Some(p) => p,
        None => {
            return Err(CapacityError::Input);
        },
    };
    match positions.checked_mul(max_inds_per_pos) {
        Some(features) => Ok(Some((positions, features))),
        None => {
            assert(is_next_power(positions as int, n_pos as int));
            Err(CapacityError::Index)
        },
    }
}

/// How dense layers are quantised while training.
#[derive(Clone, Copy, Debug, PartialEq, Eq, Structural)]
pub enum QatMode {
    Off,
    Dense,
}

impl QatMode {
    /// The name of the mode.
    pub fn name(self) -> (r: &'static str)
        ensures
            r@ == match self {
                QatMode::Off => "off"@,
                QatMode::Dense => "dense"@,
            },
    {
        match self {
            QatMode::Off => "off",
            QatMode::Dense => "dense",
        }
    }
}

impl Default for QatMode {
    fn default() -> (r: Self)
        ensures
            r == QatMode::Off,
    {
        QatMode::Off
    }
}

/// The threads that a dense launch needs.
pub open spec fn dense_threads(batch: int, inputs: int, outputs: int) -> int {
    let lanes = if inputs >= 256 {
        32int
    } else {
        1int
    };
    batch * outputs * lanes
}

/// The threads of a dense launch: one for each output of each position, or a whole warp where
/// there are many inputs. `None` says that there are more than a launch can have.
pub fn qat_dense_threads(batch: usize, inputs: usize, outputs: usize) -> (r: Option<usize>)
    ensures
        ({
            let threads = dense_threads(batch as int, inputs as int, outputs as int);
            r == if threads <= u32::MAX && batch * outputs <= usize::MAX {
                Some(threads as usize)
            } else {
                None::<usize>
            }
        }),
{
    let lanes: usize = if inputs >= 256 {
        32
    } else {
        1
    };
    let product: usize = match batch.checked_mul(outputs) {
        Some(n) => n,
        None => {
            return None;
        },
    };
    match product.checked_mul(lanes) {
        Some(n) => if n as u64 <= u32::MAX as u64 {
            Some(n)
        } else {
            None
        },
        None => None,
    }
}

/// The text for a dense launch that is too large.
pub fn qat_threads_message() -> (r: &'static str)
    ensures
        r@ == "dense QAT launch exceeds the supported u32 thread count"@,
{
    "dense QAT launch exceeds the supported u32 thread count"
}

/// Why quantised training cannot be switched on.
#[derive(Clone, Copy, Debug, PartialEq, Eq, Structural)]
pub enum QatError {
    Backend,
    Layers,
}

impl QatError {
    /// The text of the error.
    pub fn message(&self) -> (r: &'static str)
        ensures
            r@ == match *self {
                QatError::Backend => {
                    "dense QAT requires the native backend; cuda-oxide and oxide-parity are unsupported"@
                },
                QatError::Layers => {
                    "dense QAT does not support PSQT or L2/L3 shared-delta"@
                },
            },
    {
        match self {
            QatError::Backend => {
                "dense QAT requires the native backend; cuda-oxide and oxide-parity are unsupported"
            },
            QatError::Layers => "dense QAT does not support PSQT or L2/L3 shared-delta",
        }
    }
}

/// Sets the mode, where one is asked for, and checks that training can run in it.
pub fn configure_qat(
    current: &mut QatMode,
    asked: Option<QatMode>,
    native: bool,
    shared_delta_or_psqt: bool,
) -> (r: Result<(), QatError>)
    ensures
        *final(current) == match asked {
            Some(mode) => mode,
            None => *old(current),
        },
        r == if *final(current) == QatMode::Off {
            Ok::<(), QatError>(())
        } else if !native {
            Err(QatError::Backend)
        } else if shared_delta_or_psqt {
            Err(QatError::Layers)
        } else {
            Ok(())
        },
{
    if let Some(mode) = asked {
        *current = mode;
    }
    if *current == QatMode::Off {
        return Ok(());
    }
    if !native {
        return Err(QatError::Backend);
    }
    if shared_delta_or_psqt {
        return Err(QatError::Layers);
    }
    Ok(())
}

/// Whether the half-precision output of the feature transformer is asked for without its
/// half-precision weights. The collective switch turns both on.
pub fn ft_fp16_out_missing_ft_fp16(
    ft_fp16_out_raw: bool,
    ft_fp16_raw: bool,
    all_optim: bool,
) -> (r: bool)
    ensures
        r == (ft_fp16_out_raw && !all_optim && !ft_fp16_raw),
{
    ft_fp16_out_raw && !all_optim && !ft_fp16_raw
}

/// Each output of each position has a thread of its own, and where there are many inputs 32 of
/// them, so one more position takes as many threads more.
pub proof fn outputs_have_their_threads(batch: int, inputs: int, outputs: int)
    requires
        batch >= 0,
        outputs >= 0,
    ensures
        dense_threads(batch + 1, inputs, outputs) - dense_threads(batch, inputs, outputs)
            == outputs * (if inputs < 256 {
            1int
        } else {
            32int
        }),
        dense_threads(0, inputs, outputs) == 0,
        dense_threads(batch, inputs, 0) == 0,
{
    let lanes = if inputs >= 256 {
        32int
    } else {
        1int
    };
    assert((batch + 1) * outputs * lanes == batch * outputs * lanes + outputs * lanes)
        by (nonlinear_arith);
    assert(batch * 0 * lanes == 0) by (nonlinear_arith);
    assert(0 * outputs * lanes == 0) by (nonlinear_arith);
}

proof fn lemma_powers_are_apart(j: nat, k: nat)
    requires
        j < k,
    ensures
        power_of_two(j) >= 1,
        2 * power_of_two(j) <= power_of_two(k),
    decreases k,
{
    if j > 0 {
        lemma_powers_are_apart((j - 1) as nat, (k - 1) as nat);
    } else if k > 1 {
        lemma_powers_are_apart(0, (k - 1) as nat);
    }
}

/// The power of two that room grows to is the smallest that is large enough. The powers start at
/// one, and each is the one before it twice.
pub proof fn room_grows_no_further_than_needed(n: int, p: int, k: nat)
    requires
        is_next_power(p, n),
        n <= power_of_two(k),
    ensures
        1 <= p,
        n <= p <= power_of_two(k),
        power_of_two(0) == 1,
        power_of_two(k + 1) == power_of_two(k) + power_of_two(k),
{
    let j = choose|j: nat| p == #[trigger] power_of_two(j);
    lemma_powers_are_apart(j, j + 1);
    if k < j {
        lemma_powers_are_apart(k, j);
    } else if j < k {
        lemma_powers_are_apart(j, k);
    }
}

} // verus!
