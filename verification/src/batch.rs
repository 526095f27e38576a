//! Batches of positions in the sparse layout that the training kernels read.

use vstd::prelude::*;
use vstd::string::*;

use crate::error::ErrorKind;
use crate::text::{decimal, push_decimal};

verus! {

/// The outcome of the game a position is from, for the side to move.
#[derive(Clone, Copy, Debug, PartialEq, Eq, Structural)]
pub enum Wdl {
    Loss,
    Draw,
    Win,
}

/// The outcome of a raw game result: its sign decides.
pub open spec fn wdl_of(result: i8) -> Wdl {
    if result > 0 {
        Wdl::Win
    } else if result < 0 {
        Wdl::Loss
    } else {
        Wdl::Draw
    }
}

/// The feature set of a batch: its name, and how many features one position has at most.
#[derive(Clone, Copy, Debug)]
pub struct FeatureSetSpec {
    pub name: &'static str,
    pub max_active: usize,
}

/// One position as a batch takes it: its active features from both sides, and its labels.
#[derive(Debug)]
pub struct Position {
    /// Features seen from the side to move.
    pub stm: Vec<i32>,
    /// Features seen from the other side, as many.
    pub nstm: Vec<i32>,
    /// Score label.
    pub score: i16,
    /// Game result: positive for a win, negative for a loss.
    pub result: i8,
    /// Output bucket.
    pub bucket: u8,
}

/// A row of a batch.
pub struct Row {
    pub stm: Seq<i32>,
    pub nstm: Seq<i32>,
    pub score: i16,
    pub wdl: Wdl,
}

impl Position {
    /// Both sides see the same number of features.
    pub open spec fn wf(&self) -> bool {
        self.stm@.len() == self.nstm@.len()
    }

    /// The row that the position becomes.
    pub open spec fn row(&self) -> Row {
        Row {
            stm: self.stm@,
            nstm: self.nstm@,
            score: self.score,
            wdl: wdl_of(self.result),
        }
    }
}

/// A position with more active features than a row has room for.
#[derive(Clone, Copy, Debug)]
pub struct ActiveOverflow {
    pub written: usize,
    pub max_active: usize,
    pub feature_set: &'static str,
}

impl ActiveOverflow {
    /// The class of the error.
    pub fn kind(&self) -> (r: ErrorKind)
        ensures
            r == ErrorKind::InvalidData,
    {
        ErrorKind::InvalidData
    }

    /// The text of the error.
    pub open spec fn text(self) -> Seq<char> {
        "active feature count "@ + decimal(self.written as nat) + " exceeds max_active "@ + decimal(
            self.max_active as nat,
        ) + " (feature set "@ + self.feature_set@
            + "); raise THREAT_MAX_ACTIVE and rebuild \u{2014} silent truncation is not allowed"@
    }

    /// The text of the error.
    pub fn message(&self) -> (r: String)
        ensures
            r@ == self.text(),
    {
        let mut out = "active feature count ".to_owned();
        push_decimal(&mut out, self.written as u64);
        out.append(" exceeds max_active ");
        push_decimal(&mut out, self.max_active as u64);
        out.append(" (feature set ");
        out.append(self.feature_set);
        out.append(
            "); raise THREAT_MAX_ACTIVE and rebuild \u{2014} silent truncation is not allowed",
        );
        out
    }
}

/// The positions of one training step. The features of position `i` are the first `nnz[i]` slots
/// of its row of `max_active`; what stands in the slots behind, and in rows behind `n_positions`,
/// is left over from before and means nothing.
#[derive(Debug)]
pub struct Batch {
    pub batch_size: usize,
    pub feature_set: FeatureSetSpec,
    pub max_active: usize,
    pub stm_indices: Vec<i32>,
    pub nstm_indices: Vec<i32>,
    pub nnz: Vec<i32>,
    pub score: Vec<i16>,
    pub wdl: Vec<Wdl>,
    pub n_positions: usize,
}

/// A histogram with one more in bin `k`.
pub open spec fn counted(hist: Seq<u64>, k: int) -> Seq<u64> {
    hist.update(k, (hist[k] + 1) as u64)
}

impl Batch {
    /// Every buffer has room for `batch_size` rows, and no row holds more features than fit.
    pub open spec fn wf(&self) -> bool {
        &&& self.max_active == self.feature_set.max_active
        &&& self.max_active <= i32::MAX
        &&& self.n_positions <= self.batch_size
        &&& self.stm_indices@.len() == self.batch_size * self.max_active
        &&& self.nstm_indices@.len() == self.batch_size * self.max_active
        &&& self.nnz@.len() == self.batch_size
        &&& self.score@.len() == self.batch_size
        &&& self.wdl@.len() == self.batch_size
        &&& forall|i: int|
            0 <= i < self.n_positions ==> 0 <= #[trigger] self.nnz@[i] <= self.max_active
    }

    /// The row at `i`.
    pub open spec fn row(&self, i: int) -> Row {
        Row {
            stm: self.stm_indices@.subrange(
                i * self.max_active,
                i * self.max_active + self.nnz@[i],
            ),
            nstm: self.nstm_indices@.subrange(
                i * self.max_active,
                i * self.max_active + self.nnz@[i],
            ),
            score: self.score@[i],
            wdl: self.wdl@[i],
        }
    }

    /// The rows in use.
    pub open spec fn rows(&self) -> Seq<Row> {
        Seq::new(self.n_positions as nat, |i: int| self.row(i))
    }

    /// An empty batch. Slots start as padding (`-1`), counts and scores as zero.
    pub fn with_capacity(batch_size: usize, feature_set: FeatureSetSpec) -> (r: Self)
        requires
            batch_size * feature_set.max_active <= usize::MAX,
            feature_set.max_active <= i32::MAX,
        ensures
            r.wf(),
            r.batch_size == batch_size,
            r.feature_set == feature_set,
            r.n_positions == 0,
            r.rows() == Seq::<Row>::empty(),
            forall|k: int| 0 <= k < r.stm_indices@.len() ==> r.stm_indices@[k] == -1,
            forall|k: int| 0 <= k < r.nstm_indices@.len() ==> r.nstm_indices@[k] == -1,
            forall|k: int| 0 <= k < batch_size ==> r.nnz@[k] == 0 && r.score@[k] == 0
                && r.wdl@[k] == Wdl::Loss,
    {
        let max_active: usize = feature_set.max_active;
        let slots: usize = batch_size * max_active;
        let r = Batch {
            batch_size,
            feature_set,
            max_active,
            stm_indices: vec![-1i32;slots],
            nstm_indices: vec![-1i32;slots],
            nnz: vec![0i32;batch_size],
            score: vec![0i16;batch_size],
            wdl: vec![Wdl::Loss;batch_size],
            n_positions: 0,
        };
        assert(r.rows() =~= Seq::<Row>::empty());
        r
    }

    /// Empties the batch for another use. The buffers are not cleared.
    pub fn reset(&mut self)
        requires
            old(self).wf(),
        ensures
            final(self).wf(),
            *final(self) == (Batch { n_positions: 0, ..*old(self) }),
            final(self).rows() == Seq::<Row>::empty(),
    {
        self.n_positions = 0;
        assert(self.rows() =~= Seq::<Row>::empty());
    }

    /// Adds a position. `Ok(false)` says that the batch is full.
    pub fn push_decoded(&mut self, position: &Position) -> (r: Result<bool, ActiveOverflow>)
        requires
            old(self).wf(),
            position.wf(),
        ensures
            final(self).wf(),
            final(self).batch_size == old(self).batch_size,
            final(self).feature_set == old(self).feature_set,
            if old(self).rows().len() >= old(self).batch_size {
                r == Ok::<bool, ActiveOverflow>(false) && final(self).rows() == old(self).rows()
            } else if position.stm@.len() > old(self).max_active {
                r == Err::<bool, ActiveOverflow>(
                    ActiveOverflow {
                        written: position.stm@.len() as usize,
                        max_active: old(self).max_active,
                        feature_set: old(self).feature_set.name,
                    },
                ) && final(self).rows() == old(self).rows()
            } else {
                r == Ok::<bool, ActiveOverflow>(true) && final(self).rows() == old(
                    self,
                ).rows().push(position.row())
            },
    {
        let mut none: Option<Vec<u64>> = None;
        self.push_decoded_counting(position, &mut none)
    }

    /// Adds a position and counts its active features in bin `stm.len()` of the histogram, where
    /// there is one. A position that is refused is not counted.
    pub fn push_decoded_counting(
        &mut self,
        position: &Position,
        active_hist: &mut Option<Vec<u64>>,
    ) -> (r: Result<bool, ActiveOverflow>)
        requires
            old(self).wf(),
            position.wf(),
            *old(active_hist) matches Some(hist) ==> hist@.len() > old(self).max_active && (
            forall|k: int| 0 <= k <= old(self).max_active ==> hist@[k] < u64::MAX),
        ensures
            final(self).wf(),
            final(self).batch_size == old(self).batch_size,
            final(self).feature_set == old(self).feature_set,
            *final(active_hist) is Some <==> *old(active_hist) is Some,
            if old(self).rows().len() >= old(self).batch_size {
                &&& r == Ok::<bool, ActiveOverflow>(false)
                &&& final(self).rows() == old(self).rows()
                &&& *final(active_hist) == *old(active_hist)
            } else if position.stm@.len() > old(self).max_active {
                &&& r == Err::<bool, ActiveOverflow>(
                    ActiveOverflow {
                        written: position.stm@.len() as usize,
                        max_active: old(self).max_active,
                        feature_set: old(self).feature_set.name,
                    },
                )
                &&& final(self).rows() == old(self).rows()
                &&& *final(active_hist) == *old(active_hist)
            } else {
                &&& r == Ok::<bool, ActiveOverflow>(true)
                &&& final(self).rows() == old(self).rows().push(position.row())
                &&& *old(active_hist) matches Some(hist) ==> (*final(active_hist))->Some_0@ == counted(
                    hist@,
                    position.stm@.len() as int,
                )
            },
    {
        if self.n_positions >= self.batch_size {
            return Ok(false);
        }
        let bi: usize = self.n_positions;
        let max_active: usize = self.max_active;
        let written: usize = position.stm.len();
        if written > max_active {
            return Err(
                ActiveOverflow { written, max_active, feature_set: self.feature_set.name },
            );
        }
        proof {
            lemma_row_fits(bi as int, self.batch_size as int, max_active as int);
        }
        if let Some(hist) = active_hist {
            let seen: u64 = hist[written];
            hist[written] = seen + 1;
        }
        let slots: usize = self.stm_indices.len();
        let row_off: usize = bi * max_active;
        let mut j: usize = 0;
        let ghost before = *self;
        while j < written
            invariant
                before.wf(),
                before == *old(self),
                position.wf(),
                j <= written <= max_active,
                written == position.stm@.len(),
                bi == before.n_positions,
                bi < before.batch_size,
                max_active == before.max_active,
                row_off == bi * max_active,
                slots == before.stm_indices@.len(),
                row_off + max_active <= slots,
                *self == (Batch {
                    stm_indices: self.stm_indices,
                    nstm_indices: self.nstm_indices,
                    ..before
                }),
                self.stm_indices@.len() == before.stm_indices@.len(),
                self.nstm_indices@.len() == before.nstm_indices@.len(),
                forall|k: int|
                    0 <= k < row_off ==> self.stm_indices@[k] == before.stm_indices@[k]
                        && self.nstm_indices@[k] == before.nstm_indices@[k],
                forall|k: int|
                    0 <= k < j ==> self.stm_indices@[row_off + k] == position.stm@[k]
                        && self.nstm_indices@[row_off + k] == position.nstm@[k],
            decreases written - j,
        {
            self.stm_indices[row_off + j] = position.stm[j];
            self.nstm_indices[row_off + j] = position.nstm[j];
            j += 1;
        }
        self.nnz[bi] = written as i32;
        self.score[bi] = position.score;
        self.wdl[bi] = if position.result > 0 {
            Wdl::Win
        } else if position.result < 0 {
            Wdl::Loss
        } else {
            Wdl::Draw
        };
        self.n_positions = bi + 1;
        proof {
            let rows = self.rows();
            assert forall|i: int| 0 <= i < bi implies #[trigger] rows[i] == before.row(i) by {
                lemma_row_before(i, bi as int, max_active as int);
                assert(self.nnz@[i] == before.nnz@[i]);
                assert(self.row(i).stm =~= before.row(i).stm);
                assert(self.row(i).nstm =~= before.row(i).nstm);
            }
            assert(rows[bi as int].stm =~= position.stm@);
            assert(rows[bi as int].nstm =~= position.nstm@);
            assert(rows =~= before.rows().push(position.row()));
        }
        Ok(true)
    }

    /// The number of positions in the batch.
    pub fn len(&self) -> (r: usize)
        ensures
            r == self.rows().len(),
    {
        self.n_positions
    }

    /// Whether the batch holds no position.
    pub fn is_empty(&self) -> (r: bool)
        ensures
            r == (self.rows().len() == 0),
    {
        self.n_positions == 0
    }
}

proof fn lemma_row_fits(i: int, rows: int, width: int)
    by (nonlinear_arith)
    requires
        0 <= i < rows,
        0 <= width,
    ensures
        0 <= i * width,
        i * width + width <= rows * width,
{
}

proof fn lemma_row_before(i: int, j: int, width: int)
    by (nonlinear_arith)
    requires
        0 <= i < j,
        0 <= width,
    ensures
        0 <= i * width,
        i * width + width <= j * width,
{
}

/// How the output bucket of a position is found.
#[derive(Clone, Copy, Debug, PartialEq, Eq, Structural)]
pub enum BucketMode {
    /// The estimated progress of the game, cut into equal parts.
    Progress8KpAbs,
    /// The ranks of both kings, nine buckets.
    KingRank9,
}

impl BucketMode {
    /// The name of the mode in checkpoints and metadata.
    pub open spec fn name_text(self) -> Seq<char> {
        match self {
            BucketMode::Progress8KpAbs => "progress8kpabs"@,
            BucketMode::KingRank9 => "kingrank9"@,
        }
    }

    /// The name of the mode in checkpoints and metadata.
    pub fn canonical_name(self) -> (r: &'static str)
        ensures
            r@ == self.name_text(),
    {
        match self {
            BucketMode::Progress8KpAbs => "progress8kpabs",
            BucketMode::KingRank9 => "kingrank9",
        }
    }
}

impl Default for BucketMode {
    fn default() -> (r: Self)
        ensures
            r == BucketMode::Progress8KpAbs,
    {
        BucketMode::Progress8KpAbs
    }
}

/// A positive result is a win, a negative one a loss, and zero a draw; seen from the other side
/// wins and losses change places.
pub proof fn results_are_told_by_their_sign(result: i8)
    ensures
        wdl_of(result) == Wdl::Win <==> result >= 1,
        wdl_of(result) == Wdl::Loss <==> result <= -1,
        wdl_of(result) == Wdl::Draw <==> result == 0,
        result > i8::MIN ==> (wdl_of(result) == Wdl::Win <==> wdl_of((-result) as i8) == Wdl::Loss),
{
}

/// Counting a position changes its own bin by one and no other.
pub proof fn one_bin_is_counted(hist: Seq<u64>, k: int, j: int)
    requires
        0 <= k < hist.len(),
        0 <= j < hist.len(),
        hist[k] < u64::MAX,
    ensures
        counted(hist, k).len() == hist.len(),
        counted(hist, k)[j] == hist[j] + if j == k {
            1int
        } else {
            0int
        },
{
}

} // verus!
