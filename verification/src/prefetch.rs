//! Loading batches ahead of their use: what is fixed when the loader starts, what a worker does
//! with the records it has read, and what the workers share. Threads and channels are the
//! caller's.

use vstd::prelude::*;
use vstd::string::*;

use crate::batch::{counted, ActiveOverflow, Batch, BucketMode, FeatureSetSpec, Position, Row};
use crate::epoch::{
    epoch_error, fresh_loader, score_within, EpochConfig, EpochError, PsvEpochReader,
};
use crate::error::ErrorKind;
use crate::labels::{DualLabelMode, MaskFile};
use crate::psv::{score_of, PackedSfenValue};
use crate::psv_file::{range_error, LoaderState, PsvFileLoader, RangeError};
use crate::shuffle::{shuffle_window_records, ShuffleWindowError, MIB_BYTES, PSV_RECORD_BYTES};
use crate::sidecar::error_is;
use crate::window::{LoadError, ProducerState, WindowProducer, WindowedPsvReader};

verus! {

/// How many finished batches the workers may be ahead: twice the workers, and at least two.
pub fn prefetch_depth_for(num_workers: usize) -> (r: usize)
    requires
        2 * num_workers <= usize::MAX,
    ensures
        r == if 2 * num_workers >= 2 {
            2 * num_workers
        } else {
            2
        },
{
    let depth: usize = 2 * num_workers;
    if depth >= 2 {
        depth
    } else {
        2
    }
}

/// What a training loader is started with.
#[derive(Clone, Copy, Debug)]
pub struct LoaderArgs {
    /// Positions of one batch.
    pub batch_size: usize,
    /// Records with a score of at least this magnitude are left out.
    pub score_drop_abs: Option<i32>,
    /// Scores are brought within this magnitude.
    pub score_clamp_abs: Option<i16>,
    /// Worker threads; none counts as one.
    pub num_workers: usize,
    /// How output buckets are found.
    pub bucket_mode: BucketMode,
    /// The feature set of the batches.
    pub feature_set: FeatureSetSpec,
    /// Whether output buckets are found at all.
    pub compute_bucket: bool,
    /// Output buckets.
    pub num_buckets: usize,
    /// The byte behind the part of the file that is trained on.
    pub train_end_offset: u64,
    /// Whether active features are counted.
    pub monitor_active: bool,
    /// Size of the score sidecar.
    pub score_override: Option<u64>,
    /// The mask of the score sidecar.
    pub score_override_mask: Option<MaskFile>,
    /// Size of a shuffle window in mebibytes; zero reads without windows.
    pub teacher_shuffle_buffer_mib: usize,
    /// Whether windows are shuffled.
    pub teacher_shuffle: bool,
    /// The seed of the shuffle.
    pub teacher_shuffle_seed: u64,
    /// Which of the two labels of a record is used.
    pub dual_label_psv: Option<DualLabelMode>,
}

impl LoaderArgs {
    /// The epoch that the loader reads: the file up to `train_end_offset`.
    pub open spec fn epoch(self) -> EpochConfig {
        EpochConfig {
            start_offset: 0,
            end_offset: self.train_end_offset,
            score_drop_abs: self.score_drop_abs,
            score_clamp_abs: self.score_clamp_abs,
            dual_label_psv: self.dual_label_psv,
        }
    }

    /// What a loader needs of its arguments.
    pub open spec fn valid(self) -> bool {
        &&& self.num_buckets >= 1
        &&& self.batch_size >= 1
        &&& self.score_clamp_abs matches Some(limit) ==> limit >= 0
        &&& self.feature_set.max_active < i32::MAX
        &&& self.batch_size * PSV_RECORD_BYTES <= usize::MAX
        &&& 3 * self.num_workers + 3 <= usize::MAX
    }

    /// The workers that run.
    pub open spec fn workers(self) -> int {
        if self.num_workers >= 1 {
            self.num_workers as int
        } else {
            1
        }
    }

    /// The records of a shuffle window, for a buffer that holds a batch.
    pub open spec fn window_records(self) -> int {
        let records = self.teacher_shuffle_buffer_mib * MIB_BYTES / PSV_RECORD_BYTES as int;
        records - records % (self.batch_size as int)
    }

    /// The error that the window size gives, if it gives one.
    pub open spec fn window_error(self) -> Option<ShuffleWindowError> {
        if self.teacher_shuffle_buffer_mib == 0 {
            None
        } else if self.teacher_shuffle_buffer_mib * MIB_BYTES > usize::MAX {
            Some(ShuffleWindowError::SizeOverflow)
        } else if self.batch_size > self.teacher_shuffle_buffer_mib * MIB_BYTES
            / PSV_RECORD_BYTES as int {
            Some(
                ShuffleWindowError::SmallerThanBatch {
                    buffer_mib: self.teacher_shuffle_buffer_mib,
                    batch_bytes: (self.batch_size * PSV_RECORD_BYTES) as usize,
                },
            )
        } else {
            None
        }
    }
}

/// Why a loader could not be started.
#[derive(Clone, Copy, Debug, PartialEq, Eq, Structural)]
pub enum SpawnError {
    /// The data file or its sidecar does not fit.
    Epoch(EpochError),
    /// The shuffle window cannot be laid out.
    Window(ShuffleWindowError),
}

/// Where training records come from.
#[derive(Debug)]
pub enum TrainingPsvReader {
    /// Straight from the file.
    Direct(PsvEpochReader),
    /// Through windows: the reader of the file and the window producer work on one side, the
    /// window reader on the other.
    Windowed(PsvEpochReader, WindowProducer, WindowedPsvReader),
}

impl TrainingPsvReader {
    /// Whether a producer has to be stopped when the loader ends.
    pub fn has_producer(&self) -> (r: bool)
        ensures
            r == (self is Windowed),
    {
        matches!(self, TrainingPsvReader::Windowed(..))
    }

    /// The reader of the file.
    pub open spec fn source(&self) -> PsvEpochReader {
        match self {
            TrainingPsvReader::Direct(source) => *source,
            TrainingPsvReader::Windowed(source, _, _) => *source,
        }
    }
}

/// What the workers of a loader share with the caller.
#[derive(Debug)]
pub struct BucketedPrefetchedLoader {
    num_workers: usize,
    prefetch_depth: usize,
    n_slots: usize,
    err_slot: Option<LoadError>,
    active_hist: Option<Vec<u64>>,
}

/// A batch on its way round, with the output bucket of each position.
pub type BatchSlot = (Batch, Vec<i32>);

/// What a loader answers to its caller.
#[derive(Debug)]
pub enum BatchStep {
    /// Wait for a worker, and say what came.
    Wait,
    /// A batch.
    Batch(BatchSlot),
    /// Every worker has ended without an error.
    Ended,
    /// A worker failed.
    Failed(LoadError),
}

impl BucketedPrefetchedLoader {
    /// The worker threads.
    pub closed spec fn workers(&self) -> int {
        self.num_workers as int
    }

    /// How many finished batches may wait.
    pub closed spec fn depth(&self) -> int {
        self.prefetch_depth as int
    }

    /// How many batches go round.
    pub closed spec fn slots(&self) -> int {
        self.n_slots as int
    }

    /// What is fixed when a loader starts: its workers and the batches that go round.
    pub open spec fn same_sizes(&self, other: &Self) -> bool {
        &&& self.workers() == other.workers()
        &&& self.depth() == other.depth()
        &&& self.slots() == other.slots()
    }

    /// The first error of a worker that was not taken yet.
    pub closed spec fn error(&self) -> Option<LoadError> {
        self.err_slot
    }

    /// The histogram of active features, where one is kept.
    pub closed spec fn histogram(&self) -> Option<Seq<u64>> {
        match self.active_hist {
            Some(hist) => Some(hist@),
            None => None,
        }
    }

    /// The loader for a data file of `file_size` bytes, without a score sidecar, shuffle windows
    /// or a second label.
    pub fn spawn(file_size: u64, args: &LoaderArgs) -> (r: Result<
        (Self, TrainingPsvReader),
        SpawnError,
    >)
        requires
            args.valid(),
        ensures
            started(
                file_size,
                LoaderArgs {
                    score_override: None,
                    score_override_mask: None,
                    teacher_shuffle_buffer_mib: 0,
                    teacher_shuffle: false,
                    teacher_shuffle_seed: 0,
                    dual_label_psv: None,
                    ..*args
                },
                r,
            ),
    {
        let plain = LoaderArgs {
            batch_size: args.batch_size,
            score_drop_abs: args.score_drop_abs,
            score_clamp_abs: args.score_clamp_abs,
            num_workers: args.num_workers,
            bucket_mode: args.bucket_mode,
            feature_set: args.feature_set,
            compute_bucket: args.compute_bucket,
            num_buckets: args.num_buckets,
            train_end_offset: args.train_end_offset,
            monitor_active: args.monitor_active,
            score_override: None,
            score_override_mask: None,
            teacher_shuffle_buffer_mib: 0,
            teacher_shuffle: false,
            teacher_shuffle_seed: 0,
            dual_label_psv: None,
        };
        Self::spawn_with_score_override(file_size, &plain)
    }

    /// The loader with an optional score sidecar and shuffle windows, without a second label.
    pub fn spawn_with_score_override(file_size: u64, args: &LoaderArgs) -> (r: Result<
        (Self, TrainingPsvReader),
        SpawnError,
    >)
        requires
            args.valid(),
        ensures
            started(file_size, LoaderArgs { dual_label_psv: None, ..*args }, r),
    {
        let mut single = *args;
        single.dual_label_psv = None;
        Self::spawn_with_score_sources(file_size, &single)
    }

    /// The loader with any source of scores. The records are read from the start of the file to
    /// `train_end_offset`.
    pub fn spawn_with_score_sources(file_size: u64, args: &LoaderArgs) -> (r: Result<
        (Self, TrainingPsvReader),
        SpawnError,
    >)
        requires
            args.valid(),
        ensures
            started(file_size, *args, r),
    {
        let num_workers: usize = if args.num_workers >= 1 {
            args.num_workers
        } else {
            1
        };
        let prefetch_depth: usize = prefetch_depth_for(num_workers);
        let n_slots: usize = prefetch_depth + num_workers + 1;
        let config = EpochConfig {
            start_offset: 0,
            end_offset: args.train_end_offset,
            score_drop_abs: args.score_drop_abs,
            score_clamp_abs: args.score_clamp_abs,
            dual_label_psv: args.dual_label_psv,
        };
        let source = match PsvEpochReader::new_range(
            file_size,
            config,
            args.score_override,
            args.score_override_mask,
        ) {
            Ok(source) => source,
            Err(e) => {
                return Err(SpawnError::Epoch(e));
            },
        };
        let reader = match shuffle_window_records(
            args.teacher_shuffle_buffer_mib,
            args.batch_size,
        ) {
            Ok(Some(window_records)) => TrainingPsvReader::Windowed(
                source,
                WindowProducer::new(
                    window_records,
                    args.teacher_shuffle,
                    args.teacher_shuffle_seed,
                ),
                WindowedPsvReader::new(),
            ),
            Ok(None) => TrainingPsvReader::Direct(source),
            Err(e) => {
                return Err(SpawnError::Window(e));
            },
        };
        let active_hist = if args.monitor_active {
            let hist = vec![0u64;args.feature_set.max_active + 1];
            assert(hist@ =~= Seq::new((args.feature_set.max_active + 1) as nat, |k: int| 0u64));
            Some(hist)
        } else {
            None
        };
        Ok(
            (
                BucketedPrefetchedLoader {
                    num_workers,
                    prefetch_depth,
                    n_slots,
                    err_slot: None,
                    active_hist,
                },
                reader,
            ),
        )
    }

    /// The worker threads to start.
    pub fn num_workers(&self) -> (r: usize)
        ensures
            r == self.workers(),
    {
        self.num_workers
    }

    /// The room for finished batches.
    pub fn prefetch_depth(&self) -> (r: usize)
        ensures
            r == self.depth(),
    {
        self.prefetch_depth
    }

    /// The batches to allocate, which is also the room for empty ones.
    pub fn n_slots(&self) -> (r: usize)
        ensures
            r == self.slots(),
    {
        self.n_slots
    }

    /// Puts down the error of a worker. The first one stays.
    pub fn record_error(&mut self, e: LoadError)
        ensures
            final(self).same_sizes(old(self)),
            final(self).error() == if old(self).error() is Some {
                old(self).error()
            } else {
                Some(e)
            },
            final(self).histogram() == old(self).histogram(),
    {
        if self.err_slot.is_none() {
            self.err_slot = Some(e);
        }
    }

    /// Asks for the next batch. An error that a worker put down is given at once, since the other
    /// workers go on and would hide it; else the caller waits for a batch.
    pub fn next_batch(&mut self) -> (r: BatchStep)
        ensures
            final(self).same_sizes(old(self)),
            final(self).error() is None,
            final(self).histogram() == old(self).histogram(),
            r == match old(self).error() {
                Some(e) => BatchStep::Failed(e),
                None => BatchStep::Wait,
            },
    {
        match self.err_slot.take() {
            Some(e) => BatchStep::Failed(e),
            None => BatchStep::Wait,
        }
    }

    /// What the caller gets for what it waited for: a batch, or `None` where every worker has
    /// ended. Then the error that is left is given, if there is one.
    pub fn receive(&mut self, received: Option<BatchSlot>) -> (r: BatchStep)
        ensures
            match received {
                Some(slot) => r == BatchStep::Batch(slot) && *final(self) == *old(self),
                None => {
                    &&& final(self).same_sizes(old(self))
                    &&& final(self).error() is None
                    &&& final(self).histogram() == old(self).histogram()
                    &&& r == match old(self).error() {
                        Some(e) => BatchStep::Failed(e),
                        None => BatchStep::Ended,
                    }
                },
            },
    {
        match received {
            Some(slot) => BatchStep::Batch(slot),
            None => match self.err_slot.take() {
                Some(e) => BatchStep::Failed(e),
                None => BatchStep::Ended,
            },
        }
    }

    /// Adds the counts of one worker to the histogram and sets them to zero.
    pub fn flush_histogram(&mut self, local: &mut Vec<u64>)
        requires
            old(self).histogram() matches Some(hist) ==> hist.len() == old(local)@.len() && (
            forall|k: int| 0 <= k < hist.len() ==> hist[k] + old(local)@[k] <= u64::MAX),
        ensures
            final(self).same_sizes(old(self)),
            final(self).error() == old(self).error(),
            match old(self).histogram() {
                Some(hist) => {
                    &&& final(self).histogram() == Some(
                        Seq::new(hist.len(), |k: int| (hist[k] + old(local)@[k]) as u64),
                    )
                    &&& final(local)@ == Seq::new(hist.len(), |k: int| 0u64)
                },
                None => final(self).histogram() is None && *final(local) == *old(local),
            },
    {
        let taken = self.active_hist.take();
        match taken {
            Some(mut hist) => {
                let ghost base = hist@;
                let n: usize = hist.len();
                let mut k: usize = 0;
                while k < n
                    invariant
                        k <= n,
                        n == base.len(),
                        hist@.len() == n,
                        local@.len() == n,
                        old(local)@.len() == n,
                        forall|j: int| 0 <= j < n ==> base[j] + old(local)@[j] <= u64::MAX,
                        forall|j: int| 0 <= j < k ==> hist@[j] == base[j] + old(local)@[j],
                        forall|j: int| 0 <= j < k ==> local@[j] == 0,
                        forall|j: int| k <= j < n ==> hist@[j] == base[j],
                        forall|j: int| k <= j < n ==> local@[j] == old(local)@[j],
                    decreases n - k,
                {
                    assert(base[k as int] + old(local)@[k as int] <= u64::MAX);
                    let sum: u64 = hist[k] + local[k];
                    hist[k] = sum;
                    local[k] = 0;
                    k += 1;
                }
                assert(hist@ =~= Seq::new(base.len(), |k: int| (base[k] + old(local)@[k]) as u64));
                assert(local@ =~= Seq::new(base.len(), |k: int| 0u64));
                self.active_hist = Some(hist);
            },
            None => {},
        }
    }

    /// A copy of the histogram, where one is kept: bin `k` counts the positions with exactly `k`
    /// active features.
    pub fn active_histogram_snapshot(&self) -> (r: Option<Vec<u64>>)
        ensures
            r is Some <==> self.histogram() is Some,
            r matches Some(hist) ==> Some(hist@) == self.histogram(),
    {
        match &self.active_hist {
            Some(hist) => {
                let copy = hist.clone();
                assert(copy@ =~= hist@);
                Some(copy)
            },
            None => None,
        }
    }
}

/// What starting a loader gives.
pub open spec fn started(
    file_size: u64,
    args: LoaderArgs,
    r: Result<(BucketedPrefetchedLoader, TrainingPsvReader), SpawnError>,
) -> bool {
    match epoch_error(file_size, args.epoch(), args.score_override, args.score_override_mask) {
        Some(e) => r == Err::<(BucketedPrefetchedLoader, TrainingPsvReader), SpawnError>(
            SpawnError::Epoch(e),
        ),
        None => match args.window_error() {
            Some(e) => r == Err::<(BucketedPrefetchedLoader, TrainingPsvReader), SpawnError>(
                SpawnError::Window(e),
            ),
            None => {
                &&& r is Ok
                &&& loader_started(args, r->Ok_0.0)
                &&& reader_started(args, r->Ok_0.1)
            },
        },
    }
}

/// A fresh loader: its sizes follow from the workers, it has no error, and its histogram, where
/// one is kept, is zero.
pub open spec fn loader_started(args: LoaderArgs, loader: BucketedPrefetchedLoader) -> bool {
    &&& loader.workers() == args.workers()
    &&& loader.depth() == 2 * args.workers()
    &&& loader.slots() == 3 * args.workers() + 1
    &&& loader.error() is None
    &&& loader.histogram() == if args.monitor_active {
        Some(Seq::new((args.feature_set.max_active + 1) as nat, |k: int| 0u64))
    } else {
        None
    }
}

/// A fresh reader: at the start of the file, with windows exactly where they are asked for.
pub open spec fn reader_started(args: LoaderArgs, reader: TrainingPsvReader) -> bool {
    let source = reader.source();
    &&& source.wf()
    &&& source@.config == args.epoch()
    &&& source@.loader == fresh_loader(args.epoch())
    &&& source@.held is None
    &&& source@.record_index == 0
    &&& source@.pushed == 0
    &&& source@.barren == 0
    &&& source@.sidecar is Some <==> args.score_override is Some
    &&& source@.sidecar matches Some(o) ==> o.held() is None && o.masked() == (
    args.score_override_mask is Some) && o.index() == 0
    &&& match reader {
        TrainingPsvReader::Direct(_) => args.teacher_shuffle_buffer_mib == 0,
        TrainingPsvReader::Windowed(_, producer, windows) => {
            &&& args.teacher_shuffle_buffer_mib != 0
            &&& producer.wf()
            &&& producer@ == (ProducerState {
                window_records: args.window_records(),
                shuffle: args.teacher_shuffle,
                seed: args.teacher_shuffle_seed,
                allocated: 0,
                spare: false,
                epoch: 0,
                window: 0,
                records: seq![],
            })
            &&& windows.wf()
            &&& !windows.holds_window()
            &&& windows.rest().len() == 0
            &&& windows.failed() is None
        },
    }
}

/// While at most `depth` finished batches wait, every worker has at most one batch and the caller
/// at most one, a batch that comes back always finds room, and a worker that has none finds an
/// empty one waiting.
pub proof fn slots_never_block(
    args: LoaderArgs,
    loader: BucketedPrefetchedLoader,
    waiting: int,
    in_work: int,
    with_caller: int,
)
    requires
        loader_started(args, loader),
        0 <= waiting <= loader.depth(),
        0 <= in_work <= loader.workers(),
        0 <= with_caller <= 1,
    ensures
        ({
            let empty = loader.slots() - waiting - in_work - with_caller;
            &&& 0 <= empty
            &&& with_caller > 0 ==> empty < loader.slots()
            &&& in_work < loader.workers() ==> empty > 0
        }),
{
}

/// The rows that positions become.
pub open spec fn rows_of(positions: Seq<Position>) -> Seq<Row> {
    Seq::new(positions.len(), |k: int| positions[k].row())
}

/// The buckets of positions, as a batch carries them.
pub open spec fn buckets_of(positions: Seq<Position>) -> Seq<i32> {
    Seq::new(positions.len(), |k: int| positions[k].bucket as i32)
}

/// A histogram with the active features of `positions` counted in.
pub open spec fn all_counted(hist: Seq<u64>, positions: Seq<Position>) -> Seq<u64>
    decreases positions.len(),
{
    if positions.len() == 0 {
        hist
    } else {
        counted(
            all_counted(hist, positions.drop_last()),
            positions.last().stm@.len() as int,
        )
    }
}

/// The first position with more features than a row has room for.
pub open spec fn first_overflow(positions: Seq<Position>, max_active: usize) -> Option<int>
    decreases positions.len(),
{
    if positions.len() == 0 {
        None
    } else {
        match first_overflow(positions.drop_last(), max_active) {
            Some(k) => Some(k),
            None => if positions.last().stm@.len() > max_active {
                Some(positions.len() - 1)
            } else {
                None
            },
        }
    }
}

proof fn lemma_first_overflow_prefix(positions: Seq<Position>, n: int, max_active: usize)
    requires
        0 <= n <= positions.len(),
        first_overflow(positions.take(n), max_active) is Some,
    ensures
        first_overflow(positions, max_active) == first_overflow(positions.take(n), max_active),
    decreases positions.len() - n,
{
    if n < positions.len() {
        assert(positions.take(n + 1).drop_last() =~= positions.take(n));
        lemma_first_overflow_prefix(positions, n + 1, max_active);
    } else {
        assert(positions.take(n) =~= positions);
    }
}

/// What a worker does with the positions it has decoded: it empties the batch and its buckets, and
/// puts the positions in. The batch then holds these positions and nothing of its earlier use. A
/// position with too many features ends the work with an error.
pub fn assemble_batch(
    slot: &mut BatchSlot,
    positions: &Vec<Position>,
    compute_bucket: bool,
    local_hist: &mut Option<Vec<u64>>,
) -> (r: Result<(), ActiveOverflow>)
    requires
        old(slot).0.wf(),
        positions@.len() <= old(slot).0.batch_size,
        forall|k: int| 0 <= k < positions@.len() ==> (#[trigger] positions@[k]).wf(),
        *old(local_hist) matches Some(hist) ==> {
            &&& hist@.len() > old(slot).0.max_active
            &&& forall|k: int|
                0 <= k < hist@.len() ==> #[trigger] hist@[k] + positions@.len() <= u64::MAX
        },
    ensures
        final(slot).0.wf(),
        final(slot).0.batch_size == old(slot).0.batch_size,
        final(slot).0.feature_set == old(slot).0.feature_set,
        *final(local_hist) is Some <==> *old(local_hist) is Some,
        *old(local_hist) matches Some(hist) ==> (*final(local_hist))->Some_0@.len() == hist@.len(),
        match first_overflow(positions@, old(slot).0.max_active) {
            Some(k) => {
                // What stands before the position that does not fit was taken.
                let taken = positions@.take(k);
                &&& 0 <= k < positions@.len()
                &&& r == Err::<(), ActiveOverflow>(
                    ActiveOverflow {
                        written: positions@[k].stm@.len() as usize,
                        max_active: old(slot).0.max_active,
                        feature_set: old(slot).0.feature_set.name,
                    },
                )
                &&& final(slot).0.rows() == rows_of(taken)
                &&& final(slot).1@ == if compute_bucket {
                    buckets_of(taken)
                } else {
                    seq![]
                }
                &&& *old(local_hist) matches Some(hist) ==> (*final(local_hist))->Some_0@
                    == all_counted(hist@, taken)
            },
            None => {
                &&& r == Ok::<(), ActiveOverflow>(())
                &&& final(slot).0.rows() == rows_of(positions@)
                &&& final(slot).1@ == if compute_bucket {
                    buckets_of(positions@)
                } else {
                    seq![]
                }
                &&& *old(local_hist) matches Some(hist) ==> (*final(local_hist))->Some_0@
                    == all_counted(hist@, positions@)
            },
        },
{
    slot.0.reset();
    slot.1.clear();
    let n: usize = positions.len();
    let mut i: usize = 0;
    proof {
        assert(positions@.take(0) =~= seq![]);
        assert(slot.0.rows() =~= rows_of(positions@.take(0)));
        assert(slot.1@ =~= buckets_of(positions@.take(0)));
        assert(slot.1@ =~= Seq::<i32>::empty());
    }
    while i < n
        invariant
            n == positions@.len(),
            i <= n,
            slot.0.wf(),
            slot.0.batch_size == old(slot).0.batch_size,
            slot.0.feature_set == old(slot).0.feature_set,
            slot.0.max_active == old(slot).0.max_active,
            n <= slot.0.batch_size,
            forall|k: int| 0 <= k < positions@.len() ==> (#[trigger] positions@[k]).wf(),
            slot.0.rows() == rows_of(positions@.take(i as int)),
            slot.1@ == if compute_bucket {
                buckets_of(positions@.take(i as int))
            } else {
                Seq::<i32>::empty()
            },
            first_overflow(positions@.take(i as int), slot.0.max_active) is None,
            *local_hist is Some <==> *old(local_hist) is Some,
            *old(local_hist) matches Some(hist) ==> {
                &&& hist@.len() > old(slot).0.max_active
                &&& (*local_hist)->Some_0@ == all_counted(hist@, positions@.take(i as int))
                &&& (*local_hist)->Some_0@.len() == hist@.len()
                &&& forall|k: int|
                    0 <= k < hist@.len() ==> #[trigger] hist@[k] + positions@.len() <= u64::MAX
                &&& forall|k: int|
                    0 <= k < hist@.len() ==> #[trigger] (*local_hist)->Some_0@[k] <= hist@[k] + i
            },
        decreases n - i,
    {
        let ghost before = positions@.take(i as int);
        let ghost after = positions@.take(i + 1);
        proof {
            assert(after.drop_last() =~= before);
            assert(after.last() == positions@[i as int]);
            assert(rows_of(before).len() == i);
            if let Some(hist) = *old(local_hist) {
                let now = (*local_hist)->Some_0@;
                assert forall|k: int| 0 <= k <= slot.0.max_active implies now[k] < u64::MAX by {
                    assert(now[k] <= hist@[k] + i);
                    assert(hist@[k] + n <= u64::MAX);
                }
            }
        }
        match slot.0.push_decoded_counting(&positions[i], local_hist) {
            Ok(_) => {},
            Err(e) => {
                proof {
                    assert(first_overflow(after, slot.0.max_active) == Some(i as int));
                    lemma_first_overflow_prefix(positions@, i + 1, slot.0.max_active);
                }
                return Err(e);
            },
        }
        if compute_bucket {
            slot.1.push(positions[i].bucket as i32);
        }
        proof {
            assert(slot.0.rows() =~= rows_of(after));
            if compute_bucket {
                assert(slot.1@ =~= buckets_of(after));
            }
        }
        i += 1;
    }
    assert(positions@.take(n as int) =~= positions@);
    Ok(())
}

/// What a worker wants done next.
#[derive(Debug)]
pub enum WorkerAction {
    /// Take an empty batch out of the pool.
    BorrowSlot,
    /// Read the next record.
    ReadRecord,
    /// Decode these records, in order.
    Decode(Vec<PackedSfenValue>),
    /// Hand the batch to the caller.
    Deliver(BatchSlot),
    /// End, and put down the error where there is one.
    Exit(Option<LoadError>),
}

/// What came of it.
#[derive(Debug)]
pub enum WorkerEvent {
    /// The worker starts, or its batch was handed over.
    Continue,
    /// An empty batch.
    Slot(BatchSlot),
    /// The pool or the caller is gone.
    Closed,
    /// A record was read.
    Record(PackedSfenValue),
    /// Reading failed.
    ReadFailed(LoadError),
    /// The records were decoded.
    Decoded(Vec<Position>),
}

/// The model of a worker.
pub struct WorkerState {
    /// Positions of one batch.
    pub batch_size: int,
    /// Most features of one position.
    pub max_active: int,
    /// Whether output buckets are carried along.
    pub compute_bucket: bool,
    /// The records read for the batch.
    pub scratch: Seq<PackedSfenValue>,
    /// The batch in hand.
    pub slot: Option<BatchSlot>,
    /// The worker's own counts of active features.
    pub hist: Option<Seq<u64>>,
}

/// What a worker does on an event, and the state it is in then.
pub open spec fn works(
    s: WorkerState,
    event: WorkerEvent,
    t: WorkerState,
    action: WorkerAction,
) -> bool {
    match event {
        WorkerEvent::Continue => t == s && action is BorrowSlot,
        WorkerEvent::Slot(slot) => t == (WorkerState {
            slot: Some(slot),
            scratch: seq![],
            ..s
        }) && action is ReadRecord,
        WorkerEvent::Closed => t == s && action == WorkerAction::Exit(None),
        WorkerEvent::Record(psv) => {
            let read = s.scratch.push(psv);
            if read.len() < s.batch_size {
                t == (WorkerState { scratch: read, ..s }) && action is ReadRecord
            } else {
                &&& t == (WorkerState { scratch: seq![], ..s })
                &&& action matches WorkerAction::Decode(records) && records@ == read
            }
        },
        WorkerEvent::ReadFailed(e) => t == (WorkerState { slot: None, ..s }) && action
            == WorkerAction::Exit(Some(e)),
        WorkerEvent::Decoded(positions) => {
            let batch = s.slot->Some_0.0;
            match first_overflow(positions@, batch.max_active) {
                Some(k) => {
                    &&& t == (WorkerState {
                        slot: None,
                        hist: match s.hist {
                            Some(hist) => Some(all_counted(hist, positions@.take(k))),
                            None => None,
                        },
                        ..s
                    })
                    &&& action matches WorkerAction::Exit(Some(e)) && error_is(
                        e,
                        ErrorKind::InvalidData,
                        ActiveOverflow {
                            written: positions@[k].stm@.len() as usize,
                            max_active: batch.max_active,
                            feature_set: batch.feature_set.name,
                        }.text(),
                    )
                },
                None => {
                    &&& t == (WorkerState {
                        slot: None,
                        hist: match s.hist {
                            Some(hist) => Some(all_counted(hist, positions@)),
                            None => None,
                        },
                        ..s
                    })
                    &&& action matches WorkerAction::Deliver(slot) && slot.0.wf()
                        && slot.0.rows() == rows_of(positions@) && slot.1@ == (
                    if s.compute_bucket {
                        buckets_of(positions@)
                    } else {
                        seq![]
                    })
                },
            }
        },
    }
}

/// One worker of a training loader: it reads the records of a batch, has them decoded once, and
/// fills the batch.
#[derive(Debug)]
pub struct PrefetchWorker {
    batch_size: usize,
    max_active: usize,
    compute_bucket: bool,
    scratch: Vec<PackedSfenValue>,
    slot: Option<BatchSlot>,
    local_hist: Option<Vec<u64>>,
}

impl View for PrefetchWorker {
    type V = WorkerState;

    closed spec fn view(&self) -> WorkerState {
        WorkerState {
            batch_size: self.batch_size as int,
            max_active: self.max_active as int,
            compute_bucket: self.compute_bucket,
            scratch: self.scratch@,
            slot: self.slot,
            hist: match self.local_hist {
                Some(hist) => Some(hist@),
                None => None,
            },
        }
    }
}

/// Counts that are all zero.
pub open spec fn no_counts(hist: Option<Seq<u64>>, len: int) -> bool {
    hist matches Some(h) ==> h == Seq::new(len as nat, |k: int| 0u64)
}

/// Whether a batch is one of those that a worker fills.
pub open spec fn fits_worker(s: WorkerState, slot: BatchSlot) -> bool {
    slot.0.wf() && slot.0.batch_size == s.batch_size && slot.0.max_active == s.max_active
}

impl PrefetchWorker {
    /// The records read make less than a batch, the batch in hand is one of the loader's, and
    /// there is a count for every number of active features.
    pub closed spec fn wf(&self) -> bool {
        &&& 1 <= self.batch_size
        &&& self.scratch@.len() < self.batch_size
        &&& self.slot matches Some(slot) ==> fits_worker(self@, slot)
        &&& self.local_hist matches Some(hist) ==> hist@.len() == self.max_active + 1
    }

    /// A worker of a loader.
    pub fn new(args: &LoaderArgs) -> (r: Self)
        requires
            args.valid(),
        ensures
            r.wf(),
            r@.batch_size == args.batch_size,
            r@.max_active == args.feature_set.max_active,
            r@.compute_bucket == args.compute_bucket,
            r@.scratch == Seq::<PackedSfenValue>::empty(),
            r@.slot is None,
            r@.hist is Some <==> args.monitor_active,
            no_counts(r@.hist, args.feature_set.max_active + 1),
    {
        let local_hist = if args.monitor_active {
            let hist = vec![0u64;args.feature_set.max_active + 1];
            assert(hist@ =~= Seq::new((args.feature_set.max_active + 1) as nat, |k: int| 0u64));
            Some(hist)
        } else {
            None
        };
        PrefetchWorker {
            batch_size: args.batch_size,
            max_active: args.feature_set.max_active,
            compute_bucket: args.compute_bucket,
            scratch: Vec::new(),
            slot: None,
            local_hist,
        }
    }

    /// One turn of the worker.
    pub fn advance(&mut self, event: WorkerEvent) -> (r: WorkerAction)
        requires
            old(self).wf(),
            match event {
                WorkerEvent::Slot(slot) => fits_worker(old(self)@, slot),
                WorkerEvent::Record(_) => old(self)@.slot is Some,
                WorkerEvent::Decoded(positions) => {
                    &&& old(self)@.slot is Some
                    &&& positions@.len() == old(self)@.batch_size
                    &&& forall|k: int|
                        0 <= k < positions@.len() ==> (#[trigger] positions@[k]).wf()
                    &&& no_counts(old(self)@.hist, old(self)@.max_active + 1)
                },
                _ => true,
            },
        ensures
            final(self).wf(),
            works(old(self)@, event, final(self)@, r),
    {
        match event {
            WorkerEvent::Continue => WorkerAction::BorrowSlot,
            WorkerEvent::Slot(slot) => {
                self.slot = Some(slot);
                self.scratch.clear();
                assert(self.scratch@ =~= seq![]);
                WorkerAction::ReadRecord
            },
            WorkerEvent::Closed => WorkerAction::Exit(None),
            WorkerEvent::Record(psv) => {
                let ghost read = self.scratch@.push(psv);
                self.scratch.push(psv);
                if self.scratch.len() < self.batch_size {
                    return WorkerAction::ReadRecord;
                }
                let mut records: Vec<PackedSfenValue> = Vec::new();
                records.append(&mut self.scratch);
                assert(records@ =~= read);
                assert(self.scratch@ =~= seq![]);
                WorkerAction::Decode(records)
            },
            WorkerEvent::ReadFailed(e) => {
                self.slot = None;
                WorkerAction::Exit(Some(e))
            },
            WorkerEvent::Decoded(positions) => match self.slot.take() {
                Some(mut slot) => {
                    match assemble_batch(
                        &mut slot,
                        &positions,
                        self.compute_bucket,
                        &mut self.local_hist,
                    ) {
                        Ok(()) => WorkerAction::Deliver(slot),
                        Err(e) => WorkerAction::Exit(
                            Some(LoadError { kind: e.kind(), message: e.message() }),
                        ),
                    }
                },
                None => WorkerAction::Exit(None),
            },
        }
    }

    /// Adds the worker's counts to those of the loader. Done once for each batch, before it is
    /// handed over.
    pub fn flush_into(&mut self, loader: &mut BucketedPrefetchedLoader)
        requires
            old(self).wf(),
            old(loader).histogram() is Some <==> old(self)@.hist is Some,
            old(loader).histogram() matches Some(hist) ==> {
                let local = old(self)@.hist->Some_0;
                &&& hist.len() == local.len()
                &&& forall|k: int| 0 <= k < hist.len() ==> hist[k] + local[k] <= u64::MAX
            },
        ensures
            final(self).wf(),
            final(loader).same_sizes(old(loader)),
            final(loader).error() == old(loader).error(),
            match old(loader).histogram() {
                Some(hist) => {
                    let local = old(self)@.hist->Some_0;
                    &&& final(loader).histogram() == Some(
                        Seq::new(hist.len(), |k: int| (hist[k] + local[k]) as u64),
                    )
                    &&& final(self)@ == (WorkerState {
                        hist: Some(Seq::new(hist.len(), |k: int| 0u64)),
                        ..old(self)@
                    })
                },
                None => final(loader).histogram() is None && final(self)@ == old(self)@,
            },
    {
        let taken = self.local_hist.take();
        match taken {
            Some(mut local) => {
                loader.flush_histogram(&mut local);
                self.local_hist = Some(local);
            },
            None => {},
        }
    }
}

/// How many positions have exactly `k` active features.
pub open spec fn positions_with(positions: Seq<Position>, k: int) -> int
    decreases positions.len(),
{
    if positions.len() == 0 {
        0
    } else {
        positions_with(positions.drop_last(), k) + if positions.last().stm@.len() == k {
            1int
        } else {
            0int
        }
    }
}

/// Bin `k` of the counts grows by the positions with exactly `k` active features.
pub proof fn counts_are_exact(hist: Seq<u64>, positions: Seq<Position>, k: int)
    requires
        0 <= k < hist.len(),
        forall|j: int| 0 <= j < hist.len() ==> #[trigger] hist[j] + positions.len() <= u64::MAX,
        forall|i: int|
            0 <= i < positions.len() ==> (#[trigger] positions[i]).stm@.len() < hist.len(),
    ensures
        all_counted(hist, positions)[k] == hist[k] + positions_with(positions, k),
        all_counted(hist, positions).len() == hist.len(),
        0 <= positions_with(positions, k) <= positions.len(),
    decreases positions.len(),
{
    if positions.len() > 0 {
        let rest = positions.drop_last();
        assert forall|i: int| 0 <= i < rest.len() implies (#[trigger] rest[i]).stm@.len()
            < hist.len() by {
            assert(rest[i] == positions[i]);
        }
        counts_are_exact(hist, rest, k);
        let at = positions.last().stm@.len() as int;
        assert(positions.last() == positions[positions.len() - 1]);
        counts_are_exact(hist, rest, at);
        assert(hist[at] + positions.len() <= u64::MAX);
    }
}

/// A loader with a single worker that stops at the end of the file.
#[derive(Clone, Copy, Debug, PartialEq, Eq, Structural)]
pub struct PrefetchedLoader {
    depth: usize,
}

impl PrefetchedLoader {
    /// How many batches may wait.
    pub closed spec fn waiting_room(&self) -> int {
        self.depth as int
    }

    /// The loader for a file of `file_size` bytes. A depth of zero counts as one.
    pub fn spawn(file_size: u64, prefetch_depth: usize) -> (r: Result<
        (Self, PsvFileLoader),
        RangeError,
    >)
        ensures
            match range_error(file_size, 0, file_size) {
                Some(e) => r == Err::<(Self, PsvFileLoader), RangeError>(e),
                None => {
                    &&& r is Ok
                    &&& r->Ok_0.0.waiting_room() == if prefetch_depth >= 1 {
                        prefetch_depth as int
                    } else {
                        1
                    }
                    &&& r->Ok_0.1.wf()
                    &&& r->Ok_0.1@ == (LoaderState {
                        remaining: file_size as int,
                        eof: false,
                        pending: seq![],
                    })
                },
            },
    {
        match PsvFileLoader::new(file_size) {
            Ok(loader) => {
                let depth: usize = if prefetch_depth >= 1 {
                    prefetch_depth
                } else {
                    1
                };
                Ok((PrefetchedLoader { depth }, loader))
            },
            Err(e) => Err(e),
        }
    }

    /// The room for batches that wait.
    pub fn depth(&self) -> (r: usize)
        ensures
            r == self.waiting_room(),
    {
        self.depth
    }

    /// What the caller gets for what came out of the channel; `None` there is the end of the file.
    pub fn next_batch(&self, received: Option<Result<Batch, LoadError>>) -> (r: Result<
        Option<Batch>,
        LoadError,
    >)
        ensures
            r == match received {
                Some(Ok(batch)) => Ok::<Option<Batch>, LoadError>(Some(batch)),
                Some(Err(e)) => Err(e),
                None => Ok(None),
            },
    {
        match received {
            Some(Ok(batch)) => Ok(Some(batch)),
            Some(Err(e)) => Err(e),
            None => Ok(None),
        }
    }
}

/// Whether all scores of records are below the drop limit and within the clamp.
pub open spec fn all_within(config: EpochConfig, records: Seq<PackedSfenValue>) -> bool {
    forall|k: int|
        0 <= k < records.len() ==> score_within(config, score_of((#[trigger] records[k])@))
}

/// Whether positions are what records decode to, as far as their number and scores go.
pub open spec fn scores_kept(records: Seq<PackedSfenValue>, positions: Seq<Position>) -> bool {
    &&& positions.len() == records.len()
    &&& forall|k: int|
        0 <= k < records.len() ==> (#[trigger] positions[k]).score == score_of(records[k]@)
}

/// Whether a batch is full, has a bucket for each position where buckets are asked for and none
/// where not, and has scores below the drop limit and within the clamp.
pub open spec fn is_whole(s: WorkerState, config: EpochConfig, slot: BatchSlot) -> bool {
    &&& slot.0.n_positions == s.batch_size
    &&& slot.1@.len() == if s.compute_bucket {
        s.batch_size
    } else {
        0
    }
    &&& forall|i: int|
        0 <= i < s.batch_size ==> score_within(config, #[trigger] slot.0.score@[i])
}

proof fn lemma_worker_keeps(
    states: Seq<WorkerState>,
    events: Seq<WorkerEvent>,
    actions: Seq<WorkerAction>,
    config: EpochConfig,
    n: int,
)
    requires
        states.len() == events.len() + 1,
        actions.len() == events.len(),
        states[0].scratch.len() == 0,
        states[0].batch_size > 0,
        forall|i: int|
            0 <= i < events.len() ==> works(
                states[i],
                #[trigger] events[i],
                states[i + 1],
                actions[i],
            ),
        forall|i: int|
            0 <= i < events.len() ==> (#[trigger] events[i] matches WorkerEvent::Record(psv)
                ==> score_within(config, score_of(psv@))),
        0 <= n <= events.len(),
    ensures
        states[n].batch_size == states[0].batch_size,
        states[n].compute_bucket == states[0].compute_bucket,
        states[n].scratch.len() < states[0].batch_size,
        all_within(config, states[n].scratch),
        n > 0 ==> (actions[n - 1] matches WorkerAction::Decode(records) ==> records@.len()
            == states[0].batch_size && all_within(config, records@)),
    decreases n,
{
    if n > 0 {
        lemma_worker_keeps(states, events, actions, config, n - 1);
        assert(works(states[n - 1], events[n - 1], states[n - 1 + 1], actions[n - 1]));
    }
}

/// Every batch that a worker delivers is full, has the buckets that are asked for, and has scores
/// below the drop limit and within the clamp, where the records that it reads have such scores and
/// decoding keeps them. `states` are the worker from its start on, `events` what it is told and
/// `actions` what it answers.
pub proof fn delivered_batches_are_whole(
    states: Seq<WorkerState>,
    events: Seq<WorkerEvent>,
    actions: Seq<WorkerAction>,
    config: EpochConfig,
    n: int,
)
    requires
        states.len() == events.len() + 1,
        actions.len() == events.len(),
        states[0].scratch.len() == 0,
        states[0].batch_size > 0,
        forall|i: int|
            0 <= i < events.len() ==> works(
                states[i],
                #[trigger] events[i],
                states[i + 1],
                actions[i],
            ),
        forall|i: int|
            0 <= i < events.len() ==> (#[trigger] events[i] matches WorkerEvent::Record(psv)
                ==> score_within(config, score_of(psv@))),
        forall|i: int|
            0 <= i < events.len() ==> (#[trigger] events[i] matches WorkerEvent::Decoded(positions)
                ==> i > 0 && actions[i - 1] is Decode && scores_kept(
                actions[i - 1]->Decode_0@,
                positions@,
            )),
        0 <= n < events.len(),
    ensures
        actions[n] matches WorkerAction::Deliver(slot) ==> is_whole(states[0], config, slot),
{
    lemma_worker_keeps(states, events, actions, config, n);
    let event = events[n];
    assert(works(states[n], event, states[n + 1], actions[n]));
    if let WorkerAction::Deliver(slot) = actions[n] {
        assert(event is Decoded);
        let positions = event->Decoded_0;
        let records = actions[n - 1]->Decode_0;
        assert(slot.0.rows().len() == rows_of(positions@).len());
        assert forall|i: int| 0 <= i < states[0].batch_size implies score_within(
            config,
            #[trigger] slot.0.score@[i],
        ) by {
            assert(slot.0.rows()[i] == rows_of(positions@)[i]);
            assert(positions@[i].score == score_of(records@[i]@));
        }
    }
}

/// Whether an event is what an action of the worker leads to.
pub open spec fn answers(action: WorkerAction, event: WorkerEvent) -> bool {
    match event {
        WorkerEvent::Continue => action is Deliver,
        WorkerEvent::Slot(_) => action is BorrowSlot,
        WorkerEvent::Record(_) | WorkerEvent::ReadFailed(_) => action is ReadRecord,
        WorkerEvent::Decoded(_) => action is Decode,
        WorkerEvent::Closed => action is BorrowSlot || action is Deliver,
    }
}

/// Whether these are the states, events and actions of a worker from its start on.
pub open spec fn is_worker_run(
    states: Seq<WorkerState>,
    events: Seq<WorkerEvent>,
    actions: Seq<WorkerAction>,
) -> bool {
    &&& states.len() == events.len() + 1
    &&& actions.len() == events.len()
    &&& states[0].scratch.len() == 0
    &&& events.len() > 0 ==> events[0] is Continue
    &&& forall|i: int|
        0 <= i < events.len() ==> works(
            states[i],
            #[trigger] events[i],
            states[i + 1],
            actions[i],
        )
    &&& forall|i: int|
        0 < i < events.len() ==> answers(actions[i - 1], #[trigger] events[i])
}

/// The records that a worker read, in order.
pub open spec fn records_read(events: Seq<WorkerEvent>) -> Seq<PackedSfenValue>
    decreases events.len(),
{
    if events.len() == 0 {
        seq![]
    } else {
        match events.last() {
            WorkerEvent::Record(psv) => records_read(events.drop_last()).push(psv),
            _ => records_read(events.drop_last()),
        }
    }
}

/// The rows of the batches that a worker delivered, one batch behind the other.
pub open spec fn rows_delivered(actions: Seq<WorkerAction>) -> Seq<Row>
    decreases actions.len(),
{
    if actions.len() == 0 {
        seq![]
    } else {
        match actions.last() {
            WorkerAction::Deliver(slot) => rows_delivered(actions.drop_last()) + slot.0.rows(),
            _ => rows_delivered(actions.drop_last()),
        }
    }
}

/// The buckets of the batches that a worker delivered, one batch behind the other.
pub open spec fn buckets_delivered(actions: Seq<WorkerAction>) -> Seq<i32>
    decreases actions.len(),
{
    if actions.len() == 0 {
        seq![]
    } else {
        match actions.last() {
            WorkerAction::Deliver(slot) => buckets_delivered(actions.drop_last()) + slot.1@,
            _ => buckets_delivered(actions.drop_last()),
        }
    }
}

/// Whether positions are what records decode to: `row_of` and `bucket_of` say what becomes of a
/// record.
pub open spec fn decoded_as(
    records: Seq<PackedSfenValue>,
    positions: Seq<Position>,
    row_of: spec_fn(PackedSfenValue) -> Row,
    bucket_of: spec_fn(PackedSfenValue) -> u8,
) -> bool {
    &&& positions.len() == records.len()
    &&& forall|k: int|
        0 <= k < records.len() ==> (#[trigger] positions[k]).row() == row_of(records[k])
            && positions[k].bucket == bucket_of(records[k])
}

/// Whether every answer of the decoder is what the records of the question decode to.
pub open spec fn decoder_is_right(
    events: Seq<WorkerEvent>,
    actions: Seq<WorkerAction>,
    row_of: spec_fn(PackedSfenValue) -> Row,
    bucket_of: spec_fn(PackedSfenValue) -> u8,
) -> bool {
    forall|i: int|
        0 < i < events.len() ==> (#[trigger] events[i] matches WorkerEvent::Decoded(positions)
            ==> decoded_as(actions[i - 1]->Decode_0@, positions@, row_of, bucket_of))
}

/// What holds of a worker after the first `n` events.
spec fn batches_follow(
    states: Seq<WorkerState>,
    events: Seq<WorkerEvent>,
    actions: Seq<WorkerAction>,
    row_of: spec_fn(PackedSfenValue) -> Row,
    bucket_of: spec_fn(PackedSfenValue) -> u8,
    n: int,
) -> bool {
    let read = records_read(events.take(n));
    let rows = rows_delivered(actions.take(n));
    let g = rows.len() as int;
    let scratch = states[n].scratch;
    &&& g <= read.len()
    &&& rows == Seq::new(g as nat, |k: int| row_of(read[k]))
    &&& buckets_delivered(actions.take(n)) == if states[0].compute_bucket {
        Seq::new(g as nat, |k: int| bucket_of(read[k]) as i32)
    } else {
        seq![]
    }
    &&& states[n].compute_bucket == states[0].compute_bucket
    &&& if n == 0 {
        scratch.len() == 0 && g == read.len()
    } else {
        match actions[n - 1] {
            WorkerAction::BorrowSlot | WorkerAction::Deliver(_) => scratch.len() == 0 && g
                == read.len(),
            WorkerAction::ReadRecord => scratch == read.skip(g),
            WorkerAction::Decode(records) => scratch.len() == 0 && records@ == read.skip(g),
            WorkerAction::Exit(_) => true,
        }
    }
}

proof fn lemma_batches_follow(
    states: Seq<WorkerState>,
    events: Seq<WorkerEvent>,
    actions: Seq<WorkerAction>,
    row_of: spec_fn(PackedSfenValue) -> Row,
    bucket_of: spec_fn(PackedSfenValue) -> u8,
    n: int,
)
    requires
        is_worker_run(states, events, actions),
        decoder_is_right(events, actions, row_of, bucket_of),
        0 <= n <= events.len(),
    ensures
        batches_follow(states, events, actions, row_of, bucket_of, n),
    decreases n,
{
    if n == 0 {
        assert(events.take(0) =~= seq![]);
        assert(actions.take(0) =~= seq![]);
        let read = records_read(events.take(0));
        assert(rows_delivered(actions.take(0)) =~= Seq::new(0, |k: int| row_of(read[k])));
        assert(Seq::<i32>::empty() =~= Seq::new(0, |k: int| bucket_of(read[k]) as i32));
    } else {
        let m = n - 1;
        lemma_batches_follow(states, events, actions, row_of, bucket_of, m);
        let s = states[m];
        let event = events[m];
        let action = actions[m];
        assert(works(s, event, states[m + 1], action));
        assert(m > 0 ==> answers(actions[m - 1], event));
        assert(events.take(n).drop_last() =~= events.take(m));
        assert(actions.take(n).drop_last() =~= actions.take(m));
        assert(events.take(n).last() == event);
        assert(actions.take(n).last() == action);
        let read = records_read(events.take(m));
        let g = rows_delivered(actions.take(m)).len() as int;
        let read2 = records_read(events.take(n));
        let rows2 = rows_delivered(actions.take(n));
        let buckets2 = buckets_delivered(actions.take(n));
        match event {
            WorkerEvent::Record(psv) => {
                assert(read2 == read.push(psv));
                assert(read2.skip(g) =~= read.skip(g).push(psv));
                assert(rows2 =~= Seq::new(g as nat, |k: int| row_of(read2[k])));
                if s.compute_bucket {
                    assert(buckets2 =~= Seq::new(g as nat, |k: int| bucket_of(read2[k]) as i32));
                }
            },
            WorkerEvent::Slot(_) => {
                assert(read2.skip(g) =~= seq![]);
            },
            WorkerEvent::Decoded(positions) => {
                let records = actions[m - 1]->Decode_0@;
                assert(decoded_as(records, positions@, row_of, bucket_of));
                if let WorkerAction::Deliver(slot) = action {
                    let len = read.len() as int;
                    assert(slot.0.rows() == rows_of(positions@));
                    assert forall|k: int| g <= k < len implies row_of(read[k])
                        == #[trigger] positions@[k - g].row() && positions@[k - g].bucket
                        == bucket_of(read[k]) by {
                        assert(records[k - g] == read[k]);
                    }
                    assert(rows2 =~= Seq::new(len as nat, |k: int| row_of(read2[k])));
                    if s.compute_bucket {
                        assert(buckets2 =~= Seq::new(
                            len as nat,
                            |k: int| bucket_of(read2[k]) as i32,
                        ));
                    } else {
                        assert(buckets2 =~= seq![]);
                    }
                }
            },
            _ => {},
        }
    }
}

/// The batches of one worker, joined, are the records that it read, decoded and in their order: so
/// with a single worker the order of the positions is fixed. Where a batch was just delivered, or
/// the next one is to be begun, they are all of the records.
pub proof fn batches_are_the_records_read(
    states: Seq<WorkerState>,
    events: Seq<WorkerEvent>,
    actions: Seq<WorkerAction>,
    row_of: spec_fn(PackedSfenValue) -> Row,
    bucket_of: spec_fn(PackedSfenValue) -> u8,
)
    requires
        is_worker_run(states, events, actions),
        decoder_is_right(events, actions, row_of, bucket_of),
    ensures
        ({
            let read = records_read(events);
            let rows = rows_delivered(actions);
            let g = rows.len() as int;
            &&& g <= read.len()
            &&& rows == read.take(g).map_values(row_of)
            &&& buckets_delivered(actions) == if states[0].compute_bucket {
                read.take(g).map_values(|psv: PackedSfenValue| bucket_of(psv) as i32)
            } else {
                seq![]
            }
            &&& actions.len() > 0 && (actions.last() is Deliver || actions.last() is BorrowSlot)
                ==> g == read.len()
        }),
{
    let n = events.len() as int;
    lemma_batches_follow(states, events, actions, row_of, bucket_of, n);
    assert(events.take(n) =~= events);
    assert(actions.take(n) =~= actions);
    let read = records_read(events);
    let g = rows_delivered(actions).len() as int;
    assert(rows_delivered(actions) =~= read.take(g).map_values(row_of));
    if states[0].compute_bucket {
        assert(buckets_delivered(actions) =~= read.take(g).map_values(
            |psv: PackedSfenValue| bucket_of(psv) as i32,
        ));
    }
}

/// Which position stops a batch: the first one with more features than fit.
pub proof fn the_first_overflow_is_told(positions: Seq<Position>, max_active: usize)
    ensures
        match first_overflow(positions, max_active) {
            Some(k) => {
                &&& 0 <= k < positions.len()
                &&& positions[k].stm@.len() > max_active
                &&& forall|j: int|
                    0 <= j < k ==> (#[trigger] positions[j]).stm@.len() <= max_active
            },
            None => forall|j: int|
                0 <= j < positions.len() ==> (#[trigger] positions[j]).stm@.len() <= max_active,
        },
    decreases positions.len(),
{
    if positions.len() > 0 {
        let front = positions.drop_last();
        the_first_overflow_is_told(front, max_active);
        assert forall|j: int| 0 <= j < front.len() implies front[j] == #[trigger] positions[j] by {}
        if first_overflow(front, max_active) is Some {
            let k = first_overflow(front, max_active)->Some_0;
            assert forall|j: int| 0 <= j < k implies (#[trigger] positions[j]).stm@.len()
                <= max_active by {
                assert(front[j].stm@.len() <= max_active);
            }
        } else {
            assert forall|j: int| 0 <= j < front.len() implies (#[trigger] positions[j]).stm@.len()
                <= max_active by {
                assert(front[j].stm@.len() <= max_active);
            }
        }
    }
}

/// How a loader's arguments are used: it reads from the start of the file to the end of the
/// training data under the limits and labels that it was given, with at least one worker; its
/// windows hold as many whole batches as fit into the buffer, and it is refused where not even one
/// fits.
pub proof fn loaders_use_their_arguments(args: LoaderArgs)
    requires
        args.valid(),
    ensures
        ({
            let epoch = args.epoch();
            &&& epoch.start_offset == 0 && epoch.end_offset == args.train_end_offset
            &&& epoch.score_drop_abs == args.score_drop_abs
            &&& epoch.score_clamp_abs == args.score_clamp_abs
            &&& epoch.dual_label_psv == args.dual_label_psv
        }),
        args.workers() >= 1 && args.num_workers <= args.workers() <= args.num_workers + 1,
        args.num_workers >= 1 ==> args.workers() == args.num_workers,
        ({
            let bytes = args.teacher_shuffle_buffer_mib * 1048576;
            let n = args.window_records();
            &&& args.window_error() is None <==> bytes == 0 || 40 * args.batch_size <= bytes
                <= usize::MAX
            &&& n % (args.batch_size as int) == 0
            &&& 40 * n <= bytes < 40 * (n + args.batch_size)
        }),
{
    let bytes = args.teacher_shuffle_buffer_mib * 1048576;
    let b = args.batch_size as int;
    let records = bytes / 40;
    vstd::arithmetic::div_mod::lemma_fundamental_div_mod(records, b);
    vstd::arithmetic::div_mod::lemma_mod_bound(records, b);
    let q = records / b;
    assert(records - records % b == q * b) by (nonlinear_arith)
        requires
            records == b * q + records % b,
    ;
    vstd::arithmetic::div_mod::lemma_mod_multiples_basic(q, b);
    assert(40 * records <= bytes < 40 * (records + 1));
}

/// Rows and buckets stand in the order of the positions.
pub proof fn rows_follow_the_positions(positions: Seq<Position>, k: int)
    requires
        0 <= k < positions.len(),
    ensures
        rows_of(positions).len() == positions.len(),
        buckets_of(positions).len() == positions.len(),
        rows_of(positions)[k].stm == positions[k].stm@,
        rows_of(positions)[k].nstm == positions[k].nstm@,
        rows_of(positions)[k].score == positions[k].score,
        rows_of(positions)[k].wdl == crate::batch::wdl_of(positions[k].result),
        buckets_of(positions)[k] == positions[k].bucket,
{
}

/// A fresh reader stands at the start of the file and has given nothing. It has windows exactly
/// where a buffer for them is asked for, of the size and with the seed that were given.
pub proof fn readers_have_windows_where_asked(args: LoaderArgs, reader: TrainingPsvReader)
    requires
        reader_started(args, reader),
    ensures
        reader is Windowed <==> args.teacher_shuffle_buffer_mib > 0,
        reader.source()@.record_index == 0 && reader.source()@.pushed == 0,
        reader.source()@.loader.remaining == args.train_end_offset,
        reader.source()@.loader.pending.len() == 0 && !reader.source()@.loader.eof,
        reader.source()@.sidecar is None <==> args.score_override is None,
        reader matches TrainingPsvReader::Windowed(_, producer, windows) ==> {
            &&& producer@.window_records == args.window_records()
            &&& producer@.shuffle <==> args.teacher_shuffle
            &&& producer@.seed == args.teacher_shuffle_seed
            &&& producer@.epoch == 0 && producer@.window == 0 && producer@.records.len() == 0
            &&& windows.rest().len() == 0 && windows.failed() is None
        },
{
}

} // verus!
