//! Two windows of records in turn: a producer fills and shuffles one while the other is consumed.

use vstd::prelude::*;
use vstd::string::*;

use crate::error::ErrorKind;
use crate::psv::PackedSfenValue;
use crate::shuffle::{shuffle_window, shuffled, shuffling_is_a_permutation};
use crate::text::{decimal, push_decimal};

verus! {

/// Window buffers that exist at the same time.
pub const WINDOW_BUFFERS: usize = 2;

/// An error on its way from a reader to whoever asks for records.
#[derive(Debug)]
pub struct LoadError {
    pub kind: ErrorKind,
    pub message: String,
}

/// The error of a window buffer that could not be had; `cause` is the allocator's word on it.
fn window_allocation_error(window_records: usize, cause: &str) -> (r: LoadError)
    ensures
        r.kind == ErrorKind::Other,
        r.message@ == "failed to allocate teacher shuffle window for "@ + decimal(
            window_records as nat,
        ) + " records: "@ + cause@,
{
    let mut out = "failed to allocate teacher shuffle window for ".to_owned();
    push_decimal(&mut out, window_records as u64);
    out.append(" records: ");
    out.append(cause);
    LoadError { kind: ErrorKind::Other, message: out }
}

/// Where the buffer of the next window comes from.
#[derive(Clone, Copy, Debug, PartialEq, Eq, Structural)]
pub enum BufferSource {
    /// The last buffer stayed empty and is used again.
    Spare,
    /// A new buffer is to be allocated.
    Allocate,
    /// The consumer has to give a buffer back first.
    Returned,
}

/// The number that follows, wrapping at the end of the machine word.
pub open spec fn successor(n: u64) -> u64 {
    if n == u64::MAX {
        0
    } else {
        (n + 1) as u64
    }
}

/// The model of a producer.
pub struct ProducerState {
    /// Records of a full window.
    pub window_records: int,
    /// Whether windows are shuffled, and from which seed.
    pub shuffle: bool,
    pub seed: u64,
    /// Buffers allocated so far.
    pub allocated: int,
    /// Whether the last window stayed empty, so that its buffer is at hand.
    pub spare: bool,
    /// The numbers of the epoch and of the window in it.
    pub epoch: u64,
    pub window: u64,
    /// The records of the window being filled.
    pub records: Seq<PackedSfenValue>,
}

/// The window that is sent for the records gathered.
pub open spec fn window_sent(s: ProducerState) -> Seq<PackedSfenValue> {
    if s.shuffle {
        shuffled(s.records, s.seed, s.epoch, s.window)
    } else {
        s.records
    }
}

/// The epoch and window numbers after a window is closed. An empty window takes no number.
pub open spec fn numbers_after(s: ProducerState, reached_epoch_end: bool) -> (u64, u64) {
    if reached_epoch_end {
        (successor(s.epoch), 0)
    } else if s.records.len() == 0 {
        (s.epoch, s.window)
    } else {
        (s.epoch, successor(s.window))
    }
}

/// Gathers records into windows. A window ends when it is full or when its epoch ends.
#[derive(Debug)]
pub struct WindowProducer {
    window_records: usize,
    shuffle: bool,
    seed: u64,
    allocated: usize,
    spare: bool,
    epoch: u64,
    window: u64,
    records: Vec<PackedSfenValue>,
}

impl View for WindowProducer {
    type V = ProducerState;

    closed spec fn view(&self) -> ProducerState {
        ProducerState {
            window_records: self.window_records as int,
            shuffle: self.shuffle,
            seed: self.seed,
            allocated: self.allocated as int,
            spare: self.spare,
            epoch: self.epoch,
            window: self.window,
            records: self.records@,
        }
    }
}

impl WindowProducer {
    /// No window overflows, and there are never more than two buffers.
    pub closed spec fn wf(&self) -> bool {
        &&& self.records@.len() <= self.window_records
        &&& self.allocated <= WINDOW_BUFFERS
        &&& self.spare ==> self.records@.len() == 0
    }

    /// A producer at the start of the first epoch.
    pub fn new(window_records: usize, shuffle: bool, seed: u64) -> (r: Self)
        ensures
            r.wf(),
            r@ == (ProducerState {
                window_records: window_records as int,
                shuffle,
                seed,
                allocated: 0,
                spare: false,
                epoch: 0,
                window: 0,
                records: seq![],
            }),
    {
        let records: Vec<PackedSfenValue> = Vec::new();
        assert(records@ =~= seq![]);
        WindowProducer {
            window_records,
            shuffle,
            seed,
            allocated: 0,
            spare: false,
            epoch: 0,
            window: 0,
            records,
        }
    }

    /// Says where the buffer of the next window comes from, and counts it where it is new.
    fn next_buffer(&mut self) -> (r: BufferSource)
        requires
            old(self).wf(),
        ensures
            final(self).wf(),
            final(self)@ == (ProducerState {
                spare: false,
                allocated: final(self)@.allocated,
                ..old(self)@
            }),
            final(self)@.allocated <= WINDOW_BUFFERS,
            r == if old(self)@.spare {
                BufferSource::Spare
            } else if old(self)@.allocated < WINDOW_BUFFERS {
                BufferSource::Allocate
            } else {
                BufferSource::Returned
            },
            final(self)@.allocated == if r == BufferSource::Allocate {
                old(self)@.allocated + 1
            } else {
                old(self)@.allocated
            },
    {
        if self.spare {
            self.spare = false;
            BufferSource::Spare
        } else if self.allocated < WINDOW_BUFFERS {
            self.allocated = self.allocated + 1;
            BufferSource::Allocate
        } else {
            BufferSource::Returned
        }
    }

    /// Starts a window in `buffer`, whose old contents are dropped.
    fn start(&mut self, buffer: Vec<PackedSfenValue>)
        requires
            old(self).wf(),
        ensures
            final(self).wf(),
            final(self)@ == (ProducerState { records: seq![], ..old(self)@ }),
    {
        self.records = buffer;
        self.records.clear();
        assert(self.records@ =~= seq![]);
    }

    /// Whether the window has room.
    fn wants_record(&self) -> (r: bool)
        ensures
            r == (self@.records.len() < self@.window_records),
    {
        self.records.len() < self.window_records
    }

    /// Puts a record into the window.
    fn offer(&mut self, psv: PackedSfenValue)
        requires
            old(self).wf(),
            !old(self)@.spare,
            old(self)@.records.len() < old(self)@.window_records,
        ensures
            final(self).wf(),
            final(self)@ == (ProducerState {
                records: old(self)@.records.push(psv),
                ..old(self)@
            }),
    {
        self.records.push(psv);
    }

    /// Closes the window: shuffles it and gives it out, or keeps its buffer when it is empty.
    fn close(&mut self, reached_epoch_end: bool) -> (r: Option<Vec<PackedSfenValue>>)
        requires
            old(self).wf(),
        ensures
            final(self).wf(),
            final(self)@ == (ProducerState {
                epoch: numbers_after(old(self)@, reached_epoch_end).0,
                window: numbers_after(old(self)@, reached_epoch_end).1,
                spare: old(self)@.records.len() == 0,
                records: seq![],
                ..old(self)@
            }),
            r is Some <==> old(self)@.records.len() > 0,
            r matches Some(window) ==> window@ == window_sent(old(self)@),
    {
        let ghost sent = window_sent(self@);
        if self.records.len() == 0 {
            if reached_epoch_end {
                self.epoch = self.epoch.wrapping_add(1);
                self.window = 0;
            }
            self.spare = true;
            assert(self.records@ =~= seq![]);
            return None;
        }
        let mut records: Vec<PackedSfenValue> = Vec::new();
        records.append(&mut self.records);
        assert(records@ =~= old(self)@.records);
        assert(self.records@ =~= seq![]);
        if self.shuffle {
            shuffle_window(&mut records, self.seed, self.epoch, self.window);
        }
        self.spare = false;
        self.window = self.window.wrapping_add(1);
        if reached_epoch_end {
            self.epoch = self.epoch.wrapping_add(1);
            self.window = 0;
        }
        Some(records)
    }
}

/// What a producer wants done next.
#[derive(Debug)]
pub enum ProducerAction {
    /// Allocate a buffer for so many records.
    Allocate(usize),
    /// Wait for a buffer that the consumer gives back.
    AwaitBuffer,
    /// Read the next record of the current epoch.
    ReadRecord,
    /// Hand a window to the consumer.
    Send(Vec<PackedSfenValue>),
    /// Hand the error to the consumer and end.
    Fail(LoadError),
}

/// What came of it.
#[derive(Debug)]
pub enum ProducerEvent {
    /// The producer starts, or a window was handed over.
    Continue,
    /// A buffer is there.
    Buffer(Vec<PackedSfenValue>),
    /// No buffer could be allocated; the allocator's word on it.
    AllocationFailed(String),
    /// A record was read.
    Record(PackedSfenValue),
    /// The epoch is over.
    EpochEnd,
    /// Reading failed.
    ReadFailed(LoadError),
}

/// The producer after asking for a buffer.
pub open spec fn after_request(s: ProducerState) -> ProducerState {
    ProducerState {
        spare: false,
        allocated: if !s.spare && s.allocated < WINDOW_BUFFERS {
            s.allocated + 1
        } else {
            s.allocated
        },
        ..s
    }
}

/// The producer after closing a window.
pub open spec fn after_close(s: ProducerState, reached_epoch_end: bool) -> ProducerState {
    ProducerState {
        epoch: numbers_after(s, reached_epoch_end).0,
        window: numbers_after(s, reached_epoch_end).1,
        spare: s.records.len() == 0,
        records: seq![],
        ..s
    }
}

/// What a producer that needs a buffer wants. One that kept the buffer of an empty window goes on
/// reading into it.
pub open spec fn wants_buffer(s: ProducerState, action: ProducerAction) -> bool {
    if s.spare {
        action is ReadRecord
    } else if s.allocated < WINDOW_BUFFERS {
        action == ProducerAction::Allocate(s.window_records as usize)
    } else {
        action is AwaitBuffer
    }
}

/// What a producer does on an event, and the state it is in then.
pub open spec fn produces(
    s: ProducerState,
    event: ProducerEvent,
    t: ProducerState,
    action: ProducerAction,
) -> bool {
    match event {
        ProducerEvent::Continue => t == after_request(s) && wants_buffer(s, action),
        ProducerEvent::Buffer(_) => t == (ProducerState { records: seq![], ..s })
            && action is ReadRecord,
        ProducerEvent::AllocationFailed(cause) => {
            &&& t == s
            &&& action matches ProducerAction::Fail(e) && e.kind == ErrorKind::Other
                && e.message@ == "failed to allocate teacher shuffle window for "@ + decimal(
                s.window_records as nat,
            ) + " records: "@ + cause@
        },
        ProducerEvent::Record(psv) => {
            let filled = ProducerState { records: s.records.push(psv), ..s };
            if filled.records.len() < s.window_records {
                t == filled && action is ReadRecord
            } else {
                &&& t == after_close(filled, false)
                &&& action matches ProducerAction::Send(window) && window@ == window_sent(filled)
            }
        },
        ProducerEvent::EpochEnd => if s.records.len() > 0 {
            &&& t == after_close(s, true)
            &&& action matches ProducerAction::Send(window) && window@ == window_sent(s)
        } else {
            // The empty window keeps its buffer, and the next epoch begins in it.
            &&& t == after_request(after_close(s, true))
            &&& action is ReadRecord
        },
        ProducerEvent::ReadFailed(e) => t == s && action == ProducerAction::Fail(e),
    }
}

impl WindowProducer {
    /// One turn of the producer. A window is read record by record until it is full or its epoch
    /// ends, and is never carried over into the next epoch.
    pub fn advance(&mut self, event: ProducerEvent) -> (r: ProducerAction)
        requires
            old(self).wf(),
            event is Record || event is EpochEnd ==> !old(self)@.spare && old(self)@.records.len()
                < old(self)@.window_records,
        ensures
            final(self).wf(),
            produces(old(self)@, event, final(self)@, r),
    {
        match event {
            ProducerEvent::Continue => self.request(),
            ProducerEvent::Buffer(buffer) => {
                self.start(buffer);
                ProducerAction::ReadRecord
            },
            ProducerEvent::AllocationFailed(cause) => {
                ProducerAction::Fail(window_allocation_error(self.window_records, cause.as_str()))
            },
            ProducerEvent::Record(psv) => {
                self.offer(psv);
                if self.wants_record() {
                    return ProducerAction::ReadRecord;
                }
                match self.close(false) {
                    Some(window) => ProducerAction::Send(window),
                    None => ProducerAction::ReadRecord,
                }
            },
            ProducerEvent::EpochEnd => match self.close(true) {
                Some(window) => ProducerAction::Send(window),
                None => self.request(),
            },
            ProducerEvent::ReadFailed(e) => ProducerAction::Fail(e),
        }
    }

    /// Asks for the buffer of the next window.
    fn request(&mut self) -> (r: ProducerAction)
        requires
            old(self).wf(),
        ensures
            final(self).wf(),
            final(self)@ == after_request(old(self)@),
            wants_buffer(old(self)@, r),
    {
        match self.next_buffer() {
            BufferSource::Spare => ProducerAction::ReadRecord,
            BufferSource::Allocate => ProducerAction::Allocate(self.window_records),
            BufferSource::Returned => ProducerAction::AwaitBuffer,
        }
    }
}

/// The windows that an epoch with the records `records` gives from its window `window` on.
pub open spec fn epoch_windows(
    s: ProducerState,
    records: Seq<PackedSfenValue>,
    window: u64,
) -> Seq<Seq<PackedSfenValue>>
    decreases records.len(),
{
    let w = s.window_records;
    if records.len() == 0 || w <= 0 {
        seq![]
    } else if records.len() <= w {
        seq![window_sent(ProducerState { records, window, ..s })]
    } else {
        seq![window_sent(ProducerState { records: records.take(w), window, ..s })] + epoch_windows(
            s,
            records.skip(w),
            successor(window),
        )
    }
}

/// The windows of an epoch cut its records at every `window_records`: window `k` holds exactly the
/// records of its stretch, in some order, so no window mixes records from both sides of a
/// boundary, and joined the windows hold the epoch's records.
pub proof fn windows_partition_the_epoch(
    s: ProducerState,
    records: Seq<PackedSfenValue>,
    window: u64,
)
    requires
        s.window_records > 0,
    ensures
        ({
            let w = s.window_records;
            let windows = epoch_windows(s, records, window);
            &&& windows.len() == (records.len() + w - 1) / w
            &&& forall|k: int|
                0 <= k < windows.len() ==> (#[trigger] windows[k]).to_multiset() == records.subrange(
                    k * w,
                    if (k + 1) * w <= records.len() {
                        (k + 1) * w
                    } else {
                        records.len() as int
                    },
                ).to_multiset()
        }),
    decreases records.len(),
{
    let w = s.window_records;
    let windows = epoch_windows(s, records, window);
    if records.len() == 0 {
        assert((w - 1) / w == 0) by (nonlinear_arith)
            requires
                w > 0,
        ;
    } else if records.len() <= w {
        shuffling_is_a_permutation(records, s.seed, s.epoch, window);
        assert(records.subrange(0, records.len() as int) =~= records);
        let n = records.len();
        assert((n + w - 1) / w == 1) by (nonlinear_arith)
            requires
                0 < n <= w,
        ;
        assert(0 * w == 0 && (0 + 1) * w == w) by (nonlinear_arith);
    } else {
        let head = records.take(w);
        let rest = records.skip(w);
        shuffling_is_a_permutation(head, s.seed, s.epoch, window);
        windows_partition_the_epoch(s, rest, successor(window));
        let tail = epoch_windows(s, rest, successor(window));
        let n = records.len();
        assert((n + w - 1) / w == (n - w + w - 1) / w + 1) by (nonlinear_arith)
            requires
                w > 0,
        ;
        assert forall|k: int| 0 <= k < windows.len() implies (#[trigger] windows[k]).to_multiset()
            == records.subrange(
            k * w,
            if (k + 1) * w <= records.len() {
                (k + 1) * w
            } else {
                records.len() as int
            },
        ).to_multiset() by {
            if k == 0 {
                assert(0 * w == 0 && (0 + 1) * w == w) by (nonlinear_arith);
                assert(records.subrange(0, w) =~= head);
            } else {
                let j = k - 1;
                assert(windows[k] == tail[j]);
                assert(k * w == j * w + w) by (nonlinear_arith)
                    requires
                        k == j + 1,
                ;
                assert((k + 1) * w == (j + 1) * w + w) by (nonlinear_arith)
                    requires
                        k == j + 1,
                ;
                assert(j * w >= 0) by (nonlinear_arith)
                    requires
                        j >= 0,
                        w > 0,
                ;
                let hi = if (j + 1) * w <= rest.len() {
                    (j + 1) * w
                } else {
                    rest.len() as int
                };
                assert(j * w <= hi) by {
                    assert(j * w < rest.len()) by (nonlinear_arith)
                        requires
                            0 <= j,
                            j < (rest.len() + w - 1) / w,
                            w > 0,
                    ;
                    assert(j * w <= (j + 1) * w) by (nonlinear_arith)
                        requires
                            w > 0,
                    ;
                }
                assert(rest.subrange(j * w, hi) =~= records.subrange(j * w + w, hi + w));
            }
        }
    }
}

/// The windows sent while the records of an epoch are read one by one, and what is gathered then.
/// Between two windows the producer gets an empty buffer.
pub open spec fn sent_while_reading(s: ProducerState, records: Seq<PackedSfenValue>) -> (
    ProducerState,
    Seq<Seq<PackedSfenValue>>,
)
    decreases records.len(),
{
    if records.len() == 0 {
        (s, seq![])
    } else {
        let filled = ProducerState { records: s.records.push(records[0]), ..s };
        if filled.records.len() < s.window_records {
            sent_while_reading(filled, records.drop_first())
        } else {
            let (t, sent) = sent_while_reading(
                ProducerState { spare: false, ..after_close(filled, false) },
                records.drop_first(),
            );
            (t, seq![window_sent(filled)] + sent)
        }
    }
}

/// The windows of a whole epoch: those sent while its records are read, and at its end the one
/// that was not full.
pub open spec fn sent_in_epoch(
    s: ProducerState,
    records: Seq<PackedSfenValue>,
) -> Seq<Seq<PackedSfenValue>> {
    let (t, sent) = sent_while_reading(s, records);
    if t.records.len() > 0 {
        sent.push(window_sent(t))
    } else {
        sent
    }
}

/// Reading an epoch record by record sends the windows that cut its records at every
/// `window_records`.
pub proof fn producer_sends_the_epoch_windows(s: ProducerState, records: Seq<PackedSfenValue>)
    requires
        s.window_records > 0,
        s.records.len() < s.window_records,
    ensures
        sent_in_epoch(s, records) == epoch_windows(s, s.records + records, s.window),
    decreases records.len(),
{
    let w = s.window_records;
    if records.len() == 0 {
        assert(s.records + records =~= s.records);
        assert(ProducerState { records: s.records, window: s.window, ..s } == s);
        assert(sent_in_epoch(s, records) =~= epoch_windows(s, s.records, s.window));
    } else {
        let rest = records.drop_first();
        let filled = ProducerState { records: s.records.push(records[0]), ..s };
        assert(s.records + records =~= filled.records + rest);
        if filled.records.len() < w {
            producer_sends_the_epoch_windows(filled, rest);
            equal_settings_give_equal_windows(s, filled, s.records + records, s.window);
        } else {
            let next = ProducerState { spare: false, ..after_close(filled, false) };
            producer_sends_the_epoch_windows(next, rest);
            assert(next.records + rest =~= rest);
            equal_settings_give_equal_windows(s, next, rest, next.window);
            let all = s.records + records;
            assert(ProducerState { records: filled.records, window: s.window, ..s } == filled);
            if rest.len() == 0 {
                assert(all =~= filled.records);
                assert(sent_in_epoch(s, records) =~= epoch_windows(s, all, s.window));
            } else {
                assert(all.take(w) =~= filled.records);
                assert(all.skip(w) =~= rest);
                assert(sent_in_epoch(s, records) =~= seq![window_sent(filled)] + sent_in_epoch(
                    next,
                    rest,
                ));
            }
        }
    }
}

/// The windows of an epoch depend on its records and number, the seed, the window size and whether
/// they are shuffled, and on nothing else of the producer: so a second run sends the same.
pub proof fn equal_settings_give_equal_windows(
    a: ProducerState,
    b: ProducerState,
    records: Seq<PackedSfenValue>,
    window: u64,
)
    requires
        a.window_records == b.window_records,
        a.shuffle == b.shuffle,
        a.seed == b.seed,
        a.epoch == b.epoch,
    ensures
        epoch_windows(a, records, window) == epoch_windows(b, records, window),
    decreases records.len(),
{
    let w = a.window_records;
    if records.len() > 0 && w > 0 && records.len() > w {
        equal_settings_give_equal_windows(a, b, records.skip(w), successor(window));
    }
}

/// What the consumer of the windows answers.
#[derive(Debug)]
pub enum WindowStep {
    /// A record.
    Record(PackedSfenValue),
    /// The current window is used up; its buffer goes back and the next window is needed.
    NeedWindow(Option<Vec<PackedSfenValue>>),
    /// Reading failed before and stays failed.
    Failed(LoadError),
}

/// What comes from the producer.
#[derive(Debug)]
pub enum WindowEvent {
    /// A window.
    Window(Vec<PackedSfenValue>),
    /// The producer failed.
    Error(LoadError),
    /// The producer is gone.
    Stopped,
}

/// Hands out the records of the windows one by one.
#[derive(Debug)]
pub struct WindowedPsvReader {
    current: Option<Vec<PackedSfenValue>>,
    next: usize,
    failure: Option<String>,
}

impl WindowedPsvReader {
    /// The records of the current window that were not given out yet.
    pub closed spec fn rest(&self) -> Seq<PackedSfenValue> {
        match self.current {
            Some(records) => records@.skip(self.next as int),
            None => seq![],
        }
    }

    /// Whether a window is held, used up or not.
    pub closed spec fn holds_window(&self) -> bool {
        self.current is Some
    }

    /// The window that is held.
    pub closed spec fn window(&self) -> Option<Vec<PackedSfenValue>> {
        self.current
    }

    /// The text of the failure, once there was one.
    pub closed spec fn failed(&self) -> Option<Seq<char>> {
        match self.failure {
            Some(text) => Some(text@),
            None => None,
        }
    }

    /// The position is inside the window.
    pub closed spec fn wf(&self) -> bool {
        self.current matches Some(records) ==> self.next <= records@.len()
    }

    /// A reader that has no window yet.
    pub fn new() -> (r: Self)
        ensures
            r.wf(),
            r.rest() == Seq::<PackedSfenValue>::empty(),
            !r.holds_window(),
            r.failed() is None,
    {
        WindowedPsvReader { current: None, next: 0, failure: None }
    }

    /// The next record of the current window, or what stands against it. After a failure every
    /// call repeats its text.
    pub fn next(&mut self) -> (r: WindowStep)
        requires
            old(self).wf(),
        ensures
            final(self).wf(),
            final(self).failed() == old(self).failed(),
            old(self).failed() is None ==> is_window_turn(
                *old(self),
                WindowTurn::Next(r),
                *final(self),
            ),
            match old(self).failed() {
                Some(text) => {
                    &&& *final(self) == *old(self)
                    &&& r matches WindowStep::Failed(e) && e.kind == ErrorKind::Other
                        && e.message@ == text
                },
                None => if old(self).rest().len() > 0 {
                    &&& r == WindowStep::Record(old(self).rest()[0])
                    &&& final(self).rest() == old(self).rest().drop_first()
                    &&& final(self).window() == old(self).window()
                    &&& final(self).holds_window()
                } else {
                    &&& r == WindowStep::NeedWindow(old(self).window())
                    &&& old(self).window() is Some <==> old(self).holds_window()
                    &&& !final(self).holds_window()
                    &&& final(self).rest() == old(self).rest()
                },
            },
    {
        if let Some(text) = &self.failure {
            return WindowStep::Failed(LoadError { kind: ErrorKind::Other, message: text.clone() });
        }
        if let Some(records) = &self.current {
            if self.next < records.len() {
                let value = records[self.next];
                let ghost before = self.rest();
                self.next = self.next + 1;
                assert(self.rest() =~= before.drop_first());
                return WindowStep::Record(value);
            }
        }
        let buffer = self.current.take();
        assert(self.rest() =~= old(self).rest());
        WindowStep::NeedWindow(buffer)
    }

    /// Takes what the producer sent. A failure is given back once as it came, and its text is
    /// kept for the calls that follow.
    pub fn receive(&mut self, event: WindowEvent) -> (r: Result<(), LoadError>)
        requires
            old(self).wf(),
            old(self).rest().len() == 0,
            old(self).failed() is None,
        ensures
            final(self).wf(),
            event matches WindowEvent::Window(records) ==> is_window_turn(
                *old(self),
                WindowTurn::Receive(records),
                *final(self),
            ),
            match event {
                WindowEvent::Window(records) => {
                    &&& r is Ok
                    &&& final(self).rest() == records@
                    &&& final(self).window() == Some(records)
                    &&& final(self).holds_window()
                    &&& final(self).failed() is None
                },
                WindowEvent::Error(e) => {
                    &&& r == Err::<(), LoadError>(e)
                    &&& final(self).failed() == Some(e.message@)
                    &&& final(self).rest() == old(self).rest()
                    &&& final(self).window() == old(self).window()
                    &&& final(self).holds_window() == old(self).holds_window()
                },
                WindowEvent::Stopped => {
                    &&& final(self).rest() == old(self).rest()
                    &&& final(self).window() == old(self).window()
                    &&& final(self).holds_window() == old(self).holds_window()
                    &&& r matches Err(e)
                    &&& r->Err_0.kind == ErrorKind::Other
                    &&& r->Err_0.message@ == "PSV window producer stopped"@
                    &&& final(self).failed() == Some("PSV window producer stopped"@)
                },
            },
    {
        match event {
            WindowEvent::Window(records) => {
                let ghost given = records@;
                self.current = Some(records);
                self.next = 0;
                assert(self.rest() =~= given);
                Ok(())
            },
            WindowEvent::Error(e) => {
                self.failure = Some(e.message.clone());
                Err(e)
            },
            WindowEvent::Stopped => {
                self.failure = Some("PSV window producer stopped".to_owned());
                Err(
                    LoadError {
                        kind: ErrorKind::Other,
                        message: "PSV window producer stopped".to_owned(),
                    },
                )
            },
        }
    }
}

/// One call of a window reader, with its answer.
pub enum WindowTurn {
    Next(WindowStep),
    /// A window that came from the producer.
    Receive(Vec<PackedSfenValue>),
}

/// Whether a call leads from one reader to another, where reading does not fail: the records of
/// the window go out one by one, and the next window is taken when it is used up.
pub open spec fn is_window_turn(
    s: WindowedPsvReader,
    turn: WindowTurn,
    t: WindowedPsvReader,
) -> bool {
    match turn {
        WindowTurn::Next(r) => if s.rest().len() > 0 {
            r == WindowStep::Record(s.rest()[0]) && t.rest() == s.rest().drop_first()
        } else {
            r == WindowStep::NeedWindow(s.window()) && t.rest() == s.rest()
        },
        WindowTurn::Receive(records) => s.rest().len() == 0 && t.rest() == records@,
    }
}

/// The records that calls gave, in order.
pub open spec fn records_given(turns: Seq<WindowTurn>) -> Seq<PackedSfenValue>
    decreases turns.len(),
{
    if turns.len() == 0 {
        seq![]
    } else {
        match turns.last() {
            WindowTurn::Next(WindowStep::Record(psv)) => records_given(turns.drop_last()).push(psv),
            _ => records_given(turns.drop_last()),
        }
    }
}

/// The windows that came, in order.
pub open spec fn windows_taken(turns: Seq<WindowTurn>) -> Seq<Seq<PackedSfenValue>>
    decreases turns.len(),
{
    if turns.len() == 0 {
        seq![]
    } else {
        match turns.last() {
            WindowTurn::Receive(records) => windows_taken(turns.drop_last()).push(records@),
            _ => windows_taken(turns.drop_last()),
        }
    }
}

/// Windows one behind the other.
pub open spec fn windows_joined(windows: Seq<Seq<PackedSfenValue>>) -> Seq<PackedSfenValue>
    decreases windows.len(),
{
    if windows.len() == 0 {
        seq![]
    } else {
        windows_joined(windows.drop_last()) + windows.last()
    }
}

/// The reader gives the windows that it takes, one behind the other and each in its order: what it
/// gave and what is left of the window in hand are the windows taken.
pub proof fn reader_gives_the_windows(readers: Seq<WindowedPsvReader>, turns: Seq<WindowTurn>)
    requires
        readers.len() == turns.len() + 1,
        readers[0].rest().len() == 0,
        forall|i: int|
            0 <= i < turns.len() ==> is_window_turn(
                readers[i],
                #[trigger] turns[i],
                readers[i + 1],
            ),
    ensures
        records_given(turns) + readers.last().rest() == windows_joined(windows_taken(turns)),
    decreases turns.len(),
{
    if turns.len() == 0 {
        assert(records_given(turns) + readers.last().rest() =~= seq![]);
    } else {
        let before = turns.drop_last();
        let s = readers[turns.len() - 1];
        let t = readers.last();
        assert forall|i: int| 0 <= i < before.len() implies is_window_turn(
            readers.drop_last()[i],
            #[trigger] before[i],
            readers.drop_last()[i + 1],
        ) by {
            assert(before[i] == turns[i]);
        }
        reader_gives_the_windows(readers.drop_last(), before);
        assert(readers.drop_last().last() == s);
        assert(is_window_turn(s, turns[turns.len() - 1], t));
        match turns.last() {
            WindowTurn::Next(_) => {
                if s.rest().len() > 0 {
                    assert(records_given(turns) + t.rest() =~= records_given(before) + s.rest());
                }
            },
            WindowTurn::Receive(records) => {
                let all = windows_taken(turns);
                assert(all.drop_last() =~= windows_taken(before));
                assert(records_given(before) + s.rest() =~= records_given(before));
                assert(records_given(turns) + t.rest() =~= windows_joined(all));
            },
        }
    }
}

proof fn lemma_joined_first(
    first: Seq<PackedSfenValue>,
    rest: Seq<Seq<PackedSfenValue>>,
)
    ensures
        windows_joined(seq![first] + rest) == first + windows_joined(rest),
    decreases rest.len(),
{
    let all = seq![first] + rest;
    if rest.len() == 0 {
        assert(all.drop_last() =~= seq![]);
        assert(all.last() == first);
        assert(windows_joined(all.drop_last()) =~= seq![]);
        assert(windows_joined(all) =~= first + windows_joined(rest));
    } else {
        lemma_joined_first(first, rest.drop_last());
        assert(all.drop_last() =~= seq![first] + rest.drop_last());
        assert(all.last() == rest.last());
        assert(windows_joined(all) =~= first + windows_joined(rest));
    }
}

proof fn lemma_epoch_stretch(
    s: ProducerState,
    records: Seq<PackedSfenValue>,
    window: u64,
    k: int,
)
    requires
        s.window_records > 0,
        0 <= k,
        k * s.window_records < records.len(),
    ensures
        ({
            let w = s.window_records;
            let given = windows_joined(epoch_windows(s, records, window));
            let hi = if (k + 1) * w <= records.len() {
                (k + 1) * w
            } else {
                records.len() as int
            };
            &&& given.len() == records.len()
            &&& 0 <= k * w <= hi <= records.len()
            &&& given.subrange(k * w, hi).to_multiset() == records.subrange(
                k * w,
                hi,
            ).to_multiset()
            &&& !s.shuffle ==> given == records
        }),
    decreases records.len(),
{
    let w = s.window_records;
    lemma_epoch_joined(s, records, window);
    let given = windows_joined(epoch_windows(s, records, window));
    let hi = if (k + 1) * w <= records.len() {
        (k + 1) * w
    } else {
        records.len() as int
    };
    assert((k + 1) * w == k * w + w) by (nonlinear_arith);
    assert(0 <= k * w) by (nonlinear_arith)
        requires
            k >= 0,
            w > 0,
    ;
    if records.len() <= w {
        assert(k == 0) by (nonlinear_arith)
            requires
                k * w < records.len(),
                records.len() <= w,
                k >= 0,
                w > 0,
        ;
        assert(0 * w == 0) by (nonlinear_arith);
        shuffling_is_a_permutation(records, s.seed, s.epoch, window);
        let sent = window_sent(ProducerState { records, window, ..s });
        lemma_joined_first(sent, seq![]);
        assert(seq![sent] + Seq::<Seq<PackedSfenValue>>::empty() =~= seq![sent]);
        assert(given =~= sent);
        assert(hi == records.len());
        assert(given.subrange(0, hi) =~= given);
        assert(records.subrange(0, hi) =~= records);
    } else {
        let head = records.take(w);
        let rest = records.skip(w);
        let sent = window_sent(ProducerState { records: head, window, ..s });
        let tail = epoch_windows(s, rest, successor(window));
        shuffling_is_a_permutation(head, s.seed, s.epoch, window);
        lemma_joined_first(sent, tail);
        assert(given == sent + windows_joined(tail));
        lemma_sent_len(s, head, window);
        if k == 0 {
            assert(0 * w == 0) by (nonlinear_arith);
            assert(given.subrange(0, w) =~= sent);
            assert(records.subrange(0, w) =~= head);
        } else {
            let j = k - 1;
            assert(k * w == j * w + w) by (nonlinear_arith)
                requires
                    k == j + 1,
            ;
            assert((j + 1) * w == j * w + w) by (nonlinear_arith);
            lemma_epoch_stretch(s, rest, successor(window), j);
            let low = if (j + 1) * w <= rest.len() {
                (j + 1) * w
            } else {
                rest.len() as int
            };
            assert(hi == low + w);
            assert(given.subrange(k * w, hi) =~= windows_joined(tail).subrange(j * w, low));
            assert(records.subrange(k * w, hi) =~= rest.subrange(j * w, low));
        }
    }
}

proof fn lemma_sent_len(s: ProducerState, records: Seq<PackedSfenValue>, window: u64)
    ensures
        window_sent(ProducerState { records, window, ..s }).len() == records.len(),
{
    shuffling_is_a_permutation(records, s.seed, s.epoch, window);
}

proof fn lemma_epoch_joined(s: ProducerState, records: Seq<PackedSfenValue>, window: u64)
    requires
        s.window_records > 0,
    ensures
        windows_joined(epoch_windows(s, records, window)).len() == records.len(),
        !s.shuffle ==> windows_joined(epoch_windows(s, records, window)) == records,
    decreases records.len(),
{
    let w = s.window_records;
    if records.len() == 0 {
        assert(windows_joined(epoch_windows(s, records, window)) =~= records);
    } else if records.len() <= w {
        let sent = window_sent(ProducerState { records, window, ..s });
        lemma_sent_len(s, records, window);
        lemma_joined_first(sent, seq![]);
        assert(seq![sent] + Seq::<Seq<PackedSfenValue>>::empty() =~= seq![sent]);
        assert(windows_joined(epoch_windows(s, records, window)) =~= sent);
    } else {
        let head = records.take(w);
        let rest = records.skip(w);
        let sent = window_sent(ProducerState { records: head, window, ..s });
        lemma_sent_len(s, head, window);
        lemma_epoch_joined(s, rest, successor(window));
        lemma_joined_first(sent, epoch_windows(s, rest, successor(window)));
        if !s.shuffle {
            assert(head + rest =~= records);
        }
    }
}

/// What the reader gives over one epoch, where the producer's windows reach it in order: as many
/// records as the epoch has; those from `k * w` to `(k + 1) * w` are the records that stand there
/// in the file, in some order, so that no window mixes with its neighbours; and without shuffling
/// the records are given as they stand.
pub proof fn epoch_is_given_window_by_window(
    readers: Seq<WindowedPsvReader>,
    turns: Seq<WindowTurn>,
    s: ProducerState,
    records: Seq<PackedSfenValue>,
    k: int,
)
    requires
        readers.len() == turns.len() + 1,
        readers[0].rest().len() == 0,
        forall|i: int|
            0 <= i < turns.len() ==> is_window_turn(
                readers[i],
                #[trigger] turns[i],
                readers[i + 1],
            ),
        readers.last().rest().len() == 0,
        s.window_records > 0,
        s.records.len() == 0,
        windows_taken(turns) == sent_in_epoch(s, records),
        0 <= k,
        k * s.window_records < records.len(),
    ensures
        ({
            let w = s.window_records;
            let given = records_given(turns);
            let hi = if (k + 1) * w <= records.len() {
                (k + 1) * w
            } else {
                records.len() as int
            };
            &&& given.len() == records.len()
            &&& 0 <= k * w <= hi <= records.len()
            &&& given.subrange(k * w, hi).to_multiset() == records.subrange(
                k * w,
                hi,
            ).to_multiset()
            &&& !s.shuffle ==> given == records
        }),
{
    reader_gives_the_windows(readers, turns);
    assert(records_given(turns) + readers.last().rest() =~= records_given(turns));
    producer_sends_the_epoch_windows(s, records);
    assert(s.records + records =~= records);
    lemma_epoch_stretch(s, records, s.window, k);
}

/// Which records a window holds and how they are shuffled: window `k` of an epoch holds the records
/// from `k` times the window size on, in their order or shuffled by the seed, the number of the
/// epoch and the window's own number, which goes up by one from window to window.
pub proof fn windows_are_shuffled_by_their_number(
    s: ProducerState,
    records: Seq<PackedSfenValue>,
    window: u64,
    k: int,
)
    requires
        s.window_records > 0,
        0 <= k,
        k * s.window_records < records.len(),
        window + k <= u64::MAX,
    ensures
        ({
            let w = s.window_records;
            let part = records.subrange(
                k * w,
                if (k + 1) * w <= records.len() {
                    (k + 1) * w
                } else {
                    records.len() as int
                },
            );
            let windows = epoch_windows(s, records, window);
            &&& k < windows.len()
            &&& windows[k] == if s.shuffle {
                shuffled(part, s.seed, s.epoch, (window + k) as u64)
            } else {
                part
            }
        }),
    decreases records.len(),
{
    let w = s.window_records;
    if k == 0 {
        assert(0 * w == 0 && 1 * w == w);
        if records.len() <= w {
            assert(records.subrange(0, records.len() as int) =~= records);
        } else {
            assert(records.subrange(0, w) =~= records.take(w));
        }
    } else {
        assert(k * w == (k - 1) * w + w && (k + 1) * w == k * w + w) by (nonlinear_arith);
        assert((k - 1) * w >= 0) by (nonlinear_arith)
            requires
                k >= 1,
                w > 0,
        ;
        let rest = records.skip(w);
        windows_are_shuffled_by_their_number(s, rest, (window + 1) as u64, k - 1);
        let (lo, hi) = (
            k * w,
            if (k + 1) * w <= records.len() {
                (k + 1) * w
            } else {
                records.len() as int
            },
        );
        assert(rest.subrange(lo - w, hi - w) =~= records.subrange(lo, hi));
        assert(epoch_windows(s, records, window)[k] == epoch_windows(
            s,
            rest,
            (window + 1) as u64,
        )[k - 1]);
    }
}

/// How windows are numbered: a window that was sent is followed by the next number of the same
/// epoch, and the end of an epoch by window zero of the next epoch. The first window of all is
/// window zero of epoch zero.
pub proof fn windows_are_numbered_in_turn(s: ProducerState)
    ensures
        s.records.len() > 0 && s.window < u64::MAX ==> numbers_after(s, false) == (
            s.epoch,
            (s.window + 1) as u64,
        ),
        s.epoch < u64::MAX ==> numbers_after(s, true) == ((s.epoch + 1) as u64, 0u64),
        s.records.len() == 0 ==> numbers_after(s, false) == (s.epoch, s.window),
{
}

/// What a producer keeps from turn to turn: its settings never change, it has at most two buffers,
/// each with room for a window, and it waits for one to come back only when both are out. Asking
/// for a buffer loses no records, and a fault is handed on.
pub proof fn two_buffers_go_round(
    s: ProducerState,
    event: ProducerEvent,
    t: ProducerState,
    action: ProducerAction,
)
    requires
        produces(s, event, t, action),
        0 <= s.allocated <= 2,
        0 < s.window_records <= usize::MAX,
    ensures
        t.window_records == s.window_records && t.shuffle == s.shuffle && t.seed == s.seed,
        t.allocated <= 2,
        t.allocated == s.allocated + if action is Allocate {
            1int
        } else {
            0int
        },
        action matches ProducerAction::Allocate(n) ==> n == s.window_records && !s.spare && event
            is Continue,
        action is AwaitBuffer ==> s.allocated == 2 && !s.spare && event is Continue,
        event is Continue ==> {
            &&& action is ReadRecord || action is Allocate || action is AwaitBuffer
            &&& action is ReadRecord <==> s.spare
            &&& t.records == s.records && t.epoch == s.epoch && t.window == s.window && !t.spare
        },
        event is Buffer ==> t.records.len() == 0 && t.epoch == s.epoch && t.window == s.window
            && t.spare == s.spare && action is ReadRecord,
        event is AllocationFailed || event is ReadFailed ==> t == s && action is Fail,
        event matches ProducerEvent::ReadFailed(e) ==> action == ProducerAction::Fail(e),
        action is Fail ==> event is AllocationFailed || event is ReadFailed,
{
}

} // verus!
