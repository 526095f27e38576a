//! Cutting a byte stream into records. The caller reads the file and hands over what each read
//! gave; the loaders here say how much to read and what the bytes amount to.

use vstd::prelude::*;
use vstd::string::*;

use crate::batch::{ActiveOverflow, Batch, Position, Row};
use crate::error::ErrorKind;
use crate::psv::{PackedSfenValue, RECORD_LEN};
use crate::shuffle::PSV_RECORD_BYTES;
use crate::text::{decimal, push_decimal};

verus! {

/// Why a byte range of a data file cannot be read record by record.
#[derive(Clone, Copy, Debug, PartialEq, Eq, Structural)]
pub enum RangeError {
    /// The range starts behind its end.
    Inverted { start: u64, end: u64 },
    /// The range ends behind the file.
    PastEnd { end: u64, file_size: u64 },
    /// An end of the range is no record boundary.
    Misaligned { start: u64, end: u64 },
}

impl RangeError {
    /// The class of the error.
    pub fn kind(&self) -> (r: ErrorKind)
        ensures
            r == ErrorKind::Other,
    {
        ErrorKind::Other
    }

    /// The text of the error for the file at `path`.
    pub open spec fn text(self, path: Seq<char>) -> Seq<char> {
        match self {
            RangeError::Inverted { start, end } => {
                "PsvFileLoader range start ("@ + decimal(start as nat) + ") > end ("@ + decimal(
                    end as nat,
                ) + ") for "@ + path
            },
            RangeError::PastEnd { end, file_size } => {
                "PsvFileLoader range end ("@ + decimal(end as nat) + ") > file size ("@ + decimal(
                    file_size as nat,
                ) + ") for "@ + path
            },
            RangeError::Misaligned { start, end } => {
                "PsvFileLoader range ["@ + decimal(start as nat) + ", "@ + decimal(end as nat)
                    + ") is not aligned to PSV record size (40 bytes) for "@ + path
            },
        }
    }

    /// The text of the error for the file at `path`.
    pub fn message(&self, path: &str) -> (r: String)
        ensures
            r@ == self.text(path@),
    {
        match *self {
            RangeError::Inverted { start, end } => {
                let mut out = "PsvFileLoader range start (".to_owned();
                push_decimal(&mut out, start);
                out.append(") > end (");
                push_decimal(&mut out, end);
                out.append(") for ");
                out.append(path);
                out
            },
            RangeError::PastEnd { end, file_size } => {
                let mut out = "PsvFileLoader range end (".to_owned();
                push_decimal(&mut out, end);
                out.append(") > file size (");
                push_decimal(&mut out, file_size);
                out.append(") for ");
                out.append(path);
                out
            },
            RangeError::Misaligned { start, end } => {
                let mut out = "PsvFileLoader range [".to_owned();
                push_decimal(&mut out, start);
                out.append(", ");
                push_decimal(&mut out, end);
                out.append(") is not aligned to PSV record size (40 bytes) for ");
                out.append(path);
                out
            },
        }
    }
}

/// The data ended inside a record.
#[derive(Clone, Copy, Debug, PartialEq, Eq, Structural)]
pub struct PartialRecord {
    /// Bytes of the record that were there.
    pub got: usize,
}

impl PartialRecord {
    /// The class of the error.
    pub fn kind(&self) -> (r: ErrorKind)
        ensures
            r == ErrorKind::UnexpectedEof,
    {
        ErrorKind::UnexpectedEof
    }

    /// The text of the error.
    pub open spec fn text(self) -> Seq<char> {
        "partial PSV record: got "@ + decimal(self.got as nat) + " of 40 bytes"@
    }

    /// The text of the error.
    pub fn message(&self) -> (r: String)
        ensures
            r@ == self.text(),
    {
        let mut out = "partial PSV record: got ".to_owned();
        push_decimal(&mut out, self.got as u64);
        out.append(" of 40 bytes");
        out
    }
}

/// What the bytes of one read amount to.
#[derive(Clone, Copy, Debug)]
pub enum ReadStep {
    /// The record is not complete; read on.
    More,
    /// A record is complete.
    Record(PackedSfenValue),
    /// The data ended at a record boundary.
    End,
}

/// The model of a loader: the bytes of the range not yet cut off, whether the end was seen, and
/// the bytes of the record that is being read.
pub struct LoaderState {
    pub remaining: int,
    pub eof: bool,
    pub pending: Seq<u8>,
}

/// What a read of `chunk` makes of a loader.
pub open spec fn loader_after(s: LoaderState, chunk: Seq<u8>) -> LoaderState {
    if chunk.len() == 0 {
        LoaderState { eof: s.eof || s.pending.len() == 0, pending: seq![], ..s }
    } else if s.pending.len() + chunk.len() < 40 {
        LoaderState { pending: s.pending + chunk, ..s }
    } else {
        LoaderState { remaining: s.remaining - 40, pending: seq![], ..s }
    }
}

/// Reads a range of a data file one record at a time.
#[derive(Debug)]
pub struct PsvFileLoader {
    eof: bool,
    remaining_bytes: u64,
    pending: Vec<u8>,
}

/// The error that a range gives, if it gives one. The first that applies is reported.
pub open spec fn range_error(file_size: u64, start: u64, end: u64) -> Option<RangeError> {
    if start > end {
        Some(RangeError::Inverted { start, end })
    } else if end > file_size {
        Some(RangeError::PastEnd { end, file_size })
    } else if start % 40 != 0 || end % 40 != 0 {
        Some(RangeError::Misaligned { start, end })
    } else {
        None
    }
}

impl View for PsvFileLoader {
    type V = LoaderState;

    closed spec fn view(&self) -> LoaderState {
        LoaderState {
            remaining: self.remaining_bytes as int,
            eof: self.eof,
            pending: self.pending@,
        }
    }
}

impl PsvFileLoader {
    /// Less than one record is pending, and a record is pending only inside the range.
    pub closed spec fn wf(&self) -> bool {
        &&& self.pending@.len() < 40
        &&& self.pending@.len() > 0 ==> !self.eof && self.remaining_bytes >= 40
    }

    /// A loader over the whole file: the same as the range from its start to its size.
    pub fn new(file_size: u64) -> (r: Result<Self, RangeError>)
        ensures
            match range_error(file_size, 0, file_size) {
                Some(e) => r == Err::<Self, RangeError>(e),
                None => r is Ok && r->Ok_0.wf() && r->Ok_0@ == (LoaderState {
                    remaining: file_size as int,
                    eof: false,
                    pending: seq![],
                }),
            },
    {
        Self::open_range(file_size, 0, file_size)
    }

    /// A loader over the bytes `start..end` of a file. The caller reads from `start` on.
    pub fn new_range(file_size: u64, start: u64, end: u64) -> (r: Result<Self, RangeError>)
        ensures
            match range_error(file_size, start, end) {
                Some(e) => r == Err::<Self, RangeError>(e),
                None => r is Ok && r->Ok_0.wf() && r->Ok_0@ == (LoaderState {
                    remaining: end - start,
                    eof: false,
                    pending: seq![],
                }),
            },
    {
        Self::open_range(file_size, start, end)
    }

    fn open_range(file_size: u64, start: u64, end: u64) -> (r: Result<Self, RangeError>)
        ensures
            match range_error(file_size, start, end) {
                Some(e) => r == Err::<Self, RangeError>(e),
                None => r is Ok && r->Ok_0.wf() && r->Ok_0@ == (LoaderState {
                    remaining: end - start,
                    eof: false,
                    pending: seq![],
                }),
            },
    {
        if start > end {
            return Err(RangeError::Inverted { start, end });
        }
        if end > file_size {
            return Err(RangeError::PastEnd { end, file_size });
        }
        if start % PSV_RECORD_BYTES != 0 || end % PSV_RECORD_BYTES != 0 {
            return Err(RangeError::Misaligned { start, end });
        }
        let pending: Vec<u8> = Vec::with_capacity(RECORD_LEN);
        assert(pending@ =~= seq![]);
        Ok(PsvFileLoader { eof: false, remaining_bytes: end - start, pending })
    }

    /// Asks for the next record: how many bytes the next read may give at most, or `None` at the end
    /// of the range, which then stays the end.
    pub fn next_psv(&mut self) -> (r: Option<usize>)
        requires
            old(self).wf(),
        ensures
            final(self).wf(),
            r is None <==> (old(self)@.eof || old(self)@.remaining < 40),
            r is None ==> final(self)@ == (LoaderState { eof: true, ..old(self)@ }),
            r matches Some(n) ==> n == 40 - old(self)@.pending.len() && final(self)@ == old(self)@,
    {
        if self.eof || self.remaining_bytes < PSV_RECORD_BYTES {
            self.eof = true;
            return None;
        }
        Some(RECORD_LEN - self.pending.len())
    }

    /// Takes the bytes that one read gave, none at the end of the file.
    pub fn supply(&mut self, chunk: &[u8]) -> (r: Result<ReadStep, PartialRecord>)
        requires
            old(self).wf(),
            !old(self)@.eof,
            old(self)@.remaining >= 40,
            old(self)@.pending.len() + chunk@.len() <= 40,
        ensures
            final(self).wf(),
            final(self)@ == loader_after(old(self)@, chunk@),
            ({
                let pending = old(self)@.pending;
                if chunk@.len() == 0 && pending.len() > 0 {
                    r == Err::<ReadStep, PartialRecord>(
                        PartialRecord { got: pending.len() as usize },
                    )
                } else if chunk@.len() == 0 {
                    r == Ok::<ReadStep, PartialRecord>(ReadStep::End)
                } else if pending.len() + chunk@.len() < 40 {
                    r == Ok::<ReadStep, PartialRecord>(ReadStep::More)
                } else {
                    r matches Ok(ReadStep::Record(psv)) && psv@ == pending + chunk@
                }
            }),
    {
        if chunk.len() == 0 {
            let got: usize = self.pending.len();
            if got == 0 {
                self.eof = true;
                assert(self.pending@ =~= seq![]);
                return Ok(ReadStep::End);
            }
            self.pending.clear();
            assert(self.pending@ =~= seq![]);
            return Err(PartialRecord { got });
        }
        self.pending.extend_from_slice(chunk);
        assert(self.pending@ =~= old(self)@.pending + chunk@);
        if self.pending.len() < RECORD_LEN {
            return Ok(ReadStep::More);
        }
        let psv = PackedSfenValue::from_slice(self.pending.as_slice());
        self.pending.clear();
        assert(self.pending@ =~= seq![]);
        self.remaining_bytes = self.remaining_bytes - PSV_RECORD_BYTES;
        Ok(ReadStep::Record(psv))
    }
}

/// What filling a batch wants done next.
#[derive(Clone, Copy, Debug)]
pub enum FillStep {
    /// Read at most so many bytes.
    Read(usize),
    /// Decode this record.
    Decode(PackedSfenValue),
    /// The batch is full or the data is at its end; so many positions are in it.
    Done(usize),
}

/// What came of it.
#[derive(Debug)]
pub enum FillEvent<'a> {
    /// A batch is to be filled.
    Begin,
    /// A read gave these bytes, none at the end of the file.
    Bytes(&'a [u8]),
    /// A record was decoded.
    Decoded(&'a Position),
}

/// Why a batch could not be filled.
#[derive(Clone, Copy, Debug)]
pub enum FillError {
    /// The data ended inside a record.
    Partial(PartialRecord),
    /// A position has more active features than fit.
    Overflow(ActiveOverflow),
}

/// What filling wants, by how full the batch is and what the loader has left.
pub open spec fn fill_wants(loader: LoaderState, rows: int, batch_size: int) -> FillStep {
    if rows >= batch_size || loader.eof || loader.remaining < 40 {
        FillStep::Done(rows as usize)
    } else {
        FillStep::Read((40 - loader.pending.len()) as usize)
    }
}

/// The loader after being asked for a record that the batch has room for.
pub open spec fn asked(loader: LoaderState, rows: int, batch_size: int) -> LoaderState {
    LoaderState {
        eof: loader.eof || (rows < batch_size && loader.remaining < 40),
        ..loader
    }
}

impl PsvFileLoader {
    /// One turn of filling a batch: it is emptied first, then takes one record after the other
    /// until it is full or the data ends.
    pub fn fill_batch(&mut self, batch: &mut Batch, event: FillEvent<'_>) -> (r: Result<
        FillStep,
        FillError,
    >)
        requires
            old(self).wf(),
            old(batch).wf(),
            match event {
                FillEvent::Begin => true,
                FillEvent::Bytes(chunk) => {
                    &&& !old(self)@.eof
                    &&& old(self)@.remaining >= 40
                    &&& old(self)@.pending.len() + chunk@.len() <= 40
                },
                FillEvent::Decoded(position) => position.wf() && old(batch).rows().len() < old(
                    batch,
                ).batch_size,
            },
        ensures
            final(self).wf(),
            final(batch).wf(),
            final(batch).batch_size == old(batch).batch_size,
            final(batch).feature_set == old(batch).feature_set,
            ({
                let s = old(self)@;
                let rows = old(batch).rows();
                let size = old(batch).batch_size as int;
                match event {
                    FillEvent::Begin => {
                        &&& final(batch).rows() == Seq::<Row>::empty()
                        &&& final(self)@ == asked(s, 0, size)
                        &&& r == Ok::<FillStep, FillError>(fill_wants(s, 0, size))
                    },
                    FillEvent::Bytes(chunk) => {
                        let t = loader_after(s, chunk@);
                        &&& final(batch).rows() == rows
                        &&& if chunk@.len() == 0 && s.pending.len() > 0 {
                            &&& final(self)@ == t
                            &&& r matches Err(FillError::Partial(e)) && e.got == s.pending.len()
                        } else if s.pending.len() + chunk@.len() < 40 {
                            &&& final(self)@ == asked(t, rows.len() as int, size)
                            &&& r == Ok::<FillStep, FillError>(
                                fill_wants(t, rows.len() as int, size),
                            )
                        } else {
                            &&& final(self)@ == t
                            &&& r matches Ok(FillStep::Decode(psv)) && psv@ == s.pending + chunk@
                        }
                    },
                    FillEvent::Decoded(position) => if position.stm@.len() > old(
                        batch,
                    ).max_active {
                        &&& final(batch).rows() == rows
                        &&& final(self)@ == s
                        &&& r == Err::<FillStep, FillError>(
                            FillError::Overflow(
                                ActiveOverflow {
                                    written: position.stm@.len() as usize,
                                    max_active: old(batch).max_active,
                                    feature_set: old(batch).feature_set.name,
                                },
                            ),
                        )
                    } else {
                        &&& final(batch).rows() == rows.push(position.row())
                        &&& final(self)@ == asked(s, rows.len() as int + 1, size)
                        &&& r == Ok::<FillStep, FillError>(fill_wants(s, rows.len() as int + 1, size))
                    },
                }
            }),
    {
        match event {
            FillEvent::Begin => {
                batch.reset();
                Ok(self.fill_on(batch))
            },
            FillEvent::Bytes(chunk) => match self.supply(chunk) {
                Ok(ReadStep::Record(psv)) => Ok(FillStep::Decode(psv)),
                Ok(_) => Ok(self.fill_on(batch)),
                Err(e) => Err(FillError::Partial(e)),
            },
            FillEvent::Decoded(position) => match batch.push_decoded(position) {
                Ok(_) => Ok(self.fill_on(batch)),
                Err(e) => Err(FillError::Overflow(e)),
            },
        }
    }

    /// What filling wants next.
    fn fill_on(&mut self, batch: &Batch) -> (r: FillStep)
        requires
            old(self).wf(),
            batch.wf(),
        ensures
            final(self).wf(),
            final(self)@ == asked(
                old(self)@,
                batch.rows().len() as int,
                batch.batch_size as int,
            ),
            r == fill_wants(old(self)@, batch.rows().len() as int, batch.batch_size as int),
    {
        let n: usize = batch.len();
        if n >= batch.batch_size {
            return FillStep::Done(n);
        }
        match self.next_psv() {
            Some(bytes) => FillStep::Read(bytes),
            None => FillStep::Done(n),
        }
    }
}

/// The records that a loader cuts out of a run of reads, and the loader after them.
pub open spec fn records_cut(s: LoaderState, chunks: Seq<Seq<u8>>) -> (LoaderState, Seq<Seq<u8>>)
    decreases chunks.len(),
{
    if chunks.len() == 0 {
        (s, seq![])
    } else {
        let (before, records) = records_cut(s, chunks.drop_last());
        let chunk = chunks.last();
        if before.pending.len() + chunk.len() >= 40 {
            (loader_after(before, chunk), records.push(before.pending + chunk))
        } else {
            (loader_after(before, chunk), records)
        }
    }
}

/// Whether every read of a run stays within what the loader asked for and gave some byte.
pub open spec fn reads_allowed(s: LoaderState, chunks: Seq<Seq<u8>>) -> bool
    decreases chunks.len(),
{
    chunks.len() == 0 || {
        let before = records_cut(s, chunks.drop_last()).0;
        &&& reads_allowed(s, chunks.drop_last())
        &&& 0 < chunks.last().len() <= 40 - before.pending.len()
        &&& before.remaining >= 40
    }
}

/// However the reads split the file, the records are its bytes in order: joined, followed by the
/// bytes still pending, they are what was read. Every record has forty bytes.
pub proof fn records_are_the_bytes_read(s: LoaderState, chunks: Seq<Seq<u8>>)
    requires
        s.pending.len() == 0,
        reads_allowed(s, chunks),
    ensures
        ({
            let (after, records) = records_cut(s, chunks);
            &&& records.flatten() + after.pending == chunks.flatten()
            &&& after.pending.len() < 40
            &&& after.remaining == s.remaining - 40 * records.len()
            &&& forall|k: int| 0 <= k < records.len() ==> #[trigger] records[k].len() == 40
        }),
    decreases chunks.len(),
{
    broadcast use vstd::seq_lib::group_seq_properties;

    if chunks.len() == 0 {
        assert(Seq::<Seq<u8>>::empty().flatten() =~= seq![]);
        assert(chunks =~= Seq::<Seq<u8>>::empty());
        assert(records_cut(s, chunks).1.flatten() + s.pending =~= chunks.flatten());
    } else {
        let rest = chunks.drop_last();
        records_are_the_bytes_read(s, rest);
        let (before, records) = records_cut(s, rest);
        let chunk = chunks.last();
        chunks.lemma_flatten_and_flatten_alt_are_equivalent();
        rest.lemma_flatten_and_flatten_alt_are_equivalent();
        assert(chunks.flatten() == rest.flatten() + chunk);
        if before.pending.len() + chunk.len() >= 40 {
            let more = records.push(before.pending + chunk);
            more.lemma_flatten_and_flatten_alt_are_equivalent();
            records.lemma_flatten_and_flatten_alt_are_equivalent();
            assert(more.drop_last() =~= records);
            assert(more.flatten() == records.flatten() + (before.pending + chunk));
            assert(more.flatten() + seq![] =~= records.flatten() + before.pending + chunk);
        } else {
            assert(records.flatten() + (before.pending + chunk) =~= records.flatten()
                + before.pending + chunk);
        }
    }
}

/// Bytes of one HCPE record.
pub const HCPE_RECORD_BYTES: u64 = 38;

/// An HCPE file whose size is no whole number of records.
#[derive(Clone, Copy, Debug, PartialEq, Eq, Structural)]
pub struct HcpeSizeError {
    pub file_size: u64,
}

impl HcpeSizeError {
    /// The class of the error.
    pub fn kind(&self) -> (r: ErrorKind)
        ensures
            r == ErrorKind::InvalidData,
    {
        ErrorKind::InvalidData
    }

    /// The text of the error for the file at `path`.
    pub open spec fn text(self, path: Seq<char>) -> Seq<char> {
        "HCPE file size "@ + decimal(self.file_size as nat)
            + " is not a multiple of 38 bytes for "@ + path
    }

    /// The text of the error for the file at `path`.
    pub fn message(&self, path: &str) -> (r: String)
        ensures
            r@ == self.text(path@),
    {
        let mut out = "HCPE file size ".to_owned();
        push_decimal(&mut out, self.file_size);
        out.append(" is not a multiple of 38 bytes for ");
        out.append(path);
        out
    }
}

/// Counts the records of an HCPE file as they are read.
#[derive(Clone, Copy, Debug, PartialEq, Eq, Structural)]
pub struct HcpeFileLoader {
    remaining_records: u64,
}

impl HcpeFileLoader {
    /// The records not read yet.
    pub closed spec fn remaining(&self) -> u64 {
        self.remaining_records
    }

    /// A loader over a file of `file_size` bytes.
    pub fn new(file_size: u64) -> (r: Result<Self, HcpeSizeError>)
        ensures
            file_size % 38 != 0 ==> r == Err::<Self, HcpeSizeError>(HcpeSizeError { file_size }),
            file_size % 38 == 0 ==> r is Ok && r->Ok_0.remaining() == file_size / 38,
    {
        if file_size % HCPE_RECORD_BYTES != 0 {
            return Err(HcpeSizeError { file_size });
        }
        Ok(HcpeFileLoader { remaining_records: file_size / HCPE_RECORD_BYTES })
    }

    /// Asks for the next record: how many bytes it has, or `None` behind the last one.
    pub fn next_board(&self) -> (r: Option<u64>)
        ensures
            r == if self.remaining() > 0 {
                Some(38u64)
            } else {
                None
            },
    {
        if self.remaining_records > 0 {
            Some(HCPE_RECORD_BYTES)
        } else {
            None
        }
    }

    /// Counts one record as read.
    pub fn advance(&mut self)
        requires
            old(self).remaining() > 0,
        ensures
            final(self).remaining() == old(self).remaining() - 1,
    {
        self.remaining_records = self.remaining_records - 1;
    }
}

/// A range is taken exactly where it lies in the file, in the right order, and begins and ends on
/// whole records.
pub proof fn ranges_lie_on_records(file_size: u64, start: u64, end: u64)
    ensures
        range_error(file_size, start, end) is None <==> {
            &&& start <= end <= file_size
            &&& start as int / 40 * 40 == start
            &&& end as int / 40 * 40 == end
        },
        file_size as int % 40 == 0 ==> range_error(file_size, 0, file_size) is None,
{
}

/// A batch is done when it is full or less than a record is left, and asks for exactly what is
/// missing of a record until then.
pub proof fn batches_fill_while_there_are_records(loader: LoaderState, rows: int, size: int)
    requires
        0 <= rows <= size <= usize::MAX,
        loader.pending.len() < 40,
    ensures
        match fill_wants(loader, rows, size) {
            FillStep::Read(n) => rows < size && !loader.eof && loader.remaining >= 40 && n
                + loader.pending.len() == 40,
            FillStep::Done(n) => n == rows && (rows == size || loader.eof || loader.remaining < 40),
            FillStep::Decode(_) => false,
        },
        asked(loader, rows, size).eof <==> loader.eof || (rows < size && loader.remaining < 40),
        asked(loader, rows, size).pending == loader.pending,
        asked(loader, rows, size).remaining == loader.remaining,
{
}

} // verus!
