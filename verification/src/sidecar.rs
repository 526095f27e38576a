//! The score sidecar: one little-endian `i16` for each record of a data file, written so that an
//! interrupted run can go on where it stopped. Two marker files beside it hold the conditions the
//! scores were made under: one while the work is going on, one when it is done.

use vstd::prelude::*;
use vstd::string::*;

use crate::error::ErrorKind;
use crate::psv::{i16_le_bytes, le_of_i16};
use crate::text::{decimal, join2, push_decimal};
use crate::window::LoadError;

verus! {

/// Bytes of one score.
pub const SCORE_RECORD_BYTES: u64 = 2;

/// A path with a suffix put behind its file name.
pub fn append_extension(path: &str, suffix: &str) -> (r: String)
    ensures
        r@ == path@ + suffix@,
{
    join2(path, suffix)
}

/// The marker of a sidecar that is being written.
pub fn in_progress_marker_path(sidecar: &str) -> (r: String)
    ensures
        r@ == sidecar@ + ".in-progress"@,
{
    append_extension(sidecar, ".in-progress")
}

/// The marker of a sidecar that is complete.
pub fn done_marker_path(sidecar: &str) -> (r: String)
    ensures
        r@ == sidecar@ + ".done"@,
{
    append_extension(sidecar, ".done")
}

/// The file in which the complete marker is prepared.
pub fn done_marker_tmp_path(sidecar: &str) -> (r: String)
    ensures
        r@ == sidecar@ + ".done.tmp"@,
{
    append_extension(sidecar, ".done.tmp")
}

/// What is on disk when a sidecar is opened.
#[derive(Debug)]
pub struct SidecarFiles {
    /// Text of the marker for a complete sidecar, where it exists.
    pub done: Option<String>,
    /// Text of the marker for a sidecar in progress, where it exists.
    pub in_progress: Option<String>,
    /// Size of the sidecar, where it exists.
    pub sidecar_size: Option<u64>,
}

/// The model of what is on disk.
pub struct DiskState {
    pub done: Option<Seq<char>>,
    /// Text of the complete marker that is being prepared.
    pub done_tmp: Option<Seq<char>>,
    pub in_progress: Option<Seq<char>>,
    pub sidecar_size: Option<int>,
}

/// A step that the caller takes on disk.
#[derive(Clone, Copy, Debug, PartialEq, Eq, Structural)]
pub enum SidecarAction {
    /// Delete the marker for a sidecar in progress, if it exists.
    RemoveInProgress,
    /// Delete the marker for a complete sidecar, if it exists.
    RemoveDone,
    /// Cut the sidecar to nothing, if it exists.
    TruncateSidecar,
    /// Write the fingerprint into the marker for a sidecar in progress.
    WriteInProgress,
    /// Open the sidecar for appending, creating it where it is missing.
    OpenAppend,
    /// Write the fingerprint into the file in which the complete marker is prepared, and sync it.
    WriteDoneTmp,
    /// Give the prepared marker its name, in one step.
    RenameDoneTmp,
}

/// What a step makes of the disk.
pub open spec fn after_action(
    disk: DiskState,
    action: SidecarAction,
    fingerprint: Seq<char>,
) -> DiskState {
    match action {
        SidecarAction::RemoveInProgress => DiskState { in_progress: None, ..disk },
        SidecarAction::RemoveDone => DiskState { done: None, ..disk },
        SidecarAction::TruncateSidecar => DiskState {
            sidecar_size: match disk.sidecar_size {
                Some(_) => Some(0),
                None => None,
            },
            ..disk
        },
        SidecarAction::WriteInProgress => DiskState { in_progress: Some(fingerprint), ..disk },
        SidecarAction::OpenAppend => DiskState {
            sidecar_size: match disk.sidecar_size {
                Some(n) => Some(n),
                None => Some(0),
            },
            ..disk
        },
        SidecarAction::WriteDoneTmp => DiskState { done_tmp: Some(fingerprint), ..disk },
        SidecarAction::RenameDoneTmp => match disk.done_tmp {
            Some(text) => DiskState { done: Some(text), done_tmp: None, ..disk },
            None => disk,
        },
    }
}

/// What a run of steps makes of the disk.
pub open spec fn after_actions(
    disk: DiskState,
    actions: Seq<SidecarAction>,
    fingerprint: Seq<char>,
) -> DiskState
    decreases actions.len(),
{
    if actions.len() == 0 {
        disk
    } else {
        after_action(
            after_actions(disk, actions.drop_last(), fingerprint),
            actions.last(),
            fingerprint,
        )
    }
}

/// Opening does not look at a marker that is being prepared: none counts as there.
impl View for SidecarFiles {
    type V = DiskState;

    open spec fn view(&self) -> DiskState {
        DiskState {
            done: match self.done {
                Some(text) => Some(text@),
                None => None,
            },
            done_tmp: None,
            in_progress: match self.in_progress {
                Some(text) => Some(text@),
                None => None,
            },
            sidecar_size: match self.sidecar_size {
                Some(n) => Some(n as int),
                None => None,
            },
        }
    }
}

/// Whether the disk holds the complete sidecar for a fingerprint.
pub open spec fn is_complete(disk: DiskState, expected: int, fingerprint: Seq<char>) -> bool {
    disk.done == Some(fingerprint) && disk.sidecar_size == Some(expected * 2)
}

/// Whether the disk holds a part of the sidecar for a fingerprint.
pub open spec fn is_resumable(disk: DiskState, fingerprint: Seq<char>) -> bool {
    disk.in_progress == Some(fingerprint) && disk.sidecar_size is Some
}

/// The disk after a marker of another or a broken sidecar was cleared away. The sidecar is cut
/// first, so that the marker never stands beside scores that it does not belong to.
pub open spec fn cleared(disk: DiskState) -> DiskState {
    if disk.done is Some {
        DiskState {
            done: None,
            sidecar_size: match disk.sidecar_size {
                Some(_) => Some(0),
                None => None,
            },
            ..disk
        }
    } else {
        disk
    }
}

/// The steps that clear the disk.
pub open spec fn clearing(disk: DiskState) -> Seq<SidecarAction> {
    if disk.done is Some {
        seq![SidecarAction::TruncateSidecar, SidecarAction::RemoveDone]
    } else {
        seq![]
    }
}

/// The steps of an opening that goes on writing. A sidecar that cannot be resumed is cut and its
/// marker written first.
pub open spec fn opening_steps(disk: DiskState, fingerprint: Seq<char>) -> Seq<SidecarAction> {
    clearing(disk) + (if is_resumable(cleared(disk), fingerprint) {
        seq![]
    } else {
        seq![SidecarAction::TruncateSidecar, SidecarAction::WriteInProgress]
    }) + seq![SidecarAction::OpenAppend]
}

/// The steps that promote a sidecar. The complete marker gets its name in one step, and only then
/// the other marker goes.
pub open spec fn promotion_steps() -> Seq<SidecarAction> {
    seq![
        SidecarAction::WriteDoneTmp,
        SidecarAction::RenameDoneTmp,
        SidecarAction::RemoveInProgress,
    ]
}

/// The disk after a promotion: the complete marker holds the fingerprint, the other marker is gone,
/// and the sidecar is as it was.
pub open spec fn promoted(disk: DiskState, fingerprint: Seq<char>) -> DiskState {
    DiskState { done: Some(fingerprint), done_tmp: None, in_progress: None, ..disk }
}

/// What opening a sidecar decides.
#[derive(Debug)]
pub enum SidecarOpen {
    /// The sidecar is complete.
    Complete,
    /// The sidecar is to be written from record `resume_records` on.
    Writer { writer: ScoreSidecarWriter, resume_records: u64 },
}

/// Appends scores to a sidecar and guards its promotion.
#[derive(Debug)]
pub struct ScoreSidecarWriter {
    path: String,
    fingerprint: String,
    written: u64,
    expected: u64,
    in_flight: u64,
    poisoned: Option<String>,
}

/// The text for a sidecar that ends inside a score.
pub open spec fn odd_size_text(path: Seq<char>, size: int) -> Seq<char> {
    "sidecar "@ + path + " size "@ + decimal(size as nat)
        + " is not a multiple of 2; delete the marker "@ + (path + ".in-progress"@)
        + " so the next run regenerates the sidecar"@
}

/// The text for a sidecar that is longer than it should be.
pub open spec fn too_long_text(path: Seq<char>, resume: int, expected: int) -> Seq<char> {
    "sidecar "@ + path + " already has "@ + decimal(resume as nat) + " records but only "@
        + decimal(expected as nat) + " are expected; delete the sidecar and the marker "@ + (path
        + ".in-progress"@) + " to regenerate"@
}

/// The text for scores that would not fit.
pub open spec fn exceeds_text(count: int, expected: int, written: int) -> Seq<char> {
    "writing "@ + decimal(count as nat) + " scores would exceed the expected "@ + decimal(
        expected as nat,
    ) + " records (already written "@ + decimal(written as nat) + ")"@
}

/// The text of a writer whose file may hold a part of a score.
pub open spec fn poison_text(path: Seq<char>, cause: Seq<char>) -> Seq<char> {
    "sidecar write to "@ + path + " failed and may have left a partial record ("@ + cause
        + "); this writer is poisoned \u{2014} restart to resume from the in-progress marker"@
}

/// The text for a sidecar that is finished too early.
pub open spec fn short_text(path: Seq<char>, written: int, expected: int) -> Seq<char> {
    "sidecar "@ + path + " has "@ + decimal(written as nat) + " of "@ + decimal(expected as nat)
        + " expected records; keeping the in-progress marker so the next run resumes"@
}

/// The text for a sidecar whose file has another size than was written.
pub open spec fn physical_text(path: Seq<char>, physical: int, written: int) -> Seq<char> {
    "sidecar "@ + path + " physical size "@ + decimal(physical as nat) + " does not match the "@
        + decimal(written as nat) + " written records ("@ + decimal((written * 2) as nat)
        + " bytes); the file was modified or a write was torn \u{2014} keeping the in-progress marker instead of promoting"@
}

/// The bytes of scores.
pub open spec fn score_bytes(scores: Seq<i16>) -> Seq<u8>
    decreases scores.len(),
{
    if scores.len() == 0 {
        seq![]
    } else {
        score_bytes(scores.drop_last()) + le_of_i16(scores.last())
    }
}

/// An error of a class with a text.
pub open spec fn error_is(e: LoadError, kind: ErrorKind, text: Seq<char>) -> bool {
    e.kind == kind && e.message@ == text
}

/// What opening decides, for a disk on which nothing complete was found and which was cleared.
pub open spec fn resume_point(
    disk: DiskState,
    path: Seq<char>,
    expected: int,
    fingerprint: Seq<char>,
) -> Result<int, Seq<char>> {
    if is_resumable(disk, fingerprint) {
        let size = disk.sidecar_size->Some_0;
        if size % 2 != 0 {
            Err(odd_size_text(path, size))
        } else if size / 2 > expected {
            Err(too_long_text(path, size / 2, expected))
        } else {
            Ok(size / 2)
        }
    } else {
        Ok(0)
    }
}

impl ScoreSidecarWriter {
    /// The sidecar.
    pub closed spec fn file(&self) -> Seq<char> {
        self.path@
    }

    /// The conditions that the scores are made under.
    pub closed spec fn conditions(&self) -> Seq<char> {
        self.fingerprint@
    }

    /// Scores in the file.
    pub closed spec fn count(&self) -> int {
        self.written as int
    }

    /// Scores that the file is to have.
    pub closed spec fn goal(&self) -> int {
        self.expected as int
    }

    /// Scores handed to the caller for writing.
    pub closed spec fn outstanding(&self) -> int {
        self.in_flight as int
    }

    /// The text of the failure, once there was one.
    pub closed spec fn failure(&self) -> Option<Seq<char>> {
        match self.poisoned {
            Some(text) => Some(text@),
            None => None,
        }
    }

    /// There are never more scores than expected, and the file's size fits.
    pub closed spec fn wf(&self) -> bool {
        &&& self.written + self.in_flight <= self.expected
        &&& self.expected <= u64::MAX / 2
    }

    /// Decides how to go on from what is on disk, and what to do there first. A complete sidecar
    /// for this fingerprint is left as it is, with both markers. One in progress for it is resumed by its size. Anything
    /// else is started anew.
    pub fn open(files: &SidecarFiles, sidecar: &str, expected_records: u64, fingerprint: &str) -> (r:
        (Vec<SidecarAction>, Result<SidecarOpen, LoadError>))
        requires
            expected_records <= u64::MAX / 2,
        ensures
            ({
                let disk = files@;
                let expected = expected_records as int;
                if is_complete(disk, expected, fingerprint@) {
                    &&& r.0@ == Seq::<SidecarAction>::empty()
                    &&& r.1 == Ok::<SidecarOpen, LoadError>(SidecarOpen::Complete)
                } else {
                    match resume_point(cleared(disk), sidecar@, expected, fingerprint@) {
                        Err(text) => {
                            &&& r.0@ == clearing(disk)
                            &&& r.1 is Err
                            &&& error_is(r.1->Err_0, ErrorKind::Other, text)
                        },
                        Ok(resume) => {
                            &&& r.0@ == opening_steps(disk, fingerprint@)
                            &&& r.1 matches Ok(SidecarOpen::Writer { writer, resume_records })
                                && resume_records == resume && writer.wf() && writer.file()
                                == sidecar@ && writer.conditions() == fingerprint@
                                && writer.count() == resume && writer.goal() == expected
                                && writer.outstanding() == 0 && writer.failure() is None
                        },
                    }
                }
            }),
    {
        let mut actions: Vec<SidecarAction> = Vec::new();
        let wanted = fingerprint.to_owned();
        let mut size = files.sidecar_size;
        if let Some(done_text) = &files.done {
            let size_matches = match size {
                Some(n) => n == expected_records * SCORE_RECORD_BYTES,
                None => false,
            };
            if *done_text == wanted && size_matches {
                return (actions, Ok(SidecarOpen::Complete));
            }
            actions.push(SidecarAction::TruncateSidecar);
            actions.push(SidecarAction::RemoveDone);
            size = match size {
                Some(_) => Some(0),
                None => None,
            };
        }
        assert(actions@ =~= clearing(files@));
        let matching = match &files.in_progress {
            Some(text) => *text == wanted,
            None => false,
        };
        let resume: u64 = match size {
            Some(n) if matching => {
                assert(is_resumable(cleared(files@), fingerprint@));
                if n % SCORE_RECORD_BYTES != 0 {
                    let marker = in_progress_marker_path(sidecar);
                    let mut out = "sidecar ".to_owned();
                    out.append(sidecar);
                    out.append(" size ");
                    push_decimal(&mut out, n);
                    out.append(" is not a multiple of 2; delete the marker ");
                    out.append(marker.as_str());
                    out.append(" so the next run regenerates the sidecar");
                    return (actions, Err(LoadError { kind: ErrorKind::Other, message: out }));
                }
                let resume: u64 = n / SCORE_RECORD_BYTES;
                if resume > expected_records {
                    let marker = in_progress_marker_path(sidecar);
                    let mut out = "sidecar ".to_owned();
                    out.append(sidecar);
                    out.append(" already has ");
                    push_decimal(&mut out, resume);
                    out.append(" records but only ");
                    push_decimal(&mut out, expected_records);
                    out.append(" are expected; delete the sidecar and the marker ");
                    out.append(marker.as_str());
                    out.append(" to regenerate");
                    return (actions, Err(LoadError { kind: ErrorKind::Other, message: out }));
                }
                resume
            },
            _ => {
                assert(!is_resumable(cleared(files@), fingerprint@));
                actions.push(SidecarAction::TruncateSidecar);
                actions.push(SidecarAction::WriteInProgress);
                0
            },
        };
        actions.push(SidecarAction::OpenAppend);
        assert(actions@ =~= opening_steps(files@, fingerprint@));
        let writer = ScoreSidecarWriter {
            path: sidecar.to_owned(),
            fingerprint: wanted,
            written: resume,
            expected: expected_records,
            in_flight: 0,
            poisoned: None,
        };
        (actions, Ok(SidecarOpen::Writer { writer, resume_records: resume }))
    }

    /// The bytes to append for the scores of one whole chunk. The caller reports back with
    /// `confirm_write` or `write_failed`. Scores that would not fit are refused before a byte is
    /// written, and leave the writer usable.
    pub fn write_scores(&mut self, scores: &[i16]) -> (r: Result<Vec<u8>, LoadError>)
        requires
            old(self).wf(),
            old(self).outstanding() == 0,
        ensures
            final(self).wf(),
            final(self).file() == old(self).file(),
            final(self).conditions() == old(self).conditions(),
            final(self).count() == old(self).count(),
            final(self).goal() == old(self).goal(),
            final(self).failure() == old(self).failure(),
            match old(self).failure() {
                Some(text) => {
                    &&& r is Err
                    &&& error_is(r->Err_0, ErrorKind::Other, text)
                    &&& final(self).outstanding() == 0
                },
                None => if old(self).count() + scores@.len() > old(self).goal() {
                    &&& r is Err
                    &&& error_is(
                        r->Err_0,
                        ErrorKind::Other,
                        exceeds_text(
                            scores@.len() as int,
                            old(self).goal(),
                            old(self).count(),
                        ),
                    )
                    &&& final(self).outstanding() == 0
                } else {
                    &&& r is Ok
                    &&& r->Ok_0@ == score_bytes(scores@)
                    &&& final(self).outstanding() == scores@.len()
                },
            },
    {
        if let Some(text) = &self.poisoned {
            return Err(LoadError { kind: ErrorKind::Other, message: text.clone() });
        }
        let n: usize = scores.len();
        if n as u64 > self.expected - self.written {
            let mut out = "writing ".to_owned();
            push_decimal(&mut out, n as u64);
            out.append(" scores would exceed the expected ");
            push_decimal(&mut out, self.expected);
            out.append(" records (already written ");
            push_decimal(&mut out, self.written);
            out.append(")");
            return Err(LoadError { kind: ErrorKind::Other, message: out });
        }
        let mut bytes: Vec<u8> = Vec::new();
        let mut i: usize = 0;
        assert(scores@.take(0) =~= seq![]);
        assert(bytes@ =~= score_bytes(scores@.take(0)));
        while i < n
            invariant
                n == scores@.len(),
                i <= n,
                bytes@ == score_bytes(scores@.take(i as int)),
            decreases n - i,
        {
            let le = i16_le_bytes(scores[i]);
            bytes.push(le[0]);
            bytes.push(le[1]);
            proof {
                let more = scores@.take(i + 1);
                assert(more.drop_last() =~= scores@.take(i as int));
                assert(bytes@ =~= score_bytes(more));
            }
            i += 1;
        }
        assert(scores@.take(n as int) =~= scores@);
        self.in_flight = n as u64;
        Ok(bytes)
    }

    /// The bytes that `write_scores` gave are in the file.
    pub fn confirm_write(&mut self)
        requires
            old(self).wf(),
        ensures
            final(self).wf(),
            final(self).file() == old(self).file(),
            final(self).conditions() == old(self).conditions(),
            final(self).goal() == old(self).goal(),
            final(self).failure() == old(self).failure(),
            final(self).count() == old(self).count() + old(self).outstanding(),
            final(self).count() >= old(self).count(),
            final(self).outstanding() == 0,
    {
        self.written = self.written + self.in_flight;
        self.in_flight = 0;
    }

    /// The bytes that `write_scores` gave could not be written, so a part of them may be in the
    /// file. From here on the writer refuses everything; the next run resumes by the file's size.
    pub fn write_failed(&mut self, kind: ErrorKind, cause: &str) -> (r: LoadError)
        requires
            old(self).wf(),
        ensures
            final(self).wf(),
            final(self).file() == old(self).file(),
            final(self).conditions() == old(self).conditions(),
            final(self).goal() == old(self).goal(),
            final(self).count() == old(self).count(),
            final(self).outstanding() == 0,
            final(self).failure() == Some(poison_text(old(self).file(), cause@)),
            error_is(r, kind, poison_text(old(self).file(), cause@)),
    {
        let mut out = "sidecar write to ".to_owned();
        out.append(self.path.as_str());
        out.append(" failed and may have left a partial record (");
        out.append(cause);
        out.append(
            "); this writer is poisoned \u{2014} restart to resume from the in-progress marker",
        );
        self.in_flight = 0;
        self.poisoned = Some(out.clone());
        LoadError { kind, message: out }
    }

    /// The scores in the file, those of earlier runs with them.
    pub fn written(&self) -> (r: u64)
        ensures
            r == self.count(),
    {
        self.written
    }

    /// The fingerprint to put into the complete marker.
    pub fn fingerprint(&self) -> (r: &str)
        ensures
            r@ == self.conditions(),
    {
        self.fingerprint.as_str()
    }

    /// Whether the sidecar may be flushed for promotion: nothing failed and every score is there.
    pub fn check_count(&self) -> (r: Result<(), LoadError>)
        ensures
            match self.failure() {
                Some(text) => r is Err && error_is(r->Err_0, ErrorKind::Other, text),
                None => if self.count() != self.goal() {
                    r is Err && error_is(
                        r->Err_0,
                        ErrorKind::Other,
                        short_text(self.file(), self.count(), self.goal()),
                    )
                } else {
                    r == Ok::<(), LoadError>(())
                },
            },
    {
        if let Some(text) = &self.poisoned {
            return Err(LoadError { kind: ErrorKind::Other, message: text.clone() });
        }
        if self.written != self.expected {
            let mut out = "sidecar ".to_owned();
            out.append(self.path.as_str());
            out.append(" has ");
            push_decimal(&mut out, self.written);
            out.append(" of ");
            push_decimal(&mut out, self.expected);
            out.append(
                " expected records; keeping the in-progress marker so the next run resumes",
            );
            return Err(LoadError { kind: ErrorKind::Other, message: out });
        }
        Ok(())
    }

    /// Promotes the flushed sidecar, whose file has `physical` bytes: the steps to take on disk.
    /// Where the sidecar may not be promoted there are none, so that both markers stay as they
    /// are.
    pub fn finish(&self, physical: u64) -> (r: (Vec<SidecarAction>, Result<(), LoadError>))
        requires
            self.wf(),
        ensures
            match self.failure() {
                Some(text) => r.1 is Err && error_is(r.1->Err_0, ErrorKind::Other, text),
                None => if self.count() != self.goal() {
                    r.1 is Err && error_is(
                        r.1->Err_0,
                        ErrorKind::Other,
                        short_text(self.file(), self.count(), self.goal()),
                    )
                } else if physical != self.count() * 2 {
                    r.1 is Err && error_is(
                        r.1->Err_0,
                        ErrorKind::Other,
                        physical_text(self.file(), physical as int, self.count()),
                    )
                } else {
                    r.1 == Ok::<(), LoadError>(())
                },
            },
            r.0@ == if r.1 is Ok {
                promotion_steps()
            } else {
                Seq::<SidecarAction>::empty()
            },
            forall|disk: DiskState| #[trigger]
                after_actions(disk, r.0@, self.conditions()) == if r.1 is Ok {
                    promoted(disk, self.conditions())
                } else {
                    disk
                },
    {
        let mut steps: Vec<SidecarAction> = Vec::new();
        if let Err(e) = self.check_count() {
            return (steps, Err(e));
        }
        if physical != self.written * SCORE_RECORD_BYTES {
            let mut out = "sidecar ".to_owned();
            out.append(self.path.as_str());
            out.append(" physical size ");
            push_decimal(&mut out, physical);
            out.append(" does not match the ");
            push_decimal(&mut out, self.written);
            out.append(" written records (");
            push_decimal(&mut out, self.written * SCORE_RECORD_BYTES);
            out.append(
                " bytes); the file was modified or a write was torn \u{2014} keeping the in-progress marker instead of promoting",
            );
            return (steps, Err(LoadError { kind: ErrorKind::Other, message: out }));
        }
        steps.push(SidecarAction::WriteDoneTmp);
        steps.push(SidecarAction::RenameDoneTmp);
        steps.push(SidecarAction::RemoveInProgress);
        assert(steps@ =~= promotion_steps());
        assert forall|disk: DiskState| #[trigger]
            after_actions(disk, steps@, self.conditions()) == promoted(
                disk,
                self.conditions(),
            ) by {
            lemma_promotion(disk, self.conditions());
        }
        (steps, Ok(()))
    }
}

proof fn lemma_promotion(disk: DiskState, fingerprint: Seq<char>)
    ensures
        after_actions(disk, promotion_steps().take(0), fingerprint) == disk,
        after_actions(disk, promotion_steps().take(1), fingerprint) == (DiskState {
            done_tmp: Some(fingerprint),
            ..disk
        }),
        after_actions(disk, promotion_steps().take(2), fingerprint) == (DiskState {
            done: Some(fingerprint),
            done_tmp: None,
            ..disk
        }),
        after_actions(disk, promotion_steps(), fingerprint) == promoted(disk, fingerprint),
{
    reveal_with_fuel(after_actions, 4);
    let p = promotion_steps();
    assert(p.take(1).drop_last() =~= p.take(0));
    assert(p.take(2).drop_last() =~= p.take(1));
    assert(p.drop_last() =~= p.take(2));
}

/// Wherever a promotion is interrupted, nothing is lost: the next opening with the same fingerprint
/// either finds the sidecar complete, or resumes it behind its last score and only has the
/// promotion to do again.
pub proof fn interrupted_promotion_is_harmless(
    writer: ScoreSidecarWriter,
    disk: DiskState,
    steps: int,
)
    requires
        disk.done is None,
        disk.in_progress == Some(writer.conditions()),
        disk.sidecar_size == Some(2 * writer.goal()),
        0 <= steps <= promotion_steps().len(),
    ensures
        ({
            let after = after_actions(disk, promotion_steps().take(steps), writer.conditions());
            ||| is_complete(after, writer.goal(), writer.conditions())
            ||| {
                &&& is_resumable(cleared(after), writer.conditions())
                &&& resume_point(cleared(after), writer.file(), writer.goal(), writer.conditions())
                    == Ok::<int, Seq<char>>(writer.goal())
            }
        }),
        steps >= 2 ==> is_complete(
            after_actions(disk, promotion_steps().take(steps), writer.conditions()),
            writer.goal(),
            writer.conditions(),
        ),
{
    lemma_promotion(disk, writer.conditions());
    assert(promotion_steps().take(3) =~= promotion_steps());
}

/// Scores written in pieces make the same file as scores written at once: a run that stopped and
/// went on later leaves the bytes of one that did not stop.
pub proof fn pieces_make_the_same_file(first: Seq<i16>, rest: Seq<i16>)
    ensures
        score_bytes(first) + score_bytes(rest) == score_bytes(first + rest),
        score_bytes(first).len() == 2 * first.len(),
    decreases rest.len(),
{
    lemma_score_bytes_len(first);
    if rest.len() == 0 {
        assert(first + rest =~= first);
        assert(score_bytes(first) + score_bytes(rest) =~= score_bytes(first));
    } else {
        pieces_make_the_same_file(first, rest.drop_last());
        assert((first + rest).drop_last() =~= first + rest.drop_last());
        assert(score_bytes(first) + score_bytes(rest) =~= score_bytes(first + rest.drop_last())
            + le_of_i16(rest.last()));
    }
}

proof fn lemma_score_bytes_len(scores: Seq<i16>)
    ensures
        score_bytes(scores).len() == 2 * scores.len(),
    decreases scores.len(),
{
    if scores.len() > 0 {
        lemma_score_bytes_len(scores.drop_last());
    }
}

/// Score `k` of a sidecar stands at bytes `2 k` and `2 k + 1`: the rows of the sidecar are the
/// records of the data file.
pub proof fn score_rows(scores: Seq<i16>, k: int)
    requires
        0 <= k < scores.len(),
    ensures
        score_bytes(scores).len() == 2 * scores.len(),
        score_bytes(scores).subrange(2 * k, 2 * k + 2) == le_of_i16(scores[k]),
    decreases scores.len(),
{
    lemma_score_bytes_len(scores);
    lemma_score_bytes_len(scores.drop_last());
    if k < scores.len() - 1 {
        score_rows(scores.drop_last(), k);
        assert(score_bytes(scores).subrange(2 * k, 2 * k + 2) =~= score_bytes(
            scores.drop_last(),
        ).subrange(2 * k, 2 * k + 2));
    } else {
        assert(score_bytes(scores).subrange(2 * k, 2 * k + 2) =~= le_of_i16(scores[k]));
    }
}

/// After the steps of an opening that goes on writing, the disk is ready to be resumed: no
/// complete marker is left, the other marker holds the fingerprint, and the sidecar has exactly
/// the scores that the writer counts.
pub proof fn opening_leaves_a_resumable_disk(
    disk: DiskState,
    path: Seq<char>,
    expected: int,
    fingerprint: Seq<char>,
)
    requires
        !is_complete(disk, expected, fingerprint),
        resume_point(cleared(disk), path, expected, fingerprint) is Ok,
    ensures
        ({
            let after = after_actions(disk, opening_steps(disk, fingerprint), fingerprint);
            &&& after.done is None
            &&& after.in_progress == Some(fingerprint)
            &&& after.sidecar_size == Some(
                2 * resume_point(cleared(disk), path, expected, fingerprint)->Ok_0,
            )
        }),
{
    reveal_with_fuel(after_actions, 4);
    let fresh = seq![SidecarAction::TruncateSidecar, SidecarAction::WriteInProgress];
    let first = clearing(disk);
    let middle = if is_resumable(cleared(disk), fingerprint) {
        seq![]
    } else {
        fresh
    };
    let actions = opening_steps(disk, fingerprint);
    lemma_clearing(disk, fingerprint);
    assert(actions.drop_last() =~= first + middle);
    assert(actions.last() == SidecarAction::OpenAppend);
    if is_resumable(cleared(disk), fingerprint) {
        assert(first + middle =~= first);
    } else {
        let m = first + middle;
        assert(m.last() == SidecarAction::WriteInProgress);
        assert(m.drop_last().last() == SidecarAction::TruncateSidecar);
        assert(m.drop_last().drop_last() =~= first);
    }
}

proof fn lemma_clearing(disk: DiskState, fingerprint: Seq<char>)
    ensures
        after_actions(disk, clearing(disk), fingerprint) == cleared(disk),
{
    reveal_with_fuel(after_actions, 3);
    let c = clearing(disk);
    if disk.done is Some {
        assert(c.last() == SidecarAction::RemoveDone);
        assert(c.drop_last().last() == SidecarAction::TruncateSidecar);
        assert(c.drop_last().drop_last() =~= seq![]);
    }
}

proof fn lemma_no_marker_appears(
    disk: DiskState,
    actions: Seq<SidecarAction>,
    fingerprint: Seq<char>,
)
    requires
        disk.done is None,
        !actions.contains(SidecarAction::RenameDoneTmp),
    ensures
        after_actions(disk, actions, fingerprint).done is None,
    decreases actions.len(),
{
    if actions.len() > 0 {
        assert forall|a: SidecarAction| #[trigger]
            actions.drop_last().contains(a) implies actions.contains(a) by {
            let k = choose|k: int|
                0 <= k < actions.drop_last().len() && actions.drop_last()[k] == a;
            assert(actions[k] == a);
        }
        lemma_no_marker_appears(disk, actions.drop_last(), fingerprint);
        assert(actions.contains(actions.last()));
    }
}

proof fn lemma_actions_in_two_parts(
    disk: DiskState,
    first: Seq<SidecarAction>,
    rest: Seq<SidecarAction>,
    fingerprint: Seq<char>,
)
    ensures
        after_actions(disk, first + rest, fingerprint) == after_actions(
            after_actions(disk, first, fingerprint),
            rest,
            fingerprint,
        ),
    decreases rest.len(),
{
    if rest.len() == 0 {
        assert(first + rest =~= first);
    } else {
        assert((first + rest).drop_last() =~= first + rest.drop_last());
        lemma_actions_in_two_parts(disk, first, rest.drop_last(), fingerprint);
    }
}

/// Wherever the steps of an opening are interrupted, the disk never looks complete when it was not.
/// A sidecar of no records is complete at once and left out.
pub proof fn interrupted_opening_is_never_complete(
    disk: DiskState,
    expected: int,
    fingerprint: Seq<char>,
    steps: int,
)
    requires
        !is_complete(disk, expected, fingerprint),
        expected > 0,
        0 <= steps <= opening_steps(disk, fingerprint).len(),
    ensures
        !is_complete(
            after_actions(disk, opening_steps(disk, fingerprint).take(steps), fingerprint),
            expected,
            fingerprint,
        ),
{
    reveal_with_fuel(after_actions, 3);
    let c = clearing(disk);
    let all = opening_steps(disk, fingerprint);
    let done = all.take(steps);
    if steps < c.len() {
        if steps == 1 {
            assert(done.last() == SidecarAction::TruncateSidecar);
            assert(done.drop_last() =~= seq![]);
        }
    } else {
        let rest = all.subrange(c.len() as int, steps);
        assert(done =~= c + rest);
        assert forall|k: int| 0 <= k < rest.len() implies rest[k]
            != SidecarAction::RenameDoneTmp by {
            assert(rest[k] == all[c.len() + k]);
        }
        lemma_actions_in_two_parts(disk, c, rest, fingerprint);
        lemma_clearing(disk, fingerprint);
        lemma_no_marker_appears(cleared(disk), rest, fingerprint);
    }
}

/// A sidecar that was promoted is found complete by the next opening with the same fingerprint,
/// which changes nothing.
pub proof fn promotion_is_recognised(writer: ScoreSidecarWriter, disk: DiskState)
    requires
        writer.count() == writer.goal(),
        disk.sidecar_size == Some(writer.count() * 2),
    ensures
        is_complete(
            after_actions(disk, promotion_steps(), writer.conditions()),
            writer.goal(),
            writer.conditions(),
        ),
{
    lemma_promotion(disk, writer.conditions());
}

/// What is made of a sidecar that is found: it is complete exactly where its marker was written
/// under the same conditions and it has two bytes for each record. One that was begun under the
/// same conditions goes on behind its whole records, and is refused where it ends in half a record
/// or has too many; any other is begun anew.
pub proof fn sidecars_are_told_by_their_markers(
    disk: DiskState,
    path: Seq<char>,
    expected: int,
    fingerprint: Seq<char>,
)
    requires
        expected >= 0,
        disk.sidecar_size matches Some(n) ==> n >= 0,
    ensures
        is_complete(disk, expected, fingerprint) <==> {
            &&& disk.done is Some && disk.done->Some_0 == fingerprint
            &&& disk.sidecar_size is Some && disk.sidecar_size->Some_0 == 2 * expected
        },
        ({
            let begun = disk.in_progress is Some && disk.in_progress->Some_0 == fingerprint
                && disk.sidecar_size is Some;
            let size = disk.sidecar_size->Some_0;
            match resume_point(disk, path, expected, fingerprint) {
                Ok(k) => if begun {
                    size == 2 * k && 0 <= k <= expected
                } else {
                    k == 0
                },
                Err(_) => begun && (size % 2 == 1 || size > 2 * expected),
            }
        }),
        disk.done is None ==> cleared(disk) == disk,
        disk.done is Some ==> {
            &&& cleared(disk).done is None
            &&& cleared(disk).in_progress == disk.in_progress
            &&& cleared(disk).sidecar_size is Some <==> disk.sidecar_size is Some
            &&& cleared(disk).sidecar_size matches Some(n) ==> n == 0
        },
{
}

/// A run that was cut off after `k` scores goes on with the next one, and writing the rest gives
/// the same file as a run that was never cut off.
pub proof fn cut_off_runs_go_on(
    disk: DiskState,
    path: Seq<char>,
    scores: Seq<i16>,
    k: int,
    fingerprint: Seq<char>,
)
    requires
        0 <= k <= scores.len(),
        disk.done is None,
        disk.in_progress == Some(fingerprint),
        disk.sidecar_size == Some(score_bytes(scores.take(k)).len() as int),
    ensures
        resume_point(cleared(disk), path, scores.len() as int, fingerprint) == Ok::<
            int,
            Seq<char>,
        >(k),
        score_bytes(scores.take(k)) + score_bytes(scores.skip(k)) == score_bytes(scores),
{
    pieces_make_the_same_file(scores.take(k), scores.skip(k));
    assert(scores.take(k) + scores.skip(k) =~= scores);
}

} // verus!
