//! Rescoring a data file: from the outputs of a network, record by record, to its score sidecar.

use vstd::prelude::*;
use vstd::string::*;

use crate::error::ErrorKind;
use crate::ordered::{chunk_count, chunks_joined, chunks_joined_are_the_file, OrderPlan};
use crate::psv::le_of_i16;
use crate::shuffle::PSV_RECORD_BYTES;
use crate::sidecar::{
    append_extension, error_is, exceeds_text, pieces_make_the_same_file, poison_text, score_bytes,
    score_rows, ScoreSidecarWriter, SidecarOpen,
};
use crate::text::{decimal, push_decimal};
use crate::window::LoadError;

verus! {

/// The rows of a chunk are a multiple of this, as the dense kernels need it.
pub const PAD_MULTIPLE: usize = 16;

/// The file name of the sidecar of an input.
pub fn sidecar_name(input_name: &str) -> (r: String)
    ensures
        r@ == input_name@ + ".scores.i16"@,
{
    append_extension(input_name, ".scores.i16")
}

/// Why an input cannot be rescored.
#[derive(Clone, Copy, Debug, PartialEq, Eq, Structural)]
pub enum RescoreInputError {
    /// The path names no file.
    NoFileName,
    /// The file does not hold whole records.
    Torn { input_size: u64 },
    /// The file holds no records.
    Empty,
}

impl RescoreInputError {
    /// The text of the error for the input at `path`.
    pub open spec fn text(self, path: Seq<char>) -> Seq<char> {
        match self {
            RescoreInputError::NoFileName => "--rescore-input "@ + path + " has no file name"@,
            RescoreInputError::Torn { input_size } => {
                "--rescore-input "@ + path + " size "@ + decimal(input_size as nat)
                    + " is not a multiple of the PSV record size (40 bytes); refusing to rescore a torn file"@
            },
            RescoreInputError::Empty => "--rescore-input "@ + path + " is empty"@,
        }
    }

    /// The text of the error for the input at `path`.
    pub fn message(&self, path: &str) -> (r: String)
        ensures
            r@ == self.text(path@),
    {
        let mut out = "--rescore-input ".to_owned();
        out.append(path);
        match *self {
            RescoreInputError::NoFileName => {
                out.append(" has no file name");
            },
            RescoreInputError::Torn { input_size } => {
                out.append(" size ");
                push_decimal(&mut out, input_size);
                out.append(
                    " is not a multiple of the PSV record size (40 bytes); refusing to rescore a torn file",
                );
            },
            RescoreInputError::Empty => {
                out.append(" is empty");
            },
        }
        out
    }
}

/// The records of an input of `input_size` bytes.
pub fn input_records(input_size: u64) -> (r: Result<u64, RescoreInputError>)
    ensures
        r == if input_size % 40 != 0 {
            Err::<u64, RescoreInputError>(RescoreInputError::Torn { input_size })
        } else if input_size == 0 {
            Err(RescoreInputError::Empty)
        } else {
            Ok((input_size / 40) as u64)
        },
{
    if input_size % PSV_RECORD_BYTES != 0 {
        return Err(RescoreInputError::Torn { input_size });
    }
    let total: u64 = input_size / PSV_RECORD_BYTES;
    if total == 0 {
        return Err(RescoreInputError::Empty);
    }
    Ok(total)
}

/// A rounded score within the clip on both sides.
pub open spec fn clipped(cp: int, clip: int) -> int {
    if cp > clip {
        clip
    } else if cp < -clip {
        -clip
    } else {
        cp
    }
}

/// The scores of network outputs.
pub open spec fn clipped_scores(outputs: Seq<Option<i64>>, clip: int) -> Seq<i16> {
    Seq::new(outputs.len(), |k: int| clipped(outputs[k]->Some_0 as int, clip) as i16)
}

/// Whether every output is a number.
pub open spec fn all_finite(outputs: Seq<Option<i64>>) -> bool {
    forall|k: int| 0 <= k < outputs.len() ==> (#[trigger] outputs[k]) is Some
}

/// The scores of network outputs that were scaled and rounded; `None` stands for one that is no
/// number. The index of the first such one is the error.
pub fn convert_scores(outputs: &[Option<i64>], clip: i16) -> (r: Result<Vec<i16>, usize>)
    requires
        clip >= 0,
    ensures
        match r {
            Ok(scores) => all_finite(outputs@) && scores@ == clipped_scores(
                outputs@,
                clip as int,
            ),
            Err(at) => {
                &&& at < outputs@.len()
                &&& outputs@[at as int] is None
                &&& all_finite(outputs@.take(at as int))
            },
        },
{
    let mut scores: Vec<i16> = Vec::new();
    let mut i: usize = 0;
    while i < outputs.len()
        invariant
            i <= outputs@.len(),
            clip >= 0,
            scores@.len() == i,
            forall|k: int|
                0 <= k < i ==> (#[trigger] outputs@[k]) is Some && scores@[k] == clipped(
                    outputs@[k]->Some_0 as int,
                    clip as int,
                ),
        decreases outputs@.len() - i,
    {
        match outputs[i] {
            Some(cp) => {
                let limit: i64 = clip as i64;
                let score: i64 = if cp > limit {
                    limit
                } else if cp < -limit {
                    -limit
                } else {
                    cp
                };
                scores.push(score as i16);
            },
            None => {
                assert forall|k: int| 0 <= k < i implies (#[trigger] outputs@.take(
                    i as int,
                )[k]) is Some by {
                    assert(outputs@[k] is Some);
                }
                return Err(i);
            },
        }
        i += 1;
    }
    assert(scores@ =~= clipped_scores(outputs@, clip as int));
    Ok(scores)
}

/// Why a chunk could not be scored.
#[derive(Debug)]
pub enum ScoreError {
    /// An output of the network is no number; around this record.
    NonFinite { index: usize, record: u64 },
    /// The sidecar refused the scores.
    Sidecar(LoadError),
}

/// The text for an output that is no number; `output` is the output as the caller writes it.
pub fn non_finite_message(output: &str, record: u64) -> (r: String)
    ensures
        r@ == "non-finite net output "@ + output@ + " around record "@ + decimal(record as nat)
            + "; refusing to write a score for it (is the net or the score scale wrong?)"@,
{
    let mut out = "non-finite net output ".to_owned();
    out.append(output);
    out.append(" around record ");
    push_decimal(&mut out, record);
    out.append("; refusing to write a score for it (is the net or the score scale wrong?)");
    out
}

/// A run over one input.
pub struct RescoreRun {
    writer: ScoreSidecarWriter,
    total_records: u64,
    resume_records: u64,
    score_clip: i16,
    seen: Ghost<Seq<Option<i64>>>,
    held: Ghost<Seq<Option<i64>>>,
}

impl RescoreRun {
    /// The writer of the sidecar.
    pub closed spec fn sidecar(&self) -> ScoreSidecarWriter {
        self.writer
    }

    /// The records of the input.
    pub closed spec fn total(&self) -> int {
        self.total_records as int
    }

    /// The record that the run started at.
    pub closed spec fn resumed_at(&self) -> int {
        self.resume_records as int
    }

    /// The largest magnitude of a score.
    pub closed spec fn clip(&self) -> int {
        self.score_clip as int
    }

    /// The outputs whose scores this run put into the file, in order.
    pub closed spec fn outputs(&self) -> Seq<Option<i64>> {
        self.seen@
    }

    /// The outputs whose scores the caller is writing.
    pub closed spec fn handed(&self) -> Seq<Option<i64>> {
        self.held@
    }

    /// The sidecar gets one score for each record, and the run only adds to it: behind the scores
    /// that were there stand those of the outputs seen.
    pub open spec fn wf(&self) -> bool {
        &&& self.sidecar().wf()
        &&& self.sidecar().goal() == self.total()
        &&& self.resumed_at() + self.outputs().len() == self.sidecar().count()
        &&& self.handed().len() == self.sidecar().outstanding()
        &&& all_finite(self.outputs())
        &&& all_finite(self.handed())
        &&& 0 <= self.resumed_at()
        &&& 0 <= self.clip() <= i16::MAX
    }

    /// What stays the same over a run: what is scored, how, and into which sidecar.
    pub open spec fn same_run(&self, other: &Self) -> bool {
        &&& self.total() == other.total()
        &&& self.resumed_at() == other.resumed_at()
        &&& self.clip() == other.clip()
        &&& self.sidecar().file() == other.sidecar().file()
        &&& self.sidecar().conditions() == other.sidecar().conditions()
        &&& self.sidecar().goal() == other.sidecar().goal()
    }

    /// Starts a run where the sidecar is not complete; `None` where it is.
    pub fn start(opened: SidecarOpen, total_records: u64, score_clip: i16) -> (r: Option<Self>)
        requires
            score_clip >= 0,
            opened matches SidecarOpen::Writer { writer, resume_records } ==> writer.wf()
                && writer.goal() == total_records && writer.count() == resume_records
                && writer.outstanding() == 0,
        ensures
            match opened {
                SidecarOpen::Complete => r is None,
                SidecarOpen::Writer { writer, resume_records } => {
                    &&& r is Some
                    &&& r->Some_0.wf()
                    &&& r->Some_0.sidecar() == writer
                    &&& r->Some_0.total() == total_records
                    &&& r->Some_0.resumed_at() == resume_records
                    &&& r->Some_0.clip() == score_clip
                    &&& r->Some_0.outputs() == Seq::<Option<i64>>::empty()
                    &&& r->Some_0.handed() == Seq::<Option<i64>>::empty()
                },
            },
    {
        match opened {
            SidecarOpen::Complete => None,
            SidecarOpen::Writer { writer, resume_records } => Some(
                RescoreRun {
                    writer,
                    total_records,
                    resume_records,
                    score_clip,
                    seen: Ghost(Seq::empty()),
                    held: Ghost(Seq::empty()),
                },
            ),
        }
    }

    /// The bytes to append for a chunk: the scores of its first `n_real` outputs. The outputs
    /// behind are padding. A chunk with an output that is no number gives nothing.
    pub fn score_chunk(&mut self, outputs: &[Option<i64>], n_real: usize) -> (r: Result<
        Vec<u8>,
        ScoreError,
    >)
        requires
            old(self).wf(),
            old(self).sidecar().outstanding() == 0,
            n_real <= outputs@.len(),
        ensures
            final(self).wf(),
            final(self).same_run(old(self)),
            final(self).outputs() == old(self).outputs(),
            final(self).sidecar().count() == old(self).sidecar().count(),
            final(self).sidecar().failure() == old(self).sidecar().failure(),
            ({
                let scored = outputs@.take(n_real as int);
                let w = old(self).sidecar();
                if !all_finite(scored) {
                    &&& r matches Err(ScoreError::NonFinite { index, record })
                        && scored[index as int] is None && all_finite(scored.take(index as int))
                        && record == w.count() && index < n_real
                    &&& final(self).sidecar() == w
                } else if w.failure() is Some {
                    r matches Err(ScoreError::Sidecar(e)) && error_is(
                        e,
                        ErrorKind::Other,
                        w.failure()->Some_0,
                    )
                } else if w.count() + n_real > w.goal() {
                    r matches Err(ScoreError::Sidecar(e)) && error_is(
                        e,
                        ErrorKind::Other,
                        exceeds_text(n_real as int, w.goal(), w.count()),
                    )
                } else {
                    r matches Ok(bytes) && bytes@ == score_bytes(
                        clipped_scores(scored, old(self).clip()),
                    )
                }
            }),
            final(self).handed() == if r is Ok {
                outputs@.take(n_real as int)
            } else {
                Seq::<Option<i64>>::empty()
            },
            final(self).sidecar().outstanding() == if r is Ok {
                n_real as int
            } else {
                0
            },
    {
        let scored = vstd::slice::slice_subrange(outputs, 0, n_real);
        assert(scored@ =~= outputs@.take(n_real as int));
        self.held = Ghost(Seq::empty());
        match convert_scores(scored, self.score_clip) {
            Err(index) => Err(ScoreError::NonFinite { index, record: self.writer.written() }),
            Ok(scores) => match self.writer.write_scores(scores.as_slice()) {
                Ok(bytes) => {
                    self.held = Ghost(scored@);
                    Ok(bytes)
                },
                Err(e) => Err(ScoreError::Sidecar(e)),
            },
        }
    }

    /// The bytes of the last chunk are in the file.
    pub fn confirm_chunk(&mut self)
        requires
            old(self).wf(),
        ensures
            final(self).wf(),
            final(self).same_run(old(self)),
            final(self).outputs() == old(self).outputs() + old(self).handed(),
            final(self).handed() == Seq::<Option<i64>>::empty(),
            final(self).sidecar().count() == old(self).sidecar().count() + old(
                self,
            ).sidecar().outstanding(),
            final(self).sidecar().outstanding() == 0,
            final(self).sidecar().failure() == old(self).sidecar().failure(),
    {
        self.writer.confirm_write();
        self.seen = Ghost(self.seen@ + self.held@);
        self.held = Ghost(Seq::empty());
    }

    /// The bytes of the last chunk could not be written.
    pub fn chunk_failed(&mut self, kind: ErrorKind, cause: &str) -> (r: LoadError)
        requires
            old(self).wf(),
        ensures
            final(self).wf(),
            final(self).same_run(old(self)),
            final(self).outputs() == old(self).outputs(),
            final(self).handed() == Seq::<Option<i64>>::empty(),
            final(self).sidecar().count() == old(self).sidecar().count(),
            final(self).sidecar().outstanding() == 0,
            final(self).sidecar().failure() == Some(
                poison_text(old(self).sidecar().file(), cause@),
            ),
            error_is(r, kind, poison_text(old(self).sidecar().file(), cause@)),
    {
        self.held = Ghost(Seq::empty());
        self.writer.write_failed(kind, cause)
    }

    /// The writer, for finishing the sidecar.
    pub fn writer(&self) -> (r: &ScoreSidecarWriter)
        ensures
            *r == self.sidecar(),
    {
        &self.writer
    }

    /// The records scored in this run.
    pub fn done_this_run(&self) -> (r: u64)
        requires
            self.wf(),
        ensures
            r == self.sidecar().count() - self.resumed_at(),
            r == self.outputs().len(),
    {
        self.writer.written() - self.resume_records
    }
}

/// The bytes of a sidecar that held the scores `before` when a run started, once the scores of
/// `outputs` are behind them.
pub open spec fn sidecar_bytes(before: Seq<i16>, outputs: Seq<Option<i64>>, clip: int) -> Seq<u8> {
    score_bytes(before + clipped_scores(outputs, clip))
}

/// Appending the bytes of a chunk to the sidecar of the outputs before it makes the sidecar of all
/// of them.
pub proof fn chunk_extends_the_sidecar(
    before: Seq<i16>,
    outputs: Seq<Option<i64>>,
    chunk: Seq<Option<i64>>,
    clip: int,
)
    ensures
        sidecar_bytes(before, outputs, clip) + score_bytes(clipped_scores(chunk, clip))
            == sidecar_bytes(before, outputs + chunk, clip),
{
    let a = before + clipped_scores(outputs, clip);
    let b = clipped_scores(chunk, clip);
    pieces_make_the_same_file(a, b);
    assert(a + b =~= before + clipped_scores(outputs + chunk, clip));
}

/// Row `i` of the sidecar is record `i` of the input. `out` are the outputs for all records, in
/// order. A run that took up a sidecar of the first scores and was given the chunks of the rest in
/// order has every score, so that the sidecar may be promoted, and its file is the scores of all
/// records: two bytes for each, the clipped output of that record.
#[verifier::spinoff_prover]
pub proof fn sidecar_rows_are_the_records(
    run: RescoreRun,
    plan: OrderPlan,
    out: Seq<Option<i64>>,
    before: Seq<i16>,
    i: int,
)
    requires
        run.wf(),
        plan.chunk_records >= 1,
        plan.total_records == run.total(),
        plan.start_record == run.resumed_at() <= run.total(),
        out.len() == run.total(),
        before == clipped_scores(out.take(run.resumed_at()), run.clip()),
        run.outputs() == chunks_joined(
            plan,
            out.skip(run.resumed_at()),
            chunk_count(plan) as nat,
        ),
        0 <= i < out.len(),
    ensures
        run.sidecar().count() == run.sidecar().goal(),
        ({
            let file = sidecar_bytes(before, run.outputs(), run.clip());
            &&& file.len() == 2 * run.sidecar().goal()
            &&& file == score_bytes(clipped_scores(out, run.clip()))
            &&& file.subrange(2 * i, 2 * i + 2) == le_of_i16(
                clipped(out[i]->Some_0 as int, run.clip()) as i16,
            )
        }),
{
    let rest = out.skip(run.resumed_at());
    assert(run.outputs() == rest) by {
        vstd::arithmetic::div_mod::lemma_div_pos_is_pos(
            plan.total_records - plan.start_record + plan.chunk_records - 1,
            plan.chunk_records,
        );
        chunks_joined_are_the_file(plan, rest, chunk_count(plan) as nat);
    }
    assert(before + clipped_scores(rest, run.clip()) =~= clipped_scores(out, run.clip()));
    score_rows(clipped_scores(out, run.clip()), i);
}

/// A score is the output itself where that lies within the clip, and the nearer end of the clip
/// where it does not; so the sign is kept, and every score fits into 16 bits.
pub proof fn scores_are_cut_at_the_clip(cp: int, clip: int)
    requires
        0 <= clip <= 32767,
    ensures
        -clip <= clipped(cp, clip) <= clip,
        -clip <= cp <= clip ==> clipped(cp, clip) == cp,
        cp >= clip ==> clipped(cp, clip) == clip,
        cp <= -clip ==> clipped(cp, clip) == -clip,
        clipped(-cp, clip) == -clipped(cp, clip),
        clipped(clipped(cp, clip), clip) == clipped(cp, clip),
{
}

/// There is one score for each output, in the order of the outputs.
pub proof fn every_output_has_its_score(outputs: Seq<Option<i64>>, clip: int, k: int)
    requires
        0 <= k < outputs.len(),
        0 <= clip <= 32767,
        outputs[k] is Some,
    ensures
        clipped_scores(outputs, clip).len() == outputs.len(),
        -clip <= outputs[k]->Some_0 <= clip ==> clipped_scores(outputs, clip)[k]
            == outputs[k]->Some_0,
        outputs[k]->Some_0 > clip ==> clipped_scores(outputs, clip)[k] == clip,
        outputs[k]->Some_0 < -clip ==> clipped_scores(outputs, clip)[k] == -clip,
{
}

/// An output that is no number is found wherever it stands, and a list without one has a score for
/// every output.
pub proof fn outputs_that_are_no_numbers_are_found(outputs: Seq<Option<i64>>, k: int)
    requires
        0 <= k < outputs.len(),
    ensures
        outputs[k] is None ==> !all_finite(outputs),
        all_finite(outputs) ==> outputs[k] is Some,
        all_finite(outputs.remove(k)) && outputs[k] is Some ==> all_finite(outputs),
{
    if all_finite(outputs.remove(k)) && outputs[k] is Some {
        assert forall|j: int| 0 <= j < outputs.len() implies (#[trigger] outputs[j]) is Some by {
            if j < k {
                assert(outputs.remove(k)[j] == outputs[j]);
            } else if j > k {
                assert(outputs.remove(k)[j - 1] == outputs[j]);
            }
        }
    }
}

} // verus!
