//! Reading a data file over and over: one pass is one epoch.

use vstd::prelude::*;
use vstd::string::*;

use crate::error::ErrorKind;
use crate::labels::{
    bit_is_set, override_error, DualLabelMode, MaskFile, OverrideError, OverridePaths,
    ReservedBits, ScoreOverrideReader,
};
use crate::psv::{
    dl_score_of, gate_of, i16_of_le, le_of_i16, score_of, score_reads_back, with_score,
    PackedSfenValue,
};
use crate::psv_file::{
    loader_after, range_error, LoaderState, PartialRecord, PsvFileLoader, RangeError, ReadStep,
};
use crate::shuffle::PSV_RECORD_BYTES;
use crate::text::{decimal, push_decimal};

verus! {

/// So many passes in a row without a usable record end the reading.
pub const MAX_BARREN_PASSES: u32 = 5;

/// The part of a data file that makes one epoch, and what is done to its records.
#[derive(Clone, Copy, Debug, PartialEq, Eq, Structural)]
pub struct EpochConfig {
    /// First byte of the range.
    pub start_offset: u64,
    /// The byte behind the range.
    pub end_offset: u64,
    /// Records with a score of at least this magnitude are left out.
    pub score_drop_abs: Option<i32>,
    /// The scores of the records that stay are brought within this magnitude.
    pub score_clamp_abs: Option<i16>,
    /// Which of the two labels of a record is used.
    pub dual_label_psv: Option<DualLabelMode>,
}

/// Why reading an epoch failed.
#[derive(Clone, Copy, Debug, PartialEq, Eq, Structural)]
pub enum EpochError {
    /// The second label and a score sidecar were both asked for.
    Conflict,
    /// The range does not fit the data file.
    Range(RangeError),
    /// The sidecar does not fit the data file.
    Override(OverrideError),
    /// The data ended inside a record.
    Partial(PartialRecord),
    /// A record sets a reserved bit.
    Reserved(ReservedBits),
    /// Pass after pass had no usable record.
    Barren { start_offset: u64, end_offset: u64, passes: u32 },
}

impl EpochError {
    /// The class of the error.
    pub open spec fn class(self) -> ErrorKind {
        match self {
            EpochError::Partial(_) => ErrorKind::UnexpectedEof,
            EpochError::Reserved(_) => ErrorKind::InvalidData,
            _ => ErrorKind::Other,
        }
    }

    /// The class of the error.
    pub fn kind(&self) -> (r: ErrorKind)
        ensures
            r == self.class(),
    {
        match self {
            EpochError::Partial(e) => e.kind(),
            EpochError::Reserved(e) => e.kind(),
            _ => ErrorKind::Other,
        }
    }

    /// The text of the error.
    pub open spec fn text(self, data: Seq<char>, scores: Seq<char>, mask: Seq<char>) -> Seq<char> {
        match self {
            EpochError::Conflict => {
                "dual_label_psv conflicts with score_override and score_override_mask"@
            },
            EpochError::Range(e) => e.text(data),
            EpochError::Override(e) => e.text(data, scores, mask),
            EpochError::Partial(e) => e.text(),
            EpochError::Reserved(e) => e.text(data),
            EpochError::Barren { start_offset, end_offset, passes } => {
                "data file "@ + data + " range ["@ + decimal(start_offset as nat) + ", "@ + decimal(
                    end_offset as nat,
                ) + ") yielded no usable positions over "@ + decimal(passes as nat)
                    + " full passes (empty range, or all positions filtered out by score-drop-abs)"@
            },
        }
    }

    /// The text of the error.
    pub fn message(&self, paths: &OverridePaths<'_>) -> (r: String)
        ensures
            r@ == self.text(paths.data@, paths.scores@, paths.mask@),
    {
        match self {
            EpochError::Conflict => {
                "dual_label_psv conflicts with score_override and score_override_mask".to_owned()
            },
            EpochError::Range(e) => e.message(paths.data),
            EpochError::Override(e) => e.message(paths),
            EpochError::Partial(e) => e.message(),
            EpochError::Reserved(e) => e.message(paths.data),
            EpochError::Barren { start_offset, end_offset, passes } => {
                let mut out = "data file ".to_owned();
                out.append(paths.data);
                out.append(" range [");
                push_decimal(&mut out, *start_offset);
                out.append(", ");
                push_decimal(&mut out, *end_offset);
                out.append(") yielded no usable positions over ");
                push_decimal(&mut out, *passes as u64);
                out.append(
                    " full passes (empty range, or all positions filtered out by score-drop-abs)",
                );
                out
            },
        }
    }
}

/// What a reader wants done next, or gives.
#[derive(Clone, Copy, Debug)]
pub enum EpochStep {
    /// Read at most so many bytes of the data file.
    Data(usize),
    /// Read two bytes of the score sidecar, and one of the mask where `mask` says so.
    Sidecar { mask: bool },
    /// A usable record.
    Yield(PackedSfenValue),
    /// The pass is over: open the data file anew.
    PassEnd,
}

/// The magnitude of a score.
pub open spec fn magnitude(score: i16) -> int {
    if score < 0 {
        -(score as int)
    } else {
        score as int
    }
}

/// `score` brought within `limit` on both sides.
pub open spec fn clamped(score: i16, limit: i16) -> i16 {
    if score > limit {
        limit
    } else if (score as int) < -(limit as int) {
        (-(limit as int)) as i16
    } else {
        score
    }
}

/// What becomes of a record once its label is chosen: left out when its score is too large, else
/// with its score clamped.
pub open spec fn kept(config: EpochConfig, record: Seq<u8>) -> Option<Seq<u8>> {
    if config.score_drop_abs is Some && magnitude(score_of(record))
        >= config.score_drop_abs->Some_0 {
        None
    } else {
        match config.score_clamp_abs {
            Some(limit) => Some(with_score(record, clamped(score_of(record), limit))),
            None => Some(record),
        }
    }
}

/// What becomes of a record whose score is not replaced from a sidecar.
pub open spec fn admitted(config: EpochConfig, record_index: u64, record: Seq<u8>) -> Result<
    Option<Seq<u8>>,
    EpochError,
> {
    match config.dual_label_psv {
        Some(mode) => if DualLabelMode::gate_is_clean(gate_of(record)) {
            Ok(kept(config, mode.selected(record)))
        } else {
            Err(EpochError::Reserved(ReservedBits { record_index, gate: gate_of(record) }))
        },
        None => Ok(kept(config, record)),
    }
}

/// The model of a reader.
pub struct EpochState {
    /// What it was made for.
    pub config: EpochConfig,
    /// The loader of the current pass.
    pub loader: LoaderState,
    /// The position in the sidecar, where there is one.
    pub sidecar: Option<ScoreOverrideReader>,
    /// A record that waits for its sidecar bytes.
    pub held: Option<Seq<u8>>,
    /// The index of the next record in the whole file.
    pub record_index: int,
    /// Records given since the file was last opened.
    pub pushed: int,
    /// Passes in a row that gave none.
    pub barren: int,
}

/// Reads the records of a range pass after pass: labels first, then the records with large scores
/// are left out, then scores are clamped.
#[derive(Debug)]
pub struct PsvEpochReader {
    config: EpochConfig,
    loader: PsvFileLoader,
    score_override: Option<ScoreOverrideReader>,
    held: Option<PackedSfenValue>,
    record_index: u64,
    pushed_this_epoch: u64,
    barren_passes: u32,
}

/// The loader of a fresh pass.
pub open spec fn fresh_loader(config: EpochConfig) -> LoaderState {
    LoaderState {
        remaining: config.end_offset - config.start_offset,
        eof: false,
        pending: seq![],
    }
}

/// The state after a record was given or left out.
pub open spec fn after_record(s: EpochState, given: bool) -> EpochState {
    EpochState {
        held: None,
        record_index: s.record_index + 1,
        pushed: if given {
            s.pushed + 1
        } else {
            s.pushed
        },
        ..s
    }
}

/// The state after a pass is over, before the file is opened anew.
pub open spec fn after_pass(s: EpochState) -> EpochState {
    EpochState {
        barren: if s.pushed == 0 {
            s.barren + 1
        } else {
            0
        },
        pushed: 0,
        loader: LoaderState { eof: true, ..s.loader },
        ..s
    }
}

/// Whether the pass that ends here is one barren pass too many.
pub open spec fn exhausted(s: EpochState) -> bool {
    s.pushed == 0 && s.barren + 1 >= MAX_BARREN_PASSES
}

/// Whether the reader is at the end of its pass: no record waits, and none is left to read.
pub open spec fn pass_is_over(s: EpochState) -> bool {
    s.held is None && (s.loader.eof || s.loader.remaining < 40)
}

/// What a call gives, and the state it leaves, where no record is at hand: a wish for bytes, or
/// the end of the pass.
pub open spec fn waits(
    s: EpochState,
    t: EpochState,
    r: Result<EpochStep, EpochError>,
) -> bool {
    if s.held is Some {
        &&& t == s
        &&& r == Ok::<EpochStep, EpochError>(
            EpochStep::Sidecar { mask: s.sidecar->Some_0.wants_mask_byte() },
        )
    } else if !pass_is_over(s) {
        &&& t == s
        &&& r == Ok::<EpochStep, EpochError>(
            EpochStep::Data((40 - s.loader.pending.len()) as usize),
        )
    } else {
        &&& t == after_pass(s)
        &&& r == if exhausted(s) {
            Err::<EpochStep, EpochError>(
                EpochError::Barren {
                    start_offset: s.config.start_offset,
                    end_offset: s.config.end_offset,
                    passes: (s.barren + 1) as u32,
                },
            )
        } else {
            Ok(EpochStep::PassEnd)
        }
    }
}

/// What a call gives, and the state it leaves, where the labelled record `record` is at hand.
pub open spec fn admits(
    s: EpochState,
    record: Seq<u8>,
    t: EpochState,
    r: Result<EpochStep, EpochError>,
) -> bool {
    match admitted(s.config, s.record_index as u64, record) {
        Err(e) => r == Err::<EpochStep, EpochError>(e) && t == after_record(s, false),
        Ok(Some(out)) => {
            &&& r matches Ok(EpochStep::Yield(psv)) && psv@ == out
            &&& t == after_record(s, true)
        },
        Ok(None) => waits(after_record(s, false), t, r),
    }
}

impl View for PsvEpochReader {
    type V = EpochState;

    closed spec fn view(&self) -> EpochState {
        EpochState {
            config: self.config,
            loader: self.loader@,
            sidecar: self.score_override,
            held: match self.held {
                Some(psv) => Some(psv@),
                None => None,
            },
            record_index: self.record_index as int,
            pushed: self.pushed_this_epoch as int,
            barren: self.barren_passes as int,
        }
    }
}

/// Whether a second label is asked for beside a score sidecar or a mask.
pub open spec fn sources_conflict(dual_label: bool, scores: bool, mask: bool) -> bool {
    dual_label && (scores || mask)
}

/// Refuses a second label beside a score sidecar or a mask. No file has to be looked at first.
pub fn check_sources(dual_label: bool, scores: bool, mask: bool) -> (r: Result<(), EpochError>)
    ensures
        r == if sources_conflict(dual_label, scores, mask) {
            Err::<(), EpochError>(EpochError::Conflict)
        } else {
            Ok(())
        },
{
    if dual_label && (scores || mask) {
        Err(EpochError::Conflict)
    } else {
        Ok(())
    }
}

/// The error that the arguments of a reader give, if they give one.
pub open spec fn epoch_error(
    file_size: u64,
    config: EpochConfig,
    score_override: Option<u64>,
    score_override_mask: Option<MaskFile>,
) -> Option<EpochError> {
    if sources_conflict(
        config.dual_label_psv is Some,
        score_override is Some,
        score_override_mask is Some,
    ) {
        Some(EpochError::Conflict)
    } else {
        match range_error(file_size, config.start_offset, config.end_offset) {
            Some(e) => Some(EpochError::Range(e)),
            None => match score_override {
                Some(score_size) => match override_error(
                    file_size,
                    score_size,
                    score_override_mask,
                    config.start_offset,
                ) {
                    Some(e) => Some(EpochError::Override(e)),
                    None => None,
                },
                None => None,
            },
        }
    }
}

impl PsvEpochReader {
    /// The records read so far and those left make up the range, no more records were given than
    /// read, and a record waits only for a sidecar that is at its place.
    pub closed spec fn wf(&self) -> bool {
        &&& self.loader.wf()
        &&& self.config.score_clamp_abs matches Some(limit) ==> limit >= 0
        &&& self.config.start_offset <= self.config.end_offset
        &&& self.config.start_offset % 40 == 0
        &&& self.config.end_offset % 40 == 0
        &&& self.loader@.remaining >= 0
        &&& self.record_index * 40 + self.loader@.remaining + (if self.held is Some {
            40int
        } else {
            0int
        }) == self.config.end_offset
        &&& self.pushed_this_epoch + self.config.start_offset / 40 <= self.record_index
        &&& self.held is Some ==> self.score_override is Some && self.loader@.pending.len() == 0
        &&& self.score_override matches Some(o) ==> o.index() == self.record_index
    }

    /// A reader of the range that `config` names in a file of `file_size` bytes. `score_override`
    /// is the size of the score sidecar, where there is one.
    pub fn new_range(
        file_size: u64,
        config: EpochConfig,
        score_override: Option<u64>,
        score_override_mask: Option<MaskFile>,
    ) -> (r: Result<Self, EpochError>)
        requires
            config.score_clamp_abs matches Some(limit) ==> limit >= 0,
        ensures
            match epoch_error(file_size, config, score_override, score_override_mask) {
                Some(e) => r == Err::<Self, EpochError>(e),
                None => {
                    &&& r is Ok
                    &&& r->Ok_0.wf()
                    &&& r->Ok_0@ == (EpochState {
                        config,
                        loader: fresh_loader(config),
                        sidecar: r->Ok_0@.sidecar,
                        held: None,
                        record_index: config.start_offset as int / 40,
                        pushed: 0,
                        barren: 0,
                    })
                    &&& r->Ok_0@.sidecar is Some <==> score_override is Some
                    &&& r->Ok_0@.sidecar matches Some(o) ==> o.held() is None && o.masked() == (
                    score_override_mask is Some) && o.index() == config.start_offset / 40
                },
            },
    {
        if let Err(e) = check_sources(
            config.dual_label_psv.is_some(),
            score_override.is_some(),
            score_override_mask.is_some(),
        ) {
            return Err(e);
        }
        let loader = match PsvFileLoader::new_range(
            file_size,
            config.start_offset,
            config.end_offset,
        ) {
            Ok(loader) => loader,
            Err(e) => {
                return Err(EpochError::Range(e));
            },
        };
        let score_override = match score_override {
            Some(score_size) => match ScoreOverrideReader::new(
                file_size,
                score_size,
                score_override_mask,
                config.start_offset,
            ) {
                Ok(reader) => Some(reader),
                Err(e) => {
                    return Err(EpochError::Override(e));
                },
            },
            None => None,
        };
        Ok(
            PsvEpochReader {
                config,
                loader,
                score_override,
                held: None,
                record_index: config.start_offset / PSV_RECORD_BYTES,
                pushed_this_epoch: 0,
                barren_passes: 0,
            },
        )
    }

    /// The index of the next record, counted over the whole file.
    pub fn record_index(&self) -> (r: u64)
        ensures
            r == self@.record_index,
    {
        self.record_index
    }

    /// The sidecar position, where there is a sidecar: the caller reads at its offsets.
    pub fn sidecar(&self) -> (r: Option<ScoreOverrideReader>)
        ensures
            r == self@.sidecar,
    {
        self.score_override
    }

    /// Asks for the next usable record of the current epoch. The answer is what has to be read
    /// first, or that the pass is over.
    pub fn next_in_epoch(&mut self) -> (r: Result<EpochStep, EpochError>)
        requires
            old(self).wf(),
            old(self)@.barren < u32::MAX,
        ensures
            final(self).wf(),
            waits(old(self)@, final(self)@, r),
    {
        if self.held.is_some() {
            if let Some(o) = &self.score_override {
                return Ok(EpochStep::Sidecar { mask: o.needs_mask_byte() });
            }
        }
        match self.loader.next_psv() {
            Some(n) => Ok(EpochStep::Data(n)),
            None => {
                if self.pushed_this_epoch == 0 {
                    self.barren_passes = self.barren_passes + 1;
                    if self.barren_passes >= MAX_BARREN_PASSES {
                        return Err(
                            EpochError::Barren {
                                start_offset: self.config.start_offset,
                                end_offset: self.config.end_offset,
                                passes: self.barren_passes,
                            },
                        );
                    }
                } else {
                    self.barren_passes = 0;
                }
                self.pushed_this_epoch = 0;
                Ok(EpochStep::PassEnd)
            },
        }
    }

    /// Takes the bytes that one read of the data file gave, none at its end.
    pub fn supply_data(&mut self, chunk: &[u8]) -> (r: Result<EpochStep, EpochError>)
        requires
            old(self).wf(),
            old(self)@.barren < u32::MAX,
            old(self)@.held is None,
            !pass_is_over(old(self)@),
            old(self)@.loader.pending.len() + chunk@.len() <= 40,
        ensures
            final(self).wf(),
            ({
                let s = old(self)@;
                let next = EpochState { loader: loader_after(s.loader, chunk@), ..s };
                let record = s.loader.pending + chunk@;
                if chunk@.len() == 0 && s.loader.pending.len() > 0 {
                    &&& final(self)@ == next
                    &&& r == Err::<EpochStep, EpochError>(
                        EpochError::Partial(
                            PartialRecord { got: s.loader.pending.len() as usize },
                        ),
                    )
                } else if record.len() < 40 {
                    waits(next, final(self)@, r)
                } else if s.sidecar is Some {
                    waits(EpochState { held: Some(record), ..next }, final(self)@, r)
                } else {
                    admits(next, record, final(self)@, r)
                }
            }),
    {
        match self.loader.supply(chunk) {
            Err(e) => Err(EpochError::Partial(e)),
            Ok(ReadStep::More) => self.next_in_epoch(),
            Ok(ReadStep::End) => self.next_in_epoch(),
            Ok(ReadStep::Record(psv)) => {
                if self.score_override.is_some() {
                    self.held = Some(psv);
                    self.next_in_epoch()
                } else {
                    self.count_and_filter(psv)
                }
            },
        }
    }

    /// Takes the bytes of the sidecar for the record that waits.
    pub fn supply_sidecar(&mut self, score: [u8; 2], mask_byte: Option<u8>) -> (r: Result<
        EpochStep,
        EpochError,
    >)
        requires
            old(self).wf(),
            old(self)@.barren < u32::MAX,
            old(self)@.held is Some,
            mask_byte is Some <==> old(self)@.sidecar->Some_0.wants_mask_byte(),
        ensures
            final(self).wf(),
            ({
                let s = old(self)@;
                let o = s.sidecar->Some_0;
                let moved = final(self)@.sidecar->Some_0;
                let record = overridden(o, s.held->Some_0, score@, mask_byte);
                &&& final(self)@.sidecar is Some
                &&& moved.masked() == o.masked()
                &&& moved.index() == o.index() + 1
                &&& moved.held() == match mask_byte {
                    Some(b) => Some(((o.index() / 8) as u64, b)),
                    None => o.held(),
                }
                &&& admits(EpochState { sidecar: Some(moved), ..s }, record, final(self)@, r)
            }),
    {
        let ghost s = self@;
        if let Some(mut psv) = self.held {
            if let Some(mut o) = self.score_override {
                o.apply(&mut psv, score, mask_byte);
                self.score_override = Some(o);
            }
            self.held = None;
            return self.count_and_filter(psv);
        }
        Ok(EpochStep::PassEnd)
    }

    /// Counts a record and decides what becomes of it.
    fn count_and_filter(&mut self, record: PackedSfenValue) -> (r: Result<EpochStep, EpochError>)
        requires
            old(self).loader.wf(),
            old(self).held is None,
            old(self).barren_passes < u32::MAX,
            old(self).record_index < u64::MAX,
            old(self).loader@.pending.len() == 0,
            old(self).score_override matches Some(o) ==> o.index() == old(self).record_index + 1,
            // As in `wf`, with this record not counted yet.
            old(self).config.score_clamp_abs matches Some(limit) ==> limit >= 0,
            old(self).config.start_offset <= old(self).config.end_offset,
            old(self).config.start_offset % 40 == 0,
            old(self).config.end_offset % 40 == 0,
            old(self).loader@.remaining >= 0,
            old(self).record_index * 40 + old(self).loader@.remaining + 40
                == old(self).config.end_offset,
            old(self).pushed_this_epoch + old(self).config.start_offset / 40
                <= old(self).record_index,
        ensures
            final(self).wf(),
            admits(old(self)@, record@, final(self)@, r),
    {
        let mut psv = record;
        let record_index: u64 = self.record_index;
        self.record_index = self.record_index + 1;
        if let Some(mode) = self.config.dual_label_psv {
            if let Err(e) = mode.apply(&mut psv, record_index) {
                assert(self@ == after_record(old(self)@, false));
                return Err(EpochError::Reserved(e));
            }
        }
        let score: i16 = psv.score();
        if let Some(t) = self.config.score_drop_abs {
            let size: i32 = if score < 0 {
                -(score as i32)
            } else {
                score as i32
            };
            if size >= t {
                assert(self@ == after_record(old(self)@, false));
                return self.next_in_epoch();
            }
        }
        if let Some(limit) = self.config.score_clamp_abs {
            let bounded: i16 = if score > limit {
                limit
            } else if score < -limit {
                -limit
            } else {
                score
            };
            psv.set_score(bounded);
        }
        self.pushed_this_epoch = self.pushed_this_epoch + 1;
        Ok(EpochStep::Yield(psv))
    }

    /// Starts the next pass on the file that was opened anew and has `file_size` bytes.
    pub fn reopen(&mut self, file_size: u64) -> (r: Result<(), EpochError>)
        requires
            old(self).wf(),
            pass_is_over(old(self)@),
            old(self)@.pushed == 0,
        ensures
            final(self).wf(),
            match range_error(
                file_size,
                old(self)@.config.start_offset,
                old(self)@.config.end_offset,
            ) {
                Some(e) => r == Err::<(), EpochError>(EpochError::Range(e)) && final(self)@ == old(
                    self,
                )@,
                None => {
                    &&& r == Ok::<(), EpochError>(())
                    &&& final(self)@ == (EpochState {
                        loader: fresh_loader(old(self)@.config),
                        record_index: old(self)@.config.start_offset as int / 40,
                        sidecar: final(self)@.sidecar,
                        ..old(self)@
                    })
                    &&& final(self)@.sidecar is Some <==> old(self)@.sidecar is Some
                    &&& final(self)@.sidecar matches Some(o) ==> o.held() is None && o.masked()
                        == old(self)@.sidecar->Some_0.masked() && o.index() == old(
                        self,
                    )@.config.start_offset / 40
                },
            },
    {
        match PsvFileLoader::new_range(
            file_size,
            self.config.start_offset,
            self.config.end_offset,
        ) {
            Err(e) => Err(EpochError::Range(e)),
            Ok(loader) => {
                self.loader = loader;
                self.record_index = self.config.start_offset / PSV_RECORD_BYTES;
                if let Some(mut o) = self.score_override {
                    o.seek_to(self.config.start_offset / PSV_RECORD_BYTES);
                    self.score_override = Some(o);
                }
                Ok(())
            },
        }
    }
}

/// The record that a sidecar makes of `record`.
pub open spec fn overridden(
    o: ScoreOverrideReader,
    record: Seq<u8>,
    score: Seq<u8>,
    mask_byte: Option<u8>,
) -> Seq<u8> {
    if o.masked() && bit_is_set(o.deciding_byte(mask_byte), o.index() as int % 8) {
        record
    } else {
        with_score(record, i16_of_le(score[0], score[1]))
    }
}

/// The bit of a mask for record `index`, least significant bit first.
pub open spec fn mask_bit(mask: Seq<u8>, index: int) -> bool {
    bit_is_set(mask[index / 8], index % 8)
}

/// The records with the scores of a sidecar written into them, but for those that the mask keeps.
/// `first` is the index of the first record in its file.
pub open spec fn materialized(
    records: Seq<Seq<u8>>,
    scores: Seq<i16>,
    mask: Option<Seq<u8>>,
    first: int,
) -> Seq<Seq<u8>> {
    Seq::new(
        records.len(),
        |k: int|
            if mask is Some && mask_bit(mask->Some_0, first + k) {
                records[k]
            } else {
                with_score(records[k], scores[first + k])
            },
    )
}

/// The records that a pass gives of `records`, up to the first that is refused. `first` is the
/// index of the first record in its file.
pub open spec fn given(config: EpochConfig, records: Seq<Seq<u8>>, first: int) -> Seq<Seq<u8>>
    decreases records.len(),
{
    if records.len() == 0 {
        seq![]
    } else {
        match admitted(config, first as u64, records[0]) {
            Ok(Some(out)) => seq![out] + given(config, records.drop_first(), first + 1),
            Ok(None) => given(config, records.drop_first(), first + 1),
            Err(_) => seq![],
        }
    }
}

/// The records that a reader without a sidecar gives while it reads `records` whole, from the
/// state `s` on, up to the first that is refused.
pub open spec fn given_by(s: EpochState, records: Seq<Seq<u8>>) -> Seq<Seq<u8>>
    decreases records.len(),
{
    if records.len() == 0 {
        seq![]
    } else {
        match admitted(s.config, s.record_index as u64, records[0]) {
            Ok(Some(out)) => seq![out] + given_by(after_record(s, true), records.drop_first()),
            Ok(None) => given_by(after_record(s, false), records.drop_first()),
            Err(_) => seq![],
        }
    }
}

/// A pass depends on its configuration, on the records and on where they start in the file, and on
/// nothing that was read before: so every pass over the same file gives the same records.
pub proof fn passes_give_the_same(s: EpochState, records: Seq<Seq<u8>>)
    ensures
        given_by(s, records) == given(s.config, records, s.record_index),
    decreases records.len(),
{
    if records.len() > 0 {
        passes_give_the_same(after_record(s, true), records.drop_first());
        passes_give_the_same(after_record(s, false), records.drop_first());
    }
}

/// A reader with a sidecar treats a record as a reader without one treats the record with the
/// sidecar's score written into it: the byte pair and the mask byte are those at the offsets that
/// the sidecar position names, so record `k` gets score `k` and mask bit `k`.
pub proof fn override_matches_materialized_record(
    o: ScoreOverrideReader,
    record: Seq<u8>,
    scores: Seq<i16>,
    mask: Option<Seq<u8>>,
    fresh: Option<u8>,
)
    requires
        o.index() < scores.len(),
        o.masked() <==> mask is Some,
        mask matches Some(m) ==> o.follows(m) && m.len() > o.index() as int / 8,
        fresh is Some <==> o.wants_mask_byte(),
        fresh matches Some(b) ==> mask is Some && b == mask->Some_0[o.index() as int / 8],
    ensures
        overridden(o, record, le_of_i16(scores[o.index() as int]), fresh) == materialized(
            seq![record],
            scores,
            mask,
            o.index() as int,
        )[0],
{
    crate::psv::i16_le_round_trip(scores[o.index() as int]);
    if o.masked() {
        let m = mask->Some_0;
        let at = o.index() as int / 8;
        assert(o.deciding_byte(fresh) == m[at]);
    }
}

/// Using the second label unless the lowest padding bit is set gives the same pass as a sidecar
/// that holds the second labels, with those padding bits as its mask.
pub proof fn gated_label_matches_masked_sidecar(
    config: EpochConfig,
    records: Seq<Seq<u8>>,
    scores: Seq<i16>,
    mask: Seq<u8>,
    first: int,
)
    requires
        config.dual_label_psv == Some(DualLabelMode::Gated),
        0 <= first,
        forall|k: int|
            0 <= k < records.len() ==> {
                &&& gate_of(#[trigger] records[k]) <= 1
                &&& scores[first + k] == dl_score_of(records[k])
                &&& mask_bit(mask, first + k) == (gate_of(records[k]) == 1)
            },
    ensures
        given(config, records, first) == given(
            EpochConfig { dual_label_psv: None, ..config },
            materialized(records, scores, Some(mask), first),
            first,
        ),
    decreases records.len(),
{
    let plain = EpochConfig { dual_label_psv: None, ..config };
    let written = materialized(records, scores, Some(mask), first);
    if records.len() > 0 {
        let rest = records.drop_first();
        assert forall|k: int| 0 <= k < rest.len() implies {
            &&& gate_of(#[trigger] rest[k]) <= 1
            &&& scores[first + 1 + k] == dl_score_of(rest[k])
            &&& mask_bit(mask, first + 1 + k) == (gate_of(rest[k]) == 1)
        } by {
            assert(rest[k] == records[k + 1]);
            assert(first + (k + 1) == first + 1 + k);
        }
        gated_label_matches_masked_sidecar(config, rest, scores, mask, first + 1);
        assert(written.drop_first() =~= materialized(rest, scores, Some(mask), first + 1)) by {
            assert forall|k: int| 0 <= k < rest.len() implies #[trigger] written.drop_first()[k]
                == materialized(rest, scores, Some(mask), first + 1)[k] by {
                assert(first + (k + 1) == first + 1 + k);
            }
        }
        assert(first + 0 == first);
        assert(mask_bit(mask, first + 0) == (gate_of(records[0]) == 1));
        assert(written[0] == DualLabelMode::Gated.selected(records[0]));
        assert(kept(config, written[0]) == kept(plain, written[0]));
    }
}

/// Using the second label of every record gives the same pass as a sidecar that holds the second
/// labels, without a mask.
pub proof fn all_label_matches_unmasked_sidecar(
    config: EpochConfig,
    records: Seq<Seq<u8>>,
    scores: Seq<i16>,
    first: int,
)
    requires
        config.dual_label_psv == Some(DualLabelMode::All),
        0 <= first,
        forall|k: int|
            0 <= k < records.len() ==> {
                &&& gate_of(#[trigger] records[k]) <= 1
                &&& scores[first + k] == dl_score_of(records[k])
            },
    ensures
        given(config, records, first) == given(
            EpochConfig { dual_label_psv: None, ..config },
            materialized(records, scores, None, first),
            first,
        ),
    decreases records.len(),
{
    let plain = EpochConfig { dual_label_psv: None, ..config };
    let written = materialized(records, scores, None, first);
    if records.len() > 0 {
        let rest = records.drop_first();
        assert forall|k: int| 0 <= k < rest.len() implies {
            &&& gate_of(#[trigger] rest[k]) <= 1
            &&& scores[first + 1 + k] == dl_score_of(rest[k])
        } by {
            assert(rest[k] == records[k + 1]);
            assert(first + (k + 1) == first + 1 + k);
        }
        all_label_matches_unmasked_sidecar(config, rest, scores, first + 1);
        assert(written.drop_first() =~= materialized(rest, scores, None, first + 1)) by {
            assert forall|k: int| 0 <= k < rest.len() implies #[trigger] written.drop_first()[k]
                == materialized(rest, scores, None, first + 1)[k] by {
                assert(first + (k + 1) == first + 1 + k);
            }
        }
        assert(first + 0 == first);
        assert(written[0] == DualLabelMode::All.selected(records[0]));
        assert(kept(config, written[0]) == kept(plain, written[0]));
    }
}

/// The records with large scores are left out before any score is clamped: whether a record stays
/// does not depend on the clamp, a record that stays had a score under the drop limit, and its
/// score is then within the clamp.
pub proof fn drop_precedes_clamp(config: EpochConfig, record: Seq<u8>)
    requires
        record.len() == 40,
        config.score_clamp_abs matches Some(limit) ==> limit >= 0,
    ensures
        kept(config, record) is Some <==> kept(
            EpochConfig { score_clamp_abs: None, ..config },
            record,
        ) is Some,
        kept(config, record) matches Some(out) ==> {
            &&& config.score_drop_abs matches Some(t) ==> magnitude(score_of(record)) < t
            &&& config.score_clamp_abs matches Some(limit) ==> magnitude(score_of(out)) <= limit
                && score_of(out) == clamped(score_of(record), limit)
            &&& out.len() == 40
            &&& forall|k: int| 0 <= k < 40 && k != 32 && k != 33 ==> out[k] == record[k]
        },
{
    if let Some(limit) = config.score_clamp_abs {
        score_reads_back(record, clamped(score_of(record), limit));
    }
}

/// Whether `p` is the sidecar position behind `o`, when `fresh` was handed over for the record.
pub open spec fn moves_on(
    o: ScoreOverrideReader,
    fresh: Option<u8>,
    p: ScoreOverrideReader,
) -> bool {
    &&& p.masked() == o.masked()
    &&& p.index() == o.index() + 1
    &&& p.held() == match fresh {
        Some(b) => Some(((o.index() / 8) as u64, b)),
        None => o.held(),
    }
}

/// Over a run of records, from a fresh position on, the mask byte that is held is the mask file's
/// byte at its place, whenever it was read: so every record gets its own score unless its own mask
/// bit is set. `fresh` are the bytes handed over, each read from the mask file where it was asked
/// for.
pub proof fn every_record_gets_its_score_and_mask_bit(
    positions: Seq<ScoreOverrideReader>,
    fresh: Seq<Option<u8>>,
    scores: Seq<i16>,
    mask: Option<Seq<u8>>,
    record: Seq<u8>,
    i: int,
)
    requires
        positions.len() == fresh.len() + 1,
        positions[0].held() is None,
        positions[0].masked() <==> mask is Some,
        positions[0].index() + fresh.len() <= scores.len(),
        mask matches Some(m) ==> m.len() == (scores.len() + 7) / 8,
        forall|j: int|
            0 <= j < fresh.len() ==> moves_on(positions[j], #[trigger] fresh[j], positions[j + 1]),
        forall|j: int|
            0 <= j < fresh.len() ==> ((#[trigger] fresh[j]) is Some
                <==> positions[j].wants_mask_byte()),
        forall|j: int|
            0 <= j < fresh.len() && (#[trigger] fresh[j]) is Some ==> mask is Some
                && fresh[j]->Some_0 == mask->Some_0[positions[j].index() as int / 8],
        0 <= i < fresh.len(),
    ensures
        positions[i].index() == positions[0].index() + i,
        mask matches Some(m) ==> positions[i].follows(m),
        overridden(
            positions[i],
            record,
            le_of_i16(scores[positions[0].index() + i]),
            fresh[i],
        ) == materialized(seq![record], scores, mask, positions[0].index() + i)[0],
{
    lemma_position_follows(positions, fresh, scores.len(), mask, i);
    override_matches_materialized_record(positions[i], record, scores, mask, fresh[i]);
}

proof fn lemma_position_follows(
    positions: Seq<ScoreOverrideReader>,
    fresh: Seq<Option<u8>>,
    records: nat,
    mask: Option<Seq<u8>>,
    i: int,
)
    requires
        positions.len() == fresh.len() + 1,
        positions[0].held() is None,
        positions[0].index() + fresh.len() <= records,
        mask matches Some(m) ==> m.len() == (records + 7) / 8,
        forall|j: int|
            0 <= j < fresh.len() ==> moves_on(positions[j], #[trigger] fresh[j], positions[j + 1]),
        forall|j: int|
            0 <= j < fresh.len() && (#[trigger] fresh[j]) is Some ==> mask is Some
                && fresh[j]->Some_0 == mask->Some_0[positions[j].index() as int / 8],
        0 <= i <= fresh.len(),
    ensures
        positions[i].index() == positions[0].index() + i,
        positions[i].masked() == positions[0].masked(),
        mask matches Some(m) ==> positions[i].follows(m),
    decreases i,
{
    if i > 0 {
        lemma_position_follows(positions, fresh, records, mask, i - 1);
        assert(moves_on(positions[i - 1], fresh[i - 1], positions[i - 1 + 1]));
    }
}

/// Whether a score is below the drop limit and within the clamp.
pub open spec fn score_within(config: EpochConfig, score: i16) -> bool {
    &&& config.score_drop_abs matches Some(t) ==> magnitude(score) < t
    &&& config.score_clamp_abs matches Some(limit) ==> magnitude(score) <= limit
}

/// Every record that a reader gives has a score below the drop limit and within the clamp.
pub proof fn given_scores_are_within_limits(
    s: EpochState,
    record: Seq<u8>,
    t: EpochState,
    psv: PackedSfenValue,
)
    requires
        record.len() == 40,
        s.config.score_clamp_abs matches Some(limit) ==> limit >= 0,
        admits(s, record, t, Ok(EpochStep::Yield(psv))),
    ensures
        score_within(s.config, score_of(psv@)),
{
    if let Ok(Some(out)) = admitted(s.config, s.record_index as u64, record) {
        drop_precedes_clamp(s.config, labelled(s.config, record));
    }
}

/// The reader behind `records`, read whole without a sidecar, up to the first that is refused.
pub open spec fn behind(s: EpochState, records: Seq<Seq<u8>>) -> EpochState
    decreases records.len(),
{
    if records.len() == 0 {
        s
    } else {
        match admitted(s.config, s.record_index as u64, records[0]) {
            Ok(Some(_)) => behind(after_record(s, true), records.drop_first()),
            Ok(None) => behind(after_record(s, false), records.drop_first()),
            Err(_) => after_record(s, false),
        }
    }
}

/// A reader counts the records that it gives, and nothing else of a pass touches its count of
/// passes without any.
pub proof fn given_records_are_counted(s: EpochState, records: Seq<Seq<u8>>)
    ensures
        behind(s, records).pushed == s.pushed + given_by(s, records).len(),
        behind(s, records).barren == s.barren,
        behind(s, records).config == s.config,
    decreases records.len(),
{
    if records.len() > 0 {
        given_records_are_counted(after_record(s, true), records.drop_first());
        given_records_are_counted(after_record(s, false), records.drop_first());
    }
}

/// A record with the label that its reader trains on.
pub open spec fn labelled(config: EpochConfig, record: Seq<u8>) -> Seq<u8> {
    match config.dual_label_psv {
        Some(mode) => mode.selected(record),
        None => record,
    }
}

/// A pass over records whose scores all reach the drop limit gives none of them.
pub proof fn dropped_records_are_never_given(s: EpochState, records: Seq<Seq<u8>>)
    requires
        s.config.score_drop_abs is Some,
        forall|k: int|
            0 <= k < records.len() ==> magnitude(
                score_of(labelled(s.config, #[trigger] records[k])),
            ) >= s.config.score_drop_abs->Some_0,
    ensures
        given_by(s, records).len() == 0,
        behind(s, records).pushed == s.pushed,
    decreases records.len(),
{
    given_records_are_counted(s, records);
    if records.len() > 0 {
        let rest = records.drop_first();
        let next = after_record(s, false);
        assert(kept(s.config, labelled(s.config, records[0])) is None);
        assert forall|k: int| 0 <= k < rest.len() implies magnitude(
            score_of(labelled(next.config, #[trigger] rest[k])),
        ) >= next.config.score_drop_abs->Some_0 by {
            assert(rest[k] == records[k + 1]);
        }
        dropped_records_are_never_given(next, rest);
    }
}

/// How many of the last passes gave nothing, when the passes gave so many records each.
pub open spec fn barren_after(given: Seq<int>) -> int
    decreases given.len(),
{
    if given.len() == 0 {
        0
    } else if given.last() == 0 {
        barren_after(given.drop_last()) + 1
    } else {
        0
    }
}

/// Reading ends with an error exactly at the end of the fifth pass in a row that gave nothing. A
/// pass that gave a record never ends it, and the count starts anew behind it. `ends` are the
/// readers at the end of each pass, `next` those that the end leaves, and `answers` what is
/// answered there; opening the file anew keeps the count.
pub proof fn five_barren_passes_end_the_reading(
    given: Seq<int>,
    ends: Seq<EpochState>,
    next: Seq<EpochState>,
    answers: Seq<Result<EpochStep, EpochError>>,
    k: int,
)
    requires
        ends.len() == given.len(),
        next.len() == given.len(),
        answers.len() == given.len(),
        forall|i: int|
            0 <= i < given.len() ==> pass_is_over(#[trigger] ends[i]) && ends[i].pushed == given[i]
                && given[i] >= 0 && waits(ends[i], next[i], answers[i]),
        forall|i: int|
            0 <= i < given.len() ==> (#[trigger] ends[i]).barren == if i == 0 {
                0
            } else {
                next[i - 1].barren
            },
        0 <= k < given.len(),
    ensures
        next[k].barren == barren_after(given.take(k + 1)),
        answers[k] is Err <==> given[k] == 0 && barren_after(given.take(k + 1))
            >= MAX_BARREN_PASSES,
        given[k] > 0 ==> answers[k] == Ok::<EpochStep, EpochError>(EpochStep::PassEnd),
    decreases k,
{
    let now = given.take(k + 1);
    assert(now.drop_last() =~= given.take(k));
    assert(pass_is_over(ends[k]));
    if k == 0 {
        assert(barren_after(given.take(0)) == 0);
    } else {
        five_barren_passes_end_the_reading(given, ends, next, answers, k - 1);
    }
}

/// Which records stay, and with which score: one whose score reaches the drop limit on either side
/// is left out, and no other; the scores of those that stay are cut at the clamp limit on the side
/// where they lie. Nothing else of a record changes.
pub proof fn records_stay_by_their_score(config: EpochConfig, record: Seq<u8>)
    requires
        record.len() == 40,
        config.score_clamp_abs matches Some(limit) ==> limit >= 0,
    ensures
        ({
            let s = score_of(record) as int;
            &&& kept(config, record) is None <==> config.score_drop_abs is Some && (s
                >= config.score_drop_abs->Some_0 || -s >= config.score_drop_abs->Some_0)
            &&& kept(config, record) matches Some(out) ==> {
                &&& out.len() == 40
                &&& forall|k: int|
                    0 <= k < 40 && k != 32 && k != 33 ==> #[trigger] out[k] == record[k]
                &&& config.score_clamp_abs is None ==> out == record
                &&& config.score_clamp_abs matches Some(limit) ==> {
                    &&& -limit <= score_of(out) <= limit
                    &&& -limit <= s <= limit ==> score_of(out) == s
                    &&& s > limit ==> score_of(out) == limit
                    &&& s < -limit ==> score_of(out) == -limit
                }
            }
        }),
{
    if let Some(limit) = config.score_clamp_abs {
        score_reads_back(record, clamped(score_of(record), limit));
    }
}

/// What becomes of a record: the label is chosen first, then the score is looked at. A record is
/// refused exactly where a second label is asked for and its last byte sets a bit other than bit 0;
/// the error tells its number and that byte.
pub proof fn labels_come_before_limits(config: EpochConfig, record_index: u64, record: Seq<u8>)
    requires
        record.len() == 40,
    ensures
        match admitted(config, record_index, record) {
            Err(e) => {
                &&& config.dual_label_psv is Some
                &&& exists|n: int| 1 <= n < 8 && bit_is_set(record[39], n)
                &&& e == EpochError::Reserved(ReservedBits { record_index, gate: record[39] })
            },
            Ok(out) => {
                &&& out == kept(config, labelled(config, record))
                &&& config.dual_label_psv is Some ==> forall|n: int|
                    1 <= n < 8 ==> !#[trigger] bit_is_set(record[39], n)
            },
        },
        config.dual_label_psv is None ==> labelled(config, record) == record,
        config.dual_label_psv matches Some(mode) ==> labelled(config, record) == mode.selected(
            record,
        ),
{
    if let Some(mode) = config.dual_label_psv {
        crate::labels::labels_are_chosen_by_the_gate(mode, record);
    }
}

/// A reader can be started exactly where a second label and a sidecar do not meet, the range lies
/// on records of the file, and the sidecar and its mask, where there are any, fit the file.
pub proof fn readers_start_on_fitting_files(
    file_size: u64,
    config: EpochConfig,
    score_override: Option<u64>,
    mask: Option<MaskFile>,
)
    ensures
        epoch_error(file_size, config, score_override, mask) is None <==> {
            &&& config.dual_label_psv is Some ==> score_override is None && mask is None
            &&& config.start_offset <= config.end_offset <= file_size
            &&& config.start_offset as int % 40 == 0
            &&& config.end_offset as int % 40 == 0
            &&& score_override matches Some(size) ==> override_error(
                file_size,
                size,
                mask,
                config.start_offset,
            ) is None
        },
        epoch_error(file_size, config, score_override, mask) == Some(EpochError::Conflict) <==> {
            &&& config.dual_label_psv is Some
            &&& score_override is Some || mask is Some
        },
{
}

/// Without limits and labels a pass gives the records as they are, every one in its place.
pub proof fn plain_passes_give_every_record(
    config: EpochConfig,
    records: Seq<Seq<u8>>,
    first: int,
)
    requires
        config.score_drop_abs is None,
        config.score_clamp_abs is None,
        config.dual_label_psv is None,
    ensures
        given(config, records, first) == records,
    decreases records.len(),
{
    if records.len() > 0 {
        plain_passes_give_every_record(config, records.drop_first(), first + 1);
        assert(given(config, records, first) =~= records);
    } else {
        assert(given(config, records, first) =~= records);
    }
}

/// What a pass gives of its records does not depend on where the reading is cut in two.
pub proof fn passes_can_be_cut(
    config: EpochConfig,
    a: Seq<Seq<u8>>,
    b: Seq<Seq<u8>>,
    first: int,
)
    requires
        forall|k: int| 0 <= k < a.len() ==> (#[trigger] a[k]).len() == 40 && a[k][39] <= 1,
    ensures
        given(config, a + b, first) == given(config, a, first) + given(
            config,
            b,
            first + a.len(),
        ),
    decreases a.len(),
{
    if a.len() == 0 {
        assert(a + b =~= b);
        assert(given(config, a, first) =~= seq![]);
        assert(given(config, a + b, first) =~= given(config, a, first) + given(
            config,
            b,
            first + a.len(),
        ));
    } else {
        let rest = a.drop_first();
        assert((a + b).drop_first() =~= rest + b);
        assert((a + b)[0] == a[0]);
        assert forall|k: int| 0 <= k < rest.len() implies (#[trigger] rest[k]).len() == 40
            && rest[k][39] <= 1 by {
            assert(rest[k] == a[k + 1]);
        }
        passes_can_be_cut(config, rest, b, first + 1);
        assert(gate_of(a[0]) <= 1);
        assert(given(config, a + b, first) =~= given(config, a, first) + given(
            config,
            b,
            first + a.len(),
        ));
    }
}

/// Data that ends inside a record is told apart from data with bits that mean nothing yet, and both
/// from what the arguments are at fault for. A second label in the records stands alone: it is
/// refused beside a score sidecar or a mask, and those go with each other.
pub proof fn faults_of_the_data_have_their_class(
    e: EpochError,
    dual_label: bool,
    scores: bool,
    mask: bool,
)
    ensures
        e.class() is UnexpectedEof <==> e is Partial,
        e.class() is InvalidData <==> e is Reserved,
        e.class() is Other <==> !(e is Partial) && !(e is Reserved),
        !sources_conflict(false, scores, mask),
        !sources_conflict(dual_label, false, false),
        sources_conflict(true, true, mask),
        sources_conflict(true, scores, true),
{
}

/// What a reader asks for: the labels of a record that it holds, else exactly what is missing of
/// the next record. A pass ends only when less than a record is left, and asking loses nothing.
pub proof fn readers_ask_for_what_is_missing(
    s: EpochState,
    t: EpochState,
    r: Result<EpochStep, EpochError>,
)
    requires
        waits(s, t, r),
        s.loader.pending.len() < 40,
    ensures
        t.record_index == s.record_index && t.held == s.held && t.config == s.config,
        t.loader.pending == s.loader.pending && t.loader.remaining == s.loader.remaining,
        s.held is Some <==> r matches Ok(EpochStep::Sidecar { .. }),
        r matches Ok(EpochStep::Data(n)) ==> {
            &&& n + s.loader.pending.len() == 40
            &&& !s.loader.eof && s.loader.remaining >= 40
            &&& t == s
        },
        s.held is None && !s.loader.eof && s.loader.remaining >= 40 ==> r matches Ok(
            EpochStep::Data(_),
        ),
        r is Err ==> s.pushed == 0 && t.pushed == 0,
        r matches Ok(EpochStep::PassEnd) ==> t.pushed == 0 && (s.pushed > 0 ==> t.barren == 0),
{
}

} // verus!
