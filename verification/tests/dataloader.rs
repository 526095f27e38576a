use tatara::batch::{Batch, BucketMode, FeatureSetSpec, Position, Wdl};
use tatara::epoch::{check_sources, EpochConfig, EpochError, EpochStep, PsvEpochReader, MAX_BARREN_PASSES};
use tatara::error::ErrorKind;
use tatara::labels::{
    DualLabelMode, MaskFile, OverrideError, OverridePaths, ReservedBits, ScoreOverrideReader,
};
use tatara::prefetch::{
    assemble_batch, prefetch_depth_for, BatchStep, BucketedPrefetchedLoader, LoaderArgs, PrefetchWorker,
    PrefetchedLoader, SpawnError, TrainingPsvReader, WorkerAction, WorkerEvent,
};
use tatara::progress_kpabs::ShogiProgressKPAbs;
use tatara::psv::{i16_le_bytes, read_i16_le, PackedSfenValue};
use tatara::psv_file::{
    FillError, FillEvent, FillStep, HcpeFileLoader, HcpeSizeError, PartialRecord, PsvFileLoader, RangeError, ReadStep,
};
use tatara::shuffle::{
    shuffle_window, shuffle_window_records, ShuffleWindowError, SplitMix64, MIB_BYTES,
    PSV_RECORD_BYTES,
};
use tatara::window::{
    LoadError, ProducerAction, ProducerEvent, WindowEvent, WindowProducer, WindowStep,
    WindowedPsvReader,
};

/// A data file, its sidecar and its mask, held in memory.
struct Files {
    data: Vec<u8>,
    scores: Option<Vec<u8>>,
    mask: Option<Vec<u8>>,
}

fn record(base: i16, dl: i16, gate: u8) -> [u8; 40] {
    let mut r = [0_u8; 40];
    r[32..34].copy_from_slice(&base.to_le_bytes());
    r[34..36].copy_from_slice(&dl.to_le_bytes());
    r[39] = gate;
    r
}

fn override_files(base: &[i16], replacement: &[i16], mask: Option<&[u8]>) -> Files {
    let mut data = Vec::new();
    let mut scores = Vec::new();
    for (b, s) in base.iter().zip(replacement) {
        data.extend_from_slice(&record(*b, 0, 0));
        scores.extend_from_slice(&s.to_le_bytes());
    }
    Files {
        data,
        scores: Some(scores),
        mask: mask.map(|m| m.to_vec()),
    }
}

fn dual_files(base: &[i16], dl: &[i16], gates: &[u8]) -> Files {
    let mut data = Vec::new();
    for ((b, d), g) in base.iter().zip(dl).zip(gates) {
        data.extend_from_slice(&record(*b, *d, *g));
    }
    Files {
        data,
        scores: None,
        mask: None,
    }
}

fn config(first: u64, last: u64) -> EpochConfig {
    EpochConfig {
        start_offset: first * PSV_RECORD_BYTES,
        end_offset: last * PSV_RECORD_BYTES,
        score_drop_abs: None,
        score_clamp_abs: None,
        dual_label_psv: None,
    }
}

fn mask_file(files: &Files) -> Option<MaskFile> {
    files.mask.as_ref().map(|m| MaskFile {
        size: m.len() as u64,
        final_byte: m.last().copied().unwrap_or(0),
    })
}

fn open(files: &Files, config: EpochConfig) -> Result<PsvEpochReader, EpochError> {
    PsvEpochReader::new_range(
        files.data.len() as u64,
        config,
        files.scores.as_ref().map(|s| s.len() as u64),
        mask_file(files),
    )
}

/// Drives a reader over files held in memory. Reads give at most `chunk` bytes.
struct Driver<'a> {
    reader: PsvEpochReader,
    files: &'a Files,
    start: usize,
    pos: usize,
    chunk: usize,
}

impl<'a> Driver<'a> {
    fn new(files: &'a Files, config: EpochConfig, chunk: usize) -> Driver<'a> {
        Driver {
            reader: open(files, config).unwrap(),
            files,
            start: config.start_offset as usize,
            pos: config.start_offset as usize,
            chunk,
        }
    }

    /// The next record of the epoch, or `None` at its end.
    fn next_in_epoch(&mut self) -> Result<Option<PackedSfenValue>, EpochError> {
        let mut step = self.reader.next_in_epoch()?;
        loop {
            step = match step {
                EpochStep::Data(n) => {
                    let n = n.min(self.chunk).min(self.files.data.len() - self.pos);
                    let bytes = &self.files.data[self.pos..self.pos + n];
                    self.pos += n;
                    self.reader.supply_data(bytes)?
                }
                EpochStep::Sidecar { mask } => {
                    let o = self.reader.sidecar().unwrap();
                    let scores = self.files.scores.as_ref().unwrap();
                    let at = o.score_offset() as usize;
                    let score = [scores[at], scores[at + 1]];
                    let byte = if mask {
                        Some(self.files.mask.as_ref().unwrap()[o.mask_offset() as usize])
                    } else {
                        None
                    };
                    self.reader.supply_sidecar(score, byte)?
                }
                EpochStep::Yield(psv) => return Ok(Some(psv)),
                EpochStep::PassEnd => {
                    self.reader.reopen(self.files.data.len() as u64)?;
                    self.pos = self.start;
                    return Ok(None);
                }
            };
        }
    }

    fn next(&mut self) -> Result<PackedSfenValue, EpochError> {
        loop {
            if let Some(psv) = self.next_in_epoch()? {
                return Ok(psv);
            }
        }
    }

    fn scores(&mut self, n: usize) -> Vec<i16> {
        (0..n).map(|_| self.next().unwrap().score()).collect()
    }
}

fn read_scores(files: &Files, config: EpochConfig, n: usize) -> Vec<i16> {
    let whole = Driver::new(files, config, 40).scores(n);
    let split = Driver::new(files, config, 7).scores(n);
    assert_eq!(whole, split, "the reads must not matter");
    whole
}

/// Reads through windows: the producer and the consumer take turns.
fn windowed_scores(
    files: &Files,
    config: EpochConfig,
    window_records: usize,
    shuffle: bool,
    seed: u64,
    n: usize,
) -> Vec<i16> {
    let mut source = Driver::new(files, config, 40);
    let mut producer = WindowProducer::new(window_records, shuffle, seed);
    let mut reader = WindowedPsvReader::new();
    let mut returned: Vec<Vec<PackedSfenValue>> = Vec::new();
    let mut out = Vec::new();
    while out.len() < n {
        match reader.next() {
            WindowStep::Record(psv) => out.push(psv.score()),
            WindowStep::NeedWindow(buffer) => {
                returned.extend(buffer);
                let mut event = ProducerEvent::Continue;
                let window = loop {
                    event = match producer.advance(event) {
                        ProducerAction::Allocate(n) => {
                            assert_eq!(n, window_records);
                            ProducerEvent::Buffer(Vec::new())
                        }
                        ProducerAction::AwaitBuffer => {
                            ProducerEvent::Buffer(returned.pop().unwrap())
                        }
                        ProducerAction::ReadRecord => match source.next_in_epoch().unwrap() {
                            Some(psv) => ProducerEvent::Record(psv),
                            None => ProducerEvent::EpochEnd,
                        },
                        ProducerAction::Send(window) => break window,
                        ProducerAction::Fail(e) => panic!("{}", e.message),
                    };
                };
                reader.receive(WindowEvent::Window(window)).unwrap();
            }
            WindowStep::Failed(e) => panic!("{}", e.message),
        }
    }
    out
}

#[test]
fn shuffle_window_size_is_per_window_and_batch_aligned() {
    assert_eq!(shuffle_window_records(0, 65_536).unwrap(), None);
    let records = shuffle_window_records(4096, 65_536).unwrap().unwrap();
    assert_eq!(records % 65_536, 0);
    assert!(records * PSV_RECORD_BYTES as usize <= 4096 * MIB_BYTES);
    assert!((records + 65_536) * PSV_RECORD_BYTES as usize > 4096 * MIB_BYTES);
    assert!(shuffle_window_records(1, 65_536).is_err());
}

#[test]
fn shuffle_window_errors_name_their_sizes() {
    let e = shuffle_window_records(1, 65_536).unwrap_err();
    assert_eq!(
        e,
        ShuffleWindowError::SmallerThanBatch {
            buffer_mib: 1,
            batch_bytes: 65_536 * 40
        }
    );
    assert_eq!(
        e.message(),
        "teacher shuffle buffer (1 MiB) is smaller than one raw batch (2621440 bytes)"
    );
    let e = shuffle_window_records(usize::MAX, 1).unwrap_err();
    assert_eq!(e, ShuffleWindowError::SizeOverflow);
    assert_eq!(e.message(), "teacher shuffle buffer size overflow");
    assert_eq!(shuffle_window_records(1, 100).unwrap(), Some(26_200));
}

#[test]
fn split_mix_draws_are_pinned() {
    // The first draws of the published generator from seed 0.
    let mut rng = SplitMix64(0);
    assert_eq!(rng.next(), 0xe220_a839_7b1d_cdaf);
    assert_eq!(rng.next(), 0x6e78_9e6a_a1b9_65f4);
    assert_eq!(rng.next(), 0x06c4_5d18_8009_454f);
}

#[test]
fn shuffling_keeps_the_records() {
    let mut values: Vec<u32> = (0..100).collect();
    shuffle_window(&mut values, 7, 3, 5);
    let mut again: Vec<u32> = (0..100).collect();
    shuffle_window(&mut again, 7, 3, 5);
    assert_eq!(values, again);
    let mut other: Vec<u32> = (0..100).collect();
    shuffle_window(&mut other, 7, 4, 5);
    assert_ne!(values, other);
    values.sort_unstable();
    assert_eq!(values, (0..100).collect::<Vec<u32>>());
    let mut none: Vec<u32> = Vec::new();
    shuffle_window(&mut none, 1, 2, 3);
    assert!(none.is_empty());
}

#[test]
fn window_shuffle_is_reproducible_and_epoch_specific() {
    let base = [0, 1, 2, 3, 4, 5];
    let files = dual_files(&base, &base, &[0; 6]);
    let read_two_epochs =
        || windowed_scores(&files, config(0, 6), 3, true, 1234, base.len() * 2);
    let first = read_two_epochs();
    let second = read_two_epochs();
    assert_eq!(first, second);
    for epoch in first.chunks_exact(base.len()) {
        let mut values = epoch.to_vec();
        values.sort_unstable();
        assert_eq!(values, base);
    }
    assert_ne!(&first[..base.len()], &first[base.len()..]);
    // A window never mixes records from either side of its physical boundary.
    for window in first.chunks_exact(3) {
        assert!(window.iter().all(|v| *v < 3) || window.iter().all(|v| *v >= 3));
    }
}

#[test]
fn windows_without_shuffle_keep_the_order_and_end_with_the_epoch() {
    let base = [0, 1, 2, 3, 4];
    let files = dual_files(&base, &base, &[0; 5]);
    let got = windowed_scores(&files, config(0, 5), 2, false, 0, 10);
    assert_eq!(got, [0, 1, 2, 3, 4, 0, 1, 2, 3, 4]);
}

#[test]
fn window_shuffle_applies_score_sidecar_before_reordering() {
    let base = [1, 2, 3, 4, 5];
    let replacement = [101, 102, 103, 104, 105];
    let files = override_files(&base, &replacement, None);
    let mut got = windowed_scores(&files, config(0, 5), 5, true, 9, 5);
    got.sort_unstable();
    assert_eq!(got, replacement);
}

#[test]
fn window_shuffle_applies_dual_label_before_reordering() {
    let base = [1, 2, 3, 4, 5];
    let dl = [101, 102, 103, 104, 105];
    let files = dual_files(&base, &dl, &[0; 5]);
    let mut c = config(0, 5);
    c.dual_label_psv = Some(DualLabelMode::All);
    let mut got = windowed_scores(&files, c, 5, true, 9, 5);
    got.sort_unstable();
    assert_eq!(got, dl);
}

#[test]
fn a_failed_window_reader_repeats_its_failure() {
    let mut reader = WindowedPsvReader::new();
    assert!(matches!(reader.next(), WindowStep::NeedWindow(None)));
    let first = reader
        .receive(WindowEvent::Error(LoadError {
            kind: ErrorKind::InvalidData,
            message: "broken".to_string(),
        }))
        .unwrap_err();
    assert_eq!(first.kind, ErrorKind::InvalidData);
    for _ in 0..2 {
        match reader.next() {
            WindowStep::Failed(e) => {
                assert_eq!(e.kind, ErrorKind::Other);
                assert_eq!(e.message, "broken");
            }
            _ => panic!("a failed reader must stay failed"),
        }
    }
    let mut reader = WindowedPsvReader::new();
    let e = reader.receive(WindowEvent::Stopped).unwrap_err();
    assert_eq!(e.message, "PSV window producer stopped");
}

#[test]
fn a_producer_has_two_buffers_and_reports_failures() {
    let mut producer = WindowProducer::new(2, false, 0);
    for _ in 0..2 {
        assert!(matches!(
            producer.advance(ProducerEvent::Continue),
            ProducerAction::Allocate(2)
        ));
    }
    assert!(matches!(
        producer.advance(ProducerEvent::Continue),
        ProducerAction::AwaitBuffer
    ));
    // An empty window keeps its buffer for the next epoch.
    assert!(matches!(
        producer.advance(ProducerEvent::EpochEnd),
        ProducerAction::ReadRecord
    ));
    match producer.advance(ProducerEvent::AllocationFailed("no memory".to_string())) {
        ProducerAction::Fail(e) => assert_eq!(
            e.message,
            "failed to allocate teacher shuffle window for 2 records: no memory"
        ),
        _ => panic!("a failed allocation must end the producer"),
    }
}

#[test]
fn dual_label_all_replaces_every_score_and_wraps() {
    let base = [1, 2, 3];
    let dl = [101, -202, 303];
    let files = dual_files(&base, &dl, &[1, 0, 1]);
    let mut c = config(0, 3);
    c.dual_label_psv = Some(DualLabelMode::All);
    assert_eq!(
        read_scores(&files, c, 6),
        [101, -202, 303, 101, -202, 303]
    );
}

#[test]
fn dual_label_gated_preserves_boundary_records() {
    let base: Vec<i16> = (0..17).map(|i| i as i16).collect();
    let dl: Vec<i16> = (0..17).map(|i| 1000 + i as i16).collect();
    let gates: Vec<u8> = (0..17)
        .map(|i| u8::from([0, 7, 8, 16].contains(&i)))
        .collect();
    let files = dual_files(&base, &dl, &gates);
    let mut c = config(0, 17);
    c.dual_label_psv = Some(DualLabelMode::Gated);
    let got = read_scores(&files, c, 17);
    for i in 0..17 {
        let expected = if [0, 7, 8, 16].contains(&i) {
            base[i]
        } else {
            dl[i]
        };
        assert_eq!(got[i], expected, "record {i}");
    }
}

#[test]
fn dual_label_rejects_reserved_padding_bits_with_index_and_path() {
    let files = dual_files(&[1, 2, 3], &[11, 12, 13], &[0, 2, 0]);
    let mut c = config(0, 3);
    c.dual_label_psv = Some(DualLabelMode::All);
    let mut reader = Driver::new(&files, c, 40);
    assert_eq!(reader.next().unwrap().score(), 11);
    let err = match reader.next() {
        Ok(_) => panic!("reserved padding bits must be rejected"),
        Err(err) => err,
    };
    assert_eq!(
        err,
        EpochError::Reserved(ReservedBits {
            record_index: 1,
            gate: 2
        })
    );
    assert_eq!(err.kind(), ErrorKind::InvalidData);
    let paths = OverridePaths {
        data: "dir/data.psv",
        scores: "",
        mask: "",
    };
    let message = err.message(&paths);
    assert!(message.contains("record 1"), "got: {message}");
    assert!(message.contains("dir/data.psv"), "got: {message}");
    assert_eq!(
        message,
        "dual-label PSV record 1 in dir/data.psv has non-zero reserved padding bits: 0x02"
    );
}

#[test]
fn dual_label_apply_leaves_a_refused_record() {
    let mut psv = PackedSfenValue::from_slice(&record(5, 6, 0xff));
    let e = DualLabelMode::All.apply(&mut psv, 9).unwrap_err();
    assert_eq!(e.gate, 0xff);
    assert_eq!(e.kind(), ErrorKind::InvalidData);
    assert_eq!(psv.score(), 5);
    assert_eq!(DualLabelMode::All.canonical_name(), "all");
    assert_eq!(DualLabelMode::Gated.canonical_name(), "gated");
}

#[test]
fn dual_label_range_uses_absolute_record_indices_and_wraps() {
    let base = [0, 1, 2, 3, 4];
    let dl = [100, 101, 102, 103, 104];
    let files = dual_files(&base, &dl, &[0; 5]);
    let mut c = config(2, 5);
    c.dual_label_psv = Some(DualLabelMode::All);
    assert_eq!(read_scores(&files, c, 4), [102, 103, 104, 102]);
}

#[test]
fn dual_label_selection_precedes_score_drop_and_clamp() {
    let files = dual_files(&[10, 20, 30], &[500, 50, -250], &[0; 3]);
    let mut c = config(0, 3);
    c.score_drop_abs = Some(400);
    c.score_clamp_abs = Some(100);
    c.dual_label_psv = Some(DualLabelMode::All);
    assert_eq!(read_scores(&files, c, 4), [50, -100, 50, -100]);
}

#[test]
fn score_override_replaces_all_scores_and_wraps() {
    let base = [1, 2, 3];
    let replacement = [101, -202, 303];
    let files = override_files(&base, &replacement, None);
    assert_eq!(
        read_scores(&files, config(0, 3), 6),
        [101, -202, 303, 101, -202, 303]
    );
}

#[test]
fn score_override_mask_preserves_lsb_first_boundary_records() {
    let base: Vec<i16> = (0..17).map(|i| i as i16).collect();
    let replacement: Vec<i16> = (0..17).map(|i| 1000 + i as i16).collect();
    // Preserve indices 0, 7, 8, and 16, covering both sides of byte boundaries
    // and the final partial bitmap byte. Unused bits remain zero.
    let mask = [0b1000_0001, 0b0000_0001, 0b0000_0001];
    let files = override_files(&base, &replacement, Some(&mask));
    let got = read_scores(&files, config(0, 17), 17);
    for i in 0..17 {
        let expected = if [0, 7, 8, 16].contains(&i) {
            base[i]
        } else {
            replacement[i]
        };
        assert_eq!(got[i], expected, "record {i}");
    }
}

#[test]
fn score_override_range_uses_full_file_record_indices() {
    let base = [0, 1, 2, 3, 4];
    let replacement = [100, 101, 102, 103, 104];
    let files = override_files(&base, &replacement, None);
    assert_eq!(read_scores(&files, config(2, 5), 4), [102, 103, 104, 102]);
}

#[test]
fn score_override_mask_range_wraps_from_non_byte_aligned_record() {
    let base: Vec<i16> = (0..12).map(|i| i as i16).collect();
    let replacement: Vec<i16> = (0..12).map(|i| 100 + i as i16).collect();
    let mask = [0b1000_1000, 0b0000_0101];
    let files = override_files(&base, &replacement, Some(&mask));
    let got = read_scores(&files, config(3, 11), 10);
    assert_eq!(got, [3, 104, 105, 106, 7, 8, 109, 10, 3, 104]);
}

#[test]
fn score_override_matches_materialized_psv_and_precedes_drop_clamp() {
    let base = [10, 20, 30];
    let replacement = [500, 50, -250];
    let files = override_files(&base, &replacement, None);
    let mut bytes = files.data.clone();
    for (record, score) in bytes
        .chunks_exact_mut(PSV_RECORD_BYTES as usize)
        .zip(replacement)
    {
        record[32..34].copy_from_slice(&score.to_le_bytes());
    }
    let materialized = Files {
        data: bytes,
        scores: None,
        mask: None,
    };
    let mut c = config(0, 3);
    c.score_drop_abs = Some(400);
    c.score_clamp_abs = Some(100);
    let override_scores = read_scores(&files, c, 4);
    let concrete_scores = read_scores(&materialized, c, 4);
    assert_eq!(override_scores, concrete_scores);
    assert_eq!(override_scores, [50, -100, 50, -100]);
}

#[test]
fn score_override_rejects_sidecar_and_mask_size_mismatches() {
    let data_size = 9 * PSV_RECORD_BYTES;
    let paths = OverridePaths {
        data: "d",
        scores: "s",
        mask: "m",
    };
    for delta in [-2_i64, 2] {
        let size = (18 + delta) as u64;
        let err = ScoreOverrideReader::new(data_size, size, None, 0).unwrap_err();
        assert!(err.message(&paths).contains("expected 18 bytes"));
        assert_eq!(err.kind(), ErrorKind::Other);
    }
    for delta in [-1_i64, 1] {
        let mask = MaskFile {
            size: (2 + delta) as u64,
            final_byte: 0,
        };
        let err = ScoreOverrideReader::new(data_size, 18, Some(mask), 0).unwrap_err();
        assert!(err.message(&paths).contains("expected 2 bytes"));
    }
}

#[test]
fn score_override_rejects_nonzero_unused_mask_bits() {
    let base = [1, 2, 3, 4, 5, 6, 7, 8, 9];
    let replacement = [0; 9];
    let mask = [0_u8, 0b0000_0010];
    let files = override_files(&base, &replacement, Some(&mask));
    let err = match open(&files, config(0, 9)) {
        Ok(_) => panic!("non-zero unused mask bits must be rejected"),
        Err(err) => err,
    };
    let paths = OverridePaths {
        data: "d",
        scores: "s",
        mask: "m",
    };
    assert!(
        err.message(&paths).contains("non-zero unused bits"),
        "got: {}",
        err.message(&paths)
    );
    assert_eq!(err, EpochError::Override(OverrideError::UnusedMaskBits));
}

#[test]
fn score_override_checks_come_in_order() {
    let paths = OverridePaths {
        data: "d",
        scores: "s",
        mask: "m",
    };
    let e = ScoreOverrideReader::new(41, 0, None, 1).unwrap_err();
    assert_eq!(e, OverrideError::DataSize { data_size: 41 });
    assert_eq!(
        e.message(&paths),
        "data file d size 41 is not a multiple of PSV record size (40 bytes)"
    );
    for start in [1, 120] {
        let e = ScoreOverrideReader::new(80, 0, None, start).unwrap_err();
        assert_eq!(e, OverrideError::StartOffset { start_offset: start });
    }
    assert_eq!(
        ScoreOverrideReader::new(80, 0, None, 1)
            .unwrap_err()
            .message(&paths),
        "score override start offset 1 is not an aligned offset in data file d"
    );
    assert_eq!(
        ScoreOverrideReader::new(80, 2, None, 0)
            .unwrap_err()
            .message(&paths),
        "score override file s size 2 does not match data file d: expected 4 bytes for 2 records"
    );
    assert!(ScoreOverrideReader::new(80, 4, None, 80).is_ok());
}

#[test]
fn an_override_conflicts_with_the_second_label() {
    let mut c = config(0, 1);
    c.dual_label_psv = Some(DualLabelMode::All);
    let e = PsvEpochReader::new_range(40, c, Some(2), None).unwrap_err();
    assert_eq!(e, EpochError::Conflict);
    let mask = MaskFile {
        size: 1,
        final_byte: 0,
    };
    let e = PsvEpochReader::new_range(40, c, None, Some(mask)).unwrap_err();
    let paths = OverridePaths {
        data: "",
        scores: "",
        mask: "",
    };
    assert_eq!(
        e.message(&paths),
        "dual_label_psv conflicts with score_override and score_override_mask"
    );
}

#[test]
fn scores_read_back_as_written() {
    for v in [0, 1, -1, 255, 256, -256, i16::MAX, i16::MIN] {
        let le = i16_le_bytes(v);
        assert_eq!(le, v.to_le_bytes());
        assert_eq!(read_i16_le(le[0], le[1]), v);
        let mut psv = PackedSfenValue::from_slice(&record(7, 8, 1));
        psv.set_score(v);
        assert_eq!(psv.score(), v);
        assert_eq!(psv.dl_score(), 8);
    }
    let mut bytes = record(0, 0, 0);
    bytes[38] = 0xff;
    assert_eq!(PackedSfenValue::from_slice(&bytes).game_result(), -1);
}

fn read_records(loader: &mut PsvFileLoader, data: &[u8], chunk: usize) -> Vec<PackedSfenValue> {
    let mut out = Vec::new();
    let mut pos = 0;
    while let Some(n) = loader.next_psv() {
        let n = n.min(chunk).min(data.len() - pos);
        match loader.supply(&data[pos..pos + n]).unwrap() {
            ReadStep::Record(psv) => out.push(psv),
            ReadStep::More => {}
            ReadStep::End => break,
        }
        pos += n;
    }
    out
}

fn numbered(n: usize) -> Vec<u8> {
    let mut data = Vec::new();
    for i in 0..n {
        let mut r = [0_u8; 40];
        r[0] = i as u8;
        r[32..34].copy_from_slice(&(i as i16 * 100).to_le_bytes());
        r[38] = [1_u8, 0xff, 0][i % 3];
        data.extend_from_slice(&r);
    }
    data
}

/// A file of 100 records with small scores other than zero: 50 wins, 50 losses, no draw.
fn sample() -> Vec<u8> {
    let mut data = Vec::new();
    for i in 0..100_i16 {
        let mut r = [0_u8; 40];
        r[0] = i as u8;
        r[32..34].copy_from_slice(&(i * 41 - 2000).to_le_bytes());
        r[38] = [1_u8, 0xff][i as usize % 2];
        data.extend_from_slice(&r);
    }
    data
}

fn sample_files() -> Files {
    Files {
        data: sample(),
        scores: None,
        mask: None,
    }
}

/// The records of a range, read as from a file that was opened at its start.
fn range_records(data: &[u8], start: u64, end: u64) -> Vec<PackedSfenValue> {
    let mut loader = PsvFileLoader::new_range(data.len() as u64, start, end).unwrap();
    let records = read_records(&mut loader, &data[start as usize..], 40);
    assert_eq!(loader.next_psv(), None);
    records
}

#[test]
fn psv_file_loader_streams_until_eof() {
    let data = numbered(100);
    for chunk in [40, 13, 1] {
        let mut loader = PsvFileLoader::new(data.len() as u64).unwrap();
        let records = read_records(&mut loader, &data, chunk);
        assert_eq!(records.len(), 100);
        for (i, psv) in records.iter().enumerate() {
            assert_eq!(psv.bytes[..], data[i * 40..i * 40 + 40]);
        }
        assert_eq!(loader.next_psv(), None);
    }
}

#[test]
fn psv_file_loader_reads_first_record() {
    let data = numbered(100);
    let mut loader = PsvFileLoader::new(data.len() as u64).unwrap();
    assert_eq!(loader.next_psv(), Some(40));
    assert!(matches!(
        loader.supply(&data[..40]),
        Ok(ReadStep::Record(_))
    ));
}

#[test]
fn psv_file_loader_new_range_reads_only_specified_range() {
    let data = sample();
    assert_eq!(data.len(), 4000);
    let one = range_records(&data, 40, 80);
    assert_eq!(one.len(), 1);
    assert_eq!(one[0].bytes[..], data[40..80]);
    assert_eq!(range_records(&data, 0, 4000).len(), 100);
    let mut empty = PsvFileLoader::new_range(4000, 4000, 4000).unwrap();
    assert_eq!(empty.next_psv(), None);
    assert_eq!(range_records(&data, 0, 30 * 40).len(), 30);
}

#[test]
fn psv_file_loader_new_range_skips_records_before_start() {
    let data = sample();
    let tail_records = range_records(&data, 2800, 4000);
    assert_eq!(tail_records.len(), 30);
    let mut full = PsvFileLoader::new(4000).unwrap();
    let all_records = read_records(&mut full, &data, 40);
    assert_eq!(all_records.len(), 100);
    for i in 0..30 {
        assert_eq!(
            tail_records[i].bytes,
            all_records[70 + i].bytes,
            "tail[{i}] should equal full[{}]",
            70 + i
        );
    }
}

#[test]
fn psv_file_loader_new_range_rejects_out_of_bounds_end() {
    let err = PsvFileLoader::new_range(4000, 0, 4040).unwrap_err();
    assert!(err.message("p").contains("> file size"));
    assert_eq!(err.kind(), ErrorKind::Other);
}

#[test]
fn psv_file_loader_new_range_rejects_misaligned() {
    let err = PsvFileLoader::new_range(4000, 1, 80).unwrap_err();
    assert!(err.message("p").contains("aligned"));
    assert_eq!(err, RangeError::Misaligned { start: 1, end: 80 });
    assert!(PsvFileLoader::new(4001).is_err());
}

#[test]
fn psv_file_loader_new_range_rejects_inverted() {
    let err = PsvFileLoader::new_range(4000, 80, 40).unwrap_err();
    assert!(err.message("p").contains("start"));
    assert!(err.message("p").contains("> end"));
    assert!(PsvFileLoader::new_range(4000, 80, 80).is_ok());
}

#[test]
fn a_partial_record_is_an_error() {
    let mut loader = PsvFileLoader::new(80).unwrap();
    assert_eq!(loader.next_psv(), Some(40));
    assert!(matches!(loader.supply(&[1, 2, 3]), Ok(ReadStep::More)));
    assert_eq!(loader.next_psv(), Some(37));
    let e = loader.supply(&[]).unwrap_err();
    assert_eq!(e, PartialRecord { got: 3 });
    assert_eq!(e.kind(), ErrorKind::UnexpectedEof);
    assert_eq!(e.message(), "partial PSV record: got 3 of 40 bytes");
    assert!(matches!(loader.supply(&[]), Ok(ReadStep::End)));
    assert_eq!(loader.next_psv(), None);
}

#[test]
fn hcpe_files_hold_whole_records() {
    let e = HcpeFileLoader::new(39).unwrap_err();
    assert_eq!(e, HcpeSizeError { file_size: 39 });
    assert_eq!(e.kind(), ErrorKind::InvalidData);
    assert_eq!(
        e.message("x.hcpe"),
        "HCPE file size 39 is not a multiple of 38 bytes for x.hcpe"
    );
    let mut loader = HcpeFileLoader::new(76).unwrap();
    assert_eq!(loader.next_board(), Some(38));
    loader.advance();
    loader.advance();
    assert_eq!(loader.next_board(), None);
}

fn spec() -> FeatureSetSpec {
    FeatureSetSpec {
        name: "halfka-hm-merged",
        max_active: 40,
    }
}

fn position(active: usize, score: i16, result: i8, bucket: u8) -> Position {
    Position {
        stm: (0..active as i32).collect(),
        nstm: (0..active as i32).map(|i| 1000 + i).collect(),
        score,
        result,
        bucket,
    }
}

/// Input features of the feature set.
const FT_IN: i32 = 73_305;

/// What the decoder gives for a record: a few features, and the bucket of weights that are zero.
fn decoded(psv: &PackedSfenValue) -> Position {
    let mut p = position(
        10 + psv.bytes[0] as usize % 30,
        psv.score(),
        psv.game_result(),
        4,
    );
    p.stm[0] = 7000 + i32::from(psv.bytes[0]);
    p
}

#[test]
fn batch_with_capacity_initializes_padding_and_defaults() {
    let batch = Batch::with_capacity(4, spec());
    assert_eq!(batch.batch_size, 4);
    assert_eq!(batch.len(), 0);
    assert!(batch.is_empty());
    assert_eq!(batch.stm_indices.len(), 4 * 40);
    assert_eq!(batch.nstm_indices.len(), 4 * 40);
    assert!(batch.stm_indices.iter().all(|&i| i == -1));
    assert!(batch.nstm_indices.iter().all(|&i| i == -1));
    assert!(batch.score.iter().all(|&s| s == 0));
    assert!(batch.wdl.iter().all(|&w| w == Wdl::Loss));
}

#[test]
fn batch_push_maps_draw_result_to_wdl_half() {
    let data = sample();
    let mut psv = PackedSfenValue::from_slice(&data[..40]);
    for (byte, wdl) in [(0, Wdl::Draw), (1, Wdl::Win), (0xff, Wdl::Loss)] {
        psv.bytes[38] = byte;
        assert_eq!(psv.game_result(), byte as i8);
        let mut batch = Batch::with_capacity(1, spec());
        assert!(batch.push_decoded(&decoded(&psv)).unwrap());
        assert_eq!(batch.wdl[0], wdl);
    }
}

#[test]
fn batch_push_returns_false_when_full() {
    let data = sample();
    let mut batch = Batch::with_capacity(2, spec());
    let mut loader = PsvFileLoader::new(4000).unwrap();
    let psv = read_records(&mut loader, &data, 40);
    assert!(batch.push_decoded(&decoded(&psv[0])).unwrap());
    assert!(batch.push_decoded(&decoded(&psv[1])).unwrap());
    assert!(!batch.push_decoded(&decoded(&psv[2])).unwrap());
    assert_eq!(batch.n_positions, 2);
    assert_eq!(batch.len(), 2);
}

#[test]
fn push_decoded_counting_aggregates_active_counts() {
    let psv = range_records(&sample(), 0, 4000);
    let mut batch = Batch::with_capacity(8, spec());
    let mut hist = Some(vec![0_u64; 41]);
    let mut pushed = 0;
    for p in &psv[..8] {
        let bi = batch.n_positions;
        assert!(batch.push_decoded_counting(&decoded(p), &mut hist).unwrap());
        let row = &batch.stm_indices[bi * 40..(bi + 1) * 40];
        let written = row.iter().take_while(|&&idx| idx >= 0).count();
        assert_eq!(batch.nnz[bi], written as i32);
        pushed += 1;
    }
    assert_eq!(hist.as_ref().unwrap().iter().sum::<u64>(), pushed);
    let max_bin = hist
        .as_ref()
        .unwrap()
        .iter()
        .rposition(|&c| c > 0)
        .expect("some active");
    assert!(max_bin <= 40);
    // A push that finds the batch full counts nothing.
    let before = hist.clone();
    assert!(!batch.push_decoded_counting(&decoded(&psv[8]), &mut hist).unwrap());
    assert_eq!(hist.as_ref().unwrap().iter().sum::<u64>(), pushed);
    assert_eq!(hist, before);
}

#[test]
fn too_many_active_features_are_refused() {
    let mut batch = Batch::with_capacity(8, spec());
    let mut hist = Some(vec![0_u64; 41]);
    for active in [3, 5, 3, 40] {
        assert!(batch
            .push_decoded_counting(&position(active, 0, 0, 0), &mut hist)
            .unwrap());
    }
    let e = batch
        .push_decoded_counting(&position(41, 0, 0, 0), &mut hist)
        .unwrap_err();
    assert_eq!(e.kind(), ErrorKind::InvalidData);
    assert_eq!(
        e.message(),
        "active feature count 41 exceeds max_active 40 (feature set halfka-hm-merged); \
         raise THREAT_MAX_ACTIVE and rebuild \u{2014} silent truncation is not allowed"
    );
    let hist = hist.unwrap();
    assert_eq!((hist[3], hist[5], hist[40]), (2, 1, 1));
    assert_eq!(hist.iter().sum::<u64>(), 4);
    assert_eq!(batch.len(), 4);
    let mut none = None;
    batch
        .push_decoded_counting(&position(3, 0, 0, 0), &mut none)
        .unwrap();
    assert!(none.is_none());
}

#[test]
fn reset_is_o1_and_refill_ignores_stale_residue() {
    let data = sample();
    let max_active = 40;
    let cap = 150;
    let mut batch = Batch::with_capacity(cap, spec());
    let mut loader = PsvFileLoader::new(4000).unwrap();
    fill(&mut loader, &mut batch, &data, &mut 0);
    let n_pos = batch.n_positions;
    assert_eq!(n_pos, 100);
    let valid_snapshot: Vec<Vec<i32>> = (0..n_pos)
        .map(|bi| {
            let base = bi * max_active;
            batch.stm_indices[base..base + batch.nnz[bi] as usize].to_vec()
        })
        .collect();
    // Leftovers behind the features of a row, and in the rows behind the last.
    for bi in 0..n_pos {
        for ni in batch.nnz[bi] as usize..max_active {
            batch.stm_indices[bi * max_active + ni] = 7;
            batch.nstm_indices[bi * max_active + ni] = 7;
        }
    }
    for j in n_pos * max_active..cap * max_active {
        batch.stm_indices[j] = 7;
    }
    batch.score[cap - 1] = 12_345;

    batch.reset();
    assert_eq!(batch.n_positions, 0);
    assert_eq!(
        batch.stm_indices[n_pos * max_active],
        7,
        "reset must not clear the index buffer"
    );
    assert_eq!(
        batch.score[cap - 1],
        12_345,
        "reset must not clear the score buffer"
    );

    let mut loader = PsvFileLoader::new(4000).unwrap();
    fill(&mut loader, &mut batch, &data, &mut 0);
    assert_eq!(batch.n_positions, n_pos);
    for (bi, expected) in valid_snapshot.iter().enumerate() {
        let base = bi * max_active;
        let n = batch.nnz[bi] as usize;
        assert_eq!(
            &batch.stm_indices[base..base + n],
            expected.as_slice(),
            "the features of position {bi} are those of the new record"
        );
        assert!(batch.stm_indices[base..base + n].iter().all(|&i| i >= 0));
    }
}

/// Fills a batch from data held in memory, as the records' scores.
fn fill(loader: &mut PsvFileLoader, batch: &mut Batch, data: &[u8], pos: &mut usize) -> usize {
    let mut step = loader.fill_batch(batch, FillEvent::Begin).unwrap();
    loop {
        step = match step {
            FillStep::Read(n) => {
                let n = n.min(11).min(data.len() - *pos);
                let bytes = &data[*pos..*pos + n];
                *pos += n;
                loader.fill_batch(batch, FillEvent::Bytes(bytes)).unwrap()
            }
            FillStep::Decode(psv) => {
                let p = decoded(&psv);
                loader.fill_batch(batch, FillEvent::Decoded(&p)).unwrap()
            }
            FillStep::Done(n) => return n,
        };
    }
}

#[test]
fn fill_batch_consumes_stream_partial_at_eof() {
    let data = sample();
    let mut loader = PsvFileLoader::new(4000).unwrap();
    let mut batch = Batch::with_capacity(150, spec());
    let n = fill(&mut loader, &mut batch, &data, &mut 0);
    assert_eq!(n, 100);
    assert_eq!(batch.n_positions, 100);
    // The rows behind stay as they were made.
    for j in 100 * 40..150 * 40 {
        assert_eq!(batch.stm_indices[j], -1);
    }
    for j in 100..150 {
        assert_eq!(batch.score[j], 0);
        assert_eq!(batch.wdl[j], Wdl::Loss);
    }
}

#[test]
fn batches_are_filled_one_behind_the_other() {
    let data = numbered(10);
    let mut loader = PsvFileLoader::new(400).unwrap();
    let mut batch = Batch::with_capacity(4, spec());
    let mut pos = 0;
    let mut scores = Vec::new();
    let mut sizes = Vec::new();
    loop {
        let n = fill(&mut loader, &mut batch, &data, &mut pos);
        if n == 0 {
            break;
        }
        sizes.push(n);
        scores.extend_from_slice(&batch.score[..n]);
    }
    assert_eq!(sizes, [4, 4, 2]);
    assert_eq!(scores, (0..10).map(|i| i * 100).collect::<Vec<i16>>());
}

#[test]
fn fill_batch_indices_within_halfka_dim_or_padding() {
    let mut loader = PsvFileLoader::new(4000).unwrap();
    let mut batch = Batch::with_capacity(8, spec());
    let n = fill(&mut loader, &mut batch, &sample(), &mut 0);
    assert_eq!(n, 8);
    assert_eq!(batch.n_positions, 8);
    for indices in [&batch.stm_indices, &batch.nstm_indices] {
        for (i, &idx) in indices.iter().enumerate() {
            assert!(idx == -1 || (0..FT_IN).contains(&idx), "index {i} is {idx}");
        }
    }
    let total_active = batch.stm_indices.iter().filter(|&&i| i >= 0).count();
    assert!(total_active > 0);
}

#[test]
fn fill_batch_wdl_is_in_valid_range() {
    let mut loader = PsvFileLoader::new(4000).unwrap();
    let mut batch = Batch::with_capacity(4, spec());
    fill(&mut loader, &mut batch, &sample(), &mut 0);
    for &w in &batch.wdl {
        assert!(w == Wdl::Loss || w == Wdl::Draw || w == Wdl::Win);
    }
}

#[test]
fn fill_batch_wdl_covers_loss_and_win_with_correct_values() {
    let mut loader = PsvFileLoader::new(4000).unwrap();
    let mut batch = Batch::with_capacity(100, spec());
    fill(&mut loader, &mut batch, &sample(), &mut 0);
    let win_count = batch.wdl.iter().filter(|&&w| w == Wdl::Win).count();
    let loss_count = batch.wdl.iter().filter(|&&w| w == Wdl::Loss).count();
    assert!(win_count > 0);
    assert!(loss_count > 0);
    assert_eq!(win_count + loss_count, 100);
    assert_eq!((win_count, loss_count), (50, 50));
}

#[test]
fn fill_batch_reports_its_errors() {
    let mut loader = PsvFileLoader::new(80).unwrap();
    let mut batch = Batch::with_capacity(2, spec());
    loader.fill_batch(&mut batch, FillEvent::Begin).unwrap();
    loader.fill_batch(&mut batch, FillEvent::Bytes(&[1])).unwrap();
    let e = loader
        .fill_batch(&mut batch, FillEvent::Bytes(&[]))
        .unwrap_err();
    assert!(matches!(e, FillError::Partial(PartialRecord { got: 1 })));
    let e = loader
        .fill_batch(&mut batch, FillEvent::Decoded(&position(41, 0, 0, 0)))
        .unwrap_err();
    assert!(matches!(e, FillError::Overflow(_)));
}

#[test]
fn bucket_modes_have_names() {
    assert_eq!(BucketMode::default(), BucketMode::Progress8KpAbs);
    assert_eq!(BucketMode::from(ShogiProgressKPAbs), BucketMode::Progress8KpAbs);
    assert_eq!(BucketMode::Progress8KpAbs.canonical_name(), "progress8kpabs");
    assert_eq!(BucketMode::KingRank9.canonical_name(), "kingrank9");
}

fn loader_args(end: u64) -> LoaderArgs {
    LoaderArgs {
        batch_size: 2,
        score_drop_abs: None,
        score_clamp_abs: None,
        num_workers: 3,
        bucket_mode: BucketMode::KingRank9,
        feature_set: spec(),
        compute_bucket: true,
        num_buckets: 9,
        train_end_offset: end,
        monitor_active: true,
        score_override: None,
        score_override_mask: None,
        teacher_shuffle_buffer_mib: 0,
        teacher_shuffle: false,
        teacher_shuffle_seed: 0,
        dual_label_psv: None,
    }
}

#[test]
fn prefetch_depth_follows_the_workers() {
    assert_eq!(prefetch_depth_for(0), 2);
    assert_eq!(prefetch_depth_for(1), 2);
    assert_eq!(prefetch_depth_for(5), 10);
    let (loader, reader) =
        BucketedPrefetchedLoader::spawn_with_score_sources(4000, &loader_args(4000)).unwrap();
    assert_eq!(loader.num_workers(), 3);
    assert_eq!(loader.prefetch_depth(), 6);
    assert_eq!(loader.n_slots(), 10);
    assert!(!reader.has_producer());
    assert!(matches!(reader, TrainingPsvReader::Direct(_)));
}

#[test]
fn bucketed_loader_zero_workers_normalizes_to_one() {
    let mut args = sample_args(8);
    args.num_workers = 0;
    let (loader, got) = run_workers(&args, &sample_files(), config(0, 100), 1).unwrap();
    assert_eq!(loader.num_workers(), 1);
    assert_eq!(loader.n_slots(), 4);
    assert_eq!(got[0].0.n_positions, 8);
    assert_eq!(got[0].1.len(), 8);
}

#[test]
fn starting_a_loader_reports_its_errors() {
    let mut args = loader_args(4040);
    let e = BucketedPrefetchedLoader::spawn_with_score_sources(4000, &args).unwrap_err();
    assert_eq!(
        e,
        SpawnError::Epoch(EpochError::Range(RangeError::PastEnd {
            end: 4040,
            file_size: 4000
        }))
    );
    args.train_end_offset = 4000;
    args.teacher_shuffle_buffer_mib = 1;
    args.batch_size = 65_536;
    let e = BucketedPrefetchedLoader::spawn_with_score_override(4000, &args).unwrap_err();
    assert!(matches!(
        e,
        SpawnError::Window(ShuffleWindowError::SmallerThanBatch { .. })
    ));
    args.batch_size = 2;
    let (_, reader) = BucketedPrefetchedLoader::spawn_with_score_override(4000, &args).unwrap();
    assert!(reader.has_producer());
    // The plain loader has no windows, whatever the arguments say.
    let (_, reader) = BucketedPrefetchedLoader::spawn(4000, &args).unwrap();
    assert!(!reader.has_producer());
}

/// The message of a step that failed.
fn failure(step: BatchStep) -> String {
    match step {
        BatchStep::Failed(e) => e.message,
        _ => panic!("the error of a worker must reach the caller"),
    }
}

#[test]
fn the_first_worker_error_is_reported_once() {
    let (mut loader, _) = BucketedPrefetchedLoader::spawn(4000, &loader_args(4000)).unwrap();
    assert!(matches!(loader.next_batch(), BatchStep::Wait));
    for text in ["first", "second"] {
        loader.record_error(LoadError {
            kind: ErrorKind::Other,
            message: text.to_string(),
        });
    }
    // The error comes before any wait, though the other workers go on.
    assert_eq!(failure(loader.next_batch()), "first");
    assert!(matches!(loader.next_batch(), BatchStep::Wait));
    let slot = (Batch::with_capacity(2, spec()), vec![4]);
    match loader.receive(Some(slot)) {
        BatchStep::Batch((_, buckets)) => assert_eq!(buckets, [4]),
        _ => panic!("a batch that was received is handed out"),
    }
    assert!(matches!(loader.receive(None), BatchStep::Ended));
}

#[test]
fn an_error_of_the_last_worker_ends_the_wait() {
    let (mut loader, _) = BucketedPrefetchedLoader::spawn(4000, &loader_args(4000)).unwrap();
    assert!(matches!(loader.next_batch(), BatchStep::Wait));
    loader.record_error(LoadError {
        kind: ErrorKind::UnexpectedEof,
        message: "short".to_string(),
    });
    // A batch that was finished before is still handed out; the error follows.
    let slot = (Batch::with_capacity(2, spec()), vec![1]);
    assert!(matches!(loader.receive(Some(slot)), BatchStep::Batch(_)));
    assert_eq!(failure(loader.receive(None)), "short");
    assert!(matches!(loader.receive(None), BatchStep::Ended));
}

#[test]
fn a_second_label_excludes_a_sidecar_before_any_file_is_looked_at() {
    assert_eq!(check_sources(true, true, false), Err(EpochError::Conflict));
    assert_eq!(check_sources(true, false, true), Err(EpochError::Conflict));
    assert_eq!(check_sources(true, false, false), Ok(()));
    assert_eq!(check_sources(false, true, true), Ok(()));
    // The conflict comes before the range.
    let mut c = config(0, 10);
    c.dual_label_psv = Some(DualLabelMode::All);
    let e = PsvEpochReader::new_range(0, c, Some(0), None).unwrap_err();
    assert_eq!(e, EpochError::Conflict);
}

#[test]
fn one_worker_gives_the_records_in_the_order_of_the_file() {
    // 100 records in batches of 16: the seventh batch goes on with the next pass.
    let (_, got) = run_workers(&sample_args(16), &sample_files(), config(0, 100), 13).unwrap();
    let records = range_records(&sample(), 0, 4000);
    let want: Vec<Position> = (0..13 * 16).map(|k| decoded(&records[k % 100])).collect();
    for (k, p) in want.iter().enumerate() {
        let (batch, buckets) = &got[k / 16];
        let row = k % 16;
        assert_eq!(batch.score[row], p.score);
        assert_eq!(batch.stm_indices[row * 40], p.stm[0]);
        assert_eq!(buckets[row], i32::from(p.bucket));
    }
}

/// Lets the workers of a loader take turns on one reader until the loader has given `batches`
/// batches, or ends with the error of a worker.
fn run_workers(
    args: &LoaderArgs,
    files: &Files,
    c: EpochConfig,
    batches: usize,
) -> Result<(BucketedPrefetchedLoader, Vec<(Batch, Vec<i32>)>), LoadError> {
    let paths = OverridePaths {
        data: "data.psv",
        scores: "scores.i16",
        mask: "mask.bits",
    };
    let (mut loader, _) =
        BucketedPrefetchedLoader::spawn_with_score_sources(files.data.len() as u64, args).unwrap();
    let mut source = Driver::new(files, c, 40);
    let mut workers: Vec<(PrefetchWorker, WorkerEvent)> = (0..loader.num_workers())
        .map(|_| (PrefetchWorker::new(args), WorkerEvent::Continue))
        .collect();
    let mut out = Vec::new();
    let mut turn = 0;
    while out.len() < batches {
        let n = workers.len();
        let (worker, event) = &mut workers[turn % n];
        turn += 1;
        let now = std::mem::replace(event, WorkerEvent::Closed);
        *event = match worker.advance(now) {
            WorkerAction::BorrowSlot => WorkerEvent::Slot((
                Batch::with_capacity(args.batch_size, args.feature_set),
                vec![77],
            )),
            WorkerAction::ReadRecord => match source.next() {
                Ok(psv) => WorkerEvent::Record(psv),
                Err(e) => WorkerEvent::ReadFailed(LoadError {
                    kind: e.kind(),
                    message: e.message(&paths),
                }),
            },
            WorkerAction::Decode(records) => {
                WorkerEvent::Decoded(records.iter().map(decoded).collect())
            }
            WorkerAction::Deliver(slot) => {
                worker.flush_into(&mut loader);
                assert!(matches!(loader.next_batch(), BatchStep::Wait));
                match loader.receive(Some(slot)) {
                    BatchStep::Batch(slot) => out.push(slot),
                    _ => panic!("a batch that was received is handed out"),
                }
                WorkerEvent::Continue
            }
            WorkerAction::Exit(failed) => {
                loader.record_error(failed.expect("the worker must not end without an error"));
                match loader.next_batch() {
                    BatchStep::Failed(e) => return Err(e),
                    _ => panic!("the error of a worker must reach the caller"),
                }
            }
        };
    }
    Ok((loader, out))
}

fn sample_args(batch_size: usize) -> LoaderArgs {
    let mut args = loader_args(4000);
    args.batch_size = batch_size;
    args.num_workers = 1;
    args.monitor_active = false;
    args
}

fn run_bucketed_smoke(num_workers: usize) {
    let mut args = sample_args(16);
    args.num_workers = num_workers;
    let (_, got) = run_workers(&args, &sample_files(), config(0, 100), 30).unwrap();
    assert_eq!(got.len(), 30);
    for (batch, buckets) in &got {
        assert_eq!(batch.n_positions, 16);
        assert_eq!(buckets.len(), 16);
        assert!(buckets.iter().all(|&b| b == 4));
        for &w in &batch.wdl[..16] {
            assert!(w == Wdl::Loss || w == Wdl::Win);
        }
        for &idx in &batch.stm_indices[..16 * 40] {
            assert!(idx == -1 || (0..FT_IN).contains(&idx));
        }
        assert!(batch.stm_indices.iter().any(|&i| i >= 0));
    }
}

#[test]
fn bucketed_loader_single_worker() {
    run_bucketed_smoke(1);
}

#[test]
fn bucketed_loader_multi_worker() {
    run_bucketed_smoke(4);
}

#[test]
fn a_single_worker_gives_the_records_in_order() {
    let files = Files {
        data: numbered(5),
        scores: None,
        mask: None,
    };
    let mut args = loader_args(200);
    args.num_workers = 1;
    let (_, got) = run_workers(&args, &files, config(0, 5), 3).unwrap();
    let scores: Vec<i16> = got.iter().flat_map(|(b, _)| b.score.clone()).collect();
    assert_eq!(scores, [0, 100, 200, 300, 400, 0]);
}

#[test]
fn bucketed_multi_worker_surfaces_dual_label_reserved_bit_errors() {
    let mut files = sample_files();
    for (index, record) in files.data.chunks_exact_mut(40).enumerate() {
        let dl = 1000 + index as i16;
        record[34..36].copy_from_slice(&dl.to_le_bytes());
        record[39] = 0;
    }
    files.data[31 * 40 + 39] = 2;
    let mut args = sample_args(8);
    args.num_workers = 4;
    args.compute_bucket = false;
    args.num_buckets = 1;
    args.dual_label_psv = Some(DualLabelMode::All);
    let mut c = config(0, 100);
    c.dual_label_psv = Some(DualLabelMode::All);
    let err = run_workers(&args, &files, c, 64).unwrap_err();
    assert!(err.message.contains("record 31"), "got: {}", err.message);
}

#[test]
fn bucketed_loader_active_histogram_gated_by_flag() {
    let files = sample_files();
    let mut args = sample_args(8);
    let (off, _) = run_workers(&args, &files, config(0, 100), 1).unwrap();
    assert!(off.active_histogram_snapshot().is_none());
    args.monitor_active = true;
    let (on, got) = run_workers(&args, &files, config(0, 100), 5).unwrap();
    let consumed: u64 = got.iter().map(|(b, _)| b.n_positions as u64).sum();
    let hist = on.active_histogram_snapshot().expect("histogram present");
    assert_eq!(hist.len(), 41);
    let total: u64 = hist.iter().sum();
    assert!(total >= consumed);
    assert!(total > 0);
    for active in 0..41 {
        let n = got
            .iter()
            .flat_map(|(b, _)| b.nnz.clone())
            .filter(|&k| k == active)
            .count();
        assert_eq!(hist[active as usize], n as u64);
    }
}

#[test]
fn buckets_come_where_they_are_asked_for() {
    for asked in [true, false] {
        let mut args = sample_args(8);
        args.compute_bucket = asked;
        let (_, got) = run_workers(&args, &sample_files(), config(0, 100), 2).unwrap();
        assert_eq!(got[1].1.len(), if asked { 8 } else { 0 });
    }
}

#[test]
fn bucketed_loader_score_drop_skips_high_scores() {
    let files = sample_files();
    let mut args = sample_args(8);
    args.num_workers = 2;
    args.score_drop_abs = Some(32_000);
    let mut c = config(0, 100);
    c.score_drop_abs = Some(32_000);
    let (_, got) = run_workers(&args, &files, c, 1).unwrap();
    assert_eq!(got[0].0.n_positions, 8);
    // No score is left: the workers end with an error and do not read on for ever.
    let mut args = sample_args(100);
    args.score_drop_abs = Some(1);
    c.score_drop_abs = Some(1);
    let e = run_workers(&args, &files, c, 1).unwrap_err();
    assert!(e.message.contains("no usable positions"), "{}", e.message);
}

#[test]
fn delivered_scores_keep_below_the_drop_limit_and_within_the_clamp() {
    let mut c = config(0, 100);
    c.score_drop_abs = Some(1500);
    c.score_clamp_abs = Some(600);
    let (_, got) = run_workers(&sample_args(8), &sample_files(), c, 20).unwrap();
    let scores: Vec<i16> = got.iter().flat_map(|(b, _)| b.score.clone()).collect();
    assert_eq!(scores.len(), 160);
    assert!(scores.iter().all(|s| s.abs() <= 600));
    assert!(scores.contains(&600) && scores.contains(&-600));
    c.score_clamp_abs = Some(1600);
    let (_, got) = run_workers(&sample_args(8), &sample_files(), c, 20).unwrap();
    assert!(got
        .iter()
        .flat_map(|(b, _)| b.score.clone())
        .all(|s| s.abs() < 1500));
}

#[test]
fn bucketed_loader_with_train_end_offset_caps_training_range() {
    let mut args = sample_args(8);
    args.train_end_offset = 2800;
    let (_, got) = run_workers(&args, &sample_files(), config(0, 70), 30).unwrap();
    assert_eq!(got.len(), 30);
    for (batch, buckets) in &got {
        assert_eq!(batch.n_positions, 8);
        assert_eq!(buckets.len(), 8);
    }
    // Only the first 70 records come, over and over.
    let scores: Vec<i16> = got.iter().flat_map(|(b, _)| b.score.clone()).collect();
    for (k, score) in scores.iter().enumerate() {
        assert_eq!(*score, (k % 70) as i16 * 41 - 2000);
    }
}

#[test]
fn a_worker_ends_on_errors() {
    let args = loader_args(80);
    let slot = || (Batch::with_capacity(2, spec()), Vec::new());
    let mut worker = PrefetchWorker::new(&args);
    worker.advance(WorkerEvent::Slot(slot()));
    match worker.advance(WorkerEvent::ReadFailed(LoadError {
        kind: ErrorKind::Other,
        message: "gone".to_string(),
    })) {
        WorkerAction::Exit(Some(e)) => assert_eq!(e.message, "gone"),
        _ => panic!("a failed read must end the worker"),
    }
    assert!(matches!(
        worker.advance(WorkerEvent::Closed),
        WorkerAction::Exit(None)
    ));
    let mut worker = PrefetchWorker::new(&args);
    worker.advance(WorkerEvent::Slot(slot()));
    let psv = PackedSfenValue::from_slice(&record(1, 0, 0));
    worker.advance(WorkerEvent::Record(psv));
    assert!(matches!(
        worker.advance(WorkerEvent::Record(psv)),
        WorkerAction::Decode(_)
    ));
    match worker.advance(WorkerEvent::Decoded(vec![
        position(1, 0, 0, 0),
        position(41, 0, 0, 0),
    ])) {
        WorkerAction::Exit(Some(e)) => {
            assert_eq!(e.kind, ErrorKind::InvalidData);
            assert!(e.message.contains("active feature count 41"));
        }
        _ => panic!("too many features must end the worker"),
    }
}

#[test]
fn assembling_replaces_what_a_batch_held() {
    let mut slot = (Batch::with_capacity(3, spec()), vec![9, 9]);
    slot.0.push_decoded(&position(40, 1, 1, 0)).unwrap();
    let positions = vec![position(1, 5, 0, 3), position(2, 6, -1, 4)];
    let mut hist = None;
    assemble_batch(&mut slot, &positions, true, &mut hist).unwrap();
    assert_eq!(slot.0.len(), 2);
    assert_eq!(slot.0.score[..2], [5, 6]);
    assert_eq!(slot.0.nnz[..2], [1, 2]);
    assert_eq!(slot.1, [3, 4]);
}

#[test]
fn bucketed_stream_gated_dual_label_is_bit_identical_to_masked_sidecar() {
    assert_inline_matches_sidecar(DualLabelMode::Gated, &[0, 7, 8, 16, 63, 64, 99]);
}

#[test]
fn bucketed_stream_all_dual_label_is_bit_identical_to_unmasked_sidecar() {
    assert_inline_matches_sidecar(DualLabelMode::All, &[]);
}

fn assert_inline_matches_sidecar(mode: DualLabelMode, preserve: &[usize]) {
    let base = sample();
    let records = base.len() / 40;
    let mut dual = base.clone();
    let mut scores = Vec::new();
    let mut mask = vec![0_u8; (records + 7) / 8];
    for (index, record) in dual.chunks_exact_mut(40).enumerate() {
        let score = (index as i16).wrapping_mul(37).wrapping_sub(1400);
        scores.extend_from_slice(&score.to_le_bytes());
        record[34..36].copy_from_slice(&score.to_le_bytes());
        let is_preserved = preserve.contains(&index);
        record[39] = u8::from(is_preserved);
        if is_preserved {
            mask[index / 8] |= 1 << (index % 8);
        }
    }
    let gated = mode == DualLabelMode::Gated;
    let side = Files {
        data: base,
        scores: Some(scores),
        mask: if gated { Some(mask) } else { None },
    };
    let inline = Files {
        data: dual,
        scores: None,
        mask: None,
    };
    let mut args = sample_args(16);
    args.compute_bucket = false;
    args.num_buckets = 1;
    let mut side_args = args;
    side_args.score_override = side.scores.as_ref().map(|s| s.len() as u64);
    side_args.score_override_mask = mask_file(&side);
    let mut inline_args = args;
    inline_args.dual_label_psv = Some(mode);
    let mut inline_config = config(0, 100);
    inline_config.dual_label_psv = Some(mode);

    // 13 batches of 16 are 208 positions: the 100 records come round twice.
    let (_, from_side) = run_workers(&side_args, &side, config(0, 100), 13).unwrap();
    let (_, from_inline) = run_workers(&inline_args, &inline, inline_config, 13).unwrap();
    assert_eq!(from_side.len(), 13);
    for ((a, a_buckets), (b, b_buckets)) in from_side.iter().zip(&from_inline) {
        assert_eq!(a.n_positions, b.n_positions);
        assert_eq!(a_buckets, b_buckets);
        let n = a.n_positions;
        assert_eq!(n, 16);
        assert_eq!(a.score[..n], b.score[..n]);
        assert_eq!(a.wdl[..n], b.wdl[..n]);
        assert_eq!(a.nnz[..n], b.nnz[..n]);
        for position in 0..n {
            let nnz = a.nnz[position] as usize;
            let start = position * a.max_active;
            assert_eq!(
                a.stm_indices[start..start + nnz],
                b.stm_indices[start..start + nnz]
            );
            assert_eq!(
                a.nstm_indices[start..start + nnz],
                b.nstm_indices[start..start + nnz]
            );
        }
    }
    let expected: Vec<i16> = (0..208)
        .map(|k| {
            let i = k % 100;
            if preserve.contains(&i) {
                i as i16 * 41 - 2000
            } else {
                i as i16 * 37 - 1400
            }
        })
        .collect();
    let got: Vec<i16> = from_side.iter().flat_map(|(b, _)| b.score.clone()).collect();
    assert_eq!(got, expected);
}

#[test]
fn labels_are_chosen_before_scores_are_dropped_and_clamped() {
    let preserve = [0, 2, 8];
    let base: Vec<i16> = (0..11).map(|i| i * 10).collect();
    let dl: Vec<i16> = (0..11).map(|i| 1000 - i * 300).collect();
    let gates: Vec<u8> = (0..11).map(|i| u8::from(preserve.contains(&i))).collect();
    let inline = dual_files(&base, &dl, &gates);
    let mut mask = vec![0_u8; 2];
    for &i in &preserve {
        mask[i / 8] |= 1 << (i % 8);
    }
    let mut sidecar = override_files(&base, &dl, Some(&mask));
    // The same bytes but for the labels that the sidecar replaces.
    sidecar.data = inline.data.clone();
    for drop in [None, Some(900)] {
        let mut c = config(0, 11);
        c.score_drop_abs = drop;
        c.score_clamp_abs = Some(500);
        let expected = read_scores(&sidecar, c, 15);
        c.dual_label_psv = Some(DualLabelMode::Gated);
        assert_eq!(read_scores(&inline, c, 15), expected);
    }
}

#[test]
fn psv_epoch_reader_new_range_wraps_within_range() {
    let got = read_scores(&sample_files(), config(70, 100), 100);
    assert_eq!(got.len(), 100);
    for (i, score) in got.iter().enumerate() {
        assert_eq!(*score, (70 + i % 30) as i16 * 41 - 2000);
    }
}

#[test]
fn psv_epoch_reader_clamps_after_drop() {
    let scores: [i16; 7] = [0, 50, -50, 200, -200, 32000, -32000];
    let files = dual_files(&scores, &[0; 7], &[0; 7]);
    let mut c = config(0, 7);
    c.score_drop_abs = Some(32000);
    c.score_clamp_abs = Some(100);
    assert_eq!(read_scores(&files, c, 5), [0, 50, -50, 100, -100]);
    // The pass is over: the two large scores never come.
    assert_eq!(read_scores(&files, c, 7), [0, 50, -50, 100, -100, 0, 50]);
}

#[test]
fn the_smallest_score_is_dropped_by_its_magnitude() {
    let files = dual_files(&[50, i16::MIN, 300], &[0; 3], &[0; 3]);
    let mut c = config(0, 3);
    c.score_drop_abs = Some(32_767);
    c.score_clamp_abs = Some(200);
    assert_eq!(read_scores(&files, c, 3), [50, 200, 50]);
}

#[test]
fn bucketed_loader_empty_file_errors_not_hang() {
    let files = Files {
        data: Vec::new(),
        scores: None,
        mask: None,
    };
    let mut args = sample_args(8);
    args.train_end_offset = 0;
    let err = run_workers(&args, &files, config(0, 0), 1).unwrap_err();
    assert!(
        err.message.contains("no usable positions"),
        "got: {}",
        err.message
    );
}

#[test]
fn five_passes_without_a_record_end_the_reading() {
    let files = Files {
        data: Vec::new(),
        scores: None,
        mask: None,
    };
    let mut reader = Driver::new(&files, config(0, 0), 40);
    for _ in 1..MAX_BARREN_PASSES {
        assert!(reader.next_in_epoch().unwrap().is_none());
    }
    let e = reader.next().unwrap_err();
    assert_eq!(
        e,
        EpochError::Barren {
            start_offset: 0,
            end_offset: 0,
            passes: MAX_BARREN_PASSES
        }
    );
    let paths = OverridePaths {
        data: "empty.psv",
        scores: "",
        mask: "",
    };
    assert_eq!(
        e.message(&paths),
        "data file empty.psv range [0, 0) yielded no usable positions over 5 full passes \
         (empty range, or all positions filtered out by score-drop-abs)"
    );
    // A file whose records are all left out ends the same way.
    let files = dual_files(&[500, -500], &[0; 2], &[0; 2]);
    let mut c = config(0, 2);
    c.score_drop_abs = Some(500);
    assert!(matches!(
        Driver::new(&files, c, 40).next(),
        Err(EpochError::Barren { passes: 5, .. })
    ));
    // One record that stays keeps the reading going.
    let files = dual_files(&[500, 499], &[0; 2], &[0; 2]);
    assert_eq!(read_scores(&files, c, 20), [499; 20]);
}

#[test]
fn a_shrunken_file_is_noticed_at_the_next_pass() {
    let files = dual_files(&[1], &[0], &[0]);
    let mut reader = Driver::new(&files, config(0, 1), 40);
    assert_eq!(reader.next_in_epoch().unwrap().unwrap().score(), 1);
    assert!(matches!(
        reader.reader.next_in_epoch(),
        Ok(EpochStep::PassEnd)
    ));
    let e = reader.reader.reopen(0).unwrap_err();
    assert!(matches!(e, EpochError::Range(RangeError::PastEnd { .. })));
}

#[test]
fn prefetched_loader_streams_sample_psv() {
    let (loader, mut file) = PrefetchedLoader::spawn(4000, 2).unwrap();
    let data = sample();
    let mut pos = 0;
    let mut total = 0;
    let mut sizes = Vec::new();
    loop {
        let mut batch = Batch::with_capacity(8, spec());
        if fill(&mut file, &mut batch, &data, &mut pos) == 0 {
            break;
        }
        let batch = loader.next_batch(Some(Ok(batch))).unwrap().unwrap();
        total += batch.n_positions;
        sizes.push(batch.n_positions);
    }
    assert!(loader.next_batch(None).unwrap().is_none());
    assert_eq!(total, 100);
    assert_eq!(sizes.len(), 13);
    assert_eq!(sizes[12], 4);
}

#[test]
fn prefetched_loader_handles_small_prefetch_depth() {
    let (loader, mut file) = PrefetchedLoader::spawn(4000, 0).unwrap();
    assert_eq!(loader.depth(), 1);
    let mut batch = Batch::with_capacity(4, spec());
    fill(&mut file, &mut batch, &sample(), &mut 0);
    let first = loader.next_batch(Some(Ok(batch))).unwrap().unwrap();
    assert_eq!(first.n_positions, 4);
    let (loader, mut file) = PrefetchedLoader::spawn(4000, 4).unwrap();
    assert_eq!(loader.depth(), 4);
    assert_eq!(read_records(&mut file, &numbered(100), 40).len(), 100);
    assert!(loader.next_batch(None).unwrap().is_none());
    let batch = Batch::with_capacity(1, spec());
    assert!(loader.next_batch(Some(Ok(batch))).unwrap().is_some());
    let e = LoadError {
        kind: ErrorKind::Other,
        message: "x".to_string(),
    };
    assert_eq!(loader.next_batch(Some(Err(e))).unwrap_err().message, "x");
    assert!(PrefetchedLoader::spawn(4001, 1).is_err());
}
