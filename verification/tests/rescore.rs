use tatara::batch::{Batch, FeatureSetSpec, Position};
use tatara::board::{Color, Piece, PieceType, ShogiBoard, Square};
use tatara::error::ErrorKind;
use tatara::ordered::{
    chunk_result, decode_chunk_into, default_decode_workers, panic_message, validate_board,
    BoardFault, ChunkError, ChunkEvent, ChunkStep, DecodeOutcome, DecodedRecord, OrderedError,
    OrderedPsvLoader, RescoreChunk,
};
use tatara::rescore_run::{
    convert_scores, input_records, non_finite_message, sidecar_name, RescoreInputError, RescoreRun,
    ScoreError, PAD_MULTIPLE,
};
use tatara::sidecar::{
    done_marker_path, done_marker_tmp_path, in_progress_marker_path, ScoreSidecarWriter,
    SidecarAction, SidecarFiles, SidecarOpen, SCORE_RECORD_BYTES,
};
use tatara::window::LoadError;

fn spec() -> FeatureSetSpec {
    FeatureSetSpec {
        name: "halfka-hm-merged",
        max_active: 40,
    }
}

fn board() -> ShogiBoard {
    let mut board = ShogiBoard::empty();
    board.black_king_sq = Square::new(4, 8);
    board.white_king_sq = Square::new(4, 0);
    board.board[Square::new(4, 8).index()] = Piece::new(Color::Black, PieceType::King);
    board.board[Square::new(4, 0).index()] = Piece::new(Color::White, PieceType::King);
    board
}

/// What the decoder gives for record `i`.
fn decoded(i: usize) -> DecodedRecord {
    DecodedRecord {
        board: board(),
        position: Position {
            stm: vec![i as i32, 1],
            nstm: vec![-(i as i32), 2],
            score: score_of(i),
            result: 0,
            bucket: (i % 9) as u8,
        },
    }
}

fn score_of(i: usize) -> i16 {
    (i as i16).wrapping_mul(37)
}

fn slot(chunk_records: usize) -> (Batch, Vec<i32>) {
    (Batch::with_capacity(chunk_records, spec()), Vec::new())
}

/// What a worker sends for one chunk of a file with `available` records.
fn work(loader: &OrderedPsvLoader, seq: u64, chunk: usize, pad: usize, available: u64) -> ChunkEvent {
    let (first, last) = loader.chunk_range(seq).unwrap();
    let records: Vec<DecodedRecord> = (first..last.min(available))
        .map(|i| decoded(i as usize))
        .collect();
    let mut s = slot(chunk);
    let outcome = match decode_chunk_into(first, last, pad, &records, &mut s) {
        Ok(n) => DecodeOutcome::Decoded(n),
        Err(e) => DecodeOutcome::Failed(LoadError {
            kind: e.kind(),
            message: e.message("in.psv"),
        }),
    };
    chunk_result(seq, first, last, outcome, s)
}

/// Takes everything that the loader gives while chunks arrive in `order`.
fn drain(
    loader: &mut OrderedPsvLoader,
    order: &[u64],
    chunk: usize,
    pad: usize,
    available: u64,
) -> Result<Vec<RescoreChunk>, LoadError> {
    let mut out: Vec<RescoreChunk> = Vec::new();
    let mut sent = 0;
    loop {
        let step = match loader.next_chunk() {
            ChunkStep::Wait => {
                let event = if sent < order.len() {
                    sent += 1;
                    work(loader, order[sent - 1], chunk, pad, available)
                } else {
                    ChunkEvent::Closed(None)
                };
                loader.receive(event)
            }
            step => step,
        };
        match step {
            ChunkStep::Chunk(c) => {
                assert_eq!(c.seq, out.len() as u64, "chunks must come in order");
                assert!(c.n_real >= 1 && c.n_real <= c.batch.n_positions);
                out.push(c);
            }
            ChunkStep::Wait => {}
            ChunkStep::Done => return Ok(out),
            ChunkStep::Failed(e) => return Err(e),
        }
    }
}

fn scores(chunks: &[RescoreChunk]) -> Vec<i16> {
    chunks
        .iter()
        .flat_map(|c| c.batch.score[..c.n_real].to_vec())
        .collect()
}

fn buckets(chunks: &[RescoreChunk]) -> Vec<i32> {
    chunks
        .iter()
        .flat_map(|c| c.buckets[..c.n_real].to_vec())
        .collect()
}

#[test]
fn ordered_loader_preserves_input_order_and_yields_every_record() {
    let mut loader = OrderedPsvLoader::spawn(500 * 40, 64, 16, 4, 9, 0).unwrap();
    assert_eq!(loader.total_records(), 500);
    assert_eq!(loader.remaining_records(), 500);
    let chunks = drain(&mut loader, &[3, 0, 7, 1, 2, 6, 5, 4], 64, 16, 500).unwrap();
    assert_eq!(scores(&chunks), (0..500).map(score_of).collect::<Vec<_>>());
    assert_eq!(
        buckets(&chunks),
        (0..500).map(|i| i % 9).collect::<Vec<i32>>()
    );
    assert_eq!(chunks.len(), 8);
    assert!(loader.chunk_range(8).is_none());
    assert!(loader.chunk_range(u64::MAX).is_none());
}

#[test]
fn ordered_loader_pads_final_partial_chunk_with_last_row() {
    let mut loader = OrderedPsvLoader::spawn(500 * 40, 64, 16, 3, 9, 0).unwrap();
    let chunks = drain(&mut loader, &[0, 1, 2, 3, 4, 5, 6, 7], 64, 16, 500).unwrap();
    for c in &chunks[..7] {
        assert_eq!(c.n_real, 64);
        assert_eq!(c.batch.n_positions, 64);
    }
    let last = &chunks[7];
    assert_eq!(last.n_real, 52);
    assert_eq!(
        last.batch.n_positions, 64,
        "52 rounds up to the next multiple of 16"
    );
    for i in 52..64 {
        assert_eq!(last.batch.score[i], last.batch.score[51]);
        assert_eq!(last.buckets[i], last.buckets[51]);
    }
}

#[test]
fn ordered_loader_exact_multiple_needs_no_padding() {
    let mut loader = OrderedPsvLoader::spawn(400 * 40, 80, 16, 2, 9, 0).unwrap();
    let chunks = drain(&mut loader, &[4, 3, 2, 1, 0], 80, 16, 400).unwrap();
    assert_eq!(scores(&chunks).len(), 400);
    let shapes: Vec<(usize, usize)> = chunks
        .iter()
        .map(|c| (c.n_real, c.batch.n_positions))
        .collect();
    assert_eq!(shapes, vec![(80, 80); 5]);
}

#[test]
fn ordered_loader_resumes_from_start_record() {
    let mut loader = OrderedPsvLoader::spawn(300 * 40, 48, 16, 4, 9, 130).unwrap();
    assert_eq!(loader.remaining_records(), 170);
    let chunks = drain(&mut loader, &[1, 0, 3, 2], 48, 16, 300).unwrap();
    assert_eq!(
        scores(&chunks),
        (130..300).map(score_of).collect::<Vec<_>>()
    );
}

#[test]
fn ordered_loader_is_deterministic_across_runs() {
    let run = |order: &[u64]| {
        let mut loader = OrderedPsvLoader::spawn(400 * 40, 32, 16, 4, 9, 0).unwrap();
        let chunks = drain(&mut loader, order, 32, 16, 400).unwrap();
        let shapes: Vec<(usize, usize)> = chunks
            .iter()
            .map(|c| (c.n_real, c.batch.n_positions))
            .collect();
        (scores(&chunks), buckets(&chunks), shapes)
    };
    let forward: Vec<u64> = (0..13).collect();
    let backward: Vec<u64> = (0..13).rev().collect();
    let (s1, b1, shapes1) = run(&forward);
    let (s2, b2, shapes2) = run(&backward);
    assert_eq!(s1, s2);
    assert_eq!(b1, b2);
    assert_eq!(shapes1, shapes2);
    assert_eq!(s1, (0..400).map(score_of).collect::<Vec<_>>());
}

#[test]
fn ordered_loader_rejects_torn_file_and_bad_start() {
    let err = OrderedPsvLoader::spawn(40 * 3 + 7, 16, 16, 1, 9, 0).unwrap_err();
    assert_eq!(err, OrderedError::Torn { file_size: 127 });
    assert_eq!(err.kind(), ErrorKind::InvalidData);
    assert!(err.message("p").contains("not a multiple"));
    let err = OrderedPsvLoader::spawn(4000, 16, 16, 1, 9, 101).unwrap_err();
    assert_eq!(err.kind(), ErrorKind::InvalidInput);
    assert_eq!(
        err.message("p"),
        "start record 101 exceeds the 100 records in p"
    );
}

#[test]
fn ordered_loader_fails_closed_when_input_shrinks() {
    let mut loader = OrderedPsvLoader::spawn(50_000 * 40, 16, 16, 1, 9, 0).unwrap();
    let order: Vec<u64> = (0..8).collect();
    let e = drain(&mut loader, &order, 16, 16, 100).unwrap_err();
    assert_eq!(
        e.message,
        "chunk [96, 112) of in.psv yielded 4 records (expected 16); \
         the input changed while rescoring"
    );
    // The failure stays.
    match loader.next_chunk() {
        ChunkStep::Failed(e) => assert!(e.message.contains("the input changed")),
        _ => panic!("a failed loader must keep failing"),
    }
}

#[test]
fn a_failed_chunk_stops_the_loader_while_others_are_under_way() {
    let mut loader = OrderedPsvLoader::spawn(50_000 * 40, 16, 16, 4, 9, 0).unwrap();
    // Four workers: the chunk that is cut short comes before chunks that wait for it.
    let order = [1, 0, 3, 2, 5, 6, 4, 7];
    let e = drain(&mut loader, &order, 16, 16, 100).unwrap_err();
    assert!(e.message.contains("the input changed"), "{}", e.message);
    match loader.next_chunk() {
        ChunkStep::Failed(again) => assert_eq!(again.message, e.message),
        _ => panic!("a failed loader must keep failing"),
    }
}

#[test]
fn ordered_loader_propagates_worker_panic_and_stays_poisoned() {
    let mut loader = OrderedPsvLoader::spawn(200 * 40, 16, 16, 2, 257, 0).unwrap();
    let text = panic_message(Some("num_buckets out of range"));
    let event = chunk_result(0, 0, 16, DecodeOutcome::Panicked(text), slot(16));
    match loader.receive(event) {
        ChunkStep::Failed(e) => assert_eq!(
            e.message,
            "decode worker panicked on records [0, 16): num_buckets out of range"
        ),
        _ => panic!("panicking workers must not look like a clean end"),
    }
    match loader.next_chunk() {
        ChunkStep::Failed(e) => assert!(e.message.contains("panicked")),
        _ => panic!("a poisoned loader must keep failing"),
    }
    assert_eq!(panic_message(None), "non-string panic payload");
    let mut loader = OrderedPsvLoader::spawn(200 * 40, 16, 16, 2, 9, 0).unwrap();
    match loader.receive(ChunkEvent::Closed(Some("boom".to_string()))) {
        ChunkStep::Failed(e) => assert_eq!(e.message, "decode worker panicked: boom"),
        _ => panic!("a panic must be reported"),
    }
}

#[test]
fn ordered_loader_reports_missing_and_gapped_chunks() {
    let mut loader = OrderedPsvLoader::spawn(48 * 40, 16, 16, 2, 9, 0).unwrap();
    let e = drain(&mut loader, &[0, 2], 16, 16, 48).unwrap_err();
    assert_eq!(
        e.message,
        "decode workers exited after delivering 2 of 3 chunks; \
         refusing to treat the missing tail as a clean EOF"
    );
    let mut loader = OrderedPsvLoader::spawn(48 * 40, 16, 16, 2, 9, 0).unwrap();
    let e = drain(&mut loader, &[0, 2, 2], 16, 16, 48).unwrap_err();
    assert_eq!(
        e.message,
        "chunk 1 is missing while later chunks exist; \
         refusing to continue with a gap in the record order"
    );
}

#[test]
fn ordered_loader_rejects_corrupt_record() {
    let mut records: Vec<DecodedRecord> = (0..3).map(decoded).collect();
    let mut bad = decoded(3);
    bad.board = ShogiBoard::empty();
    records.push(bad);
    records.push(decoded(4));
    let e = decode_chunk_into(100, 105, 16, &records, &mut slot(16)).unwrap_err();
    assert_eq!(e.kind(), ErrorKind::InvalidData);
    assert_eq!(
        e.message("in.psv"),
        "record 103 in in.psv decodes to a corrupt position (kings on board: black 0 / white 0 \
         (expected exactly 1 each)); refusing to write a score for it"
    );
}

#[test]
fn a_chunk_with_too_many_features_is_an_error() {
    let mut bad = decoded(0);
    bad.position.stm = vec![0; 41];
    bad.position.nstm = vec![0; 41];
    let e = decode_chunk_into(0, 1, 1, &vec![bad], &mut slot(4)).unwrap_err();
    assert!(matches!(e, ChunkError::Overflow(_)));
    assert_eq!(e.kind(), ErrorKind::InvalidData);
    assert!(e.message("p").contains("active feature count 41"));
}

#[test]
fn boards_are_checked_for_corruption() {
    assert_eq!(validate_board(&board()), Ok(()));
    let mut b = board();
    b.board[0] = Piece::new(Color::Black, PieceType::King);
    let fault = validate_board(&b).unwrap_err();
    assert_eq!(fault, BoardFault::Kings { black: 2, white: 1 });
    let mut b = board();
    b.black_king_sq = Square::new(0, 0);
    assert_eq!(validate_board(&b), Err(BoardFault::KingSquares));
    assert_eq!(
        BoardFault::KingSquares.message(),
        "king square fields do not match the board"
    );
    let mut b = board();
    b.white_king_sq = Square::none();
    assert_eq!(validate_board(&b), Err(BoardFault::KingSquares));
    let mut b = board();
    b.black_hand.counts[0] = 18;
    b.white_hand.counts[0] = 20;
    assert_eq!(validate_board(&b), Ok(()));
    b.white_hand.counts[6] = 1;
    let fault = validate_board(&b).unwrap_err();
    assert_eq!(fault, BoardFault::TooMany { total: 41 });
    assert_eq!(
        fault.message(),
        "41 pieces on board + in hand (shogi has at most 40)"
    );
}

#[test]
fn decode_workers_are_capped() {
    assert_eq!(default_decode_workers(None), 1);
    assert_eq!(default_decode_workers(Some(3)), 3);
    assert_eq!(default_decode_workers(Some(64)), 8);
    let loader = OrderedPsvLoader::spawn(4000, 16, 16, 0, 9, 0).unwrap();
    assert_eq!(loader.num_workers(), 1);
    assert_eq!(loader.n_slots(), 4);
    assert_eq!(loader.result_capacity(), 5);
}

/// A sidecar with its markers, held in memory.
#[derive(Default)]
struct Disk {
    sidecar: Option<Vec<u8>>,
    in_progress: Option<String>,
    done: Option<String>,
    done_tmp: Option<String>,
}

impl Disk {
    fn carry_out(&mut self, actions: &[SidecarAction], fingerprint: &str) {
        for a in actions {
            match a {
                SidecarAction::RemoveInProgress => self.in_progress = None,
                SidecarAction::RemoveDone => self.done = None,
                SidecarAction::TruncateSidecar => {
                    if let Some(s) = &mut self.sidecar {
                        s.clear();
                    }
                }
                SidecarAction::WriteInProgress => self.in_progress = Some(fingerprint.to_string()),
                SidecarAction::OpenAppend => {
                    self.sidecar.get_or_insert_with(Vec::new);
                }
                SidecarAction::WriteDoneTmp => self.done_tmp = Some(fingerprint.to_string()),
                SidecarAction::RenameDoneTmp => self.done = self.done_tmp.take(),
            }
        }
    }

    fn open(&mut self, expected: u64, fingerprint: &str) -> Result<SidecarOpen, LoadError> {
        let files = SidecarFiles {
            done: self.done.clone(),
            in_progress: self.in_progress.clone(),
            sidecar_size: self.sidecar.as_ref().map(|s| s.len() as u64),
        };
        let (actions, r) = ScoreSidecarWriter::open(&files, "out.scores.i16", expected, fingerprint);
        self.carry_out(&actions, fingerprint);
        r
    }

    fn writer(&mut self, expected: u64, fingerprint: &str) -> (ScoreSidecarWriter, u64) {
        match self.open(expected, fingerprint).unwrap() {
            SidecarOpen::Writer {
                writer,
                resume_records,
            } => (writer, resume_records),
            SidecarOpen::Complete => panic!("expected a writer, got Complete"),
        }
    }

    fn write(&mut self, writer: &mut ScoreSidecarWriter, scores: &[i16]) -> Result<(), LoadError> {
        let bytes = writer.write_scores(scores)?;
        self.sidecar.as_mut().unwrap().extend_from_slice(&bytes);
        writer.confirm_write();
        Ok(())
    }

    fn finish(&mut self, writer: &ScoreSidecarWriter) -> Result<(), LoadError> {
        let (steps, r) = writer.finish(self.sidecar.as_ref().unwrap().len() as u64);
        self.carry_out(&steps, writer.fingerprint());
        r
    }
}

fn bytes_of(scores: &[i16]) -> Vec<u8> {
    scores.iter().flat_map(|s| s.to_le_bytes()).collect()
}

#[test]
fn marker_paths_stand_beside_the_sidecar() {
    assert_eq!(in_progress_marker_path("a/b.i16"), "a/b.i16.in-progress");
    assert_eq!(done_marker_path("a/b.i16"), "a/b.i16.done");
    assert_eq!(done_marker_tmp_path("a/b.i16"), "a/b.i16.done.tmp");
    assert_eq!(SCORE_RECORD_BYTES, 2);
}

#[test]
fn sidecar_writer_writes_promotes_and_skips_when_complete() {
    let mut disk = Disk::default();
    let scores: Vec<i16> = (0..10).map(|i| i * 100 - 450).collect();
    let (mut writer, resume) = disk.writer(10, "fp-v1");
    assert_eq!(resume, 0);
    assert!(disk.in_progress.is_some());
    disk.write(&mut writer, &scores[..4]).unwrap();
    disk.write(&mut writer, &scores[4..]).unwrap();
    assert_eq!(writer.written(), 10);
    disk.finish(&writer).unwrap();
    assert_eq!(disk.sidecar.as_ref().unwrap(), &bytes_of(&scores));
    assert!(disk.in_progress.is_none());
    assert_eq!(disk.done.as_deref(), Some("fp-v1"));
    // Complete with the same fingerprint: skipped, unchanged.
    assert!(matches!(disk.open(10, "fp-v1"), Ok(SidecarOpen::Complete)));
    assert_eq!(disk.sidecar.as_ref().unwrap(), &bytes_of(&scores));
}

#[test]
fn sidecar_writer_resumes_by_count_bit_identical() {
    let mut disk = Disk::default();
    let scores: Vec<i16> = (0..20).map(|i| i * 37 - 300).collect();
    let (mut writer, _) = disk.writer(20, "fp-resume");
    disk.write(&mut writer, &scores[..7]).unwrap();
    drop(writer);
    assert!(disk.in_progress.is_some());
    assert_eq!(disk.sidecar.as_ref().unwrap().len(), 14);
    let (mut writer, resume) = disk.writer(20, "fp-resume");
    assert_eq!(resume, 7);
    disk.write(&mut writer, &scores[7..]).unwrap();
    disk.finish(&writer).unwrap();
    assert_eq!(disk.sidecar.unwrap(), bytes_of(&scores));
}

#[test]
fn sidecar_writer_truncates_on_fingerprint_mismatch() {
    let mut disk = Disk::default();
    let (mut writer, _) = disk.writer(5, "fp-old");
    disk.write(&mut writer, &[1, 2, 3]).unwrap();
    let (_, resume) = disk.writer(5, "fp-new");
    assert_eq!(resume, 0);
    assert_eq!(disk.sidecar.as_ref().unwrap().len(), 0);
    assert_eq!(disk.in_progress.as_deref(), Some("fp-new"));
}

#[test]
fn sidecar_writer_rejects_odd_size_and_overflow() {
    let mut disk = Disk {
        sidecar: Some(vec![0; 5]),
        in_progress: Some("fp-odd".to_string()),
        ..Disk::default()
    };
    let err = disk.open(10, "fp-odd").unwrap_err();
    assert!(err.message.contains("not a multiple"), "{}", err.message);
    assert_eq!(disk.sidecar.as_ref().unwrap().len(), 5);
    disk.sidecar = Some(vec![0; 22]);
    let err = disk.open(10, "fp-odd").unwrap_err();
    assert_eq!(
        err.message,
        "sidecar out.scores.i16 already has 11 records but only 10 are expected; \
         delete the sidecar and the marker out.scores.i16.in-progress to regenerate"
    );

    let mut disk = Disk::default();
    let (mut writer, _) = disk.writer(3, "fp-ov");
    let err = disk.write(&mut writer, &[1, 2, 3, 4]).unwrap_err();
    assert!(err.message.contains("exceed"), "{}", err.message);
    // Refused before a byte was written: the writer goes on.
    disk.write(&mut writer, &[1, 2, 3]).unwrap();
}

#[test]
fn sidecar_writer_poisons_after_partial_write_failure() {
    let mut disk = Disk::default();
    let (mut writer, _) = disk.writer(10, "fp-poison");
    writer.write_scores(&[1, 2, 3, 4]).unwrap();
    let err = writer.write_failed(ErrorKind::Other, "injected write failure");
    assert!(err.message.contains("poisoned"), "{}", err.message);
    assert!(err.message.contains("injected write failure"));
    assert_eq!(
        writer.written(),
        0,
        "failed chunk must not advance the counter"
    );
    let retry = writer.write_scores(&[1]).unwrap_err();
    assert_eq!(retry.message, err.message);
    let (steps, finish) = writer.finish(0);
    assert_eq!(steps, []);
    let finish = finish.unwrap_err();
    assert!(finish.message.contains("poisoned"));
}

#[test]
fn sidecar_writer_finish_rejects_physical_size_mismatch() {
    let mut disk = Disk::default();
    let (mut writer, _) = disk.writer(3, "fp-phys");
    disk.write(&mut writer, &[1, 2, 3]).unwrap();
    disk.sidecar.as_mut().unwrap().push(0xAA);
    let err = disk.finish(&writer).unwrap_err();
    assert!(err.message.contains("physical size"), "{}", err.message);
    assert!(disk.in_progress.is_some());
    assert!(disk.done.is_none());
}

#[test]
fn sidecar_writer_finish_requires_full_count_and_keeps_marker() {
    let mut disk = Disk::default();
    let (mut writer, _) = disk.writer(8, "fp-short");
    disk.write(&mut writer, &[1, 2, 3]).unwrap();
    let err = disk.finish(&writer).unwrap_err();
    assert!(err.message.contains("3 of 8"), "{}", err.message);
    assert!(disk.in_progress.is_some());
    assert!(disk.done.is_none());
}

#[test]
fn sidecar_writer_regenerates_when_done_marker_is_stale() {
    let mut disk = Disk::default();
    let (mut writer, _) = disk.writer(2, "fp-a");
    disk.write(&mut writer, &[10, 20]).unwrap();
    disk.finish(&writer).unwrap();
    let (_, resume) = disk.writer(2, "fp-b");
    assert_eq!(resume, 0);
    assert!(disk.done.is_none());
    assert_eq!(disk.sidecar.as_ref().unwrap().len(), 0);
    // The sidecar is cut before its marker goes.
    let files = SidecarFiles {
        done: Some("fp-b".to_string()),
        in_progress: Some("fp-b".to_string()),
        sidecar_size: Some(2),
    };
    let (actions, _) = ScoreSidecarWriter::open(&files, "s", 2, "fp-b");
    assert_eq!(
        actions,
        [
            SidecarAction::TruncateSidecar,
            SidecarAction::RemoveDone,
            SidecarAction::OpenAppend
        ]
    );
}

#[test]
fn a_complete_sidecar_is_left_alone() {
    let mut disk = Disk {
        sidecar: Some(bytes_of(&[7, 8])),
        in_progress: Some("fp".to_string()),
        done: Some("fp".to_string()),
        done_tmp: None,
    };
    assert!(matches!(disk.open(2, "fp"), Ok(SidecarOpen::Complete)));
    assert_eq!(disk.sidecar.as_ref().unwrap(), &bytes_of(&[7, 8]));
    assert_eq!(disk.in_progress.as_deref(), Some("fp"));
    assert_eq!(disk.done.as_deref(), Some("fp"));
}

#[test]
fn an_interrupted_promotion_is_made_up_for() {
    for taken in 0..4 {
        let mut disk = Disk::default();
        let (mut writer, _) = disk.writer(2, "fp-cut");
        disk.write(&mut writer, &[3, 4]).unwrap();
        let (steps, r) = writer.finish(4);
        r.unwrap();
        assert_eq!(
            steps,
            [
                SidecarAction::WriteDoneTmp,
                SidecarAction::RenameDoneTmp,
                SidecarAction::RemoveInProgress
            ]
        );
        disk.carry_out(&steps[..taken], "fp-cut");
        match disk.open(2, "fp-cut").unwrap() {
            SidecarOpen::Complete => assert!(taken >= 2),
            SidecarOpen::Writer {
                writer,
                resume_records,
            } => {
                assert!(taken < 2);
                assert_eq!(resume_records, 2);
                disk.finish(&writer).unwrap();
            }
        }
        assert_eq!(disk.sidecar.as_ref().unwrap(), &bytes_of(&[3, 4]));
        assert_eq!(disk.done.as_deref(), Some("fp-cut"));
    }
}

#[test]
fn loader_and_writer_resume_is_bit_identical_to_one_shot() {
    let run = |disk: &mut Disk, stop: Option<usize>| {
        let (writer, resume) = disk.writer(300, "fp-e2e");
        let mut loader = OrderedPsvLoader::spawn(300 * 40, 64, PAD_MULTIPLE, 4, 9, resume).unwrap();
        let n = (loader.remaining_records() + 63) / 64;
        let order: Vec<u64> = (0..n).rev().collect();
        let chunks = drain(&mut loader, &order, 64, PAD_MULTIPLE, 300).unwrap();
        let opened = SidecarOpen::Writer {
            writer,
            resume_records: resume,
        };
        let mut run = RescoreRun::start(opened, 300, i16::MAX).unwrap();
        for c in chunks.iter().take(stop.unwrap_or(usize::MAX)) {
            let outputs: Vec<Option<i64>> = c.batch.score[..c.batch.n_positions]
                .iter()
                .map(|&s| Some(i64::from(s)))
                .collect();
            let bytes = run.score_chunk(&outputs, c.n_real).unwrap();
            disk.sidecar.as_mut().unwrap().extend_from_slice(&bytes);
            run.confirm_chunk();
        }
        if stop.is_none() {
            assert_eq!(run.done_this_run(), 300 - resume);
            disk.finish(run.writer()).unwrap();
        }
    };
    let mut one_shot = Disk::default();
    run(&mut one_shot, None);
    let mut resumed = Disk::default();
    run(&mut resumed, Some(2));
    assert_eq!(resumed.sidecar.as_ref().unwrap().len(), 128 * 2);
    run(&mut resumed, None);
    assert_eq!(one_shot.sidecar, resumed.sidecar);
    assert!(resumed.done.is_some());
}

#[test]
fn scores_are_clipped_and_checked() {
    let outputs = [Some(5), Some(-40_000), Some(40_000), Some(-1)];
    assert_eq!(
        convert_scores(&outputs, 30_000).unwrap(),
        [5, -30_000, 30_000, -1]
    );
    assert_eq!(convert_scores(&[Some(3), None, None], 10), Err(1));

    let mut disk = Disk::default();
    let (writer, resume_records) = disk.writer(4, "fp");
    let mut run = RescoreRun::start(
        SidecarOpen::Writer {
            writer,
            resume_records,
        },
        4,
        100,
    )
    .unwrap();
    // A bad output behind the real ones is padding.
    assert_eq!(
        run.score_chunk(&[Some(1), Some(500), None], 2).unwrap(),
        bytes_of(&[1, 100])
    );
    run.confirm_chunk();
    match run.score_chunk(&[Some(1), None], 2) {
        Err(ScoreError::NonFinite { index, record }) => {
            assert_eq!((index, record), (1, 2));
            assert_eq!(
                non_finite_message("NaN", record),
                "non-finite net output NaN around record 2; refusing to write a score for it \
                 (is the net or the score scale wrong?)"
            );
        }
        _ => panic!("an output that is no number must be refused"),
    }
    match run.score_chunk(&[Some(1), Some(1), Some(1)], 3) {
        Err(ScoreError::Sidecar(e)) => assert!(e.message.contains("exceed")),
        _ => panic!("too many scores must be refused"),
    }
    run.chunk_failed(ErrorKind::Other, "disk full");
    assert!(matches!(
        run.score_chunk(&[Some(1)], 1),
        Err(ScoreError::Sidecar(_))
    ));
    assert!(RescoreRun::start(SidecarOpen::Complete, 4, 1).is_none());
}

#[test]
fn rescore_inputs_are_checked() {
    assert_eq!(input_records(400), Ok(10));
    let e = input_records(41).unwrap_err();
    assert_eq!(e, RescoreInputError::Torn { input_size: 41 });
    assert_eq!(
        e.message("x.psv"),
        "--rescore-input x.psv size 41 is not a multiple of the PSV record size (40 bytes); \
         refusing to rescore a torn file"
    );
    let e = input_records(0).unwrap_err();
    assert_eq!(e.message("x.psv"), "--rescore-input x.psv is empty");
    assert_eq!(
        RescoreInputError::NoFileName.message(".."),
        "--rescore-input .. has no file name"
    );
    assert_eq!(sidecar_name("x.psv"), "x.psv.scores.i16");
}
