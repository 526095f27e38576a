use sha2::{Digest, Sha256};
use tatara::batch::{Batch, BucketMode, FeatureSetSpec, Position, Wdl};
use tatara::build_identity::{
    build_commit, experiment_commit, capture, is_known_build, join_path, native_backend_requested,
    recorded_commit, rerun_paths,
    runtime_backend, trainer_build, BackendFeatures, GitIdentity,
};
use tatara::compute_cap::{
    max_listed_compute_capability, minimum_compute_capability, parse_compute_capability,
};
use tatara::data_pass::{
    check_training_args, device_ordinal, epoch_checkpoint_path, is_val_game, next_action, DataPass,
    EpochAction, GameAction, PassConfig, PassMode, TrainingError,
};
use tatara::diagnostics::{
    diagnostic_indices, summarize, DeltaFacts, DiagnosticError, RecordFacts, StorageFacts,
    StorageStats,
};
use tatara::digest::{
    digest_feature_set, digest_line, f32_bits, outcome_bits, sha256_hex, DigestError, LoaderDigest,
};
use tatara::error::ErrorKind;
use tatara::feature_set::FeatureSet;
use tatara::fingerprint::{meta_json_path, Fingerprint, MetaError, ProgressCoeff, RescoreConditions};
use tatara::kernel_build::{
    compile_ll_to_ptx, cublas_files, cuda_lib_dir, cuda_root_candidates, fallback_lib_dir,
    fatbin_command, find_nvcc, first_existing, is_compute_target, kernel_candidates,
    libdevice_path, module_source, needs_build, ptx_path, Candidate, ModuleError, ModuleSource,
    Toolchain,
};
use tatara::launch::{
    configure_qat, ft_fp16_out_missing_ft_fp16, grid_dim_1d, grid_dim_1d_of, grown_capacity,
    initial_capacity, qat_dense_threads, qat_threads_message, CapacityError, QatError, QatMode,
};
use tatara::sampling::sample_indices;
use tatara::sidecar::{ScoreSidecarWriter, SidecarFiles, SidecarOpen};

#[test]
fn ft_fp16_out_requires_ft_fp16_uses_effective_values() {
    assert!(ft_fp16_out_missing_ft_fp16(true, false, false));
    assert!(!ft_fp16_out_missing_ft_fp16(true, true, false));
    assert!(!ft_fp16_out_missing_ft_fp16(false, false, true));
    assert!(!ft_fp16_out_missing_ft_fp16(true, false, true));
    assert!(!ft_fp16_out_missing_ft_fp16(false, false, false));
    assert!(!ft_fp16_out_missing_ft_fp16(false, true, false));
}

#[test]
fn val_disabled_routes_every_game_to_train() {
    for seq in 0..256 {
        assert!(!is_val_game(seq, None), "seq {seq} must not be val");
    }
}

#[test]
fn stride_routes_every_nth_game_to_val() {
    let stride = Some(20);
    assert!(is_val_game(0, stride));
    assert!(is_val_game(20, stride));
    assert!(is_val_game(40, stride));
    assert!(!is_val_game(1, stride));
    assert!(!is_val_game(19, stride));
    assert!(!is_val_game(21, stride));
    let val_count = (0..1000_u64).filter(|&s| is_val_game(s, stride)).count();
    assert_eq!(val_count, 50);
    assert!(is_val_game(0, Some(0)));
    assert!(!is_val_game(1, Some(0)));
}

#[test]
fn epoch_checkpoint_path_inserts_before_extension() {
    assert_eq!(
        epoch_checkpoint_path("out/progress/foo.bin", 3),
        "out/progress/foo.e3.bin"
    );
    assert_eq!(epoch_checkpoint_path("a.b/c.d.e", 12), "a.b/c.d.e12.e");
}

#[test]
fn epoch_checkpoint_path_handles_missing_extension() {
    assert_eq!(epoch_checkpoint_path("foo", 1), "foo.e1");
    assert_eq!(epoch_checkpoint_path("a.b/foo", 1), "a.b/foo.e1");
    assert_eq!(epoch_checkpoint_path("a/.hidden", 1), "a/.hidden.e1");
    assert_eq!(epoch_checkpoint_path(".bashrc", 1), ".bashrc.e1");
    assert_eq!(epoch_checkpoint_path("out/", 1), "out.e1");
    assert_eq!(epoch_checkpoint_path("", 1), ".e1");
    assert_eq!(epoch_checkpoint_path(".", 1), "./.e1");
    assert_eq!(epoch_checkpoint_path("..", 1), "../.e1");
    assert_eq!(epoch_checkpoint_path("/", 1), "/.e1");
    assert_eq!(epoch_checkpoint_path("a//b.bin", 1), "a/b.e1.bin");
}

fn pass_config(mode: PassMode) -> PassConfig {
    PassConfig {
        mode,
        max_games: 7,
        val_stride: Some(3),
        games_per_step: 2,
        log_interval_steps: 2,
    }
}

#[test]
fn passes_split_the_games_between_them() {
    // Ten games, of which one is empty; the limit is seven.
    let sizes = [5, 4, 0, 3, 2, 1, 6, 7, 8, 9];
    let mut taken = Vec::new();
    let mut totals = Vec::new();
    for mode in [PassMode::Train, PassMode::Validate] {
        let mut pass = DataPass::new(pass_config(mode));
        let mut games = Vec::new();
        let mut logs = Vec::new();
        for (i, &n) in sizes.iter().enumerate() {
            match pass.offer_game(n) {
                GameAction::Ignore => assert_eq!(n, 0),
                GameAction::Stop => break,
                GameAction::Skip => {}
                GameAction::Push => games.push(i),
                GameAction::PushAndRun { log } => {
                    games.push(i);
                    logs.push(log);
                }
            }
        }
        assert!(mode == PassMode::Train || logs.iter().all(|&l| !l));
        totals.push(pass.finish());
        taken.push(games);
    }
    assert_eq!(taken[0], [1, 3, 5, 6]);
    assert_eq!(taken[1], [0, 4, 7]);
    let (last, t) = totals[0];
    assert!(!last);
    assert_eq!((t.games, t.samples, t.steps), (4, 14, 2));
    let (last, v) = totals[1];
    assert!(last, "one game is left over");
    assert_eq!((v.games, v.samples, v.steps), (3, 14, 2));
}

#[test]
fn training_passes_report_every_so_many_steps() {
    let mut config = pass_config(PassMode::Train);
    config.max_games = 0;
    config.val_stride = None;
    config.games_per_step = 1;
    let mut pass = DataPass::new(config);
    let logs: Vec<GameAction> = (0..4).map(|_| pass.offer_game(1)).collect();
    assert_eq!(
        logs,
        [false, true, false, true].map(|log| GameAction::PushAndRun { log })
    );
}

#[test]
fn training_arguments_are_checked_in_order() {
    assert_eq!(
        check_training_args(0, 0, false, 0),
        Err(TrainingError::NoEpochs)
    );
    assert_eq!(
        check_training_args(1, 0, false, 0),
        Err(TrainingError::NoGamesPerStep)
    );
    assert_eq!(
        check_training_args(1, 1, false, 0),
        Err(TrainingError::ValFraction)
    );
    assert_eq!(
        check_training_args(1, 1, true, 0),
        Err(TrainingError::NoDataFiles)
    );
    assert_eq!(check_training_args(1, 1, true, 1), Ok(()));
    assert_eq!(TrainingError::NoEpochs.message(""), "--epochs must be >= 1");
    assert_eq!(
        TrainingError::ValFraction.message("0.7"),
        "--val-fraction must be within 0.0..=0.5 (got 0.7); 0.0 disables held-out validation"
    );
    assert_eq!(device_ordinal(3), Ok(3));
    assert_eq!(device_ordinal(usize::MAX), Err(TrainingError::Device));
}

#[test]
fn epochs_are_trained_validated_and_written() {
    let mut a = EpochAction::Train { epoch: 1 };
    let mut seen = vec![a];
    while a != EpochAction::Finish {
        a = next_action(a, 10, 2, true).unwrap();
        seen.push(a);
    }
    assert_eq!(
        seen,
        [
            EpochAction::Train { epoch: 1 },
            EpochAction::Validate { epoch: 1 },
            EpochAction::Checkpoint { epoch: 1 },
            EpochAction::Train { epoch: 2 },
            EpochAction::Validate { epoch: 2 },
            EpochAction::Checkpoint { epoch: 2 },
            EpochAction::Finish,
        ]
    );
    let train = EpochAction::Train { epoch: 1 };
    assert_eq!(
        next_action(train, 10, 2, false),
        Ok(EpochAction::Checkpoint { epoch: 1 })
    );
    let e = next_action(train, 0, 2, true).unwrap_err();
    assert!(e.message("").contains("holdout left no training games"));
    let e = next_action(train, 0, 2, false).unwrap_err();
    assert!(e.message("").contains("no non-empty games"));
}

#[test]
fn selects_minimum_capability_and_ignores_invalid_lines() {
    assert_eq!(
        minimum_compute_capability("12.0\nN/A\ncompute_cap\n8.6\n"),
        Some(86)
    );
    assert_eq!(minimum_compute_capability(" 8.6 \r\n9.0"), Some(86));
    assert_eq!(minimum_compute_capability(""), None);
}

#[test]
fn rejects_malformed_capability_values() {
    for value in ["", "75", ".5", "8.", "8.x", "8.6.1"] {
        assert_eq!(parse_compute_capability(value), None);
    }
    assert_eq!(parse_compute_capability("\u{3000}12.0\t"), Some(120));
    assert_eq!(parse_compute_capability("4294967.295"), Some(u32::MAX));
    assert_eq!(parse_compute_capability("4294967.296"), None);
}

#[test]
fn takes_highest_numeric_arch_and_skips_suffixed_ones() {
    assert_eq!(
        max_listed_compute_capability("compute_50\ncompute_90a\ncompute_121\n"),
        Some(121)
    );
    assert_eq!(max_listed_compute_capability("sm_50\ncompute_\n"), None);
    assert_eq!(max_listed_compute_capability("compute_+75"), Some(75));
}

fn features() -> BackendFeatures {
    BackendFeatures {
        native: false,
        oxide_parity: false,
        oxide: false,
    }
}

#[test]
fn legacy_and_full_identity_agree() {
    let full = "0123456789abcdef0123456789abcdef01234567";
    for (dirty_text, dirty) in [("false", false), ("true", true)] {
        let build = trainer_build(full, dirty_text, features());
        let legacy = build_commit(Some("0123456"), Some(dirty)).unwrap();
        let short = legacy.trim_end_matches("-dirty");
        assert!(build.commit.as_deref().unwrap().starts_with(short));
        assert_eq!(build.dirty, Some(dirty));
        assert_eq!(legacy.ends_with("-dirty"), dirty);
        assert!(experiment_commit(&build).unwrap().starts_with(full));
    }
    let build = trainer_build("unknown", "unknown", features());
    assert!(build.commit.is_none() && build.dirty.is_none());
    assert!(experiment_commit(&build).is_none());
    assert_eq!(build_commit(None, None), None);
}

#[test]
fn builds_name_their_backend() {
    let mut f = features();
    assert_eq!(trainer_build("c", "true", f).backend, "cpu-only");
    f.oxide = true;
    assert_eq!(trainer_build("c", "true", f).backend, "oxide");
    f.oxide_parity = true;
    assert_eq!(trainer_build("c", "true", f).backend, "oxide-parity");
    f.native = true;
    let build = trainer_build("c", "true", f);
    assert_eq!(build.backend, "native");
    assert_eq!(experiment_commit(&build).as_deref(), Some("c-dirty"));
    assert_eq!(runtime_backend(true), "native");
    assert_eq!(runtime_backend(false), "oxide");
    assert!(native_backend_requested(true, None));
    assert!(native_backend_requested(false, Some("native")));
    assert!(!native_backend_requested(false, Some("oxide")));
    assert!(!native_backend_requested(false, None));
}

#[test]
fn an_unpacked_tree_has_no_revision() {
    let some = |s: &str| Some(s.to_string());
    let id: GitIdentity = capture(true, some("abc"), some("a"), some(" M x"));
    assert_eq!(id.commit.as_deref(), Some("abc"));
    assert_eq!(id.short_commit.as_deref(), Some("a"));
    assert_eq!(id.dirty, Some(true));
    assert_eq!(capture(true, some("abc"), None, some("")).dirty, Some(false));
    assert_eq!(capture(true, some("abc"), None, None).dirty, None);
    for id in [
        capture(false, some("abc"), some("a"), some("")),
        capture(true, None, some("a"), some("")),
        capture(true, some(""), some("a"), some("")),
    ] {
        assert!(id.commit.is_none() && id.short_commit.is_none() && id.dirty.is_none());
    }
    assert_eq!(build_commit(Some(""), Some(true)), None);
    assert_eq!(build_commit(Some("a"), None).as_deref(), Some("a"));
}

#[test]
fn rerun_paths_watch_the_repository() {
    assert_eq!(
        rerun_paths("r", Some("r/.git/worktrees/w"), Some("r/.git")),
        [
            "r/.git",
            "r/.git/worktrees/w/HEAD",
            "r/.git/worktrees/w/index",
            "r/.git/refs",
            "r/.git/packed-refs"
        ]
    );
    assert_eq!(rerun_paths("r", None, None), ["r/.git"]);
    assert_eq!(join_path("", "a"), "a");
    assert_eq!(join_path("a/", "b"), "a/b");
}

#[test]
fn launches_cover_their_threads() {
    assert_eq!(grid_dim_1d(0), (0, 1, 1));
    assert_eq!(grid_dim_1d(1), (1, 1, 1));
    assert_eq!(grid_dim_1d(256), (1, 1, 1));
    assert_eq!(grid_dim_1d(257), (2, 1, 1));
    assert_eq!(grid_dim_1d(1 << 32), (0, 1, 1));
    assert_eq!(grid_dim_1d_of(0, 128), (1, 1, 1));
    assert_eq!(grid_dim_1d_of(1024, 256), (4, 1, 1));
    assert_eq!(grid_dim_1d_of(u32::MAX as usize, 1), (u32::MAX, 1, 1));
    assert_eq!(grid_dim_1d_of(1 << 32, 256), (1 << 24, 1, 1));
}

#[test]
fn buffers_grow_to_powers_of_two() {
    assert_eq!(initial_capacity(0, 80), Ok((1, 80)));
    assert_eq!(initial_capacity(4, 80), Ok((1024, 81_920)));
    assert_eq!(
        initial_capacity(usize::MAX, 80),
        Err(CapacityError::Input)
    );
    assert_eq!(
        initial_capacity(usize::MAX / 256, 80),
        Err(CapacityError::Index)
    );
    assert_eq!(grown_capacity(10, 16, 80), Ok(None));
    assert_eq!(grown_capacity(17, 16, 80), Ok(Some((32, 2560))));
    assert_eq!(grown_capacity(32, 16, 80), Ok(Some((32, 2560))));
    assert_eq!(grown_capacity(usize::MAX, 16, 80), Err(CapacityError::Input));
    assert_eq!(
        grown_capacity(usize::MAX / 2, 16, 80),
        Err(CapacityError::Index)
    );
    assert_eq!(
        CapacityError::Input.message(),
        "input buffer capacity overflow"
    );
}

#[test]
fn dense_launches_use_warps_for_wide_layers() {
    assert_eq!(qat_dense_threads(4, 255, 8), Some(32));
    assert_eq!(qat_dense_threads(4, 256, 8), Some(1024));
    assert_eq!(qat_dense_threads(1 << 20, 256, 1 << 7), None);
    assert_eq!(qat_dense_threads(usize::MAX, 1, 2), None);
    assert_eq!(
        qat_threads_message(),
        "dense QAT launch exceeds the supported u32 thread count"
    );
    let mut mode = QatMode::default();
    assert_eq!(configure_qat(&mut mode, None, false, true), Ok(()));
    assert_eq!(
        configure_qat(&mut mode, Some(QatMode::Dense), false, true),
        Err(QatError::Backend)
    );
    assert_eq!(mode.name(), "dense");
    assert_eq!(configure_qat(&mut mode, None, true, true), Err(QatError::Layers));
    assert_eq!(configure_qat(&mut mode, None, true, false), Ok(()));
    assert_eq!(configure_qat(&mut mode, Some(QatMode::Off), false, true), Ok(()));
    assert_eq!(mode.name(), "off");
}

#[test]
fn fixed_uniform_sample_is_unique_bounded_and_reproducible() {
    let a = sample_indices(10000, 1024, 20260913);
    assert_eq!(a, sample_indices(10000, 1024, 20260913));
    assert_ne!(a, sample_indices(10000, 1024, 1));
    assert_eq!(a.len(), 1024);
    assert!(a.windows(2).all(|w| w[0] < w[1]));
    assert!(a.iter().all(|&i| i < 10000));
    assert_eq!(sample_indices(3, 10, 0), vec![0, 1, 2]);
    assert!(sample_indices(1, 0, 0).is_empty());
}

#[test]
fn diagnostics_check_their_arguments() {
    assert_eq!(
        diagnostic_indices(3, &[1, 2], 10, 0).unwrap(),
        vec![0, 1, 2]
    );
    for (n, steps, count) in [
        (0, vec![1], 1),
        (3, vec![1], 0),
        (3, vec![1], 65_537),
        (3, vec![], 1),
        (3, vec![1, 0], 1),
    ] {
        assert_eq!(
            diagnostic_indices(n, &steps, count, 0),
            Err(DiagnosticError::Arguments)
        );
    }
    assert_eq!(
        diagnostic_indices(1 << 32, &[1], 1, 0),
        Err(DiagnosticError::TooMany)
    );
    assert!(DiagnosticError::Arguments.message().contains("65536"));
}

/// What is found of three numbers.
fn facts(old: f32, candidate: f32, stored: f32) -> StorageFacts {
    StorageFacts {
        finite: old.is_finite() && candidate.is_finite() && stored.is_finite(),
        candidate_zero: candidate == 0.0,
        above_limit: candidate > 65504.0,
        below_limit: candidate < -65504.0,
        changed: candidate != old,
        stored_zero: stored == 0.0,
        stored_old: stored == old,
        stored_tiny: stored.abs() < 2.0_f32.powi(-14),
    }
}

#[test]
fn storage_events_have_distinct_meaning() {
    let mut s = StorageStats::new();
    s.observe(facts(0.0, 0.0, 0.0), true, false);
    s.observe(facts(0.0, 1.0e-9, 0.0), true, false);
    s.observe(facts(1.0, 1.0001, 1.0), true, false);
    s.observe(facts(65504.0, 70000.0, 65504.0), true, false);
    s.observe(facts(0.0, f32::NAN, f32::NAN), true, false);
    assert_eq!((s.samples, s.finite, s.nonfinite), (5, 4, 1));
    assert_eq!(
        (s.input_zero, s.zeroed, s.capped, s.round_to_same),
        (1, 1, 1, 1)
    );
    assert_eq!(
        (s.input_nonzero, s.changed_candidate, s.stored_zero),
        (3, 3, 2)
    );
}

fn delta(before: f32, after: f32) -> DeltaFacts {
    DeltaFacts {
        finite: before.is_finite() && after.is_finite(),
        changed: before != after,
    }
}

fn record_facts(r: &[f32]) -> RecordFacts {
    RecordFacts {
        gradient_finite: r[8].is_finite(),
        gradient_zero: r[8] == 0.0,
        m: facts(r[0], r[1], r[2]),
        v: facts(r[3], r[4], r[5]),
        master_optimizer: delta(r[6], r[7]),
        master_norm_loss: delta(r[12], r[6]),
        master_end_of_step: delta(r[12], r[9]),
        forward_fp16: delta(r[10], r[11]),
    }
}

#[test]
fn row_groups_and_master_boundaries_are_separate() {
    let base = [
        0.0, 2.0, 2.0, 0.0, 3.0, 3.0, 4.0, 5.0, 0.0, 6.0, 7.0, 8.0, 3.0,
    ];
    let virtual_row = [
        0.0, 1.0, 1.0, 0.0, 2.0, 2.0, 2.0, 3.0, 1.0, 4.0, 99.0, 101.0, 1.0,
    ];
    let records = [record_facts(&base), record_facts(&virtual_row)];
    let (lower, upper) = summarize(&[1, 10], &records, 10, false, true);
    assert_eq!(lower.master_norm_loss.changed, 1);
    assert_eq!(lower.master_optimizer.changed, 1);
    assert_eq!(lower.master_end_of_step.changed, 1);
    assert_eq!(lower.forward_fp16.changed, 1);
    assert_eq!(upper.forward_fp16.samples, 0);
    assert_eq!(upper.optimizer_gradient_nonzero, 1);
    assert_eq!(lower.optimizer_gradient_nonzero, 0);
    assert_eq!((lower.sampled_elements, upper.sampled_elements), (1, 1));
    let (lower, _) = summarize(&[1, 10], &records, 10, false, false);
    assert_eq!(lower.forward_fp16.samples, 0);
}

#[test]
fn small_integers_have_exact_float_bits() {
    for v in (i16::MIN..=i16::MAX).step_by(7).chain([0, 1, -1, i16::MAX]) {
        assert_eq!(f32_bits(v), f32::from(v).to_bits(), "value {v}");
    }
    assert_eq!(outcome_bits(Wdl::Loss), 0.0_f32.to_bits());
    assert_eq!(outcome_bits(Wdl::Draw), 0.5_f32.to_bits());
    assert_eq!(outcome_bits(Wdl::Win), 1.0_f32.to_bits());
}

#[test]
fn digests_follow_the_training_data() {
    let spec = FeatureSetSpec {
        name: "x",
        max_active: 4,
    };
    let mut digest = LoaderDigest::start(80, 2).unwrap();
    let mut hasher = Sha256::new();
    for b in 0..2_i16 {
        assert!(digest.wants_batch());
        let mut batch = Batch::with_capacity(2, spec);
        for i in 0..2_i16 {
            let score = b * 100 - i;
            let result = [1_i8, 0][i as usize];
            let stm = vec![7, -9];
            let nstm = vec![1, 2];
            hasher.update(f32::from(score).to_le_bytes());
            hasher.update([1.0_f32, 0.5][i as usize].to_le_bytes());
            hasher.update(2_i32.to_le_bytes());
            for v in stm.iter().chain(&nstm) {
                hasher.update(i32::to_le_bytes(*v));
            }
            batch
                .push_decoded(&Position {
                    stm,
                    nstm,
                    score,
                    result,
                    bucket: 0,
                })
                .unwrap();
        }
        digest.add_batch(Some(&batch)).unwrap();
    }
    assert!(!digest.wants_batch());
    let expected: String = hasher
        .finalize()
        .iter()
        .map(|byte| format!("{byte:02x}"))
        .collect();
    assert_eq!(
        digest.finish(),
        format!("digest={expected} batches=2 positions=4")
    );
    assert_eq!(
        digest_line(&[0x0f, 0xa0], 1, 2),
        "digest=0fa0 batches=1 positions=2"
    );
    assert_eq!(
        sha256_hex(b"abc"),
        "ba7816bf8f01cfea414140de5dae2223b00361a396177a9cb410ff61f20015ad"
    );
}

#[test]
fn digest_runs_check_their_arguments() {
    let check = digest_feature_set;
    assert_eq!(check(false, 0, 0, "x"), Err(DigestError::NoData));
    assert_eq!(check(true, 0, 0, "x"), Err(DigestError::NoBatchSize));
    assert_eq!(check(true, 1, 0, "x"), Err(DigestError::NoBatches));
    let e = check(true, 1, 1, "x").unwrap_err();
    assert_eq!(e.message("d", "x"), "unknown feature set: x");
    assert_eq!(e.kind(), ErrorKind::Other);
    for set in [
        FeatureSet::HalfKp,
        FeatureSet::HalfKaSplit,
        FeatureSet::HalfKaMerged,
        FeatureSet::HalfKaHmSplit,
        FeatureSet::HalfKaHmMerged,
    ] {
        assert_eq!(check(true, 1, 1, set.canonical_name()), Ok(set));
    }
    assert_eq!(FeatureSet::HalfKaHmMerged.canonical_name(), "halfka-hm-merged");
    assert_eq!(FeatureSet::from_canonical_name("halfka"), None);
    let e = LoaderDigest::start(41, 1).unwrap_err();
    assert_eq!(e.kind(), ErrorKind::InvalidData);
    assert_eq!(
        e.message("d", "x"),
        "data file d size 41 is not a multiple of PSV record size (40 bytes)"
    );
    let mut digest = LoaderDigest::start(40, 1).unwrap();
    let e = digest.add_batch(None).unwrap_err();
    assert_eq!(
        e.message("d", "x"),
        "dataloader ended before the requested batch count"
    );
}

fn conditions(coeff: bool) -> RescoreConditions {
    RescoreConditions {
        tool_version: "0.3.0".to_string(),
        build_commit: "0123456".to_string(),
        run_id: 7,
        input_path: "/data/in.psv".to_string(),
        input_size: 400,
        input_mtime_ns: 1_700_000_000_123_456_789_000,
        input_records: 10,
        net_path: "/nets/n.bin".to_string(),
        net_size: 7,
        net_sha256: "ab".to_string(),
        weights_source: "resume-ckpt".to_string(),
        arch: "layerstack".to_string(),
        feature_set: "halfka-hm-merged".to_string(),
        bucket_mode: BucketMode::KingRank9,
        num_buckets: 9,
        progress_coeff: if coeff {
            Some(ProgressCoeff {
                path: "/c.bin".to_string(),
                sha256: "cd".to_string(),
            })
        } else {
            None
        },
        score_scale_bits: 600.0_f32.to_bits(),
        score_scale: "600".to_string(),
        score_clip: 30_000,
        batch_size: 16,
    }
}

#[test]
fn fingerprints_list_every_condition() {
    let text = Fingerprint::build(&conditions(false)).text();
    assert_eq!(
        text,
        "version=1\nmode=gpu-nnue-fp32\ntool_version=0.3.0\nbuild_commit=0123456\n\
         input_path=/data/in.psv\n\
         input_size=400\ninput_mtime_ns=1700000000123456789000\ninput_records=10\n\
         net_path=/nets/n.bin\nnet_size=7\nnet_sha256=ab\nweights_source=resume-ckpt\n\
         arch=layerstack\nfeature_set=halfka-hm-merged\nbucket_mode=kingrank9\nnum_buckets=9\n\
         score_scale_bits=0x44160000\nscore_scale=600\nscore_clip=30000\nbatch_size=16\n"
    );
    let with = Fingerprint::build(&conditions(true)).text();
    assert!(with.contains(
        "num_buckets=9\nprogress_coeff_path=/c.bin\nprogress_coeff_sha256=cd\nscore_scale_bits="
    ));
    assert_eq!(meta_json_path("o.i16"), "o.i16.meta.json");
}

#[test]
fn changed_and_unknown_builds_are_not_known() {
    assert!(is_known_build("0123456"));
    assert!(is_known_build("dirty"));
    assert!(is_known_build("0123456-dirt"));
    assert!(!is_known_build("0123456-dirty"));
    assert!(!is_known_build("-dirty"));
    assert!(!is_known_build("unknown"));
    assert_eq!(recorded_commit(None), "unknown");
    let changed = build_commit(Some("0123456"), Some(true));
    assert!(!is_known_build(&recorded_commit(changed)));
    let clean = build_commit(Some("0123456"), Some(false));
    assert_eq!(recorded_commit(clean), "0123456");
    assert!(!is_known_build(&recorded_commit(build_commit(None, None))));
}

#[test]
fn every_changed_condition_changes_the_marker() {
    let base = Fingerprint::build(&conditions(true)).text();
    // A known build does the same work in every run.
    let mut c = conditions(true);
    c.run_id = 8;
    assert_eq!(Fingerprint::build(&c).text(), base);
    let mut changed: Vec<RescoreConditions> = (0..20).map(|_| conditions(true)).collect();
    changed[0].tool_version.push('1');
    changed[1].build_commit = "0123457".to_string();
    changed[2].input_path.push('x');
    changed[3].input_size += 40;
    changed[4].input_mtime_ns += 1;
    changed[5].input_records += 1;
    changed[6].net_path.push('x');
    changed[7].net_size += 1;
    changed[8].net_sha256 = "ac".to_string();
    changed[9].weights_source = "init-from-bin".to_string();
    changed[10].arch.push('x');
    changed[11].feature_set = "halfkp".to_string();
    changed[12].bucket_mode = BucketMode::Progress8KpAbs;
    changed[13].num_buckets = 8;
    changed[14].progress_coeff = None;
    changed[15].score_scale_bits += 1;
    changed[16].score_scale = "601".to_string();
    changed[17].score_clip = -30_000;
    changed[18].batch_size = 17;
    changed[19].build_commit = "unknown".to_string();
    let mut texts: Vec<String> = changed.iter().map(|c| Fingerprint::build(c).text()).collect();
    texts.push(base);
    texts.sort();
    texts.dedup();
    assert_eq!(texts.len(), 21);
}

#[test]
fn unknown_builds_name_their_run() {
    for commit in ["unknown", "0123456-dirty"] {
        let mut c = conditions(false);
        c.build_commit = commit.to_string();
        c.run_id = u128::MAX;
        let first = Fingerprint::build(&c).text();
        assert!(first.contains(&format!("\nbuild_commit={commit}\n")));
        assert!(first.ends_with(
            "batch_size=16\nrun_id=340282366920938463463374607431768211455\n"
        ));
        c.run_id = 0;
        let second = Fingerprint::build(&c).text();
        assert!(second.ends_with("batch_size=16\nrun_id=0\n"));
        assert_ne!(first, second);
    }
}

#[test]
fn what_an_unknown_build_wrote_is_not_taken_up() {
    let scored = |done: Option<String>, in_progress: Option<String>, text: &str| {
        let files = SidecarFiles {
            done,
            in_progress,
            sidecar_size: Some(20),
        };
        match ScoreSidecarWriter::open(&files, "o.i16", 10, text).1 {
            Ok(SidecarOpen::Complete) => 10,
            Ok(SidecarOpen::Writer { resume_records, .. }) => resume_records,
            Err(e) => panic!("{}", e.message),
        }
    };
    for (commit, kept) in [("0123456", 10), ("0123456-dirty", 0), ("unknown", 0)] {
        let mut c = conditions(false);
        c.build_commit = commit.to_string();
        let earlier = Fingerprint::build(&c).text();
        c.run_id += 1;
        let now = Fingerprint::build(&c).text();
        assert_eq!(scored(Some(earlier.clone()), None, &now), kept);
        assert_eq!(scored(None, Some(earlier), &now), kept);
    }
}

#[test]
fn numbers_are_cut_at_the_limits_of_half_precision() {
    let mut f = StorageFacts {
        finite: true,
        candidate_zero: false,
        above_limit: true,
        below_limit: false,
        changed: true,
        stored_zero: false,
        stored_old: false,
        stored_tiny: false,
    };
    assert!(f.is_cut(true, false));
    assert!(f.is_cut(true, true));
    assert!(!f.is_cut(false, false));
    f.above_limit = false;
    f.below_limit = true;
    assert!(f.is_cut(true, false));
    assert!(!f.is_cut(true, true));
    f.below_limit = false;
    assert!(!f.is_cut(true, false));
}

#[test]
fn metadata_holds_the_conditions() {
    let f = Fingerprint::build(&conditions(true));
    let text = f.meta_text("resume-ckpt").unwrap();
    let value: serde_json::Value = serde_json::from_str(&text).unwrap();
    let object = value.as_object().unwrap();
    assert_eq!(object.len(), 3 + 22);
    assert_eq!(object["format"], "i16-le-score-sidecar");
    assert_eq!(object["label_kind"], "fp32_master");
    assert_eq!(
        object["score_formula"],
        "score[i] = clamp(round(net_output[i] * score_scale), -score_clip, score_clip)"
    );
    for line in f.text().lines() {
        let (key, v) = line.split_once('=').unwrap();
        assert_eq!(object[key], v);
    }
    assert!(text.starts_with("{\n  \"arch\": \"layerstack\",\n"));
    let other = f.meta_json("init-from-bin");
    assert_eq!(other["label_kind"], "fp32_dequantised");
    assert_eq!(
        MetaError.message(),
        "failed to print the sidecar metadata"
    );
}

#[test]
fn metadata_prints_any_text() {
    for path in ["", "a\"b\\c", "tab\there\nline\u{0}\u{1f}\u{7f}", "棋譜/\u{10ffff}"] {
        let mut c = conditions(false);
        c.input_path = path.to_string();
        let text = Fingerprint::build(&c).meta_text("").unwrap();
        let value: serde_json::Value = serde_json::from_str(&text).unwrap();
        assert_eq!(value["input_path"], path);
        assert_eq!(value["label_kind"], "fp32_dequantised");
    }
}

#[test]
fn toolkits_are_looked_for_in_order() {
    let roots = cuda_root_candidates(&vec![Some("/a".to_string()), None, Some("/b".to_string())]);
    assert_eq!(
        roots,
        [
            "/a",
            "/b",
            "/usr/local/cuda",
            "/usr/local/cuda-13.2",
            "/usr/local/cuda-12.9",
            "/opt/cuda"
        ]
    );
    assert_eq!(
        libdevice_path("/a"),
        "/a/nvvm/libdevice/libdevice.10.bc"
    );
    assert_eq!(cuda_lib_dir("/a", false), "/a/lib64");
    assert_eq!(cuda_lib_dir("/a", true), "/a/lib/x64");
    assert_eq!(fallback_lib_dir(None, false), "/usr/local/cuda/lib64");
    let set = Some("D:/cuda".to_string());
    assert_eq!(fallback_lib_dir(set.clone(), false), "/usr/local/cuda/lib64");
    assert_eq!(fallback_lib_dir(set, true), "D:/cuda/lib/x64");
    assert_eq!(
        fallback_lib_dir(None, true),
        "C:\\Program Files\\NVIDIA GPU Computing Toolkit\\CUDA/lib/x64"
    );
    assert_eq!(
        kernel_candidates("m", "w", "k"),
        ["m/k.ll", "m/k.cubin", "m/k.ptx", "w/k.ll", "w/k.cubin", "w/k.ptx"]
    );
    assert_eq!(first_existing(&[false, true, true]), Some(1));
    assert_eq!(first_existing(&[false]), None);
}

#[test]
fn kernels_are_linked_reduced_and_compiled() {
    let tools = Toolchain {
        llvm_link: "llvm-link-21".to_string(),
        opt: "opt-21".to_string(),
        llc: "llc-21".to_string(),
        arch: "sm_75".to_string(),
        libdevice: "lib.bc".to_string(),
        kernel_names: "screlu_grad".to_string(),
    };
    let commands = compile_ll_to_ptx(&tools, "d/k.ll", "d", "k");
    let lines: Vec<String> = commands
        .iter()
        .map(|c| format!("{} {}", c.program, c.args.join(" ")))
        .collect();
    assert_eq!(
        lines,
        [
            "llvm-link-21 d/k.ll lib.bc -o d/k.linked.bc",
            "opt-21 --passes=nvvm-reflect,internalize,globaldce \
             --internalize-public-api-list=screlu_grad d/k.linked.bc -o d/k.opt.bc",
            "llc-21 --mtriple=nvptx64-nvidia-cuda --mcpu=sm_75 -O2 -o d/k.ptx d/k.opt.bc",
        ]
    );
    assert_eq!(ptx_path("d", "k"), "d/k.ptx");
    assert!(needs_build(Some(5), Some(5)));
    assert!(needs_build(Some(5), None));
    assert!(needs_build(None, Some(5)));
    assert!(!needs_build(Some(5), Some(6)));
}

#[test]
fn modules_come_from_the_backend_asked_for() {
    assert_eq!(
        module_source(true, true, true),
        Ok(ModuleSource::NativeImage)
    );
    assert_eq!(module_source(true, true, false), Ok(ModuleSource::File));
    let e = module_source(false, true, true).unwrap_err();
    assert_eq!(e, ModuleError::NativeMissing);
    assert!(e.message("k").contains("--features native-cuda"));
    let e = module_source(true, false, false).unwrap_err();
    assert_eq!(e.message("k"), "native CUDA module `k` was not selected");
}

fn candidate(path: &str, is_file: bool) -> Candidate {
    Candidate {
        path: path.to_string(),
        is_file,
    }
}

#[test]
fn nvcc_is_looked_for_in_order() {
    let roots = vec![candidate("/a/bin/nvcc", false), candidate("/b/bin/nvcc", true)];
    let none = vec![candidate("/a/bin/nvcc", false)];
    let usual = candidate("/usr/local/cuda/bin/nvcc", true);
    let missing = candidate("/usr/local/cuda/bin/nvcc", false);
    let versioned = vec![
        candidate("/usr/local/cuda-11/bin/nvcc", true),
        candidate("/usr/local/cuda-12/bin/nvcc", true),
        candidate("/usr/local/cuda-13/bin/nvcc", false),
    ];
    let named = Some("/not/there".to_string());
    assert_eq!(find_nvcc(named, "nvcc", &roots, true, &usual, &versioned), "/not/there");
    assert_eq!(find_nvcc(None, "nvcc", &roots, true, &usual, &versioned), "/b/bin/nvcc");
    assert_eq!(
        find_nvcc(None, "nvcc", &none, true, &usual, &versioned),
        "/usr/local/cuda/bin/nvcc"
    );
    assert_eq!(
        find_nvcc(None, "nvcc", &none, true, &missing, &versioned),
        "/usr/local/cuda-12/bin/nvcc"
    );
    assert_eq!(find_nvcc(None, "nvcc", &none, true, &missing, &vec![]), "nvcc");
    assert_eq!(find_nvcc(None, "nvcc.exe", &none, false, &usual, &versioned), "nvcc.exe");
}

#[test]
fn fatbin_is_compiled_for_a_numeric_capability() {
    assert!(is_compute_target("75"));
    assert!(is_compute_target("120"));
    for bad in ["", "7.5", "sm_75", "75a"] {
        assert!(!is_compute_target(bad));
        assert!(fatbin_command("nvcc", bad, "out").is_none());
    }
    let command = fatbin_command("nvcc", "75", "out.fatbin").unwrap();
    assert_eq!(command.program, "nvcc");
    assert_eq!(
        command.args,
        vec![
            "--fatbin",
            "--std=c++17",
            "-O3",
            "--generate-code",
            "arch=compute_75,code=compute_75",
            "kernels/native_kernels.cu",
            "-o",
            "out.fatbin",
        ]
    );
}

#[test]
fn cublas_is_recognised_by_its_files() {
    assert_eq!(cublas_files("/l", true), vec!["/l/cublas.lib"]);
    assert_eq!(cublas_files("/l", false), vec!["/l/libcublas.so", "/l/libcublas.so.12"]);
}
