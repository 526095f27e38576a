use tatara::attacks::{attacks_with_king, Occupied};
use tatara::board::{Color, Piece, PieceType, ShogiBoard, Square};
use tatara::board_phase::{
    extract_halfka_hm_board_phase, spec_is_halfka_hm_merged, BoardPhaseArgs, BoardPhaseDispatch,
    CpuFeatures, PerspectiveOffset,
};
use tatara::bona::{
    decode_board_square_fb, halfka_index, king_bonapiece, mirrored_sq, pack_bonapiece,
    BonaPieceLayout, E_KING, FE_OLD_END, F_KING, PIECE_INPUTS,
};
use tatara::e4::{
    collect_e4_features_board, e4_attacker_counts, e4_bucket, e4_index, packed_is_bucketed,
    E4Config, PerspectiveCtx,
};
use tatara::feature_set::FeatureSet;
use tatara::progress_kpabs::{
    ProgressSizeError, ShogiProgressKPAbs, SHOGI_PROGRESS8_NUM_BUCKETS,
    SHOGI_PROGRESS_KP_ABS_NUM_WEIGHTS,
};
use tatara::psqt_material::{
    build_packed_bp_material_table, psqt_material_values, BISHOP, DRAGON, GOLD, HORSE, KNIGHT,
    LANCE, PAWN, ROOK, SILVER,
};

const F_HAND_PAWN: usize = 1;
const F_HAND_ROOK: usize = 85;
const F_PAWN: usize = 90;
const E_PAWN: usize = 171;
const F_GOLD: usize = 738;
const E_GOLD: usize = 819;
const F_DRAGON: usize = 1386;
const E_DRAGON: usize = 1467;

/// The usual numbering, other pieces before own ones in each pair.
fn layout() -> BonaPieceLayout {
    BonaPieceLayout {
        hand_base: [20, 1, 44, 39, 54, 49, 64, 59, 74, 69, 82, 79, 88, 85],
        piece_base: [
            171, 90, 333, 252, 495, 414, 657, 576, 819, 738, 981, 900, 1143, 1062, 1305, 1224,
            1467, 1386,
        ],
    }
}

/// King bucket and mirroring of the half-mirrored layout.
fn ctx(sq: Square, perspective: Color) -> PerspectiveCtx {
    let i = match perspective {
        Color::Black => sq.index(),
        Color::White => sq.inverse().index(),
    };
    let mirror = i / 9 >= 5;
    let i = if mirror { mirrored_sq(i) } else { i };
    PerspectiveCtx {
        king_bucket: i,
        hm_mirror: mirror,
    }
}

fn board_with_kings(
    black_king: Square,
    white_king: Square,
    pieces: &[(Color, PieceType, Square)],
) -> ShogiBoard {
    let mut board = ShogiBoard::empty();
    board.black_king_sq = black_king;
    board.white_king_sq = white_king;
    board.board[black_king.index()] = Piece::new(Color::Black, PieceType::King);
    board.board[white_king.index()] = Piece::new(Color::White, PieceType::King);
    for &(color, pt, sq) in pieces {
        board.board[sq.index()] = Piece::new(color, pt);
    }
    board
}

#[test]
fn dimensions_match_config() {
    assert_eq!(E4Config::e4_2x2_kingfixed().dimensions(), 73_305 * 4);
    assert_eq!(E4Config::kpe9_kingfixed().dimensions(), 73_305 * 9);
}

#[test]
fn bucketed_predicate_domains() {
    assert!(!packed_is_bucketed(0, true));
    assert!(!packed_is_bucketed(89, true));
    assert!(packed_is_bucketed(90, false));
    assert!(packed_is_bucketed(1547, false));
    assert!(!packed_is_bucketed(1548, false));
    assert!(packed_is_bucketed(1548, true));
}

#[test]
fn bucket_quantization() {
    assert_eq!(e4_bucket(0, 0, 4), 0);
    assert_eq!(e4_bucket(1, 0, 4), 1);
    assert_eq!(e4_bucket(0, 1, 4), 2);
    assert_eq!(e4_bucket(4, 3, 4), 3);
    assert_eq!(e4_bucket(2, 0, 9), 2);
    assert_eq!(e4_bucket(0, 2, 9), 6);
    assert_eq!(e4_bucket(4, 3, 9), 8);
    assert_eq!(e4_index(10, 3, 4), 43);
}

/// The features without attack buckets, in the order of the board.
fn base_features(board: &ShogiBoard, perspective: Color) -> Vec<usize> {
    let layout = layout();
    let c = ctx(board.king_square(perspective), perspective);
    let mut out = Vec::new();
    let mut push = |bp: usize| out.push(halfka_index(c.king_bucket, pack_bonapiece(bp, c.hm_mirror)));
    for i in 0..81 {
        let sq = Square(i);
        let piece = board.piece_on(sq);
        if piece.is_some() && piece.piece_type != PieceType::King {
            push(layout.from_piece_square(piece, sq, perspective));
        }
    }
    for (color, friend) in [(perspective, true), (perspective.opponent(), false)] {
        let sq = board.king_square(color);
        let i = match perspective {
            Color::Black => sq.index(),
            Color::White => sq.inverse().index(),
        };
        push(king_bonapiece(i, friend));
    }
    for owner in [Color::Black, Color::White] {
        for pt in tatara::board::HAND_PIECE_TYPES {
            for i in 1..=board.hand(owner).count(pt) {
                push(layout.from_hand_piece(perspective, owner, pt, i));
            }
        }
    }
    out
}

#[test]
fn e4_active_divides_back_to_base_set() {
    let mut board = board_with_kings(
        Square::new(4, 8),
        Square::new(4, 0),
        &[
            (Color::Black, PieceType::Pawn, Square::new(4, 6)),
            (Color::White, PieceType::Pawn, Square::new(4, 2)),
            (Color::Black, PieceType::Rook, Square::new(1, 7)),
            (Color::White, PieceType::Bishop, Square::new(7, 1)),
        ],
    );
    board.black_hand.counts[4] += 1;
    for config in [
        E4Config::e4_2x2_kingfixed(),
        E4Config::e4_2x2_kingbucketed(),
        E4Config::kpe9_kingfixed(),
        E4Config::kpe9_kingbucketed(),
    ] {
        for perspective in [Color::Black, Color::White] {
            let base = base_features(&board, perspective);
            let c = ctx(board.king_square(perspective), perspective);
            let e4 = collect_e4_features_board(&layout(), &c, &board, config, perspective);
            let recovered: Vec<usize> = e4.iter().map(|idx| idx / config.nb).collect();
            assert_eq!(recovered, base);
            assert_eq!(e4.len(), 4 + 2 + 1);
        }
    }
}

#[test]
fn features_do_not_depend_on_the_turn() {
    let board = board_with_kings(
        Square::new(4, 8),
        Square::new(4, 0),
        &[(Color::White, PieceType::Rook, Square::new(1, 7))],
    );
    let mut turned = board_with_kings(
        Square::new(4, 8),
        Square::new(4, 0),
        &[(Color::White, PieceType::Rook, Square::new(1, 7))],
    );
    turned.side_to_move = Color::White;
    let c = ctx(Square::new(4, 8), Color::Black);
    let config = E4Config::kpe9_kingbucketed();
    assert_eq!(
        collect_e4_features_board(&layout(), &c, &board, config, Color::Black),
        collect_e4_features_board(&layout(), &c, &turned, config, Color::Black)
    );
}

#[test]
fn king_attacks_are_counted_for_adjacent_piece_bucket() {
    let board = board_with_kings(
        Square::new(4, 8),
        Square::new(4, 0),
        &[(Color::Black, PieceType::Gold, Square::new(4, 7))],
    );
    let counts = e4_attacker_counts(&board);
    let gold_sq = Square::new(4, 7);
    assert_eq!(counts.get(Color::Black, gold_sq), 1);
    let c = ctx(Square::new(4, 8), Color::Black);
    let indices = collect_e4_features_board(
        &layout(),
        &c,
        &board,
        E4Config::e4_2x2_kingfixed(),
        Color::Black,
    );
    assert!(
        indices.iter().any(|idx| idx % 4 == 2 || idx % 4 == 3),
        "black king defense must affect at least one adjacent bucketed feature"
    );
}

#[test]
fn a_position_without_kings_has_no_features() {
    let board = ShogiBoard::empty();
    let c = PerspectiveCtx {
        king_bucket: 0,
        hm_mirror: false,
    };
    let e4 = collect_e4_features_board(
        &layout(),
        &c,
        &board,
        E4Config::kpe9_kingbucketed(),
        Color::Black,
    );
    assert!(e4.is_empty());
    let mut out = vec![1];
    ShogiProgressKPAbs::collect_active_indices(&layout(), &board, &mut out);
    assert!(out.is_empty());
}

fn targets(pt: PieceType, color: Color, from: Square, board: &ShogiBoard) -> Vec<(u8, u8)> {
    let occ = Occupied::from_board(board);
    let mut out: Vec<(u8, u8)> = attacks_with_king(pt, color, from, &occ)
        .iter()
        .map(|sq| (sq.file(), sq.rank()))
        .collect();
    out.sort_unstable();
    out
}

#[test]
fn pieces_attack_by_their_moves() {
    let empty = ShogiBoard::empty();
    let c = Square::new(4, 4);
    assert_eq!(targets(PieceType::Pawn, Color::Black, c, &empty), [(4, 3)]);
    assert_eq!(targets(PieceType::Pawn, Color::White, c, &empty), [(4, 5)]);
    assert_eq!(
        targets(PieceType::Knight, Color::Black, c, &empty),
        [(3, 2), (5, 2)]
    );
    assert_eq!(
        targets(PieceType::Silver, Color::Black, c, &empty),
        [(3, 3), (3, 5), (4, 3), (5, 3), (5, 5)]
    );
    let gold = [(3, 3), (3, 4), (4, 3), (4, 5), (5, 3), (5, 4)];
    for pt in [
        PieceType::Gold,
        PieceType::ProPawn,
        PieceType::ProLance,
        PieceType::ProKnight,
        PieceType::ProSilver,
    ] {
        assert_eq!(targets(pt, Color::Black, c, &empty), gold);
    }
    assert_eq!(targets(PieceType::King, Color::White, c, &empty).len(), 8);
    assert_eq!(targets(PieceType::Bishop, Color::Black, c, &empty).len(), 16);
    assert_eq!(targets(PieceType::Rook, Color::Black, c, &empty).len(), 16);
    assert_eq!(targets(PieceType::Horse, Color::Black, c, &empty).len(), 20);
    assert_eq!(targets(PieceType::Dragon, Color::Black, c, &empty).len(), 20);
    assert!(targets(PieceType::Empty, Color::Black, c, &empty).is_empty());
    // At the edge.
    assert!(targets(PieceType::Pawn, Color::Black, Square::new(0, 0), &empty).is_empty());
    assert_eq!(
        targets(PieceType::King, Color::Black, Square::new(0, 0), &empty),
        [(0, 1), (1, 0), (1, 1)]
    );
}

#[test]
fn attacks_come_move_by_move_and_outward() {
    let listed = |pt, color, board: &ShogiBoard| -> Vec<(u8, u8)> {
        attacks_with_king(pt, color, Square::new(4, 4), &Occupied::from_board(board))
            .iter()
            .map(|sq| (sq.file(), sq.rank()))
            .collect()
    };
    let mut board = ShogiBoard::empty();
    assert_eq!(
        listed(PieceType::Silver, Color::White, &board),
        [(3, 5), (4, 5), (5, 5), (3, 3), (5, 3)]
    );
    assert_eq!(
        listed(PieceType::Lance, Color::Black, &board),
        [(4, 3), (4, 2), (4, 1), (4, 0)]
    );
    board.board[Square::new(2, 4).index()] = Piece::new(Color::White, PieceType::Pawn);
    board.board[Square::new(4, 6).index()] = Piece::new(Color::Black, PieceType::Gold);
    assert_eq!(
        listed(PieceType::Rook, Color::Black, &board),
        [
            (3, 4), (2, 4), // towards the first file, up to the pawn
            (5, 4), (6, 4), (7, 4), (8, 4),
            (4, 3), (4, 2), (4, 1), (4, 0),
            (4, 5), (4, 6), // down to the gold
        ]
    );
}

#[test]
fn sliders_stop_at_the_first_piece() {
    let mut board = ShogiBoard::empty();
    board.board[Square::new(4, 2).index()] = Piece::new(Color::Black, PieceType::Pawn);
    board.board[Square::new(7, 7).index()] = Piece::new(Color::White, PieceType::Pawn);
    assert_eq!(
        targets(PieceType::Lance, Color::Black, Square::new(4, 5), &board),
        [(4, 2), (4, 3), (4, 4)]
    );
    let bishop = targets(PieceType::Bishop, Color::White, Square::new(5, 5), &board);
    assert!(bishop.contains(&(7, 7)));
    assert!(!bishop.contains(&(8, 8)));
    // A square in the second word of the occupied set.
    let counts = e4_attacker_counts(&board);
    assert_eq!(counts.get(Color::White, Square::new(7, 8)), 1);
    assert_eq!(counts.get(Color::Black, Square::new(7, 8)), 0);
    assert_eq!(counts.get(Color::Black, Square::new(4, 1)), 1);
}

#[test]
fn material_constants_pinned() {
    assert_eq!(f64::from(PAWN), 100.0);
    assert_eq!(f64::from(LANCE), 300.0);
    assert_eq!(f64::from(KNIGHT), 320.0);
    assert_eq!(f64::from(SILVER), 500.0);
    assert_eq!(f64::from(GOLD), 550.0);
    assert_eq!(f64::from(BISHOP), 850.0);
    assert_eq!(f64::from(ROOK), 1000.0);
    assert!((f64::from(HORSE) - 1020.0).abs() < 1e-3);
    assert!((f64::from(DRAGON) - 1200.0).abs() < 1e-3);
}

#[test]
fn packed_table_friend_signs_halfka_merged() {
    let t = build_packed_bp_material_table(&layout(), PIECE_INPUTS);
    assert_eq!(t[F_PAWN], 100);
    assert_eq!(t[F_PAWN + 80], 100);
    assert_eq!(t[E_PAWN], -100);
    assert_eq!(t[F_GOLD], 550);
    assert_eq!(t[E_GOLD + 80], -550);
    assert_eq!(t[F_DRAGON], 1200);
    assert_eq!(t[E_DRAGON], -1200);
    assert_eq!(t[0], 0);
}

#[test]
fn packed_table_king_plane_is_zero() {
    let t = build_packed_bp_material_table(&layout(), PIECE_INPUTS);
    for (i, &v) in t.iter().enumerate().take(PIECE_INPUTS).skip(F_KING) {
        assert_eq!(v, 0, "king slot {i} must be 0");
    }
    let t = build_packed_bp_material_table(&layout(), 1710);
    for (i, &v) in t.iter().enumerate().take(1710).skip(F_KING) {
        assert_eq!(v, 0, "split king slot {i} must be 0");
    }
}

#[test]
fn packed_table_halfkp_no_king_plane() {
    let t = build_packed_bp_material_table(&layout(), FE_OLD_END);
    assert_eq!(t.len(), FE_OLD_END);
    assert_eq!(t[F_PAWN], 100);
    assert_eq!(t[E_DRAGON + 80], -1200);
    assert_eq!(E_DRAGON + 80 + 1, FE_OLD_END);
}

const ALL: [(FeatureSet, usize); 5] = [
    (FeatureSet::HalfKp, 81),
    (FeatureSet::HalfKaSplit, 81),
    (FeatureSet::HalfKaMerged, 81),
    (FeatureSet::HalfKaHmSplit, 45),
    (FeatureSet::HalfKaHmMerged, 45),
];

const NB: usize = 9;

#[test]
fn psqt_material_values_shape_all_feature_sets() {
    for (fs, king_buckets) in ALL {
        let pi = fs.piece_inputs();
        let v = psqt_material_values(&layout(), pi, king_buckets, NB);
        assert_eq!(v.len(), NB * king_buckets * pi);
    }
    assert_eq!(45 * FeatureSet::HalfKaHmMerged.piece_inputs(), 73_305);
}

#[test]
fn psqt_material_values_uniform_across_buckets_all_feature_sets() {
    for (fs, king_buckets) in ALL {
        let pi = fs.piece_inputs();
        let v = psqt_material_values(&layout(), pi, king_buckets, NB);
        for feat in [0, 100, 1000, 5000, king_buckets * pi - 1] {
            for b in 1..NB {
                assert_eq!(v[feat * NB + b], v[feat * NB]);
            }
        }
    }
}

#[test]
fn psqt_material_values_specific_features_halfka_hm_merged() {
    let scaling = 600.0_f32;
    let v = psqt_material_values(&layout(), PIECE_INPUTS, 45, NB);
    let at = |kb: usize, bp: usize| v[(kb * PIECE_INPUTS + bp) * NB] as f32 / scaling;
    assert_eq!(at(0, F_PAWN), 100.0 / scaling);
    assert!((at(3, E_DRAGON) - (-2.0)).abs() < 1e-5);
    assert_eq!(at(10, F_HAND_PAWN + 5), 100.0 / scaling);
    assert_eq!(at(20, F_KING), 0.0);
}

#[test]
fn psqt_material_values_hardcoded_probes_all_feature_sets() {
    for (fs, king_buckets) in ALL {
        let pi = fs.piece_inputs();
        let v = psqt_material_values(&layout(), pi, king_buckets, NB);
        assert_eq!(v[F_HAND_PAWN * NB], 100);
        assert_eq!(v[F_PAWN * NB], 100);
        assert_eq!(v[F_HAND_ROOK * NB], 1000);
        assert_eq!(v[(E_DRAGON + 80) * NB], -1200);
        assert_eq!(v[((king_buckets - 1) * pi + F_PAWN) * NB], 100);
    }
}

#[test]
fn psqt_material_values_halfkp_pawn_and_dragon() {
    let pi = FeatureSet::HalfKp.piece_inputs();
    assert_eq!(pi, FE_OLD_END);
    let v = psqt_material_values(&layout(), pi, 81, NB);
    assert_eq!(v[F_PAWN * NB], 100);
    assert_eq!(v[(40 * pi + E_DRAGON) * NB], -1200);
}

#[test]
fn psqt_material_values_split_king_planes_zero() {
    for fs in [FeatureSet::HalfKaSplit, FeatureSet::HalfKaHmSplit] {
        let pi = fs.piece_inputs();
        assert_eq!(pi, 1710);
        let v = psqt_material_values(&layout(), pi, 45, NB);
        assert_eq!(v[F_PAWN * NB], 100);
        for bp in FE_OLD_END..pi {
            assert_eq!(v[bp * NB], 0);
        }
    }
}

#[test]
fn dispatch_selects_simd_on_x86_64() {
    for avx512f in [false, true] {
        let detected = BoardPhaseDispatch::detect(CpuFeatures { avx2: true, avx512f });
        assert!(!matches!(detected, BoardPhaseDispatch::Scalar));
    }
    let detect = |avx2, avx512f| BoardPhaseDispatch::detect(CpuFeatures { avx2, avx512f });
    assert_eq!(detect(false, false), BoardPhaseDispatch::Scalar);
    assert_eq!(detect(true, false), BoardPhaseDispatch::Avx2);
    assert_eq!(detect(true, true), BoardPhaseDispatch::Avx512);
    assert_eq!(detect(false, true), BoardPhaseDispatch::Avx512);
    assert!(spec_is_halfka_hm_merged(FeatureSet::HalfKaHmMerged));
    assert!(!spec_is_halfka_hm_merged(FeatureSet::HalfKaMerged));
}

#[test]
fn mirrored_sq_corners_swap() {
    assert_eq!(mirrored_sq(0), 72);
    assert_eq!(mirrored_sq(72), 0);
    assert_eq!(mirrored_sq(40), 40);
    assert_eq!(mirrored_sq(8), 80);
}

#[test]
fn mirrored_sq_is_involution() {
    for i in 0..81 {
        assert_eq!(mirrored_sq(mirrored_sq(i)), i);
    }
}

/// The kinds in the order of their codes, with the plane of each.
const PLANES: [Option<usize>; 15] = [
    None,
    Some(0),
    Some(1),
    Some(2),
    Some(3),
    Some(5),
    Some(7),
    Some(4),
    None,
    Some(4),
    Some(4),
    Some(4),
    Some(4),
    Some(6),
    Some(8),
];

fn piece_base() -> [i32; 30] {
    let layout = layout();
    let mut t = [0_i32; 30];
    for (pt, plane) in PLANES.iter().enumerate() {
        if let Some(p) = plane {
            t[pt * 2] = i32::from(layout.piece_base[2 * p]);
            t[pt * 2 + 1] = i32::from(layout.piece_base[2 * p + 1]);
        }
    }
    t
}

#[test]
fn piece_base_flat_pawn_matches() {
    assert_eq!(piece_base()[3] as usize, F_PAWN);
    assert_eq!(piece_base()[2] as usize, E_PAWN);
}

#[test]
fn piece_base_flat_dragon_matches() {
    assert_eq!(piece_base()[29] as usize, F_DRAGON);
}

fn code(pt: PieceType) -> i32 {
    match pt {
        PieceType::Pawn => 1,
        PieceType::Bishop => 5,
        PieceType::Rook => 6,
        _ => 0,
    }
}

#[test]
fn board_phase_paths_match_at_lane_boundaries() {
    let mut pieces = Vec::new();
    for file in 0..9 {
        pieces.push((Color::Black, PieceType::Pawn, Square::new(file, 6)));
        pieces.push((Color::White, PieceType::Pawn, Square::new(file, 2)));
    }
    pieces.push((Color::Black, PieceType::Bishop, Square::new(1, 7)));
    pieces.push((Color::Black, PieceType::Rook, Square::new(7, 7)));
    pieces.push((Color::White, PieceType::Bishop, Square::new(1, 1)));
    pieces.push((Color::White, PieceType::Rook, Square::new(7, 1)));
    let layout = layout();
    let base = piece_base();
    // Kings on both sides of the mirror.
    for (bk, wk) in [(Square::new(4, 8), Square::new(4, 0)), (Square::new(8, 8), Square::new(2, 0))] {
        let side = |color: Color, king: Square| {
            let c = ctx(king, color);
            PerspectiveOffset {
                kb_offset: (c.king_bucket * PIECE_INPUTS) as i32,
                mirror: c.hm_mirror,
                black_persp: i32::from(color == Color::Black),
                color_code: i32::from(color == Color::White),
            }
        };
        for (stm, nstm) in [
            (side(Color::Black, bk), side(Color::White, wk)),
            (side(Color::White, wk), side(Color::Black, bk)),
        ] {
            let pt: Vec<i32> = pieces.iter().map(|p| code(p.1)).collect();
            let color: Vec<i32> = pieces.iter().map(|p| i32::from(p.0 == Color::White)).collect();
            let sq: Vec<i32> = pieces.iter().map(|p| i32::from(p.2 .0)).collect();
            for n in [0, 1, 7, 8, 9, 15, 16, 17, pieces.len()] {
                let args = BoardPhaseArgs {
                    piece_base: &base,
                    pt: &pt,
                    color: &color,
                    sq: &sq,
                    n,
                    stm,
                    nstm,
                };
                let mut stm_out = vec![-7; pieces.len()];
                let mut nstm_out = vec![-7; pieces.len()];
                extract_halfka_hm_board_phase(&args, &mut stm_out, &mut nstm_out);
                for (i, &(c, kind, square)) in pieces.iter().enumerate() {
                    if i >= n {
                        assert_eq!((stm_out[i], nstm_out[i]), (-7, -7));
                        continue;
                    }
                    for (out, side) in [(&stm_out, stm), (&nstm_out, nstm)] {
                        let persp = if side.black_persp == 1 { Color::Black } else { Color::White };
                        let bp = layout.from_piece_square(Piece::new(c, kind), square, persp);
                        let expected =
                            side.kb_offset + pack_bonapiece(bp, side.mirror) as i32;
                        assert_eq!(out[i], expected, "piece {i} of {n}");
                    }
                }
            }
        }
    }
}

#[test]
fn numbers_give_back_their_squares() {
    let layout = layout();
    let pawn = Piece::new(Color::Black, PieceType::Pawn);
    let sq = Square::new(2, 3);
    let bp = layout.from_piece_square(pawn, sq, Color::Black);
    assert_eq!(bp, F_PAWN + 21);
    assert_eq!(decode_board_square_fb(bp), Some(sq));
    let bp = layout.from_piece_square(pawn, sq, Color::White);
    assert_eq!(bp, E_PAWN + 80 - 21);
    assert_eq!(decode_board_square_fb(F_KING + 5), Some(Square(5)));
    assert_eq!(decode_board_square_fb(E_KING + 5), Some(Square(5)));
    assert_eq!(decode_board_square_fb(30), None);
    assert_eq!(decode_board_square_fb(E_KING + 81), None);
    assert_eq!(layout.from_hand_piece(Color::Black, Color::Black, PieceType::Pawn, 18), 18);
    assert_eq!(layout.from_hand_piece(Color::Black, Color::Black, PieceType::Pawn, 19), 0);
    assert_eq!(layout.from_hand_piece(Color::Black, Color::White, PieceType::Rook, 2), 89);
    assert_eq!(pack_bonapiece(king_bonapiece(3, false), false), F_KING + 3);
    assert_eq!(pack_bonapiece(F_PAWN, true), F_PAWN + 72);
    assert_eq!(pack_bonapiece(7, true), 7);
}

#[test]
fn progress_features_pair_pieces_with_kings() {
    let mut board = board_with_kings(
        Square::new(4, 8),
        Square::new(4, 0),
        &[(Color::White, PieceType::Pawn, Square::new(0, 0))],
    );
    board.black_hand.counts[0] = 1;
    let mut out = Vec::new();
    ShogiProgressKPAbs::collect_active_indices(&layout(), &board, &mut out);
    let bk = Square::new(4, 8).index();
    let wk = 80 - Square::new(4, 0).index();
    assert_eq!(
        out,
        [
            bk * 1548 + E_PAWN,
            wk * 1548 + F_PAWN + 80,
            bk * 1548 + 1,
            wk * 1548 + 20
        ]
    );
    assert!(out.iter().all(|&i| i < SHOGI_PROGRESS_KP_ABS_NUM_WEIGHTS));
    assert_eq!(SHOGI_PROGRESS_KP_ABS_NUM_WEIGHTS, 81 * 1548);
    assert_eq!(SHOGI_PROGRESS8_NUM_BUCKETS, 8);
}

#[test]
fn progress_files_have_one_size() {
    assert_eq!(ShogiProgressKPAbs::check_bin_size(125_388 * 8), Ok(()));
    let e = ShogiProgressKPAbs::check_bin_size(8).unwrap_err();
    assert_eq!(e, ProgressSizeError { got: 8 });
    assert_eq!(
        e.message(),
        "progress.bin size mismatch: got 8 bytes, expected 1003104"
    );
    for (eighths, bucket) in [(-3, 0), (0, 0), (4, 4), (7, 7), (8, 7), (99, 7)] {
        assert_eq!(ShogiProgressKPAbs::bucket_of_eighths(eighths), bucket);
    }
}

#[test]
fn layouts_are_checked() {
    assert!(layout().is_valid());
    let mut bad = layout();
    bad.hand_base[0] = 0;
    assert!(!bad.is_valid());
    let mut bad = layout();
    bad.hand_base[0] = 73;
    assert!(!bad.is_valid());
    let mut bad = layout();
    bad.piece_base[3] = 89;
    assert!(!bad.is_valid());
    let mut bad = layout();
    bad.piece_base[3] += 1;
    assert!(!bad.is_valid());
    let mut bad = layout();
    bad.piece_base[17] = 1548;
    assert!(!bad.is_valid());
}
