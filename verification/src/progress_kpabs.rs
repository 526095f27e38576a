//! Progress features: every piece paired with each king's square.

use vstd::prelude::*;
use vstd::string::*;

use crate::batch::BucketMode;
use crate::board::{
    lemma_those_below, those_below, Color, Piece, PieceType, ShogiBoard, Square, BOARD_PIECE_TYPES,
    HAND_PIECE_TYPES, SQUARES,
};
use crate::bona::{
    board_pieces_are_numbered_by_square, hand_pieces_are_numbered_in_turn, lemma_numbered_kinds,
    numbered_before, numbered_in_hand, BonaPieceLayout, FE_OLD_END, ZERO_PIECE,
};
use crate::text::{decimal, push_decimal};

verus! {

/// Progress buckets.
pub const SHOGI_PROGRESS8_NUM_BUCKETS: usize = 8;

/// Progress features: king squares times piece numbers.
pub const SHOGI_PROGRESS_KP_ABS_NUM_WEIGHTS: usize = 125388;

/// Bytes of a weight file: one `f64` for each feature.
pub const PROGRESS_BIN_BYTES: usize = 1003104;

/// Progress estimation with absolute king-piece features.
#[derive(Clone, Copy, Debug, PartialEq, Eq, Structural)]
pub struct ShogiProgressKPAbs;

/// A weight file of the wrong size.
#[derive(Clone, Copy, Debug, PartialEq, Eq, Structural)]
pub struct ProgressSizeError {
    pub got: usize,
}

impl ProgressSizeError {
    /// The text of the error.
    pub open spec fn text(self) -> Seq<char> {
        "progress.bin size mismatch: got "@ + decimal(self.got as nat) + " bytes, expected "@
            + decimal(1003104)
    }

    /// The text of the error.
    pub fn message(&self) -> (r: String)
        ensures
            r@ == self.text(),
    {
        let mut out = "progress.bin size mismatch: got ".to_owned();
        push_decimal(&mut out, self.got as u64);
        out.append(" bytes, expected ");
        push_decimal(&mut out, PROGRESS_BIN_BYTES as u64);
        out
    }
}

/// The features of one piece: as black sees it with the black king's square, and as white sees it
/// with the white king's. A piece that has no number gives none.
pub open spec fn both_views(king_b: int, king_w: int, bp_b: int, bp_w: int) -> Seq<usize> {
    (if bp_b != 0 {
        seq![(king_b * FE_OLD_END + bp_b) as usize]
    } else {
        seq![]
    }) + (if bp_w != 0 {
        seq![(king_w * FE_OLD_END + bp_w) as usize]
    } else {
        seq![]
    })
}

/// The features of the pieces of one kind and side on the first `n` squares.
pub open spec fn square_features(
    layout: BonaPieceLayout,
    board: ShogiBoard,
    pt: PieceType,
    color: Color,
    n: nat,
) -> Seq<usize>
    decreases n,
{
    if n == 0 {
        seq![]
    } else {
        let before = square_features(layout, board, pt, color, (n - 1) as nat);
        let piece = board.board@[n - 1];
        let sq = Square((n - 1) as u8);
        if piece.piece_type == pt && piece.color == color {
            before + both_views(
                board.black_king_sq.0 as int,
                board.white_king_sq.turned().0 as int,
                layout.on_square(piece, sq, Color::Black),
                layout.on_square(piece, sq, Color::White),
            )
        } else {
            before
        }
    }
}

/// The features of the first `k` kinds of pieces on the board, black's pieces of a kind first.
pub open spec fn board_features(layout: BonaPieceLayout, board: ShogiBoard, k: nat) -> Seq<usize>
    decreases k,
{
    if k == 0 {
        seq![]
    } else {
        let pt = BOARD_PIECE_TYPES@[k - 1];
        board_features(layout, board, (k - 1) as nat) + square_features(
            layout,
            board,
            pt,
            Color::Black,
            81,
        ) + square_features(layout, board, pt, Color::White, 81)
    }
}

/// The features of the first `n` pieces of a kind in a hand.
pub open spec fn held_features(
    layout: BonaPieceLayout,
    board: ShogiBoard,
    owner: Color,
    pt: PieceType,
    n: nat,
) -> Seq<usize>
    decreases n,
{
    if n == 0 {
        seq![]
    } else {
        held_features(layout, board, owner, pt, (n - 1) as nat) + both_views(
            board.black_king_sq.0 as int,
            board.white_king_sq.turned().0 as int,
            layout.in_hand(Color::Black, owner, pt, n as int),
            layout.in_hand(Color::White, owner, pt, n as int),
        )
    }
}

/// The features of the first `k` kinds of pieces in a hand.
pub open spec fn hand_features(
    layout: BonaPieceLayout,
    board: ShogiBoard,
    owner: Color,
    k: nat,
) -> Seq<usize>
    decreases k,
{
    if k == 0 {
        seq![]
    } else {
        let pt = HAND_PIECE_TYPES@[k - 1];
        hand_features(layout, board, owner, (k - 1) as nat) + held_features(
            layout,
            board,
            owner,
            pt,
            board.hand_of(owner).holds(pt) as nat,
        )
    }
}

/// The features of a position. One without both kings has none.
pub open spec fn active_features(layout: BonaPieceLayout, board: ShogiBoard) -> Seq<usize> {
    if !board.black_king_sq.valid() || !board.white_king_sq.valid() {
        seq![]
    } else {
        board_features(layout, board, 13) + hand_features(layout, board, Color::Black, 7)
            + hand_features(layout, board, Color::White, 7)
    }
}

/// Appends the features of one piece.
fn push_views(out: &mut Vec<usize>, king_b: usize, king_w: usize, bp_b: usize, bp_w: usize)
    requires
        king_b < 81,
        king_w < 81,
        bp_b < FE_OLD_END,
        bp_w < FE_OLD_END,
    ensures
        final(out)@ == old(out)@ + both_views(
            king_b as int,
            king_w as int,
            bp_b as int,
            bp_w as int,
        ),
{
    if bp_b != ZERO_PIECE {
        out.push(king_b * FE_OLD_END + bp_b);
    }
    if bp_w != ZERO_PIECE {
        out.push(king_w * FE_OLD_END + bp_w);
    }
    assert(out@ =~= old(out)@ + both_views(
        king_b as int,
        king_w as int,
        bp_b as int,
        bp_w as int,
    ));
}

/// Appends the features of the pieces of one kind and side on the board.
fn push_squares(
    layout: &BonaPieceLayout,
    board: &ShogiBoard,
    pt: PieceType,
    color: Color,
    out: &mut Vec<usize>,
)
    requires
        layout.wf(),
        board.black_king_sq.valid(),
        board.white_king_sq.valid(),
    ensures
        final(out)@ == old(out)@ + square_features(*layout, *board, pt, color, 81),
{
    let sq_bk: usize = board.black_king_sq.index();
    let sq_wk: usize = board.white_king_sq.inverse().index();
    let mut sq: usize = 0;
    assert(out@ =~= old(out)@ + square_features(*layout, *board, pt, color, 0));
    while sq < SQUARES
        invariant
            sq <= 81,
            layout.wf(),
            board.black_king_sq.valid(),
            board.white_king_sq.valid(),
            sq_bk == board.black_king_sq.0,
            sq_wk == board.white_king_sq.turned().0,
            out@ == old(out)@ + square_features(*layout, *board, pt, color, sq as nat),
        decreases 81 - sq,
    {
        let square = Square(sq as u8);
        let piece = board.piece_on(square);
        let ghost before = square_features(*layout, *board, pt, color, sq as nat);
        if piece.piece_type == pt && piece.color == color {
            let bp_b: usize = layout.from_piece_square(piece, square, Color::Black);
            let bp_w: usize = layout.from_piece_square(piece, square, Color::White);
            push_views(out, sq_bk, sq_wk, bp_b, bp_w);
            assert(out@ =~= old(out)@ + square_features(
                *layout,
                *board,
                pt,
                color,
                (sq + 1) as nat,
            ));
        }
        sq += 1;
    }
}

/// Appends the features of the pieces in a hand.
fn push_hand(layout: &BonaPieceLayout, board: &ShogiBoard, owner: Color, out: &mut Vec<usize>)
    requires
        layout.wf(),
        board.black_king_sq.valid(),
        board.white_king_sq.valid(),
    ensures
        final(out)@ == old(out)@ + hand_features(*layout, *board, owner, 7),
{
    let sq_bk: usize = board.black_king_sq.index();
    let sq_wk: usize = board.white_king_sq.inverse().index();
    let hand = board.hand(owner);
    let mut k: usize = 0;
    assert(out@ =~= old(out)@ + hand_features(*layout, *board, owner, 0));
    while k < 7
        invariant
            k <= 7,
            layout.wf(),
            board.black_king_sq.valid(),
            board.white_king_sq.valid(),
            sq_bk == board.black_king_sq.0,
            sq_wk == board.white_king_sq.turned().0,
            hand == board.hand_of(owner),
            out@ == old(out)@ + hand_features(*layout, *board, owner, k as nat),
        decreases 7 - k,
    {
        let pt = HAND_PIECE_TYPES[k];
        let count: u8 = hand.count(pt);
        let ghost earlier = out@;
        let mut c: u8 = 0;
        assert(out@ =~= earlier + held_features(*layout, *board, owner, pt, 0));
        while c < count
            invariant
                c <= count,
                layout.wf(),
                board.black_king_sq.valid(),
                board.white_king_sq.valid(),
                sq_bk == board.black_king_sq.0,
                sq_wk == board.white_king_sq.turned().0,
                out@ == earlier + held_features(*layout, *board, owner, pt, c as nat),
            decreases count - c,
        {
            let bp_b: usize = layout.from_hand_piece(Color::Black, owner, pt, c + 1);
            let bp_w: usize = layout.from_hand_piece(Color::White, owner, pt, c + 1);
            push_views(out, sq_bk, sq_wk, bp_b, bp_w);
            assert(out@ =~= earlier + held_features(*layout, *board, owner, pt, (c + 1) as nat));
            c += 1;
        }
        assert(out@ =~= old(out)@ + hand_features(*layout, *board, owner, (k + 1) as nat));
        k += 1;
    }
}

impl ShogiProgressKPAbs {
    /// Appends the features of a position.
    pub fn for_each_active_index(
        layout: &BonaPieceLayout,
        board: &ShogiBoard,
        out: &mut Vec<usize>,
    )
        requires
            layout.wf(),
        ensures
            final(out)@ == old(out)@ + active_features(*layout, *board),
    {
        if !board.black_king_sq.is_valid() || !board.white_king_sq.is_valid() {
            assert(out@ =~= old(out)@ + active_features(*layout, *board));
            return;
        }
        let mut k: usize = 0;
        assert(out@ =~= old(out)@ + board_features(*layout, *board, 0));
        while k < 13
            invariant
                k <= 13,
                layout.wf(),
                board.black_king_sq.valid(),
                board.white_king_sq.valid(),
                out@ == old(out)@ + board_features(*layout, *board, k as nat),
            decreases 13 - k,
        {
            let pt = BOARD_PIECE_TYPES[k];
            push_squares(layout, board, pt, Color::Black, out);
            push_squares(layout, board, pt, Color::White, out);
            assert(out@ =~= old(out)@ + board_features(*layout, *board, (k + 1) as nat));
            k += 1;
        }
        push_hand(layout, board, Color::Black, out);
        push_hand(layout, board, Color::White, out);
        assert(out@ =~= old(out)@ + active_features(*layout, *board));
    }

    /// The features of a position, in place of what `out` held.
    pub fn collect_active_indices(
        layout: &BonaPieceLayout,
        board: &ShogiBoard,
        out: &mut Vec<usize>,
    )
        requires
            layout.wf(),
        ensures
            final(out)@ == active_features(*layout, *board),
    {
        out.clear();
        Self::for_each_active_index(layout, board, out);
        assert(out@ =~= active_features(*layout, *board));
    }

    /// Checks the size of a weight file.
    pub fn check_bin_size(len: usize) -> (r: Result<(), ProgressSizeError>)
        ensures
            r == if len == SHOGI_PROGRESS_KP_ABS_NUM_WEIGHTS * 8 {
                Ok::<(), ProgressSizeError>(())
            } else {
                Err(ProgressSizeError { got: len })
            },
    {
        if len != PROGRESS_BIN_BYTES {
            return Err(ProgressSizeError { got: len });
        }
        Ok(())
    }

    /// The bucket for eight times the progress, rounded down.
    pub fn bucket_of_eighths(eighths: i32) -> (r: u8)
        ensures
            r <= 7,
            0 <= eighths <= 7 ==> r == eighths,
            eighths < r ==> r == 0,
            eighths > r ==> r == 7,
            r == if eighths < 0 {
                0int
            } else if eighths > 7 {
                7int
            } else {
                eighths as int
            },
    {
        if eighths < 0 {
            0
        } else if eighths > 7 {
            7
        } else {
            eighths as u8
        }
    }
}

impl From<ShogiProgressKPAbs> for BucketMode {
    fn from(progress: ShogiProgressKPAbs) -> (r: Self) {
        BucketMode::Progress8KpAbs
    }
}

impl vstd::std_specs::convert::FromSpecImpl<ShogiProgressKPAbs> for BucketMode {
    open spec fn obeys_from_spec() -> bool {
        true
    }

    open spec fn from_spec(progress: ShogiProgressKPAbs) -> Self {
        BucketMode::Progress8KpAbs
    }
}

/// Features that are all within the weights.
pub open spec fn within_weights(features: Seq<usize>) -> bool {
    forall|k: int|
        0 <= k < features.len() ==> #[trigger] features[k] < SHOGI_PROGRESS_KP_ABS_NUM_WEIGHTS
}

proof fn lemma_views_within(king_b: int, king_w: int, bp_b: int, bp_w: int)
    requires
        0 <= king_b < 81,
        0 <= king_w < 81,
        0 <= bp_b < FE_OLD_END,
        0 <= bp_w < FE_OLD_END,
    ensures
        within_weights(both_views(king_b, king_w, bp_b, bp_w)),
        both_views(king_b, king_w, bp_b, bp_w).len() <= 2,
{
}

proof fn lemma_numbers_bounded(
    layout: BonaPieceLayout,
    piece: Piece,
    sq: Square,
    perspective: Color,
    owner: Color,
    i: int,
)
    requires
        layout.wf(),
        sq.valid(),
    ensures
        0 <= layout.on_square(piece, sq, perspective) < FE_OLD_END,
        0 <= layout.in_hand(perspective, owner, piece.piece_type, i) < FE_OLD_END,
{
    if let Some(plane) = crate::bona::plane_of(piece.piece_type) {
        let at = 2 * plane + if piece.color == perspective {
            1int
        } else {
            0int
        };
        assert(layout.piece_base@[at] + 81 <= FE_OLD_END);
    }
    if let Some(slot) = crate::board::hand_slot(piece.piece_type) {
        let at = 2 * slot + if owner == perspective {
            1int
        } else {
            0int
        };
        assert(layout.hand_base@[at] + crate::bona::hand_limit(at / 2) <= 90);
    }
}

proof fn lemma_squares_within(
    layout: BonaPieceLayout,
    board: ShogiBoard,
    pt: PieceType,
    color: Color,
    n: nat,
)
    requires
        layout.wf(),
        board.black_king_sq.valid(),
        board.white_king_sq.valid(),
        n <= 81,
    ensures
        within_weights(square_features(layout, board, pt, color, n)),
    decreases n,
{
    if n > 0 {
        lemma_squares_within(layout, board, pt, color, (n - 1) as nat);
        let piece = board.board@[n - 1];
        let sq = Square((n - 1) as u8);
        lemma_numbers_bounded(layout, piece, sq, Color::Black, Color::Black, 0);
        lemma_numbers_bounded(layout, piece, sq, Color::White, Color::Black, 0);
        lemma_views_within(
            board.black_king_sq.0 as int,
            board.white_king_sq.turned().0 as int,
            layout.on_square(piece, sq, Color::Black),
            layout.on_square(piece, sq, Color::White),
        );
    }
}

proof fn lemma_board_within(layout: BonaPieceLayout, board: ShogiBoard, k: nat)
    requires
        layout.wf(),
        board.black_king_sq.valid(),
        board.white_king_sq.valid(),
    ensures
        within_weights(board_features(layout, board, k)),
    decreases k,
{
    if k > 0 {
        lemma_board_within(layout, board, (k - 1) as nat);
        let pt = BOARD_PIECE_TYPES@[k - 1];
        lemma_squares_within(layout, board, pt, Color::Black, 81);
        lemma_squares_within(layout, board, pt, Color::White, 81);
    }
}

proof fn lemma_held_within(
    layout: BonaPieceLayout,
    board: ShogiBoard,
    owner: Color,
    pt: PieceType,
    n: nat,
)
    requires
        layout.wf(),
        board.black_king_sq.valid(),
        board.white_king_sq.valid(),
    ensures
        within_weights(held_features(layout, board, owner, pt, n)),
    decreases n,
{
    if n > 0 {
        lemma_held_within(layout, board, owner, pt, (n - 1) as nat);
        let piece = Piece { color: owner, piece_type: pt };
        lemma_numbers_bounded(layout, piece, Square(0), Color::Black, owner, n as int);
        lemma_numbers_bounded(layout, piece, Square(0), Color::White, owner, n as int);
        lemma_views_within(
            board.black_king_sq.0 as int,
            board.white_king_sq.turned().0 as int,
            layout.in_hand(Color::Black, owner, pt, n as int),
            layout.in_hand(Color::White, owner, pt, n as int),
        );
    }
}

proof fn lemma_hand_within(layout: BonaPieceLayout, board: ShogiBoard, owner: Color, k: nat)
    requires
        layout.wf(),
        board.black_king_sq.valid(),
        board.white_king_sq.valid(),
    ensures
        within_weights(hand_features(layout, board, owner, k)),
    decreases k,
{
    if k > 0 {
        lemma_hand_within(layout, board, owner, (k - 1) as nat);
        let pt = HAND_PIECE_TYPES@[k - 1];
        lemma_held_within(layout, board, owner, pt, board.hand_of(owner).holds(pt) as nat);
    }
}

/// Every feature of a position has a weight.
pub proof fn features_are_within_weights(layout: BonaPieceLayout, board: ShogiBoard)
    requires
        layout.wf(),
    ensures
        within_weights(active_features(layout, board)),
{
    if board.black_king_sq.valid() && board.white_king_sq.valid() {
        lemma_board_within(layout, board, 13);
        lemma_hand_within(layout, board, Color::Black, 7);
        lemma_hand_within(layout, board, Color::White, 7);
    }
}

/// Whether a square holds a piece other than a king.
spec fn holds_piece(board: ShogiBoard, s: int) -> bool {
    board.board@[s].piece_type != PieceType::Empty && board.board@[s].piece_type != PieceType::King
}

/// The kinds of pieces other than kings, each once.
proof fn lemma_kinds(pt: PieceType)
    ensures
        pt != PieceType::Empty && pt != PieceType::King <==> exists|j: int|
            0 <= j < 13 && #[trigger] BOARD_PIECE_TYPES@[j] == pt,
        forall|i: int, j: int|
            0 <= i < j < 13 ==> #[trigger] BOARD_PIECE_TYPES@[i] != #[trigger] BOARD_PIECE_TYPES@[j],
{
    let k = BOARD_PIECE_TYPES@;
    assert(k[0] == PieceType::Pawn && k[1] == PieceType::Lance && k[2] == PieceType::Knight);
    assert(k[3] == PieceType::Silver && k[4] == PieceType::Gold && k[5] == PieceType::Bishop);
    assert(k[6] == PieceType::Rook && k[7] == PieceType::ProPawn && k[8] == PieceType::ProLance);
    assert(k[9] == PieceType::ProKnight && k[10] == PieceType::ProSilver);
    assert(k[11] == PieceType::Horse && k[12] == PieceType::Dragon);
}

proof fn lemma_views_len(layout: BonaPieceLayout, board: ShogiBoard, s: int)
    requires
        layout.wf(),
        0 <= s < 81,
        holds_piece(board, s),
    ensures
        90 <= layout.on_square(board.board@[s], Square(s as u8), Color::Black) < 1548,
        90 <= layout.on_square(board.board@[s], Square(s as u8), Color::White) < 1548,
{
    let piece = board.board@[s];
    board_pieces_are_numbered_by_square(
        layout,
        piece.color,
        piece.piece_type,
        Square(s as u8),
        Color::Black,
    );
    board_pieces_are_numbered_by_square(
        layout,
        piece.color,
        piece.piece_type,
        Square(s as u8),
        Color::White,
    );
    if let Some(p) = crate::bona::plane_of(piece.piece_type) {
        assert(90 <= layout.piece_base@[2 * p] && 90 <= layout.piece_base@[2 * p + 1]);
    }
}

proof fn lemma_square_features_count(
    layout: BonaPieceLayout,
    board: ShogiBoard,
    pt: PieceType,
    color: Color,
    n: nat,
)
    requires
        layout.wf(),
        n <= 81,
        pt != PieceType::Empty,
        pt != PieceType::King,
    ensures
        square_features(layout, board, pt, color, n).len() == 2 * those_below(
            n as int,
            |s: int| board.board@[s].piece_type == pt && board.board@[s].color == color,
        ).len(),
    decreases n,
{
    let p = |s: int| board.board@[s].piece_type == pt && board.board@[s].color == color;
    lemma_those_below(n as int, p);
    if n > 0 {
        lemma_square_features_count(layout, board, pt, color, (n - 1) as nat);
        if p(n - 1) {
            lemma_views_len(layout, board, n - 1);
        }
    }
}

proof fn lemma_board_features_count(layout: BonaPieceLayout, board: ShogiBoard, k: nat)
    requires
        layout.wf(),
        k <= 13,
    ensures
        board_features(layout, board, k).len() == 2 * those_below(
            81,
            |s: int|
                exists|j: int|
                    0 <= j < k && #[trigger] BOARD_PIECE_TYPES@[j] == board.board@[s].piece_type,
        ).len(),
    decreases k,
{
    let among = |s: int|
        exists|j: int|
            0 <= j < k && #[trigger] BOARD_PIECE_TYPES@[j] == board.board@[s].piece_type;
    lemma_those_below(81, among);
    let all = those_below(81, among);
    if k == 0 {
        assert(all =~= Set::empty());
    } else {
        let pt = BOARD_PIECE_TYPES@[k - 1];
        lemma_board_features_count(layout, board, (k - 1) as nat);
        lemma_kinds(pt);
        let earlier = |s: int|
            exists|j: int|
                0 <= j < k - 1 && #[trigger] BOARD_PIECE_TYPES@[j] == board.board@[s].piece_type;
        let black = |s: int|
            board.board@[s].piece_type == pt && board.board@[s].color == Color::Black;
        let white = |s: int|
            board.board@[s].piece_type == pt && board.board@[s].color == Color::White;
        lemma_square_features_count(layout, board, pt, Color::Black, 81);
        lemma_square_features_count(layout, board, pt, Color::White, 81);
        lemma_those_below(81, earlier);
        lemma_those_below(81, black);
        lemma_those_below(81, white);
        let (e, b, w) = (
            those_below(81, earlier),
            those_below(81, black),
            those_below(81, white),
        );
        assert forall|s: int| #[trigger] all.contains(s) <==> e.contains(s) || b.contains(s)
            || w.contains(s) by {
            if 0 <= s < 81 && among(s) {
                let j = choose|j: int|
                    0 <= j < k && #[trigger] BOARD_PIECE_TYPES@[j] == board.board@[s].piece_type;
                if j < k - 1 {
                    assert(earlier(s));
                }
            }
            if 0 <= s < 81 && (black(s) || white(s)) {
                assert(BOARD_PIECE_TYPES@[k - 1] == board.board@[s].piece_type);
            }
        }
        assert forall|s: int| e.contains(s) implies !b.contains(s) && !w.contains(s) by {
            let j = choose|j: int|
                0 <= j < k - 1 && #[trigger] BOARD_PIECE_TYPES@[j] == board.board@[s].piece_type;
            assert(BOARD_PIECE_TYPES@[j] != BOARD_PIECE_TYPES@[k - 1]);
        }
        vstd::set_lib::lemma_set_disjoint_lens(e, b);
        vstd::set_lib::lemma_set_disjoint_lens(e + b, w);
        assert(all =~= e + b + w);
    }
}

proof fn lemma_held_features_count(
    layout: BonaPieceLayout,
    board: ShogiBoard,
    owner: Color,
    k: int,
    n: nat,
)
    requires
        layout.wf(),
        0 <= k < 7,
    ensures
        ({
            let most: int = seq![18int, 4, 4, 4, 4, 2, 2][k];
            held_features(layout, board, owner, HAND_PIECE_TYPES@[k], n).len() == 2 * if n < most {
                n as int
            } else {
                most
            }
        }),
    decreases n,
{
    if n > 0 {
        lemma_held_features_count(layout, board, owner, k, (n - 1) as nat);
        hand_pieces_are_numbered_in_turn(layout, Color::Black, owner, k, n as int);
        hand_pieces_are_numbered_in_turn(layout, Color::White, owner, k, n as int);
    }
}

proof fn lemma_hand_features_step(
    layout: BonaPieceLayout,
    board: ShogiBoard,
    owner: Color,
    k: int,
)
    requires
        layout.wf(),
        0 <= k < 7,
    ensures
        ({
            let most: int = seq![18int, 4, 4, 4, 4, 2, 2][k];
            let held = board.hand_of(owner).counts@[k] as int;
            hand_features(layout, board, owner, (k + 1) as nat).len() == hand_features(
                layout,
                board,
                owner,
                k as nat,
            ).len() + 2 * if held < most {
                held
            } else {
                most
            }
        }),
{
    let held = board.hand_of(owner).counts@[k] as nat;
    assert(board.hand_of(owner).holds(HAND_PIECE_TYPES@[k]) == held);
    lemma_held_features_count(layout, board, owner, k, held);
}

/// Every piece gives two features, one for each side: the board pieces other than kings, and the
/// pieces in both hands as far as they have a number. A position without both kings gives none.
pub proof fn every_piece_gives_two_features(layout: BonaPieceLayout, board: ShogiBoard)
    requires
        layout.wf(),
    ensures
        active_features(layout, board).len() == if board.black_king_sq.0 < 81
            && board.white_king_sq.0 < 81 {
            2 * those_below(
                81,
                |s: int|
                    board.board@[s].piece_type != PieceType::Empty && board.board@[s].piece_type
                        != PieceType::King,
            ).len() + 2 * numbered_in_hand(board.black_hand) + 2 * numbered_in_hand(
                board.white_hand,
            )
        } else {
            0
        },
{
    lemma_placed(layout, board);
    lemma_hand_features_len(layout, board, Color::Black, 7);
    lemma_hand_features_len(layout, board, Color::White, 7);
    lemma_numbered_kinds(board.black_hand);
    lemma_numbered_kinds(board.white_hand);
}

proof fn lemma_placed(layout: BonaPieceLayout, board: ShogiBoard)
    requires
        layout.wf(),
    ensures
        board_features(layout, board, 13).len() == 2 * those_below(
            81,
            |s: int|
                board.board@[s].piece_type != PieceType::Empty && board.board@[s].piece_type
                    != PieceType::King,
        ).len(),
{
    lemma_board_features_count(layout, board, 13);
    let placed = those_below(
        81,
        |s: int|
            board.board@[s].piece_type != PieceType::Empty && board.board@[s].piece_type
                != PieceType::King,
    );
    let among = those_below(
        81,
        |s: int|
            exists|j: int|
                0 <= j < 13 && #[trigger] BOARD_PIECE_TYPES@[j] == board.board@[s].piece_type,
    );
    assert forall|s: int| #[trigger] placed.contains(s) <==> among.contains(s) by {
        lemma_kinds(board.board@[s].piece_type);
    }
    assert(placed =~= among);
}

/// Whether two features stand in a list at a place, one behind the other.
pub open spec fn pair_at(features: Seq<usize>, at: int, a: int, b: int) -> bool {
    0 <= at && at + 1 < features.len() && features[at] == a && features[at + 1] == b
}

proof fn lemma_pair_in_sum(
    front: Seq<usize>,
    s: Seq<usize>,
    back: Seq<usize>,
    at: int,
    a: int,
    b: int,
)
    requires
        pair_at(s, at, a, b),
    ensures
        pair_at(front + s + back, front.len() + at, a, b),
{
    let all = front + s + back;
    assert(all[front.len() + at] == s[at] && all[front.len() + at + 1] == s[at + 1]);
}

proof fn lemma_square_features_hold(
    layout: BonaPieceLayout,
    board: ShogiBoard,
    s: int,
    n: nat,
    a: int,
    b: int,
)
    requires
        layout.wf(),
        0 <= s < n <= 81,
        holds_piece(board, s),
        board.black_king_sq.valid(),
        board.white_king_sq.valid(),
        a == board.black_king_sq.0 * 1548 + layout.on_square(
            board.board@[s],
            Square(s as u8),
            Color::Black,
        ),
        b == (80 - board.white_king_sq.0) * 1548 + layout.on_square(
            board.board@[s],
            Square(s as u8),
            Color::White,
        ),
    ensures
        ({
            let piece = board.board@[s];
            let part = |k: nat|
                square_features(layout, board, piece.piece_type, piece.color, k);
            pair_at(part(n), part(s as nat).len() as int, a, b)
        }),
    decreases n,
{
    let (pt, color) = (board.board@[s].piece_type, board.board@[s].color);
    let before = square_features(layout, board, pt, color, (n - 1) as nat);
    let all = square_features(layout, board, pt, color, n);
    if s < n - 1 {
        lemma_square_features_hold(layout, board, s, (n - 1) as nat, a, b);
        let added = all.skip(before.len() as int);
        assert(all =~= seq![] + before + added);
        let at = square_features(layout, board, pt, color, s as nat).len() as int;
        lemma_pair_in_sum(seq![], before, added, at, a, b);
    } else {
        lemma_views_len(layout, board, s);
        assert(all[before.len() as int] == a && all[before.len() as int + 1] == b);
    }
}

proof fn lemma_board_features_hold(
    layout: BonaPieceLayout,
    board: ShogiBoard,
    k: nat,
    j: int,
    color: Color,
    at: int,
    a: int,
    b: int,
)
    requires
        0 <= j < k <= 13,
        pair_at(square_features(layout, board, BOARD_PIECE_TYPES@[j], color, 81), at, a, b),
    ensures
        pair_at(
            board_features(layout, board, k),
            board_features(layout, board, j as nat).len() + at + if color == Color::Black {
                0int
            } else {
                square_features(
                    layout,
                    board,
                    BOARD_PIECE_TYPES@[j],
                    Color::Black,
                    81,
                ).len() as int
            },
            a,
            b,
        ),
    decreases k,
{
    let pt = BOARD_PIECE_TYPES@[k - 1];
    let before = board_features(layout, board, (k - 1) as nat);
    let black = square_features(layout, board, pt, Color::Black, 81);
    let white = square_features(layout, board, pt, Color::White, 81);
    if j < k - 1 {
        lemma_board_features_hold(layout, board, (k - 1) as nat, j, color, at, a, b);
        let there = board_features(layout, board, j as nat).len() + at + if color == Color::Black {
            0int
        } else {
            square_features(layout, board, BOARD_PIECE_TYPES@[j], Color::Black, 81).len() as int
        };
        lemma_pair_in_sum(seq![], before, black + white, there, a, b);
        assert(seq![] + before + (black + white) =~= before + black + white);
    } else if color == Color::Black {
        lemma_pair_in_sum(before, black, white, at, a, b);
    } else {
        lemma_pair_in_sum(before + black, white, seq![], at, a, b);
        assert(before + black + white + seq![] =~= before + black + white);
    }
}

/// Whether the piece on `s` is listed before the one on `sq`: by kind, then black's before white's,
/// then by square.
pub open spec fn listed_before(board: ShogiBoard, kind: int, sq: int, s: int) -> bool {
    let (x, y) = (board.board@[s], board.board@[sq]);
    ||| exists|j: int| 0 <= j < kind && #[trigger] BOARD_PIECE_TYPES@[j] == x.piece_type
    ||| x.piece_type == y.piece_type && x.color == Color::Black && y.color == Color::White
    ||| x.piece_type == y.piece_type && x.color == y.color && s < sq
}

/// The two features of a board piece stand next to each other: its number as black sees it, with
/// the black king's square, and its number as white sees it, with the white king's square as white
/// sees that. The pieces come by kind, black's of a kind before white's, in the order of squares.
pub proof fn board_pieces_are_paired_with_both_kings(
    layout: BonaPieceLayout,
    board: ShogiBoard,
    sq: Square,
    kind: int,
)
    requires
        layout.wf(),
        sq.valid(),
        board.black_king_sq.0 < 81,
        board.white_king_sq.0 < 81,
        0 <= kind < 13,
        board.board@[sq.0 as int].piece_type == BOARD_PIECE_TYPES@[kind],
    ensures
        pair_at(
            active_features(layout, board),
            2 * those_below(
                81,
                |s: int| listed_before(board, kind, sq.0 as int, s),
            ).len() as int,
            board.black_king_sq.0 * 1548 + layout.on_square(
                board.board@[sq.0 as int],
                sq,
                Color::Black,
            ),
            (80 - board.white_king_sq.0) * 1548 + layout.on_square(
                board.board@[sq.0 as int],
                sq,
                Color::White,
            ),
        ),
{
    let piece = board.board@[sq.0 as int];
    let a = board.black_king_sq.0 * 1548 + layout.on_square(piece, sq, Color::Black);
    let b = (80 - board.white_king_sq.0) * 1548 + layout.on_square(piece, sq, Color::White);
    assert(Square(sq.0 as int as u8) == sq);
    lemma_kinds(piece.piece_type);
    lemma_square_features_hold(layout, board, sq.0 as int, 81, a, b);
    let own = square_features(layout, board, piece.piece_type, piece.color, sq.0 as nat).len();
    lemma_board_features_hold(layout, board, 13, kind, piece.color, own as int, a, b);
    lemma_listed_before(layout, board, sq, kind);
    let at = 2 * those_below(81, |s: int| listed_before(board, kind, sq.0 as int, s)).len() as int;
    let placed = board_features(layout, board, 13);
    let black = hand_features(layout, board, Color::Black, 7);
    let white = hand_features(layout, board, Color::White, 7);
    lemma_pair_in_sum(seq![], placed, black + white, at, a, b);
    assert(seq![] + placed + (black + white) =~= placed + black + white);
}

proof fn lemma_listed_before(layout: BonaPieceLayout, board: ShogiBoard, sq: Square, kind: int)
    requires
        layout.wf(),
        sq.valid(),
        0 <= kind < 13,
        board.board@[sq.0 as int].piece_type == BOARD_PIECE_TYPES@[kind],
    ensures
        ({
            let piece = board.board@[sq.0 as int];
            2 * those_below(81, |s: int| listed_before(board, kind, sq.0 as int, s)).len()
                == board_features(layout, board, kind as nat).len() + square_features(
                layout,
                board,
                piece.piece_type,
                piece.color,
                sq.0 as nat,
            ).len() + if piece.color == Color::Black {
                0int
            } else {
                square_features(layout, board, piece.piece_type, Color::Black, 81).len() as int
            }
        }),
{
    let piece = board.board@[sq.0 as int];
    let pt = piece.piece_type;
    lemma_kinds(pt);
    let earlier = |s: int|
        exists|j: int|
            0 <= j < kind && #[trigger] BOARD_PIECE_TYPES@[j] == board.board@[s].piece_type;
    let black = |s: int| board.board@[s].piece_type == pt && board.board@[s].color == Color::Black;
    let same = |s: int| board.board@[s].piece_type == pt && board.board@[s].color == piece.color;
    let listed = |s: int| listed_before(board, kind, sq.0 as int, s);
    lemma_board_features_count(layout, board, kind as nat);
    lemma_square_features_count(layout, board, pt, Color::Black, 81);
    lemma_square_features_count(layout, board, pt, piece.color, sq.0 as nat);
    lemma_those_below(81, earlier);
    lemma_those_below(81, black);
    lemma_those_below(81, listed);
    lemma_those_below(sq.0 as int, same);
    let (e, b, w, all) = (
        those_below(81, earlier),
        those_below(81, black),
        those_below(sq.0 as int, same),
        those_below(81, listed),
    );
    assert forall|s: int| e.contains(s) implies !b.contains(s) && !w.contains(s) by {
        let j = choose|j: int|
            0 <= j < kind && #[trigger] BOARD_PIECE_TYPES@[j] == board.board@[s].piece_type;
        assert(BOARD_PIECE_TYPES@[j] != BOARD_PIECE_TYPES@[kind]);
    }
    if piece.color == Color::Black {
        vstd::set_lib::lemma_set_disjoint_lens(e, w);
        assert(all =~= e + w);
    } else {
        vstd::set_lib::lemma_set_disjoint_lens(e, b);
        vstd::set_lib::lemma_set_disjoint_lens(e + b, w);
        assert(all =~= e + b + w);
    }
}

proof fn lemma_held_features_hold(
    layout: BonaPieceLayout,
    board: ShogiBoard,
    owner: Color,
    k: int,
    i: int,
    n: nat,
    a: int,
    b: int,
)
    requires
        layout.wf(),
        0 <= k < 7,
        1 <= i <= n,
        i <= seq![18int, 4, 4, 4, 4, 2, 2][k],
        board.black_king_sq.valid(),
        board.white_king_sq.valid(),
        a == board.black_king_sq.0 * 1548 + layout.in_hand(
            Color::Black,
            owner,
            HAND_PIECE_TYPES@[k],
            i,
        ),
        b == (80 - board.white_king_sq.0) * 1548 + layout.in_hand(
            Color::White,
            owner,
            HAND_PIECE_TYPES@[k],
            i,
        ),
    ensures
        pair_at(
            held_features(layout, board, owner, HAND_PIECE_TYPES@[k], n),
            2 * (i - 1),
            a,
            b,
        ),
    decreases n,
{
    let pt = HAND_PIECE_TYPES@[k];
    let before = held_features(layout, board, owner, pt, (n - 1) as nat);
    let all = held_features(layout, board, owner, pt, n);
    lemma_held_features_count(layout, board, owner, k, (n - 1) as nat);
    if i < n {
        lemma_held_features_hold(layout, board, owner, k, i, (n - 1) as nat, a, b);
        let added = all.skip(before.len() as int);
        assert(all =~= seq![] + before + added);
        lemma_pair_in_sum(seq![], before, added, 2 * (i - 1), a, b);
    } else {
        hand_pieces_are_numbered_in_turn(layout, Color::Black, owner, k, i);
        hand_pieces_are_numbered_in_turn(layout, Color::White, owner, k, i);
        assert(before.len() == 2 * (i - 1));
        assert(all[before.len() as int] == a && all[before.len() as int + 1] == b);
    }
}

proof fn lemma_hand_features_hold(
    layout: BonaPieceLayout,
    board: ShogiBoard,
    owner: Color,
    n: nat,
    k: int,
    at: int,
    a: int,
    b: int,
)
    requires
        layout.wf(),
        0 <= k < n <= 7,
        pair_at(
            held_features(
                layout,
                board,
                owner,
                HAND_PIECE_TYPES@[k],
                board.hand_of(owner).holds(HAND_PIECE_TYPES@[k]) as nat,
            ),
            at,
            a,
            b,
        ),
    ensures
        pair_at(
            hand_features(layout, board, owner, n),
            2 * numbered_before(board.hand_of(owner), k as nat) + at,
            a,
            b,
        ),
    decreases n,
{
    let pt = HAND_PIECE_TYPES@[n - 1];
    let before = hand_features(layout, board, owner, (n - 1) as nat);
    let kind = held_features(layout, board, owner, pt, board.hand_of(owner).holds(pt) as nat);
    if k < n - 1 {
        lemma_hand_features_hold(layout, board, owner, (n - 1) as nat, k, at, a, b);
        let there = 2 * numbered_before(board.hand_of(owner), k as nat) + at;
        lemma_pair_in_sum(seq![], before, kind, there, a, b);
        assert(seq![] + before + kind =~= before + kind);
    } else {
        lemma_hand_features_len(layout, board, owner, k as nat);
        lemma_pair_in_sum(before, kind, seq![], at, a, b);
        assert(before + kind + seq![] =~= before + kind);
    }
}

proof fn lemma_hand_features_len(layout: BonaPieceLayout, board: ShogiBoard, owner: Color, k: nat)
    requires
        layout.wf(),
        k <= 7,
    ensures
        hand_features(layout, board, owner, k).len() == 2 * numbered_before(
            board.hand_of(owner),
            k,
        ),
    decreases k,
{
    if k > 0 {
        lemma_hand_features_len(layout, board, owner, (k - 1) as nat);
        lemma_hand_features_step(layout, board, owner, k - 1);
    }
}

/// The two features of a piece in hand stand next to each other too, behind those of the board:
/// black's hand first, kind by kind, then white's.
pub proof fn hand_pieces_are_paired_with_both_kings(
    layout: BonaPieceLayout,
    board: ShogiBoard,
    owner: Color,
    k: int,
    i: int,
)
    requires
        layout.wf(),
        board.black_king_sq.0 < 81,
        board.white_king_sq.0 < 81,
        0 <= k < 7,
        1 <= i <= (if owner == Color::Black {
            board.black_hand.counts@[k] as int
        } else {
            board.white_hand.counts@[k] as int
        }),
        i <= seq![18int, 4, 4, 4, 4, 2, 2][k],
    ensures
        ({
            let placed = those_below(
                81,
                |s: int|
                    board.board@[s].piece_type != PieceType::Empty && board.board@[s].piece_type
                        != PieceType::King,
            ).len();
            let ahead = placed + i - 1 + if owner == Color::Black {
                numbered_before(board.black_hand, k as nat)
            } else {
                numbered_in_hand(board.black_hand) + numbered_before(board.white_hand, k as nat)
            };
            pair_at(
                active_features(layout, board),
                2 * ahead,
                board.black_king_sq.0 * 1548 + layout.in_hand(
                    Color::Black,
                    owner,
                    HAND_PIECE_TYPES@[k],
                    i,
                ),
                (80 - board.white_king_sq.0) * 1548 + layout.in_hand(
                    Color::White,
                    owner,
                    HAND_PIECE_TYPES@[k],
                    i,
                ),
            )
        }),
{
    let pt = HAND_PIECE_TYPES@[k];
    let a = board.black_king_sq.0 * 1548 + layout.in_hand(Color::Black, owner, pt, i);
    let b = (80 - board.white_king_sq.0) * 1548 + layout.in_hand(Color::White, owner, pt, i);
    let held = board.hand_of(owner).holds(pt) as nat;
    lemma_held_features_hold(layout, board, owner, k, i, held, a, b);
    lemma_hand_features_hold(layout, board, owner, 7, k, 2 * (i - 1), a, b);
    lemma_hand_features_len(layout, board, Color::Black, 7);
    lemma_numbered_kinds(board.black_hand);
    lemma_placed(layout, board);
    let at = 2 * numbered_before(board.hand_of(owner), k as nat) + 2 * (i - 1);
    let placed = board_features(layout, board, 13);
    let black = hand_features(layout, board, Color::Black, 7);
    let white = hand_features(layout, board, Color::White, 7);
    if owner == Color::Black {
        lemma_pair_in_sum(placed, black, white, at, a, b);
    } else {
        lemma_pair_in_sum(placed + black, white, seq![], at, a, b);
        assert(placed + black + white + seq![] =~= placed + black + white);
    }
}

} // verus!
