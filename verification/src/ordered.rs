//! Decoding a data file in parallel without losing its order: the file is cut into numbered
//! chunks, workers decode them in any order, and the chunks are put back in sequence. Anything
//! missing is an error, never an early end.

use std::collections::BTreeMap;

use vstd::prelude::*;
use vstd::string::*;

use crate::batch::{ActiveOverflow, Batch, Position, Row};
use crate::board::{
    lemma_those_below, those_below, Color, Piece, PieceType, ShogiBoard, Square, SQUARES,
};
use crate::error::ErrorKind;
use crate::prefetch::{buckets_of, rows_of, BatchSlot};
use crate::shuffle::PSV_RECORD_BYTES;
use crate::text::{decimal, join2, push_decimal};
use crate::window::LoadError;

verus! {

/// Pieces of a shogi set.
pub const ALL_PIECES: u32 = 40;

/// A sign that a decoded record is corrupt.
#[derive(Clone, Copy, Debug, PartialEq, Eq, Structural)]
pub enum BoardFault {
    /// A side has no king on the board, or more than one.
    Kings { black: u32, white: u32 },
    /// The king squares are not where the kings stand.
    KingSquares,
    /// There are more pieces than in a shogi set.
    TooMany { total: u32 },
}

impl BoardFault {
    /// The text of the fault.
    pub open spec fn text(self) -> Seq<char> {
        match self {
            BoardFault::Kings { black, white } => {
                "kings on board: black "@ + decimal(black as nat) + " / white "@ + decimal(
                    white as nat,
                ) + " (expected exactly 1 each)"@
            },
            BoardFault::KingSquares => "king square fields do not match the board"@,
            BoardFault::TooMany { total } => {
                decimal(total as nat) + " pieces on board + in hand (shogi has at most 40)"@
            },
        }
    }

    /// The text of the fault.
    pub fn message(&self) -> (r: String)
        ensures
            r@ == self.text(),
    {
        match *self {
            BoardFault::Kings { black, white } => {
                let mut out = "kings on board: black ".to_owned();
                push_decimal(&mut out, black as u64);
                out.append(" / white ");
                push_decimal(&mut out, white as u64);
                out.append(" (expected exactly 1 each)");
                out
            },
            BoardFault::KingSquares => "king square fields do not match the board".to_owned(),
            BoardFault::TooMany { total } => {
                let mut out = String::new();
                push_decimal(&mut out, total as u64);
                out.append(" pieces on board + in hand (shogi has at most 40)");
                assert(out@ =~= self.text());
                out
            },
        }
    }
}

/// How many of the first `n` squares hold a piece.
pub open spec fn pieces_on(board: Seq<Piece>, n: nat) -> nat
    decreases n,
{
    if n == 0 {
        0
    } else {
        pieces_on(board, (n - 1) as nat) + if board[n - 1].piece_type != PieceType::Empty {
            1nat
        } else {
            0nat
        }
    }
}

/// How many of the first `n` squares hold a king of `color`.
pub open spec fn kings_on(board: Seq<Piece>, color: Color, n: nat) -> nat
    decreases n,
{
    if n == 0 {
        0
    } else {
        kings_on(board, color, (n - 1) as nat) + if board[n - 1] == (Piece {
            color,
            piece_type: PieceType::King,
        }) {
            1nat
        } else {
            0nat
        }
    }
}

/// Whether a king of `color` stands on `sq`.
pub open spec fn king_stands(board: Seq<Piece>, sq: Square, color: Color) -> bool {
    sq.valid() && board[sq.0 as int] == (Piece { color, piece_type: PieceType::King })
}

/// The fault of a position, if it has one. The first that applies is reported.
pub open spec fn board_fault(board: ShogiBoard) -> Option<BoardFault> {
    let squares = board.board@;
    let black = kings_on(squares, Color::Black, 81);
    let white = kings_on(squares, Color::White, 81);
    let total = pieces_on(squares, 81) + board.black_hand.size() + board.white_hand.size();
    if black != 1 || white != 1 {
        Some(BoardFault::Kings { black: black as u32, white: white as u32 })
    } else if !king_stands(squares, board.black_king_sq, Color::Black) || !king_stands(
        squares,
        board.white_king_sq,
        Color::White,
    ) {
        Some(BoardFault::KingSquares)
    } else if total > 40 {
        Some(BoardFault::TooMany { total: total as u32 })
    } else {
        None
    }
}

fn king_matches(board: &ShogiBoard, sq: Square, color: Color) -> (r: bool)
    ensures
        r == king_stands(board.board@, sq, color),
{
    if !sq.is_valid() {
        return false;
    }
    let piece = board.board[sq.index()];
    piece.piece_type == PieceType::King && piece.color == color
}

/// Looks for cheap signs of corruption: each side has exactly one king, the king squares are
/// right, and there are no more pieces than in a shogi set. This is no full check of legality.
pub fn validate_board(board: &ShogiBoard) -> (r: Result<(), BoardFault>)
    ensures
        r == match board_fault(*board) {
            Some(fault) => Err::<(), BoardFault>(fault),
            None => Ok(()),
        },
{
    let mut on_board: u32 = 0;
    let mut black_kings: u32 = 0;
    let mut white_kings: u32 = 0;
    let mut sq: usize = 0;
    while sq < SQUARES
        invariant
            sq <= 81,
            on_board <= sq,
            black_kings <= sq,
            white_kings <= sq,
            on_board == pieces_on(board.board@, sq as nat),
            black_kings == kings_on(board.board@, Color::Black, sq as nat),
            white_kings == kings_on(board.board@, Color::White, sq as nat),
        decreases 81 - sq,
    {
        let piece = board.board[sq];
        if piece.is_some() {
            on_board += 1;
            if piece.piece_type == PieceType::King {
                match piece.color {
                    Color::Black => black_kings += 1,
                    Color::White => white_kings += 1,
                }
            }
        }
        sq += 1;
    }
    if black_kings != 1 || white_kings != 1 {
        return Err(BoardFault::Kings { black: black_kings, white: white_kings });
    }
    if !king_matches(board, board.black_king_sq, Color::Black) || !king_matches(
        board,
        board.white_king_sq,
        Color::White,
    ) {
        return Err(BoardFault::KingSquares);
    }
    let total: u32 = on_board + board.black_hand.total() + board.white_hand.total();
    if total > ALL_PIECES {
        return Err(BoardFault::TooMany { total });
    }
    Ok(())
}

proof fn lemma_pieces_on(board: Seq<Piece>, n: nat)
    ensures
        pieces_on(board, n) == those_below(
            n as int,
            |k: int| board[k].piece_type != PieceType::Empty,
        ).len(),
    decreases n,
{
    let held = |k: int| board[k].piece_type != PieceType::Empty;
    lemma_those_below(n as int, held);
    if n > 0 {
        lemma_pieces_on(board, (n - 1) as nat);
    }
}

proof fn lemma_kings_on(board: Seq<Piece>, color: Color, n: nat)
    ensures
        kings_on(board, color, n) == those_below(
            n as int,
            |k: int| board[k].piece_type == PieceType::King && board[k].color == color,
        ).len(),
    decreases n,
{
    let king = |k: int| board[k].piece_type == PieceType::King && board[k].color == color;
    lemma_those_below(n as int, king);
    if n > 0 {
        lemma_kings_on(board, color, (n - 1) as nat);
    }
}

/// What a position must be to be accepted: the king of each side stands on its recorded square and
/// nowhere else, and the squares that are not empty, with the pieces in both hands, are no more
/// than the forty pieces of a shogi set. What a refusal tells are these numbers themselves.
pub proof fn accepted_positions_have_their_pieces(board: ShogiBoard)
    ensures
        ({
            let squares = board.board@;
            let king = |color: Color|
                those_below(
                    81,
                    |k: int| squares[k].piece_type == PieceType::King && squares[k].color == color,
                );
            let placed = those_below(81, |k: int| squares[k].piece_type != PieceType::Empty);
            let (b, w) = (board.black_hand.counts@, board.white_hand.counts@);
            let total = placed.len() + (b[0] + b[1] + b[2] + b[3] + b[4] + b[5] + b[6]) + (w[0]
                + w[1] + w[2] + w[3] + w[4] + w[5] + w[6]);
            &&& board_fault(board) is None <==> {
                &&& king(Color::Black) == set![board.black_king_sq.0 as int]
                &&& king(Color::White) == set![board.white_king_sq.0 as int]
                &&& total <= 40
            }
            &&& board_fault(board) is Some && board_fault(board)->Some_0 is Kings <==> {
                ||| king(Color::Black).len() != 1
                ||| king(Color::White).len() != 1
            }
            &&& board_fault(board) matches Some(BoardFault::Kings { black, white }) ==> black
                == king(Color::Black).len() && white == king(Color::White).len()
            &&& board_fault(board) matches Some(BoardFault::TooMany { total: told }) ==> told
                == total && king(Color::Black) == set![board.black_king_sq.0 as int] && king(
                Color::White,
            ) == set![board.white_king_sq.0 as int]
        }),
{
    let squares = board.board@;
    lemma_pieces_on(squares, 81);
    lemma_those_below(81, |k: int| squares[k].piece_type != PieceType::Empty);
    lemma_one_king(squares, board.black_king_sq, Color::Black);
    lemma_one_king(squares, board.white_king_sq, Color::White);
}

proof fn lemma_one_king(squares: Seq<Piece>, sq: Square, color: Color)
    ensures
        ({
            let king = those_below(
                81,
                |k: int| squares[k].piece_type == PieceType::King && squares[k].color == color,
            );
            &&& king.finite()
            &&& king.len() == kings_on(squares, color, 81)
            &&& king.len() <= 81
            &&& king.len() == 1 && king_stands(squares, sq, color) <==> king == set![sq.0 as int]
        }),
{
    let p = |k: int| squares[k].piece_type == PieceType::King && squares[k].color == color;
    let king = those_below(81, p);
    lemma_kings_on(squares, color, 81);
    lemma_those_below(81, p);
    let at = sq.0 as int;
    if king.len() == 1 && king_stands(squares, sq, color) {
        assert(king.contains(at));
        let rest = king.remove(at);
        rest.lemma_len0_is_empty();
        assert(king =~= rest.insert(at));
        assert(king =~= set![at]);
    }
    if king == set![at] {
        assert(king.contains(at));
        assert(set![at].len() == 1);
    }
}

/// A record as the decoder gives it: the position, and what a batch takes of it.
#[derive(Debug)]
pub struct DecodedRecord {
    pub board: ShogiBoard,
    pub position: Position,
}

/// Why a chunk could not be decoded.
#[derive(Clone, Copy, Debug)]
pub enum ChunkError {
    /// A record decodes to an impossible position.
    Corrupt { record: u64, fault: BoardFault },
    /// A position has more active features than fit.
    Overflow(ActiveOverflow),
    /// The file gave another number of records than the chunk has.
    Changed { first: u64, last: u64, got: usize },
}

impl ChunkError {
    /// The class of the error.
    pub open spec fn class(self) -> ErrorKind {
        match self {
            ChunkError::Changed { .. } => ErrorKind::Other,
            _ => ErrorKind::InvalidData,
        }
    }

    /// The class of the error.
    pub fn kind(&self) -> (r: ErrorKind)
        ensures
            r == self.class(),
    {
        match self {
            ChunkError::Changed { .. } => ErrorKind::Other,
            _ => ErrorKind::InvalidData,
        }
    }

    /// The text of the error for the file at `path`.
    pub open spec fn text(self, path: Seq<char>) -> Seq<char> {
        match self {
            ChunkError::Corrupt { record, fault } => {
                "record "@ + decimal(record as nat) + " in "@ + path
                    + " decodes to a corrupt position ("@ + fault.text()
                    + "); refusing to write a score for it"@
            },
            ChunkError::Overflow(e) => e.text(),
            ChunkError::Changed { first, last, got } => {
                "chunk ["@ + decimal(first as nat) + ", "@ + decimal(last as nat) + ") of "@ + path
                    + " yielded "@ + decimal(got as nat) + " records (expected "@ + decimal(
                    (last - first) as nat,
                ) + "); the input changed while rescoring"@
            },
        }
    }

    /// The text of the error for the file at `path`.
    pub fn message(&self, path: &str) -> (r: String)
        requires
            *self matches ChunkError::Changed { first, last, .. } ==> first <= last,
        ensures
            r@ == self.text(path@),
    {
        match *self {
            ChunkError::Corrupt { record, fault } => {
                let mut out = "record ".to_owned();
                push_decimal(&mut out, record);
                out.append(" in ");
                out.append(path);
                out.append(" decodes to a corrupt position (");
                out.append(fault.message().as_str());
                out.append("); refusing to write a score for it");
                out
            },
            ChunkError::Overflow(e) => e.message(),
            ChunkError::Changed { first, last, got } => {
                let mut out = "chunk [".to_owned();
                push_decimal(&mut out, first);
                out.append(", ");
                push_decimal(&mut out, last);
                out.append(") of ");
                out.append(path);
                out.append(" yielded ");
                push_decimal(&mut out, got as u64);
                out.append(" records (expected ");
                push_decimal(&mut out, last - first);
                out.append("); the input changed while rescoring");
                out
            },
        }
    }
}

/// The positions of decoded records.
pub open spec fn positions_of(records: Seq<DecodedRecord>) -> Seq<Position> {
    Seq::new(records.len(), |k: int| records[k].position)
}

/// The error of the first record that has one; `first` is the number of the first record.
pub open spec fn record_error(
    records: Seq<DecodedRecord>,
    first: int,
    max_active: usize,
    feature_set: &'static str,
) -> Option<ChunkError>
    decreases records.len(),
{
    if records.len() == 0 {
        None
    } else {
        match record_error(records.drop_last(), first, max_active, feature_set) {
            Some(e) => Some(e),
            None => match board_fault(records.last().board) {
                Some(fault) => Some(
                    ChunkError::Corrupt { record: (first + records.len() - 1) as u64, fault },
                ),
                None => if records.last().position.stm@.len() > max_active {
                    Some(
                        ChunkError::Overflow(
                            ActiveOverflow {
                                written: records.last().position.stm@.len() as usize,
                                max_active,
                                feature_set,
                            },
                        ),
                    )
                } else {
                    None
                },
            },
        }
    }
}

/// The positions of a chunk with the last one repeated up to a multiple of `pad`.
pub open spec fn padded(positions: Seq<Position>, pad: int) -> Seq<Position> {
    let n = positions.len() as int;
    Seq::new(
        (n + (pad - n % pad) % pad) as nat,
        |k: int|
            if k < n {
                positions[k]
            } else {
                positions[n - 1]
            },
    )
}

proof fn lemma_record_error_prefix(
    records: Seq<DecodedRecord>,
    n: int,
    first: int,
    max_active: usize,
    feature_set: &'static str,
)
    requires
        0 <= n <= records.len(),
        record_error(records.take(n), first, max_active, feature_set) is Some,
    ensures
        record_error(records, first, max_active, feature_set) == record_error(
            records.take(n),
            first,
            max_active,
            feature_set,
        ),
    decreases records.len() - n,
{
    if n < records.len() {
        assert(records.take(n + 1).drop_last() =~= records.take(n));
        lemma_record_error_prefix(records, n + 1, first, max_active, feature_set);
    } else {
        assert(records.take(n) =~= records);
    }
}

proof fn lemma_padding(n: int, m: int, pad: int)
    requires
        0 <= n <= m,
        pad > 0,
        m < n + (pad - n % pad) % pad,
    ensures
        m % pad != 0,
{
    let q = n / pad;
    let r = n % pad;
    vstd::arithmetic::div_mod::lemma_fundamental_div_mod(n, pad);
    vstd::arithmetic::div_mod::lemma_mod_bound(n, pad);
    vstd::arithmetic::div_mod::lemma_mod_bound(pad - r, pad);
    if r == 0 {
        vstd::arithmetic::div_mod::lemma_mod_self_0(pad);
    } else {
        vstd::arithmetic::div_mod::lemma_small_mod((pad - r) as nat, pad as nat);
        vstd::arithmetic::mul::lemma_mul_is_commutative(pad, q);
        vstd::arithmetic::div_mod::lemma_fundamental_div_mod_converse(m, pad, q, r + (m - n));
    }
}

proof fn lemma_padded_len(n: int, pad: int)
    requires
        0 <= n,
        pad > 0,
    ensures
        0 <= (pad - n % pad) % pad < pad,
        (n + (pad - n % pad) % pad) % pad == 0,
{
    let r = n % pad;
    let q = n / pad;
    vstd::arithmetic::div_mod::lemma_fundamental_div_mod(n, pad);
    vstd::arithmetic::div_mod::lemma_mod_bound(n, pad);
    vstd::arithmetic::div_mod::lemma_mod_bound(pad - r, pad);
    if r == 0 {
        vstd::arithmetic::div_mod::lemma_mod_self_0(pad);
    } else {
        vstd::arithmetic::div_mod::lemma_small_mod((pad - r) as nat, pad as nat);
        assert(n + (pad - r) == pad * (q + 1)) by (nonlinear_arith)
            requires
                n == pad * q + r,
        ;
        vstd::arithmetic::div_mod::lemma_mod_multiples_basic(q + 1, pad);
        vstd::arithmetic::mul::lemma_mul_is_commutative(pad, q + 1);
    }
}

/// Padding stays within a capacity that is itself a multiple.
proof fn lemma_padding_fits(n: int, cap: int, pad: int)
    requires
        0 <= n <= cap,
        pad > 0,
        cap % pad == 0,
    ensures
        n + (pad - n % pad) % pad <= cap,
{
    if n + (pad - n % pad) % pad > cap {
        lemma_padding(n, cap, pad);
    }
}

/// Fills a chunk with its records: the batch gets every record's position in order, and the last
/// position again until the rows are a multiple of `pad_multiple`. The result is the number of
/// real records. `first..last` are the records that the chunk has to hold.
pub fn decode_chunk_into(
    first: u64,
    last: u64,
    pad_multiple: usize,
    records: &Vec<DecodedRecord>,
    slot: &mut BatchSlot,
) -> (r: Result<usize, ChunkError>)
    requires
        old(slot).0.wf(),
        pad_multiple > 0,
        old(slot).0.batch_size as int % pad_multiple as int == 0,
        first <= last,
        records@.len() <= last - first,
        last - first <= old(slot).0.batch_size,
        forall|k: int| 0 <= k < records@.len() ==> (#[trigger] records@[k]).position.wf(),
    ensures
        final(slot).0.wf(),
        final(slot).0.batch_size == old(slot).0.batch_size,
        final(slot).0.feature_set == old(slot).0.feature_set,
        match record_error(
            records@,
            first as int,
            old(slot).0.max_active,
            old(slot).0.feature_set.name,
        ) {
            Some(e) => r == Err::<usize, ChunkError>(e),
            None => if records@.len() != last - first {
                r == Err::<usize, ChunkError>(
                    ChunkError::Changed { first, last, got: records@.len() as usize },
                )
            } else {
                &&& r == Ok::<usize, ChunkError>(records@.len() as usize)
                &&& final(slot).0.rows() == rows_of(
                    padded(positions_of(records@), pad_multiple as int),
                )
                &&& final(slot).1@ == buckets_of(
                    padded(positions_of(records@), pad_multiple as int),
                )
            },
        },
{
    slot.0.reset();
    slot.1.clear();
    let n: usize = records.len();
    let mut i: usize = 0;
    let ghost positions = positions_of(records@);
    let ghost max_active = slot.0.max_active;
    let ghost name = slot.0.feature_set.name;
    proof {
        assert(records@.take(0) =~= seq![]);
        assert(slot.0.rows() =~= rows_of(positions.take(0)));
        assert(slot.1@ =~= buckets_of(positions.take(0)));
    }
    while i < n
        invariant
            n == records@.len(),
            i <= n,
            slot.0.wf(),
            slot.0.batch_size == old(slot).0.batch_size,
            slot.0.feature_set == old(slot).0.feature_set,
            max_active == old(slot).0.max_active,
            max_active == slot.0.max_active,
            name == old(slot).0.feature_set.name,
            n <= slot.0.batch_size,
            n <= last - first,
            positions == positions_of(records@),
            forall|k: int| 0 <= k < records@.len() ==> (#[trigger] records@[k]).position.wf(),
            slot.0.rows() == rows_of(positions.take(i as int)),
            slot.1@ == buckets_of(positions.take(i as int)),
            record_error(records@.take(i as int), first as int, max_active, name) is None,
        decreases n - i,
    {
        let record = &records[i];
        let ghost more = records@.take(i + 1);
        proof {
            assert(more.drop_last() =~= records@.take(i as int));
            assert(more.last() == records@[i as int]);
            assert(rows_of(positions.take(i as int)).len() == i);
        }
        if let Err(fault) = validate_board(&record.board) {
            let index: u64 = first + i as u64;
            proof {
                lemma_record_error_prefix(records@, i + 1, first as int, max_active, name);
            }
            return Err(ChunkError::Corrupt { record: index, fault });
        }
        match slot.0.push_decoded(&record.position) {
            Ok(_) => {},
            Err(e) => {
                proof {
                    lemma_record_error_prefix(records@, i + 1, first as int, max_active, name);
                }
                return Err(ChunkError::Overflow(e));
            },
        }
        slot.1.push(record.position.bucket as i32);
        proof {
            assert(positions.take(i + 1) =~= positions.take(i as int).push(record.position));
            assert(slot.0.rows() =~= rows_of(positions.take(i + 1)));
            assert(slot.1@ =~= buckets_of(positions.take(i + 1)));
        }
        i += 1;
    }
    assert(records@.take(n as int) =~= records@);
    if n as u64 != last - first {
        return Err(ChunkError::Changed { first, last, got: n });
    }
    proof {
        lemma_padded_len(n as int, pad_multiple as int);
        lemma_padding_fits(n as int, slot.0.batch_size as int, pad_multiple as int);
    }
    let ghost full = padded(positions, pad_multiple as int);
    if n > 0 {
        let record = &records[n - 1];
        proof {
            // The last record went in before, so it has no more features than fit.
            let all = records@;
            assert(all.last() == records@[n - 1]);
            assert(record_error(all, first as int, max_active, name) is None);
            assert(record.position.stm@.len() <= max_active);
            assert(positions.take(n as int) =~= full.take(n as int));
        }
        let mut m: usize = n;
        while m % pad_multiple != 0
            invariant
                pad_multiple > 0,
                n > 0,
                n == records@.len(),
                n <= m <= full.len(),
                full.len() <= slot.0.batch_size,
                full.len() == n + (pad_multiple - n as int % pad_multiple as int)
                    % pad_multiple as int,
                full == padded(positions, pad_multiple as int),
                positions == positions_of(records@),
                record == records@[n - 1],
                record.position.wf(),
                record.position.stm@.len() <= max_active,
                (full.len() as int) % (pad_multiple as int) == 0,
                slot.0.wf(),
                slot.0.batch_size == old(slot).0.batch_size,
                slot.0.feature_set == old(slot).0.feature_set,
                max_active == slot.0.max_active,
                slot.0.rows() == rows_of(full.take(m as int)),
                slot.1@ == buckets_of(full.take(m as int)),
            decreases full.len() - m,
        {
            proof {
                assert(m < full.len());
                assert(rows_of(full.take(m as int)).len() == m);
                assert(full[m as int] == record.position);
            }
            match slot.0.push_decoded(&record.position) {
                Ok(_) => {},
                Err(e) => {
                    return Err(ChunkError::Overflow(e));
                },
            }
            slot.1.push(record.position.bucket as i32);
            proof {
                assert(full.take(m + 1) =~= full.take(m as int).push(record.position));
                assert(slot.0.rows() =~= rows_of(full.take(m + 1)));
                assert(slot.1@ =~= buckets_of(full.take(m + 1)));
            }
            m += 1;
        }
        proof {
            if m < full.len() {
                lemma_padding(n as int, m as int, pad_multiple as int);
            }
            assert(full.take(m as int) =~= full);
        }
    } else {
        proof {
            assert(0int % (pad_multiple as int) == 0) by {
                vstd::arithmetic::div_mod::lemma_small_mod(0, pad_multiple as nat);
            }
            vstd::arithmetic::div_mod::lemma_mod_self_0(pad_multiple as int);
            assert(full =~= positions.take(0));
        }
    }
    Ok(n)
}

/// One chunk of the file, decoded. The rows behind `n_real` are padding.
#[derive(Debug)]
pub struct RescoreChunk {
    /// Its number, counted from zero.
    pub seq: u64,
    pub batch: Batch,
    pub buckets: Vec<i32>,
    /// Records of the file in it.
    pub n_real: usize,
}

/// Why an ordered loader could not be started.
#[derive(Clone, Copy, Debug, PartialEq, Eq, Structural)]
pub enum OrderedError {
    /// The file does not hold whole records.
    Torn { file_size: u64 },
    /// The start is behind the last record.
    StartPastEnd { start_record: u64, total_records: u64 },
}

impl OrderedError {
    /// The class of the error.
    pub open spec fn class(self) -> ErrorKind {
        match self {
            OrderedError::Torn { .. } => ErrorKind::InvalidData,
            OrderedError::StartPastEnd { .. } => ErrorKind::InvalidInput,
        }
    }

    /// The class of the error.
    pub fn kind(&self) -> (r: ErrorKind)
        ensures
            r == self.class(),
    {
        match self {
            OrderedError::Torn { .. } => ErrorKind::InvalidData,
            OrderedError::StartPastEnd { .. } => ErrorKind::InvalidInput,
        }
    }

    /// The text of the error for the file at `path`.
    pub open spec fn text(self, path: Seq<char>) -> Seq<char> {
        match self {
            OrderedError::Torn { file_size } => {
                "PSV file "@ + path + " size "@ + decimal(file_size as nat)
                    + " is not a multiple of the record size (40 bytes); refusing to rescore a torn file"@
            },
            OrderedError::StartPastEnd { start_record, total_records } => {
                "start record "@ + decimal(start_record as nat) + " exceeds the "@ + decimal(
                    total_records as nat,
                ) + " records in "@ + path
            },
        }
    }

    /// The text of the error for the file at `path`.
    pub fn message(&self, path: &str) -> (r: String)
        ensures
            r@ == self.text(path@),
    {
        match *self {
            OrderedError::Torn { file_size } => {
                let mut out = "PSV file ".to_owned();
                out.append(path);
                out.append(" size ");
                push_decimal(&mut out, file_size);
                out.append(
                    " is not a multiple of the record size (40 bytes); refusing to rescore a torn file",
                );
                out
            },
            OrderedError::StartPastEnd { start_record, total_records } => {
                let mut out = "start record ".to_owned();
                push_decimal(&mut out, start_record);
                out.append(" exceeds the ");
                push_decimal(&mut out, total_records);
                out.append(" records in ");
                out.append(path);
                out
            },
        }
    }
}

/// What comes from the workers.
#[derive(Debug)]
pub enum ChunkEvent {
    /// A decoded chunk.
    Chunk(RescoreChunk),
    /// A worker failed.
    Error(LoadError),
    /// All workers are gone; with the text of a panic, where one ended in a panic.
    Closed(Option<String>),
}

/// What a loader answers.
#[derive(Debug)]
pub enum ChunkStep {
    /// The next chunk in order.
    Chunk(RescoreChunk),
    /// Wait for the workers.
    Wait,
    /// Every chunk was given out.
    Done,
    /// Reading failed and stays failed.
    Failed(LoadError),
}

/// The model of the reordering.
pub struct OrderState {
    /// The chunk to give out next.
    pub next_seq: int,
    /// Chunks that came from the workers.
    pub received: int,
    /// Chunks that there are.
    pub expected: int,
    /// Chunks that came too early.
    pub pending: Map<u64, RescoreChunk>,
    /// Whether everything was given out.
    pub finished: bool,
    /// The text of the failure, once there was one.
    pub poisoned: Option<Seq<char>>,
}

/// The records that a loader reads, and how.
pub struct OrderPlan {
    pub total_records: int,
    pub start_record: int,
    pub chunk_records: int,
    pub workers: int,
}

/// The number of chunks.
pub open spec fn chunk_count(plan: OrderPlan) -> int {
    (plan.total_records - plan.start_record + plan.chunk_records - 1) / plan.chunk_records
}

/// The records of a chunk.
pub open spec fn chunk_first(plan: OrderPlan, seq: int) -> int {
    plan.start_record + seq * plan.chunk_records
}

pub open spec fn chunk_last(plan: OrderPlan, seq: int) -> int {
    if chunk_first(plan, seq) + plan.chunk_records < plan.total_records {
        chunk_first(plan, seq) + plan.chunk_records
    } else {
        plan.total_records
    }
}

/// Gives out the chunks of a file in order.
#[derive(Debug)]
pub struct OrderedPsvLoader {
    total_records: u64,
    start_record: u64,
    chunk_records: u64,
    num_workers: usize,
    pending: BTreeMap<u64, RescoreChunk>,
    next_seq: u64,
    chunks_received: u64,
    expected_chunks: u64,
    finished: bool,
    poisoned: Option<String>,
}

/// How many workers decode by default: as many as the machine has processors, but at most eight.
pub fn default_decode_workers(parallelism: Option<usize>) -> (r: usize)
    ensures
        r == match parallelism {
            Some(n) => if n < 8 {
                n
            } else {
                8
            },
            None => 1,
        },
{
    match parallelism {
        Some(n) => if n < 8 {
            n
        } else {
            8
        },
        None => 1,
    }
}

/// The text of a panic, where it has one.
pub fn panic_message(text: Option<&str>) -> (r: String)
    ensures
        r@ == match text {
            Some(text) => text@,
            None => "non-string panic payload"@,
        },
{
    match text {
        Some(text) => text.to_owned(),
        None => "non-string panic payload".to_owned(),
    }
}

/// The error of a worker that ended in a panic while it decoded `first..last`.
fn worker_panic_error(first: u64, last: u64, panic: &str) -> (r: LoadError)
    ensures
        r.kind == ErrorKind::Other,
        r.message@ == "decode worker panicked on records ["@ + decimal(first as nat) + ", "@
            + decimal(last as nat) + "): "@ + panic@,
{
    let mut out = "decode worker panicked on records [".to_owned();
    push_decimal(&mut out, first);
    out.append(", ");
    push_decimal(&mut out, last);
    out.append("): ");
    out.append(panic);
    LoadError { kind: ErrorKind::Other, message: out }
}

/// The text for chunks that never came.
pub open spec fn missing_text(received: int, expected: int) -> Seq<char> {
    "decode workers exited after delivering "@ + decimal(received as nat) + " of "@ + decimal(
        expected as nat,
    ) + " chunks; refusing to treat the missing tail as a clean EOF"@
}

/// The text for a chunk that is missing in the middle.
pub open spec fn gap_text(seq: int) -> Seq<char> {
    "chunk "@ + decimal(seq as nat)
        + " is missing while later chunks exist; refusing to continue with a gap in the record order"@
}

/// The state after a failure.
pub open spec fn poisoned_state(s: OrderState, text: Seq<char>) -> OrderState {
    OrderState { pending: Map::empty(), finished: true, poisoned: Some(text), ..s }
}

/// What the next call gives, and the state it leaves: after a failure its text again, else the
/// chunk that is due where it waits.
pub open spec fn next_gives(s: OrderState, t: OrderState, r: ChunkStep) -> bool {
    match s.poisoned {
        Some(text) => {
            &&& t == s
            &&& failed_with(r, text)
        },
        None => {
            let at = s.next_seq as u64;
            if s.pending.contains_key(at) {
                &&& r == ChunkStep::Chunk(s.pending[at])
                &&& t == (OrderState {
                    next_seq: s.next_seq + 1,
                    pending: s.pending.remove(at),
                    ..s
                })
            } else {
                &&& t == s
                &&& r == if s.finished {
                    ChunkStep::Done
                } else {
                    ChunkStep::Wait
                }
            }
        },
    }
}

/// Whether the loader waits for its workers: it has not ended, and the chunk that is due has not
/// come.
pub open spec fn may_receive(s: OrderState) -> bool {
    &&& s.poisoned is None
    &&& !s.finished
    &&& !s.pending.contains_key(s.next_seq as u64)
}

/// What the loader answers to what came from the workers, and the state it is in then.
pub open spec fn receive_gives(
    s: OrderState,
    event: ChunkEvent,
    t: OrderState,
    r: ChunkStep,
) -> bool {
    match event {
        ChunkEvent::Chunk(chunk) => if chunk.seq == s.next_seq {
            &&& r == ChunkStep::Chunk(chunk)
            &&& t == (OrderState { next_seq: s.next_seq + 1, received: s.received + 1, ..s })
        } else {
            &&& r == ChunkStep::Wait
            &&& t == (OrderState {
                received: s.received + 1,
                pending: s.pending.insert(chunk.seq, chunk),
                ..s
            })
        },
        ChunkEvent::Error(e) => {
            &&& r == ChunkStep::Failed(e)
            &&& t == poisoned_state(s, e.message@)
        },
        ChunkEvent::Closed(Some(panic)) => {
            &&& failed_with(r, "decode worker panicked: "@ + panic@)
            &&& t == poisoned_state(s, "decode worker panicked: "@ + panic@)
        },
        ChunkEvent::Closed(None) => if s.received != s.expected {
            &&& failed_with(r, missing_text(s.received, s.expected))
            &&& t == poisoned_state(s, missing_text(s.received, s.expected))
        } else if s.pending != Map::<u64, RescoreChunk>::empty() {
            &&& failed_with(r, gap_text(s.next_seq))
            &&& t == poisoned_state(s, gap_text(s.next_seq))
        } else {
            &&& r == ChunkStep::Done
            &&& t == (OrderState { finished: true, ..s })
        },
    }
}

/// How many batches go round: two for each worker and two for the caller.
pub open spec fn slot_count(plan: OrderPlan) -> int {
    2 * plan.workers + 2
}

/// The room for results: every batch, and one error of each worker.
pub open spec fn result_room(plan: OrderPlan) -> int {
    slot_count(plan) + plan.workers
}

/// A loader that has given out nothing.
pub open spec fn order_start(plan: OrderPlan) -> OrderState {
    OrderState {
        next_seq: 0,
        received: 0,
        expected: chunk_count(plan),
        pending: Map::empty(),
        finished: false,
        poisoned: None,
    }
}

impl View for OrderedPsvLoader {
    type V = OrderState;

    closed spec fn view(&self) -> OrderState {
        OrderState {
            next_seq: self.next_seq as int,
            received: self.chunks_received as int,
            expected: self.expected_chunks as int,
            pending: self.pending@,
            finished: self.finished,
            poisoned: match self.poisoned {
                Some(text) => Some(text@),
                None => None,
            },
        }
    }
}

impl OrderedPsvLoader {
    /// What the loader was started for.
    pub closed spec fn plan(&self) -> OrderPlan {
        OrderPlan {
            total_records: self.total_records as int,
            start_record: self.start_record as int,
            chunk_records: self.chunk_records as int,
            workers: self.num_workers as int,
        }
    }

    /// The chunks make up the records, and every chunk that waits is filed under its number.
    pub closed spec fn wf(&self) -> bool {
        &&& self.chunk_records >= 1
        &&& self.start_record <= self.total_records
        &&& self.total_records <= u64::MAX / 40
        &&& self.expected_chunks == chunk_count(self.plan())
        &&& forall|k: u64| #[trigger]
            self.pending@.contains_key(k) ==> self.pending@[k].seq == k
        &&& self.num_workers >= 1
    }

    /// A loader of the records from `start_record` on in a file of `file_size` bytes.
    pub fn spawn(
        file_size: u64,
        chunk_records: usize,
        pad_multiple: usize,
        num_workers: usize,
        num_buckets: usize,
        start_record: u64,
    ) -> (r: Result<Self, OrderedError>)
        requires
            chunk_records >= 1,
            pad_multiple >= 1,
            chunk_records as int % pad_multiple as int == 0,
            num_buckets >= 1,
            3 * num_workers + 5 <= usize::MAX,
        ensures
            if file_size % 40 != 0 {
                r == Err::<Self, OrderedError>(OrderedError::Torn { file_size })
            } else if start_record > file_size / 40 {
                r == Err::<Self, OrderedError>(
                    OrderedError::StartPastEnd {
                        start_record,
                        total_records: (file_size / 40) as u64,
                    },
                )
            } else {
                &&& r is Ok
                &&& r->Ok_0.wf()
                &&& r->Ok_0.plan() == (OrderPlan {
                    total_records: file_size as int / 40,
                    start_record: start_record as int,
                    chunk_records: chunk_records as int,
                    workers: if num_workers >= 1 {
                        num_workers as int
                    } else {
                        1
                    },
                })
                &&& r->Ok_0@ == order_start(r->Ok_0.plan())
            },
    {
        let num_workers: usize = if num_workers >= 1 {
            num_workers
        } else {
            1
        };
        if file_size % PSV_RECORD_BYTES != 0 {
            return Err(OrderedError::Torn { file_size });
        }
        let total_records: u64 = file_size / PSV_RECORD_BYTES;
        if start_record > total_records {
            return Err(OrderedError::StartPastEnd { start_record, total_records });
        }
        let chunk: u64 = chunk_records as u64;
        let rest: u64 = total_records - start_record;
        let expected_chunks: u64 = if rest == 0 {
            0
        } else {
            (rest - 1) / chunk + 1
        };
        proof {
            lemma_chunk_count(rest as int, chunk as int);
        }
        Ok(
            OrderedPsvLoader {
                total_records,
                start_record,
                chunk_records: chunk,
                num_workers,
                pending: BTreeMap::new(),
                next_seq: 0,
                chunks_received: 0,
                expected_chunks,
                finished: false,
                poisoned: None,
            },
        )
    }

    /// The workers to start.
    pub fn num_workers(&self) -> (r: usize)
        ensures
            r == self.plan().workers,
    {
        self.num_workers
    }

    /// The batches that go round: two for each worker and two for the caller.
    pub fn n_slots(&self) -> (r: usize)
        requires
            2 * self.plan().workers + 2 <= usize::MAX,
        ensures
            r == slot_count(self.plan()),
    {
        self.num_workers * 2 + 2
    }

    /// The room for results: every batch, and one error of each worker.
    pub fn result_capacity(&self) -> (r: usize)
        requires
            3 * self.plan().workers + 2 <= usize::MAX,
        ensures
            r == result_room(self.plan()),
    {
        self.num_workers * 2 + 2 + self.num_workers
    }

    /// The records of the whole file.
    pub fn total_records(&self) -> (r: u64)
        ensures
            r == self.plan().total_records,
    {
        self.total_records
    }

    /// The records that are given out.
    pub fn remaining_records(&self) -> (r: u64)
        requires
            self.wf(),
        ensures
            r == self.plan().total_records - self.plan().start_record,
    {
        self.total_records - self.start_record
    }

    /// The records of chunk `seq`, or `None` behind the last chunk.
    pub fn chunk_range(&self, seq: u64) -> (r: Option<(u64, u64)>)
        requires
            self.wf(),
        ensures
            r == if chunk_first(self.plan(), seq as int) < self.plan().total_records {
                Some(
                    (
                        chunk_first(self.plan(), seq as int) as u64,
                        chunk_last(self.plan(), seq as int) as u64,
                    ),
                )
            } else {
                None::<(u64, u64)>
            },
    {
        proof {
            lemma_chunk_first(self.plan(), seq as int);
        }
        if seq >= self.expected_chunks {
            return None;
        }
        let first: u64 = self.start_record + seq * self.chunk_records;
        let last: u64 = if self.chunk_records < self.total_records - first {
            first + self.chunk_records
        } else {
            self.total_records
        };
        Some((first, last))
    }

    /// The next chunk in order, where it is at hand.
    pub fn next_chunk(&mut self) -> (r: ChunkStep)
        requires
            old(self).wf(),
            old(self)@.next_seq < u64::MAX,
        ensures
            final(self).wf(),
            final(self).plan() == old(self).plan(),
            next_gives(old(self)@, final(self)@, r),
            r matches ChunkStep::Chunk(chunk) ==> chunk.seq == old(self)@.next_seq,
    {
        broadcast use vstd::std_specs::btree::group_btree_axioms;

        if let Some(text) = &self.poisoned {
            return ChunkStep::Failed(
                LoadError { kind: ErrorKind::Other, message: text.clone() },
            );
        }
        let at: u64 = self.next_seq;
        if let Some(chunk) = self.pending.remove(&at) {
            self.next_seq = at + 1;
            return ChunkStep::Chunk(chunk);
        }
        assert(self.pending@ =~= old(self).pending@);
        if self.finished {
            ChunkStep::Done
        } else {
            ChunkStep::Wait
        }
    }

    /// Takes what came from the workers. The chunk that is due is given out at once, an earlier
    /// comer waits for its turn. At the end everything must have come.
    pub fn receive(&mut self, event: ChunkEvent) -> (r: ChunkStep)
        requires
            old(self).wf(),
            may_receive(old(self)@),
            old(self)@.next_seq < u64::MAX,
            old(self)@.received < u64::MAX,
        ensures
            final(self).wf(),
            final(self).plan() == old(self).plan(),
            receive_gives(old(self)@, event, final(self)@, r),
    {
        broadcast use vstd::std_specs::btree::group_btree_axioms;

        match event {
            ChunkEvent::Chunk(chunk) => {
                self.chunks_received = self.chunks_received + 1;
                if chunk.seq == self.next_seq {
                    self.next_seq = self.next_seq + 1;
                    return ChunkStep::Chunk(chunk);
                }
                let seq: u64 = chunk.seq;
                self.pending.insert(seq, chunk);
                ChunkStep::Wait
            },
            ChunkEvent::Error(e) => self.poison(e),
            ChunkEvent::Closed(Some(panic)) => {
                let message = join2("decode worker panicked: ", panic.as_str());
                self.poison(LoadError { kind: ErrorKind::Other, message })
            },
            ChunkEvent::Closed(None) => {
                if self.chunks_received != self.expected_chunks {
                    let mut out = "decode workers exited after delivering ".to_owned();
                    push_decimal(&mut out, self.chunks_received);
                    out.append(" of ");
                    push_decimal(&mut out, self.expected_chunks);
                    out.append(" chunks; refusing to treat the missing tail as a clean EOF");
                    return self.poison(LoadError { kind: ErrorKind::Other, message: out });
                }
                if !self.pending.is_empty() {
                    assert(self.pending@ != Map::<u64, RescoreChunk>::empty());
                    let mut out = "chunk ".to_owned();
                    push_decimal(&mut out, self.next_seq);
                    out.append(
                        " is missing while later chunks exist; refusing to continue with a gap in the record order",
                    );
                    return self.poison(LoadError { kind: ErrorKind::Other, message: out });
                }
                assert(self.pending@ =~= Map::<u64, RescoreChunk>::empty());
                self.finished = true;
                ChunkStep::Done
            },
        }
    }

    /// Ends the loader: what waits is dropped, and the text is kept for the calls that follow.
    fn poison(&mut self, e: LoadError) -> (r: ChunkStep)
        requires
            old(self).wf(),
        ensures
            final(self).wf(),
            final(self).plan() == old(self).plan(),
            r == ChunkStep::Failed(e),
            final(self)@ == poisoned_state(old(self)@, e.message@),
    {
        self.pending.clear();
        self.finished = true;
        self.poisoned = Some(e.message.clone());
        ChunkStep::Failed(e)
    }
}

/// A failure with a text of the loader's own.
pub open spec fn failed_with(r: ChunkStep, text: Seq<char>) -> bool {
    r matches ChunkStep::Failed(e) && e.kind == ErrorKind::Other && e.message@ == text
}

proof fn lemma_chunk_count(rest: int, chunk: int)
    requires
        0 <= rest,
        chunk >= 1,
    ensures
        (rest + chunk - 1) / chunk == if rest == 0 {
            0
        } else {
            (rest - 1) / chunk + 1
        },
{
    if rest == 0 {
        vstd::arithmetic::div_mod::lemma_basic_div(chunk - 1, chunk);
    } else {
        assert((rest + chunk - 1) / chunk == (rest - 1) / chunk + 1) by (nonlinear_arith)
            requires
                chunk >= 1,
        ;
    }
}

proof fn lemma_chunk_first(plan: OrderPlan, seq: int)
    requires
        plan.chunk_records >= 1,
        0 <= plan.start_record <= plan.total_records,
        0 <= seq,
    ensures
        chunk_first(plan, seq) < plan.total_records <==> seq < chunk_count(plan),
        0 <= seq * plan.chunk_records,
{
    let c = plan.chunk_records;
    let n = plan.total_records - plan.start_record;
    let q = (n + c - 1) / c;
    vstd::arithmetic::div_mod::lemma_fundamental_div_mod(n + c - 1, c);
    vstd::arithmetic::div_mod::lemma_mod_bound(n + c - 1, c);
    assert(c * q == q * c) by (nonlinear_arith);
    if seq < q {
        assert(seq * c <= (q - 1) * c) by (nonlinear_arith)
            requires
                seq <= q - 1,
                c >= 1,
        ;
        assert((q - 1) * c == q * c - c) by (nonlinear_arith);
    } else {
        assert(seq * c >= q * c) by (nonlinear_arith)
            requires
                seq >= q,
                c >= 1,
        ;
    }
    assert(0 <= seq * c) by (nonlinear_arith)
        requires
            seq >= 0,
            c >= 1,
    ;
}

/// The chunks cover every record from the start on, each exactly once: record `r` is in chunk
/// `(r - start) / chunk_records` and in no other.
pub proof fn chunks_cover_every_record_once(plan: OrderPlan, record: int, seq: int)
    requires
        plan.chunk_records >= 1,
        0 <= plan.start_record <= record < plan.total_records,
        0 <= seq,
    ensures
        ({
            let owner = (record - plan.start_record) / plan.chunk_records;
            &&& 0 <= owner < chunk_count(plan)
            &&& chunk_first(plan, owner) <= record < chunk_last(plan, owner)
            &&& seq < chunk_count(plan) && chunk_first(plan, seq) <= record < chunk_last(plan, seq)
                ==> seq == owner
        }),
{
    let c = plan.chunk_records;
    let n = record - plan.start_record;
    let owner = n / c;
    vstd::arithmetic::div_mod::lemma_fundamental_div_mod(n, c);
    vstd::arithmetic::div_mod::lemma_mod_bound(n, c);
    vstd::arithmetic::div_mod::lemma_div_pos_is_pos(n, c);
    assert(c * owner == owner * c) by (nonlinear_arith);
    lemma_chunk_first(plan, owner);
    if seq < chunk_count(plan) && chunk_first(plan, seq) <= record < chunk_last(plan, seq) {
        vstd::arithmetic::div_mod::lemma_fundamental_div_mod_converse(n, c, seq, n - seq * c);
    }
}

/// What a worker made of its chunk.
#[derive(Debug)]
pub enum DecodeOutcome {
    /// So many records were decoded.
    Decoded(usize),
    /// The chunk could not be decoded.
    Failed(LoadError),
    /// Decoding ended in a panic with this text.
    Panicked(String),
}

/// What a worker sends for chunk `seq` of the records `first..last`. A panic is sent as an error,
/// so that it cannot pass for the end of the file.
pub fn chunk_result(
    seq: u64,
    first: u64,
    last: u64,
    outcome: DecodeOutcome,
    slot: BatchSlot,
) -> (r: ChunkEvent)
    ensures
        match outcome {
            DecodeOutcome::Decoded(n_real) => r == ChunkEvent::Chunk(
                RescoreChunk { seq, batch: slot.0, buckets: slot.1, n_real },
            ),
            DecodeOutcome::Failed(e) => r == ChunkEvent::Error(e),
            DecodeOutcome::Panicked(text) => {
                r matches ChunkEvent::Error(e) && e.kind == ErrorKind::Other && e.message@
                    == "decode worker panicked on records ["@ + decimal(first as nat) + ", "@
                    + decimal(last as nat) + "): "@ + text@
            },
        },
{
    match outcome {
        DecodeOutcome::Decoded(n_real) => ChunkEvent::Chunk(
            RescoreChunk { seq, batch: slot.0, buckets: slot.1, n_real },
        ),
        DecodeOutcome::Failed(e) => ChunkEvent::Error(e),
        DecodeOutcome::Panicked(text) => ChunkEvent::Error(
            worker_panic_error(first, last, text.as_str()),
        ),
    }
}

/// What belongs to the records of a chunk, of what belongs to all records from the start record on.
pub open spec fn chunk_part<T>(plan: OrderPlan, items: Seq<T>, seq: int) -> Seq<T> {
    items.subrange(
        chunk_first(plan, seq) - plan.start_record,
        chunk_last(plan, seq) - plan.start_record,
    )
}

/// What belongs to the first `n` chunks, one chunk behind the other.
pub open spec fn chunks_joined<T>(plan: OrderPlan, items: Seq<T>, n: nat) -> Seq<T>
    decreases n,
{
    if n == 0 {
        seq![]
    } else {
        chunks_joined(plan, items, (n - 1) as nat) + chunk_part(plan, items, n - 1)
    }
}

/// The chunks in order are the file in order: joined they are all its records from the start
/// record on, whoever decoded them and whenever.
pub proof fn chunks_joined_are_the_file<T>(plan: OrderPlan, items: Seq<T>, n: nat)
    requires
        plan.chunk_records >= 1,
        0 <= plan.start_record <= plan.total_records,
        items.len() == plan.total_records - plan.start_record,
        n <= chunk_count(plan),
    ensures
        n < chunk_count(plan) ==> chunks_joined(plan, items, n) == items.take(
            n * plan.chunk_records,
        ),
        n == chunk_count(plan) ==> chunks_joined(plan, items, n) == items,
    decreases n,
{
    let c = plan.chunk_records;
    let total = items.len() as int;
    if n == 0 {
        assert(0 * c == 0) by (nonlinear_arith);
        lemma_chunk_first(plan, 0);
        assert(chunks_joined(plan, items, 0) =~= items.take(0));
        if chunk_count(plan) == 0 {
            assert(chunks_joined(plan, items, 0) =~= items);
        }
    } else {
        let m = (n - 1) as nat;
        chunks_joined_are_the_file(plan, items, m);
        lemma_chunk_first(plan, m as int);
        lemma_chunk_first(plan, n as int);
        assert(n * c == m * c + c) by (nonlinear_arith)
            requires
                n == m + 1,
        ;
        let part = chunk_part(plan, items, m as int);
        if n < chunk_count(plan) {
            assert(chunks_joined(plan, items, n) =~= items.take(n * c));
        } else {
            assert(chunks_joined(plan, items, n) =~= items);
        }
    }
}

/// Every chunk that came was given out or waits, and none waits that was given out before.
pub open spec fn every_chunk_accounted(s: OrderState) -> bool {
    &&& s.pending.dom().finite()
    &&& s.received == s.next_seq + s.pending.len()
    &&& forall|k: u64| #[trigger] s.pending.contains_key(k) ==> s.next_seq <= k
}

/// As long as the workers send every chunk once, each chunk stays accounted for, whatever the
/// order they come in, and the loader says it is done only after it has given out all of them.
pub proof fn nothing_is_lost(s: OrderState, chunk: RescoreChunk)
    requires
        every_chunk_accounted(s),
        0 <= s.next_seq < u64::MAX,
        s.next_seq <= chunk.seq,
        !s.pending.contains_key(chunk.seq),
    ensures
        // A chunk that is due goes out, another one waits.
        chunk.seq == s.next_seq ==> every_chunk_accounted(
            OrderState { next_seq: s.next_seq + 1, received: s.received + 1, ..s },
        ),
        chunk.seq != s.next_seq ==> every_chunk_accounted(
            OrderState {
                received: s.received + 1,
                pending: s.pending.insert(chunk.seq, chunk),
                ..s
            },
        ),
        // A chunk that waited goes out.
        s.pending.contains_key(s.next_seq as u64) ==> every_chunk_accounted(
            OrderState {
                next_seq: s.next_seq + 1,
                pending: s.pending.remove(s.next_seq as u64),
                ..s
            },
        ),
        // The end.
        s.received == s.expected && s.pending == Map::<u64, RescoreChunk>::empty() ==> s.next_seq
            == s.expected,
{
    broadcast use vstd::map::group_map_axioms;
    broadcast use vstd::map_lib::group_map_properties;
    broadcast use vstd::set::group_set_axioms;

    let t = s.pending.insert(chunk.seq, chunk);
    assert(t.dom() =~= s.pending.dom().insert(chunk.seq));
    let u = s.pending.remove(s.next_seq as u64);
    assert(u.dom() =~= s.pending.dom().remove(s.next_seq as u64));
    if chunk.seq == s.next_seq {
        assert forall|k: u64| #[trigger] s.pending.contains_key(k) implies s.next_seq + 1 <= k by {
            assert(k != chunk.seq);
        }
    }
}

/// One call of a loader, with its answer.
pub enum OrderTurn {
    Next(ChunkStep),
    Receive(ChunkEvent, ChunkStep),
}

impl OrderTurn {
    /// The answer.
    pub open spec fn answer(self) -> ChunkStep {
        match self {
            OrderTurn::Next(r) => r,
            OrderTurn::Receive(_, r) => r,
        }
    }

    /// The chunk that came from a worker.
    pub open spec fn brought(self) -> Option<RescoreChunk> {
        match self {
            OrderTurn::Receive(ChunkEvent::Chunk(chunk), _) => Some(chunk),
            _ => None,
        }
    }
}

/// Whether a call leads from one state to another.
pub open spec fn is_turn(s: OrderState, turn: OrderTurn, t: OrderState) -> bool {
    match turn {
        OrderTurn::Next(r) => next_gives(s, t, r),
        OrderTurn::Receive(event, r) => may_receive(s) && receive_gives(s, event, t, r),
    }
}

/// Whether calls lead through these states.
pub open spec fn is_run(states: Seq<OrderState>, turns: Seq<OrderTurn>) -> bool {
    &&& states.len() == turns.len() + 1
    &&& forall|i: int|
        0 <= i < turns.len() ==> is_turn(states[i], #[trigger] turns[i], states[i + 1])
}

/// The chunks that calls gave, in order.
pub open spec fn chunks_given(turns: Seq<OrderTurn>) -> Seq<RescoreChunk>
    decreases turns.len(),
{
    if turns.len() == 0 {
        seq![]
    } else {
        match turns.last().answer() {
            ChunkStep::Chunk(chunk) => chunks_given(turns.drop_last()).push(chunk),
            _ => chunks_given(turns.drop_last()),
        }
    }
}

/// Whether the chunk with this number came from a worker.
pub open spec fn was_received(turns: Seq<OrderTurn>, seq: u64) -> bool {
    exists|i: int|
        0 <= i < turns.len() && (#[trigger] turns[i]).brought() is Some
            && turns[i].brought()->Some_0.seq == seq
}

/// Whether the workers sent every chunk at most once.
pub open spec fn each_once(turns: Seq<OrderTurn>) -> bool {
    forall|i: int, j: int|
        0 <= i < j < turns.len() && (#[trigger] turns[i]).brought() is Some
            && (#[trigger] turns[j]).brought() is Some ==> turns[i].brought()->Some_0.seq
            != turns[j].brought()->Some_0.seq
}

/// Whether a chunk holds what a worker makes of its records: their positions in order, the last one
/// repeated up to a multiple of `pad`. `positions` are those of all records from the start on.
pub open spec fn holds_chunk(
    plan: OrderPlan,
    positions: Seq<Position>,
    pad: int,
    chunk: RescoreChunk,
) -> bool {
    let part = chunk_part(plan, positions, chunk.seq as int);
    &&& chunk.seq < chunk_count(plan)
    &&& chunk.n_real == part.len()
    &&& chunk.batch.rows() == rows_of(padded(part, pad))
    &&& chunk.buckets@ == buckets_of(padded(part, pad))
}

/// What the workers sent over some calls is right, and was sent once.
pub open spec fn workers_are_right(
    plan: OrderPlan,
    positions: Seq<Position>,
    pad: int,
    turns: Seq<OrderTurn>,
) -> bool {
    &&& each_once(turns)
    &&& forall|i: int|
        0 <= i < turns.len() && (#[trigger] turns[i]).brought() is Some ==> holds_chunk(
            plan,
            positions,
            pad,
            turns[i].brought()->Some_0,
        )
}

/// What holds of a state that calls led to.
spec fn in_order(
    plan: OrderPlan,
    positions: Seq<Position>,
    pad: int,
    turns: Seq<OrderTurn>,
    s: OrderState,
) -> bool {
    let given = chunks_given(turns);
    &&& s.expected == chunk_count(plan)
    &&& s.next_seq == given.len()
    &&& s.next_seq <= s.expected
    &&& forall|k: int|
        0 <= k < given.len() ==> (#[trigger] given[k]).seq == k && holds_chunk(
            plan,
            positions,
            pad,
            given[k],
        )
    &&& forall|k: u64| #[trigger]
        s.pending.contains_key(k) ==> s.pending[k].seq == k && holds_chunk(
            plan,
            positions,
            pad,
            s.pending[k],
        )
    &&& s.poisoned is None ==> {
        &&& every_chunk_accounted(s)
        &&& forall|k: u64| #[trigger]
            was_received(turns, k) == (k < s.next_seq || s.pending.contains_key(k))
        &&& s.finished ==> s.next_seq == s.expected && s.pending == Map::<
            u64,
            RescoreChunk,
        >::empty()
    }
    &&& s.poisoned is Some ==> s.pending == Map::<u64, RescoreChunk>::empty() && s.finished
}

proof fn lemma_run_prefix(states: Seq<OrderState>, turns: Seq<OrderTurn>)
    requires
        is_run(states, turns),
        turns.len() > 0,
    ensures
        is_run(states.drop_last(), turns.drop_last()),
        is_turn(states[turns.len() - 1], turns.last(), states.last()),
{
    let a = states.drop_last();
    let b = turns.drop_last();
    assert forall|i: int| 0 <= i < b.len() implies is_turn(a[i], #[trigger] b[i], a[i + 1]) by {
        assert(b[i] == turns[i]);
    }
    assert(turns[turns.len() - 1] == turns.last());
}

proof fn lemma_received_grows(turns: Seq<OrderTurn>, k: u64)
    requires
        turns.len() > 0,
    ensures
        was_received(turns, k) == (was_received(turns.drop_last(), k) || (turns.last().brought()
            is Some && turns.last().brought()->Some_0.seq == k)),
{
    let rest = turns.drop_last();
    if was_received(rest, k) {
        let i = choose|i: int|
            0 <= i < rest.len() && (#[trigger] rest[i]).brought() is Some
                && rest[i].brought()->Some_0.seq == k;
        assert(turns[i] == rest[i]);
    }
    if was_received(turns, k) {
        let i = choose|i: int|
            0 <= i < turns.len() && (#[trigger] turns[i]).brought() is Some
                && turns[i].brought()->Some_0.seq == k;
        if i < rest.len() {
            assert(rest[i] == turns[i]);
        }
    }
    if turns.last().brought() is Some {
        assert(turns[turns.len() - 1] == turns.last());
    }
}

proof fn lemma_runs_stay_in_order(
    plan: OrderPlan,
    positions: Seq<Position>,
    pad: int,
    states: Seq<OrderState>,
    turns: Seq<OrderTurn>,
)
    requires
        plan.chunk_records >= 1,
        0 <= plan.start_record <= plan.total_records,
        chunk_count(plan) < u64::MAX,
        is_run(states, turns),
        states[0] == order_start(plan),
        workers_are_right(plan, positions, pad, turns),
    ensures
        in_order(plan, positions, pad, turns, states.last()),
    decreases turns.len(),
{
    broadcast use vstd::map::group_map_axioms;

    let t = states.last();
    if turns.len() == 0 {
        lemma_chunk_first(plan, 0);
        assert(states.last() == states[0]);
        vstd::arithmetic::div_mod::lemma_div_pos_is_pos(
            plan.total_records - plan.start_record + plan.chunk_records - 1,
            plan.chunk_records,
        );
        assert(t.pending.dom() =~= Set::empty());
    } else {
        let rest = turns.drop_last();
        let s = states[turns.len() - 1];
        let turn = turns.last();
        lemma_run_prefix(states, turns);
        assert(states.drop_last().last() == s);
        assert(workers_are_right(plan, positions, pad, rest)) by {
            assert forall|i: int, j: int|
                0 <= i < j < rest.len() && (#[trigger] rest[i]).brought() is Some
                    && (#[trigger] rest[j]).brought() is Some implies rest[i].brought()->Some_0.seq
                != rest[j].brought()->Some_0.seq by {
                assert(rest[i] == turns[i] && rest[j] == turns[j]);
            }
            assert forall|i: int|
                0 <= i < rest.len() && (#[trigger] rest[i]).brought() is Some implies holds_chunk(
                plan,
                positions,
                pad,
                rest[i].brought()->Some_0,
            ) by {
                assert(rest[i] == turns[i]);
            }
        }
        lemma_runs_stay_in_order(plan, positions, pad, states.drop_last(), rest);
        assert(in_order(plan, positions, pad, rest, s));
        assert forall|k: u64| true implies was_received(turns, k) == (#[trigger] was_received(
            rest,
            k,
        ) || (turn.brought() is Some && turn.brought()->Some_0.seq == k)) by {
            lemma_received_grows(turns, k);
        }
        match turn {
            OrderTurn::Next(r) => {
                if s.poisoned is None && s.pending.contains_key(s.next_seq as u64) {
                    let at = s.next_seq as u64;
                    assert(holds_chunk(plan, positions, pad, s.pending[at]));
                    lemma_next_is_accounted(s);
                    assert(every_chunk_accounted(t));
                    assert forall|k: u64| #[trigger] was_received(turns, k) == (k < t.next_seq
                        || t.pending.contains_key(k)) by {
                        assert(was_received(rest, k) == (k < s.next_seq
                            || s.pending.contains_key(k)));
                    }
                } else if s.poisoned is None {
                    assert forall|k: u64| #[trigger] was_received(turns, k) == (k < t.next_seq
                        || t.pending.contains_key(k)) by {
                        assert(was_received(rest, k) == (k < s.next_seq
                            || s.pending.contains_key(k)));
                    }
                }
            },
            OrderTurn::Receive(event, r) => match event {
                ChunkEvent::Chunk(chunk) => {
                    assert(turns[turns.len() - 1] == turn);
                    assert(holds_chunk(plan, positions, pad, chunk));
                    assert(!was_received(rest, chunk.seq)) by {
                        if was_received(rest, chunk.seq) {
                            let i = choose|i: int|
                                0 <= i < rest.len() && (#[trigger] rest[i]).brought() is Some
                                    && rest[i].brought()->Some_0.seq == chunk.seq;
                            assert(turns[i] == rest[i]);
                        }
                    }
                    nothing_is_lost(s, chunk);
                    assert(every_chunk_accounted(t));
                    assert forall|k: u64| #[trigger] was_received(turns, k) == (k < t.next_seq
                        || t.pending.contains_key(k)) by {
                        assert(was_received(rest, k) == (k < s.next_seq
                            || s.pending.contains_key(k)));
                    }
                },
                ChunkEvent::Closed(None) => {
                    if t.poisoned is None {
                        assert(s.pending.len() == 0);
                        assert forall|k: u64| #[trigger] was_received(turns, k) == (k < t.next_seq
                            || t.pending.contains_key(k)) by {
                            assert(was_received(rest, k) == (k < s.next_seq
                                || s.pending.contains_key(k)));
                        }
                    }
                },
                _ => {},
            },
        }
    }
}

proof fn lemma_next_is_accounted(s: OrderState)
    requires
        every_chunk_accounted(s),
        0 <= s.next_seq < u64::MAX,
        s.pending.contains_key(s.next_seq as u64),
    ensures
        every_chunk_accounted(
            OrderState {
                next_seq: s.next_seq + 1,
                pending: s.pending.remove(s.next_seq as u64),
                ..s
            },
        ),
{
    broadcast use vstd::map::group_map_axioms;
    broadcast use vstd::map_lib::group_map_properties;
    broadcast use vstd::set::group_set_axioms;

    let u = s.pending.remove(s.next_seq as u64);
    assert(u.dom() =~= s.pending.dom().remove(s.next_seq as u64));
}

/// Whatever the order that the workers send their chunks in, the `k`-th chunk that is given out is
/// chunk `k`. When the loader says that it is done, all of them were given out.
pub proof fn chunks_are_given_in_order(
    plan: OrderPlan,
    positions: Seq<Position>,
    pad: int,
    states: Seq<OrderState>,
    turns: Seq<OrderTurn>,
)
    requires
        plan.chunk_records >= 1,
        0 <= plan.start_record <= plan.total_records,
        chunk_count(plan) < u64::MAX,
        is_run(states, turns),
        states[0] == order_start(plan),
        workers_are_right(plan, positions, pad, turns),
    ensures
        chunks_given(turns).len() <= chunk_count(plan),
        forall|k: int|
            0 <= k < chunks_given(turns).len() ==> (#[trigger] chunks_given(turns)[k]).seq == k
                && holds_chunk(plan, positions, pad, chunks_given(turns)[k]),
        turns.len() > 0 && turns.last().answer() is Done ==> chunks_given(turns).len()
            == chunk_count(plan),
{
    lemma_runs_stay_in_order(plan, positions, pad, states, turns);
    if turns.len() > 0 {
        assert(turns[turns.len() - 1] == turns.last());
    }
}

/// The shape of a chunk: it has a full chunk of records, or the rest at the end; its rows are the
/// next multiple of `pad`, each with a bucket; and every row behind the records is the last record's
/// again.
pub proof fn chunk_shape(
    plan: OrderPlan,
    positions: Seq<Position>,
    pad: int,
    chunk: RescoreChunk,
    i: int,
)
    requires
        plan.chunk_records >= 1,
        0 <= plan.start_record <= plan.total_records,
        positions.len() == plan.total_records - plan.start_record,
        pad >= 1,
        holds_chunk(plan, positions, pad, chunk),
    ensures
        ({
            let left = plan.total_records - plan.start_record - chunk.seq * plan.chunk_records;
            let rows = chunk.batch.rows();
            &&& chunk.n_real >= 1
            &&& chunk.n_real == if left < plan.chunk_records {
                left
            } else {
                plan.chunk_records
            }
            &&& rows.len() == chunk.batch.n_positions
            &&& chunk.n_real <= rows.len() < chunk.n_real + pad
            &&& rows.len() as int % pad == 0
            &&& chunk.buckets@.len() == rows.len()
            &&& chunk.n_real <= i < rows.len() ==> rows[i] == rows[chunk.n_real - 1]
                && chunk.buckets@[i] == chunk.buckets@[chunk.n_real - 1]
        }),
{
    lemma_chunk_first(plan, chunk.seq as int);
    lemma_padded_len(chunk.n_real as int, pad);
}

/// The rows of the records of chunks, one chunk behind the other, without the padding.
pub open spec fn record_rows(chunks: Seq<RescoreChunk>) -> Seq<Row>
    decreases chunks.len(),
{
    if chunks.len() == 0 {
        seq![]
    } else {
        record_rows(chunks.drop_last()) + chunks.last().batch.rows().take(
            chunks.last().n_real as int,
        )
    }
}

/// The buckets of the records of chunks, one chunk behind the other, without the padding.
pub open spec fn record_buckets(chunks: Seq<RescoreChunk>) -> Seq<i32>
    decreases chunks.len(),
{
    if chunks.len() == 0 {
        seq![]
    } else {
        record_buckets(chunks.drop_last()) + chunks.last().buckets@.take(
            chunks.last().n_real as int,
        )
    }
}

proof fn lemma_record_rows(
    plan: OrderPlan,
    positions: Seq<Position>,
    pad: int,
    chunks: Seq<RescoreChunk>,
)
    requires
        plan.chunk_records >= 1,
        0 <= plan.start_record <= plan.total_records,
        positions.len() == plan.total_records - plan.start_record,
        pad >= 1,
        forall|k: int|
            0 <= k < chunks.len() ==> (#[trigger] chunks[k]).seq == k && holds_chunk(
                plan,
                positions,
                pad,
                chunks[k],
            ),
    ensures
        record_rows(chunks) == rows_of(chunks_joined(plan, positions, chunks.len())),
        record_buckets(chunks) == buckets_of(chunks_joined(plan, positions, chunks.len())),
    decreases chunks.len(),
{
    if chunks.len() == 0 {
        assert(record_rows(chunks) =~= rows_of(chunks_joined(plan, positions, 0)));
        assert(record_buckets(chunks) =~= buckets_of(chunks_joined(plan, positions, 0)));
    } else {
        let n = (chunks.len() - 1) as nat;
        let rest = chunks.drop_last();
        assert forall|k: int| 0 <= k < rest.len() implies (#[trigger] rest[k]).seq == k
            && holds_chunk(plan, positions, pad, rest[k]) by {
            assert(rest[k] == chunks[k]);
        }
        lemma_record_rows(plan, positions, pad, rest);
        let last = chunks.last();
        assert(chunks[n as int] == last);
        let part = chunk_part(plan, positions, n as int);
        lemma_padded_len(part.len() as int, pad);
        assert(last.batch.rows().take(last.n_real as int) =~= rows_of(part));
        assert(last.buckets@.take(last.n_real as int) =~= buckets_of(part));
        assert(record_rows(chunks) =~= rows_of(chunks_joined(plan, positions, chunks.len())));
        assert(record_buckets(chunks) =~= buckets_of(
            chunks_joined(plan, positions, chunks.len()),
        ));
    }
}

/// A loader that says it is done has given the sequential decode of its file: its chunks without
/// their padding are the rows and the buckets of all records from the start on, in order. So any two
/// loaders over the same file with the same chunks give the same, however many workers they have
/// and however these take turns.
pub proof fn ordered_chunks_are_the_sequential_decode(
    plan: OrderPlan,
    positions: Seq<Position>,
    pad: int,
    states: Seq<OrderState>,
    turns: Seq<OrderTurn>,
)
    requires
        plan.chunk_records >= 1,
        0 <= plan.start_record <= plan.total_records,
        positions.len() == plan.total_records - plan.start_record,
        chunk_count(plan) < u64::MAX,
        pad >= 1,
        is_run(states, turns),
        states[0] == order_start(plan),
        workers_are_right(plan, positions, pad, turns),
        turns.len() > 0,
        turns.last().answer() is Done,
    ensures
        chunks_given(turns).len() == chunk_count(plan),
        record_rows(chunks_given(turns)) == rows_of(positions),
        record_buckets(chunks_given(turns)) == buckets_of(positions),
        forall|k: int|
            0 <= k < chunks_given(turns).len() ==> {
                let part = chunk_part(plan, positions, k);
                let chunk = #[trigger] chunks_given(turns)[k];
                &&& chunk.n_real == part.len()
                &&& chunk.batch.rows() == rows_of(padded(part, pad))
                &&& chunk.buckets@ == buckets_of(padded(part, pad))
            },
{
    chunks_are_given_in_order(plan, positions, pad, states, turns);
    lemma_record_rows(plan, positions, pad, chunks_given(turns));
    chunks_joined_are_the_file(plan, positions, chunks_given(turns).len());
}

/// After a failure every later call fails with the same text: no chunk comes any more, and the end
/// of the file is never reported.
pub proof fn failure_is_repeated(
    states: Seq<OrderState>,
    turns: Seq<OrderTurn>,
    failed: int,
    later: int,
)
    requires
        is_run(states, turns),
        0 <= failed < later < turns.len(),
        turns[failed].answer() is Failed,
    ensures
        turns[later].answer() matches ChunkStep::Failed(e) && e.message@
            == turns[failed].answer()->Failed_0.message@,
        states[later].poisoned == Some(turns[failed].answer()->Failed_0.message@),
    decreases later - failed,
{
    assert(is_turn(states[failed], turns[failed], states[failed + 1]));
    if later > failed + 1 {
        failure_is_repeated(states, turns, failed, later - 1);
        assert(is_turn(states[later - 1], turns[later - 1], states[later]));
    }
    assert(is_turn(states[later], turns[later], states[later + 1]));
}

/// Where the batches of a loader are, but for those that wait in it to be put in order.
pub struct Traffic {
    /// Empty batches in the pool.
    pub pool: int,
    /// Workers that have not ended.
    pub running: int,
    /// Batches that workers fill.
    pub working: int,
    /// Chunks in the channel of the results.
    pub sent: int,
    /// Errors in the channel of the results.
    pub errors: int,
    /// Chunks with the caller.
    pub held: int,
}

/// What can happen to a batch.
pub enum TrafficStep {
    /// A worker borrows an empty batch.
    Borrow,
    /// A worker sends a chunk.
    Send,
    /// A worker sends an error and ends. Its batch is lost.
    Fail,
    /// A worker finds nothing left to read and ends. Its batch is lost.
    Leave,
    /// The caller asks for a chunk, or takes a result out of the channel.
    Call(OrderTurn),
    /// The caller gives a batch back.
    Recycle,
}

/// All batches in the pool, and no worker at work.
pub open spec fn traffic_start(plan: OrderPlan) -> Traffic {
    Traffic {
        pool: slot_count(plan),
        running: plan.workers,
        working: 0,
        sent: 0,
        errors: 0,
        held: 0,
    }
}

/// Whether a step leads from one loader and its batches to another.
pub open spec fn flows(
    s: OrderState,
    a: Traffic,
    step: TrafficStep,
    t: OrderState,
    b: Traffic,
) -> bool {
    match step {
        TrafficStep::Borrow => {
            &&& t == s
            &&& a.pool > 0 && a.working < a.running
            &&& b == (Traffic { pool: a.pool - 1, working: a.working + 1, ..a })
        },
        TrafficStep::Send => {
            &&& t == s
            &&& a.working > 0
            &&& b == (Traffic { working: a.working - 1, sent: a.sent + 1, ..a })
        },
        TrafficStep::Fail => {
            &&& t == s
            &&& a.working > 0
            &&& b == (Traffic {
                working: a.working - 1,
                running: a.running - 1,
                errors: a.errors + 1,
                ..a
            })
        },
        TrafficStep::Leave => {
            &&& t == s
            &&& a.working > 0
            &&& b == (Traffic { working: a.working - 1, running: a.running - 1, ..a })
        },
        TrafficStep::Call(turn) => {
            let handed = if turn.answer() is Chunk {
                1int
            } else {
                0int
            };
            &&& is_turn(s, turn, t)
            &&& match turn {
                OrderTurn::Receive(ChunkEvent::Chunk(_), _) => a.sent > 0 && b == (Traffic {
                    sent: a.sent - 1,
                    held: a.held + handed,
                    ..a
                }),
                OrderTurn::Receive(ChunkEvent::Error(_), _) => a.errors > 0 && b == (Traffic {
                    errors: a.errors - 1,
                    ..a
                }),
                OrderTurn::Receive(ChunkEvent::Closed(_), _) => b == a,
                OrderTurn::Next(_) => b == (Traffic { held: a.held + handed, ..a }),
            }
        },
        TrafficStep::Recycle => {
            &&& t == s
            &&& a.held > 0
            &&& b == (Traffic { held: a.held - 1, pool: a.pool + 1, ..a })
        },
    }
}

/// Whether every batch is in one place, and no worker has more than one.
spec fn batches_add_up(plan: OrderPlan, s: OrderState, a: Traffic) -> bool {
    &&& s.pending.dom().finite()
    &&& 0 <= a.pool && 0 <= a.working && 0 <= a.sent && 0 <= a.errors && 0 <= a.held
    &&& a.pool + a.working + a.sent + a.held + s.pending.len() <= slot_count(plan)
    &&& a.working <= a.running
    &&& a.running + a.errors <= plan.workers
}

proof fn lemma_batches_add_up(
    plan: OrderPlan,
    states: Seq<OrderState>,
    traffic: Seq<Traffic>,
    steps: Seq<TrafficStep>,
    n: int,
)
    requires
        plan.workers >= 1,
        states.len() == steps.len() + 1,
        traffic.len() == steps.len() + 1,
        states[0] == order_start(plan),
        traffic[0] == traffic_start(plan),
        forall|i: int|
            0 <= i < steps.len() ==> flows(
                states[i],
                traffic[i],
                #[trigger] steps[i],
                states[i + 1],
                traffic[i + 1],
            ),
        0 <= n <= steps.len(),
    ensures
        batches_add_up(plan, states[n], traffic[n]),
    decreases n,
{
    broadcast use vstd::map::group_map_axioms;
    broadcast use vstd::set::group_set_axioms;

    if n == 0 {
        assert(states[0].pending.dom() =~= Set::<u64>::empty());
    } else {
        let m = n - 1;
        lemma_batches_add_up(plan, states, traffic, steps, m);
        let s = states[m];
        let t = states[m + 1];
        assert(flows(s, traffic[m], steps[m], t, traffic[m + 1]));
        if let TrafficStep::Call(turn) = steps[m] {
            match turn {
                OrderTurn::Receive(ChunkEvent::Chunk(chunk), _) => {
                    if chunk.seq != s.next_seq {
                        assert(t.pending.dom() =~= s.pending.dom().insert(chunk.seq));
                    }
                },
                OrderTurn::Receive(_, _) => {
                    if t.pending != s.pending {
                        assert(t.pending.dom() =~= Set::<u64>::empty());
                    }
                },
                OrderTurn::Next(_) => {
                    if t.pending != s.pending {
                        assert(t.pending.dom() =~= s.pending.dom().remove(s.next_seq as u64));
                    }
                },
            }
        }
    }
}

/// The chunks that wait to be put in order, and those on their way, are bounded by the batches that
/// go round; and nobody waits for room: a worker that has something to send always finds room in
/// the channel of the results, and a batch that is given back finds room in the pool.
pub proof fn waiting_chunks_are_bounded(
    plan: OrderPlan,
    states: Seq<OrderState>,
    traffic: Seq<Traffic>,
    steps: Seq<TrafficStep>,
    n: int,
)
    requires
        plan.workers >= 1,
        states.len() == steps.len() + 1,
        traffic.len() == steps.len() + 1,
        states[0] == order_start(plan),
        traffic[0] == traffic_start(plan),
        forall|i: int|
            0 <= i < steps.len() ==> flows(
                states[i],
                traffic[i],
                #[trigger] steps[i],
                states[i + 1],
                traffic[i + 1],
            ),
        0 <= n <= steps.len(),
    ensures
        states[n].pending.len() + traffic[n].working + traffic[n].sent <= slot_count(plan),
        states[n].pending.len() <= slot_count(plan),
        traffic[n].sent + traffic[n].errors <= result_room(plan),
        traffic[n].working > 0 ==> traffic[n].sent + traffic[n].errors < result_room(plan),
        traffic[n].held > 0 ==> traffic[n].pool < slot_count(plan),
{
    lemma_batches_add_up(plan, states, traffic, steps, n);
}

/// Which record stops a chunk: the first one that decodes to an impossible position or has more
/// features than fit, told by its number in the file. Without such a record nothing stops it.
pub proof fn the_first_bad_record_is_told(
    records: Seq<DecodedRecord>,
    first: int,
    max_active: usize,
    feature_set: &'static str,
)
    requires
        0 <= first,
        first + records.len() <= u64::MAX,
        forall|k: int|
            0 <= k < records.len() ==> (#[trigger] records[k]).position.stm@.len() <= usize::MAX,
    ensures
        ({
            let good = |r: DecodedRecord|
                board_fault(r.board) is None && r.position.stm@.len() <= max_active;
            match record_error(records, first, max_active, feature_set) {
                None => forall|k: int| 0 <= k < records.len() ==> good(#[trigger] records[k]),
                Some(e) => exists|k: int|
                    {
                        &&& 0 <= k < records.len()
                        &&& !good(#[trigger] records[k])
                        &&& forall|j: int| 0 <= j < k ==> good(records[j])
                        &&& match e {
                            ChunkError::Corrupt { record, fault } => record == first + k
                                && board_fault(records[k].board) == Some(fault),
                            ChunkError::Overflow(o) => {
                                &&& board_fault(records[k].board) is None
                                &&& o.written == records[k].position.stm@.len()
                                &&& o.max_active == max_active
                                &&& o.feature_set == feature_set
                            },
                            ChunkError::Changed { .. } => false,
                        }
                    },
            }
        }),
    decreases records.len(),
{
    let good = |r: DecodedRecord|
        board_fault(r.board) is None && r.position.stm@.len() <= max_active;
    if records.len() > 0 {
        let front = records.drop_last();
        let n = records.len() - 1;
        assert forall|k: int| 0 <= k < front.len() implies (
        #[trigger] front[k]).position.stm@.len() <= usize::MAX by {
            assert(front[k] == records[k]);
        }
        the_first_bad_record_is_told(front, first, max_active, feature_set);
        assert(records.last() == records[n]);
        if record_error(front, first, max_active, feature_set) is None {
            assert forall|k: int| 0 <= k < n implies good(#[trigger] records[k]) by {
                assert(good(front[k]));
            }
            if !good(records[n]) {
                assert(!good(records[n]));
            }
        } else {
            let k = choose|k: int|
                {
                    &&& 0 <= k < front.len()
                    &&& !good(#[trigger] front[k])
                    &&& forall|j: int| 0 <= j < k ==> good(front[j])
                    &&& match record_error(front, first, max_active, feature_set)->Some_0 {
                        ChunkError::Corrupt { record, fault } => record == first + k && board_fault(
                            front[k].board,
                        ) == Some(fault),
                        ChunkError::Overflow(o) => {
                            &&& board_fault(front[k].board) is None
                            &&& o.written == front[k].position.stm@.len()
                            &&& o.max_active == max_active
                            &&& o.feature_set == feature_set
                        },
                        ChunkError::Changed { .. } => false,
                    }
                };
            assert(front[k] == records[k]);
            assert(!good(records[k]));
            assert forall|j: int| 0 <= j < k implies good(records[j]) by {
                assert(front[j] == records[j]);
            }
        }
    }
}

/// A loader that has failed stays failed: whatever it is asked, it gives the same error again, and
/// no chunk any more.
pub proof fn failures_stay(s: OrderState, turn: OrderTurn, t: OrderState, u: OrderState, r: ChunkStep)
    requires
        is_turn(s, turn, t),
        turn.answer() is Failed,
        next_gives(t, u, r),
    ensures
        u == t,
        r matches ChunkStep::Failed(e) && e.kind == ErrorKind::Other && e.message@
            == turn.answer()->Failed_0.message@,
        !may_receive(t),
{
}

/// The chunks are as few as hold all records that are left.
pub proof fn chunks_are_as_few_as_needed(plan: OrderPlan)
    requires
        plan.chunk_records >= 1,
        0 <= plan.start_record <= plan.total_records,
    ensures
        (chunk_count(plan) - 1) * plan.chunk_records < plan.total_records - plan.start_record
            <= chunk_count(plan) * plan.chunk_records,
        chunk_first(plan, 0) == plan.start_record,
        plan.start_record < plan.total_records ==> chunk_last(plan, chunk_count(plan) - 1)
            == plan.total_records,
        forall|seq: int| #[trigger]
            chunk_first(plan, seq) == plan.start_record + plan.chunk_records * seq,
{
    let left = plan.total_records - plan.start_record;
    let c = plan.chunk_records;
    let n = chunk_count(plan);
    vstd::arithmetic::div_mod::lemma_fundamental_div_mod(left + c - 1, c);
    vstd::arithmetic::div_mod::lemma_mod_bound(left + c - 1, c);
    vstd::arithmetic::mul::lemma_mul_is_commutative(c, n);
    assert((n - 1) * c == n * c - c) by (nonlinear_arith);
    assert(0 * c == 0) by (nonlinear_arith);
    assert forall|seq: int| #[trigger] chunk_first(plan, seq) == plan.start_record + c * seq by {
        vstd::arithmetic::mul::lemma_mul_is_commutative(c, seq);
    }
}

/// Every further worker brings two batches into the round and the room for one error, and two
/// batches are there for the caller.
pub proof fn workers_bring_their_batches(plan: OrderPlan, more: OrderPlan)
    requires
        more.workers == plan.workers + 1,
    ensures
        slot_count(more) == slot_count(plan) + 2,
        result_room(more) == result_room(plan) + 3,
        plan.workers == 0 ==> slot_count(plan) == 2 && result_room(plan) == 2,
{
}

} // verus!
