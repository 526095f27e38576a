//! Shogi positions as plain values.

use vstd::prelude::*;

verus! {

/// Squares of the board.
pub const SQUARES: usize = 81;

/// A side.
#[derive(Clone, Copy, Debug, PartialEq, Eq, Structural)]
pub enum Color {
    Black,
    White,
}

impl Color {
    /// The other side.
    pub open spec fn other(self) -> Color {
        match self {
            Color::Black => Color::White,
            Color::White => Color::Black,
        }
    }

    /// The other side.
    pub fn opponent(self) -> (r: Color)
        ensures
            r == self.other(),
    {
        match self {
            Color::Black => Color::White,
            Color::White => Color::Black,
        }
    }
}

/// A kind of piece; `Empty` stands for an empty square.
#[derive(Clone, Copy, Debug, PartialEq, Eq, Structural)]
pub enum PieceType {
    Empty,
    Pawn,
    Lance,
    Knight,
    Silver,
    Gold,
    Bishop,
    Rook,
    King,
    ProPawn,
    ProLance,
    ProKnight,
    ProSilver,
    Horse,
    Dragon,
}

/// A square: nine times the file plus the rank, both counted from zero; 81 is no square.
#[derive(Clone, Copy, Debug, PartialEq, Eq, Structural)]
pub struct Square(pub u8);

/// The square at a file and a rank.
pub open spec fn square_at(file: int, rank: int) -> Square {
    Square((file * 9 + rank) as u8)
}

impl Square {
    /// The value that is no square.
    pub fn none() -> (r: Square)
        ensures
            r == Square(81),
            !r.valid(),
    {
        Square(81)
    }

    /// The square at a file and a rank.
    pub fn new(file: u8, rank: u8) -> (r: Square)
        requires
            file < 9,
            rank < 9,
        ensures
            r == square_at(file as int, rank as int),
            r.valid(),
            r.0 == file * 9 + rank,
    {
        Square(file * 9 + rank)
    }

    /// Whether this is a square of the board.
    pub open spec fn valid(self) -> bool {
        self.0 < 81
    }

    /// Whether this is a square of the board.
    pub fn is_valid(self) -> (r: bool)
        ensures
            r == self.valid(),
    {
        self.0 < 81
    }

    /// The file, counted from zero.
    pub fn file(self) -> (r: u8)
        ensures
            r == self.0 / 9,
    {
        self.0 / 9
    }

    /// The rank, counted from zero.
    pub fn rank(self) -> (r: u8)
        ensures
            r == self.0 % 9,
    {
        self.0 % 9
    }

    /// The square as an index.
    pub fn index(self) -> (r: usize)
        ensures
            r == self.0,
    {
        self.0 as usize
    }

    /// The square seen from the other side of the board.
    pub open spec fn turned(self) -> Square {
        Square((80 - self.0) as u8)
    }

    /// The square seen from the other side of the board.
    pub fn inverse(self) -> (r: Square)
        requires
            self.valid(),
        ensures
            r == self.turned(),
            r.valid(),
    {
        Square(80 - self.0)
    }
}

/// What stands on a square.
#[derive(Clone, Copy, Debug, PartialEq, Eq, Structural)]
pub struct Piece {
    pub color: Color,
    pub piece_type: PieceType,
}

impl Piece {
    /// The contents of an empty square.
    pub fn none() -> (r: Piece)
        ensures
            r == (Piece { color: Color::Black, piece_type: PieceType::Empty }),
    {
        Piece { color: Color::Black, piece_type: PieceType::Empty }
    }

    /// A piece of a side.
    pub fn new(color: Color, piece_type: PieceType) -> (r: Piece)
        ensures
            r == (Piece { color, piece_type }),
    {
        Piece { color, piece_type }
    }

    /// Whether the square is empty.
    pub fn is_none(self) -> (r: bool)
        ensures
            r == (self.piece_type == PieceType::Empty),
    {
        self.piece_type == PieceType::Empty
    }

    /// Whether the square holds a piece.
    pub fn is_some(self) -> (r: bool)
        ensures
            r == (self.piece_type != PieceType::Empty),
    {
        self.piece_type != PieceType::Empty
    }
}

/// The kinds of pieces that can be in hand.
pub const HAND_PIECE_TYPES: [PieceType; 7] = [
    PieceType::Pawn,
    PieceType::Lance,
    PieceType::Knight,
    PieceType::Silver,
    PieceType::Gold,
    PieceType::Bishop,
    PieceType::Rook,
];

/// The kinds of pieces on the board other than the king.
pub const BOARD_PIECE_TYPES: [PieceType; 13] = [
    PieceType::Pawn,
    PieceType::Lance,
    PieceType::Knight,
    PieceType::Silver,
    PieceType::Gold,
    PieceType::Bishop,
    PieceType::Rook,
    PieceType::ProPawn,
    PieceType::ProLance,
    PieceType::ProKnight,
    PieceType::ProSilver,
    PieceType::Horse,
    PieceType::Dragon,
];

/// The slot of a kind of piece among those that can be in hand.
pub open spec fn hand_slot(pt: PieceType) -> Option<int> {
    match pt {
        PieceType::Pawn => Some(0),
        PieceType::Lance => Some(1),
        PieceType::Knight => Some(2),
        PieceType::Silver => Some(3),
        PieceType::Gold => Some(4),
        PieceType::Bishop => Some(5),
        PieceType::Rook => Some(6),
        _ => None,
    }
}

/// The pieces in hand of one side.
#[derive(Clone, Copy, Debug)]
pub struct Hand {
    pub counts: [u8; 7],
}

impl Hand {
    /// How many pieces of a kind are in hand.
    pub open spec fn holds(self, pt: PieceType) -> u8 {
        match hand_slot(pt) {
            Some(k) => self.counts@[k],
            None => 0,
        }
    }

    /// An empty hand.
    pub fn empty() -> (r: Hand)
        ensures
            forall|k: int| 0 <= k < 7 ==> r.counts@[k] == 0,
    {
        Hand { counts: [0;7] }
    }

    /// How many pieces of a kind are in hand.
    pub fn count(&self, pt: PieceType) -> (r: u8)
        ensures
            r == self.holds(pt),
    {
        match pt {
            PieceType::Pawn => self.counts[0],
            PieceType::Lance => self.counts[1],
            PieceType::Knight => self.counts[2],
            PieceType::Silver => self.counts[3],
            PieceType::Gold => self.counts[4],
            PieceType::Bishop => self.counts[5],
            PieceType::Rook => self.counts[6],
            _ => 0,
        }
    }

    /// The number of pieces in hand.
    pub open spec fn size(self) -> int {
        self.counts@[0] + self.counts@[1] + self.counts@[2] + self.counts@[3] + self.counts@[4]
            + self.counts@[5] + self.counts@[6]
    }

    /// The number of pieces in hand.
    pub fn total(&self) -> (r: u32)
        ensures
            r == self.size(),
    {
        self.counts[0] as u32 + self.counts[1] as u32 + self.counts[2] as u32
            + self.counts[3] as u32 + self.counts[4] as u32 + self.counts[5] as u32
            + self.counts[6] as u32
    }
}

/// A position with its training labels.
#[derive(Clone, Copy, Debug)]
pub struct ShogiBoard {
    /// What stands on each square.
    pub board: [Piece; 81],
    pub black_king_sq: Square,
    pub white_king_sq: Square,
    pub black_hand: Hand,
    pub white_hand: Hand,
    pub side_to_move: Color,
    /// Score label.
    pub score: i16,
    /// Game result for the side to move.
    pub result: i8,
}

impl ShogiBoard {
    /// An empty board with no kings.
    pub fn empty() -> (r: ShogiBoard)
        ensures
            forall|k: int| 0 <= k < 81 ==> r.board@[k].piece_type == PieceType::Empty,
            !r.black_king_sq.valid(),
            !r.white_king_sq.valid(),
            r.black_hand.size() == 0,
            r.white_hand.size() == 0,
            r.side_to_move == Color::Black,
            r.score == 0,
            r.result == 0,
    {
        ShogiBoard {
            board: [Piece::none();81],
            black_king_sq: Square::none(),
            white_king_sq: Square::none(),
            black_hand: Hand::empty(),
            white_hand: Hand::empty(),
            side_to_move: Color::Black,
            score: 0,
            result: 0,
        }
    }

    /// What stands on a square.
    pub fn piece_on(&self, sq: Square) -> (r: Piece)
        requires
            sq.valid(),
        ensures
            r == self.board@[sq.0 as int],
    {
        self.board[sq.0 as usize]
    }

    /// The king's square of a side.
    pub open spec fn king_of(self, color: Color) -> Square {
        match color {
            Color::Black => self.black_king_sq,
            Color::White => self.white_king_sq,
        }
    }

    /// The king's square of a side.
    pub fn king_square(&self, color: Color) -> (r: Square)
        ensures
            r == self.king_of(color),
    {
        match color {
            Color::Black => self.black_king_sq,
            Color::White => self.white_king_sq,
        }
    }

    /// The hand of a side.
    pub open spec fn hand_of(self, color: Color) -> Hand {
        match color {
            Color::Black => self.black_hand,
            Color::White => self.white_hand,
        }
    }

    /// The hand of a side.
    pub fn hand(&self, color: Color) -> (r: Hand)
        ensures
            r == self.hand_of(color),
    {
        match color {
            Color::Black => self.black_hand,
            Color::White => self.white_hand,
        }
    }
}

/// The square's index as a side sees the board.
pub open spec fn seen_index(sq: Square, perspective: Color) -> int {
    match perspective {
        Color::Black => sq.0 as int,
        Color::White => 80 - sq.0,
    }
}

/// The square's index as a side sees the board.
pub fn perspective_sq_index(sq: Square, perspective: Color) -> (r: usize)
    requires
        sq.valid(),
    ensures
        r == seen_index(sq, perspective),
{
    match perspective {
        Color::Black => sq.index(),
        Color::White => sq.inverse().index(),
    }
}

/// The numbers from 0 to `n - 1` with a property.
pub open spec fn those_below(n: int, p: spec_fn(int) -> bool) -> Set<int> {
    Set::new(|k: int| 0 <= k < n && p(k))
}

/// Going one number further counts one more, or none.
pub proof fn lemma_those_below(n: int, p: spec_fn(int) -> bool)
    requires
        0 <= n,
    ensures
        those_below(n, p).finite(),
        n == 0 ==> those_below(n, p).len() == 0,
        n > 0 ==> those_below(n, p).len() == those_below(n - 1, p).len() + if p(n - 1) {
            1int
        } else {
            0int
        },
        those_below(n, p).len() <= n,
    decreases n,
{
    if n == 0 {
        assert(those_below(n, p) =~= Set::empty());
    } else {
        lemma_those_below(n - 1, p);
        if p(n - 1) {
            assert(those_below(n, p) =~= those_below(n - 1, p).insert(n - 1));
        } else {
            assert(those_below(n, p) =~= those_below(n - 1, p));
        }
    }
}

/// Turning a square twice gives the square.
pub proof fn turning_twice(sq: Square)
    requires
        sq.valid(),
    ensures
        sq.turned().valid(),
        sq.turned().turned() == sq,
{
}

/// Whether `b` is the position `a` with the board turned round and the sides exchanged.
pub open spec fn is_turned(a: ShogiBoard, b: ShogiBoard) -> bool {
    &&& forall|k: int|
        0 <= k < 81 ==> (#[trigger] b.board@[k]).piece_type == a.board@[80 - k].piece_type && (
        a.board@[80 - k].piece_type != PieceType::Empty ==> b.board@[k].color != a.board@[80
            - k].color)
    &&& a.black_king_sq.valid() && a.white_king_sq.valid()
    &&& b.black_king_sq.valid() && b.white_king_sq.valid()
    &&& b.black_king_sq.0 == 80 - a.white_king_sq.0
    &&& b.white_king_sq.0 == 80 - a.black_king_sq.0
    &&& b.black_hand == a.white_hand
    &&& b.white_hand == a.black_hand
}

/// Each side sees a position as the other side sees the turned one: squares, kings and hands.
pub proof fn sides_see_the_board_alike(a: ShogiBoard, b: ShogiBoard, side: Color, sq: Square)
    requires
        is_turned(a, b),
        sq.valid(),
    ensures
        side.other() != side,
        side.other().other() == side,
        seen_index(Square((80 - sq.0) as u8), side.other()) == seen_index(sq, side),
        seen_index(sq, Color::Black) == sq.0,
        seen_index(sq, Color::White) + sq.0 == 80,
        seen_index(b.king_of(side.other()), side.other()) == seen_index(a.king_of(side), side),
        b.hand_of(side.other()) == a.hand_of(side),
        a.king_of(Color::Black) == a.black_king_sq,
        a.hand_of(Color::Black) == a.black_hand,
        sq.turned().0 + sq.0 == 80,
{
}

/// A hand counts each kind by itself: one piece more of a kind is one more in all, and no other
/// kind changes. The kinds stand in the order of their slots.
pub proof fn hands_count_every_piece(a: Hand, b: Hand, k: int)
    requires
        0 <= k < 7,
        a.counts@[k] < 255,
        b.counts@ == a.counts@.update(k, (a.counts@[k] + 1) as u8),
    ensures
        b.size() == a.size() + 1,
        hand_slot(HAND_PIECE_TYPES@[k]) == Some(k),
        b.holds(HAND_PIECE_TYPES@[k]) == a.holds(HAND_PIECE_TYPES@[k]) + 1,
        forall|pt: PieceType|
            pt != HAND_PIECE_TYPES@[k] ==> #[trigger] b.holds(pt) == a.holds(pt),
        (forall|j: int| 0 <= j < 7 ==> a.counts@[j] == 0) ==> a.size() == 0,
{
    assert forall|pt: PieceType| pt != HAND_PIECE_TYPES@[k] implies #[trigger] b.holds(pt)
        == a.holds(pt) by {
        if let Some(j) = hand_slot(pt) {
            assert(HAND_PIECE_TYPES@[j] == pt);
        }
    }
}

/// Every square has one file and one rank, and they give it back.
pub proof fn squares_have_a_file_and_a_rank(file: int, rank: int)
    requires
        0 <= file < 9,
        0 <= rank < 9,
    ensures
        square_at(file, rank).valid(),
        square_at(file, rank).0 as int / 9 == file,
        square_at(file, rank).0 as int % 9 == rank,
        square_at(file, rank).turned() == square_at(8 - file, 8 - rank),
{
}

/// Only the seven kinds that can be taken and dropped are ever in hand, a taken piece as what it
/// was before promotion.
pub proof fn hands_hold_no_kings_and_no_promoted_pieces(hand: Hand, pt: PieceType)
    ensures
        hand_slot(pt) is None <==> pt == PieceType::Empty || pt == PieceType::King || pt
            == PieceType::ProPawn || pt == PieceType::ProLance || pt == PieceType::ProKnight || pt
            == PieceType::ProSilver || pt == PieceType::Horse || pt == PieceType::Dragon,
        pt == PieceType::Empty || pt == PieceType::King || pt == PieceType::ProPawn || pt
            == PieceType::ProLance || pt == PieceType::ProKnight || pt == PieceType::ProSilver || pt
            == PieceType::Horse || pt == PieceType::Dragon ==> hand.holds(pt) == 0,
{
}

} // verus!
