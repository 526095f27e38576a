//! Numbering of pieces on squares and in hands, and its file-mirrored form.

use vstd::prelude::*;

use crate::board::{
    hand_slot, perspective_sq_index, seen_index, Color, Hand, Piece, PieceType, Square,
    HAND_PIECE_TYPES,
};

verus! {

/// End of the numbers for pieces in hand.
pub const FE_HAND_END: usize = 90;

/// End of the numbers for pieces other than kings.
pub const FE_OLD_END: usize = 1548;

/// First number for the own king.
pub const F_KING: usize = 1548;

/// First number for the other king.
pub const E_KING: usize = 1629;

/// Piece inputs of the merged king layout, where both kings share the own king's plane.
pub const PIECE_INPUTS: usize = 1629;

/// King buckets of the mirrored layout: nine ranks on five files.
pub const KING_BUCKETS: usize = 45;

/// The number that stands for no piece.
pub const ZERO_PIECE: usize = 0;

/// The most pieces of a kind that a hand can hold.
pub open spec fn hand_limit(slot: int) -> int {
    if slot == 0 {
        18
    } else if slot <= 4 {
        4
    } else {
        2
    }
}

/// Where the numbers of each kind of piece start. The first entry of each pair is for the other
/// side's pieces, the second for one's own.
#[derive(Clone, Copy, Debug)]
pub struct BonaPieceLayout {
    /// First number for pieces in hand, by twice the slot of the kind plus one for own pieces.
    pub hand_base: [u16; 14],
    /// First number for pieces on the board, by twice the plane of the kind plus one for own
    /// pieces.
    pub piece_base: [u16; 18],
}

/// The plane of a kind of piece on the board. Promoted pieces that move like a gold share its
/// plane.
pub open spec fn plane_of(pt: PieceType) -> Option<int> {
    match pt {
        PieceType::Pawn => Some(0),
        PieceType::Lance => Some(1),
        PieceType::Knight => Some(2),
        PieceType::Silver => Some(3),
        PieceType::Gold
        | PieceType::ProPawn
        | PieceType::ProLance
        | PieceType::ProKnight
        | PieceType::ProSilver => Some(4),
        PieceType::Bishop => Some(5),
        PieceType::Horse => Some(6),
        PieceType::Rook => Some(7),
        PieceType::Dragon => Some(8),
        _ => None,
    }
}

fn plane_index(pt: PieceType) -> (r: Option<usize>)
    ensures
        match plane_of(pt) {
            Some(p) => r == Some(p as usize) && 0 <= p < 9,
            None => r is None,
        },
{
    match pt {
        PieceType::Pawn => Some(0),
        PieceType::Lance => Some(1),
        PieceType::Knight => Some(2),
        PieceType::Silver => Some(3),
        PieceType::Gold
        | PieceType::ProPawn
        | PieceType::ProLance
        | PieceType::ProKnight
        | PieceType::ProSilver => Some(4),
        PieceType::Bishop => Some(5),
        PieceType::Horse => Some(6),
        PieceType::Rook => Some(7),
        PieceType::Dragon => Some(8),
        _ => None,
    }
}

fn hand_index(pt: PieceType) -> (r: Option<usize>)
    ensures
        match hand_slot(pt) {
            Some(k) => r == Some(k as usize) && 0 <= k < 7,
            None => r is None,
        },
{
    match pt {
        PieceType::Pawn => Some(0),
        PieceType::Lance => Some(1),
        PieceType::Knight => Some(2),
        PieceType::Silver => Some(3),
        PieceType::Gold => Some(4),
        PieceType::Bishop => Some(5),
        PieceType::Rook => Some(6),
        _ => None,
    }
}

impl BonaPieceLayout {
    /// Pieces in hand are numbered below the pieces on the board, and the planes of the board
    /// pieces are whole planes of 81 squares.
    pub open spec fn wf(&self) -> bool {
        &&& forall|k: int|
            #![trigger self.hand_base@[k]]
            0 <= k < 14 ==> 0 < self.hand_base@[k] && self.hand_base@[k] + hand_limit(k / 2)
                <= FE_HAND_END
        &&& forall|k: int|
            #![trigger self.piece_base@[k]]
            0 <= k < 18 ==> FE_HAND_END <= self.piece_base@[k] && self.piece_base@[k] + 81
                <= FE_OLD_END && (self.piece_base@[k] - FE_HAND_END) % 81 == 0
    }

    /// Whether the numbers of the layout are in their places.
    pub fn is_valid(&self) -> (r: bool)
        ensures
            r == self.wf(),
    {
        let mut k: usize = 0;
        while k < 14
            invariant
                k <= 14,
                forall|j: int|
                    #![trigger self.hand_base@[j]]
                    0 <= j < k ==> 0 < self.hand_base@[j] && self.hand_base@[j] + hand_limit(j / 2)
                        <= FE_HAND_END,
            decreases 14 - k,
        {
            let base: usize = self.hand_base[k] as usize;
            let most: usize = if k < 2 {
                18
            } else if k < 10 {
                4
            } else {
                2
            };
            assert(most == hand_limit(k as int / 2));
            if base == 0 || base + most > FE_HAND_END {
                assert(self.hand_base@[k as int] == base);
                return false;
            }
            k += 1;
        }
        let mut p: usize = 0;
        while p < 18
            invariant
                p <= 18,
                forall|j: int|
                    #![trigger self.piece_base@[j]]
                    0 <= j < p ==> FE_HAND_END <= self.piece_base@[j] && self.piece_base@[j] + 81
                        <= FE_OLD_END && (self.piece_base@[j] - FE_HAND_END) % 81 == 0,
            decreases 18 - p,
        {
            let base: usize = self.piece_base[p] as usize;
            if base < FE_HAND_END || base + 81 > FE_OLD_END || (base - FE_HAND_END) % 81 != 0 {
                assert(self.piece_base@[p as int] == base);
                return false;
            }
            p += 1;
        }
        true
    }

    /// The number of a piece on a square as a side sees it; zero where the square is empty or
    /// holds a king.
    pub open spec fn on_square(&self, piece: Piece, sq: Square, perspective: Color) -> int {
        match plane_of(piece.piece_type) {
            Some(p) => self.piece_base@[2 * p + if piece.color == perspective {
                1int
            } else {
                0int
            }] + seen_index(sq, perspective),
            None => 0,
        }
    }

    /// The number of the `i`-th piece of a kind in the hand of `owner` as a side sees it; zero
    /// where there is no such piece.
    pub open spec fn in_hand(
        &self,
        perspective: Color,
        owner: Color,
        pt: PieceType,
        i: int,
    ) -> int {
        match hand_slot(pt) {
            Some(k) => if 1 <= i <= hand_limit(k) {
                self.hand_base@[2 * k + if owner == perspective {
                    1int
                } else {
                    0int
                }] + i - 1
            } else {
                0
            },
            None => 0,
        }
    }

    /// The number of a piece on a square as a side sees it.
    pub fn from_piece_square(&self, piece: Piece, sq: Square, perspective: Color) -> (r: usize)
        requires
            self.wf(),
            sq.valid(),
        ensures
            r == self.on_square(piece, sq, perspective),
            r < FE_OLD_END,
    {
        match plane_index(piece.piece_type) {
            Some(p) => {
                let at: usize = 2 * p + if piece.color == perspective {
                    1
                } else {
                    0
                };
                self.piece_base[at] as usize + perspective_sq_index(sq, perspective)
            },
            None => ZERO_PIECE,
        }
    }

    /// The number of the `i`-th piece of a kind in a hand as a side sees it.
    pub fn from_hand_piece(&self, perspective: Color, owner: Color, pt: PieceType, i: u8) -> (r:
        usize)
        requires
            self.wf(),
        ensures
            r == self.in_hand(perspective, owner, pt, i as int),
            r < FE_HAND_END,
    {
        match hand_index(pt) {
            Some(k) => {
                let limit: u8 = if k == 0 {
                    18
                } else if k <= 4 {
                    4
                } else {
                    2
                };
                if 1 <= i && i <= limit {
                    let at: usize = 2 * k + if owner == perspective {
                        1
                    } else {
                        0
                    };
                    self.hand_base[at] as usize + (i as usize - 1)
                } else {
                    ZERO_PIECE
                }
            },
            None => ZERO_PIECE,
        }
    }
}

/// A square index with its file mirrored; the rank stays.
pub open spec fn mirrored(sq: int) -> int {
    (8 - sq / 9) * 9 + sq % 9
}

/// A square index with its file mirrored; the rank stays.
pub fn mirrored_sq(sq: usize) -> (r: usize)
    requires
        sq < 81,
    ensures
        r == mirrored(sq as int),
        r < 81,
{
    (8 - sq / 9) * 9 + sq % 9
}

/// Mirroring a square twice gives the square.
pub proof fn mirroring_twice(sq: int)
    requires
        0 <= sq < 81,
    ensures
        0 <= mirrored(sq) < 81,
        mirrored(mirrored(sq)) == sq,
{
}

/// The packed number of a piece: the other king goes to the own king's plane, and on the mirrored
/// side of the board the square of a board piece is mirrored.
pub open spec fn packed(bp: int, mirror: bool) -> int {
    let folded = if bp >= E_KING {
        bp - 81
    } else {
        bp
    };
    if !mirror || folded < FE_HAND_END {
        folded
    } else {
        let rel = folded - FE_HAND_END;
        FE_HAND_END + rel / 81 * 81 + mirrored(rel % 81)
    }
}

/// The packed number of a piece.
pub fn pack_bonapiece(bp: usize, mirror: bool) -> (r: usize)
    requires
        bp < E_KING + 81,
    ensures
        r == packed(bp as int, mirror),
        r < PIECE_INPUTS,
        bp < FE_HAND_END ==> r == bp,
        FE_HAND_END <= bp < FE_OLD_END ==> FE_HAND_END <= r < FE_OLD_END,
        bp >= FE_OLD_END ==> r >= FE_OLD_END,
{
    let folded: usize = if bp >= E_KING {
        bp - 81
    } else {
        bp
    };
    if !mirror || folded < FE_HAND_END {
        folded
    } else {
        let rel: usize = folded - FE_HAND_END;
        FE_HAND_END + rel / 81 * 81 + mirrored_sq(rel % 81)
    }
}

/// The number of a king, by the square index that its side sees.
pub open spec fn king_number(sq_index: int, friend: bool) -> int {
    if friend {
        F_KING + sq_index
    } else {
        E_KING + sq_index
    }
}

/// The number of a king, by the square index that its side sees.
pub fn king_bonapiece(sq_index: usize, friend: bool) -> (r: usize)
    requires
        sq_index < 81,
    ensures
        r == king_number(sq_index as int, friend),
        FE_OLD_END <= r < E_KING + 81,
{
    if friend {
        F_KING + sq_index
    } else {
        E_KING + sq_index
    }
}

/// The feature of a packed piece in a king bucket.
pub open spec fn base_feature(king_bucket: int, packed_bp: int) -> int {
    king_bucket * PIECE_INPUTS + packed_bp
}

/// The feature of a packed piece in a king bucket.
pub fn halfka_index(king_bucket: usize, packed_bp: usize) -> (r: usize)
    requires
        king_bucket < KING_BUCKETS,
        packed_bp < PIECE_INPUTS,
    ensures
        r == base_feature(king_bucket as int, packed_bp as int),
        r < KING_BUCKETS * PIECE_INPUTS,
{
    king_bucket * PIECE_INPUTS + packed_bp
}

/// The square of a numbered board piece or king, before mirroring.
pub open spec fn square_of_number(bp: int) -> Option<Square> {
    if FE_HAND_END <= bp < FE_OLD_END {
        Some(Square(((bp - FE_HAND_END) % 81) as u8))
    } else if F_KING <= bp < F_KING + 81 {
        Some(Square((bp - F_KING) as u8))
    } else if E_KING <= bp < E_KING + 81 {
        Some(Square((bp - E_KING) as u8))
    } else {
        None
    }
}

/// The square of a numbered board piece or king, before mirroring.
pub fn decode_board_square_fb(bp: usize) -> (r: Option<Square>)
    ensures
        r == square_of_number(bp as int),
{
    if FE_HAND_END <= bp && bp < FE_OLD_END {
        Some(Square(((bp - FE_HAND_END) % 81) as u8))
    } else if F_KING <= bp && bp < F_KING + 81 {
        Some(Square((bp - F_KING) as u8))
    } else if E_KING <= bp && bp < E_KING + 81 {
        Some(Square((bp - E_KING) as u8))
    } else {
        None
    }
}

/// The number of a board piece gives back the square index that its side sees.
pub proof fn number_keeps_the_square(
    layout: BonaPieceLayout,
    piece: Piece,
    sq: Square,
    perspective: Color,
)
    requires
        layout.wf(),
        sq.valid(),
        plane_of(piece.piece_type) is Some,
    ensures
        square_of_number(layout.on_square(piece, sq, perspective)) == Some(
            Square(seen_index(sq, perspective) as u8),
        ),
{
    let p = plane_of(piece.piece_type)->Some_0;
    let at = 2 * p + if piece.color == perspective {
        1int
    } else {
        0int
    };
    assert(0 <= at < 18);
    let base = layout.piece_base@[at] as int;
    let s = seen_index(sq, perspective);
    assert((base - FE_HAND_END + s) % 81 == s) by {
        vstd::arithmetic::div_mod::lemma_mod_adds(base - FE_HAND_END, s, 81);
    }
}

/// The pieces of a hand that have a number: of each kind no more than there are in a shogi set.
pub open spec fn numbered_in_hand(hand: Hand) -> int {
    let least = |a: int, b: int|
        if a < b {
            a
        } else {
            b
        };
    least(hand.counts@[0] as int, 18) + least(hand.counts@[1] as int, 4) + least(
        hand.counts@[2] as int,
        4,
    ) + least(hand.counts@[3] as int, 4) + least(hand.counts@[4] as int, 4) + least(
        hand.counts@[5] as int,
        2,
    ) + least(hand.counts@[6] as int, 2)
}

/// Pieces in hand are numbered one behind the other from the first number of their kind and side,
/// as many as a shogi set has of the kind, and the two sides see each other's alike.
pub proof fn hand_pieces_are_numbered_in_turn(
    layout: BonaPieceLayout,
    side: Color,
    owner: Color,
    k: int,
    i: int,
)
    requires
        layout.wf(),
        0 <= k < 7,
    ensures
        ({
            let pt = HAND_PIECE_TYPES@[k];
            let most: int = seq![18int, 4, 4, 4, 4, 2, 2][k];
            let bp = layout.in_hand(side, owner, pt, i);
            &&& bp != 0 <==> 1 <= i <= most
            &&& 0 <= bp < 90
            &&& 1 <= i < most ==> layout.in_hand(side, owner, pt, i + 1) == bp + 1
            &&& i == 1 && owner == side ==> bp == layout.hand_base@[2 * k + 1]
            &&& i == 1 && owner != side ==> bp == layout.hand_base@[2 * k]
            &&& bp == layout.in_hand(side.other(), owner.other(), pt, i)
        }),
        forall|pt: PieceType|
            (forall|j: int| 0 <= j < 7 ==> HAND_PIECE_TYPES@[j] != pt) ==> #[trigger] layout.in_hand(
                side,
                owner,
                pt,
                i,
            ) == 0,
{
    assert forall|pt: PieceType|
        (forall|j: int| 0 <= j < 7 ==> HAND_PIECE_TYPES@[j] != pt) implies #[trigger] layout.in_hand(
        side,
        owner,
        pt,
        i,
    ) == 0 by {
        if let Some(j) = hand_slot(pt) {
            assert(HAND_PIECE_TYPES@[j] == pt);
        }
    }
    assert(layout.hand_base@[2 * k] + hand_limit((2 * k) / 2) <= 90);
    assert(layout.hand_base@[2 * k + 1] + hand_limit((2 * k + 1) / 2) <= 90);
}

/// A board piece's number is the first number of its kind and side, plus the square as the side
/// sees it. Promoted small pieces are numbered as golds, and the two sides see each other's alike.
pub proof fn board_pieces_are_numbered_by_square(
    layout: BonaPieceLayout,
    color: Color,
    pt: PieceType,
    sq: Square,
    side: Color,
)
    requires
        layout.wf(),
        sq.valid(),
    ensures
        ({
            let own = if color == side {
                1int
            } else {
                0int
            };
            let seen = if side == Color::Black {
                sq.0 as int
            } else {
                80 - sq.0
            };
            let bp = layout.on_square(Piece { color, piece_type: pt }, sq, side);
            let of_plane = |p: int| layout.piece_base@[2 * p + own] + seen;
            &&& bp == match pt {
                PieceType::Empty | PieceType::King => 0,
                PieceType::Pawn => of_plane(0),
                PieceType::Lance => of_plane(1),
                PieceType::Knight => of_plane(2),
                PieceType::Silver => of_plane(3),
                PieceType::Bishop => of_plane(5),
                PieceType::Horse => of_plane(6),
                PieceType::Rook => of_plane(7),
                PieceType::Dragon => of_plane(8),
                _ => layout.on_square(Piece { color, piece_type: PieceType::Gold }, sq, side),
            }
            &&& pt == PieceType::Gold ==> bp == of_plane(4)
            &&& bp == layout.on_square(
                Piece { color: color.other(), piece_type: pt },
                Square((80 - sq.0) as u8),
                side.other(),
            )
            &&& bp == 0 || 90 <= bp < 1548
        }),
{
    if let Some(p) = plane_of(pt) {
        let at = 2 * p + if color == side {
            1int
        } else {
            0int
        };
        assert(90 <= layout.piece_base@[at] && layout.piece_base@[at] + 81 <= 1548);
    }
}

/// Packing merges the kings of both sides and mirrors files, nothing else: hand pieces keep their
/// number, a board piece keeps its kind, its side and its rank, and mirroring twice changes
/// nothing.
pub proof fn packing_mirrors_files(plane: int, file: int, rank: int, hand: int, friend: bool)
    requires
        0 <= plane < 18,
        0 <= file < 9,
        0 <= rank < 9,
        0 <= hand < 90,
    ensures
        packed(hand, false) == hand,
        packed(hand, true) == hand,
        packed(90 + plane * 81 + file * 9 + rank, false) == 90 + plane * 81 + file * 9 + rank,
        packed(90 + plane * 81 + file * 9 + rank, true) == 90 + plane * 81 + (8 - file) * 9 + rank,
        packed(king_number(file * 9 + rank, friend), false) == 1548 + file * 9 + rank,
        packed(king_number(file * 9 + rank, friend), true) == 1548 + (8 - file) * 9 + rank,
        king_number(file * 9 + rank, true) != king_number(file * 9 + rank, false),
        mirrored(file * 9 + rank) == (8 - file) * 9 + rank,
{
    let s = file * 9 + rank;
    let rel = plane * 81 + s;
    assert(s / 9 == file && s % 9 == rank);
    assert(rel / 81 == plane && rel % 81 == s);
    assert((1458 + s) / 81 == 18 && (1458 + s) % 81 == s);
}

/// A feature tells its king bucket and its packed number.
pub proof fn features_tell_bucket_and_number(king_bucket: int, packed_bp: int)
    requires
        0 <= king_bucket < 45,
        0 <= packed_bp < 1629,
    ensures
        base_feature(king_bucket, packed_bp) / 1629 == king_bucket,
        base_feature(king_bucket, packed_bp) % 1629 == packed_bp,
        0 <= base_feature(king_bucket, packed_bp) < 45 * 1629,
{
    let f = base_feature(king_bucket, packed_bp);
    assert(f / 1629 == king_bucket && f % 1629 == packed_bp);
}

/// The pieces of the first `k` kinds of a hand that have a number.
pub open spec fn numbered_before(hand: Hand, k: nat) -> int
    decreases k,
{
    if k == 0 {
        0
    } else {
        let most: int = seq![18int, 4, 4, 4, 4, 2, 2][k - 1];
        numbered_before(hand, (k - 1) as nat) + if hand.counts@[k - 1] < most {
            hand.counts@[k - 1] as int
        } else {
            most
        }
    }
}

/// All kinds together are the whole hand.
pub proof fn lemma_numbered_kinds(hand: Hand)
    ensures
        numbered_before(hand, 7) == numbered_in_hand(hand),
{
    reveal_with_fuel(numbered_before, 8);
}

/// The number of a king gives back the square index that its side sees, and a number of a piece in
/// hand gives none.
pub proof fn numbers_give_back_the_kings_square(sq_index: int, friend: bool, hand: int)
    requires
        0 <= sq_index < 81,
        0 <= hand < 90,
    ensures
        square_of_number(king_number(sq_index, friend)) == Some(Square(sq_index as u8)),
        square_of_number(hand) is None,
{
}

/// The numbers that lie on a square are those of the planes and of the two kings. Within a plane
/// they follow the squares.
pub proof fn numbers_of_squares_follow_the_hands(bp: int)
    requires
        bp >= 0,
    ensures
        square_of_number(bp) is Some <==> 90 <= bp < 90 + 20 * 81,
        square_of_number(bp) matches Some(sq) ==> sq.0 < 81 && (bp - 90 - sq.0) % 81 == 0,
{
}

} // verus!
