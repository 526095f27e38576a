//! The squares a piece attacks, and how many pieces attack a square.

use vstd::prelude::*;

use crate::board::{square_at, Color, Piece, PieceType, ShogiBoard, Square, SQUARES};

verus! {

/// One way a piece moves: a step by files and ranks, taken once or, for a slider, again and again.
#[derive(Clone, Copy, Debug, PartialEq, Eq, Structural)]
pub struct Move {
    pub df: i8,
    pub dr: i8,
    pub slides: bool,
}

/// A single step.
pub open spec fn step(df: int, dr: int) -> Move {
    Move { df: df as i8, dr: dr as i8, slides: false }
}

/// A slide.
pub open spec fn ray(df: int, dr: int) -> Move {
    Move { df: df as i8, dr: dr as i8, slides: true }
}

/// The rank direction in which a side advances.
pub open spec fn forward_of(color: Color) -> int {
    match color {
        Color::Black => -1,
        Color::White => 1,
    }
}

/// The moves of a piece that advances in direction `fwd`.
pub open spec fn moves(pt: PieceType, fwd: int) -> Seq<Move> {
    match pt {
        PieceType::Empty => seq![],
        PieceType::Pawn => seq![step(0, fwd)],
        PieceType::Lance => seq![ray(0, fwd)],
        PieceType::Knight => seq![step(-1, 2 * fwd), step(1, 2 * fwd)],
        PieceType::Silver => seq![
            step(-1, fwd),
            step(0, fwd),
            step(1, fwd),
            step(-1, -fwd),
            step(1, -fwd),
        ],
        PieceType::Gold
        | PieceType::ProPawn
        | PieceType::ProLance
        | PieceType::ProKnight
        | PieceType::ProSilver => seq![
            step(-1, fwd),
            step(0, fwd),
            step(1, fwd),
            step(-1, 0),
            step(1, 0),
            step(0, -fwd),
        ],
        PieceType::Bishop => seq![ray(-1, -1), ray(-1, 1), ray(1, -1), ray(1, 1)],
        PieceType::Rook => seq![ray(-1, 0), ray(1, 0), ray(0, -1), ray(0, 1)],
        PieceType::Horse => seq![
            ray(-1, -1),
            ray(-1, 1),
            ray(1, -1),
            ray(1, 1),
            step(-1, 0),
            step(1, 0),
            step(0, -1),
            step(0, 1),
        ],
        PieceType::Dragon => seq![
            ray(-1, 0),
            ray(1, 0),
            ray(0, -1),
            ray(0, 1),
            step(-1, -1),
            step(-1, 1),
            step(1, -1),
            step(1, 1),
        ],
        PieceType::King => seq![
            step(-1, -1),
            step(-1, 0),
            step(-1, 1),
            step(0, -1),
            step(0, 1),
            step(1, -1),
            step(1, 0),
            step(1, 1),
        ],
    }
}

/// `x` moved `k` times by `d`, for a `d` of -1, 0 or 1.
pub open spec fn shifted(x: int, d: int, k: int) -> int {
    if d == 0 {
        x
    } else if d > 0 {
        x + k
    } else {
        x - k
    }
}

/// Whether a file and a rank name a square.
pub open spec fn on_board(file: int, rank: int) -> bool {
    0 <= file < 9 && 0 <= rank < 9
}

/// The number of king's steps between two squares.
pub open spec fn distance(from: Square, to: Square) -> int {
    let files = if to.0 / 9 > from.0 / 9 {
        to.0 / 9 - from.0 / 9
    } else {
        from.0 / 9 - to.0 / 9
    };
    let ranks = if to.0 % 9 > from.0 % 9 {
        to.0 % 9 - from.0 % 9
    } else {
        from.0 % 9 - to.0 % 9
    };
    if files > ranks {
        files
    } else {
        ranks
    }
}

/// Whether the slide along `m` from `from` passes only empty squares on its first `k - 1` steps
/// and is on the board after `k`.
pub open spec fn slides_to(occupied: Seq<bool>, from: Square, m: Move, k: int) -> bool {
    let file = from.0 as int / 9;
    let rank = from.0 as int % 9;
    &&& on_board(shifted(file, m.df as int, k), shifted(rank, m.dr as int, k))
    &&& forall|j: int|
        0 < j < k ==> !(#[trigger] occupied[square_at(
            shifted(file, m.df as int, j),
            shifted(rank, m.dr as int, j),
        ).0 as int])
}

/// Whether a piece on `from` reaches `to` by the move `m`: in one step, or by sliding over empty
/// squares up to and including the first occupied one.
pub open spec fn hits(occupied: Seq<bool>, from: Square, m: Move, to: Square) -> bool {
    let file = from.0 as int / 9;
    let rank = from.0 as int % 9;
    &&& to.valid()
    &&& if m.slides {
        let k = distance(from, to);
        &&& k > 0
        &&& slides_to(occupied, from, m, k)
        &&& to == square_at(shifted(file, m.df as int, k), shifted(rank, m.dr as int, k))
    } else {
        &&& on_board(file + m.df, rank + m.dr)
        &&& to == square_at(file + m.df, rank + m.dr)
    }
}

/// The squares of a slide from its step `k` on, outwards up to the first occupied one.
pub open spec fn slide_squares(occupied: Seq<bool>, from: Square, m: Move, k: int) -> Seq<Square>
    decreases 9 - k,
{
    let file = shifted(from.0 as int / 9, m.df as int, k);
    let rank = shifted(from.0 as int % 9, m.dr as int, k);
    if k >= 9 || !on_board(file, rank) {
        seq![]
    } else if occupied[square_at(file, rank).0 as int] {
        seq![square_at(file, rank)]
    } else {
        seq![square_at(file, rank)] + slide_squares(occupied, from, m, k + 1)
    }
}

/// The squares that one move reaches, outwards.
pub open spec fn move_squares(occupied: Seq<bool>, from: Square, m: Move) -> Seq<Square> {
    let file = from.0 as int / 9 + m.df;
    let rank = from.0 as int % 9 + m.dr;
    if m.slides {
        slide_squares(occupied, from, m, 1)
    } else if on_board(file, rank) {
        seq![square_at(file, rank)]
    } else {
        seq![]
    }
}

/// The squares that moves reach, move by move.
pub open spec fn moves_squares(occupied: Seq<bool>, from: Square, ms: Seq<Move>) -> Seq<Square>
    decreases ms.len(),
{
    if ms.len() == 0 {
        seq![]
    } else {
        moves_squares(occupied, from, ms.drop_last()) + move_squares(occupied, from, ms.last())
    }
}

/// Whether some move of `ms` reaches `to`.
pub open spec fn some_hits(occupied: Seq<bool>, from: Square, ms: Seq<Move>, to: Square) -> bool {
    exists|i: int| 0 <= i < ms.len() && hits(occupied, from, #[trigger] ms[i], to)
}

/// Whether a piece on `from` attacks `to`.
pub open spec fn attacks(
    occupied: Seq<bool>,
    piece: Piece,
    from: Square,
    to: Square,
) -> bool {
    some_hits(occupied, from, moves(piece.piece_type, forward_of(piece.color)), to)
}

/// A move with entries of at most one.
pub open spec fn unit(m: Move) -> bool {
    -1 <= m.df <= 1 && -1 <= m.dr <= 1 && (m.df != 0 || m.dr != 0)
}

/// A move that a piece can have: one square in some direction, once or again and again, or a
/// knight's jump.
pub open spec fn move_ok(m: Move) -> bool {
    unit(m) || (!m.slides && (m.df == -1 || m.df == 1) && (m.dr == -2 || m.dr == 2))
}

/// Different directions, so that no square is reached twice.
pub open spec fn apart(ms: Seq<Move>) -> bool {
    &&& forall|i: int| 0 <= i < ms.len() ==> move_ok(#[trigger] ms[i])
    &&& forall|i: int, j: int|
        0 <= i < j < ms.len() ==> (#[trigger] ms[i]).df != (#[trigger] ms[j]).df || ms[i].dr
            != ms[j].dr
}

/// The squares that hold a piece.
pub open spec fn occupied_squares(board: Seq<Piece>) -> Seq<bool> {
    Seq::new(board.len(), |k: int| board[k].piece_type != PieceType::Empty)
}

/// A set of squares as bits, the first 64 in one word and the rest in another.
#[derive(Clone, Copy, Debug)]
pub struct Occupied {
    low: u64,
    high: u64,
}

/// Whether bit `s` of a word is set.
pub open spec fn word_bit(word: u64, s: u64) -> bool {
    (word >> s) & 1 != 0
}

proof fn lemma_set_bit(word: u64, s: u64, t: u64)
    requires
        s < 64,
        t < 64,
    ensures
        word_bit(word | (1u64 << s), t) == (t == s || word_bit(word, t)),
{
    assert(s < 64 && t < 64 ==> ((((word | (1u64 << s)) >> t) & 1 != 0) <==> (t == s || ((word
        >> t) & 1 != 0)))) by (bit_vector);
}

impl Occupied {
    /// The squares in the set.
    pub closed spec fn squares(&self) -> Seq<bool> {
        Seq::new(
            81,
            |k: int|
                if k < 64 {
                    word_bit(self.low, k as u64)
                } else {
                    word_bit(self.high, (k - 64) as u64)
                },
        )
    }

    /// The squares of a board that hold a piece.
    pub fn from_board(board: &ShogiBoard) -> (r: Occupied)
        ensures
            r.squares() == occupied_squares(board.board@),
    {
        let mut r = Occupied { low: 0, high: 0 };
        let mut sq: usize = 0;
        proof {
            assert forall|k: u64| k < 64 implies !word_bit(0, k) by {
                assert(k < 64 ==> (0u64 >> k) & 1 == 0) by (bit_vector);
            }
        }
        while sq < SQUARES
            invariant
                sq <= 81,
                forall|k: int|
                    0 <= k < 81 ==> #[trigger] r.squares()[k] == (k < sq
                        && board.board@[k].piece_type != PieceType::Empty),
            decreases 81 - sq,
        {
            let ghost before = r;
            if board.board[sq].is_some() {
                if sq < 64 {
                    r.low = r.low | (1u64 << (sq as u64));
                } else {
                    r.high = r.high | (1u64 << ((sq - 64) as u64));
                }
                proof {
                    assert forall|k: int| 0 <= k < 81 implies #[trigger] r.squares()[k] == (k == sq
                        || before.squares()[k]) by {
                        if k < 64 && sq < 64 {
                            lemma_set_bit(before.low, sq as u64, k as u64);
                        } else if k >= 64 && sq >= 64 {
                            lemma_set_bit(before.high, (sq - 64) as u64, (k - 64) as u64);
                        }
                    }
                }
            }
            assert forall|k: int| 0 <= k < 81 implies #[trigger] r.squares()[k] == (k < sq + 1
                && board.board@[k].piece_type != PieceType::Empty) by {
                assert(before.squares()[k] == (k < sq && board.board@[k].piece_type
                    != PieceType::Empty));
            }
            sq += 1;
        }
        assert(r.squares() =~= occupied_squares(board.board@));
        r
    }

    /// Whether a square is in the set.
    pub fn is_occupied(&self, sq: Square) -> (r: bool)
        requires
            sq.valid(),
        ensures
            r == self.squares()[sq.0 as int],
    {
        if sq.0 < 64 {
            (self.low >> (sq.0 as u64)) & 1 != 0
        } else {
            (self.high >> ((sq.0 - 64) as u64)) & 1 != 0
        }
    }
}

/// The moves of a piece that advances in direction `fwd`.
fn move_list(pt: PieceType, fwd: i8) -> (r: Vec<Move>)
    requires
        fwd == -1 || fwd == 1,
    ensures
        r@ == moves(pt, fwd as int),
{
    let back: i8 = -fwd;
    let r: Vec<Move> = match pt {
        PieceType::Empty => Vec::new(),
        PieceType::Pawn => vec![Move { df: 0, dr: fwd, slides: false }],
        PieceType::Lance => vec![Move { df: 0, dr: fwd, slides: true }],
        PieceType::Knight => vec![
            Move { df: -1, dr: 2 * fwd, slides: false },
            Move { df: 1, dr: 2 * fwd, slides: false },
        ],
        PieceType::Silver => vec![
            Move { df: -1, dr: fwd, slides: false },
            Move { df: 0, dr: fwd, slides: false },
            Move { df: 1, dr: fwd, slides: false },
            Move { df: -1, dr: back, slides: false },
            Move { df: 1, dr: back, slides: false },
        ],
        PieceType::Gold
        | PieceType::ProPawn
        | PieceType::ProLance
        | PieceType::ProKnight
        | PieceType::ProSilver => vec![
            Move { df: -1, dr: fwd, slides: false },
            Move { df: 0, dr: fwd, slides: false },
            Move { df: 1, dr: fwd, slides: false },
            Move { df: -1, dr: 0, slides: false },
            Move { df: 1, dr: 0, slides: false },
            Move { df: 0, dr: back, slides: false },
        ],
        PieceType::Bishop => vec![
            Move { df: -1, dr: -1, slides: true },
            Move { df: -1, dr: 1, slides: true },
            Move { df: 1, dr: -1, slides: true },
            Move { df: 1, dr: 1, slides: true },
        ],
        PieceType::Rook => vec![
            Move { df: -1, dr: 0, slides: true },
            Move { df: 1, dr: 0, slides: true },
            Move { df: 0, dr: -1, slides: true },
            Move { df: 0, dr: 1, slides: true },
        ],
        PieceType::Horse => vec![
            Move { df: -1, dr: -1, slides: true },
            Move { df: -1, dr: 1, slides: true },
            Move { df: 1, dr: -1, slides: true },
            Move { df: 1, dr: 1, slides: true },
            Move { df: -1, dr: 0, slides: false },
            Move { df: 1, dr: 0, slides: false },
            Move { df: 0, dr: -1, slides: false },
            Move { df: 0, dr: 1, slides: false },
        ],
        PieceType::Dragon => vec![
            Move { df: -1, dr: 0, slides: true },
            Move { df: 1, dr: 0, slides: true },
            Move { df: 0, dr: -1, slides: true },
            Move { df: 0, dr: 1, slides: true },
            Move { df: -1, dr: -1, slides: false },
            Move { df: -1, dr: 1, slides: false },
            Move { df: 1, dr: -1, slides: false },
            Move { df: 1, dr: 1, slides: false },
        ],
        PieceType::King => vec![
            Move { df: -1, dr: -1, slides: false },
            Move { df: -1, dr: 0, slides: false },
            Move { df: -1, dr: 1, slides: false },
            Move { df: 0, dr: -1, slides: false },
            Move { df: 0, dr: 1, slides: false },
            Move { df: 1, dr: -1, slides: false },
            Move { df: 1, dr: 0, slides: false },
            Move { df: 1, dr: 1, slides: false },
        ],
    };
    assert(r@ =~= moves(pt, fwd as int));
    r
}

/// The moves of every piece go in different directions.
proof fn lemma_moves_apart(pt: PieceType, fwd: int)
    requires
        fwd == -1 || fwd == 1,
    ensures
        apart(moves(pt, fwd)),
{
}

/// Where a slide is after `k` steps, seen by its distance.
proof fn lemma_slide_distance(from: Square, m: Move, k: int)
    requires
        from.valid(),
        unit(m),
        0 <= k,
        on_board(
            shifted(from.0 as int / 9, m.df as int, k),
            shifted(from.0 as int % 9, m.dr as int, k),
        ),
    ensures
        ({
            let to = square_at(
                shifted(from.0 as int / 9, m.df as int, k),
                shifted(from.0 as int % 9, m.dr as int, k),
            );
            &&& to.valid()
            &&& to.0 as int / 9 == shifted(from.0 as int / 9, m.df as int, k)
            &&& to.0 as int % 9 == shifted(from.0 as int % 9, m.dr as int, k)
            &&& distance(from, to) == k
        }),
{
}

/// Two moves in different directions never reach the same square.
proof fn lemma_apart(occupied: Seq<bool>, from: Square, a: Move, b: Move, to: Square)
    requires
        from.valid(),
        move_ok(a),
        move_ok(b),
        a.df != b.df || a.dr != b.dr,
    ensures
        !(hits(occupied, from, a, to) && hits(occupied, from, b, to)),
{
    let k = distance(from, to);
    if hits(occupied, from, a, to) && a.slides {
        lemma_slide_distance(from, a, k);
    }
    if hits(occupied, from, b, to) && b.slides {
        lemma_slide_distance(from, b, k);
    }
}

/// Adds the squares that one move reaches.
fn add_hits(out: &mut Vec<Square>, occ: &Occupied, from: Square, m: Move)
    requires
        from.valid(),
        move_ok(m),
        old(out)@.no_duplicates(),
        forall|to: Square| old(out)@.contains(to) ==> !#[trigger] hits(occ.squares(), from, m, to),
    ensures
        final(out)@.no_duplicates(),
        final(out)@ == old(out)@ + move_squares(occ.squares(), from, m),
        forall|to: Square| #[trigger]
            final(out)@.contains(to) <==> (old(out)@.contains(to) || hits(
                occ.squares(),
                from,
                m,
                to,
            )),
{
    let file: i8 = from.file() as i8;
    let rank: i8 = from.rank() as i8;
    let ghost s = occ.squares();
    let ghost start = out@;
    let mut f: i8 = file + m.df;
    let mut r: i8 = rank + m.dr;
    if !m.slides {
        if 0 <= f && f < 9 && 0 <= r && r < 9 {
            let sq = Square::new(f as u8, r as u8);
            assert(hits(s, from, m, sq));
            out.push(sq);
            proof {
                lemma_pushed(start, sq);
                assert forall|to: Square| #[trigger] out@.contains(to) <==> (start.contains(to)
                    || hits(s, from, m, to)) by {
                    if hits(s, from, m, to) {
                        assert(to == sq);
                    }
                }
            }
        } else {
            assert(forall|to: Square| !hits(s, from, m, to));
        }
        return;
    }
    let ghost mut k: int = 1;
    while 0 <= f && f < 9 && 0 <= r && r < 9
        invariant_except_break
            out@ + slide_squares(s, from, m, k) == start + slide_squares(s, from, m, 1),
            forall|j: int|
                0 < j < k ==> !(#[trigger] s[square_at(
                    shifted(file as int, m.df as int, j),
                    shifted(rank as int, m.dr as int, j),
                ).0 as int]),
            forall|to: Square| #[trigger]
                out@.contains(to) <==> (start.contains(to) || (hits(s, from, m, to) && distance(
                    from,
                    to,
                ) < k)),
        invariant
            from.valid(),
            unit(m),
            m.slides,
            s == occ.squares(),
            file == from.0 / 9,
            rank == from.0 % 9,
            k >= 1,
            f == shifted(file as int, m.df as int, k),
            r == shifted(rank as int, m.dr as int, k),
            -1 <= f <= 9,
            -1 <= r <= 9,
            out@.no_duplicates(),
            forall|to: Square| start.contains(to) ==> !#[trigger] hits(s, from, m, to),
        ensures
            out@ == start + slide_squares(s, from, m, 1),
            forall|to: Square| #[trigger]
                out@.contains(to) <==> (start.contains(to) || hits(s, from, m, to)),
        decreases 20 - k,
    {
        let sq = Square::new(f as u8, r as u8);
        let ghost before = out@;
        proof {
            lemma_slide_distance(from, m, k);
            assert(slides_to(s, from, m, k));
            assert(hits(s, from, m, sq));
            assert(!before.contains(sq));
        }
        out.push(sq);
        proof {
            if s[sq.0 as int] {
                assert(out@ =~= before + slide_squares(s, from, m, k));
            } else {
                assert(out@ + slide_squares(s, from, m, k + 1) =~= before + slide_squares(
                    s,
                    from,
                    m,
                    k,
                ));
            }
            lemma_pushed(before, sq);
            assert forall|to: Square| #[trigger] out@.contains(to) <==> (start.contains(to) || (
            hits(s, from, m, to) && distance(from, to) < k + 1)) by {
                if hits(s, from, m, to) && distance(from, to) == k {
                    assert(to == sq);
                }
            }
        }
        if occ.is_occupied(sq) {
            proof {
                assert forall|to: Square| #[trigger] out@.contains(to) <==> (start.contains(to)
                    || hits(s, from, m, to)) by {
                    if hits(s, from, m, to) && distance(from, to) > k {
                        assert(slides_to(s, from, m, distance(from, to)));
                        assert(s[square_at(
                            shifted(file as int, m.df as int, k),
                            shifted(rank as int, m.dr as int, k),
                        ).0 as int]);
                    }
                }
            }
            break;
        }
        f = f + m.df;
        r = r + m.dr;
        proof {
            k = k + 1;
            if !on_board(f as int, r as int) {
                assert(out@ + slide_squares(s, from, m, k) =~= out@);
                assert forall|to: Square| #[trigger] out@.contains(to) <==> (start.contains(to)
                    || hits(s, from, m, to)) by {
                    if hits(s, from, m, to) && distance(from, to) >= k {
                        let d = distance(from, to);
                        assert(on_board(
                            shifted(file as int, m.df as int, d),
                            shifted(rank as int, m.dr as int, d),
                        ));
                    }
                }
            }
        }
    }
}

/// What a sequence contains after a push.
proof fn lemma_pushed(s: Seq<Square>, sq: Square)
    ensures
        forall|to: Square| #[trigger] s.push(sq).contains(to) <==> (s.contains(to) || to == sq),
        s.no_duplicates() && !s.contains(sq) ==> s.push(sq).no_duplicates(),
{
    assert forall|to: Square| #[trigger] s.push(sq).contains(to) <==> (s.contains(to) || to
        == sq) by {
        if s.contains(to) {
            let i = choose|i: int| 0 <= i < s.len() && s[i] == to;
            assert(s.push(sq)[i] == to);
        }
        if to == sq {
            assert(s.push(sq)[s.len() as int] == to);
        }
    }
}

/// The squares that a piece attacks, each once, move by move and outwards: its steps on the board,
/// and its slides up to the first occupied square. The king counts as any piece; its own square is
/// never attacked.
pub fn attacks_with_king(pt: PieceType, color: Color, from: Square, occ: &Occupied) -> (r: Vec<
    Square,
>)
    requires
        from.valid(),
    ensures
        r@ == moves_squares(occ.squares(), from, moves(pt, forward_of(color))),
        r@.no_duplicates(),
        forall|to: Square| #[trigger]
            r@.contains(to) <==> attacks(
                occ.squares(),
                Piece { color, piece_type: pt },
                from,
                to,
            ),
{
    let forward: i8 = if color == Color::Black {
        -1
    } else {
        1
    };
    let list = move_list(pt, forward);
    proof {
        lemma_moves_apart(pt, forward as int);
    }
    let ghost s = occ.squares();
    let mut out: Vec<Square> = Vec::new();
    let mut i: usize = 0;
    while i < list.len()
        invariant
            i <= list@.len(),
            from.valid(),
            s == occ.squares(),
            apart(list@),
            out@ == moves_squares(s, from, list@.take(i as int)),
            out@.no_duplicates(),
            forall|to: Square| #[trigger]
                out@.contains(to) <==> some_hits(s, from, list@.take(i as int), to),
        decreases list@.len() - i,
    {
        let ghost before = out@;
        proof {
            assert forall|to: Square| before.contains(to) implies !#[trigger] hits(
                s,
                from,
                list@[i as int],
                to,
            ) by {
                if hits(s, from, list@[i as int], to) {
                    let done = list@.take(i as int);
                    let j = choose|j: int| 0 <= j < done.len() && hits(s, from, #[trigger] done[j], to);
                    assert(done[j] == list@[j]);
                    lemma_apart(s, from, list@[j], list@[i as int], to);
                }
            }
        }
        add_hits(&mut out, occ, from, list[i]);
        proof {
            let done = list@.take(i as int);
            let more = list@.take(i + 1);
            assert(more.drop_last() =~= done);
            assert forall|to: Square| #[trigger] out@.contains(to) <==> some_hits(
                s,
                from,
                more,
                to,
            ) by {
                if some_hits(s, from, done, to) {
                    let j = choose|j: int| 0 <= j < done.len() && hits(s, from, #[trigger] done[j], to);
                    assert(more[j] == done[j]);
                }
                if hits(s, from, list@[i as int], to) {
                    assert(more[i as int] == list@[i as int]);
                }
                if some_hits(s, from, more, to) {
                    let j = choose|j: int| 0 <= j < more.len() && hits(s, from, #[trigger] more[j], to);
                    if j < i {
                        assert(done[j] == more[j]);
                    }
                }
            }
        }
        i += 1;
    }
    assert(list@.take(i as int) =~= list@);
    out
}

/// By how many files `to` lies beyond `from`.
pub open spec fn files_between(from: Square, to: Square) -> int {
    to.0 as int / 9 - from.0 as int / 9
}

/// By how many ranks `to` lies beyond `from`.
pub open spec fn ranks_between(from: Square, to: Square) -> int {
    to.0 as int % 9 - from.0 as int % 9
}

/// The index `j` steps from one square towards another.
pub open spec fn towards(from: Square, to: Square, j: int) -> int {
    let (df, dr) = (files_between(from, to), ranks_between(from, to));
    from.0 + (if df > 0 {
        9 * j
    } else if df < 0 {
        -9 * j
    } else {
        0
    }) + (if dr > 0 {
        j
    } else if dr < 0 {
        -j
    } else {
        0
    })
}

/// Whether every square strictly between two squares on a line is empty.
pub open spec fn clear_between(occupied: Seq<bool>, from: Square, to: Square) -> bool {
    let (df, dr) = (files_between(from, to), ranks_between(from, to));
    forall|j: int|
        0 < j && (j < df || j < -df || j < dr || j < -dr) ==> !(#[trigger] occupied[towards(
            from,
            to,
            j,
        )])
}

/// Whether two squares lie on a file or a rank, with only empty squares between.
pub open spec fn straight(occupied: Seq<bool>, from: Square, to: Square) -> bool {
    let (df, dr) = (files_between(from, to), ranks_between(from, to));
    (df == 0) != (dr == 0) && clear_between(occupied, from, to)
}

/// Whether two squares lie on a diagonal, with only empty squares between.
pub open spec fn diagonal(occupied: Seq<bool>, from: Square, to: Square) -> bool {
    let (df, dr) = (files_between(from, to), ranks_between(from, to));
    df != 0 && (df == dr || df == -dr) && clear_between(occupied, from, to)
}

/// Whether two squares touch.
pub open spec fn touches(from: Square, to: Square) -> bool {
    let (df, dr) = (files_between(from, to), ranks_between(from, to));
    -1 <= df <= 1 && -1 <= dr <= 1 && (df != 0 || dr != 0)
}

/// Where a slide or a step leads, told by the files and ranks between its ends.
proof fn lemma_hits_by_place(occupied: Seq<bool>, from: Square, m: Move, to: Square)
    requires
        from.valid(),
        to.valid(),
        move_ok(m),
    ensures
        ({
            let (df, dr) = (files_between(from, to), ranks_between(from, to));
            hits(occupied, from, m, to) <==> if m.slides {
                &&& clear_between(occupied, from, to)
                &&& m.df == 0 ==> df == 0
                &&& m.df > 0 ==> df > 0
                &&& m.df < 0 ==> df < 0
                &&& m.dr == 0 ==> dr == 0
                &&& m.dr > 0 ==> dr > 0
                &&& m.dr < 0 ==> dr < 0
                &&& df == 0 || dr == 0 || df == dr || df == -dr
            } else {
                df == m.df && dr == m.dr
            }
        }),
{
    let (df, dr) = (files_between(from, to), ranks_between(from, to));
    let (file, rank) = (from.0 as int / 9, from.0 as int % 9);
    assert(to.0 as int == to.0 as int / 9 * 9 + to.0 as int % 9);
    assert(from.0 as int == file * 9 + rank);
    if m.slides {
        let k = distance(from, to);
        let aligned = {
            &&& m.df == 0 ==> df == 0
            &&& m.df > 0 ==> df > 0
            &&& m.df < 0 ==> df < 0
            &&& m.dr == 0 ==> dr == 0
            &&& m.dr > 0 ==> dr > 0
            &&& m.dr < 0 ==> dr < 0
            &&& df == 0 || dr == 0 || df == dr || df == -dr
        };
        if hits(occupied, from, m, to) {
            lemma_slide_distance(from, m, k);
            assert(aligned);
            assert forall|j: int|
                0 < j && (j < df || j < -df || j < dr || j < -dr) implies !(#[trigger] occupied[towards(
                from,
                to,
                j,
            )]) by {
                let (f, r) = (shifted(file, m.df as int, j), shifted(rank, m.dr as int, j));
                assert(0 < j < k);
                assert(!occupied[square_at(f, r).0 as int]);
            }
        }
        if aligned && clear_between(occupied, from, to) {
            assert(to == square_at(shifted(file, m.df as int, k), shifted(rank, m.dr as int, k)));
            assert forall|j: int| 0 < j < k implies !(#[trigger] occupied[square_at(
                shifted(file, m.df as int, j),
                shifted(rank, m.dr as int, j),
            ).0 as int]) by {
                assert(!occupied[towards(from, to, j)]);
            }
            assert(slides_to(occupied, from, m, k));
        }
    }
}

/// How the pieces attack, told by where the attacked square lies: a pawn the square ahead, a lance
/// any square ahead up to the first piece, a knight two ahead and one aside, a silver the touching
/// squares but those beside and behind it, a gold the touching squares but the two diagonally
/// behind it, a bishop and a rook along diagonals and lines up to the first piece, a horse and a
/// dragon also the touching squares, and a king the touching squares.
pub proof fn pieces_attack_by_their_nature(
    occupied: Seq<bool>,
    color: Color,
    pt: PieceType,
    from: Square,
    to: Square,
)
    requires
        from.valid(),
        to.valid(),
    ensures
        ({
            let df = files_between(from, to);
            let ahead = if color == Color::Black {
                -ranks_between(from, to)
            } else {
                ranks_between(from, to)
            };
            attacks(occupied, Piece { color, piece_type: pt }, from, to) <==> match pt {
                PieceType::Empty => false,
                PieceType::Pawn => df == 0 && ahead == 1,
                PieceType::Lance => df == 0 && ahead > 0 && clear_between(occupied, from, to),
                PieceType::Knight => (df == 1 || df == -1) && ahead == 2,
                PieceType::Silver => touches(from, to) && ahead != 0 && !(ahead == -1 && df == 0),
                PieceType::Bishop => diagonal(occupied, from, to),
                PieceType::Rook => straight(occupied, from, to),
                PieceType::King => touches(from, to),
                PieceType::Horse => diagonal(occupied, from, to) || touches(from, to),
                PieceType::Dragon => straight(occupied, from, to) || touches(from, to),
                _ => touches(from, to) && !(ahead == -1 && df != 0),
            }
        }),
{
    let ms = moves(pt, forward_of(color));
    lemma_moves_apart(pt, forward_of(color));
    assert forall|i: int| 0 <= i < ms.len() implies {
        let (df, dr) = (files_between(from, to), ranks_between(from, to));
        let m = #[trigger] ms[i];
        hits(occupied, from, m, to) <==> if m.slides {
            &&& clear_between(occupied, from, to)
            &&& m.df == 0 ==> df == 0
            &&& m.df > 0 ==> df > 0
            &&& m.df < 0 ==> df < 0
            &&& m.dr == 0 ==> dr == 0
            &&& m.dr > 0 ==> dr > 0
            &&& m.dr < 0 ==> dr < 0
            &&& df == 0 || dr == 0 || df == dr || df == -dr
        } else {
            df == m.df && dr == m.dr
        }
    } by {
        assert(move_ok(ms[i]));
        lemma_hits_by_place(occupied, from, ms[i], to);
    }
    lemma_some_hits_listed(occupied, from, ms, to);
}

/// Up to eight moves, one by one.
proof fn lemma_some_hits_listed(occupied: Seq<bool>, from: Square, ms: Seq<Move>, to: Square)
    requires
        ms.len() <= 8,
    ensures
        some_hits(occupied, from, ms, to) <==> {
            ||| ms.len() > 0 && hits(occupied, from, ms[0], to)
            ||| ms.len() > 1 && hits(occupied, from, ms[1], to)
            ||| ms.len() > 2 && hits(occupied, from, ms[2], to)
            ||| ms.len() > 3 && hits(occupied, from, ms[3], to)
            ||| ms.len() > 4 && hits(occupied, from, ms[4], to)
            ||| ms.len() > 5 && hits(occupied, from, ms[5], to)
            ||| ms.len() > 6 && hits(occupied, from, ms[6], to)
            ||| ms.len() > 7 && hits(occupied, from, ms[7], to)
        },
{
    if some_hits(occupied, from, ms, to) {
        let i = choose|i: int| 0 <= i < ms.len() && hits(occupied, from, #[trigger] ms[i], to);
        assert(i == 0 || i == 1 || i == 2 || i == 3 || i == 4 || i == 5 || i == 6 || i == 7);
    }
}

/// The squares that stop a slide are those with a piece of any kind or side.
pub proof fn every_piece_occupies_its_square(board: Seq<Piece>, k: int)
    requires
        0 <= k < board.len(),
    ensures
        occupied_squares(board).len() == board.len(),
        !occupied_squares(board)[k] <==> board[k].piece_type == PieceType::Empty,
{
}

proof fn lemma_slide_squares(occupied: Seq<bool>, from: Square, m: Move, k: int)
    requires
        from.valid(),
        unit(m),
        m.slides,
        1 <= k,
        forall|j: int|
            0 < j < k ==> !(#[trigger] occupied[square_at(
                shifted(from.0 as int / 9, m.df as int, j),
                shifted(from.0 as int % 9, m.dr as int, j),
            ).0 as int]),
    ensures
        ({
            let squares = slide_squares(occupied, from, m, k);
            forall|x: int|
                0 <= x < squares.len() ==> hits(occupied, from, m, #[trigger] squares[x])
                    && distance(from, squares[x]) == k + x
        }),
    decreases 9 - k,
{
    let (file, rank) = (
        shifted(from.0 as int / 9, m.df as int, k),
        shifted(from.0 as int % 9, m.dr as int, k),
    );
    let squares = slide_squares(occupied, from, m, k);
    if k < 9 && on_board(file, rank) {
        lemma_slide_distance(from, m, k);
        assert(hits(occupied, from, m, square_at(file, rank)));
        if !occupied[square_at(file, rank).0 as int] {
            lemma_slide_squares(occupied, from, m, k + 1);
            let rest = slide_squares(occupied, from, m, k + 1);
            assert forall|x: int| 0 <= x < squares.len() implies hits(
                occupied,
                from,
                m,
                #[trigger] squares[x],
            ) && distance(from, squares[x]) == k + x by {
                if x > 0 {
                    assert(squares[x] == rest[x - 1]);
                }
            }
        }
    }
}

/// The moves that lead to two of the squares, and how those stand to each other.
proof fn lemma_moves_in_turn(
    occupied: Seq<bool>,
    from: Square,
    ms: Seq<Move>,
    i: int,
    j: int,
) -> (r: (int, int))
    requires
        from.valid(),
        forall|x: int| 0 <= x < ms.len() ==> move_ok(#[trigger] ms[x]),
        0 <= i < j < moves_squares(occupied, from, ms).len(),
    ensures
        ({
            let squares = moves_squares(occupied, from, ms);
            let (p, q) = r;
            &&& 0 <= p <= q < ms.len()
            &&& hits(occupied, from, ms[p], squares[i])
            &&& hits(occupied, from, ms[q], squares[j])
            &&& p == q ==> ms[p].slides && distance(from, squares[i]) < distance(from, squares[j])
        }),
    decreases ms.len(),
{
    let before = moves_squares(occupied, from, ms.drop_last());
    let m = ms.last();
    let added = move_squares(occupied, from, m);
    assert(move_ok(ms[ms.len() - 1]));
    if m.slides {
        lemma_slide_squares(occupied, from, m, 1);
    }
    assert forall|x: int| 0 <= x < ms.drop_last().len() implies move_ok(
        #[trigger] ms.drop_last()[x],
    ) by {
        assert(move_ok(ms[x]));
    }
    if j < before.len() {
        lemma_moves_in_turn(occupied, from, ms.drop_last(), i, j)
    } else if i < before.len() {
        let p = lemma_a_move_leads(occupied, from, ms.drop_last(), i);
        assert(hits(occupied, from, m, added[j - before.len()]));
        (p, ms.len() - 1)
    } else {
        assert(hits(occupied, from, m, added[i - before.len()]));
        assert(hits(occupied, from, m, added[j - before.len()]));
        (ms.len() - 1, ms.len() - 1)
    }
}

proof fn lemma_a_move_leads(occupied: Seq<bool>, from: Square, ms: Seq<Move>, i: int) -> (p: int)
    requires
        from.valid(),
        forall|x: int| 0 <= x < ms.len() ==> move_ok(#[trigger] ms[x]),
        0 <= i < moves_squares(occupied, from, ms).len(),
    ensures
        0 <= p < ms.len(),
        hits(occupied, from, ms[p], moves_squares(occupied, from, ms)[i]),
    decreases ms.len(),
{
    let before = moves_squares(occupied, from, ms.drop_last());
    let m = ms.last();
    assert(move_ok(ms[ms.len() - 1]));
    if m.slides {
        lemma_slide_squares(occupied, from, m, 1);
    }
    if i < before.len() {
        assert forall|x: int| 0 <= x < ms.drop_last().len() implies move_ok(
            #[trigger] ms.drop_last()[x],
        ) by {
            assert(move_ok(ms[x]));
        }
        lemma_a_move_leads(occupied, from, ms.drop_last(), i)
    } else {
        assert(hits(
            occupied,
            from,
            m,
            move_squares(occupied, from, m)[i - before.len()],
        ));
        ms.len() - 1
    }
}

/// The direction of a number of files or ranks.
pub open spec fn way(d: int) -> int {
    if d > 0 {
        1
    } else if d < 0 {
        -1
    } else {
        0
    }
}

/// Whether one diagonal direction, or one of a king's, comes before another: by files, then by
/// ranks.
pub open spec fn by_file_and_rank(a: (int, int), b: (int, int)) -> bool {
    a.0 < b.0 || (a.0 == b.0 && a.1 < b.1)
}

/// Whether one straight direction comes before another: across the files first.
pub open spec fn files_first(a: (int, int), b: (int, int)) -> bool {
    if a.1 == 0 && b.1 == 0 {
        a.0 < b.0
    } else if a.1 != 0 && b.1 != 0 {
        a.1 < b.1
    } else {
        a.1 == 0
    }
}

/// Whether one direction of a piece comes before another: from the front to the back for the
/// pieces that look ahead, by files and ranks for a bishop and a king, and across the files first
/// for a rook; a horse moves as a bishop first and a dragon as a rook.
pub open spec fn comes_before(
    pt: PieceType,
    color: Color,
    a: (int, int),
    b: (int, int),
) -> bool {
    let aslant = |d: (int, int)| d.0 != 0 && d.1 != 0;
    let ahead = |d: (int, int)|
        if color == Color::Black {
            -d.1
        } else {
            d.1
        };
    match pt {
        PieceType::Bishop | PieceType::King => by_file_and_rank(a, b),
        PieceType::Rook => files_first(a, b),
        PieceType::Horse => if aslant(a) {
            !aslant(b) || by_file_and_rank(a, b)
        } else {
            !aslant(b) && files_first(a, b)
        },
        PieceType::Dragon => if aslant(a) {
            aslant(b) && by_file_and_rank(a, b)
        } else {
            aslant(b) || files_first(a, b)
        },
        PieceType::Empty | PieceType::Pawn | PieceType::Lance => false,
        _ => ahead(a) > ahead(b) || (ahead(a) == ahead(b) && a.0 < b.0),
    }
}

proof fn lemma_directions_in_turn(pt: PieceType, color: Color, p: int, q: int)
    requires
        0 <= p < q < moves(pt, forward_of(color)).len(),
    ensures
        ({
            let ms = moves(pt, forward_of(color));
            comes_before(
                pt,
                color,
                (way(ms[p].df as int), way(ms[p].dr as int)),
                (way(ms[q].df as int), way(ms[q].dr as int)),
            )
        }),
{
}

/// The order in which attacked squares come: direction by direction, and outwards in each.
pub proof fn attacked_squares_come_in_turn(
    occupied: Seq<bool>,
    color: Color,
    pt: PieceType,
    from: Square,
    i: int,
    j: int,
)
    requires
        from.valid(),
        0 <= i < j < moves_squares(occupied, from, moves(pt, forward_of(color))).len(),
    ensures
        ({
            let squares = moves_squares(occupied, from, moves(pt, forward_of(color)));
            let (a, b) = (squares[i], squares[j]);
            let x = (way(files_between(from, a)), way(ranks_between(from, a)));
            let y = (way(files_between(from, b)), way(ranks_between(from, b)));
            comes_before(pt, color, x, y) || (x == y && distance(from, a) < distance(from, b))
        }),
{
    let ms = moves(pt, forward_of(color));
    let squares = moves_squares(occupied, from, ms);
    assert forall|x: int| 0 <= x < ms.len() implies move_ok(#[trigger] ms[x]) by {
        lemma_moves_apart(pt, forward_of(color));
    }
    let (p, q) = lemma_moves_in_turn(occupied, from, ms, i, j);
    lemma_way(occupied, from, ms[p], squares[i]);
    lemma_way(occupied, from, ms[q], squares[j]);
    if p < q {
        lemma_directions_in_turn(pt, color, p, q);
    }
}

/// A move leads in its own direction.
proof fn lemma_way(occupied: Seq<bool>, from: Square, m: Move, to: Square)
    requires
        from.valid(),
        move_ok(m),
        hits(occupied, from, m, to),
    ensures
        way(files_between(from, to)) == way(m.df as int),
        way(ranks_between(from, to)) == way(m.dr as int),
{
    if m.slides {
        lemma_slide_distance(from, m, distance(from, to));
    }
}

} // verus!
