//! Features with attack buckets: a base feature times the number of buckets, plus the bucket that
//! the attackers and defenders of the piece's square fall into.

use vstd::prelude::*;

use crate::attacks::{attacks, attacks_with_king, occupied_squares, Occupied};
use crate::board::{
    hand_slot, lemma_those_below, perspective_sq_index, seen_index, those_below, Color, Piece,
    PieceType, ShogiBoard, Square, HAND_PIECE_TYPES, SQUARES,
};
use crate::bona::{
    base_feature, board_pieces_are_numbered_by_square, halfka_index, hand_limit,
    hand_pieces_are_numbered_in_turn, king_bonapiece, king_number, lemma_numbered_kinds,
    numbered_before, numbered_in_hand, pack_bonapiece, packed, packing_mirrors_files, plane_of,
    BonaPieceLayout, E_KING, FE_HAND_END, FE_OLD_END, KING_BUCKETS, PIECE_INPUTS, ZERO_PIECE,
};

verus! {

/// How attack buckets are counted.
#[derive(Clone, Copy, Debug, PartialEq, Eq, Structural)]
pub struct E4Config {
    /// Number of buckets: 4 or 9.
    pub nb: usize,
    /// Whether kings get attack buckets.
    pub king_bucketed: bool,
}

impl E4Config {
    /// The bucket counts that exist.
    pub open spec fn valid(self) -> bool {
        self.nb == 4 || self.nb == 9
    }

    /// Two by two buckets, kings always in bucket zero.
    pub fn e4_2x2_kingfixed() -> (r: Self)
        ensures
            r == (E4Config { nb: 4, king_bucketed: false }),
    {
        E4Config { nb: 4, king_bucketed: false }
    }

    /// Two by two buckets, kings too.
    pub fn e4_2x2_kingbucketed() -> (r: Self)
        ensures
            r == (E4Config { nb: 4, king_bucketed: true }),
    {
        E4Config { nb: 4, king_bucketed: true }
    }

    /// Three by three buckets, kings always in bucket zero.
    pub fn kpe9_kingfixed() -> (r: Self)
        ensures
            r == (E4Config { nb: 9, king_bucketed: false }),
    {
        E4Config { nb: 9, king_bucketed: false }
    }

    /// Three by three buckets, kings too.
    pub fn kpe9_kingbucketed() -> (r: Self)
        ensures
            r == (E4Config { nb: 9, king_bucketed: true }),
    {
        E4Config { nb: 9, king_bucketed: true }
    }

    /// The number of features.
    pub fn dimensions(self) -> (r: usize)
        requires
            45 * 1629 * self.nb <= usize::MAX,
        ensures
            r == 45 * 1629 * self.nb,
    {
        KING_BUCKETS * PIECE_INPUTS * self.nb
    }
}

/// Whether a packed piece gets an attack bucket: pieces on the board do, pieces in hand do not,
/// and kings do where `king_bucketed` says so.
pub open spec fn is_bucketed(packed_bp: int, king_bucketed: bool) -> bool {
    if packed_bp < 90 {
        false
    } else if packed_bp < 1548 {
        true
    } else {
        king_bucketed
    }
}

/// Whether a packed piece gets an attack bucket.
pub fn packed_is_bucketed(packed_bp: usize, king_bucketed: bool) -> (r: bool)
    ensures
        r == is_bucketed(packed_bp as int, king_bucketed),
{
    if packed_bp < FE_HAND_END {
        false
    } else if packed_bp < FE_OLD_END {
        true
    } else {
        king_bucketed
    }
}

/// `n`, but at most `limit`.
pub open spec fn at_most(n: int, limit: int) -> int {
    if n < limit {
        n
    } else {
        limit
    }
}

/// The bucket of a square with so many attackers and defenders: both counts are cut at one or two,
/// and the defenders weigh more.
pub open spec fn bucket_for(attacked: int, defended: int, nb: int) -> int {
    if nb == 4 {
        at_most(defended, 1) * 2 + at_most(attacked, 1)
    } else {
        at_most(defended, 2) * 3 + at_most(attacked, 2)
    }
}

fn capped(n: u8, limit: u8) -> (r: usize)
    ensures
        r == at_most(n as int, limit as int),
{
    if n < limit {
        n as usize
    } else {
        limit as usize
    }
}

/// The bucket of a square with so many attackers and defenders.
pub fn e4_bucket(attacked: u8, defended: u8, nb: usize) -> (r: usize)
    requires
        nb == 4 || nb == 9,
    ensures
        r == bucket_for(attacked as int, defended as int, nb as int),
        r < nb,
{
    if nb == 4 {
        capped(defended, 1) * 2 + capped(attacked, 1)
    } else {
        capped(defended, 2) * 3 + capped(attacked, 2)
    }
}

/// Combines a base feature and a bucket.
pub fn e4_index(base_index: usize, bucket: usize, nb: usize) -> (r: usize)
    requires
        base_index * nb + bucket <= usize::MAX,
    ensures
        r == base_index * nb + bucket,
{
    proof {
        assert(0 <= base_index * nb) by (nonlinear_arith)
            requires
                base_index >= 0,
                nb >= 0,
        ;
    }
    base_index * nb + bucket
}

/// How many of the first `n` squares hold a piece of `color` that attacks `to`.
pub open spec fn attackers_below(board: Seq<Piece>, color: Color, to: Square, n: nat) -> nat
    decreases n,
{
    if n == 0 {
        0
    } else {
        let from = Square((n - 1) as u8);
        let piece = board[n - 1];
        attackers_below(board, color, to, (n - 1) as nat) + if piece.piece_type != PieceType::Empty
            && piece.color == color && attacks(occupied_squares(board), piece, from, to) {
            1nat
        } else {
            0nat
        }
    }
}

/// How many pieces of `color` attack `to`.
pub open spec fn attackers(board: Seq<Piece>, color: Color, to: Square) -> nat {
    attackers_below(board, color, to, 81)
}

/// The attackers of every square, by side.
#[derive(Clone, Copy, Debug)]
pub struct E4AttackCounts {
    black: [u8; 81],
    white: [u8; 81],
}

impl E4AttackCounts {
    /// The count of a side on a square.
    pub closed spec fn count(&self, color: Color, sq: Square) -> u8 {
        match color {
            Color::Black => self.black@[sq.0 as int],
            Color::White => self.white@[sq.0 as int],
        }
    }

    /// How many pieces of `color` attack `sq`.
    pub fn get(&self, color: Color, sq: Square) -> (r: u8)
        requires
            sq.valid(),
        ensures
            r == self.count(color, sq),
    {
        match color {
            Color::Black => self.black[sq.0 as usize],
            Color::White => self.white[sq.0 as usize],
        }
    }

    /// Adds one attacker of a side to a square.
    fn add_one(&mut self, color: Color, sq: Square)
        requires
            sq.valid(),
            old(self).count(color, sq) < 255,
        ensures
            final(self).count(color, sq) == old(self).count(color, sq) + 1,
            forall|c: Color, s: Square|
                s.valid() && (c != color || s != sq) ==> #[trigger] final(self).count(c, s) == old(
                    self,
                ).count(c, s),
    {
        match color {
            Color::Black => {
                let n: u8 = self.black[sq.0 as usize];
                self.black[sq.0 as usize] = n + 1;
            },
            Color::White => {
                let n: u8 = self.white[sq.0 as usize];
                self.white[sq.0 as usize] = n + 1;
            },
        }
    }
}

proof fn lemma_attackers_bound(board: Seq<Piece>, color: Color, to: Square, n: nat)
    ensures
        attackers_below(board, color, to, n) <= n,
    decreases n,
{
    if n > 0 {
        lemma_attackers_bound(board, color, to, (n - 1) as nat);
    }
}

/// The attackers of every square: a king attacks like any piece, pins do not count, a piece does
/// not attack its own square, and a slider attacks up to the first occupied square.
pub fn e4_attacker_counts(board: &ShogiBoard) -> (r: E4AttackCounts)
    ensures
        forall|c: Color, s: Square|
            s.valid() ==> #[trigger] r.count(c, s) == attackers(board.board@, c, s),
{
    let occ = Occupied::from_board(board);
    let mut counts = E4AttackCounts { black: [0;81], white: [0;81] };
    let mut sq: usize = 0;
    while sq < SQUARES
        invariant
            sq <= 81,
            occ.squares() == occupied_squares(board.board@),
            forall|c: Color, s: Square|
                s.valid() ==> #[trigger] counts.count(c, s) == attackers_below(
                    board.board@,
                    c,
                    s,
                    sq as nat,
                ),
        decreases 81 - sq,
    {
        let from = Square(sq as u8);
        let piece = board.piece_on(from);
        if piece.is_some() {
            let ghost base = counts;
            let list = attacks_with_king(piece.piece_type, piece.color, from, &occ);
            let mut i: usize = 0;
            proof {
                assert(forall|s: Square| !list@.take(0).contains(s));
            }
            while i < list.len()
                invariant
                    i <= list@.len(),
                    sq < 81,
                    from == Square(sq as u8),
                    piece == board.board@[sq as int],
                    list@.no_duplicates(),
                    forall|to: Square| #[trigger]
                        list@.contains(to) <==> attacks(
                            occupied_squares(board.board@),
                            piece,
                            from,
                            to,
                        ),
                    forall|c: Color, s: Square|
                        s.valid() ==> #[trigger] base.count(c, s) == attackers_below(
                            board.board@,
                            c,
                            s,
                            sq as nat,
                        ),
                    forall|c: Color, s: Square|
                        s.valid() ==> #[trigger] counts.count(c, s) == base.count(c, s) + if c
                            == piece.color && list@.take(i as int).contains(s) {
                            1int
                        } else {
                            0int
                        },
                decreases list@.len() - i,
            {
                let to = list[i];
                let ghost before = counts;
                let ghost done = list@.take(i as int);
                let ghost more = list@.take(i + 1);
                proof {
                    assert(list@.contains(to));
                    assert(attacks(occupied_squares(board.board@), piece, from, to));
                    assert(to.valid());
                    if done.contains(to) {
                        let j = choose|j: int| 0 <= j < done.len() && done[j] == to;
                        assert(list@[j] == list@[i as int]);
                    }
                    lemma_attackers_bound(board.board@, piece.color, to, sq as nat);
                }
                counts.add_one(piece.color, to);
                proof {
                    assert forall|s: Square| #[trigger] more.contains(s) <==> (done.contains(s) || s
                        == to) by {
                        if done.contains(s) {
                            let j = choose|j: int| 0 <= j < done.len() && done[j] == s;
                            assert(more[j] == s);
                        }
                        if s == to {
                            assert(more[i as int] == to);
                        }
                        if more.contains(s) {
                            let j = choose|j: int| 0 <= j < more.len() && more[j] == s;
                            if j < i {
                                assert(done[j] == s);
                            }
                        }
                    }
                    assert forall|c: Color, s: Square| s.valid() implies #[trigger] counts.count(
                        c,
                        s,
                    ) == base.count(c, s) + if c == piece.color && more.contains(s) {
                        1int
                    } else {
                        0int
                    } by {
                        assert(before.count(c, s) == base.count(c, s) + if c == piece.color
                            && done.contains(s) {
                            1int
                        } else {
                            0int
                        });
                    }
                }
                i += 1;
            }
            assert(list@.take(i as int) =~= list@);
            assert forall|c: Color, s: Square| s.valid() implies #[trigger] counts.count(c, s)
                == attackers_below(board.board@, c, s, (sq + 1) as nat) by {
                assert(list@.contains(s) <==> attacks(
                    occupied_squares(board.board@),
                    piece,
                    from,
                    s,
                ));
            }
        }
        sq += 1;
    }
    counts
}

/// What is known of a side's king before its features are numbered.
#[derive(Clone, Copy, Debug, PartialEq, Eq, Structural)]
pub struct PerspectiveCtx {
    /// Bucket of the king's square.
    pub king_bucket: usize,
    /// Whether the board is mirrored for this king.
    pub hm_mirror: bool,
}

/// One input of a side: the number of a piece, and its side and square where it is on the board.
pub struct E4Input {
    pub bp: int,
    pub at: Option<(Color, Square)>,
}

/// The inputs of the board pieces other than kings on the first `n` squares, in square order.
pub open spec fn board_inputs(
    layout: BonaPieceLayout,
    board: ShogiBoard,
    perspective: Color,
    n: nat,
) -> Seq<E4Input>
    decreases n,
{
    if n == 0 {
        seq![]
    } else {
        let before = board_inputs(layout, board, perspective, (n - 1) as nat);
        let sq = Square((n - 1) as u8);
        let piece = board.board@[n - 1];
        if piece.piece_type == PieceType::Empty || piece.piece_type == PieceType::King {
            before
        } else {
            before.push(
                E4Input {
                    bp: layout.on_square(piece, sq, perspective),
                    at: Some((piece.color, sq)),
                },
            )
        }
    }
}

/// The inputs of the first `n` pieces of a kind in hand.
pub open spec fn kind_inputs(
    layout: BonaPieceLayout,
    perspective: Color,
    owner: Color,
    pt: PieceType,
    n: nat,
) -> Seq<E4Input>
    decreases n,
{
    if n == 0 {
        seq![]
    } else {
        let before = kind_inputs(layout, perspective, owner, pt, (n - 1) as nat);
        let bp = layout.in_hand(perspective, owner, pt, n as int);
        if bp == 0 {
            before
        } else {
            before.push(E4Input { bp, at: None })
        }
    }
}

/// The inputs of the first `k` kinds of pieces in a hand.
pub open spec fn hand_inputs(
    layout: BonaPieceLayout,
    board: ShogiBoard,
    perspective: Color,
    owner: Color,
    k: nat,
) -> Seq<E4Input>
    decreases k,
{
    if k == 0 {
        seq![]
    } else {
        let pt = HAND_PIECE_TYPES@[k - 1];
        hand_inputs(layout, board, perspective, owner, (k - 1) as nat) + kind_inputs(
            layout,
            perspective,
            owner,
            pt,
            board.hand_of(owner).holds(pt) as nat,
        )
    }
}

/// The inputs of a position as a side sees it: the board pieces in square order, the own king, the
/// other king, then what black and what white hold in hand. A position without both kings has
/// none.
pub open spec fn e4_inputs(
    layout: BonaPieceLayout,
    board: ShogiBoard,
    perspective: Color,
) -> Seq<E4Input> {
    let king = board.king_of(perspective);
    let other = board.king_of(perspective.other());
    if !king.valid() || !other.valid() {
        seq![]
    } else {
        board_inputs(layout, board, perspective, 81) + seq![
            E4Input {
                bp: king_number(seen_index(king, perspective), true),
                at: Some((perspective, king)),
            },
            E4Input {
                bp: king_number(seen_index(other, perspective), false),
                at: Some((perspective.other(), other)),
            },
        ] + hand_inputs(layout, board, perspective, Color::Black, 7) + hand_inputs(
            layout,
            board,
            perspective,
            Color::White,
            7,
        )
    }
}

/// The base feature of an input.
pub open spec fn input_base(ctx: PerspectiveCtx, input: E4Input) -> int {
    base_feature(ctx.king_bucket as int, packed(input.bp, ctx.hm_mirror))
}

/// The attack bucket of an input: by the attackers and defenders of its square.
pub open spec fn input_bucket(
    ctx: PerspectiveCtx,
    config: E4Config,
    board: Seq<Piece>,
    input: E4Input,
) -> int {
    if is_bucketed(packed(input.bp, ctx.hm_mirror), config.king_bucketed) {
        let (color, sq) = input.at->Some_0;
        bucket_for(
            attackers(board, color.other(), sq) as int,
            attackers(board, color, sq) as int,
            config.nb as int,
        )
    } else {
        0
    }
}

/// The features of a position as a side sees it.
pub open spec fn e4_features(
    layout: BonaPieceLayout,
    ctx: PerspectiveCtx,
    config: E4Config,
    board: ShogiBoard,
    perspective: Color,
) -> Seq<usize> {
    e4_inputs(layout, board, perspective).map_values(
        |input: E4Input|
            (input_base(ctx, input) * config.nb + input_bucket(
                ctx,
                config,
                board.board@,
                input,
            )) as usize,
    )
}

/// The features of the same position without attack buckets.
pub open spec fn base_features(
    layout: BonaPieceLayout,
    ctx: PerspectiveCtx,
    board: ShogiBoard,
    perspective: Color,
) -> Seq<usize> {
    e4_inputs(layout, board, perspective).map_values(
        |input: E4Input| input_base(ctx, input) as usize,
    )
}

/// An input that can be numbered: a board piece has its square.
pub open spec fn input_ok(input: E4Input) -> bool {
    &&& 0 <= input.bp < E_KING + 81
    &&& input.bp < FE_HAND_END || (input.at is Some && input.at->Some_0.1.valid())
}

/// The feature of one input.
fn emit_e4_index(
    ctx: &PerspectiveCtx,
    counts: &E4AttackCounts,
    config: E4Config,
    bp: usize,
    at: Option<(Color, Square)>,
    Ghost(board): Ghost<Seq<Piece>>,
) -> (r: usize)
    requires
        config.valid(),
        ctx.king_bucket < KING_BUCKETS,
        input_ok(E4Input { bp: bp as int, at }),
        forall|c: Color, s: Square|
            s.valid() ==> #[trigger] counts.count(c, s) == attackers(board, c, s),
    ensures
        r == input_base(*ctx, E4Input { bp: bp as int, at }) * config.nb + input_bucket(
            *ctx,
            config,
            board,
            E4Input { bp: bp as int, at },
        ),
        r < 45 * 1629 * config.nb,
{
    let packed_bp: usize = pack_bonapiece(bp, ctx.hm_mirror);
    let base: usize = halfka_index(ctx.king_bucket, packed_bp);
    let bucket: usize = if packed_is_bucketed(packed_bp, config.king_bucketed) {
        match at {
            Some((color, sq)) => e4_bucket(
                counts.get(color.opponent(), sq),
                counts.get(color, sq),
                config.nb,
            ),
            None => 0,
        }
    } else {
        0
    };
    e4_index(base, bucket, config.nb)
}

/// Appends the features of a position as a side sees it. The side is independent of the side to
/// move.
pub fn map_e4_features_board(
    layout: &BonaPieceLayout,
    ctx: &PerspectiveCtx,
    board: &ShogiBoard,
    config: E4Config,
    perspective: Color,
    out: &mut Vec<usize>,
)
    requires
        layout.wf(),
        config.valid(),
        ctx.king_bucket < KING_BUCKETS,
    ensures
        final(out)@ == old(out)@ + e4_features(*layout, *ctx, config, *board, perspective),
{
    let ghost feature = |input: E4Input|
        (input_base(*ctx, input) * config.nb + input_bucket(
            *ctx,
            config,
            board.board@,
            input,
        )) as usize;
    let ghost start = out@;
    let king_sq = board.king_square(perspective);
    let enemy_king_sq = board.king_square(perspective.opponent());
    if !king_sq.is_valid() || !enemy_king_sq.is_valid() {
        assert(out@ =~= old(out)@ + e4_features(*layout, *ctx, config, *board, perspective));
        return;
    }
    let counts = e4_attacker_counts(board);
    let mut sq: usize = 0;
    assert(out@ =~= start + board_inputs(*layout, *board, perspective, 0).map_values(feature));
    while sq < SQUARES
        invariant
            sq <= 81,
            layout.wf(),
            config.valid(),
            ctx.king_bucket < KING_BUCKETS,
            feature == (|input: E4Input|
                (input_base(*ctx, input) * config.nb + input_bucket(
                    *ctx,
                    config,
                    board.board@,
                    input,
                )) as usize),
            forall|c: Color, s: Square|
                s.valid() ==> #[trigger] counts.count(c, s) == attackers(board.board@, c, s),
            out@ == start + board_inputs(*layout, *board, perspective, sq as nat).map_values(
                feature,
            ),
        decreases 81 - sq,
    {
        let square = Square(sq as u8);
        let piece = board.piece_on(square);
        if piece.is_some() && piece.piece_type != PieceType::King {
            let bp: usize = layout.from_piece_square(piece, square, perspective);
            let at = Some((piece.color, square));
            let index: usize = emit_e4_index(ctx, &counts, config, bp, at, Ghost(board.board@));
            out.push(index);
            proof {
                let before = board_inputs(*layout, *board, perspective, sq as nat);
                lemma_map_push(before, E4Input { bp: bp as int, at }, feature);
                assert(out@ =~= start + before.push(
                    E4Input { bp: bp as int, at },
                ).map_values(feature));
            }
        }
        sq += 1;
    }
    let friend_king: usize = king_bonapiece(perspective_sq_index(king_sq, perspective), true);
    let friend_at = Some((perspective, king_sq));
    let index: usize = emit_e4_index(
        ctx,
        &counts,
        config,
        friend_king,
        friend_at,
        Ghost(board.board@),
    );
    out.push(index);
    let enemy_king: usize = king_bonapiece(
        perspective_sq_index(enemy_king_sq, perspective),
        false,
    );
    let enemy_at = Some((perspective.opponent(), enemy_king_sq));
    let index: usize = emit_e4_index(
        ctx,
        &counts,
        config,
        enemy_king,
        enemy_at,
        Ghost(board.board@),
    );
    out.push(index);
    let ghost placed = board_inputs(*layout, *board, perspective, 81) + seq![
        E4Input { bp: friend_king as int, at: friend_at },
        E4Input { bp: enemy_king as int, at: enemy_at },
    ];
    proof {
        lemma_map_add(
            board_inputs(*layout, *board, perspective, 81),
            seq![
                E4Input { bp: friend_king as int, at: friend_at },
                E4Input { bp: enemy_king as int, at: enemy_at },
            ],
            feature,
        );
        assert(out@ =~= start + placed.map_values(feature));
    }
    push_hand(layout, ctx, &counts, board, config, perspective, Color::Black, out);
    push_hand(layout, ctx, &counts, board, config, perspective, Color::White, out);
    proof {
        let black = hand_inputs(*layout, *board, perspective, Color::Black, 7);
        let white = hand_inputs(*layout, *board, perspective, Color::White, 7);
        lemma_map_add(placed, black, feature);
        lemma_map_add(placed + black, white, feature);
        assert(out@ =~= start + (placed + black + white).map_values(feature));
    }
}

/// Appends the features of the pieces that `owner` holds in hand.
fn push_hand(
    layout: &BonaPieceLayout,
    ctx: &PerspectiveCtx,
    counts: &E4AttackCounts,
    board: &ShogiBoard,
    config: E4Config,
    perspective: Color,
    owner: Color,
    out: &mut Vec<usize>,
)
    requires
        layout.wf(),
        config.valid(),
        ctx.king_bucket < KING_BUCKETS,
        forall|c: Color, s: Square|
            s.valid() ==> #[trigger] counts.count(c, s) == attackers(board.board@, c, s),
    ensures
        final(out)@ == old(out)@ + hand_inputs(
            *layout,
            *board,
            perspective,
            owner,
            7,
        ).map_values(
            |input: E4Input|
                (input_base(*ctx, input) * config.nb + input_bucket(
                    *ctx,
                    config,
                    board.board@,
                    input,
                )) as usize,
        ),
{
    let ghost feature = |input: E4Input|
        (input_base(*ctx, input) * config.nb + input_bucket(
            *ctx,
            config,
            board.board@,
            input,
        )) as usize;
    let ghost start = out@;
    let hand = board.hand(owner);
    let mut k: usize = 0;
    assert(out@ =~= start + hand_inputs(*layout, *board, perspective, owner, 0).map_values(
        feature,
    ));
    while k < 7
        invariant
            k <= 7,
            layout.wf(),
            config.valid(),
            ctx.king_bucket < KING_BUCKETS,
            hand == board.hand_of(owner),
            feature == (|input: E4Input|
                (input_base(*ctx, input) * config.nb + input_bucket(
                    *ctx,
                    config,
                    board.board@,
                    input,
                )) as usize),
            forall|c: Color, s: Square|
                s.valid() ==> #[trigger] counts.count(c, s) == attackers(board.board@, c, s),
            out@ == start + hand_inputs(
                *layout,
                *board,
                perspective,
                owner,
                k as nat,
            ).map_values(feature),
        decreases 7 - k,
    {
        let pt = HAND_PIECE_TYPES[k];
        let count: u8 = hand.count(pt);
        let ghost earlier = out@;
        let mut i: u8 = 0;
        assert(out@ =~= earlier + kind_inputs(*layout, perspective, owner, pt, 0).map_values(
            feature,
        ));
        while i < count
            invariant
                i <= count,
                layout.wf(),
                config.valid(),
                ctx.king_bucket < KING_BUCKETS,
                feature == (|input: E4Input|
                    (input_base(*ctx, input) * config.nb + input_bucket(
                        *ctx,
                        config,
                        board.board@,
                        input,
                    )) as usize),
                forall|c: Color, s: Square|
                    s.valid() ==> #[trigger] counts.count(c, s) == attackers(board.board@, c, s),
                out@ == earlier + kind_inputs(
                    *layout,
                    perspective,
                    owner,
                    pt,
                    i as nat,
                ).map_values(feature),
            decreases count - i,
        {
            let bp: usize = layout.from_hand_piece(perspective, owner, pt, i + 1);
            if bp != ZERO_PIECE {
                let index: usize = emit_e4_index(
                    ctx,
                    counts,
                    config,
                    bp,
                    None,
                    Ghost(board.board@),
                );
                out.push(index);
                proof {
                    let before = kind_inputs(*layout, perspective, owner, pt, i as nat);
                    let input = E4Input { bp: bp as int, at: None };
                    lemma_map_push(before, input, feature);
                    assert(out@ =~= earlier + before.push(input).map_values(feature));
                }
            }
            i += 1;
        }
        proof {
            let before = hand_inputs(*layout, *board, perspective, owner, k as nat);
            let kind = kind_inputs(*layout, perspective, owner, pt, count as nat);
            lemma_map_add(before, kind, feature);
            assert(out@ =~= start + (before + kind).map_values(feature));
        }
        k += 1;
    }
}

proof fn lemma_map_push(s: Seq<E4Input>, input: E4Input, f: spec_fn(E4Input) -> usize)
    ensures
        s.push(input).map_values(f) == s.map_values(f).push(f(input)),
{
    assert(s.push(input).map_values(f) =~= s.map_values(f).push(f(input)));
}

proof fn lemma_map_add(a: Seq<E4Input>, b: Seq<E4Input>, f: spec_fn(E4Input) -> usize)
    ensures
        (a + b).map_values(f) == a.map_values(f) + b.map_values(f),
{
    assert((a + b).map_values(f) =~= a.map_values(f) + b.map_values(f));
}

/// The features of a position as a side sees it.
pub fn collect_e4_features_board(
    layout: &BonaPieceLayout,
    ctx: &PerspectiveCtx,
    board: &ShogiBoard,
    config: E4Config,
    perspective: Color,
) -> (r: Vec<usize>)
    requires
        layout.wf(),
        config.valid(),
        ctx.king_bucket < KING_BUCKETS,
    ensures
        r@ == e4_features(*layout, *ctx, config, *board, perspective),
{
    let mut out: Vec<usize> = Vec::new();
    map_e4_features_board(layout, ctx, board, config, perspective, &mut out);
    assert(out@ =~= e4_features(*layout, *ctx, config, *board, perspective));
    out
}

/// Inputs that can all be numbered.
spec fn inputs_ok(s: Seq<E4Input>) -> bool {
    forall|k: int| 0 <= k < s.len() ==> input_ok(#[trigger] s[k])
}

proof fn lemma_kind_inputs_ok(
    layout: BonaPieceLayout,
    perspective: Color,
    owner: Color,
    pt: PieceType,
    n: nat,
)
    requires
        layout.wf(),
    ensures
        inputs_ok(kind_inputs(layout, perspective, owner, pt, n)),
    decreases n,
{
    if n > 0 {
        lemma_kind_inputs_ok(layout, perspective, owner, pt, (n - 1) as nat);
        if let Some(slot) = hand_slot(pt) {
            let at = 2 * slot + if owner == perspective {
                1int
            } else {
                0int
            };
            assert(0 < layout.hand_base@[at] && layout.hand_base@[at] + hand_limit(at / 2) <= 90);
        }
    }
}

proof fn lemma_hand_inputs_ok(
    layout: BonaPieceLayout,
    board: ShogiBoard,
    perspective: Color,
    owner: Color,
    n: nat,
)
    requires
        layout.wf(),
        n <= 7,
    ensures
        inputs_ok(hand_inputs(layout, board, perspective, owner, n)),
    decreases n,
{
    if n > 0 {
        let pt = HAND_PIECE_TYPES@[n - 1];
        lemma_hand_inputs_ok(layout, board, perspective, owner, (n - 1) as nat);
        lemma_kind_inputs_ok(
            layout,
            perspective,
            owner,
            pt,
            board.hand_of(owner).holds(pt) as nat,
        );
    }
}

proof fn lemma_board_inputs_ok(
    layout: BonaPieceLayout,
    board: ShogiBoard,
    perspective: Color,
    n: nat,
)
    requires
        layout.wf(),
        n <= 81,
    ensures
        inputs_ok(board_inputs(layout, board, perspective, n)),
    decreases n,
{
    if n > 0 {
        lemma_board_inputs_ok(layout, board, perspective, (n - 1) as nat);
        let piece = board.board@[n - 1];
        if let Some(plane) = plane_of(piece.piece_type) {
            let at = 2 * plane + if piece.color == perspective {
                1int
            } else {
                0int
            };
            assert(90 <= layout.piece_base@[at] && layout.piece_base@[at] + 81 <= 1548);
        }
    }
}

/// Dividing every feature by the number of buckets gives back the features without buckets, in the
/// same order, and the remainder is the bucket. Every feature is within the dimensions.
pub proof fn features_divide_back_to_base(
    layout: BonaPieceLayout,
    ctx: PerspectiveCtx,
    config: E4Config,
    board: ShogiBoard,
    perspective: Color,
)
    requires
        layout.wf(),
        config.valid(),
        ctx.king_bucket < KING_BUCKETS,
    ensures
        ({
            let e4 = e4_features(layout, ctx, config, board, perspective);
            let base = base_features(layout, ctx, board, perspective);
            &&& e4.len() == base.len()
            &&& forall|k: int|
                0 <= k < e4.len() ==> {
                    &&& #[trigger] e4[k] / config.nb == base[k]
                    &&& e4[k] % config.nb == input_bucket(
                        ctx,
                        config,
                        board.board@,
                        e4_inputs(layout, board, perspective)[k],
                    )
                    &&& e4[k] < 45 * 1629 * config.nb
                }
        }),
{
    let e4 = e4_features(layout, ctx, config, board, perspective);
    let base = base_features(layout, ctx, board, perspective);
    let inputs = e4_inputs(layout, board, perspective);
    lemma_board_inputs_ok(layout, board, perspective, 81);
    lemma_hand_inputs_ok(layout, board, perspective, Color::Black, 7);
    lemma_hand_inputs_ok(layout, board, perspective, Color::White, 7);
    assert forall|k: int| 0 <= k < e4.len() implies {
        &&& #[trigger] e4[k] / config.nb == base[k]
        &&& e4[k] % config.nb == input_bucket(ctx, config, board.board@, inputs[k])
        &&& e4[k] < 45 * 1629 * config.nb
    } by {
        let input = inputs[k];
        assert(input_ok(input));
        let b = input_base(ctx, input);
        let bucket = input_bucket(ctx, config, board.board@, input);
        let p = packed(input.bp, ctx.hm_mirror);
        assert(0 <= p < 1629);
        assert(0 <= b < 45 * 1629);
        assert(0 <= bucket < config.nb);
        if config.nb == 4 {
            assert((b * 4 + bucket) / 4 == b && (b * 4 + bucket) % 4 == bucket);
        } else {
            assert((b * 9 + bucket) / 9 == b && (b * 9 + bucket) % 9 == bucket);
        }
    }
}

proof fn lemma_board_inputs_ignore_turn(
    layout: BonaPieceLayout,
    board: ShogiBoard,
    turned: ShogiBoard,
    perspective: Color,
    n: nat,
)
    requires
        turned.board == board.board,
    ensures
        board_inputs(layout, turned, perspective, n) == board_inputs(layout, board, perspective, n),
    decreases n,
{
    if n > 0 {
        lemma_board_inputs_ignore_turn(layout, board, turned, perspective, (n - 1) as nat);
    }
}

proof fn lemma_hand_inputs_ignore_turn(
    layout: BonaPieceLayout,
    board: ShogiBoard,
    turned: ShogiBoard,
    perspective: Color,
    owner: Color,
    k: nat,
)
    requires
        turned.hand_of(owner) == board.hand_of(owner),
    ensures
        hand_inputs(layout, turned, perspective, owner, k) == hand_inputs(
            layout,
            board,
            perspective,
            owner,
            k,
        ),
    decreases k,
{
    if k > 0 {
        lemma_hand_inputs_ignore_turn(layout, board, turned, perspective, owner, (k - 1) as nat);
    }
}

/// The features of a side do not depend on whose turn it is, and without both kings there are none.
pub proof fn features_ignore_the_side_to_move(
    layout: BonaPieceLayout,
    ctx: PerspectiveCtx,
    config: E4Config,
    board: ShogiBoard,
    perspective: Color,
    side_to_move: Color,
)
    ensures
        e4_features(
            layout,
            ctx,
            config,
            ShogiBoard { side_to_move, ..board },
            perspective,
        ) == e4_features(layout, ctx, config, board, perspective),
        !board.black_king_sq.valid() || !board.white_king_sq.valid() ==> e4_features(
            layout,
            ctx,
            config,
            board,
            perspective,
        ).len() == 0,
{
    let turned = ShogiBoard { side_to_move, ..board };
    lemma_board_inputs_ignore_turn(layout, board, turned, perspective, 81);
    lemma_hand_inputs_ignore_turn(layout, board, turned, perspective, Color::Black, 7);
    lemma_hand_inputs_ignore_turn(layout, board, turned, perspective, Color::White, 7);
    assert(e4_inputs(layout, turned, perspective) =~= e4_inputs(layout, board, perspective));
    assert(e4_features(layout, ctx, config, turned, perspective) =~= e4_features(
        layout,
        ctx,
        config,
        board,
        perspective,
    ));
}

proof fn lemma_attackers_counted(board: Seq<Piece>, color: Color, to: Square, n: nat)
    ensures
        attackers_below(board, color, to, n) == those_below(
            n as int,
            |k: int|
                board[k].piece_type != PieceType::Empty && board[k].color == color && attacks(
                    occupied_squares(board),
                    board[k],
                    Square(k as u8),
                    to,
                ),
        ).len(),
    decreases n,
{
    let p = |k: int|
        board[k].piece_type != PieceType::Empty && board[k].color == color && attacks(
            occupied_squares(board),
            board[k],
            Square(k as u8),
            to,
        );
    lemma_those_below(n as int, p);
    if n > 0 {
        lemma_attackers_counted(board, color, to, (n - 1) as nat);
    }
}

proof fn lemma_board_inputs_placed(
    layout: BonaPieceLayout,
    board: ShogiBoard,
    perspective: Color,
    n: nat,
)
    requires
        n <= 81,
    ensures
        ({
            let p = |k: int|
                board.board@[k].piece_type != PieceType::Empty && board.board@[k].piece_type
                    != PieceType::King;
            let inputs = board_inputs(layout, board, perspective, n);
            &&& inputs.len() == those_below(n as int, p).len()
            &&& forall|s: int|
                0 <= s < n && p(s) ==> {
                    let at = (#[trigger] those_below(s, p)).len() as int;
                    &&& at < inputs.len()
                    &&& inputs[at] == (E4Input {
                        bp: layout.on_square(board.board@[s], Square(s as u8), perspective),
                        at: Some((board.board@[s].color, Square(s as u8))),
                    })
                }
        }),
    decreases n,
{
    let p = |k: int|
        board.board@[k].piece_type != PieceType::Empty && board.board@[k].piece_type
            != PieceType::King;
    lemma_those_below(n as int, p);
    if n > 0 {
        lemma_board_inputs_placed(layout, board, perspective, (n - 1) as nat);
        let before = board_inputs(layout, board, perspective, (n - 1) as nat);
        let inputs = board_inputs(layout, board, perspective, n);
        assert forall|s: int| 0 <= s < n && p(s) implies {
            let at = (#[trigger] those_below(s, p)).len() as int;
            &&& at < inputs.len()
            &&& inputs[at] == (E4Input {
                bp: layout.on_square(board.board@[s], Square(s as u8), perspective),
                at: Some((board.board@[s].color, Square(s as u8))),
            })
        } by {
            if s < n - 1 {
                let at = those_below(s, p).len() as int;
                assert(inputs[at] == before[at]);
            }
        }
    }
}

proof fn lemma_bucket_tells(f: int, nb: int, attacked: int, defended: int)
    requires
        nb == 4 || nb == 9,
        attacked >= 0,
        defended >= 0,
        f % nb == bucket_for(attacked, defended, nb),
    ensures
        nb == 4 ==> {
            &&& f % nb % 2 == 1 <==> attacked >= 1
            &&& f % nb >= 2 <==> defended >= 1
        },
        nb == 9 ==> {
            &&& f % nb % 3 == 0 <==> attacked == 0
            &&& f % nb % 3 == 2 <==> attacked >= 2
            &&& f % nb < 3 <==> defended == 0
            &&& f % nb >= 6 <==> defended >= 2
        },
{
}

/// The input of a board piece other than a king, and its bucket.
proof fn lemma_placed_input(
    layout: BonaPieceLayout,
    ctx: PerspectiveCtx,
    config: E4Config,
    board: ShogiBoard,
    perspective: Color,
    sq: Square,
    at: int,
)
    requires
        layout.wf(),
        config.valid(),
        board.black_king_sq.valid(),
        board.white_king_sq.valid(),
        sq.valid(),
        board.board@[sq.0 as int].piece_type != PieceType::Empty,
        board.board@[sq.0 as int].piece_type != PieceType::King,
        at == those_below(
            sq.0 as int,
            |k: int|
                board.board@[k].piece_type != PieceType::Empty && board.board@[k].piece_type
                    != PieceType::King,
        ).len(),
    ensures
        ({
            let inputs = e4_inputs(layout, board, perspective);
            let piece = board.board@[sq.0 as int];
            &&& 0 <= at < inputs.len()
            &&& inputs[at].bp == layout.on_square(piece, sq, perspective)
            &&& input_bucket(ctx, config, board.board@, inputs[at]) == bucket_for(
                attackers(board.board@, piece.color.other(), sq) as int,
                attackers(board.board@, piece.color, sq) as int,
                config.nb as int,
            )
        }),
{
    let piece = board.board@[sq.0 as int];
    lemma_board_inputs_placed(layout, board, perspective, 81);
    let p = |k: int|
        board.board@[k].piece_type != PieceType::Empty && board.board@[k].piece_type
            != PieceType::King;
    assert(p(sq.0 as int));
    assert(those_below(sq.0 as int, p).len() == at);
    let inputs = e4_inputs(layout, board, perspective);
    assert(inputs[at] == board_inputs(layout, board, perspective, 81)[at]);
    board_pieces_are_numbered_by_square(layout, piece.color, piece.piece_type, sq, perspective);
    if let Some(plane) = plane_of(piece.piece_type) {
        let k = 2 * plane + if piece.color == perspective {
            1int
        } else {
            0int
        };
        assert(90 <= layout.piece_base@[k] && layout.piece_base@[k] + 81 <= 1548);
    }
}

/// The feature of a board piece other than a king: it stands where the squares' order puts it,
/// dividing by the number of buckets gives the piece's own feature, and the remainder tells who
/// attacks the square. With two by two buckets it is odd exactly where some piece of the other
/// side does, and at least two exactly where some piece of the own side does; with three by three
/// both are counted up to two.
pub proof fn remainders_tell_attackers_and_defenders(
    layout: BonaPieceLayout,
    ctx: PerspectiveCtx,
    config: E4Config,
    board: ShogiBoard,
    perspective: Color,
    sq: Square,
)
    requires
        layout.wf(),
        config.valid(),
        ctx.king_bucket < 45,
        board.black_king_sq.valid(),
        board.white_king_sq.valid(),
        sq.valid(),
        board.board@[sq.0 as int].piece_type != PieceType::Empty,
        board.board@[sq.0 as int].piece_type != PieceType::King,
    ensures
        ({
            let squares = board.board@;
            let piece = squares[sq.0 as int];
            let e4 = e4_features(layout, ctx, config, board, perspective);
            let at = those_below(
                sq.0 as int,
                |k: int|
                    squares[k].piece_type != PieceType::Empty && squares[k].piece_type
                        != PieceType::King,
            ).len() as int;
            let hitting = |side: Color|
                those_below(
                    81,
                    |k: int|
                        squares[k].piece_type != PieceType::Empty && squares[k].color == side
                            && attacks(occupied_squares(squares), squares[k], Square(k as u8), sq),
                ).len();
            let own = hitting(piece.color);
            let foes = hitting(
                if piece.color == Color::Black {
                    Color::White
                } else {
                    Color::Black
                },
            );
            let base = ctx.king_bucket * 1629 + packed(
                layout.on_square(piece, sq, perspective),
                ctx.hm_mirror,
            );
            let f = e4[at] as int;
            &&& at < e4.len()
            &&& config.nb == 4 ==> {
                &&& f / 4 == base
                &&& f % 4 % 2 == 1 <==> foes >= 1
                &&& f % 4 >= 2 <==> own >= 1
            }
            &&& config.nb == 9 ==> {
                &&& f / 9 == base
                &&& f % 9 % 3 == 0 <==> foes == 0
                &&& f % 9 % 3 == 2 <==> foes >= 2
                &&& f % 9 < 3 <==> own == 0
                &&& f % 9 >= 6 <==> own >= 2
            }
        }),
{
    let squares = board.board@;
    let piece = squares[sq.0 as int];
    let at = those_below(
        sq.0 as int,
        |k: int|
            squares[k].piece_type != PieceType::Empty && squares[k].piece_type != PieceType::King,
    ).len() as int;
    lemma_placed_input(layout, ctx, config, board, perspective, sq, at);
    features_divide_back_to_base(layout, ctx, config, board, perspective);
    let e4 = e4_features(layout, ctx, config, board, perspective);
    assert(e4[at] / config.nb == base_features(layout, ctx, board, perspective)[at]);
    lemma_attackers_counted(squares, Color::Black, sq, 81);
    lemma_attackers_counted(squares, Color::White, sq, 81);
    lemma_bucket_tells(
        e4[at] as int,
        config.nb as int,
        attackers(squares, piece.color.other(), sq) as int,
        attackers(squares, piece.color, sq) as int,
    );
    lemma_base_bound(layout, ctx, board, perspective, at);
}

proof fn lemma_base_bound(
    layout: BonaPieceLayout,
    ctx: PerspectiveCtx,
    board: ShogiBoard,
    perspective: Color,
    at: int,
)
    requires
        layout.wf(),
        ctx.king_bucket < 45,
        0 <= at < e4_inputs(layout, board, perspective).len(),
    ensures
        base_features(layout, ctx, board, perspective)[at] == ctx.king_bucket * 1629 + packed(
            e4_inputs(layout, board, perspective)[at].bp,
            ctx.hm_mirror,
        ),
{
    lemma_board_inputs_ok(layout, board, perspective, 81);
    lemma_hand_inputs_ok(layout, board, perspective, Color::Black, 7);
    lemma_hand_inputs_ok(layout, board, perspective, Color::White, 7);
    let input = e4_inputs(layout, board, perspective)[at];
    assert(input_ok(input));
    let p = packed(input.bp, ctx.hm_mirror);
    assert(0 <= p < 1629);
}

/// The features of a position with both kings: one for each board piece other than a king, one for
/// each king, and one for each piece in the two hands that has a number.
pub proof fn every_piece_has_one_feature(
    layout: BonaPieceLayout,
    ctx: PerspectiveCtx,
    config: E4Config,
    board: ShogiBoard,
    perspective: Color,
)
    requires
        layout.wf(),
        board.black_king_sq.valid(),
        board.white_king_sq.valid(),
    ensures
        e4_features(layout, ctx, config, board, perspective).len() == those_below(
            81,
            |k: int|
                board.board@[k].piece_type != PieceType::Empty && board.board@[k].piece_type
                    != PieceType::King,
        ).len() + 2 + numbered_in_hand(board.black_hand) + numbered_in_hand(board.white_hand),
{
    lemma_board_inputs_placed(layout, board, perspective, 81);
    lemma_hand_inputs_counted(layout, board, perspective, Color::Black);
    lemma_hand_inputs_counted(layout, board, perspective, Color::White);
}

/// The features of the kings follow those of the other board pieces, the own king's first. Both
/// are numbered in the same plane by the square that the side sees, mirrored where it mirrors.
/// They fall into bucket zero; where kings are bucketed, the remainder tells who attacks the king
/// and who defends it.
pub proof fn kings_follow_the_board_pieces(
    layout: BonaPieceLayout,
    ctx: PerspectiveCtx,
    config: E4Config,
    board: ShogiBoard,
    perspective: Color,
    color: Color,
)
    requires
        layout.wf(),
        config.valid(),
        ctx.king_bucket < 45,
        board.black_king_sq.valid(),
        board.white_king_sq.valid(),
    ensures
        ({
            let squares = board.board@;
            let at = those_below(
                81,
                |k: int|
                    squares[k].piece_type != PieceType::Empty && squares[k].piece_type
                        != PieceType::King,
            ).len() + if color == perspective {
                0int
            } else {
                1int
            };
            let sq = if color == Color::Black {
                board.black_king_sq
            } else {
                board.white_king_sq
            };
            let hitting = |side: Color|
                those_below(
                    81,
                    |k: int|
                        squares[k].piece_type != PieceType::Empty && squares[k].color == side
                            && attacks(occupied_squares(squares), squares[k], Square(k as u8), sq),
                ).len();
            let own = hitting(color);
            let foes = hitting(
                if color == Color::Black {
                    Color::White
                } else {
                    Color::Black
                },
            );
            let seen = if perspective == Color::Black {
                sq.0 as int
            } else {
                80 - sq.0
            };
            let file = if ctx.hm_mirror {
                8 - seen / 9
            } else {
                seen / 9
            };
            let f = e4_features(layout, ctx, config, board, perspective)[at] as int;
            let rest = f % (config.nb as int);
            &&& f / (config.nb as int) == ctx.king_bucket * 1629 + 1548 + file * 9 + seen % 9
            &&& !config.king_bucketed ==> rest == 0
            &&& config.king_bucketed && config.nb == 4 ==> {
                &&& rest % 2 == 1 <==> foes >= 1
                &&& rest >= 2 <==> own >= 1
            }
            &&& config.king_bucketed && config.nb == 9 ==> {
                &&& rest % 3 == 0 <==> foes == 0
                &&& rest % 3 == 2 <==> foes >= 2
                &&& rest < 3 <==> own == 0
                &&& rest >= 6 <==> own >= 2
            }
        }),
{
    let squares = board.board@;
    lemma_board_inputs_placed(layout, board, perspective, 81);
    let at = board_inputs(layout, board, perspective, 81).len() + if color == perspective {
        0int
    } else {
        1int
    };
    let sq = board.king_of(color);
    let input = E4Input {
        bp: king_number(seen_index(sq, perspective), color == perspective),
        at: Some((color, sq)),
    };
    let inputs = e4_inputs(layout, board, perspective);
    assert(color == perspective || color == perspective.other());
    assert(inputs[at] == input);
    features_divide_back_to_base(layout, ctx, config, board, perspective);
    let e4 = e4_features(layout, ctx, config, board, perspective);
    assert(e4[at] / config.nb == base_features(layout, ctx, board, perspective)[at]);
    lemma_king_packed(sq, perspective, ctx.hm_mirror, color == perspective);
    lemma_base_bound(layout, ctx, board, perspective, at);
    lemma_attackers_counted(squares, Color::Black, sq, 81);
    lemma_attackers_counted(squares, Color::White, sq, 81);
    if config.king_bucketed {
        lemma_bucket_tells(
            e4[at] as int,
            config.nb as int,
            attackers(squares, color.other(), sq) as int,
            attackers(squares, color, sq) as int,
        );
    }
}

proof fn lemma_king_packed(sq: Square, side: Color, mirror: bool, friend: bool)
    requires
        sq.valid(),
    ensures
        ({
            let s = seen_index(sq, side);
            packed(king_number(s, friend), mirror) == 1548 + if mirror {
                (8 - s / 9) * 9 + s % 9
            } else {
                s
            }
        }),
{
    let s = seen_index(sq, side);
    packing_mirrors_files(0, s / 9, s % 9, 0, friend);
    assert(s / 9 * 9 + s % 9 == s);
}

proof fn lemma_kind_inputs_counted(
    layout: BonaPieceLayout,
    perspective: Color,
    owner: Color,
    k: int,
    n: nat,
)
    requires
        layout.wf(),
        0 <= k < 7,
    ensures
        ({
            let pt = HAND_PIECE_TYPES@[k];
            let most: int = seq![18int, 4, 4, 4, 4, 2, 2][k];
            let inputs = kind_inputs(layout, perspective, owner, pt, n);
            &&& inputs.len() == if n < most {
                n as int
            } else {
                most
            }
            &&& forall|i: int|
                0 <= i < inputs.len() ==> #[trigger] inputs[i] == (E4Input {
                    bp: layout.in_hand(perspective, owner, pt, i + 1),
                    at: None,
                })
        }),
    decreases n,
{
    if n > 0 {
        lemma_kind_inputs_counted(layout, perspective, owner, k, (n - 1) as nat);
        hand_pieces_are_numbered_in_turn(layout, perspective, owner, k, n as int);
    }
}

proof fn lemma_hand_inputs_counted(
    layout: BonaPieceLayout,
    board: ShogiBoard,
    perspective: Color,
    owner: Color,
)
    requires
        layout.wf(),
    ensures
        hand_inputs(layout, board, perspective, owner, 7).len() == numbered_in_hand(
            board.hand_of(owner),
        ),
{
    lemma_hand_inputs_len(layout, board, perspective, owner, 7);
    lemma_numbered_kinds(board.hand_of(owner));
}

/// Every piece in hand that has a number gives a feature, its number in bucket zero. These features
/// come behind those of the board: black's hand first, kind by kind, then white's.
pub proof fn hand_pieces_have_bucket_zero(
    layout: BonaPieceLayout,
    ctx: PerspectiveCtx,
    config: E4Config,
    board: ShogiBoard,
    perspective: Color,
    owner: Color,
    k: int,
    i: int,
)
    requires
        layout.wf(),
        config.valid(),
        ctx.king_bucket < 45,
        board.black_king_sq.valid(),
        board.white_king_sq.valid(),
        0 <= k < 7,
        1 <= i <= (if owner == Color::Black {
            board.black_hand.counts@[k] as int
        } else {
            board.white_hand.counts@[k] as int
        }),
        i <= seq![18int, 4, 4, 4, 4, 2, 2][k],
    ensures
        ({
            let squares = board.board@;
            let placed = those_below(
                81,
                |s: int|
                    squares[s].piece_type != PieceType::Empty && squares[s].piece_type
                        != PieceType::King,
            ).len();
            let at = placed + 2 + i - 1 + if owner == Color::Black {
                numbered_before(board.black_hand, k as nat)
            } else {
                numbered_in_hand(board.black_hand) + numbered_before(board.white_hand, k as nat)
            };
            e4_features(layout, ctx, config, board, perspective)[at] == (ctx.king_bucket * 1629
                + layout.in_hand(perspective, owner, HAND_PIECE_TYPES@[k], i)) * config.nb
        }),
{
    let pt = HAND_PIECE_TYPES@[k];
    let input = E4Input { bp: layout.in_hand(perspective, owner, pt, i), at: None };
    hand_pieces_are_numbered_in_turn(layout, perspective, owner, k, i);
    lemma_board_inputs_placed(layout, board, perspective, 81);
    lemma_hand_inputs_counted(layout, board, perspective, Color::Black);
    lemma_hand_inputs_placed(layout, board, perspective, owner, 7, k, i);
    let inputs = e4_inputs(layout, board, perspective);
    let ahead = board_inputs(layout, board, perspective, 81).len() + 2;
    let black = hand_inputs(layout, board, perspective, Color::Black, 7).len();
    let j = numbered_before(board.hand_of(owner), k as nat) + i - 1;
    let at = ahead + j + if owner == Color::Black {
        0int
    } else {
        black as int
    };
    assert(inputs[at] == input);
    assert(0 <= (ctx.king_bucket * 1629 + input.bp) * config.nb <= 45 * 1629 * 9) by (nonlinear_arith)
        requires
            0 <= ctx.king_bucket < 45,
            0 <= input.bp < 90,
            config.nb == 4 || config.nb == 9,
    ;
}

proof fn lemma_hand_inputs_placed(
    layout: BonaPieceLayout,
    board: ShogiBoard,
    perspective: Color,
    owner: Color,
    n: nat,
    k: int,
    i: int,
)
    requires
        layout.wf(),
        0 <= k < n <= 7,
        1 <= i <= board.hand_of(owner).counts@[k],
        i <= seq![18int, 4, 4, 4, 4, 2, 2][k],
    ensures
        ({
            let at = numbered_before(board.hand_of(owner), k as nat) + i - 1;
            let inputs = hand_inputs(layout, board, perspective, owner, n);
            &&& 0 <= at < inputs.len()
            &&& inputs[at] == (E4Input {
                bp: layout.in_hand(perspective, owner, HAND_PIECE_TYPES@[k], i),
                at: None,
            })
        }),
    decreases n,
{
    let hand = board.hand_of(owner);
    let pt = HAND_PIECE_TYPES@[n - 1];
    assert(hand.holds(pt) == hand.counts@[n - 1]);
    lemma_kind_inputs_counted(layout, perspective, owner, n - 1, hand.counts@[n - 1] as nat);
    lemma_hand_inputs_len(layout, board, perspective, owner, (n - 1) as nat);
    let before = hand_inputs(layout, board, perspective, owner, (n - 1) as nat);
    let kind = kind_inputs(layout, perspective, owner, pt, hand.counts@[n - 1] as nat);
    let at = numbered_before(hand, k as nat) + i - 1;
    if k < n - 1 {
        lemma_hand_inputs_placed(layout, board, perspective, owner, (n - 1) as nat, k, i);
        assert((before + kind)[at] == before[at]);
    } else {
        assert((before + kind)[at] == kind[i - 1]);
    }
}

proof fn lemma_hand_inputs_len(
    layout: BonaPieceLayout,
    board: ShogiBoard,
    perspective: Color,
    owner: Color,
    n: nat,
)
    requires
        layout.wf(),
        n <= 7,
    ensures
        hand_inputs(layout, board, perspective, owner, n).len() == numbered_before(
            board.hand_of(owner),
            n,
        ),
    decreases n,
{
    if n > 0 {
        let hand = board.hand_of(owner);
        assert(hand.holds(HAND_PIECE_TYPES@[n - 1]) == hand.counts@[n - 1]);
        lemma_hand_inputs_len(layout, board, perspective, owner, (n - 1) as nat);
        lemma_kind_inputs_counted(layout, perspective, owner, n - 1, hand.counts@[n - 1] as nat);
    }
}

} // verus!
