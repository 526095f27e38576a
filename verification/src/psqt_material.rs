//! Starting values of the piece-square shortcut: the material value of each piece, in centipawns.

use vstd::prelude::*;

use crate::board::{hand_slot, Color, Piece, PieceType, Square};
use crate::bona::{hand_limit, plane_of, BonaPieceLayout, FE_HAND_END, FE_OLD_END};

verus! {

pub const PAWN: i32 = 100;

pub const LANCE: i32 = 300;

pub const KNIGHT: i32 = 320;

pub const SILVER: i32 = 500;

pub const GOLD: i32 = 550;

pub const BISHOP: i32 = 850;

pub const ROOK: i32 = 1000;

/// A bishop and a fifth.
pub const HORSE: i32 = 1020;

/// A rook and a fifth.
pub const DRAGON: i32 = 1200;

/// The value of a kind of piece in hand, by its slot.
pub open spec fn hand_value(slot: int) -> int {
    if slot == 0 {
        PAWN as int
    } else if slot == 1 {
        LANCE as int
    } else if slot == 2 {
        KNIGHT as int
    } else if slot == 3 {
        SILVER as int
    } else if slot == 4 {
        GOLD as int
    } else if slot == 5 {
        BISHOP as int
    } else {
        ROOK as int
    }
}

/// The value of a kind of piece on the board, by its plane.
pub open spec fn plane_value(plane: int) -> int {
    if plane == 0 {
        PAWN as int
    } else if plane == 1 {
        LANCE as int
    } else if plane == 2 {
        KNIGHT as int
    } else if plane == 3 {
        SILVER as int
    } else if plane == 4 {
        GOLD as int
    } else if plane == 5 {
        BISHOP as int
    } else if plane == 6 {
        HORSE as int
    } else if plane == 7 {
        ROOK as int
    } else {
        DRAGON as int
    }
}

/// One stretch of the table: own pieces count for their value, the other side's against it.
pub struct Stretch {
    pub base: int,
    pub count: int,
    pub value: int,
}

/// Stretch `k` of the table: first the hands, then the board, own and other pieces in turn.
pub open spec fn stretch(layout: BonaPieceLayout, k: int) -> Stretch {
    if k < 14 {
        Stretch {
            base: layout.hand_base@[k] as int,
            count: hand_limit(k / 2),
            value: if k % 2 == 1 {
                hand_value(k / 2)
            } else {
                -hand_value(k / 2)
            },
        }
    } else {
        Stretch {
            base: layout.piece_base@[k - 14] as int,
            count: 81,
            value: if k % 2 == 1 {
                plane_value((k - 14) / 2)
            } else {
                -plane_value((k - 14) / 2)
            },
        }
    }
}

/// Whether a piece number lies in a stretch.
pub open spec fn in_stretch(s: Stretch, bp: int) -> bool {
    s.base <= bp < s.base + s.count
}

/// The material value of a piece number after the first `n` stretches; zero outside of them.
pub open spec fn material_after(layout: BonaPieceLayout, bp: int, n: nat) -> int
    decreases n,
{
    if n == 0 {
        0
    } else if in_stretch(stretch(layout, n - 1), bp) {
        stretch(layout, n - 1).value
    } else {
        material_after(layout, bp, (n - 1) as nat)
    }
}

/// The material value of a piece number.
pub open spec fn material(layout: BonaPieceLayout, bp: int) -> int {
    material_after(layout, bp, 32)
}

/// No piece number lies in two stretches.
pub open spec fn stretches_apart(layout: BonaPieceLayout) -> bool {
    forall|j: int, k: int, bp: int|
        0 <= j < k < 32 && #[trigger] in_stretch(stretch(layout, j), bp) ==> !#[trigger] in_stretch(
            stretch(layout, k),
            bp,
        )
}

fn hand_worth(slot: usize) -> (r: i32)
    requires
        slot < 7,
    ensures
        r == hand_value(slot as int),
        0 < r <= 1200,
{
    if slot == 0 {
        PAWN
    } else if slot == 1 {
        LANCE
    } else if slot == 2 {
        KNIGHT
    } else if slot == 3 {
        SILVER
    } else if slot == 4 {
        GOLD
    } else if slot == 5 {
        BISHOP
    } else {
        ROOK
    }
}

fn plane_worth(plane: usize) -> (r: i32)
    requires
        plane < 9,
    ensures
        r == plane_value(plane as int),
        0 < r <= 1200,
{
    if plane == 0 {
        PAWN
    } else if plane == 1 {
        LANCE
    } else if plane == 2 {
        KNIGHT
    } else if plane == 3 {
        SILVER
    } else if plane == 4 {
        GOLD
    } else if plane == 5 {
        BISHOP
    } else if plane == 6 {
        HORSE
    } else if plane == 7 {
        ROOK
    } else {
        DRAGON
    }
}

/// Fills one stretch of the table.
fn fill(table: &mut Vec<i32>, base: usize, count: usize, value: i32)
    requires
        base + count <= old(table)@.len(),
    ensures
        final(table)@.len() == old(table)@.len(),
        forall|i: int|
            0 <= i < final(table)@.len() ==> #[trigger] final(table)@[i] == if base <= i < base
                + count {
                value
            } else {
                old(table)@[i]
            },
{
    let n: usize = table.len();
    let mut i: usize = 0;
    while i < count
        invariant
            i <= count,
            n == table@.len(),
            base + count <= n,
            table@.len() == old(table)@.len(),
            forall|k: int|
                0 <= k < table@.len() ==> #[trigger] table@[k] == if base <= k < base + i {
                    value
                } else {
                    old(table)@[k]
                },
        decreases count - i,
    {
        table[base + i] = value;
        i += 1;
    }
}

/// The material value of every packed piece number. Kings, whose numbers come last, have none.
pub fn build_packed_bp_material_table(layout: &BonaPieceLayout, piece_inputs: usize) -> (r: Vec<
    i32,
>)
    requires
        layout.wf(),
        piece_inputs >= FE_OLD_END,
    ensures
        r@.len() == piece_inputs,
        forall|bp: int| 0 <= bp < piece_inputs ==> #[trigger] r@[bp] == material(*layout, bp),
{
    let mut table: Vec<i32> = vec![0i32;piece_inputs];
    let mut k: usize = 0;
    while k < 32
        invariant
            k <= 32,
            layout.wf(),
            piece_inputs >= FE_OLD_END,
            table@.len() == piece_inputs,
            forall|bp: int|
                0 <= bp < piece_inputs ==> #[trigger] table@[bp] == material_after(
                    *layout,
                    bp,
                    k as nat,
                ),
        decreases 32 - k,
    {
        let ghost before = table@;
        if k < 14 {
            let slot: usize = k / 2;
            let worth: i32 = hand_worth(slot);
            let value: i32 = if k % 2 == 1 {
                worth
            } else {
                -worth
            };
            let count: usize = if slot == 0 {
                18
            } else if slot <= 4 {
                4
            } else {
                2
            };
            assert(layout.hand_base@[k as int] + hand_limit(k as int / 2) <= FE_HAND_END);
            fill(&mut table, layout.hand_base[k] as usize, count, value);
        } else {
            let worth: i32 = plane_worth((k - 14) / 2);
            let value: i32 = if k % 2 == 1 {
                worth
            } else {
                -worth
            };
            assert(layout.piece_base@[k - 14] + 81 <= FE_OLD_END);
            fill(&mut table, layout.piece_base[k - 14] as usize, 81, value);
        }
        assert forall|bp: int| 0 <= bp < piece_inputs implies #[trigger] table@[bp]
            == material_after(*layout, bp, (k + 1) as nat) by {
            assert(before[bp] == material_after(*layout, bp, k as nat));
        }
        k += 1;
    }
    table
}

/// Where the value of a piece number stands, for a king bucket and an output bucket.
pub open spec fn value_slot(kb: int, piece_inputs: int, bp: int, num_buckets: int, b: int) -> int {
    (kb * piece_inputs + bp) * num_buckets + b
}

/// The starting values of the shortcut, in centipawns: for each king bucket and piece number the
/// piece's material value, once for each output bucket. Feature `f` and bucket `b` stand at
/// `f * num_buckets + b`.
pub fn psqt_material_values(
    layout: &BonaPieceLayout,
    piece_inputs: usize,
    king_buckets: usize,
    num_buckets: usize,
) -> (r: Vec<i32>)
    requires
        layout.wf(),
        piece_inputs >= FE_OLD_END,
        num_buckets > 0,
        king_buckets * piece_inputs * num_buckets <= usize::MAX,
    ensures
        r@.len() == king_buckets * piece_inputs * num_buckets,
        forall|i: int|
            0 <= i < r@.len() ==> #[trigger] r@[i] == material(
                *layout,
                i / (num_buckets as int) % (piece_inputs as int),
            ),
        forall|kb: int, bp: int, b: int|
            0 <= kb < king_buckets && 0 <= bp < piece_inputs && 0 <= b < num_buckets
                ==> #[trigger] r@[value_slot(
                kb,
                piece_inputs as int,
                bp,
                num_buckets as int,
                b,
            )] == material(*layout, bp),
{
    let table = build_packed_bp_material_table(layout, piece_inputs);
    let mut vals: Vec<i32> = Vec::new();
    let mut kb: usize = 0;
    assert(0 * piece_inputs * num_buckets == 0) by (nonlinear_arith);
    while kb < king_buckets
        invariant
            kb <= king_buckets,
            num_buckets > 0,
            piece_inputs >= FE_OLD_END,
            table@.len() == piece_inputs,
            forall|bp: int|
                0 <= bp < piece_inputs ==> #[trigger] table@[bp] == material(*layout, bp),
            vals@.len() == kb * piece_inputs * num_buckets,
            forall|i: int|
                0 <= i < vals@.len() ==> #[trigger] vals@[i] == material(
                    *layout,
                    i / (num_buckets as int) % (piece_inputs as int),
                ),
        decreases king_buckets - kb,
    {
        let mut bp: usize = 0;
        assert((kb * piece_inputs + 0) * num_buckets == kb * piece_inputs * num_buckets);
        while bp < piece_inputs
            invariant
                bp <= piece_inputs,
                num_buckets > 0,
                piece_inputs >= FE_OLD_END,
                table@.len() == piece_inputs,
                forall|bp: int|
                    0 <= bp < piece_inputs ==> #[trigger] table@[bp] == material(*layout, bp),
                vals@.len() == (kb * piece_inputs + bp) * num_buckets,
                forall|i: int|
                    0 <= i < vals@.len() ==> #[trigger] vals@[i] == material(
                        *layout,
                        i / (num_buckets as int) % (piece_inputs as int),
                    ),
            decreases piece_inputs - bp,
        {
            let value: i32 = table[bp];
            let mut b: usize = 0;
            while b < num_buckets
                invariant
                    b <= num_buckets,
                    bp < piece_inputs,
                    value == material(*layout, bp as int),
                    vals@.len() == (kb * piece_inputs + bp) * num_buckets + b,
                    forall|i: int|
                        0 <= i < vals@.len() ==> #[trigger] vals@[i] == material(
                            *layout,
                            i / (num_buckets as int) % (piece_inputs as int),
                        ),
                decreases num_buckets - b,
            {
                proof {
                    lemma_feature_slot(
                        kb as int,
                        piece_inputs as int,
                        bp as int,
                        num_buckets as int,
                        b as int,
                    );
                }
                vals.push(value);
                b += 1;
            }
            proof {
                let f = kb * piece_inputs + bp;
                assert(f * num_buckets + num_buckets == (f + 1) * num_buckets) by (nonlinear_arith);
            }
            bp += 1;
        }
        proof {
            assert(kb * piece_inputs + piece_inputs == (kb + 1) * piece_inputs)
                by (nonlinear_arith);
        }
        kb += 1;
    }
    assert forall|kb: int, bp: int, b: int|
        0 <= kb < king_buckets && 0 <= bp < piece_inputs && 0 <= b
            < num_buckets implies #[trigger] vals@[value_slot(
        kb,
        piece_inputs as int,
        bp,
        num_buckets as int,
        b,
    )] == material(*layout, bp) by {
        lemma_feature_slot(kb, piece_inputs as int, bp, num_buckets as int, b);
        lemma_slot_bound(kb, king_buckets as int, piece_inputs as int, bp, num_buckets as int, b);
    }
    vals
}

proof fn lemma_slot_bound(kb: int, kings: int, inputs: int, bp: int, buckets: int, b: int)
    requires
        0 <= kb < kings,
        0 <= bp < inputs,
        0 <= b < buckets,
    ensures
        0 <= value_slot(kb, inputs, bp, buckets, b) < kings * inputs * buckets,
{
    assert(0 <= kb * inputs && kb * inputs + inputs <= kings * inputs) by (nonlinear_arith)
        requires
            0 <= kb < kings,
            0 <= inputs,
    ;
    let f = kb * inputs + bp;
    assert(0 <= f * buckets && f * buckets + buckets <= kings * inputs * buckets)
        by (nonlinear_arith)
        requires
            0 <= f < kings * inputs,
            0 <= buckets,
    ;
}

proof fn lemma_feature_slot(kb: int, inputs: int, bp: int, buckets: int, b: int)
    requires
        0 <= kb,
        0 <= bp < inputs,
        0 <= b < buckets,
    ensures
        ((kb * inputs + bp) * buckets + b) / buckets % inputs == bp,
{
    let f = kb * inputs + bp;
    vstd::arithmetic::div_mod::lemma_fundamental_div_mod_converse(f * buckets + b, buckets, f, b);
    vstd::arithmetic::div_mod::lemma_fundamental_div_mod_converse(f, inputs, kb, bp);
}

proof fn lemma_material_of_stretch(layout: BonaPieceLayout, k: int, bp: int, n: nat)
    requires
        stretches_apart(layout),
        0 <= k < n <= 32,
        in_stretch(stretch(layout, k), bp),
    ensures
        material_after(layout, bp, n) == stretch(layout, k).value,
    decreases n,
{
    if n - 1 > k {
        assert(!in_stretch(stretch(layout, n - 1), bp));
        lemma_material_of_stretch(layout, k, bp, (n - 1) as nat);
    }
}

/// An own piece and the same piece of the other side have opposite values, in hand and on the
/// board: stretches `2 j` and `2 j + 1` cancel, square by square.
pub proof fn own_and_other_pieces_cancel(layout: BonaPieceLayout, j: int, offset: int)
    requires
        stretches_apart(layout),
        0 <= j < 16,
        0 <= offset < stretch(layout, 2 * j).count,
    ensures
        stretch(layout, 2 * j).count == stretch(layout, 2 * j + 1).count,
        material(layout, stretch(layout, 2 * j).base + offset) == -material(
            layout,
            stretch(layout, 2 * j + 1).base + offset,
        ),
        material(layout, stretch(layout, 2 * j + 1).base + offset) > 0,
{
    assert(in_stretch(stretch(layout, 2 * j), stretch(layout, 2 * j).base + offset));
    assert(in_stretch(stretch(layout, 2 * j + 1), stretch(layout, 2 * j + 1).base + offset));
    lemma_material_of_stretch(layout, 2 * j, stretch(layout, 2 * j).base + offset, 32);
    lemma_material_of_stretch(layout, 2 * j + 1, stretch(layout, 2 * j + 1).base + offset, 32);
}

/// Kings have no material value: every number from `FE_OLD_END` on counts zero.
pub proof fn kings_have_no_material(layout: BonaPieceLayout, bp: int)
    requires
        layout.wf(),
        bp >= FE_OLD_END,
    ensures
        material(layout, bp) == 0,
{
    lemma_no_material_past_end(layout, bp, 32);
}

proof fn lemma_no_material_past_end(layout: BonaPieceLayout, bp: int, n: nat)
    requires
        layout.wf(),
        bp >= FE_OLD_END,
        n <= 32,
    ensures
        material_after(layout, bp, n) == 0,
    decreases n,
{
    if n > 0 {
        if n <= 14 {
            assert(layout.hand_base@[n - 1] + hand_limit((n - 1) / 2) <= FE_HAND_END);
        } else {
            assert(layout.piece_base@[n - 15] + 81 <= FE_OLD_END);
        }
        lemma_no_material_past_end(layout, bp, (n - 1) as nat);
    }
}

/// What a kind of piece is worth to its own side, on the board and in hand.
pub open spec fn worth_of(layout: BonaPieceLayout, pt: PieceType, value: int) -> bool {
    &&& forall|sq: Square, side: Color|
        sq.valid() ==> {
            &&& material(
                layout,
                #[trigger] layout.on_square(Piece { color: side, piece_type: pt }, sq, side),
            ) == value
            &&& material(
                layout,
                layout.on_square(Piece { color: side, piece_type: pt }, sq, side.other()),
            ) == -value
        }
    &&& forall|i: int, side: Color|
        layout.in_hand(side, side, pt, i) != 0 ==> {
            &&& material(layout, #[trigger] layout.in_hand(side, side, pt, i)) == value
            &&& material(layout, layout.in_hand(side.other(), side, pt, i)) == -value
        }
}

/// The number of every piece has the piece's value, wherever it stands and whoever looks: a piece
/// on the board is worth what it is worth in hand, a promoted small piece is worth a gold, and a
/// horse and a dragon are worth a bishop and a rook and a fifth. For the other side it counts as
/// much against.
pub proof fn every_piece_has_its_value(layout: BonaPieceLayout)
    requires
        layout.wf(),
        stretches_apart(layout),
    ensures
        worth_of(layout, PieceType::Pawn, 100),
        worth_of(layout, PieceType::Lance, 300),
        worth_of(layout, PieceType::Knight, 320),
        worth_of(layout, PieceType::Silver, 500),
        worth_of(layout, PieceType::Gold, 550),
        worth_of(layout, PieceType::Bishop, 850),
        worth_of(layout, PieceType::Rook, 1000),
        worth_of(layout, PieceType::ProPawn, 550),
        worth_of(layout, PieceType::ProLance, 550),
        worth_of(layout, PieceType::ProKnight, 550),
        worth_of(layout, PieceType::ProSilver, 550),
        worth_of(layout, PieceType::Horse, 850int * 6 / 5),
        worth_of(layout, PieceType::Dragon, 1000int * 6 / 5),
{
    lemma_worth_of(layout, PieceType::Pawn, 100);
    lemma_worth_of(layout, PieceType::Lance, 300);
    lemma_worth_of(layout, PieceType::Knight, 320);
    lemma_worth_of(layout, PieceType::Silver, 500);
    lemma_worth_of(layout, PieceType::Gold, 550);
    lemma_worth_of(layout, PieceType::Bishop, 850);
    lemma_worth_of(layout, PieceType::Rook, 1000);
    lemma_worth_of(layout, PieceType::ProPawn, 550);
    lemma_worth_of(layout, PieceType::ProLance, 550);
    lemma_worth_of(layout, PieceType::ProKnight, 550);
    lemma_worth_of(layout, PieceType::ProSilver, 550);
    lemma_worth_of(layout, PieceType::Horse, 1020);
    lemma_worth_of(layout, PieceType::Dragon, 1200);
}

proof fn lemma_worth_of(layout: BonaPieceLayout, pt: PieceType, value: int)
    requires
        layout.wf(),
        stretches_apart(layout),
        plane_of(pt) matches Some(p) && 0 <= p < 9 && plane_value(p) == value,
        hand_slot(pt) matches Some(k) ==> 0 <= k < 7 && hand_value(k) == value,
    ensures
        worth_of(layout, pt, value),
{
    let p = plane_of(pt)->Some_0;
    assert forall|sq: Square, side: Color| sq.valid() implies {
        &&& material(
            layout,
            #[trigger] layout.on_square(Piece { color: side, piece_type: pt }, sq, side),
        ) == value
        &&& material(
            layout,
            layout.on_square(Piece { color: side, piece_type: pt }, sq, side.other()),
        ) == -value
    } by {
        let piece = Piece { color: side, piece_type: pt };
        let own = layout.on_square(piece, sq, side);
        let theirs = layout.on_square(piece, sq, side.other());
        assert((14 + 2 * p + 1) % 2 == 1 && (14 + 2 * p) % 2 == 0);
        assert(in_stretch(stretch(layout, 14 + 2 * p + 1), own));
        assert(in_stretch(stretch(layout, 14 + 2 * p), theirs));
        lemma_material_of_stretch(layout, 14 + 2 * p + 1, own, 32);
        lemma_material_of_stretch(layout, 14 + 2 * p, theirs, 32);
    }
    assert forall|i: int, side: Color| layout.in_hand(side, side, pt, i) != 0 implies {
        &&& material(layout, #[trigger] layout.in_hand(side, side, pt, i)) == value
        &&& material(layout, layout.in_hand(side.other(), side, pt, i)) == -value
    } by {
        let k = hand_slot(pt)->Some_0;
        let own = layout.in_hand(side, side, pt, i);
        let theirs = layout.in_hand(side.other(), side, pt, i);
        assert((2 * k + 1) / 2 == k && (2 * k) / 2 == k);
        assert(in_stretch(stretch(layout, 2 * k + 1), own));
        assert(in_stretch(stretch(layout, 2 * k), theirs));
        lemma_material_of_stretch(layout, 2 * k + 1, own, 32);
        lemma_material_of_stretch(layout, 2 * k, theirs, 32);
    }
}

} // verus!
