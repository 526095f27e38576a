//! Numbering the board pieces of a position for both sides at once.

use vstd::prelude::*;

use crate::bona::{mirrored, mirrored_sq};
use crate::feature_set::FeatureSet;

verus! {

/// What one side brings to the numbering.
#[derive(Clone, Copy, Debug, PartialEq, Eq, Structural)]
pub struct PerspectiveOffset {
    /// First feature of the side's king bucket.
    pub kb_offset: i32,
    /// Whether files are mirrored.
    pub mirror: bool,
    /// One for black, zero for white.
    pub black_persp: i32,
    /// Zero for black, one for white.
    pub color_code: i32,
}

/// The vector widths that the numbering can run in.
#[derive(Clone, Copy, Debug, PartialEq, Eq, Structural)]
pub enum BoardPhaseDispatch {
    Scalar,
    Avx2,
    Avx512,
}

/// The vector extensions that a processor has.
#[derive(Clone, Copy, Debug, PartialEq, Eq, Structural)]
pub struct CpuFeatures {
    pub avx2: bool,
    pub avx512f: bool,
}

/// The widest way that the processor offers.
pub open spec fn widest(cpu: CpuFeatures) -> BoardPhaseDispatch {
    if cpu.avx512f {
        BoardPhaseDispatch::Avx512
    } else if cpu.avx2 {
        BoardPhaseDispatch::Avx2
    } else {
        BoardPhaseDispatch::Scalar
    }
}

impl BoardPhaseDispatch {
    /// The widest way that the processor offers.
    pub fn detect(cpu: CpuFeatures) -> (r: BoardPhaseDispatch)
        ensures
            r == widest(cpu),
    {
        detect_uncached(cpu)
    }
}

fn detect_uncached(cpu: CpuFeatures) -> (r: BoardPhaseDispatch)
    ensures
        r == widest(cpu),
{
    if cpu.avx512f {
        return BoardPhaseDispatch::Avx512;
    }
    if cpu.avx2 {
        return BoardPhaseDispatch::Avx2;
    }
    BoardPhaseDispatch::Scalar
}

/// Whether the numbering here is the one of the feature set.
pub fn spec_is_halfka_hm_merged(feature_set: FeatureSet) -> (r: bool)
    ensures
        r == (feature_set == FeatureSet::HalfKaHmMerged),
{
    matches!(feature_set, FeatureSet::HalfKaHmMerged)
}

/// The pieces to number: for each its kind, side and square. The first `n` are numbered.
pub struct BoardPhaseArgs<'a> {
    /// First number of each kind, by twice the kind plus one for own pieces.
    pub piece_base: &'a [i32; 30],
    pub pt: &'a [i32],
    pub color: &'a [i32],
    pub sq: &'a [i32],
    pub n: usize,
    pub stm: PerspectiveOffset,
    pub nstm: PerspectiveOffset,
}

/// The feature of a piece for a side that sees it on `sq` as its own (`friend`) or not.
pub open spec fn piece_feature(
    piece_base: Seq<i32>,
    side: PerspectiveOffset,
    pt: int,
    friend: bool,
    sq: int,
) -> int {
    side.kb_offset + piece_base[pt * 2 + if friend {
        1int
    } else {
        0int
    }] + if side.mirror {
        mirrored(sq)
    } else {
        sq
    }
}

/// The square as the side to move sees it. The other side sees it turned.
pub open spec fn stm_square(stm: PerspectiveOffset, sq: int) -> int {
    if stm.black_persp == 1 {
        sq
    } else {
        80 - sq
    }
}

impl<'a> BoardPhaseArgs<'a> {
    /// Every piece has a kind and a square, and its features fit.
    pub open spec fn valid(&self) -> bool {
        &&& self.n <= self.pt@.len()
        &&& self.n <= self.color@.len()
        &&& self.n <= self.sq@.len()
        &&& forall|i: int|
            0 <= i < self.n ==> 0 <= #[trigger] self.pt@[i] < 15 && 0 <= self.sq@[i] < 81
        &&& forall|i: int|
            0 <= i < self.n ==> i32::MIN <= #[trigger] self.stm_feature(i) <= i32::MAX
        &&& forall|i: int|
            0 <= i < self.n ==> i32::MIN <= #[trigger] self.nstm_feature(i) <= i32::MAX
    }

    /// The feature of piece `i` for the side to move.
    pub open spec fn stm_feature(&self, i: int) -> int {
        piece_feature(
            self.piece_base@,
            self.stm,
            self.pt@[i] as int,
            self.color@[i] == self.stm.color_code,
            stm_square(self.stm, self.sq@[i] as int),
        )
    }

    /// The feature of piece `i` for the other side: the square turned, the piece's side reversed.
    pub open spec fn nstm_feature(&self, i: int) -> int {
        piece_feature(
            self.piece_base@,
            self.nstm,
            self.pt@[i] as int,
            self.color@[i] != self.stm.color_code,
            80 - stm_square(self.stm, self.sq@[i] as int),
        )
    }
}

/// Writes the features of the first `n` pieces for both sides. What stands behind them in the
/// outputs stays.
pub fn extract_halfka_hm_board_phase(
    args: &BoardPhaseArgs<'_>,
    stm_out: &mut Vec<i32>,
    nstm_out: &mut Vec<i32>,
)
    requires
        args.valid(),
        args.n <= old(stm_out)@.len(),
        args.n <= old(nstm_out)@.len(),
    ensures
        final(stm_out)@.len() == old(stm_out)@.len(),
        final(nstm_out)@.len() == old(nstm_out)@.len(),
        forall|i: int| 0 <= i < args.n ==> #[trigger] final(stm_out)@[i] == args.stm_feature(i),
        forall|i: int| 0 <= i < args.n ==> #[trigger] final(nstm_out)@[i] == args.nstm_feature(i),
        forall|i: int|
            args.n <= i < old(stm_out)@.len() ==> #[trigger] final(stm_out)@[i] == old(stm_out)@[i],
        forall|i: int|
            args.n <= i < old(nstm_out)@.len() ==> #[trigger] final(nstm_out)@[i] == old(
                nstm_out,
            )@[i],
{
    let stm = args.stm;
    let nstm = args.nstm;
    let mut i: usize = 0;
    while i < args.n
        invariant
            i <= args.n,
            args.valid(),
            stm == args.stm,
            nstm == args.nstm,
            stm_out@.len() == old(stm_out)@.len(),
            nstm_out@.len() == old(nstm_out)@.len(),
            args.n <= stm_out@.len(),
            args.n <= nstm_out@.len(),
            forall|k: int| 0 <= k < i ==> #[trigger] stm_out@[k] == args.stm_feature(k),
            forall|k: int| 0 <= k < i ==> #[trigger] nstm_out@[k] == args.nstm_feature(k),
            forall|k: int|
                i <= k < stm_out@.len() ==> #[trigger] stm_out@[k] == old(stm_out)@[k],
            forall|k: int|
                i <= k < nstm_out@.len() ==> #[trigger] nstm_out@[k] == old(nstm_out)@[k],
        decreases args.n - i,
    {
        let p: i32 = args.pt[i];
        let c: i32 = args.color[i];
        let s: i32 = args.sq[i];
        assert(0 <= args.pt@[i as int] < 15);
        let sq_idx_stm: i32 = if stm.black_persp == 1 {
            s
        } else {
            80 - s
        };
        let sq_idx_nstm: i32 = 80 - sq_idx_stm;
        let is_friend_stm: i32 = if c == stm.color_code {
            1
        } else {
            0
        };
        let is_friend_nstm: i32 = 1 - is_friend_stm;
        let base_stm: i32 = args.piece_base[(p * 2 + is_friend_stm) as usize];
        let base_nstm: i32 = args.piece_base[(p * 2 + is_friend_nstm) as usize];
        let sq_packed_stm: i32 = if stm.mirror {
            mirrored_sq(sq_idx_stm as usize) as i32
        } else {
            sq_idx_stm
        };
        let sq_packed_nstm: i32 = if nstm.mirror {
            mirrored_sq(sq_idx_nstm as usize) as i32
        } else {
            sq_idx_nstm
        };
        let idx_stm: i64 = stm.kb_offset as i64 + base_stm as i64 + sq_packed_stm as i64;
        let idx_nstm: i64 = nstm.kb_offset as i64 + base_nstm as i64 + sq_packed_nstm as i64;
        assert(idx_stm == args.stm_feature(i as int));
        assert(idx_nstm == args.nstm_feature(i as int));
        stm_out[i] = idx_stm as i32;
        nstm_out[i] = idx_nstm as i32;
        i += 1;
    }
}

/// Both sides see the same piece: with the roles of the sides exchanged, the two features change
/// places.
pub proof fn sides_are_symmetric(args: BoardPhaseArgs<'_>, swapped: BoardPhaseArgs<'_>, i: int)
    requires
        args.valid(),
        swapped == (BoardPhaseArgs { stm: args.nstm, nstm: args.stm, ..args }),
        0 <= i < args.n,
        args.color@[i] == 0 || args.color@[i] == 1,
        args.stm.color_code == 0 || args.stm.color_code == 1,
        args.stm.black_persp == 1 - args.stm.color_code,
        args.nstm.color_code == 1 - args.stm.color_code,
        args.nstm.black_persp == 1 - args.nstm.color_code,
    ensures
        swapped.stm_feature(i) == args.nstm_feature(i),
        swapped.nstm_feature(i) == args.stm_feature(i),
{
}

/// What a side's feature of a piece is made of: the start of its king bucket, the first number of
/// the piece's kind as own or other, and the square as the side sees it, black from below and
/// white from above, with the file mirrored where the side mirrors.
pub proof fn features_follow_the_side(args: BoardPhaseArgs<'_>, i: int, file: int, rank: int)
    requires
        args.valid(),
        0 <= i < args.n,
        0 <= file < 9,
        0 <= rank < 9,
        args.sq@[i] == file * 9 + rank,
        args.color@[i] == 0 || args.color@[i] == 1,
        args.stm.color_code == 0 || args.stm.color_code == 1,
        args.stm.black_persp == 1 - args.stm.color_code,
        args.nstm.color_code == 1 - args.stm.color_code,
        args.nstm.black_persp == 1 - args.nstm.color_code,
    ensures
        ({
            let feature = |side: PerspectiveOffset|
                {
                    let base = args.piece_base@[2 * args.pt@[i] + if args.color@[i]
                        == side.color_code {
                        1int
                    } else {
                        0int
                    }];
                    let (f, r) = if side.color_code == 0 {
                        (file, rank)
                    } else {
                        (8 - file, 8 - rank)
                    };
                    let g = if side.mirror {
                        8 - f
                    } else {
                        f
                    };
                    side.kb_offset + base + g * 9 + r
                };
            &&& args.stm_feature(i) == feature(args.stm)
            &&& args.nstm_feature(i) == feature(args.nstm)
        }),
{
    let s = args.sq@[i] as int;
    assert(s / 9 == file && s % 9 == rank);
    assert((80 - s) / 9 == 8 - file && (80 - s) % 9 == 8 - rank);
}

/// The numbering runs in no way that the processor lacks, and in the widest that it has.
pub proof fn processors_run_what_they_have(cpu: CpuFeatures)
    ensures
        widest(cpu) is Avx512 <==> cpu.avx512f,
        widest(cpu) is Avx2 ==> cpu.avx2,
        widest(cpu) is Scalar <==> !cpu.avx2 && !cpu.avx512f,
{
}

} // verus!
