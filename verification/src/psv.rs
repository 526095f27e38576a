//! Packed position records: forty bytes, of which the training labels take the last eight.

use vstd::prelude::*;

use crate::le::{le_signed, le_value, lemma_pow256};

verus! {

/// Bytes of one record, as an index type.
pub const RECORD_LEN: usize = 40;

/// Offset of the score label, low byte first.
pub const SCORE_OFFSET: usize = 32;

/// Offset of the second (DL) score label, low byte first.
pub const DL_SCORE_OFFSET: usize = 34;

/// Offset of the game result.
pub const RESULT_OFFSET: usize = 38;

/// Offset of the padding byte, whose lowest bit gates the second label.
pub const GATE_OFFSET: usize = 39;

/// The value of two bytes read as a little-endian `i16`.
pub open spec fn i16_of_le(lo: u8, hi: u8) -> i16 {
    let v = lo as int + 256 * hi as int;
    if v < 0x8000 {
        v as i16
    } else {
        (v - 0x1_0000) as i16
    }
}

/// The two little-endian bytes of an `i16`.
pub open spec fn le_of_i16(v: i16) -> Seq<u8> {
    let u = v as int % 0x1_0000;
    seq![(u % 256) as u8, (u / 256) as u8]
}

/// Reads two bytes as a little-endian `i16`.
pub fn read_i16_le(lo: u8, hi: u8) -> (v: i16)
    ensures
        v == i16_of_le(lo, hi),
{
    let v: i32 = lo as i32 + 256 * (hi as i32);
    if v < 0x8000 {
        v as i16
    } else {
        (v - 0x1_0000) as i16
    }
}

/// The two little-endian bytes of an `i16`.
pub fn i16_le_bytes(v: i16) -> (r: [u8; 2])
    ensures
        r@ == le_of_i16(v),
{
    let u: u32 = if v >= 0 {
        v as u32
    } else {
        (v as i32 + 0x1_0000) as u32
    };
    let r = [(u % 256) as u8, (u / 256) as u8];
    assert(r@ =~= le_of_i16(v));
    r
}

/// Writing a score and reading it back gives the score.
pub proof fn i16_le_round_trip(v: i16)
    ensures
        i16_of_le(le_of_i16(v)[0], le_of_i16(v)[1]) == v,
{
}

/// Reading a score and writing it back gives the bytes.
pub proof fn i16_le_bytes_round_trip(lo: u8, hi: u8)
    ensures
        le_of_i16(i16_of_le(lo, hi)) == seq![lo, hi],
{
    assert(le_of_i16(i16_of_le(lo, hi)) =~= seq![lo, hi]);
}

/// One packed record.
#[derive(Clone, Copy, Debug)]
pub struct PackedSfenValue {
    pub bytes: [u8; 40],
}

/// The score label of a record.
pub open spec fn score_of(record: Seq<u8>) -> i16 {
    i16_of_le(record[32], record[33])
}

/// The second score label of a record.
pub open spec fn dl_score_of(record: Seq<u8>) -> i16 {
    i16_of_le(record[34], record[35])
}

/// The game result of a record: positive for a win of the side to move, negative for a loss.
pub open spec fn result_of(record: Seq<u8>) -> i8 {
    if record[38] < 0x80 {
        record[38] as i8
    } else {
        (record[38] - 0x100) as i8
    }
}

/// The padding byte of a record.
pub open spec fn gate_of(record: Seq<u8>) -> u8 {
    record[39]
}

/// `record` with its score label replaced.
pub open spec fn with_score(record: Seq<u8>, score: i16) -> Seq<u8> {
    record.update(32, le_of_i16(score)[0]).update(33, le_of_i16(score)[1])
}

impl View for PackedSfenValue {
    type V = Seq<u8>;

    open spec fn view(&self) -> Seq<u8> {
        self.bytes@
    }
}

impl PackedSfenValue {
    /// The record of forty bytes.
    pub fn from_slice(bytes: &[u8]) -> (r: Self)
        requires
            bytes@.len() == 40,
        ensures
            r@ == bytes@,
    {
        let mut out = [0u8; 40];
        let mut i: usize = 0;
        while i < 40
            invariant
                i <= 40,
                bytes@.len() == 40,
                out@.len() == 40,
                forall|k: int| 0 <= k < i ==> out@[k] == bytes@[k],
            decreases 40 - i,
        {
            out[i] = bytes[i];
            i += 1;
        }
        assert(out@ =~= bytes@);
        PackedSfenValue { bytes: out }
    }

    /// The score label.
    pub fn score(&self) -> (r: i16)
        ensures
            r == score_of(self@),
    {
        read_i16_le(self.bytes[SCORE_OFFSET], self.bytes[SCORE_OFFSET + 1])
    }

    /// The second score label.
    pub fn dl_score(&self) -> (r: i16)
        ensures
            r == dl_score_of(self@),
    {
        read_i16_le(self.bytes[DL_SCORE_OFFSET], self.bytes[DL_SCORE_OFFSET + 1])
    }

    /// The game result.
    pub fn game_result(&self) -> (r: i8)
        ensures
            r == result_of(self@),
    {
        let b: i16 = self.bytes[RESULT_OFFSET] as i16;
        if b < 0x80 {
            b as i8
        } else {
            (b - 0x100) as i8
        }
    }

    /// Replaces the score label.
    pub fn set_score(&mut self, score: i16)
        ensures
            final(self)@ == with_score(old(self)@, score),
    {
        let le = i16_le_bytes(score);
        self.bytes[SCORE_OFFSET] = le[0];
        self.bytes[SCORE_OFFSET + 1] = le[1];
        assert(self@ =~= with_score(old(self)@, score));
    }
}

/// A replaced score is the one that is read, and the rest of the record is as it was.
pub proof fn score_reads_back(record: Seq<u8>, score: i16)
    requires
        record.len() == 40,
    ensures
        score_of(with_score(record, score)) == score,
        with_score(record, score_of(record)) == record,
        forall|k: int|
            0 <= k < 40 && k != 32 && k != 33 ==> with_score(record, score)[k] == record[k],
{
    i16_le_round_trip(score);
    i16_le_bytes_round_trip(record[32], record[33]);
    assert(with_score(record, score_of(record)) =~= record);
}

/// Where the fields of a record lie: the score in the bytes 32 and 33, the second score in 34 and
/// 35, the result of the game in byte 38, all little-endian, and the label bits in the last byte.
pub proof fn fields_lie_in_their_bytes(record: Seq<u8>)
    requires
        record.len() == 40,
    ensures
        score_of(record) == le_signed(record.subrange(32, 34)),
        dl_score_of(record) == le_signed(record.subrange(34, 36)),
        result_of(record) == le_signed(record.subrange(38, 39)),
        gate_of(record) == record.last(),
{
    lemma_pow256();
    lemma_two_bytes(record.subrange(32, 34));
    lemma_two_bytes(record.subrange(34, 36));
    let one = record.subrange(38, 39);
    assert(one.drop_first() =~= Seq::<u8>::empty());
    assert(le_value(Seq::<u8>::empty()) == 0);
    assert(le_value(one) == one[0]);
}

proof fn lemma_two_bytes(bytes: Seq<u8>)
    requires
        bytes.len() == 2,
    ensures
        le_signed(bytes) == i16_of_le(bytes[0], bytes[1]),
{
    lemma_pow256();
    let rest = bytes.drop_first();
    assert(rest.drop_first() =~= Seq::<u8>::empty());
    assert(le_value(Seq::<u8>::empty()) == 0);
    assert(le_value(rest) == bytes[1]);
    assert(le_value(bytes) == bytes[0] + 256 * bytes[1]);
}

} // verus!
