//! Digests: of a file's bytes, and of the training data in the order a loader gives it.

use sha2::{Digest, Sha256};

use vstd::prelude::*;
use vstd::string::*;

use crate::batch::{Batch, Row, Wdl};
use crate::error::ErrorKind;
use crate::feature_set::FeatureSet;
use crate::le::{
    le_encode, le_round_trip, le_signed, le_value, lemma_pow256, lemma_value_of_encoding, push_le,
};
use crate::shuffle::PSV_RECORD_BYTES;
use crate::text::{decimal, hex, hex_text, push_decimal};

verus! {

/// The SHA-256 digest of bytes.
pub uninterp spec fn sha256_of(bytes: Seq<u8>) -> Seq<u8>;

/// `sha2::Sha256::digest`: the 32 bytes of the SHA-256 digest, which the bytes alone decide.
#[verifier::external_body]
fn sha256(bytes: &[u8]) -> (r: Vec<u8>)
    ensures
        r@ == sha256_of(bytes@),
        r@.len() == 32,
{
    Sha256::digest(bytes).to_vec()
}

/// The digest of a file's bytes in hexadecimal.
pub fn sha256_hex(bytes: &[u8]) -> (r: String)
    ensures
        r@ == hex_text(sha256_of(bytes@)),
{
    let digest = sha256(bytes);
    hex(digest.as_slice())
}

/// A magnitude doubled until it has 24 binary digits, and how often.
pub open spec fn normalised(m: int) -> (int, int)
    decreases 0x100_0000 - m,
    when m > 0
{
    if m >= 0x80_0000 {
        (m, 0)
    } else {
        let (n, k) = normalised(2 * m);
        (n, k + 1)
    }
}

/// The bits of a small integer as a 32-bit float: the sign, the exponent biased by 127, and the
/// digits behind the leading one.
pub open spec fn float_bits(v: i16) -> int {
    if v == 0 {
        0
    } else {
        let (n, k) = normalised(
            if v < 0 {
                -(v as int)
            } else {
                v as int
            },
        );
        (if v < 0 {
            0x8000_0000int
        } else {
            0int
        }) + (150 - k) * 0x80_0000 + (n - 0x80_0000)
    }
}

/// The bits of an outcome as a 32-bit float: a loss is 0, a draw one half, a win 1.
pub open spec fn wdl_bits(wdl: Wdl) -> int {
    match wdl {
        Wdl::Loss => 0,
        Wdl::Draw => 0x3f00_0000,
        Wdl::Win => 0x3f80_0000,
    }
}

/// At most 23 doublings bring a number to 24 digits.
proof fn lemma_normalised(m: int)
    requires
        0 < m < 0x100_0000,
    ensures
        0x80_0000 <= normalised(m).0 < 0x100_0000,
        0 <= normalised(m).1 <= 23,
{
    reveal_with_fuel(normalised, 25);
}

/// The bits of a small integer as a 32-bit float.
pub fn f32_bits(v: i16) -> (r: u32)
    ensures
        r == float_bits(v),
{
    if v == 0 {
        return 0;
    }
    let mag: u32 = if v < 0 {
        (-(v as i32)) as u32
    } else {
        v as u32
    };
    let mut m: u32 = mag;
    let mut k: u32 = 0;
    proof {
        lemma_normalised(mag as int);
    }
    while m < 0x80_0000
        invariant
            0 < m < 0x100_0000,
            0 < mag <= 0x8000,
            normalised(mag as int).0 == normalised(m as int).0,
            normalised(mag as int).1 == normalised(m as int).1 + k,
            normalised(mag as int).1 <= 23,
            0 <= normalised(m as int).1,
        decreases 0x100_0000 - m,
    {
        proof {
            lemma_normalised(2 * (m as int));
        }
        m = 2 * m;
        k = k + 1;
    }
    let sign: u32 = if v < 0 {
        0x8000_0000
    } else {
        0
    };
    sign + (150 - k) * 0x80_0000 + (m - 0x80_0000)
}

/// The bits of an outcome as a 32-bit float.
pub fn outcome_bits(wdl: Wdl) -> (r: u32)
    ensures
        r == wdl_bits(wdl),
{
    match wdl {
        Wdl::Loss => 0,
        Wdl::Draw => 0x3f00_0000,
        Wdl::Win => 0x3f80_0000,
    }
}

/// The bytes of indices, four for each.
pub open spec fn index_bytes(indices: Seq<i32>) -> Seq<u8>
    decreases indices.len(),
{
    if indices.len() == 0 {
        seq![]
    } else {
        index_bytes(indices.drop_last()) + le_encode(indices.last() as int, 4)
    }
}

/// The bytes of one position: its score and outcome as floats, the number of its features, and
/// the features from both sides.
pub open spec fn row_bytes(row: Row) -> Seq<u8> {
    le_encode(float_bits(row.score), 4) + le_encode(wdl_bits(row.wdl), 4) + le_encode(
        row.stm.len() as int,
        4,
    ) + index_bytes(row.stm) + index_bytes(row.nstm)
}

/// The bytes of positions in order.
pub open spec fn rows_bytes(rows: Seq<Row>) -> Seq<u8>
    decreases rows.len(),
{
    if rows.len() == 0 {
        seq![]
    } else {
        rows_bytes(rows.drop_last()) + row_bytes(rows.last())
    }
}

/// Appends the four bytes of a word.
fn push_word(out: &mut Vec<u8>, word: u32)
    ensures
        final(out)@ == old(out)@ + le_encode(word as int, 4),
{
    proof {
        lemma_pow256();
    }
    let v: i64 = if word < 0x8000_0000 {
        word as i64
    } else {
        word as i64 - 0x1_0000_0000
    };
    proof {
        if word >= 0x8000_0000 {
            crate::le::lemma_encode_wraps(v as int, 4);
        }
    }
    push_le(out, v, 4);
}

/// Appends the bytes of `count` indices from `start` on.
fn push_indices(out: &mut Vec<u8>, indices: &Vec<i32>, start: usize, count: usize)
    requires
        start + count <= indices@.len(),
    ensures
        final(out)@ == old(out)@ + index_bytes(
            indices@.subrange(start as int, start + count),
        ),
{
    let len: usize = indices.len();
    let mut i: usize = 0;
    assert(indices@.subrange(start as int, start as int) =~= seq![]);
    assert(out@ =~= old(out)@ + index_bytes(indices@.subrange(start as int, start as int)));
    while i < count
        invariant
            i <= count,
            len == indices@.len(),
            start + count <= len,
            out@ == old(out)@ + index_bytes(indices@.subrange(start as int, start + i)),
        decreases count - i,
    {
        proof {
            lemma_pow256();
        }
        push_le(out, indices[start + i] as i64, 4);
        proof {
            let more = indices@.subrange(start as int, start + i + 1);
            assert(more.drop_last() =~= indices@.subrange(start as int, start + i));
            assert(out@ =~= old(out)@ + index_bytes(more));
        }
        i += 1;
    }
}

/// Appends the bytes of the positions of a batch.
pub fn push_batch_bytes(out: &mut Vec<u8>, batch: &Batch)
    requires
        batch.wf(),
    ensures
        final(out)@ == old(out)@ + rows_bytes(batch.rows()),
{
    let n: usize = batch.n_positions;
    let slots: usize = batch.stm_indices.len();
    let mut i: usize = 0;
    assert(batch.rows().take(0) =~= seq![]);
    assert(out@ =~= old(out)@ + rows_bytes(batch.rows().take(0)));
    while i < n
        invariant
            i <= n,
            n == batch.n_positions,
            slots == batch.stm_indices@.len(),
            batch.wf(),
            out@ == old(out)@ + rows_bytes(batch.rows().take(i as int)),
        decreases n - i,
    {
        let ghost before = out@;
        let nnz: usize = batch.nnz[i] as usize;
        proof {
            assert(0 <= batch.nnz@[i as int] <= batch.max_active);
            assert(0 <= i * batch.max_active && i * batch.max_active + batch.max_active
                <= batch.batch_size * batch.max_active) by (nonlinear_arith)
                requires
                    i < batch.batch_size,
                    batch.max_active >= 0,
            ;
        }
        let start: usize = i * batch.max_active;
        push_word(out, f32_bits(batch.score[i]));
        push_word(out, outcome_bits(batch.wdl[i]));
        push_word(out, nnz as u32);
        push_indices(out, &batch.stm_indices, start, nnz);
        push_indices(out, &batch.nstm_indices, start, nnz);
        proof {
            let row = batch.rows()[i as int];
            assert(row.stm =~= batch.stm_indices@.subrange(start as int, start + nnz));
            assert(row.nstm =~= batch.nstm_indices@.subrange(start as int, start + nnz));
            assert(row.stm.len() == nnz);
            assert(out@ =~= before + row_bytes(row));
            let more = batch.rows().take(i + 1);
            assert(more.drop_last() =~= batch.rows().take(i as int));
            assert(out@ =~= old(out)@ + rows_bytes(more));
        }
        i += 1;
    }
    assert(batch.rows().take(n as int) =~= batch.rows());
}

/// Why a digest of training data could not be started.
#[derive(Clone, Copy, Debug, PartialEq, Eq, Structural)]
pub enum DigestError {
    NoData,
    NoBatchSize,
    NoBatches,
    /// No feature set has the name that was given.
    UnknownFeatureSet,
    /// The data file does not hold whole records.
    Torn { file_size: u64 },
    /// The data ended too early.
    Ended,
}

impl DigestError {
    /// The class of the error.
    pub open spec fn class(self) -> ErrorKind {
        match self {
            DigestError::Torn { .. } => ErrorKind::InvalidData,
            _ => ErrorKind::Other,
        }
    }

    /// The class of the error.
    pub fn kind(&self) -> (r: ErrorKind)
        ensures
            r == self.class(),
    {
        match self {
            DigestError::Torn { .. } => ErrorKind::InvalidData,
            _ => ErrorKind::Other,
        }
    }

    /// The text of the error for the data file at `path` and the feature set called `feature_set`.
    pub open spec fn text(self, path: Seq<char>, feature_set: Seq<char>) -> Seq<char> {
        match self {
            DigestError::NoData => "loader-digest requires --data"@,
            DigestError::NoBatchSize => "--batch-size must be >= 1"@,
            DigestError::NoBatches => "--batches must be >= 1"@,
            DigestError::UnknownFeatureSet => "unknown feature set: "@ + feature_set,
            DigestError::Torn { file_size } => {
                "data file "@ + path + " size "@ + decimal(file_size as nat)
                    + " is not a multiple of PSV record size (40 bytes)"@
            },
            DigestError::Ended => "dataloader ended before the requested batch count"@,
        }
    }

    /// The text of the error for the data file at `path` and the feature set called `feature_set`.
    pub fn message(&self, path: &str, feature_set: &str) -> (r: String)
        ensures
            r@ == self.text(path@, feature_set@),
    {
        match *self {
            DigestError::NoData => "loader-digest requires --data".to_owned(),
            DigestError::NoBatchSize => "--batch-size must be >= 1".to_owned(),
            DigestError::NoBatches => "--batches must be >= 1".to_owned(),
            DigestError::UnknownFeatureSet => {
                let mut out = "unknown feature set: ".to_owned();
                out.append(feature_set);
                out
            },
            DigestError::Torn { file_size } => {
                let mut out = "data file ".to_owned();
                out.append(path);
                out.append(" size ");
                push_decimal(&mut out, file_size);
                out.append(" is not a multiple of PSV record size (40 bytes)");
                out
            },
            DigestError::Ended => {
                "dataloader ended before the requested batch count".to_owned()
            },
        }
    }
}

/// Looks at the arguments of a digest, before the data file is: there is one, both counts are
/// positive, and the feature set is known.
pub fn digest_feature_set(
    has_data: bool,
    batch_size: usize,
    batches: usize,
    feature_set: &str,
) -> (r: Result<FeatureSet, DigestError>)
    ensures
        if !has_data {
            r == Err::<FeatureSet, DigestError>(DigestError::NoData)
        } else if batch_size == 0 {
            r == Err::<FeatureSet, DigestError>(DigestError::NoBatchSize)
        } else if batches == 0 {
            r == Err::<FeatureSet, DigestError>(DigestError::NoBatches)
        } else {
            match r {
                Ok(set) => set.name_text() == feature_set@,
                Err(e) => e == DigestError::UnknownFeatureSet && forall|set: FeatureSet|
                    #[trigger]
                    set.name_text() != feature_set@,
            }
        },
{
    if !has_data {
        return Err(DigestError::NoData);
    }
    if batch_size == 0 {
        return Err(DigestError::NoBatchSize);
    }
    if batches == 0 {
        return Err(DigestError::NoBatches);
    }
    match FeatureSet::from_canonical_name(feature_set) {
        Some(set) => Ok(set),
        None => Err(DigestError::UnknownFeatureSet),
    }
}

/// Gathers the data of a run of batches for its digest.
#[derive(Debug)]
pub struct LoaderDigest {
    wanted: usize,
    seen: usize,
    positions: usize,
    bytes: Vec<u8>,
}

/// The model of a digest in the making.
pub struct DigestState {
    /// Batches asked for.
    pub wanted: int,
    /// Batches seen.
    pub seen: int,
    /// Positions seen.
    pub positions: int,
    /// Their bytes.
    pub bytes: Seq<u8>,
}

impl View for LoaderDigest {
    type V = DigestState;

    closed spec fn view(&self) -> DigestState {
        DigestState {
            wanted: self.wanted as int,
            seen: self.seen as int,
            positions: self.positions as int,
            bytes: self.bytes@,
        }
    }
}

/// The line that a digest is shown in.
pub open spec fn digest_text(digest: Seq<u8>, batches: int, positions: int) -> Seq<char> {
    "digest="@ + hex_text(digest) + " batches="@ + decimal(batches as nat) + " positions="@
        + decimal(positions as nat)
}

/// The line that a digest is shown in.
pub fn digest_line(digest: &[u8], batches: usize, positions: usize) -> (r: String)
    ensures
        r@ == digest_text(digest@, batches as int, positions as int),
{
    let mut out = "digest=".to_owned();
    out.append(hex(digest).as_str());
    out.append(" batches=");
    push_decimal(&mut out, batches as u64);
    out.append(" positions=");
    push_decimal(&mut out, positions as u64);
    out
}

impl LoaderDigest {
    /// Starts the digest of `batches` batches from a data file of `file_size` bytes.
    pub fn start(file_size: u64, batches: usize) -> (r: Result<Self, DigestError>)
        ensures
            if file_size % 40 != 0 {
                r == Err::<Self, DigestError>(DigestError::Torn { file_size })
            } else {
                r is Ok && r->Ok_0@ == (DigestState {
                    wanted: batches as int,
                    seen: 0,
                    positions: 0,
                    bytes: seq![],
                })
            },
    {
        if file_size % PSV_RECORD_BYTES != 0 {
            return Err(DigestError::Torn { file_size });
        }
        let bytes: Vec<u8> = Vec::new();
        assert(bytes@ =~= seq![]);
        Ok(LoaderDigest { wanted: batches, seen: 0, positions: 0, bytes })
    }

    /// Whether more batches are to be seen.
    pub fn wants_batch(&self) -> (r: bool)
        ensures
            r == (self@.seen < self@.wanted),
    {
        self.seen < self.wanted
    }

    /// Adds the next batch; `None` says that the loader has no more.
    pub fn add_batch(&mut self, batch: Option<&Batch>) -> (r: Result<(), DigestError>)
        requires
            batch matches Some(b) ==> b.wf() && old(self)@.positions + b.n_positions <= usize::MAX,
            old(self)@.seen < old(self)@.wanted,
        ensures
            match batch {
                Some(b) => r == Ok::<(), DigestError>(()) && final(self)@ == (DigestState {
                    wanted: old(self)@.wanted,
                    seen: old(self)@.seen + 1,
                    positions: old(self)@.positions + b.rows().len(),
                    bytes: old(self)@.bytes + rows_bytes(b.rows()),
                }),
                None => r == Err::<(), DigestError>(DigestError::Ended) && final(self)@ == old(
                    self,
                )@,
            },
    {
        match batch {
            Some(b) => {
                push_batch_bytes(&mut self.bytes, b);
                self.positions = self.positions + b.n_positions;
                self.seen = self.seen + 1;
                Ok(())
            },
            None => Err(DigestError::Ended),
        }
    }

    /// The line with the digest of everything seen.
    pub fn finish(&self) -> (r: String)
        ensures
            r@ == digest_text(sha256_of(self@.bytes), self@.wanted, self@.positions),
    {
        let digest = sha256(self.bytes.as_slice());
        digest_line(digest.as_slice(), self.wanted, self.positions)
    }
}

/// The digits of a float are those of the integer it stands for, shifted: `k` doublings of the
/// magnitude give the 24 digits, and the exponent takes them back.
pub proof fn float_bits_keep_the_magnitude(m: int)
    requires
        0 < m < 0x100_0000,
    ensures
        normalised(m).1 >= 0,
        normalised(m).0 == m * vstd::arithmetic::power2::pow2(normalised(m).1 as nat),
    decreases 0x100_0000 - m,
{
    lemma_normalised(m);
    if m >= 0x80_0000 {
        vstd::arithmetic::power2::lemma2_to64();
        assert(m * 1 == m);
    } else {
        lemma_normalised(2 * m);
        float_bits_keep_the_magnitude(2 * m);
        let k = normalised(2 * m).1 as nat;
        vstd::arithmetic::power2::lemma_pow2_unfold(k + 1);
        let p = vstd::arithmetic::power2::pow2(k) as int;
        assert((2 * m) * p == m * (2 * p)) by (nonlinear_arith);
        assert(normalised(m).1 == k + 1);
    }
}

/// The bits of a score as a single-precision float, read as such: the sign bit is set for negative
/// scores, and the significand at its exponent is the magnitude. Zero has no bit set.
pub proof fn float_bits_are_the_score(v: i16)
    ensures
        ({
            let bits = float_bits(v);
            let exponent = bits / 0x80_0000 % 0x100;
            let significand = 0x80_0000 + bits % 0x80_0000;
            let magnitude = if v < 0 {
                -(v as int)
            } else {
                v as int
            };
            &&& 0 <= bits < 0x1_0000_0000
            &&& v == 0 <==> bits == 0
            &&& bits >= 0x8000_0000 <==> v < 0
            &&& v != 0 ==> {
                &&& 127 <= exponent <= 150
                &&& significand == magnitude * vstd::arithmetic::power2::pow2(
                    (150 - exponent) as nat,
                )
            }
        }),
{
    if v != 0 {
        let m = if v < 0 {
            -(v as int)
        } else {
            v as int
        };
        lemma_normalised(m);
        float_bits_keep_the_magnitude(m);
        let (n, k) = normalised(m);
        let sign = if v < 0 {
            0x8000_0000int
        } else {
            0int
        };
        let bits = float_bits(v);
        let low = n - 0x80_0000;
        assert(bits == sign + (150 - k) * 0x80_0000 + low);
        assert(0 <= low < 0x80_0000);
        assert(bits % 0x80_0000 == low);
        assert(bits / 0x80_0000 == sign / 0x80_0000 + 150 - k);
        assert(bits / 0x80_0000 % 0x100 == 150 - k);
    }
}

/// The outcomes as floats: a loss is zero, a win is one, and a draw is half a win, one exponent
/// less.
pub proof fn outcome_bits_are_zero_half_and_one()
    ensures
        wdl_bits(Wdl::Loss) == float_bits(0),
        wdl_bits(Wdl::Win) == float_bits(1),
        wdl_bits(Wdl::Draw) + 0x80_0000 == wdl_bits(Wdl::Win),
{
    float_bits_are_the_score(1);
    lemma_normalised(1);
    float_bits_keep_the_magnitude(1);
    let (n, k) = normalised(1);
    vstd::arithmetic::power2::lemma2_to64();
    if k < 23 {
        vstd::arithmetic::power2::lemma_pow2_strictly_increases(k as nat, 23);
    }
}

proof fn lemma_index_bytes(indices: Seq<i32>, k: int)
    requires
        0 <= k < indices.len(),
    ensures
        index_bytes(indices).len() == 4 * indices.len(),
        index_bytes(indices).subrange(4 * k, 4 * k + 4) == le_encode(indices[k] as int, 4),
    decreases indices.len(),
{
    let before = indices.drop_last();
    lemma_index_bytes_len(indices);
    lemma_index_bytes_len(before);
    lemma_value_of_encoding(indices.last() as int, 4);
    if k < indices.len() - 1 {
        lemma_index_bytes(before, k);
        assert(index_bytes(indices).subrange(4 * k, 4 * k + 4) =~= index_bytes(before).subrange(
            4 * k,
            4 * k + 4,
        ));
    } else {
        assert(index_bytes(indices).subrange(4 * k, 4 * k + 4) =~= le_encode(
            indices.last() as int,
            4,
        ));
    }
}

proof fn lemma_index_bytes_len(indices: Seq<i32>)
    ensures
        index_bytes(indices).len() == 4 * indices.len(),
    decreases indices.len(),
{
    if indices.len() > 0 {
        lemma_index_bytes_len(indices.drop_last());
        lemma_value_of_encoding(indices.last() as int, 4);
    }
}

/// What is hashed of a position, as words of four bytes: the score, the outcome, the number of
/// features, the features of the side to move and those of the other side.
pub proof fn rows_are_hashed_word_by_word(row: Row, k: int)
    requires
        row.stm.len() == row.nstm.len(),
        0 <= k < row.stm.len() <= i32::MAX,
    ensures
        ({
            let bytes = row_bytes(row);
            let n = row.stm.len() as int;
            &&& bytes.len() == 12 + 8 * n
            &&& le_value(bytes.subrange(0, 4)) == float_bits(row.score)
            &&& le_value(bytes.subrange(4, 8)) == wdl_bits(row.wdl)
            &&& le_value(bytes.subrange(8, 12)) == n
            &&& le_signed(bytes.subrange(12 + 4 * k, 16 + 4 * k)) == row.stm[k]
            &&& le_signed(bytes.subrange(12 + 4 * n + 4 * k, 16 + 4 * n + 4 * k)) == row.nstm[k]
        }),
{
    let bytes = row_bytes(row);
    let n = row.stm.len() as int;
    let (a, b, c) = (
        le_encode(float_bits(row.score), 4),
        le_encode(wdl_bits(row.wdl), 4),
        le_encode(n, 4),
    );
    lemma_pow256();
    float_bits_are_the_score(row.score);
    lemma_value_of_encoding(float_bits(row.score), 4);
    lemma_value_of_encoding(wdl_bits(row.wdl), 4);
    lemma_value_of_encoding(n, 4);
    lemma_index_bytes(row.stm, k);
    lemma_index_bytes(row.nstm, k);
    assert(bytes.subrange(0, 4) =~= a);
    assert(bytes.subrange(4, 8) =~= b);
    assert(bytes.subrange(8, 12) =~= c);
    assert(bytes.subrange(12 + 4 * k, 16 + 4 * k) =~= index_bytes(row.stm).subrange(
        4 * k,
        4 * k + 4,
    ));
    assert(bytes.subrange(12 + 4 * n + 4 * k, 16 + 4 * n + 4 * k) =~= index_bytes(
        row.nstm,
    ).subrange(4 * k, 4 * k + 4));
    le_round_trip(row.stm[k] as int, 4);
    le_round_trip(row.nstm[k] as int, 4);
}

/// Batches are hashed position by position, so that where one ends does not matter.
pub proof fn batches_are_hashed_one_behind_the_other(a: Seq<Row>, b: Seq<Row>)
    ensures
        rows_bytes(a + b) == rows_bytes(a) + rows_bytes(b),
        forall|row: Row| #[trigger] rows_bytes(seq![row]) == row_bytes(row),
    decreases b.len(),
{
    assert forall|row: Row| #[trigger] rows_bytes(seq![row]) == row_bytes(row) by {
        assert(seq![row].drop_last() =~= Seq::<Row>::empty());
        assert(rows_bytes(Seq::<Row>::empty()) == Seq::<u8>::empty());
        assert(rows_bytes(seq![row]) =~= row_bytes(row));
    }
    if b.len() == 0 {
        assert(a + b =~= a);
        assert(rows_bytes(a + b) =~= rows_bytes(a) + rows_bytes(b));
    } else {
        batches_are_hashed_one_behind_the_other(a, b.drop_last());
        assert((a + b).drop_last() =~= a + b.drop_last());
        assert(rows_bytes(a + b) =~= rows_bytes(a) + rows_bytes(b));
    }
}

/// The line of a digest shows the digest in hexadecimal first and ends in the number of positions,
/// so lines of different digests or positions differ.
pub proof fn lines_show_the_digest_and_the_positions(digest: Seq<u8>, batches: nat, positions: nat)
    ensures
        ({
            let line = digest_text(digest, batches as int, positions as int);
            let n = ("digest="@ + hex_text(digest)).len() as int;
            let tail = " positions="@ + decimal(positions);
            let middle = " batches="@ + decimal(batches);
            &&& line.take(n) == "digest="@ + hex_text(digest)
            &&& line.skip(line.len() - tail.len()) == tail
            &&& line.subrange(n, line.len() - tail.len()) == middle
        }),
{
    let line = digest_text(digest, batches as int, positions as int);
    let front = "digest="@ + hex_text(digest);
    let tail = " positions="@ + decimal(positions);
    let middle = " batches="@ + decimal(batches);
    assert(line =~= front + middle + tail);
    assert((front + middle + tail).take(front.len() as int) =~= front);
    assert((front + middle + tail).skip((front + middle).len() as int) =~= tail);
    assert((front + middle + tail).subrange(
        front.len() as int,
        (front + middle).len() as int,
    ) =~= middle);
}

} // verus!
