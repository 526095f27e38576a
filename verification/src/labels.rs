//! Choosing the score label of a record: the second in-record label, or a sidecar file.

use vstd::prelude::*;
use vstd::string::*;

use crate::error::ErrorKind;
use crate::psv::{
    dl_score_of, gate_of, i16_of_le, read_i16_le, with_score, PackedSfenValue, GATE_OFFSET,
};
use crate::shuffle::PSV_RECORD_BYTES;
use crate::text::{decimal, hex_byte, push_decimal, push_hex_byte};

verus! {

/// How the training score is picked from the two labels of a record.
#[derive(Clone, Copy, Debug, PartialEq, Eq, Structural)]
pub enum DualLabelMode {
    /// Every record uses the second label.
    All,
    /// A record whose padding bit 0 is set keeps its first label.
    Gated,
}

/// A record whose padding byte sets a reserved bit.
#[derive(Clone, Copy, Debug, PartialEq, Eq, Structural)]
pub struct ReservedBits {
    /// Index of the record in its file.
    pub record_index: u64,
    /// The padding byte.
    pub gate: u8,
}

impl ReservedBits {
    /// The class of the error.
    pub fn kind(&self) -> (r: ErrorKind)
        ensures
            r == ErrorKind::InvalidData,
    {
        ErrorKind::InvalidData
    }

    /// The text of the error for the file at `path`.
    pub open spec fn text(self, path: Seq<char>) -> Seq<char> {
        "dual-label PSV record "@ + decimal(self.record_index as nat) + " in "@ + path
            + " has non-zero reserved padding bits: 0x"@ + hex_byte(self.gate)
    }

    /// The text of the error for the file at `path`.
    pub fn message(&self, path: &str) -> (r: String)
        ensures
            r@ == self.text(path@),
    {
        let mut out = "dual-label PSV record ".to_owned();
        push_decimal(&mut out, self.record_index);
        out.append(" in ");
        out.append(path);
        out.append(" has non-zero reserved padding bits: 0x");
        push_hex_byte(&mut out, self.gate);
        out
    }
}

impl DualLabelMode {
    /// The name of the mode in configuration and metadata.
    pub open spec fn name_text(self) -> Seq<char> {
        match self {
            DualLabelMode::All => "all"@,
            DualLabelMode::Gated => "gated"@,
        }
    }

    /// The name of the mode in configuration and metadata.
    pub fn canonical_name(self) -> (r: &'static str)
        ensures
            r@ == self.name_text(),
    {
        match self {
            DualLabelMode::All => "all",
            DualLabelMode::Gated => "gated",
        }
    }

    /// Whether the padding byte sets no reserved bit: only bit 0 carries a meaning.
    pub open spec fn gate_is_clean(gate: u8) -> bool {
        gate <= 1
    }

    /// The record that the mode makes of `record`.
    pub open spec fn selected(self, record: Seq<u8>) -> Seq<u8> {
        if self == DualLabelMode::All || gate_of(record) == 0 {
            with_score(record, dl_score_of(record))
        } else {
            record
        }
    }

    /// Checks the reserved bits of the padding byte and puts the chosen score into the record.
    /// A record that is refused is left as it was.
    pub fn apply(self, psv: &mut PackedSfenValue, record_index: u64) -> (r: Result<
        (),
        ReservedBits,
    >)
        ensures
            Self::gate_is_clean(gate_of(old(psv)@)) ==> r == Ok::<(), ReservedBits>(())
                && final(psv)@ == self.selected(old(psv)@),
            !Self::gate_is_clean(gate_of(old(psv)@)) ==> final(psv)@ == old(psv)@ && r == Err::<
                (),
                ReservedBits,
            >(ReservedBits { record_index, gate: gate_of(old(psv)@) }),
    {
        let dl_score: i16 = psv.dl_score();
        let gate: u8 = psv.bytes[GATE_OFFSET];
        if gate & !1u8 != 0 {
            assert(gate & !1u8 != 0 ==> gate > 1) by (bit_vector);
            return Err(ReservedBits { record_index, gate });
        }
        assert(gate & !1u8 == 0 ==> gate <= 1) by (bit_vector);
        assert(gate <= 1 ==> gate & 1u8 == gate) by (bit_vector);
        if self == DualLabelMode::All || gate & 1u8 == 0 {
            psv.set_score(dl_score);
        }
        Ok(())
    }
}

/// Why a score sidecar does not fit its data file.
#[derive(Clone, Copy, Debug, PartialEq, Eq, Structural)]
pub enum OverrideError {
    /// The data file does not hold whole records.
    DataSize { data_size: u64 },
    /// The start is no record boundary of the data file.
    StartOffset { start_offset: u64 },
    /// The sidecar holds another number of scores than the data file has records.
    ScoreSize { actual: u64, expected: u64, records: u64 },
    /// The mask holds another number of bytes than the records need.
    MaskSize { actual: u64, expected: u64, records: u64 },
    /// The mask sets a bit past the last record.
    UnusedMaskBits,
}

/// The paths that an override error speaks of.
pub struct OverridePaths<'a> {
    pub data: &'a str,
    pub scores: &'a str,
    pub mask: &'a str,
}

impl OverrideError {
    /// The class of the error.
    pub fn kind(&self) -> (r: ErrorKind)
        ensures
            r == ErrorKind::Other,
    {
        ErrorKind::Other
    }

    /// The text of the error.
    pub open spec fn text(self, data: Seq<char>, scores: Seq<char>, mask: Seq<char>) -> Seq<char> {
        match self {
            OverrideError::DataSize { data_size } => {
                "data file "@ + data + " size "@ + decimal(data_size as nat)
                    + " is not a multiple of PSV record size (40 bytes)"@
            },
            OverrideError::StartOffset { start_offset } => {
                "score override start offset "@ + decimal(start_offset as nat)
                    + " is not an aligned offset in data file "@ + data
            },
            OverrideError::ScoreSize { actual, expected, records } => {
                "score override file "@ + scores + " size "@ + decimal(actual as nat)
                    + " does not match data file "@ + data + ": expected "@ + decimal(
                    expected as nat,
                ) + " bytes for "@ + decimal(records as nat) + " records"@
            },
            OverrideError::MaskSize { actual, expected, records } => {
                "score override mask "@ + mask + " size "@ + decimal(actual as nat)
                    + " does not match data file "@ + data + ": expected "@ + decimal(
                    expected as nat,
                ) + " bytes for "@ + decimal(records as nat) + " records"@
            },
            OverrideError::UnusedMaskBits => {
                "score override mask "@ + mask + " has non-zero unused bits in its final byte"@
            },
        }
    }

    /// The text of the error.
    pub fn message(&self, paths: &OverridePaths<'_>) -> (r: String)
        ensures
            r@ == self.text(paths.data@, paths.scores@, paths.mask@),
    {
        match *self {
            OverrideError::DataSize { data_size } => {
                let mut out = "data file ".to_owned();
                out.append(paths.data);
                out.append(" size ");
                push_decimal(&mut out, data_size);
                out.append(" is not a multiple of PSV record size (40 bytes)");
                out
            },
            OverrideError::StartOffset { start_offset } => {
                let mut out = "score override start offset ".to_owned();
                push_decimal(&mut out, start_offset);
                out.append(" is not an aligned offset in data file ");
                out.append(paths.data);
                out
            },
            OverrideError::ScoreSize { actual, expected, records } => {
                let mut out = "score override file ".to_owned();
                out.append(paths.scores);
                out.append(" size ");
                push_decimal(&mut out, actual);
                out.append(" does not match data file ");
                out.append(paths.data);
                out.append(": expected ");
                push_decimal(&mut out, expected);
                out.append(" bytes for ");
                push_decimal(&mut out, records);
                out.append(" records");
                out
            },
            OverrideError::MaskSize { actual, expected, records } => {
                let mut out = "score override mask ".to_owned();
                out.append(paths.mask);
                out.append(" size ");
                push_decimal(&mut out, actual);
                out.append(" does not match data file ");
                out.append(paths.data);
                out.append(": expected ");
                push_decimal(&mut out, expected);
                out.append(" bytes for ");
                push_decimal(&mut out, records);
                out.append(" records");
                out
            },
            OverrideError::UnusedMaskBits => {
                let mut out = "score override mask ".to_owned();
                out.append(paths.mask);
                out.append(" has non-zero unused bits in its final byte");
                out
            },
        }
    }
}

/// What is known of a mask file before it is streamed.
#[derive(Clone, Copy, Debug, PartialEq, Eq, Structural)]
pub struct MaskFile {
    /// Its size in bytes.
    pub size: u64,
    /// Its last byte; any value for an empty file.
    pub final_byte: u8,
}

/// The two to the power of `n`, for the bits of a byte.
pub open spec fn bit_value(n: int) -> int {
    if n == 0 {
        1
    } else if n == 1 {
        2
    } else if n == 2 {
        4
    } else if n == 3 {
        8
    } else if n == 4 {
        16
    } else if n == 5 {
        32
    } else if n == 6 {
        64
    } else {
        128
    }
}

/// Whether bit `n` of `byte` is set, counted from the least significant.
pub open spec fn bit_is_set(byte: u8, n: int) -> bool {
    byte as int / bit_value(n) % 2 == 1
}

fn power_of_bit(n: u64) -> (r: u8)
    requires
        n < 8,
    ensures
        r == bit_value(n as int),
{
    if n == 0 {
        1
    } else if n == 1 {
        2
    } else if n == 2 {
        4
    } else if n == 3 {
        8
    } else if n == 4 {
        16
    } else if n == 5 {
        32
    } else if n == 6 {
        64
    } else {
        128
    }
}

/// Whether bit `n` of `byte` is set.
pub fn test_bit(byte: u8, n: u64) -> (r: bool)
    requires
        n < 8,
    ensures
        r == bit_is_set(byte, n as int),
{
    byte / power_of_bit(n) % 2 == 1
}

/// Streaming position in a score sidecar that is aligned to the records of one data file. The
/// optional mask has one bit for each record, least significant first; a set bit keeps the score
/// that the record holds.
#[derive(Clone, Copy, Debug)]
pub struct ScoreOverrideReader {
    has_mask: bool,
    record_index: u64,
    mask_byte_index: u64,
    mask_byte: u8,
}

/// The number of mask bytes for `records` records.
pub open spec fn mask_bytes(records: int) -> int {
    (records + 7) / 8
}

/// The error that the sizes give, if they give one. The first that applies is reported.
pub open spec fn override_error(
    data_size: u64,
    score_size: u64,
    mask: Option<MaskFile>,
    start_offset: u64,
) -> Option<OverrideError> {
    let records = (data_size / 40) as u64;
    if data_size % 40 != 0 {
        Some(OverrideError::DataSize { data_size })
    } else if start_offset % 40 != 0 || start_offset > data_size {
        Some(OverrideError::StartOffset { start_offset })
    } else if score_size != records * 2 {
        Some(
            OverrideError::ScoreSize { actual: score_size, expected: (records * 2) as u64, records },
        )
    } else {
        match mask {
            Some(mask) => if mask.size != mask_bytes(records as int) {
                Some(
                    OverrideError::MaskSize {
                        actual: mask.size,
                        expected: mask_bytes(records as int) as u64,
                        records,
                    },
                )
            } else if records % 8 != 0 && mask.final_byte >= bit_value(records as int % 8) {
                Some(OverrideError::UnusedMaskBits)
            } else {
                None
            },
            None => None,
        }
    }
}

impl ScoreOverrideReader {
    /// Whether a mask is read along with the scores.
    pub closed spec fn masked(&self) -> bool {
        self.has_mask
    }

    /// The record that the next score is for.
    pub closed spec fn index(&self) -> u64 {
        self.record_index
    }

    /// The mask byte that is held, with its index, if one is.
    pub closed spec fn held(&self) -> Option<(u64, u8)> {
        if self.mask_byte_index == u64::MAX {
            None
        } else {
            Some((self.mask_byte_index, self.mask_byte))
        }
    }

    /// Whether the next record needs another mask byte than the one held.
    pub open spec fn wants_mask_byte(&self) -> bool {
        self.masked() && match self.held() {
            Some((at, _)) => at != self.index() / 8,
            None => true,
        }
    }

    /// The mask byte that decides on the next record, when `fresh` is handed over for it.
    pub open spec fn deciding_byte(&self, fresh: Option<u8>) -> u8 {
        match fresh {
            Some(b) => b,
            None => self.held().unwrap().1,
        }
    }

    /// Whether the held mask byte is the one that the mask `mask` has at that place.
    pub open spec fn follows(&self, mask: Seq<u8>) -> bool {
        self.held() matches Some((at, byte)) ==> at < mask.len() && mask[at as int] == byte
    }

    /// Checks the sizes of the sidecar files against the data file and starts at the record that
    /// begins at `start_offset`.
    pub fn new(
        data_size: u64,
        score_size: u64,
        mask: Option<MaskFile>,
        start_offset: u64,
    ) -> (r: Result<Self, OverrideError>)
        ensures
            match override_error(data_size, score_size, mask, start_offset) {
                Some(e) => r == Err::<Self, OverrideError>(e),
                None => {
                    &&& r is Ok
                    &&& r->Ok_0.masked() == (mask is Some)
                    &&& r->Ok_0.index() == start_offset / 40
                    &&& r->Ok_0.held() is None
                },
            },
    {
        if data_size % PSV_RECORD_BYTES != 0 {
            return Err(OverrideError::DataSize { data_size });
        }
        if start_offset % PSV_RECORD_BYTES != 0 || start_offset > data_size {
            return Err(OverrideError::StartOffset { start_offset });
        }
        let records: u64 = data_size / PSV_RECORD_BYTES;
        let expected: u64 = records * 2;
        if score_size != expected {
            return Err(OverrideError::ScoreSize { actual: score_size, expected, records });
        }
        let has_mask = match mask {
            Some(mask) => {
                let expected: u64 = (records + 7) / 8;
                if mask.size != expected {
                    return Err(OverrideError::MaskSize { actual: mask.size, expected, records });
                }
                if records % 8 != 0 && mask.final_byte >= power_of_bit(records % 8) {
                    return Err(OverrideError::UnusedMaskBits);
                }
                true
            },
            None => false,
        };
        let mut reader = ScoreOverrideReader {
            has_mask,
            record_index: 0,
            mask_byte_index: u64::MAX,
            mask_byte: 0,
        };
        reader.seek_to(start_offset / PSV_RECORD_BYTES);
        Ok(reader)
    }

    /// Moves to another record. The mask byte that was held is given up.
    pub fn seek_to(&mut self, record_index: u64)
        ensures
            final(self).masked() == old(self).masked(),
            final(self).index() == record_index,
            final(self).held() is None,
    {
        self.record_index = record_index;
        self.mask_byte_index = u64::MAX;
    }

    /// The offset of the next score in the sidecar.
    pub fn score_offset(&self) -> (r: u64)
        requires
            self.index() <= u64::MAX / 2,
        ensures
            r == self.index() * 2,
    {
        self.record_index * 2
    }

    /// The offset of the mask byte of the next record.
    pub fn mask_offset(&self) -> (r: u64)
        ensures
            r == self.index() / 8,
    {
        self.record_index / 8
    }

    /// Whether the next call of `apply` has to be given a mask byte.
    pub fn needs_mask_byte(&self) -> (r: bool)
        ensures
            r == self.wants_mask_byte(),
    {
        proof {
            assert(self.index() / 8 != u64::MAX);
        }
        self.has_mask && self.mask_byte_index != self.record_index / 8
    }

    /// Replaces the score of the next record by the two sidecar bytes, unless its mask bit is
    /// set. `mask_byte` is the byte at `mask_offset`, handed over when `needs_mask_byte` says so.
    pub fn apply(&mut self, psv: &mut PackedSfenValue, score: [u8; 2], mask_byte: Option<u8>)
        requires
            old(self).index() < u64::MAX,
            mask_byte is Some <==> old(self).wants_mask_byte(),
        ensures
            final(self).masked() == old(self).masked(),
            final(self).index() == old(self).index() + 1,
            final(self).held() == match mask_byte {
                Some(b) => Some(((old(self).index() / 8) as u64, b)),
                None => old(self).held(),
            },
            final(psv)@ == if old(self).masked() && bit_is_set(
                old(self).deciding_byte(mask_byte),
                old(self).index() as int % 8,
            ) {
                old(psv)@
            } else {
                with_score(old(psv)@, i16_of_le(score@[0], score@[1]))
            },
    {
        let preserve = if self.has_mask {
            if let Some(b) = mask_byte {
                self.mask_byte = b;
                self.mask_byte_index = self.record_index / 8;
            }
            test_bit(self.mask_byte, self.record_index % 8)
        } else {
            false
        };
        self.record_index = self.record_index + 1;
        if !preserve {
            psv.set_score(read_i16_le(score[0], score[1]));
        }
    }
}

/// The bits of a byte, least significant first, make the byte.
pub proof fn bits_make_the_byte(byte: u8)
    ensures
        byte == (if bit_is_set(byte, 0) {
            1int
        } else {
            0
        }) + (if bit_is_set(byte, 1) {
            2int
        } else {
            0
        }) + (if bit_is_set(byte, 2) {
            4int
        } else {
            0
        }) + (if bit_is_set(byte, 3) {
            8int
        } else {
            0
        }) + (if bit_is_set(byte, 4) {
            16int
        } else {
            0
        }) + (if bit_is_set(byte, 5) {
            32int
        } else {
            0
        }) + (if bit_is_set(byte, 6) {
            64int
        } else {
            0
        }) + (if bit_is_set(byte, 7) {
            128int
        } else {
            0
        }),
{
    // Each bit is what halving leaves over.
    let h0 = byte as int;
    let (h1, h2, h3, h4) = (h0 / 2, h0 / 4, h0 / 8, h0 / 16);
    let (h5, h6, h7) = (h0 / 32, h0 / 64, h0 / 128);
    assert(h0 == 2 * h1 + h0 % 2);
    assert(h2 == h1 / 2 && h1 == 2 * h2 + h1 % 2);
    assert(h3 == h2 / 2 && h2 == 2 * h3 + h2 % 2);
    assert(h4 == h3 / 2 && h3 == 2 * h4 + h3 % 2);
    assert(h5 == h4 / 2 && h4 == 2 * h5 + h4 % 2);
    assert(h6 == h5 / 2 && h5 == 2 * h6 + h5 % 2);
    assert(h7 == h6 / 2 && h6 == 2 * h7 + h6 % 2);
    assert(0 <= h7 <= 1);
    assert(h0 / 1 == h0);
}

/// What a mode makes of a record: with every record, or where bit 0 of the last byte is clear, the
/// second score takes the place of the first; else the record stays. A record is refused exactly
/// where one of the other bits of the last byte is set.
pub proof fn labels_are_chosen_by_the_gate(mode: DualLabelMode, record: Seq<u8>)
    requires
        record.len() == 40,
    ensures
        DualLabelMode::gate_is_clean(gate_of(record)) <==> (forall|n: int|
            1 <= n < 8 ==> !#[trigger] bit_is_set(record[39], n)),
        DualLabelMode::gate_is_clean(gate_of(record)) ==> {
            let out = mode.selected(record);
            if mode == DualLabelMode::All || !bit_is_set(record[39], 0) {
                &&& out.len() == 40
                &&& out[32] == record[34] && out[33] == record[35]
                &&& forall|k: int|
                    0 <= k < 40 && k != 32 && k != 33 ==> #[trigger] out[k] == record[k]
            } else {
                out == record
            }
        },
{
    let gate = record[39];
    bits_make_the_byte(gate);
    if forall|n: int| 1 <= n < 8 ==> !#[trigger] bit_is_set(gate, n) {
        assert(!bit_is_set(gate, 1) && !bit_is_set(gate, 2) && !bit_is_set(gate, 3));
        assert(!bit_is_set(gate, 4) && !bit_is_set(gate, 5) && !bit_is_set(gate, 6));
        assert(!bit_is_set(gate, 7));
    }
    crate::psv::i16_le_bytes_round_trip(record[34], record[35]);
}

/// Which files fit together: a data file of whole records, a start on a record of it, two bytes of
/// scores for each record and, where there is a mask, just as many bytes as hold a bit for each
/// record, with no bit set behind the last record.
pub proof fn sidecars_fit_their_data(
    data_size: u64,
    score_size: u64,
    mask: Option<MaskFile>,
    start_offset: u64,
)
    ensures
        override_error(data_size, score_size, mask, start_offset) is None <==> {
            let records = data_size as int / 40;
            &&& records * 40 == data_size
            &&& start_offset as int % 40 == 0
            &&& start_offset <= data_size
            &&& score_size == 2 * records
            &&& mask matches Some(m) ==> {
                &&& records <= 8 * m.size < records + 8
                &&& forall|n: int|
                    records % 8 <= n < 8 && records % 8 != 0 ==> !#[trigger] bit_is_set(
                        m.final_byte,
                        n,
                    )
            }
        },
{
    let records = data_size as int / 40;
    if let Some(m) = mask {
        bits_make_the_byte(m.final_byte);
        lemma_bits_behind(m.final_byte, records % 8);
    }
}

proof fn lemma_bits_behind(byte: u8, n: int)
    requires
        0 <= n < 8,
    ensures
        byte < bit_value(n) <==> (forall|k: int| n <= k < 8 ==> !#[trigger] bit_is_set(byte, k)),
{
    bits_make_the_byte(byte);
    if forall|k: int| n <= k < 8 ==> !#[trigger] bit_is_set(byte, k) {
        assert(n <= 0 ==> !bit_is_set(byte, 0));
        assert(n <= 1 ==> !bit_is_set(byte, 1));
        assert(n <= 2 ==> !bit_is_set(byte, 2));
        assert(n <= 3 ==> !bit_is_set(byte, 3));
        assert(n <= 4 ==> !bit_is_set(byte, 4));
        assert(n <= 5 ==> !bit_is_set(byte, 5));
        assert(n <= 6 ==> !bit_is_set(byte, 6));
        assert(!bit_is_set(byte, 7));
    }
}

/// A mask byte is asked for only where there is a mask, and then exactly when the byte held is not
/// that of the record: eight records in a row share theirs.
pub proof fn eight_records_share_a_mask_byte(reader: ScoreOverrideReader, at: u64, byte: u8)
    ensures
        !reader.masked() ==> !reader.wants_mask_byte(),
        reader.masked() && reader.held() is None ==> reader.wants_mask_byte(),
        reader.masked() && reader.held() == Some((at, byte)) ==> (reader.wants_mask_byte()
            <==> !(8 * at <= reader.index() < 8 * at + 8)),
        reader.held() == Some((at, byte)) ==> reader.deciding_byte(None) == byte,
        reader.deciding_byte(Some(byte)) == byte,
{
}

} // verus!
