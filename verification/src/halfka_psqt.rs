//! The quantised network file: a header, then five blocks of little-endian integers.

use vstd::prelude::*;
use vstd::string::*;

use crate::error::ErrorKind;
use crate::le::{
    fits, le_bytes_round_trip, le_encode, le_round_trip, le_signed, lemma_pow256, push_le,
    read_signed_le,
};
use crate::text::{decimal, push_decimal, push_signed, signed_decimal};

verus! {

/// Outputs of the feature transformer.
pub const FT_OUT_DIM: usize = 1536;

/// Outputs of the layer behind it.
pub const L1_OUT_DIM: usize = 1;

/// Input features.
pub const NUM_FEATURES: usize = 73305;

/// Bytes of the header.
pub const HEADER_BYTES: usize = 22;

/// The integer type that weights are stored in, with the factor they were multiplied by.
#[derive(Clone, Copy, Debug, PartialEq, Eq, Structural)]
pub enum QuantTarget {
    /// Two bytes.
    I16(i16),
    /// One byte.
    I8(i16),
    /// Four bytes.
    I32(i32),
}

/// Why weights could not be stored or read.
#[derive(Clone, Copy, Debug, PartialEq, Eq, Structural)]
pub enum NetError {
    /// A multiplied weight is outside of the integer type.
    OutOfRange { target: QuantTarget, index: usize },
    /// The bytes are no whole number of integers.
    Unaligned { len: usize, elem: usize },
    /// A block has another number of weights than the dimensions say.
    BlockLength { block: NetBlock, want: usize, got: usize },
    /// The file ends inside a block.
    Truncated,
}

/// A block of the file.
#[derive(Clone, Copy, Debug, PartialEq, Eq, Structural)]
pub enum NetBlock {
    FtWeights,
    FtBias,
    L1Weights,
    L1Bias,
    Psqt,
}

impl NetBlock {
    /// The name of the block.
    pub open spec fn name_text(self) -> Seq<char> {
        match self {
            NetBlock::FtWeights => "ft_weights"@,
            NetBlock::FtBias => "ft_bias"@,
            NetBlock::L1Weights => "l1_weights"@,
            NetBlock::L1Bias => "l1_bias"@,
            NetBlock::Psqt => "psqt"@,
        }
    }

    /// The name of the block.
    pub fn name(self) -> (r: &'static str)
        ensures
            r@ == self.name_text(),
    {
        match self {
            NetBlock::FtWeights => "ft_weights",
            NetBlock::FtBias => "ft_bias",
            NetBlock::L1Weights => "l1_weights",
            NetBlock::L1Bias => "l1_bias",
            NetBlock::Psqt => "psqt",
        }
    }
}

impl NetError {
    /// The class of the error.
    pub open spec fn class(self) -> ErrorKind {
        match self {
            NetError::Truncated => ErrorKind::UnexpectedEof,
            _ => ErrorKind::InvalidData,
        }
    }

    /// The class of the error.
    pub fn kind(&self) -> (r: ErrorKind)
        ensures
            r == self.class(),
    {
        match self {
            NetError::Truncated => ErrorKind::UnexpectedEof,
            _ => ErrorKind::InvalidData,
        }
    }

    /// The text of the error; `weight` is the weight that does not fit, as the caller writes it.
    pub open spec fn text(self, weight: Seq<char>) -> Seq<char> {
        match self {
            NetError::OutOfRange { target, index } => {
                "Failed quantisation from f32 to "@ + target.shown() + " for "@ + weight
            },
            NetError::Unaligned { len, elem } => {
                "dequantise: bytes len "@ + decimal(len as nat) + " not multiple of "@ + decimal(
                    elem as nat,
                )
            },
            NetError::BlockLength { block, want, got } => {
                block.name_text() + ": expected "@ + decimal(want as nat) + " elements, got "@
                    + decimal(got as nat)
            },
            NetError::Truncated => "failed to fill whole buffer"@,
        }
    }

    /// The text of the error; `weight` is the weight that does not fit, as the caller writes it.
    pub fn message(&self, weight: &str) -> (r: String)
        ensures
            r@ == self.text(weight@),
    {
        match *self {
            NetError::OutOfRange { target, index } => {
                let mut out = "Failed quantisation from f32 to ".to_owned();
                target.show(&mut out);
                out.append(" for ");
                out.append(weight);
                assert(out@ =~= self.text(weight@));
                out
            },
            NetError::Unaligned { len, elem } => {
                let mut out = "dequantise: bytes len ".to_owned();
                push_decimal(&mut out, len as u64);
                out.append(" not multiple of ");
                push_decimal(&mut out, elem as u64);
                out
            },
            NetError::BlockLength { block, want, got } => {
                let mut out = block.name().to_owned();
                out.append(": expected ");
                push_decimal(&mut out, want as u64);
                out.append(" elements, got ");
                push_decimal(&mut out, got as u64);
                out
            },
            NetError::Truncated => "failed to fill whole buffer".to_owned(),
        }
    }
}

/// The bytes of integers, each in `n` bytes.
pub open spec fn block_bytes(values: Seq<i64>, n: nat) -> Seq<u8>
    decreases values.len(),
{
    if values.len() == 0 {
        seq![]
    } else {
        block_bytes(values.drop_last(), n) + le_encode(values.last() as int, n)
    }
}

/// Whether all integers fit into `n` bytes.
pub open spec fn all_fit(values: Seq<i64>, n: nat) -> bool {
    forall|k: int| 0 <= k < values.len() ==> fits(#[trigger] values[k] as int, n)
}

/// The first integer that does not fit into `n` bytes.
pub open spec fn first_misfit(values: Seq<i64>, n: nat) -> Option<int>
    decreases values.len(),
{
    if values.len() == 0 {
        None
    } else {
        match first_misfit(values.drop_last(), n) {
            Some(k) => Some(k),
            None => if fits(values.last() as int, n) {
                None
            } else {
                Some(values.len() - 1)
            },
        }
    }
}

/// Integer `k` of bytes that hold integers of `n` bytes each.
pub open spec fn element(bytes: Seq<u8>, n: int, k: int) -> int {
    le_signed(bytes.subrange(k * n, k * n + n))
}

proof fn lemma_first_misfit(values: Seq<i64>, n: nat)
    ensures
        first_misfit(values, n) is None <==> all_fit(values, n),
        first_misfit(values, n) matches Some(k) ==> 0 <= k < values.len() && !fits(
            values[k] as int,
            n,
        ),
    decreases values.len(),
{
    if values.len() > 0 {
        let rest = values.drop_last();
        lemma_first_misfit(rest, n);
        if all_fit(values, n) {
            assert forall|k: int| 0 <= k < rest.len() implies fits(#[trigger] rest[k] as int, n) by {
                assert(rest[k] == values[k]);
            }
            assert(values.last() == values[values.len() - 1]);
        }
        if all_fit(rest, n) && fits(values.last() as int, n) {
            assert forall|k: int| 0 <= k < values.len() implies fits(
                #[trigger] values[k] as int,
                n,
            ) by {
                if k < rest.len() {
                    assert(rest[k] == values[k]);
                }
            }
        }
    }
}

proof fn lemma_first_misfit_prefix(values: Seq<i64>, m: int, n: nat)
    requires
        0 <= m <= values.len(),
        first_misfit(values.take(m), n) is Some,
    ensures
        first_misfit(values, n) == first_misfit(values.take(m), n),
    decreases values.len() - m,
{
    if m < values.len() {
        assert(values.take(m + 1).drop_last() =~= values.take(m));
        lemma_first_misfit_prefix(values, m + 1, n);
    } else {
        assert(values.take(m) =~= values);
    }
}

proof fn lemma_block_bytes(values: Seq<i64>, n: nat)
    requires
        n > 0,
        all_fit(values, n),
    ensures
        block_bytes(values, n).len() == values.len() * n,
        forall|k: int|
            0 <= k < values.len() ==> #[trigger] element(block_bytes(values, n), n as int, k)
                == values[k],
    decreases values.len(),
{
    if values.len() > 0 {
        let rest = values.drop_last();
        let m = rest.len() as int;
        assert forall|k: int| 0 <= k < rest.len() implies fits(#[trigger] rest[k] as int, n) by {
            assert(rest[k] == values[k]);
        }
        lemma_block_bytes(rest, n);
        assert(values.last() == values[m]);
        le_round_trip(values.last() as int, n);
        let b = block_bytes(values, n);
        let br = block_bytes(rest, n);
        let last = le_encode(values.last() as int, n);
        assert(m * n + n == (m + 1) * n) by (nonlinear_arith);
        assert forall|k: int| 0 <= k < values.len() implies #[trigger] element(b, n as int, k)
            == values[k] by {
            if k < m {
                assert(0 <= k * n && k * n + n <= m * n) by (nonlinear_arith)
                    requires
                        0 <= k < m,
                        n > 0,
                ;
                assert(b.subrange(k * n, k * n + n) =~= br.subrange(k * n, k * n + n));
                assert(element(br, n as int, k) == rest[k]);
            } else {
                assert(k == m);
                assert(b.subrange(k * n, k * n + n) =~= last);
            }
        }
    } else {
        assert(0 * n == 0) by (nonlinear_arith);
    }
}

impl QuantTarget {
    /// The type and its factor as text.
    pub open spec fn shown(self) -> Seq<char> {
        match self {
            QuantTarget::I16(q) => "I16("@ + signed_decimal(q as int) + ")"@,
            QuantTarget::I8(q) => "I8("@ + signed_decimal(q as int) + ")"@,
            QuantTarget::I32(q) => "I32("@ + signed_decimal(q as int) + ")"@,
        }
    }

    /// Appends the type and its factor.
    fn show(self, out: &mut String)
        ensures
            final(out)@ == old(out)@ + self.shown(),
    {
        match self {
            QuantTarget::I16(q) => {
                out.append("I16(");
                push_signed(out, q as i64);
            },
            QuantTarget::I8(q) => {
                out.append("I8(");
                push_signed(out, q as i64);
            },
            QuantTarget::I32(q) => {
                out.append("I32(");
                push_signed(out, q as i64);
            },
        }
        out.append(")");
        assert(out@ =~= old(out)@ + self.shown());
    }

    /// Bytes of one integer.
    pub open spec fn bytes(self) -> int {
        match self {
            QuantTarget::I8(_) => 1,
            QuantTarget::I16(_) => 2,
            QuantTarget::I32(_) => 4,
        }
    }

    /// Bytes of one integer.
    pub fn elem_bytes(self) -> (r: usize)
        ensures
            r == self.bytes(),
            r == 1 || r == 2 || r == 4,
    {
        match self {
            QuantTarget::I8(_) => 1,
            QuantTarget::I16(_) => 2,
            QuantTarget::I32(_) => 4,
        }
    }

    /// Whether a multiplied weight can be stored.
    pub fn in_range(self, v: i64) -> (r: bool)
        ensures
            r == fits(v as int, self.bytes() as nat),
    {
        proof {
            lemma_pow256();
        }
        match self {
            QuantTarget::I8(_) => -0x80 <= v && v < 0x80,
            QuantTarget::I16(_) => -0x8000 <= v && v < 0x8000,
            QuantTarget::I32(_) => -0x8000_0000 <= v && v < 0x8000_0000,
        }
    }

    /// The bytes of weights that were multiplied and rounded to integers. One that does not fit is
    /// an error.
    pub fn quantise(self, values: &[i64]) -> (r: Result<Vec<u8>, NetError>)
        ensures
            match first_misfit(values@, self.bytes() as nat) {
                Some(k) => r == Err::<Vec<u8>, NetError>(
                    NetError::OutOfRange { target: self, index: k as usize },
                ),
                None => r is Ok && r->Ok_0@ == block_bytes(values@, self.bytes() as nat),
            },
    {
        let n: usize = self.elem_bytes();
        let mut out: Vec<u8> = Vec::new();
        let mut i: usize = 0;
        assert(values@.take(0) =~= seq![]);
        assert(out@ =~= block_bytes(values@.take(0), n as nat));
        while i < values.len()
            invariant
                i <= values@.len(),
                n == self.bytes(),
                n == 1 || n == 2 || n == 4,
                first_misfit(values@.take(i as int), n as nat) is None,
                out@ == block_bytes(values@.take(i as int), n as nat),
            decreases values@.len() - i,
        {
            let v: i64 = values[i];
            let ghost more = values@.take(i + 1);
            proof {
                assert(more.drop_last() =~= values@.take(i as int));
            }
            if !self.in_range(v) {
                proof {
                    assert(first_misfit(more, n as nat) == Some(i as int));
                    lemma_first_misfit_prefix(values@, i + 1, n as nat);
                }
                return Err(NetError::OutOfRange { target: self, index: i });
            }
            push_le(&mut out, v, n);
            i += 1;
        }
        assert(values@.take(i as int) =~= values@);
        Ok(out)
    }

    /// The integers that bytes hold. Weights come from dividing them by the factor.
    pub fn dequantise(self, bytes: &[u8]) -> (r: Result<Vec<i64>, NetError>)
        ensures
            if bytes@.len() as int % self.bytes() != 0 {
                r == Err::<Vec<i64>, NetError>(
                    NetError::Unaligned {
                        len: bytes@.len() as usize,
                        elem: self.bytes() as usize,
                    },
                )
            } else {
                &&& r is Ok
                &&& r->Ok_0@.len() == bytes@.len() as int / self.bytes()
                &&& forall|k: int|
                    0 <= k < r->Ok_0@.len() ==> #[trigger] r->Ok_0@[k] == element(
                        bytes@,
                        self.bytes(),
                        k,
                    )
            },
    {
        let elem: usize = self.elem_bytes();
        let len: usize = bytes.len();
        if len % elem != 0 {
            return Err(NetError::Unaligned { len, elem });
        }
        let n: usize = len / elem;
        let mut out: Vec<i64> = Vec::new();
        let mut i: usize = 0;
        while i < n
            invariant
                i <= n,
                elem == 1 || elem == 2 || elem == 4,
                elem == self.bytes(),
                len == bytes@.len(),
                n * elem == len,
                out@.len() == i,
                forall|k: int|
                    0 <= k < i ==> #[trigger] out@[k] == element(bytes@, elem as int, k),
            decreases n - i,
        {
            proof {
                assert(0 <= i * elem && i * elem + elem <= n * elem) by (nonlinear_arith)
                    requires
                        i < n,
                        elem >= 0,
                ;
            }
            let v: i64 = read_signed_le(bytes, i * elem, elem);
            out.push(v);
            i += 1;
        }
        Ok(out)
    }
}

/// The factors and types of the five blocks: the transformer is stored in two bytes by `qa`, the
/// layer weights in one byte by `qb`, its bias and the shortcut in four bytes by both.
pub open spec fn block_target(block: NetBlock, qa: i16, qb: i16) -> QuantTarget {
    match block {
        NetBlock::FtWeights | NetBlock::FtBias => QuantTarget::I16(qa),
        NetBlock::L1Weights => QuantTarget::I8(qb),
        NetBlock::L1Bias | NetBlock::Psqt => QuantTarget::I32((qa * qb) as i32),
    }
}

/// The factor and type of a block.
pub fn target_of(block: NetBlock, qa: i16, qb: i16) -> (r: QuantTarget)
    ensures
        r == block_target(block, qa, qb),
{
    proof {
        assert(-0x4000_0000 <= qa as int * qb as int <= 0x4000_0000) by (nonlinear_arith)
            requires
                -0x8000 <= qa as int <= 0x7fff,
                -0x8000 <= qb as int <= 0x7fff,
        ;
    }
    match block {
        NetBlock::FtWeights | NetBlock::FtBias => QuantTarget::I16(qa),
        NetBlock::L1Weights => QuantTarget::I8(qb),
        NetBlock::L1Bias | NetBlock::Psqt => QuantTarget::I32(qa as i32 * qb as i32),
    }
}

/// A network whose weights were multiplied and rounded to integers.
#[derive(Debug)]
pub struct HalfKAPsqtNet {
    /// Input features.
    pub num_features: usize,
    /// Outputs of the feature transformer.
    pub ft_out_dim: usize,
    /// Outputs of the layer behind it.
    pub l1_out_dim: usize,
    /// Transformer weights, feature by feature.
    pub ft_weights: Vec<i64>,
    /// Transformer bias.
    pub ft_bias: Vec<i64>,
    /// Weights of the layer, for both sides.
    pub l1_weights: Vec<i64>,
    /// Bias of the layer.
    pub l1_bias: Vec<i64>,
    /// Shortcut value of each feature.
    pub psqt: Vec<i64>,
}

/// The number of weights in a block.
pub open spec fn block_len(block: NetBlock, num_features: int, ft_out: int, l1_out: int) -> int {
    match block {
        NetBlock::FtWeights => num_features * ft_out,
        NetBlock::FtBias => ft_out,
        NetBlock::L1Weights => ft_out * 2 * l1_out,
        NetBlock::L1Bias => l1_out,
        NetBlock::Psqt => num_features,
    }
}

/// The bytes of one integer of a block.
pub open spec fn block_width(block: NetBlock) -> int {
    match block {
        NetBlock::FtWeights | NetBlock::FtBias => 2,
        NetBlock::L1Weights => 1,
        NetBlock::L1Bias | NetBlock::Psqt => 4,
    }
}

/// Whether the numbers of weights that these dimensions ask for can be counted.
pub open spec fn blocks_fit(num_features: int, ft_out: int, l1_out: int) -> bool {
    &&& num_features * ft_out <= usize::MAX
    &&& ft_out * 2 <= usize::MAX
    &&& ft_out * 2 * l1_out <= usize::MAX
}

/// Whether the file of a network with these dimensions has a size at all.
pub open spec fn dims_fit(num_features: int, ft_out: int, l1_out: int) -> bool {
    net_file_len(num_features, ft_out, l1_out) <= usize::MAX
}

/// The size of the file of a network.
pub open spec fn net_file_len(num_features: int, ft_out: int, l1_out: int) -> int {
    HEADER_BYTES + 2 * (num_features * ft_out) + 2 * ft_out + ft_out * 2 * l1_out + 4 * l1_out + 4
        * num_features
}

impl HalfKAPsqtNet {
    /// The weights of a block.
    pub open spec fn block(&self, block: NetBlock) -> Seq<i64> {
        match block {
            NetBlock::FtWeights => self.ft_weights@,
            NetBlock::FtBias => self.ft_bias@,
            NetBlock::L1Weights => self.l1_weights@,
            NetBlock::L1Bias => self.l1_bias@,
            NetBlock::Psqt => self.psqt@,
        }
    }

    /// The weights that a block should have.
    pub open spec fn want(&self, block: NetBlock) -> int {
        block_len(
            block,
            self.num_features as int,
            self.ft_out_dim as int,
            self.l1_out_dim as int,
        )
    }

    /// The error of a block with the wrong number of weights.
    pub open spec fn length_error(&self, block: NetBlock) -> Option<NetError> {
        if self.block(block).len() != self.want(block) {
            Some(
                NetError::BlockLength {
                    block,
                    want: self.want(block) as usize,
                    got: self.block(block).len() as usize,
                },
            )
        } else {
            None
        }
    }

    /// The error of the first block, in file order, with the wrong number of weights.
    pub open spec fn shape_error(&self) -> Option<NetError> {
        if self.length_error(NetBlock::FtWeights) is Some {
            self.length_error(NetBlock::FtWeights)
        } else if self.length_error(NetBlock::FtBias) is Some {
            self.length_error(NetBlock::FtBias)
        } else if self.length_error(NetBlock::L1Weights) is Some {
            self.length_error(NetBlock::L1Weights)
        } else if self.length_error(NetBlock::L1Bias) is Some {
            self.length_error(NetBlock::L1Bias)
        } else {
            self.length_error(NetBlock::Psqt)
        }
    }

    /// A network of zeros.
    pub fn zeros(num_features: usize, ft_out_dim: usize, l1_out_dim: usize) -> (r: Self)
        requires
            blocks_fit(num_features as int, ft_out_dim as int, l1_out_dim as int),
        ensures
            r.num_features == num_features,
            r.ft_out_dim == ft_out_dim,
            r.l1_out_dim == l1_out_dim,
            r.shape_error() is None,
            forall|b: NetBlock, k: int|
                0 <= k < r.block(b).len() ==> #[trigger] r.block(b)[k] == 0,
    {
        proof {
            lemma_dims(num_features as int, ft_out_dim as int, l1_out_dim as int);
        }
        HalfKAPsqtNet {
            num_features,
            ft_out_dim,
            l1_out_dim,
            ft_weights: vec![0i64;num_features * ft_out_dim],
            ft_bias: vec![0i64;ft_out_dim],
            l1_weights: vec![0i64;ft_out_dim * 2 * l1_out_dim],
            l1_bias: vec![0i64;l1_out_dim],
            psqt: vec![0i64;num_features],
        }
    }

    /// Whether every block has the weights that the dimensions ask for.
    pub fn validate(&self) -> (r: Result<(), NetError>)
        requires
            blocks_fit(self.num_features as int, self.ft_out_dim as int, self.l1_out_dim as int),
        ensures
            r == match self.shape_error() {
                Some(e) => Err::<(), NetError>(e),
                None => Ok(()),
            },
    {
        proof {
            lemma_dims(
                self.num_features as int,
                self.ft_out_dim as int,
                self.l1_out_dim as int,
            );
        }
        if let Err(e) = check_len(
            NetBlock::FtWeights,
            self.ft_weights.len(),
            self.num_features * self.ft_out_dim,
        ) {
            return Err(e);
        }
        if let Err(e) = check_len(NetBlock::FtBias, self.ft_bias.len(), self.ft_out_dim) {
            return Err(e);
        }
        if let Err(e) = check_len(
            NetBlock::L1Weights,
            self.l1_weights.len(),
            self.ft_out_dim * 2 * self.l1_out_dim,
        ) {
            return Err(e);
        }
        if let Err(e) = check_len(NetBlock::L1Bias, self.l1_bias.len(), self.l1_out_dim) {
            return Err(e);
        }
        check_len(NetBlock::Psqt, self.psqt.len(), self.num_features)
    }

    /// The error of a block with a weight that does not fit its type.
    pub open spec fn range_error(&self, block: NetBlock, qa: i16, qb: i16) -> Option<NetError> {
        match first_misfit(self.block(block), block_width(block) as nat) {
            Some(k) => Some(
                NetError::OutOfRange { target: block_target(block, qa, qb), index: k as usize },
            ),
            None => None,
        }
    }

    /// The first error that storing the network gives, if it gives one.
    pub open spec fn save_error(&self, qa: i16, qb: i16) -> Option<NetError> {
        if self.shape_error() is Some {
            self.shape_error()
        } else if self.range_error(NetBlock::FtWeights, qa, qb) is Some {
            self.range_error(NetBlock::FtWeights, qa, qb)
        } else if self.range_error(NetBlock::FtBias, qa, qb) is Some {
            self.range_error(NetBlock::FtBias, qa, qb)
        } else if self.range_error(NetBlock::L1Weights, qa, qb) is Some {
            self.range_error(NetBlock::L1Weights, qa, qb)
        } else if self.range_error(NetBlock::L1Bias, qa, qb) is Some {
            self.range_error(NetBlock::L1Bias, qa, qb)
        } else {
            self.range_error(NetBlock::Psqt, qa, qb)
        }
    }

    /// The bytes of a block in the file.
    pub open spec fn stored(&self, block: NetBlock) -> Seq<u8> {
        block_bytes(self.block(block), block_width(block) as nat)
    }

    /// The bytes of the file.
    pub open spec fn file_bytes(&self, header: Seq<u8>) -> Seq<u8> {
        header + self.stored(NetBlock::FtWeights) + self.stored(NetBlock::FtBias) + self.stored(
            NetBlock::L1Weights,
        ) + self.stored(NetBlock::L1Bias) + self.stored(NetBlock::Psqt)
    }

    /// The file of the network: the header's bytes, then the five blocks.
    pub fn save_quantised(&self, header: &[u8], qa: i16, qb: i16) -> (r: Result<Vec<u8>, NetError>)
        requires
            blocks_fit(self.num_features as int, self.ft_out_dim as int, self.l1_out_dim as int),
        ensures
            match self.save_error(qa, qb) {
                Some(e) => r == Err::<Vec<u8>, NetError>(e),
                None => r is Ok && r->Ok_0@ == self.file_bytes(header@),
            },
    {
        if let Err(e) = self.validate() {
            return Err(e);
        }
        let mut out: Vec<u8> = Vec::new();
        out.extend_from_slice(header);
        assert(out@ =~= header@);
        let mut bytes = match target_of(NetBlock::FtWeights, qa, qb).quantise(
            self.ft_weights.as_slice(),
        ) {
            Ok(bytes) => bytes,
            Err(e) => {
                return Err(e);
            },
        };
        out.append(&mut bytes);
        let mut bytes = match target_of(NetBlock::FtBias, qa, qb).quantise(
            self.ft_bias.as_slice(),
        ) {
            Ok(bytes) => bytes,
            Err(e) => {
                return Err(e);
            },
        };
        out.append(&mut bytes);
        let mut bytes = match target_of(NetBlock::L1Weights, qa, qb).quantise(
            self.l1_weights.as_slice(),
        ) {
            Ok(bytes) => bytes,
            Err(e) => {
                return Err(e);
            },
        };
        out.append(&mut bytes);
        let mut bytes = match target_of(NetBlock::L1Bias, qa, qb).quantise(
            self.l1_bias.as_slice(),
        ) {
            Ok(bytes) => bytes,
            Err(e) => {
                return Err(e);
            },
        };
        out.append(&mut bytes);
        let mut bytes = match target_of(NetBlock::Psqt, qa, qb).quantise(self.psqt.as_slice()) {
            Ok(bytes) => bytes,
            Err(e) => {
                return Err(e);
            },
        };
        out.append(&mut bytes);
        Ok(out)
    }

    /// The network that a file holds behind its header. Bytes behind the last block are left
    /// alone.
    pub fn load(file: &[u8], num_features: usize, ft_out_dim: usize, l1_out_dim: usize) -> (r:
        Result<Self, NetError>)
        requires
            dims_fit(num_features as int, ft_out_dim as int, l1_out_dim as int),
        ensures
            if file@.len() < net_file_len(
                num_features as int,
                ft_out_dim as int,
                l1_out_dim as int,
            ) {
                r == Err::<Self, NetError>(NetError::Truncated)
            } else {
                &&& r is Ok
                &&& r->Ok_0.num_features == num_features
                &&& r->Ok_0.ft_out_dim == ft_out_dim
                &&& r->Ok_0.l1_out_dim == l1_out_dim
                &&& r->Ok_0.shape_error() is None
                &&& forall|b: NetBlock| #[trigger] holds_block(file@, r->Ok_0, b)
            },
    {
        proof {
            lemma_dims(num_features as int, ft_out_dim as int, l1_out_dim as int);
        }
        let n_ft: usize = num_features * ft_out_dim;
        let n_l1: usize = ft_out_dim * 2 * l1_out_dim;
        let at_bias: usize = HEADER_BYTES + 2 * n_ft;
        let at_l1: usize = at_bias + 2 * ft_out_dim;
        let at_l1_bias: usize = at_l1 + n_l1;
        let at_psqt: usize = at_l1_bias + 4 * l1_out_dim;
        let end: usize = at_psqt + 4 * num_features;
        if file.len() < end {
            return Err(NetError::Truncated);
        }
        let ft_weights = read_block(file, HEADER_BYTES, n_ft, 2);
        let ft_bias = read_block(file, at_bias, ft_out_dim, 2);
        let l1_weights = read_block(file, at_l1, n_l1, 1);
        let l1_bias = read_block(file, at_l1_bias, l1_out_dim, 4);
        let psqt = read_block(file, at_psqt, num_features, 4);
        let net = HalfKAPsqtNet {
            num_features,
            ft_out_dim,
            l1_out_dim,
            ft_weights,
            ft_bias,
            l1_weights,
            l1_bias,
            psqt,
        };
        assert forall|b: NetBlock| #[trigger] holds_block(file@, net, b) by {
            match b {
                NetBlock::FtWeights => {},
                NetBlock::FtBias => {},
                NetBlock::L1Weights => {},
                NetBlock::L1Bias => {},
                NetBlock::Psqt => {},
            }
        }
        Ok(net)
    }
}

/// Where a block starts in the file.
pub open spec fn block_start(block: NetBlock, num_features: int, ft_out: int, l1_out: int) -> int {
    match block {
        NetBlock::FtWeights => HEADER_BYTES as int,
        NetBlock::FtBias => HEADER_BYTES + 2 * (num_features * ft_out),
        NetBlock::L1Weights => HEADER_BYTES + 2 * (num_features * ft_out) + 2 * ft_out,
        NetBlock::L1Bias => HEADER_BYTES + 2 * (num_features * ft_out) + 2 * ft_out + ft_out * 2
            * l1_out,
        NetBlock::Psqt => HEADER_BYTES + 2 * (num_features * ft_out) + 2 * ft_out + ft_out * 2
            * l1_out + 4 * l1_out,
    }
}

/// Whether a file holds a block of a network at its place.
pub open spec fn holds_block(file: Seq<u8>, net: HalfKAPsqtNet, block: NetBlock) -> bool {
    let at = block_start(
        block,
        net.num_features as int,
        net.ft_out_dim as int,
        net.l1_out_dim as int,
    );
    let w = block_width(block);
    forall|k: int|
        0 <= k < net.block(block).len() ==> #[trigger] net.block(block)[k] == le_signed(
            file.subrange(at + k * w, at + k * w + w),
        )
}

fn check_len(block: NetBlock, got: usize, want: usize) -> (r: Result<(), NetError>)
    ensures
        r == if got != want {
            Err::<(), NetError>(NetError::BlockLength { block, want, got })
        } else {
            Ok(())
        },
{
    if got != want {
        return Err(NetError::BlockLength { block, want, got });
    }
    Ok(())
}

/// The integers of a block.
fn read_block(file: &[u8], at: usize, count: usize, width: usize) -> (r: Vec<i64>)
    requires
        width == 1 || width == 2 || width == 4,
        at + count * width <= file@.len(),
    ensures
        r@.len() == count,
        forall|k: int|
            0 <= k < count ==> #[trigger] r@[k] == le_signed(
                file@.subrange(at + k * width, at + k * width + width),
            ),
{
    let len: usize = file.len();
    let mut out: Vec<i64> = Vec::new();
    let mut i: usize = 0;
    while i < count
        invariant
            i <= count,
            width == 1 || width == 2 || width == 4,
            len == file@.len(),
            at + count * width <= len,
            out@.len() == i,
            forall|k: int|
                0 <= k < i ==> #[trigger] out@[k] == le_signed(
                    file@.subrange(at + k * width, at + k * width + width),
                ),
        decreases count - i,
    {
        proof {
            assert(0 <= i * width && i * width + width <= count * width) by (nonlinear_arith)
                requires
                    i < count,
                    width >= 0,
            ;
        }
        let v: i64 = read_signed_le(file, at + i * width, width);
        out.push(v);
        i += 1;
    }
    out
}

proof fn lemma_dims(num_features: int, ft_out: int, l1_out: int)
    requires
        0 <= num_features,
        0 <= ft_out,
        0 <= l1_out,
    ensures
        0 <= num_features * ft_out,
        0 <= ft_out * 2,
        0 <= ft_out * 2 * l1_out,
        l1_out > 0 ==> ft_out * 2 <= ft_out * 2 * l1_out,
        2 * ft_out <= net_file_len(num_features, ft_out, l1_out),
{
    assert(0 <= num_features * ft_out) by (nonlinear_arith)
        requires
            0 <= num_features,
            0 <= ft_out,
    ;
    assert(0 <= ft_out * 2 * l1_out) by (nonlinear_arith)
        requires
            0 <= ft_out,
            0 <= l1_out,
    ;
    assert(l1_out > 0 ==> ft_out * 2 <= ft_out * 2 * l1_out) by (nonlinear_arith)
        requires
            0 <= ft_out,
            0 <= l1_out,
    ;
}

/// A stored block stands in the file at its place.
proof fn lemma_block_in_file(
    before: Seq<u8>,
    values: Seq<i64>,
    after: Seq<u8>,
    w: nat,
    k: int,
)
    requires
        w > 0,
        all_fit(values, w),
        0 <= k < values.len(),
    ensures
        ({
            let at = before.len() as int;
            let file = before + block_bytes(values, w) + after;
            le_signed(file.subrange(at + k * w, at + k * w + w)) == values[k]
        }),
{
    let at = before.len() as int;
    let b = block_bytes(values, w);
    let file = before + b + after;
    lemma_block_bytes(values, w);
    assert(0 <= k * w && k * w + w <= values.len() * w) by (nonlinear_arith)
        requires
            0 <= k < values.len(),
            w > 0,
    ;
    assert(file.subrange(at + k * w, at + k * w + w) =~= b.subrange(k * w, k * w + w));
    assert(element(b, w as int, k) == values[k]);
}

/// Loading a stored network gives back every weight: whatever a file that was saved without error
/// is loaded as has the blocks of the network that was saved, and the file is long enough.
pub proof fn load_gives_back_what_was_saved(
    net: HalfKAPsqtNet,
    header: Seq<u8>,
    qa: i16,
    qb: i16,
    loaded: HalfKAPsqtNet,
)
    requires
        net.save_error(qa, qb) is None,
        header.len() == HEADER_BYTES,
        loaded.num_features == net.num_features,
        loaded.ft_out_dim == net.ft_out_dim,
        loaded.l1_out_dim == net.l1_out_dim,
        loaded.shape_error() is None,
        forall|b: NetBlock| #[trigger] holds_block(net.file_bytes(header), loaded, b),
    ensures
        net.file_bytes(header).len() == net_file_len(
            net.num_features as int,
            net.ft_out_dim as int,
            net.l1_out_dim as int,
        ),
        forall|b: NetBlock| #[trigger] loaded.block(b) == net.block(b),
{
    let file = net.file_bytes(header);
    let s1 = net.stored(NetBlock::FtWeights);
    let s2 = net.stored(NetBlock::FtBias);
    let s3 = net.stored(NetBlock::L1Weights);
    let s4 = net.stored(NetBlock::L1Bias);
    let s5 = net.stored(NetBlock::Psqt);
    assert forall|b: NetBlock| all_fit(#[trigger] net.block(b), block_width(b) as nat) by {
        lemma_first_misfit(net.block(b), block_width(b) as nat);
        match b {
            NetBlock::FtWeights => {
                assert(net.range_error(NetBlock::FtWeights, qa, qb) is None);
            },
            NetBlock::FtBias => {
                assert(net.range_error(NetBlock::FtBias, qa, qb) is None);
            },
            NetBlock::L1Weights => {
                assert(net.range_error(NetBlock::L1Weights, qa, qb) is None);
            },
            NetBlock::L1Bias => {
                assert(net.range_error(NetBlock::L1Bias, qa, qb) is None);
            },
            NetBlock::Psqt => {
                assert(net.range_error(NetBlock::Psqt, qa, qb) is None);
            },
        }
    }
    lemma_block_bytes(net.block(NetBlock::FtWeights), 2);
    lemma_block_bytes(net.block(NetBlock::FtBias), 2);
    lemma_block_bytes(net.block(NetBlock::L1Weights), 1);
    lemma_block_bytes(net.block(NetBlock::L1Bias), 4);
    lemma_block_bytes(net.block(NetBlock::Psqt), 4);
    assert forall|b: NetBlock| #[trigger] loaded.block(b) == net.block(b) by {
        let (before, after) = match b {
            NetBlock::FtWeights => (header, s2 + s3 + s4 + s5),
            NetBlock::FtBias => (header + s1, s3 + s4 + s5),
            NetBlock::L1Weights => (header + s1 + s2, s4 + s5),
            NetBlock::L1Bias => (header + s1 + s2 + s3, s5),
            NetBlock::Psqt => (header + s1 + s2 + s3 + s4, Seq::<u8>::empty()),
        };
        let values = net.block(b);
        let w = block_width(b) as nat;
        assert(file =~= before + block_bytes(values, w) + after);
        assert(before.len() == block_start(
            b,
            net.num_features as int,
            net.ft_out_dim as int,
            net.l1_out_dim as int,
        ));
        assert(loaded.length_error(b) is None);
        assert(net.length_error(b) is None);
        assert(holds_block(file, loaded, b));
        assert forall|k: int| 0 <= k < values.len() implies loaded.block(b)[k] == values[k] by {
            lemma_block_in_file(before, values, after, w, k);
            assert(loaded.block(b)[k] == le_signed(
                file.subrange(before.len() + k * w, before.len() + k * w + w),
            ));
        }
        assert(loaded.block(b) =~= values);
    }
}

proof fn lemma_bytes_of_elements(bytes: Seq<u8>, values: Seq<i64>, n: nat)
    requires
        n > 0,
        bytes.len() == values.len() * n,
        forall|k: int|
            0 <= k < values.len() ==> #[trigger] values[k] == element(bytes, n as int, k),
    ensures
        first_misfit(values, n) is None,
        block_bytes(values, n) == bytes,
    decreases values.len(),
{
    if values.len() == 0 {
        assert(0 * n == 0) by (nonlinear_arith);
        assert(block_bytes(values, n) =~= bytes);
    } else {
        let m = values.len() - 1;
        let rest = values.drop_last();
        assert((m + 1) * n == m * n + n) by (nonlinear_arith);
        assert(0 <= m * n) by (nonlinear_arith)
            requires
                m >= 0,
        ;
        let front = bytes.take(m * n);
        assert forall|k: int| 0 <= k < rest.len() implies #[trigger] rest[k] == element(
            front,
            n as int,
            k,
        ) by {
            assert(0 <= k * n && k * n + n <= m * n) by (nonlinear_arith)
                requires
                    0 <= k < m,
                    n > 0,
            ;
            assert(rest[k] == values[k]);
            assert(front.subrange(k * n, k * n + n) =~= bytes.subrange(k * n, k * n + n));
        }
        lemma_bytes_of_elements(front, rest, n);
        let last = bytes.subrange(m * n, m * n + n);
        le_bytes_round_trip(last);
        assert(values.last() == values[m]);
        assert(front + last =~= bytes);
    }
}

/// Integers read from bytes are stored as the same bytes again, whatever their type: reading is
/// undone by storing, and none of them is out of range.
pub proof fn storing_gives_back_what_was_read(
    target: QuantTarget,
    bytes: Seq<u8>,
    values: Seq<i64>,
)
    requires
        bytes.len() as int % target.bytes() == 0,
        values.len() == bytes.len() as int / target.bytes(),
        forall|k: int|
            0 <= k < values.len() ==> #[trigger] values[k] == element(bytes, target.bytes(), k),
    ensures
        first_misfit(values, target.bytes() as nat) is None,
        block_bytes(values, target.bytes() as nat) == bytes,
{
    let n = target.bytes();
    assert(bytes.len() == values.len() * n) by (nonlinear_arith)
        requires
            n > 0,
            bytes.len() as int % n == 0,
            values.len() == bytes.len() as int / n,
    ;
    lemma_bytes_of_elements(bytes, values, n as nat);
}

/// How a network file is laid out: the blocks follow the header one behind the other, the feature
/// weights and biases as 16-bit numbers, the layer's weights as bytes, and its biases and the
/// shortcut as 32-bit numbers. There is a row of accumulator weights for each feature, a weight of
/// each output for the accumulators of both sides, and one shortcut value for each feature.
pub proof fn blocks_follow_each_other(num_features: int, ft_out: int, l1_out: int)
    ensures
        ({
            let start = |b: NetBlock| block_start(b, num_features, ft_out, l1_out);
            let size = |b: NetBlock|
                block_width(b) * block_len(b, num_features, ft_out, l1_out);
            &&& start(NetBlock::FtWeights) == 22
            &&& start(NetBlock::FtBias) == 22 + size(NetBlock::FtWeights)
            &&& start(NetBlock::L1Weights) == start(NetBlock::FtBias) + size(NetBlock::FtBias)
            &&& start(NetBlock::L1Bias) == start(NetBlock::L1Weights) + size(NetBlock::L1Weights)
            &&& start(NetBlock::Psqt) == start(NetBlock::L1Bias) + size(NetBlock::L1Bias)
            &&& net_file_len(num_features, ft_out, l1_out) == start(NetBlock::Psqt) + size(
                NetBlock::Psqt,
            )
        }),
        block_len(NetBlock::FtWeights, num_features, ft_out, l1_out) == num_features * ft_out,
        block_len(NetBlock::FtBias, num_features, ft_out, l1_out) == ft_out,
        block_len(NetBlock::L1Weights, num_features, ft_out, l1_out) == 2 * ft_out * l1_out,
        block_len(NetBlock::L1Bias, num_features, ft_out, l1_out) == l1_out,
        block_len(NetBlock::Psqt, num_features, ft_out, l1_out) == num_features,
        forall|b: NetBlock, qa: i16, qb: i16|
            block_width(b) == #[trigger] block_target(b, qa, qb).bytes(),
{
    assert(ft_out * 2 * l1_out == 2 * ft_out * l1_out) by (nonlinear_arith);
}

/// The numbers of each block and their scale: 16-bit ones by `qa`, bytes by `qb`, 32-bit ones by
/// both; and what fits into them.
pub proof fn blocks_have_their_scale(qa: i16, qb: i16, v: int)
    ensures
        block_target(NetBlock::FtWeights, qa, qb) == QuantTarget::I16(qa),
        block_target(NetBlock::FtBias, qa, qb) == QuantTarget::I16(qa),
        block_target(NetBlock::L1Weights, qa, qb) == QuantTarget::I8(qb),
        block_target(NetBlock::L1Bias, qa, qb) matches QuantTarget::I32(q) && q == qa * qb,
        block_target(NetBlock::Psqt, qa, qb) matches QuantTarget::I32(q) && q == qa * qb,
        fits(v, QuantTarget::I8(qb).bytes() as nat) <==> -128 <= v <= 127,
        fits(v, QuantTarget::I16(qa).bytes() as nat) <==> -32768 <= v <= 32767,
        fits(v, QuantTarget::I32(0).bytes() as nat) <==> -2147483648 <= v <= 2147483647,
{
    lemma_pow256();
    assert(-1073741824 <= qa * qb <= 1073741824) by (nonlinear_arith)
        requires
            -32768 <= qa <= 32767,
            -32768 <= qb <= 32767,
    ;
}

/// A block is refused for its first number that does not fit, and taken where all of them fit.
pub proof fn the_first_misfit_is_told(values: Seq<i64>, n: nat)
    ensures
        match first_misfit(values, n) {
            Some(k) => {
                &&& 0 <= k < values.len()
                &&& !fits(values[k] as int, n)
                &&& forall|j: int| 0 <= j < k ==> fits(#[trigger] values[j] as int, n)
            },
            None => forall|j: int| 0 <= j < values.len() ==> fits(#[trigger] values[j] as int, n),
        },
    decreases values.len(),
{
    if values.len() > 0 {
        let front = values.drop_last();
        the_first_misfit_is_told(front, n);
        assert forall|j: int|
            0 <= j < front.len() && fits(front[j] as int, n) implies fits(
            #[trigger] values[j] as int,
            n,
        ) by {
            assert(front[j] == values[j]);
        }
        if first_misfit(front, n) is Some {
            let k = first_misfit(front, n)->Some_0;
            assert(front[k] == values[k]);
            assert forall|j: int| 0 <= j < k implies fits(#[trigger] values[j] as int, n) by {
                assert(front[j] == values[j]);
            }
        } else {
            assert forall|j: int| 0 <= j < front.len() implies fits(
                #[trigger] values[j] as int,
                n,
            ) by {
                assert(front[j] == values[j]);
            }
        }
    }
}

} // verus!
