//! Reading the network file of another engine: a header that names the architecture, two packed
//! tensors for the feature transformer, and nine stacks of dense layers.

use vstd::prelude::*;
use vstd::string::*;
use vstd::utf8::*;

use crate::error::ErrorKind;
use crate::le::{le_signed, le_value, lemma_pow256, lemma_value_bound, read_le, read_signed_le};
use crate::sidecar::error_is;
use crate::text::{
    decimal, hex_byte, hex_gives_back_the_bytes, hex_text, lemma_hex_byte_injective, lemma_sums,
    nibble, push_decimal, push_hex_byte,
};
use crate::window::LoadError;

verus! {

pub const YO_VERSION: u32 = 0x7af3_2f16;

pub const YO_TOP_HASH: u32 = 0x3c20_3b32;

pub const YO_FT_HASH: u32 = 0x5f13_4ab8;

pub const YO_NETWORK_HASH: u32 = 0x6333_718a;

pub const YO_ARCH: &'static str = "ModelType=SFNNWithoutPsqt;Features=HalfKA_hm2(Friend)[73305->1536x2],Network=SFNN-1536{LayerStack=9}";

pub const YO_ARCH_V2: &'static str = "ModelType=SFNNWithoutPsqt;Features=HalfKA_hm2(Friend)[73305->1536x2],Network=SFNN-1536-V2{LayerStack=9}";

/// A byte that some writers put before the packed tensors: an underscore.
pub const YO_LEB128_PREFIX: u8 = 95;

/// The longest architecture text.
pub const MAX_ARCH_LEN: u32 = 16384;

/// Outputs of the feature transformer.
pub const DEFAULT_FT_OUT: usize = 1536;

/// Outputs of the first dense layer.
pub const DEFAULT_L1_OUT: usize = 16;

/// Inputs of the second dense layer: the outputs of the first but one, twice.
pub const L2_IN: usize = 30;

/// Outputs of the second dense layer.
pub const DEFAULT_L2_OUT: usize = 32;

/// Stacks of dense layers.
pub const DEFAULT_NUM_BUCKETS: usize = 9;

/// Bytes of one stack with its hash.
pub const STACK_BYTES: usize = 25832;

/// The text of a data error that comes from a short file.
pub open spec fn eof_text() -> Seq<char> {
    "failed to fill whole buffer"@
}

/// The eight hexadecimal digits of a word.
pub open spec fn hex_word(v: u32) -> Seq<char> {
    hex_byte((v / 0x100_0000) as u8) + hex_byte((v / 0x1_0000 % 0x100) as u8) + hex_byte(
        (v / 0x100 % 0x100) as u8,
    ) + hex_byte((v % 0x100) as u8)
}

/// Different words have different digits.
pub proof fn lemma_hex_word_injective(a: u32, b: u32)
    requires
        hex_word(a) == hex_word(b),
    ensures
        a == b,
{
    let (a1, b1) = ((a / 0x100_0000) as u8, (b / 0x100_0000) as u8);
    let (a2, b2) = ((a / 0x1_0000 % 0x100) as u8, (b / 0x1_0000 % 0x100) as u8);
    let (a3, b3) = ((a / 0x100 % 0x100) as u8, (b / 0x100 % 0x100) as u8);
    let (a4, b4) = ((a % 0x100) as u8, (b % 0x100) as u8);
    let (x, y) = (hex_byte(a1) + hex_byte(a2), hex_byte(b1) + hex_byte(b2));
    lemma_sums(x + hex_byte(a3), hex_byte(a4), y + hex_byte(b3), hex_byte(b4));
    lemma_sums(x, hex_byte(a3), y, hex_byte(b3));
    lemma_sums(hex_byte(a1), hex_byte(a2), hex_byte(b1), hex_byte(b2));
    lemma_hex_byte_injective(a1, b1);
    lemma_hex_byte_injective(a2, b2);
    lemma_hex_byte_injective(a3, b3);
    lemma_hex_byte_injective(a4, b4);
}

pub fn push_hex_word(out: &mut String, v: u32)
    ensures
        final(out)@ == old(out)@ + hex_word(v),
{
    push_hex_byte(out, (v / 0x100_0000) as u8);
    push_hex_byte(out, (v / 0x1_0000 % 0x100) as u8);
    push_hex_byte(out, (v / 0x100 % 0x100) as u8);
    push_hex_byte(out, (v % 0x100) as u8);
    assert(out@ =~= old(out)@ + hex_word(v));
}

/// The text for a word that is not the one expected.
pub open spec fn mismatch_text(field: Seq<char>, expected: u32, actual: u32) -> Seq<char> {
    field + " mismatch: expected 0x"@ + hex_word(expected) + ", got 0x"@ + hex_word(actual)
}

/// An error of bad data.
pub fn invalid_data(message: String) -> (r: LoadError)
    ensures
        error_is(r, ErrorKind::InvalidData, message@),
{
    LoadError { kind: ErrorKind::InvalidData, message }
}

/// An error of a bad argument.
pub fn invalid_input(message: String) -> (r: LoadError)
    ensures
        error_is(r, ErrorKind::InvalidInput, message@),
{
    LoadError { kind: ErrorKind::InvalidInput, message }
}

fn short_file() -> (r: LoadError)
    ensures
        error_is(r, ErrorKind::UnexpectedEof, eof_text()),
{
    LoadError {
        kind: ErrorKind::UnexpectedEof,
        message: "failed to fill whole buffer".to_owned(),
    }
}

/// The file does not say how positions are routed to stacks, so the caller has to.
pub fn require_kingrank9_assertion(assume_kingrank9: bool) -> (r: Result<(), LoadError>)
    ensures
        assume_kingrank9 ==> r == Ok::<(), LoadError>(()),
        !assume_kingrank9 ==> r is Err && error_is(
            r->Err_0,
            ErrorKind::InvalidInput,
            "YaneuraOu SFNN files do not identify the bucket routing rule; pass --assume-kingrank9 only after confirming that the net uses king-rank routing"@,
        ),
{
    if !assume_kingrank9 {
        return Err(
            invalid_input(
                "YaneuraOu SFNN files do not identify the bucket routing rule; pass --assume-kingrank9 only after confirming that the net uses king-rank routing".to_owned(),
            ),
        );
    }
    Ok(())
}

/// The word at `at`.
pub open spec fn word_at(file: Seq<u8>, at: int) -> u32 {
    le_value(file.subrange(at, at + 4)) as u32
}

/// The next unsigned word.
pub fn read_u32(file: &[u8], at: usize) -> (r: Result<u32, LoadError>)
    ensures
        at + 4 <= file@.len() ==> r == Ok::<u32, LoadError>(word_at(file@, at as int)),
        at + 4 > file@.len() ==> r is Err && error_is(
            r->Err_0,
            ErrorKind::UnexpectedEof,
            eof_text(),
        ),
{
    let len: usize = file.len();
    if len < 4 || at > len - 4 {
        return Err(short_file());
    }
    proof {
        lemma_pow256();
    }
    let v: u64 = read_le(file, at, 4);
    Ok(v as u32)
}

/// The next signed word.
pub fn read_i32(file: &[u8], at: usize) -> (r: Result<i32, LoadError>)
    ensures
        at + 4 <= file@.len() ==> r == Ok::<i32, LoadError>(
            le_signed(file@.subrange(at as int, at + 4)) as i32,
        ),
        at + 4 > file@.len() ==> r is Err && error_is(
            r->Err_0,
            ErrorKind::UnexpectedEof,
            eof_text(),
        ),
{
    let len: usize = file.len();
    if len < 4 || at > len - 4 {
        return Err(short_file());
    }
    proof {
        lemma_pow256();
    }
    let v: i64 = read_signed_le(file, at, 4);
    Ok(v as i32)
}

/// What a word that has to be `expected` gives: nothing, or an error.
pub open spec fn word_fault(file: Seq<u8>, at: int, expected: u32, field: Seq<char>) -> Option<
    (ErrorKind, Seq<char>),
> {
    if at + 4 > file.len() {
        Some((ErrorKind::UnexpectedEof, eof_text()))
    } else if word_at(file, at) != expected {
        Some((ErrorKind::InvalidData, mismatch_text(field, expected, word_at(file, at))))
    } else {
        None
    }
}

/// Whether a result is the given fault, or success where there is none.
pub open spec fn faults_with<T>(r: Result<T, LoadError>, fault: Option<(ErrorKind, Seq<char>)>) -> bool {
    match fault {
        Some((kind, text)) => r is Err && error_is(r->Err_0, kind, text),
        None => r is Ok,
    }
}

/// The next word has to be `expected`.
pub fn expect_u32(file: &[u8], at: usize, expected: u32, field: &str) -> (r: Result<(), LoadError>)
    ensures
        faults_with(r, word_fault(file@, at as int, expected, field@)),
{
    let actual: u32 = match read_u32(file, at) {
        Ok(v) => v,
        Err(e) => {
            return Err(e);
        },
    };
    if actual != expected {
        let mut out = field.to_owned();
        out.append(" mismatch: expected 0x");
        push_hex_word(&mut out, expected);
        out.append(", got 0x");
        push_hex_word(&mut out, actual);
        return Err(invalid_data(out));
    }
    Ok(())
}

/// Nothing may follow the last stack.
pub fn reject_trailing_data(file: &[u8], at: usize) -> (r: Result<(), LoadError>)
    ensures
        at >= file@.len() ==> r == Ok::<(), LoadError>(()),
        at < file@.len() ==> r is Err && error_is(
            r->Err_0,
            ErrorKind::InvalidData,
            "YaneuraOu input has trailing data after the expected 9 LayerStacks"@,
        ),
{
    if at < file.len() {
        return Err(
            invalid_data(
                "YaneuraOu input has trailing data after the expected 9 LayerStacks".to_owned(),
            ),
        );
    }
    Ok(())
}

/// Where the packed tensors start: behind a prefix byte, where there is one.
pub open spec fn after_prefix(file: Seq<u8>, at: int) -> int {
    if at < file.len() && file[at] == YO_LEB128_PREFIX {
        at + 1
    } else {
        at
    }
}

/// Skips the prefix byte, where there is one.
pub fn consume_optional_leb128_prefix(file: &[u8], at: usize) -> (r: usize)
    ensures
        r == after_prefix(file@, at as int),
{
    if at < file.len() && file[at] == YO_LEB128_PREFIX {
        at + 1
    } else {
        at
    }
}

/// What `std::str::from_utf8` says of bytes that are no UTF-8, as text.
pub uninterp spec fn utf8_fault(bytes: Seq<u8>) -> Seq<char>;

/// The text that bytes hold, by `std::str::from_utf8`: the text whose UTF-8 form the bytes are,
/// and where they are none, the displayed error of that function.
#[verifier::external_body]
fn utf8_text(bytes: &[u8]) -> (r: Result<String, String>)
    ensures
        r is Ok <==> valid_utf8(bytes@),
        r matches Ok(text) ==> encode_utf8(text@) == bytes@,
        r matches Err(fault) ==> fault@ == utf8_fault(bytes@),
{
    match std::str::from_utf8(bytes) {
        Ok(text) => Ok(text.to_owned()),
        Err(e) => Err(e.to_string()),
    }
}

/// The text that valid bytes hold.
pub open spec fn text_of(bytes: Seq<u8>) -> Seq<char> {
    decode_utf8(bytes)
}

/// Whether an architecture text names a network that can be read.
pub open spec fn arch_known(arch: Seq<char>) -> bool {
    arch == YO_ARCH@ || arch == YO_ARCH_V2@
}

/// The error that the header gives, if it gives one. The first that applies is reported.
pub open spec fn header_fault(file: Seq<u8>) -> Option<(ErrorKind, Seq<char>)> {
    let arch_len = word_at(file, 8);
    let arch = file.subrange(12, 12 + arch_len);
    if word_fault(file, 0, YO_VERSION, "version"@) is Some {
        word_fault(file, 0, YO_VERSION, "version"@)
    } else if word_fault(file, 4, YO_TOP_HASH, "top-level hash"@) is Some {
        word_fault(file, 4, YO_TOP_HASH, "top-level hash"@)
    } else if file.len() < 12 {
        Some((ErrorKind::UnexpectedEof, eof_text()))
    } else if arch_len == 0 || arch_len > MAX_ARCH_LEN {
        Some(
            (
                ErrorKind::InvalidData,
                "invalid architecture string length: "@ + decimal(arch_len as nat),
            ),
        )
    } else if file.len() < 12 + arch_len {
        Some((ErrorKind::UnexpectedEof, eof_text()))
    } else if !valid_utf8(arch) {
        Some(
            (ErrorKind::InvalidData, "architecture string is not UTF-8: "@ + utf8_fault(arch)),
        )
    } else if !arch_known(text_of(arch)) {
        Some(
            (
                ErrorKind::InvalidData,
                "unsupported YaneuraOu architecture: `"@ + text_of(arch)
                    + "`; expected SFNN-1536 or SFNN-1536-V2"@,
            ),
        )
    } else {
        word_fault(file, 12 + arch_len, YO_FT_HASH, "feature-transformer hash"@)
    }
}

/// Where the packed tensors start in a file with a good header.
pub open spec fn tensors_start(file: Seq<u8>) -> int {
    after_prefix(file, 16 + word_at(file, 8))
}

/// Whether the decoded architecture text, or the fault that stood against decoding it, is that of a
/// network that can be read.
pub fn check_arch(decoded: Result<String, String>) -> (r: Result<(), LoadError>)
    ensures
        match decoded {
            Err(fault) => r is Err && error_is(
                r->Err_0,
                ErrorKind::InvalidData,
                "architecture string is not UTF-8: "@ + fault@,
            ),
            Ok(arch) => if arch_known(arch@) {
                r == Ok::<(), LoadError>(())
            } else {
                r is Err && error_is(
                    r->Err_0,
                    ErrorKind::InvalidData,
                    "unsupported YaneuraOu architecture: `"@ + arch@
                        + "`; expected SFNN-1536 or SFNN-1536-V2"@,
                )
            },
        },
{
    match decoded {
        Err(fault) => {
            let mut out = "architecture string is not UTF-8: ".to_owned();
            out.append(fault.as_str());
            Err(invalid_data(out))
        },
        Ok(arch) => {
            if arch != YO_ARCH.to_owned() && arch != YO_ARCH_V2.to_owned() {
                let mut out = "unsupported YaneuraOu architecture: `".to_owned();
                out.append(arch.as_str());
                out.append("`; expected SFNN-1536 or SFNN-1536-V2");
                return Err(invalid_data(out));
            }
            Ok(())
        },
    }
}

/// Checks the header and finds the packed tensors.
pub fn read_yo_header(file: &[u8]) -> (r: Result<usize, LoadError>)
    ensures
        faults_with(r, header_fault(file@)),
        r matches Ok(at) ==> at == tensors_start(file@),
{
    if let Err(e) = expect_u32(file, 0, YO_VERSION, "version") {
        return Err(e);
    }
    if let Err(e) = expect_u32(file, 4, YO_TOP_HASH, "top-level hash") {
        return Err(e);
    }
    let arch_len: u32 = match read_u32(file, 8) {
        Ok(v) => v,
        Err(e) => {
            return Err(e);
        },
    };
    if arch_len == 0 || arch_len > MAX_ARCH_LEN {
        let mut out = "invalid architecture string length: ".to_owned();
        push_decimal(&mut out, arch_len as u64);
        return Err(invalid_data(out));
    }
    let end: usize = 12 + arch_len as usize;
    if file.len() < end {
        return Err(short_file());
    }
    let bytes = vstd::slice::slice_subrange(file, 12, end);
    let decoded = utf8_text(bytes);
    proof {
        if decoded is Ok {
            encode_utf8_decode_utf8(decoded->Ok_0@);
        }
    }
    if let Err(e) = check_arch(decoded) {
        return Err(e);
    }
    if let Err(e) = expect_u32(file, end, YO_FT_HASH, "feature-transformer hash") {
        return Err(e);
    }
    Ok(consume_optional_leb128_prefix(file, end + 4))
}

/// The bytes of a row of weights: padded to a multiple of 32.
pub open spec fn row_bytes(inputs: int) -> int {
    (inputs + 31) / 32 * 32
}

/// The bytes of a row of weights: padded to a multiple of 32.
pub fn pad32(inputs: usize) -> (r: usize)
    requires
        inputs <= usize::MAX - 31,
    ensures
        r == row_bytes(inputs as int),
        r >= inputs,
{
    (inputs + 31) / 32 * 32
}

/// A dense layer in integers: biases, and weights output by output.
#[derive(Debug)]
pub struct Affine {
    pub biases: Vec<i32>,
    pub weights: Vec<i8>,
}

/// The bytes of a dense layer.
pub open spec fn affine_bytes(inputs: int, outputs: int) -> int {
    4 * outputs + outputs * row_bytes(inputs)
}

/// The bias of output `o` of a dense layer at `at`.
pub open spec fn bias_at(file: Seq<u8>, at: int, o: int) -> i32 {
    le_signed(file.subrange(at + 4 * o, at + 4 * o + 4)) as i32
}

/// A byte as a signed number.
pub open spec fn signed_byte(b: u8) -> i8 {
    if b < 0x80 {
        b as i8
    } else {
        (b - 0x100) as i8
    }
}

/// The weight from input `i` to output `o` of a dense layer at `at`. The padding of the rows is
/// skipped.
pub open spec fn weight_at(
    file: Seq<u8>,
    at: int,
    inputs: int,
    outputs: int,
    o: int,
    i: int,
) -> i8 {
    signed_byte(file[at + 4 * outputs + o * row_bytes(inputs) + i])
}

/// Whether a dense layer holds what stands in the file at `at`.
pub open spec fn affine_holds(
    file: Seq<u8>,
    at: int,
    inputs: int,
    outputs: int,
    biases: Seq<i32>,
    weights: Seq<i8>,
) -> bool {
    &&& biases.len() == outputs
    &&& weights.len() == outputs * inputs
    &&& forall|o: int| 0 <= o < outputs ==> #[trigger] biases[o] == bias_at(file, at, o)
    &&& forall|o: int, i: int|
        0 <= o < outputs && 0 <= i < inputs ==> #[trigger] weights[o * inputs + i] == weight_at(
            file,
            at,
            inputs,
            outputs,
            o,
            i,
        )
}

proof fn lemma_row(o: int, outputs: int, width: int)
    by (nonlinear_arith)
    requires
        0 <= o < outputs,
        0 <= width,
    ensures
        0 <= o * width,
        o * width + width <= outputs * width,
        (o + 1) * width == o * width + width,
{
}

/// Reads a dense layer.
pub fn read_affine(file: &[u8], at: usize, inputs: usize, outputs: usize) -> (r: Result<
    Affine,
    LoadError,
>)
    requires
        inputs <= usize::MAX - 31,
        affine_bytes(inputs as int, outputs as int) <= usize::MAX,
    ensures
        at + affine_bytes(inputs as int, outputs as int) > file@.len() ==> r is Err && error_is(
            r->Err_0,
            ErrorKind::UnexpectedEof,
            eof_text(),
        ),
        at + affine_bytes(inputs as int, outputs as int) <= file@.len() ==> r is Ok
            && affine_holds(
            file@,
            at as int,
            inputs as int,
            outputs as int,
            r->Ok_0.biases@,
            r->Ok_0.weights@,
        ),
{
    let len: usize = file.len();
    let row: usize = pad32(inputs);
    proof {
        assert(affine_bytes(inputs as int, outputs as int) == 4 * outputs + outputs as int
            * row as int);
        assert(0 <= outputs as int * row as int) by (nonlinear_arith)
            requires
                outputs >= 0,
                row >= 0,
        ;
    }
    let size: usize = 4 * outputs + outputs * row;
    if len < size || at > len - size {
        return Err(short_file());
    }
    let mut biases: Vec<i32> = Vec::new();
    let mut o: usize = 0;
    while o < outputs
        invariant
            o <= outputs,
            len == file@.len(),
            size >= 4 * outputs,
            at + size <= len,
            biases@.len() == o,
            forall|k: int| 0 <= k < o ==> #[trigger] biases@[k] == bias_at(file@, at as int, k),
        decreases outputs - o,
    {
        proof {
            lemma_pow256();
        }
        let v: i64 = read_signed_le(file, at + 4 * o, 4);
        biases.push(v as i32);
        o += 1;
    }
    let mut weights: Vec<i8> = Vec::new();
    let base: usize = at + 4 * outputs;
    let mut o: usize = 0;
    assert(0 * inputs == 0) by (nonlinear_arith);
    while o < outputs
        invariant
            o <= outputs,
            inputs <= row,
            row == row_bytes(inputs as int),
            len == file@.len(),
            base == at + 4 * outputs,
            base + outputs * row <= len,
            0 <= outputs * row,
            weights@.len() == o * inputs,
            forall|p: int, i: int|
                0 <= p < o && 0 <= i < inputs ==> #[trigger] weights@[p * inputs + i] == weight_at(
                    file@,
                    at as int,
                    inputs as int,
                    outputs as int,
                    p,
                    i,
                ),
        decreases outputs - o,
    {
        proof {
            lemma_row(o as int, outputs as int, row as int);
            lemma_row(o as int, outputs as int, inputs as int);
        }
        let start: usize = base + o * row;
        let mut i: usize = 0;
        while i < inputs
            invariant
                i <= inputs,
                inputs <= row,
                row == row_bytes(inputs as int),
                o < outputs,
                len == file@.len(),
                base == at + 4 * outputs,
                start == base + o * row,
                start + row <= len,
                weights@.len() == o * inputs + i,
                forall|p: int, k: int|
                    (0 <= p < o && 0 <= k < inputs) || (p == o && 0 <= k < i)
                        ==> #[trigger] weights@[p * inputs + k] == weight_at(
                        file@,
                        at as int,
                        inputs as int,
                        outputs as int,
                        p,
                        k,
                    ),
            decreases inputs - i,
        {
            let b: u8 = file[start + i];
            let v: i16 = b as i16;
            let ghost before = weights@;
            weights.push(
                if v < 0x80 {
                    v as i8
                } else {
                    (v - 0x100) as i8
                },
            );
            proof {
                assert forall|p: int, k: int|
                    (0 <= p < o && 0 <= k < inputs) || (p == o && 0 <= k < i + 1) implies #[trigger] weights@[p
                    * inputs + k] == weight_at(
                    file@,
                    at as int,
                    inputs as int,
                    outputs as int,
                    p,
                    k,
                ) by {
                    if p < o {
                        lemma_row(p, o as int, inputs as int);
                        assert(weights@[p * inputs + k] == before[p * inputs + k]);
                    } else if k < i {
                        assert(weights@[p * inputs + k] == before[p * inputs + k]);
                    }
                }
            }
            i += 1;
        }
        o += 1;
    }
    Ok(Affine { biases, weights })
}

/// The dense layers of all stacks, stack by stack.
#[derive(Debug)]
pub struct YoStacks {
    pub l1_b: Vec<i32>,
    pub l1_w: Vec<i8>,
    pub l2_b: Vec<i32>,
    pub l2_w: Vec<i8>,
    pub l3_b: Vec<i32>,
    pub l3_w: Vec<i8>,
}

/// Whether the part of `b` of the flat weights is what stands in the file for stack `b`.
pub open spec fn layer_holds(
    file: Seq<u8>,
    at: int,
    inputs: int,
    outputs: int,
    biases: Seq<i32>,
    weights: Seq<i8>,
    b: int,
) -> bool {
    affine_holds(
        file,
        at,
        inputs,
        outputs,
        biases.subrange(b * outputs, b * outputs + outputs),
        weights.subrange(b * (outputs * inputs), b * (outputs * inputs) + outputs * inputs),
    )
}

/// Where stack `b` starts.
pub open spec fn stack_start(at: int, b: int) -> int {
    at + b * STACK_BYTES
}

impl YoStacks {
    /// There are weights for `n` stacks.
    pub open spec fn sized(&self, n: int) -> bool {
        &&& self.l1_b@.len() == n * 16
        &&& self.l1_w@.len() == n * 24576
        &&& self.l2_b@.len() == n * 32
        &&& self.l2_w@.len() == n * 960
        &&& self.l3_b@.len() == n
        &&& self.l3_w@.len() == n * 32
    }

    /// Stack `b` is what the file holds from `at` on.
    pub open spec fn holds(&self, file: Seq<u8>, at: int, b: int) -> bool {
        let s = stack_start(at, b);
        &&& layer_holds(file, s + 4, 1536, 16, self.l1_b@, self.l1_w@, b)
        &&& layer_holds(file, s + 24644, 30, 32, self.l2_b@, self.l2_w@, b)
        &&& layer_holds(file, s + 25796, 32, 1, self.l3_b@, self.l3_w@, b)
    }
}

/// The error that the first `n` stacks give, if they give one.
pub open spec fn stacks_fault(file: Seq<u8>, at: int, n: nat) -> Option<(ErrorKind, Seq<char>)>
    decreases n,
{
    if n == 0 {
        None
    } else if stacks_fault(file, at, (n - 1) as nat) is Some {
        stacks_fault(file, at, (n - 1) as nat)
    } else if word_fault(
        file,
        stack_start(at, n - 1),
        YO_NETWORK_HASH,
        "LayerStack hash"@,
    ) is Some {
        word_fault(file, stack_start(at, n - 1), YO_NETWORK_HASH, "LayerStack hash"@)
    } else if file.len() < stack_start(at, n as int) {
        Some((ErrorKind::UnexpectedEof, eof_text()))
    } else {
        None
    }
}

proof fn lemma_stacks_fault_prefix(file: Seq<u8>, at: int, m: nat, n: nat)
    requires
        m <= n,
        stacks_fault(file, at, m) is Some,
    ensures
        stacks_fault(file, at, n) == stacks_fault(file, at, m),
    decreases n - m,
{
    if m < n {
        lemma_stacks_fault_prefix(file, at, m, (n - 1) as nat);
    }
}

/// Appending a layer to the flat weights keeps the earlier ones.
proof fn lemma_layer_kept(
    file: Seq<u8>,
    at: int,
    inputs: int,
    outputs: int,
    biases: Seq<i32>,
    weights: Seq<i8>,
    more_biases: Seq<i32>,
    more_weights: Seq<i8>,
    b: int,
    n: int,
)
    requires
        0 <= b < n,
        0 <= inputs,
        0 <= outputs,
        biases.len() == n * outputs,
        weights.len() == n * (outputs * inputs),
        layer_holds(file, at, inputs, outputs, biases, weights, b),
    ensures
        layer_holds(
            file,
            at,
            inputs,
            outputs,
            biases + more_biases,
            weights + more_weights,
            b,
        ),
{
    let w = outputs * inputs;
    assert(0 <= w) by (nonlinear_arith)
        requires
            0 <= inputs,
            0 <= outputs,
            w == outputs * inputs,
    ;
    lemma_row(b, n, outputs);
    lemma_row(b, n, w);
    assert((biases + more_biases).subrange(b * outputs, b * outputs + outputs) =~= biases.subrange(
        b * outputs,
        b * outputs + outputs,
    ));
    assert((weights + more_weights).subrange(b * w, b * w + w) =~= weights.subrange(
        b * w,
        b * w + w,
    ));
}

/// The layer that was appended is the last one.
proof fn lemma_layer_added(
    file: Seq<u8>,
    at: int,
    inputs: int,
    outputs: int,
    biases: Seq<i32>,
    weights: Seq<i8>,
    more_biases: Seq<i32>,
    more_weights: Seq<i8>,
    n: int,
)
    requires
        0 <= n,
        0 <= inputs,
        0 <= outputs,
        biases.len() == n * outputs,
        weights.len() == n * (outputs * inputs),
        affine_holds(file, at, inputs, outputs, more_biases, more_weights),
    ensures
        layer_holds(
            file,
            at,
            inputs,
            outputs,
            biases + more_biases,
            weights + more_weights,
            n,
        ),
{
    let w = outputs * inputs;
    assert((biases + more_biases).subrange(n * outputs, n * outputs + outputs) =~= more_biases);
    assert((weights + more_weights).subrange(n * w, n * w + w) =~= more_weights);
}

/// Reads the nine stacks from `at` on, and where they end.
pub fn read_yo_stacks(file: &[u8], at: usize) -> (r: Result<(YoStacks, usize), LoadError>)
    requires
        at <= file@.len(),
    ensures
        faults_with(r, stacks_fault(file@, at as int, 9)),
        r matches Ok((stacks, end)) ==> {
            &&& end == at + 9 * STACK_BYTES
            &&& stacks.sized(9)
            &&& forall|b: int| 0 <= b < 9 ==> #[trigger] stacks.holds(file@, at as int, b)
        },
{
    let len: usize = file.len();
    let mut stacks = YoStacks {
        l1_b: Vec::new(),
        l1_w: Vec::new(),
        l2_b: Vec::new(),
        l2_w: Vec::new(),
        l3_b: Vec::new(),
        l3_w: Vec::new(),
    };
    let mut b: usize = 0;
    let mut pos: usize = at;
    while b < DEFAULT_NUM_BUCKETS
        invariant
            b <= 9,
            len == file@.len(),
            pos == stack_start(at as int, b as int),
            pos <= len,
            stacks_fault(file@, at as int, b as nat) is None,
            stacks.sized(b as int),
            forall|k: int| 0 <= k < b ==> #[trigger] stacks.holds(file@, at as int, k),
        decreases 9 - b,
    {
        let ghost next = (b + 1) as nat;
        if let Err(e) = expect_u32(file, pos, YO_NETWORK_HASH, "LayerStack hash") {
            proof {
                lemma_stacks_fault_prefix(file@, at as int, next, 9);
            }
            return Err(e);
        }
        let mut l1 = match read_affine(file, pos + 4, DEFAULT_FT_OUT, DEFAULT_L1_OUT) {
            Ok(layer) => layer,
            Err(e) => {
                proof {
                    lemma_stacks_fault_prefix(file@, at as int, next, 9);
                }
                return Err(e);
            },
        };
        let mut l2 = match read_affine(file, pos + 24644, L2_IN, DEFAULT_L2_OUT) {
            Ok(layer) => layer,
            Err(e) => {
                proof {
                    lemma_stacks_fault_prefix(file@, at as int, next, 9);
                }
                return Err(e);
            },
        };
        let mut l3 = match read_affine(file, pos + 25796, DEFAULT_L2_OUT, 1) {
            Ok(layer) => layer,
            Err(e) => {
                proof {
                    lemma_stacks_fault_prefix(file@, at as int, next, 9);
                }
                return Err(e);
            },
        };
        let ghost before = stacks;
        let ghost (b1, w1) = (l1.biases@, l1.weights@);
        let ghost (b2, w2) = (l2.biases@, l2.weights@);
        let ghost (b3, w3) = (l3.biases@, l3.weights@);
        stacks.l1_b.append(&mut l1.biases);
        stacks.l1_w.append(&mut l1.weights);
        stacks.l2_b.append(&mut l2.biases);
        stacks.l2_w.append(&mut l2.weights);
        stacks.l3_b.append(&mut l3.biases);
        stacks.l3_w.append(&mut l3.weights);
        proof {
            let s = stack_start(at as int, b as int);
            let n = b as int;
            assert(b1.len() == 16 && w1.len() == 24576);
            assert(b2.len() == 32 && w2.len() == 960);
            assert(b3.len() == 1 && w3.len() == 32);
            assert(n * (16int * 1536) == n * 24576 && n * (32int * 30) == n * 960 && n * (1int
                * 32) == n * 32) by (nonlinear_arith);
            assert forall|k: int| 0 <= k < b + 1 implies #[trigger] stacks.holds(
                file@,
                at as int,
                k,
            ) by {
                let t = stack_start(at as int, k);
                if k < b {
                    assert(before.holds(file@, at as int, k));
                    lemma_layer_kept(
                        file@, t + 4, 1536, 16, before.l1_b@, before.l1_w@, b1, w1, k, n);
                    lemma_layer_kept(
                        file@, t + 24644, 30, 32, before.l2_b@, before.l2_w@, b2, w2, k, n);
                    lemma_layer_kept(
                        file@, t + 25796, 32, 1, before.l3_b@, before.l3_w@, b3, w3, k, n);
                } else {
                    lemma_layer_added(
                        file@, s + 4, 1536, 16, before.l1_b@, before.l1_w@, b1, w1, n);
                    lemma_layer_added(
                        file@, s + 24644, 30, 32, before.l2_b@, before.l2_w@, b2, w2, n);
                    lemma_layer_added(
                        file@, s + 25796, 32, 1, before.l3_b@, before.l3_w@, b3, w3, n);
                }
            }
        }
        pos = pos + STACK_BYTES;
        b += 1;
    }
    Ok((stacks, pos))
}

/// Eight hexadecimal digits for a word, the highest first.
pub proof fn words_are_written_highest_digit_first(v: u32)
    ensures
        hex_word(v).len() == 8,
        v == 0x1000_0000 * nibble(hex_word(v)[0]) + 0x100_0000 * nibble(hex_word(v)[1]) + 0x10_0000
            * nibble(hex_word(v)[2]) + 0x1_0000 * nibble(hex_word(v)[3]) + 0x1000 * nibble(
            hex_word(v)[4],
        ) + 0x100 * nibble(hex_word(v)[5]) + 0x10 * nibble(hex_word(v)[6]) + nibble(hex_word(v)[7]),
{
    let (a, b, c, d) = (
        (v / 0x100_0000) as u8,
        (v / 0x1_0000 % 0x100) as u8,
        (v / 0x100 % 0x100) as u8,
        (v % 0x100) as u8,
    );
    lemma_byte_digits(a);
    lemma_byte_digits(b);
    lemma_byte_digits(c);
    lemma_byte_digits(d);
    assert(v == 0x100_0000 * a + 0x1_0000 * b + 0x100 * c + d);
    let text = hex_word(v);
    assert(text[0] == hex_byte(a)[0] && text[1] == hex_byte(a)[1]);
    assert(text[2] == hex_byte(b)[0] && text[3] == hex_byte(b)[1]);
    assert(text[4] == hex_byte(c)[0] && text[5] == hex_byte(c)[1]);
    assert(text[6] == hex_byte(d)[0] && text[7] == hex_byte(d)[1]);
}

proof fn lemma_byte_digits(b: u8)
    ensures
        hex_byte(b).len() == 2,
        b == 16 * nibble(hex_byte(b)[0]) + nibble(hex_byte(b)[1]),
{
    hex_gives_back_the_bytes(seq![b], 0);
    assert(seq![b].drop_last() =~= Seq::<u8>::empty());
    assert(hex_text(Seq::<u8>::empty()) =~= Seq::<char>::empty());
    assert(hex_text(seq![b]) =~= hex_byte(b));
}

/// A row of weights is filled up to a multiple of 32 bytes, with less than 32 to spare, and a layer
/// has a word of bias for each output before its rows.
pub proof fn rows_are_filled_up(inputs: int, outputs: int)
    requires
        inputs >= 0,
    ensures
        inputs <= row_bytes(inputs) < inputs + 32,
        row_bytes(inputs) % 32 == 0,
        affine_bytes(inputs, outputs) == outputs * (4 + row_bytes(inputs)),
{
    let w = row_bytes(inputs);
    assert(4 * outputs + outputs * w == outputs * (4 + w)) by (nonlinear_arith);
}

/// What stands where in a stack of layers: the hash word, the first layer from 1536 inputs to 16
/// outputs, the second from 30 to 32 and the third from 32 to one, each with its biases first,
/// and then the next stack.
pub proof fn layers_lie_behind_each_other(at: int, b: int)
    ensures
        stack_start(at, 0) == at,
        stack_start(at, b + 1) == stack_start(at, b) + 4 + affine_bytes(1536, 16) + affine_bytes(
            30,
            32,
        ) + affine_bytes(32, 1),
        4 + affine_bytes(1536, 16) == 24644,
        24644 + affine_bytes(30, 32) == 25796,
{
    let n = STACK_BYTES as int;
    assert((b + 1) * n == b * n + n) by (nonlinear_arith);
    assert(row_bytes(1536) == 1536 && row_bytes(30) == 32 && row_bytes(32) == 32);
    assert(affine_bytes(1536, 16) == 24640);
    assert(affine_bytes(30, 32) == 1152);
    assert(affine_bytes(32, 1) == 36);
}

/// Where the numbers of a stack come from, byte by byte: the biases are little-endian words, the
/// weights signed bytes, and the weights of one output stand together.
pub proof fn stacks_hold_their_bytes(
    stacks: YoStacks,
    file: Seq<u8>,
    at: int,
    b: int,
    o: int,
    i: int,
)
    requires
        stacks.sized(9),
        0 <= b < 9,
        0 <= at,
        at + 9 * 25832 <= file.len(),
        stacks.holds(file, at, b),
        0 <= o,
        0 <= i,
    ensures
        ({
            let s = at + 25832 * b;
            let word = |p: int| le_signed(file.subrange(p, p + 4));
            let byte = |p: int| le_signed(seq![file[p]]);
            &&& o < 16 ==> stacks.l1_b@[16 * b + o] == word(s + 4 + 4 * o) as i32
            &&& o < 16 && i < 1536 ==> stacks.l1_w@[24576 * b + 1536 * o + i] == byte(
                s + 68 + 1536 * o + i,
            )
            &&& o < 32 ==> stacks.l2_b@[32 * b + o] == word(s + 24644 + 4 * o) as i32
            &&& o < 32 && i < 30 ==> stacks.l2_w@[960 * b + 30 * o + i] == byte(
                s + 24772 + 32 * o + i,
            )
            &&& stacks.l3_b@[b] == word(s + 25796) as i32
            &&& i < 32 ==> stacks.l3_w@[32 * b + i] == byte(s + 25800 + i)
        }),
{
    let s = stack_start(at, b);
    assert(row_bytes(1536) == 1536 && row_bytes(30) == 32 && row_bytes(32) == 32);
    lemma_signed_byte(file);
    assert(stacks.l1_w@.len() == 221184 && stacks.l2_w@.len() == 8640 && stacks.l3_w@.len() == 288);
    assert(stacks.l1_b@.len() == 144 && stacks.l2_b@.len() == 288 && stacks.l3_b@.len() == 9);
    assert(b * 24576 + 24576 <= 221184 && b * 960 + 960 <= 8640 && b * 32 + 32 <= 288)
        by (nonlinear_arith)
        requires
            b <= 8,
    ;
    assert(b * 16 + 16 <= 144 && b * 1 + 1 <= 9) by (nonlinear_arith)
        requires
            b <= 8,
    ;
    if o < 16 {
        lemma_layer_bytes(file, s + 4, 1536, 16, stacks.l1_b@, stacks.l1_w@, 24576, b, o, 0);
        if i < 1536 {
            lemma_layer_bytes(file, s + 4, 1536, 16, stacks.l1_b@, stacks.l1_w@, 24576, b, o, i);
        }
    }
    if o < 32 {
        lemma_layer_bytes(file, s + 24644, 30, 32, stacks.l2_b@, stacks.l2_w@, 960, b, o, 0);
        if i < 30 {
            lemma_layer_bytes(file, s + 24644, 30, 32, stacks.l2_b@, stacks.l2_w@, 960, b, o, i);
        }
    }
    lemma_layer_bytes(file, s + 25796, 32, 1, stacks.l3_b@, stacks.l3_w@, 32, b, 0, 0);
    if i < 32 {
        lemma_layer_bytes(file, s + 25796, 32, 1, stacks.l3_b@, stacks.l3_w@, 32, b, 0, i);
    }
}

proof fn lemma_signed_byte(file: Seq<u8>)
    ensures
        forall|p: int|
            0 <= p < file.len() ==> signed_byte(#[trigger] file[p]) == le_signed(seq![file[p]]),
{
    lemma_pow256();
    assert forall|p: int| 0 <= p < file.len() implies signed_byte(#[trigger] file[p]) == le_signed(
        seq![file[p]],
    ) by {
        let one = seq![file[p]];
        assert(one.drop_first() =~= Seq::<u8>::empty());
        assert(le_value(Seq::<u8>::empty()) == 0);
        assert(le_value(one) == file[p]);
    }
}

proof fn lemma_layer_bytes(
    file: Seq<u8>,
    at: int,
    inputs: int,
    outputs: int,
    biases: Seq<i32>,
    weights: Seq<i8>,
    n: int,
    b: int,
    o: int,
    i: int,
)
    requires
        layer_holds(file, at, inputs, outputs, biases, weights, b),
        n == outputs * inputs,
        0 <= b,
        0 <= o < outputs,
        0 <= i < inputs,
        b * outputs + outputs <= biases.len(),
        b * n + n <= weights.len(),
    ensures
        biases[b * outputs + o] == le_signed(file.subrange(at + 4 * o, at + 4 * o + 4)) as i32,
        weights[b * n + o * inputs + i] == signed_byte(
            file[at + 4 * outputs + o * row_bytes(inputs) + i],
        ),
{
    let own_b = biases.subrange(b * outputs, b * outputs + outputs);
    let own_w = weights.subrange(b * n, b * n + n);
    assert(own_b[o] == bias_at(file, at, o));
    assert(0 <= o * inputs + i < n) by (nonlinear_arith)
        requires
            n == outputs * inputs,
            0 <= o < outputs,
            0 <= i < inputs,
    ;
    assert(0 <= b * outputs && 0 <= b * n) by (nonlinear_arith)
        requires
            0 <= b,
            0 < outputs,
            n >= 0,
    ;
    assert(own_w[o * inputs + i] == weight_at(file, at, inputs, outputs, o, i));
}

/// Which files are taken by their head: the version, the two hashes and one of the two known
/// architectures have to be there, each in its place.
pub proof fn headers_are_taken_by_their_words(file: Seq<u8>)
    requires
        file.len() >= 16,
    ensures
        ({
            let word = |p: int| le_value(file.subrange(p, p + 4));
            let n = word(8);
            let arch = file.subrange(12, 12 + n);
            header_fault(file) is None <==> {
                &&& word(0) == 0x7af3_2f16
                &&& word(4) == 0x3c20_3b32
                &&& 1 <= n <= 16384
                &&& 16 + n <= file.len()
                &&& valid_utf8(arch)
                &&& decode_utf8(arch) == YO_ARCH@ || decode_utf8(arch) == YO_ARCH_V2@
                &&& word(12 + n) == 0x5f13_4ab8
            }
        }),
        header_fault(file) is None ==> ({
            let end = 16 + le_value(file.subrange(8, 12));
            tensors_start(file) == if end < file.len() && file[end] == 0x5f {
                end + 1
            } else {
                end
            }
        }),
{
    lemma_pow256();
    lemma_word_bound(file, 0);
    lemma_word_bound(file, 4);
    lemma_word_bound(file, 8);
    let n = le_value(file.subrange(8, 12));
    if 16 + n <= file.len() {
        lemma_word_bound(file, 12 + n);
    }
}

proof fn lemma_word_bound(file: Seq<u8>, p: int)
    requires
        0 <= p,
        p + 4 <= file.len(),
    ensures
        0 <= le_value(file.subrange(p, p + 4)) < 0x1_0000_0000,
        word_at(file, p) == le_value(file.subrange(p, p + 4)),
{
    lemma_pow256();
    crate::le::lemma_value_bound(file.subrange(p, p + 4));
}

/// Whether a layer stack is whole and starts with the network's hash.
pub open spec fn is_good_stack(file: Seq<u8>, at: int, b: int) -> bool {
    let start = at + 25832 * b;
    start + 25832 <= file.len() && le_value(file.subrange(start, start + 4)) == YO_NETWORK_HASH
}

/// Layer stacks are taken exactly where each one starts with the network's hash and is whole. Else
/// the first that does not tells the fault: a wrong hash, or the end of the file.
pub proof fn the_first_bad_stack_is_told(file: Seq<u8>, at: int, n: nat)
    requires
        0 <= at,
    ensures
        match stacks_fault(file, at, n) {
            None => forall|b: int| 0 <= b < n ==> #[trigger] is_good_stack(file, at, b),
            Some((kind, _)) => exists|k: int|
                0 <= k < n && !#[trigger] is_good_stack(file, at, k) && (forall|b: int|
                    0 <= b < k ==> #[trigger] is_good_stack(file, at, b)) && {
                    let start = at + 25832 * k;
                    let short = start + 4 > file.len() || le_value(
                        file.subrange(start, start + 4),
                    ) == YO_NETWORK_HASH;
                    (kind is UnexpectedEof <==> short) && (kind is InvalidData <==> !short)
                },
        },
    decreases n,
{
    if n > 0 {
        let last = n - 1;
        the_first_bad_stack_is_told(file, at, last as nat);
        let start = stack_start(at, last);
        assert(start == at + 25832 * last);
        assert(stack_start(at, n as int) == start + 25832);
        if start + 4 <= file.len() {
            lemma_value_bound(file.subrange(start, start + 4));
            lemma_pow256();
        }
        if stacks_fault(file, at, last as nat) is None {
            let good = is_good_stack(file, at, last);
            assert(good <==> stacks_fault(file, at, n) is None);
        }
    }
}

} // verus!
