//! Little-endian integers of one, two and four bytes.

use vstd::prelude::*;

verus! {

/// 256 to the power of `n`.
pub open spec fn pow256(n: nat) -> int
    decreases n,
{
    if n == 0 {
        1
    } else {
        256 * pow256((n - 1) as nat)
    }
}

/// The `n` low bytes of an integer in two's complement, lowest first.
pub open spec fn le_encode(v: int, n: nat) -> Seq<u8>
    decreases n,
{
    if n == 0 {
        seq![]
    } else {
        seq![(v % 256) as u8] + le_encode(v / 256, (n - 1) as nat)
    }
}

/// The value of bytes, lowest first.
pub open spec fn le_value(bytes: Seq<u8>) -> int
    decreases bytes.len(),
{
    if bytes.len() == 0 {
        0
    } else {
        bytes[0] + 256 * le_value(bytes.drop_first())
    }
}

/// The value of bytes read as two's complement.
pub open spec fn le_signed(bytes: Seq<u8>) -> int {
    let v = le_value(bytes);
    if 2 * v < pow256(bytes.len()) {
        v
    } else {
        v - pow256(bytes.len())
    }
}

/// Whether an integer fits into `n` bytes of two's complement.
pub open spec fn fits(v: int, n: nat) -> bool {
    -pow256(n) <= 2 * v < pow256(n)
}

pub proof fn lemma_pow256()
    ensures
        pow256(0) == 1,
        pow256(1) == 0x100,
        pow256(2) == 0x1_0000,
        pow256(3) == 0x100_0000,
        pow256(4) == 0x1_0000_0000,
{
    reveal_with_fuel(pow256, 5);
}

proof fn lemma_pow256_positive(n: nat)
    ensures
        pow256(n) > 0,
    decreases n,
{
    if n > 0 {
        lemma_pow256_positive((n - 1) as nat);
    }
}

pub proof fn lemma_value_of_encoding(v: int, n: nat)
    ensures
        le_encode(v, n).len() == n,
        le_value(le_encode(v, n)) == v % pow256(n),
    decreases n,
{
    lemma_pow256_positive(n);
    if n > 0 {
        let m = (n - 1) as nat;
        lemma_pow256_positive(m);
        lemma_value_of_encoding(v / 256, m);
        let p = pow256(m);
        assert(le_encode(v, n).drop_first() =~= le_encode(v / 256, m));
        // v % (256 p) == v % 256 + 256 * (v / 256 % p)
        let q = v / 256 / p;
        let r = v / 256 % p;
        vstd::arithmetic::div_mod::lemma_fundamental_div_mod(v / 256, p);
        vstd::arithmetic::div_mod::lemma_mod_bound(v / 256, p);
        assert(v == (256 * p) * q + (v % 256 + 256 * r)) by (nonlinear_arith)
            requires
                v == 256 * (v / 256) + v % 256,
                v / 256 == p * q + r,
        ;
        assert((256 * p) * q == q * (256 * p)) by (nonlinear_arith);
        vstd::arithmetic::div_mod::lemma_fundamental_div_mod_converse(
            v,
            256 * p,
            q,
            v % 256 + 256 * r,
        );
    }
}

/// An integer that fits is read back from its bytes.
pub proof fn le_round_trip(v: int, n: nat)
    requires
        n > 0,
        fits(v, n),
    ensures
        le_encode(v, n).len() == n,
        le_signed(le_encode(v, n)) == v,
{
    lemma_value_of_encoding(v, n);
    lemma_pow256_positive(n);
    let p = pow256(n);
    if v >= 0 {
        vstd::arithmetic::div_mod::lemma_small_mod(v as nat, p as nat);
    } else {
        vstd::arithmetic::div_mod::lemma_fundamental_div_mod_converse(v, p, -1, v + p);
    }
}

proof fn lemma_encoding_of_value(bytes: Seq<u8>)
    ensures
        0 <= le_value(bytes) < pow256(bytes.len()),
        le_encode(le_value(bytes), bytes.len()) == bytes,
    decreases bytes.len(),
{
    if bytes.len() > 0 {
        let rest = bytes.drop_first();
        lemma_encoding_of_value(rest);
        let v = le_value(bytes);
        assert(v % 256 == bytes[0]);
        assert(v / 256 == le_value(rest));
        assert(le_encode(v, bytes.len()) =~= bytes);
    }
}

/// Bytes that are read and written again stay what they were.
pub proof fn le_bytes_round_trip(bytes: Seq<u8>)
    ensures
        fits(le_signed(bytes), bytes.len()),
        le_encode(le_signed(bytes), bytes.len()) == bytes,
{
    lemma_encoding_of_value(bytes);
    lemma_encode_wraps(le_value(bytes) - pow256(bytes.len()), bytes.len());
}

pub proof fn lemma_encode_wraps(v: int, n: nat)
    ensures
        le_encode(v + pow256(n), n) == le_encode(v, n),
    decreases n,
{
    if n > 0 {
        let p = pow256((n - 1) as nat);
        assert((v + 256 * p) % 256 == v % 256);
        assert((v + 256 * p) / 256 == v / 256 + p);
        lemma_encode_wraps(v / 256, (n - 1) as nat);
    }
}

/// Appends the `n` bytes of an integer.
pub fn push_le(out: &mut Vec<u8>, v: i64, n: usize)
    requires
        n == 1 || n == 2 || n == 4,
        fits(v as int, n as nat),
    ensures
        final(out)@ == old(out)@ + le_encode(v as int, n as nat),
{
    proof {
        lemma_pow256();
        lemma_encode_wraps(v as int, n as nat);
    }
    let span: i64 = if n == 1 {
        0x100
    } else if n == 2 {
        0x1_0000
    } else {
        0x1_0000_0000
    };
    let mut u: i64 = if v >= 0 {
        v
    } else {
        v + span
    };
    let mut i: usize = 0;
    let ghost start = out@;
    assert(out@ + le_encode(u as int, n as nat) == start + le_encode(v as int, n as nat));
    while i < n
        invariant
            i <= n,
            u >= 0,
            out@ + le_encode(u as int, (n - i) as nat) == start + le_encode(v as int, n as nat),
        decreases n - i,
    {
        let ghost before = out@;
        let ghost whole = u as int;
        let low: u8 = (u % 256) as u8;
        out.push(low);
        u = u / 256;
        assert(out@ + le_encode(u as int, (n - i - 1) as nat) =~= before + le_encode(
            whole,
            (n - i) as nat,
        ));
        i += 1;
    }
    assert(out@ + le_encode(u as int, 0) =~= out@);
}

/// The unsigned integer in `n` bytes from `at` on.
pub fn read_le(bytes: &[u8], at: usize, n: usize) -> (r: u64)
    requires
        n == 1 || n == 2 || n == 4,
        at + n <= bytes@.len(),
    ensures
        r == le_value(bytes@.subrange(at as int, at + n)),
        r < pow256(n as nat),
{
    proof {
        lemma_pow256();
    }
    let len: usize = bytes.len();
    let mut v: u64 = 0;
    let mut i: usize = n;
    assert(bytes@.subrange(at + n, at + n) =~= seq![]);
    while i > 0
        invariant
            i <= n <= 4,
            len == bytes@.len(),
            at + n <= len,
            v == le_value(bytes@.subrange(at + i, at + n)),
            v < pow256((n - i) as nat),
        decreases i,
    {
        i -= 1;
        proof {
            lemma_pow256();
            assert(bytes@.subrange(at + i, at + n).drop_first() =~= bytes@.subrange(
                at + i + 1,
                at + n,
            ));
        }
        v = bytes[at + i] as u64 + 256 * v;
    }
    v
}

/// The signed integer in `n` bytes from `at` on.
pub fn read_signed_le(bytes: &[u8], at: usize, n: usize) -> (r: i64)
    requires
        n == 1 || n == 2 || n == 4,
        at + n <= bytes@.len(),
    ensures
        r == le_signed(bytes@.subrange(at as int, at + n)),
        fits(r as int, n as nat),
{
    proof {
        lemma_pow256();
    }
    let v: i64 = read_le(bytes, at, n) as i64;
    let span: i64 = if n == 1 {
        0x100
    } else if n == 2 {
        0x1_0000
    } else {
        0x1_0000_0000
    };
    if 2 * v < span {
        v
    } else {
        v - span
    }
}

/// Each byte weighs 256 times as much as the one before it, and the highest one decides the sign.
pub proof fn later_bytes_weigh_more(bytes: Seq<u8>, b: u8)
    ensures
        le_value(Seq::<u8>::empty()) == 0,
        le_value(bytes.push(b)) == le_value(bytes) + b * pow256(bytes.len()),
        pow256(bytes.len() + 1) == 256 * pow256(bytes.len()),
        b < 0x80 ==> le_signed(bytes.push(b)) == le_value(bytes.push(b)),
        b >= 0x80 ==> le_signed(bytes.push(b)) == le_value(bytes.push(b)) - pow256(bytes.len() + 1),
{
    lemma_push_value(bytes, b);
    lemma_value_bound(bytes);
    let p = pow256(bytes.len());
    let v = le_value(bytes);
    assert(pow256(bytes.push(b).len()) == 256 * p);
    if b < 0x80 {
        assert(2 * (v + b * p) < 256 * p) by (nonlinear_arith)
            requires
                0 <= v < p,
                0 <= b < 0x80,
        ;
    } else {
        assert(2 * (v + b * p) >= 256 * p) by (nonlinear_arith)
            requires
                0 <= v < p,
                b >= 0x80,
        ;
    }
}

proof fn lemma_push_value(bytes: Seq<u8>, b: u8)
    ensures
        le_value(bytes.push(b)) == le_value(bytes) + b * pow256(bytes.len()),
    decreases bytes.len(),
{
    let all = bytes.push(b);
    if bytes.len() == 0 {
        assert(all.drop_first() =~= Seq::<u8>::empty());
        assert(le_value(Seq::<u8>::empty()) == 0);
        assert(le_value(all) == b);
    } else {
        let rest = bytes.drop_first();
        assert(all.drop_first() =~= rest.push(b));
        lemma_push_value(rest, b);
        let p = pow256(rest.len());
        assert(256 * (b * p) == b * (256 * p)) by (nonlinear_arith);
    }
}

/// Bytes are worth less than the power of 256 for their number.
pub proof fn lemma_value_bound(bytes: Seq<u8>)
    ensures
        0 <= le_value(bytes) < pow256(bytes.len()),
    decreases bytes.len(),
{
    if bytes.len() > 0 {
        lemma_value_bound(bytes.drop_first());
    }
}

} // verus!
