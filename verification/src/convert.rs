//! Storage of unsigned and signed integers in FITS's signed (or, for
//! bytes, unsigned) types by an offset `BZERO`, and data-unit padding.
use vstd::prelude::*;
use crate::types::RECORD_LEN;

verus! {

/// Big-endian bytes of a value below `2^(8*n)`.
pub open spec fn be_bytes(v: int, n: nat) -> Seq<u8>
    decreases n,
{
    if n == 0 {
        Seq::empty()
    } else {
        be_bytes(v / 256, (n - 1) as nat).push((v % 256) as u8)
    }
}

/// Value of big-endian bytes.
pub open spec fn be_value(b: Seq<u8>) -> int
    decreases b.len(),
{
    if b.len() == 0 {
        0
    } else {
        be_value(b.drop_last()) * 256 + b.last()
    }
}

/// Stored form of `v` under an offset of half the range `2^bits`: `v - 2^(bits-1)`
/// kept modulo `2^bits`, as the two's-complement bit pattern.
pub open spec fn offset_stored(v: int, half: int) -> int {
    (v + half) % (2 * half)
}

/// Encode native unsigned 16-bit pixels into BITPIX=16 + BZERO=32768.
pub fn encode_u16_ushort(v: u16) -> (r: [u8; 2])
    ensures
        r@ == be_bytes(offset_stored(v as int, 0x8000), 2),
{
    let s: u16 = v ^ 0x8000;
    let r = [(s >> 8) as u8, (s & 0xff) as u8];
    proof {
        assert(s == (v + 0x8000) % 0x10000) by (bit_vector)
            requires
                s == v ^ 0x8000,
        ;
        assert((s >> 8) == s / 256 && (s & 0xff) == s % 256) by (bit_vector);
        reveal_with_fuel(be_bytes, 3);
        assert(be_bytes(s as int, 2) =~= seq![(s / 256) as u8, (s % 256) as u8]);
    }
    assert(r@ =~= seq![(s >> 8) as u8, (s & 0xff) as u8]);
    r
}

/// Decode BITPIX=16 + BZERO=32768 into u16.
pub fn decode_ushort_u16(bytes: [u8; 2]) -> (r: u16)
    ensures
        r == offset_stored(be_value(bytes@), 0x8000),
{
    let hi = bytes[0] as u16;
    let lo = bytes[1] as u16;
    let raw: u16 = (hi << 8) | lo;
    let r = raw ^ 0x8000;
    proof {
        assert(raw == hi * 256 + lo) by (bit_vector)
            requires
                hi < 256,
                lo < 256,
                raw == (hi << 8) | lo,
        ;
        assert(r == (raw + 0x8000) % 0x10000) by (bit_vector)
            requires
                r == raw ^ 0x8000,
        ;
        let b = bytes@;
        assert(b.drop_last().drop_last() =~= Seq::<u8>::empty());
        assert(be_value(b) == be_value(b.drop_last()) * 256 + b[1]);
        reveal_with_fuel(be_value, 3);
        assert(be_value(b.drop_last()) == b[0]);
    }
    r
}

/// Encode native i8 into BITPIX=8 + BZERO=-128.
pub fn encode_i8_sbyte(v: i8) -> (r: u8)
    ensures
        r == v + 128,
{
    (v as i16 + 128) as u8
}

/// Decode BITPIX=8 + BZERO=-128 into i8.
pub fn decode_sbyte_i8(b: u8) -> (r: i8)
    ensures
        r == b - 128,
{
    (b as i16 - 128) as i8
}

/// Encode native u32 into BITPIX=32 + BZERO=2^31.
pub fn encode_u32_ulong(v: u32) -> (r: [u8; 4])
    ensures
        r@ == be_bytes(offset_stored(v as int, 0x8000_0000), 4),
{
    let s: u32 = v ^ 0x8000_0000;
    let r = [(s >> 24) as u8, ((s >> 16) & 0xff) as u8, ((s >> 8) & 0xff) as u8, (s & 0xff) as u8];
    proof {
        assert(s == (v + 0x8000_0000) % 0x1_0000_0000) by (bit_vector)
            requires
                s == v ^ 0x8000_0000,
        ;
        lemma_be_bytes_u32(s);
    }
    assert(r@ =~= seq![(s >> 24) as u8, ((s >> 16) & 0xff) as u8, ((s >> 8) & 0xff) as u8, (s & 0xff) as u8]);
    r
}

proof fn lemma_be_bytes_u32(s: u32)
    ensures
        be_bytes(s as int, 4) == seq![(s >> 24) as u8, ((s >> 16) & 0xff) as u8, ((s >> 8) & 0xff) as u8, (s & 0xff) as u8],
{
    assert((s >> 24) == s / 0x100_0000 && ((s >> 16) & 0xff) == (s / 0x1_0000) % 256 && ((s >> 8)
        & 0xff) == (s / 256) % 256 && (s & 0xff) == s % 256) by (bit_vector);
    let v = s as int;
    assert(v / 256 / 256 == v / 0x1_0000) by (nonlinear_arith)
        requires
            v >= 0,
    {
        vstd::arithmetic::div_mod::lemma_div_denominator(v, 256, 256);
    }
    assert(v / 256 / 256 / 256 == v / 0x100_0000) by (nonlinear_arith)
        requires
            v >= 0,
            v / 256 / 256 == v / 0x1_0000,
    {
        vstd::arithmetic::div_mod::lemma_div_denominator(v, 0x1_0000, 256);
    }
    assert(v / 0x100_0000 < 256);
    reveal_with_fuel(be_bytes, 5);
    assert(be_bytes(v, 4) =~= seq![(v / 0x100_0000 % 256) as u8, (v / 0x1_0000 % 256) as u8, (v / 256 % 256) as u8, (v % 256) as u8]);
}

/// `256^n`.
pub open spec fn pow256(n: nat) -> int
    decreases n,
{
    if n == 0 {
        1
    } else {
        256 * pow256((n - 1) as nat)
    }
}

/// Value of up to eight big-endian bytes.
fn be_value_of(bytes: &[u8]) -> (r: u128)
    requires
        bytes@.len() <= 8,
    ensures
        r == be_value(bytes@),
        r < pow256(bytes@.len()),
{
    let mut acc: u128 = 0;
    let mut i: usize = 0;
    proof {
        lemma_pow256_mono(0, 8);
    }
    while i < bytes.len()
        invariant
            i <= bytes@.len() <= 8,
            acc == be_value(bytes@.subrange(0, i as int)),
            acc < pow256(i as nat),
            pow256(i as nat) <= pow256(8),
        decreases bytes.len() - i,
    {
        proof {
            reveal_with_fuel(pow256, 9);
            assert(bytes@.subrange(0, i + 1).drop_last() =~= bytes@.subrange(0, i as int));
            let p = pow256(i as nat);
            assert(acc * 256 + 255 < 256 * p) by (nonlinear_arith)
                requires
                    acc < p,
            ;
            lemma_pow256_mono(i as nat + 1, 8);
        }
        acc = acc * 256 + bytes[i] as u128;
        i += 1;
    }
    assert(bytes@.subrange(0, bytes@.len() as int) =~= bytes@);
    acc
}

proof fn lemma_pow256_mono(a: nat, b: nat)
    requires
        a <= b,
    ensures
        pow256(a) <= pow256(b),
        pow256(a) >= 1,
    decreases b,
{
    if a < b {
        lemma_pow256_mono(a, (b - 1) as nat);
    }
    if a > 0 {
        lemma_pow256_mono((a - 1) as nat, (a - 1) as nat);
    }
}

/// Decode BITPIX=32 + BZERO=2^31 into u32.
pub fn decode_ulong_u32(bytes: [u8; 4]) -> (r: u32)
    ensures
        r == offset_stored(be_value(bytes@), 0x8000_0000),
{
    let raw = be_value_of(&bytes);
    proof {
        reveal_with_fuel(pow256, 5);
    }
    ((raw + 0x8000_0000) % 0x1_0000_0000) as u32
}

/// Encode native u64 into BITPIX=64 + BZERO=2^63.
pub fn encode_u64_ulonglong(v: u64) -> (r: [u8; 8])
    ensures
        r@ == be_bytes(offset_stored(v as int, 0x8000_0000_0000_0000), 8),
{
    let s: u64 = ((v as u128 + 0x8000_0000_0000_0000) % 0x1_0000_0000_0000_0000) as u64;
    let s1 = s / 256;
    let s2 = s1 / 256;
    let s3 = s2 / 256;
    let s4 = s3 / 256;
    let s5 = s4 / 256;
    let s6 = s5 / 256;
    let s7 = s6 / 256;
    let r = [
        (s7 % 256) as u8,
        (s6 % 256) as u8,
        (s5 % 256) as u8,
        (s4 % 256) as u8,
        (s3 % 256) as u8,
        (s2 % 256) as u8,
        (s1 % 256) as u8,
        (s % 256) as u8,
    ];
    proof {
        reveal_with_fuel(be_bytes, 9);
    }
    assert(r@ =~= be_bytes(s as int, 8));
    r
}

/// Decode BITPIX=64 + BZERO=2^63 into u64.
pub fn decode_ulonglong_u64(bytes: [u8; 8]) -> (r: u64)
    ensures
        r == offset_stored(be_value(bytes@), 0x8000_0000_0000_0000),
{
    let raw = be_value_of(&bytes);
    proof {
        reveal_with_fuel(pow256, 9);
    }
    ((raw + 0x8000_0000_0000_0000) % 0x1_0000_0000_0000_0000) as u64
}

/// Big-endian bytes read back give the value they were made from.
pub proof fn lemma_be_roundtrip(v: int, n: nat)
    requires
        0 <= v < pow256(n),
    ensures
        be_bytes(v, n).len() == n,
        be_value(be_bytes(v, n)) == v,
    decreases n,
{
    if n > 0 {
        assert(v / 256 < pow256((n - 1) as nat)) by (nonlinear_arith)
            requires
                v < 256 * pow256((n - 1) as nat),
                v >= 0,
        ;
        lemma_be_roundtrip(v / 256, (n - 1) as nat);
        assert(be_bytes(v, n).drop_last() == be_bytes(v / 256, (n - 1) as nat));
    }
}

/// Storing under the offset twice gives the value back.
proof fn lemma_offset_twice(v: int, h: int)
    requires
        h > 0,
        0 <= v < 2 * h,
    ensures
        0 <= offset_stored(v, h) < 2 * h,
        offset_stored(offset_stored(v, h), h) == v,
{
    if v < h {
        vstd::arithmetic::div_mod::lemma_fundamental_div_mod_converse(v + h, 2 * h, 0, v + h);
        vstd::arithmetic::div_mod::lemma_fundamental_div_mod_converse(v + 2 * h, 2 * h, 1, v);
    } else {
        vstd::arithmetic::div_mod::lemma_fundamental_div_mod_converse(v + h, 2 * h, 1, v - h);
        vstd::arithmetic::div_mod::lemma_fundamental_div_mod_converse(v, 2 * h, 0, v);
    }
}

/// Law: `decode_ushort_u16` undoes `encode_u16_ushort`.
pub proof fn lemma_ushort_roundtrip(v: u16)
    ensures
        offset_stored(be_value(be_bytes(offset_stored(v as int, 0x8000), 2)), 0x8000) == v,
{
    reveal_with_fuel(pow256, 3);
    lemma_offset_twice(v as int, 0x8000);
    lemma_be_roundtrip(offset_stored(v as int, 0x8000), 2);
}

/// Law: `decode_sbyte_i8` undoes `encode_i8_sbyte`.
pub proof fn lemma_sbyte_roundtrip(v: i8)
    ensures
        (v + 128) - 128 == v,
{
}

/// Law: `decode_ulong_u32` undoes `encode_u32_ulong`.
pub proof fn lemma_ulong_roundtrip(v: u32)
    ensures
        offset_stored(be_value(be_bytes(offset_stored(v as int, 0x8000_0000), 4)), 0x8000_0000)
            == v,
{
    reveal_with_fuel(pow256, 5);
    lemma_offset_twice(v as int, 0x8000_0000);
    lemma_be_roundtrip(offset_stored(v as int, 0x8000_0000), 4);
}

/// Law: `decode_ulonglong_u64` undoes `encode_u64_ulonglong`.
pub proof fn lemma_ulonglong_roundtrip(v: u64)
    ensures
        offset_stored(
            be_value(be_bytes(offset_stored(v as int, 0x8000_0000_0000_0000), 8)),
            0x8000_0000_0000_0000,
        ) == v,
{
    reveal_with_fuel(pow256, 9);
    lemma_offset_twice(v as int, 0x8000_0000_0000_0000);
    lemma_be_roundtrip(offset_stored(v as int, 0x8000_0000_0000_0000), 8);
}

/// The data-unit length padded up to whole 2880-byte records.
pub open spec fn padded_len(n: int) -> int {
    if n == 0 {
        0
    } else {
        (n + 2879) / 2880 * 2880
    }
}

/// Pad a data-unit length to a multiple of 2880. A zero-length unit stays 0.
pub fn pad_data_len(n: u64) -> (r: u64)
    requires
        padded_len(n as int) <= u64::MAX,
    ensures
        r == padded_len(n as int),
        r % 2880 == 0,
        n <= r < n + 2880,
{
    if n == 0 {
        return 0;
    }
    let rec = RECORD_LEN as u64;
    let q = n / rec + if n % rec != 0 { 1 } else { 0 };
    proof {
        assert(q == (n + 2879) / 2880) by (nonlinear_arith)
            requires
                q == n / 2880 + if n % 2880 != 0 { 1int } else { 0 },
                n > 0,
        ;
        assert(q * 2880 >= n && q * 2880 < n + 2880 && (q * 2880) % 2880 == 0) by (nonlinear_arith)
            requires
                q == (n + 2879) / 2880,
                n > 0,
        ;
    }
    q * rec
}

/// A 16-bit pattern read as a two's-complement `i16`.
pub open spec fn signed16(u: int) -> int {
    if u >= 0x8000 {
        u - 0x10000
    } else {
        u
    }
}

/// Law: two stored bytes decode to their value as a big-endian `i16` plus
/// 32768, and encoding the decoded value gives the bytes back.
pub proof fn lemma_ushort_of_bytes(b: Seq<u8>)
    requires
        b.len() == 2,
    ensures
        offset_stored(be_value(b), 0x8000) == signed16(be_value(b)) + 0x8000,
        be_bytes(offset_stored(offset_stored(be_value(b), 0x8000), 0x8000), 2) == b,
{
    let u = be_value(b);
    let b1 = b.drop_last();
    assert(b1.drop_last() =~= Seq::<u8>::empty());
    assert(be_value(b1.drop_last()) == 0);
    assert(b1.last() == b[0]);
    assert(be_value(b1) == b[0] as int);
    assert(u == be_value(b1) * 256 + b[1]);
    assert(u == b[0] * 256 + b[1]);
    assert(0 <= u < 0x10000);
    if u >= 0x8000 {
        vstd::arithmetic::div_mod::lemma_fundamental_div_mod_converse(u + 0x8000, 0x10000, 1, u - 0x8000);
    } else {
        vstd::arithmetic::div_mod::lemma_fundamental_div_mod_converse(u + 0x8000, 0x10000, 0, u + 0x8000);
    }
    lemma_offset_twice(u, 0x8000);
    reveal_with_fuel(be_bytes, 3);
    assert(be_bytes(u, 2) =~= seq![(u / 256) as u8, (u % 256) as u8]);
    assert(u / 256 == b[0] as int && u % 256 == b[1] as int) by {
        vstd::arithmetic::div_mod::lemma_fundamental_div_mod_converse(u, 256, b[0] as int, b[1] as int);
    }
    assert(be_bytes(u, 2) =~= b);
}

} // verus!
