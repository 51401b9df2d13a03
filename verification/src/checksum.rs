//! FITS `CHECKSUM` / `DATASUM`: the Seaman–Pence 32-bit 1's complement sum
//! and its 16-character ASCII encoding.
use vstd::prelude::*;
use vstd::utf8::*;
use vstd::string::StringSliceAdditionalSpecFns;
use crate::text::{latin1, lemma_latin1_ascii, string_of_bytes};
use crate::types::RECORD_LEN;

verus! {

/// ASCII punctuation that the encoding avoids (`:;<=>?@` and `[\]^_\``).
pub open spec fn excluded(c: int) -> bool {
    (58 <= c <= 64) || (91 <= c <= 96)
}

/// Number of integers in `lo..=hi`.
pub open spec fn count_in(lo: int, hi: int) -> nat {
    if hi < lo {
        0
    } else {
        (hi - lo + 1) as nat
    }
}

/// Excluded codes at or above `a`.
pub open spec fn excluded_at_or_above(a: int) -> nat {
    count_in(if a > 58 { a } else { 58 }, 64) + count_in(if a > 91 { a } else { 91 }, 96)
}

/// Excluded codes at or below `b`.
pub open spec fn excluded_at_or_below(b: int) -> nat {
    count_in(58, if b < 64 { b } else { 64 }) + count_in(91, if b < 96 { b } else { 96 })
}

/// Steps left before a pair of codes is settled.
pub open spec fn settle_measure(a: int, b: int) -> nat {
    excluded_at_or_above(a) + excluded_at_or_below(b)
}

/// Move one unit from the second code to the first until neither is excluded.
pub open spec fn settle(a: int, b: int) -> (int, int)
    decreases settle_measure(a, b),
{
    if excluded(a) || excluded(b) {
        settle(a + 1, b - 1)
    } else {
        (a, b)
    }
}

/// The four characters that encode one byte `v`: each `v/4 + '0'`, the first
/// plus `v%4`, then settled in pairs away from punctuation.
pub open spec fn byte_chars(v: int) -> Seq<int> {
    let q = v / 4 + 48;
    let r = v % 4;
    let p = settle(q + r, q);
    let s = settle(q, q);
    seq![p.0, p.1, s.0, s.1]
}

/// Byte `ii` (0 = most significant) of a 32-bit value.
pub open spec fn value_byte(value: u32, ii: int) -> int {
    if ii == 0 {
        ((value >> 24u32) & 0xffu32) as int
    } else if ii == 1 {
        ((value >> 16u32) & 0xffu32) as int
    } else if ii == 2 {
        ((value >> 8u32) & 0xffu32) as int
    } else {
        (value & 0xffu32) as int
    }
}

/// Bitwise complement of a 32-bit value.
pub open spec fn complement32(v: u32) -> u32 {
    (0xffff_ffffu32 - v) as u32
}

/// The 16 ASCII bytes `ffesum` writes for `sum` (complemented first when
/// `complement`): character `k` of byte `ii` sits at `4k + ii`, and the
/// whole string is rotated right by one.
pub open spec fn checksum_ascii(sum: u32, complement: bool) -> Seq<u8> {
    let value = if complement { complement32(sum) } else { sum };
    Seq::new(
        16,
        |i: int|
            {
                let k = (i + 15) % 16;
                byte_chars(value_byte(value, k % 4))[k / 4] as u8
            },
    )
}

/// Byte `i` of `b`, or `'0'` when `b` is shorter.
pub open spec fn byte_or_zero_char(b: Seq<u8>, i: int) -> int {
    if i < b.len() {
        b[i] as int
    } else {
        48
    }
}

/// Digit value `cbuf[ii]` that `ffdsum` reads: byte `(ii+1) % 16` minus `'0'`.
pub open spec fn cdigit(b: Seq<u8>, ii: int) -> int {
    byte_or_zero_char(b, (ii + 1) % 16) - 48
}

/// A value taken modulo 2^32.
pub open spec fn wrap32(x: int) -> int {
    x % 0x1_0000_0000
}

/// Fold the carries of two 16-bit halves until both fit (1's complement add).
pub open spec fn fold_carries(hi: int, lo: int) -> (int, int)
    decreases hi + lo,
{
    if 0 <= hi && 0 <= lo && (hi >= 0x10000 || lo >= 0x10000) {
        fold_carries(hi % 0x10000 + lo / 0x10000, lo % 0x10000 + hi / 0x10000)
    } else {
        (hi, lo)
    }
}

/// The value `ffdsum` decodes from a 16-character checksum string.
pub open spec fn checksum_decode(b: Seq<u8>, complement: bool) -> u32 {
    let hi = wrap32(
        (cdigit(b, 0) + cdigit(b, 4) + cdigit(b, 8) + cdigit(b, 12)) * 256 + cdigit(b, 1) + cdigit(
            b,
            5,
        ) + cdigit(b, 9) + cdigit(b, 13),
    );
    let lo = wrap32(
        (cdigit(b, 2) + cdigit(b, 6) + cdigit(b, 10) + cdigit(b, 14)) * 256 + cdigit(b, 3) + cdigit(
            b,
            7,
        ) + cdigit(b, 11) + cdigit(b, 15),
    );
    let f = fold_carries(hi, lo);
    let sum = (f.0 * 0x10000 + f.1) as u32;
    if complement {
        complement32(sum)
    } else {
        sum
    }
}

/// Settling moves units between the two codes, keeping their sum.
pub proof fn lemma_settle_sum(a: int, b: int)
    ensures
        settle(a, b).0 + settle(a, b).1 == a + b,
        settle(a, b).0 <= a + settle_measure(a, b),
        settle(a, b).1 >= b - settle_measure(a, b),
        settle(a, b).0 >= a,
        settle(a, b).1 <= b,
        !excluded(settle(a, b).0) && !excluded(settle(a, b).1),
    decreases settle_measure(a, b),
{
    if excluded(a) || excluded(b) {
        lemma_settle_sum(a + 1, b - 1);
    }
}

/// Folding carries keeps the value modulo 0xffff (1's complement) and ends
/// with two 16-bit halves; with no carry it changes nothing.
pub proof fn lemma_fold_small(hi: int, lo: int)
    requires
        0 <= hi < 0x10000,
        0 <= lo < 0x10000,
    ensures
        fold_carries(hi, lo) == (hi, lo),
{
}

fn is_excluded(c: i32) -> (r: bool)
    ensures
        r == excluded(c as int),
{
    (58 <= c && c <= 64) || (91 <= c && c <= 96)
}

/// Settle one pair of codes.
fn settle_pair(a0: i32, b0: i32) -> (r: (i32, i32))
    requires
        48 <= b0 <= a0 <= 114,
    ensures
        r.0 == settle(a0 as int, b0 as int).0,
        r.1 == settle(a0 as int, b0 as int).1,
        0 <= r.1 <= r.0 < 128,
{
    let mut a = a0;
    let mut b = b0;
    let ghost m0 = settle_measure(a0 as int, b0 as int);
    while is_excluded(a) || is_excluded(b)
        invariant
            settle(a as int, b as int) == settle(a0 as int, b0 as int),
            a + settle_measure(a as int, b as int) <= a0 + m0,
            b - settle_measure(a as int, b as int) >= b0 - m0,
            m0 == settle_measure(a0 as int, b0 as int),
            a0 >= 97 ==> m0 <= 13,
            a0 < 97 ==> a0 + m0 <= 96 + 26,
            m0 <= 26,
            48 <= b0 <= a0 <= 114,
            b <= a,
        decreases settle_measure(a as int, b as int),
    {
        a += 1;
        b -= 1;
    }
    (a, b)
}

/// Encode a 32-bit checksum as 16 ASCII bytes (`ffesum`).
pub fn encode_checksum_bytes(sum: u32, complement: bool) -> (r: Vec<u8>)
    ensures
        r@ == checksum_ascii(sum, complement),
        forall|i: int| 0 <= i < 16 ==> r@[i] < 128,
{
    let value: u32 = if complement { !sum } else { sum };
    assert(complement ==> value == complement32(sum)) by (bit_vector)
        requires
            complement ==> value == !sum,
    ;
    let mut asc: Vec<u8> = Vec::new();
    let mut chars: Vec<u8> = Vec::new();
    let mut ii: usize = 0;
    let ghost spec_value: u32 = if complement { complement32(sum) } else { sum };
    while ii < 4
        invariant
            ii <= 4,
            value == spec_value,
            chars@.len() == 4 * ii,
            forall|k: int|
                0 <= k < 4 * ii ==> #[trigger] chars@[k] as int == byte_chars(
                    value_byte(value, k / 4),
                )[k % 4] && chars@[k] < 128,
        decreases 4 - ii,
    {
        let byte: u32 = if ii == 0 {
            (value >> 24u32) & 0xffu32
        } else if ii == 1 {
            (value >> 16u32) & 0xffu32
        } else if ii == 2 {
            (value >> 8u32) & 0xffu32
        } else {
            value & 0xffu32
        };
        assert(byte <= 255) by (bit_vector)
            requires
                byte == (value >> 24u32) & 0xffu32 || byte == (value >> 16u32) & 0xffu32 || byte
                    == (value >> 8u32) & 0xffu32 || byte == value & 0xffu32,
        ;
        let b = byte as i32;
        let q = b / 4 + 48;
        let rem = b % 4;
        let (c0, c1) = settle_pair(q + rem, q);
        let (c2, c3) = settle_pair(q, q);
        chars.push(c0 as u8);
        chars.push(c1 as u8);
        chars.push(c2 as u8);
        chars.push(c3 as u8);
        proof {
            lemma_settle_sum(q + rem, q as int);
            lemma_settle_sum(q as int, q as int);
            assert(value_byte(value, ii as int) == b);
            assert forall|k: int| 0 <= k < 4 * (ii + 1) implies #[trigger] chars@[k] as int
                == byte_chars(value_byte(value, k / 4))[k % 4] && chars@[k] < 128 by {
                if k >= 4 * ii {
                    assert(k / 4 == ii);
                }
            }
        }
        ii += 1;
    }
    let mut out: Vec<u8> = Vec::new();
    let mut i: usize = 0;
    while i < 16
        invariant
            i <= 16,
            chars@.len() == 16,
            value == spec_value,
            spec_value == (if complement { complement32(sum) } else { sum }),
            forall|k: int|
                0 <= k < 16 ==> #[trigger] chars@[k] as int == byte_chars(
                    value_byte(value, k / 4),
                )[k % 4] && chars@[k] < 128,
            out@.len() == i,
            forall|j: int| 0 <= j < i ==> out@[j] == checksum_ascii(sum, complement)[j] && out@[j] < 128,
        decreases 16 - i,
    {
        let k = (i + 15) % 16;
        let ci = 4 * (k % 4) + k / 4;
        assert(ci / 4 == k % 4 && ci % 4 == k / 4 && ci < 16) by (nonlinear_arith)
            requires
                ci == 4 * (k % 4) + k / 4,
                k < 16,
        ;
        proof {
            assert(chars@[ci as int] as int == byte_chars(value_byte(value, ci as int / 4))[ci as int % 4]);
            assert(((i as int) + 15) % 16 == k as int);
            assert(checksum_ascii(sum, complement)[i as int] == byte_chars(
                value_byte(value, (k % 4) as int),
            )[(k / 4) as int] as u8);
        }
        out.push(chars[ci]);
        i += 1;
    }
    assert(out@ =~= checksum_ascii(sum, complement));
    let _ = asc;
    out
}

/// Encode a 32-bit checksum as 16 ASCII letters/digits (`fits_encode_chksum` / `ffesum`).
///
/// If `complement` is true, the bit-complement of `sum` is encoded (the form
/// stored in the `CHECKSUM` keyword).
pub fn encode_checksum(sum: u32, complement: bool) -> (r: String)
    ensures
        r@ == latin1(checksum_ascii(sum, complement)),
        encode_utf8(r@) == checksum_ascii(sum, complement),
{
    let b = encode_checksum_bytes(sum, complement);
    proof {
        lemma_latin1_ascii(b@);
    }
    string_of_bytes(b.as_slice())
}

/// `cbuf` digit of the decoder.
fn read_digit(b: &[u8], ii: usize) -> (r: i64)
    requires
        ii < 16,
    ensures
        r == cdigit(b@, ii as int),
        -48 <= r <= 207,
{
    let idx = (ii + 1) % 16;
    let c: i64 = if idx < b.len() { b[idx] as i64 } else { 48 };
    c - 48
}

/// Reduce a value below 2^32 in magnitude to its residue modulo 2^32.
fn wrap_u32(x: i64) -> (r: u32)
    requires
        -0x1_0000_0000 < x < 0x1_0000_0000,
    ensures
        r as int == wrap32(x as int),
{
    if x < 0 {
        (x + 0x1_0000_0000) as u32
    } else {
        x as u32
    }
}

/// Fold carries of two halves.
fn fold_exec(hi0: u32, lo0: u32) -> (r: (u32, u32))
    ensures
        r.0 as int == fold_carries(hi0 as int, lo0 as int).0,
        r.1 as int == fold_carries(hi0 as int, lo0 as int).1,
        r.0 < 0x10000,
        r.1 < 0x10000,
{
    let mut hi = hi0;
    let mut lo = lo0;
    let mut hicarry = hi >> 16u32;
    let mut locarry = lo >> 16u32;
    assert(hicarry == hi / 0x10000 && locarry == lo / 0x10000) by (bit_vector)
        requires
            hicarry == hi >> 16u32,
            locarry == lo >> 16u32,
    ;
    while hicarry != 0 || locarry != 0
        invariant
            fold_carries(hi as int, lo as int) == fold_carries(hi0 as int, lo0 as int),
            hicarry == hi / 0x10000,
            locarry == lo / 0x10000,
        decreases hi + lo,
    {
        assert(hi & 0xffffu32 == hi % 0x10000 && lo & 0xffffu32 == lo % 0x10000) by (bit_vector);
        let h2 = (hi & 0xffffu32) + locarry;
        let l2 = (lo & 0xffffu32) + hicarry;
        hi = h2;
        lo = l2;
        hicarry = hi >> 16u32;
        locarry = lo >> 16u32;
        assert(hicarry == hi / 0x10000 && locarry == lo / 0x10000) by (bit_vector)
            requires
                hicarry == hi >> 16u32,
                locarry == lo >> 16u32,
        ;
    }
    (hi, lo)
}

/// Decode a 16-character checksum given as bytes (`ffdsum`).
pub fn decode_checksum_bytes(b: &[u8], complement: bool) -> (r: u32)
    ensures
        r == checksum_decode(b@, complement),
{
    let hi_int: i64 = (read_digit(b, 0) + read_digit(b, 4) + read_digit(b, 8) + read_digit(b, 12))
        * 256 + read_digit(b, 1) + read_digit(b, 5) + read_digit(b, 9) + read_digit(b, 13);
    let lo_int: i64 = (read_digit(b, 2) + read_digit(b, 6) + read_digit(b, 10) + read_digit(b, 14))
        * 256 + read_digit(b, 3) + read_digit(b, 7) + read_digit(b, 11) + read_digit(b, 15);
    let hi = wrap_u32(hi_int);
    let lo = wrap_u32(lo_int);
    let (h, l) = fold_exec(hi, lo);
    let sum: u32 = h * 0x10000 + l;
    if complement {
        let r = !sum;
        assert(r == complement32(sum)) by (bit_vector)
            requires
                r == !sum,
        ;
        r
    } else {
        sum
    }
}

/// Decode a 16-character ASCII checksum (`fits_decode_chksum` / `ffdsum`).
pub fn decode_checksum(ascii: &str, complement: bool) -> (r: u32)
    ensures
        r == checksum_decode(ascii.spec_bytes(), complement),
{
    decode_checksum_bytes(ascii.as_bytes(), complement)
}

/// `fits_encode_chksum` / `ffesum`.
pub fn fits_encode_chksum(sum: u32, complement: bool) -> (r: String)
    ensures
        r@ == latin1(checksum_ascii(sum, complement)),
        encode_utf8(r@) == checksum_ascii(sum, complement),
{
    encode_checksum(sum, complement)
}

/// `fits_decode_chksum` / `ffdsum`.
pub fn fits_decode_chksum(ascii: &str, complement: bool) -> (r: u32)
    ensures
        r == checksum_decode(ascii.spec_bytes(), complement),
{
    decode_checksum(ascii, complement)
}

/// The four characters of a byte add up to the byte plus four `'0'`s.
proof fn lemma_byte_chars_sum(v: int)
    requires
        0 <= v <= 255,
    ensures
        byte_chars(v)[0] + byte_chars(v)[1] + byte_chars(v)[2] + byte_chars(v)[3] == v + 192,
{
    let q = v / 4 + 48;
    let r = v % 4;
    lemma_settle_sum(q + r, q);
    lemma_settle_sum(q, q);
}

/// The bytes of a value put back together give the value.
proof fn lemma_value_bytes(value: u32)
    ensures
        0 <= value_byte(value, 0) <= 255,
        0 <= value_byte(value, 1) <= 255,
        0 <= value_byte(value, 2) <= 255,
        0 <= value_byte(value, 3) <= 255,
        value_byte(value, 0) * 0x100_0000 + value_byte(value, 1) * 0x1_0000 + value_byte(value, 2)
            * 0x100 + value_byte(value, 3) == value,
{
    let b0 = (value >> 24u32) & 0xffu32;
    let b1 = (value >> 16u32) & 0xffu32;
    let b2 = (value >> 8u32) & 0xffu32;
    let b3 = value & 0xffu32;
    assert(b0 <= 255 && b1 <= 255 && b2 <= 255 && b3 <= 255) by (bit_vector)
        requires
            b0 == (value >> 24u32) & 0xffu32,
            b1 == (value >> 16u32) & 0xffu32,
            b2 == (value >> 8u32) & 0xffu32,
            b3 == value & 0xffu32,
    ;
    assert(b0 as int * 0x100_0000 + b1 as int * 0x1_0000 + b2 as int * 0x100 + b3 as int
        == value as int) by (bit_vector)
        requires
            b0 == (value >> 24u32) & 0xffu32,
            b1 == (value >> 16u32) & 0xffu32,
            b2 == (value >> 8u32) & 0xffu32,
            b3 == value & 0xffu32,
    ;
}

/// The decoder's result from its four digit-column sums.
proof fn lemma_decode_from_sums(b: Seq<u8>, complement: bool, value: u32)
    requires
        cdigit(b, 0) + cdigit(b, 4) + cdigit(b, 8) + cdigit(b, 12) == value_byte(value, 0),
        cdigit(b, 1) + cdigit(b, 5) + cdigit(b, 9) + cdigit(b, 13) == value_byte(value, 1),
        cdigit(b, 2) + cdigit(b, 6) + cdigit(b, 10) + cdigit(b, 14) == value_byte(value, 2),
        cdigit(b, 3) + cdigit(b, 7) + cdigit(b, 11) + cdigit(b, 15) == value_byte(value, 3),
    ensures
        checksum_decode(b, complement) == if complement { complement32(value) } else { value },
{
    lemma_value_bytes(value);
    let hi = value_byte(value, 0) * 256 + value_byte(value, 1);
    let lo = value_byte(value, 2) * 256 + value_byte(value, 3);
    assert(wrap32(hi) == hi);
    assert(wrap32(lo) == lo);
    lemma_fold_small(hi, lo);
    assert(hi * 0x10000 + lo == value);
}

/// One digit column of an encoded checksum adds up to the encoded byte.
proof fn lemma_column_sum(sum: u32, complement: bool, i: int)
    requires
        0 <= i < 4,
    ensures
        ({
            let b = checksum_ascii(sum, complement);
            cdigit(b, i) + cdigit(b, i + 4) + cdigit(b, i + 8) + cdigit(b, i + 12) == value_byte(
                if complement { complement32(sum) } else { sum },
                i,
            )
        }),
{
    let value = if complement { complement32(sum) } else { sum };
    lemma_cdigit_of_encoded(sum, complement, i);
    lemma_cdigit_of_encoded(sum, complement, i + 4);
    lemma_cdigit_of_encoded(sum, complement, i + 8);
    lemma_cdigit_of_encoded(sum, complement, i + 12);
    lemma_value_bytes(value);
    lemma_byte_chars_sum(value_byte(value, i));
    assert((i + 4) % 4 == i && (i + 8) % 4 == i && (i + 12) % 4 == i);
    assert(i / 4 == 0 && (i + 4) / 4 == 1 && (i + 8) / 4 == 2 && (i + 12) / 4 == 3);
}

/// Decoding an encoded checksum gives the checksum back (`ffdsum` inverts
/// `ffesum`, with the same `complement` flag).
pub proof fn lemma_checksum_roundtrip(sum: u32, complement: bool)
    ensures
        checksum_decode(checksum_ascii(sum, complement), complement) == sum,
{
    let value = if complement { complement32(sum) } else { sum };
    lemma_column_sum(sum, complement, 0);
    lemma_column_sum(sum, complement, 1);
    lemma_column_sum(sum, complement, 2);
    lemma_column_sum(sum, complement, 3);
    lemma_decode_from_sums(checksum_ascii(sum, complement), complement, value);
    if complement {
        assert(complement32(complement32(sum)) == sum);
    }
}

/// The encoded checksum string decodes to the sum it encodes.
pub proof fn lemma_checksum_string_roundtrip(sum: u32, complement: bool, s: Seq<char>)
    requires
        s == latin1(checksum_ascii(sum, complement)),
    ensures
        checksum_decode(encode_utf8(s), complement) == sum,
{
    let b = checksum_ascii(sum, complement);
    assert forall|i: int| 0 <= i < b.len() implies b[i] < 128 by {
        let k = (i + 15) % 16;
        lemma_checksum_char(if complement { complement32(sum) } else { sum }, k);
    }
    lemma_latin1_ascii(b);
    lemma_checksum_roundtrip(sum, complement);
}

/// Bounds of settled codes for the pairs the encoder builds.
proof fn lemma_settle_bounds(a: int, b: int)
    requires
        48 <= b <= a <= 114,
    ensures
        0 <= settle(a, b).1 <= settle(a, b).0 < 128,
{
    lemma_settle_sum(a, b);
    assert(excluded_at_or_above(a) <= 13);
    assert(excluded_at_or_below(b) <= 13);
    if a >= 97 {
        assert(excluded_at_or_above(a) == 0);
    }
}

/// Each encoded character is ASCII.
proof fn lemma_checksum_char(value: u32, k: int)
    requires
        0 <= k < 16,
    ensures
        0 <= byte_chars(value_byte(value, k % 4))[k / 4] < 128,
{
    lemma_value_bytes(value);
    let v = value_byte(value, k % 4);
    let q = v / 4 + 48;
    lemma_settle_bounds(q + v % 4, q);
    lemma_settle_bounds(q, q);
}

/// Character `ii` of the decoder's digit buffer, for an encoded checksum.
proof fn lemma_cdigit_of_encoded(sum: u32, complement: bool, ii: int)
    requires
        0 <= ii < 16,
    ensures
        cdigit(checksum_ascii(sum, complement), ii) == byte_chars(
            value_byte(if complement { complement32(sum) } else { sum }, ii % 4),
        )[ii / 4] - 48,
{
    let value = if complement { complement32(sum) } else { sum };
    let b = checksum_ascii(sum, complement);
    let j = (ii + 1) % 16;
    assert((j + 15) % 16 == ii);
    lemma_checksum_char(value, ii);
    assert(b[j] == byte_chars(value_byte(value, ii % 4))[ii / 4] as u8);
}

/// Big-endian 16-bit word at byte `i`.
pub open spec fn be16(b: Seq<u8>, i: int) -> int {
    b[i] as int * 256 + b[i + 1] as int
}

/// Sum of the words at `off`, `off + 4`, … (`n` of them).
pub open spec fn word_sum(b: Seq<u8>, off: int, n: nat) -> int
    decreases n,
{
    if n == 0 {
        0
    } else {
        word_sum(b, off, (n - 1) as nat) + be16(b, off + 4 * (n - 1))
    }
}

/// One 2880-byte record added into a running 1's complement checksum:
/// even words go to the high half, odd words to the low half, carries are
/// folded. Shorter input leaves the sum unchanged.
pub open spec fn add_record(sum: u32, rec: Seq<u8>) -> u32 {
    if rec.len() < 2880 {
        sum
    } else {
        let hi = sum / 0x10000 + word_sum(rec, 0, 720);
        let lo = sum % 0x10000 + word_sum(rec, 2, 720);
        let f = fold_carries(hi, lo);
        (f.0 * 0x10000 + f.1) as u32
    }
}

/// Checksum of the first `k` records of `bytes`.
pub open spec fn records_sum(bytes: Seq<u8>, k: nat) -> u32
    decreases k,
{
    if k == 0 {
        0
    } else {
        add_record(
            records_sum(bytes, (k - 1) as nat),
            bytes.subrange((k - 1) * 2880, (k * 2880) as int),
        )
    }
}

/// Folding ends with two 16-bit halves.
proof fn lemma_fold_bounds(hi: int, lo: int)
    requires
        0 <= hi,
        0 <= lo,
    ensures
        0 <= fold_carries(hi, lo).0 < 0x10000,
        0 <= fold_carries(hi, lo).1 < 0x10000,
    decreases hi + lo,
{
    if hi >= 0x10000 || lo >= 0x10000 {
        lemma_fold_bounds(hi % 0x10000 + lo / 0x10000, lo % 0x10000 + hi / 0x10000);
    }
}

/// Accumulate one 2880-byte FITS record into a running 1's complement checksum.
pub fn add_checksum_record(sum: u32, rec: &[u8]) -> (r: u32)
    ensures
        r == add_record(sum, if rec@.len() >= 2880 { rec@.subrange(0, 2880) } else { rec@ }),
{
    if rec.len() < RECORD_LEN {
        return sum;
    }
    let hi0 = sum >> 16u32;
    let lo0 = sum & 0xffffu32;
    assert(hi0 == sum / 0x10000 && lo0 == sum % 0x10000) by (bit_vector)
        requires
            hi0 == sum >> 16u32,
            lo0 == sum & 0xffffu32,
    ;
    let ghost r0 = rec@.subrange(0, 2880);
    let mut hi = hi0;
    let mut lo = lo0;
    let mut k: usize = 0;
    while k < 720
        invariant
            rec@.len() >= 2880,
            r0 == rec@.subrange(0, 2880),
            k <= 720,
            hi as int == hi0 + word_sum(r0, 0, k as nat),
            lo as int == lo0 + word_sum(r0, 2, k as nat),
            hi0 < 0x10000,
            lo0 < 0x10000,
            word_sum(r0, 0, k as nat) <= 65535 * k,
            word_sum(r0, 2, k as nat) <= 65535 * k,
        decreases 720 - k,
    {
        let i = 4 * k;
        let s0 = (rec[i] as u32) * 256 + rec[i + 1] as u32;
        let s1 = (rec[i + 2] as u32) * 256 + rec[i + 3] as u32;
        assert(be16(r0, 4 * k as int) == s0);
        assert(be16(r0, 2 + 4 * k as int) == s1);
        hi = hi + s0;
        lo = lo + s1;
        k += 1;
    }
    let (h, l) = fold_exec(hi, lo);
    proof {
        lemma_fold_bounds(hi as int, lo as int);
    }
    h * 0x10000 + l
}

/// Checksum of `nrec` consecutive 2880-byte records at `bytes` (stops at the
/// last whole record).
pub fn checksum_records(bytes: &[u8], nrec: usize) -> (r: u32)
    ensures
        r == records_sum(bytes@, if nrec < bytes@.len() / 2880 { nrec as nat } else { (bytes@.len() / 2880) as nat }),
{
    let mut sum: u32 = 0;
    let mut i: usize = 0;
    let nmax = bytes.len() / RECORD_LEN;
    let limit = if nrec < nmax { nrec } else { nmax };
    while i < limit
        invariant
            i <= limit,
            limit <= nmax,
            bytes@.len() <= usize::MAX,
            nmax == bytes@.len() / 2880,
            limit == (if nrec < bytes@.len() / 2880 { nrec as int } else { (bytes@.len() / 2880) as int }),
            sum == records_sum(bytes@, i as nat),
        decreases limit - i,
    {
        proof {
            let len = bytes@.len() as int;
            assert(nmax * 2880 <= len) by (nonlinear_arith)
                requires
                    nmax == len / 2880,
                    len >= 0,
            ;
            assert((i + 1) * 2880 <= nmax * 2880) by (nonlinear_arith)
                requires
                    i + 1 <= nmax,
            ;
            assert(i * 2880 + 2880 <= len);
        }
        let off = i * RECORD_LEN;
        let rec = crate::text::copy_range(bytes, off, off + RECORD_LEN);
        sum = add_checksum_record(sum, rec.as_slice());
        assert(rec@.subrange(0, 2880) =~= rec@);
        i += 1;
    }
    sum
}

/// An ASCII letter or digit.
pub open spec fn alnum(c: int) -> bool {
    (48 <= c <= 57) || (65 <= c <= 90) || (97 <= c <= 122)
}

/// What stays true of a pair of codes while it settles: in `'0'..='z'`,
/// with their sum far enough from the punctuation blocks that no step
/// leaves that range.
pub open spec fn settle_inv(a: int, b: int) -> bool {
    &&& 48 <= b <= a <= 122
    &&& (58 <= a <= 64 ==> a + b >= 113)
    &&& (91 <= a <= 96 ==> a + b >= 179)
    &&& (58 <= b <= 64 ==> a + b <= 131)
    &&& (91 <= b <= 96 ==> a + b <= 195)
}

proof fn lemma_settle_alnum(a: int, b: int)
    requires
        settle_inv(a, b),
    ensures
        alnum(settle(a, b).0),
        alnum(settle(a, b).1),
    decreases settle_measure(a, b),
{
    if excluded(a) || excluded(b) {
        assert(settle_inv(a + 1, b - 1));
        assert(settle_measure(a + 1, b - 1) < settle_measure(a, b));
        lemma_settle_alnum(a + 1, b - 1);
    }
}

/// Law: an encoded checksum is 16 ASCII letters and digits, and encoding
/// the complement of a sum is encoding the complemented sum.
pub proof fn lemma_checksum_alnum(sum: u32, complement: bool)
    ensures
        checksum_ascii(sum, complement).len() == 16,
        forall|i: int| 0 <= i < 16 ==> alnum(#[trigger] checksum_ascii(sum, complement)[i] as int),
        checksum_ascii(sum, true) == checksum_ascii(complement32(sum), false),
{
    let value = if complement { complement32(sum) } else { sum };
    assert forall|i: int| 0 <= i < 16 implies alnum(#[trigger] checksum_ascii(sum, complement)[i] as int) by {
        let k = (i + 15) % 16;
        lemma_value_bytes(value);
        let v = value_byte(value, k % 4);
        let q = v / 4 + 48;
        let r = v % 4;
        lemma_settle_alnum(q + r, q);
        lemma_settle_alnum(q, q);
        lemma_settle_bounds(q + r, q);
        lemma_settle_bounds(q, q);
        let c = byte_chars(v)[k / 4];
        assert(alnum(c));
        assert(0 <= c < 128);
        assert(checksum_ascii(sum, complement)[i] == c as u8);
    }
    assert(checksum_ascii(sum, true) =~= checksum_ascii(complement32(sum), false));
}

proof fn lemma_word_sum_zero(b: Seq<u8>, off: int, n: nat)
    requires
        forall|k: int| 0 <= k < b.len() ==> #[trigger] b[k] == 0,
        0 <= off,
        off + 4 * n <= b.len() + 2,
        off + 4 * n - 2 <= b.len(),
    ensures
        word_sum(b, off, n) == 0,
    decreases n,
{
    if n > 0 {
        lemma_word_sum_zero(b, off, (n - 1) as nat);
        let i = off + 4 * (n - 1);
        assert(b[i] == 0 && b[i + 1] == 0);
    }
}

/// Law: a record of zeros, or a record shorter than 2880 bytes, leaves the
/// sum as it is.
pub proof fn lemma_zero_record_identity(sum: u32, rec: Seq<u8>)
    requires
        rec.len() < 2880 || forall|k: int| 0 <= k < 2880 ==> #[trigger] rec[k] == 0,
    ensures
        add_record(sum, if rec.len() >= 2880 { rec.subrange(0, 2880) } else { rec }) == sum,
{
    if rec.len() >= 2880 {
        let r = rec.subrange(0, 2880);
        assert forall|k: int| 0 <= k < r.len() implies #[trigger] r[k] == 0 by {
            assert(r[k] == rec[k]);
        }
        lemma_word_sum_zero(r, 0, 720);
        lemma_word_sum_zero(r, 2, 720);
        lemma_fold_small(sum as int / 0x10000, sum as int % 0x10000);
    }
}

/// The digits of column `j` of a 16-character checksum string: the
/// characters at positions `j + 1`, `j + 5`, `j + 9` and `j + 13` (taken
/// modulo 16), each less `'0'`, added up.
pub open spec fn column_digits(s: Seq<u8>, j: int) -> int {
    (s[(j + 1) % 16] - 48) + (s[(j + 5) % 16] - 48) + (s[(j + 9) % 16] - 48) + (s[(j + 13) % 16] - 48)
}

/// The bytes of a 32-bit value, most significant first, as quotients.
proof fn lemma_value_byte_arith(value: u32)
    ensures
        value_byte(value, 0) == value as int / 0x100_0000,
        value_byte(value, 1) == (value as int / 0x1_0000) % 256,
        value_byte(value, 2) == (value as int / 0x100) % 256,
        value_byte(value, 3) == value as int % 256,
{
    lemma_value_bytes(value);
    let b0 = value_byte(value, 0);
    let b1 = value_byte(value, 1);
    let b2 = value_byte(value, 2);
    let b3 = value_byte(value, 3);
    let v = value as int;
    vstd::arithmetic::div_mod::lemma_fundamental_div_mod_converse(v, 0x100_0000, b0, b1 * 0x1_0000 + b2 * 0x100 + b3);
    vstd::arithmetic::div_mod::lemma_fundamental_div_mod_converse(v, 0x1_0000, b0 * 256 + b1, b2 * 0x100 + b3);
    vstd::arithmetic::div_mod::lemma_fundamental_div_mod_converse(b0 * 256 + b1, 256, b0, b1);
    vstd::arithmetic::div_mod::lemma_fundamental_div_mod_converse(v, 0x100, b0 * 0x1_0000 + b1 * 256 + b2, b3);
    vstd::arithmetic::div_mod::lemma_fundamental_div_mod_converse(b0 * 0x1_0000 + b1 * 256 + b2, 256, b0 * 256 + b1, b2);
    vstd::arithmetic::div_mod::lemma_fundamental_div_mod_converse(v, 256, b0 * 0x1_0000 + b1 * 0x100 + b2, b3);
}

/// One column of an encoded checksum holds the digits of one byte.
proof fn lemma_column_of_encoded(sum: u32, complement: bool, j: int)
    requires
        0 <= j < 4,
    ensures
        column_digits(checksum_ascii(sum, complement), j) == value_byte(
            if complement { complement32(sum) } else { sum },
            j,
        ),
{
    let value = if complement { complement32(sum) } else { sum };
    let s = checksum_ascii(sum, complement);
    lemma_value_bytes(value);
    assert forall|k: int| 0 <= k < 4 implies #[trigger] s[(4 * k + j + 1) % 16] as int == byte_chars(value_byte(value, j))[k] by {
        let i = (4 * k + j + 1) % 16;
        assert(0 <= 4 * k + j < 15 ==> i == 4 * k + j + 1);
        assert(4 * k + j == 15 ==> i == 0);
        assert((i + 15) % 16 == 4 * k + j);
        assert((4 * k + j) % 4 == j && (4 * k + j) / 4 == k);
        lemma_checksum_char(value, 4 * k + j);
    }
    assert(s[(4 * 0 + j + 1) % 16] as int == byte_chars(value_byte(value, j))[0]);
    assert(4 * 0 + j + 1 == j + 1);
    assert(s[(4 * 1 + j + 1) % 16] as int == byte_chars(value_byte(value, j))[1]);
    assert(s[(4 * 2 + j + 1) % 16] as int == byte_chars(value_byte(value, j))[2]);
    assert(s[(4 * 3 + j + 1) % 16] as int == byte_chars(value_byte(value, j))[3]);
    assert(4 * 1 + j + 1 == j + 5 && 4 * 2 + j + 1 == j + 9 && 4 * 3 + j + 1 == j + 13);
    lemma_byte_chars_sum(value_byte(value, j));
}

/// Law: the character layout of an encoded checksum (`ffesum`). Column `j`
/// of the string (its characters `j + 1`, `j + 5`, `j + 9` and `j + 13`,
/// modulo 16) holds the digits of byte `j` of the encoded value, most
/// significant byte first: their values above `'0'` add up to that byte.
/// The encoded value is `sum`, or its complement `0xffffffff - sum`.
pub proof fn lemma_checksum_columns(sum: u32, complement: bool)
    ensures
        ({
            let v: int = if complement { 0xffff_ffff - sum as int } else { sum as int };
            let s = checksum_ascii(sum, complement);
            &&& s.len() == 16
            &&& column_digits(s, 0) == v / 0x100_0000
            &&& column_digits(s, 1) == (v / 0x1_0000) % 256
            &&& column_digits(s, 2) == (v / 0x100) % 256
            &&& column_digits(s, 3) == v % 256
        }),
{
    let value = if complement { complement32(sum) } else { sum };
    assert(value as int == if complement { 0xffff_ffff - sum as int } else { sum as int });
    lemma_value_byte_arith(value);
    lemma_column_of_encoded(sum, complement, 0);
    lemma_column_of_encoded(sum, complement, 1);
    lemma_column_of_encoded(sum, complement, 2);
    lemma_column_of_encoded(sum, complement, 3);
}

/// Words read from `off` on: all zero but possibly the one at index `m0`.
proof fn lemma_word_sum_single(b: Seq<u8>, off: int, n: nat, m0: int)
    requires
        0 <= off,
        n > 0 ==> off + 4 * (n - 1) + 1 < b.len(),
        forall|m: int| 0 <= m < n && m != m0 ==> be16(b, #[trigger] (off + 4 * m)) == 0,
    ensures
        word_sum(b, off, n) == if 0 <= m0 < n { be16(b, off + 4 * m0) } else { 0 },
    decreases n,
{
    if n > 0 {
        lemma_word_sum_single(b, off, (n - 1) as nat, m0);
        let m = n - 1;
        if m != m0 {
            assert(be16(b, off + 4 * m) == 0);
        }
    }
}

/// Law: a record adds its bytes as 720 big-endian 32-bit words. A record
/// that is zero but for the 32-bit word `w` at byte `4k` (bytes `w / 2^24`,
/// `w / 2^16 % 256`, `w / 2^8 % 256` and `w % 256`, in that order) adds
/// exactly `w` to a zero sum.
pub proof fn lemma_single_word_record(rec: Seq<u8>, k: int, w: u32)
    requires
        rec.len() == 2880,
        0 <= k < 720,
        forall|i: int| 0 <= i < 2880 && (i < 4 * k || i >= 4 * k + 4) ==> #[trigger] rec[i] == 0,
        rec[4 * k] as int == w as int / 0x100_0000,
        rec[4 * k + 1] as int == (w as int / 0x1_0000) % 256,
        rec[4 * k + 2] as int == (w as int / 0x100) % 256,
        rec[4 * k + 3] as int == w as int % 256,
    ensures
        add_record(0, if rec.len() >= 2880 { rec.subrange(0, 2880) } else { rec }) == w,
{
    assert(rec.subrange(0, 2880) =~= rec);
    assert forall|m: int| 0 <= m < 720 && m != k implies be16(rec, #[trigger] (0 + 4 * m)) == 0 by {
        assert(rec[4 * m] == 0 && rec[4 * m + 1] == 0);
    }
    assert forall|m: int| 0 <= m < 720 && m != k implies be16(rec, #[trigger] (2 + 4 * m)) == 0 by {
        assert(rec[4 * m + 2] == 0 && rec[4 * m + 3] == 0);
    }
    lemma_word_sum_single(rec, 0, 720, k);
    lemma_word_sum_single(rec, 2, 720, k);
    let v = w as int;
    let hi = rec[4 * k] as int * 256 + rec[4 * k + 1] as int;
    let lo = rec[4 * k + 2] as int * 256 + rec[4 * k + 3] as int;
    vstd::arithmetic::div_mod::lemma_fundamental_div_mod(v, 0x1_0000);
    vstd::arithmetic::div_mod::lemma_fundamental_div_mod(v / 0x1_0000, 256);
    vstd::arithmetic::div_mod::lemma_fundamental_div_mod(v % 0x1_0000, 256);
    vstd::arithmetic::div_mod::lemma_div_denominator(v, 0x1_0000, 256);
    vstd::arithmetic::div_mod::lemma_mod_mod(v, 0x100, 256);
    assert(v / 0x1_0000 < 0x1_0000);
    assert((v / 0x1_0000) / 256 == v / 0x100_0000);
    assert(hi == v / 0x1_0000);
    assert((v % 0x1_0000) / 256 == (v / 0x100) % 256) by {
        vstd::arithmetic::div_mod::lemma_breakdown(v, 0x100, 256);
    }
    assert((v % 0x1_0000) % 256 == v % 256) by {
        vstd::arithmetic::div_mod::lemma_mod_mod(v, 0x100, 256);
    }
    assert(lo == v % 0x1_0000);
    lemma_fold_small(hi, lo);
}

/// Sum of the first `n` 32-bit words of `b`, each read big-endian from its
/// four bytes.
pub open spec fn be_word_total(b: Seq<u8>, n: nat) -> int
    decreases n,
{
    if n == 0 {
        0
    } else {
        be_word_total(b, (n - 1) as nat) + b[4 * (n - 1)] as int * 0x100_0000 + b[4 * (n - 1) + 1] as int * 0x1_0000
            + b[4 * (n - 1) + 2] as int * 0x100 + b[4 * (n - 1) + 3] as int
    }
}

proof fn lemma_word_halves(b: Seq<u8>, n: nat)
    ensures
        word_sum(b, 0, n) * 0x1_0000 + word_sum(b, 2, n) == be_word_total(b, n),
    decreases n,
{
    if n > 0 {
        lemma_word_halves(b, (n - 1) as nat);
    }
}

/// Folding the carries keeps the value modulo `2^32 - 1`.
proof fn lemma_fold_congruent(hi: int, lo: int)
    requires
        0 <= hi,
        0 <= lo,
    ensures
        (fold_carries(hi, lo).0 * 0x1_0000 + fold_carries(hi, lo).1) % 0xffff_ffff == (hi * 0x1_0000 + lo)
            % 0xffff_ffff,
    decreases hi + lo,
{
    if hi >= 0x10000 || lo >= 0x10000 {
        let h2 = hi % 0x10000 + lo / 0x10000;
        let l2 = lo % 0x10000 + hi / 0x10000;
        vstd::arithmetic::div_mod::lemma_fundamental_div_mod(hi, 0x10000);
        vstd::arithmetic::div_mod::lemma_fundamental_div_mod(lo, 0x10000);
        assert(hi / 0x10000 + lo / 0x10000 < hi + lo) by {
            if hi >= 0x10000 {
                assert(hi / 0x10000 < hi);
            } else {
                assert(lo / 0x10000 < lo);
            }
        }
        lemma_fold_congruent(h2, l2);
        let q = hi / 0x10000;
        assert(hi * 0x1_0000 + lo == h2 * 0x1_0000 + l2 + 0xffff_ffff * q) by (nonlinear_arith)
            requires
                hi == 0x10000 * q + hi % 0x10000,
                lo == 0x10000 * (lo / 0x10000) + lo % 0x10000,
                h2 == hi % 0x10000 + lo / 0x10000,
                l2 == lo % 0x10000 + q,
        ;
        vstd::arithmetic::div_mod::lemma_mod_multiples_vanish(q, h2 * 0x1_0000 + l2, 0xffff_ffff);
        assert(0xffff_ffff * q + (h2 * 0x1_0000 + l2) == hi * 0x1_0000 + lo);
    }
}

/// Law: adding a record is 1's complement addition of its 720 big-endian
/// 32-bit words: the result equals the running sum plus the words, modulo
/// `2^32 - 1` (`0xffffffff` and 0 both standing for zero).
pub proof fn lemma_record_words(sum: u32, rec: Seq<u8>)
    requires
        rec.len() >= 2880,
    ensures
        (add_record(sum, rec.subrange(0, 2880)) as int) % 0xffff_ffff == (sum as int + be_word_total(rec, 720))
            % 0xffff_ffff,
{
    let r = rec.subrange(0, 2880);
    lemma_word_halves(r, 720);
    assert forall|n: nat| n <= 720 implies be_word_total(r, n) == be_word_total(rec, n) by {
        lemma_total_prefix(rec, n);
    }
    let w0 = word_sum(r, 0, 720);
    let w2 = word_sum(r, 2, 720);
    lemma_word_sum_nonneg(r, 0, 720);
    lemma_word_sum_nonneg(r, 2, 720);
    let hi = sum as int / 0x10000 + w0;
    let lo = sum as int % 0x10000 + w2;
    vstd::arithmetic::div_mod::lemma_fundamental_div_mod(sum as int, 0x10000);
    assert(hi * 0x1_0000 + lo == sum as int + be_word_total(r, 720));
    lemma_fold_congruent(hi, lo);
    lemma_fold_bounds(hi, lo);
}

proof fn lemma_total_prefix(rec: Seq<u8>, n: nat)
    requires
        n <= 720,
        rec.len() >= 2880,
    ensures
        be_word_total(rec.subrange(0, 2880), n) == be_word_total(rec, n),
    decreases n,
{
    if n > 0 {
        lemma_total_prefix(rec, (n - 1) as nat);
    }
}

proof fn lemma_word_sum_nonneg(b: Seq<u8>, off: int, n: nat)
    ensures
        word_sum(b, off, n) >= 0,
    decreases n,
{
    if n > 0 {
        lemma_word_sum_nonneg(b, off, (n - 1) as nat);
    }
}

/// Law: the decoder reads the same layout (`ffdsum`): for a 16-byte string
/// whose four column digit sums (`column_digits`) are bytes, the decoded
/// value has column `j`'s sum as its byte `j`, most significant first.
pub proof fn lemma_decode_columns(b: Seq<u8>)
    requires
        b.len() == 16,
        0 <= column_digits(b, 0) <= 255,
        0 <= column_digits(b, 1) <= 255,
        0 <= column_digits(b, 2) <= 255,
        0 <= column_digits(b, 3) <= 255,
    ensures
        checksum_decode(b, false) as int == column_digits(b, 0) * 0x100_0000 + column_digits(b, 1) * 0x1_0000
            + column_digits(b, 2) * 0x100 + column_digits(b, 3),
{
    assert forall|ii: int| 0 <= ii < 16 implies #[trigger] cdigit(b, ii) == b[(ii + 1) % 16] - 48 by {}
    let hi = column_digits(b, 0) * 256 + column_digits(b, 1);
    let lo = column_digits(b, 2) * 256 + column_digits(b, 3);
    assert(cdigit(b, 0) + cdigit(b, 4) + cdigit(b, 8) + cdigit(b, 12) == column_digits(b, 0));
    assert(cdigit(b, 1) + cdigit(b, 5) + cdigit(b, 9) + cdigit(b, 13) == column_digits(b, 1));
    assert(cdigit(b, 2) + cdigit(b, 6) + cdigit(b, 10) + cdigit(b, 14) == column_digits(b, 2));
    assert(cdigit(b, 3) + cdigit(b, 7) + cdigit(b, 11) + cdigit(b, 15) == column_digits(b, 3));
    assert(wrap32(hi) == hi);
    assert(wrap32(lo) == lo);
    lemma_fold_small(hi, lo);
}

/// Law: the four characters of a byte's column, when no punctuation is in
/// the way (`ffesum`): column `j` of the string, read at positions `j + 1`,
/// `j + 5`, `j + 9` and `j + 13` (modulo 16), is `'0' + b / 4 + b % 4`
/// followed by three times `'0' + b / 4`, where `b` is byte `j` (most
/// significant first) of the encoded value, provided neither code lies in
/// `:;<=>?@` or `[\]^_\``.
pub proof fn lemma_checksum_plain_column(sum: u32, complement: bool, j: int)
    requires
        0 <= j < 4,
        ({
            let v: int = if complement { 0xffff_ffff - sum as int } else { sum as int };
            let b = if j == 0 {
                v / 0x100_0000
            } else if j == 1 {
                (v / 0x1_0000) % 256
            } else if j == 2 {
                (v / 0x100) % 256
            } else {
                v % 256
            };
            let q = 48 + b / 4;
            &&& !(58 <= q <= 64 || 91 <= q <= 96)
            &&& !(58 <= q + b % 4 <= 64 || 91 <= q + b % 4 <= 96)
        }),
    ensures
        ({
            let v: int = if complement { 0xffff_ffff - sum as int } else { sum as int };
            let b = if j == 0 {
                v / 0x100_0000
            } else if j == 1 {
                (v / 0x1_0000) % 256
            } else if j == 2 {
                (v / 0x100) % 256
            } else {
                v % 256
            };
            let s = checksum_ascii(sum, complement);
            &&& s[(j + 1) % 16] as int == 48 + b / 4 + b % 4
            &&& s[(j + 5) % 16] as int == 48 + b / 4
            &&& s[(j + 9) % 16] as int == 48 + b / 4
            &&& s[(j + 13) % 16] as int == 48 + b / 4
        }),
{
    let value = if complement { complement32(sum) } else { sum };
    assert(value as int == if complement { 0xffff_ffff - sum as int } else { sum as int });
    lemma_value_byte_arith(value);
    let s = checksum_ascii(sum, complement);
    lemma_value_bytes(value);
    assert forall|k: int| 0 <= k < 4 implies #[trigger] s[(4 * k + j + 1) % 16] as int == byte_chars(value_byte(value, j))[k] by {
        let i = (4 * k + j + 1) % 16;
        assert(0 <= 4 * k + j < 15 ==> i == 4 * k + j + 1);
        assert(4 * k + j == 15 ==> i == 0);
        assert((i + 15) % 16 == 4 * k + j);
        assert((4 * k + j) % 4 == j && (4 * k + j) / 4 == k);
        lemma_checksum_char(value, 4 * k + j);
    }
    assert(s[(4 * 0 + j + 1) % 16] as int == byte_chars(value_byte(value, j))[0]);
    assert(s[(4 * 1 + j + 1) % 16] as int == byte_chars(value_byte(value, j))[1]);
    assert(s[(4 * 2 + j + 1) % 16] as int == byte_chars(value_byte(value, j))[2]);
    assert(s[(4 * 3 + j + 1) % 16] as int == byte_chars(value_byte(value, j))[3]);
    assert(4 * 0 + j + 1 == j + 1 && 4 * 1 + j + 1 == j + 5 && 4 * 2 + j + 1 == j + 9 && 4 * 3 + j + 1 == j + 13);
}

} // verus!
