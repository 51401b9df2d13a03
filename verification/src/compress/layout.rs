//! Tile pixels as the codecs take and give them: integers written as
//! big-endian two's-complement bytes, and big-endian bytes read back as
//! integers.
use vstd::prelude::*;
use crate::convert::{be_bytes, be_value, pow256};

verus! {

/// Bytes per value written for a pixel width of `bpp` bytes: 1, 2 or 8,
/// and 4 for any other width.
pub open spec fn be_width(bpp: int) -> nat {
    if bpp == 1 {
        1
    } else if bpp == 2 {
        2
    } else if bpp == 8 {
        8
    } else {
        4
    }
}

/// The values, each as `n` big-endian two's-complement bytes.
pub open spec fn ints_be(ints: Seq<i32>, n: nat) -> Seq<u8>
    decreases ints.len(),
{
    if ints.len() == 0 {
        Seq::empty()
    } else {
        ints_be(ints.drop_last(), n) + be_bytes(ints.last() as int, n)
    }
}

/// Value of big-endian bytes read as a signed number of their width; a
/// single byte is read unsigned.
pub open spec fn be_signed(b: Seq<u8>) -> int {
    let v = be_value(b);
    let full = pow256(b.len());
    if b.len() > 1 && v >= full / 2 {
        v - full
    } else {
        v
    }
}

/// The whole `w`-byte groups of `bytes`, each read by `be_signed`.
pub open spec fn be_groups(bytes: Seq<u8>, w: int) -> Seq<int> {
    Seq::new((bytes.len() as int / w) as nat, |k: int| be_signed(bytes.subrange(w * k, w * k + w)))
}

/// Bytes per stored pixel a tile of BITPIX `zbitpix` is read with: 1 for
/// 8, 2 for 16, else 4.
pub open spec fn stored_width(zbitpix: int) -> int {
    if zbitpix == 8 {
        1
    } else if zbitpix == 16 {
        2
    } else {
        4
    }
}

/// Equal values modulo `256^n` have the same `n` big-endian bytes.
pub(crate) proof fn lemma_be_bytes_mod(a: int, b: int, n: nat)
    requires
        a % pow256(n) == b % pow256(n),
    ensures
        be_bytes(a, n) == be_bytes(b, n),
    decreases n,
{
    if n > 0 {
        let p = pow256((n - 1) as nat);
        lemma_pow256_pos((n - 1) as nat);
        assert(pow256(n) == 256 * p);
        let m = 256 * p;
        let r = a % m;
        let qa = a / m;
        let qb = b / m;
        vstd::arithmetic::div_mod::lemma_fundamental_div_mod(a, m);
        vstd::arithmetic::div_mod::lemma_fundamental_div_mod(b, m);
        let r1 = r % 256;
        let r2 = r / 256;
        vstd::arithmetic::div_mod::lemma_fundamental_div_mod(r, 256);
        assert(0 <= r2 < p) by (nonlinear_arith)
            requires
                r == 256 * r2 + r1,
                0 <= r1 < 256,
                0 <= r < 256 * p,
        ;
        assert(a == 256 * (p * qa + r2) + r1) by (nonlinear_arith)
            requires
                a == m * qa + r,
                m == 256 * p,
                r == 256 * r2 + r1,
        ;
        assert(b == 256 * (p * qb + r2) + r1) by (nonlinear_arith)
            requires
                b == m * qb + r,
                m == 256 * p,
                r == 256 * r2 + r1,
        ;
        vstd::arithmetic::div_mod::lemma_fundamental_div_mod_converse(a, 256, p * qa + r2, r1);
        vstd::arithmetic::div_mod::lemma_fundamental_div_mod_converse(b, 256, p * qb + r2, r1);
        vstd::arithmetic::div_mod::lemma_fundamental_div_mod_converse(a / 256, p, qa, r2);
        vstd::arithmetic::div_mod::lemma_fundamental_div_mod_converse(b / 256, p, qb, r2);
        lemma_be_bytes_mod(a / 256, b / 256, (n - 1) as nat);
    }
}

proof fn lemma_pow256_pos(n: nat)
    ensures
        pow256(n) > 0,
    decreases n,
{
    if n > 0 {
        lemma_pow256_pos((n - 1) as nat);
    }
}

/// Push the `n` big-endian bytes of `u`.
pub(crate) fn push_be_u64(out: &mut Vec<u8>, u: u64, n: usize)
    requires
        n <= 8,
    ensures
        final(out)@ == old(out)@ + be_bytes(u as int, n as nat),
    decreases n,
{
    if n > 0 {
        push_be_u64(out, u / 256, n - 1);
        out.push((u % 256) as u8);
        assert(old(out)@ + be_bytes(u as int, n as nat) =~= old(out)@ + be_bytes((u / 256) as int, (n - 1) as nat)
            + seq![(u % 256) as u8]);
    }
}

/// Pixels as big-endian bytes of `bpp` bytes each (`bpp` other than 1, 2
/// or 8 writes 4 bytes).
pub fn ints_to_be(ints: &[i32], bpp: usize) -> (r: Vec<u8>)
    ensures
        r@ == ints_be(ints@, be_width(bpp as int)),
{
    let n: usize = if bpp == 1 {
        1
    } else if bpp == 2 {
        2
    } else if bpp == 8 {
        8
    } else {
        4
    };
    let mut out: Vec<u8> = Vec::new();
    let mut k: usize = 0;
    while k < ints.len()
        invariant
            k <= ints@.len(),
            n == be_width(bpp as int),
            out@ == ints_be(ints@.subrange(0, k as int), n as nat),
        decreases ints.len() - k,
    {
        let v = ints[k];
        let u = v as u64;
        proof {
            assert(v >= 0 ==> (v as u64) as int == v as int) by (bit_vector);
            assert(v < 0 ==> (v as u64) as int == v as int + 0x1_0000_0000_0000_0000) by (bit_vector);
            reveal_with_fuel(pow256, 9);
            if v < 0 {
                let p = pow256(n as nat);
                let q: int = if n == 1 {
                    0x100_0000_0000_0000
                } else if n == 2 {
                    0x1_0000_0000_0000
                } else if n == 4 {
                    0x1_0000_0000
                } else {
                    1
                };
                assert(p * q == 0x1_0000_0000_0000_0000int);
                vstd::arithmetic::div_mod::lemma_mod_multiples_vanish(q, v as int, p);
            }
            lemma_be_bytes_mod(u as int, v as int, n as nat);
            assert(ints@.subrange(0, k + 1).drop_last() =~= ints@.subrange(0, k as int));
        }
        push_be_u64(&mut out, u, n);
        k += 1;
    }
    assert(ints@.subrange(0, ints@.len() as int) =~= ints@);
    out
}

/// Value of the `w` big-endian bytes of `b` from `start`.
fn be_at(b: &[u8], start: usize, w: usize) -> (r: u64)
    requires
        start + w <= b@.len(),
        w <= 4,
    ensures
        r == be_value(b@.subrange(start as int, start + w)),
        r < pow256(w as nat),
{
    let blen = b.len();
    let mut acc: u64 = 0;
    let mut j: usize = 0;
    proof {
        reveal_with_fuel(pow256, 5);
    }
    while j < w
        invariant
            blen == b@.len(),
            j <= w <= 4,
            start + w <= b@.len(),
            acc == be_value(b@.subrange(start as int, start + j)),
            acc < pow256(j as nat),
            pow256(4) == 0x1_0000_0000,
        decreases w - j,
    {
        proof {
            assert(b@.subrange(start as int, start + j + 1).drop_last() =~= b@.subrange(start as int, start + j));
            reveal_with_fuel(pow256, 5);
            assert(pow256((j + 1) as nat) == 256 * pow256(j as nat));
            assert(j == 0 || j == 1 || j == 2 || j == 3);
            assert(acc < 0x100_0000);
        }
        acc = acc * 256 + b[start + j] as u64;
        j += 1;
    }
    acc
}

/// Signed value of `w` big-endian bytes (a single byte read unsigned).
pub(crate) fn be_signed_at(b: &[u8], start: usize, w: usize) -> (r: i64)
    requires
        start + w <= b@.len(),
        1 <= w <= 4,
    ensures
        r == be_signed(b@.subrange(start as int, start + w)),
{
    let v = be_at(b, start, w);
    proof {
        reveal_with_fuel(pow256, 5);
    }
    if w == 1 {
        v as i64
    } else if w == 2 {
        if v >= 0x8000 {
            v as i64 - 0x1_0000
        } else {
            v as i64
        }
    } else if w == 3 {
        if v >= 0x80_0000 {
            v as i64 - 0x100_0000
        } else {
            v as i64
        }
    } else {
        if v >= 0x8000_0000 {
            v as i64 - 0x1_0000_0000
        } else {
            v as i64
        }
    }
}

/// Pixels of a tile's stored bytes for BITPIX `zbitpix`: bytes unsigned
/// for 8, big-endian `i16` for 16, big-endian `i32` otherwise; a last
/// partial group is left out.
pub fn stored_to_ints(tile: &[u8], zbitpix: i32) -> (r: Vec<i32>)
    ensures
        r@.len() == be_groups(tile@, stored_width(zbitpix as int)).len(),
        forall|k: int| 0 <= k < r@.len() ==> r@[k] as int == be_groups(tile@, stored_width(zbitpix as int))[k],
{
    let w: usize = if zbitpix == 8 {
        1
    } else if zbitpix == 16 {
        2
    } else {
        4
    };
    let len = tile.len();
    let count = len / w;
    let mut out: Vec<i32> = Vec::new();
    let mut k: usize = 0;
    while k < count
        invariant
            len == tile@.len(),
            w == stored_width(zbitpix as int),
            count == tile@.len() as int / (w as int),
            k <= count,
            out@.len() == k,
            forall|j: int| 0 <= j < k ==> out@[j] as int == be_groups(tile@, w as int)[j],
        decreases count - k,
    {
        proof {
            assert(w * k + w <= tile@.len()) by (nonlinear_arith)
                requires
                    k < count,
                    count == tile@.len() as int / (w as int),
                    w >= 1,
            {
                vstd::arithmetic::div_mod::lemma_fundamental_div_mod(tile@.len() as int, w as int);
            }
        }
        let v = be_signed_at(tile, w * k, w);
        proof {
            reveal_with_fuel(pow256, 5);
            lemma_be_value_bound(tile@.subrange((w * k) as int, w * k + w));
        }
        out.push(v as i32);
        k += 1;
    }
    out
}

/// Big-endian `i16` words of a byte string (a last odd byte left out).
pub fn be_i16_words(bytes: &[u8]) -> (r: Vec<i16>)
    ensures
        r@.len() == be_groups(bytes@, 2).len(),
        forall|k: int| 0 <= k < r@.len() ==> r@[k] as int == be_groups(bytes@, 2)[k],
{
    let len = bytes.len();
    let count = len / 2;
    let mut out: Vec<i16> = Vec::new();
    let mut k: usize = 0;
    while k < count
        invariant
            len == bytes@.len(),
            count == bytes@.len() / 2,
            k <= count,
            out@.len() == k,
            forall|j: int| 0 <= j < k ==> out@[j] as int == be_groups(bytes@, 2)[j],
        decreases count - k,
    {
        let v = be_signed_at(bytes, 2 * k, 2);
        proof {
            reveal_with_fuel(pow256, 3);
            lemma_be_value_bound(bytes@.subrange(2 * k as int, 2 * k + 2));
        }
        out.push(v as i16);
        k += 1;
    }
    out
}

/// Big-endian `i32` values of a byte string (a last partial group left
/// out).
pub fn be_i32_from_bytes(bytes: &[u8]) -> (r: Vec<i32>)
    ensures
        r@.len() == be_groups(bytes@, 4).len(),
        forall|k: int| 0 <= k < r@.len() ==> r@[k] as int == be_groups(bytes@, 4)[k],
{
    let len = bytes.len();
    let count = len / 4;
    let mut out: Vec<i32> = Vec::new();
    let mut k: usize = 0;
    while k < count
        invariant
            len == bytes@.len(),
            count == bytes@.len() / 4,
            k <= count,
            out@.len() == k,
            forall|j: int| 0 <= j < k ==> out@[j] as int == be_groups(bytes@, 4)[j],
        decreases count - k,
    {
        let v = be_signed_at(bytes, 4 * k, 4);
        proof {
            reveal_with_fuel(pow256, 5);
            lemma_be_value_bound(bytes@.subrange(4 * k as int, 4 * k + 4));
        }
        out.push(v as i32);
        k += 1;
    }
    out
}

/// Big-endian bytes have a value below `256` to their number.
pub(crate) proof fn lemma_be_value_bound(b: Seq<u8>)
    ensures
        0 <= be_value(b) < pow256(b.len()),
    decreases b.len(),
{
    if b.len() > 0 {
        lemma_be_value_bound(b.drop_last());
    }
}

} // verus!
