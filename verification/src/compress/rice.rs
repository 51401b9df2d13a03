//! Rice coding used by tiled image compression (`RICE_1`). Adjacent-pixel
//! differences are mapped to unsigned values, then Rice-coded in blocks of
//! `nblock` (typically 32) pixels.
use vstd::prelude::*;
use vstd::arithmetic::power2::{lemma2_to64, pow2};
use crate::compress::plio::repeat;
use crate::error::FitsError;
use crate::status::{DATA_COMPRESSION_ERR, DATA_DECOMPRESSION_ERR};

verus! {

/// Default Rice block size written as `ZVAL1`.
pub const DEFAULT_BLOCKSIZE: i32 = 32;

// ---------------------------------------------------------------------
// Bit strings and their bytes.
// ---------------------------------------------------------------------

/// The low `n` bits of `v`, most significant first.
pub open spec fn bits_of(v: int, n: int) -> Seq<bool>
    decreases n,
{
    if n <= 0 {
        Seq::empty()
    } else {
        bits_of(v / 2, n - 1).push(v % 2 == 1)
    }
}

/// Value of a bit string read most significant bit first.
pub open spec fn bits_val(bs: Seq<bool>) -> int
    decreases bs.len(),
{
    if bs.len() == 0 {
        0
    } else {
        bits_val(bs.drop_last()) * 2 + if bs.last() {
            1int
        } else {
            0
        }
    }
}

/// `k` zero bits.
pub open spec fn zero_bits(k: int) -> Seq<bool> {
    Seq::new(if k > 0 { k as nat } else { 0 }, |i: int| false)
}

/// Bytes of a bit string, 8 bits each, the last byte filled with zero bits.
pub open spec fn pack_bits(bs: Seq<bool>) -> Seq<u8> {
    let nbytes = (bs.len() + 7) / 8;
    let padded = bs + zero_bits(nbytes * 8 - bs.len());
    Seq::new(nbytes as nat, |j: int| bits_val(padded.subrange(8 * j, 8 * j + 8)) as u8)
}

/// Bits written one at a time into bytes.
pub(crate) struct BitWriter {
    pub(crate) bytes: Vec<u8>,
    pub(crate) acc: u32,
    pub(crate) nacc: u32,
    pub(crate) bits: Ghost<Seq<bool>>,
}

impl BitWriter {
    pub(crate) closed spec fn wf(&self) -> bool {
        &&& self.nacc < 8
        &&& self.bits@.len() == 8 * self.bytes@.len() + self.nacc
        &&& self.acc == bits_val(self.bits@.subrange(8 * self.bytes@.len() as int, self.bits@.len() as int))
        &&& forall|j: int| 0 <= j < self.bytes@.len() ==> #[trigger] self.bytes@[j] == bits_val(
            self.bits@.subrange(8 * j, 8 * j + 8),
        ) as u8
    }

    pub(crate) fn new() -> (r: BitWriter)
        ensures
            r.wf(),
            r.bits@ == Seq::<bool>::empty(),
    {
        let r = BitWriter { bytes: Vec::new(), acc: 0, nacc: 0, bits: Ghost(Seq::empty()) };
        assert(r.bits@.subrange(0, 0) =~= Seq::<bool>::empty());
        r
    }

    pub(crate) fn push_bit(&mut self, b: bool)
        requires
            old(self).wf(),
        ensures
            final(self).wf(),
            final(self).bits@ == old(self).bits@.push(b),
    {
        let ghost old_bits = self.bits@;
        let ghost start: int = 8 * self.bytes@.len() as int;
        proof {
            lemma_bits_val_bound(old_bits.subrange(start, old_bits.len() as int));
            lemma2_to64();
            if self.nacc < 7 {
                vstd::arithmetic::power2::lemma_pow2_strictly_increases(self.nacc as nat, 7);
            }
        }
        self.acc = self.acc * 2 + if b { 1 } else { 0 };
        self.nacc = self.nacc + 1;
        self.bits = Ghost(old_bits.push(b));
        assert(self.bits@.subrange(start, self.bits@.len() as int).drop_last() =~= old_bits.subrange(
            start,
            old_bits.len() as int,
        ));
        assert(forall|j: int|
            0 <= j < self.bytes@.len() ==> #[trigger] self.bits@.subrange(8 * j, 8 * j + 8)
                =~= old_bits.subrange(8 * j, 8 * j + 8));
        if self.nacc == 8 {
            self.bytes.push(self.acc as u8);
            self.acc = 0;
            self.nacc = 0;
            assert(self.bits@.subrange(8 * self.bytes@.len() as int, self.bits@.len() as int)
                =~= Seq::<bool>::empty());
        }
    }

    /// Append the low `n` bits of `v`, most significant first.
    pub(crate) fn put_bits(&mut self, v: u32, n: u32)
        requires
            old(self).wf(),
            n <= 32,
        ensures
            final(self).wf(),
            final(self).bits@ == old(self).bits@ + bits_of(v as int, n as int),
    {
        let mut k: u32 = n;
        while k > 0
            invariant
                self.wf(),
                k <= n <= 32,
                self.bits@ == old(self).bits@ + bits_of(v as int, n as int).subrange(0, (n - k) as int),
            decreases k,
        {
            let bit = (v >> (k - 1)) & 1 == 1;
            proof {
                lemma_bits_of_index(v, n, k);
                lemma_bits_of_len(v as int, n as int);
            }
            self.push_bit(bit);
            assert(bits_of(v as int, n as int).subrange(0, (n - k + 1) as int) =~= bits_of(
                v as int,
                n as int,
            ).subrange(0, (n - k) as int).push(bit));
            k = k - 1;
        }
        proof {
            lemma_bits_of_len(v as int, n as int);
        }
        assert(bits_of(v as int, n as int).subrange(0, n as int) =~= bits_of(v as int, n as int));
    }

    /// The bytes, the last one filled with zero bits.
    pub(crate) fn finish(self) -> (r: Vec<u8>)
        requires
            self.wf(),
        ensures
            r@ == pack_bits(self.bits@),
    {
        let mut bytes = self.bytes;
        let ghost bs = self.bits@;
        let ghost nfull = self.bytes@.len() as int;
        let ghost tail = bs.subrange(8 * nfull, bs.len() as int);
        proof {
            lemma_bits_val_bound(tail);
            lemma2_to64();
        }
        if self.nacc > 0 {
            let k: u32 = 8 - self.nacc;
            proof {
                vstd::arithmetic::power2::lemma_pow2_adds(self.nacc as nat, k as nat);
                assert(self.acc * pow2(k as nat) < 256) by (nonlinear_arith)
                    requires
                        self.acc < pow2(self.nacc as nat),
                        pow2(self.nacc as nat) * pow2(k as nat) == pow2(8),
                        pow2(8) == 256,
                ;
                vstd::bits::lemma_u32_shl_is_mul(self.acc, k);
                lemma_shift_pad(tail, k as int);
            }
            let shifted = self.acc << k;
            bytes.push(shifted as u8);
        }
        proof {
            let nbytes = (bs.len() + 7) / 8;
            let padded = bs + zero_bits(nbytes * 8 - bs.len());
            assert(bytes@.len() == nbytes);
            assert forall|j: int| 0 <= j < bytes@.len() implies #[trigger] bytes@[j] == pack_bits(bs)[j] by {
                if j < nfull {
                    assert(padded.subrange(8 * j, 8 * j + 8) =~= bs.subrange(8 * j, 8 * j + 8));
                } else {
                    assert(padded.subrange(8 * j, 8 * j + 8) =~= tail + zero_bits(8 - tail.len()));
                }
            }
            assert(bytes@ =~= pack_bits(bs));
        }
        bytes
    }
}

/// Bit `i` of `bits_of(v, n)` is bit `n - 1 - i` of `v`.
pub(crate) proof fn lemma_bits_of_at(v: int, n: int, i: int)
    requires
        v >= 0,
        0 <= i < n,
    ensures
        bits_of(v, n).len() == n,
        bits_of(v, n)[i] == ((v / pow2((n - 1 - i) as nat) as int) % 2 == 1),
    decreases n,
{
    lemma_bits_of_len(v, n);
    lemma_bits_of_len(v / 2, n - 1);
    assert(bits_of(v, n) == bits_of(v / 2, n - 1).push(v % 2 == 1));
    if i < n - 1 {
        lemma_bits_of_at(v / 2, n - 1, i);
        let m = (n - 2 - i) as nat;
        assert(((n - 1 - i) as nat) == m + 1);
        assert(((n - 1 - 1 - i) as nat) == m);
        vstd::arithmetic::power2::lemma_pow2_unfold(m + 1);
        vstd::arithmetic::power2::lemma_pow2_pos(m);
        vstd::arithmetic::div_mod::lemma_div_denominator(v, 2, pow2(m) as int);
        assert(bits_of(v, n)[i] == bits_of(v / 2, n - 1)[i]);
        assert(v / 2 / (pow2(m) as int) == v / (pow2(m + 1) as int));
    } else {
        assert(pow2(0) == 1) by {
            lemma2_to64();
        }
        assert(((n - 1 - i) as nat) == 0);
        assert(v / 1 == v);
    }
}

pub(crate) proof fn lemma_bits_of_len(v: int, n: int)
    ensures
        bits_of(v, n).len() == (if n > 0 { n } else { 0 }),
    decreases n,
{
    if n > 0 {
        lemma_bits_of_len(v / 2, n - 1);
    }
}

/// The bit `put_bits` writes at step `k` (counting down) is the next bit of
/// `bits_of(v, n)`.
pub(crate) proof fn lemma_bits_of_index(v: u32, n: u32, k: u32)
    requires
        1 <= k <= n <= 32,
    ensures
        ((v >> (k - 1) as u32) & 1 == 1) == bits_of(v as int, n as int)[(n - k) as int],
{
    lemma_bits_of_at(v as int, n as int, (n - k) as int);
    let s: u32 = (k - 1) as u32;
    vstd::bits::lemma_u32_shr_is_div(v, s);
    let q = v >> s;
    assert((q & 1 == 1) == (q % 2 == 1)) by (bit_vector);
}

/// A bit string's value is below 2 to its length.
pub(crate) proof fn lemma_bits_val_bound(bs: Seq<bool>)
    ensures
        0 <= bits_val(bs) < pow2(bs.len()),
    decreases bs.len(),
{
    if bs.len() == 0 {
        lemma2_to64();
    } else {
        lemma_bits_val_bound(bs.drop_last());
        vstd::arithmetic::power2::lemma_pow2_unfold(bs.len());
    }
}

/// Zero bits after a bit string multiply its value by 2 per bit.
proof fn lemma_shift_pad(bs: Seq<bool>, k: int)
    requires
        k >= 0,
    ensures
        bits_val(bs + zero_bits(k)) == bits_val(bs) * pow2(k as nat),
    decreases k,
{
    lemma2_to64();
    if k == 0 {
        assert(bs + zero_bits(0) =~= bs);
        let p0 = pow2(0);
        let a = bits_val(bs);
        assert(a * p0 == a) by (nonlinear_arith)
            requires
                p0 == 1,
        ;
    } else {
        let km: nat = (k - 1) as nat;
        lemma_shift_pad(bs, k - 1);
        let t = bs + zero_bits(k);
        let t0 = bs + zero_bits(k - 1);
        assert(t.drop_last() =~= t0);
        assert(t.last() == false);
        assert(bits_val(t) == bits_val(t0) * 2);
        vstd::arithmetic::power2::lemma_pow2_unfold(k as nat);
        let a = bits_val(bs);
        let p = pow2(km) as int;
        assert(bits_val(t0) == a * p);
        assert(pow2(k as nat) == 2 * p);
        assert(a * p * 2 == a * (2 * p)) by (nonlinear_arith);
        assert(bits_val(bs + zero_bits(k)) == bits_val(bs) * pow2(k as nat));
    }
}

// ---------------------------------------------------------------------
// Encoding.
// ---------------------------------------------------------------------

/// Pixel widths the codec accepts, in bytes.
pub open spec fn valid_bytepix(bytepix: int) -> bool {
    bytepix == 1 || bytepix == 2 || bytepix == 4
}

/// `(fsbits, fsmax)` of a pixel width: the bits of a block's split code,
/// and the split from which a block is stored raw.
pub open spec fn fs_params_of(bytepix: int) -> (int, int) {
    if bytepix == 1 {
        (3, 6)
    } else if bytepix == 2 {
        (4, 14)
    } else {
        (5, 25)
    }
}

/// Number of values a pixel of the width can take (`2^(8 * bytepix)`).
pub open spec fn pix_modulus(bytepix: int) -> int {
    if bytepix == 1 {
        0x100
    } else if bytepix == 2 {
        0x1_0000
    } else {
        0x1_0000_0000
    }
}

/// `next - last` wrapped to a signed value of the pixel width.
pub open spec fn wrap_diff(next: int, last: int, bytepix: int) -> int {
    let m = pix_modulus(bytepix);
    let w = (next - last) % m;
    if w >= m / 2 {
        w - m
    } else {
        w
    }
}

/// Signed difference folded onto the naturals: 0, -1, 1, -2, ... to 0, 1, 2, 3, ...
pub open spec fn zigzag(d: int) -> int {
    if d >= 0 {
        2 * d
    } else {
        -2 * d - 1
    }
}

/// Mapped difference of pixel `k` from the one before it (the first pixel
/// is its own predecessor).
pub open spec fn rice_diff(p: Seq<i32>, k: int, bytepix: int) -> int {
    let last = if k == 0 {
        p[0]
    } else {
        p[k - 1]
    };
    zigzag(wrap_diff(p[k] as int, last as int, bytepix))
}

/// The mapped differences of all pixels.
pub open spec fn rice_diffs(p: Seq<i32>, bytepix: int) -> Seq<int> {
    Seq::new(p.len(), |k: int| rice_diff(p, k, bytepix))
}

/// Sum of a sequence.
pub open spec fn sum_of(s: Seq<int>) -> int
    decreases s.len(),
{
    if s.len() == 0 {
        0
    } else {
        sum_of(s.drop_last()) + s.last()
    }
}

/// Number of binary digits of `v` (0 for `v <= 0`).
pub open spec fn bit_length(v: int) -> nat
    decreases v,
{
    if v <= 0 {
        0
    } else {
        1 + bit_length(v / 2)
    }
}

/// Split of a block: the bit length of half its mean difference less a
/// half, the mean cut to the pixel width.
pub open spec fn block_fs(blk: Seq<int>, bytepix: int) -> nat {
    let n = blk.len() as int;
    let num = 2 * sum_of(blk) - n - 2;
    let dpsum = if num < 0 {
        0
    } else {
        num / (2 * n)
    };
    let cap = pix_modulus(bytepix) - 1;
    bit_length((if dpsum > cap {
        cap
    } else {
        dpsum
    }) / 2)
}

/// Each value of a block in `width` bits.
pub open spec fn raw_bits(blk: Seq<int>, width: int) -> Seq<bool>
    decreases blk.len(),
{
    if blk.len() == 0 {
        Seq::empty()
    } else {
        raw_bits(blk.drop_last(), width) + bits_of(blk.last(), width)
    }
}

/// Rice code of one value: `v >> fs` in unary (zeros, then a one), then the
/// low `fs` bits.
pub open spec fn unary_code(v: int, fs: int) -> Seq<bool> {
    zero_bits(v / pow2(fs as nat) as int).push(true) + bits_of(v, fs)
}

/// Rice code of each value of a block.
pub open spec fn coded_bits(blk: Seq<int>, fs: int) -> Seq<bool>
    decreases blk.len(),
{
    if blk.len() == 0 {
        Seq::empty()
    } else {
        coded_bits(blk.drop_last(), fs) + unary_code(blk.last(), fs)
    }
}

/// Bits of one block of mapped differences: the split code, then the
/// values raw, Rice-coded, or nothing for a block of zeros.
pub open spec fn block_bits(blk: Seq<int>, bytepix: int) -> Seq<bool> {
    let fsbits = fs_params_of(bytepix).0;
    let fsmax = fs_params_of(bytepix).1;
    let fs = block_fs(blk, bytepix) as int;
    if fs >= fsmax {
        bits_of(fsmax + 1, fsbits) + raw_bits(blk, 8 * bytepix)
    } else if fs == 0 && sum_of(blk) == 0 {
        bits_of(0, fsbits)
    } else {
        bits_of(fs + 1, fsbits) + coded_bits(blk, fs)
    }
}

/// Bits of the blocks of `nblock` differences from position `start` on.
pub open spec fn blocks_bits(d: Seq<int>, start: int, nblock: int, bytepix: int) -> Seq<bool>
    decreases d.len() - start,
{
    if start < 0 || start >= d.len() || nblock <= 0 {
        Seq::empty()
    } else {
        let end = if start + nblock < d.len() {
            start + nblock
        } else {
            d.len() as int
        };
        block_bits(d.subrange(start, end), bytepix) + blocks_bits(d, end, nblock, bytepix)
    }
}

/// Block size in use: the default for a size below 1.
pub open spec fn eff_nblock(nblock: int) -> int {
    if nblock < 1 {
        DEFAULT_BLOCKSIZE as int
    } else {
        nblock
    }
}

/// The whole Rice bit stream of a non-empty pixel array: the first pixel in
/// `8 * bytepix` bits, then the blocks.
pub open spec fn rice_bits(p: Seq<i32>, bytepix: int, nblock: int) -> Seq<bool> {
    bits_of(p[0] as u32 as int, 8 * bytepix) + blocks_bits(rice_diffs(p, bytepix), 0, eff_nblock(nblock), bytepix)
}

/// Message for a pixel width other than 1, 2 or 4 bytes.
pub open spec fn bsize_message() -> Seq<char> {
    "rcomp: bsize must be 1, 2, or 4 bytes"@
}

/// Values of a sequence of `u32` as integers.
pub open spec fn ints_of(s: Seq<u32>) -> Seq<int> {
    s.map_values(|x: u32| x as int)
}

fn fs_params(bytepix: i32) -> (r: Result<(u32, u32), FitsError>)
    ensures
        valid_bytepix(bytepix as int) ==> (r matches Ok(t) && t.0 == fs_params_of(bytepix as int).0
            && t.1 == fs_params_of(bytepix as int).1),
        !valid_bytepix(bytepix as int) ==> (r matches Err(e) && e.status == DATA_COMPRESSION_ERR
            && e.message_list() == seq![bsize_message()]),
{
    if bytepix == 1 {
        Ok((3, 6))
    } else if bytepix == 2 {
        Ok((4, 14))
    } else if bytepix == 4 {
        Ok((5, 25))
    } else {
        Err(FitsError::with_message(DATA_COMPRESSION_ERR, "rcomp: bsize must be 1, 2, or 4 bytes"))
    }
}

/// Mapped difference of pixel `k`.
fn diff_at(pixels: &[i32], k: usize, bytepix: i32) -> (r: u32)
    requires
        k < pixels@.len(),
        valid_bytepix(bytepix as int),
    ensures
        r as int == rice_diff(pixels@, k as int, bytepix as int),
{
    let last: i64 = if k == 0 {
        pixels[0] as i64
    } else {
        pixels[k - 1] as i64
    };
    let m: i64 = if bytepix == 1 {
        0x100
    } else if bytepix == 2 {
        0x1_0000
    } else {
        0x1_0000_0000
    };
    let x: i64 = pixels[k] as i64 - last;
    let y: i64 = x + 0x2_0000_0000;
    let w: i64 = y % m;
    proof {
        let q = y / m;
        vstd::arithmetic::div_mod::lemma_fundamental_div_mod(y as int, m as int);
        assert(0 <= w < m);
        assert(0x2_0000_0000int / (m as int) * (m as int) == 0x2_0000_0000int);
        vstd::arithmetic::div_mod::lemma_fundamental_div_mod_converse(
            x as int,
            m as int,
            q - 0x2_0000_0000int / (m as int),
            w as int,
        );
        assert(w as int == (pixels@[k as int] as int - last as int) % pix_modulus(bytepix as int));
    }
    let d: i64 = if w >= m / 2 {
        w - m
    } else {
        w
    };
    assert(d as int == wrap_diff(pixels@[k as int] as int, last as int, bytepix as int));
    assert(-0x8000_0000 <= d < 0x8000_0000);
    let z: i64 = if d >= 0 {
        2 * d
    } else {
        (0 - d) * 2 - 1
    };
    assert(0 <= z < 0x1_0000_0000);
    z as u32
}

/// Mapped differences of pixels `i .. i + n`.
fn block_diffs(pixels: &[i32], i: usize, n: usize, bytepix: i32) -> (r: Vec<u32>)
    requires
        i + n <= pixels@.len(),
        valid_bytepix(bytepix as int),
    ensures
        ints_of(r@) == rice_diffs(pixels@, bytepix as int).subrange(i as int, (i + n) as int),
{
    let len = pixels.len();
    let mut r: Vec<u32> = Vec::new();
    let mut j: usize = 0;
    while j < n
        invariant
            j <= n,
            len == pixels@.len(),
            i + n <= pixels@.len(),
            valid_bytepix(bytepix as int),
            r@.len() == j,
            forall|t: int| 0 <= t < j ==> #[trigger] r@[t] as int == rice_diff(pixels@, i + t, bytepix as int),
        decreases n - j,
    {
        let v = diff_at(pixels, i + j, bytepix);
        r.push(v);
        j += 1;
    }
    assert(ints_of(r@) =~= rice_diffs(pixels@, bytepix as int).subrange(i as int, (i + n) as int));
    r
}

/// `bit_length` of a machine word.
pub(crate) fn bit_length_exec(v: u64) -> (r: u32)
    ensures
        r as int == bit_length(v as int),
{
    proof {
        lemma2_to64();
        lemma_bit_length_pow(v as int, 64);
    }
    let mut x: u64 = v;
    let mut r: u32 = 0;
    while x > 0
        invariant
            r + bit_length(x as int) == bit_length(v as int),
            bit_length(v as int) <= 64,
        decreases x,
    {
        x = x / 2;
        r = r + 1;
    }
    r
}

/// A value below `2^n` has at most `n` binary digits.
pub(crate) proof fn lemma_bit_length_pow(v: int, n: nat)
    requires
        0 <= v < pow2(n),
    ensures
        bit_length(v) <= n,
    decreases n,
{
    if v > 0 {
        if n == 0 {
            lemma2_to64();
        } else {
            vstd::arithmetic::power2::lemma_pow2_unfold(n);
            lemma_bit_length_pow(v / 2, (n - 1) as nat);
        }
    }
}

/// A positive value has at least one binary digit more than half of it.
proof fn lemma_bit_length_bound(v: int)
    requires
        v > 0,
    ensures
        pow2((bit_length(v) - 1) as nat) <= v < pow2(bit_length(v)),
    decreases v,
{
    lemma2_to64();
    let l = bit_length(v / 2);
    assert(bit_length(v) == l + 1);
    if v / 2 > 0 {
        lemma_bit_length_bound(v / 2);
        vstd::arithmetic::power2::lemma_pow2_unfold(l + 1);
        vstd::arithmetic::power2::lemma_pow2_unfold(l);
        assert(pow2((l - 1) as nat) <= v / 2 < pow2(l));
        assert(pow2(l) == 2 * pow2((l - 1) as nat));
    } else {
        assert(bit_length(v / 2) == 0);
    }
}

/// Split of a block of differences, and the block's sum.
fn block_split(d: &Vec<u32>, bytepix: i32) -> (r: (u32, u128))
    requires
        d@.len() > 0,
        valid_bytepix(bytepix as int),
    ensures
        r.0 as int == block_fs(ints_of(d@), bytepix as int),
        r.1 as int == sum_of(ints_of(d@)),
{
    let ghost blk = ints_of(d@);
    let n = d.len();
    let mut s: u128 = 0;
    let mut j: usize = 0;
    while j < n
        invariant
            j <= n,
            n == d@.len(),
            blk == ints_of(d@),
            s as int == sum_of(blk.subrange(0, j as int)),
            s <= j * 0xffff_ffff,
        decreases n - j,
    {
        assert(blk.subrange(0, j + 1).drop_last() =~= blk.subrange(0, j as int));
        s = s + d[j] as u128;
        j += 1;
    }
    assert(blk.subrange(0, n as int) =~= blk);
    proof {
        assert(s <= n * 0xffff_ffff) by (nonlinear_arith)
            requires
                s <= j * 0xffff_ffff,
                j == n,
        ;
    }
    let num: i128 = 2 * (s as i128) - (n as i128) - 2;
    let dpsum: u128 = if num < 0 {
        0
    } else {
        (num as u128) / (2 * (n as u128))
    };
    let cap: u128 = if bytepix == 1 {
        0xff
    } else if bytepix == 2 {
        0xffff
    } else {
        0xffff_ffff
    };
    let psum: u128 = (if dpsum > cap {
        cap
    } else {
        dpsum
    }) / 2;
    (bit_length_exec(psum as u64), s)
}

/// Write each value of `d` in `width` bits.
fn put_raw(w: &mut BitWriter, d: &Vec<u32>, width: u32)
    requires
        old(w).wf(),
        width <= 32,
    ensures
        final(w).wf(),
        final(w).bits@ == old(w).bits@ + raw_bits(ints_of(d@), width as int),
{
    let ghost blk = ints_of(d@);
    let mut j: usize = 0;
    while j < d.len()
        invariant
            w.wf(),
            width <= 32,
            j <= d@.len(),
            blk == ints_of(d@),
            w.bits@ == old(w).bits@ + raw_bits(blk.subrange(0, j as int), width as int),
        decreases d.len() - j,
    {
        let ghost before = w.bits@;
        w.put_bits(d[j], width);
        assert(blk.subrange(0, j + 1).drop_last() =~= blk.subrange(0, j as int));
        assert(old(w).bits@ + raw_bits(blk.subrange(0, j + 1), width as int) =~= before + bits_of(
            d@[j as int] as int,
            width as int,
        ));
        j += 1;
    }
    assert(blk.subrange(0, d@.len() as int) =~= blk);
}

/// Write each value of `d` Rice-coded with split `fs`.
fn put_coded(w: &mut BitWriter, d: &Vec<u32>, fs: u32)
    requires
        old(w).wf(),
        fs < 32,
    ensures
        final(w).wf(),
        final(w).bits@ == old(w).bits@ + coded_bits(ints_of(d@), fs as int),
{
    let ghost blk = ints_of(d@);
    let mut j: usize = 0;
    while j < d.len()
        invariant
            w.wf(),
            fs < 32,
            j <= d@.len(),
            blk == ints_of(d@),
            w.bits@ == old(w).bits@ + coded_bits(blk.subrange(0, j as int), fs as int),
        decreases d.len() - j,
    {
        let ghost before = w.bits@;
        let v = d[j];
        let top = v >> fs;
        proof {
            vstd::bits::lemma_u32_shr_is_div(v, fs);
        }
        let mut k: u32 = 0;
        while k < top
            invariant
                w.wf(),
                k <= top,
                w.bits@ == before + zero_bits(k as int),
            decreases top - k,
        {
            w.push_bit(false);
            assert(zero_bits(k + 1) =~= zero_bits(k as int).push(false));
            k += 1;
        }
        w.push_bit(true);
        w.put_bits(v, fs);
        assert(blk.subrange(0, j + 1).drop_last() =~= blk.subrange(0, j as int));
        assert(w.bits@ =~= before + unary_code(v as int, fs as int));
        assert(old(w).bits@ + coded_bits(blk.subrange(0, j + 1), fs as int) =~= before + unary_code(
            v as int,
            fs as int,
        ));
        j += 1;
    }
    assert(blk.subrange(0, d@.len() as int) =~= blk);
}

/// Write one block of differences.
fn encode_block(w: &mut BitWriter, d: &Vec<u32>, bytepix: i32, fsbits: u32, fsmax: u32)
    requires
        old(w).wf(),
        d@.len() > 0,
        valid_bytepix(bytepix as int),
        fsbits == fs_params_of(bytepix as int).0,
        fsmax == fs_params_of(bytepix as int).1,
    ensures
        final(w).wf(),
        final(w).bits@ == old(w).bits@ + block_bits(ints_of(d@), bytepix as int),
{
    let (fs, s) = block_split(d, bytepix);
    let ghost blk = ints_of(d@);
    if fs >= fsmax {
        w.put_bits(fsmax + 1, fsbits);
        put_raw(w, d, 8 * (bytepix as u32));
        assert(w.bits@ =~= old(w).bits@ + block_bits(blk, bytepix as int));
    } else if fs == 0 && s == 0 {
        w.put_bits(0, fsbits);
    } else {
        w.put_bits(fs + 1, fsbits);
        put_coded(w, d, fs);
        assert(w.bits@ =~= old(w).bits@ + block_bits(blk, bytepix as int));
    }
}

/// Rice-code `pixels` (`fits_rcomp`, `fits_rcomp_short`, `fits_rcomp_byte`):
/// `bytepix` is the pixel width in bytes (1, 2 or 4) and `nblock` the
/// block size (the default where below 1).
pub fn compress(pixels: &[i32], bytepix: i32, nblock: i32) -> (r: Result<Vec<u8>, FitsError>)
    ensures
        pixels@.len() == 0 ==> (r matches Ok(v) && v@.len() == 0),
        pixels@.len() > 0 && !valid_bytepix(bytepix as int) ==> (r matches Err(e) && e.status
            == DATA_COMPRESSION_ERR && e.message_list() == seq![bsize_message()]),
        pixels@.len() > 0 && valid_bytepix(bytepix as int) ==> (r matches Ok(v) && v@ == pack_bits(
            rice_bits(pixels@, bytepix as int, nblock as int),
        )),
{
    if pixels.len() == 0 {
        return Ok(Vec::new());
    }
    let nb: usize = if nblock < 1 {
        32
    } else {
        nblock as usize
    };
    let (fsbits, fsmax) = match fs_params(bytepix) {
        Ok(t) => t,
        Err(e) => return Err(e),
    };
    let mut w = BitWriter::new();
    w.put_bits(pixels[0] as u32, 8 * (bytepix as u32));
    let ghost d = rice_diffs(pixels@, bytepix as int);
    let ghost total = rice_bits(pixels@, bytepix as int, nblock as int);
    assert(w.bits@ + blocks_bits(d, 0, nb as int, bytepix as int) =~= total);
    let mut i: usize = 0;
    while i < pixels.len()
        invariant
            w.wf(),
            i <= pixels@.len(),
            nb >= 1,
            valid_bytepix(bytepix as int),
            fsbits == fs_params_of(bytepix as int).0,
            fsmax == fs_params_of(bytepix as int).1,
            d == rice_diffs(pixels@, bytepix as int),
            w.bits@ + blocks_bits(d, i as int, nb as int, bytepix as int) == total,
        decreases pixels.len() - i,
    {
        let rest = pixels.len() - i;
        let n = if rest < nb {
            rest
        } else {
            nb
        };
        let diffs = block_diffs(pixels, i, n, bytepix);
        let ghost before = w.bits@;
        encode_block(&mut w, &diffs, bytepix, fsbits, fsmax);
        assert(before + blocks_bits(d, i as int, nb as int, bytepix as int) =~= w.bits@ + blocks_bits(
            d,
            (i + n) as int,
            nb as int,
            bytepix as int,
        ));
        i = i + n;
    }
    assert(w.bits@ + blocks_bits(d, i as int, nb as int, bytepix as int) =~= w.bits@);
    Ok(w.finish())
}


// ---------------------------------------------------------------------
// Reading bits back.
// ---------------------------------------------------------------------

/// Bits of a byte string, each byte most significant bit first.
pub open spec fn byte_bits(c: Seq<u8>) -> Seq<bool> {
    Seq::new((8 * c.len()) as nat, |i: int| bits_of(c[i / 8] as int, 8)[i % 8])
}

/// Number of zero bits from position `p` before the next one bit; `None`
/// if the bits end first.
pub open spec fn zero_run(bs: Seq<bool>, p: int) -> Option<int>
    decreases bs.len() - p,
{
    if p < 0 || p >= bs.len() {
        None
    } else if bs[p] {
        Some(0)
    } else {
        match zero_run(bs, p + 1) {
            Some(k) => Some(k + 1),
            None => None,
        }
    }
}

/// Value of `a` followed by `b`.
pub(crate) proof fn lemma_bits_val_concat(a: Seq<bool>, b: Seq<bool>)
    ensures
        bits_val(a + b) == bits_val(a) * pow2(b.len()) + bits_val(b),
    decreases b.len(),
{
    lemma2_to64();
    if b.len() == 0 {
        assert(a + b =~= a);
        let va = bits_val(a);
        let p0 = pow2(0);
        assert(va * p0 == va) by (nonlinear_arith)
            requires
                p0 == 1,
        ;
    } else {
        let b0 = b.drop_last();
        lemma_bits_val_concat(a, b0);
        assert((a + b).drop_last() =~= a + b0);
        assert((a + b).last() == b.last());
        vstd::arithmetic::power2::lemma_pow2_unfold(b.len());
        let va = bits_val(a);
        let p = pow2(b0.len()) as int;
        assert(va * p * 2 == va * (2 * p)) by (nonlinear_arith);
    }
}

/// The value of `bits_of(v, n)` is `v` modulo `2^n`.
pub(crate) proof fn lemma_bits_val_of(v: int, n: int)
    requires
        v >= 0,
        n >= 0,
    ensures
        bits_val(bits_of(v, n)) == v % (pow2(n as nat) as int),
    decreases n,
{
    lemma2_to64();
    if n == 0 {
        assert(bits_of(v, 0) =~= Seq::<bool>::empty());
    } else {
        lemma_bits_val_of(v / 2, n - 1);
        let bs = bits_of(v, n);
        assert(bs.drop_last() =~= bits_of(v / 2, n - 1));
        vstd::arithmetic::power2::lemma_pow2_unfold(n as nat);
        vstd::arithmetic::power2::lemma_pow2_pos((n - 1) as nat);
        vstd::arithmetic::div_mod::lemma_mod_breakdown(v, 2, pow2((n - 1) as nat) as int);
    }
}

/// A bit string is the bits of its own value.
pub(crate) proof fn lemma_bits_of_val(w: Seq<bool>)
    ensures
        bits_of(bits_val(w), w.len() as int) == w,
    decreases w.len(),
{
    if w.len() == 0 {
        assert(bits_of(bits_val(w), 0) =~= w);
    } else {
        let w0 = w.drop_last();
        lemma_bits_of_val(w0);
        lemma_bits_val_bound(w0);
        let v = bits_val(w);
        assert(v / 2 == bits_val(w0));
        assert((v % 2 == 1) == w.last());
        assert(bits_of(v, w.len() as int) =~= w0.push(w.last()));
        assert(w0.push(w.last()) =~= w);
    }
}

/// A string of zero bits has value 0.
proof fn lemma_all_false_val(w: Seq<bool>)
    requires
        forall|i: int| 0 <= i < w.len() ==> !w[i],
    ensures
        bits_val(w) == 0,
    decreases w.len(),
{
    if w.len() > 0 {
        lemma_all_false_val(w.drop_last());
    }
}

/// A string of value 0 is all zero bits.
proof fn lemma_val_zero_all_false(w: Seq<bool>, i: int)
    requires
        bits_val(w) == 0,
        0 <= i < w.len(),
    ensures
        !w[i],
{
    lemma_bits_of_val(w);
    lemma_bits_of_at(0, w.len() as int, i);
    vstd::arithmetic::power2::lemma_pow2_pos((w.len() - 1 - i) as nat);
}

/// The eight bits of byte `j`.
pub(crate) proof fn lemma_byte_bits_at(s: Seq<u8>, j: int)
    requires
        0 <= j < s.len(),
    ensures
        byte_bits(s).subrange(8 * j, 8 * j + 8) == bits_of(s[j] as int, 8),
{
    lemma_bits_of_len(s[j] as int, 8);
    assert forall|t: int| 0 <= t < 8 implies #[trigger] byte_bits(s).subrange(8 * j, 8 * j + 8)[t] == bits_of(
        s[j] as int,
        8,
    )[t] by {
        vstd::arithmetic::div_mod::lemma_fundamental_div_mod_converse(8 * j + t, 8, j, t);
    }
    assert(byte_bits(s).subrange(8 * j, 8 * j + 8) =~= bits_of(s[j] as int, 8));
}

/// A window of bits ending at a byte boundary grows by the next byte.
proof fn lemma_window_grow(s: Seq<u8>, a: int, j: int)
    requires
        0 <= a <= 8 * j,
        0 <= j < s.len(),
    ensures
        bits_val(byte_bits(s).subrange(a, 8 * j + 8)) == bits_val(byte_bits(s).subrange(a, 8 * j)) * 256
            + s[j],
{
    let bs = byte_bits(s);
    assert(bs.subrange(a, 8 * j + 8) =~= bs.subrange(a, 8 * j) + bs.subrange(8 * j, 8 * j + 8));
    lemma_byte_bits_at(s, j);
    lemma_bits_val_concat(bs.subrange(a, 8 * j), bs.subrange(8 * j, 8 * j + 8));
    lemma_bits_val_of(s[j] as int, 8);
    lemma_bits_of_len(s[j] as int, 8);
    lemma2_to64();
    assert(bs.subrange(8 * j, 8 * j + 8).len() == 8);
    assert(pow2(8) == 256);
    assert((s[j] as int) % 256 == s[j] as int);
    assert(bits_val(bits_of(s[j] as int, 8)) == s[j] as int);
    assert(bits_val(bs.subrange(8 * j, 8 * j + 8)) == s[j] as int);
}

/// A window split after its first `k` bits.
proof fn lemma_window_split(w: Seq<bool>, k: int)
    requires
        0 <= k <= w.len(),
    ensures
        bits_val(w) == bits_val(w.subrange(0, k)) * pow2((w.len() - k) as nat) + bits_val(
            w.subrange(k, w.len() as int),
        ),
        0 <= bits_val(w.subrange(k, w.len() as int)) < pow2((w.len() - k) as nat),
        0 <= bits_val(w.subrange(0, k)),
{
    assert(w =~= w.subrange(0, k) + w.subrange(k, w.len() as int));
    lemma_bits_val_concat(w.subrange(0, k), w.subrange(k, w.len() as int));
    lemma_bits_val_bound(w.subrange(k, w.len() as int));
    lemma_bits_val_bound(w.subrange(0, k));
}

/// `zero_run` finds `k` zeros followed by a one.
proof fn lemma_zero_run_some(bs: Seq<bool>, p: int, k: int)
    requires
        0 <= p,
        0 <= k,
        p + k < bs.len(),
        bs[p + k],
        forall|t: int| p <= t < p + k ==> !bs[t],
    ensures
        zero_run(bs, p) == Some(k),
    decreases k,
{
    if k > 0 {
        lemma_zero_run_some(bs, p + 1, k - 1);
    }
}

/// `zero_run` finds no one bit among trailing zeros.
proof fn lemma_zero_run_none(bs: Seq<bool>, p: int)
    requires
        0 <= p,
        forall|t: int| p <= t < bs.len() ==> !bs[t],
    ensures
        zero_run(bs, p) is None,
    decreases bs.len() - p,
{
    if p < bs.len() {
        lemma_zero_run_none(bs, p + 1);
    }
}


/// `px` before the pixels of a decoding, or its fault.
pub open spec fn prefixed(px: Seq<i32>, r: Result<Seq<i32>, RiceFault>) -> Result<Seq<i32>, RiceFault> {
    match r {
        Ok(rest) => Ok(px + rest),
        Err(f) => Err(f),
    }
}

/// `px` before the pixels of a partial decoding, which also gives the bit
/// position and the last stored pixel after it.
pub open spec fn prefixed_run(px: Seq<i32>, r: Result<(Seq<i32>, int, u32), RiceFault>) -> Result<
    (Seq<i32>, int, u32),
    RiceFault,
> {
    match r {
        Ok((rest, q, l)) => Ok((px + rest, q, l)),
        Err(f) => Err(f),
    }
}

/// `cnt` raw differences of `8 * bytepix` bits from bit `q`, after the
/// stored pixel `last`: the pixels, the bit position after them, and the
/// last stored pixel.
pub open spec fn raw_pixels(bs: Seq<bool>, q: int, last: u32, cnt: int, bytepix: int) -> Result<
    (Seq<i32>, int, u32),
    RiceFault,
>
    decreases cnt,
{
    if cnt <= 0 {
        Ok((Seq::empty(), q, last))
    } else if q + 8 * bytepix > bs.len() {
        Err(RiceFault::Corrupt)
    } else {
        let nl = next_pix(bits_val(bs.subrange(q, q + 8 * bytepix)) as u32, last, bytepix);
        prefixed_run(seq![sign_extend_of(nl, bytepix)], raw_pixels(bs, q + 8 * bytepix, nl, cnt - 1, bytepix))
    }
}

/// Difference from `z` leading zeros and the `low` bits after the one bit,
/// the read ending at bit `end`: the low bits kept are those a 32-bit bit
/// buffer holds there.
pub open spec fn coded_diff(z: int, low: int, fs: int, end: int) -> u32 {
    let rem = (8 - end % 8) % 8;
    ((z * pow2(fs as nat) + low % (pow2((32 - rem) as nat) as int)) % 0x1_0000_0000) as u32
}

/// `cnt` Rice-coded differences with split `fs` from bit `q`.
pub open spec fn coded_pixels(bs: Seq<bool>, q: int, last: u32, cnt: int, fs: int, bytepix: int) -> Result<
    (Seq<i32>, int, u32),
    RiceFault,
>
    decreases cnt,
{
    if cnt <= 0 {
        Ok((Seq::empty(), q, last))
    } else {
        match zero_run(bs, q) {
            None => Err(RiceFault::Corrupt),
            Some(z) => {
                let q1 = q + z + 1;
                if q1 + fs > bs.len() {
                    Err(RiceFault::Corrupt)
                } else {
                    let diff = coded_diff(z, bits_val(bs.subrange(q1, q1 + fs)), fs, q1 + fs);
                    let nl = next_pix(diff, last, bytepix);
                    prefixed_run(
                        seq![sign_extend_of(nl, bytepix)],
                        coded_pixels(bs, q1 + fs, nl, cnt - 1, fs, bytepix),
                    )
                }
            },
        }
    }
}

/// The pixels of one block whose split code gave `fs` (one less than the
/// code): a run of the last pixel, raw differences, or coded ones.
pub open spec fn block_pixels(bs: Seq<bool>, q: int, last: u32, cnt: int, fs: int, bytepix: int) -> Result<
    (Seq<i32>, int, u32),
    RiceFault,
> {
    if fs < 0 {
        Ok((repeat(sign_extend_of(last, bytepix), cnt), q, last))
    } else if fs == fs_params_of(bytepix).1 {
        raw_pixels(bs, q, last, cnt, bytepix)
    } else {
        coded_pixels(bs, q, last, cnt, fs, bytepix)
    }
}

/// Pixels `i .. nx` read block by block from bit `p`.
pub open spec fn decode_blocks(
    bs: Seq<bool>,
    p: int,
    last: u32,
    i: int,
    nx: int,
    nblock: int,
    bytepix: int,
) -> Result<Seq<i32>, RiceFault>
    decreases nx - i,
{
    if i >= nx || nblock < 1 {
        Ok(Seq::empty())
    } else {
        let fsbits = fs_params_of(bytepix).0;
        if p + fsbits > bs.len() {
            Err(RiceFault::EndOfStream)
        } else {
            let fs = bits_val(bs.subrange(p, p + fsbits)) - 1;
            let imax = if i + nblock < nx {
                i + nblock
            } else {
                nx
            };
            match block_pixels(bs, p + fsbits, last, imax - i, fs, bytepix) {
                Err(f) => Err(f),
                Ok((px, q, l)) => prefixed(px, decode_blocks(bs, q, l, imax, nx, nblock, bytepix)),
            }
        }
    }
}

/// The bytes a stream is read from: one zero byte added after a stream that
/// holds only the first pixel.
pub open spec fn rice_stream(c: Seq<u8>, bytepix: int) -> Seq<u8> {
    if c.len() == bytepix {
        c.push(0)
    } else {
        c
    }
}

/// The `nx` pixels a stream of at least `bytepix` bytes decodes to, or why
/// it cannot be read.
pub open spec fn rice_decode_of(c: Seq<u8>, nx: int, bytepix: int, nblock: int) -> Result<Seq<i32>, RiceFault> {
    let bs = byte_bits(rice_stream(c, bytepix));
    decode_blocks(
        bs,
        8 * bytepix,
        bits_val(bs.subrange(0, 8 * bytepix)) as u32,
        0,
        nx,
        if nblock < 1 {
            1
        } else {
            nblock
        },
        bytepix,
    )
}

/// Message for a stream shorter than one pixel.
pub open spec fn alloc_message() -> Seq<char> {
    "decompression error: input buffer not properly allocated"@
}

/// Message for a stream that ends where a block's split code should be.
pub open spec fn end_message() -> Seq<char> {
    "decompression error: hit end of compressed byte stream"@
}

proof fn lemma_prefixed_run_assoc(a: Seq<i32>, b: Seq<i32>, r: Result<(Seq<i32>, int, u32), RiceFault>)
    ensures
        prefixed_run(a, prefixed_run(b, r)) == prefixed_run(a + b, r),
{
    match r {
        Ok((px, q, l)) => {
            assert(a + (b + px) =~= (a + b) + px);
        },
        Err(_) => {},
    }
}

proof fn lemma_prefixed_assoc(a: Seq<i32>, b: Seq<i32>, r: Result<Seq<i32>, RiceFault>)
    ensures
        prefixed(a, prefixed(b, r)) == prefixed(a + b, r),
{
    match r {
        Ok(px) => {
            assert(a + (b + px) =~= (a + b) + px);
        },
        Err(_) => {},
    }
}

/// A window shorter than 32 bits, grown by the next byte.
proof fn lemma_refill(s: Seq<u8>, a: int, j: int, b: u64)
    requires
        0 <= a <= 8 * j,
        8 * j - a < 32,
        0 <= j < s.len(),
        b as int == bits_val(byte_bits(s).subrange(a, 8 * j)),
    ensures
        b < 0x1_0000_0000,
        b * 256 + s[j] == bits_val(byte_bits(s).subrange(a, 8 * j + 8)),
{
    lemma2_to64();
    lemma_window_grow(s, a, j);
    lemma_bits_val_bound(byte_bits(s).subrange(a, 8 * j));
    vstd::arithmetic::power2::lemma_pow2_strictly_increases((8 * j - a) as nat, 32);
}

/// A window read as its first `n` bits and the rest.
proof fn lemma_take_split(bs: Seq<bool>, a: int, n: int, e: int)
    requires
        0 <= a,
        0 <= n <= 32,
        a + n <= e <= bs.len(),
        e - a - n < 64,
    ensures
        bits_val(bs.subrange(a, e)) == bits_val(bs.subrange(a, a + n)) * pow2((e - a - n) as nat) + bits_val(
            bs.subrange(a + n, e),
        ),
        0 <= bits_val(bs.subrange(a + n, e)) < pow2((e - a - n) as nat),
        0 <= bits_val(bs.subrange(a, a + n)) < 0x1_0000_0000,
        0 < pow2((e - a - n) as nat) < 0x1_0000_0000_0000_0000,
{
    lemma2_to64();
    let w = bs.subrange(a, e);
    lemma_window_split(w, n);
    assert(w.subrange(0, n) =~= bs.subrange(a, a + n));
    assert(w.subrange(n, w.len() as int) =~= bs.subrange(a + n, e));
    lemma_bits_val_bound(bs.subrange(a, a + n));
    if n < 32 {
        vstd::arithmetic::power2::lemma_pow2_strictly_increases(n as nat, 32);
    }
    vstd::arithmetic::power2::lemma_pow2_pos((e - a - n) as nat);
    vstd::arithmetic::power2::lemma_pow2_strictly_increases((e - a - n) as nat, 64);
}

/// Bits by bits of the sub-window from `a`.
proof fn lemma_window_bits(bs: Seq<bool>, a: int, e: int, z: int)
    requires
        0 <= a <= a + z <= e <= bs.len(),
        forall|t: int| 0 <= t < z ==> !#[trigger] bs.subrange(a, e)[t],
    ensures
        forall|t: int| a <= t < a + z ==> !#[trigger] bs[t],
{
    assert forall|t: int| a <= t < a + z implies !#[trigger] bs[t] by {
        assert(bs.subrange(a, e)[t - a] == bs[t]);
    }
}

/// Bits of a byte slice read from a position, through a buffer `b` that
/// holds the `nbits` bits not yet read of the bytes before `pos`.
struct BitReader<'a> {
    c: &'a [u8],
    pos: usize,
    b: u64,
    nbits: u64,
    /// The bytes read: `c`, with a zero byte after it where `extra`.
    s: Ghost<Seq<u8>>,
    extra: Ghost<bool>,
}

impl<'a> BitReader<'a> {
    spec fn vpos(&self) -> int {
        self.pos + if self.extra@ {
            1int
        } else {
            0
        }
    }

    spec fn at(&self) -> int {
        8 * self.vpos() - self.nbits
    }

    spec fn stream(&self) -> Seq<bool> {
        byte_bits(self.s@)
    }

    spec fn src_ok(&self) -> bool {
        &&& self.c@.len() <= usize::MAX
        &&& self.extra@ ==> self.pos == self.c@.len() && self.s@ == self.c@.push(0)
        &&& !self.extra@ ==> self.pos <= self.c@.len() && self.s@ == self.c@
    }

    spec fn wf(&self) -> bool {
        &&& self.src_ok()
        &&& self.nbits <= 8
        &&& 0 <= self.at()
        &&& self.b as int == bits_val(self.stream().subrange(self.at(), 8 * self.vpos()))
    }

    /// Read the next `n` bits as a number; `None` where the bytes end first.
    fn take(&mut self, n: u32) -> (r: Option<u64>)
        requires
            old(self).wf(),
            n <= 32,
        ensures
            final(self).s@ == old(self).s@,
            final(self).c@ == old(self).c@,
            final(self).extra@ == old(self).extra@,
            old(self).at() + n <= old(self).stream().len() ==> (r matches Some(v) && v as int == bits_val(
                old(self).stream().subrange(old(self).at(), old(self).at() + n),
            ) && final(self).wf() && final(self).at() == old(self).at() + n && ((old(self).nbits < 8 || n > 0)
                ==> final(self).nbits < 8)),
            old(self).at() + n > old(self).stream().len() ==> r is None,
            r matches Some(v) ==> v < 0x1_0000_0000 && (v as int) < pow2(n as nat),
    {
        let ghost a0 = self.at();
        let ghost bs = self.stream();
        proof {
            lemma2_to64();
        }
        let mut nb: i64 = self.nbits as i64 - n as i64;
        while nb < 0
            invariant
                self.src_ok(),
                self.s@ == old(self).s@,
                self.c@ == old(self).c@,
                self.extra@ == old(self).extra@,
                bs == byte_bits(self.s@),
                a0 == old(self).at(),
                bs == old(self).stream(),
                n <= 32,
                0 <= a0,
                -(n as int) <= nb <= 8,
                8 * self.vpos() == a0 + nb + n,
                self.b as int == bits_val(bs.subrange(a0, 8 * self.vpos())),
                (old(self).nbits < 8 || n > 0) ==> nb < 8,
            decreases 8 - nb,
        {
            if self.pos >= self.c.len() {
                assert(self.vpos() == self.s@.len());
                assert(bs.len() == 8 * self.s@.len());
                assert(a0 + n > bs.len());
                assert(old(self).at() == a0);
                assert(old(self).stream() == bs);
                return None;
            }
            assert(!self.extra@);
            proof {
                lemma_refill(self.s@, a0, self.vpos(), self.b);
            }
            self.b = self.b * 256 + self.c[self.pos] as u64;
            self.pos = self.pos + 1;
            nb = nb + 8;
        }
        assert(self.vpos() <= self.s@.len());
        assert(bs.len() == 8 * self.s@.len());
        self.nbits = nb as u64;
        let ghost e = 8 * self.vpos();
        proof {
            lemma_take_split(bs, a0, n as int, e);
            lemma_bits_val_bound(bs.subrange(a0, a0 + n));
            vstd::arithmetic::power2::lemma_pow2_strictly_increases(self.nbits as nat, 64);
            vstd::bits::lemma_u64_shl_is_mul(1, self.nbits);
        }
        let pw: u64 = 1u64 << self.nbits;
        proof {
            vstd::arithmetic::div_mod::lemma_fundamental_div_mod_converse(
                self.b as int,
                pw as int,
                bits_val(bs.subrange(a0, a0 + n)),
                bits_val(bs.subrange(a0 + n, e)),
            );
        }
        let v = self.b / pw;
        self.b = self.b % pw;
        assert(self.at() == a0 + n);
        Some(v)
    }

    /// Skip the zero bits before the next one bit and that bit; the number
    /// of zeros, or `None` where the bytes end first.
    fn zeros(&mut self) -> (r: Option<u128>)
        requires
            old(self).wf(),
        ensures
            final(self).s@ == old(self).s@,
            final(self).c@ == old(self).c@,
            final(self).extra@ == old(self).extra@,
            match zero_run(old(self).stream(), old(self).at()) {
                Some(z) => 0 <= z && r == Some(z as u128) && final(self).wf() && final(self).at() == old(self).at()
                    + z + 1 && final(self).nbits < 8 && z < old(self).stream().len(),
                None => r is None,
            },
    {
        let ghost a0 = self.at();
        let ghost bs = self.stream();
        proof {
            lemma2_to64();
            let w0 = bs.subrange(a0, 8 * self.vpos());
            lemma_bits_val_bound(w0);
            if self.nbits < 8 {
                vstd::arithmetic::power2::lemma_pow2_strictly_increases(self.nbits as nat, 8);
            }
            if self.b == 0 {
                assert forall|t: int| a0 <= t < 8 * self.vpos() implies !#[trigger] bs[t] by {
                    lemma_val_zero_all_false(w0, t - a0);
                }
            }
        }
        let mut nb: u128 = self.nbits as u128;
        while self.b == 0
            invariant
                self.src_ok(),
                self.s@ == old(self).s@,
                self.c@ == old(self).c@,
                self.extra@ == old(self).extra@,
                bs == byte_bits(self.s@),
                a0 == old(self).at(),
                bs == old(self).stream(),
                0 <= a0,
                8 * self.vpos() == a0 + nb,
                self.b as int == bits_val(bs.subrange(a0, 8 * self.vpos())),
                self.b < 256,
                self.b == 0 ==> forall|t: int| a0 <= t < 8 * self.vpos() ==> !#[trigger] bs[t],
            decreases self.c@.len() - self.pos,
        {
            if self.pos >= self.c.len() {
                proof {
                    assert(self.vpos() == self.s@.len());
                    assert(bs.len() == 8 * self.s@.len());
                    lemma_zero_run_none(bs, a0);
                    assert(old(self).at() == a0);
                    assert(old(self).stream() == bs);
                }
                return None;
            }
            assert(!self.extra@);
            proof {
                lemma_window_grow(self.s@, a0, self.vpos());
                lemma_all_false_val(bs.subrange(a0, 8 * self.vpos()));
            }
            nb = nb + 8;
            self.b = self.c[self.pos] as u64;
            self.pos = self.pos + 1;
            proof {
                let w1 = bs.subrange(a0, 8 * self.vpos());
                if self.b == 0 {
                    assert forall|t: int| a0 <= t < 8 * self.vpos() implies !#[trigger] bs[t] by {
                        lemma_val_zero_all_false(w1, t - a0);
                    }
                }
            }
        }
        let ghost bv = self.b;
        let ghost w = bs.subrange(a0, 8 * self.vpos());
        let l = nonzero_count(self.b as u8);
        proof {
            lemma_bit_length_bound(bv as int);
            lemma_bit_length_pow(bv as int, 8);
            lemma_bits_val_bound(w);
            if bit_length(bv as int) > nb {
                vstd::arithmetic::power2::lemma_pow2_strictly_increases(nb as nat, (bit_length(bv as int) - 1) as nat);
                assert(false);
            }
        }
        let z: u128 = nb - l as u128;
        let m: u64 = (l - 1) as u64;
        proof {
            vstd::arithmetic::power2::lemma_pow2_strictly_increases(m as nat, 64);
            vstd::bits::lemma_u64_shl_is_mul(1, m);
            vstd::arithmetic::power2::lemma_pow2_unfold(l as nat);
            lemma_bits_of_val(w);
            assert forall|t: int| 0 <= t < z implies !#[trigger] w[t] by {
                lemma_bits_of_at(bv as int, nb as int, t);
                if (l as int) < nb - 1 - t {
                    vstd::arithmetic::power2::lemma_pow2_strictly_increases(l as nat, (nb - 1 - t) as nat);
                }
                vstd::arithmetic::div_mod::lemma_basic_div(bv as int, pow2((nb - 1 - t) as nat) as int);
            }
            lemma_bits_of_at(bv as int, nb as int, z as int);
            vstd::arithmetic::div_mod::lemma_fundamental_div_mod_converse(
                bv as int,
                pow2(m as nat) as int,
                1,
                bv - pow2(m as nat),
            );
            assert(w[z as int]);
            lemma_window_bits(bs, a0, 8 * self.vpos(), z as int);
            assert(bs[a0 + z] == w[z as int]);
            lemma_zero_run_some(bs, a0, z as int);
            lemma_window_split(w, z + 1);
            let head = w.subrange(0, z + 1);
            assert forall|t: int| 0 <= t < head.drop_last().len() implies !#[trigger] head.drop_last()[t] by {
                assert(head.drop_last()[t] == w[t]);
            }
            lemma_all_false_val(head.drop_last());
            assert(bits_val(head) == 1);
            assert(w.subrange(z + 1, w.len() as int) =~= bs.subrange(a0 + z + 1, 8 * self.vpos()));
            assert(self.vpos() <= self.s@.len());
            assert(bs.len() == 8 * self.s@.len());
        }
        let pm: u64 = 1u64 << m;
        self.b = self.b - pm;
        self.nbits = m;
        Some(z)
    }
}

// ---------------------------------------------------------------------
// Decoding.
// ---------------------------------------------------------------------

/// Bit width of a byte (`floor(log2(i)) + 1` for `i > 0`, 0 for 0):
/// CFITSIO's `nonzero_count` table.
pub open spec fn nonzero_count_of(i: int) -> int {
    bit_length(i) as int
}

/// `nonzero_count` entry of a byte.
pub fn nonzero_count(i: u8) -> (r: i32)
    ensures
        r == nonzero_count_of(i as int),
{
    proof {
        lemma2_to64();
        lemma_bit_length_pow(i as int, 8);
    }
    bit_length_exec(i as u64) as i32
}

/// Low `n` bits set (`n` outside `0..=32` saturates).
pub open spec fn mask_of(n: int) -> u32 {
    if n <= 0 {
        0
    } else if n >= 32 {
        0xffff_ffff
    } else {
        (pow2(n as nat) - 1) as u32
    }
}

fn mask_nbits(n: i32) -> (r: u32)
    ensures
        r == mask_of(n as int),
{
    if n <= 0 {
        0
    } else if n >= 32 {
        0xffff_ffff
    } else {
        proof {
            vstd::arithmetic::power2::lemma_pow2_strictly_increases(n as nat, 32);
            lemma2_to64();
            vstd::bits::lemma_u64_shl_is_mul(1, n as u64);
        }
        ((1u64 << (n as u64)) - 1) as u32
    }
}

/// A pixel from its stored form: the low bytes, sign-extended.
pub open spec fn sign_extend_of(v: u32, bytepix: int) -> i32 {
    if bytepix == 1 {
        v as u8 as i8 as i32
    } else if bytepix == 2 {
        v as u16 as i16 as i32
    } else {
        v as i32
    }
}

/// The stored form of the next pixel: the mapped difference unmapped and
/// added to the last pixel, cut to the pixel width.
pub open spec fn next_pix(diff: u32, lastpix: u32, bytepix: int) -> u32 {
    let mapped: u32 = if diff & 1 == 0 {
        diff >> 1u32
    } else {
        !(diff >> 1u32)
    };
    let sum = ((mapped as int + lastpix as int) % 0x1_0000_0000) as u32;
    if bytepix == 1 {
        sum & 0xff
    } else if bytepix == 2 {
        sum & 0xffff
    } else {
        sum
    }
}

/// Why a Rice stream cannot be read.
#[derive(Debug, Clone, Copy, PartialEq, Eq)]
pub enum RiceFault {
    /// The stream ended while reading a block's split code.
    EndOfStream,
    /// Any other malformed or short stream.
    Corrupt,
}


/// Next stored pixel from a mapped difference.
fn next_pix_exec(diff: u32, lastpix: u32, bytepix: i32) -> (r: u32)
    ensures
        r == next_pix(diff, lastpix, bytepix as int),
{
    let mapped: u32 = if diff & 1 == 0 {
        diff >> 1u32
    } else {
        !(diff >> 1u32)
    };
    let sum: u32 = ((mapped as u64 + lastpix as u64) % 0x1_0000_0000) as u32;
    if bytepix == 1 {
        sum & 0xff
    } else if bytepix == 2 {
        sum & 0xffff
    } else {
        sum
    }
}

/// A pixel from its stored form.
fn sign_extend(v: u32, bytepix: i32) -> (r: i32)
    ensures
        r == sign_extend_of(v, bytepix as int),
{
    if bytepix == 1 {
        v as u8 as i8 as i32
    } else if bytepix == 2 {
        v as u16 as i16 as i32
    } else {
        v as i32
    }
}

/// The error a decoding fault is reported as.
fn fault_error(f: RiceFault) -> (e: FitsError)
    ensures
        e.status == DATA_DECOMPRESSION_ERR,
        f == RiceFault::EndOfStream ==> e.message_list() == seq![end_message()],
        f == RiceFault::Corrupt ==> e.message_list().len() == 0,
{
    match f {
        RiceFault::EndOfStream => FitsError::with_message(
            DATA_DECOMPRESSION_ERR,
            "decompression error: hit end of compressed byte stream",
        ),
        RiceFault::Corrupt => FitsError::new(DATA_DECOMPRESSION_ERR),
    }
}

proof fn lemma_prefixed_run_empty(r: Result<(Seq<i32>, int, u32), RiceFault>)
    ensures
        prefixed_run(Seq::empty(), r) == r,
{
    match r {
        Ok((px, q, l)) => {
            assert(Seq::<i32>::empty() + px =~= px);
        },
        Err(_) => {},
    }
}

/// Bits left in the buffer after a read ending at bit `at`.
proof fn lemma_rem_bits(at: int, vpos: int, nbits: int)
    requires
        at == 8 * vpos - nbits,
        0 <= nbits < 8,
        at >= 0,
    ensures
        (8 - at % 8) % 8 == nbits,
{
    if nbits == 0 {
        vstd::arithmetic::div_mod::lemma_fundamental_div_mod_converse(at, 8, vpos, 0);
    } else {
        vstd::arithmetic::div_mod::lemma_fundamental_div_mod_converse(at, 8, vpos - 1, 8 - nbits);
    }
}

/// Decode `cnt` raw differences into `out`.
fn raw_block(rd: &mut BitReader, last: u32, cnt: usize, bytepix: i32, out: &mut Vec<i32>) -> (r: Result<
    u32,
    RiceFault,
>)
    requires
        old(rd).wf(),
        old(rd).nbits < 8,
        valid_bytepix(bytepix as int),
    ensures
        final(rd).s@ == old(rd).s@,
        final(rd).c@ == old(rd).c@,
        final(rd).extra@ == old(rd).extra@,
        match raw_pixels(old(rd).stream(), old(rd).at(), last, cnt as int, bytepix as int) {
            Ok((px, q, l)) => r == Ok::<u32, RiceFault>(l) && final(out)@ == old(out)@ + px && final(rd).wf()
                && final(rd).at() == q && final(rd).nbits < 8,
            Err(f) => r == Err::<u32, RiceFault>(f),
        },
{
    let ghost bs = rd.stream();
    let ghost total = raw_pixels(bs, rd.at(), last, cnt as int, bytepix as int);
    let bbits: u32 = 8 * (bytepix as u32);
    let mut lastpix = last;
    let mut k: usize = 0;
    let ghost mut added: Seq<i32> = Seq::empty();
    proof {
        lemma_prefixed_run_empty(total);
        lemma2_to64();
    }
    while k < cnt
        invariant
            rd.wf(),
            rd.nbits < 8,
            rd.s@ == old(rd).s@,
            rd.c@ == old(rd).c@,
            rd.extra@ == old(rd).extra@,
            bs == rd.stream(),
            valid_bytepix(bytepix as int),
            bbits == 8 * bytepix,
            k <= cnt,
            out@ == old(out)@ + added,
            total == raw_pixels(old(rd).stream(), old(rd).at(), last, cnt as int, bytepix as int),
            total == prefixed_run(added, raw_pixels(bs, rd.at(), lastpix, cnt - k, bytepix as int)),
        decreases cnt - k,
    {
        let ghost q = rd.at();
        let ghost l0 = lastpix;
        let v = match rd.take(bbits) {
            Some(v) => v,
            None => return Err(RiceFault::Corrupt),
        };
        proof {
            let xv = bits_val(bs.subrange(q, q + 8 * bytepix));
            lemma_bits_val_bound(bs.subrange(q, q + 8 * bytepix));
            lemma2_to64();
            assert(pow2((8 * bytepix) as nat) <= 0x1_0000_0000);
            assert(0 <= xv < 0x1_0000_0000);
            assert(v == xv);
            assert(v as u32 == xv as u32);
        }
        lastpix = next_pix_exec(v as u32, lastpix, bytepix);
        let px = sign_extend(lastpix, bytepix);
        out.push(px);
        proof {
            assert(raw_pixels(bs, q, l0, cnt - k, bytepix as int) == prefixed_run(
                seq![px],
                raw_pixels(bs, rd.at(), lastpix, cnt - k - 1, bytepix as int),
            ));
            lemma_prefixed_run_assoc(
                added,
                seq![px],
                raw_pixels(bs, rd.at(), lastpix, cnt - k - 1, bytepix as int),
            );
            added = added + seq![px];
        }
        k += 1;
    }
    proof {
        assert(added + Seq::<i32>::empty() =~= added);
    }
    Ok(lastpix)
}

/// Decode `cnt` differences Rice-coded with split `fs` into `out`.
fn coded_block(rd: &mut BitReader, last: u32, cnt: usize, fs: u32, bytepix: i32, out: &mut Vec<i32>) -> (r: Result<
    u32,
    RiceFault,
>)
    requires
        old(rd).wf(),
        fs <= 32,
        valid_bytepix(bytepix as int),
    ensures
        final(rd).s@ == old(rd).s@,
        final(rd).c@ == old(rd).c@,
        final(rd).extra@ == old(rd).extra@,
        match coded_pixels(old(rd).stream(), old(rd).at(), last, cnt as int, fs as int, bytepix as int) {
            Ok((px, q, l)) => r == Ok::<u32, RiceFault>(l) && final(out)@ == old(out)@ + px && final(rd).wf()
                && final(rd).at() == q && (cnt > 0 ==> final(rd).nbits < 8) && (cnt == 0 ==> final(rd).nbits
                == old(rd).nbits),
            Err(f) => r == Err::<u32, RiceFault>(f),
        },
{
    let ghost bs = rd.stream();
    let ghost total = coded_pixels(bs, rd.at(), last, cnt as int, fs as int, bytepix as int);
    let mut lastpix = last;
    let mut k: usize = 0;
    let ghost mut added: Seq<i32> = Seq::empty();
    proof {
        lemma_prefixed_run_empty(total);
        lemma2_to64();
        vstd::arithmetic::power2::lemma_pow2_strictly_increases(fs as nat, 64);
        vstd::bits::lemma_u64_shl_is_mul(1, fs as u64);
    }
    let pf: u128 = (1u64 << fs as u64) as u128;
    while k < cnt
        invariant
            rd.wf(),
            k > 0 ==> rd.nbits < 8,
            k == 0 ==> rd.nbits == old(rd).nbits,
            rd.s@ == old(rd).s@,
            rd.c@ == old(rd).c@,
            rd.extra@ == old(rd).extra@,
            bs == rd.stream(),
            valid_bytepix(bytepix as int),
            fs <= 32,
            pf == pow2(fs as nat),
            pf <= 0x1_0000_0000,
            k <= cnt,
            out@ == old(out)@ + added,
            total == coded_pixels(old(rd).stream(), old(rd).at(), last, cnt as int, fs as int, bytepix as int),
            total == prefixed_run(added, coded_pixels(bs, rd.at(), lastpix, cnt - k, fs as int, bytepix as int)),
        decreases cnt - k,
    {
        let z = match rd.zeros() {
            Some(z) => z,
            None => return Err(RiceFault::Corrupt),
        };
        let ghost q1 = rd.at();
        let low = match rd.take(fs) {
            Some(v) => v,
            None => return Err(RiceFault::Corrupt),
        };
        let rem = rd.nbits;
        assert(rem < 8);
        let sh: u64 = 32 - rem;
        proof {
            lemma2_to64();
            lemma_rem_bits(rd.at(), rd.vpos(), rem as int);
            vstd::arithmetic::power2::lemma_pow2_strictly_increases(sh as nat, 64);
            assert(pow2(sh as nat) < 0x1_0000_0000_0000_0000);
            vstd::bits::lemma_u64_shl_is_mul(1, sh);
            assert(bs.len() == 8 * rd.s@.len());
            assert(rd.s@.len() <= rd.c@.len() + 1);
            assert(rd.c@.len() <= 0xffff_ffff_ffff_ffff);
            assert(z < bs.len());
            assert(z < 0x8_0000_0000_0000_0008);
            assert(z * pf <= 0x10_0000_0000_0000_0000_0000_0000) by (nonlinear_arith)
                requires
                    z < 0x8_0000_0000_0000_0008,
                    pf <= 0x1_0000_0000,
            ;
        }
        let keep: u64 = 1u64 << sh;
        let low2: u64 = low % keep;
        let diff: u32 = ((z * pf + low2 as u128) % 0x1_0000_0000) as u32;
        lastpix = next_pix_exec(diff, lastpix, bytepix);
        let px = sign_extend(lastpix, bytepix);
        out.push(px);
        proof {
            lemma_prefixed_run_assoc(
                added,
                seq![px],
                coded_pixels(bs, rd.at(), lastpix, cnt - k - 1, fs as int, bytepix as int),
            );
            added = added + seq![px];
        }
        k += 1;
    }
    proof {
        assert(added + Seq::<i32>::empty() =~= added);
    }
    Ok(lastpix)
}

/// One step of `decode_blocks`: the block at `p`, then the rest.
proof fn lemma_decode_step(bs: Seq<bool>, p: int, last: u32, i: int, nx: int, nb: int, bytepix: int)
    requires
        0 <= i < nx,
        nb >= 1,
        p + fs_params_of(bytepix).0 <= bs.len(),
    ensures
        decode_blocks(bs, p, last, i, nx, nb, bytepix) == match block_pixels(
            bs,
            p + fs_params_of(bytepix).0,
            last,
            (if i + nb < nx { i + nb } else { nx }) - i,
            bits_val(bs.subrange(p, p + fs_params_of(bytepix).0)) - 1,
            bytepix,
        ) {
            Err(f) => Err(f),
            Ok((px, q, l)) => prefixed(
                px,
                decode_blocks(bs, q, l, if i + nb < nx { i + nb } else { nx }, nx, nb, bytepix),
            ),
        },
{
}

/// Decode one block whose split code is `code` into `out`.
fn decode_block(
    rd: &mut BitReader,
    last: u32,
    cnt: usize,
    code: u64,
    fsmax: u32,
    bytepix: i32,
    out: &mut Vec<i32>,
) -> (r: Result<u32, RiceFault>)
    requires
        old(rd).wf(),
        old(rd).nbits < 8,
        code < 32,
        valid_bytepix(bytepix as int),
        fsmax == fs_params_of(bytepix as int).1,
    ensures
        final(rd).s@ == old(rd).s@,
        final(rd).c@ == old(rd).c@,
        final(rd).extra@ == old(rd).extra@,
        match block_pixels(old(rd).stream(), old(rd).at(), last, cnt as int, code - 1, bytepix as int) {
            Ok((px, q, l)) => r == Ok::<u32, RiceFault>(l) && final(out)@ == old(out)@ + px && final(rd).wf()
                && final(rd).at() == q,
            Err(f) => r == Err::<u32, RiceFault>(f),
        },
{
    if code == 0 {
        let v = sign_extend(last, bytepix);
        let mut k: usize = 0;
        while k < cnt
            invariant
                k <= cnt,
                out@ == old(out)@ + repeat(v, k as int),
            decreases cnt - k,
        {
            out.push(v);
            assert(old(out)@ + repeat(v, k + 1) =~= (old(out)@ + repeat(v, k as int)).push(v));
            k += 1;
        }
        Ok(last)
    } else if code - 1 == fsmax as u64 {
        raw_block(rd, last, cnt, bytepix, out)
    } else {
        coded_block(rd, last, cnt, (code - 1) as u32, bytepix, out)
    }
}

/// Decode the block of pixels from `i` into `out`: the last stored pixel
/// and the index after the block.
fn next_block(
    rd: &mut BitReader,
    last: u32,
    i: usize,
    nx: usize,
    nb: usize,
    fsbits: u32,
    fsmax: u32,
    bytepix: i32,
    out: &mut Vec<i32>,
) -> (r: Result<(u32, usize), RiceFault>)
    requires
        old(rd).wf(),
        i < nx,
        nb >= 1,
        valid_bytepix(bytepix as int),
        fsbits == fs_params_of(bytepix as int).0,
        fsmax == fs_params_of(bytepix as int).1,
    ensures
        final(rd).s@ == old(rd).s@,
        final(rd).c@ == old(rd).c@,
        final(rd).extra@ == old(rd).extra@,
        r matches Err(f) ==> decode_blocks(old(rd).stream(), old(rd).at(), last, i as int, nx as int, nb as int, bytepix as int) == Err::<Seq<i32>, RiceFault>(f),
        r matches Ok((l, imax)) ==> {
            &&& imax == (if i + nb < nx { i + nb } else { nx as int })
            &&& final(rd).wf()
            &&& final(out)@.len() >= old(out)@.len()
            &&& final(out)@.subrange(0, old(out)@.len() as int) == old(out)@
            &&& decode_blocks(old(rd).stream(), old(rd).at(), last, i as int, nx as int, nb as int, bytepix as int)
                == prefixed(
                final(out)@.subrange(old(out)@.len() as int, final(out)@.len() as int),
                decode_blocks(old(rd).stream(), final(rd).at(), l, imax as int, nx as int, nb as int, bytepix as int),
            )
        },
{
    let ghost bs = rd.stream();
    let ghost p = rd.at();
    let code = match rd.take(fsbits) {
        Some(v) => v,
        None => return Err(RiceFault::EndOfStream),
    };
    proof {
        lemma2_to64();
        lemma_decode_step(bs, p, last, i as int, nx as int, nb as int, bytepix as int);
    }
    let imax: usize = if nb < nx - i {
        i + nb
    } else {
        nx
    };
    let ghost q0 = rd.at();
    let ghost bres = block_pixels(bs, q0, last, (imax - i) as int, code - 1, bytepix as int);
    assert(code as int == bits_val(bs.subrange(p, p + fsbits)));
    let l = match decode_block(rd, last, imax - i, code, fsmax, bytepix, out) {
        Ok(l) => l,
        Err(f) => return Err(f),
    };
    proof {
        let added = out@.subrange(old(out)@.len() as int, out@.len() as int);
        match bres {
            Ok((px, q, l2)) => {
                assert(out@ == old(out)@ + px);
                assert(added =~= px);
                assert(q == rd.at());
                assert(l2 == l);
            },
            Err(f) => {},
        }
        assert(out@.subrange(old(out)@.len() as int, out@.len() as int) + Seq::<i32>::empty() =~= out@.subrange(old(out)@.len() as int, out@.len() as int));
        assert(old(out)@ + out@.subrange(old(out)@.len() as int, out@.len() as int) =~= out@);
        assert(out@.subrange(0, old(out)@.len() as int) =~= old(out)@);
    }
    Ok((l, imax))
}

/// Decode `nx` pixels from a Rice stream (`fits_rdecomp`,
/// `fits_rdecomp_short`, `fits_rdecomp_byte`): `bytepix` is the pixel width
/// in bytes (1, 2 or 4) and `nblock` the block size (1 where below 1).
pub fn decompress(c: &[u8], nx: usize, bytepix: i32, nblock: i32) -> (r: Result<Vec<i32>, FitsError>)
    ensures
        nx == 0 ==> (r matches Ok(v) && v@.len() == 0),
        nx > 0 && !valid_bytepix(bytepix as int) ==> (r matches Err(e) && e.status == DATA_COMPRESSION_ERR
            && e.message_list() == seq![bsize_message()]),
        nx > 0 && valid_bytepix(bytepix as int) && c@.len() < bytepix ==> (r matches Err(e) && e.status
            == DATA_DECOMPRESSION_ERR && e.message_list() == seq![alloc_message()]),
        nx > 0 && valid_bytepix(bytepix as int) && c@.len() >= bytepix ==> match rice_decode_of(
            c@,
            nx as int,
            bytepix as int,
            nblock as int,
        ) {
            Ok(px) => r matches Ok(v) && v@ == px,
            Err(RiceFault::EndOfStream) => r matches Err(e) && e.status == DATA_DECOMPRESSION_ERR
                && e.message_list() == seq![end_message()],
            Err(RiceFault::Corrupt) => r matches Err(e) && e.status == DATA_DECOMPRESSION_ERR
                && e.message_list().len() == 0,
        },
{
    if nx == 0 {
        return Ok(Vec::new());
    }
    let nb: usize = if nblock < 1 {
        1
    } else {
        nblock as usize
    };
    let (fsbits, fsmax) = match fs_params(bytepix) {
        Ok(t) => t,
        Err(e) => return Err(e),
    };
    let first: usize = bytepix as usize;
    let clen = c.len();
    if clen < first {
        return Err(
            FitsError::with_message(
                DATA_DECOMPRESSION_ERR,
                "decompression error: input buffer not properly allocated",
            ),
        );
    }
    let ghost s = rice_stream(c@, bytepix as int);
    let ghost bs = byte_bits(s);
    let mut acc: u64 = 0;
    let mut j: usize = 0;
    while j < first
        invariant
            j <= first <= 4,
            first == bytepix,
            first <= c@.len(),
            s == rice_stream(c@, bytepix as int),
            bs == byte_bits(s),
            acc as int == bits_val(bs.subrange(0, 8 * j as int)),
        decreases first - j,
    {
        proof {
            assert(s[j as int] == c@[j as int]);
            lemma_refill(s, 0, j as int, acc);
        }
        acc = acc * 256 + c[j] as u64;
        j += 1;
    }
    proof {
        lemma_bits_val_bound(bs.subrange(0, 8 * first as int));
        lemma2_to64();
        if first < 4 {
            vstd::arithmetic::power2::lemma_pow2_strictly_increases((8 * first) as nat, 32);
        }
    }
    let mut lastpix: u32 = acc as u32;
    let mut rd = if first < clen {
        BitReader { c, pos: first + 1, b: c[first] as u64, nbits: 8, s: Ghost(s), extra: Ghost(false) }
    } else {
        BitReader { c, pos: first, b: 0, nbits: 8, s: Ghost(s), extra: Ghost(true) }
    };
    proof {
        lemma_byte_bits_at(s, first as int);
        lemma_bits_val_of(s[first as int] as int, 8);
        assert(pow2(8) == 256);
        assert(rd.at() == 8 * first);
        assert(rd.b == s[first as int]);
        assert(8 * rd.vpos() == 8 * first + 8);
        assert(rd.stream() == bs);
        assert(bs.subrange(8 * first as int, 8 * first + 8) == bits_of(s[first as int] as int, 8));
        assert(bits_val(bits_of(s[first as int] as int, 8)) == (s[first as int] as int) % 256);
        assert(bits_val(rd.stream().subrange(rd.at(), 8 * rd.vpos())) == s[first as int]);
        assert(c@.len() <= usize::MAX);
        assert(rd.src_ok());
        assert(rd.wf());
    }
    let ghost total = rice_decode_of(c@, nx as int, bytepix as int, nblock as int);
    let mut out: Vec<i32> = Vec::new();
    let mut i: usize = 0;
    assert(total == prefixed(out@, decode_blocks(bs, rd.at(), lastpix, 0, nx as int, nb as int, bytepix as int))) by {
        match decode_blocks(bs, rd.at(), lastpix, 0, nx as int, nb as int, bytepix as int) {
            Ok(px) => {
                assert(out@ + px =~= px);
            },
            Err(_) => {},
        }
    }
    while i < nx
        invariant
            rd.wf(),
            rd.s@ == s,
            bs == rd.stream(),
            first == bytepix,
            first <= c@.len(),
            total == rice_decode_of(c@, nx as int, bytepix as int, nblock as int),
            valid_bytepix(bytepix as int),
            fsbits == fs_params_of(bytepix as int).0,
            fsmax == fs_params_of(bytepix as int).1,
            nb == (if nblock < 1 { 1 } else { nblock as int }),
            nb >= 1,
            i <= nx,
            total == prefixed(out@, decode_blocks(bs, rd.at(), lastpix, i as int, nx as int, nb as int, bytepix as int)),
        decreases nx - i,
    {
        let ghost before = out@;
        let ghost here = decode_blocks(bs, rd.at(), lastpix, i as int, nx as int, nb as int, bytepix as int);
        let (l, imax) = match next_block(&mut rd, lastpix, i, nx, nb, fsbits, fsmax, bytepix, &mut out) {
            Ok(t) => t,
            Err(f) => {
                assert(total == Err::<Seq<i32>, RiceFault>(f));
                return Err(fault_error(f));
            },
        };
        proof {
            let added = out@.subrange(before.len() as int, out@.len() as int);
            assert(before + added =~= out@);
            lemma_prefixed_assoc(
                before,
                added,
                decode_blocks(bs, rd.at(), l, imax as int, nx as int, nb as int, bytepix as int),
            );
        }
        lastpix = l;
        i = imax;
    }
    assert(out@ + Seq::<i32>::empty() =~= out@);
    Ok(out)
}


// ---------------------------------------------------------------------
// Decoding what was encoded.
// ---------------------------------------------------------------------

/// A pixel as the codec keeps it: cut to the pixel width, read back
/// sign-extended.
pub open spec fn stored_pixel(x: i32, bytepix: int) -> i32 {
    if bytepix == 1 {
        x as i8 as i32
    } else if bytepix == 2 {
        x as i16 as i32
    } else {
        x
    }
}

/// The stored form of a pixel: its low `8 * bytepix` bits.
pub open spec fn trunc_pix(x: i32, bytepix: int) -> u32 {
    if bytepix == 1 {
        (x as u32) & 0xff
    } else if bytepix == 2 {
        (x as u32) & 0xffff
    } else {
        x as u32
    }
}

/// The pixel before pixel `k` (the first pixel is its own predecessor).
pub open spec fn prev_pixel(p: Seq<i32>, k: int) -> i32 {
    if k == 0 {
        p[0]
    } else {
        p[k - 1]
    }
}

/// The stored form of a pixel is the pixel modulo `2^(8 * bytepix)`.
proof fn lemma_trunc_mod(x: i32, bytepix: int)
    requires
        valid_bytepix(bytepix),
    ensures
        trunc_pix(x, bytepix) as int == (x as int) % pix_modulus(bytepix),
        sign_extend_of(trunc_pix(x, bytepix), bytepix) == stored_pixel(x, bytepix),
{
    let u = x as u32;
    assert(x >= 0 ==> (x as u32) as int == x as int) by (bit_vector);
    assert(x < 0 ==> (x as u32) as int == x as int + 0x1_0000_0000) by (bit_vector);
    assert((x as u32) as int == (x as int) % 0x1_0000_0000);
    assert(u & 0xff == u % 256) by (bit_vector);
    assert(u & 0xffff == u % 65536) by (bit_vector);
    assert(((x as u32) & 0xff) as u8 as i8 as i32 == x as i8 as i32) by (bit_vector);
    assert(((x as u32) & 0xffff) as u16 as i16 as i32 == x as i16 as i32) by (bit_vector);
    assert((x as u32) as i32 == x) by (bit_vector);
    vstd::arithmetic::div_mod::lemma_mod_mod(x as int, 256, 0x100_0000);
    vstd::arithmetic::div_mod::lemma_mod_mod(x as int, 65536, 65536);
}

/// The mapped difference of `w` unmapped, as a 32-bit word.
proof fn lemma_unzigzag(w: int)
    requires
        -0x8000_0000 <= w < 0x8000_0000,
    ensures
        ({
            let diff = zigzag(w) as u32;
            (if diff & 1 == 0 {
                diff >> 1u32
            } else {
                !(diff >> 1u32)
            }) as int
        }) == w % 0x1_0000_0000,
{
    let diff = zigzag(w) as u32;
    assert(diff as int == zigzag(w));
    assert(diff % 2 == 0 ==> (diff & 1 == 0 && diff >> 1u32 == diff / 2)) by (bit_vector);
    assert(diff % 2 == 1 ==> (diff & 1 == 1 && !(diff >> 1u32) == 0xffff_ffff - diff / 2)) by (bit_vector);
    if w < 0 {
        vstd::arithmetic::div_mod::lemma_fundamental_div_mod_converse(w, 0x1_0000_0000, -1, w + 0x1_0000_0000);
    }
}

/// Modular step of decoding: the difference added to the last stored pixel
/// gives the next pixel modulo `m`.
proof fn lemma_mod_chain(w: int, a: int, b: int, m: int)
    requires
        m > 0,
        0x1_0000_0000int % m == 0,
        w % m == (b - a) % m,
    ensures
        (((w % 0x1_0000_0000) + (a % m)) % 0x1_0000_0000) % m == b % m,
{
    let k = 0x1_0000_0000int / m;
    vstd::arithmetic::div_mod::lemma_fundamental_div_mod(0x1_0000_0000int, m);
    assert(m * k == 0x1_0000_0000);
    assert(k > 0) by (nonlinear_arith)
        requires
            m * k == 0x1_0000_0000,
            m > 0,
    ;
    let x = (w % 0x1_0000_0000) + (a % m);
    vstd::arithmetic::div_mod::lemma_mod_mod(x, m, k);
    vstd::arithmetic::div_mod::lemma_mod_mod(w, m, k);
    vstd::arithmetic::div_mod::lemma_add_mod_noop(w % 0x1_0000_0000, a % m, m);
    vstd::arithmetic::div_mod::lemma_mod_twice(a, m);
    vstd::arithmetic::div_mod::lemma_add_mod_noop(w, a, m);
    vstd::arithmetic::div_mod::lemma_add_mod_noop(b - a, a, m);
}

/// Decoding the mapped difference of `b` from `a` after the stored `a`
/// gives the stored `b`.
proof fn lemma_next_pix_inverse(a: i32, b: i32, bytepix: int)
    requires
        valid_bytepix(bytepix),
    ensures
        next_pix(zigzag(wrap_diff(b as int, a as int, bytepix)) as u32, trunc_pix(a, bytepix), bytepix)
            == trunc_pix(b, bytepix),
{
    let m = pix_modulus(bytepix);
    let w = wrap_diff(b as int, a as int, bytepix);
    let w0 = (b as int - a as int) % m;
    lemma_trunc_mod(a, bytepix);
    lemma_trunc_mod(b, bytepix);
    lemma_unzigzag(w);
    if w0 >= m / 2 {
        vstd::arithmetic::div_mod::lemma_fundamental_div_mod_converse(w, m, -1, w0);
        vstd::arithmetic::div_mod::lemma_mod_twice(b as int - a as int, m);
    } else {
        vstd::arithmetic::div_mod::lemma_mod_twice(b as int - a as int, m);
    }
    assert(w % m == (b as int - a as int) % m);
    let diff = zigzag(w) as u32;
    let mapped: u32 = if diff & 1 == 0 {
        diff >> 1u32
    } else {
        !(diff >> 1u32)
    };
    let last = trunc_pix(a, bytepix);
    let sum = ((mapped as int + last as int) % 0x1_0000_0000) as u32;
    lemma_mod_chain(w, a as int, b as int, m);
    assert(sum & 0xff == sum % 256) by (bit_vector);
    assert(sum & 0xffff == sum % 65536) by (bit_vector);
}

/// A zero difference keeps the stored pixel.
proof fn lemma_wrap_zero(a: i32, b: i32, bytepix: int)
    requires
        valid_bytepix(bytepix),
        zigzag(wrap_diff(b as int, a as int, bytepix)) == 0,
    ensures
        trunc_pix(b, bytepix) == trunc_pix(a, bytepix),
{
    let m = pix_modulus(bytepix);
    lemma_trunc_mod(a, bytepix);
    lemma_trunc_mod(b, bytepix);
    vstd::arithmetic::div_mod::lemma_sub_mod_noop(b as int, a as int, m);
    let x = (b as int) % m;
    let y = (a as int) % m;
    vstd::arithmetic::div_mod::lemma_fundamental_div_mod(x - y, m);
    if x != y {
        assert((x - y) % m != 0) by {
            if x > y {
                vstd::arithmetic::div_mod::lemma_fundamental_div_mod_converse(x - y, m, 0, x - y);
            } else {
                vstd::arithmetic::div_mod::lemma_fundamental_div_mod_converse(x - y, m, -1, x - y + m);
            }
        }
    }
}

/// Mapped differences are below the pixel modulus.
proof fn lemma_rice_diff_range(p: Seq<i32>, k: int, bytepix: int)
    requires
        valid_bytepix(bytepix),
        0 <= k < p.len(),
    ensures
        0 <= rice_diff(p, k, bytepix) < pix_modulus(bytepix),
        rice_diff(p, k, bytepix) == zigzag(wrap_diff(p[k] as int, prev_pixel(p, k) as int, bytepix)),
{
}

/// The bits of `a + b` found at `q` give `a` at `q` and `b` after it.
proof fn lemma_sub_split(bs: Seq<bool>, q: int, a: Seq<bool>, b: Seq<bool>)
    requires
        0 <= q,
        q + a.len() + b.len() <= bs.len(),
        bs.subrange(q, q + (a + b).len()) == a + b,
    ensures
        bs.subrange(q, q + a.len()) == a,
        bs.subrange(q + a.len(), q + a.len() + b.len()) == b,
{
    let ab = a + b;
    assert forall|i: int| 0 <= i < a.len() implies #[trigger] bs.subrange(q, q + a.len())[i] == a[i] by {
        assert(bs.subrange(q, q + ab.len())[i] == ab[i]);
    }
    assert forall|i: int| 0 <= i < b.len() implies #[trigger] bs.subrange(q + a.len(), q + a.len() + b.len())[i]
        == b[i] by {
        assert(bs.subrange(q, q + ab.len())[a.len() + i] == ab[a.len() + i]);
    }
    assert(bs.subrange(q, q + a.len()) =~= a);
    assert(bs.subrange(q + a.len(), q + a.len() + b.len()) =~= b);
}

/// `raw_bits` from the front.
proof fn lemma_raw_bits_front(blk: Seq<int>, w: int)
    requires
        blk.len() > 0,
    ensures
        raw_bits(blk, w) == bits_of(blk[0], w) + raw_bits(blk.drop_first(), w),
    decreases blk.len(),
{
    if blk.len() == 1 {
        assert(blk.drop_last() =~= Seq::<int>::empty());
        assert(blk.drop_first() =~= Seq::<int>::empty());
        assert(raw_bits(blk, w) =~= bits_of(blk[0], w) + raw_bits(blk.drop_first(), w));
    } else {
        let dl = blk.drop_last();
        lemma_raw_bits_front(dl, w);
        assert(blk.drop_first().drop_last() =~= dl.drop_first());
        assert(blk.drop_first().last() == blk.last());
        assert(raw_bits(blk, w) =~= bits_of(blk[0], w) + raw_bits(blk.drop_first(), w));
    }
}

/// `coded_bits` from the front.
proof fn lemma_coded_bits_front(blk: Seq<int>, fs: int)
    requires
        blk.len() > 0,
    ensures
        coded_bits(blk, fs) == unary_code(blk[0], fs) + coded_bits(blk.drop_first(), fs),
    decreases blk.len(),
{
    if blk.len() == 1 {
        assert(blk.drop_last() =~= Seq::<int>::empty());
        assert(blk.drop_first() =~= Seq::<int>::empty());
        assert(coded_bits(blk, fs) =~= unary_code(blk[0], fs) + coded_bits(blk.drop_first(), fs));
    } else {
        let dl = blk.drop_last();
        lemma_coded_bits_front(dl, fs);
        assert(blk.drop_first().drop_last() =~= dl.drop_first());
        assert(blk.drop_first().last() == blk.last());
        assert(coded_bits(blk, fs) =~= unary_code(blk[0], fs) + coded_bits(blk.drop_first(), fs));
    }
}

/// A value below `2^w` reads back from its `w` bits.
proof fn lemma_read_value(bs: Seq<bool>, q: int, v: int, w: int)
    requires
        0 <= q,
        0 <= w,
        0 <= v < pow2(w as nat),
        q + w <= bs.len(),
        bs.subrange(q, q + w) == bits_of(v, w),
    ensures
        bits_val(bs.subrange(q, q + w)) == v,
{
    lemma_bits_val_of(v, w);
    vstd::arithmetic::div_mod::lemma_small_mod(v as nat, pow2(w as nat));
}

/// Raw differences of pixels `k .. k + cnt` decode to those pixels.
proof fn lemma_raw_decode(bs: Seq<bool>, q: int, p: Seq<i32>, k: int, cnt: int, bytepix: int)
    requires
        valid_bytepix(bytepix),
        0 <= k,
        0 <= cnt,
        k + cnt <= p.len(),
        0 <= q,
        q + raw_bits(rice_diffs(p, bytepix).subrange(k, k + cnt), 8 * bytepix).len() <= bs.len(),
        bs.subrange(q, q + raw_bits(rice_diffs(p, bytepix).subrange(k, k + cnt), 8 * bytepix).len())
            == raw_bits(rice_diffs(p, bytepix).subrange(k, k + cnt), 8 * bytepix),
    ensures
        raw_pixels(bs, q, trunc_pix(prev_pixel(p, k), bytepix), cnt, bytepix) == Ok::<
            (Seq<i32>, int, u32),
            RiceFault,
        >(
            (
                p.subrange(k, k + cnt).map_values(|x: i32| stored_pixel(x, bytepix)),
                q + raw_bits(rice_diffs(p, bytepix).subrange(k, k + cnt), 8 * bytepix).len(),
                trunc_pix(prev_pixel(p, k + cnt), bytepix),
            ),
        ),
    decreases cnt,
{
    let d = rice_diffs(p, bytepix);
    let blk = d.subrange(k, k + cnt);
    let w = 8 * bytepix;
    if cnt == 0 {
        assert(blk =~= Seq::<int>::empty());
        assert(p.subrange(k, k).map_values(|x: i32| stored_pixel(x, bytepix)) =~= Seq::<i32>::empty());
    } else {
        lemma_raw_bits_front(blk, w);
        let v = blk[0];
        let rest = blk.drop_first();
        assert(rest =~= d.subrange(k + 1, k + cnt));
        lemma_bits_of_len(v, w);
        lemma_sub_split(bs, q, bits_of(v, w), raw_bits(rest, w));
        lemma_rice_diff_range(p, k, bytepix);
        lemma2_to64();
        lemma_read_value(bs, q, v, w);
        lemma_next_pix_inverse(prev_pixel(p, k), p[k], bytepix);
        lemma_trunc_mod(p[k], bytepix);
        lemma_raw_decode(bs, q + w, p, k + 1, cnt - 1, bytepix);
        assert(prev_pixel(p, k + 1) == p[k]);
        assert(seq![stored_pixel(p[k], bytepix)] + p.subrange(k + 1, k + cnt).map_values(
            |x: i32| stored_pixel(x, bytepix),
        ) =~= p.subrange(k, k + cnt).map_values(|x: i32| stored_pixel(x, bytepix)));
    }
}

/// Rice-coded differences of pixels `k .. k + cnt` with a split below
/// 25 decode to those pixels.
proof fn lemma_coded_decode(bs: Seq<bool>, q: int, p: Seq<i32>, k: int, cnt: int, fs: int, bytepix: int)
    requires
        valid_bytepix(bytepix),
        0 <= fs < 25,
        0 <= k,
        0 <= cnt,
        k + cnt <= p.len(),
        0 <= q,
        q + coded_bits(rice_diffs(p, bytepix).subrange(k, k + cnt), fs).len() <= bs.len(),
        bs.subrange(q, q + coded_bits(rice_diffs(p, bytepix).subrange(k, k + cnt), fs).len())
            == coded_bits(rice_diffs(p, bytepix).subrange(k, k + cnt), fs),
    ensures
        coded_pixels(bs, q, trunc_pix(prev_pixel(p, k), bytepix), cnt, fs, bytepix) == Ok::<
            (Seq<i32>, int, u32),
            RiceFault,
        >(
            (
                p.subrange(k, k + cnt).map_values(|x: i32| stored_pixel(x, bytepix)),
                q + coded_bits(rice_diffs(p, bytepix).subrange(k, k + cnt), fs).len(),
                trunc_pix(prev_pixel(p, k + cnt), bytepix),
            ),
        ),
    decreases cnt,
{
    let d = rice_diffs(p, bytepix);
    let blk = d.subrange(k, k + cnt);
    if cnt == 0 {
        assert(blk =~= Seq::<int>::empty());
        assert(p.subrange(k, k).map_values(|x: i32| stored_pixel(x, bytepix)) =~= Seq::<i32>::empty());
    } else {
        lemma_coded_bits_front(blk, fs);
        let v = blk[0];
        let rest = blk.drop_first();
        assert(rest =~= d.subrange(k + 1, k + cnt));
        lemma_rice_diff_range(p, k, bytepix);
        lemma2_to64();
        let pf = pow2(fs as nat) as int;
        vstd::arithmetic::power2::lemma_pow2_pos(fs as nat);
        let z = v / pf;
        let head = zero_bits(z).push(true);
        let low_bits = bits_of(v, fs);
        lemma_bits_of_len(v, fs);
        assert(unary_code(v, fs) == head + low_bits);
        assert(head + low_bits + coded_bits(rest, fs) =~= head + (low_bits + coded_bits(rest, fs)));
        lemma_sub_split(bs, q, head, low_bits + coded_bits(rest, fs));
        lemma_sub_split(bs, q + head.len(), low_bits, coded_bits(rest, fs));
        assert forall|t: int| q <= t < q + z implies !#[trigger] bs[t] by {
            assert(bs.subrange(q, q + head.len())[t - q] == head[t - q]);
        }
        assert(bs[q + z]) by {
            assert(bs.subrange(q, q + head.len())[z] == head[z]);
        }
        lemma_zero_run_some(bs, q, z);
        let q1 = q + z + 1;
        vstd::arithmetic::div_mod::lemma_fundamental_div_mod(v, pf);
        lemma_bits_val_of(v, fs);
        let low = v % pf;
        assert(bits_val(bs.subrange(q1, q1 + fs)) == low);
        let end = q1 + fs;
        let rem = (8 - end % 8) % 8;
        vstd::arithmetic::power2::lemma_pow2_strictly_increases(fs as nat, (32 - rem) as nat);
        vstd::arithmetic::div_mod::lemma_small_mod(low as nat, pow2((32 - rem) as nat));
        assert(z * pf + low == v) by (nonlinear_arith)
            requires
                v == pf * (v / pf) + v % pf,
                z == v / pf,
                low == v % pf,
        ;
        assert(coded_diff(z, low, fs, end) as int == v);
        lemma_next_pix_inverse(prev_pixel(p, k), p[k], bytepix);
        lemma_trunc_mod(p[k], bytepix);
        lemma_coded_decode(bs, q1 + fs, p, k + 1, cnt - 1, fs, bytepix);
        assert(prev_pixel(p, k + 1) == p[k]);
        assert(seq![stored_pixel(p[k], bytepix)] + p.subrange(k + 1, k + cnt).map_values(
            |x: i32| stored_pixel(x, bytepix),
        ) =~= p.subrange(k, k + cnt).map_values(|x: i32| stored_pixel(x, bytepix)));
    }
}

/// A block of zero differences repeats the stored pixel before it.
proof fn lemma_zero_decode(p: Seq<i32>, k: int, cnt: int, bytepix: int)
    requires
        valid_bytepix(bytepix),
        0 <= k,
        0 <= cnt,
        k + cnt <= p.len(),
        forall|j: int| k <= j < k + cnt ==> #[trigger] rice_diff(p, j, bytepix) == 0,
    ensures
        repeat(sign_extend_of(trunc_pix(prev_pixel(p, k), bytepix), bytepix), cnt) == p.subrange(k, k + cnt).map_values(
            |x: i32| stored_pixel(x, bytepix),
        ),
        trunc_pix(prev_pixel(p, k + cnt), bytepix) == trunc_pix(prev_pixel(p, k), bytepix),
    decreases cnt,
{
    if cnt == 0 {
        assert(p.subrange(k, k).map_values(|x: i32| stored_pixel(x, bytepix)) =~= Seq::<i32>::empty());
    } else {
        assert(rice_diff(p, k, bytepix) == 0);
        lemma_wrap_zero(prev_pixel(p, k), p[k], bytepix);
        lemma_trunc_mod(p[k], bytepix);
        assert(prev_pixel(p, k + 1) == p[k]);
        lemma_zero_decode(p, k + 1, cnt - 1, bytepix);
        let v = sign_extend_of(trunc_pix(prev_pixel(p, k), bytepix), bytepix);
        assert(repeat(v, cnt) =~= seq![v] + repeat(v, cnt - 1));
        assert(seq![stored_pixel(p[k], bytepix)] + p.subrange(k + 1, k + cnt).map_values(
            |x: i32| stored_pixel(x, bytepix),
        ) =~= p.subrange(k, k + cnt).map_values(|x: i32| stored_pixel(x, bytepix)));
    }
}

/// A sum of non-negative values is 0 only when each is.
proof fn lemma_sum_zero(s: Seq<int>, j: int)
    requires
        forall|i: int| 0 <= i < s.len() ==> s[i] >= 0,
        sum_of(s) == 0,
        0 <= j < s.len(),
    ensures
        s[j] == 0,
    decreases s.len(),
{
    lemma_sum_nonneg(s.drop_last());
    if j < s.len() - 1 {
        lemma_sum_zero(s.drop_last(), j);
    }
}

proof fn lemma_sum_nonneg(s: Seq<int>)
    requires
        forall|i: int| 0 <= i < s.len() ==> s[i] >= 0,
    ensures
        sum_of(s) >= 0,
    decreases s.len(),
{
    if s.len() > 0 {
        lemma_sum_nonneg(s.drop_last());
    }
}

/// One block of the encoder's bits decodes to its pixels.
proof fn lemma_block_decode(bs: Seq<bool>, q: int, p: Seq<i32>, k: int, cnt: int, bytepix: int)
    requires
        valid_bytepix(bytepix),
        0 <= k,
        1 <= cnt,
        k + cnt <= p.len(),
        0 <= q,
        q + block_bits(rice_diffs(p, bytepix).subrange(k, k + cnt), bytepix).len() <= bs.len(),
        bs.subrange(q, q + block_bits(rice_diffs(p, bytepix).subrange(k, k + cnt), bytepix).len())
            == block_bits(rice_diffs(p, bytepix).subrange(k, k + cnt), bytepix),
    ensures
        q + fs_params_of(bytepix).0 <= bs.len(),
        block_pixels(
            bs,
            q + fs_params_of(bytepix).0,
            trunc_pix(prev_pixel(p, k), bytepix),
            cnt,
            bits_val(bs.subrange(q, q + fs_params_of(bytepix).0)) - 1,
            bytepix,
        ) == Ok::<(Seq<i32>, int, u32), RiceFault>(
            (
                p.subrange(k, k + cnt).map_values(|x: i32| stored_pixel(x, bytepix)),
                q + block_bits(rice_diffs(p, bytepix).subrange(k, k + cnt), bytepix).len(),
                trunc_pix(prev_pixel(p, k + cnt), bytepix),
            ),
        ),
{
    let d = rice_diffs(p, bytepix);
    let blk = d.subrange(k, k + cnt);
    let fsbits = fs_params_of(bytepix).0;
    let fsmax = fs_params_of(bytepix).1;
    let fs = block_fs(blk, bytepix) as int;
    lemma2_to64();
    if fs >= fsmax {
        let code = bits_of(fsmax + 1, fsbits);
        lemma_bits_of_len(fsmax + 1, fsbits);
        lemma_sub_split(bs, q, code, raw_bits(blk, 8 * bytepix));
        lemma_read_value(bs, q, fsmax + 1, fsbits);
        lemma_raw_decode(bs, q + fsbits, p, k, cnt, bytepix);
    } else if fs == 0 && sum_of(blk) == 0 {
        lemma_bits_of_len(0, fsbits);
        lemma_read_value(bs, q, 0, fsbits);
        assert forall|j: int| k <= j < k + cnt implies #[trigger] rice_diff(p, j, bytepix) == 0 by {
            assert forall|i: int| 0 <= i < blk.len() implies blk[i] >= 0 by {
                lemma_rice_diff_range(p, k + i, bytepix);
            }
            lemma_sum_zero(blk, j - k);
        }
        lemma_zero_decode(p, k, cnt, bytepix);
    } else {
        let code = bits_of(fs + 1, fsbits);
        lemma_bits_of_len(fs + 1, fsbits);
        lemma_sub_split(bs, q, code, coded_bits(blk, fs));
        lemma_read_value(bs, q, fs + 1, fsbits);
        lemma_coded_decode(bs, q + fsbits, p, k, cnt, fs, bytepix);
    }
}

/// The blocks of the encoder's bits from pixel `k` on decode to the
/// pixels from `k` on.
proof fn lemma_blocks_decode(bs: Seq<bool>, q: int, p: Seq<i32>, k: int, nb: int, bytepix: int)
    requires
        valid_bytepix(bytepix),
        nb >= 1,
        0 <= k <= p.len(),
        0 <= q,
        q + blocks_bits(rice_diffs(p, bytepix), k, nb, bytepix).len() <= bs.len(),
        bs.subrange(q, q + blocks_bits(rice_diffs(p, bytepix), k, nb, bytepix).len()) == blocks_bits(
            rice_diffs(p, bytepix),
            k,
            nb,
            bytepix,
        ),
    ensures
        decode_blocks(bs, q, trunc_pix(prev_pixel(p, k), bytepix), k, p.len() as int, nb, bytepix) == Ok::<
            Seq<i32>,
            RiceFault,
        >(p.subrange(k, p.len() as int).map_values(|x: i32| stored_pixel(x, bytepix))),
    decreases p.len() - k,
{
    let d = rice_diffs(p, bytepix);
    if k == p.len() {
        assert(p.subrange(k, k).map_values(|x: i32| stored_pixel(x, bytepix)) =~= Seq::<i32>::empty());
    } else {
        let end = if k + nb < p.len() {
            k + nb
        } else {
            p.len() as int
        };
        let b = block_bits(d.subrange(k, end), bytepix);
        let rest = blocks_bits(d, end, nb, bytepix);
        lemma_sub_split(bs, q, b, rest);
        lemma_block_decode(bs, q, p, k, end - k, bytepix);
        lemma_decode_step(bs, q, trunc_pix(prev_pixel(p, k), bytepix), k, p.len() as int, nb, bytepix);
        lemma_blocks_decode(bs, q + b.len(), p, end, nb, bytepix);
        assert(p.subrange(k, end).map_values(|x: i32| stored_pixel(x, bytepix)) + p.subrange(
            end,
            p.len() as int,
        ).map_values(|x: i32| stored_pixel(x, bytepix)) =~= p.subrange(k, p.len() as int).map_values(
            |x: i32| stored_pixel(x, bytepix),
        ));
    }
}

/// The bits of the bytes `pack_bits` makes, after any added zero byte,
/// begin with the packed bits.
proof fn lemma_stream_prefix(bits: Seq<bool>, bytepix: int)
    ensures
        bits.len() <= byte_bits(rice_stream(pack_bits(bits), bytepix)).len(),
        byte_bits(rice_stream(pack_bits(bits), bytepix)).subrange(0, bits.len() as int) == bits,
{
    let c = pack_bits(bits);
    let s = rice_stream(c, bytepix);
    let bs = byte_bits(s);
    let nbytes = (bits.len() + 7) / 8;
    let padded = bits + zero_bits(nbytes * 8 - bits.len());
    lemma2_to64();
    assert forall|i: int| 0 <= i < bits.len() implies #[trigger] bs.subrange(0, bits.len() as int)[i] == bits[i] by {
        let j = i / 8;
        let t = i % 8;
        vstd::arithmetic::div_mod::lemma_fundamental_div_mod(i, 8);
        let w = padded.subrange(8 * j, 8 * j + 8);
        lemma_bits_of_val(w);
        lemma_bits_val_bound(w);
        assert(s[j] == c[j]);
        assert(c[j] as int == bits_val(w));
        assert(bs[i] == bits_of(s[j] as int, 8)[t]);
        assert(w[t] == padded[8 * j + t]);
    }
    assert(byte_bits(rice_stream(pack_bits(bits), bytepix)).subrange(0, bits.len() as int) =~= bits);
}

/// Law: a non-empty pixel array Rice-coded with a block size of at least 1
/// decodes, with the same pixel width and block size, to its pixels cut to
/// the pixel width and sign-extended; the stream holds at least one pixel.
pub proof fn lemma_rice_roundtrip(p: Seq<i32>, bytepix: int, nblock: int)
    requires
        p.len() > 0,
        valid_bytepix(bytepix),
        nblock >= 1,
    ensures
        pack_bits(rice_bits(p, bytepix, nblock)).len() >= bytepix,
        rice_decode_of(pack_bits(rice_bits(p, bytepix, nblock)), p.len() as int, bytepix, nblock) == Ok::<
            Seq<i32>,
            RiceFault,
        >(p.map_values(|x: i32| stored_pixel(x, bytepix))),
{
    let r = rice_bits(p, bytepix, nblock);
    let c = pack_bits(r);
    let bs = byte_bits(rice_stream(c, bytepix));
    let w = 8 * bytepix;
    let first = bits_of(p[0] as u32 as int, w);
    let t = blocks_bits(rice_diffs(p, bytepix), 0, nblock, bytepix);
    lemma_bits_of_len(p[0] as u32 as int, w);
    lemma_stream_prefix(r, bytepix);
    lemma_sub_split(bs, 0, first, t);
    lemma_bits_val_of(p[0] as u32 as int, w);
    lemma2_to64();
    let u = p[0] as u32;
    assert(u & 0xff == u % 256) by (bit_vector);
    assert(u & 0xffff == u % 65536) by (bit_vector);
    assert(bits_val(bs.subrange(0, w)) == (u as int) % (pow2(w as nat) as int));
    if bytepix == 4 {
        vstd::arithmetic::div_mod::lemma_small_mod(u as nat, pow2(32));
    }
    assert(bits_val(bs.subrange(0, w)) as u32 == trunc_pix(prev_pixel(p, 0), bytepix));
    lemma_blocks_decode(bs, w, p, 0, nblock, bytepix);
    assert(p.subrange(0, p.len() as int) =~= p);
}

} // verus!
