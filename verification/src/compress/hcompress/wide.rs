//! The H-transform codec for 64-bit pixels (`compress64`,
//! `decompress64`), used for tiles of 32-bit images: the same stream as for
//! 32-bit pixels, its arithmetic done in 64-bit two's complement.
use vstd::prelude::*;
use vstd::arithmetic::power2::{pow2, lemma2_to64, lemma2_to64_rest, lemma_pow2_adds};
use vstd::arithmetic::div_mod::lemma_fundamental_div_mod_converse;
use vstd::wrapping::i64_specs;
use vstd::slice::slice_subrange;
use crate::compress::layout::be_signed;
use crate::compress::rice::{bits_of, bit_length, bit_length_exec, byte_bits, lemma_bit_length_pow, pack_bits, BitWriter};
use crate::convert::{be_value, pow256};
use crate::error::FitsError;
use crate::status::{DATA_COMPRESSION_ERR, DATA_DECOMPRESSION_ERR};
use super::{
    BitIn,
    HcFault,
    assemble,
    assemble_exec,
    ceil_log2,
    code_len,
    corner,
    decode_header,
    fwd_shift,
    hc_error,
    hc_header,
    hc_messages,
    hcode,
    header_bytes,
    huff_code,
    inv_shift,
    lemma_be_bytes_len,
    lemma_block_index,
    lemma_code_len_bound,
    lemma_code_len_concat,
    lemma_code_len_min,
    lemma_code_len_nonneg,
    lemma_nonzeros_len,
    lemma_row_bound,
    levels_of,
    nbit,
    nlevels,
    nonzeros,
    nyb_bits,
    nybbles,
    out_room,
    plane_dec,
    plane_exec,
    push_be_signed,
    push_nonzeros,
    quad_of,
    rd,
    reduce,
    reduce_exec,
    rev_code_bits,
    shuf,
    shuf_exec,
    tdiv,
    top_at,
    top_exec,
    unshuf,
    unshuf_exec,
};

verus! {

/// Big-endian 64-bit integer at `start`.
fn read_i64(c: &[u8], start: usize) -> (r: i64)
    requires
        start + 8 <= c@.len(),
    ensures
        r as int == be_signed(c@.subrange(start as int, start + 8)),
{
    let mut acc: u64 = 0;
    let mut i: usize = 0;
    proof {
        assert(c@.subrange(start as int, start as int) =~= Seq::<u8>::empty());
    }
    while i < 8
        invariant
            i <= 8,
            start + 8 <= c.len(),
            acc as int == be_value(c@.subrange(start as int, start + i)),
            (acc as int) < pow256(i as nat),
        decreases 8 - i,
    {
        proof {
            reveal_with_fuel(pow256, 9);
            assert(c@.subrange(start as int, start + i + 1).drop_last() =~= c@.subrange(start as int, start + i));
            assert(acc * 256 + 255 < pow256((i + 1) as nat)) by (nonlinear_arith)
                requires
                    (acc as int) < pow256(i as nat),
                    pow256((i + 1) as nat) == 256 * pow256(i as nat),
            ;
            if i == 0 {
            } else if i == 1 {
            } else if i == 2 {
            } else if i == 3 {
            } else if i == 4 {
            } else if i == 5 {
            } else if i == 6 {
            } else {
            }
            assert(pow256((i + 1) as nat) <= 0x1_0000_0000_0000_0000);
        }
        acc = acc * 256 + c[start + i] as u64;
        i = i + 1;
    }
    proof {
        reveal_with_fuel(pow256, 9);
    }
    if acc >= 0x8000_0000_0000_0000 {
        ((acc - 0x8000_0000_0000_0000) as i64) - 0x7fff_ffff_ffff_ffff - 1
    } else {
        acc as i64
    }
}

/// Sum in 64-bit two's complement.
pub open spec fn wa(x: i64, y: i64) -> i64 {
    i64_specs::wrapping_add(x, y)
}

/// Difference in 64-bit two's complement.
pub open spec fn ws(x: i64, y: i64) -> i64 {
    i64_specs::wrapping_sub(x, y)
}

/// Left shift in 64-bit two's complement.
pub open spec fn wl(x: i64, k: u32) -> i64 {
    i64_specs::wrapping_shl(x, k)
}

/// `2^k` as an `i64` (`k <= 62`).
pub open spec fn p2(k: nat) -> i64 {
    pow2(k) as i64
}

/// `-(2^k)` as an `i64` (`k <= 63`): the mask that clears the low `k` bits.
pub open spec fn np2(k: nat) -> i64 {
    (-(pow2(k) as int)) as i64
}

fn p2_exec(k: u32) -> (r: i64)
    requires
        k <= 62,
    ensures
        r == p2(k as nat),
        r == pow2(k as nat),
{
    let mut v: i64 = 1;
    let mut i: u32 = 0;
    proof {
        lemma2_to64();
    }
    while i < k
        invariant
            i <= k <= 62,
            v == pow2(i as nat),
        decreases k - i,
    {
        proof {
            lemma_pow2_adds(i as nat, 1);
            lemma2_to64();
            lemma2_to64_rest();
            vstd::arithmetic::power2::lemma_pow2_strictly_increases((i + 1) as nat, 63);
        }
        v = v * 2;
        i = i + 1;
    }
    v
}

fn np2_exec(k: u32) -> (r: i64)
    requires
        k <= 63,
    ensures
        r == np2(k as nat),
{
    if k == 63 {
        proof {
            lemma2_to64();
            lemma2_to64_rest();
        }
        i64::MIN
    } else {
        let p = p2_exec(k);
        0 - p
    }
}

/// A difference coefficient of level `l`, rounded to a multiple of
/// `2^(l+1)` (half up for non-negative values).
pub open spec fn rnd1(x: i64, l: nat) -> i64 {
    (if x >= 0 { wa(x, p2(l)) } else { x }) & np2(l + 1)
}

/// The sum coefficient of level `l`, rounded to a multiple of `2^(l+2)`.
pub open spec fn rnd2(x: i64, l: nat) -> i64 {
    (if x >= 0 { wa(x, p2(l + 1)) } else { wa(x, (pow2(l + 1) - 1) as i64) }) & np2(l + 2)
}

/// Pixel `(i, j)` of a row-major tile with rows of `ny`.
pub open spec fn el(s: Seq<i64>, ny: int, i: int, j: int) -> i64 {
    s[i * ny + j]
}

/// Coefficient `(i, j)` of level `l` over the `nxt` by `nyt` corner, before
/// the shuffle: each 2x2 block `(a00 a01 / a10 a11)` becomes its sum `h0`,
/// its differences along x (`hx`) and y (`hy`) and its cross difference
/// `hc`; a block cut by the corner's edge keeps the sums and differences of
/// the pixels it has, scaled to the same weight.
pub open spec fn fwd_pre(s: Seq<i64>, ny: int, nxt: int, nyt: int, l: nat, i: int, j: int) -> i64 {
    let i0 = i - i % 2;
    let j0 = j - j % 2;
    let sh = fwd_shift(l);
    let a00 = el(s, ny, i0, j0);
    if i0 + 1 < nxt && j0 + 1 < nyt {
        let a01 = el(s, ny, i0, j0 + 1);
        let a10 = el(s, ny, i0 + 1, j0);
        let a11 = el(s, ny, i0 + 1, j0 + 1);
        if i % 2 == 0 && j % 2 == 0 {
            rnd2(wa(wa(wa(a11, a10), a01), a00) >> sh, l)
        } else if i % 2 == 0 {
            rnd1(ws(wa(ws(a11, a10), a01), a00) >> sh, l)
        } else if j % 2 == 0 {
            rnd1(ws(ws(wa(a11, a10), a01), a00) >> sh, l)
        } else {
            wa(ws(ws(a11, a10), a01), a00) >> sh
        }
    } else if i0 + 1 < nxt {
        let a10 = el(s, ny, i0 + 1, j0);
        if i % 2 == 0 {
            rnd2(wl(wa(a10, a00), (1 - sh) as u32), l)
        } else {
            rnd1(wl(ws(a10, a00), (1 - sh) as u32), l)
        }
    } else if j0 + 1 < nyt {
        let a01 = el(s, ny, i0, j0 + 1);
        if j % 2 == 0 {
            rnd2(wl(wa(a01, a00), (1 - sh) as u32), l)
        } else {
            rnd1(wl(ws(a01, a00), (1 - sh) as u32), l)
        }
    } else {
        rnd2(wl(a00, (2 - sh) as u32), l)
    }
}

/// Level `l` of the forward transform of an `nx` by `ny` tile: the corner
/// left by the earlier levels is transformed block by block, then its rows
/// and its columns are shuffled so that the block sums gather in the
/// corner the next level works on.
pub open spec fn fwd_level(s: Seq<i64>, nx: int, ny: int, l: nat) -> Seq<i64> {
    let nxt = top_at(nx, l);
    let nyt = top_at(ny, l);
    Seq::new(
        s.len(),
        |p: int|
            if p / ny < nxt && p % ny < nyt {
                fwd_pre(s, ny, nxt, nyt, l, shuf(p / ny, nxt), shuf(p % ny, nyt))
            } else {
                s[p]
            },
    )
}

/// The first `l` levels of the forward transform.
pub open spec fn htrans_levels(s: Seq<i64>, nx: int, ny: int, l: nat) -> Seq<i64>
    decreases l,
{
    if l == 0 {
        s
    } else {
        fwd_level(htrans_levels(s, nx, ny, (l - 1) as nat), nx, ny, (l - 1) as nat)
    }
}

/// The H-transform of an `nx` by `ny` tile (`htrans`).
pub open spec fn htrans_spec(s: Seq<i64>, nx: int, ny: int) -> Seq<i64> {
    htrans_levels(s, nx, ny, ceil_log2(if nx < ny { ny } else { nx }))
}

fn get_el(s: &Vec<i64>, ny: usize, nx: usize, i: usize, j: usize) -> (r: i64)
    requires
        i < nx,
        j < ny,
        nx * ny <= s.len(),
    ensures
        r == el(s@, ny as int, i as int, j as int),
{
    proof {
        lemma_block_index(i as int, j as int, ny as int, nx as int, ny as int, nx as int);
    }
    s[i * ny + j]
}

fn rnd1_exec(x: i64, l: u32) -> (r: i64)
    requires
        l <= 29,
    ensures
        r == rnd1(x, l as nat),
{
    let p = p2_exec(l);
    let m = np2_exec(l + 1);
    (if x >= 0 { x.wrapping_add(p) } else { x }) & m
}

fn rnd2_exec(x: i64, l: u32) -> (r: i64)
    requires
        l <= 29,
    ensures
        r == rnd2(x, l as nat),
{
    let p = p2_exec(l + 1);
    let m = np2_exec(l + 2);
    (if x >= 0 { x.wrapping_add(p) } else { x.wrapping_add(p - 1) }) & m
}

fn fwd_pre_exec(s: &Vec<i64>, nx: usize, ny: usize, nxt: usize, nyt: usize, l: u32, i: usize, j: usize) -> (r: i64)
    requires
        i < nxt <= nx,
        j < nyt <= ny,
        nx * ny <= s.len(),
        l <= 29,
    ensures
        r == fwd_pre(s@, ny as int, nxt as int, nyt as int, l as nat, i as int, j as int),
{
    let i0 = i - i % 2;
    let j0 = j - j % 2;
    let sh: u32 = if l == 0 { 0 } else { 1 };
    let a00 = get_el(s, ny, nx, i0, j0);
    if i0 + 1 < nxt && j0 + 1 < nyt {
        let a01 = get_el(s, ny, nx, i0, j0 + 1);
        let a10 = get_el(s, ny, nx, i0 + 1, j0);
        let a11 = get_el(s, ny, nx, i0 + 1, j0 + 1);
        if i % 2 == 0 && j % 2 == 0 {
            rnd2_exec(a11.wrapping_add(a10).wrapping_add(a01).wrapping_add(a00) >> sh, l)
        } else if i % 2 == 0 {
            rnd1_exec(a11.wrapping_sub(a10).wrapping_add(a01).wrapping_sub(a00) >> sh, l)
        } else if j % 2 == 0 {
            rnd1_exec(a11.wrapping_add(a10).wrapping_sub(a01).wrapping_sub(a00) >> sh, l)
        } else {
            a11.wrapping_sub(a10).wrapping_sub(a01).wrapping_add(a00) >> sh
        }
    } else if i0 + 1 < nxt {
        let a10 = get_el(s, ny, nx, i0 + 1, j0);
        if i % 2 == 0 {
            rnd2_exec(a10.wrapping_add(a00).wrapping_shl(1 - sh), l)
        } else {
            rnd1_exec(a10.wrapping_sub(a00).wrapping_shl(1 - sh), l)
        }
    } else if j0 + 1 < nyt {
        let a01 = get_el(s, ny, nx, i0, j0 + 1);
        if j % 2 == 0 {
            rnd2_exec(a01.wrapping_add(a00).wrapping_shl(1 - sh), l)
        } else {
            rnd1_exec(a01.wrapping_sub(a00).wrapping_shl(1 - sh), l)
        }
    } else {
        rnd2_exec(a00.wrapping_shl(2 - sh), l)
    }
}

/// One level of the forward transform (`htrans`'s loop body, with its
/// row and column `shuffle`).
fn fwd_level_exec(a: &Vec<i64>, nx: usize, ny: usize, l: u32, nxt: usize, nyt: usize) -> (r: Vec<i64>)
    requires
        1 <= nxt <= nx,
        1 <= nyt <= ny,
        nxt == top_at(nx as int, l as nat),
        nyt == top_at(ny as int, l as nat),
        nx * ny <= a.len(),
        l <= 29,
    ensures
        r@ == fwd_level(a@, nx as int, ny as int, l as nat),
{
    let ghost target = fwd_level(a@, nx as int, ny as int, l as nat);
    let mut out: Vec<i64> = Vec::new();
    let mut p: usize = 0;
    let mut i: usize = 0;
    let mut j: usize = 0;
    while p < a.len()
        invariant
            p <= a.len(),
            1 <= nxt <= nx,
            1 <= nyt <= ny,
            nxt == top_at(nx as int, l as nat),
            nyt == top_at(ny as int, l as nat),
            nx * ny <= a.len(),
            l <= 29,
            j < ny,
            p == i * ny + j,
            target == fwd_level(a@, nx as int, ny as int, l as nat),
            out@ == target.take(p as int),
        decreases a.len() - p,
    {
        proof {
            lemma_fundamental_div_mod_converse(p as int, ny as int, i as int, j as int);
        }
        let v = if i < nxt && j < nyt {
            let si = shuf_exec(i, nxt);
            let sj = shuf_exec(j, nyt);
            fwd_pre_exec(a, nx, ny, nxt, nyt, l, si, sj)
        } else {
            a[p]
        };
        out.push(v);
        proof {
            assert(out@ =~= target.take(p + 1));
        }
        p = p + 1;
        if j + 1 < ny {
            j = j + 1;
        } else {
            proof {
                assert((i + 1) * ny == i * ny + ny) by (nonlinear_arith);
            }
            j = 0;
            i = i + 1;
        }
    }
    proof {
        assert(out@ =~= target);
    }
    out
}

/// The H-transform of an `nx` by `ny` tile, in place (`htrans`).
fn htrans(a: &mut Vec<i64>, nx: usize, ny: usize)
    requires
        1 <= nx <= 0x4000_0000,
        1 <= ny <= 0x4000_0000,
        nx * ny <= old(a).len(),
    ensures
        final(a)@ == htrans_spec(old(a)@, nx as int, ny as int),
        final(a).len() == old(a).len(),
{
    let nmax = if nx < ny { ny } else { nx };
    let log2n = levels_of(nmax as u32);
    let ghost orig = a@;
    let mut l: u32 = 0;
    while l < log2n
        invariant
            l <= log2n <= 30,
            log2n == ceil_log2(nmax as int),
            nmax == (if nx < ny { ny } else { nx }),
            1 <= nx <= 0x4000_0000,
            1 <= ny <= 0x4000_0000,
            nx * ny <= a.len(),
            a.len() == orig.len(),
            a@ == htrans_levels(orig, nx as int, ny as int, l as nat),
        decreases log2n - l,
    {
        let nxt = top_exec(nx, l);
        let nyt = top_exec(ny, l);
        let next = fwd_level_exec(a, nx, ny, l, nxt, nyt);
        *a = next;
        l = l + 1;
    }
}

/// Entry `(i, j)` of the `nxt` by `nyt` corner once its rows and columns
/// are unshuffled.
pub open spec fn uel(s: Seq<i64>, ny: int, nxt: int, nyt: int, i: int, j: int) -> i64 {
    el(s, ny, unshuf(i, nxt), unshuf(j, nyt))
}

/// `x` rounded with `pos` added when non-negative, `neg` otherwise, then
/// masked with `mask`.
pub open spec fn rup(x: i64, pos: i64, neg: i64, mask: i64) -> i64 {
    wa(x, if x >= 0 { pos } else { neg }) & mask
}

/// Rounding offset for the cross difference at level `k` (non-negative
/// values).
pub open spec fn prnd0(k: nat) -> i64 {
    if k == 0 {
        0
    } else {
        p2((k - 1) as nat)
    }
}

/// Rounding offset for the cross difference at level `k` (negative
/// values).
pub open spec fn nrnd0(k: nat) -> i64 {
    if k == 0 {
        0
    } else {
        (pow2((k - 1) as nat) - 1) as i64
    }
}

/// Pixel `(i, j)` of the `nxt` by `nyt` corner after inverse level `k`:
/// each 2x2 block of unshuffled coefficients `(h0 hy / hx hc)` is rounded
/// back to the multiples the forward level produced, the bits the rounding
/// moved are restored, and the four pixels are recovered from sums and
/// differences.
pub open spec fn inv_pre(s: Seq<i64>, ny: int, nxt: int, nyt: int, k: nat, i: int, j: int) -> i64 {
    let i0 = i - i % 2;
    let j0 = j - j % 2;
    let sh = inv_shift(k);
    let h0 = uel(s, ny, nxt, nyt, i0, j0);
    let p1 = p2(k);
    let n1 = (pow2(k) - 1) as i64;
    let m1 = np2(k + 1);
    let b1 = p2(k + 1);
    if i0 + 1 < nxt && j0 + 1 < nyt {
        let hx = rup(uel(s, ny, nxt, nyt, i0 + 1, j0), p1, n1, m1);
        let hy = rup(uel(s, ny, nxt, nyt, i0, j0 + 1), p1, n1, m1);
        let hc = rup(uel(s, ny, nxt, nyt, i0 + 1, j0 + 1), prnd0(k), nrnd0(k), np2(k));
        let lowbit0 = hc & p2(k);
        let hx2 = if hx >= 0 { ws(hx, lowbit0) } else { wa(hx, lowbit0) };
        let hy2 = if hy >= 0 { ws(hy, lowbit0) } else { wa(hy, lowbit0) };
        let lowbit1 = (hc ^ hx2 ^ hy2) & b1;
        let h = if h0 >= 0 {
            ws(wa(h0, lowbit0), lowbit1)
        } else {
            wa(h0, if lowbit0 == 0 { lowbit1 } else { ws(lowbit0, lowbit1) })
        };
        if i % 2 == 1 && j % 2 == 1 {
            wa(wa(wa(h, hx2), hy2), hc) >> sh
        } else if i % 2 == 1 {
            ws(ws(wa(h, hx2), hy2), hc) >> sh
        } else if j % 2 == 1 {
            ws(wa(ws(h, hx2), hy2), hc) >> sh
        } else {
            wa(ws(ws(h, hx2), hy2), hc) >> sh
        }
    } else if i0 + 1 < nxt {
        let hx = rup(uel(s, ny, nxt, nyt, i0 + 1, j0), p1, n1, m1);
        let lowbit1 = hx & b1;
        let h = if h0 >= 0 { ws(h0, lowbit1) } else { wa(h0, lowbit1) };
        if i % 2 == 1 {
            wa(h, hx) >> sh
        } else {
            ws(h, hx) >> sh
        }
    } else if j0 + 1 < nyt {
        let hy = rup(uel(s, ny, nxt, nyt, i0, j0 + 1), p1, n1, m1);
        let lowbit1 = hy & b1;
        let h = if h0 >= 0 { ws(h0, lowbit1) } else { wa(h0, lowbit1) };
        if j % 2 == 1 {
            wa(h, hy) >> sh
        } else {
            ws(h, hy) >> sh
        }
    } else {
        h0 >> sh
    }
}

/// Inverse level `k` of an `nx` by `ny` tile: the corner's rows and
/// columns are unshuffled, then each block is turned back into pixels.
pub open spec fn inv_level(s: Seq<i64>, nx: int, ny: int, k: nat) -> Seq<i64> {
    let nxt = top_at(nx, k);
    let nyt = top_at(ny, k);
    Seq::new(
        s.len(),
        |p: int|
            if p / ny < nxt && p % ny < nyt {
                inv_pre(s, ny, nxt, nyt, k, p / ny, p % ny)
            } else {
                s[p]
            },
    )
}

/// Inverse levels `m - 1` down to `0`.
pub open spec fn inv_levels(s: Seq<i64>, nx: int, ny: int, m: nat) -> Seq<i64>
    decreases m,
{
    if m == 0 {
        s
    } else {
        inv_levels(inv_level(s, nx, ny, (m - 1) as nat), nx, ny, (m - 1) as nat)
    }
}

/// The overall sum rounded to the multiple of `2^(n+1)` the forward
/// transform left it at.
pub open spec fn round_sum(s: Seq<i64>, n: nat) -> Seq<i64> {
    s.update(0, rup(s[0], p2(n), (pow2(n) - 1) as i64, np2(n + 1)))
}

/// The inverse H-transform of an `nx` by `ny` tile (`hinv`). A tile of one
/// pixel has no levels and is its own transform.
pub open spec fn hinv_spec(s: Seq<i64>, nx: int, ny: int) -> Seq<i64> {
    let n = ceil_log2(if nx < ny { ny } else { nx });
    if n == 0 {
        s
    } else {
        inv_levels(round_sum(s, n), nx, ny, n)
    }
}

fn uel_exec(s: &Vec<i64>, nx: usize, ny: usize, nxt: usize, nyt: usize, i: usize, j: usize) -> (r: i64)
    requires
        i < nxt <= nx,
        j < nyt <= ny,
        nx * ny <= s.len(),
    ensures
        r == uel(s@, ny as int, nxt as int, nyt as int, i as int, j as int),
{
    let ui = unshuf_exec(i, nxt);
    let uj = unshuf_exec(j, nyt);
    get_el(s, ny, nx, ui, uj)
}

fn rup_exec(x: i64, pos: i64, neg: i64, mask: i64) -> (r: i64)
    ensures
        r == rup(x, pos, neg, mask),
{
    x.wrapping_add(if x >= 0 { pos } else { neg }) & mask
}

fn inv_pre_exec(s: &Vec<i64>, nx: usize, ny: usize, nxt: usize, nyt: usize, k: u32, i: usize, j: usize) -> (r: i64)
    requires
        i < nxt <= nx,
        j < nyt <= ny,
        nx * ny <= s.len(),
        k <= 29,
    ensures
        r == inv_pre(s@, ny as int, nxt as int, nyt as int, k as nat, i as int, j as int),
{
    let i0 = i - i % 2;
    let j0 = j - j % 2;
    let sh: u32 = if k == 0 { 2 } else { 1 };
    let h0 = uel_exec(s, nx, ny, nxt, nyt, i0, j0);
    let p1 = p2_exec(k);
    let n1 = p1 - 1;
    let m1 = np2_exec(k + 1);
    let b1 = p2_exec(k + 1);
    if i0 + 1 < nxt && j0 + 1 < nyt {
        let (q0, r0) = if k == 0 {
            (0i64, 0i64)
        } else {
            let q = p2_exec(k - 1);
            (q, q - 1)
        };
        let hx = rup_exec(uel_exec(s, nx, ny, nxt, nyt, i0 + 1, j0), p1, n1, m1);
        let hy = rup_exec(uel_exec(s, nx, ny, nxt, nyt, i0, j0 + 1), p1, n1, m1);
        let hc = rup_exec(uel_exec(s, nx, ny, nxt, nyt, i0 + 1, j0 + 1), q0, r0, np2_exec(k));
        let lowbit0 = hc & p1;
        let hx2 = if hx >= 0 { hx.wrapping_sub(lowbit0) } else { hx.wrapping_add(lowbit0) };
        let hy2 = if hy >= 0 { hy.wrapping_sub(lowbit0) } else { hy.wrapping_add(lowbit0) };
        let lowbit1 = (hc ^ hx2 ^ hy2) & b1;
        let h = if h0 >= 0 {
            h0.wrapping_add(lowbit0).wrapping_sub(lowbit1)
        } else {
            h0.wrapping_add(if lowbit0 == 0 { lowbit1 } else { lowbit0.wrapping_sub(lowbit1) })
        };
        if i % 2 == 1 && j % 2 == 1 {
            h.wrapping_add(hx2).wrapping_add(hy2).wrapping_add(hc) >> sh
        } else if i % 2 == 1 {
            h.wrapping_add(hx2).wrapping_sub(hy2).wrapping_sub(hc) >> sh
        } else if j % 2 == 1 {
            h.wrapping_sub(hx2).wrapping_add(hy2).wrapping_sub(hc) >> sh
        } else {
            h.wrapping_sub(hx2).wrapping_sub(hy2).wrapping_add(hc) >> sh
        }
    } else if i0 + 1 < nxt {
        let hx = rup_exec(uel_exec(s, nx, ny, nxt, nyt, i0 + 1, j0), p1, n1, m1);
        let lowbit1 = hx & b1;
        let h = if h0 >= 0 { h0.wrapping_sub(lowbit1) } else { h0.wrapping_add(lowbit1) };
        if i % 2 == 1 {
            h.wrapping_add(hx) >> sh
        } else {
            h.wrapping_sub(hx) >> sh
        }
    } else if j0 + 1 < nyt {
        let hy = rup_exec(uel_exec(s, nx, ny, nxt, nyt, i0, j0 + 1), p1, n1, m1);
        let lowbit1 = hy & b1;
        let h = if h0 >= 0 { h0.wrapping_sub(lowbit1) } else { h0.wrapping_add(lowbit1) };
        if j % 2 == 1 {
            h.wrapping_add(hy) >> sh
        } else {
            h.wrapping_sub(hy) >> sh
        }
    } else {
        h0 >> sh
    }
}

/// One inverse level (`hinv`'s loop body, with its `unshuffle`s).
fn inv_level_exec(a: &Vec<i64>, nx: usize, ny: usize, k: u32, nxt: usize, nyt: usize) -> (r: Vec<i64>)
    requires
        1 <= nxt <= nx,
        1 <= nyt <= ny,
        nxt == top_at(nx as int, k as nat),
        nyt == top_at(ny as int, k as nat),
        nx * ny <= a.len(),
        k <= 29,
    ensures
        r@ == inv_level(a@, nx as int, ny as int, k as nat),
{
    let ghost target = inv_level(a@, nx as int, ny as int, k as nat);
    let mut out: Vec<i64> = Vec::new();
    let mut p: usize = 0;
    let mut i: usize = 0;
    let mut j: usize = 0;
    while p < a.len()
        invariant
            p <= a.len(),
            1 <= nxt <= nx,
            1 <= nyt <= ny,
            nx * ny <= a.len(),
            k <= 29,
            j < ny,
            p == i * ny + j,
            target == inv_level(a@, nx as int, ny as int, k as nat),
            nxt == top_at(nx as int, k as nat),
            nyt == top_at(ny as int, k as nat),
            out@ == target.take(p as int),
        decreases a.len() - p,
    {
        proof {
            lemma_fundamental_div_mod_converse(p as int, ny as int, i as int, j as int);
        }
        let v = if i < nxt && j < nyt {
            inv_pre_exec(a, nx, ny, nxt, nyt, k, i, j)
        } else {
            a[p]
        };
        out.push(v);
        proof {
            assert(out@ =~= target.take(p + 1));
        }
        p = p + 1;
        if j + 1 < ny {
            j = j + 1;
        } else {
            proof {
                assert((i + 1) * ny == i * ny + ny) by (nonlinear_arith);
            }
            j = 0;
            i = i + 1;
        }
    }
    proof {
        assert(out@ =~= target);
    }
    out
}

/// The inverse H-transform of an `nx` by `ny` tile, in place (`hinv`).
fn hinv(a: &mut Vec<i64>, nx: usize, ny: usize)
    requires
        1 <= nx <= 0x4000_0000,
        1 <= ny <= 0x4000_0000,
        nx * ny <= old(a).len(),
    ensures
        final(a)@ == hinv_spec(old(a)@, nx as int, ny as int),
        final(a).len() == old(a).len(),
{
    let nmax = if nx < ny { ny } else { nx };
    let log2n = levels_of(nmax as u32);
    if log2n == 0 {
        return;
    }
    proof {
        assert(nx * ny >= 1) by (nonlinear_arith)
            requires
                nx >= 1,
                ny >= 1,
        ;
    }
    let p = p2_exec(log2n);
    let a0 = rup_exec(a[0], p, p - 1, np2_exec(log2n + 1));
    a.set(0, a0);
    let ghost start = a@;
    let mut k: u32 = log2n;
    while k > 0
        invariant
            k <= log2n <= 30,
            1 <= nx <= 0x4000_0000,
            1 <= ny <= 0x4000_0000,
            nx * ny <= a.len(),
            a.len() == start.len(),
            inv_levels(a@, nx as int, ny as int, k as nat) == inv_levels(start, nx as int, ny as int, log2n as nat),
        decreases k,
    {
        let nxt = top_exec(nx, k - 1);
        let nyt = top_exec(ny, k - 1);
        let next = inv_level_exec(a, nx, ny, k - 1, nxt, nyt);
        *a = next;
        k = k - 1;
    }
}

/// A coefficient divided by `scale`, rounding to nearest (ties toward
/// zero), as the reference coder computes it in 64 bits.
pub open spec fn dig(x: i64, scale: i64) -> i64 {
    let d = (scale - 1) / 2;
    if x > 0 {
        tdiv(wa(x, d as i64) as int, scale as int) as i64
    } else {
        tdiv(ws(x, d as i64) as int, scale as int) as i64
    }
}

/// The first `n` values divided by `scale` (`digitize`); a scale of 1 or
/// less leaves them as they are.
pub open spec fn digitize_spec(s: Seq<i64>, n: int, scale: i64) -> Seq<i64> {
    if scale <= 1 {
        s
    } else {
        Seq::new(s.len(), |k: int| if k < n { dig(s[k], scale) } else { s[k] })
    }
}

/// The first `n` values multiplied back by `scale` in 64 bits
/// (`undigitize`); a scale of 1 or less leaves them as they are.
pub open spec fn undigitize_spec(s: Seq<i64>, n: int, scale: i64) -> Seq<i64> {
    if scale <= 1 {
        s
    } else {
        Seq::new(s.len(), |k: int| if k < n { i64_specs::wrapping_mul(s[k], scale) } else { s[k] })
    }
}

fn tdiv_exec(v: i64, scale: i64) -> (r: i64)
    requires
        scale > 1,
    ensures
        r == tdiv(v as int, scale as int),
{
    if v >= 0 {
        v / scale
    } else {
        let m: i128 = -(v as i128);
        let q: i128 = m / (scale as i128);
        assert(q <= m);
        (-q) as i64
    }
}

fn digitize(a: &mut Vec<i64>, n: usize, scale: i64)
    requires
        n <= old(a).len(),
    ensures
        final(a)@ == digitize_spec(old(a)@, n as int, scale),
{
    if scale <= 1 {
        return;
    }
    let d: i64 = (scale - 1) / 2;
    let ghost orig = a@;
    let mut k: usize = 0;
    while k < n
        invariant
            scale > 1,
            d == (scale - 1) / 2,
            n <= a.len(),
            k <= n,
            a.len() == orig.len(),
            forall|t: int| 0 <= t < a.len() ==> a@[t] == if t < k { dig(orig[t], scale) } else { orig[t] },
        decreases n - k,
    {
        let x = a[k];
        let v = if x > 0 { tdiv_exec(x.wrapping_add(d), scale) } else { tdiv_exec(x.wrapping_sub(d), scale) };
        a.set(k, v);
        k = k + 1;
    }
    assert(a@ =~= digitize_spec(orig, n as int, scale));
}

fn undigitize(a: &mut Vec<i64>, n: usize, scale: i64)
    requires
        n <= old(a).len(),
    ensures
        final(a)@ == undigitize_spec(old(a)@, n as int, scale),
{
    if scale <= 1 {
        return;
    }
    let ghost orig = a@;
    let mut k: usize = 0;
    while k < n
        invariant
            scale > 1,
            n <= a.len(),
            k <= n,
            a.len() == orig.len(),
            forall|t: int|
                0 <= t < a.len() ==> a@[t] == if t < k { i64_specs::wrapping_mul(orig[t], scale) } else { orig[t] },
        decreases n - k,
    {
        let x = a[k];
        a.set(k, x.wrapping_mul(scale));
        k = k + 1;
    }
    assert(a@ =~= undigitize_spec(orig, n as int, scale));
}

/// The `i64` with only bit `bit` set.
pub open spec fn plane(bit: int) -> i64 {
    if bit == 63 {
        i64::MIN
    } else {
        pow2(bit as nat) as i64
    }
}

/// The pixels of the `nqx` by `nqy` quadrant at `(oi, oj)` whose bit in
/// the plane's block nybbles `g` is set, or-ed with `m` (`qtree_bitins`).
pub open spec fn ins(a: Seq<i64>, ny: int, oi: int, oj: int, nqx: int, nqy: int, g: Seq<u8>, m: i64) -> Seq<i64> {
    Seq::new(
        a.len(),
        |p: int|
            {
                let i = p / ny - oi;
                let j = p % ny - oj;
                if 0 <= i < nqx && 0 <= j < nqy && nbit(g[(i / 2) * top_at(nqy, 1) + j / 2], corner(i, j)) == 1 {
                    a[p] | m
                } else {
                    a[p]
                }
            },
    )
}

/// The `count` bit planes of a quadrant, the highest first
/// (`qtree_decode`).
pub open spec fn quad_dec(
    bs: Seq<bool>,
    p: int,
    a: Seq<i64>,
    ny: int,
    oi: int,
    oj: int,
    nqx: int,
    nqy: int,
    count: int,
) -> Result<(Seq<i64>, int), HcFault>
    decreases count,
{
    if nqx <= 0 || nqy <= 0 || count <= 0 {
        Ok((a, p))
    } else {
        match plane_dec(bs, p, nqx, nqy) {
            Err(f) => Err(f),
            Ok((g, q)) => if count - 1 >= 64 {
                Err(HcFault::TooManyPlanes)
            } else {
                quad_dec(bs, q, ins(a, ny, oi, oj, nqx, nqy, g, plane(count - 1)), ny, oi, oj, nqx, nqy, count - 1)
            },
        }
    }
}

/// The signs of the non-zero values from `k` on, one bit each (1 for
/// negative).
pub open spec fn sign_dec(bs: Seq<bool>, p: int, a: Seq<i64>, k: int, n: int) -> Result<Seq<i64>, HcFault>
    decreases n - k,
{
    if k >= n {
        Ok(a)
    } else if a[k] == 0 {
        sign_dec(bs, p, a, k + 1, n)
    } else {
        match rd(bs, p, 1) {
            None => Err(HcFault::Short),
            Some(b) => sign_dec(bs, p + 1, if b == 1 { a.update(k, ws(0, a[k])) } else { a }, k + 1, n),
        }
    }
}

/// The coefficients of an `nx` by `ny` tile read from bit `p`: its four
/// quadrants with their bit-plane counts `planes`, a zero nybble, then the
/// signs from the next byte (`dodecode`).
pub open spec fn dodecode_spec(bs: Seq<bool>, p: int, a: Seq<i64>, nx: int, ny: int, planes: Seq<u8>) -> Result<Seq<i64>, HcFault> {
    let nx2 = (nx + 1) / 2;
    let ny2 = (ny + 1) / 2;
    match quad_dec(bs, p, a, ny, 0, 0, nx2, ny2, planes[0] as int) {
        Err(f) => Err(f),
        Ok((a1, p1)) => match quad_dec(bs, p1, a1, ny, 0, ny2, nx2, ny / 2, planes[1] as int) {
            Err(f) => Err(f),
            Ok((a2, p2)) => match quad_dec(bs, p2, a2, ny, nx2, 0, nx / 2, ny2, planes[1] as int) {
                Err(f) => Err(f),
                Ok((a3, p3)) => match quad_dec(bs, p3, a3, ny, nx2, ny2, nx / 2, ny / 2, planes[2] as int) {
                    Err(f) => Err(f),
                    Ok((a4, p4)) => match rd(bs, p4, 4) {
                        None => Err(HcFault::Short),
                        Some(v) => if v != 0 {
                            Err(HcFault::BadPlanes)
                        } else {
                            sign_dec(bs, (p4 + 4 + 7) / 8 * 8, a4, 0, nx * ny)
                        },
                    },
                },
            },
        },
    }
}

fn plane_mask(bit: u32) -> (r: i64)
    requires
        bit < 64,
    ensures
        r == plane(bit as int),
{
    if bit == 63 {
        i64::MIN
    } else {
        p2_exec(bit)
    }
}

fn ins_exec(
    a: &Vec<i64>,
    nx: usize,
    ny: usize,
    oi: usize,
    oj: usize,
    nqx: usize,
    nqy: usize,
    g: &Vec<u8>,
    m: i64,
) -> (r: Vec<i64>)
    requires
        nqx >= 1,
        nqy >= 1,
        oi + nqx <= nx,
        oj + nqy <= ny,
        nx * ny <= a.len(),
        g.len() == top_at(nqx as int, 1) * top_at(nqy as int, 1),
    ensures
        r@ == ins(a@, ny as int, oi as int, oj as int, nqx as int, nqy as int, g@, m),
{
    let ghost target = ins(a@, ny as int, oi as int, oj as int, nqx as int, nqy as int, g@, m);
    let gx = top_exec(nqx, 1);
    let gy = top_exec(nqy, 1);
    let mut out: Vec<i64> = Vec::new();
    let mut p: usize = 0;
    let mut i: usize = 0;
    let mut j: usize = 0;
    while p < a.len()
        invariant
            p <= a.len(),
            nqx >= 1,
            nqy >= 1,
            oi + nqx <= nx,
            oj + nqy <= ny,
            nx * ny <= a.len(),
            gx == top_at(nqx as int, 1),
            gy == top_at(nqy as int, 1),
            g.len() == gx * gy,
            j < ny,
            p == i * ny + j,
            target == ins(a@, ny as int, oi as int, oj as int, nqx as int, nqy as int, g@, m),
            out@ == target.take(p as int),
        decreases a.len() - p,
    {
        proof {
            lemma_fundamental_div_mod_converse(p as int, ny as int, i as int, j as int);
        }
        let v = if i >= oi && i - oi < nqx && j >= oj && j - oj < nqy {
            let qi = i - oi;
            let qj = j - oj;
            proof {
                reveal_with_fuel(top_at, 2);
                lemma_block_index((qi / 2) as int, (qj / 2) as int, gy as int, gx as int, gy as int, gx as int);
            }
            let nyb = g[(qi / 2) * gy + qj / 2];
            let k: u8 = (3 - 2 * (qi % 2) - (qj % 2)) as u8;
            if (nyb >> k) & 1 == 1 {
                a[p] | m
            } else {
                a[p]
            }
        } else {
            a[p]
        };
        out.push(v);
        proof {
            assert(out@ =~= target.take(p + 1));
        }
        p = p + 1;
        if j + 1 < ny {
            j = j + 1;
        } else {
            proof {
                assert((i + 1) * ny == i * ny + ny) by (nonlinear_arith);
            }
            j = 0;
            i = i + 1;
        }
    }
    proof {
        assert(out@ =~= target);
    }
    out
}

fn quad_exec(
    inp: &mut BitIn,
    a: &Vec<i64>,
    nx: usize,
    ny: usize,
    oi: usize,
    oj: usize,
    nqx: usize,
    nqy: usize,
    count: u8,
) -> (r: Result<Vec<i64>, HcFault>)
    requires
        old(inp).wf(),
        oi + nqx <= nx,
        oj + nqy <= ny,
        nqx <= 0x4000_0000,
        nqy <= 0x4000_0000,
        nx * ny <= a.len(),
    ensures
        final(inp).wf(),
        final(inp).data == old(inp).data,
        match quad_dec(
            old(inp).bs(),
            old(inp).at(),
            a@,
            ny as int,
            oi as int,
            oj as int,
            nqx as int,
            nqy as int,
            count as int,
        ) {
            Ok((a2, q)) => r matches Ok(v) && v@ == a2 && final(inp).at() == q && v.len() == a.len(),
            Err(f) => r == Err::<Vec<i64>, HcFault>(f),
        },
{
    let ghost bs = inp.bs();
    let ghost whole = quad_dec(
        inp.bs(),
        inp.at(),
        a@,
        ny as int,
        oi as int,
        oj as int,
        nqx as int,
        nqy as int,
        count as int,
    );
    let mut cur: Vec<i64> = a.clone();
    assert(cur@ =~= a@);
    if nqx == 0 || nqy == 0 {
        return Ok(cur);
    }
    proof {
        assert(nqx * nqy <= nx * ny) by (nonlinear_arith)
            requires
                1 <= nqx <= nx,
                1 <= nqy <= ny,
        ;
    }
    let mut c: u32 = count as u32;
    while c > 0
        invariant
            inp.wf(),
            inp.data == old(inp).data,
            bs == inp.bs(),
            oi + nqx <= nx,
            oj + nqy <= ny,
            1 <= nqx <= 0x4000_0000,
            1 <= nqy <= 0x4000_0000,
            nqx * nqy <= nx * ny,
            nx * ny <= cur.len(),
            cur.len() == a.len(),
            whole == quad_dec(bs, inp.at(), cur@, ny as int, oi as int, oj as int, nqx as int, nqy as int, c as int),
            whole == quad_dec(
                old(inp).bs(),
                old(inp).at(),
                a@,
                ny as int,
                oi as int,
                oj as int,
                nqx as int,
                nqy as int,
                count as int,
            ),
        decreases c,
    {
        let g = match plane_exec(inp, nqx, nqy) {
            Ok(g) => g,
            Err(f) => {
                return Err(f);
            },
        };
        if c - 1 >= 64 {
            return Err(HcFault::TooManyPlanes);
        }
        let m = plane_mask(c - 1);
        cur = ins_exec(&cur, nx, ny, oi, oj, nqx, nqy, &g, m);
        c = c - 1;
    }
    Ok(cur)
}

fn sign_exec(inp: &mut BitIn, a: &mut Vec<i64>, n: usize) -> (r: Result<(), HcFault>)
    requires
        old(inp).wf(),
        n <= old(a).len(),
    ensures
        final(inp).wf(),
        final(inp).data == old(inp).data,
        final(a).len() == old(a).len(),
        match sign_dec(old(inp).bs(), old(inp).at(), old(a)@, 0, n as int) {
            Ok(a2) => r is Ok && final(a)@ == a2,
            Err(f) => r == Err::<(), HcFault>(f),
        },
{
    let ghost bs = inp.bs();
    let ghost whole = sign_dec(inp.bs(), inp.at(), a@, 0, n as int);
    let mut k: usize = 0;
    while k < n
        invariant
            inp.wf(),
            inp.data == old(inp).data,
            bs == inp.bs(),
            k <= n <= a.len(),
            a.len() == old(a).len(),
            whole == sign_dec(bs, inp.at(), a@, k as int, n as int),
            whole == sign_dec(old(inp).bs(), old(inp).at(), old(a)@, 0, n as int),
        decreases n - k,
    {
        if a[k] != 0 {
            match inp.read_bit() {
                None => {
                    return Err(HcFault::Short);
                },
                Some(b) => {
                    if b == 1 {
                        let v = a[k];
                        a.set(k, 0i64.wrapping_sub(v));
                    }
                },
            }
        }
        k = k + 1;
    }
    Ok(())
}

#[verifier::rlimit(40)]
fn dodecode_exec(inp: &mut BitIn, a: &Vec<i64>, nx: usize, ny: usize, planes: &[u8]) -> (r: Result<Vec<i64>, HcFault>)
    requires
        old(inp).wf(),
        1 <= nx <= 0x4000_0000,
        1 <= ny <= 0x4000_0000,
        nx * ny <= a.len(),
        planes@.len() == 3,
    ensures
        final(inp).data == old(inp).data,
        r matches Ok(v) ==> v.len() == a.len(),
        match dodecode_spec(old(inp).bs(), old(inp).at(), a@, nx as int, ny as int, planes@) {
            Ok(a2) => r matches Ok(v) && v@ == a2,
            Err(f) => r == Err::<Vec<i64>, HcFault>(f),
        },
{
    let nx2 = nx / 2 + nx % 2;
    let ny2 = ny / 2 + ny % 2;
    let a1 = match quad_exec(inp, a, nx, ny, 0, 0, nx2, ny2, planes[0]) {
        Ok(v) => v,
        Err(f) => {
            return Err(f);
        },
    };
    let a2 = match quad_exec(inp, &a1, nx, ny, 0, ny2, nx2, ny / 2, planes[1]) {
        Ok(v) => v,
        Err(f) => {
            return Err(f);
        },
    };
    let a3 = match quad_exec(inp, &a2, nx, ny, nx2, 0, nx / 2, ny2, planes[1]) {
        Ok(v) => v,
        Err(f) => {
            return Err(f);
        },
    };
    let mut a4 = match quad_exec(inp, &a3, nx, ny, nx2, ny2, nx / 2, ny / 2, planes[2]) {
        Ok(v) => v,
        Err(f) => {
            return Err(f);
        },
    };
    let z = match inp.read_bits(4) {
        None => {
            return Err(HcFault::Short);
        },
        Some(z) => z,
    };
    if z != 0 {
        return Err(HcFault::BadPlanes);
    }
    inp.align();
    match sign_exec(inp, &mut a4, nx * ny) {
        Ok(()) => Ok(a4),
        Err(f) => Err(f),
    }
}

/// The coefficients of a coded stream `c` for a buffer of `na` pixels,
/// with the tile's `nx`, `ny` and scale (`decode`): two magic bytes
/// `DD 99`, `nx`, `ny` and the scale as big-endian 32-bit integers, the
/// overall sum as a 64-bit one,
/// three bit-plane counts, then the coded quadrants from byte 25.
pub open spec fn hc_decode(c: Seq<u8>, na: int) -> Result<(Seq<i64>, int, int, int), HcFault> {
    match hc_header(c, na) {
        Err(f) => Err(f),
        Ok((nx, ny, scale)) => match dodecode_spec(
            byte_bits(c),
            200,
            Seq::new(na as nat, |k: int| 0i64),
            nx,
            ny,
            c.subrange(22, 25),
        ) {
            Err(f) => Err(f),
            Ok(a) => Ok((a.update(0, be_signed(c.subrange(14, 22)) as i64), nx, ny, scale)),
        },
    }
}

/// The pixels of a coded stream, with `ny`, `nx` and the scale
/// (`decompress`): the coefficients multiplied back by the scale, then the
/// inverse transform.
pub open spec fn hc_decompress(c: Seq<u8>, na: int) -> Result<(Seq<i32>, int, int, int), HcFault> {
    match hc_decode(c, na) {
        Err(f) => Err(f),
        Ok((a, nx, ny, scale)) => Ok(
            (
                Seq::new(
                    (nx * ny) as nat,
                    |k: int| hinv_spec(undigitize_spec(a, nx * ny, scale as i64), nx, ny)[k] as i32,
                ),
                ny,
                nx,
                scale,
            ),
        ),
    }
}

fn decode(input: &[u8], na: usize) -> (r: Result<(Vec<i64>, i32, i32, i32), HcFault>)
    ensures
        match hc_decode(input@, na as int) {
            Ok((a, nx, ny, sc)) => r matches Ok((v, x, y, s)) && v@ == a && x == nx && y == ny && s == sc,
            Err(f) => r == Err::<(Vec<i64>, i32, i32, i32), HcFault>(f),
        },
        r matches Ok((v, x, y, s)) ==> 1 <= x <= 0x4000_0000 && 1 <= y <= 0x4000_0000 && x * y <= v.len(),
{
    let (nx, ny, scale) = match decode_header(input, na) {
        Ok(h) => h,
        Err(f) => {
            return Err(f);
        },
    };
    let nxu = nx as usize;
    let nyu = ny as usize;
    let mut a: Vec<i64> = Vec::new();
    let mut k: usize = 0;
    while k < na
        invariant
            k <= na,
            a@ == Seq::new(k as nat, |t: int| 0i64),
        decreases na - k,
    {
        a.push(0);
        k = k + 1;
        assert(a@ =~= Seq::new(k as nat, |t: int| 0i64));
    }
    let inp_ghost = Ghost(byte_bits(input@));
    let mut inp = BitIn { data: input, byte: 25, bit: 0 };
    let planes = slice_subrange(input, 22, 25);
    let mut out = match dodecode_exec(&mut inp, &a, nxu, nyu, planes) {
        Ok(v) => v,
        Err(f) => {
            return Err(f);
        },
    };
    proof {
        assert(nxu * nyu >= 1) by (nonlinear_arith)
            requires
                nxu >= 1,
                nyu >= 1,
        ;
    }
    let sum = read_i64(input, 14);
    out.set(0, sum);
    Ok((out, nx, ny, scale))
}

/// Decompress a 64-bit Hcompress stream and pack back to `i32`: the
/// pixels of the tile, each cut to its low 32 bits, with `ny`, `nx` and the
/// scale.
pub fn decompress64(input: &[u8], na: usize, smooth: bool) -> (r: Result<(Vec<i32>, i32, i32, i32), FitsError>)
    ensures
        match hc_decompress(input@, na as int) {
            Ok((a, ny, nx, sc)) => r matches Ok((v, y, x, s)) && v@ == a && y == ny && x == nx && s == sc,
            Err(f) => r matches Err(e) && e.status == DATA_DECOMPRESSION_ERR && e.message_list() == hc_messages(f),
        },
{
    let (mut a, nx, ny, scale) = match decode(input, na) {
        Ok(t) => t,
        Err(f) => {
            return Err(hc_error(f));
        },
    };
    let nxu = nx as usize;
    let nyu = ny as usize;
    let n = nxu * nyu;
    undigitize(&mut a, n, scale as i64);
    hinv(&mut a, nxu, nyu);
    let mut out: Vec<i32> = Vec::new();
    let mut k: usize = 0;
    while k < n
        invariant
            k <= n <= a.len(),
            out@ == Seq::new(k as nat, |t: int| a@[t] as i32),
        decreases n - k,
    {
        out.push(a[k] as i32);
        k = k + 1;
        assert(out@ =~= Seq::new(k as nat, |t: int| a@[t] as i32));
    }
    Ok((out, ny, nx, scale))
}

/// Bit `bit` of `v`.
pub open spec fn cbit(v: i64, bit: u32) -> int {
    ((v >> bit) & 1) as int
}

/// Entry `(x, y)` of the quadrant at `(oi, oj)`.
pub open spec fn qel(m: Seq<i64>, ny: int, oi: int, oj: int, x: int, y: int) -> i64 {
    el(m, ny, oi + x, oj + y)
}

/// The nybble of block `(bi, bj)` of a quadrant in bit plane `bit`: the
/// block's top left bit as 8, top right 4, bottom left 2, bottom right 1,
/// missing pixels counting as 0 (`qtree_onebit`).
pub open spec fn onebit_at(m: Seq<i64>, ny: int, oi: int, oj: int, nqx: int, nqy: int, bit: u32, bi: int, bj: int) -> int {
    let i = 2 * bi;
    let j = 2 * bj;
    8 * cbit(qel(m, ny, oi, oj, i, j), bit) + (if j + 1 < nqy {
        4 * cbit(qel(m, ny, oi, oj, i, j + 1), bit)
    } else {
        0
    }) + (if i + 1 < nqx {
        2 * cbit(qel(m, ny, oi, oj, i + 1, j), bit)
    } else {
        0
    }) + (if i + 1 < nqx && j + 1 < nqy {
        cbit(qel(m, ny, oi, oj, i + 1, j + 1), bit)
    } else {
        0
    })
}

/// Level `l` of the quadtree of bit plane `bit` of a quadrant: level 0
/// holds the blocks' nybbles, each further level reduces the one below.
pub open spec fn qlevel(m: Seq<i64>, ny: int, oi: int, oj: int, nqx: int, nqy: int, bit: u32, l: nat) -> Seq<u8>
    decreases l,
{
    if l == 0 {
        let gy = top_at(nqy, 1);
        Seq::new(
            (top_at(nqx, 1) * gy) as nat,
            |t: int| onebit_at(m, ny, oi, oj, nqx, nqy, bit, t / gy, t % gy) as u8,
        )
    } else {
        reduce(qlevel(m, ny, oi, oj, nqx, nqy, bit, (l - 1) as nat), top_at(nqx, l), top_at(nqy, l))
    }
}

/// The entries Huffman-coded for the first `l` levels: each level's
/// non-zero entries, level 0 first.
pub open spec fn qcodes(m: Seq<i64>, ny: int, oi: int, oj: int, nqx: int, nqy: int, bit: u32, l: nat) -> Seq<u8>
    decreases l,
{
    if l == 0 {
        Seq::empty()
    } else {
        qcodes(m, ny, oi, oj, nqx, nqy, bit, (l - 1) as nat) + nonzeros(
            qlevel(m, ny, oi, oj, nqx, nqy, bit, (l - 1) as nat),
        )
    }
}

/// Bit plane `bit` of a quadrant as coded (`qtree_encode`'s loop body):
/// code 15 and its quadtree, unless the quadtree's codes would fill half a
/// byte per block, in which case code 0 and the blocks' nybbles written
/// out.
pub open spec fn plane_bits(m: Seq<i64>, ny: int, oi: int, oj: int, nqx: int, nqy: int, bit: u32) -> Seq<bool> {
    let codes = qcodes(m, ny, oi, oj, nqx, nqy, bit, nlevels(nqx, nqy));
    let bmax = (top_at(nqx, 1) * top_at(nqy, 1) + 1) / 2;
    if code_len(codes) >= 8 * bmax {
        bits_of(0, 4) + nyb_bits(qlevel(m, ny, oi, oj, nqx, nqy, bit, 0))
    } else {
        bits_of(15, 4) + if codes.len() == 0 {
            bits_of(hcode(0), 6)
        } else {
            rev_code_bits(codes)
        }
    }
}

/// The `count` bit planes of a quadrant as coded, the highest first
/// (`qtree_encode`).
pub open spec fn quad_bits(m: Seq<i64>, ny: int, oi: int, oj: int, nqx: int, nqy: int, count: int) -> Seq<bool>
    decreases count,
{
    if nqx <= 0 || nqy <= 0 || count <= 0 {
        Seq::empty()
    } else {
        plane_bits(m, ny, oi, oj, nqx, nqy, (count - 1) as u32) + quad_bits(m, ny, oi, oj, nqx, nqy, count - 1)
    }
}

fn cbit_exec(v: i64, bit: u32) -> (r: u8)
    requires
        bit < 64,
    ensures
        r as int == cbit(v, bit),
        r <= 1,
{
    let b = (v >> bit) & 1;
    assert(b == 0 || b == 1) by (bit_vector)
        requires
            b == (v >> bit) & 1,
    ;
    b as u8
}

fn qel_exec(m: &Vec<i64>, nx: usize, ny: usize, oi: usize, oj: usize, x: usize, y: usize) -> (r: i64)
    requires
        oi + x < nx,
        oj + y < ny,
        nx * ny <= m.len(),
    ensures
        r == qel(m@, ny as int, oi as int, oj as int, x as int, y as int),
{
    get_el(m, ny, nx, oi + x, oj + y)
}

fn level0_exec(m: &Vec<i64>, nx: usize, ny: usize, oi: usize, oj: usize, nqx: usize, nqy: usize, bit: u32) -> (r: Vec<u8>)
    requires
        1 <= nqx,
        1 <= nqy,
        oi + nqx <= nx,
        oj + nqy <= ny,
        nx * ny <= m.len(),
        bit < 64,
    ensures
        r@ == qlevel(m@, ny as int, oi as int, oj as int, nqx as int, nqy as int, bit, 0),
        r.len() == top_at(nqx as int, 1) * top_at(nqy as int, 1),
        forall|k: int| 0 <= k < r.len() ==> #[trigger] r@[k] < 16,
{
    let ghost target = qlevel(m@, ny as int, oi as int, oj as int, nqx as int, nqy as int, bit, 0);
    let gx = top_exec(nqx, 1);
    let gy = top_exec(nqy, 1);
    proof {
        reveal_with_fuel(top_at, 2);
        assert(gx * gy <= nqx * nqy) by (nonlinear_arith)
            requires
                1 <= gx <= nqx,
                1 <= gy <= nqy,
        ;
        assert(nqx * nqy <= nx * ny) by (nonlinear_arith)
            requires
                1 <= nqx <= nx,
                1 <= nqy <= ny,
        ;
    }
    let total = gx * gy;
    let mut out: Vec<u8> = Vec::new();
    let mut t: usize = 0;
    let mut bi: usize = 0;
    let mut bj: usize = 0;
    while t < total
        invariant
            total == gx * gy,
            gx == top_at(nqx as int, 1),
            gy == top_at(nqy as int, 1),
            gx == (nqx + 1) / 2,
            gy == (nqy + 1) / 2,
            1 <= nqx,
            1 <= nqy,
            oi + nqx <= nx,
            oj + nqy <= ny,
            nx * ny <= m.len(),
            bit < 64,
            t <= total,
            bj < gy,
            t == bi * gy + bj,
            target == qlevel(m@, ny as int, oi as int, oj as int, nqx as int, nqy as int, bit, 0),
            out@ == target.take(t as int),
            forall|k: int| 0 <= k < out.len() ==> #[trigger] out@[k] < 16,
        decreases total - t,
    {
        proof {
            lemma_fundamental_div_mod_converse(t as int, gy as int, bi as int, bj as int);
            lemma_row_bound(bi as int, bj as int, gy as int, gx as int);
        }
        let i = 2 * bi;
        let j = 2 * bj;
        let mut v: u8 = 8 * cbit_exec(qel_exec(m, nx, ny, oi, oj, i, j), bit);
        if j + 1 < nqy {
            v = v + 4 * cbit_exec(qel_exec(m, nx, ny, oi, oj, i, j + 1), bit);
        }
        if i + 1 < nqx {
            v = v + 2 * cbit_exec(qel_exec(m, nx, ny, oi, oj, i + 1, j), bit);
        }
        if i + 1 < nqx && j + 1 < nqy {
            v = v + cbit_exec(qel_exec(m, nx, ny, oi, oj, i + 1, j + 1), bit);
        }
        out.push(v);
        proof {
            assert(out@ =~= target.take(t + 1));
        }
        t = t + 1;
        if bj + 1 < gy {
            bj = bj + 1;
        } else {
            proof {
                assert((bi + 1) * gy == bi * gy + gy) by (nonlinear_arith);
            }
            bj = 0;
            bi = bi + 1;
        }
    }
    proof {
        assert(out@ =~= target);
    }
    out
}

proof fn lemma_qcodes_grow(m: Seq<i64>, ny: int, oi: int, oj: int, nqx: int, nqy: int, bit: u32, l: nat, l2: nat)
    requires
        l <= l2,
    ensures
        code_len(qcodes(m, ny, oi, oj, nqx, nqy, bit, l)) <= code_len(qcodes(m, ny, oi, oj, nqx, nqy, bit, l2)),
    decreases l2,
{
    if l < l2 {
        lemma_qcodes_grow(m, ny, oi, oj, nqx, nqy, bit, l, (l2 - 1) as nat);
        let prev = qcodes(m, ny, oi, oj, nqx, nqy, bit, (l2 - 1) as nat);
        let lev = nonzeros(qlevel(m, ny, oi, oj, nqx, nqy, bit, (l2 - 1) as nat));
        lemma_code_len_concat(prev, lev);
        lemma_code_len_nonneg(lev);
    }
}

/// Bit plane `bit` of a quadrant, coded (`qtree_encode`'s loop body).
#[verifier::rlimit(50)]
fn plane_enc(
    w: &mut BitWriter,
    m: &Vec<i64>,
    nx: usize,
    ny: usize,
    oi: usize,
    oj: usize,
    nqx: usize,
    nqy: usize,
    bit: u32,
)
    requires
        old(w).wf(),
        1 <= nqx <= 0x4000_0000,
        1 <= nqy <= 0x4000_0000,
        oi + nqx <= nx,
        oj + nqy <= ny,
        nx * ny <= m.len(),
        8 * (nx * ny) + 64 <= usize::MAX,
        bit < 64,
    ensures
        final(w).wf(),
        final(w).bits@ == old(w).bits@ + plane_bits(m@, ny as int, oi as int, oj as int, nqx as int, nqy as int, bit),
{
    let ghost mm = m@;
    let nmax = if nqx < nqy { nqy } else { nqx };
    let log2n = levels_of(nmax as u32);
    let nlev: u32 = if log2n == 0 { 1 } else { log2n };
    let l0 = level0_exec(m, nx, ny, oi, oj, nqx, nqy, bit);
    let mut cur = l0.clone();
    assert(cur@ =~= l0@);
    let gx0 = top_exec(nqx, 1);
    let gy0 = top_exec(nqy, 1);
    let mut gx = gx0;
    let mut gy = gy0;
    proof {
        assert(gx * gy <= nqx * nqy) by (nonlinear_arith)
            requires
                1 <= gx <= nqx,
                1 <= gy <= nqy,
        ;
        assert(nqx * nqy <= nx * ny) by (nonlinear_arith)
            requires
                1 <= nqx <= nx,
                1 <= nqy <= ny,
        ;
    }
    let bmax: u128 = ((gx0 * gy0 + 1) / 2) as u128;
    let mut codes: Vec<u8> = Vec::new();
    let mut total: u128 = 0;
    let mut l: u32 = 0;
    while l < nlev && total < 8 * bmax
        invariant
            l <= nlev,
            nlev == nlevels(nqx as int, nqy as int),
            nlev <= 30,
            1 <= nqx <= 0x4000_0000,
            1 <= nqy <= 0x4000_0000,
            gx0 == top_at(nqx as int, 1),
            gy0 == top_at(nqy as int, 1),
            gx0 * gy0 <= nqx * nqy,
            nqx * nqy <= nx * ny,
            8 * (nx * ny) + 64 <= usize::MAX,
            bmax == (gx0 * gy0 + 1) / 2,
            l < nlev ==> cur@ == qlevel(mm, ny as int, oi as int, oj as int, nqx as int, nqy as int, bit, l as nat),
            l < nlev ==> gx == top_at(nqx as int, (l + 1) as nat),
            l < nlev ==> gy == top_at(nqy as int, (l + 1) as nat),
            1 <= gx <= gx0,
            1 <= gy <= gy0,
            cur.len() == gx * gy,
            forall|k: int| 0 <= k < cur.len() ==> #[trigger] cur@[k] < 16,
            codes@ == qcodes(mm, ny as int, oi as int, oj as int, nqx as int, nqy as int, bit, l as nat),
            total as int == code_len(codes@),
            codes.len() <= total,
            forall|k: int| 0 <= k < codes.len() ==> #[trigger] codes@[k] < 16,
        decreases nlev - l,
    {
        proof {
            assert(gx * gy <= gx0 * gy0) by (nonlinear_arith)
                requires
                    1 <= gx <= gx0,
                    1 <= gy <= gy0,
            ;
        }
        push_nonzeros(&mut codes, &mut total, &cur);
        proof {
            lemma_code_len_concat(qcodes(mm, ny as int, oi as int, oj as int, nqx as int, nqy as int, bit, l as nat), nonzeros(cur@));
            lemma_code_len_bound(codes@);
            lemma_nonzeros_len(cur@);
            lemma_code_len_min(codes@);
        }
        if l + 1 < nlev {
            let next = reduce_exec(&cur, gx, gy);
            proof {
                reveal_with_fuel(top_at, 2);
                assert(top_at(nqx as int, (l + 2) as nat) == (top_at(nqx as int, (l + 1) as nat) + 1) / 2);
                assert(top_at(nqy as int, (l + 2) as nat) == (top_at(nqy as int, (l + 1) as nat) + 1) / 2);
            }
            cur = next;
            gx = gx / 2 + gx % 2;
            gy = gy / 2 + gy % 2;
        }
        l = l + 1;
    }
    proof {
        lemma_qcodes_grow(mm, ny as int, oi as int, oj as int, nqx as int, nqy as int, bit, l as nat, nlev as nat);
    }
    if total >= 8 * bmax {
        w.put_bits(0, 4);
        let ghost start = w.bits@;
        let mut k: usize = 0;
        proof {
            assert(l0@.take(0) =~= Seq::<u8>::empty());
            assert(start + nyb_bits(Seq::<u8>::empty()) =~= start);
        }
        while k < l0.len()
            invariant
                w.wf(),
                k <= l0.len(),
                w.bits@ == start + nyb_bits(l0@.take(k as int)),
            decreases l0.len() - k,
        {
            let v = l0[k];
            w.put_bits(v as u32, 4);
            proof {
                assert(l0@.take(k + 1).drop_last() =~= l0@.take(k as int));
            }
            assert(w.bits@ =~= start + nyb_bits(l0@.take(k + 1)));
            k = k + 1;
        }
        assert(l0@.take(l0.len() as int) =~= l0@);
        assert(w.bits@ =~= old(w).bits@ + plane_bits(mm, ny as int, oi as int, oj as int, nqx as int, nqy as int, bit));
    } else {
        w.put_bits(15, 4);
        let ghost start = w.bits@;
        if codes.len() == 0 {
            w.put_bits(0x3e, 6);
            assert(w.bits@ =~= old(w).bits@ + plane_bits(mm, ny as int, oi as int, oj as int, nqx as int, nqy as int, bit));
        } else {
            let mut k: usize = codes.len();
            proof {
                assert(codes@.take(codes.len() as int) =~= codes@);
            }
            while k > 0
                invariant
                    w.wf(),
                    k <= codes.len(),
                    w.bits@ + rev_code_bits(codes@.take(k as int)) == start + rev_code_bits(codes@),
                    forall|t: int| 0 <= t < codes.len() ==> #[trigger] codes@[t] < 16,
                decreases k,
            {
                let ghost before = w.bits@;
                let (c, n) = huff_code(codes[k - 1]);
                w.put_bits(c, n);
                proof {
                    let tk = codes@.take(k as int);
                    assert(tk.drop_last() =~= codes@.take(k - 1));
                    assert(tk.last() == codes@[k - 1]);
                    assert(rev_code_bits(tk) == bits_of(c as int, n as int) + rev_code_bits(codes@.take(k - 1)));
                    assert(w.bits@ + rev_code_bits(codes@.take(k - 1)) =~= before + rev_code_bits(tk));
                }
                k = k - 1;
            }
            assert(codes@.take(0) =~= Seq::<u8>::empty());
            assert(w.bits@ =~= old(w).bits@ + plane_bits(mm, ny as int, oi as int, oj as int, nqx as int, nqy as int, bit));
        }
    }
}

/// The `count` bit planes of a quadrant, coded (`qtree_encode`).
fn quad_enc(
    w: &mut BitWriter,
    m: &Vec<i64>,
    nx: usize,
    ny: usize,
    oi: usize,
    oj: usize,
    nqx: usize,
    nqy: usize,
    count: u32,
)
    requires
        old(w).wf(),
        nqx <= 0x4000_0000,
        nqy <= 0x4000_0000,
        oi + nqx <= nx,
        oj + nqy <= ny,
        nx * ny <= m.len(),
        8 * (nx * ny) + 64 <= usize::MAX,
        count <= 64,
    ensures
        final(w).wf(),
        final(w).bits@ == old(w).bits@ + quad_bits(m@, ny as int, oi as int, oj as int, nqx as int, nqy as int, count as int),
{
    let ghost start = w.bits@;
    let ghost mm = m@;
    if nqx == 0 || nqy == 0 {
        assert(w.bits@ =~= start + quad_bits(mm, ny as int, oi as int, oj as int, nqx as int, nqy as int, count as int));
        return;
    }
    let mut c: u32 = count;
    assert(w.bits@ + quad_bits(mm, ny as int, oi as int, oj as int, nqx as int, nqy as int, c as int) =~= start
        + quad_bits(mm, ny as int, oi as int, oj as int, nqx as int, nqy as int, count as int));
    while c > 0
        invariant
            w.wf(),
            c <= count <= 64,
            1 <= nqx <= 0x4000_0000,
            1 <= nqy <= 0x4000_0000,
            oi + nqx <= nx,
            oj + nqy <= ny,
            nx * ny <= m.len(),
            8 * (nx * ny) + 64 <= usize::MAX,
            mm == m@,
            w.bits@ + quad_bits(mm, ny as int, oi as int, oj as int, nqx as int, nqy as int, c as int) == start
                + quad_bits(mm, ny as int, oi as int, oj as int, nqx as int, nqy as int, count as int),
        decreases c,
    {
        let ghost before = w.bits@;
        plane_enc(w, m, nx, ny, oi, oj, nqx, nqy, c - 1);
        assert(w.bits@ + quad_bits(mm, ny as int, oi as int, oj as int, nqx as int, nqy as int, (c - 1) as int)
            =~= before + quad_bits(mm, ny as int, oi as int, oj as int, nqx as int, nqy as int, c as int));
        c = c - 1;
    }
    assert(w.bits@ =~= start + quad_bits(mm, ny as int, oi as int, oj as int, nqx as int, nqy as int, count as int));
}

/// The sign bits of the first `n` values: none for a zero, 0 for a
/// positive value, 1 for a negative one (`sign_bits`).
pub open spec fn sign_seq(z: Seq<i64>, n: int) -> Seq<bool>
    decreases n,
{
    if n <= 0 {
        Seq::empty()
    } else {
        sign_seq(z, n - 1) + if z[n - 1] > 0 {
            seq![false]
        } else if z[n - 1] < 0 {
            seq![true]
        } else {
            Seq::empty()
        }
    }
}

/// The first `n` values made non-negative (negation in 64 bits).
pub open spec fn magnitudes(z: Seq<i64>, n: int) -> Seq<i64> {
    Seq::new(z.len(), |k: int| if k < n && z[k] < 0 { ws(0, z[k]) } else { z[k] })
}

/// The largest of the first `n` values in quadrant `q`, or 0.
pub open spec fn qmax(m: Seq<i64>, nx: int, ny: int, q: int, n: int) -> int
    decreases n,
{
    if n <= 0 {
        0
    } else {
        let prev = qmax(m, nx, ny, q, n - 1);
        if quad_of(n - 1, nx, ny) == q && prev < m[n - 1] {
            m[n - 1] as int
        } else {
            prev
        }
    }
}

/// Number of bit planes of each quadrant (`nbitplanes`).
pub open spec fn planes_of(m: Seq<i64>, nx: int, ny: int) -> Seq<u8> {
    seq![
        bit_length(qmax(m, nx, ny, 0, nx * ny)) as u8,
        bit_length(qmax(m, nx, ny, 1, nx * ny)) as u8,
        bit_length(qmax(m, nx, ny, 2, nx * ny)) as u8,
    ]
}

/// The coded quadrants of an `nx` by `ny` tile of magnitudes, then a zero
/// nybble (`doencode`).
pub open spec fn enc_bits(m: Seq<i64>, nx: int, ny: int, planes: Seq<u8>) -> Seq<bool> {
    let nx2 = (nx + 1) / 2;
    let ny2 = (ny + 1) / 2;
    quad_bits(m, ny, 0, 0, nx2, ny2, planes[0] as int) + quad_bits(m, ny, 0, ny2, nx2, ny / 2, planes[1] as int)
        + quad_bits(m, ny, nx2, 0, nx / 2, ny2, planes[1] as int) + quad_bits(
        m,
        ny,
        nx2,
        ny2,
        nx / 2,
        ny / 2,
        planes[2] as int,
    ) + bits_of(0, 4)
}

/// The coefficients the stream codes: the transform divided by the scale.
pub open spec fn hc_coeffs(s: Seq<i64>, nx: int, ny: int, scale: i64) -> Seq<i64> {
    digitize_spec(htrans_spec(s, nx, ny), nx * ny, scale)
}

/// What the tile buffer holds after coding: the coefficients' magnitudes,
/// the overall sum cleared.
pub open spec fn hc_magnitudes(s: Seq<i64>, nx: int, ny: int, scale: i64) -> Seq<i64> {
    magnitudes(hc_coeffs(s, nx, ny, scale).update(0, 0), nx * ny)
}

/// The coded stream of the coefficients `c` of an `nx` by `ny` tile:
/// header, coded quadrants (cut off at the output room), then the sign
/// bits (`encode`).
pub open spec fn hc_encode(c: Seq<i64>, nx: int, ny: int, scale: i64) -> Result<Seq<u8>, ()> {
    let z = c.update(0, 0);
    let m = magnitudes(z, nx * ny);
    let planes = planes_of(m, nx, ny);
    assemble(
        header_bytes(nx, ny, scale as int, c[0] as int, planes),
        pack_bits(enc_bits(m, nx, ny, planes)),
        pack_bits(sign_seq(z, nx * ny)),
        out_room(nx * ny),
    )
}

/// The coded stream of an `nx` by `ny` tile (`compress`).
pub open spec fn hc_compress(s: Seq<i64>, nx: int, ny: int, scale: i64) -> Result<Seq<u8>, ()> {
    hc_encode(hc_coeffs(s, nx, ny, scale), nx, ny, scale)
}

fn header_exec(nx: i32, ny: i32, scale: i64, sum: i64, planes: &Vec<u8>) -> (r: Vec<u8>)
    requires
        planes.len() == 3,
    ensures
        r@ == header_bytes(nx as int, ny as int, scale as int, sum as int, planes@),
        r.len() == 25,
{
    let mut out: Vec<u8> = Vec::new();
    out.push(0xDD);
    out.push(0x99);
    push_be_signed(&mut out, nx as i64, 4);
    push_be_signed(&mut out, ny as i64, 4);
    push_be_signed(&mut out, scale as i64, 4);
    push_be_signed(&mut out, sum as i64, 8);
    out.push(planes[0]);
    out.push(planes[1]);
    out.push(planes[2]);
    proof {
        assert(planes@ =~= seq![planes@[0], planes@[1], planes@[2]]);
        assert(out@ =~= header_bytes(nx as int, ny as int, scale as int, sum as int, planes@));
        lemma_be_bytes_len(nx as int, 4);
        lemma_be_bytes_len(ny as int, 4);
        lemma_be_bytes_len(scale as int, 4);
        lemma_be_bytes_len(sum as int, 8);
    }
    out
}

fn body_exec(m: &Vec<i64>, nx: usize, ny: usize, planes: &Vec<u8>) -> (r: Vec<u8>)
    requires
        1 <= nx <= 0x4000_0000,
        1 <= ny <= 0x4000_0000,
        nx * ny <= m.len(),
        8 * (nx * ny) + 64 <= usize::MAX,
        planes.len() == 3,
        forall|k: int| 0 <= k < 3 ==> planes@[k] <= 63,
    ensures
        r@ == pack_bits(enc_bits(m@, nx as int, ny as int, planes@)),
{
    let mut w = BitWriter::new();
    let nx2 = nx / 2 + nx % 2;
    let ny2 = ny / 2 + ny % 2;
    quad_enc(&mut w, m, nx, ny, 0, 0, nx2, ny2, planes[0] as u32);
    quad_enc(&mut w, m, nx, ny, 0, ny2, nx2, ny / 2, planes[1] as u32);
    quad_enc(&mut w, m, nx, ny, nx2, 0, nx / 2, ny2, planes[1] as u32);
    quad_enc(&mut w, m, nx, ny, nx2, ny2, nx / 2, ny / 2, planes[2] as u32);
    w.put_bits(0, 4);
    proof {
        assert(w.bits@ =~= enc_bits(m@, nx as int, ny as int, planes@));
    }
    w.finish()
}

fn encode(a: &mut Vec<i64>, nx: usize, ny: usize, scale: i64) -> (r: Result<Vec<u8>, FitsError>)
    requires
        1 <= nx <= 0x4000_0000,
        1 <= ny <= 0x4000_0000,
        nx * ny <= old(a).len(),
        8 * (nx * ny) + 64 <= usize::MAX,
    ensures
        final(a)@ == magnitudes(old(a)@.update(0, 0), nx * ny),
        match hc_encode(old(a)@, nx as int, ny as int, scale) {
            Ok(b) => r matches Ok(v) && v@ == b,
            Err(()) => r matches Err(e) && e.status == DATA_COMPRESSION_ERR && e.message_list() == seq![
                "encode: output buffer too small"@,
            ],
        },
{
    let n = nx * ny;
    proof {
        assert(n >= 1) by (nonlinear_arith)
            requires
                nx >= 1,
                ny >= 1,
                n == nx * ny,
        ;
    }
    let sum = a[0];
    a.set(0, 0);
    let signs = sign_pass(a, n);
    let planes = planes_exec(a, nx, ny);
    let head = header_exec(nx as i32, ny as i32, scale, sum, &planes);
    let body = body_exec(a, nx, ny, &planes);
    let room: usize = if 8 * n + 64 > 256 { 8 * n + 64 } else { 256 };
    assemble_exec(head, &body, &signs, room)
}

fn sign_pass(a: &mut Vec<i64>, n: usize) -> (r: Vec<u8>)
    requires
        n <= old(a).len(),
    ensures
        final(a)@ == magnitudes(old(a)@, n as int),
        r@ == pack_bits(sign_seq(old(a)@, n as int)),
{
    let ghost z = a@;
    let mut w = BitWriter::new();
    let mut k: usize = 0;
    proof {
        assert(w.bits@ =~= sign_seq(z, 0));
    }
    while k < n
        invariant
            k <= n <= a.len(),
            a.len() == z.len(),
            w.wf(),
            w.bits@ == sign_seq(z, k as int),
            forall|t: int| 0 <= t < a.len() ==> a@[t] == if t < k { magnitudes(z, n as int)[t] } else { z[t] },
        decreases n - k,
    {
        let v = a[k];
        if v > 0 {
            w.push_bit(false);
        } else if v < 0 {
            w.push_bit(true);
            a.set(k, 0i64.wrapping_sub(v));
        }
        assert(w.bits@ =~= sign_seq(z, k + 1));
        k = k + 1;
    }
    assert(a@ =~= magnitudes(z, n as int));
    w.finish()
}

fn planes_exec(m: &Vec<i64>, nx: usize, ny: usize) -> (r: Vec<u8>)
    requires
        1 <= nx,
        1 <= ny,
        nx * ny <= m.len(),
    ensures
        r@ == planes_of(m@, nx as int, ny as int),
        forall|k: int| 0 <= k < 3 ==> r@[k] <= 63,
{
    let nx2 = nx / 2 + nx % 2;
    let ny2 = ny / 2 + ny % 2;
    let total = nx * ny;
    let mut v0: i64 = 0;
    let mut v1: i64 = 0;
    let mut v2: i64 = 0;
    let mut k: usize = 0;
    let mut i: usize = 0;
    let mut j: usize = 0;
    while k < total
        invariant
            total == nx * ny,
            total <= m.len(),
            nx2 == (nx + 1) / 2,
            ny2 == (ny + 1) / 2,
            ny >= 1,
            k <= total,
            j < ny,
            k == i * ny + j,
            v0 as int == qmax(m@, nx as int, ny as int, 0, k as int),
            v1 as int == qmax(m@, nx as int, ny as int, 1, k as int),
            v2 as int == qmax(m@, nx as int, ny as int, 2, k as int),
            v0 >= 0,
            v1 >= 0,
            v2 >= 0,
        decreases total - k,
    {
        proof {
            lemma_fundamental_div_mod_converse(k as int, ny as int, i as int, j as int);
        }
        let v = m[k];
        let q: u32 = (if j >= ny2 { 1u32 } else { 0 }) + (if i >= nx2 { 1u32 } else { 0 });
        if q == 0 {
            if v0 < v {
                v0 = v;
            }
        } else if q == 1 {
            if v1 < v {
                v1 = v;
            }
        } else {
            if v2 < v {
                v2 = v;
            }
        }
        k = k + 1;
        if j + 1 < ny {
            j = j + 1;
        } else {
            proof {
                assert((i + 1) * ny == i * ny + ny) by (nonlinear_arith);
            }
            j = 0;
            i = i + 1;
        }
    }
    let b0 = bit_length_exec(v0 as u64);
    let b1 = bit_length_exec(v1 as u64);
    let b2 = bit_length_exec(v2 as u64);
    proof {
        lemma2_to64();
        lemma2_to64_rest();
        lemma_bit_length_pow(v0 as int, 63);
        lemma_bit_length_pow(v1 as int, 63);
        lemma_bit_length_pow(v2 as int, 63);
    }
    let mut r: Vec<u8> = Vec::new();
    r.push(b0 as u8);
    r.push(b1 as u8);
    r.push(b2 as u8);
    assert(r@ =~= planes_of(m@, nx as int, ny as int));
    r
}

/// Compress a 2-D `i64` tile (used for 32-bit FITS images). `ny` is the
/// fastest axis. The tile's values are left as the coefficients'
/// magnitudes. Each side is at most 2^30 pixels, as for `compress`.
pub fn compress64(a: &mut Vec<i64>, ny: i32, nx: i32, scale: i32) -> (r: Result<Vec<u8>, FitsError>)
    requires
        1 <= nx <= 0x4000_0000,
        1 <= ny <= 0x4000_0000,
        nx * ny <= old(a).len(),
        8 * (nx * ny) + 64 <= usize::MAX,
    ensures
        final(a)@ == hc_magnitudes(old(a)@, nx as int, ny as int, scale as i64),
        match hc_compress(old(a)@, nx as int, ny as int, scale as i64) {
            Ok(b) => r matches Ok(v) && v@ == b,
            Err(()) => r matches Err(e) && e.status == DATA_COMPRESSION_ERR && e.message_list() == seq![
                "encode: output buffer too small"@,
            ],
        },
{
    let nxu = nx as usize;
    let nyu = ny as usize;
    htrans(a, nxu, nyu);
    digitize(a, nxu * nyu, scale as i64);
    encode(a, nxu, nyu, scale as i64)
}


} // verus!
