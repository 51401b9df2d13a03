//! H-transform image compression (`HCOMPRESS_1`). Pixels are stored row by
//! row with `ny` the fastest-varying axis: pixel `(i, j)` of an `nx` by `ny`
//! tile sits at `i * ny + j`. `scale == 0` is lossless.
//!
//! The transform works in 32-bit two's complement: a sum that leaves the
//! `i32` range wraps, as the stream format's reference coder does.
use vstd::prelude::*;
use vstd::arithmetic::power2::{pow2, lemma_pow2_pos, lemma_pow2_adds, lemma2_to64};
use vstd::arithmetic::div_mod::lemma_fundamental_div_mod_converse;
use vstd::wrapping::i32_specs;
use crate::compress::layout::{be_signed, be_signed_at, lemma_be_bytes_mod, lemma_be_value_bound, push_be_u64};
use crate::convert::be_bytes;
use crate::convert::pow256;
use crate::error::FitsError;
use crate::status::{DATA_COMPRESSION_ERR, DATA_DECOMPRESSION_ERR};
use vstd::slice::slice_subrange;
use crate::compress::rice::{pack_bits, bits_of, bit_length, bit_length_exec, lemma_bit_length_pow, BitWriter, bits_val, byte_bits, lemma_bits_of_index, lemma_bits_val_bound, lemma_byte_bits_at};

pub mod roundtrip;
pub mod wide;

pub use wide::{compress64, decompress64};

verus! {

// ---------------------------------------------------------------------
// Sizes of the transform's levels.
// ---------------------------------------------------------------------

/// Number of halvings (rounding up) that bring `n` down to 1: the
/// smallest `k` with `n <= 2^k`.
pub open spec fn ceil_log2(n: int) -> nat
    decreases n,
{
    if n <= 1 {
        0
    } else {
        1 + ceil_log2((n + 1) / 2)
    }
}

/// Extent of the still-untransformed corner after `l` levels: `n` halved
/// `l` times, rounding up.
pub open spec fn top_at(n: int, l: nat) -> int
    decreases l,
{
    if l == 0 {
        n
    } else {
        (top_at(n, (l - 1) as nat) + 1) / 2
    }
}

pub(crate) proof fn lemma_top_bounds(n: int, l: nat)
    requires
        n >= 1,
    ensures
        1 <= top_at(n, l) <= n,
    decreases l,
{
    if l > 0 {
        lemma_top_bounds(n, (l - 1) as nat);
    }
}

pub(crate) proof fn lemma_top_mono(n: int, m: int, l: nat)
    requires
        1 <= n <= m,
    ensures
        top_at(n, l) <= top_at(m, l),
    decreases l,
{
    if l > 0 {
        lemma_top_mono(n, m, (l - 1) as nat);
    }
}

/// Number of levels of the transform of an `nx` by `ny` tile
/// (`log2n_of`): `ceil(log2(max(nx, ny)))`.
pub(crate) fn levels_of(nmax: u32) -> (r: u32)
    requires
        1 <= nmax <= 0x4000_0000,
    ensures
        r == ceil_log2(nmax as int),
        r <= 30,
{
    let mut k: u32 = 0;
    let mut m: u32 = nmax;
    proof {
        lemma_clog2_bound(nmax as int);
    }
    while m > 1
        invariant
            1 <= m <= nmax <= 0x4000_0000,
            k + ceil_log2(m as int) == ceil_log2(nmax as int),
            ceil_log2(nmax as int) <= 30,
        decreases m,
    {
        m = (m + 1) / 2;
        k = k + 1;
    }
    k
}

pub(crate) proof fn lemma_clog2_bound(n: int)
    requires
        1 <= n <= 0x4000_0000,
    ensures
        ceil_log2(n) <= 30,
        n > 1 ==> ceil_log2((n + 1) / 2) <= 29,
    decreases n,
{
    lemma2_to64();
    if n > 1 {
        lemma_clog2_mono((n + 1) / 2, 0x2000_0000);
        lemma_clog2_top(29);
    }
}

pub(crate) proof fn lemma_clog2_mono(n: int, m: int)
    requires
        1 <= n <= m,
    ensures
        ceil_log2(n) <= ceil_log2(m),
    decreases m,
{
    if n > 1 {
        lemma_clog2_mono((n + 1) / 2, (m + 1) / 2);
    }
}

pub(crate) proof fn lemma_clog2_top(k: nat)
    requires
        k <= 29,
    ensures
        ceil_log2(pow2(k) as int) == k,
    decreases k,
{
    lemma_pow2_pos(k);
    if k > 0 {
        lemma_clog2_top((k - 1) as nat);
        lemma_pow2_adds(1, (k - 1) as nat);
        lemma2_to64();
        lemma_pow2_pos((k - 1) as nat);
    } else {
        lemma2_to64();
    }
}

/// `n` halved `l` times, rounding up.
pub(crate) fn top_exec(n: usize, l: u32) -> (r: usize)
    requires
        n >= 1,
    ensures
        r == top_at(n as int, l as nat),
        1 <= r <= n,
{
    let mut t: usize = n;
    let mut k: u32 = 0;
    while k < l
        invariant
            k <= l,
            n >= 1,
            t == top_at(n as int, k as nat),
            1 <= t <= n,
        decreases l - k,
    {
        proof {
            lemma_top_bounds(n as int, (k + 1) as nat);
        }
        t = t / 2 + t % 2;
        k = k + 1;
    }
    t
}

// ---------------------------------------------------------------------
// 32-bit arithmetic of the transform.
// ---------------------------------------------------------------------

/// Sum in 32-bit two's complement.
pub open spec fn wa(x: i32, y: i32) -> i32 {
    i32_specs::wrapping_add(x, y)
}

/// Difference in 32-bit two's complement.
pub open spec fn ws(x: i32, y: i32) -> i32 {
    i32_specs::wrapping_sub(x, y)
}

/// Left shift in 32-bit two's complement.
pub open spec fn wl(x: i32, k: u32) -> i32 {
    i32_specs::wrapping_shl(x, k)
}

/// `2^k` as an `i32` (`k <= 30`).
pub open spec fn p2(k: nat) -> i32 {
    pow2(k) as i32
}

/// `-(2^k)` as an `i32` (`k <= 31`): the mask that clears the low `k` bits.
pub open spec fn np2(k: nat) -> i32 {
    (-(pow2(k) as int)) as i32
}

fn p2_exec(k: u32) -> (r: i32)
    requires
        k <= 30,
    ensures
        r == p2(k as nat),
        r == pow2(k as nat),
{
    let mut v: i32 = 1;
    let mut i: u32 = 0;
    proof {
        lemma2_to64();
    }
    while i < k
        invariant
            i <= k <= 30,
            v == pow2(i as nat),
        decreases k - i,
    {
        proof {
            lemma_pow2_adds(i as nat, 1);
            lemma2_to64();
            vstd::arithmetic::power2::lemma_pow2_strictly_increases((i + 1) as nat, 31);
        }
        v = v * 2;
        i = i + 1;
    }
    v
}

fn np2_exec(k: u32) -> (r: i32)
    requires
        k <= 31,
    ensures
        r == np2(k as nat),
{
    if k == 31 {
        proof {
            lemma2_to64();
        }
        i32::MIN
    } else {
        let p = p2_exec(k);
        0 - p
    }
}

// ---------------------------------------------------------------------
// The forward transform (`htrans`).
// ---------------------------------------------------------------------

/// Row shift of level `l`: the first level keeps full sums.
pub open spec fn fwd_shift(l: nat) -> u32 {
    if l == 0 {
        0
    } else {
        1
    }
}

/// A difference coefficient of level `l`, rounded to a multiple of
/// `2^(l+1)` (half up for non-negative values).
pub open spec fn rnd1(x: i32, l: nat) -> i32 {
    (if x >= 0 { wa(x, p2(l)) } else { x }) & np2(l + 1)
}

/// The sum coefficient of level `l`, rounded to a multiple of `2^(l+2)`.
pub open spec fn rnd2(x: i32, l: nat) -> i32 {
    (if x >= 0 { wa(x, p2(l + 1)) } else { wa(x, (pow2(l + 1) - 1) as i32) }) & np2(l + 2)
}

/// Pixel `(i, j)` of a row-major tile with rows of `ny`.
pub open spec fn el(s: Seq<i32>, ny: int, i: int, j: int) -> i32 {
    s[i * ny + j]
}

/// Position `i` of a shuffled line of `n`: the even entries first, then
/// the odd ones.
pub open spec fn shuf(i: int, n: int) -> int {
    if i < (n + 1) / 2 {
        2 * i
    } else {
        2 * (i - (n + 1) / 2) + 1
    }
}

/// Coefficient `(i, j)` of level `l` over the `nxt` by `nyt` corner, before
/// the shuffle: each 2x2 block `(a00 a01 / a10 a11)` becomes its sum `h0`,
/// its differences along x (`hx`) and y (`hy`) and its cross difference
/// `hc`; a block cut by the corner's edge keeps the sums and differences of
/// the pixels it has, scaled to the same weight.
pub open spec fn fwd_pre(s: Seq<i32>, ny: int, nxt: int, nyt: int, l: nat, i: int, j: int) -> i32 {
    let i0 = i - i % 2;
    let j0 = j - j % 2;
    let sh = fwd_shift(l);
    let a00 = el(s, ny, i0, j0);
    if i0 + 1 < nxt && j0 + 1 < nyt {
        let a01 = el(s, ny, i0, j0 + 1);
        let a10 = el(s, ny, i0 + 1, j0);
        let a11 = el(s, ny, i0 + 1, j0 + 1);
        if i % 2 == 0 && j % 2 == 0 {
            rnd2(wa(wa(wa(a11, a10), a01), a00) >> sh, l)
        } else if i % 2 == 0 {
            rnd1(ws(wa(ws(a11, a10), a01), a00) >> sh, l)
        } else if j % 2 == 0 {
            rnd1(ws(ws(wa(a11, a10), a01), a00) >> sh, l)
        } else {
            wa(ws(ws(a11, a10), a01), a00) >> sh
        }
    } else if i0 + 1 < nxt {
        let a10 = el(s, ny, i0 + 1, j0);
        if i % 2 == 0 {
            rnd2(wl(wa(a10, a00), (1 - sh) as u32), l)
        } else {
            rnd1(wl(ws(a10, a00), (1 - sh) as u32), l)
        }
    } else if j0 + 1 < nyt {
        let a01 = el(s, ny, i0, j0 + 1);
        if j % 2 == 0 {
            rnd2(wl(wa(a01, a00), (1 - sh) as u32), l)
        } else {
            rnd1(wl(ws(a01, a00), (1 - sh) as u32), l)
        }
    } else {
        rnd2(wl(a00, (2 - sh) as u32), l)
    }
}

/// Level `l` of the forward transform of an `nx` by `ny` tile: the corner
/// left by the earlier levels is transformed block by block, then its rows
/// and its columns are shuffled so that the block sums gather in the
/// corner the next level works on.
pub open spec fn fwd_level(s: Seq<i32>, nx: int, ny: int, l: nat) -> Seq<i32> {
    let nxt = top_at(nx, l);
    let nyt = top_at(ny, l);
    Seq::new(
        s.len(),
        |p: int|
            if p / ny < nxt && p % ny < nyt {
                fwd_pre(s, ny, nxt, nyt, l, shuf(p / ny, nxt), shuf(p % ny, nyt))
            } else {
                s[p]
            },
    )
}

/// The first `l` levels of the forward transform.
pub open spec fn htrans_levels(s: Seq<i32>, nx: int, ny: int, l: nat) -> Seq<i32>
    decreases l,
{
    if l == 0 {
        s
    } else {
        fwd_level(htrans_levels(s, nx, ny, (l - 1) as nat), nx, ny, (l - 1) as nat)
    }
}

/// The H-transform of an `nx` by `ny` tile (`htrans`).
pub open spec fn htrans_spec(s: Seq<i32>, nx: int, ny: int) -> Seq<i32> {
    htrans_levels(s, nx, ny, ceil_log2(if nx < ny { ny } else { nx }))
}

pub(crate) proof fn lemma_block_index(i: int, j: int, ny: int, nxt: int, nyt: int, nx: int)
    requires
        0 <= i < nxt,
        0 <= j < nyt,
        nyt <= ny,
        nxt <= nx,
    ensures
        0 <= i * ny + j < nx * ny,
{
    assert(i * ny <= (nxt - 1) * ny) by (nonlinear_arith)
        requires
            i <= nxt - 1,
            ny >= 0,
    ;
    assert((nxt - 1) * ny + ny == nxt * ny) by (nonlinear_arith);
    assert(nxt * ny <= nx * ny) by (nonlinear_arith)
        requires
            nxt <= nx,
            ny >= 0,
    ;
    assert(i * ny >= 0) by (nonlinear_arith)
        requires
            i >= 0,
            ny >= 0,
    ;
}

fn get_el(s: &Vec<i32>, ny: usize, nx: usize, i: usize, j: usize) -> (r: i32)
    requires
        i < nx,
        j < ny,
        nx * ny <= s.len(),
    ensures
        r == el(s@, ny as int, i as int, j as int),
{
    proof {
        lemma_block_index(i as int, j as int, ny as int, nx as int, ny as int, nx as int);
    }
    s[i * ny + j]
}

fn rnd1_exec(x: i32, l: u32) -> (r: i32)
    requires
        l <= 29,
    ensures
        r == rnd1(x, l as nat),
{
    let p = p2_exec(l);
    let m = np2_exec(l + 1);
    (if x >= 0 { x.wrapping_add(p) } else { x }) & m
}

fn rnd2_exec(x: i32, l: u32) -> (r: i32)
    requires
        l <= 29,
    ensures
        r == rnd2(x, l as nat),
{
    let p = p2_exec(l + 1);
    let m = np2_exec(l + 2);
    (if x >= 0 { x.wrapping_add(p) } else { x.wrapping_add(p - 1) }) & m
}

fn fwd_pre_exec(s: &Vec<i32>, nx: usize, ny: usize, nxt: usize, nyt: usize, l: u32, i: usize, j: usize) -> (r: i32)
    requires
        i < nxt <= nx,
        j < nyt <= ny,
        nx * ny <= s.len(),
        l <= 29,
    ensures
        r == fwd_pre(s@, ny as int, nxt as int, nyt as int, l as nat, i as int, j as int),
{
    let i0 = i - i % 2;
    let j0 = j - j % 2;
    let sh: u32 = if l == 0 { 0 } else { 1 };
    let a00 = get_el(s, ny, nx, i0, j0);
    if i0 + 1 < nxt && j0 + 1 < nyt {
        let a01 = get_el(s, ny, nx, i0, j0 + 1);
        let a10 = get_el(s, ny, nx, i0 + 1, j0);
        let a11 = get_el(s, ny, nx, i0 + 1, j0 + 1);
        if i % 2 == 0 && j % 2 == 0 {
            rnd2_exec(a11.wrapping_add(a10).wrapping_add(a01).wrapping_add(a00) >> sh, l)
        } else if i % 2 == 0 {
            rnd1_exec(a11.wrapping_sub(a10).wrapping_add(a01).wrapping_sub(a00) >> sh, l)
        } else if j % 2 == 0 {
            rnd1_exec(a11.wrapping_add(a10).wrapping_sub(a01).wrapping_sub(a00) >> sh, l)
        } else {
            a11.wrapping_sub(a10).wrapping_sub(a01).wrapping_add(a00) >> sh
        }
    } else if i0 + 1 < nxt {
        let a10 = get_el(s, ny, nx, i0 + 1, j0);
        if i % 2 == 0 {
            rnd2_exec(a10.wrapping_add(a00).wrapping_shl(1 - sh), l)
        } else {
            rnd1_exec(a10.wrapping_sub(a00).wrapping_shl(1 - sh), l)
        }
    } else if j0 + 1 < nyt {
        let a01 = get_el(s, ny, nx, i0, j0 + 1);
        if j % 2 == 0 {
            rnd2_exec(a01.wrapping_add(a00).wrapping_shl(1 - sh), l)
        } else {
            rnd1_exec(a01.wrapping_sub(a00).wrapping_shl(1 - sh), l)
        }
    } else {
        rnd2_exec(a00.wrapping_shl(2 - sh), l)
    }
}

pub(crate) fn shuf_exec(i: usize, n: usize) -> (r: usize)
    requires
        i < n,
    ensures
        r == shuf(i as int, n as int),
        r < n,
{
    let h = n / 2 + n % 2;
    if i < h {
        2 * i
    } else {
        2 * (i - h) + 1
    }
}

/// One level of the forward transform (`htrans`'s loop body, with its
/// row and column `shuffle`).
fn fwd_level_exec(a: &Vec<i32>, nx: usize, ny: usize, l: u32, nxt: usize, nyt: usize) -> (r: Vec<i32>)
    requires
        1 <= nxt <= nx,
        1 <= nyt <= ny,
        nxt == top_at(nx as int, l as nat),
        nyt == top_at(ny as int, l as nat),
        nx * ny <= a.len(),
        l <= 29,
    ensures
        r@ == fwd_level(a@, nx as int, ny as int, l as nat),
{
    let ghost target = fwd_level(a@, nx as int, ny as int, l as nat);
    let mut out: Vec<i32> = Vec::new();
    let mut p: usize = 0;
    let mut i: usize = 0;
    let mut j: usize = 0;
    while p < a.len()
        invariant
            p <= a.len(),
            1 <= nxt <= nx,
            1 <= nyt <= ny,
            nxt == top_at(nx as int, l as nat),
            nyt == top_at(ny as int, l as nat),
            nx * ny <= a.len(),
            l <= 29,
            j < ny,
            p == i * ny + j,
            target == fwd_level(a@, nx as int, ny as int, l as nat),
            out@ == target.take(p as int),
        decreases a.len() - p,
    {
        proof {
            lemma_fundamental_div_mod_converse(p as int, ny as int, i as int, j as int);
        }
        let v = if i < nxt && j < nyt {
            let si = shuf_exec(i, nxt);
            let sj = shuf_exec(j, nyt);
            fwd_pre_exec(a, nx, ny, nxt, nyt, l, si, sj)
        } else {
            a[p]
        };
        out.push(v);
        proof {
            assert(out@ =~= target.take(p + 1));
        }
        p = p + 1;
        if j + 1 < ny {
            j = j + 1;
        } else {
            proof {
                assert((i + 1) * ny == i * ny + ny) by (nonlinear_arith);
            }
            j = 0;
            i = i + 1;
        }
    }
    proof {
        assert(out@ =~= target);
    }
    out
}

/// The H-transform of an `nx` by `ny` tile, in place (`htrans`).
fn htrans(a: &mut Vec<i32>, nx: usize, ny: usize)
    requires
        1 <= nx <= 0x4000_0000,
        1 <= ny <= 0x4000_0000,
        nx * ny <= old(a).len(),
    ensures
        final(a)@ == htrans_spec(old(a)@, nx as int, ny as int),
        final(a).len() == old(a).len(),
{
    let nmax = if nx < ny { ny } else { nx };
    let log2n = levels_of(nmax as u32);
    let ghost orig = a@;
    let mut l: u32 = 0;
    while l < log2n
        invariant
            l <= log2n <= 30,
            log2n == ceil_log2(nmax as int),
            nmax == (if nx < ny { ny } else { nx }),
            1 <= nx <= 0x4000_0000,
            1 <= ny <= 0x4000_0000,
            nx * ny <= a.len(),
            a.len() == orig.len(),
            a@ == htrans_levels(orig, nx as int, ny as int, l as nat),
        decreases log2n - l,
    {
        let nxt = top_exec(nx, l);
        let nyt = top_exec(ny, l);
        let next = fwd_level_exec(a, nx, ny, l, nxt, nyt);
        *a = next;
        l = l + 1;
    }
}


// ---------------------------------------------------------------------
// The inverse transform (`hinv`).
// ---------------------------------------------------------------------

/// Position in the shuffled line of `n` of the entry that goes back to
/// position `i` (`unshuffle`).
pub open spec fn unshuf(i: int, n: int) -> int {
    if i % 2 == 0 {
        i / 2
    } else {
        (n + 1) / 2 + i / 2
    }
}

/// Entry `(i, j)` of the `nxt` by `nyt` corner once its rows and columns
/// are unshuffled.
pub open spec fn uel(s: Seq<i32>, ny: int, nxt: int, nyt: int, i: int, j: int) -> i32 {
    el(s, ny, unshuf(i, nxt), unshuf(j, nyt))
}

/// `x` rounded with `pos` added when non-negative, `neg` otherwise, then
/// masked with `mask`.
pub open spec fn rup(x: i32, pos: i32, neg: i32, mask: i32) -> i32 {
    wa(x, if x >= 0 { pos } else { neg }) & mask
}

/// Rounding offset for the cross difference at level `k` (non-negative
/// values).
pub open spec fn prnd0(k: nat) -> i32 {
    if k == 0 {
        0
    } else {
        p2((k - 1) as nat)
    }
}

/// Rounding offset for the cross difference at level `k` (negative
/// values).
pub open spec fn nrnd0(k: nat) -> i32 {
    if k == 0 {
        0
    } else {
        (pow2((k - 1) as nat) - 1) as i32
    }
}

/// Row shift of inverse level `k`: the last one divides by 4.
pub open spec fn inv_shift(k: nat) -> u32 {
    if k == 0 {
        2
    } else {
        1
    }
}

/// Pixel `(i, j)` of the `nxt` by `nyt` corner after inverse level `k`:
/// each 2x2 block of unshuffled coefficients `(h0 hy / hx hc)` is rounded
/// back to the multiples the forward level produced, the bits the rounding
/// moved are restored, and the four pixels are recovered from sums and
/// differences.
pub open spec fn inv_pre(s: Seq<i32>, ny: int, nxt: int, nyt: int, k: nat, i: int, j: int) -> i32 {
    let i0 = i - i % 2;
    let j0 = j - j % 2;
    let sh = inv_shift(k);
    let h0 = uel(s, ny, nxt, nyt, i0, j0);
    let p1 = p2(k);
    let n1 = (pow2(k) - 1) as i32;
    let m1 = np2(k + 1);
    let b1 = p2(k + 1);
    if i0 + 1 < nxt && j0 + 1 < nyt {
        let hx = rup(uel(s, ny, nxt, nyt, i0 + 1, j0), p1, n1, m1);
        let hy = rup(uel(s, ny, nxt, nyt, i0, j0 + 1), p1, n1, m1);
        let hc = rup(uel(s, ny, nxt, nyt, i0 + 1, j0 + 1), prnd0(k), nrnd0(k), np2(k));
        let lowbit0 = hc & p2(k);
        let hx2 = if hx >= 0 { ws(hx, lowbit0) } else { wa(hx, lowbit0) };
        let hy2 = if hy >= 0 { ws(hy, lowbit0) } else { wa(hy, lowbit0) };
        let lowbit1 = (hc ^ hx2 ^ hy2) & b1;
        let h = if h0 >= 0 {
            ws(wa(h0, lowbit0), lowbit1)
        } else {
            wa(h0, if lowbit0 == 0 { lowbit1 } else { ws(lowbit0, lowbit1) })
        };
        if i % 2 == 1 && j % 2 == 1 {
            wa(wa(wa(h, hx2), hy2), hc) >> sh
        } else if i % 2 == 1 {
            ws(ws(wa(h, hx2), hy2), hc) >> sh
        } else if j % 2 == 1 {
            ws(wa(ws(h, hx2), hy2), hc) >> sh
        } else {
            wa(ws(ws(h, hx2), hy2), hc) >> sh
        }
    } else if i0 + 1 < nxt {
        let hx = rup(uel(s, ny, nxt, nyt, i0 + 1, j0), p1, n1, m1);
        let lowbit1 = hx & b1;
        let h = if h0 >= 0 { ws(h0, lowbit1) } else { wa(h0, lowbit1) };
        if i % 2 == 1 {
            wa(h, hx) >> sh
        } else {
            ws(h, hx) >> sh
        }
    } else if j0 + 1 < nyt {
        let hy = rup(uel(s, ny, nxt, nyt, i0, j0 + 1), p1, n1, m1);
        let lowbit1 = hy & b1;
        let h = if h0 >= 0 { ws(h0, lowbit1) } else { wa(h0, lowbit1) };
        if j % 2 == 1 {
            wa(h, hy) >> sh
        } else {
            ws(h, hy) >> sh
        }
    } else {
        h0 >> sh
    }
}

/// Inverse level `k` of an `nx` by `ny` tile: the corner's rows and
/// columns are unshuffled, then each block is turned back into pixels.
pub open spec fn inv_level(s: Seq<i32>, nx: int, ny: int, k: nat) -> Seq<i32> {
    let nxt = top_at(nx, k);
    let nyt = top_at(ny, k);
    Seq::new(
        s.len(),
        |p: int|
            if p / ny < nxt && p % ny < nyt {
                inv_pre(s, ny, nxt, nyt, k, p / ny, p % ny)
            } else {
                s[p]
            },
    )
}

/// Inverse levels `m - 1` down to `0`.
pub open spec fn inv_levels(s: Seq<i32>, nx: int, ny: int, m: nat) -> Seq<i32>
    decreases m,
{
    if m == 0 {
        s
    } else {
        inv_levels(inv_level(s, nx, ny, (m - 1) as nat), nx, ny, (m - 1) as nat)
    }
}

/// The overall sum rounded to the multiple of `2^(n+1)` the forward
/// transform left it at.
pub open spec fn round_sum(s: Seq<i32>, n: nat) -> Seq<i32> {
    s.update(0, rup(s[0], p2(n), (pow2(n) - 1) as i32, np2(n + 1)))
}

/// The inverse H-transform of an `nx` by `ny` tile (`hinv`). A tile of one
/// pixel has no levels and is its own transform.
pub open spec fn hinv_spec(s: Seq<i32>, nx: int, ny: int) -> Seq<i32> {
    let n = ceil_log2(if nx < ny { ny } else { nx });
    if n == 0 {
        s
    } else {
        inv_levels(round_sum(s, n), nx, ny, n)
    }
}

pub(crate) fn unshuf_exec(i: usize, n: usize) -> (r: usize)
    requires
        i < n,
    ensures
        r == unshuf(i as int, n as int),
        r < n,
{
    if i % 2 == 0 {
        i / 2
    } else {
        (n / 2 + n % 2) + i / 2
    }
}

fn uel_exec(s: &Vec<i32>, nx: usize, ny: usize, nxt: usize, nyt: usize, i: usize, j: usize) -> (r: i32)
    requires
        i < nxt <= nx,
        j < nyt <= ny,
        nx * ny <= s.len(),
    ensures
        r == uel(s@, ny as int, nxt as int, nyt as int, i as int, j as int),
{
    let ui = unshuf_exec(i, nxt);
    let uj = unshuf_exec(j, nyt);
    get_el(s, ny, nx, ui, uj)
}

fn rup_exec(x: i32, pos: i32, neg: i32, mask: i32) -> (r: i32)
    ensures
        r == rup(x, pos, neg, mask),
{
    x.wrapping_add(if x >= 0 { pos } else { neg }) & mask
}

fn inv_pre_exec(s: &Vec<i32>, nx: usize, ny: usize, nxt: usize, nyt: usize, k: u32, i: usize, j: usize) -> (r: i32)
    requires
        i < nxt <= nx,
        j < nyt <= ny,
        nx * ny <= s.len(),
        k <= 29,
    ensures
        r == inv_pre(s@, ny as int, nxt as int, nyt as int, k as nat, i as int, j as int),
{
    let i0 = i - i % 2;
    let j0 = j - j % 2;
    let sh: u32 = if k == 0 { 2 } else { 1 };
    let h0 = uel_exec(s, nx, ny, nxt, nyt, i0, j0);
    let p1 = p2_exec(k);
    let n1 = p1 - 1;
    let m1 = np2_exec(k + 1);
    let b1 = p2_exec(k + 1);
    if i0 + 1 < nxt && j0 + 1 < nyt {
        let (q0, r0) = if k == 0 {
            (0i32, 0i32)
        } else {
            let q = p2_exec(k - 1);
            (q, q - 1)
        };
        let hx = rup_exec(uel_exec(s, nx, ny, nxt, nyt, i0 + 1, j0), p1, n1, m1);
        let hy = rup_exec(uel_exec(s, nx, ny, nxt, nyt, i0, j0 + 1), p1, n1, m1);
        let hc = rup_exec(uel_exec(s, nx, ny, nxt, nyt, i0 + 1, j0 + 1), q0, r0, np2_exec(k));
        let lowbit0 = hc & p1;
        let hx2 = if hx >= 0 { hx.wrapping_sub(lowbit0) } else { hx.wrapping_add(lowbit0) };
        let hy2 = if hy >= 0 { hy.wrapping_sub(lowbit0) } else { hy.wrapping_add(lowbit0) };
        let lowbit1 = (hc ^ hx2 ^ hy2) & b1;
        let h = if h0 >= 0 {
            h0.wrapping_add(lowbit0).wrapping_sub(lowbit1)
        } else {
            h0.wrapping_add(if lowbit0 == 0 { lowbit1 } else { lowbit0.wrapping_sub(lowbit1) })
        };
        if i % 2 == 1 && j % 2 == 1 {
            h.wrapping_add(hx2).wrapping_add(hy2).wrapping_add(hc) >> sh
        } else if i % 2 == 1 {
            h.wrapping_add(hx2).wrapping_sub(hy2).wrapping_sub(hc) >> sh
        } else if j % 2 == 1 {
            h.wrapping_sub(hx2).wrapping_add(hy2).wrapping_sub(hc) >> sh
        } else {
            h.wrapping_sub(hx2).wrapping_sub(hy2).wrapping_add(hc) >> sh
        }
    } else if i0 + 1 < nxt {
        let hx = rup_exec(uel_exec(s, nx, ny, nxt, nyt, i0 + 1, j0), p1, n1, m1);
        let lowbit1 = hx & b1;
        let h = if h0 >= 0 { h0.wrapping_sub(lowbit1) } else { h0.wrapping_add(lowbit1) };
        if i % 2 == 1 {
            h.wrapping_add(hx) >> sh
        } else {
            h.wrapping_sub(hx) >> sh
        }
    } else if j0 + 1 < nyt {
        let hy = rup_exec(uel_exec(s, nx, ny, nxt, nyt, i0, j0 + 1), p1, n1, m1);
        let lowbit1 = hy & b1;
        let h = if h0 >= 0 { h0.wrapping_sub(lowbit1) } else { h0.wrapping_add(lowbit1) };
        if j % 2 == 1 {
            h.wrapping_add(hy) >> sh
        } else {
            h.wrapping_sub(hy) >> sh
        }
    } else {
        h0 >> sh
    }
}

/// One inverse level (`hinv`'s loop body, with its `unshuffle`s).
fn inv_level_exec(a: &Vec<i32>, nx: usize, ny: usize, k: u32, nxt: usize, nyt: usize) -> (r: Vec<i32>)
    requires
        1 <= nxt <= nx,
        1 <= nyt <= ny,
        nxt == top_at(nx as int, k as nat),
        nyt == top_at(ny as int, k as nat),
        nx * ny <= a.len(),
        k <= 29,
    ensures
        r@ == inv_level(a@, nx as int, ny as int, k as nat),
{
    let ghost target = inv_level(a@, nx as int, ny as int, k as nat);
    let mut out: Vec<i32> = Vec::new();
    let mut p: usize = 0;
    let mut i: usize = 0;
    let mut j: usize = 0;
    while p < a.len()
        invariant
            p <= a.len(),
            1 <= nxt <= nx,
            1 <= nyt <= ny,
            nx * ny <= a.len(),
            k <= 29,
            j < ny,
            p == i * ny + j,
            target == inv_level(a@, nx as int, ny as int, k as nat),
            nxt == top_at(nx as int, k as nat),
            nyt == top_at(ny as int, k as nat),
            out@ == target.take(p as int),
        decreases a.len() - p,
    {
        proof {
            lemma_fundamental_div_mod_converse(p as int, ny as int, i as int, j as int);
        }
        let v = if i < nxt && j < nyt {
            inv_pre_exec(a, nx, ny, nxt, nyt, k, i, j)
        } else {
            a[p]
        };
        out.push(v);
        proof {
            assert(out@ =~= target.take(p + 1));
        }
        p = p + 1;
        if j + 1 < ny {
            j = j + 1;
        } else {
            proof {
                assert((i + 1) * ny == i * ny + ny) by (nonlinear_arith);
            }
            j = 0;
            i = i + 1;
        }
    }
    proof {
        assert(out@ =~= target);
    }
    out
}

/// The inverse H-transform of an `nx` by `ny` tile, in place (`hinv`).
fn hinv(a: &mut Vec<i32>, nx: usize, ny: usize)
    requires
        1 <= nx <= 0x4000_0000,
        1 <= ny <= 0x4000_0000,
        nx * ny <= old(a).len(),
    ensures
        final(a)@ == hinv_spec(old(a)@, nx as int, ny as int),
        final(a).len() == old(a).len(),
{
    let nmax = if nx < ny { ny } else { nx };
    let log2n = levels_of(nmax as u32);
    if log2n == 0 {
        return;
    }
    proof {
        assert(nx * ny >= 1) by (nonlinear_arith)
            requires
                nx >= 1,
                ny >= 1,
        ;
    }
    let p = p2_exec(log2n);
    let a0 = rup_exec(a[0], p, p - 1, np2_exec(log2n + 1));
    a.set(0, a0);
    let ghost start = a@;
    let mut k: u32 = log2n;
    while k > 0
        invariant
            k <= log2n <= 30,
            1 <= nx <= 0x4000_0000,
            1 <= ny <= 0x4000_0000,
            nx * ny <= a.len(),
            a.len() == start.len(),
            inv_levels(a@, nx as int, ny as int, k as nat) == inv_levels(start, nx as int, ny as int, log2n as nat),
        decreases k,
    {
        let nxt = top_exec(nx, k - 1);
        let nyt = top_exec(ny, k - 1);
        let next = inv_level_exec(a, nx, ny, k - 1, nxt, nyt);
        *a = next;
        k = k - 1;
    }
}


// ---------------------------------------------------------------------
// Quantisation of the coefficients (`digitize`, `undigitize`).
// ---------------------------------------------------------------------

/// Quotient rounded toward zero.
pub open spec fn tdiv(x: int, y: int) -> int {
    if x >= 0 {
        x / y
    } else {
        -((-x) / y)
    }
}

/// A coefficient divided by `scale`, rounding to nearest (ties toward
/// zero), as the reference coder computes it in 32 bits.
pub open spec fn dig(x: i32, scale: i32) -> i32 {
    let d = (scale - 1) / 2;
    if x > 0 {
        tdiv(wa(x, d as i32) as int, scale as int) as i32
    } else {
        tdiv(ws(x, d as i32) as int, scale as int) as i32
    }
}

/// The first `n` values divided by `scale` (`digitize`); a scale of 1 or
/// less leaves them as they are.
pub open spec fn digitize_spec(s: Seq<i32>, n: int, scale: i32) -> Seq<i32> {
    if scale <= 1 {
        s
    } else {
        Seq::new(s.len(), |k: int| if k < n { dig(s[k], scale) } else { s[k] })
    }
}

/// The first `n` values multiplied back by `scale` in 32 bits
/// (`undigitize`); a scale of 1 or less leaves them as they are.
pub open spec fn undigitize_spec(s: Seq<i32>, n: int, scale: i32) -> Seq<i32> {
    if scale <= 1 {
        s
    } else {
        Seq::new(s.len(), |k: int| if k < n { i32_specs::wrapping_mul(s[k], scale) } else { s[k] })
    }
}

fn tdiv_exec(v: i32, scale: i32) -> (r: i32)
    requires
        scale > 1,
    ensures
        r == tdiv(v as int, scale as int),
{
    if v >= 0 {
        v / scale
    } else {
        let m: i64 = -(v as i64);
        let q: i64 = m / (scale as i64);
        assert(q <= m);
        (-q) as i32
    }
}

fn digitize(a: &mut Vec<i32>, n: usize, scale: i32)
    requires
        n <= old(a).len(),
    ensures
        final(a)@ == digitize_spec(old(a)@, n as int, scale),
{
    if scale <= 1 {
        return;
    }
    let d: i32 = (scale - 1) / 2;
    let ghost orig = a@;
    let mut k: usize = 0;
    while k < n
        invariant
            scale > 1,
            d == (scale - 1) / 2,
            n <= a.len(),
            k <= n,
            a.len() == orig.len(),
            forall|t: int| 0 <= t < a.len() ==> a@[t] == if t < k { dig(orig[t], scale) } else { orig[t] },
        decreases n - k,
    {
        let x = a[k];
        let v = if x > 0 { tdiv_exec(x.wrapping_add(d), scale) } else { tdiv_exec(x.wrapping_sub(d), scale) };
        a.set(k, v);
        k = k + 1;
    }
    assert(a@ =~= digitize_spec(orig, n as int, scale));
}

fn undigitize(a: &mut Vec<i32>, n: usize, scale: i32)
    requires
        n <= old(a).len(),
    ensures
        final(a)@ == undigitize_spec(old(a)@, n as int, scale),
{
    if scale <= 1 {
        return;
    }
    let ghost orig = a@;
    let mut k: usize = 0;
    while k < n
        invariant
            scale > 1,
            n <= a.len(),
            k <= n,
            a.len() == orig.len(),
            forall|t: int|
                0 <= t < a.len() ==> a@[t] == if t < k { i32_specs::wrapping_mul(orig[t], scale) } else { orig[t] },
        decreases n - k,
    {
        let x = a[k];
        a.set(k, x.wrapping_mul(scale));
        k = k + 1;
    }
    assert(a@ =~= undigitize_spec(orig, n as int, scale));
}

// ---------------------------------------------------------------------
// Reading the coded stream.
// ---------------------------------------------------------------------

/// The `n` bits at bit position `p`, as a number; `None` past the end.
pub open spec fn rd(bs: Seq<bool>, p: int, n: int) -> Option<int> {
    if 0 <= p && 0 <= n && p + n <= bs.len() {
        Some(bits_val(bs.subrange(p, p + n)))
    } else {
        None
    }
}

/// Value of a 4-bit Huffman code at or above 8.
pub open spec fn huff4(c: int) -> int {
    if c == 8 {
        3
    } else if c == 9 {
        5
    } else if c == 10 {
        10
    } else if c == 11 {
        12
    } else {
        15
    }
}

/// Value of a 5-bit Huffman code from 26 to 30.
pub open spec fn huff5(c: int) -> int {
    if c == 26 {
        6
    } else if c == 27 {
        7
    } else if c == 28 {
        9
    } else if c == 29 {
        11
    } else {
        13
    }
}

/// The quadtree nybble Huffman-coded at bit `p` (3 to 6 bits) and the
/// position after it; `None` past the end.
pub open spec fn huff_dec(bs: Seq<bool>, p: int) -> Option<(int, int)> {
    match rd(bs, p, 3) {
        None => None,
        Some(c3) => if c3 < 4 {
            Some((pow2(c3 as nat) as int, p + 3))
        } else {
            match rd(bs, p, 4) {
                None => None,
                Some(c4) => if c4 < 13 {
                    Some((huff4(c4), p + 4))
                } else {
                    match rd(bs, p, 5) {
                        None => None,
                        Some(c5) => if c5 < 31 {
                            Some((huff5(c5), p + 5))
                        } else {
                            match rd(bs, p, 6) {
                                None => None,
                                Some(c6) => Some((if c6 == 62 { 0int } else { 14int }, p + 6)),
                            }
                        },
                    }
                },
            }
        },
    }
}

/// `n` 4-bit values from bit `p`; `None` past the end.
pub open spec fn nybbles(bs: Seq<bool>, p: int, n: int) -> Option<Seq<u8>> {
    if 0 <= p && 0 <= n && p + 4 * n <= bs.len() {
        Some(Seq::new(n as nat, |k: int| bits_val(bs.subrange(p + 4 * k, p + 4 * k + 4)) as u8))
    } else {
        None
    }
}

pub(crate) proof fn lemma_rd_step(bs: Seq<bool>, p: int, n: int)
    requires
        0 <= p,
        0 <= n,
        p + n + 1 <= bs.len(),
    ensures
        rd(bs, p, n + 1) == Some(rd(bs, p, n).unwrap() * 2 + rd(bs, p + n, 1).unwrap()),
        rd(bs, p + n, 1) == Some(if bs[p + n] { 1int } else { 0int }),
{
    assert(bs.subrange(p, p + n + 1).drop_last() =~= bs.subrange(p, p + n));
    let one = bs.subrange(p + n, p + n + 1);
    assert(one.drop_last() =~= Seq::<bool>::empty());
    assert(bits_val(Seq::<bool>::empty()) == 0);
}

/// Bits of a byte string read in order, most significant bit of each byte
/// first (`input_bit`, `input_nbits`, `input_nybble` and their buffer).
pub(crate) struct BitIn<'a> {
    pub(crate) data: &'a [u8],
    pub(crate) byte: usize,
    pub(crate) bit: u32,
}

impl<'a> BitIn<'a> {
    pub(crate) open spec fn bs(&self) -> Seq<bool> {
        byte_bits(self.data@)
    }

    pub(crate) open spec fn at(&self) -> int {
        8 * self.byte + self.bit
    }

    pub(crate) open spec fn wf(&self) -> bool {
        &&& self.bit < 8
        &&& self.byte <= self.data@.len()
        &&& self.byte == self.data@.len() ==> self.bit == 0
    }

    pub(crate) fn read_bit(&mut self) -> (r: Option<u32>)
        requires
            old(self).wf(),
        ensures
            final(self).wf(),
            final(self).data == old(self).data,
            match rd(old(self).bs(), old(self).at(), 1) {
                Some(v) => r matches Some(x) && x as int == v && x < 2 && final(self).at() == old(self).at() + 1,
                None => r is None,
            },
    {
        if self.byte >= self.data.len() {
            return None;
        }
        let ghost p = self.at();
        let byte = self.data[self.byte];
        let bitpos = self.bit;
        let v: u32 = ((byte as u32) >> (7 - bitpos)) & 1;
        proof {
            lemma_byte_bits_at(self.data@, self.byte as int);
            lemma_bits_of_index(byte as u32, 8, (8 - self.bit) as u32);
            lemma_rd_step(self.bs(), p, 0);
            assert(self.bs().subrange(8 * self.byte as int, 8 * self.byte + 8)[self.bit as int] == self.bs()[p]);
            assert(v == 0 || v == 1) by (bit_vector)
                requires
                    v == ((byte as u32) >> (7 - bitpos) as u32) & 1,
            ;
            assert(bits_val(self.bs().subrange(p, p)) == 0) by {
                assert(self.bs().subrange(p, p) =~= Seq::<bool>::empty());
            }
        }
        if self.bit == 7 {
            self.byte = self.byte + 1;
            self.bit = 0;
        } else {
            self.bit = self.bit + 1;
        }
        Some(v)
    }

    pub(crate) fn read_bits(&mut self, n: u32) -> (r: Option<u32>)
        requires
            old(self).wf(),
            n <= 8,
        ensures
            final(self).wf(),
            final(self).data == old(self).data,
            match rd(old(self).bs(), old(self).at(), n as int) {
                Some(v) => r matches Some(x) && x as int == v && x < pow2(n as nat) && final(self).at() == old(self).at() + n,
                None => r is None,
            },
    {
        let ghost p0 = self.at();
        let ghost bs = self.bs();
        let mut acc: u32 = 0;
        let mut k: u32 = 0;
        proof {
            assert(bs.subrange(p0, p0) =~= Seq::<bool>::empty());
            lemma2_to64();
        }
        while k < n
            invariant
                self.wf(),
                self.data == old(self).data,
                bs == self.bs(),
                p0 == old(self).at(),
                k <= n <= 8,
                self.at() == p0 + k,
                p0 + k <= bs.len(),
                acc == bits_val(bs.subrange(p0, p0 + k)),
                acc < pow2(k as nat),
            decreases n - k,
        {
            let b = match self.read_bit() {
                Some(b) => b,
                None => {
                    return None;
                },
            };
            proof {
                lemma_rd_step(bs, p0, k as int);
                vstd::arithmetic::power2::lemma_pow2_unfold((k + 1) as nat);
                vstd::arithmetic::power2::lemma_pow2_strictly_increases((k + 1) as nat, 9);
                lemma2_to64();
            }
            acc = acc * 2 + b;
            k = k + 1;
        }
        Some(acc)
    }

    /// Skip to the next byte boundary (`start_bits`).
    pub(crate) fn align(&mut self)
        requires
            old(self).wf(),
        ensures
            final(self).wf(),
            final(self).data == old(self).data,
            final(self).at() == (old(self).at() + 7) / 8 * 8,
    {
        if self.bit > 0 && self.byte < self.data.len() {
            self.byte = self.byte + 1;
            self.bit = 0;
        }
    }

    /// A Huffman-coded quadtree nybble (`input_huffman`).
    pub(crate) fn read_huff(&mut self) -> (r: Option<u8>)
        requires
            old(self).wf(),
        ensures
            final(self).wf(),
            final(self).data == old(self).data,
            r == (match huff_dec(old(self).bs(), old(self).at()) {
                Some((v, q)) => Some(v as u8),
                None => None,
            }),
            r is Some ==> final(self).at() == huff_dec(old(self).bs(), old(self).at()).unwrap().1,
    {
        let ghost p = self.at();
        let ghost bs = self.bs();
        let c3 = match self.read_bits(3) {
            Some(c) => c,
            None => {
                return None;
            },
        };
        proof {
            lemma2_to64();
        }
        if c3 < 4 {
            let r: u8 = if c3 == 0 { 1 } else if c3 == 1 { 2 } else if c3 == 2 { 4 } else { 8 };
            assert(huff_dec(bs, p) == Some((pow2(c3 as nat) as int, p + 3)));
            assert(r as int == pow2(c3 as nat));
            return Some(r);
        }
        let b4 = match self.read_bit() {
            Some(b) => b,
            None => {
                proof {
                    assert(p + 4 > bs.len());
                }
                return None;
            },
        };
        proof {
            lemma_rd_step(bs, p, 3);
        }
        let c4 = c3 * 2 + b4;
        if c4 < 13 {
            return Some(if c4 == 8 { 3 } else if c4 == 9 { 5 } else if c4 == 10 { 10 } else if c4 == 11 { 12 } else { 15 });
        }
        let b5 = match self.read_bit() {
            Some(b) => b,
            None => {
                return None;
            },
        };
        proof {
            lemma_rd_step(bs, p, 4);
        }
        let c5 = c4 * 2 + b5;
        if c5 < 31 {
            return Some(if c5 == 26 { 6 } else if c5 == 27 { 7 } else if c5 == 28 { 9 } else if c5 == 29 { 11 } else { 13 });
        }
        let b6 = match self.read_bit() {
            Some(b) => b,
            None => {
                return None;
            },
        };
        proof {
            lemma_rd_step(bs, p, 5);
        }
        let c6 = c5 * 2 + b6;
        Some(if c6 == 62 { 0 } else { 14 })
    }

    /// `n` 4-bit values (`input_nnybble`).
    pub(crate) fn read_nybbles(&mut self, n: usize) -> (r: Option<Vec<u8>>)
        requires
            old(self).wf(),
        ensures
            final(self).wf(),
            final(self).data == old(self).data,
            match nybbles(old(self).bs(), old(self).at(), n as int) {
                Some(g) => r matches Some(v) && v@ == g && final(self).at() == old(self).at() + 4 * n,
                None => r is None,
            },
    {
        let ghost p0 = self.at();
        let ghost bs = self.bs();
        let mut out: Vec<u8> = Vec::new();
        let mut k: usize = 0;
        while k < n
            invariant
                self.wf(),
                self.data == old(self).data,
                bs == self.bs(),
                p0 == old(self).at(),
                0 <= p0,
                k <= n,
                self.at() == p0 + 4 * k,
                p0 + 4 * k <= bs.len(),
                out@.len() == k,
                forall|t: int| 0 <= t < k ==> #[trigger] out@[t] == bits_val(bs.subrange(p0 + 4 * t, p0 + 4 * t + 4)) as u8,
            decreases n - k,
        {
            let v = match self.read_bits(4) {
                Some(v) => v,
                None => {
                    return None;
                },
            };
            proof {
                lemma_bits_val_bound(bs.subrange(p0 + 4 * k, p0 + 4 * k + 4));
                lemma2_to64();
            }
            out.push(v as u8);
            k = k + 1;
        }
        proof {
            assert(out@ =~= nybbles(bs, p0, n as int).unwrap());
        }
        Some(out)
    }
}


// ---------------------------------------------------------------------
// Decoding the quadtrees.
// ---------------------------------------------------------------------

/// Why a coded stream cannot be read.
#[derive(Debug, Clone, Copy, PartialEq, Eq)]
pub enum HcFault {
    /// The bytes end before the stream does.
    Short,
    /// The stream does not start with the format's two magic bytes.
    BadFormat,
    /// A bit plane starts with a code other than 0 or 15.
    BadCode,
    /// The nybble after the last quadrant is not zero.
    BadPlanes,
    /// A quadrant has more bit planes than a 32-bit pixel holds.
    TooManyPlanes,
    /// The tile is wider or taller than `2^30` pixels.
    TooLarge,
}

/// Bit `k` of nybble `v`.
pub open spec fn nbit(v: u8, k: int) -> u8 {
    (v >> (k as u8)) & 1
}

/// Which bit of its 2x2 block's nybble pixel `(i, j)` is: 3 for the top
/// left, 2 top right, 1 bottom left, 0 bottom right.
pub open spec fn corner(i: int, j: int) -> int {
    3 - 2 * (i % 2) - (j % 2)
}

/// An `nx` by `ny` grid of bits, each the bit of its block's nybble in the
/// grid `g` (rows of `gy`) (`qtree_copy`).
pub open spec fn spread(g: Seq<u8>, gy: int, nx: int, ny: int) -> Seq<u8> {
    Seq::new(
        (nx * ny) as nat,
        |t: int| nbit(g[(t / ny / 2) * gy + (t % ny) / 2], corner(t / ny, t % ny)),
    )
}

/// The grid `b` with its first `t` non-zero entries, from the last one
/// back, replaced by Huffman-coded nybbles read from bit `p`
/// (`qtree_expand`'s loop); `None` where the bits end first.
pub open spec fn fill(bs: Seq<bool>, p: int, b: Seq<u8>, t: int) -> Option<(Seq<u8>, int)>
    decreases t,
{
    if t <= 0 {
        Some((b, p))
    } else if b[t - 1] == 0 {
        fill(bs, p, b, t - 1)
    } else {
        match huff_dec(bs, p) {
            None => None,
            Some((v, q)) => fill(bs, q, b.update(t - 1, v as u8), t - 1),
        }
    }
}

/// The quadtree of an `nqx` by `ny` quadrant grown from its grid at level
/// `t` down to level 1, one level of nybbles per step.
pub open spec fn expand_levels(bs: Seq<bool>, p: int, g: Seq<u8>, nqx: int, nqy: int, t: nat) -> Option<(Seq<u8>, int)>
    decreases t,
{
    if t <= 1 {
        Some((g, p))
    } else {
        let nx = top_at(nqx, (t - 1) as nat);
        let ny = top_at(nqy, (t - 1) as nat);
        match fill(bs, p, spread(g, top_at(nqy, t), nx, ny), nx * ny) {
            None => None,
            Some((g2, q)) => expand_levels(bs, q, g2, nqx, nqy, (t - 1) as nat),
        }
    }
}

/// One bit plane of an `nqx` by `nqy` quadrant read from bit `p`: the
/// nybbles of its 2x2 blocks, either written out (code 0) or as a quadtree
/// (code 15); and the position after it.
pub open spec fn plane_dec(bs: Seq<bool>, p: int, nqx: int, nqy: int) -> Result<(Seq<u8>, int), HcFault> {
    let n2 = top_at(nqx, 1) * top_at(nqy, 1);
    match rd(bs, p, 4) {
        None => Err(HcFault::Short),
        Some(b) => if b == 0 {
            match nybbles(bs, p + 4, n2) {
                None => Err(HcFault::Short),
                Some(g) => Ok((g, p + 4 + 4 * n2)),
            }
        } else if b != 15 {
            Err(HcFault::BadCode)
        } else {
            match huff_dec(bs, p + 4) {
                None => Err(HcFault::Short),
                Some((v, q)) => match expand_levels(
                    bs,
                    q,
                    seq![v as u8],
                    nqx,
                    nqy,
                    ceil_log2(if nqx < nqy { nqy } else { nqx }),
                ) {
                    None => Err(HcFault::Short),
                    Some((g, r)) => Ok((g, r)),
                },
            }
        },
    }
}

/// The `i32` with only bit `bit` set.
pub open spec fn plane(bit: int) -> i32 {
    if bit == 31 {
        i32::MIN
    } else {
        pow2(bit as nat) as i32
    }
}

/// The pixels of the `nqx` by `nqy` quadrant at `(oi, oj)` whose bit in
/// the plane's block nybbles `g` is set, or-ed with `m` (`qtree_bitins`).
pub open spec fn ins(a: Seq<i32>, ny: int, oi: int, oj: int, nqx: int, nqy: int, g: Seq<u8>, m: i32) -> Seq<i32> {
    Seq::new(
        a.len(),
        |p: int|
            {
                let i = p / ny - oi;
                let j = p % ny - oj;
                if 0 <= i < nqx && 0 <= j < nqy && nbit(g[(i / 2) * top_at(nqy, 1) + j / 2], corner(i, j)) == 1 {
                    a[p] | m
                } else {
                    a[p]
                }
            },
    )
}

/// The `count` bit planes of a quadrant, the highest first
/// (`qtree_decode`).
pub open spec fn quad_dec(
    bs: Seq<bool>,
    p: int,
    a: Seq<i32>,
    ny: int,
    oi: int,
    oj: int,
    nqx: int,
    nqy: int,
    count: int,
) -> Result<(Seq<i32>, int), HcFault>
    decreases count,
{
    if nqx <= 0 || nqy <= 0 || count <= 0 {
        Ok((a, p))
    } else {
        match plane_dec(bs, p, nqx, nqy) {
            Err(f) => Err(f),
            Ok((g, q)) => if count - 1 >= 32 {
                Err(HcFault::TooManyPlanes)
            } else {
                quad_dec(bs, q, ins(a, ny, oi, oj, nqx, nqy, g, plane(count - 1)), ny, oi, oj, nqx, nqy, count - 1)
            },
        }
    }
}

/// The signs of the non-zero values from `k` on, one bit each (1 for
/// negative).
pub open spec fn sign_dec(bs: Seq<bool>, p: int, a: Seq<i32>, k: int, n: int) -> Result<Seq<i32>, HcFault>
    decreases n - k,
{
    if k >= n {
        Ok(a)
    } else if a[k] == 0 {
        sign_dec(bs, p, a, k + 1, n)
    } else {
        match rd(bs, p, 1) {
            None => Err(HcFault::Short),
            Some(b) => sign_dec(bs, p + 1, if b == 1 { a.update(k, ws(0, a[k])) } else { a }, k + 1, n),
        }
    }
}

/// The coefficients of an `nx` by `ny` tile read from bit `p`: its four
/// quadrants with their bit-plane counts `planes`, a zero nybble, then the
/// signs from the next byte (`dodecode`).
pub open spec fn dodecode_spec(bs: Seq<bool>, p: int, a: Seq<i32>, nx: int, ny: int, planes: Seq<u8>) -> Result<Seq<i32>, HcFault> {
    let nx2 = (nx + 1) / 2;
    let ny2 = (ny + 1) / 2;
    match quad_dec(bs, p, a, ny, 0, 0, nx2, ny2, planes[0] as int) {
        Err(f) => Err(f),
        Ok((a1, p1)) => match quad_dec(bs, p1, a1, ny, 0, ny2, nx2, ny / 2, planes[1] as int) {
            Err(f) => Err(f),
            Ok((a2, p2)) => match quad_dec(bs, p2, a2, ny, nx2, 0, nx / 2, ny2, planes[1] as int) {
                Err(f) => Err(f),
                Ok((a3, p3)) => match quad_dec(bs, p3, a3, ny, nx2, ny2, nx / 2, ny / 2, planes[2] as int) {
                    Err(f) => Err(f),
                    Ok((a4, p4)) => match rd(bs, p4, 4) {
                        None => Err(HcFault::Short),
                        Some(v) => if v != 0 {
                            Err(HcFault::BadPlanes)
                        } else {
                            sign_dec(bs, (p4 + 4 + 7) / 8 * 8, a4, 0, nx * ny)
                        },
                    },
                },
            },
        },
    }
}

pub(crate) proof fn lemma_row_bound(i: int, j: int, ny: int, nx: int)
    requires
        0 <= j,
        ny > 0,
        0 <= i,
        i * ny + j < nx * ny,
    ensures
        i < nx,
{
    if i >= nx {
        assert(i * ny >= nx * ny) by (nonlinear_arith)
            requires
                i >= nx,
                ny > 0,
        ;
    }
}

pub(crate) proof fn lemma_top_shift(m: int, k: nat)
    ensures
        top_at(m, k + 1) == top_at((m + 1) / 2, k),
    decreases k,
{
    if k > 0 {
        lemma_top_shift(m, (k - 1) as nat);
        assert(top_at(m, k + 1) == (top_at(m, k) + 1) / 2);
        assert(top_at((m + 1) / 2, k) == (top_at((m + 1) / 2, (k - 1) as nat) + 1) / 2);
    } else {
        assert(top_at(m, 1) == (top_at(m, 0) + 1) / 2);
    }
}

pub(crate) proof fn lemma_top_log(n: int, m: int)
    requires
        1 <= n <= m,
    ensures
        top_at(n, ceil_log2(m)) == 1,
    decreases m,
{
    lemma_top_mono(n, m, ceil_log2(m));
    lemma_top_bounds(n, ceil_log2(m));
    if m > 1 {
        lemma_top_shift(m, ceil_log2((m + 1) / 2));
        lemma_top_log((m + 1) / 2, (m + 1) / 2);
    }
}

pub(crate) fn spread_exec(g: &Vec<u8>, gx: usize, gy: usize, nx: usize, ny: usize) -> (r: Vec<u8>)
    requires
        nx >= 1,
        ny >= 1,
        gx == (nx + 1) / 2,
        gy == (ny + 1) / 2,
        g.len() == gx * gy,
        nx * ny <= usize::MAX,
    ensures
        r@ == spread(g@, gy as int, nx as int, ny as int),
        r.len() == nx * ny,
{
    let ghost target = spread(g@, gy as int, nx as int, ny as int);
    let total = nx * ny;
    let mut out: Vec<u8> = Vec::new();
    let mut t: usize = 0;
    let mut i: usize = 0;
    let mut j: usize = 0;
    while t < total
        invariant
            total == nx * ny,
            nx >= 1,
            ny >= 1,
            gx == (nx + 1) / 2,
            gy == (ny + 1) / 2,
            g.len() == gx * gy,
            t <= total,
            j < ny,
            t == i * ny + j,
            target == spread(g@, gy as int, nx as int, ny as int),
            out@ == target.take(t as int),
        decreases total - t,
    {
        proof {
            lemma_fundamental_div_mod_converse(t as int, ny as int, i as int, j as int);
            lemma_row_bound(i as int, j as int, ny as int, nx as int);
            lemma_block_index((i / 2) as int, (j / 2) as int, gy as int, gx as int, gy as int, gx as int);
        }
        let v = g[(i / 2) * gy + j / 2];
        let k: u8 = (3 - 2 * (i % 2) - (j % 2)) as u8;
        out.push((v >> k) & 1);
        proof {
            assert(out@ =~= target.take(t + 1));
        }
        t = t + 1;
        if j + 1 < ny {
            j = j + 1;
        } else {
            proof {
                assert((i + 1) * ny == i * ny + ny) by (nonlinear_arith);
            }
            j = 0;
            i = i + 1;
        }
    }
    proof {
        assert(out@ =~= target);
    }
    out
}

pub(crate) fn fill_exec(inp: &mut BitIn, b: &mut Vec<u8>) -> (ok: bool)
    requires
        old(inp).wf(),
    ensures
        final(inp).wf(),
        final(inp).data == old(inp).data,
        final(b).len() == old(b).len(),
        match fill(old(inp).bs(), old(inp).at(), old(b)@, old(b).len() as int) {
            Some((g, q)) => ok && final(b)@ == g && final(inp).at() == q,
            None => !ok,
        },
{
    let ghost bs = inp.bs();
    let ghost whole = fill(inp.bs(), inp.at(), b@, b.len() as int);
    let mut t: usize = b.len();
    while t > 0
        invariant
            inp.wf(),
            inp.data == old(inp).data,
            bs == inp.bs(),
            t <= b.len(),
            b.len() == old(b).len(),
            whole == fill(bs, inp.at(), b@, t as int),
            whole == fill(old(inp).bs(), old(inp).at(), old(b)@, old(b).len() as int),
        decreases t,
    {
        let idx = t - 1;
        let ghost p = inp.at();
        let ghost cur = b@;
        if b[idx] != 0 {
            match inp.read_huff() {
                None => {
                    assert(huff_dec(bs, p) is None);
                    assert(fill(bs, p, cur, t as int) is None);
                    return false;
                },
                Some(v) => {
                    b.set(idx, v);
                },
            }
        }
        t = idx;
    }
    true
}

pub(crate) fn expand_exec(inp: &mut BitIn, v0: u8, nqx: usize, nqy: usize, t: u32) -> (r: Option<Vec<u8>>)
    requires
        old(inp).wf(),
        nqx >= 1,
        nqy >= 1,
        nqx * nqy <= usize::MAX,
        top_at(nqx as int, t as nat) == 1,
        top_at(nqy as int, t as nat) == 1,
    ensures
        final(inp).wf(),
        final(inp).data == old(inp).data,
        match expand_levels(old(inp).bs(), old(inp).at(), seq![v0], nqx as int, nqy as int, t as nat) {
            Some((g2, q)) => r matches Some(v) && v@ == g2 && final(inp).at() == q && (t >= 1 ==> v.len()
                == top_at(nqx as int, 1) * top_at(nqy as int, 1)),
            None => r is None,
        },
{
    let ghost bs = inp.bs();
    let mut cur: Vec<u8> = Vec::new();
    cur.push(v0);
    assert(cur@ =~= seq![v0]);
    let ghost g0 = cur@;
    let ghost whole = expand_levels(inp.bs(), inp.at(), g0, nqx as int, nqy as int, t as nat);
    let mut tt: u32 = t;
    while tt > 1
        invariant
            inp.wf(),
            inp.data == old(inp).data,
            bs == inp.bs(),
            nqx >= 1,
            nqy >= 1,
            nqx * nqy <= usize::MAX,
            1 <= tt <= t || tt == t,
            cur.len() == top_at(nqx as int, tt as nat) * top_at(nqy as int, tt as nat),
            whole == expand_levels(bs, inp.at(), cur@, nqx as int, nqy as int, tt as nat),
            whole == expand_levels(old(inp).bs(), old(inp).at(), g0, nqx as int, nqy as int, t as nat),
            g0 == seq![v0],
        decreases tt,
    {
        let nx = top_exec(nqx, tt - 1);
        let ny = top_exec(nqy, tt - 1);
        let gx = top_exec(nqx, tt);
        let gy = top_exec(nqy, tt);
        proof {
            assert(nx * ny <= nqx * nqy) by (nonlinear_arith)
                requires
                    1 <= nx <= nqx,
                    1 <= ny <= nqy,
            ;
        }
        let ghost p = inp.at();
        let mut b = spread_exec(&cur, gx, gy, nx, ny);
        assert(whole == match fill(bs, p, b@, (nx * ny) as int) {
            None => None,
            Some((g2, q)) => expand_levels(bs, q, g2, nqx as int, nqy as int, (tt - 1) as nat),
        });
        if !fill_exec(inp, &mut b) {
            return None;
        }
        cur = b;
        tt = tt - 1;
    }
    assert(t >= 1 ==> tt == 1);
    Some(cur)
}

pub(crate) fn plane_exec(inp: &mut BitIn, nqx: usize, nqy: usize) -> (r: Result<Vec<u8>, HcFault>)
    requires
        old(inp).wf(),
        1 <= nqx <= 0x4000_0000,
        1 <= nqy <= 0x4000_0000,
        nqx * nqy <= usize::MAX,
    ensures
        final(inp).wf(),
        final(inp).data == old(inp).data,
        match plane_dec(old(inp).bs(), old(inp).at(), nqx as int, nqy as int) {
            Ok((g, q)) => r matches Ok(v) && v@ == g && final(inp).at() == q && v.len() == top_at(nqx as int, 1)
                * top_at(nqy as int, 1),
            Err(f) => r == Err::<Vec<u8>, HcFault>(f),
        },
{
    let ghost bs = inp.bs();
    let ghost p = inp.at();
    let nx2 = top_exec(nqx, 1);
    let ny2 = top_exec(nqy, 1);
    proof {
        assert(nx2 * ny2 <= nqx * nqy) by (nonlinear_arith)
            requires
                1 <= nx2 <= nqx,
                1 <= ny2 <= nqy,
        ;
    }
    let code = match inp.read_bits(4) {
        None => {
            return Err(HcFault::Short);
        },
        Some(c) => c,
    };
    if code == 0 {
        match inp.read_nybbles(nx2 * ny2) {
            None => Err(HcFault::Short),
            Some(g) => Ok(g),
        }
    } else if code != 15 {
        Err(HcFault::BadCode)
    } else {
        let v = match inp.read_huff() {
            None => {
                return Err(HcFault::Short);
            },
            Some(v) => v,
        };
        let nmax = if nqx < nqy { nqy } else { nqx };
        let log2n = levels_of(nmax as u32);
        proof {
            lemma_top_log(nqx as int, nmax as int);
            lemma_top_log(nqy as int, nmax as int);
            if log2n == 0 {
                assert(nqx == 1 && nqy == 1);
            }
        }
        match expand_exec(inp, v, nqx, nqy, log2n) {
            None => Err(HcFault::Short),
            Some(g2) => Ok(g2),
        }
    }
}


fn plane_mask(bit: u32) -> (r: i32)
    requires
        bit < 32,
    ensures
        r == plane(bit as int),
{
    if bit == 31 {
        i32::MIN
    } else {
        p2_exec(bit)
    }
}

fn ins_exec(
    a: &Vec<i32>,
    nx: usize,
    ny: usize,
    oi: usize,
    oj: usize,
    nqx: usize,
    nqy: usize,
    g: &Vec<u8>,
    m: i32,
) -> (r: Vec<i32>)
    requires
        nqx >= 1,
        nqy >= 1,
        oi + nqx <= nx,
        oj + nqy <= ny,
        nx * ny <= a.len(),
        g.len() == top_at(nqx as int, 1) * top_at(nqy as int, 1),
    ensures
        r@ == ins(a@, ny as int, oi as int, oj as int, nqx as int, nqy as int, g@, m),
{
    let ghost target = ins(a@, ny as int, oi as int, oj as int, nqx as int, nqy as int, g@, m);
    let gx = top_exec(nqx, 1);
    let gy = top_exec(nqy, 1);
    let mut out: Vec<i32> = Vec::new();
    let mut p: usize = 0;
    let mut i: usize = 0;
    let mut j: usize = 0;
    while p < a.len()
        invariant
            p <= a.len(),
            nqx >= 1,
            nqy >= 1,
            oi + nqx <= nx,
            oj + nqy <= ny,
            nx * ny <= a.len(),
            gx == top_at(nqx as int, 1),
            gy == top_at(nqy as int, 1),
            g.len() == gx * gy,
            j < ny,
            p == i * ny + j,
            target == ins(a@, ny as int, oi as int, oj as int, nqx as int, nqy as int, g@, m),
            out@ == target.take(p as int),
        decreases a.len() - p,
    {
        proof {
            lemma_fundamental_div_mod_converse(p as int, ny as int, i as int, j as int);
        }
        let v = if i >= oi && i - oi < nqx && j >= oj && j - oj < nqy {
            let qi = i - oi;
            let qj = j - oj;
            proof {
                reveal_with_fuel(top_at, 2);
                lemma_block_index((qi / 2) as int, (qj / 2) as int, gy as int, gx as int, gy as int, gx as int);
            }
            let nyb = g[(qi / 2) * gy + qj / 2];
            let k: u8 = (3 - 2 * (qi % 2) - (qj % 2)) as u8;
            if (nyb >> k) & 1 == 1 {
                a[p] | m
            } else {
                a[p]
            }
        } else {
            a[p]
        };
        out.push(v);
        proof {
            assert(out@ =~= target.take(p + 1));
        }
        p = p + 1;
        if j + 1 < ny {
            j = j + 1;
        } else {
            proof {
                assert((i + 1) * ny == i * ny + ny) by (nonlinear_arith);
            }
            j = 0;
            i = i + 1;
        }
    }
    proof {
        assert(out@ =~= target);
    }
    out
}

fn quad_exec(
    inp: &mut BitIn,
    a: &Vec<i32>,
    nx: usize,
    ny: usize,
    oi: usize,
    oj: usize,
    nqx: usize,
    nqy: usize,
    count: u8,
) -> (r: Result<Vec<i32>, HcFault>)
    requires
        old(inp).wf(),
        oi + nqx <= nx,
        oj + nqy <= ny,
        nqx <= 0x4000_0000,
        nqy <= 0x4000_0000,
        nx * ny <= a.len(),
    ensures
        final(inp).wf(),
        final(inp).data == old(inp).data,
        match quad_dec(
            old(inp).bs(),
            old(inp).at(),
            a@,
            ny as int,
            oi as int,
            oj as int,
            nqx as int,
            nqy as int,
            count as int,
        ) {
            Ok((a2, q)) => r matches Ok(v) && v@ == a2 && final(inp).at() == q && v.len() == a.len(),
            Err(f) => r == Err::<Vec<i32>, HcFault>(f),
        },
{
    let ghost bs = inp.bs();
    let ghost whole = quad_dec(
        inp.bs(),
        inp.at(),
        a@,
        ny as int,
        oi as int,
        oj as int,
        nqx as int,
        nqy as int,
        count as int,
    );
    let mut cur: Vec<i32> = a.clone();
    assert(cur@ =~= a@);
    if nqx == 0 || nqy == 0 {
        return Ok(cur);
    }
    proof {
        assert(nqx * nqy <= nx * ny) by (nonlinear_arith)
            requires
                1 <= nqx <= nx,
                1 <= nqy <= ny,
        ;
    }
    let mut c: u32 = count as u32;
    while c > 0
        invariant
            inp.wf(),
            inp.data == old(inp).data,
            bs == inp.bs(),
            oi + nqx <= nx,
            oj + nqy <= ny,
            1 <= nqx <= 0x4000_0000,
            1 <= nqy <= 0x4000_0000,
            nqx * nqy <= nx * ny,
            nx * ny <= cur.len(),
            cur.len() == a.len(),
            whole == quad_dec(bs, inp.at(), cur@, ny as int, oi as int, oj as int, nqx as int, nqy as int, c as int),
            whole == quad_dec(
                old(inp).bs(),
                old(inp).at(),
                a@,
                ny as int,
                oi as int,
                oj as int,
                nqx as int,
                nqy as int,
                count as int,
            ),
        decreases c,
    {
        let g = match plane_exec(inp, nqx, nqy) {
            Ok(g) => g,
            Err(f) => {
                return Err(f);
            },
        };
        if c - 1 >= 32 {
            return Err(HcFault::TooManyPlanes);
        }
        let m = plane_mask(c - 1);
        cur = ins_exec(&cur, nx, ny, oi, oj, nqx, nqy, &g, m);
        c = c - 1;
    }
    Ok(cur)
}

fn sign_exec(inp: &mut BitIn, a: &mut Vec<i32>, n: usize) -> (r: Result<(), HcFault>)
    requires
        old(inp).wf(),
        n <= old(a).len(),
    ensures
        final(inp).wf(),
        final(inp).data == old(inp).data,
        final(a).len() == old(a).len(),
        match sign_dec(old(inp).bs(), old(inp).at(), old(a)@, 0, n as int) {
            Ok(a2) => r is Ok && final(a)@ == a2,
            Err(f) => r == Err::<(), HcFault>(f),
        },
{
    let ghost bs = inp.bs();
    let ghost whole = sign_dec(inp.bs(), inp.at(), a@, 0, n as int);
    let mut k: usize = 0;
    while k < n
        invariant
            inp.wf(),
            inp.data == old(inp).data,
            bs == inp.bs(),
            k <= n <= a.len(),
            a.len() == old(a).len(),
            whole == sign_dec(bs, inp.at(), a@, k as int, n as int),
            whole == sign_dec(old(inp).bs(), old(inp).at(), old(a)@, 0, n as int),
        decreases n - k,
    {
        if a[k] != 0 {
            match inp.read_bit() {
                None => {
                    return Err(HcFault::Short);
                },
                Some(b) => {
                    if b == 1 {
                        let v = a[k];
                        a.set(k, 0i32.wrapping_sub(v));
                    }
                },
            }
        }
        k = k + 1;
    }
    Ok(())
}

#[verifier::rlimit(40)]
fn dodecode_exec(inp: &mut BitIn, a: &Vec<i32>, nx: usize, ny: usize, planes: &[u8]) -> (r: Result<Vec<i32>, HcFault>)
    requires
        old(inp).wf(),
        1 <= nx <= 0x4000_0000,
        1 <= ny <= 0x4000_0000,
        nx * ny <= a.len(),
        planes@.len() == 3,
    ensures
        final(inp).data == old(inp).data,
        r matches Ok(v) ==> v.len() == a.len(),
        match dodecode_spec(old(inp).bs(), old(inp).at(), a@, nx as int, ny as int, planes@) {
            Ok(a2) => r matches Ok(v) && v@ == a2,
            Err(f) => r == Err::<Vec<i32>, HcFault>(f),
        },
{
    let nx2 = nx / 2 + nx % 2;
    let ny2 = ny / 2 + ny % 2;
    let a1 = match quad_exec(inp, a, nx, ny, 0, 0, nx2, ny2, planes[0]) {
        Ok(v) => v,
        Err(f) => {
            return Err(f);
        },
    };
    let a2 = match quad_exec(inp, &a1, nx, ny, 0, ny2, nx2, ny / 2, planes[1]) {
        Ok(v) => v,
        Err(f) => {
            return Err(f);
        },
    };
    let a3 = match quad_exec(inp, &a2, nx, ny, nx2, 0, nx / 2, ny2, planes[1]) {
        Ok(v) => v,
        Err(f) => {
            return Err(f);
        },
    };
    let mut a4 = match quad_exec(inp, &a3, nx, ny, nx2, ny2, nx / 2, ny / 2, planes[2]) {
        Ok(v) => v,
        Err(f) => {
            return Err(f);
        },
    };
    let z = match inp.read_bits(4) {
        None => {
            return Err(HcFault::Short);
        },
        Some(z) => z,
    };
    if z != 0 {
        return Err(HcFault::BadPlanes);
    }
    inp.align();
    match sign_exec(inp, &mut a4, nx * ny) {
        Ok(()) => Ok(a4),
        Err(f) => Err(f),
    }
}


// ---------------------------------------------------------------------
// The stream: header, quadtrees, signs.
// ---------------------------------------------------------------------

/// The coefficients of a coded stream `c` for a buffer of `na` pixels,
/// with the tile's `nx`, `ny` and scale (`decode`): two magic bytes
/// `DD 99`, `nx`, `ny` and the scale as big-endian 32-bit integers, the
/// overall sum as a 64-bit one (of which the pixel keeps the low 32 bits),
/// three bit-plane counts, then the coded quadrants from byte 25.
pub open spec fn hc_decode(c: Seq<u8>, na: int) -> Result<(Seq<i32>, int, int, int), HcFault> {
    match hc_header(c, na) {
        Err(f) => Err(f),
        Ok((nx, ny, scale)) => match dodecode_spec(
            byte_bits(c),
            200,
            Seq::new(na as nat, |k: int| 0i32),
            nx,
            ny,
            c.subrange(22, 25),
        ) {
            Err(f) => Err(f),
            Ok(a) => Ok((a.update(0, be_signed(c.subrange(18, 22)) as i32), nx, ny, scale)),
        },
    }
}

/// The tile's `nx`, `ny` and scale from the first 25 bytes of a coded
/// stream for a buffer of `na` pixels.
pub open spec fn hc_header(c: Seq<u8>, na: int) -> Result<(int, int, int), HcFault> {
    if c.len() < 2 {
        Err(HcFault::Short)
    } else if c[0] != 0xDD || c[1] != 0x99 {
        Err(HcFault::BadFormat)
    } else if c.len() < 14 {
        Err(HcFault::Short)
    } else {
        let nx = be_signed(c.subrange(2, 6));
        let ny = be_signed(c.subrange(6, 10));
        let scale = be_signed(c.subrange(10, 14));
        if nx <= 0 || ny <= 0 || nx * ny > na {
            Err(HcFault::Short)
        } else if nx > 0x4000_0000 || ny > 0x4000_0000 {
            Err(HcFault::TooLarge)
        } else if c.len() < 25 {
            Err(HcFault::Short)
        } else {
            Ok((nx, ny, scale))
        }
    }
}

/// The pixels of a coded stream, with `ny`, `nx` and the scale
/// (`decompress`): the coefficients multiplied back by the scale, then the
/// inverse transform.
pub open spec fn hc_decompress(c: Seq<u8>, na: int) -> Result<(Seq<i32>, int, int, int), HcFault> {
    match hc_decode(c, na) {
        Err(f) => Err(f),
        Ok((a, nx, ny, scale)) => Ok((hinv_spec(undigitize_spec(a, nx * ny, scale as i32), nx, ny), ny, nx, scale)),
    }
}

/// The error stack message of each fault.
pub open spec fn hc_messages(f: HcFault) -> Seq<Seq<char>> {
    match f {
        HcFault::BadFormat => seq!["bad file format"@],
        HcFault::BadCode => seq!["qtree_decode: bad format code"@],
        HcFault::BadPlanes => seq!["dodecode: bad bit plane values"@],
        _ => Seq::empty(),
    }
}

pub(crate) fn hc_error(f: HcFault) -> (e: FitsError)
    ensures
        e.status == DATA_DECOMPRESSION_ERR,
        e.message_list() == hc_messages(f),
{
    match f {
        HcFault::BadFormat => FitsError::with_message(DATA_DECOMPRESSION_ERR, "bad file format"),
        HcFault::BadCode => FitsError::with_message(DATA_DECOMPRESSION_ERR, "qtree_decode: bad format code"),
        HcFault::BadPlanes => FitsError::with_message(DATA_DECOMPRESSION_ERR, "dodecode: bad bit plane values"),
        _ => FitsError::new(DATA_DECOMPRESSION_ERR),
    }
}

/// Big-endian 32-bit integer at `start`.
pub(crate) fn read_i32(c: &[u8], start: usize) -> (r: i32)
    requires
        start + 4 <= c@.len(),
    ensures
        r as int == be_signed(c@.subrange(start as int, start + 4)),
{
    let v = be_signed_at(c, start, 4);
    proof {
        reveal_with_fuel(pow256, 5);
        lemma_be_value_bound(c@.subrange(start as int, start + 4));
    }
    v as i32
}

pub(crate) fn decode_header(input: &[u8], na: usize) -> (r: Result<(i32, i32, i32), HcFault>)
    ensures
        match hc_header(input@, na as int) {
            Ok((nx, ny, sc)) => r == Ok::<(i32, i32, i32), HcFault>((nx as i32, ny as i32, sc as i32)) && 1 <= nx
                <= 0x4000_0000 && 1 <= ny <= 0x4000_0000 && nx * ny <= na && input@.len() >= 25 && sc == sc as i32,
            Err(f) => r == Err::<(i32, i32, i32), HcFault>(f),
        },
{
    if input.len() < 2 {
        return Err(HcFault::Short);
    }
    if input[0] != 0xDD || input[1] != 0x99 {
        return Err(HcFault::BadFormat);
    }
    if input.len() < 14 {
        return Err(HcFault::Short);
    }
    let nx = read_i32(input, 2);
    let ny = read_i32(input, 6);
    let scale = read_i32(input, 10);
    if nx <= 0 || ny <= 0 {
        return Err(HcFault::Short);
    }
    proof {
        assert((nx as u128) * (ny as u128) <= 0x4000_0000_0000_0000) by (nonlinear_arith)
            requires
                nx <= 0x7fff_ffff,
                ny <= 0x7fff_ffff,
                nx > 0,
                ny > 0,
        ;
    }
    if (nx as u128) * (ny as u128) > na as u128 {
        return Err(HcFault::Short);
    }
    if nx > 0x4000_0000 || ny > 0x4000_0000 {
        return Err(HcFault::TooLarge);
    }
    if input.len() < 25 {
        return Err(HcFault::Short);
    }
    Ok((nx, ny, scale))
}

fn decode(input: &[u8], na: usize) -> (r: Result<(Vec<i32>, i32, i32, i32), HcFault>)
    ensures
        match hc_decode(input@, na as int) {
            Ok((a, nx, ny, sc)) => r matches Ok((v, x, y, s)) && v@ == a && x == nx && y == ny && s == sc,
            Err(f) => r == Err::<(Vec<i32>, i32, i32, i32), HcFault>(f),
        },
        r matches Ok((v, x, y, s)) ==> 1 <= x <= 0x4000_0000 && 1 <= y <= 0x4000_0000 && x * y <= v.len(),
{
    let (nx, ny, scale) = match decode_header(input, na) {
        Ok(h) => h,
        Err(f) => {
            return Err(f);
        },
    };
    let nxu = nx as usize;
    let nyu = ny as usize;
    let mut a: Vec<i32> = Vec::new();
    let mut k: usize = 0;
    while k < na
        invariant
            k <= na,
            a@ == Seq::new(k as nat, |t: int| 0i32),
        decreases na - k,
    {
        a.push(0);
        k = k + 1;
        assert(a@ =~= Seq::new(k as nat, |t: int| 0i32));
    }
    let inp_ghost = Ghost(byte_bits(input@));
    let mut inp = BitIn { data: input, byte: 25, bit: 0 };
    let planes = slice_subrange(input, 22, 25);
    let mut out = match dodecode_exec(&mut inp, &a, nxu, nyu, planes) {
        Ok(v) => v,
        Err(f) => {
            return Err(f);
        },
    };
    proof {
        assert(nxu * nyu >= 1) by (nonlinear_arith)
            requires
                nxu >= 1,
                nyu >= 1,
        ;
    }
    let sum = read_i32(input, 18);
    out.set(0, sum);
    Ok((out, nx, ny, scale))
}

/// Decompress into `i32` pixels. Returns `(pixels, ny, nx, scale)` where
/// `ny` is the fastest axis; `na` is the number of pixels the tile may
/// have, and the pixel buffer has that many entries.
pub fn decompress(input: &[u8], na: usize, smooth: bool) -> (r: Result<(Vec<i32>, i32, i32, i32), FitsError>)
    ensures
        match hc_decompress(input@, na as int) {
            Ok((a, ny, nx, sc)) => r matches Ok((v, y, x, s)) && v@ == a && y == ny && x == nx && s == sc,
            Err(f) => r matches Err(e) && e.status == DATA_DECOMPRESSION_ERR && e.message_list() == hc_messages(f),
        },
{
    let (mut a, nx, ny, scale) = match decode(input, na) {
        Ok(t) => t,
        Err(f) => {
            return Err(hc_error(f));
        },
    };
    let nxu = nx as usize;
    let nyu = ny as usize;
    undigitize(&mut a, nxu * nyu, scale);
    hinv(&mut a, nxu, nyu);
    Ok((a, ny, nx, scale))
}


// ---------------------------------------------------------------------
// Coding the quadtrees.
// ---------------------------------------------------------------------

/// Bit `bit` of `v`.
pub open spec fn cbit(v: i32, bit: u32) -> int {
    ((v >> bit) & 1) as int
}

/// Entry `(x, y)` of the quadrant at `(oi, oj)`.
pub open spec fn qel(m: Seq<i32>, ny: int, oi: int, oj: int, x: int, y: int) -> i32 {
    el(m, ny, oi + x, oj + y)
}

/// The nybble of block `(bi, bj)` of a quadrant in bit plane `bit`: the
/// block's top left bit as 8, top right 4, bottom left 2, bottom right 1,
/// missing pixels counting as 0 (`qtree_onebit`).
pub open spec fn onebit_at(m: Seq<i32>, ny: int, oi: int, oj: int, nqx: int, nqy: int, bit: u32, bi: int, bj: int) -> int {
    let i = 2 * bi;
    let j = 2 * bj;
    8 * cbit(qel(m, ny, oi, oj, i, j), bit) + (if j + 1 < nqy {
        4 * cbit(qel(m, ny, oi, oj, i, j + 1), bit)
    } else {
        0
    }) + (if i + 1 < nqx {
        2 * cbit(qel(m, ny, oi, oj, i + 1, j), bit)
    } else {
        0
    }) + (if i + 1 < nqx && j + 1 < nqy {
        cbit(qel(m, ny, oi, oj, i + 1, j + 1), bit)
    } else {
        0
    })
}

/// 1 where entry `(x, y)` of a `gx` by `gy` grid exists and is not zero.
pub open spec fn nz(g: Seq<u8>, gx: int, gy: int, x: int, y: int) -> int {
    if x < gx && y < gy && g[x * gy + y] != 0 {
        1
    } else {
        0
    }
}

/// The next quadtree level of a `gx` by `gy` grid: one nybble per 2x2
/// block, flagging its non-zero entries (`qtree_reduce`).
pub open spec fn reduce(g: Seq<u8>, gx: int, gy: int) -> Seq<u8> {
    let hy = (gy + 1) / 2;
    Seq::new(
        (((gx + 1) / 2) * hy) as nat,
        |t: int|
            {
                let x = 2 * (t / hy);
                let y = 2 * (t % hy);
                (8 * nz(g, gx, gy, x, y) + 4 * nz(g, gx, gy, x, y + 1) + 2 * nz(g, gx, gy, x + 1, y) + nz(
                    g,
                    gx,
                    gy,
                    x + 1,
                    y + 1,
                )) as u8
            },
    )
}

/// Level `l` of the quadtree of bit plane `bit` of a quadrant: level 0
/// holds the blocks' nybbles, each further level reduces the one below.
pub open spec fn qlevel(m: Seq<i32>, ny: int, oi: int, oj: int, nqx: int, nqy: int, bit: u32, l: nat) -> Seq<u8>
    decreases l,
{
    if l == 0 {
        let gy = top_at(nqy, 1);
        Seq::new(
            (top_at(nqx, 1) * gy) as nat,
            |t: int| onebit_at(m, ny, oi, oj, nqx, nqy, bit, t / gy, t % gy) as u8,
        )
    } else {
        reduce(qlevel(m, ny, oi, oj, nqx, nqy, bit, (l - 1) as nat), top_at(nqx, l), top_at(nqy, l))
    }
}

/// The non-zero entries of a grid, in order.
pub open spec fn nonzeros(g: Seq<u8>) -> Seq<u8>
    decreases g.len(),
{
    if g.len() == 0 {
        Seq::empty()
    } else {
        nonzeros(g.drop_last()) + if g.last() != 0 {
            seq![g.last()]
        } else {
            Seq::empty()
        }
    }
}

/// The entries Huffman-coded for the first `l` levels: each level's
/// non-zero entries, level 0 first.
pub open spec fn qcodes(m: Seq<i32>, ny: int, oi: int, oj: int, nqx: int, nqy: int, bit: u32, l: nat) -> Seq<u8>
    decreases l,
{
    if l == 0 {
        Seq::empty()
    } else {
        qcodes(m, ny, oi, oj, nqx, nqy, bit, (l - 1) as nat) + nonzeros(
            qlevel(m, ny, oi, oj, nqx, nqy, bit, (l - 1) as nat),
        )
    }
}

/// Huffman code of nybble `v` (`HUFF_CODE`).
pub open spec fn hcode(v: int) -> int {
    if v == 0 { 0x3e } else if v == 1 { 0x00 } else if v == 2 { 0x01 } else if v == 3 { 0x08 }
    else if v == 4 { 0x02 } else if v == 5 { 0x09 } else if v == 6 { 0x1a } else if v == 7 { 0x1b }
    else if v == 8 { 0x03 } else if v == 9 { 0x1c } else if v == 10 { 0x0a } else if v == 11 { 0x1d }
    else if v == 12 { 0x0b } else if v == 13 { 0x1e } else if v == 14 { 0x3f } else { 0x0c }
}

/// Length in bits of the Huffman code of nybble `v` (`HUFF_NCODE`).
pub open spec fn hlen(v: int) -> int {
    if v == 0 || v == 14 { 6 } else if v == 1 || v == 2 || v == 4 || v == 8 { 3 }
    else if v == 3 || v == 5 || v == 10 || v == 12 || v == 15 { 4 } else { 5 }
}

/// Total length of the codes of `codes`.
pub open spec fn code_len(codes: Seq<u8>) -> int
    decreases codes.len(),
{
    if codes.len() == 0 {
        0
    } else {
        code_len(codes.drop_last()) + hlen(codes.last() as int)
    }
}

/// The codes of `codes`, the last one first, each most significant bit
/// first: the bits the coder gathered least significant first, read back
/// from the end.
pub open spec fn rev_code_bits(codes: Seq<u8>) -> Seq<bool>
    decreases codes.len(),
{
    if codes.len() == 0 {
        Seq::empty()
    } else {
        bits_of(hcode(codes.last() as int), hlen(codes.last() as int)) + rev_code_bits(codes.drop_last())
    }
}

/// The entries of a grid as 4-bit values (`output_nnybble`).
pub open spec fn nyb_bits(g: Seq<u8>) -> Seq<bool>
    decreases g.len(),
{
    if g.len() == 0 {
        Seq::empty()
    } else {
        nyb_bits(g.drop_last()) + bits_of(g.last() as int, 4)
    }
}

/// Number of quadtree levels of an `nqx` by `nqy` quadrant.
pub open spec fn nlevels(nqx: int, nqy: int) -> nat {
    let k = ceil_log2(if nqx < nqy { nqy } else { nqx });
    if k == 0 {
        1
    } else {
        k
    }
}

/// Bit plane `bit` of a quadrant as coded (`qtree_encode`'s loop body):
/// code 15 and its quadtree, unless the quadtree's codes would fill half a
/// byte per block, in which case code 0 and the blocks' nybbles written
/// out.
pub open spec fn plane_bits(m: Seq<i32>, ny: int, oi: int, oj: int, nqx: int, nqy: int, bit: u32) -> Seq<bool> {
    let codes = qcodes(m, ny, oi, oj, nqx, nqy, bit, nlevels(nqx, nqy));
    let bmax = (top_at(nqx, 1) * top_at(nqy, 1) + 1) / 2;
    if code_len(codes) >= 8 * bmax {
        bits_of(0, 4) + nyb_bits(qlevel(m, ny, oi, oj, nqx, nqy, bit, 0))
    } else {
        bits_of(15, 4) + if codes.len() == 0 {
            bits_of(hcode(0), 6)
        } else {
            rev_code_bits(codes)
        }
    }
}

/// The `count` bit planes of a quadrant as coded, the highest first
/// (`qtree_encode`).
pub open spec fn quad_bits(m: Seq<i32>, ny: int, oi: int, oj: int, nqx: int, nqy: int, count: int) -> Seq<bool>
    decreases count,
{
    if nqx <= 0 || nqy <= 0 || count <= 0 {
        Seq::empty()
    } else {
        plane_bits(m, ny, oi, oj, nqx, nqy, (count - 1) as u32) + quad_bits(m, ny, oi, oj, nqx, nqy, count - 1)
    }
}

fn cbit_exec(v: i32, bit: u32) -> (r: u8)
    requires
        bit < 32,
    ensures
        r as int == cbit(v, bit),
        r <= 1,
{
    let b = (v >> bit) & 1;
    assert(b == 0 || b == 1) by (bit_vector)
        requires
            b == (v >> bit) & 1,
    ;
    b as u8
}

fn qel_exec(m: &Vec<i32>, nx: usize, ny: usize, oi: usize, oj: usize, x: usize, y: usize) -> (r: i32)
    requires
        oi + x < nx,
        oj + y < ny,
        nx * ny <= m.len(),
    ensures
        r == qel(m@, ny as int, oi as int, oj as int, x as int, y as int),
{
    get_el(m, ny, nx, oi + x, oj + y)
}

fn level0_exec(m: &Vec<i32>, nx: usize, ny: usize, oi: usize, oj: usize, nqx: usize, nqy: usize, bit: u32) -> (r: Vec<u8>)
    requires
        1 <= nqx,
        1 <= nqy,
        oi + nqx <= nx,
        oj + nqy <= ny,
        nx * ny <= m.len(),
        bit < 32,
    ensures
        r@ == qlevel(m@, ny as int, oi as int, oj as int, nqx as int, nqy as int, bit, 0),
        r.len() == top_at(nqx as int, 1) * top_at(nqy as int, 1),
        forall|k: int| 0 <= k < r.len() ==> #[trigger] r@[k] < 16,
{
    let ghost target = qlevel(m@, ny as int, oi as int, oj as int, nqx as int, nqy as int, bit, 0);
    let gx = top_exec(nqx, 1);
    let gy = top_exec(nqy, 1);
    proof {
        reveal_with_fuel(top_at, 2);
        assert(gx * gy <= nqx * nqy) by (nonlinear_arith)
            requires
                1 <= gx <= nqx,
                1 <= gy <= nqy,
        ;
        assert(nqx * nqy <= nx * ny) by (nonlinear_arith)
            requires
                1 <= nqx <= nx,
                1 <= nqy <= ny,
        ;
    }
    let total = gx * gy;
    let mut out: Vec<u8> = Vec::new();
    let mut t: usize = 0;
    let mut bi: usize = 0;
    let mut bj: usize = 0;
    while t < total
        invariant
            total == gx * gy,
            gx == top_at(nqx as int, 1),
            gy == top_at(nqy as int, 1),
            gx == (nqx + 1) / 2,
            gy == (nqy + 1) / 2,
            1 <= nqx,
            1 <= nqy,
            oi + nqx <= nx,
            oj + nqy <= ny,
            nx * ny <= m.len(),
            bit < 32,
            t <= total,
            bj < gy,
            t == bi * gy + bj,
            target == qlevel(m@, ny as int, oi as int, oj as int, nqx as int, nqy as int, bit, 0),
            out@ == target.take(t as int),
            forall|k: int| 0 <= k < out.len() ==> #[trigger] out@[k] < 16,
        decreases total - t,
    {
        proof {
            lemma_fundamental_div_mod_converse(t as int, gy as int, bi as int, bj as int);
            lemma_row_bound(bi as int, bj as int, gy as int, gx as int);
        }
        let i = 2 * bi;
        let j = 2 * bj;
        let mut v: u8 = 8 * cbit_exec(qel_exec(m, nx, ny, oi, oj, i, j), bit);
        if j + 1 < nqy {
            v = v + 4 * cbit_exec(qel_exec(m, nx, ny, oi, oj, i, j + 1), bit);
        }
        if i + 1 < nqx {
            v = v + 2 * cbit_exec(qel_exec(m, nx, ny, oi, oj, i + 1, j), bit);
        }
        if i + 1 < nqx && j + 1 < nqy {
            v = v + cbit_exec(qel_exec(m, nx, ny, oi, oj, i + 1, j + 1), bit);
        }
        out.push(v);
        proof {
            assert(out@ =~= target.take(t + 1));
        }
        t = t + 1;
        if bj + 1 < gy {
            bj = bj + 1;
        } else {
            proof {
                assert((bi + 1) * gy == bi * gy + gy) by (nonlinear_arith);
            }
            bj = 0;
            bi = bi + 1;
        }
    }
    proof {
        assert(out@ =~= target);
    }
    out
}

pub(crate) fn nz_exec(g: &Vec<u8>, gx: usize, gy: usize, x: usize, y: usize) -> (r: u8)
    requires
        g.len() == gx * gy,
    ensures
        r as int == nz(g@, gx as int, gy as int, x as int, y as int),
{
    if x < gx && y < gy {
        proof {
            lemma_block_index(x as int, y as int, gy as int, gx as int, gy as int, gx as int);
        }
        if g[x * gy + y] != 0 {
            1
        } else {
            0
        }
    } else {
        0
    }
}

pub(crate) fn reduce_exec(g: &Vec<u8>, gx: usize, gy: usize) -> (r: Vec<u8>)
    requires
        gx >= 1,
        gy >= 1,
        g.len() == gx * gy,
    ensures
        r@ == reduce(g@, gx as int, gy as int),
        r.len() == ((gx + 1) / 2) * ((gy + 1) / 2),
        forall|k: int| 0 <= k < r.len() ==> #[trigger] r@[k] < 16,
{
    let ghost target = reduce(g@, gx as int, gy as int);
    let hx = gx / 2 + gx % 2;
    let hy = gy / 2 + gy % 2;
    proof {
        assert(hx * hy <= gx * gy) by (nonlinear_arith)
            requires
                1 <= hx <= gx,
                1 <= hy <= gy,
        ;
    }
    let total = hx * hy;
    let mut out: Vec<u8> = Vec::new();
    let mut t: usize = 0;
    let mut bi: usize = 0;
    let mut bj: usize = 0;
    while t < total
        invariant
            total == hx * hy,
            hx == (gx + 1) / 2,
            hy == (gy + 1) / 2,
            gx >= 1,
            gy >= 1,
            g.len() == gx * gy,
            t <= total,
            bj < hy,
            t == bi * hy + bj,
            target == reduce(g@, gx as int, gy as int),
            out@ == target.take(t as int),
            forall|k: int| 0 <= k < out.len() ==> #[trigger] out@[k] < 16,
        decreases total - t,
    {
        proof {
            lemma_fundamental_div_mod_converse(t as int, hy as int, bi as int, bj as int);
            lemma_row_bound(bi as int, bj as int, hy as int, hx as int);
        }
        let x = 2 * bi;
        let y = 2 * bj;
        let v: u8 = 8 * nz_exec(g, gx, gy, x, y) + 4 * nz_exec(g, gx, gy, x, y + 1) + 2 * nz_exec(g, gx, gy, x + 1, y)
            + nz_exec(g, gx, gy, x + 1, y + 1);
        out.push(v);
        proof {
            assert(out@ =~= target.take(t + 1));
        }
        t = t + 1;
        if bj + 1 < hy {
            bj = bj + 1;
        } else {
            proof {
                assert((bi + 1) * hy == bi * hy + hy) by (nonlinear_arith);
            }
            bj = 0;
            bi = bi + 1;
        }
    }
    proof {
        assert(out@ =~= target);
    }
    out
}


pub(crate) fn huff_code(v: u8) -> (r: (u32, u32))
    requires
        v < 16,
    ensures
        r.0 == hcode(v as int),
        r.1 == hlen(v as int),
        1 <= r.1 <= 6,
{
    match v {
        0 => (0x3e, 6),
        1 => (0x00, 3),
        2 => (0x01, 3),
        3 => (0x08, 4),
        4 => (0x02, 3),
        5 => (0x09, 4),
        6 => (0x1a, 5),
        7 => (0x1b, 5),
        8 => (0x03, 3),
        9 => (0x1c, 5),
        10 => (0x0a, 4),
        11 => (0x1d, 5),
        12 => (0x0b, 4),
        13 => (0x1e, 5),
        14 => (0x3f, 6),
        _ => (0x0c, 4),
    }
}

pub(crate) proof fn lemma_code_len_bound(codes: Seq<u8>)
    requires
        forall|k: int| 0 <= k < codes.len() ==> #[trigger] codes[k] < 16,
    ensures
        0 <= code_len(codes) <= 6 * codes.len(),
    decreases codes.len(),
{
    if codes.len() > 0 {
        lemma_code_len_bound(codes.drop_last());
    }
}

pub(crate) proof fn lemma_code_len_concat(a: Seq<u8>, b: Seq<u8>)
    ensures
        code_len(a + b) == code_len(a) + code_len(b),
    decreases b.len(),
{
    if b.len() == 0 {
        assert(a + b =~= a);
    } else {
        lemma_code_len_concat(a, b.drop_last());
        assert((a + b).drop_last() =~= a + b.drop_last());
        assert((a + b).last() == b.last());
    }
}

pub(crate) proof fn lemma_code_len_nonneg(a: Seq<u8>)
    ensures
        code_len(a) >= 0,
    decreases a.len(),
{
    if a.len() > 0 {
        lemma_code_len_nonneg(a.drop_last());
    }
}

proof fn lemma_qcodes_grow(m: Seq<i32>, ny: int, oi: int, oj: int, nqx: int, nqy: int, bit: u32, l: nat, l2: nat)
    requires
        l <= l2,
    ensures
        code_len(qcodes(m, ny, oi, oj, nqx, nqy, bit, l)) <= code_len(qcodes(m, ny, oi, oj, nqx, nqy, bit, l2)),
    decreases l2,
{
    if l < l2 {
        lemma_qcodes_grow(m, ny, oi, oj, nqx, nqy, bit, l, (l2 - 1) as nat);
        let prev = qcodes(m, ny, oi, oj, nqx, nqy, bit, (l2 - 1) as nat);
        let lev = nonzeros(qlevel(m, ny, oi, oj, nqx, nqy, bit, (l2 - 1) as nat));
        lemma_code_len_concat(prev, lev);
        lemma_code_len_nonneg(lev);
    }
}

/// Append the non-zero entries of `g` to `codes`, adding their code
/// lengths to `total`.
pub(crate) fn push_nonzeros(codes: &mut Vec<u8>, total: &mut u128, g: &Vec<u8>)
    requires
        *old(total) as int == code_len(old(codes)@),
        old(codes).len() + g.len() <= usize::MAX,
        forall|k: int| 0 <= k < old(codes).len() ==> #[trigger] old(codes)@[k] < 16,
        forall|k: int| 0 <= k < g.len() ==> #[trigger] g@[k] < 16,
    ensures
        final(codes)@ == old(codes)@ + nonzeros(g@),
        *final(total) as int == code_len(final(codes)@),
        final(codes).len() <= old(codes).len() + g.len(),
        forall|k: int| 0 <= k < final(codes).len() ==> #[trigger] final(codes)@[k] < 16,
{
    let ghost start = codes@;
    let mut t: usize = 0;
    proof {
        assert(g@.take(0) =~= Seq::<u8>::empty());
        assert(start + nonzeros(Seq::<u8>::empty()) =~= start);
        lemma_code_len_bound(start);
    }
    while t < g.len()
        invariant
            t <= g.len(),
            codes@ == start + nonzeros(g@.take(t as int)),
            *total as int == code_len(codes@),
            codes.len() <= start.len() + t,
            start.len() + g.len() <= usize::MAX,
            forall|k: int| 0 <= k < codes.len() ==> #[trigger] codes@[k] < 16,
            forall|k: int| 0 <= k < g.len() ==> #[trigger] g@[k] < 16,
        decreases g.len() - t,
    {
        let v = g[t];
        let ghost prev = codes@;
        proof {
            assert(g@.take(t + 1).drop_last() =~= g@.take(t as int));
            assert(g@.take(t + 1).last() == v);
            lemma_code_len_bound(prev);
        }
        if v != 0 {
            let (_, n) = huff_code(v);
            codes.push(v);
            proof {
                assert(codes@.drop_last() =~= prev);
            }
            *total = *total + n as u128;
            assert(codes@ =~= start + nonzeros(g@.take(t + 1)));
        } else {
            assert(codes@ =~= start + nonzeros(g@.take(t + 1)));
        }
        t = t + 1;
    }
    assert(g@.take(g.len() as int) =~= g@);
}

/// Bit plane `bit` of a quadrant, coded (`qtree_encode`'s loop body).
#[verifier::rlimit(50)]
fn plane_enc(
    w: &mut BitWriter,
    m: &Vec<i32>,
    nx: usize,
    ny: usize,
    oi: usize,
    oj: usize,
    nqx: usize,
    nqy: usize,
    bit: u32,
)
    requires
        old(w).wf(),
        1 <= nqx <= 0x4000_0000,
        1 <= nqy <= 0x4000_0000,
        oi + nqx <= nx,
        oj + nqy <= ny,
        nx * ny <= m.len(),
        8 * (nx * ny) + 64 <= usize::MAX,
        bit < 32,
    ensures
        final(w).wf(),
        final(w).bits@ == old(w).bits@ + plane_bits(m@, ny as int, oi as int, oj as int, nqx as int, nqy as int, bit),
{
    let ghost mm = m@;
    let nmax = if nqx < nqy { nqy } else { nqx };
    let log2n = levels_of(nmax as u32);
    let nlev: u32 = if log2n == 0 { 1 } else { log2n };
    let l0 = level0_exec(m, nx, ny, oi, oj, nqx, nqy, bit);
    let mut cur = l0.clone();
    assert(cur@ =~= l0@);
    let gx0 = top_exec(nqx, 1);
    let gy0 = top_exec(nqy, 1);
    let mut gx = gx0;
    let mut gy = gy0;
    proof {
        assert(gx * gy <= nqx * nqy) by (nonlinear_arith)
            requires
                1 <= gx <= nqx,
                1 <= gy <= nqy,
        ;
        assert(nqx * nqy <= nx * ny) by (nonlinear_arith)
            requires
                1 <= nqx <= nx,
                1 <= nqy <= ny,
        ;
    }
    let bmax: u128 = ((gx0 * gy0 + 1) / 2) as u128;
    let mut codes: Vec<u8> = Vec::new();
    let mut total: u128 = 0;
    let mut l: u32 = 0;
    while l < nlev && total < 8 * bmax
        invariant
            l <= nlev,
            nlev == nlevels(nqx as int, nqy as int),
            nlev <= 30,
            1 <= nqx <= 0x4000_0000,
            1 <= nqy <= 0x4000_0000,
            gx0 == top_at(nqx as int, 1),
            gy0 == top_at(nqy as int, 1),
            gx0 * gy0 <= nqx * nqy,
            nqx * nqy <= nx * ny,
            8 * (nx * ny) + 64 <= usize::MAX,
            bmax == (gx0 * gy0 + 1) / 2,
            l < nlev ==> cur@ == qlevel(mm, ny as int, oi as int, oj as int, nqx as int, nqy as int, bit, l as nat),
            l < nlev ==> gx == top_at(nqx as int, (l + 1) as nat),
            l < nlev ==> gy == top_at(nqy as int, (l + 1) as nat),
            1 <= gx <= gx0,
            1 <= gy <= gy0,
            cur.len() == gx * gy,
            forall|k: int| 0 <= k < cur.len() ==> #[trigger] cur@[k] < 16,
            codes@ == qcodes(mm, ny as int, oi as int, oj as int, nqx as int, nqy as int, bit, l as nat),
            total as int == code_len(codes@),
            codes.len() <= total,
            forall|k: int| 0 <= k < codes.len() ==> #[trigger] codes@[k] < 16,
        decreases nlev - l,
    {
        proof {
            assert(gx * gy <= gx0 * gy0) by (nonlinear_arith)
                requires
                    1 <= gx <= gx0,
                    1 <= gy <= gy0,
            ;
        }
        push_nonzeros(&mut codes, &mut total, &cur);
        proof {
            lemma_code_len_concat(qcodes(mm, ny as int, oi as int, oj as int, nqx as int, nqy as int, bit, l as nat), nonzeros(cur@));
            lemma_code_len_bound(codes@);
            lemma_nonzeros_len(cur@);
            lemma_code_len_min(codes@);
        }
        if l + 1 < nlev {
            let next = reduce_exec(&cur, gx, gy);
            proof {
                reveal_with_fuel(top_at, 2);
                assert(top_at(nqx as int, (l + 2) as nat) == (top_at(nqx as int, (l + 1) as nat) + 1) / 2);
                assert(top_at(nqy as int, (l + 2) as nat) == (top_at(nqy as int, (l + 1) as nat) + 1) / 2);
            }
            cur = next;
            gx = gx / 2 + gx % 2;
            gy = gy / 2 + gy % 2;
        }
        l = l + 1;
    }
    proof {
        lemma_qcodes_grow(mm, ny as int, oi as int, oj as int, nqx as int, nqy as int, bit, l as nat, nlev as nat);
    }
    if total >= 8 * bmax {
        w.put_bits(0, 4);
        let ghost start = w.bits@;
        let mut k: usize = 0;
        proof {
            assert(l0@.take(0) =~= Seq::<u8>::empty());
            assert(start + nyb_bits(Seq::<u8>::empty()) =~= start);
        }
        while k < l0.len()
            invariant
                w.wf(),
                k <= l0.len(),
                w.bits@ == start + nyb_bits(l0@.take(k as int)),
            decreases l0.len() - k,
        {
            let v = l0[k];
            w.put_bits(v as u32, 4);
            proof {
                assert(l0@.take(k + 1).drop_last() =~= l0@.take(k as int));
            }
            assert(w.bits@ =~= start + nyb_bits(l0@.take(k + 1)));
            k = k + 1;
        }
        assert(l0@.take(l0.len() as int) =~= l0@);
        assert(w.bits@ =~= old(w).bits@ + plane_bits(mm, ny as int, oi as int, oj as int, nqx as int, nqy as int, bit));
    } else {
        w.put_bits(15, 4);
        let ghost start = w.bits@;
        if codes.len() == 0 {
            w.put_bits(0x3e, 6);
            assert(w.bits@ =~= old(w).bits@ + plane_bits(mm, ny as int, oi as int, oj as int, nqx as int, nqy as int, bit));
        } else {
            let mut k: usize = codes.len();
            proof {
                assert(codes@.take(codes.len() as int) =~= codes@);
            }
            while k > 0
                invariant
                    w.wf(),
                    k <= codes.len(),
                    w.bits@ + rev_code_bits(codes@.take(k as int)) == start + rev_code_bits(codes@),
                    forall|t: int| 0 <= t < codes.len() ==> #[trigger] codes@[t] < 16,
                decreases k,
            {
                let ghost before = w.bits@;
                let (c, n) = huff_code(codes[k - 1]);
                w.put_bits(c, n);
                proof {
                    let tk = codes@.take(k as int);
                    assert(tk.drop_last() =~= codes@.take(k - 1));
                    assert(tk.last() == codes@[k - 1]);
                    assert(rev_code_bits(tk) == bits_of(c as int, n as int) + rev_code_bits(codes@.take(k - 1)));
                    assert(w.bits@ + rev_code_bits(codes@.take(k - 1)) =~= before + rev_code_bits(tk));
                }
                k = k - 1;
            }
            assert(codes@.take(0) =~= Seq::<u8>::empty());
            assert(w.bits@ =~= old(w).bits@ + plane_bits(mm, ny as int, oi as int, oj as int, nqx as int, nqy as int, bit));
        }
    }
}

pub(crate) proof fn lemma_nonzeros_len(g: Seq<u8>)
    ensures
        nonzeros(g).len() <= g.len(),
    decreases g.len(),
{
    if g.len() > 0 {
        lemma_nonzeros_len(g.drop_last());
    }
}

pub(crate) proof fn lemma_code_len_min(codes: Seq<u8>)
    ensures
        codes.len() <= code_len(codes),
    decreases codes.len(),
{
    if codes.len() > 0 {
        lemma_code_len_min(codes.drop_last());
    }
}

/// The `count` bit planes of a quadrant, coded (`qtree_encode`).
fn quad_enc(
    w: &mut BitWriter,
    m: &Vec<i32>,
    nx: usize,
    ny: usize,
    oi: usize,
    oj: usize,
    nqx: usize,
    nqy: usize,
    count: u32,
)
    requires
        old(w).wf(),
        nqx <= 0x4000_0000,
        nqy <= 0x4000_0000,
        oi + nqx <= nx,
        oj + nqy <= ny,
        nx * ny <= m.len(),
        8 * (nx * ny) + 64 <= usize::MAX,
        count <= 32,
    ensures
        final(w).wf(),
        final(w).bits@ == old(w).bits@ + quad_bits(m@, ny as int, oi as int, oj as int, nqx as int, nqy as int, count as int),
{
    let ghost start = w.bits@;
    let ghost mm = m@;
    if nqx == 0 || nqy == 0 {
        assert(w.bits@ =~= start + quad_bits(mm, ny as int, oi as int, oj as int, nqx as int, nqy as int, count as int));
        return;
    }
    let mut c: u32 = count;
    assert(w.bits@ + quad_bits(mm, ny as int, oi as int, oj as int, nqx as int, nqy as int, c as int) =~= start
        + quad_bits(mm, ny as int, oi as int, oj as int, nqx as int, nqy as int, count as int));
    while c > 0
        invariant
            w.wf(),
            c <= count <= 32,
            1 <= nqx <= 0x4000_0000,
            1 <= nqy <= 0x4000_0000,
            oi + nqx <= nx,
            oj + nqy <= ny,
            nx * ny <= m.len(),
            8 * (nx * ny) + 64 <= usize::MAX,
            mm == m@,
            w.bits@ + quad_bits(mm, ny as int, oi as int, oj as int, nqx as int, nqy as int, c as int) == start
                + quad_bits(mm, ny as int, oi as int, oj as int, nqx as int, nqy as int, count as int),
        decreases c,
    {
        let ghost before = w.bits@;
        plane_enc(w, m, nx, ny, oi, oj, nqx, nqy, c - 1);
        assert(w.bits@ + quad_bits(mm, ny as int, oi as int, oj as int, nqx as int, nqy as int, (c - 1) as int)
            =~= before + quad_bits(mm, ny as int, oi as int, oj as int, nqx as int, nqy as int, c as int));
        c = c - 1;
    }
    assert(w.bits@ =~= start + quad_bits(mm, ny as int, oi as int, oj as int, nqx as int, nqy as int, count as int));
}


// ---------------------------------------------------------------------
// Signs, bit-plane counts and the coded stream.
// ---------------------------------------------------------------------

/// The sign bits of the first `n` values: none for a zero, 0 for a
/// positive value, 1 for a negative one (`sign_bits`).
pub open spec fn sign_seq(z: Seq<i32>, n: int) -> Seq<bool>
    decreases n,
{
    if n <= 0 {
        Seq::empty()
    } else {
        sign_seq(z, n - 1) + if z[n - 1] > 0 {
            seq![false]
        } else if z[n - 1] < 0 {
            seq![true]
        } else {
            Seq::empty()
        }
    }
}

/// The first `n` values made non-negative (negation in 32 bits).
pub open spec fn magnitudes(z: Seq<i32>, n: int) -> Seq<i32> {
    Seq::new(z.len(), |k: int| if k < n && z[k] < 0 { ws(0, z[k]) } else { z[k] })
}

/// Quadrant of entry `k` of an `nx` by `ny` tile: 0 for the block sums, 1
/// for the differences along one axis, 2 for the cross differences.
pub open spec fn quad_of(k: int, nx: int, ny: int) -> int {
    (if k % ny >= (ny + 1) / 2 { 1int } else { 0 }) + (if k / ny >= (nx + 1) / 2 { 1int } else { 0 })
}

/// The largest of the first `n` values in quadrant `q`, or 0.
pub open spec fn qmax(m: Seq<i32>, nx: int, ny: int, q: int, n: int) -> int
    decreases n,
{
    if n <= 0 {
        0
    } else {
        let prev = qmax(m, nx, ny, q, n - 1);
        if quad_of(n - 1, nx, ny) == q && prev < m[n - 1] {
            m[n - 1] as int
        } else {
            prev
        }
    }
}

/// Number of bit planes of each quadrant (`nbitplanes`).
pub open spec fn planes_of(m: Seq<i32>, nx: int, ny: int) -> Seq<u8> {
    seq![
        bit_length(qmax(m, nx, ny, 0, nx * ny)) as u8,
        bit_length(qmax(m, nx, ny, 1, nx * ny)) as u8,
        bit_length(qmax(m, nx, ny, 2, nx * ny)) as u8,
    ]
}

/// The coded quadrants of an `nx` by `ny` tile of magnitudes, then a zero
/// nybble (`doencode`).
pub open spec fn enc_bits(m: Seq<i32>, nx: int, ny: int, planes: Seq<u8>) -> Seq<bool> {
    let nx2 = (nx + 1) / 2;
    let ny2 = (ny + 1) / 2;
    quad_bits(m, ny, 0, 0, nx2, ny2, planes[0] as int) + quad_bits(m, ny, 0, ny2, nx2, ny / 2, planes[1] as int)
        + quad_bits(m, ny, nx2, 0, nx / 2, ny2, planes[1] as int) + quad_bits(
        m,
        ny,
        nx2,
        ny2,
        nx / 2,
        ny / 2,
        planes[2] as int,
    ) + bits_of(0, 4)
}

/// The stream's first 25 bytes: magic, `nx`, `ny`, scale, the overall sum
/// and the bit-plane counts.
pub open spec fn header_bytes(nx: int, ny: int, scale: int, sum: int, planes: Seq<u8>) -> Seq<u8> {
    seq![0xDDu8, 0x99u8] + be_bytes(nx, 4) + be_bytes(ny, 4) + be_bytes(scale, 4) + be_bytes(sum, 8) + planes
}

/// The coefficients the stream codes: the transform divided by the scale.
pub open spec fn hc_coeffs(s: Seq<i32>, nx: int, ny: int, scale: i32) -> Seq<i32> {
    digitize_spec(htrans_spec(s, nx, ny), nx * ny, scale)
}

/// What the tile buffer holds after coding: the coefficients' magnitudes,
/// the overall sum cleared.
pub open spec fn hc_magnitudes(s: Seq<i32>, nx: int, ny: int, scale: i32) -> Seq<i32> {
    magnitudes(hc_coeffs(s, nx, ny, scale).update(0, 0), nx * ny)
}

/// Room the coder gives its output: 8 bytes a pixel and 64 more, at least
/// 256.
pub open spec fn out_room(n: int) -> int {
    if 8 * n + 64 > 256 {
        8 * n + 64
    } else {
        256
    }
}

/// The stream from its parts: `head` and `body` cut off at `room`
/// bytes, then `signs`; `Err` where the signs do not fit in the room.
pub open spec fn assemble(head: Seq<u8>, body: Seq<u8>, signs: Seq<u8>, room: int) -> Result<Seq<u8>, ()> {
    let whole = head + body;
    let out = if whole.len() > room { whole.take(room) } else { whole };
    if signs.len() == 0 {
        Ok(out)
    } else if out.len() + signs.len() > room {
        Err(())
    } else {
        Ok(out + signs)
    }
}

/// The coded stream of the coefficients `c` of an `nx` by `ny` tile:
/// header, coded quadrants (cut off at the output room), then the sign
/// bits (`encode`).
pub open spec fn hc_encode(c: Seq<i32>, nx: int, ny: int, scale: i32) -> Result<Seq<u8>, ()> {
    let z = c.update(0, 0);
    let m = magnitudes(z, nx * ny);
    let planes = planes_of(m, nx, ny);
    assemble(
        header_bytes(nx, ny, scale as int, c[0] as int, planes),
        pack_bits(enc_bits(m, nx, ny, planes)),
        pack_bits(sign_seq(z, nx * ny)),
        out_room(nx * ny),
    )
}

/// The coded stream of an `nx` by `ny` tile (`compress`).
pub open spec fn hc_compress(s: Seq<i32>, nx: int, ny: int, scale: i32) -> Result<Seq<u8>, ()> {
    hc_encode(hc_coeffs(s, nx, ny, scale), nx, ny, scale)
}

pub(crate) fn assemble_exec(head: Vec<u8>, body: &Vec<u8>, signs: &Vec<u8>, room: usize) -> (r: Result<Vec<u8>, FitsError>)
    requires
        head.len() <= room,
    ensures
        match assemble(head@, body@, signs@, room as int) {
            Ok(b) => r matches Ok(v) && v@ == b,
            Err(()) => r matches Err(e) && e.status == DATA_COMPRESSION_ERR && e.message_list() == seq![
                "encode: output buffer too small"@,
            ],
        },
{
    let ghost headv = head@;
    let ghost whole = head@ + body@;
    let h = head.len();
    let mut out = head;
    let mut k: usize = 0;
    while k < body.len() && out.len() < room
        invariant
            k <= body.len(),
            h <= room,
            h == headv.len(),
            whole == headv + body@,
            out@ == whole.take(h + k),
            out.len() == h + k,
            out.len() <= room,
            whole.len() == h + body.len(),
        decreases body.len() - k,
    {
        out.push(body[k]);
        k = k + 1;
        assert(out@ =~= whole.take(h + k));
    }
    proof {
        if whole.len() > room {
            assert(out@ =~= whole.take(room as int));
        } else {
            assert(out@ =~= whole);
        }
    }
    if signs.len() == 0 {
        Ok(out)
    } else if out.len() > room || signs.len() > room - out.len() {
        Err(FitsError::with_message(DATA_COMPRESSION_ERR, "encode: output buffer too small"))
    } else {
        let mut t: usize = 0;
        let ghost base = out@;
        while t < signs.len()
            invariant
                t <= signs.len(),
                out@ == base + signs@.take(t as int),
            decreases signs.len() - t,
        {
            out.push(signs[t]);
            t = t + 1;
            assert(out@ =~= base + signs@.take(t as int));
        }
        assert(signs@.take(signs.len() as int) =~= signs@);
        Ok(out)
    }
}

fn header_exec(nx: i32, ny: i32, scale: i32, sum: i32, planes: &Vec<u8>) -> (r: Vec<u8>)
    requires
        planes.len() == 3,
    ensures
        r@ == header_bytes(nx as int, ny as int, scale as int, sum as int, planes@),
        r.len() == 25,
{
    let mut out: Vec<u8> = Vec::new();
    out.push(0xDD);
    out.push(0x99);
    push_be_signed(&mut out, nx as i64, 4);
    push_be_signed(&mut out, ny as i64, 4);
    push_be_signed(&mut out, scale as i64, 4);
    push_be_signed(&mut out, sum as i64, 8);
    out.push(planes[0]);
    out.push(planes[1]);
    out.push(planes[2]);
    proof {
        assert(planes@ =~= seq![planes@[0], planes@[1], planes@[2]]);
        assert(out@ =~= header_bytes(nx as int, ny as int, scale as int, sum as int, planes@));
        lemma_be_bytes_len(nx as int, 4);
        lemma_be_bytes_len(ny as int, 4);
        lemma_be_bytes_len(scale as int, 4);
        lemma_be_bytes_len(sum as int, 8);
    }
    out
}

fn body_exec(m: &Vec<i32>, nx: usize, ny: usize, planes: &Vec<u8>) -> (r: Vec<u8>)
    requires
        1 <= nx <= 0x4000_0000,
        1 <= ny <= 0x4000_0000,
        nx * ny <= m.len(),
        8 * (nx * ny) + 64 <= usize::MAX,
        planes.len() == 3,
        forall|k: int| 0 <= k < 3 ==> planes@[k] <= 31,
    ensures
        r@ == pack_bits(enc_bits(m@, nx as int, ny as int, planes@)),
{
    let mut w = BitWriter::new();
    let nx2 = nx / 2 + nx % 2;
    let ny2 = ny / 2 + ny % 2;
    quad_enc(&mut w, m, nx, ny, 0, 0, nx2, ny2, planes[0] as u32);
    quad_enc(&mut w, m, nx, ny, 0, ny2, nx2, ny / 2, planes[1] as u32);
    quad_enc(&mut w, m, nx, ny, nx2, 0, nx / 2, ny2, planes[1] as u32);
    quad_enc(&mut w, m, nx, ny, nx2, ny2, nx / 2, ny / 2, planes[2] as u32);
    w.put_bits(0, 4);
    proof {
        assert(w.bits@ =~= enc_bits(m@, nx as int, ny as int, planes@));
    }
    w.finish()
}

fn encode(a: &mut Vec<i32>, nx: usize, ny: usize, scale: i32) -> (r: Result<Vec<u8>, FitsError>)
    requires
        1 <= nx <= 0x4000_0000,
        1 <= ny <= 0x4000_0000,
        nx * ny <= old(a).len(),
        8 * (nx * ny) + 64 <= usize::MAX,
    ensures
        final(a)@ == magnitudes(old(a)@.update(0, 0), nx * ny),
        match hc_encode(old(a)@, nx as int, ny as int, scale) {
            Ok(b) => r matches Ok(v) && v@ == b,
            Err(()) => r matches Err(e) && e.status == DATA_COMPRESSION_ERR && e.message_list() == seq![
                "encode: output buffer too small"@,
            ],
        },
{
    let n = nx * ny;
    proof {
        assert(n >= 1) by (nonlinear_arith)
            requires
                nx >= 1,
                ny >= 1,
                n == nx * ny,
        ;
    }
    let sum = a[0];
    a.set(0, 0);
    let signs = sign_pass(a, n);
    let planes = planes_exec(a, nx, ny);
    let head = header_exec(nx as i32, ny as i32, scale, sum, &planes);
    let body = body_exec(a, nx, ny, &planes);
    let room: usize = if 8 * n + 64 > 256 { 8 * n + 64 } else { 256 };
    assemble_exec(head, &body, &signs, room)
}

fn sign_pass(a: &mut Vec<i32>, n: usize) -> (r: Vec<u8>)
    requires
        n <= old(a).len(),
    ensures
        final(a)@ == magnitudes(old(a)@, n as int),
        r@ == pack_bits(sign_seq(old(a)@, n as int)),
{
    let ghost z = a@;
    let mut w = BitWriter::new();
    let mut k: usize = 0;
    proof {
        assert(w.bits@ =~= sign_seq(z, 0));
    }
    while k < n
        invariant
            k <= n <= a.len(),
            a.len() == z.len(),
            w.wf(),
            w.bits@ == sign_seq(z, k as int),
            forall|t: int| 0 <= t < a.len() ==> a@[t] == if t < k { magnitudes(z, n as int)[t] } else { z[t] },
        decreases n - k,
    {
        let v = a[k];
        if v > 0 {
            w.push_bit(false);
        } else if v < 0 {
            w.push_bit(true);
            a.set(k, 0i32.wrapping_sub(v));
        }
        assert(w.bits@ =~= sign_seq(z, k + 1));
        k = k + 1;
    }
    assert(a@ =~= magnitudes(z, n as int));
    w.finish()
}

fn planes_exec(m: &Vec<i32>, nx: usize, ny: usize) -> (r: Vec<u8>)
    requires
        1 <= nx,
        1 <= ny,
        nx * ny <= m.len(),
    ensures
        r@ == planes_of(m@, nx as int, ny as int),
        forall|k: int| 0 <= k < 3 ==> r@[k] <= 31,
{
    let nx2 = nx / 2 + nx % 2;
    let ny2 = ny / 2 + ny % 2;
    let total = nx * ny;
    let mut v0: i32 = 0;
    let mut v1: i32 = 0;
    let mut v2: i32 = 0;
    let mut k: usize = 0;
    let mut i: usize = 0;
    let mut j: usize = 0;
    while k < total
        invariant
            total == nx * ny,
            total <= m.len(),
            nx2 == (nx + 1) / 2,
            ny2 == (ny + 1) / 2,
            ny >= 1,
            k <= total,
            j < ny,
            k == i * ny + j,
            v0 as int == qmax(m@, nx as int, ny as int, 0, k as int),
            v1 as int == qmax(m@, nx as int, ny as int, 1, k as int),
            v2 as int == qmax(m@, nx as int, ny as int, 2, k as int),
            v0 >= 0,
            v1 >= 0,
            v2 >= 0,
        decreases total - k,
    {
        proof {
            lemma_fundamental_div_mod_converse(k as int, ny as int, i as int, j as int);
        }
        let v = m[k];
        let q: u32 = (if j >= ny2 { 1u32 } else { 0 }) + (if i >= nx2 { 1u32 } else { 0 });
        if q == 0 {
            if v0 < v {
                v0 = v;
            }
        } else if q == 1 {
            if v1 < v {
                v1 = v;
            }
        } else {
            if v2 < v {
                v2 = v;
            }
        }
        k = k + 1;
        if j + 1 < ny {
            j = j + 1;
        } else {
            proof {
                assert((i + 1) * ny == i * ny + ny) by (nonlinear_arith);
            }
            j = 0;
            i = i + 1;
        }
    }
    let b0 = bit_length_exec(v0 as u64);
    let b1 = bit_length_exec(v1 as u64);
    let b2 = bit_length_exec(v2 as u64);
    proof {
        lemma2_to64();
        lemma_bit_length_pow(v0 as int, 31);
        lemma_bit_length_pow(v1 as int, 31);
        lemma_bit_length_pow(v2 as int, 31);
    }
    let mut r: Vec<u8> = Vec::new();
    r.push(b0 as u8);
    r.push(b1 as u8);
    r.push(b2 as u8);
    assert(r@ =~= planes_of(m@, nx as int, ny as int));
    r
}

pub(crate) proof fn lemma_be_bytes_len(v: int, n: nat)
    ensures
        be_bytes(v, n).len() == n,
    decreases n,
{
    if n > 0 {
        lemma_be_bytes_len(v / 256, (n - 1) as nat);
    }
}

/// `v` as `n` big-endian two's-complement bytes.
pub(crate) fn push_be_signed(out: &mut Vec<u8>, v: i64, n: usize)
    requires
        1 <= n <= 8,
    ensures
        final(out)@ == old(out)@ + be_bytes(v as int, n as nat),
{
    let u: u64 = if v >= 0 { v as u64 } else { ((v + 1 + 0x7fff_ffff_ffff_ffff) as u64) + 0x8000_0000_0000_0000 };
    proof {
        reveal_with_fuel(pow256, 9);
        let p = pow256(n as nat);
        assert(p == 256 || p == 0x1_0000 || p == 0x100_0000 || p == 0x1_0000_0000 || p == 0x100_0000_0000
            || p == 0x1_0000_0000_0000 || p == 0x100_0000_0000_0000 || p == 0x1_0000_0000_0000_0000);
        if v < 0 {
            assert(u as int == v + 0x1_0000_0000_0000_0000);
            let k = 0x1_0000_0000_0000_0000int / p;
            if p == 256 {
            } else if p == 0x1_0000 {
            } else if p == 0x100_0000 {
            } else if p == 0x1_0000_0000 {
            } else if p == 0x100_0000_0000 {
            } else if p == 0x1_0000_0000_0000 {
            } else if p == 0x100_0000_0000_0000 {
            } else {
            }
            assert(k * p == 0x1_0000_0000_0000_0000int);
            vstd::arithmetic::div_mod::lemma_mod_multiples_vanish(k, v as int, p);
            assert(p * k + v == u as int) by (nonlinear_arith)
                requires
                    k * p == 0x1_0000_0000_0000_0000int,
                    u as int == v + 0x1_0000_0000_0000_0000,
            ;
        }
        lemma_be_bytes_mod(u as int, v as int, n as nat);
    }
    push_be_u64(out, u, n);
}

/// Compress a 2-D `i32` tile. `ny` is the fastest axis. The tile's values
/// are left as the coefficients' magnitudes. Each side is at most 2^30
/// pixels: the transform's rounding offset doubles with each level and is
/// an `i32`, so more levels would overflow it.
pub fn compress(a: &mut Vec<i32>, ny: i32, nx: i32, scale: i32) -> (r: Result<Vec<u8>, FitsError>)
    requires
        1 <= nx <= 0x4000_0000,
        1 <= ny <= 0x4000_0000,
        nx * ny <= old(a).len(),
        8 * (nx * ny) + 64 <= usize::MAX,
    ensures
        final(a)@ == hc_magnitudes(old(a)@, nx as int, ny as int, scale),
        match hc_compress(old(a)@, nx as int, ny as int, scale) {
            Ok(b) => r matches Ok(v) && v@ == b,
            Err(()) => r matches Err(e) && e.status == DATA_COMPRESSION_ERR && e.message_list() == seq![
                "encode: output buffer too small"@,
            ],
        },
{
    let nxu = nx as usize;
    let nyu = ny as usize;
    htrans(a, nxu, nyu);
    digitize(a, nxu * nyu, scale);
    encode(a, nxu, nyu, scale)
}

/// Law: a coded stream starts with the magic bytes `DD 99`, then `nx`,
/// `ny` and the scale as 4-byte big-endian two's-complement numbers, and
/// holds at least the 25 header bytes.
pub proof fn lemma_stream_header(s: Seq<i32>, nx: int, ny: int, scale: i32, out: Seq<u8>)
    requires
        hc_compress(s, nx, ny, scale) == Ok::<Seq<u8>, ()>(out),
    ensures
        out.len() >= 25,
        out[0] == 0xDDu8,
        out[1] == 0x99u8,
        out.subrange(2, 6) == be_bytes(nx, 4),
        out.subrange(6, 10) == be_bytes(ny, 4),
        out.subrange(10, 14) == be_bytes(scale as int, 4),
{
    let c = hc_coeffs(s, nx, ny, scale);
    let z = c.update(0, 0);
    let m = magnitudes(z, nx * ny);
    let planes = planes_of(m, nx, ny);
    let head = header_bytes(nx, ny, scale as int, c[0] as int, planes);
    lemma_be_bytes_len(nx, 4);
    lemma_be_bytes_len(ny, 4);
    lemma_be_bytes_len(scale as int, 4);
    lemma_be_bytes_len(c[0] as int, 8);
    assert(head.len() == 25);
    let body = pack_bits(enc_bits(m, nx, ny, planes));
    let signs = pack_bits(sign_seq(z, nx * ny));
    let room = out_room(nx * ny);
    let whole = head + body;
    let o = if whole.len() > room { whole.take(room) } else { whole };
    assert(o.len() >= 25);
    assert(forall|k: int| 0 <= k < 25 ==> #[trigger] out[k] == head[k]) by {
        assert forall|k: int| 0 <= k < 25 implies #[trigger] out[k] == head[k] by {
            assert(o[k] == whole[k]);
            assert(whole[k] == head[k]);
        }
    }
    assert(out.subrange(2, 6) =~= head.subrange(2, 6));
    assert(out.subrange(6, 10) =~= head.subrange(6, 10));
    assert(out.subrange(10, 14) =~= head.subrange(10, 14));
    assert(head.subrange(2, 6) =~= be_bytes(nx, 4));
    assert(head.subrange(6, 10) =~= be_bytes(ny, 4));
    assert(head.subrange(10, 14) =~= be_bytes(scale as int, 4));
}

} // verus!
