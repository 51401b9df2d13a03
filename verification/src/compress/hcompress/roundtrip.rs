//! The coded quadtrees read back to the coefficients they were written
//! from.
use vstd::prelude::*;
use crate::compress::rice::{bits_of, bits_val, lemma_bits_of_len, lemma_bits_val_of};
use super::{
    cbit, code_len, corner, fill, hcode, hlen, huff_dec, lemma_code_len_concat, lemma_row_bound, nbit, nonzeros, nyb_bits,
    nybbles, nz, onebit_at, qlevel, rd, reduce, rev_code_bits, spread, top_at, expand_levels, qcodes, lemma_top_bounds,
    lemma_code_len_nonneg,
};
use vstd::arithmetic::div_mod::lemma_fundamental_div_mod_converse;
use vstd::arithmetic::power2::pow2;

verus! {

/// The bits at `p` are those of `w`.
pub open spec fn bits_at(bs: Seq<bool>, p: int, w: Seq<bool>) -> bool {
    0 <= p && p + w.len() <= bs.len() && bs.subrange(p, p + w.len() as int) == w
}

proof fn lemma_bits_at_sub(bs: Seq<bool>, p: int, w: Seq<bool>, a: int, b: int)
    requires
        bits_at(bs, p, w),
        0 <= a <= b <= w.len(),
    ensures
        bs.subrange(p + a, p + b) == w.subrange(a, b),
{
    let whole = bs.subrange(p, p + w.len());
    assert forall|k: int| 0 <= k < b - a implies #[trigger] bs.subrange(p + a, p + b)[k] == w.subrange(a, b)[k] by {
        assert(whole[a + k] == bs[p + a + k]);
    }
    assert(bs.subrange(p + a, p + b) =~= w.subrange(a, b));
}

proof fn lemma_rd_within(bs: Seq<bool>, p: int, w: Seq<bool>, k: int)
    requires
        bits_at(bs, p, w),
        0 <= k <= w.len(),
    ensures
        rd(bs, p, k) == rd(w, 0, k),
{
    assert(bs.subrange(p, p + k) =~= w.subrange(0, k));
}

/// The Huffman code of a nybble reads back as that nybble.
#[verifier::rlimit(80)]
pub proof fn lemma_huff_roundtrip(bs: Seq<bool>, p: int, v: int)
    requires
        0 <= v < 16,
        bits_at(bs, p, bits_of(hcode(v), hlen(v))),
    ensures
        huff_dec(bs, p) == Some((v, p + hlen(v))),
{
    let w = bits_of(hcode(v), hlen(v));
    assert(w.len() == hlen(v)) by {
        crate::compress::rice::lemma_bits_of_len(hcode(v), hlen(v));
    }
    lemma_rd_within(bs, p, w, 3);
    if hlen(v) >= 4 {
        lemma_rd_within(bs, p, w, 4);
    }
    if hlen(v) >= 5 {
        lemma_rd_within(bs, p, w, 5);
    }
    if hlen(v) >= 6 {
        lemma_rd_within(bs, p, w, 6);
    }
    reveal_with_fuel(bits_of, 7);
    reveal_with_fuel(bits_val, 7);
    vstd::arithmetic::power2::lemma2_to64();
    if v == 0 {
        let w = bits_of(62, 6);
        assert(w =~= seq![true, true, true, true, true, false]);
        assert(w.subrange(0, 3) =~= seq![true, true, true]);
        assert(rd(w, 0, 3) == Some(7int));
        assert(w.subrange(0, 4) =~= seq![true, true, true, true]);
        assert(rd(w, 0, 4) == Some(15int));
        assert(w.subrange(0, 5) =~= seq![true, true, true, true, true]);
        assert(rd(w, 0, 5) == Some(31int));
        assert(w.subrange(0, 6) =~= seq![true, true, true, true, true, false]);
        assert(rd(w, 0, 6) == Some(62int));
    } else if v == 1 {
        let w = bits_of(0, 3);
        assert(w =~= seq![false, false, false]);
        assert(w.subrange(0, 3) =~= seq![false, false, false]);
        assert(rd(w, 0, 3) == Some(0int));
    } else if v == 2 {
        let w = bits_of(1, 3);
        assert(w =~= seq![false, false, true]);
        assert(w.subrange(0, 3) =~= seq![false, false, true]);
        assert(rd(w, 0, 3) == Some(1int));
    } else if v == 3 {
        let w = bits_of(8, 4);
        assert(w =~= seq![true, false, false, false]);
        assert(w.subrange(0, 3) =~= seq![true, false, false]);
        assert(rd(w, 0, 3) == Some(4int));
        assert(w.subrange(0, 4) =~= seq![true, false, false, false]);
        assert(rd(w, 0, 4) == Some(8int));
    } else if v == 4 {
        let w = bits_of(2, 3);
        assert(w =~= seq![false, true, false]);
        assert(w.subrange(0, 3) =~= seq![false, true, false]);
        assert(rd(w, 0, 3) == Some(2int));
    } else if v == 5 {
        let w = bits_of(9, 4);
        assert(w =~= seq![true, false, false, true]);
        assert(w.subrange(0, 3) =~= seq![true, false, false]);
        assert(rd(w, 0, 3) == Some(4int));
        assert(w.subrange(0, 4) =~= seq![true, false, false, true]);
        assert(rd(w, 0, 4) == Some(9int));
    } else if v == 6 {
        let w = bits_of(26, 5);
        assert(w =~= seq![true, true, false, true, false]);
        assert(w.subrange(0, 3) =~= seq![true, true, false]);
        assert(rd(w, 0, 3) == Some(6int));
        assert(w.subrange(0, 4) =~= seq![true, true, false, true]);
        assert(rd(w, 0, 4) == Some(13int));
        assert(w.subrange(0, 5) =~= seq![true, true, false, true, false]);
        assert(rd(w, 0, 5) == Some(26int));
    } else if v == 7 {
        let w = bits_of(27, 5);
        assert(w =~= seq![true, true, false, true, true]);
        assert(w.subrange(0, 3) =~= seq![true, true, false]);
        assert(rd(w, 0, 3) == Some(6int));
        assert(w.subrange(0, 4) =~= seq![true, true, false, true]);
        assert(rd(w, 0, 4) == Some(13int));
        assert(w.subrange(0, 5) =~= seq![true, true, false, true, true]);
        assert(rd(w, 0, 5) == Some(27int));
    } else if v == 8 {
        let w = bits_of(3, 3);
        assert(w =~= seq![false, true, true]);
        assert(w.subrange(0, 3) =~= seq![false, true, true]);
        assert(rd(w, 0, 3) == Some(3int));
    } else if v == 9 {
        let w = bits_of(28, 5);
        assert(w =~= seq![true, true, true, false, false]);
        assert(w.subrange(0, 3) =~= seq![true, true, true]);
        assert(rd(w, 0, 3) == Some(7int));
        assert(w.subrange(0, 4) =~= seq![true, true, true, false]);
        assert(rd(w, 0, 4) == Some(14int));
        assert(w.subrange(0, 5) =~= seq![true, true, true, false, false]);
        assert(rd(w, 0, 5) == Some(28int));
    } else if v == 10 {
        let w = bits_of(10, 4);
        assert(w =~= seq![true, false, true, false]);
        assert(w.subrange(0, 3) =~= seq![true, false, true]);
        assert(rd(w, 0, 3) == Some(5int));
        assert(w.subrange(0, 4) =~= seq![true, false, true, false]);
        assert(rd(w, 0, 4) == Some(10int));
    } else if v == 11 {
        let w = bits_of(29, 5);
        assert(w =~= seq![true, true, true, false, true]);
        assert(w.subrange(0, 3) =~= seq![true, true, true]);
        assert(rd(w, 0, 3) == Some(7int));
        assert(w.subrange(0, 4) =~= seq![true, true, true, false]);
        assert(rd(w, 0, 4) == Some(14int));
        assert(w.subrange(0, 5) =~= seq![true, true, true, false, true]);
        assert(rd(w, 0, 5) == Some(29int));
    } else if v == 12 {
        let w = bits_of(11, 4);
        assert(w =~= seq![true, false, true, true]);
        assert(w.subrange(0, 3) =~= seq![true, false, true]);
        assert(rd(w, 0, 3) == Some(5int));
        assert(w.subrange(0, 4) =~= seq![true, false, true, true]);
        assert(rd(w, 0, 4) == Some(11int));
    } else if v == 13 {
        let w = bits_of(30, 5);
        assert(w =~= seq![true, true, true, true, false]);
        assert(w.subrange(0, 3) =~= seq![true, true, true]);
        assert(rd(w, 0, 3) == Some(7int));
        assert(w.subrange(0, 4) =~= seq![true, true, true, true]);
        assert(rd(w, 0, 4) == Some(15int));
        assert(w.subrange(0, 5) =~= seq![true, true, true, true, false]);
        assert(rd(w, 0, 5) == Some(30int));
    } else if v == 14 {
        let w = bits_of(63, 6);
        assert(w =~= seq![true, true, true, true, true, true]);
        assert(w.subrange(0, 3) =~= seq![true, true, true]);
        assert(rd(w, 0, 3) == Some(7int));
        assert(w.subrange(0, 4) =~= seq![true, true, true, true]);
        assert(rd(w, 0, 4) == Some(15int));
        assert(w.subrange(0, 5) =~= seq![true, true, true, true, true]);
        assert(rd(w, 0, 5) == Some(31int));
        assert(w.subrange(0, 6) =~= seq![true, true, true, true, true, true]);
        assert(rd(w, 0, 6) == Some(63int));
    } else {
        let w = bits_of(12, 4);
        assert(w =~= seq![true, true, false, false]);
        assert(w.subrange(0, 3) =~= seq![true, true, false]);
        assert(rd(w, 0, 3) == Some(6int));
        assert(w.subrange(0, 4) =~= seq![true, true, false, false]);
        assert(rd(w, 0, 4) == Some(12int));
    }
}

/// The bits at `p` are those of `x` followed by `y` exactly when they
/// are `x`, and then `y` after it.
pub proof fn lemma_bits_at_concat(bs: Seq<bool>, p: int, x: Seq<bool>, y: Seq<bool>)
    requires
        bits_at(bs, p, x + y),
    ensures
        bits_at(bs, p, x),
        bits_at(bs, p + x.len(), y),
{
    let n = x.len() + y.len();
    let whole = bs.subrange(p, p + n);
    assert(whole == x + y);
    assert forall|k: int| 0 <= k < x.len() implies #[trigger] bs.subrange(p, p + x.len())[k] == x[k] by {
        assert(whole[k] == bs[p + k]);
        assert((x + y)[k] == x[k]);
    }
    assert(bs.subrange(p, p + x.len()) =~= x);
    assert forall|k: int| 0 <= k < y.len() implies #[trigger] bs.subrange(p + x.len(), p + n)[k] == y[k] by {
        assert(whole[x.len() + k] == bs[p + x.len() + k]);
        assert((x + y)[x.len() + k] == y[k]);
    }
    assert(bs.subrange(p + x.len(), p + n) =~= y);
}

proof fn lemma_nyb_bits_shape(g: Seq<u8>, k: int)
    requires
        0 <= k < g.len(),
    ensures
        nyb_bits(g).len() == 4 * g.len(),
        nyb_bits(g).subrange(4 * k, 4 * k + 4) == bits_of(g[k] as int, 4),
    decreases g.len(),
{
    lemma_nyb_bits_len(g);
    lemma_nyb_bits_len(g.drop_last());
    lemma_bits_of_len(g.last() as int, 4);
    let a = nyb_bits(g.drop_last());
    let b = bits_of(g.last() as int, 4);
    assert(nyb_bits(g) == a + b);
    if k < g.len() - 1 {
        lemma_nyb_bits_shape(g.drop_last(), k);
        assert(nyb_bits(g).subrange(4 * k, 4 * k + 4) =~= a.subrange(4 * k, 4 * k + 4));
        assert(g.drop_last()[k] == g[k]);
    } else {
        assert(nyb_bits(g).subrange(4 * k, 4 * k + 4) =~= b);
    }
}

proof fn lemma_nyb_bits_len(g: Seq<u8>)
    ensures
        nyb_bits(g).len() == 4 * g.len(),
    decreases g.len(),
{
    if g.len() > 0 {
        lemma_nyb_bits_len(g.drop_last());
        lemma_bits_of_len(g.last() as int, 4);
    }
}

/// Nybbles written out read back as themselves.
pub proof fn lemma_nybbles_roundtrip(bs: Seq<bool>, p: int, g: Seq<u8>)
    requires
        forall|k: int| 0 <= k < g.len() ==> #[trigger] g[k] < 16,
        bits_at(bs, p, nyb_bits(g)),
    ensures
        nybbles(bs, p, g.len() as int) == Some(g),
        nyb_bits(g).len() == 4 * g.len(),
{
    lemma_nyb_bits_len(g);
    let w = nyb_bits(g);
    let r = Seq::new(g.len(), |k: int| bits_val(bs.subrange(p + 4 * k, p + 4 * k + 4)) as u8);
    assert forall|k: int| 0 <= k < g.len() implies #[trigger] r[k] == g[k] by {
        lemma_nyb_bits_shape(g, k);
        lemma_bits_at_sub(bs, p, w, 4 * k, 4 * k + 4);
        lemma_bits_val_of(g[k] as int, 4);
        vstd::arithmetic::power2::lemma2_to64();
        assert(bs.subrange(p + 4 * k, p + 4 * k + 4) == bits_of(g[k] as int, 4));
        assert(bits_val(bits_of(g[k] as int, 4)) == g[k] as int % 16);
        assert(g[k] < 16);
        assert(r[k] == bits_val(bs.subrange(p + 4 * k, p + 4 * k + 4)) as u8);
    }
    assert(r =~= g);
}

/// The codes of `a` then `b`, read from the end, are those of `b` then
/// those of `a`.
pub proof fn lemma_rev_code_bits_concat(a: Seq<u8>, b: Seq<u8>)
    ensures
        rev_code_bits(a + b) == rev_code_bits(b) + rev_code_bits(a),
    decreases b.len(),
{
    if b.len() == 0 {
        assert(a + b =~= a);
        assert(rev_code_bits(b) + rev_code_bits(a) =~= rev_code_bits(a));
    } else {
        lemma_rev_code_bits_concat(a, b.drop_last());
        assert((a + b).drop_last() =~= a + b.drop_last());
        assert((a + b).last() == b.last());
        let c = bits_of(hcode(b.last() as int), hlen(b.last() as int));
        assert(c + (rev_code_bits(b.drop_last()) + rev_code_bits(a)) =~= (c + rev_code_bits(b.drop_last()))
            + rev_code_bits(a));
    }
}

proof fn lemma_rev_code_bits_len(a: Seq<u8>)
    ensures
        rev_code_bits(a).len() == code_len(a),
    decreases a.len(),
{
    if a.len() > 0 {
        lemma_rev_code_bits_len(a.drop_last());
        lemma_bits_of_len(hcode(a.last() as int), hlen(a.last() as int));
    }
}

/// 1 where a grid entry is not zero, 0 where it is.
pub open spec fn flags(g: Seq<u8>) -> Seq<u8> {
    Seq::new(g.len(), |t: int| if g[t] != 0 { 1u8 } else { 0u8 })
}

/// Filling the non-zero flags of a grid from the end with the codes of its
/// non-zero entries, read back from the end, gives the grid back.
pub proof fn lemma_fill_roundtrip(bs: Seq<bool>, p: int, g: Seq<u8>, t: int)
    requires
        0 <= t <= g.len(),
        forall|k: int| 0 <= k < g.len() ==> #[trigger] g[k] < 16,
        bits_at(bs, p, rev_code_bits(nonzeros(g.take(t)))),
    ensures
        fill(bs, p, flags(g).take(t) + g.skip(t), t) == Some((g, p + code_len(nonzeros(g.take(t))))),
    decreases t,
{
    let b = flags(g).take(t) + g.skip(t);
    if t == 0 {
        assert(b =~= g);
        assert(g.take(0) =~= Seq::<u8>::empty());
    } else {
        let tk = g.take(t);
        assert(tk.drop_last() =~= g.take(t - 1));
        assert(tk.last() == g[t - 1]);
        assert(b[t - 1] == flags(g)[t - 1]);
        if g[t - 1] == 0 {
            assert(nonzeros(tk) =~= nonzeros(g.take(t - 1)));
            assert(b =~= flags(g).take(t - 1) + g.skip(t - 1));
            lemma_fill_roundtrip(bs, p, g, t - 1);
        } else {
            let v = g[t - 1];
            let prev = nonzeros(g.take(t - 1));
            assert(nonzeros(tk) =~= prev.push(v));
            assert(nonzeros(tk).drop_last() =~= prev);
            let code = bits_of(hcode(v as int), hlen(v as int));
            assert(rev_code_bits(nonzeros(tk)) == code + rev_code_bits(prev));
            lemma_bits_at_concat(bs, p, code, rev_code_bits(prev));
            lemma_bits_of_len(hcode(v as int), hlen(v as int));
            lemma_huff_roundtrip(bs, p, v as int);
            let q = p + hlen(v as int);
            assert(b.update(t - 1, v) =~= flags(g).take(t - 1) + g.skip(t - 1));
            lemma_fill_roundtrip(bs, q, g, t - 1);
            assert(code_len(nonzeros(tk)) == code_len(prev) + hlen(v as int));
        }
    }
}

proof fn lemma_nybble_bits(a: u8, b: u8, c: u8, d: u8)
    by (bit_vector)
    requires
        a <= 1,
        b <= 1,
        c <= 1,
        d <= 1,
    ensures
        (((8 * a + 4 * b + 2 * c + d) as u8) >> 3u8) & 1 == a,
        (((8 * a + 4 * b + 2 * c + d) as u8) >> 2u8) & 1 == b,
        (((8 * a + 4 * b + 2 * c + d) as u8) >> 1u8) & 1 == c,
        (((8 * a + 4 * b + 2 * c + d) as u8) >> 0u8) & 1 == d,
{
}

/// Spreading the next level of a grid over the grid's own shape flags
/// the grid's non-zero entries.
#[verifier::spinoff_prover]
#[verifier::rlimit(30)]
pub proof fn lemma_spread_reduce(g: Seq<u8>, gx: int, gy: int)
    requires
        gx >= 1,
        gy >= 1,
        g.len() == gx * gy,
    ensures
        spread(reduce(g, gx, gy), (gy + 1) / 2, gx, gy) == flags(g),
{
    let hy = (gy + 1) / 2;
    let big = reduce(g, gx, gy);
    let sp = spread(big, hy, gx, gy);
    assert forall|t: int| 0 <= t < g.len() implies #[trigger] sp[t] == flags(g)[t] by {
        let i = t / gy;
        let j = t % gy;
        vstd::arithmetic::div_mod::lemma_fundamental_div_mod(t, gy);
        lemma_row_bound(i, j, gy, gx);
        let u = (i / 2) * hy + j / 2;
        assert(0 <= i / 2 < (gx + 1) / 2);
        assert(0 <= j / 2 < hy);
        lemma_fundamental_div_mod_converse(u, hy, i / 2, j / 2);
        assert(0 <= u < ((gx + 1) / 2) * hy) by {
            super::lemma_block_index(i / 2, j / 2, hy, (gx + 1) / 2, hy, (gx + 1) / 2);
        }
        let x = 2 * (i / 2);
        let y = 2 * (j / 2);
        let a = nz(g, gx, gy, x, y);
        let bb = nz(g, gx, gy, x, y + 1);
        let c = nz(g, gx, gy, x + 1, y);
        let d = nz(g, gx, gy, x + 1, y + 1);
        assert(big[u] == (8 * a + 4 * bb + 2 * c + d) as u8);
        lemma_nybble_bits(a as u8, bb as u8, c as u8, d as u8);
        assert(i * gy + j == t);
        if i % 2 == 0 && j % 2 == 0 {
            assert(x == i && y == j);
        } else if i % 2 == 0 {
            assert(x == i && y + 1 == j);
        } else if j % 2 == 0 {
            assert(x + 1 == i && y == j);
        } else {
            assert(x + 1 == i && y + 1 == j);
        }
    }
    assert(sp =~= flags(g));
}

proof fn lemma_cbit_bit(v: i32, bit: u32)
    ensures
        0 <= cbit(v, bit) <= 1,
{
    let x = (v >> bit) & 1;
    assert(0 <= x <= 1) by (bit_vector)
        requires
            x == (v >> bit) & 1,
    ;
}

/// Size and entries of a quadtree level.
pub proof fn lemma_qlevel_shape(m: Seq<i32>, ny: int, oi: int, oj: int, nqx: int, nqy: int, bit: u32, l: nat)
    requires
        nqx >= 1,
        nqy >= 1,
    ensures
        qlevel(m, ny, oi, oj, nqx, nqy, bit, l).len() == top_at(nqx, l + 1) * top_at(nqy, l + 1),
        forall|k: int|
            0 <= k < qlevel(m, ny, oi, oj, nqx, nqy, bit, l).len() ==> #[trigger] qlevel(
                m,
                ny,
                oi,
                oj,
                nqx,
                nqy,
                bit,
                l,
            )[k] < 16,
    decreases l,
{
    lemma_top_bounds(nqx, l + 1);
    lemma_top_bounds(nqy, l + 1);
    assert(top_at(nqx, l + 1) * top_at(nqy, l + 1) >= 1) by (nonlinear_arith)
        requires
            top_at(nqx, l + 1) >= 1,
            top_at(nqy, l + 1) >= 1,
    ;
    let g = qlevel(m, ny, oi, oj, nqx, nqy, bit, l);
    if l == 0 {
        let gy = top_at(nqy, 1);
        assert forall|k: int| 0 <= k < g.len() implies #[trigger] g[k] < 16 by {
            let bi = k / gy;
            let bj = k % gy;
            let i = 2 * bi;
            let j = 2 * bj;
            lemma_cbit_bit(super::qel(m, ny, oi, oj, i, j), bit);
            lemma_cbit_bit(super::qel(m, ny, oi, oj, i, j + 1), bit);
            lemma_cbit_bit(super::qel(m, ny, oi, oj, i + 1, j), bit);
            lemma_cbit_bit(super::qel(m, ny, oi, oj, i + 1, j + 1), bit);
        }
    } else {
        lemma_qlevel_shape(m, ny, oi, oj, nqx, nqy, bit, (l - 1) as nat);
        assert(top_at(nqx, l + 1) == (top_at(nqx, l) + 1) / 2);
        assert(top_at(nqy, l + 1) == (top_at(nqy, l) + 1) / 2);
    }
}

proof fn lemma_reduce_zero(g: Seq<u8>, gx: int, gy: int)
    requires
        gx >= 1,
        gy >= 1,
        g.len() == gx * gy,
        forall|u: int| 0 <= u < reduce(g, gx, gy).len() ==> #[trigger] reduce(g, gx, gy)[u] == 0,
    ensures
        forall|k: int| 0 <= k < g.len() ==> #[trigger] g[k] == 0,
{
    let hy = (gy + 1) / 2;
    let big = reduce(g, gx, gy);
    assert forall|k: int| 0 <= k < g.len() implies #[trigger] g[k] == 0 by {
        let i = k / gy;
        let j = k % gy;
        vstd::arithmetic::div_mod::lemma_fundamental_div_mod(k, gy);
        assert(i * gy + j == k) by (nonlinear_arith)
            requires
                k == gy * (k / gy) + k % gy,
                i == k / gy,
                j == k % gy,
        ;
        assert(0 <= j < gy);
        assert(i >= 0) by (nonlinear_arith)
            requires
                k >= 0,
                gy >= 1,
                i == k / gy,
        ;
        lemma_row_bound(i, j, gy, gx);
        let u = (i / 2) * hy + j / 2;
        lemma_fundamental_div_mod_converse(u, hy, i / 2, j / 2);
        super::lemma_block_index(i / 2, j / 2, hy, (gx + 1) / 2, hy, (gx + 1) / 2);
        assert(big[u] == 0);
        assert(nz(g, gx, gy, i, j) == 0);
    }
}

proof fn lemma_nonzeros_zero(g: Seq<u8>)
    requires
        forall|k: int| 0 <= k < g.len() ==> #[trigger] g[k] == 0,
    ensures
        nonzeros(g) == Seq::<u8>::empty(),
    decreases g.len(),
{
    if g.len() > 0 {
        lemma_nonzeros_zero(g.drop_last());
    }
}

/// Below a zero level every level is zero.
proof fn lemma_zero_levels(m: Seq<i32>, ny: int, oi: int, oj: int, nqx: int, nqy: int, bit: u32, l: nat, top: nat)
    requires
        nqx >= 1,
        nqy >= 1,
        l <= top,
        forall|k: int|
            0 <= k < qlevel(m, ny, oi, oj, nqx, nqy, bit, top).len() ==> #[trigger] qlevel(m, ny, oi, oj, nqx, nqy, bit, top)[k]
                == 0,
    ensures
        forall|k: int|
            0 <= k < qlevel(m, ny, oi, oj, nqx, nqy, bit, l).len() ==> #[trigger] qlevel(m, ny, oi, oj, nqx, nqy, bit, l)[k]
                == 0,
    decreases top - l,
{
    if l < top {
        lemma_zero_levels(m, ny, oi, oj, nqx, nqy, bit, l + 1, top);
        lemma_qlevel_shape(m, ny, oi, oj, nqx, nqy, bit, l);
        lemma_top_bounds(nqx, l + 1);
        lemma_top_bounds(nqy, l + 1);
        assert(qlevel(m, ny, oi, oj, nqx, nqy, bit, l + 1) == reduce(
            qlevel(m, ny, oi, oj, nqx, nqy, bit, l),
            top_at(nqx, l + 1),
            top_at(nqy, l + 1),
        ));
        lemma_reduce_zero(qlevel(m, ny, oi, oj, nqx, nqy, bit, l), top_at(nqx, l + 1), top_at(nqy, l + 1));
    }
}

/// Below a zero level nothing is coded.
proof fn lemma_zero_codes(m: Seq<i32>, ny: int, oi: int, oj: int, nqx: int, nqy: int, bit: u32, l: nat, top: nat)
    requires
        nqx >= 1,
        nqy >= 1,
        l <= top + 1,
        forall|k: int|
            0 <= k < qlevel(m, ny, oi, oj, nqx, nqy, bit, top).len() ==> #[trigger] qlevel(m, ny, oi, oj, nqx, nqy, bit, top)[k]
                == 0,
    ensures
        qcodes(m, ny, oi, oj, nqx, nqy, bit, l) == Seq::<u8>::empty(),
    decreases l,
{
    if l > 0 {
        lemma_zero_codes(m, ny, oi, oj, nqx, nqy, bit, (l - 1) as nat, top);
        lemma_zero_levels(m, ny, oi, oj, nqx, nqy, bit, (l - 1) as nat, top);
        lemma_nonzeros_zero(qlevel(m, ny, oi, oj, nqx, nqy, bit, (l - 1) as nat));
        assert(qcodes(m, ny, oi, oj, nqx, nqy, bit, l) =~= Seq::<u8>::empty());
    }
}

/// Growing the quadtree from level `t` reads back every level below it.
pub proof fn lemma_expand_roundtrip(
    bs: Seq<bool>,
    p: int,
    m: Seq<i32>,
    ny: int,
    oi: int,
    oj: int,
    nqx: int,
    nqy: int,
    bit: u32,
    t: nat,
)
    requires
        nqx >= 1,
        nqy >= 1,
        t >= 1,
        bits_at(bs, p, rev_code_bits(qcodes(m, ny, oi, oj, nqx, nqy, bit, (t - 1) as nat))),
    ensures
        expand_levels(bs, p, qlevel(m, ny, oi, oj, nqx, nqy, bit, (t - 1) as nat), nqx, nqy, t) == Some(
            (qlevel(m, ny, oi, oj, nqx, nqy, bit, 0), p + code_len(qcodes(m, ny, oi, oj, nqx, nqy, bit, (t - 1) as nat))),
        ),
    decreases t,
{
    if t > 1 {
        let lo = qlevel(m, ny, oi, oj, nqx, nqy, bit, (t - 2) as nat);
        let gx = top_at(nqx, (t - 1) as nat);
        let gy = top_at(nqy, (t - 1) as nat);
        lemma_qlevel_shape(m, ny, oi, oj, nqx, nqy, bit, (t - 2) as nat);
        lemma_top_bounds(nqx, (t - 1) as nat);
        lemma_top_bounds(nqy, (t - 1) as nat);
        assert(top_at(nqy, t) == (gy + 1) / 2);
        lemma_spread_reduce(lo, gx, gy);
        let prev = qcodes(m, ny, oi, oj, nqx, nqy, bit, (t - 2) as nat);
        let here = nonzeros(lo);
        lemma_rev_code_bits_concat(prev, here);
        lemma_bits_at_concat(bs, p, rev_code_bits(here), rev_code_bits(prev));
        assert(lo.take(lo.len() as int) =~= lo);
        lemma_fill_roundtrip(bs, p, lo, lo.len() as int);
        assert(flags(lo).take(lo.len() as int) + lo.skip(lo.len() as int) =~= flags(lo));
        lemma_rev_code_bits_len(here);
        let q = p + code_len(here);
        lemma_expand_roundtrip(bs, q, m, ny, oi, oj, nqx, nqy, bit, (t - 1) as nat);
        lemma_code_len_concat(prev, here);
    } else {
        assert(qcodes(m, ny, oi, oj, nqx, nqy, bit, 0) =~= Seq::<u8>::empty());
    }
}

/// A 4-bit code reads back as its value.
proof fn lemma_rd_code4(bs: Seq<bool>, p: int, c: int, rest: Seq<bool>)
    requires
        0 <= c < 16,
        bits_at(bs, p, bits_of(c, 4) + rest),
    ensures
        rd(bs, p, 4) == Some(c),
        bits_at(bs, p + 4, rest),
{
    lemma_bits_of_len(c, 4);
    lemma_bits_at_concat(bs, p, bits_of(c, 4), rest);
    lemma_rd_within(bs, p, bits_of(c, 4), 4);
    assert(bits_of(c, 4).subrange(0, 4) =~= bits_of(c, 4));
    lemma_bits_val_of(c, 4);
    vstd::arithmetic::power2::lemma2_to64();
    assert(pow2(4) == 16);
    assert(c % 16 == c);
    assert(rd(bits_of(c, 4), 0, 4) == Some(bits_val(bits_of(c, 4))));
}

/// The top level of a quadrant's quadtree is a single entry.
#[verifier::spinoff_prover]
proof fn lemma_top_single(m: Seq<i32>, ny: int, oi: int, oj: int, nqx: int, nqy: int, bit: u32)
    requires
        nqx >= 1,
        nqy >= 1,
    ensures
        qlevel(m, ny, oi, oj, nqx, nqy, bit, (super::nlevels(nqx, nqy) - 1) as nat).len() == 1,
{
    let mx = if nqx < nqy { nqy } else { nqx };
    let t = super::nlevels(nqx, nqy);
    lemma_qlevel_shape(m, ny, oi, oj, nqx, nqy, bit, (t - 1) as nat);
    if super::ceil_log2(mx) == 0 {
        assert(mx <= 1);
        assert(top_at(nqx, 0) == nqx && top_at(nqy, 0) == nqy);
        assert(top_at(nqx, 1) == (top_at(nqx, 0) + 1) / 2);
        assert(top_at(nqy, 1) == (top_at(nqy, 0) + 1) / 2);
        assert(t == 1);
        assert(top_at(nqx, 1) == 1 && top_at(nqy, 1) == 1);
        assert(top_at(nqx, 1) * top_at(nqy, 1) == 1);
    } else {
        super::lemma_top_log(nqx, mx);
        super::lemma_top_log(nqy, mx);
    }
}

/// One coded bit plane of a quadrant reads back as the plane's block
/// nybbles.
pub proof fn lemma_plane_roundtrip(bs: Seq<bool>, p: int, m: Seq<i32>, ny: int, oi: int, oj: int, nqx: int, nqy: int, bit: u32)
    requires
        nqx >= 1,
        nqy >= 1,
        bits_at(bs, p, super::plane_bits(m, ny, oi, oj, nqx, nqy, bit)),
    ensures
        super::plane_dec(bs, p, nqx, nqy) == Ok::<(Seq<u8>, int), super::HcFault>(
            (qlevel(m, ny, oi, oj, nqx, nqy, bit, 0), p + super::plane_bits(m, ny, oi, oj, nqx, nqy, bit).len()),
        ),
{
    let t = super::nlevels(nqx, nqy);
    let codes = qcodes(m, ny, oi, oj, nqx, nqy, bit, t);
    let bmax = (top_at(nqx, 1) * top_at(nqy, 1) + 1) / 2;
    let g0 = qlevel(m, ny, oi, oj, nqx, nqy, bit, 0);
    let pb = super::plane_bits(m, ny, oi, oj, nqx, nqy, bit);
    lemma_qlevel_shape(m, ny, oi, oj, nqx, nqy, bit, 0);
    if code_len(codes) >= 8 * bmax {
        assert(pb == bits_of(0, 4) + nyb_bits(g0));
        lemma_rd_code4(bs, p, 0, nyb_bits(g0));
        lemma_nybbles_roundtrip(bs, p + 4, g0);
        lemma_bits_of_len(0, 4);
    } else {
        let tail = if codes.len() == 0 { bits_of(hcode(0), 6) } else { rev_code_bits(codes) };
        assert(pb == bits_of(15, 4) + tail);
        lemma_rd_code4(bs, p, 15, tail);
        lemma_bits_of_len(15, 4);
        let top = qlevel(m, ny, oi, oj, nqx, nqy, bit, (t - 1) as nat);
        lemma_top_single(m, ny, oi, oj, nqx, nqy, bit);
        lemma_qlevel_shape(m, ny, oi, oj, nqx, nqy, bit, (t - 1) as nat);
        let prev = qcodes(m, ny, oi, oj, nqx, nqy, bit, (t - 1) as nat);
        assert(codes == prev + nonzeros(top));
        assert(top.drop_last() =~= Seq::<u8>::empty());
        assert(nonzeros(top.drop_last()) == Seq::<u8>::empty());
        let mx = if nqx < nqy { nqy } else { nqx };
        let k = super::ceil_log2(mx);
        if top[0] == 0 {
            assert forall|u: int| 0 <= u < top.len() implies #[trigger] top[u] == 0 by {}
            lemma_zero_codes(m, ny, oi, oj, nqx, nqy, bit, t, (t - 1) as nat);
            lemma_zero_codes(m, ny, oi, oj, nqx, nqy, bit, (t - 1) as nat, (t - 1) as nat);
            assert(codes.len() == 0);
            assert(hlen(0) == 6);
            lemma_huff_roundtrip(bs, p + 4, 0);
            assert(top =~= seq![0u8]);
            let q = p + 10;
            lemma_bits_of_len(hcode(0), 6);
            assert(rev_code_bits(prev) =~= Seq::<bool>::empty());
            if k == 0 {
                assert(t == 1);
            } else {
                assert(bits_at(bs, q, rev_code_bits(prev))) by {
                    assert(bs.subrange(q, q) =~= Seq::<bool>::empty());
                }
                lemma_expand_roundtrip(bs, q, m, ny, oi, oj, nqx, nqy, bit, t);
                lemma_code_len_nonneg(prev);
                assert(code_len(prev) == 0);
            }
        } else {
            let v = top[0];
            assert(nonzeros(top) =~= seq![v]);
            assert(seq![v].drop_last() =~= Seq::<u8>::empty());
            assert(seq![v].last() == v);
            assert(rev_code_bits(Seq::<u8>::empty()) == Seq::<bool>::empty());
            assert(rev_code_bits(seq![v]) =~= bits_of(hcode(v as int), hlen(v as int)) + Seq::<bool>::empty());
            lemma_rev_code_bits_concat(prev, seq![v]);
            assert(codes.len() > 0);
            assert(tail == bits_of(hcode(v as int), hlen(v as int)) + rev_code_bits(prev));
            lemma_bits_at_concat(bs, p + 4, bits_of(hcode(v as int), hlen(v as int)), rev_code_bits(prev));
            lemma_bits_of_len(hcode(v as int), hlen(v as int));
            lemma_huff_roundtrip(bs, p + 4, v as int);
            let q = p + 4 + hlen(v as int);
            assert(top =~= seq![v]);
            lemma_rev_code_bits_len(prev);
            lemma_rev_code_bits_len(codes);
            if k == 0 {
                assert(t == 1);
                assert(prev =~= Seq::<u8>::empty());
            } else {
                lemma_expand_roundtrip(bs, q, m, ny, oi, oj, nqx, nqy, bit, t);
            }
            lemma_code_len_concat(prev, seq![v]);
            assert(code_len(seq![v]) == hlen(v as int)) by {
                assert(seq![v].drop_last() =~= Seq::<u8>::empty());
            }
        }
    }
}

/// The quadrant entries after or-ing in the coded bit planes `count - 1`
/// down to 0 (`qtree_decode`'s loop over planes).
pub open spec fn quad_acc(
    a: Seq<i32>,
    m: Seq<i32>,
    ny: int,
    oi: int,
    oj: int,
    nqx: int,
    nqy: int,
    count: int,
) -> Seq<i32>
    decreases count,
{
    if count <= 0 {
        a
    } else {
        quad_acc(
            super::ins(a, ny, oi, oj, nqx, nqy, qlevel(m, ny, oi, oj, nqx, nqy, (count - 1) as u32, 0), super::plane(count - 1)),
            m,
            ny,
            oi,
            oj,
            nqx,
            nqy,
            count - 1,
        )
    }
}

/// The coded bit planes of a quadrant read back plane by plane.
pub proof fn lemma_quad_stream(
    bs: Seq<bool>,
    p: int,
    a: Seq<i32>,
    m: Seq<i32>,
    ny: int,
    oi: int,
    oj: int,
    nqx: int,
    nqy: int,
    count: int,
)
    requires
        nqx >= 1,
        nqy >= 1,
        0 <= count <= 32,
        bits_at(bs, p, super::quad_bits(m, ny, oi, oj, nqx, nqy, count)),
    ensures
        super::quad_dec(bs, p, a, ny, oi, oj, nqx, nqy, count) == Ok::<(Seq<i32>, int), super::HcFault>(
            (quad_acc(a, m, ny, oi, oj, nqx, nqy, count), p + super::quad_bits(m, ny, oi, oj, nqx, nqy, count).len()),
        ),
    decreases count,
{
    if count > 0 {
        let b = (count - 1) as u32;
        let pb = super::plane_bits(m, ny, oi, oj, nqx, nqy, b);
        let rest = super::quad_bits(m, ny, oi, oj, nqx, nqy, count - 1);
        assert(super::quad_bits(m, ny, oi, oj, nqx, nqy, count) == pb + rest);
        lemma_bits_at_concat(bs, p, pb, rest);
        lemma_plane_roundtrip(bs, p, m, ny, oi, oj, nqx, nqy, b);
        let a2 = super::ins(a, ny, oi, oj, nqx, nqy, qlevel(m, ny, oi, oj, nqx, nqy, b, 0), super::plane(count - 1));
        lemma_quad_stream(bs, p + pb.len(), a2, m, ny, oi, oj, nqx, nqy, count - 1);
    }
}

/// Or-ing in bit `b` of `v` where it is set extends the low bits of `v`
/// kept from `b` to `b + 1`.
proof fn lemma_or_plane(x: i32, v: i32, b: u32)
    by (bit_vector)
    requires
        b < 31,
    ensures
        (x | (if (v >> b) & 1i32 == 1i32 { (1u32 << b) as i32 } else { 0i32 })) | (v & !(-1i32 << b)) == x | (v & !(
            -1i32 << (b + 1) as u32)),
        x | (v & !(-1i32 << 0u32)) == x,
        x | 0i32 == x,
{
}

/// Bit `b` of the quadrant entry at `(i, j)` is the bit of its block's
/// nybble in plane `b`.
proof fn lemma_plane_pixel(m: Seq<i32>, ny: int, oi: int, oj: int, nqx: int, nqy: int, bit: u32, i: int, j: int)
    requires
        nqx >= 1,
        nqy >= 1,
        0 <= i < nqx,
        0 <= j < nqy,
    ensures
        nbit(qlevel(m, ny, oi, oj, nqx, nqy, bit, 0)[(i / 2) * top_at(nqy, 1) + j / 2], corner(i, j)) as int == cbit(
            super::qel(m, ny, oi, oj, i, j),
            bit,
        ),
        0 <= (i / 2) * top_at(nqy, 1) + j / 2 < qlevel(m, ny, oi, oj, nqx, nqy, bit, 0).len(),
{
    let gy = top_at(nqy, 1);
    let gx = top_at(nqx, 1);
    let bi = i / 2;
    let bj = j / 2;
    let t = bi * gy + bj;
    assert(gy == (nqy + 1) / 2 && gx == (nqx + 1) / 2) by {
        reveal_with_fuel(top_at, 2);
    }
    assert(0 <= bj < gy && 0 <= bi < gx);
    assert(0 <= t < gx * gy) by (nonlinear_arith)
        requires
            0 <= bj < gy,
            0 <= bi < gx,
            t == bi * gy + bj,
    ;
    lemma_fundamental_div_mod_converse(t, gy, bi, bj);
    lemma_qlevel_shape(m, ny, oi, oj, nqx, nqy, bit, 0);
    let g = qlevel(m, ny, oi, oj, nqx, nqy, bit, 0);
    assert(g[t] == onebit_at(m, ny, oi, oj, nqx, nqy, bit, bi, bj) as u8);
    let c00 = cbit(super::qel(m, ny, oi, oj, 2 * bi, 2 * bj), bit);
    let c01 = if 2 * bj + 1 < nqy { cbit(super::qel(m, ny, oi, oj, 2 * bi, 2 * bj + 1), bit) } else { 0 };
    let c10 = if 2 * bi + 1 < nqx { cbit(super::qel(m, ny, oi, oj, 2 * bi + 1, 2 * bj), bit) } else { 0 };
    let c11 = if 2 * bi + 1 < nqx && 2 * bj + 1 < nqy {
        cbit(super::qel(m, ny, oi, oj, 2 * bi + 1, 2 * bj + 1), bit)
    } else {
        0
    };
    lemma_cbit_bit(super::qel(m, ny, oi, oj, 2 * bi, 2 * bj), bit);
    lemma_cbit_bit(super::qel(m, ny, oi, oj, 2 * bi, 2 * bj + 1), bit);
    lemma_cbit_bit(super::qel(m, ny, oi, oj, 2 * bi + 1, 2 * bj), bit);
    lemma_cbit_bit(super::qel(m, ny, oi, oj, 2 * bi + 1, 2 * bj + 1), bit);
    assert(onebit_at(m, ny, oi, oj, nqx, nqy, bit, bi, bj) == 8 * c00 + 4 * c01 + 2 * c10 + c11);
    lemma_nybble_bits(c00 as u8, c01 as u8, c10 as u8, c11 as u8);
    assert(g[t] == (8 * (c00 as u8) + 4 * (c01 as u8) + 2 * (c10 as u8) + (c11 as u8)) as u8);
    assert(i == 2 * bi + i % 2 && j == 2 * bj + j % 2);
}

/// Whether position `p` of a tile with rows of `ny` lies in the `nqx` by
/// `nqy` quadrant at `(oi, oj)`.
pub open spec fn in_quad(p: int, ny: int, oi: int, oj: int, nqx: int, nqy: int) -> bool {
    0 <= p / ny - oi < nqx && 0 <= p % ny - oj < nqy
}

/// Plane `b` below the sign bit is the `u32` one shifted by `b`.
proof fn lemma_plane_shift(b: u32)
    requires
        b < 31,
    ensures
        super::plane(b as int) == (1u32 << b) as i32,
{
    vstd::arithmetic::power2::lemma2_to64();
    vstd::arithmetic::power2::lemma_pow2_strictly_increases(b as nat, 31);
    vstd::bits::lemma_u32_shl_is_mul(1u32, b);
}

/// What or-ing in the coded bit planes `count - 1` down to 0 does to each
/// entry: quadrant entries gain the low `count` bits of `m`'s entry at the
/// same position, the others stay.
proof fn lemma_quad_values(a: Seq<i32>, m: Seq<i32>, ny: int, oi: int, oj: int, nqx: int, nqy: int, count: int)
    requires
        nqx >= 1,
        nqy >= 1,
        ny >= 1,
        oi >= 0,
        oj >= 0,
        oj + nqy <= ny,
        0 <= count <= 31,
    ensures
        quad_acc(a, m, ny, oi, oj, nqx, nqy, count).len() == a.len(),
        forall|p: int|
            0 <= p < a.len() ==> #[trigger] quad_acc(a, m, ny, oi, oj, nqx, nqy, count)[p] == if in_quad(
                p,
                ny,
                oi,
                oj,
                nqx,
                nqy,
            ) {
                a[p] | (m[p] & !(-1i32 << count as u32))
            } else {
                a[p]
            },
    decreases count,
{
    if count == 0 {
        assert forall|p: int| 0 <= p < a.len() implies #[trigger] quad_acc(a, m, ny, oi, oj, nqx, nqy, count)[p] == if in_quad(
            p,
            ny,
            oi,
            oj,
            nqx,
            nqy,
        ) {
            a[p] | (m[p] & !(-1i32 << count as u32))
        } else {
            a[p]
        } by {
            lemma_or_plane(a[p], m[p], 0);
        }
    } else {
        let b = (count - 1) as u32;
        let g = qlevel(m, ny, oi, oj, nqx, nqy, b, 0);
        let a2 = super::ins(a, ny, oi, oj, nqx, nqy, g, super::plane(count - 1));
        lemma_quad_values(a2, m, ny, oi, oj, nqx, nqy, count - 1);
        lemma_plane_shift(b);
        assert forall|p: int| 0 <= p < a.len() implies #[trigger] quad_acc(a, m, ny, oi, oj, nqx, nqy, count)[p] == if in_quad(
            p,
            ny,
            oi,
            oj,
            nqx,
            nqy,
        ) {
            a[p] | (m[p] & !(-1i32 << count as u32))
        } else {
            a[p]
        } by {
            let i = p / ny - oi;
            let j = p % ny - oj;
            if in_quad(p, ny, oi, oj, nqx, nqy) {
                lemma_plane_pixel(m, ny, oi, oj, nqx, nqy, b, i, j);
                vstd::arithmetic::div_mod::lemma_fundamental_div_mod(p, ny);
                assert((oi + i) * ny + (oj + j) == p) by (nonlinear_arith)
                    requires
                        i == p / ny - oi,
                        j == p % ny - oj,
                        p == ny * (p / ny) + p % ny,
                ;
                assert(super::qel(m, ny, oi, oj, i, j) == m[p]);
                let v = m[p];
                lemma_or_plane(a[p], v, b);
                assert((b + 1) as u32 == count as u32);
                if (v >> b) & 1i32 == 1i32 {
                    assert(a2[p] == a[p] | super::plane(count - 1));
                } else {
                    assert(a2[p] == a[p]);
                }
            } else {
                assert(a2[p] == a[p]);
            }
        }
    }
}

/// A quadrant's coded bit planes `count - 1` down to 0 read back
/// (`qtree_decode` of `qtree_encode`): each quadrant entry gains the low
/// `count` bits of the entry coded at its position, the other entries stay.
pub proof fn lemma_quad_roundtrip(
    bs: Seq<bool>,
    p: int,
    a: Seq<i32>,
    m: Seq<i32>,
    ny: int,
    oi: int,
    oj: int,
    nqx: int,
    nqy: int,
    count: int,
)
    requires
        nqx >= 1,
        nqy >= 1,
        ny >= 1,
        oi >= 0,
        oj >= 0,
        oj + nqy <= ny,
        0 <= count <= 31,
        bits_at(bs, p, super::quad_bits(m, ny, oi, oj, nqx, nqy, count)),
    ensures
        super::quad_dec(bs, p, a, ny, oi, oj, nqx, nqy, count) matches Ok((r, q)) && q == p + super::quad_bits(
            m,
            ny,
            oi,
            oj,
            nqx,
            nqy,
            count,
        ).len() && r.len() == a.len() && forall|k: int|
            0 <= k < a.len() ==> #[trigger] r[k] == if in_quad(k, ny, oi, oj, nqx, nqy) {
                a[k] | (m[k] & !(-1i32 << count as u32))
            } else {
                a[k]
            },
{
    lemma_quad_stream(bs, p, a, m, ny, oi, oj, nqx, nqy, count);
    lemma_quad_values(a, m, ny, oi, oj, nqx, nqy, count);
}

/// The sign bits of the first `k` entries lead those of the first `n`.
proof fn lemma_sign_seq_prefix(z: Seq<i32>, k: int, n: int)
    requires
        0 <= k <= n,
    ensures
        super::sign_seq(z, n).subrange(0, super::sign_seq(z, k).len() as int) == super::sign_seq(z, k),
        super::sign_seq(z, k).len() <= super::sign_seq(z, n).len(),
    decreases n - k,
{
    if k < n {
        lemma_sign_seq_prefix(z, k, n - 1);
        let a = super::sign_seq(z, k);
        let b = super::sign_seq(z, n - 1);
        let c = super::sign_seq(z, n);
        assert(c.subrange(0, b.len() as int) =~= b);
        assert(c.subrange(0, a.len() as int) =~= b.subrange(0, a.len() as int));
    } else {
        assert(super::sign_seq(z, n).subrange(0, super::sign_seq(z, n).len() as int) =~= super::sign_seq(z, n));
    }
}

/// The entries from `k` on still as magnitudes, the earlier ones signed.
pub open spec fn signed_upto(z: Seq<i32>, n: int, k: int) -> Seq<i32> {
    Seq::new(z.len(), |i: int| if i < k { z[i] } else { super::magnitudes(z, n)[i] })
}

proof fn lemma_sign_step(bs: Seq<bool>, p: int, z: Seq<i32>, n: int, k: int)
    requires
        0 <= k <= n <= z.len(),
        forall|i: int| 0 <= i < n ==> #[trigger] z[i] != i32::MIN,
        bits_at(bs, p, super::sign_seq(z, n)),
    ensures
        super::sign_dec(bs, p + super::sign_seq(z, k).len(), signed_upto(z, n, k), k, n) == Ok::<Seq<i32>, super::HcFault>(z),
    decreases n - k,
{
    let a = signed_upto(z, n, k);
    let q = p + super::sign_seq(z, k).len();
    if k >= n {
        assert(a =~= z);
    } else {
        lemma_sign_step(bs, p, z, n, k + 1);
        let a1 = signed_upto(z, n, k + 1);
        let v = z[k];
        assert(a[k] == super::magnitudes(z, n)[k]);
        if v == 0 {
            assert(a[k] == 0);
            assert(a =~= a1);
            assert(super::sign_seq(z, k + 1) =~= super::sign_seq(z, k));
        } else {
            assert(a[k] != 0);
            let bit = v < 0;
            assert(super::sign_seq(z, k + 1) == super::sign_seq(z, k) + seq![bit]);
            lemma_sign_seq_prefix(z, k + 1, n);
            let whole = super::sign_seq(z, n);
            let pre = super::sign_seq(z, k + 1);
            assert(bs.subrange(p, p + whole.len()) == whole);
            assert(bs[q] == whole[q - p]);
            assert(whole[q - p] == pre[q - p]);
            assert(pre[q - p] == bit);
            assert(bs.subrange(q, q + 1) =~= seq![bit]);
            assert(seq![bit].drop_last() =~= Seq::<bool>::empty());
            assert(q + 1 <= bs.len());
            assert(bits_val(seq![bit]) == bits_val(Seq::<bool>::empty()) * 2 + if bit { 1int } else { 0 });
            assert(bits_val(seq![bit]) == if bit { 1int } else { 0 });
            assert(super::rd(bs, q, 1) == Some(if bit { 1int } else { 0 }));
            if bit {
                assert(a.update(k, super::ws(0, a[k])) =~= a1);
            } else {
                assert(a =~= a1);
            }
        }
    }
}

/// The sign bits written for the non-zero entries (one each, set for the
/// negative ones) turn the entries' magnitudes back into the entries
/// (`dodecode`'s sign pass of `doencode`'s), where no entry is `i32::MIN`.
pub proof fn lemma_sign_roundtrip(bs: Seq<bool>, p: int, z: Seq<i32>, n: int)
    requires
        0 <= n <= z.len(),
        forall|i: int| 0 <= i < n ==> #[trigger] z[i] != i32::MIN,
        bits_at(bs, p, super::sign_seq(z, n)),
    ensures
        super::sign_dec(bs, p, super::magnitudes(z, n), 0, n) == Ok::<Seq<i32>, super::HcFault>(z),
{
    lemma_sign_step(bs, p, z, n, 0);
    assert(signed_upto(z, n, 0) =~= super::magnitudes(z, n));
    assert(super::sign_seq(z, 0).len() == 0);
}

} // verus!
