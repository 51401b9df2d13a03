//! IRAF pixel-list (PLIO) codec used by `PLIO_1` (`pl_p2li` / `pl_l2pi`).
//! Values must be in `0..=16_777_215` (unsigned 24-bit). The compressed
//! form is a stream of `i16` words: a 7-word header, then instructions of a
//! 4-bit opcode and 12 bits of data.
use vstd::prelude::*;
use crate::error::FitsError;
use crate::status::{DATA_COMPRESSION_ERR, DATA_DECOMPRESSION_ERR};

verus! {

// ---------------------------------------------------------------------
// Decoding: the line list read as instructions.
// ---------------------------------------------------------------------

/// Opcode of an instruction word (`word / 4096`, rounded toward zero).
pub open spec fn ll_opcode(w: i16) -> int {
    if w >= 0 {
        w as int / 4096
    } else {
        -((-(w as int)) / 4096)
    }
}

/// Data field of an instruction word (its low 12 bits).
pub open spec fn ll_data(w: i16) -> int {
    (w as int) % 4096
}

/// `n` copies of `v`.
pub open spec fn repeat(v: i32, n: int) -> Seq<i32> {
    Seq::new(if n > 0 { n as nat } else { 0 }, |i: int| v)
}

/// The pixels a zero/value run writes: `n` pixels of `v` (opcode 4), or of
/// 0 (opcodes 0 and 5), the last of them `v` for opcode 5 when the run ends
/// within the line (`whole`).
pub open spec fn run_pixels(opcode: int, v: i32, n: int, whole: bool) -> Seq<i32> {
    if opcode == 4 {
        repeat(v, n)
    } else if opcode == 5 && whole && n > 0 {
        repeat(0, n - 1).push(v)
    } else {
        repeat(0, n)
    }
}

/// Why a line list cannot be read.
#[derive(Debug, Clone, Copy, PartialEq, Eq)]
pub enum PlioFault {
    /// An instruction lies outside the words.
    OutOfBounds,
    /// A set-value instruction is the last word.
    MissingWord,
}

/// Run the instructions of `words` (1-based positions `ip ..= lllen`) on
/// a line of `npix` pixels from position `x1` with value register `pv`,
/// after the pixels `out`: the pixels written, or why the words end early.
pub open spec fn ll_run(words: Seq<i16>, lllen: int, npix: int, ip: int, x1: int, pv: int, out: Seq<i32>) -> Result<Seq<i32>, PlioFault>
    decreases lllen + 2 - ip,
{
    if ip > lllen || x1 > npix {
        Ok(out)
    } else if ip < 1 || ip > words.len() {
        Err(PlioFault::OutOfBounds)
    } else {
        let w = words[ip - 1];
        let op = ll_opcode(w);
        let data = ll_data(w);
        if op == 0 || op == 4 || op == 5 {
            let x2 = x1 + data - 1;
            let i2 = if x2 < npix { x2 } else { npix };
            let n = i2 - x1 + 1;
            ll_run(words, lllen, npix, ip + 1, x2 + 1, pv, out + run_pixels(op, pv as i32, n, i2 == x2))
        } else if op == 1 {
            if ip + 1 > words.len() {
                Err(PlioFault::MissingWord)
            } else {
                ll_run(words, lllen, npix, ip + 2, x1, (words[ip] as int) * 4096 + data, out)
            }
        } else if op == 2 {
            ll_run(words, lllen, npix, ip + 1, x1, pv + data, out)
        } else if op == 3 {
            ll_run(words, lllen, npix, ip + 1, x1, pv - data, out)
        } else if op == 6 {
            ll_run(words, lllen, npix, ip + 1, x1 + 1, pv + data, out.push((pv + data) as i32))
        } else if op == 7 {
            ll_run(words, lllen, npix, ip + 1, x1 + 1, pv - data, out.push((pv - data) as i32))
        } else {
            ll_run(words, lllen, npix, ip + 1, x1, pv, out)
        }
    }
}

/// Where the instructions of a line list start and end (1-based): a
/// positive third word is the old-style length with instructions from the
/// fourth word; otherwise words 4 and 5 hold the length and word 2 the
/// header size.
pub open spec fn ll_bounds(words: Seq<i16>) -> (int, int) {
    if words[2] > 0 {
        (words[2] as int, 4int)
    } else {
        ((words[4] as int) * 32768 + words[3] as int, words[1] as int + 1)
    }
}

/// `pl_l2pi`: the `npix` pixels of a line list, zero-filled past the last
/// written pixel, or why the words end early.
pub open spec fn pl_l2pi_of(words: Seq<i16>, npix: int) -> Result<Seq<i32>, PlioFault> {
    if npix == 0 || words.len() == 0 {
        Ok(repeat(0, npix))
    } else {
        let (lllen, llfirt) = ll_bounds(words);
        if lllen <= 0 {
            Ok(repeat(0, npix))
        } else {
            match ll_run(words, lllen, npix, llfirt, 1, 1, Seq::empty()) {
                Err(f) => Err(f),
                Ok(out) => Ok(out + repeat(0, npix - out.len())),
            }
        }
    }
}

/// The message of an instruction outside the words.
pub open spec fn out_of_bounds_message() -> Seq<char> {
    "error: out-of-bounds memory access attempt (imcomp_decompress_tile)"@
}

/// Words `pl_l2pi` can read its header from.
pub open spec fn ll_header_ok(words: Seq<i16>) -> bool {
    words.len() >= 3 && (words[2] > 0 || words.len() >= 5)
}

/// Opcode and data field of a word.
fn split_word(w: i16) -> (r: (i64, i64))
    ensures
        r.0 == ll_opcode(w),
        r.1 == ll_data(w),
        0 <= r.1 < 4096,
{
    let v = w as i64;
    let op = if v >= 0 { v / 4096 } else { -((-v) / 4096) };
    let data = (v + 65536) % 4096;
    proof {
        let q = (v + 65536) / 4096;
        vstd::arithmetic::div_mod::lemma_fundamental_div_mod(v + 65536, 4096);
        vstd::arithmetic::div_mod::lemma_fundamental_div_mod_converse(v as int, 4096, q - 16, data as int);
    }
    (op, data)
}

/// Append `n` copies of `v`.
fn push_repeat(out: &mut Vec<i32>, v: i32, n: i64)
    requires
        n >= 0,
    ensures
        final(out)@ == old(out)@ + repeat(v, n as int),
{
    let mut k: i64 = 0;
    while k < n
        invariant
            0 <= k <= n,
            out@ == old(out)@ + repeat(v, k as int),
        decreases n - k,
    {
        out.push(v);
        assert(old(out)@ + repeat(v, k + 1) =~= (old(out)@ + repeat(v, k as int)).push(v));
        k += 1;
    }
}

/// Translate a PLIO line list into `npix` integer pixels.
pub fn decompress(words: &[i16], npix: usize) -> (r: Result<Vec<i32>, FitsError>)
    requires
        npix == 0 || words@.len() == 0 || ll_header_ok(words@),
        npix <= i32::MAX,
    ensures
        match pl_l2pi_of(words@, npix as int) {
            Ok(px) => r matches Ok(v) && v@ == px,
            Err(PlioFault::OutOfBounds) => r matches Err(e) && e.status == DATA_DECOMPRESSION_ERR
                && e.message_list() == seq![out_of_bounds_message()],
            Err(PlioFault::MissingWord) => r matches Err(e) && e.status == DATA_DECOMPRESSION_ERR
                && e.message_list().len() == 0,
        },
{
    let n = npix as i64;
    if npix == 0 || words.len() == 0 {
        let mut v: Vec<i32> = Vec::new();
        push_repeat(&mut v, 0, n);
        assert(v@ =~= repeat(0, npix as int));
        return Ok(v);
    }
    let (lllen, llfirt): (i64, i64) = if words[2] > 0 {
        (words[2] as i64, 4)
    } else {
        ((words[4] as i64) * 32768 + words[3] as i64, words[1] as i64 + 1)
    };
    if lllen <= 0 {
        let mut v: Vec<i32> = Vec::new();
        push_repeat(&mut v, 0, n);
        assert(v@ =~= repeat(0, npix as int));
        return Ok(v);
    }
    assert((lllen as int, llfirt as int) == ll_bounds(words@));
    let wlen = words.len();
    let mut ip: i64 = llfirt;
    let mut x1: i64 = 1;
    let mut pv: i64 = 1;
    let mut out: Vec<i32> = Vec::new();
    let ghost whole = ll_run(words@, lllen as int, n as int, llfirt as int, 1, 1, Seq::empty());
    assert(pl_l2pi_of(words@, npix as int) == match whole {
        Err(f) => Err(f),
        Ok(o) => Ok(o + repeat(0, npix - o.len())),
    });
    while ip <= lllen && x1 <= n
        invariant
            pl_l2pi_of(words@, npix as int) == match whole {
                Err(f) => Err(f),
                Ok(o) => Ok(o + repeat(0, npix - o.len())),
            },
            n == npix,
            npix <= i32::MAX,
            wlen == words@.len(),
            lllen <= 0x4000_0000,
            -0x8001 <= llfirt <= 0x8000,
            llfirt <= ip,
            ip <= lllen + 2 || ip == llfirt,
            1 <= x1 <= n + 4096,
            x1 <= n + 1 ==> out@.len() == x1 - 1,
            out@.len() <= n,
            -0x1000_0000 - 4096 * (ip - llfirt) <= pv <= 0x1000_0000 + 4096 * (ip - llfirt),
            whole == ll_run(words@, lllen as int, n as int, ip as int, x1 as int, pv as int, out@),
        decreases lllen + 2 - ip,
    {
        if ip < 1 || (ip as u64) > (wlen as u64) {
            return Err(
                FitsError::with_message(
                    DATA_DECOMPRESSION_ERR,
                    "error: out-of-bounds memory access attempt (imcomp_decompress_tile)",
                ),
            );
        }
        let w = words[(ip - 1) as usize];
        let (op, data) = split_word(w);
        if op == 0 || op == 4 || op == 5 {
            let x2 = x1 + data - 1;
            let i2 = if x2 < n { x2 } else { n };
            let cnt = i2 - x1 + 1;
            let ghost before = out@;
            if cnt > 0 {
                if op == 4 {
                    push_repeat(&mut out, pv as i32, cnt);
                } else if op == 5 && i2 == x2 {
                    push_repeat(&mut out, 0, cnt - 1);
                    out.push(pv as i32);
                    assert(out@ =~= before + run_pixels(op as int, pv as i32, cnt as int, true));
                } else {
                    push_repeat(&mut out, 0, cnt);
                }
            }
            assert(out@ =~= before + run_pixels(op as int, pv as i32, cnt as int, i2 == x2));
            x1 = x2 + 1;
            ip = ip + 1;
        } else if op == 1 {
            if (ip as u64) + 1 > (wlen as u64) {
                return Err(FitsError::new(DATA_DECOMPRESSION_ERR));
            }
            pv = (words[ip as usize] as i64) * 4096 + data;
            ip = ip + 2;
        } else if op == 2 {
            pv = pv + data;
            ip = ip + 1;
        } else if op == 3 {
            pv = pv - data;
            ip = ip + 1;
        } else if op == 6 {
            pv = pv + data;
            out.push(pv as i32);
            x1 = x1 + 1;
            ip = ip + 1;
        } else if op == 7 {
            pv = pv - data;
            out.push(pv as i32);
            x1 = x1 + 1;
            ip = ip + 1;
        } else {
            ip = ip + 1;
        }
    }
    let ghost done = out@;
    let rest = n - out.len() as i64;
    push_repeat(&mut out, 0, rest);
    Ok(out)
}

// ---------------------------------------------------------------------
// Encoding: `pl_p2li`.
// ---------------------------------------------------------------------

/// Zero-run instructions for `nz` zeros: 4095 at most each.
pub open spec fn zero_words(nz: int) -> Seq<i16>
    decreases nz,
{
    if nz <= 0 {
        Seq::empty()
    } else if nz <= 4095 {
        seq![nz as i16]
    } else {
        seq![4095i16] + zero_words(nz - 4095)
    }
}

/// Value-run instructions (opcode 4) for `np` pixels: 4095 at most each.
pub open spec fn value_words(np: int) -> Seq<i16>
    decreases np,
{
    if np <= 0 {
        Seq::empty()
    } else if np <= 4095 {
        seq![(np + 16384) as i16]
    } else {
        seq![(4095 + 16384) as i16] + value_words(np - 4095)
    }
}

/// The encoder's state between pixels: the current run's value `pv` and
/// start `x1`, the start `iz` of the zeros not yet written, the decoder's
/// value register `hi`, the next pixel `nv`, and the instructions so far.
pub struct P2State {
    pub pv: int,
    pub x1: int,
    pub iz: int,
    pub hi: int,
    pub nv: int,
    pub body: Seq<i16>,
}

/// The instruction that moves the decoder's register by `dv`.
pub open spec fn step_word(dv: int) -> int {
    if dv < 0 {
        -dv + 12288
    } else {
        dv + 8192
    }
}

/// Pixel `ip` (1-based) of `n`: end the current run there when the next
/// pixel differs (or at the last pixel) and write its instructions.
pub open spec fn p2li_step(px: Seq<i32>, n: int, ip: int, s: P2State) -> P2State {
    let nv = if ip < n { if px[ip] < 0 { 0 } else { px[ip] as int } } else { s.nv };
    if ip < n && nv == s.pv {
        P2State { nv, ..s }
    } else if ip < n && s.pv == 0 {
        P2State { pv: nv, x1: ip + 1, nv, ..s }
    } else {
        let x1 = if ip >= n && s.pv == 0 { n + 1 } else { s.x1 };
        let np = ip - x1 + 1;
        let nz = x1 - s.iz;
        let dv = s.pv - s.hi;
        let set_hi = s.pv > 0 && dv != 0;
        let big = dv > 4095 || dv < -4095;
        let hi = if set_hi { s.pv } else { s.hi };
        let next = P2State { pv: nv, x1: ip + 1, iz: ip + 1, hi, nv, body: s.body };
        if set_hi && !big && np == 1 && nz == 0 {
            P2State { body: s.body.push((step_word(dv) + 16384) as i16), ..next }
        } else {
            let b1 = if set_hi {
                if big {
                    s.body + seq![(s.pv % 4096 + 4096) as i16, (s.pv / 4096) as i16]
                } else {
                    s.body.push(step_word(dv) as i16)
                }
            } else {
                s.body
            };
            if nz > 0 && np == 1 && s.pv > 0 {
                let zw = zero_words(nz);
                let b2 = b1 + zw;
                P2State { body: b2.update(b2.len() - 1, (b2.last() as int + 20481) as i16), ..next }
            } else {
                let b2 = if nz > 0 {
                    b1 + zero_words(nz)
                } else {
                    b1
                };
                P2State { body: b2 + value_words(np), ..next }
            }
        }
    }
}

/// The encoder state after pixels `ip ..= n`.
pub open spec fn p2li_iter(px: Seq<i32>, n: int, ip: int, s: P2State) -> P2State
    decreases n + 1 - ip,
{
    if ip > n {
        s
    } else {
        p2li_iter(px, n, ip + 1, p2li_step(px, n, ip, s))
    }
}

/// The instructions `pl_p2li` writes for a line of pixels.
pub open spec fn p2li_body(px: Seq<i32>) -> Seq<i16> {
    let n = px.len() as int;
    let s0 = P2State {
        pv: if px[0] < 0 { 0 } else { px[0] as int },
        x1: 1,
        iz: 1,
        hi: 1,
        nv: 0,
        body: Seq::empty(),
    };
    p2li_iter(px, n, 1, s0).body
}

/// `pl_p2li`: the 7-word header (with the list length) and the
/// instructions; nothing for no pixels.
pub open spec fn pl_p2li_of(px: Seq<i32>) -> Seq<i16> {
    if px.len() == 0 {
        Seq::empty()
    } else {
        let body = p2li_body(px);
        let len = 7 + body.len();
        seq![0i16, 7i16, -100i16, (len % 32768) as i16, (len / 32768) as i16, 0i16, 0i16] + body
    }
}

/// Pixels PLIO can hold: `0 ..= 2^24 - 1`.
pub open spec fn plio_range(px: Seq<i32>) -> bool {
    forall|i: int| 0 <= i < px.len() ==> 0 <= #[trigger] px[i] <= 16_777_215
}

fn push_zero_words(out: &mut Vec<i16>, nz: i64)
    requires
        nz >= 0,
    ensures
        final(out)@ == old(out)@ + zero_words(nz as int),
    decreases nz,
{
    if nz > 0 {
        let w: i64 = if nz < 4095 { nz } else { 4095 };
        out.push(w as i16);
        let ghost mid = out@;
        if nz > 4095 {
            push_zero_words(out, nz - 4095);
        }
        assert(old(out)@ + zero_words(nz as int) =~= mid + zero_words(nz - 4095));
    } else {
        assert(old(out)@ + zero_words(nz as int) =~= old(out)@);
    }
}

fn push_value_words(out: &mut Vec<i16>, np: i64)
    requires
        np >= 0,
    ensures
        final(out)@ == old(out)@ + value_words(np as int),
    decreases np,
{
    if np > 0 {
        let w: i64 = if np < 4095 { np } else { 4095 };
        out.push((w + 16384) as i16);
        let ghost mid = out@;
        if np > 4095 {
            push_value_words(out, np - 4095);
        }
        assert(old(out)@ + value_words(np as int) =~= mid + value_words(np - 4095));
    } else {
        assert(old(out)@ + value_words(np as int) =~= old(out)@);
    }
}

proof fn lemma_zero_words_nonempty(nz: int)
    requires
        nz > 0,
    ensures
        zero_words(nz).len() > 0,
{
}

proof fn lemma_words_len(nz: int)
    requires
        nz >= 0,
    ensures
        zero_words(nz).len() <= nz,
        value_words(nz).len() <= nz,
    decreases nz,
{
    if nz > 4095 {
        lemma_words_len(nz - 4095);
    }
}

/// `pl_p2li` on pixels in PLIO's range.
fn pl_p2li(px: &[i32]) -> (r: Vec<i16>)
    requires
        px@.len() <= i32::MAX,
        plio_range(px@),
    ensures
        r@ == pl_p2li_of(px@),
{
    let n = px.len() as i64;
    if n == 0 {
        return Vec::new();
    }
    let mut pv: i64 = px[0] as i64;
    let mut x1: i64 = 1;
    let mut iz: i64 = 1;
    let mut hi: i64 = 1;
    let mut nv: i64 = 0;
    let mut body: Vec<i16> = Vec::new();
    let ghost s0 = P2State { pv: pv as int, x1: 1, iz: 1, hi: 1, nv: 0, body: Seq::empty() };
    let mut ip: i64 = 1;
    while ip <= n
        invariant
            n == px@.len(),
            n <= i32::MAX,
            plio_range(px@),
            1 <= ip <= n + 1,
            0 <= pv <= 16_777_215,
            0 <= hi <= 16_777_215,
            0 <= nv <= 16_777_215,
            1 <= iz <= x1 <= ip + 1,
            iz <= ip,
            x1 <= n + 1,
            body@.len() <= 3 * (iz - 1),
            p2li_iter(px@, n as int, 1, s0) == p2li_iter(
                px@,
                n as int,
                ip as int,
                P2State { pv: pv as int, x1: x1 as int, iz: iz as int, hi: hi as int, nv: nv as int, body: body@ },
            ),
        decreases n + 1 - ip,
    {
        let ghost st = P2State { pv: pv as int, x1: x1 as int, iz: iz as int, hi: hi as int, nv: nv as int, body: body@ };
        let ghost nxt = p2li_step(px@, n as int, ip as int, st);
        if ip < n {
            let p = px[ip as usize];
            nv = if p < 0 { 0 } else { p as i64 };
            if nv == pv {
                assert(nxt == P2State { nv: nv as int, ..st });
                ip += 1;
                continue;
            }
            if pv == 0 {
                pv = nv;
                x1 = ip + 1;
                assert(nxt == P2State { pv: nv as int, x1: x1 as int, nv: nv as int, ..st });
                ip += 1;
                continue;
            }
        } else if pv == 0 {
            x1 = n + 1;
        }
        let np = ip - x1 + 1;
        let nz = x1 - iz;
        let dv = pv - hi;
        let set_hi = pv > 0 && dv != 0;
        let big = dv > 4095 || dv < -4095;
        let ghost b0 = body@;
        if set_hi {
            hi = pv;
            if big {
                body.push((pv % 4096 + 4096) as i16);
                body.push((pv / 4096) as i16);
            } else {
                let w = if dv < 0 { -dv + 12288 } else { dv + 8192 };
                if np == 1 && nz == 0 {
                    body.push((w + 16384) as i16);
                    x1 = ip + 1;
                    iz = x1;
                    pv = nv;
                    assert(nxt.body == body@);
                    ip += 1;
                    continue;
                }
                body.push(w as i16);
            }
        }
        let ghost b1 = body@;
        if nz > 0 && np == 1 && pv > 0 {
            push_zero_words(&mut body, nz);
            proof {
                lemma_zero_words_nonempty(nz as int);
            }
            let last = body.len() - 1;
            let lw = body[last];
            body.set(last, (lw as i64 + 20481) as i16);
        } else {
            if nz > 0 {
                push_zero_words(&mut body, nz);
            }
            let npp = if np > 0 { np } else { 0 };
            push_value_words(&mut body, npp);
            assert(value_words(np as int) == value_words(npp as int));
        }
        proof {
            lemma_words_len(nz as int);
            lemma_words_len(if np > 0 { np as int } else { 0 });
            assert(b1.len() <= b0.len() + 2);
            assert(body@.len() <= b1.len() + nz + (if np > 0 { np as int } else { 0 }));
        }
        x1 = ip + 1;
        iz = x1;
        pv = nv;
        assert(nxt.body =~= body@);
        ip += 1;
    }
    let len: i64 = 7 + body.len() as i64;
    let mut out: Vec<i16> = Vec::new();
    out.push(0);
    out.push(7);
    out.push(-100);
    out.push((len % 32768) as i16);
    out.push((len / 32768) as i16);
    out.push(0);
    out.push(0);
    let mut k: usize = 0;
    let ghost head = out@;
    while k < body.len()
        invariant
            k <= body@.len(),
            out@ == head + body@.subrange(0, k as int),
        decreases body.len() - k,
    {
        out.push(body[k]);
        assert(body@.subrange(0, k + 1) =~= body@.subrange(0, k as int).push(body@[k as int]));
        k += 1;
    }
    assert(body@.subrange(0, body@.len() as int) =~= body@);
    assert(out@ =~= pl_p2li_of(px@));
    out
}

/// The message for a pixel outside PLIO's range.
pub open spec fn plio_range_message() -> Seq<char> {
    "data out of range for PLIO compression (0 - 2**24)"@
}

/// Convert a pixel array to a PLIO line list (`pl_p2li`).
pub fn compress(pixels: &[i32]) -> (r: Result<Vec<i16>, FitsError>)
    requires
        pixels@.len() <= i32::MAX,
    ensures
        plio_range(pixels@) ==> (r matches Ok(v) && v@ == pl_p2li_of(pixels@)),
        !plio_range(pixels@) ==> (r matches Err(e) && e.status == DATA_COMPRESSION_ERR
            && e.message_list() == seq![plio_range_message()]),
{
    let mut i: usize = 0;
    while i < pixels.len()
        invariant
            i <= pixels@.len(),
            forall|j: int| 0 <= j < i ==> 0 <= #[trigger] pixels@[j] <= 16_777_215,
        decreases pixels.len() - i,
    {
        let p = pixels[i];
        if !(0 <= p && p <= 16_777_215) {
            return Err(
                FitsError::with_message(
                    DATA_COMPRESSION_ERR,
                    "data out of range for PLIO compression (0 - 2**24)",
                ),
            );
        }
        i += 1;
    }
    Ok(pl_p2li(pixels))
}

// ---------------------------------------------------------------------
// Reading back what was written.
// ---------------------------------------------------------------------

/// `a` then `b` copies of `v` are `a + b` copies.
proof fn lemma_repeat_add(v: i32, a: int, b: int)
    requires
        a >= 0,
        b >= 0,
    ensures
        repeat(v, a) + repeat(v, b) == repeat(v, a + b),
{
    assert(repeat(v, a) + repeat(v, b) =~= repeat(v, a + b));
}

/// Zero-run instructions for `nz` zeros read back as `nz` zeros.
proof fn lemma_run_zero_words(
    w: Seq<i16>,
    lllen: int,
    npix: int,
    ip: int,
    x: int,
    pv: int,
    out: Seq<i32>,
    nz: int,
)
    requires
        nz >= 0,
        1 <= ip,
        ip - 1 + zero_words(nz).len() <= w.len(),
        ip - 1 + zero_words(nz).len() <= lllen,
        w.subrange(ip - 1, ip - 1 + zero_words(nz).len()) == zero_words(nz),
        x + nz - 1 <= npix,
    ensures
        ll_run(w, lllen, npix, ip, x, pv, out) == ll_run(
            w,
            lllen,
            npix,
            ip + zero_words(nz).len(),
            x + nz,
            pv,
            out + repeat(0, nz),
        ),
    decreases nz,
{
    if nz == 0 {
        assert(out + repeat(0, 0) =~= out);
    } else {
        let c: int = if nz <= 4095 { nz } else { 4095 };
        assert(w[ip - 1] == zero_words(nz)[0]);
        assert(zero_words(nz)[0] == c as i16);
        assert(ll_opcode(c as i16) == 0);
        assert(ll_data(c as i16) == c);
        if nz > 4095 {
            let rest = zero_words(nz - 4095);
            assert(zero_words(nz) == seq![4095i16] + rest);
            assert(w.subrange(ip, ip + rest.len()) =~= rest) by {
                assert forall|k: int| 0 <= k < rest.len() implies w.subrange(ip, ip + rest.len())[k] == rest[k] by {
                    assert(w.subrange(ip - 1, ip - 1 + zero_words(nz).len())[k + 1] == zero_words(nz)[k + 1]);
                }
            }
            lemma_run_zero_words(w, lllen, npix, ip + 1, x + 4095, pv, out + repeat(0, 4095), nz - 4095);
            lemma_repeat_add(0, 4095, nz - 4095);
            assert(out + repeat(0, 4095) + repeat(0, nz - 4095) =~= out + repeat(0, nz));
        }
    }
}

/// Value-run instructions for `np` pixels read back as `np` copies of the
/// register.
proof fn lemma_run_value_words(
    w: Seq<i16>,
    lllen: int,
    npix: int,
    ip: int,
    x: int,
    pv: int,
    out: Seq<i32>,
    np: int,
)
    requires
        np >= 0,
        1 <= ip,
        ip - 1 + value_words(np).len() <= w.len(),
        ip - 1 + value_words(np).len() <= lllen,
        w.subrange(ip - 1, ip - 1 + value_words(np).len()) == value_words(np),
        x + np - 1 <= npix,
    ensures
        ll_run(w, lllen, npix, ip, x, pv, out) == ll_run(
            w,
            lllen,
            npix,
            ip + value_words(np).len(),
            x + np,
            pv,
            out + repeat(pv as i32, np),
        ),
    decreases np,
{
    if np == 0 {
        assert(out + repeat(pv as i32, 0) =~= out);
    } else {
        let c: int = if np <= 4095 { np } else { 4095 };
        assert(w[ip - 1] == value_words(np)[0]);
        assert(value_words(np)[0] == (c + 16384) as i16);
        assert(ll_opcode((c + 16384) as i16) == 4);
        assert(ll_data((c + 16384) as i16) == c);
        if np > 4095 {
            let rest = value_words(np - 4095);
            assert(value_words(np) == seq![(4095 + 16384) as i16] + rest);
            assert(w.subrange(ip, ip + rest.len()) =~= rest) by {
                assert forall|k: int| 0 <= k < rest.len() implies w.subrange(ip, ip + rest.len())[k] == rest[k] by {
                    assert(w.subrange(ip - 1, ip - 1 + value_words(np).len())[k + 1] == value_words(np)[k + 1]);
                }
            }
            lemma_run_value_words(w, lllen, npix, ip + 1, x + 4095, pv, out + repeat(pv as i32, 4095), np - 4095);
            lemma_repeat_add(pv as i32, 4095, np - 4095);
            assert(out + repeat(pv as i32, 4095) + repeat(pv as i32, np - 4095) =~= out + repeat(pv as i32, np));
        }
    }
}

/// The zero pixels right before pixel `k`.
pub open spec fn zrun(px: Seq<i32>, k: int) -> int
    decreases k,
{
    if k <= 0 || k > px.len() || px[k - 1] != 0 {
        0
    } else {
        zrun(px, k - 1) + 1
    }
}

/// Pixel `k` is a lone non-zero pixel after a run of zeros whose length is
/// a multiple of 4095: `pl_p2li` codes the run's last 4095 zeros and the
/// pixel as one instruction that holds neither (its count overflows into
/// the opcode), so such a line does not read back.
pub open spec fn lone_after_gap(px: Seq<i32>, k: int) -> bool {
    &&& px[k] > 0
    &&& (k + 1 == px.len() || px[k + 1] != px[k])
    &&& zrun(px, k) > 0
    &&& zrun(px, k) % 4095 == 0
}

proof fn lemma_zrun(px: Seq<i32>, a: int, b: int)
    requires
        0 <= a <= b <= px.len(),
        a == 0 || px[a - 1] != 0,
        forall|k: int| a <= k < b ==> #[trigger] px[k] == 0,
    ensures
        zrun(px, b) == b - a,
    decreases b,
{
    if b > a {
        lemma_zrun(px, a, b - 1);
    }
}

proof fn lemma_zero_words_split(nz: int)
    requires
        nz > 0,
        nz % 4095 != 0,
    ensures
        zero_words(nz) == zero_words(nz - nz % 4095) + seq![(nz % 4095) as i16],
    decreases nz,
{
    if nz <= 4095 {
        assert(nz % 4095 == nz);
        assert(zero_words(0) =~= Seq::<i16>::empty());
        assert(zero_words(nz) =~= Seq::<i16>::empty() + seq![nz as i16]);
    } else {
        assert((nz - 4095) % 4095 == nz % 4095);
        lemma_zero_words_split(nz - 4095);
        assert((nz - 4095) % 4095 <= nz - 4095) by (nonlinear_arith)
            requires
                nz - 4095 >= 0,
        ;
        let m = nz - nz % 4095;
        assert(m >= 4095);
        if m == 4095 {
            assert(zero_words(0) =~= Seq::<i16>::empty());
            assert(zero_words(m) =~= seq![4095i16] + zero_words(m - 4095));
        } else {
            assert(zero_words(m) == seq![4095i16] + zero_words(m - 4095));
        }
        assert(zero_words(nz) =~= zero_words(nz - nz % 4095) + seq![(nz % 4095) as i16]);
    }
}

/// What holds of the encoder's state before pixel `ip` (1-based): the
/// instructions so far decode to the pixels before `iz`; the pixels from
/// `iz` to `x1` are zero and those from `x1` on, up to `ip`, are the run's
/// value `pv`; the register is `hi`.
pub open spec fn enc_inv(px: Seq<i32>, ip: int, s: P2State) -> bool {
    let n = px.len() as int;
    &&& 1 <= s.iz <= s.x1
    &&& s.iz <= ip <= n + 1
    &&& (s.iz <= n ==> (s.iz == 1 || px[s.iz - 2] != 0))
    &&& 0 <= s.hi <= 16_777_215
    &&& s.body.len() <= 3 * (s.iz - 1)
    &&& (ip <= n ==> (s.x1 <= ip && s.pv == px[ip - 1] as int && (forall|k: int|
        s.x1 - 1 <= k < ip ==> #[trigger] px[k] == s.pv) && (forall|k: int|
        s.iz - 1 <= k < s.x1 - 1 ==> #[trigger] px[k] == 0)))
    &&& (ip == n + 1 ==> s.iz == n + 1)
}

/// The body of a step extends the body before it.
proof fn lemma_step_prefix(px: Seq<i32>, n: int, ip: int, s: P2State)
    ensures
        p2li_step(px, n, ip, s).body.len() >= s.body.len(),
        p2li_step(px, n, ip, s).body.subrange(0, s.body.len() as int) == s.body,
{
    let t = p2li_step(px, n, ip, s);
    let nv = if ip < n { if px[ip] < 0 { 0 } else { px[ip] as int } } else { s.nv };
    if ip < n && nv == s.pv {
    } else if ip < n && s.pv == 0 {
    } else {
        let x1 = if ip >= n && s.pv == 0 { n + 1 } else { s.x1 };
        let np = ip - x1 + 1;
        let nz = x1 - s.iz;
        let dv = s.pv - s.hi;
        let set_hi = s.pv > 0 && dv != 0;
        let big = dv > 4095 || dv < -4095;
        if set_hi && !big && np == 1 && nz == 0 {
        } else {
            let b1 = if set_hi {
                if big {
                    s.body + seq![(s.pv % 4096 + 4096) as i16, (s.pv / 4096) as i16]
                } else {
                    s.body.push(step_word(dv) as i16)
                }
            } else {
                s.body
            };
            assert(b1.subrange(0, s.body.len() as int) =~= s.body);
            if nz > 0 && np == 1 && s.pv > 0 {
                let zw = zero_words(nz);
                lemma_zero_words_nonempty(nz);
                let b2 = b1 + zw;
                assert(t.body == b2.update(b2.len() - 1, (b2.last() as int + 20481) as i16));
                assert(t.body.subrange(0, s.body.len() as int) =~= s.body);
            } else {
                let b2 = if nz > 0 { b1 + zero_words(nz) } else { b1 };
                assert(t.body == b2 + value_words(np));
                assert(t.body.subrange(0, s.body.len() as int) =~= s.body);
            }
        }
    }
}

/// The body after the remaining pixels extends the body so far.
proof fn lemma_iter_prefix(px: Seq<i32>, n: int, ip: int, s: P2State)
    ensures
        p2li_iter(px, n, ip, s).body.len() >= s.body.len(),
        p2li_iter(px, n, ip, s).body.subrange(0, s.body.len() as int) == s.body,
    decreases n + 1 - ip,
{
    if ip > n {
        assert(s.body.subrange(0, s.body.len() as int) =~= s.body);
    } else {
        let t = p2li_step(px, n, ip, s);
        lemma_step_prefix(px, n, ip, s);
        lemma_iter_prefix(px, n, ip + 1, t);
        let f = p2li_iter(px, n, ip + 1, t).body;
        assert(f.subrange(0, s.body.len() as int) =~= f.subrange(0, t.body.len() as int).subrange(0, s.body.len() as int));
    }
}

/// A stretch of the instructions as it stands in the line list `w`,
/// whose words from the eighth on are `b`, which begins with `tb`.
proof fn lemma_seg(w: Seq<i16>, b: Seq<i16>, tb: Seq<i16>, a: int, e: int)
    requires
        w.len() == 7 + b.len(),
        w.subrange(7, w.len() as int) == b,
        tb.len() <= b.len(),
        b.subrange(0, tb.len() as int) == tb,
        0 <= a <= e <= tb.len(),
    ensures
        w.subrange(7 + a, 7 + e) == tb.subrange(a, e),
{
    assert forall|k: int| 0 <= k < e - a implies #[trigger] w.subrange(7 + a, 7 + e)[k] == tb.subrange(a, e)[k] by {
        assert(w.subrange(7, w.len() as int)[a + k] == w[7 + a + k]);
        assert(b.subrange(0, tb.len() as int)[a + k] == b[a + k]);
    }
    assert(w.subrange(7 + a, 7 + e) =~= tb.subrange(a, e));
}

/// The register instructions of a step read back as the run's value.
proof fn lemma_run_register(w: Seq<i16>, lllen: int, npix: int, ip: int, x: int, hi: int, pv: int, out: Seq<i32>)
    requires
        0 < pv <= 16_777_215,
        0 <= hi <= 16_777_215,
        pv != hi,
        1 <= ip,
        1 <= x <= npix,
        ip - 1 + (if pv - hi > 4095 || pv - hi < -4095 { 2int } else { 1int }) <= w.len(),
        ip - 1 + (if pv - hi > 4095 || pv - hi < -4095 { 2int } else { 1int }) <= lllen,
        pv - hi > 4095 || pv - hi < -4095 ==> w[ip - 1] == (pv % 4096 + 4096) as i16 && w[ip] == (pv / 4096) as i16,
        !(pv - hi > 4095 || pv - hi < -4095) ==> w[ip - 1] == step_word(pv - hi) as i16,
    ensures
        ll_run(w, lllen, npix, ip, x, hi, out) == ll_run(
            w,
            lllen,
            npix,
            ip + (if pv - hi > 4095 || pv - hi < -4095 { 2int } else { 1int }),
            x,
            pv,
            out,
        ),
{
    let dv = pv - hi;
    if dv > 4095 || dv < -4095 {
        let w1 = (pv % 4096 + 4096) as i16;
        assert(ll_opcode(w1) == 1);
        assert(ll_data(w1) == pv % 4096);
        assert((pv / 4096) * 4096 + pv % 4096 == pv);
    } else if dv > 0 {
        assert(ll_opcode((dv + 8192) as i16) == 2);
        assert(ll_data((dv + 8192) as i16) == dv);
    } else {
        assert(ll_opcode((-dv + 12288) as i16) == 3);
        assert(ll_data((-dv + 12288) as i16) == -dv);
    }
}

/// The pixels before `ip` are those before `iz`, then zeros, then the run.
proof fn lemma_take_parts(px: Seq<i32>, iz: int, x1: int, ip: int, pv: i32)
    requires
        1 <= iz <= x1 <= ip + 1,
        ip <= px.len(),
        forall|k: int| iz - 1 <= k < x1 - 1 ==> #[trigger] px[k] == 0,
        forall|k: int| x1 - 1 <= k < ip ==> #[trigger] px[k] == pv,
    ensures
        px.take(iz - 1) + repeat(0, x1 - iz) + repeat(pv, ip - x1 + 1) == px.take(ip),
{
    let lhs = px.take(iz - 1) + repeat(0, x1 - iz) + repeat(pv, ip - x1 + 1);
    assert forall|k: int| 0 <= k < ip implies #[trigger] lhs[k] == px.take(ip)[k] by {
        if k < iz - 1 {
        } else if k < x1 - 1 {
            assert(px[k] == 0);
        } else {
            assert(px[k] == pv);
        }
    }
    assert(lhs =~= px.take(ip));
}

/// A lone pixel after `nz` zeros, coded as the zero runs with the last
/// one turned into a zero-run-then-value instruction, reads back.
proof fn lemma_case_gap(
    w: Seq<i16>,
    b: Seq<i16>,
    px: Seq<i32>,
    b1: Seq<i16>,
    tb: Seq<i16>,
    iz: int,
    ip: int,
    pv: int,
)
    requires
        w.len() == 7 + b.len(),
        w.subrange(7, w.len() as int) == b,
        tb.len() <= b.len(),
        b.subrange(0, tb.len() as int) == tb,
        1 <= iz < ip <= px.len(),
        (ip - iz) % 4095 != 0,
        tb == b1 + zero_words(ip - iz - (ip - iz) % 4095) + seq![((ip - iz) % 4095 + 20481) as i16],
        0 < pv <= 16_777_215,
        px[ip - 1] as int == pv,
        forall|k: int| iz - 1 <= k < ip - 1 ==> #[trigger] px[k] == 0,
    ensures
        ll_run(w, w.len() as int, px.len() as int, 8 + b1.len() as int, iz, pv, px.take(iz - 1)) == ll_run(
            w,
            w.len() as int,
            px.len() as int,
            8 + tb.len() as int,
            ip + 1,
            pv,
            px.take(ip),
        ),
{
    let n = px.len() as int;
    let lllen = w.len() as int;
    let nz = ip - iz;
    let c = nz % 4095;
    let zl = zero_words(nz - c);
    let out0 = px.take(iz - 1);
    let pvv = pv as i32;
    lemma_words_len(nz - c);
    lemma_seg(w, b, tb, b1.len() as int, (b1.len() + zl.len()) as int);
    assert(tb.subrange(b1.len() as int, (b1.len() + zl.len()) as int) =~= zl);
    lemma_run_zero_words(w, lllen, n, 8 + b1.len() as int, iz, pv, out0, nz - c);
    let p2: int = 8 + b1.len() as int + zl.len() as int;
    lemma_seg(w, b, tb, (b1.len() + zl.len()) as int, tb.len() as int);
    assert(w[p2 - 1] == tb[(b1.len() + zl.len()) as int]);
    let wd = (c + 20481) as i16;
    assert(ll_opcode(wd) == 5 && ll_data(wd) == c + 1);
    assert(run_pixels(5, pv as i32, c + 1, true) =~= repeat(0, c).push(pvv));
    lemma_repeat_add(0, nz - c, c);
    assert(out0 + repeat(0, nz - c) + repeat(0, c).push(pvv) =~= out0 + repeat(0, nz) + repeat(pvv, 1));
    lemma_take_parts(px, iz, ip, ip, pvv);
}

/// Zero runs then value runs read back.
proof fn lemma_case_runs(
    w: Seq<i16>,
    b: Seq<i16>,
    px: Seq<i32>,
    b1: Seq<i16>,
    tb: Seq<i16>,
    iz: int,
    x1: int,
    ip: int,
    reg: int,
    pv: i32,
)
    requires
        w.len() == 7 + b.len(),
        w.subrange(7, w.len() as int) == b,
        tb.len() <= b.len(),
        b.subrange(0, tb.len() as int) == tb,
        1 <= iz <= x1 <= ip + 1,
        ip <= px.len(),
        tb == b1 + zero_words(x1 - iz) + value_words(ip - x1 + 1),
        x1 <= ip ==> reg == pv as int,
        forall|k: int| iz - 1 <= k < x1 - 1 ==> #[trigger] px[k] == 0,
        forall|k: int| x1 - 1 <= k < ip ==> #[trigger] px[k] == pv,
    ensures
        ll_run(w, w.len() as int, px.len() as int, 8 + b1.len() as int, iz, reg, px.take(iz - 1)) == ll_run(
            w,
            w.len() as int,
            px.len() as int,
            8 + tb.len() as int,
            ip + 1,
            reg,
            px.take(ip),
        ),
{
    let n = px.len() as int;
    let lllen = w.len() as int;
    let nz = x1 - iz;
    let np = ip - x1 + 1;
    let zw = zero_words(nz);
    let out0 = px.take(iz - 1);
    let b2 = b1 + zw;
    assert(tb == b2 + value_words(np));
    lemma_seg(w, b, tb, b1.len() as int, b2.len() as int);
    assert(tb.subrange(b1.len() as int, b2.len() as int) =~= zw);
    lemma_run_zero_words(w, lllen, n, 8 + b1.len() as int, iz, reg, out0, nz);
    lemma_seg(w, b, tb, b2.len() as int, tb.len() as int);
    assert(tb.subrange(b2.len() as int, tb.len() as int) =~= value_words(np));
    lemma_run_value_words(w, lllen, n, 8 + b2.len() as int, iz + nz, reg, out0 + repeat(0, nz), np);
    if np == 0 {
        assert(repeat(reg as i32, 0) =~= repeat(pv, 0));
    }
    assert(repeat(reg as i32, np) == repeat(pv, np));
    lemma_take_parts(px, iz, x1, ip, pv);
}

/// A single-pixel register step reads back.
proof fn lemma_case_step(w: Seq<i16>, b: Seq<i16>, px: Seq<i32>, sb: Seq<i16>, tb: Seq<i16>, ip: int, hi: int, pv: int)
    requires
        w.len() == 7 + b.len(),
        w.subrange(7, w.len() as int) == b,
        tb.len() <= b.len(),
        b.subrange(0, tb.len() as int) == tb,
        1 <= ip <= px.len(),
        0 < pv - hi <= 4095 || -4095 <= pv - hi < 0,
        0 <= pv <= 16_777_215,
        tb == sb.push((step_word(pv - hi) + 16384) as i16),
        px[ip - 1] as int == pv,
    ensures
        ll_run(w, w.len() as int, px.len() as int, 8 + sb.len() as int, ip, hi, px.take(ip - 1)) == ll_run(
            w,
            w.len() as int,
            px.len() as int,
            8 + tb.len() as int,
            ip + 1,
            pv,
            px.take(ip),
        ),
{
    let dv = pv - hi;
    lemma_seg(w, b, tb, sb.len() as int, tb.len() as int);
    assert(w[7 + sb.len() as int] == tb[sb.len() as int]);
    let wd = (step_word(dv) + 16384) as i16;
    if dv > 0 {
        assert(ll_opcode(wd) == 6 && ll_data(wd) == dv);
    } else {
        assert(ll_opcode(wd) == 7 && ll_data(wd) == -dv);
    }
    assert(px.take(ip - 1).push((hi + dv) as i32) =~= px.take(ip));
}

/// One pixel of the encoder keeps its state's promise.
proof fn lemma_step_inv(px: Seq<i32>, ip: int, s: P2State)
    requires
        plio_range(px),
        1 <= ip <= px.len(),
        enc_inv(px, ip, s),
    ensures
        enc_inv(px, ip + 1, p2li_step(px, px.len() as int, ip, s)),
{
    let n = px.len() as int;
    let t = p2li_step(px, n, ip, s);
    let nv = if ip < n { if px[ip] < 0 { 0 } else { px[ip] as int } } else { s.nv };
    if ip < n {
        assert(0 <= px[ip] <= 16_777_215);
    }
    if ip < n && nv == s.pv {
    } else if ip < n && s.pv == 0 {
    } else {
        let x1 = if ip >= n && s.pv == 0 { n + 1 } else { s.x1 };
        let nz = x1 - s.iz;
        let np = ip - x1 + 1;
        lemma_words_len(nz);
        lemma_words_len(if np > 0 { np } else { 0 });
        assert(t.iz == ip + 1);
        assert(t.body.len() <= s.body.len() + 3 + ip - s.iz);
    }
}

/// One pixel of the encoder reads back: what the instructions it adds
/// decode to extends the pixels read so far by those it covers.
#[verifier::rlimit(40)]
proof fn lemma_step_reads_back(px: Seq<i32>, ip: int, s: P2State, w: Seq<i16>, b: Seq<i16>)
    requires
        plio_range(px),
        1 <= ip <= px.len(),
        enc_inv(px, ip, s),
        forall|k: int| 0 <= k < px.len() ==> !#[trigger] lone_after_gap(px, k),
        w.len() == 7 + b.len(),
        w.subrange(7, w.len() as int) == b,
        p2li_step(px, px.len() as int, ip, s).body.len() <= b.len(),
        b.subrange(0, p2li_step(px, px.len() as int, ip, s).body.len() as int) == p2li_step(
            px,
            px.len() as int,
            ip,
            s,
        ).body,
    ensures
        ll_run(w, w.len() as int, px.len() as int, 8 + s.body.len() as int, s.iz, s.hi, px.take(s.iz - 1)) == ll_run(
            w,
            w.len() as int,
            px.len() as int,
            8 + p2li_step(px, px.len() as int, ip, s).body.len() as int,
            p2li_step(px, px.len() as int, ip, s).iz,
            p2li_step(px, px.len() as int, ip, s).hi,
            px.take(p2li_step(px, px.len() as int, ip, s).iz - 1),
        ),
{
    let n = px.len() as int;
    let lllen = w.len() as int;
    let t = p2li_step(px, n, ip, s);
    let nv = if ip < n { if px[ip] < 0 { 0 } else { px[ip] as int } } else { s.nv };
    if ip < n {
        assert(0 <= px[ip] <= 16_777_215);
    }
    if ip < n && nv == s.pv {
    } else if ip < n && s.pv == 0 {
    } else {
        let x1 = if ip >= n && s.pv == 0 { n + 1 } else { s.x1 };
        let np = ip - x1 + 1;
        let nz = x1 - s.iz;
        let dv = s.pv - s.hi;
        let set_hi = s.pv > 0 && dv != 0;
        let big = dv > 4095 || dv < -4095;
        let hi2 = if set_hi { s.pv } else { s.hi };
        let p0: int = 8 + s.body.len() as int;
        let out0 = px.take(s.iz - 1);
        let pvv = s.pv as i32;
        assert(forall|k: int| s.iz - 1 <= k < x1 - 1 ==> #[trigger] px[k] == 0);
        assert(forall|k: int| x1 - 1 <= k < ip ==> #[trigger] px[k] == pvv);
        assert(t.iz == ip + 1 && t.hi == hi2);
        if set_hi && !big && np == 1 && nz == 0 {
            lemma_case_step(w, b, px, s.body, t.body, ip, s.hi, s.pv);
        } else {
            let rl: int = if set_hi { if big { 2int } else { 1int } } else { 0int };
            let b1 = if set_hi {
                if big {
                    s.body + seq![(s.pv % 4096 + 4096) as i16, (s.pv / 4096) as i16]
                } else {
                    s.body.push(step_word(dv) as i16)
                }
            } else {
                s.body
            };
            assert(b1.len() == s.body.len() + rl);
            if nz > 0 && np == 1 && s.pv > 0 {
                lemma_zero_words_nonempty(nz);
                let k = ip - 1;
                lemma_zrun(px, s.iz - 1, k);
                assert(!lone_after_gap(px, k));
                assert(ip < n ==> px[ip] != px[k]);
                let c = nz % 4095;
                lemma_zero_words_split(nz);
                let b2 = b1 + zero_words(nz);
                assert(t.body == b2.update(b2.len() - 1, (b2.last() as int + 20481) as i16));
                assert(t.body =~= b1 + zero_words(nz - c) + seq![(c + 20481) as i16]);
            } else {
                let b2 = if nz > 0 { b1 + zero_words(nz) } else { b1 };
                assert(t.body == b2 + value_words(np));
                if nz <= 0 {
                    assert(zero_words(nz) =~= Seq::<i16>::empty());
                }
                assert(t.body =~= b1 + zero_words(nz) + value_words(np));
            }
            assert(t.body.subrange(0, b1.len() as int) =~= b1);
            if set_hi {
                lemma_seg(w, b, t.body, s.body.len() as int, b1.len() as int);
                assert(w[p0 - 1] == b1[s.body.len() as int]);
                if big {
                    assert(w[p0] == b1[s.body.len() as int + 1]);
                }
                lemma_run_register(w, lllen, n, p0, s.iz, s.hi, s.pv, out0);
            }
            if nz > 0 && np == 1 && s.pv > 0 {
                lemma_case_gap(w, b, px, b1, t.body, s.iz, ip, s.pv);
            } else {
                lemma_case_runs(w, b, px, b1, t.body, s.iz, x1, ip, hi2, pvv);
            }
        }
    }
}

/// The encoder's invariant holds to the end, where at most three words
/// were written per pixel.
proof fn lemma_iter_len(px: Seq<i32>, ip: int, s: P2State)
    requires
        plio_range(px),
        1 <= ip <= px.len() + 1,
        enc_inv(px, ip, s),
    ensures
        p2li_iter(px, px.len() as int, ip, s).body.len() <= 3 * px.len(),
    decreases px.len() + 1 - ip,
{
    if ip <= px.len() {
        lemma_step_inv(px, ip, s);
        lemma_iter_len(px, ip + 1, p2li_step(px, px.len() as int, ip, s));
    }
}

/// The instructions the encoder writes from pixel `ip` on read back as the
/// rest of the line.
proof fn lemma_iter_reads_back(px: Seq<i32>, ip: int, s: P2State, w: Seq<i16>, b: Seq<i16>)
    requires
        plio_range(px),
        1 <= ip <= px.len() + 1,
        enc_inv(px, ip, s),
        forall|k: int| 0 <= k < px.len() ==> !#[trigger] lone_after_gap(px, k),
        w.len() == 7 + b.len(),
        w.subrange(7, w.len() as int) == b,
        b == p2li_iter(px, px.len() as int, ip, s).body,
    ensures
        ll_run(w, w.len() as int, px.len() as int, 8 + s.body.len() as int, s.iz, s.hi, px.take(s.iz - 1))
            == Ok::<Seq<i32>, PlioFault>(px),
    decreases px.len() + 1 - ip,
{
    let n = px.len() as int;
    if ip > n {
        assert(px.take(n) =~= px);
    } else {
        let t = p2li_step(px, n, ip, s);
        assert(b == p2li_iter(px, n, ip + 1, t).body);
        lemma_iter_prefix(px, n, ip + 1, t);
        lemma_step_inv(px, ip, s);
        lemma_step_reads_back(px, ip, s, w, b);
        lemma_iter_reads_back(px, ip + 1, t, w, b);
    }
}

/// Law: a line of pixels in PLIO's range reads back from the line list
/// `pl_p2li` writes for it, whenever that list's length fits its two
/// header words (below `2^30` words), unless some pixel is a lone non-zero
/// pixel after a run of zeros whose length is a multiple of 4095
/// ([`lone_after_gap`]).
pub proof fn lemma_plio_roundtrip(px: Seq<i32>)
    requires
        plio_range(px),
        pl_p2li_of(px).len() < 0x4000_0000,
        forall|k: int| 0 <= k < px.len() ==> !#[trigger] lone_after_gap(px, k),
    ensures
        pl_l2pi_of(pl_p2li_of(px), px.len() as int) == Ok::<Seq<i32>, PlioFault>(px),
{
    let n = px.len() as int;
    if n == 0 {
        assert(repeat(0, 0) =~= px);
    } else {
        let s0 = P2State {
            pv: if px[0] < 0 { 0 } else { px[0] as int },
            x1: 1,
            iz: 1,
            hi: 1,
            nv: 0,
            body: Seq::empty(),
        };
        assert(0 <= px[0] <= 16_777_215);
        assert(enc_inv(px, 1, s0));
        let b = p2li_body(px);
        assert(b == p2li_iter(px, n, 1, s0).body);
        let len = 7 + b.len();
        let w = pl_p2li_of(px);
        assert(w == seq![0i16, 7i16, -100i16, (len % 32768) as i16, (len / 32768) as i16, 0i16, 0i16] + b);
        assert(w.subrange(7, w.len() as int) =~= b);
        assert(ll_bounds(w) == (len as int, 8int)) by {
            assert(w[2] == -100i16);
            assert(w[1] == 7i16);
            assert(w[3] == (len % 32768) as i16);
            assert(w[4] == (len / 32768) as i16);
            assert((len / 32768) * 32768 + len % 32768 == len);
        }
        lemma_iter_reads_back(px, 1, s0, w, b);
        assert(px.take(0) =~= Seq::<i32>::empty());
        assert(px + repeat(0, 0) =~= px);
    }
}

/// The line list of an in-range line holds at most three words a pixel
/// besides its seven header words, so every line of up to `2^28` pixels
/// has a list short enough for [`lemma_plio_roundtrip`].
pub proof fn lemma_plio_list_len(px: Seq<i32>)
    requires
        plio_range(px),
    ensures
        pl_p2li_of(px).len() <= 7 + 3 * px.len(),
{
    let n = px.len() as int;
    if n > 0 {
        let s0 = P2State {
            pv: if px[0] < 0 { 0 } else { px[0] as int },
            x1: 1,
            iz: 1,
            hi: 1,
            nv: 0,
            body: Seq::empty(),
        };
        assert(0 <= px[0] <= 16_777_215);
        assert(enc_inv(px, 1, s0));
        lemma_iter_len(px, 1, s0);
    }
}

} // verus!
