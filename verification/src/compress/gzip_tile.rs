//! GZIP_1 / GZIP_2 tile codecs.
//!
//! GZIP_1 is gzip of the big-endian pixel bytes. GZIP_2 byte-shuffles each
//! pixel (all byte-0s, then all byte-1s, …) and then gzips, the
//! `fits_shuffle_*bytes` layout. Compression uses gzip wrapping at level 1
//! (`Z_BEST_SPEED`).
use std::io::{Read, Write};
use vstd::prelude::*;
use crate::error::FitsError;
use crate::status::{DATA_COMPRESSION_ERR, DATA_DECOMPRESSION_ERR};

verus! {

/// The gzip stream flate2 writes for `data` at compression `level`.
pub uninterp spec fn gzip_stream(data: Seq<u8>, level: u32) -> Seq<u8>;

/// What flate2's single-member gzip decoder reads out of `src`, when it
/// reads it to the end without error.
pub uninterp spec fn gunzip_of(src: Seq<u8>) -> Option<Seq<u8>>;

/// flate2 gzip encoding: `write::GzEncoder::new` over an empty `Vec` at
/// `Compression::new(level)`, `Write::write_all` of `data`, then
/// `GzEncoder::finish`. Writing into a `Vec` cannot fail, so it always
/// succeeds; an I/O error would come back as its text. The stream is named
/// `gzip_stream`; it is stated that decoding it gives `data` back. The
/// level is held to flate2's scale of 0 to 9 (its miniz backend asserts a
/// level of at most 10).
#[verifier::external_body]
pub(crate) fn gzip_encode(data: &[u8], level: u32) -> (r: Result<Vec<u8>, String>)
    requires
        level <= 9,
    ensures
        r is Ok,
        r matches Ok(v) ==> v@ == gzip_stream(data@, level) && gunzip_of(v@) == Some(data@),
{
    let mut enc = flate2::write::GzEncoder::new(Vec::new(), flate2::Compression::new(level));
    if let Err(e) = enc.write_all(data) {
        return Err(e.to_string());
    }
    match enc.finish() {
        Ok(v) => Ok(v),
        Err(e) => Err(e.to_string()),
    }
}

/// flate2 gzip decoding: `read::GzDecoder::new(src)` then
/// `Read::read_to_end` into an empty `Vec`; an I/O or format error comes
/// back as its text. What it reads is named `gunzip_of(src)`, `None` where
/// the decoder stops with an error: it succeeds exactly then.
#[verifier::external_body]
pub(crate) fn gzip_decode(src: &[u8]) -> (r: Result<Vec<u8>, String>)
    ensures
        r matches Ok(v) ==> gunzip_of(src@) == Some(v@),
        r is Ok <==> gunzip_of(src@) is Some,
{
    let mut dec = flate2::read::GzDecoder::new(src);
    let mut out = Vec::new();
    match dec.read_to_end(&mut out) {
        Ok(_) => Ok(out),
        Err(e) => Err(e.to_string()),
    }
}

/// GZIP_2 byte order of `s` for `w`-byte pixels: byte `b` of pixel `i` moves
/// to `b * n + i` (`n` whole pixels); a trailing partial pixel stays.
pub open spec fn shuffled(s: Seq<u8>, w: int) -> Seq<u8> {
    let n: int = if w > 0 { s.len() as int / w } else { 0 };
    if w <= 1 || n == 0 {
        s
    } else {
        Seq::new(s.len(), |k: int| if k < n * w { s[(k % n) * w + k / n] } else { s[k] })
    }
}

/// Inverse of `shuffled`.
pub open spec fn unshuffled(s: Seq<u8>, w: int) -> Seq<u8> {
    let n: int = if w > 0 { s.len() as int / w } else { 0 };
    if w <= 1 || n == 0 {
        s
    } else {
        Seq::new(s.len(), |k: int| if k < n * w { s[(k % w) * n + k / w] } else { s[k] })
    }
}

proof fn lemma_index_in_grid(k: int, a: int, b: int)
    requires
        a > 0,
        b > 0,
        0 <= k < a * b,
    ensures
        0 <= (k % a) * b + k / a < a * b,
        0 <= k / a < b,
        0 <= k % a < a,
{
    vstd::arithmetic::div_mod::lemma_fundamental_div_mod(k, a);
    assert(0 <= k % a < a) by (nonlinear_arith)
        requires
            a > 0,
    ;
    assert(k / a < b) by (nonlinear_arith)
        requires
            a > 0,
            0 <= k < a * b,
    ;
    assert(k / a >= 0) by (nonlinear_arith)
        requires
            a > 0,
            k >= 0,
    ;
    assert((k % a) * b + k / a < a * b) by (nonlinear_arith)
        requires
            0 <= k % a < a,
            0 <= k / a < b,
    ;
}

/// Move `bytes[..n*w]` to the order `src_index` gives, in place.
fn permute_prefix(bytes: &mut [u8], n: usize, w: usize, forward: bool)
    requires
        n > 0,
        w > 1,
        n * w <= old(bytes)@.len(),
        n == old(bytes)@.len() as int / (w as int),
    ensures
        final(bytes)@ == (if forward {
            shuffled(old(bytes)@, w as int)
        } else {
            unshuffled(old(bytes)@, w as int)
        }),
{
    let len = bytes.len();
    let total = n * w;
    let ghost src = bytes@;
    let mut tmp: Vec<u8> = Vec::new();
    let mut k: usize = 0;
    while k < total
        invariant
            total == n * w,
            n > 0,
            w > 1,
            total <= src.len(),
            bytes@ == src,
            k <= total,
            tmp@.len() == k,
            forall|j: int|
                0 <= j < k ==> #[trigger] tmp@[j] == (if forward {
                    src[(j % n as int) * w + j / n as int]
                } else {
                    src[(j % w as int) * n + j / w as int]
                }),
        decreases total - k,
    {
        proof {
            assert(n * w == w * n) by (nonlinear_arith);
            lemma_index_in_grid(k as int, n as int, w as int);
            lemma_index_in_grid(k as int, w as int, n as int);
        }
        let idx = if forward { (k % n) * w + k / n } else { (k % w) * n + k / w };
        tmp.push(bytes[idx]);
        k += 1;
    }
    let mut k: usize = 0;
    while k < total
        invariant
            total == n * w,
            total <= src.len(),
            bytes@.len() == src.len(),
            tmp@.len() == total,
            k <= total,
            forall|j: int| 0 <= j < k ==> bytes@[j] == tmp@[j],
            forall|j: int| k <= j < src.len() ==> bytes@[j] == src[j],
        decreases total - k,
    {
        bytes[k] = tmp[k];
        k += 1;
    }
    proof {
        let target = if forward {
            shuffled(src, w as int)
        } else {
            unshuffled(src, w as int)
        };
        assert(src.len() as int / (w as int) == n as int);
        assert forall|j: int| 0 <= j < src.len() implies #[trigger] bytes@[j] == target[j] by {
            if j < total {
                assert(bytes@[j] == tmp@[j]);
            }
        }
        assert(bytes@ =~= target);
    }
}

/// Shuffle `width`-byte pixels in place (GZIP_2).
pub fn shuffle(bytes: &mut [u8], width: usize)
    ensures
        final(bytes)@ == shuffled(old(bytes)@, width as int),
{
    if width <= 1 || bytes.len() == 0 {
        return;
    }
    let n = bytes.len() / width;
    if n == 0 {
        return;
    }
    proof {
        vstd::arithmetic::div_mod::lemma_fundamental_div_mod(bytes@.len() as int, width as int);
        assert(n * width <= bytes@.len()) by (nonlinear_arith)
            requires
                n == bytes@.len() as int / (width as int),
                width > 0,
        ;
    }
    permute_prefix(bytes, n, width, true);
}

/// Inverse of [`shuffle`].
pub fn unshuffle(bytes: &mut [u8], width: usize)
    ensures
        final(bytes)@ == unshuffled(old(bytes)@, width as int),
{
    if width <= 1 || bytes.len() == 0 {
        return;
    }
    let n = bytes.len() / width;
    if n == 0 {
        return;
    }
    proof {
        assert(n * width <= bytes@.len()) by (nonlinear_arith)
            requires
                n == bytes@.len() as int / (width as int),
                width > 0,
        ;
    }
    permute_prefix(bytes, n, width, false);
}

/// Law: [`unshuffle`] undoes [`shuffle`] for every pixel width.
pub proof fn lemma_unshuffle_shuffle(s: Seq<u8>, w: int)
    ensures
        unshuffled(shuffled(s, w), w) == s,
{
    let n: int = if w > 0 { s.len() as int / w } else { 0 };
    if !(w <= 1 || n == 0) {
        let t = shuffled(s, w);
        assert(t.len() == s.len());
        assert(n * w <= s.len()) by (nonlinear_arith)
            requires
                n == s.len() as int / w,
                w > 0,
        ;
        assert forall|k: int| 0 <= k < s.len() implies unshuffled(t, w)[k] == s[k] by {
            if k < n * w {
                lemma_index_in_grid(k, w, n);
                assert(n * w == w * n) by (nonlinear_arith);
                let j = (k % w) * n + k / w;
                vstd::arithmetic::div_mod::lemma_fundamental_div_mod_converse(j, n, k % w, k / w);
                vstd::arithmetic::div_mod::lemma_fundamental_div_mod(k, w);
                assert((k / w) * w + k % w == k) by (nonlinear_arith)
                    requires
                        k == w * (k / w) + k % w,
                ;
            }
        }
        assert(unshuffled(t, w) =~= s);
    }
}

/// Gzip-compress `src` at CFITSIO's `Z_BEST_SPEED` (level 1).
pub fn gzip_bytes(src: &[u8]) -> (r: Result<Vec<u8>, FitsError>)
    ensures
        r is Ok,
        r matches Ok(v) ==> v@ == gzip_stream(src@, 1) && gunzip_of(v@) == Some(src@),
        r matches Err(e) ==> e.status == DATA_COMPRESSION_ERR && e.message_list().len() == 1,
{
    match gzip_encode(src, 1) {
        Ok(v) => Ok(v),
        Err(m) => Err(FitsError::with_message(DATA_COMPRESSION_ERR, m.as_str())),
    }
}

/// Gunzip a GZIP_1 / GZIP_2 tile payload.
pub fn gunzip_bytes(src: &[u8]) -> (r: Result<Vec<u8>, FitsError>)
    ensures
        r matches Ok(v) ==> gunzip_of(src@) == Some(v@),
        r is Ok <==> gunzip_of(src@) is Some,
        r matches Err(e) ==> e.status == DATA_DECOMPRESSION_ERR && e.message_list().len() == 1,
{
    match gzip_decode(src) {
        Ok(v) => Ok(v),
        Err(m) => Err(FitsError::with_message(DATA_DECOMPRESSION_ERR, m.as_str())),
    }
}

/// The bytes a tile codec gzips: the pixels, shuffled for GZIP_2.
pub open spec fn tile_payload(pixels: Seq<u8>, width: int, shuffle_bytes: bool) -> Seq<u8> {
    if shuffle_bytes {
        shuffled(pixels, width)
    } else {
        pixels
    }
}

/// Compress a tile of `width`-byte big-endian pixels.
pub fn compress_tile(pixels: &[u8], width: usize, shuffle_bytes: bool) -> (r: Result<
    Vec<u8>,
    FitsError,
>)
    ensures
        r is Ok,
        r matches Ok(v) ==> v@ == gzip_stream(tile_payload(pixels@, width as int, shuffle_bytes), 1)
            && gunzip_of(v@) == Some(tile_payload(pixels@, width as int, shuffle_bytes)),
        r matches Err(e) ==> e.status == DATA_COMPRESSION_ERR,
{
    let mut buf = crate::text::copy_range(pixels, 0, pixels.len());
    assert(buf@ =~= pixels@);
    if shuffle_bytes {
        shuffle(buf.as_mut_slice(), width);
    }
    gzip_bytes(buf.as_slice())
}

/// `usize::saturating_mul`.
pub open spec fn sat_mul_usize(a: int, b: int) -> int {
    if a * b > usize::MAX {
        usize::MAX as int
    } else {
        a * b
    }
}

/// The message for an uncompressed tile of the wrong size.
pub open spec fn wrong_size_message() -> Seq<char> {
    "error: uncompressed tile has wrong size"@
}

/// The rest of [`decompress_tile`] once the payload is gunzipped: check
/// the size, then undo the shuffle.
pub fn finish_tile(raw: Vec<u8>, npix: usize, width: usize, shuffle_bytes: bool) -> (r: Result<
    Vec<u8>,
    FitsError,
>)
    ensures
        raw@.len() != sat_mul_usize(npix as int, width as int) ==> (r matches Err(e) && e.status
            == DATA_DECOMPRESSION_ERR && e.message_list() == seq![wrong_size_message()]),
        raw@.len() == sat_mul_usize(npix as int, width as int) ==> (r matches Ok(v) && v@ == (
        if shuffle_bytes {
            unshuffled(raw@, width as int)
        } else {
            raw@
        })),
{
    let expect = match npix.checked_mul(width) {
        Some(v) => v,
        None => usize::MAX,
    };
    if raw.len() != expect {
        return Err(
            FitsError::with_message(DATA_DECOMPRESSION_ERR, "error: uncompressed tile has wrong size"),
        );
    }
    let mut raw = raw;
    if shuffle_bytes {
        unshuffle(raw.as_mut_slice(), width);
    }
    Ok(raw)
}

/// Decompress a GZIP_1 / GZIP_2 tile into `npix * width` bytes.
pub fn decompress_tile(compressed: &[u8], npix: usize, width: usize, shuffle_bytes: bool) -> (r: Result<
    Vec<u8>,
    FitsError,
>)
    ensures
        r matches Ok(v) ==> exists|raw: Seq<u8>|
            gunzip_of(compressed@) == Some(raw) && raw.len() == sat_mul_usize(npix as int, width as int)
                && v@ == (if shuffle_bytes {
                unshuffled(raw, width as int)
            } else {
                raw
            }),
        gunzip_of(compressed@) is Some && gunzip_of(compressed@)->0.len() == sat_mul_usize(npix as int, width as int)
            ==> (r matches Ok(v) && v@ == (if shuffle_bytes {
            unshuffled(gunzip_of(compressed@)->0, width as int)
        } else {
            gunzip_of(compressed@)->0
        })),
        gunzip_of(compressed@) is None ==> r is Err,
        gunzip_of(compressed@) is Some && gunzip_of(compressed@)->0.len() != sat_mul_usize(npix as int, width as int)
            ==> (r matches Err(e) && e.message_list() == seq![wrong_size_message()]),
        r matches Err(e) ==> e.status == DATA_DECOMPRESSION_ERR,
{
    let raw = match gunzip_bytes(compressed) {
        Ok(v) => v,
        Err(e) => {
            return Err(e);
        },
    };
    let ghost g = raw@;
    let r = finish_tile(raw, npix, width, shuffle_bytes);
    assert(r is Ok ==> g.len() == sat_mul_usize(npix as int, width as int));
    r
}

/// Law: a tile that gunzips to the payload `compress_tile` gzipped from
/// `npix` pixels of `width` bytes has the right size, and
/// `decompress_tile` gives those pixels back.
pub proof fn lemma_tile_roundtrip(pixels: Seq<u8>, width: usize, shuffle_bytes: bool, compressed: Seq<u8>, npix: usize)
    requires
        gunzip_of(compressed) == Some(tile_payload(pixels, width as int, shuffle_bytes)),
        pixels.len() == npix * width,
        npix * width <= usize::MAX,
    ensures
        gunzip_of(compressed)->0.len() == sat_mul_usize(npix as int, width as int),
        (if shuffle_bytes {
            unshuffled(gunzip_of(compressed)->0, width as int)
        } else {
            gunzip_of(compressed)->0
        }) == pixels,
{
    lemma_unshuffle_shuffle(pixels, width as int);
}

} // verus!
