//! The integer parameters of a tiled-compressed image read from its
//! `ZIMAGE` binary-table header (`imcomp_get_compressed_image_par`).
use vstd::prelude::*;
use vstd::string::StringSliceAdditionalSpecFns;
use vstd::utf8::*;
use crate::card::Card;
use crate::compress::{chars_eq, named_compression, product_of, tdiv, tile_factors, tiles_along, unknown_compression_message, CompressionType};
use crate::error::FitsError;
use crate::header::{add_key, fault_error, find_card, header_result, key_i64, value_chars, with_number, Header, HeaderFault, ReadFault};
use crate::card::quote_value;
use crate::compress::{actual_tilesize, tile_count, tile_count_ok, tile_shape, hcompress_1d_message};
use crate::types::{ImageType, MAX_COMPRESS_DIM};
use crate::text::format_i64;
use crate::status::{BAD_DATATYPE, BAD_NAXIS, DATA_COMPRESSION_ERR, DATA_DECOMPRESSION_ERR};
use crate::tdim::{trim_bounds, trim_ws};
use crate::text::{chars_of, decimal_int, push_char};
use crate::types::{NO_DITHER, SUBTRACTIVE_DITHER_1, SUBTRACTIVE_DITHER_2};

verus! {

// ---------------------------------------------------------------------
// String keyword values (`ffc2s`).
// ---------------------------------------------------------------------

/// The characters of a quoted value from position `i` up to its closing
/// quote, a doubled quote read as one.
pub open spec fn undouble(v: Seq<char>, i: int) -> Seq<char>
    decreases v.len() - i,
{
    if i < 0 || i >= v.len() {
        Seq::empty()
    } else if v[i] == '\'' {
        if i + 1 < v.len() && v[i + 1] == '\'' {
            seq!['\''] + undouble(v, i + 2)
        } else {
            Seq::empty()
        }
    } else {
        seq![v[i]] + undouble(v, i + 1)
    }
}

/// `s` without its trailing spaces.
pub open spec fn drop_trailing_spaces(s: Seq<char>) -> Seq<char>
    decreases s.len(),
{
    if s.len() > 0 && s.last() == ' ' {
        drop_trailing_spaces(s.drop_last())
    } else {
        s
    }
}

/// A value field read as a string: a quoted one without its quotes and
/// trailing spaces, anything else as it stands; `None` for an empty field.
pub open spec fn unquoted(v: Seq<char>) -> Option<Seq<char>> {
    if v.len() == 0 {
        None
    } else if v[0] != '\'' {
        Some(v)
    } else {
        Some(drop_trailing_spaces(undouble(v, 1)))
    }
}

/// `fits_read_key_str` on the cards: the string value of the first card
/// named `name`; `None` where there is none or it cannot be read.
pub open spec fn key_text(cards: Seq<Seq<u8>>, name: Seq<u8>) -> Option<Seq<char>> {
    match find_card(cards, name) {
        None => None,
        Some(i) => match value_chars(cards[i]) {
            Err(_) => None,
            Ok(v) => unquoted(v),
        },
    }
}

fn unquote_chars(v: &Vec<char>) -> (r: Option<Vec<char>>)
    ensures
        match unquoted(v@) {
            Some(t) => r matches Some(x) && x@ == t,
            None => r is None,
        },
{
    let n = v.len();
    if n == 0 {
        return None;
    }
    if v[0] != '\'' {
        let mut out: Vec<char> = Vec::new();
        let mut k: usize = 0;
        while k < n
            invariant
                n == v@.len(),
                k <= n,
                out@ == v@.subrange(0, k as int),
            decreases n - k,
        {
            out.push(v[k]);
            assert(out@ =~= v@.subrange(0, k + 1));
            k += 1;
        }
        assert(out@ =~= v@);
        return Some(out);
    }
    let mut out: Vec<char> = Vec::new();
    let mut i: usize = 1;
    let mut done = false;
    while !done && i < n
        invariant
            n == v@.len(),
            1 <= i <= n + 1,
            done ==> undouble(v@, 1) == out@,
            !done ==> undouble(v@, 1) == out@ + undouble(v@, i as int),
        decreases 2 * (n + 1 - i) + (if done { 0int } else { 1int }),
    {
        if v[i] == '\'' {
            if i + 1 < n && v[i + 1] == '\'' {
                assert(undouble(v@, i as int) == seq!['\''] + undouble(v@, i + 2));
                assert(out@ + undouble(v@, i as int) =~= out@.push('\'') + undouble(v@, i + 2));
                out.push('\'');
                i += 2;
            } else {
                assert(undouble(v@, i as int) =~= Seq::<char>::empty());
                assert(out@ + undouble(v@, i as int) =~= out@);
                done = true;
            }
        } else {
            let c = v[i];
            assert(undouble(v@, i as int) == seq![c] + undouble(v@, i + 1));
            assert(out@ + undouble(v@, i as int) =~= out@.push(c) + undouble(v@, i + 1));
            out.push(c);
            i += 1;
        }
    }
    if !done {
        assert(undouble(v@, i as int) =~= Seq::<char>::empty());
        assert(out@ + undouble(v@, i as int) =~= out@);
    }
    let ghost whole = out@;
    while out.len() > 0 && out[out.len() - 1] == ' '
        invariant
            drop_trailing_spaces(whole) == drop_trailing_spaces(out@),
        decreases out@.len(),
    {
        assert(out@.drop_last() == out@.subrange(0, out@.len() - 1));
        out.pop();
    }
    Some(out)
}

/// The string value of the first card named `name`, as its characters.
fn text_value(h: &Header, name: &[u8]) -> (r: Option<Vec<char>>)
    ensures
        match key_text(h@, name@) {
            Some(t) => r matches Some(x) && x@ == t,
            None => r is None,
        },
{
    let card = match h.card_by_name_bytes(name) {
        None => {
            return None;
        },
        Some(c) => c,
    };
    match card.parse_value_comment() {
        Err(_) => None,
        Ok((val, _)) => {
            proof {
                encode_utf8_decode_utf8(val@);
            }
            let cs = chars_of(val.as_str());
            unquote_chars(&cs)
        },
    }
}

// ---------------------------------------------------------------------
// The parameters.
// ---------------------------------------------------------------------

/// The integer parameters of a compressed image, as values.
pub struct ZImageSpec {
    pub kind: CompressionType,
    pub zbitpix: i32,
    pub znaxis: Seq<i64>,
    pub tilesize: Seq<i64>,
    pub rice_blocksize: i32,
    pub rice_bytepix: i32,
    pub hcomp_smooth: i32,
    pub quantize_method: i32,
    pub no_quantize: bool,
    pub dither_seed: i32,
}

/// The integer parameters of a compressed image: the algorithm, the
/// image's BITPIX and axes, the tile shape, the Rice block size and bytes
/// per pixel, the HCOMPRESS smoothing flag, the quantization and its
/// dither seed.
#[derive(Debug)]
pub struct ZImageParams {
    pub kind: CompressionType,
    pub zbitpix: i32,
    pub znaxis: Vec<i64>,
    pub tilesize: Vec<i64>,
    pub rice_blocksize: i32,
    pub rice_bytepix: i32,
    pub hcomp_smooth: i32,
    pub quantize_method: i32,
    pub no_quantize: bool,
    pub dither_seed: i32,
}

impl ZImageParams {
    /// These parameters are `z`.
    pub open spec fn holds(&self, z: ZImageSpec) -> bool {
        &&& self.kind == z.kind
        &&& self.zbitpix == z.zbitpix
        &&& self.znaxis@ == z.znaxis
        &&& self.tilesize@ == z.tilesize
        &&& self.rice_blocksize == z.rice_blocksize
        &&& self.rice_bytepix == z.rice_bytepix
        &&& self.hcomp_smooth == z.hcomp_smooth
        &&& self.quantize_method == z.quantize_method
        &&& self.no_quantize == z.no_quantize
        &&& self.dither_seed == z.dither_seed
    }
}

/// The value of an integer read, or `d` where it failed.
pub open spec fn i64_or(r: Result<i64, ReadFault>, d: i64) -> i64 {
    match r {
        Ok(v) => v,
        Err(_) => d,
    }
}

pub open spec fn missing_kind_message() -> Seq<char> {
    "required ZCMPTYPE compression keyword not found"@
}

pub open spec fn missing_zbitpix_message() -> Seq<char> {
    "required ZBITPIX compression keyword not found"@
}

pub open spec fn missing_znaxis_message() -> Seq<char> {
    "required ZNAXIS compression keyword not found"@
}

pub open spec fn missing_znaxisn_message() -> Seq<char> {
    "required ZNAXISn compression keyword not found"@
}

pub open spec fn zero_ztile_message() -> Seq<char> {
    "invalid ZTILE value = 0 in compressed image"@
}

pub open spec fn tile_rows_message() -> Seq<char> {
    "number of table rows != the number of tiles in compressed image"@
}

pub open spec fn unknown_quantize_message() -> Seq<char> {
    "Unknown quantization type"@
}

/// `ZNAXIS1 ..= ZNAXISk` and the tile lengths `ZTILEn` (by default the
/// whole first axis and one pixel along the others), or the message of
/// the first that fails.
pub open spec fn zaxes_from(cards: Seq<Seq<u8>>, k: int) -> Result<(Seq<i64>, Seq<i64>), Seq<char>>
    decreases k,
{
    if k <= 0 {
        Ok((Seq::empty(), Seq::empty()))
    } else {
        match zaxes_from(cards, k - 1) {
            Err(m) => Err(m),
            Ok((ns, ts)) => match key_i64(cards, "ZNAXIS".spec_bytes() + decimal_int(k)) {
                Err(_) => Err(missing_znaxisn_message()),
                Ok(n) => {
                    let t = i64_or(key_i64(cards, "ZTILE".spec_bytes() + decimal_int(k)), if k == 1 { n } else { 1 });
                    if t == 0 {
                        Err(zero_ztile_message())
                    } else {
                        Ok((ns.push(n), ts.push(t)))
                    }
                },
            },
        }
    }
}

/// `t` reads `ZSCALE`, ignoring ASCII case.
pub open spec fn is_zscale_name(t: Seq<char>) -> bool {
    &&& t.len() == 6
    &&& (t[0] == 'Z' || t[0] == 'z')
    &&& (t[1] == 'S' || t[1] == 's')
    &&& (t[2] == 'C' || t[2] == 'c')
    &&& (t[3] == 'A' || t[3] == 'a')
    &&& (t[4] == 'L' || t[4] == 'l')
    &&& (t[5] == 'E' || t[5] == 'e')
}

/// Column `c` of the table is named `ZSCALE`.
pub open spec fn ttype_zscale(cards: Seq<Seq<u8>>, c: int) -> bool {
    match key_text(cards, "TTYPE".spec_bytes() + decimal_int(c)) {
        Some(t) => is_zscale_name(t),
        None => false,
    }
}

/// The image is scaled: a `ZSCALE` keyword or a `ZSCALE` column.
pub open spec fn has_zscale(cards: Seq<Seq<u8>>) -> bool {
    ||| find_card(cards, "ZSCALE".spec_bytes()) is Some
    ||| exists|c: int| 1 <= c <= i64_or(key_i64(cards, "TFIELDS".spec_bytes()), 0) && #[trigger] ttype_zscale(cards, c)
}

/// Whether the pixels are stored unquantized, and the quantization
/// method: an unscaled float image is not quantized; otherwise `ZQUANTIZ`
/// decides (no dithering when absent); `None` for a method not known.
pub open spec fn quantize_choice(cards: Seq<Seq<u8>>, zbitpix: i32) -> Option<(bool, i32)> {
    if zbitpix < 0 && !has_zscale(cards) {
        Some((true, NO_DITHER))
    } else {
        match key_text(cards, "ZQUANTIZ".spec_bytes()) {
            None => Some((false, NO_DITHER)),
            Some(s) => {
                let t = trim_ws(s);
                if t == "NONE"@ {
                    Some((true, NO_DITHER))
                } else if t == "SUBTRACTIVE_DITHER_1"@ {
                    Some((false, SUBTRACTIVE_DITHER_1))
                } else if t == "SUBTRACTIVE_DITHER_2"@ {
                    Some((false, SUBTRACTIVE_DITHER_2))
                } else if t == "NO_DITHER"@ {
                    Some((false, NO_DITHER))
                } else {
                    None
                }
            },
        }
    }
}

/// Rice block size and bytes per pixel: `ZVAL1` and `ZVAL2` (32 and 4
/// by default), swapped where they were written the other way round.
pub open spec fn rice_params(cards: Seq<Seq<u8>>) -> (i32, i32) {
    let bs = i64_or(key_i64(cards, "ZVAL1".spec_bytes()), 32) as i32;
    let bp = i64_or(key_i64(cards, "ZVAL2".spec_bytes()), 4) as i32;
    if bs < 16 && bp > 8 {
        (bp, bs)
    } else {
        (bs, bp)
    }
}

/// The parameters of a compressed image stored in `nrows` table rows
/// (`Header::zimage_info` without its float parts), or the status and
/// messages of the first check that fails.
pub open spec fn zimage_params_of(cards: Seq<Seq<u8>>, nrows: i64) -> Result<ZImageSpec, (i32, Seq<Seq<char>>)> {
    match key_text(cards, "ZCMPTYPE".spec_bytes()) {
        None => Err((DATA_DECOMPRESSION_ERR, seq![missing_kind_message()])),
        Some(z) => match named_compression(trim_ws(z)) {
            None => Err((DATA_DECOMPRESSION_ERR, seq![unknown_compression_message(trim_ws(z))])),
            Some(kind) => match key_i64(cards, "ZBITPIX".spec_bytes()) {
                Err(_) => Err((DATA_DECOMPRESSION_ERR, seq![missing_zbitpix_message()])),
                Ok(zb) => match key_i64(cards, "ZNAXIS".spec_bytes()) {
                    Err(_) => Err((DATA_DECOMPRESSION_ERR, seq![missing_znaxis_message()])),
                    Ok(zndim) => if zndim < 1 || zndim > 6 {
                        Err((BAD_NAXIS, Seq::empty()))
                    } else {
                        match zaxes_from(cards, zndim as int) {
                            Err(m) => Err((DATA_DECOMPRESSION_ERR, seq![m])),
                            Ok((ns, ts)) => if product_of(tile_factors(ns, ts)) != nrows {
                                Err((DATA_DECOMPRESSION_ERR, seq![tile_rows_message()]))
                            } else {
                                match quantize_choice(cards, zb as i32) {
                                    None => Err((DATA_DECOMPRESSION_ERR, seq![unknown_quantize_message()])),
                                    Some((nq, qm)) => {
                                        let (bs, bp) = if kind == CompressionType::Rice1 {
                                            rice_params(cards)
                                        } else {
                                            (32i32, 4i32)
                                        };
                                        if kind == CompressionType::Rice1 && bs == 0 {
                                            Err((DATA_DECOMPRESSION_ERR, Seq::empty()))
                                        } else {
                                            Ok(
                                                ZImageSpec {
                                                    kind,
                                                    zbitpix: zb as i32,
                                                    znaxis: ns,
                                                    tilesize: ts,
                                                    rice_blocksize: bs,
                                                    rice_bytepix: bp,
                                                    hcomp_smooth: if kind == CompressionType::Hcompress1 {
                                                        i64_or(key_i64(cards, "ZVAL2".spec_bytes()), 0) as i32
                                                    } else {
                                                        0
                                                    },
                                                    quantize_method: qm,
                                                    no_quantize: nq,
                                                    dither_seed: i64_or(key_i64(cards, "ZDITHER0".spec_bytes()), 1) as i32,
                                                },
                                            )
                                        }
                                    },
                                }
                            },
                        }
                    },
                },
            },
        },
    }
}

// ---------------------------------------------------------------------
// Reading them.
// ---------------------------------------------------------------------

/// Tiles along an axis of `n` pixels with tiles of `t`, exactly.
fn tiles_along_exact(n: i64, t: i64) -> (r: i128)
    requires
        t != 0,
    ensures
        r == tiles_along(n as int, t as int),
        -0x8000_0000_0000_0002 <= r <= 0x8000_0000_0000_0002,
{
    let a: i128 = n as i128 - 1;
    let ua: u128 = if a >= 0 { a as u128 } else { (0 - a) as u128 };
    let ub: u128 = if t >= 0 { t as u128 } else { (0 - (t as i128)) as u128 };
    let q: u128 = ua / ub;
    proof {
        vstd::arithmetic::div_mod::lemma_fundamental_div_mod(ua as int, ub as int);
        assert(q <= ua) by (nonlinear_arith)
            requires
                ua == ub * q + ua % ub,
                ub >= 1,
                ua % ub >= 0,
                q >= 0,
        ;
    }
    let sq: i128 = if (a >= 0) == (t > 0) || a == 0 { q as i128 } else { 0 - (q as i128) };
    sq + 1
}

proof fn lemma_big_product(p: int, f: int)
    requires
        f != 0,
        p > 0x8000_0000_0000_0000 || p < -0x8000_0000_0000_0000,
    ensures
        p * f > 0x8000_0000_0000_0000 || p * f < -0x8000_0000_0000_0000,
{
    if p > 0 && f > 0 {
        assert(p * f >= p) by (nonlinear_arith)
            requires
                p > 0,
                f >= 1,
        ;
    } else if p > 0 {
        assert(p * f <= -p) by (nonlinear_arith)
            requires
                p > 0,
                f <= -1,
        ;
    } else if f > 0 {
        assert(p * f <= p) by (nonlinear_arith)
            requires
                p < 0,
                f >= 1,
        ;
    } else {
        assert(p * f >= -p) by (nonlinear_arith)
            requires
                p < 0,
                f <= -1,
        ;
    }
}

/// Does the number of tiles equal `nrows`? The count is taken exactly.
fn tile_rows_match(ns: &Vec<i64>, ts: &Vec<i64>, nrows: i64) -> (r: bool)
    requires
        ns@.len() == ts@.len(),
        forall|i: int| 0 <= i < ts@.len() ==> #[trigger] ts@[i] != 0,
    ensures
        r == (product_of(tile_factors(ns@, ts@)) == nrows),
{
    let ghost f = tile_factors(ns@, ts@);
    let mut acc: i128 = 1;
    let mut big = false;
    let mut i: usize = 0;
    assert(f.subrange(0, 0) =~= Seq::<int>::empty());
    while i < ns.len()
        invariant
            ns@.len() == ts@.len() == f.len(),
            f == tile_factors(ns@, ts@),
            forall|j: int| 0 <= j < ts@.len() ==> #[trigger] ts@[j] != 0,
            i <= ns@.len(),
            !big ==> acc == product_of(f.subrange(0, i as int)) && -0x8000_0000_0000_0000 <= acc
                <= 0x8000_0000_0000_0000,
            big ==> product_of(f.subrange(0, i as int)) > 0x8000_0000_0000_0000 || product_of(
                f.subrange(0, i as int),
            ) < -0x8000_0000_0000_0000,
        decreases ns.len() - i,
    {
        let x = tiles_along_exact(ns[i], ts[i]);
        let ghost p = product_of(f.subrange(0, i as int));
        proof {
            assert(f.subrange(0, i + 1).drop_last() =~= f.subrange(0, i as int));
            assert(f[i as int] == x);
            assert(f.subrange(0, i + 1).last() == x);
            assert(product_of(f.subrange(0, i + 1)) == p * x);
        }
        if x == 0 {
            proof {
                assert(p * x == 0) by (nonlinear_arith)
                    requires
                        x == 0,
                ;
            }
            acc = 0;
            big = false;
        } else if big {
            proof {
                lemma_big_product(p, x as int);
            }
        } else {
            proof {
                assert(-0x4000_0000_0000_0001_0000_0000_0000_0000 <= acc * x <= 0x4000_0000_0000_0001_0000_0000_0000_0000) by (nonlinear_arith)
                    requires
                        -0x8000_0000_0000_0000 <= acc <= 0x8000_0000_0000_0000,
                        -0x8000_0000_0000_0002 <= x <= 0x8000_0000_0000_0002,
                ;
            }
            acc = acc * x;
            if acc > 0x8000_0000_0000_0000 || acc < -0x8000_0000_0000_0000 {
                big = true;
            }
        }
        i += 1;
    }
    assert(f.subrange(0, ns@.len() as int) =~= f);
    !big && acc == nrows as i128
}

proof fn lemma_zaxes_err(cards: Seq<Seq<u8>>, j: int, k: int)
    requires
        0 <= j <= k,
        zaxes_from(cards, j) is Err,
    ensures
        zaxes_from(cards, k) == zaxes_from(cards, j),
    decreases k,
{
    if k > j {
        lemma_zaxes_err(cards, j, k - 1);
    }
}

/// The axes and tile lengths of the first `k` axes.
fn zaxes(h: &Header, k: i64) -> (r: Result<(Vec<i64>, Vec<i64>), FitsError>)
    requires
        0 <= k <= 6,
    ensures
        match zaxes_from(h@, k as int) {
            Ok((ns, ts)) => r matches Ok((a, b)) && a@ == ns && b@ == ts && a@.len() == k && b@.len() == k
                && forall|i: int| 0 <= i < k ==> #[trigger] b@[i] != 0,
            Err(m) => r matches Err(e) && e.status == DATA_DECOMPRESSION_ERR && e.message_list() == seq![m],
        },
{
    let mut ns: Vec<i64> = Vec::new();
    let mut ts: Vec<i64> = Vec::new();
    let mut i: i64 = 0;
    while i < k
        invariant
            0 <= i <= k <= 6,
            zaxes_from(h@, i as int) == Ok::<(Seq<i64>, Seq<i64>), Seq<char>>((ns@, ts@)),
            ns@.len() == i,
            ts@.len() == i,
            forall|j: int| 0 <= j < i ==> #[trigger] ts@[j] != 0,
        decreases k - i,
    {
        let zname = with_number("ZNAXIS", i + 1);
        let n = match h.get_i64_bytes(zname.as_slice()) {
            Err(_) => {
                proof {
                    lemma_zaxes_err(h@, i + 1, k as int);
                }
                return Err(FitsError::with_message(DATA_DECOMPRESSION_ERR, "required ZNAXISn compression keyword not found"));
            },
            Ok(v) => v,
        };
        let tname = with_number("ZTILE", i + 1);
        let dflt: i64 = if i == 0 { n } else { 1 };
        let t = match h.get_i64_bytes(tname.as_slice()) {
            Err(_) => dflt,
            Ok(v) => v,
        };
        if t == 0 {
            proof {
                lemma_zaxes_err(h@, i + 1, k as int);
            }
            return Err(FitsError::with_message(DATA_DECOMPRESSION_ERR, "invalid ZTILE value = 0 in compressed image"));
        }
        ns.push(n);
        ts.push(t);
        i += 1;
    }
    Ok((ns, ts))
}

/// Is column `c` of the table named `ZSCALE`?
fn ttype_zscale_exec(h: &Header, c: i64) -> (r: bool)
    ensures
        r == ttype_zscale(h@, c as int),
{
    let name = with_number("TTYPE", c);
    match text_value(h, name.as_slice()) {
        None => false,
        Some(t) => {
            t.len() == 6 && (t[0] == 'Z' || t[0] == 'z') && (t[1] == 'S' || t[1] == 's') && (t[2] == 'C' || t[2]
                == 'c') && (t[3] == 'A' || t[3] == 'a') && (t[4] == 'L' || t[4] == 'l') && (t[5] == 'E' || t[5]
                == 'e')
        },
    }
}

/// Is the image scaled?
fn has_zscale_exec(h: &Header) -> (r: bool)
    ensures
        r == has_zscale(h@),
{
    if h.card_by_name_bytes("ZSCALE".as_bytes()).is_some() {
        return true;
    }
    let tf: i64 = match h.get_i64_bytes("TFIELDS".as_bytes()) {
        Err(_) => 0,
        Ok(v) => v,
    };
    assert(tf == i64_or(key_i64(h@, "TFIELDS".spec_bytes()), 0));
    let mut c: i64 = 0;
    while c < tf
        invariant
            0 <= c,
            c < tf || c <= 0 || c == tf,
            tf == i64_or(key_i64(h@, "TFIELDS".spec_bytes()), 0),
            find_card(h@, "ZSCALE".spec_bytes()) is None,
            forall|j: int| 1 <= j <= c ==> !#[trigger] ttype_zscale(h@, j),
        decreases tf - c,
    {
        if ttype_zscale_exec(h, c + 1) {
            return true;
        }
        c += 1;
    }
    assert forall|j: int| 1 <= j <= tf implies !#[trigger] ttype_zscale(h@, j) by {
        assert(j <= c);
    }
    false
}

/// Whether the pixels are unquantized, and the quantization method.
fn quantize_exec(h: &Header, zbitpix: i32) -> (r: Option<(bool, i32)>)
    ensures
        r == quantize_choice(h@, zbitpix),
{
    if zbitpix < 0 && !has_zscale_exec(h) {
        return Some((true, NO_DITHER));
    }
    match text_value(h, "ZQUANTIZ".as_bytes()) {
        None => Some((false, NO_DITHER)),
        Some(s) => {
            let (a, b) = trim_bounds(&s, 0, s.len());
            assert(s@.subrange(0, s@.len() as int) =~= s@);
            if chars_eq(&s, a, b, "NONE") {
                Some((true, NO_DITHER))
            } else if chars_eq(&s, a, b, "SUBTRACTIVE_DITHER_1") {
                Some((false, SUBTRACTIVE_DITHER_1))
            } else if chars_eq(&s, a, b, "SUBTRACTIVE_DITHER_2") {
                Some((false, SUBTRACTIVE_DITHER_2))
            } else if chars_eq(&s, a, b, "NO_DITHER") {
                Some((false, NO_DITHER))
            } else {
                None
            }
        },
    }
}

/// An integer keyword, or `d` where it cannot be read.
fn i64_or_exec(h: &Header, name: &str, d: i64) -> (r: i64)
    ensures
        r == i64_or(key_i64(h@, name.spec_bytes()), d),
{
    match h.get_i64(name) {
        Err(_) => d,
        Ok(v) => v,
    }
}

/// The algorithm the `ZCMPTYPE` keyword names.
fn kind_of(h: &Header) -> (r: Result<CompressionType, FitsError>)
    ensures
        match key_text(h@, "ZCMPTYPE".spec_bytes()) {
            None => r matches Err(e) && e.status == DATA_DECOMPRESSION_ERR && e.message_list() == seq![
                missing_kind_message(),
            ],
            Some(z) => match named_compression(trim_ws(z)) {
                None => r matches Err(e) && e.status == DATA_DECOMPRESSION_ERR && e.message_list() == seq![
                    unknown_compression_message(trim_ws(z)),
                ],
                Some(k) => r == Ok::<CompressionType, FitsError>(k),
            },
        },
{
        let z = match text_value(h, "ZCMPTYPE".as_bytes()) {
            None => {
                return Err(FitsError::with_message(DATA_DECOMPRESSION_ERR, "required ZCMPTYPE compression keyword not found"));
            },
            Some(z) => z,
        };
        let mut zs = String::new();
        let mut k: usize = 0;
        while k < z.len()
            invariant
                k <= z@.len(),
                zs@.len() == k,
                forall|j: int| 0 <= j < k ==> zs@[j] == z@[j],
            decreases z.len() - k,
        {
            push_char(&mut zs, z[k]);
            k += 1;
        }
        assert(zs@ =~= z@);
        CompressionType::from_zcmptype(zs.as_str())
}

impl Header {
    /// The integer parameters of a tiled-compressed image stored in
    /// `nrows` table rows (the float `ZVAL1` of HCOMPRESS, `BSCALE` and
    /// `BZERO` are read apart).
    pub fn zimage_params(&self, nrows: i64) -> (r: Result<ZImageParams, FitsError>)
        ensures
            match zimage_params_of(self@, nrows) {
                Ok(z) => r matches Ok(p) && p.holds(z),
                Err((st, ms)) => r matches Err(e) && e.status == st && e.message_list() == ms,
            },
    {
        let kind = match kind_of(self) {
            Err(e) => {
                return Err(e);
            },
            Ok(kd) => kd,
        };
        let zb = match self.get_i64("ZBITPIX") {
            Err(_) => {
                return Err(FitsError::with_message(DATA_DECOMPRESSION_ERR, "required ZBITPIX compression keyword not found"));
            },
            Ok(v) => v,
        };
        let zbitpix = zb as i32;
        let zndim = match self.get_i64("ZNAXIS") {
            Err(_) => {
                return Err(FitsError::with_message(DATA_DECOMPRESSION_ERR, "required ZNAXIS compression keyword not found"));
            },
            Ok(v) => v,
        };
        if zndim < 1 || zndim > 6 {
            return Err(FitsError::new(BAD_NAXIS));
        }
        let (znaxis, tilesize) = match zaxes(self, zndim) {
            Err(e) => {
                return Err(e);
            },
            Ok(p) => p,
        };
        if !tile_rows_match(&znaxis, &tilesize, nrows) {
            return Err(
                FitsError::with_message(DATA_DECOMPRESSION_ERR, "number of table rows != the number of tiles in compressed image"),
            );
        }
        let (no_quantize, quantize_method) = match quantize_exec(self, zbitpix) {
            None => {
                return Err(FitsError::with_message(DATA_DECOMPRESSION_ERR, "Unknown quantization type"));
            },
            Some(q) => q,
        };
        let mut rice_blocksize: i32 = 32;
        let mut rice_bytepix: i32 = 4;
        let mut hcomp_smooth: i32 = 0;
        if kind == CompressionType::Rice1 {
            let bs = i64_or_exec(self, "ZVAL1", 32) as i32;
            let bp = i64_or_exec(self, "ZVAL2", 4) as i32;
            if bs < 16 && bp > 8 {
                rice_blocksize = bp;
                rice_bytepix = bs;
            } else {
                rice_blocksize = bs;
                rice_bytepix = bp;
            }
            if rice_blocksize == 0 {
                return Err(FitsError::new(DATA_DECOMPRESSION_ERR));
            }
        } else if kind == CompressionType::Hcompress1 {
            hcomp_smooth = i64_or_exec(self, "ZVAL2", 0) as i32;
        }
        let dither_seed = i64_or_exec(self, "ZDITHER0", 1) as i32;
        Ok(
            ZImageParams {
                kind,
                zbitpix,
                znaxis,
                tilesize,
                rice_blocksize,
                rice_bytepix,
                hcomp_smooth,
                quantize_method,
                no_quantize,
                dither_seed,
            },
        )
    }
}

// ---------------------------------------------------------------------
// Writing them (`imcomp_init_table`).
// ---------------------------------------------------------------------

/// The message for a float image to be stored losslessly with another
/// algorithm than gzip.
pub open spec fn lossless_float_message() -> Seq<char> {
    "Lossless compression of floating point images must use GZIP (imcomp_init_table)"@
}

/// Before any tile is written: the algorithm (Rice when none is asked
/// for), the tile shape and the number of tiles, or why the image cannot
/// be compressed. `lossless` says that no quantization was asked for.
pub open spec fn compressed_plan_of(
    ty: ImageType,
    naxes: Seq<i64>,
    kind: Option<CompressionType>,
    request: Seq<i64>,
    lossless: bool,
) -> Result<(CompressionType, Seq<i64>, int), (i32, Seq<Seq<char>>)> {
    let k = match kind {
        Some(k) => k,
        None => CompressionType::Rice1,
    };
    if ty == ImageType::I64 || ty == ImageType::U64 {
        Err((BAD_DATATYPE, Seq::empty()))
    } else if ty.spec_bitpix() < 0 && lossless && !(k == CompressionType::Gzip1 || k == CompressionType::Gzip2) {
        Err((DATA_COMPRESSION_ERR, seq![lossless_float_message()]))
    } else if k == CompressionType::Hcompress1 && naxes.len() < 2 {
        Err((DATA_COMPRESSION_ERR, seq![hcompress_1d_message()]))
    } else {
        let t = tile_shape(k, naxes, request);
        Ok((k, t, product_of(tile_factors(naxes, t))))
    }
}

/// How a compressed image is to be laid out: algorithm, tiles, one table
/// row per tile, and the table's columns (`ZSCALE` and `ZZERO` beside the
/// data when floats are quantized; 16-bit heap descriptors for PLIO).
#[derive(Debug)]
pub struct CompressedImagePlan {
    pub kind: CompressionType,
    pub tiles: Vec<i64>,
    pub nrows: i64,
    pub quantize_columns: bool,
    pub short_descriptors: bool,
}

/// `imcomp_init_table`'s checks and layout for an image of type `ty` and
/// axes `naxes`.
pub fn compressed_image_plan(
    ty: ImageType,
    naxes: &[i64],
    kind: Option<CompressionType>,
    request: &[i64; MAX_COMPRESS_DIM],
    lossless: bool,
) -> (r: Result<CompressedImagePlan, FitsError>)
    requires
        compressed_plan_of(ty, naxes@, kind, request@, lossless) matches Ok((k, t, _)) ==> tile_count_ok(naxes@, t),
    ensures
        match compressed_plan_of(ty, naxes@, kind, request@, lossless) {
            Ok((k, t, nrows)) => r matches Ok(p) && p.kind == k && p.tiles@ == t && p.nrows == nrows
                && p.quantize_columns == (ty.spec_bitpix() < 0 && !lossless) && p.short_descriptors == (k
                == CompressionType::Plio1),
            Err((st, ms)) => r matches Err(e) && e.status == st && e.message_list() == ms,
        },
{
    if ty == ImageType::I64 || ty == ImageType::U64 {
        return Err(FitsError::new(BAD_DATATYPE));
    }
    let k = match kind {
        Some(k) => k,
        None => CompressionType::Rice1,
    };
    let bitpix = ty.bitpix();
    if bitpix < 0 && lossless && !(k == CompressionType::Gzip1 || k == CompressionType::Gzip2) {
        return Err(
            FitsError::with_message(
                DATA_COMPRESSION_ERR,
                "Lossless compression of floating point images must use GZIP (imcomp_init_table)",
            ),
        );
    }
    let tiles = match actual_tilesize(k, naxes, request) {
        Err(e) => {
            return Err(e);
        },
        Ok(t) => t,
    };
    let nrows = tile_count(naxes, tiles.as_slice());
    Ok(
        CompressedImagePlan {
            kind: k,
            tiles,
            nrows,
            quantize_columns: bitpix < 0 && !lossless,
            short_descriptors: k == CompressionType::Plio1,
        },
    )
}

/// The numbered keywords `prefix1 ..= prefixk` with the values `vals`.
pub open spec fn numbered_keys(
    h: Result<Seq<Seq<u8>>, HeaderFault>,
    prefix: Seq<u8>,
    vals: Seq<i64>,
    comm: Seq<u8>,
    k: int,
) -> Result<Seq<Seq<u8>>, HeaderFault>
    decreases k,
{
    if k <= 0 {
        h
    } else {
        add_key(numbered_keys(h, prefix, vals, comm, k - 1), prefix + decimal_int(k), decimal_int(vals[k - 1] as int), Some(comm))
    }
}

proof fn lemma_numbered_err(h: Result<Seq<Seq<u8>>, HeaderFault>, prefix: Seq<u8>, vals: Seq<i64>, comm: Seq<u8>, j: int, k: int)
    requires
        0 <= j <= k,
        numbered_keys(h, prefix, vals, comm, j) is Err,
    ensures
        numbered_keys(h, prefix, vals, comm, k) == numbered_keys(h, prefix, vals, comm, j),
    decreases k,
{
    if k > j {
        lemma_numbered_err(h, prefix, vals, comm, j, k - 1);
    }
}

/// The `ZCMPTYPE` value of an algorithm, as bytes.
pub open spec fn kind_name_bytes(k: CompressionType) -> Seq<u8> {
    match k {
        CompressionType::NoCompress => "NOCOMPRESS".spec_bytes(),
        CompressionType::Rice1 => "RICE_1".spec_bytes(),
        CompressionType::Gzip1 => "GZIP_1".spec_bytes(),
        CompressionType::Gzip2 => "GZIP_2".spec_bytes(),
        CompressionType::Plio1 => "PLIO_1".spec_bytes(),
        CompressionType::Hcompress1 => "HCOMPRESS_1".spec_bytes(),
    }
}

/// The quantization method written for floats: `SUBTRACTIVE_DITHER_1`
/// when none is asked for, and in place of `SUBTRACTIVE_DITHER_2` for
/// HCOMPRESS.
pub open spec fn written_method(kind: CompressionType, method: i32) -> i32 {
    let m = if method == 0 { SUBTRACTIVE_DITHER_1 } else { method };
    if kind == CompressionType::Hcompress1 && m == SUBTRACTIVE_DITHER_2 {
        SUBTRACTIVE_DITHER_1
    } else {
        m
    }
}

/// The `ZQUANTIZ` value of a method.
pub open spec fn method_name_bytes(m: i32) -> Seq<u8> {
    if m == SUBTRACTIVE_DITHER_2 {
        "SUBTRACTIVE_DITHER_2".spec_bytes()
    } else if m == NO_DITHER {
        "NO_DITHER".spec_bytes()
    } else {
        "SUBTRACTIVE_DITHER_1".spec_bytes()
    }
}

/// The quantization keywords of a float image.
pub open spec fn quantize_keys(
    h: Result<Seq<Seq<u8>>, HeaderFault>,
    kind: CompressionType,
    lossless: bool,
    method: i32,
    dither_seed: i32,
) -> Result<Seq<Seq<u8>>, HeaderFault> {
    if lossless {
        add_key(h, "ZQUANTIZ".spec_bytes(), quote_value("NONE".spec_bytes()), Some("Lossless compression without quantization".spec_bytes()))
    } else {
        let m = written_method(kind, method);
        let hq = add_key(h, "ZQUANTIZ".spec_bytes(), quote_value(method_name_bytes(m)), Some("Pixel Quantization Algorithm".spec_bytes()));
        if m != NO_DITHER {
            add_key(
                hq,
                "ZDITHER0".spec_bytes(),
                decimal_int(if dither_seed < 1 { 1 } else { dither_seed as int }),
                Some("dithering offset when quantizing floats".spec_bytes()),
            )
        } else {
            hq
        }
    }
}

/// Rice's bytes per pixel for a BITPIX.
pub open spec fn rice_bytepix_of(bitpix: i32) -> int {
    if bitpix == 8 {
        1
    } else if bitpix == 16 {
        2
    } else {
        4
    }
}

/// The algorithm's parameter keywords written from integers (Rice's;
/// HCOMPRESS's scale is a float and is written apart).
pub open spec fn rice_keys(h: Result<Seq<Seq<u8>>, HeaderFault>, kind: CompressionType, bitpix: i32) -> Result<
    Seq<Seq<u8>>,
    HeaderFault,
> {
    if kind == CompressionType::Rice1 {
        let h1 = add_key(h, "ZNAME1".spec_bytes(), quote_value("BLOCKSIZE".spec_bytes()), Some("compression block size".spec_bytes()));
        let h2 = add_key(h1, "ZVAL1".spec_bytes(), decimal_int(32), Some("pixels per block".spec_bytes()));
        let h3 = add_key(h2, "ZNAME2".spec_bytes(), quote_value("BYTEPIX".spec_bytes()), Some("bytes per pixel (1, 2, 4, or 8)".spec_bytes()));
        add_key(h3, "ZVAL2".spec_bytes(), decimal_int(rice_bytepix_of(bitpix)), Some("bytes per pixel (1, 2, 4, or 8)".spec_bytes()))
    } else {
        h
    }
}

/// The `ZIMAGE` keywords `imcomp_init_table` writes after the table's own
/// keywords, up to the algorithm's integer parameters.
pub open spec fn zimage_keys_of(
    base: Seq<Seq<u8>>,
    ty: ImageType,
    naxes: Seq<i64>,
    kind: CompressionType,
    tiles: Seq<i64>,
    lossless: bool,
    method: i32,
    dither_seed: i32,
) -> Result<Seq<Seq<u8>>, HeaderFault> {
    let bitpix = ty.spec_bitpix();
    let h1 = add_key(Ok(base), "ZIMAGE".spec_bytes(), "T".spec_bytes(), Some("extension contains compressed image".spec_bytes()));
    let h2 = add_key(h1, "ZBITPIX".spec_bytes(), decimal_int(bitpix as int), Some("data type of original image".spec_bytes()));
    let h3 = add_key(h2, "ZNAXIS".spec_bytes(), decimal_int(naxes.len() as int), Some("dimension of original image".spec_bytes()));
    let h4 = numbered_keys(h3, "ZNAXIS".spec_bytes(), naxes, "length of original image axis".spec_bytes(), naxes.len() as int);
    let h5 = numbered_keys(h4, "ZTILE".spec_bytes(), tiles, "size of tiles to be compressed".spec_bytes(), tiles.len() as int);
    let h6 = if bitpix < 0 {
        quantize_keys(h5, kind, lossless, method, dither_seed)
    } else {
        h5
    };
    let h7 = add_key(h6, "ZCMPTYPE".spec_bytes(), quote_value(kind_name_bytes(kind)), Some("compression algorithm".spec_bytes()));
    rice_keys(h7, kind, bitpix)
}

proof fn lemma_numbered_err_base(f: HeaderFault, prefix: Seq<u8>, vals: Seq<i64>, comm: Seq<u8>, k: int)
    ensures
        numbered_keys(Err(f), prefix, vals, comm, k) == Err::<Seq<Seq<u8>>, HeaderFault>(f),
    decreases k,
{
    if k > 0 {
        lemma_numbered_err_base(f, prefix, vals, comm, k - 1);
    }
}

/// Append `prefix1 ..= prefixk` with the values `vals`.
fn write_numbered(h: &mut Header, prefix: &str, vals: &[i64], comm: &str) -> (r: Result<(), FitsError>)
    requires
        vals@.len() <= 999,
    ensures
        match numbered_keys(Ok(old(h)@), prefix.spec_bytes(), vals@, comm.spec_bytes(), vals@.len() as int) {
            Ok(cs) => r is Ok && final(h)@ == cs,
            Err(f) => r matches Err(e) && fault_error(e, f),
        },
{
    let ghost base: Result<Seq<Seq<u8>>, HeaderFault> = Ok(h@);
    let mut i: usize = 0;
    while i < vals.len()
        invariant
            vals@.len() <= 999,
            i <= vals@.len(),
            base == Ok::<Seq<Seq<u8>>, HeaderFault>(old(h)@),
            numbered_keys(base, prefix.spec_bytes(), vals@, comm.spec_bytes(), i as int) == Ok::<
                Seq<Seq<u8>>,
                HeaderFault,
            >(h@),
        decreases vals.len() - i,
    {
        let name = with_number(prefix, (i + 1) as i64);
        let value = format_i64(vals[i]);
        match h.write_bytes(name.as_slice(), value.as_slice(), Some(comm.as_bytes())) {
            Err(e) => {
                proof {
                    lemma_numbered_err(base, prefix.spec_bytes(), vals@, comm.spec_bytes(), i + 1, vals@.len() as int);
                }
                return Err(e);
            },
            Ok(()) => {},
        }
        i += 1;
    }
    Ok(())
}

/// Append the quantization keywords of a float image.
fn write_quantize(h: &mut Header, kind: CompressionType, lossless: bool, method: i32, dither_seed: i32) -> (r: Result<
    (),
    FitsError,
>)
    ensures
        match quantize_keys(Ok(old(h)@), kind, lossless, method, dither_seed) {
            Ok(cs) => r is Ok && final(h)@ == cs,
            Err(f) => r matches Err(e) && fault_error(e, f),
        },
{
    if lossless {
        return h.write_string("ZQUANTIZ", "NONE", Some("Lossless compression without quantization"));
    }
    let m0 = if method == 0 { SUBTRACTIVE_DITHER_1 } else { method };
    let m = if kind == CompressionType::Hcompress1 && m0 == SUBTRACTIVE_DITHER_2 { SUBTRACTIVE_DITHER_1 } else { m0 };
    let name: &str = if m == SUBTRACTIVE_DITHER_2 {
        "SUBTRACTIVE_DITHER_2"
    } else if m == NO_DITHER {
        "NO_DITHER"
    } else {
        "SUBTRACTIVE_DITHER_1"
    };
    assert(name.spec_bytes() == method_name_bytes(m));
    if let Err(e) = h.write_string("ZQUANTIZ", name, Some("Pixel Quantization Algorithm")) {
        return Err(e);
    }
    if m != NO_DITHER {
        let ds: i64 = if dither_seed < 1 { 1 } else { dither_seed as i64 };
        return h.write_long("ZDITHER0", ds, Some("dithering offset when quantizing floats"));
    }
    Ok(())
}

/// Append Rice's parameter keywords.
fn write_rice_keys(h: &mut Header, kind: CompressionType, bitpix: i32) -> (r: Result<(), FitsError>)
    ensures
        match rice_keys(Ok(old(h)@), kind, bitpix) {
            Ok(cs) => r is Ok && final(h)@ == cs,
            Err(f) => r matches Err(e) && fault_error(e, f),
        },
{
    if kind != CompressionType::Rice1 {
        return Ok(());
    }
    if let Err(e) = h.write_string("ZNAME1", "BLOCKSIZE", Some("compression block size")) {
        return Err(e);
    }
    if let Err(e) = h.write_long("ZVAL1", 32, Some("pixels per block")) {
        return Err(e);
    }
    if let Err(e) = h.write_string("ZNAME2", "BYTEPIX", Some("bytes per pixel (1, 2, 4, or 8)")) {
        return Err(e);
    }
    let bp: i64 = if bitpix == 8 { 1 } else if bitpix == 16 { 2 } else { 4 };
    h.write_long("ZVAL2", bp, Some("bytes per pixel (1, 2, 4, or 8)"))
}

impl Header {
    /// The table header `self` with the `ZIMAGE` keywords of a compressed
    /// image appended (`imcomp_init_table`), up to the algorithm's integer
    /// parameters; the HCOMPRESS scale and the `BZERO` / `BSCALE` floats
    /// follow it.
    pub fn with_zimage_keys(
        self,
        ty: ImageType,
        naxes: &[i64],
        kind: CompressionType,
        tiles: &[i64],
        lossless: bool,
        method: i32,
        dither_seed: i32,
    ) -> (r: Result<Header, FitsError>)
        requires
            naxes@.len() <= 999,
            tiles@.len() <= 999,
        ensures
            header_result(r, zimage_keys_of(self@, ty, naxes@, kind, tiles@, lossless, method, dither_seed)),
    {
        let mut h = self;
        let ghost base = h@;
        let bitpix = ty.bitpix();
        if let Err(e) = h.write_logical("ZIMAGE", true, Some("extension contains compressed image")) {
            proof {
                let f = add_key(Ok(base), "ZIMAGE".spec_bytes(), "T".spec_bytes(), Some("extension contains compressed image".spec_bytes()))->Err_0;
                lemma_numbered_err_base(f, "ZNAXIS".spec_bytes(), naxes@, "length of original image axis".spec_bytes(), naxes@.len() as int);
                lemma_numbered_err_base(f, "ZTILE".spec_bytes(), tiles@, "size of tiles to be compressed".spec_bytes(), tiles@.len() as int);
            }
            return Err(e);
        }
        let ghost s1 = h@;
        if let Err(e) = h.write_long("ZBITPIX", bitpix as i64, Some("data type of original image")) {
            proof {
                let f = add_key(Ok(s1), "ZBITPIX".spec_bytes(), decimal_int(bitpix as int), Some("data type of original image".spec_bytes()))->Err_0;
                lemma_numbered_err_base(f, "ZNAXIS".spec_bytes(), naxes@, "length of original image axis".spec_bytes(), naxes@.len() as int);
                lemma_numbered_err_base(f, "ZTILE".spec_bytes(), tiles@, "size of tiles to be compressed".spec_bytes(), tiles@.len() as int);
            }
            return Err(e);
        }
        let ghost s2 = h@;
        if let Err(e) = h.write_long("ZNAXIS", naxes.len() as i64, Some("dimension of original image")) {
            proof {
                let f = add_key(Ok(s2), "ZNAXIS".spec_bytes(), decimal_int(naxes@.len() as int), Some("dimension of original image".spec_bytes()))->Err_0;
                lemma_numbered_err_base(f, "ZNAXIS".spec_bytes(), naxes@, "length of original image axis".spec_bytes(), naxes@.len() as int);
                lemma_numbered_err_base(f, "ZTILE".spec_bytes(), tiles@, "size of tiles to be compressed".spec_bytes(), tiles@.len() as int);
            }
            return Err(e);
        }
        let ghost s3 = h@;
        if let Err(e) = write_numbered(&mut h, "ZNAXIS", naxes, "length of original image axis") {
            proof {
                let f = numbered_keys(Ok(s3), "ZNAXIS".spec_bytes(), naxes@, "length of original image axis".spec_bytes(), naxes@.len() as int)->Err_0;
                lemma_numbered_err_base(f, "ZTILE".spec_bytes(), tiles@, "size of tiles to be compressed".spec_bytes(), tiles@.len() as int);
            }
            return Err(e);
        }
        if let Err(e) = write_numbered(&mut h, "ZTILE", tiles, "size of tiles to be compressed") {
            return Err(e);
        }
        if bitpix < 0 {
            if let Err(e) = write_quantize(&mut h, kind, lossless, method, dither_seed) {
                return Err(e);
            }
        }
        let name: &str = match kind {
            CompressionType::NoCompress => "NOCOMPRESS",
            CompressionType::Rice1 => "RICE_1",
            CompressionType::Gzip1 => "GZIP_1",
            CompressionType::Gzip2 => "GZIP_2",
            CompressionType::Plio1 => "PLIO_1",
            CompressionType::Hcompress1 => "HCOMPRESS_1",
        };
        assert(name.spec_bytes() == kind_name_bytes(kind));
        if let Err(e) = h.write_string("ZCMPTYPE", name, Some("compression algorithm")) {
            return Err(e);
        }
        if let Err(e) = write_rice_keys(&mut h, kind, bitpix) {
            return Err(e);
        }
        Ok(h)
    }
}

} // verus!
