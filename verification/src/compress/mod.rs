//! Tiled image compression (FITS ZIMAGE binary tables): the codec choice,
//! the tile shape, and the pixel layouts the codecs read and write.
use vstd::prelude::*;
use crate::error::FitsError;
use crate::status::{DATA_COMPRESSION_ERR, DATA_DECOMPRESSION_ERR};
use crate::tdim::{trim_bounds, trim_ws};
use crate::text::{chars_of, push_char};
use crate::types::{GZIP_1, GZIP_2, HCOMPRESS_1, MAX_COMPRESS_DIM, NOCOMPRESS, PLIO_1, RICE_1};

pub mod gzip_tile;
pub mod hcompress;
pub mod layout;
pub mod plio;
pub mod rice;
pub mod zimage;

verus! {

/// Requested tiled-compression algorithm (`fits_set_compression_type`).
#[derive(Debug, Clone, Copy, PartialEq, Eq, Hash, Structural)]
pub enum CompressionType {
    /// Uncompressed tiles (`NOCOMPRESS`).
    NoCompress,
    /// Rice coding.
    Rice1,
    /// gzip of big-endian pixels.
    Gzip1,
    /// byte-shuffle then gzip.
    Gzip2,
    /// IRAF pixel list (non-negative 24-bit).
    Plio1,
    /// H-transform.
    Hcompress1,
}

impl CompressionType {
    /// CFITSIO integer code of each algorithm.
    pub open spec fn spec_code(self) -> i32 {
        match self {
            CompressionType::NoCompress => NOCOMPRESS,
            CompressionType::Rice1 => RICE_1,
            CompressionType::Gzip1 => GZIP_1,
            CompressionType::Gzip2 => GZIP_2,
            CompressionType::Plio1 => PLIO_1,
            CompressionType::Hcompress1 => HCOMPRESS_1,
        }
    }

    /// CFITSIO integer code.
    pub fn code(self) -> (r: i32)
        ensures
            r == self.spec_code(),
    {
        match self {
            CompressionType::NoCompress => NOCOMPRESS,
            CompressionType::Rice1 => RICE_1,
            CompressionType::Gzip1 => GZIP_1,
            CompressionType::Gzip2 => GZIP_2,
            CompressionType::Plio1 => PLIO_1,
            CompressionType::Hcompress1 => HCOMPRESS_1,
        }
    }

    /// The algorithm of a code; `0` means "not set" and reads as `None`.
    pub open spec fn spec_from_code(code: i32) -> Option<CompressionType> {
        if code == 0 || code == NOCOMPRESS {
            Some(CompressionType::NoCompress)
        } else if code == RICE_1 {
            Some(CompressionType::Rice1)
        } else if code == GZIP_1 {
            Some(CompressionType::Gzip1)
        } else if code == GZIP_2 {
            Some(CompressionType::Gzip2)
        } else if code == PLIO_1 {
            Some(CompressionType::Plio1)
        } else if code == HCOMPRESS_1 {
            Some(CompressionType::Hcompress1)
        } else {
            None
        }
    }

    /// Parse a CFITSIO code. `0` means "not set" (default Rice when writing).
    pub fn from_code(code: i32) -> (r: Option<CompressionType>)
        ensures
            r == Self::spec_from_code(code),
    {
        if code == 0 || code == NOCOMPRESS {
            Some(CompressionType::NoCompress)
        } else if code == RICE_1 {
            Some(CompressionType::Rice1)
        } else if code == GZIP_1 {
            Some(CompressionType::Gzip1)
        } else if code == GZIP_2 {
            Some(CompressionType::Gzip2)
        } else if code == PLIO_1 {
            Some(CompressionType::Plio1)
        } else if code == HCOMPRESS_1 {
            Some(CompressionType::Hcompress1)
        } else {
            None
        }
    }

    /// `ZCMPTYPE` value of each algorithm.
    pub open spec fn spec_zcmptype(self) -> Seq<char> {
        match self {
            CompressionType::NoCompress => "NOCOMPRESS"@,
            CompressionType::Rice1 => "RICE_1"@,
            CompressionType::Gzip1 => "GZIP_1"@,
            CompressionType::Gzip2 => "GZIP_2"@,
            CompressionType::Plio1 => "PLIO_1"@,
            CompressionType::Hcompress1 => "HCOMPRESS_1"@,
        }
    }

    /// `ZCMPTYPE` string.
    pub fn zcmptype(self) -> (r: &'static str)
        ensures
            r@ == self.spec_zcmptype(),
    {
        match self {
            CompressionType::NoCompress => "NOCOMPRESS",
            CompressionType::Rice1 => "RICE_1",
            CompressionType::Gzip1 => "GZIP_1",
            CompressionType::Gzip2 => "GZIP_2",
            CompressionType::Plio1 => "PLIO_1",
            CompressionType::Hcompress1 => "HCOMPRESS_1",
        }
    }
}

/// Law: every algorithm reads back from its own code.
pub proof fn lemma_code_roundtrip(t: CompressionType)
    ensures
        CompressionType::spec_from_code(t.spec_code()) == Some(t),
{
}

/// Tile shape `imcomp_init_table` uses: H-compress tiles whole rows (or 16
/// rows of a taller image), at least 4 by 4; other algorithms take the
/// request per axis, where a non-positive first axis or a negative other
/// axis means the whole axis and 0 means 1.
pub open spec fn tile_shape(kind: CompressionType, naxes: Seq<i64>, request: Seq<i64>) -> Seq<i64> {
    if kind == CompressionType::Hcompress1 {
        let t0 = if request[0] <= 0 { naxes[0] } else { request[0] };
        let t1 = if naxes[1] <= 30 { naxes[1] } else { 16 };
        if t0 < 4 || t1 < 4 {
            Seq::new(naxes.len(), |i: int| if i == 0 { if naxes[0] < 4 { 4 } else { naxes[0] } } else if i == 1 { if naxes[1] < 4 { 4 } else { naxes[1] } } else { 1i64 })
        } else {
            Seq::new(naxes.len(), |i: int| if i == 0 { t0 } else if i == 1 { t1 } else { 1i64 })
        }
    } else {
        Seq::new(naxes.len(), |i: int| {
            let r = if i < request.len() { request[i] } else { 0 };
            if i == 0 {
                if r <= 0 { naxes[0] } else { r }
            } else if r < 0 {
                naxes[i]
            } else if r == 0 {
                1i64
            } else {
                r
            }
        })
    }
}

/// The message for H-compress of a 1-dimensional image.
pub open spec fn hcompress_1d_message() -> Seq<char> {
    "Hcompress cannot be used with 1-dimensional images (imcomp_init_table)"@
}

/// Tile shape for a compressed image (`imcomp_init_table`).
pub fn actual_tilesize(kind: CompressionType, naxes: &[i64], request: &[i64; MAX_COMPRESS_DIM]) -> (r: Result<
    Vec<i64>,
    FitsError,
>)
    ensures
        kind == CompressionType::Hcompress1 && naxes@.len() < 2 ==> (r matches Err(e) && e.status
            == DATA_COMPRESSION_ERR && e.message_list() == seq![hcompress_1d_message()]),
        !(kind == CompressionType::Hcompress1 && naxes@.len() < 2) ==> (r matches Ok(t) && t@
            == tile_shape(kind, naxes@, request@)),
{
    let naxis = naxes.len();
    if kind == CompressionType::Hcompress1 {
        if naxis < 2 {
            return Err(FitsError::with_message(
                DATA_COMPRESSION_ERR,
                "Hcompress cannot be used with 1-dimensional images (imcomp_init_table)",
            ));
        }
        let t0 = if request[0] <= 0 { naxes[0] } else { request[0] };
        let t1 = if naxes[1] <= 30 { naxes[1] } else { 16 };
        let small = t0 < 4 || t1 < 4;
        let mut t: Vec<i64> = Vec::new();
        let mut i: usize = 0;
        while i < naxis
            invariant
                naxis == naxes@.len(),
                naxis >= 2,
                i <= naxis,
                t@ == tile_shape(kind, naxes@, request@).subrange(0, i as int),
                t0 == (if request@[0] <= 0 { naxes@[0] } else { request@[0] }),
                t1 == (if naxes@[1] <= 30 { naxes@[1] } else { 16 }),
                small == (t0 < 4 || t1 < 4),
                kind == CompressionType::Hcompress1,
            decreases naxis - i,
        {
            let v = if i == 0 {
                if small {
                    if naxes[0] < 4 { 4 } else { naxes[0] }
                } else {
                    t0
                }
            } else if i == 1 {
                if small {
                    if naxes[1] < 4 { 4 } else { naxes[1] }
                } else {
                    t1
                }
            } else {
                1
            };
            t.push(v);
            assert(t@ =~= tile_shape(kind, naxes@, request@).subrange(0, i + 1));
            i += 1;
        }
        assert(tile_shape(kind, naxes@, request@).subrange(0, naxis as int) =~= tile_shape(
            kind,
            naxes@,
            request@,
        ));
        return Ok(t);
    }
    let mut t: Vec<i64> = Vec::new();
    let mut i: usize = 0;
    while i < naxis
        invariant
            naxis == naxes@.len(),
            i <= naxis,
            t@ == tile_shape(kind, naxes@, request@).subrange(0, i as int),
            kind != CompressionType::Hcompress1,
        decreases naxis - i,
    {
        let r = if i < MAX_COMPRESS_DIM { request[i] } else { 0 };
        let v = if i == 0 {
            if r <= 0 { naxes[0] } else { r }
        } else if r < 0 {
            naxes[i]
        } else if r == 0 {
            1
        } else {
            r
        };
        t.push(v);
        assert(t@ =~= tile_shape(kind, naxes@, request@).subrange(0, i + 1));
        i += 1;
    }
    assert(tile_shape(kind, naxes@, request@).subrange(0, naxis as int) =~= tile_shape(
        kind,
        naxes@,
        request@,
    ));
    Ok(t)
}


/// The algorithm a trimmed `ZCMPTYPE` value names, if any.
pub open spec fn named_compression(t: Seq<char>) -> Option<CompressionType> {
    if t == "RICE_1"@ || t == "RICE_ONE"@ {
        Some(CompressionType::Rice1)
    } else if t == "GZIP_1"@ {
        Some(CompressionType::Gzip1)
    } else if t == "GZIP_2"@ {
        Some(CompressionType::Gzip2)
    } else if t == "PLIO_1"@ {
        Some(CompressionType::Plio1)
    } else if t == "HCOMPRESS_1"@ {
        Some(CompressionType::Hcompress1)
    } else if t == "NOCOMPRESS"@ {
        Some(CompressionType::NoCompress)
    } else {
        None
    }
}

/// The message for a `ZCMPTYPE` value naming no algorithm.
pub open spec fn unknown_compression_message(t: Seq<char>) -> Seq<char> {
    "Unknown image compression type: "@ + t
}

/// Whether the characters `v[a..b]` are those of `lit`.
pub(crate) fn chars_eq(v: &Vec<char>, a: usize, b: usize, lit: &str) -> (r: bool)
    requires
        a <= b <= v@.len(),
    ensures
        r == (v@.subrange(a as int, b as int) == lit@),
{
    let n = lit.unicode_len();
    if b - a != n {
        assert(v@.subrange(a as int, b as int).len() != lit@.len());
        return false;
    }
    let mut i: usize = 0;
    while i < n
        invariant
            a + n == b <= v@.len(),
            n == lit@.len(),
            i <= n,
            forall|j: int| 0 <= j < i ==> v@[a + j] == lit@[j],
        decreases n - i,
    {
        if v[a + i] != lit.get_char(i) {
            assert(v@.subrange(a as int, b as int)[i as int] != lit@[i as int]);
            return false;
        }
        i += 1;
    }
    assert(v@.subrange(a as int, b as int) =~= lit@);
    true
}

impl CompressionType {
    /// The algorithm a `ZCMPTYPE` keyword value names, surrounding
    /// whitespace ignored.
    pub fn from_zcmptype(s: &str) -> (r: Result<CompressionType, FitsError>)
        ensures
            match named_compression(trim_ws(s@)) {
                Some(k) => r matches Ok(k2) && k2 == k,
                None => r matches Err(e) && e.status == DATA_DECOMPRESSION_ERR && e.message_list()
                    == seq![unknown_compression_message(trim_ws(s@))],
            },
    {
        compression_from_name(s)
    }
}

/// The algorithm a keyword value names, surrounding whitespace ignored.
fn compression_from_name(s: &str) -> (r: Result<CompressionType, FitsError>)
        ensures
            match named_compression(trim_ws(s@)) {
                Some(k) => r matches Ok(k2) && k2 == k,
                None => r matches Err(e) && e.status == DATA_DECOMPRESSION_ERR && e.message_list()
                    == seq![unknown_compression_message(trim_ws(s@))],
            },
    {
        let v = chars_of(s);
        let (a, b) = trim_bounds(&v, 0, v.len());
        assert(v@.subrange(0, v@.len() as int) =~= s@);
        if chars_eq(&v, a, b, "RICE_1") || chars_eq(&v, a, b, "RICE_ONE") {
            Ok(CompressionType::Rice1)
        } else if chars_eq(&v, a, b, "GZIP_1") {
            Ok(CompressionType::Gzip1)
        } else if chars_eq(&v, a, b, "GZIP_2") {
            Ok(CompressionType::Gzip2)
        } else if chars_eq(&v, a, b, "PLIO_1") {
            Ok(CompressionType::Plio1)
        } else if chars_eq(&v, a, b, "HCOMPRESS_1") {
            Ok(CompressionType::Hcompress1)
        } else if chars_eq(&v, a, b, "NOCOMPRESS") {
            Ok(CompressionType::NoCompress)
        } else {
            let mut m = String::from_str("Unknown image compression type: ");
            let ghost head = m@;
            let mut k: usize = a;
            while k < b
                invariant
                    a <= k <= b <= v@.len(),
                    m@ == head + v@.subrange(a as int, k as int),
                decreases b - k,
            {
                push_char(&mut m, v[k]);
                assert(head + v@.subrange(a as int, k + 1) =~= (head + v@.subrange(a as int, k as int)).push(
                    v@[k as int],
                ));
                k += 1;
            }
            Err(FitsError::with_message(DATA_DECOMPRESSION_ERR, m.as_str()))
        }
}

/// Product of the positive entries of a sequence (1 when there is none).
pub open spec fn positive_product(s: Seq<i64>) -> int
    decreases s.len(),
{
    if s.len() == 0 {
        1
    } else {
        positive_product(s.drop_last()) * (if s.last() > 0 {
            s.last() as int
        } else {
            1
        })
    }
}

proof fn lemma_positive_product_grows(s: Seq<i64>, k: int)
    requires
        0 <= k <= s.len(),
    ensures
        1 <= positive_product(s.subrange(0, k)) <= positive_product(s),
    decreases s.len() - k,
{
    if k < s.len() {
        lemma_positive_product_grows(s, k + 1);
        lemma_positive_product_ge1(s.subrange(0, k));
        let t = s.subrange(0, k + 1);
        assert(t.drop_last() =~= s.subrange(0, k));
        let p = positive_product(s.subrange(0, k));
        let f: int = if t.last() > 0 { t.last() as int } else { 1 };
        assert(p <= p * f) by (nonlinear_arith)
            requires
                p >= 1,
                f >= 1,
        ;
    } else {
        assert(s.subrange(0, k) =~= s);
        lemma_positive_product_ge1(s);
    }
}

proof fn lemma_positive_product_ge1(s: Seq<i64>)
    ensures
        positive_product(s) >= 1,
    decreases s.len(),
{
    if s.len() > 0 {
        lemma_positive_product_ge1(s.drop_last());
        let p = positive_product(s.drop_last());
        let f: int = if s.last() > 0 { s.last() as int } else { 1 };
        assert(p * f >= 1) by (nonlinear_arith)
            requires
                p >= 1,
                f >= 1,
        ;
    }
}

/// Number of pixels of an image of axes `znaxis` (`ZImageInfo::npix`):
/// the product of the positive axis lengths.
pub fn zimage_npix(znaxis: &[i64]) -> (r: i64)
    requires
        positive_product(znaxis@) <= i64::MAX,
    ensures
        r == positive_product(znaxis@),
{
    let mut acc: i64 = 1;
    let mut i: usize = 0;
    while i < znaxis.len()
        invariant
            i <= znaxis@.len(),
            acc == positive_product(znaxis@.subrange(0, i as int)),
            positive_product(znaxis@) <= i64::MAX,
        decreases znaxis.len() - i,
    {
        proof {
            assert(znaxis@.subrange(0, i + 1).drop_last() =~= znaxis@.subrange(0, i as int));
            lemma_positive_product_grows(znaxis@, i + 1);
        }
        if znaxis[i] > 0 {
            acc = acc * znaxis[i];
        }
        i += 1;
    }
    assert(znaxis@.subrange(0, znaxis@.len() as int) =~= znaxis@);
    acc
}

/// Bytes per uncompressed pixel of BITPIX `zbitpix`
/// (`ZImageInfo::bytes_per_pixel`): by its magnitude, 1 for an unknown one.
pub open spec fn zbitpix_bytes_of(zbitpix: int) -> int {
    let m = if zbitpix < 0 {
        -zbitpix
    } else {
        zbitpix
    };
    if m == 8 {
        1
    } else if m == 16 {
        2
    } else if m == 32 {
        4
    } else if m == 64 {
        8
    } else {
        1
    }
}

/// Bytes per uncompressed pixel of BITPIX `zbitpix`.
pub fn zbitpix_bytes(zbitpix: i32) -> (r: usize)
    ensures
        r == zbitpix_bytes_of(zbitpix as int),
{
    let m: u32 = if zbitpix < 0 {
        (0 - (zbitpix as i64)) as u32
    } else {
        zbitpix as u32
    };
    if m == 8 {
        1
    } else if m == 16 {
        2
    } else if m == 32 {
        4
    } else if m == 64 {
        8
    } else {
        1
    }
}

/// Division rounded toward zero, as Rust divides integers.
pub open spec fn tdiv(a: int, b: int) -> int {
    let q = (if a >= 0 {
        a
    } else {
        -a
    }) / (if b >= 0 {
        b
    } else {
        -b
    });
    if (a >= 0) == (b > 0) || a == 0 {
        q
    } else {
        -q
    }
}

/// Tiles along an axis of `n` pixels with tiles of `t`: `(n - 1) / t + 1`.
pub open spec fn tiles_along(n: int, t: int) -> int {
    tdiv(n - 1, t) + 1
}

/// Tiles along each axis, over the axes both sequences have.
pub open spec fn tile_factors(naxes: Seq<i64>, tiles: Seq<i64>) -> Seq<int> {
    let m = if naxes.len() < tiles.len() {
        naxes.len()
    } else {
        tiles.len()
    };
    Seq::new(m, |i: int| tiles_along(naxes[i] as int, tiles[i] as int))
}

/// Product of a sequence, in order.
pub open spec fn product_of(s: Seq<int>) -> int
    decreases s.len(),
{
    if s.len() == 0 {
        1
    } else {
        product_of(s.drop_last()) * s.last()
    }
}

/// Inputs on which counting tiles stays within `i64`: no tile size 0, each
/// count and each running product in range.
pub open spec fn tile_count_ok(naxes: Seq<i64>, tiles: Seq<i64>) -> bool {
    let f = tile_factors(naxes, tiles);
    &&& forall|i: int|
        0 <= i < f.len() ==> tiles[i] != 0 && naxes[i] > i64::MIN && !(naxes[i] - 1 == i64::MIN
            && tiles[i] == -1) && #[trigger] f[i] <= i64::MAX
    &&& forall|k: int| 0 <= k <= f.len() ==> i64::MIN <= #[trigger] product_of(f.subrange(0, k)) <= i64::MAX
}

/// `a / b` rounded toward zero.
fn tdiv_i64(a: i64, b: i64) -> (r: i64)
    requires
        b != 0,
        !(a == i64::MIN && b == -1),
    ensures
        r == tdiv(a as int, b as int),
{
    let ua: u64 = if a >= 0 {
        a as u64
    } else {
        (0 - (a as i128)) as u64
    };
    let ub: u64 = if b >= 0 {
        b as u64
    } else {
        (0 - (b as i128)) as u64
    };
    let q: u64 = ua / ub;
    proof {
        vstd::arithmetic::div_mod::lemma_fundamental_div_mod(ua as int, ub as int);
        assert(q <= ua) by (nonlinear_arith)
            requires
                ua == ub * q + ua % ub,
                ub >= 1,
                ua % ub >= 0,
                q >= 0,
        ;
        if ub >= 2 {
            assert(2 * q <= ua) by (nonlinear_arith)
                requires
                    ua == ub * q + ua % ub,
                    ub >= 2,
                    ua % ub >= 0,
                    q >= 0,
            ;
        }
    }
    if (a >= 0) == (b > 0) || a == 0 {
        assert(q <= i64::MAX);
        q as i64
    } else {
        (0 - (q as i128)) as i64
    }
}

/// Number of tiles covering an image: the product over the axes of
/// `(naxes[i] - 1) / tiles[i] + 1`.
pub fn tile_count(naxes: &[i64], tiles: &[i64]) -> (r: i64)
    requires
        tile_count_ok(naxes@, tiles@),
    ensures
        r == product_of(tile_factors(naxes@, tiles@)),
{
    let m = if naxes.len() < tiles.len() {
        naxes.len()
    } else {
        tiles.len()
    };
    let ghost f = tile_factors(naxes@, tiles@);
    let mut acc: i64 = 1;
    let mut i: usize = 0;
    assert(f.subrange(0, 0) =~= Seq::<int>::empty());
    while i < m
        invariant
            m == f.len(),
            f == tile_factors(naxes@, tiles@),
            tile_count_ok(naxes@, tiles@),
            i <= m,
            acc == product_of(f.subrange(0, i as int)),
        decreases m - i,
    {
        assert(f[i as int] <= i64::MAX);
        let x = tdiv_i64(naxes[i] - 1, tiles[i]);
        let t = x + 1;
        proof {
            assert(f.subrange(0, i + 1).drop_last() =~= f.subrange(0, i as int));
            assert(i64::MIN <= product_of(f.subrange(0, i + 1)) <= i64::MAX);
        }
        acc = acc * t;
        i += 1;
    }
    assert(f.subrange(0, m as int) =~= f);
    acc
}
} // verus!
