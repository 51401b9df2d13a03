//! How a FITS file is opened.
use vstd::prelude::*;
use vstd::string::StringSliceAdditionalSpecFns;
use vstd::utf8::*;
use crate::compress::gzip_tile::gunzip_of;
use crate::error::FitsError;
use crate::hdu::Hdu;
use crate::header::{find_card, key_i64, naxes_of, parse_header_of, read_error, scan_cards, Header, ReadFault};
use crate::io::gzip::has_gzip_magic;
use crate::status::{BAD_HDU_NUM, FILE_NOT_OPENED, MEMORY_ALLOCATION, READ_ERROR};
use crate::text::{copy_range, has_lit, lit_at};
use crate::types::{HduType, READONLY, READWRITE};

verus! {

/// Open mode matching CFITSIO `READONLY` / `READWRITE`.
#[derive(Debug, Clone, Copy, PartialEq, Eq, Structural)]
pub enum AccessMode {
    /// `READONLY` (0).
    ReadOnly,
    /// `READWRITE` (1).
    ReadWrite,
}

impl AccessMode {
    /// CFITSIO integer code of each mode.
    pub open spec fn spec_code(self) -> i32 {
        match self {
            AccessMode::ReadOnly => READONLY,
            AccessMode::ReadWrite => READWRITE,
        }
    }

    /// CFITSIO integer code.
    pub fn code(self) -> (r: i32)
        ensures
            r == self.spec_code(),
            r == 0 || r == 1,
    {
        match self {
            AccessMode::ReadOnly => READONLY,
            AccessMode::ReadWrite => READWRITE,
        }
    }
}

// ---------------------------------------------------------------------
// The HDUs of a file image.
// ---------------------------------------------------------------------

/// `lit` occurs in `c`.
pub open spec fn holds_text(c: Seq<u8>, lit: Seq<char>) -> bool {
    exists|i: int| 0 <= i && i + lit.len() <= c.len() && #[trigger] lit_at(c, i, lit)
}

/// The class of an HDU from its cards: a primary array (`SIMPLE`) is an
/// image; an extension whose `XTENSION` card reads `BINTABLE` is a binary
/// table, one that reads `TABLE` an ASCII table; anything else an image.
pub open spec fn hdu_type_of(cards: Seq<Seq<u8>>) -> HduType {
    if find_card(cards, "SIMPLE".spec_bytes()) is Some {
        HduType::Image
    } else {
        match find_card(cards, "XTENSION".spec_bytes()) {
            Some(i) => if valid_utf8(cards[i]) && holds_text(cards[i], "BINTABLE"@) {
                HduType::BinaryTable
            } else if valid_utf8(cards[i]) && holds_text(cards[i], "TABLE"@) {
                HduType::AsciiTable
            } else {
                HduType::Image
            },
            None => HduType::Image,
        }
    }
}

/// `v`, or 0 when negative.
pub open spec fn non_neg(v: i64) -> int {
    if v < 0 {
        0
    } else {
        v as int
    }
}

/// Product of the axis lengths, negative ones counting as 0.
pub open spec fn axes_npix(ax: Seq<i64>) -> int
    decreases ax.len(),
{
    if ax.len() == 0 {
        1
    } else {
        axes_npix(ax.drop_last()) * non_neg(ax.last())
    }
}

/// `n` rounded up to whole 2880-byte records.
pub open spec fn whole_records(n: int) -> int {
    ((n + 2879) / 2880) * 2880
}

/// The bytes of an HDU's data unit, in whole records: none without axes,
/// else `|BITPIX| / 8 * GCOUNT * (PCOUNT + NAXIS1 * ... * NAXISn)` with
/// `PCOUNT` 0 and `GCOUNT` 1 by default; or why its keywords cannot be
/// read.
pub open spec fn data_unit_len_of(cards: Seq<Seq<u8>>) -> Result<int, ReadFault> {
    match key_i64(cards, "BITPIX".spec_bytes()) {
        Err(f) => Err(f),
        Ok(bp) => match naxes_of(cards) {
            Err(f) => Err(f),
            Ok(ax) => if ax.len() == 0 {
                Ok(0)
            } else {
                let w = (if bp < 0 { -(bp as int) } else { bp as int }) / 8;
                let pc = match key_i64(cards, "PCOUNT".spec_bytes()) {
                    Ok(v) => non_neg(v),
                    Err(_) => 0,
                };
                let gc = match key_i64(cards, "GCOUNT".spec_bytes()) {
                    Ok(v) => non_neg(v),
                    Err(_) => 1,
                };
                Ok(whole_records(w * gc * (pc + axes_npix(ax))))
            },
        },
    }
}

/// Why the HDUs of a file image cannot be read.
pub enum HduFault {
    /// A header does not parse (`NO_END`, `BAD_KEYCHAR`).
    Header(i32),
    /// A keyword its data unit needs cannot be read.
    Read(ReadFault),
    /// No HDU at all.
    NoHdu,
}

/// Every byte from `off` on is zero.
pub open spec fn zero_from(b: Seq<u8>, off: int) -> bool {
    forall|k: int| off <= k < b.len() ==> #[trigger] b[k] == 0
}

/// An HDU as values: class, cards, header offset, data offset.
pub type HduView = (HduType, Seq<Seq<u8>>, int, int);

/// The HDUs from byte `off` on: each header, then its data unit, until the
/// bytes end or only zeros are left.
pub open spec fn hdus_from(b: Seq<u8>, off: int) -> Result<Seq<HduView>, HduFault>
    decreases b.len() - off,
{
    if off < 0 || off >= b.len() || zero_from(b, off) {
        Ok(Seq::empty())
    } else {
        match parse_header_of(b.subrange(off, b.len() as int)) {
            Err(e) => Err(HduFault::Header(e)),
            Ok((cs, hl)) => match data_unit_len_of(cs) {
                Err(f) => Err(HduFault::Read(f)),
                Ok(d) => if hl <= 0 || d < 0 || off + hl + d >= b.len() {
                    Ok(seq![(hdu_type_of(cs), cs, off, off + hl)])
                } else {
                    match hdus_from(b, off + hl + d) {
                        Err(f) => Err(f),
                        Ok(rest) => Ok(seq![(hdu_type_of(cs), cs, off, off + hl)] + rest),
                    }
                },
            },
        }
    }
}

/// The HDUs of a file image; `None` when it holds none.
pub open spec fn parse_hdus_of(b: Seq<u8>) -> Result<Seq<HduView>, HduFault> {
    match hdus_from(b, 0) {
        Err(f) => Err(f),
        Ok(s) => if s.len() == 0 {
            Err(HduFault::NoHdu)
        } else {
            Ok(s)
        },
    }
}

/// The error a fault is reported as.
pub open spec fn hdu_error(e: FitsError, f: HduFault) -> bool {
    match f {
        HduFault::Header(code) => e.status == code && e.message_list().len() == 0,
        HduFault::Read(rf) => read_error(e, rf),
        HduFault::NoHdu => e.status == FILE_NOT_OPENED && e.message_list() == seq!["no HDUs found"@],
    }
}

impl Hdu {
    /// This HDU as values.
    pub open spec fn as_view(&self) -> HduView {
        (self.hdu_type, self.header@, self.header_start as int, self.data_start as int)
    }
}

/// HDUs as values.
pub open spec fn hdu_views(v: Seq<Hdu>) -> Seq<HduView> {
    v.map_values(|h: Hdu| h.as_view())
}

fn holds_text_exec(c: &[u8], lit: &str) -> (r: bool)
    ensures
        r == holds_text(c@, lit@),
{
    if lit.unicode_len() == 0 {
        assert(lit_at(c@, 0, lit@));
        return true;
    }
    let mut i: usize = 0;
    while i < c.len()
        invariant
            i <= c@.len(),
            lit@.len() >= 1,
            forall|j: int| 0 <= j < i ==> !#[trigger] lit_at(c@, j, lit@),
        decreases c.len() - i,
    {
        if has_lit(c, i, lit) {
            return true;
        }
        i += 1;
    }
    false
}

/// The class of an HDU from its header.
fn hdu_type_exec(h: &Header) -> (r: HduType)
    ensures
        r == hdu_type_of(h@),
{
    if h.card_by_name("SIMPLE").is_some() {
        return HduType::Image;
    }
    match h.card_by_name("XTENSION") {
        None => HduType::Image,
        Some(c) => {
            let ok = c.as_str().is_some();
            let b = c.as_bytes();
            if ok && holds_text_exec(b, "BINTABLE") {
                HduType::BinaryTable
            } else if ok && holds_text_exec(b, "TABLE") {
                HduType::AsciiTable
            } else {
                HduType::Image
            }
        },
    }
}

/// Where an exactly computed size is capped: `2^64`.
pub open spec fn size_cap() -> int {
    0x1_0000_0000_0000_0000
}

pub open spec fn capped(x: int) -> int {
    if x < size_cap() {
        x
    } else {
        size_cap()
    }
}

proof fn lemma_capped_mul(x: int, n: int)
    requires
        x >= 0,
        n >= 0,
    ensures
        capped(capped(x) * n) == capped(x * n),
{
    if x >= size_cap() && n >= 1 {
        assert(x * n >= x) by (nonlinear_arith)
            requires
                x >= 0,
                n >= 1,
        ;
        assert(size_cap() * n >= size_cap()) by (nonlinear_arith)
            requires
                n >= 1,
        ;
    }
}

/// The capped product of the axis lengths.
fn npix_capped(ax: &Vec<i64>) -> (r: u128)
    ensures
        r == capped(axes_npix(ax@)),
{
    let mut acc: u128 = 1;
    let mut i: usize = 0;
    assert(ax@.subrange(0, 0) =~= Seq::<i64>::empty());
    while i < ax.len()
        invariant
            i <= ax@.len(),
            acc == capped(axes_npix(ax@.subrange(0, i as int))),
            axes_npix(ax@.subrange(0, i as int)) >= 0,
        decreases ax.len() - i,
    {
        let ghost t = ax@.subrange(0, i + 1);
        assert(t.drop_last() =~= ax@.subrange(0, i as int));
        let n: u128 = if ax[i] < 0 { 0 } else { ax[i] as u128 };
        let ghost p = axes_npix(ax@.subrange(0, i as int));
        proof {
            lemma_capped_mul(p, n as int);
            assert(p * n >= 0) by (nonlinear_arith)
                requires
                    p >= 0,
                    n >= 0,
            ;
            assert(acc * n <= size_cap() * 0x8000_0000_0000_0000) by (nonlinear_arith)
                requires
                    acc <= size_cap(),
                    n <= 0x8000_0000_0000_0000,
            ;
        }
        let m = acc * n;
        acc = if m < 0x1_0000_0000_0000_0000 { m } else { 0x1_0000_0000_0000_0000 };
        i += 1;
    }
    assert(ax@.subrange(0, ax@.len() as int) =~= ax@);
    acc
}

/// The byte offset after an HDU's data unit, or `b_len` when that lies at
/// or past the end (then no HDU follows).
fn next_offset(h: &Header, data_start: usize, b_len: usize) -> (r: Result<usize, FitsError>)
    ensures
        match data_unit_len_of(h@) {
            Err(f) => r matches Err(e) && read_error(e, f),
            Ok(d) => r matches Ok(x) && (if data_start + d >= b_len { x == b_len } else { x == data_start + d }) && d >= 0,
        },
{
    let bp = match h.get_i64("BITPIX") {
        Err(e) => {
            return Err(e);
        },
        Ok(v) => v,
    };
    let ax = match h.naxes() {
        Err(e) => {
            return Err(e);
        },
        Ok(v) => v,
    };
    if ax.len() == 0 {
        return Ok(if data_start >= b_len { b_len } else { data_start });
    }
    let w: u128 = (if bp < 0 { 0 - (bp as i128) } else { bp as i128 }) as u128 / 8;
    let pc: u128 = match h.get_i64("PCOUNT") {
        Ok(v) => if v < 0 { 0 } else { v as u128 },
        Err(_) => 0,
    };
    let gc: u128 = match h.get_i64("GCOUNT") {
        Ok(v) => if v < 0 { 0 } else { v as u128 },
        Err(_) => 1,
    };
    let np = npix_capped(&ax);
    let ghost npx = axes_npix(ax@);
    proof {
        lemma_npix_nonneg(ax@);
    }
    let t3 = total_capped(w, gc, pc, np, Ghost(npx));
    let ghost exact = w * gc * (pc + npx);
    if t3 == 0x1_0000_0000_0000_0000 {
        return Ok(b_len);
    }
    let d: u128 = ((t3 + 2879) / 2880) * 2880;
    assert(d == whole_records(exact));
    if (data_start as u128) + d >= b_len as u128 {
        Ok(b_len)
    } else {
        Ok(data_start + d as usize)
    }
}


/// `w * gc * (pc + n)` capped, from `n` capped.
fn total_capped(w: u128, gc: u128, pc: u128, np: u128, Ghost(npx): Ghost<int>) -> (r: u128)
    requires
        w <= 0x1000_0000_0000_0000,
        gc <= 0x8000_0000_0000_0000,
        pc <= 0x8000_0000_0000_0000,
        npx >= 0,
        np == capped(npx),
    ensures
        r == capped(w * gc * (pc + npx)),
        w * gc * (pc + npx) >= 0,
{
    let t1: u128 = if pc + np < 0x1_0000_0000_0000_0000 { pc + np } else { 0x1_0000_0000_0000_0000 };
    assert(t1 == capped(pc + npx));
    proof {
        lemma_capped_mul(pc + npx, gc as int);
        assert(t1 * gc <= size_cap() * 0x8000_0000_0000_0000) by (nonlinear_arith)
            requires
                gc <= 0x8000_0000_0000_0000,
                t1 <= size_cap(),
        ;
    }
    let m2 = t1 * gc;
    let t2: u128 = if m2 < 0x1_0000_0000_0000_0000 { m2 } else { 0x1_0000_0000_0000_0000 };
    let ghost g = (pc + npx) * gc;
    assert(t2 == capped(g));
    proof {
        assert(g >= 0) by (nonlinear_arith)
            requires
                g == (pc + npx) * gc,
                gc >= 0,
                pc + npx >= 0,
        ;
        lemma_capped_mul(g, w as int);
        assert(t2 * w <= size_cap() * 0x1000_0000_0000_0000) by (nonlinear_arith)
            requires
                w <= 0x1000_0000_0000_0000,
                t2 <= size_cap(),
        ;
        assert(g * w == w * gc * (pc + npx)) by (nonlinear_arith)
            requires
                g == (pc + npx) * gc,
        ;
        assert(g * w >= 0) by (nonlinear_arith)
            requires
                g >= 0,
                w >= 0,
        ;
    }
    let m3 = t2 * w;
    if m3 < 0x1_0000_0000_0000_0000 { m3 } else { 0x1_0000_0000_0000_0000 }
}

proof fn lemma_npix_nonneg(ax: Seq<i64>)
    ensures
        axes_npix(ax) >= 0,
    decreases ax.len(),
{
    if ax.len() > 0 {
        lemma_npix_nonneg(ax.drop_last());
        let p = axes_npix(ax.drop_last());
        let n = non_neg(ax.last());
        assert(p * n >= 0) by (nonlinear_arith)
            requires
                p >= 0,
                n >= 0,
        ;
    }
}

/// The HDUs before those of a later walk.
pub open spec fn join_hdus(pre: Seq<HduView>, r: Result<Seq<HduView>, HduFault>) -> Result<Seq<HduView>, HduFault> {
    match r {
        Err(f) => Err(f),
        Ok(s) => Ok(pre + s),
    }
}



proof fn lemma_scan_end(b: Seq<u8>, off: int)
    ensures
        scan_cards(b, off) matches Ok((_, end)) ==> end <= b.len(),
    decreases b.len() - off,
{
    if 0 <= off && off + 80 <= b.len() {
        lemma_scan_end(b, off + 80);
    }
}

/// A parsed header's data unit starts at most a record past the bytes.
proof fn lemma_header_len(s: Seq<u8>)
    ensures
        parse_header_of(s) matches Ok((_, hl)) ==> 2880 <= hl <= s.len() + 2880,
{
    lemma_scan_end(s, 0);
    if let Ok((_, end)) = scan_cards(s, 0) {
        let recs = (end + 2879) / 2880;
        let hl = (if recs < 1 { 1 } else { recs }) * 2880;
        assert(2880 <= hl <= s.len() + 2880) by (nonlinear_arith)
            requires
                hl == (if recs < 1 { 1 } else { recs }) * 2880,
                recs == (end + 2879) / 2880,
                end <= s.len(),
        ;
    }
}

proof fn lemma_walk_step(b: Seq<u8>, off: int, cs: Seq<Seq<u8>>, hl: int, ty: HduType, next: int, pre: Seq<HduView>)
    requires
        0 <= off < b.len(),
        !zero_from(b, off),
        parse_header_of(b.subrange(off, b.len() as int)) == Ok::<(Seq<Seq<u8>>, int), i32>((cs, hl)),
        data_unit_len_of(cs) is Ok,
        ty == hdu_type_of(cs),
        (off + hl + data_unit_len_of(cs)->Ok_0 >= b.len() ==> next == b.len()),
        (off + hl + data_unit_len_of(cs)->Ok_0 < b.len() ==> next == off + hl + data_unit_len_of(cs)->Ok_0),
        data_unit_len_of(cs)->Ok_0 >= 0,
    ensures
        join_hdus(pre, hdus_from(b, off)) == join_hdus(pre.push((ty, cs, off, off + hl)), hdus_from(b, next)),
{
    let d = data_unit_len_of(cs)->Ok_0;
    let (cs2, end) = scan_cards(b.subrange(off, b.len() as int), 0)->Ok_0;
    let recs = (end + 2879) / 2880;
    assert(hl == (if recs < 1 { 1 } else { recs }) * 2880);
    assert(hl >= 2880) by (nonlinear_arith)
        requires
            hl == (if recs < 1 { 1 } else { recs }) * 2880,
    ;
    let h = (ty, cs, off, off + hl);
    if off + hl + d >= b.len() {
        assert(hdus_from(b, b.len() as int) == Ok::<Seq<HduView>, HduFault>(Seq::empty()));
        assert(pre + seq![h] =~= pre.push(h) + Seq::<HduView>::empty());
    } else {
        match hdus_from(b, next) {
            Err(_) => {},
            Ok(rest) => {
                assert(pre + (seq![h] + rest) =~= pre.push(h) + rest);
            },
        }
    }
}

/// Are the bytes from `off` on all zero?
fn zero_from_exec(b: &[u8], off: usize) -> (r: bool)
    ensures
        r == zero_from(b@, off as int),
{
    let mut k: usize = off;
    while k < b.len()
        invariant
            off <= k || k == off,
            forall|j: int| off <= j < k && j < b@.len() ==> #[trigger] b@[j] == 0,
        decreases b.len() - k,
    {
        if b[k] != 0 {
            return false;
        }
        k += 1;
    }
    true
}

/// The HDUs of a FITS file image: from the start, each header, then its
/// data unit, until the bytes end or only zeros are left.
pub fn parse_hdus(data: &[u8]) -> (r: Result<Vec<Hdu>, FitsError>)
    requires
        data@.len() + 2880 <= usize::MAX,
    ensures
        match parse_hdus_of(data@) {
            Ok(v) => r matches Ok(hs) && hdu_views(hs@) == v,
            Err(f) => r matches Err(e) && hdu_error(e, f),
        },
{
    let len = data.len();
    let mut hdus: Vec<Hdu> = Vec::new();
    let mut off: usize = 0;
    while off < len
        invariant
            len == data@.len(),
            len + 2880 <= usize::MAX,
            off <= len,
            hdus_from(data@, 0) == join_hdus(hdu_views(hdus@), hdus_from(data@, off as int)),
        ensures
            off <= len,
            hdus_from(data@, 0) == join_hdus(hdu_views(hdus@), hdus_from(data@, off as int)),
            off >= len || zero_from(data@, off as int),
        decreases len - off,
    {
        if zero_from_exec(data, off) {
            break;
        }
        let slice = copy_range(data, off, len);
        let (h, hl) = match Header::parse(slice.as_slice()) {
            Err(e) => {
                return Err(e);
            },
            Ok(p) => p,
        };
        let ghost cs = h@;
        proof {
            lemma_header_len(slice@);
        }
        let ds: usize = off + hl as usize;
        let next = match next_offset(&h, ds, len) {
            Err(e) => {
                return Err(e);
            },
            Ok(x) => x,
        };
        let ty = hdu_type_exec(&h);
        let ghost pre = hdu_views(hdus@);
        let hdu = Hdu { hdu_type: ty, header: h, header_start: off as u64, data_start: ds as u64 };
        hdus.push(hdu);
        assert(hdu_views(hdus@) =~= pre.push((ty, cs, off as int, ds as int)));
        proof {
            lemma_walk_step(data@, off as int, cs, hl as int, ty, next as int, pre);
        }
        off = next;
    }
    proof {
        assert(hdus_from(data@, off as int) == Ok::<Seq<HduView>, HduFault>(Seq::empty()));
        assert(hdu_views(hdus@) + Seq::<HduView>::empty() =~= hdu_views(hdus@));
    }
    if hdus.len() == 0 {
        return Err(FitsError::with_message(FILE_NOT_OPENED, "no HDUs found"));
    }
    Ok(hdus)
}

/// The bytes a file image holds once a gzip image is decompressed: a
/// buffer that starts with the gzip magic is gunzipped (`None` where it
/// cannot be), any other is taken as it is.
pub open spec fn file_image_of(bytes: Seq<u8>) -> Option<Seq<u8>> {
    if has_gzip_magic(bytes) {
        gunzip_of(bytes)
    } else {
        Some(bytes)
    }
}

/// Open an in-memory FITS file image (`FitsFile::from_bytes`): gunzip it
/// when it starts with the gzip magic, refuse an empty image, then read its
/// HDUs. Gives the image and its HDUs.
#[verifier::rlimit(30)]
pub fn open_bytes(bytes: &[u8]) -> (r: Result<(Vec<u8>, Vec<Hdu>), FitsError>)
    ensures
        match file_image_of(bytes@) {
            None => r matches Err(e) && e.status == READ_ERROR,
            Some(d) => if d.len() + 2880 > usize::MAX {
                r matches Err(e) && e.status == MEMORY_ALLOCATION
            } else if d.len() == 0 {
                r matches Err(e) && e.status == FILE_NOT_OPENED && e.message_list() == seq!["file is empty"@]
            } else {
                match parse_hdus_of(d) {
                    Ok(v) => r matches Ok((img, hs)) && img@ == d && hdu_views(hs@) == v,
                    Err(f) => r matches Err(e) && hdu_error(e, f),
                }
            },
        },
{
    let data = if crate::io::gzip::is_gzip(bytes) {
        match crate::io::gzip::decompress(bytes) {
            Err(e) => {
                return Err(e);
            },
            Ok(v) => v,
        }
    } else {
        copy_range(bytes, 0, bytes.len())
    };
    assert(bytes@.subrange(0, bytes@.len() as int) =~= bytes@);
    if data.len() > usize::MAX - 2880 {
        return Err(FitsError::new(MEMORY_ALLOCATION));
    }
    if data.len() == 0 {
        return Err(FitsError::with_message(FILE_NOT_OPENED, "file is empty"));
    }
    let hdus = match parse_hdus(data.as_slice()) {
        Err(e) => {
            return Err(e);
        },
        Ok(h) => h,
    };
    Ok((data, hdus))
}

/// Move to HDU `hdunum` (1-based) of a file's HDUs (`fits_movabs_hdu`,
/// once buffered writes are flushed): its index and class, `BAD_HDU_NUM`
/// outside `1 ..= hdus.len()`.
pub fn movabs_hdu(hdus: &[Hdu], hdunum: usize) -> (r: Result<(usize, HduType), FitsError>)
    ensures
        1 <= hdunum <= hdus@.len() ==> r == Ok::<(usize, HduType), FitsError>(((hdunum - 1) as usize, hdus@[hdunum - 1].hdu_type)),
        !(1 <= hdunum <= hdus@.len()) ==> (r matches Err(e) && e.status == BAD_HDU_NUM && e.message_list().len() == 0),
{
    if hdunum < 1 || hdunum > hdus.len() {
        return Err(FitsError::new(BAD_HDU_NUM));
    }
    let i = hdunum - 1;
    Ok((i, hdus[i].hdu_type))
}

/// Product of the axis lengths, taken from the first axis on.
pub open spec fn product_from_front(ax: Seq<i64>) -> int
    decreases ax.len(),
{
    if ax.len() == 0 {
        1
    } else {
        ax[0] as int * product_from_front(ax.drop_first())
    }
}

proof fn lemma_front_snoc(ax: Seq<i64>)
    requires
        ax.len() > 0,
    ensures
        product_from_front(ax) == product_from_front(ax.drop_last()) * ax.last(),
    decreases ax.len(),
{
    if ax.len() == 1 {
        assert(ax.drop_first() =~= Seq::<i64>::empty());
        assert(ax.drop_last() =~= Seq::<i64>::empty());
    } else {
        let t = ax.drop_first();
        lemma_front_snoc(t);
        assert(t.drop_last() =~= ax.drop_last().drop_first());
        assert(t.last() == ax.last());
        assert(ax.drop_last()[0] == ax[0]);
        vstd::arithmetic::mul::lemma_mul_is_associative(
            ax[0] as int,
            product_from_front(t.drop_last()),
            ax.last() as int,
        );
    }
}

proof fn lemma_npix_front(ax: Seq<i64>)
    requires
        forall|i: int| 0 <= i < ax.len() ==> #[trigger] ax[i] >= 0,
    ensures
        axes_npix(ax) == product_from_front(ax),
    decreases ax.len(),
{
    if ax.len() > 0 {
        lemma_npix_front(ax.drop_last());
        lemma_front_snoc(ax);
        assert(non_neg(ax.last()) == ax.last());
    }
}

/// Law: the data unit after a header holds `|BITPIX| / 8 * GCOUNT *
/// (PCOUNT + NAXIS1 * ... * NAXISn)` bytes, heap included, rounded up to
/// whole 2880-byte records; `PCOUNT` counts 0 and `GCOUNT` 1 where the
/// header has none.
pub proof fn lemma_data_unit_counts_heap(cards: Seq<Seq<u8>>, bp: i64, ax: Seq<i64>, pc: int, gc: int)
    requires
        key_i64(cards, "BITPIX".spec_bytes()) == Ok::<i64, ReadFault>(bp),
        naxes_of(cards) == Ok::<Seq<i64>, ReadFault>(ax),
        ax.len() > 0,
        forall|i: int| 0 <= i < ax.len() ==> #[trigger] ax[i] >= 0,
        pc >= 0,
        gc >= 0,
        key_i64(cards, "PCOUNT".spec_bytes()) matches Ok(v) ==> v == pc,
        key_i64(cards, "PCOUNT".spec_bytes()) is Err ==> pc == 0,
        key_i64(cards, "GCOUNT".spec_bytes()) matches Ok(v) ==> v == gc,
        key_i64(cards, "GCOUNT".spec_bytes()) is Err ==> gc == 1,
    ensures
        data_unit_len_of(cards) matches Ok(d) && ({
            let size = ((if bp < 0 { -(bp as int) } else { bp as int }) / 8) * gc * (pc + product_from_front(ax));
            &&& d % 2880 == 0
            &&& size <= d < size + 2880
        }),
{
    lemma_npix_front(ax);
    lemma_npix_nonneg(ax);
    let size = ((if bp < 0 { -(bp as int) } else { bp as int }) / 8) * gc * (pc + product_from_front(ax));
    assert(data_unit_len_of(cards) == Ok::<int, ReadFault>(whole_records(size)));
    assert(size >= 0) by (nonlinear_arith)
        requires
            size == ((if bp < 0 { -(bp as int) } else { bp as int }) / 8) * gc * (pc + product_from_front(ax)),
            gc >= 0,
            pc >= 0,
            product_from_front(ax) == axes_npix(ax),
            axes_npix(ax) >= 0,
    {
    }
    vstd::arithmetic::div_mod::lemma_fundamental_div_mod(size + 2879, 2880);
}

/// Law: walking a file image, each header after the first starts where
/// the data unit of the one before it ends: at that HDU's data offset plus
/// its data unit's length. The first starts at the offset the walk starts
/// from.
pub proof fn lemma_hdu_walk(b: Seq<u8>, off: int)
    requires
        0 <= off,
    ensures
        hdus_from(b, off) matches Ok(s) ==> (s.len() > 0 ==> s[0].2 == off) && forall|i: int|
            0 <= i < s.len() - 1 ==> (data_unit_len_of((#[trigger] s[i]).1) matches Ok(d) && s[i + 1].2 == s[i].3 + d),
    decreases b.len() - off,
{
    if !(off < 0 || off >= b.len() || zero_from(b, off)) {
        match parse_header_of(b.subrange(off, b.len() as int)) {
            Err(e) => {},
            Ok((cs, hl)) => match data_unit_len_of(cs) {
                Err(f) => {},
                Ok(d) => if hl <= 0 || d < 0 || off + hl + d >= b.len() {
                } else {
                    lemma_hdu_walk(b, off + hl + d);
                    match hdus_from(b, off + hl + d) {
                        Err(f) => {},
                        Ok(rest) => {
                            let v0 = (hdu_type_of(cs), cs, off, off + hl);
                            let s = seq![v0] + rest;
                            assert(hdus_from(b, off) == Ok::<Seq<HduView>, HduFault>(s));
                            assert forall|i: int| 0 <= i < s.len() - 1 implies (data_unit_len_of((#[trigger] s[i]).1) matches Ok(
                                dd,
                            ) && s[i + 1].2 == s[i].3 + dd) by {
                                if i == 0 {
                                    assert(s[1] == rest[0]);
                                } else {
                                    assert(s[i] == rest[i - 1]);
                                    assert(s[i + 1] == rest[i]);
                                }
                            }
                        },
                    }
                },
            },
        }
    }
}

} // verus!
