//! ASCII-table `TFORMn` parsing (`ffasfm`), column spacing (`ffgabc`), the
//! C `printf` conversion of a column (`ffcfmt`), and string-field helpers.
use vstd::prelude::*;
use vstd::string::StringSliceAdditionalSpecFns;
use crate::error::FitsError;
use crate::status::{BAD_TFORM, BAD_TFORM_DTYPE};
use crate::text::{
    decimal_nat, digit_run, digit_run_end, digits_val, digits_value_upto, format_u64, is_digit,
    latin1, lemma_digits_val_grow, skip_ws, string_from_utf8_lossy, string_of_bytes, to_upper,
    trim_end, trim_end_len, trim_start_bytes, utf8_lossy, lemma_digit_run, ws_len,
};
use crate::types::{TDOUBLE, TFLOAT, TLONG, TSHORT, TSTRING};

verus! {

/// ASCII-table TFORM letter.
#[derive(Debug, Clone, Copy, PartialEq, Eq, Structural)]
pub enum AsciiKind {
    /// `Aw` character field.
    A,
    /// `Iw` integer.
    I,
    /// `Fw.d` fixed-point.
    F,
    /// `Ew.d` exponential.
    E,
    /// `Dw.d` exponential (written with `E`, matching CFITSIO `ffcfmt`).
    D,
}

/// Parsed ASCII `TFORMn`.
#[derive(Debug, Clone, Copy, PartialEq, Eq, Structural)]
pub struct AsciiTform {
    /// Format letter.
    pub kind: AsciiKind,
    /// Field width in characters.
    pub width: usize,
    /// Decimal places (`F`/`E`/`D`); 0 for `A`/`I`.
    pub decimals: usize,
    /// CFITSIO datatype code (`TSTRING` / `TSHORT` / `TLONG` / `TFLOAT` / `TDOUBLE`).
    pub datacode: i32,
}

/// Longest TFORM value `ffasfm` reads.
pub const TFORM_VALUE_MAX: usize = 70;

/// ASCII upper-casing of every byte.
pub open spec fn ascii_upper(b: Seq<u8>) -> Seq<u8> {
    b.map_values(|x: u8| to_upper(x))
}

/// Position just after an optional `+`/`-` at the start of `t`.
pub open spec fn sign_len(t: Seq<u8>) -> int {
    if t.len() > 0 && (t[0] == 43 || t[0] == 45) {
        1
    } else {
        0
    }
}

/// `strtol`-style read of `s` as `parse_c_long` does it: leading whitespace
/// skipped, an optional sign, then at least one digit; the value must fit
/// in `i64`.
pub open spec fn c_long_of(s: Seq<u8>) -> Option<i64> {
    let t = trim_start_bytes(s);
    let sg = sign_len(t);
    let n = digit_run(t, sg);
    if n == 0 {
        None
    } else {
        let v = digits_val(t.subrange(sg, sg + n));
        let sv = if sg == 1 && t[0] == 45 {
            -v
        } else {
            v
        };
        if i64::MIN <= sv <= i64::MAX {
            Some(sv as i64)
        } else {
            None
        }
    }
}

/// The width field of an `F`/`E`/`D` form read as a decimal number, as
/// `parse_c_double` does: leading whitespace, an optional sign, digits, and
/// optionally `.` and more digits, with at least one digit in all. The
/// result is whether the number is above zero, and its integer part.
pub open spec fn c_width_of(s: Seq<u8>) -> Option<(bool, int)> {
    let t = trim_start_bytes(s);
    let sg = sign_len(t);
    let n = digit_run(t, sg);
    let dot = sg + n < t.len() && t[sg + n] == 46;
    let f = if dot {
        digit_run(t, sg + n + 1)
    } else {
        0
    };
    if n + f == 0 {
        None
    } else {
        let ip = digits_val(t.subrange(sg, sg + n));
        let frac_nonzero = dot && has_nonzero(t, sg + n + 1, sg + n + 1 + f);
        let neg = sg == 1 && t[0] == 45;
        Some((!neg && (ip > 0 || frac_nonzero), ip))
    }
}

/// Some byte of `t[from..to]` is not the digit `0`.
pub open spec fn has_nonzero(t: Seq<u8>, from: int, to: int) -> bool {
    exists|j: int| from <= j < to && t[j] != 48
}

/// Why a TFORM is refused.
#[derive(Debug, Clone, Copy, PartialEq, Eq, Structural)]
pub enum TformFault {
    /// Malformed width or decimals (`BAD_TFORM`).
    Form,
    /// Unknown type letter (`BAD_TFORM_DTYPE`).
    Dtype,
}

/// The kind named by an upper-case TFORM letter.
pub open spec fn kind_of_letter(c: u8) -> Option<AsciiKind> {
    if c == 65 {
        Some(AsciiKind::A)
    } else if c == 73 {
        Some(AsciiKind::I)
    } else if c == 70 {
        Some(AsciiKind::F)
    } else if c == 69 {
        Some(AsciiKind::E)
    } else if c == 68 {
        Some(AsciiKind::D)
    } else {
        None
    }
}

/// Datatype code before the width is considered.
pub open spec fn base_datacode(k: AsciiKind) -> i32 {
    match k {
        AsciiKind::A => TSTRING,
        AsciiKind::I => TLONG,
        AsciiKind::F | AsciiKind::E => TFLOAT,
        AsciiKind::D => TDOUBLE,
    }
}

/// `ffasfm` on the UTF-8 bytes of a TFORM value.
pub open spec fn ascii_tform_of(tform: Seq<u8>) -> Result<AsciiTform, TformFault> {
    let trimmed = trim_start_bytes(tform);
    let form = ascii_upper(trimmed);
    if trimmed.len() > TFORM_VALUE_MAX || form.len() == 0 {
        Err(TformFault::Form)
    } else {
        match kind_of_letter(form[0]) {
            None => Err(TformFault::Dtype),
            Some(kind) => {
                let rest = form.drop_first();
                let dc0 = base_datacode(kind);
                if kind == AsciiKind::A || kind == AsciiKind::I {
                    match c_long_of(rest) {
                        None => Err(TformFault::Form),
                        Some(w) => if w <= 0 {
                            Err(TformFault::Form)
                        } else {
                            Ok(
                                AsciiTform {
                                    kind,
                                    width: w as usize,
                                    decimals: 0,
                                    datacode: if w <= 4 && dc0 == TLONG {
                                        TSHORT
                                    } else {
                                        dc0
                                    },
                                },
                            )
                        },
                    }
                } else {
                    match c_width_of(rest) {
                        None => Err(TformFault::Form),
                        Some((positive, ip)) => if !positive {
                            Err(TformFault::Form)
                        } else {
                            let width: int = if ip > i64::MAX {
                                i64::MAX as int
                            } else {
                                ip
                            };
                            let dc1 = if width > 7 && kind == AsciiKind::F {
                                TDOUBLE
                            } else {
                                dc0
                            };
                            let skip: int = if width < 10 {
                                1
                            } else {
                                2
                            };
                            if rest.len() > skip && rest[skip] == 46 {
                                match c_long_of(rest.subrange(skip + 1, rest.len() as int)) {
                                    None => Err(TformFault::Form),
                                    Some(d) => if d >= width {
                                        Err(TformFault::Form)
                                    } else {
                                        Ok(
                                            AsciiTform {
                                                kind,
                                                width: width as usize,
                                                decimals: if d < 0 {
                                                    0
                                                } else {
                                                    d as usize
                                                },
                                                datacode: if d > 6 && kind == AsciiKind::E {
                                                    TDOUBLE
                                                } else {
                                                    dc1
                                                },
                                            },
                                        )
                                    },
                                }
                            } else {
                                Ok(
                                    AsciiTform {
                                        kind,
                                        width: width as usize,
                                        decimals: 0,
                                        datacode: dc1,
                                    },
                                )
                            }
                        },
                    }
                }
            },
        }
    }
}

/// The message of an unknown type letter.
pub open spec fn dtype_message(tform: Seq<char>) -> Seq<char> {
    "Illegal ASCII table TFORMn datatype: '"@ + tform + "'"@
}

/// A run of ASCII digits read through an offset keeps its length.
proof fn lemma_digit_run_shift(b: Seq<u8>, a: int, i: int)
    requires
        0 <= a <= b.len(),
        0 <= i,
    ensures
        digit_run(b.subrange(a, b.len() as int), i) == digit_run(b, a + i),
    decreases b.len() - a - i,
{
    if a + i < b.len() {
        lemma_digit_run_shift(b, a, i + 1);
    }
}

/// `c_long_of(b[from..])`.
fn c_long_at(b: &[u8], from: usize) -> (r: Option<i64>)
    requires
        from <= b@.len(),
    ensures
        r == c_long_of(b@.subrange(from as int, b@.len() as int)),
{
    let t0 = skip_ws(b, from);
    let ghost t = b@.subrange(t0 as int, b@.len() as int);
    let neg = t0 < b.len() && b[t0] == 45;
    let sg: usize = if t0 < b.len() && (b[t0] == 43 || b[t0] == 45) { 1 } else { 0 };
    assert(sg as int == sign_len(t));
    let ds = t0 + sg;
    let de = digit_run_end(b, ds);
    proof {
        lemma_digit_run_shift(b@, t0 as int, sg as int);
        assert(t.subrange(sg as int, (sg + (de - ds)) as int) =~= b@.subrange(ds as int, de as int));
    }
    if de == ds {
        return None;
    }
    let limit: u64 = if neg { 0x8000_0000_0000_0000 } else { 0x7fff_ffff_ffff_ffff };
    match digits_value_upto(b, ds, de, limit) {
        None => None,
        Some(v) => {
            if neg {
                Some((-(v as i128)) as i64)
            } else {
                Some(v as i64)
            }
        },
    }
}

/// `has_nonzero` read through an offset.
proof fn lemma_has_nonzero_shift(b: Seq<u8>, a: int, i: int, k: int)
    requires
        0 <= a <= b.len(),
        0 <= i <= k <= b.len() - a,
    ensures
        has_nonzero(b.subrange(a, b.len() as int), i, k) == has_nonzero(b, a + i, a + k),
{
    let t = b.subrange(a, b.len() as int);
    if has_nonzero(t, i, k) {
        let j = choose|j: int| i <= j < k && t[j] != 48;
        assert(b[a + j] == t[j]);
    }
    if has_nonzero(b, a + i, a + k) {
        let j = choose|j: int| a + i <= j < a + k && b[j] != 48;
        assert(t[j - a] == b[j]);
    }
}

/// Is some byte of `b[from..to]` other than the digit `0`?
fn any_nonzero(b: &[u8], from: usize, to: usize) -> (r: bool)
    requires
        from <= to <= b@.len(),
    ensures
        r == has_nonzero(b@, from as int, to as int),
{
    let mut j = from;
    while j < to
        invariant
            from <= j <= to <= b@.len(),
            !has_nonzero(b@, from as int, j as int),
        decreases to - j,
    {
        if b[j] != 48 {
            return true;
        }
        j += 1;
    }
    false
}

/// `c_width_of(b[from..])`, with the integer part capped at `i64::MAX`.
fn c_width_at(b: &[u8], from: usize) -> (r: Option<(bool, i64)>)
    requires
        from <= b@.len(),
    ensures
        match c_width_of(b@.subrange(from as int, b@.len() as int)) {
            None => r is None,
            Some((p, ip)) => r matches Some((p2, w)) && p2 == p && w == (if ip > i64::MAX {
                i64::MAX as int
            } else {
                ip
            }),
        },
{
    let t0 = skip_ws(b, from);
    let ghost t = b@.subrange(t0 as int, b@.len() as int);
    let neg = t0 < b.len() && b[t0] == 45;
    let sg: usize = if t0 < b.len() && (b[t0] == 43 || b[t0] == 45) { 1 } else { 0 };
    assert(sg as int == sign_len(t));
    let ds = t0 + sg;
    let de = digit_run_end(b, ds);
    proof {
        lemma_digit_run_shift(b@, t0 as int, sg as int);
        assert(t.subrange(sg as int, (sg + (de - ds)) as int) =~= b@.subrange(ds as int, de as int));
    }
    let dot = de < b.len() && b[de] == 46;
    let mut fe = de;
    let mut frac_nonzero = false;
    if dot {
        fe = digit_run_end(b, de + 1);
        proof {
            lemma_digit_run_shift(b@, t0 as int, (de + 1 - t0) as int);
        }
        frac_nonzero = any_nonzero(b, de + 1, fe);
        proof {
            lemma_has_nonzero_shift(b@, t0 as int, (de + 1 - t0) as int, (fe - t0) as int);
        }
    }
    let f: usize = if dot { fe - de - 1 } else { 0 };
    if (de - ds) + f == 0 {
        return None;
    }
    let width: i64 = match digits_value_upto(b, ds, de, 0x7fff_ffff_ffff_ffff) {
        None => 0x7fff_ffff_ffff_ffff,
        Some(v) => v as i64,
    };
    proof {
        assert forall|m: int| 0 <= m < de - ds implies is_digit(
            #[trigger] b@.subrange(ds as int, de as int)[m],
        ) by {
            assert(b@.subrange(ds as int, de as int)[m] == b@[ds + m]);
        }
        lemma_digits_val_grow(b@.subrange(ds as int, de as int), 0);
    }
    Some((!neg && (width > 0 || frac_nonzero), width))
}

/// ASCII upper-case copy of `b[from..]`.
fn upper_from(b: &[u8], from: usize) -> (r: Vec<u8>)
    requires
        from <= b@.len(),
    ensures
        r@ == ascii_upper(b@.subrange(from as int, b@.len() as int)),
{
    let mut out: Vec<u8> = Vec::new();
    let mut k = from;
    while k < b.len()
        invariant
            from <= k <= b@.len(),
            out@ == ascii_upper(b@.subrange(from as int, k as int)),
        decreases b.len() - k,
    {
        let x = b[k];
        let u = if 97 <= x && x <= 122 { x - 32 } else { x };
        out.push(u);
        assert(ascii_upper(b@.subrange(from as int, k + 1)) =~= ascii_upper(
            b@.subrange(from as int, k as int),
        ).push(to_upper(x)));
        k += 1;
    }
    out
}

/// The error for a refused TFORM.
fn tform_error(f: TformFault, tform: &str) -> (e: FitsError)
    ensures
        f == TformFault::Form ==> e.status == BAD_TFORM && e.message_list().len() == 0,
        f == TformFault::Dtype ==> e.status == BAD_TFORM_DTYPE && e.message_list() == seq![
            dtype_message(tform@),
        ],
{
    match f {
        TformFault::Form => FitsError::new(BAD_TFORM),
        TformFault::Dtype => {
            let mut msg = String::from_str("Illegal ASCII table TFORMn datatype: '");
            msg.append(tform);
            msg.append("'");
            FitsError::with_message(BAD_TFORM_DTYPE, msg.as_str())
        },
    }
}

/// `ascii_tform_of` on the bytes of a string.
fn ascii_tform_bytes(b: &[u8]) -> (r: Result<AsciiTform, TformFault>)
    ensures
        r == ascii_tform_of(b@),
{
    let st = skip_ws(b, 0);
    assert(b@.subrange(0, b@.len() as int) =~= b@);
    if b.len() - st > TFORM_VALUE_MAX {
        return Err(TformFault::Form);
    }
    let form = upper_from(b, st);
    if form.len() == 0 {
        return Err(TformFault::Form);
    }
    let first = form[0];
    let kind = if first == 65 {
        AsciiKind::A
    } else if first == 73 {
        AsciiKind::I
    } else if first == 70 {
        AsciiKind::F
    } else if first == 69 {
        AsciiKind::E
    } else if first == 68 {
        AsciiKind::D
    } else {
        return Err(TformFault::Dtype);
    };
    let ghost rest = form@.drop_first();
    assert(form@.subrange(1, form@.len() as int) =~= rest);
    let dc0 = match kind {
        AsciiKind::A => TSTRING,
        AsciiKind::I => TLONG,
        AsciiKind::F | AsciiKind::E => TFLOAT,
        AsciiKind::D => TDOUBLE,
    };
    match kind {
        AsciiKind::A | AsciiKind::I => {
            match c_long_at(&form, 1) {
                None => Err(TformFault::Form),
                Some(w) => {
                    if w <= 0 {
                        return Err(TformFault::Form);
                    }
                    let datacode = if w <= 4 && dc0 == TLONG { TSHORT } else { dc0 };
                    Ok(AsciiTform { kind, width: w as usize, decimals: 0, datacode })
                },
            }
        },
        _ => {
            match c_width_at(&form, 1) {
                None => Err(TformFault::Form),
                Some((positive, width)) => {
                    if !positive {
                        return Err(TformFault::Form);
                    }
                    let dc1 = if width > 7 && first == 70 { TDOUBLE } else { dc0 };
                    let skip: usize = if width < 10 { 1 } else { 2 };
                    if form.len() - 1 > skip && form[skip + 1] == 46 {
                        assert(rest.subrange(skip + 1, rest.len() as int) =~= form@.subrange(
                            skip + 2,
                            form@.len() as int,
                        ));
                        match c_long_at(&form, skip + 2) {
                            None => Err(TformFault::Form),
                            Some(d) => {
                                if d >= width {
                                    return Err(TformFault::Form);
                                }
                                let decimals: usize = if d < 0 { 0 } else { d as usize };
                                let datacode = if d > 6 && first == 69 { TDOUBLE } else { dc1 };
                                Ok(AsciiTform { kind, width: width as usize, decimals, datacode })
                            },
                        }
                    } else {
                        Ok(AsciiTform { kind, width: width as usize, decimals: 0, datacode: dc1 })
                    }
                },
            }
        },
    }
}

/// Parse an ASCII-table TFORM (`ffasfm`).
pub fn parse_ascii_tform(tform: &str) -> (r: Result<AsciiTform, FitsError>)
    ensures
        match ascii_tform_of(tform.spec_bytes()) {
            Ok(t) => r == Ok::<AsciiTform, FitsError>(t),
            Err(f) => r matches Err(e) && (f == TformFault::Form ==> e.status == BAD_TFORM
                && e.message_list().len() == 0) && (f == TformFault::Dtype ==> e.status
                == BAD_TFORM_DTYPE && e.message_list() == seq![dtype_message(tform@)]),
        },
{
    match ascii_tform_bytes(tform.as_bytes()) {
        Ok(t) => Ok(t),
        Err(f) => Err(tform_error(f, tform)),
    }
}

impl AsciiTform {
    /// `fits_ascii_tform` / `ffasfm`.
    pub fn parse(tform: &str) -> (r: Result<AsciiTform, FitsError>)
        ensures
            match ascii_tform_of(tform.spec_bytes()) {
                Ok(t) => r == Ok::<AsciiTform, FitsError>(t),
                Err(f) => r matches Err(e) && (f == TformFault::Form ==> e.status == BAD_TFORM
                    && e.message_list().len() == 0) && (f == TformFault::Dtype ==> e.status
                    == BAD_TFORM_DTYPE && e.message_list() == seq![dtype_message(tform@)]),
            },
    {
        parse_ascii_tform(tform)
    }

    /// The C `printf` conversion `ffcfmt` writes for this column.
    pub open spec fn c_format_text(self) -> Seq<u8> {
        let w = decimal_nat(self.width as nat);
        let d = decimal_nat(self.decimals as nat);
        match self.kind {
            AsciiKind::A => seq![37u8] + w + seq![115u8],
            AsciiKind::I => seq![37u8] + w + seq![46u8, 48u8, 102u8],
            AsciiKind::F => seq![37u8] + w + seq![46u8] + d + seq![102u8],
            AsciiKind::E | AsciiKind::D => seq![37u8] + w + seq![46u8] + d + seq![69u8],
        }
    }

    /// C `printf` conversion matching `ffcfmt` (values printed as `double`).
    pub fn c_format(self) -> (r: String)
        ensures
            r@ == latin1(self.c_format_text()),
    {
        let mut out: Vec<u8> = Vec::new();
        out.push(37u8);
        let w = format_u64(self.width as u64);
        append_bytes(&mut out, &w);
        match self.kind {
            AsciiKind::A => {
                out.push(115u8);
            },
            AsciiKind::I => {
                out.push(46u8);
                out.push(48u8);
                out.push(102u8);
            },
            _ => {
                out.push(46u8);
                let d = format_u64(self.decimals as u64);
                append_bytes(&mut out, &d);
                if self.kind == AsciiKind::F {
                    out.push(102u8);
                } else {
                    out.push(69u8);
                }
            },
        }
        assert(out@ =~= self.c_format_text());
        string_of_bytes(out.as_slice())
    }
}

/// Append all of `src` to `out`.
fn append_bytes(out: &mut Vec<u8>, src: &Vec<u8>)
    ensures
        final(out)@ == old(out)@ + src@,
{
    let mut k: usize = 0;
    while k < src.len()
        invariant
            k <= src@.len(),
            out@ == old(out)@ + src@.subrange(0, k as int),
        decreases src.len() - k,
    {
        out.push(src[k]);
        assert(src@.subrange(0, k + 1) =~= src@.subrange(0, k as int).push(src@[k as int]));
        k += 1;
    }
    assert(src@.subrange(0, src@.len() as int) =~= src@);
}

/// Left to right over the TFORMs: the running row length and the 1-based
/// start of each column, or the first refusal and the index of its TFORM.
pub open spec fn column_scan(ts: Seq<&str>, space: int) -> Result<(int, Seq<int>), (TformFault, int)>
    decreases ts.len(),
{
    if ts.len() == 0 {
        Ok((0, Seq::empty()))
    } else {
        match column_scan(ts.drop_last(), space) {
            Err(f) => Err(f),
            Ok((rl, cols)) => match ascii_tform_of(ts.last().spec_bytes()) {
                Err(f) => Err((f, ts.len() - 1)),
                Ok(t) => Ok((rl + t.width + space, cols.push(rl + 1))),
            },
        }
    }
}

/// Every running sum of `ascii_column_starts` stays in `i64`.
pub open spec fn column_scan_fits(ts: Seq<&str>, space: int) -> bool
    decreases ts.len(),
{
    if ts.len() == 0 {
        true
    } else {
        column_scan_fits(ts.drop_last(), space) && match column_scan(ts.drop_last(), space) {
            Err(_) => true,
            Ok((rl, _)) => rl + 1 <= i64::MAX && match ascii_tform_of(ts.last().spec_bytes()) {
                Err(_) => true,
                Ok(t) => i64::MIN <= t.width + space <= i64::MAX && i64::MIN <= rl + t.width
                    + space <= i64::MAX,
            },
        }
    }
}

proof fn lemma_scan_prefix(ts: Seq<&str>, space: int, k: int)
    requires
        0 <= k <= ts.len(),
        column_scan_fits(ts, space),
    ensures
        column_scan_fits(ts.subrange(0, k), space),
        column_scan(ts, space) is Ok ==> column_scan(ts.subrange(0, k), space) is Ok,
    decreases ts.len(),
{
    if k < ts.len() {
        lemma_scan_prefix(ts.drop_last(), space, k);
        assert(ts.drop_last().subrange(0, k) =~= ts.subrange(0, k));
    } else {
        assert(ts.subrange(0, k) =~= ts);
    }
}

/// `fits_get_tbcol` / `ffgabc`: 1-based TBCOL and total row width.
///
/// `space` is the number of blanks between columns (CFITSIO recommends 1).
pub fn ascii_column_starts(tforms: &[&str], space: i64) -> (r: Result<(i64, Vec<i64>), FitsError>)
    requires
        column_scan_fits(tforms@, space as int),
        column_scan(tforms@, space as int) matches Ok((rl, _)) ==> (tforms@.len() > 0 ==> i64::MIN
            <= rl - space <= i64::MAX),
    ensures
        tforms@.len() == 0 ==> (r matches Ok((rl, cols)) && rl == 0 && cols@.len() == 0),
        tforms@.len() > 0 ==> match column_scan(tforms@, space as int) {
            Ok((rl, cols)) => r matches Ok((rl2, cols2)) && rl2 == rl - space && cols2@.len()
                == cols.len() && forall|i: int| 0 <= i < cols.len() ==> cols2@[i] == cols[i],
            Err((f, i)) => r matches Err(e) && (f == TformFault::Form ==> e.status == BAD_TFORM
                && e.message_list().len() == 0) && (f == TformFault::Dtype ==> e.status
                == BAD_TFORM_DTYPE && e.message_list() == seq![dtype_message(tforms@[i]@)]),
        },
{
    if tforms.len() == 0 {
        return Ok((0, Vec::new()));
    }
    let mut rowlen: i64 = 0;
    let mut tbcol: Vec<i64> = Vec::new();
    let mut k: usize = 0;
    while k < tforms.len()
        invariant
            k <= tforms@.len(),
            column_scan_fits(tforms@, space as int),
            column_scan(tforms@.subrange(0, k as int), space as int) matches Ok((rl, cols)) && rl
                == rowlen && tbcol@.len() == cols.len() && forall|i: int|
                0 <= i < cols.len() ==> tbcol@[i] == cols[i],
        decreases tforms.len() - k,
    {
        let ghost pre = column_scan(tforms@.subrange(0, k as int), space as int);
        proof {
            lemma_scan_step(tforms@, space as int, k as int);
        }
        tbcol.push(rowlen + 1);
        let parsed = parse_ascii_tform(tforms[k]);
        match parsed {
            Err(e) => {
                proof {
                    lemma_scan_err_at(tforms@, space as int, k as int);
                }
                return Err(e);
            },
            Ok(t) => {
                proof {
                    lemma_tform_width(tforms@[k as int].spec_bytes());
                }
                rowlen = rowlen + (t.width as i64 + space);
                proof {
                    let (rl, cols) = pre->Ok_0;
                    assert(column_scan(tforms@.subrange(0, k + 1), space as int) == Ok::<
                        (int, Seq<int>),
                        (TformFault, int),
                    >((rl + t.width + space, cols.push(rl + 1))));
                }
            },
        }
        k += 1;
    }
    assert(tforms@.subrange(0, k as int) =~= tforms@);
    rowlen = rowlen - space;
    Ok((rowlen, tbcol))
}

/// One step of the scan, and the sums it must keep in range.
proof fn lemma_scan_step(ts: Seq<&str>, space: int, k: int)
    requires
        0 <= k < ts.len(),
        column_scan_fits(ts, space),
    ensures
        column_scan(ts.subrange(0, k + 1), space) == match column_scan(ts.subrange(0, k), space) {
            Err(f) => Err(f),
            Ok((rl, cols)) => match ascii_tform_of(ts[k].spec_bytes()) {
                Err(f) => Err((f, k)),
                Ok(t) => Ok((rl + t.width + space, cols.push(rl + 1))),
            },
        },
        column_scan(ts.subrange(0, k), space) matches Ok((rl, _)) ==> rl + 1 <= i64::MAX && (
        ascii_tform_of(ts[k].spec_bytes()) matches Ok(t) ==> i64::MIN <= t.width + space
            <= i64::MAX && i64::MIN <= rl + t.width + space <= i64::MAX),
{
    lemma_scan_prefix(ts, space, k + 1);
    let p = ts.subrange(0, k + 1);
    assert(p.drop_last() =~= ts.subrange(0, k));
    assert(p.last() == ts[k]);
}

/// A parsed TFORM's width fits in `i64`.
proof fn lemma_tform_width(b: Seq<u8>)
    ensures
        ascii_tform_of(b) matches Ok(t) ==> t.width <= i64::MAX,
{
    if let Ok(t) = ascii_tform_of(b) {
        let x = t.width;
        assert(x as int <= i64::MAX) by {
            let trimmed = trim_start_bytes(b);
            let rest = ascii_upper(trimmed).drop_first();
            if t.kind == AsciiKind::A || t.kind == AsciiKind::I {
                let w = c_long_of(rest)->0;
                lemma_usize_cast(w as u64);
            } else {
                let (_, ip) = c_width_of(rest)->0;
                let tt = trim_start_bytes(rest);
                let sg = sign_len(tt);
                let n = digit_run(tt, sg);
                lemma_digit_run_digits(tt, sg);
                let d = tt.subrange(sg, sg + n);
                assert forall|m: int| 0 <= m < d.len() implies is_digit(#[trigger] d[m]) by {
                    assert(d[m] == tt[sg + m]);
                }
                lemma_digits_val_grow(d, 0);
                let width: int = if ip > i64::MAX {
                    i64::MAX as int
                } else {
                    ip
                };
                lemma_usize_cast(width as u64);
            }
        }
    }
}

/// The run of digits `digit_run` counts.
proof fn lemma_digit_run_digits(t: Seq<u8>, i: int)
    requires
        0 <= i,
    ensures
        i + digit_run(t, i) <= t.len() || digit_run(t, i) == 0,
        forall|j: int| i <= j < i + digit_run(t, i) ==> is_digit(#[trigger] t[j]),
    decreases t.len() - i,
{
    if 0 <= i < t.len() && is_digit(t[i]) {
        lemma_digit_run_digits(t, i + 1);
    }
}

proof fn lemma_usize_cast(x: u64)
    requires
        x <= 0x7fff_ffff_ffff_ffff,
    ensures
        (x as usize) <= 0x7fff_ffff_ffff_ffff,
{
    assert((x as usize) <= 0x7fff_ffff_ffff_ffff) by (bit_vector)
        requires
            x <= 0x7fff_ffff_ffff_ffff,
    ;
}

/// When the prefix through `k` is the first to fail, the whole scan fails at `k`.
proof fn lemma_scan_err_at(ts: Seq<&str>, space: int, k: int)
    requires
        0 <= k < ts.len(),
        column_scan(ts.subrange(0, k), space) is Ok,
        column_scan(ts.subrange(0, k + 1), space) is Err,
    ensures
        column_scan(ts, space) == column_scan(ts.subrange(0, k + 1), space),
    decreases ts.len(),
{
    if k + 1 < ts.len() {
        assert(ts.drop_last().subrange(0, k) =~= ts.subrange(0, k));
        assert(ts.drop_last().subrange(0, k + 1) =~= ts.subrange(0, k + 1));
        lemma_scan_err_at(ts.drop_last(), space, k);
    } else {
        assert(ts.subrange(0, k + 1) =~= ts);
    }
}

/// `s` left-justified in a `width`-byte field: its first bytes, then spaces.
pub open spec fn ascii_field(s: Seq<u8>, width: nat) -> Seq<u8> {
    Seq::new(width, |i: int| if i < s.len() { s[i] } else { 32u8 })
}

/// Left-justify `s` in a `width`-character field, space-padded (or truncated).
pub fn format_ascii_string(s: &str, width: usize) -> (r: Vec<u8>)
    ensures
        r@ == ascii_field(s.spec_bytes(), width as nat),
{
    let bytes = s.as_bytes();
    let mut out: Vec<u8> = Vec::new();
    let mut k: usize = 0;
    while k < width
        invariant
            bytes@ == s.spec_bytes(),
            k <= width,
            out@ == ascii_field(s.spec_bytes(), width as nat).subrange(0, k as int),
        decreases width - k,
    {
        let b = if k < bytes.len() { bytes[k] } else { 32u8 };
        out.push(b);
        assert(out@ =~= ascii_field(s.spec_bytes(), width as nat).subrange(0, k + 1));
        k += 1;
    }
    assert(ascii_field(s.spec_bytes(), width as nat).subrange(0, width as int) =~= ascii_field(
        s.spec_bytes(),
        width as nat,
    ));
    out
}

/// True if `field` matches the ASCII TNULLn string (`strncmp` of `tnull.len()`).
pub fn field_is_null(field: &[u8], tnull: &str) -> (r: bool)
    ensures
        r == (tnull.spec_bytes().len() > 0 && tnull.spec_bytes().len() <= field@.len()
            && field@.subrange(0, tnull.spec_bytes().len() as int) == tnull.spec_bytes()),
{
    let nb = tnull.as_bytes();
    if nb.len() == 0 || nb.len() > field.len() {
        return false;
    }
    let mut k: usize = 0;
    while k < nb.len()
        invariant
            nb@ == tnull.spec_bytes(),
            nb@.len() <= field@.len(),
            k <= nb@.len(),
            field@.subrange(0, k as int) == nb@.subrange(0, k as int),
        decreases nb.len() - k,
    {
        if field[k] != nb[k] {
            assert(field@.subrange(0, nb@.len() as int)[k as int] != nb@[k as int]);
            return false;
        }
        assert(field@.subrange(0, k + 1) =~= nb@.subrange(0, k + 1));
        k += 1;
    }
    assert(nb@.subrange(0, nb@.len() as int) =~= nb@);
    true
}

/// Trim trailing blanks from an ASCII string field (`ffgcls2`).
pub fn trim_ascii_field(field: &[u8]) -> (r: String)
    ensures
        r@ == utf8_lossy(trim_end(field@)),
{
    let end = trim_end_len(field);
    let kept = slice_prefix(field, end);
    string_from_utf8_lossy(kept)
}

/// `&b[..n]`.
fn slice_prefix(b: &[u8], n: usize) -> (r: &[u8])
    requires
        n <= b@.len(),
    ensures
        r@ == b@.subrange(0, n as int),
{
    let (head, _) = b.split_at(n);
    head
}

/// The decimal text of `n` is digits, and reads back as `n`.
proof fn lemma_decimal_nat_val(n: nat)
    ensures
        decimal_nat(n).len() >= 1,
        forall|k: int| 0 <= k < decimal_nat(n).len() ==> is_digit(#[trigger] decimal_nat(n)[k]),
        digits_val(decimal_nat(n)) == n,
        n < 10 ==> decimal_nat(n).len() == 1,
        10 <= n < 100 ==> decimal_nat(n).len() == 2,
    decreases n,
{
    if n >= 10 {
        lemma_decimal_nat_val(n / 10);
        let x = decimal_nat(n / 10);
        let y = x.push((48 + n % 10) as u8);
        assert(decimal_nat(n) == y);
        assert(y.drop_last() =~= x);
        assert forall|k: int| 0 <= k < y.len() implies is_digit(#[trigger] y[k]) by {
            if k < x.len() {
                assert(y[k] == x[k]);
            }
        }
        assert(y.last() as int == 48 + n % 10);
        assert(digits_val(y) == digits_val(x) * 10 + (n % 10));
        assert((n / 10) * 10 + n % 10 == n);
    } else {
        let y = seq![(48 + n) as u8];
        assert(decimal_nat(n) == y);
        assert(y.drop_last() =~= Seq::<u8>::empty());
        assert(digits_val(y) == digits_val(Seq::<u8>::empty()) * 10 + (y.last() - 48));
    }
}

/// A byte string that starts with no white space is its own
/// `trim_start_bytes`.
proof fn lemma_trim_start_none(b: Seq<u8>)
    requires
        b.len() > 0,
        33 <= b[0] <= 127,
    ensures
        trim_start_bytes(b) == b,
{
    assert(ws_len(b) == 0);
}

/// `c_long_of` reads the decimal text of `n` as `n`.
proof fn lemma_c_long_decimal(n: nat)
    requires
        n < 100,
    ensures
        c_long_of(decimal_nat(n)) == Some(n as i64),
{
    lemma_decimal_nat_val(n);
    let t = decimal_nat(n);
    lemma_trim_start_none(t);
    assert(sign_len(t) == 0);
    lemma_digit_run(t, 0, t.len() as int);
    assert(t.subrange(0, t.len() as int) =~= t);
}

/// Law: a formatted field form reads back (`ffasfm`): for the letter `F`,
/// `E` or `D`, a width `1 <= w <= 99` and a number of decimals `0 <= d < w`,
/// the text `letter`, `w` in decimal, `.`, `d` in decimal parses to that
/// letter's kind with width `w` and `d` decimals.
pub proof fn lemma_tform_reads_back(letter: u8, w: int, d: int)
    requires
        letter == 70 || letter == 69 || letter == 68,
        1 <= w <= 99,
        0 <= d < w,
    ensures
        ascii_tform_of(seq![letter] + decimal_nat(w as nat) + seq![46u8] + decimal_nat(d as nat)) matches Ok(t)
            && t.width == w && t.decimals == d && t.kind == (if letter == 70 {
            AsciiKind::F
        } else if letter == 69 {
            AsciiKind::E
        } else {
            AsciiKind::D
        }) && t.datacode == (if letter == 68 || (letter == 70 && w > 7) || (letter == 69 && d > 6) {
            TDOUBLE
        } else {
            TFLOAT
        }),
{
    let dw = decimal_nat(w as nat);
    let dd = decimal_nat(d as nat);
    lemma_decimal_nat_val(w as nat);
    lemma_decimal_nat_val(d as nat);
    let text = seq![letter] + dw + seq![46u8] + dd;
    let rest = dw + seq![46u8] + dd;
    lemma_trim_start_none(text);
    assert forall|k: int| 0 <= k < text.len() implies !crate::text::is_lower(#[trigger] text[k]) by {
        if 1 <= k < 1 + dw.len() {
            assert(text[k] == dw[k - 1]);
        } else if k > 1 + dw.len() {
            assert(text[k] == dd[k - 2 - dw.len()]);
        }
    }
    assert(ascii_upper(text) =~= text);
    assert(text.drop_first() =~= rest);
    let n = dw.len() as int;
    assert(rest[n] == 46u8);
    lemma_trim_start_none(rest);
    assert(sign_len(rest) == 0);
    assert forall|m: int| 0 <= m < n implies is_digit(#[trigger] rest[m]) by {
        assert(rest[m] == dw[m]);
    }
    lemma_digit_run(rest, 0, n);
    assert forall|m: int| n + 1 <= m < rest.len() implies is_digit(#[trigger] rest[m]) by {
        assert(rest[m] == dd[m - n - 1]);
    }
    lemma_digit_run(rest, n + 1, rest.len() as int);
    assert(rest.subrange(0, n) =~= dw);
    assert(c_width_of(rest) == Some((true, w)));
    assert(rest.subrange(n + 1, rest.len() as int) =~= dd);
    lemma_c_long_decimal(d as nat);
}

/// Law: a character or integer field form reads back (`ffasfm`): `A` or
/// `I` followed by a width `1 <= w <= 99` in decimal parses to that kind
/// with width `w`, no decimals, and the datatype `TSTRING` for `A`,
/// `TSHORT` for `I` up to 4 characters wide and `TLONG` beyond.
pub proof fn lemma_tform_width_reads_back(letter: u8, w: int)
    requires
        letter == 65 || letter == 73,
        1 <= w <= 99,
    ensures
        ascii_tform_of(seq![letter] + decimal_nat(w as nat)) matches Ok(t) && t.width == w && t.decimals == 0
            && t.kind == (if letter == 65 { AsciiKind::A } else { AsciiKind::I }) && t.datacode == (if letter == 65 {
            TSTRING
        } else if w <= 4 {
            TSHORT
        } else {
            TLONG
        }),
{
    let dw = decimal_nat(w as nat);
    lemma_decimal_nat_val(w as nat);
    let text = seq![letter] + dw;
    lemma_trim_start_none(text);
    assert forall|k: int| 0 <= k < text.len() implies !crate::text::is_lower(#[trigger] text[k]) by {
        if k >= 1 {
            assert(text[k] == dw[k - 1]);
        }
    }
    assert(ascii_upper(text) =~= text);
    assert(text.drop_first() =~= dw);
    lemma_c_long_decimal(w as nat);
}

} // verus!
