//! Binary-table `TDIMn` values (`ffgtdm` / `ffptdm` text) and Fortran-order
//! indexing, so a vector cell can be addressed as a multidimensional array.
use vstd::prelude::*;
use crate::error::FitsError;
use crate::status::{ARRAY_TOO_BIG, BAD_DIMEN, BAD_ELEM_NUM, BAD_TDIM};
use crate::text::{chars_of, decimal_int, format_i64, latin1, string_of_bytes};

verus! {

/// `char::is_whitespace`: the Unicode `White_Space` characters.
pub open spec fn is_ws(c: char) -> bool {
    let u = c as u32;
    (0x9 <= u <= 0xd) || u == 0x20 || u == 0x85 || u == 0xa0 || u == 0x1680 || (0x2000 <= u
        <= 0x200a) || u == 0x2028 || u == 0x2029 || u == 0x202f || u == 0x205f || u == 0x3000
}

/// `s` without leading whitespace.
pub open spec fn trim_start_ws(s: Seq<char>) -> Seq<char>
    decreases s.len(),
{
    if s.len() > 0 && is_ws(s[0]) {
        trim_start_ws(s.drop_first())
    } else {
        s
    }
}

/// `s` without trailing whitespace.
pub open spec fn trim_end_ws(s: Seq<char>) -> Seq<char>
    decreases s.len(),
{
    if s.len() > 0 && is_ws(s.last()) {
        trim_end_ws(s.drop_last())
    } else {
        s
    }
}

/// `str::trim`.
pub open spec fn trim_ws(s: Seq<char>) -> Seq<char> {
    trim_end_ws(trim_start_ws(s))
}

/// Value of a run of decimal digits.
pub open spec fn digits_value(s: Seq<char>) -> int
    decreases s.len(),
{
    if s.len() == 0 {
        0
    } else {
        digits_value(s.drop_last()) * 10 + (s.last() as int - 48)
    }
}

/// All characters are ASCII digits.
pub open spec fn all_digits(s: Seq<char>) -> bool {
    forall|i: int| 0 <= i < s.len() ==> '0' <= #[trigger] s[i] <= '9'
}

/// `i64::from_str`: optional sign, at least one digit, nothing else, in range.
pub open spec fn parse_i64(s: Seq<char>) -> Option<i64> {
    if s.len() == 0 {
        None
    } else {
        let neg = s[0] == '-';
        let digits = if s[0] == '-' || s[0] == '+' { s.drop_first() } else { s };
        if digits.len() == 0 || !all_digits(digits) {
            None
        } else {
            let v = if neg { -digits_value(digits) } else { digits_value(digits) };
            if i64::MIN <= v <= i64::MAX {
                Some(v as i64)
            } else {
                None
            }
        }
    }
}

/// Index of the first `x` in `s`.
pub open spec fn find_char(s: Seq<char>, x: char) -> Option<int>
    decreases s.len(),
{
    if s.len() == 0 {
        None
    } else if s[0] == x {
        Some(0)
    } else {
        match find_char(s.drop_first(), x) {
            Some(k) => Some(k + 1),
            None => None,
        }
    }
}

/// Index of the last `x` in `s`.
pub open spec fn rfind_char(s: Seq<char>, x: char) -> Option<int>
    decreases s.len(),
{
    if s.len() == 0 {
        None
    } else if s.last() == x {
        Some(s.len() - 1)
    } else {
        rfind_char(s.drop_last(), x)
    }
}

/// Where `find_char` points.
pub proof fn lemma_find_char(s: Seq<char>, x: char)
    ensures
        find_char(s, x) matches Some(k) ==> 0 <= k < s.len() && s[k] == x && forall|j: int|
            0 <= j < k ==> s[j] != x,
        find_char(s, x) is None ==> forall|j: int| 0 <= j < s.len() ==> s[j] != x,
    decreases s.len(),
{
    if s.len() > 0 {
        lemma_find_char(s.drop_first(), x);
        if s[0] != x {
            assert forall|j: int| 0 < j < s.len() implies s[j] == s.drop_first()[j - 1] by {}
        }
    }
}

/// Why a `TDIMn` value is refused.
#[derive(Debug, Clone, Copy, PartialEq, Eq)]
pub enum TdimFault {
    /// Not `(n1,n2,...)` with integers.
    Format,
    /// An axis length below 0.
    Negative,
}

/// The comma-separated axis lengths of `inner`, left to right.
pub open spec fn decode_parts(inner: Seq<char>) -> Result<Seq<i64>, TdimFault>
    decreases inner.len(),
{
    proof {
        lemma_find_char(inner, ',');
    }
    let (part, rest) = match find_char(inner, ',') {
        Some(k) => (inner.subrange(0, k), Some(inner.subrange(k + 1, inner.len() as int))),
        None => (inner, None),
    };
    match parse_i64(trim_ws(part)) {
        None => Err(TdimFault::Format),
        Some(d) => if d < 0 {
            Err(TdimFault::Negative)
        } else {
            match rest {
                None => Ok(seq![d]),
                Some(r) => match decode_parts(r) {
                    Ok(ds) => Ok(seq![d] + ds),
                    Err(f) => Err(f),
                },
            }
        },
    }
}

/// `ffdtdm`: the axis lengths of a `TDIMn` value such as `(10,20)`.
pub open spec fn decode_tdim_of(s: Seq<char>) -> Result<Seq<i64>, TdimFault> {
    let t = trim_ws(s);
    if t.len() == 0 || t[0] != '(' {
        Err(TdimFault::Format)
    } else {
        let rest = t.drop_first();
        match rfind_char(rest, ')') {
            None => Err(TdimFault::Format),
            Some(p) => {
                let inner = rest.subrange(0, p);
                if trim_ws(inner).len() == 0 {
                    Err(TdimFault::Format)
                } else {
                    decode_parts(inner)
                }
            },
        }
    }
}

/// Message of each refusal.
pub open spec fn tdim_fault_message(f: TdimFault, s: Seq<char>) -> Seq<char> {
    match f {
        TdimFault::Format => "Illegal dimensions format: "@ + s,
        TdimFault::Negative => "one or more dimension are less than 0 (ffdtdm)"@,
    }
}

fn is_ws_exec(c: char) -> (r: bool)
    ensures
        r == is_ws(c),
{
    let u = c as u32;
    (0x9 <= u && u <= 0xd) || u == 0x20 || u == 0x85 || u == 0xa0 || u == 0x1680 || (0x2000 <= u
        && u <= 0x200a) || u == 0x2028 || u == 0x2029 || u == 0x202f || u == 0x205f || u == 0x3000
}

/// Bounds `[from, to)` of `s[lo..hi]` with whitespace trimmed at both ends.
pub(crate) fn trim_bounds(s: &Vec<char>, lo: usize, hi: usize) -> (r: (usize, usize))
    requires
        lo <= hi <= s@.len(),
    ensures
        lo <= r.0 <= r.1 <= hi,
        s@.subrange(r.0 as int, r.1 as int) == trim_ws(s@.subrange(lo as int, hi as int)),
{
    let mut a = lo;
    while a < hi && is_ws_exec(s[a])
        invariant
            lo <= a <= hi <= s@.len(),
            trim_start_ws(s@.subrange(lo as int, hi as int)) == trim_start_ws(
                s@.subrange(a as int, hi as int),
            ),
        decreases hi - a,
    {
        assert(s@.subrange(a as int, hi as int).drop_first() =~= s@.subrange(a + 1, hi as int));
        a += 1;
    }
    assert(trim_start_ws(s@.subrange(a as int, hi as int)) == s@.subrange(a as int, hi as int));
    let mut b = hi;
    while b > a && is_ws_exec(s[b - 1])
        invariant
            a <= b <= hi <= s@.len(),
            trim_end_ws(s@.subrange(a as int, hi as int)) == trim_end_ws(
                s@.subrange(a as int, b as int),
            ),
        decreases b,
    {
        assert(s@.subrange(a as int, b as int).drop_last() =~= s@.subrange(a as int, b - 1));
        b -= 1;
    }
    (a, b)
}

/// `i64::from_str` on `s[lo..hi]`.
pub(crate) fn parse_i64_exec(s: &Vec<char>, lo: usize, hi: usize) -> (r: Option<i64>)
    requires
        lo <= hi <= s@.len(),
    ensures
        r == parse_i64(s@.subrange(lo as int, hi as int)),
{
    let ghost t = s@.subrange(lo as int, hi as int);
    if lo == hi {
        return None;
    }
    let neg = s[lo] == '-';
    let start = if s[lo] == '-' || s[lo] == '+' { lo + 1 } else { lo };
    let ghost digits = s@.subrange(start as int, hi as int);
    assert(digits =~= (if t[0] == '-' || t[0] == '+' { t.drop_first() } else { t }));
    if start == hi {
        return None;
    }
    if !all_digits_exec(s, start, hi) {
        return None;
    }
    let mut v: i128 = 0;
    let mut k = start;
    while k < hi
        invariant
            lo <= start <= k <= hi <= s@.len(),
            digits == s@.subrange(start as int, hi as int),
            t == s@.subrange(lo as int, hi as int),
            t.len() > 0,
            neg == (t[0] == '-'),
            digits == (if t[0] == '-' || t[0] == '+' { t.drop_first() } else { t }),
            digits.len() > 0,
            all_digits(digits),
            v as int == digits_value(s@.subrange(start as int, k as int)),
            0 <= v <= 0x8000_0000_0000_0000,
        decreases hi - k,
    {
        let c = s[k];
        assert(digits[k - start] == c);
        let d = (c as u32 - 48) as i128;
        assert(s@.subrange(start as int, k + 1).drop_last() =~= s@.subrange(start as int, k as int));
        v = v * 10 + d;
        if v > 0x8000_0000_0000_0000 {
            proof {
                lemma_digits_grow(digits, (k + 1 - start) as int);
                assert(digits.subrange(0, k + 1 - start) =~= s@.subrange(start as int, k + 1));
            }
            return None;
        }
        k += 1;
    }
    assert(s@.subrange(start as int, hi as int) =~= digits);
    let signed: i128 = if neg { -v } else { v };
    if signed < -0x8000_0000_0000_0000 || signed > 0x7fff_ffff_ffff_ffff {
        return None;
    }
    Some(signed as i64)
}

/// Are all of `s[lo..hi]` ASCII digits?
fn all_digits_exec(s: &Vec<char>, lo: usize, hi: usize) -> (r: bool)
    requires
        lo <= hi <= s@.len(),
    ensures
        r == all_digits(s@.subrange(lo as int, hi as int)),
{
    let mut k = lo;
    while k < hi
        invariant
            lo <= k <= hi <= s@.len(),
            all_digits(s@.subrange(lo as int, k as int)),
        decreases hi - k,
    {
        let c = s[k];
        if !('0' <= c && c <= '9') {
            assert(s@.subrange(lo as int, hi as int)[k - lo] == c);
            return false;
        }
        assert forall|i: int| 0 <= i < k + 1 - lo implies '0' <= #[trigger] s@.subrange(lo as int, k + 1)[i] <= '9' by {
            if i < k - lo {
                assert(s@.subrange(lo as int, k + 1)[i] == s@.subrange(lo as int, k as int)[i]);
            }
        }
        k += 1;
    }
    true
}

/// More digits never make a smaller number.
proof fn lemma_digits_grow(s: Seq<char>, k: int)
    requires
        all_digits(s),
        0 <= k <= s.len(),
    ensures
        digits_value(s) >= digits_value(s.subrange(0, k)),
        digits_value(s.subrange(0, k)) >= 0,
    decreases s.len(),
{
    if s.len() == 0 {
        assert(s.subrange(0, k) =~= s);
    } else if k == s.len() {
        assert(s.subrange(0, k) =~= s);
        lemma_digits_nonneg(s);
    } else {
        assert(all_digits(s.drop_last()));
        lemma_digits_grow(s.drop_last(), k);
        assert(s.drop_last().subrange(0, k) =~= s.subrange(0, k));
        lemma_digits_nonneg(s.drop_last());
        assert('0' <= s.last() <= '9');
    }
}

proof fn lemma_digits_nonneg(s: Seq<char>)
    requires
        all_digits(s),
    ensures
        digits_value(s) >= 0,
    decreases s.len(),
{
    if s.len() > 0 {
        assert(all_digits(s.drop_last()));
        lemma_digits_nonneg(s.drop_last());
        assert('0' <= s.last() <= '9');
    }
}

/// Where `rfind_char` points.
pub proof fn lemma_rfind_char(s: Seq<char>, x: char)
    ensures
        rfind_char(s, x) matches Some(k) ==> 0 <= k < s.len() && s[k] == x && forall|j: int|
            k < j < s.len() ==> s[j] != x,
        rfind_char(s, x) is None ==> forall|j: int| 0 <= j < s.len() ==> s[j] != x,
    decreases s.len(),
{
    if s.len() > 0 {
        lemma_rfind_char(s.drop_last(), x);
        if s.last() != x {
            assert forall|j: int| 0 <= j < s.len() - 1 implies s[j] == s.drop_last()[j] by {}
        }
    }
}

/// First position of `x` in `s[lo..hi]`.
fn find_in(s: &Vec<char>, lo: usize, hi: usize, x: char) -> (r: Option<usize>)
    requires
        lo <= hi <= s@.len(),
    ensures
        match find_char(s@.subrange(lo as int, hi as int), x) {
            Some(k) => r matches Some(p) && p == lo + k,
            None => r is None,
        },
        r matches Some(p) ==> lo <= p < hi && s@[p as int] == x,
{
    let ghost t = s@.subrange(lo as int, hi as int);
    proof {
        lemma_find_char(t, x);
    }
    let mut k = lo;
    while k < hi
        invariant
            lo <= k <= hi <= s@.len(),
            t == s@.subrange(lo as int, hi as int),
            forall|j: int| lo <= j < k ==> s@[j] != x,
        decreases hi - k,
    {
        if s[k] == x {
            assert(t[k - lo] == x);
            proof {
                lemma_find_char(t, x);
                if let Some(k2) = find_char(t, x) {
                    assert(t[k2] == s@[lo + k2]);
                }
            }
            return Some(k);
        }
        k += 1;
    }
    proof {
        lemma_find_char(t, x);
        if let Some(k2) = find_char(t, x) {
            assert(t[k2] == s@[lo + k2]);
        }
    }
    None
}

/// Last position of `x` in `s[lo..hi]`.
fn rfind_in(s: &Vec<char>, lo: usize, hi: usize, x: char) -> (r: Option<usize>)
    requires
        lo <= hi <= s@.len(),
    ensures
        match rfind_char(s@.subrange(lo as int, hi as int), x) {
            Some(k) => r matches Some(p) && p == lo + k,
            None => r is None,
        },
        r matches Some(p) ==> lo <= p < hi && s@[p as int] == x,
{
    let ghost t = s@.subrange(lo as int, hi as int);
    proof {
        lemma_rfind_char(t, x);
    }
    let mut k = hi;
    while k > lo
        invariant
            lo <= k <= hi <= s@.len(),
            t == s@.subrange(lo as int, hi as int),
            forall|j: int| k <= j < hi ==> s@[j] != x,
        decreases k,
    {
        if s[k - 1] == x {
            assert(t[k - 1 - lo] == x);
            proof {
                lemma_rfind_char(t, x);
                if let Some(k2) = rfind_char(t, x) {
                    assert(t[k2] == s@[lo + k2]);
                }
            }
            return Some(k - 1);
        }
        k -= 1;
    }
    proof {
        lemma_rfind_char(t, x);
        if let Some(k2) = rfind_char(t, x) {
            assert(t[k2] == s@[lo + k2]);
        }
    }
    None
}

/// The view of a decoding result.
pub open spec fn dims_view(r: Result<Vec<i64>, TdimFault>) -> Result<Seq<i64>, TdimFault> {
    match r {
        Ok(v) => Ok(v@),
        Err(f) => Err(f),
    }
}

/// `decode_parts` on `s[lo..hi]`.
fn decode_parts_exec(s: &Vec<char>, lo: usize, hi: usize) -> (r: Result<Vec<i64>, TdimFault>)
    requires
        lo <= hi <= s@.len(),
    ensures
        dims_view(r) == decode_parts(s@.subrange(lo as int, hi as int)),
    decreases hi - lo,
{
    let ghost inner = s@.subrange(lo as int, hi as int);
    let comma = find_in(s, lo, hi, ',');
    let end = match comma {
        Some(k) => k,
        None => hi,
    };
    proof {
        lemma_find_char(inner, ',');
        match find_char(inner, ',') {
            Some(k) => {
                assert(inner.subrange(0, k) =~= s@.subrange(lo as int, end as int));
                assert(inner.subrange(k + 1, inner.len() as int) =~= s@.subrange(end + 1, hi as int));
            },
            None => {
                assert(inner =~= s@.subrange(lo as int, end as int));
            },
        }
    }
    let (a, b) = trim_bounds(s, lo, end);
    let parsed = parse_i64_exec(s, a, b);
    match parsed {
        None => Err(TdimFault::Format),
        Some(d) => {
            if d < 0 {
                return Err(TdimFault::Negative);
            }
            match comma {
                None => {
                    let mut v: Vec<i64> = Vec::new();
                    v.push(d);
                    assert(v@ =~= seq![d]);
                    Ok(v)
                },
                Some(k) => {
                    let tail = decode_parts_exec(s, k + 1, hi);
                    match tail {
                        Err(f) => Err(f),
                        Ok(ds) => {
                            let mut v: Vec<i64> = Vec::new();
                            v.push(d);
                            let mut j: usize = 0;
                            while j < ds.len()
                                invariant
                                    j <= ds@.len(),
                                    v@ == seq![d] + ds@.subrange(0, j as int),
                                decreases ds.len() - j,
                            {
                                v.push(ds[j]);
                                assert(ds@.subrange(0, j + 1) =~= ds@.subrange(0, j as int).push(ds@[j as int]));
                                j += 1;
                            }
                            assert(ds@.subrange(0, ds@.len() as int) =~= ds@);
                            Ok(v)
                        },
                    }
                },
            }
        },
    }
}

/// The axis lengths of `s`, or why it is refused.
fn decode_chars(s: &Vec<char>) -> (r: Result<Vec<i64>, TdimFault>)
    ensures
        dims_view(r) == decode_tdim_of(s@),
{
    let n = s.len();
    let (a, b) = trim_bounds(s, 0, n);
    assert(s@.subrange(0, n as int) =~= s@);
    let ghost t = s@.subrange(a as int, b as int);
    if a == b || s[a] != '(' {
        return Err(TdimFault::Format);
    }
    assert(t.drop_first() =~= s@.subrange(a + 1, b as int));
    match rfind_in(s, a + 1, b, ')') {
        None => Err(TdimFault::Format),
        Some(p) => {
            let ghost inner = t.drop_first().subrange(0, p - (a + 1));
            assert(inner =~= s@.subrange(a + 1, p as int));
            assert(rfind_char(t.drop_first(), ')') == Some(p - (a + 1)));
            let (c, d) = trim_bounds(s, a + 1, p);
            assert(trim_ws(inner) == s@.subrange(c as int, d as int));
            if c == d {
                return Err(TdimFault::Format);
            }
            decode_parts_exec(s, a + 1, p)
        },
    }
}

/// Decode a `TDIMn` value such as `(10,20)` or `(1, 128, 1, 2048)`.
///
/// First axis is fastest (FITS / Fortran order). An empty or missing keyword
/// is not handled here.
pub fn decode_tdim(tdimstr: &str) -> (r: Result<Vec<i64>, FitsError>)
    ensures
        match decode_tdim_of(tdimstr@) {
            Ok(ds) => r matches Ok(v) && v@ == ds,
            Err(f) => r matches Err(e) && e.status == BAD_TDIM && e.message_list() == seq![
                tdim_fault_message(f, tdimstr@),
            ],
        },
{
    let cs = chars_of(tdimstr);
    match decode_chars(&cs) {
        Ok(v) => Ok(v),
        Err(TdimFault::Format) => {
            let mut msg = String::from_str("Illegal dimensions format: ");
            msg.append(tdimstr);
            Err(FitsError::with_message(BAD_TDIM, msg.as_str()))
        },
        Err(TdimFault::Negative) => Err(
            FitsError::with_message(BAD_TDIM, "one or more dimension are less than 0 (ffdtdm)"),
        ),
    }
}

/// The axis lengths joined by commas, each in decimal.
pub open spec fn join_dims(ds: Seq<i64>) -> Seq<u8>
    decreases ds.len(),
{
    if ds.len() == 0 {
        Seq::empty()
    } else if ds.len() == 1 {
        decimal_int(ds[0] as int)
    } else {
        join_dims(ds.drop_last()) + seq![44u8] + decimal_int(ds.last() as int)
    }
}

/// `ffptdm` text of the axis lengths: `(n1,n2,...)`, no spaces.
pub open spec fn tdim_text(ds: Seq<i64>) -> Seq<u8> {
    seq![40u8] + join_dims(ds) + seq![41u8]
}

/// Longest `TDIMn` value text `ffptdm` writes.
pub const TDIM_VALUE_MAX: usize = 70;

/// Format `TDIMn` as `(n1,n2,...)` (no spaces, matching `ffptdm`).
pub fn format_tdim(dims: &[i64]) -> (r: Result<String, FitsError>)
    ensures
        dims@.len() == 0 ==> (r matches Err(e) && e.status == BAD_DIMEN
            && e.message_list().len() == 0),
        dims@.len() > 0 && (exists|i: int| 0 <= i < dims@.len() && dims@[i] < 0) ==> (r matches Err(
            e,
        ) && e.status == BAD_TDIM && e.message_list().len() == 0),
        dims@.len() > 0 && (forall|i: int| 0 <= i < dims@.len() ==> dims@[i] >= 0) ==> {
            let t = tdim_text(dims@);
            if t.len() > TDIM_VALUE_MAX {
                r matches Err(e) && e.status == BAD_TDIM && e.message_list() == seq![
                    "TDIM string too long (ffptdm)"@,
                ]
            } else {
                r matches Ok(v) && v@ == latin1(t)
            }
        },
{
    if dims.len() == 0 {
        return Err(FitsError::new(BAD_DIMEN));
    }
    let mut out: Vec<u8> = Vec::new();
    out.push(40u8);
    let mut i: usize = 0;
    while i < dims.len()
        invariant
            0 < dims@.len(),
            i <= dims@.len(),
            forall|j: int| 0 <= j < i ==> dims@[j] >= 0,
            out@ == seq![40u8] + join_dims(dims@.subrange(0, i as int)),
        decreases dims.len() - i,
    {
        let d = dims[i];
        if d < 0 {
            return Err(FitsError::new(BAD_TDIM));
        }
        let ghost before = out@;
        if i > 0 {
            out.push(44u8);
        }
        let digits = format_i64(d);
        let mut k: usize = 0;
        while k < digits.len()
            invariant
                k <= digits@.len(),
                out@ == (if i > 0 { before + seq![44u8] } else { before }) + digits@.subrange(
                    0,
                    k as int,
                ),
            decreases digits.len() - k,
        {
            out.push(digits[k]);
            assert(digits@.subrange(0, k + 1) =~= digits@.subrange(0, k as int).push(
                digits@[k as int],
            ));
            k += 1;
        }
        assert(digits@.subrange(0, digits@.len() as int) =~= digits@);
        proof {
            let p = dims@.subrange(0, i + 1);
            assert(p.drop_last() =~= dims@.subrange(0, i as int));
            if i == 0 {
                assert(dims@.subrange(0, 0) =~= Seq::<i64>::empty());
            }
        }
        i += 1;
    }
    assert(dims@.subrange(0, dims@.len() as int) =~= dims@);
    out.push(41u8);
    if out.len() > TDIM_VALUE_MAX {
        return Err(FitsError::with_message(BAD_TDIM, "TDIM string too long (ffptdm)"));
    }
    Ok(string_of_bytes(out.as_slice()))
}

/// Product of the first `k` axis lengths.
pub open spec fn prefix_product(ds: Seq<i64>, k: int) -> int
    decreases k,
{
    if k <= 0 {
        1
    } else {
        prefix_product(ds, k - 1) * ds[k - 1]
    }
}

/// Left to right, the first axis that is negative (`BAD_TDIM`) or whose
/// running product leaves `i64` (`ARRAY_TOO_BIG`), from axis `i` on.
pub open spec fn product_fault(ds: Seq<i64>, i: int) -> Option<i32>
    decreases ds.len() - i,
{
    if i >= ds.len() || i < 0 {
        None
    } else if ds[i] < 0 {
        Some(BAD_TDIM)
    } else if prefix_product(ds, i + 1) > i64::MAX {
        Some(ARRAY_TOO_BIG)
    } else {
        product_fault(ds, i + 1)
    }
}

proof fn lemma_prefix_product_nonneg(ds: Seq<i64>, k: int)
    requires
        0 <= k <= ds.len(),
        forall|j: int| 0 <= j < k ==> ds[j] >= 0,
    ensures
        prefix_product(ds, k) >= 0,
    decreases k,
{
    if k > 0 {
        lemma_prefix_product_nonneg(ds, k - 1);
        assert(prefix_product(ds, k - 1) * ds[k - 1] >= 0) by (nonlinear_arith)
            requires
                prefix_product(ds, k - 1) >= 0,
                ds[k - 1] >= 0,
        ;
    }
}

/// Product of TDIM axes.
pub fn tdim_product(dims: &[i64]) -> (r: Result<i64, FitsError>)
    ensures
        match product_fault(dims@, 0) {
            Some(st) => r matches Err(e) && e.status == st && e.message_list().len() == 0,
            None => r == Ok::<i64, FitsError>(prefix_product(dims@, dims@.len() as int) as i64)
                && 0 <= prefix_product(dims@, dims@.len() as int) <= i64::MAX,
        },
{
    let mut n: i64 = 1;
    let mut i: usize = 0;
    while i < dims.len()
        invariant
            i <= dims@.len(),
            forall|j: int| 0 <= j < i ==> dims@[j] >= 0,
            n as int == prefix_product(dims@, i as int),
            product_fault(dims@, 0) == product_fault(dims@, i as int),
        decreases dims.len() - i,
    {
        let d = dims[i];
        if d < 0 {
            return Err(FitsError::new(BAD_TDIM));
        }
        proof {
            lemma_prefix_product_nonneg(dims@, i as int);
        }
        match n.checked_mul(d) {
            None => {
                return Err(FitsError::new(ARRAY_TOO_BIG));
            },
            Some(m) => {
                n = m;
            },
        }
        i += 1;
    }
    proof {
        lemma_prefix_product_nonneg(dims@, dims@.len() as int);
    }
    Ok(n)
}

/// Left to right, the first axis whose coordinate is outside `1..=n`
/// (`BAD_ELEM_NUM`) or whose running product leaves `i64` (`ARRAY_TOO_BIG`),
/// from axis `i` on.
pub open spec fn elem_fault(dims: Seq<i64>, coords: Seq<i64>, i: int) -> Option<i32>
    decreases dims.len() - i,
{
    if i >= dims.len() || i < 0 {
        None
    } else if coords[i] < 1 || coords[i] > dims[i] {
        Some(BAD_ELEM_NUM)
    } else if prefix_product(dims, i + 1) > i64::MAX {
        Some(ARRAY_TOO_BIG)
    } else {
        elem_fault(dims, coords, i + 1)
    }
}

/// `(c0-1) + n0*(c1-1) + n0*n1*(c2-1) + …` over the first `k` axes: the
/// 0-based Fortran-order offset of 1-based coordinates.
pub open spec fn fortran_offset(dims: Seq<i64>, coords: Seq<i64>, k: int) -> int
    decreases k,
{
    if k <= 0 {
        0
    } else {
        fortran_offset(dims, coords, k - 1) + (coords[k - 1] - 1) * prefix_product(dims, k - 1)
    }
}

/// 1-based Fortran-order element from 1-based coordinates.
///
/// `elem = 1 + (c0-1) + n0*(c1-1) + n0*n1*(c2-1) + …`
pub fn tdim_elem(dims: &[i64], coords: &[i64]) -> (r: Result<i64, FitsError>)
    ensures
        dims@.len() == 0 || coords@.len() != dims@.len() ==> (r matches Err(e) && e.status
            == BAD_DIMEN && e.message_list().len() == 0),
        dims@.len() > 0 && coords@.len() == dims@.len() ==> match elem_fault(dims@, coords@, 0) {
            Some(st) => r matches Err(e) && e.status == st && e.message_list().len() == 0,
            None => r matches Ok(v) && v == fortran_offset(dims@, coords@, dims@.len() as int)
                + 1,
        },
{
    if dims.len() == 0 || coords.len() != dims.len() {
        return Err(FitsError::new(BAD_DIMEN));
    }
    let mut off: i128 = 0;
    let mut stride: i64 = 1;
    let mut i: usize = 0;
    while i < dims.len()
        invariant
            coords@.len() == dims@.len(),
            i <= dims@.len(),
            stride as int == prefix_product(dims@, i as int),
            off as int == fortran_offset(dims@, coords@, i as int),
            0 <= off < stride,
            elem_fault(dims@, coords@, 0) == elem_fault(dims@, coords@, i as int),
        decreases dims.len() - i,
    {
        let n = dims[i];
        let c = coords[i];
        if c < 1 || c > n {
            return Err(FitsError::new(BAD_ELEM_NUM));
        }
        proof {
            let ghost s = stride as int;
            assert((c - 1) * s <= 0x7fff_ffff_ffff_ffff * 0x7fff_ffff_ffff_ffff) by (nonlinear_arith)
                requires
                    1 <= c <= 0x7fff_ffff_ffff_ffff,
                    1 <= s <= 0x7fff_ffff_ffff_ffff,
            ;
            assert(n * s <= 0x7fff_ffff_ffff_ffff * 0x7fff_ffff_ffff_ffff) by (nonlinear_arith)
                requires
                    1 <= n <= 0x7fff_ffff_ffff_ffff,
                    1 <= s <= 0x7fff_ffff_ffff_ffff,
            ;
        }
        let step: i128 = (c as i128 - 1) * (stride as i128);
        proof {
            let ghost s = stride as int;
            assert((c - 1) * s <= (n - 1) * s) by (nonlinear_arith)
                requires
                    1 <= c <= n,
                    s >= 1,
            ;
            assert((c - 1) * s >= 0) by (nonlinear_arith)
                requires
                    1 <= c,
                    s >= 1,
            ;
            assert((n - 1) * s + s == n * s) by (nonlinear_arith);
        }
        let m = stride.checked_mul(n);
        match m {
            None => {
                return Err(FitsError::new(ARRAY_TOO_BIG));
            },
            Some(v) => {
                let ghost s0 = stride as int;
                let ghost o0 = off as int;
                off = off + step;
                stride = v;
                proof {
                    assert(off as int == o0 + (c - 1) * s0);
                    assert(stride as int == s0 * n);
                    assert(o0 + (c - 1) * s0 < s0 * n) by (nonlinear_arith)
                        requires
                            0 <= o0 < s0,
                            1 <= c <= n,
                    ;
                }
            },
        }
        i += 1;
    }
    Ok((off + 1) as i64)
}

/// 1-based coordinates, first axis first, of the 0-based offset `r`; an axis
/// of length 0 gets coordinate 1.
pub open spec fn coords_of(dims: Seq<i64>, r: int) -> Seq<i64>
    decreases dims.len(),
{
    if dims.len() == 0 {
        Seq::empty()
    } else if dims[0] == 0 {
        seq![1i64] + coords_of(dims.drop_first(), r)
    } else {
        seq![(r % (dims[0] as int) + 1) as i64] + coords_of(dims.drop_first(), r / (dims[0] as int))
    }
}

/// Inverse of [`tdim_elem`]: 1-based coordinates for a 1-based element.
pub fn tdim_coords(dims: &[i64], elem: i64) -> (r: Result<Vec<i64>, FitsError>)
    ensures
        match product_fault(dims@, 0) {
            Some(st) => r matches Err(e) && e.status == st && e.message_list().len() == 0,
            None => {
                let p = prefix_product(dims@, dims@.len() as int);
                if elem < 1 || (p > 0 && elem > p) {
                    r matches Err(e) && e.status == BAD_ELEM_NUM && e.message_list().len() == 0
                } else {
                    r matches Ok(v) && v@ == coords_of(dims@, elem - 1)
                }
            },
        },
{
    let prod = match tdim_product(dims) {
        Err(e) => {
            return Err(e);
        },
        Ok(p) => p,
    };
    if elem < 1 || (prod > 0 && elem > prod) {
        return Err(FitsError::new(BAD_ELEM_NUM));
    }
    let mut rest: i64 = elem - 1;
    let mut coords: Vec<i64> = Vec::new();
    let mut i: usize = 0;
    assert(dims@.subrange(0, dims@.len() as int) =~= dims@);
    assert(coords@ + coords_of(dims@, rest as int) =~= coords_of(dims@, rest as int));
    while i < dims.len()
        invariant
            i <= dims@.len(),
            product_fault(dims@, 0) is None,
            rest >= 0,
            coords@ + coords_of(dims@.subrange(i as int, dims@.len() as int), rest as int)
                == coords_of(dims@, elem - 1),
        decreases dims.len() - i,
    {
        let n = dims[i];
        let ghost tail = dims@.subrange(i as int, dims@.len() as int);
        assert(tail.drop_first() =~= dims@.subrange(i + 1, dims@.len() as int));
        assert(tail[0] == n);
        if n <= 0 {
            // a negative axis was refused by the product above
            assert(n == 0) by {
                if n < 0 {
                    lemma_product_fault_none(dims@, 0);
                    assert(dims@[i as int] >= 0);
                }
            }
            coords.push(1);
            assert(coords@ + coords_of(dims@.subrange(i + 1, dims@.len() as int), rest as int)
                =~= coords@.drop_last() + coords_of(tail, rest as int));
        } else {
            let c = rest % n + 1;
            let ghost old_coords = coords@;
            coords.push(c);
            let ghost r0 = rest as int;
            rest = rest / n;
            assert(coords@ + coords_of(dims@.subrange(i + 1, dims@.len() as int), rest as int)
                =~= old_coords + coords_of(tail, r0));
        }
        i += 1;
    }
    assert(coords_of(dims@.subrange(dims@.len() as int, dims@.len() as int), rest as int)
        =~= Seq::<i64>::empty());
    assert(coords@ + Seq::<i64>::empty() =~= coords@);
    Ok(coords)
}

/// With no fault, every axis is non-negative and every running product fits.
proof fn lemma_product_fault_none(ds: Seq<i64>, i: int)
    requires
        0 <= i,
        product_fault(ds, i) is None,
    ensures
        forall|j: int| i <= j < ds.len() ==> ds[j] >= 0,
        forall|j: int| i < j <= ds.len() ==> #[trigger] prefix_product(ds, j) <= i64::MAX,
    decreases ds.len() - i,
{
    if i < ds.len() {
        lemma_product_fault_none(ds, i + 1);
    }
}

/// Peeling the first axis off a running product.
proof fn lemma_prefix_product_front(ds: Seq<i64>, k: int)
    requires
        1 <= k <= ds.len(),
    ensures
        prefix_product(ds, k) == ds[0] * prefix_product(ds.drop_first(), k - 1),
    decreases k,
{
    if k > 1 {
        lemma_prefix_product_front(ds, k - 1);
        let a = ds[0] as int;
        let b = prefix_product(ds.drop_first(), k - 2);
        let c = ds[k - 1] as int;
        assert(ds.drop_first()[k - 2] == ds[k - 1]);
        assert(prefix_product(ds, k) == prefix_product(ds, k - 1) * c);
        assert(prefix_product(ds.drop_first(), k - 1) == b * c);
        assert(prefix_product(ds, k - 1) == a * b);
        assert(a * b * c == a * (b * c)) by (nonlinear_arith);
    } else {
        assert(prefix_product(ds, 1) == prefix_product(ds, 0) * ds[0]);
        assert(prefix_product(ds.drop_first(), 0) == 1);
    }
}

/// Peeling the first axis off a Fortran-order offset.
proof fn lemma_fortran_offset_front(ds: Seq<i64>, cs: Seq<i64>, k: int)
    requires
        1 <= k <= ds.len(),
        cs.len() == ds.len(),
    ensures
        fortran_offset(ds, cs, k) == (cs[0] - 1) + ds[0] * fortran_offset(
            ds.drop_first(),
            cs.drop_first(),
            k - 1,
        ),
    decreases k,
{
    if k > 1 {
        lemma_fortran_offset_front(ds, cs, k - 1);
        lemma_prefix_product_front(ds, k - 1);
        let a = ds[0] as int;
        let f = fortran_offset(ds.drop_first(), cs.drop_first(), k - 2);
        let p = prefix_product(ds.drop_first(), k - 2);
        let c = cs[k - 1] - 1;
        assert(cs.drop_first()[k - 2] == cs[k - 1]);
        assert(fortran_offset(ds, cs, k) == fortran_offset(ds, cs, k - 1) + c * prefix_product(
            ds,
            k - 1,
        ));
        assert(fortran_offset(ds.drop_first(), cs.drop_first(), k - 1) == f + c * p);
        assert(a * f + c * (a * p) == a * (f + c * p)) by (nonlinear_arith);
    } else {
        assert(fortran_offset(ds, cs, 1) == fortran_offset(ds, cs, 0) + (cs[0] - 1)
            * prefix_product(ds, 0));
        assert(fortran_offset(ds.drop_first(), cs.drop_first(), 0) == 0);
    }
}

/// An axis of length 0 makes the running product 0.
proof fn lemma_prefix_product_zero(ds: Seq<i64>, k: int, j: int)
    requires
        0 <= j < k <= ds.len(),
        ds[j] == 0,
    ensures
        prefix_product(ds, k) == 0,
    decreases k,
{
    if k - 1 > j {
        lemma_prefix_product_zero(ds, k - 1, j);
    }
}

/// The coordinates of an offset below the product lie on the axes and give
/// the offset back.
proof fn lemma_coords_offset(dims: Seq<i64>, r: int)
    requires
        forall|j: int| 0 <= j < dims.len() ==> dims[j] > 0,
        0 <= r < prefix_product(dims, dims.len() as int),
    ensures
        coords_of(dims, r).len() == dims.len(),
        forall|j: int|
            0 <= j < dims.len() ==> 1 <= #[trigger] coords_of(dims, r)[j] <= dims[j],
        fortran_offset(dims, coords_of(dims, r), dims.len() as int) == r,
    decreases dims.len(),
{
    if dims.len() > 0 {
        let d0 = dims[0] as int;
        let rest = dims.drop_first();
        let n = dims.len() as int;
        lemma_prefix_product_front(dims, n);
        let p = prefix_product(rest, n - 1);
        assert(r / d0 < p) by (nonlinear_arith)
            requires
                0 <= r < d0 * p,
                d0 > 0,
        ;
        vstd::arithmetic::div_mod::lemma_fundamental_div_mod(r, d0);
        assert(0 <= r % d0 < d0) by (nonlinear_arith)
            requires
                d0 > 0,
        ;
        assert(r / d0 >= 0) by (nonlinear_arith)
            requires
                d0 > 0,
                r >= 0,
        ;
        lemma_coords_offset(rest, r / d0);
        let c = coords_of(dims, r);
        assert(c.drop_first() =~= coords_of(rest, r / d0));
        lemma_fortran_offset_front(dims, c, n);
        assert forall|j: int| 0 <= j < dims.len() implies 1 <= #[trigger] c[j] <= dims[j] by {
            if j > 0 {
                assert(c[j] == coords_of(rest, r / d0)[j - 1]);
                assert(dims[j] == rest[j - 1]);
            }
        }
    }
}

/// With every coordinate on its axis and every running product in `i64`,
/// element numbering finds no fault.
proof fn lemma_elem_fault_none(dims: Seq<i64>, coords: Seq<i64>, i: int)
    requires
        0 <= i,
        coords.len() == dims.len(),
        forall|j: int| i <= j < dims.len() ==> 1 <= #[trigger] coords[j] <= dims[j],
        forall|j: int| i < j <= dims.len() ==> #[trigger] prefix_product(dims, j) <= i64::MAX,
    ensures
        elem_fault(dims, coords, i) is None,
    decreases dims.len() - i,
{
    if i < dims.len() {
        lemma_elem_fault_none(dims, coords, i + 1);
    }
}

/// Law: the element number of the coordinates of element `e` is `e`, for
/// every element of a non-empty array whose axis lengths `tdim_product`
/// accepts with a positive product.
pub proof fn lemma_elem_of_coords(dims: Seq<i64>, e: int)
    requires
        dims.len() > 0,
        product_fault(dims, 0) is None,
        1 <= e <= prefix_product(dims, dims.len() as int),
    ensures
        coords_of(dims, e - 1).len() == dims.len(),
        elem_fault(dims, coords_of(dims, e - 1), 0) is None,
        fortran_offset(dims, coords_of(dims, e - 1), dims.len() as int) + 1 == e,
{
    lemma_product_fault_none(dims, 0);
    assert forall|j: int| 0 <= j < dims.len() implies dims[j] > 0 by {
        if dims[j] == 0 {
            lemma_prefix_product_zero(dims, dims.len() as int, j);
        }
    }
    lemma_coords_offset(dims, e - 1);
    lemma_elem_fault_none(dims, coords_of(dims, e - 1), 0);
}

/// The offset of coordinates on the axes lies below the product and gives
/// the coordinates back.
proof fn lemma_offset_coords(dims: Seq<i64>, coords: Seq<i64>)
    requires
        coords.len() == dims.len(),
        forall|j: int| 0 <= j < dims.len() ==> 1 <= #[trigger] coords[j] <= dims[j],
    ensures
        0 <= fortran_offset(dims, coords, dims.len() as int) < prefix_product(dims, dims.len() as int),
        coords_of(dims, fortran_offset(dims, coords, dims.len() as int)) == coords,
    decreases dims.len(),
{
    let n = dims.len() as int;
    if n == 0 {
        assert(coords =~= Seq::<i64>::empty());
    } else {
        let d0 = dims[0] as int;
        let c0 = coords[0] as int;
        let rest = dims.drop_first();
        let cr = coords.drop_first();
        assert forall|j: int| 0 <= j < rest.len() implies 1 <= #[trigger] cr[j] <= rest[j] by {
            assert(cr[j] == coords[j + 1] && rest[j] == dims[j + 1]);
        }
        lemma_offset_coords(rest, cr);
        let f = fortran_offset(rest, cr, n - 1);
        let p = prefix_product(rest, n - 1);
        lemma_fortran_offset_front(dims, coords, n);
        lemma_prefix_product_front(dims, n);
        let off = (c0 - 1) + d0 * f;
        assert(fortran_offset(dims, coords, n) == off);
        assert(1 <= c0 <= d0);
        vstd::arithmetic::div_mod::lemma_fundamental_div_mod_converse(off, d0, f, c0 - 1);
        assert(0 <= off < d0 * p) by (nonlinear_arith)
            requires
                off == (c0 - 1) + d0 * f,
                0 <= f < p,
                1 <= c0 <= d0,
        ;
        assert(coords_of(dims, off) == seq![(off % d0 + 1) as i64] + coords_of(rest, off / d0));
        assert(coords_of(dims, off) =~= coords);
    }
}

/// Law: `tdim_coords` undoes `tdim_elem`: the element number of
/// coordinates on the axes of an array that `tdim_product` accepts lies in
/// `1 ..= product`, and its coordinates are those coordinates.
pub proof fn lemma_coords_of_elem(dims: Seq<i64>, coords: Seq<i64>)
    requires
        dims.len() > 0,
        coords.len() == dims.len(),
        product_fault(dims, 0) is None,
        forall|j: int| 0 <= j < dims.len() ==> 1 <= #[trigger] coords[j] <= dims[j],
    ensures
        elem_fault(dims, coords, 0) is None,
        1 <= fortran_offset(dims, coords, dims.len() as int) + 1 <= prefix_product(dims, dims.len() as int),
        coords_of(dims, fortran_offset(dims, coords, dims.len() as int)) == coords,
{
    lemma_product_fault_none(dims, 0);
    lemma_elem_fault_none(dims, coords, 0);
    lemma_offset_coords(dims, coords);
}

proof fn lemma_trim_none(s: Seq<char>)
    requires
        forall|k: int| 0 <= k < s.len() ==> !is_ws(#[trigger] s[k]),
    ensures
        trim_ws(s) == s,
{
}

/// Digits and commas, as characters.
pub open spec fn digit_or_comma(c: char) -> bool {
    ('0' <= c <= '9') || c == ','
}

proof fn lemma_join_chars(ds: Seq<i64>)
    requires
        forall|i: int| 0 <= i < ds.len() ==> #[trigger] ds[i] >= 0,
    ensures
        ds.len() >= 1 ==> join_dims(ds).len() >= 1,
        forall|k: int| 0 <= k < join_dims(ds).len() ==> digit_or_comma(#[trigger] latin1(join_dims(ds))[k]),
    decreases ds.len(),
{
    if ds.len() == 1 {
        crate::header::lemma_decimal_digits(ds[0]);
    } else if ds.len() > 1 {
        let dl = ds.drop_last();
        assert forall|i: int| 0 <= i < dl.len() implies #[trigger] dl[i] >= 0 by {
            assert(dl[i] == ds[i]);
        }
        lemma_join_chars(dl);
        crate::header::lemma_decimal_digits(ds.last());
        let a = join_dims(dl);
        let d = decimal_int(ds.last() as int);
        assert(join_dims(ds) == a + seq![44u8] + d);
        assert forall|k: int| 0 <= k < join_dims(ds).len() implies digit_or_comma(#[trigger] latin1(join_dims(ds))[k]) by {
            if k < a.len() {
                assert(latin1(join_dims(ds))[k] == latin1(a)[k]);
            } else if k > a.len() {
                assert(join_dims(ds)[k] == d[k - a.len() - 1]);
            }
        }
    }
}

proof fn lemma_join_front(ds: Seq<i64>)
    requires
        ds.len() >= 2,
    ensures
        join_dims(ds) == decimal_int(ds[0] as int) + seq![44u8] + join_dims(ds.drop_first()),
    decreases ds.len(),
{
    let dl = ds.drop_last();
    if ds.len() == 2 {
        assert(join_dims(dl) == decimal_int(ds[0] as int));
        assert(join_dims(ds.drop_first()) == decimal_int(ds[1] as int));
    } else {
        lemma_join_front(dl);
        assert(dl.drop_first() =~= ds.drop_first().drop_last());
        assert(ds.drop_first().last() == ds.last());
        assert(join_dims(ds.drop_first()) == join_dims(ds.drop_first().drop_last()) + seq![44u8] + decimal_int(
            ds.last() as int,
        ));
        assert(join_dims(ds) =~= decimal_int(ds[0] as int) + seq![44u8] + join_dims(ds.drop_first()));
    }
}

proof fn lemma_decode_join(ds: Seq<i64>)
    requires
        ds.len() >= 1,
        forall|i: int| 0 <= i < ds.len() ==> #[trigger] ds[i] >= 0,
    ensures
        decode_parts(latin1(join_dims(ds))) == Ok::<Seq<i64>, TdimFault>(ds),
    decreases ds.len(),
{
    let inner = latin1(join_dims(ds));
    lemma_find_char(inner, ',');
    crate::header::lemma_decimal_digits(ds[0]);
    crate::header::lemma_decimal_int_chars(ds[0]);
    let d0 = latin1(decimal_int(ds[0] as int));
    if ds.len() == 1 {
        assert(inner == d0);
        assert(find_char(inner, ',') is None) by {
            if let Some(k) = find_char(inner, ',') {
                assert(inner[k] == d0[k]);
            }
        }
        assert(parse_i64(trim_ws(inner)) == Some(ds[0]));
        assert(decode_parts(inner) == Ok::<Seq<i64>, TdimFault>(seq![ds[0]]));
        assert(seq![ds[0]] =~= ds);
    } else {
        let rest = ds.drop_first();
        assert forall|i: int| 0 <= i < rest.len() implies #[trigger] rest[i] >= 0 by {
            assert(rest[i] == ds[i + 1]);
        }
        lemma_join_front(ds);
        lemma_decode_join(rest);
        let m = d0.len() as int;
        assert(inner =~= d0 + seq![','] + latin1(join_dims(rest)));
        assert(inner[m] == ',');
        assert(find_char(inner, ',') == Some(m)) by {
            if let Some(k) = find_char(inner, ',') {
                if k < m {
                    assert(inner[k] == d0[k]);
                }
                if k > m {
                    assert(inner[m] != ',');
                }
            }
        }
        assert(inner.subrange(0, m) =~= d0);
        assert(inner.subrange(m + 1, inner.len() as int) =~= latin1(join_dims(rest)));
        assert(parse_i64(trim_ws(inner.subrange(0, m))) == Some(ds[0]));
        assert(decode_parts(inner) == Ok::<Seq<i64>, TdimFault>(seq![ds[0]] + rest));
        assert(seq![ds[0]] + rest =~= ds);
    }
}

/// Law: `decode_tdim` reads what `format_tdim` writes: the `TDIMn` text of
/// non-negative axis lengths decodes to those lengths.
pub proof fn lemma_tdim_text_roundtrip(ds: Seq<i64>)
    requires
        ds.len() >= 1,
        forall|i: int| 0 <= i < ds.len() ==> #[trigger] ds[i] >= 0,
    ensures
        decode_tdim_of(latin1(tdim_text(ds))) == Ok::<Seq<i64>, TdimFault>(ds),
{
    lemma_join_chars(ds);
    lemma_decode_join(ds);
    let j = latin1(join_dims(ds));
    let t = latin1(tdim_text(ds));
    assert(t =~= seq!['('] + j + seq![')']);
    assert forall|k: int| 0 <= k < t.len() implies !is_ws(#[trigger] t[k]) by {
        if 0 < k < t.len() - 1 {
            assert(t[k] == j[k - 1]);
            assert(digit_or_comma(j[k - 1]));
        }
    }
    lemma_trim_none(t);
    let rest = t.drop_first();
    assert(rest =~= j + seq![')']);
    lemma_rfind_char(rest, ')');
    assert(rfind_char(rest, ')') == Some(rest.len() - 1));
    assert(rest.subrange(0, rest.len() - 1) =~= j);
    assert forall|k: int| 0 <= k < j.len() implies !is_ws(#[trigger] j[k]) by {
        assert(digit_or_comma(j[k]));
    }
    lemma_trim_none(j);
}

} // verus!
