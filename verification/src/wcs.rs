//! The projection code of a celestial `CTYPEn` keyword value.
use vstd::prelude::*;
use vstd::string::StringSliceAdditionalSpecFns;
use vstd::utf8::*;
use crate::error::FitsError;
use crate::status::BAD_WCS_PROJ;
use crate::tdim::{trim_bounds, trim_ws};
use crate::text::{chars_of, push_char, to_upper, upper};

verus! {

/// The three projection letters of trimmed `CTYPEn` bytes, upper-cased:
/// those after a leading `-`, else the last three; `None` when fewer than
/// three remain.
pub open spec fn proj_code_of(t: Seq<u8>) -> Option<Seq<u8>> {
    let start: int = if t.len() > 0 && t[0] == 45 {
        1
    } else if t.len() >= 3 {
        t.len() - 3
    } else {
        0
    };
    let from = if start < t.len() {
        start
    } else {
        t.len() as int
    };
    if t.len() - from < 3 {
        None
    } else {
        Some(seq![to_upper(t[from]), to_upper(t[from + 1]), to_upper(t[from + 2])])
    }
}

/// Projection code of a `CTYPEn` value, its surrounding whitespace ignored
/// (`BAD_WCS_PROJ` when it has fewer than three letters to give).
pub fn proj_code(ctype: &str) -> (r: Result<[u8; 3], FitsError>)
    ensures
        match proj_code_of(encode_utf8(trim_ws(ctype@))) {
            Some(c) => r matches Ok(a) && a@ == c,
            None => r matches Err(e) && e.status == BAD_WCS_PROJ && e.message_list().len() == 0,
        },
{
    let v = chars_of(ctype);
    let (a, b) = trim_bounds(&v, 0, v.len());
    assert(v@.subrange(0, v@.len() as int) =~= ctype@);
    let mut t = String::new();
    let mut k: usize = a;
    while k < b
        invariant
            a <= k <= b <= v@.len(),
            t@ == v@.subrange(a as int, k as int),
        decreases b - k,
    {
        push_char(&mut t, v[k]);
        assert(v@.subrange(a as int, k + 1) =~= v@.subrange(a as int, k as int).push(v@[k as int]));
        k += 1;
    }
    let bytes = t.as_str().as_bytes();
    assert(bytes@ == encode_utf8(trim_ws(ctype@)));
    let len = bytes.len();
    let start: usize = if len > 0 && bytes[0] == 45 {
        1
    } else if len >= 3 {
        len - 3
    } else {
        0
    };
    let from = if start < len {
        start
    } else {
        len
    };
    if len - from < 3 {
        return Err(FitsError::new(BAD_WCS_PROJ));
    }
    let r = [upper(bytes[from]), upper(bytes[from + 1]), upper(bytes[from + 2])];
    assert(r@ =~= seq![to_upper(bytes@[from as int]), to_upper(bytes@[from + 1]), to_upper(bytes@[from + 2])]);
    Ok(r)
}

} // verus!
