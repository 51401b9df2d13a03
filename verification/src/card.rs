//! 80-byte FITS header cards: parse, format, classify.
//!
//! Formatting follows CFITSIO `ffmkky`, parsing follows `ffpsvc`, keyword
//! classification follows `ffgkcl`. All of it works on the bytes of the
//! card text.
use vstd::prelude::*;
use vstd::string::StringSliceAdditionalSpecFns;
use vstd::utf8::*;
use crate::error::FitsError;
use crate::status::{BAD_KEYCHAR, NO_QUOTE};
use crate::text::{
    ascii_bytes, copy_range, count_leading_spaces, find_byte, leading_spaces, owned_utf8,
    position_of, push_lit, push_range, push_spaces, spaces, str_from_utf8, trim_end,
    trim_end_len, utf8_or_empty, ascii_digit, lemma_trim_end_valid, lemma_ascii_delimited_valid, lemma_leading_spaces_prefix, latin1, string_of_bytes, decimal_nat, format_hex, format_u64, has_lit, hex_nat, is_digit, is_upper,
    lit_at, push_char, to_upper, upper,
};
use crate::types::{
    KeyClass,
    TYP_CKSUM_KEY, TYP_CMPRS_KEY, TYP_COMM_KEY, TYP_CONT_KEY, TYP_DIM_KEY, TYP_DISP_KEY,
    TYP_HDUID_KEY, TYP_NULL_KEY, TYP_RANG_KEY, TYP_REFSYS_KEY, TYP_SCAL_KEY, TYP_STRUC_KEY,
    TYP_UNIT_KEY, TYP_USER_KEY, TYP_WCS_KEY,
};

verus! {


/// A byte allowed in a FITS keyword name.
pub open spec fn legal_key_char(b: u8) -> bool {
    is_upper(b) || is_digit(b) || b == 45u8 || b == 95u8
}

/// `fftkey`: the first eight bytes of `k` hold keyword characters (upper-cased
/// first when `allow_lower`), possibly followed by spaces, and no keyword
/// character comes after a space.
pub open spec fn keyword_ok(k: Seq<u8>, allow_lower: bool) -> bool {
    let m = if k.len() < 8 { k.len() as int } else { 8 };
    forall|j: int| 0 <= j < m ==> #[trigger] key_byte_ok(k, j, allow_lower)
}

/// Byte `j` of a keyword is acceptable given the bytes before it.
pub open spec fn key_byte_ok(k: Seq<u8>, j: int, allow_lower: bool) -> bool {
    let t = if allow_lower { to_upper(k[j]) } else { k[j] };
    &&& (k[j] == 32u8 || legal_key_char(t))
    &&& (legal_key_char(t) ==> forall|i: int| 0 <= i < j ==> k[i] != 32u8)
}

/// Keyword-character test.
fn legal_key_byte(b: u8) -> (r: bool)
    ensures
        r == legal_key_char(b),
{
    (65 <= b && b <= 90) || (48 <= b && b <= 57) || b == 45u8 || b == 95u8
}

/// Keyword test on raw bytes; `allow_lower` upper-cases each byte first.
pub fn keyword_bytes_ok(keyword: &[u8], allow_lower: bool) -> (r: bool)
    ensures
        r == keyword_ok(keyword@, allow_lower),
{
    let maxchr = if keyword.len() < 8 { keyword.len() } else { 8 };
    let mut spaces = false;
    let mut j: usize = 0;
    while j < maxchr
        invariant
            maxchr == (if keyword@.len() < 8 { keyword@.len() as int } else { 8 }),
            j <= maxchr,
            spaces == exists|i: int| 0 <= i < j && keyword@[i] == 32u8,
            forall|jj: int| 0 <= jj < j ==> #[trigger] key_byte_ok(keyword@, jj, allow_lower),
        decreases maxchr - j,
    {
        let raw = keyword[j];
        let test = if allow_lower { upper(raw) } else { raw };
        let legal = legal_key_byte(test);
        if legal && spaces {
            assert(!key_byte_ok(keyword@, j as int, allow_lower));
            return false;
        } else if raw == 32u8 {
            spaces = true;
        } else if !legal {
            assert(!key_byte_ok(keyword@, j as int, allow_lower));
            return false;
        }
        j += 1;
    }
    true
}

/// `fits_test_keyword` / `fftkey`.
pub fn test_keyword(keyword: &str) -> (r: Result<(), FitsError>)
    ensures
        r is Ok <==> keyword_ok(keyword.spec_bytes(), false),
        r matches Err(e) ==> e.status == BAD_KEYCHAR && e.message_list().len() == 0,
{
    if keyword_bytes_ok(keyword.as_bytes(), false) {
        Ok(())
    } else {
        Err(FitsError::new(BAD_KEYCHAR))
    }
}

/// The message `fftrec` reports for an illegal byte `b` at 0-based index `i`.
pub open spec fn illegal_char_message(i: nat, b: u8) -> Seq<char> {
    "Character "@ + latin1(decimal_nat(i + 1)) + " in this keyword is illegal. Hex Value = "@
        + latin1(hex_nat(b as nat))
}

/// Index of the first byte from position 8 on that is not printable ASCII.
pub open spec fn first_unprintable(s: Seq<u8>, from: int) -> Option<int>
    decreases s.len() - from,
{
    if from >= s.len() {
        None
    } else if !(32 <= s[from] <= 126) {
        Some(from)
    } else {
        first_unprintable(s, from + 1)
    }
}

/// `fits_test_record` / `fftrec`: bytes 9–end must be printable ASCII.
pub fn test_record(card: &str) -> (r: Result<(), FitsError>)
    ensures
        r is Ok <==> first_unprintable(card.spec_bytes(), 8) is None,
        r matches Err(e) ==> e.status == BAD_KEYCHAR && ({
            let i = first_unprintable(card.spec_bytes(), 8)->0;
            e.message_list() == seq![illegal_char_message(i as nat, card.spec_bytes()[i])]
        }),
{
    let b = card.as_bytes();
    let mut i: usize = 8;
    while i < b.len()
        invariant
            b@ == card.spec_bytes(),
            8 <= i,
            first_unprintable(b@, 8) == first_unprintable(b@, i as int),
        decreases b.len() - i,
    {
        let x = b[i];
        if !(32 <= x && x <= 126) {
            let mut msg = String::from_str("Character ");
            let num = format_u64(i as u64 + 1);
            let numstr = string_of_bytes(num.as_slice());
            msg.append(numstr.as_str());
            msg.append(" in this keyword is illegal. Hex Value = ");
            let hex = format_hex(x as u64);
            let hexstr = string_of_bytes(hex.as_slice());
            msg.append(hexstr.as_str());
            let mut e = FitsError::new(BAD_KEYCHAR);
            e.push_message(msg.as_str());
            assert(e.message_list() =~= seq![illegal_char_message(i as nat, b@[i as int])]);
            return Err(e);
        }
        i += 1;
    }
    Ok(())
}

/// The upper-cased, space-padded first eight bytes of a card.
pub open spec fn name8_upper(t: Seq<u8>) -> Seq<u8> {
    Seq::new(8, |i: int| if i < t.len() { to_upper(t[i]) } else { 32u8 })
}

/// `T…` names that CFITSIO classes as WCS keywords.
pub open spec fn wcs_t_key(c: Seq<u8>) -> bool {
    (lit_at(c, 1, "CTYP"@) && is_digit(c[5])) || (lit_at(c, 1, "CTY"@) && is_digit(c[4])) || (lit_at(c, 1, "CUNI"@) && is_digit(c[5])) || (lit_at(c, 1, "CUN"@) && is_digit(c[4])) || (lit_at(c, 1, "CRVL"@) && is_digit(c[5])) || (lit_at(c, 1, "CRV"@) && is_digit(c[4])) || (lit_at(c, 1, "CRPX"@) && is_digit(c[5])) || (lit_at(c, 1, "CRP"@) && is_digit(c[4])) || (lit_at(c, 1, "CROT"@) && is_digit(c[5])) || (lit_at(c, 1, "CDLT"@) && is_digit(c[5])) || (lit_at(c, 1, "CDE"@) && is_digit(c[4])) || (lit_at(c, 1, "CRD"@) && is_digit(c[4])) || (lit_at(c, 1, "CSY"@) && is_digit(c[4])) || (lit_at(c, 1, "WCS"@) && is_digit(c[4])) || (lit_at(c, 1, "C"@) && is_digit(c[2])) || (lit_at(c, 1, "P"@) && is_digit(c[2])) || (lit_at(c, 1, "V"@) && is_digit(c[2])) || (lit_at(c, 1, "S"@) && is_digit(c[2]))
}

/// Digit-led names that CFITSIO classes as WCS keywords.
pub open spec fn wcs_digit_key(c: Seq<u8>) -> bool {
    if c[1] == 67u8 { (lit_at(c, 1, "CTYP"@) && is_digit(c[5])) || (lit_at(c, 1, "CTY"@) && is_digit(c[4])) || (lit_at(c, 1, "CUNI"@) && is_digit(c[5])) || (lit_at(c, 1, "CUN"@) && is_digit(c[4])) || (lit_at(c, 1, "CRVL"@) && is_digit(c[5])) || (lit_at(c, 1, "CRV"@) && is_digit(c[4])) || (lit_at(c, 1, "CRPX"@) && is_digit(c[5])) || (lit_at(c, 1, "CRP"@) && is_digit(c[4])) || (lit_at(c, 1, "CROT"@) && is_digit(c[5])) || (lit_at(c, 1, "CDLT"@) && is_digit(c[5])) || (lit_at(c, 1, "CDE"@) && is_digit(c[4])) || (lit_at(c, 1, "CRD"@) && is_digit(c[4])) || (lit_at(c, 1, "CSY"@) && is_digit(c[4])) } else if lit_at(c, 1, "V"@) && is_digit(c[2]) { true } else if lit_at(c, 1, "S"@) && is_digit(c[2]) { true } else if is_digit(c[1]) { (c[2] == 80u8 && c[3] == 67u8 && is_digit(c[4])) || (c[2] == 67u8 && c[3] == 68u8 && is_digit(c[4])) } else { false }
}

/// CFITSIO keyword class (`ffgkcl`) of a card from its first eight
/// (upper-cased) bytes, with the few full-card exceptions it tests.
pub open spec fn key_class_of(t: Seq<u8>) -> i32 {
    let c = name8_upper(t);
    if c[0] == 90u8 {
        if lit_at(c, 1, "IMAGE  "@) || lit_at(c, 1, "CMPTYPE"@) || (lit_at(c, 1, "NAME"@) && is_digit(c[5])) || (lit_at(c, 1, "VAL"@) && is_digit(c[4])) || (lit_at(c, 1, "TILE"@) && is_digit(c[5])) || lit_at(c, 1, "BITPIX "@) || (lit_at(c, 1, "NAXIS"@) && (is_digit(c[6]) || c[6] == 32u8)) || lit_at(c, 1, "SCALE  "@) || lit_at(c, 1, "ZERO   "@) || lit_at(c, 1, "BLANK  "@) || lit_at(c, 1, "SIMPLE "@) || lit_at(c, 1, "TENSION"@) || lit_at(c, 1, "EXTEND "@) || lit_at(c, 1, "BLOCKED"@) || lit_at(c, 1, "PCOUNT "@) || lit_at(c, 1, "GCOUNT "@) || lit_at(c, 1, "QUANTIZ"@) || lit_at(c, 1, "DITHER0"@) {
            TYP_CMPRS_KEY
        } else {
            TYP_USER_KEY
        }
    } else if c[0] == 32u8 {
        TYP_COMM_KEY
    } else if c[0] == 66u8 {
        if lit_at(c, 1, "ITPIX  "@) || lit_at(c, 1, "LOCKED "@) {
            TYP_STRUC_KEY
        } else if lit_at(c, 1, "LANK   "@) {
            TYP_NULL_KEY
        } else if lit_at(c, 1, "SCALE  "@) || lit_at(c, 1, "ZERO   "@) {
            TYP_SCAL_KEY
        } else if lit_at(c, 1, "UNIT   "@) {
            TYP_UNIT_KEY
        } else {
            TYP_USER_KEY
        }
    } else if c[0] == 67u8 {
        if lit_at(c, 1, "OMMENT"@) {
            if lit_at(t, 0, "COMMENT   and Astrophysics', volume 376, page 3"@) || lit_at(t, 0, "COMMENT   FITS (Flexible Image Transport System"@) || lit_at(t, 0, "COMMENT   Astrophysics Supplement Series v44/p3"@) || lit_at(t, 0, "COMMENT   Contact the NASA Science Office of St"@) || lit_at(t, 0, "COMMENT   FITS Definition document #100 and oth"@) {
                TYP_STRUC_KEY
            } else if c[7] == 32u8 {
                TYP_COMM_KEY
            } else {
                TYP_USER_KEY
            }
        } else if lit_at(c, 1, "HECKSUM"@) {
            TYP_CKSUM_KEY
        } else if lit_at(c, 1, "ONTINUE"@) {
            TYP_CONT_KEY
        } else if lit_at(c, 1, "TYPE"@) && is_digit(c[5]) || lit_at(c, 1, "UNIT"@) && is_digit(c[5]) || lit_at(c, 1, "RVAL"@) && is_digit(c[5]) || lit_at(c, 1, "RPIX"@) && is_digit(c[5]) || lit_at(c, 1, "ROTA"@) && is_digit(c[5]) || lit_at(c, 1, "RDER"@) && is_digit(c[5]) || lit_at(c, 1, "SYER"@) && is_digit(c[5]) || lit_at(c, 1, "DELT"@) && is_digit(c[5]) || (c[1] == 68u8 && is_digit(c[2])) {
            TYP_WCS_KEY
        } else {
            TYP_USER_KEY
        }
    } else if c[0] == 68u8 {
        if lit_at(c, 1, "ATASUM "@) {
            TYP_CKSUM_KEY
        } else if lit_at(c, 1, "ATAMIN "@) || lit_at(c, 1, "ATAMAX "@) {
            TYP_RANG_KEY
        } else if lit_at(c, 1, "ATE-OBS"@) {
            TYP_REFSYS_KEY
        } else {
            TYP_USER_KEY
        }
    } else if c[0] == 69u8 {
        if lit_at(c, 1, "XTEND  "@) || lit_at(c, 1, "ND     "@) {
            TYP_STRUC_KEY
        } else if lit_at(c, 1, "XTNAME "@) {
            if lit_at(t, 0, "EXTNAME = 'COMPRESSED_IMAGE'"@) {
                TYP_CMPRS_KEY
            } else {
                TYP_HDUID_KEY
            }
        } else if lit_at(c, 1, "XTVER  "@) || lit_at(c, 1, "XTLEVEL"@) {
            TYP_HDUID_KEY
        } else if lit_at(c, 1, "QUINOX"@) || (lit_at(c, 1, "QUI"@) && is_digit(c[4])) || lit_at(c, 1, "POCH   "@) {
            TYP_REFSYS_KEY
        } else {
            TYP_USER_KEY
        }
    } else if c[0] == 71u8 {
        if lit_at(c, 1, "COUNT  "@) || lit_at(c, 1, "ROUPS  "@) {
            TYP_STRUC_KEY
        } else {
            TYP_USER_KEY
        }
    } else if c[0] == 72u8 {
        if lit_at(c, 1, "DUNAME "@) || lit_at(c, 1, "DUVER  "@) || lit_at(c, 1, "DULEVEL"@) {
            TYP_HDUID_KEY
        } else if lit_at(c, 1, "ISTORY"@) {
            if c[7] == 32u8 {
                TYP_COMM_KEY
            } else {
                TYP_USER_KEY
            }
        } else {
            TYP_USER_KEY
        }
    } else if c[0] == 76u8 {
        if lit_at(c, 1, "ONPOLE"@) || lit_at(c, 1, "ATPOLE"@) || (lit_at(c, 1, "ONP"@) && is_digit(c[4])) || (lit_at(c, 1, "ATP"@) && is_digit(c[4])) {
            TYP_WCS_KEY
        } else {
            TYP_USER_KEY
        }
    } else if c[0] == 77u8 {
        if lit_at(c, 1, "JD-OBS "@) || (lit_at(c, 1, "JDOB"@) && is_digit(c[5])) {
            TYP_REFSYS_KEY
        } else {
            TYP_USER_KEY
        }
    } else if c[0] == 78u8 {
        if lit_at(c, 1, "AXIS"@) && (is_digit(c[5]) || c[5] == 32u8) {
            TYP_STRUC_KEY
        } else {
            TYP_USER_KEY
        }
    } else if c[0] == 80u8 {
        if lit_at(c, 1, "COUNT  "@) {
            TYP_STRUC_KEY
        } else if (c[1] == 67u8 || c[1] == 86u8 || c[1] == 83u8) && is_digit(c[2]) {
            TYP_WCS_KEY
        } else {
            TYP_USER_KEY
        }
    } else if c[0] == 82u8 {
        if lit_at(c, 1, "ADECSYS"@) || lit_at(c, 1, "ADESYS"@) || (lit_at(c, 1, "ADE"@) && is_digit(c[4])) {
            TYP_REFSYS_KEY
        } else {
            TYP_USER_KEY
        }
    } else if c[0] == 83u8 {
        if lit_at(c, 1, "IMPLE  "@) {
            TYP_STRUC_KEY
        } else {
            TYP_USER_KEY
        }
    } else if c[0] == 84u8 {
        if (lit_at(c, 1, "TYPE"@) && is_digit(c[5])) || (lit_at(c, 1, "FORM"@) && is_digit(c[5])) || (lit_at(c, 1, "BCOL"@) && is_digit(c[5])) || lit_at(c, 1, "FIELDS "@) || lit_at(c, 1, "HEAP   "@) {
            TYP_STRUC_KEY
        } else if lit_at(c, 1, "NULL"@) && is_digit(c[5]) {
            TYP_NULL_KEY
        } else if lit_at(c, 1, "DIM"@) && is_digit(c[4]) {
            TYP_DIM_KEY
        } else if lit_at(c, 1, "UNIT"@) && is_digit(c[5]) {
            TYP_UNIT_KEY
        } else if lit_at(c, 1, "DISP"@) && is_digit(c[5]) {
            TYP_DISP_KEY
        } else if (lit_at(c, 1, "SCAL"@) && is_digit(c[5])) || (lit_at(c, 1, "ZERO"@) && is_digit(c[5])) {
            TYP_SCAL_KEY
        } else if (lit_at(c, 1, "LMIN"@) && is_digit(c[5])) || (lit_at(c, 1, "LMAX"@) && is_digit(c[5])) || (lit_at(c, 1, "DMIN"@) && is_digit(c[5])) || (lit_at(c, 1, "DMAX"@) && is_digit(c[5])) {
            TYP_RANG_KEY
        } else if wcs_t_key(c) {
            TYP_WCS_KEY
        } else {
            TYP_USER_KEY
        }
    } else if c[0] == 88u8 {
        if lit_at(c, 1, "TENSION"@) {
            TYP_STRUC_KEY
        } else {
            TYP_USER_KEY
        }
    } else if c[0] == 87u8 {
        if lit_at(c, 1, "CSAXES"@) || lit_at(c, 1, "CSNAME"@) || (lit_at(c, 1, "CAX"@) && is_digit(c[4])) || (lit_at(c, 1, "CSN"@) && is_digit(c[4])) {
            TYP_WCS_KEY
        } else {
            TYP_USER_KEY
        }
    } else if is_digit(c[0]) {
        if wcs_digit_key(c) {
            TYP_WCS_KEY
        } else {
            TYP_USER_KEY
        }
    } else {
        TYP_USER_KEY
    }
}

fn wcs_t_keyword(cs: &[u8]) -> (r: bool)
    requires
        cs@.len() == 8,
    ensures
        r == wcs_t_key(cs@),
{
    (has_lit(cs, 1, "CTYP") && ascii_digit(cs[5])) || (has_lit(cs, 1, "CTY") && ascii_digit(cs[4])) || (has_lit(cs, 1, "CUNI") && ascii_digit(cs[5])) || (has_lit(cs, 1, "CUN") && ascii_digit(cs[4])) || (has_lit(cs, 1, "CRVL") && ascii_digit(cs[5])) || (has_lit(cs, 1, "CRV") && ascii_digit(cs[4])) || (has_lit(cs, 1, "CRPX") && ascii_digit(cs[5])) || (has_lit(cs, 1, "CRP") && ascii_digit(cs[4])) || (has_lit(cs, 1, "CROT") && ascii_digit(cs[5])) || (has_lit(cs, 1, "CDLT") && ascii_digit(cs[5])) || (has_lit(cs, 1, "CDE") && ascii_digit(cs[4])) || (has_lit(cs, 1, "CRD") && ascii_digit(cs[4])) || (has_lit(cs, 1, "CSY") && ascii_digit(cs[4])) || (has_lit(cs, 1, "WCS") && ascii_digit(cs[4])) || (has_lit(cs, 1, "C") && ascii_digit(cs[2])) || (has_lit(cs, 1, "P") && ascii_digit(cs[2])) || (has_lit(cs, 1, "V") && ascii_digit(cs[2])) || (has_lit(cs, 1, "S") && ascii_digit(cs[2]))
}

fn wcs_digit_keyword(cs: &[u8]) -> (r: bool)
    requires
        cs@.len() == 8,
    ensures
        r == wcs_digit_key(cs@),
{
    if cs[1] == 67u8 { (has_lit(cs, 1, "CTYP") && ascii_digit(cs[5])) || (has_lit(cs, 1, "CTY") && ascii_digit(cs[4])) || (has_lit(cs, 1, "CUNI") && ascii_digit(cs[5])) || (has_lit(cs, 1, "CUN") && ascii_digit(cs[4])) || (has_lit(cs, 1, "CRVL") && ascii_digit(cs[5])) || (has_lit(cs, 1, "CRV") && ascii_digit(cs[4])) || (has_lit(cs, 1, "CRPX") && ascii_digit(cs[5])) || (has_lit(cs, 1, "CRP") && ascii_digit(cs[4])) || (has_lit(cs, 1, "CROT") && ascii_digit(cs[5])) || (has_lit(cs, 1, "CDLT") && ascii_digit(cs[5])) || (has_lit(cs, 1, "CDE") && ascii_digit(cs[4])) || (has_lit(cs, 1, "CRD") && ascii_digit(cs[4])) || (has_lit(cs, 1, "CSY") && ascii_digit(cs[4])) } else if has_lit(cs, 1, "V") && ascii_digit(cs[2]) { true } else if has_lit(cs, 1, "S") && ascii_digit(cs[2]) { true } else if ascii_digit(cs[1]) { (cs[2] == 80u8 && cs[3] == 67u8 && ascii_digit(cs[4])) || (cs[2] == 67u8 && cs[3] == 68u8 && ascii_digit(cs[4])) } else { false }
}

/// `fits_get_keyclass` / `ffgkcl` integer code.
pub fn key_class_code(t: &[u8]) -> (r: i32)
    ensures
        r == key_class_of(t@),
{
    let mut c8: Vec<u8> = Vec::new();
    let mut i: usize = 0;
    while i < 8
        invariant
            i <= 8,
            c8@.len() == i,
            forall|k: int| 0 <= k < i ==> c8@[k] == name8_upper(t@)[k],
        decreases 8 - i,
    {
        if i < t.len() {
            c8.push(upper(t[i]));
        } else {
            c8.push(32u8);
        }
        i += 1;
    }
    assert(c8@ =~= name8_upper(t@));
    let cs = c8.as_slice();
    let ghost c = cs@;
    if cs[0] == 90u8 {
        if has_lit(cs, 1, "IMAGE  ") || has_lit(cs, 1, "CMPTYPE") || (has_lit(cs, 1, "NAME") && ascii_digit(cs[5])) || (has_lit(cs, 1, "VAL") && ascii_digit(cs[4])) || (has_lit(cs, 1, "TILE") && ascii_digit(cs[5])) || has_lit(cs, 1, "BITPIX ") || (has_lit(cs, 1, "NAXIS") && (ascii_digit(cs[6]) || cs[6] == 32u8)) || has_lit(cs, 1, "SCALE  ") || has_lit(cs, 1, "ZERO   ") || has_lit(cs, 1, "BLANK  ") || has_lit(cs, 1, "SIMPLE ") || has_lit(cs, 1, "TENSION") || has_lit(cs, 1, "EXTEND ") || has_lit(cs, 1, "BLOCKED") || has_lit(cs, 1, "PCOUNT ") || has_lit(cs, 1, "GCOUNT ") || has_lit(cs, 1, "QUANTIZ") || has_lit(cs, 1, "DITHER0") {
            TYP_CMPRS_KEY
        } else {
            TYP_USER_KEY
        }
    } else if cs[0] == 32u8 {
        TYP_COMM_KEY
    } else if cs[0] == 66u8 {
        if has_lit(cs, 1, "ITPIX  ") || has_lit(cs, 1, "LOCKED ") {
            TYP_STRUC_KEY
        } else if has_lit(cs, 1, "LANK   ") {
            TYP_NULL_KEY
        } else if has_lit(cs, 1, "SCALE  ") || has_lit(cs, 1, "ZERO   ") {
            TYP_SCAL_KEY
        } else if has_lit(cs, 1, "UNIT   ") {
            TYP_UNIT_KEY
        } else {
            TYP_USER_KEY
        }
    } else if cs[0] == 67u8 {
        if has_lit(cs, 1, "OMMENT") {
            if has_lit(t, 0, "COMMENT   and Astrophysics', volume 376, page 3") || has_lit(t, 0, "COMMENT   FITS (Flexible Image Transport System") || has_lit(t, 0, "COMMENT   Astrophysics Supplement Series v44/p3") || has_lit(t, 0, "COMMENT   Contact the NASA Science Office of St") || has_lit(t, 0, "COMMENT   FITS Definition document #100 and oth") {
                TYP_STRUC_KEY
            } else if cs[7] == 32u8 {
                TYP_COMM_KEY
            } else {
                TYP_USER_KEY
            }
        } else if has_lit(cs, 1, "HECKSUM") {
            TYP_CKSUM_KEY
        } else if has_lit(cs, 1, "ONTINUE") {
            TYP_CONT_KEY
        } else if has_lit(cs, 1, "TYPE") && ascii_digit(cs[5]) || has_lit(cs, 1, "UNIT") && ascii_digit(cs[5]) || has_lit(cs, 1, "RVAL") && ascii_digit(cs[5]) || has_lit(cs, 1, "RPIX") && ascii_digit(cs[5]) || has_lit(cs, 1, "ROTA") && ascii_digit(cs[5]) || has_lit(cs, 1, "RDER") && ascii_digit(cs[5]) || has_lit(cs, 1, "SYER") && ascii_digit(cs[5]) || has_lit(cs, 1, "DELT") && ascii_digit(cs[5]) || (cs[1] == 68u8 && ascii_digit(cs[2])) {
            TYP_WCS_KEY
        } else {
            TYP_USER_KEY
        }
    } else if cs[0] == 68u8 {
        if has_lit(cs, 1, "ATASUM ") {
            TYP_CKSUM_KEY
        } else if has_lit(cs, 1, "ATAMIN ") || has_lit(cs, 1, "ATAMAX ") {
            TYP_RANG_KEY
        } else if has_lit(cs, 1, "ATE-OBS") {
            TYP_REFSYS_KEY
        } else {
            TYP_USER_KEY
        }
    } else if cs[0] == 69u8 {
        if has_lit(cs, 1, "XTEND  ") || has_lit(cs, 1, "ND     ") {
            TYP_STRUC_KEY
        } else if has_lit(cs, 1, "XTNAME ") {
            if has_lit(t, 0, "EXTNAME = 'COMPRESSED_IMAGE'") {
                TYP_CMPRS_KEY
            } else {
                TYP_HDUID_KEY
            }
        } else if has_lit(cs, 1, "XTVER  ") || has_lit(cs, 1, "XTLEVEL") {
            TYP_HDUID_KEY
        } else if has_lit(cs, 1, "QUINOX") || (has_lit(cs, 1, "QUI") && ascii_digit(cs[4])) || has_lit(cs, 1, "POCH   ") {
            TYP_REFSYS_KEY
        } else {
            TYP_USER_KEY
        }
    } else if cs[0] == 71u8 {
        if has_lit(cs, 1, "COUNT  ") || has_lit(cs, 1, "ROUPS  ") {
            TYP_STRUC_KEY
        } else {
            TYP_USER_KEY
        }
    } else if cs[0] == 72u8 {
        if has_lit(cs, 1, "DUNAME ") || has_lit(cs, 1, "DUVER  ") || has_lit(cs, 1, "DULEVEL") {
            TYP_HDUID_KEY
        } else if has_lit(cs, 1, "ISTORY") {
            if cs[7] == 32u8 {
                TYP_COMM_KEY
            } else {
                TYP_USER_KEY
            }
        } else {
            TYP_USER_KEY
        }
    } else if cs[0] == 76u8 {
        if has_lit(cs, 1, "ONPOLE") || has_lit(cs, 1, "ATPOLE") || (has_lit(cs, 1, "ONP") && ascii_digit(cs[4])) || (has_lit(cs, 1, "ATP") && ascii_digit(cs[4])) {
            TYP_WCS_KEY
        } else {
            TYP_USER_KEY
        }
    } else if cs[0] == 77u8 {
        if has_lit(cs, 1, "JD-OBS ") || (has_lit(cs, 1, "JDOB") && ascii_digit(cs[5])) {
            TYP_REFSYS_KEY
        } else {
            TYP_USER_KEY
        }
    } else if cs[0] == 78u8 {
        if has_lit(cs, 1, "AXIS") && (ascii_digit(cs[5]) || cs[5] == 32u8) {
            TYP_STRUC_KEY
        } else {
            TYP_USER_KEY
        }
    } else if cs[0] == 80u8 {
        if has_lit(cs, 1, "COUNT  ") {
            TYP_STRUC_KEY
        } else if (cs[1] == 67u8 || cs[1] == 86u8 || cs[1] == 83u8) && ascii_digit(cs[2]) {
            TYP_WCS_KEY
        } else {
            TYP_USER_KEY
        }
    } else if cs[0] == 82u8 {
        if has_lit(cs, 1, "ADECSYS") || has_lit(cs, 1, "ADESYS") || (has_lit(cs, 1, "ADE") && ascii_digit(cs[4])) {
            TYP_REFSYS_KEY
        } else {
            TYP_USER_KEY
        }
    } else if cs[0] == 83u8 {
        if has_lit(cs, 1, "IMPLE  ") {
            TYP_STRUC_KEY
        } else {
            TYP_USER_KEY
        }
    } else if cs[0] == 84u8 {
        if (has_lit(cs, 1, "TYPE") && ascii_digit(cs[5])) || (has_lit(cs, 1, "FORM") && ascii_digit(cs[5])) || (has_lit(cs, 1, "BCOL") && ascii_digit(cs[5])) || has_lit(cs, 1, "FIELDS ") || has_lit(cs, 1, "HEAP   ") {
            TYP_STRUC_KEY
        } else if has_lit(cs, 1, "NULL") && ascii_digit(cs[5]) {
            TYP_NULL_KEY
        } else if has_lit(cs, 1, "DIM") && ascii_digit(cs[4]) {
            TYP_DIM_KEY
        } else if has_lit(cs, 1, "UNIT") && ascii_digit(cs[5]) {
            TYP_UNIT_KEY
        } else if has_lit(cs, 1, "DISP") && ascii_digit(cs[5]) {
            TYP_DISP_KEY
        } else if (has_lit(cs, 1, "SCAL") && ascii_digit(cs[5])) || (has_lit(cs, 1, "ZERO") && ascii_digit(cs[5])) {
            TYP_SCAL_KEY
        } else if (has_lit(cs, 1, "LMIN") && ascii_digit(cs[5])) || (has_lit(cs, 1, "LMAX") && ascii_digit(cs[5])) || (has_lit(cs, 1, "DMIN") && ascii_digit(cs[5])) || (has_lit(cs, 1, "DMAX") && ascii_digit(cs[5])) {
            TYP_RANG_KEY
        } else if wcs_t_keyword(cs) {
            TYP_WCS_KEY
        } else {
            TYP_USER_KEY
        }
    } else if cs[0] == 88u8 {
        if has_lit(cs, 1, "TENSION") {
            TYP_STRUC_KEY
        } else {
            TYP_USER_KEY
        }
    } else if cs[0] == 87u8 {
        if has_lit(cs, 1, "CSAXES") || has_lit(cs, 1, "CSNAME") || (has_lit(cs, 1, "CAX") && ascii_digit(cs[4])) || (has_lit(cs, 1, "CSN") && ascii_digit(cs[4])) {
            TYP_WCS_KEY
        } else {
            TYP_USER_KEY
        }
    } else if ascii_digit(cs[0]) {
        if wcs_digit_keyword(cs) {
            TYP_WCS_KEY
        } else {
            TYP_USER_KEY
        }
    } else {
        TYP_USER_KEY
    }
}

/// Why `ffmkky` refuses to build a card.
#[derive(Debug, Clone, Copy, PartialEq, Eq)]
pub enum MakeKeyFault {
    /// The keyword name holds `=`.
    EqualsInName,
    /// The name does not fit on a card even as a `HIERARCH` keyword.
    NameTooLong,
    /// Name plus value do not fit on a card.
    ValueTooLong,
}

/// The stack message `ffmkky` writes for each refusal.
pub open spec fn make_key_message(f: MakeKeyFault) -> Seq<char> {
    match f {
        MakeKeyFault::EqualsInName => "Illegal keyword name; contains an equals sign (=)"@,
        MakeKeyFault::NameTooLong => "The following keyword is too long to fit on a card:"@,
        MakeKeyFault::ValueTooLong => "The following keyword + value is too long to fit on a card:"@,
    }
}

/// The keyword name `ffmkky` uses: leading spaces dropped, at most 74 bytes
/// kept, trailing spaces dropped.
pub open spec fn make_key_name(key: Seq<u8>) -> Seq<u8> {
    let rest = key.subrange(leading_spaces(key) as int, key.len() as int);
    let cut = if rest.len() > 74 { rest.subrange(0, 74) } else { rest };
    trim_end(cut)
}

/// `" = "`, or `"= "` when the value would not fit after the longer form.
pub open spec fn equals_sep(card_len: int, vlen: int) -> Seq<u8> {
    if card_len + 3 + vlen > 80 {
        ascii_bytes("= "@)
    } else {
        ascii_bytes(" = "@)
    }
}

/// Name and equals sign: an 8-column name for a standard keyword, otherwise a
/// `HIERARCH` name.
pub open spec fn make_key_prefix(tmp: Seq<u8>, vlen: int) -> Result<Seq<u8>, MakeKeyFault> {
    let name = utf8_or_empty(tmp);
    if tmp.len() <= 8 && keyword_ok(tmp, true) {
        Ok(name + spaces((8 - tmp.len()) as nat) + ascii_bytes("= "@))
    } else if lit_at(tmp, 0, "HIERARCH "@) || lit_at(tmp, 0, "hierarch "@) {
        Ok(name + equals_sep(name.len() as int, vlen))
    } else if tmp.len() > 69 {
        Err(MakeKeyFault::NameTooLong)
    } else {
        let c = ascii_bytes("HIERARCH "@) + name;
        Ok(c + equals_sep(c.len() as int, vlen))
    }
}

/// Appends ` / comment`, cut to end at column 77, when there is room.
pub open spec fn with_comment(card: Seq<u8>, len: int, comm: Option<Seq<u8>>) -> Seq<u8> {
    match comm {
        Some(c) => if len < 77 && c.len() > 0 {
            let n = if c.len() < 77 - len { c.len() as int } else { 77 - len };
            card + ascii_bytes(" / "@) + c.subrange(0, n)
        } else {
            card
        },
        None => card,
    }
}

/// The card text `ffmkky` builds for a name, a formatted value and a comment.
/// Quoted values are left-aligned from column 11 and cut at column 80; other
/// values end at column 30 (or later when longer).
pub open spec fn make_key_card(key: Seq<u8>, value: Seq<u8>, comm: Option<Seq<u8>>) -> Result<
    Seq<u8>,
    MakeKeyFault,
> {
    let tmp = make_key_name(key);
    let vlen = value.len() as int;
    if find_byte(tmp, 61u8) is Some {
        Err(MakeKeyFault::EqualsInName)
    } else {
        match make_key_prefix(tmp, vlen) {
            Err(f) => Err(f),
            Ok(prefix) => {
                let plen = prefix.len() as int;
                if vlen > 0 {
                    if value[0] == 39u8 {
                        if plen > 77 {
                            Err(MakeKeyFault::ValueTooLong)
                        } else {
                            let n = if vlen < 80 - plen { vlen } else { 80 - plen };
                            let c1 = prefix + value.subrange(0, n);
                            let len1 = if plen + vlen < 80 { plen + vlen } else { 80 };
                            let c2 = if len1 == 80 { utf8_or_empty(c1.update(79, 39u8)) } else { c1 };
                            let has_comm = comm is Some && comm->0.len() > 0;
                            if has_comm && len1 < 30 {
                                Ok(with_comment(c2 + spaces((30 - len1) as nat), 30, comm))
                            } else {
                                Ok(with_comment(c2, len1, comm))
                            }
                        }
                    } else if plen + vlen > 80 {
                        Err(MakeKeyFault::ValueTooLong)
                    } else {
                        let c1 = if plen + vlen < 30 {
                            prefix + spaces((30 - plen - vlen) as nat)
                        } else {
                            prefix
                        };
                        let len = if plen + vlen < 30 { 30 } else { plen + vlen };
                        Ok(with_comment(c1 + value, len, comm))
                    }
                } else if plen == 10 {
                    let c1 = utf8_or_empty(prefix.update(8, 32u8));
                    match comm {
                        Some(c) => {
                            let n = if c.len() < 70 { c.len() as int } else { 70 };
                            Ok(c1 + c.subrange(0, n))
                        },
                        None => Ok(c1),
                    }
                } else {
                    Ok(prefix)
                }
            },
        }
    }
}

/// The bytes of an optional string.
pub open spec fn opt_bytes(o: Option<&str>) -> Option<Seq<u8>> {
    match o {
        Some(s) => Some(s.spec_bytes()),
        None => None,
    }
}

/// The bytes of an optional byte slice.
pub open spec fn opt_seq(o: Option<&[u8]>) -> Option<Seq<u8>> {
    match o {
        Some(s) => Some(s@),
        None => None,
    }
}

/// Is the byte string valid UTF-8?
fn is_utf8(b: &[u8]) -> (r: bool)
    ensures
        r == valid_utf8(b@),
{
    str_from_utf8(b).is_some()
}

/// Keep `v` only if it is valid UTF-8.
fn keep_if_utf8(v: Vec<u8>) -> (r: Vec<u8>)
    ensures
        r@ == utf8_or_empty(v@),
{
    if is_utf8(v.as_slice()) {
        v
    } else {
        Vec::new()
    }
}

fn append_comment(card: &mut Vec<u8>, len: usize, comm: Option<&[u8]>)
    ensures
        final(card)@ == with_comment(old(card)@, len as int, opt_seq(comm)),
{
    if let Some(c) = comm {
        if len < 77 && c.len() > 0 {
            push_lit(card, " / ");
            let n = if c.len() < 77 - len { c.len() } else { 77 - len };
            push_range(card, c, 0, n);
        }
    }
}

fn make_key_prefix_exec(tmp: &[u8], vlen: usize) -> (r: Result<Vec<u8>, MakeKeyFault>)
    ensures
        match make_key_prefix(tmp@, vlen as int) {
            Ok(p) => r matches Ok(v) && v@ == p,
            Err(f) => r == Err::<Vec<u8>, MakeKeyFault>(f),
        },
{
    let mut name: Vec<u8> = Vec::new();
    if is_utf8(tmp) {
        push_range(&mut name, tmp, 0, tmp.len());
        assert(name@ =~= tmp@);
    }
    assert(name@ == utf8_or_empty(tmp@));
    if tmp.len() <= 8 && keyword_bytes_ok(tmp, true) {
        push_spaces(&mut name, 8 - tmp.len());
        push_lit(&mut name, "= ");
        Ok(name)
    } else if has_lit(tmp, 0, "HIERARCH ") || has_lit(tmp, 0, "hierarch ") {
        if name.len() > 77 || vlen > 77 - name.len() {
            push_lit(&mut name, "= ");
        } else {
            push_lit(&mut name, " = ");
        }
        Ok(name)
    } else if tmp.len() > 69 {
        Err(MakeKeyFault::NameTooLong)
    } else {
        let mut card: Vec<u8> = Vec::new();
        push_lit(&mut card, "HIERARCH ");
        push_range(&mut card, name.as_slice(), 0, name.len());
        assert(name@.subrange(0, name@.len() as int) =~= name@);
        if card.len() > 77 || vlen > 77 - card.len() {
            push_lit(&mut card, "= ");
        } else {
            push_lit(&mut card, " = ");
        }
        Ok(card)
    }
}

/// The stack message of a refusal.
fn make_key_error(f: MakeKeyFault) -> (e: FitsError)
    ensures
        e.status == BAD_KEYCHAR,
        e.message_list() == seq![make_key_message(f)],
{
    match f {
        MakeKeyFault::EqualsInName => FitsError::with_message(
            BAD_KEYCHAR,
            "Illegal keyword name; contains an equals sign (=)",
        ),
        MakeKeyFault::NameTooLong => FitsError::with_message(
            BAD_KEYCHAR,
            "The following keyword is too long to fit on a card:",
        ),
        MakeKeyFault::ValueTooLong => FitsError::with_message(
            BAD_KEYCHAR,
            "The following keyword + value is too long to fit on a card:",
        ),
    }
}

/// `ffmkky` on byte strings: the card text for a name, a pre-formatted value
/// and an optional comment (not padded to 80 bytes).
pub fn make_card_bytes(keyname: &[u8], value: &[u8], comm: Option<&[u8]>) -> (r: Result<
    Vec<u8>,
    FitsError,
>)
    ensures
        match make_key_card(keyname@, value@, opt_seq(comm)) {
            Ok(b) => r matches Ok(v) && v@ == b,
            Err(f) => r matches Err(e) && e.status == BAD_KEYCHAR && e.message_list() == seq![
                make_key_message(f),
            ],
        },
{
    let nblank = count_leading_spaces(keyname);
    let end0 = if keyname.len() - nblank > 74 { nblank + 74 } else { keyname.len() };
    let cut = copy_range(keyname, nblank, end0);
    proof {
        let rest = keyname@.subrange(nblank as int, keyname@.len() as int);
        if rest.len() > 74 {
            assert(cut@ =~= rest.subrange(0, 74));
        } else {
            assert(cut@ =~= rest);
        }
    }
    let tl = trim_end_len(cut.as_slice());
    let tmp = copy_range(cut.as_slice(), 0, tl);
    assert(tmp@ == make_key_name(keyname@));
    if position_of(tmp.as_slice(), 61u8).is_some() {
        return Err(make_key_error(MakeKeyFault::EqualsInName));
    }
    let vlen = value.len();
    let prefix = match make_key_prefix_exec(tmp.as_slice(), vlen) {
        Ok(p) => p,
        Err(f) => {
            return Err(make_key_error(f));
        },
    };
    let plen = prefix.len();
    let mut card = prefix;
    if vlen > 0 {
        if value[0] == 39u8 {
            if plen > 77 {
                return Err(make_key_error(MakeKeyFault::ValueTooLong));
            }
            let room = 80 - plen;
            let n = if vlen < room { vlen } else { room };
            push_range(&mut card, value, 0, n);
            let mut len = if vlen < 80 && plen < 80 - vlen { plen + vlen } else { 80 };
            if len == 80 {
                card.set(79, 39u8);
                card = keep_if_utf8(card);
            }
            let has_comm = match comm {
                Some(c) => c.len() > 0,
                None => false,
            };
            if has_comm && len < 30 {
                push_spaces(&mut card, 30 - len);
                len = 30;
            }
            append_comment(&mut card, len, comm);
        } else {
            if plen > 80 || vlen > 80 - plen {
                return Err(make_key_error(MakeKeyFault::ValueTooLong));
            }
            if plen + vlen < 30 {
                push_spaces(&mut card, 30 - (plen + vlen));
            }
            let room = 80 - card.len();
            let n = if vlen < room { vlen } else { room };
            push_range(&mut card, value, 0, n);
            assert(value@.subrange(0, n as int) =~= value@);
            let len = if plen + vlen < 30 { 30 } else { plen + vlen };
            append_comment(&mut card, len, comm);
        }
    } else if plen == 10 {
        card.set(8, 32u8);
        card = keep_if_utf8(card);
        if let Some(c) = comm {
            let n = if c.len() < 70 { c.len() } else { 70 };
            push_range(&mut card, c, 0, n);
        }
    }
    Ok(card)
}

/// `fits_make_key` / `ffmkky`: assemble name + value + comment.
///
/// The returned string is not padded to 80 bytes (as in CFITSIO).
pub fn make_card_string(keyname: &str, value: &str, comm: Option<&str>) -> (r: Result<
    String,
    FitsError,
>)
    ensures
        match make_key_card(keyname.spec_bytes(), value.spec_bytes(), opt_bytes(comm)) {
            Ok(b) => r matches Ok(s) && encode_utf8(s@) == utf8_or_empty(b),
            Err(f) => r matches Err(e) && e.status == BAD_KEYCHAR && e.message_list() == seq![
                make_key_message(f),
            ],
        },
{
    let c = match comm {
        Some(t) => Some(t.as_bytes()),
        None => None,
    };
    match make_card_bytes(keyname.as_bytes(), value.as_bytes(), c) {
        Ok(v) => Ok(owned_utf8(v)),
        Err(e) => Err(e),
    }
}

/// `fits_make_key` / `ffmkky`.
pub fn fits_make_key(name: &str, value: &str, comm: Option<&str>) -> (r: Result<
    String,
    FitsError,
>)
    ensures
        match make_key_card(name.spec_bytes(), value.spec_bytes(), opt_bytes(comm)) {
            Ok(b) => r matches Ok(s) && encode_utf8(s@) == utf8_or_empty(b),
            Err(f) => r matches Err(e) && e.status == BAD_KEYCHAR && e.message_list() == seq![
                make_key_message(f),
            ],
        },
{
    make_card_string(name, value, comm)
}

/// Why `ffpsvc` refuses a card.
#[derive(Debug, Clone, Copy, PartialEq, Eq)]
pub enum ParseFault {
    /// The card text is longer than 80 bytes.
    TooLong,
    /// A complex value has no `)` within the value field.
    NoCloseParen,
}

/// Status of each `ffpsvc` refusal.
pub open spec fn parse_fault_status(f: ParseFault) -> i32 {
    match f {
        ParseFault::TooLong => BAD_KEYCHAR,
        ParseFault::NoCloseParen => NO_QUOTE,
    }
}

/// Stack message of each `ffpsvc` refusal.
pub open spec fn parse_fault_message(f: ParseFault) -> Seq<char> {
    match f {
        ParseFault::TooLong => "The card string starting with the chars below is too long:"@,
        ParseFault::NoCloseParen => "This complex keyword value has no closing ')' within range:"@,
    }
}

/// Bytes 9.. of a card with trailing spaces removed (the comment of a
/// card without a value).
pub open spec fn comment_from_col9(b: Seq<u8>) -> Seq<u8> {
    if b.len() > 8 {
        trim_end(b.subrange(8, b.len() as int))
    } else {
        Seq::empty()
    }
}

/// Where the value field starts, or `None` for a card without a value
/// (commentary keywords, blank names, no `=`).
pub open spec fn value_start(b: Seq<u8>) -> Option<int> {
    if lit_at(b, 0, "HIERARCH "@) {
        match find_byte(b, 61u8) {
            Some(p) => Some(p + 1),
            None => None,
        }
    } else if b.len() < 9 || lit_at(b, 0, "COMMENT "@) || lit_at(b, 0, "HISTORY "@) || lit_at(
        b,
        0,
        "END     "@,
    ) || lit_at(b, 0, "CONTINUE"@) || lit_at(b, 0, "        "@) {
        None
    } else if b.len() >= 10 && b[8] == 61u8 && b[9] == 32u8 {
        Some(10)
    } else {
        match find_byte(b, 61u8) {
            Some(p) => Some(p + 1),
            None => None,
        }
    }
}

/// Scan of a quoted string: returns the text so far, the stopping index, the
/// character count `jj` and whether the closing quote was found.
pub open spec fn quoted_scan(b: Seq<u8>, ii: int, jj: int, acc: Seq<u8>) -> (Seq<u8>, int, int, bool)
    decreases b.len() - ii,
{
    if 0 <= ii < b.len() && jj < 70 {
        if b[ii] == 39u8 {
            if ii + 1 < b.len() && b[ii + 1] == 39u8 {
                let acc1 = acc.push(39u8);
                let acc2 = if jj + 1 < 70 { acc1.push(b[ii + 1]) } else { acc1 };
                quoted_scan(b, ii + 2, jj + 2, acc2)
            } else {
                (acc.push(39u8), ii, jj, true)
            }
        } else {
            quoted_scan(b, ii + 1, jj + 1, acc.push(b[ii]))
        }
    } else {
        (acc, ii, jj, false)
    }
}

/// A quoted value starting at `start` (the opening quote): the value with its
/// quotes (doubled quotes kept, closed at 69 characters if unterminated or
/// too long) and the index just after it.
pub open spec fn quoted_value(b: Seq<u8>, start: int) -> (Seq<u8>, int) {
    let (acc, ii, jj, closed) = quoted_scan(b, start + 1, 1, seq![39u8]);
    if closed {
        (utf8_or_empty(acc), ii + 1)
    } else {
        let j = if jj < 69 { jj } else { 69 };
        let keep = if j < acc.len() { j } else { acc.len() as int };
        (utf8_or_empty(acc.subrange(0, keep).push(39u8)), ii)
    }
}

/// Index of the first space or `/` in `s` (its length if none).
pub open spec fn find_stop(s: Seq<u8>) -> int
    decreases s.len(),
{
    if s.len() == 0 {
        0
    } else if s[0] == 32u8 || s[0] == 47u8 {
        0
    } else {
        1 + find_stop(s.drop_first())
    }
}

/// The value token at `ii` and the index after it.
pub open spec fn value_token(b: Seq<u8>, ii: int) -> Result<(Seq<u8>, int), ParseFault> {
    let rest = b.subrange(ii, b.len() as int);
    if b[ii] == 47u8 {
        Ok((Seq::empty(), ii + 1))
    } else if b[ii] == 39u8 {
        Ok(quoted_value(b, ii))
    } else if b[ii] == 40u8 {
        match find_byte(rest, 41u8) {
            None => Err(ParseFault::NoCloseParen),
            Some(c) => if c >= 70 {
                Err(ParseFault::NoCloseParen)
            } else {
                Ok((utf8_or_empty(b.subrange(ii, ii + c + 1)), ii + c + 1))
            },
        }
    } else {
        let stop = find_stop(rest);
        let n = if stop < 70 { stop } else { 70 };
        Ok((utf8_or_empty(b.subrange(ii, ii + n)), ii + n))
    }
}

/// The comment that follows the value, starting the search at `next`.
pub open spec fn trailing_comment(b: Seq<u8>, next: int) -> Seq<u8> {
    let ii = next + leading_spaces(b.subrange(next, b.len() as int));
    if ii < 80 && ii < b.len() {
        let ii2 = if b[ii] == 47u8 {
            if ii + 1 < b.len() && b[ii + 1] == 32u8 {
                ii + 2
            } else {
                ii + 1
            }
        } else {
            ii
        };
        if ii2 < b.len() {
            let take = if b.len() - ii2 < 72 { b.len() - ii2 } else { 72 };
            trim_end(b.subrange(ii2, ii2 + take))
        } else {
            Seq::empty()
        }
    } else {
        Seq::empty()
    }
}

/// `ffpsvc`: the value string and the comment of a card.
pub open spec fn parse_value_of(b: Seq<u8>) -> Result<(Seq<u8>, Seq<u8>), ParseFault> {
    if b.len() >= 81 {
        Err(ParseFault::TooLong)
    } else {
        match value_start(b) {
            None => Ok((Seq::empty(), comment_from_col9(b))),
            Some(valpos) => {
                let nb = leading_spaces(b.subrange(valpos, b.len() as int));
                if nb + valpos == b.len() {
                    Ok((Seq::empty(), Seq::empty()))
                } else {
                    match value_token(b, valpos + nb) {
                        Err(f) => Err(f),
                        Ok((v, next)) => Ok((v, trailing_comment(b, next))),
                    }
                }
            },
        }
    }
}

/// Quoted-string scan.
fn parse_quoted(b: &[u8], start: usize) -> (r: (Vec<u8>, usize))
    requires
        start < b@.len(),
        b@.len() < 81,
    ensures
        r.0@ == quoted_value(b@, start as int).0,
        r.1 as int == quoted_value(b@, start as int).1,
        r.1 <= b@.len(),
{
    let cardlen = b.len();
    let mut value: Vec<u8> = Vec::new();
    value.push(39u8);
    let mut ii = start + 1;
    let mut jj: usize = 1;
    let ghost init = value@;
    let mut closed = false;
    while ii < cardlen && jj < 70
        invariant_except_break
            quoted_scan(b@, ii as int, jj as int, value@) == quoted_scan(b@, start + 1, 1, init),
            !closed,
        invariant
            cardlen == b@.len(),
            cardlen < 81,
            ii <= cardlen,
            1 <= jj <= 72,
            init == seq![39u8],
        ensures
            closed ==> quoted_scan(b@, start + 1, 1, init) == (value@, ii as int, jj as int, true),
            !closed ==> quoted_scan(b@, start + 1, 1, init) == (value@, ii as int, jj as int, false),
            !closed ==> (ii >= cardlen || jj >= 70),
            closed ==> ii < cardlen,
        decreases cardlen - ii,
    {
        if b[ii] == 39u8 {
            if ii + 1 < cardlen && b[ii + 1] == 39u8 {
                value.push(39u8);
                ii += 1;
                jj += 1;
            } else {
                value.push(39u8);
                closed = true;
                break;
            }
        }
        if jj < 70 {
            value.push(b[ii]);
        }
        ii += 1;
        jj += 1;
    }
    if !closed {
        let j = if jj < 69 { jj } else { 69 };
        let keep = if j < value.len() { j } else { value.len() };
        value.truncate(keep);
        value.push(39u8);
        (keep_if_utf8(value), ii)
    } else {
        (keep_if_utf8(value), ii + 1)
    }
}

fn find_stop_exec(b: &[u8], from: usize) -> (r: usize)
    requires
        from <= b@.len(),
    ensures
        r as int == from + find_stop(b@.subrange(from as int, b@.len() as int)),
        from <= r <= b@.len(),
{
    let mut k = from;
    while k < b.len() && b[k] != 32u8 && b[k] != 47u8
        invariant
            from <= k <= b@.len(),
            find_stop(b@.subrange(from as int, b@.len() as int)) == (k - from) + find_stop(
                b@.subrange(k as int, b@.len() as int),
            ),
        decreases b.len() - k,
    {
        assert(b@.subrange(k as int, b@.len() as int).drop_first() =~= b@.subrange(k + 1, b@.len() as int));
        k += 1;
    }
    k
}

/// Message and status of a parse refusal.
fn parse_error(f: ParseFault) -> (e: FitsError)
    ensures
        e.status == parse_fault_status(f),
        e.message_list() == seq![parse_fault_message(f)],
{
    match f {
        ParseFault::TooLong => FitsError::with_message(
            BAD_KEYCHAR,
            "The card string starting with the chars below is too long:",
        ),
        ParseFault::NoCloseParen => FitsError::with_message(
            NO_QUOTE,
            "This complex keyword value has no closing ')' within range:",
        ),
    }
}

/// `ffpsvc` on bytes: `(value, comment)` of a card.
pub fn parse_value_bytes(b: &[u8]) -> (r: Result<(Vec<u8>, Vec<u8>), FitsError>)
    ensures
        match parse_value_of(b@) {
            Ok((v, c)) => r matches Ok((rv, rc)) && rv@ == v && rc@ == c,
            Err(f) => r matches Err(e) && e.status == parse_fault_status(f) && e.message_list()
                == seq![parse_fault_message(f)],
        },
{
    let cardlen = b.len();
    if cardlen >= 81 {
        return Err(parse_error(ParseFault::TooLong));
    }
    let valpos: usize;
    if has_lit(b, 0, "HIERARCH ") {
        match position_of(b, 61u8) {
            Some(p) => {
                valpos = p + 1;
            },
            None => {
                return Ok((Vec::new(), comment_col9(b)));
            },
        }
    } else if cardlen < 9 || has_lit(b, 0, "COMMENT ") || has_lit(b, 0, "HISTORY ") || has_lit(
        b,
        0,
        "END     ",
    ) || has_lit(b, 0, "CONTINUE") || has_lit(b, 0, "        ") {
        return Ok((Vec::new(), comment_col9(b)));
    } else if cardlen >= 10 && b[8] == 61u8 && b[9] == 32u8 {
        valpos = 10;
    } else {
        match position_of(b, 61u8) {
            Some(p) => {
                valpos = p + 1;
            },
            None => {
                return Ok((Vec::new(), comment_col9(b)));
            },
        }
    }
    assert(value_start(b@) == Some(valpos as int));
    let nb = count_leading_spaces_from(b, valpos);
    if nb + valpos == cardlen {
        return Ok((Vec::new(), Vec::new()));
    }
    let ii = valpos + nb;
    let value: Vec<u8>;
    let next: usize;
    if b[ii] == 47u8 {
        value = Vec::new();
        next = ii + 1;
    } else if b[ii] == 39u8 {
        let (v, n) = parse_quoted(b, ii);
        value = v;
        next = n;
    } else if b[ii] == 40u8 {
        let rest = copy_range(b, ii, cardlen);
        match position_of(rest.as_slice(), 41u8) {
            None => {
                return Err(parse_error(ParseFault::NoCloseParen));
            },
            Some(c) => {
                if c >= 70 {
                    return Err(parse_error(ParseFault::NoCloseParen));
                }
                value = keep_if_utf8(copy_range(b, ii, ii + c + 1));
                next = ii + c + 1;
            },
        }
    } else {
        let stop = find_stop_exec(b, ii) - ii;
        let n = if stop < 70 { stop } else { 70 };
        value = keep_if_utf8(copy_range(b, ii, ii + n));
        next = ii + n;
    }
    assert(value_token(b@, ii as int) == Ok::<(Seq<u8>, int), ParseFault>((value@, next as int)));
    let comm = trailing_comment_exec(b, next);
    Ok((value, comm))
}

fn comment_col9(b: &[u8]) -> (r: Vec<u8>)
    ensures
        r@ == comment_from_col9(b@),
{
    if b.len() > 8 {
        let tail = copy_range(b, 8, b.len());
        let n = trim_end_len(tail.as_slice());
        copy_range(tail.as_slice(), 0, n)
    } else {
        Vec::new()
    }
}

fn count_leading_spaces_from(b: &[u8], from: usize) -> (r: usize)
    requires
        from <= b@.len(),
    ensures
        r == leading_spaces(b@.subrange(from as int, b@.len() as int)),
        from + r <= b@.len(),
{
    let tail = copy_range(b, from, b.len());
    count_leading_spaces(tail.as_slice())
}

fn trailing_comment_exec(b: &[u8], next: usize) -> (r: Vec<u8>)
    requires
        next <= b@.len(),
        b@.len() < 81,
    ensures
        r@ == trailing_comment(b@, next as int),
{
    let cardlen = b.len();
    let ii = next + count_leading_spaces_from(b, next);
    if ii < 80 && ii < cardlen {
        let mut ii2 = ii;
        if b[ii] == 47u8 {
            ii2 = ii + 1;
            if ii2 < cardlen && b[ii2] == 32u8 {
                ii2 += 1;
            }
        }
        if ii2 < cardlen {
            let take = if cardlen - ii2 < 72 { cardlen - ii2 } else { 72 };
            let piece = copy_range(b, ii2, ii2 + take);
            let n = trim_end_len(piece.as_slice());
            return copy_range(piece.as_slice(), 0, n);
        }
    }
    Vec::new()
}

/// `fits_parse_value` / `ffpsvc`: `(value, comment)` of a card.
pub fn parse_value_comment(card: &str) -> (r: Result<(String, String), FitsError>)
    ensures
        match parse_value_of(card.spec_bytes()) {
            Ok((v, c)) => r matches Ok((rv, rc)) && encode_utf8(rv@) == utf8_or_empty(v)
                && encode_utf8(rc@) == utf8_or_empty(c),
            Err(f) => r matches Err(e) && e.status == parse_fault_status(f) && e.message_list()
                == seq![parse_fault_message(f)],
        },
{
    match parse_value_bytes(card.as_bytes()) {
        Ok((v, c)) => Ok((owned_utf8(v), owned_utf8(c))),
        Err(e) => Err(e),
    }
}

/// `fits_parse_value` / `ffpsvc`.
pub fn fits_parse_value(card: &str) -> (r: Result<(String, String), FitsError>)
    ensures
        match parse_value_of(card.spec_bytes()) {
            Ok((v, c)) => r matches Ok((rv, rc)) && encode_utf8(rv@) == utf8_or_empty(v)
                && encode_utf8(rc@) == utf8_or_empty(c),
            Err(f) => r matches Err(e) && e.status == parse_fault_status(f) && e.message_list()
                == seq![parse_fault_message(f)],
        },
{
    parse_value_comment(card)
}

/// A card's bytes: the text, cut or space-padded to 80 bytes.
pub open spec fn pad_card(b: Seq<u8>) -> Seq<u8> {
    Seq::new(80, |i: int| if i < b.len() { b[i] } else { 32u8 })
}

/// An 80-byte FITS header card (space-padded, no trailing NUL).
#[derive(Clone, Copy, PartialEq, Eq, Hash, Debug)]
pub struct Card {
    bytes: [u8; 80],
}

impl View for Card {
    type V = Seq<u8>;

    closed spec fn view(&self) -> Seq<u8> {
        self.bytes@
    }
}

/// Every card holds exactly 80 bytes.
pub proof fn lemma_card_len(c: Card)
    ensures
        c@.len() == 80,
{
}

impl Card {
    /// Space-filled card.
    pub fn blank() -> (r: Card)
        ensures
            r@ == spaces(80),
    {
        let r = Card { bytes: [32u8; 80] };
        assert(r@ =~= spaces(80));
        r
    }

    /// Card holding `b`, cut or padded with spaces to 80 bytes.
    pub fn from_bytes(b: &[u8]) -> (r: Card)
        ensures
            r@ == pad_card(b@),
    {
        let mut bytes = [32u8; 80];
        let n = if b.len() < 80 { b.len() } else { 80 };
        let mut i: usize = 0;
        while i < n
            invariant
                n <= 80,
                n <= b@.len(),
                n == (if b@.len() < 80 { b@.len() as int } else { 80 }),
                i <= n,
                bytes@.len() == 80,
                forall|k: int| 0 <= k < i ==> bytes@[k] == b@[k],
                forall|k: int| n <= k < 80 ==> bytes@[k] == 32u8,
            decreases n - i,
        {
            bytes[i] = b[i];
            i += 1;
        }
        let r = Card { bytes };
        assert(r@ =~= pad_card(b@));
        r
    }

    /// Pad `text` to 80 bytes with spaces. Truncates if longer.
    pub fn from_text(text: &str) -> (r: Card)
        ensures
            r@ == pad_card(text.spec_bytes()),
    {
        Card::from_bytes(text.as_bytes())
    }

    /// Card from name, pre-formatted value and optional comment
    /// (`fits_make_key` / `ffmkky`, then padded).
    pub fn make(name: &str, value: &str, comment: Option<&str>) -> (r: Result<Card, FitsError>)
        ensures
            match make_key_card(name.spec_bytes(), value.spec_bytes(), opt_bytes(comment)) {
                Ok(b) => r matches Ok(c) && c@ == pad_card(utf8_or_empty(b)),
                Err(f) => r matches Err(e) && e.status == BAD_KEYCHAR && e.message_list() == seq![
                    make_key_message(f),
                ],
            },
    {
        let c = match comment {
            Some(t) => Some(t.as_bytes()),
            None => None,
        };
        match make_card_bytes(name.as_bytes(), value.as_bytes(), c) {
            Ok(v) => {
                let v2 = keep_if_utf8(v);
                Ok(Card::from_bytes(v2.as_slice()))
            },
            Err(e) => Err(e),
        }
    }

    /// Bytes of the on-disk card.
    pub fn as_bytes(&self) -> (r: &[u8; 80])
        ensures
            r@ == self@,
    {
        &self.bytes
    }

    /// The card as text, when its bytes are valid UTF-8.
    pub fn as_str(&self) -> (r: Option<&str>)
        ensures
            r is Some <==> valid_utf8(self@),
            r matches Some(s) ==> s.spec_bytes() == self@,
    {
        str_from_utf8(self.bytes.as_slice())
    }

    /// CFITSIO `ffmkky` form: trailing spaces stripped.
    pub fn to_cfitsio_string(&self) -> (r: String)
        ensures
            encode_utf8(r@) == trim_end(utf8_or_empty(self@)),
    {
        let b = keep_if_utf8(copy_range(self.bytes.as_slice(), 0, 80));
        assert(self.bytes@.subrange(0, 80) =~= self@);
        let n = trim_end_len(b.as_slice());
        let t = copy_range(b.as_slice(), 0, n);
        proof {
            if valid_utf8(self@) {
                lemma_trim_end_valid(self@);
            }
        }
        owned_utf8(t)
    }

    /// `fits_get_keyclass` / `ffgkcl`.
    pub fn class(&self) -> (r: KeyClass)
        ensures
            r == KeyClass::spec_from_code(key_class_of(self@)),
    {
        KeyClass::from_code(key_class_code(self.bytes.as_slice()))
    }

    /// `fits_parse_value` / `ffpsvc` on the card text (empty if not UTF-8).
    pub fn parse_value_comment(&self) -> (r: Result<(String, String), FitsError>)
        ensures
            match parse_value_of(utf8_or_empty(self@)) {
                Ok((v, c)) => r matches Ok((rv, rc)) && encode_utf8(rv@) == utf8_or_empty(v)
                    && encode_utf8(rc@) == utf8_or_empty(c),
                Err(f) => r matches Err(e) && e.status == parse_fault_status(f) && e.message_list()
                    == seq![parse_fault_message(f)],
            },
    {
        let b = keep_if_utf8(copy_range(self.bytes.as_slice(), 0, 80));
        assert(self.bytes@.subrange(0, 80) =~= self@);
        match parse_value_bytes(b.as_slice()) {
            Ok((v, c)) => Ok((owned_utf8(v), owned_utf8(c))),
            Err(e) => Err(e),
        }
    }
}

/// The first nine bytes of `b`, upper-cased.
pub open spec fn upper9(b: Seq<u8>) -> Seq<u8> {
    Seq::new(9, |i: int| to_upper(b[i]))
}

/// The card starts with `HIERARCH ` in any letter case.
pub open spec fn hierarch_ci(b: Seq<u8>) -> bool {
    b.len() >= 9 && lit_at(upper9(b), 0, "HIERARCH "@)
}

/// First byte index of a `HIERARCH` name: after `HIERARCH ` and any spaces.
pub open spec fn hierarch_name_start(b: Seq<u8>, eq: int) -> int {
    9 + leading_spaces(b.subrange(9, eq)) as int
}

/// Byte `ii` of `b`, or 0 past its end.
pub open spec fn byte_or_nul(b: Seq<u8>, ii: int) -> u8 {
    if 0 <= ii < b.len() {
        b[ii]
    } else {
        0u8
    }
}

/// End of a plain keyword name: the first space, `=` or end of text, within
/// 74 bytes.
pub open spec fn plain_name_end(b: Seq<u8>, ii: int) -> int
    decreases 74 - ii,
{
    if ii >= 74 {
        74
    } else {
        let c = byte_or_nul(b, ii);
        if c == 32u8 || c == 61u8 || c == 0u8 {
            ii
        } else {
            plain_name_end(b, ii + 1)
        }
    }
}

fn is_hierarch_ci(b: &[u8]) -> (r: bool)
    ensures
        r == hierarch_ci(b@),
{
    if b.len() < 9 {
        return false;
    }
    let mut u: Vec<u8> = Vec::new();
    let mut i: usize = 0;
    while i < 9
        invariant
            b@.len() >= 9,
            i <= 9,
            u@ =~= upper9(b@).subrange(0, i as int),
        decreases 9 - i,
    {
        u.push(upper(b[i]));
        i += 1;
    }
    assert(u@ =~= upper9(b@));
    has_lit(u.as_slice(), 0, "HIERARCH ")
}

/// `ffgknm` on bytes: `(name, length)`. A `HIERARCH` card gives the name
/// between `HIERARCH ` and `=` (the name is returned as bytes; `None` when
/// it is not valid UTF-8); other cards give the leading run of bytes before
/// a space, `=` or the end, up to 74 bytes.
fn keyword_name_hierarch(b: &[u8], eq: usize) -> (r: (Vec<u8>, usize))
    requires
        hierarch_ci(b@),
        find_byte(b@, 61u8) == Some(eq as int),
        eq < b@.len(),
        b@[eq as int] == 61u8,
    ensures
        9 <= hierarch_name_start(b@, eq as int) <= eq,
        r.0@ == trim_end(b@.subrange(hierarch_name_start(b@, eq as int), eq as int)),
        r.1 == r.0@.len(),
{
    proof {
        reveal_strlit("HIERARCH ");
        if eq < 9 {
            assert(upper9(b@)[eq as int] as u32 == "HIERARCH "@[eq as int] as u32);
            assert(false);
        }
    }
    let mut ptr1: usize = 9;
    while ptr1 < eq && b[ptr1] == 32u8
        invariant
            9 <= ptr1 <= eq,
            eq < b@.len(),
            leading_spaces(b@.subrange(9, eq as int)) == (ptr1 - 9) + leading_spaces(
                b@.subrange(ptr1 as int, eq as int),
            ),
        decreases eq - ptr1,
    {
        assert(b@.subrange(ptr1 as int, eq as int).drop_first() =~= b@.subrange(ptr1 + 1, eq as int));
        ptr1 += 1;
    }
    assert(ptr1 < eq ==> b@.subrange(ptr1 as int, eq as int)[0] != 32u8);
    let slice = copy_range(b, ptr1, eq);
    let n = trim_end_len(slice.as_slice());
    let name = copy_range(slice.as_slice(), 0, n);
    (name, n)
}

/// What `ffgknm` returns for card bytes `b`: for a `HIERARCH` card the
/// text between `HIERARCH ` (and any spaces) and the first `=`, trailing
/// spaces removed, or `HIERARCH` when there is no `=`; for any other card
/// the bytes before the first space, `=` or end, at most 74, one character
/// per byte. The length is the byte length of the name.
pub open spec fn keyword_name_result(b: Seq<u8>, name: Seq<char>, len: usize) -> bool {
    if hierarch_ci(b) {
        match find_byte(b, 61u8) {
            Some(eq) => encode_utf8(name) == trim_end(b.subrange(hierarch_name_start(b, eq), eq))
                && len == trim_end(b.subrange(hierarch_name_start(b, eq), eq)).len(),
            None => name == "HIERARCH"@ && len == 8,
        }
    } else {
        name == latin1(b.subrange(0, plain_name_end(b, 0))) && len == plain_name_end(b, 0)
    }
}

/// `fits_get_keyname` / `ffgknm`: the keyword name of a card and its length.
pub fn keyword_name(card: &str) -> (r: Result<(String, usize), FitsError>)
    ensures
        r matches Ok((name, len)) && keyword_name_result(card.spec_bytes(), name@, len),
{
    let b = card.as_bytes();
    proof {
        broadcast use encode_utf8_valid_utf8;
        assert(valid_utf8(b@));
    }
    if is_hierarch_ci(b) {
        match position_of(b, 61u8) {
            Some(eq) => {
                let (name, len) = keyword_name_hierarch(b, eq);
                proof {
                    let start = hierarch_name_start(b@, eq as int);
                    if start > 9 {
                        lemma_leading_spaces_prefix(b@.subrange(9, eq as int));
                        assert(b@[start - 1] == b@.subrange(9, eq as int)[start - 10]);
                    } else {
                        reveal_strlit("HIERARCH ");
                        assert(upper9(b@)[8] as u32 == "HIERARCH "@[8] as u32);
                    }
                    lemma_ascii_delimited_valid(b@, start, eq as int);
                    lemma_trim_end_valid(b@.subrange(start, eq as int));
                }
                let s = owned_utf8(name);
                Ok((s, len))
            },
            None => Ok((String::from_str("HIERARCH"), 8)),
        }
    } else {
        let mut name = String::new();
        let mut ii: usize = 0;
        while ii < 74
            invariant
                b@ == card.spec_bytes(),
                !hierarch_ci(b@),
                ii <= 74,
                plain_name_end(b@, 0) == plain_name_end(b@, ii as int),
                name@ == latin1(b@.subrange(0, ii as int)),
                ii > b@.len() ==> false,
            decreases 74 - ii,
        {
            let c = if ii < b.len() { b[ii] } else { 0u8 };
            if c != 32u8 && c != 61u8 && c != 0u8 {
                push_char(&mut name, c as char);
                assert(latin1(b@.subrange(0, ii + 1)) =~= latin1(b@.subrange(0, ii as int)).push(c as char));
            } else {
                return Ok((name, ii));
            }
            ii += 1;
        }
        Ok((name, 74))
    }
}

impl Card {
    /// `fits_get_keyname` / `ffgknm` on the card text (empty if not UTF-8).
    pub fn keyword_name(&self) -> (r: Result<(String, usize), FitsError>)
        ensures
            r matches Ok((name, len)) && keyword_name_result(utf8_or_empty(self@), name@, len),
    {
        let s = match self.as_str() {
            Some(t) => t,
            None => "",
        };
        proof {
            reveal_strlit("");
        }
        keyword_name(s)
    }
}

/// `fits_get_keyclass` / `ffgkcl`.
pub fn fits_get_keyclass(card: &str) -> (r: KeyClass)
    ensures
        r == KeyClass::spec_from_code(key_class_of(card.spec_bytes())),
{
    KeyClass::from_code(key_class_code(card.as_bytes()))
}

/// `fits_test_keyword` / `fftkey`.
pub fn fits_test_keyword(keyword: &str) -> (r: Result<(), FitsError>)
    ensures
        r is Ok <==> keyword_ok(keyword.spec_bytes(), false),
        r matches Err(e) ==> e.status == BAD_KEYCHAR && e.message_list().len() == 0,
{
    test_keyword(keyword)
}

/// `fits_get_keyname` / `ffgknm`.
pub fn fits_get_keyname(card: &str) -> (r: Result<(String, usize), FitsError>)
    ensures
        r matches Ok((name, len)) && keyword_name_result(card.spec_bytes(), name@, len),
{
    keyword_name(card)
}

/// `ffs2c` body: the first 68 bytes of `s`, each `'` doubled, while the
/// quoted text is shorter than 68 bytes.
pub open spec fn quoted_body(s: Seq<u8>, ii: int, acc: Seq<u8>) -> Seq<u8>
    decreases s.len() - ii,
{
    if ii < 0 || ii >= s.len() || ii >= 68 || 1 + acc.len() >= 69 {
        acc
    } else if s[ii] == 39u8 {
        quoted_body(s, ii + 1, acc.push(39u8).push(39u8))
    } else {
        quoted_body(s, ii + 1, acc.push(s[ii]))
    }
}

/// `ffs2c`: `s` as a quoted FITS string value, padded to at least 8
/// characters inside the quotes.
pub open spec fn quote_value(s: Seq<u8>) -> Seq<u8> {
    let body = quoted_body(s, 0, Seq::empty());
    if body.len() == 69 {
        seq![39u8] + body.subrange(0, 68)
    } else if body.len() < 8 {
        seq![39u8] + body + spaces((8 - body.len()) as nat) + seq![39u8]
    } else {
        seq![39u8] + body + seq![39u8]
    }
}

proof fn lemma_quoted_body_len(s: Seq<u8>, ii: int, acc: Seq<u8>)
    requires
        acc.len() <= 69,
    ensures
        quoted_body(s, ii, acc).len() <= 69,
        quoted_body(s, ii, acc).len() >= acc.len(),
    decreases s.len() - ii,
{
    if !(ii < 0 || ii >= s.len() || ii >= 68 || 1 + acc.len() >= 69) {
        if s[ii] == 39u8 {
            lemma_quoted_body_len(s, ii + 1, acc.push(39u8).push(39u8));
        } else {
            lemma_quoted_body_len(s, ii + 1, acc.push(s[ii]));
        }
    }
}

/// `quote_value` on bytes.
pub fn quote_value_bytes(s: &[u8]) -> (r: Vec<u8>)
    ensures
        r@ == quote_value(s@),
{
    let mut body: Vec<u8> = Vec::new();
    let mut ii: usize = 0;
    proof {
        lemma_quoted_body_len(s@, 0, Seq::empty());
    }
    while ii < s.len() && ii < 68 && 1 + body.len() < 69
        invariant
            ii <= s@.len(),
            body@.len() <= 69,
            quoted_body(s@, ii as int, body@) == quoted_body(s@, 0, Seq::empty()),
        decreases s.len() - ii,
    {
        if s[ii] == 39u8 {
            body.push(39u8);
            body.push(39u8);
        } else {
            body.push(s[ii]);
        }
        ii += 1;
    }
    proof {
        lemma_quoted_body_len(s@, 0, Seq::empty());
    }
    let mut out: Vec<u8> = Vec::new();
    out.push(39u8);
    if body.len() == 69 {
        push_range(&mut out, body.as_slice(), 0, 68);
        assert(out@ =~= quote_value(s@));
        return out;
    }
    push_range(&mut out, body.as_slice(), 0, body.len());
    if body.len() < 8 {
        push_spaces(&mut out, 8 - body.len());
    }
    out.push(39u8);
    assert(body@.subrange(0, body@.len() as int) =~= body@);
    assert(out@ =~= quote_value(s@));
    out
}

/// `ffs2c`: quote a string keyword value (`km/s` becomes `'km/s    '`,
/// `o'brian` becomes `'o''brian'`); empty when the cut text is not UTF-8.
pub fn format_string_value(value: &str) -> (r: String)
    ensures
        encode_utf8(r@) == utf8_or_empty(quote_value(value.spec_bytes())),
{
    owned_utf8(quote_value_bytes(value.as_bytes()))
}

/// The padded card `ffmkky` builds from byte strings.
#[verifier::opaque]
pub open spec fn key_card(name: Seq<u8>, value: Seq<u8>, comm: Option<Seq<u8>>) -> Result<
    Seq<u8>,
    MakeKeyFault,
> {
    match make_key_card(name, value, comm) {
        Ok(b) => Ok(pad_card(utf8_or_empty(b))),
        Err(f) => Err(f),
    }
}

impl Card {
    /// Card from a name, a formatted value and an optional comment, all
    /// given as bytes.
    pub fn from_parts(name: &[u8], value: &[u8], comm: Option<&[u8]>) -> (r: Result<
        Card,
        FitsError,
    >)
        ensures
            match key_card(name@, value@, opt_seq(comm)) {
                Ok(b) => r matches Ok(c) && c@ == b,
                Err(f) => r matches Err(e) && e.status == BAD_KEYCHAR && e.message_list() == seq![
                    make_key_message(f),
                ],
            },
    {
        proof {
            reveal(key_card);
        }
        match make_card_bytes(name, value, comm) {
            Ok(v) => {
                let v2 = keep_if_utf8(v);
                Ok(Card::from_bytes(v2.as_slice()))
            },
            Err(e) => Err(e),
        }
    }
}

// ---------------------------------------------------------------------
// A valued card reads back to what it was written with.
// ---------------------------------------------------------------------

/// Columns 1-8 of a card: the name, padded with spaces.
pub open spec fn name_field(name: Seq<u8>) -> Seq<u8> {
    name + spaces((8 - name.len()) as nat)
}

/// A keyword name `ffmkky` writes in columns 1-8: 1 to 8 upper-case
/// letters, digits, `-` or `_`, its field not one of the commentary names.
pub open spec fn plain_key_name(name: Seq<u8>) -> bool {
    &&& 1 <= name.len() <= 8
    &&& forall|k: int| 0 <= k < name.len() ==> #[trigger] legal_key_char(name[k])
    &&& !lit_at(name_field(name), 0, "COMMENT "@)
    &&& !lit_at(name_field(name), 0, "HISTORY "@)
    &&& !lit_at(name_field(name), 0, "END     "@)
    &&& !lit_at(name_field(name), 0, "CONTINUE"@)
}

/// A value `ffpsvc` reads as one token: 1 to 70 printable bytes without
/// spaces or `/`, not starting with a quote or `(`.
pub open spec fn plain_key_value(value: Seq<u8>) -> bool {
    &&& 1 <= value.len() <= 70
    &&& forall|k: int| 0 <= k < value.len() ==> 33 <= #[trigger] value[k] <= 126 && value[k] != 47u8
    &&& value[0] != 39u8
    &&& value[0] != 40u8
}

/// Printable ASCII text.
pub open spec fn printable_text(c: Seq<u8>) -> bool {
    forall|k: int| 0 <= k < c.len() ==> 32 <= #[trigger] c[k] <= 126
}

/// Column after a plain value of `vlen` bytes (values end at column 30 or
/// later).
pub open spec fn value_end(vlen: int) -> int {
    if vlen < 20 {
        30
    } else {
        10 + vlen
    }
}

/// Bytes of the comment a card has room for after a value ending at
/// column `len`.
pub open spec fn comment_room(c: Seq<u8>, len: int) -> int {
    if c.len() < 77 - len {
        c.len() as int
    } else {
        77 - len
    }
}

/// The comment `ffpsvc` reads back from a card written with a plain value
/// of `vlen` bytes: the comment as far as it fits before column 78, its
/// trailing spaces removed.
pub open spec fn card_comment(vlen: int, comm: Option<Seq<u8>>) -> Seq<u8> {
    let len = value_end(vlen);
    match comm {
        Some(c) => if len < 77 && c.len() > 0 {
            trim_end(c.subrange(0, comment_room(c, len)))
        } else {
            Seq::empty()
        },
        None => Seq::empty(),
    }
}

/// The text of a valued card before padding: name field, `= `, the value
/// ending at column 30 or later, then ` / ` and the comment where there is
/// room.
spec fn valued_text(name: Seq<u8>, value: Seq<u8>, comm: Option<Seq<u8>>) -> Seq<u8> {
    let len = value_end(value.len() as int);
    let body = name_field(name) + seq![61u8, 32u8] + spaces((len - 10 - value.len()) as nat) + value;
    match comm {
        Some(c) => if len < 77 && c.len() > 0 {
            body + seq![32u8, 47u8, 32u8] + c.subrange(0, comment_room(c, len))
        } else {
            body
        },
        None => body,
    }
}

proof fn lemma_ascii_valid(b: Seq<u8>)
    requires
        forall|k: int| 0 <= k < b.len() ==> #[trigger] b[k] < 128,
    ensures
        valid_utf8(b),
        utf8_or_empty(b) == b,
{
    assert(b.subrange(0, 0) =~= Seq::<u8>::empty());
    assert(valid_utf8(Seq::<u8>::empty()));
    assert forall|i: int| 0 <= 0 <= i < b.len() <= b.len() implies #[trigger] is_leading_byte_width_1(b[i]) by {
        assert(b[i] < 128);
    }
    partial_valid_utf8_extend_ascii_block(b, 0, b.len() as int);
    assert(b.subrange(0, b.len() as int) =~= b);
}

proof fn lemma_find_byte_none(s: Seq<u8>, x: u8)
    requires
        forall|k: int| 0 <= k < s.len() ==> #[trigger] s[k] != x,
    ensures
        find_byte(s, x) is None,
    decreases s.len(),
{
    if s.len() > 0 {
        assert forall|k: int| 0 <= k < s.drop_first().len() implies #[trigger] s.drop_first()[k] != x by {
            assert(s.drop_first()[k] == s[k + 1]);
        }
        lemma_find_byte_none(s.drop_first(), x);
    }
}

proof fn lemma_leading_spaces_exact(s: Seq<u8>, g: int)
    requires
        0 <= g <= s.len(),
        forall|k: int| 0 <= k < g ==> #[trigger] s[k] == 32u8,
        g < s.len() ==> s[g] != 32u8,
    ensures
        leading_spaces(s) == g,
    decreases g,
{
    if g > 0 {
        assert forall|k: int| 0 <= k < g - 1 implies #[trigger] s.drop_first()[k] == 32u8 by {
            assert(s.drop_first()[k] == s[k + 1]);
        }
        if g < s.len() {
            assert(s.drop_first()[g - 1] == s[g]);
        }
        lemma_leading_spaces_exact(s.drop_first(), g - 1);
    }
}

proof fn lemma_find_stop_exact(s: Seq<u8>, n: int)
    requires
        0 <= n <= s.len(),
        forall|k: int| 0 <= k < n ==> #[trigger] s[k] != 32u8 && s[k] != 47u8,
        n < s.len() ==> s[n] == 32u8,
    ensures
        find_stop(s) == n,
    decreases n,
{
    if n > 0 {
        assert forall|k: int| 0 <= k < n - 1 implies #[trigger] s.drop_first()[k] != 32u8 && s.drop_first()[k] != 47u8 by {
            assert(s.drop_first()[k] == s[k + 1]);
        }
        if n < s.len() {
            assert(s.drop_first()[n - 1] == s[n]);
        }
        lemma_find_stop_exact(s.drop_first(), n - 1);
    }
}

proof fn lemma_trim_end_spaces(x: Seq<u8>, k: nat)
    ensures
        trim_end(x + spaces(k)) == trim_end(x),
    decreases k,
{
    if k > 0 {
        assert((x + spaces(k)).drop_last() =~= x + spaces((k - 1) as nat));
        lemma_trim_end_spaces(x, (k - 1) as nat);
    } else {
        assert(x + spaces(0) =~= x);
    }
}

/// `ffmkky` writes a plain name and value as `valued_text`.
proof fn lemma_make_valued(name: Seq<u8>, value: Seq<u8>, comm: Option<Seq<u8>>)
    requires
        plain_key_name(name),
        plain_key_value(value),
        comm matches Some(c) ==> printable_text(c),
    ensures
        make_key_card(name, value, comm) == Ok::<Seq<u8>, MakeKeyFault>(valued_text(name, value, comm)),
        valued_text(name, value, comm).len() <= 80,
        forall|k: int| 0 <= k < valued_text(name, value, comm).len() ==> #[trigger] valued_text(name, value, comm)[k] < 128,
{
    reveal_strlit("= ");
    reveal_strlit(" / ");
    let nl = name.len() as int;
    let vlen = value.len() as int;
    assert forall|k: int| 0 <= k < nl implies #[trigger] name[k] < 128 && name[k] != 61u8 by {
        assert(legal_key_char(name[k]));
    }
    lemma_ascii_valid(name);
    assert(legal_key_char(name[0]));
    assert(legal_key_char(name[nl - 1]));
    assert(leading_spaces(name) == 0);
    assert(name.subrange(0, nl) =~= name);
    assert(trim_end(name) == name);
    assert(make_key_name(name) == name);
    lemma_find_byte_none(name, 61u8);
    assert forall|j: int| 0 <= j < nl implies #[trigger] key_byte_ok(name, j, true) by {
        assert(legal_key_char(name[j]));
        assert(to_upper(name[j]) == name[j]);
        assert forall|i: int| 0 <= i < j implies name[i] != 32u8 by {
            assert(legal_key_char(name[i]));
        }
    }
    assert(keyword_ok(name, true));
    assert(ascii_bytes("= "@) =~= seq![61u8, 32u8]);
    assert(ascii_bytes(" / "@) =~= seq![32u8, 47u8, 32u8]);
    let prefix = name_field(name) + seq![61u8, 32u8];
    assert(make_key_prefix(name, vlen) == Ok::<Seq<u8>, MakeKeyFault>(prefix));
    let len = value_end(vlen);
    let c1 = if 10 + vlen < 30 { prefix + spaces((30 - 10 - vlen) as nat) } else { prefix };
    assert(c1 =~= prefix + spaces((len - 10 - vlen) as nat));
    let t = valued_text(name, value, comm);
    assert(with_comment(c1 + value, len, comm) =~= t);
    assert forall|k: int| 0 <= k < t.len() implies #[trigger] t[k] < 128 by {
        let body = name_field(name) + seq![61u8, 32u8] + spaces((len - 10 - vlen) as nat) + value;
        if k < nl {
            assert(t[k] == name[k]);
        } else if k < len - vlen {
        } else if k < len {
            assert(t[k] == value[k - (len - vlen)]);
        } else if k >= len + 3 {
            let c = comm->0;
            assert(t[k] == c[k - len - 3]);
        }
    }
}

/// `ffpsvc` reads `valued_text` back, followed by any number of spaces up
/// to column 80.
#[verifier::rlimit(40)]
proof fn lemma_parse_valued(name: Seq<u8>, value: Seq<u8>, comm: Option<Seq<u8>>, card: Seq<u8>)
    requires
        plain_key_name(name),
        plain_key_value(value),
        comm matches Some(c) ==> printable_text(c),
        valued_text(name, value, comm).len() <= card.len() <= 80,
        forall|k: int| 0 <= k < valued_text(name, value, comm).len() ==> #[trigger] card[k] == valued_text(name, value, comm)[k],
        forall|k: int| valued_text(name, value, comm).len() <= k < card.len() ==> #[trigger] card[k] == 32u8,
    ensures
        parse_value_of(card) == Ok::<(Seq<u8>, Seq<u8>), ParseFault>(
            (value, card_comment(value.len() as int, comm)),
        ),
{
    reveal_strlit("HIERARCH ");
    reveal_strlit("        ");
    reveal_strlit("COMMENT ");
    reveal_strlit("HISTORY ");
    reveal_strlit("END     ");
    reveal_strlit("CONTINUE");
    let nl = name.len() as int;
    let vlen = value.len() as int;
    let len = value_end(vlen);
    let g = len - 10 - vlen;
    let t = valued_text(name, value, comm);
    let m = card.len() as int;
    let nf = name_field(name);
    assert forall|k: int| 0 <= k < 8 implies #[trigger] card[k] == nf[k] by {
        assert(card[k] == t[k]);
    }
    assert(card[8] == 61u8 && card[9] == 32u8);
    assert forall|k: int| 10 <= k < 10 + g implies #[trigger] card[k] == 32u8 by {
        assert(card[k] == t[k]);
    }
    assert forall|k: int| len - vlen <= k < len implies #[trigger] card[k] == value[k - (len - vlen)] by {
        assert(card[k] == t[k]);
    }
    // the value field starts at column 11
    if lit_at(card, 0, "HIERARCH "@) {
        assert(card[8] as u32 == "HIERARCH "@[8] as u32);
    }
    assert(legal_key_char(name[0]));
    assert(card[0] == name[0]);
    if lit_at(card, 0, "        "@) {
        assert(card[0] as u32 == "        "@[0] as u32);
    }
    assert(lit_at(card, 0, "COMMENT "@) == lit_at(nf, 0, "COMMENT "@));
    assert(lit_at(card, 0, "HISTORY "@) == lit_at(nf, 0, "HISTORY "@));
    assert(lit_at(card, 0, "END     "@) == lit_at(nf, 0, "END     "@));
    assert(lit_at(card, 0, "CONTINUE"@) == lit_at(nf, 0, "CONTINUE"@));
    assert(value_start(card) == Some(10int));
    // the value token
    let rest = card.subrange(10, m);
    lemma_leading_spaces_exact(rest, g);
    let at = 10 + g;
    let vrest = card.subrange(at, m);
    assert forall|k: int| 0 <= k < vlen implies #[trigger] vrest[k] != 32u8 && vrest[k] != 47u8 by {
        assert(vrest[k] == value[k]);
    }
    if len < m {
        assert(vrest[vlen] == card[len]);
        assert(card[len] == 32u8);
    }
    lemma_find_stop_exact(vrest, vlen);
    assert(card.subrange(at, at + vlen) =~= value);
    assert forall|k: int| 0 <= k < vlen implies #[trigger] value[k] < 128 by {}
    lemma_ascii_valid(value);
    assert(value_token(card, at) == Ok::<(Seq<u8>, int), ParseFault>((value, len)));
    // the comment after it
    let after = card.subrange(len, m);
    if comm is Some && len < 77 && comm->0.len() > 0 {
        let c = comm->0;
        let n = comment_room(c, len);
        assert(after[0] == 32u8 && after[1] == 47u8);
        lemma_leading_spaces_exact(after, 1);
        assert(card[len + 1] == 47u8 && card[len + 2] == 32u8);
        assert(card.subrange(len + 3, m) =~= c.subrange(0, n) + spaces((m - t.len()) as nat));
        lemma_trim_end_spaces(c.subrange(0, n), (m - t.len()) as nat);
    } else {
        assert forall|k: int| 0 <= k < m - len implies #[trigger] after[k] == 32u8 by {
            assert(after[k] == card[len + k]);
        }
        lemma_leading_spaces_exact(after, m - len);
    }
    assert(trailing_comment(card, len) == card_comment(vlen, comm));
}

/// A card written by `ffmkky` with a plain keyword name and a plain value
/// reads back with `ffpsvc` to the same value, and to the comment as far as
/// the card had room for it.
pub proof fn lemma_card_value_roundtrip(name: Seq<u8>, value: Seq<u8>, comm: Option<Seq<u8>>)
    requires
        plain_key_name(name),
        plain_key_value(value),
        comm matches Some(c) ==> printable_text(c),
    ensures
        key_card(name, value, comm) matches Ok(card) && parse_value_of(utf8_or_empty(card)) == Ok::<
            (Seq<u8>, Seq<u8>),
            ParseFault,
        >((value, card_comment(value.len() as int, comm))) && card.len() == 80 && card.subrange(0, 8)
            == name_field(name),
{
    reveal(key_card);
    lemma_make_valued(name, value, comm);
    let t = valued_text(name, value, comm);
    lemma_ascii_valid(t);
    let card = pad_card(t);
    assert(card.subrange(0, 8) =~= name_field(name)) by {
        assert forall|k: int| 0 <= k < 8 implies card[k] == name_field(name)[k] by {
            assert(card[k] == t[k]);
        }
    }
    assert forall|k: int| 0 <= k < card.len() implies #[trigger] card[k] < 128 by {
        if k < t.len() {
            assert(card[k] == t[k]);
        }
    }
    lemma_ascii_valid(card);
    lemma_parse_valued(name, value, comm, card);
}

/// Law: the card text `ffmkky` (`make_card_string`) makes from a plain
/// keyword name and a plain value reads back with `ffpsvc`
/// (`fits_parse_value`) to the same value, and to the comment as far as the
/// card had room for it, its trailing spaces removed.
pub proof fn lemma_card_text_value_roundtrip(name: Seq<u8>, value: Seq<u8>, comm: Option<Seq<u8>>)
    requires
        plain_key_name(name),
        plain_key_value(value),
        comm matches Some(c) ==> printable_text(c),
    ensures
        make_key_card(name, value, comm) matches Ok(t) && utf8_or_empty(t) == t && parse_value_of(t) == Ok::<
            (Seq<u8>, Seq<u8>),
            ParseFault,
        >((value, card_comment(value.len() as int, comm))),
{
    lemma_make_valued(name, value, comm);
    let t = valued_text(name, value, comm);
    lemma_ascii_valid(t);
    lemma_parse_valued(name, value, comm, t);
}

/// `quoted_body` keeps text ASCII.
proof fn lemma_quoted_body_ascii(s: Seq<u8>, ii: int, acc: Seq<u8>)
    requires
        forall|k: int| 0 <= k < s.len() ==> #[trigger] s[k] < 128,
        forall|k: int| 0 <= k < acc.len() ==> #[trigger] acc[k] < 128,
    ensures
        forall|k: int| 0 <= k < quoted_body(s, ii, acc).len() ==> #[trigger] quoted_body(s, ii, acc)[k] < 128,
    decreases s.len() - ii,
{
    if !(ii < 0 || ii >= s.len() || ii >= 68 || 1 + acc.len() >= 69) {
        if s[ii] == 39u8 {
            let a2 = acc.push(39u8).push(39u8);
            assert forall|k: int| 0 <= k < a2.len() implies #[trigger] a2[k] < 128 by {
                if k < acc.len() {
                    assert(a2[k] == acc[k]);
                }
            }
            lemma_quoted_body_ascii(s, ii + 1, a2);
            assert(quoted_body(s, ii, acc) == quoted_body(s, ii + 1, a2));
        } else {
            let a2 = acc.push(s[ii]);
            assert forall|k: int| 0 <= k < a2.len() implies #[trigger] a2[k] < 128 by {
                if k < acc.len() {
                    assert(a2[k] == acc[k]);
                }
            }
            lemma_quoted_body_ascii(s, ii + 1, a2);
            assert(quoted_body(s, ii, acc) == quoted_body(s, ii + 1, a2));
        }
    } else {
        assert(quoted_body(s, ii, acc) == acc);
    }
}

/// The quoted form of ASCII text is ASCII and starts with a quote.
pub proof fn lemma_quote_value_ascii(s: Seq<u8>)
    requires
        forall|k: int| 0 <= k < s.len() ==> #[trigger] s[k] < 128,
    ensures
        quote_value(s).len() >= 1,
        quote_value(s)[0] == 39u8,
        forall|k: int| 0 <= k < quote_value(s).len() ==> #[trigger] quote_value(s)[k] < 128,
{
    lemma_quoted_body_ascii(s, 0, Seq::empty());
    lemma_quoted_body_len(s, 0, Seq::empty());
    let body = quoted_body(s, 0, Seq::empty());
    let q = quote_value(s);
    assert forall|k: int| 0 <= k < q.len() implies #[trigger] q[k] < 128 by {
        if k >= 1 && k - 1 < body.len() {
            if body.len() == 69 {
                assert(q[k] == body.subrange(0, 68)[k - 1]);
            } else {
                assert(q[k] == body[k - 1]);
            }
        }
    }
}

/// A card with a plain keyword name and a quoted ASCII value starts with the
/// name's 8-column field.
pub proof fn lemma_quoted_card_named(name: Seq<u8>, value: Seq<u8>, comm: Option<Seq<u8>>)
    requires
        plain_key_name(name),
        value.len() >= 1,
        value[0] == 39u8,
        forall|k: int| 0 <= k < value.len() ==> #[trigger] value[k] < 128,
        comm matches Some(c) ==> printable_text(c),
    ensures
        key_card(name, value, comm) matches Ok(c) && c.subrange(0, 8) == name_field(name) && name8_upper(c)
            == name8_upper(name),
{
    reveal(key_card);
    reveal_strlit("= ");
    reveal_strlit(" / ");
    let nl = name.len() as int;
    let vlen = value.len() as int;
    assert forall|k: int| 0 <= k < nl implies #[trigger] name[k] < 128 && name[k] != 61u8 by {
        assert(legal_key_char(name[k]));
    }
    assert(legal_key_char(name[0]));
    assert(legal_key_char(name[nl - 1]));
    assert(leading_spaces(name) == 0);
    assert(name.subrange(0, nl) =~= name);
    assert(trim_end(name) == name);
    assert(make_key_name(name) == name);
    lemma_find_byte_none(name, 61u8);
    assert forall|j: int| 0 <= j < nl implies #[trigger] key_byte_ok(name, j, true) by {
        assert(legal_key_char(name[j]));
        assert(to_upper(name[j]) == name[j]);
        assert forall|i: int| 0 <= i < j implies name[i] != 32u8 by {
            assert(legal_key_char(name[i]));
        }
    }
    assert(keyword_ok(name, true));
    lemma_ascii_valid(name);
    assert(ascii_bytes("= "@) =~= seq![61u8, 32u8]);
    assert(ascii_bytes(" / "@) =~= seq![32u8, 47u8, 32u8]);
    let prefix = name_field(name) + seq![61u8, 32u8];
    assert(make_key_prefix(name, vlen) == Ok::<Seq<u8>, MakeKeyFault>(prefix));
    assert forall|k: int| 0 <= k < prefix.len() implies #[trigger] prefix[k] < 128 by {
        if k < nl {
            assert(prefix[k] == name[k]);
        }
    }
    let n = if vlen < 70 { vlen } else { 70 };
    let c1 = prefix + value.subrange(0, n);
    assert forall|k: int| 0 <= k < c1.len() implies #[trigger] c1[k] < 128 by {
        if k >= 10 {
            assert(c1[k] == value[k - 10]);
        } else {
            assert(c1[k] == prefix[k]);
        }
    }
    let len1 = if 10 + vlen < 80 { 10 + vlen } else { 80 };
    let u = c1.update(79, 39u8);
    if len1 == 80 {
        assert forall|k: int| 0 <= k < u.len() implies #[trigger] u[k] < 128 by {
            if k != 79 {
                assert(u[k] == c1[k]);
            }
        }
        lemma_ascii_valid(u);
    }
    let c2 = if len1 == 80 { utf8_or_empty(u) } else { c1 };
    assert(c2.len() >= 10);
    assert forall|k: int| 0 <= k < c2.len() implies #[trigger] c2[k] < 128 by {
        if len1 == 80 {
            assert(c2[k] == u[k]);
        }
    }
    assert forall|k: int| 0 <= k < 10 implies #[trigger] c2[k] == prefix[k] by {
        if len1 == 80 {
            assert(c2[k] == u[k]);
        }
        assert(c1[k] == prefix[k]);
    }
    let has_comm = comm is Some && comm->0.len() > 0;
    let base = if has_comm && len1 < 30 { c2 + spaces((30 - len1) as nat) } else { c2 };
    let blen = if has_comm && len1 < 30 { 30 } else { len1 };
    let t = with_comment(base, blen, comm);
    assert(make_key_card(name, value, comm) == Ok::<Seq<u8>, MakeKeyFault>(t));
    assert forall|k: int| 0 <= k < 10 implies #[trigger] t[k] == prefix[k] by {
        assert(base[k] == c2[k]);
        assert(t[k] == base[k]);
    }
    assert forall|k: int| 0 <= k < t.len() implies #[trigger] t[k] < 128 by {
        if k < base.len() {
            assert(t[k] == base[k]);
            if k < c2.len() {
                assert(base[k] == c2[k]);
            }
        } else if k >= base.len() + 3 {
            let c = comm->0;
            assert(t[k] == c[k - base.len() - 3]);
        }
    }
    lemma_ascii_valid(t);
    let c = pad_card(t);
    assert(c.subrange(0, 8) =~= name_field(name)) by {
        assert forall|k: int| 0 <= k < 8 implies c.subrange(0, 8)[k] == name_field(name)[k] by {
            assert(c[k] == t[k]);
            assert(prefix[k] == name_field(name)[k]);
        }
    }
    assert(name8_upper(c) =~= name8_upper(name)) by {
        assert forall|k: int| 0 <= k < 8 implies name8_upper(c)[k] == name8_upper(name)[k] by {
            assert(c[k] == t[k]);
            assert(prefix[k] == name_field(name)[k]);
            if k < nl {
                assert(legal_key_char(name[k]));
            }
        }
    }
}

/// The 8-column name fields of the mandatory structural keywords of a
/// header (`SIMPLE`, `BITPIX`, `NAXIS`, `NAXISn`, `EXTEND`, `XTENSION`,
/// `PCOUNT`, `GCOUNT`, `GROUPS`, `BLOCKED`, `TFIELDS`, `TTYPEn`, `TFORMn`,
/// `TBCOLn`, `THEAP`, `END`), as byte values.
pub open spec fn structural_field(c: Seq<u8>) -> bool {
    let digit5 = 48 <= c[5] <= 57;
    ||| c == seq![83u8, 73, 77, 80, 76, 69, 32, 32]
    ||| c == seq![66u8, 73, 84, 80, 73, 88, 32, 32]
    ||| c == seq![66u8, 76, 79, 67, 75, 69, 68, 32]
    ||| c == seq![69u8, 88, 84, 69, 78, 68, 32, 32]
    ||| c == seq![69u8, 78, 68, 32, 32, 32, 32, 32]
    ||| c == seq![88u8, 84, 69, 78, 83, 73, 79, 78]
    ||| c == seq![80u8, 67, 79, 85, 78, 84, 32, 32]
    ||| c == seq![71u8, 67, 79, 85, 78, 84, 32, 32]
    ||| c == seq![71u8, 82, 79, 85, 80, 83, 32, 32]
    ||| c == seq![84u8, 70, 73, 69, 76, 68, 83, 32]
    ||| c == seq![84u8, 72, 69, 65, 80, 32, 32, 32]
    ||| (c.len() == 8 && c.subrange(0, 5) == seq![78u8, 65, 88, 73, 83] && (digit5 || c[5] == 32))
    ||| (c.len() == 8 && c.subrange(0, 5) == seq![84u8, 84, 89, 80, 69] && digit5)
    ||| (c.len() == 8 && c.subrange(0, 5) == seq![84u8, 70, 79, 82, 77] && digit5)
    ||| (c.len() == 8 && c.subrange(0, 5) == seq![84u8, 66, 67, 79, 76] && digit5)
}

/// Law: every card whose (upper-cased, space-padded) 8-column name is one
/// of the mandatory structural keywords is classed `TYP_STRUC_KEY` by
/// `ffgkcl` (`key_class_code`).
pub proof fn lemma_structural_class(t: Seq<u8>)
    requires
        structural_field(name8_upper(t)),
    ensures
        key_class_of(t) == TYP_STRUC_KEY,
{
    let c = name8_upper(t);
    reveal_strlit("ITPIX  ");
    reveal_strlit("LOCKED ");
    reveal_strlit("XTEND  ");
    reveal_strlit("ND     ");
    reveal_strlit("COUNT  ");
    reveal_strlit("ROUPS  ");
    reveal_strlit("AXIS");
    reveal_strlit("IMPLE  ");
    reveal_strlit("TYPE");
    reveal_strlit("FORM");
    reveal_strlit("BCOL");
    reveal_strlit("FIELDS ");
    reveal_strlit("HEAP   ");
    reveal_strlit("TENSION");
    if c.subrange(0, 5) == seq![78u8, 65, 88, 73, 83] {
        assert(c[1] == c.subrange(0, 5)[1] && c[2] == c.subrange(0, 5)[2] && c[3] == c.subrange(0, 5)[3]
            && c[4] == c.subrange(0, 5)[4] && c[0] == c.subrange(0, 5)[0]);
        assert(lit_at(c, 1, "AXIS"@));
    } else if c.subrange(0, 5) == seq![84u8, 84, 89, 80, 69] {
        assert(c[1] == c.subrange(0, 5)[1] && c[2] == c.subrange(0, 5)[2] && c[3] == c.subrange(0, 5)[3]
            && c[4] == c.subrange(0, 5)[4] && c[0] == c.subrange(0, 5)[0]);
        assert(lit_at(c, 1, "TYPE"@));
    } else if c.subrange(0, 5) == seq![84u8, 70, 79, 82, 77] {
        assert(c[1] == c.subrange(0, 5)[1] && c[2] == c.subrange(0, 5)[2] && c[3] == c.subrange(0, 5)[3]
            && c[4] == c.subrange(0, 5)[4] && c[0] == c.subrange(0, 5)[0]);
        assert(lit_at(c, 1, "FORM"@));
    } else if c.subrange(0, 5) == seq![84u8, 66, 67, 79, 76] {
        assert(c[1] == c.subrange(0, 5)[1] && c[2] == c.subrange(0, 5)[2] && c[3] == c.subrange(0, 5)[3]
            && c[4] == c.subrange(0, 5)[4] && c[0] == c.subrange(0, 5)[0]);
        assert(lit_at(c, 1, "BCOL"@));
    } else if c[0] == 66u8 {
        assert(lit_at(c, 1, "ITPIX  "@) || lit_at(c, 1, "LOCKED "@));
    } else if c[0] == 69u8 {
        assert(lit_at(c, 1, "XTEND  "@) || lit_at(c, 1, "ND     "@));
    } else if c[0] == 71u8 {
        assert(lit_at(c, 1, "COUNT  "@) || lit_at(c, 1, "ROUPS  "@));
    } else if c[0] == 80u8 {
        assert(lit_at(c, 1, "COUNT  "@));
    } else if c[0] == 83u8 {
        assert(lit_at(c, 1, "IMPLE  "@));
    } else if c[0] == 84u8 {
        assert(lit_at(c, 1, "FIELDS "@) || lit_at(c, 1, "HEAP   "@));
    } else {
        assert(lit_at(c, 1, "TENSION"@));
    }
}

/// The class `ffgkcl` gives a card by its 8-column name field, for the
/// common reserved keywords other than the structural ones: a blank name
/// and `HISTORY` are commentary; `CHECKSUM`, `DATASUM`; `CONTINUE`; the
/// scaling, null, unit, display, dimension and range keywords; the HDU
/// names and versions; the reference-system keywords; the tile-compression
/// `Z` keywords; and the WCS axis keywords. As byte values.
pub open spec fn reserved_class(c: Seq<u8>) -> Option<i32> {
    if c.len() == 8 && c[0] == 32u8 {
        Some(TYP_COMM_KEY)
    } else if c == seq![67u8, 72, 69, 67, 75, 83, 85, 77] {
        Some(TYP_CKSUM_KEY)
    } else if c == seq![68u8, 65, 84, 65, 83, 85, 77, 32] {
        Some(TYP_CKSUM_KEY)
    } else if c == seq![67u8, 79, 78, 84, 73, 78, 85, 69] {
        Some(TYP_CONT_KEY)
    } else if c == seq![66u8, 83, 67, 65, 76, 69, 32, 32] {
        Some(TYP_SCAL_KEY)
    } else if c == seq![66u8, 90, 69, 82, 79, 32, 32, 32] {
        Some(TYP_SCAL_KEY)
    } else if c == seq![66u8, 76, 65, 78, 75, 32, 32, 32] {
        Some(TYP_NULL_KEY)
    } else if c == seq![66u8, 85, 78, 73, 84, 32, 32, 32] {
        Some(TYP_UNIT_KEY)
    } else if c == seq![69u8, 88, 84, 86, 69, 82, 32, 32] {
        Some(TYP_HDUID_KEY)
    } else if c == seq![69u8, 88, 84, 76, 69, 86, 69, 76] {
        Some(TYP_HDUID_KEY)
    } else if c == seq![72u8, 68, 85, 78, 65, 77, 69, 32] {
        Some(TYP_HDUID_KEY)
    } else if c == seq![72u8, 68, 85, 86, 69, 82, 32, 32] {
        Some(TYP_HDUID_KEY)
    } else if c == seq![72u8, 68, 85, 76, 69, 86, 69, 76] {
        Some(TYP_HDUID_KEY)
    } else if c == seq![68u8, 65, 84, 65, 77, 73, 78, 32] {
        Some(TYP_RANG_KEY)
    } else if c == seq![68u8, 65, 84, 65, 77, 65, 88, 32] {
        Some(TYP_RANG_KEY)
    } else if c == seq![69u8, 81, 85, 73, 78, 79, 88, 32] {
        Some(TYP_REFSYS_KEY)
    } else if c == seq![69u8, 80, 79, 67, 72, 32, 32, 32] {
        Some(TYP_REFSYS_KEY)
    } else if c == seq![68u8, 65, 84, 69, 45, 79, 66, 83] {
        Some(TYP_REFSYS_KEY)
    } else if c == seq![77u8, 74, 68, 45, 79, 66, 83, 32] {
        Some(TYP_REFSYS_KEY)
    } else if c == seq![82u8, 65, 68, 69, 83, 89, 83, 32] {
        Some(TYP_REFSYS_KEY)
    } else if c == seq![82u8, 65, 68, 69, 67, 83, 89, 83] {
        Some(TYP_REFSYS_KEY)
    } else if c == seq![90u8, 73, 77, 65, 71, 69, 32, 32] {
        Some(TYP_CMPRS_KEY)
    } else if c == seq![90u8, 67, 77, 80, 84, 89, 80, 69] {
        Some(TYP_CMPRS_KEY)
    } else if c == seq![90u8, 66, 73, 84, 80, 73, 88, 32] {
        Some(TYP_CMPRS_KEY)
    } else if c == seq![90u8, 83, 73, 77, 80, 76, 69, 32] {
        Some(TYP_CMPRS_KEY)
    } else if c == seq![90u8, 84, 69, 78, 83, 73, 79, 78] {
        Some(TYP_CMPRS_KEY)
    } else if c == seq![90u8, 69, 88, 84, 69, 78, 68, 32] {
        Some(TYP_CMPRS_KEY)
    } else if c == seq![90u8, 80, 67, 79, 85, 78, 84, 32] {
        Some(TYP_CMPRS_KEY)
    } else if c == seq![90u8, 71, 67, 79, 85, 78, 84, 32] {
        Some(TYP_CMPRS_KEY)
    } else if c == seq![90u8, 81, 85, 65, 78, 84, 73, 90] {
        Some(TYP_CMPRS_KEY)
    } else if c == seq![90u8, 68, 73, 84, 72, 69, 82, 48] {
        Some(TYP_CMPRS_KEY)
    } else if c == seq![90u8, 83, 67, 65, 76, 69, 32, 32] {
        Some(TYP_CMPRS_KEY)
    } else if c == seq![90u8, 90, 69, 82, 79, 32, 32, 32] {
        Some(TYP_CMPRS_KEY)
    } else if c == seq![90u8, 66, 76, 65, 78, 75, 32, 32] {
        Some(TYP_CMPRS_KEY)
    } else if c == seq![76u8, 79, 78, 80, 79, 76, 69, 32] {
        Some(TYP_WCS_KEY)
    } else if c == seq![76u8, 65, 84, 80, 79, 76, 69, 32] {
        Some(TYP_WCS_KEY)
    } else if c == seq![87u8, 67, 83, 65, 88, 69, 83, 32] {
        Some(TYP_WCS_KEY)
    } else if c == seq![72u8, 73, 83, 84, 79, 82, 89, 32] {
        Some(TYP_COMM_KEY)
    } else if c.len() == 8 && c.subrange(0, 5) == seq![84u8, 83, 67, 65, 76] && 48 <= c[5] <= 57 {
        Some(TYP_SCAL_KEY)
    } else if c.len() == 8 && c.subrange(0, 5) == seq![84u8, 90, 69, 82, 79] && 48 <= c[5] <= 57 {
        Some(TYP_SCAL_KEY)
    } else if c.len() == 8 && c.subrange(0, 5) == seq![84u8, 78, 85, 76, 76] && 48 <= c[5] <= 57 {
        Some(TYP_NULL_KEY)
    } else if c.len() == 8 && c.subrange(0, 5) == seq![84u8, 85, 78, 73, 84] && 48 <= c[5] <= 57 {
        Some(TYP_UNIT_KEY)
    } else if c.len() == 8 && c.subrange(0, 5) == seq![84u8, 68, 73, 83, 80] && 48 <= c[5] <= 57 {
        Some(TYP_DISP_KEY)
    } else if c.len() == 8 && c.subrange(0, 5) == seq![84u8, 76, 77, 73, 78] && 48 <= c[5] <= 57 {
        Some(TYP_RANG_KEY)
    } else if c.len() == 8 && c.subrange(0, 5) == seq![84u8, 76, 77, 65, 88] && 48 <= c[5] <= 57 {
        Some(TYP_RANG_KEY)
    } else if c.len() == 8 && c.subrange(0, 5) == seq![84u8, 68, 77, 73, 78] && 48 <= c[5] <= 57 {
        Some(TYP_RANG_KEY)
    } else if c.len() == 8 && c.subrange(0, 5) == seq![84u8, 68, 77, 65, 88] && 48 <= c[5] <= 57 {
        Some(TYP_RANG_KEY)
    } else if c.len() == 8 && c.subrange(0, 5) == seq![67u8, 84, 89, 80, 69] && 48 <= c[5] <= 57 {
        Some(TYP_WCS_KEY)
    } else if c.len() == 8 && c.subrange(0, 5) == seq![67u8, 85, 78, 73, 84] && 48 <= c[5] <= 57 {
        Some(TYP_WCS_KEY)
    } else if c.len() == 8 && c.subrange(0, 5) == seq![67u8, 82, 86, 65, 76] && 48 <= c[5] <= 57 {
        Some(TYP_WCS_KEY)
    } else if c.len() == 8 && c.subrange(0, 5) == seq![67u8, 82, 80, 73, 88] && 48 <= c[5] <= 57 {
        Some(TYP_WCS_KEY)
    } else if c.len() == 8 && c.subrange(0, 5) == seq![67u8, 68, 69, 76, 84] && 48 <= c[5] <= 57 {
        Some(TYP_WCS_KEY)
    } else if c.len() == 8 && c.subrange(0, 5) == seq![67u8, 82, 79, 84, 65] && 48 <= c[5] <= 57 {
        Some(TYP_WCS_KEY)
    } else if c.len() == 8 && c.subrange(0, 4) == seq![84u8, 68, 73, 77] && 48 <= c[4] <= 57 {
        Some(TYP_DIM_KEY)
    } else {
        None
    }
}

/// Law: a card whose (upper-cased, space-padded) 8-column name has a class
/// in the table of reserved keywords is classed so by `ffgkcl`
/// (`key_class_code`).
pub proof fn lemma_reserved_class(t: Seq<u8>)
    requires
        reserved_class(name8_upper(t)) is Some,
    ensures
        key_class_of(t) == reserved_class(name8_upper(t))->Some_0,
{
    reveal_strlit("ADE");
    reveal_strlit("ADECSYS");
    reveal_strlit("ADESYS");
    reveal_strlit("ATAMAX ");
    reveal_strlit("ATAMIN ");
    reveal_strlit("ATASUM ");
    reveal_strlit("ATE-OBS");
    reveal_strlit("ATP");
    reveal_strlit("ATPOLE");
    reveal_strlit("BCOL");
    reveal_strlit("BITPIX ");
    reveal_strlit("BLANK  ");
    reveal_strlit("BLOCKED");
    reveal_strlit("CAX");
    reveal_strlit("CMPTYPE");
    reveal_strlit("CSAXES");
    reveal_strlit("CSN");
    reveal_strlit("CSNAME");
    reveal_strlit("DELT");
    reveal_strlit("DIM");
    reveal_strlit("DISP");
    reveal_strlit("DITHER0");
    reveal_strlit("DMAX");
    reveal_strlit("DMIN");
    reveal_strlit("DULEVEL");
    reveal_strlit("DUNAME ");
    reveal_strlit("DUVER  ");
    reveal_strlit("EXTEND ");
    reveal_strlit("FIELDS ");
    reveal_strlit("FORM");
    reveal_strlit("GCOUNT ");
    reveal_strlit("HEAP   ");
    reveal_strlit("HECKSUM");
    reveal_strlit("IMAGE  ");
    reveal_strlit("ISTORY");
    reveal_strlit("ITPIX  ");
    reveal_strlit("JD-OBS ");
    reveal_strlit("JDOB");
    reveal_strlit("LANK   ");
    reveal_strlit("LMAX");
    reveal_strlit("LMIN");
    reveal_strlit("LOCKED ");
    reveal_strlit("NAME");
    reveal_strlit("NAXIS");
    reveal_strlit("ND     ");
    reveal_strlit("NULL");
    reveal_strlit("OMMENT");
    reveal_strlit("ONP");
    reveal_strlit("ONPOLE");
    reveal_strlit("ONTINUE");
    reveal_strlit("PCOUNT ");
    reveal_strlit("POCH   ");
    reveal_strlit("QUANTIZ");
    reveal_strlit("QUI");
    reveal_strlit("QUINOX");
    reveal_strlit("RDER");
    reveal_strlit("ROTA");
    reveal_strlit("RPIX");
    reveal_strlit("RVAL");
    reveal_strlit("SCAL");
    reveal_strlit("SCALE  ");
    reveal_strlit("SIMPLE ");
    reveal_strlit("SYER");
    reveal_strlit("TENSION");
    reveal_strlit("TILE");
    reveal_strlit("TYPE");
    reveal_strlit("UNIT");
    reveal_strlit("UNIT   ");
    reveal_strlit("VAL");
    reveal_strlit("XTEND  ");
    reveal_strlit("XTLEVEL");
    reveal_strlit("XTNAME ");
    reveal_strlit("XTVER  ");
    reveal_strlit("ZERO");
    reveal_strlit("ZERO   ");
    let c = name8_upper(t);
    assert(c.len() == 8);
    if c[0] == 32u8 {
    } else if c == seq![67u8, 72, 69, 67, 75, 83, 85, 77] {
        assert(c[1] as u32 != "DELT"@[0] as u32);
        assert(lit_at(c, 1, "HECKSUM"@));
        assert(c[1] as u32 != "OMMENT"@[0] as u32);
        assert(c[1] as u32 != "ONTINUE"@[0] as u32);
        assert(c[1] as u32 != "RDER"@[0] as u32);
        assert(c[1] as u32 != "ROTA"@[0] as u32);
        assert(c[1] as u32 != "RPIX"@[0] as u32);
        assert(c[1] as u32 != "RVAL"@[0] as u32);
        assert(c[1] as u32 != "SYER"@[0] as u32);
        assert(c[1] as u32 != "TYPE"@[0] as u32);
        assert(c[1] as u32 != "UNIT"@[0] as u32);
    } else if c == seq![68u8, 65, 84, 65, 83, 85, 77, 32] {
        assert(c[4] as u32 != "ATAMAX "@[3] as u32);
        assert(c[4] as u32 != "ATAMIN "@[3] as u32);
        assert(lit_at(c, 1, "ATASUM "@));
        assert(c[3] as u32 != "ATE-OBS"@[2] as u32);
    } else if c == seq![67u8, 79, 78, 84, 73, 78, 85, 69] {
        assert(c[1] as u32 != "DELT"@[0] as u32);
        assert(c[1] as u32 != "HECKSUM"@[0] as u32);
        assert(c[2] as u32 != "OMMENT"@[1] as u32);
        assert(lit_at(c, 1, "ONTINUE"@));
        assert(c[1] as u32 != "RDER"@[0] as u32);
        assert(c[1] as u32 != "ROTA"@[0] as u32);
        assert(c[1] as u32 != "RPIX"@[0] as u32);
        assert(c[1] as u32 != "RVAL"@[0] as u32);
        assert(c[1] as u32 != "SYER"@[0] as u32);
        assert(c[1] as u32 != "TYPE"@[0] as u32);
        assert(c[1] as u32 != "UNIT"@[0] as u32);
    } else if c == seq![66u8, 83, 67, 65, 76, 69, 32, 32] {
        assert(c[1] as u32 != "ITPIX  "@[0] as u32);
        assert(c[1] as u32 != "LANK   "@[0] as u32);
        assert(c[1] as u32 != "LOCKED "@[0] as u32);
        assert(lit_at(c, 1, "SCALE  "@));
        assert(c[1] as u32 != "UNIT   "@[0] as u32);
        assert(c[1] as u32 != "ZERO   "@[0] as u32);
    } else if c == seq![66u8, 90, 69, 82, 79, 32, 32, 32] {
        assert(c[1] as u32 != "ITPIX  "@[0] as u32);
        assert(c[1] as u32 != "LANK   "@[0] as u32);
        assert(c[1] as u32 != "LOCKED "@[0] as u32);
        assert(c[1] as u32 != "SCALE  "@[0] as u32);
        assert(c[1] as u32 != "UNIT   "@[0] as u32);
        assert(lit_at(c, 1, "ZERO   "@));
    } else if c == seq![66u8, 76, 65, 78, 75, 32, 32, 32] {
        assert(c[1] as u32 != "ITPIX  "@[0] as u32);
        assert(lit_at(c, 1, "LANK   "@));
        assert(c[2] as u32 != "LOCKED "@[1] as u32);
        assert(c[1] as u32 != "SCALE  "@[0] as u32);
        assert(c[1] as u32 != "UNIT   "@[0] as u32);
        assert(c[1] as u32 != "ZERO   "@[0] as u32);
    } else if c == seq![66u8, 85, 78, 73, 84, 32, 32, 32] {
        assert(c[1] as u32 != "ITPIX  "@[0] as u32);
        assert(c[1] as u32 != "LANK   "@[0] as u32);
        assert(c[1] as u32 != "LOCKED "@[0] as u32);
        assert(c[1] as u32 != "SCALE  "@[0] as u32);
        assert(lit_at(c, 1, "UNIT   "@));
        assert(c[1] as u32 != "ZERO   "@[0] as u32);
    } else if c == seq![69u8, 88, 84, 86, 69, 82, 32, 32] {
        assert(c[1] as u32 != "ND     "@[0] as u32);
        assert(c[1] as u32 != "POCH   "@[0] as u32);
        assert(c[1] as u32 != "QUI"@[0] as u32);
        assert(c[1] as u32 != "QUINOX"@[0] as u32);
        assert(c[3] as u32 != "XTEND  "@[2] as u32);
        assert(c[3] as u32 != "XTLEVEL"@[2] as u32);
        assert(c[3] as u32 != "XTNAME "@[2] as u32);
        assert(lit_at(c, 1, "XTVER  "@));
    } else if c == seq![69u8, 88, 84, 76, 69, 86, 69, 76] {
        assert(c[1] as u32 != "ND     "@[0] as u32);
        assert(c[1] as u32 != "POCH   "@[0] as u32);
        assert(c[1] as u32 != "QUI"@[0] as u32);
        assert(c[1] as u32 != "QUINOX"@[0] as u32);
        assert(c[3] as u32 != "XTEND  "@[2] as u32);
        assert(lit_at(c, 1, "XTLEVEL"@));
        assert(c[3] as u32 != "XTNAME "@[2] as u32);
        assert(c[3] as u32 != "XTVER  "@[2] as u32);
    } else if c == seq![72u8, 68, 85, 78, 65, 77, 69, 32] {
        assert(c[3] as u32 != "DULEVEL"@[2] as u32);
        assert(lit_at(c, 1, "DUNAME "@));
        assert(c[3] as u32 != "DUVER  "@[2] as u32);
        assert(c[1] as u32 != "ISTORY"@[0] as u32);
    } else if c == seq![72u8, 68, 85, 86, 69, 82, 32, 32] {
        assert(c[3] as u32 != "DULEVEL"@[2] as u32);
        assert(c[3] as u32 != "DUNAME "@[2] as u32);
        assert(lit_at(c, 1, "DUVER  "@));
        assert(c[1] as u32 != "ISTORY"@[0] as u32);
    } else if c == seq![72u8, 68, 85, 76, 69, 86, 69, 76] {
        assert(lit_at(c, 1, "DULEVEL"@));
        assert(c[3] as u32 != "DUNAME "@[2] as u32);
        assert(c[3] as u32 != "DUVER  "@[2] as u32);
        assert(c[1] as u32 != "ISTORY"@[0] as u32);
    } else if c == seq![68u8, 65, 84, 65, 77, 73, 78, 32] {
        assert(c[5] as u32 != "ATAMAX "@[4] as u32);
        assert(lit_at(c, 1, "ATAMIN "@));
        assert(c[4] as u32 != "ATASUM "@[3] as u32);
        assert(c[3] as u32 != "ATE-OBS"@[2] as u32);
    } else if c == seq![68u8, 65, 84, 65, 77, 65, 88, 32] {
        assert(lit_at(c, 1, "ATAMAX "@));
        assert(c[5] as u32 != "ATAMIN "@[4] as u32);
        assert(c[4] as u32 != "ATASUM "@[3] as u32);
        assert(c[3] as u32 != "ATE-OBS"@[2] as u32);
    } else if c == seq![69u8, 81, 85, 73, 78, 79, 88, 32] {
        assert(c[1] as u32 != "ND     "@[0] as u32);
        assert(c[1] as u32 != "POCH   "@[0] as u32);
        assert(lit_at(c, 1, "QUI"@));
        assert(lit_at(c, 1, "QUINOX"@));
        assert(c[1] as u32 != "XTEND  "@[0] as u32);
        assert(c[1] as u32 != "XTLEVEL"@[0] as u32);
        assert(c[1] as u32 != "XTNAME "@[0] as u32);
        assert(c[1] as u32 != "XTVER  "@[0] as u32);
    } else if c == seq![69u8, 80, 79, 67, 72, 32, 32, 32] {
        assert(c[1] as u32 != "ND     "@[0] as u32);
        assert(lit_at(c, 1, "POCH   "@));
        assert(c[1] as u32 != "QUI"@[0] as u32);
        assert(c[1] as u32 != "QUINOX"@[0] as u32);
        assert(c[1] as u32 != "XTEND  "@[0] as u32);
        assert(c[1] as u32 != "XTLEVEL"@[0] as u32);
        assert(c[1] as u32 != "XTNAME "@[0] as u32);
        assert(c[1] as u32 != "XTVER  "@[0] as u32);
    } else if c == seq![68u8, 65, 84, 69, 45, 79, 66, 83] {
        assert(c[3] as u32 != "ATAMAX "@[2] as u32);
        assert(c[3] as u32 != "ATAMIN "@[2] as u32);
        assert(c[3] as u32 != "ATASUM "@[2] as u32);
        assert(lit_at(c, 1, "ATE-OBS"@));
    } else if c == seq![77u8, 74, 68, 45, 79, 66, 83, 32] {
        assert(lit_at(c, 1, "JD-OBS "@));
        assert(c[3] as u32 != "JDOB"@[2] as u32);
    } else if c == seq![82u8, 65, 68, 69, 83, 89, 83, 32] {
        assert(lit_at(c, 1, "ADE"@));
        assert(c[4] as u32 != "ADECSYS"@[3] as u32);
        assert(lit_at(c, 1, "ADESYS"@));
    } else if c == seq![82u8, 65, 68, 69, 67, 83, 89, 83] {
        assert(lit_at(c, 1, "ADE"@));
        assert(lit_at(c, 1, "ADECSYS"@));
        assert(c[4] as u32 != "ADESYS"@[3] as u32);
    } else if c == seq![90u8, 73, 77, 65, 71, 69, 32, 32] {
        assert(lit_at(c, 1, "IMAGE  "@));
    } else if c == seq![90u8, 67, 77, 80, 84, 89, 80, 69] {
        assert(lit_at(c, 1, "CMPTYPE"@));
    } else if c == seq![90u8, 66, 73, 84, 80, 73, 88, 32] {
        assert(lit_at(c, 1, "BITPIX "@));
    } else if c == seq![90u8, 83, 73, 77, 80, 76, 69, 32] {
        assert(lit_at(c, 1, "SIMPLE "@));
    } else if c == seq![90u8, 84, 69, 78, 83, 73, 79, 78] {
        assert(lit_at(c, 1, "TENSION"@));
    } else if c == seq![90u8, 69, 88, 84, 69, 78, 68, 32] {
        assert(lit_at(c, 1, "EXTEND "@));
    } else if c == seq![90u8, 80, 67, 79, 85, 78, 84, 32] {
        assert(lit_at(c, 1, "PCOUNT "@));
    } else if c == seq![90u8, 71, 67, 79, 85, 78, 84, 32] {
        assert(lit_at(c, 1, "GCOUNT "@));
    } else if c == seq![90u8, 81, 85, 65, 78, 84, 73, 90] {
        assert(lit_at(c, 1, "QUANTIZ"@));
    } else if c == seq![90u8, 68, 73, 84, 72, 69, 82, 48] {
        assert(lit_at(c, 1, "DITHER0"@));
    } else if c == seq![90u8, 83, 67, 65, 76, 69, 32, 32] {
        assert(lit_at(c, 1, "SCALE  "@));
    } else if c == seq![90u8, 90, 69, 82, 79, 32, 32, 32] {
        assert(lit_at(c, 1, "ZERO   "@));
    } else if c == seq![90u8, 66, 76, 65, 78, 75, 32, 32] {
        assert(lit_at(c, 1, "BLANK  "@));
    } else if c == seq![76u8, 79, 78, 80, 79, 76, 69, 32] {
        assert(c[1] as u32 != "ATP"@[0] as u32);
        assert(c[1] as u32 != "ATPOLE"@[0] as u32);
        assert(lit_at(c, 1, "ONP"@));
        assert(lit_at(c, 1, "ONPOLE"@));
    } else if c == seq![76u8, 65, 84, 80, 79, 76, 69, 32] {
        assert(lit_at(c, 1, "ATP"@));
        assert(lit_at(c, 1, "ATPOLE"@));
        assert(c[1] as u32 != "ONP"@[0] as u32);
        assert(c[1] as u32 != "ONPOLE"@[0] as u32);
    } else if c == seq![87u8, 67, 83, 65, 88, 69, 83, 32] {
        assert(c[2] as u32 != "CAX"@[1] as u32);
        assert(lit_at(c, 1, "CSAXES"@));
        assert(c[3] as u32 != "CSN"@[2] as u32);
        assert(c[3] as u32 != "CSNAME"@[2] as u32);
    } else if c == seq![72u8, 73, 83, 84, 79, 82, 89, 32] {
        assert(c[1] as u32 != "DULEVEL"@[0] as u32);
        assert(c[1] as u32 != "DUNAME "@[0] as u32);
        assert(c[1] as u32 != "DUVER  "@[0] as u32);
        assert(lit_at(c, 1, "ISTORY"@));
    } else if c.subrange(0, 5) == seq![84u8, 83, 67, 65, 76] {
        assert(c[0] == c.subrange(0, 5)[0] && c[1] == c.subrange(0, 5)[1] && c[2] == c.subrange(0, 5)[2] && c[3] == c.subrange(0, 5)[3] && c[4] == c.subrange(0, 5)[4]);
        assert(c[1] as u32 != "BCOL"@[0] as u32);
        assert(c[1] as u32 != "DIM"@[0] as u32);
        assert(c[1] as u32 != "DISP"@[0] as u32);
        assert(c[1] as u32 != "DMAX"@[0] as u32);
        assert(c[1] as u32 != "DMIN"@[0] as u32);
        assert(c[1] as u32 != "FIELDS "@[0] as u32);
        assert(c[1] as u32 != "FORM"@[0] as u32);
        assert(c[1] as u32 != "HEAP   "@[0] as u32);
        assert(c[1] as u32 != "LMAX"@[0] as u32);
        assert(c[1] as u32 != "LMIN"@[0] as u32);
        assert(c[1] as u32 != "NULL"@[0] as u32);
        assert(lit_at(c, 1, "SCAL"@));
        assert(c[1] as u32 != "TYPE"@[0] as u32);
        assert(c[1] as u32 != "UNIT"@[0] as u32);
        assert(c[1] as u32 != "ZERO"@[0] as u32);
    } else if c.subrange(0, 5) == seq![84u8, 90, 69, 82, 79] {
        assert(c[0] == c.subrange(0, 5)[0] && c[1] == c.subrange(0, 5)[1] && c[2] == c.subrange(0, 5)[2] && c[3] == c.subrange(0, 5)[3] && c[4] == c.subrange(0, 5)[4]);
        assert(c[1] as u32 != "BCOL"@[0] as u32);
        assert(c[1] as u32 != "DIM"@[0] as u32);
        assert(c[1] as u32 != "DISP"@[0] as u32);
        assert(c[1] as u32 != "DMAX"@[0] as u32);
        assert(c[1] as u32 != "DMIN"@[0] as u32);
        assert(c[1] as u32 != "FIELDS "@[0] as u32);
        assert(c[1] as u32 != "FORM"@[0] as u32);
        assert(c[1] as u32 != "HEAP   "@[0] as u32);
        assert(c[1] as u32 != "LMAX"@[0] as u32);
        assert(c[1] as u32 != "LMIN"@[0] as u32);
        assert(c[1] as u32 != "NULL"@[0] as u32);
        assert(c[1] as u32 != "SCAL"@[0] as u32);
        assert(c[1] as u32 != "TYPE"@[0] as u32);
        assert(c[1] as u32 != "UNIT"@[0] as u32);
        assert(lit_at(c, 1, "ZERO"@));
    } else if c.subrange(0, 5) == seq![84u8, 78, 85, 76, 76] {
        assert(c[0] == c.subrange(0, 5)[0] && c[1] == c.subrange(0, 5)[1] && c[2] == c.subrange(0, 5)[2] && c[3] == c.subrange(0, 5)[3] && c[4] == c.subrange(0, 5)[4]);
        assert(c[1] as u32 != "BCOL"@[0] as u32);
        assert(c[1] as u32 != "DIM"@[0] as u32);
        assert(c[1] as u32 != "DISP"@[0] as u32);
        assert(c[1] as u32 != "DMAX"@[0] as u32);
        assert(c[1] as u32 != "DMIN"@[0] as u32);
        assert(c[1] as u32 != "FIELDS "@[0] as u32);
        assert(c[1] as u32 != "FORM"@[0] as u32);
        assert(c[1] as u32 != "HEAP   "@[0] as u32);
        assert(c[1] as u32 != "LMAX"@[0] as u32);
        assert(c[1] as u32 != "LMIN"@[0] as u32);
        assert(lit_at(c, 1, "NULL"@));
        assert(c[1] as u32 != "SCAL"@[0] as u32);
        assert(c[1] as u32 != "TYPE"@[0] as u32);
        assert(c[1] as u32 != "UNIT"@[0] as u32);
        assert(c[1] as u32 != "ZERO"@[0] as u32);
    } else if c.subrange(0, 5) == seq![84u8, 85, 78, 73, 84] {
        assert(c[0] == c.subrange(0, 5)[0] && c[1] == c.subrange(0, 5)[1] && c[2] == c.subrange(0, 5)[2] && c[3] == c.subrange(0, 5)[3] && c[4] == c.subrange(0, 5)[4]);
        assert(c[1] as u32 != "BCOL"@[0] as u32);
        assert(c[1] as u32 != "DIM"@[0] as u32);
        assert(c[1] as u32 != "DISP"@[0] as u32);
        assert(c[1] as u32 != "DMAX"@[0] as u32);
        assert(c[1] as u32 != "DMIN"@[0] as u32);
        assert(c[1] as u32 != "FIELDS "@[0] as u32);
        assert(c[1] as u32 != "FORM"@[0] as u32);
        assert(c[1] as u32 != "HEAP   "@[0] as u32);
        assert(c[1] as u32 != "LMAX"@[0] as u32);
        assert(c[1] as u32 != "LMIN"@[0] as u32);
        assert(c[1] as u32 != "NULL"@[0] as u32);
        assert(c[1] as u32 != "SCAL"@[0] as u32);
        assert(c[1] as u32 != "TYPE"@[0] as u32);
        assert(lit_at(c, 1, "UNIT"@));
        assert(c[1] as u32 != "ZERO"@[0] as u32);
    } else if c.subrange(0, 5) == seq![84u8, 68, 73, 83, 80] {
        assert(c[0] == c.subrange(0, 5)[0] && c[1] == c.subrange(0, 5)[1] && c[2] == c.subrange(0, 5)[2] && c[3] == c.subrange(0, 5)[3] && c[4] == c.subrange(0, 5)[4]);
        assert(c[1] as u32 != "BCOL"@[0] as u32);
        assert(c[3] as u32 != "DIM"@[2] as u32);
        assert(lit_at(c, 1, "DISP"@));
        assert(c[2] as u32 != "DMAX"@[1] as u32);
        assert(c[2] as u32 != "DMIN"@[1] as u32);
        assert(c[1] as u32 != "FIELDS "@[0] as u32);
        assert(c[1] as u32 != "FORM"@[0] as u32);
        assert(c[1] as u32 != "HEAP   "@[0] as u32);
        assert(c[1] as u32 != "LMAX"@[0] as u32);
        assert(c[1] as u32 != "LMIN"@[0] as u32);
        assert(c[1] as u32 != "NULL"@[0] as u32);
        assert(c[1] as u32 != "SCAL"@[0] as u32);
        assert(c[1] as u32 != "TYPE"@[0] as u32);
        assert(c[1] as u32 != "UNIT"@[0] as u32);
        assert(c[1] as u32 != "ZERO"@[0] as u32);
    } else if c.subrange(0, 5) == seq![84u8, 76, 77, 73, 78] {
        assert(c[0] == c.subrange(0, 5)[0] && c[1] == c.subrange(0, 5)[1] && c[2] == c.subrange(0, 5)[2] && c[3] == c.subrange(0, 5)[3] && c[4] == c.subrange(0, 5)[4]);
        assert(c[1] as u32 != "BCOL"@[0] as u32);
        assert(c[1] as u32 != "DIM"@[0] as u32);
        assert(c[1] as u32 != "DISP"@[0] as u32);
        assert(c[1] as u32 != "DMAX"@[0] as u32);
        assert(c[1] as u32 != "DMIN"@[0] as u32);
        assert(c[1] as u32 != "FIELDS "@[0] as u32);
        assert(c[1] as u32 != "FORM"@[0] as u32);
        assert(c[1] as u32 != "HEAP   "@[0] as u32);
        assert(c[3] as u32 != "LMAX"@[2] as u32);
        assert(lit_at(c, 1, "LMIN"@));
        assert(c[1] as u32 != "NULL"@[0] as u32);
        assert(c[1] as u32 != "SCAL"@[0] as u32);
        assert(c[1] as u32 != "TYPE"@[0] as u32);
        assert(c[1] as u32 != "UNIT"@[0] as u32);
        assert(c[1] as u32 != "ZERO"@[0] as u32);
    } else if c.subrange(0, 5) == seq![84u8, 76, 77, 65, 88] {
        assert(c[0] == c.subrange(0, 5)[0] && c[1] == c.subrange(0, 5)[1] && c[2] == c.subrange(0, 5)[2] && c[3] == c.subrange(0, 5)[3] && c[4] == c.subrange(0, 5)[4]);
        assert(c[1] as u32 != "BCOL"@[0] as u32);
        assert(c[1] as u32 != "DIM"@[0] as u32);
        assert(c[1] as u32 != "DISP"@[0] as u32);
        assert(c[1] as u32 != "DMAX"@[0] as u32);
        assert(c[1] as u32 != "DMIN"@[0] as u32);
        assert(c[1] as u32 != "FIELDS "@[0] as u32);
        assert(c[1] as u32 != "FORM"@[0] as u32);
        assert(c[1] as u32 != "HEAP   "@[0] as u32);
        assert(lit_at(c, 1, "LMAX"@));
        assert(c[3] as u32 != "LMIN"@[2] as u32);
        assert(c[1] as u32 != "NULL"@[0] as u32);
        assert(c[1] as u32 != "SCAL"@[0] as u32);
        assert(c[1] as u32 != "TYPE"@[0] as u32);
        assert(c[1] as u32 != "UNIT"@[0] as u32);
        assert(c[1] as u32 != "ZERO"@[0] as u32);
    } else if c.subrange(0, 5) == seq![84u8, 68, 77, 73, 78] {
        assert(c[0] == c.subrange(0, 5)[0] && c[1] == c.subrange(0, 5)[1] && c[2] == c.subrange(0, 5)[2] && c[3] == c.subrange(0, 5)[3] && c[4] == c.subrange(0, 5)[4]);
        assert(c[1] as u32 != "BCOL"@[0] as u32);
        assert(c[2] as u32 != "DIM"@[1] as u32);
        assert(c[2] as u32 != "DISP"@[1] as u32);
        assert(c[3] as u32 != "DMAX"@[2] as u32);
        assert(lit_at(c, 1, "DMIN"@));
        assert(c[1] as u32 != "FIELDS "@[0] as u32);
        assert(c[1] as u32 != "FORM"@[0] as u32);
        assert(c[1] as u32 != "HEAP   "@[0] as u32);
        assert(c[1] as u32 != "LMAX"@[0] as u32);
        assert(c[1] as u32 != "LMIN"@[0] as u32);
        assert(c[1] as u32 != "NULL"@[0] as u32);
        assert(c[1] as u32 != "SCAL"@[0] as u32);
        assert(c[1] as u32 != "TYPE"@[0] as u32);
        assert(c[1] as u32 != "UNIT"@[0] as u32);
        assert(c[1] as u32 != "ZERO"@[0] as u32);
    } else if c.subrange(0, 5) == seq![84u8, 68, 77, 65, 88] {
        assert(c[0] == c.subrange(0, 5)[0] && c[1] == c.subrange(0, 5)[1] && c[2] == c.subrange(0, 5)[2] && c[3] == c.subrange(0, 5)[3] && c[4] == c.subrange(0, 5)[4]);
        assert(c[1] as u32 != "BCOL"@[0] as u32);
        assert(c[2] as u32 != "DIM"@[1] as u32);
        assert(c[2] as u32 != "DISP"@[1] as u32);
        assert(lit_at(c, 1, "DMAX"@));
        assert(c[3] as u32 != "DMIN"@[2] as u32);
        assert(c[1] as u32 != "FIELDS "@[0] as u32);
        assert(c[1] as u32 != "FORM"@[0] as u32);
        assert(c[1] as u32 != "HEAP   "@[0] as u32);
        assert(c[1] as u32 != "LMAX"@[0] as u32);
        assert(c[1] as u32 != "LMIN"@[0] as u32);
        assert(c[1] as u32 != "NULL"@[0] as u32);
        assert(c[1] as u32 != "SCAL"@[0] as u32);
        assert(c[1] as u32 != "TYPE"@[0] as u32);
        assert(c[1] as u32 != "UNIT"@[0] as u32);
        assert(c[1] as u32 != "ZERO"@[0] as u32);
    } else if c.subrange(0, 5) == seq![67u8, 84, 89, 80, 69] {
        assert(c[0] == c.subrange(0, 5)[0] && c[1] == c.subrange(0, 5)[1] && c[2] == c.subrange(0, 5)[2] && c[3] == c.subrange(0, 5)[3] && c[4] == c.subrange(0, 5)[4]);
        assert(c[1] as u32 != "DELT"@[0] as u32);
        assert(c[1] as u32 != "HECKSUM"@[0] as u32);
        assert(c[1] as u32 != "OMMENT"@[0] as u32);
        assert(c[1] as u32 != "ONTINUE"@[0] as u32);
        assert(c[1] as u32 != "RDER"@[0] as u32);
        assert(c[1] as u32 != "ROTA"@[0] as u32);
        assert(c[1] as u32 != "RPIX"@[0] as u32);
        assert(c[1] as u32 != "RVAL"@[0] as u32);
        assert(c[1] as u32 != "SYER"@[0] as u32);
        assert(lit_at(c, 1, "TYPE"@));
        assert(c[1] as u32 != "UNIT"@[0] as u32);
    } else if c.subrange(0, 5) == seq![67u8, 85, 78, 73, 84] {
        assert(c[0] == c.subrange(0, 5)[0] && c[1] == c.subrange(0, 5)[1] && c[2] == c.subrange(0, 5)[2] && c[3] == c.subrange(0, 5)[3] && c[4] == c.subrange(0, 5)[4]);
        assert(c[1] as u32 != "DELT"@[0] as u32);
        assert(c[1] as u32 != "HECKSUM"@[0] as u32);
        assert(c[1] as u32 != "OMMENT"@[0] as u32);
        assert(c[1] as u32 != "ONTINUE"@[0] as u32);
        assert(c[1] as u32 != "RDER"@[0] as u32);
        assert(c[1] as u32 != "ROTA"@[0] as u32);
        assert(c[1] as u32 != "RPIX"@[0] as u32);
        assert(c[1] as u32 != "RVAL"@[0] as u32);
        assert(c[1] as u32 != "SYER"@[0] as u32);
        assert(c[1] as u32 != "TYPE"@[0] as u32);
        assert(lit_at(c, 1, "UNIT"@));
    } else if c.subrange(0, 5) == seq![67u8, 82, 86, 65, 76] {
        assert(c[0] == c.subrange(0, 5)[0] && c[1] == c.subrange(0, 5)[1] && c[2] == c.subrange(0, 5)[2] && c[3] == c.subrange(0, 5)[3] && c[4] == c.subrange(0, 5)[4]);
        assert(c[1] as u32 != "DELT"@[0] as u32);
        assert(c[1] as u32 != "HECKSUM"@[0] as u32);
        assert(c[1] as u32 != "OMMENT"@[0] as u32);
        assert(c[1] as u32 != "ONTINUE"@[0] as u32);
        assert(c[2] as u32 != "RDER"@[1] as u32);
        assert(c[2] as u32 != "ROTA"@[1] as u32);
        assert(c[2] as u32 != "RPIX"@[1] as u32);
        assert(lit_at(c, 1, "RVAL"@));
        assert(c[1] as u32 != "SYER"@[0] as u32);
        assert(c[1] as u32 != "TYPE"@[0] as u32);
        assert(c[1] as u32 != "UNIT"@[0] as u32);
    } else if c.subrange(0, 5) == seq![67u8, 82, 80, 73, 88] {
        assert(c[0] == c.subrange(0, 5)[0] && c[1] == c.subrange(0, 5)[1] && c[2] == c.subrange(0, 5)[2] && c[3] == c.subrange(0, 5)[3] && c[4] == c.subrange(0, 5)[4]);
        assert(c[1] as u32 != "DELT"@[0] as u32);
        assert(c[1] as u32 != "HECKSUM"@[0] as u32);
        assert(c[1] as u32 != "OMMENT"@[0] as u32);
        assert(c[1] as u32 != "ONTINUE"@[0] as u32);
        assert(c[2] as u32 != "RDER"@[1] as u32);
        assert(c[2] as u32 != "ROTA"@[1] as u32);
        assert(lit_at(c, 1, "RPIX"@));
        assert(c[2] as u32 != "RVAL"@[1] as u32);
        assert(c[1] as u32 != "SYER"@[0] as u32);
        assert(c[1] as u32 != "TYPE"@[0] as u32);
        assert(c[1] as u32 != "UNIT"@[0] as u32);
    } else if c.subrange(0, 5) == seq![67u8, 68, 69, 76, 84] {
        assert(c[0] == c.subrange(0, 5)[0] && c[1] == c.subrange(0, 5)[1] && c[2] == c.subrange(0, 5)[2] && c[3] == c.subrange(0, 5)[3] && c[4] == c.subrange(0, 5)[4]);
        assert(lit_at(c, 1, "DELT"@));
        assert(c[1] as u32 != "HECKSUM"@[0] as u32);
        assert(c[1] as u32 != "OMMENT"@[0] as u32);
        assert(c[1] as u32 != "ONTINUE"@[0] as u32);
        assert(c[1] as u32 != "RDER"@[0] as u32);
        assert(c[1] as u32 != "ROTA"@[0] as u32);
        assert(c[1] as u32 != "RPIX"@[0] as u32);
        assert(c[1] as u32 != "RVAL"@[0] as u32);
        assert(c[1] as u32 != "SYER"@[0] as u32);
        assert(c[1] as u32 != "TYPE"@[0] as u32);
        assert(c[1] as u32 != "UNIT"@[0] as u32);
    } else if c.subrange(0, 5) == seq![67u8, 82, 79, 84, 65] {
        assert(c[0] == c.subrange(0, 5)[0] && c[1] == c.subrange(0, 5)[1] && c[2] == c.subrange(0, 5)[2] && c[3] == c.subrange(0, 5)[3] && c[4] == c.subrange(0, 5)[4]);
        assert(c[1] as u32 != "DELT"@[0] as u32);
        assert(c[1] as u32 != "HECKSUM"@[0] as u32);
        assert(c[1] as u32 != "OMMENT"@[0] as u32);
        assert(c[1] as u32 != "ONTINUE"@[0] as u32);
        assert(c[2] as u32 != "RDER"@[1] as u32);
        assert(lit_at(c, 1, "ROTA"@));
        assert(c[2] as u32 != "RPIX"@[1] as u32);
        assert(c[2] as u32 != "RVAL"@[1] as u32);
        assert(c[1] as u32 != "SYER"@[0] as u32);
        assert(c[1] as u32 != "TYPE"@[0] as u32);
        assert(c[1] as u32 != "UNIT"@[0] as u32);
    } else if c.subrange(0, 4) == seq![84u8, 68, 73, 77] {
        assert(c[0] == c.subrange(0, 4)[0] && c[1] == c.subrange(0, 4)[1] && c[2] == c.subrange(0, 4)[2] && c[3] == c.subrange(0, 4)[3]);
        assert(c[1] as u32 != "BCOL"@[0] as u32);
        assert(lit_at(c, 1, "DIM"@));
        assert(c[3] as u32 != "DISP"@[2] as u32);
        assert(c[2] as u32 != "DMAX"@[1] as u32);
        assert(c[2] as u32 != "DMIN"@[1] as u32);
        assert(c[1] as u32 != "FIELDS "@[0] as u32);
        assert(c[1] as u32 != "FORM"@[0] as u32);
        assert(c[1] as u32 != "HEAP   "@[0] as u32);
        assert(c[1] as u32 != "LMAX"@[0] as u32);
        assert(c[1] as u32 != "LMIN"@[0] as u32);
        assert(c[1] as u32 != "NULL"@[0] as u32);
        assert(c[1] as u32 != "SCAL"@[0] as u32);
        assert(c[1] as u32 != "TYPE"@[0] as u32);
        assert(c[1] as u32 != "UNIT"@[0] as u32);
        assert(c[1] as u32 != "ZERO"@[0] as u32);
    }
}

/// Law: a comment that fits on the card after the value and does not end
/// in a space is read back whole.
pub proof fn lemma_card_comment_whole(vlen: int, c: Seq<u8>)
    requires
        c.len() > 0,
        value_end(vlen) + 3 + c.len() <= 80,
        c.last() != 32u8,
    ensures
        card_comment(vlen, Some(c)) == c,
{
    let len = value_end(vlen);
    assert(comment_room(c, len) == c.len());
    assert(c.subrange(0, c.len() as int) =~= c);
}
/// A byte that ends a plain keyword name: space, `=` or NUL.
pub open spec fn name_stop(c: u8) -> bool {
    c == 32u8 || c == 61u8 || c == 0u8
}

/// Law: the name `fits_get_keyname` gives for a card that is not
/// `HIERARCH` is its longest prefix of at most 74 bytes holding no space,
/// `=` or NUL.
pub proof fn lemma_plain_name_longest(b: Seq<u8>, ii: int)
    requires
        0 <= ii <= 74,
        ii <= b.len(),
        forall|k: int| 0 <= k < ii ==> !name_stop(#[trigger] b[k]),
    ensures
        ii <= plain_name_end(b, ii) <= 74,
        plain_name_end(b, ii) <= b.len(),
        forall|k: int| 0 <= k < plain_name_end(b, ii) ==> !name_stop(#[trigger] b[k]),
        plain_name_end(b, ii) < 74 ==> plain_name_end(b, ii) == b.len() || name_stop(b[plain_name_end(b, ii)]),
    decreases 74 - ii,
{
    if ii < 74 {
        let c = byte_or_nul(b, ii);
        if !(c == 32u8 || c == 61u8 || c == 0u8) {
            assert(ii < b.len());
            lemma_plain_name_longest(b, ii + 1);
        }
    }
}

/// The first eight bytes of `k` (all of it when shorter) are keyword
/// characters up to `j`, then spaces.
pub open spec fn name_then_spaces(k: Seq<u8>, j: int) -> bool {
    let m = if k.len() < 8 { k.len() as int } else { 8 };
    &&& 0 <= j <= m
    &&& forall|i: int| 0 <= i < j ==> legal_key_char(#[trigger] k[i])
    &&& forall|i: int| j <= i < m ==> #[trigger] k[i] == 32u8
}

/// First space in `k[i..m]`, or `m`.
pub open spec fn first_space(k: Seq<u8>, i: int, m: int) -> int
    decreases m - i,
{
    if i >= m {
        m
    } else if k[i] == 32u8 {
        i
    } else {
        first_space(k, i + 1, m)
    }
}

proof fn lemma_first_space(k: Seq<u8>, i: int, m: int)
    requires
        0 <= i <= m,
    ensures
        i <= first_space(k, i, m) <= m,
        forall|t: int| i <= t < first_space(k, i, m) ==> k[t] != 32u8,
        first_space(k, i, m) < m ==> k[first_space(k, i, m)] == 32u8,
    decreases m - i,
{
    if i < m && k[i] != 32u8 {
        lemma_first_space(k, i + 1, m);
    }
}

/// Law: `fits_test_keyword` accepts exactly the names whose first eight
/// bytes are keyword characters (upper-case letters, digits, `-`, `_`)
/// followed only by spaces; bytes after the eighth are never looked at.
pub proof fn lemma_keyword_ok_shape(k: Seq<u8>)
    ensures
        keyword_ok(k, false) <==> exists|j: int| #[trigger] name_then_spaces(k, j),
{
    let m = if k.len() < 8 { k.len() as int } else { 8 };
    if keyword_ok(k, false) {
        lemma_first_space(k, 0, m);
        let j = first_space(k, 0, m);
        assert forall|i: int| 0 <= i < j implies legal_key_char(#[trigger] k[i]) by {
            assert(key_byte_ok(k, i, false));
        }
        assert forall|i: int| j <= i < m implies #[trigger] k[i] == 32u8 by {
            assert(key_byte_ok(k, i, false));
            if k[i] != 32u8 {
                assert(k[j] == 32u8);
                assert(j < i);
            }
        }
        assert(name_then_spaces(k, j));
    }
    if exists|j: int| #[trigger] name_then_spaces(k, j) {
        let j = choose|j: int| #[trigger] name_then_spaces(k, j);
        assert forall|t: int| 0 <= t < m implies #[trigger] key_byte_ok(k, t, false) by {
            if t < j {
                assert(legal_key_char(k[t]));
                assert forall|i: int| 0 <= i < t implies k[i] != 32u8 by {
                    assert(legal_key_char(k[i]));
                }
            } else {
                assert(k[t] == 32u8);
                assert(!legal_key_char(32u8));
            }
        }
    }
}

} // verus!
