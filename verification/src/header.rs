//! In-memory header: a sequence of 80-byte cards, its record image with the
//! `END` card and fill, and the keywords a primary array or an IMAGE
//! extension needs (`ffphpr`).
use vstd::prelude::*;
use vstd::string::StringSliceAdditionalSpecFns;
use vstd::utf8::*;
use crate::card::{
    card_comment, key_card, lemma_card_len, lemma_card_value_roundtrip, make_key_message, name8_upper, name_field,
    opt_seq, pad_card, parse_fault_message, parse_fault_status, parse_value_of, plain_key_name, plain_key_value,
    printable_text, Card, MakeKeyFault, ParseFault,
};
use crate::error::FitsError;
use crate::status::{BAD_BITPIX, BAD_INTKEY, BAD_KEYCHAR, BAD_NAXIS, KEY_NO_EXIST, NEG_AXIS, NO_END};
use crate::tdim::{all_digits, digits_value, parse_i64, parse_i64_exec, trim_bounds, trim_end_ws, trim_start_ws, trim_ws};
use crate::text::{
    chars_of, copy_range, decimal_int, decimal_nat, format_i64, latin1, lemma_latin1_ascii, lit_at, push_range, push_spaces,
    spaces, str_from_utf8, to_upper, utf8_or_empty,
};
use crate::types::ImageType;

verus! {

/// Ordered list of header cards, without the END card or fill.
#[derive(Clone, Debug)]
pub struct Header {
    cards: Vec<Card>,
}

impl View for Header {
    type V = Seq<Seq<u8>>;

    /// The bytes of each card, in order.
    closed spec fn view(&self) -> Seq<Seq<u8>> {
        self.cards@.map_values(|c: Card| c@)
    }
}

/// Why building a header stops.
#[derive(Debug, Clone, Copy, PartialEq, Eq)]
pub enum HeaderFault {
    /// `ffmkky` refused a card.
    Key(MakeKeyFault),
    /// More than 999 axes (`BAD_NAXIS`).
    BadNaxis,
    /// An axis length below 1 (`NEG_AXIS`).
    NegAxis,
}

/// The error reported for a fault.
pub open spec fn fault_error(e: FitsError, f: HeaderFault) -> bool {
    match f {
        HeaderFault::Key(k) => e.status == BAD_KEYCHAR && e.message_list() == seq![
            make_key_message(k),
        ],
        HeaderFault::BadNaxis => e.status == BAD_NAXIS && e.message_list().len() == 0,
        HeaderFault::NegAxis => e.status == NEG_AXIS && e.message_list().len() == 0,
    }
}

/// The cards after appending the `ffmkky` card for a keyword.
pub open spec fn add_key(
    h: Result<Seq<Seq<u8>>, HeaderFault>,
    name: Seq<u8>,
    value: Seq<u8>,
    comm: Option<Seq<u8>>,
) -> Result<Seq<Seq<u8>>, HeaderFault> {
    match h {
        Err(f) => Err(f),
        Ok(cs) => match key_card(name, value, comm) {
            Ok(c) => Ok(cs.push(c)),
            Err(f) => Err(HeaderFault::Key(f)),
        },
    }
}

/// The cards after appending a card given as text.
pub open spec fn add_text(h: Result<Seq<Seq<u8>>, HeaderFault>, text: Seq<u8>) -> Result<
    Seq<Seq<u8>>,
    HeaderFault,
> {
    match h {
        Err(f) => Err(f),
        Ok(cs) => Ok(cs.push(pad_card(text))),
    }
}

/// Result of a header builder as its cards or its fault.
pub open spec fn header_result(r: Result<Header, FitsError>, s: Result<Seq<Seq<u8>>, HeaderFault>) -> bool {
    match s {
        Ok(cs) => r matches Ok(h) && h@ == cs,
        Err(f) => r matches Err(e) && fault_error(e, f),
    }
}

impl Header {
    /// Empty header (no cards yet).
    pub fn new() -> (r: Header)
        ensures
            r@ == Seq::<Seq<u8>>::empty(),
    {
        let r = Header { cards: Vec::new() };
        assert(r@ =~= Seq::<Seq<u8>>::empty());
        r
    }

    /// Number of keyword cards (not counting END or fill).
    pub fn len(&self) -> (r: usize)
        ensures
            r == self@.len(),
    {
        self.cards.len()
    }

    /// True if no cards have been written.
    pub fn is_empty(&self) -> (r: bool)
        ensures
            r == (self@.len() == 0),
    {
        self.cards.len() == 0
    }

    /// Append a fully formatted card.
    pub fn push(&mut self, card: Card)
        ensures
            final(self)@ == old(self)@.push(card@),
    {
        self.cards.push(card);
        assert(self@ =~= old(self)@.push(card@));
    }

    /// Cards in order.
    pub fn cards(&self) -> (r: &[Card])
        ensures
            r@.map_values(|c: Card| c@) == self@,
    {
        self.cards.as_slice()
    }

    /// Append the `ffmkky` card for a keyword given as bytes.
    pub(crate) fn write_bytes(&mut self, name: &[u8], value: &[u8], comm: Option<&[u8]>) -> (r: Result<
        (),
        FitsError,
    >)
        ensures
            match key_card(name@, value@, opt_seq(comm)) {
                Ok(c) => r is Ok && final(self)@ == old(self)@.push(c),
                Err(f) => r matches Err(e) && e.status == BAD_KEYCHAR && e.message_list()
                    == seq![make_key_message(f)] && final(self)@ == old(self)@,
            },
    {
        match Card::from_parts(name, value, comm) {
            Ok(c) => {
                self.push(c);
                Ok(())
            },
            Err(e) => Err(e),
        }
    }

    /// `fits_write_key_log` / `ffpkyl`.
    pub fn write_logical(&mut self, name: &str, value: bool, comm: Option<&str>) -> (r: Result<
        (),
        FitsError,
    >)
        ensures
            match key_card(
                name.spec_bytes(),
                (if value { "T" } else { "F" }).spec_bytes(),
                opt_str_bytes(comm),
            ) {
                Ok(c) => r is Ok && final(self)@ == old(self)@.push(c),
                Err(f) => r matches Err(e) && e.status == BAD_KEYCHAR && e.message_list()
                    == seq![make_key_message(f)] && final(self)@ == old(self)@,
            },
    {
        let v = if value { "T" } else { "F" };
        self.write_bytes(name.as_bytes(), v.as_bytes(), opt_as_bytes(comm))
    }

    /// `fits_write_key_lng` / `ffpkyj`.
    pub fn write_long(&mut self, name: &str, value: i64, comm: Option<&str>) -> (r: Result<
        (),
        FitsError,
    >)
        ensures
            match key_card(name.spec_bytes(), decimal_int(value as int), opt_str_bytes(comm)) {
                Ok(c) => r is Ok && final(self)@ == old(self)@.push(c),
                Err(f) => r matches Err(e) && e.status == BAD_KEYCHAR && e.message_list()
                    == seq![make_key_message(f)] && final(self)@ == old(self)@,
            },
    {
        let v = format_i64(value);
        self.write_bytes(name.as_bytes(), v.as_slice(), opt_as_bytes(comm))
    }

    /// `fits_write_key_str` / `ffpkys`: the value quoted as `ffs2c` does.
    pub fn write_string(&mut self, name: &str, value: &str, comm: Option<&str>) -> (r: Result<
        (),
        FitsError,
    >)
        ensures
            match key_card(
                name.spec_bytes(),
                crate::card::quote_value(value.spec_bytes()),
                opt_str_bytes(comm),
            ) {
                Ok(c) => r is Ok && final(self)@ == old(self)@.push(c),
                Err(f) => r matches Err(e) && e.status == BAD_KEYCHAR && e.message_list()
                    == seq![make_key_message(f)] && final(self)@ == old(self)@,
            },
    {
        let v = crate::card::quote_value_bytes(value.as_bytes());
        self.write_bytes(name.as_bytes(), v.as_slice(), opt_as_bytes(comm))
    }
}

/// The bytes of an optional string.
pub open spec fn opt_str_bytes(o: Option<&str>) -> Option<Seq<u8>> {
    match o {
        Some(s) => Some(s.spec_bytes()),
        None => None,
    }
}

fn opt_as_bytes(o: Option<&str>) -> (r: Option<&[u8]>)
    ensures
        opt_seq(r) == opt_str_bytes(o),
{
    match o {
        Some(s) => Some(s.as_bytes()),
        None => None,
    }
}

/// `ffphpr` self-documenting COMMENT card, first line.
pub const COMMENT_FITS_1: &'static str =
    "COMMENT   FITS (Flexible Image Transport System) format is defined in 'Astronomy";

/// `ffphpr` self-documenting COMMENT card, second line.
pub const COMMENT_FITS_2: &'static str =
    "COMMENT   and Astrophysics', volume 376, page 359; bibcode: 2001A&A...376..359H";

/// Comment of `SIMPLE`.
pub const COMM_SIMPLE: &'static str = "file does conform to FITS standard";

/// Comment of `BITPIX`.
pub const COMM_BITPIX: &'static str = "number of bits per data pixel";

/// Comment of `NAXIS`.
pub const COMM_NAXIS: &'static str = "number of data axes";

/// Comment of `EXTEND`.
pub const COMM_EXTEND: &'static str = "FITS dataset may contain extensions";

/// Comment of `NAXISn`, before the axis number.
pub const COMM_NAXIS_N: &'static str = "length of data axis ";

/// Comment of `XTENSION = 'IMAGE'`.
pub const COMM_XTENSION_IMAGE: &'static str = "IMAGE extension";

/// Comment of `PCOUNT`.
pub const COMM_PCOUNT: &'static str = "required keyword; must = 0";

/// Comment of `GCOUNT`.
pub const COMM_GCOUNT: &'static str = "required keyword; must = 1";

/// Comment of `BSCALE`.
pub const COMM_BSCALE: &'static str = "default scaling factor";

/// Comment of `BZERO` for unsigned 16-bit pixels.
pub const COMM_BZERO_USHORT: &'static str = "offset data range to that of unsigned short";

/// Comment of `BZERO` for unsigned 32-bit pixels.
pub const COMM_BZERO_ULONG: &'static str = "offset data range to that of unsigned long";

/// Comment of `BZERO` for signed bytes.
pub const COMM_BZERO_SBYTE: &'static str = "offset data range to that of signed byte";

/// `BZERO` card for unsigned 64-bit pixels (2^63 does not fit in `i64`).
pub const BZERO_ULONGLONG_CARD: &'static str =
    "BZERO   =  9223372036854775808 / offset data range to that of unsigned long long";

/// CFITSIO's empty primary array: SIMPLE, BITPIX = 8, NAXIS = 0, EXTEND and
/// the two COMMENT cards.
pub open spec fn empty_primary_cards() -> Result<Seq<Seq<u8>>, HeaderFault> {
    let h0 = Ok(Seq::<Seq<u8>>::empty());
    let h1 = add_key(h0, "SIMPLE".spec_bytes(), "T".spec_bytes(), Some(COMM_SIMPLE.spec_bytes()));
    let h2 = add_key(h1, "BITPIX".spec_bytes(), decimal_int(8), Some(COMM_BITPIX.spec_bytes()));
    let h3 = add_key(h2, "NAXIS".spec_bytes(), decimal_int(0), Some(COMM_NAXIS.spec_bytes()));
    let h4 = add_key(h3, "EXTEND".spec_bytes(), "T".spec_bytes(), Some(COMM_EXTEND.spec_bytes()));
    add_text(add_text(h4, COMMENT_FITS_1.spec_bytes()), COMMENT_FITS_2.spec_bytes())
}

impl Header {
    /// CFITSIO empty primary: SIMPLE/BITPIX=8/NAXIS=0/EXTEND plus COMMENTs.
    pub fn empty_primary() -> (r: Result<Header, FitsError>)
        ensures
            header_result(r, empty_primary_cards()),
    {
        let mut h = Header::new();
        if let Err(e) = h.write_logical("SIMPLE", true, Some(COMM_SIMPLE)) {
            return Err(e);
        }
        if let Err(e) = h.write_long("BITPIX", 8, Some(COMM_BITPIX)) {
            return Err(e);
        }
        if let Err(e) = h.write_long("NAXIS", 0, Some(COMM_NAXIS)) {
            return Err(e);
        }
        if let Err(e) = h.write_logical("EXTEND", true, Some(COMM_EXTEND)) {
            return Err(e);
        }
        h.push(Card::from_text(COMMENT_FITS_1));
        h.push(Card::from_text(COMMENT_FITS_2));
        Ok(h)
    }
}

/// The `NAXISn` cards for the first `k` axes, after `h`.
pub open spec fn axis_keys(h: Result<Seq<Seq<u8>>, HeaderFault>, naxes: Seq<i64>, k: int) -> Result<
    Seq<Seq<u8>>,
    HeaderFault,
>
    decreases k,
{
    if k <= 0 {
        h
    } else {
        match axis_keys(h, naxes, k - 1) {
            Err(f) => Err(f),
            Ok(cs) => if naxes[k - 1] < 1 {
                Err(HeaderFault::NegAxis)
            } else {
                add_key(
                    Ok(cs),
                    "NAXIS".spec_bytes() + decimal_int(k),
                    decimal_int(naxes[k - 1] as int),
                    Some(COMM_NAXIS_N.spec_bytes() + decimal_int(k)),
                )
            },
        }
    }
}

/// The `BZERO` / `BSCALE` cards of the unsigned (and signed-byte) types.
pub open spec fn unsigned_scaling(h: Result<Seq<Seq<u8>>, HeaderFault>, ty: ImageType) -> Result<
    Seq<Seq<u8>>,
    HeaderFault,
> {
    let one = decimal_int(1);
    let bscale = Some(COMM_BSCALE.spec_bytes());
    match ty {
        ImageType::U16 => add_key(
            add_key(h, "BZERO".spec_bytes(), decimal_int(32768), Some(COMM_BZERO_USHORT.spec_bytes())),
            "BSCALE".spec_bytes(),
            one,
            bscale,
        ),
        ImageType::U32 => add_key(
            add_key(h, "BZERO".spec_bytes(), decimal_int(2147483648), Some(COMM_BZERO_ULONG.spec_bytes())),
            "BSCALE".spec_bytes(),
            one,
            bscale,
        ),
        ImageType::U64 => add_key(
            add_text(h, BZERO_ULONGLONG_CARD.spec_bytes()),
            "BSCALE".spec_bytes(),
            one,
            bscale,
        ),
        ImageType::I8 => add_key(
            add_key(h, "BZERO".spec_bytes(), decimal_int(-128), Some(COMM_BZERO_SBYTE.spec_bytes())),
            "BSCALE".spec_bytes(),
            one,
            bscale,
        ),
        _ => h,
    }
}

/// A fault stays the result of every later step.
proof fn lemma_axis_keys_err(h: Result<Seq<Seq<u8>>, HeaderFault>, naxes: Seq<i64>, j: int, k: int)
    requires
        0 <= j <= k,
        axis_keys(h, naxes, j) is Err,
    ensures
        axis_keys(h, naxes, k) == axis_keys(h, naxes, j),
    decreases k,
{
    if k > j {
        lemma_axis_keys_err(h, naxes, j, k - 1);
    }
}

/// A fault before the axes is the result after them.
proof fn lemma_axis_keys_err_input(f: HeaderFault, naxes: Seq<i64>, k: int)
    ensures
        axis_keys(Err(f), naxes, k) == Err::<Seq<Seq<u8>>, HeaderFault>(f),
    decreases k,
{
    if k > 0 {
        lemma_axis_keys_err_input(f, naxes, k - 1);
    }
}

/// A fault before the axes is the result of the whole header.
proof fn lemma_early_fault(ty: ImageType, naxes: Seq<i64>)
    ensures
        forall|f: HeaderFault|
            #![trigger axis_keys(Err(f), naxes, naxes.len() as int)]
            axis_keys(Err(f), naxes, naxes.len() as int) == Err::<Seq<Seq<u8>>, HeaderFault>(f)
                && unsigned_scaling(Err(f), ty) == Err::<Seq<Seq<u8>>, HeaderFault>(f),
{
    assert forall|f: HeaderFault| #![trigger axis_keys(Err(f), naxes, naxes.len() as int)]
        axis_keys(Err(f), naxes, naxes.len() as int) == Err::<Seq<Seq<u8>>, HeaderFault>(f)
            && unsigned_scaling(Err(f), ty) == Err::<Seq<Seq<u8>>, HeaderFault>(f) by {
        lemma_axis_keys_err_input(f, naxes, naxes.len() as int);
    }
}

/// Every later step keeps a fault.
proof fn lemma_scaling_err(f: HeaderFault, ty: ImageType)
    ensures
        unsigned_scaling(Err(f), ty) == Err::<Seq<Seq<u8>>, HeaderFault>(f),
{
}

/// Appends the bytes of `s`.
fn push_str(out: &mut Vec<u8>, s: &str)
    ensures
        final(out)@ == old(out)@ + s.spec_bytes(),
{
    let b = s.as_bytes();
    let mut k: usize = 0;
    while k < b.len()
        invariant
            b@ == s.spec_bytes(),
            k <= b@.len(),
            out@ == old(out)@ + b@.subrange(0, k as int),
        decreases b.len() - k,
    {
        out.push(b[k]);
        assert(b@.subrange(0, k + 1) =~= b@.subrange(0, k as int).push(b@[k as int]));
        k += 1;
    }
    assert(b@.subrange(0, b@.len() as int) =~= b@);
}

/// `s` followed by the decimal digits of `n`.
pub(crate) fn with_number(s: &str, n: i64) -> (r: Vec<u8>)
    ensures
        r@ == s.spec_bytes() + decimal_int(n as int),
{
    let mut out: Vec<u8> = Vec::new();
    push_str(&mut out, s);
    let d = format_i64(n);
    let mut k: usize = 0;
    let ghost start = out@;
    while k < d.len()
        invariant
            k <= d@.len(),
            out@ == start + d@.subrange(0, k as int),
        decreases d.len() - k,
    {
        out.push(d[k]);
        assert(d@.subrange(0, k + 1) =~= d@.subrange(0, k as int).push(d@[k as int]));
        k += 1;
    }
    assert(d@.subrange(0, d@.len() as int) =~= d@);
    assert(out@ =~= s.spec_bytes() + decimal_int(n as int));
    out
}

impl Header {
    /// Append `NAXIS1 ..= NAXISn`.
    fn write_axes(&mut self, naxes: &[i64]) -> (r: Result<(), FitsError>)
        requires
            naxes@.len() <= 999,
        ensures
            match axis_keys(Ok(old(self)@), naxes@, naxes@.len() as int) {
                Ok(cs) => r is Ok && final(self)@ == cs,
                Err(f) => r matches Err(e) && fault_error(e, f),
            },
    {
        let ghost base: Result<Seq<Seq<u8>>, HeaderFault> = Ok(self@);
        let mut i: usize = 0;
        while i < naxes.len()
            invariant
                naxes@.len() <= 999,
                i <= naxes@.len(),
                base == Ok::<Seq<Seq<u8>>, HeaderFault>(old(self)@),
                axis_keys(base, naxes@, i as int) == Ok::<Seq<Seq<u8>>, HeaderFault>(self@),
            decreases naxes.len() - i,
        {
            let len = naxes[i];
            if len < 1 {
                proof {
                    lemma_axis_keys_err(base, naxes@, i + 1, naxes@.len() as int);
                }
                return Err(FitsError::new(NEG_AXIS));
            }
            let name = with_number("NAXIS", (i + 1) as i64);
            let comm = with_number(COMM_NAXIS_N, (i + 1) as i64);
            let value = format_i64(len);
            match self.write_bytes(name.as_slice(), value.as_slice(), Some(comm.as_slice())) {
                Err(e) => {
                    proof {
                        lemma_axis_keys_err(base, naxes@, i + 1, naxes@.len() as int);
                    }
                    return Err(e);
                },
                Ok(()) => {},
            }
            i += 1;
        }
        Ok(())
    }

    /// Append the unsigned-type scaling cards.
    fn write_unsigned_scaling(&mut self, ty: ImageType) -> (r: Result<(), FitsError>)
        ensures
            match unsigned_scaling(Ok(old(self)@), ty) {
                Ok(cs) => r is Ok && final(self)@ == cs,
                Err(f) => r matches Err(e) && fault_error(e, f),
            },
    {
        match ty {
            ImageType::U16 => {
                if let Err(e) = self.write_long("BZERO", 32768, Some(COMM_BZERO_USHORT)) {
                    return Err(e);
                }
            },
            ImageType::U32 => {
                if let Err(e) = self.write_long("BZERO", 2147483648, Some(COMM_BZERO_ULONG)) {
                    return Err(e);
                }
            },
            ImageType::U64 => {
                self.push(Card::from_text(BZERO_ULONGLONG_CARD));
            },
            ImageType::I8 => {
                if let Err(e) = self.write_long("BZERO", -128, Some(COMM_BZERO_SBYTE)) {
                    return Err(e);
                }
            },
            _ => {
                return Ok(());
            },
        }
        self.write_long("BSCALE", 1, Some(COMM_BSCALE))
    }
}

/// Required keywords for a primary image (`ffphps`).
pub open spec fn primary_image_cards(ty: ImageType, naxes: Seq<i64>) -> Result<Seq<Seq<u8>>, HeaderFault> {
    if naxes.len() > 999 {
        Err(HeaderFault::BadNaxis)
    } else {
        let h0 = Ok(Seq::<Seq<u8>>::empty());
        let h1 = add_key(h0, "SIMPLE".spec_bytes(), "T".spec_bytes(), Some(COMM_SIMPLE.spec_bytes()));
        let h2 = add_key(h1, "BITPIX".spec_bytes(), decimal_int(ty.spec_bitpix() as int), Some(COMM_BITPIX.spec_bytes()));
        let h3 = add_key(h2, "NAXIS".spec_bytes(), decimal_int(naxes.len() as int), Some(COMM_NAXIS.spec_bytes()));
        let h4 = axis_keys(h3, naxes, naxes.len() as int);
        let h5 = add_key(h4, "EXTEND".spec_bytes(), "T".spec_bytes(), Some(COMM_EXTEND.spec_bytes()));
        unsigned_scaling(add_text(add_text(h5, COMMENT_FITS_1.spec_bytes()), COMMENT_FITS_2.spec_bytes()), ty)
    }
}

/// Required keywords for an IMAGE extension.
pub open spec fn image_extension_cards(ty: ImageType, naxes: Seq<i64>) -> Result<Seq<Seq<u8>>, HeaderFault> {
    if naxes.len() > 999 {
        Err(HeaderFault::BadNaxis)
    } else {
        let h0 = Ok(Seq::<Seq<u8>>::empty());
        let h1 = add_key(h0, "XTENSION".spec_bytes(), crate::card::quote_value("IMAGE".spec_bytes()), Some(COMM_XTENSION_IMAGE.spec_bytes()));
        let h2 = add_key(h1, "BITPIX".spec_bytes(), decimal_int(ty.spec_bitpix() as int), Some(COMM_BITPIX.spec_bytes()));
        let h3 = add_key(h2, "NAXIS".spec_bytes(), decimal_int(naxes.len() as int), Some(COMM_NAXIS.spec_bytes()));
        let h4 = axis_keys(h3, naxes, naxes.len() as int);
        let h5 = add_key(h4, "PCOUNT".spec_bytes(), decimal_int(0), Some(COMM_PCOUNT.spec_bytes()));
        let h6 = add_key(h5, "GCOUNT".spec_bytes(), decimal_int(1), Some(COMM_GCOUNT.spec_bytes()));
        unsigned_scaling(h6, ty)
    }
}

impl Header {
    /// Required keywords for a primary image (`ffphps` / `ffcrim` on HDU 0).
    pub fn primary_image(ty: ImageType, naxes: &[i64]) -> (r: Result<Header, FitsError>)
        ensures
            header_result(r, primary_image_cards(ty, naxes@)),
    {
        if naxes.len() > 999 {
            return Err(FitsError::new(BAD_NAXIS));
        }
        let mut h = Header::new();
        if let Err(e) = h.write_logical("SIMPLE", true, Some(COMM_SIMPLE)) {
            proof {
                lemma_early_fault(ty, naxes@);
            }
            return Err(e);
        }
        if let Err(e) = h.write_long("BITPIX", ty.bitpix() as i64, Some(COMM_BITPIX)) {
            proof {
                lemma_early_fault(ty, naxes@);
            }
            return Err(e);
        }
        if let Err(e) = h.write_long("NAXIS", naxes.len() as i64, Some(COMM_NAXIS)) {
            proof {
                lemma_early_fault(ty, naxes@);
            }
            return Err(e);
        }
        let ghost before_axes = h@;
        if let Err(e) = h.write_axes(naxes) {
            proof {
                let f = axis_keys(Ok(before_axes), naxes@, naxes@.len() as int)->Err_0;
                lemma_scaling_err(f, ty);
            }
            return Err(e);
        }
        if let Err(e) = h.write_logical("EXTEND", true, Some(COMM_EXTEND)) {
            return Err(e);
        }
        h.push(Card::from_text(COMMENT_FITS_1));
        h.push(Card::from_text(COMMENT_FITS_2));
        if let Err(e) = h.write_unsigned_scaling(ty) {
            return Err(e);
        }
        Ok(h)
    }

    /// Required keywords for an IMAGE extension (`ffphpr` when not HDU 0).
    pub fn image_extension(ty: ImageType, naxes: &[i64]) -> (r: Result<Header, FitsError>)
        ensures
            header_result(r, image_extension_cards(ty, naxes@)),
    {
        if naxes.len() > 999 {
            return Err(FitsError::new(BAD_NAXIS));
        }
        let mut h = Header::new();
        if let Err(e) = h.write_string("XTENSION", "IMAGE", Some(COMM_XTENSION_IMAGE)) {
            proof {
                lemma_early_fault(ty, naxes@);
            }
            return Err(e);
        }
        if let Err(e) = h.write_long("BITPIX", ty.bitpix() as i64, Some(COMM_BITPIX)) {
            proof {
                lemma_early_fault(ty, naxes@);
            }
            return Err(e);
        }
        if let Err(e) = h.write_long("NAXIS", naxes.len() as i64, Some(COMM_NAXIS)) {
            proof {
                lemma_early_fault(ty, naxes@);
            }
            return Err(e);
        }
        let ghost before_axes = h@;
        if let Err(e) = h.write_axes(naxes) {
            proof {
                let f = axis_keys(Ok(before_axes), naxes@, naxes@.len() as int)->Err_0;
                lemma_scaling_err(f, ty);
            }
            return Err(e);
        }
        if let Err(e) = h.write_long("PCOUNT", 0, Some(COMM_PCOUNT)) {
            return Err(e);
        }
        if let Err(e) = h.write_long("GCOUNT", 1, Some(COMM_GCOUNT)) {
            return Err(e);
        }
        if let Err(e) = h.write_unsigned_scaling(ty) {
            return Err(e);
        }
        Ok(h)
    }
}

/// Index of the first card, from `i` on, whose 8-character name matches
/// that of `key` (ASCII case-insensitive, space-padded).
pub open spec fn find_card_from(cards: Seq<Seq<u8>>, key: Seq<u8>, i: int) -> Option<int>
    decreases cards.len() - i,
{
    if i < 0 || i >= cards.len() {
        None
    } else if name8_upper(cards[i]) == name8_upper(key) {
        Some(i)
    } else {
        find_card_from(cards, key, i + 1)
    }
}

/// Index of the first card named like `key`.
pub open spec fn find_card(cards: Seq<Seq<u8>>, key: Seq<u8>) -> Option<int> {
    find_card_from(cards, key, 0)
}

/// Why reading a keyword fails.
#[derive(Debug, Clone, Copy, PartialEq, Eq)]
pub enum ReadFault {
    /// No card has the name (`KEY_NO_EXIST`).
    Missing,
    /// `ffpsvc` refused the card.
    Parse(ParseFault),
    /// The value is not an integer (`BAD_INTKEY`).
    NotInt,
    /// `NAXIS` is negative (`BAD_NAXIS`).
    BadNaxis,
    /// `BITPIX` does not fit in `i32` (`BAD_BITPIX`).
    BadBitpix,
}

/// The error reported for a read fault.
pub open spec fn read_error(e: FitsError, f: ReadFault) -> bool {
    match f {
        ReadFault::Missing => e.status == KEY_NO_EXIST && e.message_list().len() == 0,
        ReadFault::Parse(p) => e.status == parse_fault_status(p) && e.message_list() == seq![
            parse_fault_message(p),
        ],
        ReadFault::NotInt => e.status == BAD_INTKEY && e.message_list().len() == 0,
        ReadFault::BadNaxis => e.status == BAD_NAXIS && e.message_list().len() == 0,
        ReadFault::BadBitpix => e.status == BAD_BITPIX && e.message_list().len() == 0,
    }
}

/// The characters of the value field of a card, as `ffpsvc` gives them.
pub open spec fn value_chars(card: Seq<u8>) -> Result<Seq<char>, ReadFault> {
    match parse_value_of(utf8_or_empty(card)) {
        Err(f) => Err(ReadFault::Parse(f)),
        Ok((v, _)) => Ok(decode_utf8(utf8_or_empty(v))),
    }
}

/// `fits_read_key_lng` on the cards: the value, trimmed, read as `i64`.
pub open spec fn key_i64(cards: Seq<Seq<u8>>, name: Seq<u8>) -> Result<i64, ReadFault> {
    match find_card(cards, name) {
        None => Err(ReadFault::Missing),
        Some(i) => match value_chars(cards[i]) {
            Err(f) => Err(f),
            Ok(v) => match parse_i64(trim_ws(v)) {
                Some(x) => Ok(x),
                None => Err(ReadFault::NotInt),
            },
        },
    }
}

/// `name` padded or cut to 8 bytes and upper-cased.
fn name8_of(b: &[u8]) -> (r: Vec<u8>)
    ensures
        r@ == name8_upper(b@),
{
    let mut out: Vec<u8> = Vec::new();
    let mut i: usize = 0;
    while i < 8
        invariant
            i <= 8,
            out@ == name8_upper(b@).subrange(0, i as int),
        decreases 8 - i,
    {
        let x = if i < b.len() { b[i] } else { 32u8 };
        let u = if 97 <= x && x <= 122 { x - 32 } else { x };
        out.push(u);
        assert(out@ =~= name8_upper(b@).subrange(0, i + 1));
        i += 1;
    }
    assert(name8_upper(b@).subrange(0, 8) =~= name8_upper(b@));
    out
}

/// Does the card's 8-character name equal `key8`?
fn same_name(card: &Card, key8: &Vec<u8>) -> (r: bool)
    requires
        key8@.len() == 8,
    ensures
        r == (name8_upper(card@) == key8@),
{
    let b = card.as_bytes();
    proof {
        lemma_card_len(*card);
    }
    let mut i: usize = 0;
    while i < 8
        invariant
            i <= 8,
            b@ == card@,
            b@.len() == 80,
            key8@.len() == 8,
            forall|j: int| 0 <= j < i ==> name8_upper(card@)[j] == key8@[j],
        decreases 8 - i,
    {
        let x = b[i];
        let u = if 97 <= x && x <= 122 { x - 32 } else { x };
        if u != key8[i] {
            assert(name8_upper(card@)[i as int] != key8@[i as int]);
            return false;
        }
        i += 1;
    }
    assert(name8_upper(card@) =~= key8@);
    true
}

impl Header {
    /// Index of the first card named like `name`.
    fn position_of(&self, name: &[u8]) -> (r: Option<usize>)
        ensures
            match find_card(self@, name@) {
                Some(i) => r == Some(i as usize),
                None => r is None,
            },
    {
        let key8 = name8_of(name);
        let mut i: usize = 0;
        while i < self.cards.len()
            invariant
                i <= self.cards@.len(),
                key8@ == name8_upper(name@),
                find_card_from(self@, name@, 0) == find_card_from(self@, name@, i as int),
            decreases self.cards.len() - i,
        {
            assert(self@[i as int] == self.cards@[i as int]@);
            if same_name(&self.cards[i], &key8) {
                return Some(i);
            }
            i += 1;
        }
        None
    }

    /// First card whose 8-character name matches `name` (case-insensitive).
    pub fn card_by_name(&self, name: &str) -> (r: Option<&Card>)
        ensures
            match find_card(self@, name.spec_bytes()) {
                Some(i) => r matches Some(c) && c@ == self@[i],
                None => r is None,
            },
    {
        self.card_by_name_bytes(name.as_bytes())
    }

    pub(crate) fn card_by_name_bytes(&self, name: &[u8]) -> (r: Option<&Card>)
        ensures
            match find_card(self@, name@) {
                Some(i) => r matches Some(c) && c@ == self@[i],
                None => r is None,
            },
    {
        match self.position_of(name) {
            Some(i) => {
                proof {
                    lemma_find_card_bounds(self@, name@, 0);
                }
                assert(self@[i as int] == self.cards@[i as int]@);
                let c = &self.cards[i];
                let n = self.cards.len();
                assert(self@.len() == n);
                assert(find_card(self@, name@) == Some(i as int));
                Some(c)
            },
            None => None,
        }
    }

    /// Integer keyword value (`fits_read_key_lng`).
    pub fn get_i64(&self, name: &str) -> (r: Result<i64, FitsError>)
        ensures
            match key_i64(self@, name.spec_bytes()) {
                Ok(v) => r == Ok::<i64, FitsError>(v),
                Err(f) => r matches Err(e) && read_error(e, f),
            },
    {
        self.get_i64_bytes(name.as_bytes())
    }

    pub(crate) fn get_i64_bytes(&self, name: &[u8]) -> (r: Result<i64, FitsError>)
        ensures
            match key_i64(self@, name@) {
                Ok(v) => r == Ok::<i64, FitsError>(v),
                Err(f) => r matches Err(e) && read_error(e, f),
            },
    {
        let card = match self.card_by_name_bytes(name) {
            None => {
                return Err(FitsError::new(KEY_NO_EXIST));
            },
            Some(c) => c,
        };
        match card.parse_value_comment() {
            Err(e) => Err(e),
            Ok((val, _)) => {
                proof {
                    encode_utf8_decode_utf8(val@);
                }
                let cs = chars_of(val.as_str());
                let (a, b) = trim_bounds(&cs, 0, cs.len());
                assert(cs@.subrange(0, cs@.len() as int) =~= cs@);
                match parse_i64_exec(&cs, a, b) {
                    Some(x) => Ok(x),
                    None => Err(FitsError::new(BAD_INTKEY)),
                }
            },
        }
    }
}

/// `find_card_from` points at a card.
proof fn lemma_find_card_bounds(cards: Seq<Seq<u8>>, key: Seq<u8>, i: int)
    ensures
        find_card_from(cards, key, i) matches Some(k) ==> i <= k < cards.len() && 0 <= k,
    decreases cards.len() - i,
{
    if 0 <= i < cards.len() {
        lemma_find_card_bounds(cards, key, i + 1);
    }
}

/// The lengths `NAXIS1 ..= NAXISk`, or the first fault reading them.
pub open spec fn axes_from(cards: Seq<Seq<u8>>, k: int) -> Result<Seq<i64>, ReadFault>
    decreases k,
{
    if k <= 0 {
        Ok(Seq::empty())
    } else {
        match axes_from(cards, k - 1) {
            Err(f) => Err(f),
            Ok(s) => match key_i64(cards, "NAXIS".spec_bytes() + decimal_int(k)) {
                Err(f) => Err(f),
                Ok(v) => Ok(s.push(v)),
            },
        }
    }
}

/// The axis lengths a header gives.
pub open spec fn naxes_of(cards: Seq<Seq<u8>>) -> Result<Seq<i64>, ReadFault> {
    match key_i64(cards, "NAXIS".spec_bytes()) {
        Err(f) => Err(f),
        Ok(n) => if n < 0 {
            Err(ReadFault::BadNaxis)
        } else {
            axes_from(cards, n as int)
        },
    }
}

proof fn lemma_axes_from_err(cards: Seq<Seq<u8>>, j: int, k: int)
    requires
        0 <= j <= k,
        axes_from(cards, j) is Err,
    ensures
        axes_from(cards, k) == axes_from(cards, j),
    decreases k,
{
    if k > j {
        lemma_axes_from_err(cards, j, k - 1);
    }
}

/// The card `upsert_long` makes for `BLANK`.
pub open spec fn upsert(cards: Seq<Seq<u8>>, name: Seq<u8>, c: Seq<u8>) -> Seq<Seq<u8>> {
    match find_card(cards, name) {
        Some(i) => cards.update(i, c),
        None => cards.push(c),
    }
}

impl Header {
    /// NAXIS axis lengths.
    pub fn naxes(&self) -> (r: Result<Vec<i64>, FitsError>)
        ensures
            match naxes_of(self@) {
                Ok(v) => r matches Ok(x) && x@ == v,
                Err(f) => r matches Err(e) && read_error(e, f),
            },
    {
        let n = match self.get_i64("NAXIS") {
            Err(e) => {
                return Err(e);
            },
            Ok(n) => n,
        };
        if n < 0 {
            return Err(FitsError::new(BAD_NAXIS));
        }
        let mut out: Vec<i64> = Vec::new();
        let mut k: i64 = 0;
        while k < n
            invariant
                0 <= k <= n,
                key_i64(self@, "NAXIS".spec_bytes()) == Ok::<i64, ReadFault>(n),
                axes_from(self@, k as int) == Ok::<Seq<i64>, ReadFault>(out@),
            decreases n - k,
        {
            let name = with_number("NAXIS", k + 1);
            match self.get_i64_bytes(name.as_slice()) {
                Err(e) => {
                    proof {
                        lemma_axes_from_err(self@, k + 1, n as int);
                    }
                    return Err(e);
                },
                Ok(v) => {
                    out.push(v);
                },
            }
            k += 1;
        }
        Ok(out)
    }

    /// Stored BITPIX.
    pub fn bitpix(&self) -> (r: Result<i32, FitsError>)
        ensures
            match key_i64(self@, "BITPIX".spec_bytes()) {
                Ok(v) => if i32::MIN <= v <= i32::MAX {
                    r == Ok::<i32, FitsError>(v as i32)
                } else {
                    r matches Err(e) && read_error(e, ReadFault::BadBitpix)
                },
                Err(f) => r matches Err(e) && read_error(e, f),
            },
    {
        match self.get_i64("BITPIX") {
            Err(e) => Err(e),
            Ok(v) => {
                if i32::MIN as i64 <= v && v <= i32::MAX as i64 {
                    Ok(v as i32)
                } else {
                    Err(FitsError::new(BAD_BITPIX))
                }
            },
        }
    }

    /// BLANK keyword if present.
    pub fn blank(&self) -> (r: Option<i64>)
        ensures
            match key_i64(self@, "BLANK".spec_bytes()) {
                Ok(v) => r == Some(v),
                Err(_) => r is None,
            },
    {
        match self.get_i64("BLANK") {
            Ok(v) => Some(v),
            Err(_) => None,
        }
    }

    /// Replace the first card of this name, or append.
    pub fn upsert_long(&mut self, name: &str, value: i64, comm: Option<&str>) -> (r: Result<
        (),
        FitsError,
    >)
        ensures
            match key_card(name.spec_bytes(), decimal_int(value as int), opt_str_bytes(comm)) {
                Ok(c) => r is Ok && final(self)@ == upsert(old(self)@, name.spec_bytes(), c),
                Err(f) => r matches Err(e) && e.status == BAD_KEYCHAR && e.message_list()
                    == seq![make_key_message(f)] && final(self)@ == old(self)@,
            },
    {
        let v = format_i64(value);
        let card = match Card::from_parts(name.as_bytes(), v.as_slice(), opt_as_bytes(comm)) {
            Ok(c) => c,
            Err(e) => {
                return Err(e);
            },
        };
        match self.position_of(name.as_bytes()) {
            Some(i) => {
                proof {
                    lemma_find_card_bounds(self@, name.spec_bytes(), 0);
                }
                let n = self.cards.len();
                assert(self@.len() == n);
                self.cards.set(i, card);
                assert(self@ =~= upsert(old(self)@, name.spec_bytes(), card@));
            },
            None => {
                self.cards.push(card);
                assert(self@ =~= upsert(old(self)@, name.spec_bytes(), card@));
            },
        }
        Ok(())
    }

    /// Replace or append a BLANK keyword.
    pub fn set_blank(&mut self, value: i64) -> (r: Result<(), FitsError>)
        ensures
            match key_card(
                "BLANK".spec_bytes(),
                decimal_int(value as int),
                Some("undefined pixel value".spec_bytes()),
            ) {
                Ok(c) => r is Ok && final(self)@ == upsert(old(self)@, "BLANK".spec_bytes(), c),
                Err(f) => r matches Err(e) && e.status == BAD_KEYCHAR && e.message_list()
                    == seq![make_key_message(f)] && final(self)@ == old(self)@,
            },
    {
        self.upsert_long("BLANK", value, Some("undefined pixel value"))
    }

    /// True when this HDU is a tiled compressed image (`ZIMAGE = T`).
    pub fn is_compressed_image(&self) -> (r: bool)
        ensures
            r == (match find_card(self@, "ZIMAGE".spec_bytes()) {
                Some(i) => value_chars(self@[i]) matches Ok(v) && trim_ws(v) == seq!['T'],
                None => false,
            }),
    {
        match self.card_by_name("ZIMAGE") {
            None => false,
            Some(card) => match card.parse_value_comment() {
                Err(_) => false,
                Ok((val, _)) => {
                    proof {
                        encode_utf8_decode_utf8(val@);
                    }
                    let cs = chars_of(val.as_str());
                    let (a, b) = trim_bounds(&cs, 0, cs.len());
                    assert(cs@.subrange(0, cs@.len() as int) =~= cs@);
                    let t = b > a && b - a == 1 && cs[a] == 'T';
                    proof {
                        let w = cs@.subrange(a as int, b as int);
                        assert(w.len() == b - a);
                        if b == a + 1 {
                            assert(w[0] == cs@[a as int]);
                            assert(w =~= seq![cs@[a as int]]);
                        }
                        if w == seq!['T'] {
                            assert(w[0] == 'T');
                        }
                    }
                    t
                },
            },
        }
    }
}

/// The bytes of the cards one after another.
pub open spec fn cards_bytes(cs: Seq<Seq<u8>>) -> Seq<u8>
    decreases cs.len(),
{
    if cs.len() == 0 {
        Seq::empty()
    } else {
        cards_bytes(cs.drop_last()) + cs.last()
    }
}

/// Cards, the `END` card, and spaces up to a whole number of 2880-byte
/// records.
pub open spec fn record_image(cs: Seq<Seq<u8>>) -> Seq<u8> {
    let b = cards_bytes(cs) + pad_card("END".spec_bytes());
    let rem = b.len() % 2880;
    if rem == 0 {
        b
    } else {
        b + spaces((2880 - rem) as nat)
    }
}

/// A card that ends the header: `END` then five spaces.
pub open spec fn is_end_card(c: Seq<u8>) -> bool {
    &&& c.len() >= 8
    &&& c[0] == 69 && c[1] == 78 && c[2] == 68
    &&& forall|i: int| 3 <= i < 8 ==> c[i] == 32
}

/// The cards from byte offset `off` up to the END card, and the offset just
/// after it; `NO_END` without an END card, `BAD_KEYCHAR` for a card that is
/// not UTF-8.
pub open spec fn scan_cards(b: Seq<u8>, off: int) -> Result<(Seq<Seq<u8>>, int), i32>
    decreases b.len() - off,
{
    if off < 0 || off + 80 > b.len() {
        Err(NO_END)
    } else {
        let c = b.subrange(off, off + 80);
        if is_end_card(c) {
            Ok((Seq::empty(), off + 80))
        } else if !valid_utf8(c) {
            Err(BAD_KEYCHAR)
        } else {
            match scan_cards(b, off + 80) {
                Err(e) => Err(e),
                Ok((cs, end)) => Ok((seq![c] + cs, end)),
            }
        }
    }
}

/// Byte offset of the data unit after a header that ends at byte `end`.
pub open spec fn data_start_after(end: int) -> int {
    let recs = (end + 2879) / 2880;
    (if recs < 1 {
        1
    } else {
        recs
    }) * 2880
}

/// `scan_cards` from the start, with the data-unit offset.
pub open spec fn parse_header_of(b: Seq<u8>) -> Result<(Seq<Seq<u8>>, int), i32> {
    match scan_cards(b, 0) {
        Err(e) => Err(e),
        Ok((cs, end)) => Ok((cs, data_start_after(end))),
    }
}

/// The cards before those of a later scan.
pub open spec fn prepend_scan(pre: Seq<Seq<u8>>, r: Result<(Seq<Seq<u8>>, int), i32>) -> Result<
    (Seq<Seq<u8>>, int),
    i32,
> {
    match r {
        Err(e) => Err(e),
        Ok((cs, end)) => Ok((pre + cs, end)),
    }
}

fn end_card_bytes(b: &[u8], off: usize) -> (r: bool)
    requires
        off + 80 <= b@.len(),
    ensures
        r == is_end_card(b@.subrange(off as int, off + 80)),
{
    let ghost c = b@.subrange(off as int, off + 80);
    assert(c[0] == b@[off as int] && c[1] == b@[off + 1] && c[2] == b@[off + 2]);
    if !(b[off] == 69 && b[off + 1] == 78 && b[off + 2] == 68) {
        return false;
    }
    let n = b.len();
    let mut i: usize = 3;
    while i < 8
        invariant
            3 <= i <= 8,
            n == b@.len(),
            off + 80 <= b@.len(),
            c == b@.subrange(off as int, off + 80),
            forall|j: int| 3 <= j < i ==> c[j] == 32,
        decreases 8 - i,
    {
        assert(c[i as int] == b@[off + i]);
        if b[off + i] != 32 {
            return false;
        }
        i += 1;
    }
    true
}

impl Header {
    /// Serialize cards + END + space fill to a multiple of 2880 bytes.
    pub fn to_record_bytes(&self) -> (r: Vec<u8>)
        ensures
            r@ == record_image(self@),
    {
        let mut out: Vec<u8> = Vec::new();
        let mut i: usize = 0;
        while i < self.cards.len()
            invariant
                i <= self.cards@.len(),
                self@.len() == self.cards@.len(),
                out@ == cards_bytes(self@.subrange(0, i as int)),
            decreases self.cards.len() - i,
        {
            let b = self.cards[i].as_bytes();
            proof {
                lemma_card_len(self.cards@[i as int]);
            }
            push_range(&mut out, b, 0, 80);
            proof {
                let p = self@.subrange(0, i + 1);
                assert(p.drop_last() =~= self@.subrange(0, i as int));
                assert(p.last() == self.cards@[i as int]@);
                assert(b@.subrange(0, 80) =~= b@);
            }
            i += 1;
        }
        assert(self@.subrange(0, self@.len() as int) =~= self@);
        let end = Card::from_text("END");
        let eb = end.as_bytes();
        proof {
            lemma_card_len(end);
        }
        push_range(&mut out, eb, 0, 80);
        assert(eb@.subrange(0, 80) =~= eb@);
        let rem = out.len() % 2880;
        if rem != 0 {
            push_spaces(&mut out, 2880 - rem);
        }
        out
    }

    /// Parse a header from the start of a FITS file image.
    ///
    /// Reads 80-byte cards until END. Returns the header and the byte
    /// offset of the following data unit (a multiple of 2880).
    pub fn parse(bytes: &[u8]) -> (r: Result<(Header, u64), FitsError>)
        requires
            bytes@.len() + 2880 <= usize::MAX,
        ensures
            match parse_header_of(bytes@) {
                Ok((cs, start)) => r matches Ok((h, st)) && h@ == cs && st == start,
                Err(code) => r matches Err(e) && e.status == code && e.message_list().len() == 0,
            },
    {
        let mut cards: Vec<Card> = Vec::new();
        let mut off: usize = 0;
        loop
            invariant
                off <= bytes@.len(),
                bytes@.len() + 2880 <= usize::MAX,
                scan_cards(bytes@, 0) == prepend_scan(
                    cards@.map_values(|c: Card| c@),
                    scan_cards(bytes@, off as int),
                ),
            ensures
                off + 80 <= bytes@.len(),
                is_end_card(bytes@.subrange(off as int, off + 80)),
                scan_cards(bytes@, 0) == prepend_scan(
                    cards@.map_values(|c: Card| c@),
                    scan_cards(bytes@, off as int),
                ),
            decreases bytes@.len() - off,
        {
            if bytes.len() - off < 80 {
                return Err(FitsError::new(NO_END));
            }
            let is_end = end_card_bytes(bytes, off);
            let ghost c = bytes@.subrange(off as int, off + 80);
            if is_end {
                break;
            }
            let slice = copy_range(bytes, off, off + 80);
            match str_from_utf8(slice.as_slice()) {
                None => {
                    return Err(FitsError::new(BAD_KEYCHAR));
                },
                Some(_) => {},
            }
            let card = Card::from_bytes(slice.as_slice());
            assert(card@ =~= c);
            let ghost pre = cards@.map_values(|x: Card| x@);
            cards.push(card);
            assert(cards@.map_values(|x: Card| x@) =~= pre.push(c));
            proof {
                match scan_cards(bytes@, off + 80) {
                    Err(_) => {},
                    Ok((cs, end)) => {
                        assert(pre + (seq![c] + cs) =~= pre.push(c) + cs);
                    },
                }
            }
            off = off + 80;
        }
        let end = off + 80;
        let h = Header { cards };
        assert(h@ =~= cards@.map_values(|x: Card| x@) + Seq::<Seq<u8>>::empty());
        let recs0 = end / 2880 + if end % 2880 != 0 { 1 } else { 0 };
        let recs = if recs0 < 1 { 1 } else { recs0 };
        proof {
            assert(recs0 == (end + 2879) / 2880) by (nonlinear_arith)
                requires
                    recs0 == end / 2880 + if end % 2880 != 0 { 1int } else { 0 },
            ;
            assert(recs * 2880 <= end + 2880) by (nonlinear_arith)
                requires
                    recs == (if recs0 < 1 { 1 } else { recs0 }),
                    recs0 == (end + 2879) / 2880,
                    end >= 80,
            ;
        }
        let start = recs * 2880;
        Ok((h, start as u64))
    }
}


/// The bytes of cards of 80 bytes each: card `k` at byte `80 * k`.
proof fn lemma_cards_bytes(cs: Seq<Seq<u8>>)
    requires
        forall|k: int| 0 <= k < cs.len() ==> #[trigger] cs[k].len() == 80,
    ensures
        cards_bytes(cs).len() == 80 * cs.len(),
        forall|k: int| 0 <= k < cs.len() ==> #[trigger] cards_bytes(cs).subrange(80 * k, 80 * k + 80) == cs[k],
    decreases cs.len(),
{
    if cs.len() > 0 {
        let init = cs.drop_last();
        assert forall|k: int| 0 <= k < init.len() implies #[trigger] init[k].len() == 80 by {
            assert(init[k] == cs[k]);
        }
        lemma_cards_bytes(init);
        let b = cards_bytes(cs);
        assert(b == cards_bytes(init) + cs.last());
        assert forall|k: int| 0 <= k < cs.len() implies #[trigger] cards_bytes(cs).subrange(80 * k, 80 * k + 80)
            == cs[k] by {
            if k < init.len() {
                assert(b.subrange(80 * k, 80 * k + 80) =~= cards_bytes(init).subrange(80 * k, 80 * k + 80));
                assert(init[k] == cs[k]);
            } else {
                assert(b.subrange(80 * k, 80 * k + 80) =~= cs.last());
            }
        }
    }
}

/// Scanning the record image from card `k` finds the cards from `k` on.
proof fn lemma_scan_record_image(cs: Seq<Seq<u8>>, k: int)
    requires
        0 <= k <= cs.len(),
        forall|j: int| 0 <= j < cs.len() ==> #[trigger] cs[j].len() == 80 && !is_end_card(cs[j]) && valid_utf8(
            cs[j],
        ),
    ensures
        scan_cards(record_image(cs), 80 * k) == Ok::<(Seq<Seq<u8>>, int), i32>(
            (cs.subrange(k, cs.len() as int), 80 * (cs.len() as int) + 80),
        ),
    decreases cs.len() - k,
{
    let b = record_image(cs);
    let cb = cards_bytes(cs);
    lemma_cards_bytes(cs);
    let endc = pad_card("END".spec_bytes());
    assert(b.subrange(0, cb.len() as int + 80) =~= cb + endc);
    if k == cs.len() {
        reveal_strlit("END");
        vstd::string::is_ascii_spec_bytes("END");
        assert(b.subrange(80 * k, 80 * k + 80) =~= endc);
        assert(is_end_card(endc));
        assert(cs.subrange(k, k) =~= Seq::<Seq<u8>>::empty());
    } else {
        assert(b.subrange(80 * k, 80 * k + 80) =~= cb.subrange(80 * k, 80 * k + 80));
        lemma_scan_record_image(cs, k + 1);
        assert(seq![cs[k]] + cs.subrange(k + 1, cs.len() as int) =~= cs.subrange(k, cs.len() as int));
    }
}

/// Law: the records a header writes parse back to its cards, with the data
/// unit just after them, when no card is an `END` card and every card is
/// UTF-8.
pub proof fn lemma_parse_record_image(cs: Seq<Seq<u8>>)
    requires
        forall|j: int| 0 <= j < cs.len() ==> #[trigger] cs[j].len() == 80 && !is_end_card(cs[j]) && valid_utf8(
            cs[j],
        ),
    ensures
        parse_header_of(record_image(cs)) == Ok::<(Seq<Seq<u8>>, int), i32>((cs, record_image(cs).len() as int)),
{
    lemma_scan_record_image(cs, 0);
    assert(cs.subrange(0, cs.len() as int) =~= cs);
    lemma_cards_bytes(cs);
    let e: int = 80 * (cs.len() as int) + 80;
    let q = e / 2880;
    let r = e % 2880;
    vstd::arithmetic::div_mod::lemma_fundamental_div_mod(e, 2880);
    if r == 0 {
        vstd::arithmetic::div_mod::lemma_fundamental_div_mod_converse(e + 2879, 2880, q, 2879);
    } else {
        vstd::arithmetic::div_mod::lemma_fundamental_div_mod_converse(e + 2879, 2880, q + 1, r - 1);
    }
}
// ---------------------------------------------------------------------
// An integer keyword reads back to what was written.
// ---------------------------------------------------------------------

proof fn lemma_decimal_nat_shape(n: nat, m: nat)
    requires
        n < vstd::arithmetic::power::pow(10, m),
        m >= 1,
    ensures
        1 <= decimal_nat(n).len() <= m,
        forall|k: int| 0 <= k < decimal_nat(n).len() ==> 48 <= #[trigger] decimal_nat(n)[k] <= 57,
        digits_value(latin1(decimal_nat(n))) == n,
    decreases n,
{
    vstd::arithmetic::power::lemma_pow1(10);
    if n >= 10 {
        vstd::arithmetic::power::lemma_pow_positive(10, (m - 1) as nat);
        if m == 1 {
            assert(false);
        }
        vstd::arithmetic::power::lemma_pow_adds(10, 1, (m - 1) as nat);
        assert(n / 10 < vstd::arithmetic::power::pow(10, (m - 1) as nat)) by {
            vstd::arithmetic::div_mod::lemma_div_by_multiple_is_strongly_ordered(
                n as int,
                vstd::arithmetic::power::pow(10, m) as int,
                vstd::arithmetic::power::pow(10, (m - 1) as nat) as int,
                10,
            );
        }
        lemma_decimal_nat_shape(n / 10, (m - 1) as nat);
        let p = decimal_nat(n / 10);
        let l = latin1(decimal_nat(n));
        assert(l.drop_last() =~= latin1(p));
        assert(l.last() == ((48 + n % 10) as u8) as char);
        assert(digits_value(l) == digits_value(latin1(p)) * 10 + (l.last() as int - 48));
        assert(n == (n / 10) * 10 + n % 10);
    } else {
        let l = latin1(decimal_nat(n));
        assert(l.drop_last() =~= Seq::<char>::empty());
        assert(l.last() == ((48 + n) as u8) as char);
        assert(digits_value(l) == digits_value(Seq::<char>::empty()) * 10 + (l.last() as int - 48));
    }
}


/// A non-negative `i64` is written with one or more decimal digits.
pub(crate) proof fn lemma_decimal_digits(v: i64)
    requires
        v >= 0,
    ensures
        decimal_int(v as int).len() >= 1,
        forall|k: int| 0 <= k < decimal_int(v as int).len() ==> 48 <= #[trigger] decimal_int(v as int)[k] <= 57,
{
    assert(vstd::arithmetic::power::pow(10, 19) == 10_000_000_000_000_000_000int) by {
        reveal_with_fuel(vstd::arithmetic::power::pow, 20);
    }
    lemma_decimal_nat_shape(v as nat, 19);
}

pub(crate) proof fn lemma_decimal_int_chars(v: i64)
    ensures
        plain_key_value(decimal_int(v as int)),
        decode_utf8(decimal_int(v as int)) == latin1(decimal_int(v as int)),
        trim_ws(latin1(decimal_int(v as int))) == latin1(decimal_int(v as int)),
        parse_i64(latin1(decimal_int(v as int))) == Some(v),
{
    let n: nat = if v < 0 { (-(v as int)) as nat } else { v as nat };
    assert(vstd::arithmetic::power::pow(10, 19) == 10_000_000_000_000_000_000int) by {
        reveal_with_fuel(vstd::arithmetic::power::pow, 20);
    }
    lemma_decimal_nat_shape(n, 19);
    let d = decimal_nat(n);
    let b = decimal_int(v as int);
    if v < 0 {
        assert(b =~= seq![45u8] + d);
        assert(latin1(b).drop_first() =~= latin1(d));
    } else {
        assert(b == d);
    }
    assert forall|k: int| 0 <= k < b.len() implies 33 <= #[trigger] b[k] <= 126 && b[k] != 47u8 by {
        if v < 0 && k > 0 {
            assert(b[k] == d[k - 1]);
        }
    }
    lemma_latin1_ascii(b);
    encode_utf8_decode_utf8(latin1(b));
    let s = latin1(b);
    assert(s.len() > 0);
    assert(!tdim_ws(s[0]));
    assert(!tdim_ws(s.last())) by {
        assert(s.last() == b.last() as char);
    }
    assert(trim_start_ws(s) == s);
    assert(trim_end_ws(s) == s);
    let digits = if v < 0 { s.drop_first() } else { s };
    assert(digits =~= latin1(d));
    assert(all_digits(digits)) by {
        assert forall|i: int| 0 <= i < digits.len() implies '0' <= #[trigger] digits[i] <= '9' by {
            assert(digits[i] == d[i] as char);
        }
    }
}

/// A white-space character.
spec fn tdim_ws(c: char) -> bool {
    crate::tdim::is_ws(c)
}

proof fn lemma_find_after_update(cards: Seq<Seq<u8>>, key: Seq<u8>, i: int, j: int, c: Seq<u8>)
    requires
        find_card_from(cards, key, j) == Some(i),
        0 <= j <= i,
        name8_upper(c) == name8_upper(key),
    ensures
        find_card_from(cards.update(i, c), key, j) == Some(i),
    decreases i - j,
{
    lemma_find_card_bounds(cards, key, j);
    if j < i {
        lemma_find_after_update(cards, key, i, j + 1, c);
    }
}

proof fn lemma_find_after_push(cards: Seq<Seq<u8>>, key: Seq<u8>, j: int, c: Seq<u8>)
    requires
        find_card_from(cards, key, j) is None,
        0 <= j <= cards.len(),
        name8_upper(c) == name8_upper(key),
    ensures
        find_card_from(cards.push(c), key, j) == Some(cards.len() as int),
    decreases cards.len() - j,
{
    if j < cards.len() {
        lemma_find_after_push(cards, key, j + 1, c);
    }
}

/// An integer keyword written with a plain name (`upsert_long`,
/// `ffukyj`) is read back (`get_i64`, `ffgkyj`) as the same value,
/// whatever the other cards are.
pub proof fn lemma_upsert_long_reads_back(cards: Seq<Seq<u8>>, name: Seq<u8>, value: i64, comm: Option<Seq<u8>>)
    requires
        plain_key_name(name),
        comm matches Some(c) ==> printable_text(c),
    ensures
        key_card(name, decimal_int(value as int), comm) matches Ok(c) && key_i64(upsert(cards, name, c), name) == Ok::<
            i64,
            ReadFault,
        >(value),
{
    lemma_decimal_int_chars(value);
    let v = decimal_int(value as int);
    lemma_card_value_roundtrip(name, v, comm);
    let c = key_card(name, v, comm)->Ok_0;
    assert(name8_upper(c) =~= name8_upper(name)) by {
        assert forall|k: int| 0 <= k < 8 implies name8_upper(c)[k] == name8_upper(name)[k] by {
            assert(c[k] == c.subrange(0, 8)[k]);
            assert(c.subrange(0, 8)[k] == name_field(name)[k]);
        }
    }
    let cards2 = upsert(cards, name, c);
    match find_card(cards, name) {
        Some(i) => {
            lemma_find_card_bounds(cards, name, 0);
            lemma_find_after_update(cards, name, i, 0, c);
            assert(cards2[i] == c);
        },
        None => {
            lemma_find_after_push(cards, name, 0, c);
            assert(cards2[cards.len() as int] == c);
        },
    }
    assert(value_chars(c) == Ok::<Seq<char>, ReadFault>(latin1(v)));
}

/// Law: an integer keyword written with a plain name into a header that
/// has no card of that name (`write_long`, `ffpkyj`) is read back
/// (`get_i64`) as the value written.
pub proof fn lemma_write_long_reads_back(cards: Seq<Seq<u8>>, name: Seq<u8>, value: i64, comm: Option<Seq<u8>>)
    requires
        plain_key_name(name),
        comm matches Some(c) ==> printable_text(c),
        find_card(cards, name) is None,
    ensures
        key_card(name, decimal_int(value as int), comm) matches Ok(c) && key_i64(cards.push(c), name) == Ok::<
            i64,
            ReadFault,
        >(value),
{
    lemma_upsert_long_reads_back(cards, name, value, comm);
}

/// Law: `set_blank` then `blank` gives the value set, whatever the header
/// held; a new header has no `BLANK`.
pub proof fn lemma_blank_reads_back(cards: Seq<Seq<u8>>, value: i64)
    ensures
        key_card("BLANK".spec_bytes(), decimal_int(value as int), Some("undefined pixel value".spec_bytes())) matches Ok(
            c,
        ) && key_i64(upsert(cards, "BLANK".spec_bytes(), c), "BLANK".spec_bytes()) == Ok::<i64, ReadFault>(value),
        key_i64(Seq::<Seq<u8>>::empty(), "BLANK".spec_bytes()) == Err::<i64, ReadFault>(ReadFault::Missing),
{
    reveal_strlit("BLANK");
    reveal_strlit("undefined pixel value");
    vstd::string::is_ascii_spec_bytes("BLANK");
    vstd::string::is_ascii_spec_bytes("undefined pixel value");
    let n = "BLANK".spec_bytes();
    assert(n =~= seq![66u8, 76u8, 65u8, 78u8, 75u8]);
    let cm = "undefined pixel value".spec_bytes();
    assert forall|k: int| 0 <= k < cm.len() implies 32 <= #[trigger] cm[k] <= 126 by {
        assert(cm[k] == "undefined pixel value"@[k] as u8);
    }
    assert(name_field(n)[0] == 66u8);
    assert(plain_key_name(n)) by {
        reveal_strlit("COMMENT ");
        reveal_strlit("HISTORY ");
        reveal_strlit("END     ");
        reveal_strlit("CONTINUE");
        assert(!lit_at(name_field(n), 0, "COMMENT "@)) by {
            assert(name_field(n)[0] as u32 != "COMMENT "@[0] as u32);
        }
        assert(!lit_at(name_field(n), 0, "HISTORY "@)) by {
            assert(name_field(n)[0] as u32 != "HISTORY "@[0] as u32);
        }
        assert(!lit_at(name_field(n), 0, "END     "@)) by {
            assert(name_field(n)[0] as u32 != "END     "@[0] as u32);
        }
        assert(!lit_at(name_field(n), 0, "CONTINUE"@)) by {
            assert(name_field(n)[0] as u32 != "CONTINUE"@[0] as u32);
        }
    }
    lemma_upsert_long_reads_back(cards, n, value, Some("undefined pixel value".spec_bytes()));
}

/// The name `NAXISk`.
pub open spec fn axis_name(k: int) -> Seq<u8> {
    "NAXIS".spec_bytes() + decimal_int(k)
}

/// The comment of `NAXISk`.
pub open spec fn axis_comment(k: int) -> Seq<u8> {
    COMM_NAXIS_N.spec_bytes() + decimal_int(k)
}

/// A name of two to eight upper-case letters that is not a commentary
/// keyword is a plain keyword name.
proof fn lemma_plain_letters(n: Seq<u8>)
    requires
        2 <= n.len() <= 8,
        forall|k: int| 0 <= k < n.len() ==> 65 <= #[trigger] n[k] <= 90,
        n[0] != 67u8,
        n[0] != 72u8,
        n[0] == 69u8 ==> n[1] != 78u8,
    ensures
        plain_key_name(n),
        name8_upper(n) == name_field(n),
{
    reveal_strlit("COMMENT ");
    reveal_strlit("HISTORY ");
    reveal_strlit("END     ");
    reveal_strlit("CONTINUE");
    let f = name_field(n);
    assert(f[0] == n[0] && f[1] == n[1]);
    assert(!lit_at(f, 0, "COMMENT "@)) by {
        assert(f[0] as u32 != "COMMENT "@[0] as u32);
    }
    assert(!lit_at(f, 0, "HISTORY "@)) by {
        assert(f[0] as u32 != "HISTORY "@[0] as u32);
    }
    assert(!lit_at(f, 0, "END     "@)) by {
        if f[0] as u32 == "END     "@[0] as u32 {
            assert(f[1] as u32 != "END     "@[1] as u32);
        }
    }
    assert(!lit_at(f, 0, "CONTINUE"@)) by {
        if f[0] as u32 == "CONTINUE"@[0] as u32 {
            assert(f[1] as u32 != "CONTINUE"@[1] as u32);
        }
    }
    assert(name8_upper(n) =~= f);
}

/// `NAXISk` for `1 <= k <= 999` is a plain keyword name of `NAXIS` and one
/// to three digits.
proof fn lemma_axis_name(k: int)
    requires
        1 <= k <= 999,
    ensures
        plain_key_name(axis_name(k)),
        name8_upper(axis_name(k)) == name_field(axis_name(k)),
        6 <= axis_name(k).len() <= 8,
        axis_name(k).subrange(0, 5) == "NAXIS".spec_bytes(),
        forall|p: int| 5 <= p < axis_name(k).len() ==> 48 <= #[trigger] axis_name(k)[p] <= 57,
        digits_value(latin1(decimal_int(k))) == k,
        printable_text(axis_comment(k)),
{
    reveal_strlit("NAXIS");
    vstd::string::is_ascii_spec_bytes("NAXIS");
    reveal_strlit("COMMENT ");
    reveal_strlit("HISTORY ");
    reveal_strlit("END     ");
    reveal_strlit("CONTINUE");
    let nb = "NAXIS".spec_bytes();
    assert(nb =~= seq![78u8, 65u8, 88u8, 73u8, 83u8]);
    assert(vstd::arithmetic::power::pow(10, 3) == 1000int) by {
        reveal_with_fuel(vstd::arithmetic::power::pow, 4);
    }
    lemma_decimal_nat_shape(k as nat, 3);
    let d = decimal_int(k);
    assert(d == decimal_nat(k as nat));
    let n = axis_name(k);
    assert(n.subrange(0, 5) =~= nb);
    assert forall|p: int| 0 <= p < n.len() implies #[trigger] crate::card::legal_key_char(n[p]) by {
        if p >= 5 {
            assert(n[p] == d[p - 5]);
        }
    }
    let f = name_field(n);
    assert(f[0] == 78u8);
    assert(!lit_at(f, 0, "COMMENT "@)) by {
        assert(f[0] as u32 != "COMMENT "@[0] as u32);
    }
    assert(!lit_at(f, 0, "HISTORY "@)) by {
        assert(f[0] as u32 != "HISTORY "@[0] as u32);
    }
    assert(!lit_at(f, 0, "END     "@)) by {
        assert(f[0] as u32 != "END     "@[0] as u32);
    }
    assert(!lit_at(f, 0, "CONTINUE"@)) by {
        assert(f[0] as u32 != "CONTINUE"@[0] as u32);
    }
    assert forall|p: int| 5 <= p < n.len() implies 48 <= #[trigger] n[p] <= 57 by {
        assert(n[p] == d[p - 5]);
    }
    assert(name8_upper(n) =~= f) by {
        assert forall|p: int| 0 <= p < n.len() implies to_upper(#[trigger] n[p]) == n[p] by {
            if p >= 5 {
                assert(n[p] == d[p - 5]);
            }
        }
    }
    reveal_strlit("length of data axis ");
    vstd::string::is_ascii_spec_bytes("length of data axis ");
    let cm = axis_comment(k);
    let cb = COMM_NAXIS_N.spec_bytes();
    assert forall|p: int| 0 <= p < cm.len() implies 32 <= #[trigger] cm[p] <= 126 by {
        if p < cb.len() {
            assert(cm[p] == cb[p]);
            assert(cb[p] == "length of data axis "@[p] as u8);
        } else {
            assert(cm[p] == d[p - cb.len()]);
        }
    }
}

/// Two different axis numbers give different `NAXISk` names.
proof fn lemma_axis_names_differ(j: int, k: int)
    requires
        1 <= j <= 999,
        1 <= k <= 999,
        j != k,
    ensures
        name8_upper(axis_name(j)) != name8_upper(axis_name(k)),
{
    lemma_axis_name(j);
    lemma_axis_name(k);
    let a = axis_name(j);
    let b = axis_name(k);
    let fa = name_field(a);
    let fb = name_field(b);
    if fa == fb {
        if a.len() < b.len() {
            assert(fa[a.len() as int] == 32u8);
            assert(fb[a.len() as int] == b[a.len() as int]);
        } else if b.len() < a.len() {
            assert(fb[b.len() as int] == 32u8);
            assert(fa[b.len() as int] == a[b.len() as int]);
        } else {
            assert(decimal_int(j) =~= decimal_int(k)) by {
                assert forall|p: int| 0 <= p < decimal_int(j).len() implies decimal_int(j)[p] == decimal_int(k)[p] by {
                    assert(a[p + 5] == decimal_int(j)[p]);
                    assert(b[p + 5] == decimal_int(k)[p]);
                    assert(fa[p + 5] == fb[p + 5]);
                }
            }
        }
    }
}

/// The first card from `j` on named like `name` is the one at `i`.
proof fn lemma_find_first(cs: Seq<Seq<u8>>, name: Seq<u8>, j: int, i: int)
    requires
        0 <= j <= i < cs.len(),
        forall|m: int| j <= m < i ==> name8_upper(#[trigger] cs[m]) != name8_upper(name),
        name8_upper(cs[i]) == name8_upper(name),
    ensures
        find_card_from(cs, name, j) == Some(i),
    decreases i - j,
{
    if j < i {
        lemma_find_first(cs, name, j + 1, i);
    }
}

/// No card from `j` on is named like `name`.
proof fn lemma_find_none(cs: Seq<Seq<u8>>, name: Seq<u8>, j: int)
    requires
        0 <= j,
        forall|m: int| j <= m < cs.len() ==> name8_upper(#[trigger] cs[m]) != name8_upper(name),
    ensures
        find_card_from(cs, name, j) is None,
    decreases cs.len() - j,
{
    if j < cs.len() {
        lemma_find_none(cs, name, j + 1);
    }
}

/// The card an integer keyword is written on carries its name.
proof fn lemma_key_card_named(name: Seq<u8>, value: Seq<u8>, comm: Option<Seq<u8>>)
    requires
        plain_key_name(name),
        plain_key_value(value),
        comm matches Some(c) ==> printable_text(c),
    ensures
        key_card(name, value, comm) matches Ok(c) && name8_upper(c) == name8_upper(name) && c.subrange(0, 8)
            == name_field(name),
{
    lemma_card_value_roundtrip(name, value, comm);
    let c = key_card(name, value, comm)->Ok_0;
    assert(name8_upper(c) =~= name8_upper(name)) by {
        assert forall|k: int| 0 <= k < 8 implies name8_upper(c)[k] == name8_upper(name)[k] by {
            assert(c[k] == c.subrange(0, 8)[k]);
            assert(c.subrange(0, 8)[k] == name_field(name)[k]);
        }
    }
}

/// An integer keyword card that is the first of its name reads back as its
/// value, whatever follows it.
proof fn lemma_key_at(cs: Seq<Seq<u8>>, i: int, name: Seq<u8>, value: i64, comm: Option<Seq<u8>>)
    requires
        plain_key_name(name),
        comm matches Some(c) ==> printable_text(c),
        0 <= i < cs.len(),
        key_card(name, decimal_int(value as int), comm) == Ok::<Seq<u8>, MakeKeyFault>(cs[i]),
        forall|m: int| 0 <= m < i ==> name8_upper(#[trigger] cs[m]) != name8_upper(name),
    ensures
        key_i64(cs, name) == Ok::<i64, ReadFault>(value),
{
    lemma_decimal_int_chars(value);
    lemma_key_card_named(name, decimal_int(value as int), comm);
    let c = cs[i];
    let pre = cs.subrange(0, i);
    lemma_find_none(pre, name, 0);
    lemma_upsert_long_reads_back(pre, name, value, comm);
    let p2 = pre.push(c);
    assert forall|m: int| 0 <= m < i implies name8_upper(#[trigger] p2[m]) != name8_upper(name) by {
        assert(p2[m] == cs[m]);
    }
    lemma_find_first(p2, name, 0, i);
    lemma_find_first(cs, name, 0, i);
    assert(p2[i] == cs[i]);
}

/// The axis cards follow `base` one per axis, in order.
proof fn lemma_axis_keys_ok(base: Seq<Seq<u8>>, naxes: Seq<i64>, k: int)
    requires
        0 <= k <= naxes.len() <= 999,
        forall|j: int| 0 <= j < naxes.len() ==> #[trigger] naxes[j] >= 1,
    ensures
        axis_keys(Ok(base), naxes, k) matches Ok(cs) && cs.len() == base.len() + k && (forall|m: int|
            0 <= m < base.len() ==> #[trigger] cs[m] == base[m]) && (forall|j: int|
            0 <= j < k ==> key_card(axis_name(j + 1), decimal_int(naxes[j] as int), Some(axis_comment(j + 1)))
                == Ok::<Seq<u8>, MakeKeyFault>(#[trigger] cs[base.len() + j])),
    decreases k,
{
    if k > 0 {
        lemma_axis_keys_ok(base, naxes, k - 1);
        let cs = axis_keys(Ok(base), naxes, k - 1)->Ok_0;
        lemma_axis_name(k);
        lemma_decimal_int_chars(naxes[k - 1]);
        lemma_key_card_named(axis_name(k), decimal_int(naxes[k - 1] as int), Some(axis_comment(k)));
        let c = key_card(axis_name(k), decimal_int(naxes[k - 1] as int), Some(axis_comment(k)))->Ok_0;
        assert(axis_keys(Ok(base), naxes, k) == Ok::<Seq<Seq<u8>>, HeaderFault>(cs.push(c)));
        let cs2 = cs.push(c);
        assert forall|j: int| 0 <= j < k implies key_card(axis_name(j + 1), decimal_int(naxes[j] as int), Some(axis_comment(j + 1)))
            == Ok::<Seq<u8>, MakeKeyFault>(#[trigger] cs2[base.len() + j]) by {
            if j < k - 1 {
                assert(cs2[base.len() + j] == cs[base.len() + j]);
            }
        }
    }
}

/// The lengths `NAXIS1 ..= NAXISk` read one by one.
proof fn lemma_axes_from_ok(cs: Seq<Seq<u8>>, naxes: Seq<i64>, k: int)
    requires
        0 <= k <= naxes.len(),
        forall|j: int| 0 <= j < naxes.len() ==> key_i64(cs, #[trigger] axis_name(j + 1)) == Ok::<i64, ReadFault>(naxes[j]),
    ensures
        axes_from(cs, k) == Ok::<Seq<i64>, ReadFault>(naxes.take(k)),
    decreases k,
{
    if k > 0 {
        lemma_axes_from_ok(cs, naxes, k - 1);
        assert(key_i64(cs, axis_name(k - 1 + 1)) == Ok::<i64, ReadFault>(naxes[k - 1]));
        assert(axis_name(k) == "NAXIS".spec_bytes() + decimal_int(k));
        assert(naxes.take(k - 1).push(naxes[k - 1]) =~= naxes.take(k));
    } else {
        assert(naxes.take(0) =~= Seq::<i64>::empty());
    }
}

/// The comments of the keywords of a primary array are printable.
proof fn lemma_primary_comments()
    ensures
        printable_text(COMM_SIMPLE.spec_bytes()),
        printable_text(COMM_BITPIX.spec_bytes()),
        printable_text(COMM_NAXIS.spec_bytes()),
        printable_text(COMM_EXTEND.spec_bytes()),
        printable_text(COMM_BSCALE.spec_bytes()),
        printable_text(COMM_BZERO_USHORT.spec_bytes()),
        printable_text(COMM_BZERO_ULONG.spec_bytes()),
        printable_text(COMM_BZERO_SBYTE.spec_bytes()),
{
    reveal_strlit("file does conform to FITS standard");
    vstd::string::is_ascii_spec_bytes("file does conform to FITS standard");
    let a = COMM_SIMPLE.spec_bytes();
    assert forall|k: int| 0 <= k < a.len() implies 32 <= #[trigger] a[k] <= 126 by {
        assert(a[k] == "file does conform to FITS standard"@[k] as u8);
    }
    reveal_strlit("number of bits per data pixel");
    vstd::string::is_ascii_spec_bytes("number of bits per data pixel");
    let b = COMM_BITPIX.spec_bytes();
    assert forall|k: int| 0 <= k < b.len() implies 32 <= #[trigger] b[k] <= 126 by {
        assert(b[k] == "number of bits per data pixel"@[k] as u8);
    }
    reveal_strlit("number of data axes");
    vstd::string::is_ascii_spec_bytes("number of data axes");
    let c = COMM_NAXIS.spec_bytes();
    assert forall|k: int| 0 <= k < c.len() implies 32 <= #[trigger] c[k] <= 126 by {
        assert(c[k] == "number of data axes"@[k] as u8);
    }
    reveal_strlit("FITS dataset may contain extensions");
    vstd::string::is_ascii_spec_bytes("FITS dataset may contain extensions");
    let d = COMM_EXTEND.spec_bytes();
    assert forall|k: int| 0 <= k < d.len() implies 32 <= #[trigger] d[k] <= 126 by {
        assert(d[k] == "FITS dataset may contain extensions"@[k] as u8);
    }
    reveal_strlit("default scaling factor");
    vstd::string::is_ascii_spec_bytes("default scaling factor");
    let e = COMM_BSCALE.spec_bytes();
    assert forall|k: int| 0 <= k < e.len() implies 32 <= #[trigger] e[k] <= 126 by {
        assert(e[k] == "default scaling factor"@[k] as u8);
    }
    reveal_strlit("offset data range to that of unsigned short");
    vstd::string::is_ascii_spec_bytes("offset data range to that of unsigned short");
    let f = COMM_BZERO_USHORT.spec_bytes();
    assert forall|k: int| 0 <= k < f.len() implies 32 <= #[trigger] f[k] <= 126 by {
        assert(f[k] == "offset data range to that of unsigned short"@[k] as u8);
    }
    reveal_strlit("offset data range to that of unsigned long");
    vstd::string::is_ascii_spec_bytes("offset data range to that of unsigned long");
    let g = COMM_BZERO_ULONG.spec_bytes();
    assert forall|k: int| 0 <= k < g.len() implies 32 <= #[trigger] g[k] <= 126 by {
        assert(g[k] == "offset data range to that of unsigned long"@[k] as u8);
    }
    reveal_strlit("offset data range to that of signed byte");
    vstd::string::is_ascii_spec_bytes("offset data range to that of signed byte");
    let h = COMM_BZERO_SBYTE.spec_bytes();
    assert forall|k: int| 0 <= k < h.len() implies 32 <= #[trigger] h[k] <= 126 by {
        assert(h[k] == "offset data range to that of signed byte"@[k] as u8);
    }
}

/// The unsigned-type scaling cards are appended after the given ones, and
/// their names start with `B`.
proof fn lemma_scaling_ok(h: Seq<Seq<u8>>, ty: ImageType)
    ensures
        unsigned_scaling(Ok(h), ty) matches Ok(cs) && cs.len() >= h.len() && (forall|m: int|
            0 <= m < h.len() ==> #[trigger] cs[m] == h[m]) && (forall|m: int|
            h.len() <= m < cs.len() ==> (#[trigger] name8_upper(cs[m]))[0] == 66u8),
{
    reveal_strlit("BZERO");
    vstd::string::is_ascii_spec_bytes("BZERO");
    reveal_strlit("BSCALE");
    vstd::string::is_ascii_spec_bytes("BSCALE");
    let zb = "BZERO".spec_bytes();
    let sb = "BSCALE".spec_bytes();
    assert(zb =~= seq![66u8, 90u8, 69u8, 82u8, 79u8]);
    assert(sb =~= seq![66u8, 83u8, 67u8, 65u8, 76u8, 69u8]);
    lemma_plain_letters(zb);
    lemma_plain_letters(sb);
    lemma_primary_comments();
    lemma_decimal_int_chars(1i64);
    let one = decimal_int(1);
    lemma_key_card_named(sb, one, Some(COMM_BSCALE.spec_bytes()));
    let cb = key_card(sb, one, Some(COMM_BSCALE.spec_bytes()))->Ok_0;
    assert(name8_upper(cb)[0] == 66u8);
    match ty {
        ImageType::U16 => {
            lemma_decimal_int_chars(32768i64);
            lemma_key_card_named(zb, decimal_int(32768), Some(COMM_BZERO_USHORT.spec_bytes()));
            let cz = key_card(zb, decimal_int(32768), Some(COMM_BZERO_USHORT.spec_bytes()))->Ok_0;
            assert(name8_upper(cz)[0] == 66u8);
            assert(unsigned_scaling(Ok(h), ty) == Ok::<Seq<Seq<u8>>, HeaderFault>(h.push(cz).push(cb)));
        },
        ImageType::U32 => {
            lemma_decimal_int_chars(2147483648i64);
            lemma_key_card_named(zb, decimal_int(2147483648), Some(COMM_BZERO_ULONG.spec_bytes()));
            let cz = key_card(zb, decimal_int(2147483648), Some(COMM_BZERO_ULONG.spec_bytes()))->Ok_0;
            assert(name8_upper(cz)[0] == 66u8);
            assert(unsigned_scaling(Ok(h), ty) == Ok::<Seq<Seq<u8>>, HeaderFault>(h.push(cz).push(cb)));
        },
        ImageType::I8 => {
            lemma_decimal_int_chars(-128i64);
            lemma_key_card_named(zb, decimal_int(-128), Some(COMM_BZERO_SBYTE.spec_bytes()));
            let cz = key_card(zb, decimal_int(-128), Some(COMM_BZERO_SBYTE.spec_bytes()))->Ok_0;
            assert(name8_upper(cz)[0] == 66u8);
            assert(unsigned_scaling(Ok(h), ty) == Ok::<Seq<Seq<u8>>, HeaderFault>(h.push(cz).push(cb)));
        },
        ImageType::U64 => {
            reveal_strlit("BZERO   =  9223372036854775808 / offset data range to that of unsigned long long");
            vstd::string::is_ascii_spec_bytes("BZERO   =  9223372036854775808 / offset data range to that of unsigned long long");
            let t = BZERO_ULONGLONG_CARD.spec_bytes();
            assert(t[0] == "BZERO   =  9223372036854775808 / offset data range to that of unsigned long long"@[0] as u8);
            let cz = pad_card(t);
            assert(cz[0] == t[0]);
            assert(name8_upper(cz)[0] == 66u8);
            assert(unsigned_scaling(Ok(h), ty) == Ok::<Seq<Seq<u8>>, HeaderFault>(h.push(cz).push(cb)));
        },
        _ => {
            assert(unsigned_scaling(Ok(h), ty) == Ok::<Seq<Seq<u8>>, HeaderFault>(h));
        },
    }
}

/// The names of the first cards of an image header: `first` (`SIMPLE` or
/// `XTENSION`), `BITPIX`, `NAXIS`, then `NAXIS1`, `NAXIS2`, ...
spec fn head_name(first: Seq<u8>, m: int) -> Seq<u8> {
    if m == 0 {
        first
    } else if m == 1 {
        "BITPIX".spec_bytes()
    } else if m == 2 {
        "NAXIS".spec_bytes()
    } else {
        axis_name(m - 2)
    }
}

/// The first `3 + n` cards of an image header.
spec fn head_shape(cs: Seq<Seq<u8>>, first: Seq<u8>, ty: ImageType, naxes: Seq<i64>) -> bool {
    let n = naxes.len() as int;
    &&& cs.len() >= 3 + n
    &&& name8_upper(cs[0]) == name_field(first)
    &&& key_card("BITPIX".spec_bytes(), decimal_int(ty.spec_bitpix() as int), Some(COMM_BITPIX.spec_bytes()))
        == Ok::<Seq<u8>, MakeKeyFault>(cs[1])
    &&& key_card("NAXIS".spec_bytes(), decimal_int(n), Some(COMM_NAXIS.spec_bytes())) == Ok::<Seq<u8>, MakeKeyFault>(cs[2])
    &&& forall|j: int| 0 <= j < n ==> key_card(axis_name(j + 1), decimal_int(naxes[j] as int), Some(axis_comment(j + 1)))
        == Ok::<Seq<u8>, MakeKeyFault>(#[trigger] cs[3 + j])
}

/// A name that can open an image header: `SIMPLE` or `XTENSION`.
spec fn head_first(first: Seq<u8>) -> bool {
    &&& 1 <= first.len() <= 8
    &&& first[0] == 83u8 || first[0] == 88u8
    &&& name8_upper(first) == name_field(first)
}

proof fn lemma_head_literals()
    ensures
        "SIMPLE".spec_bytes() == seq![83u8, 73u8, 77u8, 80u8, 76u8, 69u8],
        "BITPIX".spec_bytes() == seq![66u8, 73u8, 84u8, 80u8, 73u8, 88u8],
        "NAXIS".spec_bytes() == seq![78u8, 65u8, 88u8, 73u8, 83u8],
        "EXTEND".spec_bytes() == seq![69u8, 88u8, 84u8, 69u8, 78u8, 68u8],
        "XTENSION".spec_bytes() == seq![88u8, 84u8, 69u8, 78u8, 83u8, 73u8, 79u8, 78u8],
        "PCOUNT".spec_bytes() == seq![80u8, 67u8, 79u8, 85u8, 78u8, 84u8],
        "GCOUNT".spec_bytes() == seq![71u8, 67u8, 79u8, 85u8, 78u8, 84u8],
        "T".spec_bytes() == seq![84u8],
        plain_key_name("SIMPLE".spec_bytes()),
        plain_key_name("BITPIX".spec_bytes()),
        plain_key_name("NAXIS".spec_bytes()),
        plain_key_name("EXTEND".spec_bytes()),
        plain_key_name("XTENSION".spec_bytes()),
        plain_key_name("PCOUNT".spec_bytes()),
        plain_key_name("GCOUNT".spec_bytes()),
        name8_upper("SIMPLE".spec_bytes()) == name_field("SIMPLE".spec_bytes()),
        name8_upper("BITPIX".spec_bytes()) == name_field("BITPIX".spec_bytes()),
        name8_upper("NAXIS".spec_bytes()) == name_field("NAXIS".spec_bytes()),
        name8_upper("EXTEND".spec_bytes()) == name_field("EXTEND".spec_bytes()),
        name8_upper("XTENSION".spec_bytes()) == name_field("XTENSION".spec_bytes()),
        name8_upper("PCOUNT".spec_bytes()) == name_field("PCOUNT".spec_bytes()),
        name8_upper("GCOUNT".spec_bytes()) == name_field("GCOUNT".spec_bytes()),
        plain_key_value("T".spec_bytes()),
{
    reveal_strlit("SIMPLE");
    vstd::string::is_ascii_spec_bytes("SIMPLE");
    reveal_strlit("BITPIX");
    vstd::string::is_ascii_spec_bytes("BITPIX");
    reveal_strlit("NAXIS");
    vstd::string::is_ascii_spec_bytes("NAXIS");
    reveal_strlit("EXTEND");
    vstd::string::is_ascii_spec_bytes("EXTEND");
    reveal_strlit("XTENSION");
    vstd::string::is_ascii_spec_bytes("XTENSION");
    reveal_strlit("PCOUNT");
    vstd::string::is_ascii_spec_bytes("PCOUNT");
    reveal_strlit("GCOUNT");
    vstd::string::is_ascii_spec_bytes("GCOUNT");
    reveal_strlit("T");
    vstd::string::is_ascii_spec_bytes("T");
    assert("SIMPLE".spec_bytes() =~= seq![83u8, 73u8, 77u8, 80u8, 76u8, 69u8]);
    assert("BITPIX".spec_bytes() =~= seq![66u8, 73u8, 84u8, 80u8, 73u8, 88u8]);
    assert("NAXIS".spec_bytes() =~= seq![78u8, 65u8, 88u8, 73u8, 83u8]);
    assert("EXTEND".spec_bytes() =~= seq![69u8, 88u8, 84u8, 69u8, 78u8, 68u8]);
    assert("XTENSION".spec_bytes() =~= seq![88u8, 84u8, 69u8, 78u8, 83u8, 73u8, 79u8, 78u8]);
    assert("PCOUNT".spec_bytes() =~= seq![80u8, 67u8, 79u8, 85u8, 78u8, 84u8]);
    assert("GCOUNT".spec_bytes() =~= seq![71u8, 67u8, 79u8, 85u8, 78u8, 84u8]);
    assert("T".spec_bytes() =~= seq![84u8]);
    lemma_plain_letters("SIMPLE".spec_bytes());
    lemma_plain_letters("BITPIX".spec_bytes());
    lemma_plain_letters("NAXIS".spec_bytes());
    lemma_plain_letters("EXTEND".spec_bytes());
    lemma_plain_letters("XTENSION".spec_bytes());
    lemma_plain_letters("PCOUNT".spec_bytes());
    lemma_plain_letters("GCOUNT".spec_bytes());
}

/// The first `3 + n` cards of an image header carry the names
/// `head_name(first, m)`.
proof fn lemma_head_names(cs: Seq<Seq<u8>>, first: Seq<u8>, ty: ImageType, naxes: Seq<i64>, m: int)
    requires
        head_shape(cs, first, ty, naxes),
        head_first(first),
        naxes.len() <= 999,
        0 <= m < 3 + naxes.len(),
    ensures
        name8_upper(cs[m]) == name8_upper(head_name(first, m)),
        name8_upper(head_name(first, m)) == name_field(head_name(first, m)),
        m > 0 ==> plain_key_name(head_name(first, m)),
{
    lemma_head_literals();
    lemma_primary_comments();
    if m == 0 {
    } else if m == 1 {
        lemma_decimal_int_chars(ty.spec_bitpix() as i64);
        lemma_key_card_named("BITPIX".spec_bytes(), decimal_int(ty.spec_bitpix() as int), Some(COMM_BITPIX.spec_bytes()));
    } else if m == 2 {
        lemma_decimal_int_chars(naxes.len() as i64);
        lemma_key_card_named("NAXIS".spec_bytes(), decimal_int(naxes.len() as int), Some(COMM_NAXIS.spec_bytes()));
    } else {
        let j = m - 3;
        assert(key_card(axis_name(j + 1), decimal_int(naxes[j] as int), Some(axis_comment(j + 1))) == Ok::<Seq<u8>, MakeKeyFault>(
            cs[3 + j],
        ));
        lemma_axis_name(j + 1);
        lemma_decimal_int_chars(naxes[j]);
        lemma_key_card_named(axis_name(j + 1), decimal_int(naxes[j] as int), Some(axis_comment(j + 1)));
    }
}

/// Distinct positions among the first `3 + n` cards of an image header
/// carry distinct names.
proof fn lemma_head_names_differ(first: Seq<u8>, m: int, i: int)
    requires
        head_first(first),
        0 <= m < i <= 1001,
    ensures
        name8_upper(head_name(first, m)) != name8_upper(head_name(first, i)),
{
    lemma_head_literals();
    if i >= 3 {
        lemma_axis_name(i - 2);
        if m < 2 {
            assert(name8_upper(head_name(first, m))[0] != name8_upper(head_name(first, i))[0]);
        } else if m == 2 {
            assert(name8_upper(head_name(first, m))[5] != name8_upper(head_name(first, i))[5]);
        } else {
            lemma_axis_names_differ(m - 2, i - 2);
        }
    } else {
        assert(name8_upper(head_name(first, m))[0] != name8_upper(head_name(first, i))[0]);
    }
}

/// No card before position `i` of an image header carries the name of the
/// card at `i`.
proof fn lemma_head_before(cs: Seq<Seq<u8>>, first: Seq<u8>, ty: ImageType, naxes: Seq<i64>, i: int)
    requires
        head_shape(cs, first, ty, naxes),
        head_first(first),
        naxes.len() <= 999,
        0 <= i < 3 + naxes.len(),
    ensures
        forall|m: int| 0 <= m < i ==> name8_upper(#[trigger] cs[m]) != name8_upper(head_name(first, i)),
{
    assert forall|m: int| 0 <= m < i implies name8_upper(#[trigger] cs[m]) != name8_upper(head_name(first, i)) by {
        lemma_head_names(cs, first, ty, naxes, m);
        lemma_head_names_differ(first, m, i);
    }
}

/// An image header's `BITPIX`, `NAXIS` and `NAXISn` read back as written.
#[verifier::rlimit(30)]
proof fn lemma_head_reads(cs: Seq<Seq<u8>>, first: Seq<u8>, ty: ImageType, naxes: Seq<i64>)
    requires
        head_shape(cs, first, ty, naxes),
        head_first(first),
        naxes.len() <= 999,
    ensures
        key_i64(cs, "BITPIX".spec_bytes()) == Ok::<i64, ReadFault>(ty.spec_bitpix() as i64),
        naxes_of(cs) == Ok::<Seq<i64>, ReadFault>(naxes),
{
    lemma_head_literals();
    lemma_primary_comments();
    let n = naxes.len() as int;
    lemma_head_before(cs, first, ty, naxes, 1);
    lemma_head_before(cs, first, ty, naxes, 2);
    lemma_decimal_int_chars(ty.spec_bitpix() as i64);
    assert(head_name(first, 1) == "BITPIX".spec_bytes());
    lemma_key_at(cs, 1, "BITPIX".spec_bytes(), ty.spec_bitpix() as i64, Some(COMM_BITPIX.spec_bytes()));
    lemma_decimal_int_chars(n as i64);
    assert(head_name(first, 2) == "NAXIS".spec_bytes());
    lemma_key_at(cs, 2, "NAXIS".spec_bytes(), n as i64, Some(COMM_NAXIS.spec_bytes()));
    assert forall|j: int| 0 <= j < n implies key_i64(cs, #[trigger] axis_name(j + 1)) == Ok::<i64, ReadFault>(naxes[j]) by {
        assert(head_name(first, 3 + j) == axis_name(j + 1));
        lemma_head_before(cs, first, ty, naxes, 3 + j);
        lemma_axis_name(j + 1);
        lemma_decimal_int_chars(naxes[j]);
        assert(key_card(axis_name(j + 1), decimal_int(naxes[j] as int), Some(axis_comment(j + 1))) == Ok::<Seq<u8>, MakeKeyFault>(
            cs[3 + j],
        ));
        lemma_key_at(cs, 3 + j, axis_name(j + 1), naxes[j], Some(axis_comment(j + 1)));
    }
    lemma_axes_from_ok(cs, naxes, n);
    assert(naxes.take(n) =~= naxes);
}

/// The first letter of each of the first `3 + n` card names of an image
/// header: that of `first`, `B`, then `N`.
proof fn lemma_head_initial(cs: Seq<Seq<u8>>, first: Seq<u8>, ty: ImageType, naxes: Seq<i64>, m: int)
    requires
        head_shape(cs, first, ty, naxes),
        head_first(first),
        naxes.len() <= 999,
        0 <= m < 3 + naxes.len(),
    ensures
        name8_upper(cs[m])[0] == (if m == 0 { first[0] } else if m == 1 { 66u8 } else { 78u8 }),
{
    lemma_head_literals();
    lemma_head_names(cs, first, ty, naxes, m);
    if m >= 3 {
        lemma_axis_name(m - 2);
    }
}

/// The cards of a primary array: the image header's first cards, then
/// `EXTEND`, two `COMMENT` cards and the scaling cards.
#[verifier::rlimit(40)]
#[verifier::spinoff_prover]
proof fn lemma_primary_layout(ty: ImageType, naxes: Seq<i64>)
    requires
        naxes.len() <= 999,
        forall|k: int| 0 <= k < naxes.len() ==> #[trigger] naxes[k] >= 1,
    ensures
        primary_image_cards(ty, naxes) matches Ok(cs) && head_shape(cs, "SIMPLE".spec_bytes(), ty, naxes)
            && cs[0].subrange(0, 8) == name_field("SIMPLE".spec_bytes()) && (forall|m: int|
            3 + naxes.len() <= m < cs.len() ==> (#[trigger] name8_upper(cs[m]))[0] != 88u8 && name8_upper(cs[m])[0]
                != 83u8),
{
    lemma_head_literals();
    lemma_primary_comments();
    let sb = "SIMPLE".spec_bytes();
    let bb = "BITPIX".spec_bytes();
    let nb = "NAXIS".spec_bytes();
    let eb = "EXTEND".spec_bytes();
    let tb = "T".spec_bytes();
    let n = naxes.len() as int;
    let bp = ty.spec_bitpix() as i64;
    lemma_decimal_int_chars(bp);
    lemma_decimal_int_chars(n as i64);
    lemma_key_card_named(sb, tb, Some(COMM_SIMPLE.spec_bytes()));
    lemma_key_card_named(bb, decimal_int(bp as int), Some(COMM_BITPIX.spec_bytes()));
    lemma_key_card_named(nb, decimal_int(n), Some(COMM_NAXIS.spec_bytes()));
    lemma_key_card_named(eb, tb, Some(COMM_EXTEND.spec_bytes()));
    let c0 = key_card(sb, tb, Some(COMM_SIMPLE.spec_bytes()))->Ok_0;
    let c1 = key_card(bb, decimal_int(bp as int), Some(COMM_BITPIX.spec_bytes()))->Ok_0;
    let c2 = key_card(nb, decimal_int(n), Some(COMM_NAXIS.spec_bytes()))->Ok_0;
    let ce = key_card(eb, tb, Some(COMM_EXTEND.spec_bytes()))->Ok_0;
    let h3 = Seq::<Seq<u8>>::empty().push(c0).push(c1).push(c2);
    lemma_axis_keys_ok(h3, naxes, n);
    let cs4 = axis_keys(Ok(h3), naxes, n)->Ok_0;
    reveal_strlit("COMMENT   FITS (Flexible Image Transport System) format is defined in 'Astronomy");
    vstd::string::is_ascii_spec_bytes("COMMENT   FITS (Flexible Image Transport System) format is defined in 'Astronomy");
    reveal_strlit("COMMENT   and Astrophysics', volume 376, page 359; bibcode: 2001A&A...376..359H");
    vstd::string::is_ascii_spec_bytes("COMMENT   and Astrophysics', volume 376, page 359; bibcode: 2001A&A...376..359H");
    let t1 = COMMENT_FITS_1.spec_bytes();
    let t2 = COMMENT_FITS_2.spec_bytes();
    assert(t1[0] == "COMMENT   FITS (Flexible Image Transport System) format is defined in 'Astronomy"@[0] as u8);
    assert(t2[0] == "COMMENT   and Astrophysics', volume 376, page 359; bibcode: 2001A&A...376..359H"@[0] as u8);
    let p1 = pad_card(t1);
    let p2 = pad_card(t2);
    assert(p1[0] == t1[0] && p2[0] == t2[0]);
    let h7 = cs4.push(ce).push(p1).push(p2);
    lemma_scaling_ok(h7, ty);
    let cs = unsigned_scaling(Ok(h7), ty)->Ok_0;
    assert(primary_image_cards(ty, naxes) == Ok::<Seq<Seq<u8>>, HeaderFault>(cs));
    assert(cs[0] == h7[0] && h7[0] == cs4[0]);
    assert(cs[1] == h7[1] && h7[1] == cs4[1]);
    assert(cs[2] == h7[2] && h7[2] == cs4[2]);
    assert(cs[3 + n] == ce);
    assert(cs[4 + n] == p1);
    assert(cs[5 + n] == p2);
    assert forall|j: int| 0 <= j < n implies key_card(axis_name(j + 1), decimal_int(naxes[j] as int), Some(axis_comment(j + 1)))
        == Ok::<Seq<u8>, MakeKeyFault>(#[trigger] cs[3 + j]) by {
        assert(cs[3 + j] == h7[3 + j]);
        assert(h7[3 + j] == cs4[3 + j]);
    }
    assert forall|m: int| 3 + n <= m < cs.len() implies (#[trigger] name8_upper(cs[m]))[0] != 88u8 && name8_upper(cs[m])[0]
        != 83u8 by {
        if m < 6 + n {
            assert(cs[m] == h7[m]);
        }
    }
}

/// Law: the keywords written for a primary array (`primary_image`,
/// `ffphps`) read back: the first card is `SIMPLE`, `BITPIX` gives the
/// pixel type's code, `NAXIS` and `NAXISn` give the axis lengths written,
/// and no card is named `XTENSION`, for up to 999 axes of length 1 or more.
pub proof fn lemma_primary_image_reads_back(ty: ImageType, naxes: Seq<i64>)
    requires
        naxes.len() <= 999,
        forall|k: int| 0 <= k < naxes.len() ==> #[trigger] naxes[k] >= 1,
    ensures
        primary_image_cards(ty, naxes) matches Ok(cs) && cs[0].subrange(0, 8) == name_field("SIMPLE".spec_bytes())
            && key_i64(cs, "BITPIX".spec_bytes()) == Ok::<i64, ReadFault>(ty.spec_bitpix() as i64) && naxes_of(cs)
            == Ok::<Seq<i64>, ReadFault>(naxes) && find_card(cs, "XTENSION".spec_bytes()) is None,
{
    lemma_head_literals();
    lemma_primary_layout(ty, naxes);
    let cs = primary_image_cards(ty, naxes)->Ok_0;
    let sb = "SIMPLE".spec_bytes();
    lemma_head_reads(cs, sb, ty, naxes);
    let xb = "XTENSION".spec_bytes();
    assert forall|m: int| 0 <= m < cs.len() implies name8_upper(#[trigger] cs[m]) != name8_upper(xb) by {
        assert(name8_upper(xb)[0] == 88u8);
        if m < 3 + naxes.len() {
            lemma_head_initial(cs, sb, ty, naxes, m);
        }
    }
    lemma_find_none(cs, xb, 0);
}

/// The comments of the keywords of an IMAGE extension are printable.
proof fn lemma_extension_comments()
    ensures
        printable_text(COMM_XTENSION_IMAGE.spec_bytes()),
        printable_text(COMM_PCOUNT.spec_bytes()),
        printable_text(COMM_GCOUNT.spec_bytes()),
{
    reveal_strlit("IMAGE extension");
    vstd::string::is_ascii_spec_bytes("IMAGE extension");
    let a = COMM_XTENSION_IMAGE.spec_bytes();
    assert forall|k: int| 0 <= k < a.len() implies 32 <= #[trigger] a[k] <= 126 by {
        assert(a[k] == "IMAGE extension"@[k] as u8);
    }
    reveal_strlit("required keyword; must = 0");
    vstd::string::is_ascii_spec_bytes("required keyword; must = 0");
    let b = COMM_PCOUNT.spec_bytes();
    assert forall|k: int| 0 <= k < b.len() implies 32 <= #[trigger] b[k] <= 126 by {
        assert(b[k] == "required keyword; must = 0"@[k] as u8);
    }
    reveal_strlit("required keyword; must = 1");
    vstd::string::is_ascii_spec_bytes("required keyword; must = 1");
    let c = COMM_GCOUNT.spec_bytes();
    assert forall|k: int| 0 <= k < c.len() implies 32 <= #[trigger] c[k] <= 126 by {
        assert(c[k] == "required keyword; must = 1"@[k] as u8);
    }
}

/// The cards of an IMAGE extension: the image header's first cards, then
/// `PCOUNT`, `GCOUNT` and the scaling cards.
#[verifier::rlimit(40)]
#[verifier::spinoff_prover]
proof fn lemma_extension_layout(ty: ImageType, naxes: Seq<i64>)
    requires
        naxes.len() <= 999,
        forall|k: int| 0 <= k < naxes.len() ==> #[trigger] naxes[k] >= 1,
    ensures
        image_extension_cards(ty, naxes) matches Ok(cs) && head_shape(cs, "XTENSION".spec_bytes(), ty, naxes)
            && cs.len() >= 5 + naxes.len() && cs[0].subrange(0, 8) == name_field("XTENSION".spec_bytes())
            && key_card("PCOUNT".spec_bytes(), decimal_int(0), Some(COMM_PCOUNT.spec_bytes())) == Ok::<Seq<u8>, MakeKeyFault>(
            cs[3 + naxes.len() as int],
        ) && key_card("GCOUNT".spec_bytes(), decimal_int(1), Some(COMM_GCOUNT.spec_bytes())) == Ok::<Seq<u8>, MakeKeyFault>(
            cs[4 + naxes.len() as int],
        ) && (forall|m: int| 5 + naxes.len() <= m < cs.len() ==> (#[trigger] name8_upper(cs[m]))[0] == 66u8),
{
    lemma_head_literals();
    lemma_primary_comments();
    lemma_extension_comments();
    let xb = "XTENSION".spec_bytes();
    let bb = "BITPIX".spec_bytes();
    let nb = "NAXIS".spec_bytes();
    let pb = "PCOUNT".spec_bytes();
    let gb = "GCOUNT".spec_bytes();
    let n = naxes.len() as int;
    let bp = ty.spec_bitpix() as i64;
    reveal_strlit("IMAGE");
    vstd::string::is_ascii_spec_bytes("IMAGE");
    let ib = "IMAGE".spec_bytes();
    assert forall|k: int| 0 <= k < ib.len() implies #[trigger] ib[k] < 128 by {
        assert(ib[k] == "IMAGE"@[k] as u8);
    }
    crate::card::lemma_quote_value_ascii(ib);
    let qv = crate::card::quote_value(ib);
    crate::card::lemma_quoted_card_named(xb, qv, Some(COMM_XTENSION_IMAGE.spec_bytes()));
    lemma_decimal_int_chars(bp);
    lemma_decimal_int_chars(n as i64);
    lemma_decimal_int_chars(0i64);
    lemma_decimal_int_chars(1i64);
    lemma_key_card_named(bb, decimal_int(bp as int), Some(COMM_BITPIX.spec_bytes()));
    lemma_key_card_named(nb, decimal_int(n), Some(COMM_NAXIS.spec_bytes()));
    lemma_key_card_named(pb, decimal_int(0), Some(COMM_PCOUNT.spec_bytes()));
    lemma_key_card_named(gb, decimal_int(1), Some(COMM_GCOUNT.spec_bytes()));
    let c0 = key_card(xb, qv, Some(COMM_XTENSION_IMAGE.spec_bytes()))->Ok_0;
    let c1 = key_card(bb, decimal_int(bp as int), Some(COMM_BITPIX.spec_bytes()))->Ok_0;
    let c2 = key_card(nb, decimal_int(n), Some(COMM_NAXIS.spec_bytes()))->Ok_0;
    let cp = key_card(pb, decimal_int(0), Some(COMM_PCOUNT.spec_bytes()))->Ok_0;
    let cg = key_card(gb, decimal_int(1), Some(COMM_GCOUNT.spec_bytes()))->Ok_0;
    let h3 = Seq::<Seq<u8>>::empty().push(c0).push(c1).push(c2);
    lemma_axis_keys_ok(h3, naxes, n);
    let cs4 = axis_keys(Ok(h3), naxes, n)->Ok_0;
    let h6 = cs4.push(cp).push(cg);
    lemma_scaling_ok(h6, ty);
    let cs = unsigned_scaling(Ok(h6), ty)->Ok_0;
    assert(image_extension_cards(ty, naxes) == Ok::<Seq<Seq<u8>>, HeaderFault>(cs));
    assert(cs[0] == h6[0] && h6[0] == cs4[0]);
    assert(cs[1] == h6[1] && h6[1] == cs4[1]);
    assert(cs[2] == h6[2] && h6[2] == cs4[2]);
    assert(cs[3 + n] == cp);
    assert(cs[4 + n] == cg);
    assert forall|j: int| 0 <= j < n implies key_card(axis_name(j + 1), decimal_int(naxes[j] as int), Some(axis_comment(j + 1)))
        == Ok::<Seq<u8>, MakeKeyFault>(#[trigger] cs[3 + j]) by {
        assert(cs[3 + j] == h6[3 + j]);
        assert(h6[3 + j] == cs4[3 + j]);
    }
}

/// Law: the keywords written for an IMAGE extension (`image_extension`,
/// `ffphpr` after the first HDU) read back: the first card is `XTENSION`,
/// `BITPIX` gives the pixel type's code, `NAXIS` and `NAXISn` give the axis
/// lengths written, `PCOUNT` is 0, `GCOUNT` is 1, and no card is named
/// `SIMPLE`, for up to 999 axes of length 1 or more.
pub proof fn lemma_image_extension_reads_back(ty: ImageType, naxes: Seq<i64>)
    requires
        naxes.len() <= 999,
        forall|k: int| 0 <= k < naxes.len() ==> #[trigger] naxes[k] >= 1,
    ensures
        image_extension_cards(ty, naxes) matches Ok(cs) && cs[0].subrange(0, 8) == name_field("XTENSION".spec_bytes())
            && key_i64(cs, "BITPIX".spec_bytes()) == Ok::<i64, ReadFault>(ty.spec_bitpix() as i64) && naxes_of(cs)
            == Ok::<Seq<i64>, ReadFault>(naxes) && key_i64(cs, "PCOUNT".spec_bytes()) == Ok::<i64, ReadFault>(0)
            && key_i64(cs, "GCOUNT".spec_bytes()) == Ok::<i64, ReadFault>(1) && find_card(cs, "SIMPLE".spec_bytes())
            is None,
{
    lemma_head_literals();
    lemma_extension_comments();
    lemma_extension_layout(ty, naxes);
    let cs = image_extension_cards(ty, naxes)->Ok_0;
    let xb = "XTENSION".spec_bytes();
    let pb = "PCOUNT".spec_bytes();
    let gb = "GCOUNT".spec_bytes();
    let n = naxes.len() as int;
    lemma_head_reads(cs, xb, ty, naxes);
    lemma_decimal_int_chars(0i64);
    lemma_decimal_int_chars(1i64);
    lemma_key_card_named(pb, decimal_int(0), Some(COMM_PCOUNT.spec_bytes()));
    lemma_key_card_named(gb, decimal_int(1), Some(COMM_GCOUNT.spec_bytes()));
    assert forall|m: int| 0 <= m < 3 + n implies name8_upper(#[trigger] cs[m]) != name8_upper(pb) && name8_upper(cs[m])
        != name8_upper(gb) by {
        lemma_head_initial(cs, xb, ty, naxes, m);
        assert(name8_upper(pb)[0] == 80u8 && name8_upper(gb)[0] == 71u8);
    }
    lemma_key_at(cs, 3 + n, pb, 0, Some(COMM_PCOUNT.spec_bytes()));
    assert(name8_upper(cs[3 + n])[0] != name8_upper(gb)[0]);
    lemma_key_at(cs, 4 + n, gb, 1, Some(COMM_GCOUNT.spec_bytes()));
    let sb = "SIMPLE".spec_bytes();
    assert forall|m: int| 0 <= m < cs.len() implies name8_upper(#[trigger] cs[m]) != name8_upper(sb) by {
        assert(name8_upper(sb)[0] == 83u8);
        if m < 3 + n {
            lemma_head_initial(cs, xb, ty, naxes, m);
        } else if m >= 5 + n {
            assert(name8_upper(cs[m])[0] == 66u8);
        }
    }
    lemma_find_none(cs, sb, 0);
}

} // verus!
