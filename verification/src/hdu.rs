//! Header Data Unit metadata.
use vstd::prelude::*;
use crate::error::FitsError;
use crate::header::{empty_primary_cards, fault_error, record_image, Header};
use crate::types::HduType;

verus! {

/// One HDU: header plus the file offset of its data unit.
#[derive(Clone, Debug)]
pub struct Hdu {
    /// IMAGE / ASCII table / binary table.
    pub hdu_type: HduType,
    /// Keyword cards for this HDU.
    pub header: Header,
    /// Byte offset of the header.
    pub header_start: u64,
    /// Byte offset of the data unit (multiple of 2880).
    pub data_start: u64,
}

impl Hdu {
    /// Empty primary array (NAXIS=0, BITPIX=8).
    pub fn empty_primary() -> (r: Result<Hdu, FitsError>)
        ensures
            match empty_primary_cards() {
                Ok(cs) => r matches Ok(h) && h.hdu_type == HduType::Image && h.header@ == cs
                    && h.header_start == 0 && h.data_start == record_image(cs).len(),
                Err(f) => r matches Err(e) && fault_error(e, f),
            },
    {
        let header = match Header::empty_primary() {
            Ok(h) => h,
            Err(e) => {
                return Err(e);
            },
        };
        let image = header.to_record_bytes();
        let data_start = image.len() as u64;
        Ok(Hdu { hdu_type: HduType::Image, header, header_start: 0, data_start })
    }
}

} // verus!
