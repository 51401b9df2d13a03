//! FITS I/O building blocks: header cards, checksums, tiled-image codecs,
//! table formats, with their behaviour stated in contracts and proved.
use vstd::prelude::*;

pub mod card;
pub mod checksum;
pub mod compress;
pub mod convert;
pub mod datetime;
pub mod error;
pub mod file;
pub mod hdu;
pub mod header;
pub mod image;
pub mod io;
pub mod nbit;
pub mod psrfits;
pub mod status;
pub mod tdim;
pub mod tform;
pub mod text;
pub mod types;
pub mod wcs;

verus! {
}
