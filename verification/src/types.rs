//! FITS / CFITSIO constants and datatype enumerations.
use vstd::prelude::*;

verus! {

/// CFITSIO release this library follows: major number.
pub const CFITSIO_MAJOR: u32 = 4;
/// Minor number.
pub const CFITSIO_MINOR: u32 = 7;
/// Micro number.
pub const CFITSIO_MICRO: u32 = 0;
/// Shared-object version number.
pub const CFITSIO_SONAME: u32 = 10;

/// FITS logical record size in bytes.
pub const RECORD_LEN: usize = 2880;
/// Cards per header record (`RECORD_LEN / CARD_LEN`).
pub const CARDS_PER_RECORD: usize = 36;

pub const FLEN_FILENAME: usize = 1025;
pub const FLEN_KEYWORD: usize = 75;
pub const FLEN_CARD: usize = 81;
pub const CARD_LEN: usize = 80;
pub const FLEN_VALUE: usize = 71;
pub const FLEN_COMMENT: usize = 73;
pub const FLEN_ERRMSG: usize = 81;

pub const TBIT: i32 = 1;
pub const TBYTE: i32 = 11;
pub const TSBYTE: i32 = 12;
pub const TLOGICAL: i32 = 14;
pub const TSTRING: i32 = 16;
pub const TUSHORT: i32 = 20;
pub const TSHORT: i32 = 21;
pub const TUINT: i32 = 30;
pub const TINT: i32 = 31;
pub const TULONG: i32 = 40;
pub const TLONG: i32 = 41;
pub const TINT32BIT: i32 = 41;
pub const TFLOAT: i32 = 42;
pub const TULONGLONG: i32 = 80;
pub const TLONGLONG: i32 = 81;
pub const TDOUBLE: i32 = 82;
pub const TCOMPLEX: i32 = 83;
pub const TDBLCOMPLEX: i32 = 163;

pub const TYP_STRUC_KEY: i32 = 10;
pub const TYP_CMPRS_KEY: i32 = 20;
pub const TYP_SCAL_KEY: i32 = 30;
pub const TYP_NULL_KEY: i32 = 40;
pub const TYP_DIM_KEY: i32 = 50;
pub const TYP_RANG_KEY: i32 = 60;
pub const TYP_UNIT_KEY: i32 = 70;
pub const TYP_DISP_KEY: i32 = 80;
pub const TYP_HDUID_KEY: i32 = 90;
pub const TYP_CKSUM_KEY: i32 = 100;
pub const TYP_WCS_KEY: i32 = 110;
pub const TYP_REFSYS_KEY: i32 = 120;
pub const TYP_COMM_KEY: i32 = 130;
pub const TYP_CONT_KEY: i32 = 140;
pub const TYP_USER_KEY: i32 = 150;

pub const BYTE_IMG: i32 = 8;
pub const SHORT_IMG: i32 = 16;
pub const LONG_IMG: i32 = 32;
pub const LONGLONG_IMG: i32 = 64;
pub const FLOAT_IMG: i32 = -32;
pub const DOUBLE_IMG: i32 = -64;
pub const SBYTE_IMG: i32 = 10;
pub const USHORT_IMG: i32 = 20;
pub const ULONG_IMG: i32 = 40;
pub const ULONGLONG_IMG: i32 = 80;

pub const IMAGE_HDU: i32 = 0;
pub const ASCII_TBL: i32 = 1;
pub const BINARY_TBL: i32 = 2;
pub const ANY_HDU: i32 = -1;

pub const READONLY: i32 = 0;
pub const READWRITE: i32 = 1;

pub const CASESEN: i32 = 1;
pub const CASEINSEN: i32 = 0;

/// Tiled-image compression algorithm codes (`fitsio.h`).
pub const RICE_1: i32 = 11;
pub const GZIP_1: i32 = 21;
pub const GZIP_2: i32 = 22;
pub const PLIO_1: i32 = 31;
pub const HCOMPRESS_1: i32 = 41;
pub const BZIP2_1: i32 = 51;
pub const NOCOMPRESS: i32 = -1;

/// Maximum number of axes of a tiled compressed image.
pub const MAX_COMPRESS_DIM: usize = 6;

/// Quantization / dithering methods.
pub const NO_DITHER: i32 = -1;
pub const SUBTRACTIVE_DITHER_1: i32 = 1;
pub const SUBTRACTIVE_DITHER_2: i32 = 2;

/// HDU class.
#[derive(Debug, Clone, Copy, PartialEq, Eq, Hash, Structural)]
pub enum HduType {
    Image,
    AsciiTable,
    BinaryTable,
}

impl HduType {
    /// The CFITSIO code of an HDU class.
    pub open spec fn spec_code(self) -> i32 {
        match self {
            HduType::Image => IMAGE_HDU,
            HduType::AsciiTable => ASCII_TBL,
            HduType::BinaryTable => BINARY_TBL,
        }
    }

    /// CFITSIO `IMAGE_HDU` / `ASCII_TBL` / `BINARY_TBL` code.
    pub fn code(self) -> (r: i32)
        ensures
            r == self.spec_code(),
    {
        match self {
            HduType::Image => IMAGE_HDU,
            HduType::AsciiTable => ASCII_TBL,
            HduType::BinaryTable => BINARY_TBL,
        }
    }
}

/// Keyword classification (`ffgkcl`).
#[derive(Debug, Clone, Copy, PartialEq, Eq, Hash, Structural)]
pub enum KeyClass {
    Structure,
    Compressed,
    Scaling,
    Null,
    Dimension,
    Range,
    Unit,
    Display,
    HduId,
    Checksum,
    Wcs,
    Refsys,
    Comment,
    Continue,
    User,
}

impl KeyClass {
    /// The CFITSIO `TYP_*_KEY` integer of a class.
    pub open spec fn spec_code(self) -> i32 {
        match self {
            KeyClass::Structure => TYP_STRUC_KEY,
            KeyClass::Compressed => TYP_CMPRS_KEY,
            KeyClass::Scaling => TYP_SCAL_KEY,
            KeyClass::Null => TYP_NULL_KEY,
            KeyClass::Dimension => TYP_DIM_KEY,
            KeyClass::Range => TYP_RANG_KEY,
            KeyClass::Unit => TYP_UNIT_KEY,
            KeyClass::Display => TYP_DISP_KEY,
            KeyClass::HduId => TYP_HDUID_KEY,
            KeyClass::Checksum => TYP_CKSUM_KEY,
            KeyClass::Wcs => TYP_WCS_KEY,
            KeyClass::Refsys => TYP_REFSYS_KEY,
            KeyClass::Comment => TYP_COMM_KEY,
            KeyClass::Continue => TYP_CONT_KEY,
            KeyClass::User => TYP_USER_KEY,
        }
    }

    /// The class whose code is `code`; unknown codes are [`KeyClass::User`].
    pub open spec fn spec_from_code(code: i32) -> KeyClass {
        if code == TYP_STRUC_KEY {
            KeyClass::Structure
        } else if code == TYP_CMPRS_KEY {
            KeyClass::Compressed
        } else if code == TYP_SCAL_KEY {
            KeyClass::Scaling
        } else if code == TYP_NULL_KEY {
            KeyClass::Null
        } else if code == TYP_DIM_KEY {
            KeyClass::Dimension
        } else if code == TYP_RANG_KEY {
            KeyClass::Range
        } else if code == TYP_UNIT_KEY {
            KeyClass::Unit
        } else if code == TYP_DISP_KEY {
            KeyClass::Display
        } else if code == TYP_HDUID_KEY {
            KeyClass::HduId
        } else if code == TYP_CKSUM_KEY {
            KeyClass::Checksum
        } else if code == TYP_WCS_KEY {
            KeyClass::Wcs
        } else if code == TYP_REFSYS_KEY {
            KeyClass::Refsys
        } else if code == TYP_COMM_KEY {
            KeyClass::Comment
        } else if code == TYP_CONT_KEY {
            KeyClass::Continue
        } else {
            KeyClass::User
        }
    }

    /// CFITSIO `TYP_*_KEY` integer.
    pub fn code(self) -> (r: i32)
        ensures
            r == self.spec_code(),
    {
        match self {
            KeyClass::Structure => TYP_STRUC_KEY,
            KeyClass::Compressed => TYP_CMPRS_KEY,
            KeyClass::Scaling => TYP_SCAL_KEY,
            KeyClass::Null => TYP_NULL_KEY,
            KeyClass::Dimension => TYP_DIM_KEY,
            KeyClass::Range => TYP_RANG_KEY,
            KeyClass::Unit => TYP_UNIT_KEY,
            KeyClass::Display => TYP_DISP_KEY,
            KeyClass::HduId => TYP_HDUID_KEY,
            KeyClass::Checksum => TYP_CKSUM_KEY,
            KeyClass::Wcs => TYP_WCS_KEY,
            KeyClass::Refsys => TYP_REFSYS_KEY,
            KeyClass::Comment => TYP_COMM_KEY,
            KeyClass::Continue => TYP_CONT_KEY,
            KeyClass::User => TYP_USER_KEY,
        }
    }

    /// Reconstruct from a CFITSIO class code. Unknown codes become [`KeyClass::User`].
    pub fn from_code(code: i32) -> (r: KeyClass)
        ensures
            r == KeyClass::spec_from_code(code),
    {
        if code == TYP_STRUC_KEY {
            KeyClass::Structure
        } else if code == TYP_CMPRS_KEY {
            KeyClass::Compressed
        } else if code == TYP_SCAL_KEY {
            KeyClass::Scaling
        } else if code == TYP_NULL_KEY {
            KeyClass::Null
        } else if code == TYP_DIM_KEY {
            KeyClass::Dimension
        } else if code == TYP_RANG_KEY {
            KeyClass::Range
        } else if code == TYP_UNIT_KEY {
            KeyClass::Unit
        } else if code == TYP_DISP_KEY {
            KeyClass::Display
        } else if code == TYP_HDUID_KEY {
            KeyClass::HduId
        } else if code == TYP_CKSUM_KEY {
            KeyClass::Checksum
        } else if code == TYP_WCS_KEY {
            KeyClass::Wcs
        } else if code == TYP_REFSYS_KEY {
            KeyClass::Refsys
        } else if code == TYP_COMM_KEY {
            KeyClass::Comment
        } else if code == TYP_CONT_KEY {
            KeyClass::Continue
        } else {
            KeyClass::User
        }
    }
}

/// Reading a class back from its code gives the class.
pub proof fn lemma_key_class_code_roundtrip(k: KeyClass)
    ensures
        KeyClass::spec_from_code(k.spec_code()) == k,
{
}

/// Stored pixel type of an image HDU.
#[derive(Debug, Clone, Copy, PartialEq, Eq, Hash, Structural)]
pub enum ImageType {
    U8,
    I8,
    U16,
    I16,
    U32,
    I32,
    U64,
    I64,
    F32,
    F64,
}

impl ImageType {
    /// BITPIX written for this pixel type.
    pub open spec fn spec_bitpix(self) -> i32 {
        match self {
            ImageType::U8 | ImageType::I8 => BYTE_IMG,
            ImageType::U16 | ImageType::I16 => SHORT_IMG,
            ImageType::U32 | ImageType::I32 => LONG_IMG,
            ImageType::U64 | ImageType::I64 => LONGLONG_IMG,
            ImageType::F32 => FLOAT_IMG,
            ImageType::F64 => DOUBLE_IMG,
        }
    }

    /// Bytes per stored pixel.
    pub open spec fn spec_bytes_per_pixel(self) -> usize {
        match self {
            ImageType::U8 | ImageType::I8 => 1,
            ImageType::U16 | ImageType::I16 => 2,
            ImageType::U32 | ImageType::I32 | ImageType::F32 => 4,
            _ => 8,
        }
    }

    /// BITPIX of the stored pixels.
    pub fn bitpix(self) -> (r: i32)
        ensures
            r == self.spec_bitpix(),
    {
        match self {
            ImageType::U8 | ImageType::I8 => BYTE_IMG,
            ImageType::U16 | ImageType::I16 => SHORT_IMG,
            ImageType::U32 | ImageType::I32 => LONG_IMG,
            ImageType::U64 | ImageType::I64 => LONGLONG_IMG,
            ImageType::F32 => FLOAT_IMG,
            ImageType::F64 => DOUBLE_IMG,
        }
    }

    /// Bytes per stored pixel.
    pub fn bytes_per_pixel(self) -> (r: usize)
        ensures
            r == self.spec_bytes_per_pixel(),
    {
        match self {
            ImageType::U8 | ImageType::I8 => 1,
            ImageType::U16 | ImageType::I16 => 2,
            ImageType::U32 | ImageType::I32 | ImageType::F32 => 4,
            _ => 8,
        }
    }
}

} // verus!
