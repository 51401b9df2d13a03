//! Size of an image's data unit.
use vstd::prelude::*;
use crate::error::FitsError;
use crate::status::{ARRAY_TOO_BIG, NEG_AXIS};
use crate::types::ImageType;

verus! {

/// The product `acc * naxes[i] * ...` of the axis lengths from `i` on, or
/// the first fault: an axis below 1 (`NEG_AXIS`) or a product past `u64`
/// (`ARRAY_TOO_BIG`).
pub open spec fn axes_product_from(naxes: Seq<i64>, i: int, acc: int) -> Result<int, i32>
    decreases naxes.len() - i,
{
    if i < 0 || i >= naxes.len() {
        Ok(acc)
    } else if naxes[i] < 1 {
        Err(NEG_AXIS)
    } else if acc * naxes[i] > u64::MAX {
        Err(ARRAY_TOO_BIG)
    } else {
        axes_product_from(naxes, i + 1, acc * naxes[i])
    }
}

/// Bytes of pixel data of an image: none without axes, else the product of
/// the axis lengths times the pixel size.
pub open spec fn data_len_of(ty: ImageType, naxes: Seq<i64>) -> Result<int, i32> {
    if naxes.len() == 0 {
        Ok(0)
    } else {
        match axes_product_from(naxes, 0, 1) {
            Ok(n) => Ok(n * ty.spec_bytes_per_pixel()),
            Err(e) => Err(e),
        }
    }
}

/// Bytes of pixel data of an image of type `ty` and axes `naxes`.
pub fn data_len_bytes(ty: ImageType, naxes: &[i64]) -> (r: Result<u64, FitsError>)
    requires
        data_len_of(ty, naxes@) matches Ok(n) ==> n <= u64::MAX,
    ensures
        match data_len_of(ty, naxes@) {
            Ok(n) => r == Ok::<u64, FitsError>(n as u64),
            Err(code) => r matches Err(e) && e.status == code && e.message_list().len() == 0,
        },
{
    if naxes.len() == 0 {
        return Ok(0);
    }
    let mut n: u64 = 1;
    let mut i: usize = 0;
    while i < naxes.len()
        invariant
            i <= naxes@.len(),
            naxes@.len() > 0,
            axes_product_from(naxes@, 0, 1) == axes_product_from(naxes@, i as int, n as int),
        decreases naxes.len() - i,
    {
        let a = naxes[i];
        if a < 1 {
            return Err(FitsError::new(NEG_AXIS));
        }
        n = match n.checked_mul(a as u64) {
            Some(m) => m,
            None => {
                return Err(FitsError::new(ARRAY_TOO_BIG));
            },
        };
        i += 1;
    }
    let b = ty.bytes_per_pixel() as u64;
    proof {
        assert(n * b <= u64::MAX);
    }
    Ok(n * b)
}

} // verus!
