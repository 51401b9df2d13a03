//! PSRFITS `DATA` cells: where a flattened sample finds its `DAT_SCL` /
//! `DAT_OFFS` entry (`ichan + NCHAN * ipol`) and its channel weight.
//!
//! Fold-mode `DATA` is TDIM `(NBIN, NCHAN, NPOL)` and search-mode samples
//! after NBIT unpacking are TDIM `(NCHAN, NPOL, NSBLK)`, first axis fastest.
use vstd::prelude::*;

verus! {

/// `usize::saturating_mul`.
pub open spec fn sat_mul(a: int, b: int) -> int {
    if a * b > usize::MAX {
        usize::MAX as int
    } else {
        a * b
    }
}

/// Layout of a flattened `DATA` cell relative to `DAT_SCL` / `DAT_OFFS`.
#[derive(Clone, Copy, Debug, PartialEq, Eq, Structural)]
pub enum CubeLayout {
    /// Fold / PSR / CAL: TDIM `(nbin, nchan, npol)`.
    Fold {
        /// Phase bins (fastest axis).
        nbin: usize,
        /// Frequency channels.
        nchan: usize,
        /// Polarisation products.
        npol: usize,
    },
    /// Search-mode samples: TDIM `(nchan, npol, nsblk)`.
    Search {
        /// Frequency channels (fastest axis).
        nchan: usize,
        /// Polarisation products.
        npol: usize,
        /// Time samples per row.
        nsblk: usize,
    },
}

fn saturating_mul(a: usize, b: usize) -> (r: usize)
    ensures
        r == sat_mul(a as int, b as int),
{
    match a.checked_mul(b) {
        Some(v) => v,
        None => usize::MAX,
    }
}

impl CubeLayout {
    /// Number of samples in one cell, saturating at `usize::MAX`.
    pub open spec fn spec_len(self) -> int {
        match self {
            CubeLayout::Fold { nbin, nchan, npol } => sat_mul(sat_mul(nbin as int, nchan as int), npol as int),
            CubeLayout::Search { nchan, npol, nsblk } => sat_mul(sat_mul(nchan as int, npol as int), nsblk as int),
        }
    }

    /// Channel count of either layout.
    pub open spec fn spec_nchan(self) -> usize {
        match self {
            CubeLayout::Fold { nchan, .. } | CubeLayout::Search { nchan, .. } => nchan,
        }
    }

    /// Polarisation count of either layout.
    pub open spec fn spec_npol(self) -> usize {
        match self {
            CubeLayout::Fold { npol, .. } | CubeLayout::Search { npol, .. } => npol,
        }
    }

    /// Number of samples in one cell.
    pub fn len(self) -> (r: usize)
        ensures
            r == self.spec_len(),
    {
        match self {
            CubeLayout::Fold { nbin, nchan, npol } => saturating_mul(saturating_mul(nbin, nchan), npol),
            CubeLayout::Search { nchan, npol, nsblk } => saturating_mul(
                saturating_mul(nchan, npol),
                nsblk,
            ),
        }
    }

    /// True when [`Self::len`] is zero.
    pub fn is_empty(self) -> (r: bool)
        ensures
            r == (self.spec_len() == 0),
    {
        self.len() == 0
    }

    /// `NCHAN * NPOL` — length of `DAT_SCL` / `DAT_OFFS`.
    pub fn nplane(self) -> (r: usize)
        ensures
            r == sat_mul(self.spec_nchan() as int, self.spec_npol() as int),
    {
        match self {
            CubeLayout::Fold { nchan, npol, .. } | CubeLayout::Search { nchan, npol, .. } => {
                saturating_mul(nchan, npol)
            },
        }
    }

    /// Channel count.
    pub fn nchan(self) -> (r: usize)
        ensures
            r == self.spec_nchan(),
    {
        match self {
            CubeLayout::Fold { nchan, .. } | CubeLayout::Search { nchan, .. } => nchan,
        }
    }

    /// 0-based `DAT_SCL` index of flattened sample `i` (a zero axis length
    /// counts as giving index 0 where it divides).
    pub open spec fn spec_plane_index(self, i: int) -> int {
        match self {
            CubeLayout::Fold { nbin, .. } => if nbin == 0 {
                0
            } else {
                i / (nbin as int)
            },
            CubeLayout::Search { nchan, npol, .. } => {
                let ichan = if nchan == 0 {
                    0
                } else {
                    i % (nchan as int)
                };
                let ipol = if nchan == 0 || npol == 0 {
                    0
                } else {
                    (i / (nchan as int)) % (npol as int)
                };
                ichan + sat_mul(nchan as int, ipol)
            },
        }
    }

    /// 0-based channel of flattened sample `i`.
    pub open spec fn spec_chan_index(self, i: int) -> int {
        match self {
            CubeLayout::Fold { nbin, nchan, .. } => if nbin == 0 || nchan == 0 {
                0
            } else {
                (i / (nbin as int)) % (nchan as int)
            },
            CubeLayout::Search { nchan, .. } => if nchan == 0 {
                0
            } else {
                i % (nchan as int)
            },
        }
    }

    /// 0-based `DAT_SCL` index `ichan + nchan * ipol` for flattened sample `i`.
    pub fn plane_index(self, i: usize) -> (r: usize)
        requires
            self.spec_plane_index(i as int) <= usize::MAX,
        ensures
            r == self.spec_plane_index(i as int),
    {
        match self {
            CubeLayout::Fold { nbin, .. } => {
                if nbin == 0 {
                    0
                } else {
                    i / nbin
                }
            },
            CubeLayout::Search { nchan, npol, .. } => {
                let ichan = if nchan == 0 {
                    0
                } else {
                    i % nchan
                };
                let ipol = if nchan == 0 || npol == 0 {
                    0
                } else {
                    (i / nchan) % npol
                };
                ichan + saturating_mul(nchan, ipol)
            },
        }
    }

    /// 0-based channel for flattened sample `i` (for `DAT_WTS`).
    pub fn chan_index(self, i: usize) -> (r: usize)
        ensures
            r == self.spec_chan_index(i as int),
    {
        match self {
            CubeLayout::Fold { nbin, nchan, .. } => {
                if nbin == 0 || nchan == 0 {
                    0
                } else {
                    (i / nbin) % nchan
                }
            },
            CubeLayout::Search { nchan, .. } => {
                if nchan == 0 {
                    0
                } else {
                    i % nchan
                }
            },
        }
    }
}

/// Law (fold mode): sample `ibin + nbin * (ichan + nchan * ipol)` of a cell
/// with `nbin * nchan * npol` samples takes `DAT_SCL` entry
/// `ichan + nchan * ipol` and channel weight `ichan`.
pub proof fn lemma_fold_indices(nbin: usize, nchan: usize, npol: usize, ibin: int, ichan: int, ipol: int)
    requires
        0 <= ibin < nbin,
        0 <= ichan < nchan,
        0 <= ipol < npol,
        nbin * nchan * npol <= usize::MAX,
    ensures
        ({
            let lay = CubeLayout::Fold { nbin, nchan, npol };
            let i = ibin + nbin * (ichan + nchan * ipol);
            &&& 0 <= i < lay.spec_len()
            &&& lay.spec_plane_index(i) == ichan + nchan * ipol
            &&& lay.spec_chan_index(i) == ichan
        }),
{
    let p = ichan + nchan * ipol;
    let i = ibin + nbin * p;
    assert(p < nchan * npol && 0 <= p) by (nonlinear_arith)
        requires
            0 <= ichan < nchan,
            0 <= ipol < npol,
            p == ichan + nchan * ipol,
    ;
    assert(0 <= i < nbin * (nchan * npol)) by (nonlinear_arith)
        requires
            0 <= ibin < nbin,
            0 <= p < nchan * npol,
            i == ibin + nbin * p,
    ;
    assert(nbin * (nchan * npol) == nbin * nchan * npol) by (nonlinear_arith);
    assert(nbin * nchan <= nbin * nchan * npol) by (nonlinear_arith)
        requires
            npol >= 1,
    ;
    vstd::arithmetic::div_mod::lemma_fundamental_div_mod_converse(i, nbin as int, p, ibin);
    vstd::arithmetic::div_mod::lemma_fundamental_div_mod_converse(p, nchan as int, ipol, ichan);
}

/// Law (search mode): sample `ichan + nchan * (ipol + npol * isamp)` of a
/// cell with `nchan * npol * nsblk` samples takes `DAT_SCL` entry
/// `ichan + nchan * ipol` and channel weight `ichan`.
pub proof fn lemma_search_indices(
    nchan: usize,
    npol: usize,
    nsblk: usize,
    ichan: int,
    ipol: int,
    isamp: int,
)
    requires
        0 <= ichan < nchan,
        0 <= ipol < npol,
        0 <= isamp < nsblk,
        nchan * npol * nsblk <= usize::MAX,
    ensures
        ({
            let lay = CubeLayout::Search { nchan, npol, nsblk };
            let i = ichan + nchan * (ipol + npol * isamp);
            &&& 0 <= i < lay.spec_len()
            &&& lay.spec_plane_index(i) == ichan + nchan * ipol
            &&& lay.spec_chan_index(i) == ichan
        }),
{
    let q = ipol + npol * isamp;
    let i = ichan + nchan * q;
    assert(q < npol * nsblk && 0 <= q) by (nonlinear_arith)
        requires
            0 <= ipol < npol,
            0 <= isamp < nsblk,
            q == ipol + npol * isamp,
    ;
    assert(0 <= i < nchan * (npol * nsblk)) by (nonlinear_arith)
        requires
            0 <= ichan < nchan,
            0 <= q < npol * nsblk,
            i == ichan + nchan * q,
    ;
    assert(nchan * (npol * nsblk) == nchan * npol * nsblk) by (nonlinear_arith);
    assert(nchan * npol <= nchan * npol * nsblk) by (nonlinear_arith)
        requires
            nsblk >= 1,
    ;
    assert(nchan * ipol <= nchan * npol) by (nonlinear_arith)
        requires
            ipol < npol,
            nchan >= 0,
    ;
    vstd::arithmetic::div_mod::lemma_fundamental_div_mod_converse(i, nchan as int, q, ichan);
    vstd::arithmetic::div_mod::lemma_fundamental_div_mod_converse(q, npol as int, isamp, ipol);
}


/// Bits of a sample of `NBIT` bits (at most 8).
pub open spec fn sample_bits(nbit: u32) -> nat {
    if nbit < 8 {
        nbit as nat
    } else {
        8
    }
}

/// Value of a raw NBIT sample: its low `sample_bits(nbit)` bits, read as
/// two's complement when `signint`.
pub open spec fn sample_value(raw: u8, nbit: u32, signint: bool) -> int {
    let m = vstd::arithmetic::power2::pow2(sample_bits(nbit)) as int;
    let u = raw as int % m;
    if signint && sample_bits(nbit) > 0 && 2 * u >= m {
        u - m
    } else {
        u
    }
}

/// Value of one raw NBIT sample (two's complement when `signint`).
pub fn decode_sample(raw: u8, nbit: u32, signint: bool) -> (r: i32)
    ensures
        r == sample_value(raw, nbit, signint),
{
    let bits: u32 = if nbit < 8 {
        nbit
    } else {
        8
    };
    proof {
        vstd::arithmetic::power2::lemma2_to64();
        vstd::arithmetic::power2::lemma_pow2_strictly_increases(bits as nat, 32);
        vstd::bits::lemma_u32_shl_is_mul(1, bits);
    }
    let m: u32 = 1u32 << bits;
    let x = raw as u32;
    let mask: u32 = m - 1;
    let u: u32 = x & mask;
    assert(u == x % m) by (bit_vector)
        requires
            m == 1u32 << bits,
            bits <= 8,
            mask + 1 == m,
            u == x & mask,
    ;
    if signint && bits > 0 {
        let b1: u32 = bits - 1;
        let half: u32 = 1u32 << b1;
        assert(((u & half) != 0) == (2 * u >= m)) by (bit_vector)
            requires
                m == 1u32 << bits,
                half == 1u32 << b1,
                b1 + 1 == bits,
                1 <= bits <= 8,
                u < m,
        ;
        if u & half != 0 {
            u as i32 - m as i32
        } else {
            u as i32
        }
    } else {
        u as i32
    }
}
} // verus!
