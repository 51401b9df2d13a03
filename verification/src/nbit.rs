//! PSRFITS search-mode sample packing (`NBIT` = 1, 2, 4, or 8).
//!
//! Earlier samples occupy the high-order bits of each byte.
use vstd::prelude::*;
use crate::error::FitsError;
use crate::status::{BAD_DATATYPE, NEG_BYTES};
use crate::text::{decimal_nat, format_u64, latin1, string_of_bytes};

verus! {

/// Samples per byte for a supported `nbit`.
pub open spec fn spec_samples_per_byte(nbit: u32) -> Option<usize> {
    if nbit == 1 {
        Some(8)
    } else if nbit == 2 {
        Some(4)
    } else if nbit == 4 {
        Some(2)
    } else if nbit == 8 {
        Some(1)
    } else {
        None
    }
}

/// Largest sample that fits in `nbit` bits.
pub open spec fn sample_mask(nbit: u32) -> u8 {
    if nbit == 1 {
        1
    } else if nbit == 2 {
        3
    } else if nbit == 4 {
        15
    } else {
        255
    }
}

/// Bit offset of slot `slot` (0 = the high-order field).
pub open spec fn slot_shift(nbit: u32, slot: int) -> u8 {
    (8 - nbit * (slot + 1)) as u8
}

/// Sample `i` as stored in the packed bytes.
pub open spec fn packed_field(bytes: Seq<u8>, nbit: u32, i: int) -> u8 {
    let spb = spec_samples_per_byte(nbit)->0 as int;
    (bytes[i / spb] >> slot_shift(nbit, i % spb)) & sample_mask(nbit)
}

/// `bytes` packs `samples`: one byte per `samples_per_byte` samples (the
/// last partly filled), every field holding its sample and unused fields 0.
pub open spec fn packs(bytes: Seq<u8>, samples: Seq<u8>, nbit: u32) -> bool {
    let spb = spec_samples_per_byte(nbit)->0 as int;
    &&& bytes.len() == (samples.len() + spb - 1) / spb
    &&& forall|i: int|
        0 <= i < bytes.len() * spb ==> #[trigger] packed_field(bytes, nbit, i) == (if i
            < samples.len() {
            samples[i]
        } else {
            0u8
        })
}

/// Message for an unsupported `nbit`.
pub open spec fn bad_nbit_message(nbit: u32) -> Seq<char> {
    "unsupported NBIT="@ + latin1(decimal_nat(nbit as nat)) + " (want 1, 2, 4, or 8)"@
}

/// Message for a sample too large for `nbit` bits.
pub open spec fn too_wide_message(s: u8, nbit: u32) -> Seq<char> {
    "sample "@ + latin1(decimal_nat(s as nat)) + " does not fit in "@ + latin1(
        decimal_nat(nbit as nat),
    ) + " bits"@
}

/// Samples that fit in one byte for a given `nbit`.
pub fn samples_per_byte(nbit: u32) -> (r: Option<usize>)
    ensures
        r == spec_samples_per_byte(nbit),
{
    if nbit == 1 {
        Some(8)
    } else if nbit == 2 {
        Some(4)
    } else if nbit == 4 {
        Some(2)
    } else if nbit == 8 {
        Some(1)
    } else {
        None
    }
}

fn bad_nbit_error(nbit: u32) -> (e: FitsError)
    ensures
        e.status == BAD_DATATYPE,
        e.message_list() == seq![bad_nbit_message(nbit)],
{
    let mut msg = String::from_str("unsupported NBIT=");
    let d = format_u64(nbit as u64);
    let ds = string_of_bytes(d.as_slice());
    msg.append(ds.as_str());
    msg.append(" (want 1, 2, 4, or 8)");
    FitsError::with_message(BAD_DATATYPE, msg.as_str())
}

/// OR-ing a sample into an empty field sets that field and leaves the others.
proof fn lemma_or_field(x: u8, s: u8, sh: u8, m: u8, w: u8, sh2: u8)
    requires
        w == 1 || w == 2 || w == 4 || w == 8,
        m == (if w == 1 { 1u8 } else if w == 2 { 3u8 } else if w == 4 { 15u8 } else { 255u8 }),
        sh + w <= 8,
        sh2 + w <= 8,
        sh % w == 0,
        sh2 % w == 0,
        s <= m,
        (x >> sh) & m == 0,
    ensures
        ((x | (s << sh)) >> sh) & m == s,
        sh2 != sh ==> ((x | (s << sh)) >> sh2) & m == (x >> sh2) & m,
{
    assert(((x | (s << sh)) >> sh) & m == s) by (bit_vector)
        requires
            w == 1 || w == 2 || w == 4 || w == 8,
            m == (if w == 1 { 1u8 } else if w == 2 { 3u8 } else if w == 4 { 15u8 } else { 255u8 }),
            sh + w <= 8,
            s <= m,
            (x >> sh) & m == 0,
    ;
    assert(sh2 != sh ==> ((x | (s << sh)) >> sh2) & m == (x >> sh2) & m) by (bit_vector)
        requires
            w == 1 || w == 2 || w == 4 || w == 8,
            m == (if w == 1 { 1u8 } else if w == 2 { 3u8 } else if w == 4 { 15u8 } else { 255u8 }),
            sh + w <= 8,
            sh2 + w <= 8,
            sh % w == 0,
            sh2 % w == 0,
            s <= m,
    ;
}

/// An empty byte has empty fields.
proof fn lemma_zero_field(sh: u8, m: u8)
    ensures
        (0u8 >> sh) & m == 0u8,
{
    assert((0u8 >> sh) & m == 0u8) by (bit_vector);
}

/// Pack unsigned samples (`0 .. 2^nbit - 1`) into bytes, MSB first.
pub fn pack_samples(samples: &[u8], nbit: u32) -> (r: Result<Vec<u8>, FitsError>)
    ensures
        spec_samples_per_byte(nbit) is None ==> (r matches Err(e) && e.status == BAD_DATATYPE
            && e.message_list() == seq![bad_nbit_message(nbit)]),
        forall|i: int|
            #![trigger samples@[i]]
            spec_samples_per_byte(nbit) is Some && 0 <= i < samples@.len() && samples@[i]
                > sample_mask(nbit) && (forall|j: int| 0 <= j < i ==> samples@[j] <= sample_mask(nbit))
                ==> (r matches Err(e) && e.status == BAD_DATATYPE && e.message_list() == seq![
                too_wide_message(samples@[i], nbit),
            ]),
        r is Ok <==> spec_samples_per_byte(nbit) is Some && (forall|i: int|
            0 <= i < samples@.len() ==> samples@[i] <= sample_mask(nbit)),
        r matches Ok(b) ==> packs(b@, samples@, nbit),
{
    let spb = match samples_per_byte(nbit) {
        Some(v) => v,
        None => {
            return Err(bad_nbit_error(nbit));
        },
    };
    let mask: u8 = if nbit == 1 { 1 } else if nbit == 2 { 3 } else if nbit == 4 { 15 } else { 255 };
    let mut k: usize = 0;
    while k < samples.len()
        invariant
            k <= samples@.len(),
            mask == sample_mask(nbit),
            forall|i: int| 0 <= i < k ==> samples@[i] <= mask,
        decreases samples.len() - k,
    {
        let s = samples[k];
        if s > mask {
            let mut msg = String::from_str("sample ");
            let d = format_u64(s as u64);
            let ds = string_of_bytes(d.as_slice());
            msg.append(ds.as_str());
            msg.append(" does not fit in ");
            let d2 = format_u64(nbit as u64);
            let ds2 = string_of_bytes(d2.as_slice());
            msg.append(ds2.as_str());
            msg.append(" bits");
            assert(msg@ == too_wide_message(s, nbit));
            return Err(FitsError::with_message(BAD_DATATYPE, msg.as_str()));
        }
        k += 1;
    }
    let n = samples.len();
    proof {
        if n % spb != 0 {
            assert(n / spb < usize::MAX) by (nonlinear_arith)
                requires
                    n % spb != 0,
                    spb >= 1,
                    n <= usize::MAX,
            ;
        }
    }
    let nbytes = if n % spb == 0 { n / spb } else { n / spb + 1 };
    assert(nbytes == (n + spb - 1) / (spb as int)) by (nonlinear_arith)
        requires
            nbytes == n / spb + if n % spb == 0 { 0int } else { 1int },
            spb >= 1,
    ;
    let mut out: Vec<u8> = Vec::new();
    let mut z: usize = 0;
    while z < nbytes
        invariant
            z <= nbytes,
            out@.len() == z,
            forall|j: int| 0 <= j < z ==> out@[j] == 0u8,
        decreases nbytes - z,
    {
        out.push(0u8);
        z += 1;
    }
    let w: u8 = nbit as u8;
    let mut i: usize = 0;
    assert forall|j: int| 0 <= j < nbytes * spb implies #[trigger] packed_field(out@, nbit, j) == (if j < 0 {
        samples@[j]
    } else {
        0u8
    }) by {
        assert(j / (spb as int) < nbytes) by (nonlinear_arith)
            requires
                0 <= j < nbytes * spb,
                spb >= 1,
        ;
        lemma_zero_field(slot_shift(nbit, j % (spb as int)), sample_mask(nbit));
    }
    while i < n
        invariant
            nbit == 1 || nbit == 2 || nbit == 4 || nbit == 8,
            spb as int == spec_samples_per_byte(nbit)->0,
            spb == 1 || spb == 2 || spb == 4 || spb == 8,
            nbit * spb == 8,
            w == nbit,
            mask == sample_mask(nbit),
            n == samples@.len(),
            out@.len() == nbytes,
            nbytes == (n + spb - 1) / (spb as int),
            i <= n,
            forall|j: int| 0 <= j < n ==> samples@[j] <= mask,
            forall|j: int|
                0 <= j < nbytes * spb ==> #[trigger] packed_field(out@, nbit, j) == (if j < i {
                    samples@[j]
                } else {
                    0u8
                }),
        decreases n - i,
    {
        let byte = i / spb;
        let slot = i % spb;
        assert(byte < nbytes && slot < spb) by (nonlinear_arith)
            requires
                byte == i / spb,
                slot == i % spb,
                i < n,
                nbytes == (n + spb - 1) / (spb as int),
                spb >= 1,
        ;
        proof {
            assert(1 <= nbit * (slot + 1) <= 8) by (nonlinear_arith)
                requires
                    slot < spb,
                    nbit * spb == 8,
                    nbit >= 1,
            ;
        }
        let sh: u8 = (8 - nbit * (slot as u32 + 1)) as u8;
        let s = samples[i];
        let old_byte = out[byte];
        let new_byte = old_byte | (s << sh);
        proof {
            assert(i < nbytes * spb) by (nonlinear_arith)
                requires
                    i < n,
                    nbytes == (n + spb - 1) / (spb as int),
                    spb >= 1,
            ;
            assert(packed_field(out@, nbit, i as int) == 0u8);
            assert(sh % w == 0) by (nonlinear_arith)
                requires
                    sh == 8 - nbit * (slot + 1),
                    nbit * spb == 8,
                    w == nbit,
                    w >= 1,
            ;
            assert forall|j: int| 0 <= j < nbytes * spb && j != i implies #[trigger] packed_field(
                out@.update(byte as int, new_byte),
                nbit,
                j,
            ) == packed_field(out@, nbit, j) by {
                if j / (spb as int) == byte as int {
                    let sh2 = slot_shift(nbit, j % (spb as int));
                    if j % (spb as int) == slot as int {
                        assert(j == i) by (nonlinear_arith)
                            requires
                                j / (spb as int) == byte as int,
                                j % (spb as int) == slot as int,
                                byte == i / spb,
                                slot == i % spb,
                                spb >= 1,
                        ;
                    }
                    assert(j % (spb as int) != slot as int);
                    assert(sh2 % w == 0 && sh2 + w <= 8 && sh2 != sh) by (nonlinear_arith)
                        requires
                            sh2 == 8 - nbit * (j % (spb as int) + 1),
                            j % (spb as int) != slot,
                            0 <= j % (spb as int) < spb,
                            sh == 8 - nbit * (slot + 1),
                            nbit * spb == 8,
                            w == nbit,
                            w >= 1,
                    ;
                    lemma_or_field(old_byte, s, sh, mask, w, sh2);
                }
            }
            lemma_or_field(old_byte, s, sh, mask, w, sh);
        }
        out.set(byte, new_byte);
        i += 1;
    }
    Ok(out)
}

/// Unpack `nsamp` samples from packed bytes. `nsamp == 0` means “as many as
/// the buffer holds” (whole bytes only).
pub fn unpack_samples(bytes: &[u8], nbit: u32, nsamp: usize) -> (r: Result<Vec<u8>, FitsError>)
    requires
        bytes@.len() <= usize::MAX / 8,
    ensures
        spec_samples_per_byte(nbit) is None ==> (r matches Err(e) && e.status == BAD_DATATYPE
            && e.message_list() == seq![bad_nbit_message(nbit)]),
        spec_samples_per_byte(nbit) matches Some(spb) ==> ({
            let avail = bytes@.len() * spb;
            let n = if nsamp == 0 { avail } else { nsamp as int };
            if n > avail {
                r matches Err(e) && e.status == NEG_BYTES
            } else {
                r matches Ok(v) && v@.len() == n && forall|i: int|
                    0 <= i < n ==> #[trigger] v@[i] == packed_field(bytes@, nbit, i)
            }
        }),
{
    let spb = match samples_per_byte(nbit) {
        Some(v) => v,
        None => {
            return Err(bad_nbit_error(nbit));
        },
    };
    assert(bytes@.len() * spb <= usize::MAX) by (nonlinear_arith)
        requires
            bytes@.len() <= usize::MAX / 8,
            spb <= 8,
    ;
    let avail: usize = bytes.len() * spb;
    let n: usize = if nsamp == 0 { avail } else { nsamp };
    if n > avail {
        return Err(FitsError::with_message(
            NEG_BYTES,
            "not enough packed bytes for requested samples",
        ));
    }
    let mask: u8 = if nbit == 1 { 1 } else if nbit == 2 { 3 } else if nbit == 4 { 15 } else { 255 };
    let mut out: Vec<u8> = Vec::new();
    let mut i: usize = 0;
    while i < n
        invariant
            nbit == 1 || nbit == 2 || nbit == 4 || nbit == 8,
            spb as int == spec_samples_per_byte(nbit)->0,
            spb == 1 || spb == 2 || spb == 4 || spb == 8,
            nbit * spb == 8,
            mask == sample_mask(nbit),
            n <= bytes@.len() * spb,
            i <= n,
            out@.len() == i,
            forall|j: int| 0 <= j < i ==> #[trigger] out@[j] == packed_field(bytes@, nbit, j),
        decreases n - i,
    {
        let byte = i / spb;
        let slot = i % spb;
        assert(byte < bytes@.len() && slot < spb) by (nonlinear_arith)
            requires
                byte == i / spb,
                slot == i % spb,
                i < n,
                n <= bytes@.len() * spb,
                spb >= 1,
        ;
        proof {
            assert(1 <= nbit * (slot + 1) <= 8) by (nonlinear_arith)
                requires
                    slot < spb,
                    nbit * spb == 8,
                    nbit >= 1,
            ;
        }
        let sh: u8 = (8 - nbit * (slot as u32 + 1)) as u8;
        out.push((bytes[byte] >> sh) & mask);
        i += 1;
    }
    Ok(out)
}

/// Unpacking what was packed gives the samples back.
pub proof fn lemma_pack_unpack(bytes: Seq<u8>, samples: Seq<u8>, nbit: u32, out: Seq<u8>)
    requires
        packs(bytes, samples, nbit),
        out.len() == samples.len(),
        spec_samples_per_byte(nbit) is Some,
        forall|i: int| 0 <= i < out.len() ==> #[trigger] out[i] == packed_field(bytes, nbit, i),
    ensures
        out == samples,
{
    let spb = spec_samples_per_byte(nbit)->0 as int;
    assert forall|i: int| 0 <= i < out.len() implies out[i] == samples[i] by {
        assert(i < bytes.len() * spb) by (nonlinear_arith)
            requires
                0 <= i < samples.len(),
                bytes.len() == (samples.len() + spb - 1) / spb,
                spb >= 1,
        ;
        assert(packed_field(bytes, nbit, i) == samples[i]);
    }
    assert(out =~= samples);
}

} // verus!
