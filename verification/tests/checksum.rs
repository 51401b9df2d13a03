use rfitsio::checksum::{decode_checksum, encode_checksum};

#[test]
fn encode_decode_roundtrip() {
    for &s in &[0u32, 1, 0x1234_5678, 0xabcd_ef00, 0xffff_ffff, 42, 0x8000_0000] {
        let a = encode_checksum(s, false);
        assert_eq!(a.len(), 16);
        assert_eq!(decode_checksum(&a, false), s);
        let c = encode_checksum(s, true);
        assert_eq!(decode_checksum(&c, true), s);
    }
}

#[test]
fn encoded_checksum_is_alphanumeric_and_complement_commutes() {
    for sum in [0u32, 1, 0x1234_5678, 0xffff_ffff, 0x3a3a_3a3a, 0x5b5b_5b5b] {
        let s = rfitsio::checksum::fits_encode_chksum(sum, true);
        assert_eq!(s.len(), 16);
        assert!(s.bytes().all(|b| b.is_ascii_alphanumeric()));
        assert_eq!(s, rfitsio::checksum::fits_encode_chksum(!sum, false));
    }
}

#[test]
fn zero_and_short_records_leave_the_sum() {
    for sum in [0u32, 1, 0xdead_beef, 0xffff_ffff] {
        assert_eq!(rfitsio::checksum::add_checksum_record(sum, &[0u8; 2880]), sum);
        assert_eq!(rfitsio::checksum::add_checksum_record(sum, &[7u8; 100]), sum);
    }
}
