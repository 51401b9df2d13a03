use rfitsio::nbit::{pack_samples, unpack_samples};

#[test]
fn one_bit_msb_first() {
    let s = [1u8, 0, 1, 0, 1, 0, 1, 0];
    let b = pack_samples(&s, 1).unwrap();
    assert_eq!(b, vec![0b1010_1010]);
    assert_eq!(unpack_samples(&b, 1, 8).unwrap(), s);
}

#[test]
fn two_bit_msb_first() {
    let s = [0u8, 1, 2, 3];
    let b = pack_samples(&s, 2).unwrap();
    assert_eq!(b, vec![0b0001_1011]);
    assert_eq!(unpack_samples(&b, 2, 4).unwrap(), s);
}

#[test]
fn four_bit_high_nibble_first() {
    let s = [0xAu8, 0xB];
    let b = pack_samples(&s, 4).unwrap();
    assert_eq!(b, vec![0xAB]);
    assert_eq!(unpack_samples(&b, 4, 2).unwrap(), s);
}

#[test]
fn eight_bit_identity() {
    let s = [0u8, 7, 255, 16];
    let b = pack_samples(&s, 8).unwrap();
    assert_eq!(b, s);
    assert_eq!(unpack_samples(&b, 8, 0).unwrap(), s);
}

#[test]
fn pad_partial_last_byte() {
    let s = [1u8, 1, 1];
    let b = pack_samples(&s, 1).unwrap();
    assert_eq!(b.len(), 1);
    assert_eq!(b[0] & 0b1110_0000, 0b1110_0000);
    assert_eq!(unpack_samples(&b, 1, 3).unwrap(), s);
}

#[test]
fn rejects_bad_nbit_and_range() {
    assert!(pack_samples(&[1], 3).is_err());
    assert!(pack_samples(&[4], 2).is_err());
}
