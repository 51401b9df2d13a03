use rfitsio::file::AccessMode;
use rfitsio::image::data_len_bytes;
use rfitsio::psrfits::decode_sample;
use rfitsio::status::{ARRAY_TOO_BIG, BAD_WCS_PROJ, NEG_AXIS};
use rfitsio::types::ImageType;
use rfitsio::wcs::proj_code;

#[test]
fn nbit_sample_values() {
    assert_eq!(decode_sample(0b11, 2, true), -1);
    assert_eq!(decode_sample(0b10, 2, true), -2);
    assert_eq!(decode_sample(0b01, 2, true), 1);
    assert_eq!(decode_sample(0b1111_0111, 2, false), 3);
    assert_eq!(decode_sample(200, 8, true), -56);
    assert_eq!(decode_sample(200, 8, false), 200);
    assert_eq!(decode_sample(200, 0, true), 0);
}

#[test]
fn image_data_lengths() {
    assert_eq!(data_len_bytes(ImageType::I16, &[]).unwrap(), 0);
    assert_eq!(data_len_bytes(ImageType::I16, &[10, 20]).unwrap(), 400);
    assert_eq!(data_len_bytes(ImageType::F64, &[3]).unwrap(), 24);
    assert_eq!(data_len_bytes(ImageType::U8, &[5, 0]).unwrap_err().status, NEG_AXIS);
    assert_eq!(
        data_len_bytes(ImageType::U8, &[1 << 40, 1 << 40]).unwrap_err().status,
        ARRAY_TOO_BIG
    );
}

#[test]
fn projection_codes() {
    assert_eq!(proj_code("RA---TAN").unwrap(), *b"TAN");
    assert_eq!(proj_code("  dec--sin ").unwrap(), *b"SIN");
    assert_eq!(proj_code("-car").unwrap(), *b"CAR");
    assert_eq!(proj_code("XY").unwrap_err().status, BAD_WCS_PROJ);
    assert_eq!(proj_code("-AB").unwrap_err().status, BAD_WCS_PROJ);
}

#[test]
fn access_mode_codes() {
    assert_eq!(AccessMode::ReadOnly.code(), 0);
    assert_eq!(AccessMode::ReadWrite.code(), 1);
}

#[test]
fn ushort_bytes_are_i16_plus_offset() {
    for b in [[0u8, 0], [0x7f, 0xff], [0x80, 0x00], [0xff, 0xff], [0x12, 0x34]] {
        let v = rfitsio::convert::decode_ushort_u16(b);
        assert_eq!(v as i32, i16::from_be_bytes(b) as i32 + 32768);
        assert_eq!(rfitsio::convert::encode_u16_ushort(v), b);
    }
}

#[test]
fn message_queue_is_first_in_first_out() {
    let mut q = rfitsio::error::MessageQueue::new();
    assert_eq!(q.pop_err_msg(), None);
    q.push_err_msg("first".to_string());
    q.push_err_msg("second".to_string());
    assert_eq!(q.pop_err_msg().as_deref(), Some("first"));
    q.clear_err_msg();
    assert_eq!(q.pop_err_msg(), None);
}
