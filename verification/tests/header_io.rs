use rfitsio::convert::{
    decode_sbyte_i8, decode_ulong_u32, decode_ulonglong_u64, decode_ushort_u16, encode_i8_sbyte,
    encode_u16_ushort, encode_u32_ulong, encode_u64_ulonglong, pad_data_len,
};
use rfitsio::hdu::Hdu;
use rfitsio::header::Header;
use rfitsio::io::gzip;
use rfitsio::io::memory::MemoryDriver;
use rfitsio::io::{read_all, write_all, Driver};
use rfitsio::status::{fits_get_errstatus, BAD_KEYCHAR, KEY_NO_EXIST};
use rfitsio::types::{HduType, ImageType};

fn card_text(h: &Header, i: usize) -> String {
    h.cards()[i].as_str().unwrap().to_string()
}

#[test]
fn empty_primary_header_cards() {
    let h = Header::empty_primary().unwrap();
    assert_eq!(h.len(), 6);
    assert!(card_text(&h, 0).starts_with("SIMPLE  =                    T"));
    assert!(card_text(&h, 1).starts_with("BITPIX  =                    8"));
    assert!(card_text(&h, 2).starts_with("NAXIS   =                    0"));
    assert!(card_text(&h, 3).starts_with("EXTEND  =                    T"));
    assert_eq!(h.bitpix().unwrap(), 8);
    assert_eq!(h.naxes().unwrap(), Vec::<i64>::new());
}

#[test]
fn empty_primary_record_is_one_block() {
    let h = Header::empty_primary().unwrap();
    let rec = h.to_record_bytes();
    assert_eq!(rec.len(), 2880);
    assert_eq!(&rec[6 * 80..6 * 80 + 3], b"END");
    assert!(rec[6 * 80 + 3..].iter().all(|&b| b == b' '));
}

#[test]
fn header_parse_reads_back_written_cards() {
    let mut h = Header::new();
    h.write_logical("SIMPLE", true, Some("conforms")).unwrap();
    h.write_long("BITPIX", 16, None).unwrap();
    h.write_long("NAXIS", 2, None).unwrap();
    h.write_long("NAXIS1", 10, None).unwrap();
    h.write_long("NAXIS2", 20, None).unwrap();
    h.write_string("OBJECT", "M31", None).unwrap();
    let rec = h.to_record_bytes();
    let (back, used) = Header::parse(&rec).unwrap();
    assert_eq!(used, 2880);
    assert_eq!(back.len(), 6);
    assert_eq!(back.naxes().unwrap(), vec![10, 20]);
    assert_eq!(back.bitpix().unwrap(), 16);
    assert!(card_text(&back, 5).starts_with("OBJECT  = 'M31     '"));
}

#[test]
fn header_get_missing_key() {
    let h = Header::empty_primary().unwrap();
    let e = h.get_i64("NAXIS9").unwrap_err();
    assert_eq!(e.status, KEY_NO_EXIST);
    assert!(h.card_by_name("BITPIX").is_some());
    assert!(h.card_by_name("FOO").is_none());
}

#[test]
fn header_bad_keyword_is_refused() {
    let mut h = Header::new();
    let e = h.write_long("A=B", 1, None).unwrap_err();
    assert_eq!(e.status, BAD_KEYCHAR);
    assert_eq!(h.len(), 0);
}

#[test]
fn set_blank_then_blank_reads_it() {
    let mut h = Header::primary_image(ImageType::I16, &[4, 4]).unwrap();
    assert_eq!(h.blank(), None);
    h.set_blank(-32768).unwrap();
    assert_eq!(h.blank(), Some(-32768));
    h.set_blank(7).unwrap();
    assert_eq!(h.blank(), Some(7));
}

#[test]
fn unsigned_image_gets_bzero() {
    let h = Header::primary_image(ImageType::U16, &[3]).unwrap();
    let z = h.card_by_name("BZERO").unwrap();
    assert!(z.as_str().unwrap().starts_with("BZERO   =                32768"));
    let x = Header::image_extension(ImageType::I32, &[2, 3]).unwrap();
    assert!(card_text(&x, 0).starts_with("XTENSION= 'IMAGE   '"));
    assert_eq!(x.naxes().unwrap(), vec![2, 3]);
}

#[test]
fn compressed_image_flag() {
    let mut h = Header::new();
    assert!(!h.is_compressed_image());
    h.write_logical("ZIMAGE", true, None).unwrap();
    assert!(h.is_compressed_image());
}

#[test]
fn upsert_replaces_value_in_place() {
    let mut h = Header::empty_primary().unwrap();
    h.upsert_long("NAXIS", 1, None).unwrap();
    assert_eq!(h.len(), 6);
    assert_eq!(h.get_i64("NAXIS").unwrap(), 1);
    h.upsert_long("NEWKEY", 5, None).unwrap();
    assert_eq!(h.len(), 7);
    assert_eq!(h.get_i64("NEWKEY").unwrap(), 5);
}

#[test]
fn hdu_empty_primary() {
    let hdu = Hdu::empty_primary().unwrap();
    assert_eq!(hdu.hdu_type, HduType::Image);
    assert_eq!(hdu.data_start, 2880);
    assert_eq!(hdu.header.len(), 6);
}

#[test]
fn memory_driver_read_after_write() {
    let mut d = MemoryDriver::new();
    d.write_at(4, b"abc").unwrap();
    assert_eq!(d.len().unwrap(), 7);
    let mut buf = [9u8; 7];
    assert_eq!(d.read_at(0, &mut buf).unwrap(), 7);
    assert_eq!(&buf, &[0, 0, 0, 0, b'a', b'b', b'c']);
    let mut tail = [0u8; 4];
    assert_eq!(d.read_at(5, &mut tail).unwrap(), 2);
    assert_eq!(&tail[..2], b"bc");
    d.truncate(2).unwrap();
    assert_eq!(d.as_slice(), &[0, 0]);
    assert!(!d.is_empty().unwrap());
}

#[test]
fn memory_driver_edges_never_fail() {
    let mut d = MemoryDriver::new();
    assert!(d.is_empty().unwrap());
    assert_eq!(d.len().unwrap(), 0);
    assert_eq!(read_all(&mut d).unwrap(), Vec::<u8>::new());
    let mut buf = [5u8; 3];
    assert_eq!(d.read_at(10, &mut buf).unwrap(), 0);
    assert_eq!(buf, [5, 5, 5]);
    d.write_at(0, b"xy").unwrap();
    d.flush().unwrap();
    assert_eq!(d.as_slice(), b"xy");
    d.truncate(4).unwrap();
    assert_eq!(d.as_slice(), &[b'x', b'y', 0, 0]);
}

#[test]
fn read_all_and_write_all_through_driver() {
    let mut d = MemoryDriver::new();
    write_all(&mut d, b"hello fits").unwrap();
    assert_eq!(read_all(&mut d).unwrap(), b"hello fits".to_vec());
    write_all(&mut d, b"hi").unwrap();
    assert_eq!(d.into_inner(), b"hi".to_vec());
}

#[test]
fn gzip_stream_roundtrip_and_magic() {
    let data: Vec<u8> = (0..500u32).map(|i| (i % 7) as u8).collect();
    let z = gzip::compress(&data).unwrap();
    assert!(gzip::is_gzip(&z));
    assert!(!gzip::is_gzip(&data));
    assert_eq!(gzip::decompress(&z).unwrap(), data);
    assert!(gzip::decompress(b"not gzip").is_err());
}

#[test]
fn unsigned_encodings_roundtrip() {
    assert_eq!(encode_u16_ushort(0), [0x80, 0x00]);
    assert_eq!(encode_u16_ushort(65535), [0x7f, 0xff]);
    assert_eq!(decode_ushort_u16([0x80, 0x00]), 0);
    assert_eq!(encode_i8_sbyte(-128), 0);
    assert_eq!(encode_i8_sbyte(127), 255);
    assert_eq!(decode_sbyte_i8(0), -128);
    assert_eq!(encode_u32_ulong(0), [0x80, 0, 0, 0]);
    assert_eq!(decode_ulong_u32(encode_u32_ulong(123_456_789)), 123_456_789);
    assert_eq!(encode_u64_ulonglong(0), [0x80, 0, 0, 0, 0, 0, 0, 0]);
    assert_eq!(decode_ulonglong_u64(encode_u64_ulonglong(u64::MAX)), u64::MAX);
}

#[test]
fn data_padding_to_records() {
    assert_eq!(pad_data_len(0), 0);
    assert_eq!(pad_data_len(1), 2880);
    assert_eq!(pad_data_len(2880), 2880);
    assert_eq!(pad_data_len(2881), 5760);
}

#[test]
fn errstatus_text() {
    assert_eq!(fits_get_errstatus(KEY_NO_EXIST), "keyword not found in header");
}

#[test]
fn upsert_long_reads_back_every_width() {
    let mut h = Header::new();
    for &v in &[0i64, 7, -1, 1234567890123, i64::MAX, i64::MIN] {
        h.upsert_long("NAXIS1", v, Some("length of axis")).unwrap();
        assert_eq!(h.get_i64("NAXIS1").unwrap(), v);
        assert_eq!(h.len(), 1);
    }
    h.upsert_long("BITPIX", 16, None).unwrap();
    assert_eq!(h.get_i64("BITPIX").unwrap(), 16);
    assert_eq!(h.get_i64("NAXIS1").unwrap(), i64::MIN);
}

#[test]
fn blank_reads_back_what_set_blank_wrote() {
    let mut h = Header::new();
    assert_eq!(h.blank(), None);
    h.set_blank(-32768).unwrap();
    assert_eq!(h.blank(), Some(-32768));
    h.set_blank(255).unwrap();
    assert_eq!(h.blank(), Some(255));
    h.write_long("NEWKEY", 42, Some("a comment")).unwrap();
    assert_eq!(h.get_i64("NEWKEY").unwrap(), 42);
    assert_eq!(h.get_i64("NOKEY").unwrap_err().status, KEY_NO_EXIST);
}

#[test]
fn primary_image_keywords_read_back() {
    let h = Header::primary_image(ImageType::I16, &[640, 480, 3]).unwrap();
    assert_eq!(h.cards()[0].keyword_name().unwrap(), ("SIMPLE".to_string(), 6));
    assert_eq!(h.bitpix().unwrap(), 16);
    assert_eq!(h.naxes().unwrap(), vec![640, 480, 3]);
    assert!(h.card_by_name("XTENSION").is_none());
    let u = Header::primary_image(ImageType::U64, &[1]).unwrap();
    assert_eq!(u.bitpix().unwrap(), 64);
    assert_eq!(u.naxes().unwrap(), vec![1]);
    assert!(u.card_by_name("XTENSION").is_none());
}

#[test]
fn image_extension_keywords_read_back() {
    let axes: Vec<i64> = (1..=12).collect();
    let x = Header::image_extension(ImageType::U16, &axes).unwrap();
    assert_eq!(x.cards()[0].keyword_name().unwrap(), ("XTENSION".to_string(), 8));
    assert_eq!(x.bitpix().unwrap(), 16);
    assert_eq!(x.naxes().unwrap(), axes);
    assert_eq!(x.get_i64("PCOUNT").unwrap(), 0);
    assert_eq!(x.get_i64("GCOUNT").unwrap(), 1);
    assert_eq!(x.get_i64("BZERO").unwrap(), 32768);
    assert!(x.card_by_name("SIMPLE").is_none());
}
