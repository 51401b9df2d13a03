use rfitsio::file::{movabs_hdu, open_bytes, parse_hdus};
use rfitsio::header::Header;
use rfitsio::io::gzip;
use rfitsio::status::{BAD_HDU_NUM, FILE_NOT_OPENED, NO_END, READ_ERROR};
use rfitsio::types::{HduType, ImageType};

fn two_hdu_image() -> Vec<u8> {
    let mut bytes = Header::empty_primary().unwrap().to_record_bytes();
    let mut ext = Header::image_extension(ImageType::U8, &[10, 3]).unwrap();
    ext.write_string("EXTNAME", "PIX", None).unwrap();
    bytes.extend(ext.to_record_bytes());
    bytes.extend(vec![7u8; 30]);
    bytes.extend(vec![0u8; 2880 - 30]);
    bytes
}

#[test]
fn parse_hdus_walks_headers_and_data_units() {
    let bytes = two_hdu_image();
    let hdus = parse_hdus(&bytes).unwrap();
    assert_eq!(hdus.len(), 2);
    assert_eq!(hdus[0].hdu_type, HduType::Image);
    assert_eq!((hdus[0].header_start, hdus[0].data_start), (0, 2880));
    assert_eq!((hdus[1].header_start, hdus[1].data_start), (2880, 5760));
    assert!(hdus[1].header.card_by_name("EXTNAME").is_some());
}

#[test]
fn parse_hdus_stops_at_trailing_zeros_and_reports_errors() {
    let mut bytes = Header::empty_primary().unwrap().to_record_bytes();
    bytes.extend(vec![0u8; 2880]);
    assert_eq!(parse_hdus(&bytes).unwrap().len(), 1);
    let e = parse_hdus(&vec![0u8; 2880]).unwrap_err();
    assert_eq!(e.status, FILE_NOT_OPENED);
    assert_eq!(e.messages()[0], "no HDUs found");
    assert_eq!(parse_hdus(&vec![b' '; 2880]).unwrap_err().status, NO_END);
}

#[test]
fn open_bytes_gunzips_and_refuses_empty_images() {
    let bytes = two_hdu_image();
    let gz = gzip::compress(&bytes).unwrap();
    let (img, hdus) = open_bytes(&gz).unwrap();
    assert_eq!(img, bytes);
    assert_eq!(hdus.len(), 2);
    let (img2, _) = open_bytes(&bytes).unwrap();
    assert_eq!(img2, bytes);
    let e = open_bytes(&[]).unwrap_err();
    assert_eq!(e.status, FILE_NOT_OPENED);
    assert_eq!(e.messages()[0], "file is empty");
    assert_eq!(open_bytes(&[0x1f, 0x8b, 1, 2, 3]).unwrap_err().status, READ_ERROR);
}

#[test]
fn movabs_hdu_selects_or_refuses() {
    let hdus = parse_hdus(&two_hdu_image()).unwrap();
    assert_eq!(movabs_hdu(&hdus, 2).unwrap(), (1, HduType::Image));
    assert_eq!(movabs_hdu(&hdus, 3).unwrap_err().status, BAD_HDU_NUM);
    assert_eq!(movabs_hdu(&hdus, 0).unwrap_err().status, BAD_HDU_NUM);
}
