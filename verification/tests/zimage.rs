use rfitsio::compress::zimage::ZImageParams;
use rfitsio::compress::CompressionType;
use rfitsio::header::Header;
use rfitsio::status::{BAD_NAXIS, DATA_DECOMPRESSION_ERR};
use rfitsio::types::{NO_DITHER, SUBTRACTIVE_DITHER_1};

fn rice_header() -> Header {
    let mut h = Header::new();
    h.write_string("ZCMPTYPE", "RICE_1", None).unwrap();
    h.write_long("ZBITPIX", 16, None).unwrap();
    h.write_long("ZNAXIS", 2, None).unwrap();
    h.write_long("ZNAXIS1", 100, None).unwrap();
    h.write_long("ZNAXIS2", 50, None).unwrap();
    h
}

fn params(h: &Header, nrows: i64) -> ZImageParams {
    h.zimage_params(nrows).unwrap()
}

#[test]
fn zimage_params_defaults_for_rice() {
    let h = rice_header();
    let p = params(&h, 50);
    assert_eq!(p.kind, CompressionType::Rice1);
    assert_eq!(p.zbitpix, 16);
    assert_eq!(p.znaxis, vec![100, 50]);
    assert_eq!(p.tilesize, vec![100, 1]);
    assert_eq!((p.rice_blocksize, p.rice_bytepix), (32, 4));
    assert_eq!(p.hcomp_smooth, 0);
    assert_eq!((p.no_quantize, p.quantize_method), (false, NO_DITHER));
    assert_eq!(p.dither_seed, 1);
}

#[test]
fn zimage_params_swaps_rice_values_and_reads_tiles() {
    let mut h = rice_header();
    h.write_long("ZTILE1", 30, None).unwrap();
    h.write_long("ZTILE2", 25, None).unwrap();
    h.write_long("ZVAL1", 2, None).unwrap();
    h.write_long("ZVAL2", 32, None).unwrap();
    h.write_long("ZDITHER0", 7, None).unwrap();
    let p = params(&h, 8);
    assert_eq!(p.tilesize, vec![30, 25]);
    assert_eq!((p.rice_blocksize, p.rice_bytepix), (32, 2));
    assert_eq!(p.dither_seed, 7);
}

#[test]
fn zimage_params_row_count_must_match() {
    let h = rice_header();
    let e = h.zimage_params(49).unwrap_err();
    assert_eq!(e.status, DATA_DECOMPRESSION_ERR);
    assert_eq!(e.messages()[0], "number of table rows != the number of tiles in compressed image");
}

#[test]
fn zimage_params_missing_and_bad_keywords() {
    let mut h = Header::new();
    h.write_long("ZBITPIX", 16, None).unwrap();
    let e = h.zimage_params(1).unwrap_err();
    assert_eq!(e.messages()[0], "required ZCMPTYPE compression keyword not found");

    let mut h = Header::new();
    h.write_string("ZCMPTYPE", "LZW_9", None).unwrap();
    let e = h.zimage_params(1).unwrap_err();
    assert_eq!(e.status, DATA_DECOMPRESSION_ERR);
    assert_eq!(e.messages()[0], "Unknown image compression type: LZW_9");

    let mut h = Header::new();
    h.write_string("ZCMPTYPE", "GZIP_1", None).unwrap();
    h.write_long("ZBITPIX", 8, None).unwrap();
    h.write_long("ZNAXIS", 7, None).unwrap();
    assert_eq!(h.zimage_params(1).unwrap_err().status, BAD_NAXIS);

    let mut h = rice_header();
    h.write_long("ZTILE2", 0, None).unwrap();
    let e = h.zimage_params(1).unwrap_err();
    assert_eq!(e.messages()[0], "invalid ZTILE value = 0 in compressed image");

    let mut h = rice_header();
    h.write_long("ZVAL1", 0, None).unwrap();
    let e = h.zimage_params(50).unwrap_err();
    assert_eq!(e.status, DATA_DECOMPRESSION_ERR);
    assert!(e.messages().is_empty());
}

#[test]
fn zimage_params_quantization_choice() {
    let mut h = Header::new();
    h.write_string("ZCMPTYPE", "HCOMPRESS_1", None).unwrap();
    h.write_long("ZBITPIX", -32, None).unwrap();
    h.write_long("ZNAXIS", 1, None).unwrap();
    h.write_long("ZNAXIS1", 10, None).unwrap();
    h.write_long("ZVAL2", 1, None).unwrap();
    let p = params(&h, 1);
    assert_eq!((p.no_quantize, p.quantize_method), (true, NO_DITHER));
    assert_eq!(p.hcomp_smooth, 1);

    h.write_long("TFIELDS", 2, None).unwrap();
    h.write_string("TTYPE2", "zscale", None).unwrap();
    h.write_string("ZQUANTIZ", "SUBTRACTIVE_DITHER_1", None).unwrap();
    let p = params(&h, 1);
    assert_eq!((p.no_quantize, p.quantize_method), (false, SUBTRACTIVE_DITHER_1));

    let mut h = rice_header();
    h.write_string("ZQUANTIZ", "FANCY", None).unwrap();
    let e = h.zimage_params(50).unwrap_err();
    assert_eq!(e.messages()[0], "Unknown quantization type");
}

use rfitsio::compress::zimage::compressed_image_plan;
use rfitsio::status::{BAD_DATATYPE, DATA_COMPRESSION_ERR};
use rfitsio::types::ImageType;

fn names(h: &Header) -> Vec<String> {
    h.cards().iter().map(|c| c.keyword_name().unwrap().0).collect()
}

#[test]
fn compressed_image_plan_checks_and_layout() {
    let req = [0i64; 6];
    assert_eq!(compressed_image_plan(ImageType::I64, &[10, 10], None, &req, false).unwrap_err().status, BAD_DATATYPE);
    let e = compressed_image_plan(ImageType::F32, &[10, 10], Some(CompressionType::Rice1), &req, true).unwrap_err();
    assert_eq!(e.status, DATA_COMPRESSION_ERR);
    assert_eq!(e.messages()[0], "Lossless compression of floating point images must use GZIP (imcomp_init_table)");
    let p = compressed_image_plan(ImageType::I16, &[100, 50], None, &req, false).unwrap();
    assert_eq!(p.kind, CompressionType::Rice1);
    assert_eq!(p.tiles, vec![100, 1]);
    assert_eq!(p.nrows, 50);
    assert!(!p.quantize_columns && !p.short_descriptors);
    let p = compressed_image_plan(ImageType::F32, &[100, 50], Some(CompressionType::Plio1), &req, false).unwrap();
    assert!(p.quantize_columns && p.short_descriptors);
}

#[test]
fn zimage_keys_in_order_and_read_back() {
    let h = Header::new()
        .with_zimage_keys(ImageType::I16, &[100, 50], CompressionType::Rice1, &[100, 1], false, 0, 1)
        .unwrap();
    assert_eq!(
        names(&h),
        vec!["ZIMAGE", "ZBITPIX", "ZNAXIS", "ZNAXIS1", "ZNAXIS2", "ZTILE1", "ZTILE2", "ZCMPTYPE", "ZNAME1", "ZVAL1", "ZNAME2", "ZVAL2"]
    );
    let p = h.zimage_params(50).unwrap();
    assert_eq!(p.kind, CompressionType::Rice1);
    assert_eq!(p.zbitpix, 16);
    assert_eq!(p.znaxis, vec![100, 50]);
    assert_eq!((p.rice_blocksize, p.rice_bytepix), (32, 2));

    let h = Header::new()
        .with_zimage_keys(ImageType::F32, &[20, 20], CompressionType::Hcompress1, &[20, 16], false, 2, 0)
        .unwrap();
    assert_eq!(
        names(&h),
        vec!["ZIMAGE", "ZBITPIX", "ZNAXIS", "ZNAXIS1", "ZNAXIS2", "ZTILE1", "ZTILE2", "ZQUANTIZ", "ZDITHER0", "ZCMPTYPE"]
    );
    assert_eq!(h.get_i64("ZDITHER0").unwrap(), 1);
    let q = h.card_by_name("ZQUANTIZ").unwrap().parse_value_comment().unwrap().0;
    assert_eq!(q, "'SUBTRACTIVE_DITHER_1'");
}
