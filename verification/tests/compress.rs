use rfitsio::compress::gzip_tile::{
    compress_tile, decompress_tile, gunzip_bytes, gzip_bytes, shuffle, unshuffle,
};
use rfitsio::compress::plio;
use rfitsio::compress::rice;
use rfitsio::compress::rice::{nonzero_count, DEFAULT_BLOCKSIZE};
use rfitsio::compress::layout::{be_i16_words, be_i32_from_bytes, ints_to_be, stored_to_ints};
use rfitsio::compress::{tile_count, zbitpix_bytes, zimage_npix, CompressionType};
use rfitsio::status::{DATA_COMPRESSION_ERR, DATA_DECOMPRESSION_ERR};

fn rice_roundtrip(data: &[i32], bytepix: i32) {
    let c = rice::compress(data, bytepix, DEFAULT_BLOCKSIZE).unwrap();
    let out = rice::decompress(&c, data.len(), bytepix, DEFAULT_BLOCKSIZE).unwrap();
    assert_eq!(out, data, "rice roundtrip failed bytepix={bytepix}");
}

#[test]
fn shuffle_roundtrip() {
    let mut b: Vec<u8> = (0u8..16).collect();
    let orig = b.clone();
    shuffle(&mut b, 2);
    assert_ne!(b, orig);
    unshuffle(&mut b, 2);
    assert_eq!(b, orig);
    let mut b4 = orig.clone();
    shuffle(&mut b4, 4);
    unshuffle(&mut b4, 4);
    assert_eq!(b4, orig);
}

#[test]
fn shuffle_groups_byte_planes() {
    let mut b: Vec<u8> = vec![1, 2, 3, 4, 5, 6];
    shuffle(&mut b, 2);
    assert_eq!(b, vec![1, 3, 5, 2, 4, 6]);
    unshuffle(&mut b, 2);
    assert_eq!(b, vec![1, 2, 3, 4, 5, 6]);
}

#[test]
fn gzip_roundtrip() {
    let src: Vec<u8> = (0..64).map(|i| (i * 3) as u8).collect();
    let c = gzip_bytes(&src).unwrap();
    let out = gunzip_bytes(&c).unwrap();
    assert_eq!(out, src);
}

#[test]
fn gzip_output_differs_from_input() {
    let src: Vec<u8> = vec![0u8; 100];
    let c = gzip_bytes(&src).unwrap();
    assert_ne!(c, src);
    assert_eq!(&c[0..2], &[0x1f, 0x8b]);
}

#[test]
fn gunzip_rejects_garbage() {
    let e = gunzip_bytes(&[1, 2, 3, 4]).unwrap_err();
    assert_eq!(e.status, DATA_DECOMPRESSION_ERR);
}

#[test]
fn gzip_tile_roundtrip_shuffled() {
    let px: Vec<u8> = (0..40).map(|i| (i * 7 % 256) as u8).collect();
    let c = compress_tile(&px, 4, true).unwrap();
    let out = decompress_tile(&c, 10, 4, true).unwrap();
    assert_eq!(out, px);
    let c2 = compress_tile(&px, 2, false).unwrap();
    let out2 = decompress_tile(&c2, 20, 2, false).unwrap();
    assert_eq!(out2, px);
}

#[test]
fn plio_roundtrip_ramp() {
    let data: Vec<i32> = (0..64).map(|i| i + 1).collect();
    let words = plio::compress(&data).unwrap();
    let out = plio::decompress(&words, data.len()).unwrap();
    assert_eq!(out, data);
}

#[test]
fn plio_roundtrip_runs() {
    let mut data = vec![0i32; 40];
    for i in 10..20 {
        data[i] = 7;
    }
    for i in 25..30 {
        data[i] = 12;
    }
    let words = plio::compress(&data).unwrap();
    let out = plio::decompress(&words, data.len()).unwrap();
    assert_eq!(out, data);
}

#[test]
fn plio_rejects_negative() {
    assert!(plio::compress(&[-1, 0, 1]).is_err());
}

#[test]
fn plio_range_error_status_and_message() {
    let e = plio::compress(&[0, 16_777_216]).unwrap_err();
    assert_eq!(e.status, DATA_COMPRESSION_ERR);
    assert_eq!(e.messages(), &["data out of range for PLIO compression (0 - 2**24)".to_string()]);
}

#[test]
fn plio_decompress_empty_words_gives_zeros() {
    let out = plio::decompress(&[], 5).unwrap();
    assert_eq!(out, vec![0; 5]);
}

#[test]
fn rice_constant_and_ramp() {
    rice_roundtrip(&[7i32; 64], 4);
    rice_roundtrip(&(0..128).collect::<Vec<_>>(), 4);
    rice_roundtrip(&(0..64).map(|i| i - 20).collect::<Vec<_>>(), 2);
    rice_roundtrip(&(0..32).map(|i| i % 17).collect::<Vec<_>>(), 1);
}

#[test]
fn rice_high_entropy() {
    let data: Vec<i32> = (0..64).map(|i| (i * 7919) % 100_000 - 50_000).collect();
    rice_roundtrip(&data, 4);
}

#[test]
fn nonzero_count_is_byte_bit_width() {
    assert_eq!(nonzero_count(0), 0);
    assert_eq!(nonzero_count(126), 7);
    assert_eq!(nonzero_count(127), 7);
    assert_eq!(nonzero_count(128), 8);
    for i in 1..256u32 {
        assert_eq!(nonzero_count(i as u8), 32 - i.leading_zeros() as i32);
    }
}

#[test]
fn rice_row_wrap_jumps_u16() {
    for nx in [32usize, 64, 128, 256] {
        for ny in [1usize, 4, 16, 64] {
            let data: Vec<i32> = (0..ny)
                .flat_map(|y| (0..nx).map(move |x| 93 + ((x * 17 + y * 31) % 4003) as i32))
                .collect();
            rice_roundtrip(&data, 2);
        }
    }
    let mut jumps = vec![100i32; 256];
    jumps[31] = 4000;
    jumps[32] = 93;
    jumps[63] = 4095;
    jumps[64] = 100;
    rice_roundtrip(&jumps, 2);
}

#[test]
fn rice_constant_block_is_first_pixel_and_zero_codes() {
    // First pixel 7 in 32 bits, then one block of zero differences: split code 0 in 5 bits.
    let c = rice::compress(&[7, 7, 7], 4, 32).unwrap();
    assert_eq!(c, vec![0, 0, 0, 7, 0]);
}

#[test]
fn rice_bytepix_one_stream() {
    // First pixel 5 in 8 bits; diffs 0, 2 (mapped 4): block sum 4 over 2 pixels,
    // split 0, code 1 in 3 bits; then unary of 0 and of 4.
    let c = rice::compress(&[5, 5, 7], 1, 32).unwrap();
    assert_eq!(c[0], 5);
    let out = rice::decompress(&c, 3, 1, 32).unwrap();
    assert_eq!(out, vec![5, 5, 7]);
}

#[test]
fn rice_empty_input() {
    assert_eq!(rice::compress(&[], 4, 32).unwrap(), Vec::<u8>::new());
    assert_eq!(rice::decompress(&[1, 2, 3], 0, 4, 32).unwrap(), Vec::<i32>::new());
}

#[test]
fn rice_bad_bytepix() {
    let e = rice::compress(&[1, 2], 3, 32).unwrap_err();
    assert_eq!(e.status, DATA_COMPRESSION_ERR);
    assert_eq!(e.messages(), &["rcomp: bsize must be 1, 2, or 4 bytes".to_string()]);
    let e2 = rice::decompress(&[0, 0, 0], 2, 3, 32).unwrap_err();
    assert_eq!(e2.status, DATA_COMPRESSION_ERR);
}

#[test]
fn rice_short_stream_errors() {
    let e = rice::decompress(&[0], 4, 2, 32).unwrap_err();
    assert_eq!(e.status, DATA_DECOMPRESSION_ERR);
    assert_eq!(
        e.messages(),
        &["decompression error: input buffer not properly allocated".to_string()]
    );
    // Two bytes of a 16-bit first pixel, then a zero byte stands in for the
    // missing code: one block of copies of the first pixel.
    let out = rice::decompress(&[0x01, 0x02], 3, 2, 32).unwrap();
    assert_eq!(out, vec![0x0102; 3]);
    // The stand-in byte holds two 4-bit codes; a third block has none left.
    let out = rice::decompress(&[0x01, 0x02], 64, 2, 32).unwrap();
    assert_eq!(out, vec![0x0102; 64]);
    let e = rice::decompress(&[0x01, 0x02], 65, 2, 32).unwrap_err();
    assert_eq!(
        e.messages(),
        &["decompression error: hit end of compressed byte stream".to_string()]
    );
}

#[test]
fn rice_truncated_raw_block_is_corrupt() {
    let data: Vec<i32> = (0..64).map(|i| (i * 7919) % 100_000 - 50_000).collect();
    let c = rice::compress(&data, 4, 32).unwrap();
    let e = rice::decompress(&c[..10], data.len(), 4, 32).unwrap_err();
    assert_eq!(e.status, DATA_DECOMPRESSION_ERR);
    assert!(e.messages().is_empty());
}

#[test]
fn rice_narrow_pixels_wrap() {
    let c = rice::compress(&[300, -200, 127], 1, 32).unwrap();
    let out = rice::decompress(&c, 3, 1, 32).unwrap();
    assert_eq!(out, vec![300i32 as i8 as i32, -200i32 as i8 as i32, 127]);
}

#[test]
fn compression_type_codes() {
    for t in [
        CompressionType::NoCompress,
        CompressionType::Rice1,
        CompressionType::Gzip1,
        CompressionType::Gzip2,
        CompressionType::Plio1,
        CompressionType::Hcompress1,
    ] {
        assert_eq!(CompressionType::from_code(t.code()), Some(t));
    }
    assert_eq!(CompressionType::Rice1.zcmptype(), "RICE_1");
    assert_eq!(CompressionType::from_code(12345), None);
}

#[test]
fn zcmptype_names_parse() {
    assert_eq!(CompressionType::from_zcmptype("  RICE_1 ").unwrap(), CompressionType::Rice1);
    assert_eq!(CompressionType::from_zcmptype("RICE_ONE").unwrap(), CompressionType::Rice1);
    assert_eq!(CompressionType::from_zcmptype("GZIP_2").unwrap(), CompressionType::Gzip2);
    assert_eq!(CompressionType::from_zcmptype("NOCOMPRESS").unwrap(), CompressionType::NoCompress);
    let e = CompressionType::from_zcmptype(" BZIP2_1 ").unwrap_err();
    assert_eq!(e.status, DATA_DECOMPRESSION_ERR);
    assert_eq!(e.messages(), &["Unknown image compression type: BZIP2_1".to_string()]);
}

#[test]
fn ints_to_be_widths() {
    assert_eq!(ints_to_be(&[1, -1], 1), vec![1, 0xff]);
    assert_eq!(ints_to_be(&[0x1234, -2], 2), vec![0x12, 0x34, 0xff, 0xfe]);
    assert_eq!(ints_to_be(&[-1], 4), vec![0xff; 4]);
    assert_eq!(ints_to_be(&[-1], 8), vec![0xff; 8]);
    assert_eq!(ints_to_be(&[0x01020304], 3), vec![1, 2, 3, 4]);
}

#[test]
fn stored_bytes_to_ints() {
    assert_eq!(stored_to_ints(&[0xff, 0x01], 8), vec![255, 1]);
    assert_eq!(stored_to_ints(&[0xff, 0xfe, 0x00, 0x10, 0x07], 16), vec![-2, 16]);
    assert_eq!(stored_to_ints(&[0x80, 0, 0, 0], 32), vec![i32::MIN]);
    assert_eq!(be_i16_words(&[0x7f, 0xff, 0x80, 0x00]), vec![32767, -32768]);
    assert_eq!(be_i32_from_bytes(&[0, 0, 1, 0, 9]), vec![256]);
}

#[test]
fn tile_and_pixel_counts() {
    assert_eq!(tile_count(&[100, 50], &[100, 1]), 50);
    assert_eq!(tile_count(&[10, 10], &[3, 4]), 12);
    assert_eq!(tile_count(&[0], &[5]), 1);
    assert_eq!(zimage_npix(&[4, 0, 3]), 12);
    assert_eq!(zimage_npix(&[]), 1);
    assert_eq!(zbitpix_bytes(-32), 4);
    assert_eq!(zbitpix_bytes(16), 2);
    assert_eq!(zbitpix_bytes(7), 1);
}

#[test]
fn plio_reads_back_long_zero_runs_and_lone_pixels() {
    let mut data = vec![0i32; 5000];
    data.push(9);
    data.extend(vec![3i32; 3]);
    data.push(70_000);
    data.extend(vec![0i32; 10]);
    let words = plio::compress(&data).unwrap();
    assert_eq!(plio::decompress(&words, data.len()).unwrap(), data);
}

#[test]
fn plio_lone_pixel_after_4095_zeros_is_not_read_back() {
    let mut data = vec![0i32; 4095];
    data.push(5);
    let words = plio::compress(&data).unwrap();
    assert_ne!(plio::decompress(&words, data.len()).unwrap(), data);
}
