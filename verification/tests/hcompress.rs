use rfitsio::compress::hcompress::{compress, compress64, decompress, decompress64};
use rfitsio::status::{DATA_DECOMPRESSION_ERR};

fn roundtrip(nx: i32, ny: i32, orig: &[i32]) -> Vec<i32> {
    let mut a = orig.to_vec();
    let bytes = compress(&mut a, ny, nx, 0).unwrap();
    let n = (nx * ny) as usize;
    let (out, y, x, scale) = decompress(&bytes, n, false).unwrap();
    assert_eq!((y, x, scale), (ny, nx, 0));
    out[..n].to_vec()
}

#[test]
fn hcompress_lossless_roundtrip() {
    let nx = 8i32;
    let ny = 8i32;
    let orig: Vec<i32> = (0..64).map(|i| (i % 17) - 4).collect();
    let mut a = orig.clone();
    let bytes = compress(&mut a, ny, nx, 0).unwrap();
    let (out, _, _, _) = decompress(&bytes, 64, false).unwrap();
    assert_eq!(&out[..64], orig.as_slice());
}

#[test]
fn hcompress_odd_sizes_roundtrip() {
    for &(nx, ny) in &[(5, 7), (7, 5), (1, 9), (9, 1), (3, 3), (2, 2), (1, 2), (13, 6)] {
        let n = (nx * ny) as usize;
        let orig: Vec<i32> = (0..n as i32).map(|i| (i * 37 % 101) - 50).collect();
        assert_eq!(roundtrip(nx, ny, &orig), orig, "{}x{}", nx, ny);
    }
}

#[test]
fn hcompress_single_pixel_roundtrip() {
    assert_eq!(roundtrip(1, 1, &[1234]), vec![1234]);
}

#[test]
fn hcompress_constant_and_wide_values() {
    let flat = vec![7i32; 36];
    assert_eq!(roundtrip(6, 6, &flat), flat);
    let wide: Vec<i32> = (0..48).map(|i| if i % 2 == 0 { 30000 - i * 1000 } else { -32768 + i * 7 }).collect();
    assert_eq!(roundtrip(6, 8, &wide), wide);
}

#[test]
fn hcompress_header_layout() {
    let mut a: Vec<i32> = (0..16).collect();
    let bytes = compress(&mut a, 4, 4, 0).unwrap();
    assert_eq!(&bytes[..2], &[0xDD, 0x99]);
    assert_eq!(&bytes[2..6], &[0, 0, 0, 4]);
    assert_eq!(&bytes[6..10], &[0, 0, 0, 4]);
    assert_eq!(&bytes[10..14], &[0, 0, 0, 0]);
    // block sums 10, 18, 42, 50 rounded up to 12, 20, 44, 52; their sum
    // halved is the overall sum
    assert_eq!(&bytes[14..22], &[0, 0, 0, 0, 0, 0, 0, 64]);
}

#[test]
fn hcompress_scaled_is_close() {
    let orig: Vec<i32> = (0..64).map(|i| i * 10).collect();
    let mut a = orig.clone();
    let bytes = compress(&mut a, 8, 8, 4).unwrap();
    let (out, _, _, scale) = decompress(&bytes, 64, false).unwrap();
    assert_eq!(scale, 4);
    for k in 0..64 {
        assert!((out[k] - orig[k]).abs() <= 16, "pixel {}: {} vs {}", k, out[k], orig[k]);
    }
}

#[test]
fn hcompress_bad_magic() {
    let e = decompress(&[0xDD, 0x98, 0, 0], 4, false).unwrap_err();
    assert_eq!(e.status, DATA_DECOMPRESSION_ERR);
    assert_eq!(e.messages, vec!["bad file format".to_string()]);
}

#[test]
fn hcompress_truncated_stream() {
    let mut a: Vec<i32> = (0..64).map(|i| i * 3 - 50).collect();
    let bytes = compress(&mut a, 8, 8, 0).unwrap();
    let e = decompress(&bytes[..bytes.len() / 2], 64, false).unwrap_err();
    assert_eq!(e.status, DATA_DECOMPRESSION_ERR);
    let e = decompress(&bytes[..10], 64, false).unwrap_err();
    assert_eq!(e.status, DATA_DECOMPRESSION_ERR);
    assert!(e.messages.is_empty());
}

#[test]
fn hcompress_buffer_too_small() {
    let mut a: Vec<i32> = (0..64).collect();
    let bytes = compress(&mut a, 8, 8, 0).unwrap();
    let e = decompress(&bytes, 63, false).unwrap_err();
    assert_eq!(e.status, DATA_DECOMPRESSION_ERR);
}

#[test]
fn hcompress_bad_plane_code() {
    let mut a: Vec<i32> = (0..64).collect();
    let mut bytes = compress(&mut a, 8, 8, 0).unwrap();
    // first nybble of the quadtrees must be 0 or 15
    bytes[25] = 0x30 | (bytes[25] & 0x0f);
    let e = decompress(&bytes, 64, false).unwrap_err();
    assert_eq!(e.messages, vec!["qtree_decode: bad format code".to_string()]);
}

#[test]
fn hcompress64_roundtrip_32bit_values() {
    let orig: Vec<i32> = (0..60)
        .map(|i: i32| if i % 3 == 0 { i32::MAX - i * 1000 } else if i % 3 == 1 { i32::MIN + i * 77 } else { i - 30 })
        .collect();
    let mut a: Vec<i64> = orig.iter().map(|&v| v as i64).collect();
    let bytes = compress64(&mut a, 10, 6, 0).unwrap();
    let (out, ny, nx, scale) = decompress64(&bytes, 60, false).unwrap();
    assert_eq!((ny, nx, scale), (10, 6, 0));
    assert_eq!(out, orig);
}

#[test]
fn hcompress64_reads_32bit_stream_layout() {
    let mut a: Vec<i64> = (0..16).collect();
    let bytes = compress64(&mut a, 4, 4, 0).unwrap();
    assert_eq!(&bytes[..2], &[0xDD, 0x99]);
    assert_eq!(&bytes[14..22], &[0, 0, 0, 0, 0, 0, 0, 64]);
    // a shorter buffer than the tile is refused
    let e = decompress64(&bytes, 15, false).unwrap_err();
    assert_eq!(e.status, DATA_DECOMPRESSION_ERR);
    // the same stream read by both decoders gives the same pixels
    let (wide, _, _, _) = decompress64(&bytes, 16, false).unwrap();
    let (narrow, _, _, _) = decompress(&bytes, 16, false).unwrap();
    assert_eq!(wide, narrow);
}
