use rfitsio::status::BAD_TDIM;
use rfitsio::tdim::{decode_tdim, format_tdim, tdim_coords, tdim_elem, tdim_product};

#[test]
fn decode_with_and_without_spaces() {
    assert_eq!(decode_tdim("(10,20)").unwrap(), vec![10, 20]);
    assert_eq!(decode_tdim("(1, 128, 1, 2048)").unwrap(), vec![1, 128, 1, 2048]);
    assert_eq!(decode_tdim("  (4) ").unwrap(), vec![4]);
}

#[test]
fn format_matches_ffptdm() {
    assert_eq!(format_tdim(&[1, 128, 4, 4096]).unwrap(), "(1,128,4,4096)");
}

#[test]
fn fortran_index_roundtrip() {
    let dims = [2i64, 3, 4];
    let n = tdim_product(&dims).unwrap();
    assert_eq!(n, 24);
    for e in 1..=n {
        let c = tdim_coords(&dims, e).unwrap();
        assert_eq!(tdim_elem(&dims, &c).unwrap(), e);
    }
    assert_eq!(tdim_elem(&dims, &[1, 1, 1]).unwrap(), 1);
    assert_eq!(tdim_elem(&dims, &[2, 1, 1]).unwrap(), 2);
    assert_eq!(tdim_elem(&dims, &[1, 2, 1]).unwrap(), 3);
}

#[test]
fn bad_format() {
    assert_eq!(decode_tdim("10,20").unwrap_err().status, BAD_TDIM);
    assert_eq!(decode_tdim("(-1)").unwrap_err().status, BAD_TDIM);
}

#[test]
fn format_then_decode_tdim_gives_dims_back() {
    for dims in [vec![0i64], vec![10, 20], vec![1, 2, 3, 4, 5], vec![9_223_372_036_854_775_807]] {
        let s = rfitsio::tdim::format_tdim(&dims).unwrap();
        assert_eq!(rfitsio::tdim::decode_tdim(&s).unwrap(), dims);
    }
}

#[test]
fn coords_then_elem_and_elem_then_coords() {
    let dims = [3i64, 1, 4, 2];
    for a in 1..=3 {
        for b in 1..=4 {
            for c in 1..=2 {
                let coords = vec![a, 1, b, c];
                let e = rfitsio::tdim::tdim_elem(&dims, &coords).unwrap();
                assert!(1 <= e && e <= 24);
                assert_eq!(rfitsio::tdim::tdim_coords(&dims, e).unwrap(), coords);
            }
        }
    }
}
