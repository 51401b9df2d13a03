use rfitsio::psrfits::CubeLayout;

#[test]
fn fold_plane_index_nbin_fastest() {
    let lay = CubeLayout::Fold { nbin: 4, nchan: 2, npol: 2 };
    assert_eq!(lay.len(), 16);
    assert_eq!(lay.nplane(), 4);
    assert_eq!(lay.plane_index(0), 0);
    assert_eq!(lay.plane_index(3), 0);
    assert_eq!(lay.plane_index(4), 1);
    assert_eq!(lay.plane_index(8), 2);
    assert_eq!(lay.chan_index(4), 1);
    assert_eq!(lay.chan_index(8), 0);
}

#[test]
fn search_plane_index_nchan_fastest() {
    let lay = CubeLayout::Search { nchan: 4, npol: 2, nsblk: 3 };
    assert_eq!(lay.len(), 24);
    assert_eq!(lay.plane_index(0), 0);
    assert_eq!(lay.plane_index(3), 3);
    assert_eq!(lay.plane_index(4), 4);
    assert_eq!(lay.chan_index(5), 1);
}
