use rfitsio::datetime::format_fits_datetime;

#[test]
fn epoch() {
    assert_eq!(format_fits_datetime(0), "1970-01-01T00:00:00");
}

#[test]
fn known_date() {
    assert_eq!(format_fits_datetime(1_787_616_000), "2026-08-25T00:00:00");
}
