use rfitsio::status::{BAD_TFORM, BAD_TFORM_DTYPE};
use rfitsio::tform::{ascii_column_starts, AsciiKind, AsciiTform};
use rfitsio::types::{TDOUBLE, TLONG, TSHORT, TSTRING};

#[test]
fn parse_standard_tforms() {
    let a = AsciiTform::parse("A15").unwrap();
    assert_eq!(a.kind, AsciiKind::A);
    assert_eq!(a.width, 15);
    assert_eq!(a.datacode, TSTRING);

    let i = AsciiTform::parse("I11").unwrap();
    assert_eq!(i.kind, AsciiKind::I);
    assert_eq!(i.width, 11);
    assert_eq!(i.datacode, TLONG);

    let i4 = AsciiTform::parse("I4").unwrap();
    assert_eq!(i4.datacode, TSHORT);

    let f = AsciiTform::parse("F15.6").unwrap();
    assert_eq!(f.kind, AsciiKind::F);
    assert_eq!(f.width, 15);
    assert_eq!(f.decimals, 6);
    assert_eq!(f.datacode, TDOUBLE);

    let e = AsciiTform::parse("E13.5").unwrap();
    assert_eq!(e.kind, AsciiKind::E);
    assert_eq!(e.width, 13);
    assert_eq!(e.decimals, 5);

    let d = AsciiTform::parse("D22.14").unwrap();
    assert_eq!(d.kind, AsciiKind::D);
    assert_eq!(d.width, 22);
    assert_eq!(d.decimals, 14);
    assert_eq!(d.datacode, TDOUBLE);
}

#[test]
fn ffgabc_spacing() {
    let tforms = ["A15", "I11", "F15.6", "E13.5", "D22.14"];
    let (rowlen, tbcol) = ascii_column_starts(&tforms, 1).unwrap();
    assert_eq!(rowlen, 80);
    assert_eq!(tbcol, vec![1, 17, 29, 45, 59]);
}

#[test]
fn bad_tform_codes() {
    assert_eq!(AsciiTform::parse("X10").unwrap_err().status, BAD_TFORM_DTYPE);
    assert_eq!(AsciiTform::parse("").unwrap_err().status, BAD_TFORM);
    assert_eq!(AsciiTform::parse("I0").unwrap_err().status, BAD_TFORM);
    assert_eq!(AsciiTform::parse("   ").unwrap_err().status, BAD_TFORM);
}
