use rfitsio::card::{key_class_code, make_card_string, parse_value_comment, Card};
use rfitsio::types::{TYP_COMM_KEY, TYP_CONT_KEY, TYP_STRUC_KEY, TYP_USER_KEY};

#[test]
fn normal_integer_card_right_justified() {
    let s = make_card_string("BITPIX", "16", Some("number of bits per data pixel")).unwrap();
    assert!(s.starts_with("BITPIX  ="));
    assert!(s.contains("16"));
    assert!(s.contains("/ number of bits per data pixel"));
    assert!(s.len() <= 80);
    assert_eq!(&s.as_bytes()[28..30], b"16");
}

#[test]
fn quoted_string_left_aligned() {
    let s = make_card_string("OBJECT", "'NGC3372'", Some("target")).unwrap();
    assert!(s.starts_with("OBJECT  = 'NGC3372'"));
    assert!(s.contains("/ target"));
}

#[test]
fn hierarch_implicit() {
    let s = make_card_string("ESO DET DIT", "5.0", Some("sec")).unwrap();
    assert!(s.starts_with("HIERARCH ESO DET DIT"));
    assert!(s.contains("5.0"));
}

#[test]
fn keyclass_structure() {
    assert_eq!(key_class_code(b"SIMPLE  =                    T"), TYP_STRUC_KEY);
    assert_eq!(key_class_code(b"NAXIS1  =                  100"), TYP_STRUC_KEY);
    assert_eq!(key_class_code(b"EXPTIME =                  1.0"), TYP_USER_KEY);
    assert_eq!(key_class_code(b"CONTINUE  'abc'"), TYP_CONT_KEY);
    assert_eq!(key_class_code(b"HISTORY processed"), TYP_COMM_KEY);
}

#[test]
fn parse_simple_int() {
    let card = "BITPIX  =                   16 / number of bits per data pixel";
    let (v, c) = parse_value_comment(card).unwrap();
    assert_eq!(v, "16");
    assert_eq!(c, "number of bits per data pixel");
}

#[test]
fn made_card_reads_back_value_and_comment() {
    let card = Card::make("NAXIS", "3", Some("number of axes")).unwrap();
    let (v, c) = card.parse_value_comment().unwrap();
    assert_eq!(v, "3");
    assert_eq!(c, "number of axes");
    // a long value ends past column 30; the comment is cut at column 77
    let long = "1234567890123456789012345";
    let card = Card::make("EXPTIME", long, Some(&"x".repeat(60))).unwrap();
    let (v, c) = card.parse_value_comment().unwrap();
    assert_eq!(v, long);
    assert_eq!(c, "x".repeat(77 - 35));
    // without a comment nothing is read after the value
    let card = Card::make("SIMPLE", "T", None).unwrap();
    let (v, c) = card.parse_value_comment().unwrap();
    assert_eq!((v.as_str(), c.as_str()), ("T", ""));
}

#[test]
fn made_card_text_parses_back_to_value_and_comment() {
    let s = make_card_string("EXPTIME", "1500", Some("exposure time in seconds")).unwrap();
    let (v, c) = rfitsio::card::fits_parse_value(&s).unwrap();
    assert_eq!(v, "1500");
    assert_eq!(c, "exposure time in seconds");
    let s = make_card_string("N", "12345678901234567890", Some("a comment of forty-seven characters exactly....")).unwrap();
    let (v, c) = rfitsio::card::fits_parse_value(&s).unwrap();
    assert_eq!(v, "12345678901234567890");
    assert_eq!(c, "a comment of forty-seven characters exactly....");
}
