use hls_m3u8::attribute::parse_attribute_pairs;
use hls_m3u8::SignedDecimalFloatingPoint;

fn pairs(s: &str) -> Vec<(String, String)> {
    parse_attribute_pairs(s).unwrap()
}

#[test]
fn decimal_formats_canonically() {
    for (text, canonical) in [
        ("1.23", "1.23"),
        ("-1.23", "-1.23"),
        ("+1.5", "1.5"),
        ("0012.3400", "12.34"),
        ("-0", "0"),
        ("-0.000", "0"),
        ("3.0", "3"),
        ("98765432109876543210.5", "98765432109876543210.5"),
    ] {
        assert_eq!(SignedDecimalFloatingPoint::parse(text).unwrap().to_string(), canonical);
    }
}

#[test]
fn decimal_equality_is_numeric() {
    let a = SignedDecimalFloatingPoint::parse("1.50").unwrap();
    let b = SignedDecimalFloatingPoint::parse("01.5").unwrap();
    assert_eq!(a, b);
    assert_ne!(a, SignedDecimalFloatingPoint::parse("-1.5").unwrap());
    assert_eq!("7".parse::<SignedDecimalFloatingPoint>().unwrap().to_string(), "7");
}

#[test]
fn decimal_rejects_other_syntax() {
    for text in ["", "-", "+", "1.", ".5", "1e3", "inf", "NaN", " 1", "1 ", "1.2.3", "--1", "1,5"] {
        assert!(SignedDecimalFloatingPoint::parse(text).is_err(), "{}", text);
    }
}

#[test]
fn attribute_pairs_in_order() {
    let ps = pairs("TIME-OFFSET=1.23,PRECISE=YES");
    assert_eq!(
        ps,
        vec![
            ("TIME-OFFSET".to_string(), "1.23".to_string()),
            ("PRECISE".to_string(), "YES".to_string())
        ]
    );
    assert_eq!(pairs(""), vec![]);
    assert_eq!(pairs("A=1,A=2").len(), 2);
}

#[test]
fn attribute_pairs_keep_quoted_commas() {
    let ps = pairs("URI=\"a,b\",X=1");
    assert_eq!(ps.len(), 2);
    assert_eq!(ps[0].1, "\"a,b\"");
    assert_eq!(ps[1].0, "X");
}

#[test]
fn attribute_pairs_reject_malformed() {
    for text in ["A", "=1", "A=", "a=1", "A=1,", ",A=1", "A=1,,B=2", "A B=1"] {
        assert!(parse_attribute_pairs(text).is_err(), "{}", text);
    }
}

#[test]
fn errors_say_what_was_wrong() {
    let e = SignedDecimalFloatingPoint::parse("1e3").unwrap_err();
    assert_eq!(e.kind(), hls_m3u8::ErrorKind::InvalidInput);
    assert!(e.message().contains("point"));
    let e = parse_attribute_pairs("A=1,").unwrap_err();
    assert!(e.message().contains("NAME=VALUE"));
}
