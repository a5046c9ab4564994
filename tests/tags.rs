use hls_m3u8::tags::parse_yes_or_no;
use hls_m3u8::{
    ErrorKind, ExtXIndependentSegments, ExtXStart, ProtocolVersion, SignedDecimalFloatingPoint,
};

fn decimal(s: &str) -> SignedDecimalFloatingPoint {
    SignedDecimalFloatingPoint::parse(s).unwrap()
}

#[test]
fn ext_x_independent_segments() {
    let tag = ExtXIndependentSegments;
    let text = "#EXT-X-INDEPENDENT-SEGMENTS";
    assert_eq!(text.parse().ok(), Some(tag));
    assert_eq!(tag.to_string(), text);
    assert_eq!(tag.requires_version(), ProtocolVersion::V1);
}

#[test]
fn ext_x_start() {
    let tag = ExtXStart::new(decimal("-1.23"));
    let text = "#EXT-X-START:TIME-OFFSET=-1.23";
    assert_eq!(text.parse().ok(), Some(tag.clone()));
    assert_eq!(tag.to_string(), text);
    assert_eq!(tag.requires_version(), ProtocolVersion::V1);

    let tag = ExtXStart::with_precise(decimal("1.23"), true);
    let text = "#EXT-X-START:TIME-OFFSET=1.23,PRECISE=YES";
    assert_eq!(text.parse().ok(), Some(tag.clone()));
    assert_eq!(tag.to_string(), text);
    assert_eq!(tag.requires_version(), ProtocolVersion::V1);
}

#[test]
fn canonical_start_lines_format_back_unchanged() {
    for text in [
        "#EXT-X-START:TIME-OFFSET=0",
        "#EXT-X-START:TIME-OFFSET=-0.5",
        "#EXT-X-START:TIME-OFFSET=12.25,PRECISE=YES",
    ] {
        let tag = ExtXStart::parse(text).unwrap();
        assert_eq!(tag.to_string(), text);
    }
}

#[test]
fn non_canonical_start_line_formats_canonically() {
    let tag = ExtXStart::parse("#EXT-X-START:PRECISE=NO,TIME-OFFSET=+007.500").unwrap();
    assert_eq!(tag.to_string(), "#EXT-X-START:TIME-OFFSET=7.5");
    assert_eq!(ExtXStart::parse(&tag.to_string()).unwrap(), tag);
}

#[test]
fn start_values_parse_back_from_their_lines() {
    for (offset, precise) in [("0", false), ("-3.75", true), ("100", true), ("0.001", false)] {
        let tag = ExtXStart::with_precise(decimal(offset), precise);
        assert_eq!(ExtXStart::parse(&tag.to_string()).unwrap(), tag);
    }
}

#[test]
fn independent_segments_format_then_parse() {
    let tag = ExtXIndependentSegments;
    assert_eq!(ExtXIndependentSegments::parse(&tag.to_string()).unwrap(), tag);
}

#[test]
fn every_tag_requires_version_one() {
    assert_eq!(ExtXIndependentSegments.requires_version(), ProtocolVersion::V1);
    let tag = ExtXStart::with_precise(decimal("-2"), true);
    assert_eq!(tag.requires_version(), ProtocolVersion::V1);
}

#[test]
fn unknown_attributes_are_ignored() {
    let tag = ExtXStart::parse("#EXT-X-START:TIME-OFFSET=0,FOO=BAR,BAZ=QUUX").unwrap();
    assert_eq!(tag, ExtXStart::new(decimal("0")));
    let tag = ExtXStart::parse("#EXT-X-START:TIME-OFFSET=0,UNKNOWN=1").unwrap();
    assert_eq!(tag, ExtXStart::new(decimal("0")));
    assert!(!tag.precise());
    assert_eq!(tag.time_offset(), decimal("0"));
}

#[test]
fn attributes_in_any_order() {
    let tag = ExtXStart::parse("#EXT-X-START:PRECISE=YES,TIME-OFFSET=1.23").unwrap();
    assert_eq!(tag, ExtXStart::with_precise(decimal("1.23"), true));
}

#[test]
fn missing_time_offset_fails() {
    let e = ExtXStart::parse("#EXT-X-START:PRECISE=YES").unwrap_err();
    assert_eq!(e.kind(), ErrorKind::InvalidInput);
    let e = ExtXStart::parse("#EXT-X-START:PRECISE=NO").unwrap_err();
    assert_eq!(e.kind(), ErrorKind::InvalidInput);
}

#[test]
fn malformed_time_offset_fails() {
    assert!(ExtXStart::parse("#EXT-X-START:TIME-OFFSET=abc").is_err());
    assert!(ExtXStart::parse("#EXT-X-START:TIME-OFFSET=1e3").is_err());
    assert!(ExtXStart::parse("#EXT-X-START:TIME-OFFSET=").is_err());
}

#[test]
fn yes_no_is_case_sensitive() {
    assert!(ExtXStart::parse("#EXT-X-START:TIME-OFFSET=1,PRECISE=yes").is_err());
    let tag = ExtXStart::parse("#EXT-X-START:TIME-OFFSET=1,PRECISE=NO").unwrap();
    assert!(!tag.precise());
    assert!(ExtXStart::parse("#EXT-X-START:TIME-OFFSET=1.5,PRECISE=MAYBE").is_err());
}

#[test]
fn independent_segments_prefix_is_strict() {
    assert!(ExtXIndependentSegments::parse("#EXT-X-INDEPENDENT-SEGMENTS:").is_err());
    let e = ExtXIndependentSegments::parse("#EXT-X-INDEPENDENT-SEGMENTS ").unwrap_err();
    assert_eq!(e.kind(), ErrorKind::InvalidInput);
}

#[test]
fn start_scenarios() {
    let tag = ExtXStart::parse("#EXT-X-START:TIME-OFFSET=-1.23").unwrap();
    assert_eq!(tag.time_offset(), decimal("-1.23"));
    assert!(!tag.precise());
    assert_eq!(tag.to_string(), "#EXT-X-START:TIME-OFFSET=-1.23");
    let tag = ExtXStart::parse("#EXT-X-START:TIME-OFFSET=1.23,PRECISE=YES").unwrap();
    assert_eq!(tag.time_offset(), decimal("1.23"));
    assert!(tag.precise());
    assert_eq!(tag.to_string(), "#EXT-X-START:TIME-OFFSET=1.23,PRECISE=YES");
}

#[test]
fn start_prefix_is_required() {
    assert!(ExtXStart::parse("#EXT-X-STAR:TIME-OFFSET=1").is_err());
    assert!(ExtXStart::parse("TIME-OFFSET=1").is_err());
    assert!(ExtXStart::parse("").is_err());
}

#[test]
fn last_time_offset_wins() {
    let tag = ExtXStart::parse("#EXT-X-START:TIME-OFFSET=1,TIME-OFFSET=2").unwrap();
    assert_eq!(tag.time_offset(), decimal("2"));
}

#[test]
fn yes_or_no_values() {
    assert_eq!(parse_yes_or_no("YES").unwrap(), true);
    assert_eq!(parse_yes_or_no("NO").unwrap(), false);
    assert!(parse_yes_or_no("No").is_err());
    assert!(parse_yes_or_no("").is_err());
}
