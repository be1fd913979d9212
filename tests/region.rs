use alignoth::{Around, DataFormat, ParseError, Region};

#[test]
fn test_region_deserialization() {
    let region = Region::from_str("X:2000-3000").unwrap();
    let expeceted_region = Region {
        target: "X".to_string(),
        start: 2000,
        end: 3000,
    };
    assert_eq!(region, expeceted_region);
}

#[test]
fn test_region_length() {
    let region = Region::from_str("X:2000-3000").unwrap();
    assert_eq!(region.length(), 1000);
}

#[test]
fn test_around_deserialization() {
    let around = Around::from_str("X:2000").unwrap();
    let expeceted_around = Around {
        target: "X".to_string(),
        position: 2000,
    };
    assert_eq!(around, expeceted_around);
}

#[test]
fn test_region_from_around() {
    let around = Around::from_str("X:2000").unwrap();
    let region = Region::from_around(&around);
    let expeceted_region = Region {
        target: "X".to_string(),
        start: 1500,
        end: 2500,
    };
    assert_eq!(region, expeceted_region);
}

#[test]
fn test_data_format_deserialization() {
    let data_format = DataFormat::from_str("json").unwrap();
    assert_eq!(data_format, DataFormat::Json);
    let tsv_data_format = DataFormat::from_str("tsv").unwrap();
    assert_eq!(tsv_data_format, DataFormat::Tsv);
}

#[test]
fn test_data_format_to_string() {
    let data_format = DataFormat::Json;
    assert_eq!(data_format.to_string(), "json");
    let data_format = DataFormat::Tsv;
    assert_eq!(data_format.to_string(), "tsv");
}

#[test]
fn data_format_default_is_json() {
    assert_eq!(DataFormat::default(), DataFormat::Json);
}

#[test]
fn data_format_unknown_name_is_rejected() {
    assert_eq!(DataFormat::from_str("csv"), Err(ParseError::UnknownFormat));
}

#[test]
fn region_parse_errors() {
    assert_eq!(Region::from_str("X2000-3000"), Err(ParseError::MissingColon));
    assert_eq!(Region::from_str("X:2000"), Err(ParseError::MissingDash));
    assert_eq!(Region::from_str("X:a-3000"), Err(ParseError::InvalidStart));
    assert_eq!(Region::from_str("X:2000-"), Err(ParseError::InvalidEnd));
    assert_eq!(Around::from_str("X"), Err(ParseError::MissingColon));
    assert_eq!(Around::from_str("X:1e3"), Err(ParseError::InvalidPosition));
}

#[test]
fn region_parse_signs_and_limits() {
    let region = Region::from_str("chr1:+5--7").unwrap();
    assert_eq!(region.target, "chr1");
    assert_eq!(region.start, 5);
    assert_eq!(region.end, -7);
    let region = Region::from_str("c:9223372036854775807--9223372036854775808").unwrap();
    assert_eq!(region.start, i64::MAX);
    assert_eq!(region.end, i64::MIN);
    assert_eq!(
        Region::from_str("c:0-9223372036854775808"),
        Err(ParseError::InvalidEnd)
    );
    // the start ends at the first dash after the colon
    assert_eq!(Region::from_str("c:-5-7"), Err(ParseError::InvalidStart));
    let around = Around::from_str("X:-5").unwrap();
    assert_eq!(around.position, -5);
}

#[test]
fn region_contains_overlaps_and_clamp() {
    let region = Region::from_str("1:200-300").unwrap();
    assert!(region.contains(200, "1"));
    assert!(region.contains(300, "1"));
    assert!(!region.contains(301, "1"));
    assert!(!region.contains(250, "2"));
    assert!(region.overlaps(260, 400, "1"));
    assert!(region.overlaps(100, 200, "1"));
    assert!(!region.overlaps(301, 400, "1"));
    assert!(!region.overlaps(260, 280, "X"));
    let clamped = region.clamp(250, 280);
    assert_eq!(clamped.start, 250);
    assert_eq!(clamped.end, 280);
    assert_eq!(clamped.target, "1");
}
