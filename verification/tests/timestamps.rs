//! Tests of the timestamp codec: the accepted notations, normalization to
//! UTC, canonical microsecond output, and rejection of malformed text.

use oci_image_spec::errors::ParseError;
use oci_image_spec::timestamp::Timestamp;

#[test]
fn test_de_iso8601_string() {
    // the offset notation, the zone suffix notation, and a fraction of
    // arbitrary precision all decode
    let from_offset = Timestamp::decode("2023-04-05T06:07:08+00:00").unwrap();
    let from_zulu = Timestamp::decode("2023-04-05T06:07:08Z").unwrap();
    assert_eq!(from_offset, from_zulu);

    let with_millis = Timestamp::decode("2023-04-05T06:07:08.123Z").unwrap();
    assert_eq!(with_millis.micros, 123000);

    let with_two_digits = Timestamp::decode("2023-04-05T06:07:08.12Z").unwrap();
    assert_eq!(with_two_digits.micros, 120000);
}

#[test]
fn test_de_opt_datetime_utc() {
    // a document's optional timestamp field: present, null, and absent
    let with_created = r#"{
  "architecture": "amd64",
  "os": "linux",
  "rootfs": { "type": "layers", "diff_ids": [] },
  "created": "2023-04-05T06:07:08.000001Z"
}"#;
    let doc = oci_image_spec::image_config::parse_image_config(with_created).unwrap();
    let ts = doc.created.unwrap();
    assert_eq!(ts.year, 2023);
    assert_eq!(ts.micros, 1);

    let with_null = r#"{
  "architecture": "amd64",
  "os": "linux",
  "rootfs": { "type": "layers", "diff_ids": [] },
  "created": null
}"#;
    let doc = oci_image_spec::image_config::parse_image_config(with_null).unwrap();
    assert!(doc.created.is_none());

    let absent = r#"{
  "architecture": "amd64",
  "os": "linux",
  "rootfs": { "type": "layers", "diff_ids": [] }
}"#;
    let doc = oci_image_spec::image_config::parse_image_config(absent).unwrap();
    assert!(doc.created.is_none());
}

#[test]
fn timestamp_accepts_three_notations() {
    let plain = Timestamp::decode("2023-01-01T00:00:00Z").unwrap();
    let with_offset = Timestamp::decode("2023-01-01T00:00:00+00:00").unwrap();
    let with_fraction = Timestamp::decode("2023-01-01T00:00:00.123456Z").unwrap();
    // the zero-offset notation names the same instant as the zone suffix
    assert_eq!(plain, with_offset);
    // the fractional notation names the same second, microseconds apart
    assert_eq!(with_fraction.year, plain.year);
    assert_eq!(with_fraction.second, plain.second);
    assert_eq!(with_fraction.micros, 123456);
}

#[test]
fn timestamp_encodes_canonically() {
    let t = Timestamp::decode("2023-04-05T06:07:08Z").unwrap();
    assert_eq!(t.encode(), "2023-04-05T06:07:08.000000Z");
    let u = Timestamp::decode("2023-04-05T06:07:08.123456789Z").unwrap();
    // precision beyond microseconds is truncated
    assert_eq!(u.encode(), "2023-04-05T06:07:08.123456Z");
}

#[test]
fn timestamp_normalizes_offsets_to_utc() {
    let t = Timestamp::decode("2023-01-01T00:30:00+05:45").unwrap();
    assert_eq!(t.encode(), "2022-12-31T18:45:00.000000Z");
    let u = Timestamp::decode("2023-12-31T23:00:00-02:30").unwrap();
    assert_eq!(u.encode(), "2024-01-01T01:30:00.000000Z");
}

#[test]
fn timestamp_round_trips_through_encode() {
    let t = Timestamp { year: 2020, month: 2, day: 29, hour: 23, minute: 59, second: 59, micros: 999999 };
    let back = Timestamp::decode(&t.encode()).unwrap();
    assert_eq!(back, t);
}

#[test]
fn timestamp_rejects_malformed_text() {
    for raw in [
        "2023-13-01T00:00:00Z",
        "2023-02-30T00:00:00Z",
        "2023-01-01 00:00:00Z",
        "2023-01-01T24:00:00Z",
        "2023-01-01T00:00:00",
        "2023-01-01T00:00:00.Z",
        "2023-01-01T00:00:00+0000",
        "not a date",
    ] {
        let err = Timestamp::decode(raw).unwrap_err();
        match err {
            ParseError::CodecError { offending, .. } => assert_eq!(offending, raw),
            other => panic!("expected a codec error, got: {}", other.message()),
        }
    }
}

#[test]
fn timestamp_calendar_edges() {
    // the first and last representable instants
    assert!(Timestamp::decode("0000-01-01T00:00:00Z").is_ok());
    assert!(Timestamp::decode("9999-12-31T23:59:59.999999Z").is_ok());
    // an offset that would step outside the representable years
    assert!(Timestamp::decode("0000-01-01T00:00:00+00:01").is_err());
    assert!(Timestamp::decode("9999-12-31T23:30:00-01:00").is_err());
    // a leap day exists only in a leap year
    assert!(Timestamp::decode("2024-02-29T12:00:00Z").is_ok());
    assert!(Timestamp::decode("2023-02-29T12:00:00Z").is_err());
}
