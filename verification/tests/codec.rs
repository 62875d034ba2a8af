use entry_codec::{Entry, Error, Timestamp};

fn ts(
    year: u16,
    month: u8,
    day: u8,
    hour: u8,
    minute: u8,
    second: u8,
    nanosecond: u32,
    offset_minutes: i16,
) -> Timestamp {
    Timestamp { year, month, day, hour, minute, second, nanosecond, offset_minutes }
}

#[test]
fn basic_row_decodes() {
    let e = Entry::from_row("2012-01-01T00:00:00+00:00,\"\"\"1\"\"\",\"\"\"hello world\"\"\"")
        .unwrap();
    assert_eq!(*e.datetime(), ts(2012, 1, 1, 0, 0, 0, 0, 0));
    assert_eq!(e.tag(), "1");
    assert_eq!(e.message(), "hello world");
}

#[test]
fn row_with_newline_escape_decodes() {
    let e = Entry::from_row("2012-01-01T00:00:00+00:00,\"\"\"1\"\"\",\"\"\"hello\\nworld\"\"\"")
        .unwrap();
    assert_eq!(e.message(), "hello\nworld");
}

#[test]
fn row_with_non_utc_offset_keeps_offset() {
    let e = Entry::from_row("2012-01-01T01:00:00+01:00,\"\"\"1\"\"\",\"\"\"hello world\"\"\"")
        .unwrap();
    assert_eq!(e.datetime().offset_minutes, 60);
    assert_eq!(e.datetime().hour, 1);
}

#[test]
fn row_with_empty_message_decodes() {
    let e = Entry::from_row("2012-01-01T00:00:00+00:00,\"\"\"1\"\"\",\"\"\"\"\"\"").unwrap();
    assert_eq!(e.tag(), "1");
    assert_eq!(e.message(), "");
}

#[test]
fn row_with_empty_tag_decodes() {
    let e = Entry::from_row("2012-01-01T00:00:00+00:00,\"\"\"\"\"\",\"\"\"\"\"\"").unwrap();
    assert_eq!(e.tag(), "");
    assert_eq!(e.message(), "");
}

#[test]
fn encode_produces_expected_row() {
    let e = Entry::new(
        ts(2012, 1, 1, 0, 0, 0, 0, 0),
        "1".to_string(),
        "hello world".to_string(),
    );
    let row = e.to_csv_row().unwrap();
    assert_eq!(row, "2012-01-01T00:00:00+00:00,\"\"\"1\"\"\",\"\"\"hello world\"\"\"\n");
}

#[test]
fn round_trip_plain() {
    let t = ts(2021, 12, 31, 23, 59, 59, 0, 0);
    let e = Entry::new(t, "work".to_string(), "wrapped the year up".to_string());
    let row = e.to_csv_row().unwrap();
    let back = Entry::from_row(&row).unwrap();
    assert_eq!(*back.datetime(), t);
    assert_eq!(back.tag(), "work");
    assert_eq!(back.message(), "wrapped the year up");
}

#[test]
fn round_trip_awkward_text() {
    let t = ts(1999, 2, 28, 4, 5, 6, 0, -300);
    let tag = "a,b\"c";
    let msg = "line one\nline two, with \"quotes\" and \\backslash\\ and a comma,";
    let e = Entry::new(t, tag.to_string(), msg.to_string());
    let row = e.to_csv_row().unwrap();
    let back = Entry::from_row(&row).unwrap();
    assert_eq!(*back.datetime(), t);
    assert_eq!(back.tag(), tag);
    assert_eq!(back.message(), msg);
}

#[test]
fn round_trip_preserves_positive_offset() {
    let t = ts(2012, 1, 1, 1, 0, 0, 0, 60);
    let e = Entry::new(t, "z".to_string(), "offset stays".to_string());
    let row = e.to_csv_row().unwrap();
    assert!(row.starts_with("2012-01-01T01:00:00+01:00,"));
    let back = Entry::from_row(&row).unwrap();
    assert_eq!(back.datetime().offset_minutes, 60);
}

#[test]
fn round_trip_nanoseconds_and_controls() {
    let t = ts(2020, 2, 29, 12, 30, 45, 123_456_789, 330);
    let msg = "bell \u{1} and tab \t inside";
    let e = Entry::new(t, "".to_string(), msg.to_string());
    let row = e.to_csv_row().unwrap();
    let back = Entry::from_row(&row).unwrap();
    assert_eq!(*back.datetime(), t);
    assert_eq!(back.message(), msg);
}

#[test]
fn round_trip_unicode_text() {
    let t = ts(2015, 7, 4, 9, 0, 0, 0, 0);
    let msg = "emoji \u{1F600} and accents éüñ";
    let e = Entry::new(t, "ünïcode".to_string(), msg.to_string());
    let row = e.to_csv_row().unwrap();
    let back = Entry::from_row(&row).unwrap();
    assert_eq!(back.tag(), "ünïcode");
    assert_eq!(back.message(), msg);
}

#[test]
fn missing_fields_rejected() {
    let r = Entry::from_row("2012-01-01T00:00:00+00:00,\"\"\"1\"\"\"");
    assert!(matches!(r, Err(Error::MalformedRecord(_))));
}

#[test]
fn single_field_rejected() {
    let r = Entry::from_row("2012-01-01T00:00:00+00:00");
    assert!(matches!(r, Err(Error::MalformedRecord(_))));
}

#[test]
fn empty_row_rejected() {
    let r = Entry::from_row("");
    assert!(matches!(r, Err(Error::MalformedRecord(_))));
}

#[test]
fn from_fields_needs_three() {
    let fields = vec!["2012-01-01T00:00:00+00:00".to_string(), "\"1\"".to_string()];
    let r = Entry::from_fields(&fields);
    assert!(matches!(r, Err(Error::MalformedRecord(_))));
}

#[test]
fn from_fields_ignores_extras() {
    let fields = vec![
        "2012-01-01T00:00:00+00:00".to_string(),
        "\"1\"".to_string(),
        "\"x\"".to_string(),
        "ignored".to_string(),
    ];
    let e = Entry::from_fields(&fields).unwrap();
    assert_eq!(e.tag(), "1");
    assert_eq!(e.message(), "x");
}

#[test]
fn malformed_timestamp_rejected() {
    let r = Entry::from_row("not-a-date,\"\"\"1\"\"\",\"\"\"x\"\"\"");
    match r {
        Err(Error::TimestampParse(text)) => assert_eq!(text, "invalid RFC 3339 timestamp"),
        _ => panic!("a bad timestamp must fail as TimestampParse"),
    }
}

#[test]
fn invalid_calendar_date_rejected() {
    let r = Entry::from_row("2011-02-29T00:00:00+00:00,\"\"\"1\"\"\",\"\"\"x\"\"\"");
    assert!(matches!(r, Err(Error::TimestampParse(_))));
}

#[test]
fn timestamp_without_offset_rejected() {
    let r = Entry::from_row("2012-01-01T00:00:00,\"\"\"1\"\"\",\"\"\"x\"\"\"");
    assert!(matches!(r, Err(Error::TimestampParse(_))));
}

#[test]
fn malformed_tag_field_rejected() {
    let r = Entry::from_row("2012-01-01T00:00:00+00:00,notjson,\"\"\"x\"\"\"");
    match r {
        Err(Error::FieldDecode(text)) => assert_eq!(text, "invalid JSON string field"),
        _ => panic!("a bad tag field must fail as FieldDecode"),
    }
}

#[test]
fn unterminated_message_field_rejected() {
    let r = Entry::from_row("2012-01-01T00:00:00+00:00,\"\"\"1\"\"\",\"\"\"x\"");
    assert!(matches!(r, Err(Error::FieldDecode(_))));
}

#[test]
fn lone_surrogate_escape_rejected() {
    let r = Entry::from_row("2012-01-01T00:00:00+00:00,\"\"\"1\"\"\",\"\"\"\\ud834\"\"\"");
    assert!(matches!(r, Err(Error::FieldDecode(_))));
}

#[test]
fn surrogate_pair_escape_decodes() {
    let e = Entry::from_row(
        "2012-01-01T00:00:00+00:00,\"\"\"1\"\"\",\"\"\"\\ud834\\udd1e\"\"\"",
    )
    .unwrap();
    assert_eq!(e.message(), "\u{1D11E}");
}

#[test]
fn unicode_escape_decodes() {
    let e = Entry::from_row("2012-01-01T00:00:00+00:00,\"\"\"1\"\"\",\"\"\"\\u0041\\u0001\"\"\"")
        .unwrap();
    assert_eq!(e.message(), "A\u{1}");
}

#[test]
fn zulu_offset_reads_as_utc() {
    let e = Entry::from_row("2012-01-01T00:00:00Z,\"\"\"1\"\"\",\"\"\"x\"\"\"").unwrap();
    assert_eq!(e.datetime().offset_minutes, 0);
}

#[test]
fn fractional_seconds_decode() {
    let e = Entry::from_row("2012-01-01T00:00:00.5+00:00,\"\"\"1\"\"\",\"\"\"x\"\"\"").unwrap();
    assert_eq!(e.datetime().nanosecond, 500_000_000);
}

#[test]
fn contains_finds_substring() {
    let t = ts(2012, 1, 1, 0, 0, 0, 0, 0);
    let e = Entry::new(t, "tag".to_string(), "hello world".to_string());
    assert!(e.contains("world"));
    assert!(!e.contains("xyz"));
    assert!(e.contains(""));
    assert!(e.contains("hello world"));
    assert!(!e.contains("hello worlds"));
}

#[test]
fn contains_is_case_sensitive() {
    let t = ts(2012, 1, 1, 0, 0, 0, 0, 0);
    let e = Entry::new(t, "".to_string(), "Hello World".to_string());
    assert!(!e.contains("world"));
    assert!(e.contains("World"));
}

#[test]
fn with_message_trims_and_uses_utc() {
    let e = Entry::with_message("  hi there \n");
    assert_eq!(e.message(), "hi there");
    assert_eq!(e.tag(), "");
    assert_eq!(e.datetime().offset_minutes, 0);
    assert!(e.datetime().is_valid());
}

#[test]
fn with_tag_message_trims_both() {
    let e = Entry::with_tag_message(" work ", "\tdid things\t");
    assert_eq!(e.tag(), "work");
    assert_eq!(e.message(), "did things");
}

#[test]
fn new_does_not_trim() {
    let t = ts(2012, 1, 1, 0, 0, 0, 0, 0);
    let e = Entry::new(t, " raw ".to_string(), " kept ".to_string());
    assert_eq!(e.tag(), " raw ");
    assert_eq!(e.message(), " kept ");
}

#[test]
fn from_row_string_matches_from_row() {
    let row = "2012-01-01T00:00:00+00:00,\"\"\"1\"\"\",\"\"\"hello world\"\"\"".to_string();
    let e = Entry::from_row_string(row).unwrap();
    assert_eq!(e.message(), "hello world");
}

#[test]
fn write_sends_encoded_bytes() {
    let t = ts(2012, 1, 1, 0, 0, 0, 0, 0);
    let e = Entry::new(t, "1".to_string(), "hello world".to_string());
    let mut sink: Vec<u8> = Vec::new();
    e.write(&mut sink).unwrap();
    assert_eq!(
        String::from_utf8(sink).unwrap(),
        "2012-01-01T00:00:00+00:00,\"\"\"1\"\"\",\"\"\"hello world\"\"\"\n"
    );
}

#[test]
fn error_describe_returns_diagnostic() {
    let r = Entry::from_row("");
    match r {
        Err(e) => assert_eq!(e.describe(), "malformed CSV"),
        Ok(_) => panic!("empty row must not decode"),
    }
}

#[test]
fn trailing_newline_row_decodes() {
    let e = Entry::from_row("2012-01-01T00:00:00+00:00,\"\"\"1\"\"\",\"\"\"x\"\"\"\n").unwrap();
    assert_eq!(e.message(), "x");
}

#[test]
fn timestamp_validity_check() {
    assert!(ts(2012, 2, 29, 0, 0, 0, 0, 0).is_valid());
    assert!(!ts(2011, 2, 29, 0, 0, 0, 0, 0).is_valid());
    assert!(!ts(2012, 13, 1, 0, 0, 0, 0, 0).is_valid());
    assert!(!ts(2012, 1, 1, 24, 0, 0, 0, 0).is_valid());
    assert!(!ts(2012, 1, 1, 0, 0, 0, 0, 1440).is_valid());
}

#[test]
fn leap_second_decodes() {
    let e = Entry::from_row("2016-12-31T23:59:60+00:00,\"\"\"1\"\"\",\"\"\"x\"\"\"").unwrap();
    assert_eq!(e.datetime().second, 60);
}

#[test]
fn leap_second_round_trips() {
    let t = ts(2016, 12, 31, 23, 59, 60, 0, 0);
    let e = Entry::new(t, "".to_string(), "leap".to_string());
    let row = e.to_csv_row().unwrap();
    assert!(row.starts_with("2016-12-31T23:59:60+00:00,"));
    let back = Entry::from_row(&row).unwrap();
    assert_eq!(*back.datetime(), t);
}

#[test]
fn second_above_sixty_rejected() {
    let r = Entry::from_row("2016-12-31T23:59:61+00:00,\"\"\"1\"\"\",\"\"\"x\"\"\"");
    assert!(matches!(r, Err(Error::TimestampParse(_))));
    assert!(ts(2016, 12, 31, 23, 59, 60, 0, 0).is_valid());
    assert!(!ts(2016, 12, 31, 23, 59, 61, 0, 0).is_valid());
}
