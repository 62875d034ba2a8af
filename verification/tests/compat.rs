// The encoded rows must stay interchangeable with what the usual CSV,
// JSON and RFC 3339 libraries produce and accept.

use entry_codec::{Entry, Timestamp};

fn sample() -> Entry {
    let t = Timestamp {
        year: 2012,
        month: 1,
        day: 1,
        hour: 1,
        minute: 2,
        second: 3,
        nanosecond: 0,
        offset_minutes: 60,
    };
    Entry::new(t, "a,b\"c".to_string(), "hello\nworld, \"quoted\"".to_string())
}

#[test]
fn csv_reader_splits_our_row() {
    let row = sample().to_csv_row().unwrap();
    let mut reader = csv::ReaderBuilder::new()
        .has_headers(false)
        .from_reader(row.as_bytes());
    let record = reader.records().next().unwrap().unwrap();
    assert_eq!(record.len(), 3);
    let tag: String = serde_json::from_str(record.get(1).unwrap()).unwrap();
    let msg: String = serde_json::from_str(record.get(2).unwrap()).unwrap();
    assert_eq!(tag, "a,b\"c");
    assert_eq!(msg, "hello\nworld, \"quoted\"");
}

#[test]
fn quick_csv_splits_our_row() {
    let row = sample().to_csv_row().unwrap();
    let parsed = quick_csv::Csv::from_string(&row).next().unwrap().unwrap();
    let mut cols = parsed.columns().unwrap();
    let date = cols.next().unwrap();
    assert_eq!(date, "2012-01-01T01:02:03+01:00");
    let tag: String = serde_json::from_str(cols.next().unwrap()).unwrap();
    assert_eq!(tag, "a,b\"c");
}

#[test]
fn chrono_parses_our_timestamp_field() {
    let row = sample().to_csv_row().unwrap();
    let date_field = row.split(',').next().unwrap();
    let parsed = chrono::DateTime::parse_from_rfc3339(date_field).unwrap();
    assert_eq!(parsed.to_rfc3339(), "2012-01-01T01:02:03+01:00");
}

#[test]
fn our_decoder_reads_a_csv_writer_row() {
    // Assemble a row the way the usual libraries would, then decode it.
    let mut buf: Vec<u8> = Vec::new();
    {
        let mut writer = csv::Writer::from_writer(&mut buf);
        writer
            .write_record(&[
                "2012-01-01T00:00:00+00:00".to_string(),
                serde_json::to_string("tag one").unwrap(),
                serde_json::to_string("a message\nwith lines, commas, \"quotes\"").unwrap(),
            ])
            .unwrap();
    }
    let row = String::from_utf8(buf).unwrap();
    let e = Entry::from_row(&row).unwrap();
    assert_eq!(e.tag(), "tag one");
    assert_eq!(e.message(), "a message\nwith lines, commas, \"quotes\"");
    assert_eq!(e.datetime().year, 2012);
    assert_eq!(e.datetime().offset_minutes, 0);
}

#[test]
fn our_json_field_matches_serde_json() {
    // The encoded tag and message fields are exactly serde_json's string
    // encoding; the CSV layer doubles the quotes around and inside them.
    let text = "controls \u{1}\u{1f} tab\t quote\" backslash\\ high \u{1F600}";
    let t = Timestamp {
        year: 2000,
        month: 6,
        day: 15,
        hour: 12,
        minute: 0,
        second: 0,
        nanosecond: 0,
        offset_minutes: 0,
    };
    let row = Entry::new(t, "".to_string(), text.to_string()).to_csv_row().unwrap();
    let mut reader = csv::ReaderBuilder::new()
        .has_headers(false)
        .from_reader(row.as_bytes());
    let record = reader.records().next().unwrap().unwrap();
    let field = record.get(2).unwrap().to_string();
    assert_eq!(field, serde_json::to_string(text).unwrap());
}

#[test]
fn chrono_rendered_fraction_decodes() {
    // chrono renders sub-second timestamps with its own digit counts; the
    // decoder must accept them.
    let dt = chrono::DateTime::parse_from_rfc3339("2012-01-01T00:00:00.250+00:00").unwrap();
    let mut buf: Vec<u8> = Vec::new();
    {
        let mut writer = csv::Writer::from_writer(&mut buf);
        writer
            .write_record(&[
                dt.to_rfc3339(),
                serde_json::to_string("t").unwrap(),
                serde_json::to_string("m").unwrap(),
            ])
            .unwrap();
    }
    let row = String::from_utf8(buf).unwrap();
    let e = Entry::from_row(&row).unwrap();
    assert_eq!(e.datetime().nanosecond, 250_000_000);
}

#[test]
fn chrono_parses_our_fractional_timestamp() {
    let t = Timestamp {
        year: 2020,
        month: 2,
        day: 29,
        hour: 12,
        minute: 30,
        second: 45,
        nanosecond: 123_456_789,
        offset_minutes: -300,
    };
    let row = Entry::new(t, "".to_string(), "m".to_string()).to_csv_row().unwrap();
    let date_field = row.split(',').next().unwrap();
    let parsed = chrono::DateTime::parse_from_rfc3339(date_field).unwrap();
    assert_eq!(parsed.timestamp_subsec_nanos(), 123_456_789);
    assert_eq!(parsed.offset().local_minus_utc(), -300 * 60);
}
