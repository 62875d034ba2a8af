use crate::chars::{chars_of, string_of, trim_chars, trimmed};
use crate::csv_text::{
    csv_plain, lemma_split_of_record, quote_field, record_chars, split_record, split_record_exec,
    RecordShape,
};
use crate::error::Error;
use crate::json_text::{
    decode_json_string, encode_json_string, json_string_chars, lemma_json_round_trip,
    parse_json_string,
};
use crate::timestamp::{
    days_in_month, lemma_parse_well_formed, lemma_rfc3339_no_specials, lemma_rfc3339_round_trip,
    parse_rfc3339, parse_rfc3339_chars, rfc3339_chars, Timestamp,
};
use chrono::{Datelike, Timelike};
use vstd::prelude::*;
use vstd::string::StringExecFns;

verus! {

/// One journal record: a timestamp with its offset, a short tag and an
/// arbitrary message. Immutable once constructed.
pub struct Entry {
    /// When the entry was made, offset preserved.
    pub datetime: Timestamp,
    /// A short label; may be empty.
    pub tag: String,
    /// Arbitrary text, newlines and quotes included; may be empty.
    pub message: String,
}

// ---------------------------------------------------------------------------
// The row codec, stated once over sequences of characters.
// ---------------------------------------------------------------------------

/// The encoded row for a timestamp, a tag and a message: the RFC 3339
/// timestamp, then each text as a JSON string literal in a quoted CSV
/// field, comma-separated and newline-terminated.
pub open spec fn encode_row_spec(t: Timestamp, tag: Seq<char>, msg: Seq<char>) -> Seq<char> {
    record_chars(rfc3339_chars(t), json_string_chars(tag), json_string_chars(msg))
}

/// What decoding three raw fields yields.
pub enum DecodedRow {
    /// The record was malformed or had fewer than three fields.
    Malformed,
    /// The first field was not a valid RFC 3339 timestamp.
    BadTimestamp,
    /// The second or third field was not a valid JSON string literal.
    BadField,
    /// The decoded timestamp, tag text and message text.
    Value(Timestamp, Seq<char>, Seq<char>),
}

/// Decode three raw fields: the timestamp is parsed first, then the tag,
/// then the message, each failure classified in that order.
pub open spec fn decode_fields_spec(f0: Seq<char>, f1: Seq<char>, f2: Seq<char>) -> DecodedRow {
    match parse_rfc3339(f0) {
        Option::None => DecodedRow::BadTimestamp,
        Option::Some(t) => match parse_json_string(f1) {
            Option::None => DecodedRow::BadField,
            Option::Some(tag) => match parse_json_string(f2) {
                Option::None => DecodedRow::BadField,
                Option::Some(msg) => DecodedRow::Value(t, tag, msg),
            },
        },
    }
}

/// Decode one raw row: split it as a CSV record, then decode the first
/// three fields; any grammar fault or missing field is `Malformed`.
pub open spec fn decode_row_spec(s: Seq<char>) -> DecodedRow {
    match split_record(s) {
        RecordShape::Invalid => DecodedRow::Malformed,
        RecordShape::TooFew => DecodedRow::Malformed,
        RecordShape::Fields(f0, f1, f2) => decode_fields_spec(f0, f1, f2),
    }
}

/// The decode result an entry point must return for a given outcome:
/// each failure maps to its error variant, a value to an equal entry.
pub open spec fn outcome_matches(r: Result<Entry, Error>, o: DecodedRow) -> bool {
    match o {
        DecodedRow::Malformed => r matches Err(e) && e is MalformedRecord && e.text()
            == "malformed CSV"@,
        DecodedRow::BadTimestamp => r matches Err(e) && e is TimestampParse && e.text()
            == "invalid RFC 3339 timestamp"@,
        DecodedRow::BadField => r matches Err(e) && e is FieldDecode && e.text()
            == "invalid JSON string field"@,
        DecodedRow::Value(t, tag, msg) => r matches Ok(en) && en.datetime == t && en.tag@ == tag
            && en.message@ == msg && en.well_formed(),
    }
}

/// `needle` occurs in `hay` as a contiguous run.
pub open spec fn contains_sub(hay: Seq<char>, needle: Seq<char>) -> bool {
    exists|k: int|
        0 <= k <= hay.len() - needle.len() && #[trigger] hay.subrange(k, k + needle.len() as int)
            == needle
}

// ---------------------------------------------------------------------------
// Trusted access to the clock.
// ---------------------------------------------------------------------------

/// The Unix second count of 9999-12-31T23:59:59 UTC, the last instant
/// the timestamp model can hold.
const MAX_UNIX_SECS: u64 = 253_402_300_799;

/// Relies on `std::time::SystemTime::now` and
/// `SystemTime::duration_since`: the time elapsed since the Unix epoch as
/// whole seconds and a sub-second part, or `None` when the system clock
/// stands before the epoch. `Duration::subsec_nanos` is documented to
/// stay below one billion. None of these calls panics.
#[verifier::external_body]
fn unix_now() -> (r: Option<(u64, u32)>)
    ensures
        r matches Some(p) ==> p.1 <= 999_999_999,
{
    match std::time::SystemTime::now().duration_since(std::time::UNIX_EPOCH) {
        Ok(d) => Some((d.as_secs(), d.subsec_nanos())),
        Err(_) => None,
    }
}

/// Relies on chrono's `DateTime::from_timestamp` with the `Datelike` and
/// `Timelike` accessors: the civil UTC date and time of a Unix second
/// count. For counts between the epoch and the last second of year 9999
/// it is `Some`, with a four-digit year, a month 1 through 12, a day
/// valid for that month, hour below 24, minute and second below 60.
#[verifier::external_body]
fn civil_utc_of_unix(secs: i64) -> (c: (u16, u8, u8, u8, u8, u8))
    requires
        0 <= secs <= MAX_UNIX_SECS,
    ensures
        c.0 <= 9999,
        1 <= c.1 <= 12,
        1 <= c.2 <= days_in_month(c.0 as int, c.1 as int),
        c.3 <= 23,
        c.4 <= 59,
        c.5 <= 59,
{
    let dt = chrono::DateTime::from_timestamp(secs, 0).expect("second count in range");
    (
        dt.year() as u16,
        dt.month() as u8,
        dt.day() as u8,
        dt.hour() as u8,
        dt.minute() as u8,
        dt.second() as u8,
    )
}

/// The current time in UTC. A clock before the epoch reads as the epoch;
/// one past year 9999 reads as the last representable second.
fn now_utc() -> (t: Timestamp)
    ensures
        t.well_formed(),
        t.offset_minutes == 0,
{
    let (secs, nanos) = match unix_now() {
        Option::Some(p) => p,
        Option::None => (0u64, 0u32),
    };
    let clamped: u64 = if secs > MAX_UNIX_SECS {
        MAX_UNIX_SECS
    } else {
        secs
    };
    let c = civil_utc_of_unix(clamped as i64);
    Timestamp {
        year: c.0,
        month: c.1,
        day: c.2,
        hour: c.3,
        minute: c.4,
        second: c.5,
        nanosecond: nanos,
        offset_minutes: 0,
    }
}

// ---------------------------------------------------------------------------
// Trusted access to a byte sink.
// ---------------------------------------------------------------------------

/// Relies on `std::io::Write::write_all`: on `Ok` the sink accepted the
/// whole buffer; on `Err` it did not, and the text describes the failure.
#[verifier::external_body]
fn write_all_sink<W: std::io::Write>(w: &mut W, bytes: &[u8]) -> (r: Result<(), String>) {
    match w.write_all(bytes) {
        Ok(()) => Ok(()),
        Err(e) => Err(e.to_string()),
    }
}

impl Entry {
    /// The entry's timestamp is a real calendar date and time.
    pub open spec fn well_formed(self) -> bool {
        self.datetime.well_formed()
    }

    /// Raw constructor: no trimming, no normalization; any tag and
    /// message, empty ones included.
    pub fn new(datetime: Timestamp, tag: String, message: String) -> (e: Entry)
        requires
            datetime.well_formed(),
        ensures
            e.datetime == datetime,
            e.tag@ == tag@,
            e.message@ == message@,
            e.well_formed(),
    {
        Entry { datetime, tag, message }
    }

    /// An entry at the current time in UTC, with an empty tag and the
    /// message trimmed of surrounding whitespace.
    pub fn with_message(message: &str) -> (e: Entry)
        ensures
            e.tag@ == Seq::<char>::empty(),
            e.message@ == trimmed(message@),
            e.datetime.offset_minutes == 0,
            e.well_formed(),
    {
        let m = chars_of(message);
        Entry { datetime: now_utc(), tag: String::new(), message: string_of(&trim_chars(&m)) }
    }

    /// An entry at the current time in UTC, tag and message both trimmed
    /// of surrounding whitespace.
    pub fn with_tag_message(tag: &str, message: &str) -> (e: Entry)
        ensures
            e.tag@ == trimmed(tag@),
            e.message@ == trimmed(message@),
            e.datetime.offset_minutes == 0,
            e.well_formed(),
    {
        let tc = chars_of(tag);
        let mc = chars_of(message);
        Entry {
            datetime: now_utc(),
            tag: string_of(&trim_chars(&tc)),
            message: string_of(&trim_chars(&mc)),
        }
    }

    /// The entry's timestamp.
    pub fn datetime(&self) -> (r: &Timestamp)
        ensures
            *r == self.datetime,
    {
        &self.datetime
    }

    /// The entry's tag.
    pub fn tag(&self) -> (r: &str)
        ensures
            r@ == self.tag@,
    {
        self.tag.as_str()
    }

    /// The entry's message.
    pub fn message(&self) -> (r: &str)
        ensures
            r@ == self.message@,
    {
        self.message.as_str()
    }

    /// Whether the message holds `needle` as a literal, case-sensitive
    /// substring; an empty `needle` is always found.
    pub fn contains(&self, needle: &str) -> (r: bool)
        ensures
            r == contains_sub(self.message@, needle@),
    {
        let hay = chars_of(self.message.as_str());
        let pat = chars_of(needle);
        contains_chars(&hay, &pat)
    }

    /// Encode this entry as one CSV row, newline-terminated. The verified
    /// encoder cannot fail; the `Result` stands for the fallible encoding
    /// interface.
    pub fn to_csv_row(&self) -> (r: Result<String, Error>)
        requires
            self.well_formed(),
        ensures
            r matches Ok(row) && row@ == encode_row_spec(self.datetime, self.tag@, self.message@),
    {
        let mut row = self.datetime.to_chars();
        let tc = chars_of(self.tag.as_str());
        let mc = chars_of(self.message.as_str());
        let mut qtag = quote_field(&encode_json_string(&tc));
        let mut qmsg = quote_field(&encode_json_string(&mc));
        row.push(',');
        row.append(&mut qtag);
        row.push(',');
        row.append(&mut qmsg);
        row.push('\n');
        proof {
            assert(row@ =~= encode_row_spec(self.datetime, self.tag@, self.message@));
        }
        Ok(string_of(&row))
    }

    /// Write the encoded row's bytes to a sink; a sink failure surfaces
    /// as `Io` with the sink's diagnostic.
    pub fn write<W: std::io::Write>(&self, w: &mut W) -> (r: Result<(), Error>)
        requires
            self.well_formed(),
        ensures
            r matches Err(e) ==> e is Io,
    {
        let row = match self.to_csv_row() {
            Result::Ok(row) => row,
            Result::Err(e) => {
                return Err(e);
            },
        };
        match write_all_sink(w, row.as_str().as_bytes()) {
            Result::Ok(()) => Ok(()),
            Result::Err(text) => Err(Error::Io(text)),
        }
    }

    /// Decode an entry from an already-split field sequence: fields 0, 1
    /// and 2 in order, any extra fields ignored; fewer than three fields
    /// is a malformed record.
    pub fn from_fields(fields: &Vec<String>) -> (r: Result<Entry, Error>)
        ensures
            fields@.len() < 3 ==> (r matches Err(e) && e is MalformedRecord && e.text()
                == "malformed CSV"@),
            fields@.len() >= 3 ==> outcome_matches(
                r,
                decode_fields_spec(fields@[0]@, fields@[1]@, fields@[2]@),
            ),
    {
        if fields.len() < 3 {
            return Err(Error::MalformedRecord(String::from_str("malformed CSV")));
        }
        let f0 = chars_of(fields[0].as_str());
        let f1 = chars_of(fields[1].as_str());
        let f2 = chars_of(fields[2].as_str());
        Entry::decode_fields(&f0, &f1, &f2)
    }

    /// Decode an entry from one raw CSV row.
    pub fn from_row(s: &str) -> (r: Result<Entry, Error>)
        ensures
            outcome_matches(r, decode_row_spec(s@)),
    {
        let c = chars_of(s);
        match split_record_exec(&c) {
            Option::Some((f0, f1, f2)) => Entry::decode_fields(&f0, &f1, &f2),
            Option::None => Err(Error::MalformedRecord(String::from_str("malformed CSV"))),
        }
    }

    /// Decode an entry from an owned raw CSV row.
    pub fn from_row_string(s: String) -> (r: Result<Entry, Error>)
        ensures
            outcome_matches(r, decode_row_spec(s@)),
    {
        Entry::from_row(s.as_str())
    }

    /// Decode three extracted fields in order: timestamp, tag, message.
    fn decode_fields(f0: &Vec<char>, f1: &Vec<char>, f2: &Vec<char>) -> (r: Result<Entry, Error>)
        ensures
            outcome_matches(r, decode_fields_spec(f0@, f1@, f2@)),
    {
        let t = match parse_rfc3339_chars(f0) {
            Option::Some(t) => t,
            Option::None => {
                return Err(
                    Error::TimestampParse(String::from_str("invalid RFC 3339 timestamp")),
                );
            },
        };
        proof {
            lemma_parse_well_formed(f0@);
        }
        let tag = match decode_json_string(f1) {
            Option::Some(v) => v,
            Option::None => {
                return Err(Error::FieldDecode(String::from_str("invalid JSON string field")));
            },
        };
        let msg = match decode_json_string(f2) {
            Option::Some(v) => v,
            Option::None => {
                return Err(Error::FieldDecode(String::from_str("invalid JSON string field")));
            },
        };
        Ok(Entry { datetime: t, tag: string_of(&tag), message: string_of(&msg) })
    }
}

/// Whether `pat` occurs in `hay` starting at `k`.
fn matches_at(hay: &Vec<char>, pat: &Vec<char>, k: usize) -> (r: bool)
    requires
        k + pat@.len() <= hay@.len(),
    ensures
        r == (hay@.subrange(k as int, k + pat@.len() as int) == pat@),
{
    let n = hay.len();
    let m = pat.len();
    let mut q: usize = 0;
    while q < m
        invariant
            q <= m,
            m == pat@.len(),
            n == hay@.len(),
            k + m <= n,
            forall|x: int| 0 <= x < q ==> hay@[k + x] == #[trigger] pat@[x],
        decreases m - q,
    {
        if hay[k + q] != pat[q] {
            proof {
                assert(hay@.subrange(k as int, k + pat@.len() as int)[q as int] != pat@[q as int]);
            }
            return false;
        }
        q = q + 1;
    }
    proof {
        assert(hay@.subrange(k as int, k + pat@.len() as int) =~= pat@);
    }
    true
}

/// Naive substring search over characters.
fn contains_chars(hay: &Vec<char>, pat: &Vec<char>) -> (r: bool)
    ensures
        r == contains_sub(hay@, pat@),
{
    let n = hay.len();
    let m = pat.len();
    if m > n {
        return false;
    }
    let mut k: usize = 0;
    loop
        invariant
            m <= n,
            k <= n - m,
            m == pat@.len(),
            n == hay@.len(),
            forall|x: int|
                0 <= x < k ==> #[trigger] hay@.subrange(x, x + pat@.len() as int) != pat@,
        decreases n - m - k,
    {
        if matches_at(hay, pat, k) {
            return true;
        }
        if k == n - m {
            return false;
        }
        k = k + 1;
    }
}

// ---------------------------------------------------------------------------
// The laws of the codec.
// ---------------------------------------------------------------------------

/// Round trip: for every well-formed timestamp and arbitrary tag and
/// message texts — empty, quotes, newlines, commas included — decoding
/// the encoded row yields exactly the same timestamp, offset included,
/// the same tag and the same message.
pub proof fn lemma_row_round_trip(t: Timestamp, tag: Seq<char>, msg: Seq<char>)
    requires
        t.well_formed(),
    ensures
        decode_row_spec(encode_row_spec(t, tag, msg)) == DecodedRow::Value(t, tag, msg),
{
    lemma_rfc3339_no_specials(t);
    assert(csv_plain(rfc3339_chars(t)));
    lemma_split_of_record(rfc3339_chars(t), json_string_chars(tag), json_string_chars(msg));
    lemma_rfc3339_round_trip(t);
    lemma_json_round_trip(tag);
    lemma_json_round_trip(msg);
}

/// Offset preservation: decoding an encoded row never normalizes the
/// timestamp's offset away; it comes back exactly as it went in.
pub proof fn lemma_offset_preserved(t: Timestamp, tag: Seq<char>, msg: Seq<char>)
    requires
        t.well_formed(),
    ensures
        decode_row_spec(encode_row_spec(t, tag, msg)) matches DecodedRow::Value(t2, _tg, _mg)
            && t2.offset_minutes == t.offset_minutes,
{
    lemma_row_round_trip(t, tag, msg);
}

/// The empty text is a substring of every message.
pub proof fn lemma_contains_empty(hay: Seq<char>)
    ensures
        contains_sub(hay, Seq::<char>::empty()),
{
    let e = Seq::<char>::empty();
    assert(hay.subrange(0, 0 + e.len() as int) =~= e);
}

} // verus!
