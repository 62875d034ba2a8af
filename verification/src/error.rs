use vstd::prelude::*;

verus! {

/// The closed set of failures the codec surfaces. Each variant wraps the
/// diagnostic text of the failure that produced it.
#[derive(Debug)]
pub enum Error {
    /// An output sink rejected a write.
    Io(String),
    /// A candidate record did not provide the three expected fields.
    MalformedRecord(String),
    /// The timestamp field was not a valid RFC 3339 timestamp.
    TimestampParse(String),
    /// A tag or message field was not a valid JSON string literal.
    FieldDecode(String),
    /// The encoder could not produce a row (defensive; never produced here).
    Encoding(String),
}

impl Error {
    /// The diagnostic text carried by an error, whichever variant it is.
    pub open spec fn text(self) -> Seq<char> {
        match self {
            Error::Io(s) => s@,
            Error::MalformedRecord(s) => s@,
            Error::TimestampParse(s) => s@,
            Error::FieldDecode(s) => s@,
            Error::Encoding(s) => s@,
        }
    }

    /// The diagnostic text of this error.
    pub fn describe(&self) -> (r: String)
        ensures
            r@ == self.text(),
    {
        match self {
            Error::Io(s) => s.clone(),
            Error::MalformedRecord(s) => s.clone(),
            Error::TimestampParse(s) => s.clone(),
            Error::FieldDecode(s) => s.clone(),
            Error::Encoding(s) => s.clone(),
        }
    }
}

} // verus!
