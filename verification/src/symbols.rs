use vstd::prelude::*;
use time::error::ComponentRange;
use time::OffsetDateTime;
use crate::error::Error;
use crate::text::{ascii_lowercase, lowercase, str_equal, to_lowercase};
pub use crate::symbol_map::SymbolMap;
use vstd::utf8::is_ascii_chars;

verus! {

broadcast use vstd::string::group_string_axioms;

/// The data vendors that instruments come from.
#[derive(Debug, Clone, PartialEq, Eq, Structural)]
pub enum Vendors {
    Databento,
    Yfinance,
}

/// The name of a vendor, as it is stored.
pub open spec fn vendor_name(v: Vendors) -> Seq<char> {
    match v {
        Vendors::Databento => "databento"@,
        Vendors::Yfinance => "yfinance"@,
    }
}

/// The vendor whose stored name is `name`, if any.
pub open spec fn vendor_named(name: Seq<char>) -> Option<Vendors> {
    if name == "databento"@ {
        Some(Vendors::Databento)
    } else if name == "yfinance"@ {
        Some(Vendors::Yfinance)
    } else {
        None
    }
}

/// What reading a vendor from the lowercase text `name` gives.
pub open spec fn vendor_result_ok(name: Seq<char>, r: Result<Vendors, Error>) -> bool {
    match vendor_named(name) {
        Some(v) => r == Ok::<Vendors, Error>(v),
        None => r matches Err(Error::CustomError(msg)) && msg@ == "Invalid vendor name."@,
    }
}

impl Vendors {
    /// The vendor whose stored name is `name` (already lowercase), or an error.
    pub fn from_lowercase_name(name: &str) -> (r: Result<Vendors, Error>)
        ensures
            vendor_result_ok(name@, r),
            r matches Ok(v) ==> name@ == vendor_name(v),
            r is Err <==> (name@ != "databento"@ && name@ != "yfinance"@),
    {
        if str_equal(name, "databento") {
            Ok(Vendors::Databento)
        } else if str_equal(name, "yfinance") {
            Ok(Vendors::Yfinance)
        } else {
            Err(Error::CustomError("Invalid vendor name.".to_string()))
        }
    }
}

impl TryFrom<&str> for Vendors {
    type Error = Error;

    /// Reads a vendor from its name, in any case.
    fn try_from(s: &str) -> (r: Result<Vendors, Error>)
        ensures
            vendor_result_ok(lowercase(s@), r),
            is_ascii_chars(s@) ==> vendor_result_ok(ascii_lowercase(s@), r),
            r matches Ok(v) ==> lowercase(s@) == vendor_name(v),
            r is Err <==> (lowercase(s@) != "databento"@ && lowercase(s@) != "yfinance"@),
    {
        let lower = to_lowercase(s);
        Vendors::from_lowercase_name(lower.as_str())
    }
}

/// A name is read as a vendor exactly when it is that vendor's stored name,
/// `databento` or `yfinance`; every other name is read as no vendor.
pub proof fn lemma_vendor_named_exact(name: Seq<char>, v: Vendors)
    ensures
        vendor_named(name) == Some(v) <==> name == vendor_name(v),
        vendor_named(name) == Some(Vendors::Databento) <==> name == "databento"@,
        vendor_named(name) == Some(Vendors::Yfinance) <==> name == "yfinance"@,
        vendor_named(name) is None <==> (name != "databento"@ && name != "yfinance"@),
{
    reveal_strlit("databento");
    reveal_strlit("yfinance");
    assert("databento"@ != "yfinance"@) by {
        assert("databento"@.len() != "yfinance"@.len());
    }
}

/// A vendor's stored name is ASCII and already lowercase, so reading it back
/// gives the same vendor.
pub proof fn lemma_vendor_name_roundtrip(v: Vendors)
    ensures
        is_ascii_chars(vendor_name(v)),
        ascii_lowercase(vendor_name(v)) == vendor_name(v),
        vendor_named(vendor_name(v)) == Some(v),
{
    reveal_strlit("databento");
    reveal_strlit("yfinance");
    assert(ascii_lowercase(vendor_name(v)) =~= vendor_name(v));
    assert("databento"@ != "yfinance"@) by {
        assert("databento"@.len() != "yfinance"@.len());
    }
}

impl vstd::std_specs::convert::TryFromSpecImpl<&str> for Vendors {
    /// The result also depends on `lowercase`, and the error holds a `String`,
    /// which no spec value can equal; `try_from` states its result itself.
    open spec fn obeys_try_from_spec() -> bool {
        false
    }

    open spec fn try_from_spec(s: &str) -> Result<Vendors, Error> {
        choose|r: Result<Vendors, Error>| vendor_result_ok(lowercase(s@), r)
    }
}

impl vstd::std_specs::convert::FromSpecImpl<Vendors> for String {
    /// A `String` is known only by its view; `from` states its result itself.
    open spec fn obeys_from_spec() -> bool {
        false
    }

    open spec fn from_spec(v: Vendors) -> String {
        choose|s: String| s@ == vendor_name(v)
    }
}

impl From<Vendors> for String {
    /// The stored name of the vendor.
    fn from(v: Vendors) -> (ret: String)
        ensures
            ret@ == vendor_name(v),
    {
        match v {
            Vendors::Databento => "databento".to_string(),
            Vendors::Yfinance => "yfinance".to_string(),
        }
    }
}

/// A moment in time with a UTC offset, from the `time` crate.
#[verifier::external_type_specification]
#[verifier::external_body]
pub struct ExOffsetDateTime(OffsetDateTime);

/// The error the `time` crate reports for a value out of range.
#[verifier::external_type_specification]
#[verifier::external_body]
pub struct ExComponentRange(ComponentRange);

/// The moment, in UTC, that `OffsetDateTime::from_unix_timestamp_nanos` gives
/// for `nanos` nanoseconds after the Unix epoch.
pub uninterp spec fn datetime_from_unix_nanos(nanos: int) -> OffsetDateTime;

/// The earliest Unix time, in nanoseconds, that every build of `time` accepts:
/// -9999-01-01 00:00 UTC, which is `UtcDateTime::MIN` without `large-dates`.
pub open spec fn min_unix_nanos() -> int {
    -377_705_116_800_000_000_000
}

/// The end of the Unix times, in nanoseconds, that every build of `time`
/// accepts (the end of the year 9999).
pub open spec fn end_unix_nanos() -> int {
    253_402_300_800_000_000_000
}

/// Calls `OffsetDateTime::from_unix_timestamp_nanos`.
///
/// Trusted: the result depends on `nanos` alone; within the years -9999 to 9999,
/// which every build of `time` supports, it is never an error.  Outside them
/// the outcome depends on the crate's `large-dates` feature and is not stated.
#[verifier::external_body]
fn offset_datetime_from_unix_nanos(nanos: i128) -> (r: Result<OffsetDateTime, ComponentRange>)
    ensures
        r matches Ok(d) ==> d == datetime_from_unix_nanos(nanos as int),
        min_unix_nanos() <= nanos < end_unix_nanos() ==> r is Ok,
{
    OffsetDateTime::from_unix_timestamp_nanos(nanos)
}

/// A financial instrument.
#[derive(Debug, Clone)]
pub struct Instrument {
    /// Unique instrument id number.
    pub instrument_id: Option<u32>,
    /// Instrument ticker.
    pub ticker: String,
    /// Instrument name, e.g. Apple Inc.
    pub name: String,
    /// Vendor name.
    pub vendor: String,
    /// Vendor specific.
    pub stype: Option<String>,
    /// Vendor specific.
    pub dataset: Option<String>,
    /// Last date available in the database, in Unix nanoseconds.
    pub last_available: u64,
    /// First date available in the database, in Unix nanoseconds.
    pub first_available: u64,
    /// Active status.
    pub active: bool,
}

impl Instrument {
    pub fn new(
        instrument_id: Option<u32>,
        ticker: &str,
        name: &str,
        vendor: Vendors,
        stype: Option<String>,
        dataset: Option<String>,
        last_available: u64,
        first_available: u64,
        active: bool,
    ) -> (r: Self)
        ensures
            r.instrument_id == instrument_id,
            r.ticker@ == ticker@,
            r.name@ == name@,
            r.vendor@ == vendor_name(vendor),
            r.stype == stype,
            r.dataset == dataset,
            r.last_available == last_available,
            r.first_available == first_available,
            r.active == active,
    {
        Self {
            instrument_id,
            ticker: ticker.to_string(),
            name: name.to_string(),
            vendor: vendor.into(),
            stype,
            dataset,
            last_available,
            first_available,
            active,
        }
    }

    /// Converts Unix nanoseconds to an `OffsetDateTime` in UTC.
    fn timestamp_to_datetime(&self, timestamp: u64) -> (r: Result<OffsetDateTime, Error>)
        ensures
            r matches Ok(d) && d == datetime_from_unix_nanos(timestamp as int),
    {
        match offset_datetime_from_unix_nanos(timestamp as i128) {
            Ok(d) => Ok(d),
            Err(_) => Err(Error::DateError("Error: Invalid UNIX nanosecond timestamp".to_string())),
        }
    }

    /// `first_available` as an `OffsetDateTime`.
    pub fn first_available_datetime(&self) -> (r: Result<OffsetDateTime, Error>)
        ensures
            r matches Ok(d) && d == datetime_from_unix_nanos(self.first_available as int),
    {
        self.timestamp_to_datetime(self.first_available)
    }

    /// `last_available` as an `OffsetDateTime`.
    pub fn last_available_datetime(&self) -> (r: Result<OffsetDateTime, Error>)
        ensures
            r matches Ok(d) && d == datetime_from_unix_nanos(self.last_available as int),
    {
        self.timestamp_to_datetime(self.last_available)
    }
}

} // verus!
