//! What the device scrapers share: pattern search in a status page, and
//! reading a number out of what the pattern captured.
use vstd::prelude::*;
use crate::number::{is_zero_text, parse_decimal_spec, Decimal};
use crate::value::{FieldView, PublishData, Value};

verus! {

/// The readings that a scraper looks for.
#[derive(Clone, Copy, Debug, PartialEq, Eq, Structural)]
pub enum Reading {
    DeviceSerial,
    CurrentPower,
    YieldToday,
    TotalYield,
}

/// Why a poll gave no data.
#[derive(Clone, Copy, Debug, PartialEq, Eq, Structural)]
pub enum ScrapeError {
    /// The reading's marker is not in the page.
    NotFound(Reading),
    /// The reading was found but is not a decimal number.
    NotANumber(Reading),
    /// Current power, yield today and total yield are all zero.
    AllZero,
}

/// The text of group 1 of the leftmost match of `pattern` in `haystack`.
pub uninterp spec fn regex_capture(pattern: Seq<char>, haystack: Seq<char>) -> Option<Seq<char>>;

/// `s` without the whitespace at either end.
pub uninterp spec fn trimmed(s: Seq<char>) -> Seq<char>;

/// Relies on regex::Regex::new and Regex::captures: compiles `pattern` and
/// returns the text of capture group 1 of its leftmost match in `haystack`;
/// `None` where there is no match (or the pattern does not compile).
#[verifier::external_body]
fn capture_group(pattern: &str, haystack: &str) -> (r: Option<String>)
    ensures
        r is Some == regex_capture(pattern@, haystack@) is Some,
        (r matches Some(c) ==> c@ == regex_capture(pattern@, haystack@).unwrap()),
{
    match regex::Regex::new(pattern) {
        Ok(re) => re.captures(haystack).and_then(|c| c.get(1)).map(|m| m.as_str().to_string()),
        Err(_) => None,
    }
}

/// Relies on str::trim: drops leading and trailing whitespace.
#[verifier::external_body]
fn trim(s: &str) -> (r: String)
    ensures
        r@ == trimmed(s@),
{
    s.trim().to_string()
}

/// What a pattern captured, trimmed; `NotFound(which)` where it matched nothing.
pub open spec fn text_reading(html: Seq<char>, pattern: Seq<char>, which: Reading) -> Result<
    Seq<char>,
    ScrapeError,
> {
    match regex_capture(pattern, html) {
        Some(c) => Ok(trimmed(c)),
        None => Err(ScrapeError::NotFound(which)),
    }
}

/// The number that a pattern captured, as canonical decimal text.
pub open spec fn number_reading(html: Seq<char>, pattern: Seq<char>, which: Reading) -> Result<
    Seq<char>,
    ScrapeError,
> {
    match text_reading(html, pattern, which) {
        Ok(t) => match parse_decimal_spec(t) {
            Some(d) => Ok(d),
            None => Err(ScrapeError::NotANumber(which)),
        },
        Err(e) => Err(e),
    }
}

/// Whether the three number readings are all zero.
pub open spec fn all_zero(power: Seq<char>, today: Seq<char>, total: Seq<char>) -> bool {
    is_zero_text(power) && is_zero_text(today) && is_zero_text(total)
}

/// Whether a poll's result is the expected outcome: the same error, or data
/// whose entries are the expected ones.
pub open spec fn outcome_is(
    r: Result<PublishData, ScrapeError>,
    o: Result<Seq<FieldView>, ScrapeError>,
) -> bool {
    match r {
        Ok(d) => o is Ok && d@ == o->Ok_0,
        Err(e) => o is Err && e == o->Err_0,
    }
}

/// Finds `pattern` in `html` and returns its capture, trimmed.
pub fn read_text(html: &str, pattern: &str, which: Reading) -> (r: Result<String, ScrapeError>)
    ensures
        (match r {
            Ok(s) => text_reading(html@, pattern@, which) == Ok::<Seq<char>, ScrapeError>(s@),
            Err(e) => text_reading(html@, pattern@, which) == Err::<Seq<char>, ScrapeError>(e),
        }),
{
    match capture_group(pattern, html) {
        Some(c) => Ok(trim(c.as_str())),
        None => Err(ScrapeError::NotFound(which)),
    }
}

/// Finds `pattern` in `html` and parses its capture, trimmed, as a decimal number.
pub fn read_number(html: &str, pattern: &str, which: Reading) -> (r: Result<Decimal, ScrapeError>)
    ensures
        (match r {
            Ok(d) => number_reading(html@, pattern@, which) == Ok::<Seq<char>, ScrapeError>(d@),
            Err(e) => number_reading(html@, pattern@, which) == Err::<Seq<char>, ScrapeError>(e),
        }),
{
    match read_text(html, pattern, which) {
        Ok(t) => match Decimal::parse(t.as_str()) {
            Some(d) => Ok(d),
            None => Err(ScrapeError::NotANumber(which)),
        },
        Err(e) => Err(e),
    }
}

/// The tags `deviceName` and `deviceLocation` (where there is a location).
pub open spec fn identity_tags(name: Seq<char>, location: Option<String>) -> Seq<FieldView> {
    match location {
        Some(l) => seq![
            (true, "deviceName"@, (false, name)),
            (true, "deviceLocation"@, (false, l@)),
        ],
        None => seq![(true, "deviceName"@, (false, name))],
    }
}

/// The three energy fields.
pub open spec fn energy_fields(power: Seq<char>, today: Seq<char>, total: Seq<char>) -> Seq<
    FieldView,
> {
    seq![
        (false, "currentPower"@, (true, power)),
        (false, "yieldToday"@, (true, today)),
        (false, "totalYield"@, (true, total)),
    ]
}

/// Appends the tags `deviceName` and, where there is a location, `deviceLocation`.
pub fn push_identity(data: &mut PublishData, name: &String, location: &Option<String>)
    ensures
        final(data)@ == old(data)@ + identity_tags(name@, *location),
        old(data).wf() ==> final(data).wf(),
{
    data.tag("deviceName", Value::String(name.clone()));
    match location {
        Some(l) => data.tag("deviceLocation", Value::String(l.clone())),
        None => {},
    }
    assert(final(data)@ =~= old(data)@ + identity_tags(name@, *location));
}

/// Appends the fields `currentPower`, `yieldToday` and `totalYield`.
pub fn push_energy(data: &mut PublishData, power: Decimal, today: Decimal, total: Decimal)
    ensures
        final(data)@ == old(data)@ + energy_fields(power@, today@, total@),
        old(data).wf() ==> final(data).wf(),
{
    data.field("currentPower", Value::Number(power));
    data.field("yieldToday", Value::Number(today));
    data.field("totalYield", Value::Number(total));
    assert(final(data)@ =~= old(data)@ + energy_fields(power@, today@, total@));
}

} // verus!
