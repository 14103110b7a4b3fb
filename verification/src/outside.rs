//! Calls into other crates and into the parts of std that have no Verus
//! specification. Each item here is trusted: its contract is believed, not
//! proved, and states only what the called code's source or documentation
//! shows.

use vstd::prelude::*;
use fuzzy_matcher::FuzzyMatcher;
use chrono::{Datelike, TimeZone, Timelike};

verus! {

#[verifier::external_type_specification]
#[verifier::external_body]
pub struct ExRegex(regex::Regex);

#[verifier::external_type_specification]
#[verifier::external_body]
pub struct ExRegexError(regex::Error);

/// Whether `regex::Regex::new` accepts the pattern (syntax and size limit).
pub uninterp spec fn regex_compiles(pattern: Seq<char>) -> bool;

/// Whether the regex built from `pattern` by `regex::Regex::new` matches
/// somewhere in `text` (`Regex::is_match`).
pub uninterp spec fn regex_finds(pattern: Seq<char>, text: Seq<char>) -> bool;

/// A regular expression together with the pattern it was compiled from.
/// Values are only made by [`compile_regex`], so `source` is always the
/// pattern that `re` was built from.
pub struct CompiledRegex {
    re: regex::Regex,
    source: String,
}

impl View for CompiledRegex {
    type V = Seq<char>;

    closed spec fn view(&self) -> Seq<char> {
        self.source@
    }
}

/// Compiles `pattern` with `regex::Regex::new`. Trusted: the result is `Ok`
/// exactly when the crate accepts the pattern, and an `Ok` value carries
/// the pattern it was built from.
#[verifier::external_body]
pub(crate) fn compile_regex(pattern: &str) -> (r: Result<CompiledRegex, regex::Error>)
    ensures
        r is Ok <==> regex_compiles(pattern@),
        r matches Ok(c) ==> c@ == pattern@,
{
    match regex::Regex::new(pattern) {
        Ok(re) => Ok(CompiledRegex { re, source: pattern.to_string() }),
        Err(e) => Err(e),
    }
}

/// `regex::Regex::is_match`. Trusted: the answer is the named result for
/// the regex's source pattern and the text.
#[verifier::external_body]
pub(crate) fn regex_is_match(re: &CompiledRegex, text: &str) -> (r: bool)
    ensures
        r == regex_finds(re@, text@),
{
    re.re.is_match(text)
}

/// Score that `fuzzy_matcher::skim::SkimMatcherV2::default().fuzzy_match`
/// gives `choice` against `pattern` (`None`: no match).
pub uninterp spec fn skim_score(choice: Seq<char>, pattern: Seq<char>) -> Option<i64>;

/// `SkimMatcherV2::default().fuzzy_match(choice, pattern)`. Trusted: the
/// result is the named score of the two strings; an empty pattern scores
/// `Some(0)` (the source returns that before any matching).
#[verifier::external_body]
pub(crate) fn fuzzy_score(choice: &str, pattern: &str) -> (r: Option<i64>)
    ensures
        r == skim_score(choice@, pattern@),
        pattern@.len() == 0 ==> r == Some(0i64),
{
    fuzzy_matcher::skim::SkimMatcherV2::default().fuzzy_match(choice, pattern)
}

/// The date that `chrono::NaiveDate::parse_from_str(text, "%Y-%m-%d")`
/// yields, as (year, month, day), or `None` where it returns an error.
pub uninterp spec fn chrono_ymd(text: Seq<char>) -> Option<(i32, u32, u32)>;

/// `chrono::NaiveDate::parse_from_str(text, "%Y-%m-%d")`, with the parsed
/// date given as (year, month, day). Trusted: the result is the named one;
/// a parsed date has a month in 1..=12 and a day in 1..=31.
#[verifier::external_body]
pub(crate) fn parse_ymd(text: &str) -> (r: Option<(i32, u32, u32)>)
    ensures
        r == chrono_ymd(text@),
        r matches Some(d) ==> 1 <= d.1 <= 12 && 1 <= d.2 <= 31,
{
    match chrono::NaiveDate::parse_from_str(text, "%Y-%m-%d") {
        Ok(d) => Some((d.year(), d.month(), d.day())),
        Err(_) => None,
    }
}

/// The 16 bytes of `md5::compute(data)`.
pub uninterp spec fn md5_of(data: Seq<u8>) -> Seq<u8>;

/// `md5::compute`. Trusted: the digest is the named one of the data, and
/// it has 16 bytes (`Digest` wraps a `[u8; 16]`).
#[verifier::external_body]
pub(crate) fn md5_digest(data: &[u8]) -> (r: Vec<u8>)
    ensures
        r@ == md5_of(data@),
        r@.len() == 16,
{
    md5::compute(data).0.to_vec()
}


/// The extension that `std::path::Path::extension` finds in `path`.
pub uninterp spec fn path_extension_of(path: Seq<char>) -> Option<Seq<char>>;

/// `Path::new(path).extension()`, as text. Trusted: the result is the named
/// extension of the path (an extension of a `&str` path is valid UTF-8, so
/// the conversion to text never fails).
#[verifier::external_body]
pub(crate) fn path_extension(path: &str) -> (r: Option<String>)
    ensures
        match r {
            Some(e) => path_extension_of(path@) == Some(e@),
            None => path_extension_of(path@) is None,
        },
{
    std::path::Path::new(path).extension().and_then(|e| e.to_str()).map(|e| e.to_string())
}

/// A local date and time that chrono can produce: month 1..=12, day
/// 1..=31, hour below 24, minute below 60.
pub open spec fn stamp_ok(t: (i32, u32, u32, u32, u32)) -> bool {
    1 <= t.1 <= 12 && 1 <= t.2 <= 31 && t.3 < 24 && t.4 < 60
}

/// Proleptic Gregorian (year, month, day) of the day `z` days after
/// 1970-01-01 (negative before it).
pub open spec fn civil_from_days(z0: int) -> (int, int, int) {
    let z = z0 + 719468;
    let era = z / 146097;
    let doe = z - era * 146097;
    let yoe = (doe - doe / 1460 + doe / 36524 - doe / 146096) / 365;
    let y = yoe + era * 400;
    let doy = doe - (365 * yoe + yoe / 4 - yoe / 100);
    let mp = (5 * doy + 2) / 153;
    let d = doy - (153 * mp + 2) / 5 + 1;
    let m = if mp < 10 { mp + 3 } else { mp - 9 };
    (if m <= 2 { y + 1 } else { y }, m, d)
}

/// The calendar date and wall-clock time, to the minute, of the moment `x`
/// seconds after 1970-01-01 00:00 (no leap seconds), as (year, month, day,
/// hour, minute).
pub open spec fn civil_stamp(x: int) -> (i32, u32, u32, u32, u32) {
    let days = x / 86400;
    let sod = x % 86400;
    let ymd = civil_from_days(days);
    (ymd.0 as i32, ymd.1 as u32, ymd.2 as u32, (sod / 3600) as u32, ((sod % 3600) / 60) as u32)
}

/// `chrono::Local.timestamp_opt(secs, nanos).single()`: the instant `secs`
/// seconds and `nanos` nanoseconds after the Unix epoch, in the machine's
/// local time zone, as (year, month, day, hour, minute); `None` when chrono
/// cannot represent the instant. Trusted: a result has its fields in the
/// calendar ranges, and it is the date and time, to the minute, of `secs`
/// shifted by the zone's offset from UTC at that instant (chrono adds a
/// `FixedOffset`, which is less than a day either way; `nanos` only moves
/// the time within its second). Which offset the machine's time zone gives
/// is not stated: it depends on the environment. Where the system's
/// time-zone data cannot be used, chrono itself panics (as the conversion
/// does everywhere it is used); no argument can rule that out.
#[verifier::external_body]
pub(crate) fn local_stamp(secs: i64, nanos: u32) -> (r: Option<(i32, u32, u32, u32, u32)>)
    ensures
        r matches Some(t) ==> stamp_ok(t),
        r matches Some(t) ==> exists|o: int| -86400 < o < 86400 && t == #[trigger] civil_stamp(secs + o),
{
    match chrono::Local.timestamp_opt(secs, nanos).single() {
        Some(dt) => Some((dt.year(), dt.month(), dt.day(), dt.hour(), dt.minute())),
        None => None,
    }
}

} // verus!
