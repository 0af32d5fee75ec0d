//! Access to the local clock, through chrono.

use vstd::prelude::*;

verus! {

/// Reads the local clock with `chrono::Local::now` and renders it with
/// `DateTime::to_rfc3339`. Nothing is stated of the text: it depends on the
/// time at which it is called.
#[verifier::external_body]
pub(crate) fn now_timestamp() -> String {
    chrono::Local::now().to_rfc3339()
}

/// Whether `chrono::DateTime::parse_from_rfc3339` accepts `s`; a function
/// of the text alone.
pub uninterp spec fn rfc3339_parses(s: Seq<char>) -> bool;

/// True when `c` is an ASCII digit.
pub open spec fn is_digit(c: char) -> bool {
    '0' <= c && c <= '9'
}

/// True when `t[at]` and `t[at + 1]` are digits whose two-digit number lies
/// between `lo` and `hi`.
pub open spec fn two_digits_in(t: Seq<char>, at: int, lo: int, hi: int) -> bool {
    &&& is_digit(t[at])
    &&& is_digit(t[at + 1])
    &&& lo <= 10 * (t[at] as int - '0' as int) + (t[at + 1] as int - '0' as int) <= hi
}

/// A year as chrono's `%Y` writes it: four digits, or, outside the years
/// 0 to 9999, a sign followed by at least four digits.
pub open spec fn year_text(y: Seq<char>) -> bool {
    ||| y.len() == 4 && forall|i: int| 0 <= i < 4 ==> is_digit(#[trigger] y[i])
    ||| y.len() >= 5 && (y[0] == '+' || y[0] == '-')
        && forall|i: int| 1 <= i < y.len() ==> is_digit(#[trigger] y[i])
}

/// A date and time as the pattern `%Y-%m-%d %H:%M:%S` writes them: the
/// year, then month 01-12, day 01-31, hour 00-23, minute 00-59 and second
/// 00-60, each of two digits.
pub open spec fn date_time_text(t: Seq<char>) -> bool {
    t.len() >= 19 && {
        let n = t.len() - 15;
        &&& year_text(t.take(n))
        &&& t[n] == '-'
        &&& two_digits_in(t, n + 1, 1, 12)
        &&& t[n + 3] == '-'
        &&& two_digits_in(t, n + 4, 1, 31)
        &&& t[n + 6] == ' '
        &&& two_digits_in(t, n + 7, 0, 23)
        &&& t[n + 9] == ':'
        &&& two_digits_in(t, n + 10, 0, 59)
        &&& t[n + 12] == ':'
        &&& two_digits_in(t, n + 13, 0, 60)
    }
}

/// Renders an RFC 3339 timestamp in the machine's local time zone with the
/// pattern `pattern` (`DateTime::parse_from_rfc3339`, `with_timezone(&Local)`,
/// `format`); `None` when the text does not parse. For the pattern
/// `%Y-%m-%d %H:%M:%S` the contract claims the shape that chrono's
/// documentation gives each field; which date and time come out is not
/// stated, as it depends on the machine's time zone. Only the two patterns
/// the library uses are admitted: chrono's `format(..).to_string()` panics
/// on a pattern it cannot read.
#[verifier::external_body]
pub(crate) fn format_local_timestamp(timestamp: &str, pattern: &str) -> (res: Option<String>)
    requires
        pattern@ == "%Y-%m-%d %H:%M:%S"@ || pattern@ == "%H:%M:%S"@,
    ensures
        res is Some <==> rfc3339_parses(timestamp@),
        res matches Some(t) ==> (pattern@ == "%Y-%m-%d %H:%M:%S"@ ==> date_time_text(t@)),
{
    match chrono::DateTime::parse_from_rfc3339(timestamp) {
        Ok(dt) => Some(dt.with_timezone(&chrono::Local).format(pattern).to_string()),
        Err(_) => None,
    }
}

} // verus!
