//! The instant type records carry, and its text form.

use vstd::prelude::*;

verus! {

/// Timestamps are carried through unchanged; nothing here looks inside one.
#[verifier::external_type_specification]
#[verifier::external_body]
pub struct ExTimestamp(jiff::Timestamp);

/// `jiff::Timestamp` is `Copy`, and its derived `clone` returns the same instant.
pub assume_specification[ <jiff::Timestamp as std::clone::Clone>::clone ](
    t: &jiff::Timestamp,
) -> (r: jiff::Timestamp)
    ensures
        r == *t,
;

/// The text `jiff::Timestamp`'s `Display` prints for an instant: RFC 3339 in UTC, with
/// as many fractional digits as the instant needs.
pub uninterp spec fn timestamp_text(t: jiff::Timestamp) -> Seq<char>;

/// What `jiff::Timestamp`'s `FromStr` makes of a text: the instant, or `None` when it
/// refuses the text.
pub uninterp spec fn parsed_timestamp(s: Seq<char>) -> Option<jiff::Timestamp>;

/// Print an instant with `jiff::Timestamp`'s `Display`. Its documentation promises the
/// minimum precision that renders the value losslessly, so parsing the text gives the
/// instant back; that is the one fact stated besides the name of the text.
#[verifier::external_body]
pub(crate) fn print_timestamp(t: jiff::Timestamp) -> (r: String)
    ensures
        r@ == timestamp_text(t),
        parsed_timestamp(r@) == Some(t),
{
    t.to_string()
}

/// Parse an instant with `jiff::Timestamp`'s `FromStr`, keeping only whether it succeeded.
/// Which texts it accepts is not stated here beyond the name of the result.
#[verifier::external_body]
pub(crate) fn parse_timestamp(s: &str) -> (r: Option<jiff::Timestamp>)
    ensures
        r == parsed_timestamp(s@),
{
    s.parse::<jiff::Timestamp>().ok()
}

} // verus!
