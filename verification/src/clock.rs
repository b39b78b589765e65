//! Points in time as texts.

use vstd::prelude::*;

use crate::desktop::text_in;
use crate::text::{lemma_lex_irreflexive, lemma_lex_transitive, lex_less};

verus! {

/// The first second that the calendar knows, counted from the start of 1970.
pub const FIRST_SECOND: i64 = -8334601228800;

/// The last second that the calendar knows.
pub const LAST_SECOND: i64 = 8210266876799;

/// The first second of the year 0.
pub const FIRST_PADDED: i64 = -62167219200;

/// The last second of the year 9999.
pub const LAST_PADDED: i64 = 253402300799;

/// The seconds of a day.
pub const DAY: i64 = 86400;

/// Whether the calendar knows a second.
pub open spec fn in_calendar(seconds: int) -> bool {
    FIRST_SECOND <= seconds <= LAST_SECOND
}

/// Whether a second lies in a year that is written with four digits.
pub open spec fn padded(seconds: int) -> bool {
    FIRST_PADDED <= seconds <= LAST_PADDED
}

/// How `chrono` writes a second, counted from the start of 1970, as
/// `2025-01-01T00:00:00Z`.
pub uninterp spec fn utc_text(seconds: int) -> Option<Seq<char>>;

/// Whether a text stands behind the texts of all earlier seconds and before
/// those of all later ones, as far as years are written with four digits.
pub open spec fn in_time_order(seconds: int, text: Option<Seq<char>>) -> bool {
    forall|t: int|
        #![trigger utc_text(t)]
        padded(t) && padded(seconds) && text is Some ==> {
            &&& utc_text(t) is Some
            &&& t < seconds ==> lex_less(utc_text(t)->0, text->0)
            &&& seconds < t ==> lex_less(text->0, utc_text(t)->0)
        }
}

/// `chrono::DateTime::from_timestamp` and `DateTime::format`: the text depends
/// on the second alone, there is one for exactly the seconds that the calendar
/// knows, and in the years that are written with four digits the texts are in
/// the order of the seconds, since each of their parts has a fixed width.
#[verifier::external_body]
pub(crate) fn format_utc(seconds: i64) -> (r: Option<String>)
    ensures
        text_in(r) == utc_text(seconds as int),
        r is Some <==> in_calendar(seconds as int),
        in_time_order(seconds as int, text_in(r)),
{
    let time = chrono::DateTime::from_timestamp(seconds, 0)?;
    Some(time.format("%Y-%m-%dT%H:%M:%SZ").to_string())
}

/// Whether the calendar knows a second.
pub fn is_in_calendar(seconds: i64) -> (r: bool)
    ensures
        r == in_calendar(seconds as int),
{
    FIRST_SECOND <= seconds && seconds <= LAST_SECOND
}

/// The text of a second that the calendar knows.
pub open spec fn stamp(seconds: int) -> Seq<char> {
    match utc_text(seconds) {
        Some(s) => s,
        None => Seq::empty(),
    }
}

/// How a second is written. In the years that are written with four digits,
/// the texts are in the order of the seconds.
pub fn timestamp(seconds: i64) -> (r: String)
    requires
        in_calendar(seconds as int),
    ensures
        utc_text(seconds as int) == Some(r@),
        forall|t: int|
            #![trigger stamp(t)]
            padded(t) && padded(seconds as int) ==> (lex_less(stamp(t), r@) <==> t < seconds),
{
    match format_utc(seconds) {
        Some(s) => {
            assert forall|t: int|
                #![trigger stamp(t)]
                padded(t) && padded(seconds as int) implies (lex_less(stamp(t), s@) <==> t
                < seconds) by {
                if t > seconds {
                    if lex_less(stamp(t), s@) {
                        lemma_lex_transitive(stamp(t), s@, stamp(t));
                        lemma_lex_irreflexive(stamp(t));
                    }
                } else if t == seconds {
                    lemma_lex_irreflexive(s@);
                }
            }
            s
        },
        None => String::new(),
    }
}

} // verus!
