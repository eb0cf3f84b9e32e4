//! Points in time as the local calendar shows them.

use crate::entry::{EntryView, Timestamp};
use chrono::{Local, TimeZone};
use vstd::prelude::*;
use vstd::string::*;
use vstd::utf8::*;

verus! {

/// Whether the character is a decimal digit.
pub open spec fn is_digit(c: char) -> bool {
    '0' <= c <= '9'
}

/// Whether the text has the form `YYYY-MM-DD HH:MM:SS`: nineteen
/// characters, digits but for the two hyphens, the space and the two
/// colons.
pub open spec fn is_date_time_text(text: Seq<char>) -> bool {
    &&& text.len() == 19
    &&& forall|i: int|
        0 <= i < 19 && i != 4 && i != 7 && i != 10 && i != 13 && i != 16 ==> is_digit(
            #[trigger] text[i],
        )
    &&& text[4] == '-'
    &&& text[7] == '-'
    &&& text[10] == ' '
    &&& text[13] == ':'
    &&& text[16] == ':'
}

/// Whether the text has the form `YYYY-MM-DD HH:MM:SS`.
pub fn shows_date_time(text: &str) -> (r: bool)
    ensures
        r == is_date_time_text(text@),
{
    if !text.is_ascii() {
        proof {
            if is_date_time_text(text@) {
                assert forall|i: int| 0 <= i < text@.len() implies '\0' <= #[trigger] text@[i]
                    <= '\u{7f}' by {
                    if i != 4 && i != 7 && i != 10 && i != 13 && i != 16 {
                        assert(is_digit(text@[i]));
                    }
                }
            }
        }
        return false;
    }
    let bytes = text.as_bytes();
    proof {
        is_ascii_chars_encode_utf8(text@);
    }
    if bytes.len() != 19 {
        return false;
    }
    let mut i: usize = 0;
    while i < 19
        invariant
            i <= 19,
            bytes.len() == 19,
            text@.len() == 19,
            is_ascii_chars(text@),
            forall|j: int| 0 <= j < 19 ==> text@[j] as u8 == #[trigger] bytes@[j],
            forall|j: int|
                0 <= j < i ==> if j == 4 || j == 7 {
                    text@[j] == '-'
                } else if j == 10 {
                    text@[j] == ' '
                } else if j == 13 || j == 16 {
                    text@[j] == ':'
                } else {
                    is_digit(#[trigger] text@[j])
                },
        decreases 19 - i,
    {
        let b = bytes[i];
        let ghost c = text@[i as int];
        assert(c as u8 == b);
        assert('\0' <= c <= '\u{7f}');
        let fits = if i == 4 || i == 7 {
            b == 0x2D
        } else if i == 10 {
            b == 0x20
        } else if i == 13 || i == 16 {
            b == 0x3A
        } else {
            0x30 <= b && b <= 0x39
        };
        if !fits {
            return false;
        }
        i += 1;
    }
    true
}

/// Midnight of 2 January of the year 1 in UTC, in seconds since the epoch.
pub const FIRST_SHOWN: i64 = -62_135_510_400;

/// The last second of 30 December of the year 9999 in UTC, in seconds since
/// the epoch.
pub const LAST_SHOWN: i64 = 253_402_214_399;

/// Whether the point in time has a date with a year from 1 to 9999 in
/// every time zone: it lies at least a day inside those years in UTC, and
/// no time zone is a day or more away from UTC.
pub open spec fn is_shown_everywhere(at: Timestamp) -> bool {
    FIRST_SHOWN <= at.secs <= LAST_SHOWN && at.well_formed()
}

/// Whether the modification time of every entry has a date with a year
/// from 1 to 9999 in every time zone.
pub open spec fn all_shown_everywhere(entries: Seq<EntryView>) -> bool {
    forall|i: int| 0 <= i < entries.len() ==> is_shown_everywhere((#[trigger] entries[i]).modified_at)
}

/// `chrono::Local.timestamp_opt`, then `single`, `format` with the pattern
/// `%Y-%m-%d %H:%M:%S`, and `to_string`. Trusted. Which date and time the
/// text shows depends on the time zone of the machine, and nothing is
/// claimed of it. What is claimed holds in every time zone: `chrono` has a
/// local time for every point in time within its calendar, its offsets
/// from UTC stay below a day, and it writes a year from 1 to 9999 as four
/// digits without a sign and month, day, hour, minute and second as two
/// digits each. `None` where the point in time is outside the calendar
/// that `chrono` covers.
#[verifier::external_body]
pub(crate) fn local_date_time(at: &Timestamp) -> (text: Option<String>)
    ensures
        is_shown_everywhere(*at) ==> text is Some && is_date_time_text(text->0@),
{
    match Local.timestamp_opt(at.secs, at.nanos).single() {
        Some(time) => Some(time.format("%Y-%m-%d %H:%M:%S").to_string()),
        None => None,
    }
}

} // verus!
