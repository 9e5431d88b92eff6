//! Points in time, as clocks on the wall show them.

use vstd::prelude::*;

verus! {

/// The format of a date and a time of day.
pub const SHOWN_AS: &'static str = "%Y-%m-%d %H:%M:%S";

/// The first second that has a date, at the start of the year -262143.
pub const FIRST_SECOND: i64 = -8_334_601_228_800;

/// The last second that has a date, at the end of the year 262142.
pub const LAST_SECOND: i64 = 8_210_266_876_799;

/// That many seconds after the start of 1970 in UTC there is a date, and clocks
/// can be ahead of UTC by that many seconds, less than a day.
pub open spec fn has_date(secs: i64, offset: i32) -> bool {
    &&& FIRST_SECOND <= secs <= LAST_SECOND
    &&& -86_400 < offset < 86_400
}

/// What `chrono` writes, in the given format, of a point in time and the offset
/// of the clocks.
pub uninterp spec fn formatted_time(secs: i64, offset: i32, format: Seq<char>) -> Seq<char>;

/// `chrono::DateTime::from_timestamp`, with a `FixedOffset`, written out with
/// `DateTime::format`. The first two fail on values out of their ranges, the last
/// on a format that it does not know. Of the text no more is said than that it
/// depends on nothing else.
#[verifier::external_body]
fn format_time(secs: i64, offset: i32, format: &str) -> (r: String)
    requires
        has_date(secs, offset),
        format@ == SHOWN_AS@,
    ensures
        r@ == formatted_time(secs, offset, format@),
{
    let zone = chrono::FixedOffset::east_opt(offset).unwrap();
    let time = chrono::DateTime::from_timestamp(secs, 0).unwrap();
    time.with_timezone(&zone).format(format).to_string()
}

/// A point in time that has a date, and how far clocks were ahead of UTC then.
#[derive(Clone, Copy, Debug)]
pub struct LocalTime {
    secs: i64,
    offset: i32,
}

impl LocalTime {
    #[verifier::type_invariant]
    spec fn is_dated(self) -> bool {
        has_date(self.secs, self.offset)
    }

    /// Seconds since the start of 1970 in UTC.
    pub closed spec fn seconds(self) -> i64 {
        self.secs
    }

    /// By how many seconds clocks were ahead of UTC.
    pub closed spec fn ahead(self) -> i32 {
        self.offset
    }

    /// The point in time, if it has a date.
    pub fn new(secs: i64, offset: i32) -> (r: Option<Self>)
        ensures
            r is Some <==> has_date(secs, offset),
            r is Some <==> -8_334_601_228_800 <= secs <= 8_210_266_876_799 && -86_400 < offset
                < 86_400,
            r matches Some(t) ==> t.seconds() == secs && t.ahead() == offset,
    {
        if FIRST_SECOND <= secs && secs <= LAST_SECOND && -86_400 < offset && offset < 86_400 {
            Some(LocalTime { secs, offset })
        } else {
            None
        }
    }

    /// Writes the date and the time of day.
    pub fn show(&self) -> (r: String)
        ensures
            r@ == formatted_time(self.seconds(), self.ahead(), SHOWN_AS@),
            r@ == formatted_time(self.seconds(), self.ahead(), "%Y-%m-%d %H:%M:%S"@),
    {
        proof {
            use_type_invariant(self);
        }
        format_time(self.secs, self.offset, SHOWN_AS)
    }
}

} // verus!
