//! Points in time: their text forms, the minute a candle opens at, and what has become due.

use crate::text::two_digits;
use vstd::prelude::*;
use vstd::string::*;

verus! {

/// A point in time: seconds since the Unix epoch, and nanoseconds into that second.
#[derive(Clone, Copy, Debug, PartialEq, Eq, Structural)]
pub struct Moment {
    pub secs: i64,
    pub nanos: u32,
}

/// First second of the calendar, the start of year -262143.
pub const CALENDAR_START: i64 = -8_334_601_228_800;

/// Last second of the calendar, the end of year 262142.
pub const CALENDAR_END: i64 = 8_210_266_876_799;

/// Length of a candle, in milliseconds.
pub const CANDLE_MILLIS: i64 = 60_000;

/// Age past which candles are deleted, in milliseconds.
pub const KEEP_MILLIS: i64 = 3_600_000;

/// Time between deletions of old candles, in nanoseconds.
pub const PRUNE_INTERVAL_NANOS: u128 = 300_000_000_000;

/// Time between readings of the wallet, in nanoseconds.
pub const WALLET_INTERVAL_NANOS: u128 = 60_000_000_000;

impl Moment {
    /// Whether the calendar has this point in time.
    pub open spec fn valid(self) -> bool {
        &&& CALENDAR_START <= self.secs <= CALENDAR_END
        &&& self.nanos < 1_000_000_000
    }

    /// The time of day in UTC, as `HH:MM:SS`.
    pub open spec fn time_of_day(self) -> Seq<char> {
        let second = self.secs as int % 86400;
        two_digits((second / 3600) as nat) + seq![':'] + two_digits((second / 60 % 60) as nat)
            + seq![':'] + two_digits((second % 60) as nat)
    }

    /// Milliseconds since the Unix epoch.
    pub open spec fn spec_millis(self) -> int {
        self.secs * 1000 + self.nanos as int / 1_000_000
    }

    /// The point in time with these seconds and nanoseconds, if the calendar has it.
    pub fn checked(secs: i64, nanos: u32) -> (r: Option<Moment>)
        ensures
            r == (if (Moment { secs, nanos }).valid() {
                Some(Moment { secs, nanos })
            } else {
                None
            }),
    {
        if CALENDAR_START <= secs && secs <= CALENDAR_END && nanos < 1_000_000_000 {
            Some(Moment { secs, nanos })
        } else {
            None
        }
    }

    /// Milliseconds since the Unix epoch, rounded down.
    pub fn millis(self) -> (r: i64)
        requires
            self.valid(),
        ensures
            r == self.spec_millis(),
    {
        self.secs * 1000 + (self.nanos / 1_000_000) as i64
    }
}

/// The time of day as chrono writes it: `DateTime::from_timestamp`, then `format` with
/// `%H:%M:%S`. Trusted: the text is the two-digit hour, minute and second of the day in UTC.
#[verifier::external_body]
pub(crate) fn chrono_time_of_day(at: Moment) -> (r: String)
    requires
        at.valid(),
    ensures
        r@ == at.time_of_day(),
{
    chrono::DateTime::from_timestamp(at.secs, at.nanos).unwrap().format("%H:%M:%S").to_string()
}

/// What chrono's `to_rfc3339` writes for a point in time in UTC.
pub uninterp spec fn rfc3339(secs: int, nanos: int) -> Seq<char>;

/// The date and time as chrono writes it: `DateTime::from_timestamp`, then `to_rfc3339`.
/// Trusted: the text depends on the point in time alone.
#[verifier::external_body]
pub(crate) fn chrono_rfc3339(at: Moment) -> (r: String)
    requires
        at.valid(),
    ensures
        r@ == rfc3339(at.secs as int, at.nanos as int),
{
    chrono::DateTime::from_timestamp(at.secs, at.nanos).unwrap().to_rfc3339()
}

/// The start of the minute that `millis` falls in, rounding towards the epoch.
pub open spec fn minute_of(millis: int) -> int {
    if millis >= 0 {
        millis - millis % (CANDLE_MILLIS as int)
    } else {
        millis + (-millis) % (CANDLE_MILLIS as int)
    }
}

/// The opening time of the candle that a tick at `millis` belongs to.
pub fn candle_start(millis: i64) -> (r: i64)
    ensures
        r == minute_of(millis as int),
{
    (millis / CANDLE_MILLIS) * CANDLE_MILLIS
}

/// The time before which candles are deleted.
pub fn prune_threshold(at: Moment) -> (r: i64)
    requires
        at.valid(),
    ensures
        r == at.spec_millis() - KEEP_MILLIS,
{
    at.millis() - KEEP_MILLIS
}

/// Whether old candles are to be deleted, this long after the last time.
pub fn prune_due(elapsed_nanos: u128) -> (r: bool)
    ensures
        r == (elapsed_nanos > PRUNE_INTERVAL_NANOS),
{
    elapsed_nanos > PRUNE_INTERVAL_NANOS
}

/// Whether the wallet is to be read, this long after the last time.
pub fn wallet_due(elapsed_nanos: u128) -> (r: bool)
    ensures
        r == (elapsed_nanos > WALLET_INTERVAL_NANOS),
{
    elapsed_nanos > WALLET_INTERVAL_NANOS
}

/// Whether a time falls in the minute of a candle: that which begins with `minute`, or before the
/// epoch that which ends with it; the minutes on both sides of the epoch are one.
pub open spec fn within_minute(millis: int, minute: int) -> bool {
    if minute > 0 {
        minute <= millis < minute + 60_000
    } else if minute < 0 {
        minute - 60_000 < millis <= minute
    } else {
        -60_000 < millis < 60_000
    }
}

/// Every time falls in the minute that its candle is named after, and in no other one.
pub proof fn law_minute(millis: int)
    ensures
        minute_of(millis) % 60_000 == 0,
        forall|minute: int|
            minute % 60_000 == 0 ==> (#[trigger] within_minute(millis, minute) <==> minute
                == minute_of(millis)),
{
}

/// Milliseconds since the epoch are a thousand times the seconds, and a millionth of the
/// nanoseconds, rounded down.
pub proof fn law_millis(at: Moment)
    requires
        at.valid(),
    ensures
        at.spec_millis() * 1_000_000 <= at.secs * 1_000_000_000 + at.nanos,
        at.secs * 1_000_000_000 + at.nanos < (at.spec_millis() + 1) * 1_000_000,
{
}

/// The time of day has eight characters: the hour, the minute and the second, two digits each,
/// with colons between. They add up to the second of the day.
pub proof fn law_time_of_day(at: Moment)
    ensures
        at.time_of_day().len() == 8,
        at.time_of_day()[2] == ':' && at.time_of_day()[5] == ':',
        exists|hour: int, minute: int, second: int|
            {
                &&& 0 <= hour < 24 && 0 <= minute < 60 && 0 <= second < 60
                &&& (hour * 3600 + minute * 60 + second - at.secs) % 86400 == 0
                &&& #[trigger] shows(at.time_of_day(), 0, hour)
                &&& #[trigger] shows(at.time_of_day(), 3, minute)
                &&& #[trigger] shows(at.time_of_day(), 6, second)
            },
{
    let day = at.secs as int % 86400;
    let (hour, minute, second) = (day / 3600, day / 60 % 60, day % 60);
    let text = at.time_of_day();
    assert(hour * 3600 + minute * 60 + second == day);
    assert(shows(text, 0, hour));
    assert(shows(text, 3, minute));
    assert(shows(text, 6, second));
}

/// Whether two digits of a text, from `i` on, stand for a number.
pub open spec fn shows(text: Seq<char>, i: int, n: int) -> bool {
    &&& '0' <= text[i] <= '9' && '0' <= text[i + 1] <= '9'
    &&& n == 10 * (text[i] as int - '0' as int) + (text[i + 1] as int - '0' as int)
}

/// Chores are due exactly when more than their interval has passed: five minutes for old candles,
/// one minute for the wallet.
pub proof fn law_intervals()
    ensures
        PRUNE_INTERVAL_NANOS == 5 * 60 * 1_000_000_000,
        WALLET_INTERVAL_NANOS == 60 * 1_000_000_000,
        KEEP_MILLIS == 60 * 60 * 1000,
        CANDLE_MILLIS == 60 * 1000,
{
}

} // verus!
