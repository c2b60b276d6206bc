//! Timestamps, and the two ways they are packed on disk.

use vstd::prelude::*;

use crate::variant::Variant;

verus! {

/// A calendar date.
#[derive(Debug, Clone, Copy, PartialEq, Eq, Structural)]
pub struct Date {
    pub(crate) year: u16,
    /// 1 = January
    pub(crate) month: u8,
    pub(crate) day: u8,
}

/// A time of day.
#[derive(Debug, Clone, Copy, PartialEq, Eq, Structural)]
pub struct Time {
    pub(crate) hour: u8,
    pub(crate) minute: u8,
    pub(crate) second: u8,
}

/// A date and a time of day.
#[derive(Debug, Clone, Copy, PartialEq, Eq, Structural)]
pub struct DateTime {
    pub(crate) date: Date,
    pub(crate) time: Time,
}

impl Date {
    pub closed spec fn spec_year(self) -> u16 {
        self.year
    }

    pub closed spec fn spec_month(self) -> u8 {
        self.month
    }

    pub closed spec fn spec_day(self) -> u8 {
        self.day
    }

    /// A packed date, as seven bits of year, four of month and five of day.
    pub open spec fn packed(self, variant: Variant) -> u16 {
        (self.spec_day() % 32 + self.spec_month() % 16 * 32 + (self.spec_year()
            - variant.spec_epoch()) % 128 * 512) as u16
    }

    /// Whether a packed date names this date.
    pub open spec fn unpacks_from(self, encoded: u16, variant: Variant) -> bool {
        &&& self.spec_year() == encoded / 512 + variant.spec_epoch()
        &&& self.spec_month() == encoded / 32 % 16
        &&& self.spec_day() == encoded % 32
    }

    /// Unpack a date from its on-disk form.
    pub fn from_fatx_encoding(encoded: u16, variant: Variant) -> (date: Self)
        ensures
            date.unpacks_from(encoded, variant),
    {
        Self {
            year: encoded / 512 + variant.epoch(),
            month: (encoded / 32 % 16) as u8,
            day: (encoded % 32) as u8,
        }
    }

    /// Pack this date into its on-disk form.
    ///
    /// The year is stored as an offset from the filesystem's epoch, in seven
    /// bits, so a date outside that window wraps rather than being rejected.
    pub fn to_fatx_encoding(&self, variant: Variant) -> (encoded: u16)
        ensures
            encoded == self.packed(variant),
    {
        let year: u16 = self.year.wrapping_sub(variant.epoch()) % 128;
        self.day as u16 % 32 + self.month as u16 % 16 * 32 + year * 512
    }

    pub fn year(&self) -> (year: u16)
        ensures
            year == self.spec_year(),
    {
        self.year
    }

    /// Returns the month, where 1 = January
    pub fn month(&self) -> (month: u8)
        ensures
            month == self.spec_month(),
    {
        self.month
    }

    pub fn day(&self) -> (day: u8)
        ensures
            day == self.spec_day(),
    {
        self.day
    }
}

impl Time {
    pub closed spec fn spec_hour(self) -> u8 {
        self.hour
    }

    pub closed spec fn spec_minute(self) -> u8 {
        self.minute
    }

    pub closed spec fn spec_second(self) -> u8 {
        self.second
    }

    /// How many values the hour and the minute field can tell apart.
    ///
    /// The Xbox 360 uses the standard FAT field widths, 5 bits of hour and 6
    /// of minute. The original Xbox uses 4 and 5, which cannot represent an
    /// hour past 15 or a minute past 31.
    pub open spec fn field_sizes(variant: Variant) -> (int, int) {
        if variant is X360 {
            (32, 64)
        } else {
            (16, 32)
        }
    }

    /// A packed time: the hour from bit 11 on, the minute from bit 5 on, and
    /// half the second below that.
    pub open spec fn packed(self, variant: Variant) -> u16 {
        let (hours, minutes) = Self::field_sizes(variant);
        (self.spec_hour() as int % hours * 2048 + self.spec_minute() as int % minutes * 32
            + self.spec_second() as int / 2 % 32) as u16
    }

    /// Whether a packed time names this time.
    pub open spec fn unpacks_from(self, encoded: u16, variant: Variant) -> bool {
        let (hours, minutes) = Self::field_sizes(variant);
        &&& self.spec_hour() == encoded as int / 2048 % hours
        &&& self.spec_minute() == encoded as int / 32 % minutes
        &&& self.spec_second() == encoded % 32 * 2
    }

    /// Unpack a time from its on-disk form.
    pub fn from_fatx_encoding(encoded: u16, variant: Variant) -> (time: Self)
        ensures
            time.unpacks_from(encoded, variant),
    {
        let (hour_mask, minute_mask): (u16, u16) = Self::field_masks(variant);
        Self {
            hour: (encoded / 2048 % (hour_mask + 1)) as u8,
            minute: (encoded / 32 % (minute_mask + 1)) as u8,
            second: (encoded % 32 * 2) as u8,
        }
    }

    /// Pack this time into its on-disk form.
    ///
    /// Seconds are stored with a two second resolution, so an odd second is
    /// rounded down. On the original Xbox the hour and minute fields are too
    /// narrow to hold every value; what does not fit is dropped.
    pub fn to_fatx_encoding(&self, variant: Variant) -> (encoded: u16)
        ensures
            encoded == self.packed(variant),
    {
        let (hour_mask, minute_mask): (u16, u16) = Self::field_masks(variant);
        let hour: u16 = self.hour as u16 % (hour_mask + 1);
        let minute: u16 = self.minute as u16 % (minute_mask + 1);
        hour * 2048 + minute * 32 + self.second as u16 / 2 % 32
    }

    /// The largest value of the hour and of the minute field.
    pub fn field_masks(variant: Variant) -> (masks: (u16, u16))
        ensures
            (masks.0 + 1, masks.1 + 1) == Self::field_sizes(variant),
    {
        match variant {
            Variant::X360 => (0x1f, 0x3f),
            _ => (0xf, 0x1f),
        }
    }

    pub fn hour(&self) -> (hour: u8)
        ensures
            hour == self.spec_hour(),
    {
        self.hour
    }

    pub fn minute(&self) -> (minute: u8)
        ensures
            minute == self.spec_minute(),
    {
        self.minute
    }

    pub fn second(&self) -> (second: u8)
        ensures
            second == self.spec_second(),
    {
        self.second
    }
}

/// Whether a year has a 29th of February.
pub open spec fn is_leap(year: int) -> bool {
    year % 4 == 0 && (year % 100 != 0 || year % 400 == 0)
}

/// How many days a month has.
pub open spec fn days_in_month(year: int, month: int) -> int {
    if month == 2 {
        if is_leap(year) {
            29
        } else {
            28
        }
    } else if month == 4 || month == 6 || month == 9 || month == 11 {
        30
    } else {
        31
    }
}

/// How many days the calendar has from the start of the year 1 to that of
/// another; less than none for an earlier one.
pub open spec fn days_before_year(year: int) -> int {
    let y = year - 1;
    365 * y + y / 4 - y / 100 + y / 400
}

/// How many days of a year come before one of its months.
pub open spec fn days_before_month(year: int, month: int) -> int
    decreases month,
{
    if month <= 1 {
        0
    } else {
        days_before_month(year, month - 1) + days_in_month(year, month - 1)
    }
}

/// When a clock that is not ahead of or behind universal time shows some
/// fields, in seconds after the start of 1970.
pub open spec fn universal_seconds(
    year: int,
    month: int,
    day: int,
    hour: int,
    minute: int,
    second: int,
) -> int {
    let days = days_before_year(year) + days_before_month(year, month) + day - 1
        - days_before_year(1970);
    days * 86400 + hour * 3600 + minute * 60 + second
}

/// Whether an instant lies in the years that can be told apart, which are those
/// from -262143 to 262142.
pub open spec fn is_reached(seconds: int) -> bool {
    universal_seconds(-262143, 1, 1, 0, 0, 0) <= seconds < universal_seconds(262143, 1, 1, 0, 0, 0)
}

/// Whether two instants are less than a day apart, as what a clock shows and
/// universal time are in every time zone.
pub open spec fn within_a_day(a: int, b: int) -> bool {
    -86400 < a - b < 86400
}

/// A broken-down instant, the way a clock reports it.
pub struct ClockReading {
    pub year: i32,
    pub month: u32,
    pub day: u32,
    pub hour: u32,
    pub minute: u32,
    pub second: u32,
}

impl ClockReading {
    /// Whether every field below the year is one a calendar or a clock has.
    pub open spec fn in_range(self) -> bool {
        &&& 1 <= self.month <= 12
        &&& 1 <= self.day <= 31
        &&& self.hour < 24
        &&& self.minute < 60
        &&& self.second < 60
    }

    /// Whether the fields are those of a day and a time of day that exist.
    pub open spec fn on_calendar(self) -> bool {
        &&& self.in_range()
        &&& self.day <= days_in_month(self.year as int, self.month as int)
    }

    /// Whether a clock may show this at an instant, in some time zone.
    pub open spec fn may_be_shown_at(self, seconds: int) -> bool {
        &&& self.on_calendar()
        &&& within_a_day(
            universal_seconds(
                self.year as int,
                self.month as int,
                self.day as int,
                self.hour as int,
                self.minute as int,
                self.second as int,
            ),
            seconds,
        )
    }

    /// The fields of the timestamp of this reading. A year past what its field
    /// holds keeps its low sixteen bits.
    pub open spec fn stamped(self) -> (u16, u8, u8, u8, u8, u8) {
        (
            (self.year as int % 65536) as u16,
            self.month as u8,
            self.day as u8,
            self.hour as u8,
            self.minute as u8,
            self.second as u8,
        )
    }
}

/// Asks `chrono::Local::now` for the current local time and takes it apart
/// with `Datelike` and `Timelike`. The month and the day count from one, the
/// month has that day, and a second is below sixty: chrono keeps a leap second
/// in the nanoseconds.
#[verifier::external_body]
pub(crate) fn read_local_clock() -> (now: ClockReading)
    ensures
        now.on_calendar(),
{
    let now = chrono::Local::now();
    ClockReading {
        year: chrono::Datelike::year(&now),
        month: chrono::Datelike::month(&now),
        day: chrono::Datelike::day(&now),
        hour: chrono::Timelike::hour(&now),
        minute: chrono::Timelike::minute(&now),
        second: chrono::Timelike::second(&now),
    }
}

/// Asks `chrono::DateTime::from_timestamp` for the instant a number of seconds
/// after the start of 1970, moves it to the local time zone and takes it apart
/// with `Datelike` and `Timelike`. There is none just for an instant outside of
/// the years chrono's calendar has, which are those from -262143 to 262142 in
/// universal time.
///
/// What the reading is depends on the time zone of the machine. Claimed is that
/// it names a day and a time of day that exist, and that it is less than a day
/// ahead of or behind universal time, as chrono has no other time zones.
#[verifier::external_body]
pub(crate) fn local_clock_at(seconds: i64) -> (reading: Option<ClockReading>)
    ensures
        reading is Some <==> is_reached(seconds as int),
        reading matches Some(r) ==> r.may_be_shown_at(seconds as int),
{
    let at = chrono::DateTime::from_timestamp(seconds, 0)?.with_timezone(&chrono::Local);
    Some(
        ClockReading {
            year: chrono::Datelike::year(&at),
            month: chrono::Datelike::month(&at),
            day: chrono::Datelike::day(&at),
            hour: chrono::Timelike::hour(&at),
            minute: chrono::Timelike::minute(&at),
            second: chrono::Timelike::second(&at),
        },
    )
}

/// Asks `chrono::NaiveDate::from_ymd_opt`, `and_hms_opt` and
/// `and_local_timezone` for the earliest instant that a local wall clock shows
/// some fields at, as the number of seconds after the start of 1970. There is
/// none if no such day or no such time of day exists, or if the clock skips it.
///
/// Which instant it is, and whether the clock skips it, depends on the time zone
/// of the machine. Claimed is that there is none for fields that are on no
/// calendar or no clock, and that it is less than a day away from the instant
/// the fields name in universal time, as chrono has no other time zones.
#[verifier::external_body]
pub(crate) fn local_instant(year: u16, month: u8, day: u8, hour: u8, minute: u8, second: u8) -> (seconds:
    Option<i64>)
    ensures
        seconds matches Some(s) ==> {
            &&& 1 <= month <= 12
            &&& 1 <= day <= days_in_month(year as int, month as int)
            &&& hour < 24
            &&& minute < 60
            &&& second < 60
            &&& within_a_day(
                universal_seconds(
                    year as int,
                    month as int,
                    day as int,
                    hour as int,
                    minute as int,
                    second as int,
                ),
                s as int,
            )
        },
{
    let date = chrono::NaiveDate::from_ymd_opt(year.into(), month.into(), day.into())?;
    let at = date.and_hms_opt(hour.into(), minute.into(), second.into())?;
    at.and_local_timezone(chrono::Local).earliest().map(|t| t.timestamp())
}

/// The start of 2000, in seconds after the start of 1970: what stands in for a
/// timestamp that names no instant.
pub const DEFAULT_INSTANT: i64 = 946684800;

/// The instant to report for a timestamp, given the one it names, if any.
pub fn reported_instant(named: Option<i64>) -> (seconds: i64)
    ensures
        seconds == (match named {
            Some(s) => s,
            None => 946684800,
        }),
{
    match named {
        Some(seconds) => seconds,
        None => DEFAULT_INSTANT,
    }
}

/// Whether the local clock, asked for what it shows at an instant, gives an
/// answer.
pub closed spec fn is_shown_by_clock(seconds: i64, reading: Option<ClockReading>) -> bool {
    call_ensures(local_clock_at, (seconds,), reading)
}

/// Whether the local clock, asked for the time, gives an answer.
pub closed spec fn is_told_by_clock(reading: ClockReading) -> bool {
    call_ensures(read_local_clock, (), reading)
}

impl DateTime {
    /// Break a wall-clock instant, given in seconds after the start of 1970,
    /// down the way a timestamp stores it.
    ///
    /// FATX has no time zone of its own: the consoles write local time, so that
    /// is what an incoming instant is converted to. Only one in a year that is
    /// out of all reach has no timestamp.
    pub fn from_instant(seconds: i64) -> (dt: Option<Self>)
        ensures
            dt is Some <==> is_reached(seconds as int),
            dt matches Some(dt) ==> {
                &&& dt.in_range()
                &&& exists|reading: ClockReading| #[trigger]
                    reading.may_be_shown_at(seconds as int) && is_shown_by_clock(
                        seconds,
                        Some(reading),
                    ) && dt.fields() == reading.stamped()
            },
    {
        let clock = local_clock_at;
        let shown: Option<ClockReading> = clock(seconds);
        assert(is_shown_by_clock(seconds, shown));
        match shown {
            Some(reading) => {
                assert(reading.may_be_shown_at(seconds as int));
                Some(Self::from_clock(&reading))
            },
            None => None,
        }
    }

    /// Whether the fields are those of a day and a time of day that exist.
    pub open spec fn on_calendar(self) -> bool {
        let (year, month, day, hour, minute, second) = self.fields();
        &&& 1 <= month <= 12
        &&& 1 <= day <= days_in_month(year as int, month as int)
        &&& hour < 24
        &&& minute < 60
        &&& second < 60
    }

    /// The instant this timestamp names in universal time.
    pub open spec fn universal(self) -> int {
        let (year, month, day, hour, minute, second) = self.fields();
        universal_seconds(
            year as int,
            month as int,
            day as int,
            hour as int,
            minute as int,
            second as int,
        )
    }

    /// Whether the local clock, asked for the instant it shows these fields at,
    /// gives an answer.
    pub closed spec fn is_named_by_clock(self, named: Option<i64>) -> bool {
        call_ensures(local_instant, self.fields(), named)
    }

    /// The instant this timestamp names, in seconds after the start of 1970.
    ///
    /// The stamps hold local wall-clock time, so they are read in the local
    /// zone. One that names no instant is reported as the start of 2000.
    pub fn to_instant(&self) -> (seconds: i64)
        ensures
            !self.on_calendar() ==> seconds == DEFAULT_INSTANT,
            seconds == DEFAULT_INSTANT || within_a_day(self.universal(), seconds as int),
            exists|named: Option<i64>| #[trigger]
                self.is_named_by_clock(named) && seconds == (match named {
                    Some(s) => s,
                    None => DEFAULT_INSTANT,
                }),
    {
        let clock = local_instant;
        let named: Option<i64> = clock(
            self.year(),
            self.month(),
            self.day(),
            self.hour(),
            self.minute(),
            self.second(),
        );
        assert(self.is_named_by_clock(named));
        reported_instant(named)
    }

    pub closed spec fn spec_date(self) -> Date {
        self.date
    }

    pub closed spec fn spec_time(self) -> Time {
        self.time
    }

    pub open spec fn fields(self) -> (u16, u8, u8, u8, u8, u8) {
        (
            self.spec_date().spec_year(),
            self.spec_date().spec_month(),
            self.spec_date().spec_day(),
            self.spec_time().spec_hour(),
            self.spec_time().spec_minute(),
            self.spec_time().spec_second(),
        )
    }

    /// A packed timestamp, as a (date, time) pair.
    pub open spec fn packed(self, variant: Variant) -> (u16, u16) {
        (self.spec_date().packed(variant), self.spec_time().packed(variant))
    }

    /// Whether a packed timestamp names this instant.
    pub open spec fn unpacks_from(self, date: u16, time: u16, variant: Variant) -> bool {
        &&& self.spec_date().unpacks_from(date, variant)
        &&& self.spec_time().unpacks_from(time, variant)
    }

    /// Unpack a timestamp from its on-disk form.
    pub fn from_fatx_encoding(date_encoded: u16, time_encoded: u16, variant: Variant) -> (dt: Self)
        ensures
            dt.unpacks_from(date_encoded, time_encoded, variant),
    {
        Self {
            date: Date::from_fatx_encoding(date_encoded, variant),
            time: Time::from_fatx_encoding(time_encoded, variant),
        }
    }

    /// Build a timestamp from broken-down local time, where 1 = January.
    pub fn new(year: u16, month: u8, day: u8, hour: u8, minute: u8, second: u8) -> (dt: Self)
        ensures
            dt.fields() == (year, month, day, hour, minute, second),
    {
        Self { date: Date { year, month, day }, time: Time { hour, minute, second } }
    }

    /// The timestamp of a clock reading. A year past what the field holds
    /// keeps its low sixteen bits.
    pub fn from_clock(now: &ClockReading) -> (dt: Self)
        requires
            now.in_range(),
        ensures
            dt.fields() == now.stamped(),
    {
        let y: i32 = now.year;
        let year: u16 = #[verifier::truncate] (y as u16);
        assert(year == (y as int % 65536) as u16) by {
            assert((#[verifier::truncate] (y as u16)) as int == y as int % 65536) by (bit_vector);
        }
        Self::new(
            year,
            now.month as u8,
            now.day as u8,
            now.hour as u8,
            now.minute as u8,
            now.second as u8,
        )
    }

    /// Whether every field below the year is one a calendar or a clock has.
    pub open spec fn in_range(self) -> bool {
        let (_, month, day, hour, minute, second) = self.fields();
        &&& 1 <= month <= 12
        &&& 1 <= day <= 31
        &&& hour < 24
        &&& minute < 60
        &&& second < 60
    }

    /// Whether this is what the local clock, asked for the time, may have told.
    pub open spec fn is_present(self) -> bool {
        exists|reading: ClockReading| #[trigger]
            is_told_by_clock(reading) && self.fields() == reading.stamped()
    }

    /// The current local time.
    ///
    /// FATX timestamps are local wall-clock time with no time zone of their
    /// own, which is what the consoles themselves write.
    pub fn now() -> (dt: Self)
        ensures
            dt.in_range(),
            dt.is_present(),
            exists|reading: ClockReading| #[trigger]
                reading.on_calendar() && is_told_by_clock(reading) && dt.fields()
                    == reading.stamped(),
    {
        let clock = read_local_clock;
        let reading: ClockReading = clock();
        assert(reading.on_calendar());
        assert(is_told_by_clock(reading));
        Self::from_clock(&reading)
    }

    /// Pack this timestamp into its on-disk form, as a (date, time) pair.
    pub fn to_fatx_encoding(&self, variant: Variant) -> (encoded: (u16, u16))
        ensures
            encoded == self.packed(variant),
    {
        (self.date.to_fatx_encoding(variant), self.time.to_fatx_encoding(variant))
    }

    pub fn year(&self) -> (year: u16)
        ensures
            year == self.fields().0,
    {
        self.date.year
    }

    /// Returns the month, where 1 = January
    pub fn month(&self) -> (month: u8)
        ensures
            month == self.fields().1,
    {
        self.date.month
    }

    pub fn day(&self) -> (day: u8)
        ensures
            day == self.fields().2,
    {
        self.date.day
    }

    pub fn hour(&self) -> (hour: u8)
        ensures
            hour == self.fields().3,
    {
        self.time.hour
    }

    pub fn minute(&self) -> (minute: u8)
        ensures
            minute == self.fields().4,
    {
        self.time.minute
    }

    pub fn second(&self) -> (second: u8)
        ensures
            second == self.fields().5,
    {
        self.time.second
    }
}

/// A timestamp is reported as the instant the local clock shows it at, whichever
/// timestamp it is: where that is the only answer the clock can give, it is what
/// comes out, and the start of 2000 comes out where the clock can only answer that
/// there is none.
pub proof fn law_a_timestamp_is_reported_as_the_clock_names_it(
    dt: DateTime,
    named: Option<i64>,
    seconds: i64,
)
    requires
        call_ensures(DateTime::to_instant, (&dt,), seconds),
        forall|other: Option<i64>| #[trigger] dt.is_named_by_clock(other) ==> other == named,
    ensures
        named matches Some(s) ==> seconds == s,
        named is None ==> seconds == 946684800,
{
}

/// A timestamp of an instant has the fields the local clock shows at it, where
/// that is the only reading the clock can give, and where its year fits.
pub proof fn law_an_instant_is_stamped_as_the_clock_shows_it(
    seconds: i64,
    reading: ClockReading,
    dt: Option<DateTime>,
)
    requires
        call_ensures(DateTime::from_instant, (seconds,), dt),
        is_reached(seconds as int),
        0 <= reading.year <= 65535,
        forall|other: ClockReading| #[trigger]
            is_shown_by_clock(seconds, Some(other)) ==> other == reading,
    ensures
        dt is Some,
        ({
            let (year, month, day, hour, minute, second) = dt->0.fields();
            &&& year == reading.year
            &&& month == reading.month
            &&& day == reading.day
            &&& hour == reading.hour
            &&& minute == reading.minute
            &&& second == reading.second
        }),
{
}

/// The current time has the fields the local clock tells, where that is the only
/// reading it can give, and where its year fits.
pub proof fn law_now_is_what_the_clock_tells(reading: ClockReading, dt: DateTime)
    requires
        call_ensures(DateTime::now, (), dt),
        0 <= reading.year <= 65535,
        forall|other: ClockReading| #[trigger] is_told_by_clock(other) ==> other == reading,
    ensures
        ({
            let (year, month, day, hour, minute, second) = dt.fields();
            &&& year == reading.year
            &&& month == reading.month
            &&& day == reading.day
            &&& hour == reading.hour
            &&& minute == reading.minute
            &&& second == reading.second
        }),
{
}

/// The local clock is asked for the very fields of a timestamp, for the very instant that
/// is to be stamped, and for the time: what counts as its answer is what came back from
/// that, and nothing else.
pub(crate) proof fn law_what_the_clock_answers_is_what_it_was_asked(
    dt: DateTime,
    named: Option<i64>,
    seconds: i64,
    shown: Option<ClockReading>,
    told: ClockReading,
)
    ensures
        dt.is_named_by_clock(named) <==> call_ensures(local_instant, dt.fields(), named),
        is_shown_by_clock(seconds, shown) <==> call_ensures(local_clock_at, (seconds,), shown),
        is_told_by_clock(told) <==> call_ensures(read_local_clock, (), told),
{
}

/// Whether a timestamp loses nothing when it is packed: its year is within the
/// window the epoch opens, its second is even, and every other field fits.
pub open spec fn representable(dt: DateTime, variant: Variant) -> bool {
    let (year, month, day, hour, minute, second) = dt.fields();
    let (hours, minutes) = Time::field_sizes(variant);
    &&& variant.spec_epoch() <= year < variant.spec_epoch() + 128
    &&& month < 16
    &&& day < 32
    &&& hour < hours
    &&& minute < minutes
    &&& second < 64
    &&& second % 2 == 0
}

proof fn lemma_date_fields(day: int, month: int, years: int)
    requires
        0 <= day < 32,
        0 <= month < 16,
        0 <= years < 128,
    ensures
        ({
            let date = day + month * 32 + years * 512;
            &&& date < 65536
            &&& date / 512 == years
            &&& date / 32 % 16 == month
            &&& date % 32 == day
            &&& years % 128 == years
            &&& month % 16 == month
            &&& day % 32 == day
        }),
{
}

proof fn lemma_time_fields(hour: int, minute: int, half: int)
    requires
        0 <= hour < 32,
        0 <= minute < 64,
        0 <= half < 32,
    ensures
        ({
            let time = hour * 2048 + minute * 32 + half;
            &&& time < 65536
            &&& time / 2048 == hour
            &&& time / 32 == hour * 64 + minute
            &&& time / 32 % 64 == minute
            &&& minute < 32 ==> time / 32 % 32 == minute
            &&& hour < 16 ==> time / 2048 % 16 == hour
            &&& time / 2048 % 32 == hour
            &&& time % 32 == half
            &&& half % 32 == half
            &&& hour % 32 == hour
            &&& minute % 64 == minute
        }),
{
}

/// A timestamp that fits the fields of a variant comes back unchanged after
/// being packed and unpacked.
pub proof fn law_timestamp_round_trips(dt: DateTime, back: DateTime, variant: Variant)
    requires
        representable(dt, variant),
        back.unpacks_from(dt.packed(variant).0, dt.packed(variant).1, variant),
    ensures
        back == dt,
{
    let (year, month, day, hour, minute, second) = dt.fields();
    lemma_date_fields(day as int, month as int, year - variant.spec_epoch());
    lemma_time_fields(hour as int, minute as int, second as int / 2);
    if variant is X360 {
    } else {
        assert(hour as int % 16 == hour);
        assert(minute as int % 32 == minute);
    }
}

/// On an Xbox 360 disk every bit of a packed timestamp means something, so
/// unpacking and packing again gives back the very same bits.
pub proof fn law_x360_packing_loses_no_bits(date: u16, time: u16, dt: DateTime)
    requires
        dt.unpacks_from(date, time, Variant::X360),
    ensures
        dt.packed(Variant::X360) == (date, time),
{
    let (d, t) = (date as int, time as int);
    assert(d == d % 32 + d / 32 % 16 * 32 + d / 512 * 512);
    assert(t == t / 2048 * 2048 + t / 32 % 64 * 32 + t % 32);
    lemma_date_fields(d % 32, d / 32 % 16, d / 512);
    lemma_time_fields(t / 2048, t / 32 % 64, t % 32);
    let (year, month, day, hour, minute, second) = dt.fields();
    assert((year - 1980) % 128 == d / 512);
    assert(month % 16 == d / 32 % 16 && day % 32 == d % 32);
    assert(hour as int % 32 == t / 2048 && minute as int % 64 == t / 32 % 64);
    assert(second as int / 2 % 32 == t % 32);
}

} // verus!
