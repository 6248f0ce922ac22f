//! Timestamps, time ranges and the cutting of time into ranges of equal length.
use crate::error::{Error, ErrorView, SchemaError};
use crate::text::{decimal, push_decimal_i64};
use chrono::{Duration, DurationRound, NaiveDateTime, RoundingError};
use vstd::arithmetic::div_mod::{
    lemma_fundamental_div_mod, lemma_fundamental_div_mod_converse, lemma_mod_bound,
    lemma_mod_multiples_basic,
};
use vstd::prelude::*;

verus! {

/// A point in time: nanoseconds since the Unix epoch.
pub type Timestamp = i64;

/// The number of nanoseconds in a second.
pub const NANOS_PER_SEC: i64 = 1_000_000_000;

/// The length of a time range where the database has no time to live: five minutes.
pub const DEFAULT_TIME_RANGE_NANOS: i64 = 300_000_000_000;

/// A range of time.
#[derive(Debug, Clone, Copy, PartialEq, Eq, Structural, Default)]
pub struct TimeRange {
    pub min_ts: Timestamp,
    pub max_ts: Timestamp,
}

impl TimeRange {
    pub fn new(min_ts: Timestamp, max_ts: Timestamp) -> (range: Self)
        ensures
            range == (TimeRange { min_ts, max_ts }),
    {
        TimeRange { min_ts, max_ts }
    }

    /// The order of time ranges: by their start, then by their end.
    pub open spec fn before(self, other: TimeRange) -> bool {
        self.min_ts < other.min_ts || (self.min_ts == other.min_ts && self.max_ts < other.max_ts)
    }

    /// Whether this range comes before the other one.
    pub fn is_before(&self, other: &TimeRange) -> (res: bool)
        ensures
            res == self.before(*other),
    {
        self.min_ts < other.min_ts || (self.min_ts == other.min_ts && self.max_ts < other.max_ts)
    }
}

/// A calendar time: whole seconds since the Unix epoch, and the nanoseconds on top of them.
#[derive(Debug, Clone, Copy)]
pub struct CalendarTime {
    pub secs: i64,
    pub nsecs: u32,
}

impl CalendarTime {
    /// The time in nanoseconds since the Unix epoch.
    pub open spec fn nanos(self) -> int {
        self.secs * NANOS_PER_SEC + self.nsecs
    }

    /// Whether the seconds are those of some timestamp and the nanoseconds are below a second.
    pub open spec fn wf(self) -> bool {
        &&& secs_of_timestamps(self.secs)
        &&& self.nsecs < NANOS_PER_SEC
    }
}

/// Why a time could not be cut down to a multiple of a duration.
#[derive(Debug, Clone, Copy, PartialEq, Eq, Structural)]
pub enum TruncError {
    DurationExceedsTimestamp,
    DurationExceedsLimit,
    TimestampExceedsLimit,
}

impl TruncError {
    /// The name of the error.
    pub open spec fn name(self) -> Seq<char> {
        match self {
            TruncError::DurationExceedsTimestamp => "DurationExceedsTimestamp"@,
            TruncError::DurationExceedsLimit => "DurationExceedsLimit"@,
            TruncError::TimestampExceedsLimit => "TimestampExceedsLimit"@,
        }
    }

    fn text(&self) -> (text: &'static str)
        ensures
            text@ == self.name(),
    {
        match self {
            TruncError::DurationExceedsTimestamp => "DurationExceedsTimestamp",
            TruncError::DurationExceedsLimit => "DurationExceedsLimit",
            TruncError::TimestampExceedsLimit => "TimestampExceedsLimit",
        }
    }
}

/// The seconds that the truncating division of a timestamp by a second can give.
pub open spec fn secs_of_timestamps(secs: i64) -> bool {
    -9_223_372_036 <= secs <= 9_223_372_036
}

/// How `chrono` writes a calendar time.
pub uninterp spec fn naive_datetime_text(secs: i64, nsecs: u32) -> Seq<char>;

/// Calls `chrono::NaiveDateTime::from_timestamp_opt`. For the seconds of a timestamp, which are
/// all within the calendar, it gives a time exactly where the nanoseconds are below a second, or
/// below two in the last second of a minute, where they stand for a leap second. The time has
/// those seconds and nanoseconds.
#[verifier::external_body]
#[allow(deprecated)]
pub(crate) fn from_timestamp_opt(secs: i64, nsecs: u32) -> (time: Option<CalendarTime>)
    requires
        secs_of_timestamps(secs),
    ensures
        time is Some <==> nsecs < 1_000_000_000 || (nsecs < 2_000_000_000 && secs % 60 == 59),
        time matches Some(t) ==> t.secs == secs && t.nsecs == nsecs,
{
    match NaiveDateTime::from_timestamp_opt(secs, nsecs) {
        Some(t) => Some(CalendarTime {
            secs: t.and_utc().timestamp(),
            nsecs: t.and_utc().timestamp_subsec_nanos(),
        }),
        None => None,
    }
}

/// Calls `chrono::NaiveDateTime::duration_trunc` with a duration in nanoseconds. A duration that
/// is not positive exceeds the limit, and so does a time whose nanoseconds since the epoch do not
/// fit in 64 bits. Any other time is cut down to the last multiple of the duration, counted from
/// the epoch, that is not after it.
#[verifier::external_body]
#[allow(deprecated)]
pub(crate) fn duration_trunc(
    time: CalendarTime,
    duration: i64,
) -> (res: Result<CalendarTime, TruncError>)
    requires
        time.wf(),
    ensures
        match res {
            Ok(t) => {
                &&& duration > 0
                &&& i64::MIN <= time.nanos() <= i64::MAX
                &&& t.nanos() == time.nanos() - time.nanos() % duration as int
                &&& t.nsecs < NANOS_PER_SEC
            },
            Err(TruncError::DurationExceedsLimit) => duration <= 0,
            Err(TruncError::TimestampExceedsLimit) => duration > 0 && !(i64::MIN <= time.nanos()
                <= i64::MAX),
            Err(TruncError::DurationExceedsTimestamp) => false,
        },
{
    let time = NaiveDateTime::from_timestamp_opt(time.secs, time.nsecs).unwrap();
    match time.duration_trunc(Duration::nanoseconds(duration)) {
        Ok(t) => Ok(CalendarTime {
            secs: t.and_utc().timestamp(),
            nsecs: t.and_utc().timestamp_subsec_nanos(),
        }),
        Err(RoundingError::DurationExceedsTimestamp) => Err(TruncError::DurationExceedsTimestamp),
        Err(RoundingError::DurationExceedsLimit) => Err(TruncError::DurationExceedsLimit),
        Err(RoundingError::TimestampExceedsLimit) => Err(TruncError::TimestampExceedsLimit),
    }
}

/// Calls `chrono::NaiveDateTime::timestamp_nanos`: the nanoseconds since the epoch, for a time
/// where they fit in 64 bits.
#[verifier::external_body]
#[allow(deprecated)]
pub(crate) fn timestamp_nanos(time: CalendarTime) -> (nanos: i64)
    requires
        time.nsecs < NANOS_PER_SEC,
        i64::MIN <= time.nanos() <= i64::MAX,
    ensures
        nanos == time.nanos(),
{
    NaiveDateTime::from_timestamp_opt(time.secs, time.nsecs).unwrap().timestamp_nanos()
}

/// Calls the `Display` of `chrono::NaiveDateTime`, and gives its text a name.
#[verifier::external_body]
#[allow(deprecated)]
pub(crate) fn display_naive_datetime(time: CalendarTime) -> (text: String)
    requires
        time.wf(),
    ensures
        text@ == naive_datetime_text(time.secs, time.nsecs),
{
    NaiveDateTime::from_timestamp_opt(time.secs, time.nsecs).unwrap().to_string()
}

/// The error for a time, given by its text, that could not be cut down.
pub open spec fn trunc_error(datetime: Seq<char>, error: TruncError) -> ErrorView {
    ErrorView::Transform {
        reason: "error truncing timestamp "@ + datetime + ": "@ + error.name(),
    }
}

/// The error for a time, given by its text, that could not be cut down.
pub fn trunc_failure(datetime: &str, error: TruncError) -> (failure: Error)
    ensures
        failure@ == trunc_error(datetime@, error),
{
    let mut reason = "error truncing timestamp ".to_owned();
    reason.append(datetime);
    reason.append(": ");
    reason.append(error.text());
    Error::Transform { reason }
}

/// The last multiple of a positive duration that is not after a timestamp.
pub open spec fn floor_to(timestamp: int, duration: int) -> int {
    timestamp - timestamp % duration
}

/// Whether a timestamp reads as a calendar time. One before the epoch does so only where it lies
/// on a whole second: elsewhere its nanoseconds on top of the seconds are negative.
pub open spec fn is_calendar_time(timestamp: Timestamp) -> bool {
    timestamp >= 0 || timestamp as int % NANOS_PER_SEC as int == 0
}

/// The range of time that a timestamp falls into, where time is cut at the multiples of
/// `time_range` and the range is `time_range_nanosecs` long.
pub open spec fn block_partial_time_range(
    timestamp: Timestamp,
    time_range: i64,
    time_range_nanosecs: i64,
) -> Result<(int, int), ErrorView> {
    if !is_calendar_time(timestamp) {
        Err(
            ErrorView::Transform {
                reason: "error parsing timestamp to NaiveDateTime: "@ + decimal(timestamp as int),
            },
        )
    } else if time_range <= 0 {
        Err(
            trunc_error(
                naive_datetime_text(
                    (timestamp as int / NANOS_PER_SEC as int) as i64,
                    (timestamp as int % NANOS_PER_SEC as int) as u32,
                ),
                TruncError::DurationExceedsLimit,
            ),
        )
    } else {
        let min_ts = floor_to(timestamp as int, time_range as int);
        Ok((min_ts, min_ts + time_range_nanosecs))
    }
}

/// Whether both ends of the range of a timestamp, if it has one, fit in 64 bits.
pub open spec fn time_range_fits(
    timestamp: Timestamp,
    time_range: i64,
    time_range_nanosecs: i64,
) -> bool {
    block_partial_time_range(timestamp, time_range, time_range_nanosecs) matches Ok((min_ts, max_ts))
        ==> i64::MIN <= min_ts && i64::MIN <= max_ts <= i64::MAX
}

/// Whether both ends of the range of a timestamp, if it has one, fit in 64 bits.
pub fn check_time_range_fits(
    timestamp: Timestamp,
    time_range: i64,
    time_range_nanosecs: i64,
) -> (fits: bool)
    ensures
        fits == time_range_fits(timestamp, time_range, time_range_nanosecs),
{
    if (timestamp < 0 && timestamp % NANOS_PER_SEC != 0) || time_range <= 0 {
        return true;
    }
    let rest: i64 = timestamp % time_range;
    let above: i64 = if rest < 0 {
        rest + time_range
    } else {
        rest
    };
    proof {
        lemma_euclidean_rest(timestamp as int, time_range as int);
    }
    let min_ts: i128 = timestamp as i128 - above as i128;
    let max_ts: i128 = min_ts + time_range_nanosecs as i128;
    i64::MIN as i128 <= min_ts && i64::MIN as i128 <= max_ts && max_ts <= i64::MAX as i128
}

/// Cuts a timestamp down to the start of its time range; the range ends `time_range_nanosecs`
/// later. `time_range` is the duration, in nanoseconds, at whose multiples time is cut.
pub fn calc_block_partial_time_range(
    timestamp: Timestamp,
    time_range: i64,
    time_range_nanosecs: i64,
) -> (res: Result<(Timestamp, Timestamp), Error>)
    requires
        time_range_fits(timestamp, time_range, time_range_nanosecs),
    ensures
        match res {
            Ok((min_ts, max_ts)) => block_partial_time_range(
                timestamp,
                time_range,
                time_range_nanosecs,
            ) == Ok::<(int, int), ErrorView>((min_ts as int, max_ts as int)),
            Err(e) => block_partial_time_range(timestamp, time_range, time_range_nanosecs) == Err::<
                (int, int),
                ErrorView,
            >(e@),
        },
{
    let secs: i64 = timestamp / NANOS_PER_SEC;
    let rest: i64 = timestamp % NANOS_PER_SEC;
    let nsecs: u32 = #[verifier::truncate] (rest as u32);
    proof {
        assert(-1_000_000_000 < rest < 0 ==> rest as u32 > 3_000_000_000) by (bit_vector);
    }
    match from_timestamp_opt(secs, nsecs) {
        Some(datetime) => {
            let min_ts = match duration_trunc(datetime, time_range) {
                Ok(date_time) => timestamp_nanos(date_time),
                Err(e) => {
                    return Err(trunc_failure(display_naive_datetime(datetime).as_str(), e));
                },
            };
            let max_ts: i64 = min_ts + time_range_nanosecs;
            Ok((min_ts, max_ts))
        },
        None => {
            let mut reason = "error parsing timestamp to NaiveDateTime: ".to_owned();
            push_decimal_i64(&mut reason, timestamp);
            Err(Error::Transform { reason })
        },
    }
}

/// What a database schema says of the length of the time ranges.
#[derive(Debug)]
pub struct DatabaseSchema {
    /// The time to live of the data in nanoseconds, where there is one.
    pub ttl_nanos: Option<i64>,
}

/// The quotient of two integers, rounded toward zero.
pub open spec fn quotient(a: int, b: int) -> int
    recommends
        b > 0,
{
    if a < 0 {
        -((-a) / b)
    } else {
        a / b
    }
}

/// The length of the time ranges of a database: a thousandth of its time to live, rounded toward
/// zero, or five minutes where it has none.
pub open spec fn default_time_range(db_schema: DatabaseSchema) -> i64 {
    match db_schema.ttl_nanos {
        Some(ttl) => quotient(ttl as int, 1000) as i64,
        None => DEFAULT_TIME_RANGE_NANOS,
    }
}

/// The length of the time ranges of a database, where its schema could be read.
pub fn get_default_time_range(
    db_schema: Result<DatabaseSchema, SchemaError>,
) -> (res: Result<i64, Error>)
    ensures
        match db_schema {
            Ok(schema) => res == Ok::<i64, Error>(default_time_range(schema)),
            Err(source) => res == Err::<i64, Error>(Error::Schema { source }),
        },
        db_schema matches Ok(DatabaseSchema { ttl_nanos: Some(ttl) }) ==> {
            &&& res matches Ok(nanos)
            &&& ttl >= 0 ==> 1000 * nanos <= ttl < 1000 * (nanos + 1)
            &&& ttl <= 0 ==> 1000 * (nanos - 1) < ttl <= 1000 * nanos
        },
        db_schema matches Ok(DatabaseSchema { ttl_nanos: None }) ==> res == Ok::<i64, Error>(
            300_000_000_000,
        ),
{
    match db_schema {
        Ok(schema) => match schema.ttl_nanos {
            Some(ttl) => Ok(ttl / 1000),
            None => Ok(DEFAULT_TIME_RANGE_NANOS),
        },
        Err(source) => Err(Error::Schema { source }),
    }
}

/// The remainder of a negative number, from that of its magnitude.
proof fn lemma_euclidean_rest(a: int, b: int)
    requires
        b > 0,
    ensures
        a < 0 && (-a) % b == 0 ==> a % b == 0,
        a < 0 && (-a) % b != 0 ==> a % b == b - (-a) % b,
{
    let q = (-a) / b;
    let r = (-a) % b;
    lemma_fundamental_div_mod(-a, b);
    lemma_mod_bound(-a, b);
    assert(b * q == q * b) by (nonlinear_arith);
    if r == 0 {
        assert((-q) * b == -(q * b)) by (nonlinear_arith);
        lemma_fundamental_div_mod_converse(a, b, -q, 0);
    } else {
        assert((-q - 1) * b == -(q * b) - b) by (nonlinear_arith);
        lemma_fundamental_div_mod_converse(a, b, -q - 1, b - r);
    }
}

/// The range of a timestamp starts at a multiple of its length, holds the timestamp, and does not
/// hold its own end.
pub proof fn law_range_holds_timestamp(timestamp: Timestamp, nanos: i64)
    requires
        is_calendar_time(timestamp),
        nanos > 0,
    ensures
        block_partial_time_range(timestamp, nanos, nanos) matches Ok((min_ts, max_ts)) && min_ts
            <= timestamp < max_ts && max_ts - min_ts == nanos && min_ts % nanos as int == 0,
{
    let t = timestamp as int;
    let n = nanos as int;
    lemma_mod_bound(t, n);
    lemma_fundamental_div_mod(t, n);
    lemma_mod_multiples_basic(t / n, n);
    assert(n * (t / n) == (t / n) * n) by (nonlinear_arith);
}

/// Any timestamp within the range of another one has the same range, so that ranges do not
/// overlap.
pub proof fn law_ranges_do_not_overlap(timestamp: Timestamp, other: Timestamp, nanos: i64)
    requires
        is_calendar_time(timestamp),
        is_calendar_time(other),
        nanos > 0,
        block_partial_time_range(timestamp, nanos, nanos) matches Ok((min_ts, max_ts)) && min_ts
            <= other < max_ts,
    ensures
        block_partial_time_range(other, nanos, nanos) == block_partial_time_range(
            timestamp,
            nanos,
            nanos,
        ),
{
    let t = timestamp as int;
    let o = other as int;
    let n = nanos as int;
    let q = t / n;
    lemma_mod_bound(t, n);
    lemma_fundamental_div_mod(t, n);
    assert(n * q == q * n) by (nonlinear_arith);
    lemma_fundamental_div_mod_converse(o, n, q, o - q * n);
}

/// A timestamp has a range exactly where it is not before the epoch, or on a whole second, and the
/// duration is positive. The range starts at the multiple of the duration that the timestamp
/// follows by less than one duration, and is as long as it is asked to be.
pub proof fn law_range_exact(timestamp: Timestamp, time_range: i64, time_range_nanosecs: i64)
    ensures
        match block_partial_time_range(timestamp, time_range, time_range_nanosecs) {
            Ok((min_ts, max_ts)) => {
                &&& timestamp >= 0 || timestamp as int % 1_000_000_000 == 0
                &&& time_range > 0
                &&& min_ts <= timestamp < min_ts + time_range
                &&& min_ts % time_range as int == 0
                &&& max_ts - min_ts == time_range_nanosecs
            },
            Err(_) => (timestamp < 0 && timestamp as int % 1_000_000_000 != 0) || time_range <= 0,
        },
{
    if is_calendar_time(timestamp) && time_range > 0 {
        law_range_holds_timestamp(timestamp, time_range);
    }
}

/// A timestamp before the epoch that is on no whole second is reported as such. With a duration
/// that is not positive, any other timestamp is reported by the calendar time that it stands for.
pub proof fn law_range_errors(
    timestamp: Timestamp,
    time_range: i64,
    time_range_nanosecs: i64,
    secs: i64,
    nsecs: u32,
)
    requires
        secs * 1_000_000_000 + nsecs == timestamp,
        nsecs < 1_000_000_000,
    ensures
        timestamp < 0 && nsecs != 0 ==> block_partial_time_range(
            timestamp,
            time_range,
            time_range_nanosecs,
        ) == Err::<(int, int), ErrorView>(
            ErrorView::Transform {
                reason: "error parsing timestamp to NaiveDateTime: "@ + decimal(timestamp as int),
            },
        ),
        (timestamp >= 0 || nsecs == 0) && time_range <= 0 ==> block_partial_time_range(
            timestamp,
            time_range,
            time_range_nanosecs,
        ) == Err::<(int, int), ErrorView>(
            ErrorView::Transform {
                reason: "error truncing timestamp "@ + naive_datetime_text(secs, nsecs) + ": "@
                    + "DurationExceedsLimit"@,
            },
        ),
{
    lemma_fundamental_div_mod_converse(timestamp as int, 1_000_000_000, secs as int, nsecs as int);
}

/// Where time can be cut, the range of a timestamp fits exactly where the start that its duration
/// gives it, and the end that follows, are 64-bit numbers. Where it cannot, there is no range that
/// would not fit.
pub proof fn law_time_range_fits(
    timestamp: Timestamp,
    time_range: i64,
    time_range_nanosecs: i64,
    min_ts: int,
)
    ensures
        timestamp < 0 && timestamp as int % 1_000_000_000 != 0 ==> time_range_fits(
            timestamp,
            time_range,
            time_range_nanosecs,
        ),
        time_range <= 0 ==> time_range_fits(timestamp, time_range, time_range_nanosecs),
        (timestamp >= 0 || timestamp as int % 1_000_000_000 == 0) && time_range > 0 && min_ts
            % time_range as int == 0 && min_ts <= timestamp < min_ts + time_range ==> (
        time_range_fits(timestamp, time_range, time_range_nanosecs) <==> -0x8000_0000_0000_0000
            <= min_ts && -0x8000_0000_0000_0000 <= min_ts + time_range_nanosecs
            <= 0x7fff_ffff_ffff_ffff),
{
    let t = timestamp as int;
    let n = time_range as int;
    if n > 0 && min_ts % n == 0 && min_ts <= t < min_ts + n {
        let q = min_ts / n;
        lemma_fundamental_div_mod(min_ts, n);
        assert(n * q == q * n) by (nonlinear_arith);
        lemma_fundamental_div_mod_converse(t, n, q, t - min_ts);
    }
}

/// The length of the time ranges is a thousandth of the time to live, rounded toward zero; the
/// five minutes come only where there is no time to live.
pub proof fn law_default_time_range(db_schema: DatabaseSchema)
    ensures
        match db_schema.ttl_nanos {
            Some(ttl) => {
                let nanos = default_time_range(db_schema);
                &&& ttl >= 0 ==> 1000 * nanos <= ttl < 1000 * (nanos + 1)
                &&& ttl <= 0 ==> 1000 * (nanos - 1) < ttl <= 1000 * nanos
            },
            None => default_time_range(db_schema) == 5 * 60 * 1_000_000_000,
        },
{
}

/// The order of time ranges is total: of two ranges that differ, exactly one comes before the
/// other; it is the one that starts first, or of two that start together the one that ends first.
pub proof fn law_order_is_total(a: TimeRange, b: TimeRange, c: TimeRange)
    ensures
        a != b <==> a.before(b) || b.before(a),
        !(a.before(b) && b.before(a)),
        a.before(b) && b.before(c) ==> a.before(c),
        a.min_ts < b.min_ts ==> a.before(b),
        a.min_ts == b.min_ts && a.max_ts < b.max_ts ==> a.before(b),
{
}

/// The error for a time that could not be cut down holds the text of the time and the reason.
pub proof fn law_trunc_error(datetime: Seq<char>, error: TruncError)
    ensures
        trunc_error(datetime, error) == (ErrorView::Transform {
            reason: "error truncing timestamp "@ + datetime + ": "@ + match error {
                TruncError::DurationExceedsTimestamp => "DurationExceedsTimestamp"@,
                TruncError::DurationExceedsLimit => "DurationExceedsLimit"@,
                TruncError::TimestampExceedsLimit => "TimestampExceedsLimit"@,
            },
        }),
{
}

} // verus!
