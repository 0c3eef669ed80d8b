//! Dates and times: reading the bounds of a range, their order, and their texts.

use vstd::prelude::*;
use vstd::string::StringExecFns;
use crate::text::{law_trim_keeps_inside, quoted, quoted_text, trim, trimmed, white_space};

verus! {

/// A point in time, in UTC: the seconds since 1970-01-01 00:00:00 and the nanoseconds
/// within the second. Within a leap second the nanoseconds go on beyond a whole second.
#[derive(Clone, Copy, Debug, PartialEq, Eq, Structural)]
pub struct Moment {
    pub secs: i64,
    pub nanos: u32,
}

impl View for Moment {
    type V = (int, int);

    open spec fn view(&self) -> (int, int) {
        (self.secs as int, self.nanos as int)
    }
}

/// The days, counted from 1970-01-01, of the years -262143 to 262142.
pub open spec fn calendar_day(d: int) -> bool {
    -96465292 <= d <= 95026236
}

/// A moment on one of those days. Only the last second of a minute can be a leap second.
pub open spec fn valid_moment(m: (int, int)) -> bool {
    &&& calendar_day(m.0 / 86400)
    &&& 0 <= m.1 < 2_000_000_000
    &&& m.1 >= 1_000_000_000 ==> m.0 % 60 == 59
}

/// Whether one moment comes before another.
pub open spec fn earlier(a: (int, int), b: (int, int)) -> bool {
    a.0 < b.0 || (a.0 == b.0 && a.1 < b.1)
}

/// The milliseconds since 1970-01-01 00:00:00, rounded down.
pub open spec fn millis_of(m: (int, int)) -> int {
    m.0 * 1000 + m.1 / 1_000_000
}

/// The first moment of a day.
pub open spec fn day_start(d: int) -> (int, int) {
    (d * 86400, 0)
}

/// The last millisecond of a day.
pub open spec fn day_end(d: int) -> (int, int) {
    (d * 86400 + 86399, 999_000_000)
}

/// The model of a moment that may be missing.
pub open spec fn moment_view(m: Option<Moment>) -> Option<(int, int)> {
    match m {
        Some(x) => Some(x@),
        None => None,
    }
}

/// The moment that `chrono::DateTime::parse_from_rfc3339` reads in a text, in UTC.
pub uninterp spec fn rfc3339_reading(s: Seq<char>) -> Option<(int, int)>;

/// `chrono::DateTime::parse_from_rfc3339`, brought to UTC: the moment that a text in
/// the form of RFC 3339 names, or `None` where it names none. The result depends on
/// the text alone and is a moment of chrono's calendar; which texts are read, and as
/// what, is named, not stated.
#[verifier::external_body]
fn read_rfc3339(s: &str) -> (m: Option<Moment>)
    ensures
        moment_view(m) == rfc3339_reading(s@),
        m matches Some(x) ==> valid_moment(x@),
{
    match chrono::DateTime::parse_from_rfc3339(s) {
        Ok(zoned) => {
            let utc = zoned.with_timezone(&chrono::Utc);
            Some(Moment { secs: utc.timestamp(), nanos: utc.timestamp_subsec_nanos() })
        },
        Err(_) => None,
    }
}

/// The moment, taken as UTC, that `chrono::NaiveDateTime::parse_from_str` reads in a
/// text by a format.
pub uninterp spec fn civil_reading(s: Seq<char>, format: Seq<char>) -> Option<(int, int)>;

/// `chrono::NaiveDateTime::parse_from_str`, taken as UTC: the moment that a text names
/// in the form that the format describes, or `None` where it names none. The result
/// depends on the text and the format alone and is a moment of chrono's calendar;
/// which texts are read, and as what, is named, not stated.
#[verifier::external_body]
fn read_civil(s: &str, format: &str) -> (m: Option<Moment>)
    ensures
        moment_view(m) == civil_reading(s@, format@),
        m matches Some(x) ==> valid_moment(x@),
{
    match chrono::NaiveDateTime::parse_from_str(s, format) {
        Ok(naive) => {
            let utc = chrono::TimeZone::from_utc_datetime(&chrono::Utc, &naive);
            Some(Moment { secs: utc.timestamp(), nanos: utc.timestamp_subsec_nanos() })
        },
        Err(_) => None,
    }
}

/// The day, counted from 1970-01-01, that `chrono::NaiveDate::parse_from_str` reads in
/// a text by a format.
pub uninterp spec fn date_reading(s: Seq<char>, format: Seq<char>) -> Option<int>;

/// `chrono::NaiveDate::parse_from_str`, as a day counted from 1970-01-01: the date that
/// a text names in the form that the format describes, or `None` where it names none.
/// The result depends on the text and the format alone and is a day of chrono's
/// calendar; which texts are read, and as what, is named, not stated.
#[verifier::external_body]
fn read_date(s: &str, format: &str) -> (d: Option<i32>)
    ensures
        d is Some <==> date_reading(s@, format@) is Some,
        d matches Some(x) ==> date_reading(s@, format@) == Some(x as int) && calendar_day(x as int),
{
    match chrono::NaiveDate::parse_from_str(s, format) {
        Ok(date) => Some(date.to_epoch_days()),
        Err(_) => None,
    }
}

/// What chrono's `format` makes of a moment in UTC.
pub uninterp spec fn moment_in_format(m: (int, int), format: Seq<char>) -> Seq<char>;

/// `chrono::DateTime::format` of a moment in UTC, as a text. The result depends on the
/// moment and the format alone; what it looks like is named, not stated. The format is
/// the one of the table's heading, which chrono knows.
#[verifier::external_body]
fn format_moment(m: Moment, format: &str) -> (text: String)
    requires
        valid_moment(m@),
        format@ == "%Y-%m-%d %H:%M:%S"@,
    ensures
        text@ == moment_in_format(m@, format@),
{
    chrono::DateTime::<chrono::Utc>::from_timestamp(m.secs, m.nanos).unwrap().format(format).to_string()
}

/// What chrono's `to_rfc3339` makes of a moment in UTC.
pub uninterp spec fn moment_in_rfc3339(m: (int, int)) -> Seq<char>;

/// `chrono::DateTime::to_rfc3339` of a moment in UTC. The result depends on the moment
/// alone; what it looks like is named, not stated.
#[verifier::external_body]
fn to_rfc3339(m: Moment) -> (text: String)
    requires
        valid_moment(m@),
    ensures
        text@ == moment_in_rfc3339(m@),
{
    chrono::DateTime::<chrono::Utc>::from_timestamp(m.secs, m.nanos).unwrap().to_rfc3339()
}

/// What chrono's `Display` makes of a moment in UTC.
pub uninterp spec fn moment_shown(m: (int, int)) -> Seq<char>;

/// `<chrono::DateTime<Utc> as Display>::fmt`, through `to_string`. The result depends on
/// the moment alone; what it looks like is named, not stated.
#[verifier::external_body]
fn show_moment(m: Moment) -> (text: String)
    requires
        valid_moment(m@),
    ensures
        text@ == moment_shown(m@),
{
    chrono::DateTime::<chrono::Utc>::from_timestamp(m.secs, m.nanos).unwrap().to_string()
}

impl Moment {
    /// Whether this moment comes before another.
    pub fn is_before(&self, other: &Moment) -> (b: bool)
        ensures
            b == earlier(self@, other@),
    {
        self.secs < other.secs || (self.secs == other.secs && self.nanos < other.nanos)
    }

    /// The milliseconds since 1970-01-01 00:00:00, rounded down.
    pub fn millis(&self) -> (ms: i64)
        requires
            valid_moment(self@),
        ensures
            ms == millis_of(self@),
    {
        self.secs * 1000 + (self.nanos / 1_000_000) as i64
    }

    /// The moment to the second, as the heading of a table shows it.
    pub fn to_heading(&self) -> (text: String)
        requires
            valid_moment(self@),
        ensures
            text@ == moment_in_format(self@, "%Y-%m-%d %H:%M:%S"@),
    {
        format_moment(*self, "%Y-%m-%d %H:%M:%S")
    }

    /// The moment in the form of RFC 3339.
    pub fn to_zoned(&self) -> (text: String)
        requires
            valid_moment(self@),
        ensures
            text@ == moment_in_rfc3339(self@),
    {
        to_rfc3339(*self)
    }
}

/// The first moment of a list that is there.
pub open spec fn first_read(readings: Seq<Option<(int, int)>>) -> Option<(int, int)>
    decreases readings.len(),
{
    if readings.len() == 0 {
        None
    } else if readings[0] is Some {
        readings[0]
    } else {
        first_read(readings.drop_first())
    }
}

/// What the readings of one text come to: a moment with a zone goes first, then the
/// first date with a time, and then a bare date, which means the start of that day or,
/// for the end of a range, the last millisecond of it.
pub open spec fn chosen_reading(
    zoned: Option<(int, int)>,
    civil: Seq<Option<(int, int)>>,
    day: Option<int>,
    end_of_day: bool,
) -> Option<(int, int)> {
    if zoned is Some {
        zoned
    } else if first_read(civil) is Some {
        first_read(civil)
    } else {
        match day {
            Some(d) => Some(
                if end_of_day {
                    day_end(d)
                } else {
                    day_start(d)
                },
            ),
            None => None,
        }
    }
}

/// The models of moments that may be missing.
pub open spec fn moment_views(readings: Seq<Option<Moment>>) -> Seq<Option<(int, int)>> {
    readings.map_values(|m: Option<Moment>| moment_view(m))
}

/// Chooses among the readings of one text.
pub fn choose_reading(
    zoned: Option<Moment>,
    civil: &Vec<Option<Moment>>,
    day: Option<i32>,
    end_of_day: bool,
) -> (m: Option<Moment>)
    ensures
        moment_view(m) == chosen_reading(
            moment_view(zoned),
            moment_views(civil@),
            match day {
                Some(d) => Some(d as int),
                None => None,
            },
            end_of_day,
        ),
{
    if zoned.is_some() {
        return zoned;
    }
    let ghost all = moment_views(civil@);
    let mut i: usize = 0;
    assert(all.skip(0) =~= all);
    while i < civil.len()
        invariant
            i <= civil@.len(),
            zoned is None,
            all == moment_views(civil@),
            first_read(all) == first_read(all.skip(i as int)),
        decreases civil@.len() - i,
    {
        assert(all.skip(i as int)[0] == moment_view(civil@[i as int]));
        assert(all.skip(i as int).drop_first() =~= all.skip(i + 1));
        if civil[i].is_some() {
            return civil[i];
        }
        i += 1;
    }
    match day {
        Some(d) => if end_of_day {
            Some(Moment { secs: d as i64 * 86400 + 86399, nanos: 999_000_000 })
        } else {
            Some(Moment { secs: d as i64 * 86400, nanos: 0 })
        },
        None => None,
    }
}

/// The readings of a text as a date with a time to the second or the minute, with a
/// space or a `T` between them.
pub open spec fn civil_readings(t: Seq<char>) -> Seq<Option<(int, int)>> {
    seq![
        civil_reading(t, "%Y-%m-%d %H:%M:%S"@),
        civil_reading(t, "%Y-%m-%dT%H:%M:%S"@),
        civil_reading(t, "%Y-%m-%d %H:%M"@),
        civil_reading(t, "%Y-%m-%dT%H:%M"@),
    ]
}

/// The moment that a text names as a bound of a range: white space around it does not
/// count, and the forms are RFC 3339, a date with a time to the second or the minute,
/// with a space or a `T` between them, and a bare date.
pub open spec fn bound_reading(s: Seq<char>, end_of_day: bool) -> Option<(int, int)> {
    let t = trimmed(s);
    chosen_reading(
        rfc3339_reading(t),
        civil_readings(t),
        date_reading(t, "%Y-%m-%d"@),
        end_of_day,
    )
}

/// A text that names no moment.
#[derive(Debug, PartialEq, Eq)]
pub struct DateError {
    pub input: String,
}

/// What a reader is told of a text that names no moment, given that text in quotes.
pub open spec fn unreadable_text(shown: Seq<char>) -> Seq<char> {
    "could not parse date "@ + shown
        + "; expected YYYY-MM-DD, 'YYYY-MM-DD HH:MM[:SS]' or RFC 3339"@
}

/// What a reader is told of a text that names no moment, given that text in quotes.
pub fn unreadable_message(shown: &str) -> (text: String)
    ensures
        text@ == unreadable_text(shown@),
{
    let mut text = "could not parse date ".to_owned();
    text.append(shown);
    text.append("; expected YYYY-MM-DD, 'YYYY-MM-DD HH:MM[:SS]' or RFC 3339");
    text
}

impl DateError {
    /// What a reader is told.
    pub fn message(&self) -> (text: String)
        ensures
            text@ == unreadable_text(quoted_text(self.input@)),
    {
        let q = quoted(self.input.as_str());
        unreadable_message(q.as_str())
    }
}

/// Parses YYYY-MM-DD, "YYYY-MM-DD HH:MM[:SS]" or RFC 3339 as UTC.
///
/// A bare date is widened to the start of the day, or to the last millisecond of the
/// day when `end_of_day` is set.
pub fn parse_datetime(s: &str, end_of_day: bool) -> (out: Result<Moment, DateError>)
    ensures
        out is Ok <==> bound_reading(s@, end_of_day) is Some,
        out matches Ok(m) ==> bound_reading(s@, end_of_day) == Some(m@) && valid_moment(m@),
        out matches Err(e) ==> e.input@ == trimmed(s@),
{
    let t = trim(s);
    let zoned = read_rfc3339(t.as_str());
    let mut civil: Vec<Option<Moment>> = Vec::new();
    civil.push(read_civil(t.as_str(), "%Y-%m-%d %H:%M:%S"));
    civil.push(read_civil(t.as_str(), "%Y-%m-%dT%H:%M:%S"));
    civil.push(read_civil(t.as_str(), "%Y-%m-%d %H:%M"));
    civil.push(read_civil(t.as_str(), "%Y-%m-%dT%H:%M"));
    let day = read_date(t.as_str(), "%Y-%m-%d");
    let m = choose_reading(zoned, &civil, day, end_of_day);
    proof {
        let readings = civil_readings(trimmed(s@));
        assert(moment_views(civil@) =~= readings);
        assert forall|i: int| 0 <= i < readings.len() && (#[trigger] readings[i]) is Some implies
            valid_moment(readings[i]->0) by {
            assert(readings[i] == moment_view(civil@[i]));
        }
        lemma_first_valid(readings);
        if let Some(d) = day {
            assert((d * 86400) / 86400 == d);
            assert((d * 86400 + 86399) / 86400 == d);
        }
    }
    match m {
        Some(x) => Ok(x),
        None => Err(DateError { input: t }),
    }
}

proof fn lemma_first_valid(readings: Seq<Option<(int, int)>>)
    requires
        forall|i: int|
            0 <= i < readings.len() && (#[trigger] readings[i]) is Some ==> valid_moment(
                readings[i]->0,
            ),
    ensures
        first_read(readings) matches Some(m) ==> valid_moment(m),
    decreases readings.len(),
{
    if readings.len() > 0 && readings[0] is None {
        let rest = readings.drop_first();
        assert forall|i: int| 0 <= i < rest.len() && (#[trigger] rest[i]) is Some implies
            valid_moment(rest[i]->0) by {
            assert(rest[i] == readings[i + 1]);
        }
        lemma_first_valid(rest);
    }
}

/// Why two texts are no range.
#[derive(Debug, PartialEq, Eq)]
pub enum RangeError {
    /// One of the texts names no moment.
    Unreadable(DateError),
    /// The end comes before the start.
    Backwards { start: Moment, end: Moment },
}

/// What a reader is told of an end before the start, given the texts of the two.
pub open spec fn backwards_text(first: Seq<char>, last: Seq<char>) -> Seq<char> {
    "--end ("@ + last + ") is before --start ("@ + first + ")"@
}

/// What a reader is told of an end before the start, given the texts of the two.
pub fn backwards_message(first: &str, last: &str) -> (text: String)
    ensures
        text@ == backwards_text(first@, last@),
{
    let mut text = "--end (".to_owned();
    text.append(last);
    text.append(") is before --start (");
    text.append(first);
    text.append(")");
    text
}

impl RangeError {
    /// What a reader is told.
    pub fn message(&self) -> (text: String)
        requires
            self matches RangeError::Backwards { start, end } ==> valid_moment(start@)
                && valid_moment(end@),
        ensures
            self matches RangeError::Unreadable(e) ==> text@ == unreadable_text(
                quoted_text(e.input@),
            ),
            self matches RangeError::Backwards { start, end } ==> text@ == backwards_text(
                moment_shown(start@),
                moment_shown(end@),
            ),
    {
        match self {
            RangeError::Unreadable(e) => e.message(),
            RangeError::Backwards { start, end } => {
                let first = show_moment(*start);
                let last = show_moment(*end);
                backwards_message(first.as_str(), last.as_str())
            },
        }
    }
}

/// A range of two moments, unless the end comes before the start.
pub fn range_between(start: Moment, end: Moment) -> (out: Result<(Moment, Moment), RangeError>)
    ensures
        out == if earlier(end@, start@) {
            Err::<(Moment, Moment), RangeError>(RangeError::Backwards { start, end })
        } else {
            Ok((start, end))
        },
{
    if end.is_before(&start) {
        Err(RangeError::Backwards { start, end })
    } else {
        Ok((start, end))
    }
}

/// The range that two texts name, both ends included. Where both are at fault, the
/// start is reported.
pub fn date_range(start: &str, end: &str) -> (out: Result<(Moment, Moment), RangeError>)
    ensures
        match (bound_reading(start@, false), bound_reading(end@, true)) {
            (Some(a), Some(b)) => if earlier(b, a) {
                &&& out matches Err(RangeError::Backwards { start: x, end: y })
                &&& x@ == a
                &&& y@ == b
                &&& valid_moment(a)
                &&& valid_moment(b)
            } else {
                &&& out matches Ok((x, y))
                &&& x@ == a
                &&& y@ == b
                &&& valid_moment(a)
                &&& valid_moment(b)
            },
            (None, _) => out matches Err(RangeError::Unreadable(e)) && e.input@ == trimmed(start@),
            (_, None) => out matches Err(RangeError::Unreadable(e)) && e.input@ == trimmed(end@),
        },
{
    match parse_datetime(start, false) {
        Ok(a) => match parse_datetime(end, true) {
            Ok(b) => range_between(a, b),
            Err(e) => Err(RangeError::Unreadable(e)),
        },
        Err(e) => Err(RangeError::Unreadable(e)),
    }
}

/// Whether a stored time, in milliseconds since 1970-01-01 00:00:00, lies in a range.
pub open spec fn in_range(ms: int, start: (int, int), end: (int, int)) -> bool {
    millis_of(start) <= ms <= millis_of(end)
}

/// The day that a text names without a time, counted from 1970-01-01.
pub open spec fn bare_date(s: Seq<char>) -> Option<int> {
    let t = trimmed(s);
    if rfc3339_reading(t) is None && first_read(civil_readings(t)) is None {
        date_reading(t, "%Y-%m-%d"@)
    } else {
        None
    }
}

/// A range of two bare dates covers exactly its days, from the first millisecond of the
/// first to the last millisecond of the last.
pub proof fn law_bare_dates_cover_whole_days(start: Seq<char>, end: Seq<char>, ms: int)
    ensures
        bare_date(start) matches Some(first) ==> bare_date(end) matches Some(last) ==> {
            &&& bound_reading(start, false) == Some(day_start(first))
            &&& bound_reading(end, true) == Some(day_end(last))
            &&& in_range(ms, day_start(first), day_end(last)) <==> first <= ms / 86_400_000 <= last
        },
{
}

/// A range includes both its ends. Left out is a start within a leap second whose
/// milliseconds run past an end in the second after it.
pub proof fn law_range_includes_its_ends(start: (int, int), end: (int, int))
    requires
        valid_moment(start),
        valid_moment(end),
        !earlier(end, start),
        !(end.0 == start.0 + 1 && end.1 / 1_000_000 + 1000 < start.1 / 1_000_000),
    ensures
        in_range(millis_of(start), start, end),
        in_range(millis_of(end), start, end),
{
}

/// The model of a moment holds its seconds and its nanoseconds, and those of a list
/// stand where the moments stand.
pub proof fn law_moment_models_are_faithful(m: Moment, readings: Seq<Option<Moment>>, i: int)
    ensures
        m@.0 == m.secs,
        m@.1 == m.nanos,
        moment_view(Some(m)) == Some(m@),
        moment_view(None) is None,
        moment_views(readings).len() == readings.len(),
        0 <= i < readings.len() ==> (readings[i] matches Some(x) ==> moment_views(readings)[i]
            == Some(x@)),
        0 <= i < readings.len() ==> (readings[i] is None ==> moment_views(readings)[i] is None),
{
}

/// Moments are ordered by their seconds, and within a second by their nanoseconds.
pub proof fn law_moment_order(a: (int, int), b: (int, int))
    ensures
        a.0 < b.0 ==> earlier(a, b) && !earlier(b, a),
        a.0 == b.0 ==> (earlier(a, b) <==> a.1 < b.1),
{
}

/// The milliseconds of a moment are the last whole millisecond at or before it.
pub proof fn law_millis_round_down(m: (int, int))
    ensures
        millis_of(m) * 1_000_000 <= m.0 * 1_000_000_000 + m.1,
        m.0 * 1_000_000_000 + m.1 < (millis_of(m) + 1) * 1_000_000,
{
}

/// The valid moments are the seconds of the days from -96465292 to 95026236, each with
/// any nanoseconds of that second, and in the last second of a minute with those of a
/// leap second.
pub proof fn law_calendar_is_whole(m: (int, int))
    ensures
        valid_moment(m) <==> -96465292 * 86400 <= m.0 < 95026237 * 86400 && (0 <= m.1
            < 1_000_000_000 || (m.0 % 60 == 59 && 0 <= m.1 < 2_000_000_000)),
{
}

/// A reading with a zone is taken as it is; without one, the first date with a time that
/// could be read is taken as it is, for the start and the end of a range alike; and only
/// without either, a day is widened to its first moment or its last millisecond.
pub proof fn law_reading_taken_as_it_is(
    zoned: Option<(int, int)>,
    civil: Seq<Option<(int, int)>>,
    day: Option<int>,
    end_of_day: bool,
    i: int,
)
    ensures
        zoned is Some ==> chosen_reading(zoned, civil, day, end_of_day) == zoned,
        zoned is None && 0 <= i < civil.len() && civil[i] is Some && (forall|j: int|
            0 <= j < i ==> (#[trigger] civil[j]) is None) ==> chosen_reading(
            zoned,
            civil,
            day,
            end_of_day,
        ) == civil[i],
        zoned is None && (forall|j: int| 0 <= j < civil.len() ==> (#[trigger] civil[j]) is None)
            ==> {
            &&& day is None ==> chosen_reading(zoned, civil, day, end_of_day) is None
            &&& day matches Some(d) ==> {
                &&& chosen_reading(zoned, civil, day, false) == Some((86400 * d, 0int))
                &&& chosen_reading(zoned, civil, day, true) == Some(
                    (86400 * d + 86399, 999_000_000int),
                )
            }
        },
{
    if forall|j: int| 0 <= j < civil.len() ==> (#[trigger] civil[j]) is None {
        lemma_first_read(civil, civil.len() as int);
    } else if 0 <= i < civil.len() && forall|j: int|
        0 <= j < i ==> (#[trigger] civil[j]) is None {
        lemma_first_read(civil, i);
    }
}

proof fn lemma_first_read(readings: Seq<Option<(int, int)>>, i: int)
    requires
        0 <= i <= readings.len(),
        forall|j: int| 0 <= j < i ==> (#[trigger] readings[j]) is None,
    ensures
        i < readings.len() && readings[i] is Some ==> first_read(readings) == readings[i],
        i == readings.len() ==> first_read(readings) is None,
    decreases i,
{
    if i > 0 {
        let rest = readings.drop_first();
        assert(readings[0] is None);
        assert forall|j: int| 0 <= j < i - 1 implies (#[trigger] rest[j]) is None by {
            assert(rest[j] == readings[j + 1]);
        }
        lemma_first_read(rest, i - 1);
    }
}

/// What a text means as a bound: the moment that it names in the form of RFC 3339; or
/// else the one that it names by the first of the four forms of a date with a time; or
/// else the start, or the last millisecond, of the day that it names; or else nothing.
/// A named moment is not changed, and is the same for the start and the end of a range.
pub proof fn law_bound_is_what_text_names(s: Seq<char>, end_of_day: bool)
    ensures
        ({
            let t = trimmed(s);
            let bound = bound_reading(s, end_of_day);
            let zoned = rfc3339_reading(t);
            let spaced = civil_reading(t, "%Y-%m-%d %H:%M:%S"@);
            let joined = civil_reading(t, "%Y-%m-%dT%H:%M:%S"@);
            let spaced_short = civil_reading(t, "%Y-%m-%d %H:%M"@);
            let joined_short = civil_reading(t, "%Y-%m-%dT%H:%M"@);
            let untimed = zoned is None && spaced is None && joined is None && spaced_short is None
                && joined_short is None;
            &&& zoned is Some ==> bound == zoned
            &&& zoned is None && spaced is Some ==> bound == spaced
            &&& zoned is None && spaced is None && joined is Some ==> bound == joined
            &&& zoned is None && spaced is None && joined is None && spaced_short is Some ==> bound
                == spaced_short
            &&& zoned is None && spaced is None && joined is None && spaced_short is None
                && joined_short is Some ==> bound == joined_short
            &&& untimed ==> match date_reading(t, "%Y-%m-%d"@) {
                Some(d) => bound == Some(
                    if end_of_day {
                        (86400 * d + 86399, 999_000_000int)
                    } else {
                        (86400 * d, 0int)
                    },
                ),
                None => bound is None,
            }
            &&& !untimed ==> bound_reading(s, true) == bound_reading(s, false)
        }),
{
    let civil = civil_readings(trimmed(s));
    reveal_with_fuel(first_read, 6);
    assert(civil.drop_first()[0] == civil[1]);
    assert(civil.drop_first().drop_first()[0] == civil[2]);
    assert(civil.drop_first().drop_first().drop_first()[0] == civil[3]);
    assert(civil.drop_first().drop_first().drop_first().drop_first().len() == 0);
}

/// White space around a text does not change what it means as a bound.
pub proof fn law_space_around_dates_ignored(
    before: Seq<char>,
    s: Seq<char>,
    after: Seq<char>,
    end_of_day: bool,
)
    requires
        forall|i: int| 0 <= i < before.len() ==> white_space(#[trigger] before[i]),
        forall|i: int| 0 <= i < after.len() ==> white_space(#[trigger] after[i]),
        s.len() > 0,
        !white_space(s[0]),
        !white_space(s.last()),
    ensures
        bound_reading(before + s + after, end_of_day) == bound_reading(s, end_of_day),
{
    let none = Seq::<char>::empty();
    law_trim_keeps_inside(before, s, after);
    law_trim_keeps_inside(none, s, none);
    assert(none + s + none =~= s);
}

/// The messages hold the texts that they are about, whole, in fixed surroundings.
pub proof fn law_date_messages(shown: Seq<char>, first: Seq<char>, last: Seq<char>)
    ensures
        unreadable_text(shown) == "could not parse date "@ + shown
            + "; expected YYYY-MM-DD, 'YYYY-MM-DD HH:MM[:SS]' or RFC 3339"@,
        backwards_text(first, last) == "--end ("@ + last + ") is before --start ("@ + first + ")"@,
{
}

} // verus!
