use vstd::prelude::*;

verus! {

/// Length of a day in seconds.
pub const SECONDS_PER_DAY: i64 = 86400;

/// Length of an average Gregorian year (365.25 days) in seconds.
pub const SECONDS_PER_YEAR: u64 = 31_557_600;

/// Length of an average month (30.44 days) in seconds.
pub const SECONDS_PER_MONTH: u64 = 2_630_016;

/// The decimal digit `d` (for `d < 10`) as a character.
pub open spec fn digit_char(d: int) -> char {
    if d == 0 {
        '0'
    } else if d == 1 {
        '1'
    } else if d == 2 {
        '2'
    } else if d == 3 {
        '3'
    } else if d == 4 {
        '4'
    } else if d == 5 {
        '5'
    } else if d == 6 {
        '6'
    } else if d == 7 {
        '7'
    } else if d == 8 {
        '8'
    } else {
        '9'
    }
}

/// The decimal notation of `n`, without leading zeros.
pub open spec fn decimal_text(n: nat) -> Seq<char>
    decreases n,
{
    if n < 10 {
        seq![digit_char(n as int)]
    } else {
        decimal_text(n / 10) + seq![digit_char((n % 10) as int)]
    }
}

/// One component of a relative duration: empty when `n` is not positive, else the
/// number, an optional space, the unit name, a plural `s` where `plural` asks for it
/// and `n > 1`, and a trailing space.
pub open spec fn unit_text(n: int, name: Seq<char>, plural: bool) -> Seq<char> {
    if n > 0 {
        decimal_text(n as nat) + (if plural {
            seq![' ']
        } else {
            Seq::empty()
        }) + name + (if n > 1 && plural {
            seq!['s']
        } else {
            Seq::empty()
        }) + seq![' ']
    } else {
        Seq::empty()
    }
}

/// The human-readable text of a duration of `secs` seconds: "just now" for zero,
/// nothing for a negative duration, else years, months, days, hours, minutes and
/// seconds, each only when positive.
pub open spec fn relative_text(secs: int) -> Seq<char> {
    if secs == 0 {
        "just now"@
    } else if secs < 0 {
        Seq::empty()
    } else {
        let years = secs / (SECONDS_PER_YEAR as int);
        let ydays = secs % (SECONDS_PER_YEAR as int);
        let months = ydays / (SECONDS_PER_MONTH as int);
        let mdays = ydays % (SECONDS_PER_MONTH as int);
        let days = mdays / 86400;
        let day_secs = mdays % 86400;
        let hours = day_secs / 3600;
        let minutes = day_secs % 3600 / 60;
        let seconds = day_secs % 60;
        unit_text(years, "year"@, true) + unit_text(months, "month"@, true) + unit_text(
            days,
            "day"@,
            true,
        ) + unit_text(hours, "h"@, false) + unit_text(minutes, "m"@, false) + unit_text(
            seconds,
            "s"@,
            false,
        )
    }
}

/// Appends the digit `d` to `s`.
fn push_digit(s: &mut String, d: u64)
    requires
        d < 10,
    ensures
        final(s)@ == old(s)@ + seq![digit_char(d as int)],
{
    proof {
        reveal_strlit("0");
        reveal_strlit("1");
        reveal_strlit("2");
        reveal_strlit("3");
        reveal_strlit("4");
        reveal_strlit("5");
        reveal_strlit("6");
        reveal_strlit("7");
        reveal_strlit("8");
        reveal_strlit("9");
    }
    if d == 0 {
        s.append("0");
    } else if d == 1 {
        s.append("1");
    } else if d == 2 {
        s.append("2");
    } else if d == 3 {
        s.append("3");
    } else if d == 4 {
        s.append("4");
    } else if d == 5 {
        s.append("5");
    } else if d == 6 {
        s.append("6");
    } else if d == 7 {
        s.append("7");
    } else if d == 8 {
        s.append("8");
    } else {
        s.append("9");
    }
    assert(final(s)@ =~= old(s)@ + seq![digit_char(d as int)]);
}

/// Appends the decimal notation of `n` to `s`.
fn push_decimal(s: &mut String, n: u64)
    ensures
        final(s)@ == old(s)@ + decimal_text(n as nat),
    decreases n,
{
    if n >= 10 {
        push_decimal(s, n / 10);
        push_digit(s, n % 10);
        assert(final(s)@ =~= old(s)@ + decimal_text(n as nat));
    } else {
        push_digit(s, n);
    }
}

/// Appends one component of a relative duration (see `unit_text`) to `s`.
fn push_unit(s: &mut String, n: u64, name: &str, plural: bool)
    ensures
        final(s)@ == old(s)@ + unit_text(n as int, name@, plural),
{
    proof {
        reveal_strlit(" ");
        reveal_strlit("s");
    }
    if n > 0 {
        push_decimal(s, n);
        if plural {
            s.append(" ");
        }
        s.append(name);
        if n > 1 && plural {
            s.append("s");
        }
        s.append(" ");
        assert(final(s)@ =~= old(s)@ + unit_text(n as int, name@, plural));
    } else {
        assert(final(s)@ =~= old(s)@ + unit_text(n as int, name@, plural));
    }
}

/// Formats a duration in seconds as text, such as `2h 46m 40s `.
pub fn format_relative(secs: i64) -> (r: String)
    ensures
        r@ == relative_text(secs as int),
{
    if secs == 0 {
        return String::from_str("just now");
    }
    let mut s = String::new();
    if secs < 0 {
        return s;
    }
    let secs = secs as u64;
    let years = secs / SECONDS_PER_YEAR;
    let ydays = secs % SECONDS_PER_YEAR;
    let months = ydays / SECONDS_PER_MONTH;
    let mdays = ydays % SECONDS_PER_MONTH;
    let days = mdays / 86400;
    let day_secs = mdays % 86400;
    let hours = day_secs / 3600;
    let minutes = day_secs % 3600 / 60;
    let seconds = day_secs % 60;
    push_unit(&mut s, years, "year", true);
    push_unit(&mut s, months, "month", true);
    push_unit(&mut s, days, "day", true);
    push_unit(&mut s, hours, "h", false);
    push_unit(&mut s, minutes, "m", false);
    push_unit(&mut s, seconds, "s", false);
    assert(s@ =~= relative_text(secs as int));
    s
}

/// The start (midnight UTC) of the day that holds the instant `secs`.
pub open spec fn day_start(secs: int) -> int {
    secs - secs % (SECONDS_PER_DAY as int)
}

/// Whether the instants `a` and `b` fall on the same UTC day.
pub open spec fn same_day(a: int, b: int) -> bool {
    day_start(a) == day_start(b)
}

/// Truncates the instant `secs` to midnight UTC of its day.
pub fn start_of_day(secs: i64) -> (r: i64)
    requires
        day_start(secs as int) >= i64::MIN,
    ensures
        r == day_start(secs as int),
{
    let rem = secs % SECONDS_PER_DAY;
    if rem >= 0 {
        secs - rem
    } else {
        secs - rem - SECONDS_PER_DAY
    }
}

/// Whether two instants fall on the same UTC day.
pub fn date_matches(a: i64, b: i64) -> (r: bool)
    requires
        day_start(a as int) >= i64::MIN,
        day_start(b as int) >= i64::MIN,
    ensures
        r == same_day(a as int, b as int),
{
    start_of_day(a) == start_of_day(b)
}

/// The days from `from` to `to`, both given as the midnight that starts them, taken
/// from either end.
#[derive(Clone, Copy, Debug, PartialEq, Eq)]
pub struct RangeDays {
    pub from: i64,
    pub to: i64,
}

impl RangeDays {
    /// The days from the one that holds `from` to the one that holds `to`.
    pub fn new(from: i64, to: i64) -> (r: RangeDays)
        requires
            day_start(from as int) >= i64::MIN,
            day_start(to as int) >= i64::MIN,
        ensures
            r.from == day_start(from as int),
            r.to == day_start(to as int),
    {
        RangeDays { from: start_of_day(from), to: start_of_day(to) }
    }

    /// Takes the earliest day left; `None` once the range is spent, or where the
    /// next day cannot be represented.
    pub fn next(&mut self) -> (r: Option<i64>)
        ensures
            old(self).from > old(self).to ==> r is None && *final(self) == *old(self),
            old(self).from <= old(self).to && old(self).from + SECONDS_PER_DAY > i64::MAX
                ==> r is None && *final(self) == *old(self),
            old(self).from <= old(self).to && old(self).from + SECONDS_PER_DAY <= i64::MAX
                ==> r == Some(old(self).from) && final(self).from == old(self).from
                + SECONDS_PER_DAY && final(self).to == old(self).to,
    {
        if self.from > self.to {
            return None;
        }
        let date = self.from;
        if self.from > i64::MAX - SECONDS_PER_DAY {
            return None;
        }
        self.from = self.from + SECONDS_PER_DAY;
        Some(date)
    }

    /// Takes the latest day left; `None` once the range is spent, or where the
    /// previous day cannot be represented.
    pub fn next_back(&mut self) -> (r: Option<i64>)
        ensures
            old(self).from > old(self).to ==> r is None && *final(self) == *old(self),
            old(self).from <= old(self).to && old(self).to - SECONDS_PER_DAY < i64::MIN
                ==> r is None && *final(self) == *old(self),
            old(self).from <= old(self).to && old(self).to - SECONDS_PER_DAY >= i64::MIN
                ==> r == Some(old(self).to) && final(self).to == old(self).to
                - SECONDS_PER_DAY && final(self).from == old(self).from,
    {
        if self.from > self.to {
            return None;
        }
        let date = self.to;
        if self.to < i64::MIN + SECONDS_PER_DAY {
            return None;
        }
        self.to = self.to - SECONDS_PER_DAY;
        Some(date)
    }
}

/// Time since the last beat, in seconds, under which the owner counts as active.
pub const ACTIVE_WINDOW: i64 = 600;

/// Time since the last beat, in seconds, over which the owner is likely asleep.
pub const ASLEEP_AFTER: i64 = 14400;

/// Whether the owner counts as active, `since_last` seconds after the last beat.
pub fn is_active(since_last: i64) -> (r: bool)
    ensures
        r == (since_last < ACTIVE_WINDOW),
{
    since_last < ACTIVE_WINDOW
}

/// Whether the owner is likely asleep, `since_last` seconds after the last beat.
pub fn is_probably_asleep(since_last: i64) -> (r: bool)
    ensures
        r == (since_last > ASLEEP_AFTER),
{
    since_last > ASLEEP_AFTER
}

} // verus!
