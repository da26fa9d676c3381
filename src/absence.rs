use vstd::prelude::*;

use vstd::math::{max, min};

use crate::helpers::{
    date_matches, day_start, format_relative, relative_text, same_day, start_of_day, RangeDays,
    SECONDS_PER_DAY,
};

verus! {

/// Shortest gap between two beats, in seconds, that is recorded as an absence.
pub const ABSENCE_THRESHOLD: i64 = 3600;

/// A gap in the beats of at least `ABSENCE_THRESHOLD` seconds: the interval
/// `(timestamp - duration, timestamp]`, from beat `begin_beat` to beat `end_beat`.
#[derive(Clone, Copy, Debug, PartialEq, Eq, Structural)]
pub struct Absence {
    pub id: i64,
    /// time this absence ended at, in seconds since the Unix epoch
    pub timestamp: i64,
    /// duration of absence in seconds
    pub duration: i64,
    /// id of the starting beat
    pub begin_beat: i64,
    /// id of the ending beat
    pub end_beat: i64,
}

/// Whether the instant `t` comes strictly after the start of the absence `a`; for an
/// instant no later than its end, whether `t` falls in it.
pub open spec fn covers(a: Absence, t: int) -> bool {
    a.timestamp - t < a.duration
}

/// The instant at which the absence `a` begins.
pub open spec fn start_of(a: Absence) -> int {
    a.timestamp - a.duration
}

/// Whether the instant `t` can be taken as the start of a day (see `day_start`).
pub open spec fn in_day_range(t: int) -> bool {
    i64::MIN + SECONDS_PER_DAY <= t <= i64::MAX
}

/// Whether both ends of the absence `a` are instants that the day arithmetic handles.
pub open spec fn well_placed(a: Absence) -> bool {
    in_day_range(start_of(a)) && in_day_range(a.timestamp as int)
}

/// What chrono prints for the instant `secs` with the pattern `%Y/%m/%d %H:%M UTC`,
/// or `None` where chrono has no date for it.
pub uninterp spec fn utc_minute_text(secs: int) -> Option<Seq<char>>;

/// Relies on chrono's `DateTime::from_timestamp` (`None` outside chrono's dates) and
/// `DateTime::format` with the pattern `%Y/%m/%d %H:%M UTC`: the text depends on
/// `secs` alone.
#[verifier::external_body]
fn format_utc_minute(secs: i64) -> (r: Option<String>)
    ensures
        match r {
            Some(s) => utc_minute_text(secs as int) == Some(s@),
            None => utc_minute_text(secs as int) is None,
        },
{
    match chrono::DateTime::from_timestamp(secs, 0) {
        Some(d) => Some(d.format("%Y/%m/%d %H:%M UTC").to_string()),
        None => None,
    }
}

/// The description of an absence from `start` to `end` lasting `duration` seconds,
/// given the printed instants.
pub open spec fn desc_text(start: Seq<char>, end: Seq<char>, duration: int) -> Seq<char> {
    "From "@ + start + " to "@ + end + " of "@ + relative_text(duration)
}

impl Absence {
    /// The instant at which the absence begins.
    pub fn start(&self) -> (r: i64)
        requires
            i64::MIN <= start_of(*self) <= i64::MAX,
        ensures
            r == start_of(*self),
    {
        self.timestamp - self.duration
    }

    /// The instant at which the absence ends.
    pub fn end(&self) -> (r: i64)
        ensures
            r == self.timestamp,
    {
        self.timestamp
    }

    /// A sentence that gives the start, the end and the length of the absence;
    /// `None` where one of its ends has no calendar date.
    pub fn desc(&self) -> (r: Option<String>)
        requires
            i64::MIN <= start_of(*self) <= i64::MAX,
        ensures
            match (utc_minute_text(start_of(*self)), utc_minute_text(self.timestamp as int)) {
                (Some(s), Some(e)) => r is Some && r->0@ == desc_text(
                    s,
                    e,
                    self.duration as int,
                ),
                _ => r is None,
            },
    {
        let start = match format_utc_minute(self.start()) {
            Some(s) => s,
            None => {
                return None;
            },
        };
        let end = match format_utc_minute(self.end()) {
            Some(e) => e,
            None => {
                return None;
            },
        };
        let relative = format_relative(self.duration);
        let mut text = String::from_str("From ");
        text.append(start.as_str());
        text.append(" to ");
        text.append(end.as_str());
        text.append(" of ");
        text.append(relative.as_str());
        Some(text)
    }

    /// Whether the instant `timestamp` comes strictly after the start of the absence
    /// (that is, `end - timestamp < duration`).
    pub fn contains(&self, timestamp: i64) -> (r: bool)
        ensures
            r == covers(*self, timestamp as int),
    {
        (self.timestamp as i128) - (timestamp as i128) < self.duration as i128
    }
}

/// For a stored absence ending at `E` after `D` seconds, `E` and `E - D + 1` fall
/// in it and `E - D` does not: the interval is open at its start and closed at its
/// end.
pub proof fn lemma_contains_boundary(a: Absence)
    requires
        a.duration >= ABSENCE_THRESHOLD,
    ensures
        covers(a, a.timestamp as int),
        covers(a, a.timestamp - a.duration + 1),
        !covers(a, a.timestamp - a.duration),
{
}

/// The earliest start among the non-empty `s`.
pub open spec fn earliest_start(s: Seq<Absence>) -> int
    decreases s.len(),
{
    if s.len() <= 1 {
        start_of(s[0])
    } else {
        min(earliest_start(s.drop_last()), start_of(s.last()))
    }
}

/// The latest end among the non-empty `s`.
pub open spec fn latest_end(s: Seq<Absence>) -> int
    decreases s.len(),
{
    if s.len() <= 1 {
        s[0].timestamp as int
    } else {
        max(latest_end(s.drop_last()), s.last().timestamp as int)
    }
}

/// Whether the absence `a` starts or ends on the day of the instant `d`.
pub open spec fn on_day(a: Absence, d: int) -> bool {
    same_day(start_of(a), d) || same_day(a.timestamp as int, d)
}

/// Whether `s` is in ascending order of start.
pub open spec fn sorted_by_start(s: Seq<Absence>) -> bool {
    forall|i: int, j: int| 0 <= i < j < s.len() ==> start_of(s[i]) <= start_of(s[j])
}

/// Whether the absence `a` is long: strictly over the threshold.
pub open spec fn is_long(a: Absence) -> bool {
    a.duration > ABSENCE_THRESHOLD
}

/// The absences longer than the threshold.
#[derive(Debug)]
pub struct LongAbsences {
    absences: Vec<Absence>,
}

impl View for LongAbsences {
    type V = Seq<Absence>;

    closed spec fn view(&self) -> Seq<Absence> {
        self.absences@
    }
}

/// Inserts `a` into `v`, which is in ascending order of start, keeping that order.
fn insert_by_start(v: &mut Vec<Absence>, a: Absence)
    requires
        sorted_by_start(old(v)@),
        forall|i: int| 0 <= i < old(v)@.len() ==> well_placed(#[trigger] old(v)@[i]),
        well_placed(a),
    ensures
        sorted_by_start(final(v)@),
        final(v)@.to_multiset() == old(v)@.to_multiset().insert(a),
        forall|i: int| 0 <= i < final(v)@.len() ==> well_placed(#[trigger] final(v)@[i]),
{
    broadcast use vstd::seq_lib::to_multiset_insert;

    let mut p: usize = 0;
    while p < v.len() && v[p].start() <= a.start()
        invariant
            0 <= p <= v@.len(),
            sorted_by_start(v@),
            forall|i: int| 0 <= i < v@.len() ==> well_placed(#[trigger] v@[i]),
            well_placed(a),
            forall|q: int| 0 <= q < p ==> start_of(#[trigger] v@[q]) <= start_of(a),
        decreases v@.len() - p,
    {
        p = p + 1;
    }
    let ghost before = v@;
    v.insert(p, a);
    assert forall|i: int, j: int| 0 <= i < j < v@.len() implies start_of(v@[i]) <= start_of(
        v@[j],
    ) by {
        if j < p {
            assert(v@[i] == before[i] && v@[j] == before[j]);
        } else if j == p {
            assert(v@[i] == before[i]);
        } else if i < p {
            assert(v@[i] == before[i] && v@[j] == before[j - 1]);
        } else if i == p {
            assert(v@[j] == before[j - 1]);
            assert(start_of(before[p as int]) > start_of(a));
        } else {
            assert(v@[i] == before[i - 1] && v@[j] == before[j - 1]);
        }
    }
    assert forall|i: int| 0 <= i < v@.len() implies well_placed(#[trigger] v@[i]) by {
        if i < p {
            assert(v@[i] == before[i]);
        } else if i > p {
            assert(v@[i] == before[i - 1]);
        }
    }
}

impl LongAbsences {
    /// Keeps, of `absences`, those longer than the threshold, in their order.
    pub fn new(absences: Vec<Absence>) -> (r: LongAbsences)
        ensures
            r@ == absences@.filter(|a: Absence| is_long(a)),
    {
        let mut kept: Vec<Absence> = Vec::new();
        let mut i: usize = 0;
        while i < absences.len()
            invariant
                0 <= i <= absences@.len(),
                kept@ == absences@.subrange(0, i as int).filter(|a: Absence| is_long(a)),
            decreases absences@.len() - i,
        {
            let a = absences[i];
            let ghost prefix = absences@.subrange(0, i as int + 1);
            assert(prefix.drop_last() =~= absences@.subrange(0, i as int));
            reveal(Seq::filter);
            if a.duration > ABSENCE_THRESHOLD {
                kept.push(a);
            }
            i = i + 1;
        }
        assert(absences@.subrange(0, absences@.len() as int) =~= absences@);
        LongAbsences { absences: kept }
    }

    /// The range of days that encompasses all the absences, from the day of the
    /// earliest start to the day of the latest end; `None` where there are none.
    pub fn range(&self) -> (r: Option<RangeDays>)
        requires
            forall|i: int| 0 <= i < self@.len() ==> well_placed(#[trigger] self@[i]),
        ensures
            self@.len() == 0 <==> r is None,
            r matches Some(days) ==> days.from == day_start(earliest_start(self@)) && days.to
                == day_start(latest_end(self@)),
    {
        if self.absences.len() == 0 {
            return None;
        }
        assert(well_placed(self@[0]));
        let mut first = self.absences[0].start();
        let mut last = self.absences[0].end();
        let mut i: usize = 1;
        assert(self@.subrange(0, 1).drop_last().len() == 0);
        while i < self.absences.len()
            invariant
                1 <= i <= self@.len(),
                self@ == self.absences@,
                forall|j: int| 0 <= j < self@.len() ==> well_placed(#[trigger] self@[j]),
                first == earliest_start(self@.subrange(0, i as int)),
                last == latest_end(self@.subrange(0, i as int)),
                in_day_range(first as int),
                in_day_range(last as int),
            decreases self@.len() - i,
        {
            let a = self.absences[i];
            let ghost prefix = self@.subrange(0, i as int + 1);
            assert(prefix.drop_last() =~= self@.subrange(0, i as int));
            assert(prefix.last() == a);
            assert(well_placed(self@[i as int]));
            let s = a.start();
            if s < first {
                first = s;
            }
            if a.end() > last {
                last = a.end();
            }
            i = i + 1;
        }
        assert(self@.subrange(0, self@.len() as int) =~= self@);
        Some(RangeDays::new(first, last))
    }

    /// The absences that start or end on the day of `d`, in ascending order of start.
    pub fn absences_on(&self, d: i64) -> (r: Vec<Absence>)
        requires
            forall|i: int| 0 <= i < self@.len() ==> well_placed(#[trigger] self@[i]),
            in_day_range(d as int),
        ensures
            sorted_by_start(r@),
            r@.to_multiset() == self@.filter(|a: Absence| on_day(a, d as int)).to_multiset(),
    {
        broadcast use vstd::seq_lib::to_multiset_build;
        broadcast use vstd::seq_lib::group_to_multiset_ensures;

        let ghost pred = |a: Absence| on_day(a, d as int);
        let mut out: Vec<Absence> = Vec::new();
        let mut i: usize = 0;
        proof {
            reveal(Seq::filter);
            assert(self@.subrange(0, 0).filter(pred) =~= Seq::<Absence>::empty());
            assert(out@ =~= Seq::<Absence>::empty());
        }
        while i < self.absences.len()
            invariant
                0 <= i <= self@.len(),
                self@ == self.absences@,
                forall|j: int| 0 <= j < self@.len() ==> well_placed(#[trigger] self@[j]),
                in_day_range(d as int),
                sorted_by_start(out@),
                forall|j: int| 0 <= j < out@.len() ==> well_placed(#[trigger] out@[j]),
                pred == (|a: Absence| on_day(a, d as int)),
                out@.to_multiset() == self@.subrange(0, i as int).filter(pred).to_multiset(),
            decreases self@.len() - i,
        {
            let a = self.absences[i];
            let ghost prefix = self@.subrange(0, i as int + 1);
            assert(prefix.drop_last() =~= self@.subrange(0, i as int));
            assert(prefix.last() == a);
            assert(well_placed(self@[i as int]));
            reveal(Seq::filter);
            if date_matches(a.start(), d) || date_matches(a.end(), d) {
                let ghost seen = self@.subrange(0, i as int).filter(pred);
                assert(prefix.filter(pred) == seen.push(a));
                proof {
                    vstd::seq_lib::to_multiset_build(seen, a);
                }
                assert(seen.push(a).to_multiset() =~= seen.to_multiset().insert(a));
                insert_by_start(&mut out, a);
            } else {
                assert(prefix.filter(pred) == self@.subrange(0, i as int).filter(pred));
            }
            i = i + 1;
        }
        assert(self@.subrange(0, self@.len() as int) =~= self@);
        out
    }
}

} // verus!
