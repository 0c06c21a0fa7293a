//! The event generator: each session of a course becomes at most one
//! calendar event, recurring weekly when the session runs on weekdays
//! and dated once when it is tied to an explicit date.

use crate::date::{
    anchor_spec, day_number, plus_days_exec, weekday_index, weekday_index_exec, Date,
};
use crate::types::{
    day_code, day_index, session_type_name, Course, Day, Days, DaysView, SessionView, Time,
};
use vstd::arithmetic::div_mod::{lemma_mod_multiples_vanish, lemma_small_mod};
use vstd::prelude::*;
use vstd::string::{StrSliceExecFns, StringExecFns};

verus! {

// ---------------------------------------------------------------------
// decimal formatting
// ---------------------------------------------------------------------
pub open spec fn digit_char(d: int) -> char {
    if d == 0 {
        '0'
    } else if d == 1 {
        '1'
    } else if d == 2 {
        '2'
    } else if d == 3 {
        '3'
    } else if d == 4 {
        '4'
    } else if d == 5 {
        '5'
    } else if d == 6 {
        '6'
    } else if d == 7 {
        '7'
    } else if d == 8 {
        '8'
    } else {
        '9'
    }
}

/// The decimal numeral of `n`, most significant digit first.
pub open spec fn dec_digits(n: nat) -> Seq<char>
    decreases n,
{
    if n < 10 {
        seq![digit_char(n as int)]
    } else {
        dec_digits(n / 10).push(digit_char((n % 10) as int))
    }
}

/// The numeral left-padded with zeros to at least `w` characters.
pub open spec fn zero_pad(s: Seq<char>, w: nat) -> Seq<char> {
    if s.len() >= w {
        s
    } else {
        Seq::new((w - s.len()) as nat, |i: int| '0') + s
    }
}

fn digit_char_exec(d: u64) -> (r: char)
    requires
        d < 10,
    ensures
        r == digit_char(d as int),
{
    if d == 0 {
        '0'
    } else if d == 1 {
        '1'
    } else if d == 2 {
        '2'
    } else if d == 3 {
        '3'
    } else if d == 4 {
        '4'
    } else if d == 5 {
        '5'
    } else if d == 6 {
        '6'
    } else if d == 7 {
        '7'
    } else if d == 8 {
        '8'
    } else {
        '9'
    }
}

/// Formats `n` in decimal.
pub fn fmt_u64(n: u64) -> (r: String)
    ensures
        r@ == dec_digits(n as nat),
    decreases n,
{
    if n < 10 {
        let mut s = String::new();
        s.push(digit_char_exec(n));
        proof {
            assert(s@ =~= seq![digit_char(n as int)]);
        }
        s
    } else {
        let mut s = fmt_u64(n / 10);
        s.push(digit_char_exec(n % 10));
        s
    }
}

/// Formats `n` in decimal, zero-padded to at least `w` characters.
pub fn fmt_padded(n: u64, w: usize) -> (r: String)
    ensures
        r@ == zero_pad(dec_digits(n as nat), w as nat),
{
    let digits = fmt_u64(n);
    let len = digits.unicode_len();
    if len >= w {
        digits
    } else {
        let zeros = w - len;
        let mut out = String::new();
        let mut k: usize = 0;
        while k < zeros
            invariant
                k <= zeros,
                out@.len() == k,
                forall|j: int| 0 <= j < k ==> out@[j] == '0',
            decreases zeros - k,
        {
            out.push('0');
            k = k + 1;
        }
        out.append(digits.as_str());
        proof {
            assert(out@ =~= Seq::new(zeros as nat, |i: int| '0') + digits@);
        }
        out
    }
}

/// A date rendered as an eight-digit `YYYYMMDD` text.
pub open spec fn date_chars(d: Date) -> Seq<char> {
    zero_pad(dec_digits(d.year as nat), 4) + zero_pad(dec_digits(d.month as nat), 2) + zero_pad(
        dec_digits(d.day as nat),
        2,
    )
}

/// Formats a date as `YYYYMMDD`.
pub fn fmt_date(d: &Date) -> (r: String)
    ensures
        r@ == date_chars(*d),
{
    let mut out = fmt_padded(d.year as u64, 4);
    out.append(fmt_padded(d.month as u64, 2).as_str());
    out.append(fmt_padded(d.day as u64, 2).as_str());
    out
}

/// A time of day rendered as `HHMMSS`, always on a whole minute.
pub open spec fn time_chars(t: Time) -> Seq<char> {
    zero_pad(dec_digits(t.hour as nat), 2) + zero_pad(dec_digits(t.minute as nat), 2) + "00"@
}

/// Formats a time as `HHMMSS` with zero seconds.
pub fn fmt_time(t: &Time) -> (r: String)
    ensures
        r@ == time_chars(*t),
{
    let mut out = fmt_padded(t.hour as u64, 2);
    out.append(fmt_padded(t.minute as u64, 2).as_str());
    out.append("00");
    out
}

// ---------------------------------------------------------------------
// the generation timestamp
// ---------------------------------------------------------------------
/// The moment an event is generated, supplied by the caller so that the
/// generator itself stays free of ambient clock state.
#[derive(Clone, Copy, Debug, PartialEq, Eq, Structural)]
pub struct Timestamp {
    pub date: Date,
    pub hour: u8,
    pub minute: u8,
    pub second: u8,
}

/// A timestamp rendered as `YYYYMMDDTHHMMSS`.
pub open spec fn stamp_chars(ts: Timestamp) -> Seq<char> {
    date_chars(ts.date) + "T"@ + zero_pad(dec_digits(ts.hour as nat), 2) + zero_pad(
        dec_digits(ts.minute as nat),
        2,
    ) + zero_pad(dec_digits(ts.second as nat), 2)
}

/// Formats the generation timestamp.
pub fn fmt_stamp(ts: &Timestamp) -> (r: String)
    ensures
        r@ == stamp_chars(*ts),
{
    let mut out = fmt_date(&ts.date);
    out.append("T");
    out.append(fmt_padded(ts.hour as u64, 2).as_str());
    out.append(fmt_padded(ts.minute as u64, 2).as_str());
    out.append(fmt_padded(ts.second as u64, 2).as_str());
    out
}

// ---------------------------------------------------------------------
// weekday selection and the anchor date
// ---------------------------------------------------------------------
/// The earliest weekday of a list, Monday when the list is empty.
pub open spec fn min_day(s: Seq<Day>) -> Day
    decreases s.len(),
{
    if s.len() == 0 {
        Day::Monday
    } else if s.len() == 1 {
        s[0]
    } else {
        let m = min_day(s.drop_last());
        if day_index(s.last()) < day_index(m) {
            s.last()
        } else {
            m
        }
    }
}

/// Picks the earliest weekday of a list, Monday when it is empty.
pub fn min_day_exec(ds: &Vec<Day>) -> (r: Day)
    ensures
        r == min_day(ds@),
{
    if ds.len() == 0 {
        return Day::Monday;
    }
    let mut cur = ds[0];
    let mut k: usize = 1;
    proof {
        assert(ds@.subrange(0, 1).len() == 1);
        assert(ds@.subrange(0, 1)[0] == ds@[0]);
    }
    while k < ds.len()
        invariant
            1 <= k <= ds@.len(),
            cur == min_day(ds@.subrange(0, k as int)),
        decreases ds@.len() - k,
    {
        let d = ds[k];
        proof {
            let pre = ds@.subrange(0, k as int);
            let pre2 = ds@.subrange(0, k as int + 1);
            assert(pre2.drop_last() =~= pre);
            assert(pre2.last() == ds@[k as int]);
        }
        if d.index() < cur.index() {
            cur = d;
        }
        k = k + 1;
    }
    proof {
        assert(ds@.subrange(0, ds@.len() as int) =~= ds@);
    }
    cur
}

/// First date on or after `start` that falls on the given weekday.
pub fn start_date_on_day(start: &Date, day: Day) -> (r: Date)
    requires
        start.wf(),
    ensures
        r == anchor_spec(*start, day_index(day)),
        r.valid(),
{
    let wi = weekday_index_exec(start);
    let ti = day.index();
    let diff: u64 = if ti >= wi {
        ti - wi
    } else {
        ti + 7 - wi
    };
    proof {
        let x = day_index(day) - weekday_index(day_number(*start));
        if x >= 0 {
            lemma_small_mod(x as nat, 7);
        } else {
            lemma_mod_multiples_vanish(1, x, 7);
            lemma_small_mod((x + 7) as nat, 7);
        }
        assert(diff as int == x % 7);
    }
    plus_days_exec(start, diff as u32)
}

// ---------------------------------------------------------------------
// events
// ---------------------------------------------------------------------
/// One generated calendar event, every property already rendered.
#[derive(Debug)]
pub struct CalendarEvent {
    pub uid: String,
    pub changed: String,
    pub tzid: String,
    pub start: String,
    pub end: String,
    pub summary: String,
    pub location: String,
    pub rrule: Option<String>,
    pub transp: String,
}

pub ghost struct EventView {
    pub uid: Seq<char>,
    pub changed: Seq<char>,
    pub tzid: Seq<char>,
    pub start: Seq<char>,
    pub end: Seq<char>,
    pub summary: Seq<char>,
    pub location: Seq<char>,
    pub rrule: Option<Seq<char>>,
    pub transp: Seq<char>,
}

impl View for CalendarEvent {
    type V = EventView;

    open spec fn view(&self) -> EventView {
        EventView {
            uid: self.uid@,
            changed: self.changed@,
            tzid: self.tzid@,
            start: self.start@,
            end: self.end@,
            summary: self.summary@,
            location: self.location@,
            rrule: match self.rrule {
                Some(s) => Some(s@),
                None => None,
            },
            transp: self.transp@,
        }
    }
}

/// The weekday list of a recurrence rule: two-letter codes joined by
/// commas in the list's own order.
pub open spec fn byday_chars(ds: Seq<Day>) -> Seq<char>
    decreases ds.len(),
{
    if ds.len() == 0 {
        Seq::empty()
    } else if ds.len() == 1 {
        day_code(ds[0])
    } else {
        day_code(ds[0]) + ","@ + byday_chars(ds.drop_first())
    }
}

/// Joins the weekday codes of a list with commas.
pub fn byday_exec(ds: &Vec<Day>) -> (r: String)
    ensures
        r@ == byday_chars(ds@),
{
    let mut out = String::new();
    let n = ds.len();
    let mut i: usize = 0;
    while i < n
        invariant
            i <= n == ds@.len(),
            i == 0 ==> out@ =~= Seq::<char>::empty(),
            1 <= i < n ==> byday_chars(ds@) == out@ + ","@ + byday_chars(
                ds@.subrange(i as int, n as int),
            ),
            i == n && n > 0 ==> byday_chars(ds@) == out@,
        decreases n - i,
    {
        let code = ds[i].calendar_string();
        proof {
            let t = ds@.subrange(i as int, n as int);
            assert(t[0] == ds@[i as int]);
            assert(t.drop_first() =~= ds@.subrange(i as int + 1, n as int));
            if i == 0 {
                assert(ds@.subrange(0, n as int) =~= ds@);
            }
        }
        if i == 0 {
            out.append(code);
        } else {
            out.append(",");
            out.append(code);
        }
        i = i + 1;
    }
    out
}

/// The rendered weekly recurrence rule: week starts Sunday, runs until
/// the course end date, on the listed weekdays.
pub open spec fn rrule_chars(end_date: Date, ds: Seq<Day>) -> Seq<char> {
    "FREQ=WEEKLY;WKST=SU;UNTIL="@ + date_chars(end_date) + ";BYDAY="@ + byday_chars(ds)
}

/// The date the event is anchored on: the explicit date itself, or the
/// first date on or after the course start falling on the earliest
/// listed weekday.
pub open spec fn event_date(c: Course, s: SessionView) -> Date {
    match s.days {
        DaysView::Date(d) => d,
        DaysView::Weekdays(ds) => anchor_spec(c.start_date, day_index(min_day(ds))),
    }
}

/// The event generated for session `i` of a course, when the session
/// carries a timeslot.
pub open spec fn session_event(c: Course, i: int, now: Timestamp) -> Option<EventView> {
    let s = c.sessions@[i]@;
    match s.timeslot {
        None => None,
        Some(ts) => Some(
            EventView {
                uid: c.uuid@ + "-"@ + dec_digits(i as nat),
                changed: stamp_chars(now),
                tzid: "America/Los_Angeles"@,
                start: date_chars(event_date(c, s)) + "T"@ + time_chars(ts.start),
                end: date_chars(event_date(c, s)) + "T"@ + time_chars(ts.end),
                summary: c.code@ + " "@ + session_type_name(s.session_type),
                location: s.building + " "@ + s.room,
                rrule: match s.days {
                    DaysView::Date(_) => None,
                    DaysView::Weekdays(ds) => Some(rrule_chars(c.end_date, ds)),
                },
                transp: "OPAQUE"@,
            },
        ),
    }
}

/// The events of the first `n` sessions, in session order.
pub open spec fn events_upto(c: Course, now: Timestamp, n: int) -> Seq<EventView>
    decreases n,
{
    if n <= 0 {
        Seq::empty()
    } else {
        events_upto(c, now, n - 1) + match session_event(c, n - 1, now) {
            Some(e) => seq![e],
            None => Seq::empty(),
        }
    }
}

pub open spec fn event_views(evs: Seq<CalendarEvent>) -> Seq<EventView> {
    evs.map_values(|e: CalendarEvent| e@)
}

impl Course {
    /// Generates the calendar events of this course, one per session
    /// that carries a timeslot, stamping each with the supplied
    /// generation time.
    pub fn to_events(&self, now: &Timestamp) -> (r: Vec<CalendarEvent>)
        requires
            self.start_date.wf(),
        ensures
            event_views(r@) == events_upto(*self, *now, self.sessions@.len() as int),
    {
        let mut events: Vec<CalendarEvent> = Vec::new();
        let mut i: usize = 0;
        proof {
            assert(event_views(events@) =~= Seq::<EventView>::empty());
        }
        while i < self.sessions.len()
            invariant
                i <= self.sessions@.len(),
                self.start_date.wf(),
                event_views(events@) == events_upto(*self, *now, i as int),
            decreases self.sessions@.len() - i,
        {
            let s = &self.sessions[i];
            let ghost sv = s@;
            match s.timeslot {
                None => {
                    proof {
                        assert(session_event(*self, i as int, *now) is None);
                        assert(events_upto(*self, *now, i as int + 1) =~= events_upto(
                            *self,
                            *now,
                            i as int,
                        ));
                    }
                },
                Some(ts) => {
                    let day_str: String = match &s.days {
                        Days::Date(d) => fmt_date(d),
                        Days::Days(ds) => {
                            let md = min_day_exec(ds);
                            let anchor = start_date_on_day(&self.start_date, md);
                            fmt_date(&anchor)
                        },
                    };
                    proof {
                        assert(day_str@ == date_chars(event_date(*self, sv)));
                    }
                    let mut uid = self.uuid.clone();
                    uid.append("-");
                    let idx = fmt_u64(i as u64);
                    uid.append(idx.as_str());
                    let changed = fmt_stamp(now);
                    let mut start_s = day_str.clone();
                    start_s.append("T");
                    start_s.append(fmt_time(&ts.start).as_str());
                    let mut end_s = day_str.clone();
                    end_s.append("T");
                    end_s.append(fmt_time(&ts.end).as_str());
                    let mut summary = self.code.clone();
                    summary.append(" ");
                    summary.append(s.session_type.name());
                    let mut location = s.building.clone();
                    location.append(" ");
                    location.append(s.room.as_str());
                    let rrule: Option<String> = match &s.days {
                        Days::Date(_) => None,
                        Days::Days(ds) => {
                            let mut rr = String::from_str("FREQ=WEEKLY;WKST=SU;UNTIL=");
                            rr.append(fmt_date(&self.end_date).as_str());
                            rr.append(";BYDAY=");
                            rr.append(byday_exec(ds).as_str());
                            Some(rr)
                        },
                    };
                    let ev = CalendarEvent {
                        uid,
                        changed,
                        tzid: String::from_str("America/Los_Angeles"),
                        start: start_s,
                        end: end_s,
                        summary,
                        location,
                        rrule,
                        transp: String::from_str("OPAQUE"),
                    };
                    let ghost events0 = events@;
                    proof {
                        assert(session_event(*self, i as int, *now) == Some(ev@));
                    }
                    events.push(ev);
                    proof {
                        assert(event_views(events@) =~= event_views(events0).push(ev@));
                        assert(events_upto(*self, *now, i as int + 1) =~= events_upto(
                            *self,
                            *now,
                            i as int,
                        ).push(ev@));
                    }
                },
            }
            i = i + 1;
        }
        events
    }
}

} // verus!
