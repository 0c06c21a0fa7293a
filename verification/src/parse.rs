//! The row parser and the course assembler: cell texts to row records,
//! row records to courses with their sessions.

use crate::date::{valid_ymd, Date};
use crate::text::{
    all_digits, clean_cell, clean_cell_spec, digits_val, eq1, eq2, first_at, is_digit,
    lemma_first_at, tag_text, tag_text_spec, trim_exec, trimmed,
};
use crate::types::{
    Course, Day, Days, DaysView, ParseError, Session, SessionType, SessionView, Time, Timeslot,
};
use vstd::prelude::*;
use vstd::string::{StrSliceExecFns, StringExecFns};

verus! {

// ---------------------------------------------------------------------
// digit strings
// ---------------------------------------------------------------------
pub open spec fn pow10(n: nat) -> int
    decreases n,
{
    if n == 0 {
        1
    } else {
        10 * pow10((n - 1) as nat)
    }
}

pub proof fn lemma_pow10_le(a: nat, b: nat)
    requires
        a <= b,
    ensures
        1 <= pow10(a) <= pow10(b),
    decreases b,
{
    if b > 0 {
        if a == b {
            lemma_pow10_le((a - 1) as nat, (b - 1) as nat);
        } else {
            lemma_pow10_le(a, (b - 1) as nat);
        }
    }
}

pub proof fn lemma_digits_val_bound(s: Seq<char>)
    requires
        all_digits(s),
    ensures
        0 <= digits_val(s) < pow10(s.len()),
    decreases s.len(),
{
    if s.len() > 0 {
        assert(all_digits(s.drop_last())) by {
            assert forall|k: int| 0 <= k < s.drop_last().len() implies is_digit(
                s.drop_last()[k],
            ) by {
                assert(s.drop_last()[k] == s[k]);
            }
        }
        lemma_digits_val_bound(s.drop_last());
        assert(is_digit(s.last()));
    }
}

/// Value of the digit run `s[from..to]`, which must be all digits.
fn digits_value(s: &str, from: usize, to: usize) -> (r: u64)
    requires
        from <= to <= s@.len(),
        to - from <= 9,
        forall|k: int| from <= k < to ==> is_digit(s@[k]),
    ensures
        r as int == digits_val(s@.subrange(from as int, to as int)),
{
    let ghost sv = s@;
    let mut acc: u64 = 0;
    let mut i = from;
    proof {
        assert(sv.subrange(from as int, from as int) =~= Seq::<char>::empty());
    }
    while i < to
        invariant
            from <= i <= to <= sv.len(),
            to - from <= 9,
            s@ == sv,
            forall|k: int| from <= k < to ==> is_digit(sv[k]),
            acc as int == digits_val(sv.subrange(from as int, i as int)),
        decreases to - i,
    {
        let c = s.get_char(i);
        proof {
            let pre = sv.subrange(from as int, i as int);
            assert(all_digits(pre));
            lemma_digits_val_bound(pre);
            lemma_pow10_le(pre.len(), 8);
            assert(pow10(0) == 1);
            assert(pow10(1) == 10);
            assert(pow10(2) == 100);
            assert(pow10(3) == 1000);
            assert(pow10(4) == 10000);
            assert(pow10(5) == 100000);
            assert(pow10(6) == 1000000);
            assert(pow10(7) == 10000000);
            assert(pow10(8) == 100000000);
            let pre2 = sv.subrange(from as int, i as int + 1);
            assert(pre2.drop_last() =~= pre);
            assert(pre2.last() == sv[i as int]);
        }
        let d = (c as u32) - ('0' as u32);
        acc = acc * 10 + d as u64;
        i = i + 1;
    }
    acc
}

// ---------------------------------------------------------------------
// token tables
// ---------------------------------------------------------------------
/// Exact two-letter session-type codes; anything else is absent.
pub open spec fn session_type_of(s: Seq<char>) -> Option<SessionType> {
    if s == seq!['L', 'E'] {
        Some(SessionType::Lecture)
    } else if s == seq!['D', 'I'] {
        Some(SessionType::Discussion)
    } else if s == seq!['F', 'I'] {
        Some(SessionType::Final)
    } else if s == seq!['L', 'A'] {
        Some(SessionType::Lab)
    } else if s == seq!['M', 'I'] {
        Some(SessionType::Midterm)
    } else if s == seq!['T', 'U'] {
        Some(SessionType::Tutorial)
    } else if s == seq!['S', 'E'] {
        Some(SessionType::Seminar)
    } else {
        None
    }
}

impl SessionType {
    /// Looks up the exact two-letter session-type code.
    pub fn parse(s: &str) -> (r: Option<SessionType>)
        ensures
            r == session_type_of(s@),
    {
        if eq2(s, 'L', 'E') {
            Some(SessionType::Lecture)
        } else if eq2(s, 'D', 'I') {
            Some(SessionType::Discussion)
        } else if eq2(s, 'F', 'I') {
            Some(SessionType::Final)
        } else if eq2(s, 'L', 'A') {
            Some(SessionType::Lab)
        } else if eq2(s, 'M', 'I') {
            Some(SessionType::Midterm)
        } else if eq2(s, 'T', 'U') {
            Some(SessionType::Tutorial)
        } else if eq2(s, 'S', 'E') {
            Some(SessionType::Seminar)
        } else {
            None
        }
    }
}

/// Exact display codes of the weekdays; anything else is not a day token.
pub open spec fn day_token(s: Seq<char>) -> Option<Day> {
    if s == seq!['M'] {
        Some(Day::Monday)
    } else if s == seq!['T', 'u'] {
        Some(Day::Tuesday)
    } else if s == seq!['W'] {
        Some(Day::Wednesday)
    } else if s == seq!['T', 'h'] {
        Some(Day::Thursday)
    } else if s == seq!['F'] {
        Some(Day::Friday)
    } else if s == seq!['S', 'a'] {
        Some(Day::Saturday)
    } else if s == seq!['S', 'u'] {
        Some(Day::Sunday)
    } else {
        None
    }
}

impl Day {
    /// Looks up the exact display code of a weekday.
    pub fn parse(s: &str) -> (r: Option<Day>)
        ensures
            r == day_token(s@),
    {
        if eq1(s, 'M') {
            Some(Day::Monday)
        } else if eq2(s, 'T', 'u') {
            Some(Day::Tuesday)
        } else if eq1(s, 'W') {
            Some(Day::Wednesday)
        } else if eq2(s, 'T', 'h') {
            Some(Day::Thursday)
        } else if eq1(s, 'F') {
            Some(Day::Friday)
        } else if eq2(s, 'S', 'a') {
            Some(Day::Saturday)
        } else if eq2(s, 'S', 'u') {
            Some(Day::Sunday)
        } else {
            None
        }
    }
}

// ---------------------------------------------------------------------
// searching
// ---------------------------------------------------------------------
/// Index of the first `c` in `s`, or the length if there is none.
pub fn find_char(s: &str, c: char) -> (r: usize)
    ensures
        r as int == first_at(s@, c),
        r <= s@.len(),
        forall|k: int| 0 <= k < r ==> s@[k] != c,
        r < s@.len() ==> s@[r as int] == c,
{
    let n = s.unicode_len();
    let ghost sv = s@;
    let mut i: usize = 0;
    let mut done = false;
    proof {
        assert(sv.subrange(0, n as int) =~= sv);
    }
    while !done
        invariant
            n == sv.len(),
            s@ == sv,
            i <= n,
            first_at(sv, c) == i + first_at(sv.subrange(i as int, n as int), c),
            forall|k: int| 0 <= k < i ==> sv[k] != c,
            done ==> (i == n || sv[i as int] == c),
        decreases n - i, (if done { 0int } else { 1int }),
    {
        if i < n {
            if s.get_char(i) != c {
                proof {
                    let t = sv.subrange(i as int, n as int);
                    assert(t.first() == sv[i as int]);
                    assert(t.drop_first() =~= sv.subrange(i as int + 1, n as int));
                }
                i = i + 1;
            } else {
                done = true;
            }
        } else {
            done = true;
        }
    }
    proof {
        let t = sv.subrange(i as int, n as int);
        if i < n {
            assert(t.first() == c);
            assert(first_at(t, c) == 0);
        } else {
            assert(t =~= Seq::<char>::empty());
        }
        lemma_first_at(sv, c);
    }
    i
}

pub open spec fn contains_char(s: Seq<char>, c: char) -> bool {
    first_at(s, c) < s.len()
}

pub open spec fn expand_marker() -> Seq<char> {
    seq!['E', 'x', 'p', 'a', 'n', 'd', ':']
}

/// Whether the cell text contains the literal marker `Expand:`.
pub open spec fn contains_expand(s: Seq<char>) -> bool {
    exists|k: int| 0 <= k && k + 7 <= s.len() && #[trigger] s.subrange(k, k + 7) == expand_marker()
}

fn cell_has_expand(s: &str) -> (r: bool)
    ensures
        r == contains_expand(s@),
{
    let n = s.unicode_len();
    let ghost sv = s@;
    if n < 7 {
        proof {
            assert(!contains_expand(sv));
        }
        return false;
    }
    let mut i: usize = 0;
    while i <= n - 7
        invariant
            n == sv.len(),
            s@ == sv,
            7 <= n,
            i <= n - 6,
            forall|k: int| 0 <= k < i ==> #[trigger] sv.subrange(k, k + 7) != expand_marker(),
        decreases n - i,
    {
        if s.get_char(i) == 'E' && s.get_char(i + 1) == 'x' && s.get_char(i + 2) == 'p'
            && s.get_char(i + 3) == 'a' && s.get_char(i + 4) == 'n' && s.get_char(i + 5) == 'd'
            && s.get_char(i + 6) == ':' {
            proof {
                assert(sv.subrange(i as int, i as int + 7) =~= expand_marker());
            }
            return true;
        }
        proof {
            let t = sv.subrange(i as int, i as int + 7);
            if t == expand_marker() {
                assert(t[0] == sv[i as int]);
                assert(t[1] == sv[i as int + 1]);
                assert(t[2] == sv[i as int + 2]);
                assert(t[3] == sv[i as int + 3]);
                assert(t[4] == sv[i as int + 4]);
                assert(t[5] == sv[i as int + 5]);
                assert(t[6] == sv[i as int + 6]);
                assert(false);
            }
        }
        i = i + 1;
    }
    proof {
        assert(!contains_expand(sv));
    }
    false
}

// ---------------------------------------------------------------------
// field grammars
// ---------------------------------------------------------------------
/// A decimal numeral, truncated to its whole part and clamped to fit a
/// byte; anything else is absent.
pub open spec fn units_of(s: Seq<char>) -> Option<u8> {
    let t = trimmed(s);
    let p = first_at(t, '.');
    let ipart = t.take(p);
    let fpart = if p < t.len() {
        t.skip(p + 1)
    } else {
        Seq::<char>::empty()
    };
    if t.len() > 0 && all_digits(ipart) && all_digits(fpart) && (p >= 1 || t.len() >= p + 2) {
        let v = digits_val(ipart);
        Some(
            if v > 255 {
                255u8
            } else {
                v as u8
            },
        )
    } else {
        None
    }
}

/// Parses the units cell: a decimal numeral truncated to a whole number.
pub fn parse_units(s: &str) -> (r: Option<u8>)
    ensures
        r == units_of(s@),
{
    let t = trim_exec(s);
    let ghost tv = t@;
    let n = t.unicode_len();
    if n == 0 {
        return None;
    }
    let p = find_char(t, '.');
    proof {
        assert(tv.take(p as int) =~= tv.subrange(0, p as int));
        if p < n {
            assert(tv.skip(p as int + 1) =~= tv.subrange(p as int + 1, n as int));
        }
    }
    if !check_digits(t, 0, p) {
        return None;
    }
    if p < n {
        if !check_digits(t, p + 1, n) {
            return None;
        }
    }
    if p == 0 && n == 1 {
        // a lone dot has no digits at all
        return None;
    }
    proof {
        lemma_digits_val_bound(tv.take(p as int));
        assert(units_of(s@) == Some(
            if digits_val(tv.take(p as int)) > 255 {
                255u8
            } else {
                digits_val(tv.take(p as int)) as u8
            },
        ));
    }
    // accumulate the integer part, clamped to fit a byte
    let mut acc: u32 = 0;
    let mut i: usize = 0;
    proof {
        assert(tv.subrange(0, 0) =~= Seq::<char>::empty());
    }
    while i < p
        invariant
            i <= p <= n == tv.len(),
            t@ == tv,
            all_digits(tv.subrange(0, p as int)),
            units_of(s@) == Some(
                if digits_val(tv.take(p as int)) > 255 {
                    255u8
                } else {
                    digits_val(tv.take(p as int)) as u8
                },
            ),
            tv.take(p as int) == tv.subrange(0, p as int),
            digits_val(tv.subrange(0, i as int)) <= 255 ==> acc as int == digits_val(
                tv.subrange(0, i as int),
            ),
            digits_val(tv.subrange(0, i as int)) > 255 ==> acc > 255,
            acc <= 2559,
            0 <= digits_val(tv.subrange(0, i as int)),
        decreases p - i,
    {
        let c = t.get_char(i);
        proof {
            assert(is_digit(tv.subrange(0, p as int)[i as int]));
            let pre = tv.subrange(0, i as int);
            let pre2 = tv.subrange(0, i as int + 1);
            assert(pre2.drop_last() =~= pre);
            assert(pre2.last() == tv[i as int]);
            assert(all_digits(pre)) by {
                assert forall|k: int| 0 <= k < pre.len() implies is_digit(#[trigger] pre[k]) by {
                    assert(pre[k] == tv.subrange(0, p as int)[k]);
                }
            }
            lemma_digits_val_bound(pre);
        }
        let d: u32 = (c as u32) - ('0' as u32);
        if acc <= 255 {
            acc = acc * 10 + d;
        }
        i = i + 1;
    }
    if acc > 255 {
        Some(255)
    } else {
        Some(acc as u8)
    }
}

/// A month/day/4-digit-year date, accepted only when it names a real
/// calendar date.
pub open spec fn mdy_of(s: Seq<char>) -> Option<Date> {
    let a = first_at(s, '/');
    if a < s.len() {
        let rest = s.skip(a + 1);
        let b = first_at(rest, '/');
        if b < rest.len() {
            let mpart = s.take(a);
            let dpart = rest.take(b);
            let ypart = rest.skip(b + 1);
            if 1 <= a <= 2 && 1 <= b <= 2 && ypart.len() == 4 && all_digits(mpart) && all_digits(
                dpart,
            ) && all_digits(ypart) && valid_ymd(
                digits_val(ypart),
                digits_val(mpart),
                digits_val(dpart),
            ) {
                Some(
                    Date {
                        year: digits_val(ypart) as u32,
                        month: digits_val(mpart) as u32,
                        day: digits_val(dpart) as u32,
                    },
                )
            } else {
                None
            }
        } else {
            None
        }
    } else {
        None
    }
}

/// Checks that `s[from..to]` is all digits.
fn check_digits(s: &str, from: usize, to: usize) -> (r: bool)
    requires
        from <= to <= s@.len(),
    ensures
        r == all_digits(s@.subrange(from as int, to as int)),
{
    let ghost sv = s@;
    let mut i = from;
    while i < to
        invariant
            from <= i <= to <= sv.len(),
            s@ == sv,
            forall|k: int| from <= k < i ==> is_digit(sv[k]),
        decreases to - i,
    {
        let c = s.get_char(i);
        if !('0' <= c && c <= '9') {
            proof {
                assert(!is_digit(sv.subrange(from as int, to as int)[i - from]));
            }
            return false;
        }
        i = i + 1;
    }
    proof {
        assert forall|k: int| 0 <= k < sv.subrange(from as int, to as int).len() implies is_digit(
            #[trigger] sv.subrange(from as int, to as int)[k],
        ) by {
            assert(sv.subrange(from as int, to as int)[k] == sv[k + from]);
        }
    }
    true
}

fn leap_exec(y: u64) -> (r: bool)
    ensures
        r == crate::date::is_leap(y as int),
{
    y % 4 == 0 && (y % 100 != 0 || y % 400 == 0)
}

/// Parses `month/day/year` into a date, absent unless it is real.
pub fn parse_mdy(s: &str) -> (r: Option<Date>)
    ensures
        r == mdy_of(s@),
{
    let ghost sv = s@;
    let n = s.unicode_len();
    let a = find_char(s, '/');
    if a == n {
        return None;
    }
    let rest = s.substring_char(a + 1, n);
    proof {
        assert(rest@ =~= sv.skip(a as int + 1));
    }
    let m = rest.unicode_len();
    let b = find_char(rest, '/');
    if b == m {
        return None;
    }
    if !(1 <= a && a <= 2 && 1 <= b && b <= 2 && m - b - 1 == 4) {
        proof {
            assert(sv.skip(a as int + 1).skip(b as int + 1).len() == m - b - 1);
        }
        return None;
    }
    let digits_ok = check_digits(s, 0, a) && check_digits(rest, 0, b) && check_digits(
        rest,
        b + 1,
        m,
    );
    proof {
        assert(sv.subrange(0, a as int) =~= sv.take(a as int));
        assert(rest@.subrange(0, b as int) =~= sv.skip(a as int + 1).take(b as int));
        assert(rest@.subrange(b as int + 1, m as int) =~= sv.skip(a as int + 1).skip(b as int + 1));
    }
    if !digits_ok {
        return None;
    }
    proof {
        assert forall|k: int| 0 <= k < a implies is_digit(sv[k]) by {
            assert(is_digit(sv.subrange(0, a as int)[k]));
        }
        assert forall|k: int| 0 <= k < b implies is_digit(rest@[k]) by {
            assert(is_digit(rest@.subrange(0, b as int)[k]));
        }
        assert forall|k: int| b + 1 <= k < m implies is_digit(rest@[k]) by {
            assert(is_digit(rest@.subrange(b as int + 1, m as int)[k - b - 1]));
        }
    }
    let mv = digits_value(s, 0, a);
    let dv = digits_value(rest, 0, b);
    let yv = digits_value(rest, b + 1, m);
    proof {
        lemma_digits_val_bound(sv.take(a as int));
        lemma_digits_val_bound(sv.skip(a as int + 1).take(b as int));
        lemma_digits_val_bound(sv.skip(a as int + 1).skip(b as int + 1));
        lemma_pow10_le(1, 2);
        lemma_pow10_le(2, 4);
        assert(pow10(0) == 1);
        assert(pow10(1) == 10);
        assert(pow10(2) == 100);
        assert(pow10(3) == 1000);
        assert(pow10(4) == 10000);
    }
    // the numbers must name a real date
    if mv < 1 || mv > 12 || yv < 1 || dv < 1 {
        return None;
    }
    let dim: u64 = if mv == 2 {
        if leap_exec(yv) {
            29
        } else {
            28
        }
    } else if mv == 4 || mv == 6 || mv == 9 || mv == 11 {
        30
    } else {
        31
    };
    if dv > dim {
        return None;
    }
    Some(Date { year: yv as u32, month: mv as u32, day: dv as u32 })
}

// ---------------------------------------------------------------------
// day lists and timeslots
// ---------------------------------------------------------------------
/// Greedy left-to-right recovery of day codes from concatenated text;
/// `cur` is the unmatched buffer carried in.
pub open spec fn day_scan(s: Seq<char>, cur: Seq<char>) -> Seq<Day>
    decreases s.len(),
{
    if s.len() == 0 {
        Seq::empty()
    } else {
        let cur2 = cur.push(s.first());
        match day_token(cur2) {
            Some(d) => seq![d] + day_scan(s.drop_first(), Seq::<char>::empty()),
            None => day_scan(s.drop_first(), cur2),
        }
    }
}

/// The days column: a dated entry when it contains a slash, otherwise a
/// (possibly empty) list of weekday codes.
pub open spec fn days_of(s: Seq<char>) -> Option<DaysView> {
    if contains_char(s, '/') {
        let sp = first_at(s, ' ');
        if sp < s.len() {
            match mdy_of(s.skip(sp + 1)) {
                Some(d) => Some(DaysView::Date(d)),
                None => None,
            }
        } else {
            None
        }
    } else {
        Some(DaysView::Weekdays(day_scan(s, Seq::<char>::empty())))
    }
}

impl Days {
    /// Classifies the days column: an explicit date, or weekday codes.
    pub fn parse(s: &str) -> (r: Option<Days>)
        ensures
            match r {
                Some(d) => days_of(s@) == Some(d@),
                None => days_of(s@) is None,
            },
    {
        let ghost sv = s@;
        let n = s.unicode_len();
        let slash = find_char(s, '/');
        if slash < n {
            let sp = find_char(s, ' ');
            if sp == n {
                return None;
            }
            let rest = s.substring_char(sp + 1, n);
            proof {
                assert(rest@ =~= sv.skip(sp as int + 1));
            }
            match parse_mdy(rest) {
                Some(d) => Some(Days::Date(d)),
                None => None,
            }
        } else {
            let mut days: Vec<Day> = Vec::new();
            let mut cur = String::new();
            let mut i: usize = 0;
            proof {
                assert(sv.subrange(0, n as int) =~= sv);
                assert(cur@ =~= Seq::<char>::empty());
            }
            while i < n
                invariant
                    n == sv.len(),
                    s@ == sv,
                    i <= n,
                    days@ + day_scan(sv.subrange(i as int, n as int), cur@) == day_scan(
                        sv,
                        Seq::<char>::empty(),
                    ),
                decreases n - i,
            {
                let c = s.get_char(i);
                cur.push(c);
                let ghost t = sv.subrange(i as int, n as int);
                proof {
                    assert(t.first() == sv[i as int]);
                    assert(t.drop_first() =~= sv.subrange(i as int + 1, n as int));
                }
                match Day::parse(cur.as_str()) {
                    Some(d) => {
                        let ghost days0 = days@;
                        days.push(d);
                        cur = String::new();
                        proof {
                            let rest = day_scan(
                                sv.subrange(i as int + 1, n as int),
                                Seq::<char>::empty(),
                            );
                            assert(days@ =~= days0 + seq![d]);
                            assert(days0 + (seq![d] + rest) =~= (days0 + seq![d]) + rest);
                        }
                    },
                    None => {
                    },
                }
                i = i + 1;
            }
            proof {
                assert(sv.subrange(n as int, n as int) =~= Seq::<char>::empty());
                assert(days@ + Seq::<Day>::empty() =~= days@);
            }
            Some(Days::Days(days))
        }
    }
}

/// A 12-hour clock time `H:MM` or `HH:MM` with an `a`/`p` suffix.
pub open spec fn time12_of(x: Seq<char>) -> Option<Time> {
    let c = first_at(x, ':');
    if (c == 1 || c == 2) && x.len() == c + 4 && all_digits(x.take(c)) && is_digit(x[c + 1])
        && is_digit(x[c + 2]) && (x[c + 3] == 'a' || x[c + 3] == 'p' || x[c + 3] == 'A' || x[c + 3]
        == 'P') && 1 <= digits_val(x.take(c)) <= 12 && digits_val(x.subrange(c + 1, c + 3)) <= 59 {
        let h12 = digits_val(x.take(c));
        let mi = digits_val(x.subrange(c + 1, c + 3));
        let pm = x[c + 3] == 'p' || x[c + 3] == 'P';
        let h = h12 % 12 + if pm {
            12int
        } else {
            0int
        };
        Some(Time { hour: h as u8, minute: mi as u8 })
    } else {
        None
    }
}

fn parse_time12(x: &str) -> (r: Option<Time>)
    ensures
        r == time12_of(x@),
{
    let ghost xv = x@;
    let n = x.unicode_len();
    let c = find_char(x, ':');
    if !(c == 1 || c == 2) || n != c + 4 {
        return None;
    }
    let h_ok = check_digits(x, 0, c);
    proof {
        assert(xv.subrange(0, c as int) =~= xv.take(c as int));
    }
    if !h_ok {
        return None;
    }
    let d1 = x.get_char(c + 1);
    let d2 = x.get_char(c + 2);
    if !('0' <= d1 && d1 <= '9' && '0' <= d2 && d2 <= '9') {
        return None;
    }
    let sfx = x.get_char(c + 3);
    if !(sfx == 'a' || sfx == 'p' || sfx == 'A' || sfx == 'P') {
        return None;
    }
    proof {
        assert forall|k: int| 0 <= k < c implies is_digit(xv[k]) by {
            assert(is_digit(xv.subrange(0, c as int)[k]));
        }
    }
    let h12 = digits_value(x, 0, c);
    let mi = digits_value(x, c + 1, c + 3);
    proof {
        lemma_digits_val_bound(xv.take(c as int));
        assert(xv.subrange(c as int + 1, c as int + 3).len() == 2);
        assert(all_digits(xv.subrange(c as int + 1, c as int + 3))) by {
            assert(xv.subrange(c as int + 1, c as int + 3)[0] == xv[c as int + 1]);
            assert(xv.subrange(c as int + 1, c as int + 3)[1] == xv[c as int + 2]);
        }
        lemma_digits_val_bound(xv.subrange(c as int + 1, c as int + 3));
        assert(pow10(0) == 1);
        assert(pow10(1) == 10);
        assert(pow10(2) == 100);
        lemma_pow10_le(1, 2);
    }
    if h12 < 1 || h12 > 12 || mi > 59 {
        return None;
    }
    let pm = sfx == 'p' || sfx == 'P';
    let h: u64 = h12 % 12 + if pm {
        12
    } else {
        0
    };
    Some(Time { hour: h as u8, minute: mi as u8 })
}

/// The timeslot column: two 12-hour times split on a single dash; any
/// failure leaves the whole timeslot absent.
pub open spec fn timeslot_of(s: Seq<char>) -> Option<Timeslot> {
    let t = trimmed(s);
    let p = first_at(t, '-');
    if p < t.len() {
        match (time12_of(t.take(p)), time12_of(t.skip(p + 1))) {
            (Some(a), Some(b)) => Some(Timeslot { start: a, end: b }),
            _ => None,
        }
    } else {
        None
    }
}

impl Timeslot {
    /// Parses the timeslot column into start and end times.
    pub fn parse(s: &str) -> (r: Option<Timeslot>)
        ensures
            r == timeslot_of(s@),
    {
        let t = trim_exec(s);
        let ghost tv = t@;
        let n = t.unicode_len();
        let p = find_char(t, '-');
        if p == n {
            return None;
        }
        let left = t.substring_char(0, p);
        let right = t.substring_char(p + 1, n);
        proof {
            assert(left@ =~= tv.take(p as int));
            assert(right@ =~= tv.skip(p as int + 1));
        }
        match (parse_time12(left), parse_time12(right)) {
            (Some(a), Some(b)) => Some(Timeslot { start: a, end: b }),
            _ => None,
        }
    }
}

// ---------------------------------------------------------------------
// row records
// ---------------------------------------------------------------------
/// One parsed table row; every field is optional at this stage.
#[derive(Debug)]
pub struct Row {
    pub code: Option<String>,
    pub title: Option<String>,
    pub section: Option<String>,
    pub session_type: Option<SessionType>,
    pub instructor: Option<String>,
    pub units: Option<u8>,
    pub days: Option<Days>,
    pub timeslot: Option<Timeslot>,
    pub building: Option<String>,
    pub room: Option<String>,
}

pub open spec fn opt_view(s: Option<String>) -> Option<Seq<char>> {
    match s {
        Some(x) => Some(x@),
        None => None,
    }
}

pub open spec fn opt_days_view(d: Option<Days>) -> Option<DaysView> {
    match d {
        Some(x) => Some(x@),
        None => None,
    }
}

pub ghost struct RowView {
    pub code: Option<Seq<char>>,
    pub title: Option<Seq<char>>,
    pub section: Option<Seq<char>>,
    pub session_type: Option<SessionType>,
    pub instructor: Option<Seq<char>>,
    pub units: Option<u8>,
    pub days: Option<DaysView>,
    pub timeslot: Option<Timeslot>,
    pub building: Option<Seq<char>>,
    pub room: Option<Seq<char>>,
}

impl View for Row {
    type V = RowView;

    open spec fn view(&self) -> RowView {
        RowView {
            code: opt_view(self.code),
            title: opt_view(self.title),
            section: opt_view(self.section),
            session_type: self.session_type,
            instructor: opt_view(self.instructor),
            units: self.units,
            days: opt_days_view(self.days),
            timeslot: self.timeslot,
            building: opt_view(self.building),
            room: opt_view(self.room),
        }
    }
}

pub open spec fn any_expand(cells: Seq<Seq<char>>) -> bool {
    exists|i: int| 0 <= i < cells.len() && contains_expand(#[trigger] cells[i])
}

/// The row record read off one table row's cell texts, by fixed column
/// position; expand-marker rows and rows with too few cells are skipped.
pub open spec fn row_of(cells: Seq<Seq<char>>) -> Option<RowView> {
    if any_expand(cells) || cells.len() < 11 {
        None
    } else {
        Some(
            RowView {
                code: clean_cell_spec(cells[0]),
                title: clean_cell_spec(cells[1]),
                section: clean_cell_spec(cells[2]),
                session_type: session_type_of(cells[3]),
                instructor: tag_text_spec(cells[4]),
                units: units_of(cells[6]),
                days: days_of(cells[7]),
                timeslot: timeslot_of(cells[8]),
                building: tag_text_spec(cells[9]),
                room: tag_text_spec(cells[10]),
            },
        )
    }
}

impl Row {
    /// Parses one table row from its cell texts. A row carrying the
    /// `Expand:` marker, or exposing fewer than the fixed eleven
    /// columns, is skipped rather than an error.
    pub fn parse(cells: &Vec<String>) -> (r: Option<Row>)
        ensures
            match r {
                Some(row) => row_of(cells.deep_view()) == Some(row@),
                None => row_of(cells.deep_view()) is None,
            },
    {
        let ghost dv = cells.deep_view();
        proof {
            assert(forall|k: int| 0 <= k < dv.len() ==> dv[k] == cells@[k]@);
        }
        let n_cells = cells.len();
        let mut i: usize = 0;
        while i < n_cells
            invariant
                i <= n_cells == cells@.len(),
                dv == cells.deep_view(),
                forall|k: int| 0 <= k < dv.len() ==> dv[k] == cells@[k]@,
                forall|k: int| 0 <= k < i ==> !contains_expand(#[trigger] dv[k]),
            decreases n_cells - i,
        {
            if cell_has_expand(cells[i].as_str()) {
                proof {
                    assert(contains_expand(dv[i as int]));
                }
                return None;
            }
            i = i + 1;
        }
        proof {
            assert(!any_expand(dv));
        }
        if n_cells < 11 {
            return None;
        }
        let row = Row {
            code: clean_cell(cells[0].as_str()),
            title: clean_cell(cells[1].as_str()),
            section: clean_cell(cells[2].as_str()),
            session_type: SessionType::parse(cells[3].as_str()),
            instructor: tag_text(cells[4].as_str()),
            units: parse_units(cells[6].as_str()),
            days: Days::parse(cells[7].as_str()),
            timeslot: Timeslot::parse(cells[8].as_str()),
            building: tag_text(cells[9].as_str()),
            room: tag_text(cells[10].as_str()),
        };
        proof {
            assert(opt_view(row.code) == clean_cell_spec(dv[0]));
            assert(opt_view(row.title) == clean_cell_spec(dv[1]));
            assert(opt_view(row.section) == clean_cell_spec(dv[2]));
            assert(opt_view(row.instructor) == tag_text_spec(dv[4]));
            assert(opt_days_view(row.days) == days_of(dv[7]));
            assert(opt_view(row.building) == tag_text_spec(dv[9]));
            assert(opt_view(row.room) == tag_text_spec(dv[10]));
        }
        Some(row)
    }
}

// ---------------------------------------------------------------------
// assembling courses
// ---------------------------------------------------------------------
/// The session a row describes; the first absent required field is the
/// error that aborts the whole conversion.
pub open spec fn session_of_row(r: RowView) -> Result<SessionView, ParseError> {
    if r.session_type is None {
        Err(ParseError::MissingSessionType)
    } else if r.days is None {
        Err(ParseError::MissingDays)
    } else if r.building is None {
        Err(ParseError::MissingBuilding)
    } else if r.room is None {
        Err(ParseError::MissingRoom)
    } else {
        Ok(
            SessionView {
                section: r.section,
                session_type: match r.session_type {
                    Some(t) => t,
                    None => SessionType::Lecture,
                },
                days: match r.days {
                    Some(d) => d,
                    None => DaysView::Weekdays(Seq::empty()),
                },
                timeslot: r.timeslot,
                building: match r.building {
                    Some(b) => b,
                    None => Seq::empty(),
                },
                room: match r.room {
                    Some(x) => x,
                    None => Seq::empty(),
                },
            },
        )
    }
}

impl Session {
    /// Builds a session from a parsed row; the first absent required
    /// field aborts with its error.
    pub fn from_row(row: Row) -> (r: Result<Session, ParseError>)
        ensures
            match r {
                Ok(s) => session_of_row(row@) == Ok::<SessionView, ParseError>(s@),
                Err(e) => session_of_row(row@) == Err::<SessionView, ParseError>(e),
            },
    {
        let Row { section, session_type, days, timeslot, building, room, .. } = row;
        let session_type = match session_type {
            Some(t) => t,
            None => {
                return Err(ParseError::MissingSessionType);
            },
        };
        let days = match days {
            Some(d) => d,
            None => {
                return Err(ParseError::MissingDays);
            },
        };
        let building = match building {
            Some(b) => b,
            None => {
                return Err(ParseError::MissingBuilding);
            },
        };
        let room = match room {
            Some(x) => x,
            None => {
                return Err(ParseError::MissingRoom);
            },
        };
        Ok(Session { section, session_type, days, timeslot, building, room })
    }
}

/// A finished course as the assembler determines it; the generated
/// identifier is left out, since it is fresh randomness.
pub ghost struct CourseRec {
    pub code: Seq<char>,
    pub title: Seq<char>,
    pub instructor: Seq<char>,
    pub units: u8,
    pub sessions: Seq<SessionView>,
}

/// The carry-forward grouping rule: scan rows from the last backward,
/// accumulate each row's session, and close a course at every row that
/// carries a course code; leftover sessions at the front are dropped.
pub open spec fn assemble(rows: Seq<RowView>, pending: Seq<SessionView>) -> Result<
    Seq<CourseRec>,
    ParseError,
>
    decreases rows.len(),
{
    if rows.len() == 0 {
        Ok(Seq::empty())
    } else {
        let r = rows.last();
        match session_of_row(r) {
            Err(e) => Err(e),
            Ok(s) => {
                let pending2 = pending.push(s);
                match r.code {
                    None => assemble(rows.drop_last(), pending2),
                    Some(code) => {
                        if r.title is None {
                            Err(ParseError::MissingTitle)
                        } else if r.instructor is None {
                            Err(ParseError::MissingInstructor)
                        } else if r.units is None {
                            Err(ParseError::MissingUnits)
                        } else {
                            match assemble(rows.drop_last(), Seq::empty()) {
                                Err(e) => Err(e),
                                Ok(cs) => Ok(
                                    cs.push(
                                        CourseRec {
                                            code,
                                            title: match r.title {
                                                Some(t) => t,
                                                None => Seq::empty(),
                                            },
                                            instructor: match r.instructor {
                                                Some(t) => t,
                                                None => Seq::empty(),
                                            },
                                            units: match r.units {
                                                Some(u) => u,
                                                None => 0,
                                            },
                                            sessions: pending2,
                                        },
                                    ),
                                ),
                            }
                        }
                    },
                }
            },
        }
    }
}

pub open spec fn row_views(rs: Seq<Row>) -> Seq<RowView> {
    rs.map_values(|r: Row| r@)
}

pub open spec fn session_views(ss: Seq<Session>) -> Seq<SessionView> {
    ss.map_values(|s: Session| s@)
}

/// An executable course agrees with its record: same fields, the term
/// dates attached, and a generated identifier of the standard length.
pub open spec fn course_matches(c: Course, rec: CourseRec, sd: Date, ed: Date) -> bool {
    &&& c.code@ == rec.code
    &&& c.title@ == rec.title
    &&& c.instructor@ == rec.instructor
    &&& c.units == rec.units
    &&& session_views(c.sessions@) == rec.sessions
    &&& c.uuid@.len() == 36
    &&& c.start_date == sd
    &&& c.end_date == ed
}

/// A fresh random identifier in hyphenated form.
/// Relies on uuid's Uuid::new_v4 and its Display implementation, which
/// prints exactly 36 characters.
#[verifier::external_body]
fn fresh_uuid() -> (r: String)
    ensures
        r@.len() == 36,
{
    uuid::Uuid::new_v4().to_string()
}

impl Course {
    /// Groups parsed rows into courses: scan from the last row backward
    /// collecting sessions; a row that carries a course code closes a
    /// course over the sessions collected since the previous one.
    pub fn from_rows(rows: Vec<Row>, start_date: Date, end_date: Date) -> (r: Result<
        Vec<Course>,
        ParseError,
    >)
        ensures
            match r {
                Ok(cs) => {
                    &&& assemble(row_views(rows@), Seq::empty()) matches Ok(recs)
                    &&& cs@.len() == recs.len()
                    &&& forall|j: int|
                        0 <= j < recs.len() ==> course_matches(
                            #[trigger] cs@[j],
                            recs[j],
                            start_date,
                            end_date,
                        )
                },
                Err(e) => assemble(row_views(rows@), Seq::empty()) == Err::<
                    Seq<CourseRec>,
                    ParseError,
                >(e),
            },
    {
        let ghost all = row_views(rows@);
        let mut rest = rows;
        let mut flushed: Vec<Course> = Vec::new();
        let mut pending: Vec<Session> = Vec::new();
        let ghost mut done_recs: Seq<CourseRec> = Seq::empty();
        proof {
            assert(session_views(pending@) =~= Seq::<SessionView>::empty());
            assert(match assemble(row_views(rest@), session_views(pending@)) {
                Ok(cs) => assemble(all, Seq::empty()) == Ok::<Seq<CourseRec>, ParseError>(
                    cs + done_recs,
                ),
                Err(e) => assemble(all, Seq::empty()) == Err::<Seq<CourseRec>, ParseError>(e),
            }) by {
                if assemble(all, Seq::empty()) is Ok {
                    let cs = assemble(all, Seq::empty()).unwrap();
                    assert(cs + done_recs =~= cs);
                }
            }
        }
        while rest.len() > 0
            invariant
                all == row_views(rows@),
                flushed@.len() == done_recs.len(),
                forall|j: int|
                    0 <= j < done_recs.len() ==> course_matches(
                        #[trigger] flushed@[j],
                        done_recs[done_recs.len() - 1 - j],
                        start_date,
                        end_date,
                    ),
                match assemble(row_views(rest@), session_views(pending@)) {
                    Ok(cs) => assemble(all, Seq::empty()) == Ok::<Seq<CourseRec>, ParseError>(
                        cs + done_recs,
                    ),
                    Err(e) => assemble(all, Seq::empty()) == Err::<Seq<CourseRec>, ParseError>(e),
                },
            decreases rest@.len(),
        {
            let ghost rest0 = rest@;
            let ghost pending0 = pending@;
            let row = rest.pop().unwrap();
            let ghost rv = row@;
            proof {
                assert(row_views(rest0).last() == rv);
                assert(row_views(rest0).drop_last() =~= row_views(rest@));
            }
            let Row { code, title, section, session_type, instructor, units, days, timeslot, building, room } =
                row;
            let session_type = match session_type {
                Some(t) => t,
                None => {
                    return Err(ParseError::MissingSessionType);
                },
            };
            let days = match days {
                Some(d) => d,
                None => {
                    return Err(ParseError::MissingDays);
                },
            };
            let building = match building {
                Some(b) => b,
                None => {
                    return Err(ParseError::MissingBuilding);
                },
            };
            let room = match room {
                Some(x) => x,
                None => {
                    return Err(ParseError::MissingRoom);
                },
            };
            let session = Session { section, session_type, days, timeslot, building, room };
            proof {
                assert(session_of_row(rv) == Ok::<SessionView, ParseError>(session@));
            }
            pending.push(session);
            proof {
                assert(session_views(pending@) =~= session_views(pending0).push(session@));
            }
            match code {
                None => {
                    proof {
                        assert(rv.code is None);
                    }
                },
                Some(code_str) => {
                    let title_s = match title {
                        Some(t) => t,
                        None => {
                            return Err(ParseError::MissingTitle);
                        },
                    };
                    let instr_s = match instructor {
                        Some(t) => t,
                        None => {
                            return Err(ParseError::MissingInstructor);
                        },
                    };
                    let units_v = match units {
                        Some(u) => u,
                        None => {
                            return Err(ParseError::MissingUnits);
                        },
                    };
                    let uuid = fresh_uuid();
                    let course_sessions = pending;
                    pending = Vec::new();
                    let ghost rec = CourseRec {
                        code: code_str@,
                        title: title_s@,
                        instructor: instr_s@,
                        units: units_v,
                        sessions: session_views(course_sessions@),
                    };
                    let course = Course {
                        code: code_str,
                        title: title_s,
                        sessions: course_sessions,
                        instructor: instr_s,
                        units: units_v,
                        uuid,
                        start_date,
                        end_date,
                    };
                    flushed.push(course);
                    proof {
                        let ghost done0 = done_recs;
                        done_recs = seq![rec] + done_recs;
                        assert(course_matches(course, rec, start_date, end_date));
                        assert(done_recs[done_recs.len() - 1 - (done_recs.len() - 1)] == rec);
                        assert forall|j: int| 0 <= j < done_recs.len() implies course_matches(
                            #[trigger] flushed@[j],
                            done_recs[done_recs.len() - 1 - j],
                            start_date,
                            end_date,
                        ) by {
                            if j < done_recs.len() - 1 {
                                assert(flushed@[j] == flushed@.drop_last()[j]);
                                assert(done_recs[done_recs.len() - 1 - j] == done0[done0.len() - 1
                                    - j]);
                            }
                        }
                        assert(session_views(pending@) =~= Seq::<SessionView>::empty());
                        match assemble(row_views(rest@), Seq::empty()) {
                            Ok(cs) => {
                                assert((cs.push(rec)) + done0 =~= cs + done_recs);
                            },
                            Err(_) => {
                            },
                        }
                    }
                },
            }
        }
        proof {
            assert(row_views(rest@) =~= Seq::<RowView>::empty());
            assert(assemble(row_views(rest@), session_views(pending@)) == Ok::<
                Seq<CourseRec>,
                ParseError,
            >(Seq::empty()));
            assert(Seq::<CourseRec>::empty() + done_recs =~= done_recs);
            assert(assemble(all, Seq::empty()) == Ok::<Seq<CourseRec>, ParseError>(done_recs));
        }
        // restore the document's top-to-bottom ordering
        let ghost done_n = done_recs.len();
        let mut result: Vec<Course> = Vec::new();
        while flushed.len() > 0
            invariant
                assemble(row_views(rows@), Seq::empty()) == Ok::<Seq<CourseRec>, ParseError>(
                    done_recs,
                ),
                flushed@.len() + result@.len() == done_n == done_recs.len(),
                forall|j: int|
                    0 <= j < done_recs.len() - result@.len() ==> course_matches(
                        #[trigger] flushed@[j],
                        done_recs[done_recs.len() - 1 - j],
                        start_date,
                        end_date,
                    ),
                forall|j: int|
                    0 <= j < result@.len() ==> course_matches(
                        #[trigger] result@[j],
                        done_recs[j],
                        start_date,
                        end_date,
                    ),
            decreases flushed@.len(),
        {
            let c = flushed.pop().unwrap();
            result.push(c);
        }
        Ok(result)
    }
}

// ---------------------------------------------------------------------
// what the grouping rule guarantees
// ---------------------------------------------------------------------
pub open spec fn count_code_rows(rows: Seq<RowView>) -> int
    decreases rows.len(),
{
    if rows.len() == 0 {
        0
    } else {
        count_code_rows(rows.drop_last()) + if rows.last().code is Some {
            1int
        } else {
            0int
        }
    }
}

/// When a document converts, it yields exactly one course for each row
/// that carries the course-level fields.
pub proof fn lemma_course_count(rows: Seq<RowView>, pending: Seq<SessionView>)
    requires
        assemble(rows, pending) is Ok,
    ensures
        match assemble(rows, pending) {
            Ok(cs) => cs.len() == count_code_rows(rows),
            Err(_) => true,
        },
    decreases rows.len(),
{
    if rows.len() > 0 {
        let r = rows.last();
        match session_of_row(r) {
            Err(_) => {},
            Ok(s) => {
                match r.code {
                    None => {
                        lemma_course_count(rows.drop_last(), pending.push(s));
                    },
                    Some(_) => {
                        lemma_course_count(rows.drop_last(), Seq::empty());
                    },
                }
            },
        }
    }
}

pub open spec fn sessions_all_ok(rows: Seq<RowView>) -> bool {
    forall|i: int| 0 <= i < rows.len() ==> session_of_row(#[trigger] rows[i]) is Ok
}

/// The sessions of a run of rows, newest row first, as the assembler
/// accumulates them.
pub open spec fn rev_sessions(rows: Seq<RowView>) -> Seq<SessionView>
    decreases rows.len(),
{
    if rows.len() == 0 {
        Seq::empty()
    } else {
        match session_of_row(rows.last()) {
            Ok(s) => seq![s] + rev_sessions(rows.drop_last()),
            Err(_) => rev_sessions(rows.drop_last()),
        }
    }
}

proof fn lemma_rev_sessions_index(rows: Seq<RowView>)
    requires
        sessions_all_ok(rows),
    ensures
        rev_sessions(rows).len() == rows.len(),
        forall|k: int|
            0 <= k < rows.len() ==> session_of_row(rows[rows.len() - 1 - k]) == Ok::<
                SessionView,
                ParseError,
            >(rev_sessions(rows)[k]),
    decreases rows.len(),
{
    if rows.len() > 0 {
        assert(sessions_all_ok(rows.drop_last())) by {
            assert forall|i: int| 0 <= i < rows.drop_last().len() implies session_of_row(
                #[trigger] rows.drop_last()[i],
            ) is Ok by {
                assert(rows.drop_last()[i] == rows[i]);
            }
        }
        lemma_rev_sessions_index(rows.drop_last());
        assert(session_of_row(rows.last()) is Ok);
        assert forall|k: int| 0 <= k < rows.len() implies session_of_row(rows[rows.len() - 1 - k])
            == Ok::<SessionView, ParseError>(rev_sessions(rows)[k]) by {
            if k > 0 {
                assert(rev_sessions(rows)[k] == rev_sessions(rows.drop_last())[k - 1]);
                assert(rows.drop_last()[rows.drop_last().len() - 1 - (k - 1)] == rows[rows.len() - 1
                    - k]);
            }
        }
    }
}

proof fn lemma_noncode_accum(rows1: Seq<RowView>, rows2: Seq<RowView>, pending: Seq<SessionView>)
    requires
        forall|i: int| 0 <= i < rows2.len() ==> (#[trigger] rows2[i]).code is None,
        assemble(rows1 + rows2, pending) is Ok,
    ensures
        sessions_all_ok(rows2),
        assemble(rows1 + rows2, pending) == assemble(rows1, pending + rev_sessions(rows2)),
    decreases rows2.len(),
{
    if rows2.len() == 0 {
        assert(rows1 + rows2 =~= rows1);
        assert(pending + rev_sessions(rows2) =~= pending);
    } else {
        let r = rows2.last();
        assert((rows1 + rows2).last() == r);
        assert((rows1 + rows2).drop_last() =~= rows1 + rows2.drop_last());
        match session_of_row(r) {
            Err(_) => {
                assert(assemble(rows1 + rows2, pending) is Err);
            },
            Ok(s) => {
                assert(r.code is None);
                assert(forall|i: int|
                    0 <= i < rows2.drop_last().len() ==> (#[trigger] rows2.drop_last()[i]).code
                        is None) by {
                    assert(forall|i: int|
                        0 <= i < rows2.drop_last().len() ==> rows2.drop_last()[i] == rows2[i]);
                }
                lemma_noncode_accum(rows1, rows2.drop_last(), pending.push(s));
                assert(pending.push(s) + rev_sessions(rows2.drop_last()) =~= pending + (seq![s]
                    + rev_sessions(rows2.drop_last())));
                assert(sessions_all_ok(rows2)) by {
                    assert forall|i: int| 0 <= i < rows2.len() implies session_of_row(
                        #[trigger] rows2[i],
                    ) is Ok by {
                        if i < rows2.len() - 1 {
                            assert(rows2.drop_last()[i] == rows2[i]);
                        }
                    }
                }
            },
        }
    }
}

/// The session rows that follow a course-defining row, with no further
/// course-defining row among them, become exactly that one course's
/// sessions, newest first; the earlier rows contribute the earlier
/// courses unchanged.
pub proof fn lemma_block_grouping(rows1: Seq<RowView>, r: RowView, rows2: Seq<RowView>)
    requires
        r.code is Some,
        forall|i: int| 0 <= i < rows2.len() ==> (#[trigger] rows2[i]).code is None,
        assemble(rows1 + seq![r] + rows2, Seq::empty()) is Ok,
    ensures
        sessions_all_ok(rows2),
        session_of_row(r) is Ok,
        assemble(rows1, Seq::empty()) is Ok,
        ({
            let recs = match assemble(rows1 + seq![r] + rows2, Seq::empty()) {
                Ok(cs) => cs,
                Err(_) => Seq::empty(),
            };
            let prev = match assemble(rows1, Seq::empty()) {
                Ok(cs) => cs,
                Err(_) => Seq::empty(),
            };
            &&& recs.len() == prev.len() + 1
            &&& recs.last().sessions.len() == rows2.len() + 1
            &&& session_of_row(r) == Ok::<SessionView, ParseError>(recs.last().sessions.last())
            &&& forall|k: int|
                0 <= k < rows2.len() ==> session_of_row(rows2[rows2.len() - 1 - k]) == Ok::<
                    SessionView,
                    ParseError,
                >(recs.last().sessions[k])
            &&& forall|j: int| 0 <= j < prev.len() ==> recs[j] == prev[j]
        }),
{
    assert(rows1 + seq![r] + rows2 =~= (rows1 + seq![r]) + rows2);
    lemma_noncode_accum(rows1 + seq![r], rows2, Seq::empty());
    lemma_rev_sessions_index(rows2);
    let pv = Seq::<SessionView>::empty() + rev_sessions(rows2);
    assert(pv =~= rev_sessions(rows2));
    assert((rows1 + seq![r]).last() == r);
    assert((rows1 + seq![r]).drop_last() =~= rows1);
    match session_of_row(r) {
        Err(_) => {
            assert(assemble(rows1 + seq![r], pv) is Err);
        },
        Ok(s) => {
            match assemble(rows1, Seq::empty()) {
                Err(_) => {
                    assert(assemble(rows1 + seq![r], pv) is Err);
                },
                Ok(prev) => {
                    let recs = match assemble(rows1 + seq![r] + rows2, Seq::empty()) {
                        Ok(cs) => cs,
                        Err(_) => Seq::empty(),
                    };
                    assert(recs == prev.push(
                        CourseRec {
                            code: match r.code {
                                Some(c) => c,
                                None => Seq::empty(),
                            },
                            title: match r.title {
                                Some(t) => t,
                                None => Seq::empty(),
                            },
                            instructor: match r.instructor {
                                Some(t) => t,
                                None => Seq::empty(),
                            },
                            units: match r.units {
                                Some(u) => u,
                                None => 0,
                            },
                            sessions: pv.push(s),
                        },
                    ));
                },
            }
        },
    }
}

/// A row with the expand marker in any of its cells yields no row
/// record at all, so it can reach no session and no course.
pub proof fn lemma_expand_row_skipped(cells: Seq<Seq<char>>, i: int)
    requires
        0 <= i < cells.len(),
        contains_expand(cells[i]),
    ensures
        row_of(cells) is None,
{
    assert(any_expand(cells));
}

/// A course block whose terminating row lacks its units makes the whole
/// conversion fail with the units error, so no course list comes out.
pub proof fn lemma_missing_units_fails(rows: Seq<RowView>, pending: Seq<SessionView>)
    requires
        exists|i: int|
            0 <= i < rows.len() && (#[trigger] rows[i]).code is Some && rows[i].units is None,
        forall|i: int| 0 <= i < rows.len() ==> session_of_row(#[trigger] rows[i]) is Ok,
        forall|i: int|
            0 <= i < rows.len() && (#[trigger] rows[i]).code is Some ==> rows[i].title is Some
                && rows[i].instructor is Some,
    ensures
        assemble(rows, pending) == Err::<Seq<CourseRec>, ParseError>(ParseError::MissingUnits),
    decreases rows.len(),
{
    let w = choose|i: int|
        0 <= i < rows.len() && (#[trigger] rows[i]).code is Some && rows[i].units is None;
    let r = rows.last();
    assert(session_of_row(r) is Ok);
    if r.code is Some && r.units is None {
        // the terminating row itself fails on its units
    } else {
        assert(w < rows.len() - 1);
        assert(rows.drop_last()[w] == rows[w]);
        assert(forall|i: int|
            0 <= i < rows.drop_last().len() ==> rows.drop_last()[i] == rows[i]);
        match session_of_row(r) {
            Err(_) => {},
            Ok(s) => {
                match r.code {
                    None => {
                        lemma_missing_units_fails(rows.drop_last(), pending.push(s));
                    },
                    Some(_) => {
                        lemma_missing_units_fails(rows.drop_last(), Seq::empty());
                    },
                }
            },
        }
    }
}

// ---------------------------------------------------------------------
// the document entry point
// ---------------------------------------------------------------------
/// What the source table holds for a document: every row of the table
/// `#list-id-table`, header row included, each as the list of its `td`
/// cells' inner HTML.
pub uninterp spec fn table_rows_of(html: Seq<char>) -> Seq<Seq<Seq<char>>>;

/// Extracts the rows of the schedule table from the document.
/// Relies on scraper's Html::parse_document, Selector::parse,
/// Html::select, ElementRef::select and ElementRef::inner_html; the
/// result is a pure function of the document text.
#[verifier::external_body]
fn extract_rows(html: &str) -> (r: Vec<Vec<String>>)
    ensures
        r.deep_view() == table_rows_of(html@),
{
    let document = scraper::Html::parse_document(html);
    let row_selector = scraper::Selector::parse("#list-id-table > tbody > tr").unwrap();
    let col_selector = scraper::Selector::parse("td").unwrap();
    let mut rows = Vec::new();
    for row in document.select(&row_selector) {
        let mut cells = Vec::new();
        for col in row.select(&col_selector) {
            cells.push(col.inner_html());
        }
        rows.push(cells);
    }
    rows
}

/// The table rows minus the header row.
pub open spec fn tail_rows(t: Seq<Seq<Seq<char>>>) -> Seq<Seq<Seq<char>>> {
    if t.len() == 0 {
        t
    } else {
        t.drop_first()
    }
}

/// The usable row records of a row list, in order.
pub open spec fn parsed_rows(rs: Seq<Seq<Seq<char>>>) -> Seq<RowView>
    decreases rs.len(),
{
    if rs.len() == 0 {
        Seq::empty()
    } else {
        match row_of(rs.first()) {
            Some(r) => seq![r] + parsed_rows(rs.drop_first()),
            None => parsed_rows(rs.drop_first()),
        }
    }
}

proof fn lemma_parsed_rows_snoc(rs: Seq<Seq<Seq<char>>>, x: Seq<Seq<char>>)
    ensures
        parsed_rows(rs.push(x)) == match row_of(x) {
            Some(r) => parsed_rows(rs).push(r),
            None => parsed_rows(rs),
        },
    decreases rs.len(),
{
    if rs.len() == 0 {
        assert(rs.push(x).first() == x);
        assert(rs.push(x).drop_first() =~= Seq::<Seq<Seq<char>>>::empty());
        assert(parsed_rows(Seq::<Seq<Seq<char>>>::empty()) == Seq::<RowView>::empty());
        assert(parsed_rows(rs) == Seq::<RowView>::empty());
        match row_of(x) {
            Some(r) => {
                assert(parsed_rows(rs.push(x)) == seq![r] + parsed_rows(
                    rs.push(x).drop_first(),
                ));
                assert(seq![r] + Seq::<RowView>::empty() =~= parsed_rows(rs).push(r));
            },
            None => {},
        }
    } else {
        assert(rs.push(x).first() == rs.first());
        assert(rs.push(x).drop_first() =~= rs.drop_first().push(x));
        lemma_parsed_rows_snoc(rs.drop_first(), x);
        assert(parsed_rows(rs.push(x)) == match row_of(rs.first()) {
            Some(h) => seq![h] + parsed_rows(rs.drop_first().push(x)),
            None => parsed_rows(rs.drop_first().push(x)),
        });
        assert(parsed_rows(rs) == match row_of(rs.first()) {
            Some(h) => seq![h] + parsed_rows(rs.drop_first()),
            None => parsed_rows(rs.drop_first()),
        });
        match row_of(x) {
            Some(r) => {
                match row_of(rs.first()) {
                    Some(h) => {
                        assert(seq![h] + parsed_rows(rs.drop_first()).push(r) =~= (seq![h]
                            + parsed_rows(rs.drop_first())).push(r));
                    },
                    None => {},
                }
            },
            None => {},
        }
    }
}

/// The whole document's conversion result, identifiers aside.
pub open spec fn courses_result(html: Seq<char>) -> Result<Seq<CourseRec>, ParseError> {
    assemble(parsed_rows(tail_rows(table_rows_of(html))), Seq::empty())
}

impl Course {
    /// Converts a captured schedule document into courses: the rows of
    /// the schedule table, header skipped, parsed and grouped; the term
    /// dates are attached to every course.
    pub fn from_html(html: &str, start_date: Date, end_date: Date) -> (r: Result<
        Vec<Course>,
        ParseError,
    >)
        ensures
            match r {
                Ok(cs) => {
                    &&& courses_result(html@) matches Ok(recs)
                    &&& cs@.len() == recs.len()
                    &&& forall|j: int|
                        0 <= j < recs.len() ==> course_matches(
                            #[trigger] cs@[j],
                            recs[j],
                            start_date,
                            end_date,
                        )
                },
                Err(e) => courses_result(html@) == Err::<Seq<CourseRec>, ParseError>(e),
            },
    {
        let table = extract_rows(html);
        let ghost tv = table.deep_view();
        let mut rows: Vec<Row> = Vec::new();
        let mut i: usize = 1;
        proof {
            assert(forall|k: int| 0 <= k < tv.len() ==> tv[k] == table@[k].deep_view());
            if tv.len() >= 1 {
                assert(tv.subrange(1, 1) =~= Seq::<Seq<Seq<char>>>::empty());
            }
        }
        while i < table.len()
            invariant
                1 <= i,
                i <= table@.len() || i == 1,
                tv == table.deep_view(),
                tv.len() == table@.len(),
                forall|k: int| 0 <= k < tv.len() ==> tv[k] == table@[k].deep_view(),
                i <= tv.len() ==> row_views(rows@) == parsed_rows(tv.subrange(1, i as int)),
                tv.len() == 0 ==> rows@.len() == 0,
            decreases tv.len() - i,
        {
            let ghost pre = tv.subrange(1, i as int);
            match Row::parse(&table[i]) {
                Some(row) => {
                    let ghost rows0 = rows@;
                    rows.push(row);
                    proof {
                        lemma_parsed_rows_snoc(pre, tv[i as int]);
                        assert(pre.push(tv[i as int]) =~= tv.subrange(1, i as int + 1));
                        assert(row_views(rows@) =~= row_views(rows0).push(row@));
                    }
                },
                None => {
                    proof {
                        lemma_parsed_rows_snoc(pre, tv[i as int]);
                        assert(pre.push(tv[i as int]) =~= tv.subrange(1, i as int + 1));
                    }
                },
            }
            i = i + 1;
        }
        proof {
            if tv.len() == 0 {
                assert(tail_rows(tv) =~= tv);
                assert(row_views(rows@) =~= Seq::<RowView>::empty());
            } else {
                assert(tv.subrange(1, tv.len() as int) =~= tail_rows(tv));
            }
            assert(row_views(rows@) == parsed_rows(tail_rows(tv)));
        }
        Course::from_rows(rows, start_date, end_date)
    }
}

} // verus!
