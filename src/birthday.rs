use crate::random::{pick_in, u16, FastRng};
use rand::seq::IndexedRandom;
use vstd::prelude::*;
use vstd::string::*;

verus! {

/// Number of days in the (non-leap) calendar year.
pub const DAYS_IN_YEAR: u16 = 365;

/// Day of the year on which month `m` (0 = January) begins.
pub open spec fn month_start(m: int) -> int {
    if m <= 0 { 0 }
    else if m == 1 { 31 }
    else if m == 2 { 59 }
    else if m == 3 { 90 }
    else if m == 4 { 120 }
    else if m == 5 { 151 }
    else if m == 6 { 181 }
    else if m == 7 { 212 }
    else if m == 8 { 243 }
    else if m == 9 { 273 }
    else if m == 10 { 304 }
    else if m == 11 { 334 }
    else { 365 }
}

/// The month (0 = January) that holds day `d` of the year.
pub open spec fn month_of(d: int) -> int {
    if d < 31 { 0 }
    else if d < 59 { 1 }
    else if d < 90 { 2 }
    else if d < 120 { 3 }
    else if d < 151 { 4 }
    else if d < 181 { 5 }
    else if d < 212 { 6 }
    else if d < 243 { 7 }
    else if d < 273 { 8 }
    else if d < 304 { 9 }
    else if d < 334 { 10 }
    else { 11 }
}

/// The 1-based day of the month of day `d` of the year.
pub open spec fn day_of_month(d: int) -> int {
    d - month_start(month_of(d)) + 1
}

/// Three-letter English abbreviation of month `m`.
pub open spec fn month_name(m: int) -> Seq<char> {
    if m == 0 { seq!['J', 'a', 'n'] }
    else if m == 1 { seq!['F', 'e', 'b'] }
    else if m == 2 { seq!['M', 'a', 'r'] }
    else if m == 3 { seq!['A', 'p', 'r'] }
    else if m == 4 { seq!['M', 'a', 'y'] }
    else if m == 5 { seq!['J', 'u', 'n'] }
    else if m == 6 { seq!['J', 'u', 'l'] }
    else if m == 7 { seq!['A', 'u', 'g'] }
    else if m == 8 { seq!['S', 'e', 'p'] }
    else if m == 9 { seq!['O', 'c', 't'] }
    else if m == 10 { seq!['N', 'o', 'v'] }
    else { seq!['D', 'e', 'c'] }
}

/// The decimal digit character for `d` in `[0, 10)`.
pub open spec fn digit_char(d: int) -> char {
    if d == 0 { '0' }
    else if d == 1 { '1' }
    else if d == 2 { '2' }
    else if d == 3 { '3' }
    else if d == 4 { '4' }
    else if d == 5 { '5' }
    else if d == 6 { '6' }
    else if d == 7 { '7' }
    else if d == 8 { '8' }
    else { '9' }
}

/// Decimal text of a number below 100, without leading zeros.
pub open spec fn decimal(n: int) -> Seq<char> {
    if n < 10 {
        seq![digit_char(n)]
    } else {
        seq![digit_char(n / 10), digit_char(n % 10)]
    }
}

/// Calendar text of day `d` of the year, such as `Jan 1` or `Dec 31`.
pub open spec fn calendar_text(d: int) -> Seq<char> {
    month_name(month_of(d)) + seq![' '] + decimal(day_of_month(d))
}

/// A day of the year, counted from 0 for January 1st.
#[derive(Clone, Copy, Debug, PartialEq, Eq, Structural)]
pub struct Birthday {
    day: u16,
}

impl View for Birthday {
    type V = u16;

    closed spec fn view(&self) -> u16 {
        self.day
    }
}

impl Birthday {
    #[verifier::type_invariant]
    closed spec fn inv(&self) -> bool {
        self.day < DAYS_IN_YEAR
    }

    /// The birthday on day `day` of the year.
    pub fn new(day: u16) -> (r: Birthday)
        requires
            day < DAYS_IN_YEAR,
        ensures
            r@ == day,
    {
        Birthday { day }
    }

    /// The day of the year, in `[0, 365)`.
    pub fn day_of_year(&self) -> (r: u16)
        ensures
            r == self@,
            r < DAYS_IN_YEAR,
    {
        proof {
            use_type_invariant(self);
        }
        self.day
    }

    /// Month index (0 = January) and 1-based day of the month.
    pub fn month_day(&self) -> (r: (usize, u8))
        ensures
            r.0 as int == month_of(self@ as int),
            r.1 as int == day_of_month(self@ as int),
            r.0 < 12,
            1 <= r.1 <= 31,
    {
        let mut remaining = self.day_of_year();
        let mut month: usize = 0;
        while month < 12
            invariant
                month <= 12,
                self@ < DAYS_IN_YEAR,
                month_start(month as int) <= self@,
                remaining as int == self@ - month_start(month as int),
            decreases 12 - month,
        {
            let days = days_in_month(month);
            if remaining < days {
                return (month, (remaining + 1) as u8);
            }
            remaining = remaining - days;
            month = month + 1;
        }
        // The twelve months together cover all 365 days.
        (11, 31)
    }

    /// Calendar text such as `Jan 1` or `Dec 31`.
    pub fn display(&self) -> (r: String)
        ensures
            r@ == calendar_text(self@ as int),
    {
        let (month, day) = self.month_day();
        let mut text = String::from_str(month_abbrev(month));
        text.append(" ");
        proof {
            reveal_strlit(" ");
        }
        if day >= 10 {
            text.append(digit_text(day / 10));
            text.append(digit_text(day % 10));
        } else {
            text.append(digit_text(day));
        }
        proof {
            assert(text@ =~= calendar_text(self@ as int));
        }
        text
    }

    /// A birthday drawn from `rng` by the xorshift generator.
    pub fn randomm(rng: &mut FastRng) -> (r: Birthday)
        ensures
            final(rng)@ == crate::random::mix(old(rng)@),
            r@ == pick_in(0, DAYS_IN_YEAR, old(rng)@),
            r@ < DAYS_IN_YEAR,
    {
        Birthday::new(u16(rng, 0..DAYS_IN_YEAR))
    }

    /// A birthday drawn uniformly by rand's thread-local generator.
    pub fn random() -> (r: Birthday)
        ensures
            r@ < DAYS_IN_YEAR,
    {
        let mut days: Vec<u16> = Vec::new();
        let mut d: u16 = 0;
        while d < DAYS_IN_YEAR
            invariant
                d <= DAYS_IN_YEAR,
                days@.len() == d,
                forall|i: int| 0 <= i < days@.len() ==> days@[i] == i,
            decreases DAYS_IN_YEAR - d,
        {
            days.push(d);
            d = d + 1;
        }
        match choose_day(days.as_slice()) {
            Some(day) => Birthday::new(day),
            None => Birthday::new(0),
        }
    }
}

/// Number of days of month `m` (0 = January) in a non-leap year.
fn days_in_month(m: usize) -> (r: u16)
    requires
        m < 12,
    ensures
        r as int == month_start(m + 1) - month_start(m as int),
{
    if m == 1 {
        28
    } else if m == 3 || m == 5 || m == 8 || m == 10 {
        30
    } else {
        31
    }
}

/// Three-letter abbreviation of month `m` (0 = January).
fn month_abbrev(m: usize) -> (r: &'static str)
    requires
        m < 12,
    ensures
        r@ == month_name(m as int),
{
    proof {
        reveal_strlit("Jan");
        reveal_strlit("Feb");
        reveal_strlit("Mar");
        reveal_strlit("Apr");
        reveal_strlit("May");
        reveal_strlit("Jun");
        reveal_strlit("Jul");
        reveal_strlit("Aug");
        reveal_strlit("Sep");
        reveal_strlit("Oct");
        reveal_strlit("Nov");
        reveal_strlit("Dec");
    }
    if m == 0 { "Jan" }
    else if m == 1 { "Feb" }
    else if m == 2 { "Mar" }
    else if m == 3 { "Apr" }
    else if m == 4 { "May" }
    else if m == 5 { "Jun" }
    else if m == 6 { "Jul" }
    else if m == 7 { "Aug" }
    else if m == 8 { "Sep" }
    else if m == 9 { "Oct" }
    else if m == 10 { "Nov" }
    else { "Dec" }
}

/// The one-character text of decimal digit `d`.
fn digit_text(d: u8) -> (r: &'static str)
    requires
        d < 10,
    ensures
        r@ == seq![digit_char(d as int)],
{
    proof {
        reveal_strlit("0");
        reveal_strlit("1");
        reveal_strlit("2");
        reveal_strlit("3");
        reveal_strlit("4");
        reveal_strlit("5");
        reveal_strlit("6");
        reveal_strlit("7");
        reveal_strlit("8");
        reveal_strlit("9");
    }
    if d == 0 { "0" }
    else if d == 1 { "1" }
    else if d == 2 { "2" }
    else if d == 3 { "3" }
    else if d == 4 { "4" }
    else if d == 5 { "5" }
    else if d == 6 { "6" }
    else if d == 7 { "7" }
    else if d == 8 { "8" }
    else { "9" }
}

/// Relies on rand's `IndexedRandom::choose` with the thread-local generator
/// `rand::rng()`: `None` for an empty slice, else one of its elements.
#[verifier::external_body]
fn choose_day(days: &[u16]) -> (r: Option<u16>)
    ensures
        days@.len() == 0 <==> r is None,
        r matches Some(d) ==> days@.contains(d),
{
    days.choose(&mut rand::rng()).copied()
}

} // verus!
