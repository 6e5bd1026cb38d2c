//! Calendar dates as plain year, month and day, and their text renderings.
//!
//! A date renders as `dd/mm/yyyy`.  A contextual rendering drops the
//! components already implied by a context date: same year gives `dd/mm/`,
//! same year and month give `dd//`, the same date gives nothing.

use vstd::prelude::*;

use crate::money::digit_char;

verus! {

/// A calendar date.
#[derive(PartialEq, Eq, Structural, Clone, Copy, Debug, Hash)]
pub struct Date {
    pub year: u32,
    pub month: u32,
    pub day: u32,
}

/// The ranges a date's fields must lie in for rendering.
pub open spec fn date_wf(d: Date) -> bool {
    d.year <= 9999 && 1 <= d.month <= 12 && 1 <= d.day <= 31
}

impl Date {
    /// Builds a date from its components.
    pub fn from_ymd(year: u32, month: u32, day: u32) -> (r: Date)
        requires
            year <= 9999,
            1 <= month <= 12,
            1 <= day <= 31,
        ensures
            r == (Date { year, month, day }),
            date_wf(r),
    {
        Date { year, month, day }
    }
}

/// A number rendered as exactly two digits.
pub open spec fn two_digit_chars(n: int) -> Seq<char> {
    seq![digit_char(n / 10), digit_char(n % 10)]
}

/// A number rendered as exactly four digits.
pub open spec fn four_digit_chars(n: int) -> Seq<char> {
    seq![
        digit_char(n / 1000),
        digit_char((n / 100) % 10),
        digit_char((n / 10) % 10),
        digit_char(n % 10),
    ]
}

/// The absolute rendering of a date: `dd/mm/yyyy`.
pub open spec fn date_chars(d: Date) -> Seq<char> {
    two_digit_chars(d.day as int) + seq!['/'] + two_digit_chars(d.month as int) + seq!['/']
        + four_digit_chars(d.year as int)
}

/// The contextual rendering of a date against a context date: only the
/// components that differ from the context appear.
pub open spec fn contextual_date_chars(d: Date, context: Date) -> Seq<char> {
    if d.year != context.year {
        date_chars(d)
    } else if d.month != context.month {
        two_digit_chars(d.day as int) + seq!['/'] + two_digit_chars(d.month as int) + seq!['/']
    } else if d.day != context.day {
        two_digit_chars(d.day as int) + seq!['/', '/']
    } else {
        Seq::empty()
    }
}

fn push_two_digits(s: &mut String, n: u32)
    requires
        n < 100,
    ensures
        final(s)@ == old(s)@ + two_digit_chars(n as int),
{
    crate::money::push_char(s, crate::money::digit_char_exec((n / 10) as u8));
    crate::money::push_char(s, crate::money::digit_char_exec((n % 10) as u8));
    proof {
        assert(s@ =~= old(s)@ + two_digit_chars(n as int));
    }
}

fn push_four_digits(s: &mut String, n: u32)
    requires
        n < 10000,
    ensures
        final(s)@ == old(s)@ + four_digit_chars(n as int),
{
    crate::money::push_char(s, crate::money::digit_char_exec((n / 1000) as u8));
    crate::money::push_char(s, crate::money::digit_char_exec(((n / 100) % 10) as u8));
    crate::money::push_char(s, crate::money::digit_char_exec(((n / 10) % 10) as u8));
    crate::money::push_char(s, crate::money::digit_char_exec((n % 10) as u8));
    proof {
        assert(s@ =~= old(s)@ + four_digit_chars(n as int));
    }
}

/// Renders a date absolutely, as `dd/mm/yyyy`.
pub fn format_date(date: &Date) -> (r: String)
    requires
        date_wf(*date),
    ensures
        r@ == date_chars(*date),
{
    let mut r = String::new();
    push_two_digits(&mut r, date.day);
    crate::money::push_char(&mut r, '/');
    push_two_digits(&mut r, date.month);
    crate::money::push_char(&mut r, '/');
    push_four_digits(&mut r, date.year);
    proof {
        assert(r@ =~= date_chars(*date));
    }
    r
}

/// Renders a date against a context date, dropping the components the
/// context already implies.
pub fn format_contextual_date(date: &Date, context: &Date) -> (r: String)
    requires
        date_wf(*date),
    ensures
        r@ == contextual_date_chars(*date, *context),
{
    if date.year != context.year {
        format_date(date)
    } else if date.month != context.month {
        let mut r = String::new();
        push_two_digits(&mut r, date.day);
        crate::money::push_char(&mut r, '/');
        push_two_digits(&mut r, date.month);
        crate::money::push_char(&mut r, '/');
        proof {
            assert(r@ =~= contextual_date_chars(*date, *context));
        }
        r
    } else if date.day != context.day {
        let mut r = String::new();
        push_two_digits(&mut r, date.day);
        crate::money::push_char(&mut r, '/');
        crate::money::push_char(&mut r, '/');
        proof {
            assert(r@ =~= contextual_date_chars(*date, *context));
        }
        r
    } else {
        let r = String::new();
        proof {
            assert(r@ =~= contextual_date_chars(*date, *context));
        }
        r
    }
}

} // verus!
