//! The calendar: pure derivations of [`Epoch`], never stored. One epoch is
//! one day; epoch 0 is the dawn of the calendar (Day 1, Month 1, Year 0),
//! before which nothing can be.

use vstd::prelude::*;
use crate::game::world::Epoch;
use crate::util::decimal::{decimal, format_u64};
use crate::util::text::string_push_str;

verus! {

pub const DAYS_PER_MONTH: u64 = 30;
pub const MONTHS_PER_YEAR: u64 = 12;
pub const DAYS_PER_YEAR: u64 = 360;

/// Distance between two points on the clock, in days, whichever way
/// around they're given.
pub fn days_between(a: Epoch, b: Epoch) -> (d: u64)
    ensures
        d == (if a.0 >= b.0 { a.0 - b.0 } else { b.0 - a.0 }),
{
    if a.0 >= b.0 {
        a.0 - b.0
    } else {
        b.0 - a.0
    }
}

/// A calendar date: years from the dawn, months and days counted from 1.
#[derive(Clone, Copy, PartialEq, Eq, Structural, Debug)]
pub struct Date {
    pub year: u64,
    pub month: u64,
    pub day: u64,
}

/// How a date reads: "Day 1 of Month 1, 700 AUC".
pub open spec fn date_text(d: Date) -> Seq<char> {
    "Day "@ + decimal(d.day as nat) + " of Month "@ + decimal(d.month as nat) + ", "@ + decimal(d.year as nat) + " AUC"@
}

impl Date {
    /// The date of a day on the clock.
    pub fn of(epoch: Epoch) -> (d: Date)
        ensures
            d.year == epoch.0 / 360,
            d.month == epoch.0 % 360 / 30 + 1,
            d.day == epoch.0 % 30 + 1,
            1 <= d.month <= 12,
            1 <= d.day <= 30,
    {
        Date {
            year: epoch.0 / DAYS_PER_YEAR,
            month: epoch.0 % DAYS_PER_YEAR / DAYS_PER_MONTH + 1,
            day: epoch.0 % DAYS_PER_MONTH + 1,
        }
    }

    /// The date as it reads in the chronicle.
    pub fn to_string(&self) -> (s: String)
        ensures
            s@ == date_text(*self),
    {
        let mut s = String::new();
        string_push_str(&mut s, "Day ");
        let day = format_u64(self.day);
        string_push_str(&mut s, day.as_str());
        string_push_str(&mut s, " of Month ");
        let month = format_u64(self.month);
        string_push_str(&mut s, month.as_str());
        string_push_str(&mut s, ", ");
        let year = format_u64(self.year);
        string_push_str(&mut s, year.as_str());
        string_push_str(&mut s, " AUC");
        assert(s@ =~= date_text(*self));
        s
    }
}

/// Days, months and years nest: the date's fields spell the epoch back out.
pub proof fn lemma_date_spells_epoch(e: u64)
    ensures
        ({
            let year = e / 360;
            let month = e % 360 / 30 + 1;
            let day = e % 30 + 1;
            year * 360 + (month - 1) * 30 + (day - 1) == e
        }),
{
    assert(e % 360 % 30 == e % 30) by (nonlinear_arith);
    assert((e / 360) * 360 + e % 360 == e) by (nonlinear_arith);
    assert((e % 360 / 30) * 30 + e % 360 % 30 == e % 360) by (nonlinear_arith);
}

} // verus!
