//! The daily event window: the minute of the hour at which it opens, and the
//! minutes for which it stays open.

use crate::binary64::scale_into_range;
use crate::calendar::{is_date, ordinal0, Date};
use crate::php5random::{draw_at, seeded_window, Php5Random};
use vstd::prelude::*;

verus! {

/// The minute that stands for a day without a window.
pub const SKIP: i8 = 60;

/// The seed for a date: 365 times the year plus the day's position within
/// the year, counted from zero, modulo 2^32.
pub open spec fn seed_of_date(year: int, month: int, day: int) -> u32 {
    ((year * 365 + ordinal0(year, month, day)) % 0x1_0000_0000) as u32
}

/// The minute at which the window of a date opens: the first draw of the
/// generator seeded for the date, mapped into the range from 1 to 60.
pub open spec fn minute_of(year: int, month: int, day: int) -> int {
    scale_into_range(1, 60, draw_at(seeded_window(seed_of_date(year, month, day)), 0)) as int
}

/// The minutes of a window that opens at `minute`: that minute and the three
/// after it, as far as they lie within the hour.
pub open spec fn window_of(minute: int) -> Seq<i8> {
    Seq::new(
        if minute > 59 {
            0nat
        } else if minute > 56 {
            (60 - minute) as nat
        } else {
            4nat
        },
        |i: int| (minute + i) as i8,
    )
}

/// The Symol hole's event window.
pub struct Symol;

impl Symol {
    /// Returns the first minute that the given date's window is open for.
    /// Returns 60 on skip days. The largest possible draw yields 61, which
    /// opens no window either.
    pub fn get_minute_rust(year: i32, month: u8, day: u8) -> (minute: i8)
        requires
            is_date(year as int, month as int, day as int),
        ensures
            minute == minute_of(year as int, month as int, day as int),
            1 <= minute <= 61,
    {
        let date = Date { year, month, day };
        let y: u32 = if year < 0 {
            (year as i64 + 0x1_0000_0000) as u32
        } else {
            year as u32
        };
        let seed = y.wrapping_mul(365).wrapping_add(date.ordinal0());
        assert(seed == seed_of_date(year as int, month as int, day as int));
        let mut phpr = Php5Random::new(seed);
        phpr.rand_range(1, 60) as i8
    }

    /// Returns the minutes, up to four, that the given date's window is open
    /// for: none on a skip day.
    pub fn get_window_rust(year: i32, month: u8, day: u8) -> (window: Vec<i8>)
        requires
            is_date(year as int, month as int, day as int),
        ensures
            window@ == window_of(minute_of(year as int, month as int, day as int)),
    {
        let minute = Symol::get_minute_rust(year, month, day);
        let mut window: Vec<i8> = Vec::new();
        let mut m = minute;
        while m < minute + 4 && m <= 59
            invariant
                1 <= minute <= 61,
                minute <= m <= minute + 4,
                m <= 60 || m == minute,
                window@.len() == m - minute,
                forall|i: int| 0 <= i < window@.len() ==> window@[i] == minute + i,
            decreases minute + 4 - m,
        {
            window.push(m);
            m += 1;
        }
        assert(window@ =~= window_of(minute as int));
        window
    }
}

} // verus!
