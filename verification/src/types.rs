//! The elementary value types: years, days, months and day flags.

use vstd::prelude::*;

verus! {

/// A calendar year.
pub type Year = u16;

/// A day of the month, counted from 1.
pub type Day = u8;

/// The ways in which a fallible operation of this crate can fail.
#[derive(Debug, Copy, Clone, PartialEq, Eq, Structural)]
pub enum CalendarError {
    /// A (year, month, day) combination that does not exist in the calendar.
    InvalidDate,
    /// A range, list or year-month expression that cannot be parsed.
    InvalidSpecFormat,
}

/// The twelve months of the year.
#[derive(Debug, Copy, Clone, PartialEq, Eq, Structural, PartialOrd, Ord, Hash)]
pub enum Month {
    January,
    February,
    March,
    April,
    May,
    June,
    July,
    August,
    September,
    October,
    November,
    December,
}

impl Month {
    /// The ordinal of the month, from 1 for January to 12 for December.
    pub open spec fn index(self) -> int {
        match self {
            Month::January => 1,
            Month::February => 2,
            Month::March => 3,
            Month::April => 4,
            Month::May => 5,
            Month::June => 6,
            Month::July => 7,
            Month::August => 8,
            Month::September => 9,
            Month::October => 10,
            Month::November => 11,
            Month::December => 12,
        }
    }

    /// The month with the given ordinal; January for an ordinal outside 1..=12.
    pub open spec fn of_index(index: int) -> Month {
        if index == 2 {
            Month::February
        } else if index == 3 {
            Month::March
        } else if index == 4 {
            Month::April
        } else if index == 5 {
            Month::May
        } else if index == 6 {
            Month::June
        } else if index == 7 {
            Month::July
        } else if index == 8 {
            Month::August
        } else if index == 9 {
            Month::September
        } else if index == 10 {
            Month::October
        } else if index == 11 {
            Month::November
        } else if index == 12 {
            Month::December
        } else {
            Month::January
        }
    }

    /// Returns the ordinal of the month, 1 for January up to 12 for December.
    pub fn to_index(&self) -> (r: u8)
        ensures
            r == self.index(),
            1 <= r <= 12,
    {
        match self {
            Month::January => 1,
            Month::February => 2,
            Month::March => 3,
            Month::April => 4,
            Month::May => 5,
            Month::June => 6,
            Month::July => 7,
            Month::August => 8,
            Month::September => 9,
            Month::October => 10,
            Month::November => 11,
            Month::December => 12,
        }
    }

    /// Returns the month with the given ordinal, or `None` when the ordinal
    /// is outside 1..=12.
    pub fn from_index(index: u8) -> (r: Option<Month>)
        ensures
            1 <= index <= 12 ==> r == Some(Month::of_index(index as int)),
            !(1 <= index <= 12) ==> r is None,
            r matches Some(m) ==> m.index() == index,
    {
        match index {
            1 => Some(Month::January),
            2 => Some(Month::February),
            3 => Some(Month::March),
            4 => Some(Month::April),
            5 => Some(Month::May),
            6 => Some(Month::June),
            7 => Some(Month::July),
            8 => Some(Month::August),
            9 => Some(Month::September),
            10 => Some(Month::October),
            11 => Some(Month::November),
            12 => Some(Month::December),
            _ => None,
        }
    }

    /// Returns the month after this one, or `None` after December.
    pub fn next(&self) -> (r: Option<Month>)
        ensures
            *self == Month::December ==> r is None,
            *self != Month::December ==> r == Some(Month::of_index(self.index() + 1)),
    {
        match self {
            Month::January => Some(Month::February),
            Month::February => Some(Month::March),
            Month::March => Some(Month::April),
            Month::April => Some(Month::May),
            Month::May => Some(Month::June),
            Month::June => Some(Month::July),
            Month::July => Some(Month::August),
            Month::August => Some(Month::September),
            Month::September => Some(Month::October),
            Month::October => Some(Month::November),
            Month::November => Some(Month::December),
            Month::December => None,
        }
    }

    /// Returns the month before this one, or `None` before January.
    pub fn prev(&self) -> (r: Option<Month>)
        ensures
            *self == Month::January ==> r is None,
            *self != Month::January ==> r == Some(Month::of_index(self.index() - 1)),
    {
        match self {
            Month::January => None,
            Month::February => Some(Month::January),
            Month::March => Some(Month::February),
            Month::April => Some(Month::March),
            Month::May => Some(Month::April),
            Month::June => Some(Month::May),
            Month::July => Some(Month::June),
            Month::August => Some(Month::July),
            Month::September => Some(Month::August),
            Month::October => Some(Month::September),
            Month::November => Some(Month::October),
            Month::December => Some(Month::November),
        }
    }

    /// Returns the month `count` months after this one, or `None` when
    /// that is past December.
    pub fn forward(&self, count: usize) -> (r: Option<Month>)
        ensures
            self.index() + count <= 12 ==> r == Some(Month::of_index(self.index() + count)),
            self.index() + count > 12 ==> r is None,
    {
        let mut current = *self;
        let mut done: usize = 0;
        while done < count
            invariant
                done <= count,
                current.index() == self.index() + done,
            decreases count - done,
        {
            match current.next() {
                Some(next_month) => {
                    current = next_month;
                },
                None => {
                    return None;
                },
            }
            done += 1;
        }
        Some(current)
    }

    /// Returns the month `count` months before this one, or `None` when
    /// that is before January.
    pub fn backward(&self, count: usize) -> (r: Option<Month>)
        ensures
            self.index() - count >= 1 ==> r == Some(Month::of_index(self.index() - count)),
            self.index() - count < 1 ==> r is None,
    {
        let mut current = *self;
        let mut done: usize = 0;
        while done < count
            invariant
                done <= count,
                current.index() == self.index() - done,
            decreases count - done,
        {
            match current.prev() {
                Some(prev_month) => {
                    current = prev_month;
                },
                None => {
                    return None;
                },
            }
            done += 1;
        }
        Some(current)
    }

    /// The months with the ordinals from `from` to `to`, in order.
    pub open spec fn run(from: int, to: int) -> Seq<Month> {
        Seq::new((to - from + 1) as nat, |i: int| Month::of_index(from + i))
    }

    /// The months that a walk from `self` towards `end` visits: those from
    /// `self` to `end` where `end` is not before `self`; otherwise those
    /// from `self` to December, and then `end`.
    pub open spec fn walk_to(self, end: Month) -> Seq<Month> {
        if self.index() <= end.index() {
            Month::run(self.index(), end.index())
        } else {
            Month::run(self.index(), 12).push(end)
        }
    }

    /// Returns the months from `self` to `end`, both included. Where `end`
    /// is before `self`, the walk runs to December and `end` follows.
    pub fn range_to(&self, end: &Self) -> (r: Vec<Month>)
        ensures
            r@ == self.walk_to(*end),
    {
        let mut current = *self;
        let mut months: Vec<Month> = Vec::new();
        let mut stopped = false;
        while current != *end && !stopped
            invariant
                self.index() <= current.index(),
                !stopped ==> months@ == Month::run(self.index(), current.index() - 1),
                !stopped && self.index() > end.index() ==> current.index() > end.index(),
                !stopped && self.index() <= end.index() ==> current.index() <= end.index(),
                stopped ==> months@ == Month::run(self.index(), 12) && self.index() > end.index(),
            decreases 13 - current.index() - if stopped { 1int } else { 0int },
        {
            months.push(current);
            match current.next() {
                Some(next_month) => {
                    assert(months@ =~= Month::run(self.index(), next_month.index() - 1));
                    current = next_month;
                },
                None => {
                    assert(months@ =~= Month::run(self.index(), 12));
                    stopped = true;
                },
            }
        }
        months.push(*end);
        assert(months@ =~= self.walk_to(*end));
        months
    }
}

/// The flag of one calendar day: excluded (`Zero`) or included (`One`).
#[derive(Debug, Copy, Clone, PartialEq, Eq, Structural)]
pub enum BiDay {
    /// The day is not part of the calendar.
    Zero,
    /// The day is part of the calendar.
    One,
}

impl BiDay {
    /// The flag as a bit.
    pub open spec fn bit(self) -> int {
        match self {
            BiDay::Zero => 0,
            BiDay::One => 1,
        }
    }

    /// The opposite flag.
    pub open spec fn flipped(self) -> BiDay {
        match self {
            BiDay::Zero => BiDay::One,
            BiDay::One => BiDay::Zero,
        }
    }

    /// Returns 0 for `Zero` and 1 for `One`.
    pub fn to_u8(&self) -> (r: u8)
        ensures
            r == self.bit(),
    {
        match self {
            BiDay::Zero => 0,
            BiDay::One => 1,
        }
    }

    /// Returns the flag for a bit, or `None` for a value other than 0 and 1.
    pub fn from_u8(value: u8) -> (r: Option<BiDay>)
        ensures
            value == 0 ==> r == Some(BiDay::Zero),
            value == 1 ==> r == Some(BiDay::One),
            value > 1 ==> r is None,
    {
        match value {
            0 => Some(BiDay::Zero),
            1 => Some(BiDay::One),
            _ => None,
        }
    }
}

} // verus!
