//! A cursor over the months of the time line.

use vstd::prelude::*;
use crate::calendar::month_key;
use crate::date::Date;
use crate::types::{Month, Year};

verus! {

/// A month of a year, with steps to the months around it. A step past
/// December leads to January of the next year, a step before January to
/// December of the year before.
#[derive(PartialEq, Eq, Structural, PartialOrd, Ord, Debug, Clone, Copy, Hash)]
pub struct YearMonth {
    pub year: Year,
    pub month: Month,
}

/// The position of the last month that a cursor can stand on: December of
/// year 65535.
pub open spec fn last_position() -> int {
    786431int
}

impl YearMonth {
    /// The position of the month on the time line, counted in months.
    pub open spec fn position(self) -> int {
        month_key(self.year as int, self.month)
    }

    /// The month at a position of the time line.
    pub open spec fn at(position: int) -> YearMonth {
        YearMonth { year: (position / 12) as Year, month: Month::of_index(position % 12 + 1) }
    }

    /// Positions and months correspond one to one.
    pub proof fn lemma_at_position(self)
        ensures
            0 <= self.position() <= last_position(),
            YearMonth::at(self.position()) == self,
    {
    }

    /// Creates the cursor on the given month.
    pub fn new(year: Year, month: Month) -> (r: Result<Self, String>)
        ensures
            r matches Ok(ym) && ym == (YearMonth { year, month }),
    {
        Ok(YearMonth { year, month })
    }

    /// Creates the cursor on the month of a date of a year that is not
    /// negative.
    pub fn from_date(date: Date) -> (r: Self)
        requires
            date@.0 >= 0,
        ensures
            r.year == date@.0,
            r.month == date@.1,
    {
        YearMonth { year: date.year() as Year, month: date.month() }
    }

    /// Returns the cursor on the following month, or `None` on December of
    /// the last year.
    pub fn next_month(&self) -> (r: Option<Self>)
        ensures
            self.position() < last_position() ==> r == Some(YearMonth::at(self.position() + 1)),
            self.position() == last_position() ==> r is None,
    {
        match self.month.next() {
            Some(next_month) => Some(YearMonth { year: self.year, month: next_month }),
            None => {
                if self.year == Year::MAX {
                    None
                } else {
                    Some(YearMonth { year: self.year + 1, month: Month::January })
                }
            },
        }
    }

    /// Returns the cursor on the preceding month, or `None` on January of
    /// year 0.
    pub fn previous_month(&self) -> (r: Option<Self>)
        ensures
            self.position() > 0 ==> r == Some(YearMonth::at(self.position() - 1)),
            self.position() == 0 ==> r is None,
    {
        match self.month.prev() {
            Some(prev_month) => Some(YearMonth { year: self.year, month: prev_month }),
            None => {
                if self.year == 0 {
                    None
                } else {
                    Some(YearMonth { year: (self.year - 1) as Year, month: Month::December })
                }
            },
        }
    }

    /// Returns the cursor on the following month.
    pub fn next(&self) -> (r: Self)
        requires
            self.position() < last_position(),
        ensures
            r == YearMonth::at(self.position() + 1),
            r.position() == self.position() + 1,
    {
        match self.month.next() {
            Some(next_month) => YearMonth { year: self.year, month: next_month },
            None => YearMonth { year: self.year + 1, month: Month::January },
        }
    }

    /// Returns the cursor on the preceding month.
    pub fn prev(&self) -> (r: Self)
        requires
            self.position() > 0,
        ensures
            r == YearMonth::at(self.position() - 1),
            r.position() == self.position() - 1,
    {
        match self.month.prev() {
            Some(prev_month) => YearMonth { year: self.year, month: prev_month },
            None => YearMonth { year: (self.year - 1) as Year, month: Month::December },
        }
    }

    /// Returns the cursor `months` months later.
    pub fn forward(&self, months: usize) -> (r: Self)
        requires
            self.position() + months <= last_position(),
        ensures
            r == YearMonth::at(self.position() + months),
    {
        let mut result: YearMonth = *self;
        let mut done: usize = 0;
        while done < months
            invariant
                done <= months,
                self.position() + months <= last_position(),
                result.position() == self.position() + done,
            decreases months - done,
        {
            result = result.next();
            done += 1;
        }
        proof {
            result.lemma_at_position();
        }
        result
    }

    /// Returns the cursor `months` months earlier.
    pub fn backward(&self, months: usize) -> (r: Self)
        requires
            self.position() - months >= 0,
        ensures
            r == YearMonth::at(self.position() - months),
    {
        let mut result: YearMonth = *self;
        let mut done: usize = 0;
        while done < months
            invariant
                done <= months,
                self.position() - months >= 0,
                result.position() == self.position() - done,
            decreases months - done,
        {
            result = result.prev();
            done += 1;
        }
        proof {
            result.lemma_at_position();
        }
        result
    }

    /// The months from the position `from` to the position `to`, in order.
    pub open spec fn span(from: int, to: int) -> Seq<YearMonth> {
        Seq::new((to - from + 1) as nat, |i: int| YearMonth::at(from + i))
    }

    /// Returns the months from `self` to `end`, both included.
    pub fn range_to(&self, end: &Self) -> (r: Vec<Self>)
        requires
            self.position() <= end.position(),
        ensures
            r@ == YearMonth::span(self.position(), end.position()),
    {
        let mut current = *self;
        let mut months: Vec<YearMonth> = Vec::new();
        assert(months@ =~= YearMonth::span(self.position(), current.position() - 1));
        while current != *end
            invariant
                self.position() <= current.position() <= end.position(),
                months@ == YearMonth::span(self.position(), current.position() - 1),
            decreases end.position() - current.position(),
        {
            proof {
                current.lemma_at_position();
                end.lemma_at_position();
            }
            months.push(current);
            current = current.next();
            assert(months@ =~= YearMonth::span(self.position(), current.position() - 1));
        }
        proof {
            end.lemma_at_position();
        }
        months.push(*end);
        assert(months@ =~= YearMonth::span(self.position(), end.position()));
        months
    }
}

} // verus!
