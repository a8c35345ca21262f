//! Calendars described by patterns and by operations on patterns, before
//! any month is chosen.

use vstd::prelude::*;
use vstd::string::StringExecFns;
use crate::date::{Date, Weekday};
use crate::types::{BiDay, Day};

verus! {

/// The patterns from which an abstract calendar is made.
#[derive(Debug, Clone)]
pub enum CalendarPattern {
    /// No day.
    Nothing,
    /// Every day.
    Everyday,
    /// The odd days of each month.
    OddDays,
    /// The even days of each month.
    EvenDays,
    /// The given days of the week.
    Weekdays(Vec<Weekday>),
    /// The days of the week with the given numbers, 1 for Monday to 7 for
    /// Sunday.
    CustomWeekDays(Vec<u8>),
    /// The given days of each month.
    CustomDays(Vec<Day>),
    /// A sequence of flags, repeated over the days.
    CustomBiDay(Vec<BiDay>),
    /// One day of each month, such as the 15th.
    SpecificDayOfMonth(u8),
    /// The days of one week of each month, such as the first.
    SpecificWeekOfMonth(u8),
    /// Holidays that fall on the same date every year.
    FixedHolidays(Vec<Date>),
    /// Holidays whose date changes from year to year.
    FloatingHolidays(Vec<Date>),
    /// The days of one week of the year.
    SpecificWeekOfYear(u32),
    /// The days that a cron expression selects.
    CronPattern(String),
}

/// A calendar that is a pattern or an operation on calendars.
#[derive(Debug)]
pub enum AbstractCalendar {
    Pattern(CalendarPattern),
    Operation(CalendarOperation),
}

/// The operations that combine abstract calendars.
#[derive(Debug)]
pub enum CalendarOperation {
    /// The days that the calendar leaves out.
    Invert(Box<AbstractCalendar>),
    /// The days of both calendars.
    And(Box<AbstractCalendar>, Box<AbstractCalendar>),
    /// The days of either calendar.
    Or(Box<AbstractCalendar>, Box<AbstractCalendar>),
    /// The days of the first calendar that are not days of the second.
    Minus(Box<AbstractCalendar>, Box<AbstractCalendar>),
}

impl AbstractCalendar {
    /// Returns the union of this calendar and `other`, as an operation.
    pub fn or(self, other: AbstractCalendar) -> (r: AbstractCalendar)
        ensures
            r == AbstractCalendar::Operation(CalendarOperation::Or(Box::new(self), Box::new(other))),
    {
        AbstractCalendar::Operation(CalendarOperation::Or(Box::new(self), Box::new(other)))
    }

    /// Returns the intersection of this calendar and `other`, as an
    /// operation.
    pub fn and(self, other: AbstractCalendar) -> (r: AbstractCalendar)
        ensures
            r == AbstractCalendar::Operation(
                CalendarOperation::And(Box::new(self), Box::new(other)),
            ),
    {
        AbstractCalendar::Operation(CalendarOperation::And(Box::new(self), Box::new(other)))
    }

    /// Returns the inversion of this calendar, as an operation.
    pub fn invert(self) -> (r: AbstractCalendar)
        ensures
            r == AbstractCalendar::Operation(CalendarOperation::Invert(Box::new(self))),
    {
        AbstractCalendar::Operation(CalendarOperation::Invert(Box::new(self)))
    }
}

/// A run of `n` spaces.
pub open spec fn spaces(n: nat) -> Seq<char>
    decreases n,
{
    if n == 0 {
        Seq::empty()
    } else {
        spaces((n - 1) as nat) + " "@
    }
}

/// Texts written one after the other with `", "` between them.
pub open spec fn joined(texts: Seq<Seq<char>>) -> Seq<char>
    decreases texts.len(),
{
    if texts.len() == 0 {
        Seq::empty()
    } else if texts.len() == 1 {
        texts[0]
    } else {
        joined(texts.drop_last()) + ", "@ + texts.last()
    }
}

/// The English name of a weekday.
pub open spec fn weekday_name(day: Weekday) -> Seq<char> {
    match day {
        Weekday::Monday => "Monday"@,
        Weekday::Tuesday => "Tuesday"@,
        Weekday::Wednesday => "Wednesday"@,
        Weekday::Thursday => "Thursday"@,
        Weekday::Friday => "Friday"@,
        Weekday::Saturday => "Saturday"@,
        Weekday::Sunday => "Sunday"@,
    }
}

/// A decimal digit as text.
pub open spec fn digit_text(d: int) -> Seq<char> {
    if d == 0 {
        "0"@
    } else if d == 1 {
        "1"@
    } else if d == 2 {
        "2"@
    } else if d == 3 {
        "3"@
    } else if d == 4 {
        "4"@
    } else if d == 5 {
        "5"@
    } else if d == 6 {
        "6"@
    } else if d == 7 {
        "7"@
    } else if d == 8 {
        "8"@
    } else {
        "9"@
    }
}

/// A day number in decimal, without leading zeros.
pub open spec fn day_text(day: Day) -> Seq<char> {
    let n = day as int;
    if n >= 100 {
        digit_text(n / 100) + digit_text(n / 10 % 10) + digit_text(n % 10)
    } else if n >= 10 {
        digit_text(n / 10) + digit_text(n % 10)
    } else {
        digit_text(n)
    }
}

/// A flag as the digit 0 or 1.
pub open spec fn flag_text(flag: BiDay) -> Seq<char> {
    match flag {
        BiDay::Zero => "0"@,
        BiDay::One => "1"@,
    }
}

impl CalendarPattern {
    /// Whether the pattern has a printed form.
    pub open spec fn printable(self) -> bool {
        self is Everyday || self is Weekdays || self is CustomDays || self is CustomBiDay
            || self is CronPattern
    }

    /// The printed form of a pattern that has one.
    pub open spec fn text(self) -> Seq<char> {
        match self {
            CalendarPattern::Everyday => "Everyday"@,
            CalendarPattern::Weekdays(days) => "Weekdays(["@ + joined(
                Seq::new(days@.len(), |i: int| weekday_name(days@[i])),
            ) + "])"@,
            CalendarPattern::CustomDays(days) => "CustomDays(["@ + joined(
                Seq::new(days@.len(), |i: int| day_text(days@[i])),
            ) + "])"@,
            CalendarPattern::CustomBiDay(flags) => "CustomBiDay(["@ + joined(
                Seq::new(flags@.len(), |i: int| flag_text(flags@[i])),
            ) + "])"@,
            CalendarPattern::CronPattern(cron) => "CronPattern(\""@ + cron@ + "\")"@,
            _ => Seq::empty(),
        }
    }

    /// Returns whether the pattern has a printed form.
    pub fn is_printable(&self) -> (r: bool)
        ensures
            r == self.printable(),
    {
        match self {
            CalendarPattern::Everyday => true,
            CalendarPattern::Weekdays(_) => true,
            CalendarPattern::CustomDays(_) => true,
            CalendarPattern::CustomBiDay(_) => true,
            CalendarPattern::CronPattern(_) => true,
            _ => false,
        }
    }

    /// Returns the printed form of the pattern: its name and, in brackets,
    /// what it holds.
    pub fn to_string(&self) -> (r: String)
        requires
            self.printable(),
        ensures
            r@ == self.text(),
    {
        let mut out = String::new();
        match self {
            CalendarPattern::Weekdays(days) => {
                out.append("Weekdays([");
                let ghost start = out@;
                let ghost texts = Seq::new(days@.len(), |i: int| weekday_name(days@[i]));
                let mut i: usize = 0;
                assert(texts.subrange(0, 0) =~= Seq::<Seq<char>>::empty());
                assert(out@ =~= start + joined(texts.subrange(0, 0)));
                while i < days.len()
                    invariant
                        i <= days@.len(),
                        texts == Seq::new(days@.len(), |i: int| weekday_name(days@[i])),
                        out@ == start + joined(texts.subrange(0, i as int)),
                    decreases days@.len() - i,
                {
                    if i > 0 {
                        out.append(", ");
                    }
                    let name = match days[i] {
                        Weekday::Monday => "Monday",
                        Weekday::Tuesday => "Tuesday",
                        Weekday::Wednesday => "Wednesday",
                        Weekday::Thursday => "Thursday",
                        Weekday::Friday => "Friday",
                        Weekday::Saturday => "Saturday",
                        Weekday::Sunday => "Sunday",
                    };
                    out.append(name);
                    proof {
                        lemma_joined_next(texts, i as int);
                        assert(texts[i as int] == name@);
                        assert(out@ =~= start + joined(texts.subrange(0, i + 1)));
                    }
                    i += 1;
                }
                assert(texts.subrange(0, texts.len() as int) =~= texts);
                out.append("])");
            },
            CalendarPattern::CustomDays(days) => {
                out.append("CustomDays([");
                let ghost start = out@;
                let ghost texts = Seq::new(days@.len(), |i: int| day_text(days@[i]));
                let mut i: usize = 0;
                assert(texts.subrange(0, 0) =~= Seq::<Seq<char>>::empty());
                assert(out@ =~= start + joined(texts.subrange(0, 0)));
                while i < days.len()
                    invariant
                        i <= days@.len(),
                        texts == Seq::new(days@.len(), |i: int| day_text(days@[i])),
                        out@ == start + joined(texts.subrange(0, i as int)),
                    decreases days@.len() - i,
                {
                    if i > 0 {
                        out.append(", ");
                    }
                    push_day(&mut out, days[i]);
                    proof {
                        lemma_joined_next(texts, i as int);
                        assert(texts[i as int] == day_text(days@[i as int]));
                        assert(out@ =~= start + joined(texts.subrange(0, i + 1)));
                    }
                    i += 1;
                }
                assert(texts.subrange(0, texts.len() as int) =~= texts);
                out.append("])");
            },
            CalendarPattern::CustomBiDay(flags) => {
                out.append("CustomBiDay([");
                let ghost start = out@;
                let ghost texts = Seq::new(flags@.len(), |i: int| flag_text(flags@[i]));
                let mut i: usize = 0;
                assert(texts.subrange(0, 0) =~= Seq::<Seq<char>>::empty());
                assert(out@ =~= start + joined(texts.subrange(0, 0)));
                while i < flags.len()
                    invariant
                        i <= flags@.len(),
                        texts == Seq::new(flags@.len(), |i: int| flag_text(flags@[i])),
                        out@ == start + joined(texts.subrange(0, i as int)),
                    decreases flags@.len() - i,
                {
                    if i > 0 {
                        out.append(", ");
                    }
                    let digit = match flags[i] {
                        BiDay::Zero => "0",
                        BiDay::One => "1",
                    };
                    out.append(digit);
                    proof {
                        lemma_joined_next(texts, i as int);
                        assert(texts[i as int] == digit@);
                        assert(out@ =~= start + joined(texts.subrange(0, i + 1)));
                    }
                    i += 1;
                }
                assert(texts.subrange(0, texts.len() as int) =~= texts);
                out.append("])");
            },
            CalendarPattern::CronPattern(cron) => {
                out.append("CronPattern(\"");
                out.append(cron.as_str());
                out.append("\")");
            },
            _ => {
                out.append("Everyday");
            },
        }
        out
    }
}

/// The joined text of one more item: the item alone when it is the first,
/// and otherwise what was joined so far, `", "` and the item.
proof fn lemma_joined_next(texts: Seq<Seq<char>>, i: int)
    requires
        0 <= i < texts.len(),
    ensures
        joined(texts.subrange(0, i + 1)) == if i == 0 {
            texts[i]
        } else {
            joined(texts.subrange(0, i)) + ", "@ + texts[i]
        },
{
    let now = texts.subrange(0, i + 1);
    assert(now.last() == texts[i]);
    assert(now.drop_last() =~= texts.subrange(0, i));
    if i == 0 {
        assert(now[0] == texts[0]);
    }
}

/// Appends a decimal digit.
fn push_digit(out: &mut String, d: u8)
    requires
        d <= 9,
    ensures
        final(out)@ == old(out)@ + digit_text(d as int),
{
    let text = match d {
        0 => "0",
        1 => "1",
        2 => "2",
        3 => "3",
        4 => "4",
        5 => "5",
        6 => "6",
        7 => "7",
        8 => "8",
        _ => "9",
    };
    out.append(text);
}

/// Appends a day number in decimal.
fn push_day(out: &mut String, day: Day)
    ensures
        final(out)@ == old(out)@ + day_text(day),
{
    let ghost start = out@;
    if day >= 100 {
        push_digit(out, day / 100);
        push_digit(out, day / 10 % 10);
        push_digit(out, day % 10);
        assert(out@ =~= start + day_text(day));
    } else if day >= 10 {
        push_digit(out, day / 10);
        push_digit(out, day % 10);
        assert(out@ =~= start + day_text(day));
    } else {
        push_digit(out, day);
    }
}

/// Appends `n` spaces.
fn push_spaces(out: &mut String, n: usize)
    ensures
        final(out)@ == old(out)@ + spaces(n as nat),
{
    let ghost start = out@;
    let mut i: usize = 0;
    assert(out@ =~= start + spaces(0));
    while i < n
        invariant
            i <= n,
            out@ == start + spaces(i as nat),
        decreases n - i,
    {
        out.append(" ");
        i += 1;
        assert(out@ =~= start + spaces(i as nat));
    }
}

impl AbstractCalendar {
    /// Whether every pattern of the calendar has a printed form.
    pub open spec fn printable(self) -> bool
        decreases self,
    {
        match self {
            AbstractCalendar::Pattern(pattern) => pattern.printable(),
            AbstractCalendar::Operation(op) => op.printable(),
        }
    }

    /// The printed form of a calendar at an indentation: a pattern after
    /// `indent` spaces, an operation as `CalendarOperation::text` says.
    pub open spec fn text(self, indent: nat) -> Seq<char>
        decreases self,
    {
        match self {
            AbstractCalendar::Pattern(pattern) => spaces(indent) + pattern.text(),
            AbstractCalendar::Operation(op) => op.text(indent),
        }
    }

    /// The form in which a calendar shows itself: a pattern without
    /// indentation, an operation at indentation 0.
    pub open spec fn shown(self) -> Seq<char> {
        match self {
            AbstractCalendar::Pattern(pattern) => pattern.text(),
            AbstractCalendar::Operation(op) => op.text(0),
        }
    }

    /// Returns whether every pattern of the calendar has a printed form.
    pub fn is_printable(&self) -> (r: bool)
        ensures
            r == self.printable(),
        decreases self,
    {
        match self {
            AbstractCalendar::Pattern(pattern) => pattern.is_printable(),
            AbstractCalendar::Operation(op) => op.is_printable(),
        }
    }

    /// Appends the printed form of the calendar at the indentation
    /// `margin`, which is a run of spaces.
    fn write(&self, margin: &str, out: &mut String, Ghost(indent): Ghost<nat>)
        requires
            self.printable(),
            margin@ == spaces(indent),
        ensures
            final(out)@ == old(out)@ + self.text(indent),
        decreases self,
    {
        match self {
            AbstractCalendar::Pattern(pattern) => {
                let ghost start = out@;
                out.append(margin);
                let text = pattern.to_string();
                out.append(text.as_str());
                assert(out@ =~= start + self.text(indent));
            },
            AbstractCalendar::Operation(op) => {
                op.write(margin, out, Ghost(indent));
            },
        }
    }

    /// Returns the printed form of the calendar, indented by `indent`
    /// spaces; the parts of an operation are indented by four spaces more
    /// than the operation.
    pub fn pretty_print(&self, indent: usize) -> (r: String)
        requires
            self.printable(),
        ensures
            r@ == self.text(indent as nat),
    {
        let mut margin = String::new();
        push_spaces(&mut margin, indent);
        let mut out = String::new();
        assert(margin@ =~= spaces(indent as nat));
        self.write(margin.as_str(), &mut out, Ghost(indent as nat));
        assert(out@ =~= self.text(indent as nat));
        out
    }

    /// Returns the form in which the calendar shows itself.
    pub fn to_string(&self) -> (r: String)
        requires
            self.printable(),
        ensures
            r@ == self.shown(),
    {
        match self {
            AbstractCalendar::Pattern(pattern) => pattern.to_string(),
            AbstractCalendar::Operation(op) => op.to_string(),
        }
    }
}

impl CalendarOperation {
    /// Whether every pattern of the operation has a printed form.
    pub open spec fn printable(self) -> bool
        decreases self,
    {
        match self {
            CalendarOperation::Invert(a) => a.printable(),
            CalendarOperation::And(a, b) => a.printable() && b.printable(),
            CalendarOperation::Or(a, b) => a.printable() && b.printable(),
            CalendarOperation::Minus(a, b) => a.printable() && b.printable(),
        }
    }

    /// The name of the operation.
    pub open spec fn name(self) -> Seq<char> {
        match self {
            CalendarOperation::Invert(_) => "Invert"@,
            CalendarOperation::And(_, _) => "And"@,
            CalendarOperation::Or(_, _) => "Or"@,
            CalendarOperation::Minus(_, _) => "Minus"@,
        }
    }

    /// Returns whether every pattern of the operation has a printed form.
    pub fn is_printable(&self) -> (r: bool)
        ensures
            r == self.printable(),
        decreases self,
    {
        match self {
            CalendarOperation::Invert(a) => a.is_printable(),
            CalendarOperation::And(a, b)
            | CalendarOperation::Or(a, b)
            | CalendarOperation::Minus(a, b) => a.is_printable() && b.is_printable(),
        }
    }

    /// The first line of the printed form of an operation: the indentation,
    /// the name and an opening bracket.
    pub open spec fn opening(self, indent: nat) -> Seq<char> {
        spaces(indent) + self.name() + "(\n"@
    }

    /// The operands of an operation in print: each on lines of its own,
    /// indented by four spaces more than the operation, with a comma after
    /// the first of two.
    pub open spec fn operands(self, indent: nat) -> Seq<char>
        decreases self, 0nat,
    {
        match self {
            CalendarOperation::Invert(a) => a.text(indent + 4),
            CalendarOperation::And(a, b)
            | CalendarOperation::Or(a, b)
            | CalendarOperation::Minus(a, b) => a.text(indent + 4) + ",\n"@ + b.text(indent + 4),
        }
    }

    /// The last line of the printed form of an operation: the indentation
    /// and a closing bracket, on a line of their own.
    pub open spec fn closing(indent: nat) -> Seq<char> {
        "\n"@ + spaces(indent) + ")"@
    }

    /// The printed form of an operation at an indentation: its first line,
    /// its operands and its last line.
    pub open spec fn text(self, indent: nat) -> Seq<char>
        decreases self, 1nat,
    {
        self.opening(indent) + self.operands(indent) + CalendarOperation::closing(indent)
    }

    /// Appends the printed form of the operation at the indentation
    /// `margin`, which is a run of spaces.
    fn write(&self, margin: &str, out: &mut String, Ghost(indent): Ghost<nat>)
        requires
            self.printable(),
            margin@ == spaces(indent),
        ensures
            final(out)@ == old(out)@ + self.text(indent),
        decreases self,
    {
        let ghost start = out@;
        let mut deeper = String::new();
        deeper.append(margin);
        deeper.append("    ");
        proof {
            reveal_strlit("    ");
            reveal_strlit(" ");
            assert(spaces(indent + 4) =~= spaces(indent) + "    "@) by {
                assert(spaces(indent + 4) == spaces((indent + 3) as nat) + " "@);
                assert(spaces((indent + 3) as nat) == spaces((indent + 2) as nat) + " "@);
                assert(spaces((indent + 2) as nat) == spaces((indent + 1) as nat) + " "@);
                assert(spaces((indent + 1) as nat) == spaces(indent) + " "@);
            }
            assert(deeper@ =~= spaces(indent + 4));
        }
        let name = match self {
            CalendarOperation::Invert(_) => "Invert",
            CalendarOperation::And(_, _) => "And",
            CalendarOperation::Or(_, _) => "Or",
            CalendarOperation::Minus(_, _) => "Minus",
        };
        out.append(margin);
        out.append(name);
        out.append("(\n");
        let ghost opened = out@;
        assert(opened =~= start + self.opening(indent));
        match self {
            CalendarOperation::Invert(a) => {
                a.write(deeper.as_str(), out, Ghost(indent + 4));
            },
            CalendarOperation::And(a, b)
            | CalendarOperation::Or(a, b)
            | CalendarOperation::Minus(a, b) => {
                a.write(deeper.as_str(), out, Ghost(indent + 4));
                out.append(",\n");
                b.write(deeper.as_str(), out, Ghost(indent + 4));
                assert(out@ =~= opened + self.operands(indent));
            },
        }
        let ghost filled = out@;
        assert(filled == opened + self.operands(indent));
        out.append("\n");
        out.append(margin);
        out.append(")");
        assert(out@ =~= filled + CalendarOperation::closing(indent));
        assert(out@ =~= start + self.text(indent));
    }

    /// Returns the printed form of the operation, indented by `indent`
    /// spaces.
    pub fn pretty_print(&self, indent: usize) -> (r: String)
        requires
            self.printable(),
        ensures
            r@ == self.text(indent as nat),
    {
        let mut margin = String::new();
        push_spaces(&mut margin, indent);
        let mut out = String::new();
        assert(margin@ =~= spaces(indent as nat));
        self.write(margin.as_str(), &mut out, Ghost(indent as nat));
        assert(out@ =~= self.text(indent as nat));
        out
    }

    /// Returns the form in which the operation shows itself: its printed
    /// form without indentation.
    pub fn to_string(&self) -> (r: String)
        requires
            self.printable(),
        ensures
            r@ == self.text(0),
    {
        self.pretty_print(0)
    }
}

} // verus!
