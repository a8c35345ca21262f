//! Calendars as per-month vectors of day flags, with a boolean algebra over
//! them, conversions to and from concrete dates, and symbolic year, month and
//! date range expressions that expand to sets of (year, month) pairs.

pub mod abstracto;
pub mod binary;
pub mod calendar;
pub mod convert;
pub mod date;
pub mod keys;
pub mod laws;
pub mod month_spec;
pub mod navigation;
pub mod order;
pub mod queries;
pub mod ranges;
pub mod span;
pub mod text;
pub mod types;
pub mod utils;
pub mod year_month;
pub mod year_spec;
