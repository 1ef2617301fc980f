//! Rolling-window absence accounting.
//!
//! Given a list of absence periods (closed date intervals), the library
//! merges overlapping and one-day-adjacent periods into a canonical
//! disjoint set, and reports, for every input period, how many absence
//! days fall inside the 365-day trailing window that ends on that
//! period's end date.

pub mod date;
pub mod intervals;
pub mod merge;
pub mod rolling;
pub mod validate;
pub mod window;

pub use date::Date;
pub use date::MAX_DAY;
pub use date::MIN_DAY;
pub use date::WINDOW_DAYS;
pub use rolling::calculate_rolling_absences;
pub use rolling::CalculationResult;
