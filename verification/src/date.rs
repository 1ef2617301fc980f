use vstd::prelude::*;

verus! {

/// Smallest supported day number.
pub const MIN_DAY: i64 = -100_000_000;

/// Largest supported day number.
pub const MAX_DAY: i64 = 100_000_000;

/// Length, in days, of the trailing window: a window ends on a period's
/// end date and starts `WINDOW_DAYS` days earlier.
pub const WINDOW_DAYS: i64 = 365;

/// A calendar date, represented by its day number: consecutive calendar
/// dates have consecutive day numbers, so ordering dates, measuring the
/// distance between them and moving a date by a number of days are plain
/// integer operations.
///
/// Day numbers are kept within `MIN_DAY ..= MAX_DAY`, a span of more than
/// half a million years that contains every date a calendar library can
/// represent, while keeping all window arithmetic far from `i64` overflow.
#[derive(Clone, Copy, PartialEq, Eq, Structural, Debug)]
pub struct Date {
    pub days: i64,
}

impl Date {
    /// The date lies in the supported range.
    pub open spec fn in_range(self) -> bool {
        MIN_DAY <= self.days <= MAX_DAY
    }
}

} // verus!
