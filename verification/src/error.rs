//! The failures that the engine reports.
use vstd::prelude::*;

verus! {

/// Why an operation was refused.
#[derive(Debug, Clone, Copy, PartialEq, Eq, Structural)]
pub enum Error {
    /// A subject, a division or a student is not known.
    NotFound,
    /// The division has no free seat.
    CapacityExceeded,
    /// The division overlaps a division in which the student is enrolled.
    ScheduleConflict,
    /// The student's decision for the subject is no longer open.
    AlreadyDecided,
    /// Fewer students were eligible than a division had free seats.
    Exhausted,
}

} // verus!
