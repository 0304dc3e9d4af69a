//! Manual, call-path-aware time accounting.
//!
//! Callers mark where named tasks begin and end; the time between marks goes to
//! the path of tasks active at the time, and a report breaks the recorded time
//! down by label and by the way each label was reached. Times are nanoseconds
//! on a clock that the caller reads and passes in.
use vstd::prelude::*;

pub mod labels;
pub mod tally;
pub mod profile;
pub mod summary;
pub mod render;
pub mod report;
pub mod laws;

pub use profile::{Profile, Guard, push, clear};
pub use report::report;

verus! {

} // verus!
