//! Character-frequency counting over a sequence of text lines, split into
//! contiguous chunks whose partial counts are merged, together with the
//! arithmetic of the timing sweep built on top of it.

pub mod counts;
pub mod parallel;
pub mod bench;
pub mod report;
