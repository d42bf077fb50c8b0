//! Exact substring search over raw bytes.
//!
//! Two scanners report the leftmost non-overlapping occurrences of a needle
//! in a haystack: [`SimpleMatcher`], a linear scan, and [`TBMMatcher`], a
//! Horspool scan with a second shift for repetitive needles. Both are proved
//! to return the same list, described by [`leftmost_matches`].

pub mod occurrence;
pub mod laws;
pub mod equality;
pub mod shifts;
pub mod simple;
pub mod tbm;

pub use occurrence::{leftmost_matches, occurs_at, scan_from, spans, Match, Span};
pub use simple::SimpleMatcher;
pub use tbm::TBMMatcher;
