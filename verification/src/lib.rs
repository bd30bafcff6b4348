//! Live frequency counting of text lines.
//!
//! The crate collects lines from one or more sources, counts how often each
//! distinct line occurs, and derives a deterministic ranking (count
//! descending, ties broken by ascending lexicographic line order) suitable
//! for incremental terminal display.

pub mod display;
pub mod filepaths;
pub mod input;
pub mod linecollector;
pub mod order;
