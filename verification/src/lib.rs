//! Splits one multi-file diff text into per-file patch records and
//! allocates collision-free, filesystem-safe output names for them.
//!
//! The splitter (`splitter`) is a pure function from the diff text to
//! an ordered sequence of records (`patch::PatchFile`); the allocator
//! (`allocator`) picks, from a snapshot of the occupied names in the
//! output directory, the first free sanitized candidate name for each
//! record. Reading the diff text and writing the output files stay
//! outside the library.

pub mod allocator;
pub mod patch;
pub mod render;
pub mod splitter;
