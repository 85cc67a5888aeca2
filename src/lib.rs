//! Decides which named targets of a monorepo are touched by a set of changed
//! files, directly through their path patterns or transitively through the
//! targets that activate them.

pub mod pattern;
pub mod target;
pub mod index;
pub mod manifest;
pub mod laws;
