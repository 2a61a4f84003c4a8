//! Small ordered sets.
pub mod one_set;
