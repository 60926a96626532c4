//! Fast, non-validating extraction of marker-tag elements from free text.

pub mod tag;
