//! Helpers of the tag module.

pub mod attrs_parser;
