//! Extraction of `<NAME attr=val ...>content</NAME>` elements and of the text
//! between them.

pub mod attrs;
pub mod bytes;
pub mod extract;
pub mod laws;
pub mod model;
pub mod parts;
pub mod parts_ref;
pub mod pattern;
pub mod support;
pub mod tag_elem;
pub mod tag_elem_iter;
pub mod tag_iter;
pub mod tag_ref;
pub mod tag_ref_iter;
pub mod text;

pub use attrs::{Attrs, AttrsRef};
pub use extract::{extract, extract_refs, ExtractedData};
pub use parts::Parts;
pub use parts_ref::PartsRef;
pub use pattern::TagPattern;
pub use support::attrs_parser::parse_attrs_ref;
pub use tag_elem::{Part, TagElem};
pub use tag_elem_iter::TagElemIter;
pub use tag_iter::TagIter;
pub use tag_ref::{PartRef, TagElemRef};
pub use tag_ref_iter::TagElemRefIterator;
