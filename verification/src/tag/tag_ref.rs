//! Elements and parts that borrow from the input.

use vstd::prelude::*;
use crate::tag::model::{ElemModel, PartModel};
use crate::tag::text::bytes_of;

verus! {

/// An element found in the input: an opening tag, the content, and the
/// closing delimiter.
///
/// All text of it (`tag_name`, `attrs_raw`, `content`) is borrowed from the
/// input that was scanned.
#[derive(Debug, Clone, Copy, PartialEq)]
pub struct TagElemRef<'a> {
    /// The name of the tag (e.g., "SOME_MARKER").
    pub tag_name: &'a str,
    /// The attribute text of the opening tag, if there is any
    /// (e.g., `file_path="some/path/file.txt" other="123"`): what stands
    /// between the tag name and the closing `>`, trimmed.
    pub attrs_raw: Option<&'a str>,
    /// The text between the opening tag and the closing delimiter.
    pub content: &'a str,
    /// The byte index of the `<` of the opening tag in the input.
    pub start_idx: usize,
    /// The byte index of the `>` of the closing delimiter in the input.
    pub end_idx: usize,
}

impl<'a> View for TagElemRef<'a> {
    type V = ElemModel;

    open spec fn view(&self) -> ElemModel {
        ElemModel {
            name: bytes_of(self.tag_name@),
            attrs_raw: match self.attrs_raw {
                Some(raw) => Some(bytes_of(raw@)),
                None => None,
            },
            content: bytes_of(self.content@),
            start: self.start_idx as int,
            end: self.end_idx as int,
        }
    }
}

/// A part of the input, borrowed from it: text outside of any tag, or an
/// element.
#[derive(Debug, Clone, Copy, PartialEq)]
pub enum PartRef<'a> {
    /// Text outside of any tag.
    Text(&'a str),
    /// An element.
    TagElemRef(TagElemRef<'a>),
}

impl<'a> View for PartRef<'a> {
    type V = PartModel<ElemModel>;

    open spec fn view(&self) -> PartModel<ElemModel> {
        match self {
            PartRef::Text(text) => PartModel::Text(bytes_of(text@)),
            PartRef::TagElemRef(elem) => PartModel::Elem(elem@),
        }
    }
}

/// The models of a sequence of parts.
pub open spec fn part_views(parts: Seq<PartRef>) -> Seq<PartModel<ElemModel>> {
    Seq::new(parts.len(), |i: int| parts[i]@)
}

} // verus!
