//! Extraction of the parts of an input in one call.

use vstd::prelude::*;
use crate::tag::model::{elements_of, joined_text, parts_of, texts_of, PartModel};
use crate::tag::parts::{
    elem_ref_views, split_parts, string_bytes, string_ref_bytes, tag_elems_in, texts_in, Parts,
};
use crate::tag::parts_ref::PartsRef;
use crate::tag::tag_elem::{owned_parts, owned_views, Part, TagElem, TagElemModel};
use crate::tag::tag_elem_iter::elem_views;
use crate::tag::tag_iter::TagIter;
use crate::tag::tag_ref_iter::{names_of, TagElemRefIterator};
use crate::tag::text::bytes_of;

verus! {

/// Extracted parts together with the tag names that were asked for.
#[derive(Debug, Clone, PartialEq, Default)]
pub struct ExtractedData {
    pub tag_names: Vec<String>,
    pub parts: Vec<Part>,
}

impl View for ExtractedData {
    type V = Seq<PartModel<TagElemModel>>;

    open spec fn view(&self) -> Seq<PartModel<TagElemModel>> {
        owned_views(self.parts@)
    }
}

impl ExtractedData {
    /// The elements, in order.
    pub fn tag_elems(&self) -> (elems: Vec<&TagElem>)
        ensures
            elem_ref_views(elems@) == elements_of(self@),
    {
        tag_elems_in(&self.parts)
    }

    /// The elements, in order.
    pub fn into_tag_elems(self) -> (elems: Vec<TagElem>)
        ensures
            elem_views(elems@) == elements_of(self@),
    {
        split_parts(self.parts).0
    }

    /// The texts, in order.
    pub fn texts(&self) -> (texts: Vec<&String>)
        ensures
            string_ref_bytes(texts@) == texts_of(self@),
    {
        texts_in(&self.parts)
    }

    /// The texts, in order.
    pub fn into_texts(self) -> (texts: Vec<String>)
        ensures
            string_bytes(texts@) == texts_of(self@),
    {
        split_parts(self.parts).1
    }

    /// The elements, in order, and the texts joined into one: what the input
    /// holds outside of the elements.
    pub fn into_with_extrude_content(self) -> (r: (Vec<TagElem>, String))
        ensures
            elem_views(r.0@) == elements_of(self@),
            bytes_of(r.1@) == joined_text(self@),
    {
        let (tag_elems, _, text_content) = split_parts(self.parts);
        (tag_elems, text_content)
    }
}

/// Extracts the parts of `input` in owned form.
///
/// # Arguments
///
/// * `input` - The text to scan.
/// * `tag_names` - The names of the tags to look for (e.g., &["FILE", "DATA"]).
/// * `capture_text` - If true, the text between the elements is among the parts; otherwise
///   only the elements are.
///
/// Markup that is not well formed is no error: from an opening tag that is
/// not closed, or that lacks its closing delimiter, the rest of the input is
/// text.
pub fn extract(input: &str, tag_names: &[&str], capture_text: bool) -> (parts: Parts)
    ensures
        parts@ == owned_parts(parts_of(bytes_of(input@), names_of(tag_names@), capture_text)),
{
    let parts = TagIter::new(input, tag_names, capture_text).collect();
    Parts::from(parts)
}

/// Extracts the parts of `input`, borrowed from it.
///
/// The arguments are those of [`extract`], and so are the parts, but for the
/// attributes of an element, which are handed out as raw text.
pub fn extract_refs<'a>(input: &'a str, tag_names: &[&str], capture_text: bool) -> (parts: PartsRef<
    'a,
>)
    ensures
        parts@ == parts_of(bytes_of(input@), names_of(tag_names@), capture_text),
{
    let parts = TagElemRefIterator::new(input, tag_names, capture_text).collect();
    PartsRef::from(parts)
}

} // verus!
