//! Hands out the parts of an input in owned form.

use vstd::prelude::*;
use crate::tag::model::{parts_of, PartModel};
use crate::tag::tag_elem::{owned_parts, owned_views, Part, TagElemModel};
use crate::tag::tag_ref_iter::{names_of, TagElemRefIterator};
use crate::tag::text::bytes_of;

verus! {

/// Scans an input for elements of one or more tag names, and hands out the
/// parts one by one in owned form: the elements with their attributes
/// parsed, and the text between them if it is wanted.
pub struct TagIter<'a> {
    tag_content_iter: TagElemRefIterator<'a>,
}

impl<'a> TagIter<'a> {
    /// The parts that are still to come, in order.
    pub closed spec fn remaining(&self) -> Seq<PartModel<TagElemModel>> {
        owned_parts(self.tag_content_iter.remaining())
    }

    /// A scanner at the start of `input`.
    ///
    /// # Arguments
    ///
    /// * `input` - The text to scan.
    /// * `tag_names` - The names of the tags to look for (e.g., &["FILE", "DATA"]).
    /// * `capture_text` - If true, the text between the elements is handed out too.
    pub fn new(input: &'a str, tag_names: &[&'a str], capture_text: bool) -> (it: Self)
        ensures
            it.remaining() == owned_parts(
                parts_of(bytes_of(input@), names_of(tag_names@), capture_text),
            ),
    {
        TagIter { tag_content_iter: TagElemRefIterator::new(input, tag_names, capture_text) }
    }

    /// A scanner at the start of `input` that looks for one tag name.
    ///
    /// # Arguments
    ///
    /// * `input` - The text to scan.
    /// * `tag_name` - The name of the tag to look for (e.g., "FILE").
    /// * `capture_text` - If true, the text between the elements is handed out too.
    pub fn new_single_tag(input: &'a str, tag_name: &'a str, capture_text: bool) -> (it: Self)
        ensures
            it.remaining() == owned_parts(
                parts_of(bytes_of(input@), seq![bytes_of(tag_name@)], capture_text),
            ),
    {
        let tag_names: Vec<&'a str> = vec![tag_name];
        assert(names_of(tag_names@) =~= seq![bytes_of(tag_name@)]);
        Self::new(input, tag_names.as_slice(), capture_text)
    }

    /// Hands out the next part, or `None` when no part is left.
    pub fn next(&mut self) -> (r: Option<Part>)
        ensures
            match r {
                Some(part) => {
                    &&& old(self).remaining().len() > 0
                    &&& part@ == old(self).remaining()[0]
                    &&& final(self).remaining() == old(self).remaining().drop_first()
                },
                None => old(self).remaining().len() == 0 && final(self).remaining().len() == 0,
            },
    {
        match self.tag_content_iter.next() {
            Some(part_ref) => {
                assert(self.remaining() =~= old(self).remaining().drop_first());
                Some(Part::from(part_ref))
            },
            None => None,
        }
    }

    /// Hands out all parts that are left, in order.
    pub fn collect(self) -> (parts: Vec<Part>)
        ensures
            owned_views(parts@) == self.remaining(),
    {
        let mut it = self;
        let mut parts: Vec<Part> = Vec::new();
        loop
            invariant
                owned_views(parts@) + it.remaining() == self.remaining(),
            decreases it.remaining().len(),
        {
            let ghost before = it.remaining();
            let ghost views = owned_views(parts@);
            match it.next() {
                Some(part) => {
                    parts.push(part);
                    assert(owned_views(parts@) =~= views.push(part@));
                    assert(views.push(part@) + before.drop_first() =~= views + before);
                },
                None => {
                    assert(owned_views(parts@) + it.remaining() =~= owned_views(parts@));
                    return parts;
                },
            }
        }
    }
}

} // verus!
