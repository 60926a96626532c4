//! Hands out the elements of an input in owned form.

use vstd::prelude::*;
use crate::tag::model::{elements_of, parts_of, ElemModel, PartModel};
use crate::tag::tag_elem::{owned_parts, TagElem, TagElemModel};
use crate::tag::tag_ref::PartRef;
use crate::tag::tag_ref_iter::{names_of, TagElemRefIterator};
use crate::tag::text::bytes_of;

verus! {

/// The models of a sequence of owned elements.
pub open spec fn elem_views(elems: Seq<TagElem>) -> Seq<TagElemModel> {
    Seq::new(elems.len(), |i: int| elems[i]@)
}

/// The owned elements among borrowed parts.
pub open spec fn owned_elements(parts: Seq<PartModel<ElemModel>>) -> Seq<TagElemModel> {
    elements_of(owned_parts(parts))
}

/// Scans an input for elements of one or more tag names, and hands out the
/// elements one by one in owned form, with their attributes parsed. The text
/// between them is passed over.
pub struct TagElemIter<'a> {
    tag_content_iter: TagElemRefIterator<'a>,
}

impl<'a> TagElemIter<'a> {
    /// The elements that are still to come, in order.
    pub closed spec fn remaining(&self) -> Seq<TagElemModel> {
        owned_elements(self.tag_content_iter.remaining())
    }

    /// A scanner at the start of `input`.
    ///
    /// # Arguments
    ///
    /// * `input` - The text to scan.
    /// * `tag_names` - The names of the tags to look for (e.g., &["FILE", "DATA"]).
    pub fn new(input: &'a str, tag_names: &[&'a str]) -> (it: Self)
        ensures
            it.remaining() == owned_elements(
                parts_of(bytes_of(input@), names_of(tag_names@), false),
            ),
    {
        TagElemIter { tag_content_iter: TagElemRefIterator::new(input, tag_names, false) }
    }

    /// A scanner at the start of `input` that looks for one tag name.
    ///
    /// # Arguments
    ///
    /// * `input` - The text to scan.
    /// * `tag_name` - The name of the tag to look for (e.g., "FILE").
    pub fn new_single_tag(input: &'a str, tag_name: &'a str) -> (it: Self)
        ensures
            it.remaining() == owned_elements(
                parts_of(bytes_of(input@), seq![bytes_of(tag_name@)], false),
            ),
    {
        let tag_names: Vec<&'a str> = vec![tag_name];
        assert(names_of(tag_names@) =~= seq![bytes_of(tag_name@)]);
        Self::new(input, tag_names.as_slice())
    }

    /// Hands out the next element, or `None` when no element is left.
    pub fn next(&mut self) -> (r: Option<TagElem>)
        ensures
            match r {
                Some(elem) => {
                    &&& old(self).remaining().len() > 0
                    &&& elem@ == old(self).remaining()[0]
                    &&& final(self).remaining() == old(self).remaining().drop_first()
                },
                None => old(self).remaining().len() == 0 && final(self).remaining().len() == 0,
            },
    {
        loop
            invariant
                self.remaining() == old(self).remaining(),
            decreases self.tag_content_iter.remaining().len(),
        {
            let ghost parts = self.tag_content_iter.remaining();
            let next = self.tag_content_iter.next();
            proof {
                if parts.len() > 0 {
                    assert(owned_parts(parts).drop_first() =~= owned_parts(parts.drop_first()));
                }
            }
            match next {
                None => {
                    return None;
                },
                Some(PartRef::Text(_)) => {},
                Some(PartRef::TagElemRef(elem_ref)) => {
                    let elem = TagElem::from(elem_ref);
                    assert(self.remaining() =~= old(self).remaining().drop_first());
                    return Some(elem);
                },
            }
        }
    }

    /// Hands out all elements that are left, in order.
    pub fn collect(self) -> (elems: Vec<TagElem>)
        ensures
            elem_views(elems@) == self.remaining(),
    {
        let mut it = self;
        let mut elems: Vec<TagElem> = Vec::new();
        loop
            invariant
                elem_views(elems@) + it.remaining() == self.remaining(),
            decreases it.remaining().len(),
        {
            let ghost before = it.remaining();
            let ghost views = elem_views(elems@);
            match it.next() {
                Some(elem) => {
                    elems.push(elem);
                    assert(elem_views(elems@) =~= views.push(elem@));
                    assert(views.push(elem@) + before.drop_first() =~= views + before);
                },
                None => {
                    assert(elem_views(elems@) + it.remaining() =~= elem_views(elems@));
                    return elems;
                },
            }
        }
    }
}

} // verus!
