//! The parts of an input, borrowed from it, and what can be asked of them.

use vstd::prelude::*;
use vstd::std_specs::iter::IteratorSpec;
use crate::tag::model::{elements_of, first_seen, texts_of, ElemModel, PartModel};
use crate::tag::parts::{first_seen_names, str_bytes};
use crate::tag::tag_ref::{part_views, PartRef, TagElemRef};
use crate::tag::text::bytes_of;

verus! {

/// The models of a sequence of borrowed elements.
pub open spec fn elem_model_views(elems: Seq<&TagElemRef>) -> Seq<ElemModel> {
    Seq::new(elems.len(), |i: int| elems[i]@)
}

/// The tag names of a sequence of elements.
pub open spec fn names_in(elems: Seq<ElemModel>) -> Seq<Seq<u8>> {
    Seq::new(elems.len(), |i: int| elems[i].name)
}

/// The parts of an input, borrowed from it, in the order in which they stand
/// in it.
#[derive(Debug, PartialEq, Default)]
pub struct PartsRef<'a> {
    pub(crate) parts: Vec<PartRef<'a>>,
}

impl<'a> View for PartsRef<'a> {
    type V = Seq<PartModel<ElemModel>>;

    open spec fn view(&self) -> Seq<PartModel<ElemModel>> {
        part_views(self.items())
    }
}

impl<'a> PartsRef<'a> {
    /// The parts as they are held.
    pub closed spec fn items(&self) -> Seq<PartRef<'a>> {
        self.parts@
    }

    /// The parts, in order.
    pub fn parts(&self) -> (parts: &Vec<PartRef<'a>>)
        ensures
            parts@ == self.items(),
    {
        &self.parts
    }

    /// The parts, in order.
    pub fn into_parts(self) -> (parts: Vec<PartRef<'a>>)
        ensures
            parts@ == self.items(),
    {
        self.parts
    }

    /// The distinct tag names of the elements, each where it first occurs.
    pub fn tag_names(&self) -> (names: Vec<&str>)
        ensures
            str_bytes(names@) == first_seen(names_in(elements_of(self@))),
    {
        let elems = self.tag_elems();
        let mut tags: Vec<&'a str> = Vec::new();
        let mut i: usize = 0;
        while i < elems.len()
            invariant
                i <= elems.len(),
                tags.len() == i,
                forall|j: int| 0 <= j < i ==> bytes_of((#[trigger] tags@[j])@) == elems@[j]@.name,
            decreases elems.len() - i,
        {
            tags.push(elems[i].tag_name);
            i += 1;
        }
        assert(str_bytes(tags@) =~= names_in(elem_model_views(elems@)));
        first_seen_names(&tags)
    }

    /// An iterator over the parts, in order.
    pub fn iter(&self) -> (iter: core::slice::Iter<'_, PartRef<'a>>)
        ensures
            iter.remaining() == self.items().as_ref(),
    {
        broadcast use vstd::std_specs::slice::axiom_spec_slice_iter;

        self.parts.as_slice().iter()
    }

    /// The elements, in order.
    pub fn tag_elems(&self) -> (elems: Vec<&TagElemRef<'a>>)
        ensures
            elem_model_views(elems@) == elements_of(self@),
    {
        let ghost all = part_views(self.parts@);
        let mut elems: Vec<&TagElemRef<'a>> = Vec::new();
        let mut i: usize = 0;
        proof {
            assert(all.subrange(0, all.len() as int) =~= all);
            assert(elem_model_views(elems@) + elements_of(all) =~= elements_of(all));
        }
        while i < self.parts.len()
            invariant
                i <= self.parts.len(),
                all == part_views(self.parts@),
                elem_model_views(elems@) + elements_of(all.subrange(i as int, all.len() as int))
                    == elements_of(all),
            decreases self.parts.len() - i,
        {
            let ghost rest = all.subrange(i as int, all.len() as int);
            let ghost views = elem_model_views(elems@);
            assert(rest.drop_first() =~= all.subrange(i + 1, all.len() as int));
            assert(rest[0] == self.parts@[i as int]@);
            match &self.parts[i] {
                PartRef::TagElemRef(elem) => {
                    elems.push(elem);
                    assert(elem_model_views(elems@) =~= views.push(elem@));
                    assert(views.push(elem@) + elements_of(rest.drop_first()) =~= views + (
                    seq![elem@] + elements_of(rest.drop_first())));
                },
                PartRef::Text(_) => {},
            }
            i += 1;
        }
        assert(elem_model_views(elems@) + Seq::<ElemModel>::empty() =~= elem_model_views(elems@));
        elems
    }

    /// The texts, in order.
    pub fn texts(&self) -> (texts: Vec<&'a str>)
        ensures
            str_bytes(texts@) == texts_of(self@),
    {
        let ghost all = part_views(self.parts@);
        let mut texts: Vec<&'a str> = Vec::new();
        let mut i: usize = 0;
        proof {
            assert(all.subrange(0, all.len() as int) =~= all);
            assert(str_bytes(texts@) + texts_of(all) =~= texts_of(all));
        }
        while i < self.parts.len()
            invariant
                i <= self.parts.len(),
                all == part_views(self.parts@),
                str_bytes(texts@) + texts_of(all.subrange(i as int, all.len() as int)) == texts_of(
                    all,
                ),
            decreases self.parts.len() - i,
        {
            let ghost rest = all.subrange(i as int, all.len() as int);
            let ghost views = str_bytes(texts@);
            assert(rest.drop_first() =~= all.subrange(i + 1, all.len() as int));
            assert(rest[0] == self.parts@[i as int]@);
            match &self.parts[i] {
                PartRef::Text(text) => {
                    texts.push(*text);
                    let ghost b = bytes_of(text@);
                    assert(str_bytes(texts@) =~= views.push(b));
                    assert(views.push(b) + texts_of(rest.drop_first()) =~= views + (seq![b]
                        + texts_of(rest.drop_first())));
                },
                PartRef::TagElemRef(_) => {},
            }
            i += 1;
        }
        assert(str_bytes(texts@) + Seq::<Seq<u8>>::empty() =~= str_bytes(texts@));
        texts
    }
}

impl<'a> IntoIterator for PartsRef<'a> {
    type Item = PartRef<'a>;

    type IntoIter = std::vec::IntoIter<PartRef<'a>>;

    fn into_iter(self) -> (iter: std::vec::IntoIter<PartRef<'a>>)
        ensures
            iter.remaining() == self.items(),
    {
        broadcast use vstd::std_specs::vec::axiom_spec_into_iter;

        self.parts.into_iter()
    }
}

impl<'a, 'b> IntoIterator for &'b PartsRef<'a> {
    type Item = &'b PartRef<'a>;

    type IntoIter = core::slice::Iter<'b, PartRef<'a>>;

    fn into_iter(self) -> (iter: core::slice::Iter<'b, PartRef<'a>>)
        ensures
            iter.remaining() == self.items().as_ref(),
    {
        broadcast use vstd::std_specs::slice::axiom_spec_slice_iter;

        self.parts.as_slice().iter()
    }
}

impl<'a> From<Vec<PartRef<'a>>> for PartsRef<'a> {
    /// The container of `parts`.
    fn from(parts: Vec<PartRef<'a>>) -> (r: PartsRef<'a>)
        ensures
            r.items() == parts@,
    {
        PartsRef { parts }
    }
}

impl<'a> vstd::std_specs::convert::FromSpecImpl<Vec<PartRef<'a>>> for PartsRef<'a> {
    open spec fn obeys_from_spec() -> bool {
        true
    }

    closed spec fn from_spec(parts: Vec<PartRef<'a>>) -> PartsRef<'a> {
        PartsRef { parts }
    }
}

impl<'a> From<PartsRef<'a>> for Vec<PartRef<'a>> {
    fn from(val: PartsRef<'a>) -> (parts: Vec<PartRef<'a>>)
        ensures
            parts@ == val.items(),
    {
        val.parts
    }
}

impl<'a> vstd::std_specs::convert::FromSpecImpl<PartsRef<'a>> for Vec<PartRef<'a>> {
    open spec fn obeys_from_spec() -> bool {
        true
    }

    closed spec fn from_spec(val: PartsRef<'a>) -> Vec<PartRef<'a>> {
        val.parts
    }
}

} // verus!
