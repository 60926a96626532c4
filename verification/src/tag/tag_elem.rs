//! Elements and parts that own their text.

use vstd::prelude::*;
use vstd::string::*;
use crate::tag::attrs::Attrs;
use crate::tag::model::{ElemModel, PartModel};
use crate::tag::support::attrs_parser::{attrs_of, parse_attrs_ref};
use crate::tag::tag_ref::{PartRef, TagElemRef};
use crate::tag::text::bytes_of;

verus! {

/// What an owned element holds.
pub struct TagElemModel {
    /// The tag's name.
    pub tag: Seq<u8>,
    /// The attributes of the opening tag, if it has any.
    pub attrs: Option<Map<Seq<u8>, Seq<u8>>>,
    /// What stands between the opening tag and the closing delimiter.
    pub content: Seq<u8>,
}

/// The owned form of an element: its raw attribute text is parsed, its
/// offsets are dropped.
pub open spec fn owned_elem(e: ElemModel) -> TagElemModel {
    TagElemModel { tag: e.name, attrs: attrs_of(e.attrs_raw), content: e.content }
}

/// The owned form of a part.
pub open spec fn owned_part(p: PartModel<ElemModel>) -> PartModel<TagElemModel> {
    match p {
        PartModel::Text(text) => PartModel::Text(text),
        PartModel::Elem(e) => PartModel::Elem(owned_elem(e)),
    }
}

/// The owned forms of a sequence of parts.
pub open spec fn owned_parts(parts: Seq<PartModel<ElemModel>>) -> Seq<PartModel<TagElemModel>> {
    Seq::new(parts.len(), |i: int| owned_part(parts[i]))
}

/// An element defined by an opening tag and a closing delimiter, like
/// `<TAG>content</TAG>`.
#[derive(Debug, Clone, PartialEq, Default)]
pub struct TagElem {
    /// The name of the tag.
    pub tag: String,
    /// The attributes of the opening tag, if it has any.
    pub attrs: Option<Attrs>,
    /// The text between the opening tag and the closing delimiter.
    pub content: String,
}

impl View for TagElem {
    type V = TagElemModel;

    open spec fn view(&self) -> TagElemModel {
        TagElemModel {
            tag: bytes_of(self.tag@),
            attrs: match self.attrs {
                Some(attrs) => Some(attrs@),
                None => None,
            },
            content: bytes_of(self.content@),
        }
    }
}

impl TagElem {
    /// An element with the given name, attributes and content.
    pub fn new<N: Into<String>, C: Into<String>>(
        name: N,
        attrs: Option<Attrs>,
        content: C,
    ) -> (elem: Self)
        ensures
            call_ensures(N::into, (name,), elem.tag),
            elem.attrs == attrs,
            call_ensures(C::into, (content,), elem.content),
    {
        TagElem { tag: name.into(), attrs, content: content.into() }
    }
}

/// A part of the input: text outside of any tag, or an element.
#[derive(Debug, Clone, PartialEq)]
pub enum Part {
    /// Text outside of any tag.
    Text(String),
    /// An element.
    TagElem(TagElem),
}

impl View for Part {
    type V = PartModel<TagElemModel>;

    open spec fn view(&self) -> PartModel<TagElemModel> {
        match self {
            Part::Text(text) => PartModel::Text(bytes_of(text@)),
            Part::TagElem(elem) => PartModel::Elem(elem@),
        }
    }
}

impl<'a> From<TagElemRef<'a>> for TagElem {
    /// The owned form of a borrowed element.
    fn from(elem_ref: TagElemRef<'a>) -> (elem: TagElem)
        ensures
            elem@ == owned_elem(elem_ref@),
    {
        let attrs = match parse_attrs_ref(elem_ref.attrs_raw) {
            Some(attrs_ref) => Some(Attrs::from_ref(&attrs_ref)),
            None => None,
        };
        TagElem {
            tag: elem_ref.tag_name.to_owned(),
            attrs,
            content: elem_ref.content.to_owned(),
        }
    }
}

impl<'a> vstd::std_specs::convert::FromSpecImpl<TagElemRef<'a>> for TagElem {
    /// The result owns fresh text, so no function of the argument gives it;
    /// what it holds is stated by `from` itself.
    open spec fn obeys_from_spec() -> bool {
        false
    }

    open spec fn from_spec(elem_ref: TagElemRef<'a>) -> TagElem {
        arbitrary()
    }
}

impl<'a> From<PartRef<'a>> for Part {
    /// The owned form of a borrowed part.
    fn from(part_ref: PartRef<'a>) -> (part: Part)
        ensures
            part@ == owned_part(part_ref@),
    {
        match part_ref {
            PartRef::Text(text) => Part::Text(text.to_owned()),
            PartRef::TagElemRef(elem_ref) => Part::TagElem(TagElem::from(elem_ref)),
        }
    }
}

impl<'a> vstd::std_specs::convert::FromSpecImpl<PartRef<'a>> for Part {
    /// The result owns fresh text, so no function of the argument gives it;
    /// what it holds is stated by `from` itself.
    open spec fn obeys_from_spec() -> bool {
        false
    }

    open spec fn from_spec(part_ref: PartRef<'a>) -> Part {
        arbitrary()
    }
}

/// The models of a sequence of owned parts.
pub open spec fn owned_views(parts: Seq<Part>) -> Seq<PartModel<TagElemModel>> {
    Seq::new(parts.len(), |i: int| parts[i]@)
}

} // verus!
