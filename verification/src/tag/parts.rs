//! The parts of an input in owned form, and what can be asked of them.

use vstd::prelude::*;
use vstd::std_specs::iter::IteratorSpec;
use vstd::string::*;
use crate::tag::attrs::same_bytes;
use crate::tag::model::{elements_of, first_seen, joined_text, texts_of, PartModel};
use crate::tag::tag_elem::{owned_views, Part, TagElem, TagElemModel};
use crate::tag::tag_elem_iter::elem_views;
use crate::tag::text::{bytes_of, lemma_bytes_of_concat};

verus! {

/// The models of a sequence of references to elements.
pub open spec fn elem_ref_views(elems: Seq<&TagElem>) -> Seq<TagElemModel> {
    Seq::new(elems.len(), |i: int| elems[i]@)
}

/// The bytes of a sequence of borrowed strings.
pub open spec fn string_ref_bytes(texts: Seq<&String>) -> Seq<Seq<u8>> {
    Seq::new(texts.len(), |i: int| bytes_of(texts[i]@))
}

/// The bytes of a sequence of strings.
pub open spec fn string_bytes(texts: Seq<String>) -> Seq<Seq<u8>> {
    Seq::new(texts.len(), |i: int| bytes_of(texts[i]@))
}

/// The bytes of a sequence of borrowed texts.
pub open spec fn str_bytes(texts: Seq<&str>) -> Seq<Seq<u8>> {
    Seq::new(texts.len(), |i: int| bytes_of(texts[i]@))
}

/// The tag names of a sequence of elements.
pub open spec fn tags_of(elems: Seq<TagElemModel>) -> Seq<Seq<u8>> {
    Seq::new(elems.len(), |i: int| elems[i].tag)
}

/// The elements among `parts`, in order.
pub(crate) fn tag_elems_in(parts: &Vec<Part>) -> (elems: Vec<&TagElem>)
    ensures
        elem_ref_views(elems@) == elements_of(owned_views(parts@)),
{
    let ghost all = owned_views(parts@);
    let mut elems: Vec<&TagElem> = Vec::new();
    let mut i: usize = 0;
    proof {
        assert(all.subrange(0, all.len() as int) =~= all);
        assert(elem_ref_views(elems@) + elements_of(all) =~= elements_of(all));
    }
    while i < parts.len()
        invariant
            i <= parts.len(),
            all == owned_views(parts@),
            elem_ref_views(elems@) + elements_of(all.subrange(i as int, all.len() as int))
                == elements_of(all),
        decreases parts.len() - i,
    {
        let ghost rest = all.subrange(i as int, all.len() as int);
        let ghost views = elem_ref_views(elems@);
        assert(rest.drop_first() =~= all.subrange(i + 1, all.len() as int));
        assert(rest[0] == parts@[i as int]@);
        match &parts[i] {
            Part::TagElem(elem) => {
                elems.push(elem);
                assert(elem_ref_views(elems@) =~= views.push(elem@));
                assert(views.push(elem@) + elements_of(rest.drop_first()) =~= views + (seq![elem@]
                    + elements_of(rest.drop_first())));
            },
            Part::Text(_) => {},
        }
        i += 1;
    }
    assert(elem_ref_views(elems@) + Seq::<TagElemModel>::empty() =~= elem_ref_views(elems@));
    elems
}

/// The texts among `parts`, in order.
pub(crate) fn texts_in(parts: &Vec<Part>) -> (texts: Vec<&String>)
    ensures
        string_ref_bytes(texts@) == texts_of(owned_views(parts@)),
{
    let ghost all = owned_views(parts@);
    let mut texts: Vec<&String> = Vec::new();
    let mut i: usize = 0;
    proof {
        assert(all.subrange(0, all.len() as int) =~= all);
        assert(string_ref_bytes(texts@) + texts_of(all) =~= texts_of(all));
    }
    while i < parts.len()
        invariant
            i <= parts.len(),
            all == owned_views(parts@),
            string_ref_bytes(texts@) + texts_of(all.subrange(i as int, all.len() as int))
                == texts_of(all),
        decreases parts.len() - i,
    {
        let ghost rest = all.subrange(i as int, all.len() as int);
        let ghost views = string_ref_bytes(texts@);
        assert(rest.drop_first() =~= all.subrange(i + 1, all.len() as int));
        assert(rest[0] == parts@[i as int]@);
        match &parts[i] {
            Part::Text(text) => {
                texts.push(text);
                let ghost b = bytes_of(text@);
                assert(string_ref_bytes(texts@) =~= views.push(b));
                assert(views.push(b) + texts_of(rest.drop_first()) =~= views + (seq![b] + texts_of(
                    rest.drop_first(),
                )));
            },
            Part::TagElem(_) => {},
        }
        i += 1;
    }
    assert(string_ref_bytes(texts@) + Seq::<Seq<u8>>::empty() =~= string_ref_bytes(texts@));
    texts
}

/// The elements among `parts`, in order, and the texts among them joined
/// into one.
pub(crate) fn split_parts(parts: Vec<Part>) -> (r: (Vec<TagElem>, Vec<String>, String))
    ensures
        elem_views(r.0@) == elements_of(owned_views(parts@)),
        string_bytes(r.1@) == texts_of(owned_views(parts@)),
        bytes_of(r.2@) == joined_text(owned_views(parts@)),
{
    let ghost all = owned_views(parts@);
    let ghost len = all.len() as int;
    let mut tag_elems: Vec<TagElem> = Vec::new();
    let mut texts: Vec<String> = Vec::new();
    let mut text_content = String::new();
    proof {
        assert(bytes_of(text_content@) =~= Seq::<u8>::empty());
        assert(all.subrange(0, len) =~= all);
        assert(elem_views(tag_elems@) + elements_of(all) =~= elements_of(all));
        assert(string_bytes(texts@) + texts_of(all) =~= texts_of(all));
        assert(bytes_of(text_content@) + joined_text(all) =~= joined_text(all));
    }
    for part in it: parts
        invariant
            all == owned_views(parts@),
            len == all.len(),
            it.seq() == parts@,
            elem_views(tag_elems@) + elements_of(all.subrange(it.index() as int, len))
                == elements_of(all),
            string_bytes(texts@) + texts_of(all.subrange(it.index() as int, len)) == texts_of(all),
            bytes_of(text_content@) + joined_text(all.subrange(it.index() as int, len))
                == joined_text(all),
    {
        let ghost i = it.index() as int;
        let ghost rest = all.subrange(i, len);
        let ghost elems_before = elem_views(tag_elems@);
        let ghost texts_before = string_bytes(texts@);
        let ghost joined_before = bytes_of(text_content@);
        assert(rest.drop_first() =~= all.subrange(i + 1, len));
        assert(rest[0] == part@);
        match part {
            Part::TagElem(elem) => {
                tag_elems.push(elem);
                assert(elem_views(tag_elems@) =~= elems_before.push(elem@));
                assert(elems_before.push(elem@) + elements_of(rest.drop_first()) =~= elems_before
                    + (seq![elem@] + elements_of(rest.drop_first())));
            },
            Part::Text(text) => {
                let ghost b = bytes_of(text@);
                let ghost joined_chars = text_content@;
                text_content.append(text.as_str());
                texts.push(text);
                proof {
                    lemma_bytes_of_concat(joined_chars, text@);
                    assert(string_bytes(texts@) =~= texts_before.push(b));
                    assert(texts_before.push(b) + texts_of(rest.drop_first()) =~= texts_before + (
                    seq![b] + texts_of(rest.drop_first())));
                    assert((joined_before + b) + joined_text(rest.drop_first()) =~= joined_before
                        + (b + joined_text(rest.drop_first())));
                }
            },
        }
    }
    proof {
        assert(all.subrange(len, len) =~= Seq::<PartModel<TagElemModel>>::empty());
        assert(elem_views(tag_elems@) + Seq::<TagElemModel>::empty() =~= elem_views(tag_elems@));
        assert(string_bytes(texts@) + Seq::<Seq<u8>>::empty() =~= string_bytes(texts@));
        assert(bytes_of(text_content@) + Seq::<u8>::empty() =~= bytes_of(text_content@));
    }
    (tag_elems, texts, text_content)
}

/// Tells whether one of `names` holds the bytes of `name`.
fn holds_name(names: &Vec<&str>, name: &str) -> (r: bool)
    ensures
        r == str_bytes(names@).contains(bytes_of(name@)),
{
    let mut i: usize = 0;
    while i < names.len()
        invariant
            i <= names.len(),
            forall|j: int| 0 <= j < i ==> str_bytes(names@)[j] != bytes_of(name@),
        decreases names.len() - i,
    {
        if same_bytes(names[i], name) {
            assert(str_bytes(names@)[i as int] == bytes_of(name@));
            return true;
        }
        i += 1;
    }
    false
}

/// The distinct members of `names`, each where it first occurs.
pub(crate) fn first_seen_names<'a>(names: &Vec<&'a str>) -> (distinct: Vec<&'a str>)
    ensures
        str_bytes(distinct@) == first_seen(str_bytes(names@)),
{
    let ghost all = str_bytes(names@);
    let mut distinct: Vec<&'a str> = Vec::new();
    let mut i: usize = 0;
    proof {
        assert(str_bytes(distinct@) =~= Seq::<Seq<u8>>::empty());
    }
    while i < names.len()
        invariant
            i <= names.len(),
            all == str_bytes(names@),
            str_bytes(distinct@) == first_seen(all.subrange(0, i as int)),
        decreases names.len() - i,
    {
        let ghost before = str_bytes(distinct@);
        assert(all.subrange(0, i + 1).drop_last() =~= all.subrange(0, i as int));
        assert(all.subrange(0, i + 1).last() == bytes_of(names@[i as int]@));
        if !holds_name(&distinct, names[i]) {
            distinct.push(names[i]);
            assert(str_bytes(distinct@) =~= before.push(bytes_of(names@[i as int]@)));
        }
        i += 1;
    }
    assert(all.subrange(0, all.len() as int) =~= all);
    distinct
}

/// The tag names of `elems`, in order.
fn tags_in<'a>(elems: &Vec<&'a TagElem>) -> (tags: Vec<&'a str>)
    ensures
        str_bytes(tags@) == tags_of(elem_ref_views(elems@)),
{
    let mut tags: Vec<&'a str> = Vec::new();
    let mut i: usize = 0;
    while i < elems.len()
        invariant
            i <= elems.len(),
            tags.len() == i,
            forall|j: int| 0 <= j < i ==> bytes_of((#[trigger] tags@[j])@) == elems@[j]@.tag,
        decreases elems.len() - i,
    {
        let elem: &'a TagElem = elems[i];
        tags.push(elem.tag.as_str());
        i += 1;
    }
    assert(str_bytes(tags@) =~= tags_of(elem_ref_views(elems@)));
    tags
}

/// The distinct tag names of the elements among `parts`, each where it first
/// occurs.
pub(crate) fn tag_names_in(parts: &Vec<Part>) -> (names: Vec<&str>)
    ensures
        str_bytes(names@) == first_seen(tags_of(elements_of(owned_views(parts@)))),
{
    let elems = tag_elems_in(parts);
    let tags = tags_in(&elems);
    first_seen_names(&tags)
}

/// The parts of an input, in the order in which they stand in it.
#[derive(Debug, Clone, PartialEq, Default)]
pub struct Parts {
    pub(crate) parts: Vec<Part>,
}

impl View for Parts {
    type V = Seq<PartModel<TagElemModel>>;

    open spec fn view(&self) -> Seq<PartModel<TagElemModel>> {
        owned_views(self.items())
    }
}

impl Parts {
    /// The parts as they are held.
    pub closed spec fn items(&self) -> Seq<Part> {
        self.parts@
    }

    /// The parts, in order.
    pub fn parts(&self) -> (parts: &Vec<Part>)
        ensures
            parts@ == self.items(),
    {
        &self.parts
    }

    /// The parts, in order.
    pub fn into_parts(self) -> (parts: Vec<Part>)
        ensures
            parts@ == self.items(),
    {
        self.parts
    }

    /// The distinct tag names of the elements, each where it first occurs.
    pub fn tag_names(&self) -> (names: Vec<&str>)
        ensures
            str_bytes(names@) == first_seen(tags_of(elements_of(self@))),
    {
        tag_names_in(&self.parts)
    }

    /// An iterator over the parts, in order.
    pub fn iter(&self) -> (iter: core::slice::Iter<'_, Part>)
        ensures
            iter.remaining() == self.items().as_ref(),
    {
        broadcast use vstd::std_specs::slice::axiom_spec_slice_iter;

        self.parts.as_slice().iter()
    }

    /// The elements, in order.
    pub fn tag_elems(&self) -> (elems: Vec<&TagElem>)
        ensures
            elem_ref_views(elems@) == elements_of(self@),
    {
        tag_elems_in(&self.parts)
    }

    /// The elements, in order.
    pub fn into_tag_elems(self) -> (elems: Vec<TagElem>)
        ensures
            elem_views(elems@) == elements_of(self@),
    {
        split_parts(self.parts).0
    }

    /// The texts, in order.
    pub fn texts(&self) -> (texts: Vec<&String>)
        ensures
            string_ref_bytes(texts@) == texts_of(self@),
    {
        texts_in(&self.parts)
    }

    /// The texts, in order.
    pub fn into_texts(self) -> (texts: Vec<String>)
        ensures
            string_bytes(texts@) == texts_of(self@),
    {
        split_parts(self.parts).1
    }

    /// The elements, in order, and the texts joined into one: what the input
    /// holds outside of the elements.
    pub fn into_with_extrude_content(self) -> (r: (Vec<TagElem>, String))
        ensures
            elem_views(r.0@) == elements_of(self@),
            bytes_of(r.1@) == joined_text(self@),
    {
        let (tag_elems, _, text_content) = split_parts(self.parts);
        (tag_elems, text_content)
    }
}

impl IntoIterator for Parts {
    type Item = Part;

    type IntoIter = std::vec::IntoIter<Part>;

    fn into_iter(self) -> (iter: std::vec::IntoIter<Part>)
        ensures
            iter.remaining() == self.items(),
    {
        broadcast use vstd::std_specs::vec::axiom_spec_into_iter;

        self.parts.into_iter()
    }
}

impl<'a> IntoIterator for &'a Parts {
    type Item = &'a Part;

    type IntoIter = core::slice::Iter<'a, Part>;

    fn into_iter(self) -> (iter: core::slice::Iter<'a, Part>)
        ensures
            iter.remaining() == self.items().as_ref(),
    {
        broadcast use vstd::std_specs::slice::axiom_spec_slice_iter;

        self.parts.as_slice().iter()
    }
}

impl From<Vec<Part>> for Parts {
    /// The container of `parts`.
    fn from(parts: Vec<Part>) -> (r: Parts)
        ensures
            r.items() == parts@,
    {
        Parts { parts }
    }
}

impl vstd::std_specs::convert::FromSpecImpl<Vec<Part>> for Parts {
    open spec fn obeys_from_spec() -> bool {
        true
    }

    closed spec fn from_spec(parts: Vec<Part>) -> Parts {
        Parts { parts }
    }
}

impl From<Parts> for Vec<Part> {
    fn from(val: Parts) -> (parts: Vec<Part>)
        ensures
            parts@ == val.items(),
    {
        val.parts
    }
}

impl vstd::std_specs::convert::FromSpecImpl<Parts> for Vec<Part> {
    open spec fn obeys_from_spec() -> bool {
        true
    }

    closed spec fn from_spec(val: Parts) -> Vec<Part> {
        val.parts
    }
}

} // verus!
