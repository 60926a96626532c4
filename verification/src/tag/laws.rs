//! What holds of the parts of every input.

use vstd::prelude::*;
use crate::tag::bytes::{lemma_first_occurrence, occurs_at};
use crate::tag::model::{
    after_prefix, close_delim, element_lies_in, elements_of, is_longest_open, is_tag_end,
    lemma_next_element, lemma_next_tag_start, lemma_next_tag_start_none, lemma_open_name_len,
    lemma_open_name_len_is, lemma_prefix_occurrence, next_element, next_tag_start,
    open_name_len, open_prefix, opens_at, parts_from, parts_of, tag_starts_at, text_part,
    ElemModel, PartModel,
};
use crate::tag::tag_elem::{owned_elem, owned_parts};

verus! {

/// The span of the input that a part was taken from: for text the text
/// itself, for an element everything from the `<` of its opening tag to the
/// `>` of its closing delimiter.
pub open spec fn source_of(s: Seq<u8>, part: PartModel<ElemModel>) -> Seq<u8> {
    match part {
        PartModel::Text(text) => text,
        PartModel::Elem(e) => s.subrange(e.start, e.end + 1),
    }
}

/// The spans of `parts`, one behind the other.
pub open spec fn sources_joined(s: Seq<u8>, parts: Seq<PartModel<ElemModel>>) -> Seq<u8>
    decreases parts.len(),
{
    if parts.len() == 0 {
        seq![]
    } else {
        source_of(s, parts[0]) + sources_joined(s, parts.drop_first())
    }
}

proof fn lemma_sources_joined_add(
    s: Seq<u8>,
    a: Seq<PartModel<ElemModel>>,
    b: Seq<PartModel<ElemModel>>,
)
    ensures
        sources_joined(s, a + b) == sources_joined(s, a) + sources_joined(s, b),
    decreases a.len(),
{
    if a.len() == 0 {
        assert(a + b =~= b);
        assert(sources_joined(s, a) + sources_joined(s, b) =~= sources_joined(s, b));
    } else {
        assert((a + b).drop_first() =~= a.drop_first() + b);
        lemma_sources_joined_add(s, a.drop_first(), b);
        assert(sources_joined(s, a + b) =~= sources_joined(s, a) + sources_joined(s, b));
    }
}

proof fn lemma_sources_joined_one(s: Seq<u8>, part: PartModel<ElemModel>)
    ensures
        sources_joined(s, seq![part]) == source_of(s, part),
{
    let parts = seq![part];
    assert(parts.drop_first() =~= Seq::<PartModel<ElemModel>>::empty());
    assert(sources_joined(s, parts.drop_first()) =~= Seq::<u8>::empty());
    assert(sources_joined(s, parts) =~= source_of(s, part));
}

proof fn lemma_reconstruction_from(s: Seq<u8>, names: Seq<Seq<u8>>, from: int)
    requires
        0 <= from <= s.len(),
    ensures
        sources_joined(s, parts_from(s, names, true, from)) == s.subrange(from, s.len() as int),
    decreases s.len() - from,
{
    let len = s.len() as int;
    lemma_next_element(s, names, from);
    match next_element(s, names, from) {
        None => {
            let parts = text_part(s, true, from, len);
            if from < len {
                lemma_sources_joined_one(s, PartModel::Text(s.subrange(from, len)));
            } else {
                assert(s.subrange(from, len) =~= Seq::<u8>::empty());
            }
        },
        Some(e) => {
            let before = text_part(s, true, from, e.start);
            let rest = parts_from(s, names, true, e.end + 1);
            lemma_reconstruction_from(s, names, e.end + 1);
            lemma_sources_joined_add(s, before + seq![PartModel::Elem(e)], rest);
            lemma_sources_joined_add(s, before, seq![PartModel::Elem(e)]);
            lemma_sources_joined_one(s, PartModel::Elem(e));
            if from < e.start {
                lemma_sources_joined_one(s, PartModel::Text(s.subrange(from, e.start)));
            }
            assert(sources_joined(s, before) =~= s.subrange(from, e.start));
            assert(s.subrange(from, e.start) + s.subrange(e.start, e.end + 1) + s.subrange(
                e.end + 1,
                len,
            ) =~= s.subrange(from, len));
        },
    }
}

/// Reconstruction: with text captured, the spans of the input that the parts
/// were taken from, joined in order, are the input. The parts follow one
/// another in the input without a gap and without an overlap.
pub proof fn lemma_reconstruction(s: Seq<u8>, names: Seq<Seq<u8>>)
    ensures
        sources_joined(s, parts_of(s, names, true)) == s,
{
    lemma_reconstruction_from(s, names, 0);
    assert(s.subrange(0, s.len() as int) =~= s);
}

/// No-tag invariance: where no requested tag name occurs in the input, the
/// parts with text captured are the whole input as one text (none where the
/// input is empty), and without text there is no part.
pub proof fn lemma_no_tag_invariance(s: Seq<u8>, names: Seq<Seq<u8>>)
    requires
        forall|k: int, i: int| 0 <= k < names.len() ==> !#[trigger] occurs_at(s, names[k], i),
    ensures
        s.len() > 0 ==> parts_of(s, names, true) == seq![PartModel::<ElemModel>::Text(s)],
        s.len() == 0 ==> parts_of(s, names, true) == Seq::<PartModel<ElemModel>>::empty(),
        parts_of(s, names, false) == Seq::<PartModel<ElemModel>>::empty(),
{
    assert forall|j: int| 0 <= j < s.len() implies !tag_starts_at(s, names, j) by {
        if opens_at(s, names, j) {
            let k = choose|k: int|
                0 <= k < names.len() && occurs_at(s, open_prefix(#[trigger] names[k]), j);
            lemma_prefix_occurrence(s, names[k], j);
            let name = names[k];
            assert forall|x: int| 0 <= x < name.len() implies s[j + 1 + x]
                == #[trigger] name[x] by {
                assert(s.subrange(j + 1, j + 1 + name.len())[x] == name[x]);
            }
            assert(occurs_at(s, name, j + 1));
        }
    }
    lemma_next_tag_start_none(s, names, 0);
    assert(s.subrange(0, s.len() as int) =~= s);
}

proof fn lemma_elements_of_add<E>(a: Seq<PartModel<E>>, b: Seq<PartModel<E>>)
    ensures
        elements_of(a + b) == elements_of(a) + elements_of(b),
    decreases a.len(),
{
    if a.len() == 0 {
        assert(a + b =~= b);
        assert(elements_of(a) + elements_of(b) =~= elements_of(b));
    } else {
        assert((a + b).drop_first() =~= a.drop_first() + b);
        lemma_elements_of_add(a.drop_first(), b);
        assert(elements_of(a + b) =~= elements_of(a) + elements_of(b));
    }
}

proof fn lemma_elements_of_text_part(s: Seq<u8>, capture_text: bool, lo: int, hi: int)
    ensures
        elements_of(text_part(s, capture_text, lo, hi)) == Seq::<ElemModel>::empty(),
{
    let parts = text_part(s, capture_text, lo, hi);
    if parts.len() > 0 {
        assert(parts.drop_first() =~= Seq::<PartModel<ElemModel>>::empty());
        assert(elements_of(parts.drop_first()) =~= Seq::<ElemModel>::empty());
    }
}

proof fn lemma_text_suppression_from(s: Seq<u8>, names: Seq<Seq<u8>>, from: int)
    requires
        0 <= from,
    ensures
        elements_of(parts_from(s, names, false, from)) == elements_of(
            parts_from(s, names, true, from),
        ),
    decreases s.len() - from,
{
    let len = s.len() as int;
    lemma_next_element(s, names, from);
    match next_element(s, names, from) {
        None => {
            lemma_elements_of_text_part(s, true, from, len);
            lemma_elements_of_text_part(s, false, from, len);
        },
        Some(e) => {
            lemma_text_suppression_from(s, names, e.end + 1);
            let one = seq![PartModel::Elem(e)];
            let with = text_part(s, true, from, e.start);
            let without = text_part(s, false, from, e.start);
            lemma_elements_of_text_part(s, true, from, e.start);
            lemma_elements_of_text_part(s, false, from, e.start);
            lemma_elements_of_add(with + one, parts_from(s, names, true, e.end + 1));
            lemma_elements_of_add(with, one);
            lemma_elements_of_add(without + one, parts_from(s, names, false, e.end + 1));
            lemma_elements_of_add(without, one);
        },
    }
}

proof fn lemma_only_elements_from(s: Seq<u8>, names: Seq<Seq<u8>>, from: int)
    requires
        0 <= from,
    ensures
        forall|i: int|
            0 <= i < parts_from(s, names, false, from).len() ==> #[trigger] parts_from(
                s,
                names,
                false,
                from,
            )[i] is Elem,
    decreases s.len() - from,
{
    lemma_next_element(s, names, from);
    if let Some(e) = next_element(s, names, from) {
        lemma_only_elements_from(s, names, e.end + 1);
    }
}

proof fn lemma_owned_elements(parts: Seq<PartModel<ElemModel>>)
    ensures
        elements_of(owned_parts(parts)) == Seq::new(
            elements_of(parts).len(),
            |i: int| owned_elem(elements_of(parts)[i]),
        ),
    decreases parts.len(),
{
    if parts.len() > 0 {
        lemma_owned_elements(parts.drop_first());
        assert(owned_parts(parts).drop_first() =~= owned_parts(parts.drop_first()));
    }
    assert(elements_of(owned_parts(parts)) =~= Seq::new(
        elements_of(parts).len(),
        |i: int| owned_elem(elements_of(parts)[i]),
    ));
}

/// Text suppression: without capturing text each part is an element, and
/// these elements are the elements among the parts found with text
/// captured, in borrowed and in owned form.
pub proof fn lemma_text_suppression(s: Seq<u8>, names: Seq<Seq<u8>>)
    ensures
        forall|i: int|
            0 <= i < parts_of(s, names, false).len() ==> #[trigger] parts_of(
                s,
                names,
                false,
            )[i] is Elem,
        elements_of(parts_of(s, names, false)) == elements_of(parts_of(s, names, true)),
        elements_of(owned_parts(parts_of(s, names, false))) == elements_of(
            owned_parts(parts_of(s, names, true)),
        ),
{
    lemma_only_elements_from(s, names, 0);
    lemma_text_suppression_from(s, names, 0);
    lemma_owned_elements(parts_of(s, names, false));
    lemma_owned_elements(parts_of(s, names, true));
}

/// What holds of an element that was found in `s` for the names `names`.
pub open spec fn is_element_of(s: Seq<u8>, names: Seq<Seq<u8>>, e: ElemModel) -> bool {
    // It lies in the input, with `start < end < len`: an opening tag with the
    // name, attribute text up to the first `>`, the content, and the first
    // closing delimiter behind the opening tag.
    &&& element_lies_in(s, e, 0)
    // Its name was requested.
    &&& names.contains(e.name)
    // Behind the name stands `>` or white space: a name that goes on is
    // another tag.
    &&& is_tag_end(s[e.start + 1 + e.name.len()])
    // No longer requested name opens where it starts.
    &&& forall|k: int|
        0 <= k < names.len() && occurs_at(s, open_prefix(#[trigger] names[k]), e.start)
            ==> names[k].len() <= e.name.len()
    // The content does not hold the closing delimiter.
    &&& forall|i: int| !occurs_at(e.content, close_delim(e.name), i)
}

proof fn lemma_is_element_of(s: Seq<u8>, names: Seq<Seq<u8>>, from: int)
    requires
        0 <= from,
    ensures
        next_element(s, names, from) matches Some(e) ==> is_element_of(s, names, e),
{
    lemma_next_element(s, names, from);
    if let Some(e) = next_element(s, names, from) {
        lemma_next_tag_start(s, names, from);
        lemma_open_name_len(s, names, e.start);
        let k = choose|k: int|
            0 <= k < names.len() && (#[trigger] names[k]).len() == e.name.len() && occurs_at(
                s,
                open_prefix(names[k]),
                e.start,
            );
        lemma_prefix_occurrence(s, names[k], e.start);
        assert(names[k] == e.name);
        let delim = close_delim(e.name);
        let close = e.end - e.name.len() - 2;
        let gt = close - e.content.len() - 1;
        lemma_first_occurrence(s, delim, gt + 1);
        assert forall|i: int| !occurs_at(e.content, delim, i) by {
            if occurs_at(e.content, delim, i) {
                assert forall|j: int| 0 <= j < delim.len() implies s[gt + 1 + i + j]
                    == #[trigger] delim[j] by {
                    assert(e.content[i + j] == delim[j]);
                }
                assert(occurs_at(s, delim, gt + 1 + i));
            }
        }
    }
}

proof fn lemma_elements_from(s: Seq<u8>, names: Seq<Seq<u8>>, capture_text: bool, from: int)
    requires
        0 <= from,
    ensures
        forall|i: int|
            0 <= i < parts_from(s, names, capture_text, from).len() ==> (
            #[trigger] parts_from(s, names, capture_text, from)[i] matches PartModel::Elem(e)
                ==> is_element_of(s, names, e) && from <= e.start),
    decreases s.len() - from,
{
    lemma_next_element(s, names, from);
    lemma_is_element_of(s, names, from);
    if let Some(e) = next_element(s, names, from) {
        lemma_elements_from(s, names, capture_text, e.end + 1);
    }
}

/// Each element among the parts of an input lies in that input, bears a
/// requested name that is followed by `>` or white space, is bound to the
/// longest requested name that opens where it starts (so a tag `<TAG_EXTRA>`
/// is never taken for `TAG`), and holds no closing delimiter in its content.
pub proof fn lemma_elements(s: Seq<u8>, names: Seq<Seq<u8>>, capture_text: bool)
    ensures
        forall|i: int|
            0 <= i < parts_of(s, names, capture_text).len() ==> (
            #[trigger] parts_of(s, names, capture_text)[i] matches PartModel::Elem(e)
                ==> is_element_of(s, names, e)),
{
    lemma_elements_from(s, names, capture_text, 0);
}

/// Each element ends before the elements behind it start: the offsets grow
/// along the parts.
pub open spec fn in_order(parts: Seq<PartModel<ElemModel>>) -> bool {
    forall|i: int, j: int|
        0 <= i < j < parts.len() ==> (#[trigger] parts[i] matches PartModel::Elem(a) ==> (
        #[trigger] parts[j] matches PartModel::Elem(b) ==> a.end < b.start))
}

proof fn lemma_elements_in_order_from(
    s: Seq<u8>,
    names: Seq<Seq<u8>>,
    capture_text: bool,
    from: int,
)
    requires
        0 <= from,
    ensures
        in_order(parts_from(s, names, capture_text, from)),
    decreases s.len() - from,
{
    lemma_next_element(s, names, from);
    if let Some(e) = next_element(s, names, from) {
        lemma_elements_in_order_from(s, names, capture_text, e.end + 1);
        lemma_elements_from(s, names, capture_text, e.end + 1);
    }
}

/// The elements among the parts of an input stand in the order of their
/// offsets, none overlapping another.
pub proof fn lemma_elements_in_order(s: Seq<u8>, names: Seq<Seq<u8>>, capture_text: bool)
    ensures
        in_order(parts_of(s, names, capture_text)),
{
    lemma_elements_in_order_from(s, names, capture_text, 0);
}

/// The two lists hold the same names.
pub open spec fn same_names(a: Seq<Seq<u8>>, b: Seq<Seq<u8>>) -> bool {
    forall|name: Seq<u8>| a.contains(name) <==> b.contains(name)
}

proof fn lemma_same_names_open(s: Seq<u8>, a: Seq<Seq<u8>>, b: Seq<Seq<u8>>, i: int)
    requires
        same_names(a, b),
    ensures
        opens_at(s, a, i) ==> opens_at(s, b, i),
        forall|len: int| is_longest_open(s, a, i, len) ==> is_longest_open(s, b, i, len),
{
    if opens_at(s, a, i) {
        let k = choose|k: int| 0 <= k < a.len() && occurs_at(s, open_prefix(#[trigger] a[k]), i);
        assert(a.contains(a[k]));
        let m = b.index_of(a[k]);
        assert(occurs_at(s, open_prefix(b[m]), i));
    }
    assert forall|len: int| is_longest_open(s, a, i, len) implies is_longest_open(
        s,
        b,
        i,
        len,
    ) by {
        let k = choose|k: int|
            0 <= k < a.len() && (#[trigger] a[k]).len() == len && occurs_at(
                s,
                open_prefix(a[k]),
                i,
            );
        assert(a.contains(a[k]));
        let m = b.index_of(a[k]);
        assert(b[m].len() == len && occurs_at(s, open_prefix(b[m]), i));
        assert forall|j: int|
            0 <= j < b.len() && occurs_at(s, open_prefix(#[trigger] b[j]), i) implies b[j].len()
            <= len by {
            assert(b.contains(b[j]));
            let n = a.index_of(b[j]);
            assert(occurs_at(s, open_prefix(a[n]), i));
        }
    }
}

proof fn lemma_same_names_tag_start(s: Seq<u8>, a: Seq<Seq<u8>>, b: Seq<Seq<u8>>, i: int)
    requires
        same_names(a, b),
    ensures
        tag_starts_at(s, a, i) == tag_starts_at(s, b, i),
        opens_at(s, a, i) ==> after_prefix(s, a, i) == after_prefix(s, b, i),
{
    lemma_same_names_open(s, a, b, i);
    lemma_same_names_open(s, b, a, i);
    if opens_at(s, a, i) {
        lemma_open_name_len(s, a, i);
        lemma_open_name_len_is(s, b, i, open_name_len(s, a, i));
    }
}

proof fn lemma_same_names_next(s: Seq<u8>, a: Seq<Seq<u8>>, b: Seq<Seq<u8>>, from: int)
    requires
        same_names(a, b),
    ensures
        next_tag_start(s, a, from) == next_tag_start(s, b, from),
        next_element(s, a, from) == next_element(s, b, from),
    decreases s.len() - from,
{
    if from < s.len() {
        lemma_same_names_tag_start(s, a, b, from);
        if !tag_starts_at(s, a, from) {
            lemma_same_names_next(s, a, b, from + 1);
        }
    }
}

proof fn lemma_same_names_from(
    s: Seq<u8>,
    a: Seq<Seq<u8>>,
    b: Seq<Seq<u8>>,
    capture_text: bool,
    from: int,
)
    requires
        same_names(a, b),
        0 <= from,
    ensures
        parts_from(s, a, capture_text, from) == parts_from(s, b, capture_text, from),
    decreases s.len() - from,
{
    lemma_same_names_next(s, a, b, from);
    lemma_next_element(s, a, from);
    if let Some(e) = next_element(s, a, from) {
        lemma_same_names_from(s, a, b, capture_text, e.end + 1);
    }
}

/// The parts depend on which names are requested, not on their order nor on
/// how often one is given.
pub proof fn lemma_names_as_set(
    s: Seq<u8>,
    a: Seq<Seq<u8>>,
    b: Seq<Seq<u8>>,
    capture_text: bool,
)
    requires
        same_names(a, b),
    ensures
        parts_of(s, a, capture_text) == parts_of(s, b, capture_text),
{
    lemma_same_names_from(s, a, b, capture_text, 0);
}

} // verus!
