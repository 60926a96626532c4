//! The mathematical model of scanning: what the parts of an input are.
//!
//! Input and tag names are byte sequences. Everything the scanner emits is
//! described here as a function of them, and the executable scanner is proved
//! to compute exactly this.

use vstd::prelude::*;
use crate::tag::bytes::{first_occurrence, lemma_first_occurrence, occurs_at, trim};

verus! {

/// `<`
pub const LT: u8 = 0x3C;

/// `>`
pub const GT: u8 = 0x3E;

/// `/`
pub const SLASH: u8 = 0x2F;

/// The opening prefix of a tag: `<` and the name.
pub open spec fn open_prefix(name: Seq<u8>) -> Seq<u8> {
    seq![LT] + name
}

/// The closing delimiter of a tag: `</`, the name and `>`.
pub open spec fn close_delim(name: Seq<u8>) -> Seq<u8> {
    seq![LT, SLASH] + name + seq![GT]
}

/// The bytes that may follow the name in an opening tag: `>`, space, line
/// feed, tab, carriage return.
pub open spec fn is_tag_end(b: u8) -> bool {
    b == GT || b == 0x20 || b == 0x0A || b == 0x09 || b == 0x0D
}

/// The raw attribute text of an opening tag, given what stands between the
/// name and the closing `>`: that section trimmed, or nothing if only white
/// space is there.
pub open spec fn raw_attrs(section: Seq<u8>) -> Option<Seq<u8>> {
    let t = trim(section);
    if t.len() == 0 {
        None
    } else {
        Some(t)
    }
}

/// Some requested name's opening prefix stands at `i`.
pub open spec fn opens_at(s: Seq<u8>, names: Seq<Seq<u8>>, i: int) -> bool {
    exists|k: int| 0 <= k < names.len() && occurs_at(s, open_prefix(#[trigger] names[k]), i)
}

/// `len` is the length of the longest requested name whose opening prefix
/// stands at `i`.
pub open spec fn is_longest_open(s: Seq<u8>, names: Seq<Seq<u8>>, i: int, len: int) -> bool {
    &&& exists|k: int|
        0 <= k < names.len() && (#[trigger] names[k]).len() == len && occurs_at(
            s,
            open_prefix(names[k]),
            i,
        )
    &&& forall|k: int|
        0 <= k < names.len() && occurs_at(s, open_prefix(#[trigger] names[k]), i)
            ==> names[k].len() <= len
}

/// The length of the longest requested name whose opening prefix stands at
/// `i`. Of two names that open at one place the longer one binds.
pub open spec fn open_name_len(s: Seq<u8>, names: Seq<Seq<u8>>, i: int) -> int {
    choose|len: int| is_longest_open(s, names, i, len)
}

/// The index just behind the opening prefix that binds at `i`.
pub open spec fn after_prefix(s: Seq<u8>, names: Seq<Seq<u8>>, i: int) -> int {
    i + 1 + open_name_len(s, names, i)
}

/// A tag starts at `i`: a requested name opens there, and behind the longest
/// such name stands `>` or white space.
pub open spec fn tag_starts_at(s: Seq<u8>, names: Seq<Seq<u8>>, i: int) -> bool {
    &&& opens_at(s, names, i)
    &&& after_prefix(s, names, i) < s.len()
    &&& is_tag_end(s[after_prefix(s, names, i)])
}

/// The first index at or after `from` at which a tag starts.
pub open spec fn next_tag_start(s: Seq<u8>, names: Seq<Seq<u8>>, from: int) -> Option<int>
    decreases s.len() - from,
{
    if from >= s.len() {
        None
    } else if tag_starts_at(s, names, from) {
        Some(from)
    } else {
        next_tag_start(s, names, from + 1)
    }
}

/// An element as the scanner reports it.
pub struct ElemModel {
    /// The tag's name.
    pub name: Seq<u8>,
    /// The trimmed text between the name and the `>` of the opening tag.
    pub attrs_raw: Option<Seq<u8>>,
    /// What stands between the opening tag and the closing delimiter.
    pub content: Seq<u8>,
    /// The index of the `<` of the opening tag.
    pub start: int,
    /// The index of the `>` of the closing delimiter.
    pub end: int,
}

/// A part of the input: text, or an element. `E` is what an element holds.
pub enum PartModel<E> {
    Text(Seq<u8>),
    Elem(E),
}

/// The element whose tag starts at `start`, with `after` the index behind its
/// opening prefix; `None` if the opening tag has no `>` or the closing
/// delimiter is missing.
pub open spec fn element_at(s: Seq<u8>, start: int, after: int) -> Option<ElemModel> {
    let name = s.subrange(start + 1, after);
    match first_occurrence(s, seq![GT], after) {
        None => None,
        Some(gt) => match first_occurrence(s, close_delim(name), gt + 1) {
            None => None,
            Some(close) => Some(
                ElemModel {
                    name,
                    attrs_raw: raw_attrs(s.subrange(after, gt)),
                    content: s.subrange(gt + 1, close),
                    start,
                    end: close + name.len() + 2,
                },
            ),
        },
    }
}

/// The next element at or after `from`. A first tag start that does not lead
/// to a complete element ends the search: nothing behind it is found.
pub open spec fn next_element(s: Seq<u8>, names: Seq<Seq<u8>>, from: int) -> Option<ElemModel> {
    match next_tag_start(s, names, from) {
        None => None,
        Some(start) => element_at(s, start, after_prefix(s, names, start)),
    }
}

/// The greatest name length among `names[..k]` whose opening prefix stands
/// at `i`, or -1 if there is none.
spec fn longest_below(s: Seq<u8>, names: Seq<Seq<u8>>, i: int, k: int) -> int
    decreases k,
{
    if k <= 0 {
        -1
    } else {
        let rest = longest_below(s, names, i, k - 1);
        if occurs_at(s, open_prefix(names[k - 1]), i) && names[k - 1].len() > rest {
            names[k - 1].len() as int
        } else {
            rest
        }
    }
}

proof fn lemma_longest_below(s: Seq<u8>, names: Seq<Seq<u8>>, i: int, k: int)
    requires
        0 <= k <= names.len(),
    ensures
        forall|j: int|
            0 <= j < k && occurs_at(s, open_prefix(#[trigger] names[j]), i) ==> names[j].len()
                <= longest_below(s, names, i, k),
        longest_below(s, names, i, k) >= 0 ==> exists|j: int|
            0 <= j < k && (#[trigger] names[j]).len() == longest_below(s, names, i, k)
                && occurs_at(s, open_prefix(names[j]), i),
        longest_below(s, names, i, k) >= -1,
    decreases k,
{
    if k > 0 {
        lemma_longest_below(s, names, i, k - 1);
    }
}

/// Where a requested name opens, the longest such name exists, and its length
/// is `open_name_len`.
pub proof fn lemma_open_name_len(s: Seq<u8>, names: Seq<Seq<u8>>, i: int)
    requires
        opens_at(s, names, i),
    ensures
        is_longest_open(s, names, i, open_name_len(s, names, i)),
        0 <= open_name_len(s, names, i),
        0 <= i,
        after_prefix(s, names, i) <= s.len(),
        occurs_at(s, open_prefix(s.subrange(i + 1, after_prefix(s, names, i))), i),
{
    lemma_longest_below(s, names, i, names.len() as int);
    let len = longest_below(s, names, i, names.len() as int);
    assert(is_longest_open(s, names, i, len));
    let k = choose|k: int|
        0 <= k < names.len() && (#[trigger] names[k]).len() == open_name_len(s, names, i)
            && occurs_at(s, open_prefix(names[k]), i);
    lemma_prefix_occurrence(s, names[k], i);
}

/// A name's opening prefix stands at `i` exactly when `<` stands at `i` and
/// the name behind it.
pub proof fn lemma_prefix_occurrence(s: Seq<u8>, name: Seq<u8>, i: int)
    ensures
        occurs_at(s, open_prefix(name), i) <==> {
            &&& 0 <= i
            &&& i + 1 + name.len() <= s.len()
            &&& s[i] == LT
            &&& s.subrange(i + 1, i + 1 + name.len()) == name
        },
{
    let p = open_prefix(name);
    if occurs_at(s, p, i) {
        assert(p[0] == LT);
        assert(s[i + 0] == p[0]);
        assert forall|j: int| 0 <= j < name.len() implies s[i + 1 + j] == name[j] by {
            assert(s[i + (j + 1)] == p[j + 1]);
        }
        assert(s.subrange(i + 1, i + 1 + name.len()) =~= name);
    }
    if 0 <= i && i + 1 + name.len() <= s.len() && s[i] == LT && s.subrange(
        i + 1,
        i + 1 + name.len(),
    ) == name {
        assert forall|j: int| 0 <= j < p.len() implies s[i + j] == #[trigger] p[j] by {
            if j > 0 {
                assert(s.subrange(i + 1, i + 1 + name.len())[j - 1] == name[j - 1]);
            }
        }
    }
}

/// The length that binds at `i` is the only one that is longest there.
pub proof fn lemma_open_name_len_is(s: Seq<u8>, names: Seq<Seq<u8>>, i: int, len: int)
    requires
        is_longest_open(s, names, i, len),
    ensures
        open_name_len(s, names, i) == len,
        opens_at(s, names, i),
{
    lemma_open_name_len(s, names, i);
}

/// `next_tag_start` is the least tag start at or after `from`, and `None`
/// exactly when no tag starts there at all.
pub proof fn lemma_next_tag_start(s: Seq<u8>, names: Seq<Seq<u8>>, from: int)
    requires
        0 <= from,
    ensures
        match next_tag_start(s, names, from) {
            Some(i) => {
                &&& from <= i < s.len()
                &&& tag_starts_at(s, names, i)
                &&& forall|j: int| from <= j < i ==> !tag_starts_at(s, names, j)
            },
            None => forall|j: int| from <= j ==> !tag_starts_at(s, names, j),
        },
    decreases s.len() - from,
{
    if from >= s.len() {
        assert forall|j: int| from <= j implies !tag_starts_at(s, names, j) by {
            if opens_at(s, names, j) {
                lemma_open_name_len(s, names, j);
            }
        }
    } else if tag_starts_at(s, names, from) {
    } else {
        lemma_next_tag_start(s, names, from + 1);
    }
}

/// A tag start with none before it is the next one.
pub proof fn lemma_next_tag_start_is(s: Seq<u8>, names: Seq<Seq<u8>>, from: int, i: int)
    requires
        0 <= from <= i,
        tag_starts_at(s, names, i),
        forall|j: int| from <= j < i ==> !tag_starts_at(s, names, j),
    ensures
        next_tag_start(s, names, from) == Some(i),
    decreases i - from,
{
    lemma_open_name_len(s, names, i);
    if from < i {
        lemma_next_tag_start_is(s, names, from + 1, i);
    }
}

/// Where no tag starts from `from` on, there is no next one.
pub proof fn lemma_next_tag_start_none(s: Seq<u8>, names: Seq<Seq<u8>>, from: int)
    requires
        0 <= from,
        forall|j: int| from <= j < s.len() ==> !tag_starts_at(s, names, j),
    ensures
        next_tag_start(s, names, from) is None,
    decreases s.len() - from,
{
    if from < s.len() {
        lemma_next_tag_start_none(s, names, from + 1);
    }
}

/// The shape of an element: where its pieces lie in the input.
pub open spec fn element_lies_in(s: Seq<u8>, e: ElemModel, from: int) -> bool {
    let after = e.start + 1 + e.name.len();
    let close = e.end - e.name.len() - 2;
    let gt = close - e.content.len() - 1;
    &&& 0 <= from <= e.start
    &&& after <= gt < close
    &&& e.end < s.len()
    &&& s[e.start] == LT
    &&& s[gt] == GT
    &&& s[close] == LT
    &&& s[e.end] == GT
    &&& e.name == s.subrange(e.start + 1, after)
    &&& is_tag_end(s[after])
    &&& first_occurrence(s, seq![GT], after) == Some(gt)
    &&& e.attrs_raw == raw_attrs(s.subrange(after, gt))
    &&& e.content == s.subrange(gt + 1, close)
    &&& first_occurrence(s, close_delim(e.name), gt + 1) == Some(close)
}

/// The next element lies in the input, at or after `from`.
pub proof fn lemma_next_element(s: Seq<u8>, names: Seq<Seq<u8>>, from: int)
    requires
        0 <= from,
    ensures
        next_element(s, names, from) matches Some(e) ==> {
            &&& element_lies_in(s, e, from)
            &&& next_tag_start(s, names, from) == Some(e.start)
            &&& e.name.len() == open_name_len(s, names, e.start)
        },
{
    lemma_next_tag_start(s, names, from);
    if let Some(start) = next_tag_start(s, names, from) {
        lemma_open_name_len(s, names, start);
        let after = after_prefix(s, names, start);
        let name = s.subrange(start + 1, after);
        lemma_prefix_occurrence(s, name, start);
        lemma_first_occurrence(s, seq![GT], after);
        if let Some(gt) = first_occurrence(s, seq![GT], after) {
            assert(s[gt + 0] == seq![GT][0]);
            let delim = close_delim(name);
            lemma_first_occurrence(s, delim, gt + 1);
            if let Some(close) = first_occurrence(s, delim, gt + 1) {
                assert(s[close + 0] == delim[0]);
                let last = name.len() as int + 2;
                assert(s[close + last] == delim[last]);
            }
        }
    }
}

/// The text part for `s[lo..hi]`, if text is wanted and the span is not empty.
pub open spec fn text_part(s: Seq<u8>, capture_text: bool, lo: int, hi: int) -> Seq<
    PartModel<ElemModel>,
> {
    if capture_text && lo < hi {
        seq![PartModel::Text(s.subrange(lo, hi))]
    } else {
        seq![]
    }
}

/// The parts of `s` from index `from` on: the text up to the next element,
/// that element, and the parts behind it; or, where no element follows, the
/// rest of the input as text.
pub open spec fn parts_from(s: Seq<u8>, names: Seq<Seq<u8>>, capture_text: bool, from: int) -> Seq<
    PartModel<ElemModel>,
>
    decreases s.len() - from,
    when 0 <= from
{
    match next_element(s, names, from) {
        None => text_part(s, capture_text, from, s.len() as int),
        Some(e) => {
            proof {
                lemma_next_element(s, names, from);
            }
            text_part(s, capture_text, from, e.start) + seq![PartModel::Elem(e)] + parts_from(
                s,
                names,
                capture_text,
                e.end + 1,
            )
        },
    }
}

/// The parts of the input `s` for the requested tag names.
pub open spec fn parts_of(s: Seq<u8>, names: Seq<Seq<u8>>, capture_text: bool) -> Seq<
    PartModel<ElemModel>,
> {
    parts_from(s, names, capture_text, 0)
}

/// The elements among `parts`, in order.
pub open spec fn elements_of<E>(parts: Seq<PartModel<E>>) -> Seq<E>
    decreases parts.len(),
{
    if parts.len() == 0 {
        seq![]
    } else {
        match parts[0] {
            PartModel::Text(_) => elements_of(parts.drop_first()),
            PartModel::Elem(e) => seq![e] + elements_of(parts.drop_first()),
        }
    }
}

/// The texts among `parts`, in order.
pub open spec fn texts_of<E>(parts: Seq<PartModel<E>>) -> Seq<Seq<u8>>
    decreases parts.len(),
{
    if parts.len() == 0 {
        seq![]
    } else {
        match parts[0] {
            PartModel::Text(text) => seq![text] + texts_of(parts.drop_first()),
            PartModel::Elem(_) => texts_of(parts.drop_first()),
        }
    }
}

/// The texts among `parts` joined into one, the elements dropped.
pub open spec fn joined_text<E>(parts: Seq<PartModel<E>>) -> Seq<u8>
    decreases parts.len(),
{
    if parts.len() == 0 {
        seq![]
    } else {
        match parts[0] {
            PartModel::Text(text) => text + joined_text(parts.drop_first()),
            PartModel::Elem(_) => joined_text(parts.drop_first()),
        }
    }
}

/// The distinct members of `names`, each where it first occurs.
pub open spec fn first_seen(names: Seq<Seq<u8>>) -> Seq<Seq<u8>>
    decreases names.len(),
{
    if names.len() == 0 {
        seq![]
    } else {
        let before = first_seen(names.drop_last());
        if before.contains(names.last()) {
            before
        } else {
            before.push(names.last())
        }
    }
}

} // verus!
