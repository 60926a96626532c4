//! The scanner: finds elements like `<TAG>...</TAG>` and the text between
//! them in one pass over the input.

use vstd::prelude::*;
use vstd::slice::slice_subrange;
use vstd::string::*;
use crate::tag::bytes::{
    find, find_byte, lemma_first_occurrence, lemma_skip_spaces, lemma_skip_spaces_back, occurs_at,
    trim_bounds,
};
use crate::tag::model::{
    after_prefix, close_delim, element_at, is_longest_open, is_tag_end, lemma_next_element,
    lemma_next_tag_start_is, lemma_next_tag_start_none, lemma_open_name_len,
    lemma_open_name_len_is, lemma_prefix_occurrence, next_element, next_tag_start, open_prefix,
    opens_at, parts_from, parts_of, raw_attrs, tag_starts_at, ElemModel, PartModel, GT, LT,
};
use crate::tag::pattern::TagPattern;
use crate::tag::tag_ref::{part_views, PartRef, TagElemRef};
use crate::tag::text::{bytes_of, substr};

verus! {

/// The names of a list of patterns, as bytes.
pub open spec fn pattern_names(patterns: Seq<TagPattern>) -> Seq<Seq<u8>> {
    Seq::new(patterns.len(), |k: int| patterns[k].name_bytes())
}

/// Each pattern of the list is well formed.
pub open spec fn patterns_wf(patterns: Seq<TagPattern>) -> bool {
    forall|k: int| 0 <= k < patterns.len() ==> (#[trigger] patterns[k]).wf()
}

/// The requested tag names, as bytes.
pub open spec fn names_of(tag_names: Seq<&str>) -> Seq<Seq<u8>> {
    Seq::new(tag_names.len(), |k: int| bytes_of(tag_names[k]@))
}

/// Tells whether `b` may follow the name in an opening tag.
fn is_tag_end_byte(b: u8) -> (r: bool)
    ensures
        r == is_tag_end(b),
{
    b == GT || b == 0x20 || b == 0x0A || b == 0x09 || b == 0x0D
}

/// The earliest index at or after `pos` at which one of the patterns opens,
/// with the index of the longest pattern that opens there.
fn select_open(bytes: &[u8], patterns: &Vec<TagPattern>, pos: usize) -> (r: Option<(usize, usize)>)
    requires
        patterns_wf(patterns@),
    ensures
        match r {
            None => forall|i: int| pos <= i ==> !opens_at(bytes@, pattern_names(patterns@), i),
            Some((start, best)) => {
                &&& pos <= start
                &&& best < patterns.len()
                &&& occurs_at(bytes@, open_prefix(patterns[best as int].name_bytes()), start as int)
                &&& is_longest_open(
                    bytes@,
                    pattern_names(patterns@),
                    start as int,
                    patterns[best as int].name_bytes().len() as int,
                )
                &&& forall|i: int|
                    pos <= i < start ==> !opens_at(bytes@, pattern_names(patterns@), i)
            },
        },
{
    let ghost names = pattern_names(patterns@);
    let mut selected: Option<(usize, usize)> = None;
    let mut k: usize = 0;
    while k < patterns.len()
        invariant
            k <= patterns.len(),
            patterns_wf(patterns@),
            names == pattern_names(patterns@),
            selected is None ==> forall|j: int, i: int|
                0 <= j < k && pos <= i ==> !#[trigger] occurs_at(bytes@, open_prefix(names[j]), i),
            selected matches Some((start, best)) ==> {
                &&& pos <= start
                &&& best < k
                &&& occurs_at(bytes@, open_prefix(names[best as int]), start as int)
                &&& forall|j: int, i: int|
                    0 <= j < k && pos <= i < start ==> !#[trigger] occurs_at(
                        bytes@,
                        open_prefix(names[j]),
                        i,
                    )
                &&& forall|j: int|
                    0 <= j < k && #[trigger] occurs_at(
                        bytes@,
                        open_prefix(names[j]),
                        start as int,
                    ) ==> names[j].len() <= names[best as int].len()
            },
        decreases patterns.len() - k,
    {
        let pattern = &patterns[k];
        assert(pattern.wf());
        assert(names[k as int] == pattern.name_bytes());
        let prefix = pattern.start_tag_prefix.as_str().as_bytes();
        assert(prefix@ == open_prefix(names[k as int]));
        let found = find(bytes, prefix, pos);
        proof {
            lemma_first_occurrence(bytes@, open_prefix(names[k as int]), pos as int);
        }
        match found {
            None => {},
            Some(start) => {
                match selected {
                    None => {
                        selected = Some((start, k));
                    },
                    Some((best_start, best)) => {
                        assert(names[best as int] == patterns[best as int].name_bytes());
                        let name_len = pattern.name.as_str().as_bytes().len();
                        let best_len = patterns[best].name.as_str().as_bytes().len();
                        // The earliest start binds; of two names that open at
                        // one place, the longer.
                        if start < best_start || (start == best_start && name_len > best_len) {
                            selected = Some((start, k));
                        }
                    },
                }
            },
        }
        k += 1;
    }
    selected
}

/// The first index at or after `from` at which a tag starts, with the index
/// of the pattern that binds there.
fn find_tag_start(bytes: &[u8], patterns: &Vec<TagPattern>, from: usize) -> (r: Option<
    (usize, usize),
>)
    requires
        patterns_wf(patterns@),
    ensures
        match r {
            Some((start, best)) => {
                &&& next_tag_start(bytes@, pattern_names(patterns@), from as int) == Some(
                    start as int,
                )
                &&& best < patterns.len()
                &&& occurs_at(bytes@, open_prefix(patterns[best as int].name_bytes()), start as int)
                &&& after_prefix(bytes@, pattern_names(patterns@), start as int) == start + 1
                    + patterns[best as int].name_bytes().len()
                &&& tag_starts_at(bytes@, pattern_names(patterns@), start as int)
            },
            None => next_tag_start(bytes@, pattern_names(patterns@), from as int) is None,
        },
{
    let ghost s = bytes@;
    let ghost names = pattern_names(patterns@);
    let mut pos: usize = from;
    while pos < bytes.len()
        invariant
            patterns_wf(patterns@),
            s == bytes@,
            names == pattern_names(patterns@),
            from <= pos,
            forall|j: int| from <= j < pos ==> !tag_starts_at(s, names, j),
        decreases bytes.len() - pos,
    {
        let (start, best) = match select_open(bytes, patterns, pos) {
            Some(selected) => selected,
            None => {
                proof {
                    lemma_next_tag_start_none(s, names, from as int);
                }
                return None;
            },
        };
        let name_len = patterns[best].name.as_str().as_bytes().len();
        proof {
            lemma_open_name_len_is(s, names, start as int, name_len as int);
            lemma_open_name_len(s, names, start as int);
        }
        let after_prefix_idx = start + 1 + name_len;
        // The byte behind the prefix must be '>' or white space.
        if after_prefix_idx < bytes.len() && is_tag_end_byte(bytes[after_prefix_idx]) {
            proof {
                lemma_next_tag_start_is(s, names, from as int, start as int);
            }
            return Some((start, best));
        }
        // It is another tag (e.g., <TAG_NAMEXXX): go on behind its '<'.
        pos = start + 1;
    }
    proof {
        lemma_next_tag_start_none(s, names, from as int);
    }
    None
}

/// The element whose tag starts at `start` with the name of `pattern`, if
/// the opening tag is closed and the closing delimiter follows.
fn element_at_start<'a>(input: &'a str, pattern: &TagPattern, start: usize) -> (r: Option<
    TagElemRef<'a>,
>)
    requires
        pattern.wf(),
        start + 1 + pattern.name_bytes().len() < bytes_of(input@).len(),
        bytes_of(input@)[start as int] == LT,
        bytes_of(input@).subrange(start + 1, start + 1 + pattern.name_bytes().len())
            == pattern.name_bytes(),
        is_tag_end(bytes_of(input@)[start + 1 + pattern.name_bytes().len()]),
    ensures
        match r {
            Some(elem) => element_at(
                bytes_of(input@),
                start as int,
                start + 1 + pattern.name_bytes().len(),
            ) == Some(elem@),
            None => element_at(
                bytes_of(input@),
                start as int,
                start + 1 + pattern.name_bytes().len(),
            ) is None,
        },
{
    let bytes = input.as_bytes();
    let ghost s = bytes@;
    assert(s == bytes_of(input@));
    let name = pattern.name.as_str().as_bytes();
    assert(name@ == pattern.name_bytes());
    let name_len = name.len();
    assert(s.len() == bytes.len());
    let after_prefix_idx = start + 1 + name_len;
    proof {
        lemma_first_occurrence(s, seq![GT], after_prefix_idx as int);
    }

    // The end of the opening tag.
    let open_tag_end_idx = match find_byte(bytes, GT, after_prefix_idx) {
        Some(idx) => idx,
        None => {
            return None;
        },
    };
    assert(s[open_tag_end_idx + 0] == seq![GT][0]);

    // The closing delimiter.
    let ghost delim = close_delim(pattern.name_bytes());
    proof {
        lemma_first_occurrence(s, delim, open_tag_end_idx + 1);
    }
    let close_tag_start_idx = match find(
        bytes,
        pattern.end_tag.as_str().as_bytes(),
        open_tag_end_idx + 1,
    ) {
        Some(idx) => idx,
        None => {
            return None;
        },
    };
    let end_idx = close_tag_start_idx + name_len + 2;
    proof {
        assert(delim[0] == LT);
        assert(s[close_tag_start_idx + 0] == delim[0]);
    }

    let tag_name = substr(input, start + 1, after_prefix_idx);
    let attrs_raw = raw_attrs_between(input, after_prefix_idx, open_tag_end_idx);
    let content = substr(input, open_tag_end_idx + 1, close_tag_start_idx);
    Some(TagElemRef { tag_name, attrs_raw, content, start_idx: start, end_idx })
}

/// The attribute text that stands in `input[lo..hi]`, trimmed, if there is
/// any.
fn raw_attrs_between<'a>(input: &'a str, lo: usize, hi: usize) -> (r: Option<&'a str>)
    requires
        lo <= hi < bytes_of(input@).len(),
        bytes_of(input@)[lo as int] < 0x80,
        bytes_of(input@)[hi as int] < 0x80,
    ensures
        raw_attrs(bytes_of(input@).subrange(lo as int, hi as int)) == match r {
            Some(raw) => Some(bytes_of(raw@)),
            None => None,
        },
{
    let bytes = input.as_bytes();
    let ghost s = bytes@;
    assert(s == bytes_of(input@));
    assert(s.len() == bytes.len());
    let section = slice_subrange(bytes, lo, hi);
    let (from, to) = trim_bounds(section);
    proof {
        lemma_skip_spaces(section@, 0);
        lemma_skip_spaces_back(section@, from as int, section@.len() as int);
    }
    if from == to {
        None
    } else {
        assert(from > 0 ==> section@[from - 1] == s[lo + from - 1]);
        assert(to < section@.len() ==> section@[to as int] == s[lo + to]);
        let raw = substr(input, lo + from, lo + to);
        assert(bytes_of(raw@) =~= section@.subrange(from as int, to as int));
        Some(raw)
    }
}

/// Scans an input for elements of one or more tag names, and hands out the
/// parts one by one: the elements, and the text between them if it is wanted.
pub struct TagElemRefIterator<'a> {
    input: &'a str,
    last_processed_idx: usize,
    tag_patterns: Vec<TagPattern>,
    pending_tag: Option<TagElemRef<'a>>,
    finished: bool,
    capture_text: bool,
}

impl<'a> TagElemRefIterator<'a> {
    /// The bytes of the input.
    pub closed spec fn input_bytes(&self) -> Seq<u8> {
        bytes_of(self.input@)
    }

    /// The requested tag names.
    pub closed spec fn names(&self) -> Seq<Seq<u8>> {
        pattern_names(self.tag_patterns@)
    }

    /// Whether text between the elements is handed out.
    pub closed spec fn captures_text(&self) -> bool {
        self.capture_text
    }

    /// The state is consistent.
    #[verifier::type_invariant]
    closed spec fn wf(&self) -> bool {
        let s = self.input_bytes();
        &&& patterns_wf(self.tag_patterns@)
        &&& self.last_processed_idx <= s.len()
        &&& (self.last_processed_idx > 0 ==> s[self.last_processed_idx - 1] == GT)
        &&& match self.pending_tag {
            Some(elem) => !self.finished && next_element(
                s,
                self.names(),
                self.last_processed_idx as int,
            ) == Some(elem@),
            None => true,
        }
    }

    /// The parts that are still to come, in order.
    pub closed spec fn remaining(&self) -> Seq<PartModel<ElemModel>> {
        let s = self.input_bytes();
        if self.finished {
            seq![]
        } else {
            match self.pending_tag {
                Some(elem) => seq![PartModel::Elem(elem@)] + parts_from(
                    s,
                    self.names(),
                    self.capture_text,
                    elem.end_idx + 1,
                ),
                None => parts_from(
                    s,
                    self.names(),
                    self.capture_text,
                    self.last_processed_idx as int,
                ),
            }
        }
    }

    /// A scanner at the start of `input`.
    ///
    /// # Arguments
    ///
    /// * `input` - The text to scan.
    /// * `tag_names` - The names of the tags to look for (e.g., &["FILE", "DATA"]).
    /// * `capture_text` - If true, the text between the elements is handed out too.
    pub fn new(input: &'a str, tag_names: &[&str], capture_text: bool) -> (it: Self)
        ensures
            it.input_bytes() == bytes_of(input@),
            it.names() == names_of(tag_names@),
            it.captures_text() == capture_text,
            it.remaining() == parts_of(bytes_of(input@), names_of(tag_names@), capture_text),
    {
        let mut tag_patterns: Vec<TagPattern> = Vec::new();
        let mut k: usize = 0;
        while k < tag_names.len()
            invariant
                k <= tag_names.len(),
                tag_patterns.len() == k,
                patterns_wf(tag_patterns@),
                forall|j: int|
                    0 <= j < k ==> (#[trigger] tag_patterns[j]).name_bytes() == bytes_of(
                        tag_names[j]@,
                    ),
            decreases tag_names.len() - k,
        {
            tag_patterns.push(TagPattern::new(tag_names[k]));
            k += 1;
        }
        assert(pattern_names(tag_patterns@) =~= names_of(tag_names@));
        TagElemRefIterator {
            input,
            last_processed_idx: 0,
            tag_patterns,
            pending_tag: None,
            finished: false,
            capture_text,
        }
    }

    /// Finds the next element at or after `from`.
    fn find_next_tag(&self, from: usize) -> (r: Option<TagElemRef<'a>>)
        ensures
            match r {
                Some(elem) => next_element(self.input_bytes(), self.names(), from as int) == Some(
                    elem@,
                ),
                None => next_element(self.input_bytes(), self.names(), from as int) is None,
            },
    {
        proof {
            use_type_invariant(self);
        }
        let input: &'a str = self.input;
        match find_tag_start(input.as_bytes(), &self.tag_patterns, from) {
            Some((start, best)) => {
                let pattern = &self.tag_patterns[best];
                assert(pattern.wf());
                proof {
                    lemma_prefix_occurrence(self.input_bytes(), pattern.name_bytes(), start as int);
                }
                element_at_start(input, pattern, start)
            },
            None => None,
        }
    }

    /// Hands out the next part, or `None` when no part is left.
    pub fn next(&mut self) -> (r: Option<PartRef<'a>>)
        ensures
            final(self).input_bytes() == old(self).input_bytes(),
            final(self).names() == old(self).names(),
            final(self).captures_text() == old(self).captures_text(),
            match r {
                Some(part) => {
                    &&& old(self).remaining().len() > 0
                    &&& part@ == old(self).remaining()[0]
                    &&& final(self).remaining() == old(self).remaining().drop_first()
                },
                None => old(self).remaining().len() == 0 && final(self).remaining().len() == 0,
            },
    {
        let ghost s = self.input_bytes();
        let ghost names = self.names();
        proof {
            use_type_invariant(&*self);
            lemma_next_element(s, names, self.last_processed_idx as int);
        }
        let input: &'a str = self.input;
        let len = input.as_bytes().len();
        // A pending element is handed out first.
        if let Some(tag) = self.pending_tag {
            self.pending_tag = None;
            self.last_processed_idx = tag.end_idx + 1;
            assert(self.remaining() =~= old(self).remaining().drop_first());
            return Some(PartRef::TagElemRef(tag));
        }
        if self.finished {
            return None;
        }
        if let Some(tag) = self.find_next_tag(self.last_processed_idx) {
            if self.capture_text && tag.start_idx > self.last_processed_idx {
                // The text before the element goes first.
                let text = substr(input, self.last_processed_idx, tag.start_idx);
                self.pending_tag = Some(tag);
                assert(self.remaining() =~= old(self).remaining().drop_first());
                return Some(PartRef::Text(text));
            } else {
                self.last_processed_idx = tag.end_idx + 1;
                assert(self.remaining() =~= old(self).remaining().drop_first());
                return Some(PartRef::TagElemRef(tag));
            }
        }
        // No element is left: what remains of the input is text.
        self.finished = true;
        if self.capture_text && self.last_processed_idx < len {
            let text = substr(input, self.last_processed_idx, len);
            assert(self.remaining() =~= old(self).remaining().drop_first());
            return Some(PartRef::Text(text));
        }
        None
    }

    /// Hands out all parts that are left, in order.
    pub fn collect(self) -> (parts: Vec<PartRef<'a>>)
        ensures
            part_views(parts@) == self.remaining(),
    {
        let mut it = self;
        let mut parts: Vec<PartRef<'a>> = Vec::new();
        loop
            invariant
                part_views(parts@) + it.remaining() == self.remaining(),
            decreases it.remaining().len(),
        {
            let ghost before = it.remaining();
            let ghost views = part_views(parts@);
            match it.next() {
                Some(part) => {
                    parts.push(part);
                    assert(part_views(parts@) =~= views.push(part@));
                    assert(views.push(part@) + before.drop_first() =~= views + before);
                },
                None => {
                    assert(part_views(parts@) + it.remaining() =~= part_views(parts@));
                    return parts;
                },
            }
        }
    }
}

} // verus!