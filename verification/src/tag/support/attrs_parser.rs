//! The parser of the attribute text of an opening tag, such as
//! `path="a/b.txt" flag attr=123 message='hello world'`.

use vstd::prelude::*;
use vstd::string::*;
use crate::tag::attrs::{entries_map, AttrsRef};
use crate::tag::bytes::{
    find_byte, first_occurrence, is_space, is_space_byte, lemma_first_occurrence,
    lemma_skip_spaces, lemma_skip_spaces_back, skip_space, skip_spaces, trim, trim_bounds,
};
use crate::tag::text::{bytes_of, safe_cut, substr};

verus! {

/// `=`
pub const EQUALS: u8 = 0x3D;

/// `"`
pub const DOUBLE_QUOTE: u8 = 0x22;

/// `'`
pub const SINGLE_QUOTE: u8 = 0x27;

/// The end of the key that starts at `i`: the first index at or after `i`
/// that holds white space or `=` (the length of `r` if there is none).
pub open spec fn key_end(r: Seq<u8>, i: int) -> int
    decreases r.len() - i,
{
    if 0 <= i < r.len() && !is_space(r[i]) && r[i] != EQUALS {
        key_end(r, i + 1)
    } else {
        i
    }
}

/// The end of the word that starts at `i`: the first index at or after `i`
/// that holds white space (the length of `r` if there is none).
pub open spec fn word_end(r: Seq<u8>, i: int) -> int
    decreases r.len() - i,
{
    if 0 <= i < r.len() && !is_space(r[i]) {
        word_end(r, i + 1)
    } else {
        i
    }
}

/// One attribute as it is read, and the index at which reading goes on.
pub struct AttrModel {
    pub key: Seq<u8>,
    pub value: Seq<u8>,
    pub next: int,
}

/// The value that starts at `i`, the first index behind `=` that holds no
/// white space, and the index behind it.
///
/// A value that starts with a quote runs up to the next such quote, or to
/// the end of `r` if the quote is not closed. Any other value runs up to the
/// next white space. Behind the end of `r` the value is empty.
pub open spec fn value_at(r: Seq<u8>, i: int) -> (Seq<u8>, int) {
    if i >= r.len() {
        (seq![], i)
    } else if r[i] == DOUBLE_QUOTE || r[i] == SINGLE_QUOTE {
        match first_occurrence(r, seq![r[i]], i + 1) {
            Some(close) => (r.subrange(i + 1, close), close + 1),
            None => (r.subrange(i + 1, r.len() as int), r.len() as int),
        }
    } else {
        (r.subrange(i, word_end(r, i)), word_end(r, i))
    }
}

/// The attribute that starts at `i`: a key, and a value if `=` follows the
/// key. Without `=` the value is empty.
pub open spec fn attr_at(r: Seq<u8>, i: int) -> AttrModel {
    let end = key_end(r, i);
    let j = skip_spaces(r, end);
    if j < r.len() && r[j] == EQUALS {
        let (value, next) = value_at(r, skip_spaces(r, j + 1));
        AttrModel { key: r.subrange(i, end), value, next }
    } else {
        AttrModel { key: r.subrange(i, end), value: seq![], next: j }
    }
}

/// What `key_end` passes is neither white space nor `=`.
pub proof fn lemma_key_end(r: Seq<u8>, i: int)
    requires
        0 <= i <= r.len(),
    ensures
        i <= key_end(r, i) <= r.len(),
        key_end(r, i) < r.len() ==> is_space(r[key_end(r, i)]) || r[key_end(r, i)] == EQUALS,
        forall|j: int| i <= j < key_end(r, i) ==> !is_space(#[trigger] r[j]) && r[j] != EQUALS,
    decreases r.len() - i,
{
    if i < r.len() && !is_space(r[i]) && r[i] != EQUALS {
        lemma_key_end(r, i + 1);
    }
}

/// What `word_end` passes is no white space.
pub proof fn lemma_word_end(r: Seq<u8>, i: int)
    requires
        0 <= i <= r.len(),
    ensures
        i <= word_end(r, i) <= r.len(),
        word_end(r, i) < r.len() ==> is_space(r[word_end(r, i)]),
        forall|j: int| i <= j < word_end(r, i) ==> !is_space(#[trigger] r[j]),
    decreases r.len() - i,
{
    if i < r.len() && !is_space(r[i]) {
        lemma_word_end(r, i + 1);
    }
}

/// Reading an attribute moves on by at least one byte.
pub proof fn lemma_attr_at(r: Seq<u8>, i: int)
    requires
        0 <= i < r.len(),
        !is_space(r[i]),
    ensures
        i < attr_at(r, i).next <= r.len(),
{
    lemma_key_end(r, i);
    let end = key_end(r, i);
    lemma_skip_spaces(r, end);
    let j = skip_spaces(r, end);
    if j < r.len() && r[j] == EQUALS {
        lemma_skip_spaces(r, j + 1);
        let k = skip_spaces(r, j + 1);
        if k < r.len() {
            lemma_word_end(r, k);
            if r[k] == DOUBLE_QUOTE || r[k] == SINGLE_QUOTE {
                lemma_first_occurrence(r, seq![r[k]], k + 1);
            }
        }
    }
}

/// The attributes of `r` from index `from` on, in the order in which they
/// stand. One whose key is empty is left out.
pub open spec fn attr_entries(r: Seq<u8>, from: int) -> Seq<(Seq<u8>, Seq<u8>)>
    decreases r.len() - from,
    when 0 <= from
{
    let i = skip_spaces(r, from);
    if i >= r.len() {
        seq![]
    } else {
        proof {
            lemma_skip_spaces(r, from);
            lemma_attr_at(r, i);
        }
        let a = attr_at(r, i);
        if a.key.len() > 0 {
            seq![(a.key, a.value)] + attr_entries(r, a.next)
        } else {
            attr_entries(r, a.next)
        }
    }
}

/// The attributes that a raw attribute text gives: none where there is no
/// text or where it holds no key.
pub open spec fn attrs_of(raw: Option<Seq<u8>>) -> Option<Map<Seq<u8>, Seq<u8>>> {
    match raw {
        None => None,
        Some(r) => {
            let entries = attr_entries(trim(r), 0);
            if entries.len() == 0 {
                None
            } else {
                Some(entries_map(entries))
            }
        },
    }
}

/// The end of the key that starts at `i`.
fn scan_key_end(r: &[u8], i: usize) -> (end: usize)
    requires
        i <= r.len(),
    ensures
        end == key_end(r@, i as int),
        i <= end <= r.len(),
{
    let mut end: usize = i;
    while end < r.len() && !is_space_byte(r[end]) && r[end] != EQUALS
        invariant
            i <= end <= r.len(),
            key_end(r@, i as int) == key_end(r@, end as int),
        decreases r.len() - end,
    {
        end += 1;
    }
    end
}

/// The end of the word that starts at `i`.
fn scan_word_end(r: &[u8], i: usize) -> (end: usize)
    requires
        i <= r.len(),
    ensures
        end == word_end(r@, i as int),
        i <= end <= r.len(),
{
    let mut end: usize = i;
    while end < r.len() && !is_space_byte(r[end])
        invariant
            i <= end <= r.len(),
            word_end(r@, i as int) == word_end(r@, end as int),
        decreases r.len() - end,
    {
        end += 1;
    }
    end
}

/// The bytes of a raw attribute text, if there is one.
pub open spec fn raw_bytes(attrs_raw: Option<&str>) -> Option<Seq<u8>> {
    match attrs_raw {
        Some(raw) => Some(bytes_of(raw@)),
        None => None,
    }
}

/// Reads the value that starts at `i`, the first index behind `=` that holds
/// no white space, and tells the index behind it.
fn read_value<'a>(raw: &'a str, i: usize) -> (r: (&'a str, usize))
    requires
        i <= bytes_of(raw@).len(),
        safe_cut(bytes_of(raw@), i as int),
    ensures
        (bytes_of(r.0@), r.1 as int) == value_at(bytes_of(raw@), i as int),
        i <= r.1 <= bytes_of(raw@).len(),
        safe_cut(bytes_of(raw@), r.1 as int),
{
    let bytes = raw.as_bytes();
    assert(bytes@ == bytes_of(raw@));
    if i >= bytes.len() {
        let value = substr(raw, i, i);
        assert(bytes_of(value@) =~= Seq::<u8>::empty());
        (value, i)
    } else if bytes[i] == DOUBLE_QUOTE || bytes[i] == SINGLE_QUOTE {
        proof {
            lemma_first_occurrence(bytes@, seq![bytes@[i as int]], i + 1);
        }
        match find_byte(bytes, bytes[i], i + 1) {
            Some(close) => {
                assert(bytes@[close + 0] == seq![bytes@[i as int]][0]);
                (substr(raw, i + 1, close), close + 1)
            },
            // The quote is not closed: the rest is the value.
            None => (substr(raw, i + 1, bytes.len()), bytes.len()),
        }
    } else {
        proof {
            lemma_word_end(bytes@, i as int);
        }
        let end = scan_word_end(bytes, i);
        (substr(raw, i, end), end)
    }
}

/// Reads the attribute that starts at `i`, and tells the index behind it.
fn read_attr<'a>(raw: &'a str, i: usize) -> (r: (&'a str, &'a str, usize))
    requires
        i < bytes_of(raw@).len(),
        !is_space(bytes_of(raw@)[i as int]),
        safe_cut(bytes_of(raw@), i as int),
    ensures
        attr_at(bytes_of(raw@), i as int) == (AttrModel {
            key: bytes_of(r.0@),
            value: bytes_of(r.1@),
            next: r.2 as int,
        }),
        i < r.2 <= bytes_of(raw@).len(),
        safe_cut(bytes_of(raw@), r.2 as int),
{
    let bytes = raw.as_bytes();
    assert(bytes@ == bytes_of(raw@));
    proof {
        lemma_attr_at(bytes@, i as int);
        lemma_key_end(bytes@, i as int);
    }
    let end = scan_key_end(bytes, i);
    let key = substr(raw, i, end);
    let j = skip_space(bytes, end);
    proof {
        lemma_skip_spaces(bytes@, end as int);
    }
    if j < bytes.len() && bytes[j] == EQUALS {
        let k = skip_space(bytes, j + 1);
        proof {
            lemma_skip_spaces(bytes@, j + 1);
        }
        let (value, next) = read_value(raw, k);
        (key, value, next)
    } else {
        // A key alone: its value is empty.
        let value = substr(raw, end, end);
        assert(bytes_of(value@) =~= Seq::<u8>::empty());
        (key, value, j)
    }
}

/// Parses a raw attribute text into a mapping from keys to values, both
/// borrowed from the text.
///
/// The text is a list of `key=value` pairs and of keys alone, separated by
/// white space. A value may stand in single or double quotes. A key without a
/// value gets the empty value. Of two values for one key the later one holds.
/// An attribute whose key is empty is left out. Where no attribute is left,
/// or there is no text, the result is `None`.
pub fn parse_attrs_ref<'a>(attrs_raw: Option<&'a str>) -> (r: Option<AttrsRef<'a>>)
    ensures
        attrs_of(raw_bytes(attrs_raw)) == match r {
            Some(attrs) => Some(attrs@),
            None => None,
        },
{
    let untrimmed: &'a str = match attrs_raw {
        Some(raw) => raw,
        None => {
            return None;
        },
    };
    let (lo, hi) = trim_bounds(untrimmed.as_bytes());
    proof {
        lemma_skip_spaces(bytes_of(untrimmed@), 0);
        lemma_skip_spaces_back(bytes_of(untrimmed@), lo as int, bytes_of(untrimmed@).len() as int);
    }
    let raw = substr(untrimmed, lo, hi);
    let bytes = raw.as_bytes();
    let ghost all = attr_entries(bytes@, 0);

    let mut attrs = AttrsRef::new();
    let ghost mut done: Seq<(Seq<u8>, Seq<u8>)> = seq![];
    let mut pos: usize = 0;
    loop
        invariant
            attrs_raw == Some(untrimmed),
            bytes@ == bytes_of(raw@),
            bytes@ == trim(bytes_of(untrimmed@)),
            pos <= bytes.len(),
            safe_cut(bytes@, pos as int),
            attrs@ == entries_map(done),
            all == done + attr_entries(bytes@, pos as int),
            all == attr_entries(bytes@, 0),
        decreases bytes.len() - pos,
    {
        let i = skip_space(bytes, pos);
        proof {
            lemma_skip_spaces(bytes@, pos as int);
        }
        if i >= bytes.len() {
            proof {
                assert(all =~= done);
                if done.len() > 0 {
                    assert(entries_map(done).contains_key(done.last().0));
                }
            }
            return if attrs.is_empty() {
                None
            } else {
                Some(attrs)
            };
        }
        let (key, value, next) = read_attr(raw, i);
        if key.as_bytes().len() > 0 {
            attrs = attrs.with(key, value);
            proof {
                let entry = (bytes_of(key@), bytes_of(value@));
                assert(done.push(entry).drop_last() =~= done);
                assert(done.push(entry) + attr_entries(bytes@, next as int) =~= done + (seq![entry]
                    + attr_entries(bytes@, next as int)));
                done = done.push(entry);
            }
        }
        pos = next;
    }
}

} // verus!
