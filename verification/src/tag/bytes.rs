//! Byte-level searching, the building block of the scanner.

use vstd::prelude::*;

verus! {

/// `pat` stands in `hay` at index `i`.
pub open spec fn occurs_at(hay: Seq<u8>, pat: Seq<u8>, i: int) -> bool {
    &&& 0 <= i
    &&& i + pat.len() <= hay.len()
    &&& forall|j: int| 0 <= j < pat.len() ==> hay[i + j] == #[trigger] pat[j]
}

/// The least index at or after `from` at which `pat` stands in `hay`.
pub open spec fn first_occurrence(hay: Seq<u8>, pat: Seq<u8>, from: int) -> Option<int>
    decreases hay.len() - from,
{
    if from + pat.len() > hay.len() {
        None
    } else if occurs_at(hay, pat, from) {
        Some(from)
    } else {
        first_occurrence(hay, pat, from + 1)
    }
}

/// `first_occurrence` is the least occurrence at or after `from`, and `None`
/// exactly when there is no occurrence there at all.
pub proof fn lemma_first_occurrence(hay: Seq<u8>, pat: Seq<u8>, from: int)
    requires
        0 <= from,
    ensures
        match first_occurrence(hay, pat, from) {
            Some(i) => {
                &&& from <= i
                &&& occurs_at(hay, pat, i)
                &&& forall|j: int| from <= j < i ==> !occurs_at(hay, pat, j)
            },
            None => forall|j: int| from <= j ==> !occurs_at(hay, pat, j),
        },
    decreases hay.len() - from,
{
    if from + pat.len() > hay.len() {
    } else if occurs_at(hay, pat, from) {
    } else {
        lemma_first_occurrence(hay, pat, from + 1);
    }
}

/// White space: space, tab, line feed, vertical tab, form feed, carriage
/// return.
pub open spec fn is_space(b: u8) -> bool {
    b == 0x20 || (0x09 <= b && b <= 0x0D)
}

/// The first index at or after `i` that holds no white space (the length of
/// `s` if there is none).
pub open spec fn skip_spaces(s: Seq<u8>, i: int) -> int
    decreases s.len() - i,
{
    if 0 <= i < s.len() && is_space(s[i]) {
        skip_spaces(s, i + 1)
    } else {
        i
    }
}

/// The least end `j` in `lo..=hi` such that `s[j..hi]` is all white space.
pub open spec fn skip_spaces_back(s: Seq<u8>, lo: int, hi: int) -> int
    decreases hi - lo,
{
    if lo < hi <= s.len() && is_space(s[hi - 1]) {
        skip_spaces_back(s, lo, hi - 1)
    } else {
        hi
    }
}

/// `s` without the white space at its two ends.
pub open spec fn trim(s: Seq<u8>) -> Seq<u8> {
    let lo = skip_spaces(s, 0);
    s.subrange(lo, skip_spaces_back(s, lo, s.len() as int))
}

/// What `skip_spaces` skips is white space, and it stops at the first byte
/// that is none.
pub proof fn lemma_skip_spaces(s: Seq<u8>, i: int)
    requires
        0 <= i <= s.len(),
    ensures
        i <= skip_spaces(s, i) <= s.len(),
        forall|j: int| i <= j < skip_spaces(s, i) ==> is_space(#[trigger] s[j]),
        skip_spaces(s, i) < s.len() ==> !is_space(s[skip_spaces(s, i)]),
    decreases s.len() - i,
{
    if i < s.len() && is_space(s[i]) {
        lemma_skip_spaces(s, i + 1);
    }
}

/// What `skip_spaces_back` skips is white space, and it stops behind the
/// last byte that is none.
pub proof fn lemma_skip_spaces_back(s: Seq<u8>, lo: int, hi: int)
    requires
        0 <= lo <= hi <= s.len(),
    ensures
        lo <= skip_spaces_back(s, lo, hi) <= hi,
        forall|j: int| skip_spaces_back(s, lo, hi) <= j < hi ==> is_space(#[trigger] s[j]),
        lo < skip_spaces_back(s, lo, hi) ==> !is_space(s[skip_spaces_back(s, lo, hi) - 1]),
    decreases hi - lo,
{
    if lo < hi && is_space(s[hi - 1]) {
        lemma_skip_spaces_back(s, lo, hi - 1);
    }
}

/// Tells whether `b` is white space.
pub fn is_space_byte(b: u8) -> (r: bool)
    ensures
        r == is_space(b),
{
    b == 0x20 || (0x09 <= b && b <= 0x0D)
}

/// The first index at or after `from` that holds no white space.
pub fn skip_space(s: &[u8], from: usize) -> (r: usize)
    ensures
        r == skip_spaces(s@, from as int),
        from <= r,
        from <= s.len() ==> r <= s.len(),
{
    let mut i: usize = from;
    while i < s.len() && is_space_byte(s[i])
        invariant
            from <= i,
            from <= s.len() ==> i <= s.len(),
            skip_spaces(s@, from as int) == skip_spaces(s@, i as int),
        decreases s.len() - i,
    {
        i += 1;
    }
    i
}

/// The bounds of `s` without the white space at its two ends.
pub fn trim_bounds(s: &[u8]) -> (r: (usize, usize))
    ensures
        r.0 == skip_spaces(s@, 0),
        r.1 == skip_spaces_back(s@, r.0 as int, s@.len() as int),
        r.0 <= r.1 <= s.len(),
        trim(s@) == s@.subrange(r.0 as int, r.1 as int),
{
    let lo = skip_space(s, 0);
    let mut hi: usize = s.len();
    while lo < hi && is_space_byte(s[hi - 1])
        invariant
            lo <= hi <= s.len(),
            skip_spaces_back(s@, lo as int, s@.len() as int) == skip_spaces_back(
                s@,
                lo as int,
                hi as int,
            ),
        decreases hi - lo,
    {
        hi -= 1;
    }
    (lo, hi)
}

/// Tells whether `pat` stands in `hay` at index `i`.
pub fn matches_at(hay: &[u8], pat: &[u8], i: usize) -> (r: bool)
    ensures
        r == occurs_at(hay@, pat@, i as int),
{
    if pat.len() > hay.len() || i > hay.len() - pat.len() {
        return false;
    }
    let mut k: usize = 0;
    while k < pat.len()
        invariant
            k <= pat.len(),
            i + pat.len() <= hay.len(),
            forall|j: int| 0 <= j < k ==> hay@[i + j] == #[trigger] pat@[j],
        decreases pat.len() - k,
    {
        if hay[i + k] != pat[k] {
            return false;
        }
        k += 1;
    }
    true
}

/// Finds the first place at or after `from` where `pat` stands in `hay`.
pub fn find(hay: &[u8], pat: &[u8], from: usize) -> (r: Option<usize>)
    ensures
        match r {
            Some(i) => first_occurrence(hay@, pat@, from as int) == Some(i as int),
            None => first_occurrence(hay@, pat@, from as int) is None,
        },
{
    if pat.len() > hay.len() || from > hay.len() - pat.len() {
        return None;
    }
    let last: usize = hay.len() - pat.len();
    let mut i: usize = from;
    while i <= last
        invariant
            from <= i <= last + 1,
            last == hay.len() - pat.len(),
            first_occurrence(hay@, pat@, from as int) == first_occurrence(hay@, pat@, i as int),
        decreases last + 1 - i,
    {
        if matches_at(hay, pat, i) {
            return Some(i);
        }
        i += 1;
    }
    None
}

/// Finds the first place at or after `from` where the byte `b` stands in `hay`.
pub fn find_byte(hay: &[u8], b: u8, from: usize) -> (r: Option<usize>)
    ensures
        match r {
            Some(i) => first_occurrence(hay@, seq![b], from as int) == Some(i as int),
            None => first_occurrence(hay@, seq![b], from as int) is None,
        },
{
    let mut i: usize = from;
    while i < hay.len()
        invariant
            from <= i,
            first_occurrence(hay@, seq![b], from as int) == first_occurrence(
                hay@,
                seq![b],
                i as int,
            ),
        decreases hay.len() - i,
    {
        if hay[i] == b {
            assert(occurs_at(hay@, seq![b], i as int));
            return Some(i);
        }
        assert(!occurs_at(hay@, seq![b], i as int)) by {
            if occurs_at(hay@, seq![b], i as int) {
                assert(hay@[i + 0] == seq![b][0]);
            }
        }
        i += 1;
    }
    None
}

} // verus!
