//! The attributes of an element: a mapping from keys to values.
//!
//! Each key occurs once: a later value for a key takes the place of the
//! earlier. Two mappings are equal when they hold the same keys with the same
//! values, in whatever order these came.

use vstd::prelude::*;
use vstd::string::*;
use crate::tag::bytes::matches_at;
use crate::tag::text::{bytes_of, lemma_bytes_of_injective};

verus! {

/// The mapping that sends `keys[i]` to `values[i]`.
pub open spec fn seq_map(keys: Seq<Seq<u8>>, values: Seq<Seq<u8>>) -> Map<Seq<u8>, Seq<u8>> {
    Map::new(|k: Seq<u8>| keys.contains(k), |k: Seq<u8>| values[keys.index_of(k)])
}

/// Where no key occurs twice, `seq_map` sends each key to the value at its
/// index.
pub proof fn lemma_seq_map_at(keys: Seq<Seq<u8>>, values: Seq<Seq<u8>>, i: int)
    requires
        keys.no_duplicates(),
        0 <= i < keys.len(),
    ensures
        seq_map(keys, values).contains_key(keys[i]),
        seq_map(keys, values)[keys[i]] == values[i],
{
    assert(keys.contains(keys[i]));
}

/// A new key at the end is an insertion.
pub proof fn lemma_seq_map_push(
    keys: Seq<Seq<u8>>,
    values: Seq<Seq<u8>>,
    key: Seq<u8>,
    value: Seq<u8>,
)
    requires
        keys.no_duplicates(),
        keys.len() == values.len(),
        !keys.contains(key),
    ensures
        keys.push(key).no_duplicates(),
        seq_map(keys.push(key), values.push(value)) == seq_map(keys, values).insert(key, value),
{
    let keys2 = keys.push(key);
    let values2 = values.push(value);
    assert(keys2.no_duplicates()) by {
        assert forall|i: int, j: int|
            0 <= i < keys2.len() && 0 <= j < keys2.len() && i != j implies keys2[i] != keys2[j] by {
            if i < keys.len() && j < keys.len() {
            } else if i < keys.len() {
                assert(keys.contains(keys[i]));
            } else {
                assert(keys.contains(keys[j]));
            }
        }
    }
    let a = seq_map(keys2, values2);
    let b = seq_map(keys, values).insert(key, value);
    assert forall|k: Seq<u8>| a.contains_key(k) == b.contains_key(k) by {
        if keys2.contains(k) {
            let i = keys2.index_of(k);
            if i < keys.len() {
                assert(keys[i] == k);
            }
        }
        if keys.contains(k) {
            let i = keys.index_of(k);
            assert(keys2[i] == k);
        }
        assert(keys2[keys.len() as int] == key);
    }
    assert forall|k: Seq<u8>| a.contains_key(k) implies a[k] == b[k] by {
        let i = keys2.index_of(k);
        lemma_seq_map_at(keys2, values2, i);
        if i < keys.len() {
            lemma_seq_map_at(keys, values, i);
        }
    }
    assert(a =~= b);
}

/// A new value at the index of a key is an insertion for that key.
pub proof fn lemma_seq_map_update(keys: Seq<Seq<u8>>, values: Seq<Seq<u8>>, i: int, value: Seq<u8>)
    requires
        keys.no_duplicates(),
        keys.len() == values.len(),
        0 <= i < keys.len(),
    ensures
        seq_map(keys, values.update(i, value)) == seq_map(keys, values).insert(keys[i], value),
{
    let a = seq_map(keys, values.update(i, value));
    let b = seq_map(keys, values).insert(keys[i], value);
    assert(keys.contains(keys[i]));
    assert forall|k: Seq<u8>| a.contains_key(k) implies a[k] == b[k] by {
        let j = keys.index_of(k);
        lemma_seq_map_at(keys, values.update(i, value), j);
        lemma_seq_map_at(keys, values, j);
    }
    assert(a =~= b);
}

/// Where no key occurs twice, `seq_map` has as many entries as there are
/// keys.
pub proof fn lemma_seq_map_len(keys: Seq<Seq<u8>>, values: Seq<Seq<u8>>)
    requires
        keys.no_duplicates(),
        keys.len() == values.len(),
    ensures
        seq_map(keys, values).dom().finite(),
        seq_map(keys, values).dom().len() == keys.len(),
    decreases keys.len(),
{
    if keys.len() == 0 {
        assert(seq_map(keys, values).dom() =~= Set::empty());
    } else {
        let keys1 = keys.drop_last();
        let values1 = values.drop_last();
        assert(!keys1.contains(keys.last())) by {
            if keys1.contains(keys.last()) {
                let i = keys1.index_of(keys.last());
                assert(keys[i] == keys[keys.len() - 1]);
            }
        }
        lemma_seq_map_len(keys1, values1);
        lemma_seq_map_push(keys1, values1, keys.last(), values.last());
        assert(keys1.push(keys.last()) =~= keys);
        assert(values1.push(values.last()) =~= values);
        assert(seq_map(keys, values).dom() =~= seq_map(keys1, values1).dom().insert(keys.last()));
    }
}

/// The mapping that a list of entries gives: of two entries with one key the
/// later one holds.
pub open spec fn entries_map(entries: Seq<(Seq<u8>, Seq<u8>)>) -> Map<Seq<u8>, Seq<u8>>
    decreases entries.len(),
{
    if entries.len() == 0 {
        Map::empty()
    } else {
        entries_map(entries.drop_last()).insert(entries.last().0, entries.last().1)
    }
}

/// Tells whether two texts are the same, byte for byte.
pub fn same_bytes(a: &str, b: &str) -> (r: bool)
    ensures
        r == (bytes_of(a@) == bytes_of(b@)),
        r == (a@ == b@),
{
    let x = a.as_bytes();
    let y = b.as_bytes();
    proof {
        if bytes_of(a@) == bytes_of(b@) {
            lemma_bytes_of_injective(a@, b@);
        }
    }
    if x.len() != y.len() {
        return false;
    }
    let r = matches_at(x, y, 0);
    proof {
        if r {
            assert(x@ =~= y@);
        }
    }
    r
}

/// The keys of a list of borrowed entries.
pub open spec fn ref_keys(entries: Seq<(&str, &str)>) -> Seq<Seq<u8>> {
    Seq::new(entries.len(), |i: int| bytes_of(entries[i].0@))
}

/// The values of a list of borrowed entries.
pub open spec fn ref_values(entries: Seq<(&str, &str)>) -> Seq<Seq<u8>> {
    Seq::new(entries.len(), |i: int| bytes_of(entries[i].1@))
}

/// A list of borrowed entries, as bytes.
pub open spec fn ref_entries(entries: Seq<(&str, &str)>) -> Seq<(Seq<u8>, Seq<u8>)> {
    Seq::new(entries.len(), |i: int| (bytes_of(entries[i].0@), bytes_of(entries[i].1@)))
}

/// The mapping of a list of borrowed entries.
pub open spec fn ref_map(entries: Seq<(&str, &str)>) -> Map<Seq<u8>, Seq<u8>> {
    seq_map(ref_keys(entries), ref_values(entries))
}

/// The keys of a list of owned entries.
pub open spec fn owned_keys(entries: Seq<(String, String)>) -> Seq<Seq<u8>> {
    Seq::new(entries.len(), |i: int| bytes_of(entries[i].0@))
}

/// The values of a list of owned entries.
pub open spec fn owned_values(entries: Seq<(String, String)>) -> Seq<Seq<u8>> {
    Seq::new(entries.len(), |i: int| bytes_of(entries[i].1@))
}

/// A list of owned entries, as bytes.
pub open spec fn owned_entries(entries: Seq<(String, String)>) -> Seq<(Seq<u8>, Seq<u8>)> {
    Seq::new(entries.len(), |i: int| (bytes_of(entries[i].0@), bytes_of(entries[i].1@)))
}

/// The mapping of a list of owned entries.
pub open spec fn owned_map(entries: Seq<(String, String)>) -> Map<Seq<u8>, Seq<u8>> {
    seq_map(owned_keys(entries), owned_values(entries))
}

/// The index of `key` among borrowed entries.
fn position_ref(entries: &Vec<(&str, &str)>, key: &str) -> (r: Option<usize>)
    ensures
        match r {
            Some(i) => i < entries.len() && ref_keys(entries@)[i as int] == bytes_of(key@),
            None => !ref_keys(entries@).contains(bytes_of(key@)),
        },
{
    let mut i: usize = 0;
    while i < entries.len()
        invariant
            i <= entries.len(),
            forall|j: int| 0 <= j < i ==> ref_keys(entries@)[j] != bytes_of(key@),
        decreases entries.len() - i,
    {
        if same_bytes(entries[i].0, key) {
            return Some(i);
        }
        i += 1;
    }
    None
}

/// The index of `key` among owned entries.
fn position_owned(entries: &Vec<(String, String)>, key: &str) -> (r: Option<usize>)
    ensures
        match r {
            Some(i) => i < entries.len() && owned_keys(entries@)[i as int] == bytes_of(key@),
            None => !owned_keys(entries@).contains(bytes_of(key@)),
        },
{
    let mut i: usize = 0;
    while i < entries.len()
        invariant
            i <= entries.len(),
            forall|j: int| 0 <= j < i ==> owned_keys(entries@)[j] != bytes_of(key@),
        decreases entries.len() - i,
    {
        if same_bytes(entries[i].0.as_str(), key) {
            return Some(i);
        }
        i += 1;
    }
    None
}

/// Sets the value of `key` among borrowed entries: a value that the key had
/// before is overwritten.
fn put_ref<'a>(entries: &mut Vec<(&'a str, &'a str)>, key: &'a str, value: &'a str)
    requires
        ref_keys(old(entries)@).no_duplicates(),
    ensures
        ref_keys(final(entries)@).no_duplicates(),
        ref_map(final(entries)@) == ref_map(old(entries)@).insert(bytes_of(key@), bytes_of(value@)),
        final(entries).len() > 0,
{
    let ghost keys = ref_keys(entries@);
    let ghost values = ref_values(entries@);
    match position_ref(entries, key) {
        Some(i) => {
            let held = entries[i].0;
            entries.set(i, (held, value));
            proof {
                assert(ref_keys(entries@) =~= keys);
                assert(ref_values(entries@) =~= values.update(i as int, bytes_of(value@)));
                lemma_seq_map_update(keys, values, i as int, bytes_of(value@));
            }
        },
        None => {
            entries.push((key, value));
            proof {
                assert(ref_keys(entries@) =~= keys.push(bytes_of(key@)));
                assert(ref_values(entries@) =~= values.push(bytes_of(value@)));
                lemma_seq_map_push(keys, values, bytes_of(key@), bytes_of(value@));
            }
        },
    }
}

/// Sets the value of `key` among owned entries: a value that the key had
/// before is overwritten.
fn put_owned(entries: &mut Vec<(String, String)>, key: String, value: String)
    requires
        owned_keys(old(entries)@).no_duplicates(),
    ensures
        owned_keys(final(entries)@).no_duplicates(),
        owned_map(final(entries)@) == owned_map(old(entries)@).insert(
            bytes_of(key@),
            bytes_of(value@),
        ),
        final(entries).len() > 0,
{
    let ghost keys = owned_keys(entries@);
    let ghost values = owned_values(entries@);
    let ghost key_bytes = bytes_of(key@);
    let ghost value_bytes = bytes_of(value@);
    match position_owned(entries, key.as_str()) {
        Some(i) => {
            entries.set(i, (key, value));
            proof {
                assert(owned_keys(entries@) =~= keys);
                assert(owned_values(entries@) =~= values.update(i as int, value_bytes));
                lemma_seq_map_update(keys, values, i as int, value_bytes);
            }
        },
        None => {
            entries.push((key, value));
            proof {
                assert(owned_keys(entries@) =~= keys.push(key_bytes));
                assert(owned_values(entries@) =~= values.push(value_bytes));
                lemma_seq_map_push(keys, values, key_bytes, value_bytes);
            }
        },
    }
}

/// Tells whether each borrowed entry of `a` is an entry of `b`.
fn included_ref(a: &Vec<(&str, &str)>, b: &Vec<(&str, &str)>) -> (r: bool)
    requires
        ref_keys(a@).no_duplicates(),
        ref_keys(b@).no_duplicates(),
    ensures
        r == ref_map(a@).submap_of(ref_map(b@)),
{
    let mut i: usize = 0;
    while i < a.len()
        invariant
            i <= a.len(),
            ref_keys(a@).no_duplicates(),
            ref_keys(b@).no_duplicates(),
            forall|j: int|
                0 <= j < i ==> ref_map(b@).contains_key(#[trigger] ref_keys(a@)[j]) && ref_map(
                    b@,
                )[ref_keys(a@)[j]] == ref_values(a@)[j],
        decreases a.len() - i,
    {
        proof {
            lemma_seq_map_at(ref_keys(a@), ref_values(a@), i as int);
        }
        match position_ref(b, a[i].0) {
            Some(j) => {
                proof {
                    lemma_seq_map_at(ref_keys(b@), ref_values(b@), j as int);
                }
                if !same_bytes(b[j].1, a[i].1) {
                    assert(ref_map(a@).dom().contains(ref_keys(a@)[i as int]));
                    return false;
                }
            },
            None => {
                assert(ref_map(a@).dom().contains(ref_keys(a@)[i as int]));
                assert(!ref_map(b@).dom().contains(ref_keys(a@)[i as int]));
                return false;
            },
        }
        i += 1;
    }
    proof {
        assert forall|k: Seq<u8>| #[trigger] ref_map(a@).dom().contains(k) implies ref_map(
            b@,
        ).dom().contains(k) && ref_map(a@)[k] == ref_map(b@)[k] by {
            let j = ref_keys(a@).index_of(k);
            lemma_seq_map_at(ref_keys(a@), ref_values(a@), j);
        }
    }
    true
}

/// Tells whether each owned entry of `a` is an entry of `b`.
fn included_owned(a: &Vec<(String, String)>, b: &Vec<(String, String)>) -> (r: bool)
    requires
        owned_keys(a@).no_duplicates(),
        owned_keys(b@).no_duplicates(),
    ensures
        r == owned_map(a@).submap_of(owned_map(b@)),
{
    let mut i: usize = 0;
    while i < a.len()
        invariant
            i <= a.len(),
            owned_keys(a@).no_duplicates(),
            owned_keys(b@).no_duplicates(),
            forall|j: int|
                0 <= j < i ==> owned_map(b@).contains_key(#[trigger] owned_keys(a@)[j])
                    && owned_map(b@)[owned_keys(a@)[j]] == owned_values(a@)[j],
        decreases a.len() - i,
    {
        proof {
            lemma_seq_map_at(owned_keys(a@), owned_values(a@), i as int);
        }
        match position_owned(b, a[i].0.as_str()) {
            Some(j) => {
                proof {
                    lemma_seq_map_at(owned_keys(b@), owned_values(b@), j as int);
                }
                if !same_bytes(b[j].1.as_str(), a[i].1.as_str()) {
                    assert(owned_map(a@).dom().contains(owned_keys(a@)[i as int]));
                    return false;
                }
            },
            None => {
                assert(owned_map(a@).dom().contains(owned_keys(a@)[i as int]));
                assert(!owned_map(b@).dom().contains(owned_keys(a@)[i as int]));
                return false;
            },
        }
        i += 1;
    }
    proof {
        assert forall|k: Seq<u8>| #[trigger] owned_map(a@).dom().contains(k) implies owned_map(
            b@,
        ).dom().contains(k) && owned_map(a@)[k] == owned_map(b@)[k] by {
            let j = owned_keys(a@).index_of(k);
            lemma_seq_map_at(owned_keys(a@), owned_values(a@), j);
        }
    }
    true
}

/// The attributes of an element, borrowed from the input.
#[derive(Debug)]
pub struct AttrsRef<'a> {
    entries: Vec<(&'a str, &'a str)>,
}

impl<'a> View for AttrsRef<'a> {
    type V = Map<Seq<u8>, Seq<u8>>;

    closed spec fn view(&self) -> Map<Seq<u8>, Seq<u8>> {
        ref_map(self.entries@)
    }
}

impl<'a> AttrsRef<'a> {
    /// No key occurs twice.
    #[verifier::type_invariant]
    closed spec fn inv(&self) -> bool {
        ref_keys(self.entries@).no_duplicates()
    }

    /// An empty mapping.
    pub fn new() -> (attrs: Self)
        ensures
            attrs@ == Map::<Seq<u8>, Seq<u8>>::empty(),
    {
        let entries: Vec<(&'a str, &'a str)> = Vec::new();
        assert(ref_map(entries@) =~= Map::<Seq<u8>, Seq<u8>>::empty());
        AttrsRef { entries }
    }

    /// The mapping that holds `pairs`: of two pairs with one key the later
    /// one holds.
    pub fn from_pairs(pairs: Vec<(&'a str, &'a str)>) -> (attrs: Self)
        ensures
            attrs@ == entries_map(ref_entries(pairs@)),
    {
        let ghost all = ref_entries(pairs@);
        let mut entries: Vec<(&'a str, &'a str)> = Vec::new();
        let mut i: usize = 0;
        proof {
            assert(ref_map(entries@) =~= Map::<Seq<u8>, Seq<u8>>::empty());
        }
        while i < pairs.len()
            invariant
                i <= pairs.len(),
                all == ref_entries(pairs@),
                ref_keys(entries@).no_duplicates(),
                ref_map(entries@) == entries_map(all.subrange(0, i as int)),
            decreases pairs.len() - i,
        {
            let (key, value) = pairs[i];
            put_ref(&mut entries, key, value);
            proof {
                assert(all.subrange(0, i + 1).drop_last() =~= all.subrange(0, i as int));
            }
            i += 1;
        }
        proof {
            assert(all.subrange(0, all.len() as int) =~= all);
        }
        AttrsRef { entries }
    }

    /// The mapping with `key` set to `value`: a value that the key had
    /// before is overwritten.
    pub fn with(self, key: &'a str, value: &'a str) -> (attrs: Self)
        ensures
            attrs@ == self@.insert(bytes_of(key@), bytes_of(value@)),
    {
        proof {
            use_type_invariant(&self);
        }
        let mut entries = self.entries;
        put_ref(&mut entries, key, value);
        AttrsRef { entries }
    }

    /// The entries, each key once.
    pub fn into_pairs(self) -> (pairs: Vec<(&'a str, &'a str)>)
        ensures
            ref_keys(pairs@).no_duplicates(),
            ref_map(pairs@) == self@,
    {
        proof {
            use_type_invariant(&self);
        }
        self.entries
    }

    /// The value of `key`, if it has one.
    pub fn get(&self, key: &str) -> (r: Option<&'a str>)
        ensures
            match r {
                Some(value) => self@.contains_key(bytes_of(key@)) && self@[bytes_of(key@)]
                    == bytes_of(value@),
                None => !self@.contains_key(bytes_of(key@)),
            },
    {
        proof {
            use_type_invariant(self);
        }
        match position_ref(&self.entries, key) {
            Some(i) => {
                proof {
                    lemma_seq_map_at(
                        ref_keys(self.entries@),
                        ref_values(self.entries@),
                        i as int,
                    );
                }
                Some(self.entries[i].1)
            },
            None => None,
        }
    }

    /// The number of entries.
    pub fn len(&self) -> (n: usize)
        ensures
            self@.dom().finite(),
            n == self@.dom().len(),
    {
        proof {
            use_type_invariant(self);
            lemma_seq_map_len(ref_keys(self.entries@), ref_values(self.entries@));
        }
        self.entries.len()
    }

    /// Tells whether there is no entry.
    pub fn is_empty(&self) -> (r: bool)
        ensures
            r == (self@ == Map::<Seq<u8>, Seq<u8>>::empty()),
    {
        proof {
            use_type_invariant(self);
            if self.entries@.len() == 0 {
                assert(self@ =~= Map::<Seq<u8>, Seq<u8>>::empty());
            } else {
                lemma_seq_map_at(ref_keys(self.entries@), ref_values(self.entries@), 0);
            }
        }
        self.entries.len() == 0
    }
}

impl<'a> Clone for AttrsRef<'a> {
    /// A copy that holds the same entries.
    fn clone(&self) -> (copy: Self)
        ensures
            copy@ == self@,
    {
        proof {
            use_type_invariant(self);
        }
        let mut entries: Vec<(&'a str, &'a str)> = Vec::new();
        let mut i: usize = 0;
        while i < self.entries.len()
            invariant
                i <= self.entries.len(),
                entries@ == self.entries@.subrange(0, i as int),
            decreases self.entries.len() - i,
        {
            entries.push(self.entries[i]);
            assert(entries@ =~= self.entries@.subrange(0, i + 1));
            i += 1;
        }
        assert(entries@ =~= self.entries@);
        AttrsRef { entries }
    }
}

impl<'a> PartialEq for AttrsRef<'a> {
    /// Two mappings are equal when they hold the same keys with the same
    /// values.
    fn eq(&self, other: &Self) -> (r: bool) {
        proof {
            use_type_invariant(self);
            use_type_invariant(other);
        }
        let r = included_ref(&self.entries, &other.entries) && included_ref(
            &other.entries,
            &self.entries,
        );
        proof {
            if r {
                assert forall|k: Seq<u8>| self@.dom().contains(k) == other@.dom().contains(k) by {}
                assert forall|k: Seq<u8>| #[trigger] self@.dom().contains(k) implies self@[k]
                    == other@[k] by {}
                assert(self@ =~= other@);
            }
        }
        r
    }
}

impl<'a> vstd::std_specs::cmp::PartialEqSpecImpl for AttrsRef<'a> {
    open spec fn obeys_eq_spec() -> bool {
        true
    }

    open spec fn eq_spec(&self, other: &Self) -> bool {
        self@ == other@
    }
}

/// The attributes of an element, owned.
#[derive(Debug)]
pub struct Attrs {
    entries: Vec<(String, String)>,
}

impl View for Attrs {
    type V = Map<Seq<u8>, Seq<u8>>;

    closed spec fn view(&self) -> Map<Seq<u8>, Seq<u8>> {
        owned_map(self.entries@)
    }
}

impl Attrs {
    /// No key occurs twice.
    #[verifier::type_invariant]
    closed spec fn inv(&self) -> bool {
        owned_keys(self.entries@).no_duplicates()
    }

    /// An empty mapping.
    pub fn new() -> (attrs: Self)
        ensures
            attrs@ == Map::<Seq<u8>, Seq<u8>>::empty(),
    {
        let entries: Vec<(String, String)> = Vec::new();
        assert(owned_map(entries@) =~= Map::<Seq<u8>, Seq<u8>>::empty());
        Attrs { entries }
    }

    /// The mapping that holds `pairs`: of two pairs with one key the later
    /// one holds.
    pub fn from_pairs(pairs: Vec<(String, String)>) -> (attrs: Self)
        ensures
            attrs@ == entries_map(owned_entries(pairs@)),
    {
        let ghost all = owned_entries(pairs@);
        let mut entries: Vec<(String, String)> = Vec::new();
        proof {
            assert(owned_map(entries@) =~= Map::<Seq<u8>, Seq<u8>>::empty());
        }
        for pair in it: pairs
            invariant
                it.seq() == pairs@,
                all == owned_entries(pairs@),
                owned_keys(entries@).no_duplicates(),
                owned_map(entries@) == entries_map(all.subrange(0, it.index() as int)),
        {
            let ghost i = it.index() as int;
            let (key, value) = pair;
            put_owned(&mut entries, key, value);
            proof {
                assert(all.subrange(0, i + 1).drop_last() =~= all.subrange(0, i));
            }
        }
        proof {
            assert(all.subrange(0, all.len() as int) =~= all);
        }
        Attrs { entries }
    }

    /// An owned copy of borrowed attributes.
    pub fn from_ref(attrs: &AttrsRef) -> (owned: Self)
        ensures
            owned@ == attrs@,
    {
        proof {
            use_type_invariant(attrs);
        }
        let mut entries: Vec<(String, String)> = Vec::new();
        let mut i: usize = 0;
        while i < attrs.entries.len()
            invariant
                i <= attrs.entries.len(),
                entries.len() == i,
                forall|j: int|
                    0 <= j < i ==> (#[trigger] entries@[j]).0@ == attrs.entries@[j].0@
                        && entries@[j].1@ == attrs.entries@[j].1@,
            decreases attrs.entries.len() - i,
        {
            let (key, value) = attrs.entries[i];
            entries.push((key.to_owned(), value.to_owned()));
            i += 1;
        }
        assert(owned_keys(entries@) =~= ref_keys(attrs.entries@));
        assert(owned_values(entries@) =~= ref_values(attrs.entries@));
        Attrs { entries }
    }

    /// The mapping with `key` set to `value`: a value that the key had
    /// before is overwritten.
    pub fn with(self, key: String, value: String) -> (attrs: Self)
        ensures
            attrs@ == self@.insert(bytes_of(key@), bytes_of(value@)),
    {
        proof {
            use_type_invariant(&self);
        }
        let mut entries = self.entries;
        put_owned(&mut entries, key, value);
        Attrs { entries }
    }

    /// The entries, each key once.
    pub fn into_pairs(self) -> (pairs: Vec<(String, String)>)
        ensures
            owned_keys(pairs@).no_duplicates(),
            owned_map(pairs@) == self@,
    {
        proof {
            use_type_invariant(&self);
        }
        self.entries
    }

    /// The value of `key`, if it has one.
    pub fn get(&self, key: &str) -> (r: Option<&str>)
        ensures
            match r {
                Some(value) => self@.contains_key(bytes_of(key@)) && self@[bytes_of(key@)]
                    == bytes_of(value@),
                None => !self@.contains_key(bytes_of(key@)),
            },
    {
        proof {
            use_type_invariant(self);
        }
        match position_owned(&self.entries, key) {
            Some(i) => {
                proof {
                    lemma_seq_map_at(
                        owned_keys(self.entries@),
                        owned_values(self.entries@),
                        i as int,
                    );
                }
                Some(self.entries[i].1.as_str())
            },
            None => None,
        }
    }

    /// The number of entries.
    pub fn len(&self) -> (n: usize)
        ensures
            self@.dom().finite(),
            n == self@.dom().len(),
    {
        proof {
            use_type_invariant(self);
            lemma_seq_map_len(owned_keys(self.entries@), owned_values(self.entries@));
        }
        self.entries.len()
    }

    /// Tells whether there is no entry.
    pub fn is_empty(&self) -> (r: bool)
        ensures
            r == (self@ == Map::<Seq<u8>, Seq<u8>>::empty()),
    {
        proof {
            use_type_invariant(self);
            if self.entries@.len() == 0 {
                assert(self@ =~= Map::<Seq<u8>, Seq<u8>>::empty());
            } else {
                lemma_seq_map_at(owned_keys(self.entries@), owned_values(self.entries@), 0);
            }
        }
        self.entries.len() == 0
    }
}

impl Clone for Attrs {
    /// A copy that holds the same entries.
    fn clone(&self) -> (copy: Self)
        ensures
            copy@ == self@,
    {
        proof {
            use_type_invariant(self);
        }
        let mut entries: Vec<(String, String)> = Vec::new();
        let mut i: usize = 0;
        while i < self.entries.len()
            invariant
                i <= self.entries.len(),
                entries.len() == i,
                forall|j: int|
                    0 <= j < i ==> (#[trigger] entries@[j]).0@ == self.entries@[j].0@
                        && entries@[j].1@ == self.entries@[j].1@,
            decreases self.entries.len() - i,
        {
            let key = self.entries[i].0.clone();
            let value = self.entries[i].1.clone();
            entries.push((key, value));
            i += 1;
        }
        assert(owned_keys(entries@) =~= owned_keys(self.entries@));
        assert(owned_values(entries@) =~= owned_values(self.entries@));
        Attrs { entries }
    }
}

impl PartialEq for Attrs {
    /// Two mappings are equal when they hold the same keys with the same
    /// values.
    fn eq(&self, other: &Self) -> (r: bool) {
        proof {
            use_type_invariant(self);
            use_type_invariant(other);
        }
        let r = included_owned(&self.entries, &other.entries) && included_owned(
            &other.entries,
            &self.entries,
        );
        proof {
            if r {
                assert forall|k: Seq<u8>| self@.dom().contains(k) == other@.dom().contains(k) by {}
                assert forall|k: Seq<u8>| #[trigger] self@.dom().contains(k) implies self@[k]
                    == other@[k] by {}
                assert(self@ =~= other@);
            }
        }
        r
    }
}

impl vstd::std_specs::cmp::PartialEqSpecImpl for Attrs {
    open spec fn obeys_eq_spec() -> bool {
        true
    }

    open spec fn eq_spec(&self, other: &Self) -> bool {
        self@ == other@
    }
}

} // verus!
