//! Key/value tags of an OSM element, and the predicates that the classifier asks of them.

use vstd::prelude::*;
use vstd::string::StringSliceAdditionalSpecFns;

verus! {

/// Whether two texts hold the same characters.
pub fn str_eq(a: &str, b: &str) -> (r: bool)
    ensures
        r == (a@ == b@),
{
    let x = a.as_bytes();
    let y = b.as_bytes();
    proof {
        vstd::utf8::encode_utf8_decode_utf8(a@);
        vstd::utf8::encode_utf8_decode_utf8(b@);
    }
    if x.len() != y.len() {
        return false;
    }
    let mut i: usize = 0;
    while i < x.len()
        invariant
            x@ == a.spec_bytes(),
            y@ == b.spec_bytes(),
            x@.len() == y@.len(),
            i <= x@.len(),
            forall|j: int| 0 <= j < i ==> x@[j] == y@[j],
        decreases x@.len() - i,
    {
        if x[i] != y[i] {
            assert(x@[i as int] != y@[i as int]);
            return false;
        }
        i += 1;
    }
    assert(x@ =~= y@);
    true
}

/// The value that a list of entries gives a key: that of the first entry with the key.
pub open spec fn lookup(entries: Seq<(String, String)>, key: Seq<char>) -> Option<Seq<char>>
    decreases entries.len(),
{
    if entries.len() == 0 {
        None
    } else if entries[0].0@ == key {
        Some(entries[0].1@)
    } else {
        lookup(entries.skip(1), key)
    }
}

/// `tags` has the key `key`.
pub open spec fn tag_has(tags: Map<Seq<char>, Seq<char>>, key: Seq<char>) -> bool {
    tags.contains_key(key)
}

/// `tags` gives the key `key` the value `value`.
pub open spec fn tag_is(tags: Map<Seq<char>, Seq<char>>, key: Seq<char>, value: Seq<char>) -> bool {
    tags.contains_key(key) && tags[key] == value
}

/// `tags` gives the key `key` one of `values`.
pub open spec fn tag_is_any(tags: Map<Seq<char>, Seq<char>>, key: Seq<char>, values: Seq<&str>) -> bool {
    exists|i: int| 0 <= i < values.len() && tag_is(tags, key, (#[trigger] values[i])@)
}

/// `tags` has one of `keys`.
pub open spec fn tag_has_any(tags: Map<Seq<char>, Seq<char>>, keys: Seq<&str>) -> bool {
    exists|i: int| 0 <= i < keys.len() && tag_has(tags, (#[trigger] keys[i])@)
}

/// What a list of keys and values comes to when the first `n` are put in one after another: a
/// later value takes the place of an earlier one under the same key.
pub open spec fn collected(entries: Seq<(String, String)>, n: nat) -> Map<Seq<char>, Seq<char>>
    decreases n,
{
    if n == 0 {
        Map::empty()
    } else {
        collected(entries, (n - 1) as nat).insert(entries[n - 1].0@, entries[n - 1].1@)
    }
}

/// The tags of an OSM element: a mapping from keys to values that remembers the order in which
/// the keys first came.
#[derive(Clone, Debug)]
pub struct Tags {
    entries: Vec<(String, String)>,
}

impl View for Tags {
    type V = Map<Seq<char>, Seq<char>>;

    closed spec fn view(&self) -> Map<Seq<char>, Seq<char>> {
        Map::new(
            |k: Seq<char>| lookup(self.entries@, k) is Some,
            |k: Seq<char>| lookup(self.entries@, k).unwrap(),
        )
    }
}

proof fn lemma_lookup_skip(entries: Seq<(String, String)>, key: Seq<char>, n: int)
    requires
        0 <= n <= entries.len(),
        forall|j: int| 0 <= j < n ==> (#[trigger] entries[j]).0@ != key,
    ensures
        lookup(entries, key) == lookup(entries.skip(n), key),
    decreases n,
{
    if n == 0 {
        assert(entries.skip(0) =~= entries);
    } else {
        lemma_lookup_skip(entries.skip(1), key, n - 1);
        assert(entries.skip(1).skip(n - 1) =~= entries.skip(n));
    }
}

proof fn lemma_lookup_push(entries: Seq<(String, String)>, entry: (String, String), key: Seq<char>)
    ensures
        lookup(entries.push(entry), key) == if lookup(entries, key) is Some {
            lookup(entries, key)
        } else if entry.0@ == key {
            Some(entry.1@)
        } else {
            None
        },
    decreases entries.len(),
{
    if entries.len() == 0 {
        assert(entries.push(entry).skip(1) =~= entries);
    } else {
        assert(entries.push(entry).skip(1) =~= entries.skip(1).push(entry));
        lemma_lookup_push(entries.skip(1), entry, key);
    }
}

proof fn lemma_lookup_update(
    entries: Seq<(String, String)>,
    at: int,
    entry: (String, String),
    key: Seq<char>,
)
    requires
        0 <= at < entries.len(),
        entries[at].0@ == entry.0@,
        forall|j: int| 0 <= j < at ==> (#[trigger] entries[j]).0@ != entry.0@,
    ensures
        lookup(entries.update(at, entry), key) == if key == entry.0@ {
            Some(entry.1@)
        } else {
            lookup(entries, key)
        },
    decreases at,
{
    if at > 0 {
        assert(entries.update(at, entry).skip(1) =~= entries.skip(1).update(at - 1, entry));
        lemma_lookup_update(entries.skip(1), at - 1, entry, key);
    } else {
        assert(entries.update(at, entry).skip(1) =~= entries.skip(1));
    }
}

impl Tags {
    /// The entries, in the order in which their keys first came.
    pub closed spec fn entries(&self) -> Seq<(String, String)> {
        self.entries@
    }

    /// No tags at all.
    pub fn empty() -> (tags: Tags)
        ensures
            tags@ == Map::<Seq<char>, Seq<char>>::empty(),
            tags.entries().len() == 0,
    {
        let tags = Tags { entries: Vec::new() };
        assert(tags@ =~= Map::<Seq<char>, Seq<char>>::empty());
        tags
    }

    /// The tags that come of putting in the keys and values one after another.
    pub fn collect(entries: &Vec<(String, String)>) -> (tags: Tags)
        ensures
            tags@ == collected(entries@, entries@.len()),
    {
        let mut tags = Tags::empty();
        let mut i: usize = 0;
        while i < entries.len()
            invariant
                i <= entries@.len(),
                tags@ == collected(entries@, i as nat),
            decreases entries@.len() - i,
        {
            tags.insert(entries[i].0.as_str(), entries[i].1.as_str());
            i += 1;
        }
        tags
    }

    /// A copy of the tags.
    pub fn copy(&self) -> (tags: Tags)
        ensures
            tags@ == self@,
            tags.entries() =~= self.entries(),
    {
        let mut entries: Vec<(String, String)> = Vec::new();
        let mut i: usize = 0;
        while i < self.entries.len()
            invariant
                i <= self.entries@.len(),
                entries@ == self.entries@.take(i as int),
            decreases self.entries@.len() - i,
        {
            let k = self.entries[i].0.clone();
            let v = self.entries[i].1.clone();
            entries.push((k, v));
            assert(entries@ =~= self.entries@.take(i + 1));
            i += 1;
        }
        assert(self.entries@.take(i as int) =~= self.entries@);
        let tags = Tags { entries };
        assert(tags@ =~= self@);
        tags
    }

    /// How many keys and values the tags hold.
    pub fn len(&self) -> (n: usize)
        ensures
            n == self.entries().len(),
    {
        self.entries.len()
    }

    /// The key of the entry at `index`.
    pub fn key_at(&self, index: usize) -> (key: &String)
        requires
            index < self.entries().len(),
        ensures
            key@ == self.entries()[index as int].0@,
            self@.contains_key(key@),
    {
        proof {
            if lookup(self.entries@, self.entries@[index as int].0@) is None {
                lemma_lookup_none(self.entries@, self.entries@[index as int].0@);
            }
        }
        &self.entries[index].0
    }

    /// The value of the entry at `index`.
    pub fn value_at(&self, index: usize) -> (value: &String)
        requires
            index < self.entries().len(),
        ensures
            value@ == self.entries()[index as int].1@,
    {
        &self.entries[index].1
    }

    /// The value under `key`, if the tags have the key.
    pub fn get(&self, key: &str) -> (value: Option<&String>)
        ensures
            value is Some <==> tag_has(self@, key@),
            value matches Some(v) ==> v@ == self@[key@],
    {
        let mut i: usize = 0;
        while i < self.entries.len()
            invariant
                i <= self.entries@.len(),
                forall|j: int| 0 <= j < i ==> (#[trigger] self.entries@[j]).0@ != key@,
            decreases self.entries.len() - i,
        {
            if str_eq(self.entries[i].0.as_str(), key) {
                proof {
                    lemma_lookup_skip(self.entries@, key@, i as int);
                }
                return Some(&self.entries[i].1);
            }
            i += 1;
        }
        proof {
            lemma_lookup_skip(self.entries@, key@, i as int);
        }
        None
    }

    /// Whether the tags have `key`.
    pub fn has(&self, key: &str) -> (r: bool)
        ensures
            r == tag_has(self@, key@),
    {
        self.get(key).is_some()
    }

    /// Whether the tags give `key` the value `value`.
    pub fn is(&self, key: &str, value: &str) -> (r: bool)
        ensures
            r == tag_is(self@, key@, value@),
    {
        match self.get(key) {
            Some(v) => str_eq(v.as_str(), value),
            None => false,
        }
    }

    /// Whether the tags give `key` one of `values`.
    pub fn is_any(&self, key: &str, values: Vec<&str>) -> (r: bool)
        ensures
            r == tag_is_any(self@, key@, values@),
    {
        let mut i: usize = 0;
        while i < values.len()
            invariant
                i <= values@.len(),
                forall|j: int| 0 <= j < i ==> !tag_is(self@, key@, (#[trigger] values@[j])@),
            decreases values.len() - i,
        {
            if self.is(key, values[i]) {
                return true;
            }
            i += 1;
        }
        false
    }

    /// Whether the tags have one of `keys`.
    pub fn has_any(&self, keys: Vec<&str>) -> (r: bool)
        ensures
            r == tag_has_any(self@, keys@),
    {
        let mut i: usize = 0;
        while i < keys.len()
            invariant
                i <= keys@.len(),
                forall|j: int| 0 <= j < i ==> !tag_has(self@, (#[trigger] keys@[j])@),
            decreases keys.len() - i,
        {
            if self.has(keys[i]) {
                return true;
            }
            i += 1;
        }
        false
    }

    /// Puts `value` under `key`, in place of the value that the key had, if it had one.
    pub fn insert(&mut self, key: &str, value: &str)
        ensures
            final(self)@ == old(self)@.insert(key@, value@),
    {
        let entry = (key.to_owned(), value.to_owned());
        let mut i: usize = 0;
        while i < self.entries.len()
            invariant
                i <= self.entries@.len(),
                self.entries@ == old(self).entries@,
                entry.0@ == key@,
                entry.1@ == value@,
                forall|j: int| 0 <= j < i ==> (#[trigger] self.entries@[j]).0@ != key@,
            decreases self.entries.len() - i,
        {
            if str_eq(self.entries[i].0.as_str(), key) {
                proof {
                    assert forall|k: Seq<char>|
                        lookup(self.entries@.update(i as int, entry), k) == (if k == key@ {
                            Some(value@)
                        } else {
                            lookup(self.entries@, k)
                        }) by {
                        lemma_lookup_update(self.entries@, i as int, entry, k);
                    }
                }
                self.entries[i] = entry;
                assert(self@ =~= old(self)@.insert(key@, value@));
                return ;
            }
            i += 1;
        }
        proof {
            lemma_lookup_skip(self.entries@, key@, i as int);
            assert forall|k: Seq<char>|
                lookup(self.entries@.push(entry), k) == (if k == key@ {
                    Some(value@)
                } else {
                    lookup(self.entries@, k)
                }) by {
                lemma_lookup_push(self.entries@, entry, k);
            }
        }
        self.entries.push(entry);
        assert(self@ =~= old(self)@.insert(key@, value@));
    }
}

proof fn lemma_lookup_none(entries: Seq<(String, String)>, key: Seq<char>)
    requires
        lookup(entries, key) is None,
    ensures
        forall|j: int| 0 <= j < entries.len() ==> (#[trigger] entries[j]).0@ != key,
    decreases entries.len(),
{
    if entries.len() > 0 {
        lemma_lookup_none(entries.skip(1), key);
        assert forall|j: int| 0 <= j < entries.len() implies (#[trigger] entries[j]).0@ != key by {
            if j > 0 {
                assert(entries.skip(1)[j - 1] == entries[j]);
            }
        }
    }
}

} // verus!
