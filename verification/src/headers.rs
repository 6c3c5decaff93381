//! A table of header fields: names mapped to values, with each name present
//! at most once and the fields kept in the order in which their names first
//! arrived.
use vstd::prelude::*;

verus! {

/// Header fields as pairs of characters (name, value).
pub type HeaderEntries = Seq<(Seq<char>, Seq<char>)>;

/// No name occurs twice among `s`.
pub open spec fn keys_distinct(s: HeaderEntries) -> bool {
    forall|i: int, j: int| 0 <= i < s.len() && 0 <= j < s.len() && i != j ==> s[i].0 != s[j].0
}

/// The map from names to values that the fields `s` describe.
pub open spec fn map_of(s: HeaderEntries) -> Map<Seq<char>, Seq<char>>
    decreases s.len(),
{
    if s.len() == 0 {
        Map::empty()
    } else {
        map_of(s.drop_last()).insert(s.last().0, s.last().1)
    }
}

/// Whether `k` is the name of one of the fields `s`.
pub open spec fn has_key(s: HeaderEntries, k: Seq<char>) -> bool {
    exists|i: int| 0 <= i < s.len() && s[i].0 == k
}

/// The index of the field named `k` in `s` (meaningful when `has_key(s, k)`).
pub open spec fn key_index(s: HeaderEntries, k: Seq<char>) -> int {
    choose|i: int| 0 <= i < s.len() && s[i].0 == k
}

/// The fields `s` after setting `k` to `v`: a field already named `k` takes
/// the new value in its place; otherwise the field is added at the end.
pub open spec fn entries_insert(s: HeaderEntries, k: Seq<char>, v: Seq<char>) -> HeaderEntries {
    if has_key(s, k) {
        s.update(key_index(s, k), (k, v))
    } else {
        s.push((k, v))
    }
}

/// The names of `map_of(s)` are the names of the fields `s`.
pub proof fn lemma_map_of_dom(s: HeaderEntries, k: Seq<char>)
    ensures
        map_of(s).contains_key(k) <==> has_key(s, k),
    decreases s.len(),
{
    if s.len() > 0 {
        lemma_map_of_dom(s.drop_last(), k);
        if has_key(s, k) && s.last().0 != k {
            let i = choose|i: int| 0 <= i < s.len() && s[i].0 == k;
            assert(s.drop_last()[i].0 == k);
        }
        if has_key(s.drop_last(), k) {
            let i = choose|i: int| 0 <= i < s.drop_last().len() && s.drop_last()[i].0 == k;
            assert(s[i].0 == k);
        }
    }
}

/// With distinct names, the value that `map_of(s)` gives a field's name is
/// that field's value.
pub proof fn lemma_map_of_value(s: HeaderEntries, i: int)
    requires
        keys_distinct(s),
        0 <= i < s.len(),
    ensures
        map_of(s).contains_key(s[i].0),
        map_of(s)[s[i].0] == s[i].1,
    decreases s.len(),
{
    lemma_map_of_dom(s, s[i].0);
    if i < s.len() - 1 {
        let t = s.drop_last();
        assert(keys_distinct(t));
        assert(t[i] == s[i]);
        lemma_map_of_value(t, i);
    }
}

/// Setting a name in the fields sets it in their map, and keeps names distinct.
pub proof fn lemma_entries_insert(s: HeaderEntries, k: Seq<char>, v: Seq<char>)
    requires
        keys_distinct(s),
    ensures
        keys_distinct(entries_insert(s, k, v)),
        map_of(entries_insert(s, k, v)) == map_of(s).insert(k, v),
{
    let t = entries_insert(s, k, v);
    if has_key(s, k) {
        let i = key_index(s, k);
        assert(keys_distinct(t));
        assert forall|key: Seq<char>| #[trigger] map_of(t).contains_key(key) <==> map_of(
            s,
        ).insert(k, v).contains_key(key) by {
            lemma_map_of_dom(t, key);
            lemma_map_of_dom(s, key);
            if has_key(s, key) {
                let j = choose|j: int| 0 <= j < s.len() && s[j].0 == key;
                assert(t[j].0 == key);
            }
            if has_key(t, key) {
                let j = choose|j: int| 0 <= j < t.len() && t[j].0 == key;
                if j != i {
                    assert(s[j].0 == key);
                }
            }
        }
        assert forall|key: Seq<char>| #[trigger] map_of(t).contains_key(key) implies map_of(t)[key]
            == map_of(s).insert(k, v)[key] by {
            lemma_map_of_dom(t, key);
            let j = choose|j: int| 0 <= j < t.len() && t[j].0 == key;
            lemma_map_of_value(t, j);
            if j != i {
                assert(s[j] == t[j]);
                lemma_map_of_value(s, j);
            }
        }
        assert(map_of(t) =~= map_of(s).insert(k, v));
    } else {
        assert(t.drop_last() =~= s);
        assert forall|a: int, b: int| 0 <= a < t.len() && 0 <= b < t.len() && a != b implies t[a].0
            != t[b].0 by {
            if a == s.len() as int {
                assert(!(s[b].0 == k));
            }
            if b == s.len() as int {
                assert(!(s[a].0 == k));
            }
        }
    }
}

/// With distinct names, the field of a name is the only one with it.
pub proof fn lemma_key_index_unique(s: HeaderEntries, k: Seq<char>, i: int)
    requires
        keys_distinct(s),
        0 <= i < s.len(),
        s[i].0 == k,
    ensures
        has_key(s, k),
        key_index(s, k) == i,
{
    assert(has_key(s, k));
    let j = key_index(s, k);
    assert(s[j].0 == k);
}

/// Read after write: once a name is set to a value, the table gives that
/// value for the name, and every other name keeps what it had.
pub proof fn law_get_after_insert(s: HeaderEntries, k: Seq<char>, v: Seq<char>, other: Seq<char>)
    requires
        keys_distinct(s),
    ensures
        map_of(entries_insert(s, k, v)).contains_key(k),
        map_of(entries_insert(s, k, v))[k] == v,
        other != k ==> (map_of(entries_insert(s, k, v)).contains_key(other) == map_of(s).contains_key(
            other,
        )),
        other != k && map_of(s).contains_key(other) ==> map_of(entries_insert(s, k, v))[other]
            == map_of(s)[other],
{
    lemma_entries_insert(s, k, v);
}

/// Setting a name twice leaves the fields as setting it once to the second
/// value does: one field for the name, in the same place.
pub proof fn law_insert_twice(s: HeaderEntries, k: Seq<char>, v1: Seq<char>, v2: Seq<char>)
    requires
        keys_distinct(s),
    ensures
        entries_insert(entries_insert(s, k, v1), k, v2) == entries_insert(s, k, v2),
{
    lemma_entries_insert(s, k, v1);
    let t = entries_insert(s, k, v1);
    if has_key(s, k) {
        let i = key_index(s, k);
        lemma_key_index_unique(t, k, i);
        assert(t.update(i, (k, v2)) =~= s.update(i, (k, v2)));
    } else {
        lemma_key_index_unique(t, k, s.len() as int);
        assert(t.update(s.len() as int, (k, v2)) =~= s.push((k, v2)));
    }
}

/// The characters of owned header fields.
pub open spec fn entries_view(v: Seq<(String, String)>) -> HeaderEntries {
    Seq::new(v.len(), |i: int| (v[i].0@, v[i].1@))
}

/// Header fields, each name at most once, in the order in which the names
/// were first set.
pub struct HeaderMap {
    entries: Vec<(String, String)>,
}

impl View for HeaderMap {
    type V = HeaderEntries;

    closed spec fn view(&self) -> HeaderEntries {
        entries_view(self.entries@)
    }
}

impl HeaderMap {
    #[verifier::type_invariant]
    closed spec fn inv(self) -> bool {
        keys_distinct(self@)
    }

    /// The map from names to values.
    pub open spec fn map(self) -> Map<Seq<char>, Seq<char>> {
        map_of(self@)
    }

    /// An empty table.
    pub fn new() -> (h: HeaderMap)
        ensures
            h@ == Seq::<(Seq<char>, Seq<char>)>::empty(),
            h.map() == Map::<Seq<char>, Seq<char>>::empty(),
    {
        let h = HeaderMap { entries: Vec::new() };
        assert(h@ =~= Seq::<(Seq<char>, Seq<char>)>::empty());
        h
    }

    /// Names never repeat.
    pub fn names_distinct(&self)
        ensures
            keys_distinct(self@),
    {
        proof {
            use_type_invariant(self);
        }
    }

    /// The number of fields.
    pub fn len(&self) -> (n: usize)
        ensures
            n == self@.len(),
    {
        self.entries.len()
    }

    /// The `i`-th field as (name, value).
    pub fn entry(&self, i: usize) -> (e: (&str, &str))
        requires
            i < self@.len(),
        ensures
            e.0@ == self@[i as int].0,
            e.1@ == self@[i as int].1,
    {
        (self.entries[i].0.as_str(), self.entries[i].1.as_str())
    }

    /// The position of the field named `key`, if there is one.
    fn position(&self, key: &String) -> (r: Option<usize>)
        ensures
            match r {
                Some(i) => i < self@.len() && self@[i as int].0 == key@ && has_key(self@, key@)
                    && key_index(self@, key@) == i,
                None => !has_key(self@, key@),
            },
    {
        proof {
            use_type_invariant(self);
        }
        let mut i: usize = 0;
        while i < self.entries.len()
            invariant
                i <= self@.len() == self.entries@.len(),
                keys_distinct(self@),
                forall|j: int| 0 <= j < i ==> self@[j].0 != key@,
            decreases self.entries.len() - i,
        {
            if self.entries[i].0 == *key {
                assert(self@[i as int].0 == key@);
                let ghost k = key_index(self@, key@);
                assert(self@[k].0 == key@);
                assert(k == i) by {
                    if k != i {
                        assert(keys_distinct(self@));
                    }
                }
                return Some(i);
            }
            i += 1;
        }
        None
    }

    /// The value of the field named `key`, if there is one.
    pub fn get(&self, key: &str) -> (r: Option<&String>)
        ensures
            match r {
                Some(v) => self.map().contains_key(key@) && v@ == self.map()[key@],
                None => !self.map().contains_key(key@),
            },
    {
        proof {
            use_type_invariant(self);
            lemma_map_of_dom(self@, key@);
        }
        let k = key.to_owned();
        match self.position(&k) {
            Some(i) => {
                proof {
                    lemma_map_of_value(self@, i as int);
                }
                Some(&self.entries[i].1)
            },
            None => None,
        }
    }

    /// Sets the field named `key` to `value`, and gives back the value it
    /// replaced, if there was one.
    pub fn insert(&mut self, key: String, value: String) -> (r: Option<String>)
        ensures
            final(self)@ == entries_insert(old(self)@, key@, value@),
            final(self).map() == old(self).map().insert(key@, value@),
            match r {
                Some(v) => old(self).map().contains_key(key@) && v@ == old(self).map()[key@],
                None => !old(self).map().contains_key(key@),
            },
    {
        proof {
            use_type_invariant(&*self);
            lemma_map_of_dom(self@, key@);
            lemma_entries_insert(self@, key@, value@);
        }
        let ghost old_view = self@;
        match self.position(&key) {
            Some(i) => {
                proof {
                    lemma_map_of_value(self@, i as int);
                }
                let previous = self.entries[i].1.clone();
                let mut entries: Vec<(String, String)> = Vec::new();
                std::mem::swap(&mut entries, &mut self.entries);
                entries.set(i, (key, value));
                assert(entries_view(entries@) =~= old_view.update(i as int, (key@, value@)));
                self.entries = entries;
                Some(previous)
            },
            None => {
                let mut entries: Vec<(String, String)> = Vec::new();
                std::mem::swap(&mut entries, &mut self.entries);
                entries.push((key, value));
                assert(entries_view(entries@) =~= old_view.push((key@, value@)));
                self.entries = entries;
                None
            },
        }
    }
}

} // verus!
