//! An ordered collection of HTTP header fields with distinct names.
//!
//! A name maps to at most one value; inserting a name that is already present
//! replaces its value in place, inserting a new name appends it. The order of
//! the fields is the order in which their names were first inserted.
use vstd::prelude::*;

verus! {

/// Header fields as pairs of name and value, in order.
pub type HeaderSeq = Seq<(Seq<char>, Seq<char>)>;

/// No name occurs twice.
pub open spec fn distinct_names(e: HeaderSeq) -> bool {
    forall|i: int, j: int| 0 <= i < j < e.len() ==> #[trigger] e[i].0 != #[trigger] e[j].0
}

/// Whether some field is named `k`.
pub open spec fn has_name(e: HeaderSeq, k: Seq<char>) -> bool {
    exists|i: int| 0 <= i < e.len() && #[trigger] e[i].0 == k
}

/// The position of the field named `k` (meaningful when [`has_name`] holds).
pub open spec fn name_index(e: HeaderSeq, k: Seq<char>) -> int {
    choose|i: int| 0 <= i < e.len() && #[trigger] e[i].0 == k
}

/// The value of the field named `k`, if there is one.
pub open spec fn value_of(e: HeaderSeq, k: Seq<char>) -> Option<Seq<char>> {
    if has_name(e, k) {
        Some(e[name_index(e, k)].1)
    } else {
        None
    }
}

/// The fields after setting `k` to `v`: replaced in place when `k` is present,
/// appended otherwise.
pub open spec fn inserted(e: HeaderSeq, k: Seq<char>, v: Seq<char>) -> HeaderSeq {
    if has_name(e, k) {
        e.update(name_index(e, k), (k, v))
    } else {
        e.push((k, v))
    }
}

/// With distinct names, the field at `i` is the one that [`name_index`] picks.
pub proof fn lemma_name_index_unique(e: HeaderSeq, i: int)
    requires
        distinct_names(e),
        0 <= i < e.len(),
    ensures
        has_name(e, e[i].0),
        name_index(e, e[i].0) == i,
{
    let k = e[i].0;
    assert(has_name(e, k));
    let j = name_index(e, k);
    if j != i {
        if j < i {
            assert(e[j].0 != e[i].0);
        } else {
            assert(e[i].0 != e[j].0);
        }
    }
}

/// After setting `k` to `v`, the value of `k` is `v`, every other name keeps its
/// value, and names stay distinct.
pub proof fn lemma_inserted_values(e: HeaderSeq, k: Seq<char>, v: Seq<char>, other: Seq<char>)
    requires
        distinct_names(e),
        other != k,
    ensures
        value_of(inserted(e, k, v), k) == Some(v),
        value_of(inserted(e, k, v), other) == value_of(e, other),
        distinct_names(inserted(e, k, v)),
{
    let e2 = inserted(e, k, v);
    if has_name(e, k) {
        let i = name_index(e, k);
        assert(e2.len() == e.len());
        assert(distinct_names(e2)) by {
            assert forall|a: int, b: int| 0 <= a < b < e2.len() implies #[trigger] e2[a].0
                != #[trigger] e2[b].0 by {
                assert(e[i].0 == k);
            }
        }
        lemma_name_index_unique(e2, i);
        if has_name(e, other) {
            let j = name_index(e, other);
            assert(e2[j] == e[j]);
            lemma_name_index_unique(e2, j);
        } else {
            assert(!has_name(e2, other)) by {
                if has_name(e2, other) {
                    let j = choose|j: int| 0 <= j < e2.len() && #[trigger] e2[j].0 == other;
                    assert(e[j].0 == other);
                }
            }
        }
    } else {
        assert(distinct_names(e2)) by {
            assert forall|a: int, b: int| 0 <= a < b < e2.len() implies #[trigger] e2[a].0
                != #[trigger] e2[b].0 by {
                if b == e.len() {
                    assert(e[a].0 != k);
                }
            }
        }
        lemma_name_index_unique(e2, e.len() as int);
        if has_name(e, other) {
            let j = name_index(e, other);
            assert(e2[j] == e[j]);
            lemma_name_index_unique(e2, j);
        } else {
            assert(!has_name(e2, other)) by {
                if has_name(e2, other) {
                    let j = choose|j: int| 0 <= j < e2.len() && #[trigger] e2[j].0 == other;
                    if j < e.len() {
                        assert(e[j].0 == other);
                    }
                }
            }
        }
    }
}

/// Header fields in insertion order, each name at most once.
pub struct Headers {
    entries: Vec<(String, String)>,
}

impl View for Headers {
    type V = HeaderSeq;

    closed spec fn view(&self) -> HeaderSeq {
        self.entries@.map_values(|e: (String, String)| (e.0@, e.1@))
    }
}

impl Headers {
    #[verifier::type_invariant]
    spec fn names_are_distinct(self) -> bool {
        distinct_names(self@)
    }

    /// An empty collection.
    pub fn new() -> (h: Headers)
        ensures
            h@ == Seq::<(Seq<char>, Seq<char>)>::empty(),
            distinct_names(h@),
    {
        let h = Headers { entries: Vec::new() };
        assert(h@ =~= Seq::<(Seq<char>, Seq<char>)>::empty());
        h
    }

    /// The number of fields (whose names are all distinct).
    pub fn len(&self) -> (n: usize)
        ensures
            n == self@.len(),
            distinct_names(self@),
    {
        proof {
            use_type_invariant(self);
        }
        self.entries.len()
    }

    /// The name and value of the field at position `i`.
    pub fn entry(&self, i: usize) -> (r: (&String, &String))
        requires
            i < self@.len(),
        ensures
            r.0@ == self@[i as int].0,
            r.1@ == self@[i as int].1,
    {
        let e = &self.entries[i];
        (&e.0, &e.1)
    }

    /// The position of the field named `key`, if any.
    fn position(&self, key: &String) -> (r: Option<usize>)
        ensures
            r is Some <==> has_name(self@, key@),
            r matches Some(i) ==> i < self@.len() && i == name_index(self@, key@),
    {
        proof {
            use_type_invariant(self);
        }
        let n = self.entries.len();
        let mut i: usize = 0;
        while i < n
            invariant
                i <= n == self.entries@.len(),
                n == self@.len(),
                distinct_names(self@),
                forall|k: int| 0 <= k < i ==> self@[k].0 != key@,
            decreases n - i,
        {
            let found = self.entries[i].0 == *key;
            if found {
                proof {
                    assert(self@[i as int].0 == key@);
                    lemma_name_index_unique(self@, i as int);
                }
                return Some(i);
            }
            i = i + 1;
        }
        assert(!has_name(self@, key@)) by {
            if has_name(self@, key@) {
                let j = choose|j: int| 0 <= j < self@.len() && #[trigger] self@[j].0 == key@;
                assert(self@[j].0 != key@);
            }
        }
        None
    }

    /// The value of the field named `key`, if any.
    pub fn get(&self, key: &String) -> (r: Option<&String>)
        ensures
            r is Some <==> value_of(self@, key@) is Some,
            r matches Some(v) ==> value_of(self@, key@) == Some(v@),
    {
        match self.position(key) {
            Some(i) => Some(&self.entries[i].1),
            None => None,
        }
    }

    /// The value of the field named `key`, if any (the name given as a string slice).
    pub fn get_str(&self, key: &str) -> (r: Option<&String>)
        ensures
            r is Some <==> value_of(self@, key@) is Some,
            r matches Some(v) ==> value_of(self@, key@) == Some(v@),
    {
        let k = key.to_string();
        self.get(&k)
    }

    /// Sets the field named `key` to `value`.
    pub fn insert(&mut self, key: String, value: String)
        ensures
            final(self)@ == inserted(old(self)@, key@, value@),
            distinct_names(final(self)@),
    {
        proof {
            use_type_invariant(&*self);
        }
        let ghost old_view = self@;
        match self.position(&key) {
            Some(i) => {
                let ghost k = key@;
                let ghost v = value@;
                let mut entries = Vec::new();
                std::mem::swap(&mut entries, &mut self.entries);
                entries.set(i, (key, value));
                assert(entries@.map_values(|e: (String, String)| (e.0@, e.1@)) =~= old_view.update(
                    i as int,
                    (k, v),
                ));
                assert(distinct_names(old_view.update(i as int, (k, v)))) by {
                    assert forall|a: int, b: int|
                        0 <= a < b < old_view.len() implies #[trigger] old_view.update(
                        i as int,
                        (k, v),
                    )[a].0 != #[trigger] old_view.update(i as int, (k, v))[b].0 by {
                        assert(old_view[i as int].0 == k);
                    }
                }
                self.entries = entries;
            },
            None => {
                let ghost k = key@;
                let ghost v = value@;
                let mut entries = Vec::new();
                std::mem::swap(&mut entries, &mut self.entries);
                entries.push((key, value));
                assert(entries@.map_values(|e: (String, String)| (e.0@, e.1@)) =~= old_view.push(
                    (k, v),
                ));
                assert(distinct_names(old_view.push((k, v)))) by {
                    assert forall|a: int, b: int|
                        0 <= a < b < old_view.len() + 1 implies #[trigger] old_view.push(
                        (k, v),
                    )[a].0 != #[trigger] old_view.push((k, v))[b].0 by {
                        if b == old_view.len() {
                            assert(old_view[a].0 != k);
                        }
                    }
                }
                self.entries = entries;
            },
        }
    }
}

} // verus!
