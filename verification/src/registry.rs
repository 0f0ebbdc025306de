//! A `CollectionRegistry`: named, independent vector stores, modelled
//! as a `Map<Seq<char>, VectorStore>`.
//!
//! Registering a name that already exists replaces the store and
//! discards every entry it held: a silent, destructive operation that
//! callers must take into account.  Searching or updating under an
//! unregistered name is an absent result, not an error.

use vstd::prelude::*;

use crate::similarity::MAX_DIM;
use crate::store::DocumentId;
use crate::store::ScoredResult;
use crate::store::VectorStore;
use crate::store::search_post;

verus! {

/// The mapping an association list of named stores denotes.
pub open spec fn collections_of(s: Seq<(String, VectorStore)>) -> Map<Seq<char>, VectorStore>
    decreases s.len(),
{
    if s.len() == 0 {
        Map::empty()
    } else {
        collections_of(s.drop_last()).insert(s.last().0@, s.last().1)
    }
}

/// No two collections share a name.
pub open spec fn distinct_names(s: Seq<(String, VectorStore)>) -> bool {
    forall|i: int, j: int| 0 <= i < j < s.len() ==> s[i].0@ != s[j].0@
}

/// A name is in the denoted map exactly when some entry carries it.
pub proof fn lemma_collections_contains(s: Seq<(String, VectorStore)>, nm: Seq<char>)
    ensures
        collections_of(s).contains_key(nm) <==> exists|j: int| 0 <= j < s.len() && s[j].0@ == nm,
    decreases s.len(),
{
    if s.len() == 0 {
    } else {
        lemma_collections_contains(s.drop_last(), nm);
        if collections_of(s).contains_key(nm) {
            if s.last().0@ == nm {
                assert(s[s.len() - 1].0@ == nm);
            } else {
                let j = choose|j: int| 0 <= j < s.len() - 1 && s.drop_last()[j].0@ == nm;
                assert(s[j].0@ == nm);
            }
        }
        if exists|j: int| 0 <= j < s.len() && s[j].0@ == nm {
            let j = choose|j: int| 0 <= j < s.len() && s[j].0@ == nm;
            if j < s.len() - 1 {
                assert(s.drop_last()[j].0@ == nm);
            }
        }
    }
}

/// In a duplicate-free list, the entry carrying a name gives its store.
pub proof fn lemma_collections_value(s: Seq<(String, VectorStore)>, j: int)
    requires
        distinct_names(s),
        0 <= j < s.len(),
    ensures
        collections_of(s).contains_key(s[j].0@),
        collections_of(s)[s[j].0@] == s[j].1,
    decreases s.len(),
{
    lemma_collections_contains(s, s[j].0@);
    if j == s.len() - 1 {
    } else {
        assert(distinct_names(s.drop_last()));
        assert(s.drop_last()[j] == s[j]);
        lemma_collections_value(s.drop_last(), j);
        assert(s[j].0@ != s.last().0@);
    }
}

proof fn lemma_collections_update(s: Seq<(String, VectorStore)>, i: int, p: (String, VectorStore))
    requires
        distinct_names(s),
        0 <= i < s.len(),
        p.0@ == s[i].0@,
    ensures
        collections_of(s.update(i, p)) == collections_of(s).insert(p.0@, p.1),
        distinct_names(s.update(i, p)),
    decreases s.len(),
{
    let nm = s[i].0@;
    let t = s.update(i, p);
    assert forall|a: int, b: int| 0 <= a < b < t.len() implies t[a].0@ != t[b].0@ by {
        assert(t[a].0@ == s[a].0@);
        assert(t[b].0@ == s[b].0@);
    }
    if i == s.len() - 1 {
        assert(t.drop_last() =~= s.drop_last());
        assert(t.last() == p);
        assert(collections_of(s.drop_last()).insert(nm, s[i].1).insert(nm, p.1) =~= collections_of(
            s.drop_last(),
        ).insert(nm, p.1));
    } else {
        assert(t.drop_last() =~= s.drop_last().update(i, p));
        assert(t.last() == s.last());
        assert(distinct_names(s.drop_last()));
        assert(s.drop_last()[i] == s[i]);
        lemma_collections_update(s.drop_last(), i, p);
        assert(nm != s.last().0@);
        assert(collections_of(s.drop_last()).insert(nm, p.1).insert(s.last().0@, s.last().1)
            =~= collections_of(s.drop_last()).insert(s.last().0@, s.last().1).insert(nm, p.1));
    }
}

/// Zero or more named vector stores; the single entry point of the
/// library.
pub struct CollectionRegistry {
    collections: Vec<(String, VectorStore)>,
}

impl CollectionRegistry {
    /// Well-formedness: names are unique and every store is well-formed.
    pub closed spec fn wf(self) -> bool {
        &&& distinct_names(self.collections@)
        &&& forall|i: int| 0 <= i < self.collections@.len() ==> (#[trigger] self.collections@[i].1).wf()
    }

    /// The mapping from collection name to its store.
    pub closed spec fn collections(self) -> Map<Seq<char>, VectorStore> {
        collections_of(self.collections@)
    }

    /// Creates a registry with no collections.
    pub fn new() -> (r: CollectionRegistry)
        ensures
            r.wf(),
            r.collections() == Map::<Seq<char>, VectorStore>::empty(),
    {
        CollectionRegistry { collections: Vec::new() }
    }

    fn find(&self, name: &String) -> (r: Option<usize>)
        ensures
            match r {
                Some(i) => i < self.collections@.len() && self.collections@[i as int].0@ == name@,
                None => forall|j: int|
                    0 <= j < self.collections@.len() ==> self.collections@[j].0@ != name@,
            },
    {
        let n = self.collections.len();
        let mut i: usize = 0;
        while i < n
            invariant
                n == self.collections@.len(),
                0 <= i <= n,
                forall|j: int| 0 <= j < i ==> self.collections@[j].0@ != name@,
            decreases n - i,
        {
            if self.collections[i].0 == *name {
                return Some(i);
            }
            i = i + 1;
        }
        None
    }

    /// Registers a new, empty store under `name`.  If the name is
    /// already registered the store is replaced and every entry it held
    /// is discarded.
    pub fn add_collection(&mut self, name: String)
        requires
            old(self).wf(),
        ensures
            final(self).wf(),
            final(self).collections().contains_key(name@),
            final(self).collections()[name@].wf(),
            final(self).collections()[name@].contents() == Map::<DocumentId, Seq<i16>>::empty(),
            forall|nm: Seq<char>|
                nm != name@ ==> (final(self).collections().contains_key(nm) <==> old(
                    self,
                ).collections().contains_key(nm)),
            forall|nm: Seq<char>|
                nm != name@ && old(self).collections().contains_key(nm)
                    ==> final(self).collections()[nm] == old(self).collections()[nm],
    {
        let ghost s0 = self.collections@;
        let fresh = VectorStore::new();
        match self.find(&name) {
            Some(i) => {
                self.collections[i] = (name, fresh);
                proof {
                    let p = self.collections@[i as int];
                    assert(self.collections@ == s0.update(i as int, p));
                    lemma_collections_update(s0, i as int, p);
                    lemma_collections_value(self.collections@, i as int);
                    assert forall|l: int| 0 <= l < self.collections@.len() implies (
                    #[trigger] self.collections@[l].1).wf() by {
                        if l != i {
                            assert(self.collections@[l] == s0[l]);
                        }
                    }
                }
            },
            None => {
                self.collections.push((name, fresh));
                proof {
                    assert(self.collections@.drop_last() =~= s0);
                    assert forall|a: int, b: int|
                        0 <= a < b < self.collections@.len() implies self.collections@[a].0@
                        != self.collections@[b].0@ by {
                        assert(self.collections@[a] == s0[a]);
                        if b < self.collections@.len() - 1 {
                            assert(self.collections@[b] == s0[b]);
                        }
                    }
                    assert forall|l: int| 0 <= l < self.collections@.len() implies (
                    #[trigger] self.collections@[l].1).wf() by {
                        if l < self.collections@.len() - 1 {
                            assert(self.collections@[l] == s0[l]);
                        }
                    }
                }
            },
        }
    }

    /// Looks a collection up by its exact name; absent when it was
    /// never registered.
    pub fn get_collection(&self, name: &String) -> (r: Option<&VectorStore>)
        requires
            self.wf(),
        ensures
            match r {
                Some(st) => self.collections().contains_key(name@) && *st == self.collections()[
                    name@] && st.wf(),
                None => !self.collections().contains_key(name@),
            },
    {
        proof {
            lemma_collections_contains(self.collections@, name@);
        }
        match self.find(name) {
            Some(i) => {
                proof {
                    lemma_collections_value(self.collections@, i as int);
                }
                Some(&self.collections[i].1)
            },
            None => None,
        }
    }

    /// Inserts or replaces `id`'s vector in the named collection.
    /// Returns whether the collection was registered; when it was not,
    /// nothing changes.
    pub fn add_or_update(&mut self, name: &String, id: DocumentId, vector: Vec<i16>) -> (found:
        bool)
        requires
            old(self).wf(),
        ensures
            final(self).wf(),
            found == old(self).collections().contains_key(name@),
            !found ==> final(self).collections() == old(self).collections(),
            found ==> final(self).collections()[name@].contents() == old(self).collections()[
                name@].contents().insert(id, vector@),
            forall|nm: Seq<char>|
                (final(self).collections().contains_key(nm) <==> old(self).collections().contains_key(nm)),
            forall|nm: Seq<char>|
                nm != name@ && old(self).collections().contains_key(nm) ==> final(self).collections()[nm] == old(self).collections()[nm],
    {
        let ghost s0 = self.collections@;
        proof {
            lemma_collections_contains(s0, name@);
        }
        match self.find(name) {
            Some(i) => {
                proof {
                    lemma_collections_value(s0, i as int);
                }
                let mut pair = self.collections.remove(i);
                pair.1.add_or_update(id, vector);
                self.collections.insert(i, pair);
                proof {
                    let p = self.collections@[i as int];
                    assert(self.collections@ =~= s0.update(i as int, p));
                    assert(p.0@ == name@);
                    lemma_collections_update(s0, i as int, p);
                    lemma_collections_value(self.collections@, i as int);
                    assert forall|l: int| 0 <= l < self.collections@.len() implies (
                    #[trigger] self.collections@[l].1).wf() by {
                        if l != i {
                            assert(self.collections@[l] == s0[l]);
                        }
                    }
                }
                true
            },
            None => false,
        }
    }

    /// Deletes `id`'s entry in the named collection.  Returns whether
    /// the collection was registered; an absent collection or an absent
    /// id is a no-op, not an error.
    pub fn remove(&mut self, name: &String, id: DocumentId) -> (found: bool)
        requires
            old(self).wf(),
        ensures
            final(self).wf(),
            found == old(self).collections().contains_key(name@),
            !found ==> final(self).collections() == old(self).collections(),
            found ==> final(self).collections()[name@].contents() == old(self).collections()[
                name@].contents().remove(id),
            forall|nm: Seq<char>|
                (final(self).collections().contains_key(nm) <==> old(self).collections().contains_key(nm)),
            forall|nm: Seq<char>|
                nm != name@ && old(self).collections().contains_key(nm) ==> final(self).collections()[nm] == old(self).collections()[nm],
    {
        let ghost s0 = self.collections@;
        proof {
            lemma_collections_contains(s0, name@);
        }
        match self.find(name) {
            Some(i) => {
                proof {
                    lemma_collections_value(s0, i as int);
                }
                let mut pair = self.collections.remove(i);
                pair.1.remove(id);
                self.collections.insert(i, pair);
                proof {
                    let p = self.collections@[i as int];
                    assert(self.collections@ =~= s0.update(i as int, p));
                    assert(p.0@ == name@);
                    lemma_collections_update(s0, i as int, p);
                    lemma_collections_value(self.collections@, i as int);
                    assert forall|l: int| 0 <= l < self.collections@.len() implies (
                    #[trigger] self.collections@[l].1).wf() by {
                        if l != i {
                            assert(self.collections@[l] == s0[l]);
                        }
                    }
                }
                true
            },
            None => false,
        }
    }

    /// Fetches the vector stored under `id` in the named collection;
    /// absent when the collection is unregistered or holds no such id.
    pub fn get(&self, name: &String, id: DocumentId) -> (r: Option<&Vec<i16>>)
        requires
            self.wf(),
        ensures
            match r {
                Some(v) => self.collections().contains_key(name@) && self.collections()[
                    name@].contents().contains_key(id) && v@ == self.collections()[
                    name@].contents()[id],
                None => !self.collections().contains_key(name@) || !self.collections()[
                    name@].contents().contains_key(id),
            },
    {
        proof {
            lemma_collections_contains(self.collections@, name@);
        }
        match self.find(name) {
            Some(i) => {
                proof {
                    lemma_collections_value(self.collections@, i as int);
                }
                self.collections[i].1.get(id)
            },
            None => None,
        }
    }

    /// Runs a top-k search in the named collection; absent when the
    /// name is not registered, which a caller can tell apart from a
    /// registered collection returning no hits.
    pub fn search_in_collection(&self, name: &String, query: &Vec<i16>, k: usize) -> (r: Option<
        Vec<ScoredResult>,
    >)
        requires
            self.wf(),
            query@.len() <= MAX_DIM,
        ensures
            r is Some <==> self.collections().contains_key(name@),
            match r {
                Some(hits) => search_post(
                    self.collections()[name@].contents(),
                    query@,
                    k as int,
                    hits@,
                ),
                None => true,
            },
    {
        proof {
            lemma_collections_contains(self.collections@, name@);
        }
        match self.find(name) {
            Some(i) => {
                proof {
                    lemma_collections_value(self.collections@, i as int);
                }
                Some(self.collections[i].1.search(query, k))
            },
            None => None,
        }
    }
}

} // verus!
