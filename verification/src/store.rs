//! A `VectorStore`: a mapping from document identifier to feature
//! vector, modelled as a `Map<DocumentId, Seq<i16>>`.
//!
//! Keys are unique; `add_or_update` overwrites, `remove` of an absent
//! key is a no-op, and stored vectors are returned exactly as inserted.

use vstd::prelude::*;

use crate::similarity::MAX_DIM;
use crate::similarity::score_of;
use crate::similarity::similarity;

verus! {

/// An opaque 128-bit document identifier, assigned by the caller and
/// used only as a lookup key.
#[derive(Clone, Copy, PartialEq, Eq, Structural, Debug)]
pub struct DocumentId {
    pub raw: u128,
}

/// One ranked search hit: a document identifier with its similarity
/// score in units of `1 / SIM_SCALE`.
#[derive(Clone, Copy, PartialEq, Eq, Structural, Debug)]
pub struct ScoredResult {
    pub id: DocumentId,
    pub score: i64,
}

/// The mapping an association list denotes: later entries win, though a
/// well-formed store never holds a key twice.
pub open spec fn contents_of(s: Seq<(DocumentId, Vec<i16>)>) -> Map<DocumentId, Seq<i16>>
    decreases s.len(),
{
    if s.len() == 0 {
        Map::empty()
    } else {
        contents_of(s.drop_last()).insert(s.last().0, s.last().1@)
    }
}

/// No two entries share an identifier.
pub open spec fn distinct_ids(s: Seq<(DocumentId, Vec<i16>)>) -> bool {
    forall|i: int, j: int| 0 <= i < j < s.len() ==> s[i].0 != s[j].0
}

/// A key is in the denoted map exactly when some entry carries it.
pub proof fn lemma_contents_contains(s: Seq<(DocumentId, Vec<i16>)>, id: DocumentId)
    ensures
        contents_of(s).contains_key(id) <==> exists|j: int| 0 <= j < s.len() && s[j].0 == id,
    decreases s.len(),
{
    if s.len() == 0 {
    } else {
        lemma_contents_contains(s.drop_last(), id);
        if contents_of(s).contains_key(id) {
            if s.last().0 == id {
                assert(s[s.len() - 1].0 == id);
            } else {
                let j = choose|j: int| 0 <= j < s.len() - 1 && s.drop_last()[j].0 == id;
                assert(s[j].0 == id);
            }
        }
        if exists|j: int| 0 <= j < s.len() && s[j].0 == id {
            let j = choose|j: int| 0 <= j < s.len() && s[j].0 == id;
            if j < s.len() - 1 {
                assert(s.drop_last()[j].0 == id);
            }
        }
    }
}

/// In a duplicate-free list, the entry carrying a key gives its value.
pub proof fn lemma_contents_value(s: Seq<(DocumentId, Vec<i16>)>, j: int)
    requires
        distinct_ids(s),
        0 <= j < s.len(),
    ensures
        contents_of(s).contains_key(s[j].0),
        contents_of(s)[s[j].0] == s[j].1@,
    decreases s.len(),
{
    lemma_contents_contains(s, s[j].0);
    if j == s.len() - 1 {
    } else {
        assert(distinct_ids(s.drop_last()));
        assert(s.drop_last()[j] == s[j]);
        lemma_contents_value(s.drop_last(), j);
        assert(s[j].0 != s.last().0);
    }
}

proof fn lemma_contents_update(s: Seq<(DocumentId, Vec<i16>)>, i: int, v: Vec<i16>)
    requires
        distinct_ids(s),
        0 <= i < s.len(),
    ensures
        contents_of(s.update(i, (s[i].0, v))) == contents_of(s).insert(s[i].0, v@),
    decreases s.len(),
{
    let id = s[i].0;
    let t = s.update(i, (id, v));
    if i == s.len() - 1 {
        assert(t.drop_last() =~= s.drop_last());
        assert(t.last() == (id, v));
        assert(contents_of(t) == contents_of(s.drop_last()).insert(id, v@));
        assert(contents_of(s.drop_last()).insert(id, s[i].1@).insert(id, v@) =~= contents_of(
            s.drop_last(),
        ).insert(id, v@));
    } else {
        assert(t.drop_last() =~= s.drop_last().update(i, (id, v)));
        assert(t.last() == s.last());
        assert(distinct_ids(s.drop_last()));
        assert(s.drop_last()[i] == s[i]);
        lemma_contents_update(s.drop_last(), i, v);
        assert(id != s.last().0);
        assert(contents_of(s.drop_last()).insert(id, v@).insert(s.last().0, s.last().1@)
            =~= contents_of(s.drop_last()).insert(s.last().0, s.last().1@).insert(id, v@));
    }
}

proof fn lemma_contents_remove(s: Seq<(DocumentId, Vec<i16>)>, i: int)
    requires
        distinct_ids(s),
        0 <= i < s.len(),
    ensures
        contents_of(s.remove(i)) == contents_of(s).remove(s[i].0),
        distinct_ids(s.remove(i)),
    decreases s.len(),
{
    let id = s[i].0;
    let t = s.remove(i);
    s.remove_ensures(i);
    assert(distinct_ids(t));
    if i == s.len() - 1 {
        assert(t =~= s.drop_last());
        lemma_contents_contains(s.drop_last(), id);
        assert(forall|j: int| 0 <= j < s.len() - 1 ==> s[j].0 != id);
        assert(!contents_of(s.drop_last()).contains_key(id));
        assert(contents_of(s.drop_last()).insert(id, s[i].1@).remove(id) =~= contents_of(
            s.drop_last(),
        ));
    } else {
        assert(t.drop_last() =~= s.drop_last().remove(i));
        assert(t.last() == s.last());
        assert(distinct_ids(s.drop_last()));
        assert(s.drop_last()[i] == s[i]);
        lemma_contents_remove(s.drop_last(), i);
        assert(id != s.last().0);
        assert(contents_of(s.drop_last()).remove(id).insert(s.last().0, s.last().1@)
            =~= contents_of(s.drop_last()).insert(s.last().0, s.last().1@).remove(id));
    }
}

/// A named set of documents and their feature vectors.
pub struct VectorStore {
    entries: Vec<(DocumentId, Vec<i16>)>,
}

impl VectorStore {
    /// The store's well-formedness: no identifier appears twice.
    pub closed spec fn wf(self) -> bool {
        distinct_ids(self.entries@)
    }

    /// The mapping the store holds.
    pub closed spec fn contents(self) -> Map<DocumentId, Seq<i16>> {
        contents_of(self.entries@)
    }

    /// Creates an empty store.
    pub fn new() -> (s: VectorStore)
        ensures
            s.wf(),
            s.contents() == Map::<DocumentId, Seq<i16>>::empty(),
    {
        VectorStore { entries: Vec::new() }
    }

    fn find(&self, id: DocumentId) -> (r: Option<usize>)
        ensures
            match r {
                Some(i) => i < self.entries@.len() && self.entries@[i as int].0 == id,
                None => forall|j: int| 0 <= j < self.entries@.len() ==> self.entries@[j].0 != id,
            },
    {
        let n = self.entries.len();
        let mut i: usize = 0;
        while i < n
            invariant
                n == self.entries@.len(),
                0 <= i <= n,
                forall|j: int| 0 <= j < i ==> self.entries@[j].0 != id,
            decreases n - i,
        {
            if self.entries[i].0 == id {
                return Some(i);
            }
            i = i + 1;
        }
        None
    }

    /// Inserts a vector under `id`, replacing whatever the store held
    /// for it before.  Never fails; dimensions need not agree with any
    /// other entry.
    pub fn add_or_update(&mut self, id: DocumentId, vector: Vec<i16>)
        requires
            old(self).wf(),
        ensures
            final(self).wf(),
            final(self).contents() == old(self).contents().insert(id, vector@),
    {
        let ghost s0 = self.entries@;
        match self.find(id) {
            Some(i) => {
                self.entries[i] = (id, vector);
                proof {
                    let newv = self.entries@[i as int].1;
                    assert(s0[i as int].0 == id);
                    assert(self.entries@ == s0.update(i as int, (s0[i as int].0, newv)));
                    lemma_contents_update(s0, i as int, newv);
                    assert forall|a: int, b: int|
                        0 <= a < b < self.entries@.len() implies self.entries@[a].0
                        != self.entries@[b].0 by {
                        assert(self.entries@[a].0 == s0[a].0);
                        assert(self.entries@[b].0 == s0[b].0);
                    }
                }
            },
            None => {
                self.entries.push((id, vector));
                proof {
                    assert(self.entries@.drop_last() =~= s0);
                    assert(self.entries@.last().0 == id);
                    assert forall|a: int, b: int|
                        0 <= a < b < self.entries@.len() implies self.entries@[a].0
                        != self.entries@[b].0 by {
                        if b < self.entries@.len() - 1 {
                            assert(self.entries@[a] == s0[a]);
                            assert(self.entries@[b] == s0[b]);
                        } else {
                            assert(self.entries@[a] == s0[a]);
                            assert(self.entries@[b].0 == id);
                        }
                    }
                }
            },
        }
    }

    /// Looks the vector for `id` up; `None` when absent.  No side
    /// effects, and the returned vector is exactly the one stored.
    pub fn get(&self, id: DocumentId) -> (r: Option<&Vec<i16>>)
        requires
            self.wf(),
        ensures
            match r {
                Some(v) => self.contents().contains_key(id) && v@ == self.contents()[id],
                None => !self.contents().contains_key(id),
            },
    {
        proof {
            lemma_contents_contains(self.entries@, id);
        }
        match self.find(id) {
            Some(i) => {
                proof {
                    lemma_contents_value(self.entries@, i as int);
                }
                Some(&self.entries[i].1)
            },
            None => None,
        }
    }

    /// Deletes the entry for `id`; a no-op when it is absent.
    pub fn remove(&mut self, id: DocumentId)
        requires
            old(self).wf(),
        ensures
            final(self).wf(),
            final(self).contents() == old(self).contents().remove(id),
    {
        let ghost s0 = self.entries@;
        match self.find(id) {
            Some(i) => {
                self.entries.remove(i);
                proof {
                    lemma_contents_remove(s0, i as int);
                }
            },
            None => {
                proof {
                    lemma_contents_contains(s0, id);
                    assert(contents_of(s0).remove(id) =~= contents_of(s0));
                }
            },
        }
    }
}

/// Storing the same vector under the same identifier twice leaves the
/// store exactly as one call does.
pub proof fn lemma_add_or_update_idempotent(
    m: Map<DocumentId, Seq<i16>>,
    id: DocumentId,
    v: Seq<i16>,
)
    ensures
        m.insert(id, v).insert(id, v) == m.insert(id, v),
{
    assert(m.insert(id, v).insert(id, v) =~= m.insert(id, v));
}

/// After a removal, a lookup of the same identifier finds nothing.
pub proof fn lemma_remove_then_absent(m: Map<DocumentId, Seq<i16>>, id: DocumentId)
    ensures
        !m.remove(id).contains_key(id),
{
}

/// A vector just inserted is read back exactly, untransformed.
pub proof fn lemma_insert_then_get(m: Map<DocumentId, Seq<i16>>, id: DocumentId, v: Seq<i16>)
    ensures
        m.insert(id, v).contains_key(id),
        m.insert(id, v)[id] == v,
{
}

/// The identifier qualifies for a query: it is stored, and its vector
/// has the query's dimension.
pub open spec fn qualifies(m: Map<DocumentId, Seq<i16>>, q: Seq<i16>, id: DocumentId) -> bool {
    m.contains_key(id) && m[id].len() == q.len()
}

/// The stored identifiers whose vectors have the query's dimension.
pub open spec fn qualifying_ids(m: Map<DocumentId, Seq<i16>>, q: Seq<i16>) -> Set<DocumentId> {
    m.dom().filter(|id: DocumentId| m[id].len() == q.len())
}

/// Scores never increase along the sequence.
pub open spec fn sorted_desc(r: Seq<ScoredResult>) -> bool {
    forall|i: int, j: int| 0 <= i <= j < r.len() ==> r[i].score >= r[j].score
}

/// No identifier is reported twice.
pub open spec fn result_ids_distinct(r: Seq<ScoredResult>) -> bool {
    forall|i: int, j: int| 0 <= i < j < r.len() ==> r[i].id != r[j].id
}

/// Some hit carries this identifier.
pub open spec fn result_has_id(r: Seq<ScoredResult>, id: DocumentId) -> bool {
    exists|i: int| 0 <= i < r.len() && r[i].id == id
}

/// What a top-k search returns: every hit is a stored vector of the
/// query's dimension with its exact score; hits come in non-increasing
/// score order, without repetition; the length is `k` or the number of
/// qualifying entries, whichever is smaller; and an entry is left out
/// only when the result is full of entries scoring at least as high.
pub open spec fn search_post(
    m: Map<DocumentId, Seq<i16>>,
    q: Seq<i16>,
    k: int,
    r: Seq<ScoredResult>,
) -> bool {
    let qc = qualifying_ids(m, q).len() as int;
    &&& r.len() == (if qc <= k { qc } else { k })
    &&& sorted_desc(r)
    &&& result_ids_distinct(r)
    &&& (forall|i: int|
        0 <= i < r.len() ==> qualifies(m, q, #[trigger] r[i].id) && r[i].score == score_of(
            q,
            m[r[i].id],
        ))
    &&& (forall|id: DocumentId|
        #[trigger] qualifies(m, q, id) && !result_has_id(r, id) ==> r.len() == k && (r.len() == 0
            || score_of(q, m[id]) <= r[r.len() - 1].score))
}

impl VectorStore {
    /// Ranks every stored vector of the query's dimension by cosine
    /// similarity, descending, and returns at most `k` hits.  Entries
    /// of any other dimension are silently left out; they are no error.
    pub fn search(&self, query: &Vec<i16>, k: usize) -> (r: Vec<ScoredResult>)
        requires
            self.wf(),
            query@.len() <= MAX_DIM,
        ensures
            search_post(self.contents(), query@, k as int, r@),
    {
        let ghost es = self.entries@;
        let ghost m = self.contents();
        let ghost q = query@;
        let n = self.entries.len();
        let mut res: Vec<ScoredResult> = Vec::new();
        let mut j: usize = 0;
        while j < n
            invariant
                self.wf(),
                es == self.entries@,
                m == self.contents(),
                q == query@,
                q.len() <= MAX_DIM,
                n == es.len(),
                0 <= j <= n,
                sorted_desc(res@),
                result_ids_distinct(res@),
                forall|i: int|
                    0 <= i < res@.len() ==> exists|l: int|
                        0 <= l < j && es[l].0 == #[trigger] res@[i].id,
                forall|i: int|
                    0 <= i < res@.len() ==> qualifies(m, q, #[trigger] res@[i].id)
                        && res@[i].score == score_of(q, m[res@[i].id]),
                forall|l: int|
                    0 <= l < j && (#[trigger] es[l].1)@.len() == q.len() ==> result_has_id(
                        res@,
                        es[l].0,
                    ),
            decreases n - j,
        {
            let e = &self.entries[j];
            if e.1.len() == query.len() {
                let sc = similarity(query, &e.1);
                let x = ScoredResult { id: e.0, score: sc };
                proof {
                    lemma_contents_value(es, j as int);
                    assert(qualifies(m, q, x.id));
                    assert(x.score == score_of(q, m[x.id]));
                    assert forall|i: int| 0 <= i < res@.len() implies res@[i].id != x.id by {
                        let l = choose|l: int| 0 <= l < j && es[l].0 == res@[i].id;
                        assert(es[l].0 != es[j as int].0);
                    }
                }
                let mut idx: usize = 0;
                while idx < res.len() && res[idx].score >= sc
                    invariant
                        0 <= idx <= res@.len(),
                        sorted_desc(res@),
                        forall|t: int| 0 <= t < idx ==> (#[trigger] res@[t]).score >= sc,
                    decreases res@.len() - idx,
                {
                    idx = idx + 1;
                }
                let ghost r0 = res@;
                proof {
                    assert forall|t: int| idx <= t < r0.len() implies (#[trigger] r0[t]).score
                        <= sc by {
                        assert(r0[idx as int].score < sc);
                        assert(r0[t].score <= r0[idx as int].score);
                    }
                    r0.insert_ensures(idx as int, x);
                }
                res.insert(idx, x);
                proof {
                    assert(res@ == r0.insert(idx as int, x));
                    assert(res@.len() == r0.len() + 1);
                    assert forall|a: int, b: int| 0 <= a <= b < res@.len() implies res@[a].score
                        >= res@[b].score by {
                        if a < idx {
                            assert(res@[a] == r0[a]);
                        } else if a > idx {
                            assert(res@[a] == r0[a - 1]);
                        }
                        if b < idx {
                            assert(res@[b] == r0[b]);
                        } else if b > idx {
                            assert(res@[b] == r0[b - 1]);
                        }
                    }
                    assert forall|a: int, b: int| 0 <= a < b < res@.len() implies res@[a].id
                        != res@[b].id by {
                        if a < idx {
                            assert(res@[a] == r0[a]);
                        } else if a > idx {
                            assert(res@[a] == r0[a - 1]);
                        }
                        if b < idx {
                            assert(res@[b] == r0[b]);
                        } else if b > idx {
                            assert(res@[b] == r0[b - 1]);
                        }
                    }
                    assert forall|i: int| 0 <= i < res@.len() implies exists|l: int|
                        0 <= l < j + 1 && es[l].0 == #[trigger] res@[i].id by {
                        if i < idx {
                            assert(res@[i] == r0[i]);
                            let l = choose|l: int| 0 <= l < j && es[l].0 == r0[i].id;
                            assert(0 <= l < j + 1 && es[l].0 == res@[i].id);
                        } else if i == idx {
                            assert(res@[i].id == es[j as int].0);
                            assert(0 <= j < j + 1 && es[j as int].0 == res@[i].id);
                        } else {
                            assert(res@[i] == r0[i - 1]);
                            let l = choose|l: int| 0 <= l < j && es[l].0 == r0[i - 1].id;
                            assert(0 <= l < j + 1 && es[l].0 == res@[i].id);
                        }
                    }
                    assert forall|i: int| 0 <= i < res@.len() implies qualifies(
                        m,
                        q,
                        #[trigger] res@[i].id,
                    ) && res@[i].score == score_of(q, m[res@[i].id]) by {
                        if i < idx {
                            assert(res@[i] == r0[i]);
                        } else if i > idx {
                            assert(res@[i] == r0[i - 1]);
                        }
                    }
                    assert forall|l: int|
                        0 <= l < j + 1 && (#[trigger] es[l].1)@.len() == q.len() implies
                        result_has_id(res@, es[l].0) by {
                        if l < j {
                            assert(result_has_id(r0, es[l].0));
                            let i = choose|i: int| 0 <= i < r0.len() && r0[i].id == es[l].0;
                            if i < idx {
                                assert(res@[i].id == es[l].0);
                            } else {
                                assert(res@[i + 1].id == es[l].0);
                            }
                        } else {
                            assert(res@[idx as int].id == es[l].0);
                        }
                    }
                }
            }
            j = j + 1;
        }
        proof {
            let ids = res@.map_values(|x: ScoredResult| x.id);
            assert forall|a: int, b: int| 0 <= a < b < ids.len() implies ids[a] != ids[b] by {
                assert(ids[a] == res@[a].id);
                assert(ids[b] == res@[b].id);
            }
            assert(ids.no_duplicates());
            assert forall|id: DocumentId|
                qualifying_ids(m, q).contains(id) implies ids.to_set().contains(id) by {
                assert(m.contains_key(id));
                assert(m[id].len() == q.len());
                lemma_contents_contains(es, id);
                let l = choose|l: int| 0 <= l < es.len() && es[l].0 == id;
                lemma_contents_value(es, l);
                assert(es[l].1@ == m[id]);
                assert(es[l].1@.len() == q.len());
                assert(result_has_id(res@, es[l].0));
                let i = choose|i: int| 0 <= i < res@.len() && res@[i].id == id;
                assert(ids[i] == id);
                assert(ids.contains(id));
            }
            assert forall|id: DocumentId|
                ids.to_set().contains(id) implies qualifying_ids(m, q).contains(id) by {
                assert(ids.contains(id));
                let i = choose|i: int| 0 <= i < ids.len() && ids[i] == id;
                assert(res@[i].id == id);
                assert(qualifies(m, q, id));
                assert(m.dom().contains(id));
            }
            assert(ids.to_set() =~= qualifying_ids(m, q));
            ids.unique_seq_to_set();
            assert(res@.len() == qualifying_ids(m, q).len());
        }
        let ghost full = res@;
        if res.len() > k {
            res.truncate(k);
            proof {
                assert(res@ == full.subrange(0, k as int));
                assert(res@.len() == k);
                assert forall|id: DocumentId|
                    #[trigger] qualifies(m, q, id) && !result_has_id(res@, id) implies res@.len()
                    == k as int && (res@.len() == 0 || score_of(q, m[id]) <= res@[res@.len()
                    - 1].score) by {
                    if res@.len() > 0 {
                        lemma_contents_contains(es, id);
                        let l = choose|l: int| 0 <= l < es.len() && es[l].0 == id;
                        lemma_contents_value(es, l);
                        assert(es[l].1@.len() == q.len());
                        assert(result_has_id(full, es[l].0));
                        let i = choose|i: int| 0 <= i < full.len() && full[i].id == id;
                        if i < k {
                            assert(res@[i].id == id);
                            assert(result_has_id(res@, id));
                        } else {
                            assert(full[i].score <= full[k - 1].score);
                            assert(full[i].score == score_of(q, m[id]));
                            assert(res@[k - 1] == full[k - 1]);
                        }
                    }
                }
            }
        } else {
            proof {
                assert forall|id: DocumentId|
                    #[trigger] qualifies(m, q, id) implies result_has_id(res@, id) by {
                    lemma_contents_contains(es, id);
                    let l = choose|l: int| 0 <= l < es.len() && es[l].0 == id;
                    lemma_contents_value(es, l);
                    assert(es[l].1@.len() == q.len());
                }
            }
        }
        res
    }
}

} // verus!
