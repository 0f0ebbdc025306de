use vectordb::similarity::SIM_SCALE;
use vectordb::store::DocumentId;
use vectordb::store::VectorStore;

fn id(raw: u128) -> DocumentId {
    DocumentId { raw }
}

#[test]
fn two_matching_documents_ranked_descending() {
    let mut st = VectorStore::new();
    st.add_or_update(id(1), vec![1, 2, 3]);
    st.add_or_update(id(2), vec![4, 5, 6]);
    let hits = st.search(&vec![1i16, 1, 1], 2);
    assert_eq!(hits.len(), 2);
    assert_eq!(hits[0].id, id(2));
    assert_eq!(hits[0].score, 9869);
    assert_eq!(hits[1].id, id(1));
    assert_eq!(hits[1].score, 9258);
}

#[test]
fn fewer_qualifying_than_k() {
    let mut st = VectorStore::new();
    st.add_or_update(id(1), vec![1, 0, 0]);
    st.add_or_update(id(2), vec![0, 1, 0]);
    let hits = st.search(&vec![1i16, 1, 1], 3);
    assert_eq!(hits.len(), 2);
    // both basis vectors make the same angle with the query
    assert_eq!(hits[0].score, hits[1].score);
    assert_eq!(hits[0].score, 5773);
}

#[test]
fn empty_store_gives_empty_result() {
    let st = VectorStore::new();
    let hits = st.search(&vec![1i16, 2], 5);
    assert!(hits.is_empty());
}

#[test]
fn dimension_mismatch_is_excluded_silently() {
    let mut st = VectorStore::new();
    st.add_or_update(id(1), vec![1, 2, 3]);
    let hits = st.search(&vec![1i16, 1], 5);
    assert!(hits.is_empty());
}

#[test]
fn mixed_dimensions_only_matching_scored() {
    let mut st = VectorStore::new();
    st.add_or_update(id(1), vec![1, 2, 3]);
    st.add_or_update(id(2), vec![1, 2]);
    st.add_or_update(id(3), vec![1]);
    let hits = st.search(&vec![1i16, 1, 1], 10);
    assert_eq!(hits.len(), 1);
    assert_eq!(hits[0].id, id(1));
}

#[test]
fn zero_vector_scores_exactly_zero() {
    let mut st = VectorStore::new();
    st.add_or_update(id(1), vec![0, 0, 0]);
    let hits = st.search(&vec![1i16, 1, 1], 3);
    assert_eq!(hits.len(), 1);
    assert_eq!(hits[0].score, 0);
}

#[test]
fn truncates_to_k_best() {
    let mut st = VectorStore::new();
    st.add_or_update(id(1), vec![1, 2, 3]);
    st.add_or_update(id(2), vec![4, 5, 6]);
    st.add_or_update(id(3), vec![1, 1, 1]);
    let hits = st.search(&vec![1i16, 1, 1], 2);
    assert_eq!(hits.len(), 2);
    assert_eq!(hits[0].id, id(3));
    assert_eq!(hits[0].score, SIM_SCALE);
    assert_eq!(hits[1].id, id(2));
    assert_eq!(hits[1].score, 9869);
}

#[test]
fn k_zero_gives_empty_result() {
    let mut st = VectorStore::new();
    st.add_or_update(id(1), vec![1, 2, 3]);
    let hits = st.search(&vec![1i16, 1, 1], 0);
    assert!(hits.is_empty());
}

#[test]
fn negative_correlation_ranks_last() {
    let mut st = VectorStore::new();
    st.add_or_update(id(1), vec![-1, -1]);
    st.add_or_update(id(2), vec![1, 1]);
    st.add_or_update(id(3), vec![1, -1]);
    let hits = st.search(&vec![1i16, 1], 3);
    assert_eq!(hits.len(), 3);
    assert_eq!(hits[0].id, id(2));
    assert_eq!(hits[0].score, SIM_SCALE);
    assert_eq!(hits[1].id, id(3));
    assert_eq!(hits[1].score, 0);
    assert_eq!(hits[2].id, id(1));
    assert_eq!(hits[2].score, -SIM_SCALE);
}
