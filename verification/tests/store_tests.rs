use vectordb::store::DocumentId;
use vectordb::store::VectorStore;

fn id(raw: u128) -> DocumentId {
    DocumentId { raw }
}

#[test]
fn round_trip_returns_exact_vector() {
    let mut st = VectorStore::new();
    let v: Vec<i16> = vec![1, -2, 32767, -32768];
    st.add_or_update(id(7), v.clone());
    assert_eq!(st.get(id(7)).unwrap(), &v);
}

#[test]
fn get_absent_is_none() {
    let st = VectorStore::new();
    assert!(st.get(id(1)).is_none());
}

#[test]
fn add_or_update_overwrites() {
    let mut st = VectorStore::new();
    st.add_or_update(id(1), vec![1, 2, 3]);
    st.add_or_update(id(1), vec![9, 9]);
    assert_eq!(st.get(id(1)).unwrap(), &vec![9i16, 9]);
}

#[test]
fn add_or_update_is_idempotent() {
    let mut st = VectorStore::new();
    st.add_or_update(id(4), vec![5, 6]);
    st.add_or_update(id(4), vec![5, 6]);
    assert_eq!(st.get(id(4)).unwrap(), &vec![5i16, 6]);
    // a repeated identical call leaves a single entry, not two
    let hits = st.search(&vec![1i16, 1], 10);
    assert_eq!(hits.len(), 1);
    assert_eq!(hits[0].id, id(4));
}

#[test]
fn remove_then_get_is_absent() {
    let mut st = VectorStore::new();
    st.add_or_update(id(2), vec![1, 1]);
    st.remove(id(2));
    assert!(st.get(id(2)).is_none());
}

#[test]
fn remove_absent_is_a_no_op() {
    let mut st = VectorStore::new();
    st.add_or_update(id(2), vec![1, 1]);
    st.remove(id(3));
    assert_eq!(st.get(id(2)).unwrap(), &vec![1i16, 1]);
}

#[test]
fn heterogeneous_dimensions_coexist() {
    let mut st = VectorStore::new();
    st.add_or_update(id(1), vec![1]);
    st.add_or_update(id(2), vec![1, 2]);
    st.add_or_update(id(3), vec![1, 2, 3]);
    assert_eq!(st.get(id(1)).unwrap().len(), 1);
    assert_eq!(st.get(id(2)).unwrap().len(), 2);
    assert_eq!(st.get(id(3)).unwrap().len(), 3);
}
