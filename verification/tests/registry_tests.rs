use vectordb::registry::CollectionRegistry;
use vectordb::store::DocumentId;

fn id(raw: u128) -> DocumentId {
    DocumentId { raw }
}

#[test]
fn unregistered_collection_search_is_absent() {
    let db = CollectionRegistry::new();
    let r = db.search_in_collection(&"missing".to_string(), &vec![1i16, 1], 3);
    assert!(r.is_none());
}

#[test]
fn registered_empty_collection_search_is_present_and_empty() {
    let mut db = CollectionRegistry::new();
    db.add_collection("docs".to_string());
    let r = db.search_in_collection(&"docs".to_string(), &vec![1i16, 1], 3);
    assert_eq!(r.unwrap().len(), 0);
}

#[test]
fn add_or_update_routes_to_named_collection() {
    let mut db = CollectionRegistry::new();
    db.add_collection("a".to_string());
    db.add_collection("b".to_string());
    assert!(db.add_or_update(&"a".to_string(), id(1), vec![1, 2, 3]));
    assert!(db.add_or_update(&"b".to_string(), id(2), vec![4, 5, 6]));
    assert_eq!(db.get(&"a".to_string(), id(1)).unwrap(), &vec![1i16, 2, 3]);
    assert!(db.get(&"a".to_string(), id(2)).is_none());
    assert_eq!(db.get(&"b".to_string(), id(2)).unwrap(), &vec![4i16, 5, 6]);
}

#[test]
fn add_or_update_on_missing_collection_reports_false() {
    let mut db = CollectionRegistry::new();
    assert!(!db.add_or_update(&"nope".to_string(), id(1), vec![1]));
    assert!(db.get(&"nope".to_string(), id(1)).is_none());
}

#[test]
fn remove_routes_and_tolerates_absence() {
    let mut db = CollectionRegistry::new();
    db.add_collection("a".to_string());
    db.add_or_update(&"a".to_string(), id(1), vec![1, 2]);
    assert!(db.remove(&"a".to_string(), id(1)));
    assert!(db.get(&"a".to_string(), id(1)).is_none());
    assert!(db.remove(&"a".to_string(), id(1)));
    assert!(!db.remove(&"zzz".to_string(), id(1)));
}

#[test]
fn reregistering_discards_prior_entries() {
    let mut db = CollectionRegistry::new();
    db.add_collection("a".to_string());
    db.add_or_update(&"a".to_string(), id(1), vec![1, 2]);
    db.add_collection("a".to_string());
    assert!(db.get(&"a".to_string(), id(1)).is_none());
}

#[test]
fn get_collection_lookup() {
    let mut db = CollectionRegistry::new();
    db.add_collection("a".to_string());
    assert!(db.get_collection(&"a".to_string()).is_some());
    assert!(db.get_collection(&"b".to_string()).is_none());
    db.add_or_update(&"a".to_string(), id(9), vec![2, 0]);
    let st = db.get_collection(&"a".to_string()).unwrap();
    let hits = st.search(&vec![1i16, 0], 5);
    assert_eq!(hits.len(), 1);
    assert_eq!(hits[0].id, id(9));
    assert_eq!(hits[0].score, 10000);
}

#[test]
fn search_in_collection_ranks_descending() {
    let mut db = CollectionRegistry::new();
    db.add_collection("notary".to_string());
    db.add_or_update(&"notary".to_string(), id(1), vec![1, 2, 3]);
    db.add_or_update(&"notary".to_string(), id(2), vec![4, 5, 6]);
    let hits = db.search_in_collection(&"notary".to_string(), &vec![1i16, 1, 1], 3).unwrap();
    assert_eq!(hits.len(), 2);
    assert_eq!(hits[0].id, id(2));
    assert_eq!(hits[1].id, id(1));
    assert!(hits[0].score >= hits[1].score);
}

#[test]
fn collections_are_independent() {
    let mut db = CollectionRegistry::new();
    db.add_collection("a".to_string());
    db.add_collection("b".to_string());
    db.add_or_update(&"a".to_string(), id(1), vec![1, 1]);
    let hits_b = db.search_in_collection(&"b".to_string(), &vec![1i16, 1], 5).unwrap();
    assert!(hits_b.is_empty());
    let hits_a = db.search_in_collection(&"a".to_string(), &vec![1i16, 1], 5).unwrap();
    assert_eq!(hits_a.len(), 1);
}
