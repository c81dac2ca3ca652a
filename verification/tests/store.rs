use price_store::store::PriceStore;

#[test]
fn store_basic_ops_test() {
    let mut store = PriceStore::new();
    assert_eq!(store.len(), 0);

    let id = store.create(355);
    assert!(store.contains(id));
    assert_eq!(store.len(), 1);
    assert_eq!(store.get(id), Some(355));

    assert!(store.update(id, 235));
    assert_eq!(store.get(id), Some(235));

    assert!(store.delete(id));
    assert_eq!(store.len(), 0);
    assert_eq!(store.get(id), None);
    assert!(!store.contains(id));
    assert!(!store.delete(id));
    assert!(!store.update(id, 1));
}

#[test]
fn list_keeps_duplicate_values_test() {
    let mut store = PriceStore::new();
    store.create(5);
    store.create(5);
    store.create(3);

    let mut values = store.list();
    values.sort();
    assert_eq!(values, vec![3, 5, 5]);
}
