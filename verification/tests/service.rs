use price_store::api::{
    create_price, delete_price, get_price_by_id, get_prices, update_price_by_id, ApiError,
};
use price_store::store::PriceStore;

#[test]
fn get_prices_test() {
    let mut store = PriceStore::new();
    create_price(&mut store, 355);

    let prices = get_prices(&store);

    assert_eq!(prices.len(), 1);
    assert_eq!(prices, vec![355]);
}

#[test]
fn get_price_by_id_test() {
    let mut store = PriceStore::new();
    let id_text = create_price(&mut store, 355);

    let response = get_price_by_id(&store, &id_text);

    assert!(response.is_ok());
    assert_eq!(response, Ok(355));
}

#[test]
fn get_not_found_price_by_id_test() {
    let store = PriceStore::new();
    let never_created = uuid::Uuid::new_v4().to_string();

    let response = get_price_by_id(&store, &never_created);

    assert_eq!(response, Err(ApiError::NotFound));
    assert_eq!(response.err().unwrap().status_code(), 404);
}

#[test]
fn patch_price_by_id_test() {
    let mut store = PriceStore::new();
    let id_text = create_price(&mut store, 355);

    let patched = update_price_by_id(&mut store, &id_text, 235);
    assert_eq!(patched, Ok(()));

    let response = get_price_by_id(&store, &id_text);
    assert!(response.is_ok());
    assert_eq!(response, Ok(235));
}

#[test]
fn delete_price_test() {
    let mut store = PriceStore::new();
    let id_text = create_price(&mut store, 355);

    let deleted = delete_price(&mut store, &id_text);
    assert_eq!(deleted, Ok(()));

    let response = get_price_by_id(&store, &id_text);
    assert_eq!(response, Err(ApiError::NotFound));
}

#[test]
fn delete_is_not_idempotent_test() {
    let mut store = PriceStore::new();
    let id_text = create_price(&mut store, 355);

    assert_eq!(delete_price(&mut store, &id_text), Ok(()));
    assert_eq!(delete_price(&mut store, &id_text), Err(ApiError::NotFound));

    let never_created = uuid::Uuid::new_v4().to_string();
    assert_eq!(delete_price(&mut store, &never_created), Err(ApiError::NotFound));
}

#[test]
fn create_many_distinct_ids_test() {
    let mut store = PriceStore::new();
    let n: u64 = 5;
    let mut ids: Vec<String> = Vec::new();
    for k in 0..n {
        ids.push(create_price(&mut store, 100 + k));
    }

    for i in 0..ids.len() {
        for j in 0..ids.len() {
            if i != j {
                assert_ne!(ids[i], ids[j]);
            }
        }
    }

    for (k, id_text) in ids.iter().enumerate() {
        assert_eq!(get_price_by_id(&store, id_text), Ok(100 + k as u64));
    }

    let mut prices = get_prices(&store);
    assert_eq!(prices.len(), 5);
    prices.sort();
    assert_eq!(prices, vec![100, 101, 102, 103, 104]);
}

#[test]
fn bad_request_id_test() {
    let mut store = PriceStore::new();
    create_price(&mut store, 355);

    let malformed = "not-an-identifier";
    assert_eq!(get_price_by_id(&store, malformed), Err(ApiError::BadRequest));
    assert_eq!(update_price_by_id(&mut store, malformed, 1), Err(ApiError::BadRequest));
    assert_eq!(delete_price(&mut store, malformed), Err(ApiError::BadRequest));
    assert_eq!(ApiError::BadRequest.status_code(), 400);

    assert_eq!(get_prices(&store).len(), 1);
}

#[test]
fn update_missing_leaves_table_alone_test() {
    let mut store = PriceStore::new();
    let id_text = create_price(&mut store, 355);

    let never_created = uuid::Uuid::new_v4().to_string();
    assert_eq!(update_price_by_id(&mut store, &never_created, 7), Err(ApiError::NotFound));

    assert_eq!(get_price_by_id(&store, &id_text), Ok(355));
    assert_eq!(get_prices(&store), vec![355]);
}
