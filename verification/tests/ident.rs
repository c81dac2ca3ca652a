use price_store::ident::{format_id, parse_id};
use price_store::store::PriceStore;

#[test]
fn format_zero_test() {
    assert_eq!(format_id(0), "00000000-0000-0000-0000-000000000000");
}

#[test]
fn format_known_value_test() {
    let value: u128 = 0x0123_4567_89ab_cdef_0011_2233_4455_6677;
    assert_eq!(format_id(value), "01234567-89ab-cdef-0011-223344556677");
    assert_eq!(
        format_id(u128::MAX),
        "ffffffff-ffff-ffff-ffff-ffffffffffff"
    );
}

#[test]
fn parse_canonical_test() {
    let value: u128 = 0x0123_4567_89ab_cdef_0011_2233_4455_6677;
    assert_eq!(parse_id("01234567-89ab-cdef-0011-223344556677"), Some(value));
    assert_eq!(parse_id("00000000-0000-0000-0000-000000000000"), Some(0));
}

#[test]
fn parse_accepts_uppercase_test() {
    let value: u128 = 0x0123_4567_89ab_cdef_0011_2233_4455_6677;
    assert_eq!(parse_id("01234567-89AB-CDEF-0011-223344556677"), Some(value));
}

#[test]
fn parse_rejects_malformed_test() {
    assert_eq!(parse_id(""), None);
    assert_eq!(parse_id("01234567-89ab-cdef-0011-22334455667"), None);
    assert_eq!(parse_id("01234567-89ab-cdef-0011-2233445566778"), None);
    assert_eq!(parse_id("0123456789ab-cdef-0011-223344556677-"), None);
    assert_eq!(parse_id("01234567-89ab-cdef-0011-22334455667g"), None);
    assert_eq!(parse_id("01234567_89ab_cdef_0011_223344556677"), None);
}

#[test]
fn round_trip_test() {
    let values: Vec<u128> = vec![0, 1, 0xf, u128::MAX, 0x0123_4567_89ab_cdef_0011_2233_4455_6677];
    for v in values {
        assert_eq!(parse_id(&format_id(v)), Some(v));
    }
}

#[test]
fn agrees_with_generated_identifiers_test() {
    for _ in 0..16 {
        let u = uuid::Uuid::new_v4();
        assert_eq!(format_id(u.as_u128()), u.to_string());
        assert_eq!(parse_id(&u.to_string()), Some(u.as_u128()));
    }
}

#[test]
fn created_id_is_canonical_test() {
    let mut store = PriceStore::new();
    let id_text = price_store::api::create_price(&mut store, 42);
    assert!(parse_id(&id_text).is_some());
    assert_eq!(id_text.len(), 36);
}
