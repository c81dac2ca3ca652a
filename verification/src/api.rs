//! The request-level operations: each one takes the parsed pieces of a
//! request, performs its single table operation, and reports the
//! outcome that the transport layer surfaces as a status code.

use vstd::prelude::*;

verus! {

use crate::ident::{format_id, lemma_id_round_trip, parse_id, spec_parse_id};
use crate::store::{lists_values_of, PriceStore};

/// Why a request fails: an identifier or body that does not parse, or
/// an identifier under which no record exists.
#[derive(Clone, Copy, Debug, PartialEq, Eq, Structural)]
pub enum ApiError {
    BadRequest,
    NotFound,
}

impl ApiError {
    /// The HTTP status code that surfaces this failure.
    pub fn status_code(&self) -> (code: u16)
        ensures
            code == match *self {
                ApiError::BadRequest => 400u16,
                ApiError::NotFound => 404u16,
            },
    {
        match self {
            ApiError::BadRequest => 400,
            ApiError::NotFound => 404,
        }
    }
}

/// List all current price values, in no particular order.
pub fn get_prices(store: &PriceStore) -> (r: Vec<u64>)
    ensures
        lists_values_of(r@, store@),
        r@.len() == store@.dom().len(),
{
    store.list()
}

/// Record a new price under a freshly minted identifier and return the
/// identifier's canonical text, which parses back to the very
/// identifier the new record sits under.
pub fn create_price(store: &mut PriceStore, price: u64) -> (id_text: String)
    ensures
        spec_parse_id(id_text@) matches Some(id) && !old(store)@.contains_key(id)
            && final(store)@ == old(store)@.insert(id, price),
{
    let id = store.create(price);
    proof {
        lemma_id_round_trip(id);
    }
    format_id(id)
}

/// Look up the price under the identifier named in a request path.
pub fn get_price_by_id(store: &PriceStore, id_text: &str) -> (r: Result<u64, ApiError>)
    ensures
        r == match spec_parse_id(id_text@) {
            Option::None => Err::<u64, ApiError>(ApiError::BadRequest),
            Option::Some(id) => if store@.contains_key(id) {
                Ok::<u64, ApiError>(store@[id])
            } else {
                Err::<u64, ApiError>(ApiError::NotFound)
            },
        },
{
    match parse_id(id_text) {
        Option::None => Err(ApiError::BadRequest),
        Option::Some(id) => match store.get(id) {
            Option::Some(price) => Ok(price),
            Option::None => Err(ApiError::NotFound),
        },
    }
}

/// Replace the price under the identifier named in a request path.
/// On failure the table is left untouched.
pub fn update_price_by_id(store: &mut PriceStore, id_text: &str, price: u64) -> (r: Result<
    (),
    ApiError,
>)
    ensures
        r == match spec_parse_id(id_text@) {
            Option::None => Err::<(), ApiError>(ApiError::BadRequest),
            Option::Some(id) => if old(store)@.contains_key(id) {
                Ok::<(), ApiError>(())
            } else {
                Err::<(), ApiError>(ApiError::NotFound)
            },
        },
        final(store)@ == match spec_parse_id(id_text@) {
            Option::None => old(store)@,
            Option::Some(id) => if old(store)@.contains_key(id) {
                old(store)@.insert(id, price)
            } else {
                old(store)@
            },
        },
{
    match parse_id(id_text) {
        Option::None => Err(ApiError::BadRequest),
        Option::Some(id) => {
            if store.update(id, price) {
                Ok(())
            } else {
                Err(ApiError::NotFound)
            }
        },
    }
}

/// Erase the record under the identifier named in a request path.
/// On failure the table is left untouched.
pub fn delete_price(store: &mut PriceStore, id_text: &str) -> (r: Result<(), ApiError>)
    ensures
        r == match spec_parse_id(id_text@) {
            Option::None => Err::<(), ApiError>(ApiError::BadRequest),
            Option::Some(id) => if old(store)@.contains_key(id) {
                Ok::<(), ApiError>(())
            } else {
                Err::<(), ApiError>(ApiError::NotFound)
            },
        },
        final(store)@ == match spec_parse_id(id_text@) {
            Option::None => old(store)@,
            Option::Some(id) => if old(store)@.contains_key(id) {
                old(store)@.remove(id)
            } else {
                old(store)@
            },
        },
{
    match parse_id(id_text) {
        Option::None => Err(ApiError::BadRequest),
        Option::Some(id) => {
            if store.delete(id) {
                Ok(())
            } else {
                Err(ApiError::NotFound)
            }
        },
    }
}

} // verus!
