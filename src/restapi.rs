//! The polled venue registry: per venue, its REST base URL and book adapter.
use crate::book::Orderbook;
use crate::json::same_text;
use crate::wsapi::ApiError;
use vstd::prelude::*;

verus! {

/// A venue polled over REST.
#[derive(Clone, Copy, Debug, PartialEq, Eq, Structural)]
pub enum RestVenue {
    BtcMarkets,
}

/// A REST venue: its base URL and its book adapter.
#[derive(Clone, Debug)]
pub struct Api {
    pub endpoint: String,
    pub venue: RestVenue,
}

/// The registered REST venues.
pub open spec fn rest_entry(name: Seq<char>) -> Option<(Seq<char>, RestVenue)> {
    if name == "btcmarkets"@ {
        Some(("https://api.btcmarkets.net"@, RestVenue::BtcMarkets))
    } else {
        None
    }
}

/// Look up a REST venue by name.
pub fn rest(name: &str) -> (r: Result<Api, ApiError>)
    ensures
        match r {
            Ok(api) => rest_entry(name@) == Some((api.endpoint@, api.venue)),
            Err(e) => rest_entry(name@) is None && (e matches ApiError::NotSupported(n) && n@ == name@),
        },
{
    if same_text(name, "btcmarkets") {
        Ok(Api { endpoint: "https://api.btcmarkets.net".to_owned(), venue: RestVenue::BtcMarkets })
    } else {
        Err(ApiError::NotSupported(name.to_owned()))
    }
}

/// The btcmarkets book adapter, which has no implementation.
pub fn btcmarkets_orderbook(pair: &str) -> (r: Result<Orderbook, ApiError>)
    ensures
        r == Err::<Orderbook, ApiError>(ApiError::NotImplemented),
{
    Err(ApiError::NotImplemented)
}

impl Api {
    /// Fetch-side of the adapter: the book for `pair` as the venue's adapter reads it.
    pub fn orderbook(&self, pair: &str) -> (r: Result<Orderbook, ApiError>)
        ensures
            self.venue == RestVenue::BtcMarkets ==> r == Err::<Orderbook, ApiError>(ApiError::NotImplemented),
    {
        match self.venue {
            RestVenue::BtcMarkets => btcmarkets_orderbook(pair),
        }
    }
}

} // verus!
