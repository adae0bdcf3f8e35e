use vstd::prelude::*;
use crate::hash256::Hash256;

verus! {

/// Why a requested transition was rejected. Every rejection leaves the
/// registry unchanged.
#[derive(Clone, Copy, PartialEq, Eq, Structural, Debug)]
pub enum Error {
    /// The referenced asset has not been minted.
    NotFound,
    /// The caller is not the owner of the asset.
    NotOwner,
    /// An asset with this identifier has already been minted.
    AlreadyExists,
    /// A count or generation would exceed its maximum value.
    CounterOverflow,
    /// A count would drop below zero.
    CounterUnderflow,
    /// The asset's price is zero.
    NotForSale,
    /// The asset's price exceeds the buyer's stated ceiling.
    PriceTooHigh,
    /// The buyer already owns the asset.
    SelfTrade,
    /// The ledger declined the balance transfer.
    PaymentFailed,
}

/// A notification recorded by a successful operation, in order of occurrence.
pub enum Event {
    Created { owner: u64, id: Hash256 },
    PriceSet { owner: u64, id: Hash256, price: u64 },
    Transferred { from: u64, to: u64, id: Hash256 },
    Bought { buyer: u64, seller: u64, id: Hash256, price: u64 },
}

pub open spec fn ev_created(e: Event, owner: u64, id: Seq<u8>) -> bool {
    e matches Event::Created { owner: o, id: i } && o == owner && i@ == id
}

pub open spec fn ev_price_set(e: Event, owner: u64, id: Seq<u8>, price: u64) -> bool {
    e matches Event::PriceSet { owner: o, id: i, price: p } && o == owner && i@ == id && p == price
}

pub open spec fn ev_transferred(e: Event, from: u64, to: u64, id: Seq<u8>) -> bool {
    e matches Event::Transferred { from: f, to: t, id: i } && f == from && t == to && i@ == id
}

pub open spec fn ev_bought(e: Event, buyer: u64, seller: u64, id: Seq<u8>, price: u64) -> bool {
    e matches Event::Bought { buyer: b, seller: s, id: i, price: p } && b == buyer && s == seller
        && i@ == id && p == price
}

/// The new event sequence is the old one with exactly `k` entries appended.
pub open spec fn events_extended(older: Seq<Event>, newer: Seq<Event>, k: int) -> bool {
    &&& newer.len() == older.len() + k
    &&& forall|i: int| 0 <= i < older.len() ==> newer[i] == older[i]
}

} // verus!
