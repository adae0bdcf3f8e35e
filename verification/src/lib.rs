//! A verified ownership registry for uniquely identified digital assets
//! ("kitties"): minting, transfer, sale and breeding over a dense
//! array-with-reverse-index ownership scheme.

pub mod dna;
pub mod events;
pub mod hash256;
pub mod identity;
pub mod laws;
pub mod ops;
pub mod registry;
