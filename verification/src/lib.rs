//! Verified core of Bake'n Deck.
use vstd::prelude::*;

pub mod bytes;
pub mod cancel;
pub mod cdjsafe;
pub mod text;
pub mod headroom;
pub mod rbsort;
pub mod export;
pub mod fsname;
pub mod tools;
pub mod xml;

verus! {
}
