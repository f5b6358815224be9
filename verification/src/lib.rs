//! An in-memory order-tracking service for a restaurant.
//!
//! The library keeps one [`order::Order`] record per (table, item) pair,
//! groups them into independently lockable [`table::Table`]s owned by a
//! [`restaurant::Restaurant`], and routes textual HTTP requests onto the
//! add / list / fetch / remove operations.

pub mod codec;
pub mod handlers;
pub mod order;
pub mod restaurant;
pub mod table;
pub mod text;

pub use order::Order;
pub use restaurant::Restaurant;
pub use table::Table;

use vstd::prelude::*;

verus! {

} // verus!
