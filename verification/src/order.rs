//! The `Order` value record: one food item ordered at one table.

use vstd::prelude::*;

verus! {

/// One food item ordered at one table, with an assigned wait estimate in
/// minutes. A value record with no behaviour; immutable once created.
#[derive(Debug, PartialEq, Eq, Structural, Clone, Copy)]
pub struct Order {
    pub item_id: u32,
    pub table_id: u32,
    pub waiting_time: u32,
}

impl Order {
    /// Builds an order from its three fields. No validation beyond type:
    /// choosing the waiting time is the caller's responsibility.
    pub fn new(item_id: u32, table_id: u32, waiting_time: u32) -> (r: Order)
        ensures
            r == (Order { item_id, table_id, waiting_time }),
    {
        Order { item_id, table_id, waiting_time }
    }
}

} // verus!
