//! One restaurant table and the set of orders currently active at it.
//!
//! A table's contents are modelled as a finite map from item id to
//! [`Order`]; the executable representation is a vector with pairwise
//! distinct item ids, so re-adding an item id overwrites the previous
//! order for that id (last-write-wins).

use vstd::prelude::*;

use crate::order::Order;

verus! {

/// The map an order sequence denotes: later entries overwrite earlier
/// ones with the same item id.
pub open spec fn map_of(s: Seq<Order>) -> Map<u32, Order>
    decreases s.len(),
{
    if s.len() == 0 {
        Map::empty()
    } else {
        map_of(s.drop_last()).insert(s.last().item_id, s.last())
    }
}

/// Item ids are pairwise distinct within the sequence.
pub open spec fn distinct_item_ids(s: Seq<Order>) -> bool {
    forall|i: int, j: int|
        0 <= i < j < s.len() ==> (#[trigger] s[i]).item_id != (#[trigger] s[j]).item_id
}

/// Every order in the sequence belongs to table `id`.
pub open spec fn all_at_table(s: Seq<Order>, id: u32) -> bool {
    forall|i: int| 0 <= i < s.len() ==> (#[trigger] s[i]).table_id == id
}

/// A key is in `map_of(s)` exactly when some entry carries it, and then
/// the map holds the last such entry.
pub proof fn lemma_map_of_key(s: Seq<Order>, k: u32)
    ensures
        map_of(s).contains_key(k) <==> exists|i: int|
            0 <= i < s.len() && (#[trigger] s[i]).item_id == k,
    decreases s.len(),
{
    if s.len() > 0 {
        lemma_map_of_key(s.drop_last(), k);
        if s.last().item_id == k {
            assert(s[s.len() - 1].item_id == k);
        } else {
            if exists|i: int| 0 <= i < s.len() && (#[trigger] s[i]).item_id == k {
                let i = choose|i: int| 0 <= i < s.len() && (#[trigger] s[i]).item_id == k;
                assert(s.drop_last()[i].item_id == k);
            }
        }
    }
}

/// Under distinct ids, the map sends each entry's id to that entry.
pub proof fn lemma_map_of_entry(s: Seq<Order>, i: int)
    requires
        distinct_item_ids(s),
        0 <= i < s.len(),
    ensures
        map_of(s).contains_key(s[i].item_id),
        map_of(s)[s[i].item_id] == s[i],
    decreases s.len(),
{
    if i == s.len() - 1 {
    } else {
        lemma_map_of_entry(s.drop_last(), i);
        assert(s.drop_last()[i] == s[i]);
        assert(s.last().item_id != s[i].item_id);
    }
}

/// Appending a fresh entry inserts it into the map.
pub proof fn lemma_map_of_push(s: Seq<Order>, o: Order)
    ensures
        map_of(s.push(o)) == map_of(s).insert(o.item_id, o),
{
    assert(s.push(o).drop_last() =~= s);
    assert(s.push(o).last() == o);
}

/// Overwriting the entry that holds a key updates the map at that key.
pub proof fn lemma_map_of_update(s: Seq<Order>, i: int, o: Order)
    requires
        distinct_item_ids(s),
        0 <= i < s.len(),
        o.item_id == s[i].item_id,
    ensures
        map_of(s.update(i, o)) == map_of(s).insert(o.item_id, o),
    decreases s.len(),
{
    let k = o.item_id;
    if i == s.len() - 1 {
        assert(s.update(i, o).drop_last() =~= s.drop_last());
        assert(s.update(i, o).last() == o);
        assert(map_of(s).insert(k, o) =~= map_of(s.drop_last()).insert(k, o));
    } else {
        assert(s.update(i, o).drop_last() =~= s.drop_last().update(i, o));
        assert(s.drop_last()[i] == s[i]);
        lemma_map_of_update(s.drop_last(), i, o);
        let last = s.last();
        assert(s.update(i, o).last() == last);
        assert(last.item_id != k);
        assert(map_of(s.drop_last()).insert(k, o).insert(last.item_id, last) =~= map_of(
            s.drop_last(),
        ).insert(last.item_id, last).insert(k, o));
    }
}

/// Removing the entry that holds a key removes that key from the map.
pub proof fn lemma_map_of_remove(s: Seq<Order>, i: int)
    requires
        distinct_item_ids(s),
        0 <= i < s.len(),
    ensures
        map_of(s.remove(i)) == map_of(s).remove(s[i].item_id),
    decreases s.len(),
{
    let k = s[i].item_id;
    if i == s.len() - 1 {
        assert(s.remove(i) =~= s.drop_last());
        lemma_map_of_key(s.drop_last(), k);
        assert(forall|j: int|
            0 <= j < s.drop_last().len() ==> (#[trigger] s.drop_last()[j]).item_id != k);
        assert(map_of(s.drop_last()).insert(k, s.last()).remove(k) =~= map_of(s.drop_last()));
    } else {
        assert(s.remove(i).drop_last() =~= s.drop_last().remove(i));
        assert(s.drop_last()[i] == s[i]);
        lemma_map_of_remove(s.drop_last(), i);
        let last = s.last();
        assert(s.remove(i).last() == last);
        assert(last.item_id != k);
        assert(map_of(s.drop_last()).remove(k).insert(last.item_id, last) =~= map_of(
            s.drop_last(),
        ).insert(last.item_id, last).remove(k));
    }
}

/// Under distinct ids the map has exactly one key per entry.
pub proof fn lemma_map_of_dom_len(s: Seq<Order>)
    requires
        distinct_item_ids(s),
    ensures
        map_of(s).dom().finite(),
        map_of(s).dom().len() == s.len(),
    decreases s.len(),
{
    if s.len() > 0 {
        lemma_map_of_dom_len(s.drop_last());
        let k = s.last().item_id;
        lemma_map_of_key(s.drop_last(), k);
        assert(forall|j: int|
            0 <= j < s.drop_last().len() ==> (#[trigger] s.drop_last()[j]).item_id != k);
        assert(!map_of(s.drop_last()).dom().contains(k));
        assert(map_of(s).dom() =~= map_of(s.drop_last()).dom().insert(k));
    }
}

/// No update is lost: after adding an order, the map holds exactly that
/// order under its item id, and every other item id is untouched —
/// present with its old order, or absent, exactly as before.
pub proof fn lemma_add_then_lookup(m: Map<u32, Order>, o: Order, other: u32)
    ensures
        m.insert(o.item_id, o).contains_key(o.item_id),
        m.insert(o.item_id, o)[o.item_id] == o,
        other != o.item_id ==> (m.insert(o.item_id, o).contains_key(other) <==> m.contains_key(
            other,
        )),
        other != o.item_id && m.contains_key(other) ==> m.insert(o.item_id, o)[other] == m[other],
{
}

/// Removal is exact: removing an absent item leaves the map unchanged;
/// removing a present one removes that item and no other.
pub proof fn lemma_remove_exact(m: Map<u32, Order>, item_id: u32, other: u32)
    ensures
        !m.contains_key(item_id) ==> m.remove(item_id) == m,
        !m.remove(item_id).contains_key(item_id),
        other != item_id ==> (m.remove(item_id).contains_key(other) <==> m.contains_key(other)),
        other != item_id && m.contains_key(other) ==> m.remove(item_id)[other] == m[other],
{
    if !m.contains_key(item_id) {
        assert(m.remove(item_id) =~= m);
    }
}

/// Relies on `rand::thread_rng` and `rand::Rng::gen_range`: a uniformly
/// random sample in `[lo, hi)`; panics only on an empty range, which the
/// precondition excludes.
#[verifier::external_body]
fn random_in_range(lo: u32, hi: u32) -> (r: u32)
    requires
        lo < hi,
    ensures
        lo <= r < hi,
{
    rand::Rng::gen_range(&mut rand::thread_rng(), lo..hi)
}

/// A restaurant table: owns the currently active orders for itself.
///
/// The caller is expected to hold exclusive access (see
/// [`crate::restaurant::Restaurant`]); the table itself performs no
/// synchronization.
pub struct Table {
    id: u32,
    orders: Vec<Order>,
}

impl View for Table {
    type V = Map<u32, Order>;

    /// A table denotes the map from item id to the order for that item.
    closed spec fn view(&self) -> Map<u32, Order> {
        map_of(self.orders@)
    }
}

impl Table {
    /// The table's fixed numeric id.
    pub closed spec fn spec_id(&self) -> u32 {
        self.id
    }

    /// Internal consistency: item ids are unique and every order carries
    /// this table's id.
    pub closed spec fn wf(&self) -> bool {
        distinct_item_ids(self.orders@) && all_at_table(self.orders@, self.id)
    }

    /// The table's orders in their (unspecified) listing order, as
    /// [`get_orders`](Table::get_orders) returns them.
    pub closed spec fn spec_orders(&self) -> Seq<Order> {
        self.orders@
    }

    /// What well-formedness gives of the listing order: it denotes the
    /// table's map, without duplicate item ids, all at this table.
    pub proof fn lemma_orders_wf(&self)
        requires
            self.wf(),
        ensures
            map_of(self.spec_orders()) == self@,
            distinct_item_ids(self.spec_orders()),
            all_at_table(self.spec_orders(), self.spec_id()),
    {
    }

    /// An empty table with the given id.
    pub fn new(table_id: u32) -> (r: Table)
        ensures
            r.wf(),
            r.spec_id() == table_id,
            r@ == Map::<u32, Order>::empty(),
    {
        Table { id: table_id, orders: Vec::new() }
    }

    /// The position of the order for `item_id`, if present.
    fn find_index(&self, item_id: u32) -> (r: Option<usize>)
        ensures
            match r {
                Some(i) => i < self.orders@.len() && self.orders@[i as int].item_id == item_id,
                None => forall|j: int|
                    0 <= j < self.orders@.len() ==> (#[trigger] self.orders@[j]).item_id
                        != item_id,
            },
    {
        let mut i: usize = 0;
        while i < self.orders.len()
            invariant
                i <= self.orders@.len(),
                forall|j: int| 0 <= j < i ==> (#[trigger] self.orders@[j]).item_id != item_id,
            decreases self.orders@.len() - i,
        {
            if self.orders[i].item_id == item_id {
                return Some(i);
            }
            i = i + 1;
        }
        None
    }

    /// Inserts `o`, overwriting any existing order with the same item id.
    fn insert_order(&mut self, o: Order)
        requires
            old(self).wf(),
            o.table_id == old(self).spec_id(),
        ensures
            final(self).wf(),
            final(self).spec_id() == old(self).spec_id(),
            final(self)@ == old(self)@.insert(o.item_id, o),
    {
        match self.find_index(o.item_id) {
            Some(i) => {
                proof {
                    lemma_map_of_update(self.orders@, i as int, o);
                }
                self.orders.set(i, o);
            },
            None => {
                proof {
                    lemma_map_of_push(self.orders@, o);
                }
                self.orders.push(o);
            },
        }
    }

    /// Adds an order for `item_id` at this table, assigning a waiting
    /// time drawn uniformly at random from `[5, 16)` minutes. Re-adding
    /// an item id overwrites the previous order for it, waiting time
    /// included.
    pub fn add_order(&mut self, item_id: u32)
        requires
            old(self).wf(),
        ensures
            final(self).wf(),
            final(self).spec_id() == old(self).spec_id(),
            exists|w: u32|
                5 <= w < 16 && final(self)@ == old(self)@.insert(
                    item_id,
                    Order { item_id, table_id: old(self).spec_id(), waiting_time: w },
                ),
    {
        let w = random_in_range(5, 16);
        let o = Order::new(item_id, self.id, w);
        self.insert_order(o);
    }

    /// Read-only lookup of the order for `item_id`; absence is not an
    /// error.
    pub fn get_order(&self, item_id: u32) -> (r: Option<&Order>)
        requires
            self.wf(),
        ensures
            match r {
                Some(o) => self@.contains_key(item_id) && *o == self@[item_id],
                None => !self@.contains_key(item_id),
            },
    {
        proof {
            lemma_map_of_key(self.orders@, item_id);
        }
        match self.find_index(item_id) {
            Some(i) => {
                proof {
                    lemma_map_of_entry(self.orders@, i as int);
                }
                Some(&self.orders[i])
            },
            None => None,
        }
    }

    /// All current orders for the table. The order of the result is
    /// unspecified; callers must not depend on it.
    pub fn get_orders(&self) -> (r: Vec<Order>)
        requires
            self.wf(),
        ensures
            r@ == self.spec_orders(),
            map_of(r@) == self@,
            distinct_item_ids(r@),
            all_at_table(r@, self.spec_id()),
            r@.len() == self@.dom().len(),
    {
        proof {
            lemma_map_of_dom_len(self.orders@);
        }
        self.orders.clone()
    }

    /// Removes and returns the order for `item_id` if present, else
    /// returns `None` and leaves the table unchanged.
    pub fn remove_order(&mut self, item_id: u32) -> (r: Option<Order>)
        requires
            old(self).wf(),
        ensures
            final(self).wf(),
            final(self).spec_id() == old(self).spec_id(),
            match r {
                Some(o) => old(self)@.contains_key(item_id) && o == old(self)@[item_id]
                    && final(self)@ == old(self)@.remove(item_id),
                None => !old(self)@.contains_key(item_id) && final(self)@ == old(self)@,
            },
    {
        proof {
            lemma_map_of_key(self.orders@, item_id);
        }
        match self.find_index(item_id) {
            Some(i) => {
                proof {
                    lemma_map_of_entry(self.orders@, i as int);
                    lemma_map_of_remove(self.orders@, i as int);
                }
                Some(self.orders.remove(i))
            },
            None => None,
        }
    }
}

} // verus!
