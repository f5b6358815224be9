//! The fixed collection of all tables, each behind its own lock.
//!
//! The store is created once with a caller-chosen capacity and is
//! read-only afterwards: looking up a table handle takes no lock, and
//! contention arises only at the per-table locks. Operations on
//! different tables are fully independent; operations on the same table
//! are linearized by that table's lock, whose invariant keeps the
//! table's order set internally consistent in every reachable state.

use std::sync::Arc;

use vstd::prelude::*;
use vstd::rwlock::RwLock;
use vstd::rwlock::RwLockPredicate;

use crate::table::Table;

verus! {

/// Lock invariant for the table at index `id`: whatever is stored in the
/// lock is a well-formed table carrying exactly that id.
pub struct TableLockInv {
    pub id: u32,
}

impl RwLockPredicate<Table> for TableLockInv {
    open spec fn inv(self, t: Table) -> bool {
        t.wf() && t.spec_id() == self.id
    }
}

/// A shared handle to one table: a reference-counted pointer to the
/// table behind its exclusive lock.
pub type TablePtr = Arc<RwLock<Table, TableLockInv>>;

/// Independence of tables: no table value can stand under two different
/// tables' locks, so an operation holding one table's lock can neither
/// block on nor observe another table's state.
pub proof fn lemma_tables_independent(inv1: TableLockInv, inv2: TableLockInv, t: Table)
    requires
        inv1.id != inv2.id,
        inv1.inv(t),
    ensures
        !inv2.inv(t),
{
}

/// The restaurant's table store: a fixed sequence of independently
/// lockable tables, where the table at index `i` has id `i`.
#[derive(Clone)]
pub struct Restaurant {
    tables: Vec<TablePtr>,
}

impl Restaurant {
    /// How many tables the store was created with.
    pub closed spec fn spec_num_tables(&self) -> nat {
        self.tables@.len()
    }

    /// Every handle's lock invariant pins the table id to its index.
    pub closed spec fn wf(&self) -> bool {
        forall|i: int|
            0 <= i < self.tables@.len() ==> (#[trigger] self.tables@[i]).pred()
                == (TableLockInv { id: i as u32 })
    }

    /// Allocates `number_of_tables` empty tables with ids
    /// `0 .. number_of_tables - 1`, each independently lockable.
    pub fn new(number_of_tables: usize) -> (r: Restaurant)
        requires
            number_of_tables <= u32::MAX,
        ensures
            r.wf(),
            r.spec_num_tables() == number_of_tables,
    {
        let mut tables: Vec<TablePtr> = Vec::new();
        let mut tid: usize = 0;
        while tid < number_of_tables
            invariant
                tid <= number_of_tables,
                number_of_tables <= u32::MAX,
                tables@.len() == tid,
                forall|i: int|
                    0 <= i < tid ==> (#[trigger] tables@[i]).pred() == (TableLockInv {
                        id: i as u32,
                    }),
            decreases number_of_tables - tid,
        {
            let table = Table::new(tid as u32);
            let inv = Ghost(TableLockInv { id: tid as u32 });
            tables.push(Arc::new(RwLock::new(table, inv)));
            tid = tid + 1;
        }
        Restaurant { tables }
    }

    /// The store's capacity, fixed at construction.
    pub fn num_tables(&self) -> (r: usize)
        ensures
            r == self.spec_num_tables(),
    {
        self.tables.len()
    }

    /// A shared handle to the table with id `table_id`, or `None` when
    /// the id is out of range: an out-of-range id is a caller error, not
    /// a fatal one.
    pub fn get_table(&self, table_id: u32) -> (r: Option<TablePtr>)
        requires
            self.wf(),
        ensures
            match r {
                Some(t) => table_id < self.spec_num_tables() && t.pred() == (TableLockInv {
                    id: table_id,
                }),
                None => table_id >= self.spec_num_tables(),
            },
    {
        if (table_id as usize) < self.tables.len() {
            Some(Arc::clone(&self.tables[table_id as usize]))
        } else {
            None
        }
    }
}

} // verus!
