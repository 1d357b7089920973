//! The route table that is in force.

use std::sync::Arc;

use arc_swap::ArcSwap;
use vstd::prelude::*;

use crate::lb_core::route_table::{empty_table, RouteTable};

verus! {

/// Wait-free atomic container for the active [`RouteTable`].
///
/// Any thread may publish a table at any time, so which of the tables that were
/// published a reader sees is not stated; it is one of them, and whole.
#[verifier::external_body]
pub struct SharedRouteTable {
    inner: ArcSwap<RouteTable>,
}

/// Whether this was, at some moment of the container's life, the table in force.
pub uninterp spec fn was_in_force(shared: SharedRouteTable, table: RouteTable) -> bool;

/// Whether each of two tables was in force at some moment.
pub open spec fn both_in_force(shared: SharedRouteTable, a: RouteTable, b: RouteTable) -> bool {
    was_in_force(shared, a) && was_in_force(shared, b)
}

impl SharedRouteTable {
    /// A container that holds a table without routes.
    #[must_use]
    pub fn new() -> (r: Self)
        ensures
            exists|table: RouteTable|
                table@ == empty_table() && #[trigger] was_in_force(r, table),
    {
        Self::from_table(RouteTable::empty())
    }

    /// A container that holds `table` at first: `ArcSwap::from_pointee`.
    #[must_use]
    #[verifier::external_body]
    pub fn from_table(table: RouteTable) -> (r: Self)
        ensures
            was_in_force(r, table),
    {
        Self { inner: ArcSwap::from_pointee(table) }
    }

    /// Wait-free load of the active table.
    #[must_use]
    pub fn load(&self) -> (r: Arc<RouteTable>)
        ensures
            was_in_force(*self, *r),
    {
        self.load_full()
    }

    /// A handle to the active table that outlives the borrow:
    /// `ArcSwap::load_full` gives the table that is in force as it runs.
    #[must_use]
    #[verifier::external_body]
    pub fn load_full(&self) -> (r: Arc<RouteTable>)
        ensures
            was_in_force(*self, *r),
    {
        self.inner.load_full()
    }

    /// Atomically publish a new table. Readers in flight finish on the old one.
    pub fn store(&self, new_table: RouteTable)
        ensures
            was_in_force(*self, new_table),
    {
        self.store_arc(Arc::new(new_table));
    }

    /// Publish a pre-shared table without re-wrapping it.
    pub fn store_arc(&self, new_table: Arc<RouteTable>)
        ensures
            was_in_force(*self, *new_table),
    {
        let _previous = self.exchange(new_table);
    }

    /// `ArcSwap::swap` exchanges the table in force for the one given, in one step, and
    /// gives back the one that was in force until then. `ArcSwap::store` is this and
    /// dropping what comes back.
    #[verifier::external_body]
    fn exchange(&self, new_table: Arc<RouteTable>) -> (previous: Arc<RouteTable>)
        ensures
            both_in_force(*self, *previous, *new_table),
    {
        self.inner.swap(new_table)
    }
}

} // verus!
