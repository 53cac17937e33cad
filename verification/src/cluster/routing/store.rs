//! Holder of the current routing table. A table is taken only if its signature
//! is above the one that is held, so that of two coordinators that push at the
//! same time the one with the later view wins everywhere.

use vstd::prelude::*;

use crate::cluster::routing::table::{RoutingTable, TableView};

verus! {

/// Outcome of applying a candidate table.
#[derive(Debug, Clone, Copy, PartialEq, Eq, Structural)]
pub enum ApplyRoutingOutcome {
    /// The candidate is now the local view.
    Accepted,
    /// The candidate is not newer than the local view, which stays.
    Stale,
    /// The candidate has a schema that is not understood; the local view stays.
    UnsupportedSchema,
}

/// Signature of what a store holds; 0 where it holds nothing.
pub open spec fn signature_of(held: Option<TableView>) -> u64 {
    match held {
        Some(t) => t.signature,
        None => 0,
    }
}

/// Whether a store that holds `held` takes `candidate`.
pub open spec fn takes(held: Option<TableView>, candidate: TableView) -> bool {
    held matches Some(t) ==> candidate.signature > t.signature
}

/// What a store holds after a candidate.
pub open spec fn after(held: Option<TableView>, candidate: TableView) -> Option<TableView> {
    if takes(held, candidate) {
        Some(candidate)
    } else {
        held
    }
}

/// Holder of the current routing table.
#[derive(Debug)]
pub struct RoutingTableStore {
    table: Option<RoutingTable>,
}

impl View for RoutingTableStore {
    type V = Option<TableView>;

    closed spec fn view(&self) -> Option<TableView> {
        match self.table {
            Some(t) => Some(t@),
            None => None,
        }
    }
}

impl Default for RoutingTableStore {
    fn default() -> (r: Self)
        ensures
            r@ is None,
    {
        RoutingTableStore { table: None }
    }
}

impl RoutingTableStore {
    /// A store that has seen no table yet.
    pub fn new() -> (r: Self)
        ensures
            r@ is None,
    {
        RoutingTableStore { table: None }
    }

    /// Applies a candidate table.
    pub fn apply(&mut self, candidate: RoutingTable) -> (r: ApplyRoutingOutcome)
        ensures
            final(self)@ == after(old(self)@, candidate@),
            r == (if takes(old(self)@, candidate@) {
                ApplyRoutingOutcome::Accepted
            } else {
                ApplyRoutingOutcome::Stale
            }),
    {
        if let Some(current) = &self.table {
            if candidate.signature <= current.signature {
                return ApplyRoutingOutcome::Stale;
            }
        }
        self.table = Some(candidate);
        ApplyRoutingOutcome::Accepted
    }

    /// The current table, or `None` where none was seen yet.
    pub fn snapshot(&self) -> (r: Option<&RoutingTable>)
        ensures
            self@ == (match r {
                Some(t) => Some(t@),
                None => None,
            }),
    {
        self.table.as_ref()
    }

    /// The current signature, 0 where no table was seen.
    pub fn signature(&self) -> (r: u64)
        ensures
            r == signature_of(self@),
    {
        match &self.table {
            Some(t) => t.signature,
            None => 0,
        }
    }

    /// Whether a table was seen.
    pub fn is_populated(&self) -> (r: bool)
        ensures
            r == (self@ is Some),
    {
        self.table.is_some()
    }
}

/// The signature of a store never goes back.
pub proof fn law_signature_never_decreases(held: Option<TableView>, candidate: TableView)
    ensures
        signature_of(after(held, candidate)) >= signature_of(held),
{
}

/// A second offer of the same table changes nothing.
pub proof fn law_apply_is_idempotent(held: Option<TableView>, candidate: TableView)
    ensures
        after(after(held, candidate), candidate) == after(held, candidate),
{
}

/// Two tables with different signatures leave a store with the same table,
/// whichever comes first.
pub proof fn law_newest_table_wins(held: Option<TableView>, a: TableView, b: TableView)
    requires
        a.signature != b.signature,
    ensures
        after(after(held, a), b) == after(after(held, b), a),
{
}

/// The first table is taken, and after that every table whose signature is above
/// that of the table held; no other is.
pub proof fn law_newer_tables_are_taken(t: TableView, candidate: TableView)
    ensures
        after(None, candidate) == Some(candidate),
        candidate.signature > t.signature ==> after(Some(t), candidate) == Some(candidate),
        candidate.signature <= t.signature ==> after(Some(t), candidate) == Some(t),
        takes(Some(t), candidate) <==> candidate.signature > t.signature,
        takes(None, candidate),
        signature_of(Some(t)) == t.signature,
        signature_of(None) == 0,
{
}

} // verus!
