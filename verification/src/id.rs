//! Identifiers: a client and the clock of one position in its history.

use vstd::prelude::*;

verus! {

/// The number by which a replica is known.
pub type ClientID = u64;

/// One position in the history of one client.
#[derive(Clone, Copy, Debug, PartialEq, Eq, Hash, Structural)]
pub struct ID {
    pub client: ClientID,
    pub clock: u32,
}

impl ID {
    pub fn new(client: ClientID, clock: u32) -> (r: ID)
        ensures
            r == (ID { client, clock }),
    {
        ID { client, clock }
    }

    /// The order of identifiers: by client first, then by clock.
    pub open spec fn precedes(self, other: ID) -> bool {
        self.client < other.client || (self.client == other.client && self.clock < other.clock)
    }

    /// Whether this identifier comes before `other` in the order of
    /// identifiers.
    pub fn before(&self, other: &ID) -> (r: bool)
        ensures
            r == self.precedes(*other),
    {
        self.client < other.client || (self.client == other.client && self.clock < other.clock)
    }

    /// Whether the identifier lies in the `len` positions that start at
    /// `first`.
    pub open spec fn within(self, first: ID, len: nat) -> bool {
        self.client == first.client && first.clock <= self.clock < first.clock + len
    }
}

/// Whether two optional identifiers agree.
pub fn same_opt_id(a: &Option<ID>, b: &Option<ID>) -> (r: bool)
    ensures
        r == (*a == *b),
{
    match (a, b) {
        (Some(x), Some(y)) => x.client == y.client && x.clock == y.clock,
        (None, None) => true,
        _ => false,
    }
}

/// The order of identifiers is total and strict.
pub proof fn law_id_order(a: ID, b: ID, c: ID)
    ensures
        !a.precedes(a),
        a.precedes(b) || b.precedes(a) || a == b,
        a.precedes(b) ==> !b.precedes(a),
        a.precedes(b) && b.precedes(c) ==> a.precedes(c),
{
}

} // verus!
