//! The identity of a live client connection: a slot token that is
//! stable and unique for the connection's lifetime, and the domain
//! the connection speaks for. Watches and transactions are keyed by
//! this pair, so a reused slot cannot surface stale state.

use vstd::prelude::*;
use crate::wire::DomainId;

verus! {

/// A connection's identity: its slot token and its domain.
#[derive(Clone, Copy, Debug, Eq, Hash, PartialEq, Structural)]
pub struct ConnId {
    pub token: usize,
    pub dom_id: DomainId,
}

impl ConnId {
    /// Pairs a slot token with the domain it speaks for.
    pub fn new(token: usize, dom_id: DomainId) -> (r: ConnId)
        ensures
            r.token == token,
            r.dom_id == dom_id,
    {
        ConnId { token, dom_id }
    }
}

} // verus!
