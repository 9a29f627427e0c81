//! The pool of local sockets used for hole punching: where it binds, and how
//! a firewall class is seen once a socket of the pool is in play.
use vstd::prelude::*;
use crate::hyperdht_messages::{FIREWALL_CONSISTENT, FIREWALL_OPEN};

verus! {

/// The pool of sockets for hole punching, bound on one host.
pub struct SocketPool {
    host: String,
}

impl SocketPool {
    /// The host that the sockets of the pool bind on.
    pub closed spec fn spec_host(&self) -> Seq<char> {
        self.host@
    }

    /// A pool that binds on `host`.
    pub fn new(host: String) -> (p: Self)
        ensures
            p.spec_host() == host@,
    {
        SocketPool { host }
    }
}

/// The firewall class to punch with: an open peer behind a pooled socket
/// behaves as a consistent one; every other class stays as it is.
pub fn coerce_firewall(fw: u64) -> (r: u64)
    ensures
        r == (if fw == FIREWALL_OPEN { FIREWALL_CONSISTENT } else { fw }),
{
    if fw == FIREWALL_OPEN {
        FIREWALL_CONSISTENT
    } else {
        fw
    }
}

} // verus!
