//! Peer addresses and the node ids derived from them.
use vstd::prelude::*;
use crate::compact_encoding::{enc_ipv4_address, lemma_ipv4_address_roundtrip, valid_host, State};
use crate::crypto::{blake2b_256, hash};
use crate::text::parse_ipv4_text;

verus! {

/// A 32-byte DHT node identifier.
pub type NodeId = [u8; 32];

/// A peer's host text and port.
#[derive(Debug, Clone)]
pub struct PeerAddr {
    pub host: String,
    pub port: u16,
}

/// The node id of a host and port: the digest of their six wire bytes.
pub open spec fn node_id_of(host: Seq<char>, port: u16) -> Seq<u8> {
    blake2b_256(enc_ipv4_address(parse_ipv4_text(host)->0, port))
}

impl PeerAddr {
    /// A peer address with the given host text and port.
    pub fn new(host: &str, port: u16) -> (p: Self)
        ensures
            p.host@ == host@,
            p.port == port,
    {
        PeerAddr { host: host.to_owned(), port }
    }

    /// The node id of this address; its host must be dotted-quad IPv4 text.
    pub fn id(&self) -> (id: NodeId)
        requires
            valid_host(self.host@),
        ensures
            id@ == node_id_of(self.host@, self.port),
    {
        peer_id(self.host.as_str(), self.port)
    }
}

/// Computes a 32-byte node id from a host and port: the BLAKE2b-256 digest of
/// the address's compact encoding. The host must be dotted-quad IPv4 text.
pub fn peer_id(host: &str, port: u16) -> (id: NodeId)
    requires
        valid_host(host@),
    ensures
        id@ == node_id_of(host@, port),
{
    let mut enc = State::new();
    crate::compact_encoding::preencode_ipv4_address(&mut enc, host, port);
    enc.allocate();
    let _ = crate::compact_encoding::encode_ipv4_address(&mut enc, host, port);
    proof {
        lemma_ipv4_address_roundtrip(host@, port, Seq::empty());
        assert(enc.buffer@ =~= enc_ipv4_address(parse_ipv4_text(host@)->0, port));
    }
    hash(enc.buffer.as_slice())
}

} // verus!
