//! HyperDHT wire formats, routing and storage logic with machine-checked contracts.
//!
//! The modules follow the protocol layers of HyperDHT: the compact binary
//! encoding, the DHT RPC messages, the HyperDHT peer messages, the Kademlia
//! routing table, NAT classification, record storage, the relay and
//! multiplexer frames with the multiplexer's channel bookkeeping, the Noise
//! and secretstream handshakes, and the decisions a node makes while it
//! answers requests and while it connects to peers.
pub mod compact_encoding;
pub mod text;
pub mod messages;
pub mod peer;
pub mod hyperdht_messages;
pub mod hyperdht_payloads;
pub mod crypto;
pub mod routing_table;
pub mod nat_classifier;
pub mod blind_relay;
pub mod protomux;
pub mod holepuncher;
pub mod socket_pool;
pub mod rpc;
pub mod query;
pub mod hex;
pub mod persistent;
pub mod hyperdht;
pub mod secretstream;
pub mod noise;
pub mod secure_payload;
pub mod secret_stream;
pub mod ipv6_text;
pub mod mux;
pub mod client;
pub mod requests;
