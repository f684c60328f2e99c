//! Verified core of a peer-to-peer consensus node: the binary codec used on
//! the wire, the vote-tally / block-finalization state machine, and the
//! connection-set bookkeeping of the network orchestrator.

pub mod consensus;
pub mod error;
pub mod laws;
pub mod dht;
pub mod net_name;
pub mod p2p;
pub mod protocol_vote;
pub mod rpc;
pub mod tasks;
pub mod serial;
pub mod validator;
