//! Distributed-hash-table wire messages: key requests, key responses and
//! lookup requests. Request ids are digests of a random 16-bit nonce;
//! colliding ids are accepted as a negligible-probability event.

use vstd::prelude::*;

use crate::consensus::Message;
use crate::serial::{le_bytes, serialize};

verus! {

/// What blake3 digests a byte string to. The digest is a function of the
/// input bytes alone; its 32-byte value is not spelled out here.
pub uninterp spec fn blake3_of(data: Seq<u8>) -> Seq<u8>;

/// Relies on blake3::hash: a 32-byte digest computed from the input bytes
/// alone.
#[verifier::external_body]
fn blake3_hash(data: &Vec<u8>) -> (r: [u8; 32])
    ensures
        r@ == blake3_of(data@),
{
    blake3::hash(data.as_slice()).into()
}

/// Relies on rand's thread-local generator: a random 16-bit nonce. Nothing
/// is promised of the value.
#[verifier::external_body]
fn random_u16() -> u16 {
    rand::random::<u16>()
}

/// A fresh request id: the digest of a random nonce's wire encoding.
fn random_id() -> (r: [u8; 32])
    ensures
        exists|n: u16| r@ == blake3_of(le_bytes(n as int, 2)),
{
    let n = random_u16();
    let bytes = serialize(&n);
    let id = blake3_hash(&bytes);
    proof {
        assert(id@ == blake3_of(le_bytes(n as int, 2)));
    }
    id
}

/// A key request: who asks whom for which key.
#[derive(Debug, Clone)]
pub struct KeyRequest {
    /// Request id.
    pub id: [u8; 32],
    /// Daemon id requesting the key.
    pub from: [u8; 32],
    /// Daemon id holding the key.
    pub to: [u8; 32],
    /// Key entry.
    pub key: [u8; 32],
}

impl KeyRequest {
    /// A fresh request under a random id.
    pub fn new(from: [u8; 32], to: [u8; 32], key: [u8; 32]) -> (r: Self)
        ensures
            r.from == from,
            r.to == to,
            r.key == key,
            exists|n: u16| r.id@ == blake3_of(le_bytes(n as int, 2)),
    {
        let id = random_id();
        Self { id, from, to, key }
    }
}

impl Message for KeyRequest {
    fn name() -> &'static str {
        "keyrequest"
    }
}

/// A key response: the requested key and its value.
#[derive(Debug, Clone)]
pub struct KeyResponse {
    /// Response id.
    pub id: [u8; 32],
    /// Daemon id holding the key.
    pub from: [u8; 32],
    /// Daemon id the response goes to.
    pub to: [u8; 32],
    /// Key entry.
    pub key: [u8; 32],
    /// Key value.
    pub value: Vec<u8>,
}

impl KeyResponse {
    /// A fresh response under a random id.
    pub fn new(from: [u8; 32], to: [u8; 32], key: [u8; 32], value: Vec<u8>) -> (r: Self)
        ensures
            r.from == from,
            r.to == to,
            r.key == key,
            r.value == value,
            exists|n: u16| r.id@ == blake3_of(le_bytes(n as int, 2)),
    {
        let id = random_id();
        Self { id, from, to, key, value }
    }
}

impl Message for KeyResponse {
    fn name() -> &'static str {
        "keyresponse"
    }
}

/// A lookup-map request: insert or remove one key for a daemon.
#[derive(Debug, Clone)]
pub struct LookupRequest {
    /// Request id.
    pub id: [u8; 32],
    /// Daemon id executing the request.
    pub daemon: [u8; 32],
    /// Key entry.
    pub key: [u8; 32],
    /// Request type: 0 inserts, 1 removes.
    pub req_type: u8,
}

impl LookupRequest {
    /// A fresh request under a random id.
    pub fn new(daemon: [u8; 32], key: [u8; 32], req_type: u8) -> (r: Self)
        ensures
            r.daemon == daemon,
            r.key == key,
            r.req_type == req_type,
            exists|n: u16| r.id@ == blake3_of(le_bytes(n as int, 2)),
    {
        let id = random_id();
        Self { id, daemon, key, req_type }
    }
}

impl Message for LookupRequest {
    fn name() -> &'static str {
        "lookuprequest"
    }
}

} // verus!
