//! Verified core of a data-availability extension for a fault-proof program:
//! preimage keys, blob ingestion on the host side, blob reconstruction on the
//! client side, and the scan of batcher transactions that finds the blobs.

pub mod digest;
pub mod rlp;
pub mod cert;
pub mod codec;
pub mod keys;
pub mod store;
pub mod host;
pub mod client;
pub mod proto;
pub mod roundtrip;
pub mod source;
pub mod hint;
pub mod proxy;
