//! The core of a Kademlia / Mainline DHT node.
//!
//! - `uid`: 160-bit identifiers and the XOR metric.
//! - `net`, `node`, `crc32c`: endpoints, node records, compact packing and the
//!   secure-identifier scheme bound to a node's address.
//! - `routing`, `vote`, `order`: the routing table, the public-address vote and the
//!   closest-node order.
//! - `throttle`, `tracker`: per-address rate limits and outstanding calls.
//! - `decimal`, `bencode`, `messages`: the frames of the wire protocol.
//! - `rpc`, `lookup`, `bucket_types`: the server's decisions and the lookups.
pub mod uid;
pub mod net;
pub mod crc32c;
pub mod node;
pub mod routing;
pub mod vote;
pub mod order;
pub mod throttle;
pub mod tracker;
pub mod decimal;
pub mod bencode;
pub mod messages;
pub mod rpc;
pub mod bucket_types;
pub mod lookup;
