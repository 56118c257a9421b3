//! Anti-entropy gossip substrate for a peer-to-peer cluster.
//!
//! Every node periodically exchanges compact state summaries with a peer and
//! converges to a shared view of the set of live nodes (and, in the DHT
//! variant, a ring of tokens partitioning a 64-bit key space). The modules
//! hold, leaves first: the wire codec, the stable digest, the node record,
//! the membership/token stores with the gossip protocol, and the swarm
//! lifecycle. Socket handling and threads live outside this crate; the
//! functions here work on plain values and byte buffers.

pub mod cluster;
pub mod codec;
pub mod dht;
pub mod digest;
pub mod errors;
pub mod node;
pub mod peer;
pub mod protocol;
pub mod seq_order;
pub mod server;
pub mod store;
pub mod swarm;
