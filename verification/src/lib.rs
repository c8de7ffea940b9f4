//! Off-chain prover node for an on-chain query contract.
//!
//! The library holds the verified core of the node: the data model of
//! on-chain queries, the byte codec for persisted records and keys, the
//! durable store for queries and proof outcomes, the ingestion and
//! resolution state machines, and the bounded-parallelism dispatcher.
//! I/O, the async runtime and the proving engine live outside, in the
//! surrounding application.

pub mod codec;
pub mod config;
pub mod dispatch;
pub mod ingest;
pub mod pipeline;
pub mod resolver;
pub mod store;
pub mod types;
pub mod witness;
