//! A small publish/subscribe broker: per-topic update ledgers with
//! reference-counted updates, subscriber cursors, and the acknowledgment
//! protocol that advances them; plus the request vocabulary, the server-side
//! dispatcher and the client-side bookkeeping.
pub mod client;
pub mod keyed;
pub mod laws;
pub mod model;
pub mod protocol;
pub mod server;
pub mod topic;
