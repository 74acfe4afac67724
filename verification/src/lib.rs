//! Verified core of a lightweight Ethereum sentry node.
//!
//! The node takes part in transaction gossip and serves recent blocks to its
//! peers. It does not sync the chain. This library holds what the node decides
//! and computes: which transactions are forwarded and how, which blocks are
//! remembered, how requests of peers are answered, and what is kept in files.
pub mod block;
pub mod block_cache;
pub mod block_file;
pub mod block_import;
pub mod config;
pub mod dedup;
pub mod eth_proxy;
pub mod forwarder;
pub mod history;
pub mod lru_cache;
pub mod network;
pub mod node_key;
pub mod recency;
pub mod rlp;
pub mod text;
pub mod validator;
pub mod ws_server;
