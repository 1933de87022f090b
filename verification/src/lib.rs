//! Core engines of an incremental monorepo task runner: content hashing and
//! global fingerprints, syntax-aware hashing of JavaScript/TypeScript sources,
//! symbol extraction and the consumer index, the workspace dependency graph
//! with build order and affected sets, the dependency-aware scheduler core,
//! the tiered result cache, and the daemon's hash index and request handling.

pub mod cache;
pub mod cloud;
pub mod digest;
pub mod fingerprint;
pub mod graph;
pub mod p2p;
pub mod runner;
pub mod scheduler;
pub mod server;
pub mod state;
pub mod store;
pub mod symbol_graph;
pub mod symbols;
pub mod syntax;
pub mod tui;
pub mod watcher;
