//! Storage-engine core of an embedded property graph over an ordered
//! key-value store (sled): a component codec that lays graph entities out as
//! prefix-scannable byte keys, seven value trees plus a metadata tree, the
//! write protocol that keeps the redundant indices consistent, cascading
//! deletion, and the transaction surface.

pub mod bytes;
pub mod codec;
pub mod datastore;
pub mod edge_manager;
pub mod edge_property_manager;
pub mod edge_range_manager;
pub mod errors;
pub mod invariants;
pub mod kv;
pub mod laws;
pub mod metadata;
pub mod models;
pub mod transaction;
pub mod vertex_property_manager;
pub mod vertex_manager;
