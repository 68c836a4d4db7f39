//! The replicated store: the log and its storage, the key-value state
//! machine, cluster membership, the consensus core, the facade that
//! clients talk to, and the bytes that a node keeps on disk.

pub mod cluster;
pub mod codec;
pub mod completeness;
pub mod facade;
pub mod id_map;
pub mod log_store;
pub mod membership;
pub mod messages;
pub mod node;
pub mod node_model;
pub mod safety;
pub mod state_machine;
pub mod types;
