//! A storage node: the rules by which it lays out, reads, imports and retires blocks.
pub mod arena;
pub mod batch_write;
pub mod bytes;
pub mod cached_read;
pub mod command;
pub mod current_cache;
pub mod data_core_read;
pub mod digest;
pub mod dispatch;
pub mod error;
pub mod identity;
pub mod inode_reference;
pub mod layout_write;
pub mod limits;
pub mod namespace;
pub mod node;
pub mod node_import;
pub mod node_read;
pub mod node_session;
pub mod node_space;
pub mod payload;
pub mod peer_import;
pub mod peer_pull;
pub mod prefetch;
pub mod protocol;
pub mod pull_plan;
pub mod read_flow;
pub mod read_plan;
pub mod replica_reporter;
pub mod replica_transfer;
pub mod request_laws;
pub mod retirement;
pub mod session;
pub mod staging;
pub mod table;
pub mod value_write;
pub mod version_layout;
