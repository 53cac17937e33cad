//! What applications see: maps, locks, scans and pub/sub, on a node of their
//! own or on a server.

pub mod cursor;
pub mod dmap;
pub mod embedded;
pub mod embedded_laws;
pub mod entry;
pub mod error;
pub mod fragment;
pub mod lock;
pub mod map_laws;
pub mod migration;
pub mod multi_node;
pub mod pipeline;
pub mod pubsub;
pub mod registry;
pub mod registry_laws;
pub mod remote;
pub mod remote_laws;
pub mod scan_laws;
pub mod stats;
pub mod time_laws;
pub mod types;
pub mod wire_laws;
