//! Which member owns which partition, and how the cluster agrees on it.

pub mod ring;
pub mod ring_laws;
pub mod store;
pub mod table;
pub mod table_laws;
pub mod coordinator;
