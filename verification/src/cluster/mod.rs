//! Cluster membership, routing and messaging.

pub mod balancer;
pub mod discovery;
pub mod error;
pub mod events;
pub mod forwarder;
pub mod glob;
pub mod glob_laws;
pub mod gossip;
pub mod join;
pub mod membership;
pub mod membership_laws;
pub mod message;
pub mod pubsub;
pub mod pubsub_laws;
pub mod replies;
pub mod routing;
pub mod runtime;
pub mod swim;
pub mod swim_laws;
