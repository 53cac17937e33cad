//! Verified core of a distributed in-memory cache.

pub mod binary;
pub mod buffer;
pub mod chance;
pub mod client;
pub mod clock;
pub mod cluster;
pub mod config;
pub mod error;
pub mod hasher;
pub mod ids;
pub mod member;
pub mod mode;
pub mod net;
pub mod profile;
pub mod protocol;
pub mod text;
pub mod text_laws;
