//! Wire protocol: frames, codec and the command set.

pub mod codec;
pub mod codec_laws;
pub mod command;
pub mod command_laws;
pub mod double;
pub mod error;
pub mod frame;
pub mod hello;
pub mod verb;
