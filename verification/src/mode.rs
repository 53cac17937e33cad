//! Deployment mode.

use vstd::prelude::*;

verus! {

/// How the runtime is wired up.
#[derive(Debug, Clone, Copy, PartialEq, Eq, Structural, Hash)]
pub enum Mode {
    /// Server binary listening on the RESP port.
    Standalone,
    /// In-process cache of a single node.
    EmbeddedSolo,
    /// In-process cache that takes part in a cluster.
    EmbeddedClustered,
}

/// Name of a mode.
pub open spec fn mode_name(m: Mode) -> Seq<char> {
    match m {
        Mode::Standalone => "standalone"@,
        Mode::EmbeddedSolo => "embedded_solo"@,
        Mode::EmbeddedClustered => "embedded_clustered"@,
    }
}

impl Mode {
    /// Whether the mode needs membership, routing and discovery.
    pub fn requires_cluster(self) -> (r: bool)
        ensures
            r == (self == Mode::Standalone || self == Mode::EmbeddedClustered),
    {
        match self {
            Mode::Standalone | Mode::EmbeddedClustered => true,
            Mode::EmbeddedSolo => false,
        }
    }

    /// Whether the mode runs inside the application's process.
    pub fn is_embedded(self) -> (r: bool)
        ensures
            r == (self == Mode::EmbeddedSolo || self == Mode::EmbeddedClustered),
    {
        match self {
            Mode::EmbeddedSolo | Mode::EmbeddedClustered => true,
            Mode::Standalone => false,
        }
    }

    /// Name for logs and messages.
    pub fn as_str(self) -> (r: &'static str)
        ensures
            r@ == mode_name(self),
    {
        match self {
            Mode::Standalone => "standalone",
            Mode::EmbeddedSolo => "embedded_solo",
            Mode::EmbeddedClustered => "embedded_clustered",
        }
    }
}

impl Default for Mode {
    /// The mode without any network.
    fn default() -> (r: Self)
        ensures
            r == Mode::EmbeddedSolo,
    {
        Mode::EmbeddedSolo
    }
}

} // verus!
