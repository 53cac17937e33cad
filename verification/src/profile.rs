//! Configuration profile.

use vstd::prelude::*;

verus! {

/// Which safety guards apply to a configuration.
#[derive(Debug, Clone, Copy, PartialEq, Eq, Structural, Hash)]
pub enum Profile {
    /// Single node, no replication, no quorum.
    Development,
    /// Refuses a single replica and asks for majority quorums.
    Production,
    /// No guards.
    Custom,
}

/// Name of a profile.
pub open spec fn profile_name(p: Profile) -> Seq<char> {
    match p {
        Profile::Development => "development"@,
        Profile::Production => "production"@,
        Profile::Custom => "custom"@,
    }
}

impl Profile {
    /// Whether the production guards apply.
    pub fn enforces_production_guards(self) -> (r: bool)
        ensures
            r == (self == Profile::Production),
    {
        match self {
            Profile::Production => true,
            _ => false,
        }
    }

    /// Name for logs and messages.
    pub fn as_str(self) -> (r: &'static str)
        ensures
            r@ == profile_name(self),
    {
        match self {
            Profile::Development => "development",
            Profile::Production => "production",
            Profile::Custom => "custom",
        }
    }
}

impl Default for Profile {
    fn default() -> (r: Self)
        ensures
            r == Profile::Development,
    {
        Profile::Development
    }
}

} // verus!
