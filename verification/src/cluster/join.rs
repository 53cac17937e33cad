//! Joining a cluster.
//!
//! A node that starts asks the discovered peers for a sign of life, and tells
//! them about itself. One answer is enough. A round without an answer is tried
//! again, up to a number of times; who finds no peers at all starts alone.

use vstd::prelude::*;
use vstd::string::*;

use crate::cluster::error::{ClusterError, ClusterErrorView};

verus! {

/// Outcome of one round.
#[derive(Debug)]
pub enum JoinRound {
    /// There are no peers.
    Nobody,
    /// This many peers were asked and answered.
    Answered(u32),
    /// Peers were asked, and none answered.
    Silent,
    /// The peers could not be found.
    Failed(ClusterError),
}

/// What to do after a round.
#[derive(Debug)]
pub enum JoinStep {
    /// The node is part of the cluster, with this many peers.
    Joined(u32),
    /// Wait, and try again.
    Retry,
    /// Give up.
    GiveUp(ClusterError),
}

/// The rounds of joining.
#[derive(Debug)]
pub struct Join {
    attempts: u32,
    max_attempts: u32,
}

/// Why a round without success failed.
pub open spec fn round_failure(round: JoinRound) -> Seq<char> {
    match round {
        JoinRound::Failed(e) => crate::cluster::error::cluster_message(e@),
        _ => "no peer answered"@,
    }
}

impl Join {
    /// How many rounds have failed, and how many may.
    pub closed spec fn rounds(&self) -> (u32, u32) {
        (self.attempts, self.max_attempts)
    }

    /// No round has been tried.
    pub fn new(max_attempts: u32) -> (r: Self)
        ensures
            r.rounds() == (0u32, max_attempts),
    {
        Join { attempts: 0, max_attempts }
    }

    /// Decides what follows a round.
    pub fn after(&mut self, round: JoinRound) -> (r: JoinStep)
        requires
            old(self).rounds().0 < u32::MAX,
        ensures
            final(self).rounds().1 == old(self).rounds().1,
            match round {
                JoinRound::Nobody => r == JoinStep::Joined(0) && final(self).rounds() == old(
                    self,
                ).rounds(),
                JoinRound::Answered(n) => r == JoinStep::Joined(n) && final(self).rounds() == old(
                    self,
                ).rounds(),
                _ => {
                    let tried = old(self).rounds().0 + 1;
                    &&& final(self).rounds().0 == tried
                    &&& if tried < old(self).rounds().1 {
                        r is Retry
                    } else {
                        r matches JoinStep::GiveUp(e) && e@ == (ClusterErrorView::JoinFailed {
                            attempts: tried as u32,
                            last: round_failure(round),
                        })
                    }
                },
            },
    {
        let last: String = match &round {
            JoinRound::Nobody => {
                return JoinStep::Joined(0);
            },
            JoinRound::Answered(n) => {
                return JoinStep::Joined(*n);
            },
            JoinRound::Silent => "no peer answered".to_owned(),
            JoinRound::Failed(e) => e.message(),
        };
        self.attempts = self.attempts + 1;
        if self.attempts < self.max_attempts {
            JoinStep::Retry
        } else {
            JoinStep::GiveUp(ClusterError::JoinFailed { attempts: self.attempts, last })
        }
    }
}

} // verus!
