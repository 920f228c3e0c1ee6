//! Map-wide systems: the building network, power and compute, operational
//! status, exploration and the score.
use vstd::prelude::*;

pub mod compute;
pub mod network;
pub mod operational;
pub mod power;
pub mod scanning;

verus! {

/// The score earned by launches.
pub struct GameScore {
    pub total_score: u64,
    pub launches_completed: u32,
}

impl Default for GameScore {
    fn default() -> (s: Self)
        ensures
            s.total_score == 0 && s.launches_completed == 0,
    {
        GameScore { total_score: 0, launches_completed: 0 }
    }
}

impl GameScore {
    /// Counts one launch worth `points`.
    pub fn record_launch(&mut self, points: u64)
        requires
            old(self).total_score + points <= u64::MAX,
            old(self).launches_completed < u32::MAX,
        ensures
            final(self).total_score == old(self).total_score + points,
            final(self).launches_completed == old(self).launches_completed + 1,
    {
        self.total_score = self.total_score + points;
        self.launches_completed = self.launches_completed + 1;
    }
}

} // verus!
