use vstd::prelude::*;

verus! {

/// The shared result slot of the trial orchestration: holds the first
/// successful candidate payload. Writes are accepted only into an empty
/// cell, so the first recorded success wins and later successes are
/// silently discarded.
pub struct TrialCell {
    pub winner: Option<Vec<u8>>,
}

impl TrialCell {
    /// An empty cell: no candidate has succeeded yet.
    pub fn new() -> (r: TrialCell)
        ensures
            r.winner is None,
    {
        TrialCell { winner: None }
    }

    /// Records one trial's outcome: an empty cell is filled with the payload
    /// exactly when the trial succeeded, and an existing winner is never
    /// overwritten.
    pub fn record_trial(&mut self, payload: &Vec<u8>, success: bool)
        ensures
            old(self).winner is Some ==> final(self).winner == old(self).winner,
            old(self).winner is None && success ==> (final(self).winner matches Some(w) && w@
                == payload@),
            old(self).winner is None && !success ==> final(self).winner is None,
    {
        if success && self.winner.is_none() {
            let w = payload.clone();
            proof {
                assert(w@ =~= payload@);
            }
            self.winner = Some(w);
        }
    }
}

} // verus!
