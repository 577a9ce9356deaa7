use vstd::prelude::*;

verus! {

/// Seat of the player that is being trained.
pub const TRAIN_AGENT_ID: usize = 0;

/// Length of the observation vector for a four-player game.
pub const INPUT_STATE_DIM: usize = 233;

} // verus!
