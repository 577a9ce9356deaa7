//! Game logic of the card game Sevens (七並べ) together with the
//! bookkeeping that a reinforcement-learning agent needs around it:
//! card arithmetic, the game environment, the observation encoding,
//! a replay buffer and the warm-restart learning-rate schedule.
pub mod agent;
pub mod buffer;
pub mod card;
pub mod common;
pub mod conservation;
pub mod env;
pub mod lr_scheduler;
pub mod processor;
mod rng;
pub mod vs_view;
