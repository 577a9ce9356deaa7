# sevens

The card game Sevens (七並べ) for four players, with the pieces a
reinforcement-learning agent needs around it, as a Verus-verified library.

* `src/card.rs` — card ids, suits, ranks, neighbours and their names.
* `src/env.rs` — the rules: dealing, legal actions, playing and passing,
  elimination after the fourth pass (the "dobon"), the virtual hand of
  eliminated players, turn order, final places and rewards. Rewards are counted
  in twentieths (`REWARD_UNITS`).
* `src/processor.rs` — the observation vector of a player, as exact fractions.
* `src/buffer.rs` — a replay buffer that keeps the latest items.
* `src/lr_scheduler.rs` — the cycle bookkeeping of cosine annealing with warm
  restarts.
* `src/agent/agent.rs` — the `Agent` trait through which players choose their
  moves, the legal-action list, and the random opponent.
* `src/rng.rs` — the calls into `rand` and what is assumed of them.

`app/` holds the neural-network agents (candle), the training loops, the
prioritised replay buffer and the command-line programs: everything that works
with floating-point numbers, files or the opponents' networks. The network
agents implement the library's `Agent` trait; `SevensEnv` holds the opponent,
and its `init_game` and `step` run the opponents' turns between the agent's
moves.
