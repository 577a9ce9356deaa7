use sevens::agent::agent::{legal_actions, Agent, RandomAgent};
use sevens::buffer::ReplayBuffer;
use sevens::env::{SevensEnv, PASS_ACTION};

fn dealt_env() -> SevensEnv<RandomAgent> {
    let mut env = SevensEnv::new(4, 0, RandomAgent::new());
    let deck: Vec<u8> = (0..52).collect();
    env.deal(&deck);
    env
}

fn card_counts(env: &SevensEnv<RandomAgent>) -> Vec<usize> {
    let mut counts = vec![0usize; 52];
    for h in &env.state.hands {
        for &c in h {
            counts[c as usize] += 1;
        }
    }
    for &c in &env.state.virtual_hand {
        counts[c as usize] += 1;
    }
    for c in 0..52 {
        if env.state.field[c] {
            counts[c] += 1;
        }
    }
    counts
}

#[test]
fn legal_actions_lists_legal_codes_in_order() {
    let mut mask = vec![false; 53];
    mask[52] = true;
    mask[5] = true;
    mask[7] = true;
    assert_eq!(legal_actions(&mask), vec![5, 7, 52]);
    assert_eq!(legal_actions(&vec![false; 53]), Vec::<u8>::new());
}

#[test]
fn random_agent_picks_from_every_legal_action() {
    let env = dealt_env();
    let agent = RandomAgent::new();
    let mut seen = vec![false; 53];
    for _ in 0..300 {
        let a = agent.infer_q(&env.state);
        assert!(a == 5 || a == 7 || a == PASS_ACTION);
        seen[a as usize] = true;
    }
    assert!(seen[5] && seen[7] && seen[52]);
}

#[test]
fn random_agent_refuses_without_legal_actions() {
    let mut env = dealt_env();
    env.state.legal_actions_mask = vec![false; 53];
    let agent = RandomAgent::new();
    assert!(agent.select_action(&env.state, &0).is_err());
    let env2 = dealt_env();
    let a = agent.select_action(&env2.state, &0).unwrap();
    assert!(a == 5 || a == 7 || a == PASS_ACTION);
}

#[test]
fn finished_player_can_be_eliminated() {
    let mut env = dealt_env();
    env.state.hands[2].clear();
    env.state.finished_order.push(2);
    env.state.pass_counts[2] = 3;
    let event = env.apply_action(2, PASS_ACTION);
    assert!(event.make_opp_dobon);
    assert_eq!(env.state.finished_order, vec![2]);
    assert_eq!(env.state.eliminated, vec![2]);
    let mut env2 = dealt_env();
    env2.state.hands[3].clear();
    env2.state.finished_order.push(3);
    env2.dobon(3);
    assert_eq!(env2.state.eliminated, vec![3]);
    assert_eq!(env2.state.action_log[3], 0);
}

#[test]
fn stall_is_detected() {
    let mut env = dealt_env();
    assert!(!env.action_stalls(5));
    // everyone is out; a finished player's fourth pass would leave nobody to move
    env.state.finished_order = vec![0, 1];
    env.state.eliminated = vec![2, 3];
    env.state.current_player = 1;
    env.state.pass_counts[1] = 3;
    assert!(env.action_stalls(PASS_ACTION));
    assert!(env.check_done());
}

#[test]
fn rewards_take_the_later_place_of_a_player_listed_twice() {
    let mut env = dealt_env();
    env.state.finished_order = vec![1, 2];
    env.state.eliminated = vec![3, 1];
    // order: 1, 2, 1, 3 -> player 1 gets the value of third place
    assert_eq!(env.compute_reward_vector(), vec![0, -6, 6, -20]);
    assert_eq!(env.place_of(1), Some(0));
    assert_eq!(env.place_of(3), Some(3));
    assert_eq!(env.place_of(0), None);
}

#[test]
fn settling_twice_changes_nothing() {
    let mut env = dealt_env();
    env.state.virtual_hand = vec![5, 4, 3, 22];
    env.process_virtual();
    assert_eq!(env.state.virtual_hand, vec![22]);
    assert!(env.state.field[3] && env.state.field[4] && env.state.field[5]);
    let before = env.state.duplicate();
    env.process_virtual();
    assert_eq!(env.state.field, before.field);
    assert_eq!(env.state.virtual_hand, before.virtual_hand);
}

#[test]
fn thirteen_players_hold_every_card_once() {
    let mut env = SevensEnv::new(13, 0, RandomAgent::new());
    env.shuffle_and_deal();
    assert!(card_counts(&env).iter().all(|&k| k == 1));
    for h in &env.state.hands {
        assert!(h.len() <= 4);
    }
}

#[test]
fn full_games_against_random_opponents() {
    for _ in 0..30 {
        let mut env = SevensEnv::new(4, 0, RandomAgent::new());
        let state = env.reset().unwrap();
        assert!(card_counts(&env).iter().all(|&c| c == 1));
        assert_eq!(state.current_player, 0);
        assert!(env.state.pass_counts[0] == 0);
        let mut done = false;
        let mut turns = 0;
        while !done {
            assert_eq!(env.state.current_player, 0);
            let a = RandomAgent::new().infer_q(&env.state);
            let before = env.state.eliminated.len();
            let (seen, out, over) = env.step(a).unwrap();
            assert!(out.penalty == 0 || out.penalty == -2);
            assert_eq!(over, out.final_reward.is_some());
            if over {
                assert!(seen.legal_actions_mask.iter().all(|&m| !m));
                assert_eq!(out.final_reward.unwrap(), env.compute_reward_vector()[0]);
            } else {
                assert_eq!(env.state.current_player, 0);
                assert_eq!(seen.legal_actions_mask, env.state.legal_actions_mask);
                assert!(env.state.eliminated.len() >= before + out.opponent_eliminations);
            }
            assert!(card_counts(&env).iter().all(|&c| c == 1));
            done = over;
            turns += 1;
            assert!(turns < 300);
        }
        assert!(env.check_done());
    }
}

#[test]
fn init_game_stops_at_the_agents_first_turn() {
    for _ in 0..40 {
        let mut env = SevensEnv::new(4, 0, RandomAgent::new());
        env.init_game().unwrap();
        assert_eq!(env.state.current_player, 0);
        // the agent's hand is the one it was dealt: no opponent touched it
        assert_eq!(env.state.pass_counts[0], 0);
        assert_eq!(env.state.action_log[0], 0);
    }
}

#[test]
fn opponent_turn_asks_the_opponent() {
    let mut env = SevensEnv::new(4, 0, RandomAgent::new());
    let deck: Vec<u8> = (0..52).collect();
    env.deal(&deck);
    env.state.current_player = 1;
    env.state.legal_actions_mask = env.get_legal_action_mask();
    let bonus = env.opponent_turn().unwrap();
    assert_eq!(bonus, 0);
    assert_ne!(env.state.current_player, 1);
    // player 1 either placed 18 or 20, or passed
    assert!(env.state.field[18] || env.state.field[20] || env.state.pass_counts[1] == 1);
}

#[test]
fn sampled_items_were_added_and_window_is_latest() {
    let mut b: ReplayBuffer<u32> = ReplayBuffer::new(3);
    for k in 1..=7u32 {
        b.add(k);
        let expect_len = if k < 3 { k as usize } else { 3 };
        assert_eq!(b.len(), expect_len);
        let mut all: Vec<u32> = b.sample(10).into_iter().copied().collect();
        all.sort();
        let lo = if k > 3 { k - 2 } else { 1 };
        assert_eq!(all, (lo..=k).collect::<Vec<u32>>());
    }
    let picked: Vec<u32> = b.gather(&vec![2, 0]).into_iter().copied().collect();
    assert_eq!(picked.len(), 2);
    assert!(picked.iter().all(|x| (5..=7).contains(x)));
}

struct Refuser;

impl Agent for Refuser {
    fn select_action(&self, _state: &sevens::env::RawState, _player_id: &usize) -> Result<u8, String> {
        Err(String::from("refused"))
    }
}

struct AlwaysCard;

impl Agent for AlwaysCard {
    fn select_action(&self, _state: &sevens::env::RawState, _player_id: &usize) -> Result<u8, String> {
        Ok(0)
    }
}

fn ordered_env<O: Agent>(opponent: O) -> SevensEnv<O> {
    let mut env = SevensEnv::new(4, 0, opponent);
    let deck: Vec<u8> = (0..52).collect();
    env.deal(&deck);
    env
}

#[test]
fn refusal_is_handed_back_with_state_unchanged() {
    let mut env = ordered_env(Refuser);
    env.state.current_player = 1;
    let before = env.state.duplicate();
    assert_eq!(env.opponent_turn(), Err(String::from("refused")));
    assert_eq!(env.state.field, before.field);
    assert_eq!(env.state.hands, before.hands);
    assert_eq!(env.state.current_player, 1);
    // the agent's move hands the turn to player 1, who refuses
    let mut env2 = ordered_env(Refuser);
    let r = env2.step(5);
    assert!(r.is_err());
    assert_eq!(env2.state.current_player, 1);
    assert!(!env2.check_done());
}

#[test]
fn illegal_opponent_action_is_refused_in_the_loop() {
    let mut env = ordered_env(AlwaysCard);
    let r = env.step(5);
    assert_eq!(r.err(), Some(String::from("Illegal action")));
    assert_eq!(env.state.current_player, 1);
    // taken alone, the same opponent's turn is carried out as the rules say
    let mut env2 = ordered_env(AlwaysCard);
    env2.state.current_player = 1;
    assert_eq!(env2.opponent_turn(), Ok(0));
    assert_eq!(env2.state.current_player, 2);
}

#[test]
fn game_already_at_agents_turn_plays_no_opponent() {
    let mut env = ordered_env(Refuser);
    assert_eq!(env.state.current_player, 0);
    assert_eq!(env.play_opponents(), Ok((0, None)));
}

#[test]
fn settling_keeps_unplaced_cards_in_order() {
    let mut env = dealt_env();
    env.state.virtual_hand = vec![22, 5, 35, 4];
    env.process_virtual();
    assert_eq!(env.state.virtual_hand, vec![22, 35]);
    assert!(env.state.field[4] && env.state.field[5]);
}

#[test]
fn unseated_start_is_fine_when_every_card_is_dealt() {
    let mut env = SevensEnv::new(4, 0, RandomAgent::new());
    env.state.current_player = 9;
    env.shuffle_and_deal();
    assert!(env.state.current_player < 4);
    assert!(env.state.hands[env.state.current_player].iter().all(|&c| c != 6));
}
