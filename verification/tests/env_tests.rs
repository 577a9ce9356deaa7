use sevens::agent::agent::RandomAgent;
use sevens::card::Card;
use sevens::env::{RawState, SevensEnv, Turn, PASS_ACTION, REWARD_UNITS};

fn ordered_deck() -> Vec<u8> {
    (0..52).collect()
}

fn dealt_env() -> SevensEnv<RandomAgent> {
    let mut env = SevensEnv::new(4, 0, RandomAgent::new());
    env.deal(&ordered_deck());
    env
}

#[test]
fn new_env_is_empty() {
    let env = SevensEnv::new(4, 0, RandomAgent::new());
    assert_eq!(env.num_players, 4);
    assert_eq!(env.state.hands.len(), 4);
    assert!(env.state.hands.iter().all(|h| h.is_empty()));
    assert_eq!(env.state.field, vec![false; 52]);
    assert_eq!(env.state.pass_counts, vec![0; 4]);
    assert_eq!(env.state.legal_actions_mask, vec![false; 53]);
    assert!(!env.check_done());
}

#[test]
fn deal_ordered_deck() {
    let env = dealt_env();
    // each player holds its suit without the seven
    for p in 0..4usize {
        let expected: Vec<u8> = (0..13u8).map(|r| p as u8 * 13 + r).filter(|c| c % 13 != 6).collect();
        assert_eq!(env.state.hands[p], expected);
    }
    for c in 0..52usize {
        assert_eq!(env.state.field[c], c % 13 == 6);
    }
    // the holder of the seven of diamonds starts
    assert_eq!(env.state.current_player, 0);
    let mask = &env.state.legal_actions_mask;
    let legal: Vec<usize> = (0..53).filter(|&i| mask[i]).collect();
    assert_eq!(legal, vec![5, 7, 52]);
}

#[test]
fn deal_three_players_leaves_cards_out() {
    let mut env = SevensEnv::new(3, 0, RandomAgent::new());
    env.deal(&ordered_deck());
    // 52 / 3 = 17 cards each; card 51 is not dealt
    assert_eq!(env.state.hands[0].len(), 17 - 1); // seven 6
    assert_eq!(env.state.hands[1].len(), 17 - 2); // sevens 19 and 32
    assert_eq!(env.state.hands[2].len(), 17 - 1); // seven 45
    assert!(!env.state.hands[2].contains(&51));
    assert!(env.state.field[45]);
    assert_eq!(env.state.current_player, 0);
}

#[test]
fn can_play_rules() {
    let env = dealt_env();
    assert!(env.can_play(Card(6)));
    assert!(env.can_play(Card(5)));
    assert!(env.can_play(Card(7)));
    assert!(!env.can_play(Card(4)));
    assert!(!env.can_play(Card(8)));
    assert!(env.can_play(Card(20)));
}

#[test]
fn step_plays_card_and_passes_turn() {
    let mut env = dealt_env();
    let (reward, done) = env.agent_move(5);
    assert_eq!(reward, 0);
    assert!(!done);
    assert!(env.state.field[5]);
    assert!(!env.state.hands[0].contains(&5));
    assert_eq!(env.state.action_log[0], 6);
    assert_eq!(env.state.current_player, 1);
    match env.next_turn() {
        Turn::Opponent(p) => assert_eq!(p, 1),
        _ => panic!("expected an opponent's turn"),
    }
    // player 1 may play 18 or 20, or pass
    let legal: Vec<usize> = (0..53).filter(|&i| env.state.legal_actions_mask[i]).collect();
    assert_eq!(legal, vec![18, 20, 52]);
}

#[test]
fn opponent_pass_counts() {
    let mut env = dealt_env();
    env.agent_move(5);
    let bonus = env.take_turn(PASS_ACTION);
    assert_eq!(bonus, 0);
    assert_eq!(env.state.pass_counts[1], 1);
    assert_eq!(env.state.action_log[1], 53);
    assert_eq!(env.state.current_player, 2);
}

#[test]
fn fourth_pass_eliminates() {
    let mut env = dealt_env();
    env.state.pass_counts[1] = 3;
    env.state.current_player = 1;
    let hand1 = env.state.hands[1].clone();
    let event = env.apply_action(1, PASS_ACTION);
    assert!(event.make_opp_dobon);
    assert!(!event.dobon);
    assert_eq!(env.state.eliminated, vec![1]);
    assert!(env.state.hands[1].is_empty());
    assert_eq!(env.state.action_log[1], 0);
    // cards next to the sevens were placed from the virtual hand right away
    assert!(env.state.field[18] && env.state.field[20]);
    assert!(env.state.field[13 + 0] && env.state.field[13 + 12]);
    assert!(env.state.virtual_hand.is_empty());
    assert_eq!(hand1.len(), 12);
}

#[test]
fn agent_fourth_pass_is_penalised() {
    let mut env = dealt_env();
    env.state.pass_counts[0] = 3;
    // with a playable card the fourth pass is not legal
    env.state.legal_actions_mask = env.get_legal_action_mask();
    assert!(!env.state.legal_actions_mask[52]);
    // with no playable card it is
    env.state.hands[0] = vec![0, 12];
    env.state.legal_actions_mask = env.get_legal_action_mask();
    assert!(env.state.legal_actions_mask[52]);
    let (reward, done) = env.agent_move(PASS_ACTION);
    assert_eq!(reward, -2);
    assert!(!done);
    assert_eq!(env.state.eliminated, vec![0]);
    assert_eq!(env.state.virtual_hand, vec![0, 12]);
}

#[test]
fn process_virtual_chains() {
    let mut env = dealt_env();
    env.state.virtual_hand = vec![3, 4, 5];
    env.process_virtual();
    assert!(env.state.field[3] && env.state.field[4] && env.state.field[5]);
    assert!(env.state.virtual_hand.is_empty());
    env.state.virtual_hand = vec![10, 1];
    env.process_virtual();
    assert_eq!(env.state.virtual_hand, vec![10, 1]);
}

#[test]
fn emptying_hand_finishes() {
    let mut env = dealt_env();
    env.state.hands[2] = vec![32];
    env.state.current_player = 2;
    env.apply_action(2, 32);
    assert_eq!(env.state.finished_order, vec![2]);
}

#[test]
fn advance_skips_players_out_of_the_game() {
    let mut env = dealt_env();
    env.state.finished_order = vec![1];
    env.state.eliminated = vec![2];
    env.advance_player();
    assert_eq!(env.state.current_player, 3);
    env.advance_player();
    assert_eq!(env.state.current_player, 0);
}

#[test]
fn reward_vector_orders_places() {
    let mut env = SevensEnv::new(4, 0, RandomAgent::new());
    env.state.finished_order = vec![2, 0];
    env.state.eliminated = vec![1, 3];
    assert!(env.check_done());
    assert_eq!(env.final_order(), vec![2, 0, 3, 1]);
    let r = env.compute_reward_vector();
    assert_eq!(r, vec![6, -20, 20, -6]);
    assert_eq!(r.iter().sum::<i32>(), 0);
    assert_eq!(REWARD_UNITS, 20);
}

#[test]
fn no_rewards_without_finisher() {
    let mut env = SevensEnv::new(4, 0, RandomAgent::new());
    env.state.eliminated = vec![1, 3, 0, 2];
    assert_eq!(env.compute_reward_vector(), vec![0, 0, 0, 0]);
}

#[test]
fn next_turn_reports_end() {
    let mut env = SevensEnv::new(4, 0, RandomAgent::new());
    env.state.finished_order = vec![3, 1, 2, 0];
    env.state.current_player = 2;
    match env.next_turn() {
        Turn::Over(r) => assert_eq!(r, -20),
        _ => panic!("expected the game to be over"),
    }
}

#[test]
fn agent_finishing_ends_game() {
    let mut env = SevensEnv::new(2, 0, RandomAgent::new());
    env.deal(&ordered_deck());
    env.state.hands[0] = vec![5];
    env.state.finished_order = vec![];
    env.state.eliminated = vec![1];
    env.state.legal_actions_mask = env.get_legal_action_mask();
    let (reward, done) = env.agent_move(5);
    assert!(done);
    assert_eq!(env.state.finished_order, vec![0]);
    assert_eq!(reward, 20);
}

#[test]
fn init_game_deals_a_permutation() {
    let mut env = SevensEnv::new(4, 0, RandomAgent::new());
    env.shuffle_and_deal();
    let mut cards: Vec<u8> = env.state.hands.iter().flatten().copied().collect();
    for c in 0..52u8 {
        if env.state.field[c as usize] {
            assert_eq!(c % 13, 6);
            cards.push(c);
        }
    }
    cards.sort();
    assert_eq!(cards, (0..52).collect::<Vec<u8>>());
    assert!(env.state.hands[env.state.current_player].len() <= 12);
    // the starting player held the seven of diamonds
    assert!(env.state.field[6]);
}

#[test]
fn raw_state_copy() {
    let env = dealt_env();
    let s: RawState = env.get_raw_state();
    assert_eq!(s.hands, env.state.hands);
    assert_eq!(s.legal_actions_mask, env.state.legal_actions_mask);
}

#[test]
fn random_play_ends_game() {
    let agent = RandomAgent::new();
    let mut env = SevensEnv::new(4, 0, RandomAgent::new());
    env.shuffle_and_deal();
    let mut moves = 0;
    loop {
        let action = agent.infer_q(&env.state);
        assert!(env.state.legal_actions_mask[action as usize]);
        let before = env.state.current_player;
        if before == env.agent_id {
            let (_, done) = env.agent_move(action);
            if done {
                break;
            }
        } else {
            env.take_turn(action);
        }
        moves += 1;
        assert!(moves <= 4 * 17);
        if let Turn::Over(_) = env.next_turn() {
            break;
        }
    }
    assert!(env.check_done());
}

#[test]
fn init_game_shuffles() {
    let mut ordered = SevensEnv::new(4, 0, RandomAgent::new());
    ordered.deal(&ordered_deck());
    let mut differs = false;
    for _ in 0..5 {
        let mut env = SevensEnv::new(4, 0, RandomAgent::new());
        env.shuffle_and_deal();
        if env.state.hands != ordered.state.hands {
            differs = true;
        }
    }
    assert!(differs);
}

#[test]
fn legal_action_always_available() {
    for _ in 0..20 {
        let mut env = SevensEnv::new(4, 0, RandomAgent::new());
        env.shuffle_and_deal();
        let p = env.state.current_player;
        assert!(env.state.pass_counts[p] < 4);
        assert!(env.state.legal_actions_mask.iter().any(|&m| m));
    }
}

fn cards_in_play(env: &SevensEnv<RandomAgent>) -> Vec<u8> {
    let mut cards: Vec<u8> = env.state.hands.iter().flatten().copied().collect();
    cards.extend(env.state.virtual_hand.iter().copied());
    for c in 0..52u8 {
        if env.state.field[c as usize] {
            cards.push(c);
        }
    }
    cards.sort();
    cards
}

#[test]
fn cards_are_conserved_during_play() {
    let agent = RandomAgent::new();
    let all: Vec<u8> = (0..52).collect();
    for _ in 0..10 {
        let mut env = SevensEnv::new(4, 0, RandomAgent::new());
        env.shuffle_and_deal();
        assert_eq!(cards_in_play(&env), all);
        loop {
            if let Turn::Over(_) = env.next_turn() {
                break;
            }
            let action = agent.infer_q(&env.state);
            if env.state.current_player == env.agent_id {
                let (_, done) = env.agent_move(action);
                assert_eq!(cards_in_play(&env), all);
                if done {
                    break;
                }
            } else {
                env.take_turn(action);
                assert_eq!(cards_in_play(&env), all);
            }
        }
    }
}
