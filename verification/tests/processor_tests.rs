use sevens::common::INPUT_STATE_DIM;
use sevens::agent::agent::RandomAgent;
use sevens::env::SevensEnv;
use sevens::processor::{Feature, Processor};

fn value(f: &Feature) -> f64 {
    f.num as f64 / f.den as f64
}

#[test]
fn observation_has_input_dim() {
    let mut env = SevensEnv::new(4, 0, RandomAgent::new());
    env.deal(&(0..52).collect::<Vec<u8>>());
    let p = Processor::new(256);
    let mut obs = Vec::new();
    p.write_buf(&mut obs, &env.state, 0, 4);
    assert_eq!(obs.len(), INPUT_STATE_DIM);
    // field block: sevens only
    for c in 0..52 {
        assert_eq!(value(&obs[c]), if c % 13 == 6 { 1.0 } else { 0.0 });
    }
    // own hand: diamonds except the seven
    for c in 0..52 {
        assert_eq!(value(&obs[52 + c]), if c < 13 && c != 6 { 1.0 } else { 0.0 });
    }
    // virtual hand empty
    assert!(obs[104..156].iter().all(|f| f.num == 0));
    // rank distance of the ace of diamonds: 6 ranks from the seven, in sixths
    assert_eq!(obs[156], Feature { num: 6, den: 6 });
    assert_eq!(obs[156 + 12], Feature { num: 6, den: 6 });
    assert_eq!(obs[156 + 5], Feature { num: 1, den: 6 });
    assert_eq!(obs[156 + 6], Feature { num: 0, den: 6 });
    // stops: 6 and 8 of diamonds are held next to the seven -> 2 halves
    assert_eq!(obs[208], Feature { num: 2, den: 2 });
    // first player block: 4 passes left, hand of 12, no action yet
    assert_eq!(obs[212], Feature { num: 4, den: 4 });
    assert_eq!(obs[213], Feature { num: 0, den: 1 });
    assert_eq!(obs[214], Feature { num: 12, den: 13 });
    assert_eq!(obs[215], Feature { num: 0, den: 53 });
    // summary
    assert_eq!(obs[228], Feature { num: 0, den: 4 });
    assert_eq!(obs[229], Feature { num: 0, den: 4 });
    assert_eq!(obs[230], Feature { num: 4, den: 4 });
    assert_eq!(obs[231], Feature { num: 4, den: 52 });
    assert_eq!(obs[232], Feature { num: 3, den: 13 });
}

#[test]
fn observation_rotates_players() {
    let mut env = SevensEnv::new(4, 0, RandomAgent::new());
    env.deal(&(0..52).collect::<Vec<u8>>());
    env.state.pass_counts = vec![0, 1, 2, 3];
    let p = Processor::new(1);
    let mut obs = Vec::new();
    p.write_buf(&mut obs, &env.state, 2, 4);
    // starts with player 2, then 3, 0, 1
    assert_eq!(obs[212], Feature { num: 2, den: 4 });
    assert_eq!(obs[216], Feature { num: 1, den: 4 });
    assert_eq!(obs[217], Feature { num: 1, den: 1 });
    assert_eq!(obs[220], Feature { num: 4, den: 4 });
    assert_eq!(obs[224], Feature { num: 3, den: 4 });
}
