use vstd::prelude::*;
use crate::env::{RawState, StateModel, cards_valid, contains_u8, state_wf};
use crate::common::INPUT_STATE_DIM;

verus! {

/// One entry of an observation: the fraction `num / den`.
#[derive(Debug, Clone, Copy, PartialEq, Eq, Structural)]
pub struct Feature {
    pub num: i64,
    pub den: u64,
}

pub open spec fn feat(num: int, den: int) -> Feature {
    Feature { num: num as i64, den: den as u64 }
}

/// 1 for `true`, 0 for `false`.
pub open spec fn flag(b: bool) -> Feature {
    feat(if b { 1 } else { 0 }, 1)
}

/// One flag per entry of `field`.
pub open spec fn field_flags(field: Seq<bool>) -> Seq<Feature> {
    Seq::new(field.len(), |c: int| flag(field[c]))
}

/// For each of the 52 cards, whether `cards` holds it.
pub open spec fn card_flags(cards: Seq<u8>) -> Seq<Feature> {
    Seq::new(52, |c: int| flag(cards.contains(c as u8)))
}

/// The lowest rank of suit `s` among its first `k` ranks that lies on the
/// field, or 6 (the seven) when that is lower.
pub open spec fn suit_min(field: Seq<bool>, s: int, k: int) -> int
    decreases k,
{
    if k <= 0 {
        6
    } else {
        let prev = suit_min(field, s, k - 1);
        if field[s * 13 + k - 1] && k - 1 < prev {
            k - 1
        } else {
            prev
        }
    }
}

/// The highest rank of suit `s` among its first `k` ranks that lies on the
/// field, or 6 when that is higher.
pub open spec fn suit_max(field: Seq<bool>, s: int, k: int) -> int
    decreases k,
{
    if k <= 0 {
        6
    } else {
        let prev = suit_max(field, s, k - 1);
        if field[s * 13 + k - 1] && k - 1 > prev {
            k - 1
        } else {
            prev
        }
    }
}

/// How many ranks separate rank `r` from the run of its suit on the field
/// (on the side away from the seven), 0 when it touches or lies inside it.
pub open spec fn rank_gap(r: int, lo: int, hi: int) -> int {
    if r < 6 && r < lo {
        lo - r
    } else if r > 6 && r > hi {
        r - hi
    } else {
        0
    }
}

/// The rank distances of all 52 cards, in sixths.
pub open spec fn gaps(field: Seq<bool>) -> Seq<Feature> {
    Seq::new(
        52,
        |c: int| feat(rank_gap(c % 13, suit_min(field, c / 13, 13), suit_max(field, c / 13, 13)), 6),
    )
}

/// Card `s * 13 + r` is held by the player, is next to an end of its suit's
/// run on the field, and is neither on the field nor in the virtual hand: the
/// player can hold back the suit with it.
pub open spec fn is_stop(m: StateModel, pid: int, s: int, r: int) -> bool {
    let c = s * 13 + r;
    let lo = suit_min(m.field, s, 13);
    let hi = suit_max(m.field, s, 13);
    &&& !m.field[c]
    &&& !m.virtual_hand.contains(c as u8)
    &&& m.hands[pid].contains(c as u8)
    &&& ((r < lo && r == lo - 1) || (r > hi && r == hi + 1))
}

/// The number of stops among the first `k` ranks of suit `s`.
pub open spec fn stop_count(m: StateModel, pid: int, s: int, k: int) -> int
    decreases k,
{
    if k <= 0 {
        0
    } else {
        stop_count(m, pid, s, k - 1) + if is_stop(m, pid, s, k - 1) {
            1int
        } else {
            0int
        }
    }
}

/// The stops of each suit, in halves.
pub open spec fn stops_block(m: StateModel, pid: int) -> Seq<Feature> {
    Seq::new(4, |s: int| feat(stop_count(m, pid, s, 13), 2))
}

/// The four entries describing player `p`: passes left (in quarters), whether it
/// has passed three times, its hand size (in thirteenths), and its last action
/// (in 53rds).
pub open spec fn player_feats(m: StateModel, p: int) -> Seq<Feature> {
    seq![
        feat(4 - m.pass_counts[p], 4),
        flag(m.pass_counts[p] >= 3),
        feat(m.hands[p].len() as int, 13),
        feat(m.action_log[p] as int, 53),
    ]
}

/// The entries of the first `i` players, starting with `pid` and going round the table.
pub open spec fn player_block(m: StateModel, pid: int, n: int, i: int) -> Seq<Feature>
    decreases i,
{
    if i <= 0 {
        Seq::empty()
    } else {
        player_block(m, pid, n, i - 1) + player_feats(m, (pid + i - 1) % n)
    }
}

/// The number of `true` entries among the first `k` of `s`.
pub open spec fn count_true(s: Seq<bool>, k: int) -> int
    decreases k,
{
    if k <= 0 {
        0
    } else {
        count_true(s, k - 1) + if s[k - 1] {
            1int
        } else {
            0int
        }
    }
}

/// Finished players and eliminated players (in quarters), the share of players
/// still in the game, the share of cards on the field, and the number of legal
/// actions (in thirteenths).
pub open spec fn summary(m: StateModel, n: int) -> Seq<Feature> {
    seq![
        feat(m.finished_order.len() as int, 4),
        feat(m.eliminated.len() as int, 4),
        feat(n - m.finished_order.len() - m.eliminated.len(), n),
        feat(count_true(m.field, m.field.len() as int), 52),
        feat(count_true(m.legal_actions_mask, m.legal_actions_mask.len() as int), 13),
    ]
}

/// The observation of player `pid` in a game of `n` players.
pub open spec fn observation(m: StateModel, pid: int, n: int) -> Seq<Feature> {
    field_flags(m.field) + card_flags(m.hands[pid]) + card_flags(m.virtual_hand) + gaps(m.field)
        + stops_block(m, pid) + player_block(m, pid, n, n) + summary(m, n)
}

/// What `write_buf` needs of a state: the observer and the seats it reads
/// exist, the cards it marks are real cards, and every count fits the
/// numerator of a feature.
pub open spec fn observable(m: StateModel, pid: int, n: int) -> bool {
    &&& 0 <= pid < m.hands.len()
    &&& m.field.len() >= 52
    &&& cards_valid(m.hands[pid])
    &&& cards_valid(m.virtual_hand)
    &&& n <= m.hands.len()
    &&& n <= m.pass_counts.len()
    &&& n <= m.action_log.len()
    &&& pid + n <= usize::MAX
    &&& m.finished_order.len() + m.eliminated.len() + n <= i64::MAX
    &&& m.field.len() <= i64::MAX
    &&& m.legal_actions_mask.len() <= i64::MAX
    &&& forall|p: int| 0 <= p < n ==> #[trigger] m.hands[p].len() <= i64::MAX
}


proof fn lemma_player_block_len(m: StateModel, pid: int, n: int, i: int)
    requires
        i >= 0,
    ensures
        player_block(m, pid, n, i).len() == 4 * i,
    decreases i,
{
    if i > 0 {
        lemma_player_block_len(m, pid, n, i - 1);
    }
}

/// The observation has one entry per field slot, 52 for the hand, 52 for the
/// virtual hand, 52 rank distances, 4 stop counts, 4 per player and 5 more;
/// for a well-formed four-player game that is `INPUT_STATE_DIM` entries.
pub proof fn lemma_observation_len(m: StateModel, pid: int, n: nat)
    ensures
        observation(m, pid, n as int).len() == m.field.len() + 165 + 4 * n,
        state_wf(m, n) && n == 4 ==> observation(m, pid, n as int).len() == INPUT_STATE_DIM,
{
    lemma_player_block_len(m, pid, n as int, n as int);
}

proof fn lemma_no_stops_without_cards(m: StateModel, pid: int, s: int, k: int)
    requires
        forall|r: int| 0 <= r < 13 ==> !m.hands[pid].contains(#[trigger] ((s * 13 + r) as u8)),
        k <= 13,
    ensures
        stop_count(m, pid, s, k) == 0,
    decreases k,
{
    if k > 0 {
        lemma_no_stops_without_cards(m, pid, s, k - 1);
        assert(!m.hands[pid].contains(((s * 13 + (k - 1)) as u8)));
    }
}

/// A stop is a card the observing player holds: a player that holds no card of
/// suit `s` has no stop in it, and its observation shows 0 stops for that
/// suit (the entry after the field, hand, virtual-hand and distance blocks).
pub proof fn lemma_stops_are_held(m: StateModel, pid: int, s: int, n: int)
    requires
        0 <= s < 4,
        forall|r: int| 0 <= r < 13 ==> !m.hands[pid].contains(#[trigger] ((s * 13 + r) as u8)),
    ensures
        stop_count(m, pid, s, 13) == 0,
        n >= 0 ==> observation(m, pid, n)[m.field.len() + 156 + s] == feat(0, 2),
{
    lemma_no_stops_without_cards(m, pid, s, 13);
    if n >= 0 {
        lemma_observation_len(m, pid, n as nat);
        let head = field_flags(m.field) + card_flags(m.hands[pid]) + card_flags(m.virtual_hand) + gaps(m.field);
        assert(head.len() == m.field.len() + 156);
        let o = observation(m, pid, n);
        assert(o == head + stops_block(m, pid) + player_block(m, pid, n, n) + summary(m, n));
        assert(o[head.len() + s] == stops_block(m, pid)[s]);
    }
}

/// Turns a game state into the feature vector that the agents' networks read.
pub struct Processor {
    pub max_batch_size: usize,
}

fn card_flags_of(cards: &Vec<u8>) -> (r: Vec<bool>)
    requires
        cards_valid(cards@),
    ensures
        r@ == Seq::new(52, |c: int| cards@.contains(c as u8)),
{
    let mut r: Vec<bool> = Vec::new();
    let mut c: usize = 0;
    while c < 52
        invariant
            c <= 52,
            r@ == Seq::new(c as nat, |d: int| false),
        decreases 52 - c,
    {
        r.push(false);
        c = c + 1;
        assert(r@ =~= Seq::new(c as nat, |d: int| false));
    }
    let mut k: usize = 0;
    while k < cards.len()
        invariant
            cards_valid(cards@),
            k <= cards@.len(),
            r@.len() == 52,
            forall|d: int| 0 <= d < 52 ==> #[trigger] r@[d] == cards@.take(k as int).contains(d as u8),
        decreases cards@.len() - k,
    {
        let card = cards[k];
        r.set(card as usize, true);
        k = k + 1;
        assert forall|d: int| 0 <= d < 52 implies #[trigger] r@[d] == cards@.take(k as int).contains(d as u8) by {
            let t1 = cards@.take(k as int);
            let t0 = cards@.take(k - 1);
            assert(t1 =~= t0.push(card));
            if d == card as int {
                assert(t1[k - 1] == d as u8);
            } else {
                assert(d as u8 != card);
                if t1.contains(d as u8) {
                    let q = choose|q: int| 0 <= q < t1.len() && t1[q] == d as u8;
                    assert(t0[q] == d as u8);
                }
                if t0.contains(d as u8) {
                    let q = choose|q: int| 0 <= q < t0.len() && t0[q] == d as u8;
                    assert(t1[q] == d as u8);
                }
            }
        }
    }
    assert(cards@.take(cards@.len() as int) =~= cards@);
    assert(r@ =~= Seq::new(52, |c: int| cards@.contains(c as u8)));
    r
}

fn push_flags(obs: &mut Vec<Feature>, flags: &Vec<bool>)
    ensures
        final(obs)@ == old(obs)@ + Seq::new(flags@.len(), |c: int| flag(flags@[c])),
{
    let ghost o0 = obs@;
    let mut k: usize = 0;
    while k < flags.len()
        invariant
            k <= flags@.len(),
            obs@ == o0 + Seq::new(k as nat, |c: int| flag(flags@[c])),
        decreases flags@.len() - k,
    {
        obs.push(Feature { num: if flags[k] { 1 } else { 0 }, den: 1 });
        k = k + 1;
        assert(obs@ =~= o0 + Seq::new(k as nat, |c: int| flag(flags@[c])));
    }
}

impl Processor {
    pub fn new(max_batch_size: usize) -> (p: Processor)
        ensures
            p.max_batch_size == max_batch_size,
    {
        Processor { max_batch_size }
    }

    /// Appends the observation of player `player_id` in a game of `num_players`
    /// players to `obs`.
    pub fn write_buf(&self, obs: &mut Vec<Feature>, state: &RawState, player_id: usize, num_players: usize)
        requires
            observable(state@, player_id as int, num_players as int),
        ensures
            final(obs)@ == old(obs)@ + observation(state@, player_id as int, num_players as int),
    {
        let ghost m = state@;
        let ghost pid = player_id as int;
        let ghost n = num_players as int;
        let ghost o0 = obs@;
        // field
        push_flags(obs, &state.field);
        assert(Seq::new(state.field@.len(), |c: int| flag(state.field@[c])) =~= field_flags(m.field));
        // own hand
        let hand = &state.hands[player_id];
        assert(hand@ == m.hands[pid]);
        let my_hand_flags = card_flags_of(hand);
        push_flags(obs, &my_hand_flags);
        assert(Seq::new(my_hand_flags@.len(), |c: int| flag(my_hand_flags@[c])) =~= card_flags(m.hands[pid]));
        // virtual hand
        let virtual_flags = card_flags_of(&state.virtual_hand);
        push_flags(obs, &virtual_flags);
        assert(Seq::new(virtual_flags@.len(), |c: int| flag(virtual_flags@[c])) =~= card_flags(m.virtual_hand));
        let ghost o1 = obs@;
        assert(o1 =~= o0 + field_flags(m.field) + card_flags(m.hands[pid]) + card_flags(m.virtual_hand));
        // rank distances and stops
        let mut rd: Vec<Feature> = Vec::new();
        let mut suit_stops: Vec<Feature> = Vec::new();
        let mut suit: usize = 0;
        while suit < 4
            invariant
                suit <= 4,
                m == state@,
                hand@ == m.hands[pid],
                observable(m, pid, n),
                rd@ == gaps(m.field).take(suit * 13),
                suit_stops@ == stops_block(m, pid).take(suit as int),
            decreases 4 - suit,
        {
            let mut rank_min: usize = 6;
            let mut rank_max: usize = 6;
            let mut rank: usize = 0;
            while rank < 13
                invariant
                    suit < 4,
                    rank <= 13,
                    m == state@,
                    observable(m, pid, n),
                    rank_min == suit_min(m.field, suit as int, rank as int),
                    rank_max == suit_max(m.field, suit as int, rank as int),
                    rank_min <= 6 <= rank_max <= 12,
                decreases 13 - rank,
            {
                let card_id = suit * 13 + rank;
                if state.field[card_id] {
                    if rank < rank_min {
                        rank_min = rank;
                    }
                    if rank > rank_max {
                        rank_max = rank;
                    }
                }
                rank = rank + 1;
            }
            let mut stops: i64 = 0;
            let mut rank: usize = 0;
            while rank < 13
                invariant
                    suit < 4,
                    rank <= 13,
                    m == state@,
                    hand@ == m.hands[pid],
                    observable(m, pid, n),
                    rank_min == suit_min(m.field, suit as int, 13),
                    rank_max == suit_max(m.field, suit as int, 13),
                    rank_min <= 6 <= rank_max <= 12,
                    stops == stop_count(m, pid, suit as int, rank as int),
                    0 <= stops <= rank,
                    rd@ == gaps(m.field).take(suit * 13 + rank),
                decreases 13 - rank,
            {
                let card_id = (suit * 13 + rank) as u8;
                if !state.field[card_id as usize] && !contains_u8(&state.virtual_hand, card_id)
                    && contains_u8(hand, card_id) {
                    if (rank < rank_min && rank == rank_min - 1) || (rank > rank_max && rank == rank_max + 1) {
                        stops = stops + 1;
                    }
                }
                let val: i64 = if rank < 6 && rank < rank_min {
                    (rank_min - rank) as i64
                } else if rank > 6 && rank > rank_max {
                    (rank - rank_max) as i64
                } else {
                    0
                };
                rd.push(Feature { num: val, den: 6 });
                proof {
                    let c = suit * 13 + rank;
                    assert(c / 13 == suit as int);
                    assert(c % 13 == rank as int);
                    assert(gaps(m.field).take(c + 1) =~= gaps(m.field).take(c).push(gaps(m.field)[c]));
                }
                rank = rank + 1;
            }
            suit_stops.push(Feature { num: stops, den: 2 });
            suit = suit + 1;
            assert(suit_stops@ =~= stops_block(m, pid).take(suit as int));
        }
        assert(gaps(m.field).take(52) =~= gaps(m.field));
        assert(stops_block(m, pid).take(4) =~= stops_block(m, pid));
        let mut k: usize = 0;
        while k < rd.len()
            invariant
                k <= rd@.len(),
                obs@ == o1 + rd@.take(k as int),
            decreases rd@.len() - k,
        {
            obs.push(rd[k]);
            k = k + 1;
            assert(obs@ =~= o1 + rd@.take(k as int));
        }
        assert(rd@.take(rd@.len() as int) =~= rd@);
        let mut k: usize = 0;
        let ghost o2 = obs@;
        while k < suit_stops.len()
            invariant
                k <= suit_stops@.len(),
                obs@ == o2 + suit_stops@.take(k as int),
            decreases suit_stops@.len() - k,
        {
            obs.push(suit_stops[k]);
            k = k + 1;
            assert(obs@ =~= o2 + suit_stops@.take(k as int));
        }
        assert(suit_stops@.take(suit_stops@.len() as int) =~= suit_stops@);
        let ghost o3 = obs@;
        // per player
        let mut i: usize = 0;
        while i < num_players
            invariant
                i <= num_players,
                m == state@,
                observable(m, pid, n),
                n == num_players,
                pid == player_id,
                obs@ == o3 + player_block(m, pid, n, i as int),
            decreases num_players - i,
        {
            let p_idx = (player_id + i) % num_players;
            let pc = state.pass_counts[p_idx];
            obs.push(Feature { num: 4 - pc as i64, den: 4 });
            obs.push(Feature { num: if pc >= 3 { 1 } else { 0 }, den: 1 });
            obs.push(Feature { num: state.hands[p_idx].len() as i64, den: 13 });
            obs.push(Feature { num: state.action_log[p_idx] as i64, den: 53 });
            i = i + 1;
            assert(obs@ =~= o3 + player_block(m, pid, n, i as int));
        }
        // summary
        let f_len = state.finished_order.len();
        let e_len = state.eliminated.len();
        obs.push(Feature { num: f_len as i64, den: 4 });
        obs.push(Feature { num: e_len as i64, den: 4 });
        obs.push(Feature { num: num_players as i64 - f_len as i64 - e_len as i64, den: num_players as u64 });
        let field_on_count = count_trues(&state.field);
        obs.push(Feature { num: field_on_count as i64, den: 52 });
        let legal_count = count_trues(&state.legal_actions_mask);
        obs.push(Feature { num: legal_count as i64, den: 13 });
        assert(obs@ =~= o0 + observation(m, pid, n));
    }
}

fn count_trues(s: &Vec<bool>) -> (r: usize)
    ensures
        r == count_true(s@, s@.len() as int),
        r <= s@.len(),
{
    let mut r: usize = 0;
    let mut k: usize = 0;
    while k < s.len()
        invariant
            k <= s@.len(),
            r <= k,
            r == count_true(s@, k as int),
        decreases s@.len() - k,
    {
        if s[k] {
            r = r + 1;
        }
        k = k + 1;
    }
    r
}

} // verus!
