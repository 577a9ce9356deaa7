use vstd::prelude::*;
use crate::card::Card;
use crate::rng::shuffle_cards;
use crate::conservation::{
    card_total, cards_consistent, lemma_action_keeps_wf, lemma_cards_conserved, lemma_deal_places_each_card_once,
    lemma_seven_of_diamonds_dealt,
};
use crate::agent::agent::{Agent, RandomAgent};

verus! {

/// The action code of a pass; codes 0..52 play the card with that id.
pub const PASS_ACTION: u8 = 52;
/// Number of cards in the deck.
pub const NUM_CARDS: usize = 52;
/// Rewards are counted in twentieths: a reward of `r` units stands for `r / 20`.
pub const REWARD_UNITS: i32 = 20;

/// Everything a player may observe about a game in progress.
///
/// `action_log[p]` is a code `k` that stands for the value `k / 53`: 0 before
/// the player acted or after it was eliminated, `card + 1` after it played a
/// card, 53 after it passed.
pub struct RawState {
    pub hands: Vec<Vec<u8>>,
    pub field: Vec<bool>,
    pub virtual_hand: Vec<u8>,
    pub pass_counts: Vec<u8>,
    pub current_player: usize,
    pub finished_order: Vec<usize>,
    pub eliminated: Vec<usize>,
    pub action_log: Vec<u8>,
    pub legal_actions_mask: Vec<bool>,
}

/// The mathematical value of a [`RawState`].
#[verifier::ext_equal]
pub struct StateModel {
    pub hands: Seq<Seq<u8>>,
    pub field: Seq<bool>,
    pub virtual_hand: Seq<u8>,
    pub pass_counts: Seq<u8>,
    pub current_player: usize,
    pub finished_order: Seq<usize>,
    pub eliminated: Seq<usize>,
    pub action_log: Seq<u8>,
    pub legal_actions_mask: Seq<bool>,
}

impl View for RawState {
    type V = StateModel;

    open spec fn view(&self) -> StateModel {
        StateModel {
            hands: self.hands@.map_values(|h: Vec<u8>| h@),
            field: self.field@,
            virtual_hand: self.virtual_hand@,
            pass_counts: self.pass_counts@,
            current_player: self.current_player,
            finished_order: self.finished_order@,
            eliminated: self.eliminated@,
            action_log: self.action_log@,
            legal_actions_mask: self.legal_actions_mask@,
        }
    }
}

/// What happened to the acting player during one action.
pub struct ActionEvent {
    /// The trained agent passed for the fourth time and was eliminated.
    pub dobon: bool,
    /// Another player passed for the fourth time and was eliminated.
    pub make_opp_dobon: bool,
}

// ---------------------------------------------------------------------------
// Rules of the game, stated over the model.
// ---------------------------------------------------------------------------

/// A card may be placed when it is a seven, or when its neighbour towards the
/// seven of its suit is already on the field.
pub open spec fn card_playable(field: Seq<bool>, card: int) -> bool {
    let r = card % 13;
    if r == 6 {
        true
    } else if r < 6 {
        field[card + 1]
    } else {
        field[card - 1]
    }
}

/// A player is still in the game: neither finished nor eliminated.
pub open spec fn is_active(m: StateModel, p: usize) -> bool {
    !m.finished_order.contains(p) && !m.eliminated.contains(p)
}

/// Every player has finished or has been eliminated.
pub open spec fn is_done(m: StateModel, num_players: nat) -> bool {
    m.finished_order.len() + m.eliminated.len() == num_players
}

/// The hand of player `p` holds a card that can be placed.
pub open spec fn has_playable(m: StateModel, p: int) -> bool {
    exists|j: int| 0 <= j < m.hands[p].len() && card_playable(m.field, m.hands[p][j] as int)
}

/// Which of the 53 actions the current player may take.
pub open spec fn legal_mask(m: StateModel) -> Seq<bool> {
    let p = m.current_player as int;
    Seq::new(
        53,
        |i: int|
            if !is_active(m, m.current_player) {
                false
            } else if i < 52 {
                m.hands[p].contains(i as u8) && card_playable(m.field, i)
            } else {
                m.pass_counts[p] < 4 && !(m.pass_counts[p] == 3 && has_playable(m, p))
            },
    )
}

pub open spec fn cards_valid(s: Seq<u8>) -> bool {
    forall|i: int| 0 <= i < s.len() ==> s[i] < 52
}

pub open spec fn players_valid(s: Seq<usize>, num_players: nat) -> bool {
    &&& forall|i: int| 0 <= i < s.len() ==> s[i] < num_players
    &&& s.no_duplicates()
}

/// The shape of a state for a game of `num_players` players: the lengths,
/// valid cards and seats, and no seat listed twice in either list.
pub open spec fn state_shape(m: StateModel, num_players: nat) -> bool {
    &&& num_players >= 1
    &&& m.hands.len() == num_players
    &&& m.pass_counts.len() == num_players
    &&& m.action_log.len() == num_players
    &&& m.field.len() == 52
    &&& m.legal_actions_mask.len() == 53
    &&& m.current_player < num_players
    &&& forall|p: int| 0 <= p < num_players ==> cards_valid(#[trigger] m.hands[p])
    &&& cards_valid(m.virtual_hand)
    &&& players_valid(m.finished_order, num_players)
    &&& players_valid(m.eliminated, num_players)
}

/// Well-formedness of a state for a game of `num_players` players: its shape,
/// and no seat both finished and eliminated.
pub open spec fn state_wf(m: StateModel, num_players: nat) -> bool {
    &&& state_shape(m, num_players)
    &&& forall|i: int|
        0 <= i < m.finished_order.len() ==> !m.eliminated.contains(#[trigger] m.finished_order[i])
}


// ---------------------------------------------------------------------------
// Settling the cards of eliminated players.
// ---------------------------------------------------------------------------

/// Some card of the virtual hand can be placed.
pub open spec fn any_releasable(field: Seq<bool>, vh: Seq<u8>) -> bool {
    exists|j: int| 0 <= j < vh.len() && card_playable(field, vh[j] as int)
}

/// The field after every card of `vh` that can be placed now has been placed.
pub open spec fn released_field(field: Seq<bool>, vh: Seq<u8>) -> Seq<bool> {
    Seq::new(field.len(), |c: int| field[c] || (vh.contains(c as u8) && card_playable(field, c)))
}

/// The cards of `vh` that cannot be placed now, in their order.
pub open spec fn still_held(field: Seq<bool>, vh: Seq<u8>) -> Seq<u8> {
    vh.filter(|c: u8| !card_playable(field, c as int))
}

/// A filter that drops at least one element is strictly shorter.
pub proof fn lemma_filter_drops(s: Seq<u8>, pred: spec_fn(u8) -> bool, j: int)
    requires
        0 <= j < s.len(),
        !pred(s[j]),
    ensures
        s.filter(pred).len() < s.len(),
    decreases s.len(),
{
    reveal(Seq::filter);
    let rest = s.drop_last();
    rest.lemma_filter_len(pred);
    if j < s.len() - 1 {
        assert(rest[j] == s[j]);
        lemma_filter_drops(rest, pred, j);
    }
}

/// Rounds of placing the cards of the virtual hand, until none can be placed.
/// Returns the field and the virtual hand at that point.
pub open spec fn settle(field: Seq<bool>, vh: Seq<u8>) -> (Seq<bool>, Seq<u8>)
    decreases vh.len(),
{
    if any_releasable(field, vh) {
        proof {
            let j = choose|j: int| 0 <= j < vh.len() && card_playable(field, vh[j] as int);
            lemma_filter_drops(vh, |c: u8| !card_playable(field, c as int), j);
        }
        settle(released_field(field, vh), still_held(field, vh))
    } else {
        (field, vh)
    }
}

/// The state after the virtual hand has been settled.
pub open spec fn after_settle(m: StateModel) -> StateModel {
    StateModel {
        field: settle(m.field, m.virtual_hand).0,
        virtual_hand: settle(m.field, m.virtual_hand).1,
        ..m
    }
}

pub proof fn lemma_still_held_valid(field: Seq<bool>, vh: Seq<u8>)
    requires
        cards_valid(vh),
    ensures
        cards_valid(still_held(field, vh)),
{
    let pred = |c: u8| !card_playable(field, c as int);
    assert forall|i: int| 0 <= i < still_held(field, vh).len() implies still_held(field, vh)[i] < 52 by {
        let x = still_held(field, vh)[i];
        assert(vh.filter(pred).contains(x));
        vh.lemma_filter_contains_rev(pred, x);
    }
}

/// Settling keeps the field's length, keeps only valid cards, and ends with
/// no card of the virtual hand that can be placed.
pub proof fn lemma_settle_props(field: Seq<bool>, vh: Seq<u8>)
    requires
        field.len() == 52,
        cards_valid(vh),
    ensures
        settle(field, vh).0.len() == 52,
        cards_valid(settle(field, vh).1),
        !any_releasable(settle(field, vh).0, settle(field, vh).1),
    decreases vh.len(),
{
    if any_releasable(field, vh) {
        let j = choose|j: int| 0 <= j < vh.len() && card_playable(field, vh[j] as int);
        lemma_filter_drops(vh, |c: u8| !card_playable(field, c as int), j);
        lemma_still_held_valid(field, vh);
        lemma_settle_props(released_field(field, vh), still_held(field, vh));
    }
}


/// A card can be placed on a field, so it can be placed on any field that
/// holds at least the same cards.
pub proof fn lemma_playable_monotone(f: Seq<bool>, g: Seq<bool>, c: int)
    requires
        f.len() == 52,
        g.len() == 52,
        0 <= c < 52,
        forall|i: int| 0 <= i < 52 && #[trigger] f[i] ==> g[i],
        card_playable(f, c),
    ensures
        card_playable(g, c),
{
    if c % 13 < 6 {
        assert(f[c + 1]);
    } else if c % 13 > 6 {
        assert(f[c - 1]);
    }
}

/// Settling only adds cards to the field, only cards of the virtual hand, and
/// leaves every card of the virtual hand either on the field or unplaceable.
pub proof fn lemma_settle_fixpoint(field: Seq<bool>, vh: Seq<u8>)
    requires
        field.len() == 52,
        cards_valid(vh),
    ensures
        forall|c: int| 0 <= c < 52 && #[trigger] field[c] ==> settle(field, vh).0[c],
        forall|c: int| 0 <= c < 52 && #[trigger] settle(field, vh).0[c] ==> field[c] || vh.contains(c as u8),
        forall|j: int| 0 <= j < vh.len() ==> settle(field, vh).0[#[trigger] vh[j] as int] || !card_playable(
            settle(field, vh).0,
            vh[j] as int,
        ),
    decreases vh.len(),
{
    lemma_settle_props(field, vh);
    if any_releasable(field, vh) {
        let j0 = choose|j: int| 0 <= j < vh.len() && card_playable(field, vh[j] as int);
        let pred = |c: u8| !card_playable(field, c as int);
        lemma_filter_drops(vh, pred, j0);
        lemma_still_held_valid(field, vh);
        let f1 = released_field(field, vh);
        let v1 = still_held(field, vh);
        lemma_settle_fixpoint(f1, v1);
        let fin = settle(field, vh).0;
        assert(fin == settle(f1, v1).0);
        assert forall|c: int| 0 <= c < 52 && #[trigger] field[c] implies fin[c] by {
            assert(f1[c]);
        }
        assert forall|c: int| 0 <= c < 52 && #[trigger] fin[c] implies field[c] || vh.contains(c as u8) by {
            if !f1[c] {
                assert(v1.contains(c as u8));
                vh.lemma_filter_contains_rev(pred, c as u8);
            }
        }
        lemma_settle_props(f1, v1);
        assert forall|j: int| 0 <= j < vh.len() implies fin[#[trigger] vh[j] as int] || !card_playable(fin, vh[j] as int) by {
            let x = vh[j];
            if pred(x) {
                assert(v1.contains(x)) by {
                    vh.lemma_filter_contains(pred, j);
                }
                let k = choose|k: int| 0 <= k < v1.len() && v1[k] == x;
                assert(fin[v1[k] as int] || !card_playable(fin, v1[k] as int));
            } else {
                assert(vh.contains(x));
                assert(f1[x as int]);
            }
        }
    }
}

/// The field that settling reaches is the least one that holds the starting
/// field and every card of the virtual hand that can be placed on it: any
/// field `g` with those two properties holds every card of the settled field.
pub proof fn lemma_settle_least(field: Seq<bool>, vh: Seq<u8>, g: Seq<bool>)
    requires
        field.len() == 52,
        cards_valid(vh),
        g.len() == 52,
        forall|c: int| 0 <= c < 52 && #[trigger] field[c] ==> g[c],
        forall|j: int| 0 <= j < vh.len() && card_playable(g, #[trigger] vh[j] as int) ==> g[vh[j] as int],
    ensures
        forall|c: int| 0 <= c < 52 && #[trigger] settle(field, vh).0[c] ==> g[c],
    decreases vh.len(),
{
    if any_releasable(field, vh) {
        let j0 = choose|j: int| 0 <= j < vh.len() && card_playable(field, vh[j] as int);
        let pred = |c: u8| !card_playable(field, c as int);
        lemma_filter_drops(vh, pred, j0);
        lemma_still_held_valid(field, vh);
        let f1 = released_field(field, vh);
        let v1 = still_held(field, vh);
        assert forall|c: int| 0 <= c < 52 && #[trigger] f1[c] implies g[c] by {
            if !field[c] {
                assert(vh.contains(c as u8) && card_playable(field, c));
                let j = choose|j: int| 0 <= j < vh.len() && vh[j] == c as u8;
                lemma_playable_monotone(field, g, c);
                assert(card_playable(g, vh[j] as int));
            }
        }
        assert forall|j: int| 0 <= j < v1.len() && card_playable(g, #[trigger] v1[j] as int) implies g[v1[j] as int] by {
            let x = v1[j];
            assert(v1.contains(x));
            vh.lemma_filter_contains_rev(pred, x);
            let k = choose|k: int| 0 <= k < vh.len() && vh[k] == x;
            assert(card_playable(g, vh[k] as int));
        }
        lemma_settle_least(f1, v1, g);
        assert(settle(field, vh) == settle(f1, v1));
    } else {
        assert(settle(field, vh).0 == field);
    }
}

/// Filtering by `p` and then by `q` keeps what `q` keeps, when `q` keeps only
/// what `p` keeps.
pub proof fn lemma_filter_filter(s: Seq<u8>, p: spec_fn(u8) -> bool, q: spec_fn(u8) -> bool)
    requires
        forall|j: int| 0 <= j < s.len() && q(#[trigger] s[j]) ==> p(s[j]),
    ensures
        s.filter(p).filter(q) == s.filter(q),
    decreases s.len(),
{
    reveal(Seq::filter);
    if s.len() > 0 {
        assert forall|j: int| 0 <= j < s.drop_last().len() && q(#[trigger] s.drop_last()[j]) implies p(s.drop_last()[j]) by {
            assert(s.drop_last()[j] == s[j]);
        }
        lemma_filter_filter(s.drop_last(), p, q);
        let last = s.last();
        if p(last) {
            assert(s.filter(p) == s.drop_last().filter(p).push(last));
            assert(s.filter(p).drop_last() =~= s.drop_last().filter(p));
        } else {
            assert(s.filter(p) == s.drop_last().filter(p));
        }
    }
}

/// A filter that every element passes keeps the whole sequence.
pub proof fn lemma_filter_all(s: Seq<u8>, q: spec_fn(u8) -> bool)
    requires
        forall|j: int| 0 <= j < s.len() ==> #[trigger] q(s[j]),
    ensures
        s.filter(q) == s,
    decreases s.len(),
{
    reveal(Seq::filter);
    if s.len() > 0 {
        assert forall|j: int| 0 <= j < s.drop_last().len() implies #[trigger] q(s.drop_last()[j]) by {
            assert(s.drop_last()[j] == s[j]);
            assert(q(s[j]));
        }
        lemma_filter_all(s.drop_last(), q);
        assert(q(s[s.len() - 1]));
        assert(s.drop_last().push(s.last()) =~= s);
    }
}

/// When no card of the virtual hand lies on the field, settling leaves the
/// virtual hand without the cards it placed, in their order: what remains are
/// exactly the cards not on the settled field.
pub proof fn lemma_settle_keeps_unplaced(field: Seq<bool>, vh: Seq<u8>)
    requires
        field.len() == 52,
        cards_valid(vh),
        forall|j: int| 0 <= j < vh.len() ==> !field[#[trigger] vh[j] as int],
    ensures
        settle(field, vh).1 == vh.filter(|c: u8| !settle(field, vh).0[c as int]),
    decreases vh.len(),
{
    let fin = settle(field, vh).0;
    let keep = |c: u8| !fin[c as int];
    if any_releasable(field, vh) {
        let j0 = choose|j: int| 0 <= j < vh.len() && card_playable(field, vh[j] as int);
        let pred = |c: u8| !card_playable(field, c as int);
        lemma_filter_drops(vh, pred, j0);
        lemma_still_held_valid(field, vh);
        let f1 = released_field(field, vh);
        let v1 = still_held(field, vh);
        assert forall|j: int| 0 <= j < v1.len() implies !f1[#[trigger] v1[j] as int] by {
            let x = v1[j];
            assert(v1.contains(x));
            vh.lemma_filter_contains_rev(pred, x);
            vh.lemma_filter_pred(pred, j);
            let k = choose|k: int| 0 <= k < vh.len() && vh[k] == x;
            assert(!field[vh[k] as int]);
        }
        lemma_settle_keeps_unplaced(f1, v1);
        lemma_settle_fixpoint(f1, v1);
        assert(fin == settle(f1, v1).0);
        assert(settle(field, vh).1 == settle(f1, v1).1);
        assert(settle(f1, v1).1 == v1.filter(keep));
        assert forall|j: int| 0 <= j < vh.len() && keep(#[trigger] vh[j]) implies pred(vh[j]) by {
            let x = vh[j];
            if !pred(x) {
                assert(vh.contains(x));
                assert(f1[x as int]);
                assert(fin[x as int]);
            }
        }
        lemma_filter_filter(vh, pred, keep);
        assert(vh.filter(keep) == v1.filter(keep));
    } else {
        assert(fin == field);
        assert forall|j: int| 0 <= j < vh.len() implies #[trigger] keep(vh[j]) by {
            assert(!field[vh[j] as int]);
        }
        lemma_filter_all(vh, keep);
    }
}

/// Settling a second time changes nothing.
pub proof fn lemma_settle_idempotent(field: Seq<bool>, vh: Seq<u8>)
    requires
        field.len() == 52,
        cards_valid(vh),
    ensures
        settle(settle(field, vh).0, settle(field, vh).1) == settle(field, vh),
{
    lemma_settle_props(field, vh);
}

// ---------------------------------------------------------------------------
// One action of one player.
// ---------------------------------------------------------------------------

/// The position of the first occurrence of `x` in `s`.
pub open spec fn first_index(s: Seq<u8>, x: u8) -> int {
    choose|i: int| 0 <= i < s.len() && s[i] == x && forall|j: int| 0 <= j < i ==> s[j] != x
}

/// The state after `player` has been eliminated: its hand joins the virtual
/// hand, it is listed as eliminated (once), and its action log is cleared.
pub open spec fn after_dobon(m: StateModel, player: int) -> StateModel {
    StateModel {
        virtual_hand: m.virtual_hand + m.hands[player],
        hands: m.hands.update(player, Seq::<u8>::empty()),
        eliminated: if m.eliminated.contains(player as usize) {
            m.eliminated
        } else {
            m.eliminated.push(player as usize)
        },
        action_log: m.action_log.update(player, 0u8),
        ..m
    }
}

/// The state after `player` took `action`, before the virtual hand is settled.
/// Playing a card that is not in the hand changes nothing; the fourth pass
/// eliminates the player.
pub open spec fn after_play(m: StateModel, player: int, action: u8) -> StateModel {
    if action != 52 {
        if m.hands[player].contains(action) {
            StateModel {
                hands: m.hands.update(player, m.hands[player].remove(first_index(m.hands[player], action))),
                field: m.field.update(action as int, true),
                action_log: m.action_log.update(player, (action + 1) as u8),
                ..m
            }
        } else {
            m
        }
    } else {
        let pc = (m.pass_counts[player] + 1) as u8;
        let m1 = StateModel {
            pass_counts: m.pass_counts.update(player, pc),
            action_log: m.action_log.update(player, 53u8),
            ..m
        };
        if pc >= 4 {
            after_dobon(m1, player)
        } else {
            m1
        }
    }
}

/// A player whose hand is empty, and who is not yet listed, joins the finishing order.
pub open spec fn after_finish_check(m: StateModel, player: int) -> StateModel {
    if m.hands[player].len() == 0 && !m.finished_order.contains(player as usize)
        && !m.eliminated.contains(player as usize) {
        StateModel { finished_order: m.finished_order.push(player as usize), ..m }
    } else {
        m
    }
}

/// The state after `player` took `action`.
pub open spec fn after_action(m: StateModel, player: int, action: u8) -> StateModel {
    after_finish_check(after_settle(after_play(m, player, action)), player)
}

/// The action is the fourth pass of `player`.
pub open spec fn is_fourth_pass(m: StateModel, player: int, action: u8) -> bool {
    action == 52 && m.pass_counts[player] + 1 >= 4
}

/// A pass does not overflow the player's pass count.
pub open spec fn pass_fits(m: StateModel, player: int, action: u8) -> bool {
    action == 52 ==> m.pass_counts[player] < 255
}

/// An action that keeps the state well formed: its pass fits, and it is not
/// the fourth pass of a player who has already finished (which would list
/// that player as finished and as eliminated).
pub open spec fn action_allowed(m: StateModel, player: int, action: u8) -> bool {
    action == 52 ==> (m.pass_counts[player] < 255 && (m.pass_counts[player] >= 3
        ==> !m.finished_order.contains(player as usize)))
}

/// What computing the legal actions reads: when the current player is still
/// in the game, its hand (of valid cards), its pass count and the field.
pub open spec fn mask_computable(m: StateModel) -> bool {
    is_active(m, m.current_player) ==> {
        &&& m.current_player < m.hands.len()
        &&& m.current_player < m.pass_counts.len()
        &&& m.field.len() == 52
        &&& cards_valid(m.hands[m.current_player as int])
    }
}

/// A game that is not over has a player still in it.
pub open spec fn has_mover(m: StateModel, n: nat) -> bool {
    !is_done(m, n) ==> exists|p: usize| p < n && is_active(m, p)
}


// ---------------------------------------------------------------------------
// Turn order and rewards.
// ---------------------------------------------------------------------------

/// The seat `k` places after `start`, going round a table of `n` seats (`k <= n`).
pub open spec fn seat(start: int, k: int, n: int) -> int {
    if start + k < n {
        start + k
    } else {
        start + k - n
    }
}

/// How many seats after the current player the next active player sits.
pub open spec fn next_active_offset(m: StateModel, n: int) -> int {
    choose|d: int|
        1 <= d <= n && is_active(m, seat(m.current_player as int, d, n) as usize) && forall|e: int|
            1 <= e < d ==> !is_active(m, seat(m.current_player as int, e, n) as usize)
}

/// The next active player after the current one.
pub open spec fn next_active_player(m: StateModel, n: int) -> usize {
    seat(m.current_player as int, next_active_offset(m, n), n) as usize
}

/// The state after the turn passed to the next active player, with that
/// player's legal actions.
pub open spec fn after_advance(m: StateModel, n: int) -> StateModel {
    let m1 = StateModel { current_player: next_active_player(m, n), ..m };
    StateModel { legal_actions_mask: legal_mask(m1), ..m1 }
}

/// The set of seats `0..k`.
pub open spec fn seats_below(k: nat) -> Set<usize> {
    Set::new(|p: usize| p < k)
}

pub proof fn lemma_seats_below(k: nat)
    requires
        k <= usize::MAX + 1,
    ensures
        seats_below(k).finite(),
        seats_below(k).len() == k,
    decreases k,
{
    if k == 0 {
        assert(seats_below(k) =~= Set::<usize>::empty());
    } else {
        lemma_seats_below((k - 1) as nat);
        assert(seats_below(k) =~= seats_below((k - 1) as nat).insert((k - 1) as usize));
    }
}

/// The finished and the eliminated players together are at most all players;
/// in a game that is not over, some player is still active.
pub proof fn lemma_some_active(m: StateModel, n: nat)
    requires
        state_wf(m, n),
        n <= usize::MAX,
    ensures
        m.finished_order.len() + m.eliminated.len() <= n,
        !is_done(m, n) ==> exists|p: usize| p < n && is_active(m, p),
{
    broadcast use vstd::seq_lib::group_seq_properties;
    broadcast use vstd::set::group_set_axioms;
    let fs = m.finished_order.to_set();
    let es = m.eliminated.to_set();
    m.finished_order.unique_seq_to_set();
    m.eliminated.unique_seq_to_set();
    assert(fs.disjoint(es)) by {
        assert forall|x: usize| fs.contains(x) implies !es.contains(x) by {
            let i = choose|i: int| 0 <= i < m.finished_order.len() && m.finished_order[i] == x;
            assert(!m.eliminated.contains(m.finished_order[i]));
        }
    }
    vstd::set_lib::lemma_set_disjoint_lens(fs, es);
    lemma_seats_below(n);
    assert((fs + es).subset_of(seats_below(n))) by {
        assert forall|x: usize| (fs + es).contains(x) implies seats_below(n).contains(x) by {
            if fs.contains(x) {
                let i = choose|i: int| 0 <= i < m.finished_order.len() && m.finished_order[i] == x;
            } else {
                let i = choose|i: int| 0 <= i < m.eliminated.len() && m.eliminated[i] == x;
            }
        }
    }
    vstd::set_lib::lemma_len_subset(fs + es, seats_below(n));
    if !is_done(m, n) && forall|p: usize| p < n ==> !is_active(m, p) {
        assert(seats_below(n).subset_of(fs + es)) by {
            assert forall|x: usize| seats_below(n).contains(x) implies (fs + es).contains(x) by {
                assert(!is_active(m, x));
                if m.finished_order.contains(x) {
                    assert(fs.contains(x));
                } else {
                    assert(es.contains(x));
                }
            }
        }
        vstd::set_lib::lemma_len_subset(seats_below(n), fs + es);
    }
}

/// The state after the current player took `action` and the turn passed on to
/// the next player still in the game (it stays put once the game is over).
pub open spec fn after_turn(m: StateModel, action: u8, n: nat) -> StateModel {
    let m1 = after_action(m, m.current_player as int, action);
    if is_done(m1, n) {
        m1
    } else {
        after_advance(m1, n as int)
    }
}

/// `ms` are the states of a run of the opponents' turns and `acts` the actions
/// taken in them: at each step a seat other than `agent` was to act in a game
/// not yet over, took an action that its agent `opp` may answer with there and
/// that the legal-action mask allows, and the next state is what that turn
/// makes of the state.
pub open spec fn opponents_ran<O: Agent>(opp: O, ms: Seq<StateModel>, acts: Seq<u8>, n: nat, agent: usize) -> bool {
    &&& ms.len() == acts.len() + 1
    &&& forall|i: int| 0 <= i < acts.len() ==> #[trigger] opponent_turn_ok(opp, ms, acts, n, agent, i)
}

/// Step `i` of such a run: seat `ms[i].current_player`, not the agent, was to
/// act in a game not yet over; `acts[i]` is an action its agent may answer
/// with and its mask allows; `ms[i + 1]` is the state after that turn.
pub open spec fn opponent_turn_ok<O: Agent>(
    opp: O,
    ms: Seq<StateModel>,
    acts: Seq<u8>,
    n: nat,
    agent: usize,
    i: int,
) -> bool {
    &&& ms[i].current_player != agent
    &&& !is_done(ms[i], n)
    &&& opp.may_choose(ms[i], ms[i].current_player, acts[i])
    &&& acts[i] < 53
    &&& legal_mask(ms[i])[acts[i] as int]
    &&& ms[i + 1] == after_turn(ms[i], acts[i], n)
}

/// How many seats after seat `start`, going round a table of `n`, seat `agent` sits.
pub open spec fn seats_between(start: int, agent: int, n: int) -> int {
    if agent >= start {
        agent - start
    } else {
        agent + n - start
    }
}

proof fn lemma_run_prefix<O: Agent>(opp: O, ms: Seq<StateModel>, acts: Seq<u8>, n: nat, agent: usize, k: int)
    requires
        opponents_ran(opp, ms, acts, n, agent),
        state_wf(ms[0], n),
        n <= usize::MAX,
        agent < n,
        ms[0].finished_order.len() == 0,
        ms[0].eliminated.len() == 0,
        ms[ms.len() - 1].current_player == agent,
        0 <= k <= seats_between(ms[0].current_player as int, agent as int, n as int),
    ensures
        k <= acts.len(),
        state_wf(ms[k], n),
        ms[k].current_player == seat(ms[0].current_player as int, k, n as int),
        forall|j: int|
            k <= j <= seats_between(ms[0].current_player as int, agent as int, n as int) ==> is_active(
                ms[k],
                #[trigger] seat(ms[0].current_player as int, j, n as int) as usize,
            ),
    decreases k,
{
    let start = ms[0].current_player as int;
    let d = seats_between(start, agent as int, n as int);
    if k == 0 {
        assert forall|j: int| 0 <= j <= d implies is_active(ms[0], #[trigger] seat(start, j, n as int) as usize) by {
            let x = seat(start, j, n as int) as usize;
            if ms[0].finished_order.contains(x) {
                let i = choose|i: int| 0 <= i < ms[0].finished_order.len() && ms[0].finished_order[i] == x;
            }
            if ms[0].eliminated.contains(x) {
                let i = choose|i: int| 0 <= i < ms[0].eliminated.len() && ms[0].eliminated[i] == x;
            }
        }
    } else {
        lemma_run_prefix(opp, ms, acts, n, agent, k - 1);
        let m = ms[k - 1];
        let p = seat(start, k - 1, n as int);
        assert(p != agent);
        if k - 1 == acts.len() {
            assert(m.current_player == agent);
        }
        assert(opponent_turn_ok(opp, ms, acts, n, agent, k - 1));
        let a = acts[k - 1];
        assert(is_active(m, seat(start, k - 1, n as int) as usize));
        assert(is_active(m, m.current_player));
        assert(action_allowed(m, p, a));
        lemma_action_keeps_wf(m, n, p, a);
        let m1 = after_action(m, p, a);
        let q = seat(start, k, n as int);
        assert(q != p);
        lemma_turn_spares_others(m, n, p, a, q);
        assert(is_active(m, seat(start, k, n as int) as usize));
        assert(is_active(m1, q as usize));
        if is_done(m1, n) {
            if k < acts.len() {
                assert(opponent_turn_ok(opp, ms, acts, n, agent, k));
            } else {
                assert(ms[k].current_player == agent);
            }
            assert(false);
        }
        assert(ms[k] == after_advance(m1, n as int));
        assert(seat(p, 1, n as int) == q);
        assert(is_active(m1, seat(m1.current_player as int, 1, n as int) as usize));
        let off = next_active_offset(m1, n as int);
        assert(1 <= off <= n && is_active(m1, seat(m1.current_player as int, off, n as int) as usize) && forall|e: int|
            1 <= e < off ==> !is_active(m1, seat(m1.current_player as int, e, n as int) as usize));
        assert(off == 1);
        assert forall|j: int| k <= j <= d implies is_active(ms[k], #[trigger] seat(start, j, n as int) as usize) by {
            let x = seat(start, j, n as int);
            assert(is_active(m, seat(start, j, n as int) as usize));
            assert(x != p);
            lemma_turn_spares_others(m, n, p, a, x);
        }
        assert(state_wf(ms[k], n));
    }
}

proof fn lemma_run_prefix_spares(opp: impl Agent, ms: Seq<StateModel>, acts: Seq<u8>, n: nat, agent: usize, k: int)
    requires
        opponents_ran(opp, ms, acts, n, agent),
        state_wf(ms[0], n),
        n <= usize::MAX,
        agent < n,
        0 <= k <= acts.len(),
    ensures
        state_wf(ms[k], n),
        seat_untouched(ms[0], ms[k], agent as int),
    decreases k,
{
    if k > 0 {
        lemma_run_prefix_spares(opp, ms, acts, n, agent, k - 1);
        let m = ms[k - 1];
        assert(opponent_turn_ok(opp, ms, acts, n, agent, k - 1));
        let p = m.current_player as int;
        let a = acts[k - 1];
        assert(is_active(m, m.current_player));
        assert(action_allowed(m, p, a));
        lemma_action_keeps_wf(m, n, p, a);
        lemma_turn_spares_others(m, n, p, a, agent as int);
        let m1 = after_action(m, p, a);
        if !is_done(m1, n) {
            lemma_advance_lands_on_active(m1, n);
            assert(state_wf(after_advance(m1, n as int), n));
        }
    }
}

/// The opponents' turns never touch the agent's seat: after any run of them
/// from a well-formed state, the agent holds the same hand, has passed as
/// often, shows the same last action and is finished or eliminated exactly
/// when it was before; and the state is still well formed.
pub proof fn lemma_run_spares_agent(opp: impl Agent, ms: Seq<StateModel>, acts: Seq<u8>, n: nat, agent: usize)
    requires
        opponents_ran(opp, ms, acts, n, agent),
        state_wf(ms[0], n),
        n <= usize::MAX,
        agent < n,
    ensures
        state_wf(ms[ms.len() - 1], n),
        seat_untouched(ms[0], ms[ms.len() - 1], agent as int),
{
    lemma_run_prefix_spares(opp, ms, acts, n, agent, acts.len() as int);
}

/// In a run of the opponents' turns that starts with every seat still in the
/// game and ends at the agent's turn, the seats from the starting one round to
/// the one before the agent act first, each in turn: the `k`-th turn of the run
/// is taken by the seat `k` places after the starting seat.
pub proof fn lemma_run_goes_round<O: Agent>(opp: O, ms: Seq<StateModel>, acts: Seq<u8>, n: nat, agent: usize)
    requires
        opponents_ran(opp, ms, acts, n, agent),
        state_wf(ms[0], n),
        n <= usize::MAX,
        agent < n,
        ms[0].finished_order.len() == 0,
        ms[0].eliminated.len() == 0,
        ms[ms.len() - 1].current_player == agent,
    ensures
        seats_between(ms[0].current_player as int, agent as int, n as int) <= acts.len(),
        forall|k: int|
            0 <= k < seats_between(ms[0].current_player as int, agent as int, n as int) ==> #[trigger] ms[k].current_player
                == seat(ms[0].current_player as int, k, n as int),
{
    let d = seats_between(ms[0].current_player as int, agent as int, n as int);
    lemma_run_prefix(opp, ms, acts, n, agent, d);
    assert forall|k: int| 0 <= k < d implies #[trigger] ms[k].current_player == seat(
        ms[0].current_player as int,
        k,
        n as int,
    ) by {
        lemma_run_prefix(opp, ms, acts, n, agent, k);
    }
}

/// A run of the opponents' turns extended by one more turn is still one.
pub proof fn lemma_ran_push<O: Agent>(opp: O, ms: Seq<StateModel>, acts: Seq<u8>, n: nat, agent: usize, a: u8)
    requires
        opponents_ran(opp, ms, acts, n, agent),
        ms[ms.len() - 1].current_player != agent,
        !is_done(ms[ms.len() - 1], n),
        opp.may_choose(ms[ms.len() - 1], ms[ms.len() - 1].current_player, a),
        a < 53,
        legal_mask(ms[ms.len() - 1])[a as int],
    ensures
        opponents_ran(
            opp,
            ms.push(after_turn(ms[ms.len() - 1], a, n)),
            acts.push(a),
            n,
            agent,
        ),
{
    let ms2 = ms.push(after_turn(ms[ms.len() - 1], a, n));
    let acts2 = acts.push(a);
    assert forall|i: int| 0 <= i < acts2.len() implies #[trigger] opponent_turn_ok(opp, ms2, acts2, n, agent, i) by {
        if i < acts.len() {
            assert(opponent_turn_ok(opp, ms, acts, n, agent, i));
            assert(acts2[i] == acts[i]);
            assert(ms2[i] == ms[i]);
            assert(ms2[i + 1] == ms[i + 1]);
        } else {
            assert(ms2[i] == ms[ms.len() - 1]);
            assert(acts2[i] == a);
        }
    }
}

/// Seat `q` holds the same hand, pass count and action log in both states,
/// and is listed as finished, and as eliminated, in one exactly when in the other.
pub open spec fn seat_untouched(m0: StateModel, m1: StateModel, q: int) -> bool {
    &&& m1.hands[q] == m0.hands[q]
    &&& m1.pass_counts[q] == m0.pass_counts[q]
    &&& m1.action_log[q] == m0.action_log[q]
    &&& (m1.finished_order.contains(q as usize) <==> m0.finished_order.contains(q as usize))
    &&& (m1.eliminated.contains(q as usize) <==> m0.eliminated.contains(q as usize))
}

/// One player's action leaves every other seat untouched.
pub proof fn lemma_turn_spares_others(m: StateModel, n: nat, p: int, a: u8, q: int)
    requires
        state_shape(m, n),
        n <= usize::MAX,
        0 <= p < n,
        0 <= q < n,
        q != p,
    ensures
        seat_untouched(m, after_action(m, p, a), q),
        seat_untouched(m, after_advance(after_action(m, p, a), n as int), q),
{
    let m1 = after_action(m, p, a);
    let mp = after_play(m, p, a);
    assert(m1.hands == mp.hands && m1.pass_counts == mp.pass_counts && m1.action_log == mp.action_log);
    assert(m1.eliminated == mp.eliminated);
    assert(mp.finished_order == m.finished_order);
    assert(mp.eliminated.contains(q as usize) <==> m.eliminated.contains(q as usize)) by {
        if mp.eliminated != m.eliminated {
            assert(mp.eliminated == m.eliminated.push(p as usize));
            if mp.eliminated.contains(q as usize) {
                let i = choose|i: int| 0 <= i < mp.eliminated.len() && mp.eliminated[i] == q as usize;
                assert(i < m.eliminated.len());
                assert(m.eliminated[i] == q as usize);
            }
            if m.eliminated.contains(q as usize) {
                let i = choose|i: int| 0 <= i < m.eliminated.len() && m.eliminated[i] == q as usize;
                assert(mp.eliminated[i] == q as usize);
            }
        }
    }
    assert(m1.finished_order.contains(q as usize) <==> m.finished_order.contains(q as usize)) by {
        if m1.finished_order != m.finished_order {
            assert(m1.finished_order == m.finished_order.push(p as usize));
            if m1.finished_order.contains(q as usize) {
                let i = choose|i: int| 0 <= i < m1.finished_order.len() && m1.finished_order[i] == q as usize;
                assert(i < m.finished_order.len());
                assert(m.finished_order[i] == q as usize);
            }
            if m.finished_order.contains(q as usize) {
                let i = choose|i: int| 0 <= i < m.finished_order.len() && m.finished_order[i] == q as usize;
                assert(m1.finished_order[i] == q as usize);
            }
        }
    }
}

/// After an action from a well-formed game that was not over, or one that
/// keeps the state well formed, a game that is not over still has a player in
/// it: the only other case, a finished player's fourth pass, lists a player
/// that was already out of the game.
pub proof fn lemma_has_mover_after(m: StateModel, n: nat, p: int, a: u8)
    requires
        state_wf(m, n),
        n <= usize::MAX,
        0 <= p < n,
        pass_fits(m, p, a),
        !is_done(m, n) || action_allowed(m, p, a),
        action_allowed(m, p, a) ==> state_wf(after_action(m, p, a), n),
    ensures
        has_mover(after_action(m, p, a), n),
{
    let m1 = after_action(m, p, a);
    if action_allowed(m, p, a) {
        lemma_some_active(m1, n);
    } else {
        lemma_some_active(m, n);
        let q = choose|q: usize| q < n && is_active(m, q);
        assert(m.finished_order.contains(p as usize));
        assert(q != p);
        let mp = after_play(m, p, a);
        assert(a == 52 && 3 <= m.pass_counts[p] < 255);
        let pc = (m.pass_counts[p] + 1) as u8;
        assert(pc >= 4);
        assert(mp.finished_order == m.finished_order);
        assert(mp.eliminated.contains(p as usize)) by {
            if !m.eliminated.contains(p as usize) {
                assert(mp.eliminated == m.eliminated.push(p as usize));
                assert(mp.eliminated[m.eliminated.len() as int] == p as usize);
            }
        }
        assert(!mp.eliminated.contains(q)) by {
            if mp.eliminated.contains(q) {
                let i = choose|i: int| 0 <= i < mp.eliminated.len() && mp.eliminated[i] == q;
                if i < m.eliminated.len() {
                    assert(m.eliminated[i] == q);
                }
            }
        }
        assert(m1.finished_order == m.finished_order);
        assert(m1.eliminated == mp.eliminated);
        assert(is_active(m1, q));
    }
}

/// The order in which players placed: finishers first, then the eliminated
/// players, the last eliminated first.
pub open spec fn full_order(m: StateModel) -> Seq<usize> {
    m.finished_order + m.eliminated.reverse()
}

/// The reward, in twentieths, of the players placed 1st, 2nd, 3rd and 4th:
/// 1.0, 0.3, -0.3, -1.0.
pub open spec fn rank_value(rank: int) -> i32 {
    if rank == 0 {
        20
    } else if rank == 1 {
        6
    } else if rank == 2 {
        -6i32
    } else {
        -20i32
    }
}

/// The last position below `k` at which `order` lists `q`, or -1 when there is none.
pub open spec fn last_pos(order: Seq<usize>, q: int, k: int) -> int
    decreases k,
{
    if k <= 0 {
        -1
    } else if order[k - 1] == q {
        k - 1
    } else {
        last_pos(order, q, k - 1)
    }
}

/// The final reward of each player, in twentieths: nothing while no one has
/// finished; otherwise the value of the player's place among the first four
/// (a player listed twice there gets the value of the later place).
pub open spec fn reward_vector(m: StateModel, n: nat) -> Seq<i32> {
    let o = full_order(m);
    let k: int = if o.len() < 4 { o.len() as int } else { 4 };
    Seq::new(
        n,
        |p: int|
            if m.finished_order.len() == 0 {
                0i32
            } else if last_pos(o, p, k) >= 0 {
                rank_value(last_pos(o, p, k))
            } else {
                0i32
            },
    )
}

/// `last_pos` is -1 or a position below `k` holding `q`, after which no
/// position below `k` holds `q`.
pub proof fn lemma_last_pos(order: Seq<usize>, q: int, k: int)
    requires
        0 <= k <= order.len(),
    ensures
        -1 <= last_pos(order, q, k) < k,
        last_pos(order, q, k) >= 0 ==> order[last_pos(order, q, k)] == q,
        forall|s: int| last_pos(order, q, k) < s < k ==> order[s] != q,
    decreases k,
{
    if k > 0 && order[k - 1] != q {
        lemma_last_pos(order, q, k - 1);
    }
}

pub proof fn lemma_full_order_unique(m: StateModel, n: nat)
    requires
        state_wf(m, n),
    ensures
        full_order(m).no_duplicates(),
        forall|i: int| 0 <= i < full_order(m).len() ==> #[trigger] full_order(m)[i] < n,
{
    let f = m.finished_order;
    let e = m.eliminated;
    let o = full_order(m);
    assert forall|i: int| 0 <= i < o.len() implies #[trigger] o[i] < n by {
        if i >= f.len() {
            assert(o[i] == e[e.len() - 1 - (i - f.len())]);
        }
    }
    assert forall|i: int, j: int| 0 <= i < o.len() && 0 <= j < o.len() && i != j implies o[i] != o[j] by {
        if i < f.len() && j >= f.len() {
            assert(o[j] == e[e.len() - 1 - (j - f.len())]);
            assert(!e.contains(f[i]));
        } else if i >= f.len() && j < f.len() {
            assert(o[i] == e[e.len() - 1 - (i - f.len())]);
            assert(!e.contains(f[j]));
        } else if i >= f.len() && j >= f.len() {
            assert(o[i] == e[e.len() - 1 - (i - f.len())]);
            assert(o[j] == e[e.len() - 1 - (j - f.len())]);
        }
    }
}

/// What one move of the agent came to, with the other players' turns after it.
pub struct StepOutcome {
    /// The penalty, in twentieths, for the agent's own fourth pass (-2), else 0.
    pub penalty: i32,
    /// How many other players were eliminated during their turns.
    pub opponent_eliminations: usize,
    /// The final reward, in twentieths, once the game is over.
    pub final_reward: Option<i32>,
}

/// Which seat must act next.
pub enum Turn {
    /// The trained agent's turn.
    Agent,
    /// Another player's turn; it must act through `opponent_turn`.
    Opponent(usize),
    /// The game is over; carries the agent's final reward in twentieths.
    Over(i32),
}


// ---------------------------------------------------------------------------
// Dealing.
// ---------------------------------------------------------------------------

/// The cards dealt to player `p`: the `p`-th run of `52 / n` cards of the deck.
pub open spec fn deal_chunk(deck: Seq<u8>, n: nat, p: int) -> Seq<u8> {
    deck.subrange(p * (52int / n as int), (p + 1) * (52int / n as int))
}

/// The card is a seven.
pub open spec fn not_seven(c: u8) -> bool {
    c % 13 != 6
}

/// The last of the first `k` players that was dealt the seven of diamonds, or
/// `default` when none of them was.
pub open spec fn seven_holder(deck: Seq<u8>, n: nat, k: nat, default: usize) -> usize
    decreases k,
{
    if k == 0 {
        default
    } else if deal_chunk(deck, n, k - 1).contains(6u8) {
        (k - 1) as usize
    } else {
        seven_holder(deck, n, (k - 1) as nat, default)
    }
}

/// The state after the cards of `deck` were dealt: every player holds its run
/// of cards without the sevens, which lie on the field; the holder of the seven
/// of diamonds starts; counts, logs and rankings are cleared.
pub open spec fn dealt_state(m: StateModel, deck: Seq<u8>, n: nat) -> StateModel {
    let m1 = StateModel {
        hands: Seq::new(n, |p: int| deal_chunk(deck, n, p).filter(|c: u8| not_seven(c))),
        field: Seq::new(
            52,
            |c: int|
                c % 13 == 6 && exists|p: int| 0 <= p < n && #[trigger] deal_chunk(deck, n, p).contains(c as u8),
        ),
        virtual_hand: Seq::<u8>::empty(),
        pass_counts: Seq::new(n, |p: int| 0u8),
        current_player: seven_holder(deck, n, n, m.current_player),
        finished_order: Seq::<usize>::empty(),
        eliminated: Seq::<usize>::empty(),
        action_log: Seq::new(n, |p: int| 0u8),
        legal_actions_mask: Seq::new(53, |i: int| false),
    };
    StateModel { legal_actions_mask: legal_mask(m1), ..m1 }
}

/// The unshuffled deck 0, 1, ..., 51.
pub open spec fn full_deck() -> Seq<u8> {
    Seq::new(52, |i: int| i as u8)
}

pub proof fn lemma_chunk_bound(n: int, i: int, j: int)
    requires
        1 <= n,
        0 <= i < n,
        0 <= j < 52int / n,
    ensures
        0 <= i * (52int / n) + j < 52,
        (i + 1) * (52int / n) <= 52,
        0 <= i * (52int / n),
{
    let c = 52int / n;
    vstd::arithmetic::div_mod::lemma_fundamental_div_mod(52, n);
    vstd::arithmetic::div_mod::lemma_mod_pos_bound(52, n);
    assert((i + 1) * c <= n * c) by (nonlinear_arith)
        requires
            i + 1 <= n,
            c >= 0,
    ;
    assert(n * c == c * n) by (nonlinear_arith);
    assert(0 <= i * c) by (nonlinear_arith)
        requires
            i >= 0,
            c >= 0,
    ;
    assert((i + 1) * c == i * c + c) by (nonlinear_arith);
}


pub proof fn lemma_seven_holder_bound(deck: Seq<u8>, n: nat, k: nat, default: usize)
    requires
        k <= n,
        default < n || exists|p: int| 0 <= p < k && #[trigger] deal_chunk(deck, n, p).contains(6u8),
    ensures
        seven_holder(deck, n, k, default) < n,
    decreases k,
{
    if k > 0 && !deal_chunk(deck, n, k - 1).contains(6u8) {
        if default >= n {
            let p = choose|p: int| 0 <= p < k && #[trigger] deal_chunk(deck, n, p).contains(6u8);
            assert(p < k - 1);
        }
        lemma_seven_holder_bound(deck, n, (k - 1) as nat, default);
    }
}


pub proof fn lemma_deal_chunk(deck: Seq<u8>, n: nat, p: int)
    requires
        deck.len() == 52,
        1 <= n,
        0 <= p < n,
    ensures
        deal_chunk(deck, n, p).len() == 52int / n as int,
        0 <= p * (52int / n as int),
        (p + 1) * (52int / n as int) <= 52,
        forall|q: int|
            0 <= q < 52int / n as int ==> #[trigger] deal_chunk(deck, n, p)[q] == deck[p * (52int / n as int) + q]
                && 0 <= p * (52int / n as int) + q < 52,
{
    let c = 52int / n as int;
    vstd::arithmetic::div_mod::lemma_fundamental_div_mod(52, n as int);
    vstd::arithmetic::div_mod::lemma_mod_pos_bound(52, n as int);
    assert((p + 1) * c <= n * c) by (nonlinear_arith)
        requires
            p + 1 <= n,
            c >= 0,
    ;
    assert(n * c == c * n) by (nonlinear_arith);
    assert(0 <= p * c) by (nonlinear_arith)
        requires
            p >= 0,
            c >= 0,
    ;
    assert((p + 1) * c == p * c + c) by (nonlinear_arith);
}


// ---------------------------------------------------------------------------
// Laws of the game.
// ---------------------------------------------------------------------------

/// A player still in the game with fewer than four passes always has a legal
/// action: a card it can place, or a pass.
pub proof fn lemma_legal_action_exists(m: StateModel, n: nat)
    requires
        state_wf(m, n),
        is_active(m, m.current_player),
        m.pass_counts[m.current_player as int] < 4,
    ensures
        exists|a: int| 0 <= a < 53 && #[trigger] legal_mask(m)[a],
{
    let p = m.current_player as int;
    if m.pass_counts[p] == 3 && has_playable(m, p) {
        let j = choose|j: int| 0 <= j < m.hands[p].len() && card_playable(m.field, m.hands[p][j] as int);
        let c = m.hands[p][j];
        assert(c < 52);
        assert(m.hands[p].contains(c as int as u8));
        assert(legal_mask(m)[c as int]);
    } else {
        assert(legal_mask(m)[52]);
    }
}

proof fn lemma_first_active_from(m: StateModel, n: int, d: int)
    requires
        1 <= d <= n,
        forall|e: int| 1 <= e < d ==> !is_active(m, seat(m.current_player as int, e, n) as usize),
        exists|e: int| d <= e <= n && is_active(m, seat(m.current_player as int, e, n) as usize),
    ensures
        exists|d2: int|
            1 <= d2 <= n && is_active(m, seat(m.current_player as int, d2, n) as usize) && forall|e: int|
                1 <= e < d2 ==> !is_active(m, #[trigger] seat(m.current_player as int, e, n) as usize),
    decreases n - d,
{
    if !is_active(m, seat(m.current_player as int, d, n) as usize) {
        let e0 = choose|e: int| d <= e <= n && is_active(m, seat(m.current_player as int, e, n) as usize);
        assert(e0 != d);
        lemma_first_active_from(m, n, d + 1);
    }
}

/// When the game is not over, the turn passes to a player that is still in
/// the game, and no active player is skipped on the way.
pub proof fn lemma_advance_lands_on_active(m: StateModel, n: nat)
    requires
        state_wf(m, n),
        n <= usize::MAX,
        !is_done(m, n),
    ensures
        next_active_player(m, n as int) < n,
        is_active(m, next_active_player(m, n as int)),
        forall|e: int|
            1 <= e < next_active_offset(m, n as int) ==> !is_active(
                m,
                #[trigger] seat(m.current_player as int, e, n as int) as usize,
            ),
{
    lemma_some_active(m, n);
    let p = choose|p: usize| p < n && is_active(m, p);
    let start = m.current_player as int;
    let e: int = if p > start { p - start } else { p + n - start };
    assert(seat(start, e, n as int) == p);
    lemma_first_active_from(m, n as int, 1);
}

/// Settling the virtual hand leaves no card in it that could be placed.
pub proof fn lemma_virtual_settled(m: StateModel, n: nat)
    requires
        state_wf(m, n),
    ensures
        !any_releasable(after_settle(m).field, after_settle(m).virtual_hand),
        after_settle(m).field.len() == 52,
{
    lemma_settle_props(m.field, m.virtual_hand);
}

/// In a finished four-player game the rewards of the four places cancel out.
pub proof fn lemma_rewards_zero_sum(m: StateModel)
    requires
        state_wf(m, 4),
        is_done(m, 4),
        m.finished_order.len() > 0,
    ensures
        reward_vector(m, 4)[0] + reward_vector(m, 4)[1] + reward_vector(m, 4)[2] + reward_vector(m, 4)[3] == 0,
{
    lemma_full_order_unique(m, 4);
    let o = full_order(m);
    assert(o.len() == 4);
    assert(o[0] < 4 && o[1] < 4 && o[2] < 4 && o[3] < 4);
    assert(o[0] != o[1] && o[0] != o[2] && o[0] != o[3] && o[1] != o[2] && o[1] != o[3] && o[2] != o[3]);
    let v = reward_vector(m, 4);
    assert forall|r: int| 0 <= r < 4 implies v[o[r] as int] == rank_value(r) by {
        let p = o[r] as int;
        lemma_last_pos(o, p, 4);
        let lp = last_pos(o, p, 4);
        assert(lp >= r) by {
            if lp < r {
                assert(o[r] == p);
                assert(o[r] != p);
            }
        }
        assert(o[lp] == p);
        assert(lp == r);
        assert(v[p] == rank_value(last_pos(o, p, 4)));
    }
    assert(v[o[0] as int] == rank_value(0));
    assert(v[o[1] as int] == rank_value(1));
    assert(v[o[2] as int] == rank_value(2));
    assert(v[o[3] as int] == rank_value(3));
    assert(v[o[0] as int] == 20 && v[o[1] as int] == 6 && v[o[2] as int] == -6 && v[o[3] as int] == -20);
}


/// How many passes player `p` has left.
pub open spec fn passes_left(m: StateModel, p: int) -> int {
    if m.pass_counts[p] < 4 {
        4 - m.pass_counts[p]
    } else {
        0
    }
}

/// What player `p` can still do: the cards in its hand plus its passes left.
pub open spec fn moves_left(m: StateModel, p: int) -> int {
    m.hands[p].len() + passes_left(m, p)
}

/// The moves left of the first `k` players; the game cannot last longer.
pub open spec fn potential(m: StateModel, k: int) -> int
    decreases k,
{
    if k <= 0 {
        0
    } else {
        potential(m, k - 1) + moves_left(m, k - 1)
    }
}

proof fn lemma_potential_update(m0: StateModel, m1: StateModel, k: int, p: int)
    requires
        forall|q: int| 0 <= q < k && q != p ==> moves_left(m0, q) == moves_left(m1, q),
    ensures
        potential(m1, k) - potential(m0, k) == (if 0 <= p < k {
            moves_left(m1, p) - moves_left(m0, p)
        } else {
            0
        }),
    decreases k,
{
    if k > 0 {
        lemma_potential_update(m0, m1, k - 1, p);
    }
}

/// No player has fewer than zero moves left.
pub proof fn lemma_potential_nonneg(m: StateModel, k: int)
    ensures
        potential(m, k) >= 0,
    decreases k,
{
    if k > 0 {
        lemma_potential_nonneg(m, k - 1);
    }
}

/// Passing the turn on leaves every player's moves left as they were.
pub proof fn lemma_potential_same(m0: StateModel, m1: StateModel, k: int)
    requires
        m0.hands == m1.hands,
        m0.pass_counts == m1.pass_counts,
    ensures
        potential(m0, k) == potential(m1, k),
{
    lemma_potential_update(m0, m1, k, -1);
}

/// Every legal action uses up at least one of the acting player's remaining
/// moves, and no other player's: the game always comes to an end.
pub proof fn lemma_legal_action_progresses(m: StateModel, n: nat, a: int)
    requires
        state_wf(m, n),
        0 <= a < 53,
        legal_mask(m)[a],
    ensures
        potential(after_action(m, m.current_player as int, a as u8), n as int) < potential(m, n as int),
{
    let p = m.current_player as int;
    let m3 = after_action(m, p, a as u8);
    let m1 = after_play(m, p, a as u8);
    assert(m3.hands == m1.hands && m3.pass_counts == m1.pass_counts);
    if a < 52 {
        let h = m.hands[p];
        assert(h.contains(a as u8));
        let j = choose|j: int| 0 <= j < h.len() && h[j] == a as u8;
        let fi = first_index(h, a as u8);
        assert(0 <= fi < h.len()) by {
            lemma_first_index_exists(h, a as u8, j);
        }
        assert(m1.hands[p].len() == h.len() - 1);
    } else {
        assert(m.pass_counts[p] < 4);
    }
    assert forall|q: int| 0 <= q < n && q != p implies moves_left(m, q) == moves_left(m3, q) by {
        assert(m3.hands[q] == m.hands[q]);
        assert(m3.pass_counts[q] == m.pass_counts[q]);
    }
    lemma_potential_update(m, m3, n as int, p);
}

pub proof fn lemma_first_index_exists(s: Seq<u8>, x: u8, j: int)
    requires
        0 <= j < s.len(),
        s[j] == x,
    ensures
        0 <= first_index(s, x) < s.len(),
        s[first_index(s, x)] == x,
    decreases j,
{
    if exists|i: int| 0 <= i < j && s[i] == x {
        let i = choose|i: int| 0 <= i < j && s[i] == x;
        lemma_first_index_exists(s, x, i);
    } else {
        assert(0 <= j < s.len() && s[j] == x && forall|i: int| 0 <= i < j ==> s[i] != x);
    }
}

// ---------------------------------------------------------------------------
// Small executable helpers.
// ---------------------------------------------------------------------------

pub fn contains_u8(v: &Vec<u8>, x: u8) -> (b: bool)
    ensures
        b == v@.contains(x),
{
    let mut i: usize = 0;
    while i < v.len()
        invariant
            i <= v.len(),
            forall|j: int| 0 <= j < i ==> v@[j] != x,
        decreases v.len() - i,
    {
        if v[i] == x {
            return true;
        }
        i = i + 1;
    }
    false
}

pub fn contains_usize(v: &Vec<usize>, x: usize) -> (b: bool)
    ensures
        b == v@.contains(x),
{
    let mut i: usize = 0;
    while i < v.len()
        invariant
            i <= v.len(),
            forall|j: int| 0 <= j < i ==> v@[j] != x,
        decreases v.len() - i,
    {
        if v[i] == x {
            return true;
        }
        i = i + 1;
    }
    false
}

fn copy_u8s(v: &Vec<u8>) -> (r: Vec<u8>)
    ensures
        r@ == v@,
{
    let mut r: Vec<u8> = Vec::new();
    let mut i: usize = 0;
    while i < v.len()
        invariant
            i <= v.len(),
            r@ == v@.take(i as int),
        decreases v.len() - i,
    {
        r.push(v[i]);
        i = i + 1;
        assert(r@ =~= v@.take(i as int));
    }
    assert(v@.take(v.len() as int) =~= v@);
    r
}

fn copy_usizes(v: &Vec<usize>) -> (r: Vec<usize>)
    ensures
        r@ == v@,
{
    let mut r: Vec<usize> = Vec::new();
    let mut i: usize = 0;
    while i < v.len()
        invariant
            i <= v.len(),
            r@ == v@.take(i as int),
        decreases v.len() - i,
    {
        r.push(v[i]);
        i = i + 1;
        assert(r@ =~= v@.take(i as int));
    }
    assert(v@.take(v.len() as int) =~= v@);
    r
}

fn copy_bools(v: &Vec<bool>) -> (r: Vec<bool>)
    ensures
        r@ == v@,
{
    let mut r: Vec<bool> = Vec::new();
    let mut i: usize = 0;
    while i < v.len()
        invariant
            i <= v.len(),
            r@ == v@.take(i as int),
        decreases v.len() - i,
    {
        r.push(v[i]);
        i = i + 1;
        assert(r@ =~= v@.take(i as int));
    }
    assert(v@.take(v.len() as int) =~= v@);
    r
}

fn filled_bools(n: usize, b: bool) -> (r: Vec<bool>)
    ensures
        r@ == Seq::new(n as nat, |i: int| b),
{
    let mut r: Vec<bool> = Vec::new();
    let mut i: usize = 0;
    while i < n
        invariant
            i <= n,
            r@ == Seq::new(i as nat, |j: int| b),
        decreases n - i,
    {
        r.push(b);
        i = i + 1;
        assert(r@ =~= Seq::new(i as nat, |j: int| b));
    }
    r
}

fn filled_u8s(n: usize, x: u8) -> (r: Vec<u8>)
    ensures
        r@ == Seq::new(n as nat, |i: int| x),
{
    let mut r: Vec<u8> = Vec::new();
    let mut i: usize = 0;
    while i < n
        invariant
            i <= n,
            r@ == Seq::new(i as nat, |j: int| x),
        decreases n - i,
    {
        r.push(x);
        i = i + 1;
        assert(r@ =~= Seq::new(i as nat, |j: int| x));
    }
    r
}

impl RawState {
    /// A copy of the state.
    pub fn duplicate(&self) -> (r: RawState)
        ensures
            r@ == self@,
    {
        let mut hands: Vec<Vec<u8>> = Vec::new();
        let mut i: usize = 0;
        while i < self.hands.len()
            invariant
                i <= self.hands.len(),
                hands@.len() == i,
                forall|j: int| 0 <= j < i ==> (#[trigger] hands@[j])@ == self.hands@[j]@,
            decreases self.hands.len() - i,
        {
            hands.push(copy_u8s(&self.hands[i]));
            i = i + 1;
        }
        let r = RawState {
            hands,
            field: copy_bools(&self.field),
            virtual_hand: copy_u8s(&self.virtual_hand),
            pass_counts: copy_u8s(&self.pass_counts),
            current_player: self.current_player,
            finished_order: copy_usizes(&self.finished_order),
            eliminated: copy_usizes(&self.eliminated),
            action_log: copy_u8s(&self.action_log),
            legal_actions_mask: copy_bools(&self.legal_actions_mask),
        };
        assert(r@.hands =~= self@.hands);
        r
    }
}

/// The game of Sevens for `num_players` players, seen from the seat `agent_id`;
/// `opponent` chooses the moves of every other seat.
pub struct SevensEnv<O> {
    pub num_players: usize,
    pub agent_id: usize,
    pub opponent: O,
    pub work_buf: Vec<u8>,
    pub state: RawState,
}

impl<O> SevensEnv<O> {
    pub open spec fn wf(&self) -> bool {
        state_wf(self.state@, self.num_players as nat)
    }

    pub open spec fn shape_wf(&self) -> bool {
        state_shape(self.state@, self.num_players as nat)
    }

    /// What dealing needs of a game: at least one seat, and a hand for each.
    pub open spec fn ready_to_deal(&self) -> bool {
        &&& self.num_players >= 1
        &&& self.state.hands@.len() == self.num_players
    }

    /// A shuffled deal ends with a seated starting player: the current player
    /// has a seat, or every card is dealt (the number of players divides 52),
    /// so that the holder of the seven of diamonds starts.
    pub open spec fn start_seated(&self) -> bool {
        self.state.current_player < self.num_players || 52usize % self.num_players == 0
    }

    /// A game with empty hands and an empty field; `init_game` deals the cards.
    pub fn new(num_players: usize, agent_id: usize, opponent: O) -> (env: SevensEnv<O>)
        ensures
            env.num_players == num_players,
            env.agent_id == agent_id,
            env.state@.hands == Seq::new(num_players as nat, |p: int| Seq::<u8>::empty()),
            env.state@.field == Seq::new(52, |c: int| false),
            env.state@.virtual_hand == Seq::<u8>::empty(),
            env.state@.pass_counts == Seq::new(num_players as nat, |p: int| 0u8),
            env.state@.current_player == 0,
            env.state@.finished_order == Seq::<usize>::empty(),
            env.state@.eliminated == Seq::<usize>::empty(),
            env.state@.action_log == Seq::new(num_players as nat, |p: int| 0u8),
            env.state@.legal_actions_mask == Seq::new(53, |i: int| false),
            num_players >= 1 ==> env.wf(),
    {
        let mut hands: Vec<Vec<u8>> = Vec::new();
        let mut i: usize = 0;
        while i < num_players
            invariant
                i <= num_players,
                hands@.len() == i,
                forall|j: int| 0 <= j < i ==> (#[trigger] hands@[j])@ == Seq::<u8>::empty(),
            decreases num_players - i,
        {
            hands.push(Vec::new());
            i = i + 1;
        }
        let env = SevensEnv {
            num_players,
            agent_id,
            opponent,
            work_buf: Vec::with_capacity(52),
            state: RawState {
                hands,
                field: filled_bools(NUM_CARDS, false),
                virtual_hand: Vec::new(),
                pass_counts: filled_u8s(num_players, 0),
                current_player: 0,
                finished_order: Vec::new(),
                eliminated: Vec::new(),
                action_log: filled_u8s(num_players, 0),
                legal_actions_mask: filled_bools(53, false),
            },
        };
        assert(env.state@.hands =~= Seq::new(num_players as nat, |p: int| Seq::<u8>::empty()));
        env
    }

    /// A copy of the current state.
    pub fn get_raw_state(&self) -> (r: RawState)
        ensures
            r@ == self.state@,
    {
        self.state.duplicate()
    }

    /// Every player has finished or has been eliminated.
    pub fn check_done(&self) -> (b: bool)
        ensures
            b == is_done(self.state@, self.num_players as nat),
    {
        let e = self.state.eliminated.len();
        e <= self.num_players && self.state.finished_order.len() == self.num_players - e
    }

    /// Whether `card` can be placed on the current field.
    pub fn can_play(&self, card: Card) -> (b: bool)
        requires
            card.0 < 52,
            self.state.field.len() == 52,
        ensures
            b == card_playable(self.state@.field, card.0 as int),
    {
        let rank = card.rank();
        if rank == 6 {
            return true;
        }
        let target = if rank < 6 {
            card.neighbor(1)
        } else {
            card.neighbor(-1)
        };
        match target {
            Some(t) => self.state.field[t.0 as usize],
            None => false,
        }
    }

    /// The legal actions of the current player, as a mask over the 53 action codes.
    pub fn get_legal_action_mask(&self) -> (mask: Vec<bool>)
        requires
            mask_computable(self.state@),
        ensures
            mask@ == legal_mask(self.state@),
    {
        let ghost m = self.state@;
        let mut mask = filled_bools(53, false);
        let p = self.state.current_player;
        if contains_usize(&self.state.finished_order, p) || contains_usize(
            &self.state.eliminated,
            p,
        ) {
            assert(mask@ =~= legal_mask(m));
            return mask;
        }
        let hand = &self.state.hands[p];
        assert(hand@ == m.hands[p as int]);
        let mut playable_count: usize = 0;
        let mut k: usize = 0;
        while k < hand.len()
            invariant
                self.state@.field.len() == 52,
                cards_valid(hand@),
                m == self.state@,
                p == m.current_player,
                hand@ == m.hands[p as int],
                is_active(m, p),
                k <= hand.len(),
                playable_count <= k,
                mask@.len() == 53,
                mask@[52] == false,
                forall|c: int|
                    0 <= c < 52 ==> #[trigger] mask@[c] == (exists|j: int|
                        0 <= j < k && hand@[j] == c && card_playable(m.field, c)),
                (playable_count > 0) == (exists|j: int|
                    0 <= j < k && card_playable(m.field, hand@[j] as int)),
            decreases hand.len() - k,
        {
            let card_id = hand[k];
            assert(card_id < 52);
            if self.can_play(Card(card_id)) {
                mask.set(card_id as usize, true);
                playable_count = playable_count + 1;
            }
            k = k + 1;
            assert forall|c: int| 0 <= c < 52 implies #[trigger] mask@[c] == (exists|j: int|
                0 <= j < k && hand@[j] == c && card_playable(m.field, c)) by {
                if mask@[c] && c != card_id {
                    let j0 = choose|j: int| 0 <= j < k - 1 && hand@[j] == c && card_playable(m.field, c);
                    assert(0 <= j0 < k && hand@[j0] == c);
                }
                if c == card_id && card_playable(m.field, c) {
                    assert(hand@[k - 1] == c);
                }
                if !mask@[c] {
                    assert forall|j: int| 0 <= j < k && hand@[j] == c implies !card_playable(m.field, c) by {
                        if j < k - 1 {
                        }
                    }
                }
            }
            assert((playable_count > 0) == (exists|j: int|
                0 <= j < k && card_playable(m.field, hand@[j] as int))) by {
                if card_playable(m.field, card_id as int) {
                    assert(card_playable(m.field, hand@[k - 1] as int));
                }
            }
        }
        let pc = self.state.pass_counts[p];
        if pc < 4 {
            if playable_count >= 1 && pc == 3 {
                mask.set(PASS_ACTION as usize, false);
            } else {
                mask.set(PASS_ACTION as usize, true);
            }
        }
        assert forall|c: int| 0 <= c < 52 implies mask@[c] == legal_mask(m)[c] by {
            if m.hands[p as int].contains(c as u8) && card_playable(m.field, c) {
                let j = choose|j: int| 0 <= j < hand@.len() && hand@[j] == c as u8;
                assert(hand@[j] == c);
            }
            if mask@[c] {
                let j = choose|j: int| 0 <= j < k && hand@[j] == c && card_playable(m.field, c);
                assert(hand@[j] == c as u8);
            }
        }
        assert(mask@ =~= legal_mask(m));
        mask
    }

    /// Places the cards of eliminated players (the virtual hand) that have become
    /// playable, round after round, until none of them can be placed.
    pub fn process_virtual(&mut self)
        requires
            old(self).state@.field.len() == 52,
            cards_valid(old(self).state@.virtual_hand),
        ensures
            old(self).shape_wf() ==> final(self).shape_wf(),
            old(self).wf() ==> final(self).wf(),
            final(self).state@ == after_settle(old(self).state@),
            final(self).num_players == old(self).num_players,
            final(self).agent_id == old(self).agent_id,
            final(self).opponent == old(self).opponent,
    {
        let ghost m0 = self.state@;
        proof {
            lemma_settle_props(m0.field, m0.virtual_hand);
        }
        let mut changed = true;
        while changed
            invariant
                self.num_players == old(self).num_players,
                self.agent_id == old(self).agent_id,
                self.opponent == old(self).opponent,
                self.state@.field.len() == 52,
                cards_valid(self.state@.virtual_hand),
                self.state@ == (StateModel {
                    field: self.state@.field,
                    virtual_hand: self.state@.virtual_hand,
                    ..m0
                }),
                settle(self.state@.field, self.state@.virtual_hand) == settle(m0.field, m0.virtual_hand),
                !changed ==> !any_releasable(self.state@.field, self.state@.virtual_hand),
            decreases self.state.virtual_hand.len() + (if changed { 1int } else { 0int }),
        {
            changed = false;
            let ghost f0 = self.state@.field;
            let ghost v0 = self.state@.virtual_hand;
            let ghost pred = |c: u8| !card_playable(f0, c as int);
            self.work_buf.clear();
            let mut keep: Vec<u8> = Vec::new();
            let mut i: usize = 0;
            while i < self.state.virtual_hand.len()
                invariant
                    self.state@.field.len() == 52,
                    cards_valid(self.state@.virtual_hand),
                    self.num_players == old(self).num_players,
                    self.agent_id == old(self).agent_id,
                    self.opponent == old(self).opponent,
                    self.state@.field == f0,
                    self.state@.virtual_hand == v0,
                    self.state@ == (StateModel { field: f0, virtual_hand: v0, ..m0 }),
                    pred == (|c: u8| !card_playable(f0, c as int)),
                    i <= v0.len(),
                    keep@ == v0.take(i as int).filter(pred),
                    forall|k: int| 0 <= k < self.work_buf@.len() ==> {
                        &&& card_playable(f0, #[trigger] self.work_buf@[k] as int)
                        &&& v0.contains(self.work_buf@[k])
                        &&& self.work_buf@[k] < 52
                    },
                    forall|j: int|
                        0 <= j < i && card_playable(f0, v0[j] as int) ==> self.work_buf@.contains(
                            #[trigger] v0[j],
                        ),
                    (self.work_buf@.len() > 0) == (exists|j: int|
                        0 <= j < i && card_playable(f0, v0[j] as int)),
                decreases v0.len() - i,
            {
                let card_id = self.state.virtual_hand[i];
                assert(card_id < 52);
                let ghost w0 = self.work_buf@;
                proof {
                    v0.take(i as int).lemma_filter_push(card_id, pred);
                    assert(v0.take(i + 1) =~= v0.take(i as int).push(card_id));
                }
                if self.can_play(Card(card_id)) {
                    self.work_buf.push(card_id);
                    assert(self.work_buf@[self.work_buf@.len() - 1] == card_id);
                } else {
                    keep.push(card_id);
                }
                i = i + 1;
                assert forall|j: int|
                    0 <= j < i && card_playable(f0, v0[j] as int) implies self.work_buf@.contains(
                    #[trigger] v0[j],
                ) by {
                    if j < i - 1 {
                        assert(w0.contains(v0[j]));
                        let k = choose|k: int| 0 <= k < w0.len() && w0[k] == v0[j];
                        assert(self.work_buf@[k] == v0[j]);
                    } else {
                        assert(self.work_buf@[self.work_buf@.len() - 1] == v0[j]);
                    }
                }
                assert((self.work_buf@.len() > 0) == (exists|j: int|
                    0 <= j < i && card_playable(f0, v0[j] as int))) by {
                    if self.work_buf@.len() > w0.len() {
                        assert(card_playable(f0, v0[i - 1] as int));
                    }
                }
            }
            assert(v0.take(v0.len() as int) =~= v0);
            if self.work_buf.len() > 0 {
                changed = true;
                let ghost w = self.work_buf@;
                let mut k: usize = 0;
                while k < self.work_buf.len()
                    invariant
                        self.num_players == old(self).num_players,
                        self.agent_id == old(self).agent_id,
                        self.opponent == old(self).opponent,
                        self.work_buf@ == w,
                        f0.len() == 52,
                        forall|j: int|
                            0 <= j < v0.len() && card_playable(f0, v0[j] as int) ==> w.contains(
                                #[trigger] v0[j],
                            ),
                        k <= self.work_buf@.len(),
                        self.state@.field.len() == 52,
                        self.state@.virtual_hand == v0,
                        self.state@ == (StateModel { field: self.state@.field, virtual_hand: v0, ..m0 }),
                        forall|q: int| 0 <= q < self.work_buf@.len() ==> {
                            &&& card_playable(f0, #[trigger] self.work_buf@[q] as int)
                            &&& v0.contains(self.work_buf@[q])
                            &&& self.work_buf@[q] < 52
                        },
                        forall|c: int|
                            0 <= c < 52 ==> #[trigger] self.state@.field[c] == (f0[c]
                                || self.work_buf@.take(k as int).contains(c as u8)),
                    decreases self.work_buf@.len() - k,
                {
                    let c = self.work_buf[k];
                    self.state.field.set(c as usize, true);
                    k = k + 1;
                    assert forall|d: int|
                        0 <= d < 52 implies #[trigger] self.state@.field[d] == (f0[d]
                            || self.work_buf@.take(k as int).contains(d as u8)) by {
                        let tk = self.work_buf@.take(k as int);
                        let tp = self.work_buf@.take(k - 1);
                        assert(tk =~= tp.push(c));
                        if d == c as int {
                            assert(tk[k - 1] == d as u8);
                        } else {
                            assert((d as u8) != c);
                            if tk.contains(d as u8) {
                                let q = choose|q: int| 0 <= q < tk.len() && tk[q] == d as u8;
                                assert(tp[q] == d as u8);
                            }
                            if tp.contains(d as u8) {
                                let q = choose|q: int| 0 <= q < tp.len() && tp[q] == d as u8;
                                assert(tk[q] == d as u8);
                            }
                        }
                    }
                }
                assert(self.work_buf@.take(self.work_buf@.len() as int) =~= self.work_buf@);
                assert(self.state@.field =~= released_field(f0, v0)) by {
                    assert forall|c: int| 0 <= c < 52 implies self.state@.field[c] == released_field(f0, v0)[c] by {
                        if v0.contains(c as u8) && card_playable(f0, c) {
                            let j = choose|j: int| 0 <= j < v0.len() && v0[j] == c as u8;
                            assert(v0[j] as int == c);
                            assert(self.work_buf@.contains(v0[j]));
                        }
                        if self.work_buf@.contains(c as u8) {
                            let q = choose|q: int| 0 <= q < self.work_buf@.len() && self.work_buf@[q] == c as u8;
                            assert(self.work_buf@[q] as int == c);
                        }
                    }
                }
                self.state.virtual_hand = keep;
                proof {
                    lemma_still_held_valid(f0, v0);
                    assert(any_releasable(f0, v0));
                    let j = choose|j: int| 0 <= j < v0.len() && card_playable(f0, v0[j] as int);
                    lemma_filter_drops(v0, pred, j);
                }
            } else {
                assert(!any_releasable(f0, v0));
            }
        }
        proof {
            assert(settle(self.state@.field, self.state@.virtual_hand) == (
            self.state@.field,
            self.state@.virtual_hand,
            ));
        }
    }

    /// Eliminates `player`: its hand joins the virtual hand.
    pub fn dobon(&mut self, player: usize)
        requires
            player < old(self).state@.hands.len(),
            player < old(self).state@.action_log.len(),
        ensures
            old(self).shape_wf() && player < old(self).num_players ==> final(self).shape_wf(),
            old(self).wf() && !old(self).state@.finished_order.contains(player) ==> final(self).wf(),
            final(self).state@ == after_dobon(old(self).state@, player as int),
            final(self).num_players == old(self).num_players,
            final(self).agent_id == old(self).agent_id,
            final(self).opponent == old(self).opponent,
    {
        let ghost m0 = self.state@;
        let mut k: usize = 0;
        let hand_len = self.state.hands[player].len();
        while k < hand_len
            invariant
                self.num_players == old(self).num_players,
                self.agent_id == old(self).agent_id,
                self.opponent == old(self).opponent,
                self.state@ == (StateModel { virtual_hand: self.state@.virtual_hand, ..m0 }),
                player < m0.hands.len(),
                hand_len == m0.hands[player as int].len(),
                k <= hand_len,
                self.state@.virtual_hand == m0.virtual_hand + m0.hands[player as int].take(k as int),
            decreases hand_len - k,
        {
            let c = self.state.hands[player][k];
            self.state.virtual_hand.push(c);
            k = k + 1;
            assert(m0.hands[player as int].take(k as int) =~= m0.hands[player as int].take(k - 1).push(c));
            assert(self.state@.virtual_hand =~= m0.virtual_hand + m0.hands[player as int].take(k as int));
        }
        assert(m0.hands[player as int].take(hand_len as int) =~= m0.hands[player as int]);
        self.state.hands.set(player, Vec::new());
        if !contains_usize(&self.state.eliminated, player) {
            self.state.eliminated.push(player);
        }
        self.state.action_log.set(player, 0);
        assert(self.state@.hands =~= m0.hands.update(player as int, Seq::<u8>::empty()));
        assert(self.state@ =~= after_dobon(m0, player as int));
        proof {
            let m = self.state@;
            if state_shape(m0, self.num_players as nat) && player < self.num_players {
                assert forall|p: int| 0 <= p < self.num_players implies cards_valid(#[trigger] m.hands[p]) by {
                    if p != player {
                        assert(m.hands[p] == m0.hands[p]);
                    }
                }
                assert(cards_valid(m.virtual_hand)) by {
                    assert forall|i: int| 0 <= i < m.virtual_hand.len() implies m.virtual_hand[i] < 52 by {
                        if i >= m0.virtual_hand.len() {
                            assert(m.virtual_hand[i] == m0.hands[player as int][i - m0.virtual_hand.len()]);
                        }
                    }
                }
                if state_wf(m0, self.num_players as nat) && !m0.finished_order.contains(player) {
                    assert forall|i: int| 0 <= i < m.finished_order.len() implies !m.eliminated.contains(
                        #[trigger] m.finished_order[i],
                    ) by {
                        if m.eliminated.contains(m.finished_order[i]) {
                            let q = choose|q: int| 0 <= q < m.eliminated.len() && m.eliminated[q] == m.finished_order[i];
                            if q < m0.eliminated.len() {
                                assert(m0.eliminated[q] == m.eliminated[q]);
                            } else {
                                assert(m.finished_order[i] == player);
                            }
                        }
                    }
                }
                assert(players_valid(m.eliminated, self.num_players as nat)) by {
                    if !m0.eliminated.contains(player) {
                        assert forall|a: int, b: int|
                            0 <= a < m.eliminated.len() && 0 <= b < m.eliminated.len() && a != b implies
                            m.eliminated[a] != m.eliminated[b] by {
                            if a == m0.eliminated.len() as int {
                                assert(m0.eliminated[b] == m.eliminated[b]);
                            } else if b == m0.eliminated.len() as int {
                                assert(m0.eliminated[a] == m.eliminated[a]);
                            }
                        }
                    }
                }
            }
        }
    }

    /// Carries out `action` for `player`: a card in the hand is placed, a pass is
    /// counted (the fourth pass eliminates the player), the virtual hand is
    /// settled, and a player with an empty hand finishes.
    pub fn apply_action(&mut self, player: usize, action: u8) -> (event: ActionEvent)
        requires
            old(self).shape_wf(),
            player < old(self).num_players,
            pass_fits(old(self).state@, player as int, action),
        ensures
            final(self).shape_wf(),
            old(self).wf() && action_allowed(old(self).state@, player as int, action) ==> final(self).wf(),
            final(self).state@ == after_action(old(self).state@, player as int, action),
            final(self).num_players == old(self).num_players,
            final(self).agent_id == old(self).agent_id,
            final(self).opponent == old(self).opponent,
            event.dobon == (is_fourth_pass(old(self).state@, player as int, action)
                && player == old(self).agent_id),
            event.make_opp_dobon == (is_fourth_pass(old(self).state@, player as int, action)
                && player != old(self).agent_id),
            cards_consistent(old(self).state@) ==> forall|c: u8|
                c < 52 ==> #[trigger] card_total(final(self).state@, c) == card_total(old(self).state@, c),
    {
        let ghost m0 = self.state@;
        let mut event = ActionEvent { dobon: false, make_opp_dobon: false };
        if action != PASS_ACTION {
            let hand = &self.state.hands[player];
            let mut pos: usize = 0;
            while pos < hand.len() && hand[pos] != action
                invariant
                    pos <= hand@.len(),
                    forall|j: int| 0 <= j < pos ==> hand@[j] != action,
                decreases hand.len() - pos,
            {
                pos = pos + 1;
            }
            assert(hand@ == m0.hands[player as int]);
            if pos < hand.len() {
                assert(hand@[pos as int] == action);
                assert(m0.hands[player as int].contains(action));
                proof {
                    let fi = first_index(hand@, action);
                    assert(0 <= fi < hand@.len() && hand@[fi] == action && forall|j: int| 0 <= j < fi ==> hand@[j] != action);
                    if fi < pos {
                        assert(hand@[fi] != action);
                    } else if fi > pos {
                        assert(hand@[pos as int] != action);
                    }
                    assert(fi == pos as int);
                }
                let mut new_hand: Vec<u8> = Vec::new();
                let mut k: usize = 0;
                while k < hand.len()
                    invariant
                        pos < hand@.len(),
                        k <= hand@.len(),
                        new_hand@ == hand@.remove(pos as int).take(
                            if k <= pos { k as int } else { k - 1 },
                        ),
                    decreases hand.len() - k,
                {
                    if k != pos {
                        new_hand.push(hand[k]);
                    }
                    k = k + 1;
                    assert(new_hand@ =~= hand@.remove(pos as int).take(
                        if k <= pos { k as int } else { k - 1 },
                    ));
                }
                assert(new_hand@ =~= hand@.remove(pos as int));
                self.state.hands.set(player, new_hand);
                self.state.field.set(action as usize, true);
                self.state.action_log.set(player, action + 1);
                assert(self.state@.hands =~= m0.hands.update(player as int, m0.hands[player as int].remove(pos as int)));
                assert(self.state@ =~= after_play(m0, player as int, action));
            } else {
                assert(!m0.hands[player as int].contains(action));
            }
        } else {
            let pc = self.state.pass_counts[player] + 1;
            self.state.pass_counts.set(player, pc);
            self.state.action_log.set(player, PASS_ACTION + 1);
            if self.state.pass_counts[player] >= 4 {
                if player == self.agent_id {
                    event.dobon = true;
                } else {
                    event.make_opp_dobon = true;
                }
                self.dobon(player);
            }
            assert(self.state@ =~= after_play(m0, player as int, action));
        }
        let ghost m1 = self.state@;
        proof {
            let m = m1;
            assert(state_shape(m, self.num_players as nat)) by {
                assert forall|p: int| 0 <= p < self.num_players implies cards_valid(#[trigger] m.hands[p]) by {
                    if p == player && action != 52 && m0.hands[p].contains(action) {
                        let h = m0.hands[p];
                        let r = h.remove(first_index(h, action));
                        assert forall|i: int| 0 <= i < r.len() implies r[i] < 52 by {
                            if i < first_index(h, action) {
                                assert(r[i] == h[i]);
                            } else {
                                assert(r[i] == h[i + 1]);
                            }
                        }
                    }
                }
            }
        }
        proof {
            let m = m1;
            if state_wf(m0, self.num_players as nat) && action_allowed(m0, player as int, action) {
                assert forall|i: int| 0 <= i < m.finished_order.len() implies !m.eliminated.contains(
                    #[trigger] m.finished_order[i],
                ) by {
                    assert(m.finished_order == m0.finished_order);
                    if m.eliminated.contains(m.finished_order[i]) {
                        let q = choose|q: int| 0 <= q < m.eliminated.len() && m.eliminated[q] == m.finished_order[i];
                        if q < m0.eliminated.len() {
                            assert(m0.eliminated[q] == m.eliminated[q]);
                        } else {
                            assert(m.finished_order[i] == player);
                            assert(m0.finished_order.contains(player));
                        }
                    }
                }
                assert(state_wf(m, self.num_players as nat));
            }
        }
        self.process_virtual();
        let hand_empty = self.state.hands[player].len() == 0;
        if hand_empty && !contains_usize(&self.state.finished_order, player) && !contains_usize(
            &self.state.eliminated,
            player,
        ) {
            let ghost m2 = self.state@;
            self.state.finished_order.push(player);
            proof {
                let m = self.state@;
                assert(players_valid(m.finished_order, self.num_players as nat)) by {
                    assert forall|a: int, b: int|
                        0 <= a < m.finished_order.len() && 0 <= b < m.finished_order.len() && a != b implies
                        m.finished_order[a] != m.finished_order[b] by {
                        if a == m2.finished_order.len() as int {
                            assert(m2.finished_order[b] == m.finished_order[b]);
                        } else if b == m2.finished_order.len() as int {
                            assert(m2.finished_order[a] == m.finished_order[a]);
                        }
                    }
                }
                if state_wf(m2, self.num_players as nat) {
                    assert forall|i: int| 0 <= i < m.finished_order.len() implies !m.eliminated.contains(
                        #[trigger] m.finished_order[i],
                    ) by {
                        if i < m2.finished_order.len() {
                            assert(m2.finished_order[i] == m.finished_order[i]);
                        }
                    }
                }
            }
        }
        assert(self.state@ =~= after_action(m0, player as int, action));
        proof {
            if cards_consistent(m0) {
                lemma_cards_conserved(m0, self.num_players as nat, player as int, action);
            }
        }
        event
    }

    /// Passes the turn to the next player that has neither finished nor been
    /// eliminated, and computes that player's legal actions. Does nothing once
    /// the game is over.
    pub fn advance_player(&mut self)
        requires
            old(self).shape_wf(),
            has_mover(old(self).state@, old(self).num_players as nat),
        ensures
            final(self).shape_wf(),
            old(self).wf() ==> final(self).wf(),
            final(self).num_players == old(self).num_players,
            final(self).agent_id == old(self).agent_id,
            final(self).opponent == old(self).opponent,
            is_done(old(self).state@, old(self).num_players as nat) ==> final(self).state@ == old(
                self,
            ).state@,
            !is_done(old(self).state@, old(self).num_players as nat) ==> final(self).state@
                == after_advance(old(self).state@, old(self).num_players as int),
    {
        if self.check_done() {
            return;
        }
        let ghost m0 = self.state@;
        let n = self.num_players;
        let start = self.state.current_player;
        let mut k: usize = 1;
        let mut cur: usize = (start + 1) % n;
        proof {
            if start + 1 < n {
                vstd::arithmetic::div_mod::lemma_small_mod((start + 1) as nat, n as nat);
            } else {
                vstd::arithmetic::div_mod::lemma_mod_self_0(n as int);
            }
        }
        while contains_usize(&self.state.finished_order, cur) || contains_usize(
            &self.state.eliminated,
            cur,
        )
            invariant
                self.shape_wf(),
                self.state@ == m0,
                n == self.num_players,
                start == m0.current_player,
                1 <= k <= n,
                cur == seat(start as int, k as int, n as int),
                forall|e: int| 1 <= e < k ==> !is_active(m0, seat(start as int, e, n as int) as usize),
                exists|p: usize| p < n && is_active(m0, p),
            decreases n - k,
        {
            if k == n {
                proof {
                    let p = choose|p: usize| p < n && is_active(m0, p);
                    let e: int = if p > start { p - start } else { p + n - start };
                    assert(seat(start as int, e, n as int) == p);
                    assert(false);
                }
            }
            proof {
                if cur + 1 < n {
                    vstd::arithmetic::div_mod::lemma_small_mod((cur + 1) as nat, n as nat);
                } else {
                    vstd::arithmetic::div_mod::lemma_mod_self_0(n as int);
                }
            }
            cur = (cur + 1) % n;
            k = k + 1;
        }
        proof {
            let d = next_active_offset(m0, n as int);
            assert(1 <= k <= n && is_active(m0, seat(start as int, k as int, n as int) as usize) && forall|e: int|
                1 <= e < k ==> !is_active(m0, seat(start as int, e, n as int) as usize));
            if d < k {
                assert(!is_active(m0, seat(start as int, d, n as int) as usize));
            } else if d > k {
                assert(!is_active(m0, seat(start as int, k as int, n as int) as usize));
            }
            assert(d == k);
        }
        self.state.current_player = cur;
        self.state.legal_actions_mask = self.get_legal_action_mask();
        assert(self.state@ =~= after_advance(m0, n as int));
    }

    /// The placing order: finishers first, then eliminated players from the
    /// last eliminated to the first.
    pub fn final_order(&self) -> (r: Vec<usize>)
        ensures
            r@ == full_order(self.state@),
    {
        let mut r = copy_usizes(&self.state.finished_order);
        let ghost f = self.state@.finished_order;
        let ghost e = self.state@.eliminated;
        let mut i: usize = self.state.eliminated.len();
        while i > 0
            invariant
                i <= e.len(),
                e == self.state@.eliminated,
                r@ == f + e.reverse().take(e.len() - i),
            decreases i,
        {
            i = i - 1;
            r.push(self.state.eliminated[i]);
            assert(e.reverse().take(e.len() - i) =~= e.reverse().take(e.len() - i - 1).push(e[i as int]));
            assert(r@ =~= f + e.reverse().take(e.len() - i));
        }
        assert(e.reverse().take(e.len() as int) =~= e.reverse());
        r
    }

    /// The place (0 = first) of `player` in the placing order: the first
    /// position that lists it, or `None` when it is not listed.
    pub fn place_of(&self, player: usize) -> (r: Option<usize>)
        ensures
            r is None <==> !full_order(self.state@).contains(player),
            r matches Some(i) ==> i < full_order(self.state@).len() && full_order(self.state@)[i as int] == player
                && forall|j: int| 0 <= j < i ==> full_order(self.state@)[j] != player,
    {
        let order = self.final_order();
        let mut i: usize = 0;
        while i < order.len()
            invariant
                i <= order@.len(),
                order@ == full_order(self.state@),
                forall|j: int| 0 <= j < i ==> order@[j] != player,
            decreases order@.len() - i,
        {
            if order[i] == player {
                return Some(i);
            }
            i = i + 1;
        }
        None
    }

    /// The final reward of every player, in twentieths.
    pub fn compute_reward_vector(&self) -> (rewards: Vec<i32>)
        requires
            self.shape_wf(),
        ensures
            rewards@ == reward_vector(self.state@, self.num_players as nat),
    {
        let ghost m = self.state@;
        let n = self.num_players;
        let mut rewards: Vec<i32> = Vec::new();
        let mut p: usize = 0;
        while p < n
            invariant
                p <= n,
                rewards@ == Seq::new(p as nat, |q: int| 0i32),
            decreases n - p,
        {
            rewards.push(0);
            p = p + 1;
            assert(rewards@ =~= Seq::new(p as nat, |q: int| 0i32));
        }
        if self.state.finished_order.len() == 0 {
            assert(rewards@ =~= reward_vector(m, n as nat));
            return rewards;
        }
        let order = self.final_order();
        proof {
            assert forall|i: int| 0 <= i < order@.len() implies #[trigger] order@[i] < n by {
                let f = m.finished_order;
                let e = m.eliminated;
                if i >= f.len() {
                    assert(order@[i] == e[e.len() - 1 - (i - f.len())]);
                }
            }
        }
        let mut rank: usize = 0;
        while rank < order.len() && rank < 4
            invariant
                self.shape_wf(),
                m == self.state@,
                n == self.num_players,
                order@ == full_order(m),
                forall|i: int| 0 <= i < order@.len() ==> #[trigger] order@[i] < n,
                m.finished_order.len() > 0,
                rank <= 4,
                rank <= order@.len(),
                rewards@.len() == n,
                forall|q: int|
                    0 <= q < n ==> #[trigger] rewards@[q] == (if last_pos(order@, q, rank as int) >= 0 {
                        rank_value(last_pos(order@, q, rank as int))
                    } else {
                        0i32
                    }),
            decreases 4 - rank,
        {
            let value: i32 = if rank == 0 {
                20
            } else if rank == 1 {
                6
            } else if rank == 2 {
                -6
            } else {
                -20
            };
            let who = order[rank];
            rewards.set(who, value);
            rank = rank + 1;
            assert forall|q: int| 0 <= q < n implies #[trigger] rewards@[q] == (if last_pos(order@, q, rank as int) >= 0 {
                rank_value(last_pos(order@, q, rank as int))
            } else {
                0i32
            }) by {
                assert(last_pos(order@, q, rank as int) == if order@[rank - 1] == q { rank - 1 } else { last_pos(order@, q, rank - 1) });
            }
        }
        assert(rewards@ =~= reward_vector(m, n as nat));
        rewards
    }

    /// The stored legal-action mask allows `action`.
    pub fn is_legal(&self, action: u8) -> (b: bool)
        ensures
            b == (action < 53 && (action as int) < self.state@.legal_actions_mask.len()
                && self.state@.legal_actions_mask[action as int]),
    {
        action < 53 && (action as usize) < self.state.legal_actions_mask.len()
            && self.state.legal_actions_mask[action as usize]
    }

    /// A copy of the state in which no action is legal, as a finished game is shown.
    pub fn final_view(&self) -> (s: RawState)
        ensures
            s@ == (StateModel { legal_actions_mask: Seq::new(53, |i: int| false), ..self.state@ }),
    {
        let mut s = self.state.duplicate();
        s.legal_actions_mask = filled_bools(53, false);
        s
    }

    /// Some seat has neither finished nor been eliminated.
    pub fn any_active(&self) -> (b: bool)
        ensures
            b == exists|p: usize| p < self.num_players && is_active(self.state@, p),
    {
        let n = self.num_players;
        let mut q: usize = 0;
        while q < n
            invariant
                q <= n,
                n == self.num_players,
                forall|p: usize| p < q ==> !is_active(self.state@, p),
            decreases n - q,
        {
            if !contains_usize(&self.state.finished_order, q) && !contains_usize(&self.state.eliminated, q) {
                assert(is_active(self.state@, q));
                return true;
            }
            q = q + 1;
        }
        false
    }

    /// Taking `action` now would leave a game that is not over with no player
    /// in it, so that passing the turn on could never end. This happens only
    /// when a player who has already finished passes for the fourth time.
    pub fn action_stalls(&self, action: u8) -> (b: bool)
        requires
            self.shape_wf(),
            pass_fits(self.state@, self.state.current_player as int, action),
        ensures
            b == !has_mover(after_action(self.state@, self.state.current_player as int, action), self.num_players as nat),
    {
        let mut probe = SevensEnv {
            num_players: self.num_players,
            agent_id: self.agent_id,
            opponent: RandomAgent::new(),
            work_buf: Vec::new(),
            state: self.state.duplicate(),
        };
        let player = self.state.current_player;
        let _ = probe.apply_action(player, action);
        !probe.check_done() && !probe.any_active()
    }

    /// Which seat must act next: the agent, another player, or nobody because
    /// the game is over (with the agent's final reward).
    pub fn next_turn(&self) -> (t: Turn)
        requires
            self.shape_wf(),
            self.agent_id < self.num_players,
        ensures
            self.state.current_player == self.agent_id ==> t == Turn::Agent,
            self.state.current_player != self.agent_id && is_done(self.state@, self.num_players as nat)
                ==> t == Turn::Over(reward_vector(self.state@, self.num_players as nat)[self.agent_id as int]),
            self.state.current_player != self.agent_id && !is_done(self.state@, self.num_players as nat)
                ==> t == Turn::Opponent(self.state.current_player),
    {
        if self.state.current_player == self.agent_id {
            Turn::Agent
        } else if self.check_done() {
            let rewards = self.compute_reward_vector();
            Turn::Over(rewards[self.agent_id])
        } else {
            Turn::Opponent(self.state.current_player)
        }
    }

    /// The agent's move: carries out `action` for the current player. When that
    /// ends the game, returns the penalty of a fourth pass plus the player's final
    /// reward, and `true`; otherwise passes the turn on and returns the penalty
    /// and `false`. The other players then act through `opponent_turn`.
    pub fn agent_move(&mut self, action: u8) -> (res: (i32, bool))
        requires
            old(self).shape_wf(),
            action < 53,
            old(self).state@.legal_actions_mask[action as int],
            pass_fits(old(self).state@, old(self).state.current_player as int, action),
            has_mover(
                after_action(old(self).state@, old(self).state.current_player as int, action),
                old(self).num_players as nat,
            ),
        ensures
            final(self).shape_wf(),
            old(self).wf() && action_allowed(old(self).state@, old(self).state.current_player as int, action)
                ==> final(self).wf(),
            final(self).num_players == old(self).num_players,
            final(self).agent_id == old(self).agent_id,
            final(self).opponent == old(self).opponent,
            ({
                let m0 = old(self).state@;
                let p = m0.current_player as int;
                let n = old(self).num_players as nat;
                let m1 = after_action(m0, p, action);
                let penalty: int = if is_fourth_pass(m0, p, action) && p == old(self).agent_id { -2 } else { 0 };
                if is_done(m1, n) {
                    &&& final(self).state@ == m1
                    &&& res.0 == penalty + reward_vector(m1, n)[p]
                    &&& res.1
                } else {
                    &&& final(self).state@ == after_advance(m1, n as int)
                    &&& res.0 == penalty
                    &&& !res.1
                }
            }),
            cards_consistent(old(self).state@) ==> forall|c: u8|
                c < 52 ==> #[trigger] card_total(final(self).state@, c) == card_total(old(self).state@, c),
    {
        let ghost m0 = self.state@;
        let player = self.state.current_player;
        let mut reward: i32 = 0;
        let event = self.apply_action(player, action);
        if event.dobon {
            reward = reward - 2;
        }
        if self.check_done() {
            let rewards = self.compute_reward_vector();
            reward = reward + rewards[player];
            return (reward, true);
        }
        let ghost m1 = self.state@;
        self.advance_player();
        proof {
            assert forall|c: u8| c < 52 implies #[trigger] card_total(self.state@, c) == card_total(m1, c) by {
                assert(self.state@.hands == m1.hands);
            }
        }
        (reward, false)
    }

    /// Another player's move: carries out `action` for the current player and
    /// passes the turn on. Returns the bonus, in twentieths, for that player's
    /// elimination.
    pub fn take_turn(&mut self, action: u8) -> (reward: i32)
        requires
            old(self).shape_wf(),
            pass_fits(old(self).state@, old(self).state.current_player as int, action),
            has_mover(
                after_action(old(self).state@, old(self).state.current_player as int, action),
                old(self).num_players as nat,
            ),
        ensures
            final(self).shape_wf(),
            old(self).wf() && action_allowed(old(self).state@, old(self).state.current_player as int, action)
                ==> final(self).wf(),
            final(self).num_players == old(self).num_players,
            final(self).agent_id == old(self).agent_id,
            final(self).opponent == old(self).opponent,
            ({
                let m0 = old(self).state@;
                let p = m0.current_player as int;
                let n = old(self).num_players as nat;
                let m1 = after_action(m0, p, action);
                &&& reward == (if is_fourth_pass(m0, p, action) && p != old(self).agent_id { 1i32 } else { 0i32 })
                &&& is_done(m1, n) ==> final(self).state@ == m1
                &&& !is_done(m1, n) ==> final(self).state@ == after_advance(m1, n as int)
            }),
            cards_consistent(old(self).state@) ==> forall|c: u8|
                c < 52 ==> #[trigger] card_total(final(self).state@, c) == card_total(old(self).state@, c),
    {
        let ghost m0 = self.state@;
        let player = self.state.current_player;
        let event = self.apply_action(player, action);
        let reward: i32 = if event.make_opp_dobon { 1 } else { 0 };
        let ghost m1 = self.state@;
        self.advance_player();
        proof {
            assert forall|c: u8| c < 52 implies #[trigger] card_total(self.state@, c) == card_total(m1, c) by {
                assert(self.state@.hands == m1.hands);
            }
        }
        reward
    }

    /// Deals `deck`: player `p` receives cards `p * (52 / n)` up to
    /// `(p + 1) * (52 / n)`; the sevens go to the field and the holder of the
    /// seven of diamonds starts.
    #[verifier::spinoff_prover]
    pub fn deal(&mut self, deck: &Vec<u8>)
        requires
            old(self).ready_to_deal(),
            old(self).state.current_player < old(self).num_players || exists|p: int|
                0 <= p < old(self).num_players && #[trigger] deal_chunk(deck@, old(self).num_players as nat, p).contains(
                    6u8,
                ),
            deck@.len() == 52,
            cards_valid(deck@),
        ensures
            final(self).wf(),
            final(self).num_players == old(self).num_players,
            final(self).agent_id == old(self).agent_id,
            final(self).opponent == old(self).opponent,
            final(self).state@ == dealt_state(old(self).state@, deck@, old(self).num_players as nat),
    {
        let ghost m0 = self.state@;
        let n = self.num_players;
        let ghost nn = n as nat;
        self.state.field = filled_bools(NUM_CARDS, false);
        self.state.pass_counts = filled_u8s(n, 0);
        self.state.finished_order.clear();
        self.state.eliminated.clear();
        self.state.virtual_hand.clear();
        self.state.action_log = filled_u8s(n, 0);
        self.state.legal_actions_mask = filled_bools(53, false);
        let chunk = 52 / n;
        let mut hands: Vec<Vec<u8>> = Vec::new();
        let mut i: usize = 0;
        while i < n
            invariant
                n == self.num_players,
                nn == n as nat,
                n >= 1,
                chunk == 52int / (n as int),
                i <= n,
                deck@.len() == 52,
                cards_valid(deck@),
                self.state.field@.len() == 52,
                hands@.len() == i,
                forall|p: int| 0 <= p < i ==> (#[trigger] hands@[p])@ == deal_chunk(deck@, nn, p).filter(|c: u8| not_seven(c)),
                forall|c: int| 0 <= c < 52 ==> #[trigger] self.state.field@[c] == (c % 13 == 6 && exists|p: int|
                    0 <= p < i && #[trigger] deal_chunk(deck@, nn, p).contains(c as u8)),
                self.state.current_player == seven_holder(deck@, nn, i as nat, m0.current_player),
                self.num_players == old(self).num_players,
                self.agent_id == old(self).agent_id,
                self.opponent == old(self).opponent,
                self.state@.pass_counts == Seq::new(nn, |p: int| 0u8),
                self.state@.action_log == Seq::new(nn, |p: int| 0u8),
                self.state@.finished_order == Seq::<usize>::empty(),
                self.state@.eliminated == Seq::<usize>::empty(),
                self.state@.virtual_hand == Seq::<u8>::empty(),
                self.state@.legal_actions_mask == Seq::new(53, |i: int| false),
            decreases n - i,
        {
            let ghost ch = deal_chunk(deck@, nn, i as int);
            let ghost pred = |c: u8| not_seven(c);
            let ghost f_start = self.state.field@;
            proof {
                lemma_deal_chunk(deck@, nn, i as int);
                assert(i * chunk == i as int * (52int / nn as int));
                assert forall|q: int| 0 <= q < chunk implies #[trigger] ch[q] == deck@[i * chunk + q] && 0 <= i
                    * chunk + q < 52 by {
                    assert(ch[q] == deal_chunk(deck@, nn, i as int)[q]);
                }
            }
            let mut h: Vec<u8> = Vec::new();
            let mut has_diamond_seven = false;
            let mut j: usize = 0;
            while j < chunk
                invariant
                    n == self.num_players,
                    nn == n as nat,
                    n >= 1,
                    chunk == 52int / (n as int),
                    i < n,
                    j <= chunk,
                    deck@.len() == 52,
                    cards_valid(deck@),
                    ch == deal_chunk(deck@, nn, i as int),
                    ch.len() == chunk,
                    f_start.len() == 52,
                    forall|q: int|
                        0 <= q < chunk ==> #[trigger] ch[q] == deck@[i * chunk + q] && 0 <= i * chunk + q < 52,
                    pred == (|c: u8| not_seven(c)),
                    self.state.field@.len() == 52,
                    h@ == ch.take(j as int).filter(pred),
                    has_diamond_seven == ch.take(j as int).contains(6u8),
                    forall|c: int| 0 <= c < 52 ==> #[trigger] self.state.field@[c] == (f_start[c] || (c % 13 == 6
                        && ch.take(j as int).contains(c as u8))),
                    self.num_players == old(self).num_players,
                    self.agent_id == old(self).agent_id,
                    self.opponent == old(self).opponent,
                    self.state@.pass_counts == Seq::new(nn, |p: int| 0u8),
                    self.state@.action_log == Seq::new(nn, |p: int| 0u8),
                    self.state@.finished_order == Seq::<usize>::empty(),
                    self.state@.eliminated == Seq::<usize>::empty(),
                    self.state@.virtual_hand == Seq::<u8>::empty(),
                    self.state@.legal_actions_mask == Seq::new(53, |i: int| false),
                    self.state.current_player == seven_holder(deck@, nn, i as nat, m0.current_player),
                decreases chunk - j,
            {
                proof {
                    lemma_chunk_bound(n as int, i as int, j as int);
                }
                let c = deck[i * chunk + j];
                assert(c == ch[j as int]);
                assert(c < 52);
                let ghost tk = ch.take(j as int);
                proof {
                    tk.lemma_filter_push(c, pred);
                    assert(ch.take(j + 1) =~= tk.push(c));
                }
                if c == 6 {
                    has_diamond_seven = true;
                }
                if c % 13 == 6 {
                    self.state.field.set(c as usize, true);
                } else {
                    h.push(c);
                }
                j = j + 1;
                assert(has_diamond_seven == ch.take(j as int).contains(6u8)) by {
                    assert(ch.take(j as int)[j - 1] == c);
                    if has_diamond_seven && c != 6 {
                        let q = choose|q: int| 0 <= q < tk.len() && tk[q] == 6u8;
                        assert(ch.take(j as int)[q] == 6u8);
                    }
                    if ch.take(j as int).contains(6u8) {
                        let q = choose|q: int| 0 <= q < j && ch.take(j as int)[q] == 6u8;
                        if q < j - 1 {
                            assert(tk[q] == 6u8);
                        }
                    }
                }
                assert forall|d: int| 0 <= d < 52 implies #[trigger] self.state.field@[d] == (f_start[d] || (d % 13 == 6
                    && ch.take(j as int).contains(d as u8))) by {
                    let t1 = ch.take(j as int);
                    if t1.contains(d as u8) && !tk.contains(d as u8) {
                        let q = choose|q: int| 0 <= q < t1.len() && t1[q] == d as u8;
                        if q < j - 1 {
                            assert(tk[q] == d as u8);
                        }
                        assert(c == d as u8);
                        assert(c as int == d);
                    }
                    if tk.contains(d as u8) {
                        let q = choose|q: int| 0 <= q < tk.len() && tk[q] == d as u8;
                        assert(t1[q] == d as u8);
                    }
                    if d == c as int {
                        assert(t1[j - 1] == d as u8);
                    }
                }
            }
            assert(ch.take(chunk as int) =~= ch);
            if has_diamond_seven {
                self.state.current_player = i;
            }
            hands.push(h);
            i = i + 1;
            assert forall|c: int| 0 <= c < 52 implies #[trigger] self.state.field@[c] == (c % 13 == 6 && exists|p: int|
                0 <= p < i && #[trigger] deal_chunk(deck@, nn, p).contains(c as u8)) by {
                if c % 13 == 6 && exists|p: int| 0 <= p < i && #[trigger] deal_chunk(deck@, nn, p).contains(c as u8) {
                    let p = choose|p: int| 0 <= p < i && #[trigger] deal_chunk(deck@, nn, p).contains(c as u8);
                    if p < i - 1 {
                        assert(f_start[c]);
                    }
                }
            }
        }
        self.state.hands = hands;
        let ghost m1 = StateModel {
            hands: Seq::new(nn, |p: int| deal_chunk(deck@, nn, p).filter(|c: u8| not_seven(c))),
            field: Seq::new(
                52,
                |c: int|
                    c % 13 == 6 && exists|p: int| 0 <= p < nn && #[trigger] deal_chunk(deck@, nn, p).contains(c as u8),
            ),
            virtual_hand: Seq::<u8>::empty(),
            pass_counts: Seq::new(nn, |p: int| 0u8),
            current_player: seven_holder(deck@, nn, nn, m0.current_player),
            finished_order: Seq::<usize>::empty(),
            eliminated: Seq::<usize>::empty(),
            action_log: Seq::new(nn, |p: int| 0u8),
            legal_actions_mask: Seq::new(53, |i: int| false),
        };
        assert(self.state@ =~= m1);
        proof {
            assert(seven_holder(deck@, nn, nn, m0.current_player) < n) by {
                lemma_seven_holder_bound(deck@, nn, nn, m0.current_player);
            }
            assert forall|p: int| 0 <= p < n implies cards_valid(#[trigger] m1.hands[p]) by {
                let ch = deal_chunk(deck@, nn, p);
                let f = ch.filter(|c: u8| not_seven(c));
                assert forall|k: int| 0 <= k < f.len() implies f[k] < 52 by {
                    assert(f.contains(f[k]));
                    ch.lemma_filter_contains_rev(|c: u8| not_seven(c), f[k]);
                    let q = choose|q: int| 0 <= q < ch.len() && ch[q] == f[k];
                    lemma_deal_chunk(deck@, nn, p);
                    assert(ch[q] == deck@[p * (52int / n as int) + q]);
                }
            }
            assert(players_valid(m1.finished_order, nn));
            assert(players_valid(m1.eliminated, nn));
            assert(state_wf(m1, nn));
        }
        self.state.legal_actions_mask = self.get_legal_action_mask();
        assert(self.state@ =~= dealt_state(m0, deck@, nn));
    }

    /// Shuffles a fresh deck and deals it. Whatever order the shuffle gives, the
    /// state is the one `deal` makes of some arrangement of the 52 cards.
    pub fn shuffle_and_deal(&mut self)
        requires
            old(self).ready_to_deal(),
            old(self).start_seated(),
        ensures
            final(self).wf(),
            final(self).num_players == old(self).num_players,
            final(self).agent_id == old(self).agent_id,
            final(self).opponent == old(self).opponent,
            exists|deck: Seq<u8>|
                deck.to_multiset() == full_deck().to_multiset() && final(self).state@ == dealt_state(
                    old(self).state@,
                    deck,
                    old(self).num_players as nat,
                ),
            cards_consistent(final(self).state@),
            52usize % old(self).num_players == 0 ==> forall|c: u8|
                c < 52 ==> #[trigger] card_total(final(self).state@, c) == 1,
    {
        let mut deck: Vec<u8> = Vec::new();
        let mut c: u8 = 0;
        while c < 52
            invariant
                c <= 52,
                deck@ == full_deck().take(c as int),
            decreases 52 - c,
        {
            deck.push(c);
            c = c + 1;
            assert(deck@ =~= full_deck().take(c as int));
        }
        assert(deck@ =~= full_deck());
        shuffle_cards(&mut deck);
        proof {
            broadcast use vstd::seq_lib::to_multiset_contains, vstd::seq_lib::to_multiset_len;
            assert(deck@.len() == 52) by {
                assert(deck@.len() == deck@.to_multiset().len());
                assert(full_deck().len() == full_deck().to_multiset().len());
            }
            assert forall|i: int| 0 <= i < deck@.len() implies deck@[i] < 52 by {
                let x = deck@[i];
                assert(deck@.contains(x));
                assert(deck@.to_multiset().count(x) > 0);
                assert(full_deck().contains(x));
            }
        }
        let ghost shuffled = deck@;
        proof {
            if self.state.current_player >= self.num_players {
                lemma_seven_of_diamonds_dealt(shuffled, self.num_players as nat);
            }
        }
        self.deal(&deck);
        proof {
            lemma_deal_places_each_card_once(old(self).state@, shuffled, self.num_players as nat);
        }
    }
}

impl<O: Agent> SevensEnv<O> {
    /// The current player's move as the opponent chooses it: the opponent is
    /// asked once and its action is carried out with `take_turn`. Its refusal
    /// is handed back with the state unchanged; so is an action that the rules
    /// cannot carry out (a pass that overflows the pass count, or one after
    /// which no player would be left to take the turn).
    pub fn opponent_turn(&mut self) -> (r: Result<i32, String>)
        requires
            old(self).shape_wf(),
        ensures
            final(self).shape_wf(),
            final(self).num_players == old(self).num_players,
            final(self).agent_id == old(self).agent_id,
            final(self).opponent == old(self).opponent,
            r is Err ==> final(self).state@ == old(self).state@,
            r matches Ok(bonus) ==> exists|a: u8|
                #![trigger after_action(old(self).state@, old(self).state.current_player as int, a)]
                {
                let m0 = old(self).state@;
                let p = m0.current_player as int;
                let n = old(self).num_players as nat;
                let m1 = after_action(m0, p, a);
                &&& pass_fits(m0, p, a)
                &&& has_mover(m1, n)
                &&& bonus == (if is_fourth_pass(m0, p, a) && p != old(self).agent_id { 1i32 } else { 0i32 })
                &&& is_done(m1, n) ==> final(self).state@ == m1
                &&& !is_done(m1, n) ==> final(self).state@ == after_advance(m1, n as int)
            },
    {
        let p = self.state.current_player;
        let a = match self.opponent.select_action(&self.state, &p) {
            Ok(a) => a,
            Err(e) => {
                return Err(e);
            },
        };
        if a == PASS_ACTION && self.state.pass_counts[p] == 255 {
            return Err(String::from_str("attempt to add with overflow"));
        }
        if self.action_stalls(a) {
            return Err(String::from_str("no player is left to take the turn"));
        }
        let bonus = self.take_turn(a);
        Ok(bonus)
    }

    /// The other players' turns up to the agent's next turn: each opponent's
    /// action must be one its legal-action mask allows, and is carried out with
    /// `take_turn`. Stops when it is the agent's turn, returning how many
    /// opponents were eliminated meanwhile, or when the game is over, returning
    /// that count and the agent's final reward. An opponent's refusal, or an
    /// action its mask does not allow, is handed back; the game is then neither
    /// over nor at the agent's turn.
    pub fn play_opponents(&mut self) -> (r: Result<(usize, Option<i32>), String>)
        requires
            old(self).wf(),
            old(self).agent_id < old(self).num_players,
            !is_done(old(self).state@, old(self).num_players as nat) ==> old(self).state@.legal_actions_mask
                == legal_mask(old(self).state@),
        ensures
            final(self).wf(),
            final(self).num_players == old(self).num_players,
            final(self).agent_id == old(self).agent_id,
            final(self).opponent == old(self).opponent,
            !is_done(final(self).state@, final(self).num_players as nat) ==> final(self).state@.legal_actions_mask
                == legal_mask(final(self).state@),
            old(self).state.current_player == old(self).agent_id ==> r == Ok::<(usize, Option<i32>), String>((0usize, None))
                && final(self).state@ == old(self).state@,
            old(self).state.current_player != old(self).agent_id && is_done(old(self).state@, old(self).num_players as nat)
                ==> r == Ok::<(usize, Option<i32>), String>((
                0usize,
                Some(reward_vector(old(self).state@, old(self).num_players as nat)[old(self).agent_id as int]),
            )) && final(self).state@ == old(self).state@,
            r is Err ==> !is_done(final(self).state@, final(self).num_players as nat) && final(self).state.current_player
                != final(self).agent_id,
            r matches Ok((k, f)) ==> {
                &&& old(self).state@.eliminated.len() + k == final(self).state@.eliminated.len()
                &&& (f is None <==> final(self).state.current_player == final(self).agent_id)
                &&& f matches Some(x) ==> is_done(final(self).state@, final(self).num_players as nat) && x
                    == reward_vector(final(self).state@, final(self).num_players as nat)[final(self).agent_id as int]
            },
            seat_untouched(old(self).state@, final(self).state@, old(self).agent_id as int),
            exists|ms: Seq<StateModel>, acts: Seq<u8>|
                #![trigger opponents_ran(old(self).opponent, ms, acts, old(self).num_players as nat, old(self).agent_id)]
                opponents_ran(old(self).opponent, ms, acts, old(self).num_players as nat, old(self).agent_id)
                    && ms[0] == old(self).state@ && ms[ms.len() - 1] == final(self).state@,
            cards_consistent(old(self).state@) ==> cards_consistent(final(self).state@) && forall|c: u8|
                c < 52 ==> #[trigger] card_total(final(self).state@, c) == card_total(old(self).state@, c),
    {
        let ghost start = self.state@;
        let ghost mut ms: Seq<StateModel> = seq![self.state@];
        let ghost mut acts: Seq<u8> = Seq::empty();
        let n = self.num_players;
        let mut count: usize = 0;
        let ghost mut moved = false;
        loop
            invariant
                self.wf(),
                n == self.num_players,
                self.num_players == old(self).num_players,
                self.agent_id == old(self).agent_id,
                self.opponent == old(self).opponent,
                self.agent_id < n,
                start == old(self).state@,
                !is_done(self.state@, n as nat) ==> self.state@.legal_actions_mask == legal_mask(self.state@),
                start.eliminated.len() + count == self.state@.eliminated.len(),
                !moved ==> self.state@ == start && count == 0,
                opponents_ran(self.opponent, ms, acts, n as nat, self.agent_id),
                ms[0] == start,
                ms[ms.len() - 1] == self.state@,
                moved ==> start.current_player != self.agent_id && !is_done(start, n as nat),
                seat_untouched(start, self.state@, self.agent_id as int),
                cards_consistent(start) ==> cards_consistent(self.state@) && forall|c: u8|
                    c < 52 ==> #[trigger] card_total(self.state@, c) == card_total(start, c),
            decreases potential(self.state@, n as int),
        {
            if self.state.current_player == self.agent_id {
                return Ok((count, None));
            }
            if self.check_done() {
                let rewards = self.compute_reward_vector();
                return Ok((count, Some(rewards[self.agent_id])));
            }
            let p = self.state.current_player;
            let a = match self.opponent.select_action(&self.state, &p) {
                Ok(a) => a,
                Err(e) => {
                    return Err(e);
                },
            };
            if !self.is_legal(a) {
                return Err(String::from_str("Illegal action"));
            }
            let ghost m = self.state@;
            proof {
                assert(legal_mask(m)[a as int]);
                assert(is_active(m, m.current_player));
                assert(action_allowed(m, p as int, a));
                lemma_action_keeps_wf(m, n as nat, p as int, a);
                lemma_some_active(after_action(m, p as int, a), n as nat);
                lemma_legal_action_progresses(m, n as nat, a as int);
                lemma_turn_spares_others(m, n as nat, p as int, a, self.agent_id as int);
                if cards_consistent(m) {
                    lemma_cards_conserved(m, n as nat, p as int, a);
                }
                let mp = after_play(m, p as int, a);
                assert(after_action(m, p as int, a).eliminated == mp.eliminated);
                if is_fourth_pass(m, p as int, a) {
                    assert(!m.eliminated.contains(p));
                    assert(mp.eliminated.len() == m.eliminated.len() + 1);
                } else {
                    assert(mp.eliminated == m.eliminated);
                }
            }
            let bonus = self.take_turn(a);
            proof {
                assert(self.opponent.may_choose(m, p, a));
                assert(self.state@ == after_turn(m, a, n as nat));
                lemma_ran_push(self.opponent, ms, acts, n as nat, self.agent_id, a);
                ms = ms.push(self.state@);
                acts = acts.push(a);
                assert(opponents_ran(self.opponent, ms, acts, n as nat, self.agent_id));
                moved = true;
                let m1 = after_action(m, p as int, a);
                lemma_potential_same(m1, self.state@, n as int);
                lemma_potential_nonneg(self.state@, n as int);
                if !is_done(self.state@, n as nat) {
                    assert(self.state@.legal_actions_mask =~= legal_mask(self.state@));
                }
            }
            if bonus == 1 {
                assert(self.state.eliminated@.len() == self.state.eliminated.len());
                count = count + 1;
            }
        }
    }

    /// The agent's move followed by the other players' turns, up to the
    /// agent's next turn or the end of the game. Returns the state the agent
    /// sees (with no legal action once the game is over), the parts of the
    /// reward, and whether the game is over.
    pub fn step(&mut self, action: u8) -> (r: Result<(RawState, StepOutcome, bool), String>)
        requires
            old(self).wf(),
            old(self).agent_id < old(self).num_players,
            action < 53,
            old(self).state@.legal_actions_mask == legal_mask(old(self).state@),
            old(self).state@.legal_actions_mask[action as int],
        ensures
            final(self).wf(),
            final(self).num_players == old(self).num_players,
            final(self).agent_id == old(self).agent_id,
            final(self).opponent == old(self).opponent,
            !is_done(final(self).state@, final(self).num_players as nat) ==> final(self).state@.legal_actions_mask
                == legal_mask(final(self).state@),
            ({
                let m0 = old(self).state@;
                let p = m0.current_player as int;
                let n = old(self).num_players as nat;
                let m1 = after_action(m0, p, action);
                let penalty: i32 = if is_fourth_pass(m0, p, action) && p == old(self).agent_id { -2i32 } else { 0i32 };
                &&& is_done(m1, n) ==> r is Ok && final(self).state@ == m1
                &&& !is_done(m1, n) && next_active_player(m1, n as int) == old(self).agent_id ==> r is Ok
                    && final(self).state@ == after_advance(m1, n as int)
                &&& r is Err ==> !is_done(m1, n) && !is_done(final(self).state@, n)
                    && final(self).state.current_player != final(self).agent_id
                &&& r matches Ok((s, o, done)) ==> {
                    &&& o.penalty == penalty
                    &&& (done <==> o.final_reward is Some)
                    &&& done ==> s@ == (StateModel {
                        legal_actions_mask: Seq::new(53, |i: int| false),
                        ..final(self).state@
                    })
                    &&& !done ==> s@ == final(self).state@ && final(self).state.current_player == final(self).agent_id
                    &&& is_done(m1, n) ==> o.opponent_eliminations == 0 && o.final_reward == Some(reward_vector(m1, n)[p])
                    &&& !is_done(m1, n) ==> {
                        &&& m1.eliminated.len() + o.opponent_eliminations == final(self).state@.eliminated.len()
                        &&& o.final_reward matches Some(x) ==> is_done(final(self).state@, n) && x == reward_vector(
                            final(self).state@,
                            n,
                        )[final(self).agent_id as int]
                    }
                }
            }),
            exists|ms: Seq<StateModel>, acts: Seq<u8>|
                #![trigger opponents_ran(old(self).opponent, ms, acts, old(self).num_players as nat, old(self).agent_id)]
                opponents_ran(old(self).opponent, ms, acts, old(self).num_players as nat, old(self).agent_id)
                    && ms[0] == after_turn(old(self).state@, action, old(self).num_players as nat)
                    && ms[ms.len() - 1] == final(self).state@,
            cards_consistent(old(self).state@) ==> cards_consistent(final(self).state@) && forall|c: u8|
                c < 52 ==> #[trigger] card_total(final(self).state@, c) == card_total(old(self).state@, c),
    {
        let ghost m0 = self.state@;
        let ghost n = self.num_players as nat;
        let p = self.state.current_player;
        let penalty: i32 = if action == PASS_ACTION && self.state.pass_counts[p] >= 3 && p == self.agent_id {
            -2
        } else {
            0
        };
        proof {
            assert(is_active(m0, m0.current_player));
            assert(action_allowed(m0, p as int, action));
            lemma_action_keeps_wf(m0, n, p as int, action);
            lemma_some_active(after_action(m0, p as int, action), n);
            if cards_consistent(m0) {
                lemma_cards_conserved(m0, n, p as int, action);
            }
        }
        let (units, done) = self.agent_move(action);
        proof {
            let ms0 = seq![self.state@];
            let acts0 = Seq::<u8>::empty();
            assert(opponents_ran(self.opponent, ms0, acts0, n, self.agent_id));
        }
        if done {
            let s = self.final_view();
            return Ok((s, StepOutcome { penalty, opponent_eliminations: 0, final_reward: Some(units - penalty) }, true));
        }
        proof {
            if !is_done(self.state@, n) {
                assert(self.state@.legal_actions_mask =~= legal_mask(self.state@));
            }
        }
        match self.play_opponents() {
            Ok((k, f)) => {
                let over = f.is_some();
                let s = if over { self.final_view() } else { self.get_raw_state() };
                Ok((s, StepOutcome { penalty, opponent_eliminations: k, final_reward: f }, over))
            },
            Err(e) => Err(e),
        }
    }

    /// Shuffles and deals, then lets the other players take their turns up to
    /// the agent's first turn (or the end of the game). When the agent holds the
    /// seven of diamonds no one else moves; the agent's own hand is always the
    /// one dealt to it.
    pub fn init_game(&mut self) -> (r: Result<(), String>)
        requires
            old(self).ready_to_deal(),
            old(self).start_seated(),
            old(self).agent_id < old(self).num_players,
        ensures
            final(self).wf(),
            final(self).num_players == old(self).num_players,
            final(self).agent_id == old(self).agent_id,
            final(self).opponent == old(self).opponent,
            !is_done(final(self).state@, final(self).num_players as nat) ==> final(self).state@.legal_actions_mask
                == legal_mask(final(self).state@),
            cards_consistent(final(self).state@),
            52usize % old(self).num_players == 0 ==> forall|c: u8|
                c < 52 ==> #[trigger] card_total(final(self).state@, c) == 1,
            exists|deck: Seq<u8>|
                #![trigger dealt_state(old(self).state@, deck, old(self).num_players as nat)]
                {
                    let d = dealt_state(old(self).state@, deck, old(self).num_players as nat);
                    &&& deck.to_multiset() == full_deck().to_multiset()
                    &&& seat_untouched(d, final(self).state@, old(self).agent_id as int)
                    &&& d.current_player == old(self).agent_id ==> r is Ok && final(self).state@ == d
                },
            exists|deck: Seq<u8>, ms: Seq<StateModel>, acts: Seq<u8>|
                #![trigger dealt_state(old(self).state@, deck, old(self).num_players as nat), opponents_ran(old(self).opponent, ms, acts, old(self).num_players as nat, old(self).agent_id)]
                deck.to_multiset() == full_deck().to_multiset() && opponents_ran(
                    old(self).opponent,
                    ms,
                    acts,
                    old(self).num_players as nat,
                    old(self).agent_id,
                ) && ms[0] == dealt_state(old(self).state@, deck, old(self).num_players as nat) && ms[ms.len() - 1]
                    == final(self).state@,
            r is Ok ==> final(self).state.current_player == final(self).agent_id || is_done(
                final(self).state@,
                final(self).num_players as nat,
            ),
            r is Err ==> !is_done(final(self).state@, final(self).num_players as nat)
                && final(self).state.current_player != final(self).agent_id,
    {
        self.shuffle_and_deal();
        let ghost d = self.state@;
        proof {
            assert(self.state@.legal_actions_mask =~= legal_mask(self.state@));
        }
        let res = self.play_opponents();
        proof {
            let deck = choose|deck: Seq<u8>|
                deck.to_multiset() == full_deck().to_multiset() && d == dealt_state(
                    old(self).state@,
                    deck,
                    old(self).num_players as nat,
                );
            let (ms, acts) = choose|ms: Seq<StateModel>, acts: Seq<u8>|
                opponents_ran(old(self).opponent, ms, acts, old(self).num_players as nat, old(self).agent_id) && ms[0]
                    == d && ms[ms.len() - 1] == self.state@;
            assert(dealt_state(old(self).state@, deck, old(self).num_players as nat) == ms[0]);
        }
        match res {
            Ok(_) => Ok(()),
            Err(e) => Err(e),
        }
    }

    /// Starts a new game (see `init_game`) and returns the state the agent sees.
    pub fn reset(&mut self) -> (r: Result<RawState, String>)
        requires
            old(self).ready_to_deal(),
            old(self).start_seated(),
            old(self).agent_id < old(self).num_players,
        ensures
            final(self).wf(),
            final(self).num_players == old(self).num_players,
            final(self).agent_id == old(self).agent_id,
            final(self).opponent == old(self).opponent,
            cards_consistent(final(self).state@),
            r matches Ok(s) ==> s@ == final(self).state@ && (final(self).state.current_player == final(self).agent_id
                || is_done(final(self).state@, final(self).num_players as nat)),
            exists|deck: Seq<u8>, ms: Seq<StateModel>, acts: Seq<u8>|
                #![trigger dealt_state(old(self).state@, deck, old(self).num_players as nat), opponents_ran(old(self).opponent, ms, acts, old(self).num_players as nat, old(self).agent_id)]
                deck.to_multiset() == full_deck().to_multiset() && opponents_ran(
                    old(self).opponent,
                    ms,
                    acts,
                    old(self).num_players as nat,
                    old(self).agent_id,
                ) && ms[0] == dealt_state(old(self).state@, deck, old(self).num_players as nat) && ms[ms.len() - 1]
                    == final(self).state@,
            r is Err ==> !is_done(final(self).state@, final(self).num_players as nat)
                && final(self).state.current_player != final(self).agent_id,
    {
        match self.init_game() {
            Ok(()) => Ok(self.get_raw_state()),
            Err(e) => Err(e),
        }
    }
}

} // verus!
