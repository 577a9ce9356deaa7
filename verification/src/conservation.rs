use vstd::prelude::*;
use crate::env::{
    StateModel, pass_fits, after_action, deal_chunk, dealt_state, full_deck, lemma_deal_chunk,
    not_seven, after_play, after_settle, any_releasable, card_playable,
    cards_valid, first_index, lemma_filter_drops, lemma_first_index_exists, lemma_still_held_valid,
    released_field, state_shape, state_wf, still_held, action_allowed, players_valid, lemma_settle_props,
};

verus! {

/// How often card `c` occurs in `s`.
pub open spec fn occurrences(s: Seq<u8>, c: u8) -> nat {
    s.to_multiset().count(c)
}

/// How often card `c` occurs in the first `k` hands.
pub open spec fn occurrences_in_hands(hands: Seq<Seq<u8>>, c: u8, k: int) -> nat
    decreases k,
{
    if k <= 0 {
        0
    } else {
        occurrences_in_hands(hands, c, k - 1) + occurrences(hands[k - 1], c)
    }
}

/// How many copies of card `c` are in play: in the hands, in the virtual hand
/// and on the field.
pub open spec fn card_total(m: StateModel, c: u8) -> nat {
    occurrences_in_hands(m.hands, c, m.hands.len() as int) + occurrences(m.virtual_hand, c) + if m.field[c as int] {
        1nat
    } else {
        0nat
    }
}

/// No card is in play twice.
pub open spec fn cards_consistent(m: StateModel) -> bool {
    forall|c: u8| c < 52 ==> #[trigger] card_total(m, c) <= 1
}

proof fn lemma_occ_remove(s: Seq<u8>, i: int, c: u8)
    requires
        0 <= i < s.len(),
    ensures
        occurrences(s.remove(i), c) + (if s[i] == c { 1nat } else { 0nat }) == occurrences(s, c),
{
    broadcast use vstd::seq_lib::to_multiset_remove, vstd::seq_lib::to_multiset_contains,
        vstd::multiset::group_multiset_axioms;

    assert(s.contains(s[i]));
    assert(s.to_multiset().count(s[i]) > 0);
    assert(s.remove(i).to_multiset() == s.to_multiset().remove(s[i]));
}

proof fn lemma_occ_concat(a: Seq<u8>, b: Seq<u8>, c: u8)
    ensures
        occurrences(a + b, c) == occurrences(a, c) + occurrences(b, c),
{
    broadcast use vstd::seq_lib::lemma_multiset_commutative, vstd::multiset::group_multiset_axioms;
}

proof fn lemma_occ_empty(c: u8)
    ensures
        occurrences(Seq::<u8>::empty(), c) == 0,
{
    broadcast use vstd::seq_lib::to_multiset_len, vstd::multiset::group_multiset_axioms;
    assert(Seq::<u8>::empty().to_multiset().len() == 0);
    vstd::multiset::lemma_multiset_empty_len(Seq::<u8>::empty().to_multiset());
}

proof fn lemma_occ_contains(s: Seq<u8>, c: u8)
    ensures
        s.contains(c) <==> occurrences(s, c) > 0,
{
    broadcast use vstd::seq_lib::to_multiset_contains;
}

proof fn lemma_occ_filter(s: Seq<u8>, pred: spec_fn(u8) -> bool, c: u8)
    ensures
        occurrences(s.filter(pred), c) == if pred(c) { occurrences(s, c) } else { 0 },
    decreases s.len(),
{
    broadcast use vstd::seq_lib::to_multiset_build, vstd::multiset::group_multiset_axioms;
    if s.len() == 0 {
        reveal(Seq::filter);
        assert(s.filter(pred) =~= Seq::<u8>::empty());
        assert(s =~= Seq::<u8>::empty());
        lemma_occ_empty(c);
    } else {
        let rest = s.drop_last();
        lemma_occ_filter(rest, pred, c);
        rest.lemma_filter_push(s.last(), pred);
        assert(rest.push(s.last()) =~= s);
    }
}

proof fn lemma_hands_update(hands: Seq<Seq<u8>>, p: int, h: Seq<u8>, c: u8, k: int)
    requires
        0 <= p < hands.len(),
        k <= hands.len(),
    ensures
        occurrences_in_hands(hands.update(p, h), c, k) + (if 0 <= p < k { occurrences(hands[p], c) } else { 0 })
            == occurrences_in_hands(hands, c, k) + (if 0 <= p < k { occurrences(h, c) } else { 0 }),
    decreases k,
{
    if k > 0 {
        lemma_hands_update(hands, p, h, c, k - 1);
    }
}

proof fn lemma_hands_same(h1: Seq<Seq<u8>>, h2: Seq<Seq<u8>>, c: u8, k: int)
    requires
        k <= h1.len(),
        k <= h2.len(),
        forall|q: int| 0 <= q < k ==> h1[q] == h2[q],
    ensures
        occurrences_in_hands(h1, c, k) == occurrences_in_hands(h2, c, k),
    decreases k,
{
    if k > 0 {
        lemma_hands_same(h1, h2, c, k - 1);
    }
}

/// One round of placing the virtual hand keeps every card's total.
proof fn lemma_round_conserves(m: StateModel)
    requires
        m.field.len() == 52,
        cards_valid(m.virtual_hand),
        cards_consistent(m),
    ensures
        forall|c: u8|
            c < 52 ==> #[trigger] card_total(
                StateModel {
                    field: released_field(m.field, m.virtual_hand),
                    virtual_hand: still_held(m.field, m.virtual_hand),
                    ..m
                },
                c,
            ) == card_total(m, c),
{
    let m2 = StateModel {
        field: released_field(m.field, m.virtual_hand),
        virtual_hand: still_held(m.field, m.virtual_hand),
        ..m
    };
    let pred = |x: u8| !card_playable(m.field, x as int);
    assert forall|c: u8| c < 52 implies #[trigger] card_total(m2, c) == card_total(m, c) by {
        lemma_occ_filter(m.virtual_hand, pred, c);
        lemma_occ_contains(m.virtual_hand, c);
        assert(card_total(m, c) <= 1);
        assert((c as int) as u8 == c);
    }
}

proof fn lemma_settle_conserves(m: StateModel)
    requires
        m.field.len() == 52,
        cards_valid(m.virtual_hand),
        cards_consistent(m),
    ensures
        forall|c: u8| c < 52 ==> #[trigger] card_total(after_settle(m), c) == card_total(m, c),
    decreases m.virtual_hand.len(),
{
    let f = m.field;
    let vh = m.virtual_hand;
    if any_releasable(f, vh) {
        let m2 = StateModel { field: released_field(f, vh), virtual_hand: still_held(f, vh), ..m };
        lemma_round_conserves(m);
        let j = choose|j: int| 0 <= j < vh.len() && card_playable(f, vh[j] as int);
        lemma_filter_drops(vh, |c: u8| !card_playable(f, c as int), j);
        lemma_still_held_valid(f, vh);
        assert(cards_consistent(m2)) by {
            assert forall|c: u8| c < 52 implies #[trigger] card_total(m2, c) <= 1 by {
                assert(card_total(m2, c) == card_total(m, c));
            }
        }
        lemma_settle_conserves(m2);
        assert(after_settle(m) == after_settle(m2));
    } else {
        assert(after_settle(m) =~= m);
    }
}

/// Playing, passing and eliminating move cards but never create or lose one:
/// from a state where no card is in play twice, every card is in play as
/// often after an action as before.
pub proof fn lemma_cards_conserved(m: StateModel, n: nat, p: int, a: u8)
    requires
        state_shape(m, n),
        cards_consistent(m),
        0 <= p < n,
        pass_fits(m, p, a),
    ensures
        forall|c: u8| c < 52 ==> #[trigger] card_total(after_action(m, p, a), c) == card_total(m, c),
        cards_consistent(after_action(m, p, a)),
{
    let m1 = after_play(m, p, a);
    assert forall|c: u8| c < 52 implies #[trigger] card_total(m1, c) == card_total(m, c) by {
        let len = m.hands.len() as int;
        if a != 52 {
            if m.hands[p].contains(a) {
                let h = m.hands[p];
                let j = choose|j: int| 0 <= j < h.len() && h[j] == a;
                lemma_first_index_exists(h, a, j);
                let fi = first_index(h, a);
                lemma_hands_update(m.hands, p, h.remove(fi), c, len);
                lemma_occ_remove(h, fi, c);
                lemma_hands_update(m.hands, p, h.remove(fi), a, len);
                lemma_occ_remove(h, fi, a);
                lemma_occ_contains(h, a);
                lemma_hands_in_total(m.hands, p, a, len);
                assert(a < 52);
                assert(card_total(m, a) <= 1);
                assert(!m.field[a as int]);
            }
        } else {
            let pc = (m.pass_counts[p] + 1) as u8;
            if pc >= 4 {
                let h = m.hands[p];
                lemma_hands_update(m.hands, p, Seq::<u8>::empty(), c, len);
                lemma_occ_empty(c);
                lemma_occ_concat(m.virtual_hand, h, c);
            }
        }
    }
    lemma_play_keeps_valid(m, n, p, a);
    assert(cards_consistent(m1)) by {
        assert forall|c: u8| c < 52 implies #[trigger] card_total(m1, c) <= 1 by {
            assert(card_total(m1, c) == card_total(m, c));
        }
    }
    lemma_settle_conserves(m1);
    let m2 = after_settle(m1);
    let m3 = after_action(m, p, a);
    assert forall|c: u8| c < 52 implies #[trigger] card_total(m3, c) == card_total(m, c) by {
        assert(card_total(m2, c) == card_total(m1, c));
        assert(m3.hands == m2.hands && m3.virtual_hand == m2.virtual_hand && m3.field == m2.field);
    }
}

proof fn lemma_hands_in_total(hands: Seq<Seq<u8>>, p: int, c: u8, k: int)
    requires
        0 <= p < k <= hands.len(),
    ensures
        occurrences(hands[p], c) <= occurrences_in_hands(hands, c, k),
    decreases k,
{
    if k - 1 > p {
        lemma_hands_in_total(hands, p, c, k - 1);
    }
}

proof fn lemma_play_keeps_valid(m: StateModel, n: nat, p: int, a: u8)
    requires
        state_shape(m, n),
        0 <= p < n,
    ensures
        after_play(m, p, a).field.len() == 52,
        cards_valid(after_play(m, p, a).virtual_hand),
{
    let m1 = after_play(m, p, a);
    if a == 52 && (m.pass_counts[p] + 1) as u8 >= 4 {
        let h = m.hands[p];
        assert(cards_valid(h));
        assert forall|i: int| 0 <= i < m1.virtual_hand.len() implies m1.virtual_hand[i] < 52 by {
            if i >= m.virtual_hand.len() {
                assert(m1.virtual_hand[i] == h[i - m.virtual_hand.len()]);
            }
        }
    }
}

proof fn lemma_hand_play_valid(m: StateModel, n: nat, p: int, a: u8)
    requires
        state_shape(m, n),
        0 <= p < n,
    ensures
        forall|q: int| 0 <= q < n ==> cards_valid(#[trigger] after_play(m, p, a).hands[q]),
{
    let m1 = after_play(m, p, a);
    assert forall|q: int| 0 <= q < n implies cards_valid(#[trigger] m1.hands[q]) by {
        if q == p && a != 52 && m.hands[q].contains(a) {
            let h = m.hands[q];
            let j = choose|j: int| 0 <= j < h.len() && h[j] == a;
            lemma_first_index_exists(h, a, j);
            let r = h.remove(first_index(h, a));
            assert forall|i: int| 0 <= i < r.len() implies r[i] < 52 by {
                if i < first_index(h, a) {
                    assert(r[i] == h[i]);
                } else {
                    assert(r[i] == h[i + 1]);
                }
            }
        } else if q != p {
            assert(m1.hands[q] == m.hands[q]);
        }
    }
}

proof fn lemma_play_keeps_wf(m: StateModel, n: nat, p: int, a: u8)
    requires
        state_wf(m, n),
        0 <= p < n,
        action_allowed(m, p, a),
    ensures
        state_wf(after_play(m, p, a), n),
{
    let m1 = after_play(m, p, a);
    lemma_play_keeps_valid(m, n, p, a);
    lemma_hand_play_valid(m, n, p, a);
    assert(m1.finished_order == m.finished_order);
    assert(players_valid(m1.eliminated, n)) by {
        if m1.eliminated != m.eliminated {
            assert(m1.eliminated == m.eliminated.push(p as usize));
            assert(!m.eliminated.contains(p as usize));
            assert forall|x: int, y: int| 0 <= x < m1.eliminated.len() && 0 <= y < m1.eliminated.len() && x != y
                implies m1.eliminated[x] != m1.eliminated[y] by {
                if x == m.eliminated.len() as int {
                    assert(m.eliminated[y] == m1.eliminated[y]);
                } else if y == m.eliminated.len() as int {
                    assert(m.eliminated[x] == m1.eliminated[x]);
                }
            }
        }
    }
    assert forall|i: int| 0 <= i < m1.finished_order.len() implies !m1.eliminated.contains(
        #[trigger] m1.finished_order[i],
    ) by {
        if m1.eliminated.contains(m1.finished_order[i]) {
            let q = choose|q: int| 0 <= q < m1.eliminated.len() && m1.eliminated[q] == m1.finished_order[i];
            if q < m.eliminated.len() {
                assert(m.eliminated[q] == m1.eliminated[q]);
            } else {
                assert(m1.finished_order[i] == p);
                assert(m.finished_order.contains(p as usize));
            }
        }
    }
    assert(state_wf(m1, n));
}

/// An action that `action_allowed` admits keeps a well-formed state well formed.
pub proof fn lemma_action_keeps_wf(m: StateModel, n: nat, p: int, a: u8)
    requires
        state_wf(m, n),
        0 <= p < n,
        action_allowed(m, p, a),
    ensures
        state_wf(after_action(m, p, a), n),
{
    lemma_play_keeps_wf(m, n, p, a);
    let m1 = after_play(m, p, a);
    lemma_settle_props(m1.field, m1.virtual_hand);
    let m2 = after_settle(m1);
    assert(state_wf(m2, n));
    let m3 = after_action(m, p, a);
    if m3 != m2 {
        assert(m3.finished_order == m2.finished_order.push(p as usize));
        assert forall|x: int, y: int| 0 <= x < m3.finished_order.len() && 0 <= y < m3.finished_order.len() && x != y
            implies m3.finished_order[x] != m3.finished_order[y] by {
            if x == m2.finished_order.len() as int {
                assert(m2.finished_order[y] == m3.finished_order[y]);
            } else if y == m2.finished_order.len() as int {
                assert(m2.finished_order[x] == m3.finished_order[x]);
            }
        }
        assert forall|i: int| 0 <= i < m3.finished_order.len() implies !m3.eliminated.contains(
            #[trigger] m3.finished_order[i],
        ) by {
            if i < m2.finished_order.len() {
                assert(m2.finished_order[i] == m3.finished_order[i]);
            }
        }
    }
}

/// When the number of players divides 52, every card of a shuffled deck is
/// dealt, so some player receives the seven of diamonds.
pub proof fn lemma_seven_of_diamonds_dealt(deck: Seq<u8>, n: nat)
    requires
        1 <= n,
        52nat % n == 0,
        deck.to_multiset() == full_deck().to_multiset(),
    ensures
        exists|p: int| 0 <= p < n && #[trigger] deal_chunk(deck, n, p).contains(6u8),
{
    broadcast use vstd::seq_lib::to_multiset_len;
    assert(deck.len() == 52) by {
        assert(deck.len() == deck.to_multiset().len());
        assert(full_deck().len() == full_deck().to_multiset().len());
    }
    let ch = 52int / n as int;
    vstd::arithmetic::div_mod::lemma_fundamental_div_mod(52, n as int);
    assert(n * ch == 52);
    lemma_full_deck_once(6u8);
    lemma_occ_contains(deck, 6u8);
    let i = choose|i: int| 0 <= i < deck.len() && deck[i] == 6u8;
    assert(ch >= 1) by (nonlinear_arith)
        requires
            n * ch == 52,
            n >= 1,
    ;
    let p = i / ch;
    let r = i % ch;
    vstd::arithmetic::div_mod::lemma_fundamental_div_mod(i, ch);
    vstd::arithmetic::div_mod::lemma_mod_pos_bound(i, ch);
    assert(0 <= p) by {
        vstd::arithmetic::div_mod::lemma_div_pos_is_pos(i, ch);
    }
    assert(p < n) by (nonlinear_arith)
        requires
            i == ch * p + r,
            0 <= r,
            i < 52,
            n * ch == 52,
            ch >= 1,
    ;
    lemma_deal_chunk(deck, n, p);
    assert(p * ch + r == i) by (nonlinear_arith)
        requires
            i == ch * p + r,
    ;
    assert(deal_chunk(deck, n, p)[r] == 6u8);
    assert(deal_chunk(deck, n, p).contains(6u8));
}

/// Every card of the unshuffled deck occurs in it exactly once.
proof fn lemma_full_deck_once(c: u8)
    requires
        c < 52,
    ensures
        occurrences(full_deck(), c) == 1,
{
    broadcast use vstd::seq_lib::to_multiset_contains, vstd::multiset::group_multiset_axioms;
    let d = full_deck();
    assert(d[c as int] == c);
    assert(d.contains(c));
    assert(d.no_duplicates());
    d.lemma_multiset_has_no_duplicates();
}

proof fn lemma_occ_take(s: Seq<u8>, j: int, c: u8)
    requires
        0 <= j <= s.len(),
    ensures
        occurrences(s.take(j), c) <= occurrences(s, c),
{
    lemma_occ_concat(s.take(j), s.skip(j), c);
    assert(s.take(j) + s.skip(j) =~= s);
}

/// The cards dealt to the first `k` players are the first `k * (52 / n)` cards of the deck.
proof fn lemma_dealt_prefix(deck: Seq<u8>, n: nat, k: int, c: u8)
    requires
        deck.len() == 52,
        1 <= n,
        0 <= k <= n,
    ensures
        0 <= k * (52int / n as int) <= 52,
        occurrences_in_hands(Seq::new(n, |p: int| deal_chunk(deck, n, p)), c, k) == occurrences(
            deck.take(k * (52int / n as int)),
            c,
        ),
    decreases k,
{
    let ch = 52int / n as int;
    if k == 0 {
        assert(k * ch == 0) by (nonlinear_arith)
            requires
                k == 0,
        ;
        assert(deck.take(0) =~= Seq::<u8>::empty());
        lemma_occ_empty(c);
    } else {
        lemma_dealt_prefix(deck, n, k - 1, c);
        lemma_deal_chunk(deck, n, k - 1);
        assert(k * ch == (k - 1) * ch + ch) by (nonlinear_arith);
        let lo = (k - 1) * ch;
        let chunk = deal_chunk(deck, n, k - 1);
        assert forall|i: int| 0 <= i < k * ch implies #[trigger] deck.take(k * ch)[i] == (deck.take(lo)
            + chunk)[i] by {
            if i >= lo {
                assert(chunk[i - lo] == deck[lo + (i - lo)]);
            }
        }
        assert(deck.take(k * ch) =~= deck.take(lo) + chunk);
        lemma_occ_concat(deck.take((k - 1) * ch), deal_chunk(deck, n, k - 1), c);
    }
}

proof fn lemma_dealt_hands(deck: Seq<u8>, n: nat, k: int, c: u8)
    requires
        0 <= k <= n,
    ensures
        occurrences_in_hands(Seq::new(n, |p: int| deal_chunk(deck, n, p).filter(|x: u8| not_seven(x))), c, k)
            == if not_seven(c) {
            occurrences_in_hands(Seq::new(n, |p: int| deal_chunk(deck, n, p)), c, k)
        } else {
            0
        },
    decreases k,
{
    if k > 0 {
        lemma_dealt_hands(deck, n, k - 1, c);
        lemma_occ_filter(deal_chunk(deck, n, k - 1), |x: u8| not_seven(x), c);
    }
}

/// Dealing a shuffled deck puts no card in play twice; when the number of
/// players divides 52 (so that no card is left over) every card is in exactly
/// one place: a hand or, for the sevens, the field.
pub proof fn lemma_deal_places_each_card_once(m: StateModel, deck: Seq<u8>, n: nat)
    requires
        1 <= n,
        deck.to_multiset() == full_deck().to_multiset(),
    ensures
        cards_consistent(dealt_state(m, deck, n)),
        52nat % n == 0 ==> forall|c: u8| c < 52 ==> #[trigger] card_total(dealt_state(m, deck, n), c) == 1,
{
    broadcast use vstd::seq_lib::to_multiset_len, vstd::seq_lib::to_multiset_contains;
    let d = dealt_state(m, deck, n);
    assert(deck.len() == 52) by {
        assert(deck.len() == deck.to_multiset().len());
        assert(full_deck().len() == full_deck().to_multiset().len());
    }
    let ch = 52int / n as int;
    if 52nat % n == 0 {
        vstd::arithmetic::div_mod::lemma_fundamental_div_mod(52, n as int);
        assert(n * ch == 52);
    }
    assert forall|c: u8| c < 52 implies #[trigger] card_total(d, c) <= 1 && (52nat % n == 0 ==> card_total(d, c) == 1) by {
        lemma_full_deck_once(c);
        lemma_dealt_hands(deck, n, n as int, c);
        lemma_dealt_prefix(deck, n, n as int, c);
        lemma_occ_take(deck, n * ch, c);
        assert(occurrences(deck, c) == 1);
        lemma_occ_empty(c);
        assert(d.virtual_hand == Seq::<u8>::empty());
        assert(d.hands =~= Seq::new(n, |p: int| deal_chunk(deck, n, p).filter(|x: u8| not_seven(x))));
        if 52nat % n == 0 {
            assert(deck.take(52) =~= deck);
            if !not_seven(c) {
                lemma_occ_contains(deck, c);
                let i = choose|i: int| 0 <= i < deck.len() && deck[i] == c;
                assert(ch >= 1) by (nonlinear_arith)
                    requires
                        n * ch == 52,
                        n >= 1,
                ;
                let p = i / ch;
                let r = i % ch;
                vstd::arithmetic::div_mod::lemma_fundamental_div_mod(i, ch);
                vstd::arithmetic::div_mod::lemma_mod_pos_bound(i, ch);
                assert(0 <= p) by {
                    vstd::arithmetic::div_mod::lemma_div_pos_is_pos(i, ch);
                }
                assert(p < n) by (nonlinear_arith)
                    requires
                        i == ch * p + r,
                        0 <= r,
                        i < 52,
                        n * ch == 52,
                        ch >= 1,
                ;
                lemma_deal_chunk(deck, n, p);
                assert(p * ch + r == i) by (nonlinear_arith)
                    requires
                        i == ch * p + r,
                ;
                assert(deal_chunk(deck, n, p)[r] == c);
                assert(deal_chunk(deck, n, p).contains(c as int as u8));
                assert(d.field[c as int]);
            } else {
                assert(occurrences(deck.take(n * ch), c) == 1);
                assert(occurrences_in_hands(d.hands, c, n as int) == 1);
            }
            assert(card_total(d, c) == 1);
        }
    }
}

} // verus!
