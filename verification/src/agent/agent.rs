use vstd::prelude::*;
use crate::env::{RawState, StateModel};
use crate::rng::choose_one;

verus! {

/// `x` is the code of an action among the first `upto` that `mask` marks legal.
pub open spec fn legal_code(mask: Seq<bool>, upto: int, x: u8) -> bool {
    exists|j: int| 0 <= j < upto && mask[j] && x == j as u8
}

/// The codes of the legal actions, in increasing order: index `j` of `mask`
/// contributes the code `j as u8` when `mask[j]` holds.
pub open spec fn legal_codes(mask: Seq<bool>) -> Seq<u8>
    decreases mask.len(),
{
    if mask.len() == 0 {
        Seq::<u8>::empty()
    } else {
        let rest = legal_codes(mask.drop_last());
        if mask.last() {
            rest.push((mask.len() - 1) as u8)
        } else {
            rest
        }
    }
}

/// Every code of `legal_codes(mask)` is that of a legal action, the list is
/// empty only when no action is legal, and for a mask of at most 256 entries
/// the codes are the legal indices themselves, strictly increasing, each legal
/// index present.
pub proof fn lemma_legal_codes(mask: Seq<bool>)
    ensures
        forall|k: int| 0 <= k < legal_codes(mask).len() ==> legal_code(mask, mask.len() as int, #[trigger] legal_codes(mask)[k]),
        (exists|j: int| 0 <= j < mask.len() && mask[j]) ==> legal_codes(mask).len() > 0,
        mask.len() <= 256 ==> {
            &&& forall|k: int| 0 <= k < legal_codes(mask).len() ==> (#[trigger] legal_codes(mask)[k]) < mask.len() && mask[legal_codes(mask)[k] as int]
            &&& forall|k1: int, k2: int| 0 <= k1 < k2 < legal_codes(mask).len() ==> #[trigger] legal_codes(mask)[k1] < #[trigger] legal_codes(mask)[k2]
            &&& forall|j: int| 0 <= j < mask.len() && mask[j] ==> #[trigger] legal_codes(mask).contains(j as u8)
        },
    decreases mask.len(),
{
    if mask.len() > 0 {
        let pre = mask.drop_last();
        lemma_legal_codes(pre);
        let rest = legal_codes(pre);
        let n: int = mask.len() - 1;
        assert forall|k: int| 0 <= k < legal_codes(mask).len() implies legal_code(mask, mask.len() as int, #[trigger] legal_codes(mask)[k]) by {
            if k < rest.len() {
                assert(legal_codes(mask)[k] == rest[k]);
                assert(legal_code(pre, pre.len() as int, rest[k]));
                let j = choose|j: int| 0 <= j < pre.len() && pre[j] && rest[k] == j as u8;
                assert(mask[j] == pre[j]);
            } else {
                assert(mask[n] && legal_codes(mask)[k] == n as u8);
            }
        }
        if exists|j: int| 0 <= j < mask.len() && mask[j] {
            let j = choose|j: int| 0 <= j < mask.len() && mask[j];
            if j < n {
                assert(pre[j]);
            }
        }
        if mask.len() <= 256 {
            assert forall|j: int| 0 <= j < mask.len() && mask[j] implies #[trigger] legal_codes(mask).contains(j as u8) by {
                if j < n {
                    assert(pre[j]);
                    assert(rest.contains(j as u8));
                    let k = choose|k: int| 0 <= k < rest.len() && rest[k] == j as u8;
                    assert(legal_codes(mask)[k] == j as u8);
                } else {
                    assert(legal_codes(mask)[legal_codes(mask).len() - 1] == j as u8);
                }
            }
        }
    }
}

/// The codes of the actions that `mask` marks legal, in increasing order.
pub fn legal_actions(mask: &Vec<bool>) -> (v: Vec<u8>)
    ensures
        v@ == legal_codes(mask@),
        mask@.len() <= 256 ==> {
            &&& forall|x: u8| v@.contains(x) <==> legal_code(mask@, mask@.len() as int, x)
            &&& v@.no_duplicates()
            &&& forall|k1: int, k2: int| 0 <= k1 < k2 < v@.len() ==> #[trigger] v@[k1] < #[trigger] v@[k2]
        },
{
    let mut v: Vec<u8> = Vec::new();
    let mut i: usize = 0;
    while i < mask.len()
        invariant
            i <= mask@.len(),
            v@ == legal_codes(mask@.take(i as int)),
        decreases mask@.len() - i,
    {
        assert(mask@.take(i + 1).drop_last() =~= mask@.take(i as int));
        if mask[i] {
            v.push(i as u8);
        }
        i = i + 1;
    }
    assert(mask@.take(i as int) =~= mask@);
    proof {
        lemma_legal_codes(mask@);
        if mask@.len() <= 256 {
            assert forall|x: u8| v@.contains(x) <==> legal_code(mask@, mask@.len() as int, x) by {
                if v@.contains(x) {
                    let k = choose|k: int| 0 <= k < v@.len() && v@[k] == x;
                    assert(legal_code(mask@, mask@.len() as int, v@[k]));
                }
                if legal_code(mask@, mask@.len() as int, x) {
                    let j = choose|j: int| 0 <= j < mask@.len() && mask@[j] && x == j as u8;
                    assert(legal_codes(mask@).contains(j as u8));
                }
            }
            assert forall|k1: int, k2: int| 0 <= k1 < v@.len() && 0 <= k2 < v@.len() && k1 != k2 implies v@[k1] != v@[k2] by {
                if k1 < k2 {
                    assert(v@[k1] < v@[k2]);
                } else {
                    assert(v@[k2] < v@[k1]);
                }
            }
        }
    }
    v
}

/// A player that chooses its action from what it sees of the game.
pub trait Agent {
    /// The actions this agent may answer with when seat `player` is to act in
    /// `state`: its policy, as far as it is known. An agent that states nothing
    /// of its policy may answer with any action.
    open spec fn may_choose(&self, state: StateModel, player: usize, action: u8) -> bool {
        true
    }

    /// The action that seat `player_id` takes in `state`, or why it cannot act.
    fn select_action(&self, state: &RawState, player_id: &usize) -> (r: Result<u8, String>)
        ensures
            r matches Ok(a) ==> self.may_choose(state@, *player_id, a),
    ;
}

/// An opponent that picks one of its legal actions at random.
pub struct RandomAgent {}

impl Agent for RandomAgent {
    /// Any action the state's mask marks legal.
    open spec fn may_choose(&self, state: StateModel, player: usize, action: u8) -> bool {
        legal_codes(state.legal_actions_mask).contains(action)
    }

    /// A legal action chosen at random; refused when the state has none.
    fn select_action(&self, state: &RawState, player_id: &usize) -> (r: Result<u8, String>)
        ensures
            r is Ok <==> exists|i: int| 0 <= i < state.legal_actions_mask@.len() && state.legal_actions_mask@[i],
            r matches Ok(a) ==> legal_codes(state.legal_actions_mask@).contains(a),
    {
        let codes = legal_actions(&state.legal_actions_mask);
        proof {
            lemma_legal_codes(state.legal_actions_mask@);
        }
        if codes.len() == 0 {
            Err(String::from_str("No legal actions for active player."))
        } else {
            proof {
                assert(legal_code(state.legal_actions_mask@, state.legal_actions_mask@.len() as int, codes@[0]));
            }
            Ok(self.infer_q(state))
        }
    }
}

impl RandomAgent {
    pub fn new() -> (a: RandomAgent) {
        RandomAgent {}
    }

    /// One of the actions that the state's mask marks as legal, chosen at random
    /// from the whole list `legal_actions` gives. A state without legal actions
    /// is refused.
    pub fn infer_q(&self, state: &RawState) -> (action: u8)
        requires
            exists|i: int| 0 <= i < state.legal_actions_mask@.len() && state.legal_actions_mask@[i],
        ensures
            legal_codes(state.legal_actions_mask@).contains(action),
            exists|i: int|
                0 <= i < state.legal_actions_mask@.len() && state.legal_actions_mask@[i] && action
                    == i as u8,
    {
        let codes = legal_actions(&state.legal_actions_mask);
        proof {
            lemma_legal_codes(state.legal_actions_mask@);
        }
        match choose_one(codes.as_slice()) {
            Some(a) => {
                proof {
                    let k = choose|k: int| 0 <= k < codes@.len() && codes@[k] == a;
                    assert(legal_code(state.legal_actions_mask@, state.legal_actions_mask@.len() as int, codes@[k]));
                }
                a
            },
            None => {
                proof {
                    assert(false);
                }
                0
            },
        }
    }
}

} // verus!
