use vstd::prelude::*;
use crate::card::{Card, card_label, rank_label};

verus! {

/// The text shown for an action: "PASS (パス)" for a pass, the card otherwise.
pub open spec fn action_label(action: int) -> Seq<char> {
    if action == 52 {
        "PASS (パス)"@
    } else {
        card_label(action)
    }
}

/// The name of a rank: A, 2, ..., 10, J, Q, K.
pub fn format_rank(rank: u8) -> (s: &'static str)
    requires
        rank < 13,
    ensures
        s@ == rank_label(rank as int),
{
    match rank {
        0 => "A",
        9 => "10",
        10 => "J",
        11 => "Q",
        12 => "K",
        1 => "2",
        2 => "3",
        3 => "4",
        4 => "5",
        5 => "6",
        6 => "7",
        7 => "8",
        _ => "9",
    }
}

/// The text shown for an action.
pub fn format_action_visual(action: u8) -> (s: String)
    requires
        action <= 52,
    ensures
        s@ == action_label(action as int),
{
    if action == 52 {
        String::from_str("PASS (パス)")
    } else {
        Card(action).to_string()
    }
}

} // verus!
