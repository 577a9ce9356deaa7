use vstd::prelude::*;

verus! {

/// A playing card, identified by `suit * 13 + rank`.
/// Suits are ♦, ♥, ♣, ♠ (0..4); ranks are A, 2, ..., K (0..13).
#[derive(Debug, Clone, Copy, PartialEq, Eq, Structural)]
pub struct Card(pub u8);

/// The symbol of a suit.
pub open spec fn suit_symbol(suit: int) -> Seq<char> {
    if suit == 0 {
        "♦"@
    } else if suit == 1 {
        "♥"@
    } else if suit == 2 {
        "♣"@
    } else {
        "♠"@
    }
}

/// The name of a rank: A, 2, ..., 10, J, Q, K.
pub open spec fn rank_label(rank: int) -> Seq<char> {
    if rank == 0 {
        "A"@
    } else if rank == 1 {
        "2"@
    } else if rank == 2 {
        "3"@
    } else if rank == 3 {
        "4"@
    } else if rank == 4 {
        "5"@
    } else if rank == 5 {
        "6"@
    } else if rank == 6 {
        "7"@
    } else if rank == 7 {
        "8"@
    } else if rank == 8 {
        "9"@
    } else if rank == 9 {
        "10"@
    } else if rank == 10 {
        "J"@
    } else if rank == 11 {
        "Q"@
    } else {
        "K"@
    }
}

/// The text shown for a card: its suit symbol followed by its rank name.
pub open spec fn card_label(id: int) -> Seq<char> {
    suit_symbol(id / 13) + rank_label(id % 13)
}

/// The card `offset` ranks away from `id` in the same suit, if that rank exists.
pub open spec fn neighbor_of(id: int, offset: int) -> Option<Card> {
    let r = id % 13 + offset;
    if 0 <= r < 13 {
        Some(Card(((id / 13) * 13 + r) as u8))
    } else {
        None
    }
}


/// The name of each rank is the number of the card, `rank + 1`: the ace is
/// "A", ranks 1 to 8 are the single decimal digit of `rank + 1`, rank 9 is
/// "10", and the three face cards are "J", "Q" and "K".
pub proof fn lemma_rank_label_names(rank: int)
    requires
        0 <= rank < 13,
    ensures
        rank == 0 ==> rank_label(rank) == seq!['A'],
        1 <= rank <= 8 ==> rank_label(rank) == seq![(rank + 1 + '0' as int) as char],
        rank == 9 ==> rank_label(rank) == seq!['1', '0'],
        rank == 10 ==> rank_label(rank) == seq!['J'],
        rank == 11 ==> rank_label(rank) == seq!['Q'],
        rank == 12 ==> rank_label(rank) == seq!['K'],
{
    reveal_strlit("A");
    reveal_strlit("2");
    reveal_strlit("3");
    reveal_strlit("4");
    reveal_strlit("5");
    reveal_strlit("6");
    reveal_strlit("7");
    reveal_strlit("8");
    reveal_strlit("9");
    reveal_strlit("10");
    reveal_strlit("J");
    reveal_strlit("Q");
    reveal_strlit("K");
    if rank == 0 {
        assert(rank_label(rank) =~= seq!['A']);
    } else if rank == 1 {
        assert(rank_label(rank) =~= seq!['2']);
    } else if rank == 2 {
        assert(rank_label(rank) =~= seq!['3']);
    } else if rank == 3 {
        assert(rank_label(rank) =~= seq!['4']);
    } else if rank == 4 {
        assert(rank_label(rank) =~= seq!['5']);
    } else if rank == 5 {
        assert(rank_label(rank) =~= seq!['6']);
    } else if rank == 6 {
        assert(rank_label(rank) =~= seq!['7']);
    } else if rank == 7 {
        assert(rank_label(rank) =~= seq!['8']);
    } else if rank == 8 {
        assert(rank_label(rank) =~= seq!['9']);
    } else if rank == 9 {
        assert(rank_label(rank) =~= seq!['1', '0']);
    } else if rank == 10 {
        assert(rank_label(rank) =~= seq!['J']);
    } else if rank == 11 {
        assert(rank_label(rank) =~= seq!['Q']);
    } else {
        assert(rank_label(rank) =~= seq!['K']);
    }
}

/// Different ranks have different names.
pub proof fn lemma_rank_labels_distinct(r1: int, r2: int)
    requires
        0 <= r1 < 13,
        0 <= r2 < 13,
        r1 != r2,
    ensures
        rank_label(r1) != rank_label(r2),
{
    lemma_rank_label_names(r1);
    lemma_rank_label_names(r2);
    if rank_label(r1) == rank_label(r2) {
        assert(rank_label(r1)[0] == rank_label(r2)[0]);
        if rank_label(r1).len() == 2 || rank_label(r2).len() == 2 {
            assert(rank_label(r1).len() == rank_label(r2).len());
        }
    }
}

/// Every card id splits into its suit and rank: `id == suit * 13 + rank`.
pub proof fn lemma_suit_rank(id: u8)
    ensures
        (id / 13) * 13 + id % 13 == id,
        id % 13 < 13,
        id < 52 ==> id / 13 < 4,
{
}

/// Stepping `offset` ranks away and back again returns to the same card.
pub proof fn lemma_neighbor_round_trip(id: u8, offset: int)
    requires
        id < 52,
        neighbor_of(id as int, offset) is Some,
    ensures
        match neighbor_of(id as int, offset) {
            Some(c) => c.0 < 52 && neighbor_of(c.0 as int, -offset) == Some(Card(id)),
            None => false,
        },
{
}

impl Card {
    pub fn new(id: u8) -> (c: Card)
        ensures
            c.0 == id,
    {
        Card(id)
    }

    pub fn suit(&self) -> (s: u8)
        ensures
            s == self.0 / 13,
    {
        self.0 / 13
    }

    pub fn rank(&self) -> (r: u8)
        ensures
            r == self.0 % 13,
    {
        self.0 % 13
    }

    /// The card `offset` ranks away in the same suit, or `None` when the rank
    /// would fall outside A..K.
    pub fn neighbor(&self, offset: i8) -> (res: Option<Card>)
        requires
            self.0 % 13 + offset <= i8::MAX,
            0 <= self.0 % 13 + offset < 13 ==> (self.0 / 13) * 13 + self.0 % 13 + offset <= u8::MAX,
        ensures
            res == neighbor_of(self.0 as int, offset as int),
    {
        let r = self.rank() as i8 + offset;
        if r >= 0 && r < 13 {
            Some(Card((self.suit() * 13) + r as u8))
        } else {
            None
        }
    }

    fn suit_str(suit: u8) -> (s: &'static str)
        requires
            suit < 4,
        ensures
            s@ == suit_symbol(suit as int),
    {
        match suit {
            0 => "♦",
            1 => "♥",
            2 => "♣",
            _ => "♠",
        }
    }

    /// The rank name of a card: "A", "2", ..., "10", "J", "Q", "K".
    pub fn rank_str(rank: u8) -> (s: &'static str)
        requires
            rank < 13,
        ensures
            s@ == rank_label(rank as int),
    {
        match rank {
            0 => "A",
            1 => "2",
            2 => "3",
            3 => "4",
            4 => "5",
            5 => "6",
            6 => "7",
            7 => "8",
            8 => "9",
            9 => "10",
            10 => "J",
            11 => "Q",
            _ => "K",
        }
    }

    /// The card as text, such as "♥10" or "♠A".
    pub fn to_string(&self) -> (s: String)
        requires
            self.0 < 52,
        ensures
            s@ == card_label(self.0 as int),
    {
        let mut s = String::from_str(Self::suit_str(self.suit()));
        s.append(Self::rank_str(self.rank()));
        s
    }
}

} // verus!
