use sevens::card::Card;
use sevens::vs_view::{format_action_visual, format_rank};

#[test]
fn card_suit_and_rank() {
    let c = Card::new(22);
    assert_eq!(c.0, 22);
    assert_eq!(c.suit(), 1);
    assert_eq!(c.rank(), 9);
    let k = Card::new(51);
    assert_eq!(k.suit(), 3);
    assert_eq!(k.rank(), 12);
}

#[test]
fn card_neighbors() {
    assert_eq!(Card(5).neighbor(1), Some(Card(6)));
    assert_eq!(Card(7).neighbor(-1), Some(Card(6)));
    assert_eq!(Card(13).neighbor(-1), None);
    assert_eq!(Card(25).neighbor(1), None);
    assert_eq!(Card(40).neighbor(3), Some(Card(43)));
    // stepping away and back returns the same card
    assert_eq!(Card(40).neighbor(3).unwrap().neighbor(-3), Some(Card(40)));
}

#[test]
fn card_text() {
    assert_eq!(Card(6).to_string(), "♦7");
    assert_eq!(Card(22).to_string(), "♥10");
    assert_eq!(Card(26).to_string(), "♣A");
    assert_eq!(Card(51).to_string(), "♠K");
    assert_eq!(Card(49).to_string(), "♠J");
}

#[test]
fn rank_names() {
    assert_eq!(format_rank(0), "A");
    assert_eq!(format_rank(1), "2");
    assert_eq!(format_rank(8), "9");
    assert_eq!(format_rank(9), "10");
    assert_eq!(format_rank(10), "J");
    assert_eq!(format_rank(11), "Q");
    assert_eq!(format_rank(12), "K");
    for r in 0..13u8 {
        assert_eq!(format_rank(r), Card::rank_str(r));
    }
}

#[test]
fn action_text() {
    assert_eq!(format_action_visual(52), "PASS (パス)");
    assert_eq!(format_action_visual(0), "♦A");
    assert_eq!(format_action_visual(45), "♠7");
}
