use klondike::cards::{Card, Colour, Rank, Suit};

fn c(suit: Suit, rank: Rank) -> Card {
    Card::new(suit, rank)
}

#[test]
fn rank_index_is_position_in_order() {
    assert_eq!(Rank::Ace.index(), 0);
    assert_eq!(Rank::Two.index(), 1);
    assert_eq!(Rank::Ten.index(), 9);
    assert_eq!(Rank::Jack.index(), 10);
    assert_eq!(Rank::Queen.index(), 11);
    assert_eq!(Rank::King.index(), 12);
}

#[test]
fn rank_from_index_inverts_index() {
    for i in 0..13i8 {
        let r = Rank::from_index(i).unwrap();
        assert_eq!(r.index(), i);
    }
    assert_eq!(Rank::from_index(-1), None);
    assert_eq!(Rank::from_index(13), None);
}

#[test]
fn rank_pred_steps_down_once() {
    assert_eq!(Rank::Ace.pred(), None);
    assert_eq!(Rank::Two.pred(), Some(Rank::Ace));
    assert_eq!(Rank::King.pred(), Some(Rank::Queen));
}

#[test]
fn rank_letters() {
    assert_eq!(Rank::Ace.letter(), "A");
    assert_eq!(Rank::Ten.letter(), "10");
    assert_eq!(Rank::Jack.letter(), "J");
    assert_eq!(Rank::Queen.letter(), "Q");
    assert_eq!(Rank::King.letter(), "K");
    assert_eq!(Rank::Seven.letter(), "7");
}

#[test]
fn suit_colours() {
    assert_eq!(c(Suit::Diamonds, Rank::Ace).col(), Colour::Red);
    assert_eq!(c(Suit::Hearts, Rank::Ace).col(), Colour::Red);
    assert_eq!(c(Suit::Clubs, Rank::Ace).col(), Colour::Black);
    assert_eq!(c(Suit::Spades, Rank::Ace).col(), Colour::Black);
}

#[test]
fn suit_all_in_display_order() {
    let all = Suit::all();
    assert_eq!(all, vec![Suit::Diamonds, Suit::Clubs, Suit::Hearts, Suit::Spades]);
    for (i, s) in all.iter().enumerate() {
        assert_eq!(s.foundation_offset(), i);
    }
}

#[test]
fn all_cards_holds_each_card_once() {
    let cards = Card::all_cards();
    assert_eq!(cards.len(), 52);
    for s in Suit::all() {
        for i in 0..13i8 {
            let card = c(s, Rank::from_index(i).unwrap());
            let n = cards.iter().filter(|x| **x == card).count();
            assert_eq!(n, 1, "card should appear exactly once");
        }
    }
}

// the pile adjacency rule: colours must differ and the destination must
// rank exactly one above the moved card
#[test]
fn can_pile_onto_needs_alternating_colour_and_descending_rank() {
    let two_d = c(Suit::Diamonds, Rank::Two);
    let three_s = c(Suit::Spades, Rank::Three);
    let three_h = c(Suit::Hearts, Rank::Three);
    let four_s = c(Suit::Spades, Rank::Four);
    let ace_s = c(Suit::Spades, Rank::Ace);

    assert!(two_d.can_pile_onto(three_s));
    // same colour
    assert!(!two_d.can_pile_onto(three_h));
    // gap of two
    assert!(!two_d.can_pile_onto(four_s));
    // negative gap
    assert!(!two_d.can_pile_onto(ace_s));
    // equal rank
    assert!(!three_h.can_pile_onto(three_s));
}

#[test]
fn can_stack_onto_in_foundation_needs_same_suit_ascending() {
    let ace_d = c(Suit::Diamonds, Rank::Ace);
    let two_d = c(Suit::Diamonds, Rank::Two);
    let two_h = c(Suit::Hearts, Rank::Two);
    let three_d = c(Suit::Diamonds, Rank::Three);

    assert!(two_d.can_stack_onto_in_foundation(ace_d));
    assert!(!two_h.can_stack_onto_in_foundation(ace_d));
    assert!(!three_d.can_stack_onto_in_foundation(ace_d));
    assert!(!ace_d.can_stack_onto_in_foundation(two_d));
}
