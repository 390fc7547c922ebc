use klondike::cards::{Card, Rank, Suit};
use klondike::game::{Foundations, Game};
use klondike::shuffle::shuffle;
use rand::rngs::StdRng;
use rand::SeedableRng;

// the shuffle keeps exactly the same cards at the same length, for any seed
#[test]
fn shuffle_is_a_permutation() {
    for seed in [0u64, 1, 7, 42, 123456789] {
        let mut rng = StdRng::seed_from_u64(seed);
        let mut cards = Card::all_cards();
        shuffle(&mut cards, &mut rng);
        assert_eq!(cards.len(), 52);
        for orig in Card::all_cards() {
            let n = cards.iter().filter(|x| **x == orig).count();
            assert_eq!(n, 1, "each card survives the shuffle exactly once");
        }
    }
}

// with a fixed seed the shuffled order is reproducible
#[test]
fn shuffle_reproducible_from_seed() {
    let mut rng_a = StdRng::seed_from_u64(2024);
    let mut rng_b = StdRng::seed_from_u64(2024);
    let mut cards_a = Card::all_cards();
    let mut cards_b = Card::all_cards();
    shuffle(&mut cards_a, &mut rng_a);
    shuffle(&mut cards_b, &mut rng_b);
    assert_eq!(cards_a, cards_b);
}

#[test]
fn shuffle_of_empty_and_single() {
    let mut rng = StdRng::seed_from_u64(5);
    let mut none: Vec<Card> = Vec::new();
    shuffle(&mut none, &mut rng);
    assert!(none.is_empty());

    let mut one = vec![Card::new(Suit::Spades, Rank::Queen)];
    shuffle(&mut one, &mut rng);
    assert_eq!(one, vec![Card::new(Suit::Spades, Rank::Queen)]);
}

// after a deal: pile k holds k+1 cards with only the last visible, the
// stock holds the remaining 24, and all 52 cards are on the board
#[test]
fn new_game_deals_the_classic_layout() {
    let mut rng = StdRng::seed_from_u64(99);
    let game = Game::new(&mut rng);

    assert_eq!(game.piles.len(), 7);
    let mut total = game.stock.len();
    for (k, pile) in game.piles.iter().enumerate() {
        assert_eq!(pile.hidden.len(), k);
        assert_eq!(pile.visible.len(), 1);
        total += pile.hidden.len() + pile.visible.len();
    }
    assert_eq!(game.stock.len(), 24);
    assert_eq!(total, 52);

    assert_eq!(game.foundation_fill_levels, Foundations::empty());
    assert!(game.move_in_progress.is_none());
    assert!(game.move_history.is_empty());

    // every card of the deck is on the board exactly once
    for orig in Card::all_cards() {
        let in_stock = game.stock.iter().filter(|x| **x == orig).count();
        let in_piles: usize = game
            .piles
            .iter()
            .map(|p| {
                p.hidden.iter().filter(|x| **x == orig).count()
                    + p.visible.iter().filter(|x| **x == orig).count()
            })
            .sum();
        assert_eq!(in_stock + in_piles, 1);
    }
}

// the deal is deterministic given the deck order
#[test]
fn deal_follows_deck_order() {
    let cards = Card::all_cards();
    let game = Game::deal(cards.clone());

    let mut idx: usize = 0;
    for (k, pile) in game.piles.iter().enumerate() {
        for j in 0..k {
            assert_eq!(pile.hidden[j], cards[idx]);
            idx += 1;
        }
        assert_eq!(pile.visible[0], cards[idx]);
        idx += 1;
    }
    assert_eq!(idx, 28);
    for (j, card) in game.stock.iter().enumerate() {
        assert_eq!(*card, cards[28 + j]);
    }
}
