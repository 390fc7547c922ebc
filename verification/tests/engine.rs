use klondike::cards::{Card, Rank, Suit};
use klondike::game::{Foundations, Game};
use klondike::moves::{MouseTarget, Move, MoveDest, MoveSrc};
use klondike::pile::Pile;
use rand::rngs::StdRng;
use rand::SeedableRng;
use std::collections::VecDeque;

fn c(suit: Suit, rank: Rank) -> Card {
    Card::new(suit, rank)
}

fn empty_game() -> Game {
    let mut piles = Vec::new();
    for _ in 0..7 {
        piles.push(Pile::new());
    }
    Game {
        stock: VecDeque::new(),
        piles,
        foundation_fill_levels: Foundations::empty(),
        move_in_progress: None,
        move_history: Vec::new(),
    }
}

// cycling a one-card stock is a no-op and records nothing
#[test]
fn cycle_stock_of_one_card_is_a_no_op() {
    let mut game = empty_game();
    game.stock.push_back(c(Suit::Hearts, Rank::Five));
    let before = game.clone();

    assert_eq!(game.calc_moves(MouseTarget::StockDeck), None);
    assert!(!game.exec_move(Move::CycleStock));
    assert_eq!(game, before);
    assert!(game.move_history.is_empty());
}

#[test]
fn cycle_stock_rotates_front_to_back_and_undoes() {
    let mut game = empty_game();
    game.stock.push_back(c(Suit::Hearts, Rank::Five));
    game.stock.push_back(c(Suit::Spades, Rank::Nine));
    game.stock.push_back(c(Suit::Clubs, Rank::Two));
    let before = game.clone();

    let moves = game.calc_moves(MouseTarget::StockDeck).unwrap();
    assert_eq!(moves, vec![Move::CycleStock]);
    assert!(game.exec_move(Move::CycleStock));
    assert_eq!(
        game.stock,
        VecDeque::from(vec![
            c(Suit::Spades, Rank::Nine),
            c(Suit::Clubs, Rank::Two),
            c(Suit::Hearts, Rank::Five),
        ])
    );
    assert_eq!(game.move_history, vec![Move::CycleStock]);

    game.undo_move();
    assert_eq!(game, before);
}

// stock top Ace of Spades on empty foundations: exactly one foundation
// candidate, and executing it files the Ace and pops the stock
#[test]
fn stock_top_ace_goes_to_its_foundation() {
    let mut game = empty_game();
    game.stock.push_back(c(Suit::Spades, Rank::Ace));
    game.stock.push_back(c(Suit::Hearts, Rank::Seven));

    let moves = game.calc_moves(MouseTarget::StockTop).unwrap();
    let foundation_moves: Vec<&Move> = moves
        .iter()
        .filter(|m| matches!(m, Move::CardMove { dest: MoveDest::ToFoundation(Suit::Spades), .. }))
        .collect();
    assert_eq!(foundation_moves.len(), 1);
    assert_eq!(
        *foundation_moves[0],
        Move::CardMove {
            card: c(Suit::Spades, Rank::Ace),
            src: MoveSrc::FromStock,
            dest: MoveDest::ToFoundation(Suit::Spades),
        }
    );

    assert!(game.exec_move(*foundation_moves[0]));
    assert_eq!(game.foundation_fill_levels.level(Suit::Spades), Some(Rank::Ace));
    assert_eq!(game.stock.front(), Some(&c(Suit::Hearts, Rank::Seven)));
    assert_eq!(game.stock.len(), 1);
}

// a King on the stock top may move to an empty pile; the rest of the
// stock keeps its order
#[test]
fn stock_top_king_moves_to_empty_pile() {
    let mut game = empty_game();
    game.stock.push_back(c(Suit::Clubs, Rank::King));
    game.stock.push_back(c(Suit::Hearts, Rank::Four));
    game.stock.push_back(c(Suit::Diamonds, Rank::Nine));
    game.piles[3].visible.push(c(Suit::Spades, Rank::Eight));

    let moves = game.calc_moves(MouseTarget::StockTop).unwrap();
    // every empty pile is offered; pile 3 is occupied and does not fit a King
    let dests: Vec<usize> = moves
        .iter()
        .filter_map(|m| match m {
            Move::CardMove { dest: MoveDest::ToPile(i), .. } => Some(*i),
            _ => None,
        })
        .collect();
    assert_eq!(dests, vec![0, 1, 2, 4, 5, 6]);

    let mv = Move::CardMove {
        card: c(Suit::Clubs, Rank::King),
        src: MoveSrc::FromStock,
        dest: MoveDest::ToPile(0),
    };
    assert!(moves.contains(&mv));
    assert!(game.exec_move(mv));
    assert_eq!(game.piles[0].visible, vec![c(Suit::Clubs, Rank::King)]);
    assert_eq!(
        game.stock,
        VecDeque::from(vec![c(Suit::Hearts, Rank::Four), c(Suit::Diamonds, Rank::Nine)])
    );
}

// foundations build strictly upward: Ace first, then the Two of the same suit
#[test]
fn foundation_builds_one_rank_at_a_time() {
    let mut game = empty_game();
    game.stock.push_back(c(Suit::Diamonds, Rank::Ace));
    game.stock.push_back(c(Suit::Diamonds, Rank::Two));

    let first = game.calc_moves(MouseTarget::StockTop).unwrap();
    assert!(game.exec_move(first[0]));
    assert_eq!(game.foundation_fill_levels.level(Suit::Diamonds), Some(Rank::Ace));

    let second = game.calc_moves(MouseTarget::StockTop).unwrap();
    assert_eq!(
        second,
        vec![Move::CardMove {
            card: c(Suit::Diamonds, Rank::Two),
            src: MoveSrc::FromStock,
            dest: MoveDest::ToFoundation(Suit::Diamonds),
        }]
    );
    assert!(game.exec_move(second[0]));
    assert_eq!(game.foundation_fill_levels.level(Suit::Diamonds), Some(Rank::Two));

    // a Four may not skip the Three
    game.stock.push_back(c(Suit::Diamonds, Rank::Four));
    let third = game.calc_moves(MouseTarget::StockTop);
    assert_eq!(third, None);

    // undo descends one rank at a time
    game.undo_move();
    assert_eq!(game.foundation_fill_levels.level(Suit::Diamonds), Some(Rank::Ace));
    game.undo_move();
    assert_eq!(game.foundation_fill_levels.level(Suit::Diamonds), None);
}

// a foundation top may come back onto a fitting pile
#[test]
fn foundation_card_returns_to_pile() {
    let mut game = empty_game();
    game.foundation_fill_levels.set_level(Suit::Hearts, Some(Rank::Two));
    game.piles[2].visible.push(c(Suit::Spades, Rank::Three));

    let moves = game.calc_moves(MouseTarget::Foundation(Suit::Hearts)).unwrap();
    assert_eq!(
        moves,
        vec![Move::CardMove {
            card: c(Suit::Hearts, Rank::Two),
            src: MoveSrc::FromFoundation(Suit::Hearts),
            dest: MoveDest::ToPile(2),
        }]
    );
    let before = game.clone();
    assert!(game.exec_move(moves[0]));
    assert_eq!(game.foundation_fill_levels.level(Suit::Hearts), Some(Rank::Ace));
    assert_eq!(
        game.piles[2].visible,
        vec![c(Suit::Spades, Rank::Three), c(Suit::Hearts, Rank::Two)]
    );

    game.undo_move();
    assert_eq!(game, before);
}

// removing a pile's last visible card flips exactly one hidden card, and
// the undo re-hides it
#[test]
fn auto_flip_and_its_undo() {
    let mut game = empty_game();
    game.piles[0].hidden.push(c(Suit::Diamonds, Rank::Jack));
    game.piles[0].visible.push(c(Suit::Hearts, Rank::Two));
    game.piles[1].visible.push(c(Suit::Spades, Rank::Three));
    let before = game.clone();

    let target = MouseTarget::PileCard {
        pile_index: 0,
        n_cards: 1,
        target_card: c(Suit::Hearts, Rank::Two),
        target_card_index: 0,
        top: 0,
    };
    let moves = game.calc_moves(target).unwrap();
    assert_eq!(
        moves,
        vec![Move::CardMove {
            card: c(Suit::Hearts, Rank::Two),
            src: MoveSrc::FromPile { pile_index: 0, n_cards: 1, target_card_index: 0 },
            dest: MoveDest::ToPile(1),
        }]
    );
    assert!(game.exec_move(moves[0]));
    assert!(game.piles[0].hidden.is_empty());
    assert_eq!(game.piles[0].visible, vec![c(Suit::Diamonds, Rank::Jack)]);
    assert_eq!(
        game.piles[1].visible,
        vec![c(Suit::Spades, Rank::Three), c(Suit::Hearts, Rank::Two)]
    );

    game.undo_move();
    assert_eq!(game, before);
}

// a whole visible run moves together, in order
#[test]
fn run_moves_between_piles_and_undoes() {
    let mut game = empty_game();
    game.piles[4].hidden.push(c(Suit::Clubs, Rank::Nine));
    game.piles[4].visible.push(c(Suit::Hearts, Rank::Six));
    game.piles[4].visible.push(c(Suit::Spades, Rank::Five));
    game.piles[4].visible.push(c(Suit::Diamonds, Rank::Four));
    game.piles[6].visible.push(c(Suit::Clubs, Rank::Seven));
    let before = game.clone();

    // hit the Six: a run of three
    let target = MouseTarget::PileCard {
        pile_index: 4,
        n_cards: 3,
        target_card: c(Suit::Hearts, Rank::Six),
        target_card_index: 0,
        top: 0,
    };
    let moves = game.calc_moves(target).unwrap();
    assert_eq!(moves.len(), 1);
    assert!(game.exec_move(moves[0]));
    assert_eq!(
        game.piles[6].visible,
        vec![
            c(Suit::Clubs, Rank::Seven),
            c(Suit::Hearts, Rank::Six),
            c(Suit::Spades, Rank::Five),
            c(Suit::Diamonds, Rank::Four),
        ]
    );
    // the source pile flipped its hidden card
    assert!(game.piles[4].hidden.is_empty());
    assert_eq!(game.piles[4].visible, vec![c(Suit::Clubs, Rank::Nine)]);

    game.undo_move();
    assert_eq!(game, before);
}

// executing then undoing any candidate of a fresh game restores the board
#[test]
fn every_candidate_round_trips_on_fresh_games(
) {
    for seed in [3u64, 8, 21, 1000] {
        let mut rng = StdRng::seed_from_u64(seed);
        let game = Game::new(&mut rng);

        let mut targets = vec![MouseTarget::StockTop];
        for (p, pile) in game.piles.iter().enumerate() {
            for ci in 0..pile.visible.len() {
                targets.push(MouseTarget::PileCard {
                    pile_index: p,
                    n_cards: pile.visible.len() - ci,
                    target_card: pile.visible[ci],
                    target_card_index: ci,
                    top: 0,
                });
            }
        }
        for target in targets {
            if let Some(moves) = game.calc_moves(target) {
                for mv in moves {
                    let mut played = game.clone();
                    assert!(played.exec_move(mv));
                    played.undo_move();
                    assert_eq!(played, game, "undo must restore the board exactly");
                }
            }
        }
    }
}

#[test]
fn undo_with_empty_history_is_a_no_op() {
    let mut game = empty_game();
    game.stock.push_back(c(Suit::Hearts, Rank::Five));
    let before = game.clone();
    game.undo_move();
    assert_eq!(game, before);
}

// an executor asked to apply a move inconsistent with the board refuses
// and changes nothing
#[test]
fn invalid_moves_fail_without_effect() {
    let mut game = empty_game();
    let before = game.clone();

    // stock is empty
    assert!(!game.exec_move(Move::CardMove {
        card: c(Suit::Hearts, Rank::Five),
        src: MoveSrc::FromStock,
        dest: MoveDest::ToPile(0),
    }));
    // pile index out of range
    game.stock.push_back(c(Suit::Hearts, Rank::Five));
    assert!(!game.exec_move(Move::CardMove {
        card: c(Suit::Hearts, Rank::Five),
        src: MoveSrc::FromStock,
        dest: MoveDest::ToPile(9),
    }));
    game.stock.pop_front();
    // foundation is empty
    assert!(!game.exec_move(Move::CardMove {
        card: c(Suit::Hearts, Rank::Five),
        src: MoveSrc::FromFoundation(Suit::Hearts),
        dest: MoveDest::ToPile(0),
    }));
    // foundation to foundation never applies
    assert!(!game.exec_move(Move::CardMove {
        card: c(Suit::Hearts, Rank::Five),
        src: MoveSrc::FromFoundation(Suit::Hearts),
        dest: MoveDest::ToFoundation(Suit::Hearts),
    }));
    assert_eq!(game, before);
    assert!(game.move_history.is_empty());
}

#[test]
fn empty_pile_is_never_a_source() {
    let game = empty_game();
    assert_eq!(game.calc_moves(MouseTarget::EmptyPile(0)), None);
}

#[test]
fn pop_foundation_descends_or_empties() {
    let mut game = empty_game();
    assert_eq!(game.pop_foundation(Suit::Clubs), None);

    game.foundation_fill_levels.set_level(Suit::Clubs, Some(Rank::Two));
    assert_eq!(game.pop_foundation(Suit::Clubs), Some(c(Suit::Clubs, Rank::Two)));
    assert_eq!(game.foundation_fill_levels.level(Suit::Clubs), Some(Rank::Ace));
    assert_eq!(game.pop_foundation(Suit::Clubs), Some(c(Suit::Clubs, Rank::Ace)));
    assert_eq!(game.foundation_fill_levels.level(Suit::Clubs), None);
}

#[test]
fn foundation_top_card_pairs_suit_with_level() {
    let mut game = empty_game();
    assert_eq!(game.foundation_top_card(Suit::Spades), None);
    game.foundation_fill_levels.set_level(Suit::Spades, Some(Rank::Nine));
    assert_eq!(game.foundation_top_card(Suit::Spades), Some(c(Suit::Spades, Rank::Nine)));
}
