use klondike::cards::{Card, Rank, Suit};
use klondike::game::{Foundations, Game};
use klondike::moves::{MouseTarget, Move, MoveDest, MoveSrc};
use klondike::pile::Pile;
use rand::rngs::StdRng;
use rand::SeedableRng;
use std::collections::VecDeque;

fn c(suit: Suit, rank: Rank) -> Card {
    Card::new(suit, rank)
}

fn empty_game() -> Game {
    let mut piles = Vec::new();
    for _ in 0..7 {
        piles.push(Pile::new());
    }
    Game {
        stock: VecDeque::new(),
        piles,
        foundation_fill_levels: Foundations::empty(),
        move_in_progress: None,
        move_history: Vec::new(),
    }
}

/// A red Two on the stock with black Threes on two piles: two candidates.
fn ambiguous_game() -> Game {
    let mut game = empty_game();
    game.stock.push_back(c(Suit::Hearts, Rank::Two));
    game.piles[1].visible.push(c(Suit::Spades, Rank::Three));
    game.piles[5].visible.push(c(Suit::Clubs, Rank::Three));
    game
}

// several candidates: the first input stores them, the second commits the
// one whose destination it names
#[test]
fn ambiguous_input_resolves_on_second_click() {
    let mut game = ambiguous_game();
    game.handle_target(MouseTarget::StockTop);

    let mip = game.move_in_progress.clone().expect("two candidates must be stored");
    assert_eq!(mip.target, MouseTarget::StockTop);
    assert_eq!(mip.moves.len(), 2);

    // the second input names pile 5
    game.handle_target(MouseTarget::PileCard {
        pile_index: 5,
        n_cards: 1,
        target_card: c(Suit::Clubs, Rank::Three),
        target_card_index: 0,
        top: 0,
    });
    assert!(game.move_in_progress.is_none());
    assert!(game.stock.is_empty());
    assert_eq!(
        game.piles[5].visible,
        vec![c(Suit::Clubs, Rank::Three), c(Suit::Hearts, Rank::Two)]
    );
    assert_eq!(game.piles[1].visible, vec![c(Suit::Spades, Rank::Three)]);
}

// an empty-pile hit also names a pile destination
#[test]
fn empty_pile_click_resolves_pending_king() {
    let mut game = empty_game();
    game.stock.push_back(c(Suit::Clubs, Rank::King));
    game.handle_target(MouseTarget::StockTop);
    // six empty piles: stored as pending
    assert!(game.move_in_progress.is_some());

    game.handle_target(MouseTarget::EmptyPile(2));
    assert!(game.move_in_progress.is_none());
    assert_eq!(game.piles[2].visible, vec![c(Suit::Clubs, Rank::King)]);
}

// a foundation hit also resolves a pending move whose destination it names
#[test]
fn foundation_click_resolves_pending() {
    let mut game = empty_game();
    game.stock.push_back(c(Suit::Diamonds, Rank::Two));
    game.foundation_fill_levels.set_level(Suit::Diamonds, Some(Rank::Ace));
    game.piles[0].visible.push(c(Suit::Spades, Rank::Three));

    // the red Two may go up to its foundation or onto the black Three
    game.handle_target(MouseTarget::StockTop);
    let mip = game.move_in_progress.clone().expect("two candidates must be stored");
    assert_eq!(mip.moves.len(), 2);

    game.handle_target(MouseTarget::Foundation(Suit::Diamonds));
    assert!(game.move_in_progress.is_none());
    assert_eq!(game.foundation_fill_levels.level(Suit::Diamonds), Some(Rank::Two));
    assert!(game.stock.is_empty());
    assert_eq!(game.piles[0].visible, vec![c(Suit::Spades, Rank::Three)]);
}

// a second input that matches no candidate cancels the pending move and
// leaves the board untouched; a repeat changes nothing further
#[test]
fn non_matching_second_click_cancels_without_change() {
    let mut game = ambiguous_game();
    game.handle_target(MouseTarget::StockTop);
    assert!(game.move_in_progress.is_some());

    let mut board_before = game.clone();
    board_before.move_in_progress = None;

    // a foundation no candidate points at
    game.handle_target(MouseTarget::Foundation(Suit::Diamonds));
    assert!(game.move_in_progress.is_none());
    assert_eq!(game, board_before);

    // the same input again finds nothing pending; with no legal move for
    // it, nothing happens at all
    game.handle_target(MouseTarget::Foundation(Suit::Diamonds));
    assert_eq!(game, board_before);
}

// one candidate commits immediately, none is a no-op
#[test]
fn single_candidate_commits_immediately() {
    let mut game = empty_game();
    game.stock.push_back(c(Suit::Spades, Rank::Ace));
    game.handle_target(MouseTarget::StockTop);
    assert!(game.move_in_progress.is_none());
    assert_eq!(game.foundation_fill_levels.level(Suit::Spades), Some(Rank::Ace));

    let before = game.clone();
    game.handle_target(MouseTarget::EmptyPile(0));
    assert_eq!(game, before);
}

// auto_move prefers the stock top, then scans piles left to right
#[test]
fn auto_move_plays_the_stock_top_first() {
    let mut game = empty_game();
    game.stock.push_back(c(Suit::Diamonds, Rank::Ace));
    game.piles[0].visible.push(c(Suit::Clubs, Rank::Ace));
    game.auto_move();
    assert_eq!(game.foundation_fill_levels.level(Suit::Diamonds), Some(Rank::Ace));
    assert_eq!(game.foundation_fill_levels.level(Suit::Clubs), None);

    game.auto_move();
    assert_eq!(game.foundation_fill_levels.level(Suit::Clubs), Some(Rank::Ace));

    // nothing left to play
    let before = game.clone();
    game.auto_move();
    assert_eq!(game, before);
}

#[test]
fn auto_move_is_deterministic() {
    let mut rng_a = StdRng::seed_from_u64(77);
    let mut rng_b = StdRng::seed_from_u64(77);
    let mut game_a = Game::new(&mut rng_a);
    let mut game_b = Game::new(&mut rng_b);
    for _ in 0..5 {
        game_a.auto_move();
        game_b.auto_move();
        assert_eq!(game_a, game_b);
    }
}

// hit-testing precedence: stock top, stock rest, foundations, piles
#[test]
fn mouse_hit_finds_the_stock() {
    let mut game = empty_game();
    game.stock.push_back(c(Suit::Hearts, Rank::Five));
    // the revealed top sits one column right of the face-down rest
    assert_eq!(game.mouse_hit(200, 50), Some(MouseTarget::StockTop));
    assert_eq!(game.mouse_hit(40, 50), Some(MouseTarget::StockDeck));

    // with no stock card the same point falls through past the stock
    // checks, down to the empty second column underneath
    game.stock.clear();
    assert_eq!(game.mouse_hit(200, 50), Some(MouseTarget::EmptyPile(1)));
}

#[test]
fn mouse_hit_finds_foundations_in_display_order() {
    let game = empty_game();
    assert_eq!(game.mouse_hit(500, 50), Some(MouseTarget::Foundation(Suit::Diamonds)));
    assert_eq!(game.mouse_hit(650, 50), Some(MouseTarget::Foundation(Suit::Clubs)));
    assert_eq!(game.mouse_hit(800, 50), Some(MouseTarget::Foundation(Suit::Hearts)));
    assert_eq!(game.mouse_hit(950, 50), Some(MouseTarget::Foundation(Suit::Spades)));
}

#[test]
fn mouse_hit_reports_the_topmost_pile_card_with_its_run() {
    let mut game = empty_game();
    game.piles[0].hidden.push(c(Suit::Clubs, Rank::Nine));
    game.piles[0].visible.push(c(Suit::Hearts, Rank::Six));
    game.piles[0].visible.push(c(Suit::Spades, Rank::Five));

    // the topmost card starts at y = 210 + 2 * 36 = 282 and wins overlaps
    let hit = game.mouse_hit(50, 290).unwrap();
    assert_eq!(
        hit,
        MouseTarget::PileCard {
            pile_index: 0,
            n_cards: 1,
            target_card: c(Suit::Spades, Rank::Five),
            target_card_index: 1,
            top: 282,
        }
    );

    // a point only the lower visible card covers: run of two from the Six
    let hit = game.mouse_hit(50, 250).unwrap();
    assert_eq!(
        hit,
        MouseTarget::PileCard {
            pile_index: 0,
            n_cards: 2,
            target_card: c(Suit::Hearts, Rank::Six),
            target_card_index: 0,
            top: 246,
        }
    );

    // an empty column reports itself; between columns nothing is hit
    assert_eq!(game.mouse_hit(200, 250), Some(MouseTarget::EmptyPile(1)));
    assert_eq!(game.mouse_hit(140, 250), None);
}

// resolving a mouse hit through the full protocol moves the card
#[test]
fn click_driven_play() {
    let mut game = empty_game();
    game.stock.push_back(c(Suit::Spades, Rank::Ace));
    let target = game.mouse_hit(200, 50).expect("the stock top is under the pointer");
    game.handle_target(target);
    assert_eq!(game.foundation_fill_levels.level(Suit::Spades), Some(Rank::Ace));
}

#[test]
fn snapshot_projects_the_board() {
    let mut game = empty_game();
    game.stock.push_back(c(Suit::Hearts, Rank::Five));
    game.stock.push_back(c(Suit::Clubs, Rank::Nine));
    game.piles[2].hidden.push(c(Suit::Diamonds, Rank::Jack));
    game.piles[2].visible.push(c(Suit::Spades, Rank::Four));
    game.foundation_fill_levels.set_level(Suit::Hearts, Some(Rank::Three));

    let view = game.snapshot();
    assert_eq!(view.stock_len, 2);
    assert_eq!(view.stock_top, Some(c(Suit::Hearts, Rank::Five)));
    assert_eq!(view.piles.len(), 7);
    assert_eq!(view.piles[2].hidden_count, 1);
    assert_eq!(view.piles[2].visible, vec![c(Suit::Spades, Rank::Four)]);
    assert_eq!(view.foundations.level(Suit::Hearts), Some(Rank::Three));
    assert_eq!(view.pending_target, None);

    let mut ambiguous = game.clone();
    ambiguous.stock.clear();
    ambiguous.stock.push_back(c(Suit::Hearts, Rank::Two));
    ambiguous.piles[1].visible.push(c(Suit::Spades, Rank::Three));
    ambiguous.piles[5].visible.push(c(Suit::Clubs, Rank::Three));
    ambiguous.foundation_fill_levels.set_level(Suit::Hearts, None);
    ambiguous.handle_target(MouseTarget::StockTop);
    assert_eq!(ambiguous.snapshot().pending_target, Some(MouseTarget::StockTop));
}

#[test]
fn pile_x_spaces_the_columns() {
    assert_eq!(Pile::pile_x(0), 30);
    assert_eq!(Pile::pile_x(1), 180);
    assert_eq!(Pile::pile_x(6), 930);
}

#[test]
fn card_mouse_hit_is_the_closed_rectangle() {
    assert!(Card::mouse_hit(30, 30, 30, 30));
    assert!(Card::mouse_hit(30, 30, 130, 170));
    assert!(!Card::mouse_hit(30, 30, 131, 100));
    assert!(!Card::mouse_hit(30, 30, 100, 171));
    assert!(!Card::mouse_hit(30, 30, 29, 100));
}
