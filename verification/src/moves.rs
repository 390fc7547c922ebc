//! Semantic pointer targets and move records.

use vstd::prelude::*;
use crate::cards::{Card, Suit};

verus! {

/// What a pointer position resolves to on the board.
#[derive(Clone, Copy, Debug, PartialEq, Eq, Structural)]
pub enum MouseTarget {
    /// The face-up front card of the stock.
    StockTop,
    /// The face-down remainder of the stock.
    StockDeck,
    /// One of the four foundation slots.
    Foundation(Suit),
    /// A tableau column that holds no cards (a King destination).
    EmptyPile(usize),
    /// A particular face-up card within a pile.
    PileCard {
        /// Which pile, 0 for the leftmost.
        pile_index: usize,
        /// How many cards lie from the hit card to the top of the pile,
        /// the hit card included.
        n_cards: usize,
        /// The card that was hit.
        target_card: Card,
        /// Index of the hit card within the pile's visible sequence.
        target_card_index: usize,
        /// Vertical position of the hit card's upper edge, for rendering.
        top: i32,
    },
}

/// Where a moved card comes from.
#[derive(Clone, Copy, Debug, PartialEq, Eq, Structural)]
pub enum MoveSrc {
    /// The front card of the stock.
    FromStock,
    /// The top card of the given suit's foundation.
    FromFoundation(Suit),
    /// A run of face-up cards in a pile.
    FromPile {
        /// Which pile, 0 for the leftmost.
        pile_index: usize,
        /// How many cards move together; more than 1 only pile to pile.
        n_cards: usize,
        /// Index of the run's bottom card within the pile's visible
        /// sequence. 0 with a non-empty hidden sequence means the move
        /// uncovers a face-down card.
        target_card_index: usize,
    },
}

/// Where a moved card goes.
#[derive(Clone, Copy, Debug, PartialEq, Eq, Structural)]
pub enum MoveDest {
    /// Onto the visible top of the given pile.
    ToPile(usize),
    /// Onto the given suit's foundation.
    ToFoundation(Suit),
}

/// One atomic board change.
#[derive(Clone, Copy, Debug, PartialEq, Eq, Structural)]
pub enum Move {
    /// Moving one card, or a run of cards, between stock, piles and
    /// foundations.
    CardMove { card: Card, src: MoveSrc, dest: MoveDest },
    /// Rotating the front card of the stock to its back.
    CycleStock,
}

/// Ghost projection of a pending ambiguous move.
#[verifier::ext_equal]
pub struct PendingView {
    pub target: MouseTarget,
    pub moves: Seq<Move>,
}

/// A stored ambiguous input: the target first clicked together with every
/// legal move it allowed, kept until a second input picks one of them.
#[derive(Clone, Debug, PartialEq)]
pub struct MoveInProgress {
    pub target: MouseTarget,
    pub moves: Vec<Move>,
}

impl View for MoveInProgress {
    type V = PendingView;

    open spec fn view(&self) -> PendingView {
        PendingView { target: self.target, moves: self.moves@ }
    }
}

/// True when the follow-up target `t` names the destination of move `m`:
/// a pile hit names `ToPile` of that pile, a foundation hit names
/// `ToFoundation` of that suit. `CycleStock` has no destination.
pub open spec fn dest_matches_target(m: Move, t: MouseTarget) -> bool {
    match m {
        Move::CardMove { dest, .. } => match dest {
            MoveDest::ToPile(i) => match t {
                MouseTarget::EmptyPile(ti) => i == ti,
                MouseTarget::PileCard { pile_index, .. } => i == pile_index,
                _ => false,
            },
            MoveDest::ToFoundation(s) => match t {
                MouseTarget::Foundation(ts) => s == ts,
                _ => false,
            },
        },
        Move::CycleStock => false,
    }
}

/// The first move of `ms` whose destination `t` names, if any.
pub open spec fn first_match(ms: Seq<Move>, t: MouseTarget) -> Option<Move>
    decreases ms.len(),
{
    if ms.len() == 0 {
        None
    } else if dest_matches_target(ms[0], t) {
        Some(ms[0])
    } else {
        first_match(ms.drop_first(), t)
    }
}

} // verus!
