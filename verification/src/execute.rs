//! Applying a move to the board.

use vstd::prelude::*;
use crate::cards::Card;
use crate::game::{Game, GameView};
use crate::moves::{Move, MoveDest, MoveSrc};
use crate::pile::PileView;

verus! {

/// The pile with the given cards laid, in order, on top of its visible
/// sequence.
pub open spec fn pile_push(p: PileView, cs: Seq<Card>) -> PileView {
    PileView { hidden: p.hidden, visible: p.visible + cs }
}

/// The pile after its visible cards from index `ti` upward leave: when that
/// empties the visible sequence and face-down cards remain, the topmost of
/// them flips face-up automatically.
pub open spec fn pile_after_removal(p: PileView, ti: int) -> PileView {
    let vis = p.visible.subrange(0, ti);
    if vis.len() == 0 && p.hidden.len() > 0 {
        PileView { hidden: p.hidden.drop_last(), visible: seq![p.hidden.last()] }
    } else {
        PileView { hidden: p.hidden, visible: vis }
    }
}

/// The board after executing `m`, or `None` when `m` does not apply to this
/// board: a cycle of a stock shorter than two, a move out of an empty stock
/// or foundation, an out-of-range pile index or run start, or a foundation-
/// to-foundation move. A successful step appends `m` to the history and
/// leaves the pending move untouched.
///
/// A card moved out of the stock or a foundation is the one actually there,
/// whatever `m.card` names; only a pile-to-foundation step reads `m.card`
/// for the rank it sets.
pub open spec fn step(g: GameView, m: Move) -> Option<GameView> {
    match m {
        Move::CycleStock => {
            if g.stock.len() >= 2 {
                Some(
                    GameView {
                        stock: g.stock.drop_first().push(g.stock[0]),
                        history: g.history.push(m),
                        ..g
                    },
                )
            } else {
                None
            }
        },
        Move::CardMove { card, src, dest } => match src {
            MoveSrc::FromStock => {
                if g.stock.len() == 0 {
                    None
                } else {
                    let c = g.stock[0];
                    match dest {
                        MoveDest::ToPile(i) => {
                            if (i as int) < g.piles.len() {
                                Some(
                                    GameView {
                                        stock: g.stock.drop_first(),
                                        piles: g.piles.update(
                                            i as int,
                                            pile_push(g.piles[i as int], seq![c]),
                                        ),
                                        history: g.history.push(m),
                                        ..g
                                    },
                                )
                            } else {
                                None
                            }
                        },
                        MoveDest::ToFoundation(s) => Some(
                            GameView {
                                stock: g.stock.drop_first(),
                                foundations: g.foundations.spec_with_level(s, Some(c.rank)),
                                history: g.history.push(m),
                                ..g
                            },
                        ),
                    }
                }
            },
            MoveSrc::FromFoundation(s) => match dest {
                MoveDest::ToPile(i) => match g.foundations.spec_level(s) {
                    Some(r) => {
                        if (i as int) < g.piles.len() {
                            Some(
                                GameView {
                                    foundations: g.foundations.spec_with_level(s, r.spec_pred()),
                                    piles: g.piles.update(
                                        i as int,
                                        pile_push(
                                            g.piles[i as int],
                                            seq![Card { suit: s, rank: r }],
                                        ),
                                    ),
                                    history: g.history.push(m),
                                    ..g
                                },
                            )
                        } else {
                            None
                        }
                    },
                    None => None,
                },
                MoveDest::ToFoundation(_) => None,
            },
            MoveSrc::FromPile { pile_index: p, n_cards: _, target_card_index: ti } => {
                if (p as int) < g.piles.len() && ti <= g.piles[p as int].visible.len() {
                    let removed = g.piles[p as int].visible.skip(ti as int);
                    let g1 = GameView {
                        piles: g.piles.update(p as int, pile_after_removal(g.piles[p as int], ti as int)),
                        ..g
                    };
                    match dest {
                        MoveDest::ToPile(q) => {
                            if (q as int) < g.piles.len() {
                                Some(
                                    GameView {
                                        piles: g1.piles.update(
                                            q as int,
                                            pile_push(g1.piles[q as int], removed),
                                        ),
                                        history: g.history.push(m),
                                        ..g1
                                    },
                                )
                            } else {
                                None
                            }
                        },
                        MoveDest::ToFoundation(s) => Some(
                            GameView {
                                foundations: g.foundations.spec_with_level(s, Some(card.rank)),
                                history: g.history.push(m),
                                ..g1
                            },
                        ),
                    }
                } else {
                    None
                }
            },
        },
    }
}

impl Game {
    /// Applies `mv` to the board, exactly as [`step`] describes: on success
    /// the board becomes `step(old, mv)` - the move appended to the history
    /// - and `true` comes back; a move that does not apply leaves the board
    /// unchanged and returns `false`. Callers are expected to pass only
    /// moves produced by the move calculator, so `false` signals misuse,
    /// not user error.
    pub fn exec_move(&mut self, mv: Move) -> (r: bool)
        ensures
            r == (step(old(self)@, mv) is Some),
            r ==> Some(final(self)@) == step(old(self)@, mv),
            !r ==> final(self)@ == old(self)@,
    {
        match mv {
            Move::CardMove { card, src, dest } => match src {
                MoveSrc::FromStock => {
                    if self.stock.len() == 0 {
                        return false;
                    }
                    match dest {
                        MoveDest::ToPile(pile_index) => {
                            if pile_index >= self.piles.len() {
                                return false;
                            }
                            let c = match self.stock.pop_front() {
                                Some(c) => c,
                                None => {
                                    proof {
                                        assert(false);
                                    }
                                    return false;
                                },
                            };
                            self.piles[pile_index].visible.push(c);
                            self.move_history.push(mv);
                            proof {
                                assert(self@ =~~= step(old(self)@, mv).unwrap());
                            }
                            true
                        },
                        MoveDest::ToFoundation(suit) => {
                            let c = match self.stock.pop_front() {
                                Some(c) => c,
                                None => {
                                    proof {
                                        assert(false);
                                    }
                                    return false;
                                },
                            };
                            self.foundation_fill_levels.set_level(suit, Some(c.rank));
                            self.move_history.push(mv);
                            proof {
                                assert(self@ =~~= step(old(self)@, mv).unwrap());
                            }
                            true
                        },
                    }
                },
                MoveSrc::FromFoundation(suit) => match dest {
                    MoveDest::ToPile(pile_index) => {
                        if pile_index >= self.piles.len() {
                            return false;
                        }
                        match self.pop_foundation(suit) {
                            Some(top_card) => {
                                self.piles[pile_index].visible.push(top_card);
                                self.move_history.push(mv);
                                proof {
                                    assert(self@ =~~= step(old(self)@, mv).unwrap());
                                }
                                true
                            },
                            None => false,
                        }
                    },
                    MoveDest::ToFoundation(_) => false,
                },
                MoveSrc::FromPile { pile_index, n_cards: _, target_card_index } => {
                    if pile_index >= self.piles.len() {
                        return false;
                    }
                    if target_card_index > self.piles[pile_index].visible.len() {
                        return false;
                    }
                    let dest_in_range = match dest {
                        MoveDest::ToPile(q) => q < self.piles.len(),
                        MoveDest::ToFoundation(_) => true,
                    };
                    if !dest_in_range {
                        return false;
                    }
                    let mut removed = self.piles[pile_index].visible.split_off(target_card_index);
                    if self.piles[pile_index].visible.len() == 0 {
                        match self.piles[pile_index].hidden.pop() {
                            Some(next) => {
                                self.piles[pile_index].visible.push(next);
                            },
                            None => {},
                        }
                    }
                    proof {
                        assert(self@.piles =~~= old(self)@.piles.update(
                            pile_index as int,
                            pile_after_removal(
                                old(self)@.piles[pile_index as int],
                                target_card_index as int,
                            ),
                        ));
                    }
                    match dest {
                        MoveDest::ToPile(q) => {
                            self.piles[q].visible.append(&mut removed);
                        },
                        MoveDest::ToFoundation(suit) => {
                            self.foundation_fill_levels.set_level(suit, Some(card.rank));
                        },
                    }
                    self.move_history.push(mv);
                    proof {
                        assert(self@ =~~= step(old(self)@, mv).unwrap());
                    }
                    true
                },
            },
            Move::CycleStock => {
                // does nothing when the stock has fewer than two cards
                if self.stock.len() > 1 {
                    let c = match self.stock.pop_front() {
                        Some(c) => c,
                        None => {
                            proof {
                                assert(false);
                            }
                            return false;
                        },
                    };
                    self.stock.push_back(c);
                    self.move_history.push(mv);
                    proof {
                        assert(self@ =~~= step(old(self)@, mv).unwrap());
                    }
                    true
                } else {
                    false
                }
            },
        }
    }
}

} // verus!
