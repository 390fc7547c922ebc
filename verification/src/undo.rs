//! Undoing the most recent move.

use vstd::prelude::*;
use crate::cards::Card;
use crate::execute::pile_push;
use crate::game::{Game, GameView};
use crate::moves::{Move, MoveDest, MoveSrc};
use crate::pile::PileView;

verus! {

/// The board with pile `p`'s single visible card turned face-down again,
/// when the move being undone had auto-flipped it: a removal from run start
/// 0 emptied the visible sequence, so exactly when the pile now shows one
/// card, that card is the flipped one and goes back under.
pub open spec fn rehidden(g: GameView, p: int, ti: int) -> GameView {
    if ti == 0 && g.piles[p].visible.len() == 1 {
        GameView {
            piles: g.piles.update(
                p,
                PileView {
                    hidden: g.piles[p].hidden.push(g.piles[p].visible[0]),
                    visible: Seq::empty(),
                },
            ),
            ..g
        }
    } else {
        g
    }
}

/// The structural inverse of `m` applied to `g` (whose history has already
/// been popped). A record that does not fit the board - an index out of
/// range, too few cards where the move had put some, an empty foundation -
/// changes nothing.
pub open spec fn undo_apply(g: GameView, m: Move) -> GameView {
    match m {
        Move::CycleStock => {
            if g.stock.len() >= 2 {
                GameView { stock: seq![g.stock.last()] + g.stock.drop_last(), ..g }
            } else {
                g
            }
        },
        Move::CardMove { card: _, src, dest } => match src {
            MoveSrc::FromStock => match dest {
                MoveDest::ToPile(i) => {
                    if (i as int) < g.piles.len() && g.piles[i as int].visible.len() > 0 {
                        let c = g.piles[i as int].visible.last();
                        GameView {
                            piles: g.piles.update(
                                i as int,
                                PileView {
                                    hidden: g.piles[i as int].hidden,
                                    visible: g.piles[i as int].visible.drop_last(),
                                },
                            ),
                            stock: seq![c] + g.stock,
                            ..g
                        }
                    } else {
                        g
                    }
                },
                MoveDest::ToFoundation(s) => match g.foundations.spec_level(s) {
                    Some(r) => GameView {
                        foundations: g.foundations.spec_with_level(s, r.spec_pred()),
                        stock: seq![Card { suit: s, rank: r }] + g.stock,
                        ..g
                    },
                    None => g,
                },
            },
            MoveSrc::FromFoundation(s) => match dest {
                MoveDest::ToPile(i) => {
                    if (i as int) < g.piles.len() && g.piles[i as int].visible.len() > 0 {
                        let c = g.piles[i as int].visible.last();
                        GameView {
                            piles: g.piles.update(
                                i as int,
                                PileView {
                                    hidden: g.piles[i as int].hidden,
                                    visible: g.piles[i as int].visible.drop_last(),
                                },
                            ),
                            foundations: g.foundations.spec_with_level(s, Some(c.rank)),
                            ..g
                        }
                    } else {
                        g
                    }
                },
                MoveDest::ToFoundation(_) => g,
            },
            MoveSrc::FromPile { pile_index: p, n_cards: n, target_card_index: ti } => match dest {
                MoveDest::ToPile(q) => {
                    if (q as int) < g.piles.len() && (p as int) < g.piles.len() && n
                        <= g.piles[q as int].visible.len() {
                        let vq = g.piles[q as int].visible.len() as int;
                        let removed = g.piles[q as int].visible.skip(vq - n);
                        let g1 = GameView {
                            piles: g.piles.update(
                                q as int,
                                PileView {
                                    hidden: g.piles[q as int].hidden,
                                    visible: g.piles[q as int].visible.take(vq - n),
                                },
                            ),
                            ..g
                        };
                        let g2 = rehidden(g1, p as int, ti as int);
                        GameView {
                            piles: g2.piles.update(p as int, pile_push(g2.piles[p as int], removed)),
                            ..g2
                        }
                    } else {
                        g
                    }
                },
                MoveDest::ToFoundation(s) => match g.foundations.spec_level(s) {
                    Some(r) => {
                        if (p as int) < g.piles.len() {
                            let g1 = GameView {
                                foundations: g.foundations.spec_with_level(s, r.spec_pred()),
                                ..g
                            };
                            let g2 = rehidden(g1, p as int, ti as int);
                            GameView {
                                piles: g2.piles.update(
                                    p as int,
                                    pile_push(g2.piles[p as int], seq![Card { suit: s, rank: r }]),
                                ),
                                ..g2
                            }
                        } else {
                            g
                        }
                    },
                    None => g,
                },
            },
        },
    }
}

/// The board after one undo: with an empty history nothing changes;
/// otherwise the last recorded move is popped and its structural inverse
/// applied.
pub open spec fn undo_step(g: GameView) -> GameView {
    if g.history.len() == 0 {
        g
    } else {
        undo_apply(GameView { history: g.history.drop_last(), ..g }, g.history.last())
    }
}

impl Game {
    /// Undoes the most recent move, exactly as [`undo_step`] describes:
    /// the last history entry is popped and its structural inverse applied,
    /// re-hiding an auto-flipped card where the move had uncovered one.
    /// With an empty history this is a no-op.
    pub fn undo_move(&mut self)
        ensures
            final(self)@ == undo_step(old(self)@),
    {
        let mv = match self.move_history.pop() {
            Some(m) => m,
            None => {
                return ;
            },
        };
        match mv {
            Move::CardMove { card: _, src, dest } => match src {
                MoveSrc::FromStock => match dest {
                    MoveDest::ToPile(dest_pile_index) => {
                        if dest_pile_index < self.piles.len() {
                            match self.piles[dest_pile_index].visible.pop() {
                                Some(c) => {
                                    self.stock.push_front(c);
                                    proof {
                                        assert(self@ =~~= undo_step(old(self)@));
                                    }
                                },
                                None => {},
                            }
                        }
                    },
                    MoveDest::ToFoundation(suit) => {
                        match self.pop_foundation(suit) {
                            Some(c) => {
                                self.stock.push_front(c);
                                proof {
                                    assert(self@ =~~= undo_step(old(self)@));
                                }
                            },
                            None => {},
                        }
                    },
                },
                MoveSrc::FromFoundation(suit) => match dest {
                    MoveDest::ToPile(dest_pile_index) => {
                        if dest_pile_index < self.piles.len() {
                            match self.piles[dest_pile_index].visible.pop() {
                                Some(c) => {
                                    self.foundation_fill_levels.set_level(suit, Some(c.rank));
                                    proof {
                                        assert(self@ =~~= undo_step(old(self)@));
                                    }
                                },
                                None => {},
                            }
                        }
                    },
                    MoveDest::ToFoundation(_) => {},
                },
                MoveSrc::FromPile { pile_index, n_cards, target_card_index } => match dest {
                    MoveDest::ToPile(dest_pile_index) => {
                        if dest_pile_index < self.piles.len() && pile_index < self.piles.len()
                            && n_cards <= self.piles[dest_pile_index].visible.len() {
                            let split_at = self.piles[dest_pile_index].visible.len() - n_cards;
                            let mut removed = self.piles[dest_pile_index].visible.split_off(
                                split_at,
                            );
                            // put the card the move had uncovered back face-down
                            if target_card_index == 0 && self.piles[pile_index].visible.len()
                                == 1 {
                                match self.piles[pile_index].visible.pop() {
                                    Some(card_to_rehide) => {
                                        self.piles[pile_index].hidden.push(card_to_rehide);
                                    },
                                    None => {},
                                }
                            }
                            self.piles[pile_index].visible.append(&mut removed);
                            proof {
                                assert(self@ =~~= undo_step(old(self)@));
                            }
                        }
                    },
                    MoveDest::ToFoundation(suit) => {
                        if pile_index < self.piles.len() {
                            match self.pop_foundation(suit) {
                                Some(c) => {
                                    // put the card the move had uncovered back face-down
                                    if target_card_index == 0 && self.piles[pile_index].visible.len()
                                        == 1 {
                                        match self.piles[pile_index].visible.pop() {
                                            Some(card_to_rehide) => {
                                                self.piles[pile_index].hidden.push(card_to_rehide);
                                            },
                                            None => {},
                                        }
                                    }
                                    self.piles[pile_index].visible.push(c);
                                    proof {
                                        assert(self@ =~~= undo_step(old(self)@));
                                    }
                                },
                                None => {},
                            }
                        }
                    },
                },
            },
            Move::CycleStock => {
                if self.stock.len() > 1 {
                    let c = match self.stock.pop_back() {
                        Some(c) => c,
                        None => {
                            proof {
                                assert(false);
                            }
                            return ;
                        },
                    };
                    self.stock.push_front(c);
                    proof {
                        assert(self@ =~~= undo_step(old(self)@));
                    }
                }
            },
        }
    }
}

} // verus!
