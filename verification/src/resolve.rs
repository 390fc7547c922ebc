//! Resolving ambiguous inputs across two pointer events, and the one-shot
//! automatic move.

use vstd::prelude::*;
use crate::calc::candidate_seq;
use crate::execute::step;
use crate::game::{Game, GameView};
use crate::moves::{first_match, MouseTarget, Move, MoveInProgress, PendingView};

verus! {

/// The board with no pending move stored.
pub open spec fn clear_pending(g: GameView) -> GameView {
    GameView { pending: None, ..g }
}

/// The board after attempting `m`: executed when it applies, untouched
/// when it does not.
pub open spec fn step_or_same(g: GameView, m: Move) -> GameView {
    match step(g, m) {
        Some(g2) => g2,
        None => g,
    }
}

/// How a follow-up input lands on a stored pending move: the first stored
/// candidate whose destination the new target names is executed; whether
/// one matched or not, the pending move is cleared. With nothing pending
/// the board stays as it is.
pub open spec fn resolve_pending(g: GameView, t: MouseTarget) -> GameView {
    match g.pending {
        None => g,
        Some(pv) => {
            let g1 = match first_match(pv.moves, t) {
                Some(m) => step_or_same(g, m),
                None => g,
            };
            clear_pending(g1)
        },
    }
}

/// The full two-phase input protocol. While a pending move is stored, the
/// input resolves it as [`resolve_pending`] describes. Otherwise the
/// target's candidates decide: none - nothing happens; exactly one - it is
/// executed at once; several - they are stored, with the target, as the
/// pending move for the next input to resolve.
pub open spec fn handle_target_spec(g: GameView, t: MouseTarget) -> GameView {
    if g.pending is Some {
        resolve_pending(g, t)
    } else {
        let cs = candidate_seq(g, t);
        if cs.len() == 0 {
            g
        } else if cs.len() == 1 {
            step_or_same(g, cs[0])
        } else {
            GameView { pending: Some(PendingView { target: t, moves: cs }), ..g }
        }
    }
}

/// First candidate of the top-down scan of pile `p`'s visible cards from
/// position `k - 1` downward: the first card whose target has any legal
/// move yields that target's first candidate.
pub open spec fn auto_scan_cards(g: GameView, p: int, k: int) -> Option<Move>
    decreases k,
{
    if k <= 0 {
        None
    } else {
        let t = MouseTarget::PileCard {
            pile_index: p as usize,
            n_cards: (g.piles[p].visible.len() - (k - 1)) as usize,
            target_card: g.piles[p].visible[k - 1],
            target_card_index: (k - 1) as usize,
            top: 0,
        };
        if candidate_seq(g, t).len() > 0 {
            Some(candidate_seq(g, t)[0])
        } else {
            auto_scan_cards(g, p, k - 1)
        }
    }
}

/// First candidate found scanning piles `p` rightward, each pile's visible
/// cards top to bottom.
pub open spec fn auto_scan_piles(g: GameView, p: int) -> Option<Move>
    decreases g.piles.len() - p,
{
    if p < 0 || p >= g.piles.len() {
        None
    } else {
        match auto_scan_cards(g, p, g.piles[p].visible.len() as int) {
            Some(m) => Some(m),
            None => auto_scan_piles(g, p + 1),
        }
    }
}

/// The move the automatic player takes: the stock top's first candidate if
/// it has any, else the first candidate found scanning the piles left to
/// right, each top to bottom. `None` when no scanned target has a move.
pub open spec fn auto_pick(g: GameView) -> Option<Move> {
    if candidate_seq(g, MouseTarget::StockTop).len() > 0 {
        Some(candidate_seq(g, MouseTarget::StockTop)[0])
    } else {
        auto_scan_piles(g, 0)
    }
}

/// A second input that names none of the stored candidates' destinations
/// only cancels: the pending move is cleared and stock, piles, foundations
/// and history all stay exactly as they were; and resolving the same
/// target again changes nothing further.
pub proof fn lemma_cancel_leaves_board_unchanged(g: GameView, t: MouseTarget)
    requires
        g.pending is Some,
        first_match(g.pending.unwrap().moves, t) is None,
    ensures
        resolve_pending(g, t) == clear_pending(g),
        resolve_pending(g, t).stock == g.stock,
        resolve_pending(g, t).piles == g.piles,
        resolve_pending(g, t).foundations == g.foundations,
        resolve_pending(g, t).history == g.history,
        resolve_pending(resolve_pending(g, t), t) == resolve_pending(g, t),
{
}

impl Game {
    /// Resolves the stored pending move against a follow-up target,
    /// exactly as [`resolve_pending`] describes: the first stored candidate
    /// whose destination `target` names is executed, and the pending move
    /// is cleared in every case. Does nothing when no move is pending.
    pub fn exec_move_in_progress(&mut self, target: MouseTarget)
        ensures
            final(self)@ == resolve_pending(old(self)@, target),
    {
        let mip = match self.move_in_progress.take() {
            Some(m) => m,
            None => {
                return ;
            },
        };
        let ghost pv = mip@;
        proof {
            assert(pv.moves.skip(0) =~= pv.moves);
        }
        let mut i: usize = 0;
        while i < mip.moves.len()
            invariant
                i <= mip.moves.len(),
                pv == mip@,
                self@ == clear_pending(old(self)@),
                old(self)@.pending == Some(pv),
                first_match(pv.moves, target) == first_match(pv.moves.skip(i as int), target),
            decreases mip.moves.len() - i,
        {
            let mv = mip.moves[i];
            let matched = match mv {
                Move::CardMove { dest, .. } => match dest {
                    crate::moves::MoveDest::ToPile(mp) => match target {
                        MouseTarget::EmptyPile(tp) => mp == tp,
                        MouseTarget::PileCard { pile_index: tp, .. } => mp == tp,
                        _ => false,
                    },
                    crate::moves::MoveDest::ToFoundation(ms) => match target {
                        MouseTarget::Foundation(ts) => ms == ts,
                        _ => false,
                    },
                },
                Move::CycleStock => false,
            };
            proof {
                assert(matched == crate::moves::dest_matches_target(mv, target));
            }
            proof {
                assert(pv.moves.skip(i as int)[0] == pv.moves[i as int]);
                assert(pv.moves.skip(i as int).drop_first() =~= pv.moves.skip(i as int + 1));
            }
            if matched {
                self.exec_move(mv);
                proof {
                    assert(first_match(pv.moves, target) == Some(mv));
                    assert(self@ =~~= resolve_pending(old(self)@, target));
                }
                return ;
            }
            i = i + 1;
        }
        proof {
            assert(pv.moves.skip(mip.moves@.len() as int) =~= Seq::<Move>::empty());
            assert(first_match(pv.moves, target) is None);
        }
    }

    /// Feeds one resolved pointer target to the engine. While a move is
    /// pending the input resolves it; otherwise the target's candidates
    /// decide: none - nothing happens; exactly one - it executes at once;
    /// several - they are stored as the pending move for the next input.
    pub fn handle_target(&mut self, target: MouseTarget)
        ensures
            final(self)@ == handle_target_spec(old(self)@, target),
    {
        if self.move_in_progress.is_some() {
            self.exec_move_in_progress(target);
            return ;
        }
        match self.calc_moves(target) {
            Some(moves) => {
                if moves.len() == 1 {
                    let mv = moves[0];
                    self.exec_move(mv);
                } else {
                    self.move_in_progress = Some(MoveInProgress { target, moves });
                }
            },
            None => {},
        }
    }

    /// Plays one obvious move: the first candidate of the stock top, or
    /// failing that of the topmost available card scanning piles left to
    /// right. Deterministic for a given board; does nothing when no
    /// scanned target has a candidate.
    pub fn auto_move(&mut self)
        ensures
            final(self)@ == (match auto_pick(old(self)@) {
                Some(m) => step_or_same(old(self)@, m),
                None => old(self)@,
            }),
    {
        let ghost g0 = self@;
        match self.calc_moves(MouseTarget::StockTop) {
            Some(moves) => {
                let mv = moves[0];
                self.exec_move(mv);
                return ;
            },
            None => {},
        }
        let mut pile_index: usize = 0;
        while pile_index < self.piles.len()
            invariant
                g0 == old(self)@,
                self@ == g0,
                pile_index <= self.piles.len(),
                auto_scan_piles(g0, 0) == auto_scan_piles(g0, pile_index as int),
                candidate_seq(g0, MouseTarget::StockTop).len() == 0,
            decreases self.piles.len() - pile_index,
        {
            let vlen = self.piles[pile_index].visible.len();
            let mut k: usize = vlen;
            while k > 0
                invariant
                    g0 == old(self)@,
                    self@ == g0,
                    pile_index < self.piles.len(),
                    k <= vlen,
                    vlen == g0.piles[pile_index as int].visible.len(),
                    candidate_seq(g0, MouseTarget::StockTop).len() == 0,
                    auto_scan_piles(g0, 0) == auto_scan_piles(g0, pile_index as int),
                    auto_scan_cards(g0, pile_index as int, vlen as int) == auto_scan_cards(
                        g0,
                        pile_index as int,
                        k as int,
                    ),
                decreases k,
            {
                let card_index = k - 1;
                let card = self.piles[pile_index].visible[card_index];
                let target = MouseTarget::PileCard {
                    pile_index,
                    n_cards: vlen - card_index,
                    target_card: card,
                    target_card_index: card_index,
                    top: 0,  // irrelevant to the rules
                };
                match self.calc_moves(target) {
                    Some(moves) => {
                        let mv = moves[0];
                        proof {
                            assert(auto_scan_cards(g0, pile_index as int, k as int) == Some(mv));
                            assert(auto_pick(g0) == Some(mv));
                        }
                        self.exec_move(mv);
                        return ;
                    },
                    None => {},
                }
                k = k - 1;
            }
            proof {
                assert(auto_scan_cards(g0, pile_index as int, 0) is None);
                assert(auto_scan_piles(g0, pile_index as int) == auto_scan_piles(
                    g0,
                    pile_index as int + 1,
                ));
            }
            pile_index = pile_index + 1;
        }
        proof {
            assert(auto_scan_piles(g0, self@.piles.len() as int) is None);
            assert(auto_pick(g0) is None);
        }
    }
}

} // verus!
