//! The crate's cross-cutting guarantees: foundations only build upward
//! under legal moves, and undo reverses every legal move exactly.

use vstd::prelude::*;
use crate::calc::{
    candidate_seq,
    foundation_move_ok,
    foundation_pred_ok,
    is_candidate,
    lemma_candidates_exact,
    mk_pile_move,
    pile_dest_ok,
};
use crate::cards::{Card, Rank, Suit};
use crate::execute::{pile_after_removal, pile_push, step};
use crate::game::{Foundations, GameView};
use crate::hit::target_ok;
use crate::moves::{MouseTarget, Move, MoveDest, MoveSrc};
use crate::pile::PileView;
use crate::undo::{rehidden, undo_step};

verus! {

/// What every reachable board grants a foundation-bound candidate, since
/// each physical card exists once and runs stack downward: an Ace is only
/// proposed while its suit's foundation is empty, and a card leaves a pile
/// for a foundation only alone.
pub open spec fn foundation_move_sane(g: GameView, m: Move) -> bool {
    match m {
        Move::CardMove { card, src, dest: MoveDest::ToFoundation(s) } => {
            &&& (card.rank == Rank::Ace ==> g.foundations.spec_level(s) is None)
            &&& (match src {
                MoveSrc::FromPile { n_cards, .. } => n_cards == 1,
                _ => true,
            })
        },
        _ => true,
    }
}

/// Rebuilding a rank from its index gives the rank back.
proof fn lemma_rank_index_roundtrip(r: Rank)
    ensures
        Rank::spec_from_index(r.spec_index()) == r,
{
}

/// Putting a suit's current level back changes nothing.
proof fn lemma_with_level_same(f: Foundations, s: Suit)
    ensures
        f.spec_with_level(s, f.spec_level(s)) == f,
{
}

/// Undoing a cycle of the stock restores the stock exactly.
proof fn lemma_roundtrip_cycle(g: GameView)
    requires
        g.stock.len() > 1,
    ensures
        step(g, Move::CycleStock) is Some,
        undo_step(step(g, Move::CycleStock).unwrap()) == g,
{
    let m = Move::CycleStock;
    let g2 = step(g, m).unwrap();
    assert(g2.history.drop_last() =~= g.history);
    let rot = g.stock.drop_first().push(g.stock[0]);
    assert(rot.last() == g.stock[0]);
    assert(rot.drop_last() =~= g.stock.drop_first());
    assert(seq![rot.last()] + rot.drop_last() =~= g.stock);
    assert(undo_step(g2) =~~= g);
}

/// Undoing a stock-to-pile move puts the moved card back on the stock
/// front.
proof fn lemma_roundtrip_from_stock_pile(g: GameView, i: usize)
    requires
        g.stock.len() > 0,
        (i as int) < g.piles.len(),
    ensures
        ({
            let m = mk_pile_move(g.stock[0], MoveSrc::FromStock, i as int);
            &&& step(g, m) is Some
            &&& undo_step(step(g, m).unwrap()) == g
        }),
{
    let c = g.stock[0];
    let m = mk_pile_move(c, MoveSrc::FromStock, i as int);
    let g2 = step(g, m).unwrap();
    assert(g2.history.drop_last() =~= g.history);
    let pi = g.piles[i as int];
    assert(g2.piles[i as int].visible == pi.visible + seq![c]);
    assert(g2.piles[i as int].visible.last() == c);
    assert(g2.piles[i as int].visible.drop_last() =~= pi.visible);
    assert(seq![c] + g.stock.drop_first() =~= g.stock);
    let u = undo_step(g2);
    assert(u.piles =~= g.piles);
    assert(u =~~= g);
}

/// Undoing a stock-to-foundation move restores the stock front and the
/// foundation level.
proof fn lemma_roundtrip_from_stock_foundation(g: GameView)
    requires
        g.stock.len() > 0,
        foundation_move_ok(g, g.stock[0]),
        g.stock[0].rank == Rank::Ace ==> g.foundations.spec_level(g.stock[0].suit) is None,
    ensures
        ({
            let c = g.stock[0];
            let m = Move::CardMove {
                card: c,
                src: MoveSrc::FromStock,
                dest: MoveDest::ToFoundation(c.suit),
            };
            &&& step(g, m) is Some
            &&& undo_step(step(g, m).unwrap()) == g
        }),
{
    let c = g.stock[0];
    let s = c.suit;
    let m = Move::CardMove { card: c, src: MoveSrc::FromStock, dest: MoveDest::ToFoundation(s) };
    let g2 = step(g, m).unwrap();
    assert(g2.history.drop_last() =~= g.history);
    assert(g2.foundations.spec_level(s) == Some(c.rank));
    assert(Card { suit: s, rank: c.rank } == c);
    assert(seq![c] + g.stock.drop_first() =~= g.stock);
    match g.foundations.spec_level(s) {
        None => {
            assert(c.rank == Rank::Ace);
            assert(c.rank.spec_pred() is None);
            lemma_with_level_same(g.foundations, s);
        },
        Some(r) => {
            assert(c.rank.spec_index() == r.spec_index() + 1);
            lemma_rank_index_roundtrip(r);
            assert(c.rank.spec_pred() == Some(r));
            lemma_with_level_same(g.foundations, s);
        },
    }
    assert(g2.foundations.spec_with_level(s, c.rank.spec_pred()) == g.foundations);
    assert(undo_step(g2) =~~= g);
}

/// Undoing a foundation-to-pile move puts the card back on its foundation.
proof fn lemma_roundtrip_from_foundation(g: GameView, s: Suit, i: usize)
    requires
        g.foundations.spec_level(s) is Some,
        (i as int) < g.piles.len(),
    ensures
        ({
            let c = Card { suit: s, rank: g.foundations.spec_level(s).unwrap() };
            let m = mk_pile_move(c, MoveSrc::FromFoundation(s), i as int);
            &&& step(g, m) is Some
            &&& undo_step(step(g, m).unwrap()) == g
        }),
{
    let r = g.foundations.spec_level(s).unwrap();
    let c = Card { suit: s, rank: r };
    let m = mk_pile_move(c, MoveSrc::FromFoundation(s), i as int);
    let g2 = step(g, m).unwrap();
    assert(g2.history.drop_last() =~= g.history);
    let pi = g.piles[i as int];
    assert(g2.piles[i as int].visible == pi.visible + seq![c]);
    assert(g2.piles[i as int].visible.last() == c);
    assert(g2.piles[i as int].visible.drop_last() =~= pi.visible);
    lemma_with_level_same(g.foundations, s);
    assert(g2.foundations.spec_with_level(s, Some(c.rank)) == g.foundations);
    let u = undo_step(g2);
    assert(u.piles =~= g.piles);
    assert(u =~~= g);
}

/// A removal at `ti`, then the undo-side re-hide check, then laying the
/// removed run back, restores the pile exactly.
proof fn lemma_pile_removal_restore(pv: PileView, ti: int)
    requires
        0 <= ti <= pv.visible.len(),
    ensures
        ({
            let pr = pile_after_removal(pv, ti);
            let rh = if ti == 0 && pr.visible.len() == 1 {
                PileView { hidden: pr.hidden.push(pr.visible[0]), visible: Seq::empty() }
            } else {
                pr
            };
            pile_push(rh, pv.visible.skip(ti)) == pv
        }),
{
    let pr = pile_after_removal(pv, ti);
    if ti == 0 && pv.hidden.len() > 0 {
        assert(pr.visible.len() == 1);
        assert(pr.hidden == pv.hidden.drop_last());
        assert(pr.visible[0] == pv.hidden.last());
        assert(pv.hidden.drop_last().push(pv.hidden.last()) =~= pv.hidden);
        assert(pv.visible.skip(0) =~= pv.visible);
        let rh = PileView { hidden: pr.hidden.push(pr.visible[0]), visible: Seq::empty() };
        assert(rh.hidden =~= pv.hidden);
        assert(pile_push(rh, pv.visible.skip(ti)) =~~= pv);
    } else if ti == 0 {
        assert(pv.visible.skip(0) =~= pv.visible);
        assert(pile_push(pr, pv.visible.skip(ti)) =~~= pv);
    } else {
        assert(pv.visible.subrange(0, ti).len() == ti);
        assert(pr == PileView { hidden: pv.hidden, visible: pv.visible.subrange(0, ti) });
        assert(pv.visible.subrange(0, ti) + pv.visible.skip(ti) =~= pv.visible);
        assert(pile_push(pr, pv.visible.skip(ti)) =~~= pv);
    }
}

/// Undoing a pile-to-pile run move takes the run back off the destination,
/// re-hides an uncovered card, and restores the source pile exactly.
proof fn lemma_roundtrip_from_pile_pile(g: GameView, p: usize, ti: usize, n: usize, q: usize)
    requires
        (p as int) < g.piles.len(),
        (ti as int) < g.piles[p as int].visible.len(),
        n as int == g.piles[p as int].visible.len() - ti,
        (q as int) < g.piles.len(),
        q != p,
    ensures
        ({
            let src = MoveSrc::FromPile { pile_index: p, n_cards: n, target_card_index: ti };
            let m = mk_pile_move(g.piles[p as int].visible[ti as int], src, q as int);
            &&& step(g, m) is Some
            &&& undo_step(step(g, m).unwrap()) == g
        }),
{
    let c = g.piles[p as int].visible[ti as int];
    let src = MoveSrc::FromPile { pile_index: p, n_cards: n, target_card_index: ti };
    let m = mk_pile_move(c, src, q as int);
    let g2 = step(g, m).unwrap();
    assert(g2.history.drop_last() =~= g.history);
    let pv = g.piles[p as int];
    let removed = pv.visible.skip(ti as int);
    assert(removed.len() == n);
    let pr = pile_after_removal(pv, ti as int);
    let qv = g.piles[q as int];
    assert(g2.piles[p as int] == pr);
    assert(g2.piles[q as int] == pile_push(qv, removed));
    let vq = g2.piles[q as int].visible.len() as int;
    assert(vq == qv.visible.len() + n);
    assert(g2.piles[q as int].visible.skip(vq - n) =~= removed);
    assert(g2.piles[q as int].visible.take(vq - n) =~= qv.visible);
    // the undo first takes the run back off the destination pile
    let g1 = GameView {
        piles: g2.piles.update(
            q as int,
            PileView {
                hidden: g2.piles[q as int].hidden,
                visible: g2.piles[q as int].visible.take(vq - n),
            },
        ),
        history: g.history,
        ..g2
    };
    assert(g1.piles[q as int] =~~= qv);
    assert(g1.piles[p as int] == pr);
    // then the re-hide check and the push restore the source pile
    lemma_pile_removal_restore(pv, ti as int);
    let grh = rehidden(g1, p as int, ti as int);
    let gfin = GameView {
        piles: grh.piles.update(p as int, pile_push(grh.piles[p as int], removed)),
        ..grh
    };
    assert(gfin.piles[p as int] == pv);
    assert(undo_step(g2) == gfin);
    assert(gfin.piles =~= g.piles);
    assert(gfin =~~= g);
}

/// Undoing a pile-to-foundation move lowers the foundation one step,
/// re-hides an uncovered card, and restores the source pile exactly.
proof fn lemma_roundtrip_from_pile_foundation(g: GameView, p: usize, ti: usize)
    requires
        (p as int) < g.piles.len(),
        (ti as int) < g.piles[p as int].visible.len(),
        ti as int == g.piles[p as int].visible.len() - 1,
        ({
            let c = g.piles[p as int].visible[ti as int];
            match g.foundations.spec_level(c.suit) {
                None => c.rank == Rank::Ace,
                Some(r) => c.rank.spec_index() == r.spec_index() + 1,
            }
        }),
    ensures
        ({
            let c = g.piles[p as int].visible[ti as int];
            let src = MoveSrc::FromPile { pile_index: p, n_cards: 1, target_card_index: ti };
            let m = Move::CardMove { card: c, src, dest: MoveDest::ToFoundation(c.suit) };
            &&& step(g, m) is Some
            &&& undo_step(step(g, m).unwrap()) == g
        }),
{
    let c = g.piles[p as int].visible[ti as int];
    let s = c.suit;
    let src = MoveSrc::FromPile { pile_index: p, n_cards: 1, target_card_index: ti };
    let m = Move::CardMove { card: c, src, dest: MoveDest::ToFoundation(s) };
    let g2 = step(g, m).unwrap();
    assert(g2.history.drop_last() =~= g.history);
    let pv = g.piles[p as int];
    let removed = pv.visible.skip(ti as int);
    assert(removed =~= seq![c]);
    let pr = pile_after_removal(pv, ti as int);
    assert(g2.piles[p as int] == pr);
    assert(g2.foundations.spec_level(s) == Some(c.rank));
    assert(Card { suit: s, rank: c.rank } == c);
    // the foundation level descends to exactly where it was
    match g.foundations.spec_level(s) {
        None => {
            assert(c.rank == Rank::Ace);
            assert(c.rank.spec_pred() is None);
            lemma_with_level_same(g.foundations, s);
        },
        Some(r) => {
            assert(c.rank.spec_index() == r.spec_index() + 1);
            lemma_rank_index_roundtrip(r);
            assert(c.rank.spec_pred() == Some(r));
            lemma_with_level_same(g.foundations, s);
        },
    }
    assert(g2.foundations.spec_with_level(s, c.rank.spec_pred()) == g.foundations);
    let g1 = GameView { foundations: g.foundations, history: g.history, ..g2 };
    // the re-hide check and the push restore the source pile
    lemma_pile_removal_restore(pv, ti as int);
    let grh = rehidden(g1, p as int, ti as int);
    let gfin = GameView {
        piles: grh.piles.update(
            p as int,
            pile_push(grh.piles[p as int], seq![Card { suit: s, rank: c.rank }]),
        ),
        ..grh
    };
    assert(pile_push(grh.piles[p as int], seq![Card { suit: s, rank: c.rank }]) == pile_push(
        grh.piles[p as int],
        removed,
    ));
    assert(gfin.piles[p as int] == pv);
    assert(undo_step(g2) == gfin);
    assert(gfin.piles =~= g.piles);
    assert(gfin =~~= g);
}

/// Each legal foundation placement raises exactly the placed card's suit,
/// to exactly that card's rank, one step up the ascending run: an Ace
/// lands on an empty slot, any other card directly on its predecessor;
/// every other suit keeps its level. Together with the one-step descent of
/// `pop_foundation` under undo, foundations move only one rank at a time.
pub proof fn lemma_foundation_builds_upward(g: GameView, t: MouseTarget, m: Move, s: Suit)
    requires
        target_ok(g, t),
        is_candidate(g, t, m),
        foundation_move_sane(g, m),
        match m {
            Move::CardMove { dest, .. } => dest == MoveDest::ToFoundation(s),
            Move::CycleStock => false,
        },
    ensures
        step(g, m) is Some,
        match m {
            Move::CardMove { card, .. } => {
                let g2 = step(g, m).unwrap();
                &&& g2.foundations.spec_level(s) == Some(card.rank)
                &&& match g.foundations.spec_level(s) {
                    None => card.rank == Rank::Ace,
                    Some(r) => card.rank.spec_index() == r.spec_index() + 1,
                }
                &&& forall|s2: Suit|
                    s2 != s ==> g2.foundations.spec_level(s2) == g.foundations.spec_level(s2)
            },
            Move::CycleStock => true,
        },
{
    match t {
        MouseTarget::StockTop => {
            let c = g.stock[0];
            if exists|i: int|
                0 <= i < g.piles.len() && #[trigger] pile_dest_ok(g, c, i, true) && m
                    == mk_pile_move(c, MoveSrc::FromStock, i) {
                let i = choose|i: int|
                    0 <= i < g.piles.len() && #[trigger] pile_dest_ok(g, c, i, true) && m
                        == mk_pile_move(c, MoveSrc::FromStock, i);
                assert(false);
            }
        },
        MouseTarget::Foundation(fs) => {
            let r = g.foundations.spec_level(fs).unwrap();
            let c = Card { suit: fs, rank: r };
            let i = choose|i: int|
                0 <= i < g.piles.len() && #[trigger] pile_dest_ok(g, c, i, false) && m
                    == mk_pile_move(c, MoveSrc::FromFoundation(fs), i);
            assert(false);
        },
        MouseTarget::PileCard { pile_index, n_cards, target_card, target_card_index, .. } => {
            let src = MoveSrc::FromPile { pile_index, n_cards, target_card_index };
            let c = target_card;
            if exists|i: int|
                0 <= i < g.piles.len() && i != pile_index && #[trigger] pile_dest_ok(g, c, i, true)
                    && m == mk_pile_move(c, src, i) {
                let i = choose|i: int|
                    0 <= i < g.piles.len() && i != pile_index && #[trigger] pile_dest_ok(
                        g,
                        c,
                        i,
                        true,
                    ) && m == mk_pile_move(c, src, i);
                assert(false);
            }
        },
        _ => {},
    }
}

/// Success is owed: every move the calculator enumerates for a target
/// that hit-testing produced does apply - the executor accepts it and
/// performs the step.
pub proof fn lemma_candidates_apply(g: GameView, t: MouseTarget, m: Move)
    requires
        g.piles.len() <= usize::MAX,
        target_ok(g, t),
        candidate_seq(g, t).contains(m),
    ensures
        step(g, m) is Some,
{
    lemma_candidates_exact(g, t, m);
    match t {
        MouseTarget::StockTop => {
            let c = g.stock[0];
            if !(foundation_move_ok(g, c) && m == (Move::CardMove {
                card: c,
                src: MoveSrc::FromStock,
                dest: MoveDest::ToFoundation(c.suit),
            })) {
                let i = choose|i: int|
                    0 <= i < g.piles.len() && #[trigger] pile_dest_ok(g, c, i, true) && m
                        == mk_pile_move(c, MoveSrc::FromStock, i);
                assert(m == mk_pile_move(c, MoveSrc::FromStock, i));
            }
        },
        MouseTarget::StockDeck => {},
        MouseTarget::Foundation(s) => {
            let r = g.foundations.spec_level(s).unwrap();
            let c = Card { suit: s, rank: r };
            let i = choose|i: int|
                0 <= i < g.piles.len() && #[trigger] pile_dest_ok(g, c, i, false) && m
                    == mk_pile_move(c, MoveSrc::FromFoundation(s), i);
            assert(m == mk_pile_move(c, MoveSrc::FromFoundation(s), i));
        },
        MouseTarget::EmptyPile(_) => {},
        MouseTarget::PileCard { pile_index, n_cards, target_card, target_card_index, .. } => {
            let src = MoveSrc::FromPile { pile_index, n_cards, target_card_index };
            let c = target_card;
            if m != (Move::CardMove { card: c, src, dest: MoveDest::ToFoundation(c.suit) }) {
                let i = choose|i: int|
                    0 <= i < g.piles.len() && i != pile_index && #[trigger] pile_dest_ok(
                        g,
                        c,
                        i,
                        true,
                    ) && m == mk_pile_move(c, src, i);
                assert(m == mk_pile_move(c, src, i));
            }
        },
    }
}

/// Round trip: executing any legal candidate move and undoing it restores
/// the board exactly - stock order, hidden/visible splits (auto-flips
/// reversed), foundation levels, history and pending state all included.
/// The target must be one hit-testing produced, the move one of that
/// target's candidates; the sanity premise on foundation-bound moves holds
/// of every reachable board.
pub proof fn lemma_undo_reverses_execute(g: GameView, t: MouseTarget, m: Move)
    requires
        g.piles.len() <= usize::MAX,
        target_ok(g, t),
        candidate_seq(g, t).contains(m),
        foundation_move_sane(g, m),
    ensures
        step(g, m) is Some,
        undo_step(step(g, m).unwrap()) == g,
{
    lemma_candidates_exact(g, t, m);
    assert(is_candidate(g, t, m));
    match t {
        MouseTarget::StockTop => {
            let c = g.stock[0];
            if foundation_move_ok(g, c) && m == (Move::CardMove {
                card: c,
                src: MoveSrc::FromStock,
                dest: MoveDest::ToFoundation(c.suit),
            }) {
                lemma_roundtrip_from_stock_foundation(g);
            } else {
                let i = choose|i: int|
                    0 <= i < g.piles.len() && #[trigger] pile_dest_ok(g, c, i, true) && m
                        == mk_pile_move(c, MoveSrc::FromStock, i);
                lemma_roundtrip_from_stock_pile(g, i as usize);
            }
        },
        MouseTarget::StockDeck => {
            lemma_roundtrip_cycle(g);
        },
        MouseTarget::Foundation(s) => {
            let r = g.foundations.spec_level(s).unwrap();
            let c = Card { suit: s, rank: r };
            let i = choose|i: int|
                0 <= i < g.piles.len() && #[trigger] pile_dest_ok(g, c, i, false) && m
                    == mk_pile_move(c, MoveSrc::FromFoundation(s), i);
            lemma_roundtrip_from_foundation(g, s, i as usize);
        },
        MouseTarget::EmptyPile(_) => {
            assert(false);
        },
        MouseTarget::PileCard { pile_index, n_cards, target_card, target_card_index, .. } => {
            let src = MoveSrc::FromPile { pile_index, n_cards, target_card_index };
            let c = target_card;
            if m == (Move::CardMove { card: c, src, dest: MoveDest::ToFoundation(c.suit) }) {
                // a foundation-bound candidate: an Ace, or the run's next card
                assert(n_cards == 1);
                assert(target_card_index as int == g.piles[pile_index as int].visible.len() - 1);
                if c.rank == Rank::Ace {
                    assert(g.foundations.spec_level(c.suit) is None);
                } else {
                    assert(foundation_pred_ok(g, c));
                }
                lemma_roundtrip_from_pile_foundation(g, pile_index, target_card_index);
            } else {
                let i = choose|i: int|
                    0 <= i < g.piles.len() && i != pile_index && #[trigger] pile_dest_ok(
                        g,
                        c,
                        i,
                        true,
                    ) && m == mk_pile_move(c, src, i);
                lemma_roundtrip_from_pile_pile(
                    g,
                    pile_index,
                    target_card_index,
                    n_cards,
                    i as usize,
                );
            }
        },
    }
}

} // verus!
