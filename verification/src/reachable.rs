//! The invariant every reachable board satisfies - each of the 52 cards
//! exists exactly once across stock, piles and foundations, and visible
//! runs stack downward - and what it grants the move rules.

use vstd::prelude::*;
use crate::calc::{candidate_seq, is_candidate, pile_dest_ok};
use crate::cards::{full_deck, rank_order, suit_run, Card, Rank, Suit};
use crate::execute::step;
use crate::game::{board_cards, piles_cards, Foundations, GameView};
use crate::hit::target_ok;
use crate::laws::foundation_move_sane;
use crate::moves::{MouseTarget, Move, MoveDest, MoveSrc};
use crate::pile::PileView;

verus! {

/// The cards a foundation at level `l` holds: every rank of the suit from
/// the Ace up to `l`.
pub open spec fn foundation_prefix(s: Suit, l: Option<Rank>) -> Seq<Card> {
    match l {
        None => Seq::empty(),
        Some(r) => Seq::new(
            (r.spec_index() + 1) as nat,
            |i: int| Card { suit: s, rank: Rank::spec_from_index(i) },
        ),
    }
}

/// Every card the four foundations hold.
pub open spec fn foundation_cards(f: Foundations) -> Seq<Card> {
    foundation_prefix(Suit::Diamonds, f.diamonds) + foundation_prefix(Suit::Clubs, f.clubs)
        + foundation_prefix(Suit::Hearts, f.hearts) + foundation_prefix(Suit::Spades, f.spades)
}

/// A pile's visible cards stack downward: each card sits on the next by
/// the alternating-colour rule. The bottom visible card is unconstrained
/// (it was dealt, flipped, or is a King on an emptied pile).
pub open spec fn pile_stacked(p: PileView) -> bool {
    forall|i: int|
        0 <= i < p.visible.len() - 1 ==> Card::spec_can_pile_onto(
            #[trigger] p.visible[i + 1],
            p.visible[i],
        )
}

/// What every board reachable from a fresh deal satisfies: seven piles,
/// each of the deck's 52 cards on the board exactly once - in the stock,
/// in a pile, or buried in a foundation - and every visible run stacked.
pub open spec fn wf_board(g: GameView) -> bool {
    &&& g.piles.len() == 7
    &&& (board_cards(g) + foundation_cards(g.foundations)).to_multiset()
        == full_deck().to_multiset()
    &&& forall|p: int| 0 <= p < g.piles.len() ==> pile_stacked(#[trigger] g.piles[p])
}

/// The ranks Ace..King are pairwise distinct.
proof fn lemma_rank_order_distinct()
    ensures
        rank_order().no_duplicates(),
{
    assert forall|i: int, j: int|
        0 <= i < rank_order().len() && 0 <= j < rank_order().len() && i != j implies rank_order()[i]
        != rank_order()[j] by {
        assert(rank_order()[i].spec_index() == i);
        assert(rank_order()[j].spec_index() == j);
    }
}

/// The canonical deck lists each card exactly once.
pub proof fn lemma_full_deck_count(c: Card)
    ensures
        full_deck().to_multiset().count(c) == 1,
{
    broadcast use vstd::seq_lib::group_to_multiset_ensures;
    broadcast use vstd::multiset::group_multiset_axioms;

    lemma_rank_order_distinct();
    assert(full_deck().no_duplicates()) by {
        assert forall|i: int, j: int|
            0 <= i < full_deck().len() && 0 <= j < full_deck().len() && i != j implies full_deck()[i]
            != full_deck()[j] by {
            lemma_full_deck_card_at(i);
            lemma_full_deck_card_at(j);
            if i / 13 == j / 13 {
                assert(i % 13 != j % 13) by {
                    vstd::arithmetic::div_mod::lemma_fundamental_div_mod(i, 13);
                    vstd::arithmetic::div_mod::lemma_fundamental_div_mod(j, 13);
                };
                assert(full_deck()[i].rank.spec_index() == i % 13);
                assert(full_deck()[j].rank.spec_index() == j % 13);
            }
        }
    }
    assert(full_deck().contains(c)) by {
        let k: int = 13 * c.suit.spec_foundation_offset() + c.rank.spec_index();
        lemma_full_deck_card_at(k);
        assert(k / 13 == c.suit.spec_foundation_offset() && k % 13 == c.rank.spec_index()) by {
            vstd::arithmetic::div_mod::lemma_fundamental_div_mod_converse(
                k,
                13,
                c.suit.spec_foundation_offset(),
                c.rank.spec_index(),
            );
        };
        assert(full_deck()[k] == c);
    }
    full_deck().lemma_multiset_has_no_duplicates();
    assert(full_deck().to_multiset().count(c) > 0);
}

/// A concatenation holds a card exactly when one of its parts does.
proof fn lemma_cat_contains(a: Seq<Card>, b: Seq<Card>, c: Card)
    ensures
        (a + b).contains(c) <==> a.contains(c) || b.contains(c),
{
    if (a + b).contains(c) {
        let j = choose|j: int| 0 <= j < (a + b).len() && (a + b)[j] == c;
        if j < a.len() {
            assert(a[j] == c);
        } else {
            assert(b[j - a.len()] == c);
        }
    }
    if a.contains(c) {
        let j = choose|j: int| 0 <= j < a.len() && a[j] == c;
        assert((a + b)[j] == c);
    }
    if b.contains(c) {
        let j = choose|j: int| 0 <= j < b.len() && b[j] == c;
        assert((a + b)[a.len() + j] == c);
    }
}

/// A card of pile `p` is among the piles' cards.
proof fn lemma_piles_cards_contains(piles: Seq<PileView>, p: int, c: Card)
    requires
        0 <= p < piles.len(),
        piles[p].hidden.contains(c) || piles[p].visible.contains(c),
    ensures
        piles_cards(piles).contains(c),
    decreases piles.len(),
{
    let head = piles[0].hidden + piles[0].visible;
    if p == 0 {
        lemma_cat_contains(piles[0].hidden, piles[0].visible, c);
        lemma_cat_contains(head, piles_cards(piles.drop_first()), c);
    } else {
        lemma_piles_cards_contains(piles.drop_first(), p - 1, c);
        lemma_cat_contains(head, piles_cards(piles.drop_first()), c);
    }
}

/// A filled foundation holds its suit's Ace.
proof fn lemma_foundation_contains_ace(f: Foundations, s: Suit)
    requires
        f.spec_level(s) is Some,
    ensures
        foundation_cards(f).contains(Card { suit: s, rank: Rank::Ace }),
{
    let c = Card { suit: s, rank: Rank::Ace };
    let pre = foundation_prefix(s, f.spec_level(s));
    assert(pre[0] == c);
    assert(pre.contains(c));
    let pd = foundation_prefix(Suit::Diamonds, f.diamonds);
    let pc = foundation_prefix(Suit::Clubs, f.clubs);
    let ph = foundation_prefix(Suit::Hearts, f.hearts);
    let ps = foundation_prefix(Suit::Spades, f.spades);
    lemma_cat_contains(pd, pc, c);
    lemma_cat_contains(pd + pc, ph, c);
    lemma_cat_contains(pd + pc + ph, ps, c);
}

/// On a well-formed board the candidate rules only propose what the
/// sanity premises of the round-trip and foundation lemmas state: an Ace
/// goes to a foundation only while that foundation is empty (the Ace
/// cannot be both on the board and buried there), and a card leaves a
/// pile for a foundation only alone (nothing can stack on a visible Ace,
/// and the explicit rule demands a single card otherwise).
pub proof fn lemma_wf_implies_sane(g: GameView, t: MouseTarget, m: Move)
    requires
        wf_board(g),
        target_ok(g, t),
        is_candidate(g, t, m),
    ensures
        foundation_move_sane(g, m),
{
    broadcast use vstd::seq_lib::group_to_multiset_ensures;
    broadcast use vstd::multiset::group_multiset_axioms;

    match m {
        Move::CardMove { card, src, dest } => {
            match dest {
                MoveDest::ToFoundation(s) => {
                    match t {
                        MouseTarget::StockTop => {
                            let c = g.stock[0];
                            if exists|i: int|
                                0 <= i < g.piles.len() && #[trigger] pile_dest_ok(g, c, i, true)
                                    && m == crate::calc::mk_pile_move(c, MoveSrc::FromStock, i) {
                                let i = choose|i: int|
                                    0 <= i < g.piles.len() && #[trigger] pile_dest_ok(g, c, i, true)
                                        && m == crate::calc::mk_pile_move(
                                        c,
                                        MoveSrc::FromStock,
                                        i,
                                    );
                                assert(false);
                            }
                            assert(card == c && s == c.suit);
                            if card.rank == Rank::Ace && g.foundations.spec_level(s) is Some {
                                // the Ace would exist twice: on the stock
                                // and buried in its foundation
                                assert(g.stock.contains(card));
                                lemma_cat_contains(g.stock, piles_cards(g.piles), card);
                                assert(board_cards(g).contains(card));
                                lemma_foundation_contains_ace(g.foundations, s);
                                assert(Card { suit: s, rank: Rank::Ace } == card);
                                vstd::seq_lib::lemma_multiset_commutative(
                                    board_cards(g),
                                    foundation_cards(g.foundations),
                                );
                                lemma_full_deck_count(card);
                                assert(board_cards(g).to_multiset().count(card) >= 1);
                                assert(foundation_cards(g.foundations).to_multiset().count(card)
                                    >= 1);
                                assert(false);
                            }
                        },
                        MouseTarget::Foundation(fs) => {
                            let r = g.foundations.spec_level(fs).unwrap();
                            let c = Card { suit: fs, rank: r };
                            let i = choose|i: int|
                                0 <= i < g.piles.len() && #[trigger] pile_dest_ok(g, c, i, false)
                                    && m == crate::calc::mk_pile_move(
                                    c,
                                    MoveSrc::FromFoundation(fs),
                                    i,
                                );
                            assert(false);
                        },
                        MouseTarget::PileCard {
                            pile_index,
                            n_cards,
                            target_card,
                            target_card_index,
                            ..
                        } => {
                            let msrc = MoveSrc::FromPile {
                                pile_index,
                                n_cards,
                                target_card_index,
                            };
                            let c = target_card;
                            if exists|i: int|
                                0 <= i < g.piles.len() && i != pile_index
                                    && #[trigger] pile_dest_ok(g, c, i, true) && m
                                    == crate::calc::mk_pile_move(c, msrc, i) {
                                let i = choose|i: int|
                                    0 <= i < g.piles.len() && i != pile_index
                                        && #[trigger] pile_dest_ok(g, c, i, true) && m
                                        == crate::calc::mk_pile_move(c, msrc, i);
                                assert(false);
                            }
                            assert(card == c && s == c.suit && src == msrc);
                            let p = pile_index as int;
                            let ti = target_card_index as int;
                            assert(c == g.piles[p].visible[ti]);
                            if c.rank == Rank::Ace {
                                // nothing stacks on an Ace, so the run it
                                // heads reaches the top: one card
                                if ti < g.piles[p].visible.len() - 1 {
                                    assert(pile_stacked(g.piles[p]));
                                    assert(Card::spec_can_pile_onto(
                                        g.piles[p].visible[ti + 1],
                                        g.piles[p].visible[ti],
                                    ));
                                    assert(false);
                                }
                                assert(n_cards == 1);
                                if g.foundations.spec_level(s) is Some {
                                    // the Ace would exist twice: in the
                                    // pile and buried in its foundation
                                    assert(g.piles[p].visible.contains(c));
                                    lemma_piles_cards_contains(g.piles, p, c);
                                    lemma_cat_contains(g.stock, piles_cards(g.piles), c);
                                    assert(board_cards(g).contains(c));
                                    lemma_foundation_contains_ace(g.foundations, s);
                                    vstd::seq_lib::lemma_multiset_commutative(
                                        board_cards(g),
                                        foundation_cards(g.foundations),
                                    );
                                    lemma_full_deck_count(c);
                                    assert(board_cards(g).to_multiset().count(c) >= 1);
                                    assert(foundation_cards(
                                        g.foundations,
                                    ).to_multiset().count(c) >= 1);
                                    assert(false);
                                }
                            } else {
                                assert(n_cards == 1);
                            }
                        },
                        _ => {
                            assert(false);
                        },
                    }
                },
                MoveDest::ToPile(_) => {},
            }
        },
        Move::CycleStock => {},
    }
}

/// Replacing pile `i` trades exactly that pile's cards for the new ones;
/// stated additively so no multiset subtraction is needed.
proof fn lemma_piles_cards_update(piles: Seq<PileView>, i: int, pv: PileView)
    requires
        0 <= i < piles.len(),
    ensures
        piles_cards(piles.update(i, pv)).to_multiset().add(
            (piles[i].hidden + piles[i].visible).to_multiset(),
        ) == piles_cards(piles).to_multiset().add((pv.hidden + pv.visible).to_multiset()),
    decreases piles.len(),
{
    broadcast use vstd::multiset::group_multiset_axioms;

    let upd = piles.update(i, pv);
    let head_old = piles[0].hidden + piles[0].visible;
    vstd::seq_lib::lemma_multiset_commutative(head_old, piles_cards(piles.drop_first()));
    if i == 0 {
        assert(upd.drop_first() =~= piles.drop_first());
        let head_new = pv.hidden + pv.visible;
        assert(piles_cards(upd) == head_new + piles_cards(upd.drop_first()));
        vstd::seq_lib::lemma_multiset_commutative(head_new, piles_cards(piles.drop_first()));
        assert(piles_cards(upd).to_multiset().add(head_old.to_multiset())
            =~= piles_cards(piles).to_multiset().add(head_new.to_multiset()));
    } else {
        lemma_piles_cards_update(piles.drop_first(), i - 1, pv);
        assert(upd.drop_first() =~= piles.drop_first().update(i - 1, pv));
        assert(upd[0] == piles[0]);
        assert(piles.drop_first()[i - 1] == piles[i]);
        assert(piles_cards(upd) == head_old + piles_cards(upd.drop_first()));
        vstd::seq_lib::lemma_multiset_commutative(head_old, piles_cards(upd.drop_first()));
        let h = head_old.to_multiset();
        let a = piles_cards(upd.drop_first()).to_multiset();
        let b = piles_cards(piles.drop_first()).to_multiset();
        let oldi = (piles[i].hidden + piles[i].visible).to_multiset();
        let newi = (pv.hidden + pv.visible).to_multiset();
        assert(a.add(oldi) == b.add(newi));
        assert(piles_cards(upd).to_multiset() == h.add(a));
        assert(piles_cards(piles).to_multiset() == h.add(b));
        assert(h.add(a).add(oldi) =~= h.add(b).add(newi)) by {
            assert forall|x: Card| #[trigger] h.add(a).add(oldi).count(x) == h.add(b).add(
                newi,
            ).count(x) by {
                assert(a.add(oldi).count(x) == b.add(newi).count(x));
            }
        }
    }
}

/// The board multiset split into its three parts.
proof fn lemma_all_cards_split(g: GameView)
    ensures
        (board_cards(g) + foundation_cards(g.foundations)).to_multiset() == g.stock.to_multiset()
            .add(piles_cards(g.piles).to_multiset()).add(
            foundation_cards(g.foundations).to_multiset(),
        ),
{
    broadcast use vstd::multiset::group_multiset_axioms;

    vstd::seq_lib::lemma_multiset_commutative(g.stock, piles_cards(g.piles));
    vstd::seq_lib::lemma_multiset_commutative(board_cards(g), foundation_cards(g.foundations));
}

/// Raising a foundation one legal step adds exactly the placed card.
proof fn lemma_prefix_extend(s: Suit, l: Option<Rank>, c: Card)
    requires
        c.suit == s,
        match l {
            None => c.rank == Rank::Ace,
            Some(r) => c.rank.spec_index() == r.spec_index() + 1,
        },
    ensures
        foundation_prefix(s, Some(c.rank)) =~= foundation_prefix(s, l) + seq![c],
{
    let new = foundation_prefix(s, Some(c.rank));
    assert(Rank::spec_from_index(c.rank.spec_index()) == c.rank);
    match l {
        None => {
            assert(new.len() == 1);
            assert(new[0] == c);
        },
        Some(r) => {
            assert(new.len() == r.spec_index() + 2);
            assert(new[r.spec_index() + 1] == c);
        },
    }
}

/// Replacing one suit's level trades exactly that prefix; additive form.
proof fn lemma_foundation_cards_update(f: Foundations, s: Suit, l: Option<Rank>)
    ensures
        foundation_cards(f.spec_with_level(s, l)).to_multiset().add(
            foundation_prefix(s, f.spec_level(s)).to_multiset(),
        ) == foundation_cards(f).to_multiset().add(foundation_prefix(s, l).to_multiset()),
{
    broadcast use vstd::multiset::group_multiset_axioms;

    let f2 = f.spec_with_level(s, l);
    let pd = foundation_prefix(Suit::Diamonds, f.diamonds);
    let pc = foundation_prefix(Suit::Clubs, f.clubs);
    let ph = foundation_prefix(Suit::Hearts, f.hearts);
    let ps = foundation_prefix(Suit::Spades, f.spades);
    let qd = foundation_prefix(Suit::Diamonds, f2.diamonds);
    let qc = foundation_prefix(Suit::Clubs, f2.clubs);
    let qh = foundation_prefix(Suit::Hearts, f2.hearts);
    let qs = foundation_prefix(Suit::Spades, f2.spades);
    vstd::seq_lib::lemma_multiset_commutative(pd, pc);
    vstd::seq_lib::lemma_multiset_commutative(pd + pc, ph);
    vstd::seq_lib::lemma_multiset_commutative(pd + pc + ph, ps);
    vstd::seq_lib::lemma_multiset_commutative(qd, qc);
    vstd::seq_lib::lemma_multiset_commutative(qd + qc, qh);
    vstd::seq_lib::lemma_multiset_commutative(qd + qc + qh, qs);
    match s {
        Suit::Diamonds => {
            assert(foundation_cards(f2).to_multiset().add(pd.to_multiset())
                =~= foundation_cards(f).to_multiset().add(qd.to_multiset()));
        },
        Suit::Clubs => {
            assert(foundation_cards(f2).to_multiset().add(pc.to_multiset())
                =~= foundation_cards(f).to_multiset().add(qc.to_multiset()));
        },
        Suit::Hearts => {
            assert(foundation_cards(f2).to_multiset().add(ph.to_multiset())
                =~= foundation_cards(f).to_multiset().add(qh.to_multiset()));
        },
        Suit::Spades => {
            assert(foundation_cards(f2).to_multiset().add(ps.to_multiset())
                =~= foundation_cards(f).to_multiset().add(qs.to_multiset()));
        },
    }
}

/// Removing a run leaves a pile with exactly its remaining cards: an
/// auto-flip moves a card between the two sequences but loses none.
proof fn lemma_removal_cards(pv: PileView, ti: int)
    requires
        0 <= ti <= pv.visible.len(),
    ensures
        ({
            let pr = crate::execute::pile_after_removal(pv, ti);
            (pv.hidden + pv.visible).to_multiset() == (pr.hidden + pr.visible).to_multiset().add(
                pv.visible.skip(ti).to_multiset(),
            )
        }),
{
    broadcast use vstd::multiset::group_multiset_axioms;

    let pr = crate::execute::pile_after_removal(pv, ti);
    let removed = pv.visible.skip(ti);
    vstd::seq_lib::lemma_multiset_commutative(pv.hidden, pv.visible);
    vstd::seq_lib::lemma_multiset_commutative(pr.hidden, pr.visible);
    if ti == 0 && pv.hidden.len() > 0 {
        assert(removed =~= pv.visible);
        assert(pr.hidden + pr.visible =~= pv.hidden.drop_last() + seq![pv.hidden.last()]);
        assert(pv.hidden.drop_last() + seq![pv.hidden.last()] =~= pv.hidden);
        assert((pv.hidden + pv.visible).to_multiset() =~= (pr.hidden
            + pr.visible).to_multiset().add(removed.to_multiset()));
    } else if ti == 0 {
        assert(removed =~= pv.visible);
        assert(pr.visible =~= Seq::<Card>::empty());
        assert(pr.hidden + pr.visible =~= pv.hidden);
        assert((pv.hidden + pv.visible).to_multiset() =~= (pr.hidden
            + pr.visible).to_multiset().add(removed.to_multiset()));
    } else {
        assert(pr.hidden == pv.hidden && pr.visible == pv.visible.subrange(0, ti));
        vstd::seq_lib::lemma_multiset_commutative(pv.visible.subrange(0, ti), removed);
        assert(pv.visible.subrange(0, ti) + removed =~= pv.visible);
        assert((pv.hidden + pv.visible).to_multiset() =~= (pr.hidden
            + pr.visible).to_multiset().add(removed.to_multiset()));
    }
}

/// Laying a stacked run onto a fitting destination keeps the pile
/// stacked.
proof fn lemma_push_keeps_stacked(dst: PileView, run: Seq<Card>)
    requires
        pile_stacked(dst),
        forall|j: int| 0 <= j < run.len() - 1 ==> Card::spec_can_pile_onto(#[trigger] run[j + 1], run[j]),
        dst.visible.len() > 0 && run.len() > 0 ==> Card::spec_can_pile_onto(
            run[0],
            dst.visible.last(),
        ),
    ensures
        pile_stacked(crate::execute::pile_push(dst, run)),
{
    let np = crate::execute::pile_push(dst, run);
    let dv = dst.visible;
    assert(np.visible == dv + run);
    assert forall|i: int|
        0 <= i < np.visible.len() - 1 implies Card::spec_can_pile_onto(
        #[trigger] np.visible[i + 1],
        np.visible[i],
    ) by {
        if i + 1 < dv.len() {
            assert(np.visible[i] == dv[i] && np.visible[i + 1] == dv[i + 1]);
            assert(Card::spec_can_pile_onto(dv[i + 1], dv[i]));
        } else if i + 1 == dv.len() {
            assert(np.visible[i] == dv[i] && np.visible[i + 1] == run[0]);
            assert(dv[i] == dv.last());
        } else {
            let j = i - dv.len();
            assert(np.visible[i] == run[j] && np.visible[i + 1] == run[j + 1]);
            assert(Card::spec_can_pile_onto(run[j + 1], run[j]));
        }
    }
}

/// A run taken off the top of a stacked pile is itself stacked, and what
/// remains after the removal is stacked too.
proof fn lemma_removal_keeps_stacked(pv: PileView, ti: int)
    requires
        pile_stacked(pv),
        0 <= ti <= pv.visible.len(),
    ensures
        pile_stacked(crate::execute::pile_after_removal(pv, ti)),
        forall|j: int|
            0 <= j < pv.visible.skip(ti).len() - 1 ==> Card::spec_can_pile_onto(
                #[trigger] pv.visible.skip(ti)[j + 1],
                pv.visible.skip(ti)[j],
            ),
{
    let pr = crate::execute::pile_after_removal(pv, ti);
    assert(pr.visible.len() <= 1 || pr.visible == pv.visible.subrange(0, ti));
    assert forall|i: int|
        0 <= i < pr.visible.len() - 1 implies Card::spec_can_pile_onto(
        #[trigger] pr.visible[i + 1],
        pr.visible[i],
    ) by {
        assert(pr.visible[i] == pv.visible[i] && pr.visible[i + 1] == pv.visible[i + 1]);
    }
    assert forall|j: int|
        0 <= j < pv.visible.skip(ti).len() - 1 implies Card::spec_can_pile_onto(
        #[trigger] pv.visible.skip(ti)[j + 1],
        pv.visible.skip(ti)[j],
    ) by {
        assert(pv.visible.skip(ti)[j] == pv.visible[ti + j]);
        assert(pv.visible.skip(ti)[j + 1] == pv.visible[ti + j + 1]);
    }
}

/// Cycling the stock only reorders it.
proof fn preserve_cycle(g: GameView)
    requires
        wf_board(g),
        g.stock.len() > 1,
    ensures
        wf_board(step(g, Move::CycleStock).unwrap()),
{
    broadcast use vstd::multiset::group_multiset_axioms;

    let g2 = step(g, Move::CycleStock).unwrap();
    lemma_all_cards_split(g);
    lemma_all_cards_split(g2);
    let s0 = g.stock[0];
    assert(g2.stock =~= g.stock.drop_first() + seq![s0]);
    assert(g.stock =~= seq![s0] + g.stock.drop_first());
    vstd::seq_lib::lemma_multiset_commutative(g.stock.drop_first(), seq![s0]);
    vstd::seq_lib::lemma_multiset_commutative(seq![s0], g.stock.drop_first());
    assert(g2.stock.to_multiset() =~= g.stock.to_multiset());
    assert((board_cards(g2) + foundation_cards(g2.foundations)).to_multiset()
        =~= full_deck().to_multiset());
}

/// Laying the stock's front card on a fitting pile moves one card from
/// stock to pile.
proof fn preserve_from_stock_pile(g: GameView, i: usize)
    requires
        wf_board(g),
        g.stock.len() > 0,
        (i as int) < g.piles.len(),
        pile_dest_ok(g, g.stock[0], i as int, true),
    ensures
        wf_board(step(g, crate::calc::mk_pile_move(g.stock[0], MoveSrc::FromStock, i as int)).unwrap()),
{
    broadcast use vstd::multiset::group_multiset_axioms;

    let c = g.stock[0];
    let m = crate::calc::mk_pile_move(c, MoveSrc::FromStock, i as int);
    let g2 = step(g, m).unwrap();
    let pi = g.piles[i as int];
    let np = crate::execute::pile_push(pi, seq![c]);

    // stacking
    lemma_push_keeps_stacked(pi, seq![c]);
    assert forall|p: int| 0 <= p < g2.piles.len() implies pile_stacked(#[trigger] g2.piles[p]) by {
        if p != i as int {
            assert(g2.piles[p] == g.piles[p]);
        }
    }

    // conservation
    lemma_all_cards_split(g);
    lemma_all_cards_split(g2);
    assert(seq![c] + g.stock.drop_first() =~= g.stock);
    vstd::seq_lib::lemma_multiset_commutative(seq![c], g.stock.drop_first());
    lemma_piles_cards_update(g.piles, i as int, np);
    assert(np.hidden + np.visible =~= (pi.hidden + pi.visible) + seq![c]);
    vstd::seq_lib::lemma_multiset_commutative(pi.hidden + pi.visible, seq![c]);
    let cm = seq![c].to_multiset();
    let s_old = g.stock.to_multiset();
    let s_new = g2.stock.to_multiset();
    let p_old = piles_cards(g.piles).to_multiset();
    let p_new = piles_cards(g2.piles).to_multiset();
    let f_all = foundation_cards(g.foundations).to_multiset();
    let oldi = (pi.hidden + pi.visible).to_multiset();
    assert(s_old == cm.add(s_new));
    assert(p_new.add(oldi) == p_old.add(oldi.add(cm)));
    assert((board_cards(g2) + foundation_cards(g2.foundations)).to_multiset()
        =~= full_deck().to_multiset()) by {
        assert forall|x: Card|
            #[trigger] s_new.add(p_new).add(f_all).count(x) == s_old.add(p_old).add(f_all).count(
                x,
            ) by {
            assert(p_new.add(oldi).count(x) == p_old.add(oldi.add(cm)).count(x));
            assert(s_old.count(x) == cm.add(s_new).count(x));
        }
    }
}

/// Filing the stock's front card moves one card from stock to foundation.
proof fn preserve_from_stock_foundation(g: GameView)
    requires
        wf_board(g),
        g.stock.len() > 0,
        crate::calc::foundation_move_ok(g, g.stock[0]),
        g.stock[0].rank == Rank::Ace ==> g.foundations.spec_level(g.stock[0].suit) is None,
    ensures
        wf_board(
            step(
                g,
                Move::CardMove {
                    card: g.stock[0],
                    src: MoveSrc::FromStock,
                    dest: MoveDest::ToFoundation(g.stock[0].suit),
                },
            ).unwrap(),
        ),
{
    broadcast use vstd::multiset::group_multiset_axioms;

    let c = g.stock[0];
    let s = c.suit;
    let m = Move::CardMove { card: c, src: MoveSrc::FromStock, dest: MoveDest::ToFoundation(s) };
    let g2 = step(g, m).unwrap();
    assert(forall|p: int| 0 <= p < g2.piles.len() ==> g2.piles[p] == g.piles[p]);

    lemma_all_cards_split(g);
    lemma_all_cards_split(g2);
    assert(seq![c] + g.stock.drop_first() =~= g.stock);
    vstd::seq_lib::lemma_multiset_commutative(seq![c], g.stock.drop_first());
    lemma_prefix_extend(s, g.foundations.spec_level(s), c);
    lemma_foundation_cards_update(g.foundations, s, Some(c.rank));
    vstd::seq_lib::lemma_multiset_commutative(
        foundation_prefix(s, g.foundations.spec_level(s)),
        seq![c],
    );
    let cm = seq![c].to_multiset();
    let s_old = g.stock.to_multiset();
    let s_new = g2.stock.to_multiset();
    let p_all = piles_cards(g.piles).to_multiset();
    let f_old = foundation_cards(g.foundations).to_multiset();
    let f_new = foundation_cards(g2.foundations).to_multiset();
    let pre_old = foundation_prefix(s, g.foundations.spec_level(s)).to_multiset();
    assert(s_old == cm.add(s_new));
    assert(foundation_prefix(s, Some(c.rank)).to_multiset() == pre_old.add(cm));
    assert(f_new.add(pre_old) == f_old.add(pre_old.add(cm)));
    assert((board_cards(g2) + foundation_cards(g2.foundations)).to_multiset()
        =~= full_deck().to_multiset()) by {
        assert forall|x: Card|
            #[trigger] s_new.add(p_all).add(f_new).count(x) == s_old.add(p_all).add(f_old).count(
                x,
            ) by {
            assert(f_new.add(pre_old).count(x) == f_old.add(pre_old.add(cm)).count(x));
            assert(s_old.count(x) == cm.add(s_new).count(x));
        }
    }
}

/// Returning a foundation's top card to a fitting pile moves one card
/// from foundation to pile.
proof fn preserve_from_foundation_pile(g: GameView, s: Suit, i: usize)
    requires
        wf_board(g),
        g.foundations.spec_level(s) is Some,
        (i as int) < g.piles.len(),
        pile_dest_ok(
            g,
            Card { suit: s, rank: g.foundations.spec_level(s).unwrap() },
            i as int,
            false,
        ),
    ensures
        wf_board(
            step(
                g,
                crate::calc::mk_pile_move(
                    Card { suit: s, rank: g.foundations.spec_level(s).unwrap() },
                    MoveSrc::FromFoundation(s),
                    i as int,
                ),
            ).unwrap(),
        ),
{
    broadcast use vstd::multiset::group_multiset_axioms;

    let r = g.foundations.spec_level(s).unwrap();
    let c = Card { suit: s, rank: r };
    let m = crate::calc::mk_pile_move(c, MoveSrc::FromFoundation(s), i as int);
    let g2 = step(g, m).unwrap();
    let pi = g.piles[i as int];
    let np = crate::execute::pile_push(pi, seq![c]);

    // stacking
    lemma_push_keeps_stacked(pi, seq![c]);
    assert forall|p: int| 0 <= p < g2.piles.len() implies pile_stacked(#[trigger] g2.piles[p]) by {
        if p != i as int {
            assert(g2.piles[p] == g.piles[p]);
        }
    }

    // conservation: the foundation descends to the predecessor level,
    // shedding exactly the card the pile gains
    lemma_all_cards_split(g);
    lemma_all_cards_split(g2);
    match r.spec_pred() {
        None => {},
        Some(r0) => {
            assert(r0 == Rank::spec_from_index(r.spec_index() - 1));
            assert(r0.spec_index() == r.spec_index() - 1);
        },
    }
    lemma_prefix_extend(s, r.spec_pred(), c);
    lemma_foundation_cards_update(g.foundations, s, r.spec_pred());
    vstd::seq_lib::lemma_multiset_commutative(foundation_prefix(s, r.spec_pred()), seq![c]);
    lemma_piles_cards_update(g.piles, i as int, np);
    assert(np.hidden + np.visible =~= (pi.hidden + pi.visible) + seq![c]);
    vstd::seq_lib::lemma_multiset_commutative(pi.hidden + pi.visible, seq![c]);
    let cm = seq![c].to_multiset();
    let s_all = g.stock.to_multiset();
    let p_old = piles_cards(g.piles).to_multiset();
    let p_new = piles_cards(g2.piles).to_multiset();
    let f_old = foundation_cards(g.foundations).to_multiset();
    let f_new = foundation_cards(g2.foundations).to_multiset();
    let pre_new = foundation_prefix(s, r.spec_pred()).to_multiset();
    let oldi = (pi.hidden + pi.visible).to_multiset();
    assert(foundation_prefix(s, Some(r)).to_multiset() == pre_new.add(cm));
    assert(f_new.add(pre_new.add(cm)) == f_old.add(pre_new));
    assert(p_new.add(oldi) == p_old.add(oldi.add(cm)));
    assert((board_cards(g2) + foundation_cards(g2.foundations)).to_multiset()
        =~= full_deck().to_multiset()) by {
        assert forall|x: Card|
            #[trigger] s_all.add(p_new).add(f_new).count(x) == s_all.add(p_old).add(f_old).count(
                x,
            ) by {
            assert(f_new.add(pre_new.add(cm)).count(x) == f_old.add(pre_new).count(x));
            assert(p_new.add(oldi).count(x) == p_old.add(oldi.add(cm)).count(x));
        }
    }
}

/// Moving a run between piles carries its cards across; an auto-flip
/// keeps the source pile's remaining cards.
proof fn preserve_from_pile_pile(g: GameView, p: usize, ti: usize, n: usize, q: usize)
    requires
        wf_board(g),
        (p as int) < g.piles.len(),
        (ti as int) < g.piles[p as int].visible.len(),
        n as int == g.piles[p as int].visible.len() - ti,
        (q as int) < g.piles.len(),
        q != p,
        pile_dest_ok(g, g.piles[p as int].visible[ti as int], q as int, true),
    ensures
        wf_board(
            step(
                g,
                crate::calc::mk_pile_move(
                    g.piles[p as int].visible[ti as int],
                    MoveSrc::FromPile { pile_index: p, n_cards: n, target_card_index: ti },
                    q as int,
                ),
            ).unwrap(),
        ),
{
    broadcast use vstd::multiset::group_multiset_axioms;

    let c = g.piles[p as int].visible[ti as int];
    let src = MoveSrc::FromPile { pile_index: p, n_cards: n, target_card_index: ti };
    let m = crate::calc::mk_pile_move(c, src, q as int);
    let g2 = step(g, m).unwrap();
    let pv = g.piles[p as int];
    let qv = g.piles[q as int];
    let removed = pv.visible.skip(ti as int);
    let pr = crate::execute::pile_after_removal(pv, ti as int);
    let nq = crate::execute::pile_push(qv, removed);
    let mid = g.piles.update(p as int, pr);
    assert(g2.piles == mid.update(q as int, nq));
    assert(mid[q as int] == qv);

    // stacking: the removed run is stacked and meets the destination top
    lemma_removal_keeps_stacked(pv, ti as int);
    assert(removed[0] == c);
    lemma_push_keeps_stacked(qv, removed);
    assert forall|j: int| 0 <= j < g2.piles.len() implies pile_stacked(#[trigger] g2.piles[j]) by {
        if j == q as int {
            assert(g2.piles[j] == nq);
        } else if j == p as int {
            assert(g2.piles[j] == pr);
        } else {
            assert(g2.piles[j] == g.piles[j]);
        }
    }

    // conservation: pile p sheds the run, pile q gains it
    lemma_all_cards_split(g);
    lemma_all_cards_split(g2);
    lemma_removal_cards(pv, ti as int);
    lemma_piles_cards_update(g.piles, p as int, pr);
    lemma_piles_cards_update(mid, q as int, nq);
    assert(nq.hidden + nq.visible =~= (qv.hidden + qv.visible) + removed);
    vstd::seq_lib::lemma_multiset_commutative(qv.hidden + qv.visible, removed);
    let rm = removed.to_multiset();
    let s_all = g.stock.to_multiset();
    let p_old = piles_cards(g.piles).to_multiset();
    let p_mid = piles_cards(mid).to_multiset();
    let p_new = piles_cards(g2.piles).to_multiset();
    let f_all = foundation_cards(g.foundations).to_multiset();
    let oldp = (pv.hidden + pv.visible).to_multiset();
    let prm = (pr.hidden + pr.visible).to_multiset();
    let oldq = (qv.hidden + qv.visible).to_multiset();
    assert(oldp == prm.add(rm));
    assert(p_mid.add(oldp) == p_old.add(prm));
    assert(p_new.add(oldq) == p_mid.add(oldq.add(rm)));
    assert((board_cards(g2) + foundation_cards(g2.foundations)).to_multiset()
        =~= full_deck().to_multiset()) by {
        assert forall|x: Card|
            #[trigger] s_all.add(p_new).add(f_all).count(x) == s_all.add(p_old).add(f_all).count(
                x,
            ) by {
            assert(p_mid.add(oldp).count(x) == p_old.add(prm).count(x));
            assert(p_new.add(oldq).count(x) == p_mid.add(oldq.add(rm)).count(x));
            assert(oldp.count(x) == prm.add(rm).count(x));
        }
    }
}

/// Filing a pile's top card moves one card from pile to foundation.
proof fn preserve_from_pile_foundation(g: GameView, p: usize, ti: usize)
    requires
        wf_board(g),
        (p as int) < g.piles.len(),
        (ti as int) < g.piles[p as int].visible.len(),
        ti as int == g.piles[p as int].visible.len() - 1,
        ({
            let c = g.piles[p as int].visible[ti as int];
            match g.foundations.spec_level(c.suit) {
                None => c.rank == Rank::Ace,
                Some(r) => c.rank.spec_index() == r.spec_index() + 1,
            }
        }),
    ensures
        wf_board(
            step(
                g,
                Move::CardMove {
                    card: g.piles[p as int].visible[ti as int],
                    src: MoveSrc::FromPile { pile_index: p, n_cards: 1, target_card_index: ti },
                    dest: MoveDest::ToFoundation(g.piles[p as int].visible[ti as int].suit),
                },
            ).unwrap(),
        ),
{
    broadcast use vstd::multiset::group_multiset_axioms;

    let c = g.piles[p as int].visible[ti as int];
    let s = c.suit;
    let src = MoveSrc::FromPile { pile_index: p, n_cards: 1, target_card_index: ti };
    let m = Move::CardMove { card: c, src, dest: MoveDest::ToFoundation(s) };
    let g2 = step(g, m).unwrap();
    let pv = g.piles[p as int];
    let removed = pv.visible.skip(ti as int);
    assert(removed =~= seq![c]);
    let pr = crate::execute::pile_after_removal(pv, ti as int);
    assert(g2.piles == g.piles.update(p as int, pr));

    // stacking
    lemma_removal_keeps_stacked(pv, ti as int);
    assert forall|j: int| 0 <= j < g2.piles.len() implies pile_stacked(#[trigger] g2.piles[j]) by {
        if j != p as int {
            assert(g2.piles[j] == g.piles[j]);
        }
    }

    // conservation: the pile sheds exactly the filed card
    lemma_all_cards_split(g);
    lemma_all_cards_split(g2);
    lemma_removal_cards(pv, ti as int);
    lemma_piles_cards_update(g.piles, p as int, pr);
    lemma_prefix_extend(s, g.foundations.spec_level(s), c);
    lemma_foundation_cards_update(g.foundations, s, Some(c.rank));
    vstd::seq_lib::lemma_multiset_commutative(
        foundation_prefix(s, g.foundations.spec_level(s)),
        seq![c],
    );
    let cm = seq![c].to_multiset();
    let s_all = g.stock.to_multiset();
    let p_old = piles_cards(g.piles).to_multiset();
    let p_new = piles_cards(g2.piles).to_multiset();
    let f_old = foundation_cards(g.foundations).to_multiset();
    let f_new = foundation_cards(g2.foundations).to_multiset();
    let pre_old = foundation_prefix(s, g.foundations.spec_level(s)).to_multiset();
    let oldp = (pv.hidden + pv.visible).to_multiset();
    let prm = (pr.hidden + pr.visible).to_multiset();
    assert(oldp == prm.add(cm));
    assert(p_new.add(oldp) == p_old.add(prm));
    assert(foundation_prefix(s, Some(c.rank)).to_multiset() == pre_old.add(cm));
    assert(f_new.add(pre_old) == f_old.add(pre_old.add(cm)));
    assert((board_cards(g2) + foundation_cards(g2.foundations)).to_multiset()
        =~= full_deck().to_multiset()) by {
        assert forall|x: Card|
            #[trigger] s_all.add(p_new).add(f_new).count(x) == s_all.add(p_old).add(f_old).count(
                x,
            ) by {
            assert(p_new.add(oldp).count(x) == p_old.add(prm).count(x));
            assert(oldp.count(x) == prm.add(cm).count(x));
            assert(f_new.add(pre_old).count(x) == f_old.add(pre_old.add(cm)).count(x));
        }
    }
}

/// Executing any candidate move of a hit-produced target keeps the board
/// well-formed: the step applies, and the 52 cards and the stacking
/// discipline survive it.
pub proof fn lemma_step_preserves_wf(g: GameView, t: MouseTarget, m: Move)
    requires
        wf_board(g),
        target_ok(g, t),
        candidate_seq(g, t).contains(m),
    ensures
        step(g, m) is Some,
        wf_board(step(g, m).unwrap()),
{
    crate::laws::lemma_candidates_apply(g, t, m);
    crate::calc::lemma_candidates_exact(g, t, m);
    lemma_wf_implies_sane(g, t, m);
    match t {
        MouseTarget::StockTop => {
            let c = g.stock[0];
            if crate::calc::foundation_move_ok(g, c) && m == (Move::CardMove {
                card: c,
                src: MoveSrc::FromStock,
                dest: MoveDest::ToFoundation(c.suit),
            }) {
                preserve_from_stock_foundation(g);
            } else {
                let i = choose|i: int|
                    0 <= i < g.piles.len() && #[trigger] pile_dest_ok(g, c, i, true) && m
                        == crate::calc::mk_pile_move(c, MoveSrc::FromStock, i);
                preserve_from_stock_pile(g, i as usize);
            }
        },
        MouseTarget::StockDeck => {
            preserve_cycle(g);
        },
        MouseTarget::Foundation(s) => {
            let r = g.foundations.spec_level(s).unwrap();
            let c = Card { suit: s, rank: r };
            let i = choose|i: int|
                0 <= i < g.piles.len() && #[trigger] pile_dest_ok(g, c, i, false) && m
                    == crate::calc::mk_pile_move(c, MoveSrc::FromFoundation(s), i);
            preserve_from_foundation_pile(g, s, i as usize);
        },
        MouseTarget::EmptyPile(_) => {
            assert(false);
        },
        MouseTarget::PileCard { pile_index, n_cards, target_card, target_card_index, .. } => {
            let src = MoveSrc::FromPile { pile_index, n_cards, target_card_index };
            let c = target_card;
            if m == (Move::CardMove { card: c, src, dest: MoveDest::ToFoundation(c.suit) }) {
                assert(n_cards == 1);
                preserve_from_pile_foundation(g, pile_index, target_card_index);
            } else {
                let i = choose|i: int|
                    0 <= i < g.piles.len() && i != pile_index && #[trigger] pile_dest_ok(
                        g,
                        c,
                        i,
                        true,
                    ) && m == crate::calc::mk_pile_move(c, src, i);
                preserve_from_pile_pile(g, pile_index, target_card_index, n_cards, i as usize);
            }
        },
    }
}

/// On a well-formed board the sanity premises of the round-trip law hold
/// outright: executing any candidate of a hit-produced target applies,
/// undoing it restores the board exactly, and the result is well-formed
/// again. Undo itself returns to the previous board, so well-formedness
/// survives any interleaving of legal moves and undos from a fresh deal.
pub proof fn lemma_reachable_round_trip(g: GameView, t: MouseTarget, m: Move)
    requires
        wf_board(g),
        target_ok(g, t),
        candidate_seq(g, t).contains(m),
    ensures
        step(g, m) is Some,
        wf_board(step(g, m).unwrap()),
        crate::undo::undo_step(step(g, m).unwrap()) == g,
{
    crate::calc::lemma_candidates_exact(g, t, m);
    lemma_wf_implies_sane(g, t, m);
    lemma_step_preserves_wf(g, t, m);
    crate::laws::lemma_undo_reverses_execute(g, t, m);
}

/// The piles' cards are at least any one pile's cards.
proof fn lemma_piles_cards_len_ge(piles: Seq<PileView>, p: int)
    requires
        0 <= p < piles.len(),
    ensures
        piles_cards(piles).len() >= piles[p].hidden.len() + piles[p].visible.len(),
    decreases piles.len(),
{
    if p > 0 {
        lemma_piles_cards_len_ge(piles.drop_first(), p - 1);
    }
}

/// A well-formed board fits the table layout: seven piles of at most 52
/// cards each (and a stock of at most 52), so hit-testing accepts it.
pub proof fn lemma_wf_board_in_layout(g: GameView)
    requires
        wf_board(g),
    ensures
        crate::hit::board_in_layout(g),
        g.stock.len() <= 52,
        forall|p: int|
            0 <= p < g.piles.len() ==> (#[trigger] g.piles[p]).hidden.len()
                + g.piles[p].visible.len() <= 52,
{
    broadcast use vstd::seq_lib::group_to_multiset_ensures;

    let all = board_cards(g) + foundation_cards(g.foundations);
    assert(all.to_multiset().len() == all.len());
    assert(full_deck().to_multiset().len() == full_deck().len());
    assert(all.len() == 52);
    assert forall|p: int|
        0 <= p < g.piles.len() implies (#[trigger] g.piles[p]).hidden.len()
        + g.piles[p].visible.len() <= 52 by {
        lemma_piles_cards_len_ge(g.piles, p);
    }
}

/// A stored pending move is faithful to the board: its target is one
/// hit-testing could produce, and its moves are exactly that target's
/// candidates.
pub open spec fn wf_pending(g: GameView) -> bool {
    match g.pending {
        None => true,
        Some(pv) => target_ok(g, pv.target) && pv.moves == candidate_seq(g, pv.target),
    }
}

/// A first match comes from the list it was found in.
proof fn lemma_first_match_contains(ms: Seq<Move>, t: MouseTarget)
    ensures
        match crate::moves::first_match(ms, t) {
            Some(m) => ms.contains(m),
            None => true,
        },
    decreases ms.len(),
{
    if ms.len() == 0 {
    } else if crate::moves::dest_matches_target(ms[0], t) {
        assert(ms.contains(ms[0]));
    } else {
        lemma_first_match_contains(ms.drop_first(), t);
        match crate::moves::first_match(ms.drop_first(), t) {
            Some(m) => {
                let j = choose|j: int| 0 <= j < ms.drop_first().len() && ms.drop_first()[j] == m;
                assert(ms[j + 1] == m);
            },
            None => {},
        }
    }
}

/// The pile-destination enumeration reads only stock, piles and
/// foundations.
proof fn lemma_pile_moves_frame(
    g1: GameView,
    g2: GameView,
    c: Card,
    src: MoveSrc,
    skip: int,
    ek: bool,
    n: int,
)
    requires
        g1.piles == g2.piles,
    ensures
        crate::calc::pile_moves(g1, c, src, skip, ek, n) == crate::calc::pile_moves(
            g2,
            c,
            src,
            skip,
            ek,
            n,
        ),
    decreases n,
{
    if n > 0 {
        lemma_pile_moves_frame(g1, g2, c, src, skip, ek, n - 1);
    }
}

/// The candidates of a target depend only on stock, piles and
/// foundations - not on the pending move or the history.
proof fn lemma_candidates_frame(g1: GameView, g2: GameView, t: MouseTarget)
    requires
        g1.stock == g2.stock,
        g1.piles == g2.piles,
        g1.foundations == g2.foundations,
    ensures
        candidate_seq(g1, t) == candidate_seq(g2, t),
{
    match t {
        MouseTarget::StockTop => {
            if g1.stock.len() > 0 {
                lemma_pile_moves_frame(
                    g1,
                    g2,
                    g1.stock[0],
                    MoveSrc::FromStock,
                    -1,
                    true,
                    g1.piles.len() as int,
                );
            }
        },
        MouseTarget::Foundation(s) => {
            match g1.foundations.spec_level(s) {
                Some(r) => {
                    lemma_pile_moves_frame(
                        g1,
                        g2,
                        Card { suit: s, rank: r },
                        MoveSrc::FromFoundation(s),
                        -1,
                        false,
                        g1.piles.len() as int,
                    );
                },
                None => {},
            }
        },
        MouseTarget::PileCard { pile_index, n_cards, target_card, target_card_index, .. } => {
            lemma_pile_moves_frame(
                g1,
                g2,
                target_card,
                MoveSrc::FromPile { pile_index, n_cards, target_card_index },
                pile_index as int,
                true,
                g1.piles.len() as int,
            );
        },
        _ => {},
    }
}

/// Feeding any faithful input event to a well-formed board leaves it
/// well-formed, with a faithful pending move: the whole two-phase input
/// protocol preserves the reachable-board invariant.
pub proof fn lemma_handle_target_preserves_wf(g: GameView, t: MouseTarget)
    requires
        wf_board(g),
        wf_pending(g),
        target_ok(g, t),
    ensures
        wf_board(crate::resolve::handle_target_spec(g, t)),
        wf_pending(crate::resolve::handle_target_spec(g, t)),
{
    let g2 = crate::resolve::handle_target_spec(g, t);
    match g.pending {
        Some(pv) => {
            lemma_first_match_contains(pv.moves, t);
            match crate::moves::first_match(pv.moves, t) {
                Some(m) => {
                    lemma_step_preserves_wf(g, pv.target, m);
                    assert(g2 == crate::resolve::clear_pending(step(g, m).unwrap()));
                },
                None => {
                    assert(g2 == crate::resolve::clear_pending(g));
                },
            }
        },
        None => {
            let cs = candidate_seq(g, t);
            if cs.len() == 0 {
            } else if cs.len() == 1 {
                assert(cs.contains(cs[0]));
                lemma_step_preserves_wf(g, t, cs[0]);
                match step(g, cs[0]) {
                    Some(gs) => {
                        assert(g2 == gs);
                        assert(gs.pending == g.pending);
                    },
                    None => {},
                }
            } else {
                assert(g2.stock == g.stock && g2.piles == g.piles && g2.foundations
                    == g.foundations);
                lemma_candidates_frame(g, g2, t);
            }
        },
    }
}

/// The automatic player, too, preserves the invariant: whatever it picks
/// is a candidate of a faithful target, so the board it leaves is
/// well-formed.
pub proof fn lemma_auto_move_preserves_wf(g: GameView)
    requires
        wf_board(g),
    ensures
        match crate::resolve::auto_pick(g) {
            Some(m) => step(g, m) is Some && wf_board(step(g, m).unwrap()),
            None => true,
        },
{
    let cs = candidate_seq(g, MouseTarget::StockTop);
    if cs.len() > 0 {
        assert(cs.contains(cs[0]));
        lemma_step_preserves_wf(g, MouseTarget::StockTop, cs[0]);
    } else {
        lemma_auto_scan_preserves_wf(g, 0);
    }
}

/// Each pile target the automatic scan builds is faithful, so its first
/// candidate steps to a well-formed board.
proof fn lemma_auto_scan_preserves_wf(g: GameView, p: int)
    requires
        wf_board(g),
        0 <= p,
    ensures
        match crate::resolve::auto_scan_piles(g, p) {
            Some(m) => step(g, m) is Some && wf_board(step(g, m).unwrap()),
            None => true,
        },
    decreases g.piles.len() - p,
{
    if 0 <= p < g.piles.len() {
        lemma_auto_scan_cards_preserves_wf(g, p, g.piles[p].visible.len() as int);
        match crate::resolve::auto_scan_cards(g, p, g.piles[p].visible.len() as int) {
            Some(_) => {},
            None => {
                lemma_auto_scan_preserves_wf(g, p + 1);
            },
        }
    }
}

/// As [`lemma_auto_scan_preserves_wf`], one pile's top-down card scan.
proof fn lemma_auto_scan_cards_preserves_wf(g: GameView, p: int, k: int)
    requires
        wf_board(g),
        0 <= p < g.piles.len(),
        k <= g.piles[p].visible.len(),
    ensures
        match crate::resolve::auto_scan_cards(g, p, k) {
            Some(m) => step(g, m) is Some && wf_board(step(g, m).unwrap()),
            None => true,
        },
    decreases k,
{
    if k > 0 {
        lemma_wf_board_in_layout(g);
        let t = MouseTarget::PileCard {
            pile_index: p as usize,
            n_cards: (g.piles[p].visible.len() - (k - 1)) as usize,
            target_card: g.piles[p].visible[k - 1],
            target_card_index: (k - 1) as usize,
            top: 0,
        };
        assert(target_ok(g, t));
        let cs = candidate_seq(g, t);
        if cs.len() > 0 {
            assert(cs.contains(cs[0]));
            lemma_step_preserves_wf(g, t, cs[0]);
        } else {
            lemma_auto_scan_cards_preserves_wf(g, p, k - 1);
        }
    }
}

/// Card `k` of the canonical deck: suit block `k / 13`, rank `k % 13`.
proof fn lemma_full_deck_card_at(k: int)
    requires
        0 <= k < 52,
    ensures
        full_deck()[k].suit.spec_foundation_offset() == k / 13,
        full_deck()[k].rank.spec_index() == k % 13,
{
    let s = k / 13;
    let r = k % 13;
    vstd::arithmetic::div_mod::lemma_fundamental_div_mod(k, 13);
    assert(0 <= s < 4 && 0 <= r < 13) by {
        vstd::arithmetic::div_mod::lemma_div_pos_is_pos(k, 13);
        vstd::arithmetic::div_mod::lemma_div_is_ordered_by_denominator(k, 1, 13);
        assert(k / 13 <= k);
        assert(k / 13 < 4) by {
            if k / 13 >= 4 {
                assert(13 * (k / 13) + k % 13 == k);
                assert(13 * (k / 13) >= 52) by (nonlinear_arith)
                    requires
                        k / 13 >= 4,
                ;
            }
        };
    };
    if s == 0 {
        assert(full_deck()[k] == suit_run(Suit::Diamonds)[r]);
    } else if s == 1 {
        assert(13 * s + r == k);
        assert(k - 13 == 13 * (s - 1) + r);
        assert(full_deck()[k] == suit_run(Suit::Clubs)[k - 13]);
        assert(k - 13 == r);
    } else if s == 2 {
        assert(full_deck()[k] == suit_run(Suit::Hearts)[k - 26]);
        assert(k - 26 == r);
    } else {
        assert(full_deck()[k] == suit_run(Suit::Spades)[k - 39]);
        assert(k - 39 == r);
    }
    assert(rank_order()[r].spec_index() == r);
}

} // verus!
