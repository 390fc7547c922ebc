//! Enumerating the legal moves for a pointer target.

use vstd::prelude::*;
use crate::cards::{Card, Rank};
use crate::game::{Game, GameView};
use crate::moves::{MouseTarget, Move, MoveDest, MoveSrc};

verus! {

/// The foundation of `c`'s own suit tops exactly one rank below `c`.
pub open spec fn foundation_pred_ok(g: GameView, c: Card) -> bool {
    match g.foundations.spec_level(c.suit) {
        Some(r) => c.rank.spec_index() == r.spec_index() + 1,
        None => false,
    }
}

/// The board allows laying `c` on its own suit's foundation: `c` is an Ace
/// or continues that foundation's ascending run.
pub open spec fn foundation_move_ok(g: GameView, c: Card) -> bool {
    c.rank == Rank::Ace || foundation_pred_ok(g, c)
}

/// Pile `i` accepts card `c`: its visible top stacks with `c` by the
/// alternating-colour rule, or - where an empty pile may be a destination -
/// the pile holds no cards at all and `c` is a King.
pub open spec fn pile_dest_ok(g: GameView, c: Card, i: int, empty_king: bool) -> bool {
    if g.piles[i].visible.len() > 0 {
        Card::spec_can_pile_onto(c, g.piles[i].visible.last())
    } else {
        empty_king && g.piles[i].is_empty() && c.rank == Rank::King
    }
}

/// The move that lays `c`, taken from `src`, onto pile `i`.
pub open spec fn mk_pile_move(c: Card, src: MoveSrc, i: int) -> Move {
    Move::CardMove { card: c, src, dest: MoveDest::ToPile(i as usize) }
}

/// The pile destinations among piles `0..n` that accept `c`, in pile
/// order. Pile `skip` (the card's own pile; -1 for none) is never a
/// destination.
pub open spec fn pile_moves(
    g: GameView,
    c: Card,
    src: MoveSrc,
    skip: int,
    empty_king: bool,
    n: int,
) -> Seq<Move>
    decreases n,
{
    if n <= 0 {
        Seq::empty()
    } else {
        pile_moves(g, c, src, skip, empty_king, n - 1) + (
        if n - 1 != skip && pile_dest_ok(g, c, n - 1, empty_king) {
            seq![mk_pile_move(c, src, n - 1)]
        } else {
            Seq::empty()
        })
    }
}

/// Every legal move for target `t` on board `g`, in a fixed enumeration
/// order: foundation moves first, then pile destinations left to right.
///
/// - The stock's top card may go to its own suit's foundation (as an Ace,
///   or continuing the run) and onto any fitting pile top or, as a King,
///   any empty pile.
/// - The rest of the stock may only cycle, and only when at least two
///   cards remain.
/// - A foundation's top card may return onto a fitting pile top; never to
///   an empty pile, another foundation, or the stock.
/// - A run hit inside a pile may go, as a single card, to the foundation
///   (an Ace, or continuing the run); at any length onto a fitting top of
///   another pile, or - led by a King - onto an empty pile.
/// - An empty pile and anything else yield nothing.
pub open spec fn candidate_seq(g: GameView, t: MouseTarget) -> Seq<Move> {
    match t {
        MouseTarget::StockTop => {
            if g.stock.len() == 0 {
                Seq::empty()
            } else {
                let c = g.stock[0];
                let fm: Seq<Move> = if foundation_move_ok(g, c) {
                    seq![
                        Move::CardMove {
                            card: c,
                            src: MoveSrc::FromStock,
                            dest: MoveDest::ToFoundation(c.suit),
                        },
                    ]
                } else {
                    Seq::empty()
                };
                fm + pile_moves(g, c, MoveSrc::FromStock, -1, true, g.piles.len() as int)
            }
        },
        MouseTarget::StockDeck => {
            if g.stock.len() > 1 {
                seq![Move::CycleStock]
            } else {
                Seq::empty()
            }
        },
        MouseTarget::Foundation(s) => {
            match g.foundations.spec_level(s) {
                Some(r) => pile_moves(
                    g,
                    Card { suit: s, rank: r },
                    MoveSrc::FromFoundation(s),
                    -1,
                    false,
                    g.piles.len() as int,
                ),
                None => Seq::empty(),
            }
        },
        MouseTarget::EmptyPile(_) => Seq::empty(),
        MouseTarget::PileCard { pile_index, n_cards, target_card, target_card_index, .. } => {
            let src = MoveSrc::FromPile { pile_index, n_cards, target_card_index };
            let am: Seq<Move> = if target_card.rank == Rank::Ace {
                seq![
                    Move::CardMove {
                        card: target_card,
                        src,
                        dest: MoveDest::ToFoundation(target_card.suit),
                    },
                ]
            } else {
                Seq::empty()
            };
            let fm: Seq<Move> = if n_cards == 1 && foundation_pred_ok(g, target_card) {
                seq![
                    Move::CardMove {
                        card: target_card,
                        src,
                        dest: MoveDest::ToFoundation(target_card.suit),
                    },
                ]
            } else {
                Seq::empty()
            };
            am + fm + pile_moves(g, target_card, src, pile_index as int, true, g.piles.len() as int)
        },
    }
}

/// Membership in the candidate enumeration, stated directly: `m` is legal
/// for target `t` exactly when one of the rules of the move calculator
/// produces it.
pub open spec fn is_candidate(g: GameView, t: MouseTarget, m: Move) -> bool {
    match t {
        MouseTarget::StockTop => g.stock.len() > 0 && {
            let c = g.stock[0];
            (foundation_move_ok(g, c) && m == Move::CardMove {
                card: c,
                src: MoveSrc::FromStock,
                dest: MoveDest::ToFoundation(c.suit),
            }) || (exists|i: int|
                0 <= i < g.piles.len() && #[trigger] pile_dest_ok(g, c, i, true) && m
                    == mk_pile_move(c, MoveSrc::FromStock, i))
        },
        MouseTarget::StockDeck => g.stock.len() > 1 && m == Move::CycleStock,
        MouseTarget::Foundation(s) => match g.foundations.spec_level(s) {
            Some(r) => {
                let c = Card { suit: s, rank: r };
                exists|i: int|
                    0 <= i < g.piles.len() && #[trigger] pile_dest_ok(g, c, i, false) && m
                        == mk_pile_move(c, MoveSrc::FromFoundation(s), i)
            },
            None => false,
        },
        MouseTarget::EmptyPile(_) => false,
        MouseTarget::PileCard { pile_index, n_cards, target_card, target_card_index, .. } => {
            let src = MoveSrc::FromPile { pile_index, n_cards, target_card_index };
            let c = target_card;
            (c.rank == Rank::Ace && m == Move::CardMove {
                card: c,
                src,
                dest: MoveDest::ToFoundation(c.suit),
            }) || (n_cards == 1 && foundation_pred_ok(g, c) && m == Move::CardMove {
                card: c,
                src,
                dest: MoveDest::ToFoundation(c.suit),
            }) || (exists|i: int|
                0 <= i < g.piles.len() && i != pile_index && #[trigger] pile_dest_ok(g, c, i, true)
                    && m == mk_pile_move(c, src, i))
        },
    }
}

/// A move stands in the pile-destination enumeration up to `n` exactly
/// when some unskipped pile below `n` accepts the card.
proof fn lemma_pile_moves_membership(
    g: GameView,
    c: Card,
    src: MoveSrc,
    skip: int,
    ek: bool,
    n: int,
    m: Move,
)
    requires
        n >= 0,
    ensures
        pile_moves(g, c, src, skip, ek, n).contains(m) <==> exists|i: int|
            0 <= i < n && i != skip && #[trigger] pile_dest_ok(g, c, i, ek) && m == mk_pile_move(
                c,
                src,
                i,
            ),
    decreases n,
{
    if n == 0 {
    } else {
        lemma_pile_moves_membership(g, c, src, skip, ek, n - 1, m);
        let prefix = pile_moves(g, c, src, skip, ek, n - 1);
        let last: Seq<Move> = if n - 1 != skip && pile_dest_ok(g, c, n - 1, ek) {
            seq![mk_pile_move(c, src, n - 1)]
        } else {
            Seq::empty()
        };
        assert(pile_moves(g, c, src, skip, ek, n) == prefix + last);
        if (prefix + last).contains(m) {
            let j = choose|j: int| 0 <= j < (prefix + last).len() && (prefix + last)[j] == m;
            if j < prefix.len() {
                assert(prefix.contains(m));
            } else {
                assert(last[j - prefix.len()] == m);
            }
        }
        if prefix.contains(m) {
            let j = choose|j: int| 0 <= j < prefix.len() && prefix[j] == m;
            assert((prefix + last)[j] == m);
        }
        if last.contains(m) {
            assert((prefix + last)[prefix.len() as int] == m);
        }
    }
}

/// The calculator's enumeration holds a move exactly when the rules allow
/// it: [`candidate_seq`] and [`is_candidate`] agree on every move.
pub proof fn lemma_candidates_exact(g: GameView, t: MouseTarget, m: Move)
    ensures
        candidate_seq(g, t).contains(m) <==> is_candidate(g, t, m),
{
    match t {
        MouseTarget::StockTop => {
            if g.stock.len() > 0 {
                let c = g.stock[0];
                let fm: Seq<Move> = if foundation_move_ok(g, c) {
                    seq![
                        Move::CardMove {
                            card: c,
                            src: MoveSrc::FromStock,
                            dest: MoveDest::ToFoundation(c.suit),
                        },
                    ]
                } else {
                    Seq::empty()
                };
                let pm = pile_moves(g, c, MoveSrc::FromStock, -1, true, g.piles.len() as int);
                lemma_pile_moves_membership(
                    g,
                    c,
                    MoveSrc::FromStock,
                    -1,
                    true,
                    g.piles.len() as int,
                    m,
                );
                lemma_concat_contains(fm, pm, m);
            }
        },
        MouseTarget::StockDeck => {
            if g.stock.len() > 1 {
                assert(candidate_seq(g, t)[0] == Move::CycleStock);
            }
        },
        MouseTarget::Foundation(s) => {
            match g.foundations.spec_level(s) {
                Some(r) => {
                    let c = Card { suit: s, rank: r };
                    lemma_pile_moves_membership(
                        g,
                        c,
                        MoveSrc::FromFoundation(s),
                        -1,
                        false,
                        g.piles.len() as int,
                        m,
                    );
                },
                None => {},
            }
        },
        MouseTarget::EmptyPile(_) => {},
        MouseTarget::PileCard { pile_index, n_cards, target_card, target_card_index, .. } => {
            let src = MoveSrc::FromPile { pile_index, n_cards, target_card_index };
            let c = target_card;
            let am: Seq<Move> = if c.rank == Rank::Ace {
                seq![Move::CardMove { card: c, src, dest: MoveDest::ToFoundation(c.suit) }]
            } else {
                Seq::empty()
            };
            let fm: Seq<Move> = if n_cards == 1 && foundation_pred_ok(g, c) {
                seq![Move::CardMove { card: c, src, dest: MoveDest::ToFoundation(c.suit) }]
            } else {
                Seq::empty()
            };
            let pm = pile_moves(g, c, src, pile_index as int, true, g.piles.len() as int);
            lemma_pile_moves_membership(g, c, src, pile_index as int, true, g.piles.len() as int, m);
            lemma_concat_contains(fm, pm, m);
            lemma_concat_contains(am, fm + pm, m);
            assert(candidate_seq(g, t) == am + (fm + pm)) by {
                assert(am + fm + pm =~= am + (fm + pm));
            }
        },
    }
}

/// The pile-destination enumeration lists each destination pile once.
proof fn lemma_pile_moves_no_dup(g: GameView, c: Card, src: MoveSrc, skip: int, ek: bool, n: int)
    requires
        0 <= n <= usize::MAX,
    ensures
        pile_moves(g, c, src, skip, ek, n).no_duplicates(),
    decreases n,
{
    if n == 0 {
    } else {
        lemma_pile_moves_no_dup(g, c, src, skip, ek, n - 1);
        let prefix = pile_moves(g, c, src, skip, ek, n - 1);
        let whole = pile_moves(g, c, src, skip, ek, n);
        if n - 1 != skip && pile_dest_ok(g, c, n - 1, ek) {
            let x = mk_pile_move(c, src, n - 1);
            lemma_pile_moves_membership(g, c, src, skip, ek, n - 1, x);
            assert(!prefix.contains(x));
            assert(whole == prefix + seq![x]);
            assert forall|i: int, j: int|
                0 <= i < j < whole.len() implies whole[i] != whole[j] by {
                if j < prefix.len() {
                } else {
                    assert(whole[j] == x);
                    assert(prefix.contains(whole[i]));
                }
            }
        } else {
            assert(whole =~= prefix);
        }
    }
}

/// The candidate enumeration never lists a move twice, so its length is
/// the number of distinct legal moves - what auto-committing on a single
/// candidate relies on. The two foundation rules of a pile-card target
/// exclude one another: an Ace has no predecessor on any foundation.
pub proof fn lemma_candidates_distinct(g: GameView, t: MouseTarget)
    requires
        g.piles.len() <= usize::MAX,
    ensures
        candidate_seq(g, t).no_duplicates(),
{
    match t {
        MouseTarget::StockTop => {
            if g.stock.len() > 0 {
                let c = g.stock[0];
                let fm: Seq<Move> = if foundation_move_ok(g, c) {
                    seq![
                        Move::CardMove {
                            card: c,
                            src: MoveSrc::FromStock,
                            dest: MoveDest::ToFoundation(c.suit),
                        },
                    ]
                } else {
                    Seq::empty()
                };
                let pm = pile_moves(g, c, MoveSrc::FromStock, -1, true, g.piles.len() as int);
                lemma_pile_moves_no_dup(g, c, MoveSrc::FromStock, -1, true, g.piles.len() as int);
                let whole = candidate_seq(g, t);
                assert(whole == fm + pm);
                assert forall|i: int, j: int|
                    0 <= i < j < whole.len() implies whole[i] != whole[j] by {
                    if i < fm.len() {
                        // a foundation-bound move never reappears among
                        // the pile-bound ones
                        lemma_pile_moves_membership(
                            g,
                            c,
                            MoveSrc::FromStock,
                            -1,
                            true,
                            g.piles.len() as int,
                            whole[j],
                        );
                    } else {
                        assert(whole[i] == pm[i - fm.len()] && whole[j] == pm[j - fm.len()]);
                    }
                }
            }
        },
        MouseTarget::StockDeck => {},
        MouseTarget::Foundation(s) => {
            match g.foundations.spec_level(s) {
                Some(r) => {
                    let c = Card { suit: s, rank: r };
                    lemma_pile_moves_no_dup(
                        g,
                        c,
                        MoveSrc::FromFoundation(s),
                        -1,
                        false,
                        g.piles.len() as int,
                    );
                },
                None => {},
            }
        },
        MouseTarget::EmptyPile(_) => {},
        MouseTarget::PileCard { pile_index, n_cards, target_card, target_card_index, .. } => {
            let src = MoveSrc::FromPile { pile_index, n_cards, target_card_index };
            let c = target_card;
            let am: Seq<Move> = if c.rank == Rank::Ace {
                seq![Move::CardMove { card: c, src, dest: MoveDest::ToFoundation(c.suit) }]
            } else {
                Seq::empty()
            };
            let fm: Seq<Move> = if n_cards == 1 && foundation_pred_ok(g, c) {
                seq![Move::CardMove { card: c, src, dest: MoveDest::ToFoundation(c.suit) }]
            } else {
                Seq::empty()
            };
            // an Ace never continues a foundation run, so at most one of
            // the two foundation rules fires
            assert(am.len() == 0 || fm.len() == 0);
            let head = am + fm;
            assert(head.len() <= 1);
            let pm = pile_moves(g, c, src, pile_index as int, true, g.piles.len() as int);
            lemma_pile_moves_no_dup(g, c, src, pile_index as int, true, g.piles.len() as int);
            let whole = candidate_seq(g, t);
            assert(whole == am + fm + pm);
            assert(whole =~= head + pm);
            assert forall|i: int, j: int|
                0 <= i < j < whole.len() implies whole[i] != whole[j] by {
                if i < head.len() {
                    lemma_pile_moves_membership(
                        g,
                        c,
                        src,
                        pile_index as int,
                        true,
                        g.piles.len() as int,
                        whole[j],
                    );
                    assert(whole[j] == pm[j - head.len()]);
                    assert(pm.contains(whole[j]));
                } else {
                    assert(whole[i] == pm[i - head.len()] && whole[j] == pm[j - head.len()]);
                }
            }
        },
    }
}

/// A concatenation holds a value exactly when one of its parts does.
proof fn lemma_concat_contains(a: Seq<Move>, b: Seq<Move>, m: Move)
    ensures
        (a + b).contains(m) <==> a.contains(m) || b.contains(m),
{
    if (a + b).contains(m) {
        let j = choose|j: int| 0 <= j < (a + b).len() && (a + b)[j] == m;
        if j < a.len() {
            assert(a[j] == m);
        } else {
            assert(b[j - a.len()] == m);
        }
    }
    if a.contains(m) {
        let j = choose|j: int| 0 <= j < a.len() && a[j] == m;
        assert((a + b)[j] == m);
    }
    if b.contains(m) {
        let j = choose|j: int| 0 <= j < b.len() && b[j] == m;
        assert((a + b)[a.len() + j] == m);
    }
}

impl Game {
    /// Appends to `moves` every pile destination that accepts `card`, in
    /// pile order, skipping the card's own pile where one is given. Empty
    /// piles count as destinations (for Kings) only when `empty_king`
    /// holds.
    fn push_pile_moves(
        &self,
        moves: &mut Vec<Move>,
        card: Card,
        src: MoveSrc,
        skip: Option<usize>,
        empty_king: bool,
    )
        ensures
            final(moves)@ == old(moves)@ + pile_moves(
                self@,
                card,
                src,
                match skip {
                    Some(s) => s as int,
                    None => -1,
                },
                empty_king,
                self@.piles.len() as int,
            ),
    {
        let ghost orig = moves@;
        let ghost skip_spec: int = match skip {
            Some(s) => s as int,
            None => -1,
        };
        let mut i: usize = 0;
        while i < self.piles.len()
            invariant
                i <= self.piles.len(),
                self@.piles.len() == self.piles.len(),
                moves@ == orig + pile_moves(self@, card, src, skip_spec, empty_king, i as int),
                skip_spec == (match skip {
                    Some(s) => s as int,
                    None => -1int,
                }),
            decreases self.piles.len() - i,
        {
            let skipped = match skip {
                Some(s) => i == s,
                None => false,
            };
            if !skipped {
                match self.piles[i].top_card() {
                    Some(top) => {
                        if card.can_pile_onto(top) {
                            moves.push(mk_move(card, src, i));
                        }
                    },
                    None => {
                        if empty_king && self.piles[i].is_empty() && card.rank == Rank::King {
                            moves.push(mk_move(card, src, i));
                        }
                    },
                }
            }
            proof {
                assert(moves@ =~= orig + pile_moves(
                    self@,
                    card,
                    src,
                    skip_spec,
                    empty_king,
                    i as int + 1,
                ));
            }
            i = i + 1;
        }
    }

    /// All legal moves for `target` on the current board, exactly the
    /// [`candidate_seq`] enumeration, or `None` when there are none.
    pub fn calc_moves(&self, target: MouseTarget) -> (r: Option<Vec<Move>>)
        ensures
            match r {
                Some(v) => v@ == candidate_seq(self@, target) && v@.len() > 0,
                None => candidate_seq(self@, target).len() == 0,
            },
    {
        let mut moves: Vec<Move> = Vec::new();

        match target {
            MouseTarget::StockTop => {
                if self.stock.len() == 0 {
                    return None;
                }
                let card = self.stock[0];

                // a move onto this card's own foundation
                let to_foundation = if card.rank == Rank::Ace {
                    true
                } else {
                    match self.foundation_top_card(card.suit) {
                        Some(top) => card.can_stack_onto_in_foundation(top),
                        None => false,
                    }
                };
                if to_foundation {
                    moves.push(
                        Move::CardMove {
                            card,
                            src: MoveSrc::FromStock,
                            dest: MoveDest::ToFoundation(card.suit),
                        },
                    );
                }
                proof {
                    assert(moves@ =~= (if foundation_move_ok(self@, card) {
                        seq![
                            Move::CardMove {
                                card,
                                src: MoveSrc::FromStock,
                                dest: MoveDest::ToFoundation(card.suit),
                            },
                        ]
                    } else {
                        Seq::<Move>::empty()
                    }));
                }

                // moves onto the piles
                self.push_pile_moves(&mut moves, card, MoveSrc::FromStock, None, true);
            },
            MouseTarget::StockDeck => {
                if self.stock.len() > 1 {
                    moves.push(Move::CycleStock);
                    proof {
                        assert(moves@ =~= seq![Move::CycleStock]);
                    }
                }
            },
            MouseTarget::Foundation(suit) => {
                let card = match self.foundation_top_card(suit) {
                    Some(c) => c,
                    None => {
                        return None;
                    },
                };
                // moves back onto the piles
                self.push_pile_moves(&mut moves, card, MoveSrc::FromFoundation(suit), None, false);
            },
            MouseTarget::EmptyPile(_) => {
                // never a move source, only a destination
                return None;
            },
            MouseTarget::PileCard { pile_index, n_cards, target_card: card, target_card_index, .. } => {
                let src = MoveSrc::FromPile { pile_index, n_cards, target_card_index };

                if card.rank == Rank::Ace {
                    moves.push(
                        Move::CardMove { card, src, dest: MoveDest::ToFoundation(card.suit) },
                    );
                }

                // a move onto the foundation, only for a single card
                if n_cards == 1 {
                    let to_foundation = match self.foundation_top_card(card.suit) {
                        Some(top) => card.can_stack_onto_in_foundation(top),
                        None => false,
                    };
                    if to_foundation {
                        moves.push(
                            Move::CardMove { card, src, dest: MoveDest::ToFoundation(card.suit) },
                        );
                    }
                }
                proof {
                    let am: Seq<Move> = if card.rank == Rank::Ace {
                        seq![Move::CardMove { card, src, dest: MoveDest::ToFoundation(card.suit) }]
                    } else {
                        Seq::empty()
                    };
                    let fm: Seq<Move> = if n_cards == 1 && foundation_pred_ok(self@, card) {
                        seq![Move::CardMove { card, src, dest: MoveDest::ToFoundation(card.suit) }]
                    } else {
                        Seq::empty()
                    };
                    assert(moves@ =~= am + fm);
                }

                // moves onto the other piles
                self.push_pile_moves(&mut moves, card, src, Some(pile_index), true);
            },
        }

        if moves.len() == 0 {
            None
        } else {
            Some(moves)
        }
    }
}

/// The move that lays `card`, taken from `src`, onto pile `i`.
fn mk_move(card: Card, src: MoveSrc, i: usize) -> (r: Move)
    ensures
        r == mk_pile_move(card, src, i as int),
{
    Move::CardMove { card, src, dest: MoveDest::ToPile(i) }
}

} // verus!
