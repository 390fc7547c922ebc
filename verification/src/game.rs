//! The aggregate board state: stock, piles, foundations, pending move and
//! history.

use vstd::prelude::*;
use std::collections::VecDeque;
use crate::cards::{full_deck, Card, Rank, Suit};
use crate::moves::{Move, MoveInProgress, PendingView};
use crate::pile::{Pile, PileView};

verus! {

/// How many cards the deal places before tableau pile `k`: piles 0..k
/// receive 1..k cards respectively.
pub open spec fn pile_offset(k: int) -> int
    decreases k,
{
    if k <= 0 {
        0
    } else {
        pile_offset(k - 1) + k
    }
}

/// Tableau pile `k` as the deal leaves it: `k` face-down cards taken in
/// order from the shuffled deck, then one face-up card.
pub open spec fn dealt_pile(cards: Seq<Card>, k: int) -> PileView {
    PileView {
        hidden: cards.subrange(pile_offset(k), pile_offset(k) + k),
        visible: seq![cards[pile_offset(k) + k]],
    }
}

/// Every card the given piles hold, leftmost pile first, each pile bottom
/// first with hidden cards before visible ones.
pub open spec fn piles_cards(piles: Seq<PileView>) -> Seq<Card>
    decreases piles.len(),
{
    if piles.len() == 0 {
        Seq::empty()
    } else {
        (piles[0].hidden + piles[0].visible) + piles_cards(piles.drop_first())
    }
}

/// Every card on the board outside the foundations: the stock, then the
/// piles.
pub open spec fn board_cards(g: GameView) -> Seq<Card> {
    g.stock + piles_cards(g.piles)
}

/// The concrete deal offsets: pile `k` starts `pile_offset(k)` cards into
/// the deck, and the seven piles take 28 cards in all.
proof fn lemma_pile_offset_values()
    ensures
        pile_offset(0) == 0,
        pile_offset(1) == 1,
        pile_offset(2) == 3,
        pile_offset(3) == 6,
        pile_offset(4) == 10,
        pile_offset(5) == 15,
        pile_offset(6) == 21,
        pile_offset(7) == 28,
{
    assert(pile_offset(0) == 0);
    assert(pile_offset(1) == 1);
    assert(pile_offset(2) == 3);
    assert(pile_offset(3) == 6);
    assert(pile_offset(4) == 10);
    assert(pile_offset(5) == 15);
    assert(pile_offset(6) == 21);
    assert(pile_offset(7) == 28);
}

/// Deal offsets grow with the pile index.
proof fn lemma_pile_offset_mono(a: int, b: int)
    requires
        0 <= a <= b,
    ensures
        pile_offset(a) <= pile_offset(b),
    decreases b - a,
{
    if a < b {
        lemma_pile_offset_mono(a, b - 1);
    }
}

/// The piles from index `j` rightward of a freshly dealt board hold, in
/// order, exactly the dealt cards from offset `pile_offset(j)` up to 28.
proof fn lemma_dealt_piles_cards(cards: Seq<Card>, pv: Seq<PileView>, j: int)
    requires
        cards.len() == 52,
        pv.len() == 7,
        0 <= j <= 7,
        forall|k: int| 0 <= k < 7 ==> pv[k] == dealt_pile(cards, k),
    ensures
        piles_cards(pv.skip(j)) == cards.subrange(pile_offset(j), 28),
    decreases 7 - j,
{
    lemma_pile_offset_values();
    if j == 7 {
        assert(pv.skip(7) =~= Seq::<PileView>::empty());
        assert(piles_cards(pv.skip(7)) =~= cards.subrange(28, 28));
    } else {
        lemma_pile_offset_mono(0, j);
        lemma_pile_offset_mono(j + 1, 7);
        lemma_dealt_piles_cards(cards, pv, j + 1);
        assert(pv.skip(j).drop_first() =~= pv.skip(j + 1));
        assert(pv.skip(j)[0] == pv[j]);
        assert(pv[j] == dealt_pile(cards, j));
        assert(pv[j].hidden + pv[j].visible =~= cards.subrange(
            pile_offset(j),
            pile_offset(j + 1),
        ));
        assert(piles_cards(pv.skip(j)) == (pv[j].hidden + pv[j].visible) + piles_cards(
            pv.skip(j + 1),
        ));
        assert(cards.subrange(pile_offset(j), pile_offset(j + 1)) + cards.subrange(
            pile_offset(j + 1),
            28,
        ) =~= cards.subrange(pile_offset(j), 28));
    }
}

/// How high each suit's foundation is built: `None` for an empty slot,
/// `Some(r)` when every rank from Ace up to `r` has been placed.
#[derive(Clone, Copy, Debug, PartialEq, Eq)]
pub struct Foundations {
    pub diamonds: Option<Rank>,
    pub clubs: Option<Rank>,
    pub hearts: Option<Rank>,
    pub spades: Option<Rank>,
}

impl Foundations {
    /// The fill level of the given suit's foundation.
    pub open spec fn spec_level(self, s: Suit) -> Option<Rank> {
        match s {
            Suit::Diamonds => self.diamonds,
            Suit::Clubs => self.clubs,
            Suit::Hearts => self.hearts,
            Suit::Spades => self.spades,
        }
    }

    /// This foundation state with the given suit's level replaced.
    pub open spec fn spec_with_level(self, s: Suit, l: Option<Rank>) -> Foundations {
        match s {
            Suit::Diamonds => Foundations { diamonds: l, ..self },
            Suit::Clubs => Foundations { clubs: l, ..self },
            Suit::Hearts => Foundations { hearts: l, ..self },
            Suit::Spades => Foundations { spades: l, ..self },
        }
    }

    /// The foundation state in which every slot is empty.
    pub open spec fn spec_empty() -> Foundations {
        Foundations { diamonds: None, clubs: None, hearts: None, spades: None }
    }

    /// Builds the all-empty foundation state.
    pub fn empty() -> (r: Foundations)
        ensures
            r == Foundations::spec_empty(),
            forall|s: Suit| r.spec_level(s) is None,
    {
        Foundations { diamonds: None, clubs: None, hearts: None, spades: None }
    }

    /// The fill level of the given suit's foundation.
    pub fn level(&self, s: Suit) -> (r: Option<Rank>)
        ensures
            r == self.spec_level(s),
    {
        match s {
            Suit::Diamonds => self.diamonds,
            Suit::Clubs => self.clubs,
            Suit::Hearts => self.hearts,
            Suit::Spades => self.spades,
        }
    }

    /// Replaces the given suit's fill level.
    pub fn set_level(&mut self, s: Suit, l: Option<Rank>)
        ensures
            *final(self) == old(self).spec_with_level(s, l),
    {
        match s {
            Suit::Diamonds => self.diamonds = l,
            Suit::Clubs => self.clubs = l,
            Suit::Hearts => self.hearts = l,
            Suit::Spades => self.spades = l,
        }
    }
}

/// Ghost projection of the whole board.
#[verifier::ext_equal]
pub struct GameView {
    /// The stock, front (revealed) card first.
    pub stock: Seq<Card>,
    /// The tableau piles, leftmost first.
    pub piles: Seq<PileView>,
    /// The foundation fill levels.
    pub foundations: Foundations,
    /// The stored ambiguous move, if one awaits a second input.
    pub pending: Option<PendingView>,
    /// Every executed move, oldest first.
    pub history: Seq<Move>,
}

impl GameView {
    /// The card shown on top of the given suit's foundation, if any.
    pub open spec fn foundation_top_card(self, s: Suit) -> Option<Card> {
        match self.foundations.spec_level(s) {
            Some(r) => Some(Card { suit: s, rank: r }),
            None => None,
        }
    }
}

/// The full state of one game in play.
#[derive(Clone, Debug, PartialEq)]
pub struct Game {
    /// Face-down draw pile; the front card is the one currently revealed.
    pub stock: VecDeque<Card>,
    /// The seven tableau columns, leftmost first.
    pub piles: Vec<Pile>,
    /// How high each suit's foundation is built.
    pub foundation_fill_levels: Foundations,
    /// A stored ambiguous move awaiting a second input, if any.
    pub move_in_progress: Option<MoveInProgress>,
    /// Every executed move, oldest first; undone moves are popped off.
    pub move_history: Vec<Move>,
}

impl View for Game {
    type V = GameView;

    open spec fn view(&self) -> GameView {
        GameView {
            stock: self.stock@,
            piles: Seq::new(self.piles@.len(), |i: int| self.piles@[i]@),
            foundations: self.foundation_fill_levels,
            pending: match self.move_in_progress {
                Some(mip) => Some(mip@),
                None => None,
            },
            history: self.move_history@,
        }
    }
}

impl Game {
    /// Lays a 52-card deck out as a fresh board: pile `k` receives the
    /// `k + 1` cards from offset `pile_offset(k)`, all face-down but the
    /// last, and the remaining 24 cards form the stock in deck order.
    /// Foundations, history and the pending move start empty.
    #[verifier::loop_isolation(false)]
    pub fn deal(cards: Vec<Card>) -> (r: Game)
        requires
            cards@.len() == 52,
        ensures
            r@.piles.len() == 7,
            forall|k: int| 0 <= k < 7 ==> #[trigger] r@.piles[k] == dealt_pile(cards@, k),
            r@.stock == cards@.subrange(28, 52),
            r@.foundations == Foundations::spec_empty(),
            r@.pending is None,
            r@.history.len() == 0,
            board_cards(r@).to_multiset() == cards@.to_multiset(),
    {
        proof {
            lemma_pile_offset_values();
        }
        let mut piles: Vec<Pile> = Vec::new();
        let mut idx: usize = 0;
        let mut pile_size: usize = 1;
        while pile_size <= 7
            invariant
                1 <= pile_size <= 8,
                piles@.len() == pile_size - 1,
                idx == pile_offset(pile_size as int - 1),
                forall|k: int|
                    0 <= k < pile_size - 1 ==> (#[trigger] piles@[k])@ == dealt_pile(cards@, k),
            decreases 8 - pile_size,
        {
            proof {
                lemma_pile_offset_mono(pile_size as int, 7);
            }
            let ghost off = idx as int;
            let mut pile = Pile::new();
            let mut i: usize = 0;
            while i < pile_size
                invariant
                    i <= pile_size,
                    idx == off + i,
                    i < pile_size ==> pile@.hidden == cards@.subrange(off, off + i) && pile@.visible
                        =~= Seq::<Card>::empty(),
                    i == pile_size ==> pile@.hidden == cards@.subrange(off, off + pile_size - 1)
                        && pile@.visible =~= seq![cards@[off + pile_size - 1]],
                decreases pile_size - i,
            {
                let card = cards[idx];
                idx = idx + 1;
                if i == pile_size - 1 {
                    pile.visible.push(card);
                    proof {
                        assert(pile@.hidden =~= cards@.subrange(off, off + pile_size - 1));
                        assert(pile@.visible =~= seq![cards@[off + pile_size - 1]]);
                    }
                } else {
                    pile.hidden.push(card);
                    proof {
                        assert(pile@.hidden =~= cards@.subrange(off, off + i + 1));
                    }
                }
                i = i + 1;
            }
            piles.push(pile);
            proof {
                assert(pile@ =~= dealt_pile(cards@, pile_size as int - 1));
            }
            pile_size = pile_size + 1;
        }
        let mut stock: VecDeque<Card> = VecDeque::new();
        while idx < 52
            invariant
                28 <= idx <= 52,
                stock@ == cards@.subrange(28, idx as int),
            decreases 52 - idx,
        {
            let card = cards[idx];
            stock.push_back(card);
            proof {
                assert(stock@ =~= cards@.subrange(28, idx as int + 1));
            }
            idx = idx + 1;
        }
        let game = Game {
            stock,
            piles,
            foundation_fill_levels: Foundations::empty(),
            move_in_progress: None,
            move_history: Vec::new(),
        };
        proof {
            broadcast use vstd::multiset::group_multiset_axioms;

            assert(forall|k: int|
                0 <= k < 7 ==> #[trigger] game@.piles[k] == dealt_pile(cards@, k));
            lemma_dealt_piles_cards(cards@, game@.piles, 0);
            assert(game@.piles.skip(0) =~= game@.piles);
            assert(board_cards(game@) == cards@.subrange(28, 52) + cards@.subrange(0, 28));
            vstd::seq_lib::lemma_multiset_commutative(
                cards@.subrange(28, 52),
                cards@.subrange(0, 28),
            );
            vstd::seq_lib::lemma_multiset_commutative(
                cards@.subrange(0, 28),
                cards@.subrange(28, 52),
            );
            assert(cards@.subrange(0, 28) + cards@.subrange(28, 52) =~= cards@);
            assert(board_cards(game@).to_multiset() =~= cards@.to_multiset());
        }
        game
    }

    /// Builds and deals a fresh game: the full deck is shuffled with the
    /// given generator and laid out by [`Game::deal`]. The board then holds
    /// each of the 52 cards exactly once across stock and piles: pile `k`
    /// has `k` hidden cards under one visible card, and 24 cards remain in
    /// the stock.
    pub fn new(rng: &mut rand::rngs::StdRng) -> (r: Game)
        ensures
            r@.piles.len() == 7,
            forall|k: int|
                0 <= k < 7 ==> (#[trigger] r@.piles[k]).hidden.len() == k
                    && r@.piles[k].visible.len() == 1,
            r@.stock.len() == 24,
            r@.foundations == Foundations::spec_empty(),
            r@.pending is None,
            r@.history.len() == 0,
            board_cards(r@).to_multiset() == full_deck().to_multiset(),
            crate::reachable::wf_board(r@),
    {
        let mut cards = Card::all_cards();
        crate::shuffle::shuffle(&mut cards, rng);
        let game = Game::deal(cards);
        proof {
            lemma_pile_offset_values();
            assert(forall|k: int|
                0 <= k < 7 ==> (#[trigger] game@.piles[k]) == dealt_pile(cards@, k));
            assert forall|k: int|
                0 <= k < 7 implies (#[trigger] game@.piles[k]).hidden.len() == k
                && game@.piles[k].visible.len() == 1 by {
                lemma_pile_offset_mono(0, k);
                lemma_pile_offset_mono(k, 6);
            }
            // a fresh deal is a well-formed board: a one-card visible run
            // is stacked, empty foundations hold nothing, and the board
            // cards are the permuted deck
            assert(crate::reachable::foundation_cards(Foundations::spec_empty())
                =~= Seq::<Card>::empty());
            assert(board_cards(game@) + crate::reachable::foundation_cards(game@.foundations)
                =~= board_cards(game@));
        }
        game
    }

    /// The card shown on top of the given suit's foundation: the suit paired
    /// with its current fill level.
    pub fn foundation_top_card(&self, suit: Suit) -> (r: Option<Card>)
        ensures
            r == self@.foundation_top_card(suit),
    {
        match self.foundation_fill_levels.level(suit) {
            Some(rank) => Some(Card::new(suit, rank)),
            None => None,
        }
    }

    /// Takes the top card off the given foundation, lowering its level to
    /// the predecessor rank, or emptying the slot when an Ace leaves.
    /// Returns `None`, changing nothing, when the foundation is empty.
    pub fn pop_foundation(&mut self, suit: Suit) -> (r: Option<Card>)
        ensures
            match r {
                Some(c) => {
                    &&& old(self)@.foundation_top_card(suit) == Some(c)
                    &&& final(self)@ == (GameView {
                        foundations: old(self)@.foundations.spec_with_level(
                            suit,
                            c.rank.spec_pred(),
                        ),
                        ..old(self)@
                    })
                },
                None => {
                    &&& old(self)@.foundations.spec_level(suit) is None
                    &&& final(self)@ == old(self)@
                },
            },
    {
        let top_card = match self.foundation_top_card(suit) {
            Some(c) => c,
            None => {
                return None;
            },
        };
        let p = top_card.rank.pred();
        self.foundation_fill_levels.set_level(suit, p);
        proof {
            assert(self@ =~~= (GameView {
                foundations: old(self)@.foundations.spec_with_level(suit, top_card.rank.spec_pred()),
                ..old(self)@
            }));
        }
        Some(top_card)
    }
}

} // verus!
