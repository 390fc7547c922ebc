//! A read-only projection of the board for the rendering layer.

use vstd::prelude::*;
use crate::cards::Card;
use crate::game::{Foundations, Game};
use crate::moves::MouseTarget;

verus! {

/// One pile as the renderer sees it: how many face-down cards it holds,
/// and every face-up card in order.
#[derive(Clone, Debug, PartialEq)]
pub struct PileSnapshot {
    pub hidden_count: usize,
    pub visible: Vec<Card>,
}

/// Everything the renderer needs, detached from the live board: the stock
/// count and revealed card, each pile's contents, the foundation levels,
/// and the pending target awaiting a second input, if any.
#[derive(Clone, Debug, PartialEq)]
pub struct BoardView {
    pub stock_len: usize,
    pub stock_top: Option<Card>,
    pub piles: Vec<PileSnapshot>,
    pub foundations: Foundations,
    pub pending_target: Option<MouseTarget>,
}

/// A fresh vector holding the same cards.
fn copy_cards(v: &Vec<Card>) -> (r: Vec<Card>)
    ensures
        r@ == v@,
{
    let mut r: Vec<Card> = Vec::new();
    let mut i: usize = 0;
    while i < v.len()
        invariant
            i <= v@.len(),
            r@ == v@.take(i as int),
        decreases v@.len() - i,
    {
        r.push(v[i]);
        proof {
            assert(v@.take(i as int + 1) =~= v@.take(i as int).push(v@[i as int]));
        }
        i = i + 1;
    }
    proof {
        assert(v@.take(v@.len() as int) =~= v@);
    }
    r
}

impl Game {
    /// A read-only snapshot of the board: stock count and top card, each
    /// pile's hidden count and visible cards, the foundation levels, and
    /// the pending target if an ambiguous move awaits its second input.
    pub fn snapshot(&self) -> (r: BoardView)
        ensures
            r.stock_len == self@.stock.len(),
            r.stock_top == (if self@.stock.len() > 0 {
                Some(self@.stock[0])
            } else {
                None::<Card>
            }),
            r.piles@.len() == self@.piles.len(),
            forall|i: int|
                0 <= i < self@.piles.len() ==> (#[trigger] r.piles@[i]).hidden_count
                    == self@.piles[i].hidden.len() && r.piles@[i].visible@ == self@.piles[i].visible,
            r.foundations == self@.foundations,
            r.pending_target == (match self@.pending {
                Some(pv) => Some(pv.target),
                None => None::<MouseTarget>,
            }),
    {
        let stock_top = if self.stock.len() > 0 {
            Some(self.stock[0])
        } else {
            None
        };
        let mut piles: Vec<PileSnapshot> = Vec::new();
        let mut i: usize = 0;
        while i < self.piles.len()
            invariant
                i <= self.piles@.len(),
                piles@.len() == i,
                forall|j: int|
                    0 <= j < i ==> (#[trigger] piles@[j]).hidden_count
                        == self@.piles[j].hidden.len() && piles@[j].visible@
                        == self@.piles[j].visible,
            decreases self.piles@.len() - i,
        {
            piles.push(
                PileSnapshot {
                    hidden_count: self.piles[i].hidden.len(),
                    visible: copy_cards(&self.piles[i].visible),
                },
            );
            i = i + 1;
        }
        let pending_target = match &self.move_in_progress {
            Some(mip) => Some(mip.target),
            None => None,
        };
        BoardView {
            stock_len: self.stock.len(),
            stock_top,
            piles,
            foundations: self.foundation_fill_levels,
            pending_target,
        }
    }
}

} // verus!
