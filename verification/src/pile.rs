//! A tableau pile: a face-down prefix under a face-up suffix.

use vstd::prelude::*;
use crate::cards::Card;

verus! {

/// Ghost projection of a pile: its two card sequences, bottom card first.
#[verifier::ext_equal]
pub struct PileView {
    pub hidden: Seq<Card>,
    pub visible: Seq<Card>,
}

impl PileView {
    /// A pile with no cards at all.
    pub open spec fn is_empty(self) -> bool {
        self.hidden.len() == 0 && self.visible.len() == 0
    }

    /// The face-up card on top of the pile, if any. Only this card is ever
    /// stacked onto.
    pub open spec fn top_card(self) -> Option<Card> {
        if self.visible.len() == 0 {
            None
        } else {
            Some(self.visible.last())
        }
    }

    /// How many cards the pile holds in all.
    pub open spec fn total(self) -> int {
        self.hidden.len() + self.visible.len() as int
    }
}

/// One of the seven tableau columns: `hidden` holds the face-down cards,
/// `visible` the face-up cards above them, both ordered bottom to top.
#[derive(Clone, Debug, PartialEq)]
pub struct Pile {
    pub hidden: Vec<Card>,
    pub visible: Vec<Card>,
}

impl View for Pile {
    type V = PileView;

    open spec fn view(&self) -> PileView {
        PileView { hidden: self.hidden@, visible: self.visible@ }
    }
}

impl Pile {
    /// Builds a pile with no cards.
    pub fn new() -> (r: Pile)
        ensures
            r@.hidden.len() == 0,
            r@.visible.len() == 0,
    {
        Pile { hidden: Vec::new(), visible: Vec::new() }
    }

    /// True when the pile holds no cards, hidden or visible.
    pub fn is_empty(&self) -> (r: bool)
        ensures
            r == self@.is_empty(),
    {
        self.hidden.len() == 0 && self.visible.len() == 0
    }

    /// The face-up card on top of the pile, if any.
    pub fn top_card(&self) -> (r: Option<Card>)
        ensures
            r == self@.top_card(),
    {
        if self.visible.len() == 0 {
            None
        } else {
            Some(self.visible[self.visible.len() - 1])
        }
    }
}

} // verus!
