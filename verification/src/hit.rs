//! Hit-testing: mapping an abstract 2D pointer position to a semantic
//! board target under the fixed table layout.
//!
//! Coordinates are integers. The layout mirrors the rendered table: the
//! stock sits top-left (its face-down rest at `INSET`, its revealed top one
//! column further right), the four foundations sit right of it, and the
//! seven tableau columns hang below, each card fanned `PILE_CARD_V_OFFSET`
//! under the previous one.

use vstd::prelude::*;
use crate::cards::{Card, Suit};
use crate::game::{Game, GameView};
use crate::moves::MouseTarget;
use crate::pile::Pile;

verus! {

/// Distance from the table edge to the first card.
pub const INSET: i32 = 30;

/// Width of a card's footprint.
pub const CARD_W: i32 = 100;

/// Height of a card's footprint.
pub const CARD_H: i32 = 140;

/// Horizontal distance between the left edges of adjacent columns.
pub const PILE_H_OFFSET: i32 = 150;

/// Left edge of the leftmost foundation slot.
pub const FOUNDATIONS_X: i32 = INSET + 3 * PILE_H_OFFSET;

/// Top edge of the tableau pile area.
pub const PILES_Y: i32 = 210;

/// Vertical distance between fanned cards in a pile.
pub const PILE_CARD_V_OFFSET: i32 = 36;

/// The point `(mx, my)` lies within (the closed bounds of) a card-sized
/// rectangle whose top-left corner is `(cx, cy)`.
pub open spec fn in_card_rect(cx: int, cy: int, mx: int, my: int) -> bool {
    cx <= mx <= cx + CARD_W && cy <= my <= cy + CARD_H
}

/// Left edge of tableau column `i`.
pub open spec fn spec_pile_x(i: int) -> int {
    INSET + i * PILE_H_OFFSET
}

/// Left edge of the given suit's foundation slot.
pub open spec fn spec_foundation_x(s: Suit) -> int {
    FOUNDATIONS_X + s.spec_foundation_offset() * PILE_H_OFFSET
}

/// Top edge of visible card `ci` of pile `p`: the card hangs under the
/// pile's hidden cards and the visible cards below it.
pub open spec fn spec_pile_card_y(g: GameView, p: int, ci: int) -> int {
    PILES_Y + (g.piles[p].hidden.len() + ci) * PILE_CARD_V_OFFSET
}

/// The first foundation slot, in display order from index `n`, whose
/// rectangle holds the point.
pub open spec fn hit_foundations(mx: int, my: int, n: int) -> Option<MouseTarget>
    decreases 4 - n,
{
    if n < 0 || n >= 4 {
        None
    } else {
        let s = Suit::spec_all()[n];
        if in_card_rect(spec_foundation_x(s), INSET as int, mx, my) {
            Some(MouseTarget::Foundation(s))
        } else {
            hit_foundations(mx, my, n + 1)
        }
    }
}

/// The topmost visible card of pile `p`, among positions `k - 1` down to
/// 0, whose rectangle holds the point. The hit reports the run length up
/// to the pile top and the card's vertical position.
pub open spec fn hit_pile_cards(g: GameView, mx: int, my: int, p: int, k: int) -> Option<
    MouseTarget,
>
    decreases k,
{
    if k <= 0 {
        None
    } else {
        let y = spec_pile_card_y(g, p, k - 1);
        if in_card_rect(spec_pile_x(p), y, mx, my) {
            Some(
                MouseTarget::PileCard {
                    pile_index: p as usize,
                    n_cards: (g.piles[p].visible.len() - (k - 1)) as usize,
                    target_card: g.piles[p].visible[k - 1],
                    target_card_index: (k - 1) as usize,
                    top: y as i32,
                },
            )
        } else {
            hit_pile_cards(g, mx, my, p, k - 1)
        }
    }
}

/// The hit among piles `p` rightward: within the first column whose
/// horizontal band holds the point, the topmost visible card hit, or the
/// empty column itself; a column whose cards all miss the point vertically
/// yields nothing.
pub open spec fn hit_piles(g: GameView, mx: int, my: int, p: int) -> Option<MouseTarget>
    decreases g.piles.len() - p,
{
    if p < 0 || p >= g.piles.len() {
        None
    } else if !(spec_pile_x(p) <= mx <= spec_pile_x(p) + CARD_W) {
        hit_piles(g, mx, my, p + 1)
    } else {
        match hit_pile_cards(g, mx, my, p, g.piles[p].visible.len() as int) {
            Some(t) => Some(t),
            None => {
                if g.piles[p].is_empty() {
                    Some(MouseTarget::EmptyPile(p as usize))
                } else {
                    hit_piles(g, mx, my, p + 1)
                }
            },
        }
    }
}

/// Where the point lands, in fixed precedence order: the stock's revealed
/// top (when the stock is not empty), the stock's face-down rest, the
/// foundations in display order, then the tableau piles left to right.
pub open spec fn hit_spec(g: GameView, mx: int, my: int) -> Option<MouseTarget> {
    if g.stock.len() > 0 && in_card_rect((INSET + PILE_H_OFFSET) as int, INSET as int, mx, my) {
        Some(MouseTarget::StockTop)
    } else if in_card_rect(INSET as int, INSET as int, mx, my) {
        Some(MouseTarget::StockDeck)
    } else {
        match hit_foundations(mx, my, 0) {
            Some(t) => Some(t),
            None => hit_piles(g, mx, my, 0),
        }
    }
}

/// The board shapes the layout can place: at most the seven columns of the
/// deal, none holding more than the deck's 52 cards.
pub open spec fn board_in_layout(g: GameView) -> bool {
    g.piles.len() <= 7 && (forall|p: int|
        0 <= p < g.piles.len() ==> (#[trigger] g.piles[p]).total() <= 52)
}

/// The shape every target produced by hit-testing has: a pile-card hit
/// names a real pile, a real visible position, the card that sits there,
/// and the run length from it to the pile top; an empty-pile hit names a
/// pile with no cards.
pub open spec fn target_ok(g: GameView, t: MouseTarget) -> bool {
    match t {
        MouseTarget::PileCard { pile_index, n_cards, target_card, target_card_index, .. } => {
            &&& (pile_index as int) < g.piles.len()
            &&& (target_card_index as int) < g.piles[pile_index as int].visible.len()
            &&& n_cards as int == g.piles[pile_index as int].visible.len() - target_card_index
            &&& target_card == g.piles[pile_index as int].visible[target_card_index as int]
        },
        MouseTarget::EmptyPile(p) => (p as int) < g.piles.len() && g.piles[p as int].is_empty(),
        _ => true,
    }
}

impl Card {
    /// True when the point `(mx, my)` lies on a card whose top-left corner
    /// is `(cx, cy)`.
    pub fn mouse_hit(cx: i32, cy: i32, mx: i32, my: i32) -> (r: bool)
        requires
            cx <= i32::MAX - CARD_W,
            cy <= i32::MAX - CARD_H,
        ensures
            r == in_card_rect(cx as int, cy as int, mx as int, my as int),
    {
        mx >= cx && mx <= cx + CARD_W && my >= cy && my <= cy + CARD_H
    }
}

impl Pile {
    /// Left edge of tableau column `pile_index`.
    pub fn pile_x(pile_index: usize) -> (r: i32)
        requires
            pile_index < 7,
        ensures
            r as int == spec_pile_x(pile_index as int),
    {
        INSET + (pile_index as i32) * PILE_H_OFFSET
    }
}

impl Game {
    /// Resolves a pointer position to a board target, in the fixed
    /// precedence order of [`hit_spec`]: stock top, stock rest,
    /// foundations, then piles left to right, within a pile the most
    /// on-top card first. Every returned target describes the board
    /// faithfully in the sense of [`target_ok`].
    #[verifier::loop_isolation(false)]
    pub fn mouse_hit(&self, mx: i32, my: i32) -> (r: Option<MouseTarget>)
        requires
            board_in_layout(self@),
        ensures
            r == hit_spec(self@, mx as int, my as int),
            match r {
                Some(t) => target_ok(self@, t),
                None => true,
            },
    {
        // the stock's revealed top card, then its face-down rest
        if self.stock.len() > 0 && Card::mouse_hit(INSET + PILE_H_OFFSET, INSET, mx, my) {
            return Some(MouseTarget::StockTop);
        }
        if Card::mouse_hit(INSET, INSET, mx, my) {
            return Some(MouseTarget::StockDeck);
        }

        // the foundations, in display order
        let suits = Suit::all();
        let mut si: usize = 0;
        while si < 4
            invariant
                si <= 4,
                suits@ == Suit::spec_all(),
                hit_foundations(mx as int, my as int, 0) == hit_foundations(
                    mx as int,
                    my as int,
                    si as int,
                ),
            decreases 4 - si,
        {
            let s = suits[si];
            let x = FOUNDATIONS_X + (s.foundation_offset() as i32) * PILE_H_OFFSET;
            if Card::mouse_hit(x, INSET, mx, my) {
                return Some(MouseTarget::Foundation(s));
            }
            si = si + 1;
        }

        // the piles, left to right
        let mut p: usize = 0;
        while p < self.piles.len()
            invariant
                p <= self.piles.len(),
                board_in_layout(self@),
                self@.piles.len() == self.piles.len(),
                hit_foundations(mx as int, my as int, 0) is None,
                hit_piles(self@, mx as int, my as int, 0) == hit_piles(
                    self@,
                    mx as int,
                    my as int,
                    p as int,
                ),
            decreases self.piles.len() - p,
        {
            let x = Pile::pile_x(p);
            if mx >= x && mx <= x + CARD_W {
                // the visible cards, topmost first
                let n_hidden = self.piles[p].hidden.len();
                let vlen = self.piles[p].visible.len();
                let mut k: usize = vlen;
                while k > 0
                    invariant
                        k <= vlen,
                        p < self.piles.len(),
                        self@.piles.len() == self.piles.len(),
                        board_in_layout(self@),
                        x as int == spec_pile_x(p as int),
                        n_hidden == self@.piles[p as int].hidden.len(),
                        vlen == self@.piles[p as int].visible.len(),
                        hit_pile_cards(self@, mx as int, my as int, p as int, vlen as int)
                            == hit_pile_cards(self@, mx as int, my as int, p as int, k as int),
                    decreases k,
                {
                    let ci = k - 1;
                    let y = PILES_Y + ((ci + n_hidden) as i32) * PILE_CARD_V_OFFSET;
                    if Card::mouse_hit(x, y, mx, my) {
                        return Some(
                            MouseTarget::PileCard {
                                pile_index: p,
                                n_cards: vlen - ci,
                                target_card: self.piles[p].visible[ci],
                                target_card_index: ci,
                                top: y,
                            },
                        );
                    }
                    k = k - 1;
                }
                if self.piles[p].is_empty() {
                    return Some(MouseTarget::EmptyPile(p));
                }
            }
            p = p + 1;
        }

        None
    }
}

} // verus!
