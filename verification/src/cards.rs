//! Card value types: suits, ranks, colours, cards, and the stacking
//! predicates that the move rules are built from.

use vstd::prelude::*;

verus! {

/// One of the four suits of a standard deck.
#[derive(Clone, Copy, Debug, PartialEq, Eq, Structural)]
pub enum Suit {
    Diamonds,
    Clubs,
    Hearts,
    Spades,
}

/// The colour of a suit: diamonds and hearts are red, clubs and spades black.
#[derive(Clone, Copy, Debug, PartialEq, Eq, Structural)]
pub enum Colour {
    Red,
    Black,
}

/// The thirteen ranks, ordered Ace (lowest) to King (highest).
#[derive(Clone, Copy, Debug, PartialEq, Eq, Structural)]
pub enum Rank {
    Ace,
    Two,
    Three,
    Four,
    Five,
    Six,
    Seven,
    Eight,
    Nine,
    Ten,
    Jack,
    Queen,
    King,
}

/// An immutable card value: a suit paired with a rank. Equality is
/// structural; the game never distinguishes two cards of equal suit and rank.
#[derive(Clone, Copy, Debug, PartialEq, Eq, Structural)]
pub struct Card {
    pub suit: Suit,
    pub rank: Rank,
}

impl Suit {
    /// The four suits in their fixed display order.
    pub open spec fn spec_all() -> Seq<Suit> {
        seq![Suit::Diamonds, Suit::Clubs, Suit::Hearts, Suit::Spades]
    }

    /// The suits in their fixed display order, leftmost foundation first.
    pub fn all() -> (r: Vec<Suit>)
        ensures
            r@ == Suit::spec_all(),
    {
        let mut v: Vec<Suit> = Vec::new();
        v.push(Suit::Diamonds);
        v.push(Suit::Clubs);
        v.push(Suit::Hearts);
        v.push(Suit::Spades);
        proof {
            assert(v@ =~= Suit::spec_all());
        }
        v
    }

    /// Display slot of this suit's foundation, 0 to 3 from the left.
    pub open spec fn spec_foundation_offset(self) -> int {
        match self {
            Suit::Diamonds => 0,
            Suit::Clubs => 1,
            Suit::Hearts => 2,
            Suit::Spades => 3,
        }
    }

    /// Display slot of this suit's foundation, 0 to 3 from the left.
    pub fn foundation_offset(&self) -> (r: usize)
        ensures
            r == self.spec_foundation_offset(),
    {
        match self {
            Suit::Diamonds => 0,
            Suit::Clubs => 1,
            Suit::Hearts => 2,
            Suit::Spades => 3,
        }
    }

    /// The colour this suit belongs to.
    pub open spec fn spec_colour(self) -> Colour {
        match self {
            Suit::Diamonds | Suit::Hearts => Colour::Red,
            Suit::Clubs | Suit::Spades => Colour::Black,
        }
    }
}

impl Rank {
    /// Position of this rank in the Ace..King order, 0 to 12.
    pub open spec fn spec_index(self) -> int {
        match self {
            Rank::Ace => 0,
            Rank::Two => 1,
            Rank::Three => 2,
            Rank::Four => 3,
            Rank::Five => 4,
            Rank::Six => 5,
            Rank::Seven => 6,
            Rank::Eight => 7,
            Rank::Nine => 8,
            Rank::Ten => 9,
            Rank::Jack => 10,
            Rank::Queen => 11,
            Rank::King => 12,
        }
    }

    /// Position of this rank in the Ace..King order, 0 to 12.
    pub fn index(&self) -> (r: i8)
        ensures
            r as int == self.spec_index(),
            0 <= r <= 12,
    {
        match self {
            Rank::Ace => 0,
            Rank::Two => 1,
            Rank::Three => 2,
            Rank::Four => 3,
            Rank::Five => 4,
            Rank::Six => 5,
            Rank::Seven => 6,
            Rank::Eight => 7,
            Rank::Nine => 8,
            Rank::Ten => 9,
            Rank::Jack => 10,
            Rank::Queen => 11,
            Rank::King => 12,
        }
    }

    /// The rank whose index is `i`, for `i` in 0..=12.
    pub open spec fn spec_from_index(i: int) -> Rank {
        if i == 0 {
            Rank::Ace
        } else if i == 1 {
            Rank::Two
        } else if i == 2 {
            Rank::Three
        } else if i == 3 {
            Rank::Four
        } else if i == 4 {
            Rank::Five
        } else if i == 5 {
            Rank::Six
        } else if i == 6 {
            Rank::Seven
        } else if i == 7 {
            Rank::Eight
        } else if i == 8 {
            Rank::Nine
        } else if i == 9 {
            Rank::Ten
        } else if i == 10 {
            Rank::Jack
        } else if i == 11 {
            Rank::Queen
        } else {
            Rank::King
        }
    }

    /// The rank at index `i`, or `None` when `i` lies outside 0..=12.
    pub fn from_index(i: i8) -> (r: Option<Rank>)
        ensures
            match r {
                Some(rk) => 0 <= i <= 12 && rk == Rank::spec_from_index(i as int),
                None => i < 0 || i > 12,
            },
    {
        match i {
            0 => Some(Rank::Ace),
            1 => Some(Rank::Two),
            2 => Some(Rank::Three),
            3 => Some(Rank::Four),
            4 => Some(Rank::Five),
            5 => Some(Rank::Six),
            6 => Some(Rank::Seven),
            7 => Some(Rank::Eight),
            8 => Some(Rank::Nine),
            9 => Some(Rank::Ten),
            10 => Some(Rank::Jack),
            11 => Some(Rank::Queen),
            12 => Some(Rank::King),
            _ => None,
        }
    }

    /// The rank one below this one, if any.
    pub open spec fn spec_pred(self) -> Option<Rank> {
        if self == Rank::Ace {
            None
        } else {
            Some(Rank::spec_from_index(self.spec_index() - 1))
        }
    }

    /// The rank one below this one: `pred(King) == Some(Queen)`,
    /// `pred(Ace) == None`.
    pub fn pred(&self) -> (r: Option<Rank>)
        ensures
            r == self.spec_pred(),
    {
        let prev_index = self.index() - 1;
        Rank::from_index(prev_index)
    }

    /// The display letter of this rank, as a character sequence.
    pub open spec fn spec_letter(self) -> Seq<char> {
        match self {
            Rank::Ace => seq!['A'],
            Rank::Two => seq!['2'],
            Rank::Three => seq!['3'],
            Rank::Four => seq!['4'],
            Rank::Five => seq!['5'],
            Rank::Six => seq!['6'],
            Rank::Seven => seq!['7'],
            Rank::Eight => seq!['8'],
            Rank::Nine => seq!['9'],
            Rank::Ten => seq!['1', '0'],
            Rank::Jack => seq!['J'],
            Rank::Queen => seq!['Q'],
            Rank::King => seq!['K'],
        }
    }

    /// The display letter of this rank ("A", "2", ..., "10", "J", "Q", "K").
    pub fn letter(&self) -> (r: &'static str)
        ensures
            r@ == self.spec_letter(),
    {
        proof {
            reveal_strlit("A");
            reveal_strlit("2");
            reveal_strlit("3");
            reveal_strlit("4");
            reveal_strlit("5");
            reveal_strlit("6");
            reveal_strlit("7");
            reveal_strlit("8");
            reveal_strlit("9");
            reveal_strlit("10");
            reveal_strlit("J");
            reveal_strlit("Q");
            reveal_strlit("K");
        }
        match self {
            Rank::Ace => "A",
            Rank::Two => "2",
            Rank::Three => "3",
            Rank::Four => "4",
            Rank::Five => "5",
            Rank::Six => "6",
            Rank::Seven => "7",
            Rank::Eight => "8",
            Rank::Nine => "9",
            Rank::Ten => "10",
            Rank::Jack => "J",
            Rank::Queen => "Q",
            Rank::King => "K",
        }
    }
}

/// The thirteen ranks in ascending order.
pub open spec fn rank_order() -> Seq<Rank> {
    seq![
        Rank::Ace,
        Rank::Two,
        Rank::Three,
        Rank::Four,
        Rank::Five,
        Rank::Six,
        Rank::Seven,
        Rank::Eight,
        Rank::Nine,
        Rank::Ten,
        Rank::Jack,
        Rank::Queen,
        Rank::King,
    ]
}

/// The thirteen cards of one suit, Ace first.
pub open spec fn suit_run(s: Suit) -> Seq<Card> {
    Seq::new(13, |i: int| Card { suit: s, rank: rank_order()[i] })
}

/// The canonical enumeration of the full 52-card deck: the four suits in
/// display order, each Ace to King.
pub open spec fn full_deck() -> Seq<Card> {
    suit_run(Suit::Diamonds) + suit_run(Suit::Clubs) + suit_run(Suit::Hearts) + suit_run(
        Suit::Spades,
    )
}

impl Card {
    /// True when `c` may be laid on `t` in a tableau pile: the colours
    /// differ and `t` ranks exactly one above `c`.
    pub open spec fn spec_can_pile_onto(c: Card, t: Card) -> bool {
        c.suit.spec_colour() != t.suit.spec_colour() && t.rank.spec_index() == c.rank.spec_index()
            + 1
    }

    /// True when `c` may be laid on foundation top `t`: same suit and `c`
    /// ranks exactly one above `t`.
    pub open spec fn spec_can_stack_onto_in_foundation(c: Card, t: Card) -> bool {
        c.suit == t.suit && c.rank.spec_index() == t.rank.spec_index() + 1
    }

    /// Builds the card of the given suit and rank.
    pub fn new(suit: Suit, rank: Rank) -> (r: Card)
        ensures
            r == (Card { suit, rank }),
    {
        Card { suit, rank }
    }

    /// The colour of this card's suit.
    pub fn col(&self) -> (r: Colour)
        ensures
            r == self.suit.spec_colour(),
    {
        match self.suit {
            Suit::Diamonds | Suit::Hearts => Colour::Red,
            Suit::Clubs | Suit::Spades => Colour::Black,
        }
    }

    /// All 52 cards of a standard deck, in the canonical enumeration order.
    pub fn all_cards() -> (r: Vec<Card>)
        ensures
            r@ == full_deck(),
            r@.len() == 52,
    {
        let ranks = rank_vec();
        let mut cards: Vec<Card> = Vec::new();
        push_suit_run(&mut cards, &ranks, Suit::Diamonds);
        push_suit_run(&mut cards, &ranks, Suit::Clubs);
        push_suit_run(&mut cards, &ranks, Suit::Hearts);
        push_suit_run(&mut cards, &ranks, Suit::Spades);
        proof {
            assert(cards@ =~= full_deck());
        }
        cards
    }

    /// True when this card can stack on top of `other` in a pile, e.g. a red
    /// Two on a black Three.
    pub fn can_pile_onto(&self, other: Card) -> (r: bool)
        ensures
            r == Card::spec_can_pile_onto(*self, other),
    {
        let sc = self.col();
        let oc = other.col();
        sc != oc && other.rank.index() - self.rank.index() == 1
    }

    /// True when this card can stack on top of `other` in a foundation
    /// stack, e.g. the Two of Diamonds on the Ace of Diamonds.
    pub fn can_stack_onto_in_foundation(&self, other: Card) -> (r: bool)
        ensures
            r == Card::spec_can_stack_onto_in_foundation(*self, other),
    {
        self.suit == other.suit && self.rank.index() - other.rank.index() == 1
    }
}

/// The thirteen ranks in ascending order, as a vector.
fn rank_vec() -> (r: Vec<Rank>)
    ensures
        r@ == rank_order(),
{
    let mut v: Vec<Rank> = Vec::new();
    v.push(Rank::Ace);
    v.push(Rank::Two);
    v.push(Rank::Three);
    v.push(Rank::Four);
    v.push(Rank::Five);
    v.push(Rank::Six);
    v.push(Rank::Seven);
    v.push(Rank::Eight);
    v.push(Rank::Nine);
    v.push(Rank::Ten);
    v.push(Rank::Jack);
    v.push(Rank::Queen);
    v.push(Rank::King);
    proof {
        assert(v@ =~= rank_order());
    }
    v
}

/// Appends the thirteen cards of suit `s`, Ace first, to `cards`.
fn push_suit_run(cards: &mut Vec<Card>, ranks: &Vec<Rank>, s: Suit)
    requires
        ranks@ == rank_order(),
    ensures
        final(cards)@ == old(cards)@ + suit_run(s),
{
    let ghost orig = cards@;
    let mut i: usize = 0;
    while i < 13
        invariant
            ranks@ == rank_order(),
            i <= 13,
            cards@ == orig + suit_run(s).take(i as int),
        decreases 13 - i,
    {
        cards.push(Card { suit: s, rank: ranks[i] });
        proof {
            assert(orig + suit_run(s).take(i as int + 1) =~= (orig + suit_run(s).take(i as int)).push(
                Card { suit: s, rank: rank_order()[i as int] },
            ));
        }
        i = i + 1;
    }
    proof {
        assert(cards@ =~= orig + suit_run(s));
    }
}

} // verus!
